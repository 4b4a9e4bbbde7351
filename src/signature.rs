//! Content markers that identify the game connection from one segment.
use vstd::prelude::*;
use crate::frame::GamePacket;

verus! {

/// The service id that the signature carries.
pub const SERVICE_UUID: u64 = 0x0000000063335342;

/// Length of every login segment.
pub const LOGIN_PACKET_SIZE: usize = 98;

/// Offset at which a service frame usually carries the signature.
pub const SIGNATURE_OFFSET: usize = 5;

/// The 6-byte service signature.
pub open spec fn game_server_signature() -> Seq<u8> {
    seq![0x00u8, 0x63u8, 0x33u8, 0x53u8, 0x42u8, 0x00u8]
}

/// The bytes at offsets 0 to 10 of a login segment.
pub open spec fn login_signature_1() -> Seq<u8> {
    seq![0x00u8, 0x00u8, 0x00u8, 0x62u8, 0x00u8, 0x03u8, 0x00u8, 0x00u8, 0x00u8, 0x01u8]
}

/// The bytes at offsets 14 to 20 of a login segment.
pub open spec fn login_signature_2() -> Seq<u8> {
    seq![0x00u8, 0x00u8, 0x00u8, 0x00u8, 0x0au8, 0x4eu8]
}

fn game_server_signature_bytes() -> (r: Vec<u8>)
    ensures
        r@ == game_server_signature(),
{
    let r: Vec<u8> = vec![0x00, 0x63, 0x33, 0x53, 0x42, 0x00];
    assert(r@ =~= game_server_signature());
    r
}

fn login_signature_1_bytes() -> (r: Vec<u8>)
    ensures
        r@ == login_signature_1(),
{
    let r: Vec<u8> = vec![0x00, 0x00, 0x00, 0x62, 0x00, 0x03, 0x00, 0x00, 0x00, 0x01];
    assert(r@ =~= login_signature_1());
    r
}

fn login_signature_2_bytes() -> (r: Vec<u8>)
    ensures
        r@ == login_signature_2(),
{
    let r: Vec<u8> = vec![0x00, 0x00, 0x00, 0x00, 0x0a, 0x4e];
    assert(r@ =~= login_signature_2());
    r
}

/// Whether `pat` occurs in `b` at offset `at`.
pub open spec fn occurs_at(b: Seq<u8>, pat: Seq<u8>, at: int) -> bool {
    0 <= at && at + pat.len() <= b.len() && b.subrange(at, at + pat.len()) == pat
}

/// Whether the service signature occurs anywhere in `b`.
pub open spec fn has_signature_anywhere(b: Seq<u8>) -> bool {
    exists|i: int| #[trigger] occurs_at(b, game_server_signature(), i)
}

/// Whether `b` is a login segment: 98 bytes with both fixed ranges.
pub open spec fn is_login(b: Seq<u8>) -> bool {
    &&& b.len() == LOGIN_PACKET_SIZE
    &&& occurs_at(b, login_signature_1(), 0)
    &&& occurs_at(b, login_signature_2(), 14)
}

/// Whether a segment is evidence of the game connection.
pub open spec fn identifies_game(b: Seq<u8>) -> bool {
    has_signature_anywhere(b) || is_login(b)
}

/// A login segment no longer matches once the byte at offset 0 or 19, one
/// in each fixed range, is changed.
pub proof fn lemma_login_match_is_exact(b: Seq<u8>, i: int, v: u8)
    requires
        is_login(b),
        i == 0 || i == 19,
        v != b[i],
    ensures
        !is_login(b.update(i, v)),
{
    let c = b.update(i, v);
    if i == 0 {
        assert(c.subrange(0, 10)[0] != login_signature_1()[0]);
    } else {
        assert(c.subrange(14, 20)[5] != login_signature_2()[5]);
    }
}

/// Compares `pat` with the bytes of `b` from `at`.
pub fn bytes_match_at(b: &[u8], at: usize, pat: &[u8]) -> (r: bool)
    ensures
        r == occurs_at(b@, pat@, at as int),
{
    if at > b.len() || pat.len() > b.len() - at {
        return false;
    }
    let n = b.len();
    let mut i: usize = 0;
    while i < pat.len()
        invariant
            n == b@.len(),
            i <= pat@.len(),
            at + pat@.len() <= b@.len(),
            forall|j: int| 0 <= j < i ==> b@[at + j] == pat@[j],
        decreases pat@.len() - i,
    {
        if b[at + i] != pat[i] {
            assert(b@.subrange(at as int, at + pat@.len())[i as int] != pat@[i as int]);
            return false;
        }
        i = i + 1;
    }
    assert(b@.subrange(at as int, at + pat@.len()) =~= pat@);
    true
}

/// Looks for the service signature at every offset of `payload`.
pub fn scan_for_signature(payload: &[u8]) -> (r: bool)
    ensures
        r == has_signature_anywhere(payload@),
{
    let sig = game_server_signature_bytes();
    let sig_len = sig.len();
    if payload.len() < sig_len {
        assert forall|i: int| !occurs_at(payload@, game_server_signature(), i) by {}
        return false;
    }
    let n = payload.len();
    let last = n - sig_len;
    let mut i: usize = 0;
    while i <= last
        invariant
            sig@ == game_server_signature(),
            n == payload@.len(),
            sig_len == sig@.len(),
            last + sig_len == n,
            forall|j: int| 0 <= j < i ==> !occurs_at(payload@, game_server_signature(), j),
        decreases last + 1 - i,
    {
        if bytes_match_at(payload, i, sig.as_slice()) {
            return true;
        }
        i = i + 1;
    }
    assert forall|j: int| !occurs_at(payload@, game_server_signature(), j) by {
        if 0 <= j < i {
        }
    }
    false
}

impl GamePacket {
    /// Whether the service signature stands at its usual offset, 5.
    pub fn has_game_signature(payload: &[u8]) -> (r: bool)
        ensures
            r == occurs_at(payload@, game_server_signature(), SIGNATURE_OFFSET as int),
    {
        let sig = game_server_signature_bytes();
        bytes_match_at(payload, SIGNATURE_OFFSET, sig.as_slice())
    }

    /// Whether `payload` is exactly a login segment.
    pub fn is_login_packet(payload: &[u8]) -> (r: bool)
        ensures
            r == is_login(payload@),
    {
        if payload.len() != LOGIN_PACKET_SIZE {
            return false;
        }
        let head = login_signature_1_bytes();
        let tail = login_signature_2_bytes();
        bytes_match_at(payload, 0, head.as_slice()) && bytes_match_at(payload, 14, tail.as_slice())
    }
}

} // verus!
