//! Turns TCP segments delivered in any order into the ordered byte stream.
use std::collections::BTreeMap;
use vstd::prelude::*;
use crate::frame::{check_frame, frame_status, FrameStatus};

verus! {

/// TCP sequence numbers wrap at 2^32.
pub const SEQ_MODULUS: u64 = 0x1_0000_0000;

/// The sequence number `len` bytes after `seq`.
pub open spec fn seq_after(seq: usize, len: nat) -> usize {
    ((seq + len) % (SEQ_MODULUS as int)) as usize
}

/// The abstract state of a reassembler.
pub struct StreamModel {
    /// The next sequence number expected, once one is known.
    pub next: Option<usize>,
    /// Segments waiting for the stream to reach them, by sequence number.
    pub pending: Map<usize, Seq<u8>>,
    /// The reassembled bytes not yet taken as frames.
    pub data: Seq<u8>,
}

/// A reassembler with nothing buffered that expects `next`.
pub open spec fn empty_stream(next: Option<usize>) -> StreamModel {
    StreamModel { next, pending: Map::empty(), data: Seq::empty() }
}

/// The state after a segment at `seq` is offered: a first segment fixes the
/// expected sequence number; a segment is kept unless it starts behind it.
pub open spec fn observe(m: StreamModel, seq: usize, payload: Seq<u8>) -> StreamModel {
    let next = match m.next {
        Some(n) => n,
        None => seq,
    };
    StreamModel {
        next: Some(next),
        pending: if seq >= next {
            m.pending.insert(seq, payload)
        } else {
            m.pending
        },
        data: m.data,
    }
}

/// Whether a pending segment starts exactly where the stream stands.
pub open spec fn can_advance(m: StreamModel) -> bool {
    m.next is Some && m.pending.contains_key(m.next->Some_0)
}

/// Whether `k` is one of the `len` sequence numbers from `n` on: a segment
/// starting there begins in bytes already taken into the stream.
pub open spec fn passed(n: usize, len: nat, k: usize) -> bool {
    exists|j: nat| j < len && #[trigger] seq_after(n, j) == k
}

/// The sequence numbers that `len` bytes from `n` cover.
pub open spec fn passed_keys(n: usize, len: nat) -> Set<usize> {
    Set::new(|k: usize| passed(n, len, k))
}

/// The state after the segment at the expected sequence number is
/// appended; every pending segment that starts within its bytes is dropped.
pub open spec fn advance(m: StreamModel) -> StreamModel {
    let n = m.next->Some_0;
    let len = m.pending[n].len();
    StreamModel {
        next: Some(seq_after(n, len)),
        pending: m.pending.remove(n).remove_keys(passed_keys(n, len)),
        data: m.data + m.pending[n],
    }
}

/// The state after every segment that continues the stream is appended.
pub open spec fn drain(m: StreamModel) -> StreamModel
    decreases m.pending.dom().len(),
    via drain_decreases
{
    if m.pending.dom().finite() && can_advance(m) {
        drain(advance(m))
    } else {
        m
    }
}

/// Advancing keeps the pending keys finite and removes at least one.
pub proof fn lemma_advance_shrinks(m: StreamModel)
    requires
        m.pending.dom().finite(),
        can_advance(m),
    ensures
        advance(m).pending.dom().finite(),
        advance(m).pending.dom().len() < m.pending.dom().len(),
        forall|k: usize| #[trigger] advance(m).pending.contains_key(k) ==> m.pending.contains_key(k)
            && advance(m).pending[k] == m.pending[k],
{
    let n = m.next->Some_0;
    let rest = m.pending.remove(n).dom();
    assert(advance(m).pending.dom().subset_of(rest));
    vstd::set_lib::lemma_len_subset(advance(m).pending.dom(), rest);
}

#[via_fn]
pub proof fn drain_decreases(m: StreamModel) {
    if m.pending.dom().finite() && can_advance(m) {
        lemma_advance_shrinks(m);
    }
}

/// Every pending segment starts at or after the expected sequence number.
pub open spec fn ordered(m: StreamModel) -> bool {
    forall|k: usize| #[trigger] m.pending.contains_key(k) ==> (m.next matches Some(n) && n <= k)
}

/// `seq_after` depends on the distance modulo 2^32 only.
pub proof fn lemma_seq_after_mod(n: usize, j: nat)
    ensures
        seq_after(n, j) == seq_after(n, j % (SEQ_MODULUS as nat)),
{
    let m = SEQ_MODULUS as int;
    vstd::arithmetic::div_mod::lemma_add_mod_noop(n as int, j as int, m);
    vstd::arithmetic::div_mod::lemma_add_mod_noop(n as int, (j % (SEQ_MODULUS as nat)) as int, m);
    vstd::arithmetic::div_mod::lemma_mod_twice(j as int, m);
}

/// Advancing an ordered stream leaves it ordered.
pub proof fn lemma_advance_ordered(m: StreamModel)
    requires
        m.pending.dom().finite(),
        can_advance(m),
        ordered(m),
    ensures
        ordered(advance(m)),
{
    let n = m.next->Some_0;
    let len = m.pending[n].len();
    let n2 = seq_after(n, len);
    let a = advance(m);
    lemma_advance_shrinks(m);
    assert forall|k: usize| #[trigger] a.pending.contains_key(k) implies n2 <= k by {
        assert(m.pending.contains_key(k));
        assert(!passed(n, len, k));
        if k < SEQ_MODULUS && k < n + len {
            let j = (k - n) as nat;
            vstd::arithmetic::div_mod::lemma_small_mod(k as nat, SEQ_MODULUS as nat);
            assert(seq_after(n, j) == k);
        }
        if n + len < SEQ_MODULUS {
            vstd::arithmetic::div_mod::lemma_small_mod((n + len) as nat, SEQ_MODULUS as nat);
        }
    }
}

/// Draining an ordered stream leaves every pending segment strictly after
/// the expected sequence number.
pub proof fn lemma_drain_ordered(m: StreamModel)
    requires
        m.pending.dom().finite(),
        ordered(m),
    ensures
        drain(m).pending.dom().finite(),
        ordered(drain(m)),
        drain(m).next matches Some(n) ==> forall|k: usize| #[trigger] drain(m).pending.contains_key(k) ==> n < k,
    decreases m.pending.dom().len(),
{
    if can_advance(m) {
        lemma_advance_shrinks(m);
        lemma_advance_ordered(m);
        lemma_drain_ordered(advance(m));
    }
}

/// Whether byte `j` appended after `m`'s bytes in `d` is the byte that a
/// segment pending in `m` holds at sequence number `j` after `n`.
pub open spec fn byte_from_pending(m: StreamModel, d: StreamModel, n: usize, j: int) -> bool {
    exists|k: usize, i: int|
        m.pending.contains_key(k) && 0 <= i < m.pending[k].len() && seq_after(k, i as nat)
            == seq_after(n, j as nat) && d.data[m.data.len() + j] == #[trigger] m.pending[k][i]
}

/// What one drain from expected sequence number `n` did: the old bytes are
/// kept in front, the expected number moved on by exactly the bytes
/// appended, and each appended byte is the byte that a segment pending
/// before held at that sequence number.
pub open spec fn appended_from_pending(m: StreamModel, d: StreamModel, n: usize) -> bool {
    &&& m.data.len() <= d.data.len()
    &&& d.data.subrange(0, m.data.len() as int) == m.data
    &&& d.next == Some(seq_after(n, (d.data.len() - m.data.len()) as nat))
    &&& forall|j: int| 0 <= j < d.data.len() - m.data.len() ==> #[trigger] byte_from_pending(m, d, n, j)
}

/// Moving `x` and then `y` on from `n` is moving `x + y` on.
pub proof fn lemma_seq_after_add(n: usize, x: nat, y: nat)
    ensures
        seq_after(seq_after(n, x), y) == seq_after(n, x + y),
{
    let m = SEQ_MODULUS as int;
    vstd::arithmetic::div_mod::lemma_add_mod_noop(n + x, y as int, m);
    vstd::arithmetic::div_mod::lemma_mod_twice(n + x, m);
    vstd::arithmetic::div_mod::lemma_small_mod(y % (SEQ_MODULUS as nat), SEQ_MODULUS as nat);
    vstd::arithmetic::div_mod::lemma_add_mod_noop((n + x) % m, y as int, m);
}

/// No gap within one drain: from a valid 32-bit expected sequence number,
/// the bytes appended are exactly pending bytes, each at its own sequence
/// number, one after another.
pub proof fn lemma_drain_takes_pending_bytes(m: StreamModel)
    requires
        m.next matches Some(n) && n < SEQ_MODULUS,
        m.pending.dom().finite(),
    ensures
        appended_from_pending(m, drain(m), m.next->Some_0),
    decreases m.pending.dom().len(),
{
    let n = m.next->Some_0;
    if can_advance(m) {
        let seg = m.pending[n];
        let len = seg.len();
        let m2 = advance(m);
        let n2 = seq_after(n, len);
        lemma_advance_shrinks(m);
        lemma_drain_takes_pending_bytes(m2);
        let d = drain(m2);
        assert(drain(m) == d);
        let added2 = d.data.len() - m2.data.len();
        lemma_seq_after_add(n, len, added2 as nat);
        assert(d.data.subrange(0, m.data.len() as int) =~= m.data) by {
            assert(d.data.subrange(0, m2.data.len() as int) == m2.data);
            assert forall|x: int| 0 <= x < m.data.len() implies d.data[x] == m.data[x] by {
                assert(d.data.subrange(0, m2.data.len() as int)[x] == m2.data[x]);
            }
        }
        let added = d.data.len() - m.data.len();
        assert forall|j: int| 0 <= j < added implies #[trigger] byte_from_pending(m, d, n, j) by {
            if j < len {
                assert(d.data.subrange(0, m2.data.len() as int)[m.data.len() + j] == m2.data[m.data.len() + j]);
                assert(d.data[m.data.len() + j] == m.pending[n][j]);
                assert(m.pending.contains_key(n) && 0 <= j < m.pending[n].len() && seq_after(n, j as nat)
                    == seq_after(n, j as nat) && d.data[m.data.len() + j] == m.pending[n][j]);
            } else {
                let j2 = j - len;
                assert(0 <= j2 < added2);
                assert(byte_from_pending(m2, d, n2, j2));
                let (k, i) = choose|k: usize, i: int|
                    m2.pending.contains_key(k) && 0 <= i < m2.pending[k].len() && seq_after(k, i as nat)
                        == seq_after(n2, j2 as nat) && d.data[m2.data.len() + j2] == #[trigger] m2.pending[k][i];
                lemma_seq_after_add(n, len, j2 as nat);
                assert(m.pending.contains_key(k) && m.pending[k] == m2.pending[k]);
                assert(m2.data.len() + j2 == m.data.len() + j);
                assert(m.pending[k][i] == d.data[m.data.len() + j]);
            }
        }
    } else {
        vstd::arithmetic::div_mod::lemma_small_mod(n as nat, SEQ_MODULUS as nat);
        assert(m.data.subrange(0, m.data.len() as int) =~= m.data);
    }
}

/// The frame taken from the front of `d`, if any, and what is left of `d`.
pub open spec fn extract(d: Seq<u8>) -> (Option<Seq<u8>>, Seq<u8>) {
    match frame_status(d) {
        FrameStatus::NeedMore => (None, d),
        FrameStatus::Malformed => (None, Seq::empty()),
        FrameStatus::Ready(n) => (Some(d.subrange(0, n as int)), d.subrange(n as int, d.len() as int)),
    }
}

/// Taking a frame and then another from what is left never hands out the
/// same bytes twice: the first frame is the front of the buffer, the second
/// the bytes right after it, and each is at least a header long.
pub proof fn lemma_extraction_never_repeats(d: Seq<u8>)
    ensures
        extract(d).0 matches Some(f1) ==> {
            &&& f1.len() >= 6
            &&& d == f1 + extract(d).1
            &&& (extract(extract(d).1).0 matches Some(f2) ==> d == f1 + f2 + extract(
                extract(d).1,
            ).1)
        },
{
    if let Some(f1) = extract(d).0 {
        let rest = extract(d).1;
        assert(d =~= f1 + rest);
        if let Some(f2) = extract(rest).0 {
            assert(rest =~= f2 + extract(rest).1);
            assert(d =~= f1 + f2 + extract(rest).1);
        }
    }
}

/// Reassembles one direction of one TCP connection.
#[derive(Debug)]
pub struct TCPReassembler {
    pub next_seq: Option<usize>,
    pub cache: BTreeMap<usize, Vec<u8>>,
    pub data: Vec<u8>,
}

impl View for TCPReassembler {
    type V = StreamModel;

    open spec fn view(&self) -> StreamModel {
        StreamModel {
            next: self.next_seq,
            pending: self.cache@.map_values(|v: Vec<u8>| v@),
            data: self.data@,
        }
    }
}

/// `(seq + len) mod 2^32`.
fn wrap_seq(seq: usize, len: usize) -> (r: usize)
    ensures
        r == seq_after(seq, len as nat),
{
    let a = (seq as u64) % SEQ_MODULUS;
    let b = (len as u64) % SEQ_MODULUS;
    let r = ((a + b) % SEQ_MODULUS) as usize;
    assert(r == seq_after(seq, len as nat)) by {
        vstd::arithmetic::div_mod::lemma_add_mod_noop(seq as int, len as int, SEQ_MODULUS as int);
    }
    r
}

/// Removes from `cache` every key that the `len` bytes from `n` cover.
fn drop_passed(cache: &mut BTreeMap<usize, Vec<u8>>, n: usize, len: usize)
    ensures
        final(cache)@ == old(cache)@.remove_keys(passed_keys(n, len as nat)),
{
    let limit: u64 = if (len as u64) < SEQ_MODULUS {
        len as u64
    } else {
        SEQ_MODULUS
    };
    let mut j: u64 = 0;
    assert(old(cache)@ =~= old(cache)@.remove_keys(passed_keys(n, 0)));
    while j < limit
        invariant
            j <= limit,
            limit <= SEQ_MODULUS,
            limit <= len,
            limit == len || limit == SEQ_MODULUS,
            cache@ == old(cache)@.remove_keys(passed_keys(n, j as nat)),
        decreases limit - j,
    {
        let key = wrap_seq(n, j as usize);
        let ghost before = cache@;
        cache.remove(&key);
        assert forall|k: usize| #[trigger] passed_keys(n, (j + 1) as nat).contains(k) <==> (passed_keys(
            n,
            j as nat,
        ).contains(k) || k == key) by {
            if k == key {
                assert(seq_after(n, j as nat) == k);
            }
            if passed(n, (j + 1) as nat, k) {
                let i = choose|i: nat| i < j + 1 && #[trigger] seq_after(n, i) == k;
                if i < j {
                    assert(passed(n, j as nat, k));
                }
            }
        }
        assert(cache@ =~= old(cache)@.remove_keys(passed_keys(n, (j + 1) as nat)));
        j = j + 1;
    }
    assert forall|k: usize| #[trigger] passed_keys(n, len as nat).contains(k) <==> passed_keys(n, limit as nat).contains(k) by {
        if passed(n, len as nat, k) {
            let i = choose|i: nat| i < len && #[trigger] seq_after(n, i) == k;
            lemma_seq_after_mod(n, i);
            assert(i % (SEQ_MODULUS as nat) < SEQ_MODULUS);
            if limit == len {
            } else {
                assert(seq_after(n, i % (SEQ_MODULUS as nat)) == k);
            }
        }
    }
    assert(cache@ =~= old(cache)@.remove_keys(passed_keys(n, len as nat)));
}

impl TCPReassembler {
    /// The cache's keys are finite, and none lies before the expected
    /// sequence number.
    pub open spec fn well_formed(&self) -> bool {
        self.cache@.dom().finite() && ordered(self@)
    }

    pub fn new() -> (r: TCPReassembler)
        ensures
            r.well_formed(),
            r@ == empty_stream(None),
    {
        let r = TCPReassembler { next_seq: None, cache: BTreeMap::new(), data: Vec::new() };
        assert(r@.pending =~= Map::empty());
        assert(r@.data =~= Seq::empty());
        r
    }

    /// Drops every buffered byte and expects `seq` next.
    pub fn clear(&mut self, seq: usize)
        ensures
            final(self).well_formed(),
            final(self)@ == empty_stream(Some(seq)),
    {
        self.next_seq = Some(seq);
        self.cache.clear();
        self.data.clear();
        assert(self@.pending =~= Map::empty());
        assert(self@.data =~= Seq::empty());
    }

    /// Offers the segment that starts at `seq`.
    pub fn add_packet(&mut self, seq: usize, payload: Vec<u8>)
        requires
            old(self).well_formed(),
        ensures
            final(self).well_formed(),
            final(self)@ == observe(old(self)@, seq, payload@),
    {
        if self.next_seq.is_none() {
            self.next_seq = Some(seq);
        }
        let next_seq = match self.next_seq {
            Some(n) => n,
            None => seq,
        };
        if seq >= next_seq {
            let ghost p = payload@;
            self.cache.insert(seq, payload);
            assert(self@.pending =~= old(self)@.pending.insert(seq, p));
        }
    }

    /// Appends every buffered segment that continues the stream; tells
    /// whether any was.
    pub fn reassemble(&mut self) -> (progress: bool)
        requires
            old(self).well_formed(),
        ensures
            final(self).well_formed(),
            final(self)@ == drain(old(self)@),
            progress == can_advance(old(self)@),
            final(self)@.next matches Some(n) ==> forall|k: usize| #[trigger] final(self)@.pending.contains_key(k) ==> n < k,
            old(self)@.next matches Some(n) ==> (n < SEQ_MODULUS ==> appended_from_pending(old(self)@, final(self)@, n)),
    {
        let mut next_seq = match self.next_seq {
            Some(n) => n,
            None => {
                return false;
            },
        };
        let ghost next_seq_start = next_seq;
        let mut progress = false;
        loop
            invariant
                self.well_formed(),
                self.next_seq == Some(next_seq),
                old(self)@.next == Some(next_seq_start),
                old(self).well_formed(),
                drain(self@) == drain(old(self)@),
                progress ==> can_advance(old(self)@),
                !progress ==> self@ == old(self)@,
            decreases self.cache@.dom().len(),
        {
            let ghost before = self@;
            let ghost cache_before = self.cache@;
            assert(before.pending.dom() =~= self.cache@.dom());
            match self.cache.remove(&next_seq) {
                Some(mut cached) => {
                    let ghost chunk = cached@;
                    assert(before.pending.contains_key(next_seq));
                    assert(before.pending[next_seq] == chunk);
                    let len = cached.len();
                    self.data.append(&mut cached);
                    let ghost after_remove = self.cache@;
                    drop_passed(&mut self.cache, next_seq, len);
                    next_seq = wrap_seq(next_seq, len);
                    self.next_seq = Some(next_seq);
                    progress = true;
                    assert(self@.pending =~= before.pending.remove(before.next->Some_0).remove_keys(
                        passed_keys(before.next->Some_0, chunk.len()),
                    ));
                    assert(self@ == advance(before));
                    proof {
                        lemma_advance_shrinks(before);
                        lemma_advance_ordered(before);
                    }
                    assert(drain(before) == drain(advance(before)));
                },
                None => {
                    assert(!before.pending.contains_key(next_seq));
                    assert(drain(before) == before);
                    assert(self.cache@ =~= cache_before);
                    assert(self@ == before);
                    proof {
                        lemma_drain_ordered(before);
                        if next_seq_start < SEQ_MODULUS {
                            assert(old(self)@.pending.dom() =~= old(self).cache@.dom());
                            lemma_drain_takes_pending_bytes(old(self)@);
                        }
                    }
                    return progress;
                },
            }
        }
    }

    /// Takes the next whole frame off the front of the stream. A declared
    /// size out of bounds discards every buffered byte.
    pub fn extract_packet(&mut self) -> (r: Option<Vec<u8>>)
        ensures
            final(self).next_seq == old(self).next_seq,
            final(self).cache@ == old(self).cache@,
            (match r {
                Some(f) => Some(f@),
                None => None,
            }, final(self).data@) == extract(old(self).data@),
    {
        match check_frame(self.data.as_slice()) {
            FrameStatus::NeedMore => None,
            FrameStatus::Malformed => {
                self.data.clear();
                None
            },
            FrameStatus::Ready(n) => {
                let mut frame = self.data.split_off(n);
                std::mem::swap(&mut self.data, &mut frame);
                Some(frame)
            },
        }
    }
}

impl Default for TCPReassembler {
    fn default() -> (r: TCPReassembler)
        ensures
            r.well_formed(),
            r@ == empty_stream(None),
    {
        TCPReassembler::new()
    }
}

} // verus!
