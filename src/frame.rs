//! The outer length-prefixed frame and the inner notification header.
use vstd::prelude::*;

verus! {

/// Bytes in the outer header: a 4-byte length and a 2-byte type field.
pub const FRAME_HEADER_LEN: usize = 6;

/// Largest declared frame size that is taken as genuine (1 MiB).
pub const MAX_FRAME_SIZE: u32 = 1048576;

/// Bit 15 of the type field marks a zstd-compressed payload.
pub const COMPRESSED_FLAG: u16 = 0x8000;

/// Bits 0 to 14 of the type field give the fragment kind.
pub const FRAGMENT_MASK: u16 = 0x7fff;

/// Bytes in the notification header: service id, stub id and method id.
pub const NOTIFY_HEADER_LEN: usize = 16;

/// Little-endian value of the two bytes of `b` from `at`.
pub open spec fn le_u16(b: Seq<u8>, at: int) -> int {
    b[at] + 256 * b[at + 1]
}

/// Little-endian value of the four bytes of `b` from `at`.
pub open spec fn le_u32(b: Seq<u8>, at: int) -> int {
    le_u16(b, at) + 65536 * le_u16(b, at + 2)
}

/// Little-endian value of the eight bytes of `b` from `at`.
pub open spec fn le_u64(b: Seq<u8>, at: int) -> int {
    le_u32(b, at) + 4294967296 * le_u32(b, at + 4)
}

pub fn read_u16_le(b: &[u8], at: usize) -> (r: u16)
    requires
        at + 2 <= b@.len(),
    ensures
        r == le_u16(b@, at as int),
{
    (b[at] as u16) + (b[at + 1] as u16) * 256
}

pub fn read_u32_le(b: &[u8], at: usize) -> (r: u32)
    requires
        at + 4 <= b@.len(),
    ensures
        r == le_u32(b@, at as int),
{
    (b[at] as u32) + (b[at + 1] as u32) * 256 + (b[at + 2] as u32) * 65536 + (b[at + 3] as u32)
        * 16777216
}

pub fn read_u64_le(b: &[u8], at: usize) -> (r: u64)
    requires
        at + 8 <= b@.len(),
    ensures
        r == le_u64(b@, at as int),
{
    let len = b.len();
    assert(at + 8 <= len);
    let lo = read_u32_le(b, at) as u64;
    let hi = read_u32_le(b, at + 4) as u64;
    lo + hi * 4294967296
}

/// Copy of `b[from..]`.
pub fn tail_of(b: &[u8], from: usize) -> (r: Vec<u8>)
    requires
        from <= b@.len(),
    ensures
        r@ == b@.subrange(from as int, b@.len() as int),
{
    let mut r: Vec<u8> = Vec::new();
    let mut i: usize = from;
    while i < b.len()
        invariant
            from <= i <= b@.len(),
            r@ == b@.subrange(from as int, i as int),
        decreases b@.len() - i,
    {
        r.push(b[i]);
        i = i + 1;
    }
    r
}

#[derive(Debug, Clone, Copy, PartialEq, Eq, Structural)]
pub enum FragmentType {
    Notify,
    FrameDown,
    Unknown,
}

/// The fragment kind that the 15-bit code `code` names.
pub open spec fn fragment_of(code: u16) -> FragmentType {
    if code == 0 {
        FragmentType::Notify
    } else if code == 1 {
        FragmentType::FrameDown
    } else {
        FragmentType::Unknown
    }
}

impl From<u16> for FragmentType {
    fn from(value: u16) -> (r: FragmentType)
        ensures
            r == fragment_of(value),
    {
        match value {
            0 => FragmentType::Notify,
            1 => FragmentType::FrameDown,
            _ => FragmentType::Unknown,
        }
    }
}

impl vstd::std_specs::convert::FromSpecImpl<u16> for FragmentType {
    open spec fn obeys_from_spec() -> bool {
        true
    }

    open spec fn from_spec(v: u16) -> FragmentType {
        fragment_of(v)
    }
}

/// Why a frame or one of its parts could not be decoded.
#[derive(Debug, Clone, Copy, PartialEq, Eq, Structural)]
pub enum PacketError {
    /// Fewer bytes than the 6-byte frame header.
    PacketTooSmall { len: usize },
    /// A notification payload shorter than its 16-byte header.
    NotifyTooSmall { len: usize },
    /// A compressed payload that zstd could not decode.
    Decompression,
    /// A read that would run past the end of the buffer.
    OutOfRange,
    /// Bytes that are not UTF-8.
    InvalidUtf8,
}

/// One application message cut out of the reassembled stream.
#[derive(Debug)]
pub struct GamePacket {
    /// The declared on-wire length, header included.
    pub size: u32,
    /// The raw type field: compression flag and fragment kind.
    pub packet_type: u16,
    pub is_compressed: bool,
    pub fragment_type: FragmentType,
    /// Every byte after the 6-byte header.
    pub payload: Vec<u8>,
}

/// A decoded notification: service id, method id and the remaining data.
#[derive(Debug)]
pub struct NotifyPacket {
    pub service_uuid: u64,
    pub method_id: u32,
    pub data: Vec<u8>,
}

/// Whether the type field marks a compressed payload.
pub open spec fn is_compressed_type(t: u16) -> bool {
    t & COMPRESSED_FLAG != 0
}

/// Every byte of frame `data` after its header.
pub open spec fn frame_payload(data: Seq<u8>) -> Seq<u8> {
    data.subrange(FRAME_HEADER_LEN as int, data.len() as int)
}

/// Whether the header fields of `p` are those that frame `data` declares.
pub open spec fn header_of(p: GamePacket, data: Seq<u8>) -> bool {
    &&& p.size == le_u32(data, 0)
    &&& p.packet_type == le_u16(data, 4)
    &&& p.is_compressed == is_compressed_type(p.packet_type)
    &&& p.fragment_type == fragment_of(p.packet_type & FRAGMENT_MASK)
}

/// What a frame `data` of at least 6 bytes decodes to.
pub open spec fn parsed_frame(p: GamePacket, data: Seq<u8>) -> bool {
    header_of(p, data) && p.payload@ == frame_payload(data)
}

impl GamePacket {
    /// Decodes the header of a frame; every byte after it is the payload.
    pub fn parse(data: &[u8]) -> (r: Result<GamePacket, PacketError>)
        ensures
            data@.len() < FRAME_HEADER_LEN ==> r == Err::<GamePacket, PacketError>(
                PacketError::PacketTooSmall { len: data@.len() as usize },
            ),
            data@.len() >= FRAME_HEADER_LEN ==> r is Ok && parsed_frame(r->Ok_0, data@),
    {
        if data.len() < FRAME_HEADER_LEN {
            return Err(PacketError::PacketTooSmall { len: data.len() });
        }
        let size = read_u32_le(data, 0);
        let packet_type = read_u16_le(data, 4);
        let is_compressed = (packet_type & COMPRESSED_FLAG) != 0;
        let fragment_type = FragmentType::from(packet_type & FRAGMENT_MASK);
        let payload = tail_of(data, FRAME_HEADER_LEN);
        Ok(GamePacket { size, packet_type, is_compressed, fragment_type, payload })
    }

    /// Decodes the payload as a notification: an 8-byte service id, a 4-byte
    /// stub id that is skipped, a 4-byte method id, then the data.
    pub fn parse_notify(&self) -> (r: Result<NotifyPacket, PacketError>)
        ensures
            self.payload@.len() < NOTIFY_HEADER_LEN ==> r == Err::<NotifyPacket, PacketError>(
                PacketError::NotifyTooSmall { len: self.payload@.len() as usize },
            ),
            self.payload@.len() >= NOTIFY_HEADER_LEN ==> r is Ok && parsed_notify(
                r->Ok_0,
                self.payload@,
            ),
    {
        let payload = self.payload.as_slice();
        if payload.len() < NOTIFY_HEADER_LEN {
            return Err(PacketError::NotifyTooSmall { len: payload.len() });
        }
        let service_uuid = read_u64_le(payload, 0);
        let method_id = read_u32_le(payload, 12);
        let data = tail_of(payload, NOTIFY_HEADER_LEN);
        Ok(NotifyPacket { service_uuid, method_id, data })
    }
}

/// What a notification payload of at least 16 bytes decodes to.
pub open spec fn parsed_notify(n: NotifyPacket, payload: Seq<u8>) -> bool {
    &&& n.service_uuid == le_u64(payload, 0)
    &&& n.method_id == le_u32(payload, 12)
    &&& n.data@ == payload.subrange(NOTIFY_HEADER_LEN as int, payload.len() as int)
}

/// How far the frame at the front of a buffer can be taken.
#[derive(Debug, Clone, Copy, PartialEq, Eq, Structural)]
pub enum FrameStatus {
    /// Fewer bytes than the length field or than the declared size: wait.
    NeedMore,
    /// The declared size is below the header size or above 1 MiB.
    Malformed,
    /// A whole frame of this many bytes is buffered.
    Ready(usize),
}

/// The state of the frame at the front of `b`.
pub open spec fn frame_status(b: Seq<u8>) -> FrameStatus {
    if b.len() < 4 {
        FrameStatus::NeedMore
    } else if le_u32(b, 0) < FRAME_HEADER_LEN || le_u32(b, 0) > MAX_FRAME_SIZE {
        FrameStatus::Malformed
    } else if b.len() < le_u32(b, 0) {
        FrameStatus::NeedMore
    } else {
        FrameStatus::Ready(le_u32(b, 0) as usize)
    }
}

/// Reads the declared size at the front of `b` and checks it against the
/// header size, the 1 MiB bound and the bytes buffered.
pub fn check_frame(b: &[u8]) -> (r: FrameStatus)
    ensures
        r == frame_status(b@),
{
    if b.len() < 4 {
        return FrameStatus::NeedMore;
    }
    let declared = read_u32_le(b, 0);
    if declared < FRAME_HEADER_LEN as u32 || declared > MAX_FRAME_SIZE {
        FrameStatus::Malformed
    } else if b.len() < declared as usize {
        FrameStatus::NeedMore
    } else {
        FrameStatus::Ready(declared as usize)
    }
}

} // verus!
