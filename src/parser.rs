//! Interpretation of exchange payloads, and bounds-checked field readers.
use vstd::prelude::*;
use crate::frame::{le_u32, le_u64, PacketError};
use crate::models::{MarketItem, MarketPacket, MarketPacketType, RawPacketData};

verus! {

#[verifier::external_type_specification]
#[verifier::external_body]
pub struct ExFromUtf8Error(std::string::FromUtf8Error);

/// The characters that the bytes `b` encode in UTF-8, or `None` where `b` is
/// not UTF-8.
pub uninterp spec fn utf8_decoded(b: Seq<u8>) -> Option<Seq<char>>;

/// Relies on String::from_utf8: the string that the bytes encode, or an
/// error where they are not UTF-8; no bytes make the empty string.
#[verifier::external_body]
pub(crate) fn string_from_utf8(bytes: Vec<u8>) -> (r: Result<String, std::string::FromUtf8Error>)
    ensures
        match r {
            Ok(s) => utf8_decoded(bytes@) == Some(s@),
            Err(_) => utf8_decoded(bytes@) is None,
        },
        bytes@.len() == 0 ==> r is Ok && r->Ok_0@.len() == 0,
{
    String::from_utf8(bytes)
}

/// Whether `len` bytes from `offset` lie within a buffer of `n` bytes.
pub open spec fn in_bounds(n: nat, offset: usize, len: nat) -> bool {
    offset + len <= n
}

/// The two's-complement value of the 64-bit pattern `v`.
pub open spec fn as_signed64(v: int) -> int {
    if v < 0x8000_0000_0000_0000 {
        v
    } else {
        v - 0x1_0000_0000_0000_0000
    }
}

/// Decodes exchange messages.
pub struct PacketParser {}

impl PacketParser {
    pub fn new() -> (r: PacketParser) {
        PacketParser {}
    }

    /// Reads an exchange message from a captured payload. No message kind
    /// has a known wire layout yet, so every payload is reported as not one.
    pub fn parse(&self, packet: &RawPacketData) -> (r: Result<Option<MarketPacket>, PacketError>)
        ensures
            r == Ok::<Option<MarketPacket>, PacketError>(None),
    {
        let packet_type = self.identify_packet_type(packet.payload.as_slice())?;
        if packet_type == MarketPacketType::Unknown {
            return Ok(None);
        }
        let items = match packet_type {
            MarketPacketType::ItemList => self.parse_item_list(packet.payload.as_slice())?,
            MarketPacketType::ItemDetail => self.parse_item_detail(packet.payload.as_slice())?,
            MarketPacketType::PriceUpdate => self.parse_price_update(packet.payload.as_slice())?,
            MarketPacketType::TransactionComplete => self.parse_transaction_complete(
                packet.payload.as_slice(),
            )?,
            MarketPacketType::Unknown => Vec::new(),
        };
        Ok(Some(MarketPacket { packet_type, items, timestamp: packet.timestamp }))
    }

    /// The kind of exchange message in `payload`; none is recognised yet.
    pub fn identify_packet_type(&self, payload: &[u8]) -> (r: Result<MarketPacketType, PacketError>)
        ensures
            r == Ok::<MarketPacketType, PacketError>(MarketPacketType::Unknown),
    {
        if payload.len() == 0 {
            return Ok(MarketPacketType::Unknown);
        }
        Ok(MarketPacketType::Unknown)
    }

    fn parse_item_list(&self, payload: &[u8]) -> (r: Result<Vec<MarketItem>, PacketError>)
        ensures
            r is Ok && r->Ok_0@.len() == 0,
    {
        Ok(Vec::new())
    }

    fn parse_item_detail(&self, payload: &[u8]) -> (r: Result<Vec<MarketItem>, PacketError>)
        ensures
            r is Ok && r->Ok_0@.len() == 0,
    {
        Ok(Vec::new())
    }

    fn parse_price_update(&self, payload: &[u8]) -> (r: Result<Vec<MarketItem>, PacketError>)
        ensures
            r is Ok && r->Ok_0@.len() == 0,
    {
        Ok(Vec::new())
    }

    fn parse_transaction_complete(&self, payload: &[u8]) -> (r: Result<Vec<MarketItem>, PacketError>)
        ensures
            r is Ok && r->Ok_0@.len() == 0,
    {
        Ok(Vec::new())
    }

    /// Reads `length` bytes from `offset` as UTF-8.
    pub fn read_string(&self, data: &[u8], offset: usize, length: usize) -> (r: Result<String, PacketError>)
        ensures
            !in_bounds(data@.len(), offset, length as nat) ==> r == Err::<String, PacketError>(PacketError::OutOfRange),
            in_bounds(data@.len(), offset, length as nat) ==> match utf8_decoded(
                data@.subrange(offset as int, offset + length),
            ) {
                Some(s) => r is Ok && r->Ok_0@ == s,
                None => r == Err::<String, PacketError>(PacketError::InvalidUtf8),
            },
    {
        if length > data.len() || offset > data.len() - length {
            return Err(PacketError::OutOfRange);
        }
        let end = offset + length;
        let mut bytes: Vec<u8> = Vec::new();
        let mut i: usize = offset;
        while i < end
            invariant
                offset <= i <= end,
                end == offset + length,
                end <= data@.len(),
                bytes@ == data@.subrange(offset as int, i as int),
            decreases end - i,
        {
            bytes.push(data[i]);
            i = i + 1;
        }
        match string_from_utf8(bytes) {
            Ok(s) => Ok(s),
            Err(_) => Err(PacketError::InvalidUtf8),
        }
    }

    /// Reads a little-endian u64 at `offset`.
    pub fn read_u64_le(&self, data: &[u8], offset: usize) -> (r: Result<u64, PacketError>)
        ensures
            in_bounds(data@.len(), offset, 8) ==> r == Ok::<u64, PacketError>(le_u64(data@, offset as int) as u64),
            !in_bounds(data@.len(), offset, 8) ==> r == Err::<u64, PacketError>(PacketError::OutOfRange),
    {
        if offset > data.len() || data.len() - offset < 8 {
            return Err(PacketError::OutOfRange);
        }
        Ok(crate::frame::read_u64_le(data, offset))
    }

    /// Reads a little-endian u32 at `offset`.
    pub fn read_u32_le(&self, data: &[u8], offset: usize) -> (r: Result<u32, PacketError>)
        ensures
            in_bounds(data@.len(), offset, 4) ==> r == Ok::<u32, PacketError>(le_u32(data@, offset as int) as u32),
            !in_bounds(data@.len(), offset, 4) ==> r == Err::<u32, PacketError>(PacketError::OutOfRange),
    {
        if offset > data.len() || data.len() - offset < 4 {
            return Err(PacketError::OutOfRange);
        }
        Ok(crate::frame::read_u32_le(data, offset))
    }

    /// Reads a little-endian two's-complement i64 at `offset`.
    pub fn read_i64_le(&self, data: &[u8], offset: usize) -> (r: Result<i64, PacketError>)
        ensures
            in_bounds(data@.len(), offset, 8) ==> r == Ok::<i64, PacketError>(as_signed64(le_u64(data@, offset as int)) as i64),
            !in_bounds(data@.len(), offset, 8) ==> r == Err::<i64, PacketError>(PacketError::OutOfRange),
    {
        if offset > data.len() || data.len() - offset < 8 {
            return Err(PacketError::OutOfRange);
        }
        let u = crate::frame::read_u64_le(data, offset);
        if u < 0x8000_0000_0000_0000 {
            Ok(u as i64)
        } else {
            Ok(-((u64::MAX - u) as i64) - 1)
        }
    }
}

/// Undoes the game's payload compression; payloads are passed through
/// unchanged until the scheme is known.
pub fn decompress_packet(compressed: &[u8]) -> (r: Result<Vec<u8>, PacketError>)
    ensures
        r is Ok && r->Ok_0@ == compressed@,
{
    Ok(crate::frame::tail_of(compressed, 0))
}

/// Undoes the game's payload encryption; payloads are passed through
/// unchanged until a scheme is known to be in use.
pub fn decrypt_packet(encrypted: &[u8]) -> (r: Result<Vec<u8>, PacketError>)
    ensures
        r is Ok && r->Ok_0@ == encrypted@,
{
    Ok(crate::frame::tail_of(encrypted, 0))
}

} // verus!
