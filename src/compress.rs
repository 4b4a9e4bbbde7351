//! zstd decompression of frame payloads.
use vstd::prelude::*;
use crate::frame::{
    frame_payload, header_of, is_compressed_type, le_u16, parsed_frame, GamePacket, PacketError,
    FRAME_HEADER_LEN,
};

verus! {

#[verifier::external_type_specification]
#[verifier::external_body]
pub struct ExIoError(std::io::Error);

/// What zstd decodes the compressed bytes `data` to, or `None` where they
/// are not a valid zstd stream.
pub uninterp spec fn zstd_decoded(data: Seq<u8>) -> Option<Seq<u8>>;

/// Relies on zstd::decode_all: decodes the zstd frames in `data`; its
/// output, or its failure, is a function of the input bytes alone.
#[verifier::external_body]
fn zstd_decode_all(data: &[u8]) -> (r: Result<Vec<u8>, std::io::Error>)
    ensures
        match r {
            Ok(v) => zstd_decoded(data@) == Some(v@),
            Err(_) => zstd_decoded(data@) is None,
        },
{
    zstd::decode_all(data)
}

/// Decompresses a zstd payload.
pub fn decompress_zstd(data: &[u8]) -> (r: Result<Vec<u8>, PacketError>)
    ensures
        match zstd_decoded(data@) {
            Some(d) => r is Ok && r->Ok_0@ == d,
            None => r == Err::<Vec<u8>, PacketError>(PacketError::Decompression),
        },
{
    match zstd_decode_all(data) {
        Ok(v) => Ok(v),
        Err(_) => Err(PacketError::Decompression),
    }
}

/// Parses a frame and, where its compression flag is set, replaces the
/// payload by its decompressed bytes. A frame shorter than its header or a
/// payload that does not decompress is reported.
pub fn decode_frame(data: &[u8]) -> (r: Result<GamePacket, PacketError>)
    ensures
        data@.len() < FRAME_HEADER_LEN ==> r == Err::<GamePacket, PacketError>(
            PacketError::PacketTooSmall { len: data@.len() as usize },
        ),
        data@.len() >= FRAME_HEADER_LEN && !is_compressed_type(le_u16(data@, 4) as u16) ==> r is Ok
            && parsed_frame(r->Ok_0, data@),
        data@.len() >= FRAME_HEADER_LEN && is_compressed_type(le_u16(data@, 4) as u16) ==> match zstd_decoded(
            frame_payload(data@),
        ) {
            Some(d) => r is Ok && header_of(r->Ok_0, data@) && r->Ok_0.payload@ == d,
            None => r == Err::<GamePacket, PacketError>(PacketError::Decompression),
        },
{
    let packet = GamePacket::parse(data)?;
    if !packet.is_compressed {
        return Ok(packet);
    }
    let payload = decompress_zstd(packet.payload.as_slice())?;
    Ok(GamePacket { payload, ..packet })
}

} // verus!
