//! Payloads that are LZ4-framed: the magic `LZ41`, the compressed bytes,
//! and a trailer of three little-endian `u32` fields.

use vstd::prelude::*;
use crate::vp::parser::{le_u32, lemma_u32_round_trip, u32_le};
use crate::vp::types::VPError;

verus! {

/// The trailer of a framed payload.
#[derive(Debug, Clone, Copy, PartialEq, Eq, Structural)]
pub struct LZ4Info {
    pub offsets: u32,
    pub filesize: u32,
    pub blocksize: u32,
}

/// Length of the magic in bytes.
pub const MAGIC_LEN: usize = 4;

/// Length of the trailer in bytes.
pub const TRAILER_LEN: usize = 12;

/// The trailer that `bytes` start with, if they are long enough.
pub open spec fn spec_trailer(bytes: Seq<u8>) -> Option<LZ4Info> {
    if bytes.len() >= 12 {
        Some(
            LZ4Info {
                offsets: le_u32(bytes, 0),
                filesize: le_u32(bytes, 4),
                blocksize: le_u32(bytes, 8),
            },
        )
    } else {
        None
    }
}

impl LZ4Info {
    /// Reads a trailer from the start of `i`, if `i` holds 12 bytes.
    pub fn parse(i: &[u8]) -> (res: Option<LZ4Info>)
        ensures
            res == spec_trailer(i@),
    {
        if i.len() < TRAILER_LEN {
            return None;
        }
        let offsets = read_field(i, 0);
        let filesize = read_field(i, 4);
        let blocksize = read_field(i, 8);
        Some(LZ4Info { offsets, filesize, blocksize })
    }
}

/// The little-endian `u32` at `at`.
fn read_field(bytes: &[u8], at: usize) -> (x: u32)
    requires
        at + 4 <= bytes@.len(),
    ensures
        x == le_u32(bytes@, at as int),
{
    let b0 = bytes[at] as u32;
    let b1 = bytes[at + 1] as u32;
    let b2 = bytes[at + 2] as u32;
    let b3 = bytes[at + 3] as u32;
    b0 + b1 * 0x100 + b2 * 0x1_0000 + b3 * 0x100_0000
}

/// What LZ4 block decompression makes of `src` when told that the result
/// has at most `size` bytes, or `None` where it rejects the input.
pub uninterp spec fn lz4_block(src: Seq<u8>, size: int) -> Option<Seq<u8>>;

/// The bytes that an optional buffer holds.
pub open spec fn held(out: Option<Vec<u8>>) -> Option<Seq<u8>> {
    match out {
        Some(bytes) => Some(bytes@),
        None => None,
    }
}

/// Decompresses one LZ4 block.
///
/// Trusted: calls `lz4::block::decompress` with the size given. Its result
/// depends on the bytes and the size alone, and is named `lz4_block`.
/// Nothing is claimed of what the result holds.
#[verifier::external_body]
fn lz4_decompress(src: &[u8], size: i32) -> (out: Option<Vec<u8>>)
    ensures
        held(out) == lz4_block(src@, size as int),
{
    match lz4::block::decompress(src, Some(size)) {
        Ok(bytes) => Some(bytes),
        Err(_) => None,
    }
}

/// The payload starts with the magic `LZ41`.
pub open spec fn is_framed(bytes: Seq<u8>) -> bool {
    bytes.len() >= 4 && bytes.take(4) == seq![0x4cu8, 0x5au8, 0x34u8, 0x31u8]
}

/// The compressed bytes of a framed payload: what stands between the
/// magic and the trailer.
pub open spec fn framed_body(bytes: Seq<u8>) -> Seq<u8> {
    bytes.subrange(4, bytes.len() - 12)
}

/// The trailer of a framed payload: its last 12 bytes.
pub open spec fn framed_trailer(bytes: Seq<u8>) -> LZ4Info {
    spec_trailer(bytes.skip(bytes.len() - 12))->0
}

/// The frame is long enough for magic and trailer, and declares a size
/// that the decompressor can be asked for.
pub open spec fn frame_ok(bytes: Seq<u8>) -> bool {
    bytes.len() >= 16 && framed_trailer(bytes).filesize <= 0x7fff_ffff
}

/// What a payload is once read: itself where it is not framed, and else
/// what the decompressor makes of its body.
pub open spec fn spec_maybe_decompress(bytes: Seq<u8>) -> Option<Seq<u8>> {
    if !is_framed(bytes) {
        Some(bytes)
    } else if frame_ok(bytes) {
        lz4_block(framed_body(bytes), framed_trailer(bytes).filesize as int)
    } else {
        None
    }
}

/// The bytes of a trailer.
pub open spec fn trailer_bytes(info: LZ4Info) -> Seq<u8> {
    u32_le(info.offsets) + u32_le(info.filesize) + u32_le(info.blocksize)
}

/// A framed payload: the magic, the compressed bytes and the trailer.
pub open spec fn lz4_frame(packed: Seq<u8>, info: LZ4Info) -> Seq<u8> {
    seq![0x4cu8, 0x5au8, 0x34u8, 0x31u8] + packed + trailer_bytes(info)
}

/// A frame is read as what the decompressor makes of the bytes inside it
/// at the size that the trailer declares: where those bytes decompress to
/// a payload, the frame around them reads as that payload.
pub proof fn lemma_frame_unwraps(packed: Seq<u8>, info: LZ4Info)
    requires
        info.filesize <= 0x7fff_ffff,
    ensures
        spec_maybe_decompress(lz4_frame(packed, info)) == lz4_block(packed, info.filesize as int),
{
    let lead = seq![0x4cu8, 0x5au8, 0x34u8, 0x31u8];
    let frame = lz4_frame(packed, info);
    let tail = trailer_bytes(info);
    let none = Seq::<u8>::empty();
    lemma_u32_round_trip(none, info.offsets, u32_le(info.filesize) + u32_le(info.blocksize));
    lemma_u32_round_trip(u32_le(info.offsets), info.filesize, u32_le(info.blocksize));
    lemma_u32_round_trip(u32_le(info.offsets) + u32_le(info.filesize), info.blocksize, none);
    assert(tail.len() == 12);
    assert(frame.len() == packed.len() + 16);
    assert(frame.take(4) =~= lead);
    assert(frame.subrange(4, frame.len() - 12) =~= packed);
    assert(frame.skip(frame.len() - 12) =~= tail);
    assert(none + u32_le(info.offsets) + (u32_le(info.filesize) + u32_le(info.blocksize)) =~= tail);
    assert(u32_le(info.offsets) + u32_le(info.filesize) + u32_le(info.blocksize) =~= tail);
    assert(u32_le(info.offsets) + u32_le(info.filesize) + u32_le(info.blocksize) + none =~= tail);
    assert(spec_trailer(tail) == Some(info));
}

/// Turns what the decompressor gave into the payload, or into
/// `MalformedContainer` where it gave nothing.
pub fn finish_decompress(out: Option<Vec<u8>>) -> (res: Result<Vec<u8>, VPError>)
    ensures
        match out {
            Some(bytes) => res == Ok::<Vec<u8>, VPError>(bytes),
            None => res == Err::<Vec<u8>, VPError>(VPError::MalformedContainer),
        },
{
    match out {
        Some(bytes) => Ok(bytes),
        None => Err(VPError::MalformedContainer),
    }
}

/// Whether the payload starts with the magic `LZ41`.
fn starts_framed(buf: &Vec<u8>) -> (framed: bool)
    ensures
        framed == is_framed(buf@),
{
    if buf.len() < MAGIC_LEN {
        return false;
    }
    let magic = buf[0] == 0x4c && buf[1] == 0x5a && buf[2] == 0x34 && buf[3] == 0x31;
    proof {
        assert(buf@.take(4)[0] == buf@[0]);
        assert(buf@.take(4)[1] == buf@[1]);
        assert(buf@.take(4)[2] == buf@[2]);
        assert(buf@.take(4)[3] == buf@[3]);
        if magic {
            assert(buf@.take(4) == seq![0x4cu8, 0x5au8, 0x34u8, 0x31u8]);
        }
    }
    magic
}

/// Reads a payload: a payload that does not start with `LZ41` is returned
/// as it is; a framed one is decompressed to the size its trailer declares.
///
/// Fails with `MalformedContainer` exactly when the payload is framed and
/// too short for magic and trailer, declares a size above `i32::MAX`, or is
/// rejected by the decompressor.
pub fn maybe_decompress(buf: Vec<u8>) -> (res: Result<Vec<u8>, VPError>)
    ensures
        res is Ok <==> spec_maybe_decompress(buf@) is Some,
        res matches Ok(bytes) ==> Some(bytes@) == spec_maybe_decompress(buf@),
        res matches Ok(bytes) ==> (!is_framed(buf@) ==> bytes == buf),
        res matches Err(e) ==> e == VPError::MalformedContainer,
{
    if !starts_framed(&buf) {
        return Ok(buf);
    }
    if buf.len() < MAGIC_LEN + TRAILER_LEN {
        return Err(VPError::MalformedContainer);
    }
    let end = buf.len() - TRAILER_LEN;
    let trailer = vstd::slice::slice_subrange(buf.as_slice(), end, buf.len());
    assert(trailer@ == buf@.skip(buf@.len() - 12));
    let info = match LZ4Info::parse(trailer) {
        Some(info) => info,
        None => {
            return Err(VPError::MalformedContainer);
        },
    };
    if info.filesize > 0x7fff_ffff {
        return Err(VPError::MalformedContainer);
    }
    let body = vstd::slice::slice_subrange(buf.as_slice(), MAGIC_LEN, end);
    finish_decompress(lz4_decompress(body, info.filesize as i32))
}

} // verus!
