//! Naming a blob by the three parts of its path, as a mirror serves it.

use vstd::prelude::*;
use vstd::string::StringSliceAdditionalSpecFns;
use crate::common::SHA256Checksum;
use crate::hexcode::{ascii_bytes, hex_bytes, hex_decode, hex_text, is_hex, lemma_hex_round_trip};

verus! {

/// Why a request for a blob could not be answered.
#[derive(Debug)]
pub enum FileError {
    /// A part of the path is missing.
    PathNotSpecified,
    /// A part of the path is not hexadecimal.
    HexDecodeError,
    /// A part of the path stands for this many bytes where that many are
    /// expected.
    HexLengthError((usize, usize)),
    /// No source on this machine delivers the blob with this digest.
    FileNotFound(Vec<u8>),
    /// The catalog refused a read.
    SqlxError(String),
}

/// The bytes of a part of a path, if it is there.
pub open spec fn part_bytes(part: Option<&str>) -> Option<Seq<u8>> {
    match part {
        Some(text) => Some(text.spec_bytes()),
        None => None,
    }
}

/// The digest that three parts of a path name, or why they name none:
/// a part is missing; or else a part is not hexadecimal; or else the first
/// part that is not of the expected length, with its length and the length
/// expected.
pub open spec fn spec_checksum_from_parts(
    b1: Option<Seq<u8>>,
    b2: Option<Seq<u8>>,
    bx: Option<Seq<u8>>,
) -> Result<Seq<u8>, FileError> {
    if b1 is None || b2 is None || bx is None {
        Err(FileError::PathNotSpecified)
    } else if !is_hex(b1->0) || !is_hex(b2->0) || !is_hex(bx->0) {
        Err(FileError::HexDecodeError)
    } else if hex_bytes(b1->0).len() != 1 {
        Err(FileError::HexLengthError((hex_bytes(b1->0).len() as usize, 1usize)))
    } else if hex_bytes(b2->0).len() != 1 {
        Err(FileError::HexLengthError((hex_bytes(b2->0).len() as usize, 1usize)))
    } else if hex_bytes(bx->0).len() != 30 {
        Err(FileError::HexLengthError((hex_bytes(bx->0).len() as usize, 30usize)))
    } else {
        Ok(hex_bytes(b1->0) + hex_bytes(b2->0) + hex_bytes(bx->0))
    }
}

/// The three parts of the path under which a blob is stored name the
/// digest of the blob.
pub proof fn lemma_parts_name_the_digest(digest: Seq<u8>)
    requires
        digest.len() == 32,
    ensures
        spec_checksum_from_parts(
            Some(ascii_bytes(hex_text(digest.take(1)))),
            Some(ascii_bytes(hex_text(digest.subrange(1, 2)))),
            Some(ascii_bytes(hex_text(digest.skip(2)))),
        ) == Ok::<Seq<u8>, FileError>(digest),
{
    let t1 = ascii_bytes(hex_text(digest.take(1)));
    let t2 = ascii_bytes(hex_text(digest.subrange(1, 2)));
    let tx = ascii_bytes(hex_text(digest.skip(2)));
    assert(is_hex(t1) && hex_bytes(t1) == digest.take(1)) by {
        lemma_hex_round_trip(digest.take(1));
    }
    assert(is_hex(t2) && hex_bytes(t2) == digest.subrange(1, 2)) by {
        lemma_hex_round_trip(digest.subrange(1, 2));
    }
    assert(is_hex(tx) && hex_bytes(tx) == digest.skip(2)) by {
        lemma_hex_round_trip(digest.skip(2));
    }
    assert(digest.take(1).len() == 1);
    assert(digest.subrange(1, 2).len() == 1);
    assert(digest.skip(2).len() == 30);
    assert(digest.take(1) + digest.subrange(1, 2) + digest.skip(2) =~= digest);
}

/// The bytes of the parts of a path, each if it is hexadecimal.
fn decode_part(part: Option<&str>) -> (res: Result<Vec<u8>, FileError>)
    ensures
        match part {
            None => res matches Err(FileError::PathNotSpecified),
            Some(text) => if is_hex(text.spec_bytes()) {
                res matches Ok(bytes) && bytes@ == hex_bytes(text.spec_bytes())
            } else {
                res matches Err(FileError::HexDecodeError)
            },
        },
{
    match part {
        None => Err(FileError::PathNotSpecified),
        Some(text) => match hex_decode(text.as_bytes()) {
            Some(bytes) => Ok(bytes),
            None => Err(FileError::HexDecodeError),
        },
    }
}

/// The digest that the three parts of a blob's path name: one byte, one
/// byte, and the remaining thirty, each in hexadecimal.
///
/// Fails with `PathNotSpecified` where a part is missing, then with
/// `HexDecodeError` where one is not hexadecimal, then with
/// `HexLengthError` for the first part of the wrong length.
pub fn checksum_from_parts(b1: Option<&str>, b2: Option<&str>, bx: Option<&str>) -> (res: Result<
    SHA256Checksum,
    FileError,
>)
    ensures
        match res {
            Ok(sum) => spec_checksum_from_parts(part_bytes(b1), part_bytes(b2), part_bytes(bx))
                == Ok::<Seq<u8>, FileError>(sum@),
            Err(e) => spec_checksum_from_parts(part_bytes(b1), part_bytes(b2), part_bytes(bx))
                == Err::<Seq<u8>, FileError>(e),
        },
{
    if b1.is_none() || b2.is_none() || bx.is_none() {
        return Err(FileError::PathNotSpecified);
    }
    let h1 = match decode_part(b1) {
        Ok(bytes) => bytes,
        Err(e) => {
            return Err(e);
        },
    };
    let h2 = match decode_part(b2) {
        Ok(bytes) => bytes,
        Err(e) => {
            return Err(e);
        },
    };
    let hx = match decode_part(bx) {
        Ok(bytes) => bytes,
        Err(e) => {
            return Err(e);
        },
    };
    if h1.len() != 1 {
        return Err(FileError::HexLengthError((h1.len(), 1)));
    }
    if h2.len() != 1 {
        return Err(FileError::HexLengthError((h2.len(), 1)));
    }
    if hx.len() != 30 {
        return Err(FileError::HexLengthError((hx.len(), 30)));
    }
    let mut cs: Vec<u8> = Vec::with_capacity(32);
    cs.push(h1[0]);
    cs.push(h2[0]);
    let mut k: usize = 0;
    while k < hx.len()
        invariant
            k <= hx@.len(),
            h1@.len() == 1,
            h2@.len() == 1,
            cs@ == h1@ + h2@ + hx@.take(k as int),
        decreases hx.len() - k,
    {
        cs.push(hx[k]);
        assert(hx@.take(k + 1) == hx@.take(k as int).push(hx@[k as int]));
        k = k + 1;
    }
    assert(hx@.take(hx@.len() as int) == hx@);
    Ok(SHA256Checksum(cs))
}

} // verus!
