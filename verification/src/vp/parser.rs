//! The bytes of a VP container's header and index.
//!
//! The header is 16 bytes: the magic `VPVP`, then the version, the offset
//! of the index and the number of its records, each a little-endian `u32`.
//! A record of the index is 44 bytes: the offset and the size of the
//! payload, 32 bytes of zero-padded name, and a timestamp.

use vstd::prelude::*;
use crate::vp::types::{IndexView, VPError, VPHeader, VPIndex, records_view};

verus! {

/// Length of the header in bytes.
pub const HEADER_LEN: usize = 16;

/// Length of one record of the index in bytes.
pub const RECORD_LEN: usize = 44;

/// Length of the name field of a record in bytes.
pub const NAME_LEN: usize = 32;

/// The little-endian `u32` that stands at `at` in `bytes`.
pub open spec fn le_u32(bytes: Seq<u8>, at: int) -> u32 {
    (bytes[at] + bytes[at + 1] * 0x100 + bytes[at + 2] * 0x1_0000 + bytes[at + 3] * 0x100_0000) as u32
}

/// The four bytes of `x`, lowest first.
pub open spec fn u32_le(x: u32) -> Seq<u8> {
    seq![
        (x % 0x100) as u8,
        (x / 0x100 % 0x100) as u8,
        (x / 0x1_0000 % 0x100) as u8,
        (x / 0x100_0000) as u8,
    ]
}

/// The magic that opens a container.
pub open spec fn magic() -> Seq<u8> {
    seq![0x56u8, 0x50u8, 0x56u8, 0x50u8]
}

/// The bytes of a header.
pub open spec fn header_bytes(h: VPHeader) -> Seq<u8> {
    magic() + u32_le(h.version) + u32_le(h.offset) + u32_le(h.entries)
}

/// The header that `bytes` start with, if they start with one.
pub open spec fn spec_header(bytes: Seq<u8>) -> Option<VPHeader> {
    if bytes.len() >= 16 && bytes.take(4) == magic() {
        Some(
            VPHeader {
                version: le_u32(bytes, 4),
                offset: le_u32(bytes, 8),
                entries: le_u32(bytes, 12),
            },
        )
    } else {
        None
    }
}

/// The bytes of one record.
pub open spec fn record_bytes(r: IndexView) -> Seq<u8> {
    u32_le(r.fileoffset) + u32_le(r.size) + r.name + u32_le(r.timestamp)
}

/// The record that stands at `at` in `bytes`.
pub open spec fn spec_record(bytes: Seq<u8>, at: int) -> IndexView {
    IndexView {
        fileoffset: le_u32(bytes, at),
        size: le_u32(bytes, at + 4),
        name: bytes.subrange(at + 8, at + 40),
        timestamp: le_u32(bytes, at + 40),
    }
}

/// The bytes of an index: its records one after the other.
pub open spec fn index_bytes(records: Seq<IndexView>) -> Seq<u8>
    decreases records.len(),
{
    if records.len() == 0 {
        Seq::empty()
    } else {
        index_bytes(records.drop_last()) + record_bytes(records.last())
    }
}

/// The first `entries` records of `bytes`, if `bytes` hold that many.
pub open spec fn spec_indices(bytes: Seq<u8>, entries: nat) -> Option<Seq<IndexView>> {
    if bytes.len() >= 44 * entries {
        Some(Seq::new(entries, |k: int| spec_record(bytes, 44 * k)))
    } else {
        None
    }
}

/// Reading the four bytes of a number gives the number back, wherever
/// they stand.
pub proof fn lemma_u32_round_trip(before: Seq<u8>, x: u32, after: Seq<u8>)
    ensures
        u32_le(x).len() == 4,
        le_u32(before + u32_le(x) + after, before.len() as int) == x,
{
    let all = before + u32_le(x) + after;
    let at = before.len() as int;
    assert(all[at] == u32_le(x)[0]);
    assert(all[at + 1] == u32_le(x)[1]);
    assert(all[at + 2] == u32_le(x)[2]);
    assert(all[at + 3] == u32_le(x)[3]);
}

/// Reading a written header gives the header back.
pub proof fn lemma_header_round_trip(h: VPHeader)
    ensures
        header_bytes(h).len() == 16,
        spec_header(header_bytes(h)) == Some(h),
{
    let b = header_bytes(h);
    assert(b.take(4) == magic());
    let none = Seq::<u8>::empty();
    lemma_u32_round_trip(magic(), h.version, u32_le(h.offset) + u32_le(h.entries));
    assert(b == magic() + u32_le(h.version) + (u32_le(h.offset) + u32_le(h.entries)));
    lemma_u32_round_trip(magic() + u32_le(h.version), h.offset, u32_le(h.entries));
    lemma_u32_round_trip(magic() + u32_le(h.version) + u32_le(h.offset), h.entries, none);
    assert(b == magic() + u32_le(h.version) + u32_le(h.offset) + u32_le(h.entries) + none);
}

/// Reading a written record gives the record back, wherever it stands.
pub proof fn lemma_record_round_trip(before: Seq<u8>, r: IndexView, after: Seq<u8>)
    requires
        r.name.len() == 32,
    ensures
        record_bytes(r).len() == 44,
        spec_record(before + record_bytes(r) + after, before.len() as int) == r,
{
    let all = before + record_bytes(r) + after;
    let at = before.len() as int;
    let tail0 = u32_le(r.size) + r.name + u32_le(r.timestamp) + after;
    lemma_u32_round_trip(before, r.fileoffset, tail0);
    assert(all == before + u32_le(r.fileoffset) + tail0);
    let tail1 = r.name + u32_le(r.timestamp) + after;
    lemma_u32_round_trip(before + u32_le(r.fileoffset), r.size, tail1);
    assert(all == before + u32_le(r.fileoffset) + u32_le(r.size) + tail1);
    lemma_u32_round_trip(before + u32_le(r.fileoffset) + u32_le(r.size) + r.name, r.timestamp, after);
    assert(all == before + u32_le(r.fileoffset) + u32_le(r.size) + r.name + u32_le(r.timestamp)
        + after);
    assert(all.subrange(at + 8, at + 40) == r.name);
}

/// An index of `n` records is `44 * n` bytes long.
pub proof fn lemma_index_bytes_len(records: Seq<IndexView>)
    requires
        forall|k: int| 0 <= k < records.len() ==> (#[trigger] records[k]).name.len() == 32,
    ensures
        index_bytes(records).len() == 44 * records.len(),
    decreases records.len(),
{
    if records.len() > 0 {
        lemma_index_bytes_len(records.drop_last());
    }
}

/// The record at place `k` of a written index is record `k`.
proof fn lemma_index_record(records: Seq<IndexView>, k: int)
    requires
        forall|j: int| 0 <= j < records.len() ==> (#[trigger] records[j]).name.len() == 32,
        0 <= k < records.len(),
    ensures
        spec_record(index_bytes(records), 44 * k) == records[k],
    decreases records.len(),
{
    let head = records.drop_last();
    lemma_index_bytes_len(head);
    let none = Seq::<u8>::empty();
    if k == records.len() - 1 {
        lemma_record_round_trip(index_bytes(head), records.last(), none);
        assert(index_bytes(records) == index_bytes(head) + record_bytes(records.last()) + none);
    } else {
        lemma_index_record(head, k);
        let a = index_bytes(head);
        let b = index_bytes(records);
        assert(records[k].name.len() == 32);
        assert(head[k] == records[k]);
        assert forall|j: int| 0 <= j < a.len() implies a[j] == b[j] by {}
        assert(b.subrange(44 * k + 8, 44 * k + 40) == a.subrange(44 * k + 8, 44 * k + 40));
    }
}

/// Reading a written index gives its records back.
pub proof fn lemma_index_round_trip(records: Seq<IndexView>)
    requires
        forall|k: int| 0 <= k < records.len() ==> (#[trigger] records[k]).name.len() == 32,
    ensures
        spec_indices(index_bytes(records), records.len()) == Some(records),
{
    lemma_index_bytes_len(records);
    let read = Seq::new(records.len(), |k: int| spec_record(index_bytes(records), 44 * k));
    assert forall|k: int| 0 <= k < records.len() implies read[k] == records[k] by {
        lemma_index_record(records, k);
    }
    assert(read == records);
}

/// The little-endian `u32` at `at`.
fn read_u32(bytes: &[u8], at: usize) -> (x: u32)
    requires
        at + 4 <= bytes@.len(),
    ensures
        x == le_u32(bytes@, at as int),
{
    let b0 = bytes[at] as u32;
    let b1 = bytes[at + 1] as u32;
    let b2 = bytes[at + 2] as u32;
    let b3 = bytes[at + 3] as u32;
    b0 + b1 * 0x100 + b2 * 0x1_0000 + b3 * 0x100_0000
}

/// Appends the four bytes of `x`, lowest first.
fn write_u32(out: &mut Vec<u8>, x: u32)
    ensures
        final(out)@ == old(out)@ + u32_le(x),
{
    out.push((x % 0x100) as u8);
    out.push((x / 0x100 % 0x100) as u8);
    out.push((x / 0x1_0000 % 0x100) as u8);
    out.push((x / 0x100_0000) as u8);
    assert(out@ == old(out)@ + u32_le(x));
}

/// Reads the header that a container starts with.
///
/// Fails with `MalformedContainer` exactly when there are fewer than 16
/// bytes or they do not start with `VPVP`.
pub fn header(bytes: &[u8]) -> (res: Result<VPHeader, VPError>)
    ensures
        res is Ok <==> spec_header(bytes@) is Some,
        res matches Ok(h) ==> Some(h) == spec_header(bytes@),
        res matches Err(e) ==> e == VPError::MalformedContainer,
{
    if bytes.len() < HEADER_LEN {
        return Err(VPError::MalformedContainer);
    }
    if bytes[0] != 0x56 || bytes[1] != 0x50 || bytes[2] != 0x56 || bytes[3] != 0x50 {
        assert(bytes@.take(4)[0] == bytes@[0]);
        assert(bytes@.take(4)[1] == bytes@[1]);
        assert(bytes@.take(4)[2] == bytes@[2]);
        assert(bytes@.take(4)[3] == bytes@[3]);
        return Err(VPError::MalformedContainer);
    }
    assert(bytes@.take(4) == magic());
    Ok(
        VPHeader {
            version: read_u32(bytes, 4),
            offset: read_u32(bytes, 8),
            entries: read_u32(bytes, 12),
        },
    )
}

/// Reads the first `entries` records of an index.
///
/// Fails with `MalformedContainer` exactly when `bytes` are too few to
/// hold that many records.
pub fn indices(bytes: &[u8], entries: u32) -> (res: Result<Vec<VPIndex>, VPError>)
    ensures
        res is Ok <==> spec_indices(bytes@, entries as nat) is Some,
        res matches Ok(records) ==> Some(records_view(records@)) == spec_indices(
            bytes@,
            entries as nat,
        ),
        res matches Err(e) ==> e == VPError::MalformedContainer,
{
    if (bytes.len() as u64) < 44 * (entries as u64) {
        return Err(VPError::MalformedContainer);
    }
    let len = bytes.len();
    let mut records: Vec<VPIndex> = Vec::new();
    let mut k: u32 = 0;
    while k < entries
        invariant
            k <= entries,
            len == bytes@.len(),
            bytes@.len() >= 44 * entries,
            records@.len() == k,
            forall|j: int| 0 <= j < k ==> (#[trigger] records@[j])@ == spec_record(bytes@, 44 * j),
        decreases entries - k,
    {
        let at: usize = 44 * (k as usize);
        let mut name: [u8; 32] = [0u8; 32];
        let mut j: usize = 0;
        while j < 32
            invariant
                j <= 32,
                len == bytes@.len(),
                at + 44 <= bytes@.len(),
                forall|i: int| 0 <= i < j ==> name@[i] == bytes@[at + 8 + i],
            decreases 32 - j,
        {
            name[j] = bytes[at + 8 + j];
            j = j + 1;
        }
        assert(name@ == bytes@.subrange(at + 8, at + 40));
        records.push(
            VPIndex {
                fileoffset: read_u32(bytes, at),
                size: read_u32(bytes, at + 4),
                name,
                timestamp: read_u32(bytes, at + 40),
            },
        );
        k = k + 1;
    }
    assert(records_view(records@) == Seq::new(
        entries as nat,
        |k: int| spec_record(bytes@, 44 * k),
    ));
    Ok(records)
}

/// The bytes of a header.
pub fn write_header(h: &VPHeader) -> (bytes: Vec<u8>)
    ensures
        bytes@ == header_bytes(*h),
{
    let mut bytes: Vec<u8> = Vec::new();
    bytes.push(0x56);
    bytes.push(0x50);
    bytes.push(0x56);
    bytes.push(0x50);
    assert(bytes@ == magic());
    write_u32(&mut bytes, h.version);
    write_u32(&mut bytes, h.offset);
    write_u32(&mut bytes, h.entries);
    bytes
}

/// The bytes of an index.
pub fn write_indices(records: &Vec<VPIndex>) -> (bytes: Vec<u8>)
    ensures
        bytes@ == index_bytes(records_view(records@)),
{
    let ghost views = records_view(records@);
    let mut bytes: Vec<u8> = Vec::new();
    let mut k: usize = 0;
    while k < records.len()
        invariant
            k <= records@.len(),
            views == records_view(records@),
            bytes@ == index_bytes(views.take(k as int)),
        decreases records.len() - k,
    {
        let r = &records[k];
        let ghost start = bytes@;
        write_u32(&mut bytes, r.fileoffset);
        write_u32(&mut bytes, r.size);
        let ghost named = bytes@;
        let mut j: usize = 0;
        while j < 32
            invariant
                j <= 32,
                bytes@ == named + r.name@.take(j as int),
            decreases 32 - j,
        {
            bytes.push(r.name[j]);
            assert(r.name@.take(j + 1) == r.name@.take(j as int).push(r.name@[j as int]));
            j = j + 1;
        }
        assert(r.name@.take(32) == r.name@);
        write_u32(&mut bytes, r.timestamp);
        proof {
            assert(views.take(k + 1).drop_last() == views.take(k as int));
            assert(views.take(k + 1).last() == r@);
            assert(bytes@ == start + record_bytes(r@));
        }
        k = k + 1;
    }
    assert(views.take(records@.len() as int) == views);
    bytes
}

} // verus!
