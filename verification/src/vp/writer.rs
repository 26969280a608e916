//! Spelling a directory tree out as the records of an index.

use vstd::prelude::*;
use vstd::string::StringSliceAdditionalSpecFns;
use vstd::utf8::encode_utf8;
use crate::vp::types::{
    DirView, EntryView, FileView, IndexView, Parsed, VPDir, VPEntry, VPError, VPFile, VPIndex,
    is_ascend, lemma_entries_view_index, lemma_trim_end, lemma_trim_start, name_bytes, name_text,
    prepend, read_dir, records_view,
};

verus! {

broadcast use {vstd::utf8::encode_utf8_decode_utf8, vstd::utf8::encode_utf8_valid_utf8};

/// `count` zero bytes.
pub open spec fn zeros(count: int) -> Seq<u8> {
    Seq::new(count as nat, |i: int| 0u8)
}

/// The name field that holds `name`: its UTF-8 bytes, padded with zero
/// bytes to 32.
pub open spec fn name_field(name: Seq<char>) -> Seq<u8> {
    encode_utf8(name) + zeros(32 - encode_utf8(name).len())
}

/// The name can stand in a name field and be read back: its UTF-8 bytes
/// are at most 32 and neither start nor end with a zero byte.
pub open spec fn name_fits(name: Seq<char>) -> bool {
    let bytes = encode_utf8(name);
    bytes.len() <= 32 && (bytes.len() > 0 ==> bytes[0] != 0 && bytes[bytes.len() - 1] != 0)
}

/// The file can stand in a record and be read back: its name fits, it is
/// not empty, and its place and size fit 32 bits.
pub open spec fn file_fits(file: FileView) -> bool {
    &&& name_fits(file.name)
    &&& 0 < file.size <= 0xffff_ffff
    &&& file.fileoffset <= 0xffff_ffff
}

/// The entry, and every entry below it, can be written and read back. A
/// directory must not be called `..`.
pub open spec fn entry_fits(entry: EntryView) -> bool
    decreases entry, 1nat,
{
    match entry {
        EntryView::File(f) => file_fits(f),
        EntryView::Dir(d) => name_fits(d.name) && encode_utf8(d.name) != seq![0x2eu8, 0x2eu8]
            && entries_fit(d.contents),
    }
}

/// Every entry of the list, and every entry below it, can be written and
/// read back.
pub open spec fn entries_fit(entries: Seq<EntryView>) -> bool
    decreases entries, 0nat,
{
    if entries.len() == 0 {
        true
    } else {
        entry_fits(entries[0]) && entries_fit(entries.drop_first())
    }
}

/// The record of a file.
pub open spec fn file_record(file: FileView) -> IndexView {
    IndexView {
        fileoffset: file.fileoffset as u32,
        size: file.size as u32,
        name: name_field(file.name),
        timestamp: file.timestamp,
    }
}

/// The record that opens the directory `name`.
pub open spec fn open_record(name: Seq<char>) -> IndexView {
    IndexView { fileoffset: 0, size: 0, name: name_field(name), timestamp: 0 }
}

/// The record that closes a directory.
pub open spec fn close_record() -> IndexView {
    IndexView {
        fileoffset: 0,
        size: 0,
        name: seq![0x2eu8, 0x2eu8] + zeros(30),
        timestamp: 0,
    }
}

/// The records that spell out one entry: one for a file; for a directory
/// the record that opens it, the records of its entries, and the record
/// that closes it.
pub open spec fn entry_records(entry: EntryView) -> Seq<IndexView>
    decreases entry, 1nat,
{
    match entry {
        EntryView::File(f) => seq![file_record(f)],
        EntryView::Dir(d) => seq![open_record(d.name)] + entries_records(d.contents)
            + seq![close_record()],
    }
}

/// The records that spell out a list of entries, in order.
pub open spec fn entries_records(entries: Seq<EntryView>) -> Seq<IndexView>
    decreases entries, 0nat,
{
    if entries.len() == 0 {
        Seq::empty()
    } else {
        entry_records(entries[0]) + entries_records(entries.drop_first())
    }
}

/// A name that fits reads back from its name field.
pub proof fn lemma_name_reads_back(name: Seq<char>)
    requires
        name_fits(name),
    ensures
        name_field(name).len() == 32,
        name_bytes(name_field(name)) == encode_utf8(name),
        name_text(name_field(name)) == Some(name),
{
    let bytes = encode_utf8(name);
    let field = name_field(name);
    lemma_trim_end(field, bytes.len() as int);
    assert(field.take(bytes.len() as int) == bytes);
    lemma_trim_start(bytes, 0);
    assert(bytes.skip(0) == bytes);
}

/// The record that closes a directory reads as `..`.
pub proof fn lemma_close_record()
    ensures
        close_record().name.len() == 32,
        is_ascend(close_record().name),
        name_text(close_record().name) is Some,
{
    let dots = seq![0x2eu8, 0x2eu8];
    let field = close_record().name;
    lemma_trim_end(field, 2);
    assert(field.take(2) == dots);
    lemma_trim_start(dots, 0);
    assert(dots.skip(0) == dots);
    assert(vstd::utf8::valid_utf8(dots)) by {
        reveal_with_fuel(vstd::utf8::valid_utf8, 3);
        assert(vstd::utf8::is_leading_byte_width_1(0x2eu8)) by (bit_vector);
        assert(vstd::utf8::valid_first_scalar(dots));
        let rest = vstd::utf8::pop_first_scalar(dots);
        assert(rest == seq![0x2eu8]);
        assert(vstd::utf8::valid_first_scalar(rest));
        assert(vstd::utf8::pop_first_scalar(rest) == Seq::<u8>::empty());
    }
}

/// Every entry is spelled out by at least one record.
proof fn lemma_entry_records_len(entry: EntryView)
    ensures
        entry_records(entry).len() >= 1,
{
}

/// Putting one list in front of another, and that in front of what was
/// read, is putting both in front.
proof fn lemma_prepend_twice(a: Seq<EntryView>, b: Seq<EntryView>, rest: Option<Parsed>)
    ensures
        prepend(a, prepend(b, rest)) == prepend(a + b, rest),
{
    if rest is Some {
        assert(a + (b + rest->0.contents) == (a + b) + rest->0.contents);
    }
}

/// Records that spell out entries read back as those entries, wherever the
/// records stand in an index.
pub proof fn lemma_records_read_back(
    records: Seq<IndexView>,
    pos: int,
    entries: Seq<EntryView>,
    nested: bool,
)
    requires
        entries_fit(entries),
        0 <= pos,
        pos + entries_records(entries).len() <= records.len(),
        records.subrange(pos, pos + entries_records(entries).len()) == entries_records(entries),
    ensures
        read_dir(records, pos, nested) == prepend(
            entries,
            read_dir(records, pos + entries_records(entries).len(), nested),
        ),
    decreases entries_records(entries).len(),
{
    let all = entries_records(entries);
    let after = read_dir(records, pos + all.len(), nested);
    if entries.len() == 0 {
        if after is Some {
            assert(Seq::<EntryView>::empty() + after->0.contents == after->0.contents);
        }
    } else {
        let first = entries[0];
        let rest = entries.drop_first();
        let head = entry_records(first);
        let tail = entries_records(rest);
        lemma_entry_records_len(first);
        assert(all == head + tail);
        assert forall|k: int| 0 <= k < all.len() implies records[pos + k] == all[k] by {
            assert(records.subrange(pos, pos + all.len())[k] == all[k]);
        }
        assert(records.subrange(pos + head.len(), pos + head.len() + tail.len()) =~= tail) by {
            assert forall|k: int| 0 <= k < tail.len() implies records[pos + head.len() + k]
                == tail[k] by {
                assert(all[head.len() + k] == tail[k]);
            }
        }
        assert(seq![first] + rest =~= entries);
        assert(entry_fits(first) && entries_fit(rest));
        match first {
            EntryView::File(f) => {
                assert(file_fits(f));
                lemma_name_reads_back(f.name);
                assert(head == seq![file_record(f)]);
                assert(all[0] == head[0]);
                assert(records[pos + 0] == all[0]);
                assert(records[pos] == file_record(f));
                assert(VPFile::spec_from_index(records[pos]) == Some(f));
                lemma_records_read_back(records, pos + 1, rest, nested);
                lemma_prepend_twice(seq![first], rest, after);
            },
            EntryView::Dir(d) => {
                assert(name_fits(d.name) && encode_utf8(d.name) != seq![0x2eu8, 0x2eu8]
                    && entries_fit(d.contents));
                lemma_name_reads_back(d.name);
                lemma_close_record();
                let inner = entries_records(d.contents);
                assert(head == seq![open_record(d.name)] + inner + seq![close_record()]);
                assert(records[pos] == open_record(d.name)) by {
                    assert(all[0] == head[0]);
                    assert(records[pos + 0] == all[0]);
                }
                assert(!is_ascend(records[pos].name));
                assert(records.subrange(pos + 1, pos + 1 + inner.len()) =~= inner) by {
                    assert forall|k: int| 0 <= k < inner.len() implies records[pos + 1 + k]
                        == inner[k] by {
                        assert(all[1 + k] == head[1 + k]);
                        assert(head[1 + k] == inner[k]);
                    }
                }
                lemma_records_read_back(records, pos + 1, d.contents, true);
                let close_at = pos + 1 + inner.len();
                assert(records[close_at] == close_record()) by {
                    assert(all[1 + inner.len() as int] == head[1 + inner.len() as int]);
                }
                let closed = read_dir(records, close_at, true);
                assert(closed == Some(Parsed { contents: Seq::empty(), next: close_at + 1 }));
                assert(d.contents + Seq::<EntryView>::empty() == d.contents);
                assert(read_dir(records, pos + 1, true) == Some(
                    Parsed { contents: d.contents, next: close_at + 1 },
                ));
                assert(close_at + 1 == pos + head.len());
                lemma_records_read_back(records, pos + head.len(), rest, nested);
                lemma_prepend_twice(seq![first], rest, after);
            },
        }
    }
}

/// A tree that is written as an index reads back as the same tree.
pub proof fn lemma_tree_round_trip(dir: DirView)
    requires
        entries_fit(dir.contents),
    ensures
        VPDir::spec_from_indices(entries_records(dir.contents)) == Some(
            DirView { name: Seq::empty(), contents: dir.contents },
        ),
{
    let records = entries_records(dir.contents);
    assert(records.subrange(0, records.len() as int) == records);
    lemma_records_read_back(records, 0, dir.contents, false);
    assert(dir.contents + Seq::<EntryView>::empty() == dir.contents);
}

/// The records of a list with one more entry at its end are those of
/// the list followed by those of the entry, and the longer list can be
/// written exactly when the list and the entry can.
pub proof fn lemma_entries_push(entries: Seq<EntryView>, entry: EntryView)
    ensures
        entries_records(entries.push(entry)) == entries_records(entries) + entry_records(entry),
        entries_fit(entries.push(entry)) == (entries_fit(entries) && entry_fits(entry)),
    decreases entries.len(),
{
    let longer = entries.push(entry);
    if entries.len() == 0 {
        assert(longer.drop_first() == Seq::<EntryView>::empty());
        assert(entries_records(longer.drop_first()) == Seq::<IndexView>::empty());
        assert(longer[0] == entry);
        assert(entry_records(entry) + Seq::<IndexView>::empty() == entry_records(entry));
        assert(Seq::<IndexView>::empty() + entry_records(entry) == entry_records(entry));
        assert(entries_fit(longer.drop_first()));
        assert(entries_fit(longer) == (entry_fits(longer[0]) && entries_fit(longer.drop_first())));
        assert(entries_fit(entries));
    } else {
        assert(longer.drop_first() == entries.drop_first().push(entry));
        lemma_entries_push(entries.drop_first(), entry);
        assert(longer[0] == entries[0]);
        assert(entries_fit(longer) == (entry_fits(longer[0]) && entries_fit(longer.drop_first())));
        assert(entries_fit(entries) == (entry_fits(entries[0]) && entries_fit(
            entries.drop_first(),
        )));
        assert(entry_records(entries[0]) + (entries_records(entries.drop_first()) + entry_records(
            entry,
        )) == (entry_records(entries[0]) + entries_records(entries.drop_first())) + entry_records(
            entry,
        ));
    }
}

/// The name field that holds `name`, if the name fits.
fn name_to_field(name: &String) -> (res: Option<[u8; 32]>)
    ensures
        res is Some <==> name_fits(name@),
        res matches Some(field) ==> field@ == name_field(name@),
{
    let bytes = name.as_str().as_bytes();
    let len = bytes.len();
    assert(bytes@ == encode_utf8(name@));
    if len > 32 {
        return None;
    }
    if len > 0 && (bytes[0] == 0 || bytes[len - 1] == 0) {
        return None;
    }
    let mut field: [u8; 32] = [0u8; 32];
    let mut k: usize = 0;
    while k < len
        invariant
            k <= len <= 32,
            len == bytes@.len(),
            forall|i: int| 0 <= i < k ==> field@[i] == bytes@[i],
            forall|i: int| k <= i < 32 ==> field@[i] == 0,
        decreases len - k,
    {
        field[k] = bytes[k];
        k = k + 1;
    }
    assert(field@ =~= name_field(name@));
    Some(field)
}

/// Whether the name is `..`.
fn is_dots(name: &String) -> (dots: bool)
    ensures
        dots == (encode_utf8(name@) == seq![0x2eu8, 0x2eu8]),
{
    let bytes = name.as_str().as_bytes();
    assert(bytes@ == encode_utf8(name@));
    let dots = bytes.len() == 2 && bytes[0] == 0x2e && bytes[1] == 0x2e;
    if dots {
        assert(bytes@ =~= seq![0x2eu8, 0x2eu8]);
    }
    dots
}

impl VPDir {
    /// Appends the records that spell out the entries of this directory,
    /// and says whether every entry could be written.
    fn write_into(&self, out: &mut Vec<VPIndex>) -> (ok: bool)
        ensures
            ok == entries_fit(self@.contents),
            ok ==> records_view(final(out)@) == records_view(old(out)@) + entries_records(
                self@.contents,
            ),
        decreases self,
    {
        let ghost start = records_view(out@);
        let ghost all = self@.contents;
        proof {
            lemma_entries_view_index(self.contents@);
            assert(start + Seq::<IndexView>::empty() == start);
        }
        let mut i: usize = 0;
        while i < self.contents.len()
            invariant
                i <= self.contents@.len(),
                all == self@.contents,
                all.len() == self.contents@.len(),
                forall|k: int| 0 <= k < all.len() ==> #[trigger] all[k] == self.contents@[k]@,
                entries_fit(all.take(i as int)),
                records_view(out@) == start + entries_records(all.take(i as int)),
            decreases self.contents.len() - i,
        {
            let ghost done = all.take(i as int);
            let ghost sofar = records_view(out@);
            let ghost entry = all[i as int];
            proof {
                assert(all.take(i + 1) == done.push(entry));
                lemma_entries_push(done, entry);
                if i + 1 == all.len() {
                    assert(all.take(i + 1) == all);
                }
            }
            match &self.contents[i] {
                VPEntry::File(f) => {
                    assert(entry == EntryView::File(f@));
                    let field = match name_to_field(&f.name) {
                        Some(field) => field,
                        None => {
                            proof {
                                lemma_unfit_entry(all, i as int);
                            }
                            return false;
                        },
                    };
                    if f.size == 0 || f.size > 0xffff_ffff || f.fileoffset > 0xffff_ffff {
                        proof {
                            lemma_unfit_entry(all, i as int);
                        }
                        return false;
                    }
                    out.push(
                        VPIndex {
                            fileoffset: f.fileoffset as u32,
                            size: f.size as u32,
                            name: field,
                            timestamp: f.timestamp,
                        },
                    );
                    assert(records_view(out@) =~= sofar + seq![file_record(f@)]);
                    assert(sofar + seq![file_record(f@)] == start + (entries_records(done)
                        + entry_records(entry)));
                },
                VPEntry::Dir(d) => {
                    assert(entry == EntryView::Dir(d@));
                    let field = match name_to_field(&d.name) {
                        Some(field) => field,
                        None => {
                            proof {
                                lemma_unfit_entry(all, i as int);
                            }
                            return false;
                        },
                    };
                    if is_dots(&d.name) {
                        proof {
                            lemma_unfit_entry(all, i as int);
                        }
                        return false;
                    }
                    out.push(VPIndex { fileoffset: 0, size: 0, name: field, timestamp: 0 });
                    let ghost opened = records_view(out@);
                    assert(opened =~= sofar + seq![open_record(d@.name)]);
                    if !d.write_into(out) {
                        proof {
                            lemma_unfit_entry(all, i as int);
                        }
                        return false;
                    }
                    let ghost inner = records_view(out@);
                    let mut dots: [u8; 32] = [0u8; 32];
                    dots[0] = 0x2e;
                    dots[1] = 0x2e;
                    assert(dots@ =~= close_record().name);
                    out.push(VPIndex { fileoffset: 0, size: 0, name: dots, timestamp: 0 });
                    assert(records_view(out@) =~= inner + seq![close_record()]);
                    assert(records_view(out@) == sofar + (seq![open_record(d@.name)]
                        + entries_records(d@.contents) + seq![close_record()]));
                    assert(sofar + entry_records(entry) == start + (entries_records(done)
                        + entry_records(entry)));
                },
            }
            i = i + 1;
        }
        assert(all.take(all.len() as int) == all);
        true
    }

    /// The records that spell out the entries of this directory, in the
    /// order of the tree. The name of this directory itself is not
    /// written.
    ///
    /// Fails with `MalformedContainer` exactly when an entry cannot be
    /// written so that it reads back: a name is longer than 32 bytes,
    /// starts or ends with a zero byte, or is `..` for a directory; or a
    /// file is empty, or lies or reaches beyond 32 bits.
    pub fn to_indices(&self) -> (res: Result<Vec<VPIndex>, VPError>)
        ensures
            res is Ok <==> entries_fit(self@.contents),
            res matches Ok(records) ==> records_view(records@) == entries_records(self@.contents),
            res matches Ok(records) ==> VPDir::spec_from_indices(records_view(records@)) == Some(
                DirView { name: Seq::empty(), contents: self@.contents },
            ),
            res matches Err(e) ==> e == VPError::MalformedContainer,
    {
        let mut records: Vec<VPIndex> = Vec::new();
        if self.write_into(&mut records) {
            proof {
                assert(Seq::<IndexView>::empty() + entries_records(self@.contents)
                    == entries_records(self@.contents));
                lemma_tree_round_trip(self@);
            }
            Ok(records)
        } else {
            Err(VPError::MalformedContainer)
        }
    }
}

/// A list that holds an entry which cannot be written cannot be written.
proof fn lemma_unfit_entry(entries: Seq<EntryView>, i: int)
    requires
        0 <= i < entries.len(),
        !entry_fits(entries[i]),
    ensures
        !entries_fit(entries),
    decreases i,
{
    if i > 0 {
        assert(entries.drop_first()[i - 1] == entries[i]);
        lemma_unfit_entry(entries.drop_first(), i - 1);
    }
}

} // verus!
