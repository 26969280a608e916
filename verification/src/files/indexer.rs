//! What indexing a file records in the catalog: a source for the file, and
//! for a VP one archive entry for each file inside.

use vstd::prelude::*;
use crate::catalog::{
    Catalog, CatalogView, bytes_of, has_entry, has_source, lemma_digests_recorded_once,
    lemma_sources_recorded_once, same_edge, with_all_entries, with_digests, with_sources,
};
use crate::common::{Archive, ArchiveEntry, SHA256Checksum, Source, SourceFormat};
use crate::db::SourceLocation;
use crate::files::hash::{hash_bytes, sha256};
use crate::paths::same_text;
use crate::files::{FileAcquisitionError, id_of, is_known};
use crate::vp::fs::{index, spec_index};
use crate::vp::types::{FileView, VPError, VPFile, files_view, spec_flatten};

verus! {

/// Why a file could not be indexed.
#[derive(Debug)]
pub enum IndexError {
    /// Reading the file failed.
    IOError(String),
    /// The catalog refused a write.
    SqlxError(String),
    /// The file is named as a VP and is not one.
    MalformedContainer,
    /// Files of this kind are not indexed yet.
    Unsupported,
}

/// The failure of an acquisition that a failure to index amounts to.
pub fn acquisition_error(e: IndexError) -> (res: FileAcquisitionError)
    ensures
        match e {
            IndexError::IOError(why) => res matches FileAcquisitionError::IOFailure(w) && w == why,
            IndexError::SqlxError(why) => res matches FileAcquisitionError::CatalogFailure(w) && w
                == why,
            IndexError::MalformedContainer => res is MalformedContainer,
            IndexError::Unsupported => res matches FileAcquisitionError::IOFailure(w) && w@
                == "unsupported"@,
        },
{
    match e {
        IndexError::IOError(why) => FileAcquisitionError::IOFailure(why),
        IndexError::SqlxError(why) => FileAcquisitionError::CatalogFailure(why),
        IndexError::MalformedContainer => FileAcquisitionError::MalformedContainer,
        IndexError::Unsupported => FileAcquisitionError::IOFailure("unsupported".to_owned()),
    }
}

/// How a file with the extension `extension` is indexed.
pub open spec fn spec_format_for(extension: Option<Seq<char>>) -> Option<SourceFormat> {
    match extension {
        Some(ext) => if ext == "vp"@ {
            Some(SourceFormat::VP)
        } else if ext == "vpc"@ {
            None
        } else {
            Some(SourceFormat::Raw)
        },
        None => Some(SourceFormat::Raw),
    }
}

/// How a file is indexed, by the extension of its name: a `vp` file as a
/// VP, whose entries are indexed too; any other as a raw file. `None`
/// for a `vpc` file: compressed VPs are not indexed yet.
pub fn source_format_for(extension: Option<&str>) -> (format: Option<SourceFormat>)
    ensures
        format == spec_format_for(
            match extension {
                Some(ext) => Some(ext@),
                None => None,
            },
        ),
{
    match extension {
        Some(ext) => {
            if same_text(ext, "vp") {
                Some(SourceFormat::VP)
            } else if same_text(ext, "vpc") {
                None
            } else {
                Some(SourceFormat::Raw)
            }
        },
        None => Some(SourceFormat::Raw),
    }
}

/// The source that indexing a file of `size` bytes records, or `None`
/// where the size does not fit the catalog's signed 64-bit column.
pub fn file_source(location: SourceLocation, path: &str, h_id: i64, size: u64, format: SourceFormat) -> (res:
    Option<Source>)
    ensures
        res is Some <==> size <= 0x7fff_ffff_ffff_ffff,
        res matches Some(s) ==> s.location == location && s.path@ == path@ && s.h_id == h_id && s.size
            == size && s.format == format,
{
    if size > 0x7fff_ffff_ffff_ffff {
        None
    } else {
        Some(Source { location, path: path.to_owned(), h_id, size: size as i64, format })
    }
}

/// The smaller of two lengths.
pub open spec fn paired(a: nat, b: nat) -> int {
    if a <= b {
        a as int
    } else {
        b as int
    }
}

/// The archive entries that indexing the VP with blob ID `vp_hash_id`
/// records: one for each file inside, which names the file's blob, as
/// `known` gives it for the file's digest, and the file's path inside.
///
/// `hashes` and `names` list the digests and the paths of the files in the
/// same order. Fails with the first digest that `known` lacks.
pub fn vp_archive_entries(
    hashes: &Vec<SHA256Checksum>,
    names: &Vec<String>,
    known: &Vec<(SHA256Checksum, i64)>,
    vp_hash_id: i64,
) -> (res: Result<Vec<ArchiveEntry>, SHA256Checksum>)
    ensures
        res is Ok <==> forall|k: int|
            0 <= k < paired(hashes@.len(), names@.len()) ==> is_known(
                known@,
                (#[trigger] hashes@[k])@,
            ),
        res matches Ok(entries) ==> entries@.len() == paired(hashes@.len(), names@.len())
            && forall|k: int|
            0 <= k < entries@.len() ==> {
                &&& (#[trigger] entries@[k]).file_id == id_of(known@, hashes@[k]@)
                &&& entries@[k].file_path@ == names@[k]@
                &&& entries@[k].archive_id == vp_hash_id
                &&& entries@[k].archive_type == Archive::VP
            },
        res matches Err(d) ==> exists|k: int|
            0 <= k < paired(hashes@.len(), names@.len()) && (#[trigger] hashes@[k])@ == d@
                && !is_known(known@, d@),
{
    let count = if hashes.len() <= names.len() {
        hashes.len()
    } else {
        names.len()
    };
    let mut entries: Vec<ArchiveEntry> = Vec::new();
    let mut k: usize = 0;
    while k < count
        invariant
            k <= count,
            count == paired(hashes@.len(), names@.len()),
            entries@.len() == k,
            forall|j: int| 0 <= j < k ==> is_known(known@, (#[trigger] hashes@[j])@),
            forall|j: int|
                0 <= j < k ==> {
                    &&& (#[trigger] entries@[j]).file_id == id_of(known@, hashes@[j]@)
                    &&& entries@[j].file_path@ == names@[j]@
                    &&& entries@[j].archive_id == vp_hash_id
                    &&& entries@[j].archive_type == Archive::VP
                },
        decreases count - k,
    {
        match crate::files::lookup(known, &hashes[k]) {
            Some(id) => {
                entries.push(
                    ArchiveEntry {
                        file_id: id,
                        file_path: names[k].clone(),
                        archive_id: vp_hash_id,
                        archive_type: Archive::VP,
                    },
                );
            },
            None => {
                return Err(hashes[k].clone());
            },
        }
        k = k + 1;
    }
    Ok(entries)
}

/// The payload of a file of a container lies inside the container.
pub open spec fn payload_inside(bytes: Seq<u8>, file: FileView) -> bool {
    file.fileoffset + file.size <= bytes.len()
}

/// The payload of a file of a container.
pub open spec fn payload(bytes: Seq<u8>, file: FileView) -> Seq<u8> {
    bytes.subrange(file.fileoffset as int, file.fileoffset + file.size)
}

/// The digests of the payloads of `files`, in order.
pub open spec fn payload_digests(bytes: Seq<u8>, files: Seq<FileView>) -> Seq<Seq<u8>> {
    Seq::new(files.len(), |k: int| sha256(payload(bytes, files[k])))
}

/// The files inside a VP, each named by its path in the container, or
/// `None` where the bytes are not a VP whose payloads lie inside it.
pub open spec fn vp_files(bytes: Seq<u8>) -> Option<Seq<FileView>> {
    match spec_index(bytes) {
        Some(tree) => if forall|k: int|
            0 <= k < spec_flatten(tree).len() ==> payload_inside(
                bytes,
                #[trigger] spec_flatten(tree)[k],
            ) {
            Some(spec_flatten(tree))
        } else {
            None
        },
        None => None,
    }
}

/// The payload of a file of a container, if it lies inside the container.
pub fn payload_slice<'a>(bytes: &'a [u8], file: &VPFile) -> (part: Option<&'a [u8]>)
    ensures
        part is Some <==> payload_inside(bytes@, file@),
        part matches Some(p) ==> p@ == payload(bytes@, file@),
{
    let len = bytes.len() as u64;
    if file.fileoffset > len || file.size > len - file.fileoffset {
        return None;
    }
    let start = file.fileoffset as usize;
    let end = (file.fileoffset + file.size) as usize;
    Some(vstd::slice::slice_subrange(bytes, start, end))
}

/// The files inside a VP, each named by its path in the container, with
/// the digest of its payload, in index order.
///
/// Fails with `MalformedContainer` exactly when the bytes are no VP or the
/// index points beyond their end.
pub fn vp_payload_digests(bytes: &[u8]) -> (res: Result<(Vec<VPFile>, Vec<SHA256Checksum>), VPError>)
    ensures
        res is Ok <==> vp_files(bytes@) is Some,
        res matches Ok(found) ==> Some(files_view(found.0@)) == vp_files(bytes@) && bytes_of(
            found.1@,
        ) == payload_digests(bytes@, files_view(found.0@)),
        res matches Err(e) ==> e == VPError::MalformedContainer,
{
    let inside = match index(bytes) {
        Ok(tree) => tree.flatten(),
        Err(_) => {
            return Err(VPError::MalformedContainer);
        },
    };
    let ghost files = files_view(inside@);
    let mut digests: Vec<SHA256Checksum> = Vec::new();
    let mut k: usize = 0;
    while k < inside.len()
        invariant
            k <= inside@.len(),
            files == files_view(inside@),
            spec_index(bytes@) is Some,
            files == spec_flatten(spec_index(bytes@)->0),
            digests@.len() == k,
            forall|j: int| 0 <= j < k ==> payload_inside(bytes@, #[trigger] files[j]),
            forall|j: int|
                0 <= j < k ==> (#[trigger] digests@[j])@ == sha256(payload(bytes@, files[j])),
        decreases inside.len() - k,
    {
        assert(files[k as int] == inside@[k as int]@);
        match payload_slice(bytes, &inside[k]) {
            Some(part) => {
                digests.push(hash_bytes(part));
            },
            None => {
                assert(!payload_inside(bytes@, files[k as int]));
                return Err(VPError::MalformedContainer);
            },
        }
        k = k + 1;
    }
    assert(bytes_of(digests@) =~= payload_digests(bytes@, files));
    Ok((inside, digests))
}

/// What indexing a file leaves in the catalog.
#[derive(Debug)]
pub struct Indexed {
    /// The blob ID of the file.
    pub blob: i64,
    /// The source recorded for the file.
    pub source: Source,
    /// For a VP, the edges recorded for the files inside, in index order.
    pub entries: Vec<ArchiveEntry>,
}

/// A catalog after a batch of digests, a source and a batch of edges have
/// been recorded.
pub open spec fn recorded(
    view: CatalogView,
    digests: Seq<Seq<u8>>,
    source: Source,
    entries: Seq<ArchiveEntry>,
) -> CatalogView {
    CatalogView {
        digests: with_digests(view.digests, digests, digests.len() as int),
        sources: with_sources(view.sources, seq![source], 1),
        entries: with_all_entries(view.entries, entries, entries.len() as int),
        ..view
    }
}

/// Recording edges that are all recorded already changes nothing.
proof fn lemma_known_entries(entries: Seq<ArchiveEntry>, new: Seq<ArchiveEntry>, n: int)
    requires
        0 <= n <= new.len(),
        forall|k: int| 0 <= k < new.len() ==> has_entry(entries, #[trigger] new[k]),
    ensures
        with_all_entries(entries, new, n) == entries,
    decreases n,
{
    if n > 0 {
        lemma_known_entries(entries, new, n - 1);
    }
}

/// Indexing a file that is indexed already changes nothing.
///
/// `first` is the catalog after the file was indexed, `again` the catalog
/// after it was indexed once more: the second time the same digests are
/// recorded, a source for the same place and blob, and edges between the
/// same blobs.
pub proof fn lemma_reindexing_changes_nothing(
    start: CatalogView,
    first: CatalogView,
    again: CatalogView,
    digests: Seq<Seq<u8>>,
    source: Source,
    entries: Seq<ArchiveEntry>,
    source_again: Source,
    entries_again: Seq<ArchiveEntry>,
)
    requires
        first == recorded(start, digests, source, entries),
        again == recorded(first, digests, source_again, entries_again),
        source_again.same_key(&source),
        entries_again.len() == entries.len(),
        forall|k: int|
            0 <= k < entries.len() ==> same_edge(#[trigger] entries_again[k], entries[k]),
    ensures
        again == first,
{
    lemma_digests_recorded_once(start.digests, digests, digests.len() as int, digests.len() as int);
    lemma_sources_recorded_once(start.sources, seq![source], 1, 1);
    let held = with_sources(start.sources, seq![source], 1);
    assert(has_source(held, source)) by {
        assert(with_sources(held, seq![source], 1) == held);
        if !has_source(held, source) {
            assert(with_sources(held, seq![source], 0) == held);
            assert(with_sources(held, seq![source], 1) == held.push(source));
        }
    }
    let k = choose|k: int| 0 <= k < held.len() && source.same_key(&#[trigger] held[k]);
    assert(source_again.same_key(&held[k]));
    assert(with_sources(held, seq![source_again], 0) == held);
    assert forall|j: int| 0 <= j < entries_again.len() implies has_entry(
        first.entries,
        #[trigger] entries_again[j],
    ) by {
        crate::catalog::lemma_entries_hold(start.entries, entries, entries.len() as int, j);
        let at = choose|at: int|
            0 <= at < first.entries.len() && same_edge(entries[j], #[trigger] first.entries[at]);
        assert(same_edge(entries_again[j], first.entries[at]));
    }
    lemma_known_entries(first.entries, entries_again, entries_again.len() as int);
}

/// The edges that put the files of a VP into it.
pub open spec fn entries_of(view: CatalogView, vp: i64, files: Seq<FileView>, digests: Seq<Seq<u8>>, rows: Seq<
    ArchiveEntry,
>) -> bool {
    &&& rows.len() == files.len()
    &&& forall|k: int|
        0 <= k < rows.len() ==> {
            &&& (#[trigger] rows[k]).file_id == view.blob_id(digests[k])
            &&& rows[k].file_path@ == files[k].name
            &&& rows[k].archive_id == vp
            &&& rows[k].archive_type == Archive::VP
        }
}

/// The text of an optional extension.
pub open spec fn extension_view(extension: Option<&str>) -> Option<Seq<char>> {
    match extension {
        Some(ext) => Some(ext@),
        None => None,
    }
}

/// The files whose digests are recorded with a file of this extension and
/// content: for a VP the files inside it, for any other file none.
pub open spec fn files_inside(extension: Option<Seq<char>>, bytes: Seq<u8>) -> Seq<FileView> {
    if spec_format_for(extension) == Some(SourceFormat::VP) && vp_files(bytes) is Some {
        vp_files(bytes)->0
    } else {
        Seq::empty()
    }
}

/// The file can be read as what its extension says it is: the extension
/// is one that is indexed, and a `vp` file is a VP whose payloads lie
/// inside it.
pub open spec fn readable_as(extension: Option<Seq<char>>, bytes: Seq<u8>) -> bool {
    &&& spec_format_for(extension) is Some
    &&& spec_format_for(extension) == Some(SourceFormat::VP) ==> vp_files(bytes) is Some
}

/// The catalog has room for the file: its size fits the catalog's signed
/// 64-bit column, and the catalog can number its digest and those of the
/// files inside it.
pub open spec fn has_room(view: CatalogView, extension: Option<Seq<char>>, bytes: Seq<u8>) -> bool {
    &&& bytes.len() <= 0x7fff_ffff_ffff_ffff
    &&& view.digests.len() + 1 + files_inside(extension, bytes).len() <= 0x7fff_ffff_ffff_ffff
}

/// Indexes a file that lies at `path`: records its digest, a source for it
/// at `location`, and, for a VP, the digest of each file inside and the
/// edge that puts it into the VP.
///
/// `extension` is the extension of the file's name, `bytes` its content.
/// Either everything is recorded or nothing. It succeeds exactly when the
/// file can be read as what its extension says and the catalog has room
/// for it. It fails with `Unsupported` for a `vpc` file, with
/// `MalformedContainer` for a `vp` file that is no VP or whose index
/// points beyond its end, and with `SqlxError` for a file that can be read
/// and for which the catalog has no room.
pub fn index_file(
    catalog: &mut Catalog,
    path: &str,
    extension: Option<&str>,
    bytes: &[u8],
    location: SourceLocation,
) -> (res: Result<Indexed, IndexError>)
    requires
        old(catalog)@.valid(),
    ensures
        final(catalog)@.valid(),
        res is Ok <==> readable_as(extension_view(extension), bytes@) && has_room(
            old(catalog)@,
            extension_view(extension),
            bytes@,
        ),
        res is Err ==> final(catalog)@ == old(catalog)@,
        res matches Ok(done) ==> {
            let format = spec_format_for(extension_view(extension));
            let files = files_inside(extension_view(extension), bytes@);
            let digests = seq![sha256(bytes@)] + payload_digests(bytes@, files);
            &&& done.blob == final(catalog)@.blob_id(sha256(bytes@))
            &&& final(catalog)@.has_blob(done.blob)
            &&& done.source.location == location
            &&& done.source.path@ == path@
            &&& done.source.h_id == done.blob
            &&& done.source.size == bytes@.len()
            &&& Some(done.source.format) == format
            &&& entries_of(
                final(catalog)@,
                done.blob,
                files,
                payload_digests(bytes@, files),
                done.entries@,
            )
            &&& final(catalog)@ == recorded(old(catalog)@, digests, done.source, done.entries@)
        },
        res matches Err(e) ==> match e {
            IndexError::Unsupported => spec_format_for(extension_view(extension)) is None,
            IndexError::MalformedContainer => spec_format_for(extension_view(extension)) == Some(
                SourceFormat::VP,
            ) && vp_files(bytes@) is None,
            IndexError::SqlxError(_) => readable_as(extension_view(extension), bytes@) && !has_room(
                old(catalog)@,
                extension_view(extension),
                bytes@,
            ),
            IndexError::IOError(_) => false,
        },
{
    let format = match source_format_for(extension) {
        Some(f) => f,
        None => {
            return Err(IndexError::Unsupported);
        },
    };
    let is_vp = match format {
        SourceFormat::VP => true,
        _ => false,
    };
    let mut inside: Vec<VPFile> = Vec::new();
    let mut digests: Vec<SHA256Checksum> = Vec::new();
    digests.push(hash_bytes(bytes));
    let ghost wanted = spec_format_for(extension_view(extension));
    assert(wanted == Some(format));
    assert(is_vp <==> wanted == Some(SourceFormat::VP));
    if is_vp {
        match vp_payload_digests(bytes) {
            Ok(found) => {
                let (files, mut sums) = found;
                inside = files;
                assert(bytes_of(sums@) == payload_digests(bytes@, files_view(inside@)));
                let ghost head = digests@;
                let ghost tail = sums@;
                digests.append(&mut sums);
                assert(digests@ == head + tail);
            },
            Err(_) => {
                return Err(IndexError::MalformedContainer);
            },
        }
    }
    let ghost files = files_view(inside@);
    proof {
        assert(digests@.len() == inside@.len() + 1);
        assert(digests@[0]@ == sha256(bytes@));
        assert forall|j: int| 0 <= j < inside@.len() implies (#[trigger] digests@[j + 1])@
            == sha256(payload(bytes@, files[j])) by {
            assert(bytes_of(digests@.subrange(1, digests@.len() as int))[j] == payload_digests(
                bytes@,
                files,
            )[j]) by {
                if is_vp {
                    assert(digests@.subrange(1, digests@.len() as int) =~= digests@.skip(1));
                }
            }
        }
    }
    proof {
        if is_vp {
            assert(vp_files(bytes@) == Some(files));
        }
        assert(files_inside(extension_view(extension), bytes@) == files);
        assert(readable_as(extension_view(extension), bytes@));
    }
    if bytes.len() as u64 > 0x7fff_ffff_ffff_ffff {
        return Err(IndexError::SqlxError("file too large".to_owned()));
    }
    let ghost batch = bytes_of(digests@);
    proof {
        let all = seq![sha256(bytes@)] + payload_digests(bytes@, files);
        assert(batch.len() == all.len());
        assert forall|i: int| 0 <= i < batch.len() implies batch[i] == all[i] by {
            if i > 0 {
                assert(digests@[(i - 1) + 1]@ == sha256(payload(bytes@, files[i - 1])));
            }
        }
        assert(batch =~= all);
        if is_vp {
            assert(vp_files(bytes@) == Some(files));
        }
    }
    let ghost before = catalog@;
    let ids = match catalog.upsert_digests(&digests) {
        Ok(ids) => ids,
        Err(_) => {
            return Err(IndexError::SqlxError("too many blobs".to_owned()));
        },
    };
    let blob = ids[0];
    let source = Source { location, path: path.to_owned(), h_id: blob, size: bytes.len() as i64, format };
    let mut one: Vec<Source> = Vec::new();
    one.push(source.clone());
    assert(one@ == seq![source]);
    let ghost middle = catalog@;
    let stored = catalog.insert_sources(&one);
    assert(stored is Ok);
    let mut entries: Vec<ArchiveEntry> = Vec::new();
    let mut k: usize = 0;
    while k < inside.len()
        invariant
            k <= inside@.len(),
            files == files_view(inside@),
            ids@.len() == inside@.len() + 1,
            digests@.len() == inside@.len() + 1,
            catalog@.digests == middle.digests,
            forall|j: int|
                0 <= j < ids@.len() ==> #[trigger] ids@[j] == middle.blob_id(digests@[j]@)
                    && middle.has_blob(ids@[j]),
            forall|j: int|
                0 <= j < inside@.len() ==> (#[trigger] digests@[j + 1])@ == sha256(
                    payload(bytes@, files[j]),
                ),
            blob == ids@[0],
            entries@.len() == k,
            forall|j: int|
                0 <= j < k ==> {
                    &&& (#[trigger] entries@[j]).file_id == ids@[j + 1]
                    &&& entries@[j].file_path@ == files[j].name
                    &&& entries@[j].archive_id == blob
                    &&& entries@[j].archive_type == Archive::VP
                },
        decreases inside.len() - k,
    {
        assert(files[k as int] == inside@[k as int]@);
        entries.push(
            ArchiveEntry {
                file_id: ids[k + 1],
                file_path: inside[k].name.clone(),
                archive_id: blob,
                archive_type: Archive::VP,
            },
        );
        k = k + 1;
    }
    proof {
        assert forall|j: int| 0 <= j < entries@.len() implies catalog@.has_blob(
            (#[trigger] entries@[j]).file_id,
        ) && catalog@.has_blob(entries@[j].archive_id) by {
            assert(middle.has_blob(ids@[j + 1]));
            assert(middle.has_blob(ids@[0]));
        }
    }
    let linked = catalog.insert_archive_entries(&entries);
    assert(linked is Ok);
    proof {
        assert forall|j: int| 0 <= j < entries@.len() implies (#[trigger] entries@[j]).file_id
            == catalog@.blob_id(payload_digests(bytes@, files)[j]) by {
            assert(ids@[j + 1] == middle.blob_id(digests@[j + 1]@));
        }
    }
    Ok(Indexed { blob, source, entries })
}

} // verus!
