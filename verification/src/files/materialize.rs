//! Writing the files of a manifest: every blob is read where the catalog
//! says it lies on this machine, and checked against its digest, before
//! anything is written.

use vstd::prelude::*;
use crate::catalog::{Catalog, CatalogView};
use crate::common::SHA256Checksum;
use crate::files::hash::{hash_bytes, sha256};
use crate::files::indexer::{payload, payload_inside, payload_slice};
use crate::files::readers::{ReaderError, get_path, spec_get_path};
use crate::files::{
    DataPath, FileAcquisitionError, ManifEntry, ManifIdent, PlaceView, VPContents,
};
use crate::paths::{join_path, spec_join};
use crate::vp::fs::{index, spec_index};
use crate::vp::types::{FileView, VPFile, files_view, spec_flatten};

verus! {

/// A file with its content.
#[derive(Debug, PartialEq, Eq)]
pub struct LocalFile {
    pub path: String,
    pub bytes: Vec<u8>,
}

/// The place of the first file at or after `from` that lies at `path`, or
/// the number of files where none does.
pub open spec fn file_at(disk: Seq<LocalFile>, path: Seq<char>, from: int) -> int
    decreases disk.len() - from,
{
    if from < 0 || from >= disk.len() {
        disk.len() as int
    } else if disk[from].path@ == path {
        from
    } else {
        file_at(disk, path, from + 1)
    }
}

/// The place of the last file before `upto` that is called `name`, or the
/// number of files where none is.
pub open spec fn named_at(files: Seq<FileView>, name: Seq<char>, upto: int) -> int
    decreases upto,
{
    if upto <= 0 || upto > files.len() {
        files.len() as int
    } else if files[upto - 1].name == name {
        upto - 1
    } else {
        named_at(files, name, upto - 1)
    }
}

/// The bytes of the entry `inner` of the VP with content `bytes`: the
/// payload of the file of that path, or of the last of them where several
/// share the path, where the bytes are a VP, hold such a file, and do not
/// end before its payload does.
pub open spec fn entry_bytes(bytes: Seq<u8>, inner: Seq<char>) -> Option<Seq<u8>> {
    match spec_index(bytes) {
        Some(tree) => {
            let files = spec_flatten(tree);
            let k = named_at(files, inner, files.len() as int);
            if k < files.len() && payload_inside(bytes, files[k]) {
                Some(payload(bytes, files[k]))
            } else {
                None
            }
        },
        None => None,
    }
}

/// The bytes that lie at a place, given the files on this machine: those
/// of a file, or those of an entry of a VP. Entries of 7-zip archives are
/// not read in place.
pub open spec fn spec_read(place: PlaceView, disk: Seq<LocalFile>) -> Option<Seq<u8>> {
    match place {
        PlaceView::Raw(file) => if file_at(disk, file, 0) < disk.len() {
            Some(disk[file_at(disk, file, 0)].bytes@)
        } else {
            None
        },
        PlaceView::VPEntry(file, inner) => if file_at(disk, file, 0) < disk.len() {
            entry_bytes(disk[file_at(disk, file, 0)].bytes@, inner)
        } else {
            None
        },
        PlaceView::SZEntry(_, _) => None,
    }
}

/// The file that lies at `path`, if there is one.
fn find_file<'a>(disk: &'a Vec<LocalFile>, path: &String) -> (found: Option<&'a LocalFile>)
    ensures
        found is Some <==> file_at(disk@, path@, 0) < disk@.len(),
        found matches Some(f) ==> *f == disk@[file_at(disk@, path@, 0)],
{
    let mut i: usize = 0;
    while i < disk.len()
        invariant
            i <= disk@.len(),
            file_at(disk@, path@, 0) == file_at(disk@, path@, i as int),
        decreases disk.len() - i,
    {
        if disk[i].path == *path {
            return Some(&disk[i]);
        }
        i = i + 1;
    }
    None
}

/// The place of the last file that is called `name`.
fn find_entry(files: &Vec<VPFile>, name: &String) -> (place: Option<usize>)
    ensures
        place is Some <==> named_at(files_view(files@), name@, files@.len() as int) < files@.len(),
        place matches Some(i) ==> i == named_at(files_view(files@), name@, files@.len() as int),
{
    let count = files.len();
    let mut upto: usize = count;
    while upto > 0
        invariant
            upto <= count == files@.len(),
            named_at(files_view(files@), name@, count as int) == named_at(
                files_view(files@),
                name@,
                upto as int,
            ),
        decreases upto,
    {
        if files[upto - 1].name == *name {
            return Some(upto - 1);
        }
        upto = upto - 1;
    }
    None
}

/// A copy of the bytes `start..end`.
fn copy_bytes(bytes: &[u8], start: usize, end: usize) -> (copy: Vec<u8>)
    requires
        start <= end <= bytes@.len(),
    ensures
        copy@ == bytes@.subrange(start as int, end as int),
{
    let mut copy: Vec<u8> = Vec::new();
    let mut i: usize = start;
    while i < end
        invariant
            start <= i <= end <= bytes@.len(),
            copy@ == bytes@.subrange(start as int, i as int),
        decreases end - i,
    {
        copy.push(bytes[i]);
        assert(bytes@.subrange(start as int, i + 1) == bytes@.subrange(start as int, i as int).push(
            bytes@[i as int],
        ));
        i = i + 1;
    }
    copy
}

/// The bytes of the entry `inner` of the VP with content `bytes`.
fn read_vp_entry(bytes: &[u8], inner: &String) -> (res: Option<Vec<u8>>)
    ensures
        res is Some <==> entry_bytes(bytes@, inner@) is Some,
        res matches Some(found) ==> Some(found@) == entry_bytes(bytes@, inner@),
{
    let tree = match index(bytes) {
        Ok(tree) => tree,
        Err(_) => {
            return None;
        },
    };
    let files = tree.flatten();
    let entry = match find_entry(&files, inner) {
        Some(i) => &files[i],
        None => {
            return None;
        },
    };
    match payload_slice(bytes, entry) {
        Some(part) => Some(copy_bytes(part, 0, part.len())),
        None => None,
    }
}

/// The bytes that lie at a place, given the files on this machine.
///
/// Fails with `IOError` exactly when the file is not there, and with
/// `VPError` when the file is there and is no VP, holds no entry of that
/// name or ends before the entry does, or the place is an entry of a 7-zip
/// archive.
pub fn read_data_path(place: &DataPath, disk: &Vec<LocalFile>) -> (res: Result<Vec<u8>, ReaderError>)
    ensures
        res is Ok <==> spec_read(place@, disk@) is Some,
        res matches Ok(bytes) ==> Some(bytes@) == spec_read(place@, disk@),
        res matches Err(e) ==> match place@ {
            PlaceView::Raw(file) => e is IOError,
            PlaceView::VPEntry(file, inner) => if file_at(disk@, file, 0) < disk@.len() {
                e matches ReaderError::VPError(f, i) && f@ == file && i@ == inner
            } else {
                e is IOError
            },
            PlaceView::SZEntry(file, inner) => e matches ReaderError::VPError(f, i) && f@ == file
                && i@ == inner,
        },
{
    match place {
        DataPath::Raw(file) => match find_file(disk, file) {
            Some(found) => Ok(copy_bytes(found.bytes.as_slice(), 0, found.bytes.len())),
            None => Err(ReaderError::IOError("no such file".to_owned())),
        },
        DataPath::VPEntry(file, inner) => match find_file(disk, file) {
            Some(found) => match read_vp_entry(found.bytes.as_slice(), inner) {
                Some(bytes) => Ok(bytes),
                None => Err(ReaderError::VPError(file.clone(), inner.clone())),
            },
            None => Err(ReaderError::IOError("no such file".to_owned())),
        },
        DataPath::SZEntry(file, inner) => Err(ReaderError::VPError(file.clone(), inner.clone())),
    }
}

/// The bytes that are read for the blob with digest `digest`, where the
/// catalog gives it a place on this machine and the place can be read.
pub open spec fn blob_bytes(view: CatalogView, disk: Seq<LocalFile>, digest: Seq<u8>) -> Option<
    Seq<u8>,
> {
    match spec_get_path(view, digest) {
        Some(place) => spec_read(place, disk),
        None => None,
    }
}

/// The blob with digest `digest` can be read on this machine, and what is
/// read has that digest.
pub open spec fn intact(view: CatalogView, disk: Seq<LocalFile>, digest: Seq<u8>) -> bool {
    blob_bytes(view, disk, digest) matches Some(bytes) && sha256(bytes) == digest
}

/// The bytes of the blob with digest `checksum`, read on this machine and
/// checked against the digest.
///
/// Fails with `IOFailure` exactly when the blob has no place on this
/// machine or the place cannot be read, and with `ContentHashMismatch`,
/// which names the digest observed, exactly when what was read is not the
/// blob.
pub fn read_blob(catalog: &Catalog, disk: &Vec<LocalFile>, checksum: &SHA256Checksum) -> (res: Result<
    Vec<u8>,
    FileAcquisitionError,
>)
    requires
        catalog@.valid(),
    ensures
        res is Ok <==> intact(catalog@, disk@, checksum@),
        res matches Ok(bytes) ==> Some(bytes@) == blob_bytes(catalog@, disk@, checksum@),
        res matches Err(e) ==> match blob_bytes(catalog@, disk@, checksum@) {
            Some(bytes) => e matches FileAcquisitionError::ContentHashMismatch(observed)
                && observed@ == sha256(bytes),
            None => e is IOFailure,
        },
{
    let place = match get_path(catalog, checksum) {
        Ok(place) => place,
        Err(_) => {
            return Err(FileAcquisitionError::IOFailure("blob is not on this machine".to_owned()));
        },
    };
    let bytes = match read_data_path(&place, disk) {
        Ok(bytes) => bytes,
        Err(_) => {
            return Err(FileAcquisitionError::IOFailure("blob cannot be read".to_owned()));
        },
    };
    let observed = hash_bytes(bytes.as_slice());
    if observed.same_as(checksum) {
        Ok(bytes)
    } else {
        Err(FileAcquisitionError::ContentHashMismatch(observed))
    }
}

/// The digest that an entry of the manifest installs as one file, if it
/// installs one: that of a loose file or of a prebuilt VP.
pub open spec fn file_digest(ident: ManifIdent) -> Option<Seq<u8>> {
    match ident {
        ManifIdent::Raw(hash) => Some(hash@),
        ManifIdent::VP(VPContents::Hash(hash)) => Some(hash@),
        ManifIdent::VP(VPContents::Contents(_)) => None,
    }
}

/// An entry of the manifest can be written: it installs one file, whose
/// blob is intact on this machine.
pub open spec fn writable(view: CatalogView, disk: Seq<LocalFile>, entry: ManifEntry) -> bool {
    file_digest(entry.ident) matches Some(digest) && intact(view, disk, digest)
}

/// The place of the first entry at or after `from` that cannot be written,
/// or the length of the manifest where every one can.
pub open spec fn first_unwritable(
    view: CatalogView,
    disk: Seq<LocalFile>,
    manifest: Seq<ManifEntry>,
    from: int,
) -> int
    decreases manifest.len() - from,
{
    if from < 0 || from >= manifest.len() {
        manifest.len() as int
    } else if !writable(view, disk, manifest[from]) {
        from
    } else {
        first_unwritable(view, disk, manifest, from + 1)
    }
}

/// The files that installing a manifest below `root` writes: for each
/// entry the file at its path, with the bytes of its blob.
///
/// Either every file of the manifest is returned, each with content that
/// has the digest the manifest asks for, or nothing is: an install that
/// fails writes no file. It fails at the first entry that cannot be
/// written: with `ContentHashMismatch` where what this machine holds for
/// the blob is not the blob, with `IOFailure` where the blob cannot be
/// read here or the entry is a VP that is yet to be built.
pub fn materialize(
    catalog: &Catalog,
    disk: &Vec<LocalFile>,
    manifest: &Vec<ManifEntry>,
    root: &str,
) -> (res: Result<Vec<LocalFile>, FileAcquisitionError>)
    requires
        catalog@.valid(),
    ensures
        res is Ok <==> forall|k: int|
            0 <= k < manifest@.len() ==> writable(catalog@, disk@, #[trigger] manifest@[k]),
        res matches Ok(written) ==> written@.len() == manifest@.len() && forall|k: int|
            0 <= k < written@.len() ==> {
                &&& (#[trigger] written@[k]).path@ == spec_join(root@, manifest@[k].path@)
                &&& Some(sha256(written@[k].bytes@)) == file_digest(manifest@[k].ident)
                &&& Some(written@[k].bytes@) == blob_bytes(
                    catalog@,
                    disk@,
                    file_digest(manifest@[k].ident)->0,
                )
            },
        res matches Err(e) ==> {
            let k = first_unwritable(catalog@, disk@, manifest@, 0);
            &&& k < manifest@.len()
            &&& match file_digest(manifest@[k].ident) {
                Some(digest) => match blob_bytes(catalog@, disk@, digest) {
                    Some(bytes) => e matches FileAcquisitionError::ContentHashMismatch(observed)
                        && observed@ == sha256(bytes),
                    None => e is IOFailure,
                },
                None => e is IOFailure,
            }
        },
{
    let mut written: Vec<LocalFile> = Vec::new();
    let mut k: usize = 0;
    while k < manifest.len()
        invariant
            k <= manifest@.len(),
            catalog@.valid(),
            written@.len() == k,
            first_unwritable(catalog@, disk@, manifest@, 0) == first_unwritable(
                catalog@,
                disk@,
                manifest@,
                k as int,
            ),
            forall|j: int| 0 <= j < k ==> writable(catalog@, disk@, #[trigger] manifest@[j]),
            forall|j: int|
                0 <= j < k ==> {
                    &&& (#[trigger] written@[j]).path@ == spec_join(root@, manifest@[j].path@)
                    &&& Some(sha256(written@[j].bytes@)) == file_digest(manifest@[j].ident)
                    &&& Some(written@[j].bytes@) == blob_bytes(
                        catalog@,
                        disk@,
                        file_digest(manifest@[j].ident)->0,
                    )
                },
        decreases manifest.len() - k,
    {
        let entry = &manifest[k];
        let checksum = match &entry.ident {
            ManifIdent::Raw(hash) => hash,
            ManifIdent::VP(VPContents::Hash(hash)) => hash,
            ManifIdent::VP(VPContents::Contents(_)) => {
                assert(!writable(catalog@, disk@, manifest@[k as int]));
                return Err(FileAcquisitionError::IOFailure("VP is yet to be built".to_owned()));
            },
        };
        let bytes = match read_blob(catalog, disk, checksum) {
            Ok(bytes) => bytes,
            Err(e) => {
                assert(!writable(catalog@, disk@, manifest@[k as int]));
                return Err(e);
            },
        };
        assert(writable(catalog@, disk@, manifest@[k as int]));
        written.push(LocalFile { path: join_path(root, entry.path.as_str()), bytes });
        k = k + 1;
    }
    Ok(written)
}

} // verus!
