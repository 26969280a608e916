//! Reading the directory tree out of the bytes of a container, and
//! finding the container on a path that leads into it.

use vstd::prelude::*;
use crate::vp::parser::{header, indices, spec_header, spec_indices};
use crate::vp::types::{
    DirView, EntryView, FileView, VPDir, VPEntry, VPError, VPFile, lemma_entries_view_index, path_view,
};

verus! {

/// The directory tree of the container that `bytes` hold: the header
/// names the place and the length of the index, and the records of the
/// index spell out the tree.
pub open spec fn spec_index(bytes: Seq<u8>) -> Option<DirView> {
    match spec_header(bytes) {
        Some(h) => if h.offset <= bytes.len() {
            match spec_indices(bytes.skip(h.offset as int), h.entries as nat) {
                Some(records) => VPDir::spec_from_indices(records),
                None => None,
            }
        } else {
            None
        },
        None => None,
    }
}

/// Reads the directory tree of a container from its bytes.
///
/// Fails with `MalformedContainer` exactly when the header is malformed,
/// the index is truncated, a name is not UTF-8, or a `..` closes a
/// directory that was never opened.
pub fn index(bytes: &[u8]) -> (res: Result<VPDir, VPError>)
    ensures
        res is Ok <==> spec_index(bytes@) is Some,
        res matches Ok(dir) ==> Some(dir@) == spec_index(bytes@),
        res matches Err(e) ==> e == VPError::MalformedContainer,
{
    let head = match header(bytes) {
        Ok(h) => h,
        Err(e) => {
            return Err(e);
        },
    };
    if head.offset as u64 > bytes.len() as u64 {
        return Err(VPError::MalformedContainer);
    }
    let table = vstd::slice::slice_subrange(bytes, head.offset as usize, bytes.len());
    assert(table@ == bytes@.skip(head.offset as int));
    let records = match indices(table, head.entries) {
        Ok(r) => r,
        Err(e) => {
            return Err(e);
        },
    };
    VPDir::from_indices(&records)
}

/// `entry` is a directory (`want_dir`) or a file, and is called `name`.
pub open spec fn is_kind(entry: EntryView, name: Seq<char>, want_dir: bool) -> bool {
    match entry {
        EntryView::File(f) => !want_dir && f.name == name,
        EntryView::Dir(d) => want_dir && d.name == name,
    }
}

/// The place of the last directory (`want_dir`) or file before `upto`
/// that is called `name`, or the length of `contents`.
pub open spec fn find_kind(contents: Seq<EntryView>, name: Seq<char>, want_dir: bool, upto: int) -> int
    decreases upto,
{
    if upto <= 0 || upto > contents.len() {
        contents.len() as int
    } else if is_kind(contents[upto - 1], name, want_dir) {
        upto - 1
    } else {
        find_kind(contents, name, want_dir, upto - 1)
    }
}

/// The file that `folders` lead to from `from` onward: every component
/// but the last names a directory, the last names a file. Where several
/// entries of a directory share a name, the last of them is meant.
pub open spec fn spec_read_entry(dir: DirView, folders: Seq<Seq<char>>, from: int) -> Option<FileView>
    decreases folders.len() - from,
{
    if from < 0 || from >= folders.len() {
        None
    } else {
        let last = from == folders.len() - 1;
        let i = find_kind(dir.contents, folders[from], !last, dir.contents.len() as int);
        if 0 <= i < dir.contents.len() {
            match dir.contents[i] {
                EntryView::File(f) => Some(f),
                EntryView::Dir(d) => spec_read_entry(d, folders, from + 1),
            }
        } else {
            None
        }
    }
}

/// The place of the last directory (`want_dir`) or file called `name`.
fn find_of_kind(dir: &VPDir, name: &String, want_dir: bool) -> (place: usize)
    ensures
        place == find_kind(dir@.contents, name@, want_dir, dir@.contents.len() as int),
        place <= dir.contents@.len(),
        place < dir.contents@.len() ==> (want_dir <==> dir.contents@[place as int] is Dir),
{
    proof {
        lemma_entries_view_index(dir.contents@);
    }
    let count = dir.contents.len();
    let mut upto: usize = count;
    while upto > 0
        invariant
            upto <= count == dir.contents@.len(),
            dir@.contents.len() == dir.contents@.len(),
            forall|k: int|
                0 <= k < dir.contents@.len() ==> #[trigger] dir@.contents[k] == dir.contents@[k]@,
            find_kind(dir@.contents, name@, want_dir, count as int) == find_kind(
                dir@.contents,
                name@,
                want_dir,
                upto as int,
            ),
        decreases upto,
    {
        let hit = match &dir.contents[upto - 1] {
            VPEntry::File(f) => !want_dir && f.name == *name,
            VPEntry::Dir(d) => want_dir && d.name == *name,
        };
        assert(dir@.contents[upto - 1] == dir.contents@[upto - 1]@);
        if hit {
            return upto - 1;
        }
        upto = upto - 1;
    }
    count
}

/// The file inside `dir` that `folders` lead to: directories first, the
/// file's own name last.
///
/// Fails with `NotFound` where `folders` is empty, where a directory on the
/// way is missing, and where the directory reached holds no such file.
pub fn read_entry(dir: &VPDir, folders: &[String]) -> (res: Result<VPFile, VPError>)
    ensures
        res is Ok <==> spec_read_entry(dir@, path_view(folders@), 0) is Some,
        res matches Ok(file) ==> Some(file@) == spec_read_entry(dir@, path_view(folders@), 0),
        res matches Err(e) ==> e == VPError::NotFound,
{
    let ghost path = path_view(folders@);
    let mut current: &VPDir = dir;
    let mut depth: usize = 0;
    while depth < folders.len()
        invariant
            depth <= folders@.len(),
            path == path_view(folders@),
            spec_read_entry(dir@, path, 0) == spec_read_entry(current@, path, depth as int),
        decreases folders.len() - depth,
    {
        let last = depth == folders.len() - 1;
        let place = find_of_kind(current, &folders[depth], !last);
        proof {
            lemma_entries_view_index(current.contents@);
        }
        if place >= current.contents.len() {
            return Err(VPError::NotFound);
        }
        match &current.contents[place] {
            VPEntry::File(f) => {
                return Ok(f.clone());
            },
            VPEntry::Dir(d) => {
                current = d;
            },
        }
        depth = depth + 1;
    }
    Err(VPError::NotFound)
}

/// The number of leading components of a path that name the container:
/// the longest prefix that is a file, given for each prefix whether it is
/// one. Zero where no prefix is a file.
pub open spec fn container_depth(is_file: Seq<bool>, upto: int) -> int
    decreases upto,
{
    if upto <= 0 {
        0
    } else if is_file[upto - 1] {
        upto
    } else {
        container_depth(is_file, upto - 1)
    }
}

/// Splits the components of a path that leads into a container: the
/// components that name the container on the file system, and those that
/// lead on inside it.
///
/// `is_file[k]` tells whether the first `k + 1` components name a file. The
/// container is the longest such prefix. Fails with `NotFound` where no
/// prefix is a file.
pub fn split_path(components: &Vec<String>, is_file: &Vec<bool>) -> (res: Result<
    (Vec<String>, Vec<String>),
    VPError,
>)
    requires
        is_file@.len() == components@.len(),
    ensures
        res is Ok <==> container_depth(is_file@, components@.len() as int) > 0,
        res matches Ok(parts) ==> {
            let depth = container_depth(is_file@, components@.len() as int);
            &&& path_view(parts.0@) == path_view(components@).take(depth)
            &&& path_view(parts.1@) == path_view(components@).skip(depth)
        },
        res matches Err(e) ==> e == VPError::NotFound,
{
    let n = components.len();
    let mut depth: usize = n;
    while depth > 0 && !is_file[depth - 1]
        invariant
            depth <= n,
            n == components@.len(),
            is_file@.len() == n,
            container_depth(is_file@, n as int) == container_depth(is_file@, depth as int),
        decreases depth,
    {
        depth = depth - 1;
    }
    if depth == 0 {
        return Err(VPError::NotFound);
    }
    let mut outer: Vec<String> = Vec::new();
    let mut inner: Vec<String> = Vec::new();
    let mut k: usize = 0;
    while k < n
        invariant
            k <= n,
            depth <= n,
            n == components@.len(),
            path_view(outer@) == path_view(components@).take(if k < depth {
                k as int
            } else {
                depth as int
            }),
            path_view(inner@) == path_view(components@).subrange(
                depth as int,
                if k < depth {
                    depth as int
                } else {
                    k as int
                },
            ),
        decreases n - k,
    {
        let ghost outer0 = outer@;
        let ghost inner0 = inner@;
        if k < depth {
            outer.push(components[k].clone());
            assert(path_view(outer@) == path_view(outer0).push(components@[k as int]@));
        } else {
            inner.push(components[k].clone());
            assert(path_view(inner@) == path_view(inner0).push(components@[k as int]@));
        }
        k = k + 1;
    }
    assert(path_view(components@).subrange(depth as int, n as int) == path_view(components@).skip(
        depth as int,
    ));
    Ok((outer, inner))
}

} // verus!
