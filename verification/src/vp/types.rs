//! The records of a VP index and the directory tree that they describe.

use vstd::prelude::*;
use vstd::utf8::{decode_utf8, encode_utf8, valid_utf8};
use vstd::string::StringExecFns;

verus! {

broadcast use vstd::utf8::encode_utf8_decode_utf8;

/// The header of a container.
#[derive(Debug, Clone, Copy, PartialEq, Eq, Structural)]
pub struct VPHeader {
    pub version: u32,
    pub offset: u32,
    pub entries: u32,
}

/// One record of the index, as it stands in the container.
#[derive(Debug, Clone, Copy)]
pub struct VPIndex {
    pub fileoffset: u32,
    pub size: u32,
    pub name: [u8; 32],
    pub timestamp: u32,
}

/// What a record holds.
pub struct IndexView {
    pub fileoffset: u32,
    pub size: u32,
    pub name: Seq<u8>,
    pub timestamp: u32,
}

impl View for VPIndex {
    type V = IndexView;

    open spec fn view(&self) -> IndexView {
        IndexView {
            fileoffset: self.fileoffset,
            size: self.size,
            name: self.name@,
            timestamp: self.timestamp,
        }
    }
}

/// Why a container could not be read.
#[derive(Debug, Clone, Copy, PartialEq, Eq, Structural)]
pub enum VPError {
    /// The tree holds no entry at the path asked for.
    NotFound,
    /// The header or the index is not that of a VP container.
    MalformedContainer,
}

/// A file of the container: where its payload lies, and its name.
#[derive(Debug, PartialEq, Eq)]
pub struct VPFile {
    pub fileoffset: u64,
    pub size: u64,
    pub name: String,
    pub timestamp: u32,
}

/// An entry of a directory.
#[derive(Debug, PartialEq, Eq)]
pub enum VPEntry {
    File(VPFile),
    Dir(VPDir),
}

/// A directory of the container.
#[derive(Debug, PartialEq, Eq)]
pub struct VPDir {
    pub name: String,
    pub contents: Vec<VPEntry>,
}

/// What a file entry holds.
pub struct FileView {
    pub fileoffset: u64,
    pub size: u64,
    pub name: Seq<char>,
    pub timestamp: u32,
}

/// What an entry holds.
pub enum EntryView {
    File(FileView),
    Dir(DirView),
}

/// What a directory holds.
pub struct DirView {
    pub name: Seq<char>,
    pub contents: Seq<EntryView>,
}

impl View for VPFile {
    type V = FileView;

    open spec fn view(&self) -> FileView {
        FileView {
            fileoffset: self.fileoffset,
            size: self.size,
            name: self.name@,
            timestamp: self.timestamp,
        }
    }
}

/// What the entries of a list hold, in order.
pub open spec fn entries_view(entries: Seq<VPEntry>) -> Seq<EntryView>
    decreases entries, 0nat,
{
    if entries.len() == 0 {
        Seq::empty()
    } else {
        entries_view(entries.drop_last()).push(entry_view(entries.last()))
    }
}

/// What an entry holds.
pub open spec fn entry_view(entry: VPEntry) -> EntryView
    decreases entry, 0nat,
{
    match entry {
        VPEntry::File(f) => EntryView::File(f@),
        VPEntry::Dir(d) => EntryView::Dir(dir_view(d)),
    }
}

/// What a directory holds.
pub open spec fn dir_view(dir: VPDir) -> DirView
    decreases dir, 0nat,
{
    DirView { name: dir.name@, contents: entries_view(dir.contents@) }
}

impl View for VPEntry {
    type V = EntryView;

    open spec fn view(&self) -> EntryView {
        entry_view(*self)
    }
}

impl View for VPDir {
    type V = DirView;

    open spec fn view(&self) -> DirView {
        dir_view(*self)
    }
}

/// `raw` without the zero bytes at its end.
pub open spec fn trim_end(raw: Seq<u8>) -> Seq<u8>
    decreases raw.len(),
{
    if raw.len() > 0 && raw.last() == 0 {
        trim_end(raw.drop_last())
    } else {
        raw
    }
}

/// `raw` without the zero bytes at its start.
pub open spec fn trim_start(raw: Seq<u8>) -> Seq<u8>
    decreases raw.len(),
{
    if raw.len() > 0 && raw[0] == 0 {
        trim_start(raw.drop_first())
    } else {
        raw
    }
}

/// The bytes of the name that a zero-padded name field holds.
pub open spec fn name_bytes(raw: Seq<u8>) -> Seq<u8> {
    trim_start(trim_end(raw))
}

/// The name field marks the end of a directory: it holds `..`.
pub open spec fn is_ascend(raw: Seq<u8>) -> bool {
    name_bytes(raw) == seq![0x2eu8, 0x2eu8]
}

/// The name that a name field holds, if its bytes are UTF-8.
pub open spec fn name_text(raw: Seq<u8>) -> Option<Seq<char>> {
    if valid_utf8(name_bytes(raw)) {
        Some(decode_utf8(name_bytes(raw)))
    } else {
        None
    }
}

/// Trimming the end removes exactly the zero bytes after the last byte
/// that is not zero.
pub proof fn lemma_trim_end(raw: Seq<u8>, hi: int)
    requires
        0 <= hi <= raw.len(),
        forall|i: int| hi <= i < raw.len() ==> raw[i] == 0,
        hi > 0 ==> raw[hi - 1] != 0,
    ensures
        trim_end(raw) == raw.take(hi),
    decreases raw.len() - hi,
{
    if hi < raw.len() {
        assert(raw.drop_last().take(hi) == raw.take(hi));
        lemma_trim_end(raw.drop_last(), hi);
    } else {
        assert(raw.take(hi) == raw);
    }
}

/// Trimming the start removes exactly the zero bytes before the first
/// byte that is not zero.
pub proof fn lemma_trim_start(raw: Seq<u8>, lo: int)
    requires
        0 <= lo <= raw.len(),
        forall|i: int| 0 <= i < lo ==> raw[i] == 0,
        lo < raw.len() ==> raw[lo] != 0,
    ensures
        trim_start(raw) == raw.skip(lo),
    decreases lo,
{
    if lo > 0 {
        assert(raw.drop_first().skip(lo - 1) == raw.skip(lo));
        lemma_trim_start(raw.drop_first(), lo - 1);
    } else {
        assert(raw.skip(0) == raw);
    }
}

/// The text of `bytes`, if they are UTF-8.
///
/// Trusted: `std::str::from_utf8` succeeds exactly on well-formed UTF-8, and
/// the text that it returns is made of the bytes given.
#[verifier::external_body]
fn utf8_text(bytes: &[u8]) -> (text: Option<&str>)
    ensures
        text is Some <==> valid_utf8(bytes@),
        text matches Some(s) ==> encode_utf8(s@) == bytes@,
{
    match std::str::from_utf8(bytes) {
        Ok(s) => Some(s),
        Err(_) => None,
    }
}

/// Where the name starts and ends inside a zero-padded name field.
fn name_span(raw: &[u8; 32]) -> (span: (usize, usize))
    ensures
        span.0 <= span.1 <= 32,
        name_bytes(raw@) == raw@.subrange(span.0 as int, span.1 as int),
{
    let mut hi: usize = 32;
    while hi > 0 && raw[hi - 1] == 0
        invariant
            hi <= 32,
            forall|i: int| hi <= i < 32 ==> raw@[i] == 0,
        decreases hi,
    {
        hi = hi - 1;
    }
    let mut lo: usize = 0;
    while lo < hi && raw[lo] == 0
        invariant
            lo <= hi <= 32,
            forall|i: int| 0 <= i < lo ==> raw@[i] == 0,
        decreases hi - lo,
    {
        lo = lo + 1;
    }
    proof {
        lemma_trim_end(raw@, hi as int);
        lemma_trim_start(raw@.take(hi as int), lo as int);
        assert(raw@.take(hi as int).skip(lo as int) == raw@.subrange(lo as int, hi as int));
    }
    (lo, hi)
}

impl VPFile {
    /// The file that a record of the index describes.
    pub open spec fn spec_from_index(record: IndexView) -> Option<FileView> {
        match name_text(record.name) {
            Some(name) => Some(
                FileView {
                    fileoffset: record.fileoffset as u64,
                    size: record.size as u64,
                    name,
                    timestamp: record.timestamp,
                },
            ),
            None => None,
        }
    }

    /// The file that a record of the index describes. Fails with
    /// `MalformedContainer` exactly when the name is not UTF-8.
    pub fn from_index(record: &VPIndex) -> (res: Result<VPFile, VPError>)
        ensures
            res is Ok <==> VPFile::spec_from_index(record@) is Some,
            res matches Ok(file) ==> Some(file@) == VPFile::spec_from_index(record@),
            res matches Err(e) ==> e == VPError::MalformedContainer,
    {
        let (lo, hi) = name_span(&record.name);
        let bytes = vstd::slice::slice_subrange(record.name.as_slice(), lo, hi);
        match utf8_text(bytes) {
            Some(text) => Ok(
                VPFile {
                    fileoffset: record.fileoffset as u64,
                    size: record.size as u64,
                    name: text.to_owned(),
                    timestamp: record.timestamp,
                },
            ),
            None => Err(VPError::MalformedContainer),
        }
    }
}

impl Clone for VPFile {
    fn clone(&self) -> (res: Self)
        ensures
            res@ == self@,
    {
        VPFile {
            fileoffset: self.fileoffset,
            size: self.size,
            name: self.name.clone(),
            timestamp: self.timestamp,
        }
    }
}

/// A copy of an entry, with everything below it.
fn copy_entry(entry: &VPEntry) -> (res: VPEntry)
    ensures
        res@ == entry@,
    decreases entry,
{
    match entry {
        VPEntry::File(f) => VPEntry::File(f.clone()),
        VPEntry::Dir(d) => VPEntry::Dir(copy_dir(d)),
    }
}

/// A copy of a directory, with everything below it.
fn copy_dir(dir: &VPDir) -> (res: VPDir)
    ensures
        res@ == dir@,
    decreases dir,
{
    let mut contents: Vec<VPEntry> = Vec::new();
    let mut i: usize = 0;
    while i < dir.contents.len()
        invariant
            i <= dir.contents@.len(),
            entries_view(contents@) == entries_view(dir.contents@.take(i as int)),
        decreases dir.contents.len() - i,
    {
        let ghost done = contents@;
        let copy = copy_entry(&dir.contents[i]);
        contents.push(copy);
        proof {
            lemma_entries_view_push(done, copy);
            lemma_entries_view_push(dir.contents@.take(i as int), dir.contents@[i as int]);
            assert(dir.contents@.take(i + 1) == dir.contents@.take(i as int).push(
                dir.contents@[i as int],
            ));
        }
        i = i + 1;
    }
    assert(dir.contents@.take(dir.contents@.len() as int) == dir.contents@);
    VPDir { name: dir.name.clone(), contents }
}

impl Default for VPDir {
    fn default() -> (dir: VPDir)
        ensures
            dir@.name.len() == 0,
            dir@.contents.len() == 0,
    {
        VPDir { name: String::new(), contents: Vec::new() }
    }
}

impl Clone for VPEntry {
    fn clone(&self) -> (res: Self)
        ensures
            res@ == self@,
    {
        copy_entry(self)
    }
}

impl Clone for VPDir {
    fn clone(&self) -> (res: Self)
        ensures
            res@ == self@,
    {
        copy_dir(self)
    }
}

/// What reading a run of records gave: the entries that they spell out,
/// and the place of the first record after them.
pub struct Parsed {
    pub contents: Seq<EntryView>,
    pub next: int,
}

/// `found` put in front of what `rest` holds.
pub open spec fn prepend(found: Seq<EntryView>, rest: Option<Parsed>) -> Option<Parsed> {
    match rest {
        Some(r) => Some(Parsed { contents: found + r.contents, next: r.next }),
        None => None,
    }
}

/// The entries of one directory, read from the records at `pos` onward.
///
/// A record of size zero opens a directory, or, where its name is `..`,
/// closes the one that is open. The end of the index closes every
/// directory that is still open. `nested` tells whether a directory is
/// open; a `..` with none open, or a name that is not UTF-8, leaves the
/// index without a meaning.
pub open spec fn read_dir(records: Seq<IndexView>, pos: int, nested: bool) -> Option<Parsed>
    decreases records.len() - pos,
{
    if pos < 0 {
        None
    } else if pos >= records.len() {
        Some(Parsed { contents: Seq::empty(), next: pos })
    } else if name_text(records[pos].name) is None {
        None
    } else if records[pos].size != 0 {
        prepend(
            seq![EntryView::File(VPFile::spec_from_index(records[pos])->0)],
            read_dir(records, pos + 1, nested),
        )
    } else if is_ascend(records[pos].name) {
        if nested {
            Some(Parsed { contents: Seq::empty(), next: pos + 1 })
        } else {
            None
        }
    } else {
        match read_dir(records, pos + 1, true) {
            Some(inner) => if pos < inner.next <= records.len() {
                prepend(
                    seq![
                        EntryView::Dir(
                            DirView {
                                name: name_text(records[pos].name)->0,
                                contents: inner.contents,
                            },
                        ),
                    ],
                    read_dir(records, inner.next, nested),
                )
            } else {
                None
            },
            None => None,
        }
    }
}

/// Reading moves forward, and stops at the end of the index unless a
/// `..` closed the directory.
pub proof fn lemma_read_dir_advances(records: Seq<IndexView>, pos: int, nested: bool)
    requires
        0 <= pos,
        read_dir(records, pos, nested) is Some,
    ensures
        pos <= read_dir(records, pos, nested)->0.next,
        pos < records.len() ==> pos < read_dir(records, pos, nested)->0.next,
        read_dir(records, pos, nested)->0.next <= records.len() || pos >= records.len(),
        !nested && pos <= records.len() ==> read_dir(records, pos, nested)->0.next == records.len(),
    decreases records.len() - pos,
{
    if pos >= records.len() {
    } else if records[pos].size != 0 {
        lemma_read_dir_advances(records, pos + 1, nested);
    } else if is_ascend(records[pos].name) {
    } else {
        lemma_read_dir_advances(records, pos + 1, true);
        let inner = read_dir(records, pos + 1, true)->0;
        lemma_read_dir_advances(records, inner.next, nested);
    }
}

/// What the records of a list hold, in order.
pub open spec fn records_view(records: Seq<VPIndex>) -> Seq<IndexView> {
    Seq::new(records.len(), |i: int| records[i]@)
}

/// The views of a list with one more entry are the views of the list and
/// the view of the entry.
proof fn lemma_entries_view_push(entries: Seq<VPEntry>, entry: VPEntry)
    ensures
        entries_view(entries.push(entry)) == entries_view(entries).push(entry@),
{
    assert(entries.push(entry).drop_last() == entries);
}

/// The views of a list of entries stand at the places of the entries.
pub proof fn lemma_entries_view_index(entries: Seq<VPEntry>)
    ensures
        entries_view(entries).len() == entries.len(),
        forall|i: int| 0 <= i < entries.len() ==> #[trigger] entries_view(entries)[i] == entries[i]@,
    decreases entries.len(),
{
    if entries.len() > 0 {
        lemma_entries_view_index(entries.drop_last());
    }
}

/// Reads the entries of one directory from the records at `pos` onward.
fn read_entries(records: &Vec<VPIndex>, pos: usize, nested: bool) -> (res: Result<
    (Vec<VPEntry>, usize),
    VPError,
>)
    requires
        pos <= records.len(),
    ensures
        res is Ok <==> read_dir(records_view(records@), pos as int, nested) is Some,
        res matches Ok(found) ==> read_dir(records_view(records@), pos as int, nested) == Some(
            Parsed { contents: entries_view(found.0@), next: found.1 as int },
        ) && found.1 <= records.len(),
        res matches Err(e) ==> e == VPError::MalformedContainer,
    decreases records.len() - pos,
{
    let ghost recs = records_view(records@);
    let mut out: Vec<VPEntry> = Vec::new();
    let mut at: usize = pos;
    while at < records.len()
        invariant
            pos <= at <= records.len(),
            recs == records_view(records@),
            read_dir(recs, pos as int, nested) == prepend(
                entries_view(out@),
                read_dir(recs, at as int, nested),
            ),
        decreases records.len() - at,
    {
        let record = &records[at];
        assert(recs[at as int] == record@);
        let file = match VPFile::from_index(record) {
            Ok(f) => f,
            Err(e) => {
                return Err(e);
            },
        };
        let ghost before = out@;
        if record.size != 0 {
            proof {
                lemma_entries_view_push(before, VPEntry::File(file));
                let rest = read_dir(recs, at + 1, nested);
                if rest is Some {
                    assert(entries_view(before) + (seq![EntryView::File(file@)] + rest->0.contents)
                        == entries_view(before).push(EntryView::File(file@)) + rest->0.contents);
                }
            }
            out.push(VPEntry::File(file));
            at = at + 1;
        } else {
            let (lo, hi) = name_span(&record.name);
            let ascend = hi - lo == 2 && record.name[lo] == 0x2e && record.name[lo + 1] == 0x2e;
            assert(ascend == is_ascend(record@.name)) by {
                let name = name_bytes(record@.name);
                if ascend {
                    assert(name =~= seq![0x2eu8, 0x2eu8]);
                }
            }
            if ascend {
                if nested {
                    assert(entries_view(out@) + Seq::<EntryView>::empty() == entries_view(out@));
                    return Ok((out, at + 1));
                } else {
                    return Err(VPError::MalformedContainer);
                }
            }
            let (inner, next) = match read_entries(records, at + 1, true) {
                Ok(found) => found,
                Err(e) => {
                    return Err(e);
                },
            };
            proof {
                lemma_read_dir_advances(recs, at + 1, true);
                let dir = VPDir { name: file.name, contents: inner };
                lemma_entries_view_push(before, VPEntry::Dir(dir));
                let rest = read_dir(recs, next as int, nested);
                if rest is Some {
                    assert(entries_view(before) + (seq![EntryView::Dir(dir@)] + rest->0.contents)
                        == entries_view(before).push(EntryView::Dir(dir@)) + rest->0.contents);
                }
            }
            out.push(VPEntry::Dir(VPDir { name: file.name, contents: inner }));
            at = next;
        }
    }
    assert(entries_view(out@) + Seq::<EntryView>::empty() == entries_view(out@));
    Ok((out, at))
}

impl VPDir {
    /// The tree that the records of an index spell out, under a root
    /// without a name.
    pub open spec fn spec_from_indices(records: Seq<IndexView>) -> Option<DirView> {
        match read_dir(records, 0, false) {
            Some(parsed) => Some(DirView { name: Seq::empty(), contents: parsed.contents }),
            None => None,
        }
    }

    /// Builds the directory tree that the records of an index spell out.
    ///
    /// Fails with `MalformedContainer` exactly when a name is not UTF-8 or a
    /// `..` closes a directory that was never opened.
    pub fn from_indices(records: &Vec<VPIndex>) -> (res: Result<VPDir, VPError>)
        ensures
            res is Ok <==> VPDir::spec_from_indices(records_view(records@)) is Some,
            res matches Ok(dir) ==> Some(dir@) == VPDir::spec_from_indices(records_view(records@)),
            res matches Err(e) ==> e == VPError::MalformedContainer,
    {
        match read_entries(records, 0, false) {
            Ok((contents, _)) => Ok(VPDir { name: String::new(), contents }),
            Err(e) => Err(e),
        }
    }
}

/// The name of an entry, file or directory.
pub open spec fn entry_name(entry: EntryView) -> Seq<char> {
    match entry {
        EntryView::File(f) => f.name,
        EntryView::Dir(d) => d.name,
    }
}

/// The place of the last entry before `upto` that is called `name`, or the
/// length of `contents` where there is none.
pub open spec fn find_named(contents: Seq<EntryView>, name: Seq<char>, upto: int) -> int
    decreases upto,
{
    if upto <= 0 || upto > contents.len() {
        contents.len() as int
    } else if entry_name(contents[upto - 1]) == name {
        upto - 1
    } else {
        find_named(contents, name, upto - 1)
    }
}

/// The file that the components of `path` from `from` onward lead to.
///
/// Each component names an entry of the directory reached so far; where
/// several entries share the name, the last of them. A directory is
/// entered. A file is the result where it is named by the last component.
/// The walk fails where a name is not found, where the components end at
/// a directory, and where they go on after a file.
pub open spec fn spec_locate(dir: DirView, path: Seq<Seq<char>>, from: int) -> Option<FileView>
    decreases path.len() - from,
{
    if from < 0 || from >= path.len() {
        None
    } else {
        let i = find_named(dir.contents, path[from], dir.contents.len() as int);
        if 0 <= i < dir.contents.len() {
            match dir.contents[i] {
                EntryView::File(f) => if from == path.len() - 1 {
                    Some(f)
                } else {
                    None
                },
                EntryView::Dir(d) => spec_locate(d, path, from + 1),
            }
        } else {
            None
        }
    }
}

/// The components of a path, as text.
pub open spec fn path_view(path: Seq<String>) -> Seq<Seq<char>> {
    Seq::new(path.len(), |i: int| path[i]@)
}

/// `name` under the directory `prefix`.
pub open spec fn joined(prefix: Seq<char>, name: Seq<char>) -> Seq<char> {
    prefix + seq!['/'] + name
}

/// `file` with its name put under the directory `prefix`.
pub open spec fn under(prefix: Seq<char>, file: FileView) -> FileView {
    FileView {
        fileoffset: file.fileoffset,
        size: file.size,
        name: joined(prefix, file.name),
        timestamp: file.timestamp,
    }
}

/// Every file below a directory, in index order, each named by its path
/// from the directory, the directory's own name first.
pub open spec fn spec_flatten(dir: DirView) -> Seq<FileView>
    decreases dir, 1nat,
{
    flatten_entries(dir.name, dir.contents)
}

/// The files of a list of entries, each put under `prefix`.
pub open spec fn flatten_entries(prefix: Seq<char>, entries: Seq<EntryView>) -> Seq<FileView>
    decreases entries, 0nat,
{
    if entries.len() == 0 {
        Seq::empty()
    } else {
        flatten_entries(prefix, entries.drop_last()) + flatten_entry(prefix, entries.last())
    }
}

/// The files of one entry, each put under `prefix`.
pub open spec fn flatten_entry(prefix: Seq<char>, entry: EntryView) -> Seq<FileView>
    decreases entry, 2nat,
{
    match entry {
        EntryView::File(f) => seq![under(prefix, f)],
        EntryView::Dir(d) => spec_flatten(d).map_values(|f: FileView| under(prefix, f)),
    }
}

/// `name` under the directory `prefix`.
fn join_name(prefix: &String, name: &String) -> (full: String)
    ensures
        full@ == joined(prefix@, name@),
{
    let mut full = prefix.clone();
    proof {
        reveal_strlit("/");
    }
    full.append("/");
    assert("/"@ =~= seq!['/']);
    full.append(name.as_str());
    full
}

impl VPDir {
    /// The place of the last entry called `name`.
    fn find(&self, name: &String) -> (place: usize)
        ensures
            place == find_named(self@.contents, name@, self@.contents.len() as int),
            place <= self.contents@.len(),
    {
        proof {
            lemma_entries_view_index(self.contents@);
        }
        let count = self.contents.len();
        let mut upto: usize = count;
        while upto > 0
            invariant
                upto <= count == self.contents@.len(),
                self@.contents.len() == self.contents@.len(),
                forall|k: int|
                    0 <= k < self.contents@.len() ==> #[trigger] self@.contents[k]
                        == self.contents@[k]@,
                find_named(self@.contents, name@, count as int) == find_named(
                    self@.contents,
                    name@,
                    upto as int,
                ),
            decreases upto,
        {
            let same = match &self.contents[upto - 1] {
                VPEntry::File(f) => f.name == *name,
                VPEntry::Dir(d) => d.name == *name,
            };
            assert(same == (entry_name(self@.contents[upto - 1]) == name@));
            if same {
                return upto - 1;
            }
            upto = upto - 1;
        }
        count
    }

    /// The file that `filepath` leads to, component by component.
    ///
    /// Fails with `NotFound` where a component names no entry, where the
    /// path is empty, where it ends at a directory, and where it goes on
    /// after a file.
    pub fn locate(&self, filepath: &[String]) -> (res: Result<VPFile, VPError>)
        ensures
            res is Ok <==> spec_locate(self@, path_view(filepath@), 0) is Some,
            res matches Ok(file) ==> Some(file@) == spec_locate(self@, path_view(filepath@), 0),
            res matches Err(e) ==> e == VPError::NotFound,
    {
        let ghost path = path_view(filepath@);
        let mut current: &VPDir = self;
        let mut depth: usize = 0;
        while depth < filepath.len()
            invariant
                depth <= filepath@.len(),
                path == path_view(filepath@),
                spec_locate(self@, path, 0) == spec_locate(current@, path, depth as int),
            decreases filepath.len() - depth,
        {
            let place = current.find(&filepath[depth]);
            proof {
                lemma_entries_view_index(current.contents@);
            }
            if place >= current.contents.len() {
                return Err(VPError::NotFound);
            }
            match &current.contents[place] {
                VPEntry::File(f) => {
                    if depth + 1 == filepath.len() {
                        return Ok(f.clone());
                    }
                    return Err(VPError::NotFound);
                },
                VPEntry::Dir(d) => {
                    current = d;
                },
            }
            depth = depth + 1;
        }
        Err(VPError::NotFound)
    }

    /// Every file below this directory, in index order, each named by its
    /// path from this directory, this directory's own name first.
    pub fn flatten(&self) -> (files: Vec<VPFile>)
        ensures
            files_view(files@) == spec_flatten(self@),
        decreases self,
    {
        let mut files: Vec<VPFile> = Vec::new();
        proof {
            lemma_entries_view_index(self.contents@);
        }
        let mut i: usize = 0;
        while i < self.contents.len()
            invariant
                i <= self.contents@.len(),
                self@.contents.len() == self.contents@.len(),
                forall|k: int|
                    0 <= k < self.contents@.len() ==> #[trigger] self@.contents[k]
                        == self.contents@[k]@,
                files_view(files@) == flatten_entries(self@.name, self@.contents.take(i as int)),
            decreases self.contents.len() - i,
        {
            let ghost done = files@;
            let ghost prefix = self@.name;
            let ghost entry = self.contents@[i as int]@;
            proof {
                assert(self@.contents.take(i + 1).drop_last() == self@.contents.take(i as int));
                assert(self@.contents.take(i + 1).last() == entry);
                assert(flatten_entries(prefix, self@.contents.take(i + 1)) == flatten_entries(
                    prefix,
                    self@.contents.take(i as int),
                ) + flatten_entry(prefix, entry));
            }
            match &self.contents[i] {
                VPEntry::File(f) => {
                    let named = VPFile {
                        fileoffset: f.fileoffset,
                        size: f.size,
                        name: join_name(&self.name, &f.name),
                        timestamp: f.timestamp,
                    };
                    files.push(named);
                    assert(files_view(files@) == files_view(done) + seq![under(prefix, f@)]);
                    assert(flatten_entry(prefix, entry) == seq![under(prefix, f@)]);
                },
                VPEntry::Dir(d) => {
                    let below = d.flatten();
                    let ghost inner = spec_flatten(d@);
                    let mut k: usize = 0;
                    while k < below.len()
                        invariant
                            k <= below@.len(),
                            prefix == self@.name,
                            files_view(below@) == inner,
                            files_view(files@) == files_view(done) + inner.map_values(
                                |f: FileView| under(prefix, f),
                            ).take(k as int),
                        decreases below.len() - k,
                    {
                        let f = &below[k];
                        assert(inner[k as int] == f@);
                        let named = VPFile {
                            fileoffset: f.fileoffset,
                            size: f.size,
                            name: join_name(&self.name, &f.name),
                            timestamp: f.timestamp,
                        };
                        let ghost sofar = files@;
                        files.push(named);
                        proof {
                            let mapped = inner.map_values(|f: FileView| under(prefix, f));
                            assert(mapped.take(k + 1) == mapped.take(k as int).push(mapped[k as int]));
                            assert(files_view(files@) == files_view(sofar).push(named@));
                        }
                        k = k + 1;
                    }
                    proof {
                        let mapped = inner.map_values(|f: FileView| under(prefix, f));
                        assert(mapped.take(below@.len() as int) == mapped);
                        assert(entry == EntryView::Dir(d@));
                        assert(flatten_entry(prefix, entry) == mapped);
                    }
                },
            }
            i = i + 1;
        }
        assert(self@.contents.take(self.contents@.len() as int) == self@.contents);
        files
    }
}

/// What the files of a list hold, in order.
pub open spec fn files_view(files: Seq<VPFile>) -> Seq<FileView> {
    Seq::new(files.len(), |i: int| files[i]@)
}

} // verus!
