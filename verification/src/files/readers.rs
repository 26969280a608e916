//! The decisions of the reader pool: where the bytes of a blob are read
//! from, which reader of an open VP takes a request, and how a payload is
//! cut into chunks.

use vstd::prelude::*;
use crate::common::{Archive, ArchiveEntry, SHA256Checksum, Source};
use crate::catalog::{Catalog, CatalogView, parents_for, sources_for};
use crate::files::{DataPath, PlaceView};

verus! {

/// Size of the chunks that a payload is streamed in.
pub const BUFSIZE: usize = 4096;

/// How many requests the pool's inbox, and that of each reader of a VP,
/// holds before senders wait.
pub const INBOX_BOUND: usize = 8;

/// How long a reader of a VP waits for a request before it closes its
/// file, in milliseconds.
pub const IDLE_TIMEOUT_MS: u64 = 500;

/// What a request asks for: a blob by its digest, or the bytes at a
/// place that is known already.
#[derive(Debug, Clone)]
pub enum Get {
    CS(SHA256Checksum),
    Path(DataPath),
}

/// Why bytes could not be delivered.
#[derive(Debug)]
pub enum ReaderError {
    /// Reading the file failed.
    IOError(String),
    /// The catalog refused a read.
    SqlxError(String),
    /// No local source delivers the blob, directly or inside a VP.
    LocateError(SHA256Checksum),
    /// The VP at the first path holds no entry at the second.
    VPError(String, String),
    /// The task that read the bytes was lost.
    JoinError(String),
}

/// Source `i` is on this machine, and no local source is preferred to it:
/// none has a better location, and none before it has the same.
pub open spec fn is_best_local(sources: Seq<Source>, i: int) -> bool {
    &&& 0 <= i < sources.len()
    &&& sources[i].location.spec_is_local()
    &&& forall|j: int|
        0 <= j < sources.len() && (#[trigger] sources[j]).location.spec_is_local()
            ==> sources[i].location.rank() <= sources[j].location.rank()
    &&& forall|j: int|
        0 <= j < i && (#[trigger] sources[j]).location.spec_is_local() ==> sources[i].location.rank()
            < sources[j].location.rank()
}

/// One of the sources is on this machine.
pub open spec fn has_local(sources: Seq<Source>) -> bool {
    exists|j: int| 0 <= j < sources.len() && (#[trigger] sources[j]).location.spec_is_local()
}

/// At most one source is the best local one.
pub proof fn lemma_one_best_local(sources: Seq<Source>, i: int, j: int)
    requires
        is_best_local(sources, i),
        is_best_local(sources, j),
    ensures
        i == j,
{
    if i < j {
        assert(sources[i].location.spec_is_local());
    } else if j < i {
        assert(sources[j].location.spec_is_local());
    }
}

/// The place of the best local source, where there is a local source.
pub open spec fn best_local_place(sources: Seq<Source>) -> int {
    choose|i: int| is_best_local(sources, i)
}

/// The local source to read from: the one at the best location, and among
/// equals the first.
pub fn best_local(sources: &Vec<Source>) -> (best: Option<usize>)
    ensures
        best is Some <==> has_local(sources@),
        best matches Some(i) ==> is_best_local(sources@, i as int) && i == best_local_place(
            sources@,
        ),
{
    let mut best: Option<usize> = None;
    let mut j: usize = 0;
    while j < sources.len()
        invariant
            j <= sources@.len(),
            best is None ==> forall|k: int|
                0 <= k < j ==> !(#[trigger] sources@[k]).location.spec_is_local(),
            best matches Some(i) ==> is_best_local(sources@.take(j as int), i as int),
        decreases sources.len() - j,
    {
        let ghost seen = sources@.take(j as int);
        let ghost next = sources@.take(j + 1);
        assert(forall|k: int| 0 <= k < j ==> seen[k] == next[k]);
        if sources[j].location.is_local() {
            match best {
                Some(i) => {
                    if sources[j].location.preference() < sources[i].location.preference() {
                        best = Some(j);
                    }
                },
                None => {
                    best = Some(j);
                },
            }
        }
        proof {
            if let Some(i) = best {
                assert(next[i as int] == sources@[i as int]);
                assert forall|k: int|
                    0 <= k < next.len() && (#[trigger] next[k]).location.spec_is_local() implies next[i as int].location.rank()
                    <= next[k].location.rank() by {
                    if k < j {
                        assert(seen[k].location.spec_is_local());
                    }
                }
                assert forall|k: int|
                    0 <= k < i && (#[trigger] next[k]).location.spec_is_local() implies next[i as int].location.rank()
                    < next[k].location.rank() by {
                    assert(seen[k].location.spec_is_local());
                }
            }
        }
        j = j + 1;
    }
    assert(sources@.take(sources@.len() as int) == sources@);
    proof {
        if let Some(i) = best {
            lemma_one_best_local(sources@, i as int, best_local_place(sources@));
        }
    }
    best
}

/// The file of the best local source, if a source is on this machine.
pub open spec fn spec_direct_path(sources: Seq<Source>) -> Option<PlaceView> {
    if has_local(sources) {
        Some(PlaceView::Raw(sources[best_local_place(sources)].path@))
    } else {
        None
    }
}

/// Where to read a blob that has sources of its own: the file of its best
/// local source. `None` where no source of the blob is on this machine.
pub fn direct_path(sources: &Vec<Source>) -> (path: Option<DataPath>)
    ensures
        path is Some <==> has_local(sources@),
        path matches Some(p) ==> Some(p@) == spec_direct_path(sources@),
{
    match best_local(sources) {
        Some(i) => Some(DataPath::Raw(sources[i].path.clone())),
        None => None,
    }
}

/// The place of the last entry that puts a blob into the VP `archive`, or
/// -1 where no entry does.
pub open spec fn vp_entry_for(parents: Seq<ArchiveEntry>, archive: i64, upto: int) -> int
    decreases upto,
{
    if upto <= 0 {
        -1
    } else if parents[upto - 1].archive_id == archive && parents[upto - 1].archive_type
        == Archive::VP {
        upto - 1
    } else {
        vp_entry_for(parents, archive, upto - 1)
    }
}

/// The sources among the first `n` that deliver a VP which `parents` put
/// the blob into, in order.
pub open spec fn vp_sources(parents: Seq<ArchiveEntry>, sources: Seq<Source>, n: int) -> Seq<Source>
    decreases n,
{
    if n <= 0 {
        Seq::empty()
    } else if vp_entry_for(parents, sources[n - 1].h_id, parents.len() as int) >= 0 {
        vp_sources(parents, sources, n - 1).push(sources[n - 1])
    } else {
        vp_sources(parents, sources, n - 1)
    }
}

/// The place of the last entry that puts a blob into the VP `archive`.
fn find_vp_entry(parents: &Vec<ArchiveEntry>, archive: i64) -> (place: Option<usize>)
    ensures
        place is Some <==> vp_entry_for(parents@, archive, parents@.len() as int) >= 0,
        place matches Some(k) ==> k == vp_entry_for(parents@, archive, parents@.len() as int) && k
            < parents@.len(),
{
    let mut upto: usize = parents.len();
    while upto > 0
        invariant
            upto <= parents@.len(),
            vp_entry_for(parents@, archive, parents@.len() as int) == vp_entry_for(
                parents@,
                archive,
                upto as int,
            ),
        decreases upto,
    {
        let entry = &parents[upto - 1];
        let is_vp = match entry.archive_type {
            Archive::VP => true,
            Archive::SevenZip => false,
        };
        if entry.archive_id == archive && is_vp {
            return Some(upto - 1);
        }
        upto = upto - 1;
    }
    None
}

/// The entry to read inside the VP that has the best local source, among
/// the VPs that `parents` put the blob into, if one of them is on this
/// machine.
pub open spec fn spec_archive_path(parents: Seq<ArchiveEntry>, sources: Seq<Source>) -> Option<
    PlaceView,
> {
    let usable = vp_sources(parents, sources, sources.len() as int);
    if has_local(usable) {
        let source = usable[best_local_place(usable)];
        Some(
            PlaceView::VPEntry(
                source.path@,
                parents[vp_entry_for(parents, source.h_id, parents.len() as int)].file_path@,
            ),
        )
    } else {
        None
    }
}

/// Where to read a blob that has no source of its own on this machine:
/// inside the VP that holds it and has the best local source.
///
/// `parents` are the archive entries of the blob, `sources` the sources of
/// those archives. Only VPs count. Fails with `LocateError` exactly when no
/// such VP has a local source.
pub fn archive_path(checksum: &SHA256Checksum, parents: &Vec<ArchiveEntry>, sources: &Vec<Source>) -> (res:
    Result<DataPath, ReaderError>)
    ensures
        res is Ok <==> spec_archive_path(parents@, sources@) is Some,
        res matches Ok(p) ==> Some(p@) == spec_archive_path(parents@, sources@),
        res matches Err(e) ==> e matches ReaderError::LocateError(c) && c@ == checksum@,
{
    let mut usable: Vec<Source> = Vec::new();
    let mut n: usize = 0;
    while n < sources.len()
        invariant
            n <= sources@.len(),
            usable@ == vp_sources(parents@, sources@, n as int),
        decreases sources.len() - n,
    {
        if find_vp_entry(parents, sources[n].h_id).is_some() {
            usable.push(sources[n].clone());
        }
        n = n + 1;
    }
    match best_local(&usable) {
        Some(i) => {
            let source = &usable[i];
            proof {
                lemma_vp_sources_have_entries(parents@, sources@, sources@.len() as int, i as int);
            }
            match find_vp_entry(parents, source.h_id) {
                Some(k) => Ok(
                    DataPath::VPEntry(source.path.clone(), parents[k].file_path.clone()),
                ),
                None => Err(ReaderError::LocateError(checksum.clone())),
            }
        },
        None => Err(ReaderError::LocateError(checksum.clone())),
    }
}

/// Every source that counts delivers a VP which an entry puts the blob
/// into.
proof fn lemma_vp_sources_have_entries(
    parents: Seq<ArchiveEntry>,
    sources: Seq<Source>,
    n: int,
    i: int,
)
    requires
        0 <= n <= sources.len(),
        0 <= i < vp_sources(parents, sources, n).len(),
    ensures
        vp_entry_for(parents, vp_sources(parents, sources, n)[i].h_id, parents.len() as int) >= 0,
    decreases n,
{
    if n > 0 {
        let before = vp_sources(parents, sources, n - 1);
        if i < before.len() {
            lemma_vp_sources_have_entries(parents, sources, n - 1, i);
        }
    }
}

/// The archive of each entry, in order.
pub open spec fn archives_of(parents: Seq<ArchiveEntry>) -> Seq<i64> {
    Seq::new(parents.len(), |k: int| parents[k].archive_id)
}

/// Where the blob with digest `digest` is read on this machine, if it can
/// be: the file of its best local source, or else its entry in the VP that
/// holds it and has the best local source.
pub open spec fn spec_get_path(view: CatalogView, digest: Seq<u8>) -> Option<PlaceView> {
    if view.digests.contains(digest) {
        let blob = seq![view.blob_id(digest)];
        let parents = parents_for(view.entries, blob, view.entries.len() as int);
        let sources = sources_for(view.sources, archives_of(parents), view.sources.len() as int);
        match spec_direct_path(sources_for(view.sources, blob, view.sources.len() as int)) {
            Some(place) => Some(place),
            None => spec_archive_path(parents, sources),
        }
    } else {
        None
    }
}

/// Where the blob with digest `checksum` is read on this machine: the
/// file of its best local source, or else its entry in the VP that holds
/// it and has the best local source.
///
/// Fails with `LocateError` exactly when the catalog does not know the
/// digest, or neither the blob nor a VP that holds it has a local source.
pub fn get_path(catalog: &Catalog, checksum: &SHA256Checksum) -> (res: Result<DataPath, ReaderError>)
    requires
        catalog@.valid(),
    ensures
        res is Ok <==> spec_get_path(catalog@, checksum@) is Some,
        res matches Ok(place) ==> Some(place@) == spec_get_path(catalog@, checksum@),
        res matches Err(e) ==> e matches ReaderError::LocateError(c) && c@ == checksum@,
{
    let id = match catalog.get_id_from_hash(checksum) {
        Some(id) => id,
        None => {
            return Err(ReaderError::LocateError(checksum.clone()));
        },
    };
    let mut blob: Vec<i64> = Vec::new();
    blob.push(id);
    assert(blob@ == seq![id]);
    let direct = catalog.get_sources_from_ids(&blob);
    match direct_path(&direct) {
        Some(place) => Ok(place),
        None => {
            let parents = catalog.get_parents_from_ids(&blob);
            let mut archives: Vec<i64> = Vec::new();
            let mut k: usize = 0;
            while k < parents.len()
                invariant
                    k <= parents@.len(),
                    archives@ == archives_of(parents@).take(k as int),
                decreases parents.len() - k,
            {
                archives.push(parents[k].archive_id);
                assert(archives@ == archives_of(parents@).take(k + 1));
                k = k + 1;
            }
            assert(archives@ == archives_of(parents@));
            let sources = catalog.get_sources_from_ids(&archives);
            archive_path(checksum, &parents, &sources)
        },
    }
}

/// Which reader of an open VP takes a request.
#[derive(Debug, Clone, Copy, PartialEq, Eq, Structural)]
pub enum VPRoute {
    /// The open reader at this place in the list of readers.
    Existing(usize),
    /// A reader that is opened for this request.
    Fresh,
}

/// A number below `n`, drawn at random.
///
/// Trusted: `rand`'s `gen_range` on the thread's generator returns a value
/// of the range given. Which value is not said.
#[verifier::external_body]
fn random_below(n: usize) -> (pick: usize)
    requires
        n > 0,
    ensures
        pick < n,
{
    rand::Rng::gen_range(&mut rand::thread_rng(), 0..n)
}

/// Which reader takes a request, given the reader that chance picked among
/// the open ones: the picked reader where the request prefers to queue and
/// a reader is open, a fresh one otherwise.
pub fn route_with(queue: bool, open_readers: usize, pick: usize) -> (route: VPRoute)
    requires
        open_readers > 0 ==> pick < open_readers,
    ensures
        route == if queue && open_readers > 0 {
            VPRoute::Existing(pick)
        } else {
            VPRoute::Fresh
        },
{
    if queue && open_readers > 0 {
        VPRoute::Existing(pick)
    } else {
        VPRoute::Fresh
    }
}

/// Which reader of a VP takes a request: one of the `open_readers`, picked
/// at random, where the request prefers to queue and a reader is open; a
/// fresh one otherwise, so that requests run side by side.
pub fn route_vp_request(queue: bool, open_readers: usize) -> (route: VPRoute)
    ensures
        queue && open_readers > 0 ==> (route matches VPRoute::Existing(i) && i < open_readers),
        !(queue && open_readers > 0) ==> route == VPRoute::Fresh,
{
    if open_readers > 0 {
        route_with(queue, open_readers, random_below(open_readers))
    } else {
        route_with(queue, open_readers, 0)
    }
}

/// The smaller of what is left of a payload and one chunk.
pub open spec fn chunk_len(size: u64, done: u64) -> int {
    if size - done < BUFSIZE {
        size - done
    } else {
        BUFSIZE as int
    }
}

/// How far a payload has been streamed.
#[derive(Debug, Clone, Copy)]
pub struct ReadProgress {
    size: u64,
    done: u64,
}

impl ReadProgress {
    /// The length of the payload.
    pub closed spec fn size(&self) -> u64 {
        self.size
    }

    /// How many bytes have been delivered.
    pub closed spec fn done(&self) -> u64 {
        self.done
    }

    /// No more has been delivered than the payload holds.
    pub closed spec fn wf(&self) -> bool {
        self.done <= self.size
    }

    /// Nothing of a payload of `size` bytes has been delivered yet.
    pub fn new(size: u64) -> (progress: ReadProgress)
        ensures
            progress.wf(),
            progress.size() == size,
            progress.done() == 0,
    {
        ReadProgress { size, done: 0 }
    }

    /// How many bytes to ask for next: one chunk, or what is left where
    /// that is less. Zero when the payload has been delivered.
    pub fn want(&self) -> (len: usize)
        requires
            self.wf(),
        ensures
            len == chunk_len(self.size(), self.done()),
            len == 0 <==> self.done() == self.size(),
    {
        let left = self.size - self.done;
        if left < BUFSIZE as u64 {
            left as usize
        } else {
            BUFSIZE
        }
    }

    /// Records that `len` bytes were read and delivered, and says whether
    /// more are to be read. A read of no bytes ends the stream: the file
    /// is shorter than the index says.
    pub fn advance(&mut self, len: usize) -> (more: bool)
        requires
            old(self).wf(),
            len <= chunk_len(old(self).size(), old(self).done()),
        ensures
            final(self).wf(),
            final(self).size() == old(self).size(),
            final(self).done() == old(self).done() + len,
            more == (len > 0 && final(self).done() < final(self).size()),
    {
        self.done = self.done + len as u64;
        len > 0 && self.done < self.size
    }
}

} // verus!
