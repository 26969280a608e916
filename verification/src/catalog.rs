//! The catalog's tables and the rules that every store of them keeps:
//! digests are numbered once, sources and containment edges are recorded
//! once, and rows only name blobs that exist. Releases, packages and
//! dependencies are numbered in the order in which they are recorded.
//!
//! `Catalog` holds the tables in memory. A batch either is applied whole or
//! leaves the tables as they were.

use vstd::prelude::*;
use crate::common::{
    ArchiveEntry, DependencyRow, File, PackageRow, Release, SHA256Checksum, Source,
};
use crate::db::{Rel, RelType};
use crate::files::FileAcquisitionError;
use crate::files::solver::holds;

verus! {

/// What a catalog holds.
pub struct CatalogView {
    /// The known digests. The digest at place `i` has the blob ID `i + 1`.
    pub digests: Seq<Seq<u8>>,
    /// The known sources, in the order in which they were recorded.
    pub sources: Seq<Source>,
    /// The known containment edges, in the order in which they were
    /// recorded.
    pub entries: Seq<ArchiveEntry>,
    /// The recorded releases. The release at place `i` has the number
    /// `i + 1`.
    pub releases: Seq<Release>,
    /// The recorded packages. The package at place `i` has the number
    /// `i + 1`.
    pub packages: Seq<PackageRow>,
    /// The recorded dependencies of packages. The dependency at place `i`
    /// has the number `i + 1`.
    pub dependencies: Seq<DependencyRow>,
    /// Where the blobs of packages land, in the order in which that was
    /// recorded.
    pub files: Seq<File>,
}

/// Name and version of each release of a list, in order.
pub open spec fn release_list(releases: Seq<Release>) -> Seq<Rel> {
    Seq::new(releases.len(), |i: int| Rel { name: releases[i].name, version: releases[i].version })
}

/// The place of the first digest at or after `from` that equals `digest`,
/// or the number of digests where none does.
pub open spec fn digest_place(digests: Seq<Seq<u8>>, digest: Seq<u8>, from: int) -> int
    decreases digests.len() - from,
{
    if from < 0 || from >= digests.len() {
        digests.len() as int
    } else if digests[from] == digest {
        from
    } else {
        digest_place(digests, digest, from + 1)
    }
}

/// `s` is recorded already: a source names the same place for the same
/// blob.
pub open spec fn has_source(sources: Seq<Source>, s: Source) -> bool {
    exists|k: int| 0 <= k < sources.len() && s.same_key(&#[trigger] sources[k])
}

/// Two edges join the same child to the same archive.
pub open spec fn same_edge(a: ArchiveEntry, b: ArchiveEntry) -> bool {
    a.file_id == b.file_id && a.archive_id == b.archive_id
}

/// `e` is recorded already: an edge joins the same child to the same
/// archive.
pub open spec fn has_entry(entries: Seq<ArchiveEntry>, e: ArchiveEntry) -> bool {
    exists|k: int| 0 <= k < entries.len() && same_edge(e, #[trigger] entries[k])
}

/// `digests` with `digest` recorded, unless it was already.
pub open spec fn with_digest(digests: Seq<Seq<u8>>, digest: Seq<u8>) -> Seq<Seq<u8>> {
    if digests.contains(digest) {
        digests
    } else {
        digests.push(digest)
    }
}

/// `digests` with the first `n` of `new` recorded, in order.
pub open spec fn with_digests(digests: Seq<Seq<u8>>, new: Seq<Seq<u8>>, n: int) -> Seq<Seq<u8>>
    decreases n,
{
    if n <= 0 {
        digests
    } else {
        with_digest(with_digests(digests, new, n - 1), new[n - 1])
    }
}

/// `sources` with `s` recorded, unless it was already.
pub open spec fn with_source(sources: Seq<Source>, s: Source) -> Seq<Source> {
    if has_source(sources, s) {
        sources
    } else {
        sources.push(s)
    }
}

/// `sources` with the first `n` of `new` recorded, in order.
pub open spec fn with_sources(sources: Seq<Source>, new: Seq<Source>, n: int) -> Seq<Source>
    decreases n,
{
    if n <= 0 {
        sources
    } else {
        with_source(with_sources(sources, new, n - 1), new[n - 1])
    }
}

/// `entries` with `e` recorded, unless it was already.
pub open spec fn with_entry(entries: Seq<ArchiveEntry>, e: ArchiveEntry) -> Seq<ArchiveEntry> {
    if has_entry(entries, e) {
        entries
    } else {
        entries.push(e)
    }
}

/// `entries` with the first `n` of `new` recorded, in order.
pub open spec fn with_all_entries(entries: Seq<ArchiveEntry>, new: Seq<ArchiveEntry>, n: int) -> Seq<
    ArchiveEntry,
>
    decreases n,
{
    if n <= 0 {
        entries
    } else {
        with_entry(with_all_entries(entries, new, n - 1), new[n - 1])
    }
}

impl CatalogView {
    /// `id` is the blob ID of a known digest.
    pub open spec fn has_blob(self, id: i64) -> bool {
        1 <= id <= self.digests.len()
    }

    /// The rules of the catalog: no digest is numbered twice, no source
    /// and no edge is recorded twice, sources and edges name known blobs,
    /// and no source declares a negative size.
    pub open spec fn valid(self) -> bool {
        &&& self.digests.len() <= 0x7fff_ffff_ffff_ffff
        &&& forall|k: int| 0 <= k < self.sources.len() ==> (#[trigger] self.sources[k]).size >= 0
        &&& self.digests.no_duplicates()
        &&& forall|i: int, j: int|
            #![trigger self.sources[i], self.sources[j]]
            0 <= i < j < self.sources.len() ==> !self.sources[i].same_key(&self.sources[j])
        &&& forall|i: int, j: int|
            #![trigger self.entries[i], self.entries[j]]
            0 <= i < j < self.entries.len() ==> !same_edge(self.entries[i], self.entries[j])
        &&& forall|k: int| 0 <= k < self.sources.len() ==> self.has_blob((#[trigger] self.sources[k]).h_id)
        &&& forall|k: int|
            0 <= k < self.entries.len() ==> self.has_blob((#[trigger] self.entries[k]).file_id)
                && self.has_blob(self.entries[k].archive_id)
    }

    /// The rules of the tables of releases: releases, packages and
    /// dependencies are numbered by their places, every package belongs
    /// to a recorded release, and every dependency and every file to a
    /// recorded package.
    pub open spec fn releases_valid(self) -> bool {
        &&& self.releases.len() <= 0x7fff_ffff_ffff_ffff
        &&& self.packages.len() <= 0x7fff_ffff_ffff_ffff
        &&& self.dependencies.len() <= 0x7fff_ffff_ffff_ffff
        &&& forall|i: int| 0 <= i < self.releases.len() ==> (#[trigger] self.releases[i]).rel_id == i + 1
        &&& forall|i: int|
            0 <= i < self.packages.len() ==> (#[trigger] self.packages[i]).p_id == i + 1 && 1
                <= self.packages[i].rel_id <= self.releases.len()
        &&& forall|i: int|
            0 <= i < self.dependencies.len() ==> (#[trigger] self.dependencies[i]).id == i + 1 && 1
                <= self.dependencies[i].p_id <= self.packages.len()
        &&& forall|i: int|
            0 <= i < self.files.len() ==> 1 <= (#[trigger] self.files[i]).p_id <= self.packages.len()
    }

    /// The tables of releases, packages, dependencies and files are those
    /// of `other`.
    pub open spec fn same_releases(self, other: CatalogView) -> bool {
        &&& self.releases == other.releases
        &&& self.packages == other.packages
        &&& self.dependencies == other.dependencies
        &&& self.files == other.files
    }

    /// The blob ID of `digest`, where it is known.
    pub open spec fn blob_id(self, digest: Seq<u8>) -> i64 {
        (digest_place(self.digests, digest, 0) + 1) as i64
    }

    /// An edge puts `child` directly into `archive`.
    pub open spec fn sits_in(self, child: i64, archive: i64) -> bool {
        exists|k: int|
            0 <= k < self.entries.len() && (#[trigger] self.entries[k]).file_id == child
                && self.entries[k].archive_id == archive
    }

    /// `p` walks down the containment relation: it has at least two
    /// blobs, and each blob after the first sits directly in the one
    /// before it.
    pub open spec fn is_chain(self, p: Seq<i64>) -> bool {
        &&& p.len() >= 2
        &&& forall|k: int| 0 <= k < p.len() - 1 ==> self.sits_in(#[trigger] p[k + 1], p[k])
    }

    /// `p` walks down from `top` to `bottom`.
    pub open spec fn is_chain_between(self, p: Seq<i64>, top: i64, bottom: i64) -> bool {
        &&& self.is_chain(p)
        &&& p[0] == top
        &&& p[p.len() - 1] == bottom
    }

    /// Blob `b` is `top` itself or sits inside it, directly or through
    /// other archives.
    pub open spec fn holds(self, top: i64, b: i64) -> bool {
        top == b || exists|p: Seq<i64>| #[trigger] self.is_chain_between(p, top, b)
    }

    /// Blob `b` can be read on this machine: a local source delivers it
    /// or an archive that it sits inside.
    pub open spec fn readable(self, b: i64) -> bool {
        exists|k: int|
            0 <= k < self.sources.len() && (#[trigger] self.sources[k]).location.spec_is_local()
                && self.holds(self.sources[k].h_id, b)
    }
}

/// A list without repetitions of numbers between 1 and `n` has at most
/// `n` members.
pub proof fn lemma_distinct_in_range(s: Seq<i64>, n: int)
    requires
        0 <= n,
        s.no_duplicates(),
        forall|i: int| 0 <= i < s.len() ==> 1 <= #[trigger] s[i] <= n,
    ensures
        s.len() <= n,
    decreases n,
{
    if s.len() == 0 {
    } else if n == 0 {
        assert(1 <= s[0] <= n);
    } else if exists|j: int| 0 <= j < s.len() && s[j] == n {
        let j = choose|j: int| 0 <= j < s.len() && s[j] == n;
        let t = s.remove(j);
        assert forall|i: int| 0 <= i < t.len() implies 1 <= #[trigger] t[i] <= n - 1 by {
            if i < j {
                assert(t[i] == s[i]);
            } else {
                assert(t[i] == s[i + 1]);
            }
        }
        assert forall|a: int, b: int| 0 <= a < t.len() && 0 <= b < t.len() && a != b implies t[a]
            != t[b] by {
            let a2 = if a < j { a } else { a + 1 };
            let b2 = if b < j { b } else { b + 1 };
            assert(t[a] == s[a2] && t[b] == s[b2]);
        }
        lemma_distinct_in_range(t, n - 1);
    } else {
        assert forall|i: int| 0 <= i < s.len() implies 1 <= #[trigger] s[i] <= n - 1 by {}
        lemma_distinct_in_range(s, n - 1);
    }
}

/// Recording a source keeps the sources that were recorded.
proof fn lemma_with_source_keeps(sources: Seq<Source>, s: Source, t: Source)
    ensures
        has_source(sources, t) ==> has_source(with_source(sources, s), t),
        has_source(with_source(sources, s), s),
{
    let after = with_source(sources, s);
    if has_source(sources, t) {
        let k = choose|k: int| 0 <= k < sources.len() && t.same_key(&#[trigger] sources[k]);
        assert(t.same_key(&after[k]));
    }
    if !has_source(sources, s) {
        assert(s.same_key(&after[sources.len() as int]));
    }
}

/// Once a batch of sources is recorded, each of them is found recorded.
proof fn lemma_with_sources_holds(sources: Seq<Source>, new: Seq<Source>, n: int, k: int)
    requires
        0 <= k < n <= new.len(),
    ensures
        has_source(with_sources(sources, new, n), new[k]),
    decreases n,
{
    let before = with_sources(sources, new, n - 1);
    if k < n - 1 {
        lemma_with_sources_holds(sources, new, n - 1, k);
    }
    lemma_with_source_keeps(before, new[n - 1], new[k]);
}

/// Recording a batch of sources a second time changes nothing: sources are
/// recorded once for each place and blob.
pub proof fn lemma_sources_recorded_once(sources: Seq<Source>, new: Seq<Source>, n: int, m: int)
    requires
        0 <= m <= n <= new.len(),
    ensures
        with_sources(with_sources(sources, new, n), new, m) == with_sources(sources, new, n),
    decreases m,
{
    if m > 0 {
        lemma_sources_recorded_once(sources, new, n, m - 1);
        lemma_with_sources_holds(sources, new, n, m - 1);
    }
}

/// Recording an edge keeps the edges that were recorded.
proof fn lemma_with_entry_keeps(entries: Seq<ArchiveEntry>, e: ArchiveEntry, t: ArchiveEntry)
    ensures
        has_entry(entries, t) ==> has_entry(with_entry(entries, e), t),
        has_entry(with_entry(entries, e), e),
{
    let after = with_entry(entries, e);
    if has_entry(entries, t) {
        let k = choose|k: int| 0 <= k < entries.len() && same_edge(t, #[trigger] entries[k]);
        assert(same_edge(t, after[k]));
    }
    if !has_entry(entries, e) {
        assert(same_edge(e, after[entries.len() as int]));
    }
}

/// Once a batch of edges is recorded, each of them is found recorded.
pub proof fn lemma_entries_hold(entries: Seq<ArchiveEntry>, new: Seq<ArchiveEntry>, n: int, k: int)
    requires
        0 <= k < n <= new.len(),
    ensures
        has_entry(with_all_entries(entries, new, n), new[k]),
    decreases n,
{
    let before = with_all_entries(entries, new, n - 1);
    if k < n - 1 {
        lemma_entries_hold(entries, new, n - 1, k);
    }
    lemma_with_entry_keeps(before, new[n - 1], new[k]);
}

/// Recording a batch of containment edges a second time changes nothing.
pub proof fn lemma_entries_recorded_once(
    entries: Seq<ArchiveEntry>,
    new: Seq<ArchiveEntry>,
    n: int,
    m: int,
)
    requires
        0 <= m <= n <= new.len(),
    ensures
        with_all_entries(with_all_entries(entries, new, n), new, m) == with_all_entries(
            entries,
            new,
            n,
        ),
    decreases m,
{
    if m > 0 {
        lemma_entries_recorded_once(entries, new, n, m - 1);
        lemma_entries_hold(entries, new, n, m - 1);
    }
}

/// Recording a digest keeps the digests that were recorded.
proof fn lemma_with_digest_keeps(digests: Seq<Seq<u8>>, d: Seq<u8>, t: Seq<u8>)
    ensures
        digests.contains(t) ==> with_digest(digests, d).contains(t),
        with_digest(digests, d).contains(d),
{
    let after = with_digest(digests, d);
    if digests.contains(t) {
        let k = choose|k: int| 0 <= k < digests.len() && digests[k] == t;
        assert(after[k] == t);
    }
    if !digests.contains(d) {
        assert(after[digests.len() as int] == d);
    }
}

/// Once a batch of digests is recorded, each of them is found recorded.
proof fn lemma_with_digests_holds(digests: Seq<Seq<u8>>, new: Seq<Seq<u8>>, n: int, k: int)
    requires
        0 <= k < n <= new.len(),
    ensures
        with_digests(digests, new, n).contains(new[k]),
    decreases n,
{
    let before = with_digests(digests, new, n - 1);
    if k < n - 1 {
        lemma_with_digests_holds(digests, new, n - 1, k);
    }
    lemma_with_digest_keeps(before, new[n - 1], new[k]);
}

/// Recording a batch of digests a second time changes nothing, so that
/// every digest keeps the blob ID it was first given.
pub proof fn lemma_digests_recorded_once(digests: Seq<Seq<u8>>, new: Seq<Seq<u8>>, n: int, m: int)
    requires
        0 <= m <= n <= new.len(),
    ensures
        with_digests(with_digests(digests, new, n), new, m) == with_digests(digests, new, n),
    decreases m,
{
    if m > 0 {
        lemma_digests_recorded_once(digests, new, n, m - 1);
        lemma_with_digests_holds(digests, new, n, m - 1);
    }
}

/// Recording digests keeps the digests that were there at their places.
pub proof fn lemma_with_digests_extends(digests: Seq<Seq<u8>>, new: Seq<Seq<u8>>, n: int)
    requires
        0 <= n <= new.len(),
        digests.no_duplicates(),
    ensures
        with_digests(digests, new, n).len() >= digests.len(),
        with_digests(digests, new, n).len() <= digests.len() + n,
        with_digests(digests, new, n).take(digests.len() as int) == digests,
        with_digests(digests, new, n).no_duplicates(),
    decreases n,
{
    if n > 0 {
        lemma_with_digests_extends(digests, new, n - 1);
        let before = with_digests(digests, new, n - 1);
        let after = with_digest(before, new[n - 1]);
        assert(after.take(digests.len() as int) == before.take(digests.len() as int));
    } else {
        assert(digests.take(digests.len() as int) == digests);
    }
}

/// The place at which a digest that is held is found is the place where
/// it stands.
pub proof fn lemma_digest_place(digests: Seq<Seq<u8>>, digest: Seq<u8>, from: int)
    requires
        0 <= from <= digests.len(),
    ensures
        from <= digest_place(digests, digest, from) <= digests.len(),
        digest_place(digests, digest, from) < digests.len() ==> digests[digest_place(
            digests,
            digest,
            from,
        )] == digest,
        forall|k: int| from <= k < digest_place(digests, digest, from) ==> digests[k] != digest,
    decreases digests.len() - from,
{
    if from < digests.len() && digests[from] != digest {
        lemma_digest_place(digests, digest, from + 1);
    }
}

/// The tables of the catalog, held in memory.
#[derive(Debug)]
pub struct Catalog {
    digests: Vec<SHA256Checksum>,
    sources: Vec<Source>,
    entries: Vec<ArchiveEntry>,
    releases: Vec<Release>,
    packages: Vec<PackageRow>,
    dependencies: Vec<DependencyRow>,
    files: Vec<File>,
}

/// The bytes of each digest of a list, in order.
pub open spec fn bytes_of(digests: Seq<SHA256Checksum>) -> Seq<Seq<u8>> {
    Seq::new(digests.len(), |i: int| digests[i]@)
}

impl View for Catalog {
    type V = CatalogView;

    closed spec fn view(&self) -> CatalogView {
        CatalogView {
            digests: bytes_of(self.digests@),
            sources: self.sources@,
            entries: self.entries@,
            releases: self.releases@,
            packages: self.packages@,
            dependencies: self.dependencies@,
            files: self.files@,
        }
    }
}

/// The sources among the first `n` whose blob is one of `ids`, in order.
pub open spec fn sources_for(sources: Seq<Source>, ids: Seq<i64>, n: int) -> Seq<Source>
    decreases n,
{
    if n <= 0 {
        Seq::empty()
    } else if ids.contains(sources[n - 1].h_id) {
        sources_for(sources, ids, n - 1).push(sources[n - 1])
    } else {
        sources_for(sources, ids, n - 1)
    }
}

/// The edges among the first `n` whose child is one of `ids`, in order.
pub open spec fn parents_for(entries: Seq<ArchiveEntry>, ids: Seq<i64>, n: int) -> Seq<ArchiveEntry>
    decreases n,
{
    if n <= 0 {
        Seq::empty()
    } else if ids.contains(entries[n - 1].file_id) {
        parents_for(entries, ids, n - 1).push(entries[n - 1])
    } else {
        parents_for(entries, ids, n - 1)
    }
}

/// The first `n` of `digests` that the catalog knows, each with its blob
/// ID, in order.
pub open spec fn known_pairs(view: CatalogView, digests: Seq<Seq<u8>>, n: int) -> Seq<(Seq<u8>, i64)>
    decreases n,
{
    if n <= 0 {
        Seq::empty()
    } else if view.digests.contains(digests[n - 1]) {
        known_pairs(view, digests, n - 1).push((digests[n - 1], view.blob_id(digests[n - 1])))
    } else {
        known_pairs(view, digests, n - 1)
    }
}

/// What each pair of a list holds: the bytes of the digest, and the blob
/// ID.
pub open spec fn pairs_view(pairs: Seq<(SHA256Checksum, i64)>) -> Seq<(Seq<u8>, i64)> {
    Seq::new(pairs.len(), |i: int| (pairs[i].0@, pairs[i].1))
}

/// The sources of the blobs `ids` are the recorded sources whose blob is
/// among `ids`.
pub proof fn lemma_sources_for(sources: Seq<Source>, ids: Seq<i64>, n: int)
    requires
        0 <= n <= sources.len(),
    ensures
        forall|x: Source|
            #![trigger sources_for(sources, ids, n).contains(x)]
            sources_for(sources, ids, n).contains(x) <==> exists|j: int|
                0 <= j < n && #[trigger] sources[j] == x && ids.contains(x.h_id),
    decreases n,
{
    if n > 0 {
        lemma_sources_for(sources, ids, n - 1);
        let before = sources_for(sources, ids, n - 1);
        let after = sources_for(sources, ids, n);
        let last = sources[n - 1];
        assert forall|x: Source|
            #![trigger after.contains(x)]
            after.contains(x) <==> exists|j: int|
                0 <= j < n && #[trigger] sources[j] == x && ids.contains(x.h_id) by {
            if after.contains(x) {
                let i = choose|i: int| 0 <= i < after.len() && after[i] == x;
                if ids.contains(last.h_id) && i == before.len() {
                    assert(sources[n - 1] == x);
                } else {
                    assert(before[i] == x);
                    assert(before.contains(x));
                    let j = choose|j: int|
                        0 <= j < n - 1 && #[trigger] sources[j] == x && ids.contains(x.h_id);
                    assert(0 <= j < n);
                }
            }
            if exists|j: int| 0 <= j < n && #[trigger] sources[j] == x && ids.contains(x.h_id) {
                let j = choose|j: int|
                    0 <= j < n && #[trigger] sources[j] == x && ids.contains(x.h_id);
                if j == n - 1 {
                    assert(after[before.len() as int] == x);
                } else {
                    assert(before.contains(x));
                    let i = choose|i: int| 0 <= i < before.len() && before[i] == x;
                    assert(after[i] == x);
                }
            }
        }
    }
}

/// The edges of the children `ids` are the recorded edges whose child is
/// among `ids`.
pub proof fn lemma_parents_for(entries: Seq<ArchiveEntry>, ids: Seq<i64>, n: int)
    requires
        0 <= n <= entries.len(),
    ensures
        forall|x: ArchiveEntry|
            #![trigger parents_for(entries, ids, n).contains(x)]
            parents_for(entries, ids, n).contains(x) <==> exists|j: int|
                0 <= j < n && #[trigger] entries[j] == x && ids.contains(x.file_id),
    decreases n,
{
    if n > 0 {
        lemma_parents_for(entries, ids, n - 1);
        let before = parents_for(entries, ids, n - 1);
        let after = parents_for(entries, ids, n);
        let last = entries[n - 1];
        assert forall|x: ArchiveEntry|
            #![trigger after.contains(x)]
            after.contains(x) <==> exists|j: int|
                0 <= j < n && #[trigger] entries[j] == x && ids.contains(x.file_id) by {
            if after.contains(x) {
                let i = choose|i: int| 0 <= i < after.len() && after[i] == x;
                if ids.contains(last.file_id) && i == before.len() {
                    assert(entries[n - 1] == x);
                } else {
                    assert(before[i] == x);
                    assert(before.contains(x));
                    let j = choose|j: int|
                        0 <= j < n - 1 && #[trigger] entries[j] == x && ids.contains(x.file_id);
                    assert(0 <= j < n);
                }
            }
            if exists|j: int| 0 <= j < n && #[trigger] entries[j] == x && ids.contains(x.file_id) {
                let j = choose|j: int|
                    0 <= j < n && #[trigger] entries[j] == x && ids.contains(x.file_id);
                if j == n - 1 {
                    assert(after[before.len() as int] == x);
                } else {
                    assert(before.contains(x));
                    let i = choose|i: int| 0 <= i < before.len() && before[i] == x;
                    assert(after[i] == x);
                }
            }
        }
    }
}

impl Catalog {
    /// A catalog that knows nothing.
    pub fn new() -> (catalog: Catalog)
        ensures
            catalog@.valid(),
            catalog@.digests.len() == 0,
            catalog@.sources.len() == 0,
            catalog@.entries.len() == 0,
            catalog@.releases_valid(),
            catalog@.releases.len() == 0,
            catalog@.packages.len() == 0,
            catalog@.dependencies.len() == 0,
            catalog@.files.len() == 0,
    {
        Catalog {
            digests: Vec::new(),
            sources: Vec::new(),
            entries: Vec::new(),
            releases: Vec::new(),
            packages: Vec::new(),
            dependencies: Vec::new(),
            files: Vec::new(),
        }
    }

    /// How many releases, packages, dependencies and files the catalog
    /// holds.
    pub fn release_counts(&self) -> (counts: (usize, usize, usize, usize))
        ensures
            counts.0 == self@.releases.len(),
            counts.1 == self@.packages.len(),
            counts.2 == self@.dependencies.len(),
            counts.3 == self@.files.len(),
    {
        (self.releases.len(), self.packages.len(), self.dependencies.len(), self.files.len())
    }

    /// Name and version of every recorded release, in the order in which
    /// they were recorded.
    pub fn get_releases(&self) -> (rels: Vec<Rel>)
        ensures
            rels@ == release_list(self@.releases),
    {
        let mut rels: Vec<Rel> = Vec::new();
        let mut i: usize = 0;
        while i < self.releases.len()
            invariant
                i <= self.releases@.len(),
                rels@ == release_list(self@.releases).take(i as int),
            decreases self.releases.len() - i,
        {
            let r = &self.releases[i];
            rels.push(Rel { name: r.name.clone(), version: r.version.clone() });
            assert(rels@ =~= release_list(self@.releases).take(i + 1));
            i = i + 1;
        }
        assert(release_list(self@.releases).take(self@.releases.len() as int) =~= release_list(
            self@.releases,
        ));
        rels
    }

    /// The known digests, sources and containment edges, in the order in
    /// which they were recorded. The digest at place `i` has the blob ID
    /// `i + 1`.
    pub fn blob_tables(&self) -> (tables: (&Vec<SHA256Checksum>, &Vec<Source>, &Vec<ArchiveEntry>))
        ensures
            bytes_of(tables.0@) == self@.digests,
            tables.1@ == self@.sources,
            tables.2@ == self@.entries,
    {
        (&self.digests, &self.sources, &self.entries)
    }

    /// The recorded releases, packages and dependencies, and where the
    /// blobs of packages land.
    pub fn release_tables(&self) -> (tables: (&Vec<Release>, &Vec<PackageRow>, &Vec<DependencyRow>, &Vec<File>))
        ensures
            tables.0@ == self@.releases,
            tables.1@ == self@.packages,
            tables.2@ == self@.dependencies,
            tables.3@ == self@.files,
    {
        (&self.releases, &self.packages, &self.dependencies, &self.files)
    }

    /// Records a release and gives it the next number.
    pub fn insert_release(
        &mut self,
        name: String,
        version: String,
        rel_type: RelType,
        date: String,
        private: bool,
    ) -> (rel_id: i64)
        requires
            old(self)@.releases_valid(),
            old(self)@.releases.len() < 0x7fff_ffff_ffff_ffff,
        ensures
            final(self)@.releases_valid(),
            rel_id == old(self)@.releases.len() + 1,
            final(self)@.releases == old(self)@.releases.push(
                (Release { rel_id, name, version, rel_type, date, private }),
            ),
            final(self)@.packages == old(self)@.packages,
            final(self)@.dependencies == old(self)@.dependencies,
            final(self)@.files == old(self)@.files,
            final(self)@.digests == old(self)@.digests,
            final(self)@.sources == old(self)@.sources,
            final(self)@.entries == old(self)@.entries,
    {
        let n = self.releases.len();
        assert(n == self@.releases.len());
        let rel_id = (n as i64) + 1;
        self.releases.push(Release { rel_id, name, version, rel_type, date, private });
        proof {
            let before = old(self)@;
            assert forall|i: int| 0 <= i < self@.releases.len() implies (
            #[trigger] self@.releases[i]).rel_id == i + 1 by {
                if i < n {
                    assert(self@.releases[i] == before.releases[i]);
                }
            }
            assert forall|i: int| 0 <= i < self@.packages.len() implies (
            #[trigger] self@.packages[i]).p_id == i + 1 && 1 <= self@.packages[i].rel_id
                <= self@.releases.len() by {
                assert(self@.packages[i] == before.packages[i]);
            }
            assert forall|i: int| 0 <= i < self@.dependencies.len() implies (
            #[trigger] self@.dependencies[i]).id == i + 1 && 1 <= self@.dependencies[i].p_id
                <= self@.packages.len() by {
                assert(self@.dependencies[i] == before.dependencies[i]);
            }
            assert forall|i: int| 0 <= i < self@.files.len() implies 1 <= (
            #[trigger] self@.files[i]).p_id <= self@.packages.len() by {
                assert(self@.files[i] == before.files[i]);
            }
        }
        rel_id
    }

    /// Records a package of the release `rel_id` and gives it the next
    /// number.
    pub fn insert_package(
        &mut self,
        rel_id: i64,
        name: String,
        notes: String,
        status: String,
        environment: Option<String>,
        folder: Option<String>,
        is_vp: bool,
    ) -> (p_id: i64)
        requires
            old(self)@.releases_valid(),
            old(self)@.packages.len() < 0x7fff_ffff_ffff_ffff,
            1 <= rel_id <= old(self)@.releases.len(),
        ensures
            final(self)@.releases_valid(),
            p_id == old(self)@.packages.len() + 1,
            final(self)@.packages == old(self)@.packages.push(
                (PackageRow { p_id, rel_id, name, notes, status, environment, folder, is_vp }),
            ),
            final(self)@.releases == old(self)@.releases,
            final(self)@.dependencies == old(self)@.dependencies,
            final(self)@.files == old(self)@.files,
            final(self)@.digests == old(self)@.digests,
            final(self)@.sources == old(self)@.sources,
            final(self)@.entries == old(self)@.entries,
    {
        let n = self.packages.len();
        assert(n == self@.packages.len());
        let p_id = (n as i64) + 1;
        self.packages.push(PackageRow { p_id, rel_id, name, notes, status, environment, folder, is_vp });
        proof {
            let before = old(self)@;
            assert forall|i: int| 0 <= i < self@.packages.len() implies (
            #[trigger] self@.packages[i]).p_id == i + 1 && 1 <= self@.packages[i].rel_id
                <= self@.releases.len() by {
                if i < n {
                    assert(self@.packages[i] == before.packages[i]);
                }
            }
            assert forall|i: int| 0 <= i < self@.dependencies.len() implies (
            #[trigger] self@.dependencies[i]).id == i + 1 && 1 <= self@.dependencies[i].p_id
                <= self@.packages.len() by {
                assert(self@.dependencies[i] == before.dependencies[i]);
            }
            assert forall|i: int| 0 <= i < self@.files.len() implies 1 <= (
            #[trigger] self@.files[i]).p_id <= self@.packages.len() by {
                assert(self@.files[i] == before.files[i]);
            }
            assert forall|i: int| 0 <= i < self@.releases.len() implies (
            #[trigger] self@.releases[i]).rel_id == i + 1 by {
                assert(self@.releases[i] == before.releases[i]);
            }
        }
        p_id
    }

    /// Records a dependency of the package `p_id` and gives it the next
    /// number.
    pub fn insert_dependency(&mut self, p_id: i64, modname: String, version: Option<String>) -> (id: i64)
        requires
            old(self)@.releases_valid(),
            old(self)@.dependencies.len() < 0x7fff_ffff_ffff_ffff,
            1 <= p_id <= old(self)@.packages.len(),
        ensures
            final(self)@.releases_valid(),
            id == old(self)@.dependencies.len() + 1,
            final(self)@.dependencies == old(self)@.dependencies.push(
                (DependencyRow { id, p_id, modname, version }),
            ),
            final(self)@.releases == old(self)@.releases,
            final(self)@.packages == old(self)@.packages,
            final(self)@.files == old(self)@.files,
            final(self)@.digests == old(self)@.digests,
            final(self)@.sources == old(self)@.sources,
            final(self)@.entries == old(self)@.entries,
    {
        let n = self.dependencies.len();
        assert(n == self@.dependencies.len());
        let id = (n as i64) + 1;
        self.dependencies.push(DependencyRow { id, p_id, modname, version });
        proof {
            let before = old(self)@;
            assert forall|i: int| 0 <= i < self@.dependencies.len() implies (
            #[trigger] self@.dependencies[i]).id == i + 1 && 1 <= self@.dependencies[i].p_id
                <= self@.packages.len() by {
                if i < n {
                    assert(self@.dependencies[i] == before.dependencies[i]);
                }
            }
            assert forall|i: int| 0 <= i < self@.releases.len() implies (
            #[trigger] self@.releases[i]).rel_id == i + 1 by {
                assert(self@.releases[i] == before.releases[i]);
            }
            assert forall|i: int| 0 <= i < self@.packages.len() implies (
            #[trigger] self@.packages[i]).p_id == i + 1 && 1 <= self@.packages[i].rel_id
                <= self@.releases.len() by {
                assert(self@.packages[i] == before.packages[i]);
            }
            assert forall|i: int| 0 <= i < self@.files.len() implies 1 <= (
            #[trigger] self@.files[i]).p_id <= self@.packages.len() by {
                assert(self@.files[i] == before.files[i]);
            }
        }
        id
    }

    /// Records where the blobs of recorded packages land.
    pub fn insert_files(&mut self, files: Vec<File>)
        requires
            old(self)@.releases_valid(),
            forall|k: int|
                0 <= k < files@.len() ==> 1 <= (#[trigger] files@[k]).p_id <= old(
                    self,
                )@.packages.len(),
        ensures
            final(self)@.releases_valid(),
            final(self)@.files == old(self)@.files + files@,
            final(self)@.releases == old(self)@.releases,
            final(self)@.packages == old(self)@.packages,
            final(self)@.dependencies == old(self)@.dependencies,
            final(self)@.digests == old(self)@.digests,
            final(self)@.sources == old(self)@.sources,
            final(self)@.entries == old(self)@.entries,
    {
        let mut rows = files;
        self.files.append(&mut rows);
        proof {
            let before = old(self)@;
            assert forall|i: int| 0 <= i < self@.files.len() implies 1 <= (
            #[trigger] self@.files[i]).p_id <= self@.packages.len() by {
                if i < before.files.len() {
                    assert(self@.files[i] == before.files[i]);
                } else {
                    assert(self@.files[i] == files@[i - before.files.len()]);
                }
            }
        }
    }

    /// How many digests, sources and containment edges the catalog holds.
    pub fn row_counts(&self) -> (counts: (usize, usize, usize))
        ensures
            counts.0 == self@.digests.len(),
            counts.1 == self@.sources.len(),
            counts.2 == self@.entries.len(),
    {
        (self.digests.len(), self.sources.len(), self.entries.len())
    }

    /// The place of `digest` among the known digests.
    fn place_of(&self, digest: &SHA256Checksum) -> (place: Option<usize>)
        ensures
            place is Some <==> self@.digests.contains(digest@),
            place matches Some(i) ==> i == digest_place(self@.digests, digest@, 0) && i
                < self@.digests.len(),
            place is None ==> digest_place(self@.digests, digest@, 0) == self@.digests.len(),
    {
        let mut i: usize = 0;
        while i < self.digests.len()
            invariant
                i <= self.digests@.len(),
                digest_place(self@.digests, digest@, 0) == digest_place(
                    self@.digests,
                    digest@,
                    i as int,
                ),
                forall|k: int| 0 <= k < i ==> self@.digests[k] != digest@,
            decreases self.digests.len() - i,
        {
            if self.digests[i].same_as(digest) {
                assert(self@.digests[i as int] == digest@);
                return Some(i);
            }
            i = i + 1;
        }
        None
    }

    /// The blob ID of `digest`, if the catalog knows it.
    pub fn get_id_from_hash(&self, digest: &SHA256Checksum) -> (id: Option<i64>)
        requires
            self@.valid(),
        ensures
            id is Some <==> self@.digests.contains(digest@),
            id matches Some(i) ==> i == self@.blob_id(digest@) && self@.has_blob(i)
                && self@.digests[i - 1] == digest@,
    {
        match self.place_of(digest) {
            Some(i) => {
                proof {
                    lemma_digest_place(self@.digests, digest@, 0);
                }
                let n = self.digests.len();
                assert(i < n <= 0x7fff_ffff_ffff_ffff);
                Some((i + 1) as i64)
            },
            None => None,
        }
    }

    /// The digest of the blob `id`, if there is such a blob.
    pub fn get_hash_from_id(&self, id: i64) -> (digest: Option<&SHA256Checksum>)
        ensures
            digest is Some <==> self@.has_blob(id),
            digest matches Some(d) ==> d@ == self@.digests[id - 1],
    {
        if id >= 1 && (id as u64) <= self.digests.len() as u64 {
            Some(&self.digests[(id - 1) as usize])
        } else {
            None
        }
    }

    /// Records the digests that the catalog does not know yet, and gives
    /// the blob ID of each digest of the batch, in order. A digest that was
    /// known keeps its blob ID.
    ///
    /// Fails with `CatalogFailure`, and changes nothing, where the catalog
    /// cannot number that many blobs.
    pub fn upsert_digests(&mut self, digests: &Vec<SHA256Checksum>) -> (res: Result<
        Vec<i64>,
        FileAcquisitionError,
    >)
        requires
            old(self)@.valid(),
        ensures
            final(self)@.valid(),
            final(self)@.same_releases(old(self)@),
            final(self)@.sources == old(self)@.sources,
            final(self)@.entries == old(self)@.entries,
            res is Ok <==> old(self)@.digests.len() + digests@.len() <= 0x7fff_ffff_ffff_ffff,
            res is Err ==> final(self)@ == old(self)@,
            res matches Err(e) ==> e is CatalogFailure,
            res matches Ok(ids) ==> {
                &&& final(self)@.digests == with_digests(
                    old(self)@.digests,
                    bytes_of(digests@),
                    digests@.len() as int,
                )
                &&& ids@.len() == digests@.len()
                &&& forall|k: int|
                    0 <= k < ids@.len() ==> #[trigger] ids@[k] == final(self)@.blob_id(digests@[k]@)
                        && final(self)@.has_blob(ids@[k]) && final(self)@.digests[ids@[k] - 1]
                        == digests@[k]@
            },
    {
        if (self.digests.len() as u64) > 0x7fff_ffff_ffff_ffff || (digests.len() as u64)
            > 0x7fff_ffff_ffff_ffff - (self.digests.len() as u64) {
            return Err(FileAcquisitionError::CatalogFailure("too many blobs".to_owned()));
        }
        let ghost start = self@.digests;
        let ghost new = bytes_of(digests@);
        let mut ids: Vec<i64> = Vec::new();
        let mut k: usize = 0;
        while k < digests.len()
            invariant
                self@.same_releases(old(self)@),
                k <= digests@.len(),
                new == bytes_of(digests@),
                start == old(self)@.digests,
                start.len() + digests@.len() <= 0x7fff_ffff_ffff_ffff,
                start.no_duplicates(),
                self@.digests == with_digests(start, new, k as int),
                self@.sources == old(self)@.sources,
                self@.entries == old(self)@.entries,
                ids@.len() == k,
                forall|j: int|
                    0 <= j < k ==> 1 <= #[trigger] ids@[j] <= self@.digests.len()
                        && self@.digests[ids@[j] - 1] == digests@[j]@,
            decreases digests.len() - k,
        {
            proof {
                lemma_with_digests_extends(start, new, k as int);
            }
            let ghost before = self@.digests;
            let ghost ids0 = ids@;
            assert(before.len() == self.digests@.len());
            let id = match self.place_of(&digests[k]) {
                Some(i) => {
                    proof {
                        lemma_digest_place(before, digests@[k as int]@, 0);
                    }
                    let n = self.digests.len();
                    assert(i < n);
                    (i + 1) as i64
                },
                None => {
                    self.digests.push(digests[k].clone());
                    assert(self@.digests =~= before.push(digests@[k as int]@));
                    self.digests.len() as i64
                },
            };
            ids.push(id);
            assert(new[k as int] == digests@[k as int]@);
            assert forall|j: int| 0 <= j < k + 1 implies 1 <= #[trigger] ids@[j]
                <= self@.digests.len() && self@.digests[ids@[j] - 1] == digests@[j]@ by {
                if j < k {
                    assert(ids@[j] == ids0[j]);
                    assert(before[ids0[j] - 1] == digests@[j]@);
                }
            }
            k = k + 1;
        }
        proof {
            lemma_with_digests_extends(start, new, digests@.len() as int);
            assert forall|j: int| 0 <= j < ids@.len() implies #[trigger] ids@[j] == self@.blob_id(
                digests@[j]@,
            ) by {
                lemma_digest_place(self@.digests, digests@[j]@, 0);
            }
            assert forall|j: int| 0 <= j < self@.sources.len() implies self@.has_blob(
                (#[trigger] self@.sources[j]).h_id,
            ) && self@.sources[j].size >= 0 by {
                assert(old(self)@.has_blob(old(self)@.sources[j].h_id));
                assert(old(self)@.sources[j].size >= 0);
            }
            assert forall|j: int| 0 <= j < self@.entries.len() implies self@.has_blob(
                (#[trigger] self@.entries[j]).file_id,
            ) && self@.has_blob(self@.entries[j].archive_id) by {
                assert(old(self)@.has_blob(old(self)@.entries[j].file_id));
            }
        }
        Ok(ids)
    }

    /// The digests of a batch that the catalog knows, each with its blob
    /// ID, in the order of the batch.
    pub fn get_hash_ids(&self, digests: &Vec<SHA256Checksum>) -> (pairs: Vec<(SHA256Checksum, i64)>)
        requires
            self@.valid(),
        ensures
            pairs_view(pairs@) == known_pairs(self@, bytes_of(digests@), digests@.len() as int),
    {
        let ghost new = bytes_of(digests@);
        let mut pairs: Vec<(SHA256Checksum, i64)> = Vec::new();
        let mut k: usize = 0;
        while k < digests.len()
            invariant
                k <= digests@.len(),
                self@.valid(),
                new == bytes_of(digests@),
                pairs_view(pairs@) == known_pairs(self@, new, k as int),
            decreases digests.len() - k,
        {
            let ghost before = pairs_view(pairs@);
            match self.get_id_from_hash(&digests[k]) {
                Some(id) => {
                    pairs.push((digests[k].clone(), id));
                    assert(pairs_view(pairs@) =~= before.push((digests@[k as int]@, id)));
                },
                None => {},
            }
            assert(new[k as int] == digests@[k as int]@);
            k = k + 1;
        }
        pairs
    }

    /// Whether a source names the same place for the same blob as `s`.
    fn holds_source(&self, s: &Source) -> (found: bool)
        ensures
            found == has_source(self@.sources, *s),
    {
        let mut k: usize = 0;
        while k < self.sources.len()
            invariant
                k <= self.sources@.len(),
                forall|j: int| 0 <= j < k ==> !s.same_key(&#[trigger] self.sources@[j]),
            decreases self.sources.len() - k,
        {
            let e = &self.sources[k];
            if s.location.preference() == e.location.preference() && s.path == e.path && s.h_id
                == e.h_id {
                assert(s.same_key(&self.sources@[k as int]));
                return true;
            }
            k = k + 1;
        }
        false
    }

    /// Whether an edge joins the same child to the same archive as `e`.
    fn holds_entry(&self, e: &ArchiveEntry) -> (found: bool)
        ensures
            found == has_entry(self@.entries, *e),
    {
        let mut k: usize = 0;
        while k < self.entries.len()
            invariant
                k <= self.entries@.len(),
                forall|j: int| 0 <= j < k ==> !same_edge(*e, #[trigger] self.entries@[j]),
            decreases self.entries.len() - k,
        {
            if self.entries[k].file_id == e.file_id && self.entries[k].archive_id == e.archive_id {
                assert(same_edge(*e, self.entries@[k as int]));
                return true;
            }
            k = k + 1;
        }
        false
    }

    /// Whether `id` is the blob ID of a known digest.
    fn knows_blob(&self, id: i64) -> (known: bool)
        ensures
            known == self@.has_blob(id),
    {
        id >= 1 && (id as u64) <= self.digests.len() as u64
    }

    /// Records the sources of a batch that are not recorded yet: a source
    /// is recorded once for each location, path and blob.
    ///
    /// Fails with `CatalogFailure`, and changes nothing, exactly when a
    /// source of the batch names a blob that the catalog does not know or
    /// declares a negative size.
    pub fn insert_sources(&mut self, sources: &Vec<Source>) -> (res: Result<(), FileAcquisitionError>)
        requires
            old(self)@.valid(),
        ensures
            final(self)@.valid(),
            final(self)@.same_releases(old(self)@),
            final(self)@.digests == old(self)@.digests,
            final(self)@.entries == old(self)@.entries,
            res is Ok <==> forall|k: int|
                0 <= k < sources@.len() ==> old(self)@.has_blob((#[trigger] sources@[k]).h_id)
                    && sources@[k].size >= 0,
            res is Ok ==> final(self)@.sources == with_sources(
                old(self)@.sources,
                sources@,
                sources@.len() as int,
            ),
            res is Err ==> final(self)@ == old(self)@,
            res matches Err(e) ==> e is CatalogFailure,
    {
        let mut k: usize = 0;
        while k < sources.len()
            invariant
                self@.same_releases(old(self)@),
                k <= sources@.len(),
                *self == *old(self),
                self@.valid(),
                forall|j: int|
                    0 <= j < k ==> self@.has_blob((#[trigger] sources@[j]).h_id) && sources@[j].size
                        >= 0,
            decreases sources.len() - k,
        {
            if !self.knows_blob(sources[k].h_id) || sources[k].size < 0 {
                return Err(FileAcquisitionError::CatalogFailure("no such blob".to_owned()));
            }
            k = k + 1;
        }
        let ghost start = self@.sources;
        let mut k: usize = 0;
        while k < sources.len()
            invariant
                self@.same_releases(old(self)@),
                k <= sources@.len(),
                self@.valid(),
                self@.digests == old(self)@.digests,
                self@.entries == old(self)@.entries,
                start == old(self)@.sources,
                forall|j: int|
                    0 <= j < sources@.len() ==> self@.has_blob((#[trigger] sources@[j]).h_id)
                        && sources@[j].size >= 0,
                self@.sources == with_sources(start, sources@, k as int),
            decreases sources.len() - k,
        {
            let ghost before = self@;
            if !self.holds_source(&sources[k]) {
                self.sources.push(sources[k].clone());
                proof {
                    let s = sources@[k as int];
                    assert(self@.sources == before.sources.push(s));
                    assert forall|i: int, j: int|
                        #![trigger self@.sources[i], self@.sources[j]]
                        0 <= i < j < self@.sources.len() implies !self@.sources[i].same_key(
                        &self@.sources[j],
                    ) by {
                        if j == before.sources.len() {
                            assert(!s.same_key(&before.sources[i]));
                        } else {
                            assert(!before.sources[i].same_key(&before.sources[j]));
                        }
                    }
                    assert forall|j: int| 0 <= j < self@.sources.len() implies self@.has_blob(
                        (#[trigger] self@.sources[j]).h_id,
                    ) && self@.sources[j].size >= 0 by {
                        if j < before.sources.len() {
                            assert(before.has_blob(before.sources[j].h_id));
                            assert(before.sources[j].size >= 0);
                        }
                    }
                    assert forall|j: int| 0 <= j < self@.entries.len() implies self@.has_blob(
                        (#[trigger] self@.entries[j]).file_id,
                    ) && self@.has_blob(self@.entries[j].archive_id) by {
                        assert(before.has_blob(before.entries[j].file_id));
                    }
                }
            }
            k = k + 1;
        }
        Ok(())
    }

    /// Records the containment edges of a batch that are not recorded yet:
    /// an edge is recorded once for each child and archive.
    ///
    /// Fails with `CatalogFailure`, and changes nothing, exactly when an
    /// edge of the batch names a blob that the catalog does not know.
    pub fn insert_archive_entries(&mut self, entries: &Vec<ArchiveEntry>) -> (res: Result<
        (),
        FileAcquisitionError,
    >)
        requires
            old(self)@.valid(),
        ensures
            final(self)@.valid(),
            final(self)@.same_releases(old(self)@),
            final(self)@.digests == old(self)@.digests,
            final(self)@.sources == old(self)@.sources,
            res is Ok <==> forall|k: int|
                0 <= k < entries@.len() ==> old(self)@.has_blob((#[trigger] entries@[k]).file_id)
                    && old(self)@.has_blob(entries@[k].archive_id),
            res is Ok ==> final(self)@.entries == with_all_entries(
                old(self)@.entries,
                entries@,
                entries@.len() as int,
            ),
            res is Err ==> final(self)@ == old(self)@,
            res matches Err(e) ==> e is CatalogFailure,
    {
        let mut k: usize = 0;
        while k < entries.len()
            invariant
                self@.same_releases(old(self)@),
                k <= entries@.len(),
                *self == *old(self),
                self@.valid(),
                forall|j: int|
                    0 <= j < k ==> self@.has_blob((#[trigger] entries@[j]).file_id)
                        && self@.has_blob(entries@[j].archive_id),
            decreases entries.len() - k,
        {
            if !self.knows_blob(entries[k].file_id) || !self.knows_blob(entries[k].archive_id) {
                return Err(FileAcquisitionError::CatalogFailure("no such blob".to_owned()));
            }
            k = k + 1;
        }
        let ghost start = self@.entries;
        let mut k: usize = 0;
        while k < entries.len()
            invariant
                self@.same_releases(old(self)@),
                k <= entries@.len(),
                self@.valid(),
                self@.digests == old(self)@.digests,
                self@.sources == old(self)@.sources,
                start == old(self)@.entries,
                forall|j: int|
                    0 <= j < entries@.len() ==> self@.has_blob((#[trigger] entries@[j]).file_id)
                        && self@.has_blob(entries@[j].archive_id),
                self@.entries == with_all_entries(start, entries@, k as int),
            decreases entries.len() - k,
        {
            let ghost before = self@;
            if !self.holds_entry(&entries[k]) {
                self.entries.push(entries[k].clone());
                proof {
                    let e = entries@[k as int];
                    assert(self@.entries == before.entries.push(e));
                    assert forall|i: int, j: int|
                        #![trigger self@.entries[i], self@.entries[j]]
                        0 <= i < j < self@.entries.len() implies !same_edge(
                        self@.entries[i],
                        self@.entries[j],
                    ) by {
                        if j == before.entries.len() {
                            assert(!same_edge(e, before.entries[i]));
                        } else {
                            assert(!same_edge(before.entries[i], before.entries[j]));
                        }
                    }
                    assert forall|j: int| 0 <= j < self@.sources.len() implies self@.has_blob(
                        (#[trigger] self@.sources[j]).h_id,
                    ) && self@.sources[j].size >= 0 by {
                        assert(before.has_blob(before.sources[j].h_id));
                        assert(before.sources[j].size >= 0);
                    }
                    assert forall|j: int| 0 <= j < self@.entries.len() implies self@.has_blob(
                        (#[trigger] self@.entries[j]).file_id,
                    ) && self@.has_blob(self@.entries[j].archive_id) by {
                        if j < before.entries.len() {
                            assert(before.has_blob(before.entries[j].file_id));
                        }
                    }
                }
            }
            k = k + 1;
        }
        Ok(())
    }

    /// Every source of the blobs `ids`, in the order in which the sources
    /// were recorded.
    pub fn get_sources_from_ids(&self, ids: &Vec<i64>) -> (found: Vec<Source>)
        ensures
            found@ == sources_for(self@.sources, ids@, self@.sources.len() as int),
    {
        let mut found: Vec<Source> = Vec::new();
        let mut n: usize = 0;
        while n < self.sources.len()
            invariant
                n <= self.sources@.len(),
                found@ == sources_for(self@.sources, ids@, n as int),
            decreases self.sources.len() - n,
        {
            if holds(ids, self.sources[n].h_id) {
                found.push(self.sources[n].clone());
            }
            n = n + 1;
        }
        found
    }

    /// Every source of the blob with digest `digest`, in the order in
    /// which the sources were recorded. None where the digest is unknown.
    pub fn get_sources_from_hash(&self, digest: &SHA256Checksum) -> (found: Vec<Source>)
        requires
            self@.valid(),
        ensures
            self@.digests.contains(digest@) ==> found@ == sources_for(
                self@.sources,
                seq![self@.blob_id(digest@)],
                self@.sources.len() as int,
            ),
            !self@.digests.contains(digest@) ==> found@.len() == 0,
    {
        match self.get_id_from_hash(digest) {
            Some(id) => {
                let mut ids: Vec<i64> = Vec::new();
                ids.push(id);
                assert(ids@ == seq![id]);
                self.get_sources_from_ids(&ids)
            },
            None => Vec::new(),
        }
    }

    /// Every containment edge whose child is one of `ids`, in the order in
    /// which the edges were recorded.
    pub fn get_parents_from_ids(&self, ids: &Vec<i64>) -> (found: Vec<ArchiveEntry>)
        ensures
            found@ == parents_for(self@.entries, ids@, self@.entries.len() as int),
    {
        let mut found: Vec<ArchiveEntry> = Vec::new();
        let mut n: usize = 0;
        while n < self.entries.len()
            invariant
                n <= self.entries@.len(),
                found@ == parents_for(self@.entries, ids@, n as int),
            decreases self.entries.len() - n,
        {
            if holds(ids, self.entries[n].file_id) {
                found.push(self.entries[n].clone());
            }
            n = n + 1;
        }
        found
    }
}

} // verus!
