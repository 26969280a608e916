//! The install planner: from a manifest to the set of remote sources to
//! fetch, and the types that the acquisition pipeline passes around.

use vstd::prelude::*;
use crate::common::{Archive, ArchiveEntry, SHA256Checksum, Source};
use crate::files::dag::{DagView, HashDAG};
use crate::files::solver::{
    Candidate, Offer, coverable, holds, is_coverable, is_minimum_cover, offers_of, picked, solve_files,
    sources_of,
};
use crate::paths::{join_path, spec_join};

pub mod acquire;
pub mod api;
pub mod dag;
pub mod hash;
pub mod indexer;
pub mod materialize;
pub mod plan;
pub mod readers;
pub mod solver;
pub mod util;

verus! {

/// How a blob sits inside the archive that contains it: as an entry of a
/// VP container or of a 7-zip archive, at the path given.
#[derive(Debug, PartialEq, Eq, Hash)]
pub enum DagEdge {
    VP(String),
    SZ(String),
}

impl Clone for DagEdge {
    fn clone(&self) -> (res: Self)
        ensures
            res == *self,
    {
        match self {
            DagEdge::VP(path) => DagEdge::VP(path.clone()),
            DagEdge::SZ(path) => DagEdge::SZ(path.clone()),
        }
    }
}

/// Why a file could not be acquired.
#[derive(Debug)]
pub enum FileAcquisitionError {
    /// A requested digest is not in the catalog.
    UnknownContent(SHA256Checksum),
    /// No set of known sources delivers every missing blob.
    UnsatisfiableCoverage,
    /// A fetch failed, or every candidate source has failed.
    NetworkFailure(String),
    /// Fetched bytes do not hash to the digest they were fetched for.
    ContentHashMismatch(SHA256Checksum),
    /// A VP container could not be parsed.
    MalformedContainer,
    /// The catalog refused a read or a write.
    CatalogFailure(String),
    /// Reading or writing a file failed.
    IOFailure(String),
}

/// A file of a VP that is to be built on this machine.
#[derive(Debug, Clone)]
pub struct VPEntry {
    pub path: String,
    pub hash: SHA256Checksum,
}

/// What a VP of the manifest is made of: a container known by its digest,
/// or the files to build it from.
#[derive(Debug, Clone)]
pub enum VPContents {
    Hash(SHA256Checksum),
    Contents(Vec<VPEntry>),
}

/// What an entry of the manifest installs: a loose file or a VP.
#[derive(Debug, Clone)]
pub enum ManifIdent {
    Raw(SHA256Checksum),
    VP(VPContents),
}

/// One entry of the manifest: what is installed, and where.
#[derive(Debug, Clone)]
pub struct ManifEntry {
    pub path: String,
    pub ident: ManifIdent,
}

/// Where the bytes of a blob can be read on this machine: a file, or an
/// entry of a VP or of a 7-zip archive at an inner path.
#[derive(Debug, Clone)]
pub enum DataPath {
    Raw(String),
    VPEntry(String, String),
    SZEntry(String, String),
}

/// What a place holds: the text of its paths.
pub enum PlaceView {
    Raw(Seq<char>),
    VPEntry(Seq<char>, Seq<char>),
    SZEntry(Seq<char>, Seq<char>),
}

impl View for DataPath {
    type V = PlaceView;

    open spec fn view(&self) -> PlaceView {
        match self {
            DataPath::Raw(file) => PlaceView::Raw(file@),
            DataPath::VPEntry(file, inner) => PlaceView::VPEntry(file@, inner@),
            DataPath::SZEntry(file, inner) => PlaceView::SZEntry(file@, inner@),
        }
    }
}

/// The digests of a list of VP files, in order.
pub open spec fn entry_digests(entries: Seq<VPEntry>) -> Seq<Seq<u8>> {
    Seq::new(entries.len(), |i: int| entries[i].hash@)
}

/// The digests that one entry of the manifest needs on this machine.
pub open spec fn ident_digests(ident: ManifIdent) -> Seq<Seq<u8>> {
    match ident {
        ManifIdent::Raw(hash) => seq![hash@],
        ManifIdent::VP(VPContents::Hash(hash)) => seq![hash@],
        ManifIdent::VP(VPContents::Contents(entries)) => entry_digests(entries@),
    }
}

/// The digests that the first `n` entries of a manifest need on this
/// machine, in the order of the manifest.
pub open spec fn manifest_digests(manifest: Seq<ManifEntry>, n: int) -> Seq<Seq<u8>>
    decreases n,
{
    if n <= 0 {
        Seq::empty()
    } else {
        manifest_digests(manifest, n - 1) + ident_digests(manifest[n - 1].ident)
    }
}

/// The bytes of each digest of a list, in order.
pub open spec fn digests_view(digests: Seq<SHA256Checksum>) -> Seq<Seq<u8>> {
    Seq::new(digests.len(), |i: int| digests[i]@)
}

/// The digests that a manifest needs on this machine, in the order of the
/// manifest: one for a loose file or a prebuilt VP, and one for each file
/// of a VP that is to be built.
pub fn required_digests(manifest: &Vec<ManifEntry>) -> (digests: Vec<SHA256Checksum>)
    ensures
        digests_view(digests@) == manifest_digests(manifest@, manifest@.len() as int),
{
    let mut digests: Vec<SHA256Checksum> = Vec::new();
    let mut i: usize = 0;
    while i < manifest.len()
        invariant
            i <= manifest@.len(),
            digests_view(digests@) == manifest_digests(manifest@, i as int),
        decreases manifest.len() - i,
    {
        let ghost done = digests@;
        match &manifest[i].ident {
            ManifIdent::Raw(hash) => {
                digests.push(hash.clone());
                assert(digests_view(digests@) == digests_view(done) + seq![hash@]);
            },
            ManifIdent::VP(VPContents::Hash(hash)) => {
                digests.push(hash.clone());
                assert(digests_view(digests@) == digests_view(done) + seq![hash@]);
            },
            ManifIdent::VP(VPContents::Contents(entries)) => {
                let mut k: usize = 0;
                while k < entries.len()
                    invariant
                        k <= entries@.len(),
                        digests_view(digests@) == digests_view(done) + entry_digests(
                            entries@,
                        ).take(k as int),
                    decreases entries.len() - k,
                {
                    let ghost sofar = digests@;
                    digests.push(entries[k].hash.clone());
                    assert(digests_view(digests@) == digests_view(sofar).push(entries@[k as int].hash@));
                    assert(entry_digests(entries@).take(k + 1) == entry_digests(entries@).take(
                        k as int,
                    ).push(entries@[k as int].hash@));
                    k = k + 1;
                }
                assert(entry_digests(entries@).take(entries@.len() as int) == entry_digests(
                    entries@,
                ));
            },
        }
        i = i + 1;
    }
    digests
}

/// The place of the first pair of `known` whose digest is `digest`, or the
/// length of `known` where there is none.
pub open spec fn known_at(known: Seq<(SHA256Checksum, i64)>, digest: Seq<u8>, from: int) -> int
    decreases known.len() - from,
{
    if from < 0 || from >= known.len() {
        known.len() as int
    } else if known[from].0@ == digest {
        from
    } else {
        known_at(known, digest, from + 1)
    }
}

/// The catalog knows `digest`.
pub open spec fn is_known(known: Seq<(SHA256Checksum, i64)>, digest: Seq<u8>) -> bool {
    known_at(known, digest, 0) < known.len()
}

/// The blob ID that the catalog gave `digest`.
pub open spec fn id_of(known: Seq<(SHA256Checksum, i64)>, digest: Seq<u8>) -> i64 {
    known[known_at(known, digest, 0)].1
}

/// The blob ID of `digest` in `known`, if it is there.
pub fn lookup(known: &Vec<(SHA256Checksum, i64)>, digest: &SHA256Checksum) -> (id: Option<i64>)
    ensures
        id is Some <==> is_known(known@, digest@),
        id matches Some(i) ==> i == id_of(known@, digest@),
{
    let mut j: usize = 0;
    while j < known.len()
        invariant
            j <= known@.len(),
            known_at(known@, digest@, 0) == known_at(known@, digest@, j as int),
        decreases known.len() - j,
    {
        if known[j].0.same_as(digest) {
            return Some(known[j].1);
        }
        j = j + 1;
    }
    None
}

/// The blob IDs of `digests`, in order, as the catalog's answer `known`
/// gives them.
///
/// Fails with `UnknownContent` exactly when the catalog does not know one
/// of the digests; the error names the first such digest.
pub fn resolve_blob_ids(digests: &Vec<SHA256Checksum>, known: &Vec<(SHA256Checksum, i64)>) -> (res:
    Result<Vec<i64>, FileAcquisitionError>)
    ensures
        res is Ok <==> forall|k: int|
            0 <= k < digests@.len() ==> is_known(known@, (#[trigger] digests@[k])@),
        res matches Ok(ids) ==> ids@.len() == digests@.len() && forall|k: int|
            0 <= k < ids@.len() ==> #[trigger] ids@[k] == id_of(known@, digests@[k]@),
        res matches Err(e) ==> e matches FileAcquisitionError::UnknownContent(d) && exists|k: int|
            0 <= k < digests@.len() && (#[trigger] digests@[k])@ == d@ && !is_known(known@, d@)
                && forall|j: int| 0 <= j < k ==> is_known(known@, (#[trigger] digests@[j])@),
{
    let mut ids: Vec<i64> = Vec::new();
    let mut k: usize = 0;
    while k < digests.len()
        invariant
            k <= digests@.len(),
            ids@.len() == k,
            forall|j: int| 0 <= j < k ==> is_known(known@, (#[trigger] digests@[j])@),
            forall|j: int| 0 <= j < k ==> #[trigger] ids@[j] == id_of(known@, digests@[j]@),
        decreases digests.len() - k,
    {
        match lookup(known, &digests[k]) {
            Some(id) => {
                ids.push(id);
            },
            None => {
                return Err(FileAcquisitionError::UnknownContent(digests[k].clone()));
            },
        }
        k = k + 1;
    }
    Ok(ids)
}

/// The label of the edge that an archive entry stands for.
pub open spec fn edge_of(entry: ArchiveEntry) -> DagEdge {
    match entry.archive_type {
        Archive::SevenZip => DagEdge::SZ(entry.file_path),
        Archive::VP => DagEdge::VP(entry.file_path),
    }
}

/// The edges of a graph after the first `n` of `entries` have been put
/// into it, in order.
pub open spec fn with_entries(edges: Map<(i64, i64), DagEdge>, entries: Seq<ArchiveEntry>, n: int) -> Map<
    (i64, i64),
    DagEdge,
>
    decreases n,
{
    if n <= 0 {
        edges
    } else {
        with_entries(edges, entries, n - 1).insert(
            (entries[n - 1].file_id, entries[n - 1].archive_id),
            edge_of(entries[n - 1]),
        )
    }
}

/// `ids` with `id` put behind it, unless it is there already.
pub open spec fn with_id(ids: Seq<i64>, id: i64) -> Seq<i64> {
    if ids.contains(id) {
        ids
    } else {
        ids.push(id)
    }
}

/// `acc` with the first `n` of `ids` put behind it, each unless it is
/// there already.
pub open spec fn with_ids(acc: Seq<i64>, ids: Seq<i64>, n: int) -> Seq<i64>
    decreases n,
{
    if n <= 0 {
        acc
    } else {
        with_id(with_ids(acc, ids, n - 1), ids[n - 1])
    }
}

/// `nodes` with the ends of the first `n` entries put behind it, each
/// unless it is there already: of each entry the child, then the archive.
pub open spec fn with_ends(nodes: Seq<i64>, entries: Seq<ArchiveEntry>, n: int) -> Seq<i64>
    decreases n,
{
    if n <= 0 {
        nodes
    } else {
        with_id(
            with_id(with_ends(nodes, entries, n - 1), entries[n - 1].file_id),
            entries[n - 1].archive_id,
        )
    }
}

/// The archives of the first `n` entries that `known` does not hold, each
/// once, in the order of the entries.
pub open spec fn new_archives(known: Seq<i64>, entries: Seq<ArchiveEntry>, n: int) -> Seq<i64>
    decreases n,
{
    if n <= 0 {
        Seq::empty()
    } else {
        let before = new_archives(known, entries, n - 1);
        let archive = entries[n - 1].archive_id;
        if !known.contains(archive) && !before.contains(archive) {
            before.push(archive)
        } else {
            before
        }
    }
}

/// `id` is the child or the archive of one of the first `n` entries.
pub open spec fn named_by(entries: Seq<ArchiveEntry>, n: int, id: i64) -> bool {
    exists|k: int|
        0 <= k < n && ((#[trigger] entries[k]).file_id == id || entries[k].archive_id == id)
}

/// `id` is the archive of one of the first `n` entries.
pub open spec fn is_archive_in(entries: Seq<ArchiveEntry>, n: int, id: i64) -> bool {
    exists|k: int| 0 <= k < n && (#[trigger] entries[k]).archive_id == id
}

/// A graph that holds the required blobs as nodes, each once, and no
/// edges: where the walk up the catalog starts.
pub fn start_dag(ids: &Vec<i64>) -> (dag: HashDAG)
    ensures
        dag.wf(),
        dag@.nodes == with_ids(Seq::empty(), ids@, ids@.len() as int),
        forall|id: i64| dag@.contains(id) <==> ids@.contains(id),
        dag@.edges == Map::<(i64, i64), DagEdge>::empty(),
{
    let mut dag = HashDAG::new();
    assert(dag@.nodes == Seq::<i64>::empty());
    let mut i: usize = 0;
    while i < ids.len()
        invariant
            i <= ids@.len(),
            dag.wf(),
            dag@.nodes == with_ids(Seq::empty(), ids@, i as int),
            dag@.edges == Map::<(i64, i64), DagEdge>::empty(),
            forall|id: i64| dag@.contains(id) <==> exists|k: int| 0 <= k < i && ids@[k] == id,
        decreases ids.len() - i,
    {
        let ghost before = dag@;
        dag.add(&ids[i]);
        proof {
            assert forall|id: i64| dag@.contains(id) <==> exists|k: int|
                0 <= k < i + 1 && ids@[k] == id by {
                if dag@.contains(id) {
                    if before.contains(id) {
                        let k = choose|k: int| 0 <= k < i && ids@[k] == id;
                        assert(0 <= k < i + 1 && ids@[k] == id);
                    } else {
                        let j = choose|j: int| 0 <= j < dag@.nodes.len() && dag@.nodes[j] == id;
                        assert(ids@[i as int] == id);
                    }
                }
                if exists|k: int| 0 <= k < i + 1 && ids@[k] == id {
                    let k = choose|k: int| 0 <= k < i + 1 && ids@[k] == id;
                    if k < i {
                        assert(before.contains(id));
                        let j = choose|j: int| 0 <= j < before.nodes.len() && before.nodes[j] == id;
                        assert(dag@.nodes[j] == id);
                    } else {
                        if before.contains(id) {
                        } else {
                            assert(dag@.nodes[before.nodes.len() as int] == id);
                        }
                    }
                }
            }
        }
        i = i + 1;
    }
    dag
}

/// Puts the containment edges that the catalog returned for the current
/// frontier into the graph, with their ends as nodes, and says which
/// archives the graph did not hold before: the next frontier.
///
/// The walk up the catalog is over when the frontier comes back empty.
pub fn absorb_parents(dag: &mut HashDAG, entries: &Vec<ArchiveEntry>) -> (frontier: Vec<i64>)
    requires
        old(dag).wf(),
    ensures
        final(dag).wf(),
        forall|id: i64|
            #![trigger final(dag)@.contains(id)]
            #![trigger named_by(entries@, entries@.len() as int, id)]
            final(dag)@.contains(id) <==> old(dag)@.contains(id) || named_by(
                entries@,
                entries@.len() as int,
                id,
            ),
        final(dag)@.nodes == with_ends(old(dag)@.nodes, entries@, entries@.len() as int),
        final(dag)@.edges == with_entries(old(dag)@.edges, entries@, entries@.len() as int),
        frontier@ == new_archives(old(dag)@.nodes, entries@, entries@.len() as int),
        final(dag)@.nodes.len() >= old(dag)@.nodes.len(),
        frontier@.len() > 0 ==> final(dag)@.nodes.len() > old(dag)@.nodes.len(),
        frontier@.no_duplicates(),
        forall|id: i64|
            #![trigger frontier@.contains(id)]
            #![trigger is_archive_in(entries@, entries@.len() as int, id)]
            frontier@.contains(id) <==> !old(dag)@.contains(id) && is_archive_in(
                entries@,
                entries@.len() as int,
                id,
            ),
{
    let ghost before = dag@;
    let mut frontier: Vec<i64> = Vec::new();
    let mut fresh: Vec<i64> = Vec::new();
    let mut i: usize = 0;
    while i < entries.len()
        invariant
            i <= entries@.len(),
            dag.wf(),
            before == old(dag)@,
            forall|id: i64|
                #![trigger dag@.contains(id)]
                #![trigger named_by(entries@, i as int, id)]
                dag@.contains(id) <==> before.contains(id) || named_by(entries@, i as int, id),
            dag@.nodes == with_ends(before.nodes, entries@, i as int),
            frontier@ == new_archives(before.nodes, entries@, i as int),
            dag@.edges == with_entries(before.edges, entries@, i as int),
            dag@.nodes.len() >= before.nodes.len(),
            fresh@.len() > 0 ==> dag@.nodes.len() > before.nodes.len(),
            forall|id: i64|
                #![trigger fresh@.contains(id)]
                #![trigger named_by(entries@, i as int, id)]
                fresh@.contains(id) <==> !before.contains(id) && named_by(entries@, i as int, id),
            frontier@.no_duplicates(),
            forall|id: i64|
                #![trigger frontier@.contains(id)]
                #![trigger is_archive_in(entries@, i as int, id)]
                frontier@.contains(id) <==> !before.contains(id) && is_archive_in(
                    entries@,
                    i as int,
                    id,
                ),
        decreases entries.len() - i,
    {
        let entry = &entries[i];
        let child = entry.file_id;
        let archive = entry.archive_id;
        let ghost step0 = dag@;
        let ghost front0 = frontier@;
        let ghost fresh0 = fresh@;
        if !dag.contains(&child) {
            fresh.push(child);
        }
        let ghost fresh1 = fresh@;
        dag.add(&child);
        let ghost step1 = dag@;
        if !dag.contains(&archive) {
            fresh.push(archive);
        }
        dag.add(&archive);
        let ghost step2 = dag@;
        let edge = match entry.archive_type {
            Archive::SevenZip => DagEdge::SZ(entry.file_path.clone()),
            Archive::VP => DagEdge::VP(entry.file_path.clone()),
        };
        proof {
            lemma_added(step0, step1, child);
            lemma_added(step1, step2, archive);
            lemma_pushed(fresh0, fresh1, child, !step0.contains(child));
            lemma_pushed(fresh1, fresh@, archive, !step1.contains(archive));
        }
        let linked = dag.add_relationship(&child, &archive, edge);
        assert(linked is Ok);
        let wanted = holds(&fresh, archive) && !holds(&frontier, archive);
        if wanted {
            frontier.push(archive);
        }
        proof {
            lemma_pushed(front0, frontier@, archive, wanted);
            assert forall|id: i64| named_by(entries@, i + 1, id) <==> named_by(
                entries@,
                i as int,
                id,
            ) || id == child || id == archive by {
                if named_by(entries@, i + 1, id) {
                    let k = choose|k: int|
                        0 <= k < i + 1 && ((#[trigger] entries@[k]).file_id == id
                            || entries@[k].archive_id == id);
                    if k < i {
                        assert(named_by(entries@, i as int, id));
                    }
                }
                if named_by(entries@, i as int, id) {
                    let k = choose|k: int|
                        0 <= k < i && ((#[trigger] entries@[k]).file_id == id
                            || entries@[k].archive_id == id);
                    assert(0 <= k < i + 1);
                }
                if id == child || id == archive {
                    assert(entries@[i as int].file_id == id || entries@[i as int].archive_id == id);
                }
            }
            assert forall|id: i64| is_archive_in(entries@, i + 1, id) <==> is_archive_in(
                entries@,
                i as int,
                id,
            ) || id == archive by {
                if is_archive_in(entries@, i + 1, id) {
                    let k = choose|k: int| 0 <= k < i + 1 && (#[trigger] entries@[k]).archive_id == id;
                    if k < i {
                        assert(is_archive_in(entries@, i as int, id));
                    }
                }
                if is_archive_in(entries@, i as int, id) {
                    let k = choose|k: int| 0 <= k < i && (#[trigger] entries@[k]).archive_id == id;
                    assert(0 <= k < i + 1);
                }
                if id == archive {
                    assert(entries@[i as int].archive_id == id);
                }
            }
            assert(dag@.nodes == step2.nodes);
            assert forall|id: i64|
                #![trigger dag@.contains(id)]
                #![trigger named_by(entries@, i + 1, id)]
                dag@.contains(id) <==> before.contains(id) || named_by(entries@, i + 1, id) by {
                assert(dag@.contains(id) <==> step2.contains(id));
                assert(step2.contains(id) <==> step1.contains(id) || id == archive);
                assert(step1.contains(id) <==> step0.contains(id) || id == child);
                assert(step0.contains(id) <==> before.contains(id) || named_by(
                    entries@,
                    i as int,
                    id,
                ));
                assert(named_by(entries@, i + 1, id) <==> named_by(entries@, i as int, id) || id
                    == child || id == archive);
            }
            assert forall|id: i64| fresh@.contains(id) <==> !before.contains(id) && named_by(
                entries@,
                i + 1,
                id,
            ) by {
                assert(fresh@.contains(id) <==> fresh1.contains(id) || (!step1.contains(archive)
                    && id == archive));
                assert(fresh1.contains(id) <==> fresh0.contains(id) || (!step0.contains(child)
                    && id == child));
                assert(fresh0.contains(id) <==> !before.contains(id) && named_by(
                    entries@,
                    i as int,
                    id,
                ));
                assert(named_by(entries@, i + 1, id) <==> named_by(entries@, i as int, id) || id
                    == child || id == archive);
                assert(step1.contains(archive) <==> step0.contains(archive) || archive == child);
                assert(step0.contains(archive) <==> before.contains(archive) || named_by(
                    entries@,
                    i as int,
                    archive,
                ));
                assert(step0.contains(child) <==> before.contains(child) || named_by(
                    entries@,
                    i as int,
                    child,
                ));
            }
            assert forall|id: i64| frontier@.contains(id) <==> !before.contains(id)
                && is_archive_in(entries@, i + 1, id) by {
                assert(frontier@.contains(id) <==> front0.contains(id) || (wanted && id == archive));
                assert(front0.contains(id) <==> !before.contains(id) && is_archive_in(
                    entries@,
                    i as int,
                    id,
                ));
                assert(is_archive_in(entries@, i + 1, id) <==> is_archive_in(entries@, i as int, id)
                    || id == archive);
                assert(fresh@.contains(archive) <==> !before.contains(archive) && named_by(
                    entries@,
                    i + 1,
                    archive,
                ));
                assert(named_by(entries@, i + 1, archive));
                assert(front0.contains(archive) <==> !before.contains(archive) && is_archive_in(
                    entries@,
                    i as int,
                    archive,
                ));
            }
        }
        i = i + 1;
    }
    proof {
        if frontier@.len() > 0 {
            let a = frontier@[0];
            assert(frontier@.contains(a));
            let k = choose|k: int|
                0 <= k < entries@.len() && (#[trigger] entries@[k]).archive_id == a;
            assert(named_by(entries@, entries@.len() as int, a));
            assert(fresh@.contains(a));
        }
    }
    frontier
}

/// After `x` is pushed where `push` holds, the list holds what it held
/// before, and `x` where it was pushed.
pub proof fn lemma_pushed(before: Seq<i64>, after: Seq<i64>, x: i64, push: bool)
    requires
        push ==> after == before.push(x),
        !push ==> after == before,
    ensures
        forall|y: i64| after.contains(y) <==> before.contains(y) || (push && y == x),
        before.no_duplicates() && !before.contains(x) ==> after.no_duplicates(),
{
    assert forall|y: i64| after.contains(y) <==> before.contains(y) || (push && y == x) by {
        if push {
            if before.contains(y) {
                let j = choose|j: int| 0 <= j < before.len() && before[j] == y;
                assert(after[j] == y);
            }
            if y == x {
                assert(after[before.len() as int] == x);
            }
        }
    }
}

/// After `id` is added, the graph holds what it held before, and `id`.
proof fn lemma_added(before: DagView, after: DagView, id: i64)
    requires
        before.contains(id) ==> after.nodes == before.nodes,
        !before.contains(id) ==> after.nodes == before.nodes.push(id),
    ensures
        forall|x: i64| after.contains(x) <==> before.contains(x) || x == id,
{
    assert forall|x: i64| after.contains(x) <==> before.contains(x) || x == id by {
        if !before.contains(id) {
            if before.contains(x) {
                let j = choose|j: int| 0 <= j < before.nodes.len() && before.nodes[j] == x;
                assert(after.nodes[j] == x);
            }
            if x == id {
                assert(after.nodes[before.nodes.len() as int] == id);
            }
        }
    }
}

/// Blob `b` is `top` itself or sits inside it, directly or through other
/// archives.
pub open spec fn holds_blob(view: DagView, top: i64, b: i64) -> bool {
    top == b || view.is_descendant(top, b)
}

/// One of the first `n` sources is on this machine and holds blob `b`.
pub open spec fn available_in(view: DagView, sources: Seq<Source>, n: int, b: i64) -> bool {
    exists|k: int|
        0 <= k < n && (#[trigger] sources[k]).location.spec_is_local() && holds_blob(
            view,
            sources[k].h_id,
            b,
        )
}

/// Blob `b` can be read on this machine: a local source delivers it or an
/// archive that it sits inside.
pub open spec fn available(view: DagView, sources: Seq<Source>, b: i64) -> bool {
    available_in(view, sources, sources.len() as int, b)
}

/// The blobs among the first `n` required that cannot be read on this
/// machine, each once, in the order in which they are required.
pub open spec fn unread(view: DagView, sources: Seq<Source>, hids: Seq<i64>, n: int) -> Seq<i64>
    decreases n,
{
    if n <= 0 {
        Seq::empty()
    } else {
        let before = unread(view, sources, hids, n - 1);
        if !available(view, sources, hids[n - 1]) && !before.contains(hids[n - 1]) {
            before.push(hids[n - 1])
        } else {
            before
        }
    }
}

/// The blob `top` and every blob inside it.
fn blobs_held(dag: &HashDAG, top: i64) -> (held: Vec<i64>)
    requires
        dag.wf(),
    ensures
        forall|b: i64| held@.contains(b) <==> holds_blob(dag@, top, b),
{
    let mut held = match dag.descendants(&top) {
        Some(list) => list,
        None => {
            proof {
                dag.lemma_wf_view();
                assert forall|b: i64| !dag@.is_descendant(top, b) by {
                    if dag@.is_descendant(top, b) {
                        let p = choose|p: Seq<i64>| #[trigger] dag@.is_path_between(p, top, b);
                        assert(dag@.has_edge(p[0int + 1], p[0]));
                    }
                }
            }
            Vec::new()
        },
    };
    let ghost inside = held@;
    held.push(top);
    proof {
        lemma_pushed(inside, held@, top, true);
    }
    held
}

/// The blob `bottom` and every archive that holds it.
fn blobs_holding(dag: &HashDAG, bottom: i64) -> (holding: Vec<i64>)
    requires
        dag.wf(),
    ensures
        forall|a: i64| holding@.contains(a) <==> holds_blob(dag@, a, bottom),
{
    let mut holding = match dag.ancestors(&bottom) {
        Some(list) => list,
        None => {
            proof {
                dag.lemma_wf_view();
                assert forall|a: i64| !dag@.is_descendant(a, bottom) by {
                    if dag@.is_descendant(a, bottom) {
                        let p = choose|p: Seq<i64>| #[trigger] dag@.is_path_between(p, a, bottom);
                        assert(dag@.has_edge(p[(p.len() - 2) + 1], p[p.len() - 2]));
                    }
                }
            }
            Vec::new()
        },
    };
    let ghost above = holding@;
    holding.push(bottom);
    proof {
        lemma_pushed(above, holding@, bottom, true);
    }
    holding
}

/// The required blobs that cannot be read on this machine, each once, in
/// the order in which they are required.
///
/// `sources` are the sources that the catalog knows for the nodes of the
/// graph. A blob can be read where a local source delivers it or an
/// archive that it sits inside.
pub fn calculate_missing(hids: &Vec<i64>, dag: &HashDAG, sources: &Vec<Source>) -> (missing: Vec<i64>)
    requires
        dag.wf(),
    ensures
        missing@ == unread(dag@, sources@, hids@, hids@.len() as int),
        missing@.no_duplicates(),
        forall|b: i64|
            #![trigger missing@.contains(b)]
            missing@.contains(b) <==> hids@.contains(b) && !available(dag@, sources@, b),
{
    let mut local: Vec<i64> = Vec::new();
    let mut i: usize = 0;
    while i < sources.len()
        invariant
            i <= sources@.len(),
            dag.wf(),
            forall|b: i64|
                #![trigger local@.contains(b)]
                #![trigger available_in(dag@, sources@, i as int, b)]
                local@.contains(b) <==> available_in(dag@, sources@, i as int, b),
        decreases sources.len() - i,
    {
        let ghost local0 = local@;
        if sources[i].location.is_local() {
            let mut held = blobs_held(dag, sources[i].h_id);
            let ghost held0 = held@;
            local.append(&mut held);
            assert(local@ == local0 + held0);
            assert forall|b: i64| local@.contains(b) <==> local0.contains(b) || held0.contains(b) by {
                if local0.contains(b) {
                    let j = choose|j: int| 0 <= j < local0.len() && local0[j] == b;
                    assert(local@[j] == b);
                }
                if held0.contains(b) {
                    let j = choose|j: int| 0 <= j < held0.len() && held0[j] == b;
                    assert(local@[local0.len() + j] == b);
                }
            }
        }
        proof {
            let s = sources@[i as int];
            assert forall|b: i64|
                #![trigger local@.contains(b)]
                #![trigger available_in(dag@, sources@, i + 1, b)]
                local@.contains(b) <==> available_in(dag@, sources@, i + 1, b) by {
                assert(local0.contains(b) <==> available_in(dag@, sources@, i as int, b));
                if available_in(dag@, sources@, i as int, b) {
                    let k = choose|k: int|
                        0 <= k < i && (#[trigger] sources@[k]).location.spec_is_local()
                            && holds_blob(dag@, sources@[k].h_id, b);
                    assert(0 <= k < i + 1);
                }
                if available_in(dag@, sources@, i + 1, b) {
                    let k = choose|k: int|
                        0 <= k < i + 1 && (#[trigger] sources@[k]).location.spec_is_local()
                            && holds_blob(dag@, sources@[k].h_id, b);
                    if k < i {
                        assert(available_in(dag@, sources@, i as int, b));
                    }
                }
                if s.location.spec_is_local() && holds_blob(dag@, s.h_id, b) {
                    assert(sources@[i as int].location.spec_is_local());
                }
            }
        }
        i = i + 1;
    }
    let mut missing: Vec<i64> = Vec::new();
    let mut k: usize = 0;
    while k < hids.len()
        invariant
            k <= hids@.len(),
            forall|b: i64|
                #![trigger local@.contains(b)]
                local@.contains(b) <==> available(dag@, sources@, b),
            missing@ == unread(dag@, sources@, hids@, k as int),
            missing@.no_duplicates(),
            forall|b: i64|
                #![trigger missing@.contains(b)]
                missing@.contains(b) <==> hids@.take(k as int).contains(b) && !available(
                    dag@,
                    sources@,
                    b,
                ),
        decreases hids.len() - k,
    {
        let h = hids[k];
        let ghost missing0 = missing@;
        let wanted = !holds(&local, h) && !holds(&missing, h);
        assert(local@.contains(h) <==> available(dag@, sources@, h));
        if wanted {
            missing.push(h);
        }
        proof {
            lemma_pushed(missing0, missing@, h, wanted);
            assert(hids@.take(k + 1) =~= hids@.take(k as int).push(h));
            lemma_pushed(hids@.take(k as int), hids@.take(k + 1), h, true);
            assert forall|b: i64|
                #![trigger missing@.contains(b)]
                missing@.contains(b) <==> hids@.take(k + 1).contains(b) && !available(
                    dag@,
                    sources@,
                    b,
                ) by {
                assert(missing0.contains(b) <==> hids@.take(k as int).contains(b) && !available(
                    dag@,
                    sources@,
                    b,
                ));
                assert(local@.contains(h) <==> available(dag@, sources@, h));
            }
        }
        k = k + 1;
    }
    assert(hids@.take(hids@.len() as int) == hids@);
    missing
}

/// `a` is one of the first `n` missing blobs or an archive that holds one.
pub open spec fn is_candidate_blob(view: DagView, missing: Seq<i64>, n: int, a: i64) -> bool {
    exists|k: int| 0 <= k < n && holds_blob(view, a, #[trigger] missing[k])
}

/// The blobs whose sources can deliver something that is missing: the
/// missing blobs themselves and every archive that holds one, each once.
pub fn candidate_blobs(missing: &Vec<i64>, dag: &HashDAG) -> (blobs: Vec<i64>)
    requires
        dag.wf(),
    ensures
        blobs@.no_duplicates(),
        forall|a: i64|
            #![trigger blobs@.contains(a)]
            blobs@.contains(a) <==> is_candidate_blob(dag@, missing@, missing@.len() as int, a),
{
    let mut blobs: Vec<i64> = Vec::new();
    let mut i: usize = 0;
    while i < missing.len()
        invariant
            i <= missing@.len(),
            dag.wf(),
            blobs@.no_duplicates(),
            forall|a: i64|
                #![trigger blobs@.contains(a)]
                #![trigger is_candidate_blob(dag@, missing@, i as int, a)]
                blobs@.contains(a) <==> is_candidate_blob(dag@, missing@, i as int, a),
        decreases missing.len() - i,
    {
        let m = missing[i];
        let holding = blobs_holding(dag, m);
        let ghost blobs0 = blobs@;
        let mut k: usize = 0;
        while k < holding.len()
            invariant
                k <= holding@.len(),
                blobs@.no_duplicates(),
                forall|a: i64|
                    #![trigger blobs@.contains(a)]
                    blobs@.contains(a) <==> blobs0.contains(a) || holding@.take(k as int).contains(
                        a,
                    ),
            decreases holding.len() - k,
        {
            let a = holding[k];
            let ghost blobs1 = blobs@;
            let wanted = !holds(&blobs, a);
            if wanted {
                blobs.push(a);
            }
            proof {
                lemma_pushed(blobs1, blobs@, a, wanted);
                assert(holding@.take(k + 1) =~= holding@.take(k as int).push(a));
                lemma_pushed(holding@.take(k as int), holding@.take(k + 1), a, true);
            }
            k = k + 1;
        }
        proof {
            assert(holding@.take(holding@.len() as int) == holding@);
            assert forall|a: i64|
                #![trigger blobs@.contains(a)]
                #![trigger is_candidate_blob(dag@, missing@, i + 1, a)]
                blobs@.contains(a) <==> is_candidate_blob(dag@, missing@, i + 1, a) by {
                assert(blobs0.contains(a) <==> is_candidate_blob(dag@, missing@, i as int, a));
                assert(holding@.contains(a) <==> holds_blob(dag@, a, m));
                if is_candidate_blob(dag@, missing@, i as int, a) {
                    let j = choose|j: int| 0 <= j < i && holds_blob(dag@, a, #[trigger] missing@[j]);
                    assert(0 <= j < i + 1);
                }
                if is_candidate_blob(dag@, missing@, i + 1, a) {
                    let j = choose|j: int|
                        0 <= j < i + 1 && holds_blob(dag@, a, #[trigger] missing@[j]);
                    if j < i {
                        assert(is_candidate_blob(dag@, missing@, i as int, a));
                    }
                }
                if holds_blob(dag@, a, m) {
                    assert(holds_blob(dag@, a, missing@[i as int]));
                }
            }
        }
        i = i + 1;
    }
    blobs
}

/// `s` names the same place for the same blob as one of `excluded`.
pub open spec fn is_excluded(excluded: Seq<Source>, s: Source) -> bool {
    exists|k: int| 0 <= k < excluded.len() && s.same_key(&#[trigger] excluded[k])
}

/// `s` can be fetched from: it is remote and has not been excluded.
pub open spec fn usable(excluded: Seq<Source>, s: Source) -> bool {
    !s.location.spec_is_local() && !is_excluded(excluded, s)
}

/// The sources among the first `n` that can be fetched from, in order.
pub open spec fn usable_sources(sources: Seq<Source>, excluded: Seq<Source>, n: int) -> Seq<Source>
    decreases n,
{
    if n <= 0 {
        Seq::empty()
    } else if usable(excluded, sources[n - 1]) {
        usable_sources(sources, excluded, n - 1).push(sources[n - 1])
    } else {
        usable_sources(sources, excluded, n - 1)
    }
}

/// The missing blobs that fetching `s` delivers: the blob of `s` and what
/// sits inside it, as far as it is missing.
pub open spec fn delivers(view: DagView, missing: Seq<i64>, s: Source) -> Set<i64> {
    Set::new(|b: i64| missing.contains(b) && holds_blob(view, s.h_id, b))
}

/// What the solver weighs of each of `cands`.
pub open spec fn offers_for(view: DagView, missing: Seq<i64>, cands: Seq<Source>) -> Seq<Offer> {
    Seq::new(
        cands.len(),
        |i: int| Offer { size: cands[i].size as int, covers: delivers(view, missing, cands[i]) },
    )
}

/// Whether `s` names the same place for the same blob as one of
/// `excluded`.
fn excluded_holds(excluded: &Vec<Source>, s: &Source) -> (found: bool)
    ensures
        found == is_excluded(excluded@, *s),
{
    let mut k: usize = 0;
    while k < excluded.len()
        invariant
            k <= excluded@.len(),
            forall|j: int| 0 <= j < k ==> !s.same_key(&#[trigger] excluded@[j]),
        decreases excluded.len() - k,
    {
        let e = &excluded[k];
        if s.location.preference() == e.location.preference() && s.path == e.path && s.h_id
            == e.h_id {
            assert(s.same_key(&excluded@[k as int]));
            return true;
        }
        k = k + 1;
    }
    false
}

/// The sources that can be fetched from, each with the missing blobs that
/// it delivers.
fn build_candidates(
    missing: &Vec<i64>,
    dag: &HashDAG,
    sources: &Vec<Source>,
    excluded: &Vec<Source>,
) -> (cands: Vec<Candidate>)
    requires
        dag.wf(),
    ensures
        sources_of(cands@) == usable_sources(sources@, excluded@, sources@.len() as int),
        offers_of(cands@) == offers_for(dag@, missing@, sources_of(cands@)),
{
    let mut cands: Vec<Candidate> = Vec::new();
    let mut i: usize = 0;
    while i < sources.len()
        invariant
            i <= sources@.len(),
            dag.wf(),
            sources_of(cands@) == usable_sources(sources@, excluded@, i as int),
            offers_of(cands@) == offers_for(dag@, missing@, sources_of(cands@)),
        decreases sources.len() - i,
    {
        let s = &sources[i];
        if !s.location.is_local() && !excluded_holds(excluded, s) {
            let held = blobs_held(dag, s.h_id);
            let mut covered: Vec<i64> = Vec::new();
            let mut k: usize = 0;
            while k < missing.len()
                invariant
                    k <= missing@.len(),
                    forall|b: i64|
                        #![trigger covered@.contains(b)]
                        covered@.contains(b) <==> missing@.take(k as int).contains(b)
                            && held@.contains(b),
                decreases missing.len() - k,
            {
                let m = missing[k];
                let ghost covered0 = covered@;
                let wanted = holds(&held, m);
                if wanted {
                    covered.push(m);
                }
                proof {
                    lemma_pushed(covered0, covered@, m, wanted);
                    assert(missing@.take(k + 1) =~= missing@.take(k as int).push(m));
                    lemma_pushed(missing@.take(k as int), missing@.take(k + 1), m, true);
                }
                k = k + 1;
            }
            let ghost cands0 = cands@;
            proof {
                assert(missing@.take(missing@.len() as int) == missing@);
                assert(covered@.to_set() =~= delivers(dag@, missing@, *s));
            }
            cands.push((s.clone(), covered));
            proof {
                assert(sources_of(cands@) =~= sources_of(cands0).push(*s));
                assert(offers_of(cands@) =~= offers_for(dag@, missing@, sources_of(cands@))) by {
                    assert forall|j: int| 0 <= j < cands@.len() implies offers_of(cands@)[j]
                        == offers_for(dag@, missing@, sources_of(cands@))[j] by {
                        if j < cands0.len() {
                            assert(offers_of(cands0)[j] == offers_for(
                                dag@,
                                missing@,
                                sources_of(cands0),
                            )[j]);
                        }
                    }
                }
            }
        }
        i = i + 1;
    }
    cands
}

/// Chooses the remote sources to fetch so that every missing blob
/// arrives and as few bytes as possible are transferred.
///
/// `sources` are the sources that the catalog knows for the candidate
/// blobs. Sources on this machine are left out, and so are the sources in
/// `excluded`: those that failed earlier in this session.
///
/// Fails with `UnsatisfiableCoverage` where the remote sources cannot
/// deliver everything even with none excluded, and with `NetworkFailure`
/// where only the excluded ones could.
pub fn calculate_fetches(
    missing: &Vec<i64>,
    dag: &HashDAG,
    sources: &Vec<Source>,
    excluded: &Vec<Source>,
) -> (res: Result<Vec<Source>, FileAcquisitionError>)
    requires
        dag.wf(),
        forall|k: int| 0 <= k < sources@.len() ==> (#[trigger] sources@[k]).size >= 0,
    ensures
        ({
            let cands = usable_sources(sources@, excluded@, sources@.len() as int);
            let offers = offers_for(dag@, missing@, cands);
            let every = usable_sources(sources@, Seq::empty(), sources@.len() as int);
            &&& res is Ok <==> coverable(offers, missing@)
            &&& res matches Ok(chosen) ==> exists|sel: Seq<bool>|
                #![trigger is_minimum_cover(offers, missing@, sel)]
                is_minimum_cover(offers, missing@, sel) && chosen@ == picked(
                    cands,
                    sel,
                    cands.len() as int,
                )
            &&& res matches Err(e) ==> if coverable(offers_for(dag@, missing@, every), missing@) {
                e matches FileAcquisitionError::NetworkFailure(why) && why@ == "Exhausted"@
            } else {
                e is UnsatisfiableCoverage
            }
        }),
{
    let cands = build_candidates(missing, dag, sources, excluded);
    proof {
        lemma_usable_sizes(sources@, excluded@, sources@.len() as int);
    }
    match solve_files(&cands, missing) {
        Ok(chosen) => Ok(chosen),
        Err(_) => {
            let nothing: Vec<Source> = Vec::new();
            let every = build_candidates(missing, dag, sources, &nothing);
            assert(nothing@ == Seq::<Source>::empty());
            if is_coverable(&every, missing) {
                Err(FileAcquisitionError::NetworkFailure("Exhausted".to_owned()))
            } else {
                Err(FileAcquisitionError::UnsatisfiableCoverage)
            }
        },
    }
}

/// The sources that can be fetched from are among the sources given, so
/// they declare sizes that are not negative where all of those do.
proof fn lemma_usable_sizes(sources: Seq<Source>, excluded: Seq<Source>, n: int)
    requires
        0 <= n <= sources.len(),
        forall|k: int| 0 <= k < sources.len() ==> (#[trigger] sources[k]).size >= 0,
    ensures
        forall|k: int|
            0 <= k < usable_sources(sources, excluded, n).len() ==> (#[trigger] usable_sources(
                sources,
                excluded,
                n,
            )[k]).size >= 0,
    decreases n,
{
    if n > 0 {
        lemma_usable_sizes(sources, excluded, n - 1);
    }
}

/// How many sources are fetched at once.
pub const PARALLEL_FETCHES: usize = 4;

/// What the planner does next.
#[derive(Debug, Clone, Copy, PartialEq, Eq, Structural)]
pub enum PlanStep {
    /// Something is missing: choose sources and fetch them.
    Fetch,
    /// Every required blob can be read on this machine: write the files.
    Materialize,
}

/// What the planner does once it knows what is missing. Files are written
/// only when nothing is missing.
pub fn next_step(missing: &Vec<i64>) -> (step: PlanStep)
    ensures
        step == PlanStep::Materialize <==> missing@.len() == 0,
{
    if missing.len() == 0 {
        PlanStep::Materialize
    } else {
        PlanStep::Fetch
    }
}

/// What a fetched source left on disk, and where.
#[derive(Debug, Clone)]
pub enum FetchResult {
    /// The directory that an archive was extracted to.
    Directory(String),
    /// The file that was fetched.
    File(String),
}

/// The directory that the release `name` in version `version` is
/// installed to: below `install_dir`, below the release's parent where it
/// has one, in `<name>/<name>-<version>`.
pub open spec fn spec_install_root(
    install_dir: Seq<char>,
    parent: Option<Seq<char>>,
    name: Seq<char>,
    version: Seq<char>,
) -> Seq<char> {
    let base = match parent {
        Some(p) => spec_join(install_dir, p),
        None => install_dir,
    };
    spec_join(spec_join(base, name), name + seq!['-'] + version)
}

/// The directory that a release is installed to.
pub fn install_root(install_dir: &str, parent: Option<&String>, name: &str, version: &str) -> (root:
    String)
    ensures
        root@ == spec_install_root(
            install_dir@,
            match parent {
                Some(p) => Some(p@),
                None => None,
            },
            name@,
            version@,
        ),
{
    let base = match parent {
        Some(p) => join_path(install_dir, p.as_str()),
        None => install_dir.to_owned(),
    };
    let below = join_path(base.as_str(), name);
    let mut leaf = name.to_owned();
    proof {
        reveal_strlit("-");
        assert("-"@ =~= seq!['-']);
    }
    vstd::string::StringExecFns::append(&mut leaf, "-");
    vstd::string::StringExecFns::append(&mut leaf, version);
    join_path(below.as_str(), leaf.as_str())
}

/// Where a file of a release lands: its path below the release's
/// directory.
pub fn install_path(root: &str, relative_path: &str) -> (path: String)
    ensures
        path@ == spec_join(root@, relative_path@),
{
    join_path(root, relative_path)
}

/// What fetching `source` to `save_loc` leaves to be indexed: for a 7-zip
/// archive the directory `extract` below `save_loc`, which the archive is
/// extracted to; for anything else the fetched file.
pub fn fetch_result(source: &Source, save_loc: &str) -> (res: FetchResult)
    ensures
        source.format == crate::common::SourceFormat::SevenZip ==> (
        res matches FetchResult::Directory(dir) && dir@ == spec_join(save_loc@, "extract"@)),
        source.format != crate::common::SourceFormat::SevenZip ==> (
        res matches FetchResult::File(file) && file@ == save_loc@),
{
    match source.format {
        crate::common::SourceFormat::SevenZip => FetchResult::Directory(
            join_path(save_loc, "extract"),
        ),
        _ => FetchResult::File(save_loc.to_owned()),
    }
}

} // verus!
