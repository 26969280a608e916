//! Planning an install against the catalog: what is missing on this
//! machine, and which remote sources to fetch for it.

use vstd::prelude::*;
use crate::catalog::{
    Catalog, CatalogView, lemma_distinct_in_range, lemma_parents_for, lemma_sources_for,
    sources_for,
};
use crate::common::{ArchiveEntry, File, Release, SHA256Checksum, Source};
use crate::fsnebula::structs::package_folder;
use crate::paths::{join_path, same_text, spec_join};
use crate::files::dag::{DagView, HashDAG};
use crate::files::solver::{Offer, coverable, is_minimum_cover, picked};
use crate::files::{
    DagEdge, FileAcquisitionError, ManifEntry, ManifIdent, PlanStep, absorb_parents, available, calculate_fetches,
    calculate_missing, candidate_blobs, edge_of, holds_blob, is_archive_in, is_candidate_blob,
    named_by, next_step, offers_for, start_dag, unread, usable_sources, with_entries,
};

verus! {

/// The graph holds the containment edges of the catalog that lead up from
/// its nodes, and no others.
pub open spec fn agrees(dag: DagView, view: CatalogView) -> bool {
    &&& forall|c: i64, p: i64| #[trigger] dag.has_edge(c, p) ==> view.sits_in(c, p)
    &&& forall|x: i64, p: i64| dag.contains(x) && #[trigger] view.sits_in(x, p) ==> dag.has_edge(x, p)
}

/// Every edge of the graph joins two of its nodes.
pub open spec fn joins_nodes(dag: DagView) -> bool {
    forall|c: i64, p: i64| #[trigger] dag.has_edge(c, p) ==> dag.contains(c) && dag.contains(p)
}

/// A chain of the catalog that ends at a node of the graph runs inside the
/// graph.
proof fn lemma_chain_in_dag(dag: DagView, view: CatalogView, p: Seq<i64>, k: int)
    requires
        agrees(dag, view),
        joins_nodes(dag),
        view.is_chain(p),
        dag.contains(p[p.len() - 1]),
        0 <= k < p.len(),
    ensures
        dag.contains(p[k]),
        k < p.len() - 1 ==> dag.has_edge(p[k + 1], p[k]),
    decreases p.len() - k,
{
    if k < p.len() - 1 {
        lemma_chain_in_dag(dag, view, p, k + 1);
        assert(view.sits_in(p[k + 1], p[k]));
        assert(dag.has_edge(p[k + 1], p[k]));
    }
}

/// For a node of the graph, sitting inside a blob means the same in the
/// graph and in the catalog.
pub proof fn lemma_holds_agree(dag: DagView, view: CatalogView, top: i64, b: i64)
    requires
        agrees(dag, view),
        joins_nodes(dag),
        dag.contains(b),
    ensures
        holds_blob(dag, top, b) <==> view.holds(top, b),
        view.holds(top, b) ==> dag.contains(top),
{
    if dag.is_descendant(top, b) {
        let p = choose|p: Seq<i64>| #[trigger] dag.is_path_between(p, top, b);
        assert forall|k: int| 0 <= k < p.len() - 1 implies view.sits_in(#[trigger] p[k + 1], p[k]) by {
            assert(dag.has_edge(p[k + 1], p[k]));
        }
        assert(view.is_chain_between(p, top, b));
    }
    if top != b && view.holds(top, b) {
        let p = choose|p: Seq<i64>| #[trigger] view.is_chain_between(p, top, b);
        assert forall|k: int| 0 <= k < p.len() - 1 implies dag.has_edge(#[trigger] p[k + 1], p[k]) by {
            lemma_chain_in_dag(dag, view, p, k);
        }
        lemma_chain_in_dag(dag, view, p, 0);
        assert(dag.is_path_between(p, top, b));
    }
}

/// The edges of a graph after entries were put into it are the edges it
/// had and those of the entries.
proof fn lemma_with_entries(edges: Map<(i64, i64), DagEdge>, entries: Seq<ArchiveEntry>, n: int)
    requires
        0 <= n <= entries.len(),
    ensures
        forall|c: i64, p: i64|
            #![trigger with_entries(edges, entries, n).contains_key((c, p))]
            with_entries(edges, entries, n).contains_key((c, p)) <==> edges.contains_key((c, p))
                || exists|k: int|
                0 <= k < n && (#[trigger] entries[k]).file_id == c && entries[k].archive_id == p,
    decreases n,
{
    if n > 0 {
        lemma_with_entries(edges, entries, n - 1);
        let before = with_entries(edges, entries, n - 1);
        let after = with_entries(edges, entries, n);
        assert forall|c: i64, p: i64|
            #![trigger after.contains_key((c, p))]
            after.contains_key((c, p)) <==> edges.contains_key((c, p)) || exists|k: int|
                0 <= k < n && (#[trigger] entries[k]).file_id == c && entries[k].archive_id == p by {
            if after.contains_key((c, p)) {
                if before.contains_key((c, p)) {
                    if !edges.contains_key((c, p)) {
                        let k = choose|k: int|
                            0 <= k < n - 1 && (#[trigger] entries[k]).file_id == c
                                && entries[k].archive_id == p;
                        assert(0 <= k < n);
                    }
                } else {
                    assert(entries[n - 1].file_id == c && entries[n - 1].archive_id == p);
                }
            }
            if exists|k: int|
                0 <= k < n && (#[trigger] entries[k]).file_id == c && entries[k].archive_id == p {
                let k = choose|k: int|
                    0 <= k < n && (#[trigger] entries[k]).file_id == c && entries[k].archive_id == p;
                if k < n - 1 {
                    assert(before.contains_key((c, p)));
                }
            }
        }
    }
}

/// Blob `x` is one of the required blobs or an archive that holds one of
/// them, directly or through other archives.
pub open spec fn reaches_required(view: CatalogView, hids: Seq<i64>, x: i64) -> bool {
    exists|i: int| 0 <= i < hids.len() && view.holds(x, #[trigger] hids[i])
}

/// `label` says how the catalog puts `c` into `p`: it is the label of an
/// edge of the catalog from `c` to `p`.
pub open spec fn labelled_by(view: CatalogView, c: i64, p: i64, label: DagEdge) -> bool {
    exists|k: int|
        0 <= k < view.entries.len() && (#[trigger] view.entries[k]).file_id == c
            && view.entries[k].archive_id == p && label == edge_of(view.entries[k])
}

/// Every edge of the catalog that leads up from a node of the graph is an
/// edge of the graph, labelled with the kind of the archive and the path
/// inside it.
pub open spec fn labels_agree(dag: DagView, view: CatalogView) -> bool {
    forall|k: int|
        0 <= k < view.entries.len() && dag.contains((#[trigger] view.entries[k]).file_id)
            ==> dag.has_edge(view.entries[k].file_id, view.entries[k].archive_id) && dag.edges[(
            view.entries[k].file_id,
            view.entries[k].archive_id,
        )] == edge_of(view.entries[k])
}

/// An archive that directly holds a blob holds everything that the blob
/// holds.
proof fn lemma_holds_one_up(view: CatalogView, top: i64, c: i64, b: i64)
    requires
        view.sits_in(c, top),
        view.holds(c, b),
    ensures
        view.holds(top, b),
{
    if c == b {
        let p = seq![top, b];
        assert forall|k: int| 0 <= k < p.len() - 1 implies view.sits_in(#[trigger] p[k + 1], p[k]) by {
            assert(p[0int + 1] == b && p[0] == top);
        }
        assert(view.is_chain_between(p, top, b));
    } else {
        let q = choose|q: Seq<i64>| #[trigger] view.is_chain_between(q, c, b);
        let p = seq![top] + q;
        assert forall|k: int| 0 <= k < p.len() - 1 implies view.sits_in(#[trigger] p[k + 1], p[k]) by {
            if k == 0 {
                assert(p[1] == q[0]);
            } else {
                assert(p[k + 1] == q[(k - 1) + 1] && p[k] == q[k - 1]);
                assert(view.sits_in(q[(k - 1) + 1], q[k - 1]));
            }
        }
        assert(p[p.len() - 1] == q[q.len() - 1]);
        assert(view.is_chain_between(p, top, b));
    }
}

/// The label of an edge of a graph after entries were put into it is the
/// label it had, or that of one of the entries.
proof fn lemma_with_entries_label(
    edges: Map<(i64, i64), DagEdge>,
    entries: Seq<ArchiveEntry>,
    n: int,
    c: i64,
    p: i64,
)
    requires
        0 <= n <= entries.len(),
        with_entries(edges, entries, n).contains_key((c, p)),
    ensures
        (edges.contains_key((c, p)) && with_entries(edges, entries, n)[(c, p)] == edges[(c, p)])
            || exists|k: int|
            0 <= k < n && (#[trigger] entries[k]).file_id == c && entries[k].archive_id == p
                && with_entries(edges, entries, n)[(c, p)] == edge_of(entries[k]),
    decreases n,
{
    if n > 0 {
        let last = entries[n - 1];
        if last.file_id == c && last.archive_id == p {
        } else {
            lemma_with_entries_label(edges, entries, n - 1, c, p);
            let before = with_entries(edges, entries, n - 1);
            if !(edges.contains_key((c, p)) && before[(c, p)] == edges[(c, p)]) {
                let k = choose|k: int|
                    0 <= k < n - 1 && (#[trigger] entries[k]).file_id == c && entries[k].archive_id
                        == p && before[(c, p)] == edge_of(entries[k]);
                assert(0 <= k < n);
            }
        }
    }
}

/// Walks up the catalog from the required blobs and builds the graph of
/// every archive that holds one of them: its nodes are the required blobs
/// and the archives that hold one of them, directly or through other
/// archives, and its edges are the edges of the catalog that lead up from
/// its nodes, each labelled with the kind of the archive and the path
/// inside it.
pub fn generate_dag(catalog: &Catalog, hids: &Vec<i64>) -> (dag: HashDAG)
    requires
        catalog@.valid(),
        forall|i: int| 0 <= i < hids@.len() ==> catalog@.has_blob(#[trigger] hids@[i]),
    ensures
        dag.wf(),
        agrees(dag@, catalog@),
        joins_nodes(dag@),
        forall|i: int| 0 <= i < hids@.len() ==> dag@.contains(#[trigger] hids@[i]),
        forall|x: i64| dag@.contains(x) ==> catalog@.has_blob(x),
        forall|x: i64| #[trigger] dag@.contains(x) <==> reaches_required(catalog@, hids@, x),
        labels_agree(dag@, catalog@),
{
    let ghost view = catalog@;
    let mut dag = start_dag(hids);
    let mut frontier: Vec<i64> = hids.clone();
    assert(frontier@ == hids@);
    proof {
        dag.lemma_wf_view();
        assert forall|x: i64| dag@.contains(x) implies view.has_blob(x) by {
            let i = choose|i: int| 0 <= i < hids@.len() && hids@[i] == x;
            assert(view.has_blob(hids@[i]));
        }
        assert forall|i: int| 0 <= i < dag@.nodes.len() implies 1 <= #[trigger] dag@.nodes[i]
            <= view.digests.len() by {
            assert(dag@.contains(dag@.nodes[i]));
        }
        lemma_distinct_in_range(dag@.nodes, view.digests.len() as int);
        assert forall|x: i64| #[trigger] dag@.contains(x) implies reaches_required(
            view,
            hids@,
            x,
        ) by {
            let i = choose|i: int| 0 <= i < hids@.len() && hids@[i] == x;
            assert(view.holds(x, hids@[i]));
        }
    }
    while frontier.len() > 0
        invariant
            view == catalog@,
            forall|x: i64| #[trigger] dag@.contains(x) ==> reaches_required(view, hids@, x),
            forall|c: i64, p: i64|
                #[trigger] dag@.has_edge(c, p) ==> labelled_by(view, c, p, dag@.edges[(c, p)]),
            view.valid(),
            dag.wf(),
            dag@.nodes.len() <= view.digests.len(),
            forall|i: int| 0 <= i < hids@.len() ==> dag@.contains(#[trigger] hids@[i]),
            forall|x: i64| #[trigger] dag@.contains(x) ==> view.has_blob(x),
            forall|x: i64| #[trigger] frontier@.contains(x) ==> dag@.contains(x),
            forall|c: i64, p: i64| #[trigger] dag@.has_edge(c, p) ==> view.sits_in(c, p),
            forall|x: i64, p: i64|
                dag@.contains(x) && !frontier@.contains(x) && #[trigger] view.sits_in(x, p)
                    ==> dag@.has_edge(x, p),
        decreases view.digests.len() - dag@.nodes.len(), frontier@.len(),
    {
        let ghost old_dag = dag@;
        let ghost old_frontier = frontier@;
        let parents = catalog.get_parents_from_ids(&frontier);
        proof {
            lemma_parents_for(view.entries, old_frontier, view.entries.len() as int);
            lemma_with_entries(old_dag.edges, parents@, parents@.len() as int);
        }
        let next = absorb_parents(&mut dag, &parents);
        proof {
            dag.lemma_wf_view();
            assert forall|k: int| 0 <= k < parents@.len() implies view.entries.contains(
                #[trigger] parents@[k],
            ) && old_frontier.contains(parents@[k].file_id) by {
                assert(parents@.contains(parents@[k]));
            }
            assert forall|x: i64| #[trigger] dag@.contains(x) implies view.has_blob(x) by {
                if !old_dag.contains(x) {
                    assert(named_by(parents@, parents@.len() as int, x));
                    let k = choose|k: int|
                        0 <= k < parents@.len() && ((#[trigger] parents@[k]).file_id == x
                            || parents@[k].archive_id == x);
                    assert(view.entries.contains(parents@[k]));
                    let j = choose|j: int| 0 <= j < view.entries.len() && view.entries[j] == parents@[k];
                    assert(view.has_blob(view.entries[j].file_id));
                }
            }
            assert forall|i: int| 0 <= i < dag@.nodes.len() implies 1 <= #[trigger] dag@.nodes[i]
                <= view.digests.len() by {
                assert(dag@.contains(dag@.nodes[i]));
                assert(view.has_blob(dag@.nodes[i]));
            }
            lemma_distinct_in_range(dag@.nodes, view.digests.len() as int);
            assert forall|x: i64| next@.contains(x) implies dag@.contains(x) by {
                assert(is_archive_in(parents@, parents@.len() as int, x));
                let k = choose|k: int|
                    0 <= k < parents@.len() && (#[trigger] parents@[k]).archive_id == x;
                assert(named_by(parents@, parents@.len() as int, x));
            }
            assert forall|c: i64, p: i64| #[trigger] dag@.has_edge(c, p) implies view.sits_in(
                c,
                p,
            ) by {
                if !old_dag.has_edge(c, p) {
                    let k = choose|k: int|
                        0 <= k < parents@.len() && (#[trigger] parents@[k]).file_id == c
                            && parents@[k].archive_id == p;
                    assert(view.entries.contains(parents@[k]));
                    let j = choose|j: int| 0 <= j < view.entries.len() && view.entries[j] == parents@[k];
                    assert(view.entries[j].file_id == c && view.entries[j].archive_id == p);
                }
            }
            assert forall|x: i64, p: i64|
                dag@.contains(x) && !next@.contains(x) && #[trigger] view.sits_in(
                    x,
                    p,
                ) implies dag@.has_edge(x, p) by {
                if old_dag.contains(x) {
                    if old_frontier.contains(x) {
                        let j = choose|j: int|
                            0 <= j < view.entries.len() && (#[trigger] view.entries[j]).file_id == x
                                && view.entries[j].archive_id == p;
                        let e = view.entries[j];
                        assert(parents@.contains(e));
                        let k = choose|k: int| 0 <= k < parents@.len() && parents@[k] == e;
                        assert(parents@[k].file_id == x && parents@[k].archive_id == p);
                    } else {
                        assert(old_dag.has_edge(x, p));
                    }
                } else {
                    assert(named_by(parents@, parents@.len() as int, x));
                    let k = choose|k: int|
                        0 <= k < parents@.len() && ((#[trigger] parents@[k]).file_id == x
                            || parents@[k].archive_id == x);
                    if parents@[k].file_id == x {
                        assert(old_frontier.contains(x));
                    } else {
                        assert(is_archive_in(parents@, parents@.len() as int, x));
                    }
                }
            }
            assert forall|i: int| 0 <= i < hids@.len() implies dag@.contains(#[trigger] hids@[i]) by {
                assert(old_dag.contains(hids@[i]));
            }
            assert forall|x: i64| #[trigger] dag@.contains(x) implies reaches_required(
                view,
                hids@,
                x,
            ) by {
                if !old_dag.contains(x) {
                    assert(named_by(parents@, parents@.len() as int, x));
                    let k = choose|k: int|
                        0 <= k < parents@.len() && ((#[trigger] parents@[k]).file_id == x
                            || parents@[k].archive_id == x);
                    let c = parents@[k].file_id;
                    assert(old_frontier.contains(c));
                    assert(old_dag.contains(c));
                    if x != c {
                        assert(view.entries.contains(parents@[k]));
                        let j = choose|j: int|
                            0 <= j < view.entries.len() && view.entries[j] == parents@[k];
                        assert(view.entries[j].file_id == c && view.entries[j].archive_id == x);
                        assert(view.sits_in(c, x));
                        assert(reaches_required(view, hids@, c));
                        let i = choose|i: int|
                            0 <= i < hids@.len() && view.holds(c, #[trigger] hids@[i]);
                        lemma_holds_one_up(view, x, c, hids@[i]);
                    }
                }
            }
            assert forall|c: i64, p: i64| #[trigger] dag@.has_edge(c, p) implies labelled_by(
                view,
                c,
                p,
                dag@.edges[(c, p)],
            ) by {
                lemma_with_entries_label(old_dag.edges, parents@, parents@.len() as int, c, p);
                if old_dag.edges.contains_key((c, p)) && dag@.edges[(c, p)] == old_dag.edges[(
                    c,
                    p,
                )] {
                    assert(old_dag.has_edge(c, p));
                } else {
                    let k = choose|k: int|
                        0 <= k < parents@.len() && (#[trigger] parents@[k]).file_id == c
                            && parents@[k].archive_id == p && dag@.edges[(c, p)] == edge_of(
                            parents@[k],
                        );
                    assert(view.entries.contains(parents@[k]));
                    let j = choose|j: int|
                        0 <= j < view.entries.len() && view.entries[j] == parents@[k];
                    assert(view.entries[j].file_id == c);
                }
            }
        }
        frontier = next;
    }
    proof {
        dag.lemma_wf_view();
        assert forall|x: i64, p: i64| dag@.contains(x) && #[trigger] view.sits_in(
            x,
            p,
        ) implies dag@.has_edge(x, p) by {
            assert(!frontier@.contains(x));
        }
        assert(agrees(dag@, view));
        assert(joins_nodes(dag@)) by {
            dag.lemma_wf_view();
        }
        assert forall|x: i64| reaches_required(view, hids@, x) implies #[trigger] dag@.contains(
            x,
        ) by {
            let i = choose|i: int| 0 <= i < hids@.len() && view.holds(x, #[trigger] hids@[i]);
            assert(dag@.contains(hids@[i]));
            lemma_holds_agree(dag@, view, x, hids@[i]);
        }
        assert forall|k: int|
            0 <= k < view.entries.len() && dag@.contains(
                (#[trigger] view.entries[k]).file_id,
            ) implies dag@.has_edge(view.entries[k].file_id, view.entries[k].archive_id)
            && dag@.edges[(view.entries[k].file_id, view.entries[k].archive_id)] == edge_of(
            view.entries[k],
        ) by {
            let e = view.entries[k];
            assert(view.sits_in(e.file_id, e.archive_id));
            assert(dag@.has_edge(e.file_id, e.archive_id));
            assert(labelled_by(view, e.file_id, e.archive_id, dag@.edges[(e.file_id, e.archive_id)]));
            let j = choose|j: int|
                0 <= j < view.entries.len() && (#[trigger] view.entries[j]).file_id == e.file_id
                    && view.entries[j].archive_id == e.archive_id && dag@.edges[(
                    e.file_id,
                    e.archive_id,
                )] == edge_of(view.entries[j]);
            if j < k {
                assert(!crate::catalog::same_edge(view.entries[j], view.entries[k]));
            } else if k < j {
                assert(!crate::catalog::same_edge(view.entries[k], view.entries[j]));
            }
        }
    }
    dag
}

/// What an install needs next.
#[derive(Debug)]
pub enum Plan {
    /// Every required blob can be read on this machine: write the files.
    Materialize,
    /// These blobs are missing; fetch these sources for them.
    Fetch { missing: Vec<i64>, sources: Vec<Source> },
}

/// The catalog knows every one of `digests`.
pub open spec fn all_known(view: CatalogView, digests: Seq<SHA256Checksum>) -> bool {
    forall|k: int| 0 <= k < digests.len() ==> view.digests.contains((#[trigger] digests[k])@)
}

/// The blob IDs of `digests`, in order.
pub open spec fn required_ids(view: CatalogView, digests: Seq<SHA256Checksum>) -> Seq<i64> {
    Seq::new(digests.len(), |k: int| view.blob_id(digests[k]@))
}

/// The blobs among the first `n` required that cannot be read on this
/// machine, each once, in the order in which they are required.
pub open spec fn missing_list(view: CatalogView, hids: Seq<i64>, n: int) -> Seq<i64>
    decreases n,
{
    if n <= 0 {
        Seq::empty()
    } else {
        let before = missing_list(view, hids, n - 1);
        if !view.readable(hids[n - 1]) && !before.contains(hids[n - 1]) {
            before.push(hids[n - 1])
        } else {
            before
        }
    }
}

/// Fetching from `s` delivers one of the missing blobs.
pub open spec fn relevant(view: CatalogView, missing: Seq<i64>, s: Source) -> bool {
    exists|j: int| 0 <= j < missing.len() && view.holds(s.h_id, #[trigger] missing[j])
}

/// The sources among the first `n` of the catalog that deliver one of the
/// missing blobs, in the order in which they were recorded.
pub open spec fn relevant_sources(view: CatalogView, missing: Seq<i64>, n: int) -> Seq<Source>
    decreases n,
{
    if n <= 0 {
        Seq::empty()
    } else if relevant(view, missing, view.sources[n - 1]) {
        relevant_sources(view, missing, n - 1).push(view.sources[n - 1])
    } else {
        relevant_sources(view, missing, n - 1)
    }
}

/// The sources that an install can fetch from: the recorded sources that
/// deliver something missing, are remote and have not been excluded.
pub open spec fn fetch_candidates(view: CatalogView, missing: Seq<i64>, excluded: Seq<Source>) -> Seq<
    Source,
> {
    let all = relevant_sources(view, missing, view.sources.len() as int);
    usable_sources(all, excluded, all.len() as int)
}

/// What the solver weighs of each of `cands`: its size, and the missing
/// blobs that it delivers according to the catalog.
pub open spec fn catalog_offers(view: CatalogView, missing: Seq<i64>, cands: Seq<Source>) -> Seq<Offer> {
    Seq::new(
        cands.len(),
        |i: int|
            Offer {
                size: cands[i].size as int,
                covers: Set::new(|b: i64| missing.contains(b) && view.holds(cands[i].h_id, b)),
            },
    )
}

/// The list of what is missing holds each required blob that cannot be
/// read, once.
proof fn lemma_missing_list(view: CatalogView, hids: Seq<i64>, n: int)
    requires
        0 <= n <= hids.len(),
    ensures
        missing_list(view, hids, n).no_duplicates(),
        forall|b: i64|
            #![trigger missing_list(view, hids, n).contains(b)]
            missing_list(view, hids, n).contains(b) <==> hids.take(n).contains(b) && !view.readable(
                b,
            ),
    decreases n,
{
    if n > 0 {
        lemma_missing_list(view, hids, n - 1);
        let before = missing_list(view, hids, n - 1);
        let after = missing_list(view, hids, n);
        let h = hids[n - 1];
        assert(hids.take(n) =~= hids.take(n - 1).push(h));
        crate::files::lemma_pushed(hids.take(n - 1), hids.take(n), h, true);
        let grows = !view.readable(h) && !before.contains(h);
        crate::files::lemma_pushed(before, after, h, grows);
        assert forall|b: i64|
            #![trigger after.contains(b)]
            after.contains(b) <==> hids.take(n).contains(b) && !view.readable(b) by {
            assert(before.contains(b) <==> hids.take(n - 1).contains(b) && !view.readable(b));
        }
    }
}

/// With a graph that agrees with the catalog, a required blob can be read
/// according to the graph exactly when it can according to the catalog.
proof fn lemma_available_agrees(dag: DagView, view: CatalogView, listed: Seq<Source>, b: i64)
    requires
        agrees(dag, view),
        joins_nodes(dag),
        dag.contains(b),
        listed == sources_for(view.sources, dag.nodes, view.sources.len() as int),
    ensures
        available(dag, listed, b) <==> view.readable(b),
{
    lemma_sources_for(view.sources, dag.nodes, view.sources.len() as int);
    if available(dag, listed, b) {
        let k = choose|k: int|
            0 <= k < listed.len() && (#[trigger] listed[k]).location.spec_is_local() && holds_blob(
                dag,
                listed[k].h_id,
                b,
            );
        let s = listed[k];
        assert(listed.contains(s));
        let j = choose|j: int|
            0 <= j < view.sources.len() && #[trigger] view.sources[j] == s && dag.nodes.contains(
                s.h_id,
            );
        lemma_holds_agree(dag, view, s.h_id, b);
        assert(view.sources[j].location.spec_is_local() && view.holds(view.sources[j].h_id, b));
    }
    if view.readable(b) {
        let j = choose|j: int|
            0 <= j < view.sources.len() && (#[trigger] view.sources[j]).location.spec_is_local()
                && view.holds(view.sources[j].h_id, b);
        let s = view.sources[j];
        lemma_holds_agree(dag, view, s.h_id, b);
        assert(dag.nodes.contains(s.h_id));
        assert(listed.contains(s));
        let k = choose|k: int| 0 <= k < listed.len() && listed[k] == s;
        assert(listed[k].location.spec_is_local() && holds_blob(dag, listed[k].h_id, b));
    }
}

/// With a graph that agrees with the catalog, the list of what cannot be
/// read is the same by the graph and by the catalog.
proof fn lemma_unread_agrees(
    dag: DagView,
    view: CatalogView,
    listed: Seq<Source>,
    hids: Seq<i64>,
    n: int,
)
    requires
        agrees(dag, view),
        joins_nodes(dag),
        forall|i: int| 0 <= i < hids.len() ==> dag.contains(#[trigger] hids[i]),
        listed == sources_for(view.sources, dag.nodes, view.sources.len() as int),
        0 <= n <= hids.len(),
    ensures
        unread(dag, listed, hids, n) == missing_list(view, hids, n),
    decreases n,
{
    if n > 0 {
        lemma_unread_agrees(dag, view, listed, hids, n - 1);
        assert(dag.contains(hids[n - 1]));
        lemma_available_agrees(dag, view, listed, hids[n - 1]);
    }
}

/// The sources of the candidate blobs are the sources that deliver
/// something missing.
proof fn lemma_relevant_sources(view: CatalogView, missing: Seq<i64>, blobs: Seq<i64>, n: int)
    requires
        0 <= n <= view.sources.len(),
        forall|a: i64|
            #![trigger blobs.contains(a)]
            blobs.contains(a) <==> exists|j: int|
                0 <= j < missing.len() && view.holds(a, #[trigger] missing[j]),
    ensures
        sources_for(view.sources, blobs, n) == relevant_sources(view, missing, n),
    decreases n,
{
    if n > 0 {
        lemma_relevant_sources(view, missing, blobs, n - 1);
        let s = view.sources[n - 1];
        assert(blobs.contains(s.h_id) <==> relevant(view, missing, s));
    }
}

/// With a graph that agrees with the catalog, a source delivers the same
/// missing blobs by the graph and by the catalog.
proof fn lemma_offers_agree(dag: DagView, view: CatalogView, missing: Seq<i64>, cands: Seq<Source>)
    requires
        agrees(dag, view),
        joins_nodes(dag),
        forall|i: int| 0 <= i < missing.len() ==> dag.contains(#[trigger] missing[i]),
    ensures
        offers_for(dag, missing, cands) == catalog_offers(view, missing, cands),
{
    let a = offers_for(dag, missing, cands);
    let b = catalog_offers(view, missing, cands);
    assert forall|i: int| 0 <= i < cands.len() implies a[i] == b[i] by {
        assert forall|x: i64| a[i].covers.contains(x) <==> b[i].covers.contains(x) by {
            if missing.contains(x) {
                lemma_holds_agree(dag, view, cands[i].h_id, x);
            }
        }
        assert(a[i].covers =~= b[i].covers);
    }
    assert(a =~= b);
}

/// The blob IDs of the digests that an install requires.
///
/// Fails with `UnknownContent` exactly when the catalog does not know one
/// of the digests; the error names the first such digest.
pub fn required_blobs(catalog: &Catalog, digests: &Vec<SHA256Checksum>) -> (res: Result<
    Vec<i64>,
    FileAcquisitionError,
>)
    requires
        catalog@.valid(),
    ensures
        res is Ok <==> all_known(catalog@, digests@),
        res matches Ok(hids) ==> hids@ == required_ids(catalog@, digests@) && forall|i: int|
            0 <= i < hids@.len() ==> catalog@.has_blob(#[trigger] hids@[i]),
        res matches Err(e) ==> e matches FileAcquisitionError::UnknownContent(d) && exists|k: int|
            0 <= k < digests@.len() && (#[trigger] digests@[k])@ == d@ && !catalog@.digests.contains(
                d@,
            ) && forall|j: int| 0 <= j < k ==> catalog@.digests.contains((#[trigger] digests@[j])@),
{
    let mut hids: Vec<i64> = Vec::new();
    let mut k: usize = 0;
    while k < digests.len()
        invariant
            k <= digests@.len(),
            catalog@.valid(),
            hids@ == required_ids(catalog@, digests@).take(k as int),
            forall|j: int| 0 <= j < k ==> catalog@.digests.contains((#[trigger] digests@[j])@),
            forall|i: int| 0 <= i < hids@.len() ==> catalog@.has_blob(#[trigger] hids@[i]),
        decreases digests.len() - k,
    {
        match catalog.get_id_from_hash(&digests[k]) {
            Some(id) => {
                let ghost before = hids@;
                hids.push(id);
                assert(hids@ =~= required_ids(catalog@, digests@).take(k + 1));
            },
            None => {
                return Err(FileAcquisitionError::UnknownContent(digests[k].clone()));
            },
        }
        k = k + 1;
    }
    assert(required_ids(catalog@, digests@).take(digests@.len() as int) == required_ids(
        catalog@,
        digests@,
    ));
    Ok(hids)
}

/// Plans an install of the blobs with the digests `digests`.
///
/// The plan is to write the files exactly when every required blob can be
/// read on this machine. Otherwise it names what is missing and the remote
/// sources to fetch for it: at least one, all of them sources of the
/// catalog that have not been excluded, which together deliver everything
/// missing and transfer the fewest bytes.
///
/// Fails with `UnknownContent` where the catalog does not know a digest,
/// with `UnsatisfiableCoverage` where the remote sources of the catalog
/// cannot deliver everything missing, and with `NetworkFailure` where
/// only the excluded ones could.
pub fn plan_install(catalog: &Catalog, digests: &Vec<SHA256Checksum>, excluded: &Vec<Source>) -> (res:
    Result<Plan, FileAcquisitionError>)
    requires
        catalog@.valid(),
    ensures
        !all_known(catalog@, digests@) <==> (res matches Err(
            FileAcquisitionError::UnknownContent(_),
        )),
        all_known(catalog@, digests@) ==> {
            let view = catalog@;
            let hids = required_ids(view, digests@);
            let lacking = missing_list(view, hids, hids.len() as int);
            let cands = fetch_candidates(view, lacking, excluded@);
            let offers = catalog_offers(view, lacking, cands);
            let every = fetch_candidates(view, lacking, Seq::empty());
            &&& (res matches Ok(Plan::Materialize)) <==> lacking.len() == 0
            &&& lacking.len() == 0 <==> forall|i: int|
                0 <= i < hids.len() ==> view.readable(#[trigger] hids[i])
            &&& res matches Ok(Plan::Fetch { missing, sources }) ==> {
                &&& missing@ == lacking
                &&& exists|sel: Seq<bool>|
                    #![trigger is_minimum_cover(offers, lacking, sel)]
                    is_minimum_cover(offers, lacking, sel) && sources@ == picked(
                        cands,
                        sel,
                        cands.len() as int,
                    )
                &&& sources@.len() > 0
                &&& forall|k: int|
                    0 <= k < sources@.len() ==> cands.contains(#[trigger] sources@[k])
            }
            &&& lacking.len() > 0 ==> (res is Ok <==> coverable(offers, lacking))
            &&& res matches Err(e) ==> if coverable(catalog_offers(view, lacking, every), lacking) {
                e matches FileAcquisitionError::NetworkFailure(why) && why@ == "Exhausted"@
            } else {
                e is UnsatisfiableCoverage
            }
        },
{
    let ghost view = catalog@;
    let hids = match required_blobs(catalog, digests) {
        Ok(hids) => hids,
        Err(e) => {
            return Err(e);
        },
    };
    let dag = generate_dag(catalog, &hids);
    let nodes = dag.get_nodes();
    let mut all: Vec<i64> = Vec::new();
    let mut i: usize = 0;
    while i < nodes.len()
        invariant
            i <= nodes@.len(),
            nodes@.len() == dag@.nodes.len(),
            forall|j: int|
                0 <= j < nodes@.len() ==> (#[trigger] nodes@[j]).spec_data() == dag@.nodes[j],
            all@ == dag@.nodes.take(i as int),
        decreases nodes.len() - i,
    {
        all.push(*nodes[i].data());
        assert(all@ =~= dag@.nodes.take(i + 1));
        i = i + 1;
    }
    assert(dag@.nodes.take(dag@.nodes.len() as int) == dag@.nodes);
    let listed = catalog.get_sources_from_ids(&all);
    let missing = calculate_missing(&hids, &dag, &listed);
    proof {
        lemma_unread_agrees(dag@, view, listed@, hids@, hids@.len() as int);
        lemma_missing_list(view, hids@, hids@.len() as int);
        assert(hids@.take(hids@.len() as int) == hids@);
        assert(missing@.len() == 0 <==> forall|i: int|
            0 <= i < hids@.len() ==> view.readable(#[trigger] hids@[i])) by {
            if missing@.len() == 0 {
                assert forall|i: int| 0 <= i < hids@.len() implies view.readable(
                    #[trigger] hids@[i],
                ) by {
                    assert(hids@.contains(hids@[i]));
                    assert(!missing@.contains(hids@[i]));
                }
            }
            if missing@.len() > 0 {
                assert(missing@.contains(missing@[0]));
                let b = missing@[0];
                let i = choose|i: int| 0 <= i < hids@.len() && hids@[i] == b;
                assert(!view.readable(hids@[i]));
            }
        }
    }
    match next_step(&missing) {
        PlanStep::Materialize => {
            return Ok(Plan::Materialize);
        },
        PlanStep::Fetch => {},
    }
    let blobs = candidate_blobs(&missing, &dag);
    let known = catalog.get_sources_from_ids(&blobs);
    proof {
        assert forall|i: int| 0 <= i < missing@.len() implies dag@.contains(
            #[trigger] missing@[i],
        ) by {
            assert(missing@.contains(missing@[i]));
            let b = missing@[i];
            let j = choose|j: int| 0 <= j < hids@.len() && hids@[j] == b;
            assert(dag@.contains(hids@[j]));
        }
        assert forall|a: i64|
            #![trigger blobs@.contains(a)]
            blobs@.contains(a) <==> exists|j: int|
                0 <= j < missing@.len() && view.holds(a, #[trigger] missing@[j]) by {
            if blobs@.contains(a) {
                let j = choose|j: int|
                    0 <= j < missing@.len() && holds_blob(dag@, a, #[trigger] missing@[j]);
                lemma_holds_agree(dag@, view, a, missing@[j]);
            }
            if exists|j: int| 0 <= j < missing@.len() && view.holds(a, #[trigger] missing@[j]) {
                let j = choose|j: int|
                    0 <= j < missing@.len() && view.holds(a, #[trigger] missing@[j]);
                lemma_holds_agree(dag@, view, a, missing@[j]);
                assert(is_candidate_blob(dag@, missing@, missing@.len() as int, a));
            }
        }
        lemma_relevant_sources(view, missing@, blobs@, view.sources.len() as int);
        lemma_sources_for(view.sources, blobs@, view.sources.len() as int);
        assert forall|k: int| 0 <= k < known@.len() implies (#[trigger] known@[k]).size >= 0 by {
            assert(known@.contains(known@[k]));
            let j = choose|j: int|
                0 <= j < view.sources.len() && #[trigger] view.sources[j] == known@[k];
            assert(view.sources[j].size >= 0);
        }
        let cands = usable_sources(known@, excluded@, known@.len() as int);
        let every = usable_sources(known@, Seq::empty(), known@.len() as int);
        lemma_offers_agree(dag@, view, missing@, cands);
        lemma_offers_agree(dag@, view, missing@, every);
        assert(known@ == relevant_sources(view, missing@, view.sources.len() as int));
        assert(fetch_candidates(view, missing@, excluded@) == cands);
        assert(fetch_candidates(view, missing@, Seq::empty()) == every);
        assert(missing@ == missing_list(
            view,
            required_ids(view, digests@),
            required_ids(view, digests@).len() as int,
        ));
    }
    let ghost cands = fetch_candidates(view, missing@, excluded@);
    let ghost offers = catalog_offers(view, missing@, cands);
    match calculate_fetches(&missing, &dag, &known, excluded) {
        Ok(sources) => {
            proof {
                let sel = choose|sel: Seq<bool>|
                    #![trigger is_minimum_cover(offers, missing@, sel)]
                    is_minimum_cover(offers, missing@, sel) && sources@ == picked(
                        cands,
                        sel,
                        cands.len() as int,
                    );
                assert(is_minimum_cover(offers, missing@, sel));
                crate::files::acquire::lemma_cover_picks(offers, missing@, sel, cands);
            }
            Ok(Plan::Fetch { missing, sources })
        },
        Err(e) => Err(e),
    }
}

/// The place of the last release among the first `upto` that has this
/// name and version, or -1 where none has.
pub open spec fn release_place(releases: Seq<Release>, name: Seq<char>, version: Seq<char>, upto: int) -> int
    decreases upto,
{
    if upto <= 0 {
        -1
    } else if releases[upto - 1].name@ == name && releases[upto - 1].version@ == version {
        upto - 1
    } else {
        release_place(releases, name, version, upto - 1)
    }
}

/// The file row belongs to a package of the release `rel_id` and names a
/// blob that the catalog knows.
pub open spec fn installs(view: CatalogView, rel_id: i64, file: File) -> bool {
    &&& 1 <= file.p_id <= view.packages.len()
    &&& view.packages[file.p_id - 1].rel_id == rel_id
    &&& view.has_blob(file.h_id)
}

/// Where a file row lands below the root of its release, and the digest
/// of what lands there.
pub open spec fn install_entry(view: CatalogView, file: File) -> (Seq<char>, Seq<u8>) {
    (
        spec_join(
            match view.packages[file.p_id - 1].folder {
                Some(folder) => folder@,
                None => Seq::empty(),
            },
            file.filepath@,
        ),
        view.digests[file.h_id - 1],
    )
}

/// What installing the release `rel_id` puts where, by the first `n` file
/// rows of the catalog, in their order.
pub open spec fn release_entries(view: CatalogView, rel_id: i64, n: int) -> Seq<(Seq<char>, Seq<u8>)>
    decreases n,
{
    if n <= 0 {
        Seq::empty()
    } else if installs(view, rel_id, view.files[n - 1]) {
        release_entries(view, rel_id, n - 1).push(install_entry(view, view.files[n - 1]))
    } else {
        release_entries(view, rel_id, n - 1)
    }
}

/// Path and digest of each entry of a manifest of loose files, in order.
pub open spec fn loose_entries(manifest: Seq<ManifEntry>) -> Seq<(Seq<char>, Seq<u8>)> {
    Seq::new(
        manifest.len(),
        |k: int|
            (
                manifest[k].path@,
                match manifest[k].ident {
                    ManifIdent::Raw(digest) => digest@,
                    ManifIdent::VP(_) => Seq::empty(),
                },
            ),
    )
}

/// The place of the last release that has this name and version.
fn find_release(releases: &Vec<Release>, name: &str, version: &str) -> (place: Option<usize>)
    ensures
        place is Some <==> release_place(releases@, name@, version@, releases@.len() as int) >= 0,
        place matches Some(at) ==> at == release_place(
            releases@,
            name@,
            version@,
            releases@.len() as int,
        ) && at < releases@.len(),
{
    let mut upto: usize = releases.len();
    while upto > 0
        invariant
            upto <= releases@.len(),
            release_place(releases@, name@, version@, releases@.len() as int) == release_place(
                releases@,
                name@,
                version@,
                upto as int,
            ),
        decreases upto,
    {
        let r = &releases[upto - 1];
        if same_text(r.name.as_str(), name) && same_text(r.version.as_str(), version) {
            return Some(upto - 1);
        }
        upto = upto - 1;
    }
    None
}

/// The manifest that installing a release takes: for each file of each of
/// its packages, in the order in which the catalog recorded them, the path
/// below the root of the release, which is the package's folder and the
/// file's own path, and the digest of the blob that lands there.
///
/// `None` exactly when the catalog holds no release of this name and
/// version. Of several, the last that was recorded is meant.
pub fn release_manifest(catalog: &Catalog, name: &str, version: &str) -> (res: Option<Vec<ManifEntry>>)
    requires
        catalog@.valid(),
        catalog@.releases_valid(),
    ensures
        res is Some <==> release_place(
            catalog@.releases,
            name@,
            version@,
            catalog@.releases.len() as int,
        ) >= 0,
        res matches Some(manifest) ==> {
            let at = release_place(catalog@.releases, name@, version@, catalog@.releases.len() as int);
            &&& loose_entries(manifest@) == release_entries(
                catalog@,
                catalog@.releases[at].rel_id,
                catalog@.files.len() as int,
            )
            &&& forall|k: int| 0 <= k < manifest@.len() ==> (#[trigger] manifest@[k]).ident is Raw
        },
{
    let ghost view = catalog@;
    let (releases, packages, _, files) = catalog.release_tables();
    let rel_id = match find_release(releases, name, version) {
        Some(at) => releases[at].rel_id,
        None => {
            return None;
        },
    };
    let mut manifest: Vec<ManifEntry> = Vec::new();
    let mut n: usize = 0;
    while n < files.len()
        invariant
            n <= files@.len(),
            view == catalog@,
            view.valid(),
            files@ == view.files,
            packages@ == view.packages,
            loose_entries(manifest@) == release_entries(view, rel_id, n as int),
            forall|k: int| 0 <= k < manifest@.len() ==> (#[trigger] manifest@[k]).ident is Raw,
        decreases files.len() - n,
    {
        let file = &files[n];
        let ghost before = loose_entries(manifest@);
        if file.p_id >= 1 && (file.p_id as u64) <= packages.len() as u64 {
            let package = &packages[(file.p_id - 1) as usize];
            if package.rel_id == rel_id {
                match catalog.get_hash_from_id(file.h_id) {
                    Some(digest) => {
                        let folder = package_folder(&package.folder);
                        manifest.push(
                            ManifEntry {
                                path: join_path(folder.as_str(), file.filepath.as_str()),
                                ident: ManifIdent::Raw(digest.clone()),
                            },
                        );
                        assert(loose_entries(manifest@) =~= before.push(install_entry(view, *file)));
                    },
                    None => {},
                }
            }
        }
        n = n + 1;
    }
    Some(manifest)
}

} // verus!
