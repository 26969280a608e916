//! The containment graph: which blob can be read out of which archive.
//!
//! Nodes are blob IDs. An edge runs from a child to the archive that holds
//! it and carries the way the child sits inside. The graph only grows; it
//! does not check that it stays free of cycles.

use vstd::prelude::*;
use std::collections::HashMap;
use std::collections::HashSet;
use crate::files::DagEdge;

verus! {

broadcast use vstd::std_specs::hash::group_hash_axioms;

/// What a graph holds: its nodes in the order they were added, and the
/// label of each edge, keyed by child and parent.
pub struct DagView {
    pub nodes: Seq<i64>,
    pub edges: Map<(i64, i64), DagEdge>,
}

impl DagView {
    /// `id` is a node of the graph.
    pub open spec fn contains(self, id: i64) -> bool {
        self.nodes.contains(id)
    }

    /// `child` sits directly inside `parent`.
    pub open spec fn has_edge(self, child: i64, parent: i64) -> bool {
        self.edges.contains_key((child, parent))
    }

    /// `p` walks down the graph: it has at least two nodes, and each node
    /// after the first sits directly inside the one before it.
    pub open spec fn is_path(self, p: Seq<i64>) -> bool {
        &&& p.len() >= 2
        &&& forall|k: int| 0 <= k < p.len() - 1 ==> self.has_edge(#[trigger] p[k + 1], p[k])
    }

    /// `p` walks down from `top` to `bottom`.
    pub open spec fn is_path_between(self, p: Seq<i64>, top: i64, bottom: i64) -> bool {
        &&& self.is_path(p)
        &&& p[0] == top
        &&& p[p.len() - 1] == bottom
    }

    /// `lower` sits inside `upper`, directly or through other archives.
    pub open spec fn is_descendant(self, upper: i64, lower: i64) -> bool {
        exists|p: Seq<i64>| #[trigger] self.is_path_between(p, upper, lower)
    }

    /// `upper` holds `lower`, directly or through other archives.
    pub open spec fn is_ancestor(self, lower: i64, upper: i64) -> bool {
        self.is_descendant(upper, lower)
    }

    /// `rank` grows along every edge, from child to parent. A graph that
    /// has such a ranking has no cycle.
    pub open spec fn ranked_by(self, rank: spec_fn(i64) -> int) -> bool {
        forall|child: i64, parent: i64| #[trigger]
            self.has_edge(child, parent) ==> rank(child) < rank(parent)
    }
}

/// Along a walk down a ranked graph the rank falls.
pub proof fn lemma_rank_falls_along_path(view: DagView, rank: spec_fn(i64) -> int, p: Seq<i64>)
    requires
        view.ranked_by(rank),
        view.is_path(p),
    ensures
        rank(p[p.len() - 1]) < rank(p[0]),
    decreases p.len(),
{
    if p.len() == 2 {
        assert(view.has_edge(p[0int + 1], p[0]));
    } else {
        let q = p.drop_last();
        assert forall|k: int| 0 <= k < q.len() - 1 implies view.has_edge(
            #[trigger] q[k + 1],
            q[k],
        ) by {
            assert(view.has_edge(p[k + 1], p[k]));
        }
        lemma_rank_falls_along_path(view, rank, q);
        assert(view.has_edge(p[(p.len() - 2) + 1], p[p.len() - 2]));
    }
}

/// In a graph whose edges all climb some ranking, no blob is among its own
/// descendants, nor among its own ancestors.
pub proof fn lemma_no_blob_contains_itself(view: DagView, rank: spec_fn(i64) -> int, b: i64)
    requires
        view.ranked_by(rank),
    ensures
        !view.is_descendant(b, b),
        !view.is_ancestor(b, b),
{
    if view.is_descendant(b, b) {
        let p = choose|p: Seq<i64>| #[trigger] view.is_path_between(p, b, b);
        lemma_rank_falls_along_path(view, rank, p);
    }
}

/// A walk down to `mid`, followed by the edge from `mid` to `child`, is a
/// walk down to `child`.
pub proof fn lemma_descend_one_more(view: DagView, upper: i64, mid: i64, child: i64)
    requires
        upper == mid || view.is_descendant(upper, mid),
        view.has_edge(child, mid),
    ensures
        view.is_descendant(upper, child),
{
    if upper == mid {
        let p = seq![upper, child];
        assert(view.is_path_between(p, upper, child));
    } else {
        let p = choose|p: Seq<i64>| #[trigger] view.is_path_between(p, upper, mid);
        let q = p.push(child);
        assert forall|k: int| 0 <= k < q.len() - 1 implies view.has_edge(
            #[trigger] q[k + 1],
            q[k],
        ) by {
            if k < p.len() - 1 {
                assert(view.has_edge(p[k + 1], p[k]));
            }
        }
        assert(view.is_path_between(q, upper, child));
    }
}

/// The edge from `parent` down to `mid`, followed by a walk down from
/// `mid`, is a walk down from `parent`.
pub proof fn lemma_ascend_one_more(view: DagView, lower: i64, mid: i64, parent: i64)
    requires
        lower == mid || view.is_descendant(mid, lower),
        view.has_edge(mid, parent),
    ensures
        view.is_descendant(parent, lower),
{
    if lower == mid {
        let p = seq![parent, lower];
        assert(view.is_path_between(p, parent, lower));
    } else {
        let p = choose|p: Seq<i64>| #[trigger] view.is_path_between(p, mid, lower);
        let q = seq![parent] + p;
        assert forall|k: int| 0 <= k < q.len() - 1 implies view.has_edge(
            #[trigger] q[k + 1],
            q[k],
        ) by {
            if k >= 1 {
                assert(q[k + 1] == p[(k - 1) + 1]);
                assert(view.has_edge(p[(k - 1) + 1], p[k - 1]));
            }
        }
        assert(view.is_path_between(q, parent, lower));
    }
}

/// A set that holds the children of `root` and of each of its own members
/// holds every descendant of `root`.
pub proof fn lemma_closed_downward(view: DagView, found: Set<i64>, root: i64, p: Seq<i64>)
    requires
        forall|c: i64, x: i64|
            (x == root || found.contains(x)) && #[trigger] view.has_edge(c, x) ==> found.contains(c),
        view.is_path(p),
        p[0] == root || found.contains(p[0]),
    ensures
        found.contains(p[p.len() - 1]),
    decreases p.len(),
{
    assert(view.has_edge(p[0int + 1], p[0]));
    if p.len() > 2 {
        let q = p.drop_first();
        assert forall|k: int| 0 <= k < q.len() - 1 implies view.has_edge(
            #[trigger] q[k + 1],
            q[k],
        ) by {
            assert(q[k + 1] == p[(k + 1) + 1]);
            assert(view.has_edge(p[(k + 1) + 1], p[k + 1]));
        }
        lemma_closed_downward(view, found, root, q);
    }
}

/// A set that holds the parents of `root` and of each of its own members
/// holds every ancestor of `root`.
pub proof fn lemma_closed_upward(view: DagView, found: Set<i64>, root: i64, p: Seq<i64>)
    requires
        forall|x: i64, a: i64|
            (x == root || found.contains(x)) && #[trigger] view.has_edge(x, a) ==> found.contains(a),
        view.is_path(p),
        p[p.len() - 1] == root || found.contains(p[p.len() - 1]),
    ensures
        found.contains(p[0]),
    decreases p.len(),
{
    assert(view.has_edge(p[(p.len() - 2) + 1], p[p.len() - 2]));
    if p.len() > 2 {
        let q = p.drop_last();
        assert forall|k: int| 0 <= k < q.len() - 1 implies view.has_edge(
            #[trigger] q[k + 1],
            q[k],
        ) by {
            assert(view.has_edge(p[k + 1], p[k]));
        }
        lemma_closed_upward(view, found, root, q);
    }
}

/// The edges of a graph after the first `n` of `children` have been put
/// under `parent`, each with the label that stands at its place in `labels`.
pub open spec fn with_children(
    edges: Map<(i64, i64), DagEdge>,
    children: Seq<i64>,
    parent: i64,
    labels: Seq<DagEdge>,
    n: int,
) -> Map<(i64, i64), DagEdge>
    decreases n,
{
    if n <= 0 {
        edges
    } else {
        with_children(edges, children, parent, labels, n - 1).insert(
            (children[n - 1], parent),
            labels[n - 1],
        )
    }
}

/// The smaller of two lengths.
pub open spec fn shorter(a: nat, b: nat) -> int {
    if a <= b {
        a as int
    } else {
        b as int
    }
}

/// How many places of `seen` are still unmarked.
spec fn unseen(seen: Seq<bool>) -> nat
    decreases seen.len(),
{
    if seen.len() == 0 {
        0
    } else {
        unseen(seen.drop_last()) + if seen.last() {
            0nat
        } else {
            1nat
        }
    }
}

/// Marking a place that was unmarked leaves one place fewer unmarked.
proof fn lemma_mark(seen: Seq<bool>, y: int)
    requires
        0 <= y < seen.len(),
        !seen[y],
    ensures
        unseen(seen.update(y, true)) + 1 == unseen(seen),
    decreases seen.len(),
{
    let after = seen.update(y, true);
    if y == seen.len() - 1 {
        assert(after.drop_last() == seen.drop_last());
    } else {
        assert(after.drop_last() == seen.drop_last().update(y, true));
        lemma_mark(seen.drop_last(), y);
    }
}

/// A lookup named a node that the graph does not hold.
#[derive(Debug, PartialEq, Eq)]
pub enum DAGError {
    NoNode,
}

/// A node of the graph: a blob ID with its direct neighbours.
#[derive(Debug)]
pub struct HashNode {
    id: i64,
    parents: Vec<usize>,
    children: Vec<usize>,
    labels: Vec<DagEdge>,
}

impl HashNode {
    /// The blob ID that the node stands for.
    pub closed spec fn spec_data(&self) -> i64 {
        self.id
    }

    /// The node has no neighbours.
    pub closed spec fn is_isolated(&self) -> bool {
        &&& self.parents@.len() == 0
        &&& self.children@.len() == 0
        &&& self.labels@.len() == 0
    }

    /// A node for `id` that has no neighbours yet.
    pub fn new(id: i64) -> (node: HashNode)
        ensures
            node.spec_data() == id,
            node.is_isolated(),
    {
        HashNode { id, parents: Vec::new(), children: Vec::new(), labels: Vec::new() }
    }

    /// The blob ID that the node stands for.
    pub fn data(&self) -> (id: &i64)
        ensures
            *id == self.spec_data(),
    {
        &self.id
    }
}

/// The containment graph over blob IDs.
pub struct HashDAG {
    nodes: Vec<HashNode>,
    node_map: HashMap<i64, usize>,
    model: Ghost<DagView>,
}

impl View for HashDAG {
    type V = DagView;

    closed spec fn view(&self) -> DagView {
        self.model@
    }
}

impl HashDAG {
    /// Number of nodes.
    spec fn n(&self) -> int {
        self.nodes@.len() as int
    }

    /// The blob ID of node `i`.
    spec fn id_at(&self, i: int) -> i64 {
        self.nodes@[i].id
    }

    /// The parents of node `i`, as node numbers.
    spec fn parents_at(&self, i: int) -> Seq<usize> {
        self.nodes@[i].parents@
    }

    /// The children of node `i`, as node numbers.
    spec fn children_at(&self, i: int) -> Seq<usize> {
        self.nodes@[i].children@
    }

    /// The labels of the edges from node `i` to its parents, in the order
    /// of `parents_at`.
    spec fn labels_at(&self, i: int) -> Seq<DagEdge> {
        self.nodes@[i].labels@
    }

    /// The node numbers agree with the model and with the lookup table.
    spec fn numbering_ok(&self) -> bool {
        &&& self@.nodes.len() == self.n()
        &&& forall|i: int| 0 <= i < self.n() ==> #[trigger] self@.nodes[i] == self.id_at(i)
        &&& forall|i: int|
            0 <= i < self.n() ==> self.node_map@.contains_key(#[trigger] self.id_at(i))
                && self.node_map@[self.id_at(i)] == i
        &&& forall|id: i64| #[trigger]
            self.node_map@.contains_key(id) ==> 0 <= self.node_map@[id] < self.n() && self.id_at(
                self.node_map@[id] as int,
            ) == id
    }

    /// The neighbour lists of node `i` name nodes, each at most once.
    spec fn lists_ok(&self, i: int) -> bool {
        &&& self.labels_at(i).len() == self.parents_at(i).len()
        &&& self.parents_at(i).no_duplicates()
        &&& self.children_at(i).no_duplicates()
        &&& forall|k: int|
            0 <= k < self.parents_at(i).len() ==> 0 <= #[trigger] self.parents_at(i)[k] < self.n()
        &&& forall|k: int|
            0 <= k < self.children_at(i).len() ==> 0 <= #[trigger] self.children_at(i)[k]
                < self.n()
    }

    /// Every entry of a parent list is an edge of the model, with its label.
    spec fn parents_are_edges(&self, i: int) -> bool {
        forall|k: int|
            0 <= k < self.parents_at(i).len() ==> {
                let key = (self.id_at(i), self.id_at(#[trigger] self.parents_at(i)[k] as int));
                self@.edges.contains_key(key) && self@.edges[key] == self.labels_at(i)[k]
            }
    }

    /// Every entry of a child list is an edge of the model.
    spec fn children_are_edges(&self, i: int) -> bool {
        forall|k: int|
            0 <= k < self.children_at(i).len() ==> self@.has_edge(
                self.id_at(#[trigger] self.children_at(i)[k] as int),
                self.id_at(i),
            )
    }

    /// Every edge of the model is in the lists of both its ends.
    spec fn edges_are_listed(&self) -> bool {
        forall|c: i64, p: i64| #[trigger]
            self@.has_edge(c, p) ==> {
                &&& self.node_map@.contains_key(c)
                &&& self.node_map@.contains_key(p)
                &&& self.parents_at(self.node_map@[c] as int).contains(self.node_map@[p])
                &&& self.children_at(self.node_map@[p] as int).contains(self.node_map@[c])
            }
    }

    /// The graph's tables agree with what it holds. Every graph that this
    /// module hands out is well formed.
    pub closed spec fn wf(&self) -> bool {
        &&& self.numbering_ok()
        &&& forall|i: int| 0 <= i < self.n() ==> #[trigger] self.lists_ok(i)
        &&& forall|i: int| 0 <= i < self.n() ==> #[trigger] self.parents_are_edges(i)
        &&& forall|i: int| 0 <= i < self.n() ==> #[trigger] self.children_are_edges(i)
        &&& self.edges_are_listed()
    }

    /// In a well-formed graph no node occurs twice, and edges join nodes.
    pub proof fn lemma_wf_view(&self)
        requires
            self.wf(),
        ensures
            self@.nodes.no_duplicates(),
            forall|c: i64, p: i64| #[trigger]
                self@.has_edge(c, p) ==> self@.contains(c) && self@.contains(p),
    {
        assert forall|i: int, j: int|
            0 <= i < self@.nodes.len() && 0 <= j < self@.nodes.len() && i != j implies self@.nodes[i]
            != self@.nodes[j] by {
            assert(self.node_map@[self.id_at(i)] == i);
            assert(self.node_map@[self.id_at(j)] == j);
        }
        assert forall|c: i64, p: i64| #[trigger] self@.has_edge(c, p) implies self@.contains(c)
            && self@.contains(p) by {
            let ci = self.node_map@[c] as int;
            let pi = self.node_map@[p] as int;
            assert(self@.nodes[ci] == c);
            assert(self@.nodes[pi] == p);
        }
    }

    /// A graph without nodes.
    pub fn new() -> (dag: HashDAG)
        ensures
            dag.wf(),
            dag@.nodes.len() == 0,
            dag@.edges == Map::<(i64, i64), DagEdge>::empty(),
    {
        HashDAG {
            nodes: Vec::new(),
            node_map: HashMap::new(),
            model: Ghost(DagView { nodes: Seq::empty(), edges: Map::empty() }),
        }
    }

    /// The nodes, in the order they were added.
    pub fn get_nodes(&self) -> (nodes: &Vec<HashNode>)
        requires
            self.wf(),
        ensures
            nodes@.len() == self@.nodes.len(),
            forall|i: int| 0 <= i < nodes@.len() ==> (#[trigger] nodes@[i]).spec_data() == self@.nodes[i],
    {
        &self.nodes
    }

    /// The number of the node that stands for `id`, if the graph holds it.
    fn index_of(&self, id: i64) -> (idx: Option<usize>)
        requires
            self.wf(),
        ensures
            idx is Some <==> self@.contains(id),
            idx is Some <==> self.node_map@.contains_key(id),
            idx matches Some(i) ==> i < self.n() && self.id_at(i as int) == id && self.node_map@[id]
                == i && self.node_map@.contains_key(id),
    {
        let found = self.node_map.get(&id);
        match found {
            Some(i) => {
                assert(self@.nodes[*i as int] == id);
                Some(*i)
            },
            None => {
                assert forall|k: int| 0 <= k < self@.nodes.len() implies self@.nodes[k] != id by {
                    assert(self.node_map@.contains_key(self.id_at(k)));
                }
                None
            },
        }
    }

    /// Adds `id` as a node without neighbours, unless the graph holds it
    /// already.
    pub fn add(&mut self, id: &i64)
        requires
            old(self).wf(),
        ensures
            final(self).wf(),
            final(self)@.edges == old(self)@.edges,
            old(self)@.contains(*id) ==> final(self)@.nodes == old(self)@.nodes,
            !old(self)@.contains(*id) ==> final(self)@.nodes == old(self)@.nodes.push(*id),
    {
        if self.index_of(*id).is_some() {
            return ;
        }
        let index = self.nodes.len();
        self.nodes.push(HashNode::new(*id));
        self.node_map.insert(*id, index);
        proof {
            let ghost before = *old(self);
            self.model@ = DagView { nodes: before@.nodes.push(*id), edges: before@.edges };
            assert forall|i: int| 0 <= i < before.n() implies self.nodes@[i] == before.nodes@[i] by {}
            assert forall|i: int| 0 <= i < self.n() implies #[trigger] self.lists_ok(i) by {
                if i < before.n() {
                    assert(before.lists_ok(i));
                }
            }
            assert forall|i: int| 0 <= i < self.n() implies #[trigger] self.parents_are_edges(
                i,
            ) by {
                if i < before.n() {
                    assert(before.parents_are_edges(i));
                    assert(before.lists_ok(i));
                }
            }
            assert forall|i: int| 0 <= i < self.n() implies #[trigger] self.children_are_edges(
                i,
            ) by {
                if i < before.n() {
                    assert(before.children_are_edges(i));
                    assert(before.lists_ok(i));
                }
            }
            assert forall|c: i64, p: i64| #[trigger] self@.has_edge(c, p) implies {
                &&& self.node_map@.contains_key(c)
                &&& self.node_map@.contains_key(p)
                &&& self.parents_at(self.node_map@[c] as int).contains(self.node_map@[p])
                &&& self.children_at(self.node_map@[p] as int).contains(self.node_map@[c])
            } by {
                assert(before@.has_edge(c, p));
                let ci = before.node_map@[c] as int;
                let pi = before.node_map@[p] as int;
                assert(self.nodes@[ci] == before.nodes@[ci]);
                assert(self.nodes@[pi] == before.nodes@[pi]);
            }
            assert(self.edges_are_listed());
            assert(self.node_map@ == before.node_map@.insert(*id, index));
            assert forall|i: int| 0 <= i < self.n() implies self.node_map@.contains_key(
                #[trigger] self.id_at(i),
            ) && self.node_map@[self.id_at(i)] == i by {
                if i < before.n() {
                    assert(before.node_map@.contains_key(before.id_at(i)));
                }
            }
            assert forall|other: i64| #[trigger] self.node_map@.contains_key(other) implies 0
                <= self.node_map@[other] < self.n() && self.id_at(self.node_map@[other] as int)
                == other by {
                if other != *id {
                    assert(before.node_map@.contains_key(other));
                    assert(self.nodes@[before.node_map@[other] as int] == before.nodes@[before.node_map@[other] as int]);
                }
            }
            assert forall|i: int| 0 <= i < self.n() implies #[trigger] self@.nodes[i]
                == self.id_at(i) by {
                if i < before.n() {
                    assert(before@.nodes[i] == before.id_at(i));
                }
            }
            assert(self.numbering_ok());
        }
    }
}

impl HashDAG {
    /// Where `target` stands in `list`, if it does.
    fn position(list: &Vec<usize>, target: usize) -> (pos: Option<usize>)
        ensures
            pos is Some <==> list@.contains(target),
            pos matches Some(k) ==> k < list@.len() && list@[k as int] == target,
    {
        let mut k: usize = 0;
        while k < list.len()
            invariant
                k <= list.len(),
                forall|j: int| 0 <= j < k ==> list@[j] != target,
            decreases list.len() - k,
        {
            if list[k] == target {
                return Some(k);
            }
            k = k + 1;
        }
        None
    }

    /// Two nodes with the same blob ID are the same node.
    proof fn lemma_ids_differ(&self, i: int, j: int)
        requires
            self.numbering_ok(),
            0 <= i < self.n(),
            0 <= j < self.n(),
            self.id_at(i) == self.id_at(j),
        ensures
            i == j,
    {
        assert(self.node_map@[self.id_at(i)] == i);
        assert(self.node_map@[self.id_at(j)] == j);
    }

    /// Giving the `k`-th edge of node `ci` a new label keeps the graph
    /// well formed.
    proof fn lemma_relabelled(&self, before: HashDAG, ci: int, pi: int, k: int, label: DagEdge)
        requires
            before.wf(),
            0 <= ci < before.n(),
            0 <= pi < before.n(),
            0 <= k < before.parents_at(ci).len(),
            before.parents_at(ci)[k] == pi,
            self.n() == before.n(),
            self.node_map@ == before.node_map@,
            self@.nodes == before@.nodes,
            self@.edges == before@.edges.insert((before.id_at(ci), before.id_at(pi)), label),
            forall|i: int|
                0 <= i < self.n() ==> self.id_at(i) == before.id_at(i) && self.parents_at(i)
                    == before.parents_at(i) && self.children_at(i) == before.children_at(i)
                    && self.labels_at(i) == (if i == ci {
                    before.labels_at(i).update(k, label)
                } else {
                    before.labels_at(i)
                }),
        ensures
            self.wf(),
    {
        let c = before.id_at(ci);
        let p = before.id_at(pi);
        assert forall|i: int| 0 <= i < self.n() implies #[trigger] self.lists_ok(i) by {
            assert(before.lists_ok(i));
        }
        assert forall|i: int| 0 <= i < self.n() implies #[trigger] self.children_are_edges(i) by {
            assert(before.children_are_edges(i));
            assert(before.lists_ok(i));
        }
        assert forall|i: int| 0 <= i < self.n() implies #[trigger] self.parents_are_edges(i) by {
            assert(before.parents_are_edges(i));
            assert(before.lists_ok(i));
            assert forall|j: int| 0 <= j < self.parents_at(i).len() implies {
                let key = (self.id_at(i), self.id_at(#[trigger] self.parents_at(i)[j] as int));
                self@.edges.contains_key(key) && self@.edges[key] == self.labels_at(i)[j]
            } by {
                let q = before.parents_at(i)[j] as int;
                if before.id_at(i) == c && before.id_at(q) == p {
                    before.lemma_ids_differ(i, ci);
                    before.lemma_ids_differ(q, pi);
                    assert(j == k);
                }
            }
        }
        assert(before.parents_are_edges(ci));
        assert(before@.has_edge(c, before.id_at(before.parents_at(ci)[k] as int)));
        assert forall|ch: i64, pa: i64| #[trigger] self@.has_edge(ch, pa) implies {
            &&& self.node_map@.contains_key(ch)
            &&& self.node_map@.contains_key(pa)
            &&& self.parents_at(self.node_map@[ch] as int).contains(self.node_map@[pa])
            &&& self.children_at(self.node_map@[pa] as int).contains(self.node_map@[ch])
        } by {
            assert(before@.has_edge(ch, pa));
        }
        assert forall|i: int| 0 <= i < self.n() implies #[trigger] self@.nodes[i] == self.id_at(
            i,
        ) by {
            assert(before@.nodes[i] == before.id_at(i));
        }
        assert forall|i: int| 0 <= i < self.n() implies self.node_map@.contains_key(
            #[trigger] self.id_at(i),
        ) && self.node_map@[self.id_at(i)] == i by {
            assert(before.node_map@.contains_key(before.id_at(i)));
        }
    }

    /// Adding an edge that the graph did not hold keeps it well formed.
    proof fn lemma_linked(&self, before: HashDAG, ci: int, pi: int, label: DagEdge)
        requires
            before.wf(),
            0 <= ci < before.n(),
            0 <= pi < before.n(),
            !before.parents_at(ci).contains(pi as usize),
            self.n() == before.n(),
            self.node_map@ == before.node_map@,
            self@.nodes == before@.nodes,
            self@.edges == before@.edges.insert((before.id_at(ci), before.id_at(pi)), label),
            forall|i: int|
                0 <= i < self.n() ==> self.id_at(i) == before.id_at(i) && self.parents_at(i) == (
                if i == ci {
                    before.parents_at(i).push(pi as usize)
                } else {
                    before.parents_at(i)
                }) && self.children_at(i) == (if i == pi {
                    before.children_at(i).push(ci as usize)
                } else {
                    before.children_at(i)
                }) && self.labels_at(i) == (if i == ci {
                    before.labels_at(i).push(label)
                } else {
                    before.labels_at(i)
                }),
        ensures
            self.wf(),
    {
        let c = before.id_at(ci);
        let p = before.id_at(pi);
        assert(before.node_map@[c] == ci && before.node_map@[p] == pi);
        assert(!before@.has_edge(c, p));
        assert(before.children_are_edges(pi));
        assert(before.lists_ok(pi));
        if before.children_at(pi).contains(ci as usize) {
            let j = choose|j: int|
                0 <= j < before.children_at(pi).len() && before.children_at(pi)[j] == ci as usize;
            assert(before@.has_edge(before.id_at(before.children_at(pi)[j] as int), p));
        }
        assert forall|i: int| 0 <= i < self.n() implies #[trigger] self.lists_ok(i) by {
            assert(before.lists_ok(i));
        }
        assert forall|i: int| 0 <= i < self.n() implies #[trigger] self.children_are_edges(i) by {
            assert(before.children_are_edges(i));
            assert(before.lists_ok(i));
            assert forall|j: int| 0 <= j < self.children_at(i).len() implies self@.has_edge(
                self.id_at(#[trigger] self.children_at(i)[j] as int),
                self.id_at(i),
            ) by {
                if j < before.children_at(i).len() {
                    assert(before@.has_edge(
                        before.id_at(before.children_at(i)[j] as int),
                        before.id_at(i),
                    ));
                }
            }
        }
        assert forall|i: int| 0 <= i < self.n() implies #[trigger] self.parents_are_edges(i) by {
            assert(before.parents_are_edges(i));
            assert(before.lists_ok(i));
            assert forall|j: int| 0 <= j < self.parents_at(i).len() implies {
                let key = (self.id_at(i), self.id_at(#[trigger] self.parents_at(i)[j] as int));
                self@.edges.contains_key(key) && self@.edges[key] == self.labels_at(i)[j]
            } by {
                if j < before.parents_at(i).len() {
                    let q = before.parents_at(i)[j] as int;
                    if before.id_at(i) == c && before.id_at(q) == p {
                        before.lemma_ids_differ(i, ci);
                        before.lemma_ids_differ(q, pi);
                    }
                }
            }
        }
        assert forall|ch: i64, pa: i64| #[trigger] self@.has_edge(ch, pa) implies {
            &&& self.node_map@.contains_key(ch)
            &&& self.node_map@.contains_key(pa)
            &&& self.parents_at(self.node_map@[ch] as int).contains(self.node_map@[pa])
            &&& self.children_at(self.node_map@[pa] as int).contains(self.node_map@[ch])
        } by {
            if ch == c && pa == p {
                assert(self.parents_at(ci)[before.parents_at(ci).len() as int] == pi);
                assert(self.children_at(pi)[before.children_at(pi).len() as int] == ci);
            } else {
                assert(before@.has_edge(ch, pa));
                let i2 = before.node_map@[ch] as int;
                let j2 = before.node_map@[pa] as int;
                let a = choose|a: int|
                    0 <= a < before.parents_at(i2).len() && before.parents_at(i2)[a]
                        == before.node_map@[pa];
                assert(self.parents_at(i2)[a] == before.node_map@[pa]);
                let b = choose|b: int|
                    0 <= b < before.children_at(j2).len() && before.children_at(j2)[b]
                        == before.node_map@[ch];
                assert(self.children_at(j2)[b] == before.node_map@[ch]);
            }
        }
        assert forall|i: int| 0 <= i < self.n() implies #[trigger] self@.nodes[i] == self.id_at(
            i,
        ) by {
            assert(before@.nodes[i] == before.id_at(i));
        }
        assert forall|i: int| 0 <= i < self.n() implies self.node_map@.contains_key(
            #[trigger] self.id_at(i),
        ) && self.node_map@[self.id_at(i)] == i by {
            assert(before.node_map@.contains_key(before.id_at(i)));
        }
    }

    /// Puts the edge from node `ci` up to node `pi` into the graph, or
    /// gives it a new label if it is there already.
    fn link(&mut self, ci: usize, pi: usize, label: DagEdge)
        requires
            old(self).wf(),
            ci < old(self).n(),
            pi < old(self).n(),
        ensures
            final(self).wf(),
            final(self)@.nodes == old(self)@.nodes,
            final(self)@.edges == old(self)@.edges.insert(
                (old(self)@.nodes[ci as int], old(self)@.nodes[pi as int]),
                label,
            ),
    {
        let ghost before = *old(self);
        let ghost c = before.id_at(ci as int);
        let ghost p = before.id_at(pi as int);
        assert(before.lists_ok(ci as int));
        assert(before.lists_ok(pi as int));
        assert(before.parents_are_edges(ci as int));
        assert(before.children_are_edges(pi as int));
        assert(before@.nodes[ci as int] == c && before@.nodes[pi as int] == p);
        match HashDAG::position(&self.nodes[ci].parents, pi) {
            Some(k) => {
                self.nodes[ci].labels.set(k, label);
                proof {
                    self.model@ = DagView {
                        nodes: before@.nodes,
                        edges: before@.edges.insert((c, p), label),
                    };
                    assert forall|i: int| 0 <= i < self.n() implies self.id_at(i) == before.id_at(i)
                        && self.parents_at(i) == before.parents_at(i) && self.children_at(i)
                        == before.children_at(i) && self.labels_at(i) == (if i == ci {
                        before.labels_at(i).update(k as int, label)
                    } else {
                        before.labels_at(i)
                    }) by {}
                    self.lemma_relabelled(before, ci as int, pi as int, k as int, label);
                }
            },
            None => {
                self.nodes[ci].parents.push(pi);
                self.nodes[ci].labels.push(label);
                self.nodes[pi].children.push(ci);
                proof {
                    self.model@ = DagView {
                        nodes: before@.nodes,
                        edges: before@.edges.insert((c, p), label),
                    };
                    assert forall|i: int| 0 <= i < self.n() implies self.id_at(i) == before.id_at(i)
                        && self.parents_at(i) == (if i == ci {
                        before.parents_at(i).push(pi)
                    } else {
                        before.parents_at(i)
                    }) && self.children_at(i) == (if i == pi {
                        before.children_at(i).push(ci)
                    } else {
                        before.children_at(i)
                    }) && self.labels_at(i) == (if i == ci {
                        before.labels_at(i).push(label)
                    } else {
                        before.labels_at(i)
                    }) by {}
                    self.lemma_linked(before, ci as int, pi as int, label);
                }
            },
        }
    }
}

impl DagView {
    /// `x` is reached from `start` by walking down (`down`) or up the
    /// graph, over at least one edge.
    pub open spec fn reaches(self, start: i64, x: i64, down: bool) -> bool {
        if down {
            self.is_descendant(start, x)
        } else {
            self.is_ancestor(start, x)
        }
    }

    /// One step from `from` to `to`, down or up the graph.
    pub open spec fn steps(self, from: i64, to: i64, down: bool) -> bool {
        if down {
            self.has_edge(to, from)
        } else {
            self.has_edge(from, to)
        }
    }
}

impl HashDAG {
    /// The neighbours of node `i` below it (`down`) or above it.
    spec fn neighbours(&self, i: int, down: bool) -> Seq<usize> {
        if down {
            self.children_at(i)
        } else {
            self.parents_at(i)
        }
    }

    /// What holds of the marks and the queue of a sweep from node `start`.
    spec fn sweep_ok(&self, start: int, down: bool, seen: Seq<bool>, queue: Seq<usize>) -> bool {
        &&& seen.len() == self.n()
        &&& queue.no_duplicates()
        &&& forall|k: int| 0 <= k < queue.len() ==> 0 <= #[trigger] queue[k] < self.n() && seen[queue[k] as int]
        &&& forall|j: int| 0 <= j < self.n() && #[trigger] seen[j] ==> queue.contains(j as usize)
        &&& forall|k: int|
            0 <= k < queue.len() ==> self@.reaches(
                self.id_at(start),
                self.id_at(#[trigger] queue[k] as int),
                down,
            )
    }

    /// Every neighbour of node `x` is marked.
    spec fn expanded(&self, x: int, down: bool, seen: Seq<bool>) -> bool {
        forall|j: int|
            0 <= j < self.neighbours(x, down).len() ==> seen[#[trigger] self.neighbours(x, down)[j] as int]
    }

    /// Marks and queues the neighbours of node `x` that were not marked.
    fn expand(&self, start: usize, x: usize, down: bool, seen: &mut Vec<bool>, queue: &mut Vec<usize>)
        requires
            self.wf(),
            start < self.n(),
            x < self.n(),
            x == start || old(queue)@.contains(x),
            self.sweep_ok(start as int, down, old(seen)@, old(queue)@),
        ensures
            self.sweep_ok(start as int, down, final(seen)@, final(queue)@),
            self.expanded(x as int, down, final(seen)@),
            old(queue)@.len() <= final(queue)@.len(),
            final(queue)@.take(old(queue)@.len() as int) == old(queue)@,
            forall|j: int| 0 <= j < self.n() && old(seen)@[j] ==> final(seen)@[j],
            unseen(final(seen)@) + final(queue)@.len() == unseen(old(seen)@) + old(queue)@.len(),
    {
        let ghost seen0 = seen@;
        let ghost queue0 = queue@;
        let ghost root = self.id_at(start as int);
        let list = if down {
            &self.nodes[x].children
        } else {
            &self.nodes[x].parents
        };
        assert(list@ == self.neighbours(x as int, down));
        assert(self.lists_ok(x as int));
        assert(self.children_are_edges(x as int));
        assert(self.parents_are_edges(x as int));
        assert(x == start || self@.reaches(root, self.id_at(x as int), down)) by {
            if x != start {
                let k = choose|k: int| 0 <= k < queue0.len() && queue0[k] == x;
                assert(self@.reaches(root, self.id_at(queue0[k] as int), down));
            }
        }
        let mut k: usize = 0;
        while k < list.len()
            invariant
                k <= list.len(),
                self.wf(),
                start < self.n(),
                x < self.n(),
                root == self.id_at(start as int),
                list@ == self.neighbours(x as int, down),
                self.lists_ok(x as int),
                self.children_are_edges(x as int),
                self.parents_are_edges(x as int),
                x == start || self@.reaches(root, self.id_at(x as int), down),
                self.sweep_ok(start as int, down, seen@, queue@),
                queue0.len() <= queue@.len(),
                queue@.take(queue0.len() as int) == queue0,
                forall|j: int| 0 <= j < self.n() && seen0[j] ==> seen@[j],
                forall|j: int| 0 <= j < k ==> seen@[list@[j] as int],
                unseen(seen@) + queue@.len() == unseen(seen0) + queue0.len(),
            decreases list.len() - k,
        {
            let y = list[k];
            if !seen[y] {
                proof {
                    lemma_mark(seen@, y as int);
                    assert(self@.steps(self.id_at(x as int), self.id_at(y as int), down));
                    if down {
                        lemma_descend_one_more(self@, root, self.id_at(x as int), self.id_at(y as int));
                    } else {
                        lemma_ascend_one_more(self@, root, self.id_at(x as int), self.id_at(y as int));
                    }
                    assert(!queue@.contains(y));
                }
                let ghost seen1 = seen@;
                let ghost queue1 = queue@;
                seen.set(y, true);
                queue.push(y);
                proof {
                    assert forall|a: int, b: int|
                        0 <= a < queue@.len() && 0 <= b < queue@.len() && a != b implies queue@[a]
                        != queue@[b] by {
                        if a < queue1.len() && b < queue1.len() {
                        } else if a < queue1.len() {
                            assert(queue1[a] != y);
                        } else {
                            assert(queue1[b] != y);
                        }
                    }
                    assert forall|j: int| 0 <= j < self.n() && #[trigger] seen@[j] implies queue@.contains(
                        j as usize,
                    ) by {
                        if j == y {
                            assert(queue@[queue1.len() as int] == y);
                        } else {
                            assert(seen1[j]);
                            let a = choose|a: int| 0 <= a < queue1.len() && queue1[a] == j as usize;
                            assert(queue@[a] == j as usize);
                        }
                    }
                    assert(queue@.take(queue0.len() as int) == queue0) by {
                        assert(queue1.take(queue0.len() as int) == queue0);
                        assert(queue@.take(queue0.len() as int) =~= queue1.take(queue0.len() as int));
                    }
                }
            }
            k = k + 1;
        }
    }

    /// The blobs reached from node `start` by walking down (`down`) or up
    /// the graph, breadth first, each once.
    fn sweep(&self, start: usize, down: bool) -> (found: Vec<i64>)
        requires
            self.wf(),
            start < self.n(),
        ensures
            found@.no_duplicates(),
            forall|x: i64| found@.contains(x) <==> self@.reaches(self.id_at(start as int), x, down),
    {
        let n = self.nodes.len();
        let ghost root = self.id_at(start as int);
        let mut seen: Vec<bool> = Vec::new();
        let mut i: usize = 0;
        while i < n
            invariant
                i <= n,
                seen@.len() == i,
                forall|j: int| 0 <= j < i ==> !seen@[j],
            decreases n - i,
        {
            seen.push(false);
            i = i + 1;
        }
        let mut queue: Vec<usize> = Vec::new();
        self.expand(start, start, down, &mut seen, &mut queue);
        let mut head: usize = 0;
        while head < queue.len()
            invariant
                self.wf(),
                start < self.n(),
                head <= queue@.len(),
                self.sweep_ok(start as int, down, seen@, queue@),
                self.expanded(start as int, down, seen@),
                forall|k: int| 0 <= k < head ==> self.expanded(#[trigger] queue@[k] as int, down, seen@),
            decreases unseen(seen@) + queue@.len() - head,
        {
            let x = queue[head];
            let ghost seen1 = seen@;
            let ghost queue1 = queue@;
            self.expand(start, x, down, &mut seen, &mut queue);
            proof {
                assert forall|k: int| 0 <= k < head + 1 implies self.expanded(
                    #[trigger] queue@[k] as int,
                    down,
                    seen@,
                ) by {
                    assert(queue@[k] == queue@.take(queue1.len() as int)[k]);
                    if k < head {
                        assert(self.expanded(queue1[k] as int, down, seen1));
                        assert(self.lists_ok(queue1[k] as int));
                    }
                }
                assert(self.lists_ok(start as int));
            }
            head = head + 1;
        }
        let mut found: Vec<i64> = Vec::new();
        let mut k: usize = 0;
        while k < queue.len()
            invariant
                self.wf(),
                k <= queue@.len(),
                self.sweep_ok(start as int, down, seen@, queue@),
                found@.len() == k,
                forall|j: int| 0 <= j < k ==> found@[j] == self.id_at(queue@[j] as int),
            decreases queue.len() - k,
        {
            found.push(self.nodes[queue[k]].id);
            k = k + 1;
        }
        proof {
            assert forall|a: int, b: int|
                0 <= a < found@.len() && 0 <= b < found@.len() && a != b implies found@[a]
                != found@[b] by {
                if found@[a] == found@[b] {
                    self.lemma_ids_differ(queue@[a] as int, queue@[b] as int);
                }
            }
            let marked = Set::new(|id: i64| found@.contains(id));
            assert forall|from: i64, to: i64|
                (from == root || marked.contains(from)) && #[trigger] self@.steps(
                    from,
                    to,
                    down,
                ) implies marked.contains(to) by {
                let c = if down { to } else { from };
                let p = if down { from } else { to };
                assert(self@.has_edge(c, p));
                let fi = self.node_map@[from] as int;
                let ti = self.node_map@[to] as int;
                assert(self.neighbours(fi, down).contains(ti as usize));
                let j = choose|j: int|
                    0 <= j < self.neighbours(fi, down).len() && self.neighbours(fi, down)[j]
                        == ti as usize;
                if from == root {
                    self.lemma_ids_differ(fi, start as int);
                    assert(seen@[self.neighbours(start as int, down)[j] as int]);
                } else {
                    let a = choose|a: int| 0 <= a < found@.len() && found@[a] == from;
                    self.lemma_ids_differ(fi, queue@[a] as int);
                    assert(self.expanded(queue@[a] as int, down, seen@));
                    assert(seen@[self.neighbours(queue@[a] as int, down)[j] as int]);
                }
                assert(seen@[ti]);
                let b = choose|b: int| 0 <= b < queue@.len() && queue@[b] == ti as usize;
                assert(found@[b] == to);
            }
            assert forall|x: i64| found@.contains(x) <==> self@.reaches(root, x, down) by {
                if found@.contains(x) {
                    let a = choose|a: int| 0 <= a < found@.len() && found@[a] == x;
                    assert(self@.reaches(root, self.id_at(queue@[a] as int), down));
                }
                if self@.reaches(root, x, down) {
                    if down {
                        let p = choose|p: Seq<i64>| #[trigger] self@.is_path_between(p, root, x);
                        assert forall|c: i64, y: i64|
                            (y == root || marked.contains(y)) && #[trigger] self@.has_edge(
                                c,
                                y,
                            ) implies marked.contains(c) by {
                            assert(self@.steps(y, c, down));
                        }
                        lemma_closed_downward(self@, marked, root, p);
                    } else {
                        let p = choose|p: Seq<i64>| #[trigger] self@.is_path_between(p, x, root);
                        assert forall|y: i64, a: i64|
                            (y == root || marked.contains(y)) && #[trigger] self@.has_edge(
                                y,
                                a,
                            ) implies marked.contains(a) by {
                            assert(self@.steps(y, a, down));
                        }
                        lemma_closed_upward(self@, marked, root, p);
                    }
                }
            }
        }
        found
    }
}

impl HashDAG {
    /// Whether `id` is a node of the graph.
    pub fn contains(&self, id: &i64) -> (held: bool)
        requires
            self.wf(),
        ensures
            held == self@.contains(*id),
    {
        self.index_of(*id).is_some()
    }

    /// Records that `child` sits directly inside `parent`, in the way that
    /// `edge_data` says. An edge that is there already gets the new label.
    ///
    /// Fails, and changes nothing, when the graph lacks either node.
    pub fn add_relationship(&mut self, child: &i64, parent: &i64, edge_data: DagEdge) -> (res: Result<
        (),
        DAGError,
    >)
        requires
            old(self).wf(),
        ensures
            final(self).wf(),
            final(self)@.nodes == old(self)@.nodes,
            res is Ok <==> old(self)@.contains(*child) && old(self)@.contains(*parent),
            res is Ok ==> final(self)@.edges == old(self)@.edges.insert((*child, *parent), edge_data),
            res is Err ==> final(self)@.edges == old(self)@.edges,
    {
        let ci = match self.index_of(*child) {
            Some(i) => i,
            None => {
                return Err(DAGError::NoNode);
            },
        };
        let pi = match self.index_of(*parent) {
            Some(i) => i,
            None => {
                return Err(DAGError::NoNode);
            },
        };
        assert(self@.nodes[ci as int] == *child && self@.nodes[pi as int] == *parent);
        self.link(ci, pi, edge_data);
        Ok(())
    }

    /// The way in which `child` sits directly inside `parent`, if it does.
    pub fn get_edge_data(&self, child: &i64, parent: &i64) -> (label: Option<&DagEdge>)
        requires
            self.wf(),
        ensures
            label is Some <==> self@.has_edge(*child, *parent),
            label matches Some(l) ==> *l == self@.edges[(*child, *parent)],
    {
        let ci = match self.index_of(*child) {
            Some(i) => i,
            None => {
                return None;
            },
        };
        let pi = match self.index_of(*parent) {
            Some(i) => i,
            None => {
                return None;
            },
        };
        assert(self.lists_ok(ci as int));
        assert(self.parents_are_edges(ci as int));
        match HashDAG::position(&self.nodes[ci].parents, pi) {
            Some(k) => {
                assert(self.parents_at(ci as int)[k as int] == pi);
                Some(&self.nodes[ci].labels[k])
            },
            None => None,
        }
    }

    /// Puts every one of `children` directly inside `parent`: the child at
    /// place `k` with the label at place `k` of `edge_data`. Children for
    /// which `edge_data` holds no label get no edge.
    ///
    /// Fails, and changes nothing, when the graph lacks `parent` or one of
    /// `children`.
    pub fn add_children(&mut self, children: &Vec<i64>, parent: &i64, edge_data: &Vec<DagEdge>) -> (res:
        Result<(), DAGError>)
        requires
            old(self).wf(),
        ensures
            final(self).wf(),
            final(self)@.nodes == old(self)@.nodes,
            res is Ok <==> old(self)@.contains(*parent) && forall|k: int|
                0 <= k < children@.len() ==> old(self)@.contains(#[trigger] children@[k]),
            res is Ok ==> final(self)@.edges == with_children(
                old(self)@.edges,
                children@,
                *parent,
                edge_data@,
                shorter(children@.len(), edge_data@.len()),
            ),
            res is Err ==> final(self)@.edges == old(self)@.edges,
    {
        let mut k: usize = 0;
        while k < children.len()
            invariant
                k <= children.len(),
                self.wf(),
                *self == *old(self),
                forall|j: int| 0 <= j < k ==> self@.contains(#[trigger] children@[j]),
            decreases children.len() - k,
        {
            if self.index_of(children[k]).is_none() {
                return Err(DAGError::NoNode);
            }
            k = k + 1;
        }
        let pi = match self.index_of(*parent) {
            Some(i) => i,
            None => {
                return Err(DAGError::NoNode);
            },
        };
        let count = if children.len() <= edge_data.len() {
            children.len()
        } else {
            edge_data.len()
        };
        let mut k: usize = 0;
        while k < count
            invariant
                k <= count,
                count == shorter(children@.len(), edge_data@.len()),
                self.wf(),
                pi < self.n(),
                self@.nodes == old(self)@.nodes,
                self@.nodes[pi as int] == *parent,
                forall|j: int| 0 <= j < children@.len() ==> self@.contains(#[trigger] children@[j]),
                self@.edges == with_children(
                    old(self)@.edges,
                    children@,
                    *parent,
                    edge_data@,
                    k as int,
                ),
            decreases count - k,
        {
            assert(self@.contains(children@[k as int]));
            let ci = match self.index_of(children[k]) {
                Some(i) => i,
                None => {
                    proof {
                        assert(false);
                    }
                    return Err(DAGError::NoNode);
                },
            };
            assert(self@.nodes[ci as int] == children@[k as int]);
            self.link(ci, pi, edge_data[k].clone());
            k = k + 1;
        }
        Ok(())
    }

    /// The direct children of node `idx`, as node numbers.
    fn children_by_idx(&self, idx: &usize) -> (list: &Vec<usize>)
        requires
            *idx < self.n(),
        ensures
            list@ == self.children_at(*idx as int),
    {
        &self.nodes[*idx].children
    }

    /// The direct parents of node `idx`, as node numbers.
    fn parents_by_idx(&self, idx: &usize) -> (list: &Vec<usize>)
        requires
            *idx < self.n(),
        ensures
            list@ == self.parents_at(*idx as int),
    {
        &self.nodes[*idx].parents
    }

    /// The blob IDs of the nodes numbered in `list`, as a set.
    fn ids_of(&self, list: &Vec<usize>) -> (ids: HashSet<i64>)
        requires
            self.wf(),
            forall|k: int| 0 <= k < list@.len() ==> 0 <= #[trigger] list@[k] < self.n(),
        ensures
            forall|id: i64|
                ids@.contains(id) <==> exists|k: int|
                    0 <= k < list@.len() && self.id_at(#[trigger] list@[k] as int) == id,
    {
        let mut ids: HashSet<i64> = HashSet::new();
        let mut k: usize = 0;
        while k < list.len()
            invariant
                k <= list.len(),
                forall|j: int| 0 <= j < list@.len() ==> 0 <= #[trigger] list@[j] < self.n(),
                forall|id: i64|
                    ids@.contains(id) <==> exists|j: int|
                        0 <= j < k && self.id_at(#[trigger] list@[j] as int) == id,
            decreases list.len() - k,
        {
            let ghost before = ids@;
            let id = self.nodes[list[k]].id;
            ids.insert(id);
            proof {
                assert forall|other: i64| ids@.contains(other) <==> exists|j: int|
                    0 <= j < k + 1 && self.id_at(#[trigger] list@[j] as int) == other by {
                    if ids@.contains(other) {
                        if other == id {
                            assert(self.id_at(list@[k as int] as int) == other);
                        } else {
                            assert(before.contains(other));
                            let j = choose|j: int|
                                0 <= j < k && self.id_at(#[trigger] list@[j] as int) == other;
                            assert(0 <= j < k + 1 && self.id_at(list@[j] as int) == other);
                        }
                    }
                    if exists|j: int|
                        0 <= j < k + 1 && self.id_at(#[trigger] list@[j] as int) == other {
                        let j = choose|j: int|
                            0 <= j < k + 1 && self.id_at(#[trigger] list@[j] as int) == other;
                        if j < k {
                            assert(before.contains(other));
                        }
                    }
                }
            }
            k = k + 1;
        }
        ids
    }

    /// The blobs that sit directly inside `id`, or `None` when the graph
    /// does not hold `id`.
    pub fn children(&self, id: &i64) -> (res: Option<HashSet<i64>>)
        requires
            self.wf(),
        ensures
            res is Some <==> self@.contains(*id),
            res matches Some(set) ==> forall|c: i64| set@.contains(c) <==> self@.has_edge(c, *id),
    {
        let idx = match self.index_of(*id) {
            Some(i) => i,
            None => {
                return None;
            },
        };
        assert(self.lists_ok(idx as int));
        assert(self.children_are_edges(idx as int));
        let set = self.ids_of(self.children_by_idx(&idx));
        proof {
            assert forall|c: i64| set@.contains(c) <==> self@.has_edge(c, *id) by {
                if set@.contains(c) {
                    let k = choose|k: int|
                        0 <= k < self.children_at(idx as int).len() && self.id_at(
                            #[trigger] self.children_at(idx as int)[k] as int,
                        ) == c;
                    assert(self@.has_edge(c, *id));
                }
                if self@.has_edge(c, *id) {
                    let ci = self.node_map@[c];
                    let k = choose|k: int|
                        0 <= k < self.children_at(idx as int).len() && self.children_at(
                            idx as int,
                        )[k] == ci;
                    assert(self.id_at(self.children_at(idx as int)[k] as int) == c);
                }
            }
        }
        Some(set)
    }

    /// The archives that `id` sits directly inside, or `None` when the
    /// graph does not hold `id`.
    pub fn parents(&self, id: &i64) -> (res: Option<HashSet<i64>>)
        requires
            self.wf(),
        ensures
            res is Some <==> self@.contains(*id),
            res matches Some(set) ==> forall|p: i64| set@.contains(p) <==> self@.has_edge(*id, p),
    {
        let idx = match self.index_of(*id) {
            Some(i) => i,
            None => {
                return None;
            },
        };
        assert(self.lists_ok(idx as int));
        assert(self.parents_are_edges(idx as int));
        let set = self.ids_of(self.parents_by_idx(&idx));
        proof {
            assert forall|p: i64| set@.contains(p) <==> self@.has_edge(*id, p) by {
                if set@.contains(p) {
                    let k = choose|k: int|
                        0 <= k < self.parents_at(idx as int).len() && self.id_at(
                            #[trigger] self.parents_at(idx as int)[k] as int,
                        ) == p;
                    assert(self@.has_edge(*id, p));
                }
                if self@.has_edge(*id, p) {
                    let pi = self.node_map@[p];
                    let k = choose|k: int|
                        0 <= k < self.parents_at(idx as int).len() && self.parents_at(
                            idx as int,
                        )[k] == pi;
                    assert(self.id_at(self.parents_at(idx as int)[k] as int) == p);
                }
            }
        }
        Some(set)
    }

    /// Every blob that sits inside `id`, directly or through other
    /// archives, each once. `None` when the graph does not hold `id`.
    pub fn descendants(&self, id: &i64) -> (res: Option<Vec<i64>>)
        requires
            self.wf(),
        ensures
            res is Some <==> self@.contains(*id),
            res matches Some(list) ==> list@.no_duplicates() && forall|d: i64|
                list@.contains(d) <==> self@.is_descendant(*id, d),
    {
        match self.index_of(*id) {
            Some(idx) => Some(self.sweep(idx, true)),
            None => None,
        }
    }

    /// Every archive that holds `id`, directly or through other archives,
    /// each once. `None` when the graph does not hold `id`.
    pub fn ancestors(&self, id: &i64) -> (res: Option<Vec<i64>>)
        requires
            self.wf(),
        ensures
            res is Some <==> self@.contains(*id),
            res matches Some(list) ==> list@.no_duplicates() && forall|a: i64|
                list@.contains(a) <==> self@.is_ancestor(*id, a),
    {
        match self.index_of(*id) {
            Some(idx) => Some(self.sweep(idx, false)),
            None => None,
        }
    }
}

} // verus!
