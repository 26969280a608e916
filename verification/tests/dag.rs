use sol_gate::files::dag::{DAGError, HashDAG, HashNode};
use sol_gate::files::DagEdge;
use std::collections::HashSet;

fn vp(path: &str) -> DagEdge {
    DagEdge::VP(path.to_string())
}

fn sz(path: &str) -> DagEdge {
    DagEdge::SZ(path.to_string())
}

fn sorted(mut list: Vec<i64>) -> Vec<i64> {
    list.sort();
    list
}

/// 7-zip 30 holds VPs 20 and 21; VP 20 holds 10 and 11; VP 21 holds 11.
fn nested() -> HashDAG {
    let mut dag = HashDAG::new();
    for id in [10i64, 11, 20, 21, 30, 40] {
        dag.add(&id);
    }
    dag.add_relationship(&10, &20, vp("a.tbl")).unwrap();
    dag.add_relationship(&11, &20, vp("b.tbl")).unwrap();
    dag.add_relationship(&11, &21, vp("c.tbl")).unwrap();
    dag.add_relationship(&20, &30, sz("v.vp")).unwrap();
    dag.add_relationship(&21, &30, sz("w.vp")).unwrap();
    dag
}

#[test]
fn node_holds_its_blob() {
    let node = HashNode::new(42);
    assert_eq!(*node.data(), 42);
}

#[test]
fn nodes_are_kept_in_the_order_added_and_once() {
    let mut dag = HashDAG::new();
    assert!(dag.get_nodes().is_empty());
    dag.add(&5);
    dag.add(&3);
    dag.add(&5);
    let ids: Vec<i64> = dag.get_nodes().iter().map(|n| *n.data()).collect();
    assert_eq!(ids, vec![5, 3]);
    assert!(dag.contains(&3));
    assert!(!dag.contains(&4));
}

#[test]
fn edge_between_unknown_nodes_is_refused() {
    let mut dag = HashDAG::new();
    dag.add(&1);
    assert_eq!(dag.add_relationship(&1, &2, vp("x")), Err(DAGError::NoNode));
    assert_eq!(dag.add_relationship(&2, &1, vp("x")), Err(DAGError::NoNode));
    assert_eq!(dag.get_edge_data(&1, &2), None);
    assert_eq!(dag.children(&1), Some(HashSet::new()));
}

#[test]
fn edge_label_is_looked_up_by_child_and_parent() {
    let dag = nested();
    assert_eq!(dag.get_edge_data(&10, &20), Some(&vp("a.tbl")));
    assert_eq!(dag.get_edge_data(&20, &30), Some(&sz("v.vp")));
    assert_eq!(dag.get_edge_data(&20, &10), None);
    assert_eq!(dag.get_edge_data(&10, &30), None);
    assert_eq!(dag.get_edge_data(&10, &99), None);
}

#[test]
fn edge_added_again_takes_the_new_label() {
    let mut dag = nested();
    dag.add_relationship(&10, &20, vp("renamed.tbl")).unwrap();
    assert_eq!(dag.get_edge_data(&10, &20), Some(&vp("renamed.tbl")));
    assert_eq!(dag.children(&20), Some(HashSet::from([10, 11])));
    assert_eq!(sorted(dag.descendants(&20).unwrap()), vec![10, 11]);
}

#[test]
fn children_and_parents_are_direct_neighbours() {
    let dag = nested();
    assert_eq!(dag.children(&30), Some(HashSet::from([20, 21])));
    assert_eq!(dag.children(&10), Some(HashSet::new()));
    assert_eq!(dag.parents(&11), Some(HashSet::from([20, 21])));
    assert_eq!(dag.parents(&30), Some(HashSet::new()));
    assert_eq!(dag.children(&99), None);
    assert_eq!(dag.parents(&99), None);
}

#[test]
fn descendants_and_ancestors_are_transitive() {
    let dag = nested();
    assert_eq!(sorted(dag.descendants(&30).unwrap()), vec![10, 11, 20, 21]);
    assert_eq!(sorted(dag.descendants(&21).unwrap()), vec![11]);
    assert_eq!(dag.descendants(&10).unwrap(), Vec::<i64>::new());
    assert_eq!(sorted(dag.ancestors(&11).unwrap()), vec![20, 21, 30]);
    assert_eq!(sorted(dag.ancestors(&10).unwrap()), vec![20, 30]);
    assert_eq!(dag.ancestors(&40).unwrap(), Vec::<i64>::new());
    assert_eq!(dag.descendants(&99), None);
    assert_eq!(dag.ancestors(&99), None);
}

#[test]
fn descendants_come_nearest_first_and_once() {
    let dag = nested();
    let down = dag.descendants(&30).unwrap();
    assert_eq!(down.len(), 4);
    assert_eq!(sorted(down[..2].to_vec()), vec![20, 21]);
    assert_eq!(sorted(down[2..].to_vec()), vec![10, 11]);
}

#[test]
fn no_blob_is_its_own_ancestor_or_descendant_in_an_acyclic_graph() {
    let dag = nested();
    for id in [10i64, 11, 20, 21, 30, 40] {
        assert!(!dag.descendants(&id).unwrap().contains(&id));
        assert!(!dag.ancestors(&id).unwrap().contains(&id));
    }
}

#[test]
fn cycle_makes_a_blob_its_own_descendant() {
    let mut dag = HashDAG::new();
    dag.add(&1);
    dag.add(&2);
    dag.add_relationship(&1, &2, vp("x")).unwrap();
    dag.add_relationship(&2, &1, vp("y")).unwrap();
    assert_eq!(sorted(dag.descendants(&1).unwrap()), vec![1, 2]);
    assert_eq!(sorted(dag.ancestors(&1).unwrap()), vec![1, 2]);
    dag.add(&3);
    dag.add_relationship(&3, &3, vp("z")).unwrap();
    assert_eq!(dag.descendants(&3).unwrap(), vec![3]);
}

#[test]
fn add_children_links_each_child_with_its_label() {
    let mut dag = HashDAG::new();
    for id in [1i64, 2, 3, 9] {
        dag.add(&id);
    }
    dag.add_children(&vec![1, 2, 3], &9, &vec![vp("a"), vp("b"), vp("c")]).unwrap();
    assert_eq!(dag.children(&9), Some(HashSet::from([1, 2, 3])));
    assert_eq!(dag.get_edge_data(&2, &9), Some(&vp("b")));
    assert_eq!(dag.parents(&3), Some(HashSet::from([9])));
}

#[test]
fn add_children_with_fewer_labels_links_the_labelled_ones() {
    let mut dag = HashDAG::new();
    for id in [1i64, 2, 3, 9] {
        dag.add(&id);
    }
    dag.add_children(&vec![1, 2, 3], &9, &vec![vp("a")]).unwrap();
    assert_eq!(dag.children(&9), Some(HashSet::from([1])));
    assert_eq!(dag.get_edge_data(&2, &9), None);
}

#[test]
fn add_children_with_an_unknown_node_changes_nothing() {
    let mut dag = HashDAG::new();
    for id in [1i64, 2, 9] {
        dag.add(&id);
    }
    assert_eq!(dag.add_children(&vec![1, 7], &9, &vec![vp("a"), vp("b")]), Err(DAGError::NoNode));
    assert_eq!(dag.add_children(&vec![1, 2], &8, &vec![vp("a"), vp("b")]), Err(DAGError::NoNode));
    assert_eq!(dag.children(&9), Some(HashSet::new()));
    assert_eq!(dag.get_edge_data(&1, &9), None);
}
