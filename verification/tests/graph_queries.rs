use pedigree_paths::graph::Edge;
use pedigree_paths::graph::PedigreeGraph;
use pedigree_paths::Error;

fn edge(id: i64, parent: i64, child: i64) -> Edge {
    Edge { id, parent, child }
}

#[test]
fn closure_chain_collects_parent_path_edges() {
    // 1 <- 2 <- 3: seeding at the bottom reports the whole parent path
    let g = PedigreeGraph { edges: vec![edge(100, 1, 2), edge(101, 2, 3)] };
    let mut ids = g.ancestor_edges(&vec![3], 100).unwrap();
    ids.sort();
    assert_eq!(ids, vec![100, 101]);
}

#[test]
fn closure_includes_sibling_edges_touching_ancestors() {
    // parent 1 has children 2 and 9; an edge out of an ancestor is reported too
    let g = PedigreeGraph { edges: vec![edge(1, 1, 2), edge(2, 1, 9)] };
    let mut ids = g.ancestor_edges(&vec![2], 100).unwrap();
    ids.sort();
    assert_eq!(ids, vec![1, 2]);
}

#[test]
fn closure_ignores_unrelated_edges() {
    let g = PedigreeGraph { edges: vec![edge(1, 1, 2), edge(2, 2, 3)] };
    let ids = g.ancestor_edges(&vec![42], 100).unwrap();
    assert_eq!(ids, Vec::<i64>::new());
}

#[test]
fn closure_does_not_descend() {
    // seeding at the top node reports its child edge (it touches the
    // closure) but walks no further down
    let g = PedigreeGraph { edges: vec![edge(1, 1, 2), edge(2, 2, 3), edge(3, 3, 4)] };
    let ids = g.ancestor_edges(&vec![1], 100).unwrap();
    assert_eq!(ids, vec![1]);
}

#[test]
fn cyclic_data_terminates() {
    // a two-node cycle: the visited-set guard must end the walk
    let g = PedigreeGraph { edges: vec![edge(1, 2, 1), edge(2, 1, 2)] };
    let mut ids = g.ancestor_edges(&vec![1], 10).unwrap();
    ids.sort();
    assert_eq!(ids, vec![1, 2]);
}

#[test]
fn self_loop_terminates() {
    let g = PedigreeGraph { edges: vec![edge(7, 5, 5)] };
    let ids = g.ancestor_edges(&vec![5], 10).unwrap();
    assert_eq!(ids, vec![7]);
}

#[test]
fn duplicate_seeds_visited_once() {
    let g = PedigreeGraph { edges: vec![edge(1, 1, 2)] };
    // three copies of one seed still fit a bound of two nodes
    let ids = g.ancestor_edges(&vec![2, 2, 2], 2).unwrap();
    assert_eq!(ids, vec![1]);
}

#[test]
fn traversal_bound_reported() {
    // the chain has four nodes; a cap of two is exceeded
    let g = PedigreeGraph { edges: vec![edge(1, 2, 1), edge(2, 3, 2), edge(3, 4, 3)] };
    assert_eq!(g.ancestor_edges(&vec![1], 2).unwrap_err(), Error::TraversalBoundExceeded);
    // the same chain fits a cap of four
    let mut ids = g.ancestor_edges(&vec![1], 4).unwrap();
    ids.sort();
    assert_eq!(ids, vec![1, 2, 3]);
}

#[test]
fn zero_bound_with_a_seed_is_exceeded() {
    let g = PedigreeGraph { edges: vec![] };
    assert_eq!(g.ancestor_edges(&vec![5], 0).unwrap_err(), Error::TraversalBoundExceeded);
}

#[test]
fn negative_seed_rejected() {
    let g = PedigreeGraph { edges: vec![edge(1, 1, 2)] };
    assert_eq!(g.ancestor_edges(&vec![2, -1], 10).unwrap_err(), Error::MalformedInput);
}

#[test]
fn empty_seed_set_is_empty_result() {
    let g = PedigreeGraph { edges: vec![edge(1, 1, 2)] };
    let ids = g.ancestor_edges(&vec![], 10).unwrap();
    assert_eq!(ids, Vec::<i64>::new());
}
