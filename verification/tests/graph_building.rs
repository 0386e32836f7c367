use dfs_implementation::from_pairs;
use dfs_implementation::Graph;
use dfs_implementation::Vertex;
use std::collections::HashMap;
use std::collections::HashSet;

fn set(members: &[Vertex]) -> HashSet<Vertex> {
    members.iter().copied().collect()
}

#[test]
fn no_pairs_give_the_empty_graph() {
    let g = from_pairs(&[]);
    assert!(g.is_empty());
    assert_eq!(g, HashMap::new());
}

#[test]
fn every_pair_is_an_edge_and_nothing_else_is() {
    let g = from_pairs(&[(4, 1), (6, 3), (8, 6), (9, 8), (9, 7), (7, 5)]);
    let mut expected: Graph = HashMap::new();
    expected.insert(4, set(&[1]));
    expected.insert(6, set(&[3]));
    expected.insert(8, set(&[6]));
    expected.insert(9, set(&[8, 7]));
    expected.insert(7, set(&[5]));
    assert_eq!(g, expected);
}

#[test]
fn only_sources_are_keys() {
    let g = from_pairs(&[(3, 7), (2, 7)]);
    assert_eq!(g.len(), 2);
    assert!(g.contains_key(&3));
    assert!(g.contains_key(&2));
    assert!(!g.contains_key(&7));
    assert_eq!(g[&3], set(&[7]));
    assert_eq!(g[&2], set(&[7]));
}

#[test]
fn a_repeated_edge_counts_once() {
    let once = from_pairs(&[(1, 2)]);
    let thrice = from_pairs(&[(1, 2), (1, 2), (1, 2)]);
    assert_eq!(once, thrice);
    assert_eq!(thrice[&1].len(), 1);
}

#[test]
fn the_order_of_the_pairs_does_not_matter() {
    let a = from_pairs(&[(1, 2), (1, 3), (2, 3), (5, 1), (1, 2)]);
    let b = from_pairs(&[(5, 1), (2, 3), (1, 3), (1, 2)]);
    let c = from_pairs(&[(1, 3), (5, 1), (1, 2), (2, 3), (2, 3), (5, 1)]);
    assert_eq!(a, b);
    assert_eq!(b, c);
}

#[test]
fn a_self_loop_is_an_edge() {
    let g = from_pairs(&[(5, 5)]);
    assert_eq!(g.len(), 1);
    assert_eq!(g[&5], set(&[5]));
}

#[test]
fn the_largest_identifiers_are_vertices_like_any_other() {
    let g = from_pairs(&[(u64::MAX, 0), (0, u64::MAX)]);
    assert_eq!(g[&u64::MAX], set(&[0]));
    assert_eq!(g[&0], set(&[u64::MAX]));
}
