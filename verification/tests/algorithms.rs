use dfs_implementation::checked_times;
use dfs_implementation::dfs;
use dfs_implementation::forest;
use dfs_implementation::from_pairs;
use dfs_implementation::parents;
use dfs_implementation::times;
use dfs_implementation::topological_sort;
use dfs_implementation::Forest;
use dfs_implementation::Parents;
use dfs_implementation::Vertex;
use std::collections::HashMap;
use std::collections::HashSet;

fn set(members: &[Vertex]) -> HashSet<Vertex> {
    members.iter().copied().collect()
}

fn all_vertices(pairs: &[(Vertex, Vertex)]) -> HashSet<Vertex> {
    let mut all = HashSet::new();
    for (a, b) in pairs {
        all.insert(*a);
        all.insert(*b);
    }
    all
}

fn mixed() -> Vec<(Vertex, Vertex)> {
    vec![
        (1, 2),
        (2, 3),
        (3, 1),
        (3, 4),
        (5, 4),
        (6, 6),
        (7, 8),
        (8, 9),
        (7, 9),
        (10, 2),
        (1, 2),
    ]
}

fn acyclic() -> Vec<(Vertex, Vertex)> {
    vec![
        (1, 2),
        (1, 3),
        (2, 4),
        (3, 4),
        (4, 5),
        (6, 3),
        (6, 7),
        (8, 1),
        (9, 9 + 1),
        (2, 5),
    ]
}

#[test]
fn empty_graph_gives_empty_results() {
    let g = from_pairs(&[]);
    assert_eq!(topological_sort(&g), Vec::<Vertex>::new());
    assert_eq!(forest(&g), Vec::<HashSet<Vertex>>::new());
    let (start, finish) = times(&g);
    assert!(start.is_empty());
    assert!(finish.is_empty());
    assert!(parents(&g).is_empty());
}

#[test]
fn diamond_order() {
    let g = from_pairs(&[(1, 2), (1, 3), (2, 4), (3, 4)]);
    assert_eq!(topological_sort(&g), vec![1, 2, 3, 4]);
}

#[test]
fn order_of_an_acyclic_graph_is_topological() {
    let pairs = acyclic();
    let g = from_pairs(&pairs);
    let order = topological_sort(&g);
    let all = all_vertices(&pairs);
    assert_eq!(order.len(), all.len());
    let listed: HashSet<Vertex> = order.iter().copied().collect();
    assert_eq!(listed, all);
    let place: HashMap<Vertex, usize> = order.iter().enumerate().map(|(i, v)| (*v, i)).collect();
    for (u, w) in &pairs {
        assert!(place[u] < place[w]);
    }
}

#[test]
fn order_of_a_cyclic_graph_lists_every_vertex_once() {
    let pairs = mixed();
    let g = from_pairs(&pairs);
    let order = topological_sort(&g);
    let all = all_vertices(&pairs);
    assert_eq!(order.len(), all.len());
    let listed: HashSet<Vertex> = order.iter().copied().collect();
    assert_eq!(listed, all);
    assert_eq!(order, vec![5, 6, 7, 8, 9, 10, 2, 3, 1, 4]);
}

#[test]
fn parent_stands_before_child_in_the_order() {
    let pairs = mixed();
    let g = from_pairs(&pairs);
    let order = topological_sort(&g);
    let place: HashMap<Vertex, usize> = order.iter().enumerate().map(|(i, v)| (*v, i)).collect();
    for (child, parent) in parents(&g) {
        if let Some(parent) = parent {
            assert!(place[&parent] < place[&child]);
        }
    }
}

#[test]
fn times_of_a_chain() {
    let g = from_pairs(&[(1, 2), (2, 3)]);
    let (start, finish) = times(&g);
    let expected_start: HashMap<Vertex, u64> = [(2, 1), (3, 2), (1, 5)].into_iter().collect();
    let expected_finish: HashMap<Vertex, u64> = [(3, 3), (2, 4), (1, 6)].into_iter().collect();
    assert_eq!(start, expected_start);
    assert_eq!(finish, expected_finish);
}

#[test]
fn times_nest() {
    let pairs = mixed();
    let g = from_pairs(&pairs);
    let (start, finish) = times(&g);
    let all = all_vertices(&pairs);
    let started: HashSet<Vertex> = start.keys().copied().collect();
    let finished: HashSet<Vertex> = finish.keys().copied().collect();
    assert_eq!(started, all);
    assert_eq!(finished, all);
    let mut shown: HashSet<u64> = HashSet::new();
    for v in &all {
        assert!(1 <= start[v]);
        assert!(start[v] < finish[v]);
        assert!(finish[v] <= 2 * all.len() as u64);
        assert!(shown.insert(start[v]));
        assert!(shown.insert(finish[v]));
    }
    assert_eq!(shown.len(), 2 * all.len());
    for (child, parent) in parents(&g) {
        if let Some(parent) = parent {
            assert!(start[&parent] < start[&child]);
            assert!(start[&child] < finish[&child]);
            assert!(finish[&child] < finish[&parent]);
        }
    }
}

#[test]
fn parents_of_a_mixed_graph() {
    let pairs = mixed();
    let g = from_pairs(&pairs);
    let found = parents(&g);
    let expected: HashMap<Vertex, Option<Vertex>> = [
        (10, None),
        (2, Some(10)),
        (3, Some(2)),
        (4, Some(3)),
        (1, Some(3)),
        (8, None),
        (9, Some(8)),
        (7, None),
        (6, None),
        (5, None),
    ]
    .into_iter()
    .collect();
    assert_eq!(found, expected);
    for (child, parent) in &found {
        if let Some(parent) = parent {
            assert!(pairs.contains(&(*parent, *child)));
        }
    }
}

#[test]
fn roots_have_no_parent_and_every_other_vertex_has_one() {
    let pairs = mixed();
    let g = from_pairs(&pairs);
    let found = parents(&g);
    let trees = forest(&g);
    let all = all_vertices(&pairs);
    let with_entry: HashSet<Vertex> = found.keys().copied().collect();
    assert_eq!(with_entry, all);
    let roots: Vec<Vertex> = all.iter().copied().filter(|v| found[v].is_none()).collect();
    assert_eq!(roots.len(), trees.len());
    for root in &roots {
        assert!(g.contains_key(root));
    }
    for tree in &trees {
        let inside: Vec<Vertex> = tree.iter().copied().filter(|v| found[v].is_none()).collect();
        assert_eq!(inside.len(), 1);
        for v in tree {
            if let Some(parent) = found[v] {
                assert!(tree.contains(&parent));
            }
        }
    }
}

#[test]
fn forest_of_a_mixed_graph() {
    let g = from_pairs(&mixed());
    assert_eq!(
        forest(&g),
        vec![set(&[10, 2, 3, 4, 1]), set(&[8, 9]), set(&[7]), set(&[6]), set(&[5])]
    );
}

#[test]
fn forest_parts_the_vertices() {
    let pairs = mixed();
    let g = from_pairs(&pairs);
    let trees = forest(&g);
    let mut met: HashSet<Vertex> = HashSet::new();
    for tree in &trees {
        assert!(!tree.is_empty());
        for v in tree {
            assert!(met.insert(*v));
        }
    }
    assert_eq!(met, all_vertices(&pairs));
}

#[test]
fn two_roots_that_share_a_neighbour_make_two_trees() {
    let g = from_pairs(&[(1, 2), (3, 2)]);
    assert_eq!(forest(&g), vec![set(&[3, 2]), set(&[1])]);
}

#[test]
fn a_tree_holds_what_its_root_reaches_outside_the_earlier_trees() {
    let g = from_pairs(&[(5, 6), (6, 7), (3, 6), (3, 4), (4, 5), (1, 3), (1, 2)]);
    assert_eq!(forest(&g), vec![set(&[6, 7]), set(&[5]), set(&[4]), set(&[3]), set(&[1, 2])]);
}

#[test]
fn self_loop_results() {
    let g = from_pairs(&[(5, 5)]);
    assert_eq!(topological_sort(&g), vec![5]);
    assert_eq!(forest(&g), vec![set(&[5])]);
    let (start, finish) = times(&g);
    assert_eq!(start[&5], 1);
    assert_eq!(finish[&5], 2);
    let found = parents(&g);
    assert_eq!(found.len(), 1);
    assert_eq!(found[&5], None);
}

#[test]
fn vertex_that_is_only_a_neighbour_is_in_every_result() {
    let g = from_pairs(&[(3, 7), (2, 7)]);
    assert_eq!(topological_sort(&g), vec![2, 3, 7]);
    assert_eq!(forest(&g), vec![set(&[3, 7]), set(&[2])]);
    let found = parents(&g);
    assert_eq!(found[&7], Some(3));
    assert_eq!(found[&3], None);
    assert_eq!(found[&2], None);
    let (start, finish) = times(&g);
    assert_eq!((start[&3], start[&7], finish[&7], finish[&3]), (1, 2, 3, 4));
    assert_eq!((start[&2], finish[&2]), (5, 6));
}

#[test]
fn results_do_not_depend_on_how_the_graph_was_built() {
    let a = from_pairs(&[(1, 2), (1, 3), (2, 3), (5, 1), (1, 2)]);
    let b = from_pairs(&[(5, 1), (2, 3), (1, 3), (1, 2)]);
    assert_eq!(topological_sort(&a), topological_sort(&b));
    assert_eq!(forest(&a), forest(&b));
    assert_eq!(times(&a), times(&b));
    assert_eq!(parents(&a), parents(&b));
}

#[test]
fn visitors_can_be_made_and_driven_by_hand() {
    let g = from_pairs(&[(1, 2), (3, 4)]);
    let mut trees = Forest::default();
    dfs(&g, &mut trees);
    let mut from_nothing = Parents::default();
    dfs(&g, &mut from_nothing);
    let mut from_keys = Parents::new(&g);
    dfs(&g, &mut from_keys);
}

#[test]
fn a_long_chain_is_walked_to_its_end() {
    let pairs: Vec<(Vertex, Vertex)> = (0..2000).map(|i| (i, i + 1)).collect();
    let g = from_pairs(&pairs);
    let order = topological_sort(&g);
    let expected: Vec<Vertex> = (0..=2000).collect();
    assert_eq!(order, expected);
    let trees = forest(&g);
    assert_eq!(trees.len(), 2000);
    let (start, finish) = times(&g);
    assert_eq!(start[&1999], 1);
    assert_eq!(start[&2000], 2);
    assert_eq!(finish[&2000], 3);
    assert_eq!(finish[&1999], 4);
    assert_eq!(start[&0], 4001);
    assert_eq!(finish[&0], 4002);
}

#[test]
fn checked_times_are_the_times() {
    for pairs in [mixed(), acyclic(), vec![], vec![(5, 5)]] {
        let g = from_pairs(&pairs);
        assert_eq!(checked_times(&g), Some(times(&g)));
    }
}

#[test]
fn a_deep_walk_comes_back() {
    let pairs: Vec<(Vertex, Vertex)> = (0..3000).map(|i| (i + 1, i)).collect();
    let g = from_pairs(&pairs);
    let order = topological_sort(&g);
    let expected: Vec<Vertex> = (0..=3000).rev().collect();
    assert_eq!(order, expected);
    assert_eq!(forest(&g).len(), 1);
    let found = parents(&g);
    assert_eq!(found[&3000], None);
    assert_eq!(found[&0], Some(1));
    let (start, finish) = times(&g);
    assert_eq!(start[&3000], 1);
    assert_eq!(start[&0], 3001);
    assert_eq!(finish[&0], 3002);
    assert_eq!(finish[&3000], 6002);
}
