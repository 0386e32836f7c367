use dfs_implementation::forest;
use dfs_implementation::from_pairs;
use dfs_implementation::parents;
use dfs_implementation::times;
use dfs_implementation::topological_sort;
use dfs_implementation::Vertex;
use std::collections::HashSet;

fn sample() -> Vec<(Vertex, Vertex)> {
    vec![(4, 1), (6, 3), (8, 6), (9, 8), (9, 7), (7, 5)]
}

fn position(order: &[Vertex], v: Vertex) -> usize {
    order.iter().position(|x| *x == v).unwrap()
}

#[test]
fn sample_topological_order() {
    let g = from_pairs(&sample());
    let order = topological_sort(&g);
    assert_eq!(order, vec![4, 1, 9, 7, 5, 8, 6, 3]);
    assert!(position(&order, 9) < position(&order, 8));
    assert!(position(&order, 9) < position(&order, 7));
    assert!(position(&order, 8) < position(&order, 6));
    assert!(position(&order, 6) < position(&order, 3));
    assert!(position(&order, 7) < position(&order, 5));
    assert!(position(&order, 4) < position(&order, 1));
}

#[test]
fn sample_parents() {
    let g = from_pairs(&sample());
    let p = parents(&g);
    assert_eq!(p.len(), 8);
    assert_eq!(p[&1], Some(4));
    assert_eq!(p[&3], Some(6));
    assert_eq!(p[&6], Some(8));
    assert_eq!(p[&8], Some(9));
    assert_eq!(p[&7], Some(9));
    assert_eq!(p[&5], Some(7));
    assert_eq!(p[&4], None);
    assert_eq!(p[&9], None);
}

#[test]
fn sample_forest() {
    let g = from_pairs(&sample());
    let f = forest(&g);
    let first: HashSet<Vertex> = [9, 8, 7, 6, 5, 3].into_iter().collect();
    let second: HashSet<Vertex> = [4, 1].into_iter().collect();
    assert_eq!(f, vec![first, second]);
    let mut all: HashSet<Vertex> = HashSet::new();
    for tree in &f {
        for v in tree {
            assert!(all.insert(*v));
        }
    }
    let expected: HashSet<Vertex> = [1, 3, 4, 5, 6, 7, 8, 9].into_iter().collect();
    assert_eq!(all, expected);
}

#[test]
fn sample_times() {
    let g = from_pairs(&sample());
    let (start, finish) = times(&g);
    let expected: Vec<(Vertex, u64, u64)> = vec![
        (9, 1, 12),
        (8, 2, 7),
        (6, 3, 6),
        (3, 4, 5),
        (7, 8, 11),
        (5, 9, 10),
        (4, 13, 16),
        (1, 14, 15),
    ];
    assert_eq!(start.len(), 8);
    assert_eq!(finish.len(), 8);
    for (v, s, f) in expected {
        assert_eq!(start[&v], s);
        assert_eq!(finish[&v], f);
    }
}
