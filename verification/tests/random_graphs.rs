use dfs_implementation::forest;
use dfs_implementation::from_pairs;
use dfs_implementation::parents;
use dfs_implementation::times;
use dfs_implementation::topological_sort;
use dfs_implementation::Vertex;
use std::collections::BTreeMap;
use std::collections::BTreeSet;
use std::collections::HashMap;
use std::collections::HashSet;

struct Walk {
    edges: BTreeMap<Vertex, BTreeSet<Vertex>>,
    seen: BTreeSet<Vertex>,
    clock: u64,
    start: HashMap<Vertex, u64>,
    finish: HashMap<Vertex, u64>,
    left: Vec<Vertex>,
    parent: HashMap<Vertex, Option<Vertex>>,
    trees: Vec<HashSet<Vertex>>,
}

impl Walk {
    fn enter(&mut self, v: Vertex) {
        self.seen.insert(v);
        self.clock += 1;
        self.start.insert(v, self.clock);
        self.trees.last_mut().unwrap().insert(v);
        let neighbours: Vec<Vertex> = match self.edges.get(&v) {
            Some(set) => set.iter().rev().copied().collect(),
            None => Vec::new(),
        };
        for w in neighbours {
            if !self.seen.contains(&w) {
                self.parent.insert(w, Some(v));
                self.enter(w);
            }
        }
        self.clock += 1;
        self.finish.insert(v, self.clock);
        self.left.push(v);
    }
}

fn walk(pairs: &[(Vertex, Vertex)]) -> Walk {
    let mut edges: BTreeMap<Vertex, BTreeSet<Vertex>> = BTreeMap::new();
    for (u, w) in pairs {
        edges.entry(*u).or_default().insert(*w);
    }
    let keys: Vec<Vertex> = edges.keys().rev().copied().collect();
    let mut state = Walk {
        edges,
        seen: BTreeSet::new(),
        clock: 0,
        start: HashMap::new(),
        finish: HashMap::new(),
        left: Vec::new(),
        parent: HashMap::new(),
        trees: Vec::new(),
    };
    for k in &keys {
        state.parent.insert(*k, None);
    }
    for k in keys {
        if !state.seen.contains(&k) {
            state.trees.push(HashSet::new());
            state.enter(k);
        }
    }
    state
}

fn next(seed: &mut u64) -> u64 {
    *seed = seed
        .wrapping_mul(6364136223846793005)
        .wrapping_add(1442695040888963407);
    *seed >> 33
}

fn random_pairs(seed: &mut u64, vertices: u64, edges: u64) -> Vec<(Vertex, Vertex)> {
    let mut pairs = Vec::new();
    for _ in 0..edges {
        pairs.push((next(seed) % vertices, next(seed) % vertices));
    }
    pairs
}

fn compare(pairs: &[(Vertex, Vertex)]) {
    let expected = walk(pairs);
    let g = from_pairs(pairs);
    let mut order = expected.left.clone();
    order.reverse();
    assert_eq!(topological_sort(&g), order);
    assert_eq!(times(&g), (expected.start, expected.finish));
    assert_eq!(parents(&g), expected.parent);
    assert_eq!(forest(&g), expected.trees);
}

#[test]
fn small_random_graphs_agree_with_a_plain_walk() {
    let mut seed: u64 = 1;
    for round in 0..300 {
        let vertices = 1 + round % 9;
        let edges = round % 14;
        compare(&random_pairs(&mut seed, vertices, edges));
    }
}

#[test]
fn larger_random_graphs_agree_with_a_plain_walk() {
    let mut seed: u64 = 7;
    for round in 0..20 {
        compare(&random_pairs(&mut seed, 60, 40 + 10 * round));
    }
}

#[test]
fn sparse_identifiers_agree_with_a_plain_walk() {
    let mut seed: u64 = 99;
    for _ in 0..50 {
        let pairs: Vec<(Vertex, Vertex)> = random_pairs(&mut seed, 8, 10)
            .into_iter()
            .map(|(u, w)| (u64::MAX - 1000 * u, w * w * 12345))
            .collect();
        compare(&pairs);
    }
}

fn component_of(pairs: &[(Vertex, Vertex)], v: Vertex) -> HashSet<Vertex> {
    let mut found: HashSet<Vertex> = HashSet::new();
    found.insert(v);
    loop {
        let before = found.len();
        for (a, b) in pairs {
            if found.contains(a) || found.contains(b) {
                found.insert(*a);
                found.insert(*b);
            }
        }
        if found.len() == before {
            return found;
        }
    }
}

#[test]
fn trees_of_an_undirected_graph_are_its_components() {
    let mut seed: u64 = 5;
    for _ in 0..100 {
        let one_way = random_pairs(&mut seed, 12, 8);
        let mut both: Vec<(Vertex, Vertex)> = Vec::new();
        for (a, b) in &one_way {
            both.push((*a, *b));
            both.push((*b, *a));
        }
        let g = from_pairs(&both);
        let trees = forest(&g);
        let mut components: Vec<HashSet<Vertex>> = Vec::new();
        for (a, _) in &both {
            let c = component_of(&both, *a);
            if !components.contains(&c) {
                components.push(c);
            }
        }
        assert_eq!(trees.len(), components.len());
        for tree in &trees {
            assert!(components.contains(tree));
        }
    }
}

#[test]
fn order_of_random_acyclic_graphs_is_topological() {
    let mut seed: u64 = 11;
    for _ in 0..100 {
        let pairs: Vec<(Vertex, Vertex)> = random_pairs(&mut seed, 15, 25)
            .into_iter()
            .filter(|(u, w)| u < w)
            .collect();
        let g = from_pairs(&pairs);
        let order = topological_sort(&g);
        let place: HashMap<Vertex, usize> =
            order.iter().enumerate().map(|(i, v)| (*v, i)).collect();
        assert_eq!(place.len(), order.len());
        for (u, w) in &pairs {
            assert!(place[u] < place[w]);
        }
    }
}

#[test]
fn as_many_trees_as_components_unless_an_edge_leads_between_trees() {
    let mut seed: u64 = 17;
    let mut with = 0;
    let mut without = 0;
    for _ in 0..300 {
        let pairs = random_pairs(&mut seed, 10, 6);
        let g = from_pairs(&pairs);
        let trees = forest(&g);
        let mut components: Vec<HashSet<Vertex>> = Vec::new();
        for (a, _) in &pairs {
            let c = component_of(&pairs, *a);
            if !components.contains(&c) {
                components.push(c);
            }
        }
        let tree_of = |v: &Vertex| trees.iter().position(|tree| tree.contains(v)).unwrap();
        let between = pairs.iter().any(|(u, w)| tree_of(u) != tree_of(w));
        for (u, w) in &pairs {
            assert!(tree_of(w) <= tree_of(u));
        }
        if between {
            assert!(components.len() < trees.len());
            with += 1;
        } else {
            assert_eq!(components.len(), trees.len());
            for tree in &trees {
                assert!(components.contains(tree));
            }
            without += 1;
        }
    }
    assert!(with > 0);
    assert!(without > 0);
}
