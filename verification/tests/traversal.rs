use dfs_implementation::dfs;
use dfs_implementation::from_pairs;
use dfs_implementation::DfsAction;
use dfs_implementation::Graph;
use dfs_implementation::Vertex;
use std::collections::HashSet;

#[derive(Debug, Clone, Copy, PartialEq, Eq)]
enum Call {
    Initial(Vertex),
    Start(Vertex),
    Pre(Vertex, Vertex),
    End(Vertex),
}

struct Recorder {
    calls: Vec<Call>,
}

impl DfsAction for Recorder {
    type State = ();

    fn initial_visit(&mut self, _: &Graph, vertex: Vertex) {
        self.calls.push(Call::Initial(vertex));
    }

    fn start(&mut self, _: &Graph, vertex: Vertex) {
        self.calls.push(Call::Start(vertex));
    }

    fn pre_visit(&mut self, _: &Graph, current: Vertex, next: Vertex) {
        self.calls.push(Call::Pre(current, next));
    }

    fn end(&mut self, _: &Graph, vertex: Vertex) {
        self.calls.push(Call::End(vertex));
    }
}

fn record(pairs: &[(Vertex, Vertex)]) -> Vec<Call> {
    let g = from_pairs(pairs);
    let mut recorder = Recorder { calls: Vec::new() };
    dfs(&g, &mut recorder);
    recorder.calls
}

#[test]
fn empty_graph_fires_no_event() {
    assert_eq!(record(&[]), vec![]);
}

#[test]
fn single_edge_events() {
    assert_eq!(
        record(&[(1, 2)]),
        vec![
            Call::Initial(1),
            Call::Start(1),
            Call::Pre(1, 2),
            Call::Start(2),
            Call::End(2),
            Call::End(1),
        ]
    );
}

#[test]
fn self_loop_is_entered_once() {
    assert_eq!(
        record(&[(5, 5)]),
        vec![Call::Initial(5), Call::Start(5), Call::End(5)]
    );
}

#[test]
fn cycle_terminates() {
    assert_eq!(
        record(&[(1, 2), (2, 1)]),
        vec![
            Call::Initial(2),
            Call::Start(2),
            Call::Pre(2, 1),
            Call::Start(1),
            Call::End(1),
            Call::End(2),
        ]
    );
}

#[test]
fn keys_and_neighbours_are_tried_from_the_largest_down() {
    assert_eq!(
        record(&[(1, 2), (1, 3), (4, 5)]),
        vec![
            Call::Initial(4),
            Call::Start(4),
            Call::Pre(4, 5),
            Call::Start(5),
            Call::End(5),
            Call::End(4),
            Call::Initial(1),
            Call::Start(1),
            Call::Pre(1, 3),
            Call::Start(3),
            Call::End(3),
            Call::Pre(1, 2),
            Call::Start(2),
            Call::End(2),
            Call::End(1),
        ]
    );
}

#[test]
fn vertex_that_is_only_a_neighbour_is_no_root() {
    let calls = record(&[(3, 7), (2, 7)]);
    assert_eq!(
        calls,
        vec![
            Call::Initial(3),
            Call::Start(3),
            Call::Pre(3, 7),
            Call::Start(7),
            Call::End(7),
            Call::End(3),
            Call::Initial(2),
            Call::Start(2),
            Call::End(2),
        ]
    );
    assert!(!calls.contains(&Call::Initial(7)));
}

#[test]
fn sample_events() {
    let calls = record(&[(4, 1), (6, 3), (8, 6), (9, 8), (9, 7), (7, 5)]);
    assert_eq!(
        calls,
        vec![
            Call::Initial(9),
            Call::Start(9),
            Call::Pre(9, 8),
            Call::Start(8),
            Call::Pre(8, 6),
            Call::Start(6),
            Call::Pre(6, 3),
            Call::Start(3),
            Call::End(3),
            Call::End(6),
            Call::End(8),
            Call::Pre(9, 7),
            Call::Start(7),
            Call::Pre(7, 5),
            Call::Start(5),
            Call::End(5),
            Call::End(7),
            Call::End(9),
            Call::Initial(4),
            Call::Start(4),
            Call::Pre(4, 1),
            Call::Start(1),
            Call::End(1),
            Call::End(4),
        ]
    );
}

fn index(calls: &[Call], call: Call) -> usize {
    let found: Vec<usize> = calls
        .iter()
        .enumerate()
        .filter(|(_, c)| **c == call)
        .map(|(i, _)| i)
        .collect();
    assert_eq!(found.len(), 1);
    found[0]
}

#[test]
fn every_vertex_is_entered_and_left_once_and_visits_nest() {
    let pairs: Vec<(Vertex, Vertex)> = vec![
        (1, 2),
        (2, 3),
        (3, 1),
        (3, 4),
        (5, 4),
        (6, 6),
        (7, 8),
        (8, 9),
        (7, 9),
        (10, 2),
        (1, 2),
    ];
    let calls = record(&pairs);
    let mut all: HashSet<Vertex> = HashSet::new();
    for (a, b) in &pairs {
        all.insert(*a);
        all.insert(*b);
    }
    assert_eq!(calls.len(), 3 * all.len());
    for v in &all {
        let s = index(&calls, Call::Start(*v));
        let e = index(&calls, Call::End(*v));
        assert!(s < e);
        assert!(s > 0);
        match calls[s - 1] {
            Call::Initial(r) => assert_eq!(r, *v),
            Call::Pre(_, w) => assert_eq!(w, *v),
            _ => panic!("a vertex is entered without an announcement"),
        }
        for w in &all {
            let sw = index(&calls, Call::Start(*w));
            let ew = index(&calls, Call::End(*w));
            if s < sw && sw < e {
                assert!(ew < e);
            }
        }
    }
    for call in &calls {
        if let Call::Pre(u, w) = call {
            assert!(pairs.contains(&(*u, *w)));
            let p = index(&calls, *call);
            assert!(index(&calls, Call::Start(*u)) < p);
            assert!(index(&calls, Call::End(*w)) < index(&calls, Call::End(*u)));
        }
    }
}
