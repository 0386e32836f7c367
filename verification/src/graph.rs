//! Graphs: what they are, and how one is built from its edges.
use std::collections::HashMap;
use std::collections::HashSet;
use vstd::prelude::*;

verus! {

/// A vertex is an opaque identifier.
pub type Vertex = u64;

/// A directed graph: each source vertex is mapped to the set of its out-neighbours.
pub type Graph = HashMap<Vertex, HashSet<Vertex>>;

/// What a graph is in specifications: the neighbour set of every key.
pub type Adjacency = Map<Vertex, Set<Vertex>>;

/// The mathematical content of a graph.
pub open spec fn adjacency(graph: &Graph) -> Adjacency {
    Map::new(|u: Vertex| graph@.contains_key(u), |u: Vertex| graph@[u]@)
}

/// The graph that holds exactly the given edges.
pub open spec fn graph_of(pairs: Seq<(Vertex, Vertex)>) -> Adjacency {
    Map::new(
        |u: Vertex| exists|v: Vertex| pairs.contains((u, v)),
        |u: Vertex| Set::new(|v: Vertex| pairs.contains((u, v))),
    )
}

/// The neighbours of `u` in `g`; a vertex that is no key has none.
pub open spec fn neighbours(g: Adjacency, u: Vertex) -> Set<Vertex> {
    if g.contains_key(u) {
        g[u]
    } else {
        Set::empty()
    }
}

/// The vertices of a graph: its keys and the neighbours of its keys.
pub open spec fn vertices(g: Adjacency) -> Set<Vertex> {
    Set::new(|v: Vertex| g.contains_key(v) || exists|u: Vertex| neighbours(g, u).contains(v))
}

/// Adding one edge to a sequence of edges adds the child to the parent's neighbours.
proof fn lemma_graph_of_push(pairs: Seq<(Vertex, Vertex)>, parent: Vertex, child: Vertex)
    ensures
        graph_of(pairs.push((parent, child))) == graph_of(pairs).insert(
            parent,
            neighbours(graph_of(pairs), parent).insert(child),
        ),
{
    let longer = pairs.push((parent, child));
    let lhs = graph_of(longer);
    let rhs = graph_of(pairs).insert(parent, neighbours(graph_of(pairs), parent).insert(child));
    assert(longer.last() == (parent, child));
    assert forall|u: Vertex, v: Vertex|
        longer.contains((u, v)) <==> (pairs.contains((u, v)) || (u, v) == (parent, child)) by {
        if pairs.contains((u, v)) {
            let k = choose|k: int| 0 <= k < pairs.len() && pairs[k] == (u, v);
            assert(longer[k] == (u, v));
        }
        if (u, v) == (parent, child) {
            assert(longer[pairs.len() as int] == (u, v));
        }
    }
    assert forall|u: Vertex| lhs.contains_key(u) <==> rhs.contains_key(u) by {
        if lhs.contains_key(u) {
            let v = choose|v: Vertex| longer.contains((u, v));
            assert(pairs.contains((u, v)) || u == parent);
        }
        if rhs.contains_key(u) && u != parent {
            let v = choose|v: Vertex| pairs.contains((u, v));
            assert(longer.contains((u, v)));
        }
        if u == parent {
            assert(longer.contains((u, child)));
        }
    }
    assert forall|u: Vertex| lhs.contains_key(u) implies lhs[u] =~= rhs[u] by {}
    assert(lhs =~~= rhs);
}

/// Constructs a graph from a sequence of (parent, child) pairs.
pub fn from_pairs(pairs: &[(Vertex, Vertex)]) -> (graph: Graph)
    ensures
        adjacency(&graph) == graph_of(pairs@),
{
    let mut graph: Graph = HashMap::new();
    let mut i: usize = 0;
    assert(adjacency(&graph) =~~= graph_of(pairs@.take(0)));
    while i < pairs.len()
        invariant
            i <= pairs.len(),
            adjacency(&graph) == graph_of(pairs@.take(i as int)),
        decreases pairs.len() - i,
    {
        let (parent, child) = pairs[i];
        let ghost before = graph;
        graph.entry(parent).or_insert(HashSet::new()).insert(child);
        proof {
            let s = pairs@.take(i as int);
            assert(pairs@.take(i + 1) == s.push((parent, child)));
            lemma_graph_of_push(s, parent, child);
            assert(graph@.contains_key(parent));
            assert(graph@[parent]@ == neighbours(adjacency(&before), parent).insert(child));
            assert(adjacency(&graph) =~~= adjacency(&before).insert(
                parent,
                neighbours(adjacency(&before), parent).insert(child),
            ));
        }
        i = i + 1;
    }
    assert(pairs@.take(i as int) == pairs@);
    graph
}

/// The graph of a sequence of edges depends on the set of the edges only: neither on their
/// order nor on how often an edge occurs.
pub proof fn theorem_same_edges_same_graph(a: Seq<(Vertex, Vertex)>, b: Seq<(Vertex, Vertex)>)
    requires
        a.to_set() == b.to_set(),
    ensures
        graph_of(a) == graph_of(b),
{
    assert forall|u: Vertex, v: Vertex| a.contains((u, v)) <==> b.contains((u, v)) by {
        assert(a.to_set().contains((u, v)) <==> a.contains((u, v)));
        assert(b.to_set().contains((u, v)) <==> b.contains((u, v)));
    }
    assert forall|u: Vertex| graph_of(a).contains_key(u) <==> graph_of(b).contains_key(u) by {
        if graph_of(a).contains_key(u) {
            let v = choose|v: Vertex| a.contains((u, v));
            assert(b.contains((u, v)));
        }
        if graph_of(b).contains_key(u) {
            let v = choose|v: Vertex| b.contains((u, v));
            assert(a.contains((u, v)));
        }
    }
    assert forall|u: Vertex| graph_of(a).contains_key(u) implies graph_of(a)[u] =~= graph_of(
        b,
    )[u] by {}
    assert(graph_of(a) =~~= graph_of(b));
}

/// In the graph of a sequence of edges, `v` is a neighbour of `u` exactly if `(u, v)` is one
/// of the edges.
pub proof fn theorem_edges_are_neighbours(pairs: Seq<(Vertex, Vertex)>, u: Vertex, v: Vertex)
    ensures
        neighbours(graph_of(pairs), u).contains(v) <==> pairs.contains((u, v)),
{
}

/// A graph has at most two vertices for each of its edges.
pub proof fn theorem_vertices_bound(pairs: Seq<(Vertex, Vertex)>)
    ensures
        vertices(graph_of(pairs)).finite(),
        vertices(graph_of(pairs)).len() <= 2 * pairs.len(),
    decreases pairs.len(),
{
    if pairs.len() == 0 {
        assert(vertices(graph_of(pairs)) =~= Set::<Vertex>::empty()) by {
            assert forall|v: Vertex| !vertices(graph_of(pairs)).contains(v) by {
                if graph_of(pairs).contains_key(v) {
                    let w = choose|w: Vertex| pairs.contains((v, w));
                    assert(false);
                }
                if exists|u: Vertex| neighbours(graph_of(pairs), u).contains(v) {
                    let u = choose|u: Vertex| neighbours(graph_of(pairs), u).contains(v);
                    assert(pairs.contains((u, v)));
                }
            }
        }
    } else {
        let shorter = pairs.drop_last();
        let (parent, child) = pairs.last();
        assert(pairs =~= shorter.push((parent, child)));
        theorem_vertices_bound(shorter);
        lemma_graph_of_push(shorter, parent, child);
        let before = vertices(graph_of(shorter));
        let now = vertices(graph_of(pairs));
        assert forall|v: Vertex| now.contains(v) implies before.insert(parent).insert(
            child,
        ).contains(v) by {
            if v != parent && v != child {
                if graph_of(pairs).contains_key(v) {
                    assert(graph_of(shorter).contains_key(v));
                } else {
                    let u = choose|u: Vertex| neighbours(graph_of(pairs), u).contains(v);
                    assert(neighbours(graph_of(shorter), u).contains(v));
                }
            }
        }
        vstd::set_lib::lemma_len_subset(now, before.insert(parent).insert(child));
    }
}

} // verus!
