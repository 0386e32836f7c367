//! Connected components: when the trees of a traversal are the components of the graph.
use crate::forest::earlier_trees;
use crate::forest::forest_of;
use crate::forest::roots;
use crate::forest::theorem_forest_partitions;
use crate::forest::theorem_trees_are_what_roots_reach;
use crate::forest::tree_of;
use crate::graph::Adjacency;
use crate::graph::Vertex;
use crate::graph::neighbours;
use crate::graph::vertices;
use crate::reach::reaches;
use crate::reach::theorem_visits_every_vertex;
use crate::reach::walks;
use crate::reach::walks_between;
use crate::trace::Event;
use crate::trace::dfs_trace;
use crate::trace::started;
use vstd::prelude::*;
use vstd::set_lib::lemma_int_range;
use vstd::set_lib::lemma_map_size_bound;
use vstd::set_lib::set_int_range;

verus! {

/// Every edge of the graph has its reverse: the graph is undirected.
pub open spec fn symmetric(g: Adjacency) -> bool {
    forall|u: Vertex, w: Vertex| #[trigger]
        neighbours(g, u).contains(w) ==> neighbours(g, w).contains(u)
}

/// The graph with the reverse of every edge added: `g` without the directions of its edges.
pub open spec fn undirected(g: Adjacency) -> Adjacency {
    Map::new(
        |u: Vertex| vertices(g).contains(u),
        |u: Vertex|
            Set::new(|w: Vertex| neighbours(g, u).contains(w) || neighbours(g, w).contains(u)),
    )
}

/// There is a walk in the graph from `a` to `b`.
pub open spec fn connected(g: Adjacency, a: Vertex, b: Vertex) -> bool {
    reaches(g, a, b, Set::empty())
}

/// The vertices to which there is a walk from `a`.
pub open spec fn component(g: Adjacency, a: Vertex) -> Set<Vertex> {
    Set::new(|b: Vertex| connected(g, a, b))
}

/// The connected components of a graph: for each vertex, the vertices with which it is
/// connected when the directions of the edges are left aside.
pub open spec fn components(g: Adjacency) -> Set<Set<Vertex>> {
    Set::new(
        |c: Set<Vertex>|
            exists|v: Vertex| vertices(g).contains(v) && c == component(undirected(g), v),
    )
}

/// An edge leads from the tree of one vertex into the tree of another.
pub open spec fn between_trees(g: Adjacency, u: Vertex, w: Vertex) -> bool {
    neighbours(g, u).contains(w) && tree_of(dfs_trace(g), u) != tree_of(dfs_trace(g), w)
}

/// The edges of the undirected graph are those of the graph and their reverses.
proof fn lemma_undirected_edges(g: Adjacency, u: Vertex, w: Vertex)
    ensures
        neighbours(undirected(g), u).contains(w) <==> neighbours(g, u).contains(w) || neighbours(
            g,
            w,
        ).contains(u),
        neighbours(undirected(g), u).contains(w) ==> vertices(g).contains(u) && vertices(
            g,
        ).contains(w),
{
    if neighbours(g, u).contains(w) {
        assert(g.contains_key(u));
    }
    if neighbours(g, w).contains(u) {
        assert(g.contains_key(w));
    }
}

/// A walk in the graph is a walk in the undirected graph.
proof fn lemma_walks_undirected(g: Adjacency, p: Seq<Vertex>)
    requires
        walks(g, p),
    ensures
        walks(undirected(g), p),
{
    assert forall|i: int| 0 <= i < p.len() - 1 implies neighbours(
        undirected(g),
        #[trigger] p[i],
    ).contains(p[i + 1]) by {
        lemma_undirected_edges(g, p[i], p[i + 1]);
    }
}

/// A walk can be gone on along an edge to a vertex that is not forbidden.
proof fn lemma_reaches_further(g: Adjacency, a: Vertex, b: Vertex, c: Vertex, seen: Set<Vertex>)
    requires
        reaches(g, a, b, seen),
        neighbours(g, b).contains(c),
        !seen.contains(c),
    ensures
        reaches(g, a, c, seen),
{
    let p = choose|p: Seq<Vertex>| walks_between(g, p, a, b, seen);
    let q = p.push(c);
    assert forall|j: int| 0 <= j < q.len() - 1 implies neighbours(g, #[trigger] q[j]).contains(
        q[j + 1],
    ) by {
        assert(q[j] == p[j]);
        if j < p.len() - 1 {
            assert(q[j + 1] == p[j + 1]);
        }
    }
    assert forall|j: int| 0 <= j < q.len() implies !seen.contains(#[trigger] q[j]) by {
        if j < p.len() {
            assert(q[j] == p[j]);
        }
    }
    assert(walks_between(g, q, a, c, seen));
}

/// In the undirected graph, a walk can be gone backwards.
proof fn lemma_connected_back(g: Adjacency, a: Vertex, b: Vertex)
    requires
        connected(undirected(g), a, b),
    ensures
        connected(undirected(g), b, a),
{
    let h = undirected(g);
    let p = choose|p: Seq<Vertex>| walks_between(h, p, a, b, Set::empty());
    let q = p.reverse();
    assert forall|j: int| 0 <= j < q.len() - 1 implies neighbours(h, #[trigger] q[j]).contains(
        q[j + 1],
    ) by {
        let i = p.len() - 2 - j;
        assert(q[j] == p[i + 1]);
        assert(q[j + 1] == p[i]);
        assert(neighbours(h, p[i]).contains(p[i + 1]));
        lemma_undirected_edges(g, p[i], p[i + 1]);
        lemma_undirected_edges(g, p[i + 1], p[i]);
    }
    assert(q[0] == p[p.len() - 1]);
    assert(q[q.len() - 1] == p[0]);
    assert(walks_between(h, q, b, a, Set::empty()));
}

/// A walk to a vertex and a walk on from it make a walk.
proof fn lemma_connected_on(g: Adjacency, a: Vertex, b: Vertex, c: Vertex)
    requires
        connected(g, a, b),
        connected(g, b, c),
    ensures
        connected(g, a, c),
{
    let p = choose|p: Seq<Vertex>| walks_between(g, p, a, b, Set::empty());
    let q = choose|q: Seq<Vertex>| walks_between(g, q, b, c, Set::empty());
    let r = p + q.drop_first();
    assert forall|j: int| 0 <= j < r.len() - 1 implies neighbours(g, #[trigger] r[j]).contains(
        r[j + 1],
    ) by {
        if j < p.len() - 1 {
            assert(r[j] == p[j]);
            assert(r[j + 1] == p[j + 1]);
        } else if j == p.len() - 1 {
            assert(r[j] == p[j]);
            assert(r[j] == q[0]);
            assert(r[j + 1] == q[1]);
        } else {
            let i = j - p.len() + 1;
            assert(r[j] == q[i]);
            assert(r[j + 1] == q[i + 1]);
        }
    }
    if q.len() == 1 {
        assert(r =~= p);
    } else {
        assert(r.last() == q.last());
    }
    assert(r[0] == p[0]);
    assert(walks_between(g, r, a, c, Set::empty()));
}

/// Two vertices that are connected in the undirected graph have the same component.
proof fn lemma_same_component(g: Adjacency, a: Vertex, b: Vertex)
    requires
        connected(undirected(g), a, b),
    ensures
        component(undirected(g), a) == component(undirected(g), b),
{
    let h = undirected(g);
    lemma_connected_back(g, a, b);
    assert forall|c: Vertex| component(h, a).contains(c) <==> component(h, b).contains(c) by {
        if connected(h, a, c) {
            lemma_connected_on(h, b, a, c);
        }
        if connected(h, b, c) {
            lemma_connected_on(h, a, b, c);
        }
    }
    assert(component(h, a) =~= component(h, b));
}

/// Every vertex of a tree is connected with the root of the tree.
pub proof fn lemma_tree_is_connected(g: Adjacency, v: Vertex)
    requires
        vertices(g).contains(v),
    ensures
        0 <= tree_of(dfs_trace(g), v) - 1 < forest_of(dfs_trace(g)).len(),
        connected(undirected(g), roots(dfs_trace(g))[tree_of(dfs_trace(g), v) - 1], v),
{
    let t = dfs_trace(g);
    let k = tree_of(t, v) - 1;
    theorem_visits_every_vertex(g);
    assert(started(t).contains(v));
    theorem_forest_partitions(g);
    assert(t.contains(Event::Start(v)));
    theorem_trees_are_what_roots_reach(g, k, v);
    let p = choose|p: Seq<Vertex>| walks_between(g, p, roots(t)[k], v, earlier_trees(t, k));
    lemma_walks_undirected(g, p);
    assert(walks_between(undirected(g), p, roots(t)[k], v, Set::empty()));
}

/// No edge of a graph leads into a later tree of its traversal: from the tree of a vertex,
/// an edge leads into that tree or into an earlier one.
pub proof fn theorem_edges_lead_back(g: Adjacency, u: Vertex, w: Vertex)
    requires
        neighbours(g, u).contains(w),
    ensures
        tree_of(dfs_trace(g), w) <= tree_of(dfs_trace(g), u),
{
    let t = dfs_trace(g);
    let k = tree_of(t, u) - 1;
    theorem_visits_every_vertex(g);
    assert(g.contains_key(u));
    assert(started(t).contains(u));
    assert(started(t).contains(w));
    assert(t.contains(Event::Start(u)));
    assert(t.contains(Event::Start(w)));
    theorem_forest_partitions(g);
    if tree_of(t, w) > tree_of(t, u) {
        theorem_trees_are_what_roots_reach(g, k, u);
        lemma_reaches_further(g, roots(t)[k], u, w, earlier_trees(t, k));
        theorem_trees_are_what_roots_reach(g, k, w);
        assert(forest_of(t)[k].contains(w));
    }
}

/// A walk in the undirected graph stays in the tree in which it begins, if no edge leads
/// from one tree into another.
proof fn lemma_walk_stays_in_tree(g: Adjacency, p: Seq<Vertex>, i: int)
    requires
        forall|u: Vertex, w: Vertex| !between_trees(g, u, w),
        walks(undirected(g), p),
        vertices(g).contains(p[0]),
        0 <= i < p.len(),
    ensures
        vertices(g).contains(p[i]),
        tree_of(dfs_trace(g), p[i]) == tree_of(dfs_trace(g), p[0]),
    decreases i,
{
    if i > 0 {
        lemma_walk_stays_in_tree(g, p, i - 1);
        assert(neighbours(undirected(g), p[i - 1]).contains(p[i - 1 + 1]));
        lemma_undirected_edges(g, p[i - 1], p[i]);
        assert(!between_trees(g, p[i - 1], p[i]));
        assert(!between_trees(g, p[i], p[i - 1]));
    }
}

/// If no edge leads from one tree into another, each tree of a traversal is a connected
/// component of the graph: that of its root.
pub proof fn theorem_trees_are_components(g: Adjacency, k: int)
    requires
        forall|u: Vertex, w: Vertex| !between_trees(g, u, w),
        0 <= k < forest_of(dfs_trace(g)).len(),
    ensures
        forest_of(dfs_trace(g))[k] == component(undirected(g), roots(dfs_trace(g))[k]),
{
    let t = dfs_trace(g);
    let f = forest_of(t);
    let r = roots(t)[k];
    let h = undirected(g);
    theorem_forest_partitions(g);
    theorem_visits_every_vertex(g);
    assert(f[k].contains(r));
    assert(started(t).contains(r));
    assert forall|w: Vertex| f[k].contains(w) <==> component(h, r).contains(w) by {
        if f[k].contains(w) {
            assert(started(t).contains(w));
            lemma_tree_is_connected(g, w);
        }
        if connected(h, r, w) {
            let p = choose|p: Seq<Vertex>| walks_between(h, p, r, w, Set::empty());
            lemma_walk_stays_in_tree(g, p, p.len() - 1);
            assert(started(t).contains(w));
            assert(t.contains(Event::Start(w)));
        }
    }
    assert(f[k] =~= component(h, r));
}

/// The trees of a traversal are different sets.
proof fn lemma_trees_differ(g: Adjacency)
    ensures
        forest_of(dfs_trace(g)).no_duplicates(),
{
    let t = dfs_trace(g);
    let f = forest_of(t);
    theorem_forest_partitions(g);
    assert forall|i: int, j: int| 0 <= i < f.len() && 0 <= j < f.len() && i != j implies f[i]
        != f[j] by {
        assert(f[i].contains(roots(t)[i]));
        if f[j].contains(roots(t)[i]) {
            assert(tree_of(t, roots(t)[i]) == i + 1);
            assert(tree_of(t, roots(t)[i]) == j + 1);
        }
    }
}

/// If no edge leads from one tree into another, the trees of a traversal are the connected
/// components of the graph, each once: there are as many trees as components.
pub proof fn theorem_as_many_trees_as_components(g: Adjacency)
    requires
        forall|u: Vertex, w: Vertex| !between_trees(g, u, w),
    ensures
        forest_of(dfs_trace(g)).no_duplicates(),
        forest_of(dfs_trace(g)).to_set() == components(g),
        components(g).finite(),
        forest_of(dfs_trace(g)).len() == components(g).len(),
{
    let t = dfs_trace(g);
    let f = forest_of(t);
    let h = undirected(g);
    theorem_forest_partitions(g);
    theorem_visits_every_vertex(g);
    lemma_trees_differ(g);
    assert forall|c: Set<Vertex>| f.to_set().contains(c) <==> components(g).contains(c) by {
        if f.contains(c) {
            let k = f.index_of(c);
            theorem_trees_are_components(g, k);
            assert(f[k].contains(roots(t)[k]));
            assert(started(t).contains(roots(t)[k]));
        }
        if components(g).contains(c) {
            let v = choose|v: Vertex| vertices(g).contains(v) && c == component(h, v);
            let k = tree_of(t, v) - 1;
            lemma_tree_is_connected(g, v);
            lemma_same_component(g, roots(t)[k], v);
            theorem_trees_are_components(g, k);
            assert(f.contains(f[k]));
        }
    }
    assert(f.to_set() =~= components(g));
    f.unique_seq_to_set();
    vstd::seq_lib::seq_to_set_is_finite(f);
}

/// If an edge leads from one tree into another, the traversal has more trees than the graph
/// has connected components.
pub proof fn theorem_more_trees_than_components(g: Adjacency, u: Vertex, w: Vertex)
    requires
        between_trees(g, u, w),
    ensures
        components(g).finite(),
        components(g).len() < forest_of(dfs_trace(g)).len(),
{
    let t = dfs_trace(g);
    let f = forest_of(t);
    let h = undirected(g);
    let n = f.len() as int;
    theorem_forest_partitions(g);
    theorem_visits_every_vertex(g);
    lemma_undirected_edges(g, u, w);
    lemma_tree_is_connected(g, u);
    lemma_tree_is_connected(g, w);
    let a = tree_of(t, u) - 1;
    let b = tree_of(t, w) - 1;
    let of_tree = |k: int| component(h, roots(t)[k]);
    assert(of_tree(a) == of_tree(b)) by {
        assert(walks_between(h, seq![u, w], u, w, Set::empty()));
        lemma_same_component(g, roots(t)[a], u);
        lemma_same_component(g, u, w);
        lemma_same_component(g, roots(t)[b], w);
    }
    let others = set_int_range(0, n).remove(b);
    lemma_int_range(0, n);
    assert forall|c: Set<Vertex>| others.map(of_tree).contains(c) <==> components(g).contains(
        c,
    ) by {
        if others.map(of_tree).contains(c) {
            let k = choose|k: int| others.contains(k) && of_tree(k) == c;
            assert(f[k].contains(roots(t)[k]));
            assert(started(t).contains(roots(t)[k]));
        }
        if components(g).contains(c) {
            let v = choose|v: Vertex| vertices(g).contains(v) && c == component(h, v);
            let k = tree_of(t, v) - 1;
            lemma_tree_is_connected(g, v);
            lemma_same_component(g, roots(t)[k], v);
            if k == b {
                assert(others.contains(a) && of_tree(a) == c);
            } else {
                assert(others.contains(k) && of_tree(k) == c);
            }
        }
    }
    assert(others.map(of_tree) =~= components(g));
    lemma_map_size_bound(others, components(g), of_tree);
}

/// The traversal of an undirected graph has as many trees as the graph has connected
/// components: its trees are the components.
pub proof fn theorem_undirected(g: Adjacency)
    requires
        symmetric(g),
    ensures
        forall|u: Vertex, w: Vertex| !between_trees(g, u, w),
        forest_of(dfs_trace(g)).to_set() == components(g),
        forest_of(dfs_trace(g)).len() == components(g).len(),
{
    assert forall|u: Vertex, w: Vertex| !between_trees(g, u, w) by {
        if neighbours(g, u).contains(w) {
            theorem_edges_lead_back(g, u, w);
            theorem_edges_lead_back(g, w, u);
        }
    }
    theorem_as_many_trees_as_components(g);
}

} // verus!
