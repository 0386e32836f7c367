//! What a traversal reaches: every vertex of the graph, along the edges; and what follows
//! for graphs without cycles.
use crate::graph::Adjacency;
use crate::graph::Vertex;
use crate::graph::neighbours;
use crate::graph::vertices;
use crate::nesting::lemma_ends_follow_at;
use crate::nesting::lemma_framed_at;
use crate::nesting::lemma_led_at;
use crate::nesting::lemma_side_by_side_at;
use crate::order::descending;
use crate::order::lemma_descending_lists;
use crate::structure::lemma_dfs_trace;
use crate::structure::lemma_explore_parts;
use crate::structure::lemma_rest;
use crate::structure::lemma_visit_parts;
use crate::trace::Event;
use crate::trace::announce;
use crate::trace::dfs_trace;
use crate::trace::explore;
use crate::trace::lemma_unseen_insert;
use crate::trace::started;
use crate::trace::unseen;
use crate::trace::visit;
use vstd::prelude::*;

verus! {

/// Wherever an edge leads from a vertex that the trace enters, the trace enters that vertex
/// too, unless it was entered before.
pub open spec fn follows_edges(g: Adjacency, t: Seq<Event>, seen: Set<Vertex>) -> bool {
    forall|u: Vertex, w: Vertex|
        #![trigger t.contains(Event::Start(u)), neighbours(g, u).contains(w)]
        t.contains(Event::Start(u)) && neighbours(g, u).contains(w) ==> seen.contains(w)
            || t.contains(Event::Start(w))
}

/// The walk that enters a vertex follows every edge from what it enters.
pub proof fn lemma_visit_follows_edges(g: Adjacency, v: Vertex, seen: Set<Vertex>)
    requires
        !seen.contains(v),
    ensures
        follows_edges(g, visit(g, v, seen), seen),
    decreases unseen(seen).len(), 0nat, 0nat,
{
    let rest = descending(neighbours(g, v));
    let inner = explore(g, Some(v), rest, seen.insert(v));
    let t = visit(g, v, seen);
    lemma_visit_parts(g, v, seen);
    lemma_unseen_insert(seen, v);
    lemma_explore_follows_edges(g, Some(v), rest, seen.insert(v));
    assert forall|u: Vertex, w: Vertex|
        #![trigger t.contains(Event::Start(u)), neighbours(g, u).contains(w)]
        t.contains(Event::Start(u)) && neighbours(g, u).contains(w) implies seen.contains(w)
        || t.contains(Event::Start(w)) by {
        lemma_framed_at(v, inner, Event::Start(u));
        lemma_framed_at(v, inner, Event::Start(w));
        if u == v {
            assert(rest.contains(w));
        }
    }
}

/// The walk through a list of candidates follows every edge from what it enters.
pub proof fn lemma_explore_follows_edges(
    g: Adjacency,
    from: Option<Vertex>,
    rest: Seq<Vertex>,
    seen: Set<Vertex>,
)
    ensures
        follows_edges(g, explore(g, from, rest, seen), seen),
    decreases unseen(seen).len(), 1nat, rest.len(),
{
    let t = explore(g, from, rest, seen);
    if rest.len() == 0 {
    } else if seen.contains(rest[0]) {
        lemma_explore_follows_edges(g, from, rest.drop_first(), seen);
    } else {
        let e = announce(from, rest[0]);
        let sub = visit(g, rest[0], seen);
        let later = seen.union(started(sub));
        let after = explore(g, from, rest.drop_first(), later);
        let head = seq![e] + sub;
        lemma_explore_parts(g, from, rest, seen);
        lemma_visit_follows_edges(g, rest[0], seen);
        lemma_explore_follows_edges(g, from, rest.drop_first(), later);
        assert forall|u: Vertex, w: Vertex|
            #![trigger t.contains(Event::Start(u)), neighbours(g, u).contains(w)]
            t.contains(Event::Start(u)) && neighbours(g, u).contains(w) implies seen.contains(w)
            || t.contains(Event::Start(w)) by {
            lemma_side_by_side_at(head, after, Event::Start(u));
            lemma_side_by_side_at(head, after, Event::Start(w));
            lemma_led_at(e, sub, Event::Start(u));
            lemma_led_at(e, sub, Event::Start(w));
        }
    }
}

/// A traversal enters every vertex of the graph, and nothing else: the keys, and whatever
/// is a neighbour of a key.
pub proof fn theorem_visits_every_vertex(g: Adjacency)
    ensures
        started(dfs_trace(g)) == vertices(g),
{
    let t = dfs_trace(g);
    lemma_dfs_trace(g);
    lemma_descending_lists(g.dom());
    lemma_explore_follows_edges(g, None, descending(g.dom()), Set::empty());
    assert forall|w: Vertex| started(t).contains(w) <==> vertices(g).contains(w) by {
        if t.contains(Event::Start(w)) {
            if t.contains(Event::InitialVisit(w)) {
                assert(descending(g.dom()).contains(w));
            } else {
                let u = choose|u: Vertex| t.contains(Event::PreVisit(u, w));
                assert(neighbours(g, u).contains(w));
            }
        }
        if vertices(g).contains(w) {
            if g.contains_key(w) {
                assert(descending(g.dom()).contains(w));
            } else {
                let u = choose|u: Vertex| neighbours(g, u).contains(w);
                assert(g.contains_key(u));
                assert(descending(g.dom()).contains(u));
                assert(t.contains(Event::Start(u)));
            }
        }
    }
    assert(started(t) =~= vertices(g));
}

/// `p` is a walk in the graph: a vertex, or several with an edge from each to the next.
pub open spec fn walks(g: Adjacency, p: Seq<Vertex>) -> bool {
    &&& p.len() >= 1
    &&& forall|i: int| 0 <= i < p.len() - 1 ==> neighbours(g, #[trigger] p[i]).contains(p[i + 1])
}

/// `p` is a walk from `a` to `b` that meets no vertex of `seen`.
pub open spec fn walks_between(
    g: Adjacency,
    p: Seq<Vertex>,
    a: Vertex,
    b: Vertex,
    seen: Set<Vertex>,
) -> bool {
    &&& walks(g, p)
    &&& p[0] == a
    &&& p.last() == b
    &&& forall|i: int| 0 <= i < p.len() ==> !seen.contains(#[trigger] p[i])
}

/// There is a walk from `a` to `b` that meets no vertex of `seen`.
pub open spec fn reaches(g: Adjacency, a: Vertex, b: Vertex, seen: Set<Vertex>) -> bool {
    exists|p: Seq<Vertex>| walks_between(g, p, a, b, seen)
}

/// The graph has a cycle: a walk along at least one edge that ends where it begins.
pub open spec fn cyclic(g: Adjacency) -> bool {
    exists|p: Seq<Vertex>| walks(g, p) && p.len() >= 2 && p[0] == p.last()
}

/// A vertex reaches itself.
pub proof fn lemma_reaches_itself(g: Adjacency, a: Vertex, seen: Set<Vertex>)
    requires
        !seen.contains(a),
    ensures
        reaches(g, a, a, seen),
{
    assert(walks_between(g, seq![a], a, a, seen));
}

/// A vertex reaches what a neighbour of it reaches.
pub proof fn lemma_reaches_through(
    g: Adjacency,
    a: Vertex,
    x: Vertex,
    b: Vertex,
    seen: Set<Vertex>,
    later: Set<Vertex>,
)
    requires
        !seen.contains(a),
        neighbours(g, a).contains(x),
        seen.subset_of(later),
        reaches(g, x, b, later),
    ensures
        reaches(g, a, b, seen),
{
    let p = choose|p: Seq<Vertex>| walks_between(g, p, x, b, later);
    let q = seq![a] + p;
    assert forall|i: int| 0 <= i < q.len() - 1 implies neighbours(g, #[trigger] q[i]).contains(
        q[i + 1],
    ) by {
        if i > 0 {
            assert(q[i] == p[i - 1]);
            assert(q[i + 1] == p[i]);
        }
    }
    assert forall|i: int| 0 <= i < q.len() implies !seen.contains(#[trigger] q[i]) by {
        if i > 0 {
            assert(q[i] == p[i - 1]);
        }
    }
    assert(walks_between(g, q, a, b, seen));
}

/// What is reached while more is forbidden is reached while less is.
pub proof fn lemma_reaches_anyway(
    g: Adjacency,
    a: Vertex,
    b: Vertex,
    seen: Set<Vertex>,
    later: Set<Vertex>,
)
    requires
        seen.subset_of(later),
        reaches(g, a, b, later),
    ensures
        reaches(g, a, b, seen),
{
    let p = choose|p: Seq<Vertex>| walks_between(g, p, a, b, later);
    assert(walks_between(g, p, a, b, seen));
}

/// An edge back to where a walk began closes a cycle.
pub proof fn lemma_closes_cycle(g: Adjacency, a: Vertex, b: Vertex, seen: Set<Vertex>)
    requires
        reaches(g, a, b, seen),
        neighbours(g, b).contains(a),
    ensures
        cyclic(g),
{
    let p = choose|p: Seq<Vertex>| walks_between(g, p, a, b, seen);
    let q = p.push(a);
    assert forall|i: int| 0 <= i < q.len() - 1 implies neighbours(g, #[trigger] q[i]).contains(
        q[i + 1],
    ) by {
        assert(q[i] == p[i]);
        if i < p.len() - 1 {
            assert(q[i + 1] == p[i + 1]);
        }
    }
    assert(walks(g, q) && q.len() >= 2 && q[0] == q.last());
}

/// Whatever the walk that enters `v` enters, `v` reaches it through vertices that were not
/// entered before.
pub proof fn lemma_visit_reaches(g: Adjacency, v: Vertex, seen: Set<Vertex>)
    requires
        !seen.contains(v),
    ensures
        forall|w: Vertex| #[trigger]
            visit(g, v, seen).contains(Event::Start(w)) ==> reaches(g, v, w, seen),
    decreases unseen(seen).len(), 0nat, 0nat,
{
    let rest = descending(neighbours(g, v));
    let inner = explore(g, Some(v), rest, seen.insert(v));
    let t = visit(g, v, seen);
    lemma_visit_parts(g, v, seen);
    lemma_unseen_insert(seen, v);
    lemma_explore_reaches(g, Some(v), rest, seen.insert(v));
    assert forall|w: Vertex| #[trigger] t.contains(Event::Start(w)) implies reaches(
        g,
        v,
        w,
        seen,
    ) by {
        lemma_framed_at(v, inner, Event::Start(w));
        if w == v {
            lemma_reaches_itself(g, v, seen);
        } else {
            assert(inner.contains(Event::Start(w)));
            let x = choose|x: Vertex|
                rest.contains(x) && reaches(g, x, w, seen.insert(v));
            lemma_reaches_through(g, v, x, w, seen, seen.insert(v));
        }
    }
}

/// Whatever the walk through a list of candidates enters, one of the candidates reaches it
/// through vertices that were not entered before.
pub proof fn lemma_explore_reaches(
    g: Adjacency,
    from: Option<Vertex>,
    rest: Seq<Vertex>,
    seen: Set<Vertex>,
)
    ensures
        forall|w: Vertex| #[trigger]
            explore(g, from, rest, seen).contains(Event::Start(w)) ==> exists|x: Vertex|
                rest.contains(x) && reaches(g, x, w, seen),
    decreases unseen(seen).len(), 1nat, rest.len(),
{
    let t = explore(g, from, rest, seen);
    if rest.len() == 0 {
    } else {
        lemma_rest(rest);
        let tail = rest.drop_first();
        if seen.contains(rest[0]) {
            lemma_explore_reaches(g, from, tail, seen);
            assert(t == explore(g, from, tail, seen));
            assert forall|w: Vertex| #[trigger] t.contains(Event::Start(w)) implies exists|
                x: Vertex,
            |
                rest.contains(x) && reaches(g, x, w, seen) by {
                assert(explore(g, from, tail, seen).contains(Event::Start(w)));
                let x = choose|x: Vertex| tail.contains(x) && reaches(g, x, w, seen);
                assert(rest.contains(x));
            }
        } else {
            let e = announce(from, rest[0]);
            let sub = visit(g, rest[0], seen);
            let later = seen.union(started(sub));
            let after = explore(g, from, tail, later);
            let head = seq![e] + sub;
            lemma_explore_parts(g, from, rest, seen);
            lemma_visit_reaches(g, rest[0], seen);
            lemma_explore_reaches(g, from, tail, later);
            assert forall|w: Vertex| #[trigger] t.contains(Event::Start(w)) implies exists|
                x: Vertex,
            |
                rest.contains(x) && reaches(g, x, w, seen) by {
                lemma_side_by_side_at(head, after, Event::Start(w));
                lemma_led_at(e, sub, Event::Start(w));
                if after.contains(Event::Start(w)) {
                    let x = choose|x: Vertex| tail.contains(x) && reaches(g, x, w, later);
                    lemma_reaches_anyway(g, x, w, seen, later);
                    assert(rest.contains(x));
                } else {
                    assert(sub.contains(Event::Start(w)));
                    assert(rest.contains(rest[0]));
                    assert(reaches(g, rest[0], w, seen));
                }
            }
        }
    }
}

/// Wherever an edge leads from a vertex that the trace enters, the trace leaves that vertex
/// before the one from which the edge comes, unless it was entered before the trace.
pub open spec fn leaves_targets_first(g: Adjacency, t: Seq<Event>, seen: Set<Vertex>) -> bool {
    forall|u: Vertex, w: Vertex|
        #![trigger t.contains(Event::Start(u)), neighbours(g, u).contains(w)]
        t.contains(Event::Start(u)) && neighbours(g, u).contains(w) ==> seen.contains(w) || (
        t.contains(Event::End(w)) && t.index_of(Event::End(w)) < t.index_of(Event::End(u)))
}

/// In a graph without cycles, the walk that enters a vertex leaves the target of every edge
/// before its source.
pub proof fn lemma_visit_leaves_targets_first(g: Adjacency, v: Vertex, seen: Set<Vertex>)
    requires
        !seen.contains(v),
        !cyclic(g),
    ensures
        leaves_targets_first(g, visit(g, v, seen), seen),
    decreases unseen(seen).len(), 0nat, 0nat,
{
    let rest = descending(neighbours(g, v));
    let inner = explore(g, Some(v), rest, seen.insert(v));
    let t = visit(g, v, seen);
    lemma_visit_parts(g, v, seen);
    lemma_unseen_insert(seen, v);
    lemma_explore_leaves_targets_first(g, Some(v), rest, seen.insert(v));
    lemma_explore_reaches(g, Some(v), rest, seen.insert(v));
    assert forall|u: Vertex, w: Vertex|
        #![trigger t.contains(Event::Start(u)), neighbours(g, u).contains(w)]
        t.contains(Event::Start(u)) && neighbours(g, u).contains(w) implies seen.contains(w) || (
    t.contains(Event::End(w)) && t.index_of(Event::End(w)) < t.index_of(Event::End(u))) by {
        lemma_framed_at(v, inner, Event::Start(u));
        lemma_framed_at(v, inner, Event::Start(w));
        lemma_framed_at(v, inner, Event::End(u));
        lemma_framed_at(v, inner, Event::End(w));
        if u == v {
            assert(rest.contains(w));
            if w == v {
                lemma_reaches_itself(g, v, seen);
                lemma_closes_cycle(g, v, v, seen);
            } else if !seen.contains(w) {
                assert(inner.contains(Event::Start(w)));
                lemma_ends_follow_at(inner, w);
            }
        } else {
            assert(inner.contains(Event::Start(u)));
            lemma_ends_follow_at(inner, u);
            if w == v {
                let x = choose|x: Vertex| rest.contains(x) && reaches(g, x, u, seen.insert(v));
                lemma_reaches_through(g, v, x, u, seen, seen.insert(v));
                lemma_closes_cycle(g, v, u, seen);
            }
        }
    }
}

/// In a graph without cycles, the walk through a list of candidates leaves the target of
/// every edge before its source.
pub proof fn lemma_explore_leaves_targets_first(
    g: Adjacency,
    from: Option<Vertex>,
    rest: Seq<Vertex>,
    seen: Set<Vertex>,
)
    requires
        !cyclic(g),
    ensures
        leaves_targets_first(g, explore(g, from, rest, seen), seen),
    decreases unseen(seen).len(), 1nat, rest.len(),
{
    let t = explore(g, from, rest, seen);
    if rest.len() == 0 {
    } else if seen.contains(rest[0]) {
        lemma_explore_leaves_targets_first(g, from, rest.drop_first(), seen);
    } else {
        let e = announce(from, rest[0]);
        let sub = visit(g, rest[0], seen);
        let later = seen.union(started(sub));
        let after = explore(g, from, rest.drop_first(), later);
        let head = seq![e] + sub;
        lemma_explore_parts(g, from, rest, seen);
        lemma_visit_leaves_targets_first(g, rest[0], seen);
        lemma_explore_leaves_targets_first(g, from, rest.drop_first(), later);
        assert forall|u: Vertex, w: Vertex|
            #![trigger t.contains(Event::Start(u)), neighbours(g, u).contains(w)]
            t.contains(Event::Start(u)) && neighbours(g, u).contains(w) implies seen.contains(w)
            || (t.contains(Event::End(w)) && t.index_of(Event::End(w)) < t.index_of(
            Event::End(u),
        )) by {
            lemma_side_by_side_at(head, after, Event::Start(u));
            lemma_side_by_side_at(head, after, Event::End(u));
            lemma_side_by_side_at(head, after, Event::End(w));
            lemma_led_at(e, sub, Event::Start(u));
            lemma_led_at(e, sub, Event::End(u));
            lemma_led_at(e, sub, Event::End(w));
            lemma_led_at(e, sub, Event::Start(w));
            if after.contains(Event::Start(u)) {
                lemma_ends_follow_at(after, u);
                if sub.contains(Event::Start(w)) {
                    lemma_ends_follow_at(sub, w);
                }
            } else {
                assert(sub.contains(Event::Start(u)));
                lemma_ends_follow_at(sub, u);
            }
        }
    }
}

/// A walk that begins at a vertex that the trace enters, and that meets nothing entered
/// before the trace, stays among the vertices that the trace enters, if the trace follows
/// the edges.
proof fn lemma_walk_stays(g: Adjacency, t: Seq<Event>, seen: Set<Vertex>, p: Seq<Vertex>, i: int)
    requires
        follows_edges(g, t, seen),
        walks(g, p),
        forall|j: int| 0 <= j < p.len() ==> !seen.contains(#[trigger] p[j]),
        t.contains(Event::Start(p[0])),
        0 <= i < p.len(),
    ensures
        t.contains(Event::Start(p[i])),
    decreases i,
{
    if i > 0 {
        lemma_walk_stays(g, t, seen, p, i - 1);
        assert(neighbours(g, p[i - 1]).contains(p[i - 1 + 1]));
        assert(!seen.contains(p[i]));
    }
}

/// The walk that enters `v` enters exactly what `v` reaches through vertices that were not
/// entered before.
pub proof fn lemma_visit_enters_what_it_reaches(g: Adjacency, v: Vertex, seen: Set<Vertex>)
    requires
        !seen.contains(v),
    ensures
        forall|w: Vertex| #[trigger]
            visit(g, v, seen).contains(Event::Start(w)) <==> reaches(g, v, w, seen),
{
    let t = visit(g, v, seen);
    lemma_visit_reaches(g, v, seen);
    lemma_visit_follows_edges(g, v, seen);
    lemma_visit_parts(g, v, seen);
    assert forall|w: Vertex| reaches(g, v, w, seen) implies #[trigger] t.contains(
        Event::Start(w),
    ) by {
        let p = choose|p: Seq<Vertex>| walks_between(g, p, v, w, seen);
        lemma_framed_at(
            v,
            explore(g, Some(v), descending(neighbours(g, v)), seen.insert(v)),
            Event::Start(v),
        );
        lemma_walk_stays(g, t, seen, p, p.len() - 1);
    }
}

} // verus!
