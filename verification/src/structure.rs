//! What holds of the events of every traversal: they are well nested and keep to the graph.
use crate::graph::Adjacency;
use crate::graph::Vertex;
use crate::graph::neighbours;
use crate::nesting::bracketed;
use crate::nesting::enclosed;
use crate::nesting::ends_follow;
use crate::nesting::framed;
use crate::nesting::grounded;
use crate::nesting::heralded;
use crate::nesting::led;
use crate::nesting::lemma_bracketed_at;
use crate::nesting::lemma_enclosed_concat;
use crate::nesting::lemma_enclosed_empty;
use crate::nesting::lemma_enclosed_led;
use crate::nesting::lemma_enclosed_wrap;
use crate::nesting::lemma_ends_follow_at;
use crate::nesting::lemma_framed_at;
use crate::nesting::lemma_grounded_at;
use crate::nesting::lemma_led_at;
use crate::nesting::lemma_nested_announce;
use crate::nesting::lemma_nested_concat;
use crate::nesting::lemma_nested_wrap;
use crate::nesting::lemma_side_by_side_at;
use crate::nesting::side_by_side;
use crate::nesting::well_nested;
use crate::nesting::wrap;
use crate::order::descending;
use crate::order::lemma_descending_lists;
use crate::order::lemma_descending_unique;
use crate::trace::Event;
use crate::trace::announce;
use crate::trace::announces;
use crate::trace::dfs_trace;
use crate::trace::explore;
use crate::trace::lemma_unseen_grows;
use crate::trace::lemma_unseen_insert;
use crate::trace::started;
use crate::trace::unseen;
use crate::trace::visit;
use vstd::prelude::*;

verus! {

/// The trace enters no vertex of `seen`.
pub open spec fn fresh(t: Seq<Event>, seen: Set<Vertex>) -> bool {
    forall|v: Vertex| #[trigger] t.contains(Event::Start(v)) ==> !seen.contains(v)
}

/// The empty trace is well nested.
pub proof fn lemma_nested_empty()
    ensures
        well_nested(Seq::<Event>::empty()),
{
    reveal(grounded);
    reveal(ends_follow);
    reveal(bracketed);
    reveal(heralded);
}

/// The walk that enters a vertex is well nested, begins by entering that vertex and enters
/// nothing that was entered before.
pub proof fn lemma_visit_nested(g: Adjacency, v: Vertex, seen: Set<Vertex>)
    requires
        !seen.contains(v),
    ensures
        well_nested(visit(g, v, seen)),
        fresh(visit(g, v, seen), seen),
        visit(g, v, seen).len() >= 2,
        visit(g, v, seen)[0] == Event::Start(v),
        visit(g, v, seen).last() == Event::End(v),
        visit(g, v, seen).contains(Event::Start(v)),
    decreases unseen(seen).len(), 0nat, 0nat,
{
    let inner = explore(g, Some(v), descending(neighbours(g, v)), seen.insert(v));
    lemma_unseen_insert(seen, v);
    lemma_explore_nested(g, Some(v), descending(neighbours(g, v)), seen.insert(v));
    assert(!inner.contains(Event::Start(v)));
    lemma_nested_wrap(v, inner);
    let t = visit(g, v, seen);
    assert(t == wrap(v, inner));
    assert(t[0] == Event::Start(v));
    assert(t.last() == Event::End(v));
    assert(t.contains(Event::Start(v)));
    assert forall|w: Vertex| #[trigger] t.contains(Event::Start(w)) implies !seen.contains(w) by {
        if w != v {
            assert(inner.contains(Event::Start(w)));
        }
    }
}

/// The walk through a list of candidates is well nested and enters nothing that was
/// entered before.
pub proof fn lemma_explore_nested(
    g: Adjacency,
    from: Option<Vertex>,
    rest: Seq<Vertex>,
    seen: Set<Vertex>,
)
    ensures
        well_nested(explore(g, from, rest, seen)),
        fresh(explore(g, from, rest, seen), seen),
    decreases unseen(seen).len(), 1nat, rest.len(),
{
    let t = explore(g, from, rest, seen);
    if rest.len() == 0 {
        lemma_nested_empty();
    } else if seen.contains(rest[0]) {
        lemma_explore_nested(g, from, rest.drop_first(), seen);
    } else {
        let w = rest[0];
        let e = announce(from, w);
        let sub = visit(g, w, seen);
        let later = seen.union(started(sub));
        let after = explore(g, from, rest.drop_first(), later);
        lemma_visit_nested(g, w, seen);
        lemma_unseen_grows(seen, later);
        lemma_explore_nested(g, from, rest.drop_first(), later);
        lemma_nested_announce(e, sub);
        assert forall|v: Vertex|
            !((seq![e] + sub).contains(Event::Start(v)) && after.contains(Event::Start(v))) by {
            if (seq![e] + sub).contains(Event::Start(v)) {
                assert(sub.contains(Event::Start(v)));
                assert(later.contains(v));
            }
        }
        lemma_nested_concat(seq![e] + sub, after);
        assert(t == seq![e] + sub + after);
        assert forall|v: Vertex| #[trigger] t.contains(Event::Start(v)) implies !seen.contains(
            v,
        ) by {
            if after.contains(Event::Start(v)) {
                assert(!later.contains(v));
            } else {
                assert((seq![e] + sub).contains(Event::Start(v)));
                assert(sub.contains(Event::Start(v)));
            }
        }
    }
}

/// Every step of the trace goes along an edge of the graph.
pub open spec fn along_edges(g: Adjacency, t: Seq<Event>) -> bool {
    forall|u: Vertex, w: Vertex| #[trigger]
        t.contains(Event::PreVisit(u, w)) ==> neighbours(g, u).contains(w)
}

/// Every root of the trace is one of the candidates, and there is a root only where the
/// candidates are announced as roots.
pub open spec fn roots_among(t: Seq<Event>, from: Option<Vertex>, rest: Seq<Vertex>) -> bool {
    forall|k: Vertex| #[trigger]
        t.contains(Event::InitialVisit(k)) ==> from is None && rest.contains(k)
}

/// Every candidate was entered before the trace or is entered by it.
pub open spec fn covers(t: Seq<Event>, rest: Seq<Vertex>, seen: Set<Vertex>) -> bool {
    forall|x: Vertex| #[trigger]
        rest.contains(x) ==> seen.contains(x) || t.contains(Event::Start(x))
}

/// The trace announces every vertex that it enters, but for `first`.
pub open spec fn introduced(t: Seq<Event>, first: Option<Vertex>) -> bool {
    forall|w: Vertex| #[trigger]
        t.contains(Event::Start(w)) ==> first == Some(w) || t.contains(Event::InitialVisit(w))
            || exists|u: Vertex| t.contains(Event::PreVisit(u, w))
}

/// The walk that enters a vertex keeps to the graph: its steps go along edges and lie within
/// the visit of the vertex that they leave; it begins no tree; and it announces what it
/// enters, but for the vertex that it begins with.
pub proof fn lemma_visit_faithful(g: Adjacency, v: Vertex, seen: Set<Vertex>)
    requires
        !seen.contains(v),
    ensures
        enclosed(visit(g, v, seen), None),
        along_edges(g, visit(g, v, seen)),
        roots_among(visit(g, v, seen), Some(v), Seq::empty()),
        introduced(visit(g, v, seen), Some(v)),
    decreases unseen(seen).len(), 0nat, 0nat,
{
    let rest = descending(neighbours(g, v));
    let inner = explore(g, Some(v), rest, seen.insert(v));
    let t = visit(g, v, seen);
    lemma_unseen_insert(seen, v);
    lemma_descending_lists(neighbours(g, v));
    lemma_explore_nested(g, Some(v), rest, seen.insert(v));
    lemma_explore_faithful(g, Some(v), rest, seen.insert(v));
    assert(!inner.contains(Event::Start(v)));
    lemma_nested_wrap(v, inner);
    assert(t == wrap(v, inner));
    lemma_enclosed_wrap(v, inner, None);
    assert forall|u: Vertex, w: Vertex| #[trigger]
        t.contains(Event::PreVisit(u, w)) implies neighbours(g, u).contains(w) by {
        lemma_framed_at(v, inner, Event::PreVisit(u, w));
    }
    assert forall|k: Vertex| !(#[trigger] t.contains(Event::InitialVisit(k))) by {
        lemma_framed_at(v, inner, Event::InitialVisit(k));
    }
    assert forall|w: Vertex| #[trigger] t.contains(Event::Start(w)) implies w == v || t.contains(
        Event::InitialVisit(w),
    ) || exists|u: Vertex| t.contains(Event::PreVisit(u, w)) by {
        lemma_framed_at(v, inner, Event::Start(w));
        if w != v {
            assert(inner.contains(Event::Start(w)));
            assert(!inner.contains(Event::InitialVisit(w)));
            let u = choose|u: Vertex| inner.contains(Event::PreVisit(u, w));
            lemma_framed_at(v, inner, Event::PreVisit(u, w));
        }
    }
}

/// The walk through a list of candidates keeps to the graph.
pub proof fn lemma_explore_faithful(
    g: Adjacency,
    from: Option<Vertex>,
    rest: Seq<Vertex>,
    seen: Set<Vertex>,
)
    requires
        from matches Some(u) ==> forall|x: Vertex|
            rest.contains(x) ==> neighbours(g, u).contains(x),
    ensures
        enclosed(explore(g, from, rest, seen), from),
        along_edges(g, explore(g, from, rest, seen)),
        roots_among(explore(g, from, rest, seen), from, rest),
        covers(explore(g, from, rest, seen), rest, seen),
        introduced(explore(g, from, rest, seen), None),
    decreases unseen(seen).len(), 1nat, rest.len(),
{
    let t = explore(g, from, rest, seen);
    if rest.len() == 0 {
        lemma_enclosed_empty(from);
    } else {
        let w = rest[0];
        let tail = rest.drop_first();
        lemma_rest(rest);
        assert(rest.contains(w));
        if seen.contains(w) {
            lemma_explore_faithful(g, from, tail, seen);
        } else {
            let e = announce(from, w);
            let sub = visit(g, w, seen);
            let later = seen.union(started(sub));
            let after = explore(g, from, tail, later);
            let head = seq![e] + sub;
            lemma_explore_parts(g, from, rest, seen);
            lemma_visit_faithful(g, w, seen);
            lemma_explore_faithful(g, from, tail, later);
            lemma_enclosed_led(e, sub, from);
            lemma_enclosed_concat(head, after, from);
            assert forall|u: Vertex, x: Vertex| #[trigger]
                t.contains(Event::PreVisit(u, x)) implies neighbours(g, u).contains(x) by {
                lemma_side_by_side_at(head, after, Event::PreVisit(u, x));
                lemma_led_at(e, sub, Event::PreVisit(u, x));
            }
            assert forall|k: Vertex| #[trigger]
                t.contains(Event::InitialVisit(k)) implies from is None && rest.contains(k) by {
                lemma_side_by_side_at(head, after, Event::InitialVisit(k));
                lemma_led_at(e, sub, Event::InitialVisit(k));
            }
            assert forall|x: Vertex| #[trigger] rest.contains(x) implies seen.contains(x)
                || t.contains(Event::Start(x)) by {
                lemma_side_by_side_at(head, after, Event::Start(x));
                lemma_led_at(e, sub, Event::Start(x));
            }
            assert forall|x: Vertex| #[trigger]
                t.contains(Event::Start(x)) implies t.contains(Event::InitialVisit(x))
                || exists|u: Vertex| t.contains(Event::PreVisit(u, x)) by {
                lemma_side_by_side_at(head, after, Event::Start(x));
                lemma_side_by_side_at(head, after, Event::InitialVisit(x));
                lemma_led_at(e, sub, Event::Start(x));
                lemma_led_at(e, sub, Event::InitialVisit(x));
                lemma_side_by_side_at(head, after, e);
                lemma_led_at(e, sub, e);
                if after.contains(Event::Start(x)) {
                    if !after.contains(Event::InitialVisit(x)) {
                        let u = choose|u: Vertex| after.contains(Event::PreVisit(u, x));
                        lemma_side_by_side_at(head, after, Event::PreVisit(u, x));
                    }
                } else if x == w {
                    assert(t.contains(e));
                } else {
                    assert(sub.contains(Event::Start(x)));
                    assert(!sub.contains(Event::InitialVisit(x)));
                    let u = choose|u: Vertex| sub.contains(Event::PreVisit(u, x));
                    lemma_led_at(e, sub, Event::PreVisit(u, x));
                    lemma_side_by_side_at(head, after, Event::PreVisit(u, x));
                }
            }
        }
    }
}

/// The events of a whole traversal are well nested and keep to the graph.
pub proof fn lemma_dfs_trace(g: Adjacency)
    ensures
        well_nested(dfs_trace(g)),
        enclosed(dfs_trace(g), None),
        along_edges(g, dfs_trace(g)),
        roots_among(dfs_trace(g), None, descending(g.dom())),
        covers(dfs_trace(g), descending(g.dom()), Set::empty()),
        introduced(dfs_trace(g), None),
{
    lemma_explore_nested(g, None, descending(g.dom()), Set::empty());
    lemma_explore_faithful(g, None, descending(g.dom()), Set::empty());
}

/// A traversal enters every key of the graph once, and leaves once whatever it enters.
///
/// No event occurs twice in the trace of a traversal, so no vertex is entered or left twice.
/// Every key of the graph is entered. A vertex is left exactly if it is entered, and later
/// than it is entered. A vertex that is entered while another is open is left before that
/// other is: a vertex is left only when everything that was entered in its visit has been
/// left.
pub proof fn theorem_visits_once(g: Adjacency)
    ensures
        dfs_trace(g).no_duplicates(),
        forall|k: Vertex| g.dom().contains(k) ==> dfs_trace(g).contains(Event::Start(k)),
        forall|v: Vertex|
            dfs_trace(g).contains(Event::End(v)) <==> #[trigger] dfs_trace(g).contains(
                Event::Start(v),
            ),
        forall|v: Vertex| #[trigger]
            dfs_trace(g).contains(Event::Start(v)) ==> dfs_trace(g).index_of(Event::Start(v))
                < dfs_trace(g).index_of(Event::End(v)),
        forall|v: Vertex, w: Vertex|
            #![trigger
                dfs_trace(g).index_of(Event::Start(v)),
                dfs_trace(g).index_of(Event::Start(w)),
            ]
            dfs_trace(g).contains(Event::Start(v)) && dfs_trace(g).contains(Event::Start(w))
                && dfs_trace(g).index_of(Event::Start(v)) < dfs_trace(g).index_of(
                Event::Start(w),
            ) < dfs_trace(g).index_of(Event::End(v)) ==> dfs_trace(g).index_of(Event::Start(w))
                < dfs_trace(g).index_of(Event::End(w)) < dfs_trace(g).index_of(Event::End(v)),
{
    let t = dfs_trace(g);
    lemma_dfs_trace(g);
    lemma_descending_lists(g.dom());
    assert forall|k: Vertex| g.dom().contains(k) implies t.contains(Event::Start(k)) by {
        assert(descending(g.dom()).contains(k));
    }
    assert forall|v: Vertex|
        (t.contains(Event::End(v)) <==> #[trigger] t.contains(Event::Start(v))) && (t.contains(
            Event::Start(v),
        ) ==> t.index_of(Event::Start(v)) < t.index_of(Event::End(v))) by {
        if t.contains(Event::End(v)) {
            lemma_grounded_at(t, Event::End(v));
        }
        if t.contains(Event::Start(v)) {
            lemma_ends_follow_at(t, v);
        }
    }
    assert forall|v: Vertex, w: Vertex|
        #![trigger t.index_of(Event::Start(v)), t.index_of(Event::Start(w))]
        t.contains(Event::Start(v)) && t.contains(Event::Start(w)) && t.index_of(
            Event::Start(v),
        ) < t.index_of(Event::Start(w)) < t.index_of(Event::End(v)) implies t.index_of(
            Event::Start(w),
        ) < t.index_of(Event::End(w)) < t.index_of(Event::End(v)) by {
        lemma_bracketed_at(t, v, w);
        lemma_ends_follow_at(t, w);
    }
}

/// How the walk that enters `v` is made up: of the entering of `v`, the walk through the
/// neighbours of `v`, and the leaving of `v`.
pub proof fn lemma_visit_parts(g: Adjacency, v: Vertex, seen: Set<Vertex>)
    requires
        !seen.contains(v),
    ensures
        ({
            let rest = descending(neighbours(g, v));
            let inner = explore(g, Some(v), rest, seen.insert(v));
            &&& visit(g, v, seen) == wrap(v, inner)
            &&& framed(v, inner)
            &&& well_nested(inner)
            &&& well_nested(visit(g, v, seen))
            &&& fresh(inner, seen.insert(v))
            &&& covers(inner, rest, seen.insert(v))
            &&& forall|x: Vertex| rest.contains(x) <==> neighbours(g, v).contains(x)
        }),
{
    let rest = descending(neighbours(g, v));
    let inner = explore(g, Some(v), rest, seen.insert(v));
    lemma_descending_lists(neighbours(g, v));
    lemma_explore_nested(g, Some(v), rest, seen.insert(v));
    lemma_explore_faithful(g, Some(v), rest, seen.insert(v));
    assert(!inner.contains(Event::Start(v)));
    lemma_nested_wrap(v, inner);
}

/// How the walk through a list of candidates is made up, if the first of them has not been
/// entered: of the announcement of the first, the walk that enters it, and the walk through
/// the others.
pub proof fn lemma_explore_parts(
    g: Adjacency,
    from: Option<Vertex>,
    rest: Seq<Vertex>,
    seen: Set<Vertex>,
)
    requires
        rest.len() > 0,
        !seen.contains(rest[0]),
    ensures
        ({
            let e = announce(from, rest[0]);
            let sub = visit(g, rest[0], seen);
            let later = seen.union(started(sub));
            let after = explore(g, from, rest.drop_first(), later);
            &&& explore(g, from, rest, seen) == (seq![e] + sub) + after
            &&& well_nested(explore(g, from, rest, seen))
            &&& led(e, sub)
            &&& side_by_side(seq![e] + sub, after)
            &&& well_nested(sub)
            &&& well_nested(seq![e] + sub)
            &&& well_nested(after)
            &&& fresh(sub, seen)
            &&& fresh(after, later)
            &&& sub.contains(Event::Start(rest[0]))
            &&& unseen(later).len() <= unseen(seen).len()
        }),
{
    let e = announce(from, rest[0]);
    let sub = visit(g, rest[0], seen);
    let later = seen.union(started(sub));
    let after = explore(g, from, rest.drop_first(), later);
    let head = seq![e] + sub;
    lemma_visit_nested(g, rest[0], seen);
    lemma_unseen_grows(seen, later);
    lemma_explore_nested(g, from, rest.drop_first(), later);
    lemma_nested_announce(e, sub);
    assert forall|v: Vertex|
        !(head.contains(Event::Start(v)) && after.contains(Event::Start(v))) by {
        if head.contains(Event::Start(v)) {
            assert(sub.contains(Event::Start(v)));
            assert(later.contains(v));
        }
    }
    lemma_nested_concat(head, after);
}

/// What the rest of a list of candidates holds.
pub proof fn lemma_rest(rest: Seq<Vertex>)
    requires
        rest.len() > 0,
    ensures
        forall|x: Vertex|
            #![trigger rest.contains(x)]
            #![trigger rest.drop_first().contains(x)]
            rest.contains(x) <==> x == rest[0] || rest.drop_first().contains(x),
{
    let tail = rest.drop_first();
    assert forall|x: Vertex|
        #![trigger rest.contains(x)]
        #![trigger tail.contains(x)]
        rest.contains(x) <==> x == rest[0] || tail.contains(x) by {
        if tail.contains(x) {
            let i = choose|i: int| 0 <= i < tail.len() && tail[i] == x;
            assert(rest[i + 1] == x);
        }
        if rest.contains(x) {
            let i = choose|i: int| 0 <= i < rest.len() && rest[i] == x;
            if i > 0 {
                assert(tail[i - 1] == x);
            }
        }
    }
}

/// The traversal of a graph without keys has no events.
pub proof fn theorem_empty_graph(g: Adjacency)
    requires
        g.dom() == Set::<Vertex>::empty(),
    ensures
        dfs_trace(g) == Seq::<Event>::empty(),
{
    lemma_descending_unique(Seq::empty(), Set::empty());
}

} // verus!
