//! The shape of the events of a traversal, and how it is kept when traces are put together.
use crate::graph::Vertex;
use crate::sequences::lemma_index_of_concat;
use crate::sequences::lemma_index_of_contained;
use crate::sequences::lemma_index_of_unique;
use crate::sequences::lemma_no_duplicates_concat;
use crate::sequences::lemma_singleton;
use crate::trace::Event;
use crate::trace::announces;
use crate::trace::subject;
use vstd::prelude::*;

verus! {

/// Whatever an event of the trace concerns, the trace enters that vertex.
#[verifier::opaque]
pub open spec fn grounded(t: Seq<Event>) -> bool {
    forall|e: Event| #[trigger] t.contains(e) ==> t.contains(Event::Start(subject(e)))
}

/// The trace leaves every vertex that it enters, and later than it enters it.
#[verifier::opaque]
pub open spec fn ends_follow(t: Seq<Event>) -> bool {
    forall|v: Vertex| #[trigger]
        t.contains(Event::Start(v)) ==> t.contains(Event::End(v)) && t.index_of(Event::Start(v))
            < t.index_of(Event::End(v))
}

/// A vertex that is entered while another is open is left before the other is.
#[verifier::opaque]
pub open spec fn bracketed(t: Seq<Event>) -> bool {
    forall|v: Vertex, w: Vertex|
        #![trigger t.index_of(Event::Start(v)), t.index_of(Event::Start(w))]
        t.contains(Event::Start(v)) && t.contains(Event::Start(w)) && t.index_of(
            Event::Start(v),
        ) < t.index_of(Event::Start(w)) < t.index_of(Event::End(v)) ==> t.index_of(
            Event::End(w),
        ) < t.index_of(Event::End(v))
}

/// An announcement stands directly before the entering of the vertex that it announces.
#[verifier::opaque]
pub open spec fn heralded(t: Seq<Event>) -> bool {
    forall|e: Event| #[trigger]
        t.contains(e) && announces(e) ==> t.index_of(Event::Start(subject(e))) == t.index_of(e)
            + 1
}

/// The shape that the events of a traversal have.
pub open spec fn well_nested(t: Seq<Event>) -> bool {
    &&& t.no_duplicates()
    &&& grounded(t)
    &&& ends_follow(t)
    &&& bracketed(t)
    &&& heralded(t)
}

/// Every step from a vertex into another lies between the entering and the leaving of the
/// first, and the second is left before the first is; but for the steps from `open`, a
/// vertex that was entered before the trace begins.
#[verifier::opaque]
pub open spec fn enclosed(t: Seq<Event>, open: Option<Vertex>) -> bool {
    forall|u: Vertex, w: Vertex| #[trigger]
        t.contains(Event::PreVisit(u, w)) ==> open == Some(u) || (t.contains(Event::Start(u))
            && t.index_of(Event::Start(u)) < t.index_of(Event::PreVisit(u, w)) && t.index_of(
            Event::End(w),
        ) < t.index_of(Event::End(u)))
}

/// What being grounded says of one event.
pub proof fn lemma_grounded_at(t: Seq<Event>, e: Event)
    requires
        grounded(t),
        t.contains(e),
    ensures
        t.contains(Event::Start(subject(e))),
{
    reveal(grounded);
}

/// What `ends_follow` says of one vertex.
pub proof fn lemma_ends_follow_at(t: Seq<Event>, v: Vertex)
    requires
        ends_follow(t),
        t.contains(Event::Start(v)),
    ensures
        t.contains(Event::End(v)),
        t.index_of(Event::Start(v)) < t.index_of(Event::End(v)),
{
    reveal(ends_follow);
}

/// What being bracketed says of two vertices.
pub proof fn lemma_bracketed_at(t: Seq<Event>, v: Vertex, w: Vertex)
    requires
        bracketed(t),
        t.contains(Event::Start(v)),
        t.contains(Event::Start(w)),
        t.index_of(Event::Start(v)) < t.index_of(Event::Start(w)) < t.index_of(Event::End(v)),
    ensures
        t.index_of(Event::End(w)) < t.index_of(Event::End(v)),
{
    reveal(bracketed);
}

/// What being heralded says of one announcement.
pub proof fn lemma_heralded_at(t: Seq<Event>, e: Event)
    requires
        heralded(t),
        t.contains(e),
        announces(e),
    ensures
        t.index_of(Event::Start(subject(e))) == t.index_of(e) + 1,
{
    reveal(heralded);
}

/// What being enclosed says of one step.
pub proof fn lemma_enclosed_at(t: Seq<Event>, open: Option<Vertex>, u: Vertex, w: Vertex)
    requires
        enclosed(t, open),
        t.contains(Event::PreVisit(u, w)),
        open != Some(u),
    ensures
        t.contains(Event::Start(u)),
        t.index_of(Event::Start(u)) < t.index_of(Event::PreVisit(u, w)),
        t.index_of(Event::End(w)) < t.index_of(Event::End(u)),
{
    reveal(enclosed);
}

/// Where the events of `a + b` stand, for traces that share no event.
pub open spec fn side_by_side(a: Seq<Event>, b: Seq<Event>) -> bool {
    forall|e: Event|
        #![trigger (a + b).contains(e)]
        #![trigger (a + b).index_of(e)]
        {
            &&& (a + b).contains(e) <==> a.contains(e) || b.contains(e)
            &&& !(a.contains(e) && b.contains(e))
            &&& a.contains(e) ==> (a + b).index_of(e) == a.index_of(e) && 0 <= a.index_of(e)
                < a.len()
            &&& b.contains(e) ==> (a + b).index_of(e) == a.len() + b.index_of(e) && 0
                <= b.index_of(e) < b.len()
        }
}

/// What `side_by_side` says of one event.
pub proof fn lemma_side_by_side_at(a: Seq<Event>, b: Seq<Event>, e: Event)
    requires
        side_by_side(a, b),
    ensures
        (a + b).contains(e) <==> a.contains(e) || b.contains(e),
        !(a.contains(e) && b.contains(e)),
        a.contains(e) ==> (a + b).index_of(e) == a.index_of(e) && 0 <= a.index_of(e) < a.len(),
        b.contains(e) ==> (a + b).index_of(e) == a.len() + b.index_of(e) && 0 <= b.index_of(e)
            < b.len(),
{
    assert((a + b).contains(e) <==> a.contains(e) || b.contains(e));
}

/// Two traces in which nothing occurs twice, and which enter different vertices, share no
/// event; so nothing occurs twice in their concatenation.
proof fn lemma_side_by_side(a: Seq<Event>, b: Seq<Event>)
    requires
        a.no_duplicates(),
        b.no_duplicates(),
        grounded(a),
        grounded(b),
        forall|v: Vertex| !(a.contains(Event::Start(v)) && b.contains(Event::Start(v))),
    ensures
        (a + b).no_duplicates(),
        side_by_side(a, b),
{
    assert forall|e: Event| !(a.contains(e) && b.contains(e)) by {
        reveal(grounded);
        if a.contains(e) && b.contains(e) {
            assert(a.contains(Event::Start(subject(e))));
            assert(b.contains(Event::Start(subject(e))));
        }
    }
    lemma_no_duplicates_concat(a, b);
    assert forall|e: Event|
        #![trigger (a + b).contains(e)]
        #![trigger (a + b).index_of(e)]
        {
            &&& (a + b).contains(e) <==> a.contains(e) || b.contains(e)
            &&& !(a.contains(e) && b.contains(e))
            &&& a.contains(e) ==> (a + b).index_of(e) == a.index_of(e) && 0 <= a.index_of(e)
                < a.len()
            &&& b.contains(e) ==> (a + b).index_of(e) == a.len() + b.index_of(e) && 0
                <= b.index_of(e) < b.len()
        } by {
        lemma_index_of_concat(a, b, e);
    }
}

/// A concatenation of grounded traces is grounded.
proof fn lemma_grounded_concat(a: Seq<Event>, b: Seq<Event>)
    requires
        side_by_side(a, b),
        grounded(a),
        grounded(b),
    ensures
        grounded(a + b),
{
    reveal(grounded);
    let t = a + b;
    assert forall|e: Event| #[trigger] t.contains(e) implies t.contains(
        Event::Start(subject(e)),
    ) by {
        if a.contains(e) {
            assert(a.contains(Event::Start(subject(e))));
        } else {
            assert(b.contains(Event::Start(subject(e))));
        }
        assert((a + b).contains(Event::Start(subject(e))) <==> a.contains(
            Event::Start(subject(e)),
        ) || b.contains(Event::Start(subject(e))));
    }
}

/// A concatenation leaves what it enters, if its parts do.
proof fn lemma_ends_follow_concat(a: Seq<Event>, b: Seq<Event>)
    requires
        side_by_side(a, b),
        ends_follow(a),
        ends_follow(b),
    ensures
        ends_follow(a + b),
{
    reveal(ends_follow);
    let t = a + b;
    assert forall|v: Vertex| #[trigger] t.contains(Event::Start(v)) implies t.contains(
        Event::End(v),
    ) && t.index_of(Event::Start(v)) < t.index_of(Event::End(v)) by {
        assert(t.contains(Event::End(v)) <==> a.contains(Event::End(v)) || b.contains(
            Event::End(v),
        ));
    }
}

/// A concatenation of bracketed traces that share no event is bracketed.
proof fn lemma_bracketed_concat(a: Seq<Event>, b: Seq<Event>)
    requires
        side_by_side(a, b),
        ends_follow(a),
        ends_follow(b),
        bracketed(a),
        bracketed(b),
    ensures
        bracketed(a + b),
{
    reveal(ends_follow);
    reveal(bracketed);
    let t = a + b;
    assert forall|v: Vertex, w: Vertex|
        #![trigger t.index_of(Event::Start(v)), t.index_of(Event::Start(w))]
        t.contains(Event::Start(v)) && t.contains(Event::Start(w)) && t.index_of(
            Event::Start(v),
        ) < t.index_of(Event::Start(w)) < t.index_of(Event::End(v)) implies t.index_of(
            Event::End(w),
        ) < t.index_of(Event::End(v)) by {
        assert(t.contains(Event::End(v)) <==> a.contains(Event::End(v)) || b.contains(
            Event::End(v),
        ));
        assert(t.contains(Event::End(w)) <==> a.contains(Event::End(w)) || b.contains(
            Event::End(w),
        ));
        if a.contains(Event::Start(v)) && a.contains(Event::Start(w)) {
            assert(a.index_of(Event::Start(v)) < a.index_of(Event::Start(w)));
        }
        if b.contains(Event::Start(v)) && b.contains(Event::Start(w)) {
            assert(b.index_of(Event::Start(v)) < b.index_of(Event::Start(w)));
        }
    }
}

/// A concatenation of heralded traces that share no event is heralded.
proof fn lemma_heralded_concat(a: Seq<Event>, b: Seq<Event>)
    requires
        side_by_side(a, b),
        grounded(a),
        grounded(b),
        heralded(a),
        heralded(b),
    ensures
        heralded(a + b),
{
    reveal(grounded);
    reveal(heralded);
    let t = a + b;
    assert forall|e: Event| #[trigger] t.contains(e) && announces(e) implies t.index_of(
        Event::Start(subject(e)),
    ) == t.index_of(e) + 1 by {
        assert(t.contains(Event::Start(subject(e))) <==> a.contains(Event::Start(subject(e)))
            || b.contains(Event::Start(subject(e))));
        if a.contains(e) {
            assert(a.contains(Event::Start(subject(e))));
        } else {
            assert(b.contains(Event::Start(subject(e))));
        }
    }
}

/// Two well-nested traces that enter different vertices make a well-nested trace.
pub proof fn lemma_nested_concat(a: Seq<Event>, b: Seq<Event>)
    requires
        well_nested(a),
        well_nested(b),
        forall|v: Vertex| !(a.contains(Event::Start(v)) && b.contains(Event::Start(v))),
    ensures
        well_nested(a + b),
        side_by_side(a, b),
{
    lemma_side_by_side(a, b);
    lemma_grounded_concat(a, b);
    lemma_ends_follow_concat(a, b);
    lemma_bracketed_concat(a, b);
    lemma_heralded_concat(a, b);
}

/// A step of a concatenation is enclosed as it is in the part in which it occurs.
proof fn lemma_enclosed_concat_at(
    a: Seq<Event>,
    b: Seq<Event>,
    open: Option<Vertex>,
    u: Vertex,
    w: Vertex,
)
    requires
        side_by_side(a, b),
        well_nested(a),
        well_nested(b),
        enclosed(a, open),
        enclosed(b, open),
        (a + b).contains(Event::PreVisit(u, w)),
        open != Some(u),
    ensures
        (a + b).contains(Event::Start(u)),
        (a + b).index_of(Event::Start(u)) < (a + b).index_of(Event::PreVisit(u, w)),
        (a + b).index_of(Event::End(w)) < (a + b).index_of(Event::End(u)),
{
    let e = Event::PreVisit(u, w);
    lemma_side_by_side_at(a, b, e);
    lemma_side_by_side_at(a, b, Event::Start(u));
    lemma_side_by_side_at(a, b, Event::End(u));
    lemma_side_by_side_at(a, b, Event::End(w));
    if a.contains(e) {
        lemma_enclosed_at(a, open, u, w);
        lemma_grounded_at(a, e);
        lemma_ends_follow_at(a, w);
        lemma_ends_follow_at(a, u);
    } else {
        lemma_enclosed_at(b, open, u, w);
        lemma_grounded_at(b, e);
        lemma_ends_follow_at(b, w);
        lemma_ends_follow_at(b, u);
    }
}

/// A concatenation of enclosed traces is enclosed.
pub proof fn lemma_enclosed_concat(a: Seq<Event>, b: Seq<Event>, open: Option<Vertex>)
    requires
        side_by_side(a, b),
        well_nested(a),
        well_nested(b),
        enclosed(a, open),
        enclosed(b, open),
    ensures
        enclosed(a + b, open),
{
    let t = a + b;
    assert forall|u: Vertex, w: Vertex| #[trigger]
        t.contains(Event::PreVisit(u, w)) implies open == Some(u) || (t.contains(Event::Start(u))
        && t.index_of(Event::Start(u)) < t.index_of(Event::PreVisit(u, w)) && t.index_of(
        Event::End(w),
    ) < t.index_of(Event::End(u))) by {
        if open != Some(u) {
            lemma_enclosed_concat_at(a, b, open, u, w);
        }
    }
    reveal(enclosed);
}

/// The trace that enters `v`, runs through `x` and leaves `v`.
pub open spec fn wrap(v: Vertex, x: Seq<Event>) -> Seq<Event> {
    seq![Event::Start(v)] + x + seq![Event::End(v)]
}

/// Where the events of `wrap(v, x)` stand.
pub open spec fn framed(v: Vertex, x: Seq<Event>) -> bool {
    &&& wrap(v, x).index_of(Event::Start(v)) == 0
    &&& wrap(v, x).index_of(Event::End(v)) == x.len() + 1
    &&& !x.contains(Event::Start(v))
    &&& !x.contains(Event::End(v))
    &&& forall|e: Event|
        #![trigger wrap(v, x).contains(e)]
        #![trigger wrap(v, x).index_of(e)]
        {
            &&& wrap(v, x).contains(e) <==> e == Event::Start(v) || e == Event::End(v)
                || x.contains(e)
            &&& x.contains(e) ==> wrap(v, x).index_of(e) == x.index_of(e) + 1 && 0 <= x.index_of(
                e,
            ) < x.len()
        }
}

/// What `framed` says of one event.
pub proof fn lemma_framed_at(v: Vertex, x: Seq<Event>, e: Event)
    requires
        framed(v, x),
    ensures
        wrap(v, x).contains(e) <==> e == Event::Start(v) || e == Event::End(v) || x.contains(e),
        x.contains(e) ==> wrap(v, x).index_of(e) == x.index_of(e) + 1 && 0 <= x.index_of(e)
            < x.len(),
{
    assert(wrap(v, x).contains(e) <==> e == Event::Start(v) || e == Event::End(v) || x.contains(
        e,
    ));
}

/// A trace in which nothing occurs twice, and which does not enter `v`, can be wrapped in
/// the entering and the leaving of `v`: nothing occurs twice in the result.
proof fn lemma_framed(v: Vertex, x: Seq<Event>)
    requires
        x.no_duplicates(),
        grounded(x),
        !x.contains(Event::Start(v)),
    ensures
        wrap(v, x).no_duplicates(),
        framed(v, x),
{
    let open = seq![Event::Start(v)];
    let close = seq![Event::End(v)];
    let head = open + x;
    let t = head + close;
    assert(!x.contains(Event::End(v))) by {
        reveal(grounded);
        if x.contains(Event::End(v)) {
            assert(x.contains(Event::Start(subject(Event::End(v)))));
        }
    }
    assert forall|e: Event| !(open.contains(e) && x.contains(e)) by {
        lemma_singleton(Event::Start(v), e);
    }
    assert(open.no_duplicates()) by {
        lemma_singleton(Event::Start(v), Event::Start(v));
    }
    lemma_no_duplicates_concat(open, x);
    assert forall|e: Event| !(head.contains(e) && close.contains(e)) by {
        lemma_singleton(Event::End(v), e);
        lemma_singleton(Event::Start(v), e);
        lemma_index_of_concat(open, x, e);
    }
    assert(close.no_duplicates()) by {
        lemma_singleton(Event::End(v), Event::End(v));
    }
    lemma_no_duplicates_concat(head, close);
    assert forall|e: Event|
        #![trigger wrap(v, x).contains(e)]
        #![trigger wrap(v, x).index_of(e)]
        {
            &&& wrap(v, x).contains(e) <==> e == Event::Start(v) || e == Event::End(v)
                || x.contains(e)
            &&& x.contains(e) ==> wrap(v, x).index_of(e) == x.index_of(e) + 1 && 0 <= x.index_of(
                e,
            ) < x.len()
            &&& e == Event::Start(v) ==> wrap(v, x).index_of(e) == 0
            &&& e == Event::End(v) ==> wrap(v, x).index_of(e) == x.len() + 1
        } by {
        lemma_singleton(Event::End(v), e);
        lemma_singleton(Event::Start(v), e);
        lemma_index_of_concat(open, x, e);
        lemma_index_of_concat(head, close, e);
        if x.contains(e) {
            lemma_index_of_contained(x, e);
        }
    }
    assert(wrap(v, x).contains(Event::Start(v)));
    assert(wrap(v, x).contains(Event::End(v)));
}

/// A wrapped grounded trace is grounded.
proof fn lemma_grounded_wrap(v: Vertex, x: Seq<Event>)
    requires
        framed(v, x),
        grounded(x),
    ensures
        grounded(wrap(v, x)),
{
    reveal(grounded);
    let t = wrap(v, x);
    assert forall|e: Event| #[trigger] t.contains(e) implies t.contains(
        Event::Start(subject(e)),
    ) by {
        if x.contains(e) {
            assert(x.contains(Event::Start(subject(e))));
        }
        assert(t.contains(Event::Start(subject(e))) <==> Event::Start(subject(e))
            == Event::Start(v) || Event::Start(subject(e)) == Event::End(v) || x.contains(
            Event::Start(subject(e)),
        ));
    }
}

/// A wrapped trace leaves what it enters, if the trace inside does.
proof fn lemma_ends_follow_wrap(v: Vertex, x: Seq<Event>)
    requires
        framed(v, x),
        ends_follow(x),
    ensures
        ends_follow(wrap(v, x)),
{
    reveal(ends_follow);
    let t = wrap(v, x);
    assert forall|w: Vertex| #[trigger] t.contains(Event::Start(w)) implies t.contains(
        Event::End(w),
    ) && t.index_of(Event::Start(w)) < t.index_of(Event::End(w)) by {
        assert(t.contains(Event::End(w)) <==> Event::End(w) == Event::Start(v) || Event::End(w)
            == Event::End(v) || x.contains(Event::End(w)));
        if w != v {
            assert(x.contains(Event::Start(w)));
        }
    }
}

/// A wrapped bracketed trace is bracketed.
proof fn lemma_bracketed_wrap(v: Vertex, x: Seq<Event>)
    requires
        framed(v, x),
        ends_follow(x),
        bracketed(x),
    ensures
        bracketed(wrap(v, x)),
{
    reveal(ends_follow);
    reveal(bracketed);
    let t = wrap(v, x);
    assert forall|u: Vertex, w: Vertex|
        #![trigger t.index_of(Event::Start(u)), t.index_of(Event::Start(w))]
        t.contains(Event::Start(u)) && t.contains(Event::Start(w)) && t.index_of(
            Event::Start(u),
        ) < t.index_of(Event::Start(w)) < t.index_of(Event::End(u)) implies t.index_of(
            Event::End(w),
        ) < t.index_of(Event::End(u)) by {
        assert(t.contains(Event::End(u)) <==> Event::End(u) == Event::Start(v) || Event::End(u)
            == Event::End(v) || x.contains(Event::End(u)));
        assert(t.contains(Event::End(w)) <==> Event::End(w) == Event::Start(v) || Event::End(w)
            == Event::End(v) || x.contains(Event::End(w)));
        if u != v {
            assert(x.contains(Event::Start(u)));
        }
        if w != v {
            assert(x.contains(Event::Start(w)));
        }
        if u != v && w != v {
            assert(x.index_of(Event::Start(u)) < x.index_of(Event::Start(w)));
        }
    }
}

/// A wrapped heralded trace is heralded.
proof fn lemma_heralded_wrap(v: Vertex, x: Seq<Event>)
    requires
        framed(v, x),
        grounded(x),
        heralded(x),
    ensures
        heralded(wrap(v, x)),
{
    reveal(grounded);
    reveal(heralded);
    let t = wrap(v, x);
    assert forall|e: Event| #[trigger] t.contains(e) && announces(e) implies t.index_of(
        Event::Start(subject(e)),
    ) == t.index_of(e) + 1 by {
        assert(x.contains(e));
        assert(x.contains(Event::Start(subject(e))));
        assert(t.contains(Event::Start(subject(e))) <==> Event::Start(subject(e))
            == Event::Start(v) || Event::Start(subject(e)) == Event::End(v) || x.contains(
            Event::Start(subject(e)),
        ));
    }
}

/// A well-nested trace between the entering and the leaving of a vertex that it does not
/// enter itself is well nested.
pub proof fn lemma_nested_wrap(v: Vertex, x: Seq<Event>)
    requires
        well_nested(x),
        !x.contains(Event::Start(v)),
    ensures
        well_nested(wrap(v, x)),
        framed(v, x),
{
    lemma_framed(v, x);
    lemma_grounded_wrap(v, x);
    lemma_ends_follow_wrap(v, x);
    lemma_bracketed_wrap(v, x);
    lemma_heralded_wrap(v, x);
}

/// A step of a wrapped trace is enclosed: by the wrapping, if it leaves the vertex of the
/// wrapping, and else as it is in the trace inside.
proof fn lemma_enclosed_wrap_at(v: Vertex, x: Seq<Event>, u: Vertex, w: Vertex)
    requires
        framed(v, x),
        well_nested(x),
        enclosed(x, Some(v)),
        wrap(v, x).contains(Event::PreVisit(u, w)),
    ensures
        wrap(v, x).contains(Event::Start(u)),
        wrap(v, x).index_of(Event::Start(u)) < wrap(v, x).index_of(Event::PreVisit(u, w)),
        wrap(v, x).index_of(Event::End(w)) < wrap(v, x).index_of(Event::End(u)),
{
    let e = Event::PreVisit(u, w);
    lemma_framed_at(v, x, e);
    lemma_framed_at(v, x, Event::Start(u));
    lemma_framed_at(v, x, Event::End(u));
    lemma_framed_at(v, x, Event::End(w));
    lemma_grounded_at(x, e);
    lemma_ends_follow_at(x, w);
    if u != v {
        lemma_enclosed_at(x, Some(v), u, w);
        lemma_ends_follow_at(x, u);
    }
}

/// Wrapped in the entering and the leaving of `v`, a trace whose steps are enclosed but for
/// those from `v` has all its steps enclosed.
pub proof fn lemma_enclosed_wrap(v: Vertex, x: Seq<Event>, open: Option<Vertex>)
    requires
        framed(v, x),
        well_nested(x),
        enclosed(x, Some(v)),
    ensures
        enclosed(wrap(v, x), open),
{
    let t = wrap(v, x);
    assert forall|u: Vertex, w: Vertex| #[trigger]
        t.contains(Event::PreVisit(u, w)) implies open == Some(u) || (t.contains(Event::Start(u))
        && t.index_of(Event::Start(u)) < t.index_of(Event::PreVisit(u, w)) && t.index_of(
        Event::End(w),
    ) < t.index_of(Event::End(u))) by {
        lemma_enclosed_wrap_at(v, x, u, w);
    }
    reveal(enclosed);
}

/// Where the events of `seq![e] + x` stand.
pub open spec fn led(e: Event, x: Seq<Event>) -> bool {
    &&& (seq![e] + x).index_of(e) == 0
    &&& !x.contains(e)
    &&& forall|d: Event|
        #![trigger (seq![e] + x).contains(d)]
        #![trigger (seq![e] + x).index_of(d)]
        {
            &&& (seq![e] + x).contains(d) <==> d == e || x.contains(d)
            &&& x.contains(d) ==> (seq![e] + x).index_of(d) == x.index_of(d) + 1 && 0
                <= x.index_of(d) < x.len()
        }
}

/// What `led` says of one event.
pub proof fn lemma_led_at(e: Event, x: Seq<Event>, d: Event)
    requires
        led(e, x),
    ensures
        (seq![e] + x).contains(d) <==> d == e || x.contains(d),
        x.contains(d) ==> (seq![e] + x).index_of(d) == x.index_of(d) + 1 && 0 <= x.index_of(d)
            < x.len(),
{
    assert((seq![e] + x).contains(d) <==> d == e || x.contains(d));
}

/// The announcement of the vertex with whose entering a trace begins does not occur in the
/// trace: nothing occurs twice when it is put before the trace.
proof fn lemma_led(e: Event, x: Seq<Event>)
    requires
        x.no_duplicates(),
        heralded(x),
        announces(e),
        x.len() > 0,
        x[0] == Event::Start(subject(e)),
    ensures
        (seq![e] + x).no_duplicates(),
        led(e, x),
{
    let first = seq![e];
    let t = first + x;
    lemma_index_of_unique(x, 0);
    assert(!x.contains(e)) by {
        reveal(heralded);
        if x.contains(e) {
            lemma_index_of_contained(x, e);
        }
    }
    assert forall|d: Event| !(first.contains(d) && x.contains(d)) by {
        lemma_singleton(e, d);
    }
    assert(first.no_duplicates()) by {
        lemma_singleton(e, e);
    }
    lemma_no_duplicates_concat(first, x);
    assert forall|d: Event|
        #![trigger (seq![e] + x).contains(d)]
        #![trigger (seq![e] + x).index_of(d)]
        {
            &&& (seq![e] + x).contains(d) <==> d == e || x.contains(d)
            &&& x.contains(d) ==> (seq![e] + x).index_of(d) == x.index_of(d) + 1 && 0
                <= x.index_of(d) < x.len()
            &&& d == e ==> (seq![e] + x).index_of(d) == 0
        } by {
        lemma_singleton(e, d);
        lemma_index_of_concat(first, x, d);
        if x.contains(d) {
            lemma_index_of_contained(x, d);
        }
    }
    assert((seq![e] + x).contains(e));
}

/// A grounded trace stays grounded under the announcement of its first vertex.
proof fn lemma_grounded_led(e: Event, x: Seq<Event>)
    requires
        led(e, x),
        grounded(x),
        x.len() > 0,
        x[0] == Event::Start(subject(e)),
    ensures
        grounded(seq![e] + x),
{
    reveal(grounded);
    let t = seq![e] + x;
    assert(x.contains(x[0]));
    assert forall|d: Event| #[trigger] t.contains(d) implies t.contains(
        Event::Start(subject(d)),
    ) by {
        if x.contains(d) {
            assert(x.contains(Event::Start(subject(d))));
        }
        assert(t.contains(Event::Start(subject(d))) <==> Event::Start(subject(d)) == e
            || x.contains(Event::Start(subject(d))));
    }
}

/// A trace under an announcement leaves what it enters, if the trace does.
proof fn lemma_ends_follow_led(e: Event, x: Seq<Event>)
    requires
        led(e, x),
        announces(e),
        ends_follow(x),
    ensures
        ends_follow(seq![e] + x),
{
    reveal(ends_follow);
    let t = seq![e] + x;
    assert forall|w: Vertex| #[trigger] t.contains(Event::Start(w)) implies t.contains(
        Event::End(w),
    ) && t.index_of(Event::Start(w)) < t.index_of(Event::End(w)) by {
        assert(x.contains(Event::Start(w)));
        assert(t.contains(Event::End(w)) <==> Event::End(w) == e || x.contains(Event::End(w)));
    }
}

/// A bracketed trace stays bracketed under an announcement.
proof fn lemma_bracketed_led(e: Event, x: Seq<Event>)
    requires
        led(e, x),
        announces(e),
        ends_follow(x),
        bracketed(x),
    ensures
        bracketed(seq![e] + x),
{
    reveal(ends_follow);
    reveal(bracketed);
    let t = seq![e] + x;
    assert forall|u: Vertex, w: Vertex|
        #![trigger t.index_of(Event::Start(u)), t.index_of(Event::Start(w))]
        t.contains(Event::Start(u)) && t.contains(Event::Start(w)) && t.index_of(
            Event::Start(u),
        ) < t.index_of(Event::Start(w)) < t.index_of(Event::End(u)) implies t.index_of(
            Event::End(w),
        ) < t.index_of(Event::End(u)) by {
        assert(x.contains(Event::Start(u)));
        assert(x.contains(Event::Start(w)));
        assert(t.contains(Event::End(u)) <==> Event::End(u) == e || x.contains(Event::End(u)));
        assert(t.contains(Event::End(w)) <==> Event::End(w) == e || x.contains(Event::End(w)));
        assert(x.index_of(Event::Start(u)) < x.index_of(Event::Start(w)));
    }
}

/// A heralded trace stays heralded under the announcement of its first vertex.
proof fn lemma_heralded_led(e: Event, x: Seq<Event>)
    requires
        led(e, x),
        x.no_duplicates(),
        grounded(x),
        heralded(x),
        x.len() > 0,
        x[0] == Event::Start(subject(e)),
    ensures
        heralded(seq![e] + x),
{
    reveal(grounded);
    reveal(heralded);
    let t = seq![e] + x;
    lemma_index_of_unique(x, 0);
    assert forall|d: Event| #[trigger] t.contains(d) && announces(d) implies t.index_of(
        Event::Start(subject(d)),
    ) == t.index_of(d) + 1 by {
        if x.contains(d) {
            assert(x.contains(Event::Start(subject(d))));
        }
        assert(t.contains(Event::Start(subject(d))) <==> Event::Start(subject(d)) == e
            || x.contains(Event::Start(subject(d))));
    }
}

/// A well-nested trace that begins by entering a vertex stays well nested when the
/// announcement of that vertex is put before it.
pub proof fn lemma_nested_announce(e: Event, x: Seq<Event>)
    requires
        well_nested(x),
        announces(e),
        x.len() > 0,
        x[0] == Event::Start(subject(e)),
    ensures
        well_nested(seq![e] + x),
        led(e, x),
{
    lemma_led(e, x);
    lemma_grounded_led(e, x);
    lemma_ends_follow_led(e, x);
    lemma_bracketed_led(e, x);
    lemma_heralded_led(e, x);
}

/// A step of a trace under an announcement is enclosed as it is in the trace.
proof fn lemma_enclosed_led_at(e: Event, x: Seq<Event>, u: Vertex, w: Vertex)
    requires
        led(e, x),
        well_nested(x),
        enclosed(x, None),
        (seq![e] + x).contains(Event::PreVisit(u, w)),
        Event::PreVisit(u, w) != e,
    ensures
        (seq![e] + x).contains(Event::Start(u)),
        (seq![e] + x).index_of(Event::Start(u)) < (seq![e] + x).index_of(Event::PreVisit(u, w)),
        (seq![e] + x).index_of(Event::End(w)) < (seq![e] + x).index_of(Event::End(u)),
{
    let d = Event::PreVisit(u, w);
    lemma_led_at(e, x, d);
    lemma_led_at(e, x, Event::Start(u));
    lemma_led_at(e, x, Event::End(u));
    lemma_led_at(e, x, Event::End(w));
    lemma_enclosed_at(x, None, u, w);
    lemma_grounded_at(x, d);
    lemma_ends_follow_at(x, w);
    lemma_ends_follow_at(x, u);
}

/// A trace with enclosed steps under an announcement from `open` has its steps enclosed,
/// but for those from `open`.
pub proof fn lemma_enclosed_led(e: Event, x: Seq<Event>, open: Option<Vertex>)
    requires
        led(e, x),
        well_nested(x),
        enclosed(x, None),
        e matches Event::PreVisit(u, _) ==> open == Some(u),
    ensures
        enclosed(seq![e] + x, open),
{
    let t = seq![e] + x;
    assert forall|u: Vertex, w: Vertex| #[trigger]
        t.contains(Event::PreVisit(u, w)) implies open == Some(u) || (t.contains(Event::Start(u))
        && t.index_of(Event::Start(u)) < t.index_of(Event::PreVisit(u, w)) && t.index_of(
        Event::End(w),
    ) < t.index_of(Event::End(u))) by {
        if Event::PreVisit(u, w) != e {
            lemma_enclosed_led_at(e, x, u, w);
        }
    }
    reveal(enclosed);
}

/// The empty trace has no step to enclose.
pub proof fn lemma_enclosed_empty(open: Option<Vertex>)
    ensures
        enclosed(Seq::<Event>::empty(), open),
{
    reveal(enclosed);
}

} // verus!
