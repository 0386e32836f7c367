//! The events of a traversal: which hooks a walk calls, and in which order.
use crate::graph::Adjacency;
use crate::graph::Vertex;
use crate::graph::neighbours;
use crate::order::descending;
use vstd::prelude::*;
use vstd::seq_lib::lemma_seq_concat_contains_all_elements;
use vstd::set_lib::FiniteFull;
use vstd::set_lib::lemma_len_subset;

verus! {

/// One call of a visitor's hook, as the traversal makes it.
pub enum Event {
    /// A new tree begins at this vertex.
    InitialVisit(Vertex),
    /// The vertex is entered.
    Start(Vertex),
    /// The traversal is about to go from the first vertex into the second, which is unvisited.
    PreVisit(Vertex, Vertex),
    /// Every neighbour of the vertex has been explored.
    End(Vertex),
}

/// The vertex that an event announces, enters or leaves.
pub open spec fn subject(e: Event) -> Vertex {
    match e {
        Event::InitialVisit(v) => v,
        Event::Start(v) => v,
        Event::PreVisit(_, v) => v,
        Event::End(v) => v,
    }
}

/// Whether an event tells the visitor that a vertex is about to be entered.
pub open spec fn announces(e: Event) -> bool {
    e is InitialVisit || e is PreVisit
}

/// The vertices that a trace enters.
pub open spec fn started(t: Seq<Event>) -> Set<Vertex> {
    Set::new(|v: Vertex| t.contains(Event::Start(v)))
}

/// The event that tells the visitor that `to` is about to be entered: from `from`, or as the
/// root of a new tree where there is no `from`.
pub open spec fn announce(from: Option<Vertex>, to: Vertex) -> Event {
    match from {
        Some(u) => Event::PreVisit(u, to),
        None => Event::InitialVisit(to),
    }
}

/// The vertices outside `seen`.
pub open spec fn unseen(seen: Set<Vertex>) -> Set<Vertex> {
    Set::new(|v: Vertex| !seen.contains(v))
}

/// There are only finitely many vertices, seen or unseen.
pub proof fn lemma_unseen_finite(seen: Set<Vertex>)
    ensures
        unseen(seen).finite(),
{
    Vertex::full_properties();
    lemma_len_subset(unseen(seen), Set::<Vertex>::full());
}

/// Marking one more vertex leaves fewer vertices unseen.
pub proof fn lemma_unseen_insert(seen: Set<Vertex>, v: Vertex)
    requires
        !seen.contains(v),
    ensures
        unseen(seen.insert(v)).len() < unseen(seen).len(),
{
    lemma_unseen_finite(seen);
    assert(unseen(seen.insert(v)) =~= unseen(seen).remove(v));
}

/// Marking more vertices leaves no more vertices unseen.
pub proof fn lemma_unseen_grows(seen: Set<Vertex>, later: Set<Vertex>)
    requires
        seen.subset_of(later),
    ensures
        unseen(later).len() <= unseen(seen).len(),
{
    lemma_unseen_finite(seen);
    lemma_len_subset(unseen(later), unseen(seen));
}

/// A concatenation enters what its parts enter.
pub proof fn lemma_started_concat(a: Seq<Event>, b: Seq<Event>)
    ensures
        started(a + b) == started(a).union(started(b)),
{
    assert forall|v: Vertex| started(a + b).contains(v) <==> started(a).contains(v) || started(
        b,
    ).contains(v) by {
        lemma_seq_concat_contains_all_elements(a, b, Event::Start(v));
    }
    assert(started(a + b) =~= started(a).union(started(b)));
}

/// A single event enters a vertex only if it is a `Start`.
pub proof fn lemma_started_one(e: Event)
    ensures
        started(seq![e]) == match e {
            Event::Start(v) => set![v],
            _ => Set::<Vertex>::empty(),
        },
{
    let t = seq![e];
    assert forall|v: Vertex| started(t).contains(v) <==> e == Event::Start(v) by {
        if e == Event::Start(v) {
            assert(t[0] == Event::Start(v));
        }
    }
    match e {
        Event::Start(v) => {
            assert(started(t) =~= set![v]);
        },
        _ => {
            assert(started(t) =~= Set::<Vertex>::empty());
        },
    }
}

/// The events of the walk that enters the unvisited vertex `v` when the vertices of `seen`
/// have been entered before.
pub open spec fn visit(g: Adjacency, v: Vertex, seen: Set<Vertex>) -> Seq<Event>
    decreases unseen(seen).len(), 0nat, 0nat,
    when !seen.contains(v)
{
    proof {
        lemma_unseen_insert(seen, v);
    }
    seq![Event::Start(v)] + explore(g, Some(v), descending(neighbours(g, v)), seen.insert(v))
        + seq![Event::End(v)]
}

/// The events of walking through the candidates `rest` in turn, each announced from `from`
/// and entered unless it has been entered before.
pub open spec fn explore(
    g: Adjacency,
    from: Option<Vertex>,
    rest: Seq<Vertex>,
    seen: Set<Vertex>,
) -> Seq<Event>
    decreases unseen(seen).len(), 1nat, rest.len(),
{
    if rest.len() == 0 {
        Seq::empty()
    } else if seen.contains(rest[0]) {
        explore(g, from, rest.drop_first(), seen)
    } else {
        let t = visit(g, rest[0], seen);
        proof {
            lemma_unseen_grows(seen, seen.union(started(t)));
        }
        seq![announce(from, rest[0])] + t + explore(
            g,
            from,
            rest.drop_first(),
            seen.union(started(t)),
        )
    }
}

/// The events of a whole traversal: the keys are tried as roots from the largest down, and
/// so are the neighbours of each vertex.
pub open spec fn dfs_trace(g: Adjacency) -> Seq<Event> {
    explore(g, None, descending(g.dom()), Set::empty())
}

} // verus!
