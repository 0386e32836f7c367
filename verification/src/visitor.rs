//! Visitors: the hooks that a traversal calls, and what a sequence of events makes of a
//! visitor.
use crate::graph::Adjacency;
use crate::graph::Graph;
use crate::graph::Vertex;
use crate::graph::adjacency;
use crate::trace::Event;
use vstd::prelude::*;

verus! {

/// A visitor of a depth-first traversal: four hooks, which the traversal calls as it goes.
///
/// What a visitor holds is described by its `state`; `step` says how each event changes that
/// state, and `accepts` in which states the visitor can take an event. Each hook is held to
/// `step` by its contract, so a visitor writes out all four, also those that do nothing.
pub trait DfsAction: Sized {
    /// What a visitor holds, as a mathematical value.
    type State;

    /// What the visitor holds now.
    open spec fn state(&self) -> Self::State {
        arbitrary()
    }

    /// Whether the visitor can take `event` when it is in `state`.
    open spec fn accepts(state: Self::State, graph: Adjacency, event: Event) -> bool {
        true
    }

    /// The state in which `event` leaves a visitor that was in `state`.
    open spec fn step(state: Self::State, graph: Adjacency, event: Event) -> Self::State {
        state
    }

    /// Called once for each root, before the walk enters it.
    fn initial_visit(&mut self, graph: &Graph, vertex: Vertex)
        requires
            Self::accepts(old(self).state(), adjacency(graph), Event::InitialVisit(vertex)),
        ensures
            final(self).state() == Self::step(
                old(self).state(),
                adjacency(graph),
                Event::InitialVisit(vertex),
            ),
    ;

    /// Called when a vertex is entered.
    fn start(&mut self, graph: &Graph, vertex: Vertex)
        requires
            Self::accepts(old(self).state(), adjacency(graph), Event::Start(vertex)),
        ensures
            final(self).state() == Self::step(
                old(self).state(),
                adjacency(graph),
                Event::Start(vertex),
            ),
    ;

    /// Called before the walk goes from `current` into the unvisited vertex `next`.
    fn pre_visit(&mut self, graph: &Graph, current: Vertex, next: Vertex)
        requires
            Self::accepts(old(self).state(), adjacency(graph), Event::PreVisit(current, next)),
        ensures
            final(self).state() == Self::step(
                old(self).state(),
                adjacency(graph),
                Event::PreVisit(current, next),
            ),
    ;

    /// Called when every neighbour of a vertex has been explored.
    fn end(&mut self, graph: &Graph, vertex: Vertex)
        requires
            Self::accepts(old(self).state(), adjacency(graph), Event::End(vertex)),
        ensures
            final(self).state() == Self::step(
                old(self).state(),
                adjacency(graph),
                Event::End(vertex),
            ),
    ;
}

/// The state of a visitor that was in `state` and has taken the events of `t` in turn.
pub open spec fn replay<A: DfsAction>(state: A::State, g: Adjacency, t: Seq<Event>) -> A::State
    decreases t.len(),
{
    if t.len() == 0 {
        state
    } else {
        A::step(replay::<A>(state, g, t.drop_last()), g, t.last())
    }
}

/// A visitor that is in `state` can take the events of `t` in turn.
pub open spec fn accepts_all<A: DfsAction>(state: A::State, g: Adjacency, t: Seq<Event>) -> bool {
    forall|i: int|
        0 <= i < t.len() ==> A::accepts(replay::<A>(state, g, t.take(i)), g, #[trigger] t[i])
}

/// Taking one event is one step.
pub proof fn lemma_replay_one<A: DfsAction>(state: A::State, g: Adjacency, e: Event)
    ensures
        replay::<A>(state, g, seq![e]) == A::step(state, g, e),
        accepts_all::<A>(state, g, seq![e]) <==> A::accepts(state, g, e),
{
    let t = seq![e];
    assert(t.drop_last() =~= Seq::<Event>::empty());
    assert(replay::<A>(state, g, t.drop_last()) == state);
    assert(t.take(0) =~= Seq::<Event>::empty());
    assert(t[0] == e);
}

/// Taking the events of `a + b` is taking those of `a`, then those of `b`.
pub proof fn lemma_replay_concat<A: DfsAction>(
    state: A::State,
    g: Adjacency,
    a: Seq<Event>,
    b: Seq<Event>,
)
    ensures
        replay::<A>(state, g, a + b) == replay::<A>(replay::<A>(state, g, a), g, b),
    decreases b.len(),
{
    if b.len() == 0 {
        assert(a + b =~= a);
    } else {
        assert((a + b).drop_last() =~= a + b.drop_last());
        assert((a + b).last() == b.last());
        lemma_replay_concat::<A>(state, g, a, b.drop_last());
    }
}

/// A visitor can take `a + b` exactly if it can take `a` and then, from where `a` leaves it,
/// `b`.
pub proof fn lemma_accepts_all_concat<A: DfsAction>(
    state: A::State,
    g: Adjacency,
    a: Seq<Event>,
    b: Seq<Event>,
)
    ensures
        accepts_all::<A>(state, g, a + b) <==> accepts_all::<A>(state, g, a) && accepts_all::<A>(
            replay::<A>(state, g, a),
            g,
            b,
        ),
{
    let t = a + b;
    let mid = replay::<A>(state, g, a);
    if accepts_all::<A>(state, g, t) {
        assert forall|i: int| 0 <= i < a.len() implies A::accepts(
            replay::<A>(state, g, a.take(i)),
            g,
            #[trigger] a[i],
        ) by {
            assert(t.take(i) =~= a.take(i));
            assert(t[i] == a[i]);
        }
        assert forall|i: int| 0 <= i < b.len() implies A::accepts(
            replay::<A>(mid, g, b.take(i)),
            g,
            #[trigger] b[i],
        ) by {
            assert(t.take(a.len() + i) =~= a + b.take(i));
            assert(t[a.len() + i] == b[i]);
            lemma_replay_concat::<A>(state, g, a, b.take(i));
        }
    }
    if accepts_all::<A>(state, g, a) && accepts_all::<A>(mid, g, b) {
        assert forall|i: int| 0 <= i < t.len() implies A::accepts(
            replay::<A>(state, g, t.take(i)),
            g,
            #[trigger] t[i],
        ) by {
            if i < a.len() {
                assert(t.take(i) =~= a.take(i));
                assert(t[i] == a[i]);
            } else {
                let k = i - a.len();
                assert(t.take(i) =~= a + b.take(k));
                assert(t[i] == b[k]);
                lemma_replay_concat::<A>(state, g, a, b.take(k));
            }
        }
    }
}

} // verus!
