//! The traversal itself.
use crate::graph::Graph;
use crate::graph::Vertex;
use crate::graph::adjacency;
use crate::graph::neighbours;
use crate::order::descending;
use crate::order::descending_keys;
use crate::order::descending_neighbours;
use crate::trace::Event;
use crate::trace::dfs_trace;
use crate::trace::explore;
use crate::trace::lemma_started_concat;
use crate::trace::lemma_started_one;
use crate::trace::lemma_unseen_grows;
use crate::trace::lemma_unseen_insert;
use crate::trace::started;
use crate::trace::unseen;
use crate::trace::visit;
use crate::visitor::DfsAction;
use crate::visitor::accepts_all;
use crate::visitor::lemma_accepts_all_concat;
use crate::visitor::lemma_replay_concat;
use crate::visitor::lemma_replay_one;
use crate::visitor::replay;
use std::collections::HashSet;
use vstd::prelude::*;

verus! {

/// Enters the unvisited vertex `vertex` and everything unvisited that can be reached from it.
fn dfs_visit<A: DfsAction>(
    graph: &Graph,
    vertex: Vertex,
    seen: &mut HashSet<Vertex>,
    action: &mut A,
)
    requires
        !old(seen)@.contains(vertex),
        accepts_all::<A>(
            old(action).state(),
            adjacency(graph),
            visit(adjacency(graph), vertex, old(seen)@),
        ),
    ensures
        final(action).state() == replay::<A>(
            old(action).state(),
            adjacency(graph),
            visit(adjacency(graph), vertex, old(seen)@),
        ),
        final(seen)@ == old(seen)@.union(started(visit(adjacency(graph), vertex, old(seen)@))),
    decreases unseen(old(seen)@).len(),
{
    let ghost g = adjacency(graph);
    let ghost seen0 = seen@;
    let ghost first = action.state();
    let ghost whole = visit(g, vertex, seen0);
    let ghost close = seq![Event::End(vertex)];

    proof {
        let inner = explore(
            g,
            Some(vertex),
            descending(neighbours(g, vertex)),
            seen0.insert(vertex),
        );
        assert(whole =~= seq![Event::Start(vertex)] + (inner + close));
        lemma_accepts_all_concat::<A>(first, g, seq![Event::Start(vertex)], inner + close);
        lemma_replay_one::<A>(first, g, Event::Start(vertex));
    }
    action.start(graph, vertex);
    seen.insert(vertex);

    let candidates = descending_neighbours(graph, vertex);
    let ghost mut done: Seq<Event> = seq![Event::Start(vertex)];
    proof {
        lemma_started_one(Event::Start(vertex));
        assert(seen@ =~= seen0.union(started(done)));
        assert(candidates@.skip(0) =~= candidates@);
    }
    let mut i: usize = 0;
    while i < candidates.len()
        invariant
            i <= candidates.len(),
            g == adjacency(graph),
            seen0 == old(seen)@,
            !seen0.contains(vertex),
            seen0.insert(vertex).subset_of(seen@),
            seen@ == seen0.union(started(done)),
            close == seq![Event::End(vertex)],
            whole == done + (explore(g, Some(vertex), candidates@.skip(i as int), seen@) + close),
            accepts_all::<A>(first, g, whole),
            action.state() == replay::<A>(first, g, done),
        decreases candidates.len() - i,
    {
        let next = candidates[i];
        let ghost rest = candidates@.skip(i as int);
        let ghost later = candidates@.skip(i + 1);
        proof {
            assert(rest[0] == next);
            assert(rest.drop_first() =~= later);
        }
        if !seen.contains(&next) {
            let ghost seen1 = seen@;
            let ghost sub = visit(g, next, seen1);
            let ghost hello = seq![Event::PreVisit(vertex, next)];
            let ghost after = explore(g, Some(vertex), later, seen1.union(started(sub))) + close;
            proof {
                assert(explore(g, Some(vertex), rest, seen1) == hello + sub + explore(
                    g,
                    Some(vertex),
                    later,
                    seen1.union(started(sub)),
                ));
                assert(whole =~= done + (hello + (sub + after)));
                lemma_accepts_all_concat::<A>(first, g, done, hello + (sub + after));
                lemma_accepts_all_concat::<A>(action.state(), g, hello, sub + after);
                lemma_replay_one::<A>(action.state(), g, Event::PreVisit(vertex, next));
                lemma_accepts_all_concat::<A>(
                    replay::<A>(action.state(), g, hello),
                    g,
                    sub,
                    after,
                );
                lemma_replay_concat::<A>(first, g, done, hello);
                lemma_replay_concat::<A>(first, g, done + hello, sub);
                lemma_unseen_insert(seen0, vertex);
                lemma_unseen_grows(seen0.insert(vertex), seen1);
            }
            action.pre_visit(graph, vertex, next);
            dfs_visit(graph, next, seen, action);
            proof {
                lemma_started_concat(done, hello);
                lemma_started_one(Event::PreVisit(vertex, next));
                lemma_started_concat(done + hello, sub);
                done = done + hello + sub;
                assert(seen@ =~= seen0.union(started(done)));
                assert(whole =~= done + after);
            }
        }
        i = i + 1;
    }
    proof {
        assert(candidates@.skip(i as int) =~= Seq::<Vertex>::empty());
        assert(explore(g, Some(vertex), candidates@.skip(i as int), seen@) =~= Seq::<
            Event,
        >::empty());
        assert(whole =~= done + close);
        lemma_accepts_all_concat::<A>(first, g, done, close);
        lemma_replay_one::<A>(action.state(), g, Event::End(vertex));
        lemma_replay_concat::<A>(first, g, done, close);
        lemma_started_concat(done, close);
        lemma_started_one(Event::End(vertex));
        assert(seen@ =~= seen0.union(started(whole)));
    }
    action.end(graph, vertex);
}

/// Walks the whole graph depth first and calls the visitor's hooks on the way.
///
/// The keys of the graph are tried as roots from the largest down; so are the neighbours of
/// each vertex. The visitor is left as the events of `dfs_trace`, taken in turn, leave it.
pub fn dfs<A: DfsAction>(graph: &Graph, action: &mut A)
    requires
        accepts_all::<A>(old(action).state(), adjacency(graph), dfs_trace(adjacency(graph))),
    ensures
        final(action).state() == replay::<A>(
            old(action).state(),
            adjacency(graph),
            dfs_trace(adjacency(graph)),
        ),
{
    let ghost g = adjacency(graph);
    let ghost first = action.state();
    let ghost whole = dfs_trace(g);

    let mut seen: HashSet<Vertex> = HashSet::new();
    let roots = descending_keys(graph);
    let ghost mut done: Seq<Event> = Seq::empty();
    proof {
        assert(g.dom() =~= graph@.dom());
        assert(roots@.skip(0) =~= roots@);
        assert(started(done) =~= Set::<Vertex>::empty());
        assert(whole =~= done + explore(g, None, roots@.skip(0), seen@));
    }
    let mut i: usize = 0;
    while i < roots.len()
        invariant
            i <= roots.len(),
            g == adjacency(graph),
            seen@ == started(done),
            whole == done + explore(g, None, roots@.skip(i as int), seen@),
            accepts_all::<A>(first, g, whole),
            action.state() == replay::<A>(first, g, done),
        decreases roots.len() - i,
    {
        let root = roots[i];
        let ghost rest = roots@.skip(i as int);
        let ghost later = roots@.skip(i + 1);
        proof {
            assert(rest[0] == root);
            assert(rest.drop_first() =~= later);
        }
        if !seen.contains(&root) {
            let ghost seen1 = seen@;
            let ghost sub = visit(g, root, seen1);
            let ghost hello = seq![Event::InitialVisit(root)];
            let ghost after = explore(g, None, later, seen1.union(started(sub)));
            proof {
                assert(explore(g, None, rest, seen1) == hello + sub + after);
                assert(whole =~= done + (hello + (sub + after)));
                lemma_accepts_all_concat::<A>(first, g, done, hello + (sub + after));
                lemma_accepts_all_concat::<A>(action.state(), g, hello, sub + after);
                lemma_replay_one::<A>(action.state(), g, Event::InitialVisit(root));
                lemma_accepts_all_concat::<A>(
                    replay::<A>(action.state(), g, hello),
                    g,
                    sub,
                    after,
                );
                lemma_replay_concat::<A>(first, g, done, hello);
                lemma_replay_concat::<A>(first, g, done + hello, sub);
            }
            action.initial_visit(graph, root);
            dfs_visit(graph, root, &mut seen, action);
            proof {
                lemma_started_concat(done, hello);
                lemma_started_one(Event::InitialVisit(root));
                lemma_started_concat(done + hello, sub);
                done = done + hello + sub;
                assert(seen@ =~= started(done));
                assert(whole =~= done + after);
            }
        }
        i = i + 1;
    }
    proof {
        assert(roots@.skip(i as int) =~= Seq::<Vertex>::empty());
        assert(explore(g, None, roots@.skip(i as int), seen@) =~= Seq::<Event>::empty());
        assert(whole =~= done);
    }
}

} // verus!
