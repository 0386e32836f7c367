//! The parents: from where the walk first reached each vertex.
use crate::engine::dfs;
use crate::graph::Adjacency;
use crate::graph::Graph;
use crate::graph::Vertex;
use crate::graph::adjacency;
use crate::graph::neighbours;
use crate::graph::vertices;
use crate::nesting::lemma_enclosed_at;
use crate::nesting::lemma_ends_follow_at;
use crate::nesting::lemma_grounded_at;
use crate::nesting::lemma_heralded_at;
use crate::nesting::well_nested;
use crate::order::descending;
use crate::order::lemma_descending_lists;
use crate::reach::theorem_visits_every_vertex;
use crate::sequences::lemma_index_of_contained;
use crate::structure::lemma_dfs_trace;
use crate::trace::Event;
use crate::trace::dfs_trace;
use crate::trace::started;
use crate::visitor::DfsAction;
use crate::visitor::accepts_all;
use crate::visitor::lemma_replay_concat;
use crate::visitor::lemma_replay_one;
use crate::visitor::replay;
use std::collections::HashMap;
use vstd::prelude::*;

verus! {

/// The vertex from which the trace steps into `w`, if it steps into `w` at all.
pub open spec fn discoverer(t: Seq<Event>, w: Vertex) -> Option<Vertex> {
    if exists|u: Vertex| t.contains(Event::PreVisit(u, w)) {
        Some(choose|u: Vertex| t.contains(Event::PreVisit(u, w)))
    } else {
        None
    }
}

/// The parents that a trace gives: every key and every vertex that the trace steps into has
/// an entry, which names the vertex from which the trace steps into it, if there is one.
pub open spec fn parent_map(keys: Set<Vertex>, t: Seq<Event>) -> Map<Vertex, Option<Vertex>> {
    Map::new(
        |w: Vertex| keys.contains(w) || discoverer(t, w) is Some,
        |w: Vertex| discoverer(t, w),
    )
}

/// The parents before a walk: an entry for every key, without a parent.
pub open spec fn without_parents(keys: Set<Vertex>) -> Map<Vertex, Option<Vertex>> {
    Map::new(|v: Vertex| keys.contains(v), |v: Vertex| None::<Vertex>)
}

/// The trace steps into no vertex from two vertices.
pub open spec fn discovered_once(t: Seq<Event>) -> bool {
    forall|u1: Vertex, u2: Vertex, w: Vertex|
        #![trigger t.contains(Event::PreVisit(u1, w)), t.contains(Event::PreVisit(u2, w))]
        t.contains(Event::PreVisit(u1, w)) && t.contains(Event::PreVisit(u2, w)) ==> u1 == u2
}

/// A well-nested trace steps into no vertex from two vertices.
pub proof fn lemma_discovered_once(t: Seq<Event>)
    requires
        well_nested(t),
    ensures
        discovered_once(t),
{
    assert forall|u1: Vertex, u2: Vertex, w: Vertex|
        #![trigger t.contains(Event::PreVisit(u1, w)), t.contains(Event::PreVisit(u2, w))]
        t.contains(Event::PreVisit(u1, w)) && t.contains(Event::PreVisit(u2, w)) implies u1
        == u2 by {
        lemma_heralded_at(t, Event::PreVisit(u1, w));
        lemma_heralded_at(t, Event::PreVisit(u2, w));
        lemma_index_of_contained(t, Event::PreVisit(u1, w));
        lemma_index_of_contained(t, Event::PreVisit(u2, w));
    }
}

/// The visitor that notes for every vertex from where the walk first reached it.
#[derive(Debug)]
pub struct Parents(HashMap<Vertex, Option<Vertex>>);

impl Default for Parents {
    fn default() -> (parents: Self)
        ensures
            parents.state() == Map::<Vertex, Option<Vertex>>::empty(),
    {
        Parents(HashMap::new())
    }
}

impl Parents {
    /// The parents before the walk: every key of the graph, without a parent.
    pub fn new(graph: &Graph) -> (parents: Self)
        ensures
            parents.state() == without_parents(adjacency(graph).dom()),
    {
        let mut parents: HashMap<Vertex, Option<Vertex>> = HashMap::new();
        let ghost mut done: Seq<Vertex> = Seq::empty();
        for vertex in it: graph.keys()
            invariant
                it.seq().unref().to_set() == graph@.dom(),
                done.len() == it.index(),
                forall|k: int| 0 <= k < done.len() ==> done[k] == *it.seq()[k],
                parents@ == without_parents(done.to_set()),
                it.index() == it.seq().len() ==> done.to_set() == graph@.dom(),
        {
            parents.insert(*vertex, None);
            proof {
                done.lemma_push_to_set_commute(*vertex);
                let ghost longer = done.push(*vertex);
                assert(parents@ =~= without_parents(longer.to_set()));
                done = longer;
            }
            assert(it.index() + 1 == it.seq().len() ==> done.to_set() == graph@.dom()) by {
                if it.index() + 1 == it.seq().len() {
                    assert(it.seq().unref() =~= done);
                }
            }
        }
        assert(adjacency(graph).dom() =~= graph@.dom());
        Parents(parents)
    }
}

impl DfsAction for Parents {
    type State = Map<Vertex, Option<Vertex>>;

    closed spec fn state(&self) -> Map<Vertex, Option<Vertex>> {
        self.0@
    }

    open spec fn accepts(
        state: Map<Vertex, Option<Vertex>>,
        graph: Adjacency,
        event: Event,
    ) -> bool {
        true
    }

    open spec fn step(
        state: Map<Vertex, Option<Vertex>>,
        graph: Adjacency,
        event: Event,
    ) -> Map<Vertex, Option<Vertex>> {
        match event {
            Event::PreVisit(u, w) => state.insert(w, Some(u)),
            _ => state,
        }
    }

    fn initial_visit(&mut self, graph: &Graph, vertex: Vertex) {
    }

    fn start(&mut self, graph: &Graph, vertex: Vertex) {
    }

    fn pre_visit(&mut self, graph: &Graph, current: Vertex, next: Vertex) {
        self.0.insert(next, Some(current));
    }

    fn end(&mut self, graph: &Graph, vertex: Vertex) {
    }
}

/// What one more event does to the parents.
proof fn lemma_parent_map_push(keys: Set<Vertex>, p: Seq<Event>, e: Event)
    requires
        discovered_once(p.push(e)),
    ensures
        discovered_once(p),
        parent_map(keys, p.push(e)) == match e {
            Event::PreVisit(u, w) => parent_map(keys, p).insert(w, Some(u)),
            _ => parent_map(keys, p),
        },
{
    let t = p.push(e);
    assert forall|d: Event| #[trigger] t.contains(d) <==> p.contains(d) || d == e by {
        if p.contains(d) {
            let i = choose|i: int| 0 <= i < p.len() && p[i] == d;
            assert(t[i] == d);
        }
        if d == e {
            assert(t[p.len() as int] == d);
        }
        if t.contains(d) {
            let i = choose|i: int| 0 <= i < t.len() && t[i] == d;
            if i < p.len() {
                assert(p[i] == d);
            }
        }
    }
    assert forall|u1: Vertex, u2: Vertex, w: Vertex|
        #![trigger p.contains(Event::PreVisit(u1, w)), p.contains(Event::PreVisit(u2, w))]
        p.contains(Event::PreVisit(u1, w)) && p.contains(Event::PreVisit(u2, w)) implies u1
        == u2 by {
        assert(t.contains(Event::PreVisit(u1, w)));
        assert(t.contains(Event::PreVisit(u2, w)));
    }
    assert forall|w: Vertex|
        #![trigger discoverer(t, w)]
        discoverer(t, w) == (match e {
            Event::PreVisit(u, x) => if x == w {
                Some(u)
            } else {
                discoverer(p, w)
            },
            _ => discoverer(p, w),
        }) by {
        if exists|u: Vertex| t.contains(Event::PreVisit(u, w)) {
            let u = choose|u: Vertex| t.contains(Event::PreVisit(u, w));
            if p.contains(Event::PreVisit(u, w)) {
                let u0 = choose|u0: Vertex| p.contains(Event::PreVisit(u0, w));
                assert(t.contains(Event::PreVisit(u0, w)));
                match e {
                    Event::PreVisit(u1, x) => {
                        if x == w {
                            assert(t.contains(Event::PreVisit(u1, w)));
                        }
                    },
                    _ => {},
                }
            }
        } else {
            if exists|u: Vertex| p.contains(Event::PreVisit(u, w)) {
                let u0 = choose|u0: Vertex| p.contains(Event::PreVisit(u0, w));
                assert(t.contains(Event::PreVisit(u0, w)));
            }
            match e {
                Event::PreVisit(u1, x) => {
                    if x == w {
                        assert(t.contains(Event::PreVisit(u1, w)));
                    }
                },
                _ => {},
            }
        }
    }
    match e {
        Event::PreVisit(u, w) => {
            assert(parent_map(keys, t) =~= parent_map(keys, p).insert(w, Some(u)));
        },
        _ => {
            assert(parent_map(keys, t) =~= parent_map(keys, p));
        },
    }
}

/// Along a trace that steps into no vertex twice, the visitor notes the parents.
pub proof fn lemma_notes_parents(keys: Set<Vertex>, g: Adjacency, t: Seq<Event>)
    requires
        discovered_once(t),
    ensures
        accepts_all::<Parents>(without_parents(keys), g, t),
        replay::<Parents>(without_parents(keys), g, t) == parent_map(keys, t),
    decreases t.len(),
{
    let first = without_parents(keys);
    if t.len() == 0 {
        assert forall|w: Vertex| discoverer(t, w) is None by {
            if exists|u: Vertex| t.contains(Event::PreVisit(u, w)) {
                let u = choose|u: Vertex| t.contains(Event::PreVisit(u, w));
                assert(false);
            }
        }
        assert(parent_map(keys, t) =~= first);
    } else {
        let p = t.drop_last();
        let e = t.last();
        assert(t =~= p.push(e));
        assert(t =~= p + seq![e]);
        lemma_parent_map_push(keys, p, e);
        lemma_notes_parents(keys, g, p);
        lemma_replay_concat::<Parents>(first, g, p, seq![e]);
        lemma_replay_one::<Parents>(replay::<Parents>(first, g, p), g, e);
    }
}

/// For every vertex of the graph, the vertex from which the walk first reached it; none for
/// the roots of the walk.
pub fn parents(graph: &Graph) -> (found: HashMap<Vertex, Option<Vertex>>)
    ensures
        found@ == parent_map(adjacency(graph).dom(), dfs_trace(adjacency(graph))),
{
    let mut parents = Parents::new(graph);
    proof {
        let g = adjacency(graph);
        lemma_dfs_trace(g);
        lemma_discovered_once(dfs_trace(g));
        lemma_notes_parents(g.dom(), g, dfs_trace(g));
    }
    dfs(graph, &mut parents);
    parents.0
}

/// The parents of a traversal are the vertices from which the walk first reached the others.
///
/// Every vertex of the graph has an entry. A root of the walk is a key of the graph and has
/// no parent. Every other vertex that the walk enters has one: `u` is the parent of `w`
/// exactly if the walk steps from `u` into `w`. Such a step goes along an edge of the graph,
/// while `u` is open, and the walk enters `w` directly after it, for the only time.
pub proof fn theorem_parents(g: Adjacency)
    ensures
        parent_map(g.dom(), dfs_trace(g)).dom() == vertices(g),
        forall|r: Vertex| #[trigger]
            dfs_trace(g).contains(Event::InitialVisit(r)) ==> g.dom().contains(r) && parent_map(
                g.dom(),
                dfs_trace(g),
            ).contains_key(r) && parent_map(g.dom(), dfs_trace(g))[r] is None,
        forall|u: Vertex, w: Vertex|
            #[trigger] dfs_trace(g).contains(Event::PreVisit(u, w)) <==> parent_map(
                g.dom(),
                dfs_trace(g),
            ).contains_key(w) && parent_map(g.dom(), dfs_trace(g))[w] == Some(u),
        forall|w: Vertex| #[trigger]
            dfs_trace(g).contains(Event::Start(w)) ==> parent_map(
                g.dom(),
                dfs_trace(g),
            ).contains_key(w) && (parent_map(g.dom(), dfs_trace(g))[w] is None
                <==> dfs_trace(g).contains(Event::InitialVisit(w))),
        forall|u: Vertex, w: Vertex| #[trigger]
            dfs_trace(g).contains(Event::PreVisit(u, w)) ==> neighbours(g, u).contains(w)
                && dfs_trace(g).contains(Event::Start(u)) && dfs_trace(g).index_of(
                Event::Start(u),
            ) < dfs_trace(g).index_of(Event::PreVisit(u, w)) < dfs_trace(g).index_of(
                Event::End(u),
            ) && dfs_trace(g).index_of(Event::Start(w)) == dfs_trace(g).index_of(
                Event::PreVisit(u, w),
            ) + 1,
{
    let t = dfs_trace(g);
    let p = parent_map(g.dom(), t);
    lemma_dfs_trace(g);
    lemma_discovered_once(t);
    lemma_descending_lists(g.dom());
    theorem_visits_every_vertex(g);
    assert forall|w: Vertex| p.dom().contains(w) <==> vertices(g).contains(w) by {
        if exists|u: Vertex| t.contains(Event::PreVisit(u, w)) {
            let u = choose|u: Vertex| t.contains(Event::PreVisit(u, w));
            assert(neighbours(g, u).contains(w));
        }
        if vertices(g).contains(w) && !g.dom().contains(w) {
            assert(started(t).contains(w));
            if t.contains(Event::InitialVisit(w)) {
                assert(descending(g.dom()).contains(w));
            }
        }
    }
    assert(p.dom() =~= vertices(g));
    assert forall|u: Vertex, w: Vertex|
        #[trigger] t.contains(Event::PreVisit(u, w)) <==> p.contains_key(w) && p[w] == Some(
            u,
        ) by {
        if t.contains(Event::PreVisit(u, w)) {
            let u0 = choose|u0: Vertex| t.contains(Event::PreVisit(u0, w));
            assert(t.contains(Event::PreVisit(u0, w)));
        }
    }
    assert forall|r: Vertex| #[trigger] t.contains(Event::InitialVisit(r)) implies g.dom().contains(
        r,
    ) && p.contains_key(r) && p[r] is None by {
        assert(descending(g.dom()).contains(r));
        if exists|u: Vertex| t.contains(Event::PreVisit(u, r)) {
            let u = choose|u: Vertex| t.contains(Event::PreVisit(u, r));
            lemma_heralded_at(t, Event::PreVisit(u, r));
            lemma_heralded_at(t, Event::InitialVisit(r));
            lemma_index_of_contained(t, Event::PreVisit(u, r));
            lemma_index_of_contained(t, Event::InitialVisit(r));
        }
    }
    assert forall|w: Vertex| #[trigger] t.contains(Event::Start(w)) implies p.contains_key(w) && (
    p[w] is None <==> t.contains(Event::InitialVisit(w))) by {
        if !t.contains(Event::InitialVisit(w)) {
            let u = choose|u: Vertex| t.contains(Event::PreVisit(u, w));
            assert(t.contains(Event::PreVisit(u, w)));
        }
    }
    assert forall|u: Vertex, w: Vertex| #[trigger]
        t.contains(Event::PreVisit(u, w)) implies neighbours(g, u).contains(w) && t.contains(
        Event::Start(u),
    ) && t.index_of(Event::Start(u)) < t.index_of(Event::PreVisit(u, w)) < t.index_of(
        Event::End(u),
    ) && t.index_of(Event::Start(w)) == t.index_of(Event::PreVisit(u, w)) + 1 by {
        let e = Event::PreVisit(u, w);
        lemma_enclosed_at(t, None, u, w);
        lemma_heralded_at(t, e);
        lemma_grounded_at(t, e);
        lemma_ends_follow_at(t, w);
    }
}

} // verus!
