//! The times at which the walk enters and leaves the vertices.
use crate::engine::dfs;
use crate::graph::Adjacency;
use crate::graph::Graph;
use crate::graph::Vertex;
use crate::graph::adjacency;
use crate::graph::neighbours;
use crate::graph::vertices;
use crate::nesting::lemma_enclosed_at;
use crate::nesting::lemma_ends_follow_at;
use crate::nesting::lemma_grounded_at;
use crate::nesting::lemma_heralded_at;
use crate::order::descending;
use crate::order::descending_keys;
use crate::order::descending_neighbours;
use crate::order::lemma_descending_lists;
use crate::reach::theorem_visits_every_vertex;
use crate::sequences::lemma_filter_empty;
use crate::sequences::lemma_rank_bounds;
use crate::sequences::lemma_rank_order;
use crate::sequences::lemma_rank_push;
use crate::sequences::rank;
use crate::structure::lemma_dfs_trace;
use crate::trace::Event;
use crate::trace::dfs_trace;
use crate::trace::started;
use crate::visitor::DfsAction;
use crate::visitor::accepts_all;
use crate::visitor::lemma_accepts_all_concat;
use crate::visitor::lemma_replay_concat;
use crate::visitor::lemma_replay_one;
use crate::visitor::replay;
use std::collections::HashMap;
use std::collections::HashSet;
use vstd::prelude::*;

verus! {

/// Whether an event advances the clock: entering and leaving a vertex do.
pub open spec fn is_tick(e: Event) -> bool {
    e is Start || e is End
}

/// How often the clock advances along a trace.
pub open spec fn ticks(t: Seq<Event>) -> nat {
    t.filter(|e: Event| is_tick(e)).len()
}

/// What the clock shows when the event `e` of the trace has been taken: the number of ticks
/// up to and with `e`.
pub open spec fn time_of(t: Seq<Event>, e: Event) -> nat {
    rank(t, |e: Event| is_tick(e), e)
}

/// For every vertex that the trace enters, what the clock shows then.
pub open spec fn starting_times(t: Seq<Event>) -> Map<Vertex, u64> {
    Map::new(
        |v: Vertex| t.contains(Event::Start(v)),
        |v: Vertex| time_of(t, Event::Start(v)) as u64,
    )
}

/// For every vertex that the trace leaves, what the clock shows then.
pub open spec fn finishing_times(t: Seq<Event>) -> Map<Vertex, u64> {
    Map::new(|v: Vertex| t.contains(Event::End(v)), |v: Vertex| time_of(t, Event::End(v)) as u64)
}

/// The visitor that stamps every vertex with the time at which the walk enters it and the
/// time at which the walk leaves it.
#[derive(Debug)]
struct Timer {
    time: u64,
    starting_times: HashMap<Vertex, u64>,
    finishing_times: HashMap<Vertex, u64>,
}

impl Default for Timer {
    fn default() -> (timer: Self)
        ensures
            timer.state() == (0u64, Map::<Vertex, u64>::empty(), Map::<Vertex, u64>::empty()),
    {
        Timer { time: 0, starting_times: HashMap::new(), finishing_times: HashMap::new() }
    }
}

impl DfsAction for Timer {
    type State = (u64, Map<Vertex, u64>, Map<Vertex, u64>);

    closed spec fn state(&self) -> (u64, Map<Vertex, u64>, Map<Vertex, u64>) {
        (self.time, self.starting_times@, self.finishing_times@)
    }

    open spec fn accepts(
        state: (u64, Map<Vertex, u64>, Map<Vertex, u64>),
        graph: Adjacency,
        event: Event,
    ) -> bool {
        is_tick(event) ==> state.0 < u64::MAX
    }

    open spec fn step(
        state: (u64, Map<Vertex, u64>, Map<Vertex, u64>),
        graph: Adjacency,
        event: Event,
    ) -> (u64, Map<Vertex, u64>, Map<Vertex, u64>) {
        match event {
            Event::Start(v) => (
                (state.0 + 1) as u64,
                state.1.insert(v, (state.0 + 1) as u64),
                state.2,
            ),
            Event::End(v) => (
                (state.0 + 1) as u64,
                state.1,
                state.2.insert(v, (state.0 + 1) as u64),
            ),
            _ => state,
        }
    }

    fn initial_visit(&mut self, graph: &Graph, vertex: Vertex) {
    }

    fn start(&mut self, graph: &Graph, vertex: Vertex) {
        self.time += 1;
        self.starting_times.insert(vertex, self.time);
    }

    fn pre_visit(&mut self, graph: &Graph, current: Vertex, next: Vertex) {
    }

    fn end(&mut self, graph: &Graph, vertex: Vertex) {
        self.time += 1;
        self.finishing_times.insert(vertex, self.time);
    }
}

/// What one more event does to the times of a trace in which nothing occurs twice.
proof fn lemma_times_push(p: Seq<Event>, e: Event)
    requires
        p.push(e).no_duplicates(),
    ensures
        ticks(p.push(e)) == ticks(p) + if is_tick(e) {
            1nat
        } else {
            0nat
        },
        starting_times(p.push(e)) == match e {
            Event::Start(v) => starting_times(p).insert(v, (ticks(p) + 1) as u64),
            _ => starting_times(p),
        },
        finishing_times(p.push(e)) == match e {
            Event::End(v) => finishing_times(p).insert(v, (ticks(p) + 1) as u64),
            _ => finishing_times(p),
        },
{
    let t = p.push(e);
    let tick = |e: Event| is_tick(e);
    lemma_rank_push(p, tick, e, e);
    assert forall|d: Event|
        (#[trigger] t.contains(d) <==> p.contains(d) || d == e) && (p.contains(d) ==> time_of(t, d)
            == time_of(p, d)) && (d == e ==> !p.contains(d) && time_of(t, d) == ticks(t)) by {
        lemma_rank_push(p, tick, e, d);
    }
    match e {
        Event::Start(v) => {
            assert(starting_times(t) =~= starting_times(p).insert(v, (ticks(p) + 1) as u64));
            assert(finishing_times(t) =~= finishing_times(p));
        },
        Event::End(v) => {
            assert(starting_times(t) =~= starting_times(p));
            assert(finishing_times(t) =~= finishing_times(p).insert(v, (ticks(p) + 1) as u64));
        },
        _ => {
            assert(starting_times(t) =~= starting_times(p));
            assert(finishing_times(t) =~= finishing_times(p));
        },
    }
}

/// Along a trace in which nothing occurs twice, a clock that starts at zero stamps every
/// vertex with the times of its entering and of its leaving.
proof fn lemma_stamps(g: Adjacency, t: Seq<Event>)
    requires
        t.no_duplicates(),
        ticks(t) <= u64::MAX,
    ensures
        accepts_all::<Timer>((0u64, Map::empty(), Map::empty()), g, t),
        replay::<Timer>((0u64, Map::empty(), Map::empty()), g, t) == (
            ticks(t) as u64,
            starting_times(t),
            finishing_times(t),
        ),
    decreases t.len(),
{
    let first = (0u64, Map::<Vertex, u64>::empty(), Map::<Vertex, u64>::empty());
    if t.len() == 0 {
        lemma_filter_empty(|e: Event| is_tick(e));
        assert(t =~= Seq::<Event>::empty());
        assert(starting_times(t) =~= Map::<Vertex, u64>::empty());
        assert(finishing_times(t) =~= Map::<Vertex, u64>::empty());
    } else {
        let p = t.drop_last();
        let e = t.last();
        assert(t =~= p.push(e));
        assert(t =~= p + seq![e]);
        lemma_times_push(p, e);
        lemma_rank_push(p, |e: Event| is_tick(e), e, e);
        lemma_stamps(g, p);
        lemma_accepts_all_concat::<Timer>(first, g, p, seq![e]);
        lemma_replay_concat::<Timer>(first, g, p, seq![e]);
        lemma_replay_one::<Timer>(replay::<Timer>(first, g, p), g, e);
    }
}

/// Where nothing occurs twice, the clock advances once for every vertex that the trace
/// enters and once for every vertex that it leaves.
proof fn lemma_ticks_count(t: Seq<Event>)
    requires
        t.no_duplicates(),
    ensures
        started(t).finite(),
        Set::new(|v: Vertex| t.contains(Event::End(v))).finite(),
        ticks(t) == started(t).len() + Set::new(|v: Vertex| t.contains(Event::End(v))).len(),
    decreases t.len(),
{
    let ended = |t: Seq<Event>| Set::new(|v: Vertex| t.contains(Event::End(v)));
    if t.len() == 0 {
        lemma_filter_empty(|e: Event| is_tick(e));
        assert(t =~= Seq::<Event>::empty());
        assert(started(t) =~= Set::<Vertex>::empty());
        assert(ended(t) =~= Set::<Vertex>::empty());
    } else {
        let p = t.drop_last();
        let e = t.last();
        assert(t =~= p.push(e));
        lemma_rank_push(p, |e: Event| is_tick(e), e, e);
        lemma_ticks_count(p);
        assert forall|d: Event| #[trigger] t.contains(d) <==> p.contains(d) || d == e by {
            lemma_rank_push(p, |e: Event| is_tick(e), e, d);
        }
        match e {
            Event::Start(v) => {
                assert(started(t) =~= started(p).insert(v));
                assert(ended(t) =~= ended(p));
            },
            Event::End(v) => {
                assert(started(t) =~= started(p));
                assert(ended(t) =~= ended(p).insert(v));
            },
            _ => {
                assert(started(t) =~= started(p));
                assert(ended(t) =~= ended(p));
            },
        }
    }
}

/// The clock of a traversal advances twice for every vertex of the graph.
pub proof fn theorem_ticks(g: Adjacency)
    ensures
        vertices(g).finite(),
        ticks(dfs_trace(g)) == 2 * vertices(g).len(),
{
    let t = dfs_trace(g);
    lemma_dfs_trace(g);
    theorem_visits_every_vertex(g);
    lemma_ticks_count(t);
    assert(Set::new(|v: Vertex| t.contains(Event::End(v))) =~= started(t)) by {
        assert forall|v: Vertex| t.contains(Event::End(v)) <==> t.contains(Event::Start(v)) by {
            if t.contains(Event::End(v)) {
                lemma_grounded_at(t, Event::End(v));
            }
            if t.contains(Event::Start(v)) {
                lemma_ends_follow_at(t, v);
            }
        }
    }
}

/// The times at which the walk enters and leaves each vertex of the graph, on a clock that
/// advances by one with every entering and every leaving and shows 1 at the first.
///
/// The clock is a `u64` and advances twice for every vertex: the graph must not have more
/// vertices than the clock can count in this way.
pub fn times(graph: &Graph) -> (stamps: (HashMap<Vertex, u64>, HashMap<Vertex, u64>))
    requires
        2 * vertices(adjacency(graph)).len() <= u64::MAX,
    ensures
        stamps.0@ == starting_times(dfs_trace(adjacency(graph))),
        stamps.1@ == finishing_times(dfs_trace(adjacency(graph))),
{
    let mut timer = Timer::default();
    proof {
        lemma_dfs_trace(adjacency(graph));
        theorem_ticks(adjacency(graph));
        lemma_stamps(adjacency(graph), dfs_trace(adjacency(graph)));
    }
    dfs(graph, &mut timer);
    (timer.starting_times, timer.finishing_times)
}

/// The vertices of a graph: its keys and the neighbours of its keys.
fn all_vertices(graph: &Graph) -> (all: HashSet<Vertex>)
    ensures
        all@ == vertices(adjacency(graph)),
{
    let ghost g = adjacency(graph);
    let mut all: HashSet<Vertex> = HashSet::new();
    let keys = descending_keys(graph);
    proof {
        assert(g.dom() =~= graph@.dom());
        lemma_descending_lists(g.dom());
    }
    let mut i: usize = 0;
    while i < keys.len()
        invariant
            i <= keys.len(),
            g == adjacency(graph),
            keys@ == descending(g.dom()),
            forall|v: Vertex|
                all@.contains(v) <==> exists|k: int|
                    0 <= k < i && (v == keys@[k] || neighbours(g, keys@[k]).contains(v)),
        decreases keys.len() - i,
    {
        let key = keys[i];
        let ghost before = all@;
        all.insert(key);
        let members = descending_neighbours(graph, key);
        proof {
            lemma_descending_lists(neighbours(g, key));
        }
        let mut j: usize = 0;
        assert(members@.take(0).to_set() =~= Set::<Vertex>::empty());
        while j < members.len()
            invariant
                j <= members.len(),
                all@ == before.insert(key).union(members@.take(j as int).to_set()),
            decreases members.len() - j,
        {
            proof {
                assert(members@.take(j + 1) =~= members@.take(j as int).push(members@[j as int]));
                members@.take(j as int).lemma_push_to_set_commute(members@[j as int]);
            }
            all.insert(members[j]);
            j = j + 1;
            assert(all@ =~= before.insert(key).union(members@.take(j as int).to_set()));
        }
        assert(members@.take(j as int) =~= members@);
        proof {
            assert forall|v: Vertex|
                all@.contains(v) <==> exists|k: int|
                    0 <= k < i + 1 && (v == keys@[k] || neighbours(g, keys@[k]).contains(v)) by {
                if before.contains(v) {
                    let k = choose|k: int|
                        0 <= k < i && (v == keys@[k] || neighbours(g, keys@[k]).contains(v));
                    assert(0 <= k < i + 1);
                }
                if neighbours(g, key).contains(v) {
                    assert(members@.contains(v));
                }
                if members@.contains(v) {
                    assert(v == keys@[i as int] || neighbours(g, keys@[i as int]).contains(v));
                }
                if v == key {
                    assert(v == keys@[i as int] || neighbours(g, keys@[i as int]).contains(v));
                }
            }
        }
        i = i + 1;
    }
    proof {
        assert forall|v: Vertex| all@.contains(v) <==> vertices(g).contains(v) by {
            if all@.contains(v) {
                let k = choose|k: int|
                    0 <= k < i && (v == keys@[k] || neighbours(g, keys@[k]).contains(v));
                assert(keys@.contains(keys@[k]));
            }
            if g.contains_key(v) {
                assert(keys@.contains(v));
                let k = keys@.index_of(v);
                assert(v == keys@[k] || neighbours(g, keys@[k]).contains(v));
            }
            if exists|u: Vertex| neighbours(g, u).contains(v) {
                let u = choose|u: Vertex| neighbours(g, u).contains(v);
                assert(g.contains_key(u));
                assert(keys@.contains(u));
                let k = keys@.index_of(u);
                assert(v == keys@[k] || neighbours(g, keys@[k]).contains(v));
            }
        }
        assert(all@ =~= vertices(g));
    }
    all
}

/// The times of the walk, as `times` gives them, if the clock can count them: if the graph
/// has no more vertices than half of what a `u64` counts.
pub fn checked_times(graph: &Graph) -> (stamps: Option<
    (HashMap<Vertex, u64>, HashMap<Vertex, u64>),
>)
    ensures
        stamps is Some <==> 2 * vertices(adjacency(graph)).len() <= u64::MAX,
        stamps matches Some(found) ==> found.0@ == starting_times(dfs_trace(adjacency(graph)))
            && found.1@ == finishing_times(dfs_trace(adjacency(graph))),
{
    let count = all_vertices(graph).len();
    if count as u128 * 2 <= u64::MAX as u128 {
        Some(times(graph))
    } else {
        None
    }
}

/// The times of a traversal nest.
///
/// Every vertex of the graph has its two times, and is left at a later time than it is
/// entered. Where the walk steps from `u` into `w`, it enters `u` before `w` and leaves `w`
/// before `u`: the times of `w` lie strictly within those of `u`.
pub proof fn theorem_times_nest(g: Adjacency)
    requires
        2 * vertices(g).len() <= u64::MAX,
    ensures
        starting_times(dfs_trace(g)).dom() == vertices(g),
        finishing_times(dfs_trace(g)).dom() == vertices(g),
        forall|v: Vertex| #[trigger]
            starting_times(dfs_trace(g)).contains_key(v) ==> 1 <= starting_times(
                dfs_trace(g),
            )[v] < finishing_times(dfs_trace(g))[v],
        forall|u: Vertex, w: Vertex| #[trigger]
            dfs_trace(g).contains(Event::PreVisit(u, w)) ==> starting_times(dfs_trace(g))[u]
                < starting_times(dfs_trace(g))[w] < finishing_times(dfs_trace(g))[w]
                < finishing_times(dfs_trace(g))[u],
{
    let t = dfs_trace(g);
    let tick = |e: Event| is_tick(e);
    lemma_dfs_trace(g);
    theorem_ticks(g);
    assert forall|v: Vertex|
        (#[trigger] t.contains(Event::Start(v)) <==> t.contains(Event::End(v))) && (t.contains(
            Event::Start(v),
        ) ==> 1 <= time_of(t, Event::Start(v)) < time_of(t, Event::End(v)) <= ticks(t)) by {
        if t.contains(Event::End(v)) {
            lemma_grounded_at(t, Event::End(v));
        }
        if t.contains(Event::Start(v)) {
            lemma_ends_follow_at(t, v);
            lemma_rank_order(t, tick, Event::Start(v), Event::End(v));
            lemma_rank_bounds(t, tick, Event::Start(v));
            lemma_rank_bounds(t, tick, Event::End(v));
        }
    }
    theorem_visits_every_vertex(g);
    assert(starting_times(t).dom() =~= started(t));
    assert(finishing_times(t).dom() =~= started(t));
    assert forall|u: Vertex, w: Vertex| #[trigger]
        t.contains(Event::PreVisit(u, w)) implies starting_times(t)[u] < starting_times(t)[w]
        < finishing_times(t)[w] < finishing_times(t)[u] by {
        let e = Event::PreVisit(u, w);
        lemma_enclosed_at(t, None, u, w);
        lemma_grounded_at(t, e);
        lemma_heralded_at(t, e);
        lemma_ends_follow_at(t, w);
        lemma_ends_follow_at(t, u);
        lemma_rank_order(t, tick, Event::Start(u), Event::Start(w));
        lemma_rank_order(t, tick, Event::Start(w), Event::End(w));
        lemma_rank_order(t, tick, Event::End(w), Event::End(u));
        lemma_rank_bounds(t, tick, Event::End(u));
    }
}

} // verus!
