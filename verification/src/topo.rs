//! The topological order: the vertices in the reverse of the order in which the walk leaves
//! them.
use crate::engine::dfs;
use crate::graph::Adjacency;
use crate::graph::Graph;
use crate::graph::Vertex;
use crate::graph::adjacency;
use crate::graph::neighbours;
use crate::graph::vertices;
use crate::nesting::lemma_enclosed_at;
use crate::nesting::lemma_ends_follow_at;
use crate::nesting::lemma_grounded_at;
use crate::order::descending;
use crate::order::lemma_descending_lists;
use crate::reach::cyclic;
use crate::reach::lemma_explore_leaves_targets_first;
use crate::reach::theorem_visits_every_vertex;
use crate::sequences::lemma_filter_empty;
use crate::sequences::lemma_filter_places;
use crate::sequences::lemma_index_of_unique;
use crate::sequences::lemma_rank_order;
use crate::sequences::rank;
use crate::structure::lemma_dfs_trace;
use crate::trace::Event;
use crate::trace::dfs_trace;
use crate::trace::started;
use crate::trace::subject;
use crate::visitor::DfsAction;
use crate::visitor::accepts_all;
use crate::visitor::replay;
use vstd::prelude::*;

verus! {

/// Whether an event is the leaving of a vertex.
pub open spec fn is_end(e: Event) -> bool {
    e is End
}

/// The vertices that a trace leaves, in the order in which it leaves them.
pub open spec fn finished(t: Seq<Event>) -> Seq<Vertex> {
    t.filter(|e: Event| is_end(e)).map_values(|e: Event| subject(e))
}

/// How many vertices the trace has left when it has taken the event `e`.
pub open spec fn left_by(t: Seq<Event>, e: Event) -> nat {
    rank(t, |e: Event| is_end(e), e)
}

/// One more event adds its vertex to the finished ones exactly if it is an `End`.
proof fn lemma_finished_push(t: Seq<Event>, e: Event)
    ensures
        finished(t.push(e)) == if e is End {
            finished(t).push(subject(e))
        } else {
            finished(t)
        },
{
    t.lemma_filter_push(e, |e: Event| is_end(e));
    if e is End {
        t.filter(|e: Event| is_end(e)).lemma_push_map_commute(|e: Event| subject(e), e);
    }
}

/// The visitor that collects the vertices in the order in which the walk leaves them.
#[derive(Debug)]
struct TopologicalSort(Vec<Vertex>);

impl Default for TopologicalSort {
    fn default() -> (topo: Self)
        ensures
            topo.state() == Seq::<Vertex>::empty(),
    {
        TopologicalSort(Vec::new())
    }
}

impl DfsAction for TopologicalSort {
    type State = Seq<Vertex>;

    closed spec fn state(&self) -> Seq<Vertex> {
        self.0@
    }

    open spec fn accepts(state: Seq<Vertex>, graph: Adjacency, event: Event) -> bool {
        true
    }

    open spec fn step(state: Seq<Vertex>, graph: Adjacency, event: Event) -> Seq<Vertex> {
        match event {
            Event::End(v) => state.push(v),
            _ => state,
        }
    }

    fn initial_visit(&mut self, graph: &Graph, vertex: Vertex) {
    }

    fn start(&mut self, graph: &Graph, vertex: Vertex) {
    }

    fn pre_visit(&mut self, graph: &Graph, current: Vertex, next: Vertex) {
    }

    fn end(&mut self, graph: &Graph, vertex: Vertex) {
        self.0.push(vertex);
    }
}

/// Collecting along a trace appends the vertices that the trace leaves.
proof fn lemma_collects_finished(state: Seq<Vertex>, g: Adjacency, t: Seq<Event>)
    ensures
        replay::<TopologicalSort>(state, g, t) == state + finished(t),
        accepts_all::<TopologicalSort>(state, g, t),
    decreases t.len(),
{
    if t.len() == 0 {
        lemma_filter_empty(|e: Event| is_end(e));
        assert(t =~= Seq::<Event>::empty());
        assert(state + finished(t) =~= state);
    } else {
        lemma_collects_finished(state, g, t.drop_last());
        lemma_finished_push(t.drop_last(), t.last());
        assert(t.drop_last().push(t.last()) =~= t);
        let before = finished(t.drop_last());
        match t.last() {
            Event::End(v) => {
                assert((state + before).push(v) =~= state + before.push(v));
            },
            _ => {},
        }
    }
}

/// The vertices of the graph in the reverse of the order in which the walk leaves them: for
/// a graph without cycles, a topological order.
pub fn topological_sort(graph: &Graph) -> (order: Vec<Vertex>)
    ensures
        order@ == finished(dfs_trace(adjacency(graph))).reverse(),
{
    let mut topo = TopologicalSort::default();
    proof {
        lemma_collects_finished(topo.state(), adjacency(graph), dfs_trace(adjacency(graph)));
    }
    dfs(graph, &mut topo);
    let mut left = topo.0;
    let ghost all = left@;
    assert(all =~= finished(dfs_trace(adjacency(graph))));
    let mut order: Vec<Vertex> = Vec::new();
    while left.len() > 0
        invariant
            left@.len() <= all.len(),
            left@ == all.take(left@.len() as int),
            order@.len() == all.len() - left@.len(),
            forall|k: int| 0 <= k < order@.len() ==> order@[k] == all[all.len() - 1 - k],
        decreases left.len(),
    {
        let v = left.pop().unwrap();
        order.push(v);
    }
    assert(order@ =~= all.reverse());
    order
}

/// Where nothing occurs twice in a trace, no vertex stands twice in the reversed order of
/// leaving.
pub proof fn lemma_order_once(t: Seq<Event>)
    requires
        t.no_duplicates(),
    ensures
        finished(t).reverse().no_duplicates(),
{
    let end = |e: Event| is_end(e);
    let ends = t.filter(end);
    let f = finished(t);
    let r = f.reverse();
    lemma_filter_places(t, end);
    assert forall|i: int, j: int| 0 <= i < r.len() && 0 <= j < r.len() && i != j implies r[i]
        != r[j] by {
        let a = f.len() - 1 - i;
        let b = f.len() - 1 - j;
        assert(r[i] == f[a]);
        assert(r[j] == f[b]);
        assert(end(ends[a]) && end(ends[b]));
        assert(rank(t, end, ends[a]) == a + 1);
        assert(rank(t, end, ends[b]) == b + 1);
    }
}

/// Where a vertex stands in the reversed order of leaving: the later it is left, the earlier
/// it stands.
pub proof fn lemma_order_places(t: Seq<Event>, v: Vertex)
    requires
        t.no_duplicates(),
        t.contains(Event::End(v)),
    ensures
        finished(t).reverse().no_duplicates(),
        finished(t).reverse().contains(v),
        1 <= left_by(t, Event::End(v)) <= finished(t).len(),
        finished(t).reverse().index_of(v) == finished(t).len() - left_by(t, Event::End(v)),
{
    let end = |e: Event| is_end(e);
    let ends = t.filter(end);
    let f = finished(t);
    let r = f.reverse();
    lemma_order_once(t);
    lemma_filter_places(t, end);
    assert(end(Event::End(v)));
    let k = f.len() - left_by(t, Event::End(v));
    assert(ends[left_by(t, Event::End(v)) - 1] == Event::End(v));
    assert(r[k] == f[left_by(t, Event::End(v)) - 1]);
    lemma_index_of_unique(r, k);
}

/// In the order that `topological_sort` returns, every vertex stands once, and a vertex
/// from which the walk steps into another stands before that other.
pub proof fn theorem_parent_before_child(g: Adjacency, u: Vertex, w: Vertex)
    requires
        dfs_trace(g).contains(Event::PreVisit(u, w)),
    ensures
        finished(dfs_trace(g)).reverse().no_duplicates(),
        finished(dfs_trace(g)).reverse().contains(u),
        finished(dfs_trace(g)).reverse().contains(w),
        finished(dfs_trace(g)).reverse().index_of(u) < finished(dfs_trace(g)).reverse().index_of(
            w,
        ),
{
    let t = dfs_trace(g);
    lemma_dfs_trace(g);
    lemma_enclosed_at(t, None, u, w);
    lemma_grounded_at(t, Event::PreVisit(u, w));
    lemma_ends_follow_at(t, w);
    lemma_ends_follow_at(t, u);
    lemma_order_places(t, u);
    lemma_order_places(t, w);
    lemma_rank_order(t, |e: Event| is_end(e), Event::End(w), Event::End(u));
}

/// The order that `topological_sort` returns for a graph without cycles is topological:
/// every vertex stands in it once, and every edge of the graph leads from a vertex to one
/// that stands later.
pub proof fn theorem_topological_order(g: Adjacency, u: Vertex, w: Vertex)
    requires
        !cyclic(g),
        neighbours(g, u).contains(w),
    ensures
        finished(dfs_trace(g)).reverse().no_duplicates(),
        finished(dfs_trace(g)).reverse().contains(u),
        finished(dfs_trace(g)).reverse().contains(w),
        finished(dfs_trace(g)).reverse().index_of(u) < finished(dfs_trace(g)).reverse().index_of(
            w,
        ),
{
    let t = dfs_trace(g);
    lemma_dfs_trace(g);
    lemma_descending_lists(g.dom());
    lemma_explore_leaves_targets_first(g, None, descending(g.dom()), Set::empty());
    assert(descending(g.dom()).contains(u));
    assert(t.contains(Event::Start(u)));
    lemma_ends_follow_at(t, u);
    lemma_order_places(t, u);
    lemma_order_places(t, w);
    lemma_rank_order(t, |e: Event| is_end(e), Event::End(w), Event::End(u));
}

/// The order that `topological_sort` returns lists the vertices of the graph, each once.
pub proof fn theorem_order_lists_vertices(g: Adjacency)
    ensures
        finished(dfs_trace(g)).reverse().no_duplicates(),
        finished(dfs_trace(g)).reverse().to_set() == vertices(g),
        finished(dfs_trace(g)).reverse().len() == vertices(g).len(),
{
    let t = dfs_trace(g);
    let end = |e: Event| is_end(e);
    let f = finished(t);
    let r = f.reverse();
    lemma_dfs_trace(g);
    theorem_visits_every_vertex(g);
    lemma_filter_places(t, end);
    assert forall|v: Vertex| r.to_set().contains(v) <==> vertices(g).contains(v) by {
        if r.contains(v) {
            let i = r.index_of(v);
            assert(r[i] == f[f.len() - 1 - i]);
            let d = t.filter(end)[f.len() - 1 - i];
            assert(end(d));
            assert(d == Event::End(v));
            lemma_grounded_at(t, d);
            assert(started(t).contains(v));
        }
        if vertices(g).contains(v) {
            assert(started(t).contains(v));
            lemma_ends_follow_at(t, v);
            lemma_order_places(t, v);
        }
    }
    assert(r.to_set() =~= vertices(g));
    lemma_order_once(t);
    r.unique_seq_to_set();
}

} // verus!
