//! The forest: the trees that the walk makes, one from each root.
use crate::engine::dfs;
use crate::graph::Adjacency;
use crate::graph::Graph;
use crate::graph::Vertex;
use crate::graph::adjacency;
use crate::graph::vertices;
use crate::nesting::lemma_grounded_at;
use crate::nesting::lemma_heralded_at;
use crate::nesting::lemma_led_at;
use crate::nesting::lemma_side_by_side_at;
use crate::order::descending;
use crate::reach::lemma_visit_enters_what_it_reaches;
use crate::reach::reaches;
use crate::reach::theorem_visits_every_vertex;
use crate::sequences::lemma_filter_empty;
use crate::sequences::lemma_filter_monotone;
use crate::sequences::lemma_filter_none;
use crate::sequences::lemma_filter_places;
use crate::sequences::lemma_index_of_contained;
use crate::sequences::lemma_rank_bounds;
use crate::sequences::lemma_rank_concat;
use crate::sequences::lemma_rank_push;
use crate::sequences::rank;
use crate::structure::lemma_dfs_trace;
use crate::structure::lemma_explore_parts;
use crate::structure::lemma_visit_faithful;
use crate::trace::Event;
use crate::trace::dfs_trace;
use crate::trace::explore;
use crate::trace::lemma_unseen_grows;
use crate::trace::started;
use crate::trace::subject;
use crate::trace::unseen;
use crate::trace::visit;
use crate::visitor::DfsAction;
use crate::visitor::accepts_all;
use crate::visitor::lemma_accepts_all_concat;
use crate::visitor::lemma_replay_concat;
use crate::visitor::lemma_replay_one;
use crate::visitor::replay;
use std::collections::HashSet;
use vstd::prelude::*;

verus! {

/// Whether an event begins a tree.
pub open spec fn is_root(e: Event) -> bool {
    e is InitialVisit
}

/// How many trees a trace begins.
pub open spec fn trees(t: Seq<Event>) -> nat {
    t.filter(|e: Event| is_root(e)).len()
}

/// The roots of the trees of a trace, in the order in which the trace begins them.
pub open spec fn roots(t: Seq<Event>) -> Seq<Vertex> {
    t.filter(|e: Event| is_root(e)).map_values(|e: Event| subject(e))
}

/// The tree in which the trace enters `v`, counted from 1: the number of trees that the
/// trace has begun when it enters `v`.
pub open spec fn tree_of(t: Seq<Event>, v: Vertex) -> nat {
    rank(t, |e: Event| is_root(e), Event::Start(v))
}

/// The vertices that the trace enters in its tree number `k`, counted from 0.
pub open spec fn tree_members(t: Seq<Event>, k: int) -> Set<Vertex> {
    Set::new(|v: Vertex| t.contains(Event::Start(v)) && tree_of(t, v) == k + 1)
}

/// The trees of a trace, in the order in which the trace begins them.
pub open spec fn forest_of(t: Seq<Event>) -> Seq<Set<Vertex>> {
    Seq::new(trees(t), |k: int| tree_members(t, k))
}

/// The visitor that gathers the vertices of each tree of the walk.
#[derive(Debug)]
pub struct Forest(Vec<HashSet<Vertex>>);

impl Default for Forest {
    fn default() -> (forest: Self)
        ensures
            forest.state() == Seq::<Set<Vertex>>::empty(),
    {
        let forest = Forest(Vec::new());
        assert(forest.state() =~= Seq::<Set<Vertex>>::empty());
        forest
    }
}

impl DfsAction for Forest {
    type State = Seq<Set<Vertex>>;

    closed spec fn state(&self) -> Seq<Set<Vertex>> {
        Seq::new(self.0@.len(), |k: int| self.0@[k]@)
    }

    open spec fn accepts(state: Seq<Set<Vertex>>, graph: Adjacency, event: Event) -> bool {
        event is Start ==> state.len() > 0
    }

    open spec fn step(state: Seq<Set<Vertex>>, graph: Adjacency, event: Event) -> Seq<
        Set<Vertex>,
    > {
        match event {
            Event::InitialVisit(_) => state.push(Set::empty()),
            Event::Start(v) => state.update(state.len() - 1, state.last().insert(v)),
            _ => state,
        }
    }

    fn initial_visit(&mut self, graph: &Graph, vertex: Vertex) {
        let ghost before = self.state();
        self.0.push(HashSet::new());
        assert(self.state() =~= before.push(Set::empty()));
    }

    fn start(&mut self, graph: &Graph, vertex: Vertex) {
        let ghost before = self.state();
        self.0.last_mut().expect("The Forest should not be empty!").insert(vertex);
        assert(self.state() =~= before.update(before.len() - 1, before.last().insert(vertex)));
    }

    fn pre_visit(&mut self, graph: &Graph, current: Vertex, next: Vertex) {
    }

    fn end(&mut self, graph: &Graph, vertex: Vertex) {
    }
}

/// What one more event does to the trees.
proof fn lemma_forest_push(p: Seq<Event>, e: Event)
    requires
        p.push(e).no_duplicates(),
        e is Start ==> trees(p) > 0,
    ensures
        forest_of(p.push(e)) == match e {
            Event::InitialVisit(_) => forest_of(p).push(Set::empty()),
            Event::Start(v) => forest_of(p).update(
                forest_of(p).len() - 1,
                forest_of(p).last().insert(v),
            ),
            _ => forest_of(p),
        },
{
    let t = p.push(e);
    let root = |e: Event| is_root(e);
    lemma_rank_push(p, root, e, e);
    assert forall|v: Vertex|
        #![trigger t.contains(Event::Start(v))]
        #![trigger p.contains(Event::Start(v))]
        (t.contains(Event::Start(v)) <==> p.contains(Event::Start(v)) || e == Event::Start(v))
            && (p.contains(Event::Start(v)) ==> tree_of(t, v) == tree_of(p, v) && tree_of(p, v)
            <= trees(p)) && (e == Event::Start(v) ==> tree_of(t, v) == trees(p)) by {
        lemma_rank_push(p, root, e, Event::Start(v));
        if p.contains(Event::Start(v)) {
            lemma_rank_bounds(p, root, Event::Start(v));
        }
    }
    match e {
        Event::InitialVisit(_) => {
            let want = forest_of(p).push(Set::empty());
            assert(forest_of(t).len() == want.len());
            assert forall|k: int| 0 <= k < want.len() implies forest_of(t)[k] == want[k] by {
                if k < trees(p) {
                    assert(tree_members(t, k) =~= tree_members(p, k));
                } else {
                    assert(tree_members(t, k) =~= Set::<Vertex>::empty());
                }
            }
            assert(forest_of(t) =~= want);
        },
        Event::Start(v) => {
            let want = forest_of(p).update(forest_of(p).len() - 1, forest_of(p).last().insert(v));
            assert(forest_of(t).len() == want.len());
            assert forall|k: int| 0 <= k < want.len() implies forest_of(t)[k] == want[k] by {
                if k < trees(p) - 1 {
                    assert(tree_members(t, k) =~= tree_members(p, k));
                } else {
                    assert(tree_members(t, k) =~= tree_members(p, k).insert(v));
                }
            }
            assert(forest_of(t) =~= want);
        },
        _ => {
            assert forall|k: int| 0 <= k < trees(p) implies forest_of(t)[k] == forest_of(p)[k] by {
                assert(tree_members(t, k) =~= tree_members(p, k));
            }
            assert(forest_of(t) =~= forest_of(p));
        },
    }
}

/// Along a trace in which nothing occurs twice and which begins with a root, the visitor
/// gathers the trees.
pub proof fn lemma_gathers(g: Adjacency, t: Seq<Event>)
    requires
        t.no_duplicates(),
        t.len() > 0 ==> is_root(t[0]),
    ensures
        accepts_all::<Forest>(Seq::empty(), g, t),
        replay::<Forest>(Seq::empty(), g, t) == forest_of(t),
    decreases t.len(),
{
    let first = Seq::<Set<Vertex>>::empty();
    let root = |e: Event| is_root(e);
    if t.len() == 0 {
        lemma_filter_empty(root);
        assert(t =~= Seq::<Event>::empty());
        assert(forest_of(t) =~= first);
    } else {
        let p = t.drop_last();
        let e = t.last();
        assert(t =~= p.push(e));
        assert(t =~= p + seq![e]);
        lemma_rank_push(p, root, e, e);
        if p.len() > 0 {
            assert(p[0] == t[0]);
            lemma_filter_monotone(p, root, 0, p.len() as int);
            assert(p.take(p.len() as int) =~= p);
        }
        lemma_gathers(g, p);
        lemma_forest_push(p, e);
        lemma_accepts_all_concat::<Forest>(first, g, p, seq![e]);
        lemma_replay_concat::<Forest>(first, g, p, seq![e]);
        lemma_replay_one::<Forest>(replay::<Forest>(first, g, p), g, e);
    }
}

/// A walk through candidates that are announced as roots begins with a root, if it enters
/// anything.
pub proof fn lemma_begins_with_root(g: Adjacency, rest: Seq<Vertex>, seen: Set<Vertex>)
    ensures
        explore(g, None, rest, seen).len() > 0 ==> is_root(explore(g, None, rest, seen)[0]),
    decreases rest.len(),
{
    if rest.len() > 0 && seen.contains(rest[0]) {
        lemma_begins_with_root(g, rest.drop_first(), seen);
    }
}

/// The trees that the walk makes, in the order in which it begins them: each is the set of
/// the vertices that the walk enters from the root of the tree on, until it begins the next
/// tree.
pub fn forest(graph: &Graph) -> (found: Vec<HashSet<Vertex>>)
    ensures
        found@.len() == forest_of(dfs_trace(adjacency(graph))).len(),
        forall|k: int|
            0 <= k < found@.len() ==> #[trigger] found@[k]@ == forest_of(
                dfs_trace(adjacency(graph)),
            )[k],
{
    let mut forest = Forest::default();
    proof {
        let g = adjacency(graph);
        lemma_dfs_trace(g);
        lemma_begins_with_root(g, descending(g.dom()), Set::empty());
        lemma_gathers(g, dfs_trace(g));
    }
    dfs(graph, &mut forest);
    forest.0
}

/// In a trace that begins with a root, every vertex is entered in a tree.
proof fn lemma_tree_of_positive(t: Seq<Event>, v: Vertex)
    requires
        t.len() > 0 ==> is_root(t[0]),
        t.contains(Event::Start(v)),
    ensures
        1 <= tree_of(t, v) <= trees(t),
{
    let root = |e: Event| is_root(e);
    lemma_index_of_contained(t, Event::Start(v));
    lemma_rank_bounds(t, root, Event::Start(v));
    lemma_filter_monotone(t, root, 0, t.index_of(Event::Start(v)) + 1);
    assert(t.take(0) =~= Seq::<Event>::empty());
    lemma_filter_empty(root);
}

/// The trees of a traversal part the vertices of the graph.
///
/// The walk enters the vertices of the graph and nothing else. There are as many trees as
/// the walk has roots. Every vertex that the walk enters is in one tree and in no other; a
/// tree holds nothing but vertices that the walk enters; and every tree holds its root, so
/// none is empty.
pub proof fn theorem_forest_partitions(g: Adjacency)
    ensures
        started(dfs_trace(g)) == vertices(g),
        forest_of(dfs_trace(g)).len() == trees(dfs_trace(g)),
        forest_of(dfs_trace(g)).len() == roots(dfs_trace(g)).len(),
        forall|v: Vertex| #[trigger]
            dfs_trace(g).contains(Event::Start(v)) ==> 1 <= tree_of(dfs_trace(g), v) <= forest_of(
                dfs_trace(g),
            ).len() && forest_of(dfs_trace(g))[tree_of(dfs_trace(g), v) - 1].contains(v),
        forall|k: int, v: Vertex|
            0 <= k < forest_of(dfs_trace(g)).len() && #[trigger] forest_of(
                dfs_trace(g),
            )[k].contains(v) ==> dfs_trace(g).contains(Event::Start(v)) && tree_of(
                dfs_trace(g),
                v,
            ) == k + 1,
        forall|k: int|
            0 <= k < forest_of(dfs_trace(g)).len() ==> dfs_trace(g).contains(
                Event::InitialVisit(#[trigger] roots(dfs_trace(g))[k]),
            ) && forest_of(dfs_trace(g))[k].contains(roots(dfs_trace(g))[k]),
{
    let t = dfs_trace(g);
    let root = |e: Event| is_root(e);
    lemma_dfs_trace(g);
    lemma_begins_with_root(g, descending(g.dom()), Set::empty());
    theorem_visits_every_vertex(g);
    assert forall|v: Vertex| #[trigger] t.contains(Event::Start(v)) implies 1 <= tree_of(t, v)
        <= forest_of(t).len() && forest_of(t)[tree_of(t, v) - 1].contains(v) by {
        lemma_tree_of_positive(t, v);
    }
    lemma_filter_places(t, root);
    assert forall|k: int| 0 <= k < forest_of(t).len() implies t.contains(
        Event::InitialVisit(#[trigger] roots(t)[k]),
    ) && forest_of(t)[k].contains(roots(t)[k]) by {
        let e = t.filter(root)[k];
        let r = roots(t)[k];
        assert(root(e));
        assert(e == Event::InitialVisit(r));
        lemma_grounded_at(t, e);
        lemma_heralded_at(t, e);
        lemma_rank_bounds(t, root, Event::Start(r));
        lemma_index_of_contained(t, e);
    }
}

/// The vertices of the trees of a trace before its tree number `k`, counted from 0.
pub open spec fn earlier_trees(t: Seq<Event>, k: int) -> Set<Vertex> {
    Set::new(|v: Vertex| t.contains(Event::Start(v)) && tree_of(t, v) <= k)
}

/// The walk that enters a vertex begins no tree.
proof fn lemma_visit_begins_no_tree(g: Adjacency, v: Vertex, seen: Set<Vertex>)
    requires
        !seen.contains(v),
    ensures
        visit(g, v, seen).filter(|e: Event| is_root(e)) == Seq::<Event>::empty(),
{
    let root = |e: Event| is_root(e);
    let sub = visit(g, v, seen);
    lemma_visit_faithful(g, v, seen);
    assert forall|d: Event| sub.contains(d) implies !root(d) by {
        if root(d) {
            assert(d == Event::InitialVisit(subject(d)));
            assert(Seq::<Vertex>::empty().contains(subject(d)));
        }
    }
    lemma_filter_none(sub, root);
}

/// The roots of a root followed by two traces, of which the first begins no tree.
proof fn lemma_roots_of_parts(r: Vertex, sub: Seq<Event>, after: Seq<Event>)
    requires
        sub.filter(|e: Event| is_root(e)) == Seq::<Event>::empty(),
    ensures
        (seq![Event::InitialVisit(r)] + sub).filter(|e: Event| is_root(e)) == seq![
            Event::InitialVisit(r),
        ],
        trees(seq![Event::InitialVisit(r)] + sub + after) == 1 + trees(after),
        roots(seq![Event::InitialVisit(r)] + sub + after) == seq![r] + roots(after),
{
    let root = |e: Event| is_root(e);
    let name = |e: Event| subject(e);
    let e = Event::InitialVisit(r);
    let head = seq![e] + sub;
    lemma_filter_empty(root);
    Seq::<Event>::empty().lemma_filter_push(e, root);
    assert(Seq::<Event>::empty().push(e) =~= seq![e]);
    assert(seq![e].filter(root) =~= seq![e]);
    Seq::filter_distributes_over_add(seq![e], sub, root);
    Seq::filter_distributes_over_add(head, after, root);
    assert(head.filter(root) =~= seq![e]);
    let kept = after.filter(root);
    assert((head + after).filter(root) =~= seq![e] + kept);
    assert((seq![e] + kept).map_values(name) =~= seq![r] + kept.map_values(name));
}

/// Where an event stands among the roots of a walk through roots, if the first root has not
/// been entered: by the part of the walk in which it occurs.
proof fn lemma_places_of_parts(g: Adjacency, rest: Seq<Vertex>, seen: Set<Vertex>, d: Event)
    requires
        rest.len() > 0,
        !seen.contains(rest[0]),
    ensures
        ({
            let root = |e: Event| is_root(e);
            let t = explore(g, None, rest, seen);
            let sub = visit(g, rest[0], seen);
            let after = explore(g, None, rest.drop_first(), seen.union(started(sub)));
            &&& t.contains(d) <==> d == Event::InitialVisit(rest[0]) || sub.contains(d)
                || after.contains(d)
            &&& sub.contains(d) ==> rank(t, root, d) == 1
            &&& after.contains(d) ==> rank(t, root, d) == 1 + rank(after, root, d)
        }),
{
    let root = |e: Event| is_root(e);
    let e = Event::InitialVisit(rest[0]);
    let sub = visit(g, rest[0], seen);
    let later = seen.union(started(sub));
    let after = explore(g, None, rest.drop_first(), later);
    let head = seq![e] + sub;
    lemma_explore_parts(g, None, rest, seen);
    lemma_side_by_side_at(head, after, d);
    lemma_led_at(e, sub, d);
    lemma_visit_begins_no_tree(g, rest[0], seen);
    lemma_roots_of_parts(rest[0], sub, after);
    lemma_rank_concat(seq![e], sub, root, d);
    lemma_rank_concat(head, after, root, d);
    if sub.contains(d) {
        lemma_rank_bounds(sub, root, d);
    }
}

/// How the trees of a walk through roots are made up, if the first root has not been
/// entered: the first tree is what the walk from the first root enters, and the others are
/// the trees of the walk through the other roots.
proof fn lemma_trees_of_parts(g: Adjacency, rest: Seq<Vertex>, seen: Set<Vertex>, w: Vertex)
    requires
        rest.len() > 0,
        !seen.contains(rest[0]),
    ensures
        ({
            let t = explore(g, None, rest, seen);
            let sub = visit(g, rest[0], seen);
            let after = explore(g, None, rest.drop_first(), seen.union(started(sub)));
            &&& trees(t) == 1 + trees(after)
            &&& roots(t) == seq![rest[0]] + roots(after)
            &&& t.contains(Event::Start(w)) <==> sub.contains(Event::Start(w)) || after.contains(
                Event::Start(w),
            )
            &&& sub.contains(Event::Start(w)) ==> tree_of(t, w) == 1
            &&& after.contains(Event::Start(w)) ==> tree_of(t, w) == 1 + tree_of(after, w) && 1
                <= tree_of(after, w)
        }),
{
    let sub = visit(g, rest[0], seen);
    let later = seen.union(started(sub));
    let after = explore(g, None, rest.drop_first(), later);
    lemma_visit_begins_no_tree(g, rest[0], seen);
    lemma_roots_of_parts(rest[0], sub, after);
    lemma_places_of_parts(g, rest, seen, Event::Start(w));
    if after.contains(Event::Start(w)) {
        lemma_begins_with_root(g, rest.drop_first(), later);
        lemma_tree_of_positive(after, w);
    }
}

/// Each tree of a walk through roots holds what its root reaches through vertices that
/// were not entered before the walk and are in no tree before it.
proof fn lemma_explore_trees(g: Adjacency, rest: Seq<Vertex>, seen: Set<Vertex>)
    ensures
        forall|k: int, w: Vertex|
            0 <= k < trees(explore(g, None, rest, seen)) ==> (#[trigger] tree_members(
                explore(g, None, rest, seen),
                k,
            ).contains(w) <==> reaches(
                g,
                roots(explore(g, None, rest, seen))[k],
                w,
                seen.union(earlier_trees(explore(g, None, rest, seen), k)),
            )),
    decreases unseen(seen).len(), rest.len(),
{
    let t = explore(g, None, rest, seen);
    if rest.len() == 0 {
        lemma_filter_empty(|e: Event| is_root(e));
    } else if seen.contains(rest[0]) {
        lemma_explore_trees(g, rest.drop_first(), seen);
        assert(t == explore(g, None, rest.drop_first(), seen));
    } else {
        let sub = visit(g, rest[0], seen);
        let later = seen.union(started(sub));
        let after = explore(g, None, rest.drop_first(), later);
        lemma_unseen_grows(seen, later);
        lemma_explore_trees(g, rest.drop_first(), later);
        lemma_visit_enters_what_it_reaches(g, rest[0], seen);
        lemma_trees_of_parts(g, rest, seen, rest[0]);
        assert forall|k: int, w: Vertex| 0 <= k < trees(t) implies (#[trigger] tree_members(
            t,
            k,
        ).contains(w) <==> reaches(g, roots(t)[k], w, seen.union(earlier_trees(t, k)))) by {
            lemma_trees_of_parts(g, rest, seen, w);
            if k == 0 {
                assert(seen.union(earlier_trees(t, 0)) =~= seen) by {
                    assert forall|x: Vertex| !earlier_trees(t, 0).contains(x) by {
                        lemma_trees_of_parts(g, rest, seen, x);
                    }
                }
            } else {
                assert(seen.union(earlier_trees(t, k)) =~= later.union(
                    earlier_trees(after, k - 1),
                )) by {
                    assert forall|x: Vertex|
                        seen.union(earlier_trees(t, k)).contains(x) <==> later.union(
                            earlier_trees(after, k - 1),
                        ).contains(x) by {
                        lemma_trees_of_parts(g, rest, seen, x);
                    }
                }
                assert(roots(t)[k] == roots(after)[k - 1]);
                assert(tree_members(t, k).contains(w) <==> tree_members(after, k - 1).contains(
                    w,
                ));
            }
        }
    }
}

/// Each tree of a traversal holds exactly what its root reaches without meeting a vertex of
/// an earlier tree: a walk in the graph from the root that keeps out of the earlier trees
/// stays within the tree, and every vertex of the tree is reached by such a walk.
pub proof fn theorem_trees_are_what_roots_reach(g: Adjacency, k: int, w: Vertex)
    requires
        0 <= k < forest_of(dfs_trace(g)).len(),
    ensures
        forest_of(dfs_trace(g))[k].contains(w) <==> reaches(
            g,
            roots(dfs_trace(g))[k],
            w,
            earlier_trees(dfs_trace(g), k),
        ),
{
    let t = dfs_trace(g);
    lemma_explore_trees(g, descending(g.dom()), Set::empty());
    assert(Set::<Vertex>::empty().union(earlier_trees(t, k)) =~= earlier_trees(t, k));
    assert(tree_members(t, k).contains(w) <==> reaches(
        g,
        roots(t)[k],
        w,
        Set::<Vertex>::empty().union(earlier_trees(t, k)),
    ));
}

} // verus!
