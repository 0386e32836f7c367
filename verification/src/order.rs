//! The order in which a traversal takes the keys of a graph and the neighbours of a vertex:
//! from the largest down to the smallest.
use crate::graph::Graph;
use crate::graph::Vertex;
use crate::graph::adjacency;
use crate::graph::neighbours;
use std::collections::BTreeSet;
use std::collections::HashSet;
use vstd::prelude::*;
use vstd::std_specs::btree::increasing_seq;
use vstd::std_specs::cmp::OrdSpec;

verus! {

/// `l` lists the members of `s`, each once, from the largest down to the smallest.
pub open spec fn lists_descending(l: Seq<Vertex>, s: Set<Vertex>) -> bool {
    &&& forall|i: int, j: int| 0 <= i < j < l.len() ==> l[i] > l[j]
    &&& forall|v: Vertex| s.contains(v) <==> l.contains(v)
}

/// The members of `s` from the largest down to the smallest: the order in which a traversal
/// takes the keys of a graph, and the neighbours of a vertex.
pub open spec fn descending(s: Set<Vertex>) -> Seq<Vertex> {
    choose|l: Seq<Vertex>| lists_descending(l, s)
}

/// The members of `s` below `bound`, from the largest down.
spec fn descending_below(s: Set<Vertex>, bound: nat) -> Seq<Vertex>
    decreases bound,
{
    if bound == 0 {
        Seq::empty()
    } else {
        let top = (bound - 1) as Vertex;
        let rest = descending_below(s, (bound - 1) as nat);
        if s.contains(top) {
            seq![top] + rest
        } else {
            rest
        }
    }
}

/// The members of `s` below `bound` are listed from the largest down, each once.
proof fn lemma_descending_below(s: Set<Vertex>, bound: nat)
    requires
        bound <= Vertex::MAX + 1,
    ensures
        forall|i: int, j: int|
            0 <= i < j < descending_below(s, bound).len() ==> descending_below(s, bound)[i]
                > descending_below(s, bound)[j],
        forall|v: Vertex| #[trigger]
            descending_below(s, bound).contains(v) <==> s.contains(v) && v < bound,
    decreases bound,
{
    let l = descending_below(s, bound);
    if bound == 0 {
    } else {
        let top = (bound - 1) as Vertex;
        let rest = descending_below(s, (bound - 1) as nat);
        lemma_descending_below(s, (bound - 1) as nat);
        if !s.contains(top) {
            assert forall|v: Vertex| #[trigger] l.contains(v) <==> s.contains(v) && v < bound by {
                assert(rest.contains(v) <==> s.contains(v) && v < bound - 1);
            }
        } else {
            assert(l[0] == top);
            assert forall|v: Vertex| #[trigger] l.contains(v) <==> s.contains(v) && v < bound by {
                if l.contains(v) {
                    let k = choose|k: int| 0 <= k < l.len() && l[k] == v;
                    if k > 0 {
                        assert(rest[k - 1] == v);
                        assert(rest.contains(v));
                    }
                }
                if s.contains(v) && v < bound && v != top {
                    assert(rest.contains(v));
                    let k = choose|k: int| 0 <= k < rest.len() && rest[k] == v;
                    assert(l[k + 1] == v);
                }
            }
            assert forall|i: int, j: int| 0 <= i < j < l.len() implies l[i] > l[j] by {
                assert(rest[j - 1] == l[j]);
                assert(rest.contains(l[j]));
                if i > 0 {
                    assert(rest[i - 1] == l[i]);
                    assert(rest[i - 1] > rest[j - 1]);
                } else {
                    assert(l[j] < (bound - 1) as nat);
                }
            }
        }
    }
}

/// Every set of vertices has its descending listing.
pub proof fn lemma_descending_lists(s: Set<Vertex>)
    ensures
        lists_descending(descending(s), s),
{
    lemma_descending_below(s, (Vertex::MAX + 1) as nat);
    assert(lists_descending(descending_below(s, (Vertex::MAX + 1) as nat), s));
}

/// A set of vertices has one descending listing only.
pub proof fn lemma_descending_unique(l: Seq<Vertex>, s: Set<Vertex>)
    requires
        lists_descending(l, s),
    ensures
        l == descending(s),
{
    lemma_same_listing(l, descending(s), s);
}

/// Two descending listings of one set are the same sequence.
proof fn lemma_same_listing(a: Seq<Vertex>, b: Seq<Vertex>, s: Set<Vertex>)
    requires
        lists_descending(a, s),
        lists_descending(b, s),
    ensures
        a == b,
    decreases a.len(),
{
    if a.len() == 0 {
        if b.len() > 0 {
            assert(b.contains(b[0]));
        }
        assert(a =~= b);
    } else {
        assert(a.contains(a[0]));
        let k = choose|k: int| 0 <= k < b.len() && b[k] == a[0];
        assert(b.contains(b[0]));
        let m = choose|m: int| 0 <= m < a.len() && a[m] == b[0];
        assert(a[0] == b[0]);
        let rest = s.remove(a[0]);
        let a1 = a.drop_first();
        let b1 = b.drop_first();
        assert forall|v: Vertex| rest.contains(v) <==> a1.contains(v) by {
            if rest.contains(v) {
                let i = choose|i: int| 0 <= i < a.len() && a[i] == v;
                assert(a1[i - 1] == v);
            }
            if a1.contains(v) {
                let i = choose|i: int| 0 <= i < a1.len() && a1[i] == v;
                assert(a[i + 1] == v);
                assert(a.contains(v));
            }
        }
        assert forall|v: Vertex| rest.contains(v) <==> b1.contains(v) by {
            if rest.contains(v) {
                let i = choose|i: int| 0 <= i < b.len() && b[i] == v;
                assert(b1[i - 1] == v);
            }
            if b1.contains(v) {
                let i = choose|i: int| 0 <= i < b1.len() && b1[i] == v;
                assert(b[i + 1] == v);
                assert(b.contains(v));
            }
        }
        assert forall|i: int, j: int| 0 <= i < j < a1.len() implies a1[i] > a1[j] by {
            assert(a1[i] == a[i + 1] && a1[j] == a[j + 1]);
        }
        assert forall|i: int, j: int| 0 <= i < j < b1.len() implies b1[i] > b1[j] by {
            assert(b1[i] == b[i + 1] && b1[j] == b[j + 1]);
        }
        lemma_same_listing(a1, b1, rest);
        assert(a =~= seq![a[0]] + a1);
        assert(b =~= seq![b[0]] + b1);
    }
}

/// What an ordered set hands out one by one grows strictly.
proof fn lemma_increasing_means_less(s: Seq<&Vertex>)
    requires
        increasing_seq(s),
    ensures
        forall|i: int, j: int| 0 <= i < j < s.len() ==> *s[i] < *s[j],
{
    assert forall|i: int, j: int| 0 <= i < j < s.len() implies *s[i] < *s[j] by {
        assert((&s[i]).cmp_spec(&s[j]) is Less);
    }
}

/// The members of an ordered set, from the largest down to the smallest.
fn largest_first(sorted: &BTreeSet<Vertex>) -> (out: Vec<Vertex>)
    ensures
        out@ == descending(sorted@),
{
    let mut ascending: Vec<Vertex> = Vec::new();
    for v in it: sorted.iter()
        invariant
            it.seq().unref().to_set() == sorted@,
            increasing_seq(it.seq()),
            ascending@.len() == it.index(),
            forall|k: int| 0 <= k < it.index() ==> ascending@[k] == *it.seq()[k],
            forall|i: int, j: int| 0 <= i < j < ascending@.len() ==> ascending@[i] < ascending@[j],
            it.index() == it.seq().len() ==> ascending@.to_set() == sorted@,
    {
        ascending.push(*v);
        assert(forall|i: int, j: int|
            0 <= i < j < ascending@.len() ==> ascending@[i] < ascending@[j]) by {
            lemma_increasing_means_less(it.seq());
        }
        assert(it.index() + 1 == it.seq().len() ==> ascending@.to_set() == sorted@) by {
            if it.index() + 1 == it.seq().len() {
                assert(it.seq().unref() =~= ascending@);
            }
        }
    }
    let mut out: Vec<Vertex> = Vec::new();
    let mut i: usize = ascending.len();
    while i > 0
        invariant
            i <= ascending.len(),
            out@.len() == ascending.len() - i,
            forall|k: int| 0 <= k < out@.len() ==> out@[k] == ascending@[ascending.len() - 1 - k],
        decreases i,
    {
        i = i - 1;
        out.push(ascending[i]);
    }
    proof {
        assert forall|v: Vertex| sorted@.contains(v) <==> out@.contains(v) by {
            if sorted@.contains(v) {
                let k = choose|k: int| 0 <= k < ascending@.len() && ascending@[k] == v;
                assert(out@[ascending.len() - 1 - k] == v);
            }
            if out@.contains(v) {
                let k = choose|k: int| 0 <= k < out@.len() && out@[k] == v;
                assert(ascending@[ascending.len() - 1 - k] == v);
                assert(ascending@.to_set().contains(v));
            }
        }
        lemma_descending_unique(out@, sorted@);
    }
    out
}

/// The vertices of a set, from the largest down to the smallest.
pub(crate) fn descending_members(set: &HashSet<Vertex>) -> (out: Vec<Vertex>)
    ensures
        out@ == descending(set@),
{
    let mut sorted: BTreeSet<Vertex> = BTreeSet::new();
    let ghost mut done: Seq<Vertex> = Seq::empty();
    for v in it: set.iter()
        invariant
            it.seq().unref().to_set() == set@,
            done.len() == it.index(),
            forall|k: int| 0 <= k < done.len() ==> done[k] == *it.seq()[k],
            sorted@ == done.to_set(),
            it.index() == it.seq().len() ==> done.to_set() == set@,
    {
        sorted.insert(*v);
        proof {
            done.lemma_push_to_set_commute(*v);
            done = done.push(*v);
        }
        assert(it.index() + 1 == it.seq().len() ==> done.to_set() == set@) by {
            if it.index() + 1 == it.seq().len() {
                assert(it.seq().unref() =~= done);
            }
        }
    }
    largest_first(&sorted)
}

/// The keys of a graph, from the largest down to the smallest.
pub(crate) fn descending_keys(graph: &Graph) -> (out: Vec<Vertex>)
    ensures
        out@ == descending(graph@.dom()),
{
    let mut sorted: BTreeSet<Vertex> = BTreeSet::new();
    let ghost mut done: Seq<Vertex> = Seq::empty();
    for v in it: graph.keys()
        invariant
            it.seq().unref().to_set() == graph@.dom(),
            done.len() == it.index(),
            forall|k: int| 0 <= k < done.len() ==> done[k] == *it.seq()[k],
            sorted@ == done.to_set(),
            it.index() == it.seq().len() ==> done.to_set() == graph@.dom(),
    {
        sorted.insert(*v);
        proof {
            done.lemma_push_to_set_commute(*v);
            done = done.push(*v);
        }
        assert(it.index() + 1 == it.seq().len() ==> done.to_set() == graph@.dom()) by {
            if it.index() + 1 == it.seq().len() {
                assert(it.seq().unref() =~= done);
            }
        }
    }
    largest_first(&sorted)
}

/// The neighbours of a vertex, from the largest down to the smallest; none for a vertex that
/// is no key of the graph.
pub(crate) fn descending_neighbours(graph: &Graph, vertex: Vertex) -> (out: Vec<Vertex>)
    ensures
        out@ == descending(neighbours(adjacency(graph), vertex)),
{
    match graph.get(&vertex) {
        Some(set) => descending_members(set),
        None => {
            let out: Vec<Vertex> = Vec::new();
            proof {
                lemma_descending_unique(out@, Set::empty());
            }
            out
        },
    }
}

} // verus!
