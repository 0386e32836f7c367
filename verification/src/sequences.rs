//! Facts on sequences in which nothing occurs twice: where an element stands, and how many
//! of a kind stand before it.
use vstd::prelude::*;

verus! {

/// In a sequence without duplicates, an element is found where it stands.
pub proof fn lemma_index_of_unique<T>(t: Seq<T>, i: int)
    requires
        t.no_duplicates(),
        0 <= i < t.len(),
    ensures
        t.index_of(t[i]) == i,
        t.contains(t[i]),
{
    assert(t.contains(t[i]));
}

/// Where an element of a sequence is found: at a valid index that holds it.
pub proof fn lemma_index_of_contained<T>(t: Seq<T>, e: T)
    requires
        t.contains(e),
    ensures
        0 <= t.index_of(e) < t.len(),
        t[t.index_of(e)] == e,
{
}

/// Where an element of a concatenation is found, if nothing occurs twice in it.
pub proof fn lemma_index_of_concat<T>(a: Seq<T>, b: Seq<T>, e: T)
    requires
        (a + b).no_duplicates(),
    ensures
        (a + b).contains(e) <==> a.contains(e) || b.contains(e),
        !(a.contains(e) && b.contains(e)),
        a.contains(e) ==> (a + b).index_of(e) == a.index_of(e) && 0 <= a.index_of(e) < a.len(),
        b.contains(e) ==> (a + b).index_of(e) == a.len() + b.index_of(e) && 0 <= b.index_of(e)
            < b.len(),
{
    let t = a + b;
    if a.contains(e) {
        let i = a.index_of(e);
        assert(t[i] == e);
        lemma_index_of_unique(t, i);
    }
    if b.contains(e) {
        let j = b.index_of(e);
        assert(t[a.len() + j] == e);
        lemma_index_of_unique(t, a.len() + j);
    }
    if t.contains(e) {
        let k = t.index_of(e);
        if k < a.len() {
            assert(a[k] == e);
        } else {
            assert(b[k - a.len()] == e);
        }
    }
}

/// A concatenation is free of duplicates if its parts are and share nothing.
pub proof fn lemma_no_duplicates_concat<T>(a: Seq<T>, b: Seq<T>)
    requires
        a.no_duplicates(),
        b.no_duplicates(),
        forall|e: T| !(a.contains(e) && b.contains(e)),
    ensures
        (a + b).no_duplicates(),
{
    let t = a + b;
    assert forall|i: int, j: int| 0 <= i < t.len() && 0 <= j < t.len() && i != j implies t[i]
        != t[j] by {
        if i < a.len() {
            assert(a.contains(a[i]));
        } else {
            assert(b.contains(b[i - a.len()]));
        }
        if j < a.len() {
            assert(a.contains(a[j]));
        } else {
            assert(b.contains(b[j - a.len()]));
        }
    }
}

/// The parts of a duplicate-free concatenation are free of duplicates.
pub proof fn lemma_no_duplicates_parts<T>(a: Seq<T>, b: Seq<T>)
    requires
        (a + b).no_duplicates(),
    ensures
        a.no_duplicates(),
        b.no_duplicates(),
{
    let t = a + b;
    assert forall|i: int, j: int| 0 <= i < a.len() && 0 <= j < a.len() && i != j implies a[i]
        != a[j] by {
        assert(t[i] == a[i] && t[j] == a[j]);
    }
    assert forall|i: int, j: int| 0 <= i < b.len() && 0 <= j < b.len() && i != j implies b[i]
        != b[j] by {
        assert(t[a.len() + i] == b[i] && t[a.len() + j] == b[j]);
    }
}

/// What a one-element sequence contains.
pub proof fn lemma_singleton<T>(x: T, e: T)
    ensures
        seq![x].contains(e) <==> e == x,
        seq![x].no_duplicates(),
        seq![x].contains(e) ==> seq![x].index_of(e) == 0,
{
    assert(seq![x][0] == x);
}

/// How many of the elements of `t` up to and with `e` satisfy `pred`.
pub open spec fn rank<T>(t: Seq<T>, pred: spec_fn(T) -> bool, e: T) -> nat {
    t.take(t.index_of(e) + 1).filter(pred).len()
}

/// Nothing of an empty sequence satisfies anything.
pub proof fn lemma_filter_empty<T>(pred: spec_fn(T) -> bool)
    ensures
        Seq::<T>::empty().filter(pred) == Seq::<T>::empty(),
{
    reveal(Seq::filter);
}

/// A longer prefix holds no fewer elements that satisfy `pred`.
pub proof fn lemma_filter_monotone<T>(t: Seq<T>, pred: spec_fn(T) -> bool, i: int, j: int)
    requires
        0 <= i <= j <= t.len(),
    ensures
        t.take(i).filter(pred).len() <= t.take(j).filter(pred).len(),
        i < j && pred(t[j - 1]) ==> t.take(i).filter(pred).len() < t.take(j).filter(pred).len(),
        i < j && pred(t[i]) ==> t.take(i).filter(pred).len() < t.take(j).filter(pred).len(),
    decreases j - i,
{
    if i < j {
        lemma_filter_monotone(t, pred, i, j - 1);
        assert(t.take(j) =~= t.take(j - 1).push(t[j - 1]));
        t.take(j - 1).lemma_filter_push(t[j - 1], pred);
    }
}

/// What one more element does to the ranks, where nothing occurs twice.
pub proof fn lemma_rank_push<T>(p: Seq<T>, pred: spec_fn(T) -> bool, e: T, d: T)
    requires
        p.push(e).no_duplicates(),
    ensures
        p.push(e).contains(d) <==> p.contains(d) || d == e,
        !(p.contains(d) && d == e),
        p.contains(d) ==> p.push(e).index_of(d) == p.index_of(d) && rank(p.push(e), pred, d)
            == rank(p, pred, d) && p.push(e).take(p.index_of(d)) == p.take(p.index_of(d)),
        d == e ==> p.push(e).index_of(d) == p.len() && rank(p.push(e), pred, d) == p.push(
            e,
        ).filter(pred).len() && p.push(e).take(p.len() as int) == p,
        p.no_duplicates(),
        p.push(e).filter(pred) == if pred(e) {
            p.filter(pred).push(e)
        } else {
            p.filter(pred)
        },
{
    let t = p.push(e);
    assert(t =~= p + seq![e]);
    lemma_no_duplicates_parts(p, seq![e]);
    lemma_index_of_concat(p, seq![e], d);
    lemma_singleton(e, d);
    p.lemma_filter_push(e, pred);
    if p.contains(d) {
        assert(t.take(t.index_of(d) + 1) =~= p.take(p.index_of(d) + 1));
        assert(t.take(p.index_of(d)) =~= p.take(p.index_of(d)));
    }
    if d == e {
        assert(t.take(t.index_of(d) + 1) =~= t);
        assert(t.take(p.len() as int) =~= p);
    }
}

/// The rank of an element lies between 1, if the element satisfies `pred`, and the number of
/// all that do.
pub proof fn lemma_rank_bounds<T>(t: Seq<T>, pred: spec_fn(T) -> bool, e: T)
    requires
        t.contains(e),
    ensures
        rank(t, pred, e) <= t.filter(pred).len(),
        pred(e) ==> 1 <= rank(t, pred, e),
        pred(e) ==> rank(t, pred, e) == t.take(t.index_of(e)).filter(pred).len() + 1,
        !pred(e) ==> rank(t, pred, e) == t.take(t.index_of(e)).filter(pred).len(),
{
    let i = t.index_of(e);
    lemma_filter_monotone(t, pred, 0, i + 1);
    lemma_filter_monotone(t, pred, i + 1, t.len() as int);
    assert(t.take(t.len() as int) =~= t);
    assert(t.take(i + 1) =~= t.take(i).push(e));
    t.take(i).lemma_filter_push(e, pred);
}

/// An element that stands earlier has a smaller rank than one that satisfies `pred`.
pub proof fn lemma_rank_order<T>(t: Seq<T>, pred: spec_fn(T) -> bool, a: T, b: T)
    requires
        t.contains(a),
        t.contains(b),
        t.index_of(a) < t.index_of(b),
        pred(b),
    ensures
        rank(t, pred, a) < rank(t, pred, b),
{
    lemma_filter_monotone(t, pred, t.index_of(a) + 1, t.index_of(b) + 1);
}

/// Where nothing occurs twice, the elements that satisfy `pred` stand among themselves
/// where their ranks say.
pub proof fn lemma_filter_places<T>(t: Seq<T>, pred: spec_fn(T) -> bool)
    requires
        t.no_duplicates(),
    ensures
        forall|e: T| #[trigger]
            t.contains(e) && pred(e) ==> 1 <= rank(t, pred, e) <= t.filter(pred).len()
                && t.filter(pred)[rank(t, pred, e) - 1] == e,
        forall|j: int|
            0 <= j < t.filter(pred).len() ==> t.contains(#[trigger] t.filter(pred)[j]) && pred(
                t.filter(pred)[j],
            ) && rank(t, pred, t.filter(pred)[j]) == j + 1,
    decreases t.len(),
{
    if t.len() == 0 {
        lemma_filter_empty(pred);
        assert(t =~= Seq::<T>::empty());
    } else {
        let p = t.drop_last();
        let e = t.last();
        assert(t =~= p.push(e));
        lemma_rank_push(p, pred, e, e);
        lemma_filter_places(p, pred);
        let f = t.filter(pred);
        let fp = p.filter(pred);
        assert forall|d: T| #[trigger] t.contains(d) && pred(d) implies 1 <= rank(t, pred, d)
            <= f.len() && f[rank(t, pred, d) - 1] == d by {
            lemma_rank_push(p, pred, e, d);
            if p.contains(d) {
                assert(fp[rank(p, pred, d) - 1] == d);
            }
        }
        assert forall|j: int| 0 <= j < f.len() implies t.contains(#[trigger] f[j]) && pred(f[j])
            && rank(t, pred, f[j]) == j + 1 by {
            if j < fp.len() {
                assert(p.contains(fp[j]));
                assert(f[j] == fp[j]);
                lemma_rank_push(p, pred, e, fp[j]);
            } else {
                assert(f[j] == e);
            }
        }
    }
}

/// The ranks in a concatenation in which nothing occurs twice: those of the first part stay,
/// those of the second part are raised by what the first part holds.
pub proof fn lemma_rank_concat<T>(a: Seq<T>, b: Seq<T>, pred: spec_fn(T) -> bool, e: T)
    requires
        (a + b).no_duplicates(),
    ensures
        (a + b).filter(pred) == a.filter(pred) + b.filter(pred),
        a.contains(e) ==> rank(a + b, pred, e) == rank(a, pred, e),
        b.contains(e) ==> rank(a + b, pred, e) == a.filter(pred).len() + rank(b, pred, e),
{
    let t = a + b;
    Seq::filter_distributes_over_add(a, b, pred);
    lemma_index_of_concat(a, b, e);
    if a.contains(e) {
        assert(t.take(t.index_of(e) + 1) =~= a.take(a.index_of(e) + 1));
    }
    if b.contains(e) {
        let part = b.take(b.index_of(e) + 1);
        assert(t.take(t.index_of(e) + 1) =~= a + part);
        Seq::filter_distributes_over_add(a, part, pred);
    }
}

/// Where nothing satisfies `pred`, nothing is left of a sequence.
pub proof fn lemma_filter_none<T>(t: Seq<T>, pred: spec_fn(T) -> bool)
    requires
        forall|e: T| t.contains(e) ==> !pred(e),
    ensures
        t.filter(pred) == Seq::<T>::empty(),
    decreases t.len(),
{
    if t.len() == 0 {
        assert(t =~= Seq::<T>::empty());
        lemma_filter_empty(pred);
    } else {
        let p = t.drop_last();
        assert(t =~= p.push(t.last()));
        assert(t.contains(t.last()));
        assert forall|e: T| p.contains(e) implies !pred(e) by {
            let i = p.index_of(e);
            lemma_index_of_contained(p, e);
            assert(t[i] == e);
            assert(t.contains(e));
        }
        lemma_filter_none(p, pred);
        p.lemma_filter_push(t.last(), pred);
    }
}

} // verus!
