//! Stable sorting by a rank.

use vstd::prelude::*;

verus! {

/// What each item of a sequence stands for.
pub open spec fn views<T: View>(s: Seq<T>) -> Seq<T::V> {
    Seq::new(s.len(), |i: int| s[i]@)
}

/// Items with a rank by which they are sorted.
pub trait Ranked: View + Sized {
    /// Whether `a` ranks no higher than `b`.
    spec fn ranks(a: Self::V, b: Self::V) -> bool;

    /// Any two items can be ranked.
    proof fn ranks_total(a: Self::V, b: Self::V)
        ensures
            Self::ranks(a, b) || Self::ranks(b, a),
    ;

    /// Ranking is transitive.
    proof fn ranks_transitive(a: Self::V, b: Self::V, c: Self::V)
        requires
            Self::ranks(a, b),
            Self::ranks(b, c),
        ensures
            Self::ranks(a, c),
    ;

    /// Whether `self` ranks no higher than `other`.
    fn ranks_no_higher(&self, other: &Self) -> (r: bool)
        ensures
            r == Self::ranks(self@, other@),
    ;
}

/// `s` with `x` put in behind every item that ranks no higher, counted from the end.
pub open spec fn placed<T: Ranked>(s: Seq<T::V>, x: T::V) -> Seq<T::V>
    decreases s.len(),
{
    if s.len() == 0 || T::ranks(s.last(), x) {
        s.push(x)
    } else {
        placed::<T>(s.drop_last(), x).push(s.last())
    }
}

/// The items of `s` by rank; items of the same rank keep their order.
pub open spec fn sorted<T: Ranked>(s: Seq<T::V>) -> Seq<T::V>
    decreases s.len(),
{
    if s.len() == 0 {
        s
    } else {
        placed::<T>(sorted::<T>(s.drop_last()), s.last())
    }
}

/// Whether no item ranks lower than one before it.
pub open spec fn ascending<T: Ranked>(s: Seq<T::V>) -> bool {
    forall|i: int, j: int| 0 <= i < j < s.len() ==> T::ranks(#[trigger] s[i], #[trigger] s[j])
}

proof fn lemma_placed<T: Ranked>(s: Seq<T::V>, x: T::V)
    requires
        ascending::<T>(s),
    ensures
        ascending::<T>(placed::<T>(s, x)),
        placed::<T>(s, x).len() == s.len() + 1,
        placed::<T>(s, x).to_multiset() == s.to_multiset().insert(x),
        forall|i: int| 0 <= i < placed::<T>(s, x).len() ==> #[trigger] placed::<T>(s, x)[i] == x || s.contains(placed::<T>(s, x)[i]),
    decreases s.len(),
{
    broadcast use vstd::seq_lib::group_to_multiset_ensures;
    if s.len() == 0 {
        assert(s.push(x).to_multiset() =~= s.to_multiset().insert(x));
    } else if T::ranks(s.last(), x) {
        assert(s.push(x).to_multiset() =~= s.to_multiset().insert(x));
        assert forall|i: int, j: int| 0 <= i < j < s.push(x).len() implies T::ranks(
            #[trigger] s.push(x)[i],
            #[trigger] s.push(x)[j],
        ) by {
            if j == s.len() && i < s.len() - 1 {
                assert(T::ranks(s[i], s[s.len() - 1]));
                T::ranks_transitive(s[i], s.last(), x);
            }
        }
        assert forall|i: int| 0 <= i < s.push(x).len() implies #[trigger] s.push(x)[i] == x || s.contains(s.push(x)[i]) by {
            if i < s.len() {
                assert(s.push(x)[i] == s[i]);
            }
        }
    } else {
        let front = s.drop_last();
        let inner = placed::<T>(front, x);
        lemma_placed::<T>(front, x);
        let out = inner.push(s.last());
        assert(s =~= front.push(s.last()));
        assert(out.to_multiset() =~= s.to_multiset().insert(x));
        T::ranks_total(s.last(), x);
        assert forall|i: int, j: int| 0 <= i < j < out.len() implies T::ranks(
            #[trigger] out[i],
            #[trigger] out[j],
        ) by {
            if j == inner.len() {
                assert(out[i] == inner[i]);
                if inner[i] != x {
                    let k = choose|k: int| 0 <= k < front.len() && front[k] == inner[i];
                    assert(s[k] == front[k]);
                    assert(T::ranks(s[k], s[s.len() - 1]));
                }
            } else {
                assert(out[i] == inner[i] && out[j] == inner[j]);
            }
        }
        assert forall|i: int| 0 <= i < out.len() implies #[trigger] out[i] == x || s.contains(out[i]) by {
            if i < inner.len() {
                assert(out[i] == inner[i]);
                if inner[i] != x {
                    let k = choose|k: int| 0 <= k < front.len() && front[k] == inner[i];
                    assert(s[k] == front[k]);
                }
            } else {
                assert(s[s.len() - 1] == out[i]);
            }
        }
    }
}

/// Sorting puts the items into ascending order, and neither loses nor adds one.
pub proof fn sorting_orders_and_keeps_every_item<T: Ranked>(s: Seq<T::V>)
    ensures
        ascending::<T>(sorted::<T>(s)),
        sorted::<T>(s).len() == s.len(),
        sorted::<T>(s).to_multiset() == s.to_multiset(),
    decreases s.len(),
{
    broadcast use vstd::seq_lib::group_to_multiset_ensures;
    if s.len() > 0 {
        sorting_orders_and_keeps_every_item::<T>(s.drop_last());
        lemma_placed::<T>(sorted::<T>(s.drop_last()), s.last());
        assert(s =~= s.drop_last().push(s.last()));
    }
}

proof fn lemma_placed_all<T: Ranked>(s: Seq<T::V>, x: T::V, p: spec_fn(T::V) -> bool)
    requires
        forall|i: int| 0 <= i < s.len() ==> p(#[trigger] s[i]),
        p(x),
    ensures
        forall|i: int| 0 <= i < placed::<T>(s, x).len() ==> p(#[trigger] placed::<T>(s, x)[i]),
    decreases s.len(),
{
    if s.len() > 0 && !T::ranks(s.last(), x) {
        let inner = placed::<T>(s.drop_last(), x);
        lemma_placed_all::<T>(s.drop_last(), x, p);
        assert forall|i: int| 0 <= i < placed::<T>(s, x).len() implies p(#[trigger] placed::<T>(s, x)[i]) by {
            if i < inner.len() {
                assert(placed::<T>(s, x)[i] == inner[i]);
            } else {
                assert(placed::<T>(s, x)[i] == s[s.len() - 1]);
            }
        }
    } else {
        assert forall|i: int| 0 <= i < s.push(x).len() implies p(#[trigger] s.push(x)[i]) by {
            if i < s.len() {
                assert(s.push(x)[i] == s[i]);
            }
        }
    }
}

/// What holds of every item holds of every item of the sorted sequence.
pub(crate) proof fn lemma_sorted_all<T: Ranked>(s: Seq<T::V>, p: spec_fn(T::V) -> bool)
    requires
        forall|i: int| 0 <= i < s.len() ==> p(#[trigger] s[i]),
    ensures
        forall|i: int| 0 <= i < sorted::<T>(s).len() ==> p(#[trigger] sorted::<T>(s)[i]),
    decreases s.len(),
{
    if s.len() > 0 {
        lemma_sorted_all::<T>(s.drop_last(), p);
        lemma_placed_all::<T>(sorted::<T>(s.drop_last()), s.last(), p);
    }
}

proof fn lemma_placed_members<T: Ranked>(s: Seq<T::V>, x: T::V)
    ensures
        forall|y: T::V| #[trigger] placed::<T>(s, x).contains(y) <==> s.contains(y) || y == x,
    decreases s.len(),
{
    let out = placed::<T>(s, x);
    if s.len() == 0 || T::ranks(s.last(), x) {
        assert forall|y: T::V| #[trigger] out.contains(y) <==> s.contains(y) || y == x by {
            if s.contains(y) {
                let i = choose|i: int| 0 <= i < s.len() && s[i] == y;
                assert(out[i] == y);
            }
            if y == x {
                assert(out[s.len() as int] == x);
            }
            if out.contains(y) && y != x {
                let i = choose|i: int| 0 <= i < out.len() && out[i] == y;
                assert(s[i] == y);
            }
        }
    } else {
        let front = s.drop_last();
        let inner = placed::<T>(front, x);
        lemma_placed_members::<T>(front, x);
        assert forall|y: T::V| #[trigger] out.contains(y) <==> s.contains(y) || y == x by {
            if s.contains(y) {
                let i = choose|i: int| 0 <= i < s.len() && s[i] == y;
                if i < front.len() {
                    assert(front[i] == y);
                    assert(inner.contains(y));
                    let k = choose|k: int| 0 <= k < inner.len() && inner[k] == y;
                    assert(out[k] == y);
                } else {
                    assert(out[inner.len() as int] == y);
                }
            }
            if y == x {
                assert(inner.contains(y));
                let k = choose|k: int| 0 <= k < inner.len() && inner[k] == y;
                assert(out[k] == y);
            }
            if out.contains(y) && y != x {
                let k = choose|k: int| 0 <= k < out.len() && out[k] == y;
                if k < inner.len() {
                    assert(inner[k] == y);
                    assert(inner.contains(y));
                    assert(front.contains(y));
                    let i = choose|i: int| 0 <= i < front.len() && front[i] == y;
                    assert(s[i] == y);
                } else {
                    assert(s[s.len() - 1] == y);
                }
            }
        }
    }
}

/// A sorted sequence holds what the sequence holds.
pub(crate) proof fn lemma_sorted_members<T: Ranked>(s: Seq<T::V>)
    ensures
        forall|y: T::V| #[trigger] sorted::<T>(s).contains(y) <==> s.contains(y),
    decreases s.len(),
{
    if s.len() > 0 {
        let front = s.drop_last();
        lemma_sorted_members::<T>(front);
        lemma_placed_members::<T>(sorted::<T>(front), s.last());
        assert forall|y: T::V| #[trigger] sorted::<T>(s).contains(y) <==> s.contains(y) by {
            assert(sorted::<T>(s).contains(y) <==> front.contains(y) || y == s.last());
            if front.contains(y) {
                let i = choose|i: int| 0 <= i < front.len() && front[i] == y;
                assert(s[i] == y);
            }
            if y == s.last() {
                assert(s[s.len() - 1] == y);
            }
            if s.contains(y) && y != s.last() {
                let i = choose|i: int| 0 <= i < s.len() && s[i] == y;
                assert(front[i] == y);
            }
        }
    }
}

/// Whether no two items of a sequence have the same key.
pub open spec fn distinct<V, K>(s: Seq<V>, key: spec_fn(V) -> K) -> bool {
    forall|i: int, j: int| 0 <= i < j < s.len() ==> key(#[trigger] s[i]) != key(#[trigger] s[j])
}

proof fn lemma_placed_distinct<T: Ranked, K>(s: Seq<T::V>, x: T::V, key: spec_fn(T::V) -> K)
    requires
        distinct(s, key),
        forall|i: int| 0 <= i < s.len() ==> key(#[trigger] s[i]) != key(x),
    ensures
        distinct(placed::<T>(s, x), key),
    decreases s.len(),
{
    if s.len() > 0 && !T::ranks(s.last(), x) {
        let front = s.drop_last();
        let inner = placed::<T>(front, x);
        let out = placed::<T>(s, x);
        lemma_placed_distinct::<T, K>(front, x, key);
        lemma_placed_members::<T>(front, x);
        assert forall|i: int, j: int| 0 <= i < j < out.len() implies key(#[trigger] out[i]) != key(
            #[trigger] out[j],
        ) by {
            if j == inner.len() {
                assert(out[i] == inner[i]);
                assert(inner.contains(inner[i]));
                if inner[i] != x {
                    let k = choose|k: int| 0 <= k < front.len() && front[k] == inner[i];
                    assert(s[k] == front[k]);
                    assert(key(s[k]) != key(s[s.len() - 1]));
                } else {
                    assert(key(s[s.len() - 1]) != key(x));
                }
            } else {
                assert(out[i] == inner[i] && out[j] == inner[j]);
            }
        }
    }
}

/// Sorting keeps items with distinct keys distinct.
pub(crate) proof fn lemma_sorted_distinct<T: Ranked, K>(s: Seq<T::V>, key: spec_fn(T::V) -> K)
    requires
        distinct(s, key),
    ensures
        distinct(sorted::<T>(s), key),
    decreases s.len(),
{
    if s.len() > 0 {
        let front = s.drop_last();
        let inner = sorted::<T>(front);
        assert(distinct(front, key)) by {
            assert forall|i: int, j: int| 0 <= i < j < front.len() implies key(#[trigger] front[i]) != key(
                #[trigger] front[j],
            ) by {
                assert(key(s[i]) != key(s[j]));
            }
        }
        lemma_sorted_distinct::<T, K>(front, key);
        lemma_sorted_members::<T>(front);
        assert forall|i: int| 0 <= i < inner.len() implies key(#[trigger] inner[i]) != key(s.last()) by {
            assert(inner.contains(inner[i]));
            let k = choose|k: int| 0 <= k < front.len() && front[k] == inner[i];
            assert(key(s[k]) != key(s[s.len() - 1]));
        }
        lemma_placed_distinct::<T, K>(inner, s.last(), key);
    }
}

/// Items of the rank of `x`.
pub open spec fn of_rank<T: Ranked>(x: T::V) -> spec_fn(T::V) -> bool {
    |y: T::V| T::ranks(x, y) && T::ranks(y, x)
}

proof fn lemma_placed_stable<T: Ranked>(s: Seq<T::V>, y: T::V, x: T::V)
    ensures
        placed::<T>(s, y).filter(of_rank::<T>(x)) == (if of_rank::<T>(x)(y) {
            s.filter(of_rank::<T>(x)).push(y)
        } else {
            s.filter(of_rank::<T>(x))
        }),
    decreases s.len(),
{
    reveal(Seq::filter);
    let p = of_rank::<T>(x);
    if s.len() == 0 || T::ranks(s.last(), y) {
        assert(s.push(y).drop_last() =~= s);
    } else {
        let front = s.drop_last();
        let inner = placed::<T>(front, y);
        lemma_placed_stable::<T>(front, y, x);
        assert(inner.push(s.last()).drop_last() =~= inner);
        if p(y) && p(s.last()) {
            T::ranks_transitive(s.last(), x, y);
        }
    }
}

/// Sorting is stable: the items of any one rank keep their order.
pub proof fn sorting_is_stable<T: Ranked>(s: Seq<T::V>, x: T::V)
    ensures
        sorted::<T>(s).filter(of_rank::<T>(x)) == s.filter(of_rank::<T>(x)),
    decreases s.len(),
{
    reveal(Seq::filter);
    if s.len() > 0 {
        sorting_is_stable::<T>(s.drop_last(), x);
        lemma_placed_stable::<T>(sorted::<T>(s.drop_last()), s.last(), x);
    }
}

/// Sorts `v` by rank; items of the same rank keep their order.
pub fn sort_ranked<T: Ranked>(v: Vec<T>) -> (r: Vec<T>)
    ensures
        views(r@) == sorted::<T>(views(v@)),
        r@.len() == v@.len(),
{
    let mut rest: Vec<T> = v;
    let mut out: Vec<T> = Vec::new();
    let total: usize = rest.len();
    let mut done: usize = 0;
    let ghost all = views(v@);
    assert(all.take(0) =~= Seq::<T::V>::empty());
    assert(views(out@) =~= sorted::<T>(all.take(0)));
    assert(views(rest@) =~= all.skip(0));
    while done < total
        invariant
            done <= total,
            total == all.len(),
            rest@.len() == total - done,
            out@.len() == done,
            views(rest@) == all.skip(done as int),
            views(out@) == sorted::<T>(all.take(done as int)),
        decreases total - done,
    {
        let ghost before = rest@;
        let x: T = rest.remove(0);
        let ghost prior = out@;
        proof {
            assert(views(before)[0] == all.skip(done as int)[0]);
            assert(x@ == all[done as int]);
            assert forall|i: int| 0 <= i < rest@.len() implies views(rest@)[i] == all.skip(done + 1)[i] by {
                assert(rest@[i] == before[i + 1]);
                assert(views(before)[i + 1] == all.skip(done as int)[i + 1]);
            }
            assert(views(rest@) =~= all.skip(done + 1));
            assert(all.take(done + 1).drop_last() =~= all.take(done as int));
            assert(all.take(done + 1).last() == x@);
        }
        let mut p: usize = out.len();
        proof {
            assert(views(prior).take(p as int) =~= views(prior));
            assert(views(prior).skip(p as int) =~= Seq::<T::V>::empty());
            assert(placed::<T>(views(prior), x@) =~= placed::<T>(views(prior).take(p as int), x@) + views(prior).skip(p as int));
        }
        while p > 0 && !out[p - 1].ranks_no_higher(&x)
            invariant
                p <= out@.len(),
                out@ == prior,
                placed::<T>(views(prior), x@) == placed::<T>(views(prior).take(p as int), x@) + views(prior).skip(p as int),
            decreases p,
        {
            proof {
                let s = views(prior).take(p as int);
                assert(s.last() == prior[p - 1]@);
                assert(s.drop_last() =~= views(prior).take(p - 1));
                assert(placed::<T>(s, x@) == placed::<T>(s.drop_last(), x@).push(s.last()));
                assert(placed::<T>(s.drop_last(), x@).push(s.last()) + views(prior).skip(p as int)
                    =~= placed::<T>(s.drop_last(), x@) + views(prior).skip(p - 1));
            }
            p = p - 1;
        }
        out.insert(p, x);
        proof {
            let s = views(prior).take(p as int);
            if p > 0 {
                assert(s.last() == prior[p - 1]@);
            }
            assert(placed::<T>(s, x@) == s.push(x@));
            assert(views(out@) =~= s.push(x@) + views(prior).skip(p as int));
        }
        done = done + 1;
    }
    assert(all.take(total as int) =~= all);
    out
}

} // verus!
