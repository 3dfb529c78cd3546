//! What every analysis finds, sample by sample.

use vstd::prelude::*;

use crate::detection::{lemma_run_end, run_end};
use crate::order::{lemma_sorted_distinct, lemma_sorted_members, sorted, sorting_orders_and_keeps_every_item, Ranked};
use crate::quantity::{Quantity, INFINITE};
use crate::seqs::{first_where, lemma_search};
use crate::signal::{
    clusters, dips, distance, echoes, last_top, lobes, lowest, nearest, peaks, prominent, reaching, region_clusters,
    region_echoes, stands_apart, tallest, AnalConfig, Candidate, CandidateModel, EchoModel, Gate, Record, SplitModel,
    ThresholdMode,
};

verus! {

// ---------------------------------------------------------------- tops

/// Whether the envelope has a top at or above `level` at sample `m`: no lower than the
/// sample before it, and higher than the one behind it.
pub open spec fn is_top(env: Seq<Quantity>, level: Quantity, m: int) -> bool {
    &&& 0 < m < env.len() - 1
    &&& level.le(env[m])
    &&& env[m - 1].le(env[m])
    &&& env[m + 1].lt(env[m])
}

/// Whether `m` is a top between `start` and `end`.
pub open spec fn is_top_in(env: Seq<Quantity>, level: Quantity, start: int, end: int, m: int) -> bool {
    start <= m < end && is_top(env, level, m)
}

/// Whether `h` is the first highest of the tops between `start` and `end`, and above
/// zero.
pub open spec fn is_first_highest_top(env: Seq<Quantity>, level: Quantity, start: int, end: int, h: int) -> bool {
    &&& is_top_in(env, level, start, end, h)
    &&& (Quantity { bits: 0 }).lt(env[h])
    &&& forall|q: int| #[trigger] is_top_in(env, level, start, end, q) ==> !env[h].lt(env[q])
    &&& forall|q: int| #[trigger] is_top_in(env, level, start, end, q) && q < h ==> env[q].lt(env[h])
}

/// Whether a top stands out between `start` and `end`: it reaches the prominent
/// fraction of the highest top there. Where no top is above zero, it reaches zero.
pub open spec fn stands_out(r: Record, level: Quantity, start: int, end: int, m: int) -> bool {
    &&& is_top_in(r.env@, level, start, end, m)
    &&& (exists|h: int| #[trigger] is_first_highest_top(r.env@, level, start, end, h) && r.prominence@[h].le(r.env@[m]))
        || (Quantity { bits: 0 }).le(r.env@[m]) && forall|q: int| #[trigger]
        is_top_in(r.env@, level, start, end, q) ==> !(Quantity { bits: 0 }).lt(r.env@[q])
}

/// Whether numbers ascend, without repetition.
pub open spec fn ascends(s: Seq<usize>) -> bool {
    forall|i: int, j: int| 0 <= i < j < s.len() ==> #[trigger] s[i] < #[trigger] s[j]
}

/// Whether a sequence holds a sample.
pub open spec fn holds(s: Seq<usize>, m: int) -> bool {
    exists|i: int| 0 <= i < s.len() && #[trigger] s[i] == m
}

proof fn lemma_peaks(env: Seq<Quantity>, level: Quantity, start: int, end: int)
    requires
        0 <= start <= end <= env.len(),
        env.len() <= usize::MAX,
    ensures
        ascends(peaks(env, level, start, end)),
        forall|m: int| #[trigger] holds(peaks(env, level, start, end), m) <==> is_top_in(env, level, start, end, m),
    decreases end - start,
{
    let s = peaks(env, level, start, end);
    if start < end {
        lemma_peaks(env, level, start, end - 1);
        let rest = peaks(env, level, start, end - 1);
        assert forall|i: int| 0 <= i < rest.len() implies #[trigger] rest[i] < end - 1 by {
            assert(holds(rest, rest[i] as int));
        }
        assert forall|m: int| #[trigger] holds(s, m) <==> is_top_in(env, level, start, end, m) by {
            assert(holds(rest, m) <==> is_top_in(env, level, start, end - 1, m));
            if holds(s, m) {
                let i = choose|i: int| 0 <= i < s.len() && #[trigger] s[i] == m;
                if i < rest.len() {
                    assert(rest[i] == m);
                }
            }
            if holds(rest, m) {
                let i = choose|i: int| 0 <= i < rest.len() && #[trigger] rest[i] == m;
                assert(s[i] == m);
            }
            if m == end - 1 && is_top_in(env, level, start, end, m) {
                assert(s[rest.len() as int] == m);
            }
        }
    } else {
        assert(s.len() == 0);
    }
}

proof fn lemma_tallest(env: Seq<Quantity>, s: Seq<usize>, n: int)
    requires
        0 <= n <= s.len(),
        ascends(s),
        forall|i: int| 0 <= i < s.len() ==> !env[(#[trigger] s[i]) as int].not_a_number(),
    ensures
        match tallest(env, s, n) {
            Some(h) => {
                &&& exists|i: int| 0 <= i < n && #[trigger] s[i] == h
                &&& (Quantity { bits: 0 }).lt(env[h])
                &&& forall|i: int| 0 <= i < n ==> !env[h].lt(env[(#[trigger] s[i]) as int])
                &&& forall|i: int| 0 <= i < n && (#[trigger] s[i]) < h ==> env[s[i] as int].lt(env[h])
            },
            None => forall|i: int| 0 <= i < n ==> !(Quantity { bits: 0 }).lt(env[(#[trigger] s[i]) as int]),
        },
    decreases n,
{
    if n > 0 {
        lemma_tallest(env, s, n - 1);
        let zero = Quantity { bits: 0 };
        let best = tallest(env, s, n - 1);
        let x = s[n - 1] as int;
        if let Some(h) = best {
            let i = choose|i: int| 0 <= i < n - 1 && #[trigger] s[i] == h;
            assert(s[i] < s[n - 1]);
            if env[h].lt(env[x]) {
                assert forall|j: int| 0 <= j < n implies !env[x].lt(env[(#[trigger] s[j]) as int]) by {
                    if j < n - 1 {
                        assert(!env[h].lt(env[s[j] as int]));
                    }
                }
                assert forall|j: int| 0 <= j < n && (#[trigger] s[j]) < x implies env[s[j] as int].lt(env[x]) by {
                    if j < n - 1 {
                        assert(!env[h].lt(env[s[j] as int]));
                    }
                }
            }
        } else {
            if zero.lt(env[x]) {
                assert forall|j: int| 0 <= j < n implies !env[x].lt(env[(#[trigger] s[j]) as int]) by {
                    if j < n - 1 {
                        assert(!zero.lt(env[s[j] as int]));
                    }
                }
                assert forall|j: int| 0 <= j < n && (#[trigger] s[j]) < x implies env[s[j] as int].lt(env[x]) by {
                    if j < n - 1 {
                        assert(!zero.lt(env[s[j] as int]));
                    }
                }
            }
        }
    }
}

proof fn lemma_reaching(env: Seq<Quantity>, floor: Quantity, s: Seq<usize>, n: int)
    requires
        0 <= n <= s.len(),
        ascends(s),
    ensures
        ascends(reaching(env, floor, s, n)),
        forall|m: int| #[trigger]
            holds(reaching(env, floor, s, n), m) <==> holds(s.take(n), m) && floor.le(env[m]),
        forall|i: int| 0 <= i < reaching(env, floor, s, n).len() ==> n > 0 && #[trigger] reaching(env, floor, s, n)[i] <= s[n - 1],
    decreases n,
{
    let out = reaching(env, floor, s, n);
    if n > 0 {
        lemma_reaching(env, floor, s, n - 1);
        let rest = reaching(env, floor, s, n - 1);
        let x = s[n - 1];
        assert forall|i: int| 0 <= i < rest.len() implies #[trigger] rest[i] < x by {
            assert(s[n - 2] < s[n - 1]);
        }
        let before = s.take(n - 1);
        let now = s.take(n);
        assert forall|m: int| #[trigger] holds(out, m) <==> holds(now, m) && floor.le(env[m]) by {
            assert(holds(rest, m) <==> holds(before, m) && floor.le(env[m]));
            if holds(before, m) {
                let i = choose|i: int| 0 <= i < before.len() && #[trigger] before[i] == m;
                assert(now[i] == m);
            }
            if holds(now, m) && m != x {
                let i = choose|i: int| 0 <= i < now.len() && #[trigger] now[i] == m;
                assert(before[i] == m);
            }
            if m == x {
                assert(now[n - 1] == m);
            }
            if holds(rest, m) {
                let i = choose|i: int| 0 <= i < rest.len() && #[trigger] rest[i] == m;
                assert(out[i] == m);
            }
            if holds(out, m) {
                let i = choose|i: int| 0 <= i < out.len() && #[trigger] out[i] == m;
                if i < rest.len() {
                    assert(rest[i] == m);
                }
            }
            if m == x && floor.le(env[m]) {
                assert(out[rest.len() as int] == m);
            }
        }
    } else {
        assert(out.len() == 0);
        assert(s.take(0).len() == 0);
    }
}

proof fn lemma_prominent(r: Record, level: Quantity, start: int, end: int)
    requires
        r.valid(),
        0 <= start <= end <= r.size(),
        r.size() <= usize::MAX,
    ensures
        ascends(prominent(r, level, start, end)),
        forall|m: int| #[trigger]
            holds(prominent(r, level, start, end), m) <==> stands_out(r, level, start, end, m),
{
    let env = r.env@;
    let zero = Quantity { bits: 0 };
    let all = peaks(env, level, start, end);
    let n = all.len() as int;
    lemma_peaks(env, level, start, end);
    assert forall|i: int| 0 <= i < n implies !env[(#[trigger] all[i]) as int].not_a_number() by {
        assert(holds(all, all[i] as int));
        assert(is_top_in(env, level, start, end, all[i] as int));
    }
    lemma_tallest(env, all, n);
    let floor = crate::signal::prominence_floor(r, all);
    lemma_reaching(env, floor, all, n);
    assert(all.take(n) =~= all);
    let s = prominent(r, level, start, end);
    match tallest(env, all, n) {
        Some(h) => {
            assert(holds(all, h));
            assert(is_first_highest_top(env, level, start, end, h)) by {
                assert forall|q: int| #[trigger] is_top_in(env, level, start, end, q) implies !env[h].lt(env[q]) && (q < h
                    ==> env[q].lt(env[h])) by {
                    assert(holds(all, q));
                    let i = choose|i: int| 0 <= i < all.len() && #[trigger] all[i] == q;
                }
            }
            assert forall|m: int| #[trigger] holds(s, m) <==> stands_out(r, level, start, end, m) by {
                assert(holds(all, m) <==> is_top_in(env, level, start, end, m));
                if stands_out(r, level, start, end, m) {
                    assert(is_top_in(env, level, start, end, h));
                    let g = choose|g: int| #[trigger]
                        is_first_highest_top(env, level, start, end, g) && r.prominence@[g].le(env[m]);
                    if g < h {
                        assert(env[g].lt(env[h]));
                    } else if h < g {
                        assert(env[h].lt(env[g]));
                    }
                    assert(g == h);
                }
            }
        },
        None => {
            assert forall|q: int| #[trigger] is_top_in(env, level, start, end, q) implies !zero.lt(env[q]) by {
                assert(holds(all, q));
                let i = choose|i: int| 0 <= i < all.len() && #[trigger] all[i] == q;
            }
            assert forall|m: int| #[trigger] holds(s, m) <==> stands_out(r, level, start, end, m) by {
                assert(holds(all, m) <==> is_top_in(env, level, start, end, m));
            }
        },
    }
}

// ---------------------------------------------------------------- the highest of several

/// Whether `t` is the last highest of some samples, in the total order.
pub open spec fn is_last_highest_of(env: Seq<Quantity>, s: Seq<usize>, t: int) -> bool {
    &&& holds(s, t)
    &&& forall|i: int| 0 <= i < s.len() ==> env[(#[trigger] s[i]) as int].total_place() <= env[t].total_place()
    &&& forall|i: int|
        0 <= i < s.len() && (#[trigger] s[i]) > t ==> env[s[i] as int].total_place() < env[t].total_place()
}

proof fn lemma_last_top_highest(env: Seq<Quantity>, s: Seq<usize>, n: int)
    requires
        1 <= n <= s.len(),
        ascends(s),
    ensures
        is_last_highest_of(env, s.take(n), last_top(env, s, n) as int),
    decreases n,
{
    let now = s.take(n);
    if n == 1 {
        assert(now[0] == s[0]);
    } else {
        lemma_last_top_highest(env, s, n - 1);
        let before = s.take(n - 1);
        let t = last_top(env, s, n - 1) as int;
        let i = choose|i: int| 0 <= i < before.len() && #[trigger] before[i] == t;
        assert(now[i] == t);
        assert(s[i] < s[n - 1]);
        assert(now[n - 1] == s[n - 1]);
        let u = last_top(env, s, n) as int;
        assert forall|j: int| 0 <= j < now.len() implies env[(#[trigger] now[j]) as int].total_place()
            <= env[u].total_place() by {
            if j < n - 1 {
                assert(before[j] == now[j]);
            }
        }
        assert forall|j: int| 0 <= j < now.len() && (#[trigger] now[j]) > u implies env[now[j] as int].total_place()
            < env[u].total_place() by {
            if j < n - 1 {
                assert(before[j] == now[j]);
                assert(s[j] < s[n - 1]);
            }
        }
    }
}

// ---------------------------------------------------------------- lobes

/// The distance of two samples.
pub open spec fn gap(a: int, b: int) -> int {
    if a <= b {
        b - a
    } else {
        a - b
    }
}

/// Whether the envelope dips between two samples below the valley fraction of the
/// lower of the two.
pub open spec fn has_valley(r: Record, p: int, q: int) -> bool {
    let a = if p <= q {
        p
    } else {
        q
    };
    let b = if p <= q {
        q
    } else {
        p
    };
    let low = if r.env@[b].lt(r.env@[a]) {
        b
    } else {
        a
    };
    exists|k: int| a <= k <= b && (#[trigger] r.env@[k]).lt(r.valley@[low])
}

proof fn lemma_lowest(env: Seq<Quantity>, start: int, end: int, x: Quantity)
    ensures
        lowest(env, start, end).lt(x) <==> exists|k: int| start <= k < end && (#[trigger] env[k]).lt(x),
        !lowest(env, start, end).not_a_number(),
        forall|k: int| start <= k < end ==> !(#[trigger] env[k]).lt(lowest(env, start, end)),
    decreases end - start,
{
    if start < end {
        lemma_lowest(env, start, end - 1, x);
        let rest = lowest(env, start, end - 1);
        let now = lowest(env, start, end);
        if rest.lt(x) {
            let k = choose|k: int| start <= k < end - 1 && (#[trigger] env[k]).lt(x);
            assert(env[k].lt(x));
        }
        if now.lt(x) && !rest.lt(x) {
            assert(env[end - 1].lt(x));
        }
    } else {
        assert(!(Quantity { bits: INFINITE }).lt(x));
    }
}

proof fn lemma_dips(r: Record, p: int, q: int)
    requires
        !r.env@[p].not_a_number(),
        !r.env@[q].not_a_number(),
    ensures
        p <= q ==> (dips(r, p, q) <==> has_valley(r, p, q)),
        q <= p ==> (dips(r, q, p) <==> has_valley(r, p, q)),
{
    if p <= q {
        lemma_lowest(r.env@, p, q + 1, r.valley@[crate::signal::lower_of(r.env@, p, q)]);
    }
    if q <= p {
        lemma_lowest(r.env@, q, p + 1, r.valley@[crate::signal::lower_of(r.env@, q, p)]);
    }
}

/// Whether `q` is the first of those in `s` that are nearest to `p`.
spec fn is_nearest(s: Seq<usize>, p: int, q: int) -> bool {
    exists|i: int|
        {
            &&& 0 <= i < s.len()
            &&& #[trigger] s[i] == q
            &&& forall|j: int| 0 <= j < s.len() ==> gap(q, p) <= gap((#[trigger] s[j]) as int, p)
            &&& forall|j: int| 0 <= j < i ==> gap(q, p) < gap((#[trigger] s[j]) as int, p)
        }
}

proof fn lemma_nearest(s: Seq<usize>, p: usize, n: int)
    requires
        1 <= n <= s.len(),
    ensures
        is_nearest(s.take(n), p as int, nearest(s, p, n) as int),
    decreases n,
{
    let now = s.take(n);
    if n == 1 {
        assert(now[0] == s[0]);
    } else {
        lemma_nearest(s, p, n - 1);
        let before = s.take(n - 1);
        let q = nearest(s, p, n - 1) as int;
        let i = choose|i: int|
            {
                &&& 0 <= i < before.len()
                &&& #[trigger] before[i] == q
                &&& forall|j: int| 0 <= j < before.len() ==> gap(q, p as int) <= gap((#[trigger] before[j]) as int, p as int)
                &&& forall|j: int| 0 <= j < i ==> gap(q, p as int) < gap((#[trigger] before[j]) as int, p as int)
            };
        assert(forall|j: int| 0 <= j < n - 1 ==> now[j] == before[j]);
        assert(now[n - 1] == s[n - 1]);
        let u = nearest(s, p, n) as int;
        if u == q {
            assert(now[i] == q);
            assert forall|j: int| 0 <= j < now.len() implies gap(u, p as int) <= gap((#[trigger] now[j]) as int, p as int) by {
                if j < n - 1 {
                    assert(before[j] == now[j]);
                }
            }
            assert forall|j: int| 0 <= j < i implies gap(u, p as int) < gap((#[trigger] now[j]) as int, p as int) by {
                assert(before[j] == now[j]);
            }
        } else {
            assert(now[n - 1] == u);
            assert forall|j: int| 0 <= j < n - 1 implies gap(u, p as int) < gap((#[trigger] now[j]) as int, p as int) by {
                assert(before[j] == now[j]);
            }
        }
    }
}

/// Whether `q` is the lobe that `p` is held against: the nearest to it among the
/// highest top, `anchor`, and the lobes before `p`, and the anchor where both are
/// equally near.
pub open spec fn is_held_against(s: Seq<usize>, anchor: int, p: int, q: int) -> bool {
    &&& q == anchor || holds(s, q) && q < p
    &&& gap(q, p) <= gap(anchor, p)
    &&& forall|x: int| #[trigger] holds(s, x) && x < p ==> gap(q, p) <= gap(x, p)
    &&& gap(q, p) == gap(anchor, p) ==> q == anchor
}

/// What the lobes among the first `n` of the prominent tops `s` are, besides the anchor.
spec fn lobes_are(r: Record, s: Seq<usize>, anchor: usize, n: int) -> bool {
    let l = lobes(r, s, anchor, n);
    &&& l.len() > 0
    &&& l[0] == anchor
    &&& forall|i: int| 1 <= i < l.len() ==> holds(s.take(n), (#[trigger] l[i]) as int) && l[i] != anchor
    &&& forall|i: int, j: int| 1 <= i < j < l.len() ==> #[trigger] l[i] < #[trigger] l[j]
    &&& forall|i: int|
        0 <= i < n && s[i] != anchor ==> (holds(l, (#[trigger] s[i]) as int) <==> stands_apart(
            r,
            lobes(r, s, anchor, i),
            s[i],
        ))
}

#[verifier::spinoff_prover]
#[verifier::rlimit(60)]
proof fn lemma_lobes(r: Record, s: Seq<usize>, anchor: usize, n: int)
    requires
        0 <= n <= s.len(),
        ascends(s),
    ensures
        lobes_are(r, s, anchor, n),
    decreases n,
{
    let l = lobes(r, s, anchor, n);
    if n > 0 {
        lemma_lobes(r, s, anchor, n - 1);
        let rest = lobes(r, s, anchor, n - 1);
        let x = s[n - 1];
        let before = s.take(n - 1);
        let now = s.take(n);
        assert forall|i: int| 1 <= i < rest.len() implies holds(now, (#[trigger] rest[i]) as int) && rest[i] < x by {
            assert(holds(before, rest[i] as int));
            let j = choose|j: int| 0 <= j < before.len() && #[trigger] before[j] == rest[i] as int;
            assert(now[j] == rest[i]);
            assert(s[j] < s[n - 1]);
        }
        assert(now[n - 1] == x);
        assert forall|m: int| m != x implies (#[trigger] holds(l, m) <==> holds(rest, m)) by {
            if holds(l, m) {
                let i = choose|i: int| 0 <= i < l.len() && #[trigger] l[i] == m;
                if i < rest.len() {
                    assert(rest[i] == m);
                }
            }
            if holds(rest, m) {
                let i = choose|i: int| 0 <= i < rest.len() && #[trigger] rest[i] == m;
                assert(l[i] == m);
            }
        }
        assert forall|i: int| 0 <= i < n && s[i] != anchor implies (holds(l, (#[trigger] s[i]) as int) <==> stands_apart(
            r,
            lobes(r, s, anchor, i),
            s[i],
        )) by {
            if i < n - 1 {
                assert(s[i] < s[n - 1]);
                assert(holds(l, s[i] as int) <==> holds(rest, s[i] as int));
            } else {
                if stands_apart(r, rest, x) {
                    assert(l[rest.len() as int] == x);
                }
                if holds(l, x as int) && !stands_apart(r, rest, x) {
                    let j = choose|j: int| 0 <= j < l.len() && #[trigger] l[j] == x;
                    assert(j > 0);
                    assert(rest[j] < x);
                }
            }
        }
        assert forall|i: int| 1 <= i < l.len() implies holds(now, (#[trigger] l[i]) as int) && l[i] != anchor by {
            if i < rest.len() {
                assert(l[i] == rest[i]);
            }
        }
        assert forall|i: int, j: int| 1 <= i < j < l.len() implies #[trigger] l[i] < #[trigger] l[j] by {
            if j == rest.len() {
                assert(l[i] == rest[i]);
            }
        }
    } else {
        assert(l.len() == 1);
    }
}

proof fn lemma_lobes_before(r: Record, s: Seq<usize>, anchor: usize, i: int, n: int, m: int)
    requires
        0 <= i <= n <= s.len(),
        ascends(s),
        i < s.len(),
    ensures
        m < s[i] && m != anchor ==> (holds(lobes(r, s, anchor, n), m) <==> holds(lobes(r, s, anchor, i), m)),
    decreases n - i,
{
    if i < n {
        lemma_lobes_before(r, s, anchor, i, n - 1, m);
        let l = lobes(r, s, anchor, n);
        let rest = lobes(r, s, anchor, n - 1);
        if i < n - 1 {
            assert(s[i] < s[n - 1]);
        }
        if holds(l, m) && m < s[i] {
            let k = choose|k: int| 0 <= k < l.len() && #[trigger] l[k] == m;
            assert(rest[k] == m);
        }
        if holds(rest, m) {
            let k = choose|k: int| 0 <= k < rest.len() && #[trigger] rest[k] == m;
            assert(l[k] == m);
        }
    }
}

#[verifier::spinoff_prover]
#[verifier::rlimit(60)]
proof fn lemma_lobe_rule(r: Record, s: Seq<usize>, anchor: usize, p: int, q: int)
    requires
        ascends(s),
        holds(s, p),
        p != anchor,
        is_held_against(lobes(r, s, anchor, s.len() as int), anchor as int, p, q),
        forall|i: int| 0 <= i < s.len() ==> !r.env@[(#[trigger] s[i]) as int].not_a_number(),
        holds(s, anchor as int),
    ensures
        holds(lobes(r, s, anchor, s.len() as int), p) <==> has_valley(r, p, q),
{
    let n = s.len() as int;
    let all = lobes(r, s, anchor, n);
    let i = choose|i: int| 0 <= i < s.len() && #[trigger] s[i] == p;
    let l = lobes(r, s, anchor, i);
    lemma_lobes(r, s, anchor, n);
    lemma_lobes(r, s, anchor, i);
    assert(holds(all, s[i] as int) <==> stands_apart(r, l, s[i]));
    lemma_nearest(l, s[i], l.len() as int);
    assert(l.take(l.len() as int) =~= l);
    let u = nearest(l, s[i], l.len() as int) as int;
    let a = choose|a: int|
        {
            &&& 0 <= a < l.len()
            &&& #[trigger] l[a] == u
            &&& forall|j: int| 0 <= j < l.len() ==> gap(u, p) <= gap((#[trigger] l[j]) as int, p)
            &&& forall|j: int| 0 <= j < a ==> gap(u, p) < gap((#[trigger] l[j]) as int, p)
        };
    // Everything found so far but the anchor lies before `p`.
    assert forall|j: int| 1 <= j < l.len() implies (#[trigger] l[j]) < p && holds(all, l[j] as int) by {
        assert(holds(s.take(i), l[j] as int));
        let b = choose|b: int| 0 <= b < s.take(i).len() && #[trigger] s.take(i)[b] == l[j] as int;
        assert(s[b] < s[i]);
        assert(holds(l, l[j] as int));
        lemma_lobes_before(r, s, anchor, i, n, l[j] as int);
    }
    assert(gap(u, p) <= gap(l[0] as int, p));
    if a > 0 {
        assert(gap(u, p) < gap(l[0] as int, p));
        assert(holds(all, u) && u < p);
    }
    // `q` is among what was found so far.
    if q != anchor {
        lemma_lobes_before(r, s, anchor, i, n, q);
        assert(holds(l, q));
        let b = choose|b: int| 0 <= b < l.len() && #[trigger] l[b] == q;
        assert(gap(u, p) <= gap(l[b] as int, p));
    }
    assert(gap(u, p) == gap(q, p));
    if u != q {
        if u == anchor {
            assert(false);
        } else if q == anchor {
            assert(false);
        } else {
            assert(u < p && q < p);
        }
    }
    assert(u == q);
    if q != anchor {
        assert(holds(s.take(i), l[a] as int));
        let b = choose|b: int| 0 <= b < s.take(i).len() && #[trigger] s.take(i)[b] == l[a] as int;
        assert(s[b] == q);
    } else {
        let b = choose|b: int| 0 <= b < s.len() && #[trigger] s[b] == anchor as int;
        assert(!r.env@[s[b] as int].not_a_number());
    }
    assert(!r.env@[s[i] as int].not_a_number());
    lemma_dips(r, p, q);
}

// ---------------------------------------------------------------- clusters

/// Whether a sample is in one of the clusters.
spec fn is_clustered(c: Seq<Seq<usize>>, m: int) -> bool {
    exists|i: int| 0 <= i < c.len() && holds(#[trigger] c[i], m)
}

/// Whether each of some samples is less than `min_sep` behind the one before it.
pub open spec fn is_close(s: Seq<usize>, min_sep: int) -> bool {
    forall|i: int, j: int| 0 <= i < s.len() && j == i + 1 && j < s.len() ==> #[trigger] s[j] - #[trigger] s[i] < min_sep
}

/// Whether clusters are what cannot be resolved: each ascends in steps shorter than
/// `min_sep`, and from one to the next it is at least that far.
spec fn are_resolved(c: Seq<Seq<usize>>, min_sep: int) -> bool {
    &&& forall|i: int| 0 <= i < c.len() ==> (#[trigger] c[i]).len() > 0 && ascends(c[i]) && is_close(c[i], min_sep)
    &&& forall|i: int, j: int|
        0 <= i < j < c.len() ==> (#[trigger] c[i]).last() < (#[trigger] c[j])[0] && c[j][0] - c[i].last() >= min_sep
}

proof fn lemma_last_grows(rest: Seq<Seq<usize>>, x: usize, min_sep: int)
    requires
        rest.len() > 0,
        are_resolved(rest, min_sep),
        rest.last().last() < x,
        x - rest.last().last() < min_sep,
    ensures
        are_resolved(rest.drop_last().push(rest.last().push(x)), min_sep),
{
    let end = rest.len() - 1;
    let old_one = rest[end];
    let grown = old_one.push(x);
    let c = rest.drop_last().push(grown);
    assert(old_one.len() > 0 && ascends(old_one) && is_close(old_one, min_sep));
    assert(is_close(grown, min_sep));
    assert forall|i: int, j: int| 0 <= i < j < grown.len() implies #[trigger] grown[i] < #[trigger] grown[j] by {
        if j == old_one.len() {
            if i < old_one.len() - 1 {
                assert(old_one[i] < old_one[old_one.len() - 1]);
            }
        } else {
            assert(old_one[i] < old_one[j]);
        }
    }
    assert forall|i: int| 0 <= i < c.len() implies (#[trigger] c[i]).len() > 0 && ascends(c[i]) && is_close(
        c[i],
        min_sep,
    ) by {
        if i < end {
            assert(c[i] == rest[i]);
        }
    }
    assert forall|i: int, j: int| 0 <= i < j < c.len() implies (#[trigger] c[i]).last() < (#[trigger] c[j])[0]
        && c[j][0] - c[i].last() >= min_sep by {
        assert(c[i] == rest[i]);
        assert(rest[i].last() < rest[j][0] && rest[j][0] - rest[i].last() >= min_sep);
        assert(c[j][0] == rest[j][0]);
    }
}

proof fn lemma_new_one(rest: Seq<Seq<usize>>, x: usize, min_sep: int)
    requires
        rest.len() > 0,
        are_resolved(rest, min_sep),
        rest.last().last() < x,
        x - rest.last().last() >= min_sep,
    ensures
        are_resolved(rest.push(seq![x]), min_sep),
{
    let end = rest.len() - 1;
    let c = rest.push(seq![x]);
    assert forall|i: int| 0 <= i < c.len() implies (#[trigger] c[i]).len() > 0 && ascends(c[i]) && is_close(
        c[i],
        min_sep,
    ) by {
        if i <= end {
            assert(c[i] == rest[i]);
        }
    }
    let last = rest[end];
    assert(last.len() > 0 && ascends(last));
    assert(last[0] <= last.last()) by {
        if last.len() > 1 {
            assert(last[0] < last[last.len() - 1]);
        }
    }
    assert forall|i: int, j: int| 0 <= i < j < c.len() implies (#[trigger] c[i]).last() < (#[trigger] c[j])[0]
        && c[j][0] - c[i].last() >= min_sep by {
        assert(c[i] == rest[i]);
        if j <= end {
            assert(c[j] == rest[j]);
        } else {
            assert(c[j][0] == x);
            if i < end {
                assert(rest[i].last() < rest[end][0]);
            }
        }
    }
}

proof fn lemma_clustered_too(rest: Seq<Seq<usize>>, c: Seq<Seq<usize>>, x: usize, m: int)
    requires
        rest.len() > 0,
        c == rest.drop_last().push(rest.last().push(x)) || c == rest.push(seq![x]),
    ensures
        is_clustered(c, m) <==> is_clustered(rest, m) || m == x,
{
    let end = rest.len() - 1;
    if is_clustered(c, m) {
        let i = choose|i: int| 0 <= i < c.len() && holds(#[trigger] c[i], m);
        let k = choose|k: int| 0 <= k < c[i].len() && #[trigger] c[i][k] == m;
        if m != x {
            assert(rest[i][k] == m);
            assert(holds(rest[i], m));
        }
    }
    if is_clustered(rest, m) {
        let i = choose|i: int| 0 <= i < rest.len() && holds(#[trigger] rest[i], m);
        let k = choose|k: int| 0 <= k < rest[i].len() && #[trigger] rest[i][k] == m;
        assert(c[i][k] == m);
        assert(holds(c[i], m));
    }
    if m == x {
        let i = c.len() - 1;
        assert(c[i][c[i].len() - 1] == m);
        assert(holds(c[i], m));
    }
}

proof fn lemma_clusters_resolved(s: Seq<usize>, min_sep: int, n: int)
    requires
        1 <= n <= s.len(),
        ascends(s),
    ensures
        are_resolved(clusters(s, min_sep, n), min_sep),
        clusters(s, min_sep, n).len() > 0,
        clusters(s, min_sep, n).last().last() == s[n - 1],
        forall|m: int| #[trigger] is_clustered(clusters(s, min_sep, n), m) <==> holds(s.take(n), m),
    decreases n,
{
    let c = clusters(s, min_sep, n);
    let now = s.take(n);
    if n == 1 {
        assert(c[0] == seq![s[0]]);
        assert forall|m: int| #[trigger] is_clustered(c, m) <==> holds(now, m) by {
            if is_clustered(c, m) {
                let i = choose|i: int| 0 <= i < c.len() && holds(#[trigger] c[i], m);
                assert(now[0] == m);
            }
            if holds(now, m) {
                assert(c[0][0] == m);
                assert(holds(c[0], m));
            }
        }
    } else {
        lemma_clusters_resolved(s, min_sep, n - 1);
        let rest = clusters(s, min_sep, n - 1);
        let before = s.take(n - 1);
        let x = s[n - 1];
        assert(s[n - 2] < x);
        if x - s[n - 2] < min_sep {
            lemma_last_grows(rest, x, min_sep);
        } else {
            lemma_new_one(rest, x, min_sep);
        }
        assert forall|m: int| #[trigger] is_clustered(c, m) <==> holds(now, m) by {
            lemma_clustered_too(rest, c, x, m);
            assert(is_clustered(rest, m) <==> holds(before, m));
            if holds(before, m) {
                let i = choose|i: int| 0 <= i < before.len() && #[trigger] before[i] == m;
                assert(now[i] == m);
            }
            if m == x {
                assert(now[n - 1] == m);
            }
            if holds(now, m) && m != x {
                let i = choose|i: int| 0 <= i < now.len() && #[trigger] now[i] == m;
                assert(before[i] == m);
            }
        }
    }
}

// ---------------------------------------------------------------- regions

/// Whether a sample was clipped by the instrument: its size is at least 1 - 1e-9.
pub open spec fn is_clipped(v: Quantity) -> bool {
    let size = if v.bits >= 0x8000_0000_0000_0000 {
        v.bits - 0x8000_0000_0000_0000
    } else {
        v.bits as int
    };
    0x3fef_ffff_ff76_8fa1 <= size <= 0x7ff0_0000_0000_0000
}

/// Whether a sample from `start` up to, but not including, `end` was clipped.
pub open spec fn has_clipped(wave: Seq<Quantity>, start: int, end: int) -> bool {
    exists|k: int| start <= k < end && is_clipped(#[trigger] wave[k])
}

proof fn lemma_clipped(wave: Seq<Quantity>, start: int, end: int)
    ensures
        crate::signal::saturated_within(wave, start, end) <==> has_clipped(wave, start, end),
{
    if crate::signal::saturated_within(wave, start, end) {
        let k = choose|k: int| start <= k < end && crate::signal::is_saturated(#[trigger] wave[k]);
        assert(is_clipped(wave[k]));
    }
    if has_clipped(wave, start, end) {
        let k = choose|k: int| start <= k < end && is_clipped(#[trigger] wave[k]);
        assert(crate::signal::is_saturated(wave[k]));
    }
}

/// Whether `a` is the last highest, in the total order, of the tops that stand out
/// between `start` and `end`.
pub open spec fn is_anchor(r: Record, level: Quantity, start: int, end: int, a: int) -> bool {
    &&& stands_out(r, level, start, end, a)
    &&& forall|m: int| #[trigger]
        stands_out(r, level, start, end, m) ==> r.env@[m].total_place() <= r.env@[a].total_place()
    &&& forall|m: int| #[trigger]
        stands_out(r, level, start, end, m) && m > a ==> r.env@[m].total_place() < r.env@[a].total_place()
}

/// The clusters of lobes of a region.
spec fn clusters_of(r: Record, level: Quantity, start: int, end: int) -> Seq<Seq<usize>> {
    let s = prominent(r, level, start, end);
    if s.len() == 0 {
        Seq::empty()
    } else {
        region_clusters(r, s, start, end)
    }
}

proof fn lemma_clusters_of(r: Record, level: Quantity, start: int, end: int)
    requires
        r.valid(),
        0 <= start < end <= r.size(),
        r.size() <= usize::MAX,
    ensures
        ({
            let c = clusters_of(r, level, start, end);
            &&& c.len() > 0 <==> exists|m: int| #[trigger] stands_out(r, level, start, end, m)
            &&& are_resolved(c, r.min_sep_samples as int)
            &&& forall|m: int| #[trigger] is_clustered(c, m) ==> stands_out(r, level, start, end, m)
            &&& forall|a: int| #[trigger] is_anchor(r, level, start, end, a) ==> is_clustered(c, a)
            &&& c.len() > 0 ==> exists|a: int| #[trigger] is_anchor(r, level, start, end, a)
            &&& has_clipped(r.wave@, start, end) ==> c.len() <= 1 && (c.len() == 1 ==> c[0].len() == 1)
        }),
{
    let s = prominent(r, level, start, end);
    let c = clusters_of(r, level, start, end);
    let n = s.len() as int;
    lemma_prominent(r, level, start, end);
    lemma_clipped(r.wave@, start, end);
    if n > 0 {
        assert(holds(s, s[0] as int));
        lemma_last_top_highest(r.env@, s, n);
        assert(s.take(n) =~= s);
        let anchor = last_top(r.env@, s, n);
        let found = sorted::<usize>(lobes(r, s, anchor, n));
        lemma_found(r, s, anchor);
        lemma_anchor(r, level, start, end, s, anchor as int);
        if c == seq![seq![anchor]] {
            assert(c[0] == seq![anchor]);
            assert(c[0][0] == anchor);
            assert forall|m: int| #[trigger] is_clustered(c, m) <==> m == anchor by {
                if m == anchor {
                    assert(c[0][0] == m);
                    assert(holds(c[0], m));
                }
            }
        } else {
            lemma_clusters_resolved(found, r.min_sep_samples as int, found.len() as int);
            assert(found.take(found.len() as int) =~= found);
            assert forall|m: int| #[trigger] is_clustered(c, m) implies holds(s, m) by {
                assert(holds(found, m));
            }
            assert(holds(found, anchor as int));
            assert(is_clustered(c, anchor as int));
        }
        assert forall|a: int| #[trigger] is_anchor(r, level, start, end, a) implies a == anchor by {
            assert(stands_out(r, level, start, end, anchor as int));
            if a < anchor {
                assert(r.env@[anchor as int].total_place() < r.env@[a].total_place());
            } else if anchor < a {
                assert(r.env@[a].total_place() < r.env@[anchor as int].total_place());
            }
        }
    } else {
        assert forall|m: int| !(#[trigger] stands_out(r, level, start, end, m)) by {
            assert(holds(s, m) <==> stands_out(r, level, start, end, m));
        }
    }
}

proof fn lemma_anchor(r: Record, level: Quantity, start: int, end: int, s: Seq<usize>, a: int)
    requires
        is_last_highest_of(r.env@, s, a),
        forall|m: int| #[trigger] holds(s, m) <==> stands_out(r, level, start, end, m),
    ensures
        is_anchor(r, level, start, end, a),
{
    assert forall|m: int| #[trigger] stands_out(r, level, start, end, m) implies r.env@[m].total_place()
        <= r.env@[a].total_place() && (m > a ==> r.env@[m].total_place() < r.env@[a].total_place()) by {
        assert(holds(s, m));
        let i = choose|i: int| 0 <= i < s.len() && #[trigger] s[i] == m;
    }
}

#[verifier::spinoff_prover]
#[verifier::rlimit(60)]
proof fn lemma_found(r: Record, s: Seq<usize>, anchor: usize)
    requires
        ascends(s),
        holds(s, anchor as int),
    ensures
        ({
            let l = lobes(r, s, anchor, s.len() as int);
            let found = sorted::<usize>(l);
            &&& ascends(found)
            &&& found.len() == l.len() > 0
            &&& holds(found, anchor as int)
            &&& forall|m: int| #[trigger] holds(found, m) <==> holds(l, m)
            &&& forall|m: int| #[trigger] holds(found, m) ==> holds(s, m)
        }),
{
    let n = s.len() as int;
    let l = lobes(r, s, anchor, n);
    let found = sorted::<usize>(l);
    lemma_lobes(r, s, anchor, n);
    assert(s.take(n) =~= s);
    sorting_orders_and_keeps_every_item::<usize>(l);
    lemma_sorted_members::<usize>(l);
    let same = |x: usize| x;
    assert(crate::order::distinct(l, same)) by {
        assert forall|i: int, j: int| 0 <= i < j < l.len() implies same(#[trigger] l[i]) != same(#[trigger] l[j]) by {
            if i == 0 {
                assert(l[j] != anchor);
            }
        }
    }
    lemma_sorted_distinct::<usize, usize>(l, same);
    assert forall|i: int, j: int| 0 <= i < j < found.len() implies #[trigger] found[i] < #[trigger] found[j] by {
        assert(<usize as Ranked>::ranks(found[i], found[j]));
        assert(same(found[i]) != same(found[j]));
    }
    assert forall|m: int| #[trigger] holds(found, m) <==> holds(l, m) by {
        if holds(found, m) {
            let i = choose|i: int| 0 <= i < found.len() && #[trigger] found[i] == m;
            assert(found.contains(found[i]));
            let k = choose|k: int| 0 <= k < l.len() && l[k] == found[i];
            assert(l[k] == m);
        }
        if holds(l, m) {
            let i = choose|i: int| 0 <= i < l.len() && #[trigger] l[i] == m;
            assert(l.contains(l[i]));
            assert(found.contains(l[i]));
            let k = choose|k: int| 0 <= k < found.len() && found[k] == l[i];
            assert(found[k] == m);
        }
    }
    assert forall|m: int| #[trigger] holds(found, m) implies holds(s, m) by {
        let i = choose|i: int| 0 <= i < l.len() && #[trigger] l[i] == m;
        if i > 0 {
            assert(holds(s, l[i] as int));
        }
    }
    assert(l[0] == anchor);
    assert(holds(l, anchor as int));
}

proof fn lemma_region_lobes(r: Record, level: Quantity, start: int, end: int, anchor: int, p: int, q: int)
    requires
        r.valid(),
        0 <= start < end <= r.size(),
        r.size() <= usize::MAX,
        !has_clipped(r.wave@, start, end),
        is_anchor(r, level, start, end, anchor),
        stands_out(r, level, start, end, p),
        p != anchor,
        q == anchor || is_clustered(clusters_of(r, level, start, end), q) && q < p,
        gap(q, p) <= gap(anchor, p),
        forall|x: int| #[trigger]
            is_clustered(clusters_of(r, level, start, end), x) && x < p ==> gap(q, p) <= gap(x, p),
        gap(q, p) == gap(anchor, p) ==> q == anchor,
    ensures
        is_clustered(clusters_of(r, level, start, end), p) <==> has_valley(r, p, q),
{
    let s = prominent(r, level, start, end);
    let c = clusters_of(r, level, start, end);
    let n = s.len() as int;
    lemma_prominent(r, level, start, end);
    lemma_clipped(r.wave@, start, end);
    assert(holds(s, p));
    assert(n > 0);
    lemma_last_top_highest(r.env@, s, n);
    assert(s.take(n) =~= s);
    let a = last_top(r.env@, s, n);
    lemma_anchor(r, level, start, end, s, a as int);
    if anchor < a {
        assert(r.env@[a as int].total_place() < r.env@[anchor].total_place());
    } else if a < anchor {
        assert(r.env@[anchor].total_place() < r.env@[a as int].total_place());
    }
    assert(a == anchor);
    let l = lobes(r, s, a, n);
    let found = sorted::<usize>(l);
    lemma_found(r, s, a);
    assert forall|m: int| #[trigger] is_clustered(c, m) <==> holds(l, m) by {
        if found.len() < 2 {
            let i = choose|i: int| 0 <= i < found.len() && #[trigger] found[i] == a as int;
            assert(found =~= seq![a]);
            assert(c[0] == seq![a]);
            if is_clustered(c, m) {
                let i = choose|i: int| 0 <= i < c.len() && holds(#[trigger] c[i], m);
                assert(found[0] == m);
                assert(holds(found, m));
            }
            if holds(found, m) {
                assert(c[0][0] == m);
                assert(holds(c[0], m));
            }
        } else {
            lemma_clusters_resolved(found, r.min_sep_samples as int, found.len() as int);
            assert(found.take(found.len() as int) =~= found);
        }
        assert(holds(found, m) <==> holds(l, m));
    }
    assert forall|i: int| 0 <= i < s.len() implies !r.env@[(#[trigger] s[i]) as int].not_a_number() by {
        assert(holds(s, s[i] as int));
        assert(stands_out(r, level, start, end, s[i] as int));
    }
    assert(is_held_against(l, a as int, p, q)) by {
        assert forall|x: int| #[trigger] holds(l, x) && x < p implies gap(q, p) <= gap(x, p) by {
            assert(is_clustered(c, x));
        }
    }
    lemma_lobe_rule(r, s, a, p, q);
}

// ---------------------------------------------------------------- runs

/// The level that detection starts at: the amplitude threshold, or the SNR threshold
/// times the noise.
pub open spec fn level_of(r: Record, cfg: AnalConfig) -> Quantity {
    if cfg.threshold_mode == ThresholdMode::Amplitude {
        cfg.amp_threshold
    } else {
        r.snr_level
    }
}

/// Whether the smoothed envelope reaches the level at sample `k`.
pub open spec fn reaches(r: Record, level: Quantity, k: int) -> bool {
    level.le(r.smooth@[k])
}

/// Whether the samples from `a` to `b` are a maximal run of the smoothed envelope at
/// or above the level.
pub open spec fn is_run(r: Record, level: Quantity, a: int, b: int) -> bool {
    &&& 0 <= a < b <= r.size()
    &&& forall|k: int| a <= k < b ==> #[trigger] reaches(r, level, k)
    &&& a > 0 ==> !reaches(r, level, a - 1)
    &&& b < r.size() ==> !reaches(r, level, b)
}

/// How many maximal runs start before sample `k`.
pub open spec fn runs_before(r: Record, level: Quantity, k: int) -> int
    decreases k,
{
    if k <= 0 {
        0
    } else if reaches(r, level, k - 1) && (k == 1 || !reaches(r, level, k - 2)) {
        runs_before(r, level, k - 1) + 1
    } else {
        runs_before(r, level, k - 1)
    }
}

proof fn lemma_run_counts_once(r: Record, level: Quantity, a: int, k: int)
    requires
        0 <= a < k <= r.size(),
        forall|j: int| a <= j < k ==> #[trigger] reaches(r, level, j),
        a > 0 ==> !reaches(r, level, a - 1),
    ensures
        runs_before(r, level, k) == runs_before(r, level, a) + 1,
    decreases k - a,
{
    assert(reaches(r, level, k - 1));
    if a < k - 1 {
        assert(reaches(r, level, k - 2));
        lemma_run_counts_once(r, level, a, k - 1);
    }
}

/// Whether the search for regions can go on at sample `k`: no run goes on across it.
spec fn is_border(r: Record, level: Quantity, k: int) -> bool {
    0 < k < r.size() ==> !reaches(r, level, k) || !reaches(r, level, k - 1)
}

proof fn lemma_regions(r: Record, level: Quantity, k: int, idx: int, i: int)
    requires
        r.valid(),
        0 <= k,
        is_border(r, level, k),
        0 <= i < echoes(r, level, k, idx).len(),
    ensures
        ({
            let s = echoes(r, level, k, idx);
            let e = s[i];
            &&& is_run(r, level, e.start, e.end)
            &&& e.start >= k
            &&& 0 <= e.place < clusters_of(r, level, e.start, e.end).len()
            &&& e.lobes == clusters_of(r, level, e.start, e.end)[e.place]
            &&& e.region == idx + runs_before(r, level, e.start) - runs_before(r, level, k)
            &&& e.place == 0 <==> i == 0 || s[i - 1].start != e.start
            &&& e.place > 0 ==> i > 0 && s[i - 1].place == e.place - 1 && s[i - 1].start == e.start
        }),
    decreases r.size() - k,
{
    let s = echoes(r, level, k, idx);
    if k >= r.size() {
        assert(s.len() == 0);
    } else if !level.le(r.smooth@[k]) {
        assert(!reaches(r, level, k));
        assert(s == echoes(r, level, k + 1, idx));
        lemma_regions(r, level, k + 1, idx, i);
        assert(runs_before(r, level, k + 1) == runs_before(r, level, k));
    } else {
        lemma_run_end(r.smooth@, level, k, r.size());
        let end = run_end(r.smooth@, level, k, r.size());
        let here = region_echoes(r, level, k, end, idx);
        let rest = echoes(r, level, end, idx + 1);
        assert(s == here + rest);
        assert(reaches(r, level, k));
        assert forall|j: int| k <= j < end implies #[trigger] reaches(r, level, j) by {
            assert(level.le(r.smooth@[j]));
        }
        assert(is_run(r, level, k, end));
        lemma_run_counts_once(r, level, k, end);
        if i < here.len() {
            assert(s[i] == here[i]);
            if i > 0 {
                assert(s[i - 1] == here[i - 1]);
            }
        } else {
            assert(s[i] == rest[i - here.len()]);
            lemma_regions(r, level, end, idx + 1, i - here.len());
            if i > here.len() {
                assert(s[i - 1] == rest[i - here.len() - 1]);
            } else if i > 0 {
                assert(s[i - 1] == here[i - 1]);
            }
        }
    }
}

proof fn lemma_run_found(r: Record, level: Quantity, k: int, idx: int, a: int, b: int, place: int) -> (i: int)
    requires
        r.valid(),
        0 <= k <= a,
        is_border(r, level, k),
        is_run(r, level, a, b),
        0 <= place < clusters_of(r, level, a, b).len(),
    ensures
        0 <= i < echoes(r, level, k, idx).len(),
        echoes(r, level, k, idx)[i].start == a,
        echoes(r, level, k, idx)[i].end == b,
        echoes(r, level, k, idx)[i].place == place,
    decreases r.size() - k,
{
    let s = echoes(r, level, k, idx);
    if !level.le(r.smooth@[k]) {
        assert(!reaches(r, level, k));
        if k == a {
            assert(reaches(r, level, a));
        }
        assert(s == echoes(r, level, k + 1, idx));
        lemma_run_found(r, level, k + 1, idx, a, b, place)
    } else {
        lemma_run_end(r.smooth@, level, k, r.size());
        let end = run_end(r.smooth@, level, k, r.size());
        let here = region_echoes(r, level, k, end, idx);
        let rest = echoes(r, level, end, idx + 1);
        assert(s == here + rest);
        assert(reaches(r, level, k));
        if a == k {
            if b < end {
                assert(level.le(r.smooth@[b]));
                assert(reaches(r, level, b));
            } else if end < b {
                assert(reaches(r, level, end));
            }
            assert(s[place] == here[place]);
            place
        } else {
            if a < end {
                assert(level.le(r.smooth@[a - 1]));
                assert(reaches(r, level, a - 1));
            }
            let j = lemma_run_found(r, level, end, idx + 1, a, b, place);
            assert(s[here.len() + j] == rest[j]);
            here.len() + j
        }
    }
}

// ---------------------------------------------------------------- candidates before splits

/// The samples of the member peaks of a candidate.
pub open spec fn samples_of(c: CandidateModel) -> Seq<usize> {
    Seq::new(c.members.len(), |i: int| c.members[i].peak_sample)
}

/// Whether a candidate is what its run shows: the run is maximal; its members are tops
/// that stand out in the run, in ascending order, with the envelope and the SNR
/// there; it is composite if there are several; and its peak is the last highest of
/// its members.
pub open spec fn shows_its_run(r: Record, level: Quantity, c: CandidateModel) -> bool {
    &&& is_run(r, level, c.start_sample, c.end_sample)
    &&& c.members.len() > 0
    &&& ascends(samples_of(c))
    &&& forall|i: int|
        0 <= i < c.members.len() ==> {
            let m = #[trigger] c.members[i];
            &&& stands_out(r, level, c.start_sample, c.end_sample, m.peak_sample as int)
            &&& m.amp == r.env@[m.peak_sample as int]
            &&& m.snr == r.snr@[m.peak_sample as int]
        }
    &&& c.composite <==> c.members.len() > 1
    &&& is_last_highest_of(r.env@, samples_of(c), c.peak_sample)
}

proof fn lemma_raw(r: Record, gates: Seq<Gate>, cfg: AnalConfig, i: int)
    requires
        r.valid(),
        0 <= i < crate::signal::raw_candidates(r, gates, cfg).len(),
    ensures
        ({
            let c = crate::signal::raw_candidates(r, gates, cfg)[i];
            let e = echoes(r, level_of(r, cfg), 0, 0)[i];
            &&& c.start_sample == e.start
            &&& c.end_sample == e.end
            &&& samples_of(c) == e.lobes
            &&& is_run(r, level_of(r, cfg), e.start, e.end)
            &&& 0 <= e.place < clusters_of(r, level_of(r, cfg), e.start, e.end).len()
            &&& e.lobes == clusters_of(r, level_of(r, cfg), e.start, e.end)[e.place]
            &&& shows_its_run(r, level_of(r, cfg), c)
        }),
{
    let level = level_of(r, cfg);
    assert(level == crate::signal::detection_level(r, cfg));
    let c = crate::signal::raw_candidates(r, gates, cfg)[i];
    let e = echoes(r, level, 0, 0)[i];
    crate::signal_laws::lemma_size(r);
    lemma_regions(r, level, 0, 0, i);
    lemma_clusters_of(r, level, e.start, e.end);
    let cl = clusters_of(r, level, e.start, e.end);
    assert(samples_of(c) =~= e.lobes);
    assert(cl[e.place].len() > 0 && ascends(cl[e.place]));
    lemma_last_top_highest(r.env@, e.lobes, e.lobes.len() as int);
    assert(e.lobes.take(e.lobes.len() as int) =~= e.lobes);
    assert forall|k: int| 0 <= k < c.members.len() implies {
        let m = #[trigger] c.members[k];
        &&& stands_out(r, level, c.start_sample, c.end_sample, m.peak_sample as int)
        &&& m.amp == r.env@[m.peak_sample as int]
        &&& m.snr == r.snr@[m.peak_sample as int]
    } by {
        assert(c.members[k].peak_sample == e.lobes[k]);
        assert(holds(e.lobes, e.lobes[k] as int));
        assert(holds(cl[e.place], e.lobes[k] as int));
        assert(is_clustered(cl, e.lobes[k] as int));
    }
}

/// Every candidate before manual splits is what its run shows: in particular its peak
/// is the highest of its members.
pub proof fn candidates_peak_at_their_highest_member(r: Record, gates: Seq<Gate>, cfg: AnalConfig)
    requires
        r.valid(),
    ensures
        forall|i: int|
            0 <= i < crate::signal::raw_candidates(r, gates, cfg).len() ==> shows_its_run(
                r,
                level_of(r, cfg),
                #[trigger] crate::signal::raw_candidates(r, gates, cfg)[i],
            ),
{
    assert forall|i: int| 0 <= i < crate::signal::raw_candidates(r, gates, cfg).len() implies shows_its_run(
        r,
        level_of(r, cfg),
        #[trigger] crate::signal::raw_candidates(r, gates, cfg)[i],
    ) by {
        lemma_raw(r, gates, cfg, i);
    }
}

/// Whether sample `m` is a member of a candidate for the run that starts at `a`.
pub open spec fn is_lobe_of(raw: Seq<CandidateModel>, a: int, m: int) -> bool {
    exists|i: int| 0 <= i < raw.len() && (#[trigger] raw[i]).start_sample == a && holds(samples_of(raw[i]), m)
}

proof fn lemma_lobe_of(r: Record, gates: Seq<Gate>, cfg: AnalConfig, a: int, b: int, m: int)
    requires
        r.valid(),
        is_run(r, level_of(r, cfg), a, b),
    ensures
        is_lobe_of(crate::signal::raw_candidates(r, gates, cfg), a, m) <==> is_clustered(
            clusters_of(r, level_of(r, cfg), a, b),
            m,
        ),
{
    let level = level_of(r, cfg);
    let raw = crate::signal::raw_candidates(r, gates, cfg);
    let c = clusters_of(r, level, a, b);
    assert(level == crate::signal::detection_level(r, cfg));
    if is_lobe_of(raw, a, m) {
        let i = choose|i: int|
            0 <= i < raw.len() && (#[trigger] raw[i]).start_sample == a && holds(samples_of(raw[i]), m);
        lemma_raw(r, gates, cfg, i);
        lemma_one_run(r, level, a, b, raw[i].end_sample);
        assert(holds(c[echoes(r, level, 0, 0)[i].place], m));
    }
    if is_clustered(c, m) {
        let p = choose|p: int| 0 <= p < c.len() && holds(#[trigger] c[p], m);
        let i = lemma_run_found(r, level, 0, 0, a, b, p);
        lemma_raw(r, gates, cfg, i);
        assert(raw[i].start_sample == a && holds(samples_of(raw[i]), m));
    }
}

proof fn lemma_one_run(r: Record, level: Quantity, a: int, b: int, d: int)
    requires
        is_run(r, level, a, b),
        is_run(r, level, a, d),
    ensures
        b == d,
{
    if b < d {
        assert(reaches(r, level, b));
    } else if d < b {
        assert(reaches(r, level, d));
    }
}

/// No run with a top that stands out is missed: a candidate covers it, and the highest
/// of those tops is one of the members found there.
pub proof fn every_run_with_a_top_is_found(r: Record, gates: Seq<Gate>, cfg: AnalConfig, a: int, b: int, m: int)
    requires
        r.valid(),
        is_run(r, level_of(r, cfg), a, b),
        stands_out(r, level_of(r, cfg), a, b, m),
    ensures
        exists|i: int|
            0 <= i < crate::signal::raw_candidates(r, gates, cfg).len() && (#[trigger] crate::signal::raw_candidates(
                r,
                gates,
                cfg,
            )[i]).start_sample == a && crate::signal::raw_candidates(r, gates, cfg)[i].end_sample == b,
        forall|h: int| #[trigger]
            is_anchor(r, level_of(r, cfg), a, b, h) ==> is_lobe_of(crate::signal::raw_candidates(r, gates, cfg), a, h),
        exists|h: int| #[trigger] is_anchor(r, level_of(r, cfg), a, b, h),
{
    let level = level_of(r, cfg);
    assert(level == crate::signal::detection_level(r, cfg));
    crate::signal_laws::lemma_size(r);
    lemma_clusters_of(r, level, a, b);
    let i = lemma_run_found(r, level, 0, 0, a, b, 0);
    lemma_raw(r, gates, cfg, i);
    assert(crate::signal::raw_candidates(r, gates, cfg)[i].start_sample == a);
    assert forall|h: int| #[trigger] is_anchor(r, level, a, b, h) implies is_lobe_of(
        crate::signal::raw_candidates(r, gates, cfg),
        a,
        h,
    ) by {
        lemma_lobe_of(r, gates, cfg, a, b, h);
    }
}

/// A run in which a sample was clipped is one echo: it has at most one candidate, with
/// one member.
pub proof fn clipped_runs_are_one_echo(r: Record, gates: Seq<Gate>, cfg: AnalConfig, i: int, j: int)
    requires
        r.valid(),
        0 <= i < crate::signal::raw_candidates(r, gates, cfg).len(),
        0 <= j < crate::signal::raw_candidates(r, gates, cfg).len(),
        ({
            let c = crate::signal::raw_candidates(r, gates, cfg)[i];
            &&& has_clipped(r.wave@, c.start_sample, c.end_sample)
            &&& crate::signal::raw_candidates(r, gates, cfg)[j].start_sample == c.start_sample
        }),
    ensures
        i == j,
        crate::signal::raw_candidates(r, gates, cfg)[i].members.len() == 1,
        !crate::signal::raw_candidates(r, gates, cfg)[i].composite,
{
    let level = level_of(r, cfg);
    assert(level == crate::signal::detection_level(r, cfg));
    crate::signal_laws::lemma_size(r);
    lemma_raw(r, gates, cfg, i);
    lemma_raw(r, gates, cfg, j);
    let all = echoes(r, level, 0, 0);
    lemma_one_run(r, level, all[i].start, all[i].end, all[j].end);
    lemma_clusters_of(r, level, all[i].start, all[i].end);
    assert(samples_of(crate::signal::raw_candidates(r, gates, cfg)[i]).len() == 1);
    crate::signal_laws::lemma_echoes(r, level, 0, 0);
    if i < j {
        assert(crate::signal_laws::comes_before(all[i], all[j]));
    } else if j < i {
        assert(crate::signal_laws::comes_before(all[j], all[i]));
    }
}

/// Members of one candidate follow each other closer than can be resolved; from the
/// last member of a candidate to the first of a later one in the same run it is at
/// least as far as can be resolved.
pub proof fn candidates_are_what_can_be_resolved(r: Record, gates: Seq<Gate>, cfg: AnalConfig, i: int, j: int)
    requires
        r.valid(),
        0 <= i < j < crate::signal::raw_candidates(r, gates, cfg).len(),
    ensures
        ({
            let a = crate::signal::raw_candidates(r, gates, cfg)[i];
            let b = crate::signal::raw_candidates(r, gates, cfg)[j];
            &&& is_close(samples_of(a), r.min_sep_samples as int)
            &&& is_close(samples_of(b), r.min_sep_samples as int)
            &&& a.start_sample == b.start_sample || a.end_sample < b.start_sample
            &&& a.start_sample == b.start_sample ==> samples_of(b)[0] - samples_of(a).last() >= r.min_sep_samples
                && samples_of(b)[0] > samples_of(a).last()
        }),
{
    let level = level_of(r, cfg);
    assert(level == crate::signal::detection_level(r, cfg));
    crate::signal_laws::lemma_size(r);
    lemma_raw(r, gates, cfg, i);
    lemma_raw(r, gates, cfg, j);
    let all = echoes(r, level, 0, 0);
    lemma_clusters_of(r, level, all[i].start, all[i].end);
    lemma_clusters_of(r, level, all[j].start, all[j].end);
    crate::signal_laws::lemma_echoes(r, level, 0, 0);
    assert(crate::signal_laws::comes_before(all[i], all[j]));
    if all[i].start == all[j].start {
        lemma_one_run(r, level, all[i].start, all[i].end, all[j].end);
        assert(all[i].region == all[j].region) by {
            lemma_regions(r, level, 0, 0, i);
            lemma_regions(r, level, 0, 0, j);
        }
    } else if all[i].end == all[j].start {
        assert(reaches(r, level, all[i].end));
        assert(all[i].end < r.size());
    }
}

/// The lobes of a run without a clipped sample are its highest top and every other
/// top that stands out and has a valley between it and the lobe that it is held
/// against: the nearest to it among the highest top and the lobes before it.
pub proof fn lobes_have_a_valley_between_them(
    r: Record,
    gates: Seq<Gate>,
    cfg: AnalConfig,
    a: int,
    b: int,
    anchor: int,
    p: int,
    q: int,
)
    requires
        r.valid(),
        is_run(r, level_of(r, cfg), a, b),
        !has_clipped(r.wave@, a, b),
        is_anchor(r, level_of(r, cfg), a, b, anchor),
        stands_out(r, level_of(r, cfg), a, b, p),
        p != anchor,
        q == anchor || is_lobe_of(crate::signal::raw_candidates(r, gates, cfg), a, q) && q < p,
        gap(q, p) <= gap(anchor, p),
        gap(q, p) == gap(anchor, p) ==> q == anchor,
        forall|x: int| #[trigger]
            is_lobe_of(crate::signal::raw_candidates(r, gates, cfg), a, x) && x < p ==> gap(q, p) <= gap(x, p),
    ensures
        is_lobe_of(crate::signal::raw_candidates(r, gates, cfg), a, p) <==> has_valley(r, p, q),
{
    let level = level_of(r, cfg);
    crate::signal_laws::lemma_size(r);
    lemma_lobe_of(r, gates, cfg, a, b, p);
    lemma_lobe_of(r, gates, cfg, a, b, q);
    assert forall|x: int| #[trigger] is_clustered(clusters_of(r, level, a, b), x) && x < p implies gap(q, p) <= gap(
        x,
        p,
    ) by {
        lemma_lobe_of(r, gates, cfg, a, b, x);
    }
    lemma_region_lobes(r, level, a, b, anchor, p, q);
}

/// A candidate is named after its run and its place in it: the number of runs that
/// start before it, and the number of candidates before it in its run.
pub proof fn keys_count_runs_and_places(r: Record, gates: Seq<Gate>, cfg: AnalConfig, i: int)
    requires
        r.valid(),
        0 <= i < crate::signal::raw_candidates(r, gates, cfg).len(),
    ensures
        ({
            let raw = crate::signal::raw_candidates(r, gates, cfg);
            let c = raw[i];
            let head = "r"@ + crate::text::digits(runs_before(r, level_of(r, cfg), c.start_sample) as nat) + "c"@;
            &&& i == 0 || raw[i - 1].start_sample != c.start_sample ==> c.key == head + crate::text::digits(0)
            &&& i > 0 && raw[i - 1].start_sample == c.start_sample ==> exists|n: nat|
                raw[i - 1].key == head + #[trigger] crate::text::digits(n) && c.key == head + crate::text::digits(n + 1)
        }),
{
    let level = level_of(r, cfg);
    assert(level == crate::signal::detection_level(r, cfg));
    let raw = crate::signal::raw_candidates(r, gates, cfg);
    let all = echoes(r, level, 0, 0);
    lemma_raw(r, gates, cfg, i);
    lemma_regions(r, level, 0, 0, i);
    assert(runs_before(r, level, 0) == 0);
    if i > 0 && raw[i - 1].start_sample == raw[i].start_sample {
        lemma_raw(r, gates, cfg, i - 1);
        lemma_regions(r, level, 0, 0, i - 1);
        let n = all[i - 1].place as nat;
        assert(all[i].place == n + 1);
        let head = "r"@ + crate::text::digits(runs_before(r, level, all[i].start) as nat) + "c"@;
        assert(raw[i - 1].key == head + crate::text::digits(n));
        assert(raw[i].key == head + crate::text::digits(n + 1));
    }
}

// ---------------------------------------------------------------- manual splits

/// Whether `t` is the last highest, in the total order, of the samples from `start`
/// to `end`.
pub open spec fn is_last_highest(env: Seq<Quantity>, start: int, end: int, t: int) -> bool {
    &&& start <= t < end
    &&& forall|k: int| start <= k < end ==> (#[trigger] env[k]).total_place() <= env[t].total_place()
    &&& forall|k: int| t < k < end ==> (#[trigger] env[k]).total_place() < env[t].total_place()
}

proof fn lemma_range_top_highest(env: Seq<Quantity>, start: int, end: int)
    requires
        start < end,
    ensures
        is_last_highest(env, start, end, crate::signal::range_top(env, start, end)),
    decreases end - start,
{
    if start + 1 < end {
        lemma_range_top_highest(env, start, end - 1);
    }
}

/// Whether a candidate was made from the waveform: everything about it follows from
/// its interval and its peak, and a part of a split peaks at its highest sample.
spec fn well_made(
    r: Record,
    gates: Seq<Gate>,
    cfg: AnalConfig,
    depth: Option<Seq<Quantity>>,
    c: CandidateModel,
) -> bool {
    &&& 0 <= c.start_sample <= c.peak_sample < c.end_sample <= r.size()
    &&& c == crate::signal::made(
        c.key,
        c.start_sample,
        c.end_sample,
        c.peak_sample,
        r,
        gates,
        cfg,
        c.composite,
        c.members,
        depth,
        c.parent_key,
    )
    &&& c.parent_key is Some ==> {
        &&& is_last_highest(r.env@, c.start_sample, c.end_sample, c.peak_sample)
        &&& c.members.len() == 0
        &&& !c.composite
    }
}

proof fn lemma_parts_made(
    parent: CandidateModel,
    b: Seq<usize>,
    r: Record,
    gates: Seq<Gate>,
    cfg: AnalConfig,
    depth: Option<Seq<Quantity>>,
    n: int,
)
    requires
        n < b.len(),
        forall|i: int| 0 <= i < b.len() ==> #[trigger] b[i] <= r.size(),
    ensures
        forall|i: int|
            0 <= i < crate::signal::parts(parent, b, r, gates, cfg, depth, n).len() ==> well_made(
                r,
                gates,
                cfg,
                depth,
                #[trigger] crate::signal::parts(parent, b, r, gates, cfg, depth, n)[i],
            ),
    decreases n,
{
    if n > 0 {
        lemma_parts_made(parent, b, r, gates, cfg, depth, n - 1);
        let (s, e) = (b[n - 1] as int, b[n] as int);
        if s < e {
            lemma_range_top_highest(r.env@, s, e);
        }
        let rest = crate::signal::parts(parent, b, r, gates, cfg, depth, n - 1);
        let out = crate::signal::parts(parent, b, r, gates, cfg, depth, n);
        assert forall|i: int| 0 <= i < out.len() implies well_made(r, gates, cfg, depth, #[trigger] out[i]) by {
            if i < rest.len() {
                assert(out[i] == rest[i]);
            }
        }
    }
}

proof fn lemma_split_parts_made(
    parent: CandidateModel,
    cuts: Seq<usize>,
    r: Record,
    gates: Seq<Gate>,
    cfg: AnalConfig,
    depth: Option<Seq<Quantity>>,
    i: int,
)
    requires
        0 <= parent.start_sample < parent.end_sample <= r.size(),
        r.size() <= usize::MAX,
        0 <= i < crate::signal::split_parts(parent, cuts, r, gates, cfg, depth).len(),
    ensures
        well_made(r, gates, cfg, depth, crate::signal::split_parts(parent, cuts, r, gates, cfg, depth)[i]),
{
    let (start, end) = (parent.start_sample as usize, parent.end_sample as usize);
    let b = crate::signal::bounds(cuts, start, end);
    crate::signal_laws::lemma_bounds_below(cuts, start, end);
    assert forall|k: int| 0 <= k < b.len() implies #[trigger] b[k] <= r.size() by {
        assert(b[k] <= end);
    }
    lemma_parts_made(parent, b, r, gates, cfg, depth, b.len() - 1);
}

/// Each part of a split peaks at the highest of its samples, the last of them where
/// several are equally high, and is measured there: amplitude, SNR, range, time and
/// depth are those of that sample.
pub proof fn parts_peak_at_their_highest_sample(
    parent: CandidateModel,
    cuts: Seq<usize>,
    r: Record,
    gates: Seq<Gate>,
    cfg: AnalConfig,
    depth: Option<Seq<Quantity>>,
    i: int,
)
    requires
        0 <= parent.start_sample < parent.end_sample <= r.size(),
        0 <= i < crate::signal::split_parts(parent, cuts, r, gates, cfg, depth).len(),
    ensures
        ({
            let c = crate::signal::split_parts(parent, cuts, r, gates, cfg, depth)[i];
            &&& is_last_highest(r.env@, c.start_sample, c.end_sample, c.peak_sample)
            &&& c.amp == r.env@[c.peak_sample]
            &&& c.snr == r.snr@[c.peak_sample]
            &&& c.range_mm == r.range_mm@[c.peak_sample]
            &&& c.time_ns == r.time_ns@[c.peak_sample]
            &&& depth matches Some(d) ==> c.depth_mm == Some(d[c.peak_sample])
            &&& depth is None ==> c.depth_mm is None
            &&& !c.composite && c.members.len() == 0 && c.manual_split && c.parent_key == Some(parent.key)
        }),
{
    crate::signal_laws::lemma_size(r);
    lemma_split_parts_made(parent, cuts, r, gates, cfg, depth, i);
    crate::signal_laws::splits_tile_their_parent(parent, cuts, r, gates, cfg, depth);
    assert(crate::signal::split_parts(parent, cuts, r, gates, cfg, depth)[i].manual_split);
}

proof fn lemma_split_up_made(
    raw: Seq<CandidateModel>,
    splits: Seq<SplitModel>,
    r: Record,
    gates: Seq<Gate>,
    cfg: AnalConfig,
    depth: Option<Seq<Quantity>>,
    n: int,
)
    requires
        r.size() <= usize::MAX,
        0 <= n <= splits.len(),
        forall|i: int| 0 <= i < raw.len() ==> well_made(r, gates, cfg, depth, #[trigger] raw[i]),
    ensures
        forall|i: int|
            0 <= i < crate::signal::split_up(raw, splits, r, gates, cfg, depth, n).len() ==> well_made(
                r,
                gates,
                cfg,
                depth,
                #[trigger] crate::signal::split_up(raw, splits, r, gates, cfg, depth, n)[i],
            ) && crate::signal::split_up(raw, splits, r, gates, cfg, depth, n)[i].parent_key is Some,
    decreases n,
{
    if n > 0 {
        lemma_split_up_made(raw, splits, r, gates, cfg, depth, n - 1);
        let rest = crate::signal::split_up(raw, splits, r, gates, cfg, depth, n - 1);
        let out = crate::signal::split_up(raw, splits, r, gates, cfg, depth, n);
        let p = crate::signal::keyed(splits[n - 1].parent_key);
        lemma_search(raw, p);
        if let Some(k) = first_where(raw, p) {
            let kids = crate::signal::split_parts(raw[k], splits[n - 1].cuts, r, gates, cfg, depth);
            assert(well_made(r, gates, cfg, depth, raw[k]));
            crate::signal_laws::splits_tile_their_parent(raw[k], splits[n - 1].cuts, r, gates, cfg, depth);
            assert(out == rest + kids);
            assert forall|i: int| 0 <= i < out.len() implies well_made(r, gates, cfg, depth, #[trigger] out[i])
                && out[i].parent_key is Some by {
                if i < rest.len() {
                    assert(out[i] == rest[i]);
                } else {
                    assert(out[i] == kids[i - rest.len()]);
                    lemma_split_parts_made(raw[k], splits[n - 1].cuts, r, gates, cfg, depth, i - rest.len());
                }
            }
        }
    }
}

proof fn lemma_kids_kept(
    raw: Seq<CandidateModel>,
    splits: Seq<SplitModel>,
    r: Record,
    gates: Seq<Gate>,
    cfg: AnalConfig,
    depth: Option<Seq<Quantity>>,
    n: int,
    j: int,
    k: int,
    c: CandidateModel,
)
    requires
        0 <= j < n <= splits.len(),
        first_where(raw, crate::signal::keyed(splits[j].parent_key)) == Some(k),
        crate::signal::split_parts(raw[k], splits[j].cuts, r, gates, cfg, depth).contains(c),
    ensures
        crate::signal::split_up(raw, splits, r, gates, cfg, depth, n).contains(c),
    decreases n,
{
    let rest = crate::signal::split_up(raw, splits, r, gates, cfg, depth, n - 1);
    let out = crate::signal::split_up(raw, splits, r, gates, cfg, depth, n);
    if j == n - 1 {
        let kids = crate::signal::split_parts(raw[k], splits[j].cuts, r, gates, cfg, depth);
        let x = choose|x: int| 0 <= x < kids.len() && kids[x] == c;
        assert(out[rest.len() + x] == c);
    } else {
        lemma_kids_kept(raw, splits, r, gates, cfg, depth, n - 1, j, k, c);
        let x = choose|x: int| 0 <= x < rest.len() && rest[x] == c;
        assert(out[x] == c);
    }
}

proof fn lemma_found_made(r: Record, gates: Seq<Gate>, cfg: AnalConfig, splits: Seq<SplitModel>, c: CandidateModel)
    requires
        r.valid(),
        crate::signal::found_candidates(r, gates, cfg, splits).contains(c),
    ensures
        well_made(
            r,
            gates,
            cfg,
            crate::signal::depths(r, echoes(r, level_of(r, cfg), 0, 0), gates),
            c,
        ),
        c.manual_split <==> c.parent_key is Some,
        c.parent_key is None ==> crate::signal::raw_candidates(r, gates, cfg).contains(c) && shows_its_run(
            r,
            level_of(r, cfg),
            c,
        ),
{
    let level = level_of(r, cfg);
    assert(level == crate::signal::detection_level(r, cfg));
    crate::signal_laws::lemma_size(r);
    let all = echoes(r, level, 0, 0);
    let depth = crate::signal::depths(r, all, gates);
    let raw = crate::signal::raw_candidates(r, gates, cfg);
    crate::signal_laws::lemma_echoes(r, level, 0, 0);
    assert forall|i: int| 0 <= i < raw.len() implies well_made(r, gates, cfg, depth, #[trigger] raw[i]) by {
        assert(crate::signal::echo_fits(r, all[i]));
        crate::signal_laws::lemma_top_within(r.env@, all[i].lobes, all[i].start, all[i].end);
    }
    let a = crate::signal::split_up(raw, splits, r, gates, cfg, depth, splits.len() as int);
    let b = crate::signal::unsplit(raw, splits, raw.len() as int);
    lemma_split_up_made(raw, splits, r, gates, cfg, depth, splits.len() as int);
    lemma_sorted_members::<Candidate>(a + b);
    assert((a + b).contains(c));
    let i = choose|i: int| 0 <= i < (a + b).len() && (a + b)[i] == c;
    if i < a.len() {
        assert(a[i] == c);
    } else {
        assert(b[i - a.len()] == c);
        assert(b.contains(c));
        crate::signal_laws::lemma_unsplit_members(raw, splits, raw.len() as int, c);
        assert(raw.take(raw.len() as int) =~= raw);
        let k = choose|k: int| 0 <= k < raw.len() && raw[k] == c;
        lemma_raw(r, gates, cfg, k);
    }
}

/// A candidate of an analysis that was not split by hand is what its run shows, and
/// peaks at the highest of its members; one that was peaks at its highest sample.
pub proof fn found_candidates_peak_at_their_highest(
    r: Record,
    gates: Seq<Gate>,
    cfg: AnalConfig,
    splits: Seq<SplitModel>,
    c: CandidateModel,
)
    requires
        r.valid(),
        crate::signal::found_candidates(r, gates, cfg, splits).contains(c),
    ensures
        !c.manual_split ==> shows_its_run(r, level_of(r, cfg), c),
        c.manual_split ==> is_last_highest(r.env@, c.start_sample, c.end_sample, c.peak_sample) && c.members.len() == 0
            && !c.composite,
{
    lemma_found_made(r, gates, cfg, splits, c);
}

/// Whether `id` is that of the first gate whose interval, closed on the left and open
/// on the right, holds the sample; it is none where no gate does.
pub open spec fn is_gate_at(gates: Seq<Gate>, sample: int, id: Option<Seq<char>>) -> bool {
    match id {
        Some(name) => exists|g: int|
            {
                &&& 0 <= g < gates.len()
                &&& (#[trigger] gates[g]).id@ == name
                &&& gates[g].start <= sample < gates[g].end
                &&& forall|h: int| 0 <= h < g ==> !((#[trigger] gates[h]).start <= sample < gates[h].end)
            },
        None => forall|h: int| 0 <= h < gates.len() ==> !((#[trigger] gates[h]).start <= sample < gates[h].end),
    }
}

/// Every candidate is measured at its peak, lies in whichever gate holds its peak, is
/// saturated if and only if a sample was clipped from its start to the one behind its
/// interval, bears the velocity and the probe delay in force, and no conclusion.
pub proof fn found_candidates_are_measured_at_their_peak(
    r: Record,
    gates: Seq<Gate>,
    cfg: AnalConfig,
    splits: Seq<SplitModel>,
    c: CandidateModel,
)
    requires
        r.valid(),
        crate::signal::found_candidates(r, gates, cfg, splits).contains(c),
    ensures
        0 <= c.start_sample <= c.peak_sample < c.end_sample <= r.size(),
        c.amp == r.env@[c.peak_sample],
        c.snr == r.snr@[c.peak_sample],
        c.range_mm == r.range_mm@[c.peak_sample],
        c.time_ns == r.time_ns@[c.peak_sample],
        c.depth_mm is None || c.depth_mm == Some(r.depth_mm@[c.peak_sample]),
        is_gate_at(gates, c.peak_sample, c.gate_id),
        c.saturated <==> exists|k: int|
            c.start_sample <= k <= c.end_sample && k < r.size() && is_clipped(#[trigger] r.wave@[k]),
        c.velocity_m_s == cfg.velocity_m_s,
        c.probe_delay_ns == cfg.probe_delay_ns,
        c.verdict is None,
        c.note.len() == 0,
        !c.orphaned,
        c.snapshot_velocity_m_s is None,
        c.snapshot_probe_delay_ns is None,
        c.manual_split <==> c.parent_key is Some,
{
    lemma_found_made(r, gates, cfg, splits, c);
    let p = crate::signal::gate_holding(c.peak_sample);
    lemma_search(gates, p);
    match first_where(gates, p) {
        Some(g) => {
            assert(p(gates[g]));
            assert(gates[g].start <= c.peak_sample < gates[g].end);
            assert forall|h: int| 0 <= h < g implies !((#[trigger] gates[h]).start <= c.peak_sample < gates[h].end) by {
                assert(!p(gates[h]));
            }
        },
        None => {
            assert forall|h: int| 0 <= h < gates.len() implies !((#[trigger] gates[h]).start <= c.peak_sample
                < gates[h].end) by {
                assert(!p(gates[h]));
            }
        },
    }
    let last = crate::signal::saturation_end(c.end_sample, r.size());
    lemma_clipped(r.wave@, c.start_sample, last);
    if has_clipped(r.wave@, c.start_sample, last) {
        let k = choose|k: int| c.start_sample <= k < last && is_clipped(#[trigger] r.wave@[k]);
        assert(is_clipped(r.wave@[k]));
    }
    if exists|k: int| c.start_sample <= k <= c.end_sample && k < r.size() && is_clipped(#[trigger] r.wave@[k]) {
        let k = choose|k: int| c.start_sample <= k <= c.end_sample && k < r.size() && is_clipped(#[trigger] r.wave@[k]);
        assert(c.start_sample <= k < last && is_clipped(r.wave@[k]));
    }
}

/// Whether the bottom echoes all arrive before the surface: there is a candidate with
/// its peak in the first gate with the role of the bottom, and the surface sample is
/// behind every such peak.
pub open spec fn bottom_before_surface(raw: Seq<CandidateModel>, gates: Seq<Gate>, surface: int) -> bool {
    exists|g: int|
        {
            &&& 0 <= g < gates.len()
            &&& (#[trigger] gates[g]).role@ == "bottom"@
            &&& forall|h: int| 0 <= h < g ==> (#[trigger] gates[h]).role@ != "bottom"@
            &&& exists|i: int| 0 <= i < raw.len() && gates[g].start <= (#[trigger] raw[i]).peak_sample < gates[g].end
            &&& forall|i: int|
                0 <= i < raw.len() && gates[g].start <= (#[trigger] raw[i]).peak_sample < gates[g].end
                    ==> raw[i].peak_sample < surface
        }
}

/// There is an error, and no candidate has a depth, if and only if the surface arrives
/// behind the bottom; otherwise every candidate has the depth of its peak.
pub proof fn depths_are_given_unless_the_surface_is_behind_the_bottom(
    r: Record,
    gates: Seq<Gate>,
    cfg: AnalConfig,
    splits: Seq<SplitModel>,
    c: CandidateModel,
)
    requires
        r.valid(),
        crate::signal::found_candidates(r, gates, cfg, splits).contains(c),
    ensures
        ({
            let raw = crate::signal::raw_candidates(r, gates, cfg);
            let behind = bottom_before_surface(raw, gates, r.surface_sample as int);
            &&& behind ==> c.depth_mm is None
            &&& !behind ==> c.depth_mm == Some(r.depth_mm@[c.peak_sample])
            &&& crate::signal::surface_after_bottom(
                r,
                echoes(r, crate::signal::detection_level(r, cfg), 0, 0),
                gates,
            ) <==> behind
        }),
{
    lemma_found_made(r, gates, cfg, splits, c);
    lemma_bottom(r, gates, cfg);
}

proof fn lemma_bottom(r: Record, gates: Seq<Gate>, cfg: AnalConfig)
    ensures
        crate::signal::surface_after_bottom(r, echoes(r, level_of(r, cfg), 0, 0), gates) <==> bottom_before_surface(
            crate::signal::raw_candidates(r, gates, cfg),
            gates,
            r.surface_sample as int,
        ),
{
    let level = level_of(r, cfg);
    assert(level == crate::signal::detection_level(r, cfg));
    let all = echoes(r, level, 0, 0);
    let raw = crate::signal::raw_candidates(r, gates, cfg);
    let p = crate::signal::is_bottom();
    lemma_search(gates, p);
    assert forall|i: int| 0 <= i < all.len() implies (#[trigger] raw[i]).peak_sample == crate::signal::echo_peak(
        r,
        all[i],
    ) by {}
    if crate::signal::surface_after_bottom(r, all, gates) {
        let g = first_where(gates, p)->0;
        assert(p(gates[g]));
        assert forall|h: int| 0 <= h < g implies (#[trigger] gates[h]).role@ != "bottom"@ by {
            assert(!p(gates[h]));
        }
        let i = choose|i: int|
            0 <= i < all.len() && gates[g].holds(crate::signal::echo_peak(r, #[trigger] all[i]));
        assert(gates[g].start <= raw[i].peak_sample < gates[g].end);
        assert forall|i: int|
            0 <= i < raw.len() && gates[g].start <= (#[trigger] raw[i]).peak_sample < gates[g].end implies raw[i].peak_sample
            < r.surface_sample by {
            assert(gates[g].holds(crate::signal::echo_peak(r, all[i])));
        }
    }
    if bottom_before_surface(raw, gates, r.surface_sample as int) {
        let g = choose|g: int|
            {
                &&& 0 <= g < gates.len()
                &&& (#[trigger] gates[g]).role@ == "bottom"@
                &&& forall|h: int| 0 <= h < g ==> (#[trigger] gates[h]).role@ != "bottom"@
                &&& exists|i: int|
                    0 <= i < raw.len() && gates[g].start <= (#[trigger] raw[i]).peak_sample < gates[g].end
                &&& forall|i: int|
                    0 <= i < raw.len() && gates[g].start <= (#[trigger] raw[i]).peak_sample < gates[g].end
                        ==> raw[i].peak_sample < r.surface_sample
            };
        assert(p(gates[g]));
        assert forall|h: int| 0 <= h < g implies !p(#[trigger] gates[h]) by {
            assert(gates[h].role@ != "bottom"@);
        }
        crate::seqs::lemma_first_found(gates, p, g);
        let i = choose|i: int| 0 <= i < raw.len() && gates[g].start <= (#[trigger] raw[i]).peak_sample < gates[g].end;
        assert(gates[g].holds(crate::signal::echo_peak(r, all[i])));
        assert forall|i: int|
            0 <= i < all.len() && gates[g].holds(crate::signal::echo_peak(r, #[trigger] all[i])) implies crate::signal::echo_peak(
            r,
            all[i],
        ) < r.surface_sample by {
            assert(gates[g].start <= raw[i].peak_sample < gates[g].end);
        }
    }
}

/// Whether a part of `p` that covers sample `x` is found.
pub open spec fn is_covered_by_part(found: Seq<CandidateModel>, p: CandidateModel, x: int) -> bool {
    exists|i: int|
        0 <= i < found.len() && (#[trigger] found[i]).parent_key == Some(p.key) && found[i].start_sample <= x
            < found[i].end_sample
}

proof fn lemma_tiles_cover(s: Seq<CandidateModel>, lo: int, hi: int, x: int, n: int) -> (i: int)
    requires
        crate::signal_laws::tiles(s, lo, hi),
        0 <= n < s.len(),
        lo <= x < s[n].end_sample,
    ensures
        0 <= i <= n,
        s[i].start_sample <= x < s[i].end_sample,
    decreases n,
{
    if s[n].start_sample <= x {
        n
    } else {
        assert(n > 0);
        assert(s[n - 1].end_sample == s[n].start_sample);
        lemma_tiles_cover(s, lo, hi, x, n - 1)
    }
}

/// A candidate that is split by hand is found as parts that cover all of its samples,
/// and each other candidate is found as it is.
pub proof fn splits_lose_no_sample(
    r: Record,
    gates: Seq<Gate>,
    cfg: AnalConfig,
    splits: Seq<SplitModel>,
    k: int,
    j: int,
    x: int,
)
    requires
        r.valid(),
        0 <= k < crate::signal::raw_candidates(r, gates, cfg).len(),
        0 <= j < splits.len(),
        splits[j].parent_key == crate::signal::raw_candidates(r, gates, cfg)[k].key,
        ({
            let p = crate::signal::raw_candidates(r, gates, cfg)[k];
            p.start_sample <= x < p.end_sample
        }),
    ensures
        is_covered_by_part(
            crate::signal::found_candidates(r, gates, cfg, splits),
            crate::signal::raw_candidates(r, gates, cfg)[k],
            x,
        ),
        forall|c: CandidateModel| #[trigger]
            crate::signal::found_candidates(r, gates, cfg, splits).contains(c) ==> c.key
                != crate::signal::raw_candidates(r, gates, cfg)[k].key || c.parent_key is Some,
{
    let level = level_of(r, cfg);
    assert(level == crate::signal::detection_level(r, cfg));
    crate::signal_laws::lemma_size(r);
    let depth = crate::signal::depths(r, echoes(r, level, 0, 0), gates);
    let raw = crate::signal::raw_candidates(r, gates, cfg);
    let found = crate::signal::found_candidates(r, gates, cfg, splits);
    let p = raw[k];
    lemma_raw(r, gates, cfg, k);
    let want = crate::signal::keyed(p.key);
    assert(want(raw[k]));
    assert forall|i: int| 0 <= i < k implies !want(#[trigger] raw[i]) by {
        crate::signal_laws::candidate_keys_are_unique(r, gates, cfg, i, k);
    }
    crate::seqs::lemma_first_found(raw, want, k);
    let kids = crate::signal::split_parts(p, splits[j].cuts, r, gates, cfg, depth);
    crate::signal_laws::splits_tile_their_parent(p, splits[j].cuts, r, gates, cfg, depth);
    assert(kids.last() == kids[kids.len() - 1]);
    let i = lemma_tiles_cover(kids, p.start_sample, p.end_sample, x, kids.len() - 1);
    let c = kids[i];
    assert(kids.contains(c));
    lemma_kids_kept(raw, splits, r, gates, cfg, depth, splits.len() as int, j, k, c);
    let a = crate::signal::split_up(raw, splits, r, gates, cfg, depth, splits.len() as int);
    let b = crate::signal::unsplit(raw, splits, raw.len() as int);
    let y = choose|y: int| 0 <= y < a.len() && a[y] == c;
    assert((a + b)[y] == c);
    lemma_sorted_members::<Candidate>(a + b);
    assert((a + b).contains(c));
    assert(found.contains(c));
    let z = choose|z: int| 0 <= z < found.len() && found[z] == c;
    assert(found[z].parent_key == Some(p.key));
    assert forall|c: CandidateModel| #[trigger] found.contains(c) implies c.key != p.key || c.parent_key is Some by {
        crate::signal_laws::splits_replace_their_candidates(r, gates, cfg, splits, c);
        if c.key == p.key {
            assert(crate::signal::is_split(splits, c.key));
        }
    }
}

} // verus!
