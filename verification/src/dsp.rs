//! Waveform statistics used by the adjudication detector.

use vstd::prelude::*;

use crate::quantity::Quantity;

verus! {

/// The last position of the plateau that starts at `j`: the samples from `j` on
/// that each equal the one before.
pub open spec fn plateau_end(e: Seq<Quantity>, j: int) -> int
    decreases e.len() - j,
{
    if j + 1 < e.len() && e[j + 1].equals(e[j]) {
        plateau_end(e, j + 1)
    } else {
        j
    }
}

proof fn lemma_plateau_end(e: Seq<Quantity>, j: int)
    requires
        0 <= j < e.len(),
    ensures
        j <= plateau_end(e, j) < e.len(),
    decreases e.len() - j,
{
    if j + 1 < e.len() && e[j + 1].equals(e[j]) {
        lemma_plateau_end(e, j + 1);
    }
}

/// Whether the plateau from `i` to `j` stands above the samples on both sides.
pub open spec fn is_summit(e: Seq<Quantity>, i: int, j: int) -> bool {
    &&& 1 <= i <= j
    &&& j + 1 < e.len()
    &&& plateau_end(e, i) == j
    &&& e[i - 1].lt(e[i])
    &&& e[j + 1].lt(e[j])
}

/// The local maxima of `e` from position `i` on, one for each plateau that stands
/// above its neighbours, at its middle sample.
pub open spec fn maxima_from(e: Seq<Quantity>, i: int) -> Seq<int>
    decreases e.len() - i,
    via maxima_from_ends
{
    if i < 1 || i + 1 >= e.len() {
        Seq::empty()
    } else if e[i].lt(e[i - 1]) {
        maxima_from(e, i + 1)
    } else {
        let j = plateau_end(e, i);
        if is_summit(e, i, j) {
            seq![(i + j) / 2] + maxima_from(e, j + 1)
        } else {
            maxima_from(e, j + 1)
        }
    }
}

#[via_fn]
proof fn maxima_from_ends(e: Seq<Quantity>, i: int) {
    if 1 <= i && i + 1 < e.len() {
        lemma_plateau_end(e, i);
    }
}

/// The local maxima of `e`.
pub open spec fn maxima(e: Seq<Quantity>) -> Seq<int> {
    maxima_from(e, 1)
}

proof fn lemma_plateau_flat(e: Seq<Quantity>, i: int, a: int)
    requires
        i < a <= plateau_end(e, i),
    ensures
        e[a].equals(e[a - 1]),
    decreases e.len() - i,
{
    if i + 1 < e.len() && e[i + 1].equals(e[i]) && i + 1 < a {
        lemma_plateau_flat(e, i + 1, a);
    }
}

/// Whether `m` is the middle of a plateau from `i` on that stands above both sides.
pub open spec fn is_middle(e: Seq<Quantity>, i: int, m: int) -> bool {
    exists|a: int, b: int| i <= a && #[trigger] is_summit(e, a, b) && m == (a + b) / 2
}

proof fn lemma_maxima_from(e: Seq<Quantity>, i: int, m: int)
    requires
        1 <= i,
    ensures
        maxima_from(e, i).contains(m) <==> is_middle(e, i, m),
    decreases e.len() - i,
{
    let s = maxima_from(e, i);
    if i + 1 >= e.len() {
        assert(s.len() == 0);
    } else if e[i].lt(e[i - 1]) {
        lemma_maxima_from(e, i + 1, m);
        if is_middle(e, i, m) {
            let (a, b) = choose|a: int, b: int| i <= a && #[trigger] is_summit(e, a, b) && m == (a + b) / 2;
            assert(a != i);
        }
        if is_middle(e, i + 1, m) {
            let (a, b) = choose|a: int, b: int| i + 1 <= a && #[trigger] is_summit(e, a, b) && m == (a + b) / 2;
            assert(i <= a && is_summit(e, a, b));
        }
    } else {
        let j = plateau_end(e, i);
        lemma_plateau_end(e, i);
        lemma_maxima_from(e, j + 1, m);
        let rest = maxima_from(e, j + 1);
        if is_middle(e, i, m) {
            let (a, b) = choose|a: int, b: int| i <= a && #[trigger] is_summit(e, a, b) && m == (a + b) / 2;
            if i < a <= j {
                lemma_plateau_flat(e, i, a);
            }
            if a == i {
                assert(s[0] == m);
            } else {
                assert(is_middle(e, j + 1, m));
                let k = choose|k: int| 0 <= k < rest.len() && rest[k] == m;
                if is_summit(e, i, j) {
                    assert(s[k + 1] == m);
                } else {
                    assert(s[k] == m);
                }
            }
        }
        if s.contains(m) {
            let k = choose|k: int| 0 <= k < s.len() && s[k] == m;
            if is_summit(e, i, j) && k == 0 {
                assert(is_summit(e, i, j) && m == (i + j) / 2);
            } else {
                if is_summit(e, i, j) {
                    assert(rest[k - 1] == m);
                } else {
                    assert(rest[k] == m);
                }
                assert(rest.contains(m));
                let (a, b) = choose|a: int, b: int| j + 1 <= a && #[trigger] is_summit(e, a, b) && m == (a + b) / 2;
                assert(i <= a && is_summit(e, a, b));
            }
        }
    }
}

/// The local maxima are exactly the middles of the plateaus that stand above the
/// samples on both sides.
pub proof fn maxima_are_the_middles_of_summits(e: Seq<Quantity>, m: int)
    ensures
        maxima(e).contains(m) <==> exists|a: int, b: int| #[trigger] is_summit(e, a, b) && m == (a + b) / 2,
{
    lemma_maxima_from(e, 1, m);
    if exists|a: int, b: int| #[trigger] is_summit(e, a, b) && m == (a + b) / 2 {
        let (a, b) = choose|a: int, b: int| #[trigger] is_summit(e, a, b) && m == (a + b) / 2;
        assert(1 <= a && is_summit(e, a, b));
        assert(is_middle(e, 1, m));
    }
}

proof fn lemma_maxima_climb(e: Seq<Quantity>, i: int)
    requires
        1 <= i,
    ensures
        forall|k: int| 0 <= k < maxima_from(e, i).len() ==> i <= #[trigger] maxima_from(e, i)[k],
        forall|k: int, l: int|
            0 <= k < l < maxima_from(e, i).len() ==> #[trigger] maxima_from(e, i)[k] < #[trigger] maxima_from(e, i)[l],
    decreases e.len() - i,
{
    let s = maxima_from(e, i);
    if i + 1 >= e.len() {
        assert(s.len() == 0);
    } else if e[i].lt(e[i - 1]) {
        lemma_maxima_climb(e, i + 1);
        assert(s == maxima_from(e, i + 1));
    } else {
        let j = plateau_end(e, i);
        lemma_plateau_end(e, i);
        lemma_maxima_climb(e, j + 1);
        let rest = maxima_from(e, j + 1);
        if is_summit(e, i, j) {
            assert(s == seq![(i + j) / 2] + rest);
            assert forall|k: int| 0 <= k < s.len() implies i <= #[trigger] s[k] by {
                if k > 0 {
                    assert(s[k] == rest[k - 1]);
                }
            }
            assert forall|k: int, l: int| 0 <= k < l < s.len() implies #[trigger] s[k] < #[trigger] s[l] by {
                assert(s[l] == rest[l - 1]);
                if k > 0 {
                    assert(s[k] == rest[k - 1]);
                }
            }
        } else {
            assert(s == rest);
        }
    }
}

/// The local maxima come in ascending order, each once.
pub proof fn maxima_ascend(e: Seq<Quantity>, k: int, l: int)
    requires
        0 <= k < l < maxima(e).len(),
    ensures
        maxima(e)[k] < maxima(e)[l],
{
    lemma_maxima_climb(e, 1);
}

/// The positions that `v` holds, as integers.
pub open spec fn positions(v: Seq<usize>) -> Seq<int> {
    Seq::new(v.len(), |i: int| v[i] as int)
}

/// Strict local maximum with deterministic plateau handling: a plateau's
/// middle sample is reported as the single representative maximum.
pub fn local_maxima(e: &[Quantity]) -> (out: Vec<usize>)
    ensures
        positions(out@) == maxima(e@),
        forall|k: int| 0 <= k < out@.len() ==> 1 <= #[trigger] out@[k] < e@.len() - 1,
{
    let mut out: Vec<usize> = Vec::new();
    let n: usize = e.len();
    let mut i: usize = 1;
    assert(positions(out@) + maxima_from(e@, 1) =~= maxima(e@));
    while i < n && n - i > 1
        invariant
            n == e@.len(),
            1 <= i,
            i <= n || i == 1,
            positions(out@) + maxima_from(e@, i as int) == maxima(e@),
            forall|k: int| 0 <= k < out@.len() ==> 1 <= #[trigger] out@[k] < n - 1,
        decreases n - i,
    {
        if e[i].is_below(e[i - 1]) {
            i = i + 1;
            continue;
        }
        let mut j: usize = i;
        while n - j > 1 && e[j + 1].is_equal(e[j])
            invariant
                n == e@.len(),
                1 <= i <= j < n,
                plateau_end(e@, j as int) == plateau_end(e@, i as int),
            decreases n - j,
        {
            j = j + 1;
        }
        proof {
            lemma_plateau_end(e@, i as int);
        }
        if n - j > 1 && e[i - 1].is_below(e[i]) && e[j + 1].is_below(e[j]) {
            let middle: usize = i + (j - i) / 2;
            let ghost prior = out@;
            out.push(middle);
            proof {
                assert(middle == (i + j) / 2);
                assert(positions(out@) =~= positions(prior).push(middle as int));
                assert(positions(out@) + maxima_from(e@, j + 1) =~= positions(prior) + maxima_from(e@, i as int));
            }
        }
        i = j + 1;
    }
    assert(positions(out@) + Seq::<int>::empty() =~= positions(out@));
    out
}

} // verus!
