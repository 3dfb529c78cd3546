//! What holds of the lobes of a trace, sample by sample.

use vstd::prelude::*;

use crate::detection::{
    lemma_run_end, lobe, lobes, lobes_are_separate_runs, pair_unresolved, run_end, sub_peaks, summit, trough,
    unresolved, CandidateKind, RegionModel, SubPeak, Trace,
};
use crate::dsp::{is_summit, maxima, maxima_are_the_middles_of_summits, maxima_ascend, plateau_end};
use crate::quantity::Quantity;

verus! {

// ---------------------------------------------------------------- peaks

/// Whether all samples from `lo` to `hi` are numbers.
pub open spec fn are_numbers(env: Seq<Quantity>, lo: int, hi: int) -> bool {
    forall|k: int| lo <= k < hi ==> !(#[trigger] env[k]).not_a_number()
}

/// Whether `p` is the first highest of the samples from `lo` to `hi`.
pub open spec fn is_first_highest(env: Seq<Quantity>, lo: int, hi: int, p: int) -> bool {
    &&& lo <= p < hi
    &&& forall|k: int| lo <= k < hi ==> !env[p].lt(#[trigger] env[k])
    &&& forall|k: int| lo <= k < p ==> (#[trigger] env[k]).lt(env[p])
}

/// Whether `p` is the first lowest of the samples from `lo` to `hi`.
pub open spec fn is_first_lowest(env: Seq<Quantity>, lo: int, hi: int, p: int) -> bool {
    &&& lo <= p < hi
    &&& forall|k: int| lo <= k < hi ==> !(#[trigger] env[k]).lt(env[p])
    &&& forall|k: int| lo <= k < p ==> env[p].lt(#[trigger] env[k])
}

proof fn lemma_summit_highest(env: Seq<Quantity>, lo: int, best: int, k: int, end: int)
    requires
        are_numbers(env, lo, end),
        is_first_highest(env, lo, k, best),
        k <= end,
    ensures
        is_first_highest(env, lo, end, summit(env, best, k, end)),
    decreases end - k,
{
    if k < end {
        if env[best].lt(env[k]) {
            assert forall|j: int| lo <= j < k implies (#[trigger] env[j]).lt(env[k]) by {
                assert(!env[best].lt(env[j]));
            }
            lemma_summit_highest(env, lo, k, k + 1, end);
        } else {
            lemma_summit_highest(env, lo, best, k + 1, end);
        }
    }
}

proof fn lemma_trough_lowest(env: Seq<Quantity>, lo: int, best: int, k: int, last: int)
    requires
        are_numbers(env, lo, last + 1),
        is_first_lowest(env, lo, k, best),
        k <= last + 1,
    ensures
        is_first_lowest(env, lo, last + 1, trough(env, best, k, last)),
    decreases last + 1 - k,
{
    if k <= last {
        if env[k].lt(env[best]) {
            assert forall|j: int| lo <= j < k implies env[k].lt(#[trigger] env[j]) by {
                assert(!env[j].lt(env[best]));
            }
            lemma_trough_lowest(env, lo, k, k + 1, last);
        } else {
            lemma_trough_lowest(env, lo, best, k + 1, last);
        }
    }
}

/// The peak of each lobe is its first highest sample: no sample of the lobe lies above
/// it, and those before it lie below.
pub proof fn lobes_peak_at_their_highest_sample(t: Trace, lo: int, hi: int, level: Quantity, adc_max: i16)
    requires
        t.valid(),
        0 <= lo <= hi <= t.size(),
    ensures
        forall|i: int|
            0 <= i < lobes(t, lo, hi, level, adc_max).len() ==> {
                let r = #[trigger] lobes(t, lo, hi, level, adc_max)[i];
                &&& r.start <= r.peak < r.end
                &&& forall|k: int| r.start <= k < r.end ==> !t.envelope@[r.peak].lt(#[trigger] t.envelope@[k])
                &&& forall|k: int| r.start <= k < r.peak ==> (#[trigger] t.envelope@[k]).lt(t.envelope@[r.peak])
            },
{
    lobes_are_separate_runs(t, lo, hi, level, adc_max);
    let s = lobes(t, lo, hi, level, adc_max);
    assert forall|i: int| 0 <= i < s.len() implies is_first_highest(
        t.envelope@,
        (#[trigger] s[i]).start,
        s[i].end,
        s[i].peak,
    ) by {
        let r = s[i];
        assert(r == lobe(t, r.start, r.end, adc_max));
        lemma_summit_highest(t.envelope@, r.start, r.start, r.start + 1, r.end);
    }
}

/// Whether a sample lies in one of the lobes.
pub open spec fn is_covered(s: Seq<RegionModel>, k: int) -> bool {
    exists|i: int| 0 <= i < s.len() && (#[trigger] s[i]).start <= k < s[i].end
}

/// Every sample at or above the level lies in a lobe, and no other does.
pub proof fn lobes_cover_what_reaches_the_level(t: Trace, lo: int, hi: int, level: Quantity, adc_max: i16, k: int)
    requires
        lo <= k < hi,
    ensures
        is_covered(lobes(t, lo, hi, level, adc_max), k) <==> level.le(t.envelope@[k]),
    decreases hi - lo,
{
    let s = lobes(t, lo, hi, level, adc_max);
    lobes_are_separate_runs(t, lo, hi, level, adc_max);
    if level.le(t.envelope@[k]) {
        if !level.le(t.envelope@[lo]) {
            lobes_cover_what_reaches_the_level(t, lo + 1, hi, level, adc_max, k);
        } else {
            lemma_run_end(t.envelope@, level, lo, hi);
            let end = run_end(t.envelope@, level, lo, hi);
            let rest = lobes(t, end, hi, level, adc_max);
            assert(s == seq![lobe(t, lo, end, adc_max)] + rest);
            if k < end {
                assert(s[0].start <= k < s[0].end);
            } else {
                lobes_cover_what_reaches_the_level(t, end, hi, level, adc_max, k);
                let i = choose|i: int| 0 <= i < rest.len() && (#[trigger] rest[i]).start <= k < rest[i].end;
                assert(s[i + 1] == rest[i]);
            }
        }
    }
}

// ---------------------------------------------------------------- sub-peaks

/// Whether the samples from `a` to `b` form a plateau between `lo` and `hi` that
/// stands above the samples on both sides of it.
pub open spec fn is_top(env: Seq<Quantity>, lo: int, hi: int, a: int, b: int) -> bool {
    &&& lo < a <= b
    &&& b + 1 < hi
    &&& forall|x: int| #![trigger env[x]] a < x <= b ==> env[x].equals(env[x - 1])
    &&& env[a - 1].lt(env[a])
    &&& env[b + 1].lt(env[b])
}

proof fn lemma_plateau(e: Seq<Quantity>, a: int, b: int)
    requires
        0 <= a <= b,
        b + 1 < e.len(),
        forall|x: int| #![trigger e[x]] a < x <= b ==> e[x].equals(e[x - 1]),
        !e[b + 1].equals(e[b]),
    ensures
        plateau_end(e, a) == b,
    decreases b - a,
{
    if a < b {
        assert(e[a + 1].equals(e[a]));
        lemma_plateau(e, a + 1, b);
    }
}

proof fn lemma_plateau_equal(e: Seq<Quantity>, a: int, x: int)
    requires
        0 <= a < x <= plateau_end(e, a),
    ensures
        e[x].equals(e[x - 1]),
    decreases e.len() - a,
{
    if a + 1 < e.len() && e[a + 1].equals(e[a]) && a + 1 < x {
        lemma_plateau_equal(e, a + 1, x);
    }
}

proof fn lemma_summit_is_top(e: Seq<Quantity>, a: int, b: int)
    ensures
        is_summit(e, a, b) <==> is_top(e, 0, e.len() as int, a, b),
{
    if is_top(e, 0, e.len() as int, a, b) {
        lemma_plateau(e, a, b);
    }
    if is_summit(e, a, b) {
        assert forall|x: int| #![trigger e[x]] a < x <= b implies e[x].equals(e[x - 1]) by {
            lemma_plateau_equal(e, a, x);
        }
    }
}

/// Whether `m` is the middle of a plateau between `lo` and `hi` that stands above both
/// sides.
pub open spec fn is_top_middle(env: Seq<Quantity>, lo: int, hi: int, m: int) -> bool {
    exists|a: int, b: int| #[trigger] is_top(env, lo, hi, a, b) && m == a + (b - a) / 2
}

proof fn lemma_maxima_inside(env: Seq<Quantity>, lo: int, hi: int, m: int)
    requires
        0 <= lo <= hi <= env.len(),
    ensures
        maxima(env.subrange(lo, hi)).contains(m) <==> is_top_middle(env, lo, hi, lo + m),
{
    let e = env.subrange(lo, hi);
    maxima_are_the_middles_of_summits(e, m);
    if maxima(e).contains(m) {
        let (a, b) = choose|a: int, b: int| #[trigger] is_summit(e, a, b) && m == (a + b) / 2;
        lemma_summit_is_top(e, a, b);
        assert forall|x: int| #![trigger env[x]] lo + a < x <= lo + b implies env[x].equals(env[x - 1]) by {
            assert(e[x - lo].equals(e[x - lo - 1]));
        }
        assert(e[a - 1].lt(e[a]) && e[b + 1].lt(e[b]));
        assert(is_top(env, lo, hi, lo + a, lo + b));
    }
    if is_top_middle(env, lo, hi, lo + m) {
        let (a, b) = choose|a: int, b: int| #[trigger] is_top(env, lo, hi, a, b) && lo + m == a + (b - a) / 2;
        assert forall|x: int| #![trigger e[x]] a - lo < x <= b - lo implies e[x].equals(e[x - 1]) by {
            assert(env[x + lo].equals(env[x + lo - 1]));
        }
        lemma_summit_is_top(e, a - lo, b - lo);
        assert(is_summit(e, a - lo, b - lo));
    }
}

/// Whether some sub-peak is at the given sample.
pub open spec fn has_sub_peak(sub: Seq<SubPeak>, m: int) -> bool {
    exists|i: int| 0 <= i < sub.len() && (#[trigger] sub[i]).sample == m
}

/// The sub-peaks of a lobe are the middles of all its plateaus that stand above both
/// sides; where there are none, the peak alone. They ascend, and each has the height
/// of the envelope.
pub proof fn sub_peaks_are_the_tops_of_the_lobe(t: Trace, lo: int, hi: int, level: Quantity, adc_max: i16, i: int)
    requires
        t.valid(),
        0 <= lo <= hi <= t.size(),
        0 <= i < lobes(t, lo, hi, level, adc_max).len(),
    ensures
        ({
            let r = lobes(t, lo, hi, level, adc_max)[i];
            &&& r.sub.len() > 0
            &&& forall|k: int|
                0 <= k < r.sub.len() ==> r.start <= (#[trigger] r.sub[k]).sample < r.end && r.sub[k].amp
                    == t.envelope@[r.sub[k].sample as int]
            &&& forall|k: int, l: int|
                0 <= k < l < r.sub.len() ==> (#[trigger] r.sub[k]).sample < (#[trigger] r.sub[l]).sample
            &&& forall|m: int|
                #[trigger] is_top_middle(t.envelope@, r.start, r.end, m) ==> has_sub_peak(r.sub, m)
            &&& forall|k: int|
                0 <= k < r.sub.len() ==> is_top_middle(t.envelope@, r.start, r.end, (#[trigger] r.sub[k]).sample as int)
                    || r.sub.len() == 1 && r.sub[k].sample == r.peak
        }),
{
    lobes_are_separate_runs(t, lo, hi, level, adc_max);
    let r = lobes(t, lo, hi, level, adc_max)[i];
    assert(r == lobe(t, r.start, r.end, adc_max));
    lemma_sub_peaks(t, r.start, r.end, r.peak);
}

proof fn lemma_sub_peaks(t: Trace, start: int, end: int, peak: int)
    requires
        t.valid(),
        0 <= start <= peak < end <= t.size(),
    ensures
        ({
            let sub = sub_peaks(t.envelope@, start, end, peak);
            &&& sub.len() > 0
            &&& forall|k: int|
                0 <= k < sub.len() ==> start <= (#[trigger] sub[k]).sample < end && sub[k].amp
                    == t.envelope@[sub[k].sample as int]
            &&& forall|k: int, l: int|
                0 <= k < l < sub.len() ==> (#[trigger] sub[k]).sample < (#[trigger] sub[l]).sample
            &&& forall|m: int| #[trigger] is_top_middle(t.envelope@, start, end, m) ==> has_sub_peak(sub, m)
            &&& forall|k: int|
                0 <= k < sub.len() ==> is_top_middle(t.envelope@, start, end, (#[trigger] sub[k]).sample as int)
                    || sub.len() == 1 && sub[k].sample == peak
        }),
{
    let env = t.envelope@;
    let inner = maxima(env.subrange(start, end));
    let sub = sub_peaks(env, start, end, peak);
    assert forall|k: int| 0 <= k < inner.len() implies is_top_middle(env, start, end, start + #[trigger] inner[k])
        && 0 < inner[k] < end - start by {
        assert(inner.contains(inner[k]));
        lemma_maxima_inside(env, start, end, inner[k]);
        let (a, b) = choose|a: int, b: int| #[trigger] is_top(env, start, end, a, b) && start + inner[k] == a + (b - a) / 2;
        assert(is_top(env, start, end, a, b));
    }
    assert forall|k: int, l: int| 0 <= k < l < inner.len() implies #[trigger] inner[k] < #[trigger] inner[l] by {
        maxima_ascend(env.subrange(start, end), k, l);
    }
    assert forall|m: int| #[trigger] is_top_middle(env, start, end, m) implies has_sub_peak(sub, m) by {
        lemma_maxima_inside(env, start, end, m - start);
        assert(inner.contains(m - start));
        let k = choose|k: int| 0 <= k < inner.len() && inner[k] == m - start;
        assert(sub[k].sample == m);
    }
    if inner.len() > 0 {
        assert forall|k: int| 0 <= k < sub.len() implies (#[trigger] sub[k]).sample == start + inner[k] by {}
    }
}

// ---------------------------------------------------------------- kinds

/// Whether two sub-peaks at samples `a` and `b` of a lobe cannot be told apart: they
/// are 4 to 10 samples apart, both are above zero and reach the near-top fraction of
/// the peak, and the first lowest sample between them is at least 0.62 of the lower
/// of the two.
pub open spec fn cannot_be_told_apart(t: Trace, a: int, b: int, peak: int) -> bool {
    let env = t.envelope@;
    let zero = Quantity { bits: 0 };
    let low = if env[b].lt(env[a]) {
        b
    } else {
        a
    };
    &&& 4 <= b - a <= 10
    &&& zero.lt(env[a]) && zero.lt(env[b])
    &&& !env[a].lt(t.near_top@[peak]) && !env[b].lt(t.near_top@[peak])
    &&& exists|v: int|
        #[trigger] is_first_lowest(env, a, b + 1, v) && (Quantity { bits: 0x3fe3_d70a_3d70_a3d7 }).le(
            t.ratios@[low]@[v - low + 10],
        )
}

proof fn lemma_one_lowest(env: Seq<Quantity>, lo: int, hi: int, v: int, w: int)
    requires
        is_first_lowest(env, lo, hi, v),
        is_first_lowest(env, lo, hi, w),
    ensures
        v == w,
{
    if v < w {
        assert(env[w].lt(env[v]));
        assert(!env[w].lt(env[v]));
    } else if w < v {
        assert(env[v].lt(env[w]));
        assert(!env[v].lt(env[w]));
    }
}

proof fn lemma_pair(t: Trace, p: SubPeak, q: SubPeak, peak: int)
    requires
        t.valid(),
        0 <= p.sample < q.sample < t.size(),
        p.amp == t.envelope@[p.sample as int],
        q.amp == t.envelope@[q.sample as int],
    ensures
        pair_unresolved(t, p, q, peak) <==> cannot_be_told_apart(t, p.sample as int, q.sample as int, peak),
{
    let env = t.envelope@;
    let (a, b) = (p.sample as int, q.sample as int);
    let v = trough(env, a, a + 1, b);
    lemma_trough_lowest(env, a, a, a + 1, b);
    assert(is_first_lowest(env, a, b + 1, v));
    if cannot_be_told_apart(t, a, b, peak) {
        let low = if env[b].lt(env[a]) {
            b
        } else {
            a
        };
        let w = choose|w: int|
            #[trigger] is_first_lowest(env, a, b + 1, w) && (Quantity { bits: 0x3fe3_d70a_3d70_a3d7 }).le(
                t.ratios@[low]@[w - low + 10],
            );
        lemma_one_lowest(env, a, b + 1, v, w);
    }
}

/// A lobe is saturated if and only if one of its samples stands at a rail of the ADC.
/// Otherwise it is composite if and only if some two of its sub-peaks cannot be told
/// apart, and single if all can.
pub proof fn lobes_are_of_the_kind_that_they_show(t: Trace, lo: int, hi: int, level: Quantity, adc_max: i16, i: int)
    requires
        t.valid(),
        0 <= lo <= hi <= t.size(),
        0 <= i < lobes(t, lo, hi, level, adc_max).len(),
    ensures
        ({
            let r = lobes(t, lo, hi, level, adc_max)[i];
            let at_a_rail = exists|k: int|
                r.start <= k < r.end && (#[trigger] t.raw@[k] == adc_max || t.raw@[k] == -adc_max);
            let close = exists|x: int, y: int|
                0 <= x < y < r.sub.len() && cannot_be_told_apart(
                    t,
                    (#[trigger] r.sub[x]).sample as int,
                    (#[trigger] r.sub[y]).sample as int,
                    r.peak,
                );
            &&& r.saturated <==> at_a_rail
            &&& r.kind == CandidateKind::Saturated <==> at_a_rail
            &&& r.kind == CandidateKind::Composite <==> !at_a_rail && close
            &&& r.kind == CandidateKind::Single <==> !at_a_rail && !close
        }),
{
    lobes_are_separate_runs(t, lo, hi, level, adc_max);
    sub_peaks_are_the_tops_of_the_lobe(t, lo, hi, level, adc_max, i);
    let r = lobes(t, lo, hi, level, adc_max)[i];
    assert(r == lobe(t, r.start, r.end, adc_max));
    assert forall|x: int, y: int| 0 <= x < y < r.sub.len() implies (pair_unresolved(
        t,
        #[trigger] r.sub[x],
        #[trigger] r.sub[y],
        r.peak,
    ) <==> cannot_be_told_apart(t, r.sub[x].sample as int, r.sub[y].sample as int, r.peak)) by {
        assert(r.sub[x].sample < r.sub[y].sample);
        lemma_pair(t, r.sub[x], r.sub[y], r.peak);
    }
    if unresolved(t, r.sub, r.peak) {
        let (x, y) = choose|x: int, y: int|
            0 <= x < y < r.sub.len() && pair_unresolved(t, #[trigger] r.sub[x], #[trigger] r.sub[y], r.peak);
        assert(cannot_be_told_apart(t, r.sub[x].sample as int, r.sub[y].sample as int, r.peak));
    }
}

} // verus!
