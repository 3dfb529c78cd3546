//! Echo detection on one recorded trace.
//!
//! A lobe is a maximal run of envelope samples at or above a level. Each lobe has
//! one peak, a list of sub-peaks and a kind.

use vstd::prelude::*;
use vstd::slice::slice_subrange;

use crate::dsp::{local_maxima, maxima, positions};
use crate::quantity::Quantity;

verus! {

/// How far apart, in samples, two peaks are at least to be physical near lobes;
/// closer maxima are envelope grain.
pub const NEAR_GAP_MIN: usize = 4;

/// How far apart, in samples, two near lobes are at most.
pub const NEAR_GAP_MAX: usize = 10;

/// How many ratios a trace holds for each sample.
pub const RATIO_SPAN: usize = 21;

/// The fraction of the highest peak (0.9, as a bit pattern) that both of two unresolved peaks reach.
pub const NEAR_TOP_FRACTION: u64 = 0x3fec_cccc_cccc_cccd;

/// The fraction of the smaller peak (0.62, as a bit pattern) above which the valley between two
/// peaks is too shallow to resolve them.
pub const SHALLOW_VALLEY: u64 = 0x3fe3_d70a_3d70_a3d7;

/// What a candidate lobe is.
#[derive(Clone, Copy, PartialEq, Eq, Structural, Debug)]
pub enum CandidateKind {
    /// A single resolvable lobe.
    Single,
    /// Several local maxima inside one lobe that cannot be resolved.
    Composite,
    /// A lobe clipped by the ADC; amplitude is only a lower bound.
    Saturated,
    /// A lobe created by an operator split.
    Split,
}

/// A local maximum inside a lobe.
#[derive(Clone, Copy, PartialEq, Eq, Structural, Debug)]
pub struct SubPeak {
    pub sample: i64,
    pub amp: Quantity,
}

/// One recorded trace and what was computed from its envelope, sample by sample.
#[derive(Clone, Debug)]
pub struct Trace {
    /// The ADC counts.
    pub raw: Vec<i16>,
    /// The Hilbert envelope.
    pub envelope: Vec<Quantity>,
    /// The envelope in ADC counts.
    pub counts: Vec<Quantity>,
    /// `counts` brought back to full scale.
    pub normalized: Vec<Quantity>,
    /// `NEAR_TOP_FRACTION` of the envelope.
    pub near_top: Vec<Quantity>,
    /// For sample `p` and `k < RATIO_SPAN`: the envelope at `p + k - NEAR_GAP_MAX`
    /// divided by that at `p`, wherever the former lies inside the trace.
    pub ratios: Vec<Vec<Quantity>>,
}

impl Trace {
    /// Every table has an entry for each sample, and the envelope holds numbers.
    pub open spec fn valid(&self) -> bool {
        &&& self.raw@.len() == self.envelope@.len()
        &&& self.counts@.len() == self.envelope@.len()
        &&& self.normalized@.len() == self.envelope@.len()
        &&& self.near_top@.len() == self.envelope@.len()
        &&& self.ratios@.len() == self.envelope@.len()
        &&& forall|p: int| 0 <= p < self.ratios@.len() ==> (#[trigger] self.ratios@[p])@.len() == RATIO_SPAN
        &&& forall|p: int| 0 <= p < self.envelope@.len() ==> !(#[trigger] self.envelope@[p]).not_a_number()
        &&& self.envelope@.len() <= i64::MAX / 4
    }

    /// The number of samples.
    pub open spec fn size(&self) -> int {
        self.envelope@.len() as int
    }
}

/// A lobe.
pub struct Region {
    pub start: usize,
    pub end: usize,
    pub peak: usize,
    pub saturated: bool,
    pub sub: Vec<SubPeak>,
    pub kind: CandidateKind,
}

/// What a lobe holds.
#[verifier::ext_equal]
pub struct RegionModel {
    pub start: int,
    pub end: int,
    pub peak: int,
    pub saturated: bool,
    pub sub: Seq<SubPeak>,
    pub kind: CandidateKind,
}

impl View for Region {
    type V = RegionModel;

    open spec fn view(&self) -> RegionModel {
        RegionModel {
            start: self.start as int,
            end: self.end as int,
            peak: self.peak as int,
            saturated: self.saturated,
            sub: self.sub@,
            kind: self.kind,
        }
    }
}

/// The end of the run at or above `level` that starts at `i`, within `hi`.
pub open spec fn run_end(env: Seq<Quantity>, level: Quantity, i: int, hi: int) -> int
    decreases hi - i,
{
    if i < hi && level.le(env[i]) {
        run_end(env, level, i + 1, hi)
    } else {
        i
    }
}

pub(crate) proof fn lemma_run_end(env: Seq<Quantity>, level: Quantity, i: int, hi: int)
    requires
        i <= hi,
    ensures
        i <= run_end(env, level, i, hi) <= hi,
        i < hi && level.le(env[i]) ==> i < run_end(env, level, i, hi),
        forall|k: int| i <= k < run_end(env, level, i, hi) ==> level.le(#[trigger] env[k]),
        run_end(env, level, i, hi) < hi ==> !level.le(env[run_end(env, level, i, hi)]),
    decreases hi - i,
{
    if i < hi && level.le(env[i]) {
        lemma_run_end(env, level, i + 1, hi);
    }
}

/// The first highest of the samples from `k` to `end` and `best`.
pub open spec fn summit(env: Seq<Quantity>, best: int, k: int, end: int) -> int
    decreases end - k,
{
    if k >= end {
        best
    } else if env[best].lt(env[k]) {
        summit(env, k, k + 1, end)
    } else {
        summit(env, best, k + 1, end)
    }
}

/// The first lowest of the samples from `k` to `last` and `best`.
pub open spec fn trough(env: Seq<Quantity>, best: int, k: int, last: int) -> int
    decreases last + 1 - k,
{
    if k > last {
        best
    } else if env[k].lt(env[best]) {
        trough(env, k, k + 1, last)
    } else {
        trough(env, best, k + 1, last)
    }
}

pub(crate) proof fn lemma_summit(env: Seq<Quantity>, best: int, k: int, end: int)
    requires
        best < k <= end,
    ensures
        best <= summit(env, best, k, end) < end,
        summit(env, best, k, end) == best || k <= summit(env, best, k, end),
    decreases end - k,
{
    if k < end {
        if env[best].lt(env[k]) {
            lemma_summit(env, k, k + 1, end);
        } else {
            lemma_summit(env, best, k + 1, end);
        }
    }
}

pub(crate) proof fn lemma_trough(env: Seq<Quantity>, best: int, k: int, last: int)
    requires
        best < k <= last + 1,
    ensures
        best <= trough(env, best, k, last) <= last,
    decreases last + 1 - k,
{
    if k <= last {
        if env[k].lt(env[best]) {
            lemma_trough(env, k, k + 1, last);
        } else {
            lemma_trough(env, best, k + 1, last);
        }
    }
}

/// Whether a sample between `start` and `end` stands at either rail of the ADC.
pub open spec fn clipped(raw: Seq<i16>, start: int, end: int, adc_max: i16) -> bool {
    exists|k: int| start <= k < end && (#[trigger] raw[k] == adc_max || raw[k] == -adc_max)
}

/// The maxima of the samples from `start` to `end`, taken by themselves; the peak
/// where there is none.
pub open spec fn sub_peaks(env: Seq<Quantity>, start: int, end: int, peak: int) -> Seq<SubPeak> {
    let inner = maxima(env.subrange(start, end));
    if inner.len() == 0 {
        seq![SubPeak { sample: peak as i64, amp: env[peak] }]
    } else {
        Seq::new(
            inner.len(),
            |i: int| SubPeak { sample: (start + inner[i]) as i64, amp: env[start + inner[i]] },
        )
    }
}

/// Whether two sub-peaks cannot be resolved: near lobes of comparable height
/// (both reach the near-top fraction of the peak) with no deep valley between them.
pub open spec fn pair_unresolved(t: Trace, p: SubPeak, q: SubPeak, peak: int) -> bool {
    let lo = if p.sample <= q.sample { p.sample as int } else { q.sample as int };
    let hi = if p.sample <= q.sample { q.sample as int } else { p.sample as int };
    let small = if q.amp.lt(p.amp) { q } else { p };
    let valley = trough(t.envelope@, lo, lo + 1, hi);
    &&& NEAR_GAP_MIN <= hi - lo <= NEAR_GAP_MAX
    &&& !small.amp.lt(t.near_top@[peak])
    &&& (Quantity { bits: 0 }).lt(small.amp)
    &&& (Quantity { bits: SHALLOW_VALLEY }).le(t.ratios@[small.sample as int]@[valley - small.sample + NEAR_GAP_MAX])
}

/// Whether some two of the sub-peaks cannot be resolved.
pub open spec fn unresolved(t: Trace, sub: Seq<SubPeak>, peak: int) -> bool {
    exists|i: int, j: int| 0 <= i < j < sub.len() && pair_unresolved(t, #[trigger] sub[i], #[trigger] sub[j], peak)
}

/// The lobe of the run from `start` to `end`.
pub open spec fn lobe(t: Trace, start: int, end: int, adc_max: i16) -> RegionModel {
    let env = t.envelope@;
    let peak = summit(env, start, start + 1, end);
    let sub = sub_peaks(env, start, end, peak);
    let saturated = clipped(t.raw@, start, end, adc_max);
    RegionModel {
        start,
        end,
        peak,
        saturated,
        sub,
        kind: if saturated {
            CandidateKind::Saturated
        } else if unresolved(t, sub, peak) {
            CandidateKind::Composite
        } else {
            CandidateKind::Single
        },
    }
}

/// The lobes at or above `level` among the samples from `i` to `hi`, in order.
pub open spec fn lobes(t: Trace, i: int, hi: int, level: Quantity, adc_max: i16) -> Seq<RegionModel>
    decreases hi - i,
    via lobes_end
{
    if i >= hi {
        Seq::empty()
    } else if !level.le(t.envelope@[i]) {
        lobes(t, i + 1, hi, level, adc_max)
    } else {
        let end = run_end(t.envelope@, level, i, hi);
        seq![lobe(t, i, end, adc_max)] + lobes(t, end, hi, level, adc_max)
    }
}

#[via_fn]
proof fn lobes_end(t: Trace, i: int, hi: int, level: Quantity, adc_max: i16) {
    if i < hi {
        lemma_run_end(t.envelope@, level, i, hi);
    }
}

/// There are no more lobes than samples.
pub(crate) proof fn lemma_lobe_count(t: Trace, i: int, hi: int, level: Quantity, adc_max: i16)
    requires
        i <= hi,
    ensures
        lobes(t, i, hi, level, adc_max).len() <= hi - i,
    decreases hi - i,
{
    if i < hi {
        lemma_run_end(t.envelope@, level, i, hi);
        if level.le(t.envelope@[i]) {
            lemma_lobe_count(t, run_end(t.envelope@, level, i, hi), hi, level, adc_max);
        } else {
            lemma_lobe_count(t, i + 1, hi, level, adc_max);
        }
    }
}

/// Whether a lobe lies inside `lo` to `hi`, with its peak inside it.
pub open spec fn lobe_inside(r: RegionModel, lo: int, hi: int) -> bool {
    &&& lo <= r.start <= r.peak < r.end <= hi
}

/// Whether a lobe is one maximal run at or above `level` among the samples from `lo`
/// to `hi`.
pub open spec fn fills_a_run(env: Seq<Quantity>, level: Quantity, r: RegionModel, lo: int, hi: int) -> bool {
    &&& forall|k: int| r.start <= k < r.end ==> level.le(#[trigger] env[k])
    &&& r.start > lo ==> !level.le(env[r.start - 1])
    &&& r.end < hi ==> !level.le(env[r.end])
}

proof fn lemma_lobes(t: Trace, lo: int, i: int, hi: int, level: Quantity, adc_max: i16)
    requires
        lo <= i,
        lo < i < hi ==> !level.le(t.envelope@[i]) || !level.le(t.envelope@[i - 1]),
    ensures
        ({
            let s = lobes(t, i, hi, level, adc_max);
            &&& forall|k: int|
                0 <= k < s.len() ==> {
                    &&& lobe_inside(#[trigger] s[k], i, hi)
                    &&& fills_a_run(t.envelope@, level, s[k], lo, hi)
                    &&& s[k] == lobe(t, s[k].start, s[k].end, adc_max)
                }
            &&& forall|k: int, l: int| 0 <= k < l < s.len() ==> (#[trigger] s[k]).end <= (#[trigger] s[l]).start
        }),
    decreases hi - i,
{
    let s = lobes(t, i, hi, level, adc_max);
    if i >= hi {
        assert(s.len() == 0);
    } else if !level.le(t.envelope@[i]) {
        lemma_lobes(t, lo, i + 1, hi, level, adc_max);
        assert(s == lobes(t, i + 1, hi, level, adc_max));
    } else {
        lemma_run_end(t.envelope@, level, i, hi);
        let end = run_end(t.envelope@, level, i, hi);
        lemma_lobes(t, lo, end, hi, level, adc_max);
        lemma_summit(t.envelope@, i, i + 1, end);
        let rest = lobes(t, end, hi, level, adc_max);
        assert(s == seq![lobe(t, i, end, adc_max)] + rest);
        assert forall|k: int| 0 <= k < s.len() implies {
            &&& lobe_inside(#[trigger] s[k], i, hi)
            &&& fills_a_run(t.envelope@, level, s[k], lo, hi)
            &&& s[k] == lobe(t, s[k].start, s[k].end, adc_max)
        } by {
            if k > 0 {
                assert(s[k] == rest[k - 1]);
            }
        }
        assert forall|k: int, l: int| 0 <= k < l < s.len() implies (#[trigger] s[k]).end <= (#[trigger] s[l]).start by {
            assert(s[l] == rest[l - 1]);
            if k > 0 {
                assert(s[k] == rest[k - 1]);
            }
        }
    }
}

/// Every lobe is one maximal run at or above the level, with its peak inside; lobes
/// come one behind the other and share no sample.
pub proof fn lobes_are_separate_runs(t: Trace, lo: int, hi: int, level: Quantity, adc_max: i16)
    ensures
        ({
            let s = lobes(t, lo, hi, level, adc_max);
            &&& forall|k: int|
                0 <= k < s.len() ==> {
                    &&& lobe_inside(#[trigger] s[k], lo, hi)
                    &&& fills_a_run(t.envelope@, level, s[k], lo, hi)
                    &&& s[k] == lobe(t, s[k].start, s[k].end, adc_max)
                }
            &&& forall|k: int, l: int| 0 <= k < l < s.len() ==> (#[trigger] s[k]).end <= (#[trigger] s[l]).start
        }),
{
    lemma_lobes(t, lo, lo, hi, level, adc_max);
}

/// A clipped lobe is saturated whatever its maxima look like, and only a clipped one.
pub proof fn clipped_lobes_are_saturated(t: Trace, start: int, end: int, adc_max: i16)
    ensures
        lobe(t, start, end, adc_max).saturated == clipped(t.raw@, start, end, adc_max),
        lobe(t, start, end, adc_max).kind == CandidateKind::Saturated <==> clipped(t.raw@, start, end, adc_max),
{
}

fn is_clipped(raw: &Vec<i16>, start: usize, end: usize, adc_max: i16) -> (r: bool)
    requires
        start <= end <= raw@.len(),
    ensures
        r == clipped(raw@, start as int, end as int, adc_max),
{
    let mut k: usize = start;
    while k < end
        invariant
            start <= k <= end <= raw@.len(),
            forall|j: int| start <= j < k ==> #[trigger] raw@[j] != adc_max && raw@[j] != -adc_max,
        decreases end - k,
    {
        if raw[k] == adc_max || raw[k] as i32 == -(adc_max as i32) {
            return true;
        }
        k = k + 1;
    }
    false
}

fn find_summit(env: &Vec<Quantity>, start: usize, end: usize) -> (r: usize)
    requires
        start < end <= env@.len(),
    ensures
        r == summit(env@, start as int, start + 1, end as int),
        start <= r < end,
{
    let mut best: usize = start;
    let mut k: usize = start + 1;
    proof {
        lemma_summit(env@, start as int, start + 1, end as int);
    }
    while k < end
        invariant
            start <= best < k <= end <= env@.len(),
            summit(env@, best as int, k as int, end as int) == summit(env@, start as int, start + 1, end as int),
        decreases end - k,
    {
        if env[best].is_below(env[k]) {
            best = k;
        }
        k = k + 1;
    }
    best
}

fn find_trough(env: &Vec<Quantity>, lo: usize, hi: usize) -> (r: usize)
    requires
        lo <= hi < env@.len(),
    ensures
        r == trough(env@, lo as int, lo + 1, hi as int),
        lo <= r <= hi,
{
    let n: usize = env.len();
    let mut best: usize = lo;
    let mut k: usize = lo + 1;
    proof {
        lemma_trough(env@, lo as int, lo + 1, hi as int);
    }
    while k <= hi
        invariant
            lo <= best < k <= hi + 1,
            hi < n == env@.len(),
            trough(env@, best as int, k as int, hi as int) == trough(env@, lo as int, lo + 1, hi as int),
        decreases hi + 1 - k,
    {
        if env[k].is_below(env[best]) {
            best = k;
        }
        k = k + 1;
    }
    best
}

fn find_sub_peaks(t: &Trace, start: usize, end: usize, peak: usize) -> (sub: Vec<SubPeak>)
    requires
        t.valid(),
        start <= peak < end <= t.size(),
    ensures
        sub@ == sub_peaks(t.envelope@, start as int, end as int, peak as int),
        forall|i: int| 0 <= i < sub@.len() ==> start <= (#[trigger] sub@[i]).sample < end && sub@[i].amp == t.envelope@[sub@[i].sample as int],
{
    let part: &[Quantity] = slice_subrange(t.envelope.as_slice(), start, end);
    let inner: Vec<usize> = local_maxima(part);
    let ghost env = t.envelope@;
    assert(part@ == env.subrange(start as int, end as int));
    let mut sub: Vec<SubPeak> = Vec::new();
    let mut i: usize = 0;
    while i < inner.len()
        invariant
            t.valid(),
            env == t.envelope@,
            start <= peak < end <= t.size(),
            part@.len() == end - start,
            i <= inner@.len(),
            sub@.len() == i,
            forall|k: int| 0 <= k < inner@.len() ==> 1 <= #[trigger] inner@[k] < part@.len() - 1,
            forall|k: int| 0 <= k < i ==> #[trigger] sub@[k] == (SubPeak { sample: (start + inner@[k]) as i64, amp: env[start + inner@[k]] }),
            forall|k: int| 0 <= k < i ==> start <= (#[trigger] sub@[k]).sample < end && sub@[k].amp == t.envelope@[sub@[k].sample as int],
        decreases inner@.len() - i,
    {
        let s: usize = start + inner[i];
        sub.push(SubPeak { sample: s as i64, amp: t.envelope[s] });
        i = i + 1;
    }
    if sub.len() == 0 {
        sub.push(SubPeak { sample: peak as i64, amp: t.envelope[peak] });
        proof {
            assert(positions(inner@).len() == 0);
            assert(sub@ =~= sub_peaks(env, start as int, end as int, peak as int));
        }
    } else {
        proof {
            let m = maxima(env.subrange(start as int, end as int));
            assert(positions(inner@) == m);
            assert forall|k: int| 0 <= k < sub@.len() implies sub@[k] == sub_peaks(env, start as int, end as int, peak as int)[k] by {
                assert(positions(inner@)[k] == inner@[k]);
            }
            assert(sub@ =~= sub_peaks(env, start as int, end as int, peak as int));
        }
    }
    sub
}

fn is_pair_unresolved(t: &Trace, p: SubPeak, q: SubPeak, peak: usize) -> (r: bool)
    requires
        t.valid(),
        peak < t.size(),
        0 <= p.sample < t.size(),
        0 <= q.sample < t.size(),
    ensures
        r == pair_unresolved(*t, p, q, peak as int),
{
    assert(t.envelope.len() == t.size());
    let lo: usize = if p.sample <= q.sample { p.sample as usize } else { q.sample as usize };
    let hi: usize = if p.sample <= q.sample { q.sample as usize } else { p.sample as usize };
    let gap: usize = hi - lo;
    if gap < NEAR_GAP_MIN || gap > NEAR_GAP_MAX {
        return false;
    }
    let small: SubPeak = if q.amp.is_below(p.amp) { q } else { p };
    if small.amp.is_below(t.near_top[peak]) {
        return false;
    }
    let valley: usize = find_trough(&t.envelope, lo, hi);
    let at: usize = small.sample as usize;
    let column: usize = if valley >= at {
        NEAR_GAP_MAX + (valley - at)
    } else {
        NEAR_GAP_MAX - (at - valley)
    };
    Quantity::from_bits(0).is_below(small.amp) && Quantity::from_bits(SHALLOW_VALLEY).is_at_most(t.ratios[at][column])
}

fn is_unresolved(t: &Trace, sub: &Vec<SubPeak>, peak: usize) -> (r: bool)
    requires
        t.valid(),
        peak < t.size(),
        forall|i: int| 0 <= i < sub@.len() ==> 0 <= (#[trigger] sub@[i]).sample < t.size(),
    ensures
        r == unresolved(*t, sub@, peak as int),
{
    let mut i: usize = 0;
    while i < sub.len()
        invariant
            t.valid(),
            peak < t.size(),
            i <= sub@.len(),
            forall|k: int| 0 <= k < sub@.len() ==> 0 <= (#[trigger] sub@[k]).sample < t.size(),
            forall|a: int, b: int| 0 <= a < i && a < b < sub@.len() ==> !pair_unresolved(*t, #[trigger] sub@[a], #[trigger] sub@[b], peak as int),
        decreases sub@.len() - i,
    {
        let mut j: usize = i + 1;
        while j < sub.len()
            invariant
                t.valid(),
                peak < t.size(),
                i < j <= sub@.len(),
                forall|k: int| 0 <= k < sub@.len() ==> 0 <= (#[trigger] sub@[k]).sample < t.size(),
                forall|b: int| i < b < j ==> !pair_unresolved(*t, sub@[i as int], #[trigger] sub@[b], peak as int),
            decreases sub@.len() - j,
        {
            if is_pair_unresolved(t, sub[i], sub[j], peak) {
                assert(pair_unresolved(*t, sub@[i as int], sub@[j as int], peak as int));
                return true;
            }
            j = j + 1;
        }
        i = i + 1;
    }
    false
}

/// The lobes of `t` at or above `level` among the samples from `lo` to `hi`.
pub fn detect_regions(t: &Trace, lo: usize, hi: usize, level: Quantity, adc_max: i16) -> (regions: Vec<Region>)
    requires
        t.valid(),
        lo <= hi <= t.size(),
        !level.not_a_number(),
    ensures
        crate::order::views(regions@) == lobes(*t, lo as int, hi as int, level, adc_max),
        forall|k: int| 0 <= k < regions@.len() ==> lobe_inside(#[trigger] regions@[k]@, lo as int, hi as int),
{
    let mut regions: Vec<Region> = Vec::new();
    let mut i: usize = lo;
    let ghost all = lobes(*t, lo as int, hi as int, level, adc_max);
    assert(crate::order::views(regions@) + all =~= all);
    while i < hi
        invariant
            t.valid(),
            lo <= i <= hi <= t.size(),
            !level.not_a_number(),
            all == crate::order::views(regions@) + lobes(*t, i as int, hi as int, level, adc_max),
            forall|k: int| 0 <= k < regions@.len() ==> lobe_inside(#[trigger] regions@[k]@, lo as int, hi as int),
        decreases hi - i,
    {
        if t.envelope[i].is_below(level) {
            i = i + 1;
            continue;
        }
        let start: usize = i;
        proof {
            lemma_run_end(t.envelope@, level, start as int, hi as int);
        }
        while i < hi && level.is_at_most(t.envelope[i])
            invariant
                t.valid(),
                start <= i <= hi <= t.size(),
                run_end(t.envelope@, level, i as int, hi as int) == run_end(t.envelope@, level, start as int, hi as int),
            decreases hi - i,
        {
            i = i + 1;
        }
        let end: usize = i;
        let peak: usize = find_summit(&t.envelope, start, end);
        let saturated: bool = is_clipped(&t.raw, start, end, adc_max);
        let sub: Vec<SubPeak> = find_sub_peaks(t, start, end, peak);
        let kind: CandidateKind = if saturated {
            CandidateKind::Saturated
        } else if is_unresolved(t, &sub, peak) {
            CandidateKind::Composite
        } else {
            CandidateKind::Single
        };
        let ghost prior = regions@;
        let ghost found = lobe(*t, start as int, end as int, adc_max);
        regions.push(Region { start, end, peak, saturated, sub, kind });
        proof {
            assert(regions@.last()@ =~= found);
            assert(crate::order::views(regions@) =~= crate::order::views(prior).push(found));
            assert(all =~= crate::order::views(regions@) + lobes(*t, end as int, hi as int, level, adc_max));
        }
    }
    assert(all =~= crate::order::views(regions@));
    regions
}

} // verus!
