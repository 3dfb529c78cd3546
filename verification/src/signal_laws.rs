//! What holds of every analysis of a waveform.

use vstd::prelude::*;

use crate::detection::{lemma_run_end, run_end};
use crate::order::{
    distinct, lemma_sorted_all, lemma_sorted_distinct, lemma_sorted_members, sorted,
    sorting_orders_and_keeps_every_item, Ranked,
};
use crate::quantity::Quantity;
use crate::seqs::{first_where, lemma_search};
use crate::signal::{
    bounds, climbs, clusters, clusters_within, depths, detection_level, echo_fits, echo_key, echoes, echoes_fit,
    found_candidates, is_split, keyed, last_top, lemma_lower_bounds, lemma_with_point, lemma_within_sorted, lobes, lower_bounds, parts, peaks,
    prominent, raw_candidates, reaching, region_clusters, region_echoes, saturated_within, split_parts, split_up,
    surface_after_bottom, unsplit, within, AnalConfig, Candidate, CandidateModel, EchoModel, Gate, Record, SplitModel,
    ThresholdMode,
};
use crate::text::{digits, lemma_digits_injective, lemma_digits_shape, lemma_split_text};

verus! {

/// The two modes have different names, so a name leads back to its mode.
pub proof fn mode_names_are_unique(a: ThresholdMode, b: ThresholdMode)
    ensures
        a.name() == b.name() <==> a == b,
{
    reveal_strlit("amplitude");
    reveal_strlit("snr");
    assert("amplitude"@.len() != "snr"@.len());
}

// ---------------------------------------------------------------- echoes

pub(crate) proof fn lemma_size(r: Record)
    ensures
        r.size() <= usize::MAX,
{
    assert(r.wave.len() == r.wave@.len());
}

pub(crate) proof fn lemma_peaks_within(env: Seq<Quantity>, level: Quantity, start: int, end: int)
    requires
        0 <= start <= end <= usize::MAX,
    ensures
        within(peaks(env, level, start, end), start, end),
    decreases end - start,
{
    if start < end {
        lemma_peaks_within(env, level, start, end - 1);
    }
}

proof fn lemma_reaching_within(env: Seq<Quantity>, floor: Quantity, s: Seq<usize>, n: int, lo: int, hi: int)
    requires
        within(s, lo, hi),
        n <= s.len(),
    ensures
        within(reaching(env, floor, s, n), lo, hi),
    decreases n,
{
    if n > 0 {
        lemma_reaching_within(env, floor, s, n - 1, lo, hi);
        assert(lo <= s[n - 1] < hi);
    }
}

proof fn lemma_last_top(env: Seq<Quantity>, s: Seq<usize>, n: int)
    requires
        1 <= n <= s.len(),
    ensures
        s.contains(last_top(env, s, n)),
    decreases n,
{
    if n <= 1 {
        assert(s[0] == last_top(env, s, n));
    } else {
        lemma_last_top(env, s, n - 1);
        assert(s.contains(s[n - 1]));
    }
}

pub(crate) proof fn lemma_top_within(env: Seq<Quantity>, s: Seq<usize>, lo: int, hi: int)
    requires
        within(s, lo, hi),
        s.len() > 0,
    ensures
        lo <= last_top(env, s, s.len() as int) < hi,
{
    lemma_last_top(env, s, s.len() as int);
    let t = last_top(env, s, s.len() as int);
    let i = choose|i: int| 0 <= i < s.len() && s[i] == t;
    assert(lo <= s[i] < hi);
}

proof fn lemma_lobes_within(r: Record, s: Seq<usize>, anchor: usize, n: int, lo: int, hi: int)
    requires
        within(s, lo, hi),
        lo <= anchor < hi,
        n <= s.len(),
    ensures
        within(lobes(r, s, anchor, n), lo, hi),
        lobes(r, s, anchor, n).len() > 0,
    decreases n,
{
    if n > 0 {
        lemma_lobes_within(r, s, anchor, n - 1, lo, hi);
        assert(lo <= s[n - 1] < hi);
    }
}

/// Whether successive members of each cluster are closer than `min_sep`.
pub open spec fn unresolved(c: Seq<Seq<usize>>, min_sep: int) -> bool {
    forall|i: int, m: int|
        #![trigger c[i][m]]
        0 <= i < c.len() && 1 <= m < c[i].len() ==> c[i][m] - c[i][m - 1] < min_sep
}

proof fn lemma_clusters(s: Seq<usize>, min_sep: int, n: int, lo: int, hi: int)
    requires
        1 <= n <= s.len(),
        within(s, lo, hi),
    ensures
        clusters_within(clusters(s, min_sep, n), lo, hi),
        clusters(s, min_sep, n).len() > 0,
        clusters(s, min_sep, n).last().last() == s[n - 1],
        unresolved(clusters(s, min_sep, n), min_sep),
    decreases n,
{
    let c = clusters(s, min_sep, n);
    if n > 1 {
        lemma_clusters(s, min_sep, n - 1, lo, hi);
        let rest = clusters(s, min_sep, n - 1);
        assert(lo <= s[n - 1] < hi);
        if s[n - 1] - s[n - 2] < min_sep {
            assert forall|i: int| 0 <= i < c.len() implies (#[trigger] c[i]).len() > 0 && within(c[i], lo, hi) by {
                if i < rest.len() - 1 {
                    assert(c[i] == rest[i]);
                } else {
                    assert(c[i] == rest[rest.len() - 1].push(s[n - 1]));
                    assert(within(rest[rest.len() - 1], lo, hi));
                }
            }
            assert forall|i: int, m: int|
                #![trigger c[i][m]]
                0 <= i < c.len() && 1 <= m < c[i].len() implies c[i][m] - c[i][m - 1] < min_sep by {
                if i < rest.len() - 1 {
                    assert(c[i] == rest[i]);
                    assert(rest[i][m] - rest[i][m - 1] < min_sep);
                } else {
                    let last = rest[rest.len() - 1];
                    assert(c[i] == last.push(s[n - 1]));
                    if m < last.len() {
                        assert(rest[rest.len() - 1][m] - rest[rest.len() - 1][m - 1] < min_sep);
                    }
                }
            }
        } else {
            assert forall|i: int| 0 <= i < c.len() implies (#[trigger] c[i]).len() > 0 && within(c[i], lo, hi) by {
                if i < rest.len() {
                    assert(c[i] == rest[i]);
                }
            }
            assert forall|i: int, m: int|
                #![trigger c[i][m]]
                0 <= i < c.len() && 1 <= m < c[i].len() implies c[i][m] - c[i][m - 1] < min_sep by {
                if i < rest.len() {
                    assert(c[i] == rest[i]);
                    assert(rest[i][m] - rest[i][m - 1] < min_sep);
                }
            }
        }
    } else {
        assert(lo <= s[0] < hi);
    }
}

/// Whether an echo is one maximal run of the smoothed envelope at or above `level`.
pub open spec fn fills_a_run(r: Record, level: Quantity, e: EchoModel) -> bool {
    &&& forall|k: int| e.start <= k < e.end ==> level.le(#[trigger] r.smooth@[k])
    &&& e.start > 0 ==> !level.le(r.smooth@[e.start - 1])
    &&& e.end < r.size() ==> !level.le(r.smooth@[e.end])
}

/// Whether an echo has several lobes only where they cannot be resolved, and none
/// of its samples is clipped.
pub open spec fn justly_composite(r: Record, e: EchoModel) -> bool {
    e.lobes.len() > 1 ==> {
        &&& !saturated_within(r.wave@, e.start, e.end)
        &&& forall|m: int|
            #![trigger e.lobes[m]]
            1 <= m < e.lobes.len() ==> e.lobes[m] - e.lobes[m - 1] < r.min_sep_samples
    }
}

/// Whether `a` comes before `b`: in a region that ends before that of `b` begins, or
/// at an earlier place of the same region.
pub open spec fn comes_before(a: EchoModel, b: EchoModel) -> bool {
    ||| a.region < b.region && a.end <= b.start
    ||| a.region == b.region && a.start == b.start && a.end == b.end && a.place < b.place
}

proof fn lemma_region(r: Record, level: Quantity, start: int, end: int, idx: int)
    requires
        r.valid(),
        0 <= start < end <= r.size(),
        r.size() <= usize::MAX,
    ensures
        ({
            let s = region_echoes(r, level, start, end, idx);
            &&& forall|i: int|
                0 <= i < s.len() ==> {
                    &&& echo_fits(r, #[trigger] s[i])
                    &&& s[i].region == idx
                    &&& s[i].place == i
                    &&& s[i].start == start
                    &&& s[i].end == end
                    &&& justly_composite(r, s[i])
                }
        }),
{
    let all = peaks(r.env@, level, start, end);
    let s = prominent(r, level, start, end);
    lemma_peaks_within(r.env@, level, start, end);
    lemma_reaching_within(r.env@, crate::signal::prominence_floor(r, all), all, all.len() as int, start, end);
    if s.len() > 0 {
        lemma_top_within(r.env@, s, start, end);
        let anchor = last_top(r.env@, s, s.len() as int);
        let raw = lobes(r, s, anchor, s.len() as int);
        lemma_lobes_within(r, s, anchor, s.len() as int, start, end);
        lemma_within_sorted(raw, start, end);
        sorting_orders_and_keeps_every_item::<usize>(raw);
        let found = sorted::<usize>(raw);
        let c = region_clusters(r, s, start, end);
        lemma_clusters(found, r.min_sep_samples as int, found.len() as int, start, end);
        let out = region_echoes(r, level, start, end, idx);
        assert forall|i: int| 0 <= i < out.len() implies {
            &&& echo_fits(r, #[trigger] out[i])
            &&& out[i].region == idx
            &&& out[i].place == i
            &&& out[i].start == start
            &&& out[i].end == end
            &&& justly_composite(r, out[i])
        } by {
            assert(out[i].lobes == c[i]);
            if c.len() == 1 && c[0] == seq![anchor] {
            } else {
                assert(c == clusters(found, r.min_sep_samples as int, found.len() as int));
                assert(c[i].len() > 0);
                assert forall|m: int|
                    #![trigger out[i].lobes[m]]
                    1 <= m < out[i].lobes.len() implies out[i].lobes[m] - out[i].lobes[m - 1] < r.min_sep_samples by {
                    assert(c[i][m] - c[i][m - 1] < r.min_sep_samples as int);
                }
            }
        }
    }
}

pub(crate) proof fn lemma_echoes(r: Record, level: Quantity, k: int, idx: int)
    requires
        r.valid(),
        r.size() <= usize::MAX,
        0 <= k,
        0 <= idx,
        0 < k <= r.size() ==> k == r.size() || !level.le(r.smooth@[k]) || !level.le(r.smooth@[k - 1]),
    ensures
        ({
            let s = echoes(r, level, k, idx);
            &&& forall|i: int|
                0 <= i < s.len() ==> {
                    &&& echo_fits(r, #[trigger] s[i])
                    &&& s[i].region >= idx
                    &&& s[i].place >= 0
                    &&& s[i].start >= k
                    &&& fills_a_run(r, level, s[i])
                    &&& justly_composite(r, s[i])
                }
            &&& forall|i: int, j: int| 0 <= i < j < s.len() ==> comes_before(#[trigger] s[i], #[trigger] s[j])
        }),
    decreases r.size() - k,
{
    if k < r.size() {
        if !level.le(r.smooth@[k]) {
            lemma_echoes(r, level, k + 1, idx);
            assert(echoes(r, level, k, idx) == echoes(r, level, k + 1, idx));
        } else {
            lemma_run_end(r.smooth@, level, k, r.size());
            let end = run_end(r.smooth@, level, k, r.size());
            lemma_region(r, level, k, end, idx);
            lemma_echoes(r, level, end, idx + 1);
            let here = region_echoes(r, level, k, end, idx);
            let rest = echoes(r, level, end, idx + 1);
            let s = echoes(r, level, k, idx);
            assert(s == here + rest);
            assert forall|i: int| 0 <= i < s.len() implies {
                &&& echo_fits(r, #[trigger] s[i])
                &&& s[i].region >= idx
                &&& s[i].place >= 0
                &&& s[i].start >= k
                &&& fills_a_run(r, level, s[i])
                &&& justly_composite(r, s[i])
            } by {
                if i < here.len() {
                    assert(s[i] == here[i]);
                } else {
                    assert(s[i] == rest[i - here.len()]);
                }
            }
            assert forall|i: int, j: int| 0 <= i < j < s.len() implies comes_before(
                #[trigger] s[i],
                #[trigger] s[j],
            ) by {
                if j < here.len() {
                    assert(s[i] == here[i] && s[j] == here[j]);
                } else if i < here.len() {
                    assert(s[i] == here[i] && s[j] == rest[j - here.len()]);
                } else {
                    assert(s[i] == rest[i - here.len()] && s[j] == rest[j - here.len()]);
                }
            }
        }
    } else {
        assert(echoes(r, level, k, idx).len() == 0);
    }
}

/// Every echo lies inside the waveform and fills one maximal run of the smoothed
/// envelope at or above the detection level; it has several lobes only where they
/// cannot be resolved and nothing is clipped; and echoes come one after the other,
/// so those of different regions share no sample.
pub proof fn echoes_fill_separate_runs(r: Record, level: Quantity)
    requires
        r.valid(),
    ensures
        echoes_fit(r, echoes(r, level, 0, 0)),
        forall|i: int|
            0 <= i < echoes(r, level, 0, 0).len() ==> fills_a_run(r, level, #[trigger] echoes(r, level, 0, 0)[i])
                && justly_composite(r, echoes(r, level, 0, 0)[i]),
        forall|i: int, j: int|
            0 <= i < j < echoes(r, level, 0, 0).len() ==> comes_before(
                #[trigger] echoes(r, level, 0, 0)[i],
                #[trigger] echoes(r, level, 0, 0)[j],
            ),
{
    lemma_size(r);
    lemma_echoes(r, level, 0, 0);
}

proof fn lemma_no_mark(n: nat, mark: char)
    requires
        !('0' <= mark <= '9'),
    ensures
        !digits(n).contains(mark),
{
    lemma_digits_shape(n);
}

/// Different echoes have different keys.
pub proof fn echo_keys_are_unique(r1: nat, p1: nat, r2: nat, p2: nat)
    ensures
        echo_key(r1 as int, p1 as int) == echo_key(r2 as int, p2 as int) <==> r1 == r2 && p1 == p2,
{
    if echo_key(r1 as int, p1 as int) == echo_key(r2 as int, p2 as int) {
        reveal_strlit("r");
        reveal_strlit("c");
        let a = "r"@ + digits(r1);
        let c = "r"@ + digits(r2);
        assert("c"@ =~= seq!['c']);
        lemma_no_mark(r1, 'c');
        lemma_no_mark(r2, 'c');
        assert(!a.contains('c')) by {
            if a.contains('c') {
                let i = choose|i: int| 0 <= i < a.len() && a[i] == 'c';
                assert(i > 0);
                assert(digits(r1)[i - 1] == 'c');
            }
        }
        assert(!c.contains('c')) by {
            if c.contains('c') {
                let i = choose|i: int| 0 <= i < c.len() && c[i] == 'c';
                assert(i > 0);
                assert(digits(r2)[i - 1] == 'c');
            }
        }
        lemma_split_text(a, digits(p1), c, digits(p2), 'c');
        assert(digits(r1) =~= a.skip(1));
        assert(digits(r2) =~= c.skip(1));
        lemma_digits_injective(r1, r2);
        lemma_digits_injective(p1, p2);
    }
}

/// No two candidates of one waveform have the same key before manual splits.
pub proof fn candidate_keys_are_unique(r: Record, gates: Seq<Gate>, cfg: AnalConfig, i: int, j: int)
    requires
        r.valid(),
        0 <= i < j < raw_candidates(r, gates, cfg).len(),
    ensures
        raw_candidates(r, gates, cfg)[i].key != raw_candidates(r, gates, cfg)[j].key,
{
    let level = detection_level(r, cfg);
    let all = echoes(r, level, 0, 0);
    lemma_size(r);
    lemma_echoes(r, level, 0, 0);
    assert(comes_before(all[i], all[j]));
    assert(all[i].region >= 0 && all[i].place >= 0 && all[j].region >= 0 && all[j].place >= 0);
    echo_keys_are_unique(
        all[i].region as nat,
        all[i].place as nat,
        all[j].region as nat,
        all[j].place as nat,
    );
}

// ---------------------------------------------------------------- candidates

/// Whether a candidate lies inside the waveform with its peak inside its interval,
/// is measured at its peak, has a depth if and only if depths are given, and bears no
/// conclusion.
pub open spec fn is_sound(r: Record, gates: Seq<Gate>, depth: Option<Seq<Quantity>>, c: CandidateModel) -> bool {
    &&& 0 <= c.start_sample <= c.peak_sample < c.end_sample <= r.size()
    &&& c.amp == r.env@[c.peak_sample]
    &&& c.snr == r.snr@[c.peak_sample]
    &&& c.range_mm == r.range_mm@[c.peak_sample]
    &&& c.gate_id == crate::signal::assigned_gate(gates, c.peak_sample)
    &&& c.depth_mm == (if let Some(d) = depth {
        Some(d[c.peak_sample])
    } else {
        None
    })
    &&& c.manual_split <==> c.parent_key is Some
    &&& c.verdict is None
    &&& !c.orphaned
}

proof fn lemma_range_top(env: Seq<Quantity>, start: int, end: int)
    requires
        start < end,
    ensures
        start <= crate::signal::range_top(env, start, end) < end,
    decreases end - start,
{
    if end > start + 1 {
        lemma_range_top(env, start, end - 1);
    }
}

proof fn lemma_parts_sound(
    parent: CandidateModel,
    b: Seq<usize>,
    r: Record,
    gates: Seq<Gate>,
    cfg: AnalConfig,
    depth: Option<Seq<Quantity>>,
    n: int,
)
    requires
        n < b.len(),
        forall|i: int| 0 <= i < b.len() ==> #[trigger] b[i] <= r.size(),
    ensures
        forall|i: int|
            0 <= i < parts(parent, b, r, gates, cfg, depth, n).len() ==> is_sound(
                r,
                gates,
                depth,
                #[trigger] parts(parent, b, r, gates, cfg, depth, n)[i],
            ),
    decreases n,
{
    if n > 0 {
        lemma_parts_sound(parent, b, r, gates, cfg, depth, n - 1);
        let (s, e) = (b[n - 1] as int, b[n] as int);
        if s < e {
            lemma_range_top(r.env@, s, e);
        }
        let rest = parts(parent, b, r, gates, cfg, depth, n - 1);
        let out = parts(parent, b, r, gates, cfg, depth, n);
        assert forall|i: int| 0 <= i < out.len() implies is_sound(r, gates, depth, #[trigger] out[i]) by {
            if i < rest.len() {
                assert(out[i] == rest[i]);
            }
        }
    }
}

pub(crate) proof fn lemma_bounds_below(cuts: Seq<usize>, start: usize, end: usize)
    requires
        start < end,
    ensures
        ({
            let b = bounds(cuts, start, end);
            &&& climbs(b.drop_last(), start as int, end as int)
            &&& b.len() >= 2
            &&& b[0] == start
            &&& b.last() == end
            &&& forall|i: int| 0 <= i < b.len() ==> #[trigger] b[i] <= end
            &&& forall|c: usize|
                start < c < end ==> (#[trigger] b.drop_last().contains(c) <==> cuts.contains(c))
        }),
{
    let low = lower_bounds(cuts, start, end, cuts.len() as int);
    lemma_lower_bounds(cuts, start, end, cuts.len() as int);
    lemma_lower_members(cuts, start, end, cuts.len() as int);
    let b = bounds(cuts, start, end);
    assert(b.drop_last() =~= low);
    let k = choose|k: int| 0 <= k < low.len() && low[k] == start;
    if k > 0 {
        assert(low[0] < low[k]);
        assert(start <= low[0]);
    }
    assert forall|i: int| 0 <= i < b.len() implies #[trigger] b[i] <= end by {
        if i < low.len() {
            assert(b[i] == low[i]);
        }
    }
    assert(cuts.take(cuts.len() as int) =~= cuts);
}

proof fn lemma_lower_members(cuts: Seq<usize>, start: usize, end: usize, n: int)
    requires
        0 <= n <= cuts.len(),
        start < end,
    ensures
        lower_bounds(cuts, start, end, n).contains(start),
        forall|c: usize|
            start < c < end ==> (#[trigger] lower_bounds(cuts, start, end, n).contains(c) <==> cuts.take(n).contains(c)),
    decreases n,
{
    let low = lower_bounds(cuts, start, end, n);
    if n > 0 {
        let prior = lower_bounds(cuts, start, end, n - 1);
        lemma_lower_members(cuts, start, end, n - 1);
        lemma_lower_bounds(cuts, start, end, n - 1);
        let x = cuts[n - 1];
        if start < x < end {
            lemma_with_point(prior, x, start as int, end as int);
        }
        let before = cuts.take(n - 1);
        let now = cuts.take(n);
        assert forall|c: usize| start < c < end implies (#[trigger] low.contains(c) <==> now.contains(c)) by {
            assert(prior.contains(c) <==> before.contains(c));
            if before.contains(c) {
                let i = choose|i: int| 0 <= i < before.len() && before[i] == c;
                assert(now[i] == c);
            }
            if c == x {
                assert(now[n - 1] == c);
            }
            if now.contains(c) && c != x {
                let i = choose|i: int| 0 <= i < now.len() && now[i] == c;
                assert(before[i] == c);
            }
        }
    } else {
        assert(low[0] == start);
        assert(cuts.take(0).len() == 0);
    }
}

/// Whether `s` cuts the interval from `lo` to `hi` into adjoining parts.
pub open spec fn tiles(s: Seq<CandidateModel>, lo: int, hi: int) -> bool {
    &&& s.len() > 0
    &&& s[0].start_sample == lo
    &&& s.last().end_sample == hi
    &&& forall|i: int|
        #![trigger s[i]]
        0 <= i < s.len() ==> s[i].start_sample < s[i].end_sample && (i + 1 < s.len() ==> s[i].end_sample == s[i
            + 1].start_sample)
}

proof fn lemma_parts_tile(
    parent: CandidateModel,
    b: Seq<usize>,
    r: Record,
    gates: Seq<Gate>,
    cfg: AnalConfig,
    depth: Option<Seq<Quantity>>,
    n: int,
)
    requires
        0 <= n < b.len(),
        forall|i: int, j: int| 0 <= i < j < b.len() ==> #[trigger] b[i] < #[trigger] b[j],
    ensures
        ({
            let s = parts(parent, b, r, gates, cfg, depth, n);
            &&& s.len() == n
            &&& forall|i: int|
                0 <= i < n ==> {
                    &&& (#[trigger] s[i]).start_sample == b[i]
                    &&& s[i].end_sample == b[i + 1]
                    &&& s[i].key == parent.key + "#s"@ + digits((i + 1) as nat)
                    &&& s[i].parent_key == Some(parent.key)
                    &&& s[i].manual_split
                    &&& !s[i].composite
                }
        }),
    decreases n,
{
    if n > 0 {
        lemma_parts_tile(parent, b, r, gates, cfg, depth, n - 1);
        assert(b[n - 1] < b[n]);
    }
}

/// A manual split cuts the interval of a candidate into adjoining parts that fill
/// it, with a boundary at each cut strictly inside it and nowhere else; each part is
/// marked as split by hand from its parent.
pub proof fn splits_tile_their_parent(
    parent: CandidateModel,
    cuts: Seq<usize>,
    r: Record,
    gates: Seq<Gate>,
    cfg: AnalConfig,
    depth: Option<Seq<Quantity>>,
)
    requires
        0 <= parent.start_sample < parent.end_sample <= usize::MAX,
    ensures
        ({
            let s = split_parts(parent, cuts, r, gates, cfg, depth);
            &&& tiles(s, parent.start_sample, parent.end_sample)
            &&& forall|i: int|
                0 <= i < s.len() ==> (#[trigger] s[i]).manual_split && s[i].parent_key == Some(parent.key)
                    && s[i].key == parent.key + "#s"@ + digits((i + 1) as nat)
            &&& forall|c: usize|
                parent.start_sample < c < parent.end_sample ==> (#[trigger] cuts.contains(c) <==> exists|i: int|
                    0 <= i < s.len() && (#[trigger] s[i]).start_sample == c)
        }),
{
    let start = parent.start_sample as usize;
    let end = parent.end_sample as usize;
    let b = bounds(cuts, start, end);
    lemma_bounds_below(cuts, start, end);
    assert forall|i: int, j: int| 0 <= i < j < b.len() implies #[trigger] b[i] < #[trigger] b[j] by {
        assert(b[i] == b.drop_last()[i]);
        if j < b.len() - 1 {
            assert(b[j] == b.drop_last()[j]);
        }
    }
    lemma_parts_tile(parent, b, r, gates, cfg, depth, b.len() - 1);
    let s = split_parts(parent, cuts, r, gates, cfg, depth);
    assert(s == parts(parent, b, r, gates, cfg, depth, b.len() - 1));
    assert(s[0].start_sample == b[0]);
    assert(s.last() == s[b.len() - 2]);
    assert forall|i: int| #![trigger s[i]] 0 <= i < s.len() implies s[i].start_sample < s[i].end_sample && (i + 1
        < s.len() ==> s[i].end_sample == s[i + 1].start_sample) by {
        assert(b[i] < b[i + 1]);
        if i + 1 < s.len() {
            assert(s[i + 1].start_sample == b[i + 1]);
        }
    }
    assert forall|c: usize| parent.start_sample < c < parent.end_sample implies (#[trigger] cuts.contains(c)
        <==> exists|i: int| 0 <= i < s.len() && (#[trigger] s[i]).start_sample == c) by {
        let low = b.drop_last();
        assert(low.contains(c) <==> cuts.contains(c));
        if low.contains(c) {
            let i = choose|i: int| 0 <= i < low.len() && low[i] == c;
            assert(s[i].start_sample == c);
        }
        if exists|i: int| 0 <= i < s.len() && (#[trigger] s[i]).start_sample == c {
            let i = choose|i: int| 0 <= i < s.len() && (#[trigger] s[i]).start_sample == c;
            assert(low[i] == c);
        }
    }
}

proof fn lemma_split_up_sound(
    raw: Seq<CandidateModel>,
    splits: Seq<SplitModel>,
    r: Record,
    gates: Seq<Gate>,
    cfg: AnalConfig,
    depth: Option<Seq<Quantity>>,
    n: int,
)
    requires
        r.valid(),
        r.size() <= usize::MAX,
        n <= splits.len(),
        forall|i: int| 0 <= i < raw.len() ==> is_sound(r, gates, depth, #[trigger] raw[i]),
    ensures
        forall|i: int|
            0 <= i < split_up(raw, splits, r, gates, cfg, depth, n).len() ==> is_sound(
                r,
                gates,
                depth,
                #[trigger] split_up(raw, splits, r, gates, cfg, depth, n)[i],
            ),
    decreases n,
{
    if n > 0 {
        lemma_split_up_sound(raw, splits, r, gates, cfg, depth, n - 1);
        let rest = split_up(raw, splits, r, gates, cfg, depth, n - 1);
        let key = splits[n - 1].parent_key;
        lemma_search(raw, keyed(key));
        if let Some(k) = first_where(raw, keyed(key)) {
            let c = raw[k];
            assert(is_sound(r, gates, depth, c));
            let b = bounds(splits[n - 1].cuts, c.start_sample as usize, c.end_sample as usize);
            lemma_bounds_below(splits[n - 1].cuts, c.start_sample as usize, c.end_sample as usize);
            assert forall|i: int| 0 <= i < b.len() implies #[trigger] b[i] <= r.size() by {
                assert(b[i] <= c.end_sample as usize);
            }
            lemma_parts_sound(c, b, r, gates, cfg, depth, b.len() - 1);
            let kids = split_parts(c, splits[n - 1].cuts, r, gates, cfg, depth);
            let out = split_up(raw, splits, r, gates, cfg, depth, n);
            assert(out == rest + kids);
            assert forall|i: int| 0 <= i < out.len() implies is_sound(r, gates, depth, #[trigger] out[i]) by {
                if i < rest.len() {
                    assert(out[i] == rest[i]);
                } else {
                    assert(out[i] == kids[i - rest.len()]);
                }
            }
        }
    }
}

proof fn lemma_unsplit_sound(
    raw: Seq<CandidateModel>,
    splits: Seq<SplitModel>,
    r: Record,
    gates: Seq<Gate>,
    depth: Option<Seq<Quantity>>,
    n: int,
)
    requires
        n <= raw.len(),
        forall|i: int| 0 <= i < raw.len() ==> is_sound(r, gates, depth, #[trigger] raw[i]),
    ensures
        forall|i: int|
            0 <= i < unsplit(raw, splits, n).len() ==> is_sound(r, gates, depth, #[trigger] unsplit(raw, splits, n)[i]),
    decreases n,
{
    if n > 0 {
        lemma_unsplit_sound(raw, splits, r, gates, depth, n - 1);
        assert(is_sound(r, gates, depth, raw[n - 1]));
        let rest = unsplit(raw, splits, n - 1);
        let out = unsplit(raw, splits, n);
        assert forall|i: int| 0 <= i < out.len() implies is_sound(r, gates, depth, #[trigger] out[i]) by {
            if i < rest.len() {
                assert(out[i] == rest[i]);
            }
        }
    }
}

/// The candidates of an analysis come in the order of their peaks. Each lies inside
/// the waveform, has its peak inside its interval, is measured at its peak and
/// belongs to the first gate that holds its peak. Each has a depth, unless the
/// surface arrives later than the bottom: then none has one, so the depth axis is
/// never inverted.
pub proof fn candidates_are_ordered_and_sound(
    r: Record,
    gates: Seq<Gate>,
    cfg: AnalConfig,
    splits: Seq<SplitModel>,
)
    requires
        r.valid(),
    ensures
        ({
            let s = found_candidates(r, gates, cfg, splits);
            let all = echoes(r, detection_level(r, cfg), 0, 0);
            &&& forall|i: int, j: int|
                0 <= i < j < s.len() ==> (#[trigger] s[i]).peak_sample <= (#[trigger] s[j]).peak_sample
            &&& forall|i: int| 0 <= i < s.len() ==> is_sound(r, gates, depths(r, all, gates), #[trigger] s[i])
            &&& surface_after_bottom(r, all, gates) ==> forall|i: int|
                0 <= i < s.len() ==> (#[trigger] s[i]).depth_mm is None
            &&& !surface_after_bottom(r, all, gates) ==> forall|i: int|
                0 <= i < s.len() ==> (#[trigger] s[i]).depth_mm == Some(r.depth_mm@[s[i].peak_sample])
        }),
{
    let level = detection_level(r, cfg);
    let all = echoes(r, level, 0, 0);
    let depth = depths(r, all, gates);
    let raw = raw_candidates(r, gates, cfg);
    lemma_size(r);
    lemma_echoes(r, level, 0, 0);
    assert forall|i: int| 0 <= i < raw.len() implies is_sound(r, gates, depth, #[trigger] raw[i]) by {
        assert(echo_fits(r, all[i]));
        lemma_top_within(r.env@, all[i].lobes, all[i].start, all[i].end);
    }
    lemma_split_up_sound(raw, splits, r, gates, cfg, depth, splits.len() as int);
    lemma_unsplit_sound(raw, splits, r, gates, depth, raw.len() as int);
    let a = split_up(raw, splits, r, gates, cfg, depth, splits.len() as int);
    let b = unsplit(raw, splits, raw.len() as int);
    let p = |c: CandidateModel| is_sound(r, gates, depth, c);
    assert forall|i: int| 0 <= i < (a + b).len() implies p(#[trigger] (a + b)[i]) by {
        if i < a.len() {
            assert((a + b)[i] == a[i]);
        } else {
            assert((a + b)[i] == b[i - a.len()]);
        }
    }
    lemma_sorted_all::<Candidate>(a + b, p);
    sorting_orders_and_keeps_every_item::<Candidate>(a + b);
    let s = found_candidates(r, gates, cfg, splits);
    assert forall|i: int, j: int| 0 <= i < j < s.len() implies (#[trigger] s[i]).peak_sample <= (
    #[trigger] s[j]).peak_sample by {
        assert(<Candidate as Ranked>::ranks(s[i], s[j]));
    }
    assert forall|i: int| 0 <= i < s.len() implies is_sound(r, gates, depth, #[trigger] s[i]) by {
        assert(p(s[i]));
    }
}

pub(crate) proof fn lemma_unsplit_members(raw: Seq<CandidateModel>, splits: Seq<SplitModel>, n: int, c: CandidateModel)
    requires
        0 <= n <= raw.len(),
    ensures
        unsplit(raw, splits, n).contains(c) <==> raw.take(n).contains(c) && !is_split(splits, c.key),
    decreases n,
{
    let now = raw.take(n);
    if n > 0 {
        let before = raw.take(n - 1);
        let rest = unsplit(raw, splits, n - 1);
        let out = unsplit(raw, splits, n);
        lemma_unsplit_members(raw, splits, n - 1, c);
        if before.contains(c) {
            let i = choose|i: int| 0 <= i < before.len() && before[i] == c;
            assert(now[i] == c);
        }
        if c == raw[n - 1] {
            assert(now[n - 1] == c);
        }
        if now.contains(c) && c != raw[n - 1] {
            let i = choose|i: int| 0 <= i < now.len() && now[i] == c;
            assert(before[i] == c);
        }
        if rest.contains(c) {
            let i = choose|i: int| 0 <= i < rest.len() && rest[i] == c;
            assert(out[i] == c);
        }
        if !is_split(splits, raw[n - 1].key) {
            if c == raw[n - 1] {
                assert(out[rest.len() as int] == c);
            }
            if out.contains(c) && c != raw[n - 1] {
                let i = choose|i: int| 0 <= i < out.len() && out[i] == c;
                assert(rest[i] == c);
            }
        }
    } else {
        assert(unsplit(raw, splits, 0).len() == 0);
        assert(now.len() == 0);
    }
}

proof fn lemma_parts_marked(
    parent: CandidateModel,
    b: Seq<usize>,
    r: Record,
    gates: Seq<Gate>,
    cfg: AnalConfig,
    depth: Option<Seq<Quantity>>,
    n: int,
)
    ensures
        forall|i: int|
            0 <= i < parts(parent, b, r, gates, cfg, depth, n).len() ==> (#[trigger] parts(
                parent,
                b,
                r,
                gates,
                cfg,
                depth,
                n,
            )[i]).parent_key == Some(parent.key),
    decreases n,
{
    if n > 0 {
        lemma_parts_marked(parent, b, r, gates, cfg, depth, n - 1);
        let rest = parts(parent, b, r, gates, cfg, depth, n - 1);
        let out = parts(parent, b, r, gates, cfg, depth, n);
        assert forall|i: int| 0 <= i < out.len() implies (#[trigger] out[i]).parent_key == Some(parent.key) by {
            if i < rest.len() {
                assert(out[i] == rest[i]);
            }
        }
    }
}

/// Whether a candidate is a part of one that a manual split is recorded for.
pub open spec fn is_part(splits: Seq<SplitModel>, c: CandidateModel) -> bool {
    c.parent_key matches Some(key) && is_split(splits, key)
}

proof fn lemma_split_up_marked(
    raw: Seq<CandidateModel>,
    splits: Seq<SplitModel>,
    r: Record,
    gates: Seq<Gate>,
    cfg: AnalConfig,
    depth: Option<Seq<Quantity>>,
    n: int,
)
    requires
        0 <= n <= splits.len(),
    ensures
        forall|i: int|
            0 <= i < split_up(raw, splits, r, gates, cfg, depth, n).len() ==> is_part(
                splits,
                #[trigger] split_up(raw, splits, r, gates, cfg, depth, n)[i],
            ),
    decreases n,
{
    if n > 0 {
        lemma_split_up_marked(raw, splits, r, gates, cfg, depth, n - 1);
        let rest = split_up(raw, splits, r, gates, cfg, depth, n - 1);
        let out = split_up(raw, splits, r, gates, cfg, depth, n);
        let key = splits[n - 1].parent_key;
        lemma_search(raw, keyed(key));
        if let Some(k) = first_where(raw, keyed(key)) {
            let c = raw[k];
            assert(keyed(key)(c));
            let b = bounds(splits[n - 1].cuts, c.start_sample as usize, c.end_sample as usize);
            lemma_parts_marked(c, b, r, gates, cfg, depth, b.len() - 1);
            let kids = split_parts(c, splits[n - 1].cuts, r, gates, cfg, depth);
            assert forall|i: int| 0 <= i < out.len() implies is_part(splits, #[trigger] out[i]) by {
                if i < rest.len() {
                    assert(out[i] == rest[i]);
                } else {
                    assert(out[i] == kids[i - rest.len()]);
                    assert(splits[n - 1].parent_key == key);
                }
            }
        }
    }
}

/// A candidate that no manual split is recorded for is found as it is; one that has a
/// split is not found itself, only parts of it.
pub proof fn splits_replace_their_candidates(
    r: Record,
    gates: Seq<Gate>,
    cfg: AnalConfig,
    splits: Seq<SplitModel>,
    c: CandidateModel,
)
    ensures
        raw_candidates(r, gates, cfg).contains(c) && !is_split(splits, c.key) ==> found_candidates(
            r,
            gates,
            cfg,
            splits,
        ).contains(c),
        found_candidates(r, gates, cfg, splits).contains(c) ==> is_part(splits, c) || raw_candidates(
            r,
            gates,
            cfg,
        ).contains(c) && !is_split(splits, c.key),
{
    let all = echoes(r, detection_level(r, cfg), 0, 0);
    let depth = depths(r, all, gates);
    let raw = raw_candidates(r, gates, cfg);
    let a = split_up(raw, splits, r, gates, cfg, depth, splits.len() as int);
    let b = unsplit(raw, splits, raw.len() as int);
    lemma_sorted_members::<Candidate>(a + b);
    lemma_unsplit_members(raw, splits, raw.len() as int, c);
    assert(raw.take(raw.len() as int) =~= raw);
    lemma_split_up_marked(raw, splits, r, gates, cfg, depth, splits.len() as int);
    if b.contains(c) {
        let i = choose|i: int| 0 <= i < b.len() && b[i] == c;
        assert((a + b)[a.len() + i] == c);
    }
    if (a + b).contains(c) {
        let i = choose|i: int| 0 <= i < (a + b).len() && (a + b)[i] == c;
        if i < a.len() {
            assert(a[i] == c);
            assert(is_part(splits, a[i]));
        } else {
            assert(b[i - a.len()] == c);
        }
    }
    assert(found_candidates(r, gates, cfg, splits) == sorted::<Candidate>(a + b));
}

// ---------------------------------------------------------------- keys after splits

/// The key of a candidate.
pub open spec fn by_key() -> spec_fn(CandidateModel) -> Seq<char> {
    |c: CandidateModel| c.key
}

/// Whether at most one manual split is recorded for each of the candidates in `raw`.
pub open spec fn split_once(raw: Seq<CandidateModel>, splits: Seq<SplitModel>) -> bool {
    forall|i: int, j: int|
        0 <= i < j < splits.len() && (#[trigger] splits[i]).parent_key == (#[trigger] splits[j]).parent_key
            ==> first_where(raw, keyed(splits[i].parent_key)) is None
}

/// Whether a key is that of a part of the candidate with the key `parent`.
pub open spec fn is_part_key(parent: Seq<char>, key: Seq<char>) -> bool {
    exists|m: nat| key == parent + "#s"@ + #[trigger] digits(m)
}

/// Whether a key is that of a part that one of the first `n` splits makes of a
/// candidate in `raw`.
pub open spec fn is_part_of_some(
    raw: Seq<CandidateModel>,
    splits: Seq<SplitModel>,
    key: Seq<char>,
    n: int,
) -> bool {
    exists|j: int|
        0 <= j < n && is_part_key((#[trigger] splits[j]).parent_key, key) && first_where(
            raw,
            keyed(splits[j].parent_key),
        ) is Some
}

proof fn lemma_raw_keys(r: Record, gates: Seq<Gate>, cfg: AnalConfig, i: int)
    requires
        0 <= i < raw_candidates(r, gates, cfg).len(),
    ensures
        !raw_candidates(r, gates, cfg)[i].key.contains('#'),
{
    let e = echoes(r, detection_level(r, cfg), 0, 0)[i];
    reveal_strlit("r");
    reveal_strlit("c");
    lemma_no_mark(e.region as nat, '#');
    lemma_no_mark(e.place as nat, '#');
    let a = digits(e.region as nat);
    let b = digits(e.place as nat);
    let key = "r"@ + a + "c"@ + b;
    assert(raw_candidates(r, gates, cfg)[i].key == key);
    assert forall|k: int| 0 <= k < key.len() implies key[k] != '#' by {
        if 1 <= k <= a.len() {
            assert(key[k] == a[k - 1]);
        } else if k > a.len() + 1 {
            assert(key[k] == b[k - a.len() - 2]);
        }
    }
}

proof fn lemma_part_keys(p: Seq<char>, a: nat, q: Seq<char>, b: nat)
    requires
        p + "#s"@ + digits(a) == q + "#s"@ + digits(b),
        !p.contains('#'),
        !q.contains('#'),
    ensures
        p == q,
        a == b,
{
    reveal_strlit("#s");
    let x = seq!['s'] + digits(a);
    let y = seq!['s'] + digits(b);
    assert(p + "#s"@ + digits(a) =~= p + seq!['#'] + x);
    assert(q + "#s"@ + digits(b) =~= q + seq!['#'] + y);
    lemma_split_text(p, x, q, y, '#');
    assert(digits(a) =~= x.skip(1));
    assert(digits(b) =~= y.skip(1));
    lemma_digits_injective(a, b);
}

proof fn lemma_part_key_marked(parent: Seq<char>, key: Seq<char>)
    requires
        is_part_key(parent, key),
    ensures
        key.contains('#'),
{
    let m = choose|m: nat| key == parent + "#s"@ + #[trigger] digits(m);
    reveal_strlit("#s");
    assert(key[parent.len() as int] == '#');
}

proof fn lemma_split_up_keys(
    raw: Seq<CandidateModel>,
    splits: Seq<SplitModel>,
    r: Record,
    gates: Seq<Gate>,
    cfg: AnalConfig,
    depth: Option<Seq<Quantity>>,
    n: int,
)
    requires
        0 <= n <= splits.len(),
        split_once(raw, splits),
        forall|i: int|
            0 <= i < raw.len() ==> 0 <= (#[trigger] raw[i]).start_sample < raw[i].end_sample <= usize::MAX
                && !raw[i].key.contains('#'),
    ensures
        ({
            let s = split_up(raw, splits, r, gates, cfg, depth, n);
            &&& distinct(s, by_key())
            &&& forall|i: int| 0 <= i < s.len() ==> is_part_of_some(raw, splits, (#[trigger] s[i]).key, n)
        }),
    decreases n,
{
    if n > 0 {
        lemma_split_up_keys(raw, splits, r, gates, cfg, depth, n - 1);
        let rest = split_up(raw, splits, r, gates, cfg, depth, n - 1);
        let out = split_up(raw, splits, r, gates, cfg, depth, n);
        let key = splits[n - 1].parent_key;
        let kids = out.skip(rest.len() as int);
        lemma_search(raw, keyed(key));
        if let Some(k) = first_where(raw, keyed(key)) {
            assert(keyed(key)(raw[k]));
            assert(kids =~= split_parts(raw[k], splits[n - 1].cuts, r, gates, cfg, depth));
            splits_tile_their_parent(raw[k], splits[n - 1].cuts, r, gates, cfg, depth);
        }
        assert forall|i: int| 0 <= i < out.len() implies is_part_of_some(raw, splits, (#[trigger] out[i]).key, n) by {
            if i < rest.len() {
                assert(out[i] == rest[i]);
                let j = choose|j: int|
                    0 <= j < n - 1 && is_part_key((#[trigger] splits[j]).parent_key, rest[i].key) && first_where(
                        raw,
                        keyed(splits[j].parent_key),
                    ) is Some;
                assert(is_part_key(splits[j].parent_key, out[i].key));
            } else {
                assert(out[i] == kids[i - rest.len()]);
                assert(is_part_key(splits[n - 1].parent_key, out[i].key));
            }
        }
        assert forall|i: int, j: int| 0 <= i < j < out.len() implies by_key()(#[trigger] out[i]) != by_key()(
            #[trigger] out[j],
        ) by {
            if j < rest.len() {
                assert(by_key()(rest[i]) != by_key()(rest[j]));
            } else {
                let y = j - rest.len();
                assert(out[j] == kids[y]);
                if out[i].key == out[j].key {
                    if i < rest.len() {
                        assert(out[i] == rest[i]);
                        let x = choose|x: int|
                            0 <= x < n - 1 && is_part_key((#[trigger] splits[x]).parent_key, rest[i].key)
                                && first_where(raw, keyed(splits[x].parent_key)) is Some;
                        let other = splits[x].parent_key;
                        lemma_search(raw, keyed(other));
                        assert(keyed(other)(raw[first_where(raw, keyed(other))->0]));
                        let m = choose|m: nat| rest[i].key == other + "#s"@ + #[trigger] digits(m);
                        lemma_part_keys(other, m, key, (y + 1) as nat);
                        assert(splits[x].parent_key == splits[n - 1].parent_key);
                    } else {
                        let x = i - rest.len();
                        assert(out[i] == kids[x]);
                        lemma_part_keys(key, (x + 1) as nat, key, (y + 1) as nat);
                    }
                }
            }
        }
    }
}

proof fn lemma_unsplit_keys(raw: Seq<CandidateModel>, splits: Seq<SplitModel>, n: int)
    requires
        0 <= n <= raw.len(),
        distinct(raw, by_key()),
    ensures
        distinct(unsplit(raw, splits, n), by_key()),
    decreases n,
{
    if n > 0 {
        lemma_unsplit_keys(raw, splits, n - 1);
        let rest = unsplit(raw, splits, n - 1);
        let out = unsplit(raw, splits, n);
        assert forall|i: int, j: int| 0 <= i < j < out.len() implies by_key()(#[trigger] out[i]) != by_key()(
            #[trigger] out[j],
        ) by {
            assert(out[i] == rest[i]);
            if j < rest.len() {
                assert(out[j] == rest[j]);
            } else {
                let before = raw.take(n - 1);
                lemma_unsplit_members(raw, splits, n - 1, rest[i]);
                assert(rest.contains(rest[i]));
                let k = choose|k: int| 0 <= k < before.len() && before[k] == rest[i];
                assert(by_key()(raw[k]) != by_key()(raw[n - 1]));
            }
        }
    }
}

/// No two candidates of one waveform have the same key, whatever is split by hand, as
/// long as no candidate is split twice.
pub proof fn found_keys_are_unique(r: Record, gates: Seq<Gate>, cfg: AnalConfig, splits: Seq<SplitModel>)
    requires
        r.valid(),
        split_once(raw_candidates(r, gates, cfg), splits),
    ensures
        distinct(found_candidates(r, gates, cfg, splits), by_key()),
{
    let level = detection_level(r, cfg);
    let all = echoes(r, level, 0, 0);
    let depth = depths(r, all, gates);
    let raw = raw_candidates(r, gates, cfg);
    let a = split_up(raw, splits, r, gates, cfg, depth, splits.len() as int);
    let b = unsplit(raw, splits, raw.len() as int);
    lemma_size(r);
    lemma_echoes(r, level, 0, 0);
    assert forall|i: int| 0 <= i < raw.len() implies 0 <= (#[trigger] raw[i]).start_sample < raw[i].end_sample
        <= usize::MAX && !raw[i].key.contains('#') by {
        assert(echo_fits(r, all[i]));
        lemma_raw_keys(r, gates, cfg, i);
    }
    assert forall|i: int, j: int| 0 <= i < j < raw.len() implies by_key()(#[trigger] raw[i]) != by_key()(
        #[trigger] raw[j],
    ) by {
        candidate_keys_are_unique(r, gates, cfg, i, j);
    }
    lemma_split_up_keys(raw, splits, r, gates, cfg, depth, splits.len() as int);
    lemma_unsplit_keys(raw, splits, raw.len() as int);
    let s = a + b;
    assert forall|i: int, j: int| 0 <= i < j < s.len() implies by_key()(#[trigger] s[i]) != by_key()(
        #[trigger] s[j],
    ) by {
        if j < a.len() {
            assert(by_key()(a[i]) != by_key()(a[j]));
        } else {
            let y = j - a.len();
            assert(s[j] == b[y]);
            if i < a.len() {
                assert(s[i] == a[i]);
                let x = choose|x: int|
                    0 <= x < splits.len() && is_part_key((#[trigger] splits[x]).parent_key, a[i].key) && first_where(
                        raw,
                        keyed(splits[x].parent_key),
                    ) is Some;
                lemma_part_key_marked(splits[x].parent_key, a[i].key);
                lemma_unsplit_members(raw, splits, raw.len() as int, b[y]);
                assert(raw.take(raw.len() as int) =~= raw);
                assert(b.contains(b[y]));
                let k = choose|k: int| 0 <= k < raw.len() && raw[k] == b[y];
                assert(!raw[k].key.contains('#'));
            } else {
                assert(s[i] == b[i - a.len()]);
                assert(by_key()(b[i - a.len()]) != by_key()(b[y]));
            }
        }
    }
    lemma_sorted_distinct::<Candidate, Seq<char>>(s, by_key());
}

} // verus!
