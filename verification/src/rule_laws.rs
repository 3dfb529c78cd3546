//! What holds of every event of the adjudication state.

use vstd::prelude::*;

use crate::detection::{lemma_lobe_count, lobes, lobes_are_separate_runs, run_end, CandidateKind, RegionModel};
use crate::model::{Candidate, CandidateModel, EventModel, GateModel, ScanModel, TrackModel, WorldModel};
use crate::order::{
    ascending, distinct, lemma_sorted_distinct, lemma_sorted_members, sorted, sorting_orders_and_keeps_every_item,
};
use crate::quantity::Quantity;
use crate::rules::{
    all_lobes, applied, candidate_id, candidate_index, chained, counted, counter, early_bottom, gate_index, harvest, harvest_scan,
    inversion, is_early_bottom, kept, locked_ones, member_fault, overlaps, places, redetected, rethresholded,
    scan_repeats, split_done, taken, with_id, with_track_id, Harvest, Place,
};
use crate::seqs::{first_where, lemma_search};
use crate::setup::{booted, lemma_first_surfaces, unexamined, SetupModel};
use crate::text::{digits, lemma_digits_injective, lemma_digits_shape, lemma_split_text, signed_digits};

verus! {

// ---------------------------------------------------------------- refusals

/// Whether the only fault of a track is that its id is used already.
pub open spec fn only_the_id_is_used(w: WorldModel, track_id: i64, ids: Seq<Seq<char>>) -> bool {
    &&& !w.inverted
    &&& ids.len() >= 2
    &&& member_fault(w.candidates, ids, 0) is None
    &&& !scan_repeats(w.candidates, ids)
    &&& chained(w.scans, sorted::<Place>(places(w, ids)))
    &&& first_where(w.tracks, with_track_id(track_id)) is Some
}

/// A refused event leaves the state as it was. A track whose only fault is that its
/// id is used already is no such event: its members are marked before that is seen.
pub proof fn refused_events_change_nothing(w: WorldModel, e: EventModel)
    requires
        applied(w, e).result is Err,
        e matches EventModel::TrackGrouped { track_id, candidate_ids } ==> !only_the_id_is_used(w, track_id, candidate_ids),
    ensures
        applied(w, e).world == w,
{
}

/// While the depth axis is inverted, verdicts, splits and tracks are refused.
pub proof fn inversion_blocks_decisions(w: WorldModel, e: EventModel)
    requires
        w.inverted,
        e is CandidateVerdict || e is CandidateSplit || e is TrackGrouped,
    ensures
        applied(w, e).result is Err,
        applied(w, e).world == w,
{
}

/// Whether some bottom arrives no later than the surface.
pub open spec fn has_early_bottom(w: WorldModel) -> bool {
    exists|i: int| 0 <= i < w.candidates.len() && early_bottom(w.surfaces, #[trigger] w.candidates[i])
}

/// Whether the inversion flag says what the candidates show: it is set if and only
/// if some bottom arrives no later than the surface, and a reason is given with it.
pub open spec fn flag_is_exact(w: WorldModel) -> bool {
    &&& w.inverted <==> has_early_bottom(w)
    &&& w.inverted <==> w.inverted_reason is Some
}

proof fn lemma_flag(w: WorldModel)
    requires
        w.inverted == (inversion(w) is Some),
        w.inverted_reason == inversion(w),
    ensures
        flag_is_exact(w),
{
    let p = is_early_bottom(w.surfaces);
    lemma_search(w.candidates, p);
    if let Some(i) = first_where(w.candidates, p) {
        assert(p(w.candidates[i]));
        assert(early_bottom(w.surfaces, w.candidates[i]));
    } else {
        assert forall|i: int| 0 <= i < w.candidates.len() implies !early_bottom(
            w.surfaces,
            #[trigger] w.candidates[i],
        ) by {
            assert(!p(w.candidates[i]));
        }
    }
}

/// After a corrected surface, a changed threshold, a verdict or a switched
/// calibration the inversion flag says what the candidates show.
pub proof fn the_inversion_flag_is_exact(w: WorldModel, e: EventModel)
    requires
        applied(w, e).result is Ok,
        e is SurfaceCorrected || e is ThresholdChanged || e is CandidateVerdict || e is CalibrationSwitched,
    ensures
        flag_is_exact(applied(w, e).world),
{
    lemma_flag(applied(w, e).world);
}

/// An exact inversion flag stays exact under every event, unless a moved gate or a
/// split turns up the first early bottom, or does away with the last one.
pub proof fn the_inversion_flag_stays_exact(w: WorldModel, e: EventModel)
    requires
        flag_is_exact(w),
        e is GateMoved || e is CandidateSplit ==> has_early_bottom(applied(w, e).world) == has_early_bottom(w),
    ensures
        flag_is_exact(applied(w, e).world),
{
    let new = applied(w, e).world;
    if applied(w, e).result is Ok && (e is SurfaceCorrected || e is ThresholdChanged || e is CandidateVerdict
        || e is CalibrationSwitched) {
        lemma_flag(new);
    } else if e is TrackGrouped {
        assert(new.surfaces == w.surfaces && new.inverted == w.inverted);
        assert forall|i: int| 0 <= i < w.candidates.len() implies early_bottom(
            w.surfaces,
            #[trigger] w.candidates[i],
        ) == early_bottom(new.surfaces, new.candidates[i]) by {}
        if has_early_bottom(w) {
            let i = choose|i: int| 0 <= i < w.candidates.len() && early_bottom(w.surfaces, #[trigger] w.candidates[i]);
            assert(early_bottom(new.surfaces, new.candidates[i]));
        }
        if has_early_bottom(new) {
            let i = choose|i: int|
                0 <= i < new.candidates.len() && early_bottom(new.surfaces, #[trigger] new.candidates[i]);
            assert(early_bottom(w.surfaces, w.candidates[i]));
        }
    }
}

// ---------------------------------------------------------------- histories

/// Whether what was recorded of a candidate when it was made is the same in `a` and
/// in `b`.
pub open spec fn same_record(a: CandidateModel, b: CandidateModel) -> bool {
    &&& a.id == b.id
    &&& a.scan_id == b.scan_id
    &&& a.start == b.start
    &&& a.end == b.end
    &&& a.peak == b.peak
    &&& a.amplitude == b.amplitude
    &&& a.lower_bound == b.lower_bound
    &&& a.kind == b.kind
    &&& a.sub_peaks == b.sub_peaks
    &&& a.origin == b.origin
    &&& a.depth_snapshot == b.depth_snapshot
    &&& a.calib_id_snapshot == b.calib_id_snapshot
}

/// A corrected surface, a moved gate, a verdict, a track and a switched calibration
/// keep every candidate, in its place, with its interval, its amplitude and the depth
/// and calibration that it was made under; and a locked candidate stays locked.
pub proof fn records_are_kept(w: WorldModel, e: EventModel)
    requires
        e is SurfaceCorrected || e is GateMoved || e is CandidateVerdict || e is TrackGrouped || e is CalibrationSwitched,
    ensures
        ({
            let new = applied(w, e).world.candidates;
            &&& new.len() == w.candidates.len()
            &&& forall|i: int|
                0 <= i < new.len() ==> same_record(w.candidates[i], #[trigger] new[i]) && (w.candidates[i].locked
                    ==> new[i].locked)
        }),
{
}

pub(crate) proof fn lemma_locked_ones(s: Seq<CandidateModel>, c: CandidateModel)
    ensures
        locked_ones(s).contains(c) <==> s.contains(c) && c.locked,
    decreases s.len(),
{
    if s.len() > 0 {
        let front = s.drop_last();
        lemma_locked_ones(front, c);
        if front.contains(c) {
            let i = choose|i: int| 0 <= i < front.len() && front[i] == c;
            assert(s[i] == c);
        }
        if s.contains(c) && c != s.last() {
            let i = choose|i: int| 0 <= i < s.len() && s[i] == c;
            assert(front[i] == c);
        }
        if c == s.last() {
            assert(s[s.len() - 1] == c);
        }
        if s.last().locked {
            let inner = locked_ones(front);
            let out = inner.push(s.last());
            if inner.contains(c) {
                let i = choose|i: int| 0 <= i < inner.len() && inner[i] == c;
                assert(out[i] == c);
            }
            if c == s.last() {
                assert(out[inner.len() as int] == c);
            }
            if out.contains(c) && c != s.last() {
                let i = choose|i: int| 0 <= i < out.len() && out[i] == c;
                assert(inner[i] == c);
            }
        }
    } else {
        assert(locked_ones(s).len() == 0);
    }
}

/// Running detection again keeps every locked candidate as it is, and no other.
pub proof fn locked_candidates_survive_detection(w: WorldModel, c: CandidateModel)
    requires
        c.locked,
    ensures
        redetected(w).candidates.contains(c) <==> w.candidates.contains(c),
{
    let k = kept(w);
    let h = harvest(k, k.scans.len() as int);
    let all = k.candidates + h.added;
    lemma_sorted_members::<Candidate>(all);
    lemma_locked_ones(w.candidates, c);
    lemma_harvest_unlocked(k, k.scans.len() as int);
    if k.candidates.contains(c) {
        let i = choose|i: int| 0 <= i < k.candidates.len() && k.candidates[i] == c;
        assert(all[i] == c);
    }
    if all.contains(c) {
        let i = choose|i: int| 0 <= i < all.len() && all[i] == c;
        if i < k.candidates.len() {
            assert(k.candidates[i] == c);
        } else {
            assert(h.added[i - k.candidates.len()] == c);
        }
    }
    assert(redetected(w).candidates == sorted::<Candidate>(all));
}

/// Whether all that detection gathered is unlocked and found by itself.
pub open spec fn all_fresh(s: Seq<CandidateModel>) -> bool {
    forall|i: int| 0 <= i < s.len() ==> !(#[trigger] s[i]).locked && s[i].verdict is None && s[i].track_id is None
}

proof fn lemma_harvest_scan_unlocked(w: WorldModel, scan: ScanModel, rs: Seq<RegionModel>, n: int, h: Harvest)
    requires
        all_fresh(h.added),
    ensures
        all_fresh(harvest_scan(w, scan, rs, n, h).added),
    decreases n,
{
    if n > 0 {
        lemma_harvest_scan_unlocked(w, scan, rs, n - 1, h);
    }
}

proof fn lemma_harvest_unlocked(w: WorldModel, n: int)
    ensures
        all_fresh(harvest(w, n).added),
    decreases n,
{
    if n > 0 {
        lemma_harvest_unlocked(w, n - 1);
        let scan = w.scans[n - 1];
        let rs = all_lobes(scan.trace, w.levels[n - 1], w.adc_max);
        lemma_harvest_scan_unlocked(w, scan, rs, rs.len() as int, harvest(w, n - 1));
    }
}

/// Whether `c` shares a sample with no candidate of its scan in `s`.
pub open spec fn is_free(s: Seq<CandidateModel>, c: CandidateModel) -> bool {
    forall|i: int| 0 <= i < s.len() && (#[trigger] s[i]).scan_id == c.scan_id ==> !overlaps(s[i], c.start, c.end)
}

/// Whether no two candidates of one scan in `s` share a sample, and none shares one
/// with a candidate in `base`.
pub open spec fn all_free(base: Seq<CandidateModel>, s: Seq<CandidateModel>) -> bool {
    &&& forall|i: int| 0 <= i < s.len() ==> is_free(base, #[trigger] s[i])
    &&& forall|i: int| 0 <= i < s.len() ==> is_free(s.take(i), #[trigger] s[i])
}

proof fn lemma_harvest_scan_free(w: WorldModel, scan: ScanModel, rs: Seq<RegionModel>, n: int, h: Harvest)
    requires
        all_free(w.candidates, h.added),
    ensures
        all_free(w.candidates, harvest_scan(w, scan, rs, n, h).added),
    decreases n,
{
    if n > 0 {
        lemma_harvest_scan_free(w, scan, rs, n - 1, h);
        let before = harvest_scan(w, scan, rs, n - 1, h).added;
        let after = harvest_scan(w, scan, rs, n, h).added;
        if after.len() > before.len() {
            let c = after.last();
            assert(after.drop_last() =~= before);
            assert forall|i: int| 0 <= i < after.len() implies is_free(w.candidates, #[trigger] after[i]) by {
                if i < before.len() {
                    assert(after[i] == before[i]);
                }
            }
            assert forall|i: int| 0 <= i < after.len() implies is_free(after.take(i), #[trigger] after[i]) by {
                if i < before.len() {
                    assert(after[i] == before[i]);
                    assert(after.take(i) =~= before.take(i));
                } else {
                    assert(after.take(i) =~= before);
                }
            }
        } else {
            assert(after == before);
        }
    }
}

/// What detection adds shares no sample with a locked candidate of the same scan, nor
/// with anything else that it adds there.
pub proof fn detection_adds_only_free_candidates(w: WorldModel, n: int)
    ensures
        all_free(w.candidates, harvest(w, n).added),
    decreases n,
{
    if n > 0 {
        detection_adds_only_free_candidates(w, n - 1);
        let scan = w.scans[n - 1];
        let rs = all_lobes(scan.trace, w.levels[n - 1], w.adc_max);
        lemma_harvest_scan_free(w, scan, rs, rs.len() as int, harvest(w, n - 1));
    }
}

proof fn lemma_still_taken(s: Seq<CandidateModel>, c: CandidateModel, id: i64, start: int, end: int)
    requires
        taken(s, id, start, end),
    ensures
        taken(s.push(c), id, start, end),
{
    let i = choose|i: int| 0 <= i < s.len() && (#[trigger] s[i]).scan_id == id && overlaps(s[i], start, end);
    assert(s.push(c)[i] == s[i]);
}

proof fn lemma_scan_keeps_taken(
    w: WorldModel,
    scan: ScanModel,
    rs: Seq<RegionModel>,
    n: int,
    h: Harvest,
    id: i64,
    start: int,
    end: int,
)
    requires
        taken(h.added, id, start, end),
    ensures
        taken(harvest_scan(w, scan, rs, n, h).added, id, start, end),
    decreases n,
{
    if n > 0 {
        lemma_scan_keeps_taken(w, scan, rs, n - 1, h, id, start, end);
        let before = harvest_scan(w, scan, rs, n - 1, h).added;
        let after = harvest_scan(w, scan, rs, n, h).added;
        if after.len() > before.len() {
            assert(after =~= before.push(after.last()));
            lemma_still_taken(before, after.last(), id, start, end);
        } else {
            assert(after == before);
        }
    }
}

proof fn lemma_scan_misses_nothing(w: WorldModel, scan: ScanModel, rs: Seq<RegionModel>, n: int, h: Harvest, k: int)
    requires
        0 <= k < n <= rs.len(),
        rs[k].start < rs[k].end,
        gate_index(w.gates, rs[k].peak) is Some,
    ensures
        taken(w.candidates, scan.id, rs[k].start, rs[k].end) || taken(
            harvest_scan(w, scan, rs, n, h).added,
            scan.id,
            rs[k].start,
            rs[k].end,
        ),
    decreases n,
{
    let before = harvest_scan(w, scan, rs, n - 1, h).added;
    let after = harvest_scan(w, scan, rs, n, h).added;
    if k == n - 1 {
        if after.len() > before.len() {
            assert(after[before.len() as int].scan_id == scan.id);
            assert(overlaps(after[before.len() as int], rs[k].start, rs[k].end));
        }
    } else {
        lemma_scan_misses_nothing(w, scan, rs, n - 1, h, k);
        if taken(before, scan.id, rs[k].start, rs[k].end) {
            if after.len() > before.len() {
                assert(after =~= before.push(after.last()));
                lemma_still_taken(before, after.last(), scan.id, rs[k].start, rs[k].end);
            } else {
                assert(after == before);
            }
        }
    }
}

/// Detection misses nothing: where a trace has a lobe with its peak in a gate, a
/// locked candidate of its scan or one that detection adds shares a sample with it.
pub proof fn detection_misses_no_lobe(w: WorldModel, n: int, at: int, k: int)
    requires
        0 <= at < n <= w.scans.len(),
        0 <= k < all_lobes(w.scans[at].trace, w.levels[at], w.adc_max).len(),
        gate_index(w.gates, all_lobes(w.scans[at].trace, w.levels[at], w.adc_max)[k].peak) is Some,
    ensures
        ({
            let r = all_lobes(w.scans[at].trace, w.levels[at], w.adc_max)[k];
            ||| taken(w.candidates, w.scans[at].id, r.start, r.end)
            ||| taken(harvest(w, n).added, w.scans[at].id, r.start, r.end)
        }),
    decreases n,
{
    let scan = w.scans[n - 1];
    let rs = all_lobes(scan.trace, w.levels[n - 1], w.adc_max);
    let h = harvest(w, n - 1);
    if at == n - 1 {
        lobes_are_separate_runs(scan.trace, 0, scan.trace.size(), w.levels[n - 1], w.adc_max);
        lemma_scan_misses_nothing(w, scan, rs, rs.len() as int, h, k);
    } else {
        detection_misses_no_lobe(w, n - 1, at, k);
        let r = all_lobes(w.scans[at].trace, w.levels[at], w.adc_max)[k];
        if taken(h.added, w.scans[at].id, r.start, r.end) {
            lemma_scan_keeps_taken(w, scan, rs, rs.len() as int, h, w.scans[at].id, r.start, r.end);
        }
    }
}

/// After detection the candidates are in the order of scans and peaks, and each scan
/// lists its own.
pub proof fn detection_leaves_candidates_in_order(w: WorldModel)
    ensures
        ascending::<Candidate>(redetected(w).candidates),
        redetected(w).scans == crate::rules::relisted(w.scans, redetected(w).candidates),
{
    let k = kept(w);
    let h = harvest(k, k.scans.len() as int);
    sorting_orders_and_keeps_every_item::<Candidate>(k.candidates + h.added);
}

// ---------------------------------------------------------------- ids

proof fn lemma_signed_digits(n: int)
    ensures
        signed_digits(n).len() > 0,
        forall|i: int|
            0 <= i < signed_digits(n).len() ==> '0' <= #[trigger] signed_digits(n)[i] <= '9' || signed_digits(n)[i] == '-',
        n < 0 <==> signed_digits(n)[0] == '-',
{
    reveal_strlit("-");
    if n < 0 {
        lemma_digits_shape((-n) as nat);
    } else {
        lemma_digits_shape(n as nat);
    }
}

proof fn lemma_signed_digits_injective(a: int, b: int)
    requires
        signed_digits(a) == signed_digits(b),
    ensures
        a == b,
{
    reveal_strlit("-");
    lemma_signed_digits(a);
    lemma_signed_digits(b);
    if a < 0 {
        assert(digits((-a) as nat) =~= signed_digits(a).skip(1));
        assert(digits((-b) as nat) =~= signed_digits(b).skip(1));
        lemma_digits_injective((-a) as nat, (-b) as nat);
    } else {
        lemma_digits_injective(a as nat, b as nat);
    }
}

proof fn lemma_id_head(id: i64)
    ensures
        !("s"@ + signed_digits(id as int) + "-"@).contains('c'),
{
    reveal_strlit("s");
    reveal_strlit("-");
    lemma_signed_digits(id as int);
    let d = signed_digits(id as int);
    let a = "s"@ + d + "-"@;
    if a.contains('c') {
        let i = choose|i: int| 0 <= i < a.len() && a[i] == 'c';
        if 0 < i <= d.len() {
            assert(a[i] == d[i - 1]);
        }
    }
}

/// No two candidates of a bench can have the same id: it tells the scan and the
/// number of the candidate in it.
pub proof fn candidate_ids_tell_scan_and_number(s1: i64, n1: int, s2: i64, n2: int)
    ensures
        candidate_id(s1, n1) == candidate_id(s2, n2) <==> s1 == s2 && n1 == n2,
{
    if candidate_id(s1, n1) == candidate_id(s2, n2) {
        reveal_strlit("s");
        reveal_strlit("-");
        reveal_strlit("-c");
        let a = "s"@ + signed_digits(s1 as int) + "-"@;
        let c = "s"@ + signed_digits(s2 as int) + "-"@;
        lemma_id_head(s1);
        lemma_id_head(s2);
        assert(candidate_id(s1, n1) =~= a + seq!['c'] + signed_digits(n1));
        assert(candidate_id(s2, n2) =~= c + seq!['c'] + signed_digits(n2));
        lemma_split_text(a, signed_digits(n1), c, signed_digits(n2), 'c');
        assert(signed_digits(s1 as int) =~= a.subrange(1, a.len() - 1));
        assert(signed_digits(s2 as int) =~= c.subrange(1, c.len() - 1));
        lemma_signed_digits_injective(s1 as int, s2 as int);
        lemma_signed_digits_injective(n1, n2);
    }
}

pub open spec fn by_id() -> spec_fn(CandidateModel) -> Seq<char> {
    |c: CandidateModel| c.id
}

/// Whether `n` is the number of a candidate in its scan, and was counted.
pub open spec fn is_number_of(counters: Map<i64, i64>, c: CandidateModel, n: int) -> bool {
    1 <= n <= counter(counters, c.scan_id) && c.id == candidate_id(c.scan_id, n)
}

/// Whether a candidate has a number in its scan that was counted.
pub open spec fn is_numbered(counters: Map<i64, i64>, c: CandidateModel) -> bool {
    exists|n: int| is_number_of(counters, c, n)
}

/// Whether candidates have distinct ids, each with a number that was counted.
pub open spec fn well_numbered(counters: Map<i64, i64>, s: Seq<CandidateModel>) -> bool {
    &&& distinct(s, by_id())
    &&& forall|i: int| 0 <= i < s.len() ==> is_numbered(counters, #[trigger] s[i])
}

proof fn lemma_numbered_push(counters: Map<i64, i64>, s: Seq<CandidateModel>, c: CandidateModel)
    requires
        well_numbered(counters, s),
        c.id == candidate_id(c.scan_id, counter(counters, c.scan_id) + 1),
        0 <= counter(counters, c.scan_id) < i64::MAX,
    ensures
        well_numbered(counted(counters, c.scan_id), s.push(c)),
{
    let key = by_id();
    let more = counted(counters, c.scan_id);
    let out = s.push(c);
    assert forall|i: int| 0 <= i < out.len() implies is_numbered(more, #[trigger] out[i]) by {
        if i < s.len() {
            assert(is_numbered(counters, s[i]));
            let n = choose|n: int| is_number_of(counters, s[i], n);
            assert(is_number_of(more, out[i], n));
        } else {
            assert(is_number_of(more, out[i], counter(counters, c.scan_id) + 1));
        }
    }
    assert forall|i: int, j: int| 0 <= i < j < out.len() implies key(#[trigger] out[i]) != key(#[trigger] out[j]) by {
        if j < s.len() {
            assert(key(s[i]) != key(s[j]));
        } else {
            assert(is_numbered(counters, s[i]));
            let n = choose|n: int| is_number_of(counters, s[i], n);
            candidate_ids_tell_scan_and_number(s[i].scan_id, n, c.scan_id, counter(counters, c.scan_id) + 1);
        }
    }
}

proof fn lemma_counters_positive(w: WorldModel, s: Seq<RegionModel>, scan: ScanModel, n: int, h: Harvest)
    requires
        0 <= counter(h.counters, scan.id),
        counter(h.counters, scan.id) + n <= i64::MAX,
        0 <= n,
    ensures
        ({
            let after = harvest_scan(w, scan, s, n, h).counters;
            &&& counter(h.counters, scan.id) <= counter(after, scan.id) <= counter(h.counters, scan.id) + n
            &&& forall|id: i64| id != scan.id ==> #[trigger] counter(after, id) == counter(h.counters, id)
        }),
    decreases n,
{
    if n > 0 {
        lemma_counters_positive(w, s, scan, n - 1, h);
        let before = harvest_scan(w, scan, s, n - 1, h);
        let after = harvest_scan(w, scan, s, n, h).counters;
        assert(after == before.counters || after == counted(before.counters, scan.id));
        assert forall|id: i64| id != scan.id implies #[trigger] counter(after, id) == counter(h.counters, id) by {
            assert(counter(before.counters, id) == counter(h.counters, id));
        }
    }
}

proof fn lemma_harvest_scan_numbered(
    w: WorldModel,
    base: Seq<CandidateModel>,
    scan: ScanModel,
    rs: Seq<RegionModel>,
    n: int,
    h: Harvest,
)
    requires
        0 <= n,
        0 <= counter(h.counters, scan.id),
        counter(h.counters, scan.id) + n <= i64::MAX,
        well_numbered(h.counters, base + h.added),
    ensures
        well_numbered(
            harvest_scan(w, scan, rs, n, h).counters,
            base + harvest_scan(w, scan, rs, n, h).added,
        ),
    decreases n,
{
    if n > 0 {
        lemma_harvest_scan_numbered(w, base, scan, rs, n - 1, h);
        lemma_counters_positive(w, rs, scan, n - 1, h);
        let before = harvest_scan(w, scan, rs, n - 1, h);
        let after = harvest_scan(w, scan, rs, n, h);
        if after.added.len() > before.added.len() {
            let c = after.added.last();
            assert(after.added =~= before.added.push(c));
            assert(base + after.added =~= (base + before.added).push(c));
            lemma_numbered_push(before.counters, base + before.added, c);
        } else {
            assert(after == before);
        }
    }
}

proof fn lemma_harvest_numbered(w: WorldModel, base: Seq<CandidateModel>, n: int)
    requires
        w.valid(),
        w.has_room(),
        0 <= n <= w.scans.len(),
        forall|id: i64| 0 <= #[trigger] counter(w.counters, id),
        well_numbered(w.counters, base),
    ensures
        well_numbered(harvest(w, n).counters, base + harvest(w, n).added),
        forall|i: int|
            n <= i < w.scans.len() ==> counter(harvest(w, n).counters, (#[trigger] w.scans[i]).id) == counter(
                w.counters,
                w.scans[i].id,
            ),
        forall|id: i64| 0 <= #[trigger] counter(harvest(w, n).counters, id),
    decreases n,
{
    if n > 0 {
        lemma_harvest_numbered(w, base, n - 1);
        let scan = w.scans[n - 1];
        let h = harvest(w, n - 1);
        let rs = all_lobes(scan.trace, w.levels[n - 1], w.adc_max);
        assert(crate::rules::scan_fits(scan, w.samples, w.scans.len() as int, n - 1));
        lemma_lobe_count(scan.trace, 0, scan.trace.size(), w.levels[n - 1], w.adc_max);
        assert(counter(h.counters, scan.id) == counter(w.counters, scan.id));
        assert(counter(w.counters, scan.id) + w.samples <= i64::MAX);
        lemma_counters_positive(w, rs, scan, rs.len() as int, h);
        lemma_harvest_scan_numbered(w, base, scan, rs, rs.len() as int, h);
        assert forall|i: int| n <= i < w.scans.len() implies counter(
            harvest(w, n).counters,
            (#[trigger] w.scans[i]).id,
        ) == counter(w.counters, w.scans[i].id) by {
            assert(w.scans[n - 1].id != w.scans[i].id);
        }
        assert forall|id: i64| 0 <= #[trigger] counter(harvest(w, n).counters, id) by {
            if id != scan.id {
                assert(counter(harvest(w, n).counters, id) == counter(h.counters, id));
            }
        }
    } else {
        assert(base + harvest(w, n).added =~= base);
    }
}

proof fn lemma_locked_ones_numbered(counters: Map<i64, i64>, s: Seq<CandidateModel>)
    requires
        well_numbered(counters, s),
    ensures
        well_numbered(counters, locked_ones(s)),
    decreases s.len(),
{
    if s.len() > 0 {
        let key = by_id();
        let front = s.drop_last();
        assert(well_numbered(counters, front)) by {
            assert forall|i: int, j: int| 0 <= i < j < front.len() implies key(#[trigger] front[i]) != key(
                #[trigger] front[j],
            ) by {
                assert(key(s[i]) != key(s[j]));
            }
            assert forall|i: int| 0 <= i < front.len() implies is_numbered(counters, #[trigger] front[i]) by {
                assert(front[i] == s[i]);
            }
        }
        lemma_locked_ones_numbered(counters, front);
        if s.last().locked {
            let inner = locked_ones(front);
            let out = inner.push(s.last());
            assert forall|i: int, j: int| 0 <= i < j < out.len() implies key(#[trigger] out[i]) != key(
                #[trigger] out[j],
            ) by {
                if j < inner.len() {
                    assert(key(inner[i]) != key(inner[j]));
                } else {
                    lemma_locked_ones(front, inner[i]);
                    assert(inner.contains(inner[i]));
                    let k = choose|k: int| 0 <= k < front.len() && front[k] == inner[i];
                    assert(key(s[k]) != key(s[s.len() - 1]));
                }
            }
            assert forall|i: int| 0 <= i < out.len() implies is_numbered(counters, #[trigger] out[i]) by {
                if i < inner.len() {
                    assert(out[i] == inner[i]);
                } else {
                    assert(out[i] == s[s.len() - 1]);
                }
            }
        }
    }
}

proof fn lemma_sorted_numbered(counters: Map<i64, i64>, s: Seq<CandidateModel>)
    requires
        well_numbered(counters, s),
    ensures
        well_numbered(counters, sorted::<Candidate>(s)),
{
    let out = sorted::<Candidate>(s);
    lemma_sorted_distinct::<Candidate, Seq<char>>(s, by_id());
    lemma_sorted_members::<Candidate>(s);
    assert forall|i: int| 0 <= i < out.len() implies is_numbered(counters, #[trigger] out[i]) by {
        assert(out.contains(out[i]));
        let k = choose|k: int| 0 <= k < s.len() && s[k] == out[i];
        assert(is_numbered(counters, s[k]));
        let n = choose|n: int| is_number_of(counters, s[k], n);
        assert(is_number_of(counters, out[i], n));
    }
}

/// Whether the candidates of a bench have distinct ids that were counted.
pub open spec fn ids_in_order(w: WorldModel) -> bool {
    &&& well_numbered(w.counters, w.candidates)
    &&& forall|id: i64| 0 <= #[trigger] counter(w.counters, id)
}

proof fn lemma_redetected_numbered(w: WorldModel)
    requires
        w.valid(),
        w.has_room(),
        ids_in_order(w),
    ensures
        ids_in_order(redetected(w)),
{
    let k = kept(w);
    lemma_locked_ones_numbered(w.counters, w.candidates);
    assert(k.valid()) by {
        assert forall|i: int| 0 <= i < k.candidates.len() implies crate::rules::candidate_fits(
            k,
            #[trigger] k.candidates[i],
        ) by {
            lemma_locked_ones(w.candidates, k.candidates[i]);
            assert(k.candidates.contains(k.candidates[i]));
            let j = choose|j: int| 0 <= j < w.candidates.len() && w.candidates[j] == k.candidates[i];
            assert(crate::rules::candidate_fits(w, w.candidates[j]));
        }
    }
    let n = k.scans.len() as int;
    lemma_harvest_numbered(k, k.candidates, n);
    let h = harvest(k, n);
    lemma_sorted_numbered(h.counters, k.candidates + h.added);
}

proof fn lemma_split_numbered(w: WorldModel, p: int, scan: ScanModel, left: RegionModel, right: RegionModel)
    requires
        ids_in_order(w),
        0 <= p < w.candidates.len(),
        counter(w.counters, scan.id) + 2 <= i64::MAX,
    ensures
        ids_in_order(split_done(w, p, scan, left, right)),
{
    let key = by_id();
    let rest = w.candidates.remove(p);
    let kind = w.candidates[p].gate_kind;
    let one = crate::rules::split_side(w, w.counters, scan, kind, left);
    let counters = counted(w.counters, scan.id);
    let two = crate::rules::split_side(w, counters, scan, kind, right);
    assert(well_numbered(w.counters, rest)) by {
        assert forall|i: int, j: int| 0 <= i < j < rest.len() implies key(#[trigger] rest[i]) != key(
            #[trigger] rest[j],
        ) by {
            let a = if i < p {
                i
            } else {
                i + 1
            };
            let b = if j < p {
                j
            } else {
                j + 1
            };
            assert(rest[i] == w.candidates[a] && rest[j] == w.candidates[b]);
            assert(key(w.candidates[a]) != key(w.candidates[b]));
        }
        assert forall|i: int| 0 <= i < rest.len() implies is_numbered(w.counters, #[trigger] rest[i]) by {
            let a = if i < p {
                i
            } else {
                i + 1
            };
            assert(rest[i] == w.candidates[a]);
        }
    }
    assert(0 <= counter(w.counters, scan.id));
    lemma_numbered_push(w.counters, rest, one);
    lemma_numbered_push(counters, rest.push(one), two);
    lemma_sorted_numbered(counted(counters, scan.id), rest.push(one).push(two));
    let out = split_done(w, p, scan, left, right);
    assert forall|id: i64| 0 <= #[trigger] counter(out.counters, id) by {
        assert(0 <= counter(w.counters, id));
    }
}

proof fn lemma_same_ids(w: WorldModel, new: WorldModel)
    requires
        ids_in_order(w),
        new.counters == w.counters,
        new.candidates.len() == w.candidates.len(),
        forall|i: int|
            0 <= i < w.candidates.len() ==> (#[trigger] new.candidates[i]).id == w.candidates[i].id
                && new.candidates[i].scan_id == w.candidates[i].scan_id,
    ensures
        ids_in_order(new),
{
    let key = by_id();
    assert forall|i: int, j: int| 0 <= i < j < new.candidates.len() implies key(#[trigger] new.candidates[i]) != key(
        #[trigger] new.candidates[j],
    ) by {
        assert(key(w.candidates[i]) != key(w.candidates[j]));
    }
    assert forall|i: int| 0 <= i < new.candidates.len() implies is_numbered(new.counters, #[trigger] new.candidates[i]) by {
        assert(is_numbered(w.counters, w.candidates[i]));
        let n = choose|n: int| is_number_of(w.counters, w.candidates[i], n);
        assert(is_number_of(new.counters, new.candidates[i], n));
    }
}

/// Whatever happens, no two candidates ever have the same id.
pub proof fn candidate_ids_stay_unique(w: WorldModel, e: EventModel)
    requires
        w.valid(),
        w.has_room(),
        crate::rules::event_fits(w, e),
        ids_in_order(w),
    ensures
        ids_in_order(applied(w, e).world),
{
    let new = applied(w, e).world;
    match e {
        EventModel::ThresholdChanged { mode, value, levels } => {
            if applied(w, e).result is Ok {
                let r = rethresholded(w, mode, value, levels);
                assert(r.valid()) by {
                    assert forall|i: int| 0 <= i < r.candidates.len() implies crate::rules::candidate_fits(
                        r,
                        #[trigger] r.candidates[i],
                    ) by {
                        assert(crate::rules::candidate_fits(w, w.candidates[i]));
                    }
                }
                lemma_redetected_numbered(r);
            }
        },
        EventModel::CandidateSplit { parent_id, cut } => {
            if applied(w, e).result is Ok {
                lemma_search(w.candidates, with_id(parent_id));
                let p = candidate_index(w.candidates, parent_id)->0;
                let parent = w.candidates[p];
                let s = crate::rules::scan_index(w.scans, parent.scan_id)->0;
                let scan = w.scans[s];
                let zero = Quantity { bits: 0 };
                let left = lobes(scan.trace, parent.start, cut as int, zero, w.adc_max);
                let right = lobes(scan.trace, cut as int, parent.end, zero, w.adc_max);
                assert(crate::rules::candidate_fits(w, parent));
                assert(counter(w.counters, scan.id) + w.samples <= i64::MAX);
                lemma_split_numbered(w, p, scan, left[0], right[0]);
            }
        },
        _ => {
            lemma_same_ids(w, new);
        },
    }
}

/// A bench starts with distinct candidate ids and an exact inversion flag, and
/// without verdicts, tracks or locked candidates.
pub proof fn benches_start_in_order(
    s: SetupModel,
    calib_id: i64,
    mode: Seq<char>,
    amp: Quantity,
    snr: Quantity,
    levels: Seq<Quantity>,
)
    requires
        s.valid(),
        crate::rules::levels_fit(levels, s.scans.len() as int),
    ensures
        booted(s, calib_id, mode, amp, snr, levels) matches Ok(w) ==> {
            &&& ids_in_order(w)
            &&& flag_is_exact(w)
            &&& all_fresh(w.candidates)
            &&& w.tracks.len() == 0
        },
{
    let u = unexamined(s, calib_id, mode, amp, snr, levels);
    lemma_first_surfaces(s.scans, s.scans.len() as int);
    assert(u.valid());
    assert(well_numbered(u.counters, u.candidates));
    lemma_redetected_numbered(u);
    lemma_flag(redetected(u));
    let k = kept(u);
    let h = harvest(k, k.scans.len() as int);
    let all = k.candidates + h.added;
    lemma_harvest_unlocked(k, k.scans.len() as int);
    lemma_sorted_members::<Candidate>(all);
    let out = redetected(u).candidates;
    assert forall|i: int| 0 <= i < out.len() implies !(#[trigger] out[i]).locked && out[i].verdict is None
        && out[i].track_id is None by {
        assert(out.contains(out[i]));
        let j = choose|j: int| 0 <= j < all.len() && all[j] == out[i];
        assert(h.added[j] == out[i]);
    }
}

// ---------------------------------------------------------------- splits

/// A saturated candidate is never split: its amplitude stays a lower bound.
pub proof fn saturated_candidates_are_never_split(w: WorldModel, parent_id: Seq<char>, cut: i64)
    requires
        candidate_index(w.candidates, parent_id) matches Some(p) && w.candidates[p].kind == CandidateKind::Saturated,
    ensures
        applied(w, EventModel::CandidateSplit { parent_id, cut }).result is Err,
{
}

proof fn lemma_whole_run(env: Seq<Quantity>, level: Quantity, i: int, hi: int)
    requires
        i <= hi,
        forall|k: int| i <= k < hi ==> level.le(#[trigger] env[k]),
    ensures
        run_end(env, level, i, hi) == hi,
    decreases hi - i,
{
    if i < hi {
        lemma_whole_run(env, level, i + 1, hi);
    }
}

/// An accepted split replaces a candidate by two locked ones, marked as split by
/// hand, that lie inside it on either side of the cut. Where the envelope is
/// nowhere negative they meet at the cut and fill its interval.
pub proof fn splits_meet_at_the_cut(w: WorldModel, parent_id: Seq<char>, cut: i64)
    requires
        w.valid(),
        applied(w, EventModel::CandidateSplit { parent_id, cut }).result is Ok,
    ensures
        ({
            let p = candidate_index(w.candidates, parent_id)->0;
            let parent = w.candidates[p];
            let scan = w.scans[crate::rules::scan_index(w.scans, parent.scan_id)->0];
            let new = applied(w, EventModel::CandidateSplit { parent_id, cut }).world.candidates;
            exists|a: CandidateModel, b: CandidateModel|
                {
                    &&& #[trigger] new.contains(a)
                    &&& #[trigger] new.contains(b)
                    &&& a.kind == CandidateKind::Split && a.locked && a.scan_id == parent.scan_id
                    &&& b.kind == CandidateKind::Split && b.locked && b.scan_id == parent.scan_id
                    &&& parent.start <= a.start < a.end <= cut <= b.start < b.end <= parent.end
                    &&& (forall|k: int|
                        parent.start <= k < parent.end ==> (Quantity { bits: 0 }).le(
                            #[trigger] scan.trace.envelope@[k],
                        )) ==> a.start == parent.start && a.end == cut && b.start == cut && b.end == parent.end
                }
        }),
{
    lemma_search(w.candidates, with_id(parent_id));
    let p = candidate_index(w.candidates, parent_id)->0;
    let parent = w.candidates[p];
    assert(crate::rules::candidate_fits(w, parent));
    lemma_search(w.scans, crate::rules::with_scan_id(parent.scan_id));
    let scan = w.scans[crate::rules::scan_index(w.scans, parent.scan_id)->0];
    let zero = Quantity { bits: 0 };
    let left = lobes(scan.trace, parent.start, cut as int, zero, w.adc_max);
    let right = lobes(scan.trace, cut as int, parent.end, zero, w.adc_max);
    lobes_are_separate_runs(scan.trace, parent.start, cut as int, zero, w.adc_max);
    lobes_are_separate_runs(scan.trace, cut as int, parent.end, zero, w.adc_max);
    let rest = w.candidates.remove(p);
    let one = crate::rules::split_side(w, w.counters, scan, parent.gate_kind, left[0]);
    let two = crate::rules::split_side(w, counted(w.counters, scan.id), scan, parent.gate_kind, right[0]);
    let all = rest.push(one).push(two);
    lemma_sorted_members::<Candidate>(all);
    assert(all[rest.len() as int] == one);
    assert(all[rest.len() as int + 1] == two);
    assert(all.contains(one) && all.contains(two));
    let new = applied(w, EventModel::CandidateSplit { parent_id, cut }).world.candidates;
    assert(new == sorted::<Candidate>(all));
    assert(new.contains(one) && new.contains(two));
    if forall|k: int| parent.start <= k < parent.end ==> zero.le(#[trigger] scan.trace.envelope@[k]) {
        lemma_whole_run(scan.trace.envelope@, zero, parent.start, cut as int);
        lemma_whole_run(scan.trace.envelope@, zero, cut as int, parent.end);
        assert(zero.le(scan.trace.envelope@[parent.start]));
        assert(zero.le(scan.trace.envelope@[cut as int]));
        assert(left[0].start == parent.start && left[0].end == cut);
        assert(right[0].start == cut && right[0].end == parent.end);
    }
}

// ---------------------------------------------------------------- tracks

proof fn lemma_members_free(candidates: Seq<CandidateModel>, ids: Seq<Seq<char>>, k: int, i: int)
    requires
        member_fault(candidates, ids, k) is None,
        0 <= k <= i < ids.len(),
    ensures
        candidate_index(candidates, ids[i]) matches Some(c) && candidates[c].track_id is None,
    decreases ids.len() - k,
{
    if k < i {
        lemma_members_free(candidates, ids, k + 1, i);
    }
}

/// An accepted track has at least two members, from different scans; none belonged
/// to a track before, and afterwards each belongs to this one and is locked. Every
/// other candidate is as it was, and the track is the last of the list.
pub proof fn accepted_tracks_claim_their_members(w: WorldModel, track_id: i64, ids: Seq<Seq<char>>)
    requires
        applied(w, EventModel::TrackGrouped { track_id, candidate_ids: ids }).result is Ok,
    ensures
        ({
            let new = applied(w, EventModel::TrackGrouped { track_id, candidate_ids: ids }).world;
            &&& ids.len() >= 2
            &&& !scan_repeats(w.candidates, ids)
            &&& forall|k: int|
                0 <= k < ids.len() ==> {
                    let c = candidate_index(w.candidates, #[trigger] ids[k]);
                    &&& c is Some
                    &&& w.candidates[c->0].track_id is None
                    &&& new.candidates[c->0].track_id == Some(track_id)
                    &&& new.candidates[c->0].locked
                }
            &&& forall|i: int|
                0 <= i < w.candidates.len() && !ids.contains(w.candidates[i].id) ==> #[trigger] new.candidates[i]
                    == w.candidates[i]
            &&& new.tracks == w.tracks.push(TrackModel { id: track_id, candidate_ids: ids })
        }),
{
    let new = applied(w, EventModel::TrackGrouped { track_id, candidate_ids: ids }).world;
    assert forall|k: int| 0 <= k < ids.len() implies {
        let c = candidate_index(w.candidates, #[trigger] ids[k]);
        &&& c is Some
        &&& w.candidates[c->0].track_id is None
        &&& new.candidates[c->0].track_id == Some(track_id)
        &&& new.candidates[c->0].locked
    } by {
        lemma_members_free(w.candidates, ids, 0, k);
        lemma_search(w.candidates, with_id(ids[k]));
        let c = candidate_index(w.candidates, ids[k])->0;
        assert(with_id(ids[k])(w.candidates[c]));
        assert(ids.contains(w.candidates[c].id));
    }
}

/// Whether no two tracks have the same id.
pub open spec fn tracks_in_order(w: WorldModel) -> bool {
    forall|i: int, j: int| 0 <= i < j < w.tracks.len() ==> (#[trigger] w.tracks[i]).id != (#[trigger] w.tracks[j]).id
}

/// Whatever happens, no two tracks ever have the same id.
pub proof fn track_ids_stay_unique(w: WorldModel, e: EventModel)
    requires
        tracks_in_order(w),
    ensures
        tracks_in_order(applied(w, e).world),
{
    if let EventModel::TrackGrouped { track_id, .. } = e {
        let p = with_track_id(track_id);
        lemma_search(w.tracks, p);
        if first_where(w.tracks, p) is None {
            let new = applied(w, e).world;
            assert forall|i: int, j: int| 0 <= i < j < new.tracks.len() implies (#[trigger] new.tracks[i]).id != (
            #[trigger] new.tracks[j]).id by {
                if j == w.tracks.len() {
                    assert(!p(w.tracks[i]));
                }
            }
        }
    }
}

// ---------------------------------------------------------------- gates

/// Gates are closed on the left and open on the right: a sample on the border of two
/// gates that meet belongs to the later one alone.
pub proof fn meeting_gates_share_no_sample(a: GateModel, b: GateModel, sample: int)
    requires
        a.hi == b.lo,
    ensures
        !(a.holds(sample) && b.holds(sample)),
        a.lo < a.hi ==> !a.holds(a.hi as int),
        b.lo < b.hi ==> b.holds(a.hi as int),
{
}

} // verus!
