//! What every event of the console does, in terms of what it says and the state.

use vstd::prelude::*;

use crate::detection::{lobes, lobes_are_separate_runs, CandidateKind, RegionModel};
use crate::lobe_laws::lobes_peak_at_their_highest_sample;
use crate::model::{Calib, Candidate, CandidateModel, EventModel, GateModel, ScanModel, TrackModel, Verdict, WorldModel};
use crate::order::{lemma_sorted_members, sorted, sorting_orders_and_keeps_every_item, Ranked};
use crate::quantity::Quantity;
use crate::rules::{
    all_lobes, applied, gate_index, harvest, harvest_lobe, harvest_scan, ids_of_scan, kept, redetected, rethresholded,
    scan_index, taken, with_calib_id, with_kind, with_sample, with_scan_id, Harvest,
};
use crate::seqs::{first_where, lemma_search};
use crate::text::signed_digits;

verus! {

// ---------------------------------------------------------------- gates

/// Whether `g` is the first gate that holds a sample, closed on the left and open on
/// the right.
pub open spec fn is_gate_at(gates: Seq<GateModel>, s: int, g: int) -> bool {
    &&& 0 <= g < gates.len()
    &&& gates[g].lo <= s < gates[g].hi
    &&& forall|h: int| 0 <= h < g ==> !((#[trigger] gates[h]).lo <= s < gates[h].hi)
}

/// Whether no gate holds a sample.
pub open spec fn is_outside(gates: Seq<GateModel>, s: int) -> bool {
    forall|h: int| 0 <= h < gates.len() ==> !((#[trigger] gates[h]).lo <= s < gates[h].hi)
}

proof fn lemma_gate(gates: Seq<GateModel>, s: int)
    ensures
        match gate_index(gates, s) {
            Some(g) => is_gate_at(gates, s, g) && !is_outside(gates, s),
            None => is_outside(gates, s),
        },
        forall|g: int| #[trigger] is_gate_at(gates, s, g) ==> gate_index(gates, s) == Some(g),
{
    let p = with_sample(s);
    lemma_search(gates, p);
    match gate_index(gates, s) {
        Some(g) => {
            assert(p(gates[g]));
            assert forall|h: int| 0 <= h < g implies !((#[trigger] gates[h]).lo <= s < gates[h].hi) by {
                assert(!p(gates[h]));
            }
        },
        None => {
            assert forall|h: int| 0 <= h < gates.len() implies !((#[trigger] gates[h]).lo <= s < gates[h].hi) by {
                assert(!p(gates[h]));
            }
        },
    }
    assert forall|g: int| #[trigger] is_gate_at(gates, s, g) implies gate_index(gates, s) == Some(g) by {
        if let Some(x) = gate_index(gates, s) {
            if x < g {
                assert(!(gates[x].lo <= s < gates[x].hi));
            } else if g < x {
                assert(!(gates[g].lo <= s < gates[g].hi));
            }
        }
    }
}

/// Whether two states have the same instrument, settings and history: everything but
/// candidates, gates, surfaces, thresholds, tracks, calibration, scans and flag.
pub open spec fn same_bench(w: WorldModel, n: WorldModel) -> bool {
    &&& n.samples == w.samples
    &&& n.adc_max == w.adc_max
    &&& n.calibs == w.calibs
}

/// Whether two states have the same thresholds.
pub open spec fn same_thresholds(w: WorldModel, n: WorldModel) -> bool {
    &&& n.threshold_mode == w.threshold_mode
    &&& n.threshold_amp == w.threshold_amp
    &&& n.threshold_snr == w.threshold_snr
    &&& n.levels == w.levels
}

/// Whether `b` is `a`, in whichever gate holds its peak.
pub open spec fn is_in_its_gate(gates: Seq<GateModel>, a: CandidateModel, b: CandidateModel) -> bool {
    &&& b == (CandidateModel { gate_kind: b.gate_kind, ..a })
    &&& forall|g: int| #[trigger] is_gate_at(gates, a.peak, g) ==> b.gate_kind == gates[g].kind
}

/// A gate is moved if and only if its new interval is not empty and lies inside the
/// record, and there is a gate of its kind. Then the first gate of that kind, and no
/// other, has exactly that interval; every candidate is in whichever gate now
/// holds its peak, or in none; and nothing else changes.
pub proof fn gates_move_and_take_their_candidates(w: WorldModel, kind: Seq<char>, lo: i64, hi: i64)
    ensures
        ({
            let o = applied(w, EventModel::GateMoved { kind, lo, hi });
            let n = o.world;
            &&& o.result is Ok <==> 0 <= lo < hi <= w.samples && exists|g: int|
                0 <= g < w.gates.len() && (#[trigger] w.gates[g]).kind == kind
            &&& o.result is Ok ==> {
                &&& n.gates.len() == w.gates.len()
                &&& exists|g: int|
                    {
                        &&& 0 <= g < w.gates.len()
                        &&& w.gates[g].kind == kind
                        &&& #[trigger] n.gates[g] == (GateModel { kind, lo, hi })
                        &&& forall|h: int| 0 <= h < w.gates.len() && h != g ==> #[trigger] n.gates[h] == w.gates[h]
                        &&& forall|h: int| 0 <= h < g ==> (#[trigger] w.gates[h]).kind != kind
                    }
                &&& n.candidates.len() == w.candidates.len()
                &&& forall|i: int|
                    0 <= i < n.candidates.len() ==> is_in_its_gate(n.gates, w.candidates[i], #[trigger] n.candidates[i])
                        && (is_outside(n.gates, w.candidates[i].peak) ==> n.candidates[i].gate_kind.len() == 0)
                &&& n == (WorldModel { gates: n.gates, candidates: n.candidates, ..w })
            }
        }),
{
    let o = applied(w, EventModel::GateMoved { kind, lo, hi });
    let n = o.world;
    let p = with_kind(kind);
    lemma_search(w.gates, p);
    match first_where(w.gates, p) {
        Some(g) => {
            assert(p(w.gates[g]));
            assert(w.gates[g].kind == kind);
            if o.result is Ok {
                assert(n.gates[g] == (GateModel { kind, lo, hi }));
                assert forall|h: int| 0 <= h < g implies (#[trigger] w.gates[h]).kind != kind by {
                    assert(!p(w.gates[h]));
                }
                assert forall|i: int| 0 <= i < n.candidates.len() implies is_in_its_gate(
                    n.gates,
                    w.candidates[i],
                    #[trigger] n.candidates[i],
                ) && (is_outside(n.gates, w.candidates[i].peak) ==> n.candidates[i].gate_kind.len() == 0) by {
                    lemma_gate(n.gates, w.candidates[i].peak);
                }
            }
        },
        None => {
            assert forall|g: int| 0 <= g < w.gates.len() implies (#[trigger] w.gates[g]).kind != kind by {
                assert(!p(w.gates[g]));
            }
        },
    }
}

// ---------------------------------------------------------------- surfaces

/// A surface is corrected if and only if the sample lies inside the record and the
/// scan is known. Then the surface of that scan, and of no other, is that sample;
/// candidates are in whichever gate holds their peak, or in the one that they were in;
/// and nothing else changes but the inversion flag.
pub proof fn surfaces_are_put_where_they_are_told(w: WorldModel, scan_id: i64, sample: i64)
    requires
        w.valid(),
    ensures
        ({
            let o = applied(w, EventModel::SurfaceCorrected { scan_id, sample });
            let n = o.world;
            &&& o.result is Ok <==> 0 <= sample < w.samples && w.surfaces.dom().contains(scan_id)
            &&& o.result is Ok ==> {
                &&& n.surfaces.dom() == w.surfaces.dom()
                &&& n.surfaces[scan_id] == sample
                &&& forall|id: i64| id != scan_id ==> #[trigger] n.surfaces[id] == w.surfaces[id]
                &&& n.scans.len() == w.scans.len()
                &&& forall|i: int|
                    0 <= i < n.scans.len() ==> #[trigger] n.scans[i] == (if w.scans[i].id == scan_id {
                        ScanModel { surface_sample: sample, ..w.scans[i] }
                    } else {
                        w.scans[i]
                    })
                &&& n.candidates.len() == w.candidates.len()
                &&& forall|i: int|
                    0 <= i < n.candidates.len() ==> is_in_its_gate(w.gates, w.candidates[i], #[trigger] n.candidates[i])
                        && (is_outside(w.gates, w.candidates[i].peak) ==> n.candidates[i] == w.candidates[i])
                &&& same_bench(w, n) && same_thresholds(w, n)
                &&& n.gates == w.gates && n.tracks == w.tracks && n.counters == w.counters
                &&& n.current_calib_id == w.current_calib_id
            }
        }),
{
    let o = applied(w, EventModel::SurfaceCorrected { scan_id, sample });
    let n = o.world;
    if o.result is Ok {
        assert(n.surfaces.dom() =~= w.surfaces.dom());
        assert forall|i: int| 0 <= i < n.candidates.len() implies is_in_its_gate(
            w.gates,
            w.candidates[i],
            #[trigger] n.candidates[i],
        ) && (is_outside(w.gates, w.candidates[i].peak) ==> n.candidates[i] == w.candidates[i]) by {
            lemma_gate(w.gates, w.candidates[i].peak);
        }
        let p = with_scan_id(scan_id);
        lemma_search(w.scans, p);
        match scan_index(w.scans, scan_id) {
            Some(s) => {
                assert(p(w.scans[s]));
                assert forall|i: int| 0 <= i < n.scans.len() implies #[trigger] n.scans[i] == (if w.scans[i].id == scan_id {
                    ScanModel { surface_sample: sample, ..w.scans[i] }
                } else {
                    w.scans[i]
                }) by {
                    if i < s {
                        assert(w.scans[i].id != w.scans[s].id);
                    } else if s < i {
                        assert(w.scans[s].id != w.scans[i].id);
                    }
                }
            },
            None => {
                assert forall|i: int| 0 <= i < w.scans.len() implies (#[trigger] w.scans[i]).id != scan_id by {
                    assert(!p(w.scans[i]));
                }
            },
        }
    }
}

// ---------------------------------------------------------------- inversion

/// Whether some bottom, by verdict or by gate, arrives no later than the surface of
/// its scan.
pub open spec fn some_bottom_is_early(w: WorldModel) -> bool {
    exists|i: int|
        {
            let c = #[trigger] w.candidates[i];
            &&& 0 <= i < w.candidates.len()
            &&& c.verdict == Some(Verdict::Bottom) || c.gate_kind == "bottom"@
            &&& w.surfaces.dom().contains(c.scan_id)
            &&& c.peak <= w.surfaces[c.scan_id]
        }
}

/// After a corrected surface, a changed threshold, a verdict or a switched calibration
/// the depth axis counts as inverted if and only if some bottom is early.
pub proof fn the_axis_is_inverted_by_an_early_bottom(w: WorldModel, e: EventModel)
    requires
        applied(w, e).result is Ok,
        e is SurfaceCorrected || e is ThresholdChanged || e is CandidateVerdict || e is CalibrationSwitched,
    ensures
        applied(w, e).world.inverted <==> some_bottom_is_early(applied(w, e).world),
        applied(w, e).world.inverted <==> applied(w, e).world.inverted_reason is Some,
{
    crate::rule_laws::the_inversion_flag_is_exact(w, e);
    let n = applied(w, e).world;
    if crate::rule_laws::has_early_bottom(n) {
        let i = choose|i: int|
            0 <= i < n.candidates.len() && crate::rules::early_bottom(n.surfaces, #[trigger] n.candidates[i]);
        assert(n.candidates[i].peak <= n.surfaces[n.candidates[i].scan_id]);
    }
    if some_bottom_is_early(n) {
        let i = choose|i: int|
            {
                let c = #[trigger] n.candidates[i];
                &&& 0 <= i < n.candidates.len()
                &&& c.verdict == Some(Verdict::Bottom) || c.gate_kind == "bottom"@
                &&& n.surfaces.dom().contains(c.scan_id)
                &&& c.peak <= n.surfaces[c.scan_id]
            };
        assert(crate::rules::early_bottom(n.surfaces, n.candidates[i]));
    }
}

// ---------------------------------------------------------------- calibration and verdicts

/// A calibration is switched if and only if it is known. Then it is the one in force,
/// and nothing else changes but the inversion flag.
pub proof fn known_calibrations_are_put_in_force(w: WorldModel, calib_id: i64)
    ensures
        ({
            let o = applied(w, EventModel::CalibrationSwitched { calib_id });
            let n = o.world;
            &&& o.result is Ok <==> exists|i: int| 0 <= i < w.calibs.len() && (#[trigger] w.calibs[i]).id == calib_id
            &&& o.result is Ok ==> n.current_calib_id == calib_id && n == (WorldModel {
                current_calib_id: calib_id,
                inverted: n.inverted,
                inverted_reason: n.inverted_reason,
                ..w
            })
        }),
{
    lemma_calib(w.calibs, calib_id);
}

proof fn lemma_calib(calibs: Seq<Calib>, id: i64)
    ensures
        first_where(calibs, with_calib_id(id)) is Some <==> exists|i: int|
            0 <= i < calibs.len() && (#[trigger] calibs[i]).id == id,
{
    let p = with_calib_id(id);
    lemma_search(calibs, p);
    match first_where(calibs, p) {
        Some(i) => {
            assert(p(calibs[i]));
            assert(calibs[i].id == id);
        },
        None => {
            assert forall|i: int| 0 <= i < calibs.len() implies (#[trigger] calibs[i]).id != id by {
                assert(!p(calibs[i]));
            }
        },
    }
}

/// A verdict is accepted if and only if the depth axis is not inverted and there is a
/// candidate with the id. Then the first such candidate has the verdict and is
/// locked; no other candidate changes, and nothing else but the inversion flag.
pub proof fn verdicts_lock_their_candidate(w: WorldModel, id: Seq<char>, verdict: Verdict)
    ensures
        ({
            let o = applied(w, EventModel::CandidateVerdict { candidate_id: id, verdict });
            let n = o.world;
            &&& o.result is Ok <==> !w.inverted && exists|i: int|
                0 <= i < w.candidates.len() && (#[trigger] w.candidates[i]).id == id
            &&& o.result is Ok ==> {
                &&& n.candidates.len() == w.candidates.len()
                &&& exists|i: int|
                    {
                        &&& 0 <= i < w.candidates.len()
                        &&& w.candidates[i].id == id
                        &&& #[trigger] n.candidates[i] == (CandidateModel {
                            verdict: Some(verdict),
                            locked: true,
                            ..w.candidates[i]
                        })
                        &&& forall|j: int| 0 <= j < i ==> (#[trigger] w.candidates[j]).id != id
                        &&& forall|j: int|
                            0 <= j < w.candidates.len() && j != i ==> #[trigger] n.candidates[j] == w.candidates[j]
                    }
                &&& n == (WorldModel {
                    candidates: n.candidates,
                    inverted: n.inverted,
                    inverted_reason: n.inverted_reason,
                    ..w
                })
            }
        }),
{
    let o = applied(w, EventModel::CandidateVerdict { candidate_id: id, verdict });
    let n = o.world;
    let p = crate::rules::with_id(id);
    lemma_search(w.candidates, p);
    match first_where(w.candidates, p) {
        Some(i) => {
            assert(p(w.candidates[i]));
            assert(w.candidates[i].id == id);
            if o.result is Ok {
                assert(n.candidates[i].locked);
                assert forall|j: int| 0 <= j < i implies (#[trigger] w.candidates[j]).id != id by {
                    assert(!p(w.candidates[j]));
                }
            }
        },
        None => {
            assert forall|i: int| 0 <= i < w.candidates.len() implies (#[trigger] w.candidates[i]).id != id by {
                assert(!p(w.candidates[i]));
            }
        },
    }
}

// ---------------------------------------------------------------- detection

/// Whether `d` is how far sample `s` of scan `id` is behind its surface; nothing where
/// the scan has none.
pub open spec fn is_delay(surfaces: Map<i64, i64>, id: i64, s: int, d: Option<i64>) -> bool {
    &&& d is Some <==> surfaces.dom().contains(id)
    &&& d matches Some(n) ==> n == s - surfaces[id]
}

/// Whether `c` is the candidate that lobe number `j` of scan number `at` shows: it has
/// its interval, its peak, its kind and its sub-peaks, is in whichever gate holds the
/// peak, has the amplitude and the delay of the peak, and nobody has judged it.
pub open spec fn is_lobe(w: WorldModel, at: int, j: int, c: CandidateModel) -> bool {
    let scan = w.scans[at];
    let s = lobes(scan.trace, 0, scan.trace.size(), w.levels[at], w.adc_max);
    &&& 0 <= at < w.scans.len()
    &&& 0 <= j < s.len()
    &&& c.scan_id == scan.id
    &&& c.start == s[j].start && c.end == s[j].end && c.peak == s[j].peak
    &&& c.kind == s[j].kind && c.sub_peaks == s[j].sub && c.lower_bound == s[j].saturated
    &&& c.amplitude == scan.trace.counts@[s[j].peak]
    &&& exists|g: int| #[trigger] is_gate_at(w.gates, s[j].peak, g) && c.gate_kind == w.gates[g].kind
    &&& is_delay(w.surfaces, scan.id, s[j].peak, c.depth_snapshot)
    &&& c.calib_id_snapshot == w.current_calib_id
    &&& c.verdict is None && c.track_id is None && !c.locked
    &&& c.origin == "auto"@
}

/// Whether `c` is a lobe of one of the first `at` scans, or one of the first `n` lobes
/// of the next.
spec fn is_lobe_before(w: WorldModel, at: int, n: int, c: CandidateModel) -> bool {
    exists|x: int, j: int| #[trigger] is_lobe(w, x, j, c) && (x < at || x == at && j < n)
}

proof fn lemma_scan_lobes(w: WorldModel, at: int, n: int, h: Harvest)
    requires
        w.valid(),
        0 <= at < w.scans.len(),
        0 <= n <= all_lobes(w.scans[at].trace, w.levels[at], w.adc_max).len(),
        forall|i: int| 0 <= i < h.added.len() ==> is_lobe_before(w, at, 0, #[trigger] h.added[i]),
    ensures
        ({
            let out = harvest_scan(
                w,
                w.scans[at],
                all_lobes(w.scans[at].trace, w.levels[at], w.adc_max),
                n,
                h,
            ).added;
            forall|i: int| 0 <= i < out.len() ==> is_lobe_before(w, at, n, #[trigger] out[i])
        }),
    decreases n,
{
    let scan = w.scans[at];
    let rs = all_lobes(scan.trace, w.levels[at], w.adc_max);
    let out = harvest_scan(w, scan, rs, n, h).added;
    if n <= 0 {
        assert forall|i: int| 0 <= i < out.len() implies is_lobe_before(w, at, n, #[trigger] out[i]) by {
            let (x, j) = choose|x: int, j: int| #[trigger] is_lobe(w, x, j, out[i]) && (x < at || x == at && j < 0);
            assert(is_lobe(w, x, j, out[i]) && x < at);
        }
    } else {
        lemma_scan_lobes(w, at, n - 1, h);
        let before = harvest_scan(w, scan, rs, n - 1, h);
        let r = rs[n - 1];
        assert(crate::rules::scan_fits(scan, w.samples, w.scans.len() as int, at));
        lobes_are_separate_runs(scan.trace, 0, scan.trace.size(), w.levels[at], w.adc_max);
        lemma_gate(w.gates, r.peak);
        assert forall|i: int| 0 <= i < out.len() implies is_lobe_before(w, at, n, #[trigger] out[i]) by {
            if i < before.added.len() {
                assert(out[i] == before.added[i]);
                assert(is_lobe_before(w, at, n - 1, before.added[i]));
                let (x, j) = choose|x: int, j: int| #[trigger]
                    is_lobe(w, x, j, out[i]) && (x < at || x == at && j < n - 1);
                assert(is_lobe(w, x, j, out[i]));
            } else {
                let g = gate_index(w.gates, r.peak)->0;
                assert(is_gate_at(w.gates, r.peak, g));
                assert(0 <= r.peak < scan.trace.size());
                assert(is_lobe(w, at, n - 1, out[i]));
            }
        }
    }
}

proof fn lemma_lobes_of_scans(w: WorldModel, n: int)
    requires
        w.valid(),
        0 <= n <= w.scans.len(),
    ensures
        forall|i: int| 0 <= i < harvest(w, n).added.len() ==> is_lobe_before(w, n, 0, #[trigger] harvest(w, n).added[i]),
    decreases n,
{
    if n > 0 {
        lemma_lobes_of_scans(w, n - 1);
        let rs = all_lobes(w.scans[n - 1].trace, w.levels[n - 1], w.adc_max);
        lemma_scan_lobes(w, n - 1, rs.len() as int, harvest(w, n - 1));
        let out = harvest(w, n).added;
        assert forall|i: int| 0 <= i < out.len() implies is_lobe_before(w, n, 0, #[trigger] out[i]) by {
            assert(is_lobe_before(w, n - 1, rs.len() as int, out[i]));
            let (x, j) = choose|x: int, j: int| #[trigger]
                is_lobe(w, x, j, out[i]) && (x < n - 1 || x == n - 1 && j < rs.len());
            assert(is_lobe(w, x, j, out[i]) && x < n);
        }
    }
}

proof fn lemma_lobe_taken_once(w: WorldModel, at: int, n: int, j: int, s: Seq<CandidateModel>)
    requires
        w.valid(),
        0 <= at < w.scans.len(),
        0 <= n <= j < all_lobes(w.scans[at].trace, w.levels[at], w.adc_max).len(),
        forall|i: int| 0 <= i < s.len() ==> is_lobe_before(w, at, n, #[trigger] s[i]),
    ensures
        ({
            let r = all_lobes(w.scans[at].trace, w.levels[at], w.adc_max)[j];
            !taken(s, w.scans[at].id, r.start, r.end)
        }),
{
    let scan = w.scans[at];
    let rs = all_lobes(scan.trace, w.levels[at], w.adc_max);
    lobes_are_separate_runs(scan.trace, 0, scan.trace.size(), w.levels[at], w.adc_max);
    if taken(s, scan.id, rs[j].start, rs[j].end) {
        let i = choose|i: int|
            0 <= i < s.len() && (#[trigger] s[i]).scan_id == scan.id && crate::rules::overlaps(
                s[i],
                rs[j].start,
                rs[j].end,
            );
        assert(is_lobe_before(w, at, n, s[i]));
        let (x, y) = choose|x: int, y: int| #[trigger] is_lobe(w, x, y, s[i]) && (x < at || x == at && y < n);
        if x < at {
            assert(w.scans[x].id != w.scans[at].id);
        } else {
            assert(rs[y].end <= rs[j].start);
        }
    }
}

/// Whether `s` holds the candidate that a lobe shows.
pub open spec fn is_shown(w: WorldModel, at: int, j: int, s: Seq<CandidateModel>) -> bool {
    exists|i: int| 0 <= i < s.len() && is_lobe(w, at, j, #[trigger] s[i])
}

proof fn lemma_scan_shows(w: WorldModel, at: int, n: int, h: Harvest, j: int)
    requires
        w.valid(),
        0 <= at < w.scans.len(),
        0 <= j < n <= all_lobes(w.scans[at].trace, w.levels[at], w.adc_max).len(),
        forall|i: int| 0 <= i < h.added.len() ==> is_lobe_before(w, at, 0, #[trigger] h.added[i]),
        ({
            let r = all_lobes(w.scans[at].trace, w.levels[at], w.adc_max)[j];
            &&& !is_outside(w.gates, r.peak)
            &&& !taken(w.candidates, w.scans[at].id, r.start, r.end)
        }),
    ensures
        is_shown(
            w,
            at,
            j,
            harvest_scan(w, w.scans[at], all_lobes(w.scans[at].trace, w.levels[at], w.adc_max), n, h).added,
        ),
    decreases n,
{
    let scan = w.scans[at];
    let rs = all_lobes(scan.trace, w.levels[at], w.adc_max);
    let before = harvest_scan(w, scan, rs, n - 1, h);
    let out = harvest_scan(w, scan, rs, n, h).added;
    if j == n - 1 {
        let r = rs[j];
        assert(crate::rules::scan_fits(scan, w.samples, w.scans.len() as int, at));
        lobes_are_separate_runs(scan.trace, 0, scan.trace.size(), w.levels[at], w.adc_max);
        lemma_gate(w.gates, r.peak);
        lemma_scan_lobes(w, at, n - 1, h);
        lemma_lobe_taken_once(w, at, n - 1, j, before.added);
        let g = gate_index(w.gates, r.peak)->0;
        assert(is_gate_at(w.gates, r.peak, g));
        assert(0 <= r.peak < scan.trace.size());
        assert(is_lobe(w, at, j, out[before.added.len() as int]));
    } else {
        lemma_scan_shows(w, at, n - 1, h, j);
        let i = choose|i: int| 0 <= i < before.added.len() && is_lobe(w, at, j, #[trigger] before.added[i]);
        assert(out[i] == before.added[i]);
    }
}

proof fn lemma_scan_keeps(w: WorldModel, scan: ScanModel, rs: Seq<RegionModel>, n: int, h: Harvest, i: int)
    requires
        0 <= i < h.added.len(),
    ensures
        i < harvest_scan(w, scan, rs, n, h).added.len(),
        harvest_scan(w, scan, rs, n, h).added[i] == h.added[i],
    decreases n,
{
    if n > 0 {
        lemma_scan_keeps(w, scan, rs, n - 1, h, i);
    }
}

proof fn lemma_harvest_shows(w: WorldModel, n: int, at: int, j: int)
    requires
        w.valid(),
        0 <= at < n <= w.scans.len(),
        0 <= j < all_lobes(w.scans[at].trace, w.levels[at], w.adc_max).len(),
        ({
            let r = all_lobes(w.scans[at].trace, w.levels[at], w.adc_max)[j];
            &&& !is_outside(w.gates, r.peak)
            &&& !taken(w.candidates, w.scans[at].id, r.start, r.end)
        }),
    ensures
        is_shown(w, at, j, harvest(w, n).added),
    decreases n,
{
    let rs = all_lobes(w.scans[n - 1].trace, w.levels[n - 1], w.adc_max);
    let h = harvest(w, n - 1);
    lemma_lobes_of_scans(w, n - 1);
    if at == n - 1 {
        lemma_scan_shows(w, at, rs.len() as int, h, j);
    } else {
        lemma_harvest_shows(w, n - 1, at, j);
        let i = choose|i: int| 0 <= i < h.added.len() && is_lobe(w, at, j, #[trigger] h.added[i]);
        lemma_scan_keeps(w, w.scans[n - 1], rs, rs.len() as int, h, i);
        assert(is_lobe(w, at, j, harvest(w, n).added[i]));
    }
}

/// Whether two candidates of one scan share a sample.
pub open spec fn share_a_sample(c: CandidateModel, id: i64, start: int, end: int) -> bool {
    c.scan_id == id && exists|k: int| #![trigger c.at(k)] c.at(k) && start <= k < end
}

impl CandidateModel {
    /// Whether sample `k` lies in the interval of the candidate.
    pub open spec fn at(self, k: int) -> bool {
        self.start <= k < self.end
    }
}

/// Whether the candidates of a state are what its traces show at the levels in force,
/// given those of before: the locked ones of before are there, as they were; all
/// others are lobes; each lobe with its peak in a gate is there, unless a locked
/// candidate of its scan shares a sample with it; and they are in the order of scans
/// and peaks.
pub open spec fn shows_its_traces(before: Seq<CandidateModel>, n: WorldModel) -> bool {
    &&& forall|c: CandidateModel| c.locked ==> (#[trigger] n.candidates.contains(c) <==> before.contains(c))
    &&& forall|c: CandidateModel| #[trigger]
        n.candidates.contains(c) && !c.locked ==> exists|at: int, j: int| #[trigger] is_lobe(n, at, j, c)
    &&& forall|at: int, j: int|
        #![trigger lobes(n.scans[at].trace, 0, n.scans[at].trace.size(), n.levels[at], n.adc_max)[j]]
        0 <= at < n.scans.len() && 0 <= j < lobes(
            n.scans[at].trace,
            0,
            n.scans[at].trace.size(),
            n.levels[at],
            n.adc_max,
        ).len() ==> {
            let r = lobes(n.scans[at].trace, 0, n.scans[at].trace.size(), n.levels[at], n.adc_max)[j];
            is_outside(n.gates, r.peak) || is_shown(n, at, j, n.candidates) || exists|c: CandidateModel| #[trigger]
                before.contains(c) && c.locked && share_a_sample(c, n.scans[at].id, r.start, r.end)
        }
    &&& forall|i: int, j: int|
        0 <= i < j < n.candidates.len() ==> (#[trigger] n.candidates[i]).scan_id < (#[trigger] n.candidates[j]).scan_id
            || n.candidates[i].scan_id == n.candidates[j].scan_id && n.candidates[i].peak <= n.candidates[j].peak
    &&& forall|i: int|
        0 <= i < n.scans.len() ==> (#[trigger] n.scans[i]).candidates == ids_in(n.candidates, n.scans[i].id)
}

/// The ids of the candidates of a scan, in their order.
pub open spec fn ids_in(s: Seq<CandidateModel>, id: i64) -> Seq<Seq<char>> {
    s.filter(|c: CandidateModel| c.scan_id == id).map_values(|c: CandidateModel| c.id)
}

proof fn lemma_ids(s: Seq<CandidateModel>, id: i64)
    ensures
        ids_of_scan(s, id) == ids_in(s, id),
    decreases s.len(),
{
    reveal(Seq::filter);
    if s.len() > 0 {
        lemma_ids(s.drop_last(), id);
        let p = |c: CandidateModel| c.scan_id == id;
        let rest = s.drop_last().filter(p);
        if s.last().scan_id == id {
            assert(s.filter(p) == rest.push(s.last()));
            assert(ids_in(s, id) =~= ids_in(s.drop_last(), id).push(s.last().id));
        } else {
            assert(s.filter(p) == rest);
        }
    }
    assert(ids_of_scan(s, id) =~= ids_in(s, id));
}

proof fn lemma_same_lobe(w: WorldModel, n: WorldModel, at: int, j: int, c: CandidateModel)
    requires
        is_lobe(w, at, j, c),
        n.scans.len() == w.scans.len(),
        n.scans[at].trace == w.scans[at].trace,
        n.scans[at].id == w.scans[at].id,
        n.levels == w.levels,
        n.adc_max == w.adc_max,
        n.gates == w.gates,
        n.surfaces == w.surfaces,
        n.current_calib_id == w.current_calib_id,
    ensures
        is_lobe(n, at, j, c),
{
}

#[verifier::spinoff_prover]
#[verifier::rlimit(40)]
proof fn lemma_redetected(w: WorldModel)
    requires
        w.valid(),
    ensures
        shows_its_traces(w.candidates, redetected(w)),
{
    let k = kept(w);
    let n = redetected(w);
    let h = harvest(k, k.scans.len() as int);
    let all = k.candidates + h.added;
    lemma_kept_valid(w);
    assert(n.candidates == sorted::<Candidate>(all));
    sorting_orders_and_keeps_every_item::<Candidate>(all);
    lemma_sorted_members::<Candidate>(all);
    lemma_lobes_of_scans(k, k.scans.len() as int);
    assert forall|c: CandidateModel| c.locked implies (#[trigger] n.candidates.contains(c) <==> w.candidates.contains(c)) by {
        crate::rule_laws::locked_candidates_survive_detection(w, c);
    }
    assert forall|c: CandidateModel| #[trigger] n.candidates.contains(c) && !c.locked implies exists|at: int, j: int|
        #[trigger] is_lobe(n, at, j, c) by {
        assert(all.contains(c));
        let i = choose|i: int| 0 <= i < all.len() && all[i] == c;
        if i < k.candidates.len() {
            assert(k.candidates.contains(c)) by {
                assert(k.candidates[i] == c);
            }
            crate::rule_laws::lemma_locked_ones(w.candidates, c);
        } else {
            assert(h.added[i - k.candidates.len()] == c);
            assert(is_lobe_before(k, k.scans.len() as int, 0, c));
            let (at, j) = choose|at: int, j: int| #[trigger]
                is_lobe(k, at, j, c) && (at < k.scans.len() || at == k.scans.len() && j < 0);
            lemma_same_lobe(k, n, at, j, c);
        }
    }
    assert forall|at: int, j: int|
        #![trigger lobes(n.scans[at].trace, 0, n.scans[at].trace.size(), n.levels[at], n.adc_max)[j]]
        0 <= at < n.scans.len() && 0 <= j < lobes(
            n.scans[at].trace,
            0,
            n.scans[at].trace.size(),
            n.levels[at],
            n.adc_max,
        ).len() implies ({
        let r = lobes(n.scans[at].trace, 0, n.scans[at].trace.size(), n.levels[at], n.adc_max)[j];
        is_outside(n.gates, r.peak) || is_shown(n, at, j, n.candidates) || exists|c: CandidateModel| #[trigger]
            w.candidates.contains(c) && c.locked && share_a_sample(c, n.scans[at].id, r.start, r.end)
    }) by {
        lemma_lobe_is_there(w, at, j);
    }
    assert forall|i: int, j: int| 0 <= i < j < n.candidates.len() implies (#[trigger] n.candidates[i]).scan_id < (
    #[trigger] n.candidates[j]).scan_id || n.candidates[i].scan_id == n.candidates[j].scan_id && n.candidates[i].peak
        <= n.candidates[j].peak by {
        assert(<Candidate as Ranked>::ranks(n.candidates[i], n.candidates[j]));
    }
    assert forall|i: int| 0 <= i < n.scans.len() implies (#[trigger] n.scans[i]).candidates == ids_in(
        n.candidates,
        n.scans[i].id,
    ) by {
        lemma_ids(n.candidates, n.scans[i].id);
    }
}

proof fn lemma_kept_valid(w: WorldModel)
    requires
        w.valid(),
    ensures
        kept(w).valid(),
{
    let k = kept(w);
    assert forall|i: int| 0 <= i < k.candidates.len() implies crate::rules::candidate_fits(k, #[trigger] k.candidates[i]) by {
        assert(k.candidates.contains(k.candidates[i]));
        crate::rule_laws::lemma_locked_ones(w.candidates, k.candidates[i]);
        let j = choose|j: int| 0 <= j < w.candidates.len() && w.candidates[j] == k.candidates[i];
        assert(crate::rules::candidate_fits(w, w.candidates[j]));
    }
}

proof fn lemma_lobe_is_there(w: WorldModel, at: int, j: int)
    requires
        w.valid(),
        0 <= at < w.scans.len(),
        0 <= j < all_lobes(w.scans[at].trace, w.levels[at], w.adc_max).len(),
    ensures
        ({
            let n = redetected(w);
            let r = all_lobes(w.scans[at].trace, w.levels[at], w.adc_max)[j];
            is_outside(w.gates, r.peak) || is_shown(n, at, j, n.candidates) || exists|c: CandidateModel| #[trigger]
                w.candidates.contains(c) && c.locked && share_a_sample(c, w.scans[at].id, r.start, r.end)
        }),
{
    let k = kept(w);
    let n = redetected(w);
    let h = harvest(k, k.scans.len() as int);
    let all = k.candidates + h.added;
    let r = all_lobes(w.scans[at].trace, w.levels[at], w.adc_max)[j];
    lobes_are_separate_runs(w.scans[at].trace, 0, w.scans[at].trace.size(), w.levels[at], w.adc_max);
    lemma_kept_valid(w);
    lemma_sorted_members::<Candidate>(all);
    if !is_outside(w.gates, r.peak) {
        if taken(k.candidates, w.scans[at].id, r.start, r.end) {
            let i = choose|i: int|
                0 <= i < k.candidates.len() && (#[trigger] k.candidates[i]).scan_id == w.scans[at].id
                    && crate::rules::overlaps(k.candidates[i], r.start, r.end);
            let c = k.candidates[i];
            assert(k.candidates.contains(c));
            crate::rule_laws::lemma_locked_ones(w.candidates, c);
            assert(crate::rules::candidate_fits(k, c));
            let x = if c.start >= r.start {
                c.start
            } else {
                r.start
            };
            assert(c.at(x) && r.start <= x < r.end);
            assert(share_a_sample(c, w.scans[at].id, r.start, r.end));
            assert(w.candidates.contains(c) && c.locked);
        } else {
            lemma_harvest_shows(k, k.scans.len() as int, at, j);
            let i = choose|i: int| 0 <= i < h.added.len() && is_lobe(k, at, j, #[trigger] h.added[i]);
            let c = h.added[i];
            assert(all[k.candidates.len() + i] == c);
            assert(all.contains(c));
            assert(n.candidates.contains(c));
            let y = choose|y: int| 0 <= y < n.candidates.len() && n.candidates[y] == c;
            lemma_same_lobe(k, n, at, j, c);
            assert(is_lobe(n, at, j, n.candidates[y]));
        }
    }
}

/// A threshold is changed if and only if its mode is `amp` or `snr` and its value is
/// not zero or below. Then that mode is in force, the threshold of the mode has the
/// value, that of the other mode stays, and the candidates are what the traces show
/// at the new levels. Gates, surfaces, tracks and calibration stay.
pub proof fn thresholds_change_what_is_found(w: WorldModel, mode: Seq<char>, value: Quantity, levels: Seq<Quantity>)
    requires
        w.valid(),
        crate::rules::levels_fit(levels, w.scans.len() as int),
    ensures
        ({
            let o = applied(w, EventModel::ThresholdChanged { mode, value, levels });
            let n = o.world;
            &&& o.result is Ok <==> (mode == "amp"@ || mode == "snr"@) && !value.le(Quantity { bits: 0 })
            &&& o.result is Ok ==> {
                &&& n.threshold_mode == mode
                &&& mode == "amp"@ ==> n.threshold_amp == value && n.threshold_snr == w.threshold_snr
                &&& mode == "snr"@ ==> n.threshold_snr == value && n.threshold_amp == w.threshold_amp
                &&& n.levels == levels
                &&& shows_its_traces(w.candidates, n)
                &&& same_bench(w, n)
                &&& n.gates == w.gates && n.surfaces == w.surfaces && n.tracks == w.tracks
                &&& n.current_calib_id == w.current_calib_id
                &&& n.scans.len() == w.scans.len()
                &&& forall|i: int|
                    0 <= i < n.scans.len() ==> #[trigger] n.scans[i] == (ScanModel {
                        candidates: n.scans[i].candidates,
                        ..w.scans[i]
                    })
            }
        }),
{
    reveal_strlit("amp");
    reveal_strlit("snr");
    assert("amp"@[0] != "snr"@[0]);
    let o = applied(w, EventModel::ThresholdChanged { mode, value, levels });
    if o.result is Ok {
        let t = rethresholded(w, mode, value, levels);
        assert(t.valid()) by {
            assert forall|i: int| 0 <= i < t.candidates.len() implies crate::rules::candidate_fits(
                t,
                #[trigger] t.candidates[i],
            ) by {
                assert(crate::rules::candidate_fits(w, w.candidates[i]));
            }
        }
        lemma_redetected(t);
    }
}

/// A bench starts if and only if its calibration is known: with that calibration, in
/// SNR mode if that is asked for and in amplitude mode otherwise, with thresholds that
/// are not below zero, the recorded surfaces, no tracks, and the candidates that its
/// traces show.
pub proof fn benches_start_with_what_their_traces_show(
    s: crate::setup::SetupModel,
    calib_id: i64,
    mode: Seq<char>,
    amp: Quantity,
    snr: Quantity,
    levels: Seq<Quantity>,
)
    requires
        s.valid(),
        crate::rules::levels_fit(levels, s.scans.len() as int),
    ensures
        ({
            let b = crate::setup::booted(s, calib_id, mode, amp, snr, levels);
            let zero = Quantity { bits: 0 };
            &&& b is Ok <==> exists|i: int| 0 <= i < s.calibs.len() && (#[trigger] s.calibs[i]).id == calib_id
            &&& b matches Ok(w) ==> {
                &&& w.current_calib_id == calib_id
                &&& mode == "snr"@ ==> w.threshold_mode == "snr"@
                &&& mode != "snr"@ ==> w.threshold_mode == "amp"@
                &&& zero.lt(amp) ==> w.threshold_amp == amp
                &&& amp.not_a_number() || amp.lt(zero) ==> w.threshold_amp == zero
                &&& zero.lt(snr) ==> w.threshold_snr == snr
                &&& snr.not_a_number() || snr.lt(zero) ==> w.threshold_snr == zero
                &&& w.levels == levels
                &&& w.gates == s.gates && w.samples == s.samples && w.adc_max == s.adc_max && w.calibs == s.calibs
                &&& w.tracks.len() == 0
                &&& w.scans.len() == s.scans.len()
                &&& forall|i: int|
                    0 <= i < s.scans.len() ==> w.surfaces.dom().contains((#[trigger] s.scans[i]).id)
                        && w.surfaces[s.scans[i].id] == s.scans[i].surface_sample && w.scans[i].id == s.scans[i].id
                        && w.scans[i].trace == s.scans[i].trace
                &&& forall|id: i64| #[trigger]
                    w.surfaces.dom().contains(id) ==> exists|i: int| 0 <= i < s.scans.len() && (#[trigger] s.scans[i]).id == id
                &&& shows_its_traces(Seq::empty(), w)
            }
        }),
{
    lemma_calib(s.calibs, calib_id);
    let u = crate::setup::unexamined(s, calib_id, mode, amp, snr, levels);
    crate::setup::lemma_first_surfaces(s.scans, s.scans.len() as int);
    assert(u.valid());
    lemma_redetected(u);
    assert forall|i: int| 0 <= i < s.scans.len() implies u.surfaces.dom().contains((#[trigger] s.scans[i]).id)
        && u.surfaces[s.scans[i].id] == s.scans[i].surface_sample by {
        lemma_surface_of(s.scans, s.scans.len() as int, i);
    }
    assert forall|id: i64| #[trigger] u.surfaces.dom().contains(id) implies exists|i: int|
        0 <= i < s.scans.len() && (#[trigger] s.scans[i]).id == id by {
        lemma_scan_of(s.scans, s.scans.len() as int, id);
    }
}

proof fn lemma_surface_of(scans: Seq<ScanModel>, n: int, i: int)
    requires
        0 <= i < n <= scans.len(),
        forall|i: int, j: int| 0 <= i < j < scans.len() ==> (#[trigger] scans[i]).id != (#[trigger] scans[j]).id,
    ensures
        crate::setup::first_surfaces(scans, n).dom().contains(scans[i].id),
        crate::setup::first_surfaces(scans, n)[scans[i].id] == scans[i].surface_sample,
    decreases n,
{
    if i < n - 1 {
        lemma_surface_of(scans, n - 1, i);
        assert(scans[i].id != scans[n - 1].id);
    }
}

proof fn lemma_scan_of(scans: Seq<ScanModel>, n: int, id: i64)
    requires
        0 <= n <= scans.len(),
        crate::setup::first_surfaces(scans, n).dom().contains(id),
    ensures
        exists|i: int| 0 <= i < scans.len() && (#[trigger] scans[i]).id == id,
    decreases n,
{
    if n > 0 {
        if scans[n - 1].id != id {
            lemma_scan_of(scans, n - 1, id);
        }
    }
}

// ---------------------------------------------------------------- splits

/// Whether `c` is one side of a split: a candidate of the scan, split by hand and
/// locked, in its parent's gate, that peaks at its first highest sample and has
/// the amplitude and the delay there.
pub open spec fn is_side(w: WorldModel, scan: ScanModel, parent: CandidateModel, c: CandidateModel) -> bool {
    let env = scan.trace.envelope@;
    &&& c.scan_id == scan.id
    &&& c.gate_kind == parent.gate_kind
    &&& c.kind == CandidateKind::Split && c.locked && c.origin == "split"@
    &&& c.verdict is None && c.track_id is None
    &&& crate::lobe_laws::is_first_highest(env, c.start, c.end, c.peak)
    &&& c.amplitude == scan.trace.counts@[c.peak]
    &&& c.lower_bound <==> exists|k: int|
        c.start <= k < c.end && (#[trigger] scan.trace.raw@[k] == w.adc_max || scan.trace.raw@[k] == -w.adc_max)
    &&& is_delay(w.surfaces, scan.id, c.peak, c.depth_snapshot)
    &&& c.calib_id_snapshot == w.current_calib_id
}

/// The id of the candidate of a scan that is the `k`-th from now on.
pub open spec fn numbered(w: WorldModel, scan_id: i64, k: int) -> Seq<char> {
    let had = if w.counters.dom().contains(scan_id) {
        w.counters[scan_id] as int
    } else {
        0
    };
    "s"@ + crate::text::signed_digits(scan_id as int) + "-c"@ + crate::text::signed_digits(had + k)
}

/// Whether scan number `s` has, from `lo` to `hi`, a sample that is not negative.
pub open spec fn has_some(scan: ScanModel, lo: int, hi: int) -> bool {
    exists|k: int| lo <= k < hi && (Quantity { bits: 0 }).le(#[trigger] scan.trace.envelope@[k])
}

/// Whether `p` is the first candidate with an id.
pub open spec fn is_named(s: Seq<CandidateModel>, id: Seq<char>, p: int) -> bool {
    &&& 0 <= p < s.len()
    &&& s[p].id == id
    &&& forall|j: int| 0 <= j < p ==> (#[trigger] s[j]).id != id
}

proof fn lemma_named(s: Seq<CandidateModel>, id: Seq<char>)
    ensures
        match crate::rules::candidate_index(s, id) {
            Some(p) => is_named(s, id, p),
            None => forall|j: int| 0 <= j < s.len() ==> (#[trigger] s[j]).id != id,
        },
        forall|p: int| #[trigger] is_named(s, id, p) ==> crate::rules::candidate_index(s, id) == Some(p),
{
    let q = crate::rules::with_id(id);
    lemma_search(s, q);
    match crate::rules::candidate_index(s, id) {
        Some(p) => {
            assert(q(s[p]));
            assert forall|j: int| 0 <= j < p implies (#[trigger] s[j]).id != id by {
                assert(!q(s[j]));
            }
        },
        None => {
            assert forall|j: int| 0 <= j < s.len() implies (#[trigger] s[j]).id != id by {
                assert(!q(s[j]));
            }
        },
    }
    assert forall|p: int| #[trigger] is_named(s, id, p) implies crate::rules::candidate_index(s, id) == Some(p) by {
        if let Some(x) = crate::rules::candidate_index(s, id) {
            if x < p {
                assert(s[x].id != id);
            } else if p < x {
                assert(s[p].id != id);
            }
        }
    }
}

proof fn lemma_first_lobe(w: WorldModel, scan: ScanModel, lo: int, hi: int)
    requires
        scan.trace.valid(),
        0 <= lo < hi <= scan.trace.size(),
    ensures
        ({
            let s = lobes(scan.trace, lo, hi, Quantity { bits: 0 }, w.adc_max);
            &&& s.len() > 0 <==> has_some(scan, lo, hi)
            &&& s.len() > 0 ==> {
                &&& lo <= s[0].start <= s[0].peak < s[0].end <= hi
                &&& crate::lobe_laws::is_first_highest(scan.trace.envelope@, s[0].start, s[0].end, s[0].peak)
                &&& s[0].saturated <==> exists|k: int|
                    s[0].start <= k < s[0].end && (#[trigger] scan.trace.raw@[k] == w.adc_max || scan.trace.raw@[k]
                        == -w.adc_max)
            }
        }),
{
    let zero = Quantity { bits: 0 };
    let s = lobes(scan.trace, lo, hi, zero, w.adc_max);
    lobes_are_separate_runs(scan.trace, lo, hi, zero, w.adc_max);
    lobes_peak_at_their_highest_sample(scan.trace, lo, hi, zero, w.adc_max);
    if s.len() > 0 {
        crate::lobe_laws::lobes_are_of_the_kind_that_they_show(scan.trace, lo, hi, zero, w.adc_max, 0);
        assert(zero.le(scan.trace.envelope@[s[0].start]));
        assert(crate::detection::lobe_inside(s[0], lo, hi));
    }
    if has_some(scan, lo, hi) {
        let k = choose|k: int| lo <= k < hi && zero.le(#[trigger] scan.trace.envelope@[k]);
        crate::lobe_laws::lobes_cover_what_reaches_the_level(scan.trace, lo, hi, zero, w.adc_max, k);
        assert(crate::lobe_laws::is_covered(s, k));
    }
}

/// A split is accepted if and only if the depth axis is not inverted, there is a
/// candidate with the id that is not saturated, and the cut lies strictly inside it
/// with something on both sides. Then the candidate is gone, its two sides are there,
/// numbered as the next candidates of the scan, and every other candidate stays.
/// Nothing else changes but the lists of the scans and the count of candidates.
pub proof fn splits_put_two_sides_in_place(w: WorldModel, id: Seq<char>, cut: i64)
    requires
        w.valid(),
        w.has_room(),
    ensures
        ({
            let o = applied(w, EventModel::CandidateSplit { parent_id: id, cut });
            let n = o.world;
            &&& o.result is Ok <==> !w.inverted && exists|p: int, s: int|
                {
                    &&& #[trigger] is_named(w.candidates, id, p)
                    &&& 0 <= s < w.scans.len() && (#[trigger] w.scans[s]).id == w.candidates[p].scan_id
                    &&& w.candidates[p].kind != CandidateKind::Saturated
                    &&& w.candidates[p].start < cut < w.candidates[p].end
                    &&& has_some(w.scans[s], w.candidates[p].start, cut as int)
                    &&& has_some(w.scans[s], cut as int, w.candidates[p].end)
                }
            &&& o.result is Ok ==> exists|p: int, s: int, a: CandidateModel, b: CandidateModel|
                {
                    &&& #[trigger] is_named(w.candidates, id, p)
                    &&& 0 <= s < w.scans.len() && w.scans[s].id == w.candidates[p].scan_id
                    &&& #[trigger] is_side(w, w.scans[s], w.candidates[p], a)
                    &&& #[trigger] is_side(w, w.scans[s], w.candidates[p], b)
                    &&& w.candidates[p].start <= a.start < a.end <= cut <= b.start < b.end <= w.candidates[p].end
                    &&& a.id == numbered(w, w.scans[s].id, 1)
                    &&& b.id == numbered(w, w.scans[s].id, 2)
                    &&& n.candidates.len() == w.candidates.len() + 1
                    &&& n.candidates.to_multiset() == w.candidates.remove(p).push(a).push(b).to_multiset()
                }
            &&& o.result is Ok ==> {
                &&& same_bench(w, n) && same_thresholds(w, n)
                &&& n.gates == w.gates && n.surfaces == w.surfaces && n.tracks == w.tracks
                &&& n.current_calib_id == w.current_calib_id && n.inverted == w.inverted
                &&& forall|i: int|
                    0 <= i < n.scans.len() ==> (#[trigger] n.scans[i]).candidates == ids_in(n.candidates, n.scans[i].id)
            }
        }),
{
    let o = applied(w, EventModel::CandidateSplit { parent_id: id, cut });
    let n = o.world;
    lemma_named(w.candidates, id);
    if let Some(p) = crate::rules::candidate_index(w.candidates, id) {
        let parent = w.candidates[p];
        assert(crate::rules::candidate_fits(w, parent));
        let q = with_scan_id(parent.scan_id);
        lemma_search(w.scans, q);
        let s = scan_index(w.scans, parent.scan_id)->0;
        assert(q(w.scans[s]));
        let scan = w.scans[s];
        assert(crate::rules::scan_fits(scan, w.samples, w.scans.len() as int, s));
        assert forall|x: int| 0 <= x < w.scans.len() && (#[trigger] w.scans[x]).id == parent.scan_id implies x == s by {
            if x < s {
                assert(w.scans[x].id != w.scans[s].id);
            } else if s < x {
                assert(w.scans[s].id != w.scans[x].id);
            }
        }
        if parent.start < cut < parent.end {
            lemma_first_lobe(w, scan, parent.start, cut as int);
            lemma_first_lobe(w, scan, cut as int, parent.end);
        }
        if o.result is Ok {
            let zero = Quantity { bits: 0 };
            let left = lobes(scan.trace, parent.start, cut as int, zero, w.adc_max);
            let right = lobes(scan.trace, cut as int, parent.end, zero, w.adc_max);
            let one = crate::rules::split_side(w, w.counters, scan, parent.gate_kind, left[0]);
            let two = crate::rules::split_side(
                w,
                crate::rules::counted(w.counters, scan.id),
                scan,
                parent.gate_kind,
                right[0],
            );
            let all = w.candidates.remove(p).push(one).push(two);
            sorting_orders_and_keeps_every_item::<Candidate>(all);
            assert(n.candidates == sorted::<Candidate>(all));
            assert(is_side(w, scan, parent, one));
            assert(is_side(w, scan, parent, two));
            assert(crate::rules::counter(w.counters, scan.id) + w.samples <= i64::MAX);
            assert(w.samples >= 2);
            assert(one.id == numbered(w, scan.id, 1));
            assert(two.id == numbered(w, scan.id, 2));
            assert forall|i: int| 0 <= i < n.scans.len() implies (#[trigger] n.scans[i]).candidates == ids_in(
                n.candidates,
                n.scans[i].id,
            ) by {
                lemma_ids(n.candidates, n.scans[i].id);
            }
            assert(is_named(w.candidates, id, p));
        }
        if o.result is Err && !w.inverted {
            assert forall|x: int, y: int| !({
                &&& #[trigger] is_named(w.candidates, id, x)
                &&& 0 <= y < w.scans.len() && (#[trigger] w.scans[y]).id == w.candidates[x].scan_id
                &&& w.candidates[x].kind != CandidateKind::Saturated
                &&& w.candidates[x].start < cut < w.candidates[x].end
                &&& has_some(w.scans[y], w.candidates[x].start, cut as int)
                &&& has_some(w.scans[y], cut as int, w.candidates[x].end)
            }) by {
                if is_named(w.candidates, id, x) {
                    assert(x == p);
                }
            }
        }
    } else {
        assert forall|x: int| !(#[trigger] is_named(w.candidates, id, x)) by {
            if is_named(w.candidates, id, x) {
                assert(w.candidates[x].id != id);
            }
        }
    }
}

// ---------------------------------------------------------------- tracks

/// The lowest id that no track has reached: one more than the highest, and 1 where
/// there is no track.
pub proof fn track_ids_follow_the_highest(tracks: Seq<TrackModel>)
    ensures
        tracks.len() == 0 ==> crate::events::following_track_id(tracks) == 1,
        forall|i: int| 0 <= i < tracks.len() ==> (#[trigger] tracks[i]).id < crate::events::following_track_id(tracks),
        tracks.len() > 0 ==> exists|i: int|
            0 <= i < tracks.len() && (#[trigger] tracks[i]).id == crate::events::following_track_id(tracks) - 1,
{
    if tracks.len() > 0 {
        lemma_top_track(tracks, tracks[0].id);
        assert(tracks[0].id == tracks[0].id);
    }
}

proof fn lemma_top_track(tracks: Seq<TrackModel>, floor: i64)
    ensures
        crate::events::top_track(tracks, floor) >= floor,
        forall|i: int| 0 <= i < tracks.len() ==> (#[trigger] tracks[i]).id <= crate::events::top_track(tracks, floor),
        crate::events::top_track(tracks, floor) == floor || exists|i: int|
            0 <= i < tracks.len() && (#[trigger] tracks[i]).id == crate::events::top_track(tracks, floor),
    decreases tracks.len(),
{
    if tracks.len() > 0 {
        let front = tracks.drop_last();
        lemma_top_track(front, floor);
        let rest = crate::events::top_track(front, floor);
        assert forall|i: int| 0 <= i < tracks.len() implies (#[trigger] tracks[i]).id <= crate::events::top_track(
            tracks,
            floor,
        ) by {
            if i < front.len() {
                assert(front[i].id <= rest);
            }
        }
        if tracks.last().id > rest {
            assert(tracks[tracks.len() - 1].id == crate::events::top_track(tracks, floor));
        } else if rest != floor {
            let i = choose|i: int| 0 <= i < front.len() && (#[trigger] front[i]).id == rest;
            assert(tracks[i].id == rest);
        }
    }
}

/// Whether scan `b` is the first that stands at the lateral position of scan `k`: the
/// distance along x is less than 1e-9.
pub open spec fn is_first_there(scans: Seq<ScanModel>, k: int, b: int) -> bool {
    &&& 0 <= b < scans.len()
    &&& scans[b].x_gaps[k].lt(Quantity { bits: 0x3e11_2e0b_e826_d695 })
    &&& forall|j: int| 0 <= j < b ==> !(#[trigger] scans[j]).x_gaps[k].lt(Quantity { bits: 0x3e11_2e0b_e826_d695 })
}

/// Whether scans `k` and `l` are adjacent: the first ones at their positions are no
/// more than 5 mm apart.
pub open spec fn are_adjacent(scans: Seq<ScanModel>, k: int, l: int) -> bool {
    exists|a: int, b: int| #[trigger]
        is_first_there(scans, k, a) && #[trigger] is_first_there(scans, l, b) && scans[a].distances[b].le(
            Quantity { bits: 0x4014_0000_0011_2e0c },
        )
}

proof fn lemma_first_there(scans: Seq<ScanModel>, k: int)
    requires
        0 <= k < scans.len(),
        scans[k].x_gaps[k].lt(Quantity { bits: 0x3e11_2e0b_e826_d695 }),
    ensures
        is_first_there(scans, k, crate::rules::first_beside(scans, k)),
        forall|b: int| #[trigger] is_first_there(scans, k, b) ==> b == crate::rules::first_beside(scans, k),
{
    let p = crate::rules::beside(k);
    lemma_search(scans, p);
    assert(p(scans[k]));
    let a = crate::rules::first_beside(scans, k);
    assert(p(scans[a]));
    assert forall|j: int| 0 <= j < a implies !(#[trigger] scans[j]).x_gaps[k].lt(
        Quantity { bits: 0x3e11_2e0b_e826_d695 },
    ) by {
        assert(!p(scans[j]));
    }
    assert forall|b: int| #[trigger] is_first_there(scans, k, b) implies b == a by {
        if a < b {
            assert(!scans[a].x_gaps[k].lt(Quantity { bits: 0x3e11_2e0b_e826_d695 }));
        } else if b < a {
            assert(!scans[b].x_gaps[k].lt(Quantity { bits: 0x3e11_2e0b_e826_d695 }));
        }
    }
}

/// Whether `o` lists the scans of the members of a track, in the order of their
/// lateral positions, each adjacent to the next.
pub open spec fn is_chain_of(w: WorldModel, ids: Seq<Seq<char>>, o: Seq<int>) -> bool {
    &&& o.to_multiset() == scans_of(w, ids).to_multiset()
    &&& forall|k: int| 0 <= k < o.len() ==> 0 <= #[trigger] o[k] < w.scans.len()
    &&& forall|k: int, l: int|
        0 <= k < l < o.len() ==> w.scans[#[trigger] o[k]].x_mm.le(w.scans[#[trigger] o[l]].x_mm)
    &&& forall|k: int, l: int|
        0 <= k < o.len() && l == k + 1 && l < o.len() ==> are_adjacent(w.scans, #[trigger] o[k], #[trigger] o[l])
}

/// The numbers of the scans of the members of a track.
pub open spec fn scans_of(w: WorldModel, ids: Seq<Seq<char>>) -> Seq<int> {
    Seq::new(ids.len(), |k: int| scan_index(w.scans, crate::rules::scan_of(w.candidates, ids[k]))->0)
}

proof fn lemma_second(s: Seq<(Quantity, int)>, t: Seq<(Quantity, int)>)
    requires
        s.to_multiset() == t.to_multiset(),
    ensures
        s.map_values(|p: (Quantity, int)| p.1).to_multiset() == t.map_values(|p: (Quantity, int)| p.1).to_multiset(),
    decreases s.len(),
{
    broadcast use vstd::seq_lib::group_to_multiset_ensures;
    let f = |p: (Quantity, int)| p.1;
    s.to_multiset_ensures();
    t.to_multiset_ensures();
    if s.len() > 0 {
        let x = s.last();
        assert(s.contains(x));
        assert(s.to_multiset().count(x) > 0);
        assert(t.contains(x));
        let i = choose|i: int| 0 <= i < t.len() && t[i] == x;
        let rest = t.remove(i);
        let front = s.drop_last();
        assert(s.remove(s.len() - 1) =~= front);
        assert(front.to_multiset() =~= s.to_multiset().remove(x));
        assert(rest.to_multiset() =~= t.to_multiset().remove(x));
        lemma_second(front, rest);
        assert(s.map_values(f) =~= front.map_values(f).push(x.1));
        assert(t.map_values(f).remove(i) =~= rest.map_values(f));
        t.map_values(f).to_multiset_ensures();
        front.map_values(f).to_multiset_ensures();
        assert(t.map_values(f)[i] == x.1);
        assert(rest.map_values(f).to_multiset() =~= t.map_values(f).to_multiset().remove(x.1));
        assert(t.map_values(f).contains(x.1));
        assert(t.map_values(f).to_multiset().count(x.1) > 0);
        assert(t.map_values(f).to_multiset() =~= rest.map_values(f).to_multiset().insert(x.1));
    } else {
        assert(t.len() == 0);
        assert(s.map_values(f) =~= t.map_values(f));
    }
}

/// Whether an id names a candidate that belongs to no track.
pub open spec fn names_a_free_one(s: Seq<CandidateModel>, id: Seq<char>) -> bool {
    exists|p: int| #[trigger] is_named(s, id, p) && s[p].track_id is None
}

/// The members of an accepted track are free candidates of different scans. They
/// stand, in the order of their lateral positions, each adjacent to the next: no more
/// than 5 mm apart. The depth axis is not inverted, and no track has the id already.
pub proof fn accepted_tracks_are_chains_of_adjacent_scans(w: WorldModel, track_id: i64, ids: Seq<Seq<char>>)
    requires
        w.valid(),
        applied(w, EventModel::TrackGrouped { track_id, candidate_ids: ids }).result is Ok,
    ensures
        exists|o: Seq<int>| #[trigger] is_chain_of(w, ids, o),
        !w.inverted,
        ids.len() >= 2,
        forall|k: int| 0 <= k < ids.len() ==> names_a_free_one(w.candidates, #[trigger] ids[k]),
        forall|k: int, l: int, p: int, q: int|
            0 <= k < l < ids.len() && #[trigger] is_named(w.candidates, ids[k], p) && #[trigger] is_named(
                w.candidates,
                ids[l],
                q,
            ) ==> w.candidates[p].scan_id != w.candidates[q].scan_id,
        forall|i: int| 0 <= i < w.tracks.len() ==> (#[trigger] w.tracks[i]).id != track_id,
{
    let pl = crate::rules::places(w, ids);
    let ordered = sorted::<crate::rules::Place>(pl);
    let f = |p: (Quantity, int)| p.1;
    let o = ordered.map_values(f);
    crate::rule_laws::accepted_tracks_claim_their_members(w, track_id, ids);
    sorting_orders_and_keeps_every_item::<crate::rules::Place>(pl);
    lemma_sorted_members::<crate::rules::Place>(pl);
    lemma_second(ordered, pl);
    assert(pl.map_values(f) =~= scans_of(w, ids));
    assert forall|k: int| 0 <= k < ids.len() implies names_a_free_one(w.candidates, #[trigger] ids[k]) by {
        lemma_named(w.candidates, ids[k]);
        let p = crate::rules::candidate_index(w.candidates, ids[k])->0;
        assert(is_named(w.candidates, ids[k], p));
    }
    assert forall|k: int| 0 <= k < ordered.len() implies 0 <= (#[trigger] ordered[k]).1 < w.scans.len() && ordered[k].0
        == w.scans[ordered[k].1].x_mm by {
        assert(ordered.contains(ordered[k]));
        let i = choose|i: int| 0 <= i < pl.len() && pl[i] == ordered[k];
        lemma_named(w.candidates, ids[i]);
        let p = crate::rules::candidate_index(w.candidates, ids[i])->0;
        assert(crate::rules::candidate_fits(w, w.candidates[p]));
        lemma_search(w.scans, with_scan_id(w.candidates[p].scan_id));
    }
    assert forall|k: int, l: int| 0 <= k < l < o.len() implies w.scans[#[trigger] o[k]].x_mm.le(
        w.scans[#[trigger] o[l]].x_mm,
    ) by {
        assert(<crate::rules::Place as Ranked>::ranks(ordered[k], ordered[l]));
        assert(crate::rules::scan_fits(w.scans[o[k]], w.samples, w.scans.len() as int, o[k]));
        assert(crate::rules::scan_fits(w.scans[o[l]], w.samples, w.scans.len() as int, o[l]));
    }
    assert forall|k: int, l: int| 0 <= k < o.len() && l == k + 1 && l < o.len() implies are_adjacent(
        w.scans,
        #[trigger] o[k],
        #[trigger] o[l],
    ) by {
        assert(ordered[k] == ordered[k]);
        assert(crate::rules::adjacent(
            w.scans,
            crate::rules::first_beside(w.scans, ordered[k].1),
            crate::rules::first_beside(w.scans, ordered[k + 1].1),
        ));
        assert(crate::rules::scan_fits(w.scans[o[k]], w.samples, w.scans.len() as int, o[k]));
        assert(crate::rules::scan_fits(w.scans[o[l]], w.samples, w.scans.len() as int, o[l]));
        lemma_first_there(w.scans, o[k]);
        lemma_first_there(w.scans, o[l]);
    }
    assert(is_chain_of(w, ids, o));
    assert forall|k: int, l: int, p: int, q: int|
        0 <= k < l < ids.len() && #[trigger] is_named(w.candidates, ids[k], p) && #[trigger] is_named(
            w.candidates,
            ids[l],
            q,
        ) implies w.candidates[p].scan_id != w.candidates[q].scan_id by {
        lemma_named(w.candidates, ids[k]);
        lemma_named(w.candidates, ids[l]);
        assert(crate::rules::scan_of(w.candidates, ids[k]) != crate::rules::scan_of(w.candidates, ids[l]));
    }
    let t = crate::rules::with_track_id(track_id);
    lemma_search(w.tracks, t);
    assert forall|i: int| 0 <= i < w.tracks.len() implies (#[trigger] w.tracks[i]).id != track_id by {
        assert(!t(w.tracks[i]));
    }
}

/// Where the scan of the member with an id stands.
pub open spec fn x_of(w: WorldModel, id: Seq<char>) -> Quantity {
    w.scans[scan_number(w, id)].x_mm
}

/// The number of the scan of the member with an id.
pub open spec fn scan_number(w: WorldModel, id: Seq<char>) -> int {
    scan_index(w.scans, crate::rules::scan_of(w.candidates, id))->0
}

/// Whether a member of the track stands between two others.
pub open spec fn has_one_between(w: WorldModel, ids: Seq<Seq<char>>, k: int, l: int) -> bool {
    exists|m: int|
        0 <= m < ids.len() && x_of(w, ids[k]).lt(x_of(w, #[trigger] ids[m])) && x_of(w, ids[m]).lt(x_of(w, ids[l]))
}

proof fn lemma_all_free(candidates: Seq<CandidateModel>, ids: Seq<Seq<char>>, k: int)
    requires
        0 <= k <= ids.len(),
        forall|i: int| 0 <= i < ids.len() ==> names_a_free_one(candidates, #[trigger] ids[i]),
    ensures
        crate::rules::member_fault(candidates, ids, k) is None,
    decreases ids.len() - k,
{
    if k < ids.len() {
        lemma_all_free(candidates, ids, k + 1);
        assert(names_a_free_one(candidates, ids[k]));
        lemma_named(candidates, ids[k]);
    }
}

/// Whether the members of a track stand apart along x, each adjacent to the next.
pub open spec fn stand_in_line(w: WorldModel, ids: Seq<Seq<char>>) -> bool {
    &&& forall|k: int, l: int|
        0 <= k < l < ids.len() ==> x_of(w, #[trigger] ids[k]).lt(x_of(w, #[trigger] ids[l])) || x_of(w, ids[l]).lt(
            x_of(w, ids[k]),
        )
    &&& forall|k: int, l: int|
        0 <= k < ids.len() && 0 <= l < ids.len() && x_of(w, #[trigger] ids[k]).lt(x_of(w, #[trigger] ids[l]))
            && !has_one_between(w, ids, k, l) ==> are_adjacent(w.scans, scan_number(w, ids[k]), scan_number(w, ids[l]))
}

#[verifier::spinoff_prover]
#[verifier::rlimit(60)]
proof fn lemma_next_is_adjacent(
    w: WorldModel,
    ids: Seq<Seq<char>>,
    pl: Seq<(Quantity, int)>,
    ordered: Seq<(Quantity, int)>,
    k: int,
)
    requires
        w.valid(),
        stand_in_line(w, ids),
        pl.len() == ids.len(),
        forall|k: int|
            0 <= k < ids.len() ==> (#[trigger] pl[k]).0 == x_of(w, ids[k]) && pl[k].1 == scan_number(w, ids[k]) && 0
                <= pl[k].1 < w.scans.len(),
        forall|y: (Quantity, int)| #[trigger] ordered.contains(y) <==> pl.contains(y),
        crate::order::ascending::<crate::rules::Place>(ordered),
        crate::order::distinct(ordered, |v: (Quantity, int)| v.0),
        0 <= k < ordered.len() - 1,
    ensures
        crate::rules::adjacent(
            w.scans,
            crate::rules::first_beside(w.scans, ordered[k].1),
            crate::rules::first_beside(w.scans, ordered[k + 1].1),
        ),
{
    let by_x = |v: (Quantity, int)| v.0;
    assert(ordered.contains(ordered[k]) && ordered.contains(ordered[k + 1]));
    let i = choose|i: int| 0 <= i < pl.len() && pl[i] == ordered[k];
    let j = choose|j: int| 0 <= j < pl.len() && pl[j] == ordered[k + 1];
    assert(<crate::rules::Place as Ranked>::ranks(ordered[k], ordered[k + 1]));
    assert(by_x(ordered[k]) != by_x(ordered[k + 1]));
    assert(i != j);
    if i < j {
        assert(x_of(w, ids[i]).lt(x_of(w, ids[j])) || x_of(w, ids[j]).lt(x_of(w, ids[i])));
    } else {
        assert(x_of(w, ids[j]).lt(x_of(w, ids[i])) || x_of(w, ids[i]).lt(x_of(w, ids[j])));
    }
    assert(x_of(w, ids[i]).lt(x_of(w, ids[j])));
    if has_one_between(w, ids, i, j) {
        let m = choose|m: int|
            0 <= m < ids.len() && x_of(w, ids[i]).lt(x_of(w, #[trigger] ids[m])) && x_of(w, ids[m]).lt(
                x_of(w, ids[j]),
            );
        assert(pl.contains(pl[m]));
        assert(ordered.contains(pl[m]));
        let p = choose|p: int| 0 <= p < ordered.len() && ordered[p] == pl[m];
        if p < k {
            assert(<crate::rules::Place as Ranked>::ranks(ordered[p], ordered[k]));
        } else if p > k + 1 {
            assert(<crate::rules::Place as Ranked>::ranks(ordered[k + 1], ordered[p]));
        }
    }
    let (a, b) = (scan_number(w, ids[i]), scan_number(w, ids[j]));
    assert(are_adjacent(w.scans, a, b));
    assert(crate::rules::scan_fits(w.scans[a], w.samples, w.scans.len() as int, a));
    assert(crate::rules::scan_fits(w.scans[b], w.samples, w.scans.len() as int, b));
    lemma_first_there(w.scans, a);
    lemma_first_there(w.scans, b);
}

proof fn lemma_place(w: WorldModel, ids: Seq<Seq<char>>, k: int)
    requires
        w.valid(),
        0 <= k < ids.len(),
        names_a_free_one(w.candidates, ids[k]),
    ensures
        crate::rules::places(w, ids)[k] == (x_of(w, ids[k]), scan_number(w, ids[k])),
        0 <= scan_number(w, ids[k]) < w.scans.len(),
{
    lemma_named(w.candidates, ids[k]);
    let p = crate::rules::candidate_index(w.candidates, ids[k])->0;
    assert(crate::rules::candidate_fits(w, w.candidates[p]));
    lemma_search(w.scans, with_scan_id(w.candidates[p].scan_id));
}

proof fn lemma_scans_differ(w: WorldModel, ids: Seq<Seq<char>>)
    requires
        stand_in_line(w, ids),
    ensures
        !crate::rules::scan_repeats(w.candidates, ids),
{
    if crate::rules::scan_repeats(w.candidates, ids) {
        let (i, j) = choose|i: int, j: int|
            0 <= i < j < ids.len() && crate::rules::scan_of(w.candidates, #[trigger] ids[i]) == crate::rules::scan_of(
                w.candidates,
                #[trigger] ids[j],
            );
        assert(x_of(w, ids[i]) == x_of(w, ids[j]));
    }
}

#[verifier::spinoff_prover]
#[verifier::rlimit(60)]
proof fn lemma_line_is_chained(w: WorldModel, ids: Seq<Seq<char>>)
    requires
        w.valid(),
        stand_in_line(w, ids),
        forall|k: int| 0 <= k < ids.len() ==> names_a_free_one(w.candidates, #[trigger] ids[k]),
    ensures
        crate::rules::chained(w.scans, sorted::<crate::rules::Place>(crate::rules::places(w, ids))),
{
    let pl = crate::rules::places(w, ids);
    let ordered = sorted::<crate::rules::Place>(pl);
    sorting_orders_and_keeps_every_item::<crate::rules::Place>(pl);
    lemma_sorted_members::<crate::rules::Place>(pl);
    assert forall|k: int| 0 <= k < ids.len() implies (#[trigger] pl[k]).0 == x_of(w, ids[k]) && pl[k].1 == scan_number(
        w,
        ids[k],
    ) && 0 <= pl[k].1 < w.scans.len() by {
        lemma_place(w, ids, k);
    }
    let by_x = |v: (Quantity, int)| v.0;
    assert(crate::order::distinct(pl, by_x)) by {
        assert forall|i: int, j: int| 0 <= i < j < pl.len() implies by_x(#[trigger] pl[i]) != by_x(#[trigger] pl[j]) by {
            assert(x_of(w, ids[i]).lt(x_of(w, ids[j])) || x_of(w, ids[j]).lt(x_of(w, ids[i])));
        }
    }
    crate::order::lemma_sorted_distinct::<crate::rules::Place, Quantity>(pl, by_x);
    assert forall|k: int| 0 <= k < ordered.len() - 1 implies crate::rules::adjacent(
        w.scans,
        crate::rules::first_beside(w.scans, (#[trigger] ordered[k]).1),
        crate::rules::first_beside(w.scans, ordered[k + 1].1),
    ) by {
        lemma_next_is_adjacent(w, ids, pl, ordered, k);
    }
}

proof fn lemma_id_is_free(tracks: Seq<TrackModel>, track_id: i64)
    requires
        forall|i: int| 0 <= i < tracks.len() ==> (#[trigger] tracks[i]).id != track_id,
    ensures
        first_where(tracks, crate::rules::with_track_id(track_id)) is None,
{
    let t = crate::rules::with_track_id(track_id);
    lemma_search(tracks, t);
    if let Some(i) = first_where(tracks, t) {
        assert(t(tracks[i]));
        assert(tracks[i].id == track_id);
    }
}

#[verifier::spinoff_prover]
proof fn lemma_grouped(w: WorldModel, track_id: i64, ids: Seq<Seq<char>>)
    requires
        !w.inverted,
        ids.len() >= 2,
        crate::rules::member_fault(w.candidates, ids, 0) is None,
        !crate::rules::scan_repeats(w.candidates, ids),
        crate::rules::chained(w.scans, sorted::<crate::rules::Place>(crate::rules::places(w, ids))),
        first_where(w.tracks, crate::rules::with_track_id(track_id)) is None,
    ensures
        applied(w, EventModel::TrackGrouped { track_id, candidate_ids: ids }).result is Ok,
{
}

/// A track of at least two free candidates of scans at different lateral positions,
/// each adjacent to the next one along the line, is accepted, where the depth axis is
/// not inverted and no track has the id.
#[verifier::spinoff_prover]
#[verifier::rlimit(60)]
pub proof fn chains_of_free_candidates_are_accepted(w: WorldModel, track_id: i64, ids: Seq<Seq<char>>)
    requires
        w.valid(),
        !w.inverted,
        ids.len() >= 2,
        forall|k: int| 0 <= k < ids.len() ==> names_a_free_one(w.candidates, #[trigger] ids[k]),
        stand_in_line(w, ids),
        forall|i: int| 0 <= i < w.tracks.len() ==> (#[trigger] w.tracks[i]).id != track_id,
    ensures
        applied(w, EventModel::TrackGrouped { track_id, candidate_ids: ids }).result is Ok,
{
    lemma_all_free(w.candidates, ids, 0);
    lemma_scans_differ(w, ids);
    lemma_line_is_chained(w, ids);
    lemma_id_is_free(w.tracks, track_id);
    lemma_grouped(w, track_id, ids);
}

// ---------------------------------------------------------------- display

/// Whether something is displayed for candidate number `i`.
pub open spec fn is_displayed(s: Seq<crate::web::CandidateOutModel>, i: int) -> bool {
    exists|k: int| 0 <= k < s.len() && (#[trigger] s[k]).index == i
}

/// Every candidate of a scan is displayed, once and in order, and no other is; with
/// the delay of its peak behind the surface now, and whether it reaches the threshold
/// in force: the level of the scan in SNR mode, the amplitude threshold otherwise.
/// Of the trace every second sample is displayed.
pub proof fn every_candidate_of_a_scan_is_displayed(w: WorldModel, at: int)
    requires
        w.valid(),
        0 <= at < w.scans.len(),
    ensures
        ({
            let out = crate::web::shown_scan(w, at);
            let scan = w.scans[at];
            let s = out.candidates;
            &&& forall|i: int|
                0 <= i < w.candidates.len() ==> (#[trigger] is_displayed(s, i) <==> w.candidates[i].scan_id == scan.id)
            &&& forall|k: int, l: int| 0 <= k < l < s.len() ==> (#[trigger] s[k]).index < (#[trigger] s[l]).index
            &&& forall|k: int|
                0 <= k < s.len() ==> {
                    let c = w.candidates[(#[trigger] s[k]).index];
                    &&& 0 <= s[k].index < w.candidates.len()
                    &&& is_delay(w.surfaces, scan.id, c.peak, s[k].live_delay)
                    &&& w.threshold_mode == "snr"@ ==> (s[k].threshold_pass <==> w.levels[at].le(
                        scan.trace.normalized@[c.peak],
                    ))
                    &&& w.threshold_mode != "snr"@ ==> (s[k].threshold_pass <==> w.threshold_amp.le(c.amplitude))
                }
            &&& out.view_stride == 2
            &&& forall|k: int| 0 <= 2 * k < scan.trace.raw@.len() ==> 0 <= k < out.raw_view.len() && #[trigger] out.raw_view[k] == scan.trace.raw@[2 * k]
            &&& forall|k: int|
                0 <= 2 * k < scan.trace.envelope@.len() ==> 0 <= k < out.envelope_view.len() && #[trigger] out.envelope_view[k]
                    == scan.trace.envelope@[2 * k]
            &&& 2 * out.raw_view.len() <= scan.trace.raw@.len() + 1
            &&& 2 * out.envelope_view.len() <= scan.trace.envelope@.len() + 1
        }),
{
    lemma_shown(w, at, w.candidates.len() as int);
}

proof fn lemma_shown(w: WorldModel, at: int, n: int)
    requires
        w.valid(),
        0 <= at < w.scans.len(),
        0 <= n <= w.candidates.len(),
    ensures
        ({
            let s = crate::web::shown_candidates(w, at, n);
            let scan = w.scans[at];
            &&& forall|i: int|
                0 <= i < n ==> (#[trigger] is_displayed(s, i) <==> w.candidates[i].scan_id == scan.id)
            &&& forall|k: int, l: int| 0 <= k < l < s.len() ==> (#[trigger] s[k]).index < (#[trigger] s[l]).index
            &&& forall|k: int|
                0 <= k < s.len() ==> {
                    let c = w.candidates[(#[trigger] s[k]).index];
                    &&& 0 <= s[k].index < n
                    &&& is_delay(w.surfaces, scan.id, c.peak, s[k].live_delay)
                    &&& w.threshold_mode == "snr"@ ==> (s[k].threshold_pass <==> w.levels[at].le(
                        scan.trace.normalized@[c.peak],
                    ))
                    &&& w.threshold_mode != "snr"@ ==> (s[k].threshold_pass <==> w.threshold_amp.le(c.amplitude))
                }
        }),
    decreases n,
{
    let s = crate::web::shown_candidates(w, at, n);
    if n > 0 {
        lemma_shown(w, at, n - 1);
        let rest = crate::web::shown_candidates(w, at, n - 1);
        let c = w.candidates[n - 1];
        assert(crate::rules::candidate_fits(w, c));
        assert forall|i: int| 0 <= i < n implies (#[trigger] is_displayed(s, i) <==> w.candidates[i].scan_id
            == w.scans[at].id) by {
            if is_displayed(s, i) {
                let k = choose|k: int| 0 <= k < s.len() && (#[trigger] s[k]).index == i;
                if k < rest.len() {
                    assert(rest[k].index == i);
                    assert(is_displayed(rest, i));
                }
            }
            if i < n - 1 && w.candidates[i].scan_id == w.scans[at].id {
                assert(is_displayed(rest, i));
                let k = choose|k: int| 0 <= k < rest.len() && (#[trigger] rest[k]).index == i;
                assert(s[k].index == i);
            }
            if i == n - 1 && c.scan_id == w.scans[at].id {
                assert(s[rest.len() as int].index == i);
            }
        }
        assert forall|k: int, l: int| 0 <= k < l < s.len() implies (#[trigger] s[k]).index < (#[trigger] s[l]).index by {
            assert(s[k] == rest[k]);
            if l < rest.len() {
                assert(s[l] == rest[l]);
            }
        }
        assert forall|k: int| 0 <= k < s.len() implies {
            let c = w.candidates[(#[trigger] s[k]).index];
            &&& 0 <= s[k].index < n
            &&& is_delay(w.surfaces, w.scans[at].id, c.peak, s[k].live_delay)
            &&& w.threshold_mode == "snr"@ ==> (s[k].threshold_pass <==> w.levels[at].le(
                w.scans[at].trace.normalized@[c.peak],
            ))
            &&& w.threshold_mode != "snr"@ ==> (s[k].threshold_pass <==> w.threshold_amp.le(c.amplitude))
        } by {
            if k < rest.len() {
                assert(s[k] == rest[k]);
            }
        }
    }
}

// ---------------------------------------------------------------- fingerprint

/// Two bytes stand for a sample in two's complement, the lower first; a trace has two
/// bytes for each sample, in order.
pub proof fn two_bytes_stand_for_a_sample(raw: Seq<i16>, n: int, i: int)
    requires
        0 <= i < n <= raw.len(),
    ensures
        crate::web::trace_bytes(raw, n).len() == 2 * n,
        ({
            let b = crate::web::trace_bytes(raw, n);
            let v = b[2 * i] as int + 256 * (b[2 * i + 1] as int);
            &&& raw[i] >= 0 ==> v == raw[i]
            &&& raw[i] < 0 ==> v == raw[i] + 65_536
        }),
    decreases n,
{
    let v = raw[n - 1];
    let t = crate::web::two_complement(v);
    assert(0 <= t < 65_536);
    if n > 1 {
        if i < n - 1 {
            two_bytes_stand_for_a_sample(raw, n - 1, i);
        } else {
            two_bytes_stand_for_a_sample(raw, n - 1, 0);
        }
    } else {
        assert(crate::web::trace_bytes(raw, 0).len() == 0);
    }
    assert(t == (t % 256) + 256 * (t / 256));
}

/// How many samples the first `n` scans have.
pub open spec fn samples_before(scans: Seq<ScanModel>, n: int) -> int
    decreases n,
{
    if n <= 0 {
        0
    } else {
        samples_before(scans, n - 1) + scans[n - 1].trace.raw@.len()
    }
}

/// The bytes of the waveforms are those of all traces, scan after scan, each sample in
/// its place.
pub proof fn every_sample_is_in_the_fingerprint(scans: Seq<ScanModel>, n: int, at: int, i: int)
    requires
        0 <= at < n <= scans.len(),
        0 <= i < scans[at].trace.raw@.len(),
    ensures
        ({
            let b = crate::web::waveform_bytes(scans, n);
            let x = 2 * (samples_before(scans, at) + i);
            let v = b[x] as int + 256 * (b[x + 1] as int);
            let raw = scans[at].trace.raw@;
            &&& b.len() == 2 * samples_before(scans, n)
            &&& 0 <= x && x + 1 < b.len()
            &&& raw[i] >= 0 ==> v == raw[i]
            &&& raw[i] < 0 ==> v == raw[i] + 65_536
        }),
    decreases n,
{
    lemma_waveform_size(scans, n);
    lemma_waveform_size(scans, n - 1);
    lemma_waveform_size(scans, at);
    let raw = scans[n - 1].trace.raw@;
    if at < n - 1 {
        every_sample_is_in_the_fingerprint(scans, n - 1, at, i);
    } else {
        two_bytes_stand_for_a_sample(raw, raw.len() as int, i);
        let b = crate::web::waveform_bytes(scans, n);
        let front = crate::web::waveform_bytes(scans, n - 1);
        let t = crate::web::trace_bytes(raw, raw.len() as int);
        assert(b[front.len() + 2 * i] == t[2 * i]);
        assert(b[front.len() + 2 * i + 1] == t[2 * i + 1]);
    }
}

proof fn lemma_waveform_size(scans: Seq<ScanModel>, n: int)
    requires
        0 <= n <= scans.len(),
    ensures
        crate::web::waveform_bytes(scans, n).len() == 2 * samples_before(scans, n),
    decreases n,
{
    if n > 0 {
        lemma_waveform_size(scans, n - 1);
        let raw = scans[n - 1].trace.raw@;
        if raw.len() > 0 {
            two_bytes_stand_for_a_sample(raw, raw.len() as int, 0);
        }
    }
}

// ---------------------------------------------------------------- order and reasons

/// After a changed threshold and after a split, candidates stand in the order of their
/// scans, in a scan in that of their peaks, and at one peak in that of their ids.
pub proof fn candidates_stand_in_the_order_of_scans_and_peaks(w: WorldModel, e: EventModel, i: int, j: int)
    requires
        applied(w, e).result is Ok,
        e is ThresholdChanged || e is CandidateSplit,
        0 <= i < j < applied(w, e).world.candidates.len(),
    ensures
        ({
            let a = applied(w, e).world.candidates[i];
            let b = applied(w, e).world.candidates[j];
            &&& a.scan_id <= b.scan_id
            &&& a.scan_id == b.scan_id ==> a.peak <= b.peak
            &&& a.scan_id == b.scan_id && a.peak == b.peak ==> crate::text::text_le(a.id, b.id)
        }),
{
    let n = applied(w, e).world;
    match e {
        EventModel::ThresholdChanged { mode, value, levels } => {
            crate::rule_laws::detection_leaves_candidates_in_order(rethresholded(w, mode, value, levels));
        },
        EventModel::CandidateSplit { parent_id, cut } => {
            let p = crate::rules::candidate_index(w.candidates, parent_id)->0;
            let parent = w.candidates[p];
            let scan = w.scans[scan_index(w.scans, parent.scan_id)->0];
            let zero = Quantity { bits: 0 };
            let left = lobes(scan.trace, parent.start, cut as int, zero, w.adc_max)[0];
            let right = lobes(scan.trace, cut as int, parent.end, zero, w.adc_max)[0];
            let one = crate::rules::split_side(w, w.counters, scan, parent.gate_kind, left);
            let two = crate::rules::split_side(
                w,
                crate::rules::counted(w.counters, scan.id),
                scan,
                parent.gate_kind,
                right,
            );
            sorting_orders_and_keeps_every_item::<Candidate>(w.candidates.remove(p).push(one).push(two));
        },
        _ => {},
    }
    assert(<Candidate as Ranked>::ranks(n.candidates[i], n.candidates[j]));
}

/// The reason of an inversion names the scan, the peak and the surface of the first
/// candidate that is an early bottom.
pub proof fn inversions_name_the_first_early_bottom(w: WorldModel, e: EventModel, i: int)
    requires
        applied(w, e).result is Ok,
        e is SurfaceCorrected || e is ThresholdChanged || e is CandidateVerdict || e is CalibrationSwitched,
        is_an_early_bottom(applied(w, e).world, i),
        forall|k: int| 0 <= k < i ==> !#[trigger] is_an_early_bottom(applied(w, e).world, k),
    ensures
        ({
            let n = applied(w, e).world;
            let c = n.candidates[i];
            n.inverted_reason == Some(
                "scan "@ + signed_digits(c.scan_id as int) + " bottom candidate at sample "@ + signed_digits(c.peak)
                    + " is no later than surface "@ + signed_digits(n.surfaces[c.scan_id] as int),
            )
        }),
{
    let n = applied(w, e).world;
    let p = crate::rules::is_early_bottom(n.surfaces);
    lemma_search(n.candidates, p);
    assert(p(n.candidates[i]));
    let f = first_where(n.candidates, p)->0;
    assert(p(n.candidates[f]));
    assert(is_an_early_bottom(n, f));
    if i < f {
        assert(!p(n.candidates[i]));
    }
    assert(f == i);
    assert(n.inverted_reason == crate::rules::inversion(n));
}

/// Whether candidate number `i` is a bottom, by verdict or by gate, that arrives no
/// later than the surface of its scan.
pub open spec fn is_an_early_bottom(w: WorldModel, i: int) -> bool {
    let c = w.candidates[i];
    &&& 0 <= i < w.candidates.len()
    &&& c.verdict == Some(Verdict::Bottom) || c.gate_kind == "bottom"@
    &&& w.surfaces.dom().contains(c.scan_id)
    &&& c.peak <= w.surfaces[c.scan_id]
}

// ---------------------------------------------------------------- logs

/// A log that is empty is begun with the first calibration, in amplitude mode, at the
/// thresholds and levels of the bench; any other is left alone. A log starts a bench if
/// and only if a bootstrap event is its first, with what this event says.
pub proof fn logs_begin_with_a_bootstrap_event(s: crate::setup::SetupModel, log: Seq<EventModel>, e: EventModel)
    ensures
        log.len() > 0 ==> crate::store::seeded(s, log) == log,
        log.len() == 0 ==> crate::store::seeded(s, log) == seq![
            EventModel::Bootstrap {
                calib_id: 1,
                mode: "amp"@,
                threshold_amp: s.default_threshold_amp,
                threshold_snr: s.default_threshold_snr,
                levels: s.default_levels,
            },
        ],
        crate::store::replayed(s, seq![e]) is Ok ==> e is Bootstrap,
        e matches EventModel::Bootstrap { calib_id, mode, threshold_amp, threshold_snr, levels }
            ==> crate::store::replayed(s, seq![e]) == crate::setup::booted(
            s,
            calib_id,
            mode,
            threshold_amp,
            threshold_snr,
            levels,
        ),
{
    assert(seq![e].len() == 1 && seq![e][0] == e);
}

/// Replaying one event more applies that event to what the log replayed to before.
pub proof fn replays_go_event_by_event(s: crate::setup::SetupModel, log: Seq<EventModel>, e: EventModel)
    requires
        log.len() > 0,
    ensures
        crate::store::replayed(s, log) is Err ==> crate::store::replayed(s, log.push(e)) is Err,
        crate::store::replayed(s, log) matches Ok(w) ==> {
            &&& crate::store::replayed(s, log.push(e)) is Ok <==> applied(w, e).result is Ok
            &&& applied(w, e).result is Ok ==> crate::store::replayed(s, log.push(e)) == Ok::<WorldModel, Seq<char>>(
                applied(w, e).world,
            )
        },
{
    reveal(crate::store::step);
    assert(log.push(e).drop_last() =~= log);
}

} // verus!
