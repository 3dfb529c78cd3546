//! The rules of adjudication: what each event makes of the adjudication state.

use vstd::prelude::*;

use crate::detection::{lobes, CandidateKind, RegionModel, Trace};
use crate::model::{
    Calib, Candidate, CandidateModel, EventModel, GateModel, ScanModel, TrackModel, Verdict, WorldModel,
    ADJACENT_DISTANCE, SAME_POSITION,
};
use crate::order::{sorted, Ranked};
use crate::quantity::Quantity;
use crate::seqs::first_where;
use crate::text::signed_digits;

verus! {

// ---------------------------------------------------------------- searching

pub open spec fn with_sample(s: int) -> spec_fn(GateModel) -> bool {
    |g: GateModel| g.holds(s)
}

pub open spec fn with_kind(kind: Seq<char>) -> spec_fn(GateModel) -> bool {
    |g: GateModel| g.kind == kind
}

pub open spec fn with_id(id: Seq<char>) -> spec_fn(CandidateModel) -> bool {
    |c: CandidateModel| c.id == id
}

pub open spec fn with_scan_id(id: i64) -> spec_fn(ScanModel) -> bool {
    |s: ScanModel| s.id == id
}

pub open spec fn with_calib_id(id: i64) -> spec_fn(Calib) -> bool {
    |c: Calib| c.id == id
}

pub open spec fn with_track_id(id: i64) -> spec_fn(TrackModel) -> bool {
    |t: TrackModel| t.id == id
}

/// The first gate that holds sample `s`.
pub open spec fn gate_index(gates: Seq<GateModel>, s: int) -> Option<int> {
    first_where(gates, with_sample(s))
}

/// The candidate with the given id.
pub open spec fn candidate_index(candidates: Seq<CandidateModel>, id: Seq<char>) -> Option<int> {
    first_where(candidates, with_id(id))
}

/// The scan with the given id.
pub open spec fn scan_index(scans: Seq<ScanModel>, id: i64) -> Option<int> {
    first_where(scans, with_scan_id(id))
}

// ---------------------------------------------------------------- validity

/// Whether the candidate's interval lies inside the trace of its scan, around its
/// peak, and its amplitude is that of the trace at the peak.
pub open spec fn candidate_fits(w: WorldModel, c: CandidateModel) -> bool {
    &&& 0 <= c.start <= c.peak < c.end <= w.samples
    &&& scan_index(w.scans, c.scan_id) matches Some(s)
    &&& c.amplitude == w.scans[s].trace.counts@[c.peak]
}

/// Whether a scan has a valid trace and stands at a lateral position that can be
/// ordered, with a distance to each of the `n` scans; it is scan `i` itself.
pub open spec fn scan_fits(s: ScanModel, samples: usize, n: int, i: int) -> bool {
    &&& s.trace.valid()
    &&& s.trace.size() == samples
    &&& !s.x_mm.not_a_number()
    &&& s.x_gaps.len() == n
    &&& s.distances.len() == n
    &&& s.x_gaps[i].lt(Quantity { bits: SAME_POSITION })
}

/// Whether there is a level for each of `n` scans, and each is a number.
pub open spec fn levels_fit(levels: Seq<Quantity>, n: int) -> bool {
    &&& levels.len() == n
    &&& forall|i: int| 0 <= i < n ==> !(#[trigger] levels[i]).not_a_number()
}

impl WorldModel {
    /// The state of a bench: traces of one length, a level for each scan, distinct
    /// scan ids, surface arrivals near the record, and candidates inside their traces.
    pub open spec fn valid(self) -> bool {
        &&& self.samples <= i64::MAX / 4
        &&& levels_fit(self.levels, self.scans.len() as int)
        &&& forall|i: int| 0 <= i < self.scans.len() ==> scan_fits(#[trigger] self.scans[i], self.samples, self.scans.len() as int, i)
        &&& forall|i: int, j: int| 0 <= i < j < self.scans.len() ==> (#[trigger] self.scans[i]).id != (#[trigger] self.scans[j]).id
        &&& forall|id: i64| #[trigger] self.surfaces.dom().contains(id) ==> -(i64::MAX / 4) <= self.surfaces[id] <= i64::MAX / 4
        &&& forall|i: int| 0 <= i < self.candidates.len() ==> candidate_fits(self, #[trigger] self.candidates[i])
    }

    /// Whether every scan can have as many more candidates as its trace has samples.
    pub open spec fn has_room(self) -> bool {
        forall|id: i64| #[trigger] counter(self.counters, id) + self.samples <= i64::MAX
    }
}

/// Whether an event's levels fit the bench, and its threshold is a number.
pub open spec fn event_fits(w: WorldModel, e: EventModel) -> bool {
    match e {
        EventModel::ThresholdChanged { value, levels, .. } => !value.not_a_number() && levels_fit(levels, w.scans.len() as int),
        _ => true,
    }
}

// ---------------------------------------------------------------- candidates

/// How many candidates scan `id` has had.
pub open spec fn counter(counters: Map<i64, i64>, id: i64) -> i64 {
    if counters.dom().contains(id) {
        counters[id]
    } else {
        0
    }
}

/// How many samples after the surface of scan `id` sample `s` arrives.
pub open spec fn delay(surfaces: Map<i64, i64>, id: i64, s: int) -> Option<i64> {
    if surfaces.dom().contains(id) {
        Some((s - surfaces[id]) as i64)
    } else {
        None
    }
}

/// The id of the `n`-th candidate of scan `id`.
pub open spec fn candidate_id(id: i64, n: int) -> Seq<char> {
    "s"@ + signed_digits(id as int) + "-c"@ + signed_digits(n)
}

/// The candidate that lobe `r` of scan `scan` becomes.
pub open spec fn new_candidate(
    w: WorldModel,
    counters: Map<i64, i64>,
    scan: ScanModel,
    gate_kind: Seq<char>,
    r: RegionModel,
    origin: Seq<char>,
) -> CandidateModel {
    CandidateModel {
        id: candidate_id(scan.id, counter(counters, scan.id) + 1),
        scan_id: scan.id,
        gate_kind,
        start: r.start,
        end: r.end,
        peak: r.peak,
        amplitude: scan.trace.counts@[r.peak],
        lower_bound: r.saturated,
        kind: r.kind,
        sub_peaks: r.sub,
        verdict: None,
        track_id: None,
        origin,
        depth_snapshot: delay(w.surfaces, scan.id, r.peak),
        calib_id_snapshot: w.current_calib_id,
        locked: false,
    }
}

/// The counters after one more candidate of scan `id`.
pub open spec fn counted(counters: Map<i64, i64>, id: i64) -> Map<i64, i64> {
    counters.insert(id, (counter(counters, id) + 1) as i64)
}

/// Whether the interval of candidate `c` and that from `start` to `end` share a sample.
pub open spec fn overlaps(c: CandidateModel, start: int, end: int) -> bool {
    c.start < end && c.end > start
}

/// Whether a candidate of scan `id` overlaps the interval from `start` to `end`.
pub open spec fn taken(candidates: Seq<CandidateModel>, id: i64, start: int, end: int) -> bool {
    exists|i: int| 0 <= i < candidates.len() && (#[trigger] candidates[i]).scan_id == id && overlaps(candidates[i], start, end)
}

/// What detection has gathered so far.
#[verifier::ext_equal]
pub struct Harvest {
    pub counters: Map<i64, i64>,
    pub added: Seq<CandidateModel>,
}

/// Gathers lobe `r` of scan `scan`: it becomes a candidate if its peak lies in a
/// gate and its interval is free.
pub open spec fn harvest_lobe(w: WorldModel, scan: ScanModel, r: RegionModel, h: Harvest) -> Harvest {
    match gate_index(w.gates, r.peak) {
        Some(g) => if taken(w.candidates, scan.id, r.start, r.end) || taken(h.added, scan.id, r.start, r.end) {
            h
        } else {
            Harvest {
                counters: counted(h.counters, scan.id),
                added: h.added.push(new_candidate(w, h.counters, scan, w.gates[g].kind, r, "auto"@)),
            }
        },
        None => h,
    }
}

/// Gathers the first `n` of the lobes `rs` of scan `scan`.
pub open spec fn harvest_scan(w: WorldModel, scan: ScanModel, rs: Seq<RegionModel>, n: int, h: Harvest) -> Harvest
    decreases n,
{
    if n <= 0 {
        h
    } else {
        harvest_lobe(w, scan, rs[n - 1], harvest_scan(w, scan, rs, n - 1, h))
    }
}

/// The lobes of a whole trace.
pub open spec fn all_lobes(t: Trace, level: Quantity, adc_max: i16) -> Seq<RegionModel> {
    lobes(t, 0, t.size(), level, adc_max)
}

/// Gathers the lobes of the first `n` scans.
pub open spec fn harvest(w: WorldModel, n: int) -> Harvest
    decreases n,
{
    if n <= 0 {
        Harvest { counters: w.counters, added: Seq::empty() }
    } else {
        let scan = w.scans[n - 1];
        let rs = all_lobes(scan.trace, w.levels[n - 1], w.adc_max);
        harvest_scan(w, scan, rs, rs.len() as int, harvest(w, n - 1))
    }
}

/// The locked ones of the candidates.
pub open spec fn locked_ones(candidates: Seq<CandidateModel>) -> Seq<CandidateModel>
    decreases candidates.len(),
{
    if candidates.len() == 0 {
        candidates
    } else if candidates.last().locked {
        locked_ones(candidates.drop_last()).push(candidates.last())
    } else {
        locked_ones(candidates.drop_last())
    }
}

/// The ids of the candidates of scan `id`, in order.
pub open spec fn ids_of_scan(candidates: Seq<CandidateModel>, id: i64) -> Seq<Seq<char>>
    decreases candidates.len(),
{
    if candidates.len() == 0 {
        Seq::empty()
    } else if candidates.last().scan_id == id {
        ids_of_scan(candidates.drop_last(), id).push(candidates.last().id)
    } else {
        ids_of_scan(candidates.drop_last(), id)
    }
}

/// The scans, each with the ids of its candidates.
pub open spec fn relisted(scans: Seq<ScanModel>, candidates: Seq<CandidateModel>) -> Seq<ScanModel> {
    Seq::new(
        scans.len(),
        |i: int| ScanModel { candidates: ids_of_scan(candidates, scans[i].id), ..scans[i] },
    )
}

/// The state without its unlocked candidates.
pub open spec fn kept(w: WorldModel) -> WorldModel {
    WorldModel { candidates: locked_ones(w.candidates), ..w }
}

/// The state after detection was run again: locked candidates stay, everything
/// else is replaced by what the traces show at the level in force.
pub open spec fn redetected(w: WorldModel) -> WorldModel {
    let k = kept(w);
    let h = harvest(k, k.scans.len() as int);
    let candidates = sorted::<Candidate>(k.candidates + h.added);
    rechecked(WorldModel { candidates, counters: h.counters, scans: relisted(w.scans, candidates), ..w })
}

// ---------------------------------------------------------------- inversion

/// Whether candidate `c` is labelled as a bottom, by verdict or by gate, and
/// arrives at or before the surface of its scan.
pub open spec fn early_bottom(surfaces: Map<i64, i64>, c: CandidateModel) -> bool {
    &&& c.verdict == Some(Verdict::Bottom) || c.gate_kind == "bottom"@
    &&& surfaces.dom().contains(c.scan_id)
    &&& c.peak <= surfaces[c.scan_id]
}

pub open spec fn is_early_bottom(surfaces: Map<i64, i64>) -> spec_fn(CandidateModel) -> bool {
    |c: CandidateModel| early_bottom(surfaces, c)
}

/// Why the depth axis is inverted, if it is: the first early bottom.
pub open spec fn inversion(w: WorldModel) -> Option<Seq<char>> {
    match first_where(w.candidates, is_early_bottom(w.surfaces)) {
        Some(i) => {
            let c = w.candidates[i];
            Some(
                "scan "@ + signed_digits(c.scan_id as int) + " bottom candidate at sample "@ + signed_digits(c.peak)
                    + " is no later than surface "@ + signed_digits(w.surfaces[c.scan_id] as int),
            )
        },
        None => None,
    }
}

/// The state with its inversion flag and reason brought up to date.
pub open spec fn rechecked(w: WorldModel) -> WorldModel {
    WorldModel { inverted: inversion(w) is Some, inverted_reason: inversion(w), ..w }
}

// ---------------------------------------------------------------- events

/// What an event leads to: the state afterwards, and success or a message.
#[verifier::ext_equal]
pub struct Outcome {
    pub world: WorldModel,
    pub result: Result<(), Seq<char>>,
}

pub open spec fn done(world: WorldModel) -> Outcome {
    Outcome { world, result: Ok(()) }
}

pub open spec fn refused(world: WorldModel, message: Seq<char>) -> Outcome {
    Outcome { world, result: Err(message) }
}

/// A candidate moved to the first gate that holds its peak; where none does, its
/// gate stays if `keep`, and is cleared otherwise.
pub open spec fn regated(c: CandidateModel, gates: Seq<GateModel>, keep: bool) -> CandidateModel {
    match gate_index(gates, c.peak) {
        Some(g) => CandidateModel { gate_kind: gates[g].kind, ..c },
        None => if keep {
            c
        } else {
            CandidateModel { gate_kind: Seq::empty(), ..c }
        },
    }
}

pub open spec fn all_regated(candidates: Seq<CandidateModel>, gates: Seq<GateModel>, keep: bool) -> Seq<CandidateModel> {
    Seq::new(candidates.len(), |i: int| regated(candidates[i], gates, keep))
}

/// The scans with the surface of scan `id` moved to `sample`.
pub open spec fn resurfaced(scans: Seq<ScanModel>, id: i64, sample: i64) -> Seq<ScanModel> {
    match scan_index(scans, id) {
        Some(i) => scans.update(i, ScanModel { surface_sample: sample, ..scans[i] }),
        None => scans,
    }
}

pub open spec fn surface_corrected(w: WorldModel, scan_id: i64, sample: i64) -> Outcome {
    if sample < 0 || sample >= w.samples {
        refused(w, "surface sample out of range"@)
    } else if !w.surfaces.dom().contains(scan_id) {
        refused(w, "unknown scan "@ + signed_digits(scan_id as int))
    } else {
        done(
            rechecked(
                WorldModel {
                    surfaces: w.surfaces.insert(scan_id, sample),
                    scans: resurfaced(w.scans, scan_id, sample),
                    candidates: all_regated(w.candidates, w.gates, true),
                    ..w
                },
            ),
        )
    }
}

/// The state with a threshold put in force.
pub open spec fn rethresholded(w: WorldModel, mode: Seq<char>, value: Quantity, levels: Seq<Quantity>) -> WorldModel {
    WorldModel {
        threshold_mode: mode,
        threshold_amp: if mode == "amp"@ { value } else { w.threshold_amp },
        threshold_snr: if mode == "amp"@ { w.threshold_snr } else { value },
        levels,
        ..w
    }
}

pub open spec fn threshold_changed(w: WorldModel, mode: Seq<char>, value: Quantity, levels: Seq<Quantity>) -> Outcome {
    if mode != "amp"@ && mode != "snr"@ {
        refused(w, "threshold mode must be amp or snr"@)
    } else if value.le(Quantity { bits: 0 }) {
        refused(w, "threshold must be positive"@)
    } else {
        done(redetected(rethresholded(w, mode, value, levels)))
    }
}

pub open spec fn gate_moved(w: WorldModel, kind: Seq<char>, lo: i64, hi: i64) -> Outcome {
    if lo < 0 || hi > w.samples || lo >= hi {
        refused(w, "gate interval must satisfy 0 <= lo < hi <= N"@)
    } else {
        match first_where(w.gates, with_kind(kind)) {
            None => refused(w, "unknown gate "@ + kind),
            Some(g) => {
                let gates = w.gates.update(g, GateModel { lo, hi, ..w.gates[g] });
                done(WorldModel { gates, candidates: all_regated(w.candidates, gates, false), ..w })
            },
        }
    }
}

pub open spec fn calibration_switched(w: WorldModel, calib_id: i64) -> Outcome {
    if first_where(w.calibs, with_calib_id(calib_id)) is None {
        refused(w, "unknown calibration "@ + signed_digits(calib_id as int))
    } else {
        done(rechecked(WorldModel { current_calib_id: calib_id, ..w }))
    }
}

/// The text of an optional text, empty where there is none.
pub open spec fn text_or_empty(o: Option<Seq<char>>) -> Seq<char> {
    match o {
        Some(s) => s,
        None => Seq::empty(),
    }
}

pub open spec fn candidate_verdict(w: WorldModel, id: Seq<char>, verdict: Verdict) -> Outcome {
    if w.inverted {
        refused(
            w,
            "depth axis inverted ("@ + text_or_empty(w.inverted_reason)
                + "); correct the surface arrival before verdicts"@,
        )
    } else {
        match candidate_index(w.candidates, id) {
            None => refused(w, "unknown candidate "@ + id),
            Some(i) => done(
                rechecked(
                    WorldModel {
                        candidates: w.candidates.update(
                            i,
                            CandidateModel { verdict: Some(verdict), locked: true, ..w.candidates[i] },
                        ),
                        ..w
                    },
                ),
            ),
        }
    }
}

/// The candidate that one side of a split becomes.
pub open spec fn split_side(
    w: WorldModel,
    counters: Map<i64, i64>,
    scan: ScanModel,
    gate_kind: Seq<char>,
    r: RegionModel,
) -> CandidateModel {
    CandidateModel {
        kind: CandidateKind::Split,
        locked: true,
        ..new_candidate(w, counters, scan, gate_kind, r, "split"@)
    }
}

pub open spec fn candidate_split(w: WorldModel, parent_id: Seq<char>, cut: i64) -> Outcome {
    if w.inverted {
        refused(w, "depth axis inverted; correct the surface arrival before splitting"@)
    } else {
        match candidate_index(w.candidates, parent_id) {
            None => refused(w, "unknown candidate "@ + parent_id),
            Some(p) => {
                let parent = w.candidates[p];
                if parent.kind == CandidateKind::Saturated {
                    refused(w, "saturated platform cannot be split; amplitude remains a lower bound"@)
                } else if cut <= parent.start || cut >= parent.end {
                    refused(w, "split cut must lie strictly inside the candidate sample interval"@)
                } else {
                    match scan_index(w.scans, parent.scan_id) {
                        None => refused(w, "unknown scan "@ + signed_digits(parent.scan_id as int)),
                        Some(s) => {
                            let scan = w.scans[s];
                            let zero = Quantity { bits: 0 };
                            let left = lobes(scan.trace, parent.start, cut as int, zero, w.adc_max);
                            let right = lobes(scan.trace, cut as int, parent.end, zero, w.adc_max);
                            if left.len() == 0 || right.len() == 0 {
                                refused(w, "split would leave a side without a lobe"@)
                            } else {
                                done(split_done(w, p, scan, left[0], right[0]))
                            }
                        },
                    }
                }
            },
        }
    }
}

/// The state after candidate `p` was replaced by the lobes on both sides of a cut.
pub open spec fn split_done(w: WorldModel, p: int, scan: ScanModel, left: RegionModel, right: RegionModel) -> WorldModel {
    let gate_kind = w.candidates[p].gate_kind;
    let one = split_side(w, w.counters, scan, gate_kind, left);
    let counters = counted(w.counters, scan.id);
    let two = split_side(w, counters, scan, gate_kind, right);
    let candidates = sorted::<Candidate>(w.candidates.remove(p).push(one).push(two));
    WorldModel {
        candidates,
        counters: counted(counters, scan.id),
        scans: relisted(w.scans, candidates),
        ..w
    }
}

// ---------------------------------------------------------------- tracks

/// What is wrong with the members of a track from the `k`-th on: one that is
/// unknown, or that belongs to a track already.
pub open spec fn member_fault(candidates: Seq<CandidateModel>, ids: Seq<Seq<char>>, k: int) -> Option<Seq<char>>
    decreases ids.len() - k,
{
    if k >= ids.len() {
        None
    } else {
        match candidate_index(candidates, ids[k]) {
            None => Some("unknown candidate "@ + ids[k]),
            Some(i) => if candidates[i].track_id is Some {
                Some("candidate "@ + ids[k] + " already belongs to a track"@)
            } else {
                member_fault(candidates, ids, k + 1)
            },
        }
    }
}

/// The scan of the candidate with the given id.
pub open spec fn scan_of(candidates: Seq<CandidateModel>, id: Seq<char>) -> i64 {
    candidates[candidate_index(candidates, id)->0].scan_id
}

/// Whether two members of a track come from the same scan.
pub open spec fn scan_repeats(candidates: Seq<CandidateModel>, ids: Seq<Seq<char>>) -> bool {
    exists|i: int, j: int|
        0 <= i < j < ids.len() && scan_of(candidates, #[trigger] ids[i]) == scan_of(candidates, #[trigger] ids[j])
}

/// A scan position, by its number and lateral position.
pub struct Place {
    pub x: Quantity,
    pub scan: usize,
}

impl View for Place {
    type V = (Quantity, int);

    open spec fn view(&self) -> (Quantity, int) {
        (self.x, self.scan as int)
    }
}

/// Places are sorted by lateral position.
impl Ranked for Place {
    open spec fn ranks(a: (Quantity, int), b: (Quantity, int)) -> bool {
        a.0.place() <= b.0.place()
    }

    proof fn ranks_total(a: (Quantity, int), b: (Quantity, int)) {
    }

    proof fn ranks_transitive(a: (Quantity, int), b: (Quantity, int), c: (Quantity, int)) {
    }

    fn ranks_no_higher(&self, other: &Place) -> (r: bool) {
        self.x.stands_no_higher(other.x)
    }
}

/// The places of the members of a track, in the order of the members.
pub open spec fn places(w: WorldModel, ids: Seq<Seq<char>>) -> Seq<(Quantity, int)> {
    Seq::new(
        ids.len(),
        |k: int|
            {
                let s = scan_index(w.scans, scan_of(w.candidates, ids[k]))->0;
                (w.scans[s].x_mm, s)
            },
    )
}

pub open spec fn beside(k: int) -> spec_fn(ScanModel) -> bool {
    |s: ScanModel| s.x_gaps[k].lt(Quantity { bits: SAME_POSITION })
}

/// The first scan that stands at the same lateral position as scan `k`.
pub open spec fn first_beside(scans: Seq<ScanModel>, k: int) -> int {
    first_where(scans, beside(k))->0
}

/// Whether scans `a` and `b` stand at adjacent positions.
pub open spec fn adjacent(scans: Seq<ScanModel>, a: int, b: int) -> bool {
    scans[a].distances[b].le(Quantity { bits: ADJACENT_DISTANCE })
}

/// Whether each place, from the first to the last, is adjacent to the next.
pub open spec fn chained(scans: Seq<ScanModel>, ordered: Seq<(Quantity, int)>) -> bool {
    forall|k: int|
        0 <= k < ordered.len() - 1 ==> adjacent(
            scans,
            first_beside(scans, (#[trigger] ordered[k]).1),
            first_beside(scans, ordered[k + 1].1),
        )
}

/// The candidates, with those named in `ids` put into track `track_id` and locked.
pub open spec fn enlisted(candidates: Seq<CandidateModel>, ids: Seq<Seq<char>>, track_id: i64) -> Seq<CandidateModel> {
    Seq::new(
        candidates.len(),
        |i: int|
            if ids.contains(candidates[i].id) {
                CandidateModel { track_id: Some(track_id), locked: true, ..candidates[i] }
            } else {
                candidates[i]
            },
    )
}

pub open spec fn track_grouped(w: WorldModel, track_id: i64, ids: Seq<Seq<char>>) -> Outcome {
    if w.inverted {
        refused(w, "depth axis inverted; correct the surface before grouping a track"@)
    } else if ids.len() < 2 {
        refused(w, "a defect track needs at least two candidates"@)
    } else {
        match member_fault(w.candidates, ids, 0) {
            Some(message) => refused(w, message),
            None => if scan_repeats(w.candidates, ids) {
                refused(w, "each scan position can contribute at most one candidate to a track"@)
            } else if !chained(w.scans, sorted::<Place>(places(w, ids))) {
                refused(w, "track candidates must form a chain of adjacent scan positions"@)
            } else {
                let marked = WorldModel { candidates: enlisted(w.candidates, ids, track_id), ..w };
                if first_where(w.tracks, with_track_id(track_id)) is Some {
                    refused(marked, "track id "@ + signed_digits(track_id as int) + " already used"@)
                } else {
                    done(
                        WorldModel {
                            tracks: w.tracks.push(TrackModel { id: track_id, candidate_ids: ids }),
                            ..marked
                        },
                    )
                }
            },
        }
    }
}

/// What event `e` leads to in state `w`.
pub open spec fn applied(w: WorldModel, e: EventModel) -> Outcome {
    match e {
        EventModel::Bootstrap { .. } => refused(w, "bootstrap is only used to initialize an empty log"@),
        EventModel::SurfaceCorrected { scan_id, sample } => surface_corrected(w, scan_id, sample),
        EventModel::ThresholdChanged { mode, value, levels } => threshold_changed(w, mode, value, levels),
        EventModel::GateMoved { kind, lo, hi } => gate_moved(w, kind, lo, hi),
        EventModel::CandidateSplit { parent_id, cut } => candidate_split(w, parent_id, cut),
        EventModel::CandidateVerdict { candidate_id, verdict } => candidate_verdict(w, candidate_id, verdict),
        EventModel::TrackGrouped { track_id, candidate_ids } => track_grouped(w, track_id, candidate_ids),
        EventModel::CalibrationSwitched { calib_id } => calibration_switched(w, calib_id),
    }
}

} // verus!
