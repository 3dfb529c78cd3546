//! Applying events to the adjudication state.

use vstd::prelude::*;

use crate::bench::{
    find_candidate, find_gate, find_scan, fits, knows_calib, lemma_same_scan_ids, make_candidate, relist,
    rerun_detection, sort_candidates,
};
use crate::detection::{detect_regions, CandidateKind, Region};
use crate::model::{
    Candidate, CandidateModel, Event, GateModel, ScanModel, Track, TrackModel, Verdict, World, WorldModel,
};
use crate::order::{sort_ranked, sorted, views};
use crate::quantity::Quantity;
use crate::rules::{
    adjacent, all_regated, applied, beside, calibration_switched, candidate_fits, candidate_index,
    candidate_split, candidate_verdict, chained, counter, enlisted, event_fits, first_beside, gate_moved,
    member_fault, places, resurfaced, rethresholded, scan_fits, scan_of, scan_repeats, split_done,
    split_side, surface_corrected, text_or_empty, threshold_changed, track_grouped, with_kind, with_track_id,
    Place,
};
use crate::seqs::{first_where, lemma_first_found, lemma_none_found, lemma_search};
use crate::text::{decimal_signed, join2, join3, same_text};

verus! {

/// Whether a result is the one that a rule gives: success, or its message.
pub open spec fn agrees(r: Result<(), String>, o: Result<(), Seq<char>>) -> bool {
    match r {
        Ok(_) => o is Ok,
        Err(m) => o == Err::<(), Seq<char>>(m@),
    }
}

/// What every candidate of one state fits, every candidate of another fits that
/// has the same scan ids and length, and candidates in the same places.
proof fn lemma_still_valid(a: WorldModel, b: WorldModel)
    requires
        a.valid(),
        b.samples == a.samples,
        crate::rules::levels_fit(b.levels, b.scans.len() as int),
        b.scans.len() == a.scans.len(),
        forall|i: int| 0 <= i < a.scans.len() ==> (#[trigger] b.scans[i]) == (ScanModel {
            surface_sample: b.scans[i].surface_sample,
            candidates: b.scans[i].candidates,
            ..a.scans[i]
        }),
        forall|id: i64| #[trigger] b.surfaces.dom().contains(id) ==> -(i64::MAX / 4) <= b.surfaces[id] <= i64::MAX / 4,
        b.candidates.len() == a.candidates.len(),
        forall|i: int| 0 <= i < a.candidates.len() ==> {
            &&& (#[trigger] b.candidates[i]).scan_id == a.candidates[i].scan_id
            &&& b.candidates[i].start == a.candidates[i].start
            &&& b.candidates[i].peak == a.candidates[i].peak
            &&& b.candidates[i].end == a.candidates[i].end
            &&& b.candidates[i].amplitude == a.candidates[i].amplitude
        },
    ensures
        b.valid(),
{
    assert forall|i: int| 0 <= i < b.scans.len() implies scan_fits(#[trigger] b.scans[i], b.samples, b.scans.len() as int, i) by {
        assert(scan_fits(a.scans[i], a.samples, a.scans.len() as int, i));
    }
    assert forall|i: int, j: int| 0 <= i < j < b.scans.len() implies (#[trigger] b.scans[i]).id != (#[trigger] b.scans[j]).id by {
        assert(a.scans[i].id != a.scans[j].id);
    }
    assert forall|i: int| 0 <= i < b.candidates.len() implies candidate_fits(b, #[trigger] b.candidates[i]) by {
        assert(candidate_fits(a, a.candidates[i]));
        assert forall|j: int| 0 <= j < a.scans.len() implies (#[trigger] a.scans[j]).id == (#[trigger] b.scans[j]).id by {
        }
        lemma_same_scan_ids(a.scans, b.scans, b.candidates[i].scan_id);
    }
}

/// Assigns every candidate to the first gate that holds its peak; where none does,
/// its gate stays if `keep`, and is cleared otherwise.
fn regate(world: &mut World, keep: bool)
    ensures
        final(world)@ == (WorldModel { candidates: all_regated(old(world)@.candidates, old(world)@.gates, keep), ..old(world)@ }),
{
    let ghost w = world@;
    let ghost goal = all_regated(w.candidates, w.gates, keep);
    let n: usize = world.candidates.len();
    let mut i: usize = 0;
    while i < n
        invariant
            i <= n == w.candidates.len(),
            goal == all_regated(w.candidates, w.gates, keep),
            world@ == (WorldModel { candidates: world@.candidates, ..w }),
            world@.candidates.len() == n,
            forall|j: int| 0 <= j < i ==> #[trigger] world@.candidates[j] == goal[j],
            forall|j: int| i <= j < n ==> #[trigger] world@.candidates[j] == w.candidates[j],
        decreases n - i,
    {
        let ghost before = world@;
        assert(before.candidates[i as int] == w.candidates[i as int]);
        let peak: i64 = world.candidates[i].peak;
        match find_gate(&world.gates, peak) {
            Some(g) => {
                let kind: String = world.gates[g].kind.clone();
                world.candidates[i].gate_kind = kind;
                assert(kind@ == w.gates[g as int].kind);
            },
            None => {
                if !keep {
                    world.candidates[i].gate_kind = String::new();
                }
            },
        }
        proof {
            assert(world@.candidates[i as int] =~= goal[i as int]);
            assert(world@.candidates =~= before.candidates.update(i as int, goal[i as int]));
            assert(world@ =~= (WorldModel { candidates: world@.candidates, ..w }));
        }
        i = i + 1;
    }
    assert(world@.candidates =~= goal);
}

fn apply_surface(world: &mut World, scan_id: i64, sample: i64) -> (r: Result<(), String>)
    requires
        old(world)@.valid(),
    ensures
        final(world)@ == surface_corrected(old(world)@, scan_id, sample).world,
        agrees(r, surface_corrected(old(world)@, scan_id, sample).result),
        final(world)@.valid(),
{
    let ghost w = world@;
    if sample < 0 || sample as u64 >= world.samples as u64 {
        return Err("surface sample out of range".to_owned());
    }
    if !world.surfaces.contains_key(&scan_id) {
        return Err(join2("unknown scan ", decimal_signed(scan_id).as_str()));
    }
    world.surfaces.insert(scan_id, sample);
    let ghost scans0 = world@.scans;
    if let Some(i) = find_scan(&world.scans, scan_id) {
        world.scans[i].surface_sample = sample;
    }
    assert(world@.scans =~= resurfaced(w.scans, scan_id, sample));
    regate(world, true);
    world.check_inversion();
    proof {
        assert(world@ =~= surface_corrected(w, scan_id, sample).world);
        lemma_still_valid(w, world@);
    }
    Ok(())
}

fn apply_threshold(world: &mut World, mode: &String, value: Quantity, levels: &Vec<Quantity>) -> (r: Result<(), String>)
    requires
        old(world)@.valid(),
        old(world)@.has_room(),
        crate::rules::levels_fit(levels@, old(world)@.scans.len() as int),
    ensures
        final(world)@ == threshold_changed(old(world)@, mode@, value, levels@).world,
        agrees(r, threshold_changed(old(world)@, mode@, value, levels@).result),
        final(world)@.valid(),
        forall|id: i64| #[trigger] counter(final(world)@.counters, id) <= counter(old(world)@.counters, id) + old(world)@.samples,
{
    let ghost w = world@;
    let amp: bool = same_text(mode.as_str(), "amp");
    if !amp && !same_text(mode.as_str(), "snr") {
        return Err("threshold mode must be amp or snr".to_owned());
    }
    if value.is_at_most(Quantity::from_bits(0)) {
        return Err("threshold must be positive".to_owned());
    }
    world.threshold_mode = mode.clone();
    if amp {
        world.threshold_amp = value;
    } else {
        world.threshold_snr = value;
    }
    let mut copy: Vec<Quantity> = Vec::new();
    let mut i: usize = 0;
    while i < levels.len()
        invariant
            i <= levels@.len(),
            copy@ == levels@.take(i as int),
        decreases levels@.len() - i,
    {
        copy.push(levels[i]);
        i = i + 1;
        assert(copy@ =~= levels@.take(i as int));
    }
    assert(copy@ =~= levels@);
    world.levels = copy;
    proof {
        assert(world@ =~= rethresholded(w, mode@, value, levels@));
        lemma_still_valid(w, world@);
    }
    rerun_detection(world);
    Ok(())
}

fn apply_gate(world: &mut World, kind: &String, lo: i64, hi: i64) -> (r: Result<(), String>)
    requires
        old(world)@.valid(),
    ensures
        final(world)@ == gate_moved(old(world)@, kind@, lo, hi).world,
        agrees(r, gate_moved(old(world)@, kind@, lo, hi).result),
        final(world)@.valid(),
{
    let ghost w = world@;
    if lo < 0 || lo >= hi || hi as u64 > world.samples as u64 {
        return Err("gate interval must satisfy 0 <= lo < hi <= N".to_owned());
    }
    let ghost p = with_kind(kind@);
    let mut g: usize = 0;
    let n: usize = world.gates.len();
    while g < n && world.gates[g].kind != *kind
        invariant
            g <= n == w.gates.len(),
            world@ == w,
            p == with_kind(kind@),
            forall|j: int| 0 <= j < g ==> !p(#[trigger] w.gates[j]),
        decreases n - g,
    {
        assert(!p(w.gates[g as int]));
        g = g + 1;
    }
    if g == n {
        proof {
            lemma_none_found(w.gates, p);
        }
        return Err(join2("unknown gate ", kind.as_str()));
    }
    proof {
        assert(p(w.gates[g as int]));
        lemma_first_found(w.gates, p, g as int);
    }
    world.gates[g].lo = lo;
    world.gates[g].hi = hi;
    assert(world@.gates =~= w.gates.update(g as int, GateModel { lo, hi, ..w.gates[g as int] }));
    regate(world, false);
    proof {
        assert(world@ =~= gate_moved(w, kind@, lo, hi).world);
        lemma_still_valid(w, world@);
    }
    Ok(())
}

fn apply_calibration(world: &mut World, calib_id: i64) -> (r: Result<(), String>)
    requires
        old(world)@.valid(),
    ensures
        final(world)@ == calibration_switched(old(world)@, calib_id).world,
        agrees(r, calibration_switched(old(world)@, calib_id).result),
        final(world)@.valid(),
{
    let ghost w = world@;
    if !knows_calib(&world.calibs, calib_id) {
        return Err(join2("unknown calibration ", decimal_signed(calib_id).as_str()));
    }
    world.current_calib_id = calib_id;
    world.check_inversion();
    proof {
        assert(world@ =~= calibration_switched(w, calib_id).world);
        lemma_still_valid(w, world@);
    }
    Ok(())
}

fn apply_verdict(world: &mut World, id: &String, verdict: Verdict) -> (r: Result<(), String>)
    requires
        old(world)@.valid(),
    ensures
        final(world)@ == candidate_verdict(old(world)@, id@, verdict).world,
        agrees(r, candidate_verdict(old(world)@, id@, verdict).result),
        final(world)@.valid(),
{
    let ghost w = world@;
    if world.inverted {
        let reason: String = match &world.inverted_reason {
            Some(text) => text.clone(),
            None => String::new(),
        };
        assert(reason@ =~= text_or_empty(w.inverted_reason));
        return Err(
            join3("depth axis inverted (", reason.as_str(), "); correct the surface arrival before verdicts"),
        );
    }
    match find_candidate(&world.candidates, id) {
        None => Err(join2("unknown candidate ", id.as_str())),
        Some(i) => {
            world.candidates[i].verdict = Some(verdict);
            world.candidates[i].locked = true;
            assert(world@.candidates =~= w.candidates.update(
                i as int,
                CandidateModel { verdict: Some(verdict), locked: true, ..w.candidates[i as int] },
            ));
            world.check_inversion();
            proof {
                assert(world@ =~= candidate_verdict(w, id@, verdict).world);
                lemma_still_valid(w, world@);
            }
            Ok(())
        },
    }
}


fn apply_split(world: &mut World, parent_id: &String, cut: i64) -> (r: Result<(), String>)
    requires
        old(world)@.valid(),
        old(world)@.has_room(),
    ensures
        final(world)@ == candidate_split(old(world)@, parent_id@, cut).world,
        agrees(r, candidate_split(old(world)@, parent_id@, cut).result),
        final(world)@.valid(),
        forall|id: i64| #[trigger] counter(final(world)@.counters, id) <= counter(old(world)@.counters, id) + old(world)@.samples,
{
    let ghost w = world@;
    if world.inverted {
        return Err("depth axis inverted; correct the surface arrival before splitting".to_owned());
    }
    let p: usize = match find_candidate(&world.candidates, parent_id) {
        Some(p) => p,
        None => {
            return Err(join2("unknown candidate ", parent_id.as_str()));
        },
    };
    let ghost parent = w.candidates[p as int];
    assert(world.candidates@[p as int]@ == parent);
    assert(candidate_fits(w, parent));
    if world.candidates[p].kind == CandidateKind::Saturated {
        return Err("saturated platform cannot be split; amplitude remains a lower bound".to_owned());
    }
    let start: i64 = world.candidates[p].start;
    let end: i64 = world.candidates[p].end;
    if cut <= start || cut >= end {
        return Err("split cut must lie strictly inside the candidate sample interval".to_owned());
    }
    let scan_id: i64 = world.candidates[p].scan_id;
    let s: usize = match find_scan(&world.scans, scan_id) {
        Some(s) => s,
        None => {
            return Err(join2("unknown scan ", decimal_signed(scan_id).as_str()));
        },
    };
    let ghost scan = w.scans[s as int];
    assert(world.scans@[s as int]@ == scan);
    assert(scan_fits(scan, w.samples, w.scans.len() as int, s as int));
    let size: usize = world.scans[s].trace.envelope.len();
    let zero: Quantity = Quantity::from_bits(0);
    let mut left: Vec<Region> = detect_regions(&world.scans[s].trace, start as usize, cut as usize, zero, world.adc_max);
    let mut right: Vec<Region> = detect_regions(&world.scans[s].trace, cut as usize, end as usize, zero, world.adc_max);
    let ghost ls = crate::detection::lobes(scan.trace, start as int, cut as int, zero, w.adc_max);
    let ghost rs = crate::detection::lobes(scan.trace, cut as int, end as int, zero, w.adc_max);
    assert(views(left@) == ls);
    assert(views(right@) == rs);
    if left.len() == 0 || right.len() == 0 {
        return Err("split would leave a side without a lobe".to_owned());
    }
    assert(crate::detection::lobe_inside(left@[0]@, start as int, cut as int));
    assert(crate::detection::lobe_inside(right@[0]@, cut as int, end as int));
    assert(left@[0]@ == ls[0]);
    assert(right@[0]@ == rs[0]);
    let l: Region = left.remove(0);
    let r: Region = right.remove(0);
    let kind_left: String = world.candidates[p].gate_kind.clone();
    let kind_right: String = world.candidates[p].gate_kind.clone();
    assert(counter(w.counters, scan.id) + w.samples <= i64::MAX);
    let mut one: Candidate = make_candidate(world, s, kind_left, l, "split");
    one.kind = CandidateKind::Split;
    one.locked = true;
    let ghost w1 = world@;
    proof {
        lemma_still_valid(w, w1);
        assert(one@ =~= split_side(w, w.counters, scan, parent.gate_kind, ls[0]));
    }
    let mut two: Candidate = make_candidate(world, s, kind_right, r, "split");
    two.kind = CandidateKind::Split;
    two.locked = true;
    let ghost w2 = world@;
    proof {
        assert(two@ =~= split_side(w, w1.counters, scan, parent.gate_kind, rs[0]));
    }
    world.candidates.remove(p);
    world.candidates.push(one);
    world.candidates.push(two);
    let ghost all = w.candidates.remove(p as int).push(one@).push(two@);
    assert(world@.candidates =~= all);
    assert(world@ =~= (WorldModel { candidates: all, ..w2 }));
    sort_candidates(world);
    relist(world);
    proof {
        let f = world@;
        assert(f =~= split_done(w, p as int, scan, ls[0], rs[0]));
        assert forall|i: int| 0 <= i < all.len() implies fits(w)(#[trigger] all[i]) by {
            if i < p {
                assert(all[i] == w.candidates[i]);
            } else if i < w.candidates.len() - 1 {
                assert(all[i] == w.candidates[i + 1]);
            }
        }
        crate::order::lemma_sorted_all::<Candidate>(all, fits(w));
        assert forall|i: int| 0 <= i < f.candidates.len() implies candidate_fits(f, #[trigger] f.candidates[i]) by {
            assert(fits(w)(sorted::<Candidate>(all)[i]));
            lemma_same_scan_ids(w.scans, f.scans, f.candidates[i].scan_id);
        }
        assert forall|i: int| 0 <= i < f.scans.len() implies scan_fits(#[trigger] f.scans[i], f.samples, f.scans.len() as int, i) by {
            assert(scan_fits(w.scans[i], w.samples, w.scans.len() as int, i));
        }
        assert forall|id: i64| #[trigger] counter(f.counters, id) <= counter(w.counters, id) + w.samples by {
            if id != scan.id {
                assert(counter(w1.counters, id) == counter(w.counters, id));
            }
        }
    }
    Ok(())
}


/// The first scan that stands at the same lateral position as scan number `k`.
fn find_beside(world: &World, k: usize) -> (r: usize)
    requires
        world@.valid(),
        k < world@.scans.len(),
    ensures
        r < world@.scans.len(),
        r == first_beside(world@.scans, k as int),
{
    let ghost scans = world@.scans;
    let ghost p = beside(k as int);
    assert(scan_fits(scans[k as int], world@.samples, scans.len() as int, k as int));
    assert(p(scans[k as int]));
    let mut i: usize = 0;
    assert(scan_fits(scans[i as int], world@.samples, scans.len() as int, i as int));
    assert(world.scans@[i as int]@ == scans[i as int]);
    while !world.scans[i].x_gaps[k].is_below(Quantity::from_bits(crate::model::SAME_POSITION))
        invariant
            world@.valid(),
            scans == world@.scans,
            i <= k < scans.len(),
            p == beside(k as int),
            p(scans[k as int]),
            world.scans@[i as int]@ == scans[i as int],
            scans[i as int].x_gaps.len() == scans.len(),
            forall|j: int| 0 <= j < i ==> !p(#[trigger] scans[j]),
        decreases k - i,
    {
        assert(!p(scans[i as int]));
        i = i + 1;
        assert(scan_fits(scans[i as int], world@.samples, scans.len() as int, i as int));
        assert(world.scans@[i as int]@ == scans[i as int]);
    }
    proof {
        assert(p(scans[i as int]));
        lemma_first_found(scans, p, i as int);
    }
    i
}

/// Whether `ids` names `id`.
fn names(ids: &Vec<String>, id: &String) -> (r: bool)
    ensures
        r == views(ids@).contains(id@),
{
    let mut i: usize = 0;
    while i < ids.len()
        invariant
            i <= ids@.len(),
            forall|j: int| 0 <= j < i ==> #[trigger] views(ids@)[j] != id@,
        decreases ids@.len() - i,
    {
        if ids[i] == *id {
            assert(views(ids@)[i as int] == id@);
            return true;
        }
        i = i + 1;
    }
    false
}

/// Puts the candidates that `ids` names into track `track_id`, and locks them.
fn enlist(world: &mut World, ids: &Vec<String>, track_id: i64)
    ensures
        final(world)@ == (WorldModel { candidates: enlisted(old(world)@.candidates, views(ids@), track_id), ..old(world)@ }),
{
    let ghost w = world@;
    let ghost goal = enlisted(w.candidates, views(ids@), track_id);
    let n: usize = world.candidates.len();
    let mut i: usize = 0;
    while i < n
        invariant
            i <= n == w.candidates.len(),
            goal == enlisted(w.candidates, views(ids@), track_id),
            world@ == (WorldModel { candidates: world@.candidates, ..w }),
            world@.candidates.len() == n,
            forall|j: int| 0 <= j < i ==> #[trigger] world@.candidates[j] == goal[j],
            forall|j: int| i <= j < n ==> #[trigger] world@.candidates[j] == w.candidates[j],
        decreases n - i,
    {
        let ghost before = world@;
        assert(before.candidates[i as int] == w.candidates[i as int]);
        if names(ids, &world.candidates[i].id) {
            world.candidates[i].track_id = Some(track_id);
            world.candidates[i].locked = true;
        }
        proof {
            assert(world@.candidates[i as int] =~= goal[i as int]);
            assert(world@.candidates =~= before.candidates.update(i as int, goal[i as int]));
            assert(world@ =~= (WorldModel { candidates: world@.candidates, ..w }));
        }
        i = i + 1;
    }
    assert(world@.candidates =~= goal);
}

/// Whether `scan_ids` are the scans of the candidates that `ids` names, all known.
pub open spec fn are_scans_of(candidates: Seq<CandidateModel>, ids: Seq<Seq<char>>, scan_ids: Seq<i64>) -> bool {
    &&& scan_ids.len() == ids.len()
    &&& forall|k: int| 0 <= k < scan_ids.len() ==> {
        &&& #[trigger] scan_ids[k] == scan_of(candidates, ids[k])
        &&& candidate_index(candidates, ids[k]) is Some
    }
}

/// The scans of the members of a track, or what is wrong with a member.
fn member_scans(world: &World, ids: &Vec<String>) -> (r: Result<Vec<i64>, String>)
    ensures
        (match r {
            Ok(scans) => {
                &&& member_fault(world@.candidates, views(ids@), 0) is None
                &&& are_scans_of(world@.candidates, views(ids@), scans@)
            },
            Err(m) => member_fault(world@.candidates, views(ids@), 0) == Some(m@),
        }),
{
    let ghost c = world@.candidates;
    let ghost v = views(ids@);
    let mut scans: Vec<i64> = Vec::new();
    let mut k: usize = 0;
    while k < ids.len()
        invariant
            k <= ids@.len(),
            c == world@.candidates,
            v == views(ids@),
            scans@.len() == k,
            member_fault(c, v, k as int) == member_fault(c, v, 0),
            forall|j: int| 0 <= j < k ==> {
                &&& #[trigger] scans@[j] == scan_of(c, v[j])
                &&& candidate_index(c, v[j]) is Some
            },
        decreases ids@.len() - k,
    {
        assert(v[k as int] == ids@[k as int]@);
        match find_candidate(&world.candidates, &ids[k]) {
            None => {
                return Err(join2("unknown candidate ", ids[k].as_str()));
            },
            Some(i) => {
                assert(c[i as int] == world.candidates@[i as int]@);
                if world.candidates[i].track_id.is_some() {
                    return Err(join3("candidate ", ids[k].as_str(), " already belongs to a track"));
                }
                scans.push(world.candidates[i].scan_id);
            },
        }
        k = k + 1;
    }
    Ok(scans)
}

/// Whether a number occurs twice.
fn has_repeat(v: &Vec<i64>) -> (r: bool)
    ensures
        r == (exists|i: int, j: int| 0 <= i < j < v@.len() && #[trigger] v@[i] == #[trigger] v@[j]),
{
    let mut i: usize = 0;
    while i < v.len()
        invariant
            i <= v@.len(),
            forall|a: int, b: int| 0 <= a < i && a < b < v@.len() ==> #[trigger] v@[a] != #[trigger] v@[b],
        decreases v@.len() - i,
    {
        let mut j: usize = i + 1;
        while j < v.len()
            invariant
                i < j <= v@.len(),
                forall|b: int| i < b < j ==> v@[i as int] != #[trigger] v@[b],
            decreases v@.len() - j,
        {
            if v[i] == v[j] {
                assert(v@[i as int] == v@[j as int]);
                return true;
            }
            j = j + 1;
        }
        i = i + 1;
    }
    false
}

/// Whether the scans, from the lowest lateral position to the highest, form a
/// chain of adjacent positions.
fn is_chain(world: &World, ids: &Vec<String>, scan_ids: &Vec<i64>) -> (r: bool)
    requires
        world@.valid(),
        are_scans_of(world@.candidates, views(ids@), scan_ids@),
    ensures
        r == chained(world@.scans, sorted::<Place>(places(world@, views(ids@)))),
{
    let ghost w = world@;
    let ghost goal = places(w, views(ids@));
    let mut spots: Vec<Place> = Vec::new();
    let mut k: usize = 0;
    while k < scan_ids.len()
        invariant
            w == world@,
            w.valid(),
            goal == places(w, views(ids@)),
            k <= scan_ids@.len() == ids@.len(),
            spots@.len() == k,
            are_scans_of(w.candidates, views(ids@), scan_ids@),
            forall|j: int| 0 <= j < k ==> (#[trigger] spots@[j])@ == goal[j],
            forall|j: int| 0 <= j < k ==> (#[trigger] spots@[j]).scan < w.scans.len(),
        decreases scan_ids@.len() - k,
    {
        proof {
            assert(scan_ids@[k as int] == scan_of(w.candidates, views(ids@)[k as int]));
            let c = candidate_index(w.candidates, views(ids@)[k as int])->0;
            lemma_search(w.candidates, crate::rules::with_id(views(ids@)[k as int]));
            assert(candidate_fits(w, w.candidates[c]));
        }
        match find_scan(&world.scans, scan_ids[k]) {
            Some(s) => {
                assert(world.scans@[s as int]@ == w.scans[s as int]);
                spots.push(Place { x: world.scans[s].x_mm, scan: s });
            },
            None => {
                assert(false);
            },
        }
        k = k + 1;
    }
    assert(views(spots@) =~= goal);
    proof {
        let inside = |v: (Quantity, int)| 0 <= v.1 < w.scans.len();
        assert forall|i: int| 0 <= i < goal.len() implies inside(#[trigger] goal[i]) by {
            assert(spots@[i]@ == goal[i]);
        }
        crate::order::lemma_sorted_all::<Place>(goal, inside);
        assert forall|i: int| 0 <= i < sorted::<Place>(goal).len() implies 0 <= (#[trigger] sorted::<Place>(goal)[i]).1 < w.scans.len() by {
            assert(inside(sorted::<Place>(goal)[i]));
        }
    }
    let ordered: Vec<Place> = sort_ranked(spots);
    let ghost o = sorted::<Place>(goal);
    let mut i: usize = 0;
    while i < ordered.len() && ordered.len() - i > 1
        invariant
            w == world@,
            w.valid(),
            goal == places(w, views(ids@)),
            o == sorted::<Place>(goal),
            o == views(ordered@),
            i <= ordered@.len(),
            forall|i: int| 0 <= i < o.len() ==> 0 <= (#[trigger] o[i]).1 < w.scans.len(),
            forall|j: int| 0 <= j < i ==> adjacent(w.scans, first_beside(w.scans, (#[trigger] o[j]).1), first_beside(w.scans, o[j + 1].1)),
        decreases ordered@.len() - i,
    {
        assert(o[i as int] == ordered@[i as int]@);
        assert(o[i + 1] == ordered@[i + 1]@);
        let a: usize = find_beside(world, ordered[i].scan);
        let b: usize = find_beside(world, ordered[i + 1].scan);
        assert(scan_fits(w.scans[a as int], w.samples, w.scans.len() as int, a as int));
        assert(world.scans@[a as int]@ == w.scans[a as int]);
        if !world.scans[a].distances[b].is_at_most(Quantity::from_bits(crate::model::ADJACENT_DISTANCE)) {
            assert(!adjacent(w.scans, first_beside(w.scans, o[i as int].1), first_beside(w.scans, o[i + 1].1)));
            return false;
        }
        i = i + 1;
    }
    true
}

fn apply_track(world: &mut World, track_id: i64, ids: &Vec<String>) -> (r: Result<(), String>)
    requires
        old(world)@.valid(),
    ensures
        final(world)@ == track_grouped(old(world)@, track_id, views(ids@)).world,
        agrees(r, track_grouped(old(world)@, track_id, views(ids@)).result),
        final(world)@.valid(),
{
    let ghost w = world@;
    let ghost v = views(ids@);
    if world.inverted {
        return Err("depth axis inverted; correct the surface before grouping a track".to_owned());
    }
    if ids.len() < 2 {
        return Err("a defect track needs at least two candidates".to_owned());
    }
    let scan_ids: Vec<i64> = match member_scans(world, ids) {
        Ok(s) => s,
        Err(m) => {
            return Err(m);
        },
    };
    let repeat: bool = has_repeat(&scan_ids);
    proof {
        if repeat {
            let (i, j) = choose|i: int, j: int| 0 <= i < j < scan_ids@.len() && #[trigger] scan_ids@[i] == #[trigger] scan_ids@[j];
            assert(scan_of(w.candidates, v[i]) == scan_of(w.candidates, v[j]));
        } else if scan_repeats(w.candidates, v) {
            let (i, j) = choose|i: int, j: int| 0 <= i < j < v.len() && scan_of(w.candidates, #[trigger] v[i]) == scan_of(w.candidates, #[trigger] v[j]);
            assert(scan_ids@[i] == scan_ids@[j]);
        }
    }
    if repeat {
        return Err("each scan position can contribute at most one candidate to a track".to_owned());
    }
    if !is_chain(world, ids, &scan_ids) {
        return Err("track candidates must form a chain of adjacent scan positions".to_owned());
    }
    enlist(world, ids, track_id);
    let ghost marked = world@;
    proof {
        lemma_still_valid(w, marked);
    }
    let ghost p = with_track_id(track_id);
    let mut i: usize = 0;
    while i < world.tracks.len()
        invariant
            i <= world.tracks@.len(),
            w == old(world)@,
            v == views(ids@),
            world@ == marked,
            marked == (WorldModel { candidates: enlisted(w.candidates, v, track_id), ..w }),
            marked.valid(),
            p == with_track_id(track_id),
            track_grouped(w, track_id, v) == (if first_where(w.tracks, p) is Some {
                crate::rules::refused(marked, "track id "@ + crate::text::signed_digits(track_id as int) + " already used"@)
            } else {
                crate::rules::done(WorldModel { tracks: w.tracks.push(TrackModel { id: track_id, candidate_ids: v }), ..marked })
            }),
            forall|j: int| 0 <= j < i ==> !p(#[trigger] w.tracks[j]),
        decreases world.tracks@.len() - i,
    {
        assert(w.tracks[i as int] == world.tracks@[i as int]@);
        if world.tracks[i].id == track_id {
            proof {
                assert(p(w.tracks[i as int]));
                lemma_first_found(w.tracks, p, i as int);
            }
            return Err(join3("track id ", decimal_signed(track_id).as_str(), " already used"));
        }
        assert(!p(w.tracks[i as int]));
        i = i + 1;
    }
    proof {
        lemma_none_found(w.tracks, p);
    }
    let mut copy: Vec<String> = Vec::new();
    let mut k: usize = 0;
    while k < ids.len()
        invariant
            k <= ids@.len(),
            v == views(ids@),
            views(copy@) == v.take(k as int),
        decreases ids@.len() - k,
    {
        let ghost prior = copy@;
        copy.push(ids[k].clone());
        k = k + 1;
        assert(views(copy@) =~= views(prior).push(v[k - 1]));
        assert(views(copy@) =~= v.take(k as int));
    }
    assert(v.take(k as int) =~= v);
    let track: Track = Track { id: track_id, candidate_ids: copy };
    world.tracks.push(track);
    proof {
        assert(track@ =~= (TrackModel { id: track_id, candidate_ids: v }));
        assert(world@.tracks =~= w.tracks.push(track@));
        assert(world@ =~= track_grouped(w, track_id, v).world);
        lemma_still_valid(w, world@);
    }
    Ok(())
}

/// Applies an event to the state, or refuses it with a message.
pub fn apply(world: &mut World, event: &Event) -> (r: Result<(), String>)
    requires
        old(world)@.valid(),
        old(world)@.has_room(),
        event_fits(old(world)@, event@),
    ensures
        final(world)@ == applied(old(world)@, event@).world,
        agrees(r, applied(old(world)@, event@).result),
        final(world)@.valid(),
        forall|id: i64| #[trigger] counter(final(world)@.counters, id) <= counter(old(world)@.counters, id) + old(world)@.samples,
{
    match event {
        Event::Bootstrap { .. } => Err("bootstrap is only used to initialize an empty log".to_owned()),
        Event::SurfaceCorrected { scan_id, sample } => apply_surface(world, *scan_id, *sample),
        Event::ThresholdChanged { mode, value, levels } => apply_threshold(world, mode, *value, levels),
        Event::GateMoved { kind, lo, hi } => apply_gate(world, kind, *lo, *hi),
        Event::CalibrationSwitched { calib_id } => apply_calibration(world, *calib_id),
        Event::CandidateVerdict { candidate_id, verdict } => apply_verdict(world, candidate_id, *verdict),
        Event::CandidateSplit { parent_id, cut } => apply_split(world, parent_id, *cut),
        Event::TrackGrouped { track_id, candidate_ids } => apply_track(world, *track_id, candidate_ids),
    }
}

/// The highest of the track ids and `floor`.
pub open spec fn top_track(tracks: Seq<TrackModel>, floor: i64) -> i64
    decreases tracks.len(),
{
    if tracks.len() == 0 {
        floor
    } else {
        let rest = top_track(tracks.drop_last(), floor);
        if tracks.last().id > rest {
            tracks.last().id
        } else {
            rest
        }
    }
}

/// The id behind the highest that a track has, or 1 where there is no track.
pub open spec fn following_track_id(tracks: Seq<TrackModel>) -> int {
    if tracks.len() == 0 {
        1
    } else {
        top_track(tracks, tracks[0].id) + 1
    }
}

/// The id for the next track: one more than the highest that a track has, or 1
/// where there is no track.
pub fn next_track_id(world: &World) -> (r: i64)
    requires
        following_track_id(world@.tracks) <= i64::MAX,
    ensures
        r == following_track_id(world@.tracks),
{
    let ghost t = world@.tracks;
    if world.tracks.len() == 0 {
        return 1;
    }
    let mut top: i64 = world.tracks[0].id;
    let mut i: usize = 0;
    assert(t.len() == world.tracks@.len());
    assert(t[0] == world.tracks@[0]@);
    while i < world.tracks.len()
        invariant
            i <= world.tracks@.len() == t.len(),
            t == world@.tracks,
            t.len() > 0,
            top == top_track(t.take(i as int), t[0].id),
        decreases world.tracks@.len() - i,
    {
        assert(t[i as int] == world.tracks@[i as int]@);
        proof {
            assert(t.take(i + 1).drop_last() =~= t.take(i as int));
            assert(t.take(i + 1).last() == t[i as int]);
        }
        if world.tracks[i].id > top {
            top = world.tracks[i].id;
        }
        i = i + 1;
    }
    assert(t.take(i as int) =~= t);
    top + 1
}

} // verus!
