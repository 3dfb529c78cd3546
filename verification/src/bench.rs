//! Reading the adjudication state and running detection on it.

use vstd::prelude::*;

use crate::detection::{detect_regions, Region};
use crate::model::{Calib, Candidate, Gate, ScanView, Verdict, World, WorldModel};
use crate::order::{sort_ranked, sorted, views};
use crate::rules::{
    all_lobes, candidate_fits, candidate_index, counted, counter, delay, gate_index, harvest, harvest_lobe,
    harvest_scan, ids_of_scan, inversion, is_early_bottom, kept, locked_ones, new_candidate, overlaps,
    rechecked, redetected, relisted, scan_fits, scan_index, taken, with_calib_id, with_id, with_sample,
    with_scan_id, Harvest,
};
use crate::seqs::{first_where, lemma_first_found, lemma_none_found, lemma_search};
use crate::text::{decimal_signed, join2, join3, same_text};

verus! {

/// The first of the gates that holds sample `s`.
pub(crate) fn find_gate(gates: &Vec<Gate>, s: i64) -> (r: Option<usize>)
    ensures
        (match r {
            Some(i) => i < gates@.len() && gate_index(views(gates@), s as int) == Some(i as int),
            None => gate_index(views(gates@), s as int) is None,
        }),
{
    let ghost g = views(gates@);
    let mut i: usize = 0;
    while i < gates.len()
        invariant
            i <= gates@.len(),
            g == views(gates@),
            forall|j: int| 0 <= j < i ==> !with_sample(s as int)(#[trigger] g[j]),
        decreases gates@.len() - i,
    {
        if gates[i].contains_sample(s) {
            proof {
                assert(with_sample(s as int)(g[i as int]));
                lemma_first_found(g, with_sample(s as int), i as int);
            }
            return Some(i);
        }
        assert(!with_sample(s as int)(g[i as int]));
        i = i + 1;
    }
    proof {
        lemma_none_found(g, with_sample(s as int));
    }
    None
}

/// The scan with the given id.
pub(crate) fn find_scan(scans: &Vec<ScanView>, id: i64) -> (r: Option<usize>)
    ensures
        (match r {
            Some(i) => i < scans@.len() && scan_index(views(scans@), id) == Some(i as int) && scans@[i as int].id == id,
            None => scan_index(views(scans@), id) is None,
        }),
{
    let ghost g = views(scans@);
    let mut i: usize = 0;
    while i < scans.len()
        invariant
            i <= scans@.len(),
            g == views(scans@),
            forall|j: int| 0 <= j < i ==> !with_scan_id(id)(#[trigger] g[j]),
        decreases scans@.len() - i,
    {
        if scans[i].id == id {
            proof {
                assert(with_scan_id(id)(g[i as int]));
                lemma_first_found(g, with_scan_id(id), i as int);
            }
            return Some(i);
        }
        assert(!with_scan_id(id)(g[i as int]));
        i = i + 1;
    }
    proof {
        lemma_none_found(g, with_scan_id(id));
    }
    None
}

/// The candidate with the given id.
pub(crate) fn find_candidate(candidates: &Vec<Candidate>, id: &String) -> (r: Option<usize>)
    ensures
        (match r {
            Some(i) => i < candidates@.len() && candidate_index(views(candidates@), id@) == Some(i as int),
            None => candidate_index(views(candidates@), id@) is None,
        }),
{
    let ghost g = views(candidates@);
    let mut i: usize = 0;
    while i < candidates.len()
        invariant
            i <= candidates@.len(),
            g == views(candidates@),
            forall|j: int| 0 <= j < i ==> !with_id(id@)(#[trigger] g[j]),
        decreases candidates@.len() - i,
    {
        if candidates[i].id == *id {
            proof {
                assert(with_id(id@)(g[i as int]));
                lemma_first_found(g, with_id(id@), i as int);
            }
            return Some(i);
        }
        assert(!with_id(id@)(g[i as int]));
        i = i + 1;
    }
    proof {
        lemma_none_found(g, with_id(id@));
    }
    None
}

/// Whether one of the calibrations has the given id.
pub(crate) fn knows_calib(calibs: &Vec<Calib>, id: i64) -> (r: bool)
    ensures
        r == (first_where(calibs@, with_calib_id(id)) is Some),
{
    let mut i: usize = 0;
    while i < calibs.len()
        invariant
            i <= calibs@.len(),
            forall|j: int| 0 <= j < i ==> !with_calib_id(id)(#[trigger] calibs@[j]),
        decreases calibs@.len() - i,
    {
        if calibs[i].id == id {
            proof {
                assert(with_calib_id(id)(calibs@[i as int]));
                lemma_first_found(calibs@, with_calib_id(id), i as int);
            }
            return true;
        }
        assert(!with_calib_id(id)(calibs@[i as int]));
        i = i + 1;
    }
    proof {
        lemma_none_found(calibs@, with_calib_id(id));
    }
    false
}

impl World {
    /// The calibration in force, or the first one where that is unknown.
    pub fn calib(&self) -> (r: Calib)
        requires
            self.calibs@.len() > 0,
        ensures
            forall|i: int|
                0 <= i < self.calibs@.len() && (#[trigger] self.calibs@[i]).id == self.current_calib_id ==> r.id
                    == self.current_calib_id,
            self.calibs@.contains(r),
            (match first_where(self.calibs@, with_calib_id(self.current_calib_id)) {
                Some(i) => r == self.calibs@[i],
                None => r == self.calibs@[0],
            }),
    {
        let mut i: usize = 0;
        let ghost p = with_calib_id(self.current_calib_id);
        while i < self.calibs.len()
            invariant
                i <= self.calibs@.len(),
                p == with_calib_id(self.current_calib_id),
                forall|j: int| 0 <= j < i ==> !p(#[trigger] self.calibs@[j]),
            decreases self.calibs@.len() - i,
        {
            if self.calibs[i].id == self.current_calib_id {
                proof {
                    assert(p(self.calibs@[i as int]));
                    lemma_first_found(self.calibs@, p, i as int);
                    assert(self.calibs@.contains(self.calibs@[i as int]));
                }
                return self.calibs[i];
            }
            assert(!p(self.calibs@[i as int]));
            i = i + 1;
        }
        proof {
            lemma_none_found(self.calibs@, p);
            assert(self.calibs@.contains(self.calibs@[0]));
            assert forall|k: int| 0 <= k < self.calibs@.len() implies (#[trigger] self.calibs@[k]).id
                != self.current_calib_id by {
                assert(!p(self.calibs@[k]));
            }
        }
        self.calibs[0]
    }

    /// How many samples after the corrected surface a sample arrives. The corrected
    /// surface arrival is the zero-depth reference, so with the velocity in force
    /// this is the live depth.
    pub fn live_delay(&self, scan_id: i64, sample: i64) -> (r: Option<i64>)
        requires
            self.surfaces@.dom().contains(scan_id) ==> i64::MIN <= sample - self.surfaces@[scan_id] <= i64::MAX,
        ensures
            r == delay(self.surfaces@, scan_id, sample as int),
    {
        match self.surfaces.get(&scan_id) {
            Some(surface) => Some(sample - *surface),
            None => None,
        }
    }

    /// Counts one more candidate of scan `id`.
    fn next_counter(&mut self, id: i64) -> (r: i64)
        requires
            counter(old(self)@.counters, id) < i64::MAX,
        ensures
            r == counter(old(self)@.counters, id) + 1,
            final(self)@ == (WorldModel { counters: counted(old(self)@.counters, id), ..old(self)@ }),
    {
        let v: i64 = match self.counters.get(&id) {
            Some(n) => *n,
            None => 0,
        };
        self.counters.insert(id, v + 1);
        v + 1
    }

    /// The depth axis is inverted whenever a bottom-labelled candidate arrives at
    /// or before the corrected surface. No positive depth result is then valid.
    pub fn check_inversion(&mut self)
        ensures
            final(self)@ == rechecked(old(self)@),
    {
        let ghost before = self@;
        let ghost p = is_early_bottom(self@.surfaces);
        let mut reason: Option<String> = None;
        let mut i: usize = 0;
        while i < self.candidates.len()
            invariant_except_break
                reason is None,
                i <= self.candidates@.len(),
                self@ == before,
                p == is_early_bottom(before.surfaces),
                forall|j: int| 0 <= j < i ==> !p(#[trigger] before.candidates[j]),
            ensures
                self@ == before,
                crate::model::opt_text(reason) == inversion(before),
            decreases self.candidates@.len() - i,
        {
            let cand: &Candidate = &self.candidates[i];
            assert(before.candidates[i as int] == cand@);
            let labelled: bool = match cand.verdict {
                Some(Verdict::Bottom) => true,
                _ => same_text(cand.gate_kind.as_str(), "bottom"),
            };
            if labelled {
                if let Some(surface) = self.surfaces.get(&cand.scan_id) {
                    if cand.peak <= *surface {
                        proof {
                            assert(p(before.candidates[i as int]));
                            lemma_first_found(before.candidates, p, i as int);
                        }
                        let head: String = join3("scan ", decimal_signed(cand.scan_id).as_str(), " bottom candidate at sample ");
                        let tail: String = join3(
                            decimal_signed(cand.peak).as_str(),
                            " is no later than surface ",
                            decimal_signed(*surface).as_str(),
                        );
                        let text: String = join2(head.as_str(), tail.as_str());
                        assert(text@ =~= inversion(before)->0);
                        reason = Some(text);
                        break;
                    }
                }
            }
            assert(!p(before.candidates[i as int]));
            i = i + 1;
            proof {
                if i == self.candidates@.len() {
                    lemma_none_found(before.candidates, p);
                }
            }
        }
        proof {
            if before.candidates.len() == 0 {
                lemma_none_found(before.candidates, p);
            }
        }
        self.inverted = reason.is_some();
        self.inverted_reason = reason;
    }
}


/// Whether a candidate of scan `id` overlaps the interval from `start` to `end`.
fn is_taken(candidates: &Vec<Candidate>, id: i64, start: usize, end: usize) -> (r: bool)
    requires
        start <= i64::MAX,
        end <= i64::MAX,
    ensures
        r == taken(views(candidates@), id, start as int, end as int),
{
    let ghost g = views(candidates@);
    let mut i: usize = 0;
    while i < candidates.len()
        invariant
            start <= i64::MAX,
            end <= i64::MAX,
            i <= candidates@.len(),
            g == views(candidates@),
            forall|j: int| 0 <= j < i ==> !((#[trigger] g[j]).scan_id == id && overlaps(g[j], start as int, end as int)),
        decreases candidates@.len() - i,
    {
        let c: &Candidate = &candidates[i];
        if c.scan_id == id && c.start < end as i64 && c.end > start as i64 {
            assert(g[i as int].scan_id == id && overlaps(g[i as int], start as int, end as int));
            return true;
        }
        assert(!(g[i as int].scan_id == id && overlaps(g[i as int], start as int, end as int)));
        i = i + 1;
    }
    false
}

/// Makes a candidate of lobe `r` of scan number `at`, and counts it.
pub(crate) fn make_candidate(world: &mut World, at: usize, gate_kind: String, r: Region, origin: &str) -> (c: Candidate)
    requires
        old(world)@.valid(),
        at < old(world)@.scans.len(),
        r@.start <= r@.peak < r@.end <= old(world)@.samples,
        counter(old(world)@.counters, old(world)@.scans[at as int].id) < i64::MAX,
    ensures
        c@ == new_candidate(old(world)@, old(world)@.counters, old(world)@.scans[at as int], gate_kind@, r@, origin@),
        final(world)@ == (WorldModel { counters: counted(old(world)@.counters, old(world)@.scans[at as int].id), ..old(world)@ }),
{
    let ghost w = world@;
    assert(scan_fits(w.scans[at as int], w.samples, w.scans.len() as int, at as int));
    let scan_id: i64 = world.scans[at].id;
    let peak: usize = r.peak;
    let n: i64 = world.next_counter(scan_id);
    let head: String = join2("s", decimal_signed(scan_id).as_str());
    let id: String = join3(head.as_str(), "-c", decimal_signed(n).as_str());
    let depth: Option<i64> = world.live_delay(scan_id, peak as i64);
    let amplitude: crate::quantity::Quantity = world.scans[at].trace.counts[peak];
    let c: Candidate = Candidate {
        id,
        scan_id,
        gate_kind,
        start: r.start as i64,
        end: r.end as i64,
        peak: peak as i64,
        amplitude,
        lower_bound: r.saturated,
        kind: r.kind,
        sub_peaks: r.sub,
        verdict: None,
        track_id: None,
        origin: origin.to_owned(),
        depth_snapshot: depth,
        calib_id_snapshot: world.current_calib_id,
        locked: false,
    };
    proof {
        assert(c@ =~= new_candidate(w, w.counters, w.scans[at as int], gate_kind@, r@, origin@));
    }
    c
}


/// A search for a scan depends on the ids alone.
pub(crate) proof fn lemma_same_scan_ids(a: Seq<crate::model::ScanModel>, b: Seq<crate::model::ScanModel>, id: i64)
    requires
        a.len() == b.len(),
        forall|i: int| 0 <= i < a.len() ==> (#[trigger] a[i]).id == (#[trigger] b[i]).id,
    ensures
        scan_index(a, id) == scan_index(b, id),
{
    lemma_search(a, with_scan_id(id));
    lemma_search(b, with_scan_id(id));
    if let Some(i) = scan_index(a, id) {
        assert(with_scan_id(id)(b[i]));
        assert forall|j: int| 0 <= j < i implies !with_scan_id(id)(#[trigger] b[j]) by {
            assert(!with_scan_id(id)(a[j]));
        }
        lemma_first_found(b, with_scan_id(id), i);
    } else {
        assert forall|j: int| 0 <= j < b.len() implies !with_scan_id(id)(#[trigger] b[j]) by {
            assert(!with_scan_id(id)(a[j]));
        }
        lemma_none_found(b, with_scan_id(id));
    }
}

/// The scan with an id is the one scan that has it.
pub(crate) proof fn lemma_scan_of_id(w: WorldModel, i: int)
    requires
        w.valid(),
        0 <= i < w.scans.len(),
    ensures
        scan_index(w.scans, w.scans[i].id) == Some(i),
{
    let id = w.scans[i].id;
    assert forall|j: int| 0 <= j < i implies !with_scan_id(id)(#[trigger] w.scans[j]) by {
        assert(w.scans[j].id != w.scans[i].id);
    }
    lemma_first_found(w.scans, with_scan_id(id), i);
}

/// Drops every candidate that is not locked.
fn keep_locked(world: &mut World)
    ensures
        final(world)@ == kept(old(world)@),
{
    let ghost w = world@;
    let mut rest: Vec<Candidate> = Vec::new();
    std::mem::swap(&mut rest, &mut world.candidates);
    let ghost all = views(rest@);
    let total: usize = rest.len();
    let mut done: usize = 0;
    let mut stay: Vec<Candidate> = Vec::new();
    assert(all =~= w.candidates);
    assert(all.skip(0) =~= all);
    assert(views(stay@) =~= locked_ones(all.take(0)));
    while done < total
        invariant
            done <= total,
            total == all.len(),
            rest@.len() == total - done,
            views(rest@) == all.skip(done as int),
            views(stay@) == locked_ones(all.take(done as int)),
        decreases total - done,
    {
        let ghost before = rest@;
        let c: Candidate = rest.remove(0);
        proof {
            assert(views(before)[0] == all.skip(done as int)[0]);
            assert(c@ == all[done as int]);
            assert forall|i: int| 0 <= i < rest@.len() implies views(rest@)[i] == all.skip(done + 1)[i] by {
                assert(rest@[i] == before[i + 1]);
                assert(views(before)[i + 1] == all.skip(done as int)[i + 1]);
            }
            assert(views(rest@) =~= all.skip(done + 1));
            assert(all.take(done + 1).drop_last() =~= all.take(done as int));
            assert(all.take(done + 1).last() == c@);
        }
        if c.locked {
            let ghost prior = stay@;
            stay.push(c);
            assert(views(stay@) =~= views(prior).push(c@));
        }
        done = done + 1;
    }
    assert(all.take(total as int) =~= all);
    world.candidates = stay;
    assert(world@ =~= kept(w));
}

/// The ids of the candidates of scan `id`, in order.
fn list_ids(candidates: &Vec<Candidate>, id: i64) -> (ids: Vec<String>)
    ensures
        views(ids@) == ids_of_scan(views(candidates@), id),
{
    let ghost all = views(candidates@);
    let mut ids: Vec<String> = Vec::new();
    let mut i: usize = 0;
    assert(views(ids@) =~= ids_of_scan(all.take(0), id));
    while i < candidates.len()
        invariant
            i <= candidates@.len(),
            all == views(candidates@),
            views(ids@) == ids_of_scan(all.take(i as int), id),
        decreases candidates@.len() - i,
    {
        proof {
            assert(all.take(i + 1).drop_last() =~= all.take(i as int));
            assert(all.take(i + 1).last() == candidates@[i as int]@);
        }
        if candidates[i].scan_id == id {
            let ghost prior = ids@;
            ids.push(candidates[i].id.clone());
            assert(views(ids@) =~= views(prior).push(candidates@[i as int]@.id));
        }
        i = i + 1;
    }
    assert(all.take(i as int) =~= all);
    ids
}

/// Lists with every scan the ids of its candidates.
pub(crate) fn relist(world: &mut World)
    ensures
        final(world)@ == (WorldModel { scans: relisted(old(world)@.scans, old(world)@.candidates), ..old(world)@ }),
{
    let ghost w = world@;
    let mut i: usize = 0;
    let n: usize = world.scans.len();
    while i < n
        invariant
            i <= n == w.scans.len(),
            world@ == (WorldModel { scans: world@.scans, ..w }),
            world@.scans.len() == n,
            forall|j: int| 0 <= j < i ==> #[trigger] world@.scans[j] == relisted(w.scans, w.candidates)[j],
            forall|j: int| i <= j < n ==> #[trigger] world@.scans[j] == w.scans[j],
        decreases n - i,
    {
        let ids: Vec<String> = list_ids(&world.candidates, world.scans[i].id);
        let ghost before = world@;
        assert(before.scans[i as int] == w.scans[i as int]);
        world.scans[i].candidates = ids;
        proof {
            assert(world@.scans =~= before.scans.update(i as int, relisted(w.scans, w.candidates)[i as int]));
            assert(world@ =~= (WorldModel { scans: world@.scans, ..w }));
        }
        i = i + 1;
    }
    assert(world@.scans =~= relisted(w.scans, w.candidates));
}

/// Sorts the candidates.
pub(crate) fn sort_candidates(world: &mut World)
    ensures
        final(world)@ == (WorldModel { candidates: sorted::<Candidate>(old(world)@.candidates), ..old(world)@ }),
{
    let ghost w = world@;
    let mut all: Vec<Candidate> = Vec::new();
    std::mem::swap(&mut all, &mut world.candidates);
    assert(views(all@) =~= w.candidates);
    world.candidates = sort_ranked(all);
    assert(world@ =~= (WorldModel { candidates: sorted::<Candidate>(w.candidates), ..w }));
}


/// Locked candidates are candidates.
proof fn lemma_locked_ones(s: Seq<crate::model::CandidateModel>, p: spec_fn(crate::model::CandidateModel) -> bool)
    requires
        forall|i: int| 0 <= i < s.len() ==> p(#[trigger] s[i]),
    ensures
        forall|i: int| 0 <= i < locked_ones(s).len() ==> p(#[trigger] locked_ones(s)[i]),
    decreases s.len(),
{
    if s.len() > 0 {
        lemma_locked_ones(s.drop_last(), p);
        assert(p(s[s.len() - 1]));
        assert forall|i: int| 0 <= i < locked_ones(s).len() implies p(#[trigger] locked_ones(s)[i]) by {
            if i < locked_ones(s.drop_last()).len() {
                assert(locked_ones(s)[i] == locked_ones(s.drop_last())[i]);
            }
        }
    }
}

/// Whether a candidate fits a state, as a predicate on candidates.
pub open spec fn fits(w: WorldModel) -> spec_fn(crate::model::CandidateModel) -> bool {
    |c: crate::model::CandidateModel| candidate_fits(w, c)
}

/// Gathers the lobes of scan number `at`.
fn harvest_one(world: &mut World, at: usize, added: &mut Vec<Candidate>)
    requires
        old(world)@.valid(),
        at < old(world)@.scans.len(),
        counter(old(world)@.counters, old(world)@.scans[at as int].id) + old(world)@.samples <= i64::MAX,
        forall|i: int| 0 <= i < old(added)@.len() ==> candidate_fits(old(world)@, (#[trigger] old(added)@[i])@),
    ensures
        ({
            let w = old(world)@;
            let scan = w.scans[at as int];
            let rs = all_lobes(scan.trace, w.levels[at as int], w.adc_max);
            let h = harvest_scan(
                w,
                scan,
                rs,
                rs.len() as int,
                Harvest { counters: w.counters, added: views(old(added)@) },
            );
            &&& final(world)@ == (WorldModel { counters: h.counters, ..w })
            &&& views(final(added)@) == h.added
            &&& counter(h.counters, scan.id) <= counter(w.counters, scan.id) + w.samples
            &&& forall|id: i64| id != scan.id ==> #[trigger] counter(h.counters, id) == counter(w.counters, id)
        }),
        forall|i: int| 0 <= i < final(added)@.len() ==> candidate_fits(old(world)@, (#[trigger] final(added)@[i])@),
{
    let ghost w = world@;
    let ghost scan = w.scans[at as int];
    let ghost rs = all_lobes(scan.trace, w.levels[at as int], w.adc_max);
    let ghost h0 = Harvest { counters: w.counters, added: views(added@) };
    assert(scan_fits(scan, w.samples, w.scans.len() as int, at as int));
    assert(world.scans@[at as int]@ == scan);
    let size: usize = world.scans[at].trace.envelope.len();
    let level: crate::quantity::Quantity = world.levels[at];
    let mut regions: Vec<Region> = detect_regions(&world.scans[at].trace, 0, size, level, world.adc_max);
    let total: usize = regions.len();
    let mut j: usize = 0;
    proof {
        crate::detection::lemma_lobe_count(scan.trace, 0, scan.trace.size(), level, w.adc_max);
        lemma_scan_of_id(w, at as int);
        assert(views(regions@) == rs);
        assert(rs.skip(0) =~= rs);
        assert(world@ =~= (WorldModel { counters: h0.counters, ..w }));
    }
    while j < total
        invariant
            w.valid(),
            at < w.scans.len(),
            scan == w.scans[at as int],
            scan_index(w.scans, scan.id) == Some(at as int),
            j <= total == rs.len(),
            total <= w.samples,
            counter(w.counters, scan.id) + w.samples <= i64::MAX,
            regions@.len() == total - j,
            views(regions@) == rs.skip(j as int),
            forall|k: int| 0 <= k < regions@.len() ==> crate::detection::lobe_inside(#[trigger] regions@[k]@, 0, w.samples as int),
            world@ == (WorldModel { counters: harvest_scan(w, scan, rs, j as int, h0).counters, ..w }),
            views(added@) == harvest_scan(w, scan, rs, j as int, h0).added,
            counter(world@.counters, scan.id) <= counter(w.counters, scan.id) + j,
            forall|id: i64| id != scan.id ==> #[trigger] counter(world@.counters, id) == counter(w.counters, id),
            forall|i: int| 0 <= i < added@.len() ==> candidate_fits(w, (#[trigger] added@[i])@),
        decreases total - j,
    {
        let ghost before = regions@;
        let ghost h = harvest_scan(w, scan, rs, j as int, h0);
        assert(crate::detection::lobe_inside(regions@[0]@, 0, w.samples as int));
        let r: Region = regions.remove(0);
        proof {
            assert(views(before)[0] == rs.skip(j as int)[0]);
            assert(r@ == rs[j as int]);
            assert forall|i: int| 0 <= i < regions@.len() implies views(regions@)[i] == rs.skip(j + 1)[i] by {
                assert(regions@[i] == before[i + 1]);
                assert(views(before)[i + 1] == rs.skip(j as int)[i + 1]);
            }
            assert(views(regions@) =~= rs.skip(j + 1));
            assert forall|k: int| 0 <= k < regions@.len() implies crate::detection::lobe_inside(#[trigger] regions@[k]@, 0, w.samples as int) by {
                assert(regions@[k] == before[k + 1]);
            }
            assert(harvest_scan(w, scan, rs, j + 1, h0) == harvest_lobe(w, scan, r@, h));
        }
        j = j + 1;
        if let Some(g) = find_gate(&world.gates, r.peak as i64) {
            let free: bool = !is_taken(&world.candidates, world.scans[at].id, r.start, r.end) && !is_taken(
                &*added,
                world.scans[at].id,
                r.start,
                r.end,
            );
            if free {
                let kind: String = world.gates[g].kind.clone();
                let ghost prior = added@;
                let ghost wb = world@;
                let c: Candidate = make_candidate(world, at, kind, r, "auto");
                added.push(c);
                proof {
                    assert(kind@ == w.gates[g as int].kind);
                    assert(c@ == new_candidate(w, h.counters, scan, w.gates[g as int].kind, r@, "auto"@));
                    assert(views(added@) =~= views(prior).push(c@));
                    assert(candidate_fits(w, c@));
                    assert forall|id: i64| id != scan.id implies #[trigger] counter(world@.counters, id) == counter(w.counters, id) by {
                        assert(counter(wb.counters, id) == counter(w.counters, id));
                    }
                    assert forall|i: int| 0 <= i < added@.len() implies candidate_fits(w, (#[trigger] added@[i])@) by {
                        if i < prior.len() {
                            assert(added@[i] == prior[i]);
                        }
                    }
                }
            }
        }
    }
}

/// Runs detection again: keeps locked candidates (verdicts, tracks, splits) and
/// replaces everything else.
pub(crate) fn rerun_detection(world: &mut World)
    requires
        old(world)@.valid(),
        old(world)@.has_room(),
    ensures
        final(world)@ == redetected(old(world)@),
        final(world)@.valid(),
        forall|id: i64| #[trigger] counter(final(world)@.counters, id) <= counter(old(world)@.counters, id) + old(world)@.samples,
{
    let ghost w = world@;
    keep_locked(world);
    let ghost k = world@;
    proof {
        lemma_locked_ones(w.candidates, fits(w));
        assert forall|i: int| 0 <= i < k.candidates.len() implies candidate_fits(k, #[trigger] k.candidates[i]) by {
            assert(fits(w)(k.candidates[i]));
        }
        assert(k.valid());
    }
    let mut added: Vec<Candidate> = Vec::new();
    let n: usize = world.scans.len();
    let mut at: usize = 0;
    proof {
        assert(views(added@) =~= harvest(k, 0).added);
        assert(world@ =~= (WorldModel { counters: harvest(k, 0).counters, ..k }));
    }
    while at < n
        invariant
            k.valid(),
            w.has_room(),
            k == kept(w),
            at <= n == k.scans.len(),
            world@ == (WorldModel { counters: harvest(k, at as int).counters, ..k }),
            views(added@) == harvest(k, at as int).added,
            forall|id: i64| (forall|i: int| 0 <= i < at ==> (#[trigger] k.scans[i]).id != id) ==> #[trigger] counter(world@.counters, id) == counter(k.counters, id),
            forall|id: i64| #[trigger] counter(world@.counters, id) <= counter(k.counters, id) + k.samples,
            forall|i: int| 0 <= i < added@.len() ==> candidate_fits(k, (#[trigger] added@[i])@),
        decreases n - at,
    {
        let ghost h = harvest(k, at as int);
        let ghost b = world@;
        let ghost scan = k.scans[at as int];
        proof {
            assert(b.valid()) by {
                assert forall|i: int| 0 <= i < b.scans.len() implies scan_fits(#[trigger] b.scans[i], b.samples, b.scans.len() as int, i) by {
                    assert(scan_fits(k.scans[i], k.samples, k.scans.len() as int, i));
                }
                assert forall|i: int| 0 <= i < b.candidates.len() implies candidate_fits(b, #[trigger] b.candidates[i]) by {
                    assert(candidate_fits(k, k.candidates[i]));
                }
            }
            assert(forall|i: int| 0 <= i < at ==> (#[trigger] k.scans[i]).id != scan.id);
            assert(counter(w.counters, scan.id) + w.samples <= i64::MAX);
            assert forall|i: int| 0 <= i < added@.len() implies candidate_fits(b, (#[trigger] added@[i])@) by {
                assert(candidate_fits(k, added@[i]@));
            }
        }
        harvest_one(world, at, &mut added);
        proof {
            let rs = all_lobes(scan.trace, k.levels[at as int], k.adc_max);
            lemma_harvest_scan_ignores_counters(k, b, scan, rs, rs.len() as int, h);
            assert(harvest(k, at + 1) == harvest_scan(k, scan, rs, rs.len() as int, h));
            assert(h == (Harvest { counters: b.counters, added: h.added }));
            assert forall|i: int| 0 <= i < added@.len() implies candidate_fits(k, (#[trigger] added@[i])@) by {
                assert(candidate_fits(b, added@[i]@));
            }
            assert forall|id: i64| (forall|i: int| 0 <= i < at + 1 ==> (#[trigger] k.scans[i]).id != id) implies #[trigger] counter(world@.counters, id) == counter(k.counters, id) by {
                assert(k.scans[at as int].id != id);
            }
            assert forall|id: i64| #[trigger] counter(world@.counters, id) <= counter(k.counters, id) + k.samples by {
                if id == scan.id {
                    assert(counter(b.counters, id) == counter(k.counters, id));
                } else {
                    assert(counter(world@.counters, id) == counter(b.counters, id));
                }
            }
        }
        at = at + 1;
    }
    let ghost extra = views(added@);
    let ghost b = world@;
    assert forall|i: int| 0 <= i < extra.len() implies candidate_fits(k, #[trigger] extra[i]) by {
        assert(candidate_fits(k, added@[i]@));
    }
    world.candidates.append(&mut added);
    assert(world@ =~= (WorldModel { candidates: k.candidates + extra, ..b }));
    sort_candidates(world);
    let ghost c = world@;
    relist(world);
    world.check_inversion();
    proof {
        let all = k.candidates + extra;
        let f = world@;
        assert(f =~= redetected(w));
        assert forall|i: int| 0 <= i < all.len() implies fits(k)(#[trigger] all[i]) by {
            if i < k.candidates.len() {
                assert(candidate_fits(k, k.candidates[i]));
            } else {
                assert(candidate_fits(k, extra[i - k.candidates.len()]));
            }
        }
        crate::order::lemma_sorted_all::<Candidate>(all, fits(k));
        assert forall|i: int| 0 <= i < f.candidates.len() implies candidate_fits(f, #[trigger] f.candidates[i]) by {
            assert(fits(k)(sorted::<Candidate>(all)[i]));
            lemma_same_scan_ids(k.scans, f.scans, f.candidates[i].scan_id);
        }
        assert forall|i: int| 0 <= i < f.scans.len() implies scan_fits(#[trigger] f.scans[i], f.samples, f.scans.len() as int, i) by {
            assert(scan_fits(k.scans[i], k.samples, k.scans.len() as int, i));
        }
    }
}

/// Gathering reads neither the counters of the state nor anything else that
/// gathering changes.
proof fn lemma_harvest_scan_ignores_counters(
    a: WorldModel,
    b: WorldModel,
    scan: crate::model::ScanModel,
    rs: Seq<crate::detection::RegionModel>,
    n: int,
    h: Harvest,
)
    requires
        b == (WorldModel { counters: b.counters, ..a }),
    ensures
        harvest_scan(a, scan, rs, n, h) == harvest_scan(b, scan, rs, n, h),
    decreases n,
{
    if n > 0 {
        lemma_harvest_scan_ignores_counters(a, b, scan, rs, n - 1, h);
    }
}

} // verus!
