//! The instrument's setup, and the state in which a bench starts.

use std::collections::BTreeMap;

use vstd::prelude::*;

use crate::bench::{knows_calib, rerun_detection};
use crate::detection::Trace;
use crate::model::{Calib, Gate, GateModel, ScanModel, ScanView, World, WorldModel};
use crate::order::views;
use crate::quantity::Quantity;
use crate::rules::{counter, levels_fit, redetected, scan_fits, with_calib_id};
use crate::seqs::first_where;
use crate::text::{decimal_signed, join2, same_text};

verus! {

/// One recorded scan.
#[derive(Clone, Debug)]
pub struct ScanSetup {
    pub id: i64,
    pub x_mm: Quantity,
    pub y_mm: Quantity,
    pub recorded_surface_sample: i64,
    /// The surface arrival that the scan starts with.
    pub surface_sample: i64,
    pub noise_floor: Quantity,
    pub trace: Trace,
    /// How far, along x, every scan position lies from this one.
    pub x_gaps: Vec<Quantity>,
    /// How far every scan position lies from this one.
    pub distances: Vec<Quantity>,
}

impl View for ScanSetup {
    type V = ScanModel;

    /// The scan as it stands before any candidate is found.
    open spec fn view(&self) -> ScanModel {
        ScanModel {
            id: self.id,
            x_mm: self.x_mm,
            y_mm: self.y_mm,
            recorded_surface_sample: self.recorded_surface_sample,
            surface_sample: self.surface_sample,
            noise_floor: self.noise_floor,
            trace: self.trace,
            x_gaps: self.x_gaps@,
            distances: self.distances@,
            candidates: Seq::empty(),
        }
    }
}

/// The fixed part of a bench: its instrument and its recorded scans.
#[derive(Clone, Debug)]
pub struct Setup {
    /// The number of samples of every trace.
    pub samples: usize,
    /// The upper rail of the ADC.
    pub adc_max: i16,
    pub calibs: Vec<Calib>,
    pub gates: Vec<Gate>,
    pub scans: Vec<ScanSetup>,
    /// The amplitude threshold of a bench that nobody has set up.
    pub default_threshold_amp: Quantity,
    /// The SNR threshold of a bench that nobody has set up.
    pub default_threshold_snr: Quantity,
    /// The levels of the default amplitude threshold.
    pub default_levels: Vec<Quantity>,
}

/// What a setup holds.
#[verifier::ext_equal]
pub struct SetupModel {
    pub samples: usize,
    pub adc_max: i16,
    pub calibs: Seq<Calib>,
    pub gates: Seq<GateModel>,
    pub scans: Seq<ScanModel>,
    pub default_threshold_amp: Quantity,
    pub default_threshold_snr: Quantity,
    pub default_levels: Seq<Quantity>,
}

impl View for Setup {
    type V = SetupModel;

    open spec fn view(&self) -> SetupModel {
        SetupModel {
            samples: self.samples,
            adc_max: self.adc_max,
            calibs: self.calibs@,
            gates: views(self.gates@),
            scans: views(self.scans@),
            default_threshold_amp: self.default_threshold_amp,
            default_threshold_snr: self.default_threshold_snr,
            default_levels: self.default_levels@,
        }
    }
}

impl SetupModel {
    /// Traces of one length, distinct scan ids, and surface arrivals near the record.
    pub open spec fn valid(self) -> bool {
        &&& self.samples <= i64::MAX / 4
        &&& levels_fit(self.default_levels, self.scans.len() as int)
        &&& forall|i: int| 0 <= i < self.scans.len() ==> scan_fits(#[trigger] self.scans[i], self.samples, self.scans.len() as int, i)
        &&& forall|i: int, j: int| 0 <= i < j < self.scans.len() ==> (#[trigger] self.scans[i]).id != (#[trigger] self.scans[j]).id
        &&& forall|i: int| 0 <= i < self.scans.len() ==> -(i64::MAX / 4) <= (#[trigger] self.scans[i]).surface_sample <= i64::MAX / 4
    }
}

/// The surface arrivals of the first `n` scans.
pub open spec fn first_surfaces(scans: Seq<ScanModel>, n: int) -> Map<i64, i64>
    decreases n,
{
    if n <= 0 {
        Map::empty()
    } else {
        first_surfaces(scans, n - 1).insert(scans[n - 1].id, scans[n - 1].surface_sample)
    }
}

/// The threshold mode that a text asks for: `snr`, and `amp` for anything else.
pub open spec fn mode_asked(mode: Seq<char>) -> Seq<char> {
    if mode == "snr"@ {
        "snr"@
    } else {
        "amp"@
    }
}

/// The state before detection was run for the first time.
pub open spec fn unexamined(s: SetupModel, calib_id: i64, mode: Seq<char>, amp: Quantity, snr: Quantity, levels: Seq<Quantity>) -> WorldModel {
    WorldModel {
        samples: s.samples,
        adc_max: s.adc_max,
        calibs: s.calibs,
        current_calib_id: calib_id,
        threshold_mode: mode_asked(mode),
        threshold_amp: amp.greater(Quantity { bits: 0 }),
        threshold_snr: snr.greater(Quantity { bits: 0 }),
        levels,
        gates: s.gates,
        surfaces: first_surfaces(s.scans, s.scans.len() as int),
        candidates: Seq::empty(),
        tracks: Seq::empty(),
        counters: Map::empty(),
        inverted: false,
        inverted_reason: None,
        scans: s.scans,
    }
}

/// The state in which a bench starts: thresholds clipped below at zero, and
/// detection run; or why it cannot start.
pub open spec fn booted(s: SetupModel, calib_id: i64, mode: Seq<char>, amp: Quantity, snr: Quantity, levels: Seq<Quantity>) -> Result<WorldModel, Seq<char>> {
    if first_where(s.calibs, with_calib_id(calib_id)) is None {
        Err("unknown calibration "@ + crate::text::signed_digits(calib_id as int))
    } else {
        Ok(redetected(unexamined(s, calib_id, mode, amp, snr, levels)))
    }
}

pub(crate) proof fn lemma_first_surfaces(scans: Seq<ScanModel>, n: int)
    requires
        0 <= n <= scans.len(),
        forall|i: int| 0 <= i < scans.len() ==> -(i64::MAX / 4) <= (#[trigger] scans[i]).surface_sample <= i64::MAX / 4,
    ensures
        forall|id: i64| #[trigger] first_surfaces(scans, n).dom().contains(id) ==> -(i64::MAX / 4) <= first_surfaces(scans, n)[id] <= i64::MAX / 4,
    decreases n,
{
    if n > 0 {
        lemma_first_surfaces(scans, n - 1);
        let prior = first_surfaces(scans, n - 1);
        let last = scans[n - 1];
        assert forall|id: i64| #[trigger] first_surfaces(scans, n).dom().contains(id) implies -(i64::MAX / 4) <= first_surfaces(scans, n)[id] <= i64::MAX / 4 by {
            if id != last.id {
                assert(prior.dom().contains(id));
            }
        }
    }
}

/// The scan positions of a bench before any candidate is found.
fn build_scan_views(setups: Vec<ScanSetup>) -> (r: (Vec<ScanView>, BTreeMap<i64, i64>))
    ensures
        views(r.0@) == views(setups@),
        r.1@ == first_surfaces(views(setups@), setups@.len() as int),
{
    let ghost all = views(setups@);
    let mut rest: Vec<ScanSetup> = setups;
    let total: usize = rest.len();
    let mut done: usize = 0;
    let mut scans: Vec<ScanView> = Vec::new();
    let mut surfaces: BTreeMap<i64, i64> = BTreeMap::new();
    assert(all.skip(0) =~= all);
    assert(views(scans@) =~= all.take(0));
    while done < total
        invariant
            done <= total == all.len(),
            rest@.len() == total - done,
            views(rest@) == all.skip(done as int),
            views(scans@) == all.take(done as int),
            surfaces@ == first_surfaces(all, done as int),
        decreases total - done,
    {
        let ghost before = rest@;
        let ghost prior = scans@;
        let s: ScanSetup = rest.remove(0);
        proof {
            assert(views(before)[0] == all.skip(done as int)[0]);
            assert(s@ == all[done as int]);
            assert forall|i: int| 0 <= i < rest@.len() implies views(rest@)[i] == all.skip(done + 1)[i] by {
                assert(rest@[i] == before[i + 1]);
                assert(views(before)[i + 1] == all.skip(done as int)[i + 1]);
            }
            assert(views(rest@) =~= all.skip(done + 1));
        }
        surfaces.insert(s.id, s.surface_sample);
        let scan: ScanView = ScanView {
            id: s.id,
            x_mm: s.x_mm,
            y_mm: s.y_mm,
            recorded_surface_sample: s.recorded_surface_sample,
            surface_sample: s.surface_sample,
            noise_floor: s.noise_floor,
            trace: s.trace,
            x_gaps: s.x_gaps,
            distances: s.distances,
            candidates: Vec::new(),
        };
        scans.push(scan);
        proof {
            assert(scan@ =~= s@);
            assert(views(scans@) =~= views(prior).push(all[done as int]));
            assert(views(scans@) =~= all.take(done + 1));
        }
        done = done + 1;
    }
    assert(all.take(total as int) =~= all);
    (scans, surfaces)
}

/// Starts a bench.
pub fn boot(
    setup: Setup,
    calib_id: i64,
    mode: &str,
    threshold_amp: Quantity,
    threshold_snr: Quantity,
    levels: Vec<Quantity>,
) -> (r: Result<World, String>)
    requires
        setup@.valid(),
        levels_fit(levels@, setup@.scans.len() as int),
    ensures
        (match r {
            Ok(w) => {
                &&& booted(setup@, calib_id, mode@, threshold_amp, threshold_snr, levels@) == Ok::<WorldModel, Seq<char>>(w@)
                &&& w@.valid()
                &&& forall|id: i64| #[trigger] counter(w@.counters, id) <= w@.samples
            },
            Err(m) => booted(setup@, calib_id, mode@, threshold_amp, threshold_snr, levels@) == Err::<WorldModel, Seq<char>>(m@),
        }),
{
    let ghost s = setup@;
    if !knows_calib(&setup.calibs, calib_id) {
        return Err(join2("unknown calibration ", decimal_signed(calib_id).as_str()));
    }
    let snr_mode: bool = same_text(mode, "snr");
    let (scans, surfaces) = build_scan_views(setup.scans);
    let zero: Quantity = Quantity::from_bits(0);
    let mut world: World = World {
        samples: setup.samples,
        adc_max: setup.adc_max,
        calibs: setup.calibs,
        current_calib_id: calib_id,
        threshold_mode: if snr_mode {
            "snr".to_owned()
        } else {
            "amp".to_owned()
        },
        threshold_amp: threshold_amp.max_of(zero),
        threshold_snr: threshold_snr.max_of(zero),
        levels,
        gates: setup.gates,
        surfaces,
        candidates: Vec::new(),
        tracks: Vec::new(),
        counters: BTreeMap::new(),
        inverted: false,
        inverted_reason: None,
        scans,
    };
    proof {
        lemma_first_surfaces(s.scans, s.scans.len() as int);
        assert(world@ =~= unexamined(s, calib_id, mode@, threshold_amp, threshold_snr, levels@));
        assert(world@.valid());
    }
    rerun_detection(&mut world);
    Ok(world)
}

} // verus!
