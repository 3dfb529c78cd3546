//! Domain model: the adjudication state and the events that change it.

use std::collections::BTreeMap;

use vstd::prelude::*;

pub use crate::detection::{CandidateKind, SubPeak};
pub use crate::events::{apply, next_track_id};
pub use crate::setup::boot;

use crate::detection::Trace;
use crate::order::{views, Ranked};
use crate::quantity::Quantity;
use crate::text::text_at_most;

verus! {

/// Below this distance (1e-9, as a bit pattern) two lateral positions are the same.
pub const SAME_POSITION: u64 = 0x3e11_2e0b_e826_d695;

/// Up to this distance (5.0 + 1e-9 mm, as a bit pattern) two scan positions are
/// adjacent.
pub const ADJACENT_DISTANCE: u64 = 0x4014_0000_0011_2e0c;

/// Gate membership uses left-closed / right-open sample intervals [lo, hi).
#[derive(Clone, Debug)]
pub struct Gate {
    pub kind: String,
    pub lo: i64,
    pub hi: i64,
}

/// What a gate holds.
#[verifier::ext_equal]
pub struct GateModel {
    pub kind: Seq<char>,
    pub lo: i64,
    pub hi: i64,
}

impl View for Gate {
    type V = GateModel;

    open spec fn view(&self) -> GateModel {
        GateModel { kind: self.kind@, lo: self.lo, hi: self.hi }
    }
}

impl GateModel {
    /// Whether a sample lies in its interval.
    pub open spec fn holds(self, s: int) -> bool {
        self.lo <= s < self.hi
    }
}

impl Gate {
    /// Whether a sample lies in its interval.
    pub fn contains_sample(&self, s: i64) -> (r: bool)
        ensures
            r == self@.holds(s as int),
    {
        s >= self.lo && s < self.hi
    }
}

/// An operator's verdict on a candidate.
#[derive(Clone, Copy, PartialEq, Eq, Structural, Debug)]
pub enum Verdict {
    Scatter,
    Surface,
    Bottom,
    Overlap,
}

/// A candidate echo.
#[derive(Clone, Debug)]
pub struct Candidate {
    pub id: String,
    pub scan_id: i64,
    pub gate_kind: String,
    pub start: i64,
    pub end: i64,
    pub peak: i64,
    /// The peak amplitude in ADC counts.
    pub amplitude: Quantity,
    /// Whether the amplitude is only a lower bound.
    pub lower_bound: bool,
    pub kind: CandidateKind,
    pub sub_peaks: Vec<SubPeak>,
    pub verdict: Option<Verdict>,
    pub track_id: Option<i64>,
    /// `auto` or `split`.
    pub origin: String,
    /// How many samples behind the surface the peak arrived when the candidate was
    /// made; with the calibration of that moment this is its depth.
    pub depth_snapshot: Option<i64>,
    pub calib_id_snapshot: i64,
    pub locked: bool,
}

/// What a candidate holds.
#[verifier::ext_equal]
pub struct CandidateModel {
    pub id: Seq<char>,
    pub scan_id: i64,
    pub gate_kind: Seq<char>,
    pub start: int,
    pub end: int,
    pub peak: int,
    pub amplitude: Quantity,
    pub lower_bound: bool,
    pub kind: CandidateKind,
    pub sub_peaks: Seq<SubPeak>,
    pub verdict: Option<Verdict>,
    pub track_id: Option<i64>,
    pub origin: Seq<char>,
    pub depth_snapshot: Option<i64>,
    pub calib_id_snapshot: i64,
    pub locked: bool,
}

impl View for Candidate {
    type V = CandidateModel;

    open spec fn view(&self) -> CandidateModel {
        CandidateModel {
            id: self.id@,
            scan_id: self.scan_id,
            gate_kind: self.gate_kind@,
            start: self.start as int,
            end: self.end as int,
            peak: self.peak as int,
            amplitude: self.amplitude,
            lower_bound: self.lower_bound,
            kind: self.kind,
            sub_peaks: self.sub_peaks@,
            verdict: self.verdict,
            track_id: self.track_id,
            origin: self.origin@,
            depth_snapshot: self.depth_snapshot,
            calib_id_snapshot: self.calib_id_snapshot,
            locked: self.locked,
        }
    }
}

/// Candidates are sorted by scan, then by peak, then by id.
impl Ranked for Candidate {
    open spec fn ranks(a: CandidateModel, b: CandidateModel) -> bool {
        if a.scan_id != b.scan_id {
            a.scan_id < b.scan_id
        } else if a.peak != b.peak {
            a.peak < b.peak
        } else {
            crate::text::text_le(a.id, b.id)
        }
    }

    proof fn ranks_total(a: CandidateModel, b: CandidateModel) {
        crate::text::lemma_text_le_total(a.id, b.id);
    }

    proof fn ranks_transitive(a: CandidateModel, b: CandidateModel, c: CandidateModel) {
        if a.scan_id == b.scan_id && b.scan_id == c.scan_id && a.peak == b.peak && b.peak == c.peak {
            crate::text::lemma_text_le_transitive(a.id, b.id, c.id);
        }
    }

    fn ranks_no_higher(&self, other: &Candidate) -> (r: bool) {
        if self.scan_id != other.scan_id {
            self.scan_id < other.scan_id
        } else if self.peak != other.peak {
            self.peak < other.peak
        } else {
            text_at_most(self.id.as_str(), other.id.as_str())
        }
    }
}

/// A defect track: one candidate from each of several adjacent scan positions.
#[derive(Clone, Debug)]
pub struct Track {
    pub id: i64,
    pub candidate_ids: Vec<String>,
}

/// What a track holds.
#[verifier::ext_equal]
pub struct TrackModel {
    pub id: i64,
    pub candidate_ids: Seq<Seq<char>>,
}

impl View for Track {
    type V = TrackModel;

    open spec fn view(&self) -> TrackModel {
        TrackModel { id: self.id, candidate_ids: views(self.candidate_ids@) }
    }
}

/// A sound velocity and probe delay of the instrument.
#[derive(Clone, Copy, PartialEq, Eq, Structural, Debug)]
pub struct Calib {
    pub id: i64,
    pub velocity_ms: Quantity,
}

/// One scan position with its trace.
#[derive(Clone, Debug)]
pub struct ScanView {
    pub id: i64,
    pub x_mm: Quantity,
    pub y_mm: Quantity,
    pub recorded_surface_sample: i64,
    pub surface_sample: i64,
    pub noise_floor: Quantity,
    pub trace: Trace,
    /// How far, along x, every scan position lies from this one.
    pub x_gaps: Vec<Quantity>,
    /// How far every scan position lies from this one.
    pub distances: Vec<Quantity>,
    /// The ids of the candidates of this scan, in order.
    pub candidates: Vec<String>,
}

/// What a scan position holds.
#[verifier::ext_equal]
pub struct ScanModel {
    pub id: i64,
    pub x_mm: Quantity,
    pub y_mm: Quantity,
    pub recorded_surface_sample: i64,
    pub surface_sample: i64,
    pub noise_floor: Quantity,
    pub trace: Trace,
    pub x_gaps: Seq<Quantity>,
    pub distances: Seq<Quantity>,
    pub candidates: Seq<Seq<char>>,
}

impl View for ScanView {
    type V = ScanModel;

    open spec fn view(&self) -> ScanModel {
        ScanModel {
            id: self.id,
            x_mm: self.x_mm,
            y_mm: self.y_mm,
            recorded_surface_sample: self.recorded_surface_sample,
            surface_sample: self.surface_sample,
            noise_floor: self.noise_floor,
            trace: self.trace,
            x_gaps: self.x_gaps@,
            distances: self.distances@,
            candidates: views(self.candidates@),
        }
    }
}

/// An operation on the adjudication state. A threshold comes with the level that
/// it sets for each scan: the threshold itself brought to full scale in amplitude
/// mode, and multiplied with the noise floor of the scan in SNR mode.
#[derive(Clone, Debug)]
pub enum Event {
    Bootstrap {
        calib_id: i64,
        mode: String,
        threshold_amp: Quantity,
        threshold_snr: Quantity,
        /// The levels of the threshold of the mode, clipped below at zero.
        levels: Vec<Quantity>,
    },
    SurfaceCorrected { scan_id: i64, sample: i64 },
    ThresholdChanged { mode: String, value: Quantity, levels: Vec<Quantity> },
    GateMoved { kind: String, lo: i64, hi: i64 },
    CandidateSplit { parent_id: String, cut: i64 },
    CandidateVerdict { candidate_id: String, verdict: Verdict },
    TrackGrouped { track_id: i64, candidate_ids: Vec<String> },
    CalibrationSwitched { calib_id: i64 },
}

/// What an event holds.
#[verifier::ext_equal]
pub enum EventModel {
    Bootstrap {
        calib_id: i64,
        mode: Seq<char>,
        threshold_amp: Quantity,
        threshold_snr: Quantity,
        levels: Seq<Quantity>,
    },
    SurfaceCorrected { scan_id: i64, sample: i64 },
    ThresholdChanged { mode: Seq<char>, value: Quantity, levels: Seq<Quantity> },
    GateMoved { kind: Seq<char>, lo: i64, hi: i64 },
    CandidateSplit { parent_id: Seq<char>, cut: i64 },
    CandidateVerdict { candidate_id: Seq<char>, verdict: Verdict },
    TrackGrouped { track_id: i64, candidate_ids: Seq<Seq<char>> },
    CalibrationSwitched { calib_id: i64 },
}

impl View for Event {
    type V = EventModel;

    open spec fn view(&self) -> EventModel {
        match *self {
            Event::Bootstrap { calib_id, mode, threshold_amp, threshold_snr, levels } => EventModel::Bootstrap {
                calib_id,
                mode: mode@,
                threshold_amp,
                threshold_snr,
                levels: levels@,
            },
            Event::SurfaceCorrected { scan_id, sample } => EventModel::SurfaceCorrected { scan_id, sample },
            Event::ThresholdChanged { mode, value, levels } => EventModel::ThresholdChanged {
                mode: mode@,
                value,
                levels: levels@,
            },
            Event::GateMoved { kind, lo, hi } => EventModel::GateMoved { kind: kind@, lo, hi },
            Event::CandidateSplit { parent_id, cut } => EventModel::CandidateSplit { parent_id: parent_id@, cut },
            Event::CandidateVerdict { candidate_id, verdict } => EventModel::CandidateVerdict {
                candidate_id: candidate_id@,
                verdict,
            },
            Event::TrackGrouped { track_id, candidate_ids } => EventModel::TrackGrouped {
                track_id,
                candidate_ids: views(candidate_ids@),
            },
            Event::CalibrationSwitched { calib_id } => EventModel::CalibrationSwitched { calib_id },
        }
    }
}

/// An event as it stands in the log.
#[derive(Clone, Debug)]
pub struct EventRecord {
    pub seq: i64,
    pub at_rfc3339: String,
    pub note: Option<String>,
    pub event: Event,
}

/// The adjudication state.
#[derive(Clone, Debug)]
pub struct World {
    /// The number of samples of every trace.
    pub samples: usize,
    /// The upper rail of the ADC.
    pub adc_max: i16,
    pub calibs: Vec<Calib>,
    pub current_calib_id: i64,
    /// `amp` or `snr`.
    pub threshold_mode: String,
    pub threshold_amp: Quantity,
    pub threshold_snr: Quantity,
    /// The level that the threshold in force sets for each scan.
    pub levels: Vec<Quantity>,
    pub gates: Vec<Gate>,
    /// The surface arrival of each scan.
    pub surfaces: BTreeMap<i64, i64>,
    pub candidates: Vec<Candidate>,
    pub tracks: Vec<Track>,
    /// How many candidates each scan has had.
    pub counters: BTreeMap<i64, i64>,
    pub inverted: bool,
    pub inverted_reason: Option<String>,
    pub scans: Vec<ScanView>,
}

/// What the adjudication state holds.
#[verifier::ext_equal]
pub struct WorldModel {
    pub samples: usize,
    pub adc_max: i16,
    pub calibs: Seq<Calib>,
    pub current_calib_id: i64,
    pub threshold_mode: Seq<char>,
    pub threshold_amp: Quantity,
    pub threshold_snr: Quantity,
    pub levels: Seq<Quantity>,
    pub gates: Seq<GateModel>,
    pub surfaces: Map<i64, i64>,
    pub candidates: Seq<CandidateModel>,
    pub tracks: Seq<TrackModel>,
    pub counters: Map<i64, i64>,
    pub inverted: bool,
    pub inverted_reason: Option<Seq<char>>,
    pub scans: Seq<ScanModel>,
}

/// The text of an optional string.
pub open spec fn opt_text(o: Option<String>) -> Option<Seq<char>> {
    match o {
        Some(s) => Some(s@),
        None => None,
    }
}

impl View for World {
    type V = WorldModel;

    open spec fn view(&self) -> WorldModel {
        WorldModel {
            samples: self.samples,
            adc_max: self.adc_max,
            calibs: self.calibs@,
            current_calib_id: self.current_calib_id,
            threshold_mode: self.threshold_mode@,
            threshold_amp: self.threshold_amp,
            threshold_snr: self.threshold_snr,
            levels: self.levels@,
            gates: views(self.gates@),
            surfaces: self.surfaces@,
            candidates: views(self.candidates@),
            tracks: views(self.tracks@),
            counters: self.counters@,
            inverted: self.inverted,
            inverted_reason: opt_text(self.inverted_reason),
            scans: views(self.scans@),
        }
    }
}

} // verus!
