//! Candidate adjudication on one recorded waveform.

use vstd::prelude::*;

use crate::detection::{lemma_run_end, run_end};
use crate::order::{
    lemma_sorted_all, sort_ranked, sorted, sorting_orders_and_keeps_every_item, views, Ranked,
};
use crate::quantity::{Quantity, INFINITE};
use crate::seqs::{first_where, lemma_first_found, lemma_none_found};
use crate::text::{decimal, digits, join3, join4, same_text};

verus! {

/// The amplitude (1.0 - 1e-9, as a bit pattern) from which on a sample counts as
/// clipped by the instrument.
pub const SATURATION: u64 = 0x3fef_ffff_ff76_8fa1;

/// Prominent peak fraction (0.45, as a bit pattern): carrier-ripple lobes stay
/// close to the region maximum, while genuine unresolved echoes form a valley well
/// below that.
pub const PROMINENCE: u64 = 0x3fdc_cccc_cccc_cccd;

/// Two peaks are only treated as distinct when the valley between them drops below
/// this fraction (0.85, as a bit pattern) of the lower peak.
pub const VALLEY: u64 = 0x3feb_3333_3333_3333;

/// Half the width, in samples, of the moving average that suppresses residual
/// carrier ripple on the detection envelope.
pub const HALF_WINDOW: usize = 9;

/// How the detection level is set.
#[derive(Clone, Copy, PartialEq, Eq, Structural, Debug)]
pub enum ThresholdMode {
    Amplitude,
    Snr,
}

impl ThresholdMode {
    /// The name of a mode.
    pub open spec fn name(self) -> Seq<char> {
        match self {
            ThresholdMode::Amplitude => "amplitude"@,
            ThresholdMode::Snr => "snr"@,
        }
    }

    /// The name of the mode.
    pub fn as_str(self) -> (r: &'static str)
        ensures
            r@ == self.name(),
    {
        match self {
            ThresholdMode::Amplitude => "amplitude",
            ThresholdMode::Snr => "snr",
        }
    }

    /// The mode that `s` names.
    pub fn parse(s: &str) -> (r: Option<ThresholdMode>)
        ensures
            (match r {
                Some(m) => s@ == m.name(),
                None => s@ != ThresholdMode::Amplitude.name() && s@ != ThresholdMode::Snr.name(),
            }),
    {
        if same_text(s, "amplitude") {
            Some(ThresholdMode::Amplitude)
        } else if same_text(s, "snr") {
            Some(ThresholdMode::Snr)
        } else {
            None
        }
    }
}

/// The settings of an analysis.
#[derive(Clone, Copy, Debug)]
pub struct AnalConfig {
    pub velocity_m_s: Quantity,
    pub probe_delay_ns: Quantity,
    pub sample_interval_ns: Quantity,
    pub min_resolvable_ns: Quantity,
    pub threshold_mode: ThresholdMode,
    pub amp_threshold: Quantity,
    pub snr_threshold: Quantity,
    pub noise_window: [usize; 2],
}

/// A gate.
#[derive(Clone, Debug)]
pub struct Gate {
    pub id: String,
    pub label: String,
    pub start: usize,
    pub end: usize,
    pub role: String,
}

impl Gate {
    /// Whether a sample lies in its interval.
    pub open spec fn holds(&self, sample: int) -> bool {
        self.start <= sample < self.end
    }

    /// Gates are left-closed / right-open: `start <= sample < end`.
    pub fn contains(&self, sample: usize) -> (r: bool)
        ensures
            r == self.holds(sample as int),
    {
        sample >= self.start && sample < self.end
    }
}

/// A recorded waveform and what was computed from it, sample by sample.
#[derive(Clone, Debug)]
pub struct Record {
    /// The samples.
    pub wave: Vec<Quantity>,
    /// The magnitude envelope.
    pub env: Vec<Quantity>,
    /// The moving average of the envelope that detection looks at.
    pub smooth: Vec<Quantity>,
    /// The envelope divided by the noise RMS; not a number where there is no noise.
    pub snr: Vec<Quantity>,
    /// `PROMINENCE` of the envelope.
    pub prominence: Vec<Quantity>,
    /// `VALLEY` of the envelope.
    pub valley: Vec<Quantity>,
    /// The time of each sample.
    pub time_ns: Vec<Quantity>,
    /// The absolute range of each sample from the probe face.
    pub range_mm: Vec<Quantity>,
    /// The range of each sample behind the surface.
    pub depth_mm: Vec<Quantity>,
    /// The noise RMS inside the noise window.
    pub noise_rms: Quantity,
    /// The SNR threshold multiplied with the noise RMS.
    pub snr_level: Quantity,
    /// The smallest resolvable separation, in samples.
    pub min_sep_samples: usize,
    /// The arrival of the surface.
    pub surface_sample: usize,
    /// The time of the surface arrival.
    pub surface_time_ns: Quantity,
}

impl Record {
    /// Every table has an entry for each sample, there is at least one sample, and
    /// detection looks at numbers.
    pub open spec fn valid(&self) -> bool {
        let n = self.wave@.len();
        &&& n > 0
        &&& self.env@.len() == n
        &&& self.smooth@.len() == n
        &&& self.snr@.len() == n
        &&& self.prominence@.len() == n
        &&& self.valley@.len() == n
        &&& self.time_ns@.len() == n
        &&& self.range_mm@.len() == n
        &&& self.depth_mm@.len() == n
        &&& forall|i: int| 0 <= i < n ==> !(#[trigger] self.smooth@[i]).not_a_number()
    }

    /// The number of samples.
    pub open spec fn size(&self) -> int {
        self.wave@.len() as int
    }
}

/// A peak inside a candidate.
#[derive(Clone, Copy, PartialEq, Eq, Structural, Debug)]
pub struct MemberPeak {
    pub peak_sample: usize,
    pub amp: Quantity,
    pub snr: Quantity,
}

/// A candidate echo.
#[derive(Clone, Debug)]
pub struct Candidate {
    pub key: String,
    pub gate_id: Option<String>,
    pub start_sample: usize,
    pub end_sample: usize,
    pub peak_sample: usize,
    pub amp: Quantity,
    pub snr: Quantity,
    pub saturated: bool,
    pub composite: bool,
    pub members: Vec<MemberPeak>,
    pub manual_split: bool,
    pub parent_key: Option<String>,
    pub range_mm: Quantity,
    pub depth_mm: Option<Quantity>,
    pub time_ns: Quantity,
    /// Depth-conversion version frozen onto this candidate (and its decision snapshot).
    pub velocity_m_s: Quantity,
    pub probe_delay_ns: Quantity,
    pub verdict: Option<String>,
    pub note: String,
    pub orphaned: bool,
    /// Velocity/probe-delay version captured in the stored decision snapshot
    /// (None for a live candidate without a recorded conclusion).
    pub snapshot_velocity_m_s: Option<Quantity>,
    pub snapshot_probe_delay_ns: Option<Quantity>,
}

/// What a candidate holds.
#[verifier::ext_equal]
pub struct CandidateModel {
    pub key: Seq<char>,
    pub gate_id: Option<Seq<char>>,
    pub start_sample: int,
    pub end_sample: int,
    pub peak_sample: int,
    pub amp: Quantity,
    pub snr: Quantity,
    pub saturated: bool,
    pub composite: bool,
    pub members: Seq<MemberPeak>,
    pub manual_split: bool,
    pub parent_key: Option<Seq<char>>,
    pub range_mm: Quantity,
    pub depth_mm: Option<Quantity>,
    pub time_ns: Quantity,
    pub velocity_m_s: Quantity,
    pub probe_delay_ns: Quantity,
    pub verdict: Option<Seq<char>>,
    pub note: Seq<char>,
    pub orphaned: bool,
    pub snapshot_velocity_m_s: Option<Quantity>,
    pub snapshot_probe_delay_ns: Option<Quantity>,
}

impl View for Candidate {
    type V = CandidateModel;

    open spec fn view(&self) -> CandidateModel {
        CandidateModel {
            key: self.key@,
            gate_id: crate::model::opt_text(self.gate_id),
            start_sample: self.start_sample as int,
            end_sample: self.end_sample as int,
            peak_sample: self.peak_sample as int,
            amp: self.amp,
            snr: self.snr,
            saturated: self.saturated,
            composite: self.composite,
            members: self.members@,
            manual_split: self.manual_split,
            parent_key: crate::model::opt_text(self.parent_key),
            range_mm: self.range_mm,
            depth_mm: self.depth_mm,
            time_ns: self.time_ns,
            velocity_m_s: self.velocity_m_s,
            probe_delay_ns: self.probe_delay_ns,
            verdict: crate::model::opt_text(self.verdict),
            note: self.note@,
            orphaned: self.orphaned,
            snapshot_velocity_m_s: self.snapshot_velocity_m_s,
            snapshot_probe_delay_ns: self.snapshot_probe_delay_ns,
        }
    }
}

/// Candidates are sorted by peak.
impl Ranked for Candidate {
    open spec fn ranks(a: CandidateModel, b: CandidateModel) -> bool {
        a.peak_sample <= b.peak_sample
    }

    proof fn ranks_total(a: CandidateModel, b: CandidateModel) {
    }

    proof fn ranks_transitive(a: CandidateModel, b: CandidateModel, c: CandidateModel) {
    }

    fn ranks_no_higher(&self, other: &Candidate) -> (r: bool) {
        self.peak_sample <= other.peak_sample
    }
}

/// Samples are sorted by their number.
impl Ranked for usize {
    open spec fn ranks(a: usize, b: usize) -> bool {
        a <= b
    }

    proof fn ranks_total(a: usize, b: usize) {
    }

    proof fn ranks_transitive(a: usize, b: usize, c: usize) {
    }

    fn ranks_no_higher(&self, other: &usize) -> (r: bool) {
        *self <= *other
    }
}

/// A manual split of a candidate.
#[derive(Clone, Debug)]
pub struct Split {
    pub parent_key: String,
    pub cuts: Vec<usize>,
}

/// What a split holds.
#[verifier::ext_equal]
pub struct SplitModel {
    pub parent_key: Seq<char>,
    pub cuts: Seq<usize>,
}

impl View for Split {
    type V = SplitModel;

    open spec fn view(&self) -> SplitModel {
        SplitModel { parent_key: self.parent_key@, cuts: self.cuts@ }
    }
}

/// What an analysis finds.
#[derive(Clone, Debug)]
pub struct Analysis {
    pub noise_rms: Quantity,
    pub threshold_value: Quantity,
    pub threshold_mode: String,
    pub surface_sample: usize,
    pub surface_time_ns: Quantity,
    pub error: Option<String>,
    pub candidates: Vec<Candidate>,
}

// ---------------------------------------------------------------- windows

/// Whether a sample is no more than nine samples away from another.
pub open spec fn is_near(i: int, k: int) -> bool {
    -9 <= k - i <= 9
}

/// The samples that the moving average at sample `i` of `n` takes in: `HALF_WINDOW`
/// on either side, as far as there are any.
pub fn smoothing_window(i: usize, n: usize) -> (r: (usize, usize))
    requires
        i < n,
    ensures
        r.0 <= i < r.1 <= n,
        forall|k: int| 0 <= k < n ==> (#[trigger] is_near(i as int, k) <==> r.0 <= k < r.1),
        r.0 == (if i >= HALF_WINDOW {
            i - HALF_WINDOW
        } else {
            0
        }),
        r.1 == (if i + HALF_WINDOW + 1 <= n {
            i + HALF_WINDOW + 1
        } else {
            n as int
        }),
{
    let lo: usize = if i >= HALF_WINDOW {
        i - HALF_WINDOW
    } else {
        0
    };
    let hi: usize = if n - i > HALF_WINDOW {
        i + (HALF_WINDOW + 1)
    } else {
        n
    };
    (lo, hi)
}

/// The samples of a record of `n` that the noise window takes in, if any.
pub fn noise_span(window: [usize; 2], n: usize) -> (r: Option<(usize, usize)>)
    ensures
        r is Some <==> window@[0] < window@[1] && window@[0] < n,
        r matches Some(span) ==> span.0 == window@[0] && span.1 <= window@[1] && span.1 <= n && (span.1 == window@[1]
            || span.1 == n),
        ({
            let lo = if window@[0] < n {
                window@[0]
            } else {
                n
            };
            let hi = if window@[1] < n {
                window@[1]
            } else {
                n
            };
            r == (if hi > lo {
                Some((lo, hi))
            } else {
                None
            })
        }),
{
    let lo: usize = if window[0] < n {
        window[0]
    } else {
        n
    };
    let hi: usize = if window[1] < n {
        window[1]
    } else {
        n
    };
    if hi > lo {
        Some((lo, hi))
    } else {
        None
    }
}

// ---------------------------------------------------------------- candidates

pub open spec fn gate_holding(sample: int) -> spec_fn(Gate) -> bool {
    |g: Gate| g.holds(sample)
}

/// The id of the first gate that holds a sample.
pub open spec fn assigned_gate(gates: Seq<Gate>, peak: int) -> Option<Seq<char>> {
    match first_where(gates, gate_holding(peak)) {
        Some(i) => Some(gates[i].id@),
        None => None,
    }
}

/// Whether a sample was clipped by the instrument.
pub open spec fn is_saturated(v: Quantity) -> bool {
    (Quantity { bits: SATURATION }).le(v.absolute())
}

/// Whether a sample from `start` up to, but not including, `end` was clipped.
pub open spec fn saturated_within(wave: Seq<Quantity>, start: int, end: int) -> bool {
    exists|k: int| start <= k < end && is_saturated(#[trigger] wave[k])
}

/// The end of the samples that decide whether a candidate is saturated: the sample
/// behind its interval counts too, where there is one.
pub open spec fn saturation_end(end: int, n: int) -> int {
    if end < n {
        end + 1
    } else {
        n
    }
}

/// The candidate with the given key, interval and peak.
pub open spec fn made(
    key: Seq<char>,
    start: int,
    end: int,
    peak: int,
    r: Record,
    gates: Seq<Gate>,
    cfg: AnalConfig,
    composite: bool,
    members: Seq<MemberPeak>,
    depth: Option<Seq<Quantity>>,
    parent_key: Option<Seq<char>>,
) -> CandidateModel {
    CandidateModel {
        key,
        gate_id: assigned_gate(gates, peak),
        start_sample: start,
        end_sample: end,
        peak_sample: peak,
        amp: r.env@[peak],
        snr: r.snr@[peak],
        saturated: saturated_within(r.wave@, start, saturation_end(end, r.size())),
        composite,
        members,
        manual_split: parent_key is Some,
        parent_key,
        range_mm: r.range_mm@[peak],
        depth_mm: if let Some(d) = depth {
            Some(d[peak])
        } else {
            None
        },
        time_ns: r.time_ns@[peak],
        velocity_m_s: cfg.velocity_m_s,
        probe_delay_ns: cfg.probe_delay_ns,
        verdict: None,
        note: Seq::empty(),
        orphaned: false,
        snapshot_velocity_m_s: None,
        snapshot_probe_delay_ns: None,
    }
}

/// The id of the first gate that holds a sample.
pub fn assign_gate(gates: &Vec<Gate>, peak: usize) -> (r: Option<String>)
    ensures
        crate::model::opt_text(r) == assigned_gate(gates@, peak as int),
{
    let ghost p = gate_holding(peak as int);
    let mut i: usize = 0;
    while i < gates.len()
        invariant
            i <= gates@.len(),
            p == gate_holding(peak as int),
            forall|j: int| 0 <= j < i ==> !p(#[trigger] gates@[j]),
        decreases gates@.len() - i,
    {
        if gates[i].contains(peak) {
            proof {
                assert(p(gates@[i as int]));
                lemma_first_found(gates@, p, i as int);
            }
            return Some(gates[i].id.clone());
        }
        assert(!p(gates@[i as int]));
        i = i + 1;
    }
    proof {
        lemma_none_found(gates@, p);
    }
    None
}

fn any_saturated(wave: &Vec<Quantity>, start: usize, end: usize) -> (r: bool)
    requires
        start <= end <= wave@.len(),
    ensures
        r == saturated_within(wave@, start as int, end as int),
{
    let mut k: usize = start;
    while k < end
        invariant
            start <= k <= end <= wave@.len(),
            forall|j: int| start <= j < k ==> !is_saturated(#[trigger] wave@[j]),
        decreases end - k,
    {
        if Quantity::from_bits(SATURATION).is_at_most(wave[k].unsigned()) {
            assert(is_saturated(wave@[k as int]));
            return true;
        }
        k = k + 1;
    }
    false
}

fn make_candidate(
    key: String,
    start: usize,
    end: usize,
    peak: usize,
    r: &Record,
    gates: &Vec<Gate>,
    cfg: &AnalConfig,
    composite: bool,
    members: Vec<MemberPeak>,
    depth: Option<&Vec<Quantity>>,
    parent_key: Option<String>,
) -> (c: Candidate)
    requires
        r.valid(),
        start <= peak < end <= r.size(),
        depth matches Some(d) ==> d@.len() == r.size(),
    ensures
        c@ == made(
            key@,
            start as int,
            end as int,
            peak as int,
            *r,
            gates@,
            *cfg,
            composite,
            members@,
            if let Some(d) = depth {
                Some(d@)
            } else {
                None
            },
            crate::model::opt_text(parent_key),
        ),
{
    let n: usize = r.wave.len();
    let last: usize = if end < n {
        end + 1
    } else {
        n
    };
    let saturated: bool = any_saturated(&r.wave, start, last);
    let manual_split: bool = parent_key.is_some();
    Candidate {
        key,
        gate_id: assign_gate(gates, peak),
        start_sample: start,
        end_sample: end,
        peak_sample: peak,
        amp: r.env[peak],
        snr: r.snr[peak],
        saturated,
        composite,
        members,
        manual_split,
        parent_key,
        range_mm: r.range_mm[peak],
        depth_mm: match depth {
            Some(d) => Some(d[peak]),
            None => None,
        },
        time_ns: r.time_ns[peak],
        velocity_m_s: cfg.velocity_m_s,
        probe_delay_ns: cfg.probe_delay_ns,
        verdict: None,
        note: String::new(),
        orphaned: false,
        snapshot_velocity_m_s: None,
        snapshot_probe_delay_ns: None,
    }
}

impl Candidate {
    /// Attaches a verdict and a note, and marks whether the conclusion is orphaned
    /// where that is given.
    pub fn serde_attach(&mut self, verdict: String, note: String, orphaned: Option<bool>)
        ensures
            final(self)@ == (CandidateModel {
                verdict: Some(verdict@),
                note: note@,
                orphaned: (if let Some(o) = orphaned {
                    o
                } else {
                    old(self).orphaned
                }),
                ..old(self)@
            }),
    {
        self.verdict = Some(verdict);
        self.note = note;
        if let Some(o) = orphaned {
            self.orphaned = o;
        }
    }
}

// ---------------------------------------------------------------- splitting

/// An ascending sequence without repetition, with `x` in it.
pub open spec fn with_point(s: Seq<usize>, x: usize) -> Seq<usize>
    decreases s.len(),
{
    if s.len() == 0 || s.last() < x {
        s.push(x)
    } else if s.last() == x {
        s
    } else {
        with_point(s.drop_last(), x).push(s.last())
    }
}

/// The lower bounds of the parts into which the first `n` cuts divide the interval
/// from `start` to `end`, ascending; cuts that do not lie strictly inside count for
/// nothing.
pub open spec fn lower_bounds(cuts: Seq<usize>, start: usize, end: usize, n: int) -> Seq<usize>
    decreases n,
{
    if n <= 0 {
        seq![start]
    } else {
        let rest = lower_bounds(cuts, start, end, n - 1);
        if start < cuts[n - 1] < end {
            with_point(rest, cuts[n - 1])
        } else {
            rest
        }
    }
}

/// All bounds: the lower ones, and the end of the interval.
pub open spec fn bounds(cuts: Seq<usize>, start: usize, end: usize) -> Seq<usize> {
    lower_bounds(cuts, start, end, cuts.len() as int).push(end)
}

/// The last of the highest samples, in the total order, from `start` to `end`.
pub open spec fn range_top(env: Seq<Quantity>, start: int, end: int) -> int
    decreases end - start,
{
    if end <= start + 1 {
        start
    } else {
        let t = range_top(env, start, end - 1);
        if env[end - 1].total_place() >= env[t].total_place() {
            end - 1
        } else {
            t
        }
    }
}

/// The parts of a split candidate up to the `n`-th bound.
pub open spec fn parts(
    parent: CandidateModel,
    b: Seq<usize>,
    r: Record,
    gates: Seq<Gate>,
    cfg: AnalConfig,
    depth: Option<Seq<Quantity>>,
    n: int,
) -> Seq<CandidateModel>
    decreases n,
{
    if n <= 0 {
        Seq::empty()
    } else {
        let rest = parts(parent, b, r, gates, cfg, depth, n - 1);
        let (s, e) = (b[n - 1] as int, b[n] as int);
        if e <= s {
            rest
        } else {
            rest.push(
                made(
                    parent.key + "#s"@ + digits(n as nat),
                    s,
                    e,
                    range_top(r.env@, s, e),
                    r,
                    gates,
                    cfg,
                    false,
                    Seq::empty(),
                    depth,
                    Some(parent.key),
                ),
            )
        }
    }
}

/// What a candidate is split into at the given cuts.
pub open spec fn split_parts(
    parent: CandidateModel,
    cuts: Seq<usize>,
    r: Record,
    gates: Seq<Gate>,
    cfg: AnalConfig,
    depth: Option<Seq<Quantity>>,
) -> Seq<CandidateModel> {
    let b = bounds(cuts, parent.start_sample as usize, parent.end_sample as usize);
    parts(parent, b, r, gates, cfg, depth, b.len() - 1)
}

/// Whether every part of an ascending sequence lies from `lo` on, below `hi`.
pub open spec fn climbs(s: Seq<usize>, lo: int, hi: int) -> bool {
    &&& forall|i: int| 0 <= i < s.len() ==> lo <= #[trigger] s[i] < hi
    &&& forall|i: int, j: int| 0 <= i < j < s.len() ==> #[trigger] s[i] < #[trigger] s[j]
}

pub(crate) proof fn lemma_with_point(s: Seq<usize>, x: usize, lo: int, hi: int)
    requires
        climbs(s, lo, hi),
        lo <= x < hi,
    ensures
        climbs(with_point(s, x), lo, hi),
        with_point(s, x).len() >= s.len(),
        forall|y: usize| #[trigger] with_point(s, x).contains(y) <==> s.contains(y) || y == x,
    decreases s.len(),
{
    if s.len() == 0 || s.last() < x {
        assert forall|y: usize| #[trigger] s.push(x).contains(y) <==> s.contains(y) || y == x by {
            if s.contains(y) {
                let k = choose|k: int| 0 <= k < s.len() && s[k] == y;
                assert(s.push(x)[k] == y);
            }
            if y == x {
                assert(s.push(x)[s.len() as int] == x);
            }
            if s.push(x).contains(y) && y != x {
                let k = choose|k: int| 0 <= k < s.push(x).len() && s.push(x)[k] == y;
                assert(s[k] == y);
            }
        }
    } else if s.last() == x {
        assert(s[s.len() - 1] == x);
    } else {
        let front = s.drop_last();
        assert forall|i: int| 0 <= i < front.len() implies lo <= #[trigger] front[i] < s.last() by {
            assert(s[i] < s[s.len() - 1]);
        }
        lemma_with_point(front, x, lo, s.last() as int);
        let inner = with_point(front, x);
        let out = inner.push(s.last());
        assert forall|y: usize| #[trigger] out.contains(y) <==> s.contains(y) || y == x by {
            if s.contains(y) {
                let k = choose|k: int| 0 <= k < s.len() && s[k] == y;
                if k < front.len() {
                    assert(front[k] == y);
                    assert(inner.contains(y));
                    let m = choose|m: int| 0 <= m < inner.len() && inner[m] == y;
                    assert(out[m] == y);
                } else {
                    assert(out[inner.len() as int] == y);
                }
            }
            if y == x {
                assert(inner.contains(y));
                let m = choose|m: int| 0 <= m < inner.len() && inner[m] == y;
                assert(out[m] == y);
            }
            if out.contains(y) && y != x {
                let m = choose|m: int| 0 <= m < out.len() && out[m] == y;
                if m < inner.len() {
                    assert(inner[m] == y);
                    assert(inner.contains(y));
                    let k = choose|k: int| 0 <= k < front.len() && front[k] == y;
                    assert(s[k] == y);
                } else {
                    assert(s[s.len() - 1] == y);
                }
            }
        }
    }
}

pub(crate) proof fn lemma_lower_bounds(cuts: Seq<usize>, start: usize, end: usize, n: int)
    requires
        0 <= n <= cuts.len(),
        start < end,
    ensures
        climbs(lower_bounds(cuts, start, end, n), start as int, end as int),
        lower_bounds(cuts, start, end, n).len() >= 1,
    decreases n,
{
    if n > 0 {
        lemma_lower_bounds(cuts, start, end, n - 1);
        if start < cuts[n - 1] < end {
            lemma_with_point(lower_bounds(cuts, start, end, n - 1), cuts[n - 1], start as int, end as int);
        }
    }
}

/// Puts `x` into an ascending sequence without repetition.
fn put_point(s: &mut Vec<usize>, x: usize)
    ensures
        final(s)@ == with_point(old(s)@, x),
{
    let ghost s0 = s@;
    let mut p: usize = s.len();
    proof {
        assert(s0.take(p as int) =~= s0);
        assert(with_point(s0, x) =~= with_point(s0.take(p as int), x) + s0.skip(p as int));
    }
    while p > 0 && s[p - 1] > x
        invariant
            p <= s@.len(),
            s@ == s0,
            with_point(s0, x) == with_point(s0.take(p as int), x) + s0.skip(p as int),
        decreases p,
    {
        proof {
            let t = s0.take(p as int);
            assert(t.last() == s0[p - 1]);
            assert(t.drop_last() =~= s0.take(p - 1));
            assert(with_point(t, x) == with_point(t.drop_last(), x).push(t.last()));
            assert(with_point(t.drop_last(), x).push(t.last()) + s0.skip(p as int) =~= with_point(t.drop_last(), x) + s0.skip(p - 1));
        }
        p = p - 1;
    }
    let ghost t = s0.take(p as int);
    if p > 0 && s[p - 1] == x {
        assert(t.last() == x);
        assert(t + s0.skip(p as int) =~= s0);
    } else {
        s.insert(p, x);
        proof {
            if p > 0 {
                assert(t.last() == s0[p - 1]);
            }
            assert(s@ =~= t.push(x) + s0.skip(p as int));
        }
    }
}

fn find_range_top(env: &Vec<Quantity>, start: usize, end: usize) -> (r: usize)
    requires
        start < end <= env@.len(),
    ensures
        r == range_top(env@, start as int, end as int),
        start <= r < end,
{
    let mut t: usize = start;
    let mut k: usize = start + 1;
    while k < end
        invariant
            start <= t < k <= end <= env@.len(),
            t == range_top(env@, start as int, k as int),
        decreases end - k,
    {
        if !env[k].is_totally_below(env[t]) {
            t = k;
        }
        k = k + 1;
    }
    t
}

/// Split a wide (composite) candidate at integer boundaries. `cuts` are the
/// right-open inner boundaries; the parent span is reused as outer bounds.
pub fn split_candidate(
    parent: &Candidate,
    cuts: &Vec<usize>,
    r: &Record,
    gates: &Vec<Gate>,
    cfg: &AnalConfig,
    depth: Option<&Vec<Quantity>>,
) -> (out: Vec<Candidate>)
    requires
        r.valid(),
        parent.start_sample < parent.end_sample ==> parent.end_sample <= r.size(),
        depth matches Some(d) ==> d@.len() == r.size(),
    ensures
        views(out@) == split_parts(
            parent@,
            cuts@,
            *r,
            gates@,
            *cfg,
            if let Some(d) = depth {
                Some(d@)
            } else {
                None
            },
        ),
{
    let start: usize = parent.start_sample;
    let end: usize = parent.end_sample;
    let ghost dv: Option<Seq<Quantity>> = if let Some(d) = depth {
        Some(d@)
    } else {
        None
    };
    let mut b: Vec<usize> = Vec::new();
    b.push(start);
    let mut k: usize = 0;
    assert(b@ =~= lower_bounds(cuts@, start, end, 0));
    while k < cuts.len()
        invariant
            k <= cuts@.len(),
            b@ == lower_bounds(cuts@, start, end, k as int),
        decreases cuts@.len() - k,
    {
        if cuts[k] > start && cuts[k] < end {
            put_point(&mut b, cuts[k]);
        }
        k = k + 1;
    }
    let ghost inner = b@;
    proof {
        if start < end {
            lemma_lower_bounds(cuts@, start, end, cuts@.len() as int);
        } else {
            lemma_no_cuts(cuts@, start, end, cuts@.len() as int);
        }
    }
    b.push(end);
    let ghost bs = b@;
    assert(bs == bounds(cuts@, start, end));
    let mut out: Vec<Candidate> = Vec::new();
    let mut i: usize = 0;
    assert(views(out@) =~= parts(parent@, bs, *r, gates@, *cfg, dv, 0));
    while i < b.len() - 1
        invariant
            r.valid(),
            depth matches Some(d) ==> d@.len() == r.size(),
            dv == (if let Some(d) = depth {
                Some(d@)
            } else {
                None
            }),
            b@ == bs,
            bs.len() >= 2,
            bs == inner.push(end),
            start == parent.start_sample,
            end == parent.end_sample,
            start < end ==> end <= r.size(),
            start < end ==> climbs(inner, start as int, end as int),
            start >= end ==> inner =~= seq![start],
            i <= b@.len() - 1,
            views(out@) == parts(parent@, bs, *r, gates@, *cfg, dv, i as int),
        decreases b@.len() - i,
    {
        let s: usize = b[i];
        let e: usize = b[i + 1];
        assert(s == inner[i as int]);
        if e > s {
            assert(start < end);
            assert(e <= end) by {
                if i + 1 < inner.len() {
                    assert(e == inner[i + 1]);
                }
            }
            let peak: usize = find_range_top(&r.env, s, e);
            let key: String = join3(parent.key.as_str(), "#s", decimal(i as u64 + 1).as_str());
            let ghost prior = out@;
            let part: Candidate = make_candidate(
                key,
                s,
                e,
                peak,
                r,
                gates,
                cfg,
                false,
                Vec::new(),
                depth,
                Some(parent.key.clone()),
            );
            out.push(part);
            proof {
                assert(views(out@) =~= views(prior).push(part@));
            }
        }
        i = i + 1;
    }
    out
}

proof fn lemma_no_cuts(cuts: Seq<usize>, start: usize, end: usize, n: int)
    requires
        0 <= n <= cuts.len(),
        start >= end,
    ensures
        lower_bounds(cuts, start, end, n) == seq![start],
    decreases n,
{
    if n > 0 {
        lemma_no_cuts(cuts, start, end, n - 1);
    }
}

// ---------------------------------------------------------------- detection

/// Whether the envelope has a local maximum at or above `level` at sample `i`.
pub open spec fn is_peak(env: Seq<Quantity>, level: Quantity, i: int) -> bool {
    &&& 1 <= i < env.len() - 1
    &&& level.le(env[i])
    &&& env[i - 1].le(env[i])
    &&& env[i + 1].lt(env[i])
}

/// The local maxima from `start` up to, but not including, `end`.
pub open spec fn peaks(env: Seq<Quantity>, level: Quantity, start: int, end: int) -> Seq<usize>
    decreases end - start,
{
    if end <= start {
        Seq::empty()
    } else {
        let rest = peaks(env, level, start, end - 1);
        if is_peak(env, level, end - 1) {
            rest.push((end - 1) as usize)
        } else {
            rest
        }
    }
}

/// The first highest of the first `n` peaks, among those above zero.
pub open spec fn tallest(env: Seq<Quantity>, s: Seq<usize>, n: int) -> Option<int>
    decreases n,
{
    if n <= 0 {
        None
    } else {
        let best = tallest(env, s, n - 1);
        let height = if let Some(m) = best {
            env[m]
        } else {
            Quantity { bits: 0 }
        };
        if height.lt(env[s[n - 1] as int]) {
            Some(s[n - 1] as int)
        } else {
            best
        }
    }
}

/// How high a peak has to be to stand out among the given ones.
pub open spec fn prominence_floor(r: Record, s: Seq<usize>) -> Quantity {
    if let Some(m) = tallest(r.env@, s, s.len() as int) {
        r.prominence@[m]
    } else {
        Quantity { bits: 0 }
    }
}

/// Those of the first `n` samples whose envelope reaches `floor`.
pub open spec fn reaching(env: Seq<Quantity>, floor: Quantity, s: Seq<usize>, n: int) -> Seq<usize>
    decreases n,
{
    if n <= 0 {
        Seq::empty()
    } else {
        let rest = reaching(env, floor, s, n - 1);
        if floor.le(env[s[n - 1] as int]) {
            rest.push(s[n - 1])
        } else {
            rest
        }
    }
}

/// The peaks that stand out between `start` and `end`.
pub open spec fn prominent(r: Record, level: Quantity, start: int, end: int) -> Seq<usize> {
    let all = peaks(r.env@, level, start, end);
    reaching(r.env@, prominence_floor(r, all), all, all.len() as int)
}

/// The last of the highest, in the total order, among the first `n` samples of `s`.
pub open spec fn last_top(env: Seq<Quantity>, s: Seq<usize>, n: int) -> usize
    decreases n,
{
    if n <= 1 {
        s[0]
    } else {
        let t = last_top(env, s, n - 1);
        if env[s[n - 1] as int].total_place() >= env[t as int].total_place() {
            s[n - 1]
        } else {
            t
        }
    }
}

/// How far two samples are apart.
pub open spec fn distance(a: int, b: int) -> int {
    if a <= b {
        b - a
    } else {
        a - b
    }
}

/// The first of those of the first `n` samples of `s` that are nearest to `p`.
pub open spec fn nearest(s: Seq<usize>, p: usize, n: int) -> usize
    decreases n,
{
    if n <= 1 {
        s[0]
    } else {
        let q = nearest(s, p, n - 1);
        if distance(s[n - 1] as int, p as int) < distance(q as int, p as int) {
            s[n - 1]
        } else {
            q
        }
    }
}

/// The lowest envelope from `start` up to, but not including, `end`.
pub open spec fn lowest(env: Seq<Quantity>, start: int, end: int) -> Quantity
    decreases end - start,
{
    if end <= start {
        Quantity { bits: INFINITE }
    } else {
        lowest(env, start, end - 1).lesser(env[end - 1])
    }
}

/// Which of two samples has the lower envelope.
pub open spec fn lower_of(env: Seq<Quantity>, a: int, b: int) -> int {
    if env[a].not_a_number() || env[b].lt(env[a]) {
        b
    } else {
        a
    }
}

/// Whether the envelope dips deep enough between two samples, the lower number
/// first, for them to be distinct.
pub open spec fn dips(r: Record, a: int, b: int) -> bool {
    lowest(r.env@, a, b + 1).lt(r.valley@[lower_of(r.env@, a, b)])
}

/// Whether `p` is a lobe of its own beside the lobes found so far.
pub open spec fn stands_apart(r: Record, lobes: Seq<usize>, p: usize) -> bool {
    let q = nearest(lobes, p, lobes.len() as int);
    if q <= p {
        dips(r, q as int, p as int)
    } else {
        dips(r, p as int, q as int)
    }
}

/// The lobes among the first `n` prominent peaks: the anchor, and each peak that
/// stands apart from the lobe nearest to it.
pub open spec fn lobes(r: Record, s: Seq<usize>, anchor: usize, n: int) -> Seq<usize>
    decreases n,
{
    if n <= 0 {
        seq![anchor]
    } else {
        let rest = lobes(r, s, anchor, n - 1);
        if s[n - 1] != anchor && stands_apart(r, rest, s[n - 1]) {
            rest.push(s[n - 1])
        } else {
            rest
        }
    }
}

/// The first `n` lobes in clusters: a lobe closer to the one before it than
/// `min_sep` cannot be resolved from it.
pub open spec fn clusters(s: Seq<usize>, min_sep: int, n: int) -> Seq<Seq<usize>>
    decreases n,
{
    if n <= 1 {
        seq![seq![s[0]]]
    } else {
        let rest = clusters(s, min_sep, n - 1);
        if s[n - 1] - s[n - 2] < min_sep {
            rest.drop_last().push(rest.last().push(s[n - 1]))
        } else {
            rest.push(seq![s[n - 1]])
        }
    }
}

/// The clusters of the region from `start` to `end`, whose prominent peaks are `s`.
/// A saturated region is one echo: clipping flattens the envelope, so that its
/// peaks cannot be resolved.
pub open spec fn region_clusters(r: Record, s: Seq<usize>, start: int, end: int) -> Seq<Seq<usize>> {
    let anchor = last_top(r.env@, s, s.len() as int);
    let found = sorted::<usize>(lobes(r, s, anchor, s.len() as int));
    if saturated_within(r.wave@, start, end) || found.len() < 2 {
        seq![seq![anchor]]
    } else {
        clusters(found, r.min_sep_samples as int, found.len() as int)
    }
}

/// One cluster of lobes in a region.
#[verifier::ext_equal]
pub struct EchoModel {
    pub region: int,
    pub place: int,
    pub start: int,
    pub end: int,
    pub lobes: Seq<usize>,
}

/// The echoes of the region with the number `idx`.
pub open spec fn region_echoes(r: Record, level: Quantity, start: int, end: int, idx: int) -> Seq<EchoModel> {
    let s = prominent(r, level, start, end);
    if s.len() == 0 {
        Seq::empty()
    } else {
        let c = region_clusters(r, s, start, end);
        Seq::new(c.len(), |j: int| EchoModel { region: idx, place: j, start, end, lobes: c[j] })
    }
}

/// The echoes from sample `k` on. Regions are the maximal runs of the smoothed
/// envelope at or above `level`; the next one has the number `idx`.
pub open spec fn echoes(r: Record, level: Quantity, k: int, idx: int) -> Seq<EchoModel>
    decreases r.size() - k,
    via echoes_end
{
    if k >= r.size() {
        Seq::empty()
    } else if !level.le(r.smooth@[k]) {
        echoes(r, level, k + 1, idx)
    } else {
        let end = run_end(r.smooth@, level, k, r.size());
        region_echoes(r, level, k, end, idx) + echoes(r, level, end, idx + 1)
    }
}

#[via_fn]
proof fn echoes_end(r: Record, level: Quantity, k: int, idx: int) {
    if k < r.size() {
        lemma_run_end(r.smooth@, level, k, r.size());
    }
}

/// The key of an echo.
pub open spec fn echo_key(region: int, place: int) -> Seq<char> {
    "r"@ + digits(region as nat) + "c"@ + digits(place as nat)
}

/// The peak of an echo.
pub open spec fn echo_peak(r: Record, e: EchoModel) -> int {
    last_top(r.env@, e.lobes, e.lobes.len() as int) as int
}

/// The member peaks of an echo.
pub open spec fn members(r: Record, s: Seq<usize>) -> Seq<MemberPeak> {
    Seq::new(
        s.len(),
        |i: int| MemberPeak { peak_sample: s[i], amp: r.env@[s[i] as int], snr: r.snr@[s[i] as int] },
    )
}

/// The candidate for an echo.
pub open spec fn echo_candidate(
    r: Record,
    e: EchoModel,
    gates: Seq<Gate>,
    cfg: AnalConfig,
    depth: Option<Seq<Quantity>>,
) -> CandidateModel {
    made(
        echo_key(e.region, e.place),
        e.start,
        e.end,
        echo_peak(r, e),
        r,
        gates,
        cfg,
        e.lobes.len() > 1,
        members(r, e.lobes),
        depth,
        None,
    )
}

/// The level at which detection starts.
pub open spec fn detection_level(r: Record, cfg: AnalConfig) -> Quantity {
    match cfg.threshold_mode {
        ThresholdMode::Amplitude => cfg.amp_threshold,
        ThresholdMode::Snr => r.snr_level,
    }
}

pub open spec fn is_bottom() -> spec_fn(Gate) -> bool {
    |g: Gate| g.role@ == "bottom"@
}

/// Whether the surface arrives later than the bottom: there is an echo with its peak
/// in the bottom gate, and the surface is behind each of them.
pub open spec fn surface_after_bottom(r: Record, all: Seq<EchoModel>, gates: Seq<Gate>) -> bool {
    match first_where(gates, is_bottom()) {
        None => false,
        Some(b) => {
            &&& exists|i: int| 0 <= i < all.len() && gates[b].holds(echo_peak(r, #[trigger] all[i]))
            &&& forall|i: int|
                0 <= i < all.len() && gates[b].holds(echo_peak(r, #[trigger] all[i])) ==> echo_peak(r, all[i])
                    < r.surface_sample
        },
    }
}

/// The depth of each sample, where depths are given at all.
pub open spec fn depths(r: Record, all: Seq<EchoModel>, gates: Seq<Gate>) -> Option<Seq<Quantity>> {
    if surface_after_bottom(r, all, gates) {
        None
    } else {
        Some(r.depth_mm@)
    }
}

/// The candidates before manual splits.
pub open spec fn raw_candidates(r: Record, gates: Seq<Gate>, cfg: AnalConfig) -> Seq<CandidateModel> {
    let all = echoes(r, detection_level(r, cfg), 0, 0);
    Seq::new(all.len(), |i: int| echo_candidate(r, all[i], gates, cfg, depths(r, all, gates)))
}

pub open spec fn keyed(key: Seq<char>) -> spec_fn(CandidateModel) -> bool {
    |c: CandidateModel| c.key == key
}

/// What the first `n` manual splits make of the candidates in `raw`.
pub open spec fn split_up(
    raw: Seq<CandidateModel>,
    splits: Seq<SplitModel>,
    r: Record,
    gates: Seq<Gate>,
    cfg: AnalConfig,
    depth: Option<Seq<Quantity>>,
    n: int,
) -> Seq<CandidateModel>
    decreases n,
{
    if n <= 0 {
        Seq::empty()
    } else {
        let rest = split_up(raw, splits, r, gates, cfg, depth, n - 1);
        match first_where(raw, keyed(splits[n - 1].parent_key)) {
            Some(i) => rest + split_parts(raw[i], splits[n - 1].cuts, r, gates, cfg, depth),
            None => rest,
        }
    }
}

/// Whether a manual split is recorded for the candidate with the given key.
pub open spec fn is_split(splits: Seq<SplitModel>, key: Seq<char>) -> bool {
    exists|j: int| 0 <= j < splits.len() && (#[trigger] splits[j]).parent_key == key
}

/// Those of the first `n` candidates that no manual split is recorded for.
pub open spec fn unsplit(raw: Seq<CandidateModel>, splits: Seq<SplitModel>, n: int) -> Seq<CandidateModel>
    decreases n,
{
    if n <= 0 {
        Seq::empty()
    } else {
        let rest = unsplit(raw, splits, n - 1);
        if is_split(splits, raw[n - 1].key) {
            rest
        } else {
            rest.push(raw[n - 1])
        }
    }
}

/// The candidates of an analysis, by peak.
pub open spec fn found_candidates(
    r: Record,
    gates: Seq<Gate>,
    cfg: AnalConfig,
    splits: Seq<SplitModel>,
) -> Seq<CandidateModel> {
    let all = echoes(r, detection_level(r, cfg), 0, 0);
    let raw = raw_candidates(r, gates, cfg);
    sorted::<Candidate>(
        split_up(raw, splits, r, gates, cfg, depths(r, all, gates), splits.len() as int) + unsplit(
            raw,
            splits,
            raw.len() as int,
        ),
    )
}

// ---------------------------------------------------------------- the analysis

/// One cluster of lobes in a region.
struct Echo {
    region: usize,
    place: usize,
    start: usize,
    end: usize,
    lobes: Vec<usize>,
}

impl View for Echo {
    type V = EchoModel;

    closed spec fn view(&self) -> EchoModel {
        EchoModel {
            region: self.region as int,
            place: self.place as int,
            start: self.start as int,
            end: self.end as int,
            lobes: self.lobes@,
        }
    }
}

/// Whether every sample of `s` lies from `lo` on, below `hi`.
pub open spec fn within(s: Seq<usize>, lo: int, hi: int) -> bool {
    forall|i: int| 0 <= i < s.len() ==> lo <= #[trigger] s[i] < hi
}

/// Whether every cluster holds a sample, and only samples from `lo` on, below `hi`.
pub open spec fn clusters_within(c: Seq<Seq<usize>>, lo: int, hi: int) -> bool {
    forall|i: int| 0 <= i < c.len() ==> (#[trigger] c[i]).len() > 0 && within(c[i], lo, hi)
}

fn find_peaks(r: &Record, level: Quantity, start: usize, end: usize) -> (v: Vec<usize>)
    requires
        r.valid(),
        start <= end <= r.size(),
    ensures
        v@ == peaks(r.env@, level, start as int, end as int),
        within(v@, start as int, end as int),
{
    let n: usize = r.env.len();
    let mut v: Vec<usize> = Vec::new();
    let mut k: usize = start;
    while k < end
        invariant
            r.valid(),
            n == r.size(),
            start <= k <= end <= n,
            v@ == peaks(r.env@, level, start as int, k as int),
            within(v@, start as int, k as int),
        decreases end - k,
    {
        if k >= 1 && k < n - 1 && level.is_at_most(r.env[k]) && r.env[k - 1].is_at_most(r.env[k])
            && r.env[k + 1].is_below(r.env[k]) {
            v.push(k);
        }
        k = k + 1;
    }
    v
}

fn pick_prominent(r: &Record, s: &Vec<usize>) -> (v: Vec<usize>)
    requires
        r.valid(),
        within(s@, 0, r.size()),
    ensures
        v@ == reaching(r.env@, prominence_floor(*r, s@), s@, s@.len() as int),
        forall|lo: int, hi: int| within(s@, lo, hi) ==> #[trigger] within(v@, lo, hi),
{
    let mut best: Option<usize> = None;
    let mut k: usize = 0;
    while k < s.len()
        invariant
            r.valid(),
            within(s@, 0, r.size()),
            k <= s@.len(),
            tallest(r.env@, s@, k as int) == (match best {
                Some(m) => Some(m as int),
                None => None,
            }),
            best matches Some(m) ==> m < r.size(),
        decreases s@.len() - k,
    {
        assert(s@[k as int] < r.size());
        let height: Quantity = match best {
            Some(m) => r.env[m],
            None => Quantity::from_bits(0),
        };
        if height.is_below(r.env[s[k]]) {
            best = Some(s[k]);
        }
        k = k + 1;
    }
    let floor: Quantity = match best {
        Some(m) => r.prominence[m],
        None => Quantity::from_bits(0),
    };
    let mut v: Vec<usize> = Vec::new();
    let mut j: usize = 0;
    while j < s.len()
        invariant
            r.valid(),
            within(s@, 0, r.size()),
            j <= s@.len(),
            v@ == reaching(r.env@, floor, s@, j as int),
            forall|lo: int, hi: int| within(s@, lo, hi) ==> #[trigger] within(v@, lo, hi),
        decreases s@.len() - j,
    {
        assert(s@[j as int] < r.size());
        if floor.is_at_most(r.env[s[j]]) {
            let ghost prior = v@;
            v.push(s[j]);
            assert forall|lo: int, hi: int| within(s@, lo, hi) implies #[trigger] within(v@, lo, hi) by {
                assert(within(prior, lo, hi));
                assert(lo <= s@[j as int] < hi);
            }
        }
        j = j + 1;
    }
    v
}

fn find_last_top(env: &Vec<Quantity>, s: &Vec<usize>) -> (t: usize)
    requires
        s@.len() > 0,
        within(s@, 0, env@.len() as int),
    ensures
        t == last_top(env@, s@, s@.len() as int),
        s@.contains(t),
{
    let mut t: usize = s[0];
    let mut k: usize = 1;
    assert(s@[0] == t);
    while k < s.len()
        invariant
            1 <= k <= s@.len(),
            within(s@, 0, env@.len() as int),
            t == last_top(env@, s@, k as int),
            s@.contains(t),
            t < env@.len(),
        decreases s@.len() - k,
    {
        assert(s@[k as int] < env@.len());
        if !env[s[k]].is_totally_below(env[t]) {
            t = s[k];
            assert(s@[k as int] == t);
        }
        k = k + 1;
    }
    t
}

fn gap(a: usize, b: usize) -> (d: usize)
    ensures
        d == distance(a as int, b as int),
{
    if a <= b {
        b - a
    } else {
        a - b
    }
}

fn find_nearest(s: &Vec<usize>, p: usize) -> (q: usize)
    requires
        s@.len() > 0,
    ensures
        q == nearest(s@, p, s@.len() as int),
        s@.contains(q),
{
    let mut q: usize = s[0];
    let mut k: usize = 1;
    assert(s@[0] == q);
    while k < s.len()
        invariant
            1 <= k <= s@.len(),
            q == nearest(s@, p, k as int),
            s@.contains(q),
        decreases s@.len() - k,
    {
        if gap(s[k], p) < gap(q, p) {
            q = s[k];
            assert(s@[k as int] == q);
        }
        k = k + 1;
    }
    q
}

fn envelope_dips(r: &Record, a: usize, b: usize) -> (d: bool)
    requires
        r.valid(),
        a <= b < r.size(),
    ensures
        d == dips(*r, a as int, b as int),
{
    let n: usize = r.env.len();
    let mut low: Quantity = Quantity::from_bits(INFINITE);
    let mut k: usize = a;
    while k <= b
        invariant
            r.valid(),
            a <= k <= b + 1,
            b < n,
            n == r.size(),
            low == lowest(r.env@, a as int, k as int),
        decreases b + 1 - k,
    {
        low = low.min_of(r.env[k]);
        k = k + 1;
    }
    let c: usize = if r.env[a].is_not_a_number() || r.env[b].is_below(r.env[a]) {
        b
    } else {
        a
    };
    low.is_below(r.valley[c])
}

fn find_lobes(r: &Record, s: &Vec<usize>, anchor: usize) -> (v: Vec<usize>)
    requires
        r.valid(),
        within(s@, 0, r.size()),
        s@.contains(anchor),
    ensures
        v@ == lobes(*r, s@, anchor, s@.len() as int),
        forall|lo: int, hi: int| within(s@, lo, hi) ==> #[trigger] within(v@, lo, hi),
        v@.len() > 0,
{
    let mut v: Vec<usize> = Vec::new();
    v.push(anchor);
    let mut k: usize = 0;
    assert(v@ =~= lobes(*r, s@, anchor, 0));
    assert forall|lo: int, hi: int| within(s@, lo, hi) implies #[trigger] within(v@, lo, hi) by {
        let i = choose|i: int| 0 <= i < s@.len() && s@[i] == anchor;
        assert(lo <= s@[i] < hi);
    }
    while k < s.len()
        invariant
            r.valid(),
            within(s@, 0, r.size()),
            k <= s@.len(),
            v@ == lobes(*r, s@, anchor, k as int),
            forall|lo: int, hi: int| within(s@, lo, hi) ==> #[trigger] within(v@, lo, hi),
            v@.len() > 0,
        decreases s@.len() - k,
    {
        let p: usize = s[k];
        assert(s@[k as int] < r.size());
        if p != anchor {
            let q: usize = find_nearest(&v, p);
            assert(q < r.size()) by {
                assert(within(v@, 0, r.size()));
                let i = choose|i: int| 0 <= i < v@.len() && v@[i] == q;
                assert(v@[i] < r.size());
            }
            let apart: bool = if q <= p {
                envelope_dips(r, q, p)
            } else {
                envelope_dips(r, p, q)
            };
            if apart {
                let ghost prior = v@;
                v.push(p);
                assert forall|lo: int, hi: int| within(s@, lo, hi) implies #[trigger] within(v@, lo, hi) by {
                    assert(within(prior, lo, hi));
                    assert(lo <= s@[k as int] < hi);
                }
            }
        }
        k = k + 1;
    }
    v
}

pub(crate) proof fn lemma_within_sorted(s: Seq<usize>, lo: int, hi: int)
    requires
        within(s, lo, hi),
    ensures
        within(sorted::<usize>(s), lo, hi),
{
    let p = |x: usize| lo <= x < hi;
    assert forall|i: int| 0 <= i < s.len() implies p(#[trigger] s[i]) by {}
    lemma_sorted_all::<usize>(s, p);
    assert forall|i: int| 0 <= i < sorted::<usize>(s).len() implies lo <= #[trigger] sorted::<usize>(s)[i] < hi by {
        assert(p(sorted::<usize>(s)[i]));
    }
}

/// What each cluster holds.
spec fn inner_views(c: Seq<Vec<usize>>) -> Seq<Seq<usize>> {
    Seq::new(c.len(), |i: int| c[i]@)
}

fn make_clusters(s: &Vec<usize>, min_sep: usize, Ghost(lo): Ghost<int>, Ghost(hi): Ghost<int>) -> (c: Vec<Vec<usize>>)
    requires
        s@.len() > 0,
        within(s@, lo, hi),
        forall|i: int, j: int| 0 <= i < j < s@.len() ==> #[trigger] s@[i] <= #[trigger] s@[j],
    ensures
        inner_views(c@) == clusters(s@, min_sep as int, s@.len() as int),
        clusters_within(inner_views(c@), lo, hi),
{
    let mut done: Vec<Vec<usize>> = Vec::new();
    let mut current: Vec<usize> = Vec::new();
    current.push(s[0]);
    let mut k: usize = 1;
    proof {
        assert(current@ =~= seq![s@[0]]);
        assert(inner_views(done@).push(current@) =~= clusters(s@, min_sep as int, 1));
        assert(lo <= s@[0] < hi);
    }
    while k < s.len()
        invariant
            1 <= k <= s@.len(),
            within(s@, lo, hi),
            forall|i: int, j: int| 0 <= i < j < s@.len() ==> #[trigger] s@[i] <= #[trigger] s@[j],
            current@.len() > 0,
            current@.last() == s@[k - 1],
            within(current@, lo, hi),
            clusters_within(inner_views(done@), lo, hi),
            inner_views(done@).push(current@) == clusters(s@, min_sep as int, k as int),
        decreases s@.len() - k,
    {
        let p: usize = s[k];
        let ghost before = clusters(s@, min_sep as int, k as int);
        assert(before.last() == current@);
        assert(before.drop_last() =~= inner_views(done@));
        assert(s@[k - 1] <= s@[k as int]);
        assert(lo <= s@[k as int] < hi);
        if p - s[k - 1] < min_sep {
            current.push(p);
            assert(inner_views(done@).push(current@) =~= clusters(s@, min_sep as int, k + 1));
        } else {
            let mut fresh: Vec<usize> = Vec::new();
            fresh.push(p);
            let ghost full = current@;
            let ghost prior = done@;
            std::mem::swap(&mut current, &mut fresh);
            done.push(fresh);
            proof {
                assert(inner_views(done@) =~= inner_views(prior).push(full));
                assert(current@ =~= seq![p]);
                assert(inner_views(done@).push(current@) =~= clusters(s@, min_sep as int, k + 1));
            }
        }
        k = k + 1;
    }
    let ghost prior = done@;
    let ghost full = current@;
    done.push(current);
    assert(inner_views(done@) =~= inner_views(prior).push(full));
    done
}

proof fn lemma_plain_views(s: Seq<usize>)
    ensures
        views(s) == s,
{
    assert(views(s) =~= s);
}

fn find_clusters(r: &Record, s: &Vec<usize>, start: usize, end: usize) -> (c: Vec<Vec<usize>>)
    requires
        r.valid(),
        start <= end <= r.size(),
        s@.len() > 0,
        within(s@, start as int, end as int),
    ensures
        inner_views(c@) == region_clusters(*r, s@, start as int, end as int),
        clusters_within(inner_views(c@), start as int, end as int),
{
    let ghost lo = start as int;
    let ghost hi = end as int;
    assert(within(s@, 0, r.size())) by {
        assert forall|i: int| 0 <= i < s@.len() implies 0 <= #[trigger] s@[i] < r.size() by {
            assert(lo <= s@[i] < hi);
        }
    }
    let anchor: usize = find_last_top(&r.env, s);
    let unsorted: Vec<usize> = find_lobes(r, s, anchor);
    let ghost raw = unsorted@;
    proof {
        assert(within(raw, lo, hi));
        lemma_plain_views(raw);
        lemma_within_sorted(raw, lo, hi);
        sorting_orders_and_keeps_every_item::<usize>(raw);
    }
    let found: Vec<usize> = sort_ranked(unsorted);
    proof {
        lemma_plain_views(found@);
        assert forall|i: int, j: int| 0 <= i < j < found@.len() implies #[trigger] found@[i] <= #[trigger] found@[j] by {
            assert(<usize as Ranked>::ranks(found@[i], found@[j]));
        }
    }
    if any_saturated(&r.wave, start, end) || found.len() < 2 {
        let mut one: Vec<usize> = Vec::new();
        one.push(anchor);
        let ghost ov = one@;
        let mut c: Vec<Vec<usize>> = Vec::new();
        c.push(one);
        proof {
            assert(ov =~= seq![anchor]);
            assert(inner_views(c@) =~= seq![seq![anchor]]);
            let i = choose|i: int| 0 <= i < s@.len() && s@[i] == anchor;
            assert(lo <= s@[i] < hi);
            assert(within(ov, lo, hi));
        }
        c
    } else {
        make_clusters(&found, r.min_sep_samples, Ghost(lo), Ghost(hi))
    }
}

/// Whether an echo lies inside the waveform.
pub open spec fn echo_fits(r: Record, e: EchoModel) -> bool {
    &&& 0 <= e.start < e.end <= r.size()
    &&& e.lobes.len() > 0
    &&& within(e.lobes, e.start, e.end)
}

/// Whether all echoes lie inside the waveform.
pub open spec fn echoes_fit(r: Record, s: Seq<EchoModel>) -> bool {
    forall|i: int| 0 <= i < s.len() ==> echo_fits(r, #[trigger] s[i])
}

fn add_region(r: &Record, level: Quantity, start: usize, end: usize, idx: usize, out: &mut Vec<Echo>)
    requires
        r.valid(),
        start < end <= r.size(),
        echoes_fit(*r, views(old(out)@)),
    ensures
        views(final(out)@) == views(old(out)@) + region_echoes(*r, level, start as int, end as int, idx as int),
        echoes_fit(*r, views(final(out)@)),
{
    let ghost out0 = views(out@);
    let all: Vec<usize> = find_peaks(r, level, start, end);
    assert(within(all@, 0, r.size())) by {
        assert forall|i: int| 0 <= i < all@.len() implies 0 <= #[trigger] all@[i] < r.size() by {
            assert(start <= all@[i] < end);
        }
    }
    let s: Vec<usize> = pick_prominent(r, &all);
    let ghost added = region_echoes(*r, level, start as int, end as int, idx as int);
    if s.len() == 0 {
        assert(out0 + added =~= out0);
        return ;
    }
    assert(within(s@, start as int, end as int));
    let mut c: Vec<Vec<usize>> = find_clusters(r, &s, start, end);
    let ghost cv = inner_views(c@);
    let total: usize = c.len();
    let mut j: usize = 0;
    assert(added.take(0) =~= Seq::<EchoModel>::empty());
    assert(views(out@) =~= out0 + added.take(0));
    assert(cv =~= cv.skip(0));
    while j < total
        invariant
            j <= total,
            total == cv.len(),
            start < end <= r.size(),
            c@.len() == total - j,
            inner_views(c@) == cv.skip(j as int),
            clusters_within(cv, start as int, end as int),
            added.len() == cv.len(),
            forall|i: int|
                0 <= i < cv.len() ==> #[trigger] added[i] == (EchoModel {
                    region: idx as int,
                    place: i,
                    start: start as int,
                    end: end as int,
                    lobes: cv[i],
                }),
            views(out@) == out0 + added.take(j as int),
            echoes_fit(*r, views(out@)),
        decreases total - j,
    {
        let ghost cb = c@;
        let lobes_here: Vec<usize> = c.remove(0);
        let ghost prior = out@;
        proof {
            assert(inner_views(cb)[0] == cv.skip(j as int)[0]);
            assert(lobes_here@ == cv[j as int]);
            assert forall|i: int| 0 <= i < c@.len() implies inner_views(c@)[i] == cv.skip(j + 1)[i] by {
                assert(c@[i] == cb[i + 1]);
                assert(inner_views(cb)[i + 1] == cv.skip(j as int)[i + 1]);
            }
            assert(inner_views(c@) =~= cv.skip(j + 1));
        }
        let e: Echo = Echo { region: idx, place: j, start, end, lobes: lobes_here };
        out.push(e);
        proof {
            assert(views(out@) =~= views(prior).push(e@));
            assert(e@ == added[j as int]);
            assert(added.take(j + 1) =~= added.take(j as int).push(e@));
            assert(views(out@) =~= out0 + added.take(j + 1));
            assert(echo_fits(*r, e@));
        }
        j = j + 1;
    }
    assert(added.take(total as int) =~= added);
}

fn find_echoes(r: &Record, level: Quantity) -> (out: Vec<Echo>)
    requires
        r.valid(),
        !level.not_a_number(),
    ensures
        views(out@) == echoes(*r, level, 0, 0),
        echoes_fit(*r, views(out@)),
{
    let n: usize = r.smooth.len();
    let mut out: Vec<Echo> = Vec::new();
    let mut k: usize = 0;
    let mut idx: usize = 0;
    assert(views(out@) =~= Seq::<EchoModel>::empty());
    assert(views(out@) + echoes(*r, level, 0, 0) =~= echoes(*r, level, 0, 0));
    while k < n
        invariant
            r.valid(),
            n == r.size(),
            idx <= k <= n,
            !level.not_a_number(),
            views(out@) + echoes(*r, level, k as int, idx as int) == echoes(*r, level, 0, 0),
            echoes_fit(*r, views(out@)),
        decreases n - k,
    {
        if !level.is_at_most(r.smooth[k]) {
            k = k + 1;
        } else {
            let start: usize = k;
            while k < n && level.is_at_most(r.smooth[k])
                invariant
                    r.valid(),
                    n == r.size(),
                    start <= k <= n,
                    run_end(r.smooth@, level, k as int, n as int) == run_end(r.smooth@, level, start as int, n as int),
                decreases n - k,
            {
                k = k + 1;
            }
            let ghost prior = views(out@);
            proof {
                lemma_run_end(r.smooth@, level, start as int, n as int);
                assert(k == run_end(r.smooth@, level, start as int, n as int));
            }
            add_region(r, level, start, k, idx, &mut out);
            proof {
                let added = region_echoes(*r, level, start as int, k as int, idx as int);
                let rest = echoes(*r, level, k as int, idx + 1);
                assert(echoes(*r, level, start as int, idx as int) == added + rest);
                assert((prior + added) + rest =~= prior + (added + rest));
            }
            idx = idx + 1;
        }
    }
    assert(views(out@) + echoes(*r, level, k as int, idx as int) =~= views(out@));
    out
}

fn find_peak(r: &Record, e: &Echo) -> (t: usize)
    requires
        r.valid(),
        echo_fits(*r, e@),
    ensures
        t == echo_peak(*r, e@),
        e.start <= t < e.end,
{
    assert(within(e.lobes@, 0, r.size())) by {
        assert forall|i: int| 0 <= i < e.lobes@.len() implies 0 <= #[trigger] e.lobes@[i] < r.size() by {
            assert(e@.lobes[i] < e.end);
        }
    }
    let t: usize = find_last_top(&r.env, &e.lobes);
    proof {
        let i = choose|i: int| 0 <= i < e.lobes@.len() && e.lobes@[i] == t;
        assert(e@.start <= e@.lobes[i] < e@.end);
    }
    t
}

fn bottom_gate(gates: &Vec<Gate>) -> (b: Option<usize>)
    ensures
        first_where(gates@, is_bottom()) == (match b {
            Some(i) => Some(i as int),
            None => None,
        }),
        b matches Some(i) ==> i < gates@.len(),
{
    let ghost p = is_bottom();
    let mut i: usize = 0;
    while i < gates.len()
        invariant
            i <= gates@.len(),
            p == is_bottom(),
            forall|j: int| 0 <= j < i ==> !p(#[trigger] gates@[j]),
        decreases gates@.len() - i,
    {
        if same_text(gates[i].role.as_str(), "bottom") {
            proof {
                assert(p(gates@[i as int]));
                lemma_first_found(gates@, p, i as int);
            }
            return Some(i);
        }
        assert(!p(gates@[i as int]));
        i = i + 1;
    }
    proof {
        lemma_none_found(gates@, p);
    }
    None
}

fn is_surface_after_bottom(r: &Record, all: &Vec<Echo>, gates: &Vec<Gate>) -> (late: bool)
    requires
        r.valid(),
        echoes_fit(*r, views(all@)),
    ensures
        late == surface_after_bottom(*r, views(all@), gates@),
{
    let b: usize = match bottom_gate(gates) {
        None => {
            return false;
        },
        Some(b) => b,
    };
    let ghost av = views(all@);
    let mut seen: bool = false;
    let mut i: usize = 0;
    while i < all.len()
        invariant
            r.valid(),
            av == views(all@),
            echoes_fit(*r, av),
            b < gates@.len(),
            first_where(gates@, is_bottom()) == Some(b as int),
            i <= all@.len(),
            seen == (exists|k: int| 0 <= k < i && gates@[b as int].holds(echo_peak(*r, #[trigger] av[k]))),
            forall|k: int|
                0 <= k < i && gates@[b as int].holds(echo_peak(*r, #[trigger] av[k])) ==> echo_peak(*r, av[k])
                    < r.surface_sample,
        decreases all@.len() - i,
    {
        assert(echo_fits(*r, av[i as int]));
        assert(av[i as int] == all@[i as int]@);
        let t: usize = find_peak(r, &all[i]);
        if gates[b].contains(t) {
            assert(gates@[b as int].holds(echo_peak(*r, av[i as int])));
            seen = true;
            if t >= r.surface_sample {
                return false;
            }
        }
        i = i + 1;
    }
    seen
}

fn make_members(r: &Record, s: &Vec<usize>) -> (v: Vec<MemberPeak>)
    requires
        r.valid(),
        within(s@, 0, r.size()),
    ensures
        v@ == members(*r, s@),
{
    let mut v: Vec<MemberPeak> = Vec::new();
    let mut i: usize = 0;
    while i < s.len()
        invariant
            r.valid(),
            within(s@, 0, r.size()),
            i <= s@.len(),
            v@ =~= members(*r, s@).take(i as int),
        decreases s@.len() - i,
    {
        let m: usize = s[i];
        assert(s@[i as int] < r.size());
        v.push(MemberPeak { peak_sample: m, amp: r.env[m], snr: r.snr[m] });
        i = i + 1;
    }
    assert(members(*r, s@).take(s@.len() as int) =~= members(*r, s@));
    v
}

spec fn table(depth: Option<&Vec<Quantity>>) -> Option<Seq<Quantity>> {
    if let Some(d) = depth {
        Some(d@)
    } else {
        None
    }
}

spec fn candidate_fits(r: Record, c: CandidateModel) -> bool {
    0 <= c.start_sample < c.end_sample <= r.size()
}

spec fn candidates_of(
    r: Record,
    all: Seq<EchoModel>,
    gates: Seq<Gate>,
    cfg: AnalConfig,
    depth: Option<Seq<Quantity>>,
) -> Seq<CandidateModel> {
    Seq::new(all.len(), |i: int| echo_candidate(r, all[i], gates, cfg, depth))
}

fn make_candidates(
    r: &Record,
    all: &Vec<Echo>,
    gates: &Vec<Gate>,
    cfg: &AnalConfig,
    depth: Option<&Vec<Quantity>>,
) -> (out: Vec<Candidate>)
    requires
        r.valid(),
        echoes_fit(*r, views(all@)),
        depth matches Some(d) ==> d@.len() == r.size(),
    ensures
        views(out@) == candidates_of(*r, views(all@), gates@, *cfg, table(depth)),
        forall|i: int| 0 <= i < out@.len() ==> candidate_fits(*r, (#[trigger] out@[i])@),
{
    let ghost av = views(all@);
    let ghost goal = candidates_of(*r, av, gates@, *cfg, table(depth));
    let mut out: Vec<Candidate> = Vec::new();
    let mut i: usize = 0;
    assert(views(out@) =~= goal.take(0));
    while i < all.len()
        invariant
            r.valid(),
            av == views(all@),
            echoes_fit(*r, av),
            depth matches Some(d) ==> d@.len() == r.size(),
            goal == candidates_of(*r, av, gates@, *cfg, table(depth)),
            i <= all@.len(),
            views(out@) == goal.take(i as int),
            forall|k: int| 0 <= k < out@.len() ==> candidate_fits(*r, (#[trigger] out@[k])@),
        decreases all@.len() - i,
    {
        let e: &Echo = &all[i];
        assert(echo_fits(*r, av[i as int]));
        assert(av[i as int] == e@);
        let peak: usize = find_peak(r, e);
        assert(within(e.lobes@, 0, r.size())) by {
            assert forall|k: int| 0 <= k < e.lobes@.len() implies 0 <= #[trigger] e.lobes@[k] < r.size() by {
                assert(e@.lobes[k] < e@.end);
            }
        }
        let key: String = join4(
            "r",
            decimal(e.region as u64).as_str(),
            "c",
            decimal(e.place as u64).as_str(),
        );
        let ms: Vec<MemberPeak> = make_members(r, &e.lobes);
        let ghost prior = out@;
        let c: Candidate = make_candidate(
            key,
            e.start,
            e.end,
            peak,
            r,
            gates,
            cfg,
            e.lobes.len() > 1,
            ms,
            depth,
            None,
        );
        out.push(c);
        proof {
            assert(views(out@) =~= views(prior).push(c@));
            assert(c@ == goal[i as int]);
            assert(goal.take(i + 1) =~= goal.take(i as int).push(c@));
        }
        i = i + 1;
    }
    assert(goal.take(all@.len() as int) =~= goal);
    out
}

pub(crate) fn find_keyed(raw: &Vec<Candidate>, key: &str) -> (r: Option<usize>)
    ensures
        first_where(views(raw@), keyed(key@)) == (match r {
            Some(i) => Some(i as int),
            None => None,
        }),
        r matches Some(i) ==> i < raw@.len(),
{
    let ghost rv = views(raw@);
    let ghost p = keyed(key@);
    let mut i: usize = 0;
    while i < raw.len()
        invariant
            i <= raw@.len(),
            rv == views(raw@),
            p == keyed(key@),
            forall|j: int| 0 <= j < i ==> !p(#[trigger] rv[j]),
        decreases raw@.len() - i,
    {
        assert(rv[i as int] == raw@[i as int]@);
        if same_text(raw[i].key.as_str(), key) {
            proof {
                assert(p(rv[i as int]));
                lemma_first_found(rv, p, i as int);
            }
            return Some(i);
        }
        assert(!p(rv[i as int]));
        i = i + 1;
    }
    proof {
        lemma_none_found(rv, p);
    }
    None
}

fn knows_split(splits: &Vec<Split>, key: &String) -> (r: bool)
    ensures
        r == is_split(views(splits@), key@),
{
    let ghost sv = views(splits@);
    let mut i: usize = 0;
    while i < splits.len()
        invariant
            i <= splits@.len(),
            sv == views(splits@),
            forall|j: int| 0 <= j < i ==> (#[trigger] sv[j]).parent_key != key@,
        decreases splits@.len() - i,
    {
        assert(sv[i as int] == splits@[i as int]@);
        if same_text(splits[i].parent_key.as_str(), key.as_str()) {
            return true;
        }
        i = i + 1;
    }
    false
}

fn apply_splits(
    raw: Vec<Candidate>,
    splits: &Vec<Split>,
    r: &Record,
    gates: &Vec<Gate>,
    cfg: &AnalConfig,
    depth: Option<&Vec<Quantity>>,
) -> (out: Vec<Candidate>)
    requires
        r.valid(),
        forall|i: int| 0 <= i < raw@.len() ==> candidate_fits(*r, (#[trigger] raw@[i])@),
        depth matches Some(d) ==> d@.len() == r.size(),
    ensures
        views(out@) == split_up(
            views(raw@),
            views(splits@),
            *r,
            gates@,
            *cfg,
            table(depth),
            splits@.len() as int,
        ) + unsplit(views(raw@), views(splits@), raw@.len() as int),
{
    let ghost rv = views(raw@);
    let ghost sv = views(splits@);
    let ghost dv = table(depth);
    let mut out: Vec<Candidate> = Vec::new();
    let mut i: usize = 0;
    assert(views(out@) =~= split_up(rv, sv, *r, gates@, *cfg, dv, 0));
    while i < splits.len()
        invariant
            r.valid(),
            rv == views(raw@),
            sv == views(splits@),
            dv == table(depth),
            forall|k: int| 0 <= k < raw@.len() ==> candidate_fits(*r, (#[trigger] raw@[k])@),
            depth matches Some(d) ==> d@.len() == r.size(),
            i <= splits@.len(),
            views(out@) == split_up(rv, sv, *r, gates@, *cfg, dv, i as int),
        decreases splits@.len() - i,
    {
        assert(sv[i as int] == splits@[i as int]@);
        match find_keyed(&raw, splits[i].parent_key.as_str()) {
            Some(k) => {
                assert(candidate_fits(*r, raw@[k as int]@));
                let mut kids: Vec<Candidate> = split_candidate(&raw[k], &splits[i].cuts, r, gates, cfg, depth);
                let ghost prior = out@;
                let ghost kv = kids@;
                out.append(&mut kids);
                assert(views(out@) =~= views(prior) + views(kv));
                assert(rv[k as int] == raw@[k as int]@);
            },
            None => {},
        }
        i = i + 1;
    }
    let ghost front = views(out@);
    let mut rest: Vec<Candidate> = raw;
    let total: usize = rest.len();
    let mut j: usize = 0;
    proof {
        assert(views(rest@) =~= rv.skip(0));
        assert(front + unsplit(rv, sv, 0) =~= front);
    }
    while j < total
        invariant
            j <= total,
            total == rv.len(),
            rest@.len() == total - j,
            sv == views(splits@),
            views(rest@) == rv.skip(j as int),
            views(out@) == front + unsplit(rv, sv, j as int),
        decreases total - j,
    {
        let ghost before = rest@;
        let c: Candidate = rest.remove(0);
        let ghost prior = out@;
        proof {
            assert(views(before)[0] == rv.skip(j as int)[0]);
            assert(c@ == rv[j as int]);
            assert forall|k: int| 0 <= k < rest@.len() implies views(rest@)[k] == rv.skip(j + 1)[k] by {
                assert(rest@[k] == before[k + 1]);
                assert(views(before)[k + 1] == rv.skip(j as int)[k + 1]);
            }
            assert(views(rest@) =~= rv.skip(j + 1));
        }
        if !knows_split(splits, &c.key) {
            out.push(c);
            proof {
                assert(views(out@) =~= views(prior).push(c@));
                assert(unsplit(rv, sv, j + 1) =~= unsplit(rv, sv, j as int).push(c@));
                assert(views(out@) =~= front + unsplit(rv, sv, j + 1));
            }
        }
        j = j + 1;
    }
    out
}

/// Run the deterministic adjudication analysis for one position.
///
/// * `r`       - the samples and what was measured from them.
/// * `splits`  - manual splits recorded for this position.
///
/// Returns `error = "surface_after_bottom"` (and no depth values) when the surface
/// arrival is later than the bottom candidate; the depth axis must never be inverted.
pub fn analyze(r: &Record, gates: &Vec<Gate>, cfg: &AnalConfig, splits: &Vec<Split>) -> (a: Analysis)
    requires
        r.valid(),
        !detection_level(*r, *cfg).not_a_number(),
    ensures
        a.noise_rms == r.noise_rms,
        a.threshold_value == detection_level(*r, *cfg),
        a.threshold_mode@ == cfg.threshold_mode.name(),
        a.surface_sample == r.surface_sample,
        a.surface_time_ns == r.surface_time_ns,
        crate::model::opt_text(a.error) == (if surface_after_bottom(
            *r,
            echoes(*r, detection_level(*r, *cfg), 0, 0),
            gates@,
        ) {
            Some("surface_after_bottom"@)
        } else {
            None
        }),
        views(a.candidates@) == found_candidates(*r, gates@, *cfg, views(splits@)),
{
    let level: Quantity = match cfg.threshold_mode {
        ThresholdMode::Amplitude => cfg.amp_threshold,
        ThresholdMode::Snr => r.snr_level,
    };
    let all: Vec<Echo> = find_echoes(r, level);
    let late: bool = is_surface_after_bottom(r, &all, gates);
    let depth: Option<&Vec<Quantity>> = if late {
        None
    } else {
        Some(&r.depth_mm)
    };
    let raw: Vec<Candidate> = make_candidates(r, &all, gates, cfg, depth);
    assert(views(raw@) =~= raw_candidates(*r, gates@, *cfg));
    let finalists: Vec<Candidate> = apply_splits(raw, splits, r, gates, cfg, depth);
    Analysis {
        noise_rms: r.noise_rms,
        threshold_value: level,
        threshold_mode: cfg.threshold_mode.as_str().to_string(),
        surface_sample: r.surface_sample,
        surface_time_ns: r.surface_time_ns,
        error: if late {
            Some("surface_after_bottom".to_string())
        } else {
            None
        },
        candidates: sort_ranked(finalists),
    }
}

} // verus!
