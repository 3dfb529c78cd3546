//! The fixture: what a bench is set up from and its checks, and the parts of
//! waveform synthesis that decide on samples.

use vstd::arithmetic::power2::pow2;
use vstd::prelude::*;

use crate::order::{
    ascending, lemma_sorted_members, sort_ranked, sorted, sorting_orders_and_keeps_every_item, views, Ranked,
};
use crate::quantity::Quantity;
use crate::seqs::{first_where, lemma_first_found, lemma_none_found};
use crate::text::{join2, join3, join4, same_text};

verus! {

/// An echo to be rendered into a waveform.
#[derive(Clone, Copy, Debug)]
pub struct Echo {
    pub sample: usize,
    pub fwhm_samples: Quantity,
    pub amp: Quantity,
    pub carrier_period_samples: Quantity,
    pub phase: Quantity,
}

/// A scan position.
#[derive(Clone, Debug)]
pub struct PositionSpec {
    pub id: String,
    pub name: String,
    pub echoes: Vec<Echo>,
    pub surface_sample: Option<usize>,
}

/// A gate.
#[derive(Clone, Debug)]
pub struct GateSpec {
    pub id: String,
    pub label: String,
    pub start: usize,
    pub end: usize,
    pub role: String,
}

/// What every position has unless it says otherwise.
#[derive(Clone, Copy, Debug)]
pub struct Defaults {
    pub surface_sample: usize,
    pub surface: Echo,
    pub bottom: Echo,
}

/// The noise floor.
#[derive(Clone, Copy, Debug)]
pub struct Noise {
    pub rms: Quantity,
    pub seed: u64,
}

/// The grid of scan positions.
#[derive(Clone, Copy, Debug)]
pub struct Grid {
    pub rows: usize,
    pub cols: usize,
    pub dx_mm: Quantity,
    pub dy_mm: Quantity,
}

/// What a bench is set up from.
#[derive(Clone, Debug)]
pub struct Fixture {
    pub schema: String,
    pub name: String,
    pub sample_count: usize,
    pub sample_interval_ns: Quantity,
    pub velocity_m_s: Quantity,
    pub probe_delay_ns: Quantity,
    pub min_resolvable_ns: Quantity,
    pub noise_window: [usize; 2],
    pub defaults: Defaults,
    pub noise: Noise,
    pub grid: Grid,
    pub gates: Vec<GateSpec>,
    pub positions: Vec<PositionSpec>,
}

// ---------------------------------------------------------------- powers of two

/// Whether `n` is a power of two.
pub open spec fn is_pow2(n: nat) -> bool {
    exists|k: nat| n == pow2(k)
}

proof fn lemma_odd_power(n: nat)
    requires
        n % 2 == 1,
        is_pow2(n),
    ensures
        n == 1,
{
    let k = choose|k: nat| n == pow2(k);
    if k > 0 {
        vstd::arithmetic::power2::lemma_pow2_unfold(k);
    } else {
        vstd::arithmetic::power2::lemma2_to64();
    }
}

proof fn lemma_half_power(n: nat)
    requires
        n % 2 == 0,
        n > 0,
    ensures
        is_pow2(n) == is_pow2(n / 2),
{
    if is_pow2(n) {
        let k = choose|k: nat| n == pow2(k);
        vstd::arithmetic::power2::lemma2_to64();
        if k > 0 {
            vstd::arithmetic::power2::lemma_pow2_unfold(k);
            assert(n / 2 == pow2((k - 1) as nat));
        }
    }
    if is_pow2(n / 2) {
        let k = choose|k: nat| n / 2 == pow2(k);
        vstd::arithmetic::power2::lemma_pow2_unfold(k + 1);
        assert(n == pow2(k + 1));
    }
}

/// Whether `n` is a power of two.
pub fn power_of_two(n: usize) -> (r: bool)
    ensures
        r == is_pow2(n as nat),
{
    let mut m: usize = n;
    if m == 0 {
        proof {
            if is_pow2(0) {
                let k = choose|k: nat| 0 == pow2(k);
                vstd::arithmetic::power2::lemma_pow2_pos(k);
            }
        }
        return false;
    }
    while m % 2 == 0
        invariant
            m > 0,
            is_pow2(m as nat) == is_pow2(n as nat),
        decreases m,
    {
        proof {
            lemma_half_power(m as nat);
        }
        m = m / 2;
    }
    proof {
        if is_pow2(m as nat) {
            lemma_odd_power(m as nat);
        } else {
            vstd::arithmetic::power2::lemma2_to64();
            assert(pow2(0) == 1);
        }
    }
    m == 1
}

// ---------------------------------------------------------------- validation

/// A gate by its interval and its place in the fixture.
pub struct GateSlot {
    pub start: usize,
    pub end: usize,
    pub index: usize,
}

/// What a gate slot holds.
#[verifier::ext_equal]
pub struct SlotModel {
    pub start: int,
    pub end: int,
    pub index: int,
}

impl View for GateSlot {
    type V = SlotModel;

    open spec fn view(&self) -> SlotModel {
        SlotModel { start: self.start as int, end: self.end as int, index: self.index as int }
    }
}

/// Slots are sorted by their start.
impl Ranked for GateSlot {
    open spec fn ranks(a: SlotModel, b: SlotModel) -> bool {
        a.start <= b.start
    }

    proof fn ranks_total(a: SlotModel, b: SlotModel) {
    }

    proof fn ranks_transitive(a: SlotModel, b: SlotModel, c: SlotModel) {
    }

    fn ranks_no_higher(&self, other: &GateSlot) -> (r: bool) {
        self.start <= other.start
    }
}

/// The gates as slots, in the order of the fixture.
pub open spec fn slots(gates: Seq<GateSpec>) -> Seq<SlotModel> {
    Seq::new(
        gates.len(),
        |i: int| SlotModel { start: gates[i].start as int, end: gates[i].end as int, index: i },
    )
}

pub open spec fn out_of_bounds(sample_count: int) -> spec_fn(GateSpec) -> bool {
    |g: GateSpec| g.end <= g.start || g.end > sample_count
}

pub open spec fn in_role(role: Seq<char>) -> spec_fn(GateSpec) -> bool {
    |g: GateSpec| g.role@ == role
}

/// Whether the slot at place `k` reaches into the next.
pub open spec fn clashes(s: Seq<SlotModel>, k: int) -> bool {
    0 <= k < s.len() - 1 && s[k].end > s[k + 1].start
}

/// The first place from `k` on where a slot reaches into the next.
pub open spec fn first_clash(s: Seq<SlotModel>, k: int) -> Option<int>
    decreases s.len() - k,
{
    if k + 1 >= s.len() {
        None
    } else if clashes(s, k) {
        Some(k)
    } else {
        first_clash(s, k + 1)
    }
}

impl Fixture {
    /// What is wrong with the fixture apart from its grid, if anything: the first
    /// fault in the order in which they are checked.
    pub open spec fn fault_before_grid(&self) -> Option<Seq<char>> {
        let zero = Quantity { bits: 0 };
        let by_start = sorted::<GateSlot>(slots(self.gates@));
        let (w0, w1) = (self.noise_window@[0], self.noise_window@[1]);
        if self.schema@ != "echo-bench-fixture/1"@ {
            Some("unsupported fixture schema"@)
        } else if !is_pow2(self.sample_count as nat) {
            Some("sample_count must be a positive power of two"@)
        } else if self.sample_interval_ns.le(zero) || self.velocity_m_s.le(zero) || self.min_resolvable_ns.le(zero) {
            Some("interval, velocity and resolution must be positive"@)
        } else if self.noise.rms.lt(zero) {
            Some("noise rms must be non-negative"@)
        } else if w1 <= w0 || w1 > self.sample_count {
            Some("noise_window must be ordered and inside the record"@)
        } else if self.gates@.len() == 0 {
            Some("at least one gate is required"@)
        } else if let Some(i) = first_where(self.gates@, out_of_bounds(self.sample_count as int)) {
            Some("gate "@ + self.gates@[i].id@ + " has invalid bounds"@)
        } else if let Some(k) = first_clash(by_start, 0) {
            Some("gates "@ + self.gates@[by_start[k].index].id@ + " and "@ + self.gates@[by_start[k + 1].index].id@ + " overlap"@)
        } else if first_where(self.gates@, in_role("surface"@)) is None {
            Some("a surface gate is required"@)
        } else if first_where(self.gates@, in_role("bottom"@)) is None {
            Some("a bottom gate is required"@)
        } else {
            None
        }
    }

    /// What is wrong with the fixture, if anything.
    pub open spec fn fault(&self) -> Option<Seq<char>> {
        if self.fault_before_grid() is Some {
            self.fault_before_grid()
        } else if self.grid.rows * self.grid.cols != self.positions@.len() {
            Some("grid size must match the number of positions"@)
        } else {
            None
        }
    }

    /// Checks the fixture. The size of the grid has to fit a machine word once
    /// everything else is in order.
    pub fn validate(&self) -> (r: Result<(), String>)
        requires
            self.fault_before_grid() is None ==> self.grid.rows * self.grid.cols <= usize::MAX,
        ensures
            (match r {
                Ok(_) => self.fault() is None,
                Err(m) => self.fault() == Some(m@),
            }),
    {
        let zero: Quantity = Quantity::from_bits(0);
        if !same_text(self.schema.as_str(), "echo-bench-fixture/1") {
            return Err("unsupported fixture schema".to_owned());
        }
        if !power_of_two(self.sample_count) {
            return Err("sample_count must be a positive power of two".to_owned());
        }
        if self.sample_interval_ns.is_at_most(zero) || self.velocity_m_s.is_at_most(zero) || self.min_resolvable_ns.is_at_most(zero) {
            return Err("interval, velocity and resolution must be positive".to_owned());
        }
        if self.noise.rms.is_below(zero) {
            return Err("noise rms must be non-negative".to_owned());
        }
        let w0: usize = self.noise_window[0];
        let w1: usize = self.noise_window[1];
        if w1 <= w0 || w1 > self.sample_count {
            return Err("noise_window must be ordered and inside the record".to_owned());
        }
        if self.gates.len() == 0 {
            return Err("at least one gate is required".to_owned());
        }
        if let Some(i) = find_out_of_bounds(&self.gates, self.sample_count) {
            return Err(join3("gate ", self.gates[i].id.as_str(), " has invalid bounds"));
        }
        if let Some((a, b)) = find_clash(&self.gates) {
            let head: String = join4("gates ", self.gates[a].id.as_str(), " and ", self.gates[b].id.as_str());
            return Err(join2(head.as_str(), " overlap"));
        }
        if !has_role(&self.gates, "surface") {
            return Err("a surface gate is required".to_owned());
        }
        if !has_role(&self.gates, "bottom") {
            return Err("a bottom gate is required".to_owned());
        }
        if self.grid.rows * self.grid.cols != self.positions.len() {
            return Err("grid size must match the number of positions".to_owned());
        }
        Ok(())
    }

    /// The surface sample of a position: its own, or the default.
    pub fn surface_sample_for(&self, p: &PositionSpec) -> (r: usize)
        ensures
            r == (if let Some(s) = p.surface_sample {
                s
            } else {
                self.defaults.surface_sample
            }),
    {
        match p.surface_sample {
            Some(s) => s,
            None => self.defaults.surface_sample,
        }
    }

    /// The column and row of a position in the grid.
    pub fn grid_place(&self, index: usize) -> (r: (usize, usize))
        requires
            self.fault() is None,
            index < self.positions@.len(),
        ensures
            r.0 < self.grid.cols,
            r.1 < self.grid.rows,
            index == r.1 * self.grid.cols + r.0,
    {
        proof {
            assert(self.grid.cols > 0) by (nonlinear_arith)
                requires
                    self.grid.rows * self.grid.cols > 0,
            ;
            vstd::arithmetic::div_mod::lemma_fundamental_div_mod(index as int, self.grid.cols as int);
            assert((index as int) / (self.grid.cols as int) < self.grid.rows) by (nonlinear_arith)
                requires
                    index < self.grid.rows * self.grid.cols,
                    self.grid.cols > 0,
            ;
            assert(self.grid.cols * (index as int / self.grid.cols as int) == (index as int / self.grid.cols as int) * self.grid.cols) by (nonlinear_arith);
        }
        (index % self.grid.cols, index / self.grid.cols)
    }
}

proof fn lemma_no_clash(s: Seq<SlotModel>, k: int, i: int)
    requires
        first_clash(s, k) is None,
        0 <= k <= i < s.len() - 1,
    ensures
        s[i].end <= s[i + 1].start,
    decreases s.len() - k,
{
    if k < i {
        lemma_no_clash(s, k + 1, i);
    }
}

proof fn lemma_slots_apart(s: Seq<SlotModel>, i: int, j: int)
    requires
        first_clash(s, 0) is None,
        ascending::<GateSlot>(s),
        0 <= i < j < s.len(),
    ensures
        s[i].end <= s[j].start,
{
    lemma_no_clash(s, 0, i);
    if i + 1 < j {
        assert(GateSlot::ranks(s[i + 1], s[j]));
    }
}

/// In a fixture that is in order no sample lies in two gates.
pub proof fn gates_share_no_sample(fx: Fixture, a: int, b: int, sample: int)
    requires
        fx.fault() is None,
        0 <= a < b < fx.gates@.len(),
    ensures
        !(fx.gates@[a].start <= sample < fx.gates@[a].end && fx.gates@[b].start <= sample < fx.gates@[b].end),
{
    let all = slots(fx.gates@);
    let by_start = sorted::<GateSlot>(all);
    sorting_orders_and_keeps_every_item::<GateSlot>(all);
    lemma_sorted_members::<GateSlot>(all);
    assert(all[a] == all[a] && all[b] == all[b]);
    assert(all.contains(all[a]) && all.contains(all[b]));
    assert(by_start.contains(all[a]) && by_start.contains(all[b]));
    let i = choose|i: int| 0 <= i < by_start.len() && by_start[i] == all[a];
    let j = choose|j: int| 0 <= j < by_start.len() && by_start[j] == all[b];
    if i < j {
        lemma_slots_apart(by_start, i, j);
    } else {
        assert(i != j);
        lemma_slots_apart(by_start, j, i);
    }
}

fn find_out_of_bounds(gates: &Vec<GateSpec>, sample_count: usize) -> (r: Option<usize>)
    ensures
        (match r {
            Some(i) => i < gates@.len() && first_where(gates@, out_of_bounds(sample_count as int)) == Some(i as int),
            None => first_where(gates@, out_of_bounds(sample_count as int)) is None,
        }),
{
    let ghost p = out_of_bounds(sample_count as int);
    let mut i: usize = 0;
    while i < gates.len()
        invariant
            i <= gates@.len(),
            p == out_of_bounds(sample_count as int),
            forall|j: int| 0 <= j < i ==> !p(#[trigger] gates@[j]),
        decreases gates@.len() - i,
    {
        if gates[i].end <= gates[i].start || gates[i].end > sample_count {
            proof {
                assert(p(gates@[i as int]));
                lemma_first_found(gates@, p, i as int);
            }
            return Some(i);
        }
        assert(!p(gates@[i as int]));
        i = i + 1;
    }
    proof {
        lemma_none_found(gates@, p);
    }
    None
}

fn has_role(gates: &Vec<GateSpec>, role: &str) -> (r: bool)
    ensures
        r == (first_where(gates@, in_role(role@)) is Some),
{
    let ghost p = in_role(role@);
    let mut i: usize = 0;
    while i < gates.len()
        invariant
            i <= gates@.len(),
            p == in_role(role@),
            forall|j: int| 0 <= j < i ==> !p(#[trigger] gates@[j]),
        decreases gates@.len() - i,
    {
        if same_text(gates[i].role.as_str(), role) {
            proof {
                assert(p(gates@[i as int]));
                lemma_first_found(gates@, p, i as int);
            }
            return true;
        }
        assert(!p(gates@[i as int]));
        i = i + 1;
    }
    proof {
        lemma_none_found(gates@, p);
    }
    false
}

fn find_clash(gates: &Vec<GateSpec>) -> (r: Option<(usize, usize)>)
    ensures
        ({
            let s = sorted::<GateSlot>(slots(gates@));
            match r {
                Some((a, b)) => {
                    &&& first_clash(s, 0) matches Some(k)
                    &&& a == s[k].index
                    &&& b == s[k + 1].index
                    &&& a < gates@.len()
                    &&& b < gates@.len()
                },
                None => first_clash(s, 0) is None,
            }
        }),
{
    let mut list: Vec<GateSlot> = Vec::new();
    let mut i: usize = 0;
    while i < gates.len()
        invariant
            i <= gates@.len(),
            list@.len() == i,
            forall|j: int| 0 <= j < i ==> (#[trigger] list@[j])@ == slots(gates@)[j],
        decreases gates@.len() - i,
    {
        list.push(GateSlot { start: gates[i].start, end: gates[i].end, index: i });
        i = i + 1;
    }
    assert(views(list@) =~= slots(gates@));
    let ghost s = sorted::<GateSlot>(slots(gates@));
    proof {
        let n = gates@.len();
        let known = |v: SlotModel| 0 <= v.index < n;
        crate::order::lemma_sorted_all::<GateSlot>(slots(gates@), known);
        assert forall|k: int| 0 <= k < s.len() implies 0 <= (#[trigger] s[k]).index < n by {
            assert(known(s[k]));
        }
    }
    let order: Vec<GateSlot> = sort_ranked(list);
    let mut k: usize = 0;
    while k < order.len() && order.len() - k > 1
        invariant
            s == views(order@),
            k <= order@.len(),
            first_clash(s, k as int) == first_clash(s, 0),
            forall|k: int| 0 <= k < s.len() ==> 0 <= (#[trigger] s[k]).index < gates@.len(),
            s == sorted::<GateSlot>(slots(gates@)),
        decreases order@.len() - k,
    {
        assert(s[k as int] == order@[k as int]@);
        assert(s[k + 1] == order@[k + 1]@);
        if order[k].end > order[k + 1].start {
            return Some((order[k].index, order[k + 1].index));
        }
        k = k + 1;
    }
    None
}

// ---------------------------------------------------------------- noise

/// The state of the generator after one step.
pub open spec fn stirred(x: u64) -> u64 {
    let a = x ^ (x >> 12u64);
    let b = a ^ (a << 25u64);
    b ^ (b >> 27u64)
}

/// What the generator gives out in a state.
pub open spec fn scrambled(x: u64) -> u64 {
    x.wrapping_mul(0x2545_f491_4f6c_dd1d)
}

/// Deterministic xorshift64* PRNG so fixtures replay identically everywhere.
pub struct Rng(u64);

impl Rng {
    /// The state of the generator.
    pub closed spec fn state(&self) -> u64 {
        self.0
    }

    /// A generator that starts from a seed; 0 stands for 1.
    pub fn new(seed: u64) -> (r: Rng)
        ensures
            r.state() == (if seed == 0 {
                1
            } else {
                seed
            }),
    {
        if seed < 1 {
            Rng(1)
        } else {
            Rng(seed)
        }
    }

    /// The next number.
    pub fn next_u64(&mut self) -> (r: u64)
        ensures
            final(self).state() == stirred(old(self).state()),
            r == scrambled(stirred(old(self).state())),
    {
        let mut x: u64 = self.0;
        x = x ^ (x >> 12u64);
        x = x ^ (x << 25u64);
        x = x ^ (x >> 27u64);
        self.0 = x;
        x.wrapping_mul(0x2545_f491_4f6c_dd1d)
    }

    /// The upper 53 bits of the next number: in units of 2^-53 a number from 0 up
    /// to, but not including, 1.
    pub fn next_fraction(&mut self) -> (r: u64)
        ensures
            final(self).state() == stirred(old(self).state()),
            r == scrambled(stirred(old(self).state())) >> 11u64,
            r < 0x20_0000_0000_0000,
    {
        let n: u64 = self.next_u64();
        assert((n >> 11u64) < 0x20_0000_0000_0000) by (bit_vector);
        n >> 11u64
    }
}

/// A generator whose state is not zero never comes to the state zero, in which it
/// would stay.
pub proof fn the_generator_never_sticks(x: u64)
    requires
        x != 0,
    ensures
        stirred(x) != 0,
        stirred(0) == 0,
{
    assert(x != 0 ==> ({
        let a = x ^ (x >> 12u64);
        let b = a ^ (a << 25u64);
        b ^ (b >> 27u64)
    }) != 0) by (bit_vector);
    assert(({
        let a = 0u64 ^ (0u64 >> 12u64);
        let b = a ^ (a << 25u64);
        b ^ (b >> 27u64)
    }) == 0) by (bit_vector);
}

// ---------------------------------------------------------------- rendering

/// Whether sample `i` of a record of `len` samples is at most `half` away from `sample`.
pub open spec fn reached(sample: int, half: int, len: int, i: int) -> bool {
    0 <= i < len && -half <= i - sample <= half
}

/// The samples that an echo reaches: those of the record that are at most `half`
/// away from its centre, as a half-open interval.
pub fn echo_span(sample: usize, half: i64, len: usize) -> (r: (usize, usize))
    ensures
        r.0 <= r.1 <= len,
        forall|i: int| #[trigger] reached(sample as int, half as int, len as int, i) <==> r.0 <= i < r.1,
{
    if half < 0 {
        return (0, 0);
    }
    let reach: u64 = half as u64;
    let centre: u64 = sample as u64;
    let lo: u64 = if centre >= reach {
        centre - reach
    } else {
        0
    };
    if lo >= len as u64 {
        return (len, len);
    }
    let room: u64 = len as u64 - lo;
    let width: u64 = if centre >= reach {
        reach
    } else {
        centre
    };
    let hi: u64 = if reach < room && width + reach < room {
        lo + width + reach + 1
    } else {
        len as u64
    };
    (lo as usize, hi as usize)
}

/// The bit pattern of the upper rail of the instrument, 1.
pub const FULL_SCALE: u64 = 0x3ff0_0000_0000_0000;

/// The bit pattern of the lower rail of the instrument, -1.
pub const NEGATIVE_FULL_SCALE: u64 = 0xbff0_0000_0000_0000;

/// A sample as the instrument records it: brought to the nearer rail where it lies
/// beyond one.
pub open spec fn clipped(v: Quantity) -> Quantity {
    if (Quantity { bits: FULL_SCALE }).lt(v) {
        Quantity { bits: FULL_SCALE }
    } else if v.lt(Quantity { bits: NEGATIVE_FULL_SCALE }) {
        Quantity { bits: NEGATIVE_FULL_SCALE }
    } else {
        v
    }
}

/// Clips a waveform to the rails of the instrument.
pub fn clip(wave: &mut Vec<Quantity>)
    ensures
        final(wave)@ == Seq::new(old(wave)@.len(), |i: int| clipped(old(wave)@[i])),
{
    let ghost w = wave@;
    let n: usize = wave.len();
    let mut i: usize = 0;
    while i < n
        invariant
            i <= n == w.len(),
            wave@.len() == n,
            forall|j: int| 0 <= j < i ==> #[trigger] wave@[j] == clipped(w[j]),
            forall|j: int| i <= j < n ==> #[trigger] wave@[j] == w[j],
        decreases n - i,
    {
        let v: Quantity = wave[i];
        if Quantity::from_bits(FULL_SCALE).is_below(v) {
            wave[i] = Quantity::from_bits(FULL_SCALE);
        } else if v.is_below(Quantity::from_bits(NEGATIVE_FULL_SCALE)) {
            wave[i] = Quantity::from_bits(NEGATIVE_FULL_SCALE);
        }
        i = i + 1;
    }
    assert(wave@ =~= Seq::new(w.len(), |i: int| clipped(w[i])));
}

} // verus!
