//! Fixtures: what is refused, and what is installed.

use echo_bench::db::apply_fixture;
use echo_bench::fixture::{
    clip, echo_span, power_of_two, Defaults, Echo, Fixture, GateSpec, Grid, Noise, PositionSpec, Rng,
};
use echo_bench::quantity::Quantity;
use echo_bench::signal::ThresholdMode;

fn q(x: f64) -> Quantity {
    Quantity::from_bits(x.to_bits())
}

fn echo(sample: usize) -> Echo {
    Echo { sample, fwhm_samples: q(14.0), amp: q(0.8), carrier_period_samples: q(20.0), phase: q(0.0) }
}

fn gate(id: &str, start: usize, end: usize, role: &str) -> GateSpec {
    GateSpec { id: id.to_string(), label: id.to_uppercase(), start, end, role: role.to_string() }
}

fn position(id: &str, surface: Option<usize>) -> PositionSpec {
    PositionSpec { id: id.to_string(), name: format!("pos {}", id), echoes: vec![], surface_sample: surface }
}

fn sound() -> Fixture {
    Fixture {
        schema: "echo-bench-fixture/1".to_string(),
        name: "bench".to_string(),
        sample_count: 1024,
        sample_interval_ns: q(10.0),
        velocity_m_s: q(5900.0),
        probe_delay_ns: q(2000.0),
        min_resolvable_ns: q(200.0),
        noise_window: [720, 800],
        defaults: Defaults { surface_sample: 300, surface: echo(300), bottom: echo(900) },
        noise: Noise { rms: q(0.01), seed: 42 },
        grid: Grid { rows: 2, cols: 3, dx_mm: q(5.0), dy_mm: q(5.0) },
        gates: vec![gate("b", 850, 950, "bottom"), gate("s", 250, 350, "surface"), gate("i", 350, 850, "inspection")],
        positions: vec![
            position("p0", None),
            position("p1", Some(310)),
            position("p2", None),
            position("p3", None),
            position("p4", None),
            position("p5", None),
        ],
    }
}

fn fault(change: impl Fn(&mut Fixture)) -> String {
    let mut fx = sound();
    change(&mut fx);
    fx.validate().unwrap_err()
}

#[test]
fn a_sound_fixture_is_accepted() {
    assert_eq!(sound().validate(), Ok(()));
}

#[test]
fn each_fault_has_its_message() {
    assert_eq!(fault(|f| f.schema.push('x')), "unsupported fixture schema");
    assert_eq!(fault(|f| f.sample_count = 1000), "sample_count must be a positive power of two");
    assert_eq!(fault(|f| f.sample_count = 0), "sample_count must be a positive power of two");
    let positive = "interval, velocity and resolution must be positive";
    assert_eq!(fault(|f| f.sample_interval_ns = q(0.0)), positive);
    assert_eq!(fault(|f| f.velocity_m_s = q(-1.0)), positive);
    assert_eq!(fault(|f| f.min_resolvable_ns = q(-0.0)), positive);
    assert_eq!(fault(|f| f.noise.rms = q(-0.1)), "noise rms must be non-negative");
    let window = "noise_window must be ordered and inside the record";
    assert_eq!(fault(|f| f.noise_window = [800, 800]), window);
    assert_eq!(fault(|f| f.noise_window = [720, 1025]), window);
    assert_eq!(fault(|f| f.gates.clear()), "at least one gate is required");
    assert_eq!(fault(|f| f.gates[0].end = 1025), "gate b has invalid bounds");
    assert_eq!(fault(|f| f.gates[2].end = 350), "gate i has invalid bounds");
    assert_eq!(fault(|f| f.gates[1].end = 351), "gates s and i overlap");
    assert_eq!(fault(|f| f.gates[1].role = "other".to_string()), "a surface gate is required");
    assert_eq!(fault(|f| f.gates[0].role = "other".to_string()), "a bottom gate is required");
    assert_eq!(fault(|f| f.grid.rows = 3), "grid size must match the number of positions");
}

#[test]
fn gates_of_a_sound_fixture_share_no_sample() {
    let fx = sound();
    for sample in 0..1024 {
        assert!(fx.gates.iter().filter(|g| g.start <= sample && sample < g.end).count() <= 1);
    }
}

#[test]
fn installing_lays_positions_out_row_by_row() {
    let fx = sound();
    let inst = apply_fixture(&fx);
    assert_eq!(inst.config.threshold_mode, ThresholdMode::Amplitude);
    assert_eq!(inst.config.amp_threshold, q(0.15));
    assert_eq!(inst.config.snr_threshold, q(4.0));
    assert_eq!(inst.config.velocity_m_s, q(5900.0));
    assert_eq!(inst.config.noise_window, [720, 800]);
    assert_eq!(inst.gates.iter().map(|g| g.id.as_str()).collect::<Vec<_>>(), vec!["b", "s", "i"]);
    assert_eq!(inst.gates[0].label, "B");
    assert_eq!((inst.gates[2].start, inst.gates[2].end, inst.gates[2].role.as_str()), (350, 850, "inspection"));
    assert_eq!(
        inst.positions.iter().map(|p| (p.index, p.column, p.row)).collect::<Vec<_>>(),
        vec![(0, 0, 0), (1, 1, 0), (2, 2, 0), (3, 0, 1), (4, 1, 1), (5, 2, 1)]
    );
    assert_eq!(inst.positions[0].surface_sample, 300);
    assert_eq!(inst.positions[1].surface_sample, 310);
    assert_eq!(inst.positions[4].name, "pos p4");
}

#[test]
fn powers_of_two_are_recognised() {
    assert_eq!((0..17).filter(|n| power_of_two(*n)).collect::<Vec<usize>>(), vec![1, 2, 4, 8, 16]);
    assert!(power_of_two(1 << 40));
    assert!(!power_of_two((1 << 40) + 1));
}

#[test]
fn the_generator_repeats_itself() {
    let mut a = Rng::new(42);
    let mut b = Rng::new(42);
    for _ in 0..100 {
        assert_eq!(a.next_u64(), b.next_u64());
    }
    // One step from 1: 1 ^ 1 << 25, then ^ >> 27, scrambled.
    let mut c = Rng::new(0);
    let mut d = Rng::new(1);
    let first = c.next_u64();
    assert_eq!(first, d.next_u64());
    assert_eq!(first, ((1u64 << 25) | 1).wrapping_mul(0x2545_F491_4F6C_DD1D));
    let mut e = Rng::new(1);
    assert_eq!(e.next_fraction(), first >> 11);
}

#[test]
fn echoes_stay_inside_the_record() {
    assert_eq!(echo_span(10, 4, 100), (6, 15));
    assert_eq!(echo_span(2, 4, 100), (0, 7));
    assert_eq!(echo_span(98, 4, 100), (94, 100));
    let (lo, hi) = echo_span(300, 4, 100);
    assert!(lo >= hi);
}

#[test]
fn clipping_stops_at_full_scale() {
    let mut w: Vec<Quantity> = [0.5, 1.0, 1.5, -1.0, -2.0, -0.3].iter().map(|x| q(*x)).collect();
    clip(&mut w);
    assert_eq!(w, [0.5, 1.0, 1.0, -1.0, -1.0, -0.3].iter().map(|x| q(*x)).collect::<Vec<_>>());
}
