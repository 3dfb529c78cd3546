//! Analyses of synthetic waveforms.

use echo_bench::fixture::{echo_span, Rng};
use echo_bench::quantity::Quantity;
use echo_bench::signal::{
    analyze, assign_gate, noise_span, smoothing_window, split_candidate, AnalConfig, Candidate, Gate, Record, Split,
    ThresholdMode, PROMINENCE, SATURATION, VALLEY,
};
use echo_bench::transform::{padded_gain, transform_order};

fn q(x: f64) -> Quantity {
    Quantity::from_bits(x.to_bits())
}

fn qs(v: &[f64]) -> Vec<Quantity> {
    v.iter().map(|x| q(*x)).collect()
}

fn num(x: Quantity) -> f64 {
    f64::from_bits(x.bits)
}

fn render(buf: &mut [f64], sample: usize, fwhm: f64, amp: f64, phase: f64) {
    let sigma = fwhm / (2.0 * (2.0_f64.ln()).sqrt());
    let half = (3.0 * sigma).ceil() as i64;
    let (lo, hi) = echo_span(sample, half, buf.len());
    for i in lo..hi {
        let d = i as f64 - sample as f64;
        let gauss = (-(d * d) / (2.0 * sigma * sigma)).exp();
        let carrier = (2.0 * std::f64::consts::PI * d / 20.0 + phase).cos();
        buf[i] += amp * gauss * carrier;
    }
}

fn fft(re: &mut [f64], im: &mut [f64], inverse: bool) {
    let n = re.len();
    let order = transform_order(n);
    for i in 0..n {
        let j = order[i];
        if i < j {
            re.swap(i, j);
            im.swap(i, j);
        }
    }
    let sign = if inverse { 1.0 } else { -1.0 };
    let mut len = 2usize;
    while len <= n {
        let ang = sign * 2.0 * std::f64::consts::PI / len as f64;
        let (w_re, w_im) = (ang.cos(), ang.sin());
        let half = len / 2;
        let mut start = 0;
        while start < n {
            let (mut cur_re, mut cur_im) = (1.0f64, 0.0f64);
            for k in 0..half {
                let (a, b) = (start + k, start + k + half);
                let tre = cur_re * re[b] - cur_im * im[b];
                let tim = cur_re * im[b] + cur_im * re[b];
                re[b] = re[a] - tre;
                im[b] = im[a] - tim;
                re[a] += tre;
                im[a] += tim;
                let nre = cur_re * w_re - cur_im * w_im;
                cur_im = cur_re * w_im + cur_im * w_re;
                cur_re = nre;
            }
            start += len;
        }
        len <<= 1;
    }
    if inverse {
        for v in re.iter_mut().chain(im.iter_mut()) {
            *v /= n as f64;
        }
    }
}

fn envelope(wave: &[f64]) -> Vec<f64> {
    let n = wave.len();
    let size = n.next_power_of_two();
    let mut re = vec![0.0; size];
    let mut im = vec![0.0; size];
    re[..n].copy_from_slice(wave);
    fft(&mut re, &mut im, false);
    for k in 0..size {
        let gain = padded_gain(k, size) as f64;
        re[k] *= gain;
        im[k] *= gain;
    }
    fft(&mut re, &mut im, true);
    (0..n).map(|i| (re[i] * re[i] + im[i] * im[i]).sqrt()).collect()
}

fn time_ns(sample: usize, cfg: &AnalConfig) -> f64 {
    sample as f64 * num(cfg.sample_interval_ns)
}

fn range_mm(sample: usize, cfg: &AnalConfig) -> f64 {
    let material = time_ns(sample, cfg) - num(cfg.probe_delay_ns);
    material.max(0.0) * 1e-9 * num(cfg.velocity_m_s) / 2.0 * 1000.0
}

fn record_from(wave: &[f64], env: &[f64], smooth: &[f64], cfg: &AnalConfig, surface: usize) -> Record {
    let n = wave.len();
    let noise = match noise_span(cfg.noise_window, n) {
        Some((a, b)) => (wave[a..b].iter().map(|x| x * x).sum::<f64>() / (b - a) as f64).sqrt(),
        None => 0.0,
    };
    let surf = range_mm(surface, cfg);
    let range: Vec<f64> = (0..n).map(|i| range_mm(i, cfg)).collect();
    Record {
        wave: qs(wave),
        env: qs(env),
        smooth: qs(smooth),
        snr: env.iter().map(|x| q(if noise > 0.0 { x / noise } else { f64::NAN })).collect(),
        prominence: env.iter().map(|x| q(f64::from_bits(PROMINENCE) * x)).collect(),
        valley: env.iter().map(|x| q(f64::from_bits(VALLEY) * x)).collect(),
        time_ns: (0..n).map(|i| q(time_ns(i, cfg))).collect(),
        range_mm: qs(&range),
        depth_mm: range.iter().map(|x| q(x - surf)).collect(),
        noise_rms: q(noise),
        snr_level: q(num(cfg.snr_threshold) * noise),
        min_sep_samples: (num(cfg.min_resolvable_ns) / num(cfg.sample_interval_ns)).round().max(1.0) as usize,
        surface_sample: surface,
        surface_time_ns: q(time_ns(surface, cfg)),
    }
}

fn record(wave: &[f64], cfg: &AnalConfig, surface: usize) -> Record {
    let env = envelope(wave);
    let mut prefix = vec![0.0f64; env.len() + 1];
    for (i, v) in env.iter().enumerate() {
        prefix[i + 1] = prefix[i] + v;
    }
    let smooth: Vec<f64> = (0..env.len())
        .map(|i| {
            let (lo, hi) = smoothing_window(i, env.len());
            (prefix[hi] - prefix[lo]) / (hi - lo) as f64
        })
        .collect();
    record_from(wave, &env, &smooth, cfg, surface)
}

fn cfg() -> AnalConfig {
    AnalConfig {
        velocity_m_s: q(5900.0),
        probe_delay_ns: q(2000.0),
        sample_interval_ns: q(10.0),
        min_resolvable_ns: q(200.0),
        threshold_mode: ThresholdMode::Amplitude,
        amp_threshold: q(0.15),
        snr_threshold: q(4.0),
        noise_window: [720, 800],
    }
}

fn gate(id: &str, start: usize, end: usize, role: &str) -> Gate {
    Gate { id: id.to_string(), label: id.to_string(), start, end, role: role.to_string() }
}

fn gates() -> Vec<Gate> {
    vec![gate("g", 0, 1024, "inspection")]
}

#[test]
fn two_unresolved_peaks_keep_composite() {
    let mut wave = vec![0.0f64; 1024];
    render(&mut wave, 400, 12.0, 0.34, 0.0);
    render(&mut wave, 416, 12.0, 0.31, 0.5);
    let a = analyze(&record(&wave, &cfg(), 300), &gates(), &cfg(), &vec![]);
    let comp: Vec<&Candidate> = a.candidates.iter().filter(|c| c.composite).collect();
    assert!(!comp.is_empty(), "expected a composite candidate");
    assert!(comp[0].members.len() >= 2);
}

#[test]
fn split_produces_two_children() {
    let mut wave = vec![0.0f64; 1024];
    render(&mut wave, 400, 12.0, 0.4, 0.0);
    render(&mut wave, 416, 12.0, 0.4, 0.5);
    let r = record(&wave, &cfg(), 300);
    let a = analyze(&r, &gates(), &cfg(), &vec![]);
    let parent = a.candidates.iter().find(|c| c.composite).unwrap().clone();
    // Depths from the probe face: a surface at range zero.
    let depth: Vec<Quantity> = (0..1024).map(|i| q(range_mm(i, &cfg()) - 0.0)).collect();
    let children = split_candidate(&parent, &vec![408], &r, &gates(), &cfg(), Some(&depth));
    assert_eq!(children.len(), 2);
    assert!(children.iter().all(|c| c.manual_split));
    assert_eq!(children[0].start_sample, parent.start_sample);
    assert_eq!(children[0].end_sample, 408);
    assert_eq!(children[1].start_sample, 408);
    assert_eq!(children[1].end_sample, parent.end_sample);
    assert_eq!(children[0].key, format!("{}#s1", parent.key));
    assert_eq!(children[1].parent_key, Some(parent.key.clone()));
    assert_eq!(children[1].depth_mm, Some(depth[children[1].peak_sample]));
}

#[test]
fn surface_after_bottom_flags_error_and_no_depth() {
    let mut wave = vec![0.0f64; 1024];
    render(&mut wave, 580, 20.0, 0.8, 0.0);
    render(&mut wave, 560, 20.0, 0.55, 0.0);
    let g = vec![gate("surface", 576, 620, "surface"), gate("bottom", 540, 576, "bottom")];
    let a = analyze(&record(&wave, &cfg(), 590), &g, &cfg(), &vec![]);
    assert_eq!(a.error.as_deref(), Some("surface_after_bottom"));
    assert!(a.candidates.iter().all(|c| c.depth_mm.is_none()));
}

#[test]
fn an_early_surface_leaves_depths() {
    let mut wave = vec![0.0f64; 1024];
    render(&mut wave, 300, 14.0, 0.8, 0.0);
    render(&mut wave, 700, 14.0, 0.6, 0.0);
    let g = vec![gate("surface", 280, 320, "surface"), gate("bottom", 650, 760, "bottom")];
    let r = record(&wave, &cfg(), 300);
    let a = analyze(&r, &g, &cfg(), &vec![]);
    assert_eq!(a.error, None);
    assert_eq!(a.candidates.len(), 2);
    assert_eq!(a.candidates[0].key, "r0c0");
    assert_eq!(a.candidates[1].key, "r1c0");
    assert_eq!(a.candidates[0].gate_id.as_deref(), Some("surface"));
    assert_eq!(a.candidates[1].gate_id.as_deref(), Some("bottom"));
    assert!(a.candidates[0].peak_sample < a.candidates[1].peak_sample);
    let p = a.candidates[1].peak_sample;
    assert_eq!(a.candidates[1].depth_mm, Some(r.depth_mm[p]));
    assert_eq!(a.candidates[1].range_mm, r.range_mm[p]);
    assert_eq!(a.candidates[1].amp, r.env[p]);
    assert_eq!(a.threshold_mode, "amplitude");
    assert_eq!(a.threshold_value, q(0.15));
    assert_eq!(a.surface_sample, 300);
    assert_eq!(num(a.surface_time_ns), 3000.0);
}

#[test]
fn the_snr_level_is_taken_in_snr_mode() {
    let mut rng = Rng::new(7);
    let mut wave: Vec<f64> = (0..1024).map(|_| (rng.next_fraction() as f64 / (1u64 << 53) as f64 - 0.5) * 0.02).collect();
    render(&mut wave, 400, 14.0, 0.8, 0.0);
    let mut c = cfg();
    c.threshold_mode = ThresholdMode::Snr;
    let r = record(&wave, &c, 300);
    let a = analyze(&r, &gates(), &c, &vec![]);
    assert_eq!(a.threshold_value, r.snr_level);
    assert_eq!(a.threshold_mode, "snr");
    assert!(num(a.noise_rms) > 0.0);
    let top = a.candidates.iter().max_by(|x, y| num(x.amp).total_cmp(&num(y.amp))).unwrap();
    assert_eq!(top.snr, r.snr[top.peak_sample]);
}

/// A record with the envelope given outright, above the level where it is positive.
fn drawn(env: &[f64], wave: &[f64], min_sep: usize, surface: usize) -> Record {
    let c = cfg();
    let mut r = record_from(wave, env, env, &c, surface);
    r.min_sep_samples = min_sep;
    r
}

#[test]
fn distinct_lobes_closer_than_the_limit_form_one_candidate() {
    let env = [0.0, 0.2, 0.9, 0.3, 0.8, 0.2, 0.0];
    let flat = [0.0; 7];
    let one = analyze(&drawn(&env, &flat, 3, 0), &gates(), &cfg(), &vec![]).candidates;
    assert_eq!(one.len(), 1);
    assert!(one[0].composite);
    assert_eq!((one[0].start_sample, one[0].end_sample, one[0].peak_sample), (1, 6, 2));
    assert_eq!(one[0].members.iter().map(|m| m.peak_sample).collect::<Vec<_>>(), vec![2, 4]);
    // Two samples apart are resolved where two are enough.
    let two = analyze(&drawn(&env, &flat, 2, 0), &gates(), &cfg(), &vec![]).candidates;
    assert_eq!(two.iter().map(|c| c.key.as_str()).collect::<Vec<_>>(), vec!["r0c0", "r0c1"]);
    assert_eq!(two.iter().map(|c| c.peak_sample).collect::<Vec<_>>(), vec![2, 4]);
    assert!(two.iter().all(|c| !c.composite && c.members.len() == 1));
}

#[test]
fn a_shallow_valley_is_ripple() {
    let env = [0.0, 0.2, 0.9, 0.75, 0.85, 0.2, 0.0];
    let c = analyze(&drawn(&env, &[0.0; 7], 3, 0), &gates(), &cfg(), &vec![]).candidates;
    assert_eq!(c.len(), 1);
    assert!(!c[0].composite);
    // A peak below the prominence fraction is no lobe at all.
    let low = [0.0, 0.2, 0.9, 0.2, 0.4, 0.2, 0.0];
    let d = analyze(&drawn(&low, &[0.0; 7], 3, 0), &gates(), &cfg(), &vec![]).candidates;
    assert_eq!(d.len(), 1);
    assert_eq!(d[0].members.len(), 1);
}

#[test]
fn a_saturated_region_is_one_candidate() {
    let env = [0.0, 0.2, 0.9, 0.3, 0.8, 0.2, 0.0];
    let wave = [0.0, 0.0, 1.0, 0.0, 0.0, 0.0, 0.0];
    let c = analyze(&drawn(&env, &wave, 3, 0), &gates(), &cfg(), &vec![]).candidates;
    assert_eq!(c.len(), 1);
    assert!(c[0].saturated && !c[0].composite);
    let negative = [0.0, 0.0, -1.0, 0.0, 0.0, 0.0, 0.0];
    assert!(analyze(&drawn(&env, &negative, 3, 0), &gates(), &cfg(), &vec![]).candidates[0].saturated);
    assert_eq!(f64::from_bits(SATURATION), 1.0 - 1e-9);
    // The sample behind the interval counts for the mark, not for the grouping.
    let behind = [0.0, 0.0, 0.0, 0.0, 0.0, 0.0, 1.0];
    let d = analyze(&drawn(&env, &behind, 3, 0), &gates(), &cfg(), &vec![]).candidates;
    assert!(d[0].saturated && d[0].composite);
}

#[test]
fn recorded_splits_replace_their_candidate() {
    let env = [0.0, 0.2, 0.9, 0.3, 0.8, 0.2, 0.0, 0.5, 0.0, 0.0];
    let r = drawn(&env, &[0.0; 10], 3, 0);
    let splits = vec![
        Split { parent_key: "r0c0".to_string(), cuts: vec![9, 4, 4, 1, 3] },
        Split { parent_key: "gone".to_string(), cuts: vec![2] },
    ];
    let c = analyze(&r, &gates(), &cfg(), &splits).candidates;
    assert_eq!(c.iter().map(|c| c.key.as_str()).collect::<Vec<_>>(), vec!["r0c0#s1", "r0c0#s2", "r0c0#s3", "r1c0"]);
    assert_eq!(
        c.iter().map(|c| (c.start_sample, c.end_sample, c.peak_sample)).collect::<Vec<_>>(),
        vec![(1, 3, 2), (3, 4, 3), (4, 6, 4), (7, 8, 7)]
    );
    assert!(c[..3].iter().all(|c| c.manual_split && c.parent_key.as_deref() == Some("r0c0")));
    // A split without a cut inside gives the whole back under another key.
    let whole = vec![Split { parent_key: "r0c0".to_string(), cuts: vec![1, 6] }];
    let d = analyze(&r, &gates(), &cfg(), &whole).candidates;
    assert_eq!((d[0].key.as_str(), d[0].start_sample, d[0].end_sample), ("r0c0#s1", 1, 6));
}

#[test]
fn gates_are_open_on_the_right() {
    let g = vec![gate("a", 10, 20, "x"), gate("b", 20, 30, "y")];
    assert_eq!(assign_gate(&g, 9), None);
    assert_eq!(assign_gate(&g, 10).as_deref(), Some("a"));
    assert_eq!(assign_gate(&g, 20).as_deref(), Some("b"));
    assert_eq!(assign_gate(&g, 30), None);
    assert!(g[0].contains(19) && !g[0].contains(20));
}

#[test]
fn windows_stay_inside_the_record() {
    assert_eq!(smoothing_window(0, 100), (0, 10));
    assert_eq!(smoothing_window(50, 100), (41, 60));
    assert_eq!(smoothing_window(99, 100), (90, 100));
    assert_eq!(smoothing_window(2, 5), (0, 5));
    assert_eq!(noise_span([720, 800], 1024), Some((720, 800)));
    assert_eq!(noise_span([720, 800], 750), Some((720, 750)));
    assert_eq!(noise_span([720, 800], 700), None);
}

#[test]
fn modes_are_known_by_their_names() {
    for m in [ThresholdMode::Amplitude, ThresholdMode::Snr] {
        assert_eq!(ThresholdMode::parse(m.as_str()), Some(m));
    }
    assert_eq!(ThresholdMode::parse("loud"), None);
}

#[test]
fn conclusions_are_attached() {
    let env = [0.0, 0.2, 0.9, 0.2, 0.0];
    let mut c = analyze(&drawn(&env, &[0.0; 5], 3, 0), &gates(), &cfg(), &vec![]).candidates.remove(0);
    assert_eq!((c.verdict.clone(), c.note.as_str(), c.orphaned), (None, "", false));
    c.serde_attach("retained".to_string(), "seen".to_string(), None);
    assert_eq!((c.verdict.as_deref(), c.note.as_str(), c.orphaned), (Some("retained"), "seen", false));
    c.serde_attach("rejected".to_string(), String::new(), Some(true));
    assert_eq!((c.verdict.as_deref(), c.note.as_str(), c.orphaned), (Some("rejected"), "", true));
}
