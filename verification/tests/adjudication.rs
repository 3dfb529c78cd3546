//! The adjudication state on a small synthetic bench.

use echo_bench::detection::{detect_regions, Trace};
use echo_bench::model::{
    apply, boot, next_track_id, Calib, Candidate, CandidateKind, Event, Gate, Verdict, World,
};
use echo_bench::quantity::Quantity;
use echo_bench::setup::{ScanSetup, Setup};
use echo_bench::store::{rehydrate, replay, LogRecord};
use echo_bench::web::{
    build_state, check_import, import, post_event, reset_event, snapshot, waveform_digest, ApiError, ResetBody, Status,
};

const N: usize = 64;
const FULL: f64 = 32767.0;

fn q(x: f64) -> Quantity {
    Quantity::from_bits(x.to_bits())
}

fn trace(env: &[f64]) -> Trace {
    Trace {
        raw: env.iter().map(|x| (x * FULL) as i16).collect(),
        envelope: env.iter().map(|x| q(*x)).collect(),
        counts: env.iter().map(|x| q(x * FULL)).collect(),
        normalized: env.iter().map(|x| q(x * FULL / FULL)).collect(),
        near_top: env.iter().map(|x| q(0.9 * x)).collect(),
        ratios: (0..env.len())
            .map(|p| {
                (0..21)
                    .map(|k| {
                        let at = p as i64 + k - 10;
                        if at >= 0 && (at as usize) < env.len() {
                            q(env[at as usize] / env[p])
                        } else {
                            q(0.0)
                        }
                    })
                    .collect()
            })
            .collect(),
    }
}

fn bump(env: &mut [f64], centre: usize, height: f64) {
    for (d, f) in [(0i64, 1.0), (1, 0.8), (2, 0.5), (3, 0.2)] {
        for s in [-d, d] {
            let at = centre as i64 + s;
            if at >= 0 && (at as usize) < env.len() {
                env[at as usize] = env[at as usize].max(f * height);
            }
        }
    }
}

/// Surface at 8, an echo in the middle at 30, bottom at 54.
fn ordinary() -> Vec<f64> {
    let mut env = vec![0.01; N];
    bump(&mut env, 8, 0.8);
    bump(&mut env, 30, 0.5);
    bump(&mut env, 54, 0.6);
    env
}

/// The echo in the middle is clipped.
fn saturated() -> Vec<f64> {
    let mut env = ordinary();
    env[29] = 1.0;
    env[30] = 1.0;
    env[31] = 1.0;
    env
}

/// Two near lobes of the same height in the middle, with a shallow valley.
fn twins() -> Vec<f64> {
    let mut env = ordinary();
    for (i, v) in [(28, 0.3), (29, 0.48), (30, 0.5), (31, 0.45), (32, 0.4), (33, 0.45), (34, 0.5), (35, 0.48), (36, 0.3)] {
        env[i] = v;
    }
    env
}

fn setup_of(envs: &[Vec<f64>]) -> Setup {
    let xs: Vec<f64> = (0..envs.len()).map(|i| 5.0 * i as f64).collect();
    Setup {
        samples: N,
        adc_max: 32767,
        calibs: vec![Calib { id: 1, velocity_ms: q(5900.0) }, Calib { id: 2, velocity_ms: q(5920.0) }],
        gates: vec![
            Gate { kind: "surface".to_string(), lo: 0, hi: 16 },
            Gate { kind: "inspection".to_string(), lo: 16, hi: 48 },
            Gate { kind: "bottom".to_string(), lo: 48, hi: 64 },
        ],
        scans: envs
            .iter()
            .enumerate()
            .map(|(i, env)| ScanSetup {
                id: i as i64 + 1,
                x_mm: q(xs[i]),
                y_mm: q(0.0),
                recorded_surface_sample: 8,
                surface_sample: 8,
                noise_floor: q(0.01),
                trace: trace(env),
                x_gaps: xs.iter().map(|x| q((x - xs[i]).abs())).collect(),
                distances: xs.iter().map(|x| q((x - xs[i]).abs())).collect(),
            })
            .collect(),
        default_threshold_amp: q(0.1 * FULL),
        default_threshold_snr: q(6.0),
        default_levels: vec![q(0.1); envs.len()],
    }
}

fn setup() -> Setup {
    setup_of(&[ordinary(), ordinary(), saturated(), twins()])
}

fn world() -> World {
    boot(setup(), 1, "amp", q(0.1 * FULL), q(6.0), vec![q(0.1); 4]).unwrap()
}

fn bootstrap() -> Event {
    Event::Bootstrap {
        calib_id: 1,
        mode: "amp".to_string(),
        threshold_amp: q(0.1 * FULL),
        threshold_snr: q(6.0),
        levels: vec![q(0.1); 4],
    }
}

fn verdict(id: &str, v: Verdict) -> Event {
    Event::CandidateVerdict { candidate_id: id.to_string(), verdict: v }
}

fn surface(scan_id: i64, sample: i64) -> Event {
    Event::SurfaceCorrected { scan_id, sample }
}

fn track(track_id: i64, ids: &[&str]) -> Event {
    Event::TrackGrouped { track_id, candidate_ids: ids.iter().map(|s| s.to_string()).collect() }
}

fn split(id: &str, cut: i64) -> Event {
    Event::CandidateSplit { parent_id: id.to_string(), cut }
}

fn gate_moved(kind: &str, lo: i64, hi: i64) -> Event {
    Event::GateMoved { kind: kind.to_string(), lo, hi }
}

fn threshold(mode: &str, value: f64, level: f64) -> Event {
    Event::ThresholdChanged { mode: mode.to_string(), value: q(value), levels: vec![q(level); 4] }
}

fn find<'a>(w: &'a World, id: &str) -> &'a Candidate {
    w.candidates.iter().find(|c| c.id == id).unwrap()
}

fn ids(w: &World) -> Vec<&str> {
    w.candidates.iter().map(|c| c.id.as_str()).collect()
}

fn refusal(w: &mut World, e: &Event) -> String {
    let before = format!("{:?}", w);
    let m = apply(w, e).unwrap_err();
    assert_eq!(format!("{:?}", w), before);
    m
}

#[test]
fn a_bench_starts_with_what_the_traces_show() {
    let w = world();
    assert_eq!(ids(&w)[..3], ["s1-c1", "s1-c2", "s1-c3"]);
    assert_eq!(w.candidates.len(), 12);
    let c = find(&w, "s1-c2");
    assert_eq!((c.start, c.end, c.peak), (27, 34, 30));
    assert_eq!(c.gate_kind, "inspection");
    assert_eq!(c.kind, CandidateKind::Single);
    assert_eq!(c.amplitude, q(0.5 * FULL));
    assert_eq!(c.depth_snapshot, Some(22));
    assert_eq!((c.calib_id_snapshot, c.origin.as_str(), c.locked), (1, "auto", false));
    assert_eq!(w.scans[1].candidates, vec!["s2-c1", "s2-c2", "s2-c3"]);
    assert!(!w.inverted);
    assert_eq!(boot(setup(), 9, "amp", q(1.0), q(1.0), vec![q(0.1); 4]).unwrap_err(), "unknown calibration 9");
    let odd = boot(setup(), 1, "loud", q(-1.0), q(6.0), vec![q(0.1); 4]).unwrap();
    assert_eq!((odd.threshold_mode.as_str(), odd.threshold_amp), ("amp", q(0.0)));
}

#[test]
fn saturation_is_a_lower_bound_and_twins_stay_one() {
    let w = world();
    let sat = w.candidates.iter().find(|c| c.scan_id == 3 && c.kind == CandidateKind::Saturated).unwrap();
    assert!(sat.lower_bound);
    let comp: Vec<&Candidate> = w.candidates.iter().filter(|c| c.kind == CandidateKind::Composite).collect();
    assert_eq!(comp.len(), 1);
    assert_eq!((comp[0].scan_id, comp[0].sub_peaks.len()), (4, 2));
    assert_eq!(comp[0].sub_peaks[0].sample, 30);
}

#[test]
fn regions_are_runs_above_the_level() {
    let t = trace(&ordinary());
    let r = detect_regions(&t, 0, N, q(0.1), 32767);
    assert_eq!(r.iter().map(|r| (r.start, r.end, r.peak)).collect::<Vec<_>>(), vec![(5, 12, 8), (27, 34, 30), (51, 58, 54)]);
    let high = detect_regions(&t, 0, N, q(0.55), 32767);
    assert_eq!(high.iter().map(|r| r.peak).collect::<Vec<_>>(), vec![8, 54]);
    let part = detect_regions(&t, 29, 32, q(0.1), 32767);
    assert_eq!(part.iter().map(|r| (r.start, r.end)).collect::<Vec<_>>(), vec![(29, 32)]);
}

#[test]
fn verdicts_lock_candidates_against_detection() {
    let mut w = world();
    apply(&mut w, &verdict("s1-c2", Verdict::Scatter)).unwrap();
    let c = find(&w, "s1-c2").clone();
    assert_eq!((c.verdict, c.locked), (Some(Verdict::Scatter), true));
    apply(&mut w, &threshold("snr", 60.0, 0.7)).unwrap();
    // Only the surface echoes and the clipped one reach the level; the locked one stays.
    assert_eq!(ids(&w), ["s1-c4", "s1-c2", "s2-c4", "s3-c4", "s3-c5", "s4-c4"]);
    assert_eq!(format!("{:?}", find(&w, "s1-c2")), format!("{:?}", c));
    assert_eq!((w.threshold_mode.as_str(), w.threshold_snr, w.threshold_amp), ("snr", q(60.0), q(0.1 * FULL)));
    assert_eq!(refusal(&mut w, &verdict("s9-c9", Verdict::Scatter)), "unknown candidate s9-c9");
}

#[test]
fn detection_leaves_locked_intervals_alone() {
    let mut w = world();
    apply(&mut w, &verdict("s1-c2", Verdict::Scatter)).unwrap();
    apply(&mut w, &threshold("amp", 0.05 * FULL, 0.05)).unwrap();
    let middle: Vec<&str> =
        w.candidates.iter().filter(|c| c.scan_id == 1 && c.gate_kind == "inspection").map(|c| c.id.as_str()).collect();
    assert_eq!(middle, ["s1-c2"]);
    let mut seen: Vec<&str> = ids(&w);
    seen.sort();
    seen.dedup();
    assert_eq!(seen.len(), w.candidates.len());
}

#[test]
fn thresholds_are_checked() {
    let mut w = world();
    assert_eq!(refusal(&mut w, &threshold("loud", 1.0, 0.1)), "threshold mode must be amp or snr");
    assert_eq!(refusal(&mut w, &threshold("amp", 0.0, 0.1)), "threshold must be positive");
}

#[test]
fn surfaces_are_checked_and_invert_the_axis() {
    let mut w = world();
    assert_eq!(refusal(&mut w, &surface(1, 64)), "surface sample out of range");
    assert_eq!(refusal(&mut w, &surface(1, -1)), "surface sample out of range");
    assert_eq!(refusal(&mut w, &surface(9, 5)), "unknown scan 9");
    apply(&mut w, &surface(2, 54)).unwrap();
    assert!(w.inverted);
    assert_eq!(
        w.inverted_reason.as_deref(),
        Some("scan 2 bottom candidate at sample 54 is no later than surface 54")
    );
    assert_eq!(w.scans[1].surface_sample, 54);
    assert!(refusal(&mut w, &verdict("s1-c1", Verdict::Scatter)).starts_with("depth axis inverted (scan 2"));
    assert_eq!(
        refusal(&mut w, &split("s1-c2", 30)),
        "depth axis inverted; correct the surface arrival before splitting"
    );
    assert_eq!(
        refusal(&mut w, &track(1, &["s1-c2", "s2-c2"])),
        "depth axis inverted; correct the surface before grouping a track"
    );
    apply(&mut w, &surface(2, 53)).unwrap();
    assert!(!w.inverted && w.inverted_reason.is_none());
    assert_eq!(w.live_delay(2, 54), Some(1));
    assert_eq!(w.live_delay(7, 54), None);
    assert_eq!(find(&w, "s2-c2").depth_snapshot, Some(22));
}

#[test]
fn a_border_sample_belongs_to_one_interval() {
    let mut w = world();
    apply(&mut w, &gate_moved("inspection", 16, 54)).unwrap();
    assert_eq!(find(&w, "s1-c3").gate_kind, "bottom");
    apply(&mut w, &gate_moved("inspection", 16, 55)).unwrap();
    assert_eq!(find(&w, "s1-c3").gate_kind, "inspection");
    apply(&mut w, &gate_moved("surface", 0, 8)).unwrap();
    assert_eq!(find(&w, "s1-c1").gate_kind, "");
    let message = "gate interval must satisfy 0 <= lo < hi <= N";
    assert_eq!(refusal(&mut w, &gate_moved("surface", 9, 9)), message);
    assert_eq!(refusal(&mut w, &gate_moved("surface", -1, 9)), message);
    assert_eq!(refusal(&mut w, &gate_moved("surface", 0, 65)), message);
    assert_eq!(refusal(&mut w, &gate_moved("side", 0, 5)), "unknown gate side");
    assert!(w.gates[0].contains_sample(7) && !w.gates[0].contains_sample(8));
}

#[test]
fn splits_share_the_cut() {
    let mut w = world();
    apply(&mut w, &split("s1-c2", 30)).unwrap();
    let kids: Vec<&Candidate> = w.candidates.iter().filter(|c| c.origin == "split").collect();
    assert_eq!(kids.len(), 2);
    assert_eq!((kids[0].start, kids[0].end, kids[1].start, kids[1].end), (27, 30, 30, 34));
    assert_eq!((kids[0].id.as_str(), kids[1].id.as_str()), ("s1-c4", "s1-c5"));
    assert!(kids.iter().all(|k| k.kind == CandidateKind::Split && k.locked && k.gate_kind == "inspection"));
    assert!(w.candidates.iter().all(|c| c.id != "s1-c2"));
    assert_eq!(w.scans[0].candidates, vec!["s1-c1", "s1-c4", "s1-c5", "s1-c3"]);
    let inside = "split cut must lie strictly inside the candidate sample interval";
    assert_eq!(refusal(&mut w, &split("s2-c2", 27)), inside);
    assert_eq!(refusal(&mut w, &split("s2-c2", 34)), inside);
    assert_eq!(refusal(&mut w, &split("nobody", 34)), "unknown candidate nobody");
    assert_eq!(
        refusal(&mut w, &split("s3-c2", 30)),
        "saturated platform cannot be split; amplitude remains a lower bound"
    );
}

#[test]
fn tracks_join_adjacent_scans() {
    let mut w = world();
    assert_eq!(next_track_id(&w), 1);
    apply(&mut w, &track(1, &["s2-c2", "s1-c2"])).unwrap();
    assert_eq!(w.tracks[0].candidate_ids, vec!["s2-c2", "s1-c2"]);
    assert_eq!(find(&w, "s1-c2").track_id, Some(1));
    assert!(find(&w, "s2-c2").locked);
    assert_eq!(next_track_id(&w), 2);
    assert_eq!(refusal(&mut w, &track(2, &["s3-c2"])), "a defect track needs at least two candidates");
    assert_eq!(refusal(&mut w, &track(2, &["s1-c2", "s2-c1"])), "candidate s1-c2 already belongs to a track");
    assert_eq!(refusal(&mut w, &track(2, &["s1-c1", "s9-c1"])), "unknown candidate s9-c1");
    assert_eq!(
        refusal(&mut w, &track(2, &["s1-c1", "s1-c3"])),
        "each scan position can contribute at most one candidate to a track"
    );
    assert_eq!(
        refusal(&mut w, &track(2, &["s1-c1", "s3-c1"])),
        "track candidates must form a chain of adjacent scan positions"
    );
    assert!(apply(&mut w, &track(2, &["s3-c1", "s1-c1", "s2-c1"])).is_ok());
    // The id is looked at last, when the members are marked already.
    assert_eq!(apply(&mut w, &track(1, &["s3-c3", "s4-c3"])).unwrap_err(), "track id 1 already used");
    assert_eq!(find(&w, "s3-c3").track_id, Some(1));
    assert_eq!(w.tracks.len(), 2);
}

#[test]
fn calibrations_leave_snapshots_alone() {
    let mut w = world();
    apply(&mut w, &verdict("s1-c2", Verdict::Scatter)).unwrap();
    let before = find(&w, "s1-c2").clone();
    apply(&mut w, &Event::CalibrationSwitched { calib_id: 2 }).unwrap();
    assert_eq!(w.current_calib_id, 2);
    assert_eq!(w.calib().velocity_ms, q(5920.0));
    assert_eq!(format!("{:?}", find(&w, "s1-c2")), format!("{:?}", before));
    assert_eq!(refusal(&mut w, &Event::CalibrationSwitched { calib_id: 99 }), "unknown calibration 99");
}

#[test]
fn bootstraps_are_for_empty_logs() {
    let mut w = world();
    assert_eq!(refusal(&mut w, &bootstrap()), "bootstrap is only used to initialize an empty log");
    let e: ApiError = post_event(&mut w, &bootstrap()).unwrap_err();
    assert_eq!((e.status, e.message.as_str()), (Status::BadRequest, "use POST /api/reset to re-bootstrap the log"));
    assert_eq!(post_event(&mut w, &surface(9, 5)).unwrap_err().message, "unknown scan 9");
    assert!(post_event(&mut w, &surface(1, 5)).is_ok());
    assert_eq!(w.live_delay(1, 6), Some(1));
}

#[test]
fn replays_end_where_the_bench_was() {
    let log = vec![bootstrap(), surface(2, 9), verdict("s1-c2", Verdict::Scatter), split("s2-c2", 30)];
    let mut w = world();
    for e in &log[1..] {
        apply(&mut w, e).unwrap();
    }
    let r = replay(setup(), &log).unwrap();
    assert_eq!(format!("{:?}", r), format!("{:?}", w));
    assert_eq!(format!("{:?}", snapshot(setup(), &log).unwrap()), format!("{:?}", w));
    assert_eq!(check_import(setup(), &log).unwrap(), 4);
    let bad = vec![bootstrap(), surface(9, 9), surface(1, 9)];
    assert_eq!(replay(setup(), &bad).unwrap_err(), "unknown scan 9");
    assert_eq!(check_import(setup(), &bad).unwrap_err().message, "unknown scan 9");
    let headless = vec![surface(1, 9)];
    assert_eq!(replay(setup(), &headless).unwrap_err(), "event log must begin with a bootstrap event");
    assert_eq!(snapshot(setup(), &headless).unwrap_err(), "first event must be bootstrap");
    assert_eq!(check_import(setup(), &headless).unwrap_err().message, "imported log must start with a bootstrap event");
    assert_eq!(snapshot(setup(), &vec![]).unwrap_err(), "missing bootstrap");
    assert_eq!(check_import(setup(), &vec![]).unwrap_err().message, "import contains no events");
}

fn recorded(events: Vec<Event>) -> Vec<LogRecord> {
    events
        .into_iter()
        .map(|event| LogRecord { event, at_rfc3339: "1970-01-01T00:00:00Z".to_string(), note: None })
        .collect()
}

fn events_of(log: &[LogRecord]) -> Vec<Event> {
    log.iter().map(|r| r.event.clone()).collect()
}

#[test]
fn imports_replace_the_log_or_leave_it() {
    let old = vec![bootstrap(), surface(1, 10)];
    let new = vec![bootstrap(), surface(2, 9), verdict("s1-c2", Verdict::Scatter)];
    let mut log = recorded(old.clone());
    let n = import(setup(), &mut log, new.iter().cloned().map(Ok).collect()).unwrap();
    assert_eq!(n, 3);
    assert_eq!(format!("{:?}", events_of(&log)), format!("{:?}", new));
    for r in &log {
        assert_eq!(r.note.as_deref(), Some("imported"));
        assert_eq!(r.at_rfc3339.len(), 20);
        assert!(r.at_rfc3339.as_str() > "2020-01-01T00:00:00Z");
    }
    let refused: Vec<(Vec<Result<Event, String>>, &str)> = vec![
        (vec![], "import contains no events"),
        (vec![Ok(surface(1, 9))], "imported log must start with a bootstrap event"),
        (vec![Ok(bootstrap()), Ok(surface(9, 9))], "unknown scan 9"),
        (vec![Ok(bootstrap()), Ok(bootstrap())], "bootstrap is only used to initialize an empty log"),
        (vec![Ok(surface(1, 9)), Err("no type".to_string()), Err("x".to_string())], "event #2 is invalid: no type"),
    ];
    for (entries, message) in refused {
        let mut log = recorded(old.clone());
        let before = format!("{:?}", log);
        let e = import(setup(), &mut log, entries).unwrap_err();
        assert_eq!((e.status, e.message.as_str()), (Status::BadRequest, message));
        assert_eq!(format!("{:?}", log), before);
    }
}

#[test]
fn imports_restore_exported_logs() {
    let exported = vec![bootstrap(), surface(2, 9), split("s2-c2", 30)];
    let state = format!("{:?}", snapshot(setup(), &exported).unwrap());
    let mut log = recorded(vec![bootstrap()]);
    import(setup(), &mut log, exported.iter().cloned().map(Ok).collect()).unwrap();
    assert_eq!(format!("{:?}", snapshot(setup(), &events_of(&log)).unwrap()), state);
}

#[test]
fn an_empty_log_is_seeded() {
    let mut log: Vec<Event> = vec![];
    let w = rehydrate(setup(), &mut log).unwrap();
    assert_eq!(log.len(), 1);
    assert_eq!(format!("{:?}", w), format!("{:?}", world()));
    let again = rehydrate(setup(), &mut log).unwrap();
    assert_eq!(log.len(), 1);
    assert_eq!(format!("{:?}", again), format!("{:?}", w));
}

#[test]
fn resets_fall_back_on_defaults() {
    let none = ResetBody { calib_id: None, threshold_mode: None, threshold_amp: None, threshold_snr: None };
    match reset_event(&setup(), &none) {
        Event::Bootstrap { calib_id, mode, threshold_amp, threshold_snr, levels } => {
            assert_eq!((calib_id, mode.as_str(), threshold_amp, threshold_snr), (1, "amp", q(0.1 * FULL), q(6.0)));
            assert!(levels.is_empty());
        }
        other => panic!("{:?}", other),
    }
    let some = ResetBody {
        calib_id: Some(2),
        threshold_mode: Some("snr".to_string()),
        threshold_amp: Some(q(3.0)),
        threshold_snr: Some(q(4.0)),
    };
    match reset_event(&setup(), &some) {
        Event::Bootstrap { calib_id, mode, threshold_amp, threshold_snr, .. } => {
            assert_eq!((calib_id, mode.as_str(), threshold_amp, threshold_snr), (2, "snr", q(3.0), q(4.0)));
        }
        other => panic!("{:?}", other),
    }
}

#[test]
fn the_display_thins_traces_only() {
    let mut w = world();
    apply(&mut w, &surface(1, 10)).unwrap();
    let s = build_state(&w);
    assert_eq!((s.next_track_id, s.scans.len()), (1, 4));
    assert_eq!(s.scans[0].view_stride, 2);
    assert_eq!(s.scans[0].raw_view.len(), 32);
    assert_eq!(s.scans[0].raw_view[15], w.scans[0].trace.raw[30]);
    assert_eq!(s.scans[0].envelope_view[4], w.scans[0].trace.envelope[8]);
    let shown: Vec<(usize, Option<i64>, bool)> =
        s.scans[0].candidates.iter().map(|c| (c.index, c.live_delay, c.threshold_pass)).collect();
    assert_eq!(shown, vec![(0, Some(-2), true), (1, Some(20), true), (2, Some(44), true)]);
}

#[test]
fn the_digest_tells_waveforms_apart() {
    let a = waveform_digest(&setup());
    assert_eq!(a.len(), 64);
    assert_eq!(a, waveform_digest(&setup()));
    assert!(a != waveform_digest(&setup_of(&[ordinary(), ordinary(), saturated(), saturated()])));
}

#[test]
fn a_moved_gate_waits_for_the_next_check_of_the_axis() {
    let mut w = world();
    apply(&mut w, &gate_moved("surface", 20, 24)).unwrap();
    apply(&mut w, &gate_moved("bottom", 0, 16)).unwrap();
    assert_eq!(find(&w, "s1-c1").gate_kind, "bottom");
    assert!(!w.inverted);
    apply(&mut w, &Event::CalibrationSwitched { calib_id: 1 }).unwrap();
    assert!(w.inverted);
}

#[test]
fn every_lobe_in_a_gate_is_covered() {
    let mut w = world();
    apply(&mut w, &verdict("s1-c2", Verdict::Scatter)).unwrap();
    apply(&mut w, &threshold("amp", 0.3 * FULL, 0.3)).unwrap();
    for s in &w.scans {
        for r in detect_regions(&s.trace, 0, N, q(0.3), 32767) {
            let covered = w
                .candidates
                .iter()
                .any(|c| c.scan_id == s.id && c.start < r.end as i64 && c.end > r.start as i64);
            assert!(covered);
        }
    }
}
