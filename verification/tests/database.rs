//! Events of the bench: how they are read, refused, decided and logged.

use echo_bench::db::{
    apply_event, attach_decisions, candidate_snapshot, check_replay, confirm_gate, export_event, import_event, import_payload,
    is_valid_verdict, log_entry, mark_orphaned, now_ts, orphan_document, position_analysis, read_event, replayed_event,
    stored_cuts, Action, Facts, GatePatch, Member, MemberFacts, PositionFacts, Request, StoredDecision,
};
use echo_bench::err::{bad, AppError};
use echo_bench::http::{
    clean_cuts, decision_payload, deletion_payload, fixture_or_body, fixture_text, gate_payload, split_payload,
    surface_payload, track_payload, TrackBody,
};
use echo_bench::quantity::Quantity;
use echo_bench::signal::{AnalConfig, Candidate, Gate, Record, Split, ThresholdMode};
use serde_json::Value;

fn json(text: &str) -> Value {
    serde_json::from_str(text).unwrap()
}

fn q(x: f64) -> Quantity {
    Quantity::from_bits(x.to_bits())
}

fn err(message: &str) -> AppError {
    AppError(message.to_string())
}

fn refusal(etype: &str, payload: &str) -> String {
    read_event(etype, &json(payload)).unwrap_err().0
}

fn config() -> AnalConfig {
    AnalConfig {
        velocity_m_s: q(5900.0),
        probe_delay_ns: q(2000.0),
        sample_interval_ns: q(10.0),
        min_resolvable_ns: q(200.0),
        threshold_mode: ThresholdMode::Amplitude,
        amp_threshold: q(0.15),
        snr_threshold: q(4.0),
        noise_window: [0, 1],
    }
}

/// A position with two echoes, `r0c0` and `r1c0`.
fn position() -> PositionFacts {
    let env = [0.0, 0.2, 0.9, 0.2, 0.0, 0.5, 0.0, 0.0];
    let t: Vec<Quantity> = env.iter().map(|x| q(*x)).collect();
    let scaled = |f: f64| -> Vec<Quantity> { env.iter().map(|x| q(f * x)).collect() };
    let ramp: Vec<Quantity> = (0..8).map(|i| q(i as f64)).collect();
    PositionFacts {
        record: Record {
            wave: t.clone(),
            env: t.clone(),
            smooth: t.clone(),
            snr: scaled(10.0),
            prominence: scaled(0.45),
            valley: scaled(0.85),
            time_ns: ramp.clone(),
            range_mm: ramp.clone(),
            depth_mm: ramp,
            noise_rms: q(0.1),
            snr_level: q(0.4),
            min_sep_samples: 2,
            surface_sample: 0,
            surface_time_ns: q(0.0),
        },
        gates: vec![Gate { id: "g".to_string(), label: "G".to_string(), start: 0, end: 8, role: "inspection".to_string() }],
        config: config(),
        splits: Vec::new(),
    }
}

#[test]
fn payloads_are_read() {
    match read_event("fixture_imported", &json(r#"{"fixture":"{}"}"#)).unwrap() {
        Request::Import { fixture } => assert_eq!(fixture, "{}"),
        other => panic!("{:?}", other),
    }
    match read_event("surface_corrected", &json(r#"{"position_index":3,"surface_sample":205.9}"#)).unwrap() {
        Request::Surface { index, sample } => assert_eq!((index, sample), (3, 205)),
        other => panic!("{:?}", other),
    }
    match read_event("surface_corrected", &json(r#"{"position_index":-1.5,"surface_sample":1e300}"#)).unwrap() {
        Request::Surface { index, sample } => assert_eq!((index, sample), (-1, i64::MAX)),
        other => panic!("{:?}", other),
    }
    match read_event("config_updated", &json(r#"{"velocity_m_s":6000,"amp_threshold":null,"threshold_mode":"snr"}"#)).unwrap() {
        Request::Config { patch } => {
            assert_eq!(patch.velocity_m_s, Some(q(6000.0)));
            assert_eq!(patch.amp_threshold, None);
            assert_eq!(patch.threshold_mode.as_deref(), Some("snr"));
        }
        other => panic!("{:?}", other),
    }
    match read_event("candidate_split", &json(r#"{"position_index":1,"parent_key":"r0c0","cuts":[5,-1,"x",2.5,9]}"#)).unwrap() {
        Request::Split { index, parent, cuts } => assert_eq!((index, parent.as_str(), cuts), (1, "r0c0", vec![5, 9])),
        other => panic!("{:?}", other),
    }
    match read_event("candidate_split", &json(r#"{"position_index":1,"parent_key":"r0c0"}"#)).unwrap() {
        Request::Split { cuts, .. } => assert!(cuts.is_empty()),
        other => panic!("{:?}", other),
    }
    match read_event("track_put", &json(r#"{"members":[{"position_index":0,"candidate_key":"a"}],"track_id":7}"#)).unwrap() {
        Request::Track { id, name, members } => {
            assert_eq!((id, name.as_str(), members.len()), (Some(7), "缺陷轨迹", 1));
            assert_eq!((members[0].position_index, members[0].candidate_key.as_str()), (0, "a"));
        }
        other => panic!("{:?}", other),
    }
    match read_event("track_deleted", &json(r#"{"track_id":4}"#)).unwrap() {
        Request::DeleteTrack { id } => assert_eq!(id, 4),
        other => panic!("{:?}", other),
    }
}

#[test]
fn incomplete_payloads_are_refused() {
    assert_eq!(refusal("fixture_imported", r#"{"fixture":1}"#), "fixture_imported requires `fixture` string");
    assert_eq!(refusal("surface_corrected", r#"{}"#), "missing numeric field `position_index`");
    assert_eq!(refusal("surface_corrected", r#"{"position_index":1}"#), "missing numeric field `surface_sample`");
    assert_eq!(refusal("gate_updated", r#"{"start":1,"end":2}"#), "gate_updated requires gate_id");
    assert_eq!(refusal("gate_updated", r#"{"gate_id":"g","end":2}"#), "missing numeric field `start`");
    assert_eq!(refusal("gate_updated", r#"{"gate_id":"g","start":2}"#), "missing numeric field `end`");
    assert_eq!(refusal("decision_made", r#"{"position_index":"1"}"#), "missing numeric field `position_index`");
    assert_eq!(refusal("decision_made", r#"{"position_index":1}"#), "decision requires candidate_key");
    assert_eq!(refusal("decision_made", r#"{"position_index":1,"candidate_key":"k"}"#), "decision requires verdict");
    assert_eq!(refusal("decision_made", r#"{"position_index":1,"candidate_key":"k","verdict":"x"}"#), "invalid verdict");
    assert_eq!(refusal("candidate_split", r#"{"position_index":1}"#), "split requires parent_key");
    assert_eq!(refusal("track_put", r#"{}"#), "track requires a members array");
    assert_eq!(refusal("track_put", r#"{"members":[]}"#), "track must contain at least one member");
    assert_eq!(refusal("track_put", r#"{"members":[{"position_index":1}]}"#), "member requires candidate_key");
    assert_eq!(refusal("track_put", r#"{"members":[{"candidate_key":"k"}]}"#), "missing numeric field `position_index`");
    assert_eq!(refusal("track_deleted", r#"[]"#), "missing numeric field `track_id`");
    assert_eq!(refusal("moon_landing", r#"{}"#), "unknown event type `moon_landing`");
}

#[test]
fn verdicts_are_five() {
    for v in ["retained", "true_scatterer", "saturation", "overlap", "rejected"] {
        assert!(is_valid_verdict(v));
    }
    assert!(!is_valid_verdict("Retained") && !is_valid_verdict(""));
}

fn surface(sample: i64, exists: bool, sample_count: Result<usize, AppError>) -> Result<Action, AppError> {
    apply_event(Request::Surface { index: 2, sample }, Facts::Surface { exists, sample_count })
}

#[test]
fn surfaces_stay_inside_the_record() {
    match surface(1023, true, Ok(1024)).unwrap() {
        Action::SetSurface { index, sample } => assert_eq!((index, sample), (2, 1023)),
        other => panic!("{:?}", other),
    }
    assert_eq!(surface(1024, true, Ok(1024)).unwrap_err().0, "surface_sample out of range");
    assert_eq!(surface(-1, true, Ok(1024)).unwrap_err().0, "surface_sample out of range");
    assert_eq!(surface(5, false, Err(err("gone"))).unwrap_err().0, "unknown position_index");
    assert_eq!(surface(-5, true, Err(err("gone"))).unwrap_err().0, "gone");
}

fn patched(text: &str) -> Result<AnalConfig, AppError> {
    let request = read_event("config_updated", &json(text)).unwrap();
    match apply_event(request, Facts::Config { config: Ok(config()) })? {
        Action::SetConfig { config } => Ok(config),
        other => panic!("{:?}", other),
    }
}

#[test]
fn settings_change_only_where_asked() {
    let c = patched(r#"{"velocity_m_s":6000.5,"snr_threshold":0,"threshold_mode":"snr"}"#).unwrap();
    assert_eq!(c.velocity_m_s, q(6000.5));
    assert_eq!(c.snr_threshold, q(0.0));
    assert_eq!(c.threshold_mode, ThresholdMode::Snr);
    assert_eq!(c.amp_threshold, q(0.15));
    assert_eq!(c.probe_delay_ns, q(2000.0));
    let d = patched(r#"{"probe_delay_ns":-3,"min_resolvable_ns":1,"amp_threshold":1}"#).unwrap();
    assert_eq!((d.probe_delay_ns, d.min_resolvable_ns, d.amp_threshold), (q(-3.0), q(1.0), q(1.0)));
    let none = patched(r#"{}"#).unwrap();
    assert_eq!(none.velocity_m_s, config().velocity_m_s);
    assert_eq!(patched(r#"{"velocity_m_s":0}"#).unwrap_err().0, "velocity_m_s must be positive");
    assert_eq!(patched(r#"{"amp_threshold":1.01}"#).unwrap_err().0, "amp_threshold must be within [0,1]");
    assert_eq!(patched(r#"{"amp_threshold":-0.01}"#).unwrap_err().0, "amp_threshold must be within [0,1]");
    assert_eq!(patched(r#"{"snr_threshold":-1}"#).unwrap_err().0, "snr_threshold must be non-negative");
    assert_eq!(patched(r#"{"min_resolvable_ns":0}"#).unwrap_err().0, "min_resolvable_ns must be positive");
    assert_eq!(patched(r#"{"threshold_mode":"amp"}"#).unwrap_err().0, "threshold_mode must be amplitude|snr");
    // The first fault is told.
    assert_eq!(patched(r#"{"velocity_m_s":0,"threshold_mode":"amp"}"#).unwrap_err().0, "velocity_m_s must be positive");
    let request = read_event("config_updated", &json(r#"{"velocity_m_s":0}"#)).unwrap();
    let lost = apply_event(request, Facts::Config { config: Err(err("no config")) });
    assert_eq!(lost.unwrap_err().0, "no config");
}

#[test]
fn bounds_are_ordered_and_inside() {
    let ask = |start: i64, end: i64, n: Result<usize, AppError>| {
        apply_event(Request::Gate { id: "g".to_string(), start, end }, Facts::Gate { sample_count: n })
    };
    match ask(0, 1024, Ok(1024)).unwrap() {
        Action::SetGate { id, patch } => {
            assert_eq!(id, "g");
            assert_eq!(patch, GatePatch { start: 0, end: 1024 });
        }
        other => panic!("{:?}", other),
    }
    let message = "gate must satisfy 0 <= start < end <= sample_count";
    for (s, e) in [(-1, 5), (5, 5), (6, 5), (0, 1025)] {
        assert_eq!(ask(s, e, Ok(1024)).unwrap_err().0, message);
    }
    assert_eq!(ask(6, 5, Err(err("gone"))).unwrap_err().0, "gone");
    assert!(confirm_gate(1).is_ok());
    assert_eq!(confirm_gate(0).unwrap_err().0, "unknown gate_id");
}

fn decide(exists: bool, position: Result<PositionFacts, AppError>, key: &str) -> Result<Action, AppError> {
    let request = Request::Decision {
        index: 1,
        key: key.to_string(),
        verdict: "retained".to_string(),
        note: "n".to_string(),
    };
    apply_event(request, Facts::Decision { exists, position })
}

#[test]
fn conclusions_need_a_found_candidate() {
    match decide(true, Ok(position()), "r1c0").unwrap() {
        Action::PutDecision { index, key, verdict, note, candidate } => {
            assert_eq!((index, key.as_str(), verdict.as_str(), note.as_str()), (1, "r1c0", "retained", "n"));
            assert_eq!((candidate.key.as_str(), candidate.peak_sample), ("r1c0", 5));
            assert_eq!(candidate.velocity_m_s, q(5900.0));
        }
        other => panic!("{:?}", other),
    }
    assert_eq!(decide(true, Ok(position()), "r9c9").unwrap_err().0, "candidate not found for current run");
    assert_eq!(decide(false, Ok(position()), "r1c0").unwrap_err().0, "unknown position_index");
    assert_eq!(decide(true, Err(err("no row")), "r1c0").unwrap_err().0, "no row");
    assert_eq!(candidate_snapshot(Ok(position()), "r0c0").unwrap().peak_sample, 2);
}

#[test]
fn stored_cuts_come_back() {
    let ask = |exists: bool| {
        let request = Request::Split { index: 1, parent: "r0c0".to_string(), cuts: vec![4, 17, 203] };
        apply_event(request, Facts::Split { exists })
    };
    match ask(true).unwrap() {
        Action::PutSplit { index, parent, cuts } => {
            assert_eq!((index, parent.as_str(), cuts.as_str()), (1, "r0c0", "[4,17,203]"));
            assert_eq!(stored_cuts(&cuts), vec![4, 17, 203]);
        }
        other => panic!("{:?}", other),
    }
    assert_eq!(ask(false).unwrap_err().0, "unknown position_index");
    assert_eq!(stored_cuts("[]"), Vec::<usize>::new());
    assert_eq!(stored_cuts("[1,-2]"), Vec::<usize>::new());
    assert_eq!(stored_cuts("nothing"), Vec::<usize>::new());
}

fn member(index: i64, key: &str) -> Member {
    Member { position_index: index, candidate_key: key.to_string() }
}

fn free() -> MemberFacts {
    MemberFacts { exists: true, position: Ok(position()), taken: Ok(false) }
}

fn put_track(members: Vec<Member>, facts: Vec<MemberFacts>, columns: usize) -> Result<Action, AppError> {
    let request = Request::Track { id: None, name: "t".to_string(), members };
    apply_event(request, Facts::Track { columns: Ok(columns), members: facts })
}

#[test]
fn tracks_are_chains_of_neighbours() {
    let chain = vec![member(0, "r0c0"), member(1, "r1c0"), member(4, "r0c0")];
    match put_track(chain, vec![free(), free(), free()], 3).unwrap() {
        Action::PutTrack { id, name, members } => {
            assert_eq!((id, name.as_str()), (None, "t"));
            assert_eq!(members.iter().map(|m| m.position_index).collect::<Vec<_>>(), vec![0, 1, 4]);
        }
        other => panic!("{:?}", other),
    }
    let apart = "track members must be adjacent scan positions (4-connected)";
    // The end of one row is no neighbour of the start of the next, nor is a diagonal.
    for (a, b) in [(2, 3), (0, 4), (1, 1), (0, 2)] {
        let r = put_track(vec![member(a, "r0c0"), member(b, "r1c0")], vec![free(), free()], 3);
        assert_eq!(r.unwrap_err().0, apart);
    }
    assert!(put_track(vec![member(5, "r0c0")], vec![free()], 3).is_ok());
}

#[test]
fn tracks_do_not_come_back_to_a_member() {
    let twice = "database error: UNIQUE constraint failed: track_members.position_idx, track_members.candidate_key";
    let back = vec![member(0, "r0c0"), member(1, "r0c0"), member(0, "r0c0")];
    assert_eq!(put_track(back, vec![free(), free(), free()], 3).unwrap_err().0, twice);
    let another = vec![member(0, "r0c0"), member(1, "r0c0"), member(0, "r1c0")];
    assert!(put_track(another, vec![free(), free(), free()], 3).is_ok());
    let round = vec![member(0, "r0c0"), member(1, "r0c0"), member(4, "r0c0"), member(3, "r0c0"), member(0, "r0c0")];
    let facts = vec![free(), free(), free(), free(), free()];
    assert_eq!(put_track(round, facts, 3).unwrap_err().0, twice);
    // Positions that do not adjoin are refused before a member that comes twice.
    let apart = vec![member(0, "r0c0"), member(0, "r0c0")];
    let r = put_track(apart, vec![free(), free()], 3);
    assert_eq!(r.unwrap_err().0, "track members must be adjacent scan positions (4-connected)");
}

#[test]
fn tracks_are_refused_in_order() {
    let missing = || MemberFacts { exists: false, position: Err(err("x")), taken: Ok(false) };
    let taken = || MemberFacts { exists: true, position: Ok(position()), taken: Ok(true) };
    let two = || vec![member(0, "r0c0"), member(9, "r0c0")];
    assert_eq!(put_track(two(), vec![free(), missing()], 3).unwrap_err().0, "unknown position_index 9");
    assert_eq!(put_track(two(), vec![free(), taken()], 3).unwrap_err().0, "candidate already belongs to a track");
    assert_eq!(put_track(two(), vec![taken(), missing()], 3).unwrap_err().0, "unknown position_index 9");
    let unknown = vec![member(0, "r0c0"), member(1, "r7c0")];
    assert_eq!(put_track(unknown, vec![taken(), free()], 3).unwrap_err().0, "candidate not found for current run");
    let lost = MemberFacts { exists: true, position: Ok(position()), taken: Err(err("locked")) };
    assert_eq!(put_track(two(), vec![lost, free()], 3).unwrap_err().0, "locked");
    let request = Request::Track { id: None, name: "t".to_string(), members: two() };
    let facts = Facts::Track { columns: Err(err("no fixture")), members: vec![missing(), missing()] };
    assert_eq!(apply_event(request, facts).unwrap_err().0, "no fixture");
}

#[test]
fn imports_and_deletions_are_passed_on() {
    match apply_event(Request::Import { fixture: "f".to_string() }, Facts::Nothing).unwrap() {
        Action::Install { fixture } => assert_eq!(fixture, "f"),
        other => panic!("{:?}", other),
    }
    match apply_event(Request::DeleteTrack { id: 3 }, Facts::Nothing).unwrap() {
        Action::DeleteTrack { id } => assert_eq!(id, 3),
        other => panic!("{:?}", other),
    }
}

fn stored(key: &str, verdict: &str, snapshot: &str) -> StoredDecision {
    StoredDecision {
        key: key.to_string(),
        verdict: verdict.to_string(),
        note: format!("on {}", key),
        snapshot: snapshot.to_string(),
    }
}

fn plain(key: &str) -> Candidate {
    let mut c = candidate_snapshot(Ok(position()), "r0c0").unwrap();
    c.key = key.to_string();
    c
}

#[test]
fn conclusions_stand_on_their_candidates() {
    let decisions = vec![
        stored("r1c0", "rejected", r#"{"velocity_m_s":5800,"probe_delay_ns":1.5}"#),
        stored("r0c0", "retained", "not json"),
        stored("lost", "overlap", r#"{"key":"lost"}"#),
        stored("worse", "overlap", "not json"),
    ];
    let orphans = vec![None, None, Some(Ok(plain("lost"))), None];
    let a = position_analysis(&position(), decisions, orphans).unwrap();
    assert_eq!(a.candidates.iter().map(|c| c.key.as_str()).collect::<Vec<_>>(), vec!["r0c0", "r1c0", "lost"]);
    assert_eq!(a.candidates[0].verdict.as_deref(), Some("retained"));
    assert_eq!(a.candidates[0].snapshot_velocity_m_s, None);
    assert_eq!(a.candidates[1].verdict.as_deref(), Some("rejected"));
    assert_eq!(a.candidates[1].note, "on r1c0");
    assert_eq!(a.candidates[1].snapshot_velocity_m_s, Some(q(5800.0)));
    assert_eq!(a.candidates[1].snapshot_probe_delay_ns, Some(q(1.5)));
    assert_eq!(a.candidates[1].peak_sample, 5);
}

#[test]
fn an_unreadable_orphan_fails_the_whole() {
    let decisions = vec![stored("lost", "overlap", "{}")];
    let r = attach_decisions(vec![], decisions, vec![Some(Err(err("json error: missing field `key`")))]);
    assert_eq!(r.unwrap_err().0, "json error: missing field `key`");
}

#[test]
fn orphans_carry_their_conclusion() {
    let v = orphan_document(&stored("lost", "overlap", r#"{"key":"lost","verdict":null,"peak_sample":4}"#)).unwrap();
    assert_eq!(v, json(r#"{"key":"lost","verdict":"overlap","note":"on lost","orphaned":true,"peak_sample":4}"#));
    let n = orphan_document(&stored("lost", "overlap", "null")).unwrap();
    assert_eq!(n, json(r#"{"verdict":"overlap","note":"on lost","orphaned":true}"#));
    assert!(orphan_document(&stored("lost", "overlap", "{")).is_none());
    assert!(mark_orphaned(Some(json("[1]")), "a", "b").is_none());
}

#[test]
fn the_log_is_replayed_as_written() {
    let payload = json(r#"{"position_index":3,"cuts":[1,2,-3],"name":"缺陷\n","deep":{"a":[true,null]}}"#);
    let entry = log_entry("candidate_split", &payload);
    assert!(entry.ts.parse::<u64>().unwrap() > 1_600_000_000);
    let exported = export_event(17, &entry.ts, &entry.etype, &entry.payload);
    assert_eq!(exported.get("seq").unwrap().as_i64(), Some(17));
    assert_eq!(exported.get("ts").unwrap().as_str(), Some(entry.ts.as_str()));
    let (etype, back) = replayed_event(&exported).unwrap();
    assert_eq!(etype, "candidate_split");
    assert_eq!(back, payload);
    assert_eq!(export_event(1, "0", "x", "broken").get("payload"), Some(&json("{}")));
}

#[test]
fn events_without_a_type_are_refused() {
    assert_eq!(replayed_event(&json(r#"{"payload":{}}"#)).unwrap_err().0, "event missing type");
    let (etype, payload) = replayed_event(&json(r#"{"type":"x"}"#)).unwrap();
    assert_eq!((etype.as_str(), payload), ("x", json("{}")));
}

#[test]
fn exports_begin_with_an_import() {
    assert!(check_replay(&[]).is_ok());
    let deletion = json(r#"{"type":"track_deleted","payload":{"track_id":1}}"#);
    assert!(check_replay(&[import_event("{fixture}")]).is_ok());
    assert!(check_replay(&[import_event("{fixture}"), deletion.clone()]).is_ok());
    let late = check_replay(&[deletion, import_event("{fixture}")]);
    assert_eq!(late.unwrap_err().0, "first event must be fixture_imported");
    let untyped = check_replay(&[json(r#"{"payload":{"fixture":"{fixture}"}}"#)]);
    assert_eq!(untyped.unwrap_err().0, "event missing type");
}

#[test]
fn imports_are_logged_without_loss() {
    let payload = import_payload(r#"{"name":"缺陷","gain":0.25}"#);
    let entry = log_entry("fixture_imported", &payload);
    let (etype, back) = replayed_event(&export_event(1, &entry.ts, &entry.etype, &entry.payload)).unwrap();
    assert_eq!((etype.as_str(), back), ("fixture_imported", payload));
}

#[test]
fn imports_are_applied_again() {
    let (etype, payload) = replayed_event(&import_event("{fixture}")).unwrap();
    assert_eq!(payload, import_payload("{fixture}"));
    match read_event(&etype, &payload).unwrap() {
        Request::Import { fixture } => assert_eq!(fixture, "{fixture}"),
        other => panic!("{:?}", other),
    }
}

#[test]
fn requests_are_understood() {
    match read_event("gate_updated", &gate_payload("g1", 5, 90)).unwrap() {
        Request::Gate { id, start, end } => assert_eq!((id.as_str(), start, end), ("g1", 5, 90)),
        other => panic!("{:?}", other),
    }
    match read_event("surface_corrected", &surface_payload(-2, 77)).unwrap() {
        Request::Surface { index, sample } => assert_eq!((index, sample), (-2, 77)),
        other => panic!("{:?}", other),
    }
    match read_event("decision_made", &decision_payload(4, "r0c0", "overlap", "hm").unwrap()).unwrap() {
        Request::Decision { index, key, verdict, note } => {
            assert_eq!((index, key.as_str(), verdict.as_str(), note.as_str()), (4, "r0c0", "overlap", "hm"));
        }
        other => panic!("{:?}", other),
    }
    assert_eq!(decision_payload(4, "r0c0", "maybe", "").unwrap_err().0, "invalid verdict");
    match read_event("candidate_split", &split_payload(4, "r0c0", &vec![9, 3, 9, 0, -4])).unwrap() {
        Request::Split { index, parent, cuts } => assert_eq!((index, parent.as_str(), cuts), (4, "r0c0", vec![3, 9])),
        other => panic!("{:?}", other),
    }
    let body = TrackBody { name: None, members: vec![member(0, "a"), member(1, "b")] };
    match read_event("track_put", &track_payload(&body, Some(6))).unwrap() {
        Request::Track { id, name, members } => {
            assert_eq!((id, name.as_str(), members.len()), (Some(6), "缺陷轨迹", 2));
            assert_eq!(members[1].candidate_key, "b");
        }
        other => panic!("{:?}", other),
    }
    let named = TrackBody { name: Some("crack".to_string()), members: vec![member(0, "a")] };
    let payload = track_payload(&named, None);
    assert_eq!(payload, json(r#"{"name":"crack","members":[{"position_index":0,"candidate_key":"a"}]}"#));
    match read_event("track_deleted", &deletion_payload(12)).unwrap() {
        Request::DeleteTrack { id } => assert_eq!(id, 12),
        other => panic!("{:?}", other),
    }
}

#[test]
fn cuts_are_cleaned() {
    assert_eq!(clean_cuts(&vec![5, 1, 5, -2, 0, 3]), vec![1, 3, 5]);
    assert_eq!(clean_cuts(&vec![]), Vec::<i64>::new());
    assert_eq!(clean_cuts(&vec![0, -1]), Vec::<i64>::new());
}

#[test]
fn imports_take_a_text_or_an_object() {
    assert_eq!(fixture_text(r#"{"fixture":"inner"}"#), "inner");
    assert_eq!(fixture_text(r#"{"fixture":{"schema":1}}"#), r#"{"fixture":{"schema":1}}"#);
    assert_eq!(fixture_text(r#"{"schema":"x"}"#), r#"{"schema":"x"}"#);
    assert_eq!(fixture_text("not json"), "not json");
    assert_eq!(fixture_or_body(&Some(json(r#"["fixture"]"#)), "b"), "b");
    assert_eq!(fixture_or_body(&None, "b"), "b");
}

#[test]
fn errors_have_messages() {
    assert_eq!(bad::<u8>("no").unwrap_err().message(), "no");
    assert_eq!(AppError::database("disk full").0, "database error: disk full");
    assert_eq!(AppError::json("eof").0, "json error: eof");
    assert!(now_ts().parse::<u64>().unwrap() > 1_600_000_000);
}

#[test]
fn splits_of_a_position_are_applied() {
    let mut p = position();
    p.splits = vec![Split { parent_key: "r0c0".to_string(), cuts: vec![2] }];
    let a = position_analysis(&p, vec![], vec![]).unwrap();
    assert_eq!(a.candidates.iter().map(|c| c.key.as_str()).collect::<Vec<_>>(), vec!["r0c0#s1", "r0c0#s2", "r1c0"]);
}

#[test]
fn conclusions_show_on_exactly_one_candidate() {
    let mut orphan = plain("r0c0");
    orphan.verdict = Some("retained".to_string());
    orphan.note = "on r0c0".to_string();
    orphan.orphaned = true;
    let mut p = position();
    for (splits, lost) in [
        (vec![], false),
        (vec![Split { parent_key: "r0c0".to_string(), cuts: vec![2] }], true),
        (vec![Split { parent_key: "r1c0".to_string(), cuts: vec![] }], false),
    ] {
        p.splits = splits;
        let decisions = vec![stored("r0c0", "retained", "{}")];
        let a = position_analysis(&p, decisions, vec![Some(Ok(orphan.clone()))]).unwrap();
        let shown: Vec<&Candidate> = a.candidates.iter().filter(|c| c.key == "r0c0").collect();
        assert_eq!(shown.len(), 1);
        assert_eq!(shown[0].verdict.as_deref(), Some("retained"));
        assert_eq!(shown[0].note, "on r0c0");
        assert_eq!(shown[0].orphaned, lost);
    }
}

#[test]
fn keys_stay_unique_after_splits() {
    let mut p = position();
    p.splits = vec![
        Split { parent_key: "r0c0".to_string(), cuts: vec![2, 3] },
        Split { parent_key: "r1c0".to_string(), cuts: vec![5] },
        Split { parent_key: "r9c9".to_string(), cuts: vec![1] },
    ];
    let a = position_analysis(&p, vec![], vec![]).unwrap();
    let mut keys: Vec<&str> = a.candidates.iter().map(|c| c.key.as_str()).collect();
    assert!(keys.len() > 3);
    let n = keys.len();
    keys.sort();
    keys.dedup();
    assert_eq!(keys.len(), n);
}

#[test]
fn conclusions_show_once_after_changes() {
    let Action::PutDecision { key, verdict, note, candidate, .. } = decide(true, Ok(position()), "r0c0").unwrap() else {
        panic!("no conclusion");
    };
    let mut orphan = candidate;
    orphan.verdict = Some(verdict.clone());
    orphan.note = note.clone();
    orphan.orphaned = true;
    let mut p = position();
    // A second split of the same candidate takes the place of the first.
    for cuts in [vec![2], vec![2, 3]] {
        let request = Request::Split { index: 0, parent: "r0c0".to_string(), cuts };
        let Action::PutSplit { parent, cuts, .. } = apply_event(request, Facts::Split { exists: true }).unwrap() else {
            panic!("no split");
        };
        p.splits.retain(|s| s.parent_key != parent);
        p.splits.push(Split { parent_key: parent, cuts: stored_cuts(&cuts) });
        let row = StoredDecision { key: key.clone(), verdict: verdict.clone(), note: note.clone(), snapshot: "{}".to_string() };
        let a = position_analysis(&p, vec![row], vec![Some(Ok(orphan.clone()))]).unwrap();
        let shown: Vec<&Candidate> = a.candidates.iter().filter(|c| c.key == key).collect();
        assert_eq!(shown.len(), 1);
        assert_eq!(shown[0].verdict, Some(verdict.clone()));
        assert_eq!((shown[0].note.as_str(), shown[0].orphaned), (note.as_str(), true));
        assert_eq!(shown[0].peak_sample, orphan.peak_sample);
    }
}
