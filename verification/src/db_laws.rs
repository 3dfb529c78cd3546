//! What holds of every event of the bench.

use vstd::prelude::*;

use crate::db::{
    adjoining, answers, claim_fault, cuts_among, decided, exported, fresh_config, import_payload_tree,
    import_tree, is_chain, is_export, is_verdict, member_fault, members_among, or_empty, patched, requested, snapshot,
    with_conclusions, ActionModel, ConfigPatchModel, DecisionModel, Facts, MemberFacts, MemberModel,
    PositionFacts, RequestModel, ONE,
};
use crate::err::AppError;
use crate::fixture::Fixture;
use crate::http::{
    are_integers, are_members, is_clean, says_decision, says_deletion, says_gate, says_member, says_split,
    says_surface, says_track,
};
use crate::json::{is_integer, json_of, lossless, Json};
use crate::order::{distinct, views};
use crate::quantity::Quantity;
use crate::seqs::{first_where, lemma_search};
use crate::signal::{keyed, raw_candidates, AnalConfig, Candidate, CandidateModel};
use crate::signal_laws::{by_key, candidates_are_ordered_and_sound, found_keys_are_unique, split_once};

verus! {

// ---------------------------------------------------------------- requests

/// Whether an integer keeps its value as a binary64 number: it has at most 53 bits.
pub open spec fn is_exact(n: int) -> bool {
    -0x20_0000_0000_0000 <= n <= 0x20_0000_0000_0000
}

proof fn lemma_event_names()
    ensures
        "fixture_imported"@.len() == 16,
        "surface_corrected"@.len() == 17,
        "config_updated"@.len() == 14,
        "gate_updated"@.len() == 12,
        "decision_made"@.len() == 13,
        "candidate_split"@.len() == 15,
        "track_put"@.len() == 9,
        "track_deleted"@.len() == 13,
        "decision_made"@ != "track_deleted"@,
{
    reveal_strlit("fixture_imported");
    reveal_strlit("surface_corrected");
    reveal_strlit("config_updated");
    reveal_strlit("gate_updated");
    reveal_strlit("decision_made");
    reveal_strlit("candidate_split");
    reveal_strlit("track_put");
    reveal_strlit("track_deleted");
    assert("decision_made"@[0] == 'd' && "track_deleted"@[0] == 't');
}

/// A request to move a gate is read as what it says.
pub proof fn gate_requests_are_understood(j: Json, id: Seq<char>, start: i64, end: i64)
    requires
        says_gate(j, id, start as int, end as int),
        is_exact(start as int),
        is_exact(end as int),
    ensures
        requested("gate_updated"@, j) == Ok::<RequestModel, Seq<char>>(RequestModel::Gate { id, start, end }),
{
    lemma_event_names();
}

/// A request to correct the surface is read as what it says.
pub proof fn surface_requests_are_understood(j: Json, index: i64, sample: i64)
    requires
        says_surface(j, index as int, sample as int),
        is_exact(index as int),
        is_exact(sample as int),
    ensures
        requested("surface_corrected"@, j) == Ok::<RequestModel, Seq<char>>(RequestModel::Surface { index, sample }),
{
    lemma_event_names();
}

/// A request to record a conclusion is read as what it says.
pub proof fn decision_requests_are_understood(j: Json, index: i64, key: Seq<char>, verdict: Seq<char>, note: Seq<char>)
    requires
        says_decision(j, index as int, key, verdict, note),
        is_exact(index as int),
        is_verdict(verdict),
    ensures
        requested("decision_made"@, j) == Ok::<RequestModel, Seq<char>>(
            RequestModel::Decision { index, key, verdict, note },
        ),
{
    lemma_event_names();
}

proof fn lemma_cuts(s: Seq<Json>, cuts: Seq<i64>, n: int)
    requires
        are_integers(s, cuts),
        0 <= n <= s.len(),
        forall|i: int| 0 <= i < cuts.len() ==> #[trigger] cuts[i] > 0,
    ensures
        cuts_among(s, n) == Seq::new(n as nat, |i: int| cuts[i] as u64 as usize),
    decreases n,
{
    if n > 0 {
        lemma_cuts(s, cuts, n - 1);
        assert(is_integer(s[n - 1], cuts[n - 1] as int));
        assert(cuts[n - 1] > 0);
        assert(cuts_among(s, n) =~= Seq::new(n as nat, |i: int| cuts[i] as u64 as usize));
    } else {
        assert(cuts_among(s, 0) =~= Seq::new(0, |i: int| cuts[i] as u64 as usize));
    }
}

/// A request to split a candidate by hand is read as what it says, once its cuts are
/// cleaned.
pub proof fn split_requests_are_understood(j: Json, index: i64, key: Seq<char>, asked: Seq<i64>, clean: Seq<i64>)
    requires
        is_clean(clean, asked),
        says_split(j, index as int, key, clean),
        is_exact(index as int),
    ensures
        requested("candidate_split"@, j) == Ok::<RequestModel, Seq<char>>(
            RequestModel::Split {
                index,
                parent: key,
                cuts: Seq::new(clean.len(), |i: int| clean[i] as u64 as usize),
            },
        ),
{
    lemma_event_names();
    assert forall|i: int| 0 <= i < clean.len() implies #[trigger] clean[i] > 0 by {
        assert(clean.contains(clean[i]));
    }
    let s = crate::json::list_field(j, "cuts"@)->0;
    lemma_cuts(s, clean, s.len() as int);
}

proof fn lemma_members(s: Seq<Json>, members: Seq<MemberModel>, n: int)
    requires
        are_members(s, members),
        0 <= n <= s.len(),
        forall|i: int| 0 <= i < members.len() ==> is_exact((#[trigger] members[i]).position_index as int),
    ensures
        members_among(s, n) == Ok::<Seq<MemberModel>, Seq<char>>(members.take(n)),
    decreases n,
{
    if n > 0 {
        lemma_members(s, members, n - 1);
        assert(says_member(s[n - 1], members[n - 1]));
        assert(is_exact(members[n - 1].position_index as int));
        assert(members.take(n) =~= members.take(n - 1).push(members[n - 1]));
    } else {
        assert(members.take(0) =~= Seq::empty());
    }
}

/// A request to put down a track is read as what it says.
pub proof fn track_requests_are_understood(j: Json, id: Option<i64>, name: Seq<char>, members: Seq<MemberModel>)
    requires
        says_track(j, id, name, members),
        members.len() > 0,
        forall|i: int| 0 <= i < members.len() ==> is_exact((#[trigger] members[i]).position_index as int),
    ensures
        requested("track_put"@, j) == Ok::<RequestModel, Seq<char>>(RequestModel::Track { id, name, members }),
{
    lemma_event_names();
    let s = crate::json::list_field(j, "members"@)->0;
    lemma_members(s, members, s.len() as int);
    assert(members.take(s.len() as int) =~= members);
    reveal_strlit("track_id");
    reveal_strlit("name");
    reveal_strlit("members");
    assert("track_id"@.len() == 8 && "name"@.len() == 4 && "members"@.len() == 7);
}

/// A request to delete a track is read as what it says.
pub proof fn deletions_are_understood(j: Json, id: i64)
    requires
        says_deletion(j, id as int),
        is_exact(id as int),
    ensures
        requested("track_deleted"@, j) == Ok::<RequestModel, Seq<char>>(RequestModel::DeleteTrack { id }),
{
    lemma_event_names();
}

/// The event of an import is applied again as the import of the same fixture.
pub proof fn imports_are_understood(fixture: Seq<char>)
    ensures
        exported(import_tree(fixture)) matches Ok(p) && requested(p.0, p.1) == Ok::<RequestModel, Seq<char>>(
            RequestModel::Import { fixture },
        ),
{
    reveal_strlit("type");
    reveal_strlit("payload");
    assert("type"@.len() != "payload"@.len());
}

// ---------------------------------------------------------------- the log

/// What is logged of an event is what is exported and applied again: from the text
/// of a payload that is read as `payload`, the same type and payload come back.
pub proof fn the_log_is_replayed_as_written(
    text: Seq<char>,
    payload: Json,
    j: Json,
    seq_no: i64,
    ts: Seq<char>,
    etype: Seq<char>,
)
    requires
        json_of(text) == Some(payload),
        is_export(j, seq_no, ts, etype, or_empty(json_of(text))),
    ensures
        exported(j) == Ok::<(Seq<char>, Json), Seq<char>>((etype, payload)),
{
}

proof fn lemma_token()
    ensures
        "$serde_json::private::RawValue"@.len() == 30,
{
    reveal_strlit("$serde_json::private::RawValue");
}

/// The payloads of an import and of all requests but a change of the settings are
/// logged without loss.
pub proof fn requests_are_logged_without_loss(j: Json)
    requires
        ({
            ||| exists|id: Seq<char>, start: i64, end: i64| says_gate(j, id, start as int, end as int)
            ||| exists|index: i64, sample: i64| says_surface(j, index as int, sample as int)
            ||| exists|index: i64, key: Seq<char>, verdict: Seq<char>, note: Seq<char>|
                says_decision(j, index as int, key, verdict, note)
            ||| exists|index: i64, key: Seq<char>, cuts: Seq<i64>| says_split(j, index as int, key, cuts)
            ||| exists|id: Option<i64>, name: Seq<char>, members: Seq<MemberModel>| says_track(j, id, name, members)
            ||| exists|id: i64| says_deletion(j, id as int)
            ||| exists|fixture: Seq<char>| j == #[trigger] import_payload_tree(fixture)
        }),
    ensures
        lossless(j, 100),
{
    lemma_token();
    reveal_strlit("gate_id");
    reveal_strlit("start");
    reveal_strlit("end");
    reveal_strlit("position_index");
    reveal_strlit("surface_sample");
    reveal_strlit("candidate_key");
    reveal_strlit("verdict");
    reveal_strlit("note");
    reveal_strlit("parent_key");
    reveal_strlit("cuts");
    reveal_strlit("name");
    reveal_strlit("members");
    reveal_strlit("track_id");
    reveal_strlit("fixture");
    assert("fixture"@.len() == 7);
    assert("gate_id"@.len() == 7 && "start"@.len() == 5 && "end"@.len() == 3);
    assert("position_index"@.len() == 14 && "surface_sample"@.len() == 14 && "candidate_key"@.len() == 13);
    assert("verdict"@.len() == 7 && "note"@.len() == 4 && "parent_key"@.len() == 10 && "cuts"@.len() == 4);
    assert("name"@.len() == 4 && "members"@.len() == 7 && "track_id"@.len() == 8);
    let m = j->Object_0;
    assert(!m.dom().contains("$serde_json::private::RawValue"@));
    assert forall|k: Seq<char>| m.dom().contains(k) implies lossless(#[trigger] m[k], 99) by {
        if m[k] is Number || m[k] is Text {
        } else {
            assert(k == "cuts"@ || k == "members"@);
            let s = m[k]->List_0;
            assert forall|i: int| 0 <= i < s.len() implies lossless(#[trigger] s[i], 98) by {
                if k == "cuts"@ {
                    let (index, key, cuts) = choose|index: i64, key: Seq<char>, cuts: Seq<i64>|
                        says_split(j, index as int, key, cuts);
                    assert(is_integer(s[i], cuts[i] as int));
                } else {
                    let (id, name, members) = choose|id: Option<i64>, name: Seq<char>, members: Seq<MemberModel>|
                        says_track(j, id, name, members);
                    assert(says_member(s[i], members[i]));
                    let f = s[i]->Object_0;
                    assert(!f.dom().contains("$serde_json::private::RawValue"@));
                    assert forall|q: Seq<char>| f.dom().contains(q) implies lossless(#[trigger] f[q], 97) by {
                        assert(f[q] is Number || f[q] is Text);
                    }
                }
            }
        }
    }
}

// ---------------------------------------------------------------- settings

/// Whether settings are in order: positive velocity and resolution, an amplitude
/// threshold within full scale, an SNR threshold that is not negative.
pub open spec fn in_order(cfg: AnalConfig) -> bool {
    let zero = Quantity { bits: 0 };
    &&& !cfg.velocity_m_s.le(zero)
    &&& zero.le(cfg.amp_threshold)
    &&& cfg.amp_threshold.le(Quantity { bits: ONE })
    &&& !cfg.snr_threshold.lt(zero)
    &&& !cfg.min_resolvable_ns.le(zero)
}

/// The settings of a fresh bench are in order.
pub proof fn fresh_settings_are_in_order(fx: Fixture)
    requires
        fx.fault() is None,
    ensures
        in_order(fresh_config(fx)),
{
}

/// Accepted changes leave the settings in order, never touch the sampling and the
/// noise window, and change only what they name.
pub proof fn changes_keep_settings_in_order(cfg: AnalConfig, patch: ConfigPatchModel)
    requires
        in_order(cfg),
    ensures
        patched(cfg, patch) matches Ok(new) ==> {
            &&& in_order(new)
            &&& new.sample_interval_ns == cfg.sample_interval_ns
            &&& new.noise_window == cfg.noise_window
            &&& patch.velocity_m_s is None ==> new.velocity_m_s == cfg.velocity_m_s
            &&& patch.probe_delay_ns is None ==> new.probe_delay_ns == cfg.probe_delay_ns
            &&& patch.amp_threshold is None ==> new.amp_threshold == cfg.amp_threshold
            &&& patch.snr_threshold is None ==> new.snr_threshold == cfg.snr_threshold
            &&& patch.min_resolvable_ns is None ==> new.min_resolvable_ns == cfg.min_resolvable_ns
            &&& patch.threshold_mode is None ==> new.threshold_mode == cfg.threshold_mode
        },
{
}

// ---------------------------------------------------------------- tracks

/// Adjoining is mutual, and no position adjoins itself.
pub proof fn adjoining_is_mutual(a: i64, b: i64, columns: int)
    requires
        columns > 0,
    ensures
        adjoining(a, b, columns) == adjoining(b, a, columns),
        !adjoining(a, a, columns),
{
}

proof fn lemma_members_accepted(members: Seq<MemberModel>, facts: Seq<MemberFacts>, n: int)
    requires
        member_fault(members, facts, n) is None,
        0 <= n <= members.len(),
    ensures
        forall|i: int|
            0 <= i < n ==> (#[trigger] facts[i]).exists && snapshot(facts[i].position, members[i].candidate_key) is Ok,
    decreases n,
{
    if n > 0 {
        lemma_members_accepted(members, facts, n - 1);
    }
}

proof fn lemma_claims_accepted(facts: Seq<MemberFacts>, n: int)
    requires
        claim_fault(facts, n) is None,
        0 <= n <= facts.len(),
    ensures
        forall|i: int| 0 <= i < n ==> (#[trigger] facts[i]).taken == Ok::<bool, AppError>(false),
    decreases n,
{
    if n > 0 {
        lemma_claims_accepted(facts, n - 1);
    }
}

/// An accepted track is a chain of adjoining positions; each member is at a known
/// position, is found there by the current analysis, and belongs to no other track;
/// and no member comes twice.
pub proof fn accepted_tracks_are_chains(id: Option<i64>, name: Seq<char>, members: Seq<MemberModel>, facts: Facts)
    requires
        answers(facts, RequestModel::Track { id, name, members }),
        decided(RequestModel::Track { id, name, members }, facts) is Ok,
    ensures
        facts->columns matches Ok(c) && is_chain(members, c as int),
        forall|i: int, j: int| 0 <= i < j < members.len() ==> #[trigger] members[i] != #[trigger] members[j],
        forall|i: int|
            0 <= i < members.len() ==> {
                let f = #[trigger] facts->members@[i];
                &&& f.exists
                &&& f.taken == Ok::<bool, AppError>(false)
                &&& snapshot(f.position, members[i].candidate_key) is Ok
            },
        decided(RequestModel::Track { id, name, members }, facts) == Ok::<ActionModel, Seq<char>>(
            ActionModel::PutTrack { id, name, members },
        ),
{
    let fs = facts->members@;
    lemma_members_accepted(members, fs, members.len() as int);
    lemma_claims_accepted(fs, members.len() as int);
}

// ---------------------------------------------------------------- conclusions

/// A conclusion is recorded only on a candidate that the current analysis finds
/// under its key, and with that candidate as it is now.
pub proof fn conclusions_are_drawn_on_found_candidates(position: Result<PositionFacts, AppError>, key: Seq<char>)
    ensures
        snapshot(position, key) matches Ok(c) ==> {
            &&& c.key == key
            &&& position matches Ok(f)
            &&& f.candidates().contains(c)
        },
{
    if let Ok(f) = position {
        lemma_search(f.candidates(), keyed(key));
        if let Some(i) = first_where(f.candidates(), keyed(key)) {
            assert(f.candidates()[i] == f.candidates()[i]);
        }
    }
}

/// Only an event that records a conclusion stores one, and only an import lays
/// everything out anew: a change of the settings, a gate, a surface, a split or a
/// track leaves the stored conclusions alone.
pub proof fn only_conclusions_and_imports_change_conclusions(request: RequestModel, facts: Facts)
    ensures
        decided(request, facts) matches Ok(a) ==> {
            &&& a is PutDecision <==> request is Decision
            &&& a is Install <==> request is Import
        },
{
}

/// Whether `b` is `a` but for a conclusion on it.
pub open spec fn same_but_for_conclusion(a: CandidateModel, b: CandidateModel) -> bool {
    b == CandidateModel {
        verdict: b.verdict,
        note: b.note,
        snapshot_velocity_m_s: b.snapshot_velocity_m_s,
        snapshot_probe_delay_ns: b.snapshot_probe_delay_ns,
        ..a
    }
}

/// Conclusions change nothing else about the candidates that are found, and remove
/// none of them; what they add stands behind them.
pub proof fn conclusions_change_nothing_else(
    s: Seq<CandidateModel>,
    ds: Seq<DecisionModel>,
    orphans: Seq<Option<Result<Candidate, AppError>>>,
    n: int,
)
    requires
        0 <= n <= ds.len(),
        ds.len() == orphans.len(),
    ensures
        with_conclusions(s, ds, orphans, n) matches Ok(t) ==> {
            &&& s.len() <= t.len() <= s.len() + n
            &&& forall|i: int| 0 <= i < s.len() ==> same_but_for_conclusion(s[i], #[trigger] t[i])
        },
    decreases n,
{
    if n > 0 {
        conclusions_change_nothing_else(s, ds, orphans, n - 1);
        if let Ok(t) = with_conclusions(s, ds, orphans, n - 1) {
            lemma_search(t, keyed(ds[n - 1].key));
            if let Some(i) = first_where(t, keyed(ds[n - 1].key)) {
                let u = with_conclusions(s, ds, orphans, n)->Ok_0;
                assert forall|k: int| 0 <= k < s.len() implies same_but_for_conclusion(s[k], #[trigger] u[k]) by {
                    assert(same_but_for_conclusion(s[k], t[k]));
                }
            } else if let Ok(u) = with_conclusions(s, ds, orphans, n) {
                assert forall|k: int| 0 <= k < s.len() implies same_but_for_conclusion(s[k], #[trigger] u[k]) by {
                    assert(same_but_for_conclusion(s[k], t[k]));
                }
            }
        }
    }
}

/// Whether no two conclusions are on the same candidate.
pub open spec fn one_each(ds: Seq<DecisionModel>) -> bool {
    forall|a: int, b: int| 0 <= a < b < ds.len() ==> (#[trigger] ds[a]).key != (#[trigger] ds[b]).key
}

proof fn lemma_conclusion_stays(
    s: Seq<CandidateModel>,
    ds: Seq<DecisionModel>,
    orphans: Seq<Option<Result<Candidate, AppError>>>,
    k: int,
    i: int,
    n: int,
)
    requires
        0 <= k < n <= ds.len(),
        ds.len() == orphans.len(),
        one_each(ds),
        first_where(s, keyed(ds[k].key)) == Some(i),
    ensures
        with_conclusions(s, ds, orphans, n) matches Ok(t) ==> {
            &&& t[i].verdict == Some(ds[k].verdict)
            &&& t[i].note == ds[k].note
            &&& is_number_under(json_of(ds[k].snapshot), "velocity_m_s"@, t[i].snapshot_velocity_m_s)
            &&& is_number_under(json_of(ds[k].snapshot), "probe_delay_ns"@, t[i].snapshot_probe_delay_ns)
        },
    decreases n,
{
    lemma_search(s, keyed(ds[k].key));
    conclusions_change_nothing_else(s, ds, orphans, n - 1);
    if let Ok(t) = with_conclusions(s, ds, orphans, n - 1) {
        assert(same_but_for_conclusion(s[i], t[i]));
        lemma_search(t, keyed(ds[n - 1].key));
        if n - 1 == k {
            assert(keyed(ds[k].key)(t[i]));
            assert forall|j: int| 0 <= j < i implies !keyed(ds[k].key)(#[trigger] t[j]) by {
                assert(same_but_for_conclusion(s[j], t[j]));
                assert(!keyed(ds[k].key)(s[j]));
            }
            crate::seqs::lemma_first_found(t, keyed(ds[k].key), i);
        } else {
            lemma_conclusion_stays(s, ds, orphans, k, i, n - 1);
            assert(ds[k].key != ds[n - 1].key);
            if let Some(x) = first_where(t, keyed(ds[n - 1].key)) {
                assert(keyed(ds[n - 1].key)(t[x]));
                assert(t[i].key == ds[k].key);
                assert(x != i);
            }
        }
    }
}

/// Whether `q` is the number that stands under a name in a document: there is one if
/// and only if the document is an object with a number under that name.
pub open spec fn is_number_under(doc: Option<Json>, key: Seq<char>, q: Option<Quantity>) -> bool {
    if doc matches Some(Json::Object(m)) && m.dom().contains(key) && m[key] is Number {
        q == Some(Quantity { bits: doc->0->Object_0[key]->Number_0.bits })
    } else {
        q is None
    }
}

/// A stored conclusion on a candidate that is found stands on it, with its verdict,
/// its note, and the velocity and the probe delay that it was drawn under.
pub proof fn conclusions_stand_on_their_candidates(
    s: Seq<CandidateModel>,
    ds: Seq<DecisionModel>,
    orphans: Seq<Option<Result<Candidate, AppError>>>,
    k: int,
    i: int,
)
    requires
        0 <= k < ds.len(),
        ds.len() == orphans.len(),
        one_each(ds),
        first_where(s, keyed(ds[k].key)) == Some(i),
    ensures
        with_conclusions(s, ds, orphans, ds.len() as int) matches Ok(t) ==> {
            &&& t[i].verdict == Some(ds[k].verdict)
            &&& t[i].note == ds[k].note
            &&& is_number_under(json_of(ds[k].snapshot), "velocity_m_s"@, t[i].snapshot_velocity_m_s)
            &&& is_number_under(json_of(ds[k].snapshot), "probe_delay_ns"@, t[i].snapshot_probe_delay_ns)
        },
{
    lemma_conclusion_stays(s, ds, orphans, k, i, ds.len() as int);
}

/// Whether each orphan has the key of its conclusion.
pub open spec fn orphans_match(ds: Seq<DecisionModel>, orphans: Seq<Option<Result<Candidate, AppError>>>) -> bool {
    forall|i: int| 0 <= i < ds.len() ==> (#[trigger] orphans[i] matches Some(Ok(c)) ==> c@.key == ds[i].key)
}

/// Whether a key is that of one of the first `n` conclusions.
pub open spec fn is_key_among(ds: Seq<DecisionModel>, key: Seq<char>, n: int) -> bool {
    exists|i: int| 0 <= i < n && (#[trigger] ds[i]).key == key
}

proof fn lemma_added_keys(
    s: Seq<CandidateModel>,
    ds: Seq<DecisionModel>,
    orphans: Seq<Option<Result<Candidate, AppError>>>,
    n: int,
)
    requires
        0 <= n <= ds.len(),
        ds.len() == orphans.len(),
        orphans_match(ds, orphans),
    ensures
        with_conclusions(s, ds, orphans, n) matches Ok(t) ==> forall|j: int|
            s.len() <= j < t.len() ==> is_key_among(ds, (#[trigger] t[j]).key, n),
    decreases n,
{
    if n > 0 {
        lemma_added_keys(s, ds, orphans, n - 1);
        conclusions_change_nothing_else(s, ds, orphans, n - 1);
        if let Ok(t) = with_conclusions(s, ds, orphans, n - 1) {
            if let Ok(u) = with_conclusions(s, ds, orphans, n) {
                lemma_search(t, keyed(ds[n - 1].key));
                assert forall|j: int| s.len() <= j < u.len() implies is_key_among(ds, (#[trigger] u[j]).key, n) by {
                    if j < t.len() {
                        assert(u[j].key == t[j].key);
                        assert(is_key_among(ds, t[j].key, n - 1));
                        let i = choose|i: int| 0 <= i < n - 1 && (#[trigger] ds[i]).key == t[j].key;
                        assert(ds[i].key == u[j].key);
                    } else {
                        assert(orphans[n - 1] is Some);
                        assert(ds[n - 1].key == u[j].key);
                    }
                }
            }
        }
    }
}

proof fn lemma_orphan_stays(
    s: Seq<CandidateModel>,
    ds: Seq<DecisionModel>,
    orphans: Seq<Option<Result<Candidate, AppError>>>,
    k: int,
    c: Candidate,
    n: int,
)
    requires
        0 <= k < n <= ds.len(),
        ds.len() == orphans.len(),
        one_each(ds),
        orphans_match(ds, orphans),
        first_where(s, keyed(ds[k].key)) is None,
        orphans[k] == Some(Ok::<Candidate, AppError>(c)),
    ensures
        with_conclusions(s, ds, orphans, n) matches Ok(t) ==> t.contains(c@),
    decreases n,
{
    conclusions_change_nothing_else(s, ds, orphans, n - 1);
    lemma_added_keys(s, ds, orphans, n - 1);
    lemma_search(s, keyed(ds[k].key));
    if let Ok(t) = with_conclusions(s, ds, orphans, n - 1) {
        if let Ok(u) = with_conclusions(s, ds, orphans, n) {
            let p = keyed(ds[n - 1].key);
            lemma_search(t, p);
            if n - 1 == k {
                assert forall|j: int| 0 <= j < t.len() implies !p(#[trigger] t[j]) by {
                    if j < s.len() {
                        assert(same_but_for_conclusion(s[j], t[j]));
                        assert(!p(s[j]));
                    } else {
                        assert(is_key_among(ds, t[j].key, k));
                        let i = choose|i: int| 0 <= i < k && (#[trigger] ds[i]).key == t[j].key;
                        assert(ds[i].key != ds[k].key);
                    }
                }
                crate::seqs::lemma_none_found(t, p);
                assert(u == t.push(c@));
                assert(u[t.len() as int] == c@);
            } else {
                lemma_orphan_stays(s, ds, orphans, k, c, n - 1);
                let x = choose|x: int| 0 <= x < t.len() && t[x] == c@;
                assert(orphans[k] is Some);
                assert(c@.key == ds[k].key);
                assert(ds[k].key != ds[n - 1].key);
                if let Some(i) = first_where(t, p) {
                    assert(p(t[i]));
                    assert(i != x);
                }
                assert(u[x] == c@);
            }
        }
    }
}

/// A conclusion whose candidate is not found any more is kept, with the candidate as
/// it was when the conclusion was drawn.
pub proof fn lost_conclusions_are_kept(
    s: Seq<CandidateModel>,
    ds: Seq<DecisionModel>,
    orphans: Seq<Option<Result<Candidate, AppError>>>,
    k: int,
    c: Candidate,
)
    requires
        0 <= k < ds.len(),
        ds.len() == orphans.len(),
        one_each(ds),
        orphans_match(ds, orphans),
        first_where(s, keyed(ds[k].key)) is None,
        orphans[k] == Some(Ok::<Candidate, AppError>(c)),
    ensures
        with_conclusions(s, ds, orphans, ds.len() as int) matches Ok(t) ==> t.contains(c@),
{
    lemma_orphan_stays(s, ds, orphans, k, c, ds.len() as int);
}

/// Whether a candidate is what a lost conclusion brings back: it has the key, the
/// verdict and the note, and is marked as orphaned.
pub open spec fn brings_back(d: DecisionModel, c: CandidateModel) -> bool {
    &&& c.key == d.key
    &&& c.verdict == Some(d.verdict)
    &&& c.note == d.note
    &&& c.orphaned
}

/// Whether the orphans that are made out are what their conclusions bring back.
pub open spec fn orphans_bring_back(
    ds: Seq<DecisionModel>,
    orphans: Seq<Option<Result<Candidate, AppError>>>,
) -> bool {
    forall|i: int| 0 <= i < ds.len() ==> (#[trigger] orphans[i] matches Some(Ok(c)) ==> brings_back(ds[i], c@))
}

proof fn lemma_brought_back(ds: Seq<DecisionModel>, orphans: Seq<Option<Result<Candidate, AppError>>>)
    requires
        orphans_bring_back(ds, orphans),
    ensures
        orphans_match(ds, orphans),
{
    assert forall|i: int| 0 <= i < ds.len() implies (#[trigger] orphans[i] matches Some(Ok(c)) ==> c@.key
        == ds[i].key) by {
        if let Some(Ok(c)) = orphans[i] {
            assert(brings_back(ds[i], c@));
        }
    }
}

/// Whether the candidate at `i`, and no other, has the key.
pub open spec fn is_only(s: Seq<CandidateModel>, i: int, key: Seq<char>) -> bool {
    &&& 0 <= i < s.len()
    &&& forall|j: int| 0 <= j < s.len() ==> ((#[trigger] s[j]).key == key <==> j == i)
}

proof fn lemma_keys_stay_unique(
    s: Seq<CandidateModel>,
    ds: Seq<DecisionModel>,
    orphans: Seq<Option<Result<Candidate, AppError>>>,
    n: int,
)
    requires
        0 <= n <= ds.len(),
        ds.len() == orphans.len(),
        orphans_match(ds, orphans),
        distinct(s, by_key()),
    ensures
        with_conclusions(s, ds, orphans, n) matches Ok(t) ==> distinct(t, by_key()),
    decreases n,
{
    if n > 0 {
        lemma_keys_stay_unique(s, ds, orphans, n - 1);
        if let Ok(t) = with_conclusions(s, ds, orphans, n - 1) {
            if let Ok(u) = with_conclusions(s, ds, orphans, n) {
                let p = keyed(ds[n - 1].key);
                lemma_search(t, p);
                assert forall|i: int, j: int| 0 <= i < j < u.len() implies by_key()(#[trigger] u[i]) != by_key()(
                    #[trigger] u[j],
                ) by {
                    assert(u[i].key == t[i].key);
                    if j < t.len() {
                        assert(u[j].key == t[j].key);
                        assert(by_key()(t[i]) != by_key()(t[j]));
                    } else {
                        assert(orphans[n - 1] is Some);
                        assert(!p(t[i]));
                    }
                }
            }
        }
    }
}

proof fn lemma_readable(
    s: Seq<CandidateModel>,
    ds: Seq<DecisionModel>,
    orphans: Seq<Option<Result<Candidate, AppError>>>,
    n: int,
)
    requires
        0 <= n <= ds.len(),
        ds.len() == orphans.len(),
        forall|i: int| 0 <= i < ds.len() ==> !(#[trigger] orphans[i] matches Some(Err(_))),
    ensures
        with_conclusions(s, ds, orphans, n) is Ok,
    decreases n,
{
    if n > 0 {
        lemma_readable(s, ds, orphans, n - 1);
        assert(!(orphans[n - 1] matches Some(Err(_))));
    }
}

/// Where every orphan that is called for can be read, a position is listed; and no
/// two of the candidates listed have the same key, if no candidate is split twice.
pub proof fn listed_keys_are_unique(
    f: PositionFacts,
    ds: Seq<DecisionModel>,
    orphans: Seq<Option<Result<Candidate, AppError>>>,
)
    requires
        f.sound(),
        split_once(raw_candidates(f.record, f.gates@, f.config), views(f.splits@)),
        ds.len() == orphans.len(),
        orphans_match(ds, orphans),
    ensures
        with_conclusions(f.candidates(), ds, orphans, ds.len() as int) matches Ok(t) ==> distinct(t, by_key()),
        (forall|i: int| 0 <= i < ds.len() ==> !(#[trigger] orphans[i] matches Some(Err(_)))) ==> with_conclusions(
            f.candidates(),
            ds,
            orphans,
            ds.len() as int,
        ) is Ok,
{
    found_keys_are_unique(f.record, f.gates@, f.config, views(f.splits@));
    lemma_keys_stay_unique(f.candidates(), ds, orphans, ds.len() as int);
    if forall|i: int| 0 <= i < ds.len() ==> !(#[trigger] orphans[i] matches Some(Err(_))) {
        lemma_readable(f.candidates(), ds, orphans, ds.len() as int);
    }
}

/// A stored conclusion shows on exactly one of the candidates listed at its position:
/// the one that has its key, with its verdict and its note. That candidate is marked
/// as orphaned if and only if the current analysis finds none with the key. This
/// holds whatever the settings, the gates, the surface and the splits are by now, as
/// long as no candidate is split twice and a lost candidate can still be made out.
pub proof fn conclusions_show_on_exactly_one_candidate(
    f: PositionFacts,
    ds: Seq<DecisionModel>,
    orphans: Seq<Option<Result<Candidate, AppError>>>,
    k: int,
)
    requires
        f.sound(),
        split_once(raw_candidates(f.record, f.gates@, f.config), views(f.splits@)),
        ds.len() == orphans.len(),
        one_each(ds),
        orphans_bring_back(ds, orphans),
        0 <= k < ds.len(),
        first_where(f.candidates(), keyed(ds[k].key)) is None ==> (orphans[k] matches Some(Ok(_))),
    ensures
        with_conclusions(f.candidates(), ds, orphans, ds.len() as int) matches Ok(t) ==> exists|i: int|
            {
                &&& #[trigger] is_only(t, i, ds[k].key)
                &&& t[i].verdict == Some(ds[k].verdict)
                &&& t[i].note == ds[k].note
                &&& t[i].orphaned <==> first_where(f.candidates(), keyed(ds[k].key)) is None
            },
{
    let s = f.candidates();
    let n = ds.len() as int;
    let key = ds[k].key;
    lemma_brought_back(ds, orphans);
    if let Ok(t) = with_conclusions(s, ds, orphans, n) {
        listed_keys_are_unique(f, ds, orphans);
        lemma_search(s, keyed(key));
        let i = if let Some(i) = first_where(s, keyed(key)) {
            conclusions_stand_on_their_candidates(s, ds, orphans, k, i);
            conclusions_change_nothing_else(s, ds, orphans, n);
            candidates_are_ordered_and_sound(f.record, f.gates@, f.config, views(f.splits@));
            assert(keyed(key)(s[i]));
            assert(same_but_for_conclusion(s[i], t[i]));
            assert(!s[i].orphaned);
            i
        } else {
            let c = orphans[k]->0->Ok_0;
            assert(orphans[k] == Some(Ok::<Candidate, AppError>(c)));
            assert(brings_back(ds[k], c@));
            lost_conclusions_are_kept(s, ds, orphans, k, c);
            choose|i: int| 0 <= i < t.len() && t[i] == c@
        };
        assert(t[i].key == key);
        assert forall|j: int| 0 <= j < t.len() implies ((#[trigger] t[j]).key == key <==> j == i) by {
            if j < i {
                assert(by_key()(t[j]) != by_key()(t[i]));
            } else if i < j {
                assert(by_key()(t[i]) != by_key()(t[j]));
            }
        }
        assert(is_only(t, i, key));
    }
}

/// A candidate as a conclusion brings it back once it is lost.
pub open spec fn as_orphan(c: CandidateModel, verdict: Seq<char>, note: Seq<char>) -> CandidateModel {
    CandidateModel { verdict: Some(verdict), note, orphaned: true, ..c }
}

/// A conclusion that was accepted shows on exactly one candidate from then on, with
/// its verdict and its note; once its candidate is lost, that is the candidate as it
/// was when the conclusion was drawn, marked as orphaned. Here `then` is what was
/// looked up when it was drawn, and `f` what is stored for its position now.
pub proof fn accepted_conclusions_outlast_changes(
    index: i64,
    then: Facts,
    f: PositionFacts,
    ds: Seq<DecisionModel>,
    orphans: Seq<Option<Result<Candidate, AppError>>>,
    k: int,
)
    requires
        0 <= k < ds.len() == orphans.len(),
        decided(
            RequestModel::Decision { index, key: ds[k].key, verdict: ds[k].verdict, note: ds[k].note },
            then,
        ) is Ok,
        f.sound(),
        split_once(raw_candidates(f.record, f.gates@, f.config), views(f.splits@)),
        one_each(ds),
        orphans_bring_back(ds, orphans),
        orphans[k] matches Some(Ok(c)) && c@ == as_orphan(
            snapshot(then->Decision_position, ds[k].key)->Ok_0,
            ds[k].verdict,
            ds[k].note,
        ),
    ensures
        with_conclusions(f.candidates(), ds, orphans, ds.len() as int) matches Ok(t) ==> exists|i: int|
            {
                &&& #[trigger] is_only(t, i, ds[k].key)
                &&& t[i].verdict == Some(ds[k].verdict)
                &&& t[i].note == ds[k].note
                &&& t[i].orphaned <==> first_where(f.candidates(), keyed(ds[k].key)) is None
                &&& t[i].orphaned ==> t[i] == as_orphan(
                    snapshot(then->Decision_position, ds[k].key)->Ok_0,
                    ds[k].verdict,
                    ds[k].note,
                )
            },
{
    let s = f.candidates();
    let key = ds[k].key;
    conclusions_show_on_exactly_one_candidate(f, ds, orphans, k);
    if let Ok(t) = with_conclusions(s, ds, orphans, ds.len() as int) {
        let i = choose|i: int|
            {
                &&& #[trigger] is_only(t, i, key)
                &&& t[i].verdict == Some(ds[k].verdict)
                &&& t[i].note == ds[k].note
                &&& t[i].orphaned <==> first_where(s, keyed(key)) is None
            };
        if t[i].orphaned {
            let c = orphans[k]->0->Ok_0;
            assert(brings_back(ds[k], c@));
            lemma_brought_back(ds, orphans);
            lost_conclusions_are_kept(s, ds, orphans, k, c);
            let j = choose|j: int| 0 <= j < t.len() && t[j] == c@;
            assert(t[j].key == key);
        }
    }
}

} // verus!
