//! What every command of the bench does, in terms of what it says and what is stored.

use vstd::arithmetic::div_mod::{lemma_fundamental_div_mod, lemma_fundamental_div_mod_converse};
use vstd::prelude::*;

use crate::db::{
    adjoining, answers, claim_fault, decided, fresh_config, is_verdict, member_fault, orphaned, patched, requested,
    with_conclusions, ActionModel, ConfigPatchModel, DecisionModel, Facts, MemberFacts, MemberModel, RequestModel,
};
use crate::db_laws::is_number_under;
use crate::err::AppError;
use crate::fixture::{Fixture, GateSlot, GateSpec, SlotModel};
use crate::json::Json;
use crate::order::{lemma_sorted_members, sorted, sorting_orders_and_keeps_every_item, Ranked};
use crate::quantity::Quantity;
use crate::seqs::{first_where, lemma_search};
use crate::signal::{keyed, AnalConfig, Candidate, CandidateModel, ThresholdMode};

verus! {

// ---------------------------------------------------------------- settings

/// Whether `after` is the value that a change names, or `before` where it names none.
pub open spec fn takes_over(named: Option<Quantity>, before: Quantity, after: Quantity) -> bool {
    &&& named matches Some(v) ==> after == v
    &&& named is None ==> after == before
}

/// An accepted change of the settings takes over each value that it names, whatever
/// was there before, and leaves all others; the mode is the one with the name given.
/// The sample interval and the noise window never change.
pub proof fn changes_take_over_what_they_name(config: Result<AnalConfig, AppError>, patch: ConfigPatchModel)
    requires
        decided(RequestModel::Config { patch }, Facts::Config { config }) is Ok,
    ensures
        config matches Ok(before) && decided(RequestModel::Config { patch }, Facts::Config { config }) matches Ok(
            ActionModel::SetConfig { config: after },
        ) && {
            &&& takes_over(patch.velocity_m_s, before.velocity_m_s, after.velocity_m_s)
            &&& takes_over(patch.probe_delay_ns, before.probe_delay_ns, after.probe_delay_ns)
            &&& takes_over(patch.amp_threshold, before.amp_threshold, after.amp_threshold)
            &&& takes_over(patch.snr_threshold, before.snr_threshold, after.snr_threshold)
            &&& takes_over(patch.min_resolvable_ns, before.min_resolvable_ns, after.min_resolvable_ns)
            &&& patch.threshold_mode == Some("amplitude"@) ==> after.threshold_mode == ThresholdMode::Amplitude
            &&& patch.threshold_mode == Some("snr"@) ==> after.threshold_mode == ThresholdMode::Snr
            &&& patch.threshold_mode is None ==> after.threshold_mode == before.threshold_mode
            &&& after.sample_interval_ns == before.sample_interval_ns
            &&& after.noise_window == before.noise_window
        },
{
    reveal_strlit("amplitude");
    reveal_strlit("snr");
    assert("amplitude"@.len() == 9 && "snr"@.len() == 3);
}

/// A change of the settings is accepted if and only if there are settings to change,
/// and no value that it names is out of range: a velocity or a resolution that is not
/// positive, an amplitude threshold outside full scale, a negative SNR threshold, a
/// mode without a name.
pub proof fn changes_are_refused_out_of_range(config: Result<AnalConfig, AppError>, patch: ConfigPatchModel)
    ensures
        decided(RequestModel::Config { patch }, Facts::Config { config }) is Ok <==> {
            let zero = Quantity { bits: 0 };
            let one = Quantity { bits: 0x3ff0_0000_0000_0000 };
            &&& config is Ok
            &&& patch.velocity_m_s matches Some(v) ==> !v.le(zero)
            &&& patch.min_resolvable_ns matches Some(v) ==> !v.le(zero)
            &&& patch.amp_threshold matches Some(v) ==> zero.le(v) && v.le(one)
            &&& patch.snr_threshold matches Some(v) ==> !v.lt(zero)
            &&& patch.threshold_mode matches Some(m) ==> m == "amplitude"@ || m == "snr"@
        },
{
}

/// Making a change twice is making it once, and the later of two changes wins where
/// both name a value.
pub proof fn the_last_change_wins(cfg: AnalConfig, first: ConfigPatchModel, second: ConfigPatchModel)
    requires
        patched(cfg, first) is Ok,
        patched(patched(cfg, first)->Ok_0, second) is Ok,
    ensures
        ({
            let once = patched(cfg, first)->Ok_0;
            let twice = patched(once, second)->Ok_0;
            &&& patched(once, first) == Ok::<AnalConfig, Seq<char>>(once)
            &&& second.velocity_m_s matches Some(v) ==> twice.velocity_m_s == v
            &&& second.velocity_m_s is None ==> twice.velocity_m_s == once.velocity_m_s
            &&& second.threshold_mode is Some && second.threshold_mode == first.threshold_mode ==> twice.threshold_mode
                == once.threshold_mode
        }),
{
}

/// A fresh bench takes its velocity, delay, interval, resolution and noise window from
/// the fixture, and detects by amplitude, at 0.15 of full scale.
pub proof fn fresh_settings_follow_the_fixture(fx: Fixture)
    ensures
        fresh_config(fx).velocity_m_s == fx.velocity_m_s,
        fresh_config(fx).probe_delay_ns == fx.probe_delay_ns,
        fresh_config(fx).sample_interval_ns == fx.sample_interval_ns,
        fresh_config(fx).min_resolvable_ns == fx.min_resolvable_ns,
        fresh_config(fx).noise_window == fx.noise_window,
        fresh_config(fx).threshold_mode == ThresholdMode::Amplitude,
        fresh_config(fx).amp_threshold.bits == 0x3fc3_3333_3333_3333,
        fresh_config(fx).snr_threshold.bits == 0x4010_0000_0000_0000,
{
}

// ---------------------------------------------------------------- gates and surfaces

/// A gate is moved if and only if its new interval is not empty and lies inside the
/// record; it is then moved to exactly that interval.
pub proof fn gates_move_where_they_are_told(id: Seq<char>, start: i64, end: i64, sample_count: Result<usize, AppError>)
    ensures
        ({
            let d = decided(RequestModel::Gate { id, start, end }, Facts::Gate { sample_count });
            &&& d is Ok <==> (sample_count matches Ok(n) && 0 <= start < end <= n)
            &&& d matches Ok(a) ==> (a matches ActionModel::SetGate { id: moved, patch } && moved == id && patch.start
                == start && patch.end == end)
        }),
{
}

/// A surface is corrected if and only if there is such a position and the sample lies
/// inside the record; it is then exactly that sample at that position.
pub proof fn surfaces_are_put_where_they_are_told(
    index: i64,
    sample: i64,
    exists: bool,
    sample_count: Result<usize, AppError>,
)
    ensures
        ({
            let d = decided(RequestModel::Surface { index, sample }, Facts::Surface { exists, sample_count });
            &&& d is Ok <==> exists && (sample_count matches Ok(n) && 0 <= sample < n)
            &&& d matches Ok(a) ==> a == (ActionModel::SetSurface { index, sample })
        }),
{
}

// ---------------------------------------------------------------- conclusions

/// A conclusion is recorded if and only if there is such a position and its analysis
/// finds a candidate with the key. It is recorded as it was given, on that position,
/// with the candidate that has the key.
pub proof fn conclusions_are_recorded_as_given(
    index: i64,
    key: Seq<char>,
    verdict: Seq<char>,
    note: Seq<char>,
    exists: bool,
    position: Result<crate::db::PositionFacts, AppError>,
)
    ensures
        ({
            let d = decided(RequestModel::Decision { index, key, verdict, note }, Facts::Decision { exists, position });
            &&& d is Ok <==> exists && (position matches Ok(f) && exists|i: int|
                0 <= i < f.candidates().len() && (#[trigger] f.candidates()[i]).key == key)
            &&& d matches Ok(a) ==> (a matches ActionModel::PutDecision {
                index: at,
                key: on,
                verdict: v,
                note: n,
                candidate,
            } && at == index && on == key && v == verdict && n == note && candidate.key == key && (
            position matches Ok(f) && f.candidates().contains(candidate)))
        }),
{
    if let Ok(f) = position {
        let s = f.candidates();
        lemma_search(s, keyed(key));
        match first_where(s, keyed(key)) {
            Some(i) => {
                assert(keyed(key)(s[i]));
                assert(s[i].key == key);
            },
            None => {
                assert forall|i: int| 0 <= i < s.len() implies (#[trigger] s[i]).key != key by {
                    assert(!keyed(key)(s[i]));
                }
            },
        }
    }
}

/// There are five verdicts.
pub proof fn verdicts_are_five(v: Seq<char>)
    ensures
        is_verdict(v) <==> seq![
            "retained"@,
            "true_scatterer"@,
            "saturation"@,
            "overlap"@,
            "rejected"@,
        ].contains(v),
{
    let all = seq!["retained"@, "true_scatterer"@, "saturation"@, "overlap"@, "rejected"@];
    assert(all[0] == "retained"@ && all[1] == "true_scatterer"@ && all[2] == "saturation"@ && all[3] == "overlap"@
        && all[4] == "rejected"@);
}

/// The document of a lost conclusion says its verdict and its note and that it is
/// orphaned, and otherwise what the snapshot of its candidate says.
pub proof fn lost_conclusions_keep_their_snapshot(m: Map<Seq<char>, Json>, verdict: Seq<char>, note: Seq<char>, k: Seq<char>)
    ensures
        orphaned(Some(Json::Object(m)), verdict, note) matches Some(Json::Object(o)) && {
            &&& o.dom().contains("verdict"@) && o["verdict"@] == Json::Text(verdict)
            &&& o.dom().contains("note"@) && o["note"@] == Json::Text(note)
            &&& o.dom().contains("orphaned"@) && o["orphaned"@] == Json::Bool(true)
            &&& k != "verdict"@ && k != "note"@ && k != "orphaned"@ ==> (o.dom().contains(k) <==> m.dom().contains(k))
                && o[k] == m[k]
        },
{
    reveal_strlit("verdict");
    reveal_strlit("note");
    reveal_strlit("orphaned");
    assert("verdict"@.len() == 7 && "note"@.len() == 4 && "orphaned"@.len() == 8);
}

// ---------------------------------------------------------------- tracks

/// The distance of two numbers.
pub open spec fn apart(a: int, b: int) -> int {
    if a <= b {
        b - a
    } else {
        a - b
    }
}

proof fn lemma_grid(p: int, q: int, c: int)
    requires
        0 <= p,
        0 <= q,
        0 < c,
    ensures
        p == c * (p / c) + p % c,
        0 <= p % c < c,
        p / c == q / c ==> p - q == p % c - q % c,
        p % c == q % c ==> p - q == c * (p / c - q / c),
        p % c == q % c && apart(p / c, q / c) == 1 ==> apart(p, q) == c,
        p % c == q % c && apart(p / c, q / c) != 1 ==> apart(p, q) != c,
        apart(p, q) == c ==> p % c == q % c,
{
    lemma_fundamental_div_mod(p, c);
    lemma_fundamental_div_mod(q, c);
    let (a, b) = (p / c, q / c);
    assert(c * a - c * b == c * (a - b)) by (nonlinear_arith);
    assert(a - b == 1 ==> c * (a - b) == c) by (nonlinear_arith);
    assert(a - b == -1 ==> c * (a - b) == -c) by (nonlinear_arith);
    assert(c * (a - b) == c ==> a - b == 1) by (nonlinear_arith)
        requires
            c > 0,
    ;
    assert(c * (a - b) == -c ==> a - b == -1) by (nonlinear_arith)
        requires
            c > 0,
    ;
    if p - q == c {
        assert(c * (b + 1) == c * b + c) by (nonlinear_arith);
        lemma_fundamental_div_mod_converse(p, c, b + 1, q % c);
    }
    if q - p == c {
        assert(c * (a + 1) == c * a + c) by (nonlinear_arith);
        lemma_fundamental_div_mod_converse(q, c, a + 1, p % c);
    }
}

/// Two positions of a grid adjoin if and only if their columns and rows are one step
/// apart in all: they are next to each other in one row, or their numbers differ by
/// the number of columns.
pub proof fn neighbours_are_one_step_apart(p: i64, q: i64, c: int)
    requires
        0 <= p,
        0 <= q,
        0 < c,
    ensures
        adjoining(p, q, c) <==> apart(p as int % c, q as int % c) + apart(p as int / c, q as int / c) == 1,
        adjoining(p, q, c) <==> p as int / c == q as int / c && apart(p as int, q as int) == 1 || apart(
            p as int,
            q as int,
        ) == c && (c == 1 ==> p as int % c == q as int % c),
        p as int % c == q as int % c ==> (adjoining(p, q, c) <==> apart(p as int, q as int) == c),
{
    lemma_grid(p as int, q as int, c);
    lemma_grid(q as int, p as int, c);
    if p as int / c == q as int / c && apart(p as int, q as int) == 1 {
        assert(apart(p as int % c, q as int % c) == 1);
    }
    if apart(p as int, q as int) == c {
        assert(p as int % c == q as int % c);
        assert(apart(p as int / c, q as int / c) == 1);
    }
}

/// What makes a track: its members are at known positions, found there by the
/// analysis, free, each next to the one before it in the grid, and none comes twice.
pub open spec fn makes_a_track(members: Seq<MemberModel>, facts: Seq<MemberFacts>, c: int) -> bool {
    &&& forall|i: int|
        0 <= i < members.len() ==> {
            &&& (#[trigger] facts[i]).exists
            &&& facts[i].taken == Ok::<bool, AppError>(false)
            &&& facts[i].position matches Ok(f) && has_key(f.candidates(), members[i].candidate_key)
        }
    &&& forall|i: int|
        #![trigger members[i]]
        1 <= i < members.len() ==> apart(
            members[i - 1].position_index as int % c,
            members[i].position_index as int % c,
        ) + apart(members[i - 1].position_index as int / c, members[i].position_index as int / c) == 1
    &&& forall|i: int, j: int|
        0 <= i < j < members.len() ==> (#[trigger] members[i]).position_index != (#[trigger] members[j]).position_index
            || members[i].candidate_key != members[j].candidate_key
}

/// Whether some candidate has the key.
pub open spec fn has_key(s: Seq<CandidateModel>, key: Seq<char>) -> bool {
    exists|i: int| 0 <= i < s.len() && (#[trigger] s[i]).key == key
}

proof fn lemma_members(members: Seq<MemberModel>, facts: Seq<MemberFacts>, n: int)
    requires
        0 <= n <= members.len(),
    ensures
        member_fault(members, facts, n) is None <==> forall|i: int|
            0 <= i < n ==> (#[trigger] facts[i]).exists && (facts[i].position matches Ok(f) && has_key(
                f.candidates(),
                members[i].candidate_key,
            )),
        claim_fault(facts, n) is None <==> forall|i: int|
            0 <= i < n ==> (#[trigger] facts[i]).taken == Ok::<bool, AppError>(false),
    decreases n,
{
    if n > 0 {
        lemma_members(members, facts, n - 1);
        let key = members[n - 1].candidate_key;
        if let Ok(f) = facts[n - 1].position {
            let s = f.candidates();
            lemma_search(s, keyed(key));
            match first_where(s, keyed(key)) {
                Some(i) => {
                    assert(keyed(key)(s[i]));
                    assert(s[i].key == key);
                },
                None => {
                    assert forall|i: int| 0 <= i < s.len() implies (#[trigger] s[i]).key != key by {
                        assert(!keyed(key)(s[i]));
                    }
                },
            }
        }
        let ok = |i: int|
            facts[i].exists && (facts[i].position matches Ok(f) && has_key(f.candidates(), members[i].candidate_key));
        assert(member_fault(members, facts, n) is None <==> member_fault(members, facts, n - 1) is None && ok(n - 1));
        if member_fault(members, facts, n) is None {
            assert forall|i: int| 0 <= i < n implies (#[trigger] facts[i]).exists && (facts[i].position matches Ok(f)
                && has_key(f.candidates(), members[i].candidate_key)) by {
                if i == n - 1 {
                    assert(ok(i));
                }
            }
        } else if member_fault(members, facts, n - 1) is None {
            assert(!ok(n - 1));
            assert(facts[n - 1] == facts[n - 1]);
        }
        if claim_fault(facts, n) is Some && claim_fault(facts, n - 1) is None {
            assert(facts[n - 1].taken != Ok::<bool, AppError>(false));
        }
    }
}

/// A track is put down if and only if its members make one; it is then put down as it
/// was given.
pub proof fn tracks_are_put_down_where_members_make_one(
    id: Option<i64>,
    name: Seq<char>,
    members: Seq<MemberModel>,
    facts: Facts,
)
    requires
        answers(facts, RequestModel::Track { id, name, members }),
        facts->columns matches Ok(c) ==> c > 0,
        forall|i: int| 0 <= i < members.len() ==> (#[trigger] members[i]).position_index >= 0,
    ensures
        ({
            let d = decided(RequestModel::Track { id, name, members }, facts);
            &&& d is Ok <==> (facts->columns matches Ok(c) && makes_a_track(members, facts->members@, c as int))
            &&& d matches Ok(a) ==> a == (ActionModel::PutTrack { id, name, members })
        }),
{
    if let Ok(c) = facts->columns {
        let fs = facts->members@;
        let n = members.len() as int;
        lemma_members(members, fs, n);
        assert(member_fault(members, fs, n) is None && claim_fault(fs, n) is None <==> forall|i: int|
            0 <= i < n ==> {
                &&& (#[trigger] fs[i]).exists
                &&& fs[i].taken == Ok::<bool, AppError>(false)
                &&& fs[i].position matches Ok(f) && has_key(f.candidates(), members[i].candidate_key)
            });
        assert forall|i: int| #![trigger members[i]] 1 <= i < n implies (adjoining(
            members[i - 1].position_index,
            members[i].position_index,
            c as int,
        ) <==> apart(
            members[i - 1].position_index as int % c as int,
            members[i].position_index as int % c as int,
        ) + apart(members[i - 1].position_index as int / c as int, members[i].position_index as int / c as int) == 1) by {
            assert(members[i - 1].position_index >= 0);
            neighbours_are_one_step_apart(members[i - 1].position_index, members[i].position_index, c as int);
        }
        assert(crate::db::repeats(members) <==> !(forall|i: int, j: int|
            0 <= i < j < members.len() ==> (#[trigger] members[i]).position_index != (
            #[trigger] members[j]).position_index || members[i].candidate_key != members[j].candidate_key));
        if makes_a_track(members, fs, c as int) {
            assert(crate::db::is_chain(members, c as int));
        }
    }
}

// ---------------------------------------------------------------- what is asked for

/// A change of the settings asks for the numbers that stand under their names, and for
/// the mode that stands under its own.
pub proof fn settings_requests_are_understood(j: Json)
    ensures
        requested("config_updated"@, j) matches Ok(RequestModel::Config { patch }) && {
            &&& is_number_under(Some(j), "velocity_m_s"@, patch.velocity_m_s)
            &&& is_number_under(Some(j), "probe_delay_ns"@, patch.probe_delay_ns)
            &&& is_number_under(Some(j), "amp_threshold"@, patch.amp_threshold)
            &&& is_number_under(Some(j), "snr_threshold"@, patch.snr_threshold)
            &&& is_number_under(Some(j), "min_resolvable_ns"@, patch.min_resolvable_ns)
            &&& patch.threshold_mode is Some <==> (j matches Json::Object(m) && m.dom().contains("threshold_mode"@)
                && m["threshold_mode"@] is Text)
            &&& patch.threshold_mode matches Some(name) ==> j->Object_0["threshold_mode"@] == Json::Text(name)
        },
{
    reveal_strlit("config_updated");
    reveal_strlit("fixture_imported");
    reveal_strlit("surface_corrected");
    assert("config_updated"@.len() == 14 && "fixture_imported"@.len() == 16 && "surface_corrected"@.len() == 17);
}

/// A conclusion is not even looked at unless its verdict is one of the five; where no
/// note is given it is empty.
pub proof fn conclusions_need_a_verdict(j: Json)
    ensures
        requested("decision_made"@, j) matches Ok(q) ==> {
            &&& q matches RequestModel::Decision { verdict, .. } && is_verdict(verdict)
            &&& j matches Json::Object(m) && m.dom().contains("verdict"@) && m["verdict"@] == Json::Text(
                q->Decision_verdict,
            ) && m["candidate_key"@] == Json::Text(q->Decision_key) && (m.dom().contains("note"@) && m["note"@] is Text
                ==> m["note"@] == Json::Text(q->Decision_note)) && (!m.dom().contains("note"@) ==> q->Decision_note
                == ""@)
        },
{
    reveal_strlit("decision_made");
    reveal_strlit("fixture_imported");
    reveal_strlit("surface_corrected");
    reveal_strlit("config_updated");
    reveal_strlit("gate_updated");
    assert("decision_made"@.len() == 13 && "fixture_imported"@.len() == 16 && "surface_corrected"@.len() == 17
        && "config_updated"@.len() == 14 && "gate_updated"@.len() == 12);
}

/// An event of any other type is refused.
pub proof fn other_events_are_unknown(etype: Seq<char>, j: Json)
    requires
        requested(etype, j) is Ok,
    ensures
        seq![
            "fixture_imported"@,
            "surface_corrected"@,
            "config_updated"@,
            "gate_updated"@,
            "decision_made"@,
            "candidate_split"@,
            "track_put"@,
            "track_deleted"@,
        ].contains(etype),
{
    let all = seq![
        "fixture_imported"@,
        "surface_corrected"@,
        "config_updated"@,
        "gate_updated"@,
        "decision_made"@,
        "candidate_split"@,
        "track_put"@,
        "track_deleted"@,
    ];
    assert(all[0] == "fixture_imported"@ && all[1] == "surface_corrected"@ && all[2] == "config_updated"@ && all[3]
        == "gate_updated"@ && all[4] == "decision_made"@ && all[5] == "candidate_split"@ && all[6] == "track_put"@
        && all[7] == "track_deleted"@);
}

// ---------------------------------------------------------------- conclusions on candidates

/// Candidates that no conclusion is on stay exactly as the analysis finds them.
pub proof fn conclusions_touch_only_their_candidates(
    s: Seq<CandidateModel>,
    ds: Seq<DecisionModel>,
    orphans: Seq<Option<Result<Candidate, AppError>>>,
    n: int,
    i: int,
)
    requires
        0 <= n <= ds.len() == orphans.len(),
        0 <= i < s.len(),
        forall|k: int| 0 <= k < n ==> (#[trigger] ds[k]).key != s[i].key,
    ensures
        with_conclusions(s, ds, orphans, n) matches Ok(t) ==> t.len() >= s.len() && t[i] == s[i],
    decreases n,
{
    if n > 0 {
        conclusions_touch_only_their_candidates(s, ds, orphans, n - 1, i);
        if let Ok(t) = with_conclusions(s, ds, orphans, n - 1) {
            let p = keyed(ds[n - 1].key);
            lemma_search(t, p);
            if let Some(x) = first_where(t, p) {
                assert(p(t[x]));
                assert(ds[n - 1].key != s[i].key);
            }
        }
    }
}

// ---------------------------------------------------------------- fixtures

/// Whether two gates share no sample.
pub open spec fn are_disjoint(a: GateSpec, b: GateSpec) -> bool {
    a.end <= b.start || b.end <= a.start
}

/// Whether some gate has a role.
pub open spec fn has_gate_for(gates: Seq<GateSpec>, role: Seq<char>) -> bool {
    exists|i: int| 0 <= i < gates.len() && (#[trigger] gates[i]).role@ == role
}

/// A fixture is in order if and only if it has the schema, a power of two of samples,
/// a positive interval, velocity and resolution, noise that is not negative, a noise
/// window inside the record, gates inside the record that share no sample, among them
/// one for the surface and one for the bottom, and as many positions as the grid has.
pub proof fn fixtures_in_order_are_whole(fx: Fixture)
    ensures
        fx.fault() is None <==> {
            let zero = Quantity { bits: 0 };
            let gates = fx.gates@;
            &&& fx.schema@ == "echo-bench-fixture/1"@
            &&& exists|k: nat| fx.sample_count == #[trigger] vstd::arithmetic::power2::pow2(k)
            &&& !fx.sample_interval_ns.le(zero) && !fx.velocity_m_s.le(zero) && !fx.min_resolvable_ns.le(zero)
            &&& !fx.noise.rms.lt(zero)
            &&& fx.noise_window@[0] < fx.noise_window@[1] <= fx.sample_count
            &&& gates.len() > 0
            &&& forall|i: int| 0 <= i < gates.len() ==> (#[trigger] gates[i]).start < gates[i].end <= fx.sample_count
            &&& forall|i: int, j: int|
                0 <= i < j < gates.len() ==> are_disjoint(#[trigger] gates[i], #[trigger] gates[j])
            &&& has_gate_for(gates, "surface"@)
            &&& has_gate_for(gates, "bottom"@)
            &&& fx.grid.rows * fx.grid.cols == fx.positions@.len()
        },
{
    let gates = fx.gates@;
    let bounds = crate::fixture::out_of_bounds(fx.sample_count as int);
    lemma_search(gates, bounds);
    assert(first_where(gates, bounds) is None <==> forall|i: int|
        0 <= i < gates.len() ==> (#[trigger] gates[i]).start < gates[i].end <= fx.sample_count) by {
        match first_where(gates, bounds) {
            Some(i) => {
                assert(bounds(gates[i]));
                assert(!(gates[i].start < gates[i].end <= fx.sample_count));
            },
            None => {
                assert forall|i: int| 0 <= i < gates.len() implies (#[trigger] gates[i]).start < gates[i].end
                    <= fx.sample_count by {
                    assert(!bounds(gates[i]));
                }
            },
        }
    }
    lemma_role(gates, "surface"@);
    lemma_role(gates, "bottom"@);
    if forall|i: int| 0 <= i < gates.len() ==> (#[trigger] gates[i]).start < gates[i].end <= fx.sample_count {
        lemma_gates_apart(gates);
    }
    assert(crate::fixture::is_pow2(fx.sample_count as nat) <==> exists|k: nat|
        fx.sample_count == #[trigger] vstd::arithmetic::power2::pow2(k)) by {
        if crate::fixture::is_pow2(fx.sample_count as nat) {
            let k = choose|k: nat| fx.sample_count as nat == vstd::arithmetic::power2::pow2(k);
            assert(fx.sample_count == vstd::arithmetic::power2::pow2(k));
        }
        if exists|k: nat| fx.sample_count == #[trigger] vstd::arithmetic::power2::pow2(k) {
            let k = choose|k: nat| fx.sample_count == #[trigger] vstd::arithmetic::power2::pow2(k);
            assert(fx.sample_count as nat == vstd::arithmetic::power2::pow2(k));
        }
    }
}

proof fn lemma_role(gates: Seq<GateSpec>, role: Seq<char>)
    ensures
        first_where(gates, crate::fixture::in_role(role)) is Some <==> has_gate_for(gates, role),
{
    let p = crate::fixture::in_role(role);
    lemma_search(gates, p);
    match first_where(gates, p) {
        Some(i) => {
            assert(p(gates[i]));
            assert(gates[i].role@ == role);
        },
        None => {
            assert forall|i: int| 0 <= i < gates.len() implies (#[trigger] gates[i]).role@ != role by {
                assert(!p(gates[i]));
            }
        },
    }
}

proof fn lemma_clash(s: Seq<SlotModel>, k: int)
    requires
        0 <= k,
        crate::fixture::first_clash(s, k) is Some,
    ensures
        exists|i: int| k <= i < s.len() - 1 && #[trigger] crate::fixture::clashes(s, i),
    decreases s.len() - k,
{
    if !crate::fixture::clashes(s, k) {
        lemma_clash(s, k + 1);
    } else {
        assert(k <= k < s.len() - 1 && crate::fixture::clashes(s, k));
    }
}

proof fn lemma_no_clashes(s: Seq<SlotModel>, k: int, i: int)
    requires
        0 <= k <= i < s.len() - 1,
        crate::fixture::first_clash(s, k) is None,
    ensures
        !crate::fixture::clashes(s, i),
    decreases s.len() - k,
{
    if k < i {
        lemma_no_clashes(s, k + 1, i);
    }
}

proof fn lemma_gates_apart(gates: Seq<GateSpec>)
    requires
        forall|i: int| 0 <= i < gates.len() ==> (#[trigger] gates[i]).start < gates[i].end,
    ensures
        crate::fixture::first_clash(sorted::<GateSlot>(crate::fixture::slots(gates)), 0) is None <==> forall|i: int, j: int|
            0 <= i < j < gates.len() ==> are_disjoint(#[trigger] gates[i], #[trigger] gates[j]),
{
    let all = crate::fixture::slots(gates);
    let s = sorted::<GateSlot>(all);
    sorting_orders_and_keeps_every_item::<GateSlot>(all);
    lemma_sorted_members::<GateSlot>(all);
    let by_index = |v: SlotModel| v.index;
    assert(crate::order::distinct(all, by_index));
    crate::order::lemma_sorted_distinct::<GateSlot, int>(all, by_index);
    assert forall|k: int| 0 <= k < s.len() implies 0 <= (#[trigger] s[k]).index < gates.len() && s[k].start
        == gates[s[k].index].start && s[k].end == gates[s[k].index].end by {
        assert(s.contains(s[k]));
        let i = choose|i: int| 0 <= i < all.len() && all[i] == s[k];
    }
    if crate::fixture::first_clash(s, 0) is None {
        assert forall|i: int, j: int| 0 <= i < j < gates.len() implies are_disjoint(
            #[trigger] gates[i],
            #[trigger] gates[j],
        ) by {
            assert(all.contains(all[i]) && all.contains(all[j]));
            assert(s.contains(all[i]) && s.contains(all[j]));
            let a = choose|a: int| 0 <= a < s.len() && s[a] == all[i];
            let b = choose|b: int| 0 <= b < s.len() && s[b] == all[j];
            if a < b {
                lemma_no_clashes(s, 0, a);
                if a + 1 < b {
                    assert(<GateSlot as Ranked>::ranks(s[a + 1], s[b]));
                }
            } else {
                assert(a != b);
                lemma_no_clashes(s, 0, b);
                if b + 1 < a {
                    assert(<GateSlot as Ranked>::ranks(s[b + 1], s[a]));
                }
            }
        }
    } else {
        lemma_clash(s, 0);
        let k = choose|k: int| 0 <= k < s.len() - 1 && #[trigger] crate::fixture::clashes(s, k);
        assert(<GateSlot as Ranked>::ranks(s[k], s[k + 1]));
        assert(by_index(s[k]) != by_index(s[k + 1]));
        let (i, j) = (s[k].index, s[k + 1].index);
        assert(!are_disjoint(gates[i], gates[j]));
        if i < j {
            assert(!are_disjoint(gates[i], gates[j]));
        } else {
            assert(!are_disjoint(gates[j], gates[i]));
        }
    }
}

} // verus!
