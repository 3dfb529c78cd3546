//! What every payload asks for, in terms of the members that it has.

use vstd::prelude::*;

use crate::db::{
    adjoining, decided, exported, is_export, is_gate_of, is_row_of, is_verdict, or_empty, orphaned, replay_fault, requested,
    with_conclusions, ActionModel, DecisionModel, Facts, MemberModel, PositionRow, RequestModel,
};
use crate::err::AppError;
use crate::fixture::{Fixture, GateSpec};
use crate::http::{fixture_in, is_clean};
use crate::json::{json_tree, list_text, Json, JsonNumber};
use crate::seqs::{first_where, lemma_search};
use crate::signal::{keyed, Candidate, CandidateModel, Gate};
use crate::text::digits;

verus! {

/// Whether a document has a number under a name.
pub open spec fn has_number(j: Json, key: Seq<char>) -> bool {
    j matches Json::Object(m) && m.dom().contains(key) && m[key] is Number
}

/// Whether a document has a text under a name.
pub open spec fn has_text(j: Json, key: Seq<char>) -> bool {
    j matches Json::Object(m) && m.dom().contains(key) && m[key] is Text
}

/// The number under a name.
pub open spec fn number_at(j: Json, key: Seq<char>) -> JsonNumber {
    j->Object_0[key]->Number_0
}

/// The text under a name.
pub open spec fn text_at(j: Json, key: Seq<char>) -> Seq<char> {
    j->Object_0[key]->Text_0
}

proof fn lemma_event_names()
    ensures
        "fixture_imported"@.len() == 16,
        "surface_corrected"@.len() == 17,
        "config_updated"@.len() == 14,
        "gate_updated"@.len() == 12,
        "decision_made"@.len() == 13,
        "candidate_split"@.len() == 15,
        "track_put"@.len() == 9,
        "track_deleted"@.len() == 13,
        "decision_made"@ != "track_deleted"@,
{
    reveal_strlit("fixture_imported");
    reveal_strlit("surface_corrected");
    reveal_strlit("config_updated");
    reveal_strlit("gate_updated");
    reveal_strlit("decision_made");
    reveal_strlit("candidate_split");
    reveal_strlit("track_put");
    reveal_strlit("track_deleted");
    assert("decision_made"@[0] == 'd' && "track_deleted"@[0] == 't');
}

// ---------------------------------------------------------------- what is asked for

/// A surface is asked for by a position and a sample, and by nothing less.
pub proof fn surfaces_are_asked_for_by_position_and_sample(j: Json)
    ensures
        requested("surface_corrected"@, j) is Ok <==> has_number(j, "position_index"@) && has_number(
            j,
            "surface_sample"@,
        ),
        requested("surface_corrected"@, j) matches Ok(q) ==> q == (RequestModel::Surface {
            index: number_at(j, "position_index"@).whole,
            sample: number_at(j, "surface_sample"@).whole,
        }),
{
    lemma_event_names();
}

/// A gate is asked for by its id, its start and its end, and by nothing less.
pub proof fn gates_are_asked_for_by_id_and_bounds(j: Json)
    ensures
        requested("gate_updated"@, j) is Ok <==> has_text(j, "gate_id"@) && has_number(j, "start"@) && has_number(
            j,
            "end"@,
        ),
        requested("gate_updated"@, j) matches Ok(q) ==> q == (RequestModel::Gate {
            id: text_at(j, "gate_id"@),
            start: number_at(j, "start"@).whole,
            end: number_at(j, "end"@).whole,
        }),
{
    lemma_event_names();
}

/// A conclusion is asked for by a position, the key of a candidate and one of the five
/// verdicts. Its note is the text that is given, or empty.
pub proof fn conclusions_are_asked_for_by_candidate_and_verdict(j: Json)
    ensures
        requested("decision_made"@, j) is Ok <==> has_number(j, "position_index"@) && has_text(j, "candidate_key"@)
            && has_text(j, "verdict"@) && is_verdict(text_at(j, "verdict"@)),
        requested("decision_made"@, j) matches Ok(q) ==> q == (RequestModel::Decision {
            index: number_at(j, "position_index"@).whole,
            key: text_at(j, "candidate_key"@),
            verdict: text_at(j, "verdict"@),
            note: if has_text(j, "note"@) {
                text_at(j, "note"@)
            } else {
                Seq::empty()
            },
        }),
{
    lemma_event_names();
    reveal_strlit("");
    assert(""@ =~= Seq::<char>::empty());
}

/// A split is asked for by a position and the key of a candidate.
pub proof fn splits_are_asked_for_by_candidate(j: Json)
    ensures
        requested("candidate_split"@, j) is Ok <==> has_number(j, "position_index"@) && has_text(j, "parent_key"@),
        requested("candidate_split"@, j) matches Ok(q) ==> {
            &&& q matches RequestModel::Split { index, parent, cuts }
            &&& index == number_at(j, "position_index"@).whole
            &&& parent == text_at(j, "parent_key"@)
            &&& !(j->Object_0.dom().contains("cuts"@) && j->Object_0["cuts"@] is List) ==> cuts.len() == 0
        },
{
    lemma_event_names();
}

/// Whether a document is an unsigned integer.
pub open spec fn is_unsigned(x: Json) -> bool {
    x matches Json::Number(n) && n.unsigned is Some
}

/// The cuts that a split asks for are the unsigned integers of its list, in their order:
/// one more at the end of the list is one more cut, and anything else there is none.
pub proof fn cuts_are_the_unsigned_integers(m: Map<Seq<char>, Json>, s: Seq<Json>, x: Json)
    ensures
        ({
            let with = |l: Seq<Json>| requested("candidate_split"@, Json::Object(m.insert("cuts"@, Json::List(l))));
            with(s) matches Ok(q) ==> with(s.push(x)) matches Ok(p) && {
                &&& is_unsigned(x) ==> p->Split_cuts == q->Split_cuts.push(
                    x->Number_0.unsigned->0 as usize,
                )
                &&& !is_unsigned(x) ==> p->Split_cuts == q->Split_cuts
                &&& s.len() == 0 ==> q->Split_cuts.len() == 0
            }
        }),
{
    lemma_event_names();
    let n = s.len() as int;
    lemma_same_cuts(s, s.push(x), n);
}

proof fn lemma_same_cuts(s: Seq<Json>, t: Seq<Json>, n: int)
    requires
        n <= s.len(),
        n <= t.len(),
        forall|i: int| 0 <= i < n ==> s[i] == t[i],
    ensures
        crate::db::cuts_among(s, n) == crate::db::cuts_among(t, n),
    decreases n,
{
    if n > 0 {
        lemma_same_cuts(s, t, n - 1);
    }
}

/// Whether a document names a candidate at a position.
pub open spec fn names_a_candidate(j: Json) -> bool {
    has_number(j, "position_index"@) && has_text(j, "candidate_key"@)
}

proof fn lemma_members(s: Seq<Json>, n: int)
    requires
        0 <= n <= s.len(),
    ensures
        crate::db::members_among(s, n) is Ok <==> forall|i: int| 0 <= i < n ==> #[trigger] names_a_candidate(s[i]),
        crate::db::members_among(s, n) matches Ok(members) ==> members.len() == n && forall|i: int|
            0 <= i < n ==> #[trigger] members[i] == (MemberModel {
                position_index: number_at(s[i], "position_index"@).whole,
                candidate_key: text_at(s[i], "candidate_key"@),
            }),
    decreases n,
{
    if n > 0 {
        lemma_members(s, n - 1);
        if crate::db::members_among(s, n) is Ok {
            assert(names_a_candidate(s[n - 1]));
        }
        if forall|i: int| 0 <= i < n ==> #[trigger] names_a_candidate(s[i]) {
            assert(names_a_candidate(s[n - 1]));
        }
    }
}

/// A track is asked for by a list of members that is not empty, each with a position
/// and the key of a candidate. Its members are those of the list, in their order; its
/// id is the integer that is given, if there is one; and its name the text that is
/// given.
pub proof fn tracks_are_asked_for_by_their_members(j: Json)
    ensures
        requested("track_put"@, j) is Ok <==> {
            &&& j matches Json::Object(m)
            &&& m.dom().contains("members"@)
            &&& m["members"@] matches Json::List(s)
            &&& s.len() > 0
            &&& forall|i: int| 0 <= i < s.len() ==> #[trigger] names_a_candidate(s[i])
        },
        requested("track_put"@, j) matches Ok(q) ==> {
            let s = j->Object_0["members"@]->List_0;
            &&& q matches RequestModel::Track { id, name, members }
            &&& members.len() == s.len()
            &&& forall|i: int|
                0 <= i < s.len() ==> #[trigger] members[i] == (MemberModel {
                    position_index: number_at(s[i], "position_index"@).whole,
                    candidate_key: text_at(s[i], "candidate_key"@),
                })
            &&& id == if has_number(j, "track_id"@) {
                number_at(j, "track_id"@).signed
            } else {
                None
            }
            &&& name == if has_text(j, "name"@) {
                text_at(j, "name"@)
            } else {
                "缺陷轨迹"@
            }
        },
{
    lemma_event_names();
    if let Some(s) = crate::json::list_field(j, "members"@) {
        lemma_members(s, s.len() as int);
    }
}

/// A track is deleted by its id, and a fixture is imported by its text.
pub proof fn deletions_and_imports_are_asked_for_by_one_member(j: Json)
    ensures
        requested("track_deleted"@, j) is Ok <==> has_number(j, "track_id"@),
        requested("track_deleted"@, j) matches Ok(q) ==> q == (RequestModel::DeleteTrack {
            id: number_at(j, "track_id"@).whole,
        }),
        requested("fixture_imported"@, j) is Ok <==> has_text(j, "fixture"@),
        requested("fixture_imported"@, j) matches Ok(q) ==> q == (RequestModel::Import {
            fixture: text_at(j, "fixture"@),
        }),
{
    lemma_event_names();
}

// ---------------------------------------------------------------- what is decided

/// An import and a deletion are never refused, and a split is refused only at an
/// unknown position. What is stored is what was asked for.
pub proof fn splits_imports_and_deletions_are_stored_as_asked(
    index: i64,
    parent: Seq<char>,
    cuts: Seq<usize>,
    exists: bool,
    fixture: Seq<char>,
    id: i64,
    facts: Facts,
)
    ensures
        decided(RequestModel::Split { index, parent, cuts }, Facts::Split { exists }) is Ok <==> exists,
        exists ==> decided(RequestModel::Split { index, parent, cuts }, Facts::Split { exists }) == Ok::<
            ActionModel,
            Seq<char>,
        >(ActionModel::PutSplit { index, parent, cuts: list_text(cuts) }),
        decided(RequestModel::Import { fixture }, facts) == Ok::<ActionModel, Seq<char>>(
            ActionModel::Install { fixture },
        ),
        decided(RequestModel::DeleteTrack { id }, facts) == Ok::<ActionModel, Seq<char>>(ActionModel::DeleteTrack { id }),
{
}

proof fn lemma_same_list(s: Seq<usize>, t: Seq<usize>, n: int)
    requires
        n <= s.len(),
        n <= t.len(),
        forall|i: int| 0 <= i < n ==> s[i] == t[i],
    ensures
        crate::json::comma_separated(s, n) == crate::json::comma_separated(t, n),
    decreases n,
{
    if n > 0 {
        lemma_same_list(s, t, n - 1);
    }
}

/// The notation of a list is that of its numbers between brackets, with commas between
/// them: one more number goes in front of the closing bracket.
pub proof fn lists_are_written_between_brackets(s: Seq<usize>, x: usize)
    ensures
        s.len() == 0 ==> list_text(s) == seq!['[', ']'],
        s.len() == 0 ==> list_text(s.push(x)) == seq!['['] + digits(x as nat) + seq![']'],
        s.len() > 0 ==> list_text(s.push(x)) == list_text(s).drop_last() + seq![','] + digits(x as nat) + seq![']'],
        list_text(s).len() >= 2,
        list_text(s).last() == ']',
{
    let n = s.len() as int;
    lemma_same_list(s, s.push(x), n);
    if n == 0 {
        assert(list_text(s) =~= seq!['[', ']']);
    } else {
        assert(list_text(s).drop_last() =~= seq!['['] + crate::json::comma_separated(s, n));
        assert(list_text(s.push(x)) =~= list_text(s).drop_last() + seq![','] + digits(x as nat) + seq![']']);
    }
}

/// Positions before the first count from the other side: of two of them the numbers
/// without sign decide, and one of them adjoins one that is not before the first only
/// if both are no further than one step from the corner in all.
pub proof fn positions_before_the_first_are_mirrored(x: i64, y: i64, c: int)
    requires
        0 < x,
        0 < y,
        0 < c,
    ensures
        adjoining((-x) as i64, (-y) as i64, c) == adjoining(x, y, c),
        adjoining((-x) as i64, y, c) <==> x as int % c + y as int % c + x as int / c + y as int / c == 1,
        adjoining((-x) as i64, 0, c) <==> x as int % c + x as int / c == 1,
{
    vstd::arithmetic::div_mod::lemma_div_pos_is_pos(x as int, c);
    vstd::arithmetic::div_mod::lemma_div_pos_is_pos(y as int, c);
    vstd::arithmetic::div_mod::lemma_mod_pos_bound(x as int, c);
    vstd::arithmetic::div_mod::lemma_mod_pos_bound(y as int, c);
    vstd::arithmetic::div_mod::lemma_small_mod(0, c as nat);
    vstd::arithmetic::div_mod::lemma_div_basics(c);
}

// ---------------------------------------------------------------- logs and fixtures

/// Exported events can be applied again if and only if there are none, or the first
/// one imports a fixture.
pub proof fn replays_begin_with_an_import(events: Seq<serde_json::Value>)
    ensures
        replay_fault(events) is None <==> events.len() == 0 || (has_text(json_tree(events[0]), "type"@) && text_at(
            json_tree(events[0]),
            "type"@,
        ) == "fixture_imported"@),
{
}

/// An exported event is applied again by its type and its payload; a payload that is
/// missing, or that was no document, counts as an object without members.
pub proof fn exports_are_read_by_type_and_payload(j: Json)
    ensures
        exported(j) is Ok <==> has_text(j, "type"@),
        exported(j) matches Ok(p) ==> p.0 == text_at(j, "type"@) && p.1 == if j->Object_0.dom().contains("payload"@) {
            j->Object_0["payload"@]
        } else {
            Json::Object(Map::empty())
        },
        or_empty(Some(j)) == j,
        or_empty(None) == Json::Object(Map::empty()),
{
}

/// An exported event says its number, its time, its type and its payload, and nothing
/// else.
pub proof fn exports_say_number_time_type_and_payload(
    j: Json,
    seq_no: i64,
    ts: Seq<char>,
    etype: Seq<char>,
    payload: Json,
    k: Seq<char>,
)
    requires
        is_export(j, seq_no, ts, etype, payload),
    ensures
        j is Object,
        j->Object_0.dom().contains(k) <==> k == "seq"@ || k == "ts"@ || k == "type"@ || k == "payload"@,
        number_at(j, "seq"@).signed == Some(seq_no),
        text_at(j, "ts"@) == ts,
        text_at(j, "type"@) == etype,
        j->Object_0["payload"@] == payload,
{
}

/// An import brings the text under `fixture` where its body is an object with one, and
/// the body as it is otherwise.
pub proof fn imports_bring_a_member_or_the_body(j: Json, body: Seq<char>)
    ensures
        has_text(j, "fixture"@) ==> fixture_in(Some(j), body) == text_at(j, "fixture"@),
        !has_text(j, "fixture"@) ==> fixture_in(Some(j), body) == body,
        fixture_in(None, body) == body,
{
}

/// The cuts of a split are positive and ascend without repetition; a positive cut is
/// among them if and only if it was asked for.
pub proof fn clean_cuts_ascend(s: Seq<i64>, cuts: Seq<i64>, i: int, j: int, c: i64)
    requires
        is_clean(s, cuts),
    ensures
        0 <= i < s.len() ==> s[i] > 0 && cuts.contains(s[i]),
        0 <= i < j < s.len() ==> s[i] < s[j],
        c > 0 && cuts.contains(c) ==> s.contains(c),
{
    if 0 <= i < s.len() {
        assert(s.contains(s[i]));
    }
}

/// The gates and the positions that are stored for a fixture say what the fixture says.
/// The positions fill the grid row by row, and each has its own surface or else the
/// one of all.
pub proof fn stored_fixtures_say_the_same(g: Gate, of: GateSpec, p: PositionRow, fx: Fixture, i: int)
    requires
        is_gate_of(g, of),
        is_row_of(p, fx, i),
        0 <= i < fx.positions@.len(),
    ensures
        g.id@ == of.id@ && g.label@ == of.label@ && g.role@ == of.role@ && g.start == of.start && g.end == of.end,
        p.index == i && p.id@ == fx.positions@[i].id@ && p.name@ == fx.positions@[i].name@,
        p.row == i / fx.grid.cols as int && p.column == i % fx.grid.cols as int,
        fx.positions@[i].surface_sample matches Some(s) ==> p.surface_sample == s,
        fx.positions@[i].surface_sample is None ==> p.surface_sample == fx.defaults.surface_sample,
{
    vstd::arithmetic::div_mod::lemma_fundamental_div_mod_converse(
        i,
        fx.grid.cols as int,
        p.row as int,
        p.column as int,
    );
}

// ---------------------------------------------------------------- lost conclusions

/// A snapshot that is null counts as an object without members, and one that is neither
/// an object nor null, or that was no document, gives nothing.
pub proof fn snapshots_are_objects(snap: Option<Json>, verdict: Seq<char>, note: Seq<char>)
    ensures
        orphaned(snap, verdict, note) is Some <==> (snap matches Some(j) && (j is Object || j is Null)),
        snap == Some(Json::Null) ==> orphaned(snap, verdict, note) == orphaned(
            Some(Json::Object(Map::empty())),
            verdict,
            note,
        ),
{
}

/// A conclusion whose candidate is not found adds the candidate of its snapshot behind
/// the others, or nothing where there is none; where it cannot be made out, nothing is
/// listed at all.
pub proof fn lost_conclusions_add_their_own_candidate(
    s: Seq<CandidateModel>,
    ds: Seq<DecisionModel>,
    orphans: Seq<Option<Result<Candidate, AppError>>>,
    n: int,
)
    requires
        0 <= n < ds.len() == orphans.len(),
    ensures
        with_conclusions(s, ds, orphans, 0) == Ok::<Seq<CandidateModel>, Seq<char>>(s),
        with_conclusions(s, ds, orphans, n) is Err ==> with_conclusions(s, ds, orphans, n + 1) is Err,
        with_conclusions(s, ds, orphans, n) matches Ok(t) ==> ((forall|i: int|
            0 <= i < t.len() ==> (#[trigger] t[i]).key != ds[n].key) ==> {
            let u = with_conclusions(s, ds, orphans, n + 1);
            &&& orphans[n] is None ==> u == Ok::<Seq<CandidateModel>, Seq<char>>(t)
            &&& orphans[n] matches Some(Ok(c)) ==> u == Ok::<Seq<CandidateModel>, Seq<char>>(t.push(c@))
            &&& orphans[n] matches Some(Err(e)) ==> u == Err::<Seq<CandidateModel>, Seq<char>>(e.0@)
        }),
{
    if let Ok(t) = with_conclusions(s, ds, orphans, n) {
        let p = keyed(ds[n].key);
        lemma_search(t, p);
        if let Some(i) = first_where(t, p) {
            assert(p(t[i]));
            assert(t[i].key == ds[n].key);
        }
    }
}

} // verus!
