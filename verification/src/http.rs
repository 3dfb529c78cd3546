//! What requests to the bench say, as the events that they cause.

use vstd::prelude::*;

use crate::db::{is_valid_verdict, is_verdict, default_track_name, Member, MemberModel};
use crate::err::{bad, AppError};
use crate::json::{
    empty_object, field, is_integer, json_of, json_tree, list_field, list_value, put, read_json, read_text,
    signed_value, text_field, text_value, trees, unsigned_value, Json,
};
use crate::model::opt_text;
use crate::order::views;

verus! {

/// A request to put down a track.
#[derive(Clone, Debug)]
pub struct TrackBody {
    pub name: Option<String>,
    pub members: Vec<Member>,
}

/// Whether a member of an object is the given integer.
pub open spec fn has_integer(j: Json, key: Seq<char>, n: int) -> bool {
    field(j, key) matches Some(m) && is_integer(m, n)
}

/// Whether a payload asks to move a gate.
pub open spec fn says_gate(j: Json, id: Seq<char>, start: int, end: int) -> bool {
    &&& j matches Json::Object(m)
    &&& m.dom() =~= set!["gate_id"@, "start"@, "end"@]
    &&& text_field(j, "gate_id"@) == Some(id)
    &&& has_integer(j, "start"@, start)
    &&& has_integer(j, "end"@, end)
}

/// Whether a payload asks to correct the surface at a position.
pub open spec fn says_surface(j: Json, index: int, sample: int) -> bool {
    &&& j matches Json::Object(m)
    &&& m.dom() =~= set!["position_index"@, "surface_sample"@]
    &&& has_integer(j, "position_index"@, index)
    &&& has_integer(j, "surface_sample"@, sample)
}

/// Whether a payload asks to record a conclusion on a candidate.
pub open spec fn says_decision(j: Json, index: int, key: Seq<char>, verdict: Seq<char>, note: Seq<char>) -> bool {
    &&& j matches Json::Object(m)
    &&& m.dom() =~= set!["position_index"@, "candidate_key"@, "verdict"@, "note"@]
    &&& has_integer(j, "position_index"@, index)
    &&& text_field(j, "candidate_key"@) == Some(key)
    &&& text_field(j, "verdict"@) == Some(verdict)
    &&& text_field(j, "note"@) == Some(note)
}

/// Whether a list holds the given integers.
pub open spec fn are_integers(s: Seq<Json>, cuts: Seq<i64>) -> bool {
    &&& s.len() == cuts.len()
    &&& forall|i: int| 0 <= i < s.len() ==> is_integer(#[trigger] s[i], cuts[i] as int)
}

/// Whether a payload asks to split a candidate by hand.
pub open spec fn says_split(j: Json, index: int, key: Seq<char>, cuts: Seq<i64>) -> bool {
    &&& j matches Json::Object(m)
    &&& m.dom() =~= set!["position_index"@, "parent_key"@, "cuts"@]
    &&& has_integer(j, "position_index"@, index)
    &&& text_field(j, "parent_key"@) == Some(key)
    &&& list_field(j, "cuts"@) matches Some(s)
    &&& are_integers(s, cuts)
}

/// Whether a document is a member of a track.
pub open spec fn says_member(j: Json, m: MemberModel) -> bool {
    &&& j matches Json::Object(f)
    &&& f.dom() =~= set!["position_index"@, "candidate_key"@]
    &&& has_integer(j, "position_index"@, m.position_index as int)
    &&& text_field(j, "candidate_key"@) == Some(m.candidate_key)
}

/// Whether a list holds the given members of a track.
pub open spec fn are_members(s: Seq<Json>, members: Seq<MemberModel>) -> bool {
    &&& s.len() == members.len()
    &&& forall|i: int| 0 <= i < s.len() ==> says_member(#[trigger] s[i], members[i])
}

/// Whether a payload asks to put down a track.
pub open spec fn says_track(j: Json, id: Option<i64>, name: Seq<char>, members: Seq<MemberModel>) -> bool {
    &&& j matches Json::Object(m)
    &&& m.dom() =~= (if id is Some {
        set!["name"@, "members"@, "track_id"@]
    } else {
        set!["name"@, "members"@]
    })
    &&& text_field(j, "name"@) == Some(name)
    &&& list_field(j, "members"@) matches Some(s)
    &&& are_members(s, members)
    &&& (id matches Some(n) ==> has_integer(j, "track_id"@, n as int))
}

/// Whether a payload asks to delete a track.
pub open spec fn says_deletion(j: Json, id: int) -> bool {
    &&& j matches Json::Object(m)
    &&& m.dom() =~= set!["track_id"@]
    &&& has_integer(j, "track_id"@, id)
}

proof fn lemma_names()
    ensures
        "gate_id"@.len() == 7,
        "start"@.len() == 5,
        "end"@.len() == 3,
        "position_index"@.len() == 14,
        "surface_sample"@.len() == 14,
        "position_index"@ != "surface_sample"@,
        "candidate_key"@.len() == 13,
        "verdict"@.len() == 7,
        "note"@.len() == 4,
        "parent_key"@.len() == 10,
        "cuts"@.len() == 4,
        "name"@.len() == 4,
        "members"@.len() == 7,
        "track_id"@.len() == 8,
{
    reveal_strlit("gate_id");
    reveal_strlit("start");
    reveal_strlit("end");
    reveal_strlit("position_index");
    reveal_strlit("surface_sample");
    reveal_strlit("candidate_key");
    reveal_strlit("verdict");
    reveal_strlit("note");
    reveal_strlit("parent_key");
    reveal_strlit("cuts");
    reveal_strlit("name");
    reveal_strlit("members");
    reveal_strlit("track_id");
    assert("position_index"@[0] == 'p' && "surface_sample"@[0] == 's');
}

/// The payload of a request to move a gate.
pub fn gate_payload(gate_id: &str, start: usize, end: usize) -> (r: serde_json::Value)
    ensures
        says_gate(json_tree(r), gate_id@, start as int, end as int),
{
    proof {
        lemma_names();
    }
    let mut v: serde_json::Value = empty_object();
    put(&mut v, "gate_id", text_value(gate_id));
    put(&mut v, "start", unsigned_value(start));
    put(&mut v, "end", unsigned_value(end));
    v
}

/// The payload of a request to correct the surface at a position.
pub fn surface_payload(index: i64, surface_sample: i64) -> (r: serde_json::Value)
    ensures
        says_surface(json_tree(r), index as int, surface_sample as int),
{
    proof {
        lemma_names();
    }
    let mut v: serde_json::Value = empty_object();
    put(&mut v, "position_index", signed_value(index));
    put(&mut v, "surface_sample", signed_value(surface_sample));
    v
}

/// The payload of a request to record a conclusion on a candidate.
pub fn decision_payload(index: i64, key: &str, verdict: &str, note: &str) -> (r: Result<serde_json::Value, AppError>)
    ensures
        (match r {
            Ok(v) => is_verdict(verdict@) && says_decision(json_tree(v), index as int, key@, verdict@, note@),
            Err(e) => !is_verdict(verdict@) && e.0@ == "invalid verdict"@,
        }),
{
    if !is_valid_verdict(verdict) {
        return bad("invalid verdict");
    }
    proof {
        lemma_names();
    }
    let mut v: serde_json::Value = empty_object();
    put(&mut v, "position_index", signed_value(index));
    put(&mut v, "candidate_key", text_value(key));
    put(&mut v, "verdict", text_value(verdict));
    put(&mut v, "note", text_value(note));
    Ok(v)
}

/// Whether `s` holds the positive ones of `cuts`, each once and in ascending order.
pub open spec fn is_clean(s: Seq<i64>, cuts: Seq<i64>) -> bool {
    &&& forall|i: int, j: int| 0 <= i < j < s.len() ==> #[trigger] s[i] < #[trigger] s[j]
    &&& forall|c: i64| #[trigger] s.contains(c) <==> c > 0 && cuts.contains(c)
}

/// The positive ones of the cuts, each once and in ascending order.
pub fn clean_cuts(cuts: &Vec<i64>) -> (r: Vec<i64>)
    ensures
        is_clean(r@, cuts@),
{
    let mut out: Vec<i64> = Vec::new();
    let mut k: usize = 0;
    assert(cuts@.take(0).len() == 0);
    while k < cuts.len()
        invariant
            k <= cuts@.len(),
            is_clean(out@, cuts@.take(k as int)),
        decreases cuts@.len() - k,
    {
        let x: i64 = cuts[k];
        let ghost before = cuts@.take(k as int);
        let ghost now = cuts@.take(k + 1);
        let ghost prior = out@;
        assert(now =~= before.push(x));
        assert forall|c: i64| now.contains(c) <==> before.contains(c) || c == x by {
            if before.contains(c) {
                let i = choose|i: int| 0 <= i < before.len() && before[i] == c;
                assert(now[i] == c);
            }
            if c == x {
                assert(now[k as int] == c);
            }
            if now.contains(c) && c != x {
                let i = choose|i: int| 0 <= i < now.len() && now[i] == c;
                assert(before[i] == c);
            }
        }
        if x > 0 {
            let mut p: usize = out.len();
            while p > 0 && out[p - 1] > x
                invariant
                    p <= out@.len(),
                    out@ == prior,
                    forall|i: int| p <= i < out@.len() ==> #[trigger] out@[i] > x,
                decreases p,
            {
                p = p - 1;
            }
            if p > 0 && out[p - 1] == x {
                assert(prior.contains(x));
            } else {
                out.insert(p, x);
                proof {
                    assert forall|i: int, j: int| 0 <= i < j < out@.len() implies #[trigger] out@[i] < #[trigger] out@[j] by {
                        if i < p && j >= p && p > 0 {
                            assert(prior[i] <= prior[p - 1]) by {
                                if i < p - 1 {
                                    assert(prior[i] < prior[p - 1]);
                                }
                            }
                        }
                    }
                    assert forall|c: i64| #[trigger] out@.contains(c) <==> c > 0 && now.contains(c) by {
                        assert(prior.contains(c) <==> c > 0 && before.contains(c));
                        if prior.contains(c) {
                            let i = choose|i: int| 0 <= i < prior.len() && prior[i] == c;
                            if i < p {
                                assert(out@[i] == c);
                            } else {
                                assert(out@[i + 1] == c);
                            }
                        }
                        if c == x {
                            assert(out@[p as int] == c);
                        }
                        if out@.contains(c) && c != x {
                            let i = choose|i: int| 0 <= i < out@.len() && out@[i] == c;
                            if i < p {
                                assert(prior[i] == c);
                            } else {
                                assert(prior[i - 1] == c);
                            }
                        }
                    }
                }
            }
        }
        k = k + 1;
    }
    assert(cuts@.take(cuts@.len() as int) =~= cuts@);
    out
}

/// The payload of a request to split a candidate by hand.
pub fn split_payload(index: i64, key: &str, cuts: &Vec<i64>) -> (r: serde_json::Value)
    ensures
        exists|clean: Seq<i64>| #[trigger] is_clean(clean, cuts@) && says_split(json_tree(r), index as int, key@, clean),
{
    proof {
        lemma_names();
    }
    let clean: Vec<i64> = clean_cuts(cuts);
    let mut list: Vec<serde_json::Value> = Vec::new();
    let mut k: usize = 0;
    while k < clean.len()
        invariant
            k <= clean@.len(),
            list@.len() == k,
            forall|i: int| 0 <= i < k ==> is_integer(json_tree(#[trigger] list@[i]), clean@[i] as int),
        decreases clean@.len() - k,
    {
        list.push(signed_value(clean[k]));
        k = k + 1;
    }
    assert(are_integers(trees(list@), clean@));
    let mut v: serde_json::Value = empty_object();
    put(&mut v, "position_index", signed_value(index));
    put(&mut v, "parent_key", text_value(key));
    put(&mut v, "cuts", list_value(list));
    assert(says_split(json_tree(v), index as int, key@, clean@));
    v
}

fn member_value(m: &Member) -> (r: serde_json::Value)
    ensures
        says_member(json_tree(r), m@),
{
    proof {
        lemma_names();
    }
    let mut v: serde_json::Value = empty_object();
    put(&mut v, "position_index", signed_value(m.position_index));
    put(&mut v, "candidate_key", text_value(m.candidate_key.as_str()));
    v
}

/// The payload of a request to put down a track, or to replace the one with the
/// given id.
pub fn track_payload(body: &TrackBody, track_id: Option<i64>) -> (r: serde_json::Value)
    ensures
        says_track(
            json_tree(r),
            track_id,
            match opt_text(body.name) {
                Some(name) => name,
                None => default_track_name(),
            },
            views(body.members@),
        ),
{
    proof {
        lemma_names();
    }
    let mut list: Vec<serde_json::Value> = Vec::new();
    let mut k: usize = 0;
    while k < body.members.len()
        invariant
            k <= body.members@.len(),
            list@.len() == k,
            forall|i: int| 0 <= i < k ==> says_member(json_tree(#[trigger] list@[i]), body.members@[i]@),
        decreases body.members@.len() - k,
    {
        list.push(member_value(&body.members[k]));
        k = k + 1;
    }
    assert(are_members(trees(list@), views(body.members@)));
    let name: serde_json::Value = match &body.name {
        Some(name) => text_value(name.as_str()),
        None => text_value("缺陷轨迹"),
    };
    let mut v: serde_json::Value = empty_object();
    put(&mut v, "name", name);
    put(&mut v, "members", list_value(list));
    if let Some(id) = track_id {
        put(&mut v, "track_id", signed_value(id));
    }
    v
}

/// The payload of a request to delete a track.
pub fn deletion_payload(id: i64) -> (r: serde_json::Value)
    ensures
        says_deletion(json_tree(r), id as int),
{
    let mut v: serde_json::Value = empty_object();
    put(&mut v, "track_id", signed_value(id));
    v
}

/// The fixture in the body of an import, which may be a document: the text under
/// `fixture` where it is an object with one, or else the body itself.
pub open spec fn fixture_in(parsed: Option<Json>, body: Seq<char>) -> Seq<char> {
    match parsed {
        Some(j) => match text_field(j, "fixture"@) {
            Some(s) => s,
            None => body,
        },
        None => body,
    }
}

/// The fixture in the body of an import, given what the body was read as.
pub fn fixture_or_body(parsed: &Option<serde_json::Value>, body: &str) -> (r: String)
    ensures
        r@ == fixture_in(
            match *parsed {
                Some(v) => Some(json_tree(v)),
                None => None,
            },
            body@,
        ),
{
    match parsed {
        Some(v) => match read_text(v, "fixture") {
            Some(s) => s.to_owned(),
            None => body.to_owned(),
        },
        None => body.to_owned(),
    }
}

/// The fixture in the body of an import.
pub fn fixture_text(body: &str) -> (r: String)
    ensures
        r@ == fixture_in(json_of(body@), body@),
{
    let parsed: Option<serde_json::Value> = read_json(body);
    fixture_or_body(&parsed, body)
}

} // verus!
