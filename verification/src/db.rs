//! The events of the bench: what each asks for, when it is refused, and what has to
//! be stored for it.
//!
//! An event is read from its type and payload. What is stored is looked up for it,
//! and comes here with the failures of looking it up. From both the event is
//! refused with a message, or it is decided what to store.

use vstd::prelude::*;

use crate::clock::unix_seconds;
use crate::err::{bad, AppError};
use crate::fixture::{Fixture, GateSpec, PositionSpec};
use crate::json::{
    as_number, bool_value, empty_object, field, is_integer, is_null, is_object, json_of, json_text,
    json_tree, list_field, list_of, list_text, lossless, number_field, put, read_json, read_list,
    read_member, read_number, read_numbers, read_signed, read_text, signed_value, text_field, text_value,
    trees, unsigned_in, write_json, write_numbers, Json, JsonNumber,
};
use crate::model::opt_text;
use crate::order::views;
use crate::quantity::Quantity;
use crate::seqs::first_where;
use crate::signal::{
    analyze, detection_level, echoes, find_keyed, found_candidates, keyed, surface_after_bottom, AnalConfig, Analysis,
    Candidate, CandidateModel, Gate, Record, Split, ThresholdMode,
};
use crate::text::{decimal, decimal_signed, digits, join2, join3, same_text, signed_digits};

verus! {

/// Full scale (1.0, as a bit pattern).
pub const ONE: u64 = 0x3ff0_0000_0000_0000;

/// The amplitude threshold of a fresh bench (0.15, as a bit pattern).
pub const AMP_THRESHOLD: u64 = 0x3fc3_3333_3333_3333;

/// The SNR threshold of a fresh bench (4.0, as a bit pattern).
pub const SNR_THRESHOLD: u64 = 0x4010_0000_0000_0000;

/// Changes to the settings; what is not given stays as it is.
#[derive(Clone, Debug)]
pub struct ConfigPatch {
    pub velocity_m_s: Option<Quantity>,
    pub probe_delay_ns: Option<Quantity>,
    pub threshold_mode: Option<String>,
    pub amp_threshold: Option<Quantity>,
    pub snr_threshold: Option<Quantity>,
    pub min_resolvable_ns: Option<Quantity>,
}

/// What changes to the settings hold.
#[verifier::ext_equal]
pub struct ConfigPatchModel {
    pub velocity_m_s: Option<Quantity>,
    pub probe_delay_ns: Option<Quantity>,
    pub threshold_mode: Option<Seq<char>>,
    pub amp_threshold: Option<Quantity>,
    pub snr_threshold: Option<Quantity>,
    pub min_resolvable_ns: Option<Quantity>,
}

impl View for ConfigPatch {
    type V = ConfigPatchModel;

    open spec fn view(&self) -> ConfigPatchModel {
        ConfigPatchModel {
            velocity_m_s: self.velocity_m_s,
            probe_delay_ns: self.probe_delay_ns,
            threshold_mode: opt_text(self.threshold_mode),
            amp_threshold: self.amp_threshold,
            snr_threshold: self.snr_threshold,
            min_resolvable_ns: self.min_resolvable_ns,
        }
    }
}

/// New bounds for a gate.
#[derive(Clone, Copy, PartialEq, Eq, Structural, Debug)]
pub struct GatePatch {
    pub start: usize,
    pub end: usize,
}

/// A member of a track: a candidate at a position.
#[derive(Clone, Debug)]
pub struct Member {
    pub position_index: i64,
    pub candidate_key: String,
}

/// What a member of a track holds.
#[verifier::ext_equal]
pub struct MemberModel {
    pub position_index: i64,
    pub candidate_key: Seq<char>,
}

impl View for Member {
    type V = MemberModel;

    open spec fn view(&self) -> MemberModel {
        MemberModel { position_index: self.position_index, candidate_key: self.candidate_key@ }
    }
}

/// What an event asks for.
#[derive(Debug)]
pub enum Request {
    Import { fixture: String },
    Surface { index: i64, sample: i64 },
    Config { patch: ConfigPatch },
    Gate { id: String, start: i64, end: i64 },
    Decision { index: i64, key: String, verdict: String, note: String },
    Split { index: i64, parent: String, cuts: Vec<usize> },
    Track { id: Option<i64>, name: String, members: Vec<Member> },
    DeleteTrack { id: i64 },
}

/// What an event asks for, as values.
#[verifier::ext_equal]
pub enum RequestModel {
    Import { fixture: Seq<char> },
    Surface { index: i64, sample: i64 },
    Config { patch: ConfigPatchModel },
    Gate { id: Seq<char>, start: i64, end: i64 },
    Decision { index: i64, key: Seq<char>, verdict: Seq<char>, note: Seq<char> },
    Split { index: i64, parent: Seq<char>, cuts: Seq<usize> },
    Track { id: Option<i64>, name: Seq<char>, members: Seq<MemberModel> },
    DeleteTrack { id: i64 },
}

impl View for Request {
    type V = RequestModel;

    open spec fn view(&self) -> RequestModel {
        match self {
            Request::Import { fixture } => RequestModel::Import { fixture: fixture@ },
            Request::Surface { index, sample } => RequestModel::Surface { index: *index, sample: *sample },
            Request::Config { patch } => RequestModel::Config { patch: patch@ },
            Request::Gate { id, start, end } => RequestModel::Gate { id: id@, start: *start, end: *end },
            Request::Decision { index, key, verdict, note } => RequestModel::Decision {
                index: *index,
                key: key@,
                verdict: verdict@,
                note: note@,
            },
            Request::Split { index, parent, cuts } => RequestModel::Split {
                index: *index,
                parent: parent@,
                cuts: cuts@,
            },
            Request::Track { id, name, members } => RequestModel::Track {
                id: *id,
                name: name@,
                members: views(members@),
            },
            Request::DeleteTrack { id } => RequestModel::DeleteTrack { id: *id },
        }
    }
}

/// A result whose error is its message.
pub open spec fn outcome<T: View>(r: Result<T, AppError>) -> Result<T::V, Seq<char>> {
    match r {
        Ok(v) => Ok(v@),
        Err(e) => Err(e.0@),
    }
}

// ---------------------------------------------------------------- reading events

/// The message for a field that has to be a number and is not.
pub open spec fn no_number(key: Seq<char>) -> Seq<char> {
    "missing numeric field `"@ + key + "`"@
}

/// The integer in a field that has to be a number.
pub open spec fn whole_field(p: Json, key: Seq<char>) -> Result<i64, Seq<char>> {
    match number_field(p, key) {
        Some(n) => Ok(n.whole),
        None => Err(no_number(key)),
    }
}

/// The quantity in a field.
pub open spec fn quantity_field(p: Json, key: Seq<char>) -> Option<Quantity> {
    match number_field(p, key) {
        Some(n) => Some(Quantity { bits: n.bits }),
        None => None,
    }
}

/// Whether a verdict is one that can be recorded.
pub open spec fn is_verdict(v: Seq<char>) -> bool {
    ||| v == "retained"@
    ||| v == "true_scatterer"@
    ||| v == "saturation"@
    ||| v == "overlap"@
    ||| v == "rejected"@
}

/// The name of a track that is given none.
pub open spec fn default_track_name() -> Seq<char> {
    "缺陷轨迹"@
}

/// The unsigned integers among the first `n` elements of a list.
pub open spec fn cuts_among(s: Seq<Json>, n: int) -> Seq<usize>
    decreases n,
{
    if n <= 0 {
        Seq::empty()
    } else {
        let rest = cuts_among(s, n - 1);
        match as_number(s[n - 1]) {
            Some(JsonNumber { unsigned: Some(u), .. }) => rest.push(u as usize),
            _ => rest,
        }
    }
}

/// The cuts in a payload; none where they are no list.
pub open spec fn cuts_field(p: Json) -> Seq<usize> {
    match list_field(p, "cuts"@) {
        Some(s) => cuts_among(s, s.len() as int),
        None => Seq::empty(),
    }
}

/// The members of a track among the first `n` elements of a list, or the message for
/// the first element that is none.
pub open spec fn members_among(s: Seq<Json>, n: int) -> Result<Seq<MemberModel>, Seq<char>>
    decreases n,
{
    if n <= 0 {
        Ok(Seq::empty())
    } else {
        match members_among(s, n - 1) {
            Err(m) => Err(m),
            Ok(rest) => match whole_field(s[n - 1], "position_index"@) {
                Err(m) => Err(m),
                Ok(position_index) => match text_field(s[n - 1], "candidate_key"@) {
                    None => Err("member requires candidate_key"@),
                    Some(candidate_key) => Ok(rest.push(MemberModel { position_index, candidate_key })),
                },
            },
        }
    }
}

/// The members of the track in a payload.
pub open spec fn members_field(p: Json) -> Result<Seq<MemberModel>, Seq<char>> {
    match list_field(p, "members"@) {
        None => Err("track requires a members array"@),
        Some(s) => if s.len() == 0 {
            Err("track must contain at least one member"@)
        } else {
            members_among(s, s.len() as int)
        },
    }
}

/// What a correction of the surface asks for.
pub open spec fn surface_request(p: Json) -> Result<RequestModel, Seq<char>> {
    match whole_field(p, "position_index"@) {
        Err(m) => Err(m),
        Ok(index) => match whole_field(p, "surface_sample"@) {
            Err(m) => Err(m),
            Ok(sample) => Ok(RequestModel::Surface { index, sample }),
        },
    }
}

/// What a change of the settings asks for.
pub open spec fn config_request(p: Json) -> RequestModel {
    RequestModel::Config {
        patch: ConfigPatchModel {
            velocity_m_s: quantity_field(p, "velocity_m_s"@),
            probe_delay_ns: quantity_field(p, "probe_delay_ns"@),
            threshold_mode: text_field(p, "threshold_mode"@),
            amp_threshold: quantity_field(p, "amp_threshold"@),
            snr_threshold: quantity_field(p, "snr_threshold"@),
            min_resolvable_ns: quantity_field(p, "min_resolvable_ns"@),
        },
    }
}

/// What a change of a gate asks for.
pub open spec fn gate_request(p: Json) -> Result<RequestModel, Seq<char>> {
    match text_field(p, "gate_id"@) {
        None => Err("gate_updated requires gate_id"@),
        Some(id) => match whole_field(p, "start"@) {
            Err(m) => Err(m),
            Ok(start) => match whole_field(p, "end"@) {
                Err(m) => Err(m),
                Ok(end) => Ok(RequestModel::Gate { id, start, end }),
            },
        },
    }
}

/// What a conclusion on a candidate asks for.
pub open spec fn decision_request(p: Json) -> Result<RequestModel, Seq<char>> {
    match whole_field(p, "position_index"@) {
        Err(m) => Err(m),
        Ok(index) => match text_field(p, "candidate_key"@) {
            None => Err("decision requires candidate_key"@),
            Some(key) => match text_field(p, "verdict"@) {
                None => Err("decision requires verdict"@),
                Some(verdict) => if !is_verdict(verdict) {
                    Err("invalid verdict"@)
                } else {
                    Ok(
                        RequestModel::Decision {
                            index,
                            key,
                            verdict,
                            note: match text_field(p, "note"@) {
                                Some(note) => note,
                                None => ""@,
                            },
                        },
                    )
                },
            },
        },
    }
}

/// What a manual split asks for.
pub open spec fn split_request(p: Json) -> Result<RequestModel, Seq<char>> {
    match whole_field(p, "position_index"@) {
        Err(m) => Err(m),
        Ok(index) => match text_field(p, "parent_key"@) {
            None => Err("split requires parent_key"@),
            Some(parent) => Ok(RequestModel::Split { index, parent, cuts: cuts_field(p) }),
        },
    }
}

/// What putting down a track asks for.
pub open spec fn track_request(p: Json) -> Result<RequestModel, Seq<char>> {
    match members_field(p) {
        Err(m) => Err(m),
        Ok(members) => Ok(
            RequestModel::Track {
                id: match number_field(p, "track_id"@) {
                    Some(n) => n.signed,
                    None => None,
                },
                name: match text_field(p, "name"@) {
                    Some(name) => name,
                    None => default_track_name(),
                },
                members,
            },
        ),
    }
}

/// What an event asks for, or why it is refused unseen.
pub open spec fn requested(etype: Seq<char>, p: Json) -> Result<RequestModel, Seq<char>> {
    if etype == "fixture_imported"@ {
        match text_field(p, "fixture"@) {
            Some(fixture) => Ok(RequestModel::Import { fixture }),
            None => Err("fixture_imported requires `fixture` string"@),
        }
    } else if etype == "surface_corrected"@ {
        surface_request(p)
    } else if etype == "config_updated"@ {
        Ok(config_request(p))
    } else if etype == "gate_updated"@ {
        gate_request(p)
    } else if etype == "decision_made"@ {
        decision_request(p)
    } else if etype == "candidate_split"@ {
        split_request(p)
    } else if etype == "track_put"@ {
        track_request(p)
    } else if etype == "track_deleted"@ {
        match whole_field(p, "track_id"@) {
            Ok(id) => Ok(RequestModel::DeleteTrack { id }),
            Err(m) => Err(m),
        }
    } else {
        Err("unknown event type `"@ + etype + "`"@)
    }
}

fn need_whole(p: &serde_json::Value, key: &str) -> (r: Result<i64, AppError>)
    ensures
        whole_field(json_tree(*p), key@) == (match r {
            Ok(n) => Ok(n),
            Err(e) => Err(e.0@),
        }),
{
    match read_number(p, key) {
        Some(n) => Ok(n.1),
        None => Err(AppError(join3("missing numeric field `", key, "`"))),
    }
}

fn read_quantity(p: &serde_json::Value, key: &str) -> (r: Option<Quantity>)
    ensures
        r == quantity_field(json_tree(*p), key@),
{
    match read_number(p, key) {
        Some(n) => Some(Quantity::from_bits(n.0)),
        None => None,
    }
}

/// Whether a verdict is one that can be recorded.
pub fn is_valid_verdict(v: &str) -> (r: bool)
    ensures
        r == is_verdict(v@),
{
    same_text(v, "retained") || same_text(v, "true_scatterer") || same_text(v, "saturation") || same_text(
        v,
        "overlap",
    ) || same_text(v, "rejected")
}

fn read_cuts(p: &serde_json::Value) -> (r: Vec<usize>)
    ensures
        r@ == cuts_field(json_tree(*p)),
{
    let mut out: Vec<usize> = Vec::new();
    match read_list(p, "cuts") {
        None => {},
        Some(s) => {
            let mut k: usize = 0;
            while k < s.len()
                invariant
                    k <= s@.len(),
                    out@ == cuts_among(trees(s@), k as int),
                decreases s@.len() - k,
            {
                assert(trees(s@)[k as int] == json_tree(s@[k as int]));
                match unsigned_in(&s[k]) {
                    Some(u) => {
                        out.push(u as usize);
                    },
                    None => {},
                }
                k = k + 1;
            }
        },
    }
    out
}

fn member_pairs(p: &serde_json::Value) -> (r: Result<Vec<Member>, AppError>)
    ensures
        members_field(json_tree(*p)) == (match r {
            Ok(v) => Ok(views(v@)),
            Err(e) => Err(e.0@),
        }),
{
    let s: &Vec<serde_json::Value> = match read_list(p, "members") {
        None => {
            return bad("track requires a members array");
        },
        Some(s) => s,
    };
    if s.len() == 0 {
        return bad("track must contain at least one member");
    }
    let ghost t = trees(s@);
    let mut out: Vec<Member> = Vec::new();
    let mut k: usize = 0;
    assert(views(out@) =~= Seq::<MemberModel>::empty());
    while k < s.len()
        invariant
            k <= s@.len(),
            t == trees(s@),
            s@.len() > 0,
            list_field(json_tree(*p), "members"@) == Some(t),
            members_among(t, k as int) == Ok::<Seq<MemberModel>, Seq<char>>(views(out@)),
        decreases s@.len() - k,
    {
        assert(t[k as int] == json_tree(s@[k as int]));
        let position_index: i64 = match need_whole(&s[k], "position_index") {
            Ok(n) => n,
            Err(e) => {
                proof {
                    lemma_members_fault(t, k + 1, t.len() as int);
                }
                return Err(e);
            },
        };
        let candidate_key: String = match read_text(&s[k], "candidate_key") {
            Some(key) => key.to_owned(),
            None => {
                proof {
                    lemma_members_fault(t, k + 1, t.len() as int);
                }
                return bad("member requires candidate_key");
            },
        };
        let m: Member = Member { position_index, candidate_key };
        let ghost prior = out@;
        out.push(m);
        assert(views(out@) =~= views(prior).push(m@));
        k = k + 1;
    }
    Ok(out)
}

proof fn lemma_members_fault(s: Seq<Json>, k: int, n: int)
    requires
        members_among(s, k) is Err,
        k <= n,
    ensures
        members_among(s, n) == members_among(s, k),
    decreases n,
{
    if k < n && n > 0 {
        lemma_members_fault(s, k, n - 1);
    }
}

fn read_surface(p: &serde_json::Value) -> (r: Result<Request, AppError>)
    ensures
        outcome(r) == surface_request(json_tree(*p)),
{
    let index: i64 = match need_whole(p, "position_index") {
        Ok(n) => n,
        Err(e) => {
            return Err(e);
        },
    };
    let sample: i64 = match need_whole(p, "surface_sample") {
        Ok(n) => n,
        Err(e) => {
            return Err(e);
        },
    };
    Ok(Request::Surface { index, sample })
}

fn read_config(p: &serde_json::Value) -> (r: Request)
    ensures
        r@ == config_request(json_tree(*p)),
{
    let threshold_mode: Option<String> = match read_text(p, "threshold_mode") {
        Some(m) => Some(m.to_owned()),
        None => None,
    };
    Request::Config {
        patch: ConfigPatch {
            velocity_m_s: read_quantity(p, "velocity_m_s"),
            probe_delay_ns: read_quantity(p, "probe_delay_ns"),
            threshold_mode,
            amp_threshold: read_quantity(p, "amp_threshold"),
            snr_threshold: read_quantity(p, "snr_threshold"),
            min_resolvable_ns: read_quantity(p, "min_resolvable_ns"),
        },
    }
}

fn read_gate(p: &serde_json::Value) -> (r: Result<Request, AppError>)
    ensures
        outcome(r) == gate_request(json_tree(*p)),
{
    let id: String = match read_text(p, "gate_id") {
        Some(id) => id.to_owned(),
        None => {
            return bad("gate_updated requires gate_id");
        },
    };
    let start: i64 = match need_whole(p, "start") {
        Ok(n) => n,
        Err(e) => {
            return Err(e);
        },
    };
    let end: i64 = match need_whole(p, "end") {
        Ok(n) => n,
        Err(e) => {
            return Err(e);
        },
    };
    Ok(Request::Gate { id, start, end })
}

fn read_decision(p: &serde_json::Value) -> (r: Result<Request, AppError>)
    ensures
        outcome(r) == decision_request(json_tree(*p)),
{
    let index: i64 = match need_whole(p, "position_index") {
        Ok(n) => n,
        Err(e) => {
            return Err(e);
        },
    };
    let key: String = match read_text(p, "candidate_key") {
        Some(key) => key.to_owned(),
        None => {
            return bad("decision requires candidate_key");
        },
    };
    let verdict: String = match read_text(p, "verdict") {
        Some(verdict) => verdict.to_owned(),
        None => {
            return bad("decision requires verdict");
        },
    };
    if !is_valid_verdict(verdict.as_str()) {
        return bad("invalid verdict");
    }
    let note: String = match read_text(p, "note") {
        Some(note) => note.to_owned(),
        None => "".to_owned(),
    };
    Ok(Request::Decision { index, key, verdict, note })
}

fn read_split(p: &serde_json::Value) -> (r: Result<Request, AppError>)
    ensures
        outcome(r) == split_request(json_tree(*p)),
{
    let index: i64 = match need_whole(p, "position_index") {
        Ok(n) => n,
        Err(e) => {
            return Err(e);
        },
    };
    let parent: String = match read_text(p, "parent_key") {
        Some(parent) => parent.to_owned(),
        None => {
            return bad("split requires parent_key");
        },
    };
    let cuts: Vec<usize> = read_cuts(p);
    Ok(Request::Split { index, parent, cuts })
}

fn read_track(p: &serde_json::Value) -> (r: Result<Request, AppError>)
    ensures
        outcome(r) == track_request(json_tree(*p)),
{
    let members: Vec<Member> = match member_pairs(p) {
        Ok(v) => v,
        Err(e) => {
            return Err(e);
        },
    };
    let name: String = match read_text(p, "name") {
        Some(name) => name.to_owned(),
        None => "缺陷轨迹".to_owned(),
    };
    let id: Option<i64> = read_signed(p, "track_id");
    Ok(Request::Track { id, name, members })
}

/// Reads what an event asks for from its type and payload.
pub fn read_event(etype: &str, p: &serde_json::Value) -> (r: Result<Request, AppError>)
    ensures
        outcome(r) == requested(etype@, json_tree(*p)),
{
    if same_text(etype, "fixture_imported") {
        match read_text(p, "fixture") {
            Some(fixture) => Ok(Request::Import { fixture: fixture.to_owned() }),
            None => bad("fixture_imported requires `fixture` string"),
        }
    } else if same_text(etype, "surface_corrected") {
        read_surface(p)
    } else if same_text(etype, "config_updated") {
        Ok(read_config(p))
    } else if same_text(etype, "gate_updated") {
        read_gate(p)
    } else if same_text(etype, "decision_made") {
        read_decision(p)
    } else if same_text(etype, "candidate_split") {
        read_split(p)
    } else if same_text(etype, "track_put") {
        read_track(p)
    } else if same_text(etype, "track_deleted") {
        match need_whole(p, "track_id") {
            Ok(id) => Ok(Request::DeleteTrack { id }),
            Err(e) => Err(e),
        }
    } else {
        Err(AppError(join3("unknown event type `", etype, "`")))
    }
}

// ---------------------------------------------------------------- deciding

/// What a candidate at a position is found from.
#[derive(Debug)]
pub struct PositionFacts {
    pub record: Record,
    pub gates: Vec<Gate>,
    pub config: AnalConfig,
    pub splits: Vec<Split>,
}

impl PositionFacts {
    /// Whether the position can be analysed.
    pub open spec fn sound(&self) -> bool {
        self.record.valid() && !detection_level(self.record, self.config).not_a_number()
    }

    /// The candidates at the position.
    pub open spec fn candidates(&self) -> Seq<CandidateModel> {
        found_candidates(self.record, self.gates@, self.config, views(self.splits@))
    }
}

/// What is known of a member of a track.
#[derive(Debug)]
pub struct MemberFacts {
    /// Whether there is such a position.
    pub exists: bool,
    /// What is stored for the position.
    pub position: Result<PositionFacts, AppError>,
    /// Whether the candidate belongs to another track.
    pub taken: Result<bool, AppError>,
}

/// What has been looked up for an event.
#[derive(Debug)]
pub enum Facts {
    /// Nothing.
    Nothing,
    /// For a correction of the surface.
    Surface { exists: bool, sample_count: Result<usize, AppError> },
    /// For a change of the settings.
    Config { config: Result<AnalConfig, AppError> },
    /// For a change of a gate.
    Gate { sample_count: Result<usize, AppError> },
    /// For a conclusion on a candidate.
    Decision { exists: bool, position: Result<PositionFacts, AppError> },
    /// For a manual split.
    Split { exists: bool },
    /// For a track: the columns of the grid, and each member.
    Track { columns: Result<usize, AppError>, members: Vec<MemberFacts> },
}

/// What is to be stored for an event.
#[derive(Debug)]
pub enum Action {
    Install { fixture: String },
    SetSurface { index: i64, sample: i64 },
    SetConfig { config: AnalConfig },
    SetGate { id: String, patch: GatePatch },
    PutDecision { index: i64, key: String, verdict: String, note: String, candidate: Candidate },
    PutSplit { index: i64, parent: String, cuts: String },
    PutTrack { id: Option<i64>, name: String, members: Vec<Member> },
    DeleteTrack { id: i64 },
}

/// What is to be stored for an event, as values.
#[verifier::ext_equal]
pub enum ActionModel {
    Install { fixture: Seq<char> },
    SetSurface { index: i64, sample: i64 },
    SetConfig { config: AnalConfig },
    SetGate { id: Seq<char>, patch: GatePatch },
    PutDecision { index: i64, key: Seq<char>, verdict: Seq<char>, note: Seq<char>, candidate: CandidateModel },
    PutSplit { index: i64, parent: Seq<char>, cuts: Seq<char> },
    PutTrack { id: Option<i64>, name: Seq<char>, members: Seq<MemberModel> },
    DeleteTrack { id: i64 },
}

impl View for Action {
    type V = ActionModel;

    open spec fn view(&self) -> ActionModel {
        match self {
            Action::Install { fixture } => ActionModel::Install { fixture: fixture@ },
            Action::SetSurface { index, sample } => ActionModel::SetSurface { index: *index, sample: *sample },
            Action::SetConfig { config } => ActionModel::SetConfig { config: *config },
            Action::SetGate { id, patch } => ActionModel::SetGate { id: id@, patch: *patch },
            Action::PutDecision { index, key, verdict, note, candidate } => ActionModel::PutDecision {
                index: *index,
                key: key@,
                verdict: verdict@,
                note: note@,
                candidate: candidate@,
            },
            Action::PutSplit { index, parent, cuts } => ActionModel::PutSplit {
                index: *index,
                parent: parent@,
                cuts: cuts@,
            },
            Action::PutTrack { id, name, members } => ActionModel::PutTrack {
                id: *id,
                name: name@,
                members: views(members@),
            },
            Action::DeleteTrack { id } => ActionModel::DeleteTrack { id: *id },
        }
    }
}

/// What was looked up, or the message of the failure to do so.
pub open spec fn looked_up<T>(r: Result<T, AppError>) -> Result<T, Seq<char>> {
    match r {
        Ok(v) => Ok(v),
        Err(e) => Err(e.0@),
    }
}

/// Why a correction of the surface is refused.
pub open spec fn surface_fault(sample: i64, exists: bool, sample_count: Result<usize, Seq<char>>) -> Option<Seq<char>> {
    if !exists {
        Some("unknown position_index"@)
    } else {
        match sample_count {
            Err(m) => Some(m),
            Ok(n) => if sample < 0 || sample >= n {
                Some("surface_sample out of range"@)
            } else {
                None
            },
        }
    }
}

/// The settings after a change, or why it is refused.
pub open spec fn patched(cfg: AnalConfig, patch: ConfigPatchModel) -> Result<AnalConfig, Seq<char>> {
    let zero = Quantity { bits: 0 };
    let one = Quantity { bits: ONE };
    if patch.velocity_m_s matches Some(v) && v.le(zero) {
        Err("velocity_m_s must be positive"@)
    } else if patch.amp_threshold matches Some(v) && !(zero.le(v) && v.le(one)) {
        Err("amp_threshold must be within [0,1]"@)
    } else if patch.snr_threshold matches Some(v) && v.lt(zero) {
        Err("snr_threshold must be non-negative"@)
    } else if patch.min_resolvable_ns matches Some(v) && v.le(zero) {
        Err("min_resolvable_ns must be positive"@)
    } else if patch.threshold_mode matches Some(m) && m != ThresholdMode::Amplitude.name() && m
        != ThresholdMode::Snr.name() {
        Err("threshold_mode must be amplitude|snr"@)
    } else {
        Ok(
            AnalConfig {
                velocity_m_s: given(patch.velocity_m_s, cfg.velocity_m_s),
                probe_delay_ns: given(patch.probe_delay_ns, cfg.probe_delay_ns),
                amp_threshold: given(patch.amp_threshold, cfg.amp_threshold),
                snr_threshold: given(patch.snr_threshold, cfg.snr_threshold),
                min_resolvable_ns: given(patch.min_resolvable_ns, cfg.min_resolvable_ns),
                threshold_mode: match patch.threshold_mode {
                    Some(m) => if m == ThresholdMode::Amplitude.name() {
                        ThresholdMode::Amplitude
                    } else {
                        ThresholdMode::Snr
                    },
                    None => cfg.threshold_mode,
                },
                ..cfg
            },
        )
    }
}

/// What is given, or else what was there.
pub open spec fn given(new: Option<Quantity>, old_one: Quantity) -> Quantity {
    match new {
        Some(v) => v,
        None => old_one,
    }
}

/// The new bounds of a gate, or why they are refused.
pub open spec fn bounded(start: i64, end: i64, sample_count: Result<usize, Seq<char>>) -> Result<GatePatch, Seq<char>> {
    match sample_count {
        Err(m) => Err(m),
        Ok(n) => if start < 0 || end <= start || end > n {
            Err("gate must satisfy 0 <= start < end <= sample_count"@)
        } else {
            Ok(GatePatch { start: start as usize, end: end as usize })
        },
    }
}

/// The candidate with the given key at a position, or why there is none.
pub open spec fn snapshot(position: Result<PositionFacts, AppError>, key: Seq<char>) -> Result<CandidateModel, Seq<char>> {
    match position {
        Err(e) => Err(e.0@),
        Ok(f) => match first_where(f.candidates(), keyed(key)) {
            Some(i) => Ok(f.candidates()[i]),
            None => Err("candidate not found for current run"@),
        },
    }
}

/// The column of a position in a grid.
pub open spec fn column(position: i64, columns: int) -> int {
    if position >= 0 {
        position as int % columns
    } else {
        -((-position) % columns)
    }
}

/// The row of a position in a grid.
pub open spec fn row(position: i64, columns: int) -> int {
    if position >= 0 {
        position as int / columns
    } else {
        -((-position) / columns)
    }
}

/// The size of a number.
pub open spec fn size_of(n: int) -> int {
    if n < 0 {
        -n
    } else {
        n
    }
}

/// Whether two positions are neighbours in the same row or column.
pub open spec fn adjoining(a: i64, b: i64, columns: int) -> bool {
    size_of(column(a, columns) - column(b, columns)) + size_of(row(a, columns) - row(b, columns)) == 1
}

/// Why one of the first `n` members of a track is refused for itself.
pub open spec fn member_fault(members: Seq<MemberModel>, facts: Seq<MemberFacts>, n: int) -> Option<Seq<char>>
    decreases n,
{
    if n <= 0 {
        None
    } else if member_fault(members, facts, n - 1) is Some {
        member_fault(members, facts, n - 1)
    } else if !facts[n - 1].exists {
        Some("unknown position_index "@ + signed_digits(members[n - 1].position_index as int))
    } else {
        match snapshot(facts[n - 1].position, members[n - 1].candidate_key) {
            Err(m) => Some(m),
            Ok(_) => None,
        }
    }
}

/// Why one of the first `n` members of a track is refused for another track.
pub open spec fn claim_fault(facts: Seq<MemberFacts>, n: int) -> Option<Seq<char>>
    decreases n,
{
    if n <= 0 {
        None
    } else if claim_fault(facts, n - 1) is Some {
        claim_fault(facts, n - 1)
    } else {
        match facts[n - 1].taken {
            Err(e) => Some(e.0@),
            Ok(taken) => if taken {
                Some("candidate already belongs to a track"@)
            } else {
                None
            },
        }
    }
}

/// Whether each member adjoins the one before it.
pub open spec fn is_chain(members: Seq<MemberModel>, columns: int) -> bool {
    forall|i: int|
        #![trigger members[i]]
        1 <= i < members.len() ==> adjoining(members[i - 1].position_index, members[i].position_index, columns)
}

/// Whether some member comes twice.
pub open spec fn repeats(members: Seq<MemberModel>) -> bool {
    exists|i: int, j: int| 0 <= i < j < members.len() && #[trigger] members[i] == #[trigger] members[j]
}

/// Why a track is refused. A member that comes twice is refused as the table of
/// members refuses it.
pub open spec fn track_fault(
    members: Seq<MemberModel>,
    columns: Result<usize, Seq<char>>,
    facts: Seq<MemberFacts>,
) -> Option<Seq<char>> {
    match columns {
        Err(m) => Some(m),
        Ok(c) => if member_fault(members, facts, members.len() as int) is Some {
            member_fault(members, facts, members.len() as int)
        } else if claim_fault(facts, members.len() as int) is Some {
            claim_fault(facts, members.len() as int)
        } else if !is_chain(members, c as int) {
            Some("track members must be adjacent scan positions (4-connected)"@)
        } else if repeats(members) {
            Some(
                "database error: UNIQUE constraint failed: track_members.position_idx, track_members.candidate_key"@,
            )
        } else {
            None
        },
    }
}

/// Whether the right things have been looked up for what an event asks for, and
/// what was found can be worked with.
pub open spec fn answers(facts: Facts, request: RequestModel) -> bool {
    match request {
        RequestModel::Import { .. } => true,
        RequestModel::Surface { .. } => facts is Surface,
        RequestModel::Config { .. } => facts is Config,
        RequestModel::Gate { .. } => facts is Gate,
        RequestModel::Decision { .. } => facts matches Facts::Decision { position, .. } && (position matches Ok(f)
            ==> f.sound()),
        RequestModel::Split { .. } => facts is Split,
        RequestModel::Track { members, .. } => {
            &&& facts matches Facts::Track { columns, members: found }
            &&& found@.len() == members.len()
            &&& forall|i: int|
                0 <= i < found@.len() ==> ((#[trigger] found@[i]).position matches Ok(f) ==> f.sound())
            &&& columns matches Ok(c) ==> c > 0 || exists|i: int| 0 <= i < found@.len() && !(#[trigger] found@[i]).exists
        },
        RequestModel::DeleteTrack { .. } => true,
    }
}

/// What is to be stored for an event, or why it is refused.
pub open spec fn decided(request: RequestModel, facts: Facts) -> Result<ActionModel, Seq<char>> {
    match request {
        RequestModel::Import { fixture } => Ok(ActionModel::Install { fixture }),
        RequestModel::Surface { index, sample } => {
            match surface_fault(sample, facts->Surface_exists, looked_up(facts->Surface_sample_count)) {
                Some(m) => Err(m),
                None => Ok(ActionModel::SetSurface { index, sample }),
            }
        },
        RequestModel::Config { patch } => match looked_up(facts->config) {
            Err(m) => Err(m),
            Ok(cfg) => match patched(cfg, patch) {
                Err(m) => Err(m),
                Ok(config) => Ok(ActionModel::SetConfig { config }),
            },
        },
        RequestModel::Gate { id, start, end } => match bounded(start, end, looked_up(facts->Gate_sample_count)) {
            Err(m) => Err(m),
            Ok(patch) => Ok(ActionModel::SetGate { id, patch }),
        },
        RequestModel::Decision { index, key, verdict, note } => if !facts->Decision_exists {
            Err("unknown position_index"@)
        } else {
            match snapshot(facts->Decision_position, key) {
                Err(m) => Err(m),
                Ok(candidate) => Ok(ActionModel::PutDecision { index, key, verdict, note, candidate }),
            }
        },
        RequestModel::Split { index, parent, cuts } => if !facts->Split_exists {
            Err("unknown position_index"@)
        } else {
            Ok(ActionModel::PutSplit { index, parent, cuts: list_text(cuts) })
        },
        RequestModel::Track { id, name, members } => match track_fault(
            members,
            looked_up(facts->columns),
            facts->members@,
        ) {
            Some(m) => Err(m),
            None => Ok(ActionModel::PutTrack { id, name, members }),
        },
        RequestModel::DeleteTrack { id } => Ok(ActionModel::DeleteTrack { id }),
    }
}

fn apply_surface(index: i64, sample: i64, exists: bool, sample_count: Result<usize, AppError>) -> (r: Result<Action, AppError>)
    ensures
        outcome(r) == (match surface_fault(sample, exists, looked_up(sample_count)) {
            Some(m) => Err(m),
            None => Ok(ActionModel::SetSurface { index, sample }),
        }),
{
    if !exists {
        return bad("unknown position_index");
    }
    let n: usize = match sample_count {
        Ok(n) => n,
        Err(e) => {
            return Err(e);
        },
    };
    if sample < 0 || sample as u64 >= n as u64 {
        return bad("surface_sample out of range");
    }
    Ok(Action::SetSurface { index, sample })
}

fn apply_config(config: Result<AnalConfig, AppError>, patch: ConfigPatch) -> (r: Result<Action, AppError>)
    ensures
        outcome(r) == (match looked_up(config) {
            Err(m) => Err(m),
            Ok(cfg) => match patched(cfg, patch@) {
                Err(m) => Err(m),
                Ok(config) => Ok(ActionModel::SetConfig { config }),
            },
        }),
{
    let zero: Quantity = Quantity::from_bits(0);
    let mut cfg: AnalConfig = match config {
        Ok(c) => c,
        Err(e) => {
            return Err(e);
        },
    };
    if let Some(v) = patch.velocity_m_s {
        if v.is_at_most(zero) {
            return bad("velocity_m_s must be positive");
        }
        cfg.velocity_m_s = v;
    }
    if let Some(v) = patch.probe_delay_ns {
        cfg.probe_delay_ns = v;
    }
    if let Some(v) = patch.amp_threshold {
        if !(zero.is_at_most(v) && v.is_at_most(Quantity::from_bits(ONE))) {
            return bad("amp_threshold must be within [0,1]");
        }
        cfg.amp_threshold = v;
    }
    if let Some(v) = patch.snr_threshold {
        if v.is_below(zero) {
            return bad("snr_threshold must be non-negative");
        }
        cfg.snr_threshold = v;
    }
    if let Some(v) = patch.min_resolvable_ns {
        if v.is_at_most(zero) {
            return bad("min_resolvable_ns must be positive");
        }
        cfg.min_resolvable_ns = v;
    }
    if let Some(m) = patch.threshold_mode {
        match ThresholdMode::parse(m.as_str()) {
            Some(mode) => {
                proof {
                    crate::signal_laws::mode_names_are_unique(mode, ThresholdMode::Amplitude);
                }
                cfg.threshold_mode = mode;
            },
            None => {
                return bad("threshold_mode must be amplitude|snr");
            },
        }
    }
    Ok(Action::SetConfig { config: cfg })
}

fn apply_gate(id: String, start: i64, end: i64, sample_count: Result<usize, AppError>) -> (r: Result<Action, AppError>)
    ensures
        outcome(r) == (match bounded(start, end, looked_up(sample_count)) {
            Err(m) => Err(m),
            Ok(patch) => Ok(ActionModel::SetGate { id: id@, patch }),
        }),
{
    let n: usize = match sample_count {
        Ok(n) => n,
        Err(e) => {
            return Err(e);
        },
    };
    if start < 0 || end <= start || end as u64 > n as u64 {
        return bad("gate must satisfy 0 <= start < end <= sample_count");
    }
    Ok(Action::SetGate { id, patch: GatePatch { start: start as usize, end: end as usize } })
}

/// Accepts a change of a gate if it reached one.
pub fn confirm_gate(affected: usize) -> (r: Result<(), AppError>)
    ensures
        (match r {
            Ok(_) => affected != 0,
            Err(e) => affected == 0 && e.0@ == "unknown gate_id"@,
        }),
{
    if affected == 0 {
        bad("unknown gate_id")
    } else {
        Ok(())
    }
}

/// The candidate with the given key at a position, as the current analysis finds it.
pub fn candidate_snapshot(position: Result<PositionFacts, AppError>, key: &str) -> (r: Result<Candidate, AppError>)
    requires
        position matches Ok(f) ==> f.sound(),
    ensures
        outcome(r) == snapshot(position, key@),
{
    let f: PositionFacts = match position {
        Ok(f) => f,
        Err(e) => {
            return Err(e);
        },
    };
    let mut found: Vec<Candidate> = analyze(&f.record, &f.gates, &f.config, &f.splits).candidates;
    match find_keyed(&found, key) {
        Some(i) => Ok(found.swap_remove(i)),
        None => bad("candidate not found for current run"),
    }
}

fn apply_decision(
    index: i64,
    key: String,
    verdict: String,
    note: String,
    exists: bool,
    position: Result<PositionFacts, AppError>,
) -> (r: Result<Action, AppError>)
    requires
        position matches Ok(f) ==> f.sound(),
    ensures
        outcome(r) == (if !exists {
            Err("unknown position_index"@)
        } else {
            match snapshot(position, key@) {
                Err(m) => Err(m),
                Ok(candidate) => Ok(
                    ActionModel::PutDecision { index, key: key@, verdict: verdict@, note: note@, candidate },
                ),
            }
        }),
{
    if !exists {
        return bad("unknown position_index");
    }
    match candidate_snapshot(position, key.as_str()) {
        Ok(candidate) => Ok(Action::PutDecision { index, key, verdict, note, candidate }),
        Err(e) => Err(e),
    }
}

fn place_of(position: i64, columns: usize) -> (r: (i128, i128))
    requires
        columns > 0,
    ensures
        r.0 == column(position, columns as int),
        r.1 == row(position, columns as int),
        -0x8000_0000_0000_0000 <= r.0 <= 0x8000_0000_0000_0000,
        -0x8000_0000_0000_0000 <= r.1 <= 0x8000_0000_0000_0000,
{
    let c: u128 = columns as u128;
    if position >= 0 {
        let p: u128 = position as u128;
        proof {
            lemma_quotient(p as int, c as int);
        }
        ((p % c) as i128, (p / c) as i128)
    } else {
        let p: u128 = (-(position as i128)) as u128;
        proof {
            lemma_quotient(p as int, c as int);
        }
        (-((p % c) as i128), -((p / c) as i128))
    }
}

proof fn lemma_quotient(p: int, c: int)
    requires
        p >= 0,
        c > 0,
    ensures
        0 <= p % c <= p,
        0 <= p / c <= p,
{
    assert(0 <= p % c <= p && 0 <= p / c <= p) by (nonlinear_arith)
        requires
            p >= 0,
            c > 0,
    ;
}

fn are_adjoining(a: i64, b: i64, columns: usize) -> (r: bool)
    requires
        columns > 0,
    ensures
        r == adjoining(a, b, columns as int),
{
    let pa: (i128, i128) = place_of(a, columns);
    let pb: (i128, i128) = place_of(b, columns);
    let dx: i128 = if pa.0 < pb.0 {
        pb.0 - pa.0
    } else {
        pa.0 - pb.0
    };
    let dy: i128 = if pa.1 < pb.1 {
        pb.1 - pa.1
    } else {
        pa.1 - pb.1
    };
    dx + dy == 1
}

proof fn lemma_member_fault(members: Seq<MemberModel>, facts: Seq<MemberFacts>, k: int, n: int)
    requires
        member_fault(members, facts, k) is Some,
        k <= n,
    ensures
        member_fault(members, facts, n) == member_fault(members, facts, k),
    decreases n,
{
    if k < n && n > 0 {
        lemma_member_fault(members, facts, k, n - 1);
    }
}

proof fn lemma_member_missing(members: Seq<MemberModel>, facts: Seq<MemberFacts>, i: int, n: int)
    requires
        0 <= i < n,
        !facts[i].exists,
    ensures
        member_fault(members, facts, n) is Some,
    decreases n,
{
    if i < n - 1 {
        lemma_member_missing(members, facts, i, n - 1);
    }
}

proof fn lemma_claim_fault(facts: Seq<MemberFacts>, k: int, n: int)
    requires
        claim_fault(facts, k) is Some,
        k <= n,
    ensures
        claim_fault(facts, n) == claim_fault(facts, k),
    decreases n,
{
    if k < n && n > 0 {
        lemma_claim_fault(facts, k, n - 1);
    }
}

/// Looks at the members of a track one by one. Returns what is known of their
/// belonging to other tracks.
fn check_members(members: &Vec<Member>, facts: Vec<MemberFacts>) -> (r: Result<Vec<Result<bool, AppError>>, AppError>)
    requires
        members@.len() == facts@.len(),
        forall|i: int| 0 <= i < facts@.len() ==> ((#[trigger] facts@[i]).position matches Ok(f) ==> f.sound()),
    ensures
        (match r {
            Err(e) => member_fault(views(members@), facts@, members@.len() as int) == Some(e.0@),
            Ok(claims) => {
                &&& member_fault(views(members@), facts@, members@.len() as int) is None
                &&& claims@.len() == facts@.len()
                &&& forall|i: int| 0 <= i < facts@.len() ==> #[trigger] claims@[i] == facts@[i].taken
            },
        }),
{
    let ghost mv = views(members@);
    let ghost fs = facts@;
    let total: usize = members.len();
    let mut rest: Vec<MemberFacts> = facts;
    let mut claims: Vec<Result<bool, AppError>> = Vec::new();
    let mut k: usize = 0;
    assert(rest@ =~= fs.skip(0));
    while k < total
        invariant
            k <= total,
            total == members@.len(),
            total == fs.len(),
            fs == facts@,
            mv == views(members@),
            rest@ == fs.skip(k as int),
            forall|i: int| 0 <= i < fs.len() ==> ((#[trigger] fs[i]).position matches Ok(f) ==> f.sound()),
            member_fault(mv, fs, k as int) is None,
            claims@.len() == k,
            forall|i: int| 0 <= i < k ==> #[trigger] claims@[i] == fs[i].taken,
        decreases total - k,
    {
        let fact: MemberFacts = rest.remove(0);
        assert(fact == fs[k as int]);
        assert(rest@ =~= fs.skip(k + 1));
        assert(mv[k as int] == members@[k as int]@);
        if !fact.exists {
            proof {
                lemma_member_fault(mv, fs, k + 1, total as int);
            }
            return Err(
                AppError(join2("unknown position_index ", decimal_signed(members[k].position_index).as_str())),
            );
        }
        match candidate_snapshot(fact.position, members[k].candidate_key.as_str()) {
            Ok(_) => {},
            Err(e) => {
                proof {
                    lemma_member_fault(mv, fs, k + 1, total as int);
                }
                return Err(e);
            },
        }
        claims.push(fact.taken);
        k = k + 1;
    }
    Ok(claims)
}

fn check_claims(
    claims: Vec<Result<bool, AppError>>,
    Ghost(facts): Ghost<Seq<MemberFacts>>,
) -> (r: Result<(), AppError>)
    requires
        claims@.len() == facts.len(),
        forall|i: int| 0 <= i < facts.len() ==> #[trigger] claims@[i] == facts[i].taken,
    ensures
        claim_fault(facts, facts.len() as int) == (match r {
            Ok(_) => None,
            Err(e) => Some(e.0@),
        }),
{
    let ghost cs = claims@;
    let total: usize = claims.len();
    let mut rest: Vec<Result<bool, AppError>> = claims;
    let mut k: usize = 0;
    assert(rest@ =~= cs.skip(0));
    while k < total
        invariant
            k <= total,
            total == facts.len(),
            total == cs.len(),
            rest@ == cs.skip(k as int),
            forall|i: int| 0 <= i < facts.len() ==> #[trigger] cs[i] == facts[i].taken,
            claim_fault(facts, k as int) is None,
        decreases total - k,
    {
        let claim: Result<bool, AppError> = rest.remove(0);
        assert(claim == cs[k as int]);
        assert(rest@ =~= cs.skip(k + 1));
        match claim {
            Err(e) => {
                proof {
                    lemma_claim_fault(facts, k + 1, total as int);
                }
                return Err(e);
            },
            Ok(taken) => {
                if taken {
                    proof {
                        lemma_claim_fault(facts, k + 1, total as int);
                    }
                    return bad("candidate already belongs to a track");
                }
            },
        }
        k = k + 1;
    }
    Ok(())
}

fn has_repeats(members: &Vec<Member>) -> (r: bool)
    ensures
        r == repeats(views(members@)),
{
    let ghost mv = views(members@);
    let mut j: usize = 0;
    while j < members.len()
        invariant
            mv == views(members@),
            j <= members@.len(),
            forall|a: int, b: int| 0 <= a < b < j ==> #[trigger] mv[a] != #[trigger] mv[b],
        decreases members@.len() - j,
    {
        let mut i: usize = 0;
        while i < j
            invariant
                mv == views(members@),
                i <= j < members@.len(),
                forall|a: int| 0 <= a < i ==> #[trigger] mv[a] != mv[j as int],
            decreases j - i,
        {
            assert(mv[i as int] == members@[i as int]@);
            assert(mv[j as int] == members@[j as int]@);
            if members[i].position_index == members[j].position_index && same_text(
                members[i].candidate_key.as_str(),
                members[j].candidate_key.as_str(),
            ) {
                assert(mv[i as int] == mv[j as int]);
                return true;
            }
            i = i + 1;
        }
        j = j + 1;
    }
    false
}

fn apply_track_put(
    id: Option<i64>,
    name: String,
    members: Vec<Member>,
    columns: Result<usize, AppError>,
    facts: Vec<MemberFacts>,
) -> (r: Result<Action, AppError>)
    requires
        members@.len() == facts@.len(),
        forall|i: int| 0 <= i < facts@.len() ==> ((#[trigger] facts@[i]).position matches Ok(f) ==> f.sound()),
        columns matches Ok(c) ==> c > 0 || exists|i: int| 0 <= i < facts@.len() && !(#[trigger] facts@[i]).exists,
    ensures
        outcome(r) == (match track_fault(views(members@), looked_up(columns), facts@) {
            Some(m) => Err(m),
            None => Ok(ActionModel::PutTrack { id, name: name@, members: views(members@) }),
        }),
{
    let ghost mv = views(members@);
    let ghost fs = facts@;
    let c: usize = match columns {
        Ok(c) => c,
        Err(e) => {
            return Err(e);
        },
    };
    let claims: Vec<Result<bool, AppError>> = match check_members(&members, facts) {
        Ok(claims) => claims,
        Err(e) => {
            return Err(e);
        },
    };
    proof {
        if c == 0 {
            let i = choose|i: int| 0 <= i < fs.len() && !(#[trigger] fs[i]).exists;
            lemma_member_missing(mv, fs, i, fs.len() as int);
        }
    }
    match check_claims(claims, Ghost(fs)) {
        Ok(_) => {},
        Err(e) => {
            return Err(e);
        },
    }
    let mut k: usize = 1;
    while k < members.len()
        invariant
            k >= 1,
            mv == views(members@),
            c > 0,
            columns == Ok::<usize, AppError>(c),
            member_fault(mv, fs, mv.len() as int) is None,
            claim_fault(fs, mv.len() as int) is None,
            fs == facts@,
            forall|i: int|
                #![trigger mv[i]]
                1 <= i < k && i < mv.len() ==> adjoining(mv[i - 1].position_index, mv[i].position_index, c as int),
        decreases members@.len() - k,
    {
        assert(mv[k as int] == members@[k as int]@);
        assert(mv[k - 1] == members@[k - 1]@);
        if !are_adjoining(members[k - 1].position_index, members[k].position_index, c) {
            assert(!is_chain(mv, c as int));
            return bad("track members must be adjacent scan positions (4-connected)");
        }
        k = k + 1;
    }
    assert(is_chain(mv, c as int));
    if has_repeats(&members) {
        return bad(
            "database error: UNIQUE constraint failed: track_members.position_idx, track_members.candidate_key",
        );
    }
    Ok(Action::PutTrack { id, name, members })
}

/// Decides what to store for an event from what was looked up for it, or refuses it.
pub fn apply_event(request: Request, facts: Facts) -> (r: Result<Action, AppError>)
    requires
        answers(facts, request@),
    ensures
        outcome(r) == decided(request@, facts),
        // The stored cuts are read as the cuts that were asked for.
        r matches Ok(Action::PutSplit { cuts: text, .. }) ==> (request@ matches RequestModel::Split { cuts, .. }
            && list_of(text@) == Some(cuts)),
{
    match request {
        Request::Import { fixture } => Ok(Action::Install { fixture }),
        Request::Surface { index, sample } => match facts {
            Facts::Surface { exists, sample_count } => apply_surface(index, sample, exists, sample_count),
            _ => bad("nothing was looked up for this event"),
        },
        Request::Config { patch } => match facts {
            Facts::Config { config } => apply_config(config, patch),
            _ => bad("nothing was looked up for this event"),
        },
        Request::Gate { id, start, end } => match facts {
            Facts::Gate { sample_count } => apply_gate(id, start, end, sample_count),
            _ => bad("nothing was looked up for this event"),
        },
        Request::Decision { index, key, verdict, note } => match facts {
            Facts::Decision { exists, position } => apply_decision(index, key, verdict, note, exists, position),
            _ => bad("nothing was looked up for this event"),
        },
        Request::Split { index, parent, cuts } => match facts {
            Facts::Split { exists } => {
                if !exists {
                    bad("unknown position_index")
                } else {
                    Ok(Action::PutSplit { index, parent, cuts: write_numbers(&cuts) })
                }
            },
            _ => bad("nothing was looked up for this event"),
        },
        Request::Track { id, name, members } => match facts {
            Facts::Track { columns, members: found } => apply_track_put(id, name, members, columns, found),
            _ => bad("nothing was looked up for this event"),
        },
        Request::DeleteTrack { id } => Ok(Action::DeleteTrack { id }),
    }
}

// ---------------------------------------------------------------- stored conclusions

/// A stored conclusion on a candidate, with the candidate as it was then.
#[derive(Debug)]
pub struct StoredDecision {
    pub key: String,
    pub verdict: String,
    pub note: String,
    /// The candidate as it was then, as a JSON text.
    pub snapshot: String,
}

/// What a stored conclusion holds.
#[verifier::ext_equal]
pub struct DecisionModel {
    pub key: Seq<char>,
    pub verdict: Seq<char>,
    pub note: Seq<char>,
    pub snapshot: Seq<char>,
}

impl View for StoredDecision {
    type V = DecisionModel;

    open spec fn view(&self) -> DecisionModel {
        DecisionModel { key: self.key@, verdict: self.verdict@, note: self.note@, snapshot: self.snapshot@ }
    }
}

/// What a document holds, where there is one.
pub open spec fn opt_tree(v: Option<serde_json::Value>) -> Option<Json> {
    match v {
        Some(v) => Some(json_tree(v)),
        None => None,
    }
}

/// What a text was read as; an object without members where it is no document.
pub open spec fn or_empty(parsed: Option<Json>) -> Json {
    match parsed {
        Some(j) => j,
        None => Json::Object(Map::empty()),
    }
}

/// A candidate with a conclusion on it. The conclusion brings the versions of the
/// depth conversion that it was drawn under.
pub open spec fn concluded(c: CandidateModel, verdict: Seq<char>, note: Seq<char>, snap: Json) -> CandidateModel {
    CandidateModel {
        verdict: Some(verdict),
        note,
        snapshot_velocity_m_s: quantity_field(snap, "velocity_m_s"@),
        snapshot_probe_delay_ns: quantity_field(snap, "probe_delay_ns"@),
        ..c
    }
}

/// Candidates with the first `n` conclusions on them. A conclusion whose candidate
/// is not found any more brings its own, if it can be made out.
pub open spec fn with_conclusions(
    s: Seq<CandidateModel>,
    ds: Seq<DecisionModel>,
    orphans: Seq<Option<Result<Candidate, AppError>>>,
    n: int,
) -> Result<Seq<CandidateModel>, Seq<char>>
    decreases n,
{
    if n <= 0 {
        Ok(s)
    } else {
        match with_conclusions(s, ds, orphans, n - 1) {
            Err(m) => Err(m),
            Ok(t) => match first_where(t, keyed(ds[n - 1].key)) {
                Some(i) => Ok(
                    t.update(
                        i,
                        concluded(t[i], ds[n - 1].verdict, ds[n - 1].note, or_empty(json_of(ds[n - 1].snapshot))),
                    ),
                ),
                None => match orphans[n - 1] {
                    None => Ok(t),
                    Some(Ok(c)) => Ok(t.push(c@)),
                    Some(Err(e)) => Err(e.0@),
                },
            },
        }
    }
}

/// The document of a conclusion whose candidate is not found any more: the candidate
/// as it was then, with the verdict and the note, and marked as orphaned.
pub open spec fn orphaned(snap: Option<Json>, verdict: Seq<char>, note: Seq<char>) -> Option<Json> {
    match snap {
        Some(Json::Object(m)) => Some(
            Json::Object(
                m.insert("verdict"@, Json::Text(verdict)).insert("note"@, Json::Text(note)).insert(
                    "orphaned"@,
                    Json::Bool(true),
                ),
            ),
        ),
        Some(Json::Null) => orphaned_null(verdict, note),
        _ => None,
    }
}

/// The same for a snapshot that is null, which counts as an object without members.
pub open spec fn orphaned_null(verdict: Seq<char>, note: Seq<char>) -> Option<Json> {
    Some(
        Json::Object(
            Map::<Seq<char>, Json>::empty().insert("verdict"@, Json::Text(verdict)).insert(
                "note"@,
                Json::Text(note),
            ).insert("orphaned"@, Json::Bool(true)),
        ),
    )
}

/// Turns the snapshot of a candidate into the document of an orphaned conclusion.
/// There is none where the snapshot is neither an object nor null.
pub fn mark_orphaned(snap: Option<serde_json::Value>, verdict: &str, note: &str) -> (r: Option<serde_json::Value>)
    ensures
        orphaned(opt_tree(snap), verdict@, note@) == opt_tree(r),
{
    match snap {
        None => None,
        Some(mut v) => {
            if !is_object(&v) && !is_null(&v) {
                return None;
            }
            put(&mut v, "verdict", text_value(verdict));
            put(&mut v, "note", text_value(note));
            put(&mut v, "orphaned", bool_value(true));
            Some(v)
        },
    }
}

/// The document of a conclusion whose candidate is not found any more. There is none
/// where the stored snapshot is no JSON text, or neither an object nor null.
pub fn orphan_document(d: &StoredDecision) -> (r: Option<serde_json::Value>)
    ensures
        orphaned(json_of(d.snapshot@), d.verdict@, d.note@) == opt_tree(r),
{
    mark_orphaned(read_json(d.snapshot.as_str()), d.verdict.as_str(), d.note.as_str())
}

/// Puts a conclusion on a candidate, given what its snapshot was read as.
pub fn conclude(c: Candidate, verdict: String, note: String, snap: &serde_json::Value) -> (r: Candidate)
    ensures
        r@ == concluded(c@, verdict@, note@, json_tree(*snap)),
{
    let mut c: Candidate = c;
    c.serde_attach(verdict, note, None);
    c.snapshot_velocity_m_s = read_quantity(snap, "velocity_m_s");
    c.snapshot_probe_delay_ns = read_quantity(snap, "probe_delay_ns");
    c
}

proof fn lemma_conclusions_fault(
    s: Seq<CandidateModel>,
    ds: Seq<DecisionModel>,
    orphans: Seq<Option<Result<Candidate, AppError>>>,
    k: int,
    n: int,
)
    requires
        with_conclusions(s, ds, orphans, k) is Err,
        k <= n,
    ensures
        with_conclusions(s, ds, orphans, n) == with_conclusions(s, ds, orphans, k),
    decreases n,
{
    if k < n && n > 0 {
        lemma_conclusions_fault(s, ds, orphans, k, n - 1);
    }
}

/// Puts the stored conclusions on the candidates. `orphans` holds, for each
/// conclusion, what its orphan document was read as, where it has one.
pub fn attach_decisions(
    candidates: Vec<Candidate>,
    decisions: Vec<StoredDecision>,
    orphans: Vec<Option<Result<Candidate, AppError>>>,
) -> (r: Result<Vec<Candidate>, AppError>)
    requires
        decisions@.len() == orphans@.len(),
    ensures
        with_conclusions(views(candidates@), views(decisions@), orphans@, decisions@.len() as int) == (match r {
            Ok(v) => Ok(views(v@)),
            Err(e) => Err(e.0@),
        }),
{
    let ghost cv = views(candidates@);
    let ghost dv = views(decisions@);
    let ghost os = orphans@;
    let total: usize = decisions.len();
    let mut out: Vec<Candidate> = candidates;
    let mut rest: Vec<StoredDecision> = decisions;
    let mut left: Vec<Option<Result<Candidate, AppError>>> = orphans;
    let mut k: usize = 0;
    assert(rest@ =~= decisions@.skip(0));
    assert(left@ =~= os.skip(0));
    while k < total
        invariant
            k <= total,
            total == decisions@.len(),
            total == os.len(),
            os == orphans@,
            cv == views(candidates@),
            dv == views(decisions@),
            rest@ == decisions@.skip(k as int),
            left@ == os.skip(k as int),
            with_conclusions(cv, dv, os, k as int) == Ok::<Seq<CandidateModel>, Seq<char>>(views(out@)),
        decreases total - k,
    {
        let d: StoredDecision = rest.remove(0);
        let orphan: Option<Result<Candidate, AppError>> = left.remove(0);
        let ghost prior = out@;
        proof {
            assert(d == decisions@[k as int]);
            assert(dv[k as int] == d@);
            assert(orphan == os[k as int]);
            assert(rest@ =~= decisions@.skip(k + 1));
            assert(left@ =~= os.skip(k + 1));
        }
        match find_keyed(&out, d.key.as_str()) {
            Some(i) => {
                let snap: serde_json::Value = match read_json(d.snapshot.as_str()) {
                    Some(v) => v,
                    None => empty_object(),
                };
                let c: Candidate = conclude(out.remove(i), d.verdict, d.note, &snap);
                out.insert(i, c);
                proof {
                    assert(views(out@) =~= views(prior).update(i as int, c@));
                }
            },
            None => match orphan {
                None => {},
                Some(Ok(c)) => {
                    out.push(c);
                    assert(views(out@) =~= views(prior).push(c@));
                },
                Some(Err(e)) => {
                    proof {
                        lemma_conclusions_fault(cv, dv, os, k + 1, total as int);
                    }
                    return Err(e);
                },
            },
        }
        k = k + 1;
    }
    Ok(out)
}

/// The analysis of a position with the stored conclusions on its candidates.
pub fn position_analysis(
    f: &PositionFacts,
    decisions: Vec<StoredDecision>,
    orphans: Vec<Option<Result<Candidate, AppError>>>,
) -> (r: Result<Analysis, AppError>)
    requires
        f.sound(),
        decisions@.len() == orphans@.len(),
    ensures
        (match r {
            Ok(a) => {
                &&& with_conclusions(f.candidates(), views(decisions@), orphans@, decisions@.len() as int) == Ok::<
                    Seq<CandidateModel>,
                    Seq<char>,
                >(views(a.candidates@))
                &&& a.noise_rms == f.record.noise_rms
                &&& a.threshold_value == detection_level(f.record, f.config)
                &&& a.threshold_mode@ == f.config.threshold_mode.name()
                &&& a.surface_sample == f.record.surface_sample
                &&& a.surface_time_ns == f.record.surface_time_ns
                &&& opt_text(a.error) == (if surface_after_bottom(
                    f.record,
                    echoes(f.record, detection_level(f.record, f.config), 0, 0),
                    f.gates@,
                ) {
                    Some("surface_after_bottom"@)
                } else {
                    None
                })
            },
            Err(e) => with_conclusions(f.candidates(), views(decisions@), orphans@, decisions@.len() as int) == Err::<
                Seq<CandidateModel>,
                Seq<char>,
            >(e.0@),
        }),
{
    let a: Analysis = analyze(&f.record, &f.gates, &f.config, &f.splits);
    match attach_decisions(a.candidates, decisions, orphans) {
        Ok(candidates) => Ok(
            Analysis {
                noise_rms: a.noise_rms,
                threshold_value: a.threshold_value,
                threshold_mode: a.threshold_mode,
                surface_sample: a.surface_sample,
                surface_time_ns: a.surface_time_ns,
                error: a.error,
                candidates,
            },
        ),
        Err(e) => Err(e),
    }
}

/// The cuts of a stored split; none where they cannot be read.
pub fn stored_cuts(text: &str) -> (r: Vec<usize>)
    ensures
        r@ == (match list_of(text@) {
            Some(s) => s,
            None => Seq::empty(),
        }),
{
    match read_numbers(text) {
        Some(s) => s,
        None => Vec::new(),
    }
}

// ---------------------------------------------------------------- the event log

/// An entry of the event log.
#[derive(Debug)]
pub struct LogEntry {
    pub ts: String,
    pub etype: String,
    pub payload: String,
}

/// Seconds since the epoch, UTC, in decimal notation.
pub fn now_ts() -> (r: String)
    ensures
        exists|secs: u64| r@ == #[trigger] digits(secs as nat),
{
    decimal(unix_seconds())
}

/// The log entry for an event.
pub fn log_entry(etype: &str, payload: &serde_json::Value) -> (r: LogEntry)
    ensures
        exists|secs: u64| r.ts@ == #[trigger] digits(secs as nat),
        r.etype@ == etype@,
        r.payload@ == json_text(json_tree(*payload)),
        lossless(json_tree(*payload), 100) ==> json_of(r.payload@) == Some(json_tree(*payload)),
{
    LogEntry { ts: now_ts(), etype: etype.to_owned(), payload: write_json(payload) }
}

/// Whether a document is an exported event.
pub open spec fn is_export(j: Json, seq_no: i64, ts: Seq<char>, etype: Seq<char>, payload: Json) -> bool {
    &&& j matches Json::Object(m)
    &&& m.dom() =~= set!["seq"@, "ts"@, "type"@, "payload"@]
    &&& is_integer(m["seq"@], seq_no as int)
    &&& m["ts"@] == Json::Text(ts)
    &&& m["type"@] == Json::Text(etype)
    &&& m["payload"@] == payload
}

/// An entry of the log as it is exported, given what its payload was read as.
pub fn export_entry(seq_no: i64, ts: &str, etype: &str, payload: Option<serde_json::Value>) -> (r: serde_json::Value)
    ensures
        is_export(json_tree(r), seq_no, ts@, etype@, or_empty(opt_tree(payload))),
{
    proof {
        lemma_export_names();
    }
    let mut v: serde_json::Value = empty_object();
    put(&mut v, "seq", signed_value(seq_no));
    put(&mut v, "ts", text_value(ts));
    put(&mut v, "type", text_value(etype));
    let p: serde_json::Value = match payload {
        Some(p) => p,
        None => empty_object(),
    };
    put(&mut v, "payload", p);
    v
}

/// An entry of the log as it is exported.
pub fn export_event(seq_no: i64, ts: &str, etype: &str, payload: &str) -> (r: serde_json::Value)
    ensures
        is_export(json_tree(r), seq_no, ts@, etype@, or_empty(json_of(payload@))),
{
    export_entry(seq_no, ts, etype, read_json(payload))
}

proof fn lemma_export_names()
    ensures
        "seq"@ != "ts"@,
        "seq"@ != "type"@,
        "seq"@ != "payload"@,
        "ts"@ != "type"@,
        "ts"@ != "payload"@,
        "type"@ != "payload"@,
{
    reveal_strlit("seq");
    reveal_strlit("ts");
    reveal_strlit("type");
    reveal_strlit("payload");
    assert("seq"@.len() == 3 && "ts"@.len() == 2 && "type"@.len() == 4 && "payload"@.len() == 7);
}

/// The type and payload of an exported event, or why it cannot be applied again.
pub open spec fn exported(j: Json) -> Result<(Seq<char>, Json), Seq<char>> {
    match text_field(j, "type"@) {
        None => Err("event missing type"@),
        Some(etype) => Ok(
            (
                etype,
                match field(j, "payload"@) {
                    Some(p) => p,
                    None => Json::Object(Map::empty()),
                },
            ),
        ),
    }
}

/// Reads the type and payload of an exported event.
pub fn replayed_event(ev: &serde_json::Value) -> (r: Result<(String, serde_json::Value), AppError>)
    ensures
        exported(json_tree(*ev)) == (match r {
            Ok(p) => Ok((p.0@, json_tree(p.1))),
            Err(e) => Err(e.0@),
        }),
{
    let etype: String = match read_text(ev, "type") {
        Some(t) => t.to_owned(),
        None => {
            return bad("event missing type");
        },
    };
    let payload: serde_json::Value = match read_member(ev, "payload") {
        Some(p) => p,
        None => empty_object(),
    };
    Ok((etype, payload))
}

/// Why exported events cannot be applied again from the start: events that are
/// there begin with an import.
pub open spec fn replay_fault(events: Seq<serde_json::Value>) -> Option<Seq<char>> {
    if events.len() == 0 {
        None
    } else {
        match exported(json_tree(events[0])) {
            Err(m) => Some(m),
            Ok(e) => if e.0 == "fixture_imported"@ {
                None
            } else {
                Some("first event must be fixture_imported"@)
            },
        }
    }
}

/// Checks that exported events begin with an import.
pub fn check_replay(events: &[serde_json::Value]) -> (r: Result<(), AppError>)
    ensures
        match replay_fault(events@) {
            Some(m) => r matches Err(e) && e.0@ == m,
            None => r is Ok,
        },
        r is Err <==> events@.len() > 0 && !(exported(json_tree(events@[0])) matches Ok(e) && e.0
            == "fixture_imported"@),
{
    if events.len() == 0 {
        return Ok(());
    }
    match replayed_event(&events[0]) {
        Ok(e) => if same_text(e.0.as_str(), "fixture_imported") {
            Ok(())
        } else {
            bad("first event must be fixture_imported")
        },
        Err(e) => Err(e),
    }
}

/// What the payload of an event says that imports a fixture.
pub open spec fn import_payload_tree(fixture: Seq<char>) -> Json {
    Json::Object(Map::<Seq<char>, Json>::empty().insert("fixture"@, Json::Text(fixture)))
}

/// What an event says that imports a fixture.
pub open spec fn import_tree(fixture: Seq<char>) -> Json {
    Json::Object(
        Map::<Seq<char>, Json>::empty().insert("type"@, Json::Text("fixture_imported"@)).insert(
            "payload"@,
            import_payload_tree(fixture),
        ),
    )
}

/// The payload of an event that imports a fixture.
pub fn import_payload(fixture: &str) -> (r: serde_json::Value)
    ensures
        json_tree(r) == import_payload_tree(fixture@),
{
    let mut payload: serde_json::Value = empty_object();
    put(&mut payload, "fixture", text_value(fixture));
    payload
}

/// The exported form of an event that imports a fixture.
pub fn import_event(fixture: &str) -> (r: serde_json::Value)
    ensures
        json_tree(r) == import_tree(fixture@),
{
    let mut v: serde_json::Value = empty_object();
    put(&mut v, "type", text_value("fixture_imported"));
    put(&mut v, "payload", import_payload(fixture));
    v
}

// ---------------------------------------------------------------- installing a fixture

/// A position as it is stored.
#[derive(Clone, Debug)]
pub struct PositionRow {
    pub index: usize,
    pub id: String,
    pub name: String,
    pub column: usize,
    pub row: usize,
    pub surface_sample: usize,
}

/// What is stored for a fixture.
#[derive(Clone, Debug)]
pub struct Installation {
    pub config: AnalConfig,
    /// The gates, in their order.
    pub gates: Vec<Gate>,
    /// The positions, in their order.
    pub positions: Vec<PositionRow>,
}

/// The settings of a fresh bench.
pub open spec fn fresh_config(fx: Fixture) -> AnalConfig {
    AnalConfig {
        velocity_m_s: fx.velocity_m_s,
        probe_delay_ns: fx.probe_delay_ns,
        sample_interval_ns: fx.sample_interval_ns,
        min_resolvable_ns: fx.min_resolvable_ns,
        threshold_mode: ThresholdMode::Amplitude,
        amp_threshold: Quantity { bits: AMP_THRESHOLD },
        snr_threshold: Quantity { bits: SNR_THRESHOLD },
        noise_window: fx.noise_window,
    }
}

/// Whether a gate is the one that a fixture describes.
pub open spec fn is_gate_of(g: Gate, spec_gate: GateSpec) -> bool {
    &&& g.id@ == spec_gate.id@
    &&& g.label@ == spec_gate.label@
    &&& g.start == spec_gate.start
    &&& g.end == spec_gate.end
    &&& g.role@ == spec_gate.role@
}

/// Whether a row is that of the position with the number `i` of a fixture.
pub open spec fn is_row_of(p: PositionRow, fx: Fixture, i: int) -> bool {
    &&& p.index == i
    &&& p.id@ == fx.positions@[i].id@
    &&& p.name@ == fx.positions@[i].name@
    &&& p.column < fx.grid.cols
    &&& i == p.row * fx.grid.cols + p.column
    &&& p.surface_sample == (if let Some(s) = fx.positions@[i].surface_sample {
        s
    } else {
        fx.defaults.surface_sample
    })
}

/// What is to be stored for a fixture.
pub fn apply_fixture(fx: &Fixture) -> (r: Installation)
    requires
        fx.fault() is None,
    ensures
        r.config == fresh_config(*fx),
        r.gates@.len() == fx.gates@.len(),
        forall|i: int| 0 <= i < fx.gates@.len() ==> is_gate_of(#[trigger] r.gates@[i], fx.gates@[i]),
        r.positions@.len() == fx.positions@.len(),
        forall|i: int| 0 <= i < fx.positions@.len() ==> is_row_of(#[trigger] r.positions@[i], *fx, i),
{
    let config: AnalConfig = AnalConfig {
        velocity_m_s: fx.velocity_m_s,
        probe_delay_ns: fx.probe_delay_ns,
        sample_interval_ns: fx.sample_interval_ns,
        min_resolvable_ns: fx.min_resolvable_ns,
        threshold_mode: ThresholdMode::Amplitude,
        amp_threshold: Quantity::from_bits(AMP_THRESHOLD),
        snr_threshold: Quantity::from_bits(SNR_THRESHOLD),
        noise_window: fx.noise_window,
    };
    let mut gates: Vec<Gate> = Vec::new();
    let mut i: usize = 0;
    while i < fx.gates.len()
        invariant
            i <= fx.gates@.len(),
            gates@.len() == i,
            forall|k: int| 0 <= k < i ==> is_gate_of(#[trigger] gates@[k], fx.gates@[k]),
        decreases fx.gates@.len() - i,
    {
        let g: &GateSpec = &fx.gates[i];
        gates.push(
            Gate { id: g.id.clone(), label: g.label.clone(), start: g.start, end: g.end, role: g.role.clone() },
        );
        i = i + 1;
    }
    let mut positions: Vec<PositionRow> = Vec::new();
    let mut j: usize = 0;
    while j < fx.positions.len()
        invariant
            fx.fault() is None,
            j <= fx.positions@.len(),
            positions@.len() == j,
            forall|k: int| 0 <= k < j ==> is_row_of(#[trigger] positions@[k], *fx, k),
        decreases fx.positions@.len() - j,
    {
        let p: &PositionSpec = &fx.positions[j];
        let place: (usize, usize) = fx.grid_place(j);
        positions.push(
            PositionRow {
                index: j,
                id: p.id.clone(),
                name: p.name.clone(),
                column: place.0,
                row: place.1,
                surface_sample: fx.surface_sample_for(p),
            },
        );
        j = j + 1;
    }
    Installation { config, gates, positions }
}

} // verus!
