//! What is stored for a position: its conclusions and its manual splits, and what
//! the events make of them.

use vstd::prelude::*;

use crate::db::{
    decided, snapshot, with_conclusions, ActionModel, DecisionModel, Facts, PositionFacts, RequestModel,
};
use crate::db_laws::{
    accepted_conclusions_outlast_changes, as_orphan, is_only, one_each, orphans_bring_back,
};
use crate::err::AppError;
use crate::json::list_of;
use crate::order::{distinct, views};
use crate::seqs::{first_where, lemma_search};
use crate::signal::{keyed, raw_candidates, Candidate, CandidateModel, SplitModel};
use crate::signal_laws::split_once;

verus! {

/// A stored manual split: the key of the candidate that is split, and the text of
/// the cuts.
#[verifier::ext_equal]
pub struct SplitRow {
    pub parent: Seq<char>,
    pub cuts: Seq<char>,
}

/// The rows of a position.
#[verifier::ext_equal]
pub struct RowsModel {
    pub decisions: Seq<DecisionModel>,
    pub splits: Seq<SplitRow>,
}

/// The key that a conclusion is on.
pub open spec fn decision_key() -> spec_fn(DecisionModel) -> Seq<char> {
    |d: DecisionModel| d.key
}

/// The key of the candidate that is split.
pub open spec fn split_parent() -> spec_fn(SplitRow) -> Seq<char> {
    |s: SplitRow| s.parent
}

impl RowsModel {
    /// The rows of a position that nothing was recorded for.
    pub open spec fn none() -> RowsModel {
        RowsModel { decisions: Seq::empty(), splits: Seq::empty() }
    }

    /// Whether there is at most one conclusion for each key, and at most one split
    /// for each parent.
    pub open spec fn sound(self) -> bool {
        &&& distinct(self.decisions, decision_key())
        &&& distinct(self.splits, split_parent())
    }
}

/// Rows after `row` was stored: in the place of the one with its key, or as one more.
pub open spec fn stored<R>(rows: Seq<R>, row: R, key: spec_fn(R) -> Seq<char>) -> Seq<R> {
    match first_where(rows, |x: R| key(x) == key(row)) {
        Some(i) => rows.update(i, row),
        None => rows.push(row),
    }
}

/// The rows of position `index` after an action. How a candidate is written down is
/// `written`. An import lays everything out anew.
pub open spec fn rows_after(
    rows: RowsModel,
    index: i64,
    a: ActionModel,
    written: spec_fn(CandidateModel) -> Seq<char>,
) -> RowsModel {
    match a {
        ActionModel::Install { .. } => RowsModel::none(),
        ActionModel::PutDecision { index: at, key, verdict, note, candidate } => if at == index {
            let row = DecisionModel { key, verdict, note, snapshot: written(candidate) };
            RowsModel { decisions: stored(rows.decisions, row, decision_key()), ..rows }
        } else {
            rows
        },
        ActionModel::PutSplit { index: at, parent, cuts } => if at == index {
            RowsModel { splits: stored(rows.splits, SplitRow { parent, cuts }, split_parent()), ..rows }
        } else {
            rows
        },
        _ => rows,
    }
}

/// The rows of position `index` after a sequence of actions.
pub open spec fn rows_after_all(
    rows: RowsModel,
    index: i64,
    actions: Seq<ActionModel>,
    written: spec_fn(CandidateModel) -> Seq<char>,
) -> RowsModel
    decreases actions.len(),
{
    if actions.len() == 0 {
        rows
    } else {
        rows_after(rows_after_all(rows, index, actions.drop_last(), written), index, actions.last(), written)
    }
}

proof fn lemma_stored<R>(rows: Seq<R>, row: R, key: spec_fn(R) -> Seq<char>)
    requires
        distinct(rows, key),
    ensures
        distinct(stored(rows, row, key), key),
        stored(rows, row, key).contains(row),
        forall|x: R| rows.contains(x) && key(x) != key(row) ==> #[trigger] stored(rows, row, key).contains(x),
{
    let p = |x: R| key(x) == key(row);
    let out = stored(rows, row, key);
    lemma_search(rows, p);
    let at = match first_where(rows, p) {
        Some(i) => i,
        None => rows.len() as int,
    };
    assert(out[at] == row);
    assert forall|i: int, j: int| 0 <= i < j < out.len() implies key(#[trigger] out[i]) != key(#[trigger] out[j]) by {
        if i == at {
            assert(key(rows[i]) != key(rows[j]));
            assert(p(rows[at]));
        } else if j == at {
            if at < rows.len() {
                assert(key(rows[i]) != key(rows[j]));
                assert(p(rows[at]));
            } else {
                assert(!p(rows[i]));
            }
        } else {
            assert(key(rows[i]) != key(rows[j]));
        }
    }
    assert forall|x: R| rows.contains(x) && key(x) != key(row) implies #[trigger] out.contains(x) by {
        let i = choose|i: int| 0 <= i < rows.len() && rows[i] == x;
        if i == at {
            assert(p(rows[at]));
        }
        assert(out[i] == x);
    }
}

/// Every action leaves at most one conclusion for each key, and at most one split
/// for each parent.
pub proof fn actions_keep_rows_sound(
    rows: RowsModel,
    index: i64,
    actions: Seq<ActionModel>,
    written: spec_fn(CandidateModel) -> Seq<char>,
)
    requires
        rows.sound(),
    ensures
        rows_after_all(rows, index, actions, written).sound(),
    decreases actions.len(),
{
    if actions.len() > 0 {
        let before = rows_after_all(rows, index, actions.drop_last(), written);
        actions_keep_rows_sound(rows, index, actions.drop_last(), written);
        match actions.last() {
            ActionModel::PutDecision { index: at, key, verdict, note, candidate } => {
                let row = DecisionModel { key, verdict, note, snapshot: written(candidate) };
                lemma_stored(before.decisions, row, decision_key());
            },
            ActionModel::PutSplit { index: at, parent, cuts } => {
                lemma_stored(before.splits, SplitRow { parent, cuts }, split_parent());
            },
            _ => {},
        }
    }
}

/// The rows of every position are sound, whatever has happened since there was
/// nothing.
pub proof fn rows_are_sound(index: i64, actions: Seq<ActionModel>, written: spec_fn(CandidateModel) -> Seq<char>)
    ensures
        rows_after_all(RowsModel::none(), index, actions, written).sound(),
{
    actions_keep_rows_sound(RowsModel::none(), index, actions, written);
}

/// Storing a conclusion or a split gives its row, and leaves every row with another
/// key.
pub proof fn actions_store_their_row(
    rows: RowsModel,
    index: i64,
    a: ActionModel,
    written: spec_fn(CandidateModel) -> Seq<char>,
)
    requires
        rows.sound(),
    ensures
        ({
            let after = rows_after(rows, index, a, written);
            &&& a matches ActionModel::PutDecision { index: at, key, verdict, note, candidate } ==> (at == index ==> {
                &&& after.decisions.contains(DecisionModel { key, verdict, note, snapshot: written(candidate) })
                &&& forall|d: DecisionModel|
                    rows.decisions.contains(d) && d.key != key ==> #[trigger] after.decisions.contains(d)
            })
            &&& a matches ActionModel::PutSplit { index: at, parent, cuts } ==> (at == index ==> {
                &&& after.splits.contains(SplitRow { parent, cuts })
                &&& forall|s: SplitRow|
                    rows.splits.contains(s) && s.parent != parent ==> #[trigger] after.splits.contains(s)
            })
        }),
{
    match a {
        ActionModel::PutDecision { index: at, key, verdict, note, candidate } => {
            let row = DecisionModel { key, verdict, note, snapshot: written(candidate) };
            lemma_stored(rows.decisions, row, decision_key());
            let out = stored(rows.decisions, row, decision_key());
            assert forall|d: DecisionModel| rows.decisions.contains(d) && d.key != key implies #[trigger] out.contains(
                d,
            ) by {
                assert(decision_key()(d) != decision_key()(row));
            }
        },
        ActionModel::PutSplit { index: at, parent, cuts } => {
            let row = SplitRow { parent, cuts };
            lemma_stored(rows.splits, row, split_parent());
            let out = stored(rows.splits, row, split_parent());
            assert forall|s: SplitRow| rows.splits.contains(s) && s.parent != parent implies #[trigger] out.contains(
                s,
            ) by {
                assert(split_parent()(s) != split_parent()(row));
            }
        },
        _ => {},
    }
}

// ---------------------------------------------------------------- later commands

/// Whether a request changes the settings, a gate, a surface or a split.
pub open spec fn is_change(request: RequestModel) -> bool {
    ||| request is Config
    ||| request is Gate
    ||| request is Surface
    ||| request is Split
}

/// Whether all commands were accepted, and all are changes.
pub open spec fn are_accepted_changes(commands: Seq<(RequestModel, Facts)>) -> bool {
    forall|i: int|
        0 <= i < commands.len() ==> is_change((#[trigger] commands[i]).0) && decided(commands[i].0, commands[i].1) is Ok
}

/// What was stored for accepted commands.
pub open spec fn actions_of(commands: Seq<(RequestModel, Facts)>) -> Seq<ActionModel> {
    Seq::new(commands.len(), |i: int| decided(commands[i].0, commands[i].1)->Ok_0)
}

/// Changes of the settings, the gates, the surfaces and the splits leave all stored
/// conclusions as they are.
pub proof fn changes_leave_conclusions(
    rows: RowsModel,
    index: i64,
    commands: Seq<(RequestModel, Facts)>,
    written: spec_fn(CandidateModel) -> Seq<char>,
)
    requires
        are_accepted_changes(commands),
    ensures
        rows_after_all(rows, index, actions_of(commands), written).decisions == rows.decisions,
    decreases commands.len(),
{
    if commands.len() > 0 {
        let front = commands.drop_last();
        assert(are_accepted_changes(front)) by {
            assert forall|i: int| 0 <= i < front.len() implies is_change((#[trigger] front[i]).0) && decided(
                front[i].0,
                front[i].1,
            ) is Ok by {
                assert(front[i] == commands[i]);
            }
        }
        changes_leave_conclusions(rows, index, front, written);
        assert(actions_of(commands).drop_last() =~= actions_of(front));
        assert(is_change(commands[commands.len() - 1].0));
    }
}

// ---------------------------------------------------------------- what is listed

/// A stored split as the analysis takes it; it has no cuts where they cannot be read.
pub open spec fn split_of(row: SplitRow) -> SplitModel {
    SplitModel {
        parent_key: row.parent,
        cuts: match list_of(row.cuts) {
            Some(s) => s,
            None => Seq::empty(),
        },
    }
}

/// Stored splits as the analysis takes them.
pub open spec fn splits_of(rows: Seq<SplitRow>) -> Seq<SplitModel> {
    Seq::new(rows.len(), |i: int| split_of(rows[i]))
}

/// Whether `s` has the items of `t`, in whatever order.
pub open spec fn lists<V>(s: Seq<V>, t: Seq<V>) -> bool {
    s.to_multiset() == t.to_multiset()
}

proof fn lemma_listed_distinct<V>(s: Seq<V>, t: Seq<V>, key: spec_fn(V) -> Seq<char>)
    requires
        lists(s, t),
        distinct(t, key),
    ensures
        distinct(s, key),
{
    s.to_multiset_ensures();
    t.to_multiset_ensures();
    assert(t.no_duplicates()) by {
        assert forall|i: int, j: int| 0 <= i < t.len() && 0 <= j < t.len() && i != j implies t[i] != t[j] by {
            if i < j {
                assert(key(t[i]) != key(t[j]));
            } else {
                assert(key(t[j]) != key(t[i]));
            }
        }
    }
    t.lemma_multiset_has_no_duplicates();
    s.lemma_multiset_has_no_duplicates_conv();
    assert forall|i: int, j: int| 0 <= i < j < s.len() implies key(#[trigger] s[i]) != key(#[trigger] s[j]) by {
        assert(s.contains(s[i]) && s.contains(s[j]));
        assert(t.to_multiset().count(s[i]) > 0 && t.to_multiset().count(s[j]) > 0);
        let a = choose|a: int| 0 <= a < t.len() && t[a] == s[i];
        let b = choose|b: int| 0 <= b < t.len() && t[b] == s[j];
        assert(s[i] != s[j]);
        if a < b {
            assert(key(t[a]) != key(t[b]));
        } else {
            assert(key(t[b]) != key(t[a]));
        }
    }
}

/// Sound rows, listed in whatever order, hold one conclusion on each candidate and
/// one split of each.
pub proof fn sound_rows_are_listed_once(
    rows: RowsModel,
    ds: Seq<DecisionModel>,
    splits: Seq<SplitModel>,
    raw: Seq<CandidateModel>,
)
    requires
        rows.sound(),
        lists(ds, rows.decisions),
        lists(splits, splits_of(rows.splits)),
    ensures
        one_each(ds),
        split_once(raw, splits),
{
    lemma_listed_distinct(ds, rows.decisions, decision_key());
    assert forall|a: int, b: int| 0 <= a < b < ds.len() implies (#[trigger] ds[a]).key != (#[trigger] ds[b]).key by {
        assert(decision_key()(ds[a]) != decision_key()(ds[b]));
    }
    let parent = |s: SplitModel| s.parent_key;
    let t = splits_of(rows.splits);
    assert forall|i: int, j: int| 0 <= i < j < t.len() implies parent(#[trigger] t[i]) != parent(#[trigger] t[j]) by {
        assert(split_parent()(rows.splits[i]) != split_parent()(rows.splits[j]));
    }
    lemma_listed_distinct(splits, t, parent);
    assert forall|i: int, j: int|
        0 <= i < j < splits.len() && (#[trigger] splits[i]).parent_key == (#[trigger] splits[j]).parent_key implies first_where(
        raw,
        keyed(splits[i].parent_key),
    ) is None by {
        assert(parent(splits[i]) != parent(splits[j]));
    }
}

/// A conclusion that was accepted shows on exactly one candidate of its position after
/// any accepted changes of the settings, the gates, the surfaces and the splits: on
/// the one with its key, with its verdict and its note. That one is marked as
/// orphaned if and only if the current analysis finds none with the key, and it is
/// the candidate as it was when the conclusion was drawn.
///
/// `earlier` is everything that was stored before the conclusion, and `then` what was
/// looked up for it. `f`, `ds` and `orphans` are what is stored for the position
/// after the changes in `commands`, as it is read back. That the orphan of a
/// conclusion is read back as it was written is asked for; a noise level of zero,
/// for one, has an SNR that cannot be written.
pub proof fn conclusions_show_once_after_changes(
    index: i64,
    key: Seq<char>,
    verdict: Seq<char>,
    note: Seq<char>,
    earlier: Seq<ActionModel>,
    then: Facts,
    commands: Seq<(RequestModel, Facts)>,
    written: spec_fn(CandidateModel) -> Seq<char>,
    f: PositionFacts,
    ds: Seq<DecisionModel>,
    orphans: Seq<Option<Result<Candidate, AppError>>>,
)
    requires
        decided(RequestModel::Decision { index, key, verdict, note }, then) is Ok,
        are_accepted_changes(commands),
        f.sound(),
        ({
            let a = decided(RequestModel::Decision { index, key, verdict, note }, then)->Ok_0;
            let rows = rows_after_all(RowsModel::none(), index, earlier.push(a) + actions_of(commands), written);
            &&& lists(ds, rows.decisions)
            &&& lists(views(f.splits@), splits_of(rows.splits))
        }),
        ds.len() == orphans.len(),
        orphans_bring_back(ds, orphans),
        forall|k: int|
            0 <= k < ds.len() && (#[trigger] ds[k]).key == key ==> (orphans[k] matches Some(Ok(c)) && c@ == as_orphan(
                snapshot(then->Decision_position, key)->Ok_0,
                verdict,
                note,
            )),
    ensures
        with_conclusions(f.candidates(), ds, orphans, ds.len() as int) matches Ok(t) ==> exists|i: int|
            {
                &&& #[trigger] is_only(t, i, key)
                &&& t[i].verdict == Some(verdict)
                &&& t[i].note == note
                &&& t[i].orphaned <==> first_where(f.candidates(), keyed(key)) is None
                &&& t[i].orphaned ==> t[i] == as_orphan(snapshot(then->Decision_position, key)->Ok_0, verdict, note)
            },
{
    let a = decided(RequestModel::Decision { index, key, verdict, note }, then)->Ok_0;
    let candidate = snapshot(then->Decision_position, key)->Ok_0;
    let row = DecisionModel { key, verdict, note, snapshot: written(candidate) };
    let before = rows_after_all(RowsModel::none(), index, earlier, written);
    let drawn = rows_after_all(RowsModel::none(), index, earlier.push(a), written);
    let rows = rows_after_all(RowsModel::none(), index, earlier.push(a) + actions_of(commands), written);
    rows_are_sound(index, earlier, written);
    rows_are_sound(index, earlier.push(a) + actions_of(commands), written);
    assert(earlier.push(a).drop_last() =~= earlier);
    assert(drawn == rows_after(before, index, a, written));
    actions_store_their_row(before, index, a, written);
    lemma_rows_continue(RowsModel::none(), index, earlier.push(a), actions_of(commands), written);
    changes_leave_conclusions(drawn, index, commands, written);
    assert(rows.decisions.contains(row));
    ds.to_multiset_ensures();
    rows.decisions.to_multiset_ensures();
    assert(rows.decisions.to_multiset().count(row) > 0);
    assert(ds.contains(row));
    let k = choose|k: int| 0 <= k < ds.len() && ds[k] == row;
    sound_rows_are_listed_once(rows, ds, views(f.splits@), raw_candidates(f.record, f.gates@, f.config));
    accepted_conclusions_outlast_changes(index, then, f, ds, orphans, k);
}

proof fn lemma_rows_continue(
    rows: RowsModel,
    index: i64,
    first: Seq<ActionModel>,
    rest: Seq<ActionModel>,
    written: spec_fn(CandidateModel) -> Seq<char>,
)
    ensures
        rows_after_all(rows, index, first + rest, written) == rows_after_all(
            rows_after_all(rows, index, first, written),
            index,
            rest,
            written,
        ),
    decreases rest.len(),
{
    if rest.len() == 0 {
        assert(first + rest =~= first);
    } else {
        lemma_rows_continue(rows, index, first, rest.drop_last(), written);
        assert((first + rest).drop_last() =~= first + rest.drop_last());
        assert((first + rest).last() == rest.last());
    }
}

} // verus!
