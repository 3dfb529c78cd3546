//! The event log.

use vstd::prelude::*;

use crate::calendar::civil_from_days;
use crate::clock::unix_seconds;
use crate::events::apply;
use crate::model::{opt_text, Event, EventModel, World, WorldModel};
use crate::order::views;
use crate::quantity::Quantity;
use crate::rules::{applied, counter, event_fits, levels_fit};
use crate::setup::{boot, booted, Setup, SetupModel};
use crate::text::{join2, padded};

verus! {

/// The text of a number with at least `width` digits.
pub open spec fn field_text(n: int, width: nat) -> Seq<char> {
    crate::text::zero_padded(crate::text::digits(n as nat), width)
}

/// The text of a day: year, month and day of the month.
pub open spec fn date_text(y: int, m: int, d: int) -> Seq<char> {
    field_text(y, 4) + "-"@ + field_text(m, 2) + "-"@ + field_text(d, 2)
}

/// The text of a time of day, given in seconds after midnight.
pub open spec fn time_text(s: int) -> Seq<char> {
    field_text(s / 3600, 2) + ":"@ + field_text(s % 3600 / 60, 2) + ":"@ + field_text(s % 60, 2)
}

/// Whether `t` is the UTC time stamp, with second precision, of the given number
/// of seconds after 1970-01-01T00:00:00Z.
pub open spec fn is_stamp(t: Seq<char>, secs: int) -> bool {
    exists|y: int, m: int, d: int|
        crate::calendar::is_date(y, m, d) && #[trigger] crate::calendar::day_number(y, m, d) == secs / 86_400
            && t == date_text(y, m, d) + "T"@ + time_text(secs % 86_400) + "Z"@
}

/// The UTC time stamp, with second precision, of the given number of seconds
/// after 1970-01-01T00:00:00Z.
pub fn rfc3339(secs: u64) -> (r: String)
    ensures
        is_stamp(r@, secs as int),
{
    let days: i64 = (secs / 86_400) as i64;
    let (year, month, day) = civil_from_days(days);
    proof {
        crate::calendar::lemma_not_before_epoch(year as int, month as int, day as int);
    }
    let h: u64 = (secs % 86_400) / 3600;
    let m: u64 = (secs % 3600) / 60;
    let ss: u64 = secs % 60;
    assert(secs % 3600 == secs % 86_400 % 3600);
    assert(secs % 60 == secs % 86_400 % 60);
    let date: String = join2(
        join2(join2(padded(year as u64, 4).as_str(), "-").as_str(), padded(month as u64, 2).as_str()).as_str(),
        join2("-", padded(day as u64, 2).as_str()).as_str(),
    );
    let time: String = join2(
        join2(join2(padded(h, 2).as_str(), ":").as_str(), padded(m, 2).as_str()).as_str(),
        join2(":", padded(ss, 2).as_str()).as_str(),
    );
    let stamp: String = join2(join2(join2(date.as_str(), "T").as_str(), time.as_str()).as_str(), "Z");
    proof {
        assert(date@ =~= date_text(year as int, month as int, day as int));
        assert(time@ =~= time_text(secs as int % 86_400));
        assert(crate::calendar::day_number(year as int, month as int, day as int) == secs / 86_400);
    }
    stamp
}

/// Whether `t` is the time stamp of some moment.
pub open spec fn is_some_stamp(t: Seq<char>) -> bool {
    exists|secs: int| 0 <= secs <= u64::MAX && #[trigger] is_stamp(t, secs)
}

/// The UTC time stamp of the moment of the call, an annotation that never
/// affects what a log replays to.
pub fn now_rfc3339() -> (r: String)
    ensures
        is_some_stamp(r@),
{
    let secs: u64 = unix_seconds();
    let r: String = rfc3339(secs);
    assert(is_stamp(r@, secs as int));
    r
}

/// An event as it stands in the log, with when and why it was stored.
#[derive(Debug)]
pub struct LogRecord {
    pub event: Event,
    pub at_rfc3339: String,
    pub note: Option<String>,
}

/// What a record of the log holds.
#[verifier::ext_equal]
pub struct RecordModel {
    pub event: EventModel,
    pub at_rfc3339: Seq<char>,
    pub note: Option<Seq<char>>,
}

impl View for LogRecord {
    type V = RecordModel;

    open spec fn view(&self) -> RecordModel {
        RecordModel { event: self.event@, at_rfc3339: self.at_rfc3339@, note: opt_text(self.note) }
    }
}

/// The events of a log.
pub open spec fn events_of(log: Seq<RecordModel>) -> Seq<EventModel> {
    Seq::new(log.len(), |i: int| log[i].event)
}

/// What a bench that starts with bootstrap event `e` starts as.
pub open spec fn started(s: SetupModel, e: EventModel) -> Result<WorldModel, Seq<char>> {
    match e {
        EventModel::Bootstrap { calib_id, mode, threshold_amp, threshold_snr, levels } => booted(
            s,
            calib_id,
            mode,
            threshold_amp,
            threshold_snr,
            levels,
        ),
        _ => Err("event log must begin with a bootstrap event"@),
    }
}

/// The state after event `e`, or why it is refused.
#[verifier::opaque]
pub open spec fn step(w: WorldModel, e: EventModel) -> Result<WorldModel, Seq<char>> {
    let o = applied(w, e);
    match o.result {
        Ok(_) => Ok(o.world),
        Err(m) => Err(m),
    }
}

/// What a log replays to: the bootstrap event sets the bench up, and every other
/// event is applied in turn; or why one of them is refused.
pub open spec fn replayed(s: SetupModel, log: Seq<EventModel>) -> Result<WorldModel, Seq<char>>
    decreases log.len(),
{
    if log.len() <= 1 {
        started(s, log[0])
    } else {
        match replayed(s, log.drop_last()) {
            Err(m) => Err(m),
            Ok(w) => step(w, log.last()),
        }
    }
}

/// What a state becomes under a sequence of events.
pub open spec fn continued(start: Result<WorldModel, Seq<char>>, log: Seq<EventModel>) -> Result<WorldModel, Seq<char>>
    decreases log.len(),
{
    if log.len() == 0 {
        start
    } else {
        match continued(start, log.drop_last()) {
            Err(m) => Err(m),
            Ok(w) => step(w, log.last()),
        }
    }
}

/// A log replays to what the first part of it replays to, continued by the rest: a
/// bench that was stopped and started again is where it was.
pub proof fn replays_continue(s: SetupModel, first: Seq<EventModel>, rest: Seq<EventModel>)
    requires
        first.len() > 0,
    ensures
        replayed(s, first + rest) == continued(replayed(s, first), rest),
    decreases rest.len(),
{
    if rest.len() == 0 {
        assert(first + rest =~= first);
    } else {
        replays_continue(s, first, rest.drop_last());
        assert((first + rest).drop_last() =~= first + rest.drop_last());
        assert((first + rest).last() == rest.last());
    }
}

/// A refused event ends a replay for good, with its message.
pub proof fn refusals_end_a_replay(s: SetupModel, first: Seq<EventModel>, rest: Seq<EventModel>)
    requires
        first.len() > 0,
        replayed(s, first) is Err,
    ensures
        replayed(s, first + rest) == replayed(s, first),
    decreases rest.len(),
{
    if rest.len() == 0 {
        assert(first + rest =~= first);
    } else {
        refusals_end_a_replay(s, first, rest.drop_last());
        assert((first + rest).drop_last() =~= first + rest.drop_last());
    }
}

/// Whether the levels that an event comes with fit a bench of `n` scans.
pub open spec fn levels_of_event_fit(e: EventModel, n: int) -> bool {
    match e {
        EventModel::Bootstrap { levels, .. } => levels_fit(levels, n),
        EventModel::ThresholdChanged { value, levels, .. } => !value.not_a_number() && levels_fit(levels, n),
        _ => true,
    }
}

/// Whether a log fits a setup: the levels of its events fit, and it is short
/// enough for the candidates of a scan to be counted.
pub open spec fn log_fits(s: SetupModel, log: Seq<EventModel>) -> bool {
    &&& log.len() * s.samples <= i64::MAX
    &&& forall|i: int| 0 <= i < log.len() ==> levels_of_event_fit(#[trigger] log[i], s.scans.len() as int)
}

/// Whether `r` is what a log replays to.
pub open spec fn is_replay(r: Result<World, String>, o: Result<WorldModel, Seq<char>>) -> bool {
    match r {
        Ok(w) => o == Ok::<WorldModel, Seq<char>>(w@),
        Err(m) => o == Err::<WorldModel, Seq<char>>(m@),
    }
}

fn copy_levels(levels: &Vec<Quantity>) -> (r: Vec<Quantity>)
    ensures
        r@ == levels@,
{
    let mut copy: Vec<Quantity> = Vec::new();
    let mut i: usize = 0;
    while i < levels.len()
        invariant
            i <= levels@.len(),
            copy@ == levels@.take(i as int),
        decreases levels@.len() - i,
    {
        copy.push(levels[i]);
        i = i + 1;
        assert(copy@ =~= levels@.take(i as int));
    }
    assert(copy@ =~= levels@);
    copy
}

/// Events that come with fitting levels keep fitting.
proof fn lemma_scans_stay(w: WorldModel, e: EventModel)
    ensures
        applied(w, e).world.scans.len() == w.scans.len(),
        applied(w, e).world.samples == w.samples,
{
}

/// Applies one event of a log.
fn advance(world: &mut World, event: &Event) -> (r: Result<(), String>)
    requires
        old(world)@.valid(),
        old(world)@.has_room(),
        event_fits(old(world)@, event@),
    ensures
        (match r {
            Ok(_) => step(old(world)@, event@) == Ok::<WorldModel, Seq<char>>(final(world)@),
            Err(m) => step(old(world)@, event@) == Err::<WorldModel, Seq<char>>(m@),
        }),
        final(world)@.valid(),
        final(world)@.scans.len() == old(world)@.scans.len(),
        final(world)@.samples == old(world)@.samples,
        forall|id: i64| #[trigger] counter(final(world)@.counters, id) <= counter(old(world)@.counters, id) + old(world)@.samples,
{
    proof {
        reveal(step);
        lemma_scans_stay(world@, event@);
    }
    apply(world, event)
}

/// Replays a log.
pub fn replay(setup: Setup, log: &Vec<Event>) -> (r: Result<World, String>)
    requires
        setup@.valid(),
        log_fits(setup@, views(log@)),
        log@.len() > 0,
    ensures
        is_replay(r, replayed(setup@, views(log@))),
        r matches Ok(w) ==> w@.valid(),
        r matches Ok(w) ==> forall|id: i64| #[trigger] counter(w@.counters, id) <= log@.len() * setup@.samples,
        r matches Ok(w) ==> w@.scans.len() == setup@.scans.len() && w@.samples == setup@.samples,
{
    let ghost s = setup@;
    let ghost all = views(log@);
    let ghost n = s.samples as int;
    assert(all[0] == log@[0]@);
    assert(levels_of_event_fit(all[0], s.scans.len() as int));
    let mut world: World = match &log[0] {
        Event::Bootstrap { calib_id, mode, threshold_amp, threshold_snr, levels } => match boot(
            setup,
            *calib_id,
            mode.as_str(),
            *threshold_amp,
            *threshold_snr,
            copy_levels(levels),
        ) {
            Ok(w) => w,
            Err(m) => {
                proof {
                    lemma_start_refused(s, all, all.len() as int);
                }
                return Err(m);
            },
        },
        _ => {
            let m: String = "event log must begin with a bootstrap event".to_owned();
            proof {
                lemma_start_refused(s, all, all.len() as int);
            }
            return Err(m);
        },
    };
    let mut i: usize = 1;
    assert(all.take(1)[0] == all[0]);
    while i < log.len()
        invariant
            s == setup@,
            all == views(log@),
            1 <= i <= log@.len(),
            log_fits(s, all),
            n == s.samples,
            world@.valid(),
            world@.scans.len() == s.scans.len(),
            world@.samples == s.samples,
            replayed(s, all.take(i as int)) == Ok::<WorldModel, Seq<char>>(world@),
            forall|id: i64| #[trigger] counter(world@.counters, id) <= i * n,
        decreases log@.len() - i,
    {
        let ghost w = world@;
        proof {
            assert(all[i as int] == log@[i as int]@);
            assert(levels_of_event_fit(all[i as int], s.scans.len() as int));
            assert((i + 1) * n <= log@.len() * n) by (nonlinear_arith)
                requires
                    i + 1 <= log@.len(),
                    0 <= n,
            ;
            assert((i + 1) * n == i * n + n) by (nonlinear_arith);
            assert(all.take(i + 1).drop_last() =~= all.take(i as int));
            assert(all.take(i + 1).last() == all[i as int]);
        }
        match advance(&mut world, &log[i]) {
            Ok(_) => {},
            Err(m) => {
                proof {
                    lemma_refusal_sticks(s, all, i + 1, all.len() as int);
                    assert(all.take(all.len() as int) =~= all);
                }
                return Err(m);
            },
        }
        i = i + 1;
    }
    assert(all.take(i as int) =~= all);
    Ok(world)
}

/// A refused start refuses every longer log.
proof fn lemma_start_refused(s: SetupModel, log: Seq<EventModel>, n: int)
    requires
        1 <= n <= log.len(),
        started(s, log[0]) is Err,
    ensures
        replayed(s, log.take(n)) == started(s, log[0]),
        n == log.len() ==> replayed(s, log) == started(s, log[0]),
    decreases n,
{
    if n > 1 {
        lemma_start_refused(s, log, n - 1);
        assert(log.take(n).drop_last() =~= log.take(n - 1));
    } else {
        assert(log.take(1)[0] == log[0]);
    }
    if n == log.len() {
        assert(log.take(n) =~= log);
    }
}

/// A refused log stays refused however it goes on.
proof fn lemma_refusal_sticks(s: SetupModel, log: Seq<EventModel>, i: int, n: int)
    requires
        1 <= i <= n <= log.len(),
        replayed(s, log.take(i)) is Err,
    ensures
        replayed(s, log.take(n)) == replayed(s, log.take(i)),
    decreases n,
{
    if i < n {
        lemma_refusal_sticks(s, log, i, n - 1);
        assert(log.take(n).drop_last() =~= log.take(n - 1));
    }
}


/// The bootstrap event of a bench that nobody has set up.
pub open spec fn default_bootstrap(s: SetupModel) -> EventModel {
    EventModel::Bootstrap {
        calib_id: 1,
        mode: "amp"@,
        threshold_amp: s.default_threshold_amp,
        threshold_snr: s.default_threshold_snr,
        levels: s.default_levels,
    }
}

/// The log of a bench: an empty one is seeded with the default bootstrap event.
pub open spec fn seeded(s: SetupModel, log: Seq<EventModel>) -> Seq<EventModel> {
    if log.len() == 0 {
        seq![default_bootstrap(s)]
    } else {
        log
    }
}

/// Rebuilds the state from the log. A completely empty log is seeded with the
/// default bootstrap event, which is to be persisted so that every run replays it.
pub fn rehydrate(setup: Setup, log: &mut Vec<Event>) -> (r: Result<World, String>)
    requires
        setup@.valid(),
        log_fits(setup@, views(old(log)@)),
    ensures
        views(final(log)@) == seeded(setup@, views(old(log)@)),
        is_replay(r, replayed(setup@, seeded(setup@, views(old(log)@)))),
        r matches Ok(w) ==> w@.valid() && w@.scans.len() == setup@.scans.len() && w@.samples == setup@.samples,
        r matches Ok(w) ==> forall|id: i64| #[trigger] counter(w@.counters, id) <= final(log)@.len() * setup@.samples,
{
    let ghost s = setup@;
    let ghost before = views(log@);
    if log.len() == 0 {
        let first: Event = Event::Bootstrap {
            calib_id: 1,
            mode: "amp".to_owned(),
            threshold_amp: setup.default_threshold_amp,
            threshold_snr: setup.default_threshold_snr,
            levels: copy_levels(&setup.default_levels),
        };
        log.push(first);
        proof {
            assert(first@ =~= default_bootstrap(s));
            assert(views(log@) =~= seq![default_bootstrap(s)]);
            assert(log_fits(s, views(log@)));
        }
    }
    assert(views(log@) =~= seeded(s, before));
    replay(setup, &*log)
}

} // verus!
