//! What the adjudication console asks of the bench.

use vstd::prelude::*;

use crate::digest::sha256_hex;
use crate::events::{apply, next_track_id};
use crate::model::{Candidate, CandidateModel, Event, EventModel, ScanModel, World, WorldModel};
use crate::order::views;
use crate::quantity::Quantity;
use crate::rules::{applied, delay, event_fits, scan_fits};
use crate::setup::{Setup, SetupModel};
use crate::store::{
    events_of, is_replay, is_some_stamp, log_fits, now_rfc3339, replay, replayed, LogRecord, RecordModel,
};
use crate::text::{decimal, digits, join4, same_text};

verus! {

/// How a refused or failed request is answered.
#[derive(Clone, Copy, PartialEq, Eq, Structural, Debug)]
pub enum Status {
    BadRequest,
    ServerError,
}

/// The answer to a refused or failed request.
#[derive(Debug)]
pub struct ApiError {
    pub status: Status,
    pub message: String,
}

impl ApiError {
    /// Refuses a request.
    pub fn bad(msg: &str) -> (r: ApiError)
        ensures
            r.status == Status::BadRequest,
            r.message@ == msg@,
    {
        ApiError { status: Status::BadRequest, message: msg.to_owned() }
    }

    /// Reports a failure of the bench itself.
    pub fn server(msg: &str) -> (r: ApiError)
        ensures
            r.status == Status::ServerError,
            r.message@ == msg@,
    {
        ApiError { status: Status::ServerError, message: msg.to_owned() }
    }
}

/// Whether `e` refuses a request with the given message.
pub open spec fn refuses(e: ApiError, message: Seq<char>) -> bool {
    e.status == Status::BadRequest && e.message@ == message
}

/// The state that a log replays to, or why there is none.
pub open spec fn snapshotted(s: SetupModel, log: Seq<EventModel>) -> Result<WorldModel, Seq<char>> {
    if log.len() == 0 {
        Err("missing bootstrap"@)
    } else if !(log[0] is Bootstrap) {
        Err("first event must be bootstrap"@)
    } else {
        replayed(s, log)
    }
}

/// The state that a log replays to. An empty log has none.
pub fn snapshot(setup: Setup, log: &Vec<Event>) -> (r: Result<World, String>)
    requires
        setup@.valid(),
        log_fits(setup@, views(log@)),
    ensures
        is_replay(r, snapshotted(setup@, views(log@))),
        r matches Ok(w) ==> w@.valid(),
{
    if log.len() == 0 {
        return Err("missing bootstrap".to_owned());
    }
    assert(views(log@)[0] == log@[0]@);
    match &log[0] {
        Event::Bootstrap { .. } => {},
        _ => {
            return Err("first event must be bootstrap".to_owned());
        },
    }
    replay(setup, log)
}

/// How many events an imported log has, or why it is refused.
pub open spec fn imported(s: SetupModel, log: Seq<EventModel>) -> Result<nat, Seq<char>> {
    if log.len() == 0 {
        Err("import contains no events"@)
    } else if !(log[0] is Bootstrap) {
        Err("imported log must start with a bootstrap event"@)
    } else {
        match replayed(s, log) {
            Ok(_) => Ok(log.len()),
            Err(m) => Err(m),
        }
    }
}

/// An imported log is accepted if and only if the bench can be rebuilt from it, and
/// then it is rebuilt to what the log replays to.
pub proof fn imports_rebuild_the_bench(s: SetupModel, log: Seq<EventModel>)
    ensures
        imported(s, log) is Ok <==> snapshotted(s, log) is Ok,
        imported(s, log) is Ok ==> imported(s, log) == Ok::<nat, Seq<char>>(log.len()) && snapshotted(s, log) == replayed(
            s,
            log,
        ),
{
}

/// An event that the state accepts is in the state when the log is replayed with it;
/// one that the state refuses would end the replay, and is not to be stored.
pub proof fn accepted_events_are_replayed(s: SetupModel, log: Seq<EventModel>, w: WorldModel, e: EventModel)
    requires
        snapshotted(s, log) == Ok::<WorldModel, Seq<char>>(w),
    ensures
        applied(w, e).result is Ok ==> snapshotted(s, log.push(e)) == Ok::<WorldModel, Seq<char>>(applied(w, e).world),
        applied(w, e).result matches Err(m) ==> snapshotted(s, log.push(e)) == Err::<WorldModel, Seq<char>>(m),
{
    reveal(crate::store::step);
    assert(log.push(e).drop_last() =~= log);
    assert(log.push(e)[0] == log[0]);
}

/// Checks a whole imported log before anything is stored: how many events it has,
/// or why it is refused.
pub fn check_import(setup: Setup, events: &Vec<Event>) -> (r: Result<usize, ApiError>)
    requires
        setup@.valid(),
        log_fits(setup@, views(events@)),
    ensures
        (match r {
            Ok(n) => imported(setup@, views(events@)) == Ok::<nat, Seq<char>>(n as nat),
            Err(e) => imported(setup@, views(events@)) is Err && refuses(e, imported(setup@, views(events@))->Err_0),
        }),
{
    if events.len() == 0 {
        return Err(ApiError::bad("import contains no events"));
    }
    assert(views(events@)[0] == events@[0]@);
    match &events[0] {
        Event::Bootstrap { .. } => {},
        _ => {
            return Err(ApiError::bad("imported log must start with a bootstrap event"));
        },
    }
    match replay(setup, events) {
        Ok(_) => Ok(events.len()),
        Err(m) => Err(ApiError::bad(m.as_str())),
    }
}

/// The events that the first `n` entries of an imported document were read as, or
/// which is the first that was not, and why.
pub open spec fn entries_read(entries: Seq<Result<Event, String>>, n: int) -> Result<Seq<EventModel>, Seq<char>>
    decreases n,
{
    if n <= 0 {
        Ok(Seq::empty())
    } else {
        match entries_read(entries, n - 1) {
            Err(m) => Err(m),
            Ok(events) => match entries[n - 1] {
                Ok(e) => Ok(events.push(e@)),
                Err(m) => Err("event #"@ + digits(n as nat) + " is invalid: "@ + m@),
            },
        }
    }
}

/// What the entries of an imported document are refused for, or else the events that
/// they were read as.
pub open spec fn import_read(s: SetupModel, entries: Seq<Result<Event, String>>) -> Result<Seq<EventModel>, Seq<char>> {
    match entries_read(entries, entries.len() as int) {
        Err(m) => Err(m),
        Ok(events) => match imported(s, events) {
            Err(m) => Err(m),
            Ok(_) => Ok(events),
        },
    }
}

/// The events of the log after an import: those of the document if it is accepted,
/// and the ones that were there if it is refused.
pub open spec fn log_after_import(
    s: SetupModel,
    log: Seq<EventModel>,
    entries: Seq<Result<Event, String>>,
) -> Seq<EventModel> {
    match import_read(s, entries) {
        Ok(events) => events,
        Err(_) => log,
    }
}

proof fn lemma_all_read(entries: Seq<Result<Event, String>>, n: int)
    requires
        0 <= n <= entries.len(),
    ensures
        entries_read(entries, n) is Ok <==> forall|i: int| 0 <= i < n ==> (#[trigger] entries[i]) is Ok,
        entries_read(entries, n) matches Ok(events) ==> events.len() == n && forall|i: int|
            0 <= i < n ==> #[trigger] events[i] == entries[i]->Ok_0@,
    decreases n,
{
    if n > 0 {
        lemma_all_read(entries, n - 1);
        if entries_read(entries, n) is Ok {
            assert forall|i: int| 0 <= i < n implies (#[trigger] entries[i]) is Ok by {
                if i < n - 1 {
                    assert(entries_read(entries, n - 1) is Ok);
                }
            }
        }
    }
}

/// An import is accepted if and only if every entry is read as an event, the first is
/// a bootstrap event, and all can be replayed in turn. Then the log is exactly those
/// events, in order, and the bench is where they replay to; otherwise the log is
/// what it was.
pub proof fn imports_replace_the_log_or_leave_it(
    s: SetupModel,
    log: Seq<EventModel>,
    entries: Seq<Result<Event, String>>,
)
    ensures
        import_read(s, entries) is Ok <==> {
            let events = Seq::new(entries.len(), |i: int| entries[i]->Ok_0@);
            &&& forall|i: int| 0 <= i < entries.len() ==> (#[trigger] entries[i]) is Ok
            &&& events.len() > 0
            &&& events[0] is Bootstrap
            &&& replayed(s, events) is Ok
        },
        import_read(s, entries) is Ok ==> {
            let after = log_after_import(s, log, entries);
            &&& after == Seq::new(entries.len(), |i: int| entries[i]->Ok_0@)
            &&& snapshotted(s, after) == replayed(s, after)
            &&& snapshotted(s, after) is Ok
        },
        import_read(s, entries) is Err ==> log_after_import(s, log, entries) == log,
{
    lemma_all_read(entries, entries.len() as int);
    let events = Seq::new(entries.len(), |i: int| entries[i]->Ok_0@);
    if let Ok(read) = entries_read(entries, entries.len() as int) {
        assert(read =~= events);
    }
}

/// Importing the events of a log that a bench was exported from brings back that log
/// and the state that it replays to, whatever the log has become in between.
pub proof fn imports_restore_exported_logs(
    s: SetupModel,
    exported: Seq<EventModel>,
    log: Seq<EventModel>,
    entries: Seq<Result<Event, String>>,
)
    requires
        snapshotted(s, exported) is Ok,
        entries.len() == exported.len(),
        forall|i: int| 0 <= i < entries.len() ==> (#[trigger] entries[i] matches Ok(e) && e@ == exported[i]),
    ensures
        import_read(s, entries) is Ok,
        log_after_import(s, log, entries) == exported,
        snapshotted(s, log_after_import(s, log, entries)) == snapshotted(s, exported),
{
    lemma_all_read(entries, entries.len() as int);
    let read = entries_read(entries, entries.len() as int)->Ok_0;
    assert forall|i: int| 0 <= i < read.len() implies #[trigger] read[i] == exported[i] by {
        assert(entries[i] is Ok);
    }
    assert(read =~= exported);
}

/// Takes the events out of the entries of an imported document.
fn read_entries(entries: Vec<Result<Event, String>>) -> (r: Result<Vec<Event>, ApiError>)
    ensures
        (match r {
            Ok(events) => entries_read(entries@, entries@.len() as int) == Ok::<Seq<EventModel>, Seq<char>>(
                views(events@),
            ),
            Err(e) => entries_read(entries@, entries@.len() as int) is Err && refuses(
                e,
                entries_read(entries@, entries@.len() as int)->Err_0,
            ),
        }),
{
    let ghost all = entries@;
    let total: usize = entries.len();
    let mut rest: Vec<Result<Event, String>> = entries;
    let mut events: Vec<Event> = Vec::new();
    let mut k: usize = 0;
    assert(rest@ =~= all.skip(0));
    assert(views(events@) =~= Seq::<EventModel>::empty());
    while k < total
        invariant
            k <= total,
            total == all.len(),
            all == entries@,
            rest@ == all.skip(k as int),
            entries_read(all, k as int) == Ok::<Seq<EventModel>, Seq<char>>(views(events@)),
        decreases total - k,
    {
        let entry: Result<Event, String> = rest.remove(0);
        assert(entry == all[k as int]);
        assert(rest@ =~= all.skip(k + 1));
        k = k + 1;
        match entry {
            Ok(e) => {
                let ghost before = views(events@);
                events.push(e);
                assert(views(events@) =~= before.push(e@));
            },
            Err(m) => {
                proof {
                    lemma_unread(all, k as int, total as int);
                }
                return Err(
                    ApiError::bad(join4("event #", decimal(k as u64).as_str(), " is invalid: ", m.as_str()).as_str()),
                );
            },
        }
    }
    Ok(events)
}

proof fn lemma_unread(entries: Seq<Result<Event, String>>, i: int, n: int)
    requires
        i <= n,
        entries_read(entries, i) is Err,
    ensures
        entries_read(entries, n) == entries_read(entries, i),
    decreases n - i,
{
    if i < n {
        lemma_unread(entries, i, n - 1);
        if n <= 0 {
            assert(entries_read(entries, i) is Ok);
        }
    }
}

/// Records imported events.
fn records_of(events: Vec<Event>) -> (r: Vec<LogRecord>)
    ensures
        events_of(views(r@)) == views(events@),
        forall|i: int| 0 <= i < r@.len() ==> is_import(#[trigger] views(r@)[i]),
{
    let ghost all = events@;
    let total: usize = events.len();
    let mut rest: Vec<Event> = events;
    let mut log: Vec<LogRecord> = Vec::new();
    let mut k: usize = 0;
    assert(rest@ =~= all.skip(0));
    while k < total
        invariant
            k <= total,
            total == all.len(),
            rest@ == all.skip(k as int),
            log@.len() == k,
            forall|i: int| 0 <= i < k ==> (#[trigger] log@[i])@.event == all[i]@ && is_import(log@[i]@),
        decreases total - k,
    {
        let event: Event = rest.remove(0);
        assert(event == all[k as int]);
        assert(rest@ =~= all.skip(k + 1));
        log.push(LogRecord { event, at_rfc3339: now_rfc3339(), note: Some("imported".to_owned()) });
        k = k + 1;
    }
    assert(events_of(views(log@)) =~= views(all));
    log
}

/// Whether a record was stored by an import: it says so, and bears a time stamp.
pub open spec fn is_import(r: RecordModel) -> bool {
    &&& r.note == Some("imported"@)
    &&& is_some_stamp(r.at_rfc3339)
}

/// Replaces the log by the entries of an imported document, and says how many there
/// are. Nothing is stored before the whole document has been checked: where it is
/// refused, the log stays as it was.
pub fn import(setup: Setup, log: &mut Vec<LogRecord>, entries: Vec<Result<Event, String>>) -> (r: Result<
    usize,
    ApiError,
>)
    requires
        setup@.valid(),
        entries_read(entries@, entries@.len() as int) matches Ok(events) ==> log_fits(setup@, events),
    ensures
        events_of(views(final(log)@)) == log_after_import(setup@, events_of(views(old(log)@)), entries@),
        (match r {
            Ok(n) => {
                &&& import_read(setup@, entries@) is Ok
                &&& n == entries@.len()
                &&& n == final(log)@.len()
                &&& forall|i: int| 0 <= i < final(log)@.len() ==> is_import(#[trigger] views(final(log)@)[i])
            },
            Err(e) => {
                &&& import_read(setup@, entries@) is Err
                &&& refuses(e, import_read(setup@, entries@)->Err_0)
                &&& final(log)@ == old(log)@
            },
        }),
{
    proof {
        lemma_all_read(entries@, entries@.len() as int);
    }
    let events: Vec<Event> = match read_entries(entries) {
        Ok(events) => events,
        Err(e) => {
            return Err(e);
        },
    };
    match check_import(setup, &events) {
        Ok(n) => {
            assert(views(events@).len() == events@.len());
            *log = records_of(events);
            assert(events_of(views(log@)).len() == log@.len());
            Ok(n)
        },
        Err(e) => Err(e),
    }
}

/// Takes a posted event into the state before it is stored. A log is bootstrapped
/// again only by a reset.
pub fn post_event(world: &mut World, event: &Event) -> (r: Result<(), ApiError>)
    requires
        old(world)@.valid(),
        old(world)@.has_room(),
        event_fits(old(world)@, event@),
    ensures
        event@ is Bootstrap ==> final(world)@ == old(world)@,
        !(event@ is Bootstrap) ==> final(world)@ == applied(old(world)@, event@).world,
        (match r {
            Ok(_) => !(event@ is Bootstrap) && applied(old(world)@, event@).result is Ok,
            Err(e) => if event@ is Bootstrap {
                refuses(e, "use POST /api/reset to re-bootstrap the log"@)
            } else {
                applied(old(world)@, event@).result is Err && refuses(e, applied(old(world)@, event@).result->Err_0)
            },
        }),
{
    match event {
        Event::Bootstrap { .. } => {
            return Err(ApiError::bad("use POST /api/reset to re-bootstrap the log"));
        },
        _ => {},
    }
    match apply(world, event) {
        Ok(_) => Ok(()),
        Err(m) => Err(ApiError::bad(m.as_str())),
    }
}

/// What a reset asks for.
#[derive(Debug)]
pub struct ResetBody {
    pub calib_id: Option<i64>,
    pub threshold_mode: Option<String>,
    pub threshold_amp: Option<Quantity>,
    pub threshold_snr: Option<Quantity>,
}

/// The bootstrap event of a reset: what was asked for, and the defaults for the
/// rest. Its levels are still to be computed.
pub fn reset_event(setup: &Setup, body: &ResetBody) -> (r: Event)
    ensures
        r@ == (EventModel::Bootstrap {
            calib_id: (if let Some(id) = body.calib_id {
                id
            } else {
                1
            }),
            mode: (if let Some(mode) = body.threshold_mode {
                mode@
            } else {
                "amp"@
            }),
            threshold_amp: (if let Some(v) = body.threshold_amp {
                v
            } else {
                setup@.default_threshold_amp
            }),
            threshold_snr: (if let Some(v) = body.threshold_snr {
                v
            } else {
                setup@.default_threshold_snr
            }),
            levels: Seq::empty(),
        }),
{
    let e: Event = Event::Bootstrap {
        calib_id: match body.calib_id {
            Some(id) => id,
            None => 1,
        },
        mode: match &body.threshold_mode {
            Some(mode) => mode.clone(),
            None => "amp".to_owned(),
        },
        threshold_amp: match body.threshold_amp {
            Some(v) => v,
            None => setup.default_threshold_amp,
        },
        threshold_snr: match body.threshold_snr {
            Some(v) => v,
            None => setup.default_threshold_snr,
        },
        levels: Vec::new(),
    };
    e
}

// ---------------------------------------------------------------- display

/// Every how many samples of a trace are displayed.
pub const STRIDE: usize = 2;

/// A displayed candidate.
pub struct CandidateOut {
    /// Its place among the candidates of the state.
    pub index: usize,
    /// How many samples after the surface its peak arrives now.
    pub live_delay: Option<i64>,
    /// Whether it reaches the threshold in force.
    pub threshold_pass: bool,
}

/// What a displayed candidate holds.
#[verifier::ext_equal]
pub struct CandidateOutModel {
    pub index: int,
    pub live_delay: Option<i64>,
    pub threshold_pass: bool,
}

impl View for CandidateOut {
    type V = CandidateOutModel;

    open spec fn view(&self) -> CandidateOutModel {
        CandidateOutModel { index: self.index as int, live_delay: self.live_delay, threshold_pass: self.threshold_pass }
    }
}

/// A displayed scan. Only the displayed trace is thinned out; candidates always
/// carry full data.
pub struct ScanOut {
    pub view_stride: usize,
    pub raw_view: Vec<i16>,
    pub envelope_view: Vec<Quantity>,
    pub candidates: Vec<CandidateOut>,
}

/// What a displayed scan holds.
#[verifier::ext_equal]
pub struct ScanOutModel {
    pub view_stride: usize,
    pub raw_view: Seq<i16>,
    pub envelope_view: Seq<Quantity>,
    pub candidates: Seq<CandidateOutModel>,
}

impl View for ScanOut {
    type V = ScanOutModel;

    open spec fn view(&self) -> ScanOutModel {
        ScanOutModel {
            view_stride: self.view_stride,
            raw_view: self.raw_view@,
            envelope_view: self.envelope_view@,
            candidates: views(self.candidates@),
        }
    }
}

/// What is displayed besides the state itself.
pub struct WorldLite {
    pub next_track_id: i64,
    /// One entry for each scan of the state.
    pub scans: Vec<ScanOut>,
}

/// Every second item of a sequence, from the first on.
pub open spec fn thinned<T>(s: Seq<T>) -> Seq<T> {
    Seq::new((s.len() + 1) / 2, |i: int| s[2 * i])
}

/// Whether candidate `c` of scan number `at` reaches the threshold in force: in SNR
/// mode its normalized amplitude reaches the level of the scan, in amplitude mode
/// its amplitude reaches the threshold.
pub open spec fn passes(w: WorldModel, at: int, c: CandidateModel) -> bool {
    if w.threshold_mode == "snr"@ {
        w.levels[at].le(w.scans[at].trace.normalized@[c.peak])
    } else {
        w.threshold_amp.le(c.amplitude)
    }
}

/// The displayed candidates of scan number `at` among the first `n` candidates.
pub open spec fn shown_candidates(w: WorldModel, at: int, n: int) -> Seq<CandidateOutModel>
    decreases n,
{
    if n <= 0 {
        Seq::empty()
    } else {
        let c = w.candidates[n - 1];
        let rest = shown_candidates(w, at, n - 1);
        if c.scan_id == w.scans[at].id {
            rest.push(
                CandidateOutModel {
                    index: n - 1,
                    live_delay: delay(w.surfaces, c.scan_id, c.peak),
                    threshold_pass: passes(w, at, c),
                },
            )
        } else {
            rest
        }
    }
}

/// What is displayed of scan number `at`.
pub open spec fn shown_scan(w: WorldModel, at: int) -> ScanOutModel {
    ScanOutModel {
        view_stride: STRIDE,
        raw_view: thinned(w.scans[at].trace.raw@),
        envelope_view: thinned(w.scans[at].trace.envelope@),
        candidates: shown_candidates(w, at, w.candidates.len() as int),
    }
}

fn thin<T: Copy>(v: &Vec<T>) -> (r: Vec<T>)
    ensures
        r@ == thinned(v@),
{
    let n: usize = v.len();
    let mut r: Vec<T> = Vec::new();
    let mut i: usize = 0;
    while i < n
        invariant
            n == v@.len(),
            r@.len() * 2 == i || (i == n && r@.len() * 2 == n + 1),
            i <= n,
            forall|k: int| 0 <= k < r@.len() ==> #[trigger] r@[k] == v@[2 * k],
        decreases n - i,
    {
        r.push(v[i]);
        if n - i > STRIDE {
            i = i + STRIDE;
        } else {
            i = n;
        }
    }
    assert(r@ =~= thinned(v@));
    r
}

fn show_candidates(world: &World, at: usize) -> (r: Vec<CandidateOut>)
    requires
        world@.valid(),
        at < world@.scans.len(),
    ensures
        views(r@) == shown_candidates(world@, at as int, world@.candidates.len() as int),
{
    let ghost w = world@;
    assert(scan_fits(w.scans[at as int], w.samples, w.scans.len() as int, at as int));
    assert(world.scans@[at as int]@ == w.scans[at as int]);
    let snr: bool = same_text(world.threshold_mode.as_str(), "snr");
    let mut out: Vec<CandidateOut> = Vec::new();
    let mut i: usize = 0;
    assert(views(out@) =~= shown_candidates(w, at as int, 0));
    while i < world.candidates.len()
        invariant
            w == world@,
            w.valid(),
            at < w.scans.len(),
            scan_fits(w.scans[at as int], w.samples, w.scans.len() as int, at as int),
            world.scans@[at as int]@ == w.scans[at as int],
            snr == (w.threshold_mode == "snr"@),
            i <= world.candidates@.len(),
            views(out@) == shown_candidates(w, at as int, i as int),
        decreases world.candidates@.len() - i,
    {
        let c: &Candidate = &world.candidates[i];
        assert(c@ == w.candidates[i as int]);
        assert(crate::rules::candidate_fits(w, c@));
        if c.scan_id == world.scans[at].id {
            let pass: bool = if snr {
                world.levels[at].is_at_most(world.scans[at].trace.normalized[c.peak as usize])
            } else {
                world.threshold_amp.is_at_most(c.amplitude)
            };
            let ghost prior = out@;
            let shown: CandidateOut = CandidateOut {
                index: i,
                live_delay: world.live_delay(c.scan_id, c.peak),
                threshold_pass: pass,
            };
            out.push(shown);
            assert(views(out@) =~= views(prior).push(shown@));
        }
        i = i + 1;
    }
    out
}

/// What is displayed of the state.
pub fn build_state(world: &World) -> (r: WorldLite)
    requires
        world@.valid(),
        crate::events::following_track_id(world@.tracks) <= i64::MAX,
    ensures
        r.next_track_id == crate::events::following_track_id(world@.tracks),
        r.scans@.len() == world@.scans.len(),
        forall|at: int| 0 <= at < r.scans@.len() ==> (#[trigger] r.scans@[at])@ == shown_scan(world@, at),
{
    let ghost w = world@;
    let mut scans: Vec<ScanOut> = Vec::new();
    let mut at: usize = 0;
    while at < world.scans.len()
        invariant
            w == world@,
            w.valid(),
            at <= world.scans@.len(),
            scans@.len() == at,
            forall|k: int| 0 <= k < at ==> (#[trigger] scans@[k])@ == shown_scan(w, k),
        decreases world.scans@.len() - at,
    {
        assert(world.scans@[at as int]@ == w.scans[at as int]);
        let shown: ScanOut = ScanOut {
            view_stride: STRIDE,
            raw_view: thin(&world.scans[at].trace.raw),
            envelope_view: thin(&world.scans[at].trace.envelope),
            candidates: show_candidates(world, at),
        };
        assert(shown@ =~= shown_scan(w, at as int));
        scans.push(shown);
        at = at + 1;
    }
    WorldLite { next_track_id: next_track_id(world), scans }
}

// ---------------------------------------------------------------- fingerprint

/// The number that stands for `v` in two's complement.
pub open spec fn two_complement(v: i16) -> int {
    if v < 0 {
        v + 65_536
    } else {
        v as int
    }
}

/// The two bytes of a sample, the lower first.
pub open spec fn sample_bytes(v: i16) -> Seq<u8> {
    seq![(two_complement(v) % 256) as u8, (two_complement(v) / 256) as u8]
}

/// The bytes of the first `n` samples of a trace.
pub open spec fn trace_bytes(raw: Seq<i16>, n: int) -> Seq<u8>
    decreases n,
{
    if n <= 0 {
        Seq::empty()
    } else {
        trace_bytes(raw, n - 1) + sample_bytes(raw[n - 1])
    }
}

/// The bytes of the traces of the first `n` scans.
pub open spec fn waveform_bytes(scans: Seq<ScanModel>, n: int) -> Seq<u8>
    decreases n,
{
    if n <= 0 {
        Seq::empty()
    } else {
        let raw = scans[n - 1].trace.raw@;
        waveform_bytes(scans, n - 1) + trace_bytes(raw, raw.len() as int)
    }
}

/// The fingerprint of the recorded waveforms: the SHA-256 of their samples.
pub fn waveform_digest(setup: &Setup) -> (r: String)
    requires
        waveform_bytes(setup@.scans, setup@.scans.len() as int).len() + 128 <= usize::MAX,
    ensures
        r@ == crate::digest::hex_words(
            crate::digest::sha256(waveform_bytes(setup@.scans, setup@.scans.len() as int)),
            8,
        ),
{
    let ghost scans = setup@.scans;
    let mut bytes: Vec<u8> = Vec::new();
    let mut i: usize = 0;
    assert(bytes@ =~= waveform_bytes(scans, 0));
    while i < setup.scans.len()
        invariant
            scans == setup@.scans,
            i <= setup.scans@.len(),
            bytes@ == waveform_bytes(scans, i as int),
        decreases setup.scans@.len() - i,
    {
        let raw: &Vec<i16> = &setup.scans[i].trace.raw;
        assert(setup.scans@[i as int]@ == scans[i as int]);
        let ghost before = bytes@;
        let mut j: usize = 0;
        assert(bytes@ =~= before + trace_bytes(raw@, 0));
        while j < raw.len()
            invariant
                j <= raw@.len(),
                bytes@ == before + trace_bytes(raw@, j as int),
            decreases raw@.len() - j,
        {
            let v: i16 = raw[j];
            let u: i32 = if v < 0 {
                v as i32 + 65_536
            } else {
                v as i32
            };
            bytes.push((u % 256) as u8);
            bytes.push((u / 256) as u8);
            j = j + 1;
            assert(bytes@ =~= before + trace_bytes(raw@, j as int));
        }
        i = i + 1;
    }
    sha256_hex(bytes.as_slice())
}

} // verus!
