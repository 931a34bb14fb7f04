//! The session state machine that guards check-in and check-out, the sum of
//! the time worked since an instant, and the summary built from it.

use crate::db::{
    contiguous, first_at_or_after, holds, inserted, lemma_first_at_or_after,
    lemma_push_well_ordered, lemma_record_at, lemma_run_stops_at_gap, lemma_run_visits_all,
    next_id, run_from, well_ordered, DbError, InOut, Ledger, Stamp,
};
use crate::time::{
    day_floor, lemma_floors_of_midnight, representable, week_floor, Duration, Timestamp,
};
use vstd::prelude::*;
use vstd::string::*;

verus! {

/// Error of an application command.
#[derive(Clone, Copy, Debug, PartialEq, Eq, Structural)]
pub enum AppError {
    /// Check-in was asked while the last stamp is a check-in.
    AlreadyCheckedIn,
    /// Check-out was asked while the last stamp is a check-out, or while
    /// there is no stamp at all.
    AlreadyCheckedOut,
    /// The clock or the calendar gave an instant outside the range of
    /// timestamps.
    ClockOutOfRange,
    /// The ledger failed.
    Db(DbError),
}

/// The time worked today and this week.
#[derive(Clone, Copy, Debug, PartialEq, Eq, Structural)]
pub struct Resume {
    /// Midnight that began the current day.
    pub begin_of_day: Timestamp,
    /// Time worked since the beginning of the day.
    pub day_total: Duration,
    /// Midnight that began the current week.
    pub begin_of_week: Timestamp,
    /// Time worked since the beginning of the week; absent when it equals
    /// the day's total.
    pub week_total: Option<Duration>,
}

/// Data container for application live variables.
pub struct App {
    /// The ledger of stamps.
    conn: Ledger,
}

impl View for App {
    type V = Seq<Stamp>;

    /// The records of the application's ledger.
    closed spec fn view(&self) -> Seq<Stamp> {
        self.conn@
    }
}

/// The next valid command is a check-in: there is no stamp, or the last one
/// is a check-out.
pub open spec fn awaiting_check_in(s: Seq<Stamp>) -> bool {
    s.len() == 0 || s.last().in_out == InOut::Out
}

/// The command that records a stamp of the direction `direction` is valid.
pub open spec fn accepts(s: Seq<Stamp>, direction: InOut) -> bool {
    match direction {
        InOut::In => awaiting_check_in(s),
        InOut::Out => !awaiting_check_in(s),
    }
}

/// The rejection of a command that is not valid.
pub open spec fn rejection(direction: InOut) -> AppError {
    match direction {
        InOut::In => AppError::AlreadyCheckedIn,
        InOut::Out => AppError::AlreadyCheckedOut,
    }
}

/// What a check-in (`direction` is `In`) or a check-out (`Out`) at the
/// instant `now` returns on the records `s`.
pub open spec fn stamped(s: Seq<Stamp>, direction: InOut, now: Timestamp) -> Result<
    Stamp,
    AppError,
> {
    if !accepts(s, direction) {
        Err(rejection(direction))
    } else {
        match inserted(true, s, Stamp { id: 0, date: now, in_out: direction }) {
            Ok(stamp) => Ok(stamp),
            Err(e) => Err(AppError::Db(e)),
        }
    }
}

/// The records after a command that returned `outcome`: one more on
/// success, the same on failure.
pub open spec fn recorded(s: Seq<Stamp>, outcome: Result<Stamp, AppError>) -> Seq<Stamp> {
    match outcome {
        Ok(stamp) => s.push(stamp),
        Err(_) => s,
    }
}

/// The time that an adjacent pair of stamps adds to the total: the signed
/// span between them where a check-in is followed by a check-out, nothing
/// otherwise.
pub open spec fn interval(prev: Stamp, curr: Stamp) -> int {
    if prev.in_out == InOut::In && curr.in_out == InOut::Out {
        curr.date@ - prev.date@
    } else {
        0
    }
}

/// The time worked along a run of stamps: the sum of the intervals of its
/// adjacent pairs.
pub open spec fn worked(run: Seq<Stamp>) -> int
    decreases run.len(),
{
    if run.len() < 2 {
        0
    } else {
        worked(run.drop_last()) + interval(run[run.len() - 2], run.last())
    }
}

/// The time worked since the instant `from`: the time worked along the run
/// of consecutive identities that starts at the first record not before
/// `from`; zero where there is no such record.
pub open spec fn total_from(s: Seq<Stamp>, from: int) -> int {
    let k = first_at_or_after(s, from, 0);
    if k < s.len() {
        worked(run_from(s, s[k].id as int))
    } else {
        0
    }
}

/// The absolute span between two instants.
pub open spec fn span_between(a: int, b: int) -> int {
    if b > a {
        b - a
    } else {
        a - b
    }
}

/// A run that starts at the identity `id` is no longer than the identities
/// from `id` on are many.
pub proof fn lemma_run_from_bound(s: Seq<Stamp>, id: int)
    requires
        id <= i64::MAX + 1,
    ensures
        run_from(s, id).len() <= i64::MAX + 1 - id,
    decreases i64::MAX + 1 - id,
{
    if id <= i64::MAX && holds(s, id) {
        lemma_run_from_bound(s, id + 1);
    }
}

impl App {
    /// The application's invariant: its ledger has its relation of stamps.
    #[verifier::type_invariant]
    pub closed spec fn wf(&self) -> bool {
        self.conn.is_created()
    }

    /// Takes over a ledger and creates its relation of stamps unless it
    /// exists.
    pub fn new(ledger: Ledger) -> (r: Result<App, AppError>)
        ensures
            r matches Ok(app) && app@ == ledger@,
    {
        let mut conn = ledger;
        if !conn.created() {
            match Stamp::create(&mut conn) {
                Ok(()) => {},
                Err(e) => { return Err(AppError::Db(e)); },
            }
        }
        Ok(App { conn })
    }

    /// Moves the ledger out, to be changed and put back; an empty ledger
    /// stands in for it.
    fn take(&mut self) -> (ledger: Ledger)
        ensures
            ledger@ == old(self)@,
            ledger.is_created(),
    {
        proof {
            use_type_invariant(&*self);
        }
        let mut ledger = Ledger::new();
        let _ = Stamp::create(&mut ledger);
        core::mem::swap(&mut self.conn, &mut ledger);
        ledger
    }

    /// The application's ledger.
    pub fn ledger(&self) -> (ledger: &Ledger)
        ensures
            ledger@ == self@,
            ledger.is_created(),
    {
        proof {
            use_type_invariant(self);
        }
        &self.conn
    }

    /// Records a stamp of the direction `direction` at the instant `now`, if
    /// the state admits it.
    fn stamp_at(&mut self, direction: InOut, now: Timestamp) -> (r: Result<Stamp, AppError>)
        ensures
            r == stamped(old(self)@, direction, now),
            final(self)@ == recorded(old(self)@, r),
    {
        proof {
            use_type_invariant(&*self);
            use_type_invariant(&self.conn);
        }
        let checked_in = match Stamp::last(&self.conn) {
            Some(last_stamp) => last_stamp.in_out == InOut::In,
            None => false,
        };
        match direction {
            InOut::In => {
                if checked_in {
                    return Err(AppError::AlreadyCheckedIn);
                }
            },
            InOut::Out => {
                if !checked_in {
                    return Err(AppError::AlreadyCheckedOut);
                }
            },
        }
        let mut stamp = Stamp::new(0, now, direction);
        let mut conn = self.take();
        let outcome = stamp.insert(&mut conn);
        self.conn = conn;
        match outcome {
            Ok(stamp) => Ok(stamp),
            Err(e) => Err(AppError::Db(e)),
        }
    }

    /// Check in at the instant `now`: allowed when there is no stamp or the
    /// last one is a check-out. On success exactly one check-in stamp is
    /// appended and returned; on failure the ledger is unchanged.
    pub fn do_checkin_at(&mut self, now: Timestamp) -> (r: Result<Stamp, AppError>)
        ensures
            r == stamped(old(self)@, InOut::In, now),
            final(self)@ == recorded(old(self)@, r),
    {
        self.stamp_at(InOut::In, now)
    }

    /// Check in at the clock's current reading.
    pub fn do_checkin(&mut self) -> (r: Result<Stamp, AppError>)
        ensures
            final(self)@ == recorded(old(self)@, r),
            !awaiting_check_in(old(self)@) ==> r == Err::<Stamp, AppError>(
                AppError::AlreadyCheckedIn,
            ),
            r matches Ok(stamp) ==> r == stamped(old(self)@, InOut::In, stamp.date),
            r matches Err(e) ==> e == AppError::ClockOutOfRange || forall|now: Timestamp|
                r == #[trigger] stamped(old(self)@, InOut::In, now),
    {
        proof {
            use_type_invariant(&self.conn);
        }
        if let Some(last_stamp) = Stamp::last(&self.conn) {
            if last_stamp.in_out == InOut::In {
                return Err(AppError::AlreadyCheckedIn);
            }
        }
        match Timestamp::now() {
            Some(now) => self.stamp_at(InOut::In, now),
            None => Err(AppError::ClockOutOfRange),
        }
    }

    /// Check out at the instant `now`: allowed when the last stamp is a
    /// check-in. On success exactly one check-out stamp is appended and
    /// returned, with the span between it and the stamp whose identity is
    /// one less; on failure the ledger is unchanged.
    pub fn do_checkout_at(&mut self, now: Timestamp) -> (r: Result<
        (Stamp, Option<Duration>),
        AppError,
    >)
        ensures
            match r {
                Ok((stamp, work_time)) => {
                    &&& stamped(old(self)@, InOut::Out, now) == Ok::<Stamp, AppError>(stamp)
                    &&& final(self)@ == old(self)@.push(stamp)
                    &&& work_time matches Some(d) && d@ == span_between(
                        old(self)@.last().date@,
                        now@,
                    )
                },
                Err(e) => {
                    &&& stamped(old(self)@, InOut::Out, now) == Err::<Stamp, AppError>(e)
                    &&& final(self)@ == old(self)@
                },
            },
    {
        let stamp = match self.stamp_at(InOut::Out, now) {
            Ok(stamp) => stamp,
            Err(e) => { return Err(e); },
        };
        proof {
            use_type_invariant(&self.conn);
            let n = old(self)@.len();
            lemma_record_at(self@, n - 1);
            assert(self@[n - 1] == old(self)@.last());
        }
        let work_time = match stamp.previous(&self.conn) {
            Some(checkin) => Some(checkin.delta(&stamp)),
            None => None,
        };
        Ok((stamp, work_time))
    }

    /// Check out at the clock's current reading.
    pub fn do_checkout(&mut self) -> (r: Result<(Stamp, Option<Duration>), AppError>)
        ensures
            awaiting_check_in(old(self)@) ==> r == Err::<(Stamp, Option<Duration>), AppError>(
                AppError::AlreadyCheckedOut,
            ),
            match r {
                Ok((stamp, work_time)) => {
                    &&& stamped(old(self)@, InOut::Out, stamp.date) == Ok::<Stamp, AppError>(stamp)
                    &&& final(self)@ == old(self)@.push(stamp)
                    &&& work_time matches Some(d) && d@ == span_between(
                        old(self)@.last().date@,
                        stamp.date@,
                    )
                },
                Err(e) => {
                    &&& final(self)@ == old(self)@
                    &&& e == AppError::ClockOutOfRange || forall|now: Timestamp|
                        #[trigger] stamped(old(self)@, InOut::Out, now) == Err::<Stamp, AppError>(
                            e,
                        )
                },
            },
    {
        proof {
            use_type_invariant(&self.conn);
        }
        match Stamp::last(&self.conn) {
            Some(last_stamp) => {
                if last_stamp.in_out == InOut::Out {
                    return Err(AppError::AlreadyCheckedOut);
                }
            },
            None => {
                return Err(AppError::AlreadyCheckedOut);
            },
        }
        match Timestamp::now() {
            Some(now) => self.do_checkout_at(now),
            None => Err(AppError::ClockOutOfRange),
        }
    }

    /// Get total worked time since given date `from`.
    pub fn get_total_from(&self, from: &Timestamp) -> (total: Duration)
        ensures
            total@ == total_from(self@, from@),
    {
        proof {
            use_type_invariant(self);
            use_type_invariant(&self.conn);
        }
        // Get first stamp after given date; if there is none, return zero
        let first = match Stamp::get_after(&self.conn, from) {
            Ok(s) => s,
            Err(_) => { return Duration { nanos: 0 }; },
        };
        proof {
            lemma_first_at_or_after(self@, from@, 0);
            lemma_run_from_bound(self@, first.id as int);
        }
        // Iterate on all stamps from there and sum the total
        let mut it = first.iter(&self.conn);
        let ghost run = it.remaining();
        let ghost mut seen: Seq<Stamp> = Seq::empty();
        let mut total: i128 = 0;
        let mut possible_last: Option<Stamp> = None;
        let mut next = it.next();
        while next.is_some()
            invariant
                run.len() <= i64::MAX,
                next == if seen.len() < run.len() {
                    Some(run[seen.len() as int])
                } else {
                    None
                },
                seen.len() <= run.len(),
                seen == run.subrange(0, seen.len() as int),
                it.remaining() == run.subrange(
                    if seen.len() < run.len() {
                        seen.len() as int + 1
                    } else {
                        seen.len() as int
                    },
                    run.len() as int,
                ),
                possible_last == if seen.len() > 0 {
                    Some(seen.last())
                } else {
                    None
                },
                total == worked(seen),
                -(seen.len() * u64::MAX) <= total <= seen.len() * u64::MAX,
            decreases run.len() - seen.len(),
        {
            let stamp = next.unwrap();
            let ghost grown = seen.push(stamp);
            proof {
                assert(grown.drop_last() =~= seen);
                assert(grown =~= run.subrange(0, seen.len() as int + 1));
            }
            if let Some(l) = possible_last {
                if l.in_out == InOut::In && stamp.in_out == InOut::Out {
                    total = total + stamp.date.since(&l.date).nanos;
                }
            }
            possible_last = Some(stamp);
            proof {
                seen = grown;
            }
            next = it.next();
            proof {
                let rest = run.subrange(seen.len() as int, run.len() as int);
                if seen.len() < run.len() {
                    assert(rest.drop_first() =~= run.subrange(
                        seen.len() as int + 1,
                        run.len() as int,
                    ));
                }
            }
        }
        proof {
            assert(seen =~= run);
        }
        Duration { nanos: total }
    }
}

/// The totals of `resume` are those of the records `s` since the instants
/// that it names; the week's total is left out exactly when it equals the
/// day's.
pub open spec fn totals_of(s: Seq<Stamp>, resume: Resume) -> bool {
    &&& resume.day_total@ == total_from(s, resume.begin_of_day@)
    &&& match resume.week_total {
        Some(week_total) => week_total@ == total_from(s, resume.begin_of_week@) && week_total@
            != resume.day_total@,
        None => total_from(s, resume.begin_of_week@) == resume.day_total@,
    }
}

impl App {
    /// The summary at the instant `now`: the time worked since the
    /// beginning of the day and of the week that hold `now`. Fails only
    /// where one of these two instants is earlier than every timestamp.
    pub fn resume_at(&self, now: &Timestamp) -> (r: Result<Resume, AppError>)
        ensures
            match r {
                Ok(resume) => {
                    &&& representable(day_floor(now@)) == Some(resume.begin_of_day@)
                    &&& representable(week_floor(now@)) == Some(resume.begin_of_week@)
                    &&& totals_of(self@, resume)
                },
                Err(e) => {
                    &&& e == AppError::ClockOutOfRange
                    &&& representable(day_floor(now@)) is None || representable(
                        week_floor(now@),
                    ) is None
                },
            },
    {
        let begin_of_day = match now.beginning_of_day() {
            Some(t) => t,
            None => { return Err(AppError::ClockOutOfRange); },
        };
        let day_total = self.get_total_from(&begin_of_day);
        // Don't show week total when it says the same as the day's
        let begin_of_week = match now.beginning_of_week() {
            Some(t) => t,
            None => { return Err(AppError::ClockOutOfRange); },
        };
        let week_total = self.get_total_from(&begin_of_week);
        let shown = if week_total.nanos != day_total.nanos {
            Some(week_total)
        } else {
            None
        };
        Ok(Resume { begin_of_day, day_total, begin_of_week, week_total: shown })
    }

    /// The summary at the clock's current reading.
    pub fn do_list(&self) -> (r: Result<Resume, AppError>)
        ensures
            match r {
                Ok(resume) => {
                    &&& day_floor(resume.begin_of_day@) == resume.begin_of_day@
                    &&& week_floor(resume.begin_of_day@) == resume.begin_of_week@
                    &&& totals_of(self@, resume)
                },
                Err(e) => e == AppError::ClockOutOfRange,
            },
    {
        match Timestamp::now() {
            Some(now) => {
                proof {
                    lemma_floors_of_midnight(now@);
                }
                self.resume_at(&now)
            },
            None => Err(AppError::ClockOutOfRange),
        }
    }
}

/// The name of the store's file: `prod.sqlite` inside the data directory
/// or, without a data directory, `test.sqlite` in the working directory.
pub open spec fn db_file(data_dir: Option<Seq<char>>) -> Seq<char> {
    match data_dir {
        Some(dir) => if dir.len() == 0 || dir.last() == '/' {
            dir + "prod.sqlite"@
        } else {
            dir + "/"@ + "prod.sqlite"@
        },
        None => "test.sqlite"@,
    }
}

/// The name of the file that holds the store. With a data directory it is
/// the file `prod.sqlite` inside it; without one, as in a development run,
/// it is `test.sqlite` in the working directory.
pub fn get_db_file(data_dir: Option<&str>) -> (path: String)
    ensures
        path@ == db_file(
            match data_dir {
                Some(dir) => Some(dir@),
                None => None,
            },
        ),
{
    match data_dir {
        Some(dir) => {
            let mut path = String::from_str(dir);
            let n = dir.unicode_len();
            if n > 0 && dir.get_char(n - 1) != '/' {
                path.append("/");
            }
            path.append("prod.sqlite");
            path
        },
        None => String::from_str("test.sqlite"),
    }
}

/// The direction of the call number `n`, counted from 0, in a series of
/// alternating calls that starts with a check-in.
pub open spec fn nth_direction(n: int) -> InOut {
    if n % 2 == 0 {
        InOut::In
    } else {
        InOut::Out
    }
}

/// The records after a series of alternating calls, a check-in first, made
/// at the instants `times`.
pub open spec fn alternated(s: Seq<Stamp>, times: Seq<Timestamp>) -> Seq<Stamp>
    decreases times.len(),
{
    if times.len() == 0 {
        s
    } else {
        let before = alternated(s, times.drop_last());
        recorded(before, stamped(before, nth_direction(times.len() - 1), times.last()))
    }
}

/// Alternating calls alternate directions: from a ledger that awaits a
/// check-in, and while identities last, every call of an alternating series
/// succeeds, and call number `n` appends one stamp of its direction, a
/// check-in first.
pub proof fn lemma_alternating_calls(s: Seq<Stamp>, times: Seq<Timestamp>)
    requires
        well_ordered(s),
        awaiting_check_in(s),
        next_id(s) + times.len() <= i64::MAX + 1,
    ensures
        well_ordered(alternated(s, times)),
        alternated(s, times).len() == s.len() + times.len(),
        alternated(s, times).subrange(0, s.len() as int) == s,
        next_id(alternated(s, times)) == next_id(s) + times.len(),
        accepts(alternated(s, times), nth_direction(times.len() as int)),
        forall|i: int|
            s.len() <= i < s.len() + times.len() ==> #[trigger] alternated(s, times)[i] == (Stamp {
                id: (next_id(s) + (i - s.len())) as i64,
                date: times[i - s.len()],
                in_out: nth_direction(i - s.len()),
            }),
    decreases times.len(),
{
    let out = alternated(s, times);
    if times.len() == 0 {
        assert(out.subrange(0, s.len() as int) =~= s);
    } else {
        let earlier = times.drop_last();
        let before = alternated(s, earlier);
        lemma_alternating_calls(s, earlier);
        let n = times.len() - 1;
        let stamp = Stamp {
            id: (next_id(s) + n) as i64,
            date: times.last(),
            in_out: nth_direction(n),
        };
        assert(stamped(before, nth_direction(n), times.last()) == Ok::<Stamp, AppError>(stamp));
        assert(out == before.push(stamp));
        lemma_push_well_ordered(before, stamp);
        assert(out.subrange(0, s.len() as int) =~= before.subrange(0, s.len() as int));
        assert forall|i: int| s.len() <= i < s.len() + times.len() implies #[trigger] out[i] == (
        Stamp {
            id: (next_id(s) + (i - s.len())) as i64,
            date: times[i - s.len()],
            in_out: nth_direction(i - s.len()),
        }) by {
            if i < s.len() + n {
                assert(out[i] == before[i]);
                assert(earlier[i - s.len()] == times[i - s.len()]);
            }
        }
    }
}

/// The same call twice in a row: after a call that succeeded, the same call
/// is rejected with the error of its direction, and leaves the records as
/// they are.
pub proof fn lemma_repeated_call_rejected(
    s: Seq<Stamp>,
    direction: InOut,
    first: Timestamp,
    second: Timestamp,
)
    requires
        stamped(s, direction, first) is Ok,
    ensures
        ({
            let after = recorded(s, stamped(s, direction, first));
            &&& after.len() == s.len() + 1
            &&& stamped(after, direction, second) == Err::<Stamp, AppError>(rejection(direction))
            &&& recorded(after, stamped(after, direction, second)) == after
        }),
{
}

/// No adjacent check-in and check-out run backwards in time.
pub open spec fn forward(s: Seq<Stamp>) -> bool {
    forall|i: int| 0 <= i < s.len() - 1 ==> interval(#[trigger] s[i], s[i + 1]) >= 0
}

/// Timestamps never decrease along the records.
pub open spec fn chronological(s: Seq<Stamp>) -> bool {
    forall|i: int, j: int|
        0 <= i <= j < s.len() ==> (#[trigger] s[i]).date@ <= (#[trigger] s[j]).date@
}

/// The total is zero on an empty ledger.
pub proof fn lemma_total_of_empty(from: int)
    ensures
        total_from(Seq::<Stamp>::empty(), from) == 0,
{
}

/// The total is zero from an instant that is after every record.
pub proof fn lemma_total_after_all(s: Seq<Stamp>, from: int)
    requires
        forall|i: int| 0 <= i < s.len() ==> (#[trigger] s[i]).date@ < from,
    ensures
        total_from(s, from) == 0,
{
    lemma_first_at_or_after(s, from, 0);
}

/// In a ledger whose timestamps never decrease, the total is zero from an
/// instant that is after the last record's timestamp.
pub proof fn lemma_total_after_last(s: Seq<Stamp>, from: int)
    requires
        chronological(s),
        s.len() > 0,
        s.last().date@ < from,
    ensures
        total_from(s, from) == 0,
{
    assert forall|i: int| 0 <= i < s.len() implies (#[trigger] s[i]).date@ < from by {
        assert(s[i].date@ <= s[s.len() - 1].date@);
    }
    lemma_total_after_all(s, from);
}

/// The time worked along the records `a..c` is that along `a..=b` plus that
/// along `b..c`.
pub proof fn lemma_worked_split(s: Seq<Stamp>, a: int, b: int, c: int)
    requires
        0 <= a <= b < c <= s.len(),
    ensures
        worked(s.subrange(a, c)) == worked(s.subrange(a, b + 1)) + worked(s.subrange(b, c)),
    decreases c - b,
{
    if c == b + 1 {
        assert(worked(s.subrange(b, c)) == 0);
    } else {
        lemma_worked_split(s, a, b, c - 1);
        assert(s.subrange(a, c).drop_last() =~= s.subrange(a, c - 1));
        assert(s.subrange(b, c).drop_last() =~= s.subrange(b, c - 1));
    }
}

/// Where no adjacent check-in and check-out run backwards in time, the time
/// worked along any stretch of the records is not negative.
pub proof fn lemma_worked_not_negative(s: Seq<Stamp>, a: int, c: int)
    requires
        forward(s),
        0 <= a <= c <= s.len(),
    ensures
        worked(s.subrange(a, c)) >= 0,
    decreases c - a,
{
    if c - a >= 2 {
        lemma_worked_not_negative(s, a, c - 1);
        assert(s.subrange(a, c).drop_last() =~= s.subrange(a, c - 1));
        assert(interval(s[c - 2], s[c - 2 + 1]) >= 0);
    }
}

/// The total does not grow as the start moves later: in a ledger with
/// contiguous identities in which no adjacent check-in and check-out run
/// backwards in time, a later start gives a total that is not larger.
pub proof fn lemma_total_non_increasing(s: Seq<Stamp>, from: int, later: int)
    requires
        well_ordered(s),
        contiguous(s),
        forward(s),
        from <= later,
    ensures
        total_from(s, later) <= total_from(s, from),
{
    let n = s.len() as int;
    let k1 = first_at_or_after(s, from, 0);
    let k2 = first_at_or_after(s, later, 0);
    lemma_first_at_or_after(s, from, 0);
    lemma_first_at_or_after(s, later, 0);
    if k1 < n {
        lemma_run_stops_at_gap(s, k1, n - 1);
        lemma_worked_not_negative(s, k1, n);
    }
    if k2 < n {
        assert(k1 <= k2) by {
            if k2 < k1 {
                assert(s[k2].date@ < from);
            }
        }
        lemma_run_stops_at_gap(s, k2, n - 1);
        lemma_worked_split(s, k1, k2, n);
        lemma_worked_not_negative(s, k1, k2 + 1);
    }
}

/// The time of the sessions that alternating calls at the instants `times`
/// record: the sum of the spans from each check-in to the check-out that
/// follows it. The time between a check-out and the next check-in does not
/// count.
pub open spec fn sessions_time(times: Seq<Timestamp>) -> int
    decreases times.len(),
{
    if times.len() < 2 {
        0
    } else {
        sessions_time(times.drop_last()) + if times.len() % 2 == 0 {
            times.last()@ - times[times.len() - 2]@
        } else {
            0
        }
    }
}

/// The time worked along the records of alternating calls on an empty
/// ledger is the time of their sessions.
pub proof fn lemma_worked_of_sessions(times: Seq<Timestamp>)
    requires
        times.len() <= i64::MAX,
    ensures
        worked(alternated(Seq::empty(), times)) == sessions_time(times),
    decreases times.len(),
{
    let s = alternated(Seq::<Stamp>::empty(), times);
    lemma_alternating_calls(Seq::empty(), times);
    if times.len() >= 2 {
        let n = times.len() as int;
        let earlier = times.drop_last();
        let before = alternated(Seq::<Stamp>::empty(), earlier);
        lemma_alternating_calls(Seq::empty(), earlier);
        lemma_worked_of_sessions(earlier);
        assert(s[n - 1].date == times[n - 1]);
        assert(s[n - 2].date == times[n - 2]);
        assert(s.drop_last() =~= before) by {
            assert forall|i: int| 0 <= i < n - 1 implies s[i] == before[i] by {
                assert(s[i].date == times[i]);
                assert(before[i].date == earlier[i]);
            }
        }
    }
}

/// Full cycles: after alternating calls on an empty ledger, the total since
/// an instant that is not after the first call is the time of the sessions,
/// whatever time lies between them.
pub proof fn lemma_total_of_sessions(times: Seq<Timestamp>, from: int)
    requires
        times.len() <= i64::MAX,
        times.len() > 0 ==> from <= times[0]@,
    ensures
        total_from(alternated(Seq::empty(), times), from) == sessions_time(times),
{
    let s = alternated(Seq::<Stamp>::empty(), times);
    lemma_alternating_calls(Seq::empty(), times);
    lemma_worked_of_sessions(times);
    if times.len() > 0 {
        assert(s[0].date == times[0]);
        assert(first_at_or_after(s, from, 0) == 0);
        assert(contiguous(s)) by {
            assert forall|i: int| 0 <= i < s.len() - 1 implies (#[trigger] s[i + 1]).id == s[i].id
                + 1 by {
                assert(s[i + 1].id == 1 + (i + 1));
                assert(s[i].id == 1 + i);
            }
        }
        lemma_run_visits_all(s);
    }
}

} // verus!
