use wtime::app::{get_db_file, App, AppError, Resume};
use wtime::db::{DbError, InOut, Ledger, Stamp};
use wtime::time::{Duration, Timestamp};

const SECOND: i64 = 1_000_000_000;

fn at(seconds: i64) -> Timestamp {
    Timestamp::from_nanos(seconds * SECOND)
}

fn span(seconds: i64) -> Duration {
    Duration { nanos: seconds as i128 * SECOND as i128 }
}

fn epoch() -> Timestamp {
    Timestamp::from_nanos(0)
}

fn empty_app() -> App {
    App::new(Ledger::new()).unwrap()
}

fn app_of(stamps: &[(i64, InOut)]) -> App {
    let mut ledger = Ledger::new();
    Stamp::create(&mut ledger).unwrap();
    for (seconds, direction) in stamps {
        Stamp::new(0, at(*seconds), *direction).insert(&mut ledger).unwrap();
    }
    App::new(ledger).unwrap()
}

#[test]
fn new_creates_the_relation() {
    let app = empty_app();
    assert!(app.ledger().created());
    assert_eq!(app.ledger().len(), 0);
    let app = app_of(&[(1, InOut::In)]);
    assert_eq!(app.ledger().len(), 1);
}

#[test]
fn session_scenario() {
    let mut app = empty_app();
    assert_eq!(app.do_checkout_at(at(5)), Err(AppError::AlreadyCheckedOut));
    assert_eq!(app.ledger().len(), 0);

    let checkin = app.do_checkin_at(at(10)).unwrap();
    assert_eq!(checkin, Stamp::new(1, at(10), InOut::In));
    assert_eq!(app.ledger().len(), 1);
    assert_eq!(Stamp::last(app.ledger()).unwrap().in_out, InOut::In);

    assert_eq!(app.do_checkin_at(at(11)), Err(AppError::AlreadyCheckedIn));
    assert_eq!(app.ledger().len(), 1);

    let (checkout, work_time) = app.do_checkout_at(at(3_610)).unwrap();
    assert_eq!(checkout, Stamp::new(2, at(3_610), InOut::Out));
    assert_eq!(work_time, Some(span(3_600)));
    assert_eq!(app.ledger().len(), 2);

    assert_eq!(app.get_total_from(&epoch()), checkout.date.since(&checkin.date));
    assert_eq!(app.get_total_from(&epoch()), span(3_600));
}

#[test]
fn session_scenario_on_the_clock() {
    let mut app = empty_app();
    assert_eq!(app.do_checkout(), Err(AppError::AlreadyCheckedOut));
    let checkin = app.do_checkin().unwrap();
    assert_eq!(checkin.id, 1);
    assert_eq!(checkin.in_out, InOut::In);
    assert_eq!(app.do_checkin(), Err(AppError::AlreadyCheckedIn));
    assert_eq!(app.ledger().len(), 1);
    let (checkout, work_time) = app.do_checkout().unwrap();
    assert_eq!(checkout.id, 2);
    assert_eq!(checkout.in_out, InOut::Out);
    assert_eq!(work_time, Some(checkin.delta(&checkout)));
    assert_eq!(app.do_checkout(), Err(AppError::AlreadyCheckedOut));
    assert_eq!(app.ledger().len(), 2);
    assert_eq!(app.get_total_from(&epoch()), checkout.date.since(&checkin.date));
}

#[test]
fn ten_cycles() {
    let mut app = empty_app();
    let mut expected: i64 = 0;
    let mut clock: i64 = 1_000;
    for cycle in 0..10 {
        app.do_checkin_at(at(clock)).unwrap();
        let worked = 60 * (cycle + 1);
        clock += worked;
        app.do_checkout_at(at(clock)).unwrap();
        expected += worked;
        // a gap of varying length between the cycles
        clock += 1_000 * (cycle + 1);
    }
    let first = Stamp::first(app.ledger()).unwrap();
    let mut it = first.iter(app.ledger());
    let mut count = 0;
    while let Some(stamp) = it.next() {
        count += 1;
        assert_eq!(stamp.id, count);
        assert_eq!(stamp.in_out, if count % 2 == 1 { InOut::In } else { InOut::Out });
    }
    assert_eq!(count, 20);
    assert_eq!(expected, 60 * 55);
    assert_eq!(app.get_total_from(&epoch()), span(expected));
}

#[test]
fn calls_alternate() {
    let mut app = empty_app();
    for n in 0..7 {
        let now = at(10 * n);
        if n % 2 == 0 {
            assert_eq!(app.do_checkin_at(now), Ok(Stamp::new(n + 1, now, InOut::In)));
            assert_eq!(app.do_checkin_at(now), Err(AppError::AlreadyCheckedIn));
        } else {
            let (stamp, _) = app.do_checkout_at(now).unwrap();
            assert_eq!(stamp, Stamp::new(n + 1, now, InOut::Out));
            assert_eq!(app.do_checkout_at(now), Err(AppError::AlreadyCheckedOut));
        }
        assert_eq!(app.ledger().len() as i64, n + 1);
    }
}

#[test]
fn total_is_zero_without_a_closed_interval() {
    assert_eq!(empty_app().get_total_from(&epoch()), span(0));
    let app = app_of(&[(10, InOut::In)]);
    assert_eq!(app.get_total_from(&epoch()), span(0));
    let app = app_of(&[(10, InOut::Out), (20, InOut::In)]);
    assert_eq!(app.get_total_from(&epoch()), span(0));
    let app = App::new(Ledger::new()).unwrap();
    assert_eq!(app.get_total_from(&at(i64::MIN / SECOND)), span(0));
}

#[test]
fn total_is_zero_after_the_last_stamp() {
    let app = app_of(&[(10, InOut::In), (20, InOut::Out), (30, InOut::In), (45, InOut::Out)]);
    assert_eq!(app.get_total_from(&at(46)), span(0));
    assert_eq!(app.get_total_from(&at(45)), span(0));
    assert_eq!(app.get_total_from(&Timestamp::from_nanos(i64::MAX)), span(0));
}

#[test]
fn total_shrinks_as_the_start_moves_later() {
    let app = app_of(&[(10, InOut::In), (20, InOut::Out), (30, InOut::In), (45, InOut::Out)]);
    assert_eq!(app.get_total_from(&at(0)), span(25));
    assert_eq!(app.get_total_from(&at(10)), span(25));
    // the first check-in is out of the window: its interval no longer counts
    assert_eq!(app.get_total_from(&at(11)), span(15));
    assert_eq!(app.get_total_from(&at(20)), span(15));
    assert_eq!(app.get_total_from(&at(30)), span(15));
    assert_eq!(app.get_total_from(&at(31)), span(0));
    let mut last = app.get_total_from(&at(0));
    for seconds in 0..50 {
        let total = app.get_total_from(&at(seconds));
        assert!(total.nanos <= last.nanos);
        last = total;
    }
}

#[test]
fn total_counts_only_check_in_then_check_out() {
    // In, In, Out, Out, In: only the pair (In at 20, Out at 50) counts
    let app = app_of(&[
        (10, InOut::In),
        (20, InOut::In),
        (50, InOut::Out),
        (70, InOut::Out),
        (90, InOut::In),
    ]);
    assert_eq!(app.get_total_from(&epoch()), span(30));
}

#[test]
fn total_keeps_the_sign_of_a_backward_interval() {
    let app = app_of(&[(100, InOut::In), (40, InOut::Out)]);
    assert_eq!(app.get_total_from(&epoch()), span(-60));
    // the window starts at the first stamp that is not before its start
    assert_eq!(app.get_total_from(&at(50)), span(-60));
}

#[test]
fn total_stops_at_a_gap() {
    let mut ledger = Ledger::new();
    Stamp::create(&mut ledger).unwrap();
    for (seconds, direction) in
        [(10, InOut::In), (20, InOut::Out), (30, InOut::In), (40, InOut::In), (100, InOut::Out)]
    {
        Stamp::new(0, at(seconds), direction).insert(&mut ledger).unwrap();
    }
    Stamp::new(3, at(0), InOut::In).delete(&mut ledger).unwrap();
    let app = App::new(ledger).unwrap();
    assert_eq!(app.get_total_from(&epoch()), span(10));
    assert_eq!(app.get_total_from(&at(21)), span(60));
}

#[test]
fn total_of_the_widest_interval() {
    let mut ledger = Ledger::new();
    Stamp::create(&mut ledger).unwrap();
    Stamp::new(0, Timestamp::from_nanos(i64::MIN), InOut::In).insert(&mut ledger).unwrap();
    Stamp::new(0, Timestamp::from_nanos(i64::MAX), InOut::Out).insert(&mut ledger).unwrap();
    let app = App::new(ledger).unwrap();
    assert_eq!(
        app.get_total_from(&Timestamp::from_nanos(i64::MIN)),
        Duration { nanos: u64::MAX as i128 }
    );
}

#[test]
fn check_in_fails_when_identities_run_out() {
    let mut ledger = Ledger::new();
    Stamp::create(&mut ledger).unwrap();
    ledger.restore(Stamp::new(i64::MAX, at(1), InOut::Out)).unwrap();
    let mut app = App::new(ledger).unwrap();
    assert_eq!(app.do_checkin_at(at(2)), Err(AppError::Db(DbError::SqLiteError)));
    assert_eq!(app.do_checkout_at(at(2)), Err(AppError::AlreadyCheckedOut));
    assert_eq!(app.ledger().len(), 1);
}

#[test]
fn resume_of_a_wednesday() {
    // Monday 2019-12-30: 08:00 to 12:00; Wednesday 2020-01-01: 08:00 to 10:15:20
    let monday = 1_577_664_000;
    let wednesday = 1_577_836_800;
    let app = app_of(&[
        (monday + 8 * 3_600, InOut::In),
        (monday + 12 * 3_600, InOut::Out),
        (wednesday + 8 * 3_600, InOut::In),
        (wednesday + 10 * 3_600 + 15 * 60 + 20, InOut::Out),
    ]);
    let resume = app.resume_at(&at(wednesday + 11 * 3_600)).unwrap();
    assert_eq!(
        resume,
        Resume {
            begin_of_day: at(wednesday),
            day_total: span(2 * 3_600 + 15 * 60 + 20),
            begin_of_week: at(monday),
            week_total: Some(span(6 * 3_600 + 15 * 60 + 20)),
        }
    );
}

#[test]
fn resume_leaves_out_a_week_total_equal_to_the_day_total() {
    let monday = 1_577_664_000;
    let app = app_of(&[(monday + 8 * 3_600, InOut::In), (monday + 12 * 3_600, InOut::Out)]);
    let resume = app.resume_at(&at(monday + 13 * 3_600)).unwrap();
    assert_eq!(resume.begin_of_day, at(monday));
    assert_eq!(resume.begin_of_week, at(monday));
    assert_eq!(resume.day_total, span(4 * 3_600));
    assert_eq!(resume.week_total, None);
    // on a later day of a week without further work both totals are zero
    let resume = app.resume_at(&at(monday + 8 * 86_400)).unwrap();
    assert_eq!(resume.day_total, span(0));
    assert_eq!(resume.week_total, None);
}

#[test]
fn resume_fails_before_the_first_timestamp() {
    let app = empty_app();
    assert_eq!(
        app.resume_at(&Timestamp::from_nanos(i64::MIN)),
        Err(AppError::ClockOutOfRange)
    );
}

#[test]
fn list_sums_since_the_instants_it_names() {
    let mut app = empty_app();
    app.do_checkin().unwrap();
    app.do_checkout().unwrap();
    let resume = app.do_list().unwrap();
    assert_eq!(resume.day_total, app.get_total_from(&resume.begin_of_day));
    assert!(resume.begin_of_week.nanos <= resume.begin_of_day.nanos);
    assert_eq!(resume.week_total, None);
}

#[test]
fn store_file_name() {
    assert_eq!(get_db_file(None), "test.sqlite");
    assert_eq!(get_db_file(Some("/home/me/.local/share/wtime")), "/home/me/.local/share/wtime/prod.sqlite");
    assert_eq!(get_db_file(Some("/data/")), "/data/prod.sqlite");
    assert_eq!(get_db_file(Some("")), "prod.sqlite");
    assert_eq!(get_db_file(Some("/")), "/prod.sqlite");
}
