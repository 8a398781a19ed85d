use piano_midi::calendar::{is_iso_date, Date};
use piano_midi::event::{capture_path, sessions, Event, Message, SessionGap};
use std::path::Path;
use std::time::Duration;

fn ev(t_mono_ns: u64, msg: Message) -> Event {
    Event {
        t_mono_ns,
        t_wall: "2026-07-09T21:30:00Z".into(),
        src: "24:0".into(),
        group: 0,
        msg,
    }
}

fn nanos(secs: u64) -> u128 {
    Duration::from_secs(secs).as_nanos()
}

fn day(year: i32, month: u32, day: u32) -> Date {
    Date::from_ymd_opt(year, month, day).unwrap()
}

#[test]
fn capture_path_layout() {
    let p = Path::new("capture").join(capture_path(day(2026, 7, 9)));
    assert_eq!(p, Path::new("capture/2026/07/09.jsonl"));
}

#[test]
fn capture_path_pads_years_after_their_sign() {
    assert_eq!(capture_path(day(7, 12, 31)), "0007/12/31.jsonl");
    assert_eq!(capture_path(day(-5, 1, 1)), "-005/01/01.jsonl");
    assert_eq!(capture_path(day(12345, 10, 20)), "12345/10/20.jsonl");
    for year in [-12345, -999, -1, 0, 1, 999, 12345] {
        assert_eq!(capture_path(day(year, 1, 1)), format!("{year:04}/01/01.jsonl"));
    }
}

#[test]
fn sessions_split_on_gap() {
    let s = 1_000_000_000u64;
    let events = vec![
        ev(0, Message::NoteOn { ch: 0, note: 21, vel: 55 }),
        ev(s, Message::NoteOff { ch: 0, note: 21, vel: 0 }),
        // Six minutes of silence: a new session.
        ev(361 * s, Message::NoteOn { ch: 0, note: 23, vel: 66 }),
        ev(362 * s, Message::NoteOff { ch: 0, note: 23, vel: 0 }),
    ];
    let groups = sessions(&events, nanos(300));
    assert_eq!(groups.len(), 2);
    assert_eq!(groups[0].len(), 2);
    assert_eq!(groups[1].len(), 2);
}

#[test]
fn sessions_split_on_clock_regression() {
    // The clock going backwards is a reboot between the lines: always a boundary.
    let n = |t| ev(t, Message::NoteOn { ch: 0, note: 21, vel: 55 });
    let events = vec![n(100), n(200), n(50), n(60)];
    let groups = sessions(&events, nanos(300));
    assert_eq!(groups.len(), 2);
    assert_eq!(groups[0].len(), 2);
    assert_eq!(groups[1].len(), 2);
}

#[test]
fn session_gap_played_span_or_boundary() {
    let s = 1_000_000_000u64;
    let gap = SessionGap::new(nanos(300));
    assert_eq!(gap.played(0, 2 * s), Some(2 * s)); // within the gap
    assert_eq!(gap.played(0, 301 * s), None); // silence beyond the gap
    assert_eq!(gap.played(200, 100), None); // backwards step = reboot
    assert_eq!(gap.played(5, 5), Some(0)); // no advance stays in-session
}

#[test]
fn a_gap_beyond_the_clock_never_ends_a_session() {
    let gap = SessionGap::new(u128::MAX);
    assert_eq!(gap.played(0, u64::MAX), Some(u64::MAX));
    assert_eq!(gap.played(1, 0), None);
    let exact = SessionGap::new(10);
    assert_eq!(exact.played(0, 10), Some(10));
    assert_eq!(exact.played(0, 11), None);
}

#[test]
fn sessions_empty_and_single() {
    assert!(sessions(&[], nanos(300)).is_empty());
    let one = vec![ev(0, Message::NoteOn { ch: 0, note: 21, vel: 55 })];
    assert_eq!(sessions(&one, nanos(300)).len(), 1);
}

#[test]
fn sessions_run_together_are_the_events() {
    let events: Vec<Event> = [0u64, 5, 30, 31, 2, 3, 50, 50]
        .iter()
        .map(|&t| ev(t, Message::Program { ch: 0, prog: t as u8 }))
        .collect();
    let groups = sessions(&events, 10);
    assert_eq!(groups.concat(), events);
    assert_eq!(groups.iter().map(|g| g.len()).collect::<Vec<_>>(), vec![2, 2, 2, 2]);
}

#[test]
fn dates_require_ascii_digits_in_every_numeric_field() {
    assert!(is_iso_date("2024-02-29"));
    assert!(!is_iso_date("2026-+1-01"));
    assert!(!is_iso_date("2026-01-+1"));
    assert!(!is_iso_date("２０２６-01-01"));
}

#[test]
fn only_days_of_the_calendar_are_dates() {
    for good in ["2026-01-31", "2000-02-29", "0000-02-29", "2026-04-30", "9999-12-31"] {
        assert!(is_iso_date(good), "{good}");
    }
    for bad in [
        "", "2026-1-01", "2026-13-01", "2026-00-10", "2026-01-00", "2026-01-32", "2026-02-29",
        "1900-02-29", "2026-04-31", "2026/01/01", "2026-01-011", "x026-01-01", "2026-01-0é",
    ] {
        assert!(!is_iso_date(bad), "{bad}");
    }
}

#[test]
fn dates_are_checked_and_ordered() {
    assert!(Date::from_ymd_opt(2023, 2, 29).is_none());
    assert!(Date::from_ymd_opt(2023, 0, 1).is_none());
    assert!(Date::from_ymd_opt(2023, 1, 0).is_none());
    assert!(Date::from_ymd_opt(262143, 1, 1).is_none());
    assert!(Date::from_ymd_opt(-262144, 12, 31).is_none());
    assert!(Date::from_ymd_opt(-4, 2, 29).is_some());
    let a = day(2026, 7, 31);
    let b = day(2026, 8, 1);
    assert!(a.is_before(&b) && !b.is_before(&a) && !a.is_before(&a));
    assert!(a.same(&day(2026, 7, 31)) && !a.same(&b));
    assert_eq!((a.year(), a.month(), a.day()), (2026, 7, 31));
}

#[test]
fn the_day_after_follows_the_calendar() {
    assert_eq!(day(2026, 7, 30).succ_opt(), Some(day(2026, 7, 31)));
    assert_eq!(day(2026, 7, 31).succ_opt(), Some(day(2026, 8, 1)));
    assert_eq!(day(2026, 12, 31).succ_opt(), Some(day(2027, 1, 1)));
    assert_eq!(day(2024, 2, 28).succ_opt(), Some(day(2024, 2, 29)));
    assert_eq!(day(2023, 2, 28).succ_opt(), Some(day(2023, 3, 1)));
    assert_eq!(day(-1, 12, 31).succ_opt(), Some(day(0, 1, 1)));
    assert_eq!(day(262142, 12, 31).succ_opt(), None);
}
