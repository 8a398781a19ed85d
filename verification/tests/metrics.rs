use piano_midi::event::{sessions, Event, Message};
use piano_midi::metrics::PianoMetrics;
use std::collections::BTreeMap;
use std::time::Duration;

const S: u64 = 1_000_000_000;

fn note_on(t_mono_ns: u64, note: u8, vel: u16) -> Event {
    Event {
        t_mono_ns,
        t_wall: "2026-07-11T21:30:00+09:00".into(),
        src: "24:0".into(),
        group: 0,
        msg: Message::NoteOn { ch: 0, note, vel },
    }
}

fn note_off(t_mono_ns: u64, note: u8) -> Event {
    Event {
        t_mono_ns,
        t_wall: "2026-07-11T21:30:00+09:00".into(),
        src: "24:0".into(),
        group: 0,
        msg: Message::NoteOff { ch: 0, note, vel: 0 },
    }
}

#[derive(Default)]
struct Totals {
    keys: BTreeMap<String, u64>,
    velocities: Vec<f64>,
    session: f64,
}

fn observe_all(events: &[Event], gap: Duration) -> Totals {
    let mut piano = PianoMetrics::new(gap.as_nanos());
    let mut totals = Totals::default();
    for event in events {
        let seen = piano.observe(event);
        if let Some(ns) = seen.session_ns {
            totals.session += ns as f64 / 1e9;
        }
        if let Some(key) = seen.keystroke {
            *totals.keys.entry(key.note).or_default() += 1;
            totals.velocities.push(f64::from(key.vel));
        }
    }
    totals
}

#[test]
fn keystroke_rules() {
    let totals = observe_all(
        &[
            note_on(0, 21, 55),
            note_on(S, 21, 60),
            note_on(2 * S, 108, 127),
            note_on(3 * S, 60, 0), // note-off convention: not a keystroke
            note_off(4 * S, 21),
        ],
        Duration::from_secs(300),
    );

    assert_eq!(totals.keys.values().sum::<u64>(), 3);

    // Keys are labeled by zero-padded note number.
    let keys: Vec<(String, u64)> = totals.keys.into_iter().collect();
    assert_eq!(keys, vec![("021".to_string(), 2), ("108".to_string(), 1)]);

    assert_eq!(totals.velocities.len(), 3);
    assert_eq!(totals.velocities.iter().sum::<f64>(), 55.0 + 60.0 + 127.0);
    // 55 and 60 fall in (48, 64]; 127 in (112, +inf).
    let mut buckets = vec![0u64; 8];
    for v in totals.velocities {
        let boundaries = [16.0, 32.0, 48.0, 64.0, 80.0, 96.0, 112.0];
        buckets[boundaries.iter().filter(|b| v > **b).count()] += 1;
    }
    assert_eq!(buckets, vec![0, 0, 0, 2, 0, 0, 0, 1]);
}

#[test]
fn session_gap_and_reboot_rules() {
    let gap = Duration::from_secs(300);
    let totals = observe_all(
        &[
            note_on(0, 21, 55),
            note_on(2 * S, 21, 55),   // +2s
            note_on(400 * S, 23, 55), // gap > 300s: new session, no add
            note_on(403 * S, 23, 55), // +3s
            note_on(10 * S, 24, 55),  // backwards = reboot: no add
            note_on(11 * S, 24, 55),  // +1s
        ],
        gap,
    );
    assert_eq!(totals.session, 6.0);
}

#[test]
fn session_seconds_match_sessions_view() {
    let gap = Duration::from_secs(300);
    let events: Vec<Event> = [
        0,
        S,
        5 * S,
        400 * S, // gap boundary
        401 * S,
        420 * S,
        90 * S, // reboot boundary
        95 * S,
    ]
    .iter()
    .map(|&t| note_on(t, 60, 80))
    .collect();

    let expected: f64 = sessions(&events, gap.as_nanos())
        .iter()
        .map(|s| (s.last().unwrap().t_mono_ns - s.first().unwrap().t_mono_ns) as f64 / 1e9)
        .sum();

    assert_eq!(observe_all(&events, gap).session, expected);
}

#[test]
fn labels_sort_as_pitches() {
    let mut piano = PianoMetrics::new(0);
    let labels: Vec<String> = (0..=255u8)
        .map(|note| piano.observe(&note_on(0, note, 1)).keystroke.unwrap().note)
        .collect();
    let mut sorted = labels.clone();
    sorted.sort();
    assert_eq!(labels, sorted);
    assert_eq!(labels[7], "007");
}

#[test]
fn the_first_event_adds_no_time() {
    let mut piano = PianoMetrics::new(u128::MAX);
    assert_eq!(piano.observe(&note_on(5, 21, 55)).session_ns, None);
    assert_eq!(piano.observe(&note_on(5, 21, 55)).session_ns, Some(0));
    assert!(piano.observe(&note_off(6, 21)).keystroke.is_none());
}
