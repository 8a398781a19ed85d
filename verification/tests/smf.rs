use midly::num::{u15, u24, u28, u4, u7};
use midly::{
    Format, Header, MetaMessage, MidiMessage, PitchBend, Smf, Timing, TrackEventKind,
};
use piano_midi::event::{Event, Message};
use piano_midi::smf::{can_project, project, tick_of, to_midi, Projection, TrackEvent, TrackKind, Voice};

fn ev(t_mono_ns: u64, msg: Message) -> Event {
    Event {
        t_mono_ns,
        t_wall: "2026-07-09T21:30:00Z".into(),
        src: "24:0".into(),
        group: 0,
        msg,
    }
}

fn on(sec: u64, note: u8, vel: u16) -> Event {
    ev(sec * 1_000_000_000, Message::NoteOn { ch: 0, note, vel })
}

fn off(sec: u64, note: u8, vel: u16) -> Event {
    ev(sec * 1_000_000_000, Message::NoteOff { ch: 0, note, vel })
}

fn kind(kind: TrackKind) -> TrackEventKind<'static> {
    match kind {
        TrackKind::Tempo(us) => TrackEventKind::Meta(MetaMessage::Tempo(u24::from(us))),
        TrackKind::EndOfTrack => TrackEventKind::Meta(MetaMessage::EndOfTrack),
        TrackKind::Midi { channel, message } => TrackEventKind::Midi {
            channel: u4::from(channel),
            message: match message {
                Voice::NoteOff { key, vel } => MidiMessage::NoteOff {
                    key: u7::from(key),
                    vel: u7::from(vel),
                },
                Voice::NoteOn { key, vel } => MidiMessage::NoteOn {
                    key: u7::from(key),
                    vel: u7::from(vel),
                },
                Voice::Aftertouch { key, vel } => MidiMessage::Aftertouch {
                    key: u7::from(key),
                    vel: u7::from(vel),
                },
                Voice::Controller { controller, value } => MidiMessage::Controller {
                    controller: u7::from(controller),
                    value: u7::from(value),
                },
                Voice::ProgramChange { program } => MidiMessage::ProgramChange {
                    program: u7::from(program),
                },
                Voice::ChannelAftertouch { vel } => MidiMessage::ChannelAftertouch {
                    vel: u7::from(vel),
                },
                Voice::PitchBend { bend } => MidiMessage::PitchBend {
                    bend: PitchBend(midly::num::u14::from(bend)),
                },
            },
        },
    }
}

fn file(projection: &Projection, ppq: u16) -> Vec<u8> {
    let smf = Smf {
        header: Header::new(Format::SingleTrack, Timing::Metrical(u15::from(ppq))),
        tracks: vec![projection
            .track
            .iter()
            .map(|e| midly::TrackEvent { delta: u28::from(e.delta), kind: kind(e.kind) })
            .collect()],
    };
    let mut out = Vec::new();
    smf.write(&mut out).unwrap();
    out
}

/// (delta, kind, note, vel) as read back from the projected file.
fn read_notes(mid: &[u8]) -> Vec<(u32, &'static str, u8, u8)> {
    let smf = Smf::parse(mid).expect("valid SMF");
    let mut out = Vec::new();
    for track in &smf.tracks {
        for ev in track {
            if let TrackEventKind::Midi { message, .. } = ev.kind {
                match message {
                    MidiMessage::NoteOn { key, vel } => {
                        out.push((ev.delta.as_int(), "on", key.as_int(), vel.as_int()))
                    }
                    MidiMessage::NoteOff { key, vel } => {
                        out.push((ev.delta.as_int(), "off", key.as_int(), vel.as_int()))
                    }
                    _ => {}
                }
            }
        }
    }
    out
}

#[test]
fn tick_rounding_at_120bpm_480ppq() {
    // 0.5s at 120bpm = 1 beat = 480 ticks.
    assert_eq!(tick_of(500_000_000, 480, 120), 480);
    assert_eq!(tick_of(0, 480, 120), 0);
}

#[test]
fn ticks_are_rounded_to_the_nearest() {
    // One tick is 1041666.67 ns at 120 bpm and 480 ppq.
    assert_eq!(tick_of(520_833, 480, 120), 0);
    assert_eq!(tick_of(520_834, 480, 120), 1);
    assert_eq!(tick_of(30_000_000_000, 1, 1), 1);
    assert_eq!(tick_of(29_999_999_999, 1, 1), 0);
    assert_eq!(tick_of(u64::MAX, 480, 120), 17_708_874_310_761);
}

#[test]
fn projects_dump_events_losslessly() {
    let events = [
        on(0, 21, 55),
        on(1, 23, 66),
        off(2, 21, 103),
        on(3, 24, 51),
        off(4, 23, 86),
        on(5, 26, 58),
    ];
    let projection = project(&events, None, 300, 480, 120).unwrap();
    assert_eq!(projection.skipped, 0);
    let mid = file(&projection, 480);
    assert_eq!(&mid[0..4], b"MThd", "output is a Standard MIDI File");
    // 1 s between events at 120 bpm / PPQ 480 = 960-tick deltas.
    assert_eq!(
        read_notes(&mid),
        vec![
            (0, "on", 21, 55),
            (960, "on", 23, 66),
            (960, "off", 21, 103),
            (960, "on", 24, 51),
            (960, "off", 23, 86),
            (960, "on", 26, 58),
        ]
    );
}

#[test]
fn backwards_t_mono_ns_needs_session_split() {
    let events = [on(5, 21, 55), on(1, 23, 66)];
    let e = project(&events, None, 300, 480, 120).unwrap_err();
    assert!(e.contains("backwards"));
    assert_eq!(
        e,
        "t_mono_ns goes backwards at event 2 (reboot inside the log, or inputs out of order?); project with --session instead"
    );
    // The reboot is a session boundary, so per-session projection works.
    let projection = project(&events, Some(1), 300, 480, 120).unwrap();
    assert_eq!(read_notes(&file(&projection, 480)), vec![(0, "on", 23, 66)]);
}

#[test]
fn a_session_that_is_not_there_is_reported() {
    assert_eq!(
        project(&[on(0, 1, 1)], Some(3), 300, 480, 120).unwrap_err(),
        "session 3 out of range (1 found)"
    );
    assert_eq!(project(&[], None, 300, 480, 120).unwrap_err(), "no events to project");
    assert_eq!(
        project(&[], Some(0), 300, 480, 120).unwrap_err(),
        "session 0 out of range (0 found)"
    );
}

#[test]
fn a_track_is_tempo_events_end() {
    let events = [
        on(0, 60, 1),
        ev(1, Message::Sysex { raw: "f0f7".into() }),
        on(u64::MAX / 1_000_000_000, 61, 2),
    ];
    let p = project(&events, None, 300, 480, 120).unwrap();
    assert_eq!(p.skipped, 1);
    assert_eq!(
        p.track,
        vec![
            TrackEvent { delta: 0, kind: TrackKind::Tempo(500_000) },
            TrackEvent {
                delta: 0,
                kind: TrackKind::Midi { channel: 0, message: Voice::NoteOn { key: 60, vel: 1 } },
            },
            TrackEvent {
                delta: 0x0FFF_FFFF,
                kind: TrackKind::Midi { channel: 0, message: Voice::NoteOn { key: 61, vel: 2 } },
            },
            TrackEvent { delta: 0, kind: TrackKind::EndOfTrack },
        ]
    );
    let slow = project(&[on(0, 60, 1)], None, 300, 480, 4).unwrap();
    assert_eq!(slow.track[0].kind, TrackKind::Tempo(15_000_000));
    let slower = project(&[on(0, 60, 1)], None, 300, 480, 3).unwrap();
    assert_eq!(slower.track[0].kind, TrackKind::Tempo(20_000_000 % 0x100_0000));
}

#[test]
fn deltas_add_up_to_the_tick() {
    let events: Vec<Event> = [0u64, 7, 7, 19, 100].iter().map(|&s| on(s, 60, 1)).collect();
    let p = project(&events, None, 300, 480, 120).unwrap();
    let total: u64 = p.track.iter().map(|e| u64::from(e.delta)).sum();
    assert_eq!(total, tick_of(100_000_000_000, 480, 120));
    assert_eq!(p.track.len(), events.len() + 2);
}

#[test]
fn messages_are_brought_into_range() {
    assert_eq!(
        to_midi(&Message::NoteOn { ch: 0x1F, note: 0x81, vel: 300 }),
        Some((0x0F, Voice::NoteOn { key: 0x01, vel: 127 }))
    );
    assert_eq!(
        to_midi(&Message::NoteOff { ch: 2, note: 60, vel: 64 }),
        Some((2, Voice::NoteOff { key: 60, vel: 64 }))
    );
    assert_eq!(
        to_midi(&Message::Cc { ch: 1, cc: 0xC0, val: -5 }),
        Some((1, Voice::Controller { controller: 0x40, value: 0 }))
    );
    assert_eq!(
        to_midi(&Message::Cc { ch: 1, cc: 64, val: 1000 }),
        Some((1, Voice::Controller { controller: 64, value: 127 }))
    );
    for (val, bend) in [(-8192, 0), (0, 8192), (8191, 16383), (-100_000, 0), (100_000, 16383)] {
        assert_eq!(
            to_midi(&Message::PitchBend { ch: 3, val }),
            Some((3, Voice::PitchBend { bend }))
        );
    }
    assert_eq!(
        to_midi(&Message::Program { ch: 0, prog: 0x85 }),
        Some((0, Voice::ProgramChange { program: 5 }))
    );
    assert_eq!(
        to_midi(&Message::ChannelPressure { ch: 0, val: 200 }),
        Some((0, Voice::ChannelAftertouch { vel: 127 }))
    );
    assert_eq!(
        to_midi(&Message::PolyPressure { ch: 0, note: 60, val: 40 }),
        Some((0, Voice::Aftertouch { key: 60, vel: 40 }))
    );
    assert_eq!(to_midi(&Message::Sysex { raw: "f0f7".into() }), None);
    assert_eq!(to_midi(&Message::Other { raw: "f8".into() }), None);
}

#[test]
fn ticks_that_go_backwards_have_no_track() {
    let note = |t_mono_ns: u64| ev(t_mono_ns, Message::NoteOn { ch: 0, note: 60, vel: 1 });
    let (ppq, bpm) = (32767u16, 60_000_000u32);
    let run = vec![note(0), note(500_000_000_000_000_000), note(600_000_000_000_000_000)];
    assert_eq!(tick_of(500_000_000_000_000_000, ppq, bpm), 16_383_500_000_000_000_000);
    assert_eq!(
        tick_of(600_000_000_000_000_000, ppq, bpm),
        19_660_200_000_000_000_000u128.wrapping_sub(1 << 64) as u64
    );
    assert!(!can_project(&run, None, 300, ppq, bpm));
    assert!(can_project(&run, None, 300, 480, 120));
    // What is not chosen does not matter, and an error is no track.
    assert!(can_project(&run, Some(1), 300, ppq, bpm));
    assert!(can_project(&run, Some(3), 300, ppq, bpm));
    assert!(can_project(&[], None, 300, ppq, bpm));

    let far = vec![note(0), note(600_000_000_000_000_000)];
    assert!(can_project(&far, None, 300, ppq, bpm));
    let projection = project(&far, None, 300, ppq, bpm).unwrap();
    assert_eq!(projection.track[2].delta, 0x0FFF_FFFF);
}

#[test]
fn messages_can_be_read_back() {
    let back = |(ch, voice): (u8, Voice)| match voice {
        Voice::NoteOff { key, vel } => Message::NoteOff { ch, note: key, vel: vel.into() },
        Voice::NoteOn { key, vel } => Message::NoteOn { ch, note: key, vel: vel.into() },
        Voice::Aftertouch { key, vel } => Message::PolyPressure { ch, note: key, val: vel },
        Voice::Controller { controller, value } => {
            Message::Cc { ch, cc: controller, val: value.into() }
        }
        Voice::ProgramChange { program } => Message::Program { ch, prog: program },
        Voice::ChannelAftertouch { vel } => Message::ChannelPressure { ch, val: vel },
        Voice::PitchBend { bend } => Message::PitchBend { ch, val: i32::from(bend) - 8192 },
    };
    for ch in 0..16u8 {
        for v in 0..128u8 {
            for msg in [
                Message::NoteOn { ch, note: v, vel: u16::from(127 - v) },
                Message::NoteOff { ch, note: v, vel: u16::from(127 - v) },
                Message::Cc { ch, cc: v, val: i32::from(127 - v) },
                Message::Program { ch, prog: v },
                Message::ChannelPressure { ch, val: v },
                Message::PolyPressure { ch, note: v, val: 127 - v },
            ] {
                assert_eq!(to_midi(&msg).map(back), Some(msg));
            }
        }
    }
    for val in -8192..=8191 {
        let msg = Message::PitchBend { ch: 3, val };
        assert_eq!(to_midi(&msg).map(back), Some(msg));
    }
}
