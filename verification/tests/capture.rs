use piano_midi::capture::Input as Capture;
use piano_midi::capture::{
    duration_ns, monotonic_ns, record, source_of, to_message, Action, Attachment, Clock, Ctrl, Note, SeqEvent,
};
use piano_midi::event::Message;
use piano_midi::ports::{
    addr_text, device_of_lowered, find_device, find_source, port_alive, source_of_lowered, Addr,
    Client, Port,
};
use piano_midi::seq::{not_found, poll_millis, FrameBatch, Input, Session, Turn};
use piano_midi::text::{contains, is_white_space};

fn port(id: i32, name: &str, caps: &str) -> Port {
    Port {
        id,
        name: name.into(),
        read: caps.contains('r'),
        subs_read: caps.contains('R'),
        write: caps.contains('w'),
        subs_write: caps.contains('W'),
    }
}

fn client(id: i32, name: &str, ports: Vec<Port>) -> Client {
    Client { id, name: name.into(), ports }
}

fn addr(client: i32, port: i32) -> Addr {
    Addr { client, port }
}

fn piano() -> Vec<Client> {
    vec![
        client(0, "System", vec![port(0, "Timer", "rR"), port(1, "Announce", "rR")]),
        client(14, "Midi Through", vec![port(0, "Midi Through Port-0", "rRwW")]),
        client(24, "Roland Digital Piano", vec![port(0, "MIDI 1", "rRwW")]),
    ]
}

#[test]
fn notes_are_recorded_as_they_came() {
    let n = Note { channel: 3, note: 60, velocity: 0 };
    assert_eq!(
        to_message(&SeqEvent::Noteon(n)),
        Some(Message::NoteOn { ch: 3, note: 60, vel: 0 })
    );
    assert_eq!(
        to_message(&SeqEvent::Noteoff(n)),
        Some(Message::NoteOff { ch: 3, note: 60, vel: 0 })
    );
    assert_eq!(
        to_message(&SeqEvent::Keypress(n)),
        Some(Message::PolyPressure { ch: 3, note: 60, val: 0 })
    );
}

#[test]
fn values_that_no_wire_carries_are_dropped() {
    let c = |param, value| Ctrl { channel: 1, param, value };
    assert_eq!(
        to_message(&SeqEvent::Controller(c(64, 127))),
        Some(Message::Cc { ch: 1, cc: 64, val: 127 })
    );
    assert_eq!(
        to_message(&SeqEvent::Controller(c(127, 0))),
        Some(Message::Cc { ch: 1, cc: 127, val: 0 })
    );
    assert_eq!(to_message(&SeqEvent::Controller(c(7, 300))), None);
    assert_eq!(to_message(&SeqEvent::Controller(c(127, 128))), None);
    assert_eq!(to_message(&SeqEvent::Controller(c(127, -3))), None);
    assert_eq!(to_message(&SeqEvent::Controller(c(128, 0))), None);
    assert_eq!(to_message(&SeqEvent::Controller(c(u32::MAX, 0))), None);
    assert_eq!(
        to_message(&SeqEvent::Pgmchange(c(0, 5))),
        Some(Message::Program { ch: 1, prog: 5 })
    );
    assert_eq!(to_message(&SeqEvent::Pgmchange(c(0, 128))), None);
    assert_eq!(to_message(&SeqEvent::Pgmchange(c(0, -1))), None);
    assert_eq!(
        to_message(&SeqEvent::Chanpress(c(0, 127))),
        Some(Message::ChannelPressure { ch: 1, val: 127 })
    );
    assert_eq!(to_message(&SeqEvent::Chanpress(c(0, 256))), None);
    assert_eq!(
        to_message(&SeqEvent::Pitchbend(c(0, -8192))),
        Some(Message::PitchBend { ch: 1, val: -8192 })
    );
    assert_eq!(
        to_message(&SeqEvent::Pitchbend(c(0, 8191))),
        Some(Message::PitchBend { ch: 1, val: 8191 })
    );
    // A bend is no 7-bit value, and is recorded as it came.
    for bend in [10_000, -8193] {
        assert_eq!(
            to_message(&SeqEvent::Pitchbend(c(0, bend))),
            Some(Message::PitchBend { ch: 1, val: bend })
        );
    }

    let n = |note, velocity| Note { channel: 1, note, velocity };
    assert_eq!(
        to_message(&SeqEvent::Noteon(n(127, 127))),
        Some(Message::NoteOn { ch: 1, note: 127, vel: 127 })
    );
    for wide in [n(128, 1), n(1, 128), n(255, 255)] {
        assert_eq!(to_message(&SeqEvent::Noteon(wide)), None);
        assert_eq!(to_message(&SeqEvent::Noteoff(wide)), None);
        assert_eq!(to_message(&SeqEvent::Keypress(wide)), None);
    }
}

#[test]
fn chatter_is_dropped_and_the_rest_kept_as_bytes() {
    for chatter in [SeqEvent::Clock, SeqEvent::Tick, SeqEvent::Sensing, SeqEvent::Unreadable] {
        assert_eq!(to_message(&chatter), None);
    }
    assert_eq!(
        to_message(&SeqEvent::Sysex(vec![0xF0, 0x7E, 0xF7])),
        Some(Message::Sysex { raw: "f07ef7".into() })
    );
    assert_eq!(
        to_message(&SeqEvent::Other(Some(vec![0xFA]))),
        Some(Message::Other { raw: "fa".into() })
    );
    assert_eq!(to_message(&SeqEvent::Other(Some(vec![]))), None);
    assert_eq!(to_message(&SeqEvent::Other(None)), None);
    assert_eq!(source_of(addr(24, 0)), "24:0");
}

#[test]
fn queue_times_are_anchored_to_the_monotonic_clock() {
    let clock = Clock::anchored(1_000, 400);
    assert_eq!(clock.stamp(Some(400), 7), 1_000);
    assert_eq!(clock.stamp(Some(0), 7), 600);
    assert_eq!(clock.stamp(None, 7), 7);
    assert_eq!(monotonic_ns(2, 5), 2_000_000_005);
    assert_eq!(duration_ns(5), 5);
    assert_eq!(duration_ns((1u128 << 64) + 3), 3);
}

#[test]
fn a_source_is_attached_lost_and_attached_again() {
    let (mut a, line) = Attachment::new(None, "Roland");
    assert_eq!(line, "midilogd: waiting for a source matching \"Roland\"");
    assert!(matches!(a.take(Capture::Left(piano())), Action::Ignore));
    assert!(matches!(a.take(Capture::Arrived), Action::Subscribe));
    assert_eq!(a.arrived(None), None);
    assert_eq!(
        a.arrived(Some(addr(24, 0))),
        Some("midilogd: (re)subscribed to 24:0".to_string())
    );
    assert!(matches!(a.take(Capture::Left(piano())), Action::Ignore));
    match a.take(Capture::Left(piano()[..2].to_vec())) {
        Action::Say(line) => assert_eq!(line, "midilogd: source 24:0 left; awaiting return"),
        other => panic!("{other:?}"),
    }
    assert!(matches!(a.take(Capture::Left(piano()[..2].to_vec())), Action::Ignore));
    let (_, line) = Attachment::new(Some(addr(24, 0)), "Roland");
    assert_eq!(line, "midilogd: subscribed to 24:0");
}

#[test]
fn events_are_recorded_and_losses_said() {
    let (mut a, _) = Attachment::new(Some(addr(24, 0)), "Roland");
    let note = Note { channel: 0, note: 21, velocity: 55 };
    match a.take(Capture::Event(SeqEvent::Noteon(note))) {
        Action::Record(msg) => {
            let event = record(7, "now".into(), addr(24, 0), msg);
            assert_eq!((event.t_mono_ns, event.group), (7, 0));
            assert_eq!((event.t_wall.as_str(), event.src.as_str()), ("now", "24:0"));
            assert_eq!(event.msg, Message::NoteOn { ch: 0, note: 21, vel: 55 });
        }
        other => panic!("{other:?}"),
    }
    assert!(matches!(a.take(Capture::Event(SeqEvent::Clock)), Action::Ignore));
    match a.take(Capture::Overrun) {
        Action::Say(line) => {
            assert_eq!(line, "midilogd: input buffer overrun; some events were lost")
        }
        other => panic!("{other:?}"),
    }
    match a.take(Capture::Failed("broken".into())) {
        Action::Stop(e) => assert_eq!(e, "reading event: broken"),
        other => panic!("{other:?}"),
    }
}

#[test]
fn a_source_is_found_in_either_case() {
    assert_eq!(find_source(&piano(), "ROLAND"), Some(addr(24, 0)));
    assert_eq!(find_source(&piano(), "midi 1"), Some(addr(24, 0)));
    assert_eq!(find_source(&piano(), ""), Some(addr(0, 0)));
    assert_eq!(find_source(&piano(), "yamaha"), None);
    // The names are lowered, not only the needle.
    assert_eq!(source_of_lowered(&piano(), "roland"), None);
    assert_eq!(source_of_lowered(&piano(), "Roland"), Some(addr(24, 0)));
    let write_only = vec![client(30, "Roland", vec![port(2, "out", "wWr")])];
    assert_eq!(find_source(&write_only, "roland"), None);
    let umlaut = vec![client(30, "FLÜGEL", vec![port(2, "out", "rR")])];
    assert_eq!(find_source(&umlaut, "flügel"), Some(addr(30, 2)));
}

#[test]
fn both_sides_of_a_device_are_one_client() {
    assert_eq!(find_device(&piano(), "roland", 128), Some((addr(24, 0), addr(24, 0))));
    // Not ourselves.
    assert_eq!(find_device(&piano(), "roland", 24), None);
    let halves = vec![
        client(20, "Roland A", vec![port(0, "in", "rR")]),
        client(21, "Roland B", vec![port(0, "out", "wW")]),
    ];
    assert_eq!(find_device(&halves, "roland", 128), None);
    let split = vec![
        client(20, "Roland A", vec![port(0, "in", "rR")]),
        client(22, "Piano", vec![
            port(0, "roland ctl", ""),
            port(1, "Roland in", "rR"),
            port(2, "other", "wW"),
            port(3, "Roland out", "wW"),
            port(4, "Roland both", "rRwW"),
        ]),
    ];
    assert_eq!(find_device(&split, "roland", 128), Some((addr(22, 1), addr(22, 3))));
    assert_eq!(device_of_lowered(&split, "roland", 128), None);
    assert_eq!(
        not_found("roland"),
        "no ALSA client matching \"roland\" is readable and writable"
    );
}

#[test]
fn a_port_is_alive_while_its_client_has_it() {
    assert!(port_alive(&piano(), addr(24, 0)));
    assert!(!port_alive(&piano(), addr(24, 1)));
    assert!(!port_alive(&piano(), addr(25, 0)));
    assert_eq!(addr_text(addr(-1, 7)), "-1:7");
}

fn session() -> Session {
    Session::new(addr(24, 0), addr(24, 1))
}

#[test]
fn frames_are_collected_across_inputs() {
    let mut s = session();
    assert_eq!((s.source(), s.dest()), (addr(24, 0), addr(24, 1)));
    let mut batch = FrameBatch::default();
    s.begin();
    assert_eq!(s.drain(Input::Sysex(vec![0xF0, 1]), &mut batch), Turn::More);
    assert_eq!(s.drain(Input::Event, &mut batch), Turn::More);
    assert_eq!(s.drain(Input::Sysex(vec![2, 0xF7, 0xF0, 0xF7]), &mut batch), Turn::More);
    assert_eq!(s.drain(Input::Unsupported, &mut batch), Turn::More);
    assert_eq!(s.drain(Input::Empty, &mut batch), Turn::Stop);
    assert_eq!(batch.frames, vec![vec![0xF0, 1, 2, 0xF7], vec![0xF0, 0xF7]]);
    assert_eq!(batch.error, None);
    assert!(batch.is_news());
    assert_eq!(s.discarded(), None);
}

#[test]
fn an_overrun_gives_the_open_frame_up() {
    let mut s = session();
    let mut batch = FrameBatch::default();
    s.begin();
    s.drain(Input::Sysex(vec![0xF0, 1]), &mut batch);
    assert_eq!(s.drain(Input::Overrun, &mut batch), Turn::More);
    s.drain(Input::Sysex(vec![2, 0xF7]), &mut batch);
    assert!(batch.frames.is_empty());
    assert_eq!(s.discarded(), Some("pianoctl: 1 partial frame(s) discarded".to_string()));
    s.begin();
    assert_eq!(s.discarded(), None);
}

#[test]
fn overruns_in_a_row_end_the_session() {
    let mut s = session();
    let mut batch = FrameBatch::default();
    for _ in 0..7 {
        assert_eq!(s.drain(Input::Overrun, &mut batch), Turn::More);
        assert_eq!(s.drain(Input::Unsupported, &mut batch), Turn::More);
    }
    assert_eq!(s.drain(Input::Event, &mut batch), Turn::More);
    for _ in 0..7 {
        assert_eq!(s.drain(Input::Overrun, &mut batch), Turn::More);
    }
    assert_eq!(s.drain(Input::Overrun, &mut batch), Turn::Stop);
    assert_eq!(
        batch.error,
        Some("the sequencer input buffer keeps overrunning".to_string())
    );
}

#[test]
fn a_device_that_leaves_is_an_error() {
    let mut s = session();
    let mut batch = FrameBatch::default();
    assert_eq!(s.drain(Input::Exit(piano()), &mut batch), Turn::More);
    assert_eq!(s.drain(Input::Exit(piano()[..2].to_vec()), &mut batch), Turn::Stop);
    assert_eq!(
        batch.error,
        Some("24:0 left the sequencer mid-measurement".to_string())
    );
    let mut batch = FrameBatch::default();
    assert_eq!(s.drain(Input::Failed("broken".into()), &mut batch), Turn::Stop);
    assert_eq!(batch.error, Some("reading event: broken".to_string()));
}

#[test]
fn a_failed_connection_ends_the_wait() {
    assert!(!FrameBatch::default().is_news());
    assert!(!FrameBatch::default().with_fault(None).is_news());
    let batch = FrameBatch::default().with_fault(Some("ERR".into()));
    assert_eq!(batch.error, Some("the sequencer connection failed (ERR)".to_string()));
    let batch = FrameBatch { frames: vec![], error: Some("first".into()) };
    assert_eq!(batch.with_fault(Some("ERR".into())).error, Some("first".to_string()));
    assert_eq!(poll_millis(500), 500);
    assert_eq!(poll_millis(u128::MAX), i32::MAX);
}

#[test]
fn white_space_is_what_the_standard_library_says() {
    for c in (0..=0x10FFFFu32).filter_map(char::from_u32) {
        assert_eq!(is_white_space(c), c.is_whitespace(), "{c:?}");
    }
}

#[test]
fn substrings_are_what_the_standard_library_says() {
    for s in ["", "a", "ab", "aab", "aaab", "flügel"] {
        for needle in ["", "a", "b", "ab", "aab", "ü", "ge", "x", "flügelx"] {
            assert_eq!(contains(s, needle), s.contains(needle), "{s:?} {needle:?}");
        }
    }
}

#[test]
fn times_that_do_not_fit_are_told_beforehand() {
    let clock = Clock::anchored(u64::MAX, 1);
    assert!(clock.can_stamp(None));
    assert!(clock.can_stamp(Some(1)));
    assert!(!clock.can_stamp(Some(2)));
    assert_eq!(clock.stamp(Some(1), 5), u64::MAX);
    assert_eq!(clock.stamp(None, 5), 5);
}

#[test]
fn any_ordinary_input_can_be_counted() {
    let mut s = session();
    let mut batch = FrameBatch::default();
    for input in [
        Input::Sysex(vec![0xF0, 1, 0xF0, 2]),
        Input::Exit(piano()),
        Input::Event,
        Input::Unsupported,
        Input::Overrun,
        Input::Empty,
    ] {
        assert!(s.can_count(&input));
        s.drain(input, &mut batch);
    }
    assert_eq!(s.discarded().as_deref(), Some("pianoctl: 2 partial frame(s) discarded"));
}
