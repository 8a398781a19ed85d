//! What captured events add to the metrics.
//!
//! A `note_on` with a velocity above zero is a keystroke; velocity zero is a
//! note-off by convention. Played time follows the rule for sessions, one event
//! after the other: each step within a session is added, and a step across a
//! boundary adds nothing.

use crate::event;
use crate::event::{Event, Message, SessionGap};
use crate::text;
use crate::text::dec_padded_text;
use vstd::prelude::*;

verus! {

/// A key that was struck.
#[derive(Debug)]
pub struct Keystroke {
    /// The note number, zero-padded, so that the order of the labels is the
    /// order of the pitches.
    pub note: String,
    pub vel: u16,
}

/// What an event adds to the metrics.
#[derive(Debug)]
pub struct Observation {
    /// Nanoseconds of playing.
    pub session_ns: Option<u64>,
    pub keystroke: Option<Keystroke>,
}

/// Turns events into what they add to the metrics.
pub struct PianoMetrics {
    gap: SessionGap,
    prev_t_mono_ns: Option<u64>,
}

/// The nanoseconds of playing that an event adds after the one at `prev`.
pub open spec fn added_ns(gap_ns: u64, prev: Option<u64>, cur: u64) -> Option<u64> {
    match prev {
        Some(p) => event::played_span(gap_ns, p, cur),
        None => None,
    }
}

/// The label and the velocity of the keystroke that a message is, if it is one.
pub open spec fn struck(msg: Message) -> Option<(Seq<char>, u16)> {
    match msg {
        Message::NoteOn { note, vel, .. } => if vel > 0 {
            Some((text::dec_padded(note as int, 3), vel))
        } else {
            None
        },
        _ => None,
    }
}

/// The contents of a keystroke that may be missing.
pub open spec fn keystroke_option(k: Option<Keystroke>) -> Option<(Seq<char>, u16)> {
    match k {
        Some(k) => Some((k.note@, k.vel)),
        None => None,
    }
}

impl PianoMetrics {
    /// The silence that ends a session, in nanoseconds.
    pub closed spec fn gap(&self) -> u64 {
        self.gap.ns()
    }

    /// The clock of the latest event.
    pub closed spec fn prev(&self) -> Option<u64> {
        self.prev_t_mono_ns
    }

    /// Metrics before any event, with a gap of so many nanoseconds.
    pub fn new(gap_ns: u128) -> (r: Self)
        ensures
            r.gap() == event::clock_gap(gap_ns),
            r.prev() is None,
    {
        PianoMetrics { gap: SessionGap::new(gap_ns), prev_t_mono_ns: None }
    }

    /// What the next event adds.
    pub fn observe(&mut self, event: &Event) -> (r: Observation)
        ensures
            final(self).gap() == old(self).gap(),
            final(self).prev() == Some(event.t_mono_ns),
            r.session_ns == added_ns(old(self).gap(), old(self).prev(), event.t_mono_ns),
            keystroke_option(r.keystroke) == struck(event.msg),
    {
        let session_ns = match self.prev_t_mono_ns {
            Some(prev) => self.gap.played(prev, event.t_mono_ns),
            None => None,
        };
        self.prev_t_mono_ns = Some(event.t_mono_ns);
        let keystroke = match &event.msg {
            Message::NoteOn { note, vel, .. } => if *vel > 0 {
                Some(Keystroke { note: dec_padded_text(*note as i64, 3), vel: *vel })
            } else {
                None
            },
            _ => None,
        };
        Observation { session_ns, keystroke }
    }
}

// ---------------------------------------------------------------------------
// Laws
// ---------------------------------------------------------------------------

/// The nanoseconds that a run of events adds, observed one after the other from
/// the start.
pub open spec fn total_added(events: Seq<Event>, gap_ns: u64) -> int
    decreases events.len(),
{
    if events.len() == 0 {
        0
    } else {
        let before = events.drop_last();
        let prev = if before.len() == 0 {
            None
        } else {
            Some(before.last().t_mono_ns)
        };
        total_added(before, gap_ns) + match added_ns(gap_ns, prev, events.last().t_mono_ns) {
            Some(ns) => ns as int,
            None => 0,
        }
    }
}

/// The time from the first to the last event of a session.
pub open spec fn span(group: Seq<Event>) -> int {
    group.last().t_mono_ns - group[0].t_mono_ns
}

/// The time from the first to the last event of each session, added up.
pub open spec fn total_span(groups: Seq<Seq<Event>>) -> int
    decreases groups.len(),
{
    if groups.len() == 0 {
        0
    } else {
        total_span(groups.drop_last()) + span(groups.last())
    }
}

/// The time that is added event by event is the time from the first to the last
/// event of each session.
pub proof fn law_added_time_is_session_time(events: Seq<Event>, gap_ns: u64)
    ensures
        total_added(events, gap_ns) == total_span(event::split(events, gap_ns)),
    decreases events.len(),
{
    if events.len() > 0 {
        let before = events.drop_last();
        let groups = event::split(before, gap_ns);
        let after = event::split(events, gap_ns);
        law_added_time_is_session_time(before, gap_ns);
        event::law_sessions_keep_the_events(before, gap_ns);
        if after.len() == groups.len() {
            assert(after.drop_last() =~= groups.drop_last());
            assert(groups[groups.len() - 1].len() > 0);
        } else {
            assert(after.drop_last() =~= groups);
        }
    }
}

proof fn lemma_three_digits(n: u8)
    ensures
        text::dec_padded(n as int, 3) == seq![
            text::digit((n / 100) as nat),
            text::digit((n / 10 % 10) as nat),
            text::digit((n % 10) as nat),
        ],
{
    reveal_with_fuel(text::dec, 3);
    let d = text::dec(n as nat);
    let want = seq![
        text::digit((n / 100) as nat),
        text::digit((n / 10 % 10) as nat),
        text::digit((n % 10) as nat),
    ];
    if n < 10 {
        assert(d =~= seq![text::digit(n as nat)]);
    } else if n < 100 {
        assert(d =~= seq![text::digit((n / 10) as nat), text::digit((n % 10) as nat)]);
    } else {
        assert(d =~= want);
    }
    assert(text::dec_padded(n as int, 3) =~= want);
}

/// The labels of the keys are in the order of the pitches.
pub proof fn law_labels_are_in_pitch_order(a: u8, b: u8)
    ensures
        a < b <==> text::precedes(text::dec_padded(a as int, 3), text::dec_padded(b as int, 3)),
{
    lemma_three_digits(a);
    lemma_three_digits(b);
    reveal_with_fuel(text::precedes, 4);
    let x = text::dec_padded(a as int, 3);
    let y = text::dec_padded(b as int, 3);
    assert(x.drop_first().drop_first()[0] == x[2] && y.drop_first().drop_first()[0] == y[2]);
    assert(x.drop_first()[0] == x[1] && y.drop_first()[0] == y[1]);
}

/// A keystroke is a note-on with a velocity above zero, and nothing else is; it has
/// that velocity, and its label is three digits that spell the note.
pub proof fn law_keystroke_is_a_sounding_note(msg: Message)
    ensures
        struck(msg) is Some <==> (msg matches Message::NoteOn { vel, .. } && vel > 0),
        struck(msg) matches Some((label, struck_vel)) ==> (msg matches Message::NoteOn {
            note,
            vel,
            ..
        } && vel == struck_vel && label.len() == 3 && 100 * (label[0] as int - '0' as int) + 10 * (
        label[1] as int - '0' as int) + (label[2] as int - '0' as int) == note),
{
    if let Message::NoteOn { note, .. } = msg {
        lemma_three_digits(note);
    }
}

/// An event adds all of the time since the one before it, where that is no longer
/// than the gap; the first event, a longer time and a clock that steps back add
/// nothing.
pub proof fn law_added_time_is_the_time_between(gap_ns: u64, prev: Option<u64>, cur: u64)
    ensures
        match added_ns(gap_ns, prev, cur) {
            Some(d) => prev matches Some(p) && p + d == cur && d <= gap_ns,
            None => prev matches Some(p) ==> cur < p || cur > p + gap_ns,
        },
{
}

} // verus!
