//! Projecting captured events to one track of a Standard MIDI File, at a fixed
//! tempo, so that the result stays a plain view that can be reversed.

use crate::event;
use crate::event::{sessions, Event, Message};
use crate::text;
use crate::text::dec_text;
use midly::num::{u24, u28, u4, u7};
use midly::PitchBend;
use vstd::prelude::*;

verus! {

/// Nanoseconds in a minute.
pub const MINUTE_NS: u64 = 60_000_000_000;

/// Microseconds in a minute.
pub const MINUTE_US: u32 = 60_000_000;

// ---------------------------------------------------------------------------
// Track events
// ---------------------------------------------------------------------------

/// A channel-voice message, in the ranges that a file can hold.
#[derive(Debug, Clone, Copy, PartialEq, Eq)]
pub enum Voice {
    NoteOff { key: u8, vel: u8 },
    NoteOn { key: u8, vel: u8 },
    Aftertouch { key: u8, vel: u8 },
    Controller { controller: u8, value: u8 },
    ProgramChange { program: u8 },
    ChannelAftertouch { vel: u8 },
    /// The bend as it is stored: zero to 16383, with 8192 in the middle.
    PitchBend { bend: u16 },
}

/// What a track event says.
#[derive(Debug, Clone, Copy, PartialEq, Eq)]
pub enum TrackKind {
    /// Microseconds per quarter note.
    Tempo(u32),
    Midi { channel: u8, message: Voice },
    EndOfTrack,
}

/// A track event, so many ticks after the one before it.
#[derive(Debug, Clone, Copy, PartialEq, Eq)]
pub struct TrackEvent {
    pub delta: u32,
    pub kind: TrackKind,
}

/// A track, and how many events have no place in one.
#[derive(Debug)]
pub struct Projection {
    pub track: Vec<TrackEvent>,
    pub skipped: usize,
}

// ---------------------------------------------------------------------------
// The numbers of the file format
// ---------------------------------------------------------------------------

/// `u7::from` of midly keeps the low seven bits.
#[verifier::external_body]
fn low7(raw: u8) -> (r: u8)
    ensures
        r == raw % 128,
{
    u7::from(raw).as_int()
}

/// `u4::from` of midly keeps the low four bits.
#[verifier::external_body]
fn low4(raw: u8) -> (r: u8)
    ensures
        r == raw % 16,
{
    u4::from(raw).as_int()
}

/// `u24::from` of midly keeps the low 24 bits.
#[verifier::external_body]
fn low24(raw: u32) -> (r: u32)
    ensures
        r == raw % 0x100_0000,
{
    u24::from(raw).as_int()
}

/// `u28::from` of midly keeps the low 28 bits.
#[verifier::external_body]
fn low28(raw: u32) -> (r: u32)
    ensures
        r == raw % 0x1000_0000,
{
    u28::from(raw).as_int()
}

/// `u28::max_value` of midly is the largest number of 28 bits.
#[verifier::external_body]
fn max28() -> (r: u32)
    ensures
        r == 0x0FFF_FFFF,
{
    u28::max_value().as_int()
}

/// `PitchBend::from_int` of midly clamps to -8192..=8191 and stores the bend
/// with 8192 in the middle.
#[verifier::external_body]
fn stored_bend(centered: i16) -> (r: u16)
    ensures
        r == bend_of(centered as int),
{
    PitchBend::from_int(centered).0.as_int()
}

/// The nearest number in `low..=high`.
pub open spec fn clamped(v: int, low: int, high: int) -> int {
    if v < low {
        low
    } else if v > high {
        high
    } else {
        v
    }
}

/// A centered bend as it is stored.
pub open spec fn bend_of(centered: int) -> u16 {
    (clamped(centered, -8192, 8191) + 8192) as u16
}

// ---------------------------------------------------------------------------
// Messages
// ---------------------------------------------------------------------------

/// The channel and the message that a captured message is in a file; none where
/// a file has no faithful form for it.
pub open spec fn voiced(msg: Message) -> Option<(u8, Voice)> {
    match msg {
        Message::NoteOn { ch, note, vel } => Some(
            (
                ch % 16,
                Voice::NoteOn { key: note % 128, vel: clamped(vel as int, 0, 127) as u8 },
            ),
        ),
        Message::NoteOff { ch, note, vel } => Some(
            (
                ch % 16,
                Voice::NoteOff { key: note % 128, vel: clamped(vel as int, 0, 127) as u8 },
            ),
        ),
        Message::Cc { ch, cc, val } => Some(
            (
                ch % 16,
                Voice::Controller {
                    controller: cc % 128,
                    value: clamped(val as int, 0, 127) as u8,
                },
            ),
        ),
        Message::PitchBend { ch, val } => Some(
            (ch % 16, Voice::PitchBend { bend: bend_of(val as int) }),
        ),
        Message::Program { ch, prog } => Some(
            (ch % 16, Voice::ProgramChange { program: prog % 128 }),
        ),
        Message::ChannelPressure { ch, val } => Some(
            (ch % 16, Voice::ChannelAftertouch { vel: clamped(val as int, 0, 127) as u8 }),
        ),
        Message::PolyPressure { ch, note, val } => Some(
            (
                ch % 16,
                Voice::Aftertouch { key: note % 128, vel: clamped(val as int, 0, 127) as u8 },
            ),
        ),
        Message::Sysex { .. } => None,
        Message::Other { .. } => None,
    }
}

fn clamp7(v: i32) -> (r: u8)
    ensures
        r == clamped(v as int, 0, 127),
        r % 128 == r,
{
    if v < 0 {
        0
    } else if v > 127 {
        127
    } else {
        v as u8
    }
}

/// The channel and the message that a captured message is in a file.
pub fn to_midi(msg: &Message) -> (r: Option<(u8, Voice)>)
    ensures
        r == voiced(*msg),
{
    match msg {
        Message::NoteOn { ch, note, vel } => Some(
            (low4(*ch), Voice::NoteOn { key: low7(*note), vel: low7(clamp7(*vel as i32)) }),
        ),
        Message::NoteOff { ch, note, vel } => Some(
            (low4(*ch), Voice::NoteOff { key: low7(*note), vel: low7(clamp7(*vel as i32)) }),
        ),
        Message::Cc { ch, cc, val } => Some(
            (low4(*ch), Voice::Controller { controller: low7(*cc), value: low7(clamp7(*val)) }),
        ),
        Message::PitchBend { ch, val } => {
            let centered: i16 = if *val < -8192 {
                -8192
            } else if *val > 8191 {
                8191
            } else {
                *val as i16
            };
            Some((low4(*ch), Voice::PitchBend { bend: stored_bend(centered) }))
        },
        Message::Program { ch, prog } => Some(
            (low4(*ch), Voice::ProgramChange { program: low7(*prog) }),
        ),
        Message::ChannelPressure { ch, val } => Some(
            (low4(*ch), Voice::ChannelAftertouch { vel: low7(clamp7(*val as i32)) }),
        ),
        Message::PolyPressure { ch, note, val } => Some(
            (
                low4(*ch),
                Voice::Aftertouch { key: low7(*note), vel: low7(clamp7(*val as i32)) },
            ),
        ),
        Message::Sysex { .. } => None,
        Message::Other { .. } => None,
    }
}

// ---------------------------------------------------------------------------
// Time
// ---------------------------------------------------------------------------

/// So many nanoseconds in ticks, rounded to the nearest; halves are rounded up.
pub open spec fn ticks(dt_ns: int, ppq: u16, bpm: u32) -> int {
    (dt_ns * ppq * bpm + MINUTE_NS / 2) / (MINUTE_NS as int)
}

/// So many nanoseconds in ticks, as far as 64 bits hold them.
pub open spec fn tick(dt_ns: int, ppq: u16, bpm: u32) -> int {
    ticks(dt_ns, ppq, bpm) % 0x1_0000_0000_0000_0000
}

proof fn lemma_product_bound(dt_ns: u64, ppq: u16, bpm: u32)
    ensures
        0 <= dt_ns * ppq <= 0xFFFF_FFFF_FFFF_FFFF * 0xFFFF,
        0 <= dt_ns * ppq * bpm <= 0xFFFF_FFFF_FFFF_FFFF * 0xFFFF * 0xFFFF_FFFF,
{
    assert(0 <= dt_ns * ppq <= 0xFFFF_FFFF_FFFF_FFFF * 0xFFFF) by (nonlinear_arith)
        requires
            0 <= dt_ns <= 0xFFFF_FFFF_FFFF_FFFF,
            0 <= ppq <= 0xFFFF,
    ;
    let p = dt_ns * ppq;
    assert(0 <= p * bpm <= 0xFFFF_FFFF_FFFF_FFFF * 0xFFFF * 0xFFFF_FFFF) by (nonlinear_arith)
        requires
            0 <= p <= 0xFFFF_FFFF_FFFF_FFFF * 0xFFFF,
            0 <= bpm <= 0xFFFF_FFFF,
    ;
}

fn wide_ticks(dt_ns: u64, ppq: u16, bpm: u32) -> (r: u128)
    ensures
        r == ticks(dt_ns as int, ppq, bpm),
{
    proof {
        lemma_product_bound(dt_ns, ppq, bpm);
    }
    let num: u128 = dt_ns as u128 * ppq as u128 * bpm as u128;
    let den: u128 = 60_000_000_000;
    (num + den / 2) / den
}

/// So many nanoseconds in ticks, as far as 64 bits hold them.
pub fn tick_of(dt_ns: u64, ppq: u16, bpm: u32) -> (r: u64)
    ensures
        r == tick(dt_ns as int, ppq, bpm),
{
    let wide = wide_ticks(dt_ns, ppq, bpm);
    (wide % 0x1_0000_0000_0000_0000u128) as u64
}

// ---------------------------------------------------------------------------
// Tracks
// ---------------------------------------------------------------------------

/// The tick of the latest event with a place in a track; zero before any.
pub open spec fn last_tick(events: Seq<Event>, t0: u64, ppq: u16, bpm: u32) -> int
    decreases events.len(),
{
    if events.len() == 0 {
        0
    } else if voiced(events.last().msg) is Some {
        tick(events.last().t_mono_ns - t0, ppq, bpm)
    } else {
        last_tick(events.drop_last(), t0, ppq, bpm)
    }
}

/// The track events of a run of events, each so many ticks after the one before
/// it, as far as a file can say so.
pub open spec fn voices(events: Seq<Event>, t0: u64, ppq: u16, bpm: u32) -> Seq<TrackEvent>
    decreases events.len(),
{
    if events.len() == 0 {
        Seq::empty()
    } else {
        let before = voices(events.drop_last(), t0, ppq, bpm);
        match voiced(events.last().msg) {
            Some((channel, message)) => before.push(
                TrackEvent {
                    delta: clamped(
                        tick(events.last().t_mono_ns - t0, ppq, bpm) - last_tick(
                            events.drop_last(),
                            t0,
                            ppq,
                            bpm,
                        ),
                        0,
                        0x0FFF_FFFF,
                    ) as u32,
                    kind: TrackKind::Midi { channel, message },
                },
            ),
            None => before,
        }
    }
}

/// How many events have no place in a track.
pub open spec fn unvoiced(events: Seq<Event>) -> nat
    decreases events.len(),
{
    if events.len() == 0 {
        0
    } else {
        unvoiced(events.drop_last()) + if voiced(events.last().msg) is None {
            1nat
        } else {
            0
        }
    }
}

/// The track of a run of events: the tempo, the events, the end.
pub open spec fn track_of(events: Seq<Event>, ppq: u16, bpm: u32) -> Seq<TrackEvent> {
    seq![
        TrackEvent {
            delta: 0,
            kind: TrackKind::Tempo(((MINUTE_US / bpm) % 0x100_0000) as u32),
        },
    ] + voices(events, events[0].t_mono_ns, ppq, bpm) + seq![
        TrackEvent { delta: 0, kind: TrackKind::EndOfTrack },
    ]
}

/// Whether the clock never steps back.
pub open spec fn forward(events: Seq<Event>) -> bool {
    forall|i: int, j: int|
        0 <= i <= j < events.len() ==> (#[trigger] events[i]).t_mono_ns <= (
        #[trigger] events[j]).t_mono_ns
}

/// Whether no tick is behind the one before it. With ticks that 64 bits hold this
/// is so wherever the clock never steps back.
pub open spec fn ticks_ahead(events: Seq<Event>, ppq: u16, bpm: u32) -> bool {
    forall|n: int|
        0 <= n < events.len() && voiced((#[trigger] events[n]).msg) is Some ==> last_tick(
            events.take(n),
            events[0].t_mono_ns,
            ppq,
            bpm,
        ) <= tick(events[n].t_mono_ns - events[0].t_mono_ns, ppq, bpm)
}

proof fn lemma_ticks_grow(a: int, b: int, ppq: u16, bpm: u32)
    requires
        a <= b,
    ensures
        ticks(a, ppq, bpm) <= ticks(b, ppq, bpm),
        0 <= a ==> 0 <= ticks(a, ppq, bpm),
{
    assert(a * ppq <= b * ppq) by (nonlinear_arith)
        requires
            a <= b,
            0 <= ppq,
    ;
    let (x, y) = (a * ppq, b * ppq);
    assert(x * bpm <= y * bpm) by (nonlinear_arith)
        requires
            x <= y,
            0 <= bpm,
    ;
    if 0 <= a {
        assert(0 <= a * ppq) by (nonlinear_arith)
            requires
                0 <= a,
                0 <= ppq,
        ;
        assert(0 <= x * bpm) by (nonlinear_arith)
            requires
                0 <= x,
                0 <= bpm,
        ;
    }
}

/// The latest tick is that of some event so far, or zero.
proof fn lemma_last_tick(events: Seq<Event>, n: int, ppq: u16, bpm: u32)
    requires
        forward(events),
        0 <= n < events.len(),
        ppq * bpm <= MINUTE_NS,
    ensures
        last_tick(events.take(n), events[0].t_mono_ns, ppq, bpm) <= tick(
            events[n].t_mono_ns - events[0].t_mono_ns,
            ppq,
            bpm,
        ),
    decreases n,
{
    let t0 = events[0].t_mono_ns;
    assert(events[0].t_mono_ns <= events[n].t_mono_ns);
    law_ticks_fit(events[n].t_mono_ns - t0, ppq, bpm);
    if n > 0 {
        assert(events.take(n).drop_last() =~= events.take(n - 1));
        lemma_last_tick(events, n - 1, ppq, bpm);
        assert(events[0].t_mono_ns <= events[n - 1].t_mono_ns <= events[n].t_mono_ns);
        law_ticks_fit(events[n - 1].t_mono_ns - t0, ppq, bpm);
        lemma_ticks_grow(events[n - 1].t_mono_ns - t0, events[n].t_mono_ns - t0, ppq, bpm);
    }
}

proof fn lemma_unvoiced_bound(events: Seq<Event>)
    ensures
        unvoiced(events) <= events.len(),
    decreases events.len(),
{
    if events.len() > 0 {
        lemma_unvoiced_bound(events.drop_last());
    }
}

/// The track of a run of events, and how many of them have no place in it.
pub fn build_track(events: &[Event], ppq: u16, bpm: u32) -> (r: Projection)
    requires
        events@.len() > 0,
        bpm > 0,
        forward(events@),
        ppq * bpm <= MINUTE_NS || ticks_ahead(events@, ppq, bpm),
    ensures
        r.track@ == track_of(events@, ppq, bpm),
        r.skipped == unvoiced(events@),
{
    proof {
        if ppq * bpm <= MINUTE_NS {
            law_ticks_go_forward(events@, ppq, bpm);
        }
    }
    let t0 = events[0].t_mono_ns;
    let mut track: Vec<TrackEvent> = Vec::new();
    let mut prev_tick: u64 = 0;
    let mut skipped: usize = 0;
    let tempo = TrackEvent { delta: low28(0), kind: TrackKind::Tempo(low24(60_000_000 / bpm)) };
    track.push(tempo);
    assert(track@ =~= seq![tempo] + voices(events@.take(0), t0, ppq, bpm));
    let mut i: usize = 0;
    while i < events.len()
        invariant
            i <= events.len(),
            events@.len() > 0,
            t0 == events@[0].t_mono_ns,
            forward(events@),
            ticks_ahead(events@, ppq, bpm),
            prev_tick == last_tick(events@.take(i as int), t0, ppq, bpm),
            skipped == unvoiced(events@.take(i as int)),
            track@ == seq![tempo] + voices(events@.take(i as int), t0, ppq, bpm),
        decreases events.len() - i,
    {
        let ghost here = events@.take(i + 1);
        proof {
            assert(here.drop_last() =~= events@.take(i as int));
            assert(here.last() == events@[i as int]);
            lemma_unvoiced_bound(events@.take(i as int));
        }
        match to_midi(&events[i].msg) {
            None => {
                skipped = skipped + 1;
            },
            Some((channel, message)) => {
                assert(events@[0].t_mono_ns <= events@[i as int].t_mono_ns);
                let tick = tick_of(events[i].t_mono_ns - t0, ppq, bpm);
                let step: u64 = tick - prev_tick;
                let most: u64 = max28() as u64;
                let delta: u64 = if step > most {
                    most
                } else {
                    step
                };
                prev_tick = tick;
                track.push(
                    TrackEvent {
                        delta: low28(delta as u32),
                        kind: TrackKind::Midi { channel, message },
                    },
                );
            },
        }
        assert(track@ =~= seq![tempo] + voices(here, t0, ppq, bpm));
        i = i + 1;
    }
    assert(events@.take(events@.len() as int) =~= events@);
    track.push(TrackEvent { delta: low28(0), kind: TrackKind::EndOfTrack });
    assert(track@ =~= track_of(events@, ppq, bpm));
    Projection { track, skipped }
}

// ---------------------------------------------------------------------------
// Selecting what is projected
// ---------------------------------------------------------------------------

/// The index of the first event whose clock is behind that of the one before it.
pub open spec fn first_backwards(events: Seq<Event>) -> Option<int>
    decreases events.len(),
{
    if events.len() < 2 {
        None
    } else if first_backwards(events.drop_last()) is Some {
        first_backwards(events.drop_last())
    } else if events.last().t_mono_ns < events[events.len() - 2].t_mono_ns {
        Some(events.len() - 1)
    } else {
        None
    }
}

/// The events that are projected: one session, or all; or why there are none.
pub open spec fn selected(
    events: Seq<Event>,
    session: Option<usize>,
    gap_secs: u64,
) -> Result<Seq<Event>, Seq<char>> {
    let chosen = match session {
        Some(n) => {
            let groups = event::split(
                events,
                event::clock_gap((gap_secs * 1_000_000_000) as u128),
            );
            if n < groups.len() {
                Ok(groups[n as int])
            } else {
                Err(
                    "session "@ + text::dec(n as nat) + " out of range ("@ + text::dec(groups.len())
                        + " found)"@,
                )
            }
        },
        None => Ok(events),
    };
    match chosen {
        Err(e) => Err(e),
        Ok(run) => if run.len() == 0 {
            Err("no events to project"@)
        } else {
            match first_backwards(run) {
                Some(i) => Err(
                    "t_mono_ns goes backwards at event "@ + text::dec((i + 1) as nat)
                        + " (reboot inside the log, or inputs out of order?); project with --session instead"@,
                ),
                None => Ok(run),
            }
        },
    }
}

/// Without a step back the clock goes forward throughout.
proof fn lemma_forward(events: Seq<Event>)
    ensures
        first_backwards(events) is None <==> forward(events),
    decreases events.len(),
{
    if events.len() >= 2 {
        let before = events.drop_last();
        let n = events.len() - 1;
        lemma_forward(before);
        if first_backwards(events) is None {
            assert forall|i: int, j: int| 0 <= i <= j < events.len() implies (
            #[trigger] events[i]).t_mono_ns <= (#[trigger] events[j]).t_mono_ns by {
                if j < n {
                    assert(before[i].t_mono_ns <= before[j].t_mono_ns);
                } else if i < n {
                    assert(before[i].t_mono_ns <= before[n - 1].t_mono_ns);
                }
            }
        } else if forward(events) {
            assert forall|i: int, j: int| 0 <= i <= j < before.len() implies (
            #[trigger] before[i]).t_mono_ns <= (#[trigger] before[j]).t_mono_ns by {
                assert(events[i].t_mono_ns <= events[j].t_mono_ns);
            }
            assert(events[n - 1].t_mono_ns <= events[n].t_mono_ns);
        }
    }
}

fn find_backwards(events: &[Event]) -> (r: Option<usize>)
    ensures
        match r {
            Some(i) => first_backwards(events@) == Some(i as int) && i < events@.len(),
            None => first_backwards(events@) is None,
        },
{
    let mut i: usize = 1;
    let mut found: Option<usize> = None;
    while i < events.len()
        invariant
            1 <= i,
            i <= events.len() || events.len() == 0,
            found matches Some(k) ==> k < events.len(),
            events.len() > 0 ==> match found {
                Some(k) => first_backwards(events@.take(i as int)) == Some(k as int),
                None => first_backwards(events@.take(i as int)) is None,
            },
        decreases events.len() - i,
    {
        let ghost here = events@.take(i + 1);
        assert(here.drop_last() =~= events@.take(i as int));
        if found.is_none() && events[i].t_mono_ns < events[i - 1].t_mono_ns {
            found = Some(i);
        }
        i = i + 1;
    }
    assert(events@.take(events@.len() as int) =~= events@);
    found
}

/// The events that are projected: one session, or all.
fn select<'a>(events: &'a [Event], session: Option<usize>, gap_secs: u64) -> (r: Result<
    &'a [Event],
    String,
>)
    ensures
        match r {
            Ok(run) => selected(events@, session, gap_secs) == Ok::<Seq<Event>, Seq<char>>(run@)
                && run@.len() > 0 && forward(run@),
            Err(e) => selected(events@, session, gap_secs) == Err::<Seq<Event>, Seq<char>>(e@),
        },
{
    let run: &'a [Event] = match session {
        Some(n) => {
            let groups = sessions(events, gap_secs as u128 * 1_000_000_000);
            if n >= groups.len() {
                return Err(
                    "session ".to_owned().concat(dec_text(n as u64).as_str()).concat(
                        " out of range (",
                    ).concat(dec_text(groups.len() as u64).as_str()).concat(" found)"),
                );
            }
            groups[n]
        },
        None => events,
    };
    if run.len() == 0 {
        return Err("no events to project".to_owned());
    }
    proof {
        lemma_forward(run@);
    }
    match find_backwards(run) {
        Some(i) => Err(
            "t_mono_ns goes backwards at event ".to_owned().concat(
                dec_text(i as u64 + 1).as_str(),
            ).concat(
                " (reboot inside the log, or inputs out of order?); project with --session instead",
            ),
        ),
        None => Ok(run),
    }
}

/// Whether the chosen events have a track: their ticks do not go backwards. They
/// do not at any resolution that is no finer than a nanosecond.
pub open spec fn projectable(
    events: Seq<Event>,
    session: Option<usize>,
    gap_secs: u64,
    ppq: u16,
    bpm: u32,
) -> bool {
    ppq * bpm <= MINUTE_NS || (selected(events, session, gap_secs) matches Ok(run) ==> ticks_ahead(
        run,
        ppq,
        bpm,
    ))
}

/// Whether the chosen events have a track.
pub fn can_project(
    events: &[Event],
    session: Option<usize>,
    gap_secs: u64,
    ppq: u16,
    bpm: u32,
) -> (r: bool)
    ensures
        r == projectable(events@, session, gap_secs, ppq, bpm),
{
    assert(0 <= ppq * bpm <= 0xFFFF * 0xFFFF_FFFF) by (nonlinear_arith)
        requires
            0 <= ppq <= 0xFFFF,
            0 <= bpm <= 0xFFFF_FFFF,
    ;
    if ppq as u64 * bpm as u64 <= MINUTE_NS {
        return true;
    }
    match select(events, session, gap_secs) {
        Ok(run) => go_forward(run, ppq, bpm),
        Err(_) => true,
    }
}

fn go_forward(events: &[Event], ppq: u16, bpm: u32) -> (r: bool)
    requires
        events@.len() > 0,
        forward(events@),
    ensures
        r == ticks_ahead(events@, ppq, bpm),
{
    let t0 = events[0].t_mono_ns;
    let mut prev_tick: u64 = 0;
    let mut i: usize = 0;
    while i < events.len()
        invariant
            i <= events.len(),
            events@.len() > 0,
            t0 == events@[0].t_mono_ns,
            forward(events@),
            prev_tick == last_tick(events@.take(i as int), t0, ppq, bpm),
            forall|n: int|
                0 <= n < i && voiced((#[trigger] events@[n]).msg) is Some ==> last_tick(
                    events@.take(n),
                    t0,
                    ppq,
                    bpm,
                ) <= tick(events@[n].t_mono_ns - t0, ppq, bpm),
        decreases events.len() - i,
    {
        assert(events@.take(i + 1).drop_last() =~= events@.take(i as int));
        if to_midi(&events[i].msg).is_some() {
            assert(events@[0].t_mono_ns <= events@[i as int].t_mono_ns);
            let tick = tick_of(events[i].t_mono_ns - t0, ppq, bpm);
            if tick < prev_tick {
                return false;
            }
            prev_tick = tick;
        }
        i = i + 1;
    }
    true
}

/// The track of the chosen events: those of one session, or all.
pub fn project(
    events: &[Event],
    session: Option<usize>,
    gap_secs: u64,
    ppq: u16,
    bpm: u32,
) -> (r: Result<Projection, String>)
    requires
        bpm > 0,
        projectable(events@, session, gap_secs, ppq, bpm),
    ensures
        match r {
            Ok(p) => selected(events@, session, gap_secs) matches Ok(run) && p.track@ == track_of(
                run,
                ppq,
                bpm,
            ) && p.skipped == unvoiced(run),
            Err(e) => selected(events@, session, gap_secs) == Err::<Seq<Event>, Seq<char>>(e@),
        },
{
    match select(events, session, gap_secs) {
        Ok(run) => Ok(build_track(run, ppq, bpm)),
        Err(e) => Err(e),
    }
}

// ---------------------------------------------------------------------------
// Laws
// ---------------------------------------------------------------------------

/// Where a quarter note is not divided more finely than a nanosecond, the ticks
/// of any time fit.
pub proof fn law_ticks_fit(dt_ns: int, ppq: u16, bpm: u32)
    requires
        ppq * bpm <= MINUTE_NS,
        0 <= dt_ns <= u64::MAX,
    ensures
        tick(dt_ns, ppq, bpm) == ticks(dt_ns, ppq, bpm),
{
    lemma_ticks_grow(dt_ns, u64::MAX as int, ppq, bpm);
    let most = u64::MAX as int;
    assert(most * ppq * bpm <= most * MINUTE_NS) by (nonlinear_arith)
        requires
            ppq * bpm <= MINUTE_NS,
            most >= 0,
    ;
}

/// Where a quarter note is not divided more finely than a nanosecond, ticks go
/// forward with the clock.
pub proof fn law_ticks_go_forward(events: Seq<Event>, ppq: u16, bpm: u32)
    requires
        ppq * bpm <= MINUTE_NS,
        forward(events),
    ensures
        ticks_ahead(events, ppq, bpm),
{
    assert forall|n: int|
        0 <= n < events.len() && voiced((#[trigger] events[n]).msg) is Some implies last_tick(
        events.take(n),
        events[0].t_mono_ns,
        ppq,
        bpm,
    ) <= tick(events[n].t_mono_ns - events[0].t_mono_ns, ppq, bpm) by {
        lemma_last_tick(events, n, ppq, bpm);
    }
}

/// A tick is at most half a tick from the time that it stands for.
pub proof fn law_ticks_are_nearest(dt_ns: int, ppq: u16, bpm: u32)
    ensures
        -(MINUTE_NS / 2) <= ticks(dt_ns, ppq, bpm) * MINUTE_NS - dt_ns * ppq * bpm <= MINUTE_NS / 2,
{
}

/// The deltas of a track, added up.
pub open spec fn elapsed(track: Seq<TrackEvent>) -> int
    decreases track.len(),
{
    if track.len() == 0 {
        0
    } else {
        elapsed(track.drop_last()) + track.last().delta
    }
}

/// Whether every step from one event of a track to the next fits in a delta.
pub open spec fn steps_fit(events: Seq<Event>, t0: u64, ppq: u16, bpm: u32) -> bool {
    forall|n: int|
        0 < n <= events.len() && voiced(#[trigger] events[n - 1].msg) is Some ==> 0 <= tick(
            events[n - 1].t_mono_ns - t0,
            ppq,
            bpm,
        ) - last_tick(events.take(n - 1), t0, ppq, bpm) <= 0x0FFF_FFFF
}

/// The time can be read back from a track: the deltas up to an event add up to
/// its tick.
pub proof fn law_deltas_add_up_to_the_tick(events: Seq<Event>, t0: u64, ppq: u16, bpm: u32)
    requires
        steps_fit(events, t0, ppq, bpm),
    ensures
        elapsed(voices(events, t0, ppq, bpm)) == last_tick(events, t0, ppq, bpm),
    decreases events.len(),
{
    if events.len() > 0 {
        let before = events.drop_last();
        let n = events.len() as int;
        assert(events.take(n - 1) =~= before);
        assert forall|m: int|
            0 < m <= before.len() && voiced(#[trigger] before[m - 1].msg) is Some implies 0
            <= tick(before[m - 1].t_mono_ns - t0, ppq, bpm) - last_tick(
            before.take(m - 1),
            t0,
            ppq,
            bpm,
        ) <= 0x0FFF_FFFF by {
            assert(voiced(events[m - 1].msg) is Some);
            assert(before.take(m - 1) =~= events.take(m - 1));
        }
        law_deltas_add_up_to_the_tick(before, t0, ppq, bpm);
        if voiced(events.last().msg) is Some {
            assert(voiced(events[n - 1].msg) is Some);
            let track = voices(events, t0, ppq, bpm);
            assert(track.drop_last() =~= voices(before, t0, ppq, bpm));
        }
    }
}

/// The captured message that a message of a file stands for.
pub open spec fn restored(channel: u8, message: Voice) -> event::MessageView {
    match message {
        Voice::NoteOff { key, vel } => event::MessageView::NoteOff {
            ch: channel,
            note: key,
            vel: vel as u16,
        },
        Voice::NoteOn { key, vel } => event::MessageView::NoteOn {
            ch: channel,
            note: key,
            vel: vel as u16,
        },
        Voice::Aftertouch { key, vel } => event::MessageView::PolyPressure {
            ch: channel,
            note: key,
            pressure: vel,
        },
        Voice::Controller { controller, value } => event::MessageView::Cc {
            ch: channel,
            cc: controller,
            control: value as i32,
        },
        Voice::ProgramChange { program } => event::MessageView::Program {
            ch: channel,
            prog: program,
        },
        Voice::ChannelAftertouch { vel } => event::MessageView::ChannelPressure {
            ch: channel,
            pressure: vel,
        },
        Voice::PitchBend { bend } => event::MessageView::PitchBend {
            ch: channel,
            bend: (bend - 8192) as i32,
        },
    }
}

/// Whether a message is a channel-voice message in the ranges that a file can hold.
pub open spec fn fits_a_file(msg: event::MessageView) -> bool {
    match msg {
        event::MessageView::NoteOn { ch, note, vel } => ch <= 15 && note <= 127 && vel <= 127,
        event::MessageView::NoteOff { ch, note, vel } => ch <= 15 && note <= 127 && vel <= 127,
        event::MessageView::Cc { ch, cc, control } => ch <= 15 && cc <= 127 && 0 <= control <= 127,
        event::MessageView::PitchBend { ch, bend } => ch <= 15 && -8192 <= bend <= 8191,
        event::MessageView::Program { ch, prog } => ch <= 15 && prog <= 127,
        event::MessageView::ChannelPressure { ch, pressure } => ch <= 15 && pressure <= 127,
        event::MessageView::PolyPressure { ch, note, pressure } => ch <= 15 && note <= 127
            && pressure <= 127,
        event::MessageView::Sysex { .. } => false,
        event::MessageView::Other { .. } => false,
    }
}

/// A message can be read back from a file: every channel-voice message in the
/// ranges that a file can hold is restored as it was.
pub proof fn law_message_reads_back(msg: Message)
    requires
        fits_a_file(msg@),
    ensures
        voiced(msg) matches Some((channel, message)) && restored(channel, message) == msg@,
{
}

/// No two messages become one: where two channel-voice messages in the ranges that
/// a file can hold are the same in a file, they are the same.
pub proof fn law_projection_is_one_to_one(a: Message, b: Message)
    requires
        fits_a_file(a@),
        fits_a_file(b@),
        voiced(a) == voiced(b),
    ensures
        a@ == b@,
{
    law_message_reads_back(a);
    law_message_reads_back(b);
}

/// The messages of a run of events that have a place in a track, in order.
pub open spec fn spoken(events: Seq<Event>) -> Seq<event::MessageView>
    decreases events.len(),
{
    if events.len() == 0 {
        Seq::empty()
    } else if voiced(events.last().msg) is Some {
        spoken(events.drop_last()).push(events.last().msg@)
    } else {
        spoken(events.drop_last())
    }
}

/// The messages that the events of a track stand for, in order.
pub open spec fn heard(track: Seq<TrackEvent>) -> Seq<event::MessageView>
    decreases track.len(),
{
    if track.len() == 0 {
        Seq::empty()
    } else {
        match track.last().kind {
            TrackKind::Midi { channel, message } => heard(track.drop_last()).push(
                restored(channel, message),
            ),
            _ => heard(track.drop_last()),
        }
    }
}

proof fn lemma_voices_read_back(events: Seq<Event>, t0: u64, ppq: u16, bpm: u32, head: TrackEvent)
    requires
        !(head.kind is Midi),
        forall|i: int|
            0 <= i < events.len() && voiced((#[trigger] events[i]).msg) is Some ==> fits_a_file(
                events[i].msg@,
            ),
    ensures
        heard(seq![head] + voices(events, t0, ppq, bpm)) == spoken(events),
    decreases events.len(),
{
    let track = seq![head] + voices(events, t0, ppq, bpm);
    reveal_with_fuel(heard, 2);
    if events.len() == 0 {
        assert(track.drop_last() =~= Seq::empty());
        assert(track.last() == head);
    } else {
        let before = events.drop_last();
        let n = events.len() - 1;
        assert forall|i: int|
            0 <= i < before.len() && voiced((#[trigger] before[i]).msg) is Some implies fits_a_file(
            before[i].msg@,
        ) by {
            assert(before[i] == events[i]);
        }
        lemma_voices_read_back(before, t0, ppq, bpm, head);
        assert(events.last() == events[n]);
        if voiced(events[n].msg) is Some {
            law_message_reads_back(events[n].msg);
            assert(track.drop_last() =~= seq![head] + voices(before, t0, ppq, bpm));
        }
    }
}

/// A track is a view that can be reversed: the messages that it stands for are, in
/// order, those of the events that have a place in it, as far as a file can hold
/// them.
pub proof fn law_track_reads_back(events: Seq<Event>, ppq: u16, bpm: u32)
    requires
        forall|i: int|
            0 <= i < events.len() && voiced((#[trigger] events[i]).msg) is Some ==> fits_a_file(
                events[i].msg@,
            ),
    ensures
        heard(track_of(events, ppq, bpm)) == spoken(events),
{
    let track = track_of(events, ppq, bpm);
    lemma_voices_read_back(events, events[0].t_mono_ns, ppq, bpm, track[0]);
    assert(track.drop_last() =~= seq![track[0]] + voices(
        events,
        events[0].t_mono_ns,
        ppq,
        bpm,
    ));
    assert(track.last().kind is EndOfTrack);
}

/// Every event is either in the track or counted as skipped.
pub proof fn law_events_are_projected_or_skipped(
    events: Seq<Event>,
    t0: u64,
    ppq: u16,
    bpm: u32,
)
    ensures
        voices(events, t0, ppq, bpm).len() + unvoiced(events) == events.len(),
    decreases events.len(),
{
    if events.len() > 0 {
        law_events_are_projected_or_skipped(events.drop_last(), t0, ppq, bpm);
    }
}

/// One session can always be projected: a step back never lies inside one.
pub proof fn law_session_is_never_backwards(events: Seq<Event>, session: usize, gap_secs: u64)
    requires
        session < event::split(
            events,
            event::clock_gap((gap_secs * 1_000_000_000) as u128),
        ).len(),
    ensures
        selected(events, Some(session), gap_secs) == Ok::<Seq<Event>, Seq<char>>(
            event::split(events, event::clock_gap((gap_secs * 1_000_000_000) as u128))[session as int],
        ),
{
    let gap = event::clock_gap((gap_secs * 1_000_000_000) as u128);
    let groups = event::split(events, gap);
    let run = groups[session as int];
    event::law_sessions_keep_the_events(events, gap);
    event::law_sessions_end_at_silence(events, gap);
    assert forall|i: int| 0 < i < run.len() implies run[i - 1].t_mono_ns <= (
    #[trigger] run[i]).t_mono_ns by {
        assert(groups[session as int][i] == run[i]);
    }
    lemma_steps_forward(run);
}

proof fn lemma_steps_forward(run: Seq<Event>)
    requires
        forall|i: int| 0 < i < run.len() ==> run[i - 1].t_mono_ns <= (#[trigger] run[i]).t_mono_ns,
    ensures
        first_backwards(run) is None,
    decreases run.len(),
{
    if run.len() >= 2 {
        let before = run.drop_last();
        assert forall|i: int| 0 < i < before.len() implies before[i - 1].t_mono_ns <= (
        #[trigger] before[i]).t_mono_ns by {
            assert(run[i - 1].t_mono_ns <= run[i].t_mono_ns);
        }
        lemma_steps_forward(before);
        assert(run[run.len() - 1] == run.last());
    }
}

/// The tempo is that of the beats in a minute, in whole microseconds: a track begins
/// with the longest quarter note of which so many fit in a minute. It ends with the end
/// of the track, and neither takes time.
pub proof fn law_tempo_is_a_minute_over_its_beats(events: Seq<Event>, ppq: u16, bpm: u32)
    requires
        4 <= bpm <= 60_000_000,
    ensures
        track_of(events, ppq, bpm).len() >= 2,
        track_of(events, ppq, bpm)[0].kind matches TrackKind::Tempo(us) && us * bpm <= 60_000_000 < (
        us + 1) * bpm,
        track_of(events, ppq, bpm)[0].delta == 0,
        track_of(events, ppq, bpm).last().kind is EndOfTrack,
        track_of(events, ppq, bpm).last().delta == 0,
{
    let us: u32 = MINUTE_US / bpm;
    assert(us * bpm <= 60_000_000 < (us + 1) * bpm && us <= 15_000_000) by (nonlinear_arith)
        requires
            us == 60_000_000u32 / bpm,
            4 <= bpm <= 60_000_000,
    ;
    assert(us % 0x100_0000 == us);
}

/// Fewer than four beats in a minute are more microseconds than a file can say, and
/// only their low 24 bits are kept.
pub proof fn law_slow_tempo_wraps(events: Seq<Event>, ppq: u16, bpm: u32)
    requires
        1 <= bpm <= 3,
    ensures
        track_of(events, ppq, bpm)[0].kind == TrackKind::Tempo(
            if bpm == 1 {
                9_668_352u32
            } else if bpm == 2 {
                13_222_784u32
            } else {
                3_222_784u32
            },
        ),
{
    assert(60_000_000u32 / 1 == 60_000_000);
    assert(60_000_000u32 / 2 == 30_000_000);
    assert(60_000_000u32 / 3 == 20_000_000);
    assert(bpm == 1 || bpm == 2 || bpm == 3);
}

/// A tick is the nearest to the time that it stands for, in beats and nanoseconds:
/// with `ppq` ticks in a beat and `bpm` beats in sixty thousand million nanoseconds it is
/// at most half a tick off, and a half counts as a whole.
pub proof fn law_tick_is_the_nearest_to_its_time(dt_ns: int, ppq: u16, bpm: u32, n: int)
    ensures
        ticks(dt_ns, ppq, bpm) == n <==> -30_000_000_000 <= dt_ns * ppq * bpm - n * 60_000_000_000
            < 30_000_000_000,
{
}

proof fn lemma_voices_take(events: Seq<Event>, n: int, t0: u64, ppq: u16, bpm: u32)
    requires
        0 <= n <= events.len(),
    ensures
        voices(events.take(n), t0, ppq, bpm).len() <= voices(events, t0, ppq, bpm).len(),
        voices(events, t0, ppq, bpm).take(voices(events.take(n), t0, ppq, bpm).len() as int)
            == voices(events.take(n), t0, ppq, bpm),
    decreases events.len() - n,
{
    if n == events.len() {
        assert(events.take(n) =~= events);
        assert(voices(events, t0, ppq, bpm).take(voices(events, t0, ppq, bpm).len() as int)
            =~= voices(events, t0, ppq, bpm));
    } else {
        lemma_voices_take(events, n + 1, t0, ppq, bpm);
        assert(events.take(n + 1).drop_last() =~= events.take(n));
        let all = voices(events, t0, ppq, bpm);
        let some = voices(events.take(n + 1), t0, ppq, bpm);
        let fewer = voices(events.take(n), t0, ppq, bpm);
        assert(fewer.len() <= some.len());
        assert(some.take(fewer.len() as int) =~= fewer);
        assert(all.take(fewer.len() as int) =~= some.take(fewer.len() as int));
    }
}

proof fn lemma_elapsed_after(head: TrackEvent, track: Seq<TrackEvent>)
    requires
        head.delta == 0,
    ensures
        elapsed(seq![head] + track) == elapsed(track),
    decreases track.len(),
{
    let whole = seq![head] + track;
    if track.len() == 0 {
        assert(whole.drop_last() =~= Seq::empty());
        reveal_with_fuel(elapsed, 2);
    } else {
        assert(whole.drop_last() =~= seq![head] + track.drop_last());
        lemma_elapsed_after(head, track.drop_last());
    }
}

/// Whether an event has a place in a track: all have but system exclusive messages
/// and those of no known kind.
pub open spec fn has_a_place(event: Event) -> bool {
    !(event.msg is Sysex) && !(event.msg is Other)
}

proof fn lemma_unvoiced(events: Seq<Event>)
    ensures
        unvoiced(events) == events.filter(|e: Event| e.msg is Sysex || e.msg is Other).len(),
    decreases events.len(),
{
    reveal(Seq::filter);
    if events.len() > 0 {
        lemma_unvoiced(events.drop_last());
    }
}

/// What is skipped is what a file has no form for: the system exclusive messages and
/// those of no known kind, and nothing else.
pub proof fn law_only_these_are_skipped(events: Seq<Event>)
    ensures
        unvoiced(events) == events.filter(|e: Event| e.msg is Sysex || e.msg is Other).len(),
        forall|i: int|
            0 <= i < events.len() ==> (voiced((#[trigger] events[i]).msg) is Some <==> has_a_place(
                events[i],
            )),
{
    lemma_unvoiced(events);
}

proof fn lemma_last_tick_bounds(events: Seq<Event>, n: int, ppq: u16, bpm: u32)
    requires
        forward(events),
        0 <= n <= events.len(),
        events.len() > 0,
        ppq * bpm <= 60_000_000_000,
    ensures
        0 <= last_tick(events.take(n), events[0].t_mono_ns, ppq, bpm),
    decreases n,
{
    if n > 0 {
        let t0 = events[0].t_mono_ns;
        assert(events.take(n).drop_last() =~= events.take(n - 1));
        lemma_last_tick_bounds(events, n - 1, ppq, bpm);
        assert(events[0].t_mono_ns <= events[n - 1].t_mono_ns);
        law_ticks_fit(events[n - 1].t_mono_ns - t0, ppq, bpm);
        lemma_ticks_grow(events[n - 1].t_mono_ns - t0, events[n - 1].t_mono_ns - t0, ppq, bpm);
    }
}

/// Where an event is in its track: after the tempo and the events before it that have a
/// place, with its own message; and the deltas up to it add up to the ticks of the time
/// since the first event, as long as a delta can hold those.
pub proof fn law_event_is_at_its_time(events: Seq<Event>, n: int, ppq: u16, bpm: u32) -> (at: int)
    requires
        forward(events),
        0 <= n < events.len(),
        has_a_place(events[n]),
        ppq * bpm <= 60_000_000_000,
        ticks(events[n].t_mono_ns - events[0].t_mono_ns, ppq, bpm) <= 0x0FFF_FFFF,
    ensures
        at == 1 + n - events.take(n).filter(|e: Event| e.msg is Sysex || e.msg is Other).len(),
        0 < at < track_of(events, ppq, bpm).len() - 1,
        voiced(events[n].msg) matches Some((channel, message)) && track_of(events, ppq, bpm)[at].kind
            == (TrackKind::Midi { channel, message }),
        elapsed(track_of(events, ppq, bpm).take(at + 1)) == ticks(
            events[n].t_mono_ns - events[0].t_mono_ns,
            ppq,
            bpm,
        ),
{
    let t0 = events[0].t_mono_ns;
    let here = events.take(n + 1);
    let at: int = voices(here, t0, ppq, bpm).len() as int;
    assert(here.drop_last() =~= events.take(n));
    assert(here.last() == events[n]);
    lemma_unvoiced(events.take(n));
    law_events_are_projected_or_skipped(events.take(n), t0, ppq, bpm);
    lemma_voices_take(events, n + 1, t0, ppq, bpm);
    let track = track_of(events, ppq, bpm);
    let all = voices(events, t0, ppq, bpm);
    assert(track[at] == all[at - 1]);
    assert(all.take(at)[at - 1] == voices(here, t0, ppq, bpm).last());
    assert(track.take(at + 1) =~= seq![track[0]] + all.take(at));
    lemma_elapsed_after(track[0], all.take(at));
    assert forall|m: int|
        0 < m <= here.len() && voiced(#[trigger] here[m - 1].msg) is Some implies 0 <= tick(
        here[m - 1].t_mono_ns - t0,
        ppq,
        bpm,
    ) - last_tick(here.take(m - 1), t0, ppq, bpm) <= 0x0FFF_FFFF by {
        assert(here[m - 1] == events[m - 1]);
        assert(here.take(m - 1) =~= events.take(m - 1));
        lemma_last_tick(events, m - 1, ppq, bpm);
        lemma_last_tick_bounds(events, m - 1, ppq, bpm);
        assert(events[0].t_mono_ns <= events[m - 1].t_mono_ns <= events[n].t_mono_ns);
        law_ticks_fit(events[m - 1].t_mono_ns - t0, ppq, bpm);
        lemma_ticks_grow(events[m - 1].t_mono_ns - t0, events[n].t_mono_ns - t0, ppq, bpm);
    }
    law_deltas_add_up_to_the_tick(here, t0, ppq, bpm);
    assert(events[0].t_mono_ns <= events[n].t_mono_ns);
    law_ticks_fit(events[n].t_mono_ns - t0, ppq, bpm);
    at
}

proof fn lemma_played_bounds(t: int, us: int, bpm: int, x: int)
    requires
        0 <= t,
        0 < bpm,
        us * bpm <= 60_000_000 < (us + 1) * bpm,
        -30_000_000_000 <= x - t * 60_000_000_000 <= 30_000_000_000,
    ensures
        t * us * 1000 * bpm <= x + 30_000_000_000,
        x - 30_000_000_000 - t * 1000 * bpm <= t * us * 1000 * bpm,
{
    let beat = us * bpm;
    assert((us + 1) * bpm == beat + bpm) by (nonlinear_arith)
        requires
            beat == us * bpm,
    ;
    assert(t * us * 1000 * bpm == 1000 * (t * beat)) by (nonlinear_arith)
        requires
            beat == us * bpm,
    ;
    assert(t * beat <= t * 60_000_000) by (nonlinear_arith)
        requires
            0 <= t,
            beat <= 60_000_000,
    ;
    assert(t * 60_000_000 <= t * beat + t * bpm) by (nonlinear_arith)
        requires
            0 <= t,
            60_000_000 <= beat + bpm,
    ;
    assert(t * 1000 * bpm == 1000 * (t * bpm)) by (nonlinear_arith);
}

/// A track plays in the time that was captured. At its tempo of `us` microseconds in a
/// quarter note of `ppq` ticks, the deltas up to an event last as long as the clock ran
/// from the first event to it, to within half a tick and the part of a microsecond that
/// the tempo drops from each quarter note. Both sides are multiplied by `ppq * bpm`.
pub proof fn law_track_plays_in_captured_time(events: Seq<Event>, n: int, ppq: u16, bpm: u32)
    requires
        forward(events),
        0 <= n < events.len(),
        has_a_place(events[n]),
        4 <= bpm <= 60_000_000,
        ppq * bpm <= 60_000_000_000,
        ticks(events[n].t_mono_ns - events[0].t_mono_ns, ppq, bpm) <= 0x0FFF_FFFF,
    ensures
        ({
            let track = track_of(events, ppq, bpm);
            let at = 1 + n - events.take(n).filter(
                |e: Event| e.msg is Sysex || e.msg is Other,
            ).len();
            let played = elapsed(track.take(at + 1));
            let captured_ns = events[n].t_mono_ns - events[0].t_mono_ns;
            track[0].kind matches TrackKind::Tempo(us) && {
                &&& played * us * 1000 * bpm <= captured_ns * ppq * bpm + 30_000_000_000
                &&& captured_ns * ppq * bpm - 30_000_000_000 - played * 1000 * bpm <= played * us
                    * 1000 * bpm
            }
        }),
{
    let at = law_event_is_at_its_time(events, n, ppq, bpm);
    law_tempo_is_a_minute_over_its_beats(events, ppq, bpm);
    let dt = events[n].t_mono_ns - events[0].t_mono_ns;
    assert(events[0].t_mono_ns <= events[n].t_mono_ns);
    lemma_ticks_grow(dt, dt, ppq, bpm);
    law_tick_is_the_nearest_to_its_time(dt, ppq, bpm, ticks(dt, ppq, bpm));
    let us = track_of(events, ppq, bpm)[0].kind->Tempo_0;
    lemma_played_bounds(ticks(dt, ppq, bpm), us as int, bpm as int, dt * ppq * bpm);
}

/// A delta is the step from the event before it that has a place, or the longest that
/// a file can say.
pub proof fn law_delta_is_the_step(events: Seq<Event>, from: int, ppq: u16, bpm: u32)
    requires
        forward(events),
        0 <= from < events.len() - 1,
        has_a_place(events[from]),
        has_a_place(events.last()),
        forall|i: int| from < i < events.len() - 1 ==> !has_a_place(#[trigger] events[i]),
        ppq * bpm <= 60_000_000_000,
    ensures
        ({
            let t0 = events[0].t_mono_ns;
            let step = ticks(events.last().t_mono_ns - t0, ppq, bpm) - ticks(
                events[from].t_mono_ns - t0,
                ppq,
                bpm,
            );
            let track = track_of(events, ppq, bpm);
            let delta = track[track.len() - 2].delta;
            if step <= 0x0FFF_FFFF {
                delta == step
            } else {
                delta == 0x0FFF_FFFF
            }
        }),
{
    let t0 = events[0].t_mono_ns;
    let last = events.len() - 1;
    assert(events.last() == events[last]);
    assert(events[0].t_mono_ns <= events[from].t_mono_ns <= events[last].t_mono_ns);
    law_ticks_fit(events[from].t_mono_ns - t0, ppq, bpm);
    law_ticks_fit(events[last].t_mono_ns - t0, ppq, bpm);
    lemma_ticks_grow(events[from].t_mono_ns - t0, events[last].t_mono_ns - t0, ppq, bpm);
    lemma_last_tick_of(events, from, last, t0, ppq, bpm);
    assert(events.drop_last() =~= events.take(last));
}

proof fn lemma_last_tick_of(
    events: Seq<Event>,
    from: int,
    n: int,
    t0: u64,
    ppq: u16,
    bpm: u32,
)
    requires
        0 <= from < n <= events.len(),
        has_a_place(events[from]),
        forall|i: int| from < i < n ==> !has_a_place(#[trigger] events[i]),
    ensures
        last_tick(events.take(n), t0, ppq, bpm) == tick(events[from].t_mono_ns - t0, ppq, bpm),
    decreases n,
{
    assert(events.take(n).last() == events[n - 1]);
    assert(events.take(n).drop_last() =~= events.take(n - 1));
    if from < n - 1 {
        lemma_last_tick_of(events, from, n - 1, t0, ppq, bpm);
    }
}

/// Numbers go into a file as they are where it has room for them. Where it has not, a
/// channel and a number of a key, a controller or a program keep their low bits, and a
/// value stops at the largest or the smallest that fits.
pub proof fn law_numbers_keep_to_a_file(msg: Message)
    ensures
        match msg {
            Message::NoteOn { ch, note, vel } => voiced(msg) matches Some((c, Voice::NoteOn { key, vel: v }))
                && low_bits(c, ch, 16) && low_bits(key, note, 128) && v == (if vel < 127 {
                vel as int
            } else {
                127
            }),
            Message::NoteOff { ch, note, vel } => voiced(msg) matches Some((c, Voice::NoteOff { key, vel: v }))
                && low_bits(c, ch, 16) && low_bits(key, note, 128) && v == (if vel < 127 {
                vel as int
            } else {
                127
            }),
            Message::Cc { ch, cc, val } => voiced(msg) matches Some((c, Voice::Controller { controller, value }))
                && low_bits(c, ch, 16) && low_bits(controller, cc, 128) && value == (if val < 0 {
                0
            } else if val < 127 {
                val as int
            } else {
                127
            }),
            Message::PitchBend { ch, val } => voiced(msg) matches Some((c, Voice::PitchBend { bend }))
                && low_bits(c, ch, 16) && bend - 8192 == (if val < -8192 {
                -8192
            } else if val < 8191 {
                val as int
            } else {
                8191
            }),
            Message::Program { ch, prog } => voiced(msg) matches Some((c, Voice::ProgramChange { program }))
                && low_bits(c, ch, 16) && low_bits(program, prog, 128),
            Message::ChannelPressure { ch, val } => voiced(msg) matches Some((c, Voice::ChannelAftertouch { vel }))
                && low_bits(c, ch, 16) && vel == (if val < 127 {
                val as int
            } else {
                127
            }),
            Message::PolyPressure { ch, note, val } => voiced(msg) matches Some((c, Voice::Aftertouch { key, vel }))
                && low_bits(c, ch, 16) && low_bits(key, note, 128) && vel == (if val < 127 {
                val as int
            } else {
                127
            }),
            Message::Sysex { .. } => voiced(msg) is None,
            Message::Other { .. } => voiced(msg) is None,
        },
{
}

/// Whether `low` is the part of `n` below `size`: it differs by whole sizes.
pub open spec fn low_bits(low: u8, n: u8, size: int) -> bool {
    low < size && low <= n && (n - low) % size == 0
}

/// All events are projected exactly where there are some and the clock never steps
/// back from one to the next.
pub proof fn law_all_is_projected_where_the_clock_goes_forward(events: Seq<Event>, gap_secs: u64)
    ensures
        selected(events, None, gap_secs) is Ok <==> events.len() > 0 && forall|i: int|
            0 < i < events.len() ==> events[i - 1].t_mono_ns <= (#[trigger] events[i]).t_mono_ns,
        selected(events, None, gap_secs) matches Ok(run) ==> run == events,
        events.len() == 0 ==> selected(events, None, gap_secs) == Err::<Seq<Event>, Seq<char>>(
            "no events to project"@,
        ),
{
    lemma_forward(events);
    if forall|i: int|
        0 < i < events.len() ==> events[i - 1].t_mono_ns <= (#[trigger] events[i]).t_mono_ns {
        lemma_steps_forward(events);
    } else {
        let i = choose|i: int|
            0 < i < events.len() && events[i - 1].t_mono_ns > (#[trigger] events[i]).t_mono_ns;
        assert(events[i - 1].t_mono_ns > events[i].t_mono_ns);
    }
}

proof fn lemma_first_backwards_at(events: Seq<Event>, at: int)
    requires
        0 < at < events.len(),
        events[at].t_mono_ns < events[at - 1].t_mono_ns,
        forall|i: int| 0 < i < at ==> events[i - 1].t_mono_ns <= (#[trigger] events[i]).t_mono_ns,
    ensures
        first_backwards(events) == Some(at),
    decreases events.len(),
{
    let before = events.drop_last();
    if at < before.len() {
        assert forall|i: int| 0 < i < at implies before[i - 1].t_mono_ns <= (
        #[trigger] before[i]).t_mono_ns by {
            assert(events[i - 1].t_mono_ns <= events[i].t_mono_ns);
        }
        lemma_first_backwards_at(before, at);
    } else {
        assert forall|i: int| 0 < i < before.len() implies before[i - 1].t_mono_ns <= (
        #[trigger] before[i]).t_mono_ns by {
            assert(events[i - 1].t_mono_ns <= events[i].t_mono_ns);
        }
        lemma_steps_forward(before);
    }
}

/// A refusal names the first event whose clock is behind the one before it, counted
/// from one.
pub proof fn law_refusal_names_the_first_step_back(events: Seq<Event>, at: int, gap_secs: u64)
    requires
        0 < at < events.len(),
        events[at].t_mono_ns < events[at - 1].t_mono_ns,
        forall|i: int| 0 < i < at ==> events[i - 1].t_mono_ns <= (#[trigger] events[i]).t_mono_ns,
    ensures
        selected(events, None, gap_secs) == Err::<Seq<Event>, Seq<char>>(
            "t_mono_ns goes backwards at event "@ + text::dec((at + 1) as nat)
                + " (reboot inside the log, or inputs out of order?); project with --session instead"@,
        ),
{
    lemma_first_backwards_at(events, at);
}

/// A session is projected exactly where there are so many, counted from zero. A gap of
/// so many seconds ends one.
pub proof fn law_session_is_projected_where_there_is_one(
    events: Seq<Event>,
    session: usize,
    gap_secs: u64,
)
    ensures
        ({
            let groups = event::split(events, event::clock_gap((gap_secs * 1_000_000_000) as u128));
            if session < groups.len() {
                selected(events, Some(session), gap_secs) == Ok::<Seq<Event>, Seq<char>>(
                    groups[session as int],
                )
            } else {
                selected(events, Some(session), gap_secs) == Err::<Seq<Event>, Seq<char>>(
                    "session "@ + text::dec(session as nat) + " out of range ("@ + text::dec(
                        groups.len(),
                    ) + " found)"@,
                )
            }
        }),
{
    let groups = event::split(events, event::clock_gap((gap_secs * 1_000_000_000) as u128));
    if session < groups.len() {
        law_session_is_never_backwards(events, session, gap_secs);
    }
}

/// Whatever the clock says, events have a track at any resolution that is no finer
/// than a nanosecond.
pub proof fn law_nanoseconds_can_be_projected(
    events: Seq<Event>,
    session: Option<usize>,
    gap_secs: u64,
    ppq: u16,
    bpm: u32,
)
    requires
        ppq * bpm <= 60_000_000_000,
    ensures
        projectable(events, session, gap_secs, ppq, bpm),
{
}

/// A tick that 64 bits do not hold wraps: what is left out is a multiple of what they
/// count.
pub proof fn law_tick_wraps(dt_ns: int, ppq: u16, bpm: u32)
    ensures
        0 <= tick(dt_ns, ppq, bpm) <= u64::MAX,
        (ticks(dt_ns, ppq, bpm) - tick(dt_ns, ppq, bpm)) % 18_446_744_073_709_551_616 == 0,
{
}

proof fn lemma_last_tick_before(events: Seq<Event>, n: int, m: int, ppq: u16, bpm: u32)
    requires
        0 <= m < n <= events.len(),
        has_a_place(events[m]),
        ticks_ahead(events, ppq, bpm),
    ensures
        tick(events[m].t_mono_ns - events[0].t_mono_ns, ppq, bpm) <= last_tick(
            events.take(n),
            events[0].t_mono_ns,
            ppq,
            bpm,
        ),
    decreases n,
{
    let here = events.take(n);
    assert(here.drop_last() =~= events.take(n - 1));
    assert(here.last() == events[n - 1]);
    if m < n - 1 {
        lemma_last_tick_before(events, n - 1, m, ppq, bpm);
        if voiced(events[n - 1].msg) is Some {
            assert(voiced(events[n - 1].msg) is Some);
        }
    }
}

proof fn lemma_last_tick_is_one(events: Seq<Event>, n: int, t0: u64, ppq: u16, bpm: u32) -> (m: int)
    requires
        0 <= n <= events.len(),
    ensures
        m == -1 || (0 <= m < n && has_a_place(events[m])),
        last_tick(events.take(n), t0, ppq, bpm) == if m == -1 {
            0
        } else {
            tick(events[m].t_mono_ns - t0, ppq, bpm)
        },
    decreases n,
{
    if n == 0 {
        -1
    } else {
        assert(events.take(n).drop_last() =~= events.take(n - 1));
        assert(events.take(n).last() == events[n - 1]);
        if voiced(events[n - 1].msg) is Some {
            n - 1
        } else {
            lemma_last_tick_is_one(events, n - 1, t0, ppq, bpm)
        }
    }
}

/// Ticks are ahead exactly where no event with a place in the track has a tick below
/// that of one before it.
pub proof fn law_ticks_ahead_never_fall(events: Seq<Event>, ppq: u16, bpm: u32)
    ensures
        ticks_ahead(events, ppq, bpm) <==> forall|m: int, n: int|
            0 <= m < n < events.len() && has_a_place(#[trigger] events[m]) && has_a_place(
                #[trigger] events[n],
            ) ==> tick(events[m].t_mono_ns - events[0].t_mono_ns, ppq, bpm) <= tick(
                events[n].t_mono_ns - events[0].t_mono_ns,
                ppq,
                bpm,
            ),
{
    if ticks_ahead(events, ppq, bpm) {
        assert forall|m: int, n: int|
            0 <= m < n < events.len() && has_a_place(#[trigger] events[m]) && has_a_place(
                #[trigger] events[n],
            ) implies tick(events[m].t_mono_ns - events[0].t_mono_ns, ppq, bpm) <= tick(
            events[n].t_mono_ns - events[0].t_mono_ns,
            ppq,
            bpm,
        ) by {
            lemma_last_tick_before(events, n, m, ppq, bpm);
            assert(voiced(events[n].msg) is Some);
        }
    }
    if forall|m: int, n: int|
        0 <= m < n < events.len() && has_a_place(#[trigger] events[m]) && has_a_place(
            #[trigger] events[n],
        ) ==> tick(events[m].t_mono_ns - events[0].t_mono_ns, ppq, bpm) <= tick(
            events[n].t_mono_ns - events[0].t_mono_ns,
            ppq,
            bpm,
        ) {
        assert forall|n: int|
            0 <= n < events.len() && voiced((#[trigger] events[n]).msg) is Some implies last_tick(
            events.take(n),
            events[0].t_mono_ns,
            ppq,
            bpm,
        ) <= tick(events[n].t_mono_ns - events[0].t_mono_ns, ppq, bpm) by {
            let m = lemma_last_tick_is_one(events, n, events[0].t_mono_ns, ppq, bpm);
            if m >= 0 {
                assert(has_a_place(events[m]) && has_a_place(events[n]));
            }
        }
    }
}

} // verus!
