//! Captured events, and the sessions that they form.
//!
//! Wire values are kept as they came; sessions are a view derived from the
//! silences between events.

use crate::calendar;
use crate::calendar::Date;
use crate::text;
use crate::text::dec_padded_text;
use vstd::prelude::*;
use vstd::slice::slice_subrange;

verus! {

/// A captured event.
#[derive(Debug, Clone, PartialEq, Eq)]
pub struct Event {
    /// The monotonic clock at capture, in nanoseconds. It alone orders events
    /// and measures the gaps between them; it stalls during suspend and starts
    /// again from zero on reboot.
    pub t_mono_ns: u64,
    /// The wall clock at capture, RFC 3339.
    pub t_wall: String,
    /// The sequencer address of the source, such as `24:0`.
    pub src: String,
    /// The group; always 0 for MIDI 1.0.
    pub group: u8,
    pub msg: Message,
}

/// What a captured event says.
#[derive(Debug, Clone, PartialEq, Eq)]
pub enum Message {
    NoteOn { ch: u8, note: u8, vel: u16 },
    NoteOff { ch: u8, note: u8, vel: u16 },
    /// A control change, with the raw controller value, from 0 to 127.
    Cc { ch: u8, cc: u8, val: i32 },
    /// A pitch bend, centered on zero as the sequencer reports it: from -8192 to
    /// 8191.
    PitchBend { ch: u8, val: i32 },
    Program { ch: u8, prog: u8 },
    ChannelPressure { ch: u8, val: u8 },
    PolyPressure { ch: u8, note: u8, val: u8 },
    /// A system-exclusive frame, as lowercase hexadecimal of all of `F0..F7`.
    Sysex { raw: String },
    /// Any other message, as hexadecimal of its wire bytes.
    Other { raw: String },
}

/// The contents of a captured message.
pub enum MessageView {
    NoteOn { ch: u8, note: u8, vel: u16 },
    NoteOff { ch: u8, note: u8, vel: u16 },
    Cc { ch: u8, cc: u8, control: i32 },
    PitchBend { ch: u8, bend: i32 },
    Program { ch: u8, prog: u8 },
    ChannelPressure { ch: u8, pressure: u8 },
    PolyPressure { ch: u8, note: u8, pressure: u8 },
    Sysex { raw: Seq<char> },
    Other { raw: Seq<char> },
}

impl View for Message {
    type V = MessageView;

    open spec fn view(&self) -> MessageView {
        match *self {
            Message::NoteOn { ch, note, vel } => MessageView::NoteOn { ch, note, vel },
            Message::NoteOff { ch, note, vel } => MessageView::NoteOff { ch, note, vel },
            Message::Cc { ch, cc, val } => MessageView::Cc { ch, cc, control: val },
            Message::PitchBend { ch, val } => MessageView::PitchBend { ch, bend: val },
            Message::Program { ch, prog } => MessageView::Program { ch, prog },
            Message::ChannelPressure { ch, val } => MessageView::ChannelPressure {
                ch,
                pressure: val,
            },
            Message::PolyPressure { ch, note, val } => MessageView::PolyPressure {
                ch,
                note,
                pressure: val,
            },
            Message::Sysex { raw } => MessageView::Sysex { raw: raw@ },
            Message::Other { raw } => MessageView::Other { raw: raw@ },
        }
    }
}

/// The contents of a message that may be missing.
pub open spec fn message_option(m: Option<Message>) -> Option<MessageView> {
    match m {
        Some(m) => Some(m@),
        None => None,
    }
}

// ---------------------------------------------------------------------------
// Where captures are kept
// ---------------------------------------------------------------------------

/// The place of the capture log of a day, below the capture directory.
pub open spec fn log_path(d: calendar::Day) -> Seq<char> {
    text::dec_padded(d.year, 4) + "/"@ + text::dec_padded(d.month, 2) + "/"@ + text::dec_padded(
        d.day,
        2,
    ) + ".jsonl"@
}

/// The place of the capture log of a day, below the capture directory:
/// `YYYY/MM/DD.jsonl`. The log is divided by local date, and its writer and
/// every reader agree on this layout.
pub fn capture_path(date: Date) -> (r: String)
    ensures
        r@ == log_path(date@),
{
    let (year, month, day) = (date.year(), date.month(), date.day());
    dec_padded_text(year as i64, 4).concat("/").concat(
        dec_padded_text(month as i64, 2).as_str(),
    ).concat("/").concat(dec_padded_text(day as i64, 2).as_str()).concat(".jsonl")
}

// ---------------------------------------------------------------------------
// Sessions
// ---------------------------------------------------------------------------

/// The silence that ends a session. Events stay in one session while the
/// monotonic clock advances by at most the gap; a longer advance is silence, and
/// a step backwards is a reboot. Both begin a new session.
#[derive(Clone, Copy)]
pub struct SessionGap {
    gap_ns: u64,
}

/// The nanoseconds from `prev` to `cur` that count as playing; none where a
/// session ends between them.
pub open spec fn played_span(gap_ns: u64, prev: u64, cur: u64) -> Option<u64> {
    if prev <= cur && cur - prev <= gap_ns {
        Some((cur - prev) as u64)
    } else {
        None
    }
}

/// A gap in nanoseconds, as far as the clock can count.
pub open spec fn clock_gap(gap_ns: u128) -> u64 {
    if gap_ns > u64::MAX {
        u64::MAX
    } else {
        gap_ns as u64
    }
}

impl SessionGap {
    /// The gap in nanoseconds.
    pub closed spec fn ns(&self) -> u64 {
        self.gap_ns
    }

    /// The rule for a gap of so many nanoseconds.
    pub fn new(gap_ns: u128) -> (r: Self)
        ensures
            r.ns() == clock_gap(gap_ns),
    {
        SessionGap {
            gap_ns: if gap_ns > 0xFFFF_FFFF_FFFF_FFFFu128 {
                u64::MAX
            } else {
                gap_ns as u64
            },
        }
    }

    /// The nanoseconds from `prev` to `cur` that count as playing; none where a
    /// session ends between them.
    pub fn played(&self, prev: u64, cur: u64) -> (r: Option<u64>)
        ensures
            r == played_span(self.ns(), prev, cur),
    {
        if prev <= cur && cur - prev <= self.gap_ns {
            Some(cur - prev)
        } else {
            None
        }
    }
}

/// The sessions of a run of events, in order.
pub open spec fn split(events: Seq<Event>, gap_ns: u64) -> Seq<Seq<Event>>
    decreases events.len(),
{
    if events.len() == 0 {
        Seq::empty()
    } else {
        let before = split(events.drop_last(), gap_ns);
        let cur = events.last();
        if before.len() > 0 && played_span(
            gap_ns,
            before.last().last().t_mono_ns,
            cur.t_mono_ns,
        ) is Some {
            before.update(before.len() - 1, before.last().push(cur))
        } else {
            before.push(seq![cur])
        }
    }
}

/// The contents of each slice of a list.
pub open spec fn slices_view(list: Seq<&[Event]>) -> Seq<Seq<Event>> {
    list.map_values(|s: &[Event]| s@)
}

/// The events in their sessions, as slices in the order of the log.
pub fn sessions(events: &[Event], gap_ns: u128) -> (r: Vec<&[Event]>)
    ensures
        slices_view(r@) == split(events@, clock_gap(gap_ns)),
{
    let gap = SessionGap::new(gap_ns);
    let ghost g = clock_gap(gap_ns);
    let mut out: Vec<&[Event]> = Vec::new();
    if events.len() == 0 {
        assert(slices_view(out@) =~= Seq::empty());
        return out;
    }
    let mut start: usize = 0;
    let mut i: usize = 1;
    proof {
        let one = events@.take(1);
        assert(one.drop_last() =~= Seq::empty());
        assert(events@.subrange(0, 1) =~= seq![one.last()]);
        assert(slices_view(out@) =~= Seq::empty());
        assert(split(one.drop_last(), g) =~= Seq::empty());
        assert(split(one, g) =~= slices_view(out@).push(events@.subrange(0, 1)));
    }
    while i < events.len()
        invariant
            start < i <= events.len(),
            gap.ns() == g,
            split(events@.take(i as int), g) == slices_view(out@).push(
                events@.subrange(start as int, i as int),
            ),
        decreases events.len() - i,
    {
        let ghost here = events@.take(i + 1);
        let ghost open = events@.subrange(start as int, i as int);
        proof {
            assert(here.drop_last() =~= events@.take(i as int));
            assert(open.last() == events@[i - 1]);
        }
        let ghost list = slices_view(out@);
        if gap.played(events[i - 1].t_mono_ns, events[i].t_mono_ns).is_none() {
            let done = slice_subrange(events, start, i);
            out.push(done);
            proof {
                assert(slices_view(out@) =~= list.push(open));
                assert(events@.subrange(i as int, i + 1) =~= seq![events@[i as int]]);
            }
            start = i;
        } else {
            proof {
                let longer = events@.subrange(start as int, i + 1);
                assert(longer =~= open.push(events@[i as int]));
                assert(list.push(open).update(list.len() as int, longer) =~= list.push(longer));
            }
        }
        i = i + 1;
    }
    let rest = slice_subrange(events, start, events.len());
    let ghost list = slices_view(out@);
    out.push(rest);
    assert(slices_view(out@) =~= list.push(rest@));
    assert(events@.take(events@.len() as int) =~= events@);
    out
}

// ---------------------------------------------------------------------------
// Laws
// ---------------------------------------------------------------------------

/// Each day has a log of its own: no two days share a path.
pub proof fn law_each_day_has_its_own_log(a: calendar::Day, b: calendar::Day)
    requires
        a.valid(),
        b.valid(),
        log_path(a) == log_path(b),
    ensures
        a == b,
{
    reveal_strlit("/");
    reveal_strlit(".jsonl");
    text::lemma_dec_padded(a.year, b.year, 4);
    text::lemma_dec_padded(a.month, b.month, 2);
    text::lemma_dec_padded(b.month, a.month, 2);
    text::lemma_dec_padded(a.day, b.day, 2);
    text::lemma_dec_padded(b.day, a.day, 2);
    let (p, q) = (log_path(a), log_path(b));
    let n = p.len() as int;
    assert(p.take(n - 12) =~= text::dec_padded(a.year, 4));
    assert(q.take(n - 12) =~= text::dec_padded(b.year, 4));
    assert(p.subrange(n - 11, n - 9) =~= text::dec_padded(a.month, 2));
    assert(q.subrange(n - 11, n - 9) =~= text::dec_padded(b.month, 2));
    assert(p.subrange(n - 8, n - 6) =~= text::dec_padded(a.day, 2));
    assert(q.subrange(n - 8, n - 6) =~= text::dec_padded(b.day, 2));
}

/// The sessions one after the other.
pub open spec fn run_together(groups: Seq<Seq<Event>>) -> Seq<Event>
    decreases groups.len(),
{
    if groups.len() == 0 {
        Seq::empty()
    } else {
        run_together(groups.drop_last()) + groups.last()
    }
}

/// No event is lost, repeated or moved: the sessions one after the other are the
/// events.
pub proof fn law_sessions_keep_the_events(events: Seq<Event>, gap_ns: u64)
    ensures
        run_together(split(events, gap_ns)) == events,
        forall|k: int|
            0 <= k < split(events, gap_ns).len() ==> (#[trigger] split(events, gap_ns)[k]).len() > 0,
        split(events, gap_ns).len() == 0 <==> events.len() == 0,
        events.len() > 0 ==> split(events, gap_ns).last().last() == events.last(),
    decreases events.len(),
{
    if events.len() > 0 {
        let before = split(events.drop_last(), gap_ns);
        let after = split(events, gap_ns);
        law_sessions_keep_the_events(events.drop_last(), gap_ns);
        assert(events =~= events.drop_last().push(events.last()));
        assert(run_together(after) =~= events) by {
            if after.len() == before.len() {
                assert(after.drop_last() =~= before.drop_last());
            } else {
                assert(after.drop_last() =~= before);
            }
        }
    }
}

/// What counts as playing is all of the time between two events, where that is no
/// longer than the gap; after a longer time, or where the clock steps back, nothing
/// counts.
pub proof fn law_played_time_is_the_time_between(gap_ns: u64, prev: u64, cur: u64, d: u64)
    ensures
        played_span(gap_ns, prev, cur) == Some(d) <==> prev + d == cur && d <= gap_ns,
        played_span(gap_ns, prev, cur) is None <==> cur < prev || cur > prev + gap_ns,
{
}

/// A time that the clock can measure is within a gap exactly where it is within the
/// gap as far as the clock counts it.
pub proof fn law_gap_counts_as_given(gap_ns: u128, d: u64)
    ensures
        d <= clock_gap(gap_ns) <==> d <= gap_ns,
{
}

/// Within a session the clock never steps back and never advances by more than the
/// gap; from the end of one session to the start of the next it does one or the
/// other.
pub proof fn law_sessions_end_at_silence(events: Seq<Event>, gap_ns: u64)
    ensures
        forall|k: int, i: int|
            0 <= k < split(events, gap_ns).len() && 0 < i < split(events, gap_ns)[k].len() ==> 0
                <= (#[trigger] split(events, gap_ns)[k][i]).t_mono_ns - split(
                events,
                gap_ns,
            )[k][i - 1].t_mono_ns <= gap_ns,
        forall|k: int|
            0 < k < split(events, gap_ns).len() ==> {
                let from = split(events, gap_ns)[k - 1].last().t_mono_ns;
                let to = (#[trigger] split(events, gap_ns)[k])[0].t_mono_ns;
                to < from || to - from > gap_ns
            },
    decreases events.len(),
{
    if events.len() > 0 {
        let before = split(events.drop_last(), gap_ns);
        let after = split(events, gap_ns);
        law_sessions_end_at_silence(events.drop_last(), gap_ns);
        law_sessions_keep_the_events(events.drop_last(), gap_ns);
        assert forall|k: int, i: int| 0 <= k < after.len() && 0 < i < after[k].len() implies 0 <= (
        #[trigger] after[k][i]).t_mono_ns - after[k][i - 1].t_mono_ns <= gap_ns by {
            if k < before.len() && i < before[k].len() {
                assert(after[k][i] == before[k][i]);
                assert(after[k][i - 1] == before[k][i - 1]);
            }
        }
        assert forall|k: int| 0 < k < after.len() implies ({
            let from = after[k - 1].last().t_mono_ns;
            let to = (#[trigger] after[k])[0].t_mono_ns;
            to < from || to - from > gap_ns
        }) by {
            assert(k - 1 < before.len());
            assert(after[k - 1] == before[k - 1]);
            if k < before.len() {
                assert(before[k].len() > 0);
                assert(after[k][0] == before[k][0]);
            }
        }
    }
}

/// The path of a day spells its year in at least four characters, its month in two
/// and its day in two, in this order.
pub proof fn law_path_spells_the_day(d: calendar::Day)
    requires
        d.valid(),
        d.year >= 0,
    ensures
        ({
            let p = log_path(d);
            let n = p.len() - 12;
            &&& n >= 4
            &&& text::number(p.take(n)) == d.year
            &&& p[n] == '/' && p[n + 3] == '/'
            &&& 10 * (p[n + 1] as int - '0' as int) + (p[n + 2] as int - '0' as int) == d.month
            &&& 10 * (p[n + 4] as int - '0' as int) + (p[n + 5] as int - '0' as int) == d.day
            &&& p.skip(n + 6) == seq!['.', 'j', 's', 'o', 'n', 'l']
        }),
{
    reveal_strlit("/");
    reveal_strlit(".jsonl");
    text::law_padded_number_reads_back(d.year, 4);
    text::law_padded_number_reads_back(d.month, 2);
    text::law_padded_number_reads_back(d.day, 2);
    let p = log_path(d);
    let year = text::dec_padded(d.year, 4);
    let n = year.len() as int;
    assert(p.len() == n + 12);
    assert(p.take(n) =~= year);
    assert(p.subrange(n + 1, n + 3) =~= text::dec_padded(d.month, 2));
    assert(p.subrange(n + 4, n + 6) =~= text::dec_padded(d.day, 2));
    assert(p[n + 1] == p.subrange(n + 1, n + 3)[0] && p[n + 2] == p.subrange(n + 1, n + 3)[1]);
    assert(p[n + 4] == p.subrange(n + 4, n + 6)[0] && p[n + 5] == p.subrange(n + 4, n + 6)[1]);
    reveal_with_fuel(text::number, 3);
    let m = text::dec_padded(d.month, 2);
    let t = text::dec_padded(d.day, 2);
    assert(m.drop_last() =~= seq![m[0]] && t.drop_last() =~= seq![t[0]]);
    assert(seq![m[0]].drop_last() =~= Seq::empty() && seq![t[0]].drop_last() =~= Seq::empty());
    assert(p.skip(n + 6) =~= seq!['.', 'j', 's', 'o', 'n', 'l']);
}

} // verus!
