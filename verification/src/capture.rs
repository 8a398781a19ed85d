//! From sequencer events to captured messages.
//!
//! Values are recorded as the sequencer hands them over: a note-on with velocity
//! zero stays a `note_on`, and a pitch bend stays centered. Messages without a
//! form of their own are kept as their wire bytes, with two exceptions: real-time
//! chatter is dropped, and channel-voice values outside the 7-bit range of a MIDI
//! 1.0 wire are dropped rather than cut down to something that looks real.

use crate::event;
use crate::event::Message;
use crate::hex;
use crate::ports;
use crate::ports::{addr_text, port_alive, Addr, Client};
use crate::text;
use crate::text::quote;
use vstd::prelude::*;

verus! {

// ---------------------------------------------------------------------------
// Messages
// ---------------------------------------------------------------------------

/// The fields of a note event.
#[derive(Debug, Clone, Copy)]
pub struct Note {
    pub channel: u8,
    pub note: u8,
    pub velocity: u8,
}

/// The fields of a control event.
#[derive(Debug, Clone, Copy)]
pub struct Ctrl {
    pub channel: u8,
    pub param: u32,
    pub value: i32,
}

/// A sequencer event.
#[derive(Debug)]
pub enum SeqEvent {
    Noteon(Note),
    Noteoff(Note),
    Keypress(Note),
    Controller(Ctrl),
    Pgmchange(Ctrl),
    Chanpress(Ctrl),
    Pitchbend(Ctrl),
    Sysex(Vec<u8>),
    Clock,
    Tick,
    Sensing,
    /// Any other event, as the wire bytes that it decodes to, where it does.
    Other(Option<Vec<u8>>),
    /// An event whose data cannot be read.
    Unreadable,
}

/// A number that could appear on a MIDI 1.0 wire.
pub open spec fn on_the_wire(v: int) -> Option<u8> {
    if 0 <= v <= 127 {
        Some(v as u8)
    } else {
        None
    }
}

/// The message that is captured for a sequencer event; none where it is dropped.
pub open spec fn captured(ev: SeqEvent) -> Option<event::MessageView> {
    match ev {
        SeqEvent::Noteon(n) => match (
            on_the_wire(n.note as int),
            on_the_wire(n.velocity as int),
        ) {
            (Some(note), Some(vel)) => Some(
                event::MessageView::NoteOn { ch: n.channel, note, vel: vel as u16 },
            ),
            _ => None,
        },
        SeqEvent::Noteoff(n) => match (
            on_the_wire(n.note as int),
            on_the_wire(n.velocity as int),
        ) {
            (Some(note), Some(vel)) => Some(
                event::MessageView::NoteOff { ch: n.channel, note, vel: vel as u16 },
            ),
            _ => None,
        },
        SeqEvent::Keypress(n) => match (
            on_the_wire(n.note as int),
            on_the_wire(n.velocity as int),
        ) {
            (Some(note), Some(pressure)) => Some(
                event::MessageView::PolyPressure { ch: n.channel, note, pressure },
            ),
            _ => None,
        },
        SeqEvent::Controller(c) => match (
            on_the_wire(c.param as int),
            on_the_wire(c.value as int),
        ) {
            (Some(cc), Some(_)) => Some(
                event::MessageView::Cc { ch: c.channel, cc, control: c.value },
            ),
            _ => None,
        },
        SeqEvent::Pgmchange(c) => match on_the_wire(c.value as int) {
            Some(prog) => Some(event::MessageView::Program { ch: c.channel, prog }),
            None => None,
        },
        SeqEvent::Chanpress(c) => match on_the_wire(c.value as int) {
            Some(pressure) => Some(event::MessageView::ChannelPressure { ch: c.channel, pressure }),
            None => None,
        },
        SeqEvent::Pitchbend(c) => Some(
            event::MessageView::PitchBend { ch: c.channel, bend: c.value },
        ),
        SeqEvent::Sysex(bytes) => Some(event::MessageView::Sysex { raw: hex::hex_of(bytes@) }),
        SeqEvent::Clock | SeqEvent::Tick | SeqEvent::Sensing => None,
        SeqEvent::Other(Some(bytes)) => if bytes@.len() > 0 {
            Some(event::MessageView::Other { raw: hex::hex_of(bytes@) })
        } else {
            None
        },
        SeqEvent::Other(None) => None,
        SeqEvent::Unreadable => None,
    }
}

/// A number goes into a 7-bit field only if it could appear on a MIDI 1.0 wire.
fn wire7(v: i64) -> (r: Option<u8>)
    ensures
        r == on_the_wire(v as int),
{
    if 0 <= v && v <= 127 {
        Some(v as u8)
    } else {
        None
    }
}

/// The message that is captured for a sequencer event; none where it is dropped.
pub fn to_message(ev: &SeqEvent) -> (r: Option<Message>)
    ensures
        event::message_option(r) == captured(*ev),
{
    match ev {
        SeqEvent::Noteon(n) => match (wire7(n.note as i64), wire7(n.velocity as i64)) {
            (Some(note), Some(vel)) => Some(
                Message::NoteOn { ch: n.channel, note, vel: vel as u16 },
            ),
            _ => None,
        },
        SeqEvent::Noteoff(n) => match (wire7(n.note as i64), wire7(n.velocity as i64)) {
            (Some(note), Some(vel)) => Some(
                Message::NoteOff { ch: n.channel, note, vel: vel as u16 },
            ),
            _ => None,
        },
        SeqEvent::Keypress(n) => match (wire7(n.note as i64), wire7(n.velocity as i64)) {
            (Some(note), Some(val)) => Some(Message::PolyPressure { ch: n.channel, note, val }),
            _ => None,
        },
        SeqEvent::Controller(c) => match (wire7(c.param as i64), wire7(c.value as i64)) {
            (Some(cc), Some(_)) => Some(Message::Cc { ch: c.channel, cc, val: c.value }),
            _ => None,
        },
        SeqEvent::Pgmchange(c) => match wire7(c.value as i64) {
            Some(prog) => Some(Message::Program { ch: c.channel, prog }),
            None => None,
        },
        SeqEvent::Chanpress(c) => match wire7(c.value as i64) {
            Some(val) => Some(Message::ChannelPressure { ch: c.channel, val }),
            None => None,
        },
        SeqEvent::Pitchbend(c) => Some(Message::PitchBend { ch: c.channel, val: c.value }),
        SeqEvent::Sysex(bytes) => Some(Message::Sysex { raw: hex::hex(bytes.as_slice()) }),
        SeqEvent::Clock | SeqEvent::Tick | SeqEvent::Sensing => None,
        SeqEvent::Other(bytes) => other(bytes),
        SeqEvent::Unreadable => None,
    }
}

/// Keeps a message without a form of its own as its wire bytes. Events that are
/// no MIDI do not decode, and drop out.
fn other(bytes: &Option<Vec<u8>>) -> (r: Option<Message>)
    ensures
        event::message_option(r) == captured(SeqEvent::Other(*bytes)),
{
    match bytes {
        Some(bytes) => if bytes.len() > 0 {
            Some(Message::Other { raw: hex::hex(bytes.as_slice()) })
        } else {
            None
        },
        None => None,
    }
}

/// The address of a source, as it is written to the log.
pub fn source_of(source: Addr) -> (r: String)
    ensures
        r@ == ports::addr_words(source),
{
    addr_text(source)
}

// ---------------------------------------------------------------------------
// Time
// ---------------------------------------------------------------------------

/// Turns the times of the sequencer's queue into times of the monotonic clock.
#[derive(Debug, Clone, Copy)]
pub struct Clock {
    base_ns: u64,
}

/// Seconds and nanoseconds as nanoseconds.
pub fn monotonic_ns(tv_sec: u64, tv_nsec: u64) -> (r: u64)
    requires
        tv_sec * 1_000_000_000 + tv_nsec <= u64::MAX,
    ensures
        r == tv_sec * 1_000_000_000 + tv_nsec,
{
    tv_sec * 1_000_000_000 + tv_nsec
}

/// A duration as nanoseconds, as far as 64 bits hold them.
pub fn duration_ns(nanos: u128) -> (r: u64)
    ensures
        r == nanos as int % 0x1_0000_0000_0000_0000,
{
    (nanos % 0x1_0000_0000_0000_0000u128) as u64
}

impl Clock {
    /// What the monotonic clock showed when the queue started.
    pub closed spec fn base(&self) -> u64 {
        self.base_ns
    }

    /// The clock, from a moment at which both clocks were read.
    pub fn anchored(mono_ns: u64, queue_ns: u64) -> (r: Self)
        requires
            queue_ns <= mono_ns,
        ensures
            r.base() == mono_ns - queue_ns,
    {
        Clock { base_ns: mono_ns - queue_ns }
    }

    /// Whether the time of the queue can be told on the monotonic clock.
    pub fn can_stamp(&self, queue_ns: Option<u64>) -> (r: bool)
        ensures
            r == (queue_ns matches Some(q) ==> self.base() + q <= u64::MAX),
    {
        match queue_ns {
            Some(q) => q <= u64::MAX - self.base_ns,
            None => true,
        }
    }

    /// The time of an event: that of the queue where the event has one, else the
    /// present.
    pub fn stamp(&self, queue_ns: Option<u64>, now_ns: u64) -> (r: u64)
        requires
            queue_ns matches Some(q) ==> self.base() + q <= u64::MAX,
        ensures
            r == (match queue_ns {
                Some(q) => self.base() + q,
                None => now_ns as int,
            }),
    {
        match queue_ns {
            Some(q) => self.base_ns + q,
            None => now_ns,
        }
    }
}

// ---------------------------------------------------------------------------
// Staying attached
// ---------------------------------------------------------------------------

/// Which source is being captured.
pub struct Attachment {
    current: Option<Addr>,
}

impl Attachment {
    /// The source that is being captured.
    pub closed spec fn source(&self) -> Option<Addr> {
        self.current
    }

    /// At the start, with the source that was subscribed to, and what to say.
    pub fn new(subscribed: Option<Addr>, needle: &str) -> (r: (Self, String))
        ensures
            r.0.source() == subscribed,
            r.1@ == (match subscribed {
                Some(addr) => "midilogd: subscribed to "@ + ports::addr_words(addr),
                None => "midilogd: waiting for a source matching "@ + text::quoted(needle@),
            }),
    {
        let line = match subscribed {
            Some(addr) => "midilogd: subscribed to ".to_owned().concat(addr_text(addr).as_str()),
            None => "midilogd: waiting for a source matching ".to_owned().concat(
                quote(needle).as_str(),
            ),
        };
        (Attachment { current: subscribed }, line)
    }

    /// After something arrived and a subscription was tried: where one was made,
    /// that source is captured. A subscription is tried even while attached: if
    /// it is still there the attempt changes nothing, and if the device came back
    /// under the same address it is the only way to attach again.
    pub fn arrived(&mut self, subscribed: Option<Addr>) -> (line: Option<String>)
        ensures
            match subscribed {
                Some(addr) => final(self).source() == Some(addr) && text::string_option(line)
                    == Some("midilogd: (re)subscribed to "@ + ports::addr_words(addr)),
                None => final(self).source() == old(self).source() && line is None,
            },
    {
        match subscribed {
            Some(addr) => {
                self.current = Some(addr);
                Some(
                    "midilogd: (re)subscribed to ".to_owned().concat(addr_text(addr).as_str()),
                )
            },
            None => None,
        }
    }

    /// After something left: the source is given up where its port is gone.
    fn departed(&mut self, clients: &Vec<Client>) -> (line: Option<String>)
        ensures
            match old(self).source() {
                Some(addr) => if ports::alive(ports::clients_view(clients@), addr) {
                    final(self).source() == Some(addr) && line is None
                } else {
                    final(self).source() is None && text::string_option(line) == Some(
                        "midilogd: source "@ + ports::addr_words(addr)
                            + " left; awaiting return"@,
                    )
                },
                None => final(self).source() is None && line is None,
            },
    {
        match self.current {
            Some(addr) => {
                if port_alive(clients, addr) {
                    return None;
                }
                self.current = None;
                Some(
                    "midilogd: source ".to_owned().concat(addr_text(addr).as_str()).concat(
                        " left; awaiting return",
                    ),
                )
            },
            None => None,
        }
    }
}

/// What reading one event brought.
#[derive(Debug)]
pub enum Input {
    /// A port or a client arrived.
    Arrived,
    /// A port or a client left; these are there now.
    Left(Vec<Client>),
    /// Any other event.
    Event(SeqEvent),
    /// The input buffer overflowed, and events are lost.
    Overrun,
    /// Reading failed.
    Failed(String),
}

/// What to do about it.
#[derive(Debug)]
pub enum Action {
    /// Nothing.
    Ignore,
    /// Look for the source and subscribe to it.
    Subscribe,
    /// Write the message to the log.
    Record(Message),
    /// Say this.
    Say(String),
    /// Give up, and say why.
    Stop(String),
}

/// The contents of an action.
pub enum ActionView {
    Ignore,
    Subscribe,
    Record(event::MessageView),
    Say(Seq<char>),
    Stop(Seq<char>),
}

impl View for Action {
    type V = ActionView;

    open spec fn view(&self) -> ActionView {
        match *self {
            Action::Ignore => ActionView::Ignore,
            Action::Subscribe => ActionView::Subscribe,
            Action::Record(m) => ActionView::Record(m@),
            Action::Say(s) => ActionView::Say(s@),
            Action::Stop(s) => ActionView::Stop(s@),
        }
    }
}

/// Whether the source is gone.
pub open spec fn is_gone(source: Option<Addr>, clients: Seq<ports::ClientView>) -> bool {
    source matches Some(addr) && !ports::alive(clients, addr)
}

/// What to do about an input while `source` is being captured.
pub open spec fn response(source: Option<Addr>, input: Input) -> ActionView {
    match input {
        Input::Arrived => ActionView::Subscribe,
        Input::Left(clients) => if is_gone(source, ports::clients_view(clients@)) {
            ActionView::Say(
                "midilogd: source "@ + ports::addr_words(source->0) + " left; awaiting return"@,
            )
        } else {
            ActionView::Ignore
        },
        Input::Event(ev) => match captured(ev) {
            Some(m) => ActionView::Record(m),
            None => ActionView::Ignore,
        },
        Input::Overrun => ActionView::Say(
            "midilogd: input buffer overrun; some events were lost"@,
        ),
        Input::Failed(e) => ActionView::Stop("reading event: "@ + e@),
    }
}

impl Attachment {
    /// Takes one input and decides what to do about it. An overrun is survived:
    /// the events are lost already, but the subscription is intact.
    pub fn take(&mut self, input: Input) -> (r: Action)
        ensures
            r@ == response(old(self).source(), input),
            final(self).source() == (match input {
                Input::Left(clients) => if is_gone(
                    old(self).source(),
                    ports::clients_view(clients@),
                ) {
                    None
                } else {
                    old(self).source()
                },
                _ => old(self).source(),
            }),
    {
        match input {
            Input::Arrived => Action::Subscribe,
            Input::Left(clients) => match self.departed(&clients) {
                Some(line) => Action::Say(line),
                None => Action::Ignore,
            },
            Input::Event(ev) => match to_message(&ev) {
                Some(m) => Action::Record(m),
                None => Action::Ignore,
            },
            Input::Overrun => Action::Say(
                "midilogd: input buffer overrun; some events were lost".to_owned(),
            ),
            Input::Failed(e) => Action::Stop("reading event: ".to_owned().concat(e.as_str())),
        }
    }
}

/// The event that is written to the log for a message.
pub fn record(t_mono_ns: u64, t_wall: String, source: Addr, msg: Message) -> (r: event::Event)
    ensures
        r.t_mono_ns == t_mono_ns,
        r.t_wall@ == t_wall@,
        r.src@ == ports::addr_words(source),
        r.group == 0,
        r.msg == msg,
{
    event::Event { t_mono_ns, t_wall, src: source_of(source), group: 0, msg }
}

// ---------------------------------------------------------------------------
// Laws
// ---------------------------------------------------------------------------

/// Whether every 7-bit number of a channel-voice event could appear on a MIDI 1.0
/// wire. A bend has none.
pub open spec fn fits_the_wire(ev: SeqEvent) -> bool {
    match ev {
        SeqEvent::Noteon(n) | SeqEvent::Noteoff(n) | SeqEvent::Keypress(n) => n.note <= 127
            && n.velocity <= 127,
        SeqEvent::Controller(c) => c.param <= 127 && 0 <= c.value <= 127,
        SeqEvent::Pgmchange(c) | SeqEvent::Chanpress(c) => 0 <= c.value <= 127,
        _ => true,
    }
}

/// A channel-voice event is dropped exactly where one of its 7-bit numbers could
/// not appear on a wire; else every number of it is captured as the sequencer gave
/// it.
pub proof fn law_captured_values_are_unchanged(ev: SeqEvent)
    ensures
        match ev {
            SeqEvent::Noteon(n) => captured(ev) == if fits_the_wire(ev) {
                Some(
                    event::MessageView::NoteOn {
                        ch: n.channel,
                        note: n.note,
                        vel: n.velocity as u16,
                    },
                )
            } else {
                None
            },
            SeqEvent::Noteoff(n) => captured(ev) == if fits_the_wire(ev) {
                Some(
                    event::MessageView::NoteOff {
                        ch: n.channel,
                        note: n.note,
                        vel: n.velocity as u16,
                    },
                )
            } else {
                None
            },
            SeqEvent::Keypress(n) => captured(ev) == if fits_the_wire(ev) {
                Some(
                    event::MessageView::PolyPressure {
                        ch: n.channel,
                        note: n.note,
                        pressure: n.velocity,
                    },
                )
            } else {
                None
            },
            SeqEvent::Controller(c) => match captured(ev) {
                Some(event::MessageView::Cc { ch, cc, control }) => fits_the_wire(ev) && ch
                    == c.channel && cc == c.param && control == c.value,
                Some(_) => false,
                None => !fits_the_wire(ev),
            },
            SeqEvent::Pgmchange(c) => match captured(ev) {
                Some(event::MessageView::Program { ch, prog }) => fits_the_wire(ev) && ch
                    == c.channel && prog == c.value,
                Some(_) => false,
                None => !fits_the_wire(ev),
            },
            SeqEvent::Chanpress(c) => match captured(ev) {
                Some(event::MessageView::ChannelPressure { ch, pressure }) => fits_the_wire(ev)
                    && ch == c.channel && pressure == c.value,
                Some(_) => false,
                None => !fits_the_wire(ev),
            },
            SeqEvent::Pitchbend(c) => captured(ev) == Some(
                event::MessageView::PitchBend { ch: c.channel, bend: c.value },
            ),
            _ => true,
        },
{
}

/// A captured frame can be read back from the log to the byte.
pub proof fn law_captured_frame_reads_back(bytes: Vec<u8>)
    ensures
        captured(SeqEvent::Sysex(bytes)) matches Some(event::MessageView::Sysex { raw })
            && hex::parsed_hex(raw) == Ok::<Seq<u8>, Seq<char>>(bytes@),
{
    hex::law_hex_reads_back(bytes@);
}

/// What is dropped: numbers that no wire carries, and what is no message. Everything
/// else is captured.
pub proof fn law_what_is_dropped(ev: SeqEvent)
    ensures
        captured(ev) is None <==> match ev {
            SeqEvent::Noteon(n) => n.note > 127 || n.velocity > 127,
            SeqEvent::Noteoff(n) => n.note > 127 || n.velocity > 127,
            SeqEvent::Keypress(n) => n.note > 127 || n.velocity > 127,
            SeqEvent::Controller(c) => c.param > 127 || c.value < 0 || c.value > 127,
            SeqEvent::Pgmchange(c) => c.value < 0 || c.value > 127,
            SeqEvent::Chanpress(c) => c.value < 0 || c.value > 127,
            SeqEvent::Pitchbend(_) => false,
            SeqEvent::Sysex(_) => false,
            SeqEvent::Clock => true,
            SeqEvent::Tick => true,
            SeqEvent::Sensing => true,
            SeqEvent::Other(Some(bytes)) => bytes@.len() == 0,
            SeqEvent::Other(None) => true,
            SeqEvent::Unreadable => true,
        },
{
}

/// What has no form of its own is kept byte for byte, and so is a frame.
pub proof fn law_bytes_are_kept(bytes: Vec<u8>)
    ensures
        captured(SeqEvent::Sysex(bytes)) matches Some(event::MessageView::Sysex { raw })
            && hex::parsed_hex(raw) == Ok::<Seq<u8>, Seq<char>>(bytes@),
        bytes@.len() > 0 ==> (captured(SeqEvent::Other(Some(bytes))) matches Some(
            event::MessageView::Other { raw },
        ) && hex::parsed_hex(raw) == Ok::<Seq<u8>, Seq<char>>(bytes@)),
{
    hex::law_hex_reads_back(bytes@);
}

/// What an input leads to: an arrival to a subscription, a failure to the end, a message
/// to the log. A departure is told exactly where it was that of the source.
pub proof fn law_what_an_input_leads_to(source: Option<Addr>, input: Input)
    ensures
        response(source, input) is Subscribe <==> input is Arrived,
        response(source, input) is Stop <==> input is Failed,
        input is Overrun ==> response(source, input) is Say,
        input matches Input::Event(ev) ==> match captured(ev) {
            Some(m) => response(source, input) == ActionView::Record(m),
            None => response(source, input) is Ignore,
        },
        input matches Input::Left(clients) ==> match source {
            None => response(source, input) is Ignore,
            Some(addr) => {
                let there = exists|i: int, k: int|
                    0 <= i < clients@.len() && 0 <= k < clients@[i].ports@.len() && clients@[i].id
                        == addr.client && (#[trigger] clients@[i].ports@[k]).id == addr.port;
                if there {
                    response(source, input) is Ignore
                } else {
                    response(source, input) is Say
                }
            },
        },
{
    if let Input::Left(clients) = input {
        if let Some(addr) = source {
            let all = ports::clients_view(clients@);
            if exists|i: int, k: int|
                0 <= i < clients@.len() && 0 <= k < clients@[i].ports@.len() && clients@[i].id
                    == addr.client && (#[trigger] clients@[i].ports@[k]).id == addr.port {
                let (i, k) = choose|i: int, k: int|
                    0 <= i < clients@.len() && 0 <= k < clients@[i].ports@.len() && clients@[i].id
                        == addr.client && (#[trigger] clients@[i].ports@[k]).id == addr.port;
                assert(all[i].ports[k].id == addr.port);
            } else if ports::alive(all, addr) {
                let (i, k) = choose|i: int, k: int|
                    0 <= i < all.len() && 0 <= k < all[i].ports.len() && all[i].id == addr.client
                        && (#[trigger] all[i].ports[k]).id == addr.port;
                assert(clients@[i].ports@[k].id == addr.port);
            }
        }
    }
}

} // verus!
