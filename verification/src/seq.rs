//! A session with a device: what its sequencer input means.
//!
//! A [`Session`] decides and an outer loop acts: it hands over one [`Input`] after
//! the other until the session says stop.

use crate::ports;
use crate::ports::{addr_text, port_alive, Addr, Client};
use crate::sysex;
use crate::sysex::Reassembler;
use crate::text;
use crate::text::{dec_text, quote};
use vstd::prelude::*;

verus! {

/// How many overruns in a row end a session: one that never clears would
/// otherwise go on forever.
pub const MAX_OVERRUNS: usize = 8;

/// The frames that came in together, and what went wrong after them.
pub struct FrameBatch {
    pub frames: Vec<Vec<u8>>,
    pub error: Option<String>,
}

/// The contents of a batch.
pub struct BatchView {
    pub frames: Seq<Seq<u8>>,
    pub error: Option<Seq<char>>,
}

impl View for FrameBatch {
    type V = BatchView;

    open spec fn view(&self) -> BatchView {
        BatchView {
            frames: sysex::frames_view(self.frames@),
            error: text::string_option(self.error),
        }
    }
}

impl Default for FrameBatch {
    fn default() -> (r: Self)
        ensures
            r@ == (BatchView { frames: Seq::empty(), error: None }),
    {
        let frames: Vec<Vec<u8>> = Vec::new();
        assert(sysex::frames_view(frames@) =~= Seq::empty());
        FrameBatch { frames, error: None }
    }
}

/// What reading one event brought.
#[derive(Debug)]
pub enum Input {
    /// A piece of a system-exclusive stream.
    Sysex(Vec<u8>),
    /// A port or a client left; these are there now.
    Exit(Vec<Client>),
    /// Any other event.
    Event,
    /// An event of a kind that is not known.
    Unsupported,
    /// The input buffer overflowed, and events are lost.
    Overrun,
    /// There is nothing more to read for now.
    Empty,
    /// Reading failed.
    Failed(String),
}

/// Whether to go on reading.
#[derive(Debug, Clone, Copy, PartialEq, Eq)]
pub enum Turn {
    More,
    Stop,
}

/// A session with a device.
pub struct Session {
    source: Addr,
    dest: Addr,
    reassembler: Reassembler,
    overruns: usize,
    abandoned_before: usize,
}

/// What a session remembers: where it listens and sends, the frame that is being
/// put together, how many overruns came in a row, and how many frames were
/// abandoned when the present reading began.
pub struct SessionView {
    pub source: Addr,
    pub dest: Addr,
    pub assembly: sysex::Assembly,
    pub overruns: nat,
    pub abandoned_before: nat,
}

impl View for Session {
    type V = SessionView;

    closed spec fn view(&self) -> SessionView {
        SessionView {
            source: self.source,
            dest: self.dest,
            assembly: self.reassembler@,
            overruns: self.overruns as nat,
            abandoned_before: self.abandoned_before as nat,
        }
    }
}

/// The assembly after the open frame was given up.
pub open spec fn given_up(a: sysex::Assembly) -> sysex::Assembly {
    if a.open is Some {
        sysex::Assembly { open: None, discarding: true, abandoned: a.abandoned + 1 }
    } else {
        a
    }
}

impl SessionView {
    /// Whether what the input adds can be counted.
    pub open spec fn counts(self, input: Input) -> bool {
        match input {
            Input::Sysex(chunk) => self.assembly.abandoned + chunk@.len() <= usize::MAX,
            Input::Overrun => self.assembly.abandoned < usize::MAX && self.overruns < usize::MAX,
            _ => true,
        }
    }

    /// What an input changes.
    pub open spec fn after(self, input: Input) -> SessionView {
        match input {
            Input::Sysex(chunk) => SessionView {
                assembly: self.assembly.after_all(chunk@),
                overruns: 0,
                ..self
            },
            Input::Exit(_) | Input::Event => SessionView { overruns: 0, ..self },
            Input::Overrun => SessionView {
                assembly: given_up(self.assembly),
                overruns: self.overruns + 1,
                ..self
            },
            _ => self,
        }
    }

    /// The frames that an input completes.
    pub open spec fn frames(self, input: Input) -> Seq<Seq<u8>> {
        match input {
            Input::Sysex(chunk) => self.assembly.frames(chunk@),
            _ => Seq::empty(),
        }
    }

    /// What an input says went wrong.
    pub open spec fn error(self, input: Input) -> Option<Seq<char>> {
        match input {
            Input::Exit(clients) => if ports::alive(ports::clients_view(clients@), self.source) {
                None
            } else {
                Some(ports::addr_words(self.source) + " left the sequencer mid-measurement"@)
            },
            Input::Overrun => if self.overruns + 1 >= MAX_OVERRUNS {
                Some("the sequencer input buffer keeps overrunning"@)
            } else {
                None
            },
            Input::Failed(e) => Some("reading event: "@ + e@),
            _ => None,
        }
    }

    /// Whether reading ends with this input.
    pub open spec fn ends(self, input: Input) -> bool {
        input is Empty || self.error(input) is Some
    }
}

impl Session {
    /// What holds of every session: its count only grows while it reads.
    #[verifier::type_invariant]
    spec fn counted(self) -> bool {
        self.abandoned_before as nat <= self.reassembler@.abandoned
    }

    /// A session with a device that was found.
    pub fn new(source: Addr, dest: Addr) -> (r: Self)
        ensures
            r@ == (SessionView {
                source,
                dest,
                assembly: sysex::Assembly { open: None, discarding: false, abandoned: 0 },
                overruns: 0,
                abandoned_before: 0,
            }),
    {
        Session {
            source,
            dest,
            reassembler: Reassembler::default(),
            overruns: 0,
            abandoned_before: 0,
        }
    }

    /// Where the session listens.
    pub fn source(&self) -> (r: Addr)
        ensures
            r == self@.source,
    {
        self.source
    }

    /// Where the session sends.
    pub fn dest(&self) -> (r: Addr)
        ensures
            r == self@.dest,
    {
        self.dest
    }

    /// Begins to read what has come in.
    pub fn begin(&mut self)
        ensures
            final(self)@ == (SessionView {
                abandoned_before: old(self)@.assembly.abandoned,
                ..old(self)@
            }),
    {
        self.abandoned_before = self.reassembler.abandoned();
    }

    /// Whether what the input adds can be counted.
    pub fn can_count(&self, input: &Input) -> (r: bool)
        ensures
            r == self@.counts(*input),
    {
        let abandoned = self.reassembler.abandoned();
        match input {
            Input::Sysex(chunk) => chunk.len() <= usize::MAX - abandoned,
            Input::Overrun => abandoned < usize::MAX && self.overruns < usize::MAX,
            _ => true,
        }
    }

    /// Takes one input: the frames that it completes go to the batch, and so does
    /// what went wrong.
    pub fn drain(&mut self, input: Input, batch: &mut FrameBatch) -> (r: Turn)
        requires
            old(self)@.counts(input),
        ensures
            final(self)@ == old(self)@.after(input),
            final(batch)@.frames == old(batch)@.frames + old(self)@.frames(input),
            final(batch)@.error == (if old(self)@.error(input) is Some {
                old(self)@.error(input)
            } else {
                old(batch)@.error
            }),
            r == (if old(self)@.ends(input) {
                Turn::Stop
            } else {
                Turn::More
            }),
    {
        proof {
            use_type_invariant(&*self);
        }
        let ghost before = batch.frames@;
        assert(sysex::frames_view(before) + Seq::<Seq<u8>>::empty() =~= sysex::frames_view(before));
        match input {
            Input::Sysex(chunk) => {
                self.overruns = 0;
                let base = self.abandoned_before;
                self.abandoned_before = 0;
                let mut reassembler = Reassembler::default();
                std::mem::swap(&mut reassembler, &mut self.reassembler);
                let ghost start = reassembler@;
                let mut done = reassembler.push(chunk.as_slice());
                proof {
                    sysex::lemma_abandoned_bound(start, chunk@);
                }
                let ghost more = done@;
                self.reassembler = reassembler;
                self.abandoned_before = base;
                batch.frames.append(&mut done);
                assert(sysex::frames_view(batch.frames@) =~= sysex::frames_view(before)
                    + sysex::frames_view(more));
                Turn::More
            },
            Input::Exit(clients) => {
                self.overruns = 0;
                if port_alive(&clients, self.source) {
                    return Turn::More;
                }
                batch.error = Some(
                    addr_text(self.source).concat(" left the sequencer mid-measurement"),
                );
                Turn::Stop
            },
            Input::Event => {
                self.overruns = 0;
                Turn::More
            },
            Input::Unsupported => Turn::More,
            Input::Overrun => {
                self.overruns = self.overruns + 1;
                let base = self.abandoned_before;
                self.abandoned_before = 0;
                let mut reassembler = Reassembler::default();
                std::mem::swap(&mut reassembler, &mut self.reassembler);
                reassembler.abandon_open();
                self.reassembler = reassembler;
                self.abandoned_before = base;
                if self.overruns >= MAX_OVERRUNS {
                    batch.error = Some(
                        "the sequencer input buffer keeps overrunning".to_owned(),
                    );
                    return Turn::Stop;
                }
                Turn::More
            },
            Input::Empty => Turn::Stop,
            Input::Failed(e) => {
                batch.error = Some("reading event: ".to_owned().concat(e.as_str()));
                Turn::Stop
            },
        }
    }

    /// What to say once reading has ended: how many frames were abandoned.
    pub fn discarded(&self) -> (r: Option<String>)
        ensures
            text::string_option(r) == ({
                let n = self@.assembly.abandoned - self@.abandoned_before;
                if n > 0 {
                    Some("pianoctl: "@ + text::dec(n as nat) + " partial frame(s) discarded"@)
                } else {
                    None
                }
            }),
    {
        proof {
            use_type_invariant(self);
        }
        let n = self.reassembler.abandoned() - self.abandoned_before;
        if n > 0 {
            Some(
                "pianoctl: ".to_owned().concat(dec_text(n as u64).as_str()).concat(
                    " partial frame(s) discarded",
                ),
            )
        } else {
            None
        }
    }
}

/// What a batch comes to where the connection itself failed.
pub open spec fn with_fault(batch: BatchView, fault: Option<Seq<char>>) -> BatchView {
    match (batch.error, fault) {
        (None, Some(flags)) => BatchView {
            error: Some("the sequencer connection failed ("@ + flags + ")"@),
            ..batch
        },
        _ => batch,
    }
}

impl FrameBatch {
    /// The batch, with a failure of the connection where it has no other: a
    /// descriptor in error stays readable forever, so it must end the wait.
    pub fn with_fault(self, fault: Option<String>) -> (r: Self)
        ensures
            r@ == with_fault(self@, text::string_option(fault)),
    {
        let mut batch = self;
        if batch.error.is_none() {
            if let Some(flags) = fault {
                batch.error = Some(
                    "the sequencer connection failed (".to_owned().concat(flags.as_str()).concat(
                        ")",
                    ),
                );
            }
        }
        batch
    }

    /// Whether the batch ends the wait.
    pub fn is_news(&self) -> (r: bool)
        ensures
            r == (self@.frames.len() > 0 || self@.error is Some),
    {
        self.frames.len() > 0 || self.error.is_some()
    }
}

/// How long to wait, in whole milliseconds, as far as the system call takes them.
pub fn poll_millis(remaining_ms: u128) -> (r: i32)
    ensures
        r == (if remaining_ms > i32::MAX {
            i32::MAX as int
        } else {
            remaining_ms as int
        }),
{
    if remaining_ms > 2147483647 {
        2147483647
    } else {
        remaining_ms as i32
    }
}

/// What to say where no device was found.
pub fn not_found(needle: &str) -> (r: String)
    ensures
        r@ == "no ALSA client matching "@ + text::quoted(needle@)
            + " is readable and writable"@,
{
    "no ALSA client matching ".to_owned().concat(quote(needle).as_str()).concat(
        " is readable and writable",
    )
}

// ---------------------------------------------------------------------------
// Laws
// ---------------------------------------------------------------------------

/// A frame that was open when events were lost never comes out: the bytes up to
/// the next terminator are skipped, and the frame is counted once.
pub proof fn law_overrun_gives_the_open_frame_up(session: SessionView, tail: Vec<u8>)
    requires
        session.assembly.valid(),
        session.assembly.open is Some,
        forall|i: int|
            0 <= i < tail@.len() ==> #[trigger] tail@[i] != sysex::F0 && tail@[i] != sysex::F7,
    ensures
        ({
            let lost = session.after(Input::Overrun);
            let rest = tail@.push(sysex::F7);
            &&& lost.assembly.frames(rest) == Seq::<Seq<u8>>::empty()
            &&& lost.assembly.after_all(rest).abandoned == session.assembly.abandoned + 1
            &&& lost.assembly.after_all(rest).open is None
        }),
{
    sysex::law_abandoned_tail_is_not_counted(session.after(Input::Overrun).assembly, tail@);
}

/// Any event that is read clears the count of overruns, and only so many in a
/// row end the session.
pub proof fn law_overruns_are_bounded(session: SessionView)
    ensures
        session.after(Input::Event).overruns == 0,
        session.ends(Input::Overrun) <==> session.overruns + 1 >= MAX_OVERRUNS,
        session.after(Input::Unsupported) == session,
{
}

/// A device that left ends the session, whatever it answered before; while it is
/// there, another's leaving does not.
pub proof fn law_departure_is_an_error(session: SessionView, clients: Vec<Client>)
    ensures
        session.ends(Input::Exit(clients)) <==> !ports::alive(
            ports::clients_view(clients@),
            session.source,
        ),
{
}

/// What an input leaves alone: where the session listens and sends, and where its count
/// began. Only a piece of a stream completes frames.
pub proof fn law_input_leaves_the_rest_alone(session: SessionView, input: Input)
    ensures
        session.after(input).source == session.source,
        session.after(input).dest == session.dest,
        session.after(input).abandoned_before == session.abandoned_before,
        !(input is Sysex) ==> session.frames(input).len() == 0,
        !(input is Sysex) && !(input is Overrun) ==> session.after(input).assembly
            == session.assembly,
        input matches Input::Sysex(chunk) ==> session.frames(input) == session.assembly.frames(chunk@)
            && session.after(input).assembly == session.assembly.after_all(chunk@),
{
}

/// What counts toward the overruns in a row: an overrun adds one, what was read clears
/// them, and what brought nothing leaves them.
pub proof fn law_overruns_in_a_row(session: SessionView, input: Input)
    ensures
        session.after(input).overruns == match input {
            Input::Overrun => session.overruns + 1,
            Input::Sysex(_) => 0,
            Input::Exit(_) => 0,
            Input::Event => 0,
            Input::Unsupported => session.overruns,
            Input::Empty => session.overruns,
            Input::Failed(_) => session.overruns,
        },
{
}

/// What goes wrong: the source left, eight overruns in a row, or a failure to read.
/// Reading ends with that, or where there is nothing more.
pub proof fn law_what_ends_reading(session: SessionView, input: Input)
    ensures
        session.error(input) is Some <==> match input {
            Input::Exit(clients) => !ports::alive(ports::clients_view(clients@), session.source),
            Input::Overrun => session.overruns >= 7,
            Input::Failed(_) => true,
            _ => false,
        },
        session.ends(input) <==> input is Empty || session.error(input) is Some,
{
}

/// A failure of the connection is told where nothing else is; the frames stay.
pub proof fn law_first_trouble_is_told(batch: BatchView, fault: Option<Seq<char>>)
    ensures
        with_fault(batch, fault).frames == batch.frames,
        batch.error is Some ==> with_fault(batch, fault).error == batch.error,
        batch.error is None && fault is None ==> with_fault(batch, fault).error is None,
        batch.error is None && fault is Some ==> (with_fault(batch, fault).error matches Some(e)
            && text::occurs(fault->0, e)),
{
    if batch.error is None && fault is Some {
        let e = with_fault(batch, fault).error->0;
        let n = "the sequencer connection failed ("@.len() as int;
        assert(e.subrange(n, n + fault->0.len()) =~= fault->0);
    }
}

} // verus!
