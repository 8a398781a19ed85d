//! Talking to a device: asking, reading, comparing with a profile and applying
//! one.
//!
//! What is sent and received is left to an outer loop; here it is decided what to
//! send, what an answer is, and what to say.

use crate::cli;
use crate::hex;
use crate::hex::spaced_hex;
use crate::map::{AddressMap, Param, Value};
use crate::profile;
use crate::profile::{Decision, Reason, Step};
use crate::render;
use crate::seq::FrameBatch;
use crate::sysex;
use crate::sysex::{same_bytes, Address, Codec, DecodeError, Incoming, Request};
use crate::text;
use crate::text::{dec_text, no_texts, pad, push_text, same};
use vstd::prelude::*;

verus! {

/// How often a request is sent before silence counts as an answer.
pub const ATTEMPTS: usize = 2;

/// How often a value is read back after it was written. A device acts on a write
/// before it answers with it, so that one reading straight after the write would
/// report every success as a failure.
pub const SETTLE_ATTEMPTS: usize = 10;

// ---------------------------------------------------------------------------
// Asking
// ---------------------------------------------------------------------------

/// What answers a request.
#[derive(Debug, Clone, Copy)]
pub enum Want {
    /// An identity reply.
    Identity,
    /// Data from this address.
    Data(Address),
}

/// Whether a frame answers a request.
pub open spec fn answers(want: Want, incoming: sysex::IncomingView) -> bool {
    match (want, incoming) {
        (Want::Identity, sysex::IncomingView::IdentityReply(_)) => true,
        (Want::Data(at), sysex::IncomingView::Dt1 { addr, .. }) => addr == at@,
        _ => false,
    }
}

/// The answer that a frame is, where it is one.
pub open spec fn answer_in(model: Seq<u8>, want: Want, raw: Seq<u8>) -> Option<
    sysex::IncomingView,
> {
    match sysex::decoded_frame(model, raw) {
        Ok(incoming) => if answers(want, incoming) {
            Some(incoming)
        } else {
            None
        },
        Err(_) => None,
    }
}

/// The first answer among the frames.
pub open spec fn first_answer(model: Seq<u8>, want: Want, frames: Seq<Seq<u8>>) -> Option<
    sysex::IncomingView,
>
    decreases frames.len(),
{
    if frames.len() == 0 {
        None
    } else if first_answer(model, want, frames.drop_last()) is Some {
        first_answer(model, want, frames.drop_last())
    } else {
        answer_in(model, want, frames.last())
    }
}

/// What is said of the frames: of the answer its bytes, of any other frame what
/// it says.
pub open spec fn frame_lines(
    map: AddressMap,
    model: Seq<u8>,
    device: u8,
    want: Want,
    frames: Seq<Seq<u8>>,
) -> Seq<Seq<char>>
    decreases frames.len(),
{
    if frames.len() == 0 {
        Seq::empty()
    } else {
        let before = frames.drop_last();
        let raw = frames.last();
        frame_lines(map, model, device, want, before).push(
            if first_answer(model, want, before) is None && answer_in(model, want, raw) is Some {
                "<-- "@ + hex::hex_of(raw)
            } else {
                render::frame_line(map, device, raw, sysex::decoded_frame(model, raw))
            },
        )
    }
}

/// The contents of an answer that may be missing.
pub open spec fn incoming_option(m: Option<Incoming>) -> Option<sysex::IncomingView> {
    match m {
        Some(m) => Some(m@),
        None => None,
    }
}

/// A request that waits for its answer.
pub struct Ask {
    request: Request,
    want: Want,
    attempts: usize,
}

/// What to do next about a request.
#[derive(Debug)]
pub enum Next {
    /// Send the request, and wait for as long as an answer may take.
    Send,
    /// Go on waiting.
    Wait,
    /// The answer; none where nothing answered.
    Answer(Option<Incoming>),
    /// Nothing more can be learnt.
    Fail(String),
}

/// The contents of what to do next.
pub enum NextView {
    Send,
    Wait,
    Answer(Option<sysex::IncomingView>),
    Fail(Seq<char>),
}

impl View for Next {
    type V = NextView;

    open spec fn view(&self) -> NextView {
        match *self {
            Next::Send => NextView::Send,
            Next::Wait => NextView::Wait,
            Next::Answer(reply) => NextView::Answer(incoming_option(reply)),
            Next::Fail(e) => NextView::Fail(e@),
        }
    }
}

/// What a batch leads to, after so many attempts.
pub open spec fn next_after(
    model: Seq<u8>,
    want: Want,
    attempts: nat,
    batch: crate::seq::BatchView,
) -> NextView {
    if batch.error is Some {
        NextView::Fail(batch.error->0)
    } else if batch.frames.len() == 0 {
        if attempts < ATTEMPTS {
            NextView::Send
        } else {
            NextView::Answer(None)
        }
    } else {
        match first_answer(model, want, batch.frames) {
            Some(reply) => NextView::Answer(Some(reply)),
            None => NextView::Wait,
        }
    }
}

fn is_answer(want: &Want, decoded: &Result<Incoming, DecodeError>) -> (r: bool)
    ensures
        r == (decoded matches Ok(m) && answers(*want, m@)),
{
    match (want, decoded) {
        (Want::Identity, Ok(Incoming::IdentityReply(_))) => true,
        (Want::Data(at), Ok(Incoming::Dt1 { addr, .. })) => addr.same(at),
        _ => false,
    }
}

impl Ask {
    /// The bytes of the request.
    pub closed spec fn bytes(&self) -> Seq<u8> {
        self.request@
    }

    /// What answers the request.
    pub closed spec fn wanted(&self) -> Want {
        self.want
    }

    /// How often the request was sent.
    pub closed spec fn sent(&self) -> nat {
        self.attempts as nat
    }

    #[verifier::type_invariant]
    spec fn bounded(self) -> bool {
        self.attempts <= ATTEMPTS
    }

    /// A request, to be sent at once.
    pub fn new(request: Request, want: Want) -> (r: Self)
        ensures
            r.bytes() == request@,
            r.wanted() == want,
            r.sent() == 1,
    {
        Ask { request, want, attempts: 1 }
    }

    /// The request.
    pub fn request(&self) -> (r: &Request)
        ensures
            r@ == self.bytes(),
    {
        &self.request
    }

    /// What is said when the request is sent.
    pub fn send_line(&self) -> (r: String)
        ensures
            r@ == "--> "@ + hex::hex_of(self.bytes()),
    {
        "--> ".to_owned().concat(hex::hex(self.request.bytes()).as_str())
    }

    /// Takes the next batch; an empty one means that nothing came in time.
    /// Returns what to do and what is said of the frames.
    pub fn take(&mut self, map: &AddressMap, codec: &Codec, batch: FrameBatch) -> (r: (
        Next,
        Vec<String>,
    ))
        ensures
            final(self).bytes() == old(self).bytes(),
            final(self).wanted() == old(self).wanted(),
            r.0@ == next_after(codec.model(), old(self).wanted(), old(self).sent(), batch@),
            final(self).sent() == (if r.0@ is Send {
                old(self).sent() + 1
            } else {
                old(self).sent()
            }),
            text::texts(r.1@) == frame_lines(
                *map,
                codec.model(),
                codec.device(),
                old(self).wanted(),
                batch@.frames,
            ),
    {
        proof {
            use_type_invariant(&*self);
        }
        let want = self.want;
        let ghost raws = batch@.frames;
        let mut lines = no_texts();
        let mut matched: Option<Incoming> = None;
        let mut i: usize = 0;
        while i < batch.frames.len()
            invariant
                i <= batch.frames.len(),
                raws == sysex::frames_view(batch.frames@),
                incoming_option(matched) == first_answer(
                    codec.model(),
                    want,
                    raws.take(i as int),
                ),
                text::texts(lines@) == frame_lines(
                    *map,
                    codec.model(),
                    codec.device(),
                    want,
                    raws.take(i as int),
                ),
            decreases batch.frames.len() - i,
        {
            let raw = batch.frames[i].as_slice();
            proof {
                assert(raws.take(i + 1).drop_last() =~= raws.take(i as int));
                assert(raws.take(i + 1).last() == raw@);
            }
            let decoded = codec.decode(raw);
            if matched.is_none() && is_answer(&want, &decoded) {
                push_text(&mut lines, "<-- ".to_owned().concat(hex::hex(raw).as_str()));
                if let Ok(m) = decoded {
                    matched = Some(m);
                }
            } else {
                push_text(&mut lines, render::frame(map, codec, raw, decoded));
            }
            i = i + 1;
        }
        assert(raws.take(raws.len() as int) =~= raws);
        let next = match batch.error {
            Some(error) => Next::Fail(error),
            None => if batch.frames.len() == 0 {
                if self.attempts < ATTEMPTS {
                    self.attempts = self.attempts + 1;
                    Next::Send
                } else {
                    Next::Answer(None)
                }
            } else if matched.is_some() {
                Next::Answer(matched)
            } else {
                Next::Wait
            },
        };
        (next, lines)
    }
}

// ---------------------------------------------------------------------------
// Identity
// ---------------------------------------------------------------------------

/// What is said of an identity reply, and what it comes to: whether there was
/// one, or that it is another device's.
pub open spec fn identified(map: AddressMap, reply: Option<sysex::IncomingView>) -> (
    Seq<Seq<char>>,
    Result<bool, Seq<char>>,
) {
    match reply {
        Some(sysex::IncomingView::IdentityReply(reply)) => if reply.family != map.device.identity_family@ || reply.member
            != map.device.identity_member@ {
            (
                seq![render::identity_line(reply)],
                Err(
                    "this is not a "@ + map.device.name@ + ": the map expects family "@
                        + hex::spaced_hex_of(map.device.identity_family@) + ", member "@
                        + hex::spaced_hex_of(map.device.identity_member@),
                ),
            )
        } else {
            (
                seq![render::identity_line(reply), "matches the map's "@ + map.device.name@],
                Ok(true),
            )
        },
        _ => (
            seq!["no identity reply after "@ + text::dec(ATTEMPTS as nat) + " requests"@],
            Ok(false),
        ),
    }
}

/// The contents of an outcome.
pub open spec fn outcome(r: Result<bool, String>) -> Result<bool, Seq<char>> {
    match r {
        Ok(b) => Ok(b),
        Err(e) => Err(e@),
    }
}

/// What is said of an identity reply, and what it comes to.
pub fn identity(map: &AddressMap, reply: Option<Incoming>) -> (r: (
    Vec<String>,
    Result<bool, String>,
))
    ensures
        (text::texts(r.0@), outcome(r.1)) == identified(*map, incoming_option(reply)),
{
    let mut lines = no_texts();
    match reply {
        Some(Incoming::IdentityReply(reply)) => {
            let ghost want = identified(*map, Some(sysex::IncomingView::IdentityReply(reply@))).0;
            push_text(&mut lines, render::identity(&reply));
            let device = &map.device;
            if !same_bytes(reply.family.as_slice(), device.identity_family.as_slice())
                || !same_bytes(reply.member.as_slice(), device.identity_member.as_slice()) {
                assert(text::texts(lines@) =~= want);
                return (
                    lines,
                    Err(
                        "this is not a ".to_owned().concat(device.name.as_str()).concat(
                            ": the map expects family ",
                        ).concat(spaced_hex(device.identity_family.as_slice()).as_str()).concat(
                            ", member ",
                        ).concat(spaced_hex(device.identity_member.as_slice()).as_str()),
                    ),
                );
            }
            push_text(
                &mut lines,
                "matches the map's ".to_owned().concat(device.name.as_str()),
            );
            assert(text::texts(lines@) =~= want);
            (lines, Ok(true))
        },
        _ => {
            push_text(
                &mut lines,
                "no identity reply after ".to_owned().concat(
                    dec_text(ATTEMPTS as u64).as_str(),
                ).concat(" requests"),
            );
            assert(text::texts(lines@) =~= identified(*map, None).0);
            (lines, Ok(false))
        },
    }
}

// ---------------------------------------------------------------------------
// Readings
// ---------------------------------------------------------------------------

/// What reading a parameter brought.
#[derive(Debug)]
pub enum Reading {
    Got(Value),
    Undecodable(Vec<u8>),
    Silent,
    Unreadable,
}

/// The contents of a reading.
pub enum ReadingView {
    Got(crate::map::ValueView),
    Undecodable(Seq<u8>),
    Silent,
    Unreadable,
}

impl View for Reading {
    type V = ReadingView;

    open spec fn view(&self) -> ReadingView {
        match *self {
            Reading::Got(v) => ReadingView::Got(v@),
            Reading::Undecodable(data) => ReadingView::Undecodable(data@),
            Reading::Silent => ReadingView::Silent,
            Reading::Unreadable => ReadingView::Unreadable,
        }
    }
}

impl ReadingView {
    /// The value that was read.
    pub open spec fn value(self) -> Option<crate::map::ValueView> {
        match self {
            ReadingView::Got(v) => Some(v),
            _ => None,
        }
    }
}

impl Reading {
    /// The value that was read.
    pub fn value(&self) -> (r: Option<&Value>)
        ensures
            profile::current_option(r) == self@.value(),
    {
        match self {
            Reading::Got(value) => Some(value),
            _ => None,
        }
    }
}

/// What an answer to a read request is for a parameter.
pub open spec fn read_as(param: Param, reply: Option<sysex::IncomingView>) -> ReadingView {
    match reply {
        Some(sysex::IncomingView::Dt1 { data, .. }) => match param.decoded(data) {
            Some(value) => ReadingView::Got(value),
            None => ReadingView::Undecodable(data),
        },
        _ => ReadingView::Silent,
    }
}

/// What an answer to a read request is for a parameter.
pub fn reading_of(param: &Param, reply: Option<Incoming>) -> (r: Reading)
    ensures
        r@ == read_as(*param, incoming_option(reply)),
{
    match reply {
        Some(Incoming::Dt1 { data, .. }) => match param.decode(data.as_slice()) {
            Some(value) => Reading::Got(value),
            None => Reading::Undecodable(data),
        },
        _ => Reading::Silent,
    }
}

/// The request that reads a parameter; none where it cannot be read.
pub fn read_param(codec: &Codec, param: &Param) -> (r: Option<Ask>)
    ensures
        match param.read_address {
            Some(address) => r matches Some(ask) && ask.bytes() == sysex::rq1_frame(
                codec.model(),
                codec.device(),
                address@,
                param.size as u32,
            ) && ask.wanted() == Want::Data(address) && ask.sent() == 1,
            None => r is None,
        },
{
    match param.read_address {
        Some(address) => Some(
            Ask::new(Request::read(codec, address, param.size as u32), Want::Data(address)),
        ),
        None => None,
    }
}

/// The request that reads the present value of a step; none where nothing that
/// can be read is mapped.
pub fn current(codec: &Codec, step: &Step<'_>) -> (r: Option<Ask>)
    ensures
        match step@.current_from {
            Some(from) => match from.read_address {
                Some(address) => r matches Some(ask) && ask.bytes() == sysex::rq1_frame(
                    codec.model(),
                    codec.device(),
                    address@,
                    from.size as u32,
                ) && ask.wanted() == Want::Data(address) && ask.sent() == 1,
                None => r is None,
            },
            None => r is None,
        },
{
    match step.current_from {
        Some(from) => read_param(codec, from),
        None => None,
    }
}

/// A reading in words.
pub open spec fn shown(param: Param, reading: ReadingView) -> Seq<char> {
    match reading {
        ReadingView::Got(value) => param.shown(value),
        ReadingView::Undecodable(data) => "answered ["@ + hex::spaced_hex_of(data)
            + "], which the map cannot decode as "@ + text::dec(param.size as nat) + " byte(s) of "@
            + param.encoding.name(),
        ReadingView::Silent => "no response after "@ + text::dec(ATTEMPTS as nat) + " requests"@,
        ReadingView::Unreadable => "not readable"@,
    }
}

/// A reading in words.
pub fn show(param: &Param, reading: &Reading) -> (r: String)
    ensures
        r@ == shown(*param, reading@),
{
    match reading {
        Reading::Got(value) => param.show(value),
        Reading::Undecodable(data) => "answered [".to_owned().concat(
            spaced_hex(data.as_slice()).as_str(),
        ).concat("], which the map cannot decode as ").concat(
            dec_text(param.size as u64).as_str(),
        ).concat(" byte(s) of ").concat(param.encoding.to_text()),
        Reading::Silent => "no response after ".to_owned().concat(
            dec_text(ATTEMPTS as u64).as_str(),
        ).concat(" requests"),
        Reading::Unreadable => "not readable".to_owned(),
    }
}

/// What is said of a parameter that was read, and whether it answered with a
/// value.
pub fn read(param: &Param, reading: &Reading) -> (r: (String, bool))
    ensures
        r.0@ == text::padded(param.name@, 18) + " "@ + shown(*param, reading@),
        r.1 == (reading@ is Got),
{
    let line = pad(param.name.as_str(), 18).concat(" ").concat(show(param, reading).as_str());
    let got = match reading {
        Reading::Got(_) => true,
        _ => false,
    };
    (line, got)
}

/// A reading of parameters, one after the other.
pub struct Survey<'a, 'm> {
    params: &'a Vec<&'m Param>,
    answered: bool,
    seen: usize,
}

/// The contents of a survey: the parameters that are read, whether every one so
/// far answered with a value, and how many were read.
pub struct SurveyView {
    pub params: Seq<Param>,
    pub answered: bool,
    pub seen: nat,
}

impl<'a, 'm> View for Survey<'a, 'm> {
    type V = SurveyView;

    closed spec fn view(&self) -> SurveyView {
        SurveyView {
            params: cli::params_view(self.params@),
            answered: self.answered,
            seen: self.seen as nat,
        }
    }
}

impl SurveyView {
    /// Before anything was read.
    pub open spec fn start(params: Seq<Param>) -> SurveyView {
        SurveyView { params, answered: true, seen: 0 }
    }

    /// The survey after one more reading.
    pub open spec fn after(self, reading: ReadingView) -> SurveyView {
        SurveyView { answered: self.answered && reading is Got, seen: self.seen + 1, ..self }
    }
}

impl<'a, 'm> Survey<'a, 'm> {
    #[verifier::type_invariant]
    spec fn counted(self) -> bool {
        self.seen <= self.params@.len()
    }

    /// Before anything was read.
    pub fn new(params: &'a Vec<&'m Param>) -> (r: Self)
        ensures
            r@ == SurveyView::start(cli::params_view(params@)),
    {
        Survey { params, answered: true, seen: 0 }
    }

    /// The parameter that is read next; none once all were read.
    pub fn next(&self) -> (r: Option<&'m Param>)
        ensures
            match r {
                Some(param) => self@.seen < self@.params.len() && *param
                    == self@.params[self@.seen as int],
                None => self@.seen == self@.params.len(),
            },
    {
        proof {
            use_type_invariant(self);
        }
        if self.seen < self.params.len() {
            Some(self.params[self.seen])
        } else {
            None
        }
    }

    /// Takes the reading of the next parameter; returns what is said of it.
    pub fn read(&mut self, reading: &Reading) -> (r: String)
        requires
            old(self)@.seen < old(self)@.params.len(),
        ensures
            final(self)@ == old(self)@.after(reading@),
            r@ == text::padded(old(self)@.params[old(self)@.seen as int].name@, 18) + " "@ + shown(
                old(self)@.params[old(self)@.seen as int],
                reading@,
            ),
    {
        proof {
            use_type_invariant(&*self);
        }
        let params = self.params;
        assert(params@.len() == params.len());
        let (line, got) = read(params[self.seen], reading);
        if !got {
            self.answered = false;
        }
        self.seen = self.seen + 1;
        line
    }

    /// Whether every parameter answered with a value.
    pub fn finish(&self) -> (r: bool)
        ensures
            r == self@.answered,
    {
        self.answered
    }
}

/// What is said of a frame that came in while watching.
pub fn watch(map: &AddressMap, codec: &Codec, stamp: &str, raw: &[u8]) -> (r: String)
    ensures
        r@ == stamp@ + "  "@ + render::frame_line(
            *map,
            codec.device(),
            raw@,
            sysex::decoded_frame(codec.model(), raw@),
        ),
{
    let decoded = codec.decode(raw);
    stamp.to_owned().concat("  ").concat(render::frame(map, codec, raw, decoded).as_str())
}

// ---------------------------------------------------------------------------
// Comparing
// ---------------------------------------------------------------------------

/// The present value of a step in words.
pub open spec fn current_words(step: profile::StepView, reading: ReadingView) -> Seq<char> {
    match (reading, step.current_from) {
        (ReadingView::Got(value), Some(from)) => if from.name@ == step.param.name@ {
            from.shown(value)
        } else {
            from.shown(value) + " via "@ + from.name@
        },
        (_, Some(from)) => "unknown ("@ + shown(from, reading) + ")"@,
        (_, None) => "unknown (nothing readable is mapped)"@,
    }
}

/// A remark on why a value is written.
pub open spec fn reason_words(reason: Reason) -> Seq<char> {
    match reason {
        Reason::Differs => ""@,
        Reason::Unknown => "  (current state unknown)"@,
        Reason::NotComparable => "  (no read-back name for this value)"@,
    }
}

fn current_text(step: &Step<'_>, reading: &Reading) -> (r: String)
    ensures
        r@ == current_words(step@, reading@),
{
    match (reading, step.current_from) {
        (Reading::Got(value), Some(from)) => if same(
            from.name.as_str(),
            step.param.name.as_str(),
        ) {
            from.show(value)
        } else {
            from.show(value).concat(" via ").concat(from.name.as_str())
        },
        (_, Some(from)) => "unknown (".to_owned().concat(show(from, reading).as_str()).concat(")"),
        (_, None) => "unknown (nothing readable is mapped)".to_owned(),
    }
}

fn note(reason: &Reason) -> (r: &'static str)
    ensures
        r@ == reason_words(*reason),
{
    match reason {
        Reason::Differs => "",
        Reason::Unknown => "  (current state unknown)",
        Reason::NotComparable => "  (no read-back name for this value)",
    }
}

/// A comparison of the present values with those of a profile, step by step.
pub struct Diff<'a, 'm> {
    steps: &'a Vec<Step<'m>>,
    answered: bool,
    changes: usize,
    unknown: usize,
    seen: usize,
}

/// The contents of a comparison: whether everything answered, and how many
/// parameters differ, could not be compared, and were seen.
pub struct DiffView {
    pub answered: bool,
    pub changes: nat,
    pub unknown: nat,
    pub seen: nat,
}

impl<'a, 'm> View for Diff<'a, 'm> {
    type V = DiffView;

    closed spec fn view(&self) -> DiffView {
        DiffView {
            answered: self.answered,
            changes: self.changes as nat,
            unknown: self.unknown as nat,
            seen: self.seen as nat,
        }
    }
}

impl DiffView {
    /// The comparison after one more parameter.
    pub open spec fn after(self, step: profile::StepView, reading: ReadingView) -> DiffView {
        let decision = profile::decided(step, reading.value());
        DiffView {
            answered: self.answered && !(reading is Silent) && !(reading is Undecodable),
            changes: self.changes + if decision == Decision::Write(Reason::Differs) {
                1nat
            } else {
                0
            },
            unknown: self.unknown + if decision == Decision::Write(Reason::Unknown) || decision
                == Decision::Write(Reason::NotComparable) {
                1nat
            } else {
                0
            },
            seen: self.seen + 1,
        }
    }

    /// The comparison in words, once it is over.
    pub open spec fn summary(self) -> Seq<char> {
        text::dec(self.seen) + " parameter(s): "@ + text::dec(self.changes) + " differ, "@
            + text::dec(self.unknown) + " could not be compared, "@ + text::dec(
            (self.seen - self.changes - self.unknown) as nat,
        ) + " in sync; no write was sent (only the reads above went out)"@
    }
}

/// What is said of a parameter that is compared.
pub open spec fn diff_line(step: profile::StepView, reading: ReadingView) -> Seq<char> {
    let verdict = match profile::decided(step, reading.value()) {
        Decision::InSync => "in sync"@,
        Decision::Write(reason) => "would send "@ + hex::hex_of(step.frame) + reason_words(reason),
    };
    text::padded(step.param.name@, 18) + " want "@ + text::padded(
        step.param.shown(step.desired),
        22,
    ) + " current "@ + text::padded(current_words(step, reading), 34) + " "@ + verdict
}

impl<'a, 'm> Diff<'a, 'm> {
    #[verifier::type_invariant]
    spec fn counted(self) -> bool {
        self.changes + self.unknown <= self.seen <= self.steps@.len()
    }

    /// The steps that are compared.
    pub closed spec fn steps(&self) -> Seq<profile::StepView> {
        profile::steps_view(self.steps@)
    }

    /// Before anything was compared.
    pub fn new(steps: &'a Vec<Step<'m>>) -> (r: Self)
        ensures
            r.steps() == profile::steps_view(steps@),
            r@ == (DiffView { answered: true, changes: 0, unknown: 0, seen: 0 }),
    {
        Diff { steps, answered: true, changes: 0, unknown: 0, seen: 0 }
    }

    /// The step whose present value is read next; none once all were compared.
    pub fn next(&self) -> (r: Option<usize>)
        ensures
            match r {
                Some(i) => i == self@.seen && i < self.steps().len(),
                None => self@.seen == self.steps().len(),
            },
    {
        proof {
            use_type_invariant(self);
        }
        if self.seen < self.steps.len() {
            Some(self.seen)
        } else {
            None
        }
    }

    /// Takes the reading for the next step; returns what is said of it.
    pub fn diff(&mut self, reading: &Reading) -> (r: String)
        requires
            old(self)@.seen < old(self).steps().len(),
        ensures
            final(self).steps() == old(self).steps(),
            final(self)@ == old(self)@.after(old(self).steps()[old(self)@.seen as int], reading@),
            r@ == diff_line(old(self).steps()[old(self)@.seen as int], reading@),
    {
        proof {
            use_type_invariant(&*self);
        }
        let steps = self.steps;
        let step = &steps[self.seen];
        assert(profile::steps_view(steps@)[self.seen as int] == step@);
        assert(steps@.len() == steps.len());
        match reading {
            Reading::Silent => {
                self.answered = false;
            },
            Reading::Undecodable(_) => {
                self.answered = false;
            },
            _ => {},
        }
        self.seen = self.seen + 1;
        let verdict = match step.decide(reading.value()) {
            Decision::InSync => "in sync".to_owned(),
            Decision::Write(reason) => {
                match reason {
                    Reason::Differs => {
                        self.changes = self.changes + 1;
                    },
                    Reason::Unknown | Reason::NotComparable => {
                        self.unknown = self.unknown + 1;
                    },
                }
                "would send ".to_owned().concat(hex::hex(step.frame()).as_str()).concat(
                    note(&reason),
                )
            },
        };
        pad(step.param.name.as_str(), 18).concat(" want ").concat(
            pad(step.param.show(&step.desired).as_str(), 22).as_str(),
        ).concat(" current ").concat(
            pad(current_text(step, reading).as_str(), 34).as_str(),
        ).concat(" ").concat(verdict.as_str())
    }

    /// What is said in the end, and whether everything answered and could be
    /// compared.
    pub fn finish(&self) -> (r: (String, bool))
        ensures
            r.0@ == self@.summary(),
            r.1 == (self@.answered && self@.unknown == 0),
    {
        proof {
            use_type_invariant(self);
        }
        let line = dec_text(self.seen as u64).concat(" parameter(s): ").concat(
            dec_text(self.changes as u64).as_str(),
        ).concat(" differ, ").concat(dec_text(self.unknown as u64).as_str()).concat(
            " could not be compared, ",
        ).concat(dec_text((self.seen - self.changes - self.unknown) as u64).as_str()).concat(
            " in sync; no write was sent (only the reads above went out)",
        );
        (line, self.answered && self.unknown == 0)
    }
}

// ---------------------------------------------------------------------------
// Applying
// ---------------------------------------------------------------------------

/// How far the present step has come.
#[derive(Debug, Clone, Copy)]
pub enum Progress {
    /// Its present value is being read.
    Check,
    /// Its value was written and is being read back.
    Settle,
    /// Its value was written and could not be confirmed, so nothing follows.
    Stopped,
}

/// The values of a profile being written, step by step.
pub struct Apply<'a, 'm> {
    steps: &'a Vec<Step<'m>>,
    done: usize,
    sent: usize,
    tries: usize,
    progress: Progress,
}

/// The contents of an application: how many steps are done, how many values were
/// written, how often the present one was read back, and how far it has come.
pub struct ApplyView {
    pub done: nat,
    pub sent: nat,
    pub tries: nat,
    pub progress: Progress,
}

/// What to do after a reading.
#[derive(Debug)]
pub enum Verdict {
    /// The value is there already; this is said.
    Already(String),
    /// Write the value with the step's frame; this is said.
    Send(String),
    /// The value may not have settled: wait a little before it is read again.
    Again,
    /// The value that was written is there; this is said.
    Confirmed(String),
    /// The value that was written is not there: both are said, and nothing more
    /// is written.
    Unconfirmed(String, String),
}

/// The contents of a verdict.
pub enum VerdictView {
    Already(Seq<char>),
    Send(Seq<char>),
    Again,
    Confirmed(Seq<char>),
    Unconfirmed(Seq<char>, Seq<char>),
}

impl View for Verdict {
    type V = VerdictView;

    open spec fn view(&self) -> VerdictView {
        match *self {
            Verdict::Already(s) => VerdictView::Already(s@),
            Verdict::Send(s) => VerdictView::Send(s@),
            Verdict::Again => VerdictView::Again,
            Verdict::Confirmed(s) => VerdictView::Confirmed(s@),
            Verdict::Unconfirmed(s, t) => VerdictView::Unconfirmed(s@, t@),
        }
    }
}

/// What is read or concluded next.
#[derive(Debug, Clone, Copy)]
pub enum Todo {
    /// Read the present value of this step.
    Read(usize),
    /// All is done, or has stopped: whether every value is there.
    Done(bool),
}

impl<'a, 'm> View for Apply<'a, 'm> {
    type V = ApplyView;

    closed spec fn view(&self) -> ApplyView {
        ApplyView {
            done: self.done as nat,
            sent: self.sent as nat,
            tries: self.tries as nat,
            progress: self.progress,
        }
    }
}

/// Whether a reading shows the value that a step wants.
pub open spec fn in_sync(step: profile::StepView, reading: ReadingView) -> bool {
    profile::decided(step, reading.value()) == Decision::InSync
}

/// What is said of a value that was written and read back.
pub open spec fn apply_line(step: profile::StepView, reading: ReadingView) -> Seq<char> {
    text::padded(step.param.name@, 18) + " want "@ + text::padded(
        step.param.shown(step.desired),
        22,
    ) + " now "@ + text::padded(current_words(step, reading), 34) + " "@ + if in_sync(
        step,
        reading,
    ) {
        "confirmed"@
    } else {
        "sent, not confirmed"@
    }
}

impl ApplyView {
    /// Before anything was applied.
    pub open spec fn start() -> ApplyView {
        ApplyView { done: 0, sent: 0, tries: 0, progress: Progress::Check }
    }

    /// Whether there is something to read.
    pub open spec fn goes_on(self, steps: Seq<profile::StepView>) -> bool {
        self.done < steps.len() && !(self.progress is Stopped)
    }

    /// What holds of every application: no step is written twice, and a value is
    /// read back only so often.
    pub open spec fn valid(self, steps: Seq<profile::StepView>) -> bool {
        &&& self.done <= steps.len()
        &&& self.progress is Check ==> self.sent <= self.done
        &&& !(self.progress is Check) ==> self.done < steps.len() && self.sent <= self.done + 1
        &&& self.progress is Settle ==> self.tries < SETTLE_ATTEMPTS
    }

    /// What a reading for the present step leads to.
    pub open spec fn after(self, steps: Seq<profile::StepView>, reading: ReadingView) -> (
        ApplyView,
        VerdictView,
    ) {
        let step = steps[self.done as int];
        if self.progress is Check {
            if in_sync(step, reading) {
                (
                    ApplyView { done: self.done + 1, ..self },
                    VerdictView::Already(
                        text::padded(step.param.name@, 18) + " already "@ + step.param.shown(
                            step.desired,
                        ),
                    ),
                )
            } else {
                (
                    ApplyView {
                        sent: self.sent + 1,
                        tries: 0,
                        progress: Progress::Settle,
                        ..self
                    },
                    VerdictView::Send("--> "@ + hex::hex_of(step.frame)),
                )
            }
        } else if in_sync(step, reading) {
            (
                ApplyView {
                    done: self.done + 1,
                    tries: self.tries + 1,
                    progress: Progress::Check,
                    ..self
                },
                VerdictView::Confirmed(apply_line(step, reading)),
            )
        } else if self.tries + 1 < SETTLE_ATTEMPTS {
            (ApplyView { tries: self.tries + 1, ..self }, VerdictView::Again)
        } else {
            (
                ApplyView { tries: self.tries + 1, progress: Progress::Stopped, ..self },
                VerdictView::Unconfirmed(
                    apply_line(step, reading),
                    "stopping after an unconfirmed write; "@ + text::dec(
                        (steps.len() - self.done - 1) as nat,
                    ) + " step(s) not attempted"@,
                ),
            )
        }
    }
}

fn is_in_sync(step: &Step<'_>, reading: &Reading) -> (r: bool)
    ensures
        r == in_sync(step@, reading@),
{
    match step.decide(reading.value()) {
        Decision::InSync => true,
        Decision::Write(_) => false,
    }
}

impl<'a, 'm> Apply<'a, 'm> {
    #[verifier::type_invariant]
    spec fn consistent(self) -> bool {
        self@.valid(profile::steps_view(self.steps@))
    }

    /// The steps that are applied.
    pub closed spec fn steps(&self) -> Seq<profile::StepView> {
        profile::steps_view(self.steps@)
    }

    /// Before anything was applied.
    pub fn new(steps: &'a Vec<Step<'m>>) -> (r: Self)
        ensures
            r.steps() == profile::steps_view(steps@),
            r@ == ApplyView::start(),
    {
        Apply { steps, done: 0, sent: 0, tries: 0, progress: Progress::Check }
    }

    /// What is read next, or that nothing is.
    pub fn next(&self) -> (r: Todo)
        ensures
            r == (if self@.goes_on(self.steps()) {
                Todo::Read(self@.done as usize)
            } else {
                Todo::Done(!(self@.progress is Stopped))
            }),
            self@.valid(self.steps()),
    {
        proof {
            use_type_invariant(self);
        }
        match self.progress {
            Progress::Stopped => Todo::Done(false),
            _ => if self.done < self.steps.len() {
                Todo::Read(self.done)
            } else {
                Todo::Done(true)
            },
        }
    }

    /// Takes the reading for the present step: its value is written only where
    /// the reading does not show it, and then read back.
    pub fn apply(&mut self, reading: &Reading) -> (r: Verdict)
        requires
            old(self)@.goes_on(old(self).steps()),
        ensures
            final(self).steps() == old(self).steps(),
            (final(self)@, r@) == old(self)@.after(old(self).steps(), reading@),
    {
        proof {
            use_type_invariant(&*self);
        }
        let steps = self.steps;
        let step = &steps[self.done];
        assert(profile::steps_view(steps@)[self.done as int] == step@);
        assert(steps@.len() == steps.len());
        let there = is_in_sync(step, reading);
        match self.progress {
            Progress::Check => {
                if there {
                    self.done = self.done + 1;
                    return Verdict::Already(
                        pad(step.param.name.as_str(), 18).concat(" already ").concat(
                            step.param.show(&step.desired).as_str(),
                        ),
                    );
                }
                self.tries = 0;
                self.progress = Progress::Settle;
                self.sent = self.sent + 1;
                Verdict::Send("--> ".to_owned().concat(hex::hex(step.frame()).as_str()))
            },
            _ => {
                let tries = self.tries + 1;
                if !there && tries < SETTLE_ATTEMPTS {
                    self.tries = tries;
                    return Verdict::Again;
                }
                let verdict: &str = if there {
                    "confirmed"
                } else {
                    "sent, not confirmed"
                };
                let line = pad(step.param.name.as_str(), 18).concat(" want ").concat(
                    pad(step.param.show(&step.desired).as_str(), 22).as_str(),
                ).concat(" now ").concat(
                    pad(current_text(step, reading).as_str(), 34).as_str(),
                ).concat(" ").concat(verdict);
                if there {
                    let done = self.done + 1;
                    let sent = self.sent;
                    self.sent = 0;
                    self.progress = Progress::Check;
                    self.tries = tries;
                    self.done = done;
                    self.sent = sent;
                    return Verdict::Confirmed(line);
                }
                let stop = "stopping after an unconfirmed write; ".to_owned().concat(
                    dec_text((steps.len() - self.done - 1) as u64).as_str(),
                ).concat(" step(s) not attempted");
                self.progress = Progress::Stopped;
                self.tries = tries;
                Verdict::Unconfirmed(line, stop)
            },
        }
    }

    /// What is said once every step is done.
    pub fn finish(&self) -> (r: String)
        requires
            self@.done == self.steps().len(),
        ensures
            r@ == text::dec(self.steps().len()) + " parameter(s): "@ + text::dec(
                (self.steps().len() - self@.sent) as nat,
            ) + " already in sync, "@ + text::dec(self@.sent) + " written and confirmed"@,
    {
        proof {
            use_type_invariant(self);
        }
        let total = self.steps.len();
        dec_text(total as u64).concat(" parameter(s): ").concat(
            dec_text((total - self.sent) as u64).as_str(),
        ).concat(" already in sync, ").concat(dec_text(self.sent as u64).as_str()).concat(
            " written and confirmed",
        )
    }
}

// ---------------------------------------------------------------------------
// Laws
// ---------------------------------------------------------------------------

/// What is taken for an answer is one of the frames that came, and answers the
/// request; without an answer among them none is made up.
pub proof fn law_answer_is_wanted(model: Seq<u8>, want: Want, frames: Seq<Seq<u8>>)
    ensures
        match first_answer(model, want, frames) {
            Some(reply) => answers(want, reply) && exists|i: int|
                0 <= i < frames.len() && sysex::decoded_frame(model, #[trigger] frames[i]) == Ok::<
                    sysex::IncomingView,
                    DecodeError,
                >(reply) && forall|j: int|
                    0 <= j < i ==> answer_in(model, want, #[trigger] frames[j]) is None,
            None => forall|i: int|
                0 <= i < frames.len() ==> answer_in(model, want, #[trigger] frames[i]) is None,
        },
    decreases frames.len(),
{
    if frames.len() > 0 {
        let before = frames.drop_last();
        let last = frames.len() - 1;
        law_answer_is_wanted(model, want, before);
        match first_answer(model, want, before) {
            Some(reply) => {
                let i = choose|i: int|
                    0 <= i < before.len() && sysex::decoded_frame(model, #[trigger] before[i])
                        == Ok::<sysex::IncomingView, DecodeError>(reply) && forall|j: int|
                        0 <= j < i ==> answer_in(model, want, #[trigger] before[j]) is None;
                assert(sysex::decoded_frame(model, frames[i]) == Ok::<
                    sysex::IncomingView,
                    DecodeError,
                >(reply));
                assert forall|j: int| 0 <= j < i implies answer_in(
                    model,
                    want,
                    #[trigger] frames[j],
                ) is None by {
                    assert(before[j] == frames[j]);
                }
            },
            None => {
                assert forall|j: int| 0 <= j < last implies answer_in(
                    model,
                    want,
                    #[trigger] frames[j],
                ) is None by {
                    assert(before[j] == frames[j]);
                }
                assert(frames[last] == frames.last());
            },
        }
    }
}

/// A device that answers a read request with what a write to the same address
/// carries is read as the value that was written: where a parameter takes a value,
/// the reply that holds its bytes is a reading of it.
pub proof fn law_written_value_is_read(
    model: Seq<u8>,
    device_id: u8,
    param: Param,
    at: Address,
    value: crate::map::ValueView,
)
    requires
        sysex::all_seven_bit(model),
        device_id <= 0x7F,
        sysex::is_address(at@),
        param.size > 0,
        param.objection(value) is None,
    ensures
        ({
            let raw = sysex::dt1_frame(model, device_id, at@, param.encoded(value)->0);
            read_as(param, answer_in(model, Want::Data(at), raw)) == ReadingView::Got(value)
        }),
{
    crate::map::law_accepted_value_reads_back(param, value);
    sysex::law_write_reads_back(model, device_id, at@, param.encoded(value)->0);
}

/// A request is sent again only where nothing came in time, and at most so often.
pub proof fn law_requests_are_bounded(
    model: Seq<u8>,
    want: Want,
    attempts: nat,
    batch: crate::seq::BatchView,
)
    ensures
        next_after(model, want, attempts, batch) is Send ==> attempts < ATTEMPTS
            && batch.frames.len() == 0 && batch.error is None,
        attempts >= ATTEMPTS && batch.frames.len() == 0 && batch.error is None ==> next_after(
            model,
            want,
            attempts,
            batch,
        ) == NextView::Answer(None),
{
}

/// The survey over a run of readings.
pub open spec fn surveyed(params: Seq<Param>, readings: Seq<ReadingView>) -> SurveyView
    decreases readings.len(),
{
    if readings.len() == 0 {
        SurveyView::start(params)
    } else {
        surveyed(params, readings.drop_last()).after(readings.last())
    }
}

/// A survey succeeds exactly where every parameter answered with a value.
pub proof fn law_survey_needs_every_value(params: Seq<Param>, readings: Seq<ReadingView>)
    ensures
        surveyed(params, readings).seen == readings.len(),
        surveyed(params, readings).params == params,
        surveyed(params, readings).answered <==> forall|i: int|
            0 <= i < readings.len() ==> (#[trigger] readings[i]) is Got,
    decreases readings.len(),
{
    if readings.len() > 0 {
        let before = readings.drop_last();
        law_survey_needs_every_value(params, before);
        assert(readings.last() == readings[readings.len() - 1]);
        if surveyed(params, readings).answered {
            assert forall|i: int| 0 <= i < readings.len() implies (#[trigger] readings[i]) is Got by {
                if i < before.len() {
                    assert(before[i] is Got);
                }
            }
        } else if forall|i: int| 0 <= i < readings.len() ==> (#[trigger] readings[i]) is Got {
            assert forall|i: int| 0 <= i < before.len() implies (#[trigger] before[i]) is Got by {
                assert(readings[i] is Got);
            }
        }
    }
}

/// The comparison over a run of steps.
pub open spec fn compared(
    steps: Seq<profile::StepView>,
    readings: Seq<ReadingView>,
) -> DiffView
    decreases steps.len(),
{
    if steps.len() == 0 {
        DiffView { answered: true, changes: 0, unknown: 0, seen: 0 }
    } else {
        compared(steps.drop_last(), readings.drop_last()).after(steps.last(), readings.last())
    }
}

/// A comparison counts every parameter once, and it is reported as without open
/// questions and without differences exactly where every one is in sync.
pub proof fn law_comparison_adds_up(
    steps: Seq<profile::StepView>,
    readings: Seq<ReadingView>,
)
    requires
        steps.len() == readings.len(),
    ensures
        ({
            let d = compared(steps, readings);
            &&& d.seen == steps.len()
            &&& d.changes + d.unknown <= d.seen
            &&& d.changes == 0 && d.unknown == 0 <==> forall|i: int|
                0 <= i < steps.len() ==> in_sync(#[trigger] steps[i], readings[i])
        }),
    decreases steps.len(),
{
    if steps.len() > 0 {
        let n = steps.len() - 1;
        let before = steps.drop_last();
        let said = readings.drop_last();
        law_comparison_adds_up(before, said);
        let d = compared(steps, readings);
        let e = compared(before, said);
        assert(steps.last() == steps[n] && readings.last() == readings[n]);
        if d.changes == 0 && d.unknown == 0 {
            assert forall|i: int| 0 <= i < steps.len() implies in_sync(
                #[trigger] steps[i],
                readings[i],
            ) by {
                if i < n {
                    assert(in_sync(before[i], said[i]));
                }
            }
        } else if forall|i: int| 0 <= i < steps.len() ==> in_sync(#[trigger] steps[i], readings[i]) {
            assert forall|i: int| 0 <= i < before.len() implies in_sync(
                #[trigger] before[i],
                said[i],
            ) by {
                assert(in_sync(steps[i], readings[i]));
            }
            assert(in_sync(steps[n], readings[n]));
        }
    }
}

/// An application keeps to what it promises: a value is written only where the
/// reading does not show it, a step is done only where one does, no value is read
/// back more often than allowed, and after a value that could not be confirmed
/// nothing is read or written.
pub proof fn law_apply_writes_only_what_differs(
    state: ApplyView,
    steps: Seq<profile::StepView>,
    reading: ReadingView,
)
    requires
        state.valid(steps),
        state.goes_on(steps),
    ensures
        ({
            let (next, verdict) = state.after(steps, reading);
            let step = steps[state.done as int];
            &&& next.valid(steps)
            &&& verdict is Send <==> next.sent == state.sent + 1
            &&& verdict is Send ==> state.progress is Check && !in_sync(step, reading)
            &&& next.sent == state.sent || next.sent == state.sent + 1
            &&& next.done == state.done + 1 <==> in_sync(step, reading)
            &&& next.done == state.done || next.done == state.done + 1
            &&& verdict is Unconfirmed <==> next.progress is Stopped
            &&& next.progress is Stopped ==> next.tries == SETTLE_ATTEMPTS && !next.goes_on(steps)
        }),
{
}

/// The state after a run of readings.
pub open spec fn applied(
    steps: Seq<profile::StepView>,
    readings: Seq<ReadingView>,
) -> ApplyView
    decreases readings.len(),
{
    if readings.len() == 0 {
        ApplyView::start()
    } else {
        let before = applied(steps, readings.drop_last());
        if before.goes_on(steps) {
            before.after(steps, readings.last()).0
        } else {
            before
        }
    }
}

/// Every step that is done was seen in sync, whatever was read before; so where
/// all are done, the device has every value of the profile.
pub proof fn law_done_means_in_sync(
    steps: Seq<profile::StepView>,
    readings: Seq<ReadingView>,
    i: int,
)
    requires
        0 <= i < applied(steps, readings).done,
    ensures
        applied(steps, readings).valid(steps),
        exists|k: int| 0 <= k < readings.len() && in_sync(steps[i], #[trigger] readings[k]),
    decreases readings.len(),
{
    lemma_applied_valid(steps, readings);
    if readings.len() > 0 {
        let n = readings.len() - 1;
        let before = applied(steps, readings.drop_last());
        if i < before.done {
            law_done_means_in_sync(steps, readings.drop_last(), i);
            let k = choose|k: int|
                0 <= k < n && in_sync(steps[i], #[trigger] readings.drop_last()[k]);
            assert(in_sync(steps[i], readings[k]));
        } else {
            assert(in_sync(steps[i], readings[n]));
        }
    }
}

proof fn lemma_applied_valid(steps: Seq<profile::StepView>, readings: Seq<ReadingView>)
    ensures
        applied(steps, readings).valid(steps),
    decreases readings.len(),
{
    if readings.len() > 0 {
        lemma_applied_valid(steps, readings.drop_last());
    }
}

/// A device is taken for the one of the map exactly where it sent an identity reply with
/// the map's family and the map's member. A reply in which either differs is an error,
/// and without a reply there is neither.
pub proof fn law_identity_needs_family_and_member(
    map: AddressMap,
    reply: Option<sysex::IncomingView>,
)
    ensures
        identified(map, reply).1 == Ok::<bool, Seq<char>>(true) <==> (reply matches Some(
            sysex::IncomingView::IdentityReply(id),
        ) && id.family == map.device.identity_family@ && id.member == map.device.identity_member@),
        identified(map, reply).1 is Err <==> (reply matches Some(
            sysex::IncomingView::IdentityReply(id),
        ) && !(id.family == map.device.identity_family@ && id.member
            == map.device.identity_member@)),
        identified(map, reply).1 == Ok::<bool, Seq<char>>(false) <==> !(reply is Some
            && reply->0 is IdentityReply),
{
}

/// What is said of an identity reply begins with the reply, and goes on exactly where
/// the device is the map's.
pub proof fn law_identity_reply_is_told(map: AddressMap, reply: Option<sysex::IncomingView>)
    ensures
        reply matches Some(sysex::IncomingView::IdentityReply(id)) ==> identified(map, reply).0[0]
            == render::identity_line(id),
        identified(map, reply).0.len() == if identified(map, reply).1 == Ok::<bool, Seq<char>>(
            true,
        ) {
            2nat
        } else {
            1
        },
{
}

/// A request for the identity is answered by an identity reply, a request for data by
/// data from the same address, and neither by anything else.
pub proof fn law_what_answers_a_request(want: Want, incoming: sysex::IncomingView)
    ensures
        want is Identity ==> answers(want, incoming) == (incoming is IdentityReply),
        want matches Want::Data(at) ==> answers(want, incoming) == (
        incoming matches sysex::IncomingView::Dt1 { addr, .. } && addr == at@),
{
}

/// What a batch leads to: a failure where something went wrong; without frames another
/// request while fewer than two were sent, then no answer; with frames their first
/// answer, and without one more waiting.
pub proof fn law_what_a_batch_leads_to(
    model: Seq<u8>,
    want: Want,
    attempts: nat,
    batch: crate::seq::BatchView,
    i: int,
)
    ensures
        ({
            let next = next_after(model, want, attempts, batch);
            &&& next is Fail <==> batch.error is Some
            &&& next matches NextView::Fail(e) ==> batch.error == Some(e)
            &&& next is Send <==> batch.error is None && batch.frames.len() == 0 && attempts < 2
            &&& next == NextView::Answer(None) <==> batch.error is None && batch.frames.len() == 0
                && attempts >= 2
            &&& batch.error is None && 0 <= i < batch.frames.len() && answer_in(
                model,
                want,
                batch.frames[i],
            ) is Some && (forall|j: int|
                0 <= j < i ==> answer_in(model, want, #[trigger] batch.frames[j]) is None) ==> next
                == NextView::Answer(answer_in(model, want, batch.frames[i]))
            &&& next is Wait <==> batch.error is None && batch.frames.len() > 0 && forall|j: int|
                0 <= j < batch.frames.len() ==> answer_in(model, want, #[trigger] batch.frames[j]) is None
        }),
{
    law_answer_is_wanted(model, want, batch.frames);
    if let Some(reply) = first_answer(model, want, batch.frames) {
        let k = choose|k: int|
            0 <= k < batch.frames.len() && sysex::decoded_frame(model, #[trigger] batch.frames[k])
                == Ok::<sysex::IncomingView, DecodeError>(reply) && forall|j: int|
                0 <= j < k ==> answer_in(model, want, #[trigger] batch.frames[j]) is None;
        assert(answer_in(model, want, batch.frames[k]) == Some(reply));
    }
}

/// A reading is the value that the parameter reads from the data of the answer, the data
/// where it reads none, and silence where there was no data.
pub proof fn law_reading_is_of_the_answer(param: Param, reply: Option<sysex::IncomingView>)
    ensures
        match reply {
            Some(sysex::IncomingView::Dt1 { data, .. }) => match read_as(param, reply) {
                ReadingView::Got(value) => param.decoded(data) == Some(value),
                ReadingView::Undecodable(same) => same == data && param.decoded(data) is None,
                _ => false,
            },
            _ => read_as(param, reply) is Silent,
        },
{
}

/// How many steps of a run differ from their readings, and how many could not be
/// compared, as the comparison counts them; and whether all answered.
pub proof fn law_comparison_counts_each_step(
    steps: Seq<profile::StepView>,
    readings: Seq<ReadingView>,
)
    requires
        steps.len() == readings.len(),
    ensures
        ({
            let d = compared(steps, readings);
            &&& d.changes == differing(steps, readings).len()
            &&& d.unknown == incomparable(steps, readings).len()
            &&& d.answered <==> forall|i: int|
                0 <= i < readings.len() ==> !((#[trigger] readings[i]) is Silent) && !(
                readings[i] is Undecodable)
        }),
    decreases steps.len(),
{
    if steps.len() > 0 {
        let n = steps.len() - 1;
        let (before, said) = (steps.drop_last(), readings.drop_last());
        law_comparison_counts_each_step(before, said);
        assert(steps.last() == steps[n] && readings.last() == readings[n]);
        lemma_filtered_indices(steps, readings);
        assert forall|i: int| 0 <= i < n implies #[trigger] said[i] == readings[i] by {}
        if compared(steps, readings).answered {
            assert forall|i: int| 0 <= i < readings.len() implies !((#[trigger] readings[i]) is Silent)
                && !(readings[i] is Undecodable) by {
                if i < n {
                    assert(said[i] == readings[i]);
                }
            }
        } else if forall|i: int|
            0 <= i < readings.len() ==> !((#[trigger] readings[i]) is Silent) && !(
            readings[i] is Undecodable) {
            assert forall|i: int| 0 <= i < said.len() implies !((#[trigger] said[i]) is Silent) && !(
            said[i] is Undecodable) by {
                assert(said[i] == readings[i]);
            }
            assert(!(readings[n] is Silent) && !(readings[n] is Undecodable));
        }
    }
}

/// The steps whose reading differs from what they want.
pub open spec fn differing(steps: Seq<profile::StepView>, readings: Seq<ReadingView>) -> Seq<int> {
    Seq::new(steps.len(), |i: int| i).filter(
        |i: int|
            profile::decided(steps[i], readings[i].value()) == Decision::Write(Reason::Differs),
    )
}

/// The steps whose reading cannot be compared with what they want.
pub open spec fn incomparable(
    steps: Seq<profile::StepView>,
    readings: Seq<ReadingView>,
) -> Seq<int> {
    Seq::new(steps.len(), |i: int| i).filter(
        |i: int|
            profile::decided(steps[i], readings[i].value()) == Decision::Write(Reason::Unknown)
                || profile::decided(steps[i], readings[i].value()) == Decision::Write(
                Reason::NotComparable,
            ),
    )
}

proof fn lemma_filter_agrees(s: Seq<int>, p: spec_fn(int) -> bool, q: spec_fn(int) -> bool)
    requires
        forall|i: int| 0 <= i < s.len() ==> p(#[trigger] s[i]) == q(s[i]),
    ensures
        s.filter(p) == s.filter(q),
    decreases s.len(),
{
    reveal(Seq::filter);
    if s.len() > 0 {
        assert forall|i: int| 0 <= i < s.drop_last().len() implies p(#[trigger] s.drop_last()[i])
            == q(s.drop_last()[i]) by {
            assert(s.drop_last()[i] == s[i]);
        }
        lemma_filter_agrees(s.drop_last(), p, q);
        assert(p(s[s.len() - 1]) == q(s[s.len() - 1]));
    }
}

proof fn lemma_filtered_indices(steps: Seq<profile::StepView>, readings: Seq<ReadingView>)
    requires
        steps.len() == readings.len(),
        steps.len() > 0,
    ensures
        ({
            let (before, said) = (steps.drop_last(), readings.drop_last());
            let decision = profile::decided(steps.last(), readings.last().value());
            &&& differing(steps, readings).len() == differing(before, said).len() + if decision
                == Decision::Write(Reason::Differs) {
                1int
            } else {
                0
            }
            &&& incomparable(steps, readings).len() == incomparable(before, said).len() + if decision
                == Decision::Write(Reason::Unknown) || decision == Decision::Write(
                Reason::NotComparable,
            ) {
                1int
            } else {
                0
            }
        }),
{
    reveal(Seq::filter);
    let n = (steps.len() - 1) as nat;
    let (before, said) = (steps.drop_last(), readings.drop_last());
    let all = Seq::new(steps.len(), |i: int| i);
    let fewer = Seq::new(n, |i: int| i);
    assert(all.drop_last() =~= fewer);
    lemma_filter_agrees(
        fewer,
        |i: int|
            profile::decided(steps[i], readings[i].value()) == Decision::Write(Reason::Differs),
        |i: int| profile::decided(before[i], said[i].value()) == Decision::Write(Reason::Differs),
    );
    lemma_filter_agrees(
        fewer,
        |i: int|
            profile::decided(steps[i], readings[i].value()) == Decision::Write(Reason::Unknown)
                || profile::decided(steps[i], readings[i].value()) == Decision::Write(
                Reason::NotComparable,
            ),
        |i: int|
            profile::decided(before[i], said[i].value()) == Decision::Write(Reason::Unknown)
                || profile::decided(before[i], said[i].value()) == Decision::Write(
                Reason::NotComparable,
            ),
    );
}

/// What a reading leads to while a profile is applied: before a write, the value is left
/// alone where it is there and written where it is not; after a write, it is confirmed
/// where it is there, read again up to ten times in all, and then given up.
pub proof fn law_what_a_reading_leads_to(
    state: ApplyView,
    steps: Seq<profile::StepView>,
    reading: ReadingView,
)
    requires
        state.valid(steps),
        state.goes_on(steps),
    ensures
        ({
            let (next, verdict) = state.after(steps, reading);
            let there = profile::decided(steps[state.done as int], reading.value())
                == Decision::InSync;
            let fresh = state.progress is Check;
            &&& verdict is Already <==> fresh && there
            &&& verdict is Send <==> fresh && !there
            &&& verdict is Confirmed <==> !fresh && there
            &&& verdict is Again <==> !fresh && !there && state.tries + 1 < 10
            &&& verdict is Unconfirmed <==> !fresh && !there && state.tries + 1 >= 10
            &&& verdict is Send ==> next.progress is Settle && next.tries == 0
            &&& verdict is Again ==> next.progress is Settle && next.tries == state.tries + 1
            &&& verdict is Already || verdict is Confirmed ==> next.progress is Check && next.done
                == state.done + 1
        }),
{
}

/// Each frame has a line, in order. The first that answers is shown as it came in, and
/// every other is told.
pub proof fn law_each_frame_is_told(
    map: AddressMap,
    model: Seq<u8>,
    device: u8,
    want: Want,
    frames: Seq<Seq<u8>>,
    i: int,
)
    requires
        0 <= i < frames.len(),
    ensures
        ({
            let lines = frame_lines(map, model, device, want, frames);
            let first = answer_in(model, want, frames[i]) is Some && forall|j: int|
                0 <= j < i ==> answer_in(model, want, #[trigger] frames[j]) is None;
            &&& lines.len() == frames.len()
            &&& first ==> lines[i] == "<-- "@ + hex::hex_of(frames[i])
            &&& !first ==> lines[i] == render::frame_line(
                map,
                device,
                frames[i],
                sysex::decoded_frame(model, frames[i]),
            )
        }),
    decreases frames.len(),
{
    let before = frames.drop_last();
    lemma_frame_lines_len(map, model, device, want, before);
    if i < before.len() {
        law_each_frame_is_told(map, model, device, want, before, i);
        assert(before[i] == frames[i]);
        assert forall|j: int| 0 <= j < i implies before[j] == #[trigger] frames[j] by {}
        if answer_in(model, want, frames[i]) is Some && (forall|j: int|
            0 <= j < i ==> answer_in(model, want, #[trigger] frames[j]) is None) {
            assert forall|j: int| 0 <= j < i implies answer_in(
                model,
                want,
                #[trigger] before[j],
            ) is None by {
                assert(frames[j] == before[j]);
            }
        } else if answer_in(model, want, frames[i]) is Some {
            let j = choose|j: int|
                0 <= j < i && answer_in(model, want, #[trigger] frames[j]) is Some;
            assert(answer_in(model, want, before[j]) is Some);
        }
    } else {
        law_answer_is_wanted(model, want, before);
        assert forall|j: int| 0 <= j < i implies before[j] == #[trigger] frames[j] by {}
        if first_answer(model, want, before) is None {
            assert forall|j: int| 0 <= j < i implies answer_in(
                model,
                want,
                #[trigger] frames[j],
            ) is None by {
                assert(answer_in(model, want, before[j]) is None);
            }
        } else {
            let reply = first_answer(model, want, before)->0;
            let k = choose|k: int|
                0 <= k < before.len() && sysex::decoded_frame(model, #[trigger] before[k]) == Ok::<
                    sysex::IncomingView,
                    DecodeError,
                >(reply);
            assert(answer_in(model, want, frames[k]) is Some);
        }
    }
}

proof fn lemma_frame_lines_len(
    map: AddressMap,
    model: Seq<u8>,
    device: u8,
    want: Want,
    frames: Seq<Seq<u8>>,
)
    ensures
        frame_lines(map, model, device, want, frames).len() == frames.len(),
    decreases frames.len(),
{
    if frames.len() > 0 {
        lemma_frame_lines_len(map, model, device, want, frames.drop_last());
    }
}

/// What is current is the value that was read, and where it was read from a partner, the
/// partner's name; where none was read it is unknown.
pub proof fn law_current_is_what_was_read(step: profile::StepView, reading: ReadingView)
    ensures
        ({
            let words = current_words(step, reading);
            match (reading, step.current_from) {
                (ReadingView::Got(value), Some(from)) => {
                    let n = from.shown(value).len() as int;
                    &&& words.take(n) == from.shown(value)
                    &&& from.name@ == step.param.name@ ==> words.len() == n
                    &&& from.name@ != step.param.name@ ==> words.len() == n + 5 + from.name@.len()
                        && words.skip(n + 5) == from.name@
                },
                _ => words.len() > 8 && words.take(8) == seq!['u', 'n', 'k', 'n', 'o', 'w', 'n', ' '],
            }
        }),
{
    reveal_strlit(" via ");
    reveal_strlit("unknown (");
    reveal_strlit("unknown (nothing readable is mapped)");
    let words = current_words(step, reading);
    match (reading, step.current_from) {
        (ReadingView::Got(value), Some(from)) => {
            let n = from.shown(value).len() as int;
            assert(words.take(n) =~= from.shown(value));
            if from.name@ != step.param.name@ {
                assert(words.skip(n + 5) =~= from.name@);
            }
        },
        _ => {
            assert(words.take(8) =~= seq!['u', 'n', 'k', 'n', 'o', 'w', 'n', ' ']);
        },
    }
}

/// The line of a comparison tells the name, the value that is wanted and what is
/// current. It ends with the frame that would be sent exactly where the values differ.
pub proof fn law_comparison_is_told(step: profile::StepView, reading: ReadingView)
    ensures
        ({
            let line = diff_line(step, reading);
            let want = step.param.shown(step.desired);
            let sent = hex::hex_of(step.frame);
            let end = "in sync"@;
            &&& line.take(step.param.name@.len() as int) == step.param.name@
            &&& text::occurs(" want "@ + want, line)
            &&& text::occurs(" current "@ + current_words(step, reading), line)
            &&& match profile::decided(step, reading.value()) {
                Decision::InSync => line.skip(line.len() - end.len()) == end,
                Decision::Write(Reason::Differs) => line.skip(line.len() - sent.len()) == sent,
                Decision::Write(_) => text::occurs("would send "@ + sent + "  ("@, line),
            }
        }),
{
    reveal_strlit("");
    reveal_strlit("  (");
    reveal_strlit("  (current state unknown)");
    reveal_strlit("  (no read-back name for this value)");
    let line = diff_line(step, reading);
    let name = text::padded(step.param.name@, 18);
    let want = step.param.shown(step.desired);
    let now = current_words(step, reading);
    let wide = text::padded(want, 22);
    let long = text::padded(now, 34);
    let sent = hex::hex_of(step.frame);
    assert(name.take(step.param.name@.len() as int) =~= step.param.name@);
    assert(line.take(step.param.name@.len() as int) =~= name.take(
        step.param.name@.len() as int,
    ));
    let a = name.len() as int;
    let told = " want "@ + want;
    assert(line.subrange(a, a + told.len()) =~= told);
    let b = (name + " want "@ + wide).len() as int;
    let current = " current "@ + now;
    assert(line.subrange(b, b + current.len()) =~= current);
    match profile::decided(step, reading.value()) {
        Decision::InSync => {
            assert(line.skip(line.len() - "in sync"@.len()) =~= "in sync"@);
        },
        Decision::Write(reason) => {
            let c = (name + " want "@ + wide + " current "@ + long + " "@).len() as int;
            let would = "would send "@ + sent + "  ("@;
            if reason is Differs {
                assert(line.skip(line.len() - sent.len()) =~= sent);
            } else {
                assert(line.subrange(c, c + would.len()) =~= would);
            }
        },
    }
}

/// A summary tells all four counts, and the last is what the others leave.
pub proof fn law_summary_tells_the_counts(d: DiffView)
    requires
        d.changes + d.unknown <= d.seen,
    ensures
        ({
            let n = text::dec(d.seen).len() as int;
            &&& d.summary().take(n) == text::dec(d.seen)
            &&& text::occurs(": "@ + text::dec(d.changes) + " differ, "@, d.summary())
            &&& text::occurs(
                ", "@ + text::dec(d.unknown) + " could not be compared, "@,
                d.summary(),
            )
            &&& forall|rest: nat|
                d.changes + d.unknown + rest == d.seen ==> text::occurs(
                    ", "@ + #[trigger] text::dec(rest) + " in sync"@,
                    d.summary(),
                )
        }),
{
    reveal_strlit(" parameter(s): ");
    reveal_strlit(": ");
    reveal_strlit(", ");
    reveal_strlit(" differ, ");
    reveal_strlit(" could not be compared, ");
    reveal_strlit(" in sync");
    reveal_strlit(" in sync; no write was sent (only the reads above went out)");
    let s = d.summary();
    let n = text::dec(d.seen).len() as int;
    assert(s.take(n) =~= text::dec(d.seen));
    let changed = ": "@ + text::dec(d.changes) + " differ, "@;
    let a = n + 13;
    assert(s.subrange(a, a + changed.len()) =~= changed);
    let open = ", "@ + text::dec(d.unknown) + " could not be compared, "@;
    let b = a + changed.len() - 2;
    assert(s.subrange(b, b + open.len()) =~= open);
    let rest = (d.seen - d.changes - d.unknown) as nat;
    let same = ", "@ + text::dec(rest) + " in sync"@;
    let c = b + open.len() - 2;
    assert(s.subrange(c, c + same.len()) =~= same);
}

/// What is said at each turn of an application: a frame that is sent is shown, and a
/// stop tells how many steps come after the present one.
pub proof fn law_what_is_said_of_a_step(
    state: ApplyView,
    steps: Seq<profile::StepView>,
    reading: ReadingView,
    left: nat,
)
    requires
        state.valid(steps),
        state.goes_on(steps),
        state.done + 1 + left == steps.len(),
    ensures
        ({
            let step = steps[state.done as int];
            let name = step.param.name@;
            let want = step.param.shown(step.desired);
            match state.after(steps, reading).1 {
                VerdictView::Already(s) => s.take(name.len() as int) == name && s.skip(
                    s.len() - want.len(),
                ) == want,
                VerdictView::Send(s) => s.len() == 4 + 2 * step.frame.len() && s.skip(4)
                    == hex::hex_of(step.frame),
                VerdictView::Again => true,
                VerdictView::Confirmed(s) => s == apply_line(step, reading),
                VerdictView::Unconfirmed(s, t) => s == apply_line(step, reading) && text::occurs(
                    "; "@ + text::dec(left) + " step(s)"@,
                    t,
                ),
            }
        }),
{
    reveal_strlit("--> ");
    reveal_strlit("; ");
    reveal_strlit(" step(s)");
    reveal_strlit(" step(s) not attempted");
    reveal_strlit("stopping after an unconfirmed write; ");
    let step = steps[state.done as int];
    let name = step.param.name@;
    let want = step.param.shown(step.desired);
    match state.after(steps, reading).1 {
        VerdictView::Already(s) => {
            let wide = text::padded(name, 18);
            assert(wide.take(name.len() as int) =~= name);
            assert(s.take(name.len() as int) =~= wide.take(name.len() as int));
            assert(s.skip(s.len() - want.len()) =~= want);
        },
        VerdictView::Send(s) => {
            assert(s.skip(4) =~= hex::hex_of(step.frame));
        },
        VerdictView::Unconfirmed(_, t) => {
            let told = "; "@ + text::dec(left) + " step(s)"@;
            let a = "stopping after an unconfirmed write; "@.len() - 2;
            assert(t.subrange(a, a + told.len()) =~= told);
        },
        _ => {},
    }
}

/// The line of a write tells the name, the value that is wanted and what was read after
/// it, and calls it confirmed exactly where the two agree.
pub proof fn law_write_is_told_as_confirmed(step: profile::StepView, reading: ReadingView)
    ensures
        ({
            let line = apply_line(step, reading);
            let want = step.param.shown(step.desired);
            let now = current_words(step, reading);
            let wide = |s: Seq<char>, n: int|
                if s.len() < n {
                    n
                } else {
                    s.len() as int
                };
            let n = wide(step.param.name@, 18) + wide(want, 22) + wide(now, 34) + 12;
            &&& line.take(step.param.name@.len() as int) == step.param.name@
            &&& text::occurs(" want "@ + want, line)
            &&& text::occurs(" now "@ + now, line)
            &&& profile::decided(step, reading.value()) == Decision::InSync <==> line.skip(n)
                == "confirmed"@
            &&& profile::decided(step, reading.value()) != Decision::InSync <==> line.skip(n)
                == "sent, not confirmed"@
        }),
{
    reveal_strlit(" ");
    reveal_strlit(" want ");
    reveal_strlit(" now ");
    reveal_strlit("confirmed");
    reveal_strlit("sent, not confirmed");
    let line = apply_line(step, reading);
    let name = text::padded(step.param.name@, 18);
    let want = step.param.shown(step.desired);
    let now = current_words(step, reading);
    let wide = text::padded(want, 22);
    let long = text::padded(now, 34);
    assert(name.take(step.param.name@.len() as int) =~= step.param.name@);
    assert(line.take(step.param.name@.len() as int) =~= name.take(
        step.param.name@.len() as int,
    ));
    let a = name.len() as int;
    let told = " want "@ + want;
    assert(line.subrange(a, a + told.len()) =~= told);
    let b = (name + " want "@ + wide).len() as int;
    let current = " now "@ + now;
    assert(line.subrange(b, b + current.len()) =~= current);
    let n = name.len() as int + wide.len() + long.len() + 12;
    if in_sync(step, reading) {
        assert(line.skip(n) =~= "confirmed"@);
    } else {
        assert(line.skip(n) =~= "sent, not confirmed"@);
    }
    assert("confirmed"@.len() == 9 && "sent, not confirmed"@.len() == 19);
}

} // verus!
