//! Roland system-exclusive frames: building, decoding and reassembling.

use crate::hex;
use crate::hex::{parse_hex_field, spaced_hex};
use crate::text;
use crate::text::{dec_text, prefixed_hex_text};
use vstd::prelude::*;
use vstd::slice::{slice_subrange, slice_to_vec};

verus! {

pub const F0: u8 = 0xF0;

pub const F7: u8 = 0xF7;

pub const ROLAND: u8 = 0x41;

pub const UNIVERSAL_NON_REALTIME: u8 = 0x7E;

pub const ALL_DEVICES: u8 = 0x7F;

pub const GENERAL_INFORMATION: u8 = 0x06;

pub const IDENTITY_REQUEST: u8 = 0x01;

pub const IDENTITY_REPLY: u8 = 0x02;

pub const RQ1: u8 = 0x11;

pub const DT1: u8 = 0x12;

pub const ADDRESS_LEN: usize = 4;

/// The longest frame that is kept while it is still open, in bytes.
pub const MAX_FRAME: usize = 65536;

// ---------------------------------------------------------------------------
// Bytes
// ---------------------------------------------------------------------------

/// Whether every byte is a MIDI data byte.
pub open spec fn all_seven_bit(bytes: Seq<u8>) -> bool {
    forall|i: int| 0 <= i < bytes.len() ==> #[trigger] bytes[i] <= 0x7F
}

/// The first byte that is not a MIDI data byte, if there is one.
pub open spec fn first_wide(bytes: Seq<u8>) -> Option<u8>
    decreases bytes.len(),
{
    if bytes.len() == 0 {
        None
    } else if bytes[0] > 0x7F {
        Some(bytes[0])
    } else {
        first_wide(bytes.drop_first())
    }
}

/// There is no first wide byte exactly where all are data bytes.
pub proof fn lemma_first_wide(bytes: Seq<u8>)
    ensures
        first_wide(bytes) is None <==> all_seven_bit(bytes),
        first_wide(bytes) matches Some(b) ==> b > 0x7F && bytes.contains(b),
    decreases bytes.len(),
{
    if bytes.len() > 0 {
        let rest = bytes.drop_first();
        lemma_first_wide(rest);
        if bytes[0] <= 0x7F {
            if all_seven_bit(rest) {
                assert forall|i: int| 0 <= i < bytes.len() implies #[trigger] bytes[i]
                    <= 0x7F by {
                    if i > 0 {
                        assert(bytes[i] == rest[i - 1]);
                    }
                }
            } else {
                let i = choose|i: int| 0 <= i < rest.len() && rest[i] > 0x7F;
                assert(bytes[i + 1] == rest[i]);
            }
            if let Some(b) = first_wide(rest) {
                let i = choose|i: int| 0 <= i < rest.len() && rest[i] == b;
                assert(bytes[i + 1] == b);
            }
        } else {
            assert(bytes.contains(bytes[0]));
        }
    }
}

/// The first byte that is not a MIDI data byte, if there is one.
pub fn find_wide(bytes: &[u8]) -> (r: Option<u8>)
    ensures
        r == first_wide(bytes@),
{
    let mut i: usize = 0;
    assert(bytes@.skip(0) =~= bytes@);
    while i < bytes.len()
        invariant
            i <= bytes.len(),
            first_wide(bytes@) == first_wide(bytes@.skip(i as int)),
        decreases bytes.len() - i,
    {
        assert(bytes@.skip(i as int).drop_first() =~= bytes@.skip(i + 1));
        if bytes[i] > 0x7F {
            return Some(bytes[i]);
        }
        i = i + 1;
    }
    None
}

/// The sum of the bytes.
pub open spec fn byte_sum(bytes: Seq<u8>) -> nat
    decreases bytes.len(),
{
    if bytes.len() == 0 {
        0
    } else {
        byte_sum(bytes.drop_last()) + bytes.last() as nat
    }
}

/// The Roland checksum: what completes the sum of the bytes to a multiple of 128.
pub open spec fn checksum_of(bytes: Seq<u8>) -> u8 {
    ((128 - byte_sum(bytes) % 128) % 128) as u8
}

/// The Roland checksum of `bytes`.
pub fn checksum(bytes: &[u8]) -> (r: u8)
    ensures
        r == checksum_of(bytes@),
{
    let mut sum: u32 = 0;
    let mut i: usize = 0;
    while i < bytes.len()
        invariant
            i <= bytes.len(),
            sum == byte_sum(bytes@.take(i as int)) % 128,
        decreases bytes.len() - i,
    {
        assert(bytes@.take(i + 1).drop_last() =~= bytes@.take(i as int));
        sum = (sum + bytes[i] as u32) % 128;
        i = i + 1;
    }
    assert(bytes@.take(bytes@.len() as int) =~= bytes@);
    ((128 - sum) % 128) as u8
}

/// The low 28 bits of `v` as four 7-bit bytes, the most significant first.
pub open spec fn split7_of(v: u32) -> Seq<u8> {
    seq![
        (v / 0x20_0000 % 128) as u8,
        (v / 0x4000 % 128) as u8,
        (v / 0x80 % 128) as u8,
        (v % 128) as u8,
    ]
}

/// The number that four 7-bit bytes spell, the most significant first; the top
/// bit of each is ignored.
pub open spec fn join7_of(bytes: Seq<u8>) -> u32 {
    ((bytes[0] % 128) * 0x20_0000 + (bytes[1] % 128) * 0x4000 + (bytes[2] % 128) * 0x80 + (bytes[3]
        % 128)) as u32
}

/// The low 28 bits of `v` as four 7-bit bytes.
pub fn split7(v: u32) -> (r: [u8; 4])
    ensures
        r@ == split7_of(v),
{
    let r = [
        (v / 0x20_0000 % 128) as u8,
        (v / 0x4000 % 128) as u8,
        (v / 0x80 % 128) as u8,
        (v % 128) as u8,
    ];
    assert(r@ =~= split7_of(v));
    r
}

/// The number that four 7-bit bytes spell.
pub fn join7(bytes: [u8; 4]) -> (r: u32)
    ensures
        r == join7_of(bytes@),
{
    (bytes[0] % 128) as u32 * 0x20_0000 + (bytes[1] % 128) as u32 * 0x4000 + (bytes[2] % 128) as u32
        * 0x80 + (bytes[3] % 128) as u32
}

/// Appends the bytes of `more` to `out`.
fn extend(out: &mut Vec<u8>, more: &[u8])
    ensures
        final(out)@ == old(out)@ + more@,
{
    let mut i: usize = 0;
    while i < more.len()
        invariant
            i <= more.len(),
            out@ == old(out)@ + more@.take(i as int),
        decreases more.len() - i,
    {
        out.push(more[i]);
        i = i + 1;
        assert(out@ =~= old(out)@ + more@.take(i as int));
    }
    assert(more@.take(more@.len() as int) =~= more@);
}

/// Whether two byte slices are equal.
pub fn same_bytes(a: &[u8], b: &[u8]) -> (r: bool)
    ensures
        r == (a@ == b@),
{
    if a.len() != b.len() {
        return false;
    }
    let mut i: usize = 0;
    while i < a.len()
        invariant
            i <= a.len(),
            a@.len() == b@.len(),
            forall|k: int| 0 <= k < i ==> a@[k] == b@[k],
        decreases a.len() - i,
    {
        if a[i] != b[i] {
            return false;
        }
        i = i + 1;
    }
    assert(a@ =~= b@);
    true
}

// ---------------------------------------------------------------------------
// Addresses
// ---------------------------------------------------------------------------

/// A parameter address: four 7-bit bytes.
#[derive(Clone, Copy, PartialEq, Eq, PartialOrd, Ord, Hash, Debug)]
pub struct Address([u8; 4]);

impl View for Address {
    type V = Seq<u8>;

    closed spec fn view(&self) -> Seq<u8> {
        self.0@
    }
}

/// The contents of an address result.
pub open spec fn address_result(r: Result<Address, String>) -> Result<Seq<u8>, Seq<char>> {
    match r {
        Ok(a) => Ok(a@),
        Err(e) => Err(e@),
    }
}

/// The address that `bytes` are, or why they are none.
pub open spec fn address_of(bytes: Seq<u8>) -> Result<Seq<u8>, Seq<char>> {
    if bytes.len() != 4 {
        Err("an address is 4 bytes, got "@ + text::dec(bytes.len()))
    } else {
        match first_wide(bytes) {
            Some(b) => Err("address byte "@ + text::prefixed_hex(b) + " is not 7-bit"@),
            None => Ok(bytes),
        }
    }
}

/// The address that a text spells, or why it spells none.
pub open spec fn parsed_address(s: Seq<char>) -> Result<Seq<u8>, Seq<char>> {
    match hex::parsed_hex_field(s) {
        Ok(bytes) => address_of(bytes),
        Err(e) => Err(e),
    }
}

/// Whether `a` is what an address can be.
pub open spec fn is_address(a: Seq<u8>) -> bool {
    a.len() == 4 && all_seven_bit(a)
}

impl Address {
    #[verifier::type_invariant]
    spec fn seven_bit(self) -> bool {
        is_address(self.0@)
    }

    /// The address with these four bytes.
    pub fn from_slice(bytes: &[u8]) -> (r: Result<Self, String>)
        ensures
            address_result(r) == address_of(bytes@),
    {
        if bytes.len() != 4 {
            return Err(
                "an address is 4 bytes, got ".to_owned().concat(
                    dec_text(bytes.len() as u64).as_str(),
                ),
            );
        }
        proof {
            lemma_first_wide(bytes@);
        }
        match find_wide(bytes) {
            Some(b) => Err(
                "address byte ".to_owned().concat(prefixed_hex_text(b).as_str()).concat(
                    " is not 7-bit",
                ),
            ),
            None => {
                let four = [bytes[0], bytes[1], bytes[2], bytes[3]];
                assert(four@ =~= bytes@);
                Ok(Address(four))
            },
        }
    }

    /// The four bytes of the address.
    pub fn bytes(&self) -> (r: [u8; 4])
        ensures
            r@ == self@,
            is_address(self@),
    {
        proof {
            use_type_invariant(self);
        }
        self.0
    }

    /// The address that `text` spells.
    pub fn parse(text: &str) -> (r: Result<Self, String>)
        ensures
            address_result(r) == parsed_address(text@),
    {
        match parse_hex_field(text) {
            Ok(bytes) => Address::from_slice(bytes.as_slice()),
            Err(e) => Err(e),
        }
    }

    /// The address as four hexadecimal bytes.
    pub fn to_text(&self) -> (r: String)
        ensures
            r@ == hex::spaced_hex_of(self@),
    {
        spaced_hex(self.0.as_slice())
    }

    /// Whether two addresses are the same.
    pub fn same(&self, other: &Address) -> (r: bool)
        ensures
            r == (self@ == other@),
    {
        same_bytes(self.0.as_slice(), other.0.as_slice())
    }
}

// ---------------------------------------------------------------------------
// Messages
// ---------------------------------------------------------------------------

/// A decoded frame.
#[derive(Clone, PartialEq, Eq, Debug)]
pub enum Incoming {
    Dt1 { device_id: u8, addr: Address, data: Vec<u8> },
    Rq1 { device_id: u8, addr: Address, size: u32 },
    IdentityReply(IdentityReply),
    Foreign,
}

/// What a device answers to an identity request.
#[derive(Clone, PartialEq, Eq, Debug)]
pub struct IdentityReply {
    pub device_id: u8,
    pub manufacturer: u8,
    pub family: [u8; 2],
    pub member: [u8; 2],
    pub revision: [u8; 4],
}

/// Why a frame was not decoded.
#[derive(Clone, PartialEq, Eq, Debug)]
pub enum DecodeError {
    NotAFrame,
    Truncated,
    NonDataByte(u8),
    Checksum { found: u8, computed: u8 },
    UnknownCommand(u8),
}

/// The contents of an identity reply.
pub struct IdentityView {
    pub device_id: u8,
    pub manufacturer: u8,
    pub family: Seq<u8>,
    pub member: Seq<u8>,
    pub revision: Seq<u8>,
}

/// The contents of a decoded frame.
pub enum IncomingView {
    Dt1 { device_id: u8, addr: Seq<u8>, data: Seq<u8> },
    Rq1 { device_id: u8, addr: Seq<u8>, size: u32 },
    IdentityReply(IdentityView),
    Foreign,
}

impl View for IdentityReply {
    type V = IdentityView;

    open spec fn view(&self) -> IdentityView {
        IdentityView {
            device_id: self.device_id,
            manufacturer: self.manufacturer,
            family: self.family@,
            member: self.member@,
            revision: self.revision@,
        }
    }
}

impl View for Incoming {
    type V = IncomingView;

    open spec fn view(&self) -> IncomingView {
        match *self {
            Incoming::Dt1 { device_id, addr, data } => IncomingView::Dt1 {
                device_id,
                addr: addr@,
                data: data@,
            },
            Incoming::Rq1 { device_id, addr, size } => IncomingView::Rq1 {
                device_id,
                addr: addr@,
                size,
            },
            Incoming::IdentityReply(reply) => IncomingView::IdentityReply(reply@),
            Incoming::Foreign => IncomingView::Foreign,
        }
    }
}

/// The contents of a decoding result.
pub open spec fn decoded(r: Result<Incoming, DecodeError>) -> Result<IncomingView, DecodeError> {
    match r {
        Ok(m) => Ok(m@),
        Err(e) => Err(e),
    }
}

impl DecodeError {
    /// What went wrong, in words.
    pub open spec fn words(self) -> Seq<char> {
        match self {
            DecodeError::NotAFrame => "not an F0..F7 frame"@,
            DecodeError::Truncated => "frame ends mid-field"@,
            DecodeError::NonDataByte(b) => "byte "@ + text::prefixed_hex(b)
                + " inside the frame is not 7-bit"@,
            DecodeError::Checksum { found, computed } => "checksum "@ + text::prefixed_hex(found)
                + ", computed "@ + text::prefixed_hex(computed),
            DecodeError::UnknownCommand(c) => "unknown Roland command "@ + text::prefixed_hex(c),
        }
    }

    /// What went wrong, in words.
    pub fn to_text(&self) -> (r: String)
        ensures
            r@ == self.words(),
    {
        match self {
            DecodeError::NotAFrame => "not an F0..F7 frame".to_owned(),
            DecodeError::Truncated => "frame ends mid-field".to_owned(),
            DecodeError::NonDataByte(b) => "byte ".to_owned().concat(
                prefixed_hex_text(*b).as_str(),
            ).concat(" inside the frame is not 7-bit"),
            DecodeError::Checksum { found, computed } => "checksum ".to_owned().concat(
                prefixed_hex_text(*found).as_str(),
            ).concat(", computed ").concat(prefixed_hex_text(*computed).as_str()),
            DecodeError::UnknownCommand(c) => "unknown Roland command ".to_owned().concat(
                prefixed_hex_text(*c).as_str(),
            ),
        }
    }
}

// ---------------------------------------------------------------------------
// The codec
// ---------------------------------------------------------------------------

/// Builds and reads the frames of one device model.
#[derive(Clone, Debug)]
pub struct Codec {
    model_id: Vec<u8>,
    device_id: u8,
}

/// A Roland frame: header, model, command, the checked bytes and their checksum.
pub open spec fn roland_frame(
    model: Seq<u8>,
    device_id: u8,
    command: u8,
    checked: Seq<u8>,
) -> Seq<u8> {
    seq![F0, ROLAND, device_id] + model + seq![command] + checked + seq![checksum_of(checked), F7]
}

/// The frame that writes `data` at `addr`.
pub open spec fn dt1_frame(model: Seq<u8>, device_id: u8, addr: Seq<u8>, data: Seq<u8>) -> Seq<u8> {
    roland_frame(model, device_id, DT1, addr + data)
}

/// The frame that asks for `size` bytes at `addr`.
pub open spec fn rq1_frame(model: Seq<u8>, device_id: u8, addr: Seq<u8>, size: u32) -> Seq<u8> {
    roland_frame(model, device_id, RQ1, addr + split7_of(size))
}

/// What the body of a Roland frame says to a device of the given model.
///
/// The model ID is compared as far as both go: a frame that disagrees with it
/// belongs to another device, while one that agrees but stops short is ours and
/// torn.
pub open spec fn roland_body(model: Seq<u8>, body: Seq<u8>) -> Result<IncomingView, DecodeError> {
    if body.len() < 2 {
        Err(DecodeError::Truncated)
    } else {
        let rest = body.skip(2);
        let shared = if rest.len() < model.len() {
            rest.len()
        } else {
            model.len()
        };
        if rest.take(shared as int) != model.take(shared as int) {
            Ok(IncomingView::Foreign)
        } else if rest.len() < model.len() + 3 + ADDRESS_LEN {
            Err(DecodeError::Truncated)
        } else {
            let tail = rest.skip(model.len() as int);
            let checked = tail.subrange(1, tail.len() - 1);
            let addr = checked.take(4);
            let payload = checked.skip(4);
            if tail.last() != checksum_of(checked) {
                Err(DecodeError::Checksum { found: tail.last(), computed: checksum_of(checked) })
            } else if tail[0] == DT1 {
                Ok(IncomingView::Dt1 { device_id: body[1], addr, data: payload })
            } else if tail[0] == RQ1 {
                if payload.len() == 4 {
                    Ok(IncomingView::Rq1 { device_id: body[1], addr, size: join7_of(payload) })
                } else {
                    Err(DecodeError::Truncated)
                }
            } else {
                Err(DecodeError::UnknownCommand(tail[0]))
            }
        }
    }
}

/// Whether a universal body could be the beginning of this maker's identity reply.
pub open spec fn torn_identity(body: Seq<u8>) -> bool {
    &&& body.len() < 13
    &&& body.len() > 0 && body[0] == UNIVERSAL_NON_REALTIME
    &&& body.len() > 2 ==> body[2] == GENERAL_INFORMATION
    &&& body.len() > 3 ==> body[3] == IDENTITY_REPLY
    &&& body.len() > 4 ==> body[4] == ROLAND
}

/// What the body of a universal frame says.
pub open spec fn universal_body(body: Seq<u8>) -> Result<IncomingView, DecodeError> {
    if body.len() == 13 && body[2] == GENERAL_INFORMATION && body[3] == IDENTITY_REPLY {
        Ok(
            IncomingView::IdentityReply(
                IdentityView {
                    device_id: body[1],
                    manufacturer: body[4],
                    family: body.subrange(5, 7),
                    member: body.subrange(7, 9),
                    revision: body.subrange(9, 13),
                },
            ),
        )
    } else if torn_identity(body) {
        Err(DecodeError::Truncated)
    } else {
        Ok(IncomingView::Foreign)
    }
}

/// What a frame says to a device of the given model, or why it cannot be read.
pub open spec fn decoded_frame(model: Seq<u8>, frame: Seq<u8>) -> Result<
    IncomingView,
    DecodeError,
> {
    if frame.len() < 2 || frame[0] != F0 || frame.last() != F7 {
        Err(DecodeError::NotAFrame)
    } else {
        let body = frame.subrange(1, frame.len() - 1);
        match first_wide(body) {
            Some(b) => Err(DecodeError::NonDataByte(b)),
            None => if body.len() == 0 {
                Err(DecodeError::Truncated)
            } else if body[0] == ROLAND {
                roland_body(model, body)
            } else if body[0] == UNIVERSAL_NON_REALTIME {
                universal_body(body)
            } else {
                Ok(IncomingView::Foreign)
            },
        }
    }
}

impl Codec {
    /// The model ID that the frames carry.
    pub closed spec fn model(&self) -> Seq<u8> {
        self.model_id@
    }

    /// The device ID that the frames carry.
    pub closed spec fn device(&self) -> u8 {
        self.device_id
    }

    /// The codec for a model and a device.
    pub fn new(model_id: Vec<u8>, device_id: u8) -> (r: Self)
        ensures
            r.model() == model_id@,
            r.device() == device_id,
    {
        Codec { model_id, device_id }
    }

    /// The same codec for another device.
    pub fn with_device_id(self, device_id: u8) -> (r: Self)
        ensures
            r.model() == self.model(),
            r.device() == device_id,
    {
        Codec { model_id: self.model_id, device_id }
    }

    /// The device that the codec addresses.
    pub fn device_id(&self) -> (r: u8)
        ensures
            r == self.device(),
    {
        self.device_id
    }

    /// The frame that writes `data` at `addr`.
    pub fn dt1(&self, addr: Address, data: &[u8]) -> (r: Vec<u8>)
        ensures
            r@ == dt1_frame(self.model(), self.device(), addr@, data@),
    {
        let mut checked = slice_to_vec(addr.bytes().as_slice());
        extend(&mut checked, data);
        self.frame(DT1, checked)
    }

    /// The frame that asks for `size` bytes at `addr`.
    pub fn rq1(&self, addr: Address, size: u32) -> (r: Vec<u8>)
        ensures
            r@ == rq1_frame(self.model(), self.device(), addr@, size),
    {
        let mut checked = slice_to_vec(addr.bytes().as_slice());
        extend(&mut checked, split7(size).as_slice());
        self.frame(RQ1, checked)
    }

    fn frame(&self, command: u8, checked: Vec<u8>) -> (r: Vec<u8>)
        ensures
            r@ == roland_frame(self.model(), self.device(), command, checked@),
    {
        let mut out: Vec<u8> = Vec::new();
        out.push(F0);
        out.push(ROLAND);
        out.push(self.device_id);
        extend(&mut out, self.model_id.as_slice());
        out.push(command);
        extend(&mut out, checked.as_slice());
        out.push(checksum(checked.as_slice()));
        out.push(F7);
        assert(out@ =~= roland_frame(self.model(), self.device(), command, checked@));
        out
    }

    /// What `frame` says to a device of this model.
    pub fn decode(&self, frame: &[u8]) -> (r: Result<Incoming, DecodeError>)
        ensures
            decoded(r) == decoded_frame(self.model(), frame@),
    {
        if frame.len() < 2 || frame[0] != F0 || frame[frame.len() - 1] != F7 {
            return Err(DecodeError::NotAFrame);
        }
        let body = slice_subrange(frame, 1, frame.len() - 1);
        if let Some(b) = find_wide(body) {
            return Err(DecodeError::NonDataByte(b));
        }
        proof {
            lemma_first_wide(body@);
        }
        if body.len() == 0 {
            Err(DecodeError::Truncated)
        } else if body[0] == ROLAND {
            self.decode_roland(body)
        } else if body[0] == UNIVERSAL_NON_REALTIME {
            decode_universal(body)
        } else {
            Ok(Incoming::Foreign)
        }
    }

    fn decode_roland(&self, body: &[u8]) -> (r: Result<Incoming, DecodeError>)
        requires
            all_seven_bit(body@),
        ensures
            decoded(r) == roland_body(self.model(), body@),
    {
        if body.len() < 2 {
            return Err(DecodeError::Truncated);
        }
        let device_id = body[1];
        let rest = slice_subrange(body, 2, body.len());
        let model = self.model_id.as_slice();
        let shared: usize = if rest.len() < model.len() {
            rest.len()
        } else {
            model.len()
        };
        assert(rest@ =~= body@.skip(2));
        assert(rest@.subrange(0, shared as int) =~= rest@.take(shared as int));
        assert(model@.subrange(0, shared as int) =~= model@.take(shared as int));
        if !same_bytes(slice_subrange(rest, 0, shared), slice_subrange(model, 0, shared)) {
            return Ok(Incoming::Foreign);
        }
        if rest.len() < model.len() || rest.len() - model.len() < 3 + ADDRESS_LEN {
            return Err(DecodeError::Truncated);
        }
        let tail = slice_subrange(rest, model.len(), rest.len());
        assert(tail@ =~= rest@.skip(model@.len() as int));
        let command = tail[0];
        let found = tail[tail.len() - 1];
        let checked = slice_subrange(tail, 1, tail.len() - 1);
        let computed = checksum(checked);
        if found != computed {
            return Err(DecodeError::Checksum { found, computed });
        }
        let four = slice_subrange(checked, 0, 4);
        let payload = slice_subrange(checked, 4, checked.len());
        assert(four@ =~= checked@.take(4));
        assert(payload@ =~= checked@.skip(4));
        proof {
            assert forall|i: int| 0 <= i < four@.len() implies #[trigger] four@[i] <= 0x7F by {
                assert(four@[i] == body@[2 + model@.len() + 1 + i]);
            }
            lemma_first_wide(four@);
        }
        let addr = match Address::from_slice(four) {
            Ok(addr) => addr,
            Err(_) => {
                assert(false);
                return Err(DecodeError::Truncated);
            },
        };
        if command == DT1 {
            Ok(Incoming::Dt1 { device_id, addr, data: slice_to_vec(payload) })
        } else if command == RQ1 {
            if payload.len() == 4 {
                let size = [payload[0], payload[1], payload[2], payload[3]];
                assert(size@ =~= payload@);
                Ok(Incoming::Rq1 { device_id, addr, size: join7(size) })
            } else {
                Err(DecodeError::Truncated)
            }
        } else {
            Err(DecodeError::UnknownCommand(command))
        }
    }
}

fn decode_universal(body: &[u8]) -> (r: Result<Incoming, DecodeError>)
    requires
        body@.len() > 0,
    ensures
        decoded(r) == universal_body(body@),
{
    if body.len() == 13 && body[2] == GENERAL_INFORMATION && body[3] == IDENTITY_REPLY {
        let reply = IdentityReply {
            device_id: body[1],
            manufacturer: body[4],
            family: [body[5], body[6]],
            member: [body[7], body[8]],
            revision: [body[9], body[10], body[11], body[12]],
        };
        assert(reply.family@ =~= body@.subrange(5, 7));
        assert(reply.member@ =~= body@.subrange(7, 9));
        assert(reply.revision@ =~= body@.subrange(9, 13));
        Ok(Incoming::IdentityReply(reply))
    } else if universal_identity_prefix(body) {
        Err(DecodeError::Truncated)
    } else {
        Ok(Incoming::Foreign)
    }
}

fn universal_identity_prefix(body: &[u8]) -> (r: bool)
    ensures
        r == torn_identity(body@),
{
    body.len() < 13 && body.len() > 0 && body[0] == UNIVERSAL_NON_REALTIME && (body.len() <= 2
        || body[2] == GENERAL_INFORMATION) && (body.len() <= 3 || body[3] == IDENTITY_REPLY) && (
    body.len() <= 4 || body[4] == ROLAND)
}

// ---------------------------------------------------------------------------
// Requests
// ---------------------------------------------------------------------------

/// A frame to send.
#[derive(Clone, Debug)]
pub struct Request(Vec<u8>);

impl View for Request {
    type V = Seq<u8>;

    closed spec fn view(&self) -> Seq<u8> {
        self.0@
    }
}

/// The universal broadcast that asks every device who it is.
pub open spec fn identity_request() -> Seq<u8> {
    seq![
        F0,
        UNIVERSAL_NON_REALTIME,
        ALL_DEVICES,
        GENERAL_INFORMATION,
        IDENTITY_REQUEST,
        F7,
    ]
}

impl Request {
    /// The universal identity request.
    pub fn identity() -> (r: Self)
        ensures
            r@ == identity_request(),
    {
        let mut out: Vec<u8> = Vec::new();
        out.push(F0);
        out.push(UNIVERSAL_NON_REALTIME);
        out.push(ALL_DEVICES);
        out.push(GENERAL_INFORMATION);
        out.push(IDENTITY_REQUEST);
        out.push(F7);
        assert(out@ =~= identity_request());
        Request(out)
    }

    /// The request for `size` bytes at `addr`.
    pub fn read(codec: &Codec, addr: Address, size: u32) -> (r: Self)
        ensures
            r@ == rq1_frame(codec.model(), codec.device(), addr@, size),
    {
        Request(codec.rq1(addr, size))
    }

    /// A frame that is ready to be sent.
    pub fn write(frame: &[u8]) -> (r: Self)
        ensures
            r@ == frame@,
    {
        Request(slice_to_vec(frame))
    }

    /// The bytes to send.
    pub fn bytes(&self) -> (r: &[u8])
        ensures
            r@ == self@,
    {
        self.0.as_slice()
    }
}

// ---------------------------------------------------------------------------
// Reassembly
// ---------------------------------------------------------------------------

/// Puts frames together from the chunks in which they arrive.
pub struct Reassembler {
    open: Option<Vec<u8>>,
    discarding: bool,
    abandoned: usize,
}

/// What a reassembler remembers: the frame that is open, whether the rest of an
/// abandoned frame is being skipped, and how many frames were abandoned.
pub struct Assembly {
    pub open: Option<Seq<u8>>,
    pub discarding: bool,
    pub abandoned: nat,
}

impl View for Reassembler {
    type V = Assembly;

    closed spec fn view(&self) -> Assembly {
        Assembly {
            open: match self.open {
                Some(frame) => Some(frame@),
                None => None,
            },
            discarding: self.discarding,
            abandoned: self.abandoned as nat,
        }
    }
}

impl Assembly {
    /// What one byte changes.
    pub open spec fn after(self, b: u8) -> Assembly {
        if b == F0 {
            Assembly {
                open: Some(seq![F0]),
                discarding: false,
                abandoned: self.abandoned + if self.open is Some {
                    1nat
                } else {
                    0
                },
            }
        } else if b == F7 {
            if self.discarding {
                Assembly { discarding: false, ..self }
            } else {
                Assembly {
                    open: None,
                    discarding: false,
                    abandoned: self.abandoned + if self.open is Some {
                        0nat
                    } else {
                        1
                    },
                }
            }
        } else if self.discarding {
            self
        } else {
            match self.open {
                None => self,
                Some(frame) => if frame.len() + 1 > MAX_FRAME {
                    Assembly { open: None, discarding: true, abandoned: self.abandoned + 1 }
                } else {
                    Assembly { open: Some(frame.push(b)), ..self }
                },
            }
        }
    }

    /// Whether the frames that are abandoned in a chunk can be counted.
    pub open spec fn can_take(self, chunk: Seq<u8>) -> bool {
        self.after_all(chunk).abandoned <= usize::MAX
    }

    /// The frame that one byte completes, if any.
    pub open spec fn completed(self, b: u8) -> Option<Seq<u8>> {
        if b == F7 && !self.discarding {
            match self.open {
                Some(frame) => Some(frame.push(F7)),
                None => None,
            }
        } else {
            None
        }
    }

    /// What a chunk changes.
    pub open spec fn after_all(self, chunk: Seq<u8>) -> Assembly
        decreases chunk.len(),
    {
        if chunk.len() == 0 {
            self
        } else {
            self.after_all(chunk.drop_last()).after(chunk.last())
        }
    }

    /// The frames that a chunk completes, in order.
    pub open spec fn frames(self, chunk: Seq<u8>) -> Seq<Seq<u8>>
        decreases chunk.len(),
    {
        if chunk.len() == 0 {
            Seq::empty()
        } else {
            let before = self.frames(chunk.drop_last());
            match self.after_all(chunk.drop_last()).completed(chunk.last()) {
                Some(frame) => before.push(frame),
                None => before,
            }
        }
    }

    /// What holds of every reassembler: a frame that is open starts with `F0`,
    /// holds neither another `F0` nor an `F7` after that and is no longer than
    /// the bound, and nothing is skipped while a frame is open.
    pub open spec fn valid(self) -> bool {
        self.open matches Some(frame) ==> {
            &&& !self.discarding
            &&& 0 < frame.len() <= MAX_FRAME
            &&& frame[0] == F0
            &&& forall|i: int|
                0 < i < frame.len() ==> #[trigger] frame[i] != F0 && frame[i] != F7
        }
    }
}

/// The contents of each frame of a list.
pub open spec fn frames_view(list: Seq<Vec<u8>>) -> Seq<Seq<u8>> {
    list.map_values(|f: Vec<u8>| f@)
}

/// A byte abandons at most one frame.
pub proof fn lemma_abandoned_bound(a: Assembly, chunk: Seq<u8>)
    ensures
        a.abandoned <= a.after_all(chunk).abandoned <= a.abandoned + chunk.len(),
    decreases chunk.len(),
{
    if chunk.len() > 0 {
        lemma_abandoned_bound(a, chunk.drop_last());
    }
}

impl Default for Reassembler {
    fn default() -> (r: Self)
        ensures
            r@ == (Assembly { open: None, discarding: false, abandoned: 0 }),
    {
        Reassembler { open: None, discarding: false, abandoned: 0 }
    }
}

impl Reassembler {
    #[verifier::type_invariant]
    spec fn consistent(self) -> bool {
        self@.valid()
    }

    /// Takes the next chunk and returns the frames that it completes.
    pub fn push(&mut self, chunk: &[u8]) -> (done: Vec<Vec<u8>>)
        requires
            old(self)@.abandoned + chunk@.len() <= usize::MAX || old(self)@.can_take(chunk@),
        ensures
            final(self)@ == old(self)@.after_all(chunk@),
            frames_view(done@) == old(self)@.frames(chunk@),
    {
        let mut done: Vec<Vec<u8>> = Vec::new();
        let mut i: usize = 0;
        let ghost start = self@;
        proof {
            lemma_abandoned_bound(start, chunk@);
        }
        while i < chunk.len()
            invariant
                i <= chunk.len(),
                start.can_take(chunk@),
                self@ == start.after_all(chunk@.take(i as int)),
                frames_view(done@) == start.frames(chunk@.take(i as int)),
            decreases chunk.len() - i,
        {
            let b = chunk[i];
            proof {
                assert(chunk@.take(i + 1).drop_last() =~= chunk@.take(i as int));
                assert(chunk@.take(i + 1) + chunk@.skip(i + 1) =~= chunk@);
                law_chunking_is_immaterial(start, chunk@.take(i + 1), chunk@.skip(i + 1));
            }
            if let Some(frame) = self.take_byte(b) {
                let ghost list = done@;
                done.push(frame);
                assert(frames_view(done@) =~= frames_view(list).push(frame@));
            }
            i = i + 1;
        }
        assert(chunk@.take(chunk@.len() as int) =~= chunk@);
        done
    }

    fn take_byte(&mut self, b: u8) -> (done: Option<Vec<u8>>)
        requires
            old(self)@.after(b).abandoned <= usize::MAX,
        ensures
            final(self)@ == old(self)@.after(b),
            match done {
                Some(frame) => old(self)@.completed(b) == Some(frame@),
                None => old(self)@.completed(b) is None,
            },
    {
        proof {
            use_type_invariant(&*self);
        }
        let mut open: Option<Vec<u8>> = None;
        let mut discarding = self.discarding;
        let mut abandoned = self.abandoned;
        let mut done: Option<Vec<u8>> = None;
        std::mem::swap(&mut open, &mut self.open);
        if b == F0 {
            if open.is_some() {
                abandoned = abandoned + 1;
            }
            let mut frame: Vec<u8> = Vec::new();
            frame.push(F0);
            assert(frame@ =~= seq![F0]);
            open = Some(frame);
            discarding = false;
        } else if b == F7 {
            if discarding {
                discarding = false;
            } else {
                match open {
                    Some(mut frame) => {
                        frame.push(F7);
                        done = Some(frame);
                    },
                    None => {
                        abandoned = abandoned + 1;
                    },
                }
                open = None;
            }
        } else if !discarding {
            if let Some(mut frame) = open {
                frame.push(b);
                if frame.len() > MAX_FRAME {
                    open = None;
                    discarding = true;
                    abandoned = abandoned + 1;
                } else {
                    open = Some(frame);
                }
            } else {
                open = None;
            }
        }
        self.abandoned = abandoned;
        self.discarding = discarding;
        self.open = open;
        done
    }

    /// Gives the open frame up: bytes of it are known to be lost.
    pub fn abandon_open(&mut self)
        requires
            old(self)@.abandoned < usize::MAX || old(self)@.open is None,
        ensures
            final(self)@ == (if old(self)@.open is Some {
                (Assembly {
                    open: None,
                    discarding: true,
                    abandoned: old(self)@.abandoned + 1,
                })
            } else {
                old(self)@
            }),
    {
        let mut open: Option<Vec<u8>> = None;
        std::mem::swap(&mut open, &mut self.open);
        if open.is_some() {
            self.discarding = true;
            self.abandoned = self.abandoned + 1;
        }
    }

    /// How many frames were abandoned so far.
    pub fn abandoned(&self) -> (r: usize)
        ensures
            r == self@.abandoned,
    {
        self.abandoned
    }
}

// ---------------------------------------------------------------------------
// Laws
// ---------------------------------------------------------------------------

/// The checksum is a data byte and completes the sum to a multiple of 128.
pub proof fn law_checksum_completes(bytes: Seq<u8>)
    ensures
        checksum_of(bytes) <= 0x7F,
        (byte_sum(bytes) + checksum_of(bytes)) % 128 == 0,
{
}

/// Four 7-bit bytes hold every size below 2^28, and every four 7-bit bytes are
/// the bytes of the size that they spell.
pub proof fn law_sizes_read_back(v: u32, bytes: Seq<u8>)
    ensures
        v < 0x1000_0000 ==> join7_of(split7_of(v)) == v,
        all_seven_bit(split7_of(v)) && split7_of(v).len() == 4,
        bytes.len() == 4 && all_seven_bit(bytes) ==> split7_of(join7_of(bytes)) == bytes,
{
    let s = split7_of(v);
    assert(s[0] <= 0x7F && s[1] <= 0x7F && s[2] <= 0x7F && s[3] <= 0x7F);
    lemma_size_digits(v);
    if bytes.len() == 4 && all_seven_bit(bytes) {
        assert(bytes[0] <= 0x7F && bytes[1] <= 0x7F && bytes[2] <= 0x7F && bytes[3] <= 0x7F);
        let n = join7_of(bytes);
        lemma_digits_size(
            bytes[0] as u32,
            bytes[1] as u32,
            bytes[2] as u32,
            bytes[3] as u32,
            n,
        );
        assert(split7_of(n) =~= bytes);
    }
}

proof fn lemma_size_digits(v: u32)
    by (bit_vector)
    ensures
        v < 0x1000_0000 ==> (v / 0x20_0000 % 128) * 0x20_0000 + (v / 0x4000 % 128) * 0x4000 + (v
            / 0x80 % 128) * 0x80 + (v % 128) == v,
{
}

proof fn lemma_digits_size(a: u32, b: u32, c: u32, d: u32, n: u32)
    by (bit_vector)
    requires
        a < 128,
        b < 128,
        c < 128,
        d < 128,
        n == a * 0x20_0000 + b * 0x4000 + c * 0x80 + d,
    ensures
        n / 0x20_0000 % 128 == a,
        n / 0x4000 % 128 == b,
        n / 0x80 % 128 == c,
        n % 128 == d,
{
}

/// An address reads back from its text.
pub proof fn law_address_reads_back(addr: Seq<u8>)
    requires
        is_address(addr),
    ensures
        parsed_address(hex::spaced_hex_of(addr)) == Ok::<Seq<u8>, Seq<char>>(addr),
{
    hex::law_spaced_hex_reads_back(addr);
    lemma_first_wide(addr);
}

proof fn lemma_roland_frame(model: Seq<u8>, device_id: u8, command: u8, checked: Seq<u8>)
    requires
        all_seven_bit(model),
        device_id <= 0x7F,
        command <= 0x7F,
        all_seven_bit(checked),
    ensures
        ({
            let frame = roland_frame(model, device_id, command, checked);
            let body = frame.subrange(1, frame.len() - 1);
            &&& decoded_frame(model, frame) == roland_body(model, body)
            &&& body.len() == model.len() + checked.len() + 4
            &&& all_seven_bit(body)
            &&& body[0] == ROLAND
            &&& body[1] == device_id
            &&& body.skip(2).take(model.len() as int) == model
            &&& body.skip(2).skip(model.len() as int)[0] == command
            &&& body.skip(2).skip(model.len() as int).last() == checksum_of(checked)
            &&& body.skip(2).skip(model.len() as int).subrange(
                1,
                body.skip(2).skip(model.len() as int).len() - 1,
            ) == checked
        }),
{
    let frame = roland_frame(model, device_id, command, checked);
    let body = frame.subrange(1, frame.len() - 1);
    let n = model.len();
    assert(frame.len() == 3 + n + 1 + checked.len() + 2);
    assert forall|i: int| 0 <= i < body.len() implies #[trigger] body[i] <= 0x7F by {
        if i == 0 {
            assert(body[i] == ROLAND);
        } else if i == 1 {
            assert(body[i] == device_id);
        } else if i < 2 + n {
            assert(body[i] == model[i - 2]);
        } else if i == 2 + n {
            assert(body[i] == command);
        } else if i < 3 + n + checked.len() {
            assert(body[i] == checked[i - 3 - n]);
        } else {
            assert(body[i] == checksum_of(checked));
        }
    }
    lemma_first_wide(body);
    let rest = body.skip(2);
    assert(rest.take(n as int) =~= model);
    let tail = rest.skip(n as int);
    assert(tail.subrange(1, tail.len() - 1) =~= checked);
}

/// What a write frame carries, a device of the same model reads: the device ID,
/// the address and the data, for every data of at least one byte.
pub proof fn law_write_reads_back(model: Seq<u8>, device_id: u8, addr: Seq<u8>, data: Seq<u8>)
    requires
        all_seven_bit(model),
        device_id <= 0x7F,
        is_address(addr),
        all_seven_bit(data),
        data.len() > 0,
    ensures
        decoded_frame(model, dt1_frame(model, device_id, addr, data)) == Ok::<
            IncomingView,
            DecodeError,
        >(IncomingView::Dt1 { device_id, addr, data }),
{
    let checked = addr + data;
    assert forall|i: int| 0 <= i < checked.len() implies #[trigger] checked[i] <= 0x7F by {
        if i < 4 {
            assert(checked[i] == addr[i]);
        } else {
            assert(checked[i] == data[i - 4]);
        }
    }
    lemma_roland_frame(model, device_id, DT1, checked);
    assert(checked.take(4) =~= addr);
    assert(checked.skip(4) =~= data);
    assert(model.take(model.len() as int) =~= model);
}

/// What a read request carries, a device of the same model reads: the device
/// ID, the address and the size, for every size below 2^28.
pub proof fn law_request_reads_back(model: Seq<u8>, device_id: u8, addr: Seq<u8>, size: u32)
    requires
        all_seven_bit(model),
        device_id <= 0x7F,
        is_address(addr),
        size < 0x1000_0000,
    ensures
        decoded_frame(model, rq1_frame(model, device_id, addr, size)) == Ok::<
            IncomingView,
            DecodeError,
        >(IncomingView::Rq1 { device_id, addr, size }),
{
    let tail = split7_of(size);
    let checked = addr + tail;
    law_sizes_read_back(size, tail);
    assert forall|i: int| 0 <= i < checked.len() implies #[trigger] checked[i] <= 0x7F by {
        if i < 4 {
            assert(checked[i] == addr[i]);
        } else {
            assert(checked[i] == tail[i - 4]);
        }
    }
    lemma_roland_frame(model, device_id, RQ1, checked);
    assert(checked.take(4) =~= addr);
    assert(checked.skip(4) =~= tail);
    assert(model.take(model.len() as int) =~= model);
}

/// A frame of this device that was cut short is never taken for another
/// device's: whatever is left of its body, the answer is not `Foreign`.
pub proof fn law_torn_frame_is_not_foreign(
    model: Seq<u8>,
    device_id: u8,
    command: u8,
    checked: Seq<u8>,
    kept: int,
)
    requires
        1 <= kept <= roland_frame(model, device_id, command, checked).len() - 2,
    ensures
        decoded_frame(
            model,
            roland_frame(model, device_id, command, checked).take(1 + kept).push(F7),
        ) != Ok::<IncomingView, DecodeError>(IncomingView::Foreign),
{
    let frame = roland_frame(model, device_id, command, checked);
    let torn = frame.take(1 + kept).push(F7);
    let body = torn.subrange(1, torn.len() - 1);
    assert(body =~= frame.subrange(1, 1 + kept));
    assert(body[0] == ROLAND);
    if kept >= 2 {
        let rest = body.skip(2);
        let shared = if rest.len() < model.len() {
            rest.len()
        } else {
            model.len()
        };
        assert(rest.take(shared as int) =~= model.take(shared as int));
    }
}

/// An identity reply of this maker that was cut short is reported as torn, not
/// as another device's.
pub proof fn law_torn_identity_is_truncated(model: Seq<u8>, body: Seq<u8>, kept: int)
    requires
        body.len() == 13,
        all_seven_bit(body),
        body[0] == UNIVERSAL_NON_REALTIME,
        body[2] == GENERAL_INFORMATION,
        body[3] == IDENTITY_REPLY,
        body[4] == ROLAND,
        1 <= kept < 13,
    ensures
        decoded_frame(model, seq![F0] + body.take(kept) + seq![F7]) == Err::<
            IncomingView,
            DecodeError,
        >(DecodeError::Truncated),
{
    let frame = seq![F0] + body.take(kept) + seq![F7];
    let left = frame.subrange(1, frame.len() - 1);
    assert(left =~= body.take(kept));
    assert forall|i: int| 0 <= i < left.len() implies #[trigger] left[i] <= 0x7F by {
        assert(left[i] == body[i]);
    }
    lemma_first_wide(left);
}

/// How the stream is cut into chunks makes no difference: two chunks give the
/// frames of one chunk that holds both, and leave the same state, and they can be
/// taken exactly where the one can.
pub proof fn law_chunking_is_immaterial(a: Assembly, first: Seq<u8>, second: Seq<u8>)
    ensures
        a.after_all(first + second) == a.after_all(first).after_all(second),
        a.frames(first + second) == a.frames(first) + a.after_all(first).frames(second),
        a.can_take(first + second) <==> a.can_take(first) && a.after_all(first).can_take(second),
    decreases second.len(),
{
    lemma_abandoned_bound(a.after_all(first), second);
    if second.len() == 0 {
        assert(first + second =~= first);
        assert(a.frames(first) + Seq::<Seq<u8>>::empty() =~= a.frames(first));
    } else {
        let whole = first + second;
        assert(whole.drop_last() =~= first + second.drop_last());
        law_chunking_is_immaterial(a, first, second.drop_last());
        let mid = a.after_all(first);
        match mid.after_all(second.drop_last()).completed(second.last()) {
            Some(frame) => {
                assert(a.frames(first) + mid.frames(second.drop_last()).push(frame) =~= (a.frames(
                    first,
                ) + mid.frames(second.drop_last())).push(frame));
            },
            None => {},
        }
    }
}

/// What holds of every reassembler stays so, whatever arrives.
pub proof fn law_assembly_stays_valid(a: Assembly, chunk: Seq<u8>)
    requires
        a.valid(),
    ensures
        a.after_all(chunk).valid(),
    decreases chunk.len(),
{
    if chunk.len() > 0 {
        law_assembly_stays_valid(a, chunk.drop_last());
    }
}

/// Whether `frame` is one whole frame: an `F0`, an `F7` at the end, neither in
/// between, and no longer than the bound and its terminator.
pub open spec fn is_whole_frame(frame: Seq<u8>) -> bool {
    &&& 2 <= frame.len() <= MAX_FRAME + 1
    &&& frame[0] == F0
    &&& frame.last() == F7
    &&& forall|i: int|
        0 < i < frame.len() - 1 ==> #[trigger] frame[i] != F0 && frame[i] != F7
}

/// Everything that is handed out is one whole frame.
pub proof fn law_only_whole_frames_come_out(a: Assembly, chunk: Seq<u8>)
    requires
        a.valid(),
    ensures
        forall|k: int| 0 <= k < a.frames(chunk).len() ==> is_whole_frame(
            #[trigger] a.frames(chunk)[k],
        ),
    decreases chunk.len(),
{
    if chunk.len() > 0 {
        let before = chunk.drop_last();
        law_only_whole_frames_come_out(a, before);
        law_assembly_stays_valid(a, before);
        match a.after_all(before).completed(chunk.last()) {
            Some(frame) => {
                let open = a.after_all(before).open->0;
                assert(frame == open.push(F7));
                assert forall|i: int| 0 < i < frame.len() - 1 implies #[trigger] frame[i] != F0
                    && frame[i] != F7 by {
                    assert(frame[i] == open[i]);
                }
                assert(is_whole_frame(frame));
                assert forall|k: int| 0 <= k < a.frames(chunk).len() implies is_whole_frame(
                    #[trigger] a.frames(chunk)[k],
                ) by {
                    if k < a.frames(before).len() {
                        assert(a.frames(chunk)[k] == a.frames(before)[k]);
                    }
                }
            },
            None => {},
        }
    }
}

proof fn lemma_open_frame_grows(a: Assembly, frame: Seq<u8>, n: int)
    requires
        is_whole_frame(frame),
        1 <= n < frame.len(),
    ensures
        a.after_all(frame.take(n)) == (Assembly {
            open: Some(frame.take(n)),
            discarding: false,
            abandoned: a.abandoned + if a.open is Some {
                1nat
            } else {
                0
            },
        }),
        a.frames(frame.take(n)) == Seq::<Seq<u8>>::empty(),
    decreases n,
{
    let part = frame.take(n);
    assert(part.drop_last() =~= frame.take(n - 1));
    assert(part.last() == frame[n - 1]);
    if n == 1 {
        assert(frame.take(0) =~= Seq::empty());
        assert(part =~= seq![F0]);
        assert(a.frames(part.drop_last()) =~= Seq::empty());
    } else {
        lemma_open_frame_grows(a, frame, n - 1);
        assert(frame.take(n - 1).push(frame[n - 1]) =~= part);
    }
}

/// A whole frame comes out whole, whatever was torn before it: the torn frame
/// is counted once, and nothing is left open.
pub proof fn law_whole_frame_survives(a: Assembly, frame: Seq<u8>)
    requires
        is_whole_frame(frame),
    ensures
        a.frames(frame) == seq![frame],
        a.after_all(frame) == (Assembly {
            open: None,
            discarding: false,
            abandoned: a.abandoned + if a.open is Some {
                1nat
            } else {
                0
            },
        }),
{
    let n = frame.len() - 1;
    lemma_open_frame_grows(a, frame, n);
    assert(frame.drop_last() =~= frame.take(n));
    assert(frame.take(n).push(F7) =~= frame);
    assert(Seq::<Seq<u8>>::empty().push(frame) =~= seq![frame]);
}

/// The tail of an abandoned frame is skipped and not counted again.
pub proof fn law_abandoned_tail_is_not_counted(a: Assembly, tail: Seq<u8>)
    requires
        a.discarding,
        a.open is None,
        forall|i: int| 0 <= i < tail.len() ==> #[trigger] tail[i] != F0 && tail[i] != F7,
    ensures
        a.frames(tail.push(F7)) == Seq::<Seq<u8>>::empty(),
        a.after_all(tail.push(F7)) == (Assembly {
            open: None,
            discarding: false,
            abandoned: a.abandoned,
        }),
{
    lemma_skipping(a, tail);
    assert(tail.push(F7).drop_last() =~= tail);
}

proof fn lemma_skipping(a: Assembly, tail: Seq<u8>)
    requires
        a.discarding,
        a.open is None,
        forall|i: int| 0 <= i < tail.len() ==> #[trigger] tail[i] != F0 && tail[i] != F7,
    ensures
        a.frames(tail) == Seq::<Seq<u8>>::empty(),
        a.after_all(tail) == a,
    decreases tail.len(),
{
    if tail.len() > 0 {
        let before = tail.drop_last();
        assert forall|i: int| 0 <= i < before.len() implies #[trigger] before[i] != F0 && before[i]
            != F7 by {
            assert(before[i] == tail[i]);
        }
        lemma_skipping(a, before);
        assert(tail.last() == tail[tail.len() - 1]);
    }
}

/// How often `b` occurs.
pub open spec fn count(bytes: Seq<u8>, b: u8) -> nat
    decreases bytes.len(),
{
    if bytes.len() == 0 {
        0
    } else {
        count(bytes.drop_last(), b) + if bytes.last() == b {
            1nat
        } else {
            0
        }
    }
}

/// No frame is lost without a trace: every start is handed out, counted as
/// abandoned or still open, and beyond the starts only terminators are counted.
pub proof fn law_every_start_is_accounted_for(a: Assembly, chunk: Seq<u8>)
    requires
        a.valid(),
    ensures
        ({
            let z = a.after_all(chunk);
            let opened = a.abandoned + (if a.open is Some { 1nat } else { 0 }) + count(chunk, F0);
            let told = z.abandoned + (if z.open is Some { 1nat } else { 0 }) + a.frames(chunk).len();
            opened <= told <= opened + count(chunk, F7)
        }),
    decreases chunk.len(),
{
    if chunk.len() > 0 {
        law_every_start_is_accounted_for(a, chunk.drop_last());
        law_assembly_stays_valid(a, chunk.drop_last());
    }
}

/// A sum counts every byte once, for what it is.
pub proof fn law_sum_counts_every_byte(a: Seq<u8>, b: u8)
    ensures
        byte_sum(Seq::empty()) == 0,
        byte_sum(a.push(b)) == byte_sum(a) + b,
{
    assert(a.push(b).drop_last() =~= a);
}

/// The checksum is the one data byte that completes the sum to a multiple of 128.
pub proof fn law_checksum_is_the_only_one(bytes: Seq<u8>, c: u8)
    ensures
        checksum_of(bytes) == c <==> c < 128 && (byte_sum(bytes) + c) % 128 == 0,
{
}

/// A size is spelled in four digits of seven bits, the highest first.
pub proof fn law_size_is_spelled_by_sevens(v: u32)
    ensures
        ({
            let s = split7_of(v);
            &&& s.len() == 4
            &&& s[0] < 128 && s[1] < 128 && s[2] < 128 && s[3] < 128
            &&& v < 0x1000_0000 ==> 2_097_152 * s[0] + 16_384 * s[1] + 128 * s[2] + s[3] == v
        }),
{
    lemma_size_digits(v);
}

/// Four data bytes spell the size of which they are the digits.
pub proof fn law_bytes_spell_the_size(bytes: Seq<u8>)
    requires
        bytes.len() == 4,
        all_seven_bit(bytes),
    ensures
        join7_of(bytes) == 2_097_152 * bytes[0] + 16_384 * bytes[1] + 128 * bytes[2] + bytes[3],
{
    assert(bytes[0] <= 0x7F && bytes[1] <= 0x7F && bytes[2] <= 0x7F && bytes[3] <= 0x7F);
}

/// The first byte that is no data byte is the one that is told.
pub proof fn law_first_wide_is_the_first(bytes: Seq<u8>, at: int)
    requires
        0 <= at < bytes.len(),
        bytes[at] >= 128,
        forall|i: int| 0 <= i < at ==> #[trigger] bytes[i] < 128,
    ensures
        first_wide(bytes) == Some(bytes[at]),
    decreases bytes.len(),
{
    if at > 0 {
        let rest = bytes.drop_first();
        assert(bytes[0] < 128);
        assert forall|i: int| 0 <= i < at - 1 implies #[trigger] rest[i] < 128 by {
            assert(rest[i] == bytes[i + 1]);
        }
        law_first_wide_is_the_first(rest, at - 1);
    }
}

/// An address is four data bytes, and any four are one.
pub proof fn law_address_is_four_data_bytes(bytes: Seq<u8>, addr: Seq<u8>)
    ensures
        address_of(bytes) == Ok::<Seq<u8>, Seq<char>>(addr) <==> addr == bytes && bytes.len() == 4
            && forall|i: int| 0 <= i < 4 ==> #[trigger] bytes[i] < 128,
        bytes.len() != 4 ==> address_of(bytes) == Err::<Seq<u8>, Seq<char>>(
            "an address is 4 bytes, got "@ + text::dec(bytes.len()),
        ),
{
    lemma_first_wide(bytes);
}

/// Text is an address exactly where it is a field of hex that spells four data bytes.
pub proof fn law_address_text_spells_its_bytes(s: Seq<char>, addr: Seq<u8>)
    ensures
        parsed_address(s) == Ok::<Seq<u8>, Seq<char>>(addr) <==> hex::parsed_hex_field(s) == Ok::<
            Seq<u8>,
            Seq<char>,
        >(addr) && addr.len() == 4 && forall|i: int| 0 <= i < 4 ==> #[trigger] addr[i] < 128,
{
    if let Ok(bytes) = hex::parsed_hex_field(s) {
        law_address_is_four_data_bytes(bytes, addr);
    }
}

/// Where everything is in a write: the start, the maker, the device, its model, the
/// command, the address, the data, the checksum of the two, the end.
pub proof fn law_write_is_laid_out(model: Seq<u8>, device_id: u8, addr: Seq<u8>, data: Seq<u8>)
    requires
        addr.len() == 4,
    ensures
        ({
            let frame = dt1_frame(model, device_id, addr, data);
            let n = model.len() as int;
            &&& frame.len() == n + data.len() + 10
            &&& frame[0] == 0xF0 && frame[1] == 0x41 && frame[2] == device_id
            &&& frame.subrange(3, 3 + n) == model
            &&& frame[3 + n] == 0x12
            &&& frame.subrange(4 + n, 8 + n) == addr
            &&& frame.subrange(8 + n, frame.len() - 2) == data
            &&& frame[frame.len() - 2] < 128
            &&& (byte_sum(frame.subrange(4 + n, frame.len() - 2)) + frame[frame.len() - 2]) % 128 == 0
            &&& frame[frame.len() - 1] == 0xF7
        }),
{
    let frame = dt1_frame(model, device_id, addr, data);
    let n = model.len() as int;
    assert(frame.subrange(3, 3 + n) =~= model);
    assert(frame.subrange(4 + n, 8 + n) =~= addr);
    assert(frame.subrange(8 + n, frame.len() - 2) =~= data);
    assert(frame.subrange(4 + n, frame.len() - 2) =~= addr + data);
    law_checksum_completes(addr + data);
}

/// Where everything is in a read request: as in a write, with the size in four bytes for
/// the data.
pub proof fn law_request_is_laid_out(model: Seq<u8>, device_id: u8, addr: Seq<u8>, size: u32)
    requires
        addr.len() == 4,
        size < 0x1000_0000,
    ensures
        ({
            let frame = rq1_frame(model, device_id, addr, size);
            let n = model.len() as int;
            &&& frame.len() == n + 14
            &&& frame[0] == 0xF0 && frame[1] == 0x41 && frame[2] == device_id
            &&& frame.subrange(3, 3 + n) == model
            &&& frame[3 + n] == 0x11
            &&& frame.subrange(4 + n, 8 + n) == addr
            &&& 2_097_152 * frame[8 + n] + 16_384 * frame[9 + n] + 128 * frame[10 + n] + frame[11
                + n] == size
            &&& frame[12 + n] < 128
            &&& (byte_sum(frame.subrange(4 + n, 12 + n)) + frame[12 + n]) % 128 == 0
            &&& frame[13 + n] == 0xF7
        }),
{
    let frame = rq1_frame(model, device_id, addr, size);
    let n = model.len() as int;
    let tail = split7_of(size);
    assert(frame.subrange(3, 3 + n) =~= model);
    assert(frame.subrange(4 + n, 8 + n) =~= addr);
    assert(frame.subrange(4 + n, 12 + n) =~= addr + tail);
    assert(frame[8 + n] == tail[0] && frame[9 + n] == tail[1] && frame[10 + n] == tail[2]
        && frame[11 + n] == tail[3]);
    law_size_is_spelled_by_sevens(size);
    law_checksum_completes(addr + tail);
}

/// The identity request goes to all devices, in six bytes.
pub proof fn law_identity_request_is_laid_out()
    ensures
        identity_request() == seq![0xF0u8, 0x7Eu8, 0x7Fu8, 0x06u8, 0x01u8, 0xF7u8],
{
}

proof fn lemma_frame_of_ours(
    model: Seq<u8>,
    device_id: u8,
    command: u8,
    checked: Seq<u8>,
    sum: u8,
)
    requires
        all_seven_bit(model),
        device_id < 128,
        command < 128,
        all_seven_bit(checked),
        sum < 128,
    ensures
        ({
            let frame = seq![0xF0u8, 0x41u8, device_id] + model + seq![command] + checked + seq![
                sum,
                0xF7u8,
            ];
            let body = frame.subrange(1, frame.len() - 1);
            &&& decoded_frame(model, frame) == roland_body(model, body)
            &&& body.len() == model.len() + checked.len() + 4
            &&& body[1] == device_id
            &&& body.skip(2).take(model.len() as int) == model
            &&& body.skip(2).skip(model.len() as int)[0] == command
            &&& body.skip(2).skip(model.len() as int).last() == sum
            &&& body.skip(2).skip(model.len() as int).len() == checked.len() + 2
            &&& body.skip(2).skip(model.len() as int).subrange(
                1,
                body.skip(2).skip(model.len() as int).len() - 1,
            ) == checked
        }),
{
    let frame = seq![0xF0u8, 0x41u8, device_id] + model + seq![command] + checked + seq![
        sum,
        0xF7u8,
    ];
    let body = frame.subrange(1, frame.len() - 1);
    let n = model.len();
    assert(frame.len() == 3 + n + 1 + checked.len() + 2);
    assert forall|i: int| 0 <= i < body.len() implies #[trigger] body[i] <= 0x7F by {
        if i == 0 {
            assert(body[i] == ROLAND);
        } else if i == 1 {
            assert(body[i] == device_id);
        } else if i < 2 + n {
            assert(body[i] == model[i - 2]);
        } else if i == 2 + n {
            assert(body[i] == command);
        } else if i < 3 + n + checked.len() {
            assert(body[i] == checked[i - 3 - n]);
        } else {
            assert(body[i] == sum);
        }
    }
    lemma_first_wide(body);
    let rest = body.skip(2);
    assert(rest.take(n as int) =~= model);
    let tail = rest.skip(n as int);
    assert(tail.subrange(1, tail.len() - 1) =~= checked);
}

/// What a frame for the model comes to, whatever it carries: one with fewer than five
/// checked bytes is torn; then the checksum has to complete the sum; then the command is
/// a write, a read request of four bytes, or unknown.
pub proof fn law_what_a_frame_of_the_model_says(
    model: Seq<u8>,
    device_id: u8,
    command: u8,
    checked: Seq<u8>,
    sum: u8,
)
    requires
        all_seven_bit(model),
        device_id < 128,
        command < 128,
        all_seven_bit(checked),
        sum < 128,
    ensures
        ({
            let said = decoded_frame(
                model,
                seq![0xF0u8, 0x41u8, device_id] + model + seq![command] + checked + seq![sum, 0xF7u8],
            );
            if checked.len() < 5 {
                said == Err::<IncomingView, DecodeError>(DecodeError::Truncated)
            } else if (byte_sum(checked) + sum) % 128 != 0 {
                said matches Err(DecodeError::Checksum { found, computed }) && found == sum && computed
                    < 128 && (byte_sum(checked) + computed) % 128 == 0
            } else if command == 0x12 {
                said == Ok::<IncomingView, DecodeError>(
                    IncomingView::Dt1 { device_id, addr: checked.take(4), data: checked.skip(4) },
                )
            } else if command == 0x11 && checked.len() == 8 {
                said matches Ok(IncomingView::Rq1 { device_id: d, addr, size }) && d == device_id
                    && addr == checked.take(4) && size == 2_097_152 * checked[4] + 16_384 * checked[5]
                    + 128 * checked[6] + checked[7]
            } else if command == 0x11 {
                said == Err::<IncomingView, DecodeError>(DecodeError::Truncated)
            } else {
                said == Err::<IncomingView, DecodeError>(DecodeError::UnknownCommand(command))
            }
        }),
{
    lemma_frame_of_ours(model, device_id, command, checked, sum);
    let frame = seq![0xF0u8, 0x41u8, device_id] + model + seq![command] + checked + seq![
        sum,
        0xF7u8,
    ];
    let body = frame.subrange(1, frame.len() - 1);
    let rest = body.skip(2);
    assert(model.take(model.len() as int) =~= model);
    law_checksum_is_the_only_one(checked, sum);
    law_checksum_completes(checked);
    if command == 0x11 && checked.len() == 8 {
        let payload = checked.skip(4);
        assert forall|i: int| 0 <= i < payload.len() implies #[trigger] payload[i] <= 0x7F by {
            assert(payload[i] == checked[i + 4]);
        }
        law_bytes_spell_the_size(payload);
    }
}

/// A frame that disagrees with the model, in any byte of it that it has, is another
/// device's; so is one of another maker.
pub proof fn law_other_models_are_foreign(model: Seq<u8>, frame: Seq<u8>, at: int)
    requires
        frame.len() > 2,
        frame[0] == 0xF0,
        frame.last() == 0xF7,
        forall|i: int| 0 < i < frame.len() - 1 ==> #[trigger] frame[i] < 128,
        (frame[1] != 0x41 && frame[1] != 0x7E) || (frame[1] == 0x41 && 0 <= at < model.len() && at + 3
            < frame.len() - 1 && frame[at + 3] != model[at]),
    ensures
        decoded_frame(model, frame) == Ok::<IncomingView, DecodeError>(IncomingView::Foreign),
{
    let body = frame.subrange(1, frame.len() - 1);
    assert forall|i: int| 0 <= i < body.len() implies #[trigger] body[i] <= 0x7F by {
        assert(body[i] == frame[i + 1]);
    }
    lemma_first_wide(body);
    if frame[1] == 0x41 {
        let rest = body.skip(2);
        let shared: int = if rest.len() < model.len() {
            rest.len() as int
        } else {
            model.len() as int
        };
        assert(rest.take(shared)[at] == frame[at + 3]);
        assert(model.take(shared)[at] == model[at]);
    }
}

/// What does not begin with a start and end with an end is no frame, and nothing else
/// is none.
pub proof fn law_frame_has_both_ends(model: Seq<u8>, frame: Seq<u8>)
    ensures
        decoded_frame(model, frame) == Err::<IncomingView, DecodeError>(DecodeError::NotAFrame)
            <==> frame.len() < 2 || frame[0] != 0xF0 || frame[frame.len() - 1] != 0xF7,
{
}

/// Between its ends a frame holds data bytes only; the first that is none is told.
pub proof fn law_frame_holds_data_bytes(model: Seq<u8>, frame: Seq<u8>, at: int)
    requires
        frame.len() >= 2,
        frame[0] == 0xF0,
        frame[frame.len() - 1] == 0xF7,
        0 < at < frame.len() - 1,
        frame[at] >= 128,
        forall|i: int| 0 < i < at ==> #[trigger] frame[i] < 128,
    ensures
        decoded_frame(model, frame) == Err::<IncomingView, DecodeError>(
            DecodeError::NonDataByte(frame[at]),
        ),
{
    let body = frame.subrange(1, frame.len() - 1);
    assert forall|i: int| 0 <= i < at - 1 implies #[trigger] body[i] < 128 by {
        assert(body[i] == frame[i + 1]);
    }
    law_first_wide_is_the_first(body, at - 1);
}

/// Where everything is in an identity reply: the maker, then two bytes of family, two of
/// member and four of revision. A reply of any maker is told as one.
pub proof fn law_identity_reply_is_laid_out(model: Seq<u8>, frame: Seq<u8>)
    requires
        frame.len() == 15,
        frame[0] == 0xF0,
        frame[1] == 0x7E,
        frame[3] == 0x06,
        frame[4] == 0x02,
        frame[14] == 0xF7,
        forall|i: int| 0 < i < 14 ==> #[trigger] frame[i] < 128,
    ensures
        decoded_frame(model, frame) matches Ok(IncomingView::IdentityReply(who)) && {
            &&& who.device_id == frame[2]
            &&& who.manufacturer == frame[5]
            &&& who.family == seq![frame[6], frame[7]]
            &&& who.member == seq![frame[8], frame[9]]
            &&& who.revision == seq![frame[10], frame[11], frame[12], frame[13]]
        },
{
    let body = frame.subrange(1, frame.len() - 1);
    assert forall|i: int| 0 <= i < body.len() implies #[trigger] body[i] <= 0x7F by {
        assert(body[i] == frame[i + 1]);
    }
    lemma_first_wide(body);
    assert(body.subrange(5, 7) =~= seq![frame[6], frame[7]]);
    assert(body.subrange(7, 9) =~= seq![frame[8], frame[9]]);
    assert(body.subrange(9, 13) =~= seq![frame[10], frame[11], frame[12], frame[13]]);
}

/// Only an identity reply is told as one.
pub proof fn law_only_identity_replies_are_told(model: Seq<u8>, frame: Seq<u8>)
    requires
        decoded_frame(model, frame) matches Ok(IncomingView::IdentityReply(_)),
    ensures
        frame.len() == 15,
        frame[0] == 0xF0,
        frame[1] == 0x7E,
        frame[3] == 0x06,
        frame[4] == 0x02,
        frame[14] == 0xF7,
        forall|i: int| 0 < i < 14 ==> #[trigger] frame[i] < 128,
{
    let body = frame.subrange(1, frame.len() - 1);
    lemma_first_wide(body);
    assert(body.len() == 13);
    assert(body[0] == frame[1] && body[2] == frame[3] && body[3] == frame[4]);
    assert forall|i: int| 0 < i < 14 implies #[trigger] frame[i] < 128 by {
        assert(frame[i] == body[i - 1]);
    }
}

/// Only a write of the model is told as one: the frame holds the device, the address and
/// the data that were told, and a checksum that completes their sum.
pub proof fn law_only_writes_are_told(
    model: Seq<u8>,
    frame: Seq<u8>,
    device_id: u8,
    addr: Seq<u8>,
    data: Seq<u8>,
)
    requires
        decoded_frame(model, frame) == Ok::<IncomingView, DecodeError>(
            IncomingView::Dt1 { device_id, addr, data },
        ),
    ensures
        addr.len() == 4,
        data.len() > 0,
        frame == dt1_frame(model, device_id, addr, data),
{
    let body = frame.subrange(1, frame.len() - 1);
    let n = model.len() as int;
    let rest = body.skip(2);
    let tail = rest.skip(n);
    let checked = tail.subrange(1, tail.len() - 1);
    assert(rest.take(n) =~= model.take(n));
    assert(model.take(n) =~= model);
    assert(addr + data =~= checked);
    let again = dt1_frame(model, device_id, addr, data);
    assert forall|i: int| 0 <= i < frame.len() implies #[trigger] frame[i] == again[i] by {
        if i == 0 || i == frame.len() - 1 {
        } else {
            assert(frame[i] == body[i - 1]);
            if i >= 3 {
                assert(body[i - 1] == rest[i - 3]);
                if i < 3 + n {
                    assert(rest.take(n)[i - 3] == model[i - 3]);
                } else {
                    assert(rest[i - 3] == tail[i - 3 - n]);
                    if 4 + n <= i < frame.len() - 2 {
                        assert(tail[i - 3 - n] == checked[i - 4 - n]);
                    }
                }
            }
        }
    }
    assert(frame =~= again);
}

/// Only a read request of the model is told as one: the frame holds the device, the
/// address and the size that were told, and a checksum that completes their sum.
pub proof fn law_only_requests_are_told(
    model: Seq<u8>,
    frame: Seq<u8>,
    device_id: u8,
    addr: Seq<u8>,
    size: u32,
)
    requires
        decoded_frame(model, frame) == Ok::<IncomingView, DecodeError>(
            IncomingView::Rq1 { device_id, addr, size },
        ),
    ensures
        addr.len() == 4,
        frame == rq1_frame(model, device_id, addr, size),
{
    let body = frame.subrange(1, frame.len() - 1);
    lemma_first_wide(body);
    let n = model.len() as int;
    let rest = body.skip(2);
    let tail = rest.skip(n);
    let checked = tail.subrange(1, tail.len() - 1);
    let payload = checked.skip(4);
    assert(rest.take(n) =~= model.take(n));
    assert(model.take(n) =~= model);
    assert forall|i: int| 0 <= i < payload.len() implies #[trigger] payload[i] <= 0x7F by {
        assert(payload[i] == body[i + 7 + n]);
    }
    law_sizes_read_back(size, payload);
    assert(addr + split7_of(size) =~= checked);
    let again = rq1_frame(model, device_id, addr, size);
    assert forall|i: int| 0 <= i < frame.len() implies #[trigger] frame[i] == again[i] by {
        if i == 0 || i == frame.len() - 1 {
        } else {
            assert(frame[i] == body[i - 1]);
            if i >= 3 {
                assert(body[i - 1] == rest[i - 3]);
                if i < 3 + n {
                    assert(rest.take(n)[i - 3] == model[i - 3]);
                } else {
                    assert(rest[i - 3] == tail[i - 3 - n]);
                    if 4 + n <= i < frame.len() - 2 {
                        assert(tail[i - 3 - n] == checked[i - 4 - n]);
                    }
                }
            }
        }
    }
    assert(frame =~= again);
}

/// A frame that outgrows the longest is given up, and counted once.
pub proof fn law_overlong_frame_is_given_up(a: Assembly, bytes: Seq<u8>)
    requires
        bytes.len() == 65_537,
        bytes[0] == 0xF0,
        forall|i: int| 0 < i < bytes.len() ==> #[trigger] bytes[i] != 0xF0 && bytes[i] != 0xF7,
    ensures
        a.frames(bytes) == Seq::<Seq<u8>>::empty(),
        a.after_all(bytes) == (Assembly {
            open: None,
            discarding: true,
            abandoned: a.abandoned + 1 + if a.open is Some {
                1nat
            } else {
                0
            },
        }),
{
    let longest = bytes.take(65_536).push(F7);
    assert(is_whole_frame(longest));
    lemma_open_frame_grows(a, longest, 65_536);
    assert(longest.take(65_536) =~= bytes.take(65_536));
    assert(bytes.drop_last() =~= bytes.take(65_536));
    assert(bytes.last() == bytes[65_536]);
}

/// Outside a frame bytes are passed over, and an end without a start is counted.
pub proof fn law_outside_a_frame(a: Assembly, b: u8)
    requires
        a.open is None,
        !a.discarding,
        b != 0xF0,
    ensures
        a.completed(b) is None,
        a.after(b) == (Assembly {
            abandoned: a.abandoned + if b == 0xF7 {
                1nat
            } else {
                0
            },
            ..a
        }),
{
}

/// A reason names the bytes that it is about.
pub proof fn law_reason_names_its_bytes(b: u8, c: u8)
    ensures
        text::occurs(text::prefixed_hex(b), DecodeError::NonDataByte(b).words()),
        text::occurs(text::prefixed_hex(b), DecodeError::UnknownCommand(b).words()),
        text::occurs(
            "checksum "@ + text::prefixed_hex(b),
            (DecodeError::Checksum { found: b, computed: c }).words(),
        ),
        text::occurs(
            "computed "@ + text::prefixed_hex(c),
            (DecodeError::Checksum { found: b, computed: c }).words(),
        ),
{
    let told = text::prefixed_hex(b);
    let wide = DecodeError::NonDataByte(b).words();
    let n = "byte "@.len() as int;
    assert(wide.subrange(n, n + told.len()) =~= told);
    let unknown = DecodeError::UnknownCommand(b).words();
    let m = "unknown Roland command "@.len() as int;
    assert(unknown.subrange(m, m + told.len()) =~= told);
    reveal_strlit(", computed ");
    reveal_strlit("computed ");
    let wrong = (DecodeError::Checksum { found: b, computed: c }).words();
    let found = "checksum "@ + told;
    assert(wrong.subrange(0int, 0int + found.len()) =~= found);
    let computed = "computed "@ + text::prefixed_hex(c);
    let k = found.len() as int + 2;
    assert(wrong.subrange(k, k + computed.len()) =~= computed);
}

} // verus!
