//! Frames as lines of text.

use crate::hex;
use crate::hex::spaced_hex;
use crate::map::AddressMap;
use crate::sysex;
use crate::sysex::{Address, Codec, DecodeError, IdentityReply, Incoming};
use crate::text;
use crate::text::{dec_text, hex2_text, pad};
use vstd::prelude::*;

verus! {

/// Who answered an identity request, in words.
pub open spec fn identity_line(reply: sysex::IdentityView) -> Seq<char> {
    "manufacturer "@ + text::hex2(reply.manufacturer, true) + (if reply.manufacturer
        == sysex::ROLAND {
        " (Roland)"@
    } else {
        ""@
    }) + "  family "@ + hex::spaced_hex_of(reply.family) + "  member "@ + hex::spaced_hex_of(
        reply.member,
    ) + "  revision "@ + hex::spaced_hex_of(reply.revision)
}

/// What a write says: the parameter and its value, as far as the map knows them.
pub open spec fn written_line(map: AddressMap, addr: Seq<u8>, data: Seq<u8>) -> Seq<char> {
    match crate::map::located(map.params@, addr) {
        None => "unmapped  ["@ + hex::spaced_hex_of(data) + "]"@,
        Some(param) => match param.decoded(data) {
            Some(value) => param.name@ + " = "@ + param.shown(value) + "  ["@ + hex::spaced_hex_of(
                data,
            ) + "]"@,
            None => param.name@ + " = ?  ["@ + hex::spaced_hex_of(data) + "] (the map says "@
                + text::dec(param.size as nat) + " byte(s))"@,
        },
    }
}

/// A remark where a frame names another device than the one addressed.
pub open spec fn device_remark(expected: u8, device_id: u8) -> Seq<char> {
    if device_id == expected {
        ""@
    } else {
        "  (device id "@ + text::hex2(device_id, true) + ")"@
    }
}

/// The name of the parameter at an address.
pub open spec fn name_line(map: AddressMap, addr: Seq<u8>) -> Seq<char> {
    match crate::map::located(map.params@, addr) {
        Some(param) => param.name@,
        None => "unmapped"@,
    }
}

/// The kind of a frame and what it says.
pub open spec fn frame_words(
    map: AddressMap,
    device: u8,
    decoded: Result<sysex::IncomingView, DecodeError>,
) -> (Seq<char>, Seq<char>) {
    match decoded {
        Ok(sysex::IncomingView::Dt1 { device_id, addr, data }) => (
            "dt1"@,
            hex::spaced_hex_of(addr) + "  "@ + written_line(map, addr, data) + device_remark(
                device,
                device_id,
            ),
        ),
        Ok(sysex::IncomingView::Rq1 { device_id, addr, size }) => (
            "rq1"@,
            hex::spaced_hex_of(addr) + "  "@ + name_line(map, addr) + " ("@ + text::dec(size as nat)
                + " byte(s) requested)"@ + device_remark(device, device_id),
        ),
        Ok(sysex::IncomingView::IdentityReply(reply)) => ("id "@, identity_line(reply)),
        Ok(sysex::IncomingView::Foreign) => ("-- "@, "not this device's dialect"@),
        Err(e) => ("!! "@, e.words()),
    }
}

/// A frame as a line: its kind, what it says, and its bytes.
pub open spec fn frame_line(
    map: AddressMap,
    device: u8,
    raw: Seq<u8>,
    decoded: Result<sysex::IncomingView, DecodeError>,
) -> Seq<char> {
    let (kind, detail) = frame_words(map, device, decoded);
    kind + " "@ + text::padded(detail, 54) + " "@ + hex::hex_of(raw)
}

/// A frame as a line: its kind, what it says, and its bytes.
pub fn frame(
    map: &AddressMap,
    codec: &Codec,
    raw: &[u8],
    decoded: Result<Incoming, DecodeError>,
) -> (r: String)
    ensures
        r@ == frame_line(*map, codec.device(), raw@, sysex::decoded(decoded)),
{
    let (kind, detail): (&str, String) = match decoded {
        Ok(Incoming::Dt1 { device_id, addr, data }) => (
            "dt1",
            addr.to_text().concat("  ").concat(
                value_at(map, addr, data.as_slice()).as_str(),
            ).concat(unexpected_device(codec, device_id).as_str()),
        ),
        Ok(Incoming::Rq1 { device_id, addr, size }) => (
            "rq1",
            addr.to_text().concat("  ").concat(name_at(map, addr).as_str()).concat(" (").concat(
                dec_text(size as u64).as_str(),
            ).concat(" byte(s) requested)").concat(unexpected_device(codec, device_id).as_str()),
        ),
        Ok(Incoming::IdentityReply(reply)) => ("id ", identity(&reply)),
        Ok(Incoming::Foreign) => ("-- ", "not this device's dialect".to_owned()),
        Err(e) => ("!! ", e.to_text()),
    };
    kind.to_owned().concat(" ").concat(pad(detail.as_str(), 54).as_str()).concat(" ").concat(
        hex::hex(raw).as_str(),
    )
}

/// Who answered an identity request, in words.
pub fn identity(reply: &IdentityReply) -> (r: String)
    ensures
        r@ == identity_line(reply@),
{
    let maker: &str = if reply.manufacturer == sysex::ROLAND {
        " (Roland)"
    } else {
        ""
    };
    "manufacturer ".to_owned().concat(hex2_text(reply.manufacturer, true).as_str()).concat(
        maker,
    ).concat("  family ").concat(spaced_hex(reply.family.as_slice()).as_str()).concat(
        "  member ",
    ).concat(spaced_hex(reply.member.as_slice()).as_str()).concat("  revision ").concat(
        spaced_hex(reply.revision.as_slice()).as_str(),
    )
}

fn value_at(map: &AddressMap, addr: Address, data: &[u8]) -> (r: String)
    ensures
        r@ == written_line(*map, addr@, data@),
{
    let bytes = spaced_hex(data);
    match map.param_at(addr) {
        None => "unmapped  [".to_owned().concat(bytes.as_str()).concat("]"),
        Some(param) => match param.decode(data) {
            Some(value) => param.name.as_str().to_owned().concat(" = ").concat(
                param.show(&value).as_str(),
            ).concat("  [").concat(bytes.as_str()).concat("]"),
            None => param.name.as_str().to_owned().concat(" = ?  [").concat(bytes.as_str()).concat(
                "] (the map says ",
            ).concat(dec_text(param.size as u64).as_str()).concat(" byte(s))"),
        },
    }
}

fn unexpected_device(codec: &Codec, device_id: u8) -> (r: String)
    ensures
        r@ == device_remark(codec.device(), device_id),
{
    if device_id == codec.device_id() {
        "".to_owned()
    } else {
        "  (device id ".to_owned().concat(hex2_text(device_id, true).as_str()).concat(")")
    }
}

fn name_at(map: &AddressMap, addr: Address) -> (r: String)
    ensures
        r@ == name_line(*map, addr@),
{
    match map.param_at(addr) {
        Some(param) => param.name.as_str().to_owned(),
        None => "unmapped".to_owned(),
    }
}

// ---------------------------------------------------------------------------
// Laws
// ---------------------------------------------------------------------------

/// A line begins with three characters for its kind, and each kind has its own.
pub proof fn law_line_begins_with_its_kind(
    map: AddressMap,
    device: u8,
    raw: Seq<u8>,
    decoded: Result<sysex::IncomingView, DecodeError>,
)
    ensures
        ({
            let line = frame_line(map, device, raw, decoded);
            let kind = match decoded {
                Ok(sysex::IncomingView::Dt1 { .. }) => seq!['d', 't', '1', ' '],
                Ok(sysex::IncomingView::Rq1 { .. }) => seq!['r', 'q', '1', ' '],
                Ok(sysex::IncomingView::IdentityReply(_)) => seq!['i', 'd', ' ', ' '],
                Ok(sysex::IncomingView::Foreign) => seq!['-', '-', ' ', ' '],
                Err(_) => seq!['!', '!', ' ', ' '],
            };
            line.len() > 4 && line.take(4) == kind
        }),
{
    reveal_strlit("dt1");
    reveal_strlit("rq1");
    reveal_strlit("id ");
    reveal_strlit("-- ");
    reveal_strlit("!! ");
    reveal_strlit(" ");
    let line = frame_line(map, device, raw, decoded);
    let (kind, detail) = frame_words(map, device, decoded);
    assert(kind.len() == 3);
    assert(line.take(4) =~= kind + " "@);
}

/// A line ends with the bytes of the frame after a space, and what it says stands before
/// them, in at least 54 characters.
pub proof fn law_line_ends_with_its_bytes(
    map: AddressMap,
    device: u8,
    raw: Seq<u8>,
    decoded: Result<sysex::IncomingView, DecodeError>,
)
    ensures
        ({
            let line = frame_line(map, device, raw, decoded);
            let detail = frame_words(map, device, decoded).1;
            let n = line.len() - 2 * raw.len();
            &&& n >= 59
            &&& line.skip(n) == hex::hex_of(raw)
            &&& line[n - 1] == ' '
            &&& line.subrange(4, 4 + detail.len() as int) == detail
            &&& n == 59 || n == 5 + detail.len()
        }),
{
    reveal_strlit("dt1");
    reveal_strlit("rq1");
    reveal_strlit("id ");
    reveal_strlit("-- ");
    reveal_strlit("!! ");
    reveal_strlit(" ");
    let line = frame_line(map, device, raw, decoded);
    let (kind, detail) = frame_words(map, device, decoded);
    let wide = text::padded(detail, 54);
    let n = line.len() - 2 * raw.len();
    assert(kind.len() == 3);
    assert(line.skip(n) =~= hex::hex_of(raw));
    assert(wide.take(detail.len() as int) =~= detail);
    assert(line.subrange(4, 4 + detail.len() as int) =~= wide.take(detail.len() as int));
}

/// A write is told with its address first and its data in brackets. It is called
/// unmapped exactly where no parameter is at the address, and else by the parameter's
/// name.
pub proof fn law_write_is_told(
    map: AddressMap,
    device: u8,
    device_id: u8,
    addr: Seq<u8>,
    data: Seq<u8>,
)
    ensures
        ({
            let detail = frame_words(
                map,
                device,
                Ok::<sysex::IncomingView, DecodeError>(
                    sysex::IncomingView::Dt1 { device_id, addr, data },
                ),
            ).1;
            let name = match crate::map::located(map.params@, addr) {
                Some(param) => param.name@ + " = "@,
                None => "unmapped  ["@,
            };
            let n = hex::spaced_hex_of(addr).len() as int;
            &&& detail.take(n) == hex::spaced_hex_of(addr)
            &&& detail.subrange(n + 2, n + 2 + name.len() as int) == name
            &&& text::occurs("["@ + hex::spaced_hex_of(data) + "]"@, detail)
        }),
{
    reveal_strlit("  ");
    reveal_strlit("  [");
    reveal_strlit("]");
    reveal_strlit("[");
    reveal_strlit(" = ");
    reveal_strlit(" = ?  [");
    reveal_strlit("unmapped  [");
    reveal_strlit("] (the map says ");
    let decoded = Ok::<sysex::IncomingView, DecodeError>(
        sysex::IncomingView::Dt1 { device_id, addr, data },
    );
    let detail = frame_words(map, device, decoded).1;
    let at = hex::spaced_hex_of(addr);
    let bytes = hex::spaced_hex_of(data);
    let held = "["@ + bytes + "]"@;
    let n = at.len() as int;
    assert(detail.take(n) =~= at);
    match crate::map::located(map.params@, addr) {
        None => {
            let name = "unmapped  ["@;
            assert(detail.subrange(n + 2, n + 2 + name.len() as int) =~= name);
            assert(detail.subrange(n + 12, n + 12 + held.len() as int) =~= held);
        },
        Some(param) => {
            let name = param.name@ + " = "@;
            assert(detail.subrange(n + 2, n + 2 + name.len() as int) =~= name);
            match param.decoded(data) {
                Some(value) => {
                    let from = n + 2 + name.len() + param.shown(value).len() + 2;
                    assert(detail.subrange(from, from + held.len() as int) =~= held);
                },
                None => {
                    let from = n + 2 + name.len() + 3;
                    assert(detail.subrange(from, from + held.len() as int) =~= held);
                },
            }
        },
    }
}

/// The value of a parameter is told where the data is one, as the parameter shows it; a
/// question mark stands where it is none, with the size that the map gives.
pub proof fn law_value_is_told(map: AddressMap, addr: Seq<u8>, data: Seq<u8>)
    requires
        crate::map::located(map.params@, addr) is Some,
    ensures
        ({
            let param = crate::map::located(map.params@, addr)->0;
            let line = written_line(map, addr, data);
            let from = param.name@.len() as int + 3;
            match param.decoded(data) {
                Some(value) => line.subrange(from, from + param.shown(value).len() as int)
                    == param.shown(value) && line.last() == ']',
                None => line[from] == '?' && line.last() == ')' && text::occurs(
                    text::dec(param.size as nat),
                    line,
                ),
            }
        }),
{
    reveal_strlit(" = ");
    reveal_strlit(" = ?  [");
    reveal_strlit("]");
    reveal_strlit("  [");
    reveal_strlit(" byte(s))");
    let param = crate::map::located(map.params@, addr)->0;
    let line = written_line(map, addr, data);
    let from = param.name@.len() as int + 3;
    match param.decoded(data) {
        Some(value) => {
            assert(line.subrange(from, from + param.shown(value).len() as int) =~= param.shown(
                value,
            ));
        },
        None => {
            text::lemma_occurs(
                param.name@ + " = ?  ["@ + hex::spaced_hex_of(data) + "] (the map says "@,
                text::dec(param.size as nat),
                " byte(s))"@,
            );
        },
    }
}

/// A request is told with its address first, then the parameter's name, and how many
/// bytes it asks for.
pub proof fn law_request_is_told(
    map: AddressMap,
    device: u8,
    device_id: u8,
    addr: Seq<u8>,
    size: u32,
)
    ensures
        ({
            let detail = frame_words(
                map,
                device,
                Ok::<sysex::IncomingView, DecodeError>(
                    sysex::IncomingView::Rq1 { device_id, addr, size },
                ),
            ).1;
            let name = match crate::map::located(map.params@, addr) {
                Some(param) => param.name@,
                None => "unmapped"@,
            };
            let n = hex::spaced_hex_of(addr).len() as int;
            &&& detail.take(n) == hex::spaced_hex_of(addr)
            &&& detail.subrange(n + 2, n + 2 + name.len() as int) == name
            &&& text::occurs(text::dec(size as nat) + " byte(s) requested"@, detail)
        }),
{
    reveal_strlit("  ");
    reveal_strlit(" byte(s) requested");
    reveal_strlit(" byte(s) requested)");
    let decoded = Ok::<sysex::IncomingView, DecodeError>(
        sysex::IncomingView::Rq1 { device_id, addr, size },
    );
    let detail = frame_words(map, device, decoded).1;
    let at = hex::spaced_hex_of(addr);
    let name = name_line(map, addr);
    let asked = text::dec(size as nat) + " byte(s) requested"@;
    let n = at.len() as int;
    assert(detail.take(n) =~= at);
    assert(detail.subrange(n + 2, n + 2 + name.len() as int) =~= name);
    let before = at + "  "@ + name + " ("@;
    let from = before.len() as int;
    assert(detail.subrange(from, from + asked.len() as int) =~= asked);
}

/// A frame that names another device than the one addressed is told with the device that
/// it names; one that names it is told without.
pub proof fn law_other_device_is_remarked(
    map: AddressMap,
    device: u8,
    device_id: u8,
    addr: Seq<u8>,
    data: Seq<u8>,
    size: u32,
)
    ensures
        ({
            let remark = if device == device_id {
                Seq::empty()
            } else {
                "  (device id "@ + text::hex2(device_id, true) + ")"@
            };
            let write = Ok::<sysex::IncomingView, DecodeError>(
                sysex::IncomingView::Dt1 { device_id, addr, data },
            );
            let request = Ok::<sysex::IncomingView, DecodeError>(
                sysex::IncomingView::Rq1 { device_id, addr, size },
            );
            &&& frame_words(map, device, write).1 == frame_words(map, device_id, write).1 + remark
            &&& frame_words(map, device, request).1 == frame_words(map, device_id, request).1
                + remark
        }),
{
    reveal_strlit("");
    let remark = if device == device_id {
        Seq::empty()
    } else {
        "  (device id "@ + text::hex2(device_id, true) + ")"@
    };
    let write = Ok::<sysex::IncomingView, DecodeError>(
        sysex::IncomingView::Dt1 { device_id, addr, data },
    );
    let request = Ok::<sysex::IncomingView, DecodeError>(
        sysex::IncomingView::Rq1 { device_id, addr, size },
    );
    assert(""@ =~= Seq::empty());
    assert(frame_words(map, device, write).1 =~= frame_words(map, device_id, write).1 + remark);
    assert(frame_words(map, device, request).1 =~= frame_words(map, device_id, request).1 + remark);
}

/// Who answered is told by all that the reply says, and the maker is named where it is
/// Roland.
pub proof fn law_identity_is_told(reply: sysex::IdentityView)
    ensures
        ({
            let line = identity_line(reply);
            let revision = hex::spaced_hex_of(reply.revision);
            &&& text::occurs("manufacturer "@ + text::hex2(reply.manufacturer, true), line)
            &&& line.len() > 16 && (line.subrange(15, 17) == seq![' ', '('] <==> reply.manufacturer
                == 0x41)
            &&& text::occurs("  family "@ + hex::spaced_hex_of(reply.family), line)
            &&& text::occurs("  member "@ + hex::spaced_hex_of(reply.member), line)
            &&& text::occurs("  revision "@ + revision, line)
        }),
{
    reveal_strlit("manufacturer ");
    reveal_strlit(" (Roland)");
    reveal_strlit("");
    reveal_strlit("  family ");
    reveal_strlit("  member ");
    reveal_strlit("  revision ");
    let line = identity_line(reply);
    let made = "manufacturer "@ + text::hex2(reply.manufacturer, true);
    let maker = if reply.manufacturer == sysex::ROLAND {
        " (Roland)"@
    } else {
        ""@
    };
    let family = "  family "@ + hex::spaced_hex_of(reply.family);
    let member = "  member "@ + hex::spaced_hex_of(reply.member);
    let revision = "  revision "@ + hex::spaced_hex_of(reply.revision);
    assert(made.len() == 15);
    assert(line =~= made + maker + family + member + revision);
    assert(line.subrange(0int, 0int + made.len()) =~= made);
    assert(text::occurs(made, line));
    let a = (made + maker).len() as int;
    assert(line.subrange(a, a + family.len()) =~= family);
    let b = a + family.len();
    assert(line.subrange(b, b + member.len()) =~= member);
    let c = b + member.len();
    assert(line.subrange(c, c + revision.len()) =~= revision);
    let mark = line.subrange(15, 17);
    if reply.manufacturer == 0x41 {
        assert(mark =~= seq![' ', '(']);
    } else {
        assert(mark[1] == ' ');
        assert(seq![' ', '('][1] == '(');
    }
}

} // verus!
