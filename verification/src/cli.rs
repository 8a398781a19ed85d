//! What the commands that need no device say, and what a run comes to.

use crate::hex;
use crate::hex::{parse_hex, spaced_hex};
use crate::map::{AddressMap, Param, Source, Verification};
use crate::render;
use crate::sysex;
use crate::sysex::Codec;
use crate::text;
use crate::text::{append_texts, dec_text, hex2_text, join, no_texts, pad, push_text, quote};
use vstd::prelude::*;

verus! {

/// The exit code where something did not answer.
pub const NO_ANSWER: u8 = 1;

/// The exit code where nothing could be measured.
pub const CANNOT_MEASURE: u8 = 2;

/// The exit code of a run. A script has to tell three outcomes apart: everything
/// answered, something did not, and nothing could be measured at all.
pub fn exit_code(outcome: &Result<bool, String>) -> (r: u8)
    ensures
        r == (match *outcome {
            Ok(true) => 0u8,
            Ok(false) => NO_ANSWER,
            Err(_) => CANNOT_MEASURE,
        }),
        r == 0 <==> *outcome == Ok::<bool, String>(true),
        r == 1 <==> *outcome == Ok::<bool, String>(false),
        r == 2 <==> *outcome is Err,
{
    match outcome {
        Ok(answered) => if *answered {
            0
        } else {
            NO_ANSWER
        },
        Err(_) => CANNOT_MEASURE,
    }
}

// ---------------------------------------------------------------------------
// Choosing the device and the parameters
// ---------------------------------------------------------------------------

/// The device ID to address: the map's, or the one that was given; or why what
/// was given is none.
pub open spec fn chosen_device(map: AddressMap, given: Option<Seq<char>>) -> Result<
    u8,
    Seq<char>,
> {
    match given {
        None => Ok(map.device.device_id_default),
        Some(s) => match hex::parsed_hex(s) {
            Err(e) => Err(e),
            Ok(bytes) => if bytes.len() == 1 && bytes[0] <= 0x7F {
                Ok(bytes[0])
            } else {
                Err("--device-id takes one 7-bit hex byte, got "@ + text::quoted(s))
            },
        },
    }
}

/// The codec for the map's model, with the device ID that was given.
pub fn choose_codec(map: &AddressMap, device_id: Option<&str>) -> (r: Result<Codec, String>)
    ensures
        match r {
            Ok(codec) => codec.model() == map.device.model_id@ && chosen_device(
                *map,
                crate::map::text_option(device_id),
            ) == Ok::<u8, Seq<char>>(codec.device()),
            Err(e) => chosen_device(*map, crate::map::text_option(device_id)) == Err::<
                u8,
                Seq<char>,
            >(e@),
        },
{
    match device_id {
        None => Ok(map.codec()),
        Some(s) => match parse_hex(s) {
            Err(e) => Err(e),
            Ok(bytes) => if bytes.len() == 1 && bytes[0] <= 0x7F {
                Ok(map.codec().with_device_id(bytes[0]))
            } else {
                Err(
                    "--device-id takes one 7-bit hex byte, got ".to_owned().concat(
                        quote(s).as_str(),
                    ),
                )
            },
        },
    }
}

/// The parameters with these names, where all can be read; else why the first
/// that cannot be read cannot.
pub open spec fn readable_all(params: Seq<Param>, names: Seq<Seq<char>>) -> Result<
    Seq<Param>,
    Seq<char>,
>
    decreases names.len(),
{
    if names.len() == 0 {
        Ok(Seq::empty())
    } else {
        match readable_all(params, names.drop_last()) {
            Err(e) => Err(e),
            Ok(before) => match crate::map::readable_named(params, names.last()) {
                Err(e) => Err(e),
                Ok(param) => Ok(before.push(param)),
            },
        }
    }
}

/// The contents of a list of parameters.
pub open spec fn params_view(list: Seq<&Param>) -> Seq<Param> {
    list.map_values(|p: &Param| *p)
}

proof fn lemma_first_error(params: Seq<Param>, names: Seq<Seq<char>>, n: int)
    requires
        0 <= n <= names.len(),
        readable_all(params, names.take(n)) is Err,
    ensures
        readable_all(params, names) == readable_all(params, names.take(n)),
    decreases names.len() - n,
{
    if n < names.len() {
        assert(names.take(n + 1).drop_last() =~= names.take(n));
        lemma_first_error(params, names, n + 1);
    } else {
        assert(names.take(n) =~= names);
    }
}

/// The parameters with these names, where all can be read.
pub fn select_params<'m>(map: &'m AddressMap, names: &Vec<String>) -> (r: Result<
    Vec<&'m Param>,
    String,
>)
    ensures
        match r {
            Ok(list) => readable_all(map.params@, text::texts(names@)) == Ok::<
                Seq<Param>,
                Seq<char>,
            >(params_view(list@)),
            Err(e) => readable_all(map.params@, text::texts(names@)) == Err::<Seq<Param>, Seq<char>>(
                e@,
            ),
        },
{
    let ghost all = text::texts(names@);
    let mut out: Vec<&'m Param> = Vec::new();
    let mut i: usize = 0;
    assert(params_view(out@) =~= Seq::empty());
    assert(all.take(0) =~= Seq::empty());
    while i < names.len()
        invariant
            i <= names.len(),
            all == text::texts(names@),
            readable_all(map.params@, all.take(i as int)) == Ok::<Seq<Param>, Seq<char>>(
                params_view(out@),
            ),
        decreases names.len() - i,
    {
        proof {
            assert(all.take(i + 1).drop_last() =~= all.take(i as int));
            assert(all.take(i + 1).last() == names@[i as int]@);
        }
        match map.readable(names[i].as_str()) {
            Ok(param) => {
                let ghost before = params_view(out@);
                out.push(param);
                assert(params_view(out@) =~= before.push(*param));
            },
            Err(e) => {
                proof {
                    lemma_first_error(map.params@, all, i + 1);
                }
                return Err(e);
            },
        }
        i = i + 1;
    }
    assert(all.take(all.len() as int) =~= all);
    Ok(out)
}

// ---------------------------------------------------------------------------
// Decoding
// ---------------------------------------------------------------------------

/// What is said of frames given as hexadecimal text, one line for each.
pub open spec fn decode_lines(
    map: AddressMap,
    model: Seq<u8>,
    device: u8,
    frames: Seq<Seq<char>>,
) -> Seq<Seq<char>> {
    frames.map_values(
        |s: Seq<char>|
            match hex::parsed_hex(s) {
                Err(e) => "!!  "@ + text::padded(e, 54) + " "@ + s,
                Ok(raw) => render::frame_line(
                    map,
                    device,
                    raw,
                    sysex::decoded_frame(model, raw),
                ),
            },
    )
}

/// Whether a text is a frame that can be turned into a message.
pub open spec fn well_formed(model: Seq<u8>, s: Seq<char>) -> bool {
    hex::parsed_hex(s) matches Ok(raw) && sysex::decoded_frame(model, raw) is Ok
}

/// Decodes frames given as hexadecimal text: what is said of each, and whether
/// all are well formed. A frame that this device would never send is decoded
/// all the same, and one that cannot be used does not stop the rest.
pub fn decode(map: &AddressMap, codec: &Codec, frames: &Vec<String>) -> (r: (Vec<String>, bool))
    ensures
        text::texts(r.0@) == decode_lines(
            *map,
            codec.model(),
            codec.device(),
            text::texts(frames@),
        ),
        r.1 == forall|i: int|
            0 <= i < frames@.len() ==> well_formed(codec.model(), (#[trigger] frames@[i])@),
{
    let ghost want = decode_lines(*map, codec.model(), codec.device(), text::texts(frames@));
    let mut lines = no_texts();
    let mut all_well_formed = true;
    let mut i: usize = 0;
    while i < frames.len()
        invariant
            i <= frames.len(),
            want == decode_lines(*map, codec.model(), codec.device(), text::texts(frames@)),
            text::texts(lines@) == want.take(i as int),
            all_well_formed == forall|k: int|
                0 <= k < i ==> well_formed(codec.model(), (#[trigger] frames@[k])@),
        decreases frames.len() - i,
    {
        let s = frames[i].as_str();
        assert(text::texts(frames@)[i as int] == s@);
        match parse_hex(s) {
            Err(e) => {
                assert(!well_formed(codec.model(), frames@[i as int]@));
                all_well_formed = false;
                push_text(
                    &mut lines,
                    "!!  ".to_owned().concat(pad(e.as_str(), 54).as_str()).concat(" ").concat(s),
                );
            },
            Ok(raw) => {
                let decoded = codec.decode(raw.as_slice());
                if decoded.is_err() {
                    assert(!well_formed(codec.model(), frames@[i as int]@));
                    all_well_formed = false;
                }
                push_text(&mut lines, render::frame(map, codec, raw.as_slice(), decoded));
            },
        }
        assert(want.take(i + 1) =~= want.take(i as int).push(want[i as int]));
        i = i + 1;
    }
    assert(want.take(want.len() as int) =~= want);
    (lines, all_well_formed)
}

// ---------------------------------------------------------------------------
// Describing a map
// ---------------------------------------------------------------------------

/// Whether two optional addresses are both there and differ.
pub open spec fn asymmetric(param: Param) -> bool {
    param.read_address is Some && param.write_address is Some && param.read_address->0@
        != param.write_address->0@
}

/// A parameter on one line: its name, how and where it can be reached, how it is
/// encoded, its values, and whether it was verified.
pub open spec fn inventory_line(param: Param) -> Seq<char> {
    let direction = match (param.read_address, param.write_address) {
        (Some(_), Some(_)) => "rw"@,
        (Some(_), None) => "r-"@,
        (None, Some(_)) => "-w"@,
        (None, None) => "??"@,
    };
    let address = match (param.read_address, param.write_address) {
        (Some(read), _) => hex::spaced_hex_of(read@),
        (None, Some(write)) => hex::spaced_hex_of(write@),
        (None, None) => ""@,
    };
    let elsewhere = if asymmetric(param) {
        " (writes "@ + hex::spaced_hex_of(param.write_address->0@) + ")"@
    } else {
        ""@
    };
    let values = if !param.labels@.is_empty() {
        "  "@ + crate::map::labels_text(param.labels@)
    } else {
        match param.range {
            Some(range) => "  "@ + text::dec(range.min as nat) + "..="@ + text::dec(
                range.max as nat,
            ),
            None => ""@,
        }
    };
    let trust = if param.verified@.len() == 0 {
        "unverified"@
    } else {
        "verified"@
    };
    text::padded(param.name@, 18) + " "@ + direction + " "@ + address + elsewhere + "  "@
        + text::dec(param.size as nat) + " × "@ + param.encoding.name() + values + "  ["@ + trust
        + "]"@
}

/// A parameter on one line.
pub fn inventory(param: &Param) -> (r: String)
    ensures
        r@ == inventory_line(*param),
{
    let direction: &str = match (param.read_address, param.write_address) {
        (Some(_), Some(_)) => "rw",
        (Some(_), None) => "r-",
        (None, Some(_)) => "-w",
        (None, None) => "??",
    };
    let address = match (param.read_address, param.write_address) {
        (Some(read), _) => read.to_text(),
        (None, Some(write)) => write.to_text(),
        (None, None) => "".to_owned(),
    };
    let elsewhere = match (param.read_address, param.write_address) {
        (Some(read), Some(write)) => if !read.same(&write) {
            " (writes ".to_owned().concat(write.to_text().as_str()).concat(")")
        } else {
            "".to_owned()
        },
        _ => "".to_owned(),
    };
    let values = if param.labels.is_empty() {
        match param.range {
            Some(range) => "  ".to_owned().concat(dec_text(range.min as u64).as_str()).concat(
                "..=",
            ).concat(dec_text(range.max as u64).as_str()),
            None => "".to_owned(),
        }
    } else {
        "  ".to_owned().concat(param.label_list().as_str())
    };
    let trust: &str = if param.verified.len() == 0 {
        "unverified"
    } else {
        "verified"
    };
    pad(param.name.as_str(), 18).concat(" ").concat(direction).concat(" ").concat(
        address.as_str(),
    ).concat(elsewhere.as_str()).concat("  ").concat(dec_text(param.size as u64).as_str()).concat(
        " × ",
    ).concat(param.encoding.to_text()).concat(values.as_str()).concat("  [").concat(trust).concat(
        "]",
    )
}

/// One line for each text, with `prefix` before it.
pub open spec fn with_prefix(prefix: Seq<char>, list: Seq<Seq<char>>) -> Seq<Seq<char>> {
    list.map_values(|s: Seq<char>| prefix + s)
}

fn prefix_all(prefix: &str, list: &Vec<String>) -> (r: Vec<String>)
    ensures
        text::texts(r@) == with_prefix(prefix@, text::texts(list@)),
{
    let ghost want = with_prefix(prefix@, text::texts(list@));
    let mut out = no_texts();
    let mut i: usize = 0;
    while i < list.len()
        invariant
            i <= list.len(),
            want == with_prefix(prefix@, text::texts(list@)),
            text::texts(out@) == want.take(i as int),
        decreases list.len() - i,
    {
        push_text(&mut out, prefix.to_owned().concat(list[i].as_str()));
        assert(want.take(i + 1) =~= want.take(i as int).push(want[i as int]));
        i = i + 1;
    }
    assert(want.take(want.len() as int) =~= want);
    out
}

/// What is said of a confirmation.
pub open spec fn verified_line(v: Verification) -> Seq<char> {
    "    verified "@ + v.date@ + " on firmware "@ + v.firmware@ + " by "@ + v.method.name()
}

fn verified_lines(list: &Vec<Verification>) -> (r: Vec<String>)
    ensures
        text::texts(r@) == list@.map_values(|v: Verification| verified_line(v)),
{
    let ghost want = list@.map_values(|v: Verification| verified_line(v));
    let mut out = no_texts();
    let mut i: usize = 0;
    while i < list.len()
        invariant
            i <= list.len(),
            want == list@.map_values(|v: Verification| verified_line(v)),
            text::texts(out@) == want.take(i as int),
        decreases list.len() - i,
    {
        let v = &list[i];
        push_text(
            &mut out,
            "    verified ".to_owned().concat(v.date.as_str()).concat(" on firmware ").concat(
                v.firmware.as_str(),
            ).concat(" by ").concat(v.method.as_str()),
        );
        assert(want.take(i + 1) =~= want.take(i as int).push(want[i as int]));
        i = i + 1;
    }
    assert(want.take(want.len() as int) =~= want);
    out
}

/// A text on a line of its own, with `prefix` before it, where it is there.
pub open spec fn optional_line(prefix: Seq<char>, s: Option<String>) -> Seq<Seq<char>> {
    match s {
        Some(s) => seq![prefix + s@],
        None => Seq::empty(),
    }
}

fn optional_text(prefix: &str, s: &Option<String>) -> (r: Vec<String>)
    ensures
        text::texts(r@) == optional_line(prefix@, *s),
{
    let mut out = no_texts();
    if let Some(s) = s {
        push_text(&mut out, prefix.to_owned().concat(s.as_str()));
        assert(text::texts(out@) =~= seq![prefix@ + s@]);
    }
    out
}

/// What is said of a parameter.
pub open spec fn param_lines(param: Param) -> Seq<Seq<char>> {
    seq![
        inventory_line(param),
        "    from "@ + param.source.name() + " — "@ + param.source_ref@,
    ] + with_prefix("    corroborated by: "@, text::texts(param.corroborations@))
        + param.verified@.map_values(|v: Verification| verified_line(v)) + optional_line(
        "    "@,
        param.notes,
    )
}

fn describe_param(param: &Param) -> (r: Vec<String>)
    ensures
        text::texts(r@) == param_lines(*param),
{
    let mut out = no_texts();
    push_text(&mut out, inventory(param));
    push_text(
        &mut out,
        "    from ".to_owned().concat(param.source.as_str()).concat(" — ").concat(
            param.source_ref.as_str(),
        ),
    );
    assert(text::texts(out@) =~= seq![
        inventory_line(*param),
        "    from "@ + param.source.name() + " — "@ + param.source_ref@,
    ]);
    append_texts(&mut out, prefix_all("    corroborated by: ", &param.corroborations));
    append_texts(&mut out, verified_lines(&param.verified));
    append_texts(&mut out, optional_text("    ", &param.notes));
    out
}

/// What is said of the first `n` parameters.
pub open spec fn all_param_lines(params: Seq<Param>) -> Seq<Seq<char>>
    decreases params.len(),
{
    if params.len() == 0 {
        Seq::empty()
    } else {
        all_param_lines(params.drop_last()) + param_lines(params.last())
    }
}

/// How many parameters are known from a source.
pub open spec fn from_source(params: Seq<Param>, source: Source) -> nat
    decreases params.len(),
{
    if params.len() == 0 {
        0
    } else {
        from_source(params.drop_last(), source) + if params.last().source == source {
            1nat
        } else {
            0
        }
    }
}

/// How many parameters were verified.
pub open spec fn verified_count(params: Seq<Param>) -> nat
    decreases params.len(),
{
    if params.len() == 0 {
        0
    } else {
        verified_count(params.drop_last()) + if params.last().verified@.len() > 0 {
            1nat
        } else {
            0
        }
    }
}

/// The sources that occur, each with how often, in the order of their names.
pub open spec fn source_counts(params: Seq<Param>) -> Seq<Seq<char>> {
    let a = from_source(params, Source::AppRe);
    let d = from_source(params, Source::OfficialDoc);
    let p = from_source(params, Source::PanelCapture);
    text::noted(
        text::noted(
            text::noted(Seq::empty(), a > 0, text::dec(a) + " "@ + Source::AppRe.name()),
            d > 0,
            text::dec(d) + " "@ + Source::OfficialDoc.name(),
        ),
        p > 0,
        text::dec(p) + " "@ + Source::PanelCapture.name(),
    )
}

/// What is said of a consistent map: the device, each parameter, and a summary.
pub open spec fn map_lines(map: AddressMap, path: Seq<char>) -> Seq<Seq<char>> {
    seq![
        map.device.name@ + " — "@ + path,
        "model "@ + hex::spaced_hex_of(map.device.model_id@) + ", device id "@ + text::hex2(
            map.device.device_id_default,
            true,
        ) + ", "@ + "roland7"@ + " checksum"@,
    ] + optional_line(""@, map.notice) + with_prefix(
        "corroborated by: "@,
        text::texts(map.device.corroborations@),
    ) + seq![""@] + all_param_lines(map.params@) + seq![
        ""@,
        text::dec(map.params@.len()) + " parameters ("@ + text::joined(
            source_counts(map.params@),
            " + "@,
        ) + "), "@ + text::dec(verified_count(map.params@)) + " verified on hardware, "@
            + text::dec(map.examples@.len()) + " example frames, no problems"@,
    ]
}

fn count_source(params: &Vec<Param>, source: Source) -> (r: usize)
    ensures
        r == from_source(params@, source),
{
    let mut n: usize = 0;
    let mut i: usize = 0;
    while i < params.len()
        invariant
            n <= i <= params.len(),
            n == from_source(params@.take(i as int), source),
        decreases params.len() - i,
    {
        assert(params@.take(i + 1).drop_last() =~= params@.take(i as int));
        let hit = match (params[i].source, source) {
            (Source::AppRe, Source::AppRe) => true,
            (Source::OfficialDoc, Source::OfficialDoc) => true,
            (Source::PanelCapture, Source::PanelCapture) => true,
            _ => false,
        };
        if hit {
            n = n + 1;
        }
        i = i + 1;
    }
    assert(params@.take(params@.len() as int) =~= params@);
    n
}

fn count_verified(params: &Vec<Param>) -> (r: usize)
    ensures
        r == verified_count(params@),
{
    let mut n: usize = 0;
    let mut i: usize = 0;
    while i < params.len()
        invariant
            n <= i <= params.len(),
            n == verified_count(params@.take(i as int)),
        decreases params.len() - i,
    {
        assert(params@.take(i + 1).drop_last() =~= params@.take(i as int));
        if params[i].verified.len() > 0 {
            n = n + 1;
        }
        i = i + 1;
    }
    assert(params@.take(params@.len() as int) =~= params@);
    n
}

fn count_sources(params: &Vec<Param>) -> (r: Vec<String>)
    ensures
        text::texts(r@) == source_counts(params@),
{
    let mut out = no_texts();
    let a = count_source(params, Source::AppRe);
    let d = count_source(params, Source::OfficialDoc);
    let p = count_source(params, Source::PanelCapture);
    if a > 0 {
        push_text(&mut out, dec_text(a as u64).concat(" ").concat(Source::AppRe.as_str()));
    }
    if d > 0 {
        push_text(&mut out, dec_text(d as u64).concat(" ").concat(Source::OfficialDoc.as_str()));
    }
    if p > 0 {
        push_text(&mut out, dec_text(p as u64).concat(" ").concat(Source::PanelCapture.as_str()));
    }
    out
}

fn describe_params(params: &Vec<Param>) -> (r: Vec<String>)
    ensures
        text::texts(r@) == all_param_lines(params@),
{
    let mut out = no_texts();
    let mut i: usize = 0;
    while i < params.len()
        invariant
            i <= params.len(),
            text::texts(out@) == all_param_lines(params@.take(i as int)),
        decreases params.len() - i,
    {
        assert(params@.take(i + 1).drop_last() =~= params@.take(i as int));
        append_texts(&mut out, describe_param(&params[i]));
        i = i + 1;
    }
    assert(params@.take(params@.len() as int) =~= params@);
    out
}

/// What is said of a consistent map.
pub fn check_map(map: &AddressMap, path: &str) -> (r: Vec<String>)
    ensures
        text::texts(r@) == map_lines(*map, path@),
{
    let device = &map.device;
    let mut out = no_texts();
    push_text(&mut out, device.name.as_str().to_owned().concat(" — ").concat(path));
    push_text(
        &mut out,
        "model ".to_owned().concat(spaced_hex(device.model_id.as_slice()).as_str()).concat(
            ", device id ",
        ).concat(hex2_text(device.device_id_default, true).as_str()).concat(", ").concat(
            device.checksum.as_str(),
        ).concat(" checksum"),
    );
    assert(text::texts(out@) =~= seq![
        map.device.name@ + " — "@ + path@,
        "model "@ + hex::spaced_hex_of(map.device.model_id@) + ", device id "@ + text::hex2(
            map.device.device_id_default,
            true,
        ) + ", "@ + "roland7"@ + " checksum"@,
    ]);
    append_texts(&mut out, optional_text("", &map.notice));
    append_texts(&mut out, prefix_all("corroborated by: ", &device.corroborations));
    let mut blank = no_texts();
    push_text(&mut blank, "".to_owned());
    assert(text::texts(blank@) =~= seq![""@]);
    append_texts(&mut out, blank);
    append_texts(&mut out, describe_params(&map.params));
    let mut last = no_texts();
    push_text(&mut last, "".to_owned());
    push_text(
        &mut last,
        dec_text(map.params.len() as u64).concat(" parameters (").concat(
            join(&count_sources(&map.params), " + ").as_str(),
        ).concat("), ").concat(dec_text(count_verified(&map.params) as u64).as_str()).concat(
            " verified on hardware, ",
        ).concat(dec_text(map.examples.len() as u64).as_str()).concat(
            " example frames, no problems",
        ),
    );
    assert(text::texts(last@) =~= seq![
        ""@,
        text::dec(map.params@.len()) + " parameters ("@ + text::joined(
            source_counts(map.params@),
            " + "@,
        ) + "), "@ + text::dec(verified_count(map.params@)) + " verified on hardware, "@
            + text::dec(map.examples@.len()) + " example frames, no problems"@,
    ]);
    append_texts(&mut out, last);
    out
}

// ---------------------------------------------------------------------------
// Laws
// ---------------------------------------------------------------------------

/// Every parameter of a map is counted under one source.
pub proof fn law_sources_add_up(params: Seq<Param>)
    ensures
        from_source(params, Source::AppRe) + from_source(params, Source::OfficialDoc) + from_source(
            params,
            Source::PanelCapture,
        ) == params.len(),
        verified_count(params) <= params.len(),
    decreases params.len(),
{
    if params.len() > 0 {
        law_sources_add_up(params.drop_last());
    }
}

/// The device ID is the map's where none is given, and else the one data byte that the
/// text spells.
pub proof fn law_device_id_is_one_data_byte(map: AddressMap, given: Option<Seq<char>>, id: u8)
    ensures
        chosen_device(map, given) == Ok::<u8, Seq<char>>(id) <==> match given {
            None => id == map.device.device_id_default,
            Some(s) => id < 128 && hex::parsed_hex(s) == Ok::<Seq<u8>, Seq<char>>(seq![id]),
        },
{
    if let Some(s) = given {
        if let Ok(bytes) = hex::parsed_hex(s) {
            if bytes.len() == 1 {
                assert(bytes =~= seq![bytes[0]]);
            }
        }
    }
}

/// The parameters come in the order of their names, one for each, exactly where all can
/// be read.
pub proof fn law_each_name_has_its_parameter(params: Seq<Param>, names: Seq<Seq<char>>)
    ensures
        readable_all(params, names) is Ok <==> forall|i: int|
            0 <= i < names.len() ==> crate::map::readable_named(params, #[trigger] names[i]) is Ok,
        readable_all(params, names) matches Ok(list) ==> list.len() == names.len() && forall|i: int|
            0 <= i < names.len() ==> crate::map::readable_named(params, #[trigger] names[i]) == Ok::<
                Param,
                Seq<char>,
            >(list[i]),
    decreases names.len(),
{
    if names.len() > 0 {
        let before = names.drop_last();
        let n = names.len() - 1;
        law_each_name_has_its_parameter(params, before);
        assert(names.last() == names[n]);
        if readable_all(params, names) is Ok {
            assert forall|i: int| 0 <= i < names.len() implies crate::map::readable_named(
                params,
                #[trigger] names[i],
            ) == Ok::<Param, Seq<char>>(readable_all(params, names)->Ok_0[i]) by {
                if i < n {
                    assert(before[i] == names[i]);
                }
            }
        } else if forall|i: int|
            0 <= i < names.len() ==> crate::map::readable_named(params, #[trigger] names[i]) is Ok {
            assert(crate::map::readable_named(params, names[n]) is Ok);
            assert forall|i: int| 0 <= i < before.len() implies crate::map::readable_named(
                params,
                #[trigger] before[i],
            ) is Ok by {
                assert(before[i] == names[i]);
            }
        }
    }
}

/// Where some cannot be read, the first of them says why.
pub proof fn law_first_unreadable_name_is_told(params: Seq<Param>, names: Seq<Seq<char>>, at: int)
    requires
        0 <= at < names.len(),
        crate::map::readable_named(params, names[at]) is Err,
        forall|i: int|
            0 <= i < at ==> crate::map::readable_named(params, #[trigger] names[i]) is Ok,
    ensures
        readable_all(params, names) matches Err(e) && crate::map::readable_named(params, names[at])
            == Err::<Param, Seq<char>>(e),
    decreases names.len(),
{
    let before = names.drop_last();
    if at < before.len() {
        assert(before[at] == names[at]);
        assert forall|i: int| 0 <= i < at implies crate::map::readable_named(
            params,
            #[trigger] before[i],
        ) is Ok by {
            assert(before[i] == names[i]);
        }
        law_first_unreadable_name_is_told(params, before, at);
    } else {
        assert forall|i: int| 0 <= i < before.len() implies crate::map::readable_named(
            params,
            #[trigger] before[i],
        ) is Ok by {
            assert(before[i] == names[i]);
        }
        law_each_name_has_its_parameter(params, before);
    }
}

/// Each frame has a line, in order. One that is no hex is told as it was given, after a
/// mark; one that is has the line of its bytes.
pub proof fn law_each_frame_has_its_line(
    map: AddressMap,
    model: Seq<u8>,
    device: u8,
    frames: Seq<Seq<char>>,
    i: int,
)
    requires
        0 <= i < frames.len(),
    ensures
        ({
            let lines = decode_lines(map, model, device, frames);
            &&& lines.len() == frames.len()
            &&& hex::parsed_hex(frames[i]) matches Ok(raw) ==> lines[i] == render::frame_line(
                map,
                device,
                raw,
                sysex::decoded_frame(model, raw),
            )
            &&& hex::parsed_hex(frames[i]) matches Err(e) ==> {
                let n = lines[i].len() - frames[i].len();
                &&& n >= 59
                &&& lines[i].take(4) == seq!['!', '!', ' ', ' ']
                &&& lines[i].subrange(4, 4 + e.len() as int) == e
                &&& lines[i].skip(n) == frames[i]
            }
        }),
{
    reveal_strlit("!!  ");
    reveal_strlit(" ");
    let lines = decode_lines(map, model, device, frames);
    if let Err(e) = hex::parsed_hex(frames[i]) {
        let line = lines[i];
        let wide = text::padded(e, 54);
        assert(line == "!!  "@ + wide + " "@ + frames[i]);
        assert(line.take(4) =~= seq!['!', '!', ' ', ' ']);
        assert(wide.take(e.len() as int) =~= e);
        assert(line.subrange(4, 4 + e.len() as int) =~= wide.take(e.len() as int));
        assert(line.skip(line.len() - frames[i].len()) =~= frames[i]);
    }
}

/// Whether a line is marked as wrong.
pub open spec fn marked(line: Seq<char>) -> bool {
    line.take(2) == seq!['!', '!']
}

proof fn lemma_mark(line: Seq<char>, kind: Seq<char>)
    requires
        line.len() >= 4,
        kind.len() == 4,
        line.take(4) == kind,
    ensures
        marked(line) <==> kind[0] == '!' && kind[1] == '!',
{
    assert(line.take(4)[0] == line[0] && line.take(4)[1] == line[1]);
    assert(line.take(2)[0] == line[0] && line.take(2)[1] == line[1]);
    if kind[0] == '!' && kind[1] == '!' {
        assert(line.take(2) =~= seq!['!', '!']);
    } else {
        assert(seq!['!', '!'][0] == '!' && seq!['!', '!'][1] == '!');
    }
}

#[verifier::spinoff_prover]
proof fn lemma_frame_mark(
    map: AddressMap,
    device: u8,
    raw: Seq<u8>,
    said: Result<sysex::IncomingView, sysex::DecodeError>,
)
    ensures
        marked(render::frame_line(map, device, raw, said)) <==> said is Err,
{
    render::law_line_begins_with_its_kind(map, device, raw, said);
    let line = render::frame_line(map, device, raw, said);
    lemma_mark(line, line.take(4));
}

/// A frame is well formed exactly where its line is not marked as wrong.
#[verifier::spinoff_prover]
pub proof fn law_wrong_frames_are_marked(
    map: AddressMap,
    model: Seq<u8>,
    device: u8,
    frames: Seq<Seq<char>>,
    i: int,
)
    requires
        0 <= i < frames.len(),
    ensures
        well_formed(model, frames[i]) <==> !marked(decode_lines(map, model, device, frames)[i]),
{
    law_each_frame_has_its_line(map, model, device, frames, i);
    let line = decode_lines(map, model, device, frames)[i];
    lemma_line_mark(map, model, device, frames[i], line);
}

#[verifier::spinoff_prover]
proof fn lemma_line_mark(
    map: AddressMap,
    model: Seq<u8>,
    device: u8,
    s: Seq<char>,
    line: Seq<char>,
)
    requires
        hex::parsed_hex(s) matches Ok(raw) ==> line == render::frame_line(
            map,
            device,
            raw,
            sysex::decoded_frame(model, raw),
        ),
        hex::parsed_hex(s) is Err ==> line.len() >= 4 && line.take(4) == seq!['!', '!', ' ', ' '],
    ensures
        well_formed(model, s) <==> !marked(line),
{
    if hex::parsed_hex(s) is Ok {
        let raw = hex::parsed_hex(s)->Ok_0;
        lemma_frame_mark(map, device, raw, sysex::decoded_frame(model, raw));
    } else {
        lemma_mark(line, line.take(4));
    }
}

/// The line of a parameter begins with its name, and then says whether it can be read
/// and whether it can be written. It ends with whether it was verified.
pub proof fn law_line_tells_how_to_reach_a_parameter(param: Param)
    ensures
        ({
            let line = inventory_line(param);
            let n: int = if param.name@.len() < 18 {
                18
            } else {
                param.name@.len() as int
            };
            &&& line.take(param.name@.len() as int) == param.name@
            &&& forall|i: int| param.name@.len() <= i <= n ==> #[trigger] line[i] == ' '
            &&& line[n + 1] == 'r' <==> param.read_address is Some
            &&& line[n + 2] == 'w' <==> param.write_address is Some
            &&& line[n + 3] == ' '
            &&& line.last() == ']'
            &&& line[line.len() - 10] == '[' <==> param.verified@.len() > 0
            &&& text::occurs(text::dec(param.size as nat) + " × "@ + param.encoding.name(), line)
        }),
{
    reveal_strlit(" ");
    reveal_strlit("rw");
    reveal_strlit("r-");
    reveal_strlit("-w");
    reveal_strlit("??");
    reveal_strlit("  [");
    reveal_strlit("]");
    reveal_strlit("verified");
    reveal_strlit("unverified");
    let line = inventory_line(param);
    let name = text::padded(param.name@, 18);
    let n = name.len() as int;
    assert(name.take(param.name@.len() as int) =~= param.name@);
    assert(line.take(param.name@.len() as int) =~= name.take(param.name@.len() as int));
    assert forall|i: int| param.name@.len() <= i <= n implies #[trigger] line[i] == ' ' by {
        if i < n {
            assert(line[i] == name[i]);
        }
    }
    lemma_size_is_told(param);
}

proof fn lemma_size_is_told(param: Param)
    ensures
        text::occurs(
            text::dec(param.size as nat) + " × "@ + param.encoding.name(),
            inventory_line(param),
        ),
{
    let line = inventory_line(param);
    let told = text::dec(param.size as nat) + " × "@ + param.encoding.name();
    let direction = match (param.read_address, param.write_address) {
        (Some(_), Some(_)) => "rw"@,
        (Some(_), None) => "r-"@,
        (None, Some(_)) => "-w"@,
        (None, None) => "??"@,
    };
    let address = match (param.read_address, param.write_address) {
        (Some(read), _) => hex::spaced_hex_of(read@),
        (None, Some(write)) => hex::spaced_hex_of(write@),
        (None, None) => ""@,
    };
    let elsewhere = if asymmetric(param) {
        " (writes "@ + hex::spaced_hex_of(param.write_address->0@) + ")"@
    } else {
        ""@
    };
    let head = text::padded(param.name@, 18) + " "@ + direction + " "@ + address + elsewhere + "  "@;
    let from = head.len() as int;
    assert(line.subrange(from, from + told.len() as int) =~= told);
}

/// A parameter is told with the address that it is read at, or else that it is written
/// at; and with the one that it is written at where that is another.
pub proof fn law_line_tells_the_addresses(param: Param)
    ensures
        ({
            let line = inventory_line(param);
            let n: int = if param.name@.len() < 18 {
                18
            } else {
                param.name@.len() as int
            };
            let first = if param.read_address is Some {
                param.read_address
            } else {
                param.write_address
            };
            &&& first matches Some(addr) ==> line.subrange(
                n + 4,
                n + 4 + hex::spaced_hex_of(addr@).len() as int,
            ) == hex::spaced_hex_of(addr@)
            &&& param.read_address is Some && param.write_address is Some && param.read_address->0@
                != param.write_address->0@ ==> text::occurs(
                " (writes "@ + hex::spaced_hex_of(param.write_address->0@) + ")"@,
                line,
            )
        }),
{
    reveal_strlit(" ");
    reveal_strlit("rw");
    reveal_strlit("r-");
    reveal_strlit("-w");
    let line = inventory_line(param);
    let n = text::padded(param.name@, 18).len() as int;
    if let Some(read) = param.read_address {
        let addr = hex::spaced_hex_of(read@);
        assert(line.subrange(n + 4, n + 4 + addr.len() as int) =~= addr);
        if let Some(write) = param.write_address {
            if read@ != write@ {
                let told = " (writes "@ + hex::spaced_hex_of(write@) + ")"@;
                let from = n + 4 + addr.len();
                assert(line.subrange(from, from + told.len() as int) =~= told);
            }
        }
    } else if let Some(write) = param.write_address {
        let addr = hex::spaced_hex_of(write@);
        assert(line.subrange(n + 4, n + 4 + addr.len() as int) =~= addr);
    }
}

/// The counts of a summary are counts: of the parameters known from a source, and of
/// those with a confirmation.
pub proof fn law_counts_are_counts(params: Seq<Param>, source: Source)
    ensures
        from_source(params, source) == params.filter(|p: Param| p.source == source).len(),
        verified_count(params) == params.filter(|p: Param| p.verified@.len() > 0).len(),
    decreases params.len(),
{
    reveal(Seq::filter);
    if params.len() > 0 {
        law_counts_are_counts(params.drop_last(), source);
    }
}

/// What is said of a parameter: its line, where it is known from, then a line for each
/// corroboration, for each confirmation and for its notes, in their order.
pub proof fn law_each_remark_has_its_line(param: Param, i: int)
    ensures
        ({
            let lines = param_lines(param);
            let c = param.corroborations@.len() as int;
            let v = param.verified@.len() as int;
            &&& lines.len() == 2 + c + v + if param.notes is Some {
                1int
            } else {
                0
            }
            &&& lines[0] == inventory_line(param)
            &&& lines[1] == "    from "@ + param.source.name() + " — "@ + param.source_ref@
            &&& 0 <= i < c ==> lines[2 + i] == "    corroborated by: "@ + param.corroborations@[i]@
            &&& 0 <= i < v ==> text::occurs(param.verified@[i].date@, lines[2 + c + i])
                && text::occurs(param.verified@[i].firmware@, lines[2 + c + i]) && text::occurs(
                param.verified@[i].method.name(),
                lines[2 + c + i],
            )
            &&& param.notes matches Some(notes) ==> lines.last() == "    "@ + notes@
        }),
{
    let lines = param_lines(param);
    let c = param.corroborations@.len() as int;
    let v = param.verified@.len() as int;
    if 0 <= i < v {
        let x = param.verified@[i];
        let line = lines[2 + c + i];
        assert(line == verified_line(x));
        let a = "    verified "@;
        let b = " on firmware "@;
        let d = " by "@;
        assert(line.subrange(a.len() as int, (a + x.date@).len() as int) =~= x.date@);
        let at = (a + x.date@ + b).len() as int;
        assert(line.subrange(at, at + x.firmware@.len()) =~= x.firmware@);
        let by = (a + x.date@ + b + x.firmware@ + d).len() as int;
        assert(line.subrange(by, by + x.method.name().len()) =~= x.method.name());
    }
}

/// A source is told with how often it occurs exactly where it does.
pub proof fn law_each_source_is_counted(params: Seq<Param>)
    ensures
        ({
            let a = from_source(params, Source::AppRe);
            let d = from_source(params, Source::OfficialDoc);
            let p = from_source(params, Source::PanelCapture);
            let told = source_counts(params);
            &&& a > 0 ==> told.contains(text::dec(a) + " app_re"@)
            &&& d > 0 ==> told.contains(text::dec(d) + " official_doc"@)
            &&& p > 0 ==> told.contains(text::dec(p) + " panel_capture"@)
            &&& told.len() == (if a > 0 {
                1int
            } else {
                0
            }) + (if d > 0 {
                1int
            } else {
                0
            }) + (if p > 0 {
                1int
            } else {
                0
            })
        }),
{
    reveal_strlit(" ");
    reveal_strlit("app_re");
    reveal_strlit(" app_re");
    reveal_strlit("official_doc");
    reveal_strlit(" official_doc");
    reveal_strlit("panel_capture");
    reveal_strlit(" panel_capture");
    let a = from_source(params, Source::AppRe);
    let d = from_source(params, Source::OfficialDoc);
    let p = from_source(params, Source::PanelCapture);
    let told = source_counts(params);
    assert(text::dec(a) + " "@ + "app_re"@ =~= text::dec(a) + " app_re"@);
    assert(text::dec(d) + " "@ + "official_doc"@ =~= text::dec(d) + " official_doc"@);
    assert(text::dec(p) + " "@ + "panel_capture"@ =~= text::dec(p) + " panel_capture"@);
    let first: int = if a > 0 {
        1
    } else {
        0
    };
    let second: int = if d > 0 {
        first + 1
    } else {
        first
    };
    if a > 0 {
        assert(told[0] == text::dec(a) + " app_re"@);
    }
    if d > 0 {
        assert(told[first] == text::dec(d) + " official_doc"@);
    }
    if p > 0 {
        assert(told[second] == text::dec(p) + " panel_capture"@);
    }
}

proof fn lemma_all_param_lines(params: Seq<Param>, i: int)
    requires
        0 <= i < params.len(),
    ensures
        all_param_lines(params).contains(inventory_line(params[i])),
    decreases params.len(),
{
    let before = all_param_lines(params.drop_last());
    let last = param_lines(params.last());
    let line = inventory_line(params[i]);
    let all = all_param_lines(params);
    assert(all == before + last);
    if i == params.len() - 1 {
        assert(last[0] == line);
        assert(all[before.len() as int] == line);
    } else {
        lemma_all_param_lines(params.drop_last(), i);
        let k = choose|k: int| 0 <= k < before.len() && before[k] == line;
        assert(all[k] == line);
    }
}

/// What is said of a map begins with the device and where the map is from, then its
/// model and its ID. Every parameter has its line, and the last line tells how many
/// there are, how many were verified and how many examples there are.
#[verifier::spinoff_prover]
pub proof fn law_map_is_told(map: AddressMap, path: Seq<char>, i: int)
    ensures
        ({
            let lines = map_lines(map, path);
            let name = map.device.name@;
            let end = lines.last();
            let n = text::dec(map.params@.len()).len() as int;
            &&& lines[0].take(name.len() as int) == name
            &&& lines[0].skip(lines[0].len() - path.len()) == path
            &&& text::occurs("model "@ + hex::spaced_hex_of(map.device.model_id@), lines[1])
            &&& text::occurs(
                "device id "@ + text::hex2(map.device.device_id_default, true),
                lines[1],
            )
            &&& 0 <= i < map.params@.len() ==> lines.contains(inventory_line(map.params@[i]))
            &&& end.take(n) == text::dec(map.params@.len())
            &&& text::occurs("("@ + text::joined(source_counts(map.params@), " + "@) + ")"@, end)
            &&& text::occurs(
                ", "@ + text::dec(verified_count(map.params@)) + " verified"@,
                end,
            )
            &&& text::occurs(", "@ + text::dec(map.examples@.len()) + " example frames"@, end)
        }),
{
    let lines = map_lines(map, path);
    let name = map.device.name@;
    lemma_head_lines(map, path);
    lemma_last_line(map, path);
    if 0 <= i < map.params@.len() {
        lemma_all_param_lines(map.params@, i);
        let line = inventory_line(map.params@[i]);
        let all = all_param_lines(map.params@);
        let head = seq![lines[0], lines[1]] + optional_line(""@, map.notice) + with_prefix(
            "corroborated by: "@,
            text::texts(map.device.corroborations@),
        ) + seq![""@];
        let k = choose|k: int| 0 <= k < all.len() && all[k] == line;
        assert(lines[head.len() + k] == line);
    }
}

#[verifier::spinoff_prover]
proof fn lemma_head_lines(map: AddressMap, path: Seq<char>)
    ensures
        ({
            let lines = map_lines(map, path);
            let name = map.device.name@;
            &&& lines[0].take(name.len() as int) == name
            &&& lines[0].skip(lines[0].len() - path.len()) == path
            &&& text::occurs("model "@ + hex::spaced_hex_of(map.device.model_id@), lines[1])
            &&& text::occurs(
                "device id "@ + text::hex2(map.device.device_id_default, true),
                lines[1],
            )
        }),
{
    reveal_strlit(", device id ");
    reveal_strlit("device id ");
    let lines = map_lines(map, path);
    let name = map.device.name@;
    assert(lines[0] == name + " — "@ + path);
    assert(lines[0].take(name.len() as int) =~= name);
    assert(lines[0].skip(lines[0].len() - path.len()) =~= path);
    let model = "model "@ + hex::spaced_hex_of(map.device.model_id@);
    let id = "device id "@ + text::hex2(map.device.device_id_default, true);
    let line = model + ", device id "@ + text::hex2(map.device.device_id_default, true) + ", "@
        + "roland7"@ + " checksum"@;
    assert(lines[1] == line);
    assert(line.subrange(0int, 0int + model.len()) =~= model);
    let a = model.len() as int + 2;
    assert(line.subrange(a, a + id.len()) =~= id);
}

#[verifier::spinoff_prover]
proof fn lemma_last_line(map: AddressMap, path: Seq<char>)
    ensures
        ({
            let end = map_lines(map, path).last();
            let n = text::dec(map.params@.len()).len() as int;
            &&& end.take(n) == text::dec(map.params@.len())
            &&& text::occurs("("@ + text::joined(source_counts(map.params@), " + "@) + ")"@, end)
            &&& text::occurs(
                ", "@ + text::dec(verified_count(map.params@)) + " verified"@,
                end,
            )
            &&& text::occurs(", "@ + text::dec(map.examples@.len()) + " example frames"@, end)
        }),
{
    reveal_strlit(" parameters (");
    reveal_strlit("(");
    reveal_strlit(")");
    reveal_strlit("), ");
    reveal_strlit(", ");
    reveal_strlit(" verified");
    reveal_strlit(" verified on hardware, ");
    reveal_strlit(" example frames");
    reveal_strlit(" example frames, no problems");
    let end = map_lines(map, path).last();
    let count = text::dec(map.params@.len());
    let sources = text::joined(source_counts(map.params@), " + "@);
    let verified = text::dec(verified_count(map.params@));
    let examples = text::dec(map.examples@.len());
    assert(end == count + " parameters ("@ + sources + "), "@ + verified
        + " verified on hardware, "@ + examples + " example frames, no problems"@);
    let n = count.len() as int;
    assert(end.take(n) =~= count);
    let from = "("@ + sources + ")"@;
    let a = n + 12;
    assert(end.subrange(a, a + from.len()) =~= from);
    let sure = ", "@ + verified + " verified"@;
    let b = a + from.len();
    assert(end.subrange(b, b + sure.len()) =~= sure);
    let shown = ", "@ + examples + " example frames"@;
    let c = b + sure.len() + 12;
    assert(end.subrange(c, c + shown.len()) =~= shown);
}

} // verus!
