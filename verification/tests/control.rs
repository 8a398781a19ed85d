use piano_midi::cli::{check_map, choose_codec, decode, exit_code, inventory, select_params};
use piano_midi::hex::{hex, parse_hex, parse_hex_field};
use piano_midi::map::{
    hex_byte, is_identifier, AddressMap, ChecksumKind, Device, Encoding, Example, Method, Param,
    Range, Source, Value, Verification,
};
use piano_midi::online::{
    current, identity, read, read_param, reading_of, watch, Apply, Ask, Diff, Next, Reading,
    Survey, Todo, Verdict, Want,
};
use piano_midi::profile::{Decision, Profile, Reason, Step, Written};
use piano_midi::render::frame;
use piano_midi::seq::FrameBatch;
use piano_midi::sysex::{Address, IdentityReply, Incoming, Request};
use serde_json::Value as Json;
use std::collections::BTreeMap;

// Maps and profiles from their texts.

fn text(v: &Json) -> String {
    v.as_str().expect("a text").to_string()
}

fn texts(v: &Json) -> Vec<String> {
    v.as_array().map_or(Vec::new(), |list| list.iter().map(text).collect())
}

fn optional(v: &Json) -> Option<String> {
    v.as_str().map(String::from)
}

fn address(v: &Json) -> Option<Address> {
    v.as_str().map(|s| Address::parse(s).expect("an address"))
}

fn source_named(name: &str) -> Source {
    match name {
        "official_doc" => Source::OfficialDoc,
        "app_re" => Source::AppRe,
        "panel_capture" => Source::PanelCapture,
        other => panic!("no source {other}"),
    }
}

fn method_named(name: &str) -> Method {
    match name {
        "panel_capture" => Method::PanelCapture,
        "rq1_roundtrip" => Method::Rq1Roundtrip,
        "write_readback" => Method::WriteReadback,
        other => panic!("no method {other}"),
    }
}

fn encoding_named(name: &str) -> Encoding {
    match name {
        "u7" => Encoding::U7,
        "u14" => Encoding::U14,
        "raw" => Encoding::Raw,
        other => panic!("no encoding {other}"),
    }
}

fn param_from(v: &Json) -> Param {
    Param {
        name: text(&v["name"]),
        read_address: address(&v["read_address"]),
        write_address: address(&v["write_address"]),
        size: v["size"].as_u64().expect("a size") as u8,
        encoding: encoding_named(&text(&v["encoding"])),
        labels: v["enum"].as_object().map_or(BTreeMap::new(), |labels| {
            labels.iter().map(|(k, l)| (k.parse().expect("a key"), text(l))).collect()
        }),
        range: v["range"].as_object().map(|r| Range {
            min: r["min"].as_u64().expect("a number") as u32,
            max: r["max"].as_u64().expect("a number") as u32,
        }),
        verify_with: optional(&v["verify_with"]),
        source: source_named(&text(&v["source"])),
        source_ref: text(&v["source_ref"]),
        corroborations: texts(&v["corroborations"]),
        verified: v["verified"].as_array().map_or(Vec::new(), |list| {
            list.iter()
                .map(|c| Verification {
                    firmware: text(&c["firmware"]),
                    date: text(&c["date"]),
                    method: method_named(&text(&c["method"])),
                })
                .collect()
        }),
        notes: optional(&v["notes"]),
    }
}

fn map_from(json: &str) -> AddressMap {
    let v: Json = serde_json::from_str(json).expect("valid JSON");
    let device = &v["device"];
    let field = |name: &str| parse_hex_field(&text(&device[name])).expect("hex bytes");
    AddressMap {
        schema: text(&v["schema"]),
        notice: optional(&v["notice"]),
        device: Device {
            name: text(&device["name"]),
            identity_family: field("identity_family"),
            identity_member: field("identity_member"),
            model_id: field("model_id"),
            device_id_default: hex_byte(&text(&device["device_id_default"])).expect("a byte"),
            checksum: ChecksumKind::Roland7,
            corroborations: texts(&device["corroborations"]),
        },
        params: v["params"].as_array().expect("parameters").iter().map(param_from).collect(),
        examples: v["examples"].as_array().map_or(Vec::new(), |list| {
            list.iter()
                .map(|e| Example { frame: text(&e["frame"]), note: text(&e["note"]) })
                .collect()
        }),
    }
}

fn profile_from(source: &str) -> Result<Profile, String> {
    let table: toml::Table = source.parse().expect("valid TOML");
    let mut entries = Vec::new();
    for (name, value) in table {
        match value {
            toml::Value::Integer(n) => entries.push((name, Written::Num(n))),
            toml::Value::String(s) => entries.push((name, Written::Text(s))),
            _ => return Err(format!("{name}: neither a number nor a text")),
        }
    }
    Ok(Profile::from_entries(entries))
}

fn map_json(params: &str, examples: &str) -> String {
    format!(
        r#"{{
          "schema": "roland-sysex-map/v0",
          "device": {{
            "name": "Test", "identity_family": "19 03", "identity_member": "00 00",
            "model_id": "00 00 00 28", "device_id_default": "10", "checksum": "roland7"
          }},
          "params": [{params}],
          "examples": [{examples}]
        }}"#
    )
}

fn param_json(fields: &str) -> String {
    format!(r#"{{"source": "app_re", "source_ref": "test", {fields}}}"#)
}

fn parse(params: &str, examples: &str) -> AddressMap {
    map_from(&map_json(params, examples))
}

fn problems(params: &str, examples: &str) -> Vec<String> {
    parse(params, examples).validate()
}

const STATUS: &str = r#""name": "metronome_status", "read_address": "01 00 01 0F",
                        "size": 1, "encoding": "u7", "enum": {"0": "off", "1": "on"}"#;
const SWITCH: &str = r#""name": "metronome_switch", "write_address": "01 00 03 1A",
                        "size": 1, "encoding": "u7", "enum": {"0": "off", "1": "on"},
                        "verify_with": "metronome_status""#;

// The consistency of a map.

#[test]
fn a_consistent_map_has_no_problems() {
    let params = format!("{}, {}", param_json(STATUS), param_json(SWITCH));
    let example = r#"{"frame": "f0 41 10 00 00 00 28 11 01 00 01 0f 00 00 00 01 6e f7",
                      "note": "metronome status request"}"#;
    assert_eq!(problems(&params, example), Vec::<String>::new());
    assert!(AddressMap::load(parse(&params, example), "map.json").is_ok());
}

#[test]
fn duplicate_names_are_caught() {
    let params = format!("{}, {}", param_json(STATUS), param_json(STATUS));
    assert!(
        problems(&params, "").iter().any(|p| p.contains("duplicate parameter name")),
        "expected a duplicate-name problem"
    );
}

#[test]
fn two_parameters_cannot_claim_one_address() {
    let twin = r#""name": "metronome_state", "read_address": "01 00 01 0F",
                   "size": 1, "encoding": "u7""#;
    let params = format!("{}, {}", param_json(STATUS), param_json(twin));
    assert!(
        problems(&params, "").iter().any(|p| p.contains("is also claimed by")),
        "expected a same-address problem"
    );

    let writer = r#""name": "metronome_poke", "write_address": "01 00 01 0F",
                    "size": 1, "encoding": "u7""#;
    let crossed = format!("{}, {}", param_json(STATUS), param_json(writer));
    assert!(
        problems(&crossed, "").iter().any(|p| p.contains("is also claimed by")),
        "expected a read/write cross-claim problem"
    );
}

#[test]
fn one_parameter_may_read_and_write_the_same_address() {
    let params = param_json(
        r#""name": "master_volume", "read_address": "01 00 02 13",
           "write_address": "01 00 02 13", "size": 1, "encoding": "u7""#,
    );
    assert_eq!(problems(&params, ""), Vec::<String>::new());
}

#[test]
fn a_label_naming_two_values_is_caught() {
    let params = param_json(
        r#""name": "metronome_status", "read_address": "01 00 01 0F", "size": 1,
           "encoding": "u7", "enum": {"0": "off", "1": "on", "2": "on"}"#,
    );
    assert!(
        problems(&params, "").iter().any(|p| p.contains("names more than one value")),
        "expected a duplicate-label problem"
    );
}

#[test]
fn the_rules_the_published_schema_states_are_enforced_here_too() {
    let bad_name = param_json(
        r#""name": "Tone For Single!!", "read_address": "01 00 02 07", "size": 3,
           "encoding": "raw""#,
    );
    assert!(
        problems(&bad_name, "").iter().any(|p| p.contains("snake_case")),
        "expected a name problem"
    );

    let huge = param_json(
        r#""name": "tone", "read_address": "01 00 02 07", "size": 200, "encoding": "raw""#,
    );
    assert!(
        problems(&huge, "").iter().any(|p| p.contains("size must be")),
        "expected a size problem"
    );

    let vague = param_json(&format!(
        r#"{STATUS}, "verified": [{{"firmware": "1C 01 00 00", "date": "yesterday",
           "method": "rq1_roundtrip"}}]"#
    ));
    assert!(
        problems(&vague, "").iter().any(|p| p.contains("not a real YYYY-MM-DD date")),
        "expected a date problem"
    );
}

#[test]
fn size_must_match_the_encoding() {
    let params = param_json(
        r#""name": "tempo", "read_address": "01 00 01 08", "size": 1, "encoding": "u14""#,
    );
    assert!(
        problems(&params, "").iter().any(|p| p.contains("does not match")),
        "expected a size/encoding problem"
    );
}

#[test]
fn an_entry_without_any_address_is_useless() {
    let params = param_json(r#""name": "nowhere", "size": 1, "encoding": "u7""#);
    assert!(
        problems(&params, "").iter().any(|p| p.contains("neither a read nor a write")),
        "expected a missing-address problem"
    );
}

#[test]
fn a_range_beyond_the_encoding_is_caught() {
    let params = param_json(
        r#""name": "loud", "read_address": "01 00 02 13", "size": 1, "encoding": "u7",
           "range": {"min": 0, "max": 500}"#,
    );
    assert!(
        problems(&params, "").iter().any(|p| p.contains("range max")),
        "expected a range problem"
    );
}

#[test]
fn a_label_outside_its_range_is_caught() {
    let params = param_json(
        r#""name": "loud", "read_address": "01 00 02 13", "size": 1, "encoding": "u7",
           "enum": {"0": "silent", "101": "too_loud"}, "range": {"min": 0, "max": 100}"#,
    );
    let found = problems(&params, "");
    assert!(found.iter().any(|p| p.contains("outside range")), "{found:?}");
}

#[test]
fn identity_family_and_member_are_two_bytes() {
    for (from, to) in [
        ("\"identity_family\": \"19 03\"", "\"identity_family\": \"19\""),
        ("\"identity_member\": \"00 00\"", "\"identity_member\": \"00 00 00\""),
    ] {
        let json = map_json(&param_json(STATUS), "").replacen(from, to, 1);
        let found = map_from(&json).validate();
        assert!(found.iter().any(|p| p.contains("exactly 2 bytes")), "{found:?}");
    }
}

#[test]
fn a_read_back_partner_must_exist_and_be_readable() {
    let missing = param_json(
        r#""name": "metronome_switch", "write_address": "01 00 03 1A", "size": 1,
           "encoding": "u7", "enum": {"1": "on"}, "verify_with": "nope""#,
    );
    assert!(
        problems(&missing, "").iter().any(|p| p.contains("unknown \"nope\"")),
        "expected a missing-partner problem"
    );

    let write_only_partner = format!(
        "{}, {}",
        param_json(SWITCH),
        param_json(
            r#""name": "metronome_status", "write_address": "01 00 01 0F", "size": 1,
               "encoding": "u7", "enum": {"0": "off", "1": "on"}"#
        )
    );
    assert!(
        problems(&write_only_partner, "").iter().any(|p| p.contains("cannot be read")),
        "expected an unreadable-partner problem"
    );

    let unnamed_partner = format!(
        "{}, {}",
        param_json(SWITCH),
        param_json(
            r#""name": "metronome_status", "read_address": "01 00 01 0F", "size": 1,
               "encoding": "u7""#
        )
    );
    assert!(
        problems(&unnamed_partner, "").iter().any(|p| p.contains("needs labels on both")),
        "expected a missing-labels problem"
    );

    let redundant = param_json(
        r#""name": "master_volume", "read_address": "01 00 02 13",
           "write_address": "01 00 02 13", "size": 1, "encoding": "u7",
           "enum": {"0": "silent"}, "verify_with": "master_volume""#,
    );
    assert!(
        problems(&redundant, "").iter().any(|p| p.contains("redundant")),
        "expected a redundant-verify_with problem"
    );
}

#[test]
fn a_date_that_could_not_happen_is_not_a_date() {
    let params = param_json(&format!(
        r#"{STATUS}, "verified": [{{"firmware": "1C 01 00 00", "date": "2026-13-45",
           "method": "rq1_roundtrip"}}]"#
    ));
    assert!(
        problems(&params, "").iter().any(|p| p.contains("not a real YYYY-MM-DD date")),
        "expected a date problem"
    );
}

#[test]
fn the_names_read_from_data_are_the_names_printed_back() {
    for name in ["official_doc", "app_re", "panel_capture"] {
        assert_eq!(source_named(name).as_str(), name);
    }
    for name in ["panel_capture", "rq1_roundtrip", "write_readback"] {
        assert_eq!(method_named(name).as_str(), name);
    }
    for name in ["u7", "u14", "raw"] {
        assert_eq!(encoding_named(name).to_text(), name);
    }
    assert_eq!(ChecksumKind::Roland7.as_str(), "roland7");
}

#[test]
fn examples_are_re_checksummed_not_trusted() {
    let example = r#"{"frame": "f0 41 10 00 00 00 28 11 01 00 01 0f 00 00 00 01 60 f7",
                      "note": "bad checksum"}"#;
    let found = problems(&param_json(STATUS), example);
    assert!(found.iter().any(|p| p.contains("checksum")), "{found:?}");
}

#[test]
fn examples_must_address_a_known_parameter() {
    let example = r#"{"frame": "f0 41 10 00 00 00 28 12 01 00 07 07 01 70 f7",
                      "note": "unmapped address"}"#;
    let found = problems(&param_json(STATUS), example);
    assert!(found.iter().any(|p| p.contains("no parameter claims")), "{found:?}");
}

#[test]
fn every_problem_is_reported_in_order() {
    let json = r#"{
      "schema": "other",
      "device": {
        "name": "Test", "identity_family": "19", "identity_member": "00 80",
        "model_id": "FF 80", "device_id_default": "90", "checksum": "roland7"
      },
      "params": []
    }"#;
    assert_eq!(
        map_from(json).validate(),
        vec![
            "schema is \"other\", expected \"roland-sysex-map/v0\"",
            "device.model_id byte 0xff is not 7-bit",
            "device.identity_member byte 0x80 is not 7-bit",
            "device.identity_family must contain exactly 2 bytes, got 1",
            "device.device_id_default is not 7-bit",
            "no parameters",
        ]
    );
    assert_eq!(
        AddressMap::load(map_from(json), "some/map.json").unwrap_err().lines().next(),
        Some("some/map.json is inconsistent:")
    );

    let params = [
        r#""name": "A", "size": 0, "encoding": "u7", "verified": [
            {"firmware": " \t", "date": "2026-02-30", "method": "panel_capture"}]"#,
        r#""name": "b", "read_address": "01 02 03 04", "write_address": "01 02 03 04", "size": 17,
            "encoding": "raw", "enum": {"1": "x"}, "range": {"min": 1, "max": 2}"#,
        r#""name": "c", "read_address": "01 02 03 04", "write_address": "01 02 03 05", "size": 2,
            "encoding": "u7", "enum": {"200": "x", "3": "y", "130": "y"},
            "range": {"min": 300, "max": 150}"#,
        r#""name": "b", "write_address": "01 02 03 04", "size": 1, "encoding": "u7",
            "verify_with": "A""#,
    ]
    .map(param_json)
    .join(", ");
    let examples = r#"
        {"frame": "F0 F7 ", "note": "n\"1"},
        {"frame": "F0 7E 7F 06 01 F7", "note": "n2"},
        {"frame": "F0 41 10 00 00 00 28 12 01 02 03 04 05 71 F7", "note": "n3"},
        {"frame": "F0 41 10 00 00 00 28 11 01 02 03 05 00 00 00 01 74 F7", "note": "n4"},
        {"frame": "F0 41 10 00 00 00 28 11 01 02 03 06 00 00 00 01 73 F7", "note": "n5"}"#;
    assert_eq!(
        problems(&params, examples),
        vec![
            "A: name is not lowercase snake_case",
            "A: has neither a read nor a write address",
            "A: size must be 1..=16",
            "A: size 0 does not match u7 (1 byte(s))",
            "A: verified on \"2026-02-30\", which is not a real YYYY-MM-DD date",
            "A: a verification without a firmware revision has no scope",
            "b: size must be 1..=16",
            "b: raw values cannot be labelled",
            "b: raw values cannot have a range",
            "c: address 01 02 03 04 is also claimed by b",
            "c: size 2 does not match u7 (1 byte(s))",
            "c: label key 130 exceeds the encoding's 127",
            "c: label \"y\" names more than one value",
            "c: range 300..=150 is inverted",
            "c: range max 150 exceeds 127",
            "c: label key 3 is outside range 300..=150",
            "b: duplicate parameter name",
            "b: address 01 02 03 04 is also claimed by c",
            "b: verify_with \"A\" cannot be read",
            "example \"n\\\"1\": \"F0 F7 \" is not whole hex bytes separated by single spaces",
            "example \"n2\": is not a DT1 or RQ1 for this device",
            "example \"n3\": writes 1 byte(s) to b, which is 17 byte(s)",
            "example \"n4\": reads 1 byte(s) from c, which is 2 byte(s)",
            "example \"n5\": reads 01 02 03 06, which no parameter claims",
        ]
    );
}

#[test]
fn identifiers_are_lowercase_words() {
    for good in ["a", "master_volume", "a1_2"] {
        assert!(is_identifier(good), "{good}");
    }
    for bad in ["", "A", "1a", "_a", "a-b", "aé", "a b"] {
        assert!(!is_identifier(bad), "{bad}");
    }
    assert_eq!(hex_byte("7F"), Ok(0x7F));
    assert_eq!(hex_byte("01 02"), Err("expected one hex byte, got 2".to_string()));
    assert!(hex_byte("1 0").is_err());
}

// Values.

#[test]
fn values_round_trip_through_their_encoding() {
    assert_eq!(Encoding::U7.decode(&[100]), Some(Value::Num(100)));
    assert_eq!(Encoding::U14.decode(&[0, 96]), Some(Value::Num(96)));
    assert_eq!(Encoding::U14.decode(&[3, 116]), Some(Value::Num(500)));
    assert_eq!(Encoding::U14.encode(&Value::Num(500)), Some(vec![3, 116]));
    assert_eq!(Encoding::U7.encode(&Value::Num(128)), None);
    assert_eq!(Encoding::U7.decode(&[1, 2]), None);
}

#[test]
fn every_number_of_an_encoding_reads_back() {
    for n in 0..=16383u32 {
        let bytes = Encoding::U14.encode(&Value::Num(n)).unwrap();
        assert_eq!(Encoding::U14.decode(&bytes), Some(Value::Num(n)));
    }
    assert_eq!(Encoding::U14.encode(&Value::Num(16384)), None);
    assert_eq!(Encoding::U14.encode(&Value::Raw(vec![1, 2])), None);
    assert_eq!(Encoding::Raw.encode(&Value::Num(1)), None);
    assert_eq!(Encoding::Raw.encode(&Value::Raw(vec![1, 0x80])), None);
    assert_eq!(Encoding::Raw.encode(&Value::Raw(vec![1, 2])), Some(vec![1, 2]));
    assert_eq!(Encoding::Raw.decode(&[1, 0x80]), Some(Value::Raw(vec![1, 0x80])));
    assert_eq!(
        [Encoding::U7, Encoding::U14, Encoding::Raw].map(|e| (e.size(), e.ceiling())),
        [(Some(1), Some(127)), (Some(2), Some(16383)), (None, None)]
    );
}

#[test]
fn labelled_parameters_accept_only_their_labels() {
    let map = parse(&param_json(STATUS), "");
    let status = map.param("metronome_status").unwrap();
    assert!(status.accepts(&Value::Num(1)).is_ok());
    assert!(status.accepts(&Value::Num(2)).is_err());
    assert_eq!(status.show(&Value::Num(1)), "on (1)");
    assert_eq!(status.show(&Value::Num(9)), "9");
}

#[test]
fn a_ranged_parameter_accepts_its_whole_range() {
    let params = param_json(
        r#""name": "master_volume", "read_address": "01 00 02 13", "write_address": "01 00 02 13",
           "size": 1, "encoding": "u7", "range": {"min": 0, "max": 100}"#,
    );
    let map = parse(&params, "");
    let volume = map.param("master_volume").unwrap();
    assert!(volume.accepts(&Value::Num(100)).is_ok());
    assert!(volume.accepts(&Value::Num(101)).is_err());
}

#[test]
fn a_value_that_is_not_taken_is_explained() {
    let map = map_from(MAP);
    let volume = map.param("master_volume").unwrap();
    let tone = map.param("tone_for_single").unwrap();
    let switch = map.param("metronome_switch").unwrap();
    assert_eq!(volume.accepts(&Value::Num(101)), Err("outside 0..=100".to_string()));
    assert_eq!(
        switch.accepts(&Value::Num(3)),
        Err("not one of off(0), on(1), on_request_next_start(2)".to_string())
    );
    assert_eq!(
        tone.accepts(&Value::Raw(vec![1, 0x80, 0xFF])),
        Err("byte 0x80 is not 7-bit".to_string())
    );
    assert_eq!(
        tone.accepts(&Value::Raw(vec![1])),
        Err("does not fit raw in 3 byte(s)".to_string())
    );
    assert_eq!(
        tone.accepts(&Value::Num(1)),
        Err("does not fit raw in 3 byte(s)".to_string())
    );
    assert_eq!(tone.show(&Value::Raw(vec![1, 0xAB])), "01 AB");
    assert_eq!(tone.label(&Value::Raw(vec![1])), None);
    assert_eq!(switch.label(&Value::Num(2)), Some("on_request_next_start"));
    assert_eq!(switch.value_of("on"), Some(1));
    assert_eq!(switch.value_of("ON"), None);
    assert_eq!(volume.label_list(), "");
    assert_eq!(volume.decode(&[1, 2]), None);
    assert_eq!(volume.encode(&Value::Num(5)), Some(vec![5]));
}

#[test]
fn parameters_are_found_by_name_and_place() {
    let map = map_from(MAP);
    let at = |s: &str| map.param_at(Address::parse(s).unwrap()).map(|p| p.name.as_str());
    assert_eq!(at("01 00 01 0F"), Some("metronome_status"));
    assert_eq!(at("01 00 03 1A"), Some("metronome_switch"));
    assert_eq!(at("01 00 00 00"), None);
    assert!(map.param("nonesuch").is_none());
    assert_eq!(map.readable("master_volume").unwrap().name, "master_volume");
    assert_eq!(
        map.readable("nonesuch").unwrap_err(),
        "no parameter named \"nonesuch\" in the map"
    );
    assert_eq!(
        map.readable("metronome_switch").unwrap_err(),
        "metronome_switch has no read address; try metronome_status"
    );
    // One that is read at an address goes before one that is written there.
    let both = format!(
        "{}, {}",
        param_json(r#""name": "w", "write_address": "01 02 03 04", "size": 1, "encoding": "u7""#),
        param_json(r#""name": "r", "read_address": "01 02 03 04", "size": 1, "encoding": "u7""#)
    );
    let map = parse(&both, "");
    assert_eq!(map.param_at(Address::parse("01 02 03 04").unwrap()).unwrap().name, "r");
    assert_eq!(map.readable("w").unwrap_err(), "w has no read address");
}

// Profiles.

const MAP: &str = r#"{
  "schema": "roland-sysex-map/v0",
  "device": {
    "name": "Test", "identity_family": "19 03", "identity_member": "00 00",
    "model_id": "00 00 00 28", "device_id_default": "10", "checksum": "roland7"
  },
  "params": [
    {"name": "metronome_status", "read_address": "01 00 01 0F", "size": 1, "encoding": "u7",
     "enum": {"0": "off", "1": "on"}, "source": "app_re", "source_ref": "test"},
    {"name": "metronome_switch", "write_address": "01 00 03 1A", "size": 1, "encoding": "u7",
     "enum": {"0": "off", "1": "on", "2": "on_request_next_start"},
     "verify_with": "metronome_status", "source": "app_re", "source_ref": "test"},
    {"name": "master_volume", "read_address": "01 00 02 13", "write_address": "01 00 02 13",
     "size": 1, "encoding": "u7", "range": {"min": 0, "max": 100},
     "source": "app_re", "source_ref": "test"},
    {"name": "tone_for_single", "read_address": "01 00 02 07", "write_address": "01 00 02 07",
     "size": 3, "encoding": "raw", "source": "app_re", "source_ref": "test"}
  ]
}"#;

fn plan<'m>(map: &'m AddressMap, source: &str) -> Result<Vec<Step<'m>>, String> {
    profile_from(source).expect("a profile").plan(map)
}

#[test]
fn resolves_labels_numbers_and_raw_bytes() {
    let map = map_from(MAP);
    let steps = plan(
        &map,
        r#"
        metronome_switch = "on"
        master_volume = 80
        tone_for_single = "01 00 44"
        "#,
    )
    .expect("a resolvable profile");
    let by_name: BTreeMap<_, _> = steps.iter().map(|s| (s.param.name.as_str(), s)).collect();
    assert_eq!(by_name["metronome_switch"].desired, Value::Num(1));
    assert_eq!(by_name["master_volume"].desired, Value::Num(80));
    assert_eq!(by_name["tone_for_single"].desired, Value::Raw(vec![0x01, 0x00, 0x44]));
    assert_eq!(hex(by_name["master_volume"].frame()), "f04110000000281201000213501af7");
}

#[test]
fn every_unusable_key_is_reported_at_once() {
    let map = map_from(MAP);
    let e = plan(
        &map,
        r#"
        metronome_status = "on"
        master_volume = 200
        nonesuch = 1
        "#,
    )
    .expect_err("three unusable keys");
    assert!(e.contains("metronome_status: is read-only"), "{e}");
    assert!(e.contains("master_volume: 200 outside 0..=100"), "{e}");
    assert!(e.contains("nonesuch: no such parameter"), "{e}");
    assert_eq!(
        e,
        "master_volume: 200 outside 0..=100\nmetronome_status: is read-only\nnonesuch: no such parameter in the map"
    );
}

#[test]
fn a_value_that_is_not_a_value_is_explained() {
    let map = map_from(MAP);
    let negative = plan(&map, "master_volume = -3").expect_err("no negative values");
    assert!(negative.contains("master_volume: -3 is negative"), "{negative}");

    let too_large = plan(&map, "master_volume = 99999999999").expect_err("no values above u32");
    assert!(
        too_large.contains("99999999999 is too large; maximum is 4294967295"),
        "{too_large}"
    );

    let wrong_type = profile_from("master_volume = true").expect_err("not a value");
    assert!(wrong_type.contains("master_volume"), "{wrong_type}");
}

#[test]
fn an_unknown_label_names_the_ones_that_exist() {
    let map = map_from(MAP);
    let e = plan(&map, r#"metronome_switch = "maybe""#).expect_err("no such label");
    assert!(e.contains("off(0), on(1), on_request_next_start(2)"), "{e}");
}

#[test]
fn a_text_without_labels_or_bytes_is_explained() {
    let map = map_from(MAP);
    assert_eq!(
        plan(&map, r#"master_volume = "loud""#).unwrap_err(),
        "master_volume: \"loud\" is not a number"
    );
    assert_eq!(
        plan(&map, r#"tone_for_single = "0x""#).unwrap_err(),
        "tone_for_single: not a hex digit: 'x'"
    );
    assert_eq!(
        plan(&map, r#"tone_for_single = "01 00""#).unwrap_err(),
        "tone_for_single: 01 00 does not fit raw in 3 byte(s)"
    );
    assert_eq!(
        plan(&map, "metronome_switch = 7").unwrap_err(),
        "metronome_switch: 7 not one of off(0), on(1), on_request_next_start(2)"
    );
}

#[test]
fn a_profile_is_in_the_order_of_its_names() {
    let map = map_from(MAP);
    let profile = Profile::from_entries(vec![
        ("tone_for_single".into(), Written::Text("010203".into())),
        ("metronome_switch".into(), Written::Num(2)),
        ("master_volume".into(), Written::Num(1)),
        ("metronome_switch".into(), Written::Num(0)),
    ]);
    let steps = profile.plan(&map).unwrap();
    let got: Vec<(&str, Value)> =
        steps.iter().map(|s| (s.param.name.as_str(), s.desired.clone())).collect();
    assert_eq!(
        got,
        vec![
            ("master_volume", Value::Num(1)),
            ("metronome_switch", Value::Num(0)),
            ("tone_for_single", Value::Raw(vec![1, 2, 3])),
        ]
    );
}

#[test]
fn a_step_writes_what_it_wants() {
    let map = map_from(MAP);
    for step in plan(&map, "master_volume = 80\ntone_for_single = \"01 00 44\"").unwrap() {
        match map.codec().decode(step.frame()) {
            Ok(Incoming::Dt1 { device_id, addr, data }) => {
                assert_eq!(device_id, 0x10);
                assert_eq!(Some(addr), step.param.write_address);
                assert_eq!(step.param.decode(&data), Some(step.desired));
            }
            other => panic!("{other:?}"),
        }
    }
}

#[test]
fn a_readable_parameter_is_compared_directly() {
    let map = map_from(MAP);
    let steps = plan(&map, "master_volume = 80").unwrap();
    let step = &steps[0];
    assert_eq!(step.current_from.map(|p| p.name.as_str()), Some("master_volume"));
    assert_eq!(step.decide(Some(&Value::Num(80))), Decision::InSync);
    assert_eq!(step.decide(Some(&Value::Num(50))), Decision::Write(Reason::Differs));
    assert_eq!(step.decide(None), Decision::Write(Reason::Unknown));
}

#[test]
fn a_write_only_parameter_is_compared_through_its_partner() {
    let map = map_from(MAP);
    let steps = plan(&map, r#"metronome_switch = "on""#).unwrap();
    let step = &steps[0];
    assert_eq!(step.current_from.map(|p| p.name.as_str()), Some("metronome_status"));
    assert_eq!(step.decide(Some(&Value::Num(1))), Decision::InSync);
    assert_eq!(step.decide(Some(&Value::Num(0))), Decision::Write(Reason::Differs));
}

#[test]
fn a_value_the_partner_cannot_name_is_not_called_in_sync() {
    let map = map_from(MAP);
    let steps = plan(&map, r#"metronome_switch = "on_request_next_start""#).unwrap();
    assert_eq!(
        steps[0].decide(Some(&Value::Num(1))),
        Decision::Write(Reason::NotComparable)
    );
    // Nor is one that the partner reads but has no name for.
    assert_eq!(
        steps[0].decide(Some(&Value::Num(9))),
        Decision::Write(Reason::NotComparable)
    );
}

// Frames as lines.

const ONE: &str = r#"{
  "schema": "roland-sysex-map/v0",
  "device": {
    "name": "Test", "identity_family": "19 03", "identity_member": "00 00",
    "model_id": "00 00 00 28", "device_id_default": "10", "checksum": "roland7"
  },
  "params": [
    {"name": "metronome_status", "read_address": "01 00 01 0F", "size": 1, "encoding": "u7",
     "enum": {"0": "off", "1": "on"}, "source": "app_re", "source_ref": "test"}
  ]
}"#;

fn line(frame_hex: &str) -> String {
    let map = map_from(ONE);
    let codec = map.codec();
    let raw = parse_hex(frame_hex).expect("hex");
    let decoded = codec.decode(&raw);
    frame(&map, &codec, &raw, decoded)
}

#[test]
fn a_known_address_is_named_and_its_value_read() {
    let out = line("f0 41 10 00 00 00 28 12 01 00 01 0F 01 6E F7");
    assert!(out.starts_with("dt1 01 00 01 0F  metronome_status = on (1)  [01]"), "{out}");
    assert!(out.ends_with("f0411000000028120100010f016ef7"), "{out}");
    assert_eq!(
        out,
        format!(
            "dt1 {:<54} f0411000000028120100010f016ef7",
            "01 00 01 0F  metronome_status = on (1)  [01]"
        )
    );
}

#[test]
fn an_address_the_map_does_not_know_says_so() {
    let out = line("f0 41 10 00 00 00 28 12 01 00 07 07 01 70 F7");
    assert!(out.contains("unmapped  [01]"), "{out}");
}

#[test]
fn a_reply_the_map_cannot_decode_shows_the_bytes_and_the_disagreement() {
    let out = line("f0 41 10 00 00 00 28 12 01 00 01 0F 00 01 6E F7");
    assert!(
        out.contains("metronome_status = ?  [00 01] (the map says 1 byte(s))"),
        "{out}"
    );
}

#[test]
fn an_unexpected_device_id_is_called_out() {
    let out = line("f0 41 00 00 00 00 28 12 01 00 01 0F 01 6E F7");
    assert!(out.contains("(device id 00)"), "{out}");
}

#[test]
fn the_expectation_follows_the_device_that_was_addressed() {
    let map = map_from(ONE);
    let codec = map.codec().with_device_id(0x00);
    let broadcast = parse_hex("f0 41 00 00 00 00 28 12 01 00 01 0F 01 6E F7").unwrap();
    let addressed = parse_hex("f0 41 10 00 00 00 28 12 01 00 01 0F 01 6E F7").unwrap();
    let decoded = codec.decode(&broadcast);
    assert!(!frame(&map, &codec, &broadcast, decoded).contains("device id"));
    let decoded = codec.decode(&addressed);
    assert!(frame(&map, &codec, &addressed, decoded).contains("(device id 10)"));
}

#[test]
fn a_broken_frame_reports_why_instead_of_a_value() {
    let out = line("f0 41 10 00 00 00 28 12 01 00 01 0F 01 00 F7");
    assert!(out.starts_with("!!  checksum 0x00, computed 0x6e"), "{out}");
}

#[test]
fn a_request_shows_what_it_asks_for() {
    let out = line("f0 41 10 00 00 00 28 11 01 00 01 0F 00 00 00 01 6E F7");
    assert!(
        out.starts_with("rq1 01 00 01 0F  metronome_status (1 byte(s) requested)"),
        "{out}"
    );
}

#[test]
fn an_identity_reply_keeps_the_revision_whole() {
    let out = line("f0 7e 10 06 02 41 19 03 00 00 1c 01 00 00 f7");
    assert!(
        out.contains("manufacturer 41 (Roland)")
            && out.contains("family 19 03")
            && out.contains("revision 1C 01 00 00"),
        "{out}"
    );
}

#[test]
fn another_manufacturer_is_not_dressed_up_as_this_device() {
    let out = line("f0 43 10 4c 00 00 7e 00 f7");
    assert!(out.contains("not this device's dialect"), "{out}");
}

// Asking.

const STATUS_ON: &str = "f0 41 10 00 00 00 28 12 01 00 01 0F 01 6E F7";
const VOLUME_80: &str = "f0 41 10 00 00 00 28 12 01 00 02 13 50 1a f7";

fn batch(frames: &[&str]) -> FrameBatch {
    FrameBatch { frames: frames.iter().map(|f| parse_hex(f).unwrap()).collect(), error: None }
}

#[test]
fn a_request_is_sent_twice_before_silence_is_the_answer() {
    let map = map_from(MAP);
    let codec = map.codec();
    let status = map.param("metronome_status").unwrap();
    let mut ask = read_param(&codec, status).unwrap();
    assert_eq!(ask.send_line(), "--> f0411000000028110100010f000000016ef7");
    let (next, lines) = ask.take(&map, &codec, FrameBatch::default());
    assert!(matches!(next, Next::Send) && lines.is_empty());
    let (next, _) = ask.take(&map, &codec, FrameBatch::default());
    match next {
        Next::Answer(None) => {}
        other => panic!("{other:?}"),
    }
    assert!(matches!(reading_of(status, None), Reading::Silent));
    assert!(read_param(&codec, map.param("metronome_switch").unwrap()).is_none());
}

#[test]
fn only_the_first_frame_that_was_asked_for_is_the_answer() {
    let map = map_from(MAP);
    let codec = map.codec();
    let status = map.param("metronome_status").unwrap();
    let mut ask = read_param(&codec, status).unwrap();
    let (next, lines) = ask.take(&map, &codec, batch(&[VOLUME_80]));
    assert!(matches!(next, Next::Wait));
    assert!(lines[0].starts_with("dt1 01 00 02 13  master_volume = 80  [50]"), "{lines:?}");
    let (next, lines) = ask.take(&map, &codec, batch(&[VOLUME_80, STATUS_ON, STATUS_ON]));
    assert_eq!(lines.len(), 3);
    assert_eq!(lines[1], "<-- f0411000000028120100010f016ef7");
    assert!(lines[2].starts_with("dt1 "), "{lines:?}");
    match next {
        Next::Answer(reply) => match reading_of(status, reply) {
            Reading::Got(value) => assert_eq!(value, Value::Num(1)),
            other => panic!("{other:?}"),
        },
        other => panic!("{other:?}"),
    }
}

#[test]
fn an_error_goes_before_an_answer() {
    let map = map_from(MAP);
    let codec = map.codec();
    let mut ask = Ask::new(Request::identity(), Want::Identity);
    assert_eq!(ask.request().bytes(), Request::identity().bytes());
    let mut last = batch(&["f0 7e 10 06 02 41 19 03 00 00 1c 01 00 00 f7"]);
    last.error = Some("gone".into());
    match ask.take(&map, &codec, last) {
        (Next::Fail(e), lines) => {
            assert_eq!(e, "gone");
            assert!(lines[0].starts_with("<-- f07e"), "{lines:?}");
        }
        (other, _) => panic!("{other:?}"),
    }
}

#[test]
fn an_identity_is_compared_with_the_map() {
    let map = map_from(MAP);
    let reply = |family| {
        Incoming::IdentityReply(IdentityReply {
            device_id: 0x10,
            manufacturer: 0x41,
            family,
            member: [0, 0],
            revision: [0x1C, 1, 0, 0],
        })
    };
    assert_eq!(identity(&map, Some(Incoming::Foreign)).1, Ok(false));
    assert_eq!(
        identity(&map, None),
        (vec!["no identity reply after 2 requests".to_string()], Ok(false))
    );
    let said = "manufacturer 41 (Roland)  family 19 03  member 00 00  revision 1C 01 00 00";
    assert_eq!(
        identity(&map, Some(reply([0x19, 0x03]))),
        (vec![said.to_string(), "matches the map's Test".to_string()], Ok(true))
    );
    let (lines, outcome) = identity(&map, Some(reply([0x19, 0x04])));
    assert_eq!(lines.len(), 1);
    assert_eq!(
        outcome,
        Err("this is not a Test: the map expects family 19 03, member 00 00".to_string())
    );
}

#[test]
fn readings_are_put_in_words() {
    let map = map_from(MAP);
    let volume = map.param("master_volume").unwrap();
    assert_eq!(
        read(volume, &Reading::Got(Value::Num(80))),
        ("master_volume      80".to_string(), true)
    );
    assert_eq!(
        read(volume, &Reading::Undecodable(vec![1, 2])),
        (
            "master_volume      answered [01 02], which the map cannot decode as 1 byte(s) of u7"
                .to_string(),
            false
        )
    );
    assert_eq!(
        read(volume, &Reading::Silent),
        ("master_volume      no response after 2 requests".to_string(), false)
    );
    assert_eq!(
        read(volume, &Reading::Unreadable),
        ("master_volume      not readable".to_string(), false)
    );
    let raw = parse_hex(VOLUME_80).unwrap();
    let said = watch(&map, &map.codec(), "12:00:00.000", &raw);
    assert!(said.starts_with("12:00:00.000  dt1 01 00 02 13  master_volume = 80"), "{said}");
}

#[test]
fn a_survey_succeeds_where_every_parameter_answers() {
    let map = map_from(MAP);
    let names = vec!["master_volume".to_string(), "metronome_status".to_string()];
    let params = select_params(&map, &names).unwrap();

    let mut survey = Survey::new(&params);
    assert_eq!(survey.next().map(|p| p.name.as_str()), Some("master_volume"));
    assert_eq!(survey.read(&Reading::Got(Value::Num(80))), "master_volume      80");
    assert_eq!(survey.next().map(|p| p.name.as_str()), Some("metronome_status"));
    assert_eq!(survey.read(&Reading::Got(Value::Num(1))), "metronome_status   on (1)");
    assert!(survey.next().is_none());
    assert!(survey.finish());

    for miss in [Reading::Silent, Reading::Unreadable, Reading::Undecodable(vec![])] {
        let mut survey = Survey::new(&params);
        survey.read(&miss);
        survey.read(&Reading::Got(Value::Num(1)));
        assert!(survey.next().is_none());
        assert!(!survey.finish());
    }
    assert!(Survey::new(&Vec::new()).finish());
}

#[test]
fn numbers_in_the_range_of_a_parameter_are_accepted() {
    let mut volume = params_of(MAP, "master_volume");
    volume.range = Some(Range { min: 3, max: 5 });
    volume.labels = BTreeMap::new();
    for n in 0..200 {
        assert_eq!(volume.accepts(&Value::Num(n)).is_ok(), (3..=5).contains(&n));
    }
    volume.range = None;
    for n in 0..200 {
        assert_eq!(volume.accepts(&Value::Num(n)).is_ok(), n <= 127);
    }
}

fn params_of(text: &str, name: &str) -> Param {
    map_from(text).params.into_iter().find(|p| p.name == name).expect("a parameter")
}

#[test]
fn a_comparison_counts_what_differs() {
    let map = map_from(MAP);
    let steps = plan(&map, "master_volume = 80\nmetronome_switch = \"on\"").unwrap();
    let mut diff = Diff::new(&steps);
    assert_eq!(diff.next(), Some(0));
    assert_eq!(
        diff.diff(&Reading::Got(Value::Num(50))),
        format!(
            "{:<18} want {:<22} current {:<34} {}",
            "master_volume", "80", "50", "would send f04110000000281201000213501af7"
        )
    );
    assert_eq!(diff.next(), Some(1));
    assert_eq!(
        diff.diff(&Reading::Got(Value::Num(1))),
        format!(
            "{:<18} want {:<22} current {:<34} {}",
            "metronome_switch", "on (1)", "on (1) via metronome_status", "in sync"
        )
    );
    assert_eq!(diff.next(), None);
    assert_eq!(
        diff.finish(),
        (
            "2 parameter(s): 1 differ, 0 could not be compared, 1 in sync; no write was sent (only the reads above went out)"
                .to_string(),
            true
        )
    );
}

#[test]
fn a_comparison_with_silence_is_not_complete() {
    let map = map_from(MAP);
    let steps = plan(&map, "master_volume = 80\nmetronome_switch = 2").unwrap();
    let mut diff = Diff::new(&steps);
    let said = diff.diff(&Reading::Silent);
    assert!(said.contains("unknown (no response after 2 requests)"), "{said}");
    assert!(said.ends_with("  (current state unknown)"), "{said}");
    let said = diff.diff(&Reading::Got(Value::Num(1)));
    assert!(said.ends_with("  (no read-back name for this value)"), "{said}");
    let (line, complete) = diff.finish();
    assert!(line.starts_with("2 parameter(s): 0 differ, 2 could not be compared, 0 in sync;"));
    assert!(!complete);
}

#[test]
fn a_value_is_written_only_where_it_differs_and_read_back() {
    let map = map_from(MAP);
    let steps = plan(&map, "master_volume = 80\nmetronome_switch = \"on\"").unwrap();
    let mut apply = Apply::new(&steps);
    assert!(matches!(apply.next(), Todo::Read(0)));
    match apply.apply(&Reading::Got(Value::Num(80))) {
        Verdict::Already(said) => assert_eq!(said, "master_volume      already 80"),
        other => panic!("{other:?}"),
    }
    assert!(matches!(apply.next(), Todo::Read(1)));
    match apply.apply(&Reading::Got(Value::Num(0))) {
        Verdict::Send(said) => assert_eq!(said, format!("--> {}", hex(steps[1].frame()))),
        other => panic!("{other:?}"),
    }
    for _ in 0..8 {
        assert!(matches!(apply.next(), Todo::Read(1)));
        assert!(matches!(apply.apply(&Reading::Got(Value::Num(0))), Verdict::Again));
    }
    match apply.apply(&Reading::Got(Value::Num(1))) {
        Verdict::Confirmed(said) => assert_eq!(
            said,
            format!(
                "{:<18} want {:<22} now {:<34} confirmed",
                "metronome_switch", "on (1)", "on (1) via metronome_status"
            )
        ),
        other => panic!("{other:?}"),
    }
    assert!(matches!(apply.next(), Todo::Done(true)));
    assert_eq!(
        apply.finish(),
        "2 parameter(s): 1 already in sync, 1 written and confirmed"
    );
}

#[test]
fn an_unconfirmed_write_stops_the_rest() {
    let map = map_from(MAP);
    let steps = plan(&map, "master_volume = 80\nmetronome_switch = \"on\"").unwrap();
    let mut apply = Apply::new(&steps);
    assert!(matches!(apply.apply(&Reading::Silent), Verdict::Send(_)));
    for _ in 0..9 {
        assert!(matches!(apply.apply(&Reading::Silent), Verdict::Again));
    }
    match apply.apply(&Reading::Unreadable) {
        Verdict::Unconfirmed(said, stop) => {
            assert!(said.ends_with("sent, not confirmed"), "{said}");
            assert_eq!(stop, "stopping after an unconfirmed write; 1 step(s) not attempted");
        }
        other => panic!("{other:?}"),
    }
    assert!(matches!(apply.next(), Todo::Done(false)));
}

#[test]
fn the_present_value_is_asked_for_where_it_can_be_read() {
    let map = map_from(MAP);
    let codec = map.codec();
    let steps = plan(&map, "master_volume = 80\nmetronome_switch = \"on\"").unwrap();
    assert_eq!(
        hex(current(&codec, &steps[0]).unwrap().request().bytes()),
        "f041100000002811010002130000000169f7"
    );
    // The partner is asked.
    assert_eq!(
        hex(current(&codec, &steps[1]).unwrap().request().bytes()),
        "f0411000000028110100010f000000016ef7"
    );
}

// The commands that need no device.

#[test]
fn an_inconsistent_map_stops_the_command_that_would_use_it() {
    let tempo = param_json(
        r#""name": "tempo", "read_address": "01 00 01 08", "size": 2, "encoding": "u14""#,
    );
    let sound = map_json(&tempo, "");
    assert!(AddressMap::load(map_from(&sound), "map.json").is_ok());
    let broken = sound.replacen(r#""size": 2,"#, r#""size": 1,"#, 1);
    let outcome = AddressMap::load(map_from(&broken), "map.json").map(|_| true);
    assert_eq!(exit_code(&outcome), 2);
    assert!(outcome.unwrap_err().contains("does not match u14"));
}

#[test]
fn a_malformed_frame_fails_the_run_and_says_why() {
    let map = map_from(MAP);
    let (lines, ok) = decode(&map, &map.codec(), &vec!["f0411000000028120100010f0100f7".into()]);
    assert_eq!(exit_code(&Ok(ok)), 1);
    assert!(lines[0].contains("checksum"), "{lines:?}");
}

#[test]
fn one_unreadable_argument_does_not_swallow_the_others() {
    let map = map_from(MAP);
    let good = "f0411000000028120100010f016ef7";
    let (lines, ok) = decode(&map, &map.codec(), &vec![good.into(), "zz".into(), good.into()]);
    assert_eq!(exit_code(&Ok(ok)), 1);
    assert_eq!(
        lines.iter().filter(|l| l.contains("metronome_status = on")).count(),
        2,
        "both good frames should still be decoded: {lines:?}"
    );
    assert!(lines[1].contains("not a hex digit"), "{lines:?}");
    assert_eq!(lines[1], format!("!!  {:<54} zz", "not a hex digit: 'z'"));
}

#[test]
fn a_frame_from_another_device_is_understood_not_failed() {
    let map = map_from(MAP);
    let (lines, ok) = decode(&map, &map.codec(), &vec!["f043104c00007e00f7".into()]);
    assert_eq!(exit_code(&Ok(ok)), 0);
    assert!(lines[0].contains("not this device's dialect"), "{lines:?}");
}

#[test]
fn the_device_id_is_one_seven_bit_byte() {
    let map = map_from(MAP);
    assert_eq!(choose_codec(&map, None).unwrap().device_id(), 0x10);
    assert_eq!(choose_codec(&map, Some("0 0")).unwrap().device_id(), 0x00);
    for bad in ["80", "0102", ""] {
        assert_eq!(
            choose_codec(&map, Some(bad)).unwrap_err(),
            format!("--device-id takes one 7-bit hex byte, got {bad:?}")
        );
    }
    assert_eq!(choose_codec(&map, Some("x")).unwrap_err(), "not a hex digit: 'x'");
}

#[test]
fn the_first_parameter_that_cannot_be_read_is_named() {
    let map = map_from(MAP);
    let names: Vec<&str> = select_params(&map, &vec!["master_volume".into(), "metronome_status".into()])
        .unwrap()
        .iter()
        .map(|p| p.name.as_str())
        .collect();
    assert_eq!(names, vec!["master_volume", "metronome_status"]);
    assert_eq!(
        select_params(
            &map,
            &vec!["master_volume".into(), "metronome_switch".into(), "nonesuch".into()]
        )
        .unwrap_err(),
        "metronome_switch has no read address; try metronome_status"
    );
}

#[test]
fn a_map_is_described() {
    let json = r#"{
      "schema": "roland-sysex-map/v0", "notice": "careful",
      "device": {
        "name": "Test", "identity_family": "19 03", "identity_member": "00 00",
        "model_id": "00 00 00 28", "device_id_default": "0A", "checksum": "roland7",
        "corroborations": ["a manual"]
      },
      "params": [
        {"name": "a", "read_address": "01 00 01 0F", "write_address": "01 00 01 10", "size": 1,
         "encoding": "u7", "enum": {"1": "on", "0": "off"}, "source": "panel_capture",
         "source_ref": "here", "corroborations": ["there"], "notes": "a note",
         "verified": [{"firmware": "1C", "date": "2026-01-02", "method": "write_readback"}]},
        {"name": "b", "write_address": "01 00 01 11", "size": 2, "encoding": "u14",
         "range": {"min": 1, "max": 2}, "source": "app_re", "source_ref": "r"},
        {"name": "c", "read_address": "01 00 01 12", "size": 3, "encoding": "raw",
         "source": "app_re", "source_ref": "s"}
      ]
    }"#;
    let map = map_from(json);
    assert_eq!(
        check_map(&map, "map.json"),
        vec![
            "Test — map.json",
            "model 00 00 00 28, device id 0A, roland7 checksum",
            "careful",
            "corroborated by: a manual",
            "",
            "a                  rw 01 00 01 0F (writes 01 00 01 10)  1 × u7  off(0), on(1)  [verified]",
            "    from panel_capture — here",
            "    corroborated by: there",
            "    verified 2026-01-02 on firmware 1C by write_readback",
            "    a note",
            "b                  -w 01 00 01 11  2 × u14  1..=2  [unverified]",
            "    from app_re — r",
            "c                  r- 01 00 01 12  3 × raw  [unverified]",
            "    from app_re — s",
            "",
            "3 parameters (2 app_re + 1 panel_capture), 1 verified on hardware, 0 example frames, no problems",
        ]
    );
    let nowhere = parse(&param_json(r#""name": "n", "size": 1, "encoding": "u7""#), "");
    assert_eq!(
        inventory(&nowhere.params[0]),
        "n                  ??   1 × u7  [unverified]"
    );
}
