use piano_midi::hex::{hex, parse_hex, parse_hex_field, spaced_hex};
use piano_midi::sysex::{
    checksum, join7, split7, Address, Codec, DecodeError, IdentityReply, Incoming, Reassembler,
    Request, F0, F7, MAX_FRAME,
};

const MASTER_VOLUME_100_DT1: &str = "f0 41 10 00 00 00 28 12 01 00 02 13 64 06 f7";
const CONNECTION_DT1: &str = "f0 41 10 00 00 00 28 12 01 00 03 06 01 75 f7";
const METRONOME_STATUS_RQ1: &str = "f0 41 10 00 00 00 28 11 01 00 01 0f 00 00 00 01 6e f7";
const TEMPO_RQ1: &str = "f0 41 10 00 00 00 28 11 01 00 01 08 00 00 00 02 74 f7";
const MASTER_VOLUME_RQ1: &str = "f0 41 10 00 00 00 28 11 01 00 02 13 00 00 00 01 69 f7";
const IDENTITY_REPLY_FRAME: &str = "f0 7e 10 06 02 41 19 03 00 00 1c 01 00 00 f7";

fn codec() -> Codec {
    Codec::new(vec![0x00, 0x00, 0x00, 0x28], 0x10)
}

fn addr(s: &str) -> Address {
    Address::parse(s).unwrap()
}

fn bytes(s: &str) -> Vec<u8> {
    parse_hex(s).unwrap()
}

fn flood() -> Vec<u8> {
    [F0].into_iter().chain(std::iter::repeat_n(0x01, MAX_FRAME + 1)).collect()
}

#[test]
fn checksum_completes_the_sum_to_a_multiple_of_128() {
    for target in 0..1024u32 {
        let mut payload = Vec::new();
        let mut rest = target;
        while rest > 0 {
            let b = rest.min(0x7F);
            payload.push(b as u8);
            rest -= b;
        }
        assert_eq!((target + u32::from(checksum(&payload))) % 128, 0, "sum {target}");
    }
    assert_eq!(checksum(&[0x00]), 0x00);
    assert_eq!(checksum(&[0x40, 0x40]), 0x00);
}

#[test]
fn rq1_reproduces_documented_requests() {
    let c = codec();
    assert_eq!(
        Request::read(&c, addr("01 00 01 0F"), 1).bytes(),
        bytes(METRONOME_STATUS_RQ1)
    );
    assert_eq!(Request::read(&c, addr("01 00 01 08"), 2).bytes(), bytes(TEMPO_RQ1));
    assert_eq!(
        Request::read(&c, addr("01 00 02 13"), 1).bytes(),
        bytes(MASTER_VOLUME_RQ1)
    );
}

#[test]
fn dt1_reproduces_documented_writes() {
    let c = codec();
    assert_eq!(c.dt1(addr("01 00 02 13"), &[100]), bytes(MASTER_VOLUME_100_DT1));
    assert_eq!(c.dt1(addr("01 00 03 06"), &[1]), bytes(CONNECTION_DT1));
}

#[test]
fn identity_request_is_the_universal_broadcast() {
    assert_eq!(Request::identity().bytes(), bytes("f0 7e 7f 06 01 f7"));
}

#[test]
fn decodes_documented_frames() {
    let c = codec();
    assert_eq!(
        c.decode(&bytes(MASTER_VOLUME_100_DT1)),
        Ok(Incoming::Dt1 {
            device_id: 0x10,
            addr: addr("01 00 02 13"),
            data: vec![100],
        })
    );
    assert_eq!(
        c.decode(&bytes(TEMPO_RQ1)),
        Ok(Incoming::Rq1 {
            device_id: 0x10,
            addr: addr("01 00 01 08"),
            size: 2,
        })
    );
    assert_eq!(
        c.decode(&bytes(IDENTITY_REPLY_FRAME)),
        Ok(Incoming::IdentityReply(IdentityReply {
            device_id: 0x10,
            manufacturer: 0x41,
            family: [0x19, 0x03],
            member: [0x00, 0x00],
            revision: [0x1C, 0x01, 0x00, 0x00],
        }))
    );
}

#[test]
fn rejects_a_frame_whose_checksum_does_not_hold() {
    let mut frame = bytes(MASTER_VOLUME_100_DT1);
    let sum = frame.len() - 2;
    frame[sum] = 0x07;
    assert_eq!(
        codec().decode(&frame),
        Err(DecodeError::Checksum { found: 0x07, computed: 0x06 })
    );
}

#[test]
fn other_devices_stay_foreign_rather_than_being_misread() {
    let c = codec();
    assert_eq!(c.decode(&bytes("f0 41 10 42 12 40 00 7f 00 41 f7")), Ok(Incoming::Foreign));
    assert_eq!(c.decode(&bytes("f0 43 10 4c 00 00 7e 00 f7")), Ok(Incoming::Foreign));
    assert_eq!(c.decode(&bytes("f0 7f 7f 04 01 00 64 f7")), Ok(Incoming::Foreign));
    assert_eq!(c.decode(&bytes("f0 7e 7f 06 01 f7")), Ok(Incoming::Foreign));
    assert_eq!(
        c.decode(&bytes("f0 7e 10 06 02 00 20 33 19 03 00 00 1c 01 00 00 f7")),
        Ok(Incoming::Foreign)
    );
}

#[test]
fn a_torn_identity_reply_is_not_classified_as_foreign() {
    assert_eq!(
        codec().decode(&bytes("f0 7e 10 06 02 41 19 03 f7")),
        Err(DecodeError::Truncated)
    );
}

#[test]
fn every_torn_identity_reply_is_truncated() {
    let whole = bytes(IDENTITY_REPLY_FRAME);
    for kept in 1..13 {
        let mut torn = whole[..1 + kept].to_vec();
        torn.push(F7);
        assert_eq!(codec().decode(&torn), Err(DecodeError::Truncated), "{kept}");
    }
}

#[test]
fn no_torn_frame_of_ours_is_foreign() {
    let whole = bytes(MASTER_VOLUME_100_DT1);
    for kept in 1..whole.len() - 1 {
        let mut torn = whole[..1 + kept].to_vec();
        torn.push(F7);
        assert_ne!(codec().decode(&torn), Ok(Incoming::Foreign), "{kept}");
    }
}

#[test]
fn rejects_malformed_frames() {
    let c = codec();
    assert_eq!(c.decode(&bytes("41 10 00")), Err(DecodeError::NotAFrame));
    assert_eq!(
        c.decode(&bytes("f0 41 10 00 00 00 28 12 01 00 02 f7")),
        Err(DecodeError::Truncated)
    );
    assert_eq!(
        c.decode(&bytes("f0 41 10 00 00 00 28 13 01 00 02 13 64 06 f7")),
        Err(DecodeError::UnknownCommand(0x13))
    );
    assert_eq!(
        c.decode(&bytes("f0 41 10 00 00 00 28 12 01 00 02 13 f8 06 f7")),
        Err(DecodeError::NonDataByte(0xF8))
    );
}

#[test]
fn a_read_request_with_a_short_size_is_truncated() {
    let mut frame = vec![0xF0, 0x41, 0x10, 0x00, 0x00, 0x00, 0x28, 0x11];
    let checked = [0x01, 0x00, 0x01, 0x08, 0x00, 0x02];
    frame.extend(checked);
    frame.push(checksum(&checked));
    frame.push(0xF7);
    assert_eq!(codec().decode(&frame), Err(DecodeError::Truncated));
    assert_eq!(codec().decode(&[0xF0, 0xF7]), Err(DecodeError::Truncated));
}

#[test]
fn errors_are_put_in_words() {
    assert_eq!(DecodeError::NotAFrame.to_text(), "not an F0..F7 frame");
    assert_eq!(DecodeError::Truncated.to_text(), "frame ends mid-field");
    assert_eq!(
        DecodeError::NonDataByte(0xF8).to_text(),
        "byte 0xf8 inside the frame is not 7-bit"
    );
    assert_eq!(
        DecodeError::Checksum { found: 0x07, computed: 0x06 }.to_text(),
        "checksum 0x07, computed 0x06"
    );
    assert_eq!(
        DecodeError::UnknownCommand(0x13).to_text(),
        "unknown Roland command 0x13"
    );
}

#[test]
fn written_frames_are_read_back() {
    let c = codec().with_device_id(0x00);
    assert_eq!(c.device_id(), 0x00);
    let frame = c.dt1(addr("7F 7F 7F 7F"), &[0, 127, 64]);
    assert_eq!(
        c.decode(&frame),
        Ok(Incoming::Dt1 {
            device_id: 0x00,
            addr: addr("7F 7F 7F 7F"),
            data: vec![0, 127, 64],
        })
    );
    for size in [0u32, 1, 127, 128, 16384, 0x0FFF_FFFF] {
        assert_eq!(
            c.decode(Request::read(&c, addr("01 00 01 08"), size).bytes()),
            Ok(Incoming::Rq1 { device_id: 0x00, addr: addr("01 00 01 08"), size })
        );
    }
    assert_eq!(Request::write(&frame).bytes(), frame);
}

#[test]
fn reassembles_frames_split_the_way_alsa_splits_them() {
    let mut r = Reassembler::default();
    let long: Vec<u8> = [F0]
        .into_iter()
        .chain(std::iter::repeat_n(0x01, 300))
        .chain([F7])
        .collect();
    assert!(r.push(&long[..256]).is_empty());
    assert_eq!(r.push(&long[256..]), vec![long.clone()]);
}

#[test]
fn reassembles_several_frames_from_one_chunk() {
    let mut r = Reassembler::default();
    let a = bytes(METRONOME_STATUS_RQ1);
    let b = bytes(TEMPO_RQ1);
    let joined: Vec<u8> = a.iter().chain(b.iter()).copied().collect();
    assert_eq!(r.push(&joined), vec![a, b]);
}

#[test]
fn a_new_start_abandons_a_torn_frame_and_counts_it() {
    let mut r = Reassembler::default();
    let good = bytes(TEMPO_RQ1);
    assert!(r.push(&bytes("f0 41 10 00 00")).is_empty());
    assert_eq!(r.push(&good), vec![good]);
    assert_eq!(r.abandoned(), 1);
}

#[test]
fn a_frame_without_end_is_dropped_rather_than_grown_without_bound() {
    let mut r = Reassembler::default();
    assert!(r.push(&flood()).is_empty());
    assert_eq!(r.abandoned(), 1);
    let good = bytes(TEMPO_RQ1);
    assert_eq!(r.push(&good), vec![good]);
}

#[test]
fn the_tail_of_an_abandoned_frame_is_not_counted_twice() {
    let mut r = Reassembler::default();
    assert!(r.push(&bytes("f0 41 10 00 00")).is_empty());
    r.abandon_open();
    assert!(r.push(&bytes("01 02 f7")).is_empty());
    assert_eq!(r.abandoned(), 1);

    assert!(r.push(&flood()).is_empty());
    assert!(r.push(&[0x01, F7]).is_empty());
    assert_eq!(r.abandoned(), 2);
}

#[test]
fn a_stray_terminator_is_a_lost_frame_not_a_non_event() {
    let mut r = Reassembler::default();
    assert!(r.push(&[F7]).is_empty());
    assert_eq!(r.abandoned(), 1);
}

#[test]
fn a_frame_may_be_cut_anywhere() {
    let a = bytes(METRONOME_STATUS_RQ1);
    let b = bytes(TEMPO_RQ1);
    let stream: Vec<u8> = a.iter().chain(b.iter()).copied().collect();
    for cut in 0..stream.len() {
        let mut r = Reassembler::default();
        let mut frames = r.push(&stream[..cut]);
        frames.extend(r.push(&stream[cut..]));
        assert_eq!(frames, vec![a.clone(), b.clone()], "{cut}");
        assert_eq!(r.abandoned(), 0);
    }
}

#[test]
fn giving_up_without_an_open_frame_changes_nothing() {
    let mut r = Reassembler::default();
    r.abandon_open();
    assert_eq!(r.abandoned(), 0);
    let good = bytes(TEMPO_RQ1);
    assert_eq!(r.push(&good), vec![good]);
}

#[test]
fn the_longest_frame_that_is_kept_comes_out() {
    let mut r = Reassembler::default();
    let longest: Vec<u8> = [F0]
        .into_iter()
        .chain(std::iter::repeat_n(0x01, MAX_FRAME - 1))
        .chain([F7])
        .collect();
    assert_eq!(r.push(&longest), vec![longest.clone()]);
    assert_eq!(r.abandoned(), 0);
}

#[test]
fn addresses_round_trip_through_their_text_form() {
    assert_eq!(addr("01 00 01 0F").to_text(), "01 00 01 0F");
    assert_eq!(addr("0100010f").bytes(), [0x01, 0x00, 0x01, 0x0F]);
    assert!(Address::parse("01 00 01").is_err());
    assert!(Address::parse("01 00 01 8F").is_err());
    assert!(Address::parse("0 100 010 F").is_err());
    assert!(Address::parse("01\t\t00 01 0F").is_err());
}

#[test]
fn a_bad_address_is_explained() {
    assert_eq!(
        Address::from_slice(&[1, 2, 3]),
        Err("an address is 4 bytes, got 3".to_string())
    );
    assert_eq!(
        Address::from_slice(&[1, 0x8F, 0xFF, 4]),
        Err("address byte 0x8f is not 7-bit".to_string())
    );
    assert!(addr("01 00 01 0F").same(&addr("0100 010f")));
    assert!(!addr("01 00 01 0F").same(&addr("01 00 01 0E")));
}

#[test]
fn sizes_span_four_seven_bit_bytes() {
    assert_eq!(split7(1), [0, 0, 0, 1]);
    assert_eq!(split7(128), [0, 0, 1, 0]);
    assert_eq!(join7(split7(300)), 300);
}

#[test]
fn sizes_read_back_below_two_to_the_28() {
    for v in [0u32, 127, 128, 16383, 16384, 2097151, 2097152, 0x0FFF_FFFF] {
        assert_eq!(join7(split7(v)), v);
    }
    assert_eq!(split7(0x1000_0000), [0, 0, 0, 0]);
    assert_eq!(join7([0x81, 0x82, 0x83, 0x84]), join7([1, 2, 3, 4]));
}

#[test]
fn hex_is_written_and_read() {
    assert_eq!(hex(&[0xF0, 0x0A, 0xFF]), "f00aff");
    assert_eq!(spaced_hex(&[0xF0, 0x0A, 0xFF]), "F0 0A FF");
    assert_eq!(hex(&[]), "");
    assert_eq!(spaced_hex(&[]), "");
    assert_eq!(parse_hex("F0\t0a\u{3000}f F"), Ok(vec![0xF0, 0x0A, 0xFF]));
    assert_eq!(parse_hex(""), Ok(vec![]));
    assert_eq!(parse_hex("0g"), Err("not a hex digit: 'g'".to_string()));
    assert_eq!(
        parse_hex("f 0 1"),
        Err("hex has an odd number of digits: \"f 0 1\"".to_string())
    );
    let all: Vec<u8> = (0..=255).collect();
    assert_eq!(parse_hex(&hex(&all)), Ok(all.clone()));
    assert_eq!(parse_hex_field(&spaced_hex(&all)), Ok(all));
}

#[test]
fn a_field_is_whole_bytes_and_single_spaces() {
    assert_eq!(parse_hex_field("01 0203"), Ok(vec![1, 2, 3]));
    for bad in ["", " ", "01  02", " 01", "01 ", "0 1", "01\t02", "012", "0x"] {
        assert_eq!(
            parse_hex_field(bad),
            Err(format!("{bad:?} is not whole hex bytes separated by single spaces"))
        );
    }
}

#[test]
fn where_the_stream_is_cut_does_not_matter() {
    let stream = [0xF7, 1, F0, 2, F0, 3, F7, F0, F7, 0xF7, F0, 4];
    let mut whole = Reassembler::default();
    let frames = whole.push(&stream);
    assert_eq!(frames, vec![vec![F0, 3, F7], vec![F0, F7]]);
    assert_eq!(whole.abandoned(), 3);
    let rest = whole.push(&[F7]);
    for cut in 0..=stream.len() {
        let mut parts = Reassembler::default();
        let mut came = parts.push(&stream[..cut]);
        came.extend(parts.push(&stream[cut..]));
        assert_eq!(came, frames);
        assert_eq!(parts.abandoned(), 3);
        assert_eq!(parts.push(&[F7]), rest);
    }
}
