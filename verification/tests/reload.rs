use ot_turbolaser::cli::{ModeSel, ProtoSel};
use ot_turbolaser::pcapio::{Capture, OwnedPacket};
use ot_turbolaser::proto::mutators::{all, for_protocol};
use ot_turbolaser::proto::testutil::build_tcp;
use ot_turbolaser::proto::Protocol;
use ot_turbolaser::reload::dissect::round_verdict;
use ot_turbolaser::reload::pipeline::{forge_round, ReloadOptions};
use ot_turbolaser::reload::{mode_name, parse_seed, proto_filter, round_seed, round_stem};
use pcap_file::pcap::PcapHeader;
use std::time::Duration;

#[test]
fn parses_hex_and_decimal_seeds() {
    assert_eq!(parse_seed(None).unwrap(), 0);
    assert_eq!(parse_seed(Some("255")).unwrap(), 255);
    assert_eq!(parse_seed(Some("0xff")).unwrap(), 255);
    assert_eq!(parse_seed(Some("0xC0FFEE")).unwrap(), 0xC0FFEE);
    assert!(parse_seed(Some("nope")).is_err());
}

#[test]
fn proto_filter_maps_each_selector() {
    assert_eq!(proto_filter(ProtoSel::Auto), None);
    assert_eq!(proto_filter(ProtoSel::Modbus), Some(Protocol::Modbus));
    assert_eq!(proto_filter(ProtoSel::Enip), Some(Protocol::Enip));
    assert_eq!(proto_filter(ProtoSel::S7), Some(Protocol::S7));
    assert_eq!(proto_filter(ProtoSel::Dnp3), Some(Protocol::Dnp3));
}

fn tiny_capture() -> Capture {
    // A benign non-IP frame; a round only needs a readable capture to forge.
    let mut frame = vec![
        0xff, 0xff, 0xff, 0xff, 0xff, 0xff, 0x02, 0, 0, 0, 0, 1, 0x88, 0xcc,
    ];
    frame.extend(std::iter::repeat_n(0u8, 46));
    Capture {
        header: PcapHeader::default(),
        packets: vec![OwnedPacket {
            ts: Duration::new(1, 0),
            orig_len: frame.len() as u32,
            data: frame,
        }],
    }
}

#[test]
fn rounds_are_named_by_place_and_seed() {
    let base = parse_seed(Some("0x10")).unwrap();
    assert_eq!(round_stem("modbus", 0, round_seed(base, 0)), "modbus__v0001__seed-10");
    assert_eq!(round_stem("modbus", 1, round_seed(base, 1)), "modbus__v0002__seed-11");
    assert_eq!(mode_name(ModeSel::RedLaser), "red_laser");
    assert_eq!(mode_name(ModeSel::GreenLaser), "green_laser");
}

#[test]
fn a_round_keeps_what_no_mutator_serves() {
    let src = tiny_capture();
    let opts = ReloadOptions { remap_l3: false, hints: vec![], mutators: all() };
    let (out, res) = forge_round(&src, 0x10, &opts);
    assert_eq!(out.packets.len(), 1);
    assert_eq!(out.packets[0].data, src.packets[0].data);
    assert_eq!(res.frames, 1);
    assert!(res.mutations.is_empty());
    assert!(res.l3.is_none());
}

#[test]
fn a_round_is_a_function_of_its_seed() {
    let adu = [0x00, 0x01, 0x00, 0x00, 0x00, 0x06, 5, 0x03, 0x00, 0x00, 0x00, 0x0a];
    let frame = build_tcp([10, 0, 0, 1], [10, 0, 0, 2], 5000, 502, &adu);
    let mut src = tiny_capture();
    src.packets[0].data = frame;
    let opts = ReloadOptions {
        remap_l3: true,
        hints: vec![],
        mutators: for_protocol(Some(Protocol::Modbus)),
    };
    let (a, ra) = forge_round(&src, 7, &opts);
    let (b, _) = forge_round(&src, 7, &opts);
    let (c, _) = forge_round(&src, 8, &opts);
    assert_eq!(a.packets[0].data, b.packets[0].data);
    assert_ne!(a.packets[0].data, c.packets[0].data);
    assert_eq!(ra.mutations.len(), 1);
    assert_eq!(ra.l3.unwrap().host_count, 2);
}

#[test]
fn a_dissected_round_is_refused_with_its_frames() {
    assert!(round_verdict("", " \n").is_ok());
    assert_eq!(round_verdict("1\n7\n", "3").unwrap_err(), "malformed frames: 1,7");
    assert_eq!(round_verdict("\n", "3\n").unwrap_err(), "bad checksums in frames: 3");
}
