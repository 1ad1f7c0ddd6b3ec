use ot_turbolaser::proto::crc;
use ot_turbolaser::proto::frame::{self, ParsedFrame};
use ot_turbolaser::proto::mapper::{Domain, SeededMapper};
use ot_turbolaser::proto::mutators::dnp3::Dnp3;
use ot_turbolaser::proto::mutators::enip::{Enip, CMD_LIST_IDENTITY, ITEM_CIP_IDENTITY};
use ot_turbolaser::proto::mutators::modbus::Modbus;
use ot_turbolaser::proto::mutators::s7comm::{
    COTP_CR, PARAM_CALLED_TSAP, PARAM_CALLING_TSAP, S7,
};
use ot_turbolaser::proto::testutil::build_tcp;
use ot_turbolaser::proto::OtMutator;

#[test]
fn consistent_within_capture() {
    let mut m = SeededMapper::from_seed(42);
    let a = m.map_u16(Domain::EnipVendor, 7);
    let b = m.map_u16(Domain::EnipVendor, 7);
    assert_eq!(a, b, "same input must map to the same output");
}

#[test]
fn deterministic_across_runs() {
    let mut m1 = SeededMapper::from_seed(1234);
    let mut m2 = SeededMapper::from_seed(1234);
    for orig in [1u32, 99, 7, 7, 256, 1] {
        assert_eq!(
            m1.map_u32(Domain::EnipSerial, orig),
            m2.map_u32(Domain::EnipSerial, orig)
        );
    }
}

#[test]
fn injective_within_domain() {
    let mut m = SeededMapper::from_seed(9);
    let mut seen = std::collections::HashSet::new();
    // 200 distinct origs into the 0..=255 space should stay distinct.
    for orig in 0u8..200 {
        let v = m.map_u8(Domain::ModbusUnitId, orig);
        assert!(seen.insert(v), "collision on remapped unit id {v}");
    }
}

#[test]
fn domains_are_independent() {
    let mut m = SeededMapper::from_seed(5);
    // Same orig in different domains may differ; both must be stable.
    let a1 = m.map_u16(Domain::S7ModuleId, 10);
    let b1 = m.map_u16(Domain::Dnp3Addr, 10);
    assert_eq!(a1, m.map_u16(Domain::S7ModuleId, 10));
    assert_eq!(b1, m.map_u16(Domain::Dnp3Addr, 10));
}

fn dnp3_header(dest: u16, src: u16) -> Vec<u8> {
    let mut h = vec![0x05, 0x64, 0x05, 0xC4];
    h.extend_from_slice(&dest.to_le_bytes());
    h.extend_from_slice(&src.to_le_bytes());
    let c = crc::dnp3(&h[0..8]);
    h.extend_from_slice(&c.to_le_bytes());
    h
}

#[test]
fn mutates_addresses_and_fixes_header_crc() {
    let payload = dnp3_header(4, 1);
    let mut frame = build_tcp([10, 0, 0, 1], [10, 0, 0, 9], 40000, 20000, &payload);
    let before_len = frame.len();
    let mut mapper = SeededMapper::from_seed(4);
    let reports = {
        let mut f = ParsedFrame::parse(&mut frame).unwrap();
        assert!(Dnp3.matches(&f));
        let r = Dnp3.mutate(&mut f, &mut mapper);
        f.recompute_checksums();
        r
    };
    assert_eq!(frame.len(), before_len);
    assert_eq!(reports.len(), 2, "src and dst");
    let l = frame::parse_layout(&frame).unwrap();
    let h = &frame[l.payload..l.payload + 10];
    let dest = u16::from_le_bytes([h[4], h[5]]);
    let src = u16::from_le_bytes([h[6], h[7]]);
    assert_ne!(dest, 4);
    assert_ne!(src, 1);
    // The recomputed header CRC must be self-consistent.
    let stored = u16::from_le_bytes([h[8], h[9]]);
    assert_eq!(stored, crc::dnp3(&h[0..8]));
    assert!(frame::checksums_valid(&frame, &l));
}

// Minimal List Identity reply: 24-byte encap header (command 0x63), item
// count 1, one CIP identity item with vendor/devtype/prodcode/serial.
fn list_identity_reply() -> Vec<u8> {
    let mut p = Vec::new();
    p.extend_from_slice(&CMD_LIST_IDENTITY.to_le_bytes()); // command
    let body_len: u16 = 2 + 4 + 34; // item count + item header + item data
    p.extend_from_slice(&body_len.to_le_bytes()); // length
    p.extend_from_slice(&[0; 4]); // session
    p.extend_from_slice(&[0; 4]); // status
    p.extend_from_slice(&[0; 8]); // sender context
    p.extend_from_slice(&[0; 4]); // options
    p.extend_from_slice(&1u16.to_le_bytes()); // item count
    p.extend_from_slice(&ITEM_CIP_IDENTITY.to_le_bytes()); // item type
    p.extend_from_slice(&34u16.to_le_bytes()); // item length
                                               // identity object (34 bytes)
    p.extend_from_slice(&1u16.to_le_bytes()); // protocol version
    p.extend_from_slice(&[0; 16]); // socket address
    p.extend_from_slice(&7u16.to_le_bytes()); // vendor id = 7
    p.extend_from_slice(&12u16.to_le_bytes()); // device type
    p.extend_from_slice(&5u16.to_le_bytes()); // product code
    p.extend_from_slice(&[1, 2]); // revision
    p.extend_from_slice(&[0, 0]); // status
    p.extend_from_slice(&0x1234_5678u32.to_le_bytes()); // serial
    p.extend_from_slice(&[0]); // product name length 0
    p.extend_from_slice(&[0]); // state
    p
}

#[test]
fn mutates_identity_fields_fixed_width() {
    let payload = list_identity_reply();
    let mut frame = build_tcp([10, 0, 0, 1], [10, 0, 0, 9], 50000, 44818, &payload);
    let before_len = frame.len();
    let mut mapper = SeededMapper::from_seed(2);
    let reports = {
        let mut f = ParsedFrame::parse(&mut frame).unwrap();
        assert!(Enip.matches(&f));
        let r = Enip.mutate(&mut f, &mut mapper);
        f.recompute_checksums();
        r
    };
    assert_eq!(frame.len(), before_len);
    // vendor, device type, product code, serial -> four reports.
    assert_eq!(reports.len(), 4);
    let l = frame::parse_layout(&frame).unwrap();
    let data = l.payload + 26 + 4;
    let vendor = u16::from_le_bytes([frame[data + 18], frame[data + 19]]);
    assert_ne!(vendor, 7);
    assert!(frame::checksums_valid(&frame, &l));
}

fn modbus_adu(unit: u8) -> Vec<u8> {
    // txn 0x0001, proto 0x0000, len 0x0006, unit, FC 0x03, addr 0, qty 10
    vec![
        0x00, 0x01, 0x00, 0x00, 0x00, 0x06, unit, 0x03, 0x00, 0x00, 0x00, 0x0a,
    ]
}

#[test]
fn mutates_unit_id_fixed_width() {
    let mut frame = build_tcp([10, 0, 0, 1], [10, 0, 0, 2], 5000, 502, &modbus_adu(5));
    let before_len = frame.len();
    let mut mapper = SeededMapper::from_seed(1);
    let reports = {
        let mut f = ParsedFrame::parse(&mut frame).unwrap();
        assert!(Modbus.matches(&f));
        let r = Modbus.mutate(&mut f, &mut mapper);
        f.recompute_checksums();
        r
    };
    assert_eq!(frame.len(), before_len, "length must not change");
    assert_eq!(reports.len(), 1);
    let l = frame::parse_layout(&frame).unwrap();
    let new_unit = frame[l.payload + 6];
    assert_ne!(new_unit, 5);
    assert_eq!(reports[0].original, 5);
    assert_eq!(reports[0].new, new_unit as u64);
    assert!(frame::checksums_valid(&frame, &l));
}

// TPKT + COTP connection request with calling TSAP 0x0100 and called TSAP
// 0x0102 (rack 0, slot 2).
fn cotp_cr() -> Vec<u8> {
    let cotp = [
        0x11, // COTP length (17 bytes follow)
        COTP_CR,
        0x00,
        0x00, // pdu type, dst ref
        0x00,
        0x01,
        0x00, // src ref, class
        PARAM_CALLING_TSAP,
        0x02,
        0x01,
        0x00, // calling TSAP 0x0100
        PARAM_CALLED_TSAP,
        0x02,
        0x01,
        0x02, // called TSAP 0x0102
        0xC0,
        0x01,
        0x0a, // TPDU size param
    ];
    let mut p = vec![0x03, 0x00];
    let total = 4 + cotp.len();
    p.extend_from_slice(&(total as u16).to_be_bytes()); // TPKT length
    p.extend_from_slice(&cotp);
    p
}

#[test]
fn mutates_tsaps_fixed_width() {
    let payload = cotp_cr();
    let mut frame = build_tcp([10, 0, 0, 1], [10, 0, 0, 9], 50000, 102, &payload);
    let before_len = frame.len();
    let mut mapper = SeededMapper::from_seed(3);
    let reports = {
        let mut f = ParsedFrame::parse(&mut frame).unwrap();
        assert!(S7.matches(&f));
        let r = S7.mutate(&mut f, &mut mapper);
        f.recompute_checksums();
        r
    };
    assert_eq!(frame.len(), before_len);
    assert_eq!(reports.len(), 2, "calling and called TSAP");
    let l = frame::parse_layout(&frame).unwrap();
    // called TSAP sits at payload offset 4 + 11 + 2 = 17.
    let called = u16::from_be_bytes([frame[l.payload + 17], frame[l.payload + 18]]);
    assert_ne!(called, 0x0102);
    assert!(frame::checksums_valid(&frame, &l));
}
