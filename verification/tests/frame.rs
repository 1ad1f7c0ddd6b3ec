use ot_turbolaser::proto::crc::dnp3;
use ot_turbolaser::proto::frame::{
    fold, parse_layout, recompute_checksums, sum_words, FrameLayout, L3Kind, L4Kind, ParsedFrame,
};
use ot_turbolaser::proto::l3::{carries_public_address, frame_is_safe};

// Build Ethernet + IPv4 + UDP with the given payload, checksums filled in.
fn udp_packet(src: [u8; 4], dst: [u8; 4], sport: u16, dport: u16, payload: &[u8]) -> Vec<u8> {
    let mut b = Vec::new();
    b.extend_from_slice(&[0x52, 0x54, 0, 0, 0, 1]); // dst mac
    b.extend_from_slice(&[0x52, 0x54, 0, 0, 0, 2]); // src mac
    b.extend_from_slice(&[0x08, 0x00]); // ethertype IPv4
    let ip_start = b.len();
    let udp_len = 8 + payload.len();
    let ip_total = 20 + udp_len;
    b.extend_from_slice(&[0x45, 0x00]); // ver/ihl, dscp
    b.extend_from_slice(&(ip_total as u16).to_be_bytes());
    b.extend_from_slice(&[0x00, 0x00, 0x40, 0x00]); // id, flags/frag
    b.extend_from_slice(&[0x40, 17]); // ttl, proto=UDP
    b.extend_from_slice(&[0x00, 0x00]); // checksum placeholder
    b.extend_from_slice(&src);
    b.extend_from_slice(&dst);
    b.extend_from_slice(&sport.to_be_bytes());
    b.extend_from_slice(&dport.to_be_bytes());
    b.extend_from_slice(&(udp_len as u16).to_be_bytes());
    b.extend_from_slice(&[0x00, 0x00]); // udp checksum placeholder
    b.extend_from_slice(payload);
    let _ = ip_start;
    let layout = parse_layout(&b).unwrap();
    recompute_checksums(&mut b, &layout);
    b
}

// Verify a frame's checksums hold: the ones-complement sum including the
// checksum field folds to all ones.
fn ip_checksum_valid(buf: &[u8], l: &FrameLayout) -> bool {
    let mut s = 0u32;
    sum_words(&mut s, &buf[l.l3..l.l3 + l.ihl]);
    fold(s) == 0xffff
}

fn udp_checksum_valid(buf: &[u8], l: &FrameLayout) -> bool {
    let src = &buf[l.l3 + 12..l.l3 + 16];
    let dst = &buf[l.l3 + 16..l.l3 + 20];
    let l4_len = l.end - l.l4;
    let pseudo = [
        src[0],
        src[1],
        src[2],
        src[3],
        dst[0],
        dst[1],
        dst[2],
        dst[3],
        0,
        17,
        (l4_len >> 8) as u8,
        (l4_len & 0xff) as u8,
    ];
    let mut s = 0u32;
    sum_words(&mut s, &pseudo);
    sum_words(&mut s, &buf[l.l4..l.end]);
    fold(s) == 0xffff
}

#[test]
fn ipv4_header_checksum_known_vector() {
    // Canonical example: header with checksum zeroed sums to 0xb861.
    let hdr: [u8; 20] = [
        0x45, 0x00, 0x00, 0x73, 0x00, 0x00, 0x40, 0x00, 0x40, 0x11, 0x00, 0x00, 0xc0, 0xa8,
        0x00, 0x01, 0xc0, 0xa8, 0x00, 0xc7,
    ];
    let mut s = 0u32;
    sum_words(&mut s, &hdr);
    assert_eq!(!fold(s), 0xb861);
}

#[test]
fn mac_accessors_read_and_write() {
    let mut p = udp_packet([10, 0, 0, 1], [10, 0, 0, 2], 1000, 502, b"x");
    let l = {
        let mut f = ParsedFrame::parse(&mut p).unwrap();
        assert_eq!(f.dst_mac(), [0x52, 0x54, 0, 0, 0, 1]);
        assert_eq!(f.src_mac(), [0x52, 0x54, 0, 0, 0, 2]);
        f.set_src_mac([0x00, 0x90, 0xE8, 0xAB, 0xCD, 0xEF]);
        f.recompute_checksums();
        f.layout
    };
    assert_eq!(&p[6..12], &[0x00, 0x90, 0xE8, 0xAB, 0xCD, 0xEF]);
    // IP/L4 checksums unaffected by the MAC edit.
    assert!(ip_checksum_valid(&p, &l));
    assert!(udp_checksum_valid(&p, &l));
}

#[test]
fn parses_eth_ipv4_udp_offsets() {
    let p = udp_packet([10, 0, 0, 1], [10, 0, 0, 2], 1000, 502, b"hello");
    let l = parse_layout(&p).unwrap();
    assert_eq!(l.l3_kind, L3Kind::Ipv4);
    assert_eq!(l.l3, 14);
    assert_eq!(l.ihl, 20);
    assert_eq!(l.l4_kind, L4Kind::Udp);
    assert_eq!(l.l4, 34);
    assert_eq!(l.payload, 42);
    assert_eq!(&p[l.payload..l.end], b"hello");
}

#[test]
fn parses_vlan_tagged_ipv4_tcp() {
    // Eth + 802.1Q VLAN + IPv4 + TCP (20-byte headers), 4-byte payload.
    let mut b = vec![0u8; 12];
    b.extend_from_slice(&[0x81, 0x00, 0x00, 0x0a]); // VLAN tag, vid 10
    b.extend_from_slice(&[0x08, 0x00]); // inner ethertype IPv4
    let ip_total = 20 + 20 + 4;
    b.extend_from_slice(&[0x45, 0x00]);
    b.extend_from_slice(&(ip_total as u16).to_be_bytes());
    b.extend_from_slice(&[0, 0, 0x40, 0, 0x40, 6, 0, 0]); // id/frag/ttl/proto=TCP/csum
    b.extend_from_slice(&[10, 0, 0, 1, 10, 0, 0, 2]);
    b.extend_from_slice(&[0x1f, 0x90, 0x00, 0x50]); // ports
    b.extend_from_slice(&[0, 0, 0, 0, 0, 0, 0, 0]); // seq/ack
    b.extend_from_slice(&[0x50, 0x02, 0, 0, 0, 0, 0, 0]); // dataoff=5, flags, win, csum, urg
    b.extend_from_slice(&[1, 2, 3, 4]); // payload
    let l = parse_layout(&b).unwrap();
    assert_eq!(l.l3, 18); // 12 + 4 (vlan) + 2 (ethertype)
    assert_eq!(l.l4_kind, L4Kind::Tcp);
    assert_eq!(l.l4, 38);
    assert_eq!(l.payload, 58);
    assert_eq!(&b[l.payload..l.end], &[1, 2, 3, 4]);
}

#[test]
fn recompute_is_idempotent_and_valid() {
    let mut p = udp_packet([192, 168, 1, 10], [192, 168, 1, 20], 4096, 20000, b"DNP3");
    let before = p.clone();
    let l = parse_layout(&p).unwrap();
    recompute_checksums(&mut p, &l);
    assert_eq!(p, before, "recomputing a valid frame must not change it");
    assert!(ip_checksum_valid(&p, &l));
    assert!(udp_checksum_valid(&p, &l));
}

#[test]
fn remap_addr_then_recompute_stays_valid() {
    let mut p = udp_packet([10, 0, 0, 1], [10, 0, 0, 2], 1000, 502, b"payload-bytes");
    let l = {
        let mut f = ParsedFrame::parse(&mut p).unwrap();
        f.set_ipv4_src([172, 20, 7, 1]);
        f.set_ipv4_dst([172, 20, 7, 2]);
        f.recompute_checksums();
        f.layout
    };
    assert_eq!(&p[l.l3 + 12..l.l3 + 16], &[172, 20, 7, 1]);
    assert!(ip_checksum_valid(&p, &l));
    assert!(udp_checksum_valid(&p, &l));
}

#[test]
fn matches_catalog_check_value() {
    // The canonical CRC-16/DNP check value for ASCII "123456789".
    assert_eq!(dnp3(b"123456789"), 0xea82);
}

#[test]
fn any_number_of_vlan_tags_is_stepped_over() {
    for tags in [0usize, 1, 4, 5, 40] {
        let mut b = vec![0u8; 12];
        for _ in 0..tags {
            b.extend_from_slice(&[0x81, 0, 0, 0x0a]);
        }
        b.extend_from_slice(&[0x08, 0]);
        b.extend_from_slice(&[0x45, 0, 0, 20, 0, 0, 0x40, 0, 0x40, 1, 0, 0]);
        b.extend_from_slice(&[8, 8, 8, 8, 10, 0, 0, 2]);
        let l = parse_layout(&b).unwrap();
        assert_eq!(l.l3_kind, L3Kind::Ipv4);
        assert_eq!((l.l3, l.ihl, l.l4), (14 + 4 * tags, 20, 34 + 4 * tags));
        assert_eq!(l.l4_kind, L4Kind::Other);
        assert_eq!((l.payload, l.end), (34 + 4 * tags, 34 + 4 * tags));
        assert!(!frame_is_safe(&b), "a public address behind {tags} tags");
        assert!(carries_public_address(&b));
    }
    assert!(parse_layout(&[[0u8; 12].as_slice(), &[0x81, 0, 0, 1]].concat()).is_none());
}

#[test]
fn the_crc_is_the_catalogs() {
    let other = crc::Crc::<u16>::new(&crc::CRC_16_DNP);
    let mut b: Vec<u8> = Vec::new();
    for i in 0..600u32 {
        assert_eq!(dnp3(&b), other.checksum(&b));
        b.push((i * 37 + 11) as u8);
    }
}
