use ot_turbolaser::oui::OuiDb;
use ot_turbolaser::pcapio::{Capture, OwnedPacket};
use ot_turbolaser::proto::frame::{parse_layout, recompute_checksums};
use ot_turbolaser::simulate::zones::{derive_zones, family_of, infer_level, name_zone};
use pcap_file::pcap::PcapHeader;
use std::time::Duration;

#[test]
fn names_reflect_vendor_family_and_level() {
    assert_eq!(
        name_zone(Some("Siemens AG"), Some("SIMATIC"), 1, 0),
        "Siemens AG SIMATIC Basic Control Area 1"
    );
    assert_eq!(name_zone(None, None, 2, 1), "ICS Supervisory Area 2");
    assert_eq!(infer_level(Some("Cisco Systems")), 2);
    assert_eq!(infer_level(Some("Siemens AG")), 1);
    assert_eq!(infer_level(None), 3);
    assert_eq!(family_of("SIMATIC S7-1200 CPU 1212C"), "SIMATIC");
}

// Ethernet + IPv4 + UDP frame with a chosen source MAC and addresses.
fn frame(src_mac: [u8; 6], src: [u8; 4], dst: [u8; 4]) -> Vec<u8> {
    let mut b = Vec::new();
    b.extend_from_slice(&[0xff, 0xff, 0xff, 0xff, 0xff, 0xff]); // dst mac
    b.extend_from_slice(&src_mac);
    b.extend_from_slice(&[0x08, 0x00]);
    let udp_len = 8 + 2;
    let ip_total = 20 + udp_len;
    b.extend_from_slice(&[0x45, 0x00]);
    b.extend_from_slice(&(ip_total as u16).to_be_bytes());
    b.extend_from_slice(&[0, 0, 0x40, 0, 0x40, 17, 0, 0]);
    b.extend_from_slice(&src);
    b.extend_from_slice(&dst);
    b.extend_from_slice(&[0x10, 0x00, 0x4e, 0x20]);
    b.extend_from_slice(&(udp_len as u16).to_be_bytes());
    b.extend_from_slice(&[0, 0, 0xAA, 0xBB]);
    let l = parse_layout(&b).unwrap();
    recompute_checksums(&mut b, &l);
    b
}

fn cap_of(frames: Vec<Vec<u8>>) -> Capture {
    Capture {
        header: PcapHeader::default(),
        packets: frames
            .into_iter()
            .map(|data| OwnedPacket {
                ts: Duration::new(1, 0),
                orig_len: 0,
                data,
            })
            .collect(),
    }
}

#[test]
fn derive_groups_subnets_and_names_vendor_from_oui() {
    // Two Rockwell hosts (OUI 00:00:BC) in 192.168.10.0/24 and one Siemens
    // host (00:0E:8C) in 192.168.20.0/24.
    let cap = cap_of(vec![
        frame(
            [0x00, 0x00, 0xBC, 0, 0, 1],
            [192, 168, 10, 5],
            [192, 168, 10, 9],
        ),
        frame(
            [0x00, 0x00, 0xBC, 0, 0, 2],
            [192, 168, 10, 9],
            [192, 168, 10, 5],
        ),
        frame(
            [0x00, 0x0E, 0x8C, 0, 0, 1],
            [192, 168, 20, 7],
            [192, 168, 10, 5],
        ),
    ]);
    let oui = OuiDb::embedded();
    let zones = derive_zones(&cap, &[], &oui);
    assert_eq!(zones.len(), 2, "two /24 zones");
    let z10 = zones
        .iter()
        .find(|z| z.cidr.to_text() == "192.168.10.0/24")
        .unwrap();
    assert_eq!(z10.vendor.as_deref(), Some("Rockwell Automation"));
    assert_eq!(z10.purdue_level, 1);
    assert!(z10.name.contains("Rockwell Automation"));
    assert_eq!(z10.device_ips.len(), 2);
    let z20 = zones
        .iter()
        .find(|z| z.cidr.to_text() == "192.168.20.0/24")
        .unwrap();
    assert_eq!(z20.vendor.as_deref(), Some("Siemens AG"));
}
