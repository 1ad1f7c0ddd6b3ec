use ot_turbolaser::config::ZoneAffinity;
use ot_turbolaser::net::{parse_ip, parse_net};
use ot_turbolaser::pcapio::{Capture, OwnedPacket};
use ot_turbolaser::proto::frame;
use ot_turbolaser::proto::l3::{
    apply_host_map, carries_public_address, drop_unsafe_frames, is_public_unicast, remap_capture,
    stable_mac,
};
use ot_turbolaser::proto::reconcile::{reconcile_capture_into_zones, CaptureGroup, ZoneTarget};
use pcap_file::pcap::PcapHeader;
use std::collections::HashMap;
use std::time::Duration;

fn ip(a: u8, b: u8, c: u8, d: u8) -> u32 {
    u32::from_be_bytes([a, b, c, d])
}

fn udp(src: [u8; 4], dst: [u8; 4]) -> Vec<u8> {
    let mut b = vec![0x52, 0x54, 0, 0, 0, 1, 0x52, 0x54, 0, 0, 0, 2, 0x08, 0x00];
    let udp_len = 8 + 4;
    let ip_total = 20 + udp_len;
    b.extend_from_slice(&[0x45, 0x00]);
    b.extend_from_slice(&(ip_total as u16).to_be_bytes());
    b.extend_from_slice(&[0, 0, 0x40, 0, 0x40, 17, 0, 0]);
    b.extend_from_slice(&src);
    b.extend_from_slice(&dst);
    b.extend_from_slice(&[0x10, 0x00, 0x4e, 0x20]); // ports 4096 -> 20000
    b.extend_from_slice(&(udp_len as u16).to_be_bytes());
    b.extend_from_slice(&[0, 0]); // udp csum placeholder
    b.extend_from_slice(&[1, 2, 3, 4]);
    let l = frame::parse_layout(&b).unwrap();
    frame::recompute_checksums(&mut b, &l);
    b
}

fn cap_from(pairs: &[([u8; 4], [u8; 4])]) -> Capture {
    let packets = pairs
        .iter()
        .map(|(s, d)| OwnedPacket {
            ts: Duration::new(1, 0),
            orig_len: 0,
            data: udp(*s, *d),
        })
        .collect();
    Capture {
        header: PcapHeader::default(),
        packets,
    }
}

fn addrs(data: &[u8]) -> ([u8; 4], [u8; 4]) {
    let l = frame::parse_layout(data).unwrap();
    let s = [
        data[l.l3 + 12],
        data[l.l3 + 13],
        data[l.l3 + 14],
        data[l.l3 + 15],
    ];
    let d = [
        data[l.l3 + 16],
        data[l.l3 + 17],
        data[l.l3 + 18],
        data[l.l3 + 19],
    ];
    (s, d)
}

#[test]
fn preserves_conversations_subnets_and_validity() {
    let mut cap = cap_from(&[
        ([192, 168, 10, 5], [192, 168, 10, 9]),
        ([192, 168, 10, 9], [192, 168, 10, 5]),
        ([10, 5, 5, 2], [10, 5, 5, 3]),
    ]);
    remap_capture(&mut cap, &[], 7, true);

    let (s0, d0) = addrs(&cap.packets[0].data);
    let (s1, d1) = addrs(&cap.packets[1].data);
    let (s2, d2) = addrs(&cap.packets[2].data);

    // Addresses actually changed.
    assert_ne!(s0, [192, 168, 10, 5]);
    // Conversation preserved: packet 0 and packet 1 are the same pair reversed.
    assert_eq!(s0, d1);
    assert_eq!(d0, s1);
    // Coherent subnet: the two .10.x hosts share a new /24 (top 3 octets equal).
    assert_eq!(s0[..3], d0[..3]);
    // Host offsets preserved within the subnet.
    assert_eq!(s0[3], 5);
    assert_eq!(d0[3], 9);
    // The second subnet (10.5.5.x) is distinct from the first.
    assert_ne!(s2[..3], s0[..3]);
    assert_eq!(s2[3], 2);
    assert_eq!(d2[3], 3);

    // Checksums valid on every packet.
    for p in &cap.packets {
        let l = frame::parse_layout(&p.data).unwrap();
        assert!(frame::checksums_valid(&p.data, &l));
    }
}

#[test]
fn l3_deterministic_for_same_seed() {
    let a = {
        let mut c = cap_from(&[([192, 168, 1, 1], [192, 168, 1, 2])]);
        remap_capture(&mut c, &[], 99, true);
        c.packets[0].data.clone()
    };
    let b = {
        let mut c = cap_from(&[([192, 168, 1, 1], [192, 168, 1, 2])]);
        remap_capture(&mut c, &[], 99, true);
        c.packets[0].data.clone()
    };
    assert_eq!(a, b);
}

#[test]
fn multicast_and_broadcast_left_alone() {
    let mut cap = cap_from(&[([192, 168, 1, 10], [239, 255, 0, 1])]);
    remap_capture(&mut cap, &[], 3, true);
    let (s, d) = addrs(&cap.packets[0].data);
    assert_ne!(s, [192, 168, 1, 10], "unicast source should move");
    assert_eq!(d, [239, 255, 0, 1], "multicast destination must not move");
}

fn zt(
    cidr: &str,
    vendor: Option<&str>,
    level: u8,
    proto: Option<&str>,
    reserved: &[&str],
) -> ZoneTarget {
    ZoneTarget {
        net: parse_net(cidr).unwrap(),
        vendor: vendor.map(String::from),
        purdue_level: level,
        protocol: proto.map(String::from),
        reserved: reserved.iter().map(|s| parse_ip(s).unwrap()).collect(),
    }
}

fn cg(
    cidr: &str,
    vendor: Option<&str>,
    level: u8,
    proto: Option<&str>,
    hosts: &[&str],
) -> CaptureGroup {
    CaptureGroup {
        net: parse_net(cidr).unwrap(),
        purdue_level: level,
        vendor: vendor.map(String::from),
        protocol: proto.map(String::from),
        hosts: hosts.iter().map(|s| parse_ip(s).unwrap()).collect(),
    }
}

#[test]
fn reconcile_places_by_vendor_preserves_convo_and_is_stable() {
    let mk = || {
        cap_from(&[
            ([192, 168, 10, 5], [192, 168, 10, 9]),
            ([192, 168, 10, 9], [192, 168, 10, 5]),
        ])
    };
    let groups = vec![cg(
        "192.168.10.0/24",
        Some("Rockwell Automation"),
        1,
        Some("enip"),
        &["192.168.10.5", "192.168.10.9"],
    )];
    let zones = vec![
        zt("10.50.0.0/24", Some("Siemens AG"), 1, Some("s7"), &[]),
        zt(
            "10.60.0.0/24",
            Some("Rockwell Automation"),
            1,
            Some("enip"),
            &[],
        ),
    ];
    let reg = HashMap::new();
    let macs = HashMap::new();

    let mut a = mk();
    let (sum, new_assets) = reconcile_capture_into_zones(
        &mut a,
        &groups,
        &zones,
        ZoneAffinity::Both,
        0x1234,
        true,
        &reg,
        &macs,
        100,
    );
    assert_eq!(sum.host_count, 2);
    assert_eq!(new_assets.len(), 2, "two hosts registered as new assets");

    let (s0, d0) = addrs(&a.packets[0].data);
    let (s1, d1) = addrs(&a.packets[1].data);
    assert_eq!(s0[..3], [10, 60, 0], "vendor-matched zone");
    assert_eq!(s0[3], 5);
    assert_eq!(d0[3], 9);
    assert_eq!(s0, d1);
    assert_eq!(d0, s1);

    // Deterministic across runs with the same seed and registry.
    let mut b = mk();
    reconcile_capture_into_zones(
        &mut b,
        &groups,
        &zones,
        ZoneAffinity::Both,
        0x1234,
        true,
        &reg,
        &macs,
        100,
    );
    assert_eq!(
        a.packets[0].data, b.packets[0].data,
        "stable per (capture, seed)"
    );
    for p in &a.packets {
        let l = frame::parse_layout(&p.data).unwrap();
        assert!(frame::checksums_valid(&p.data, &l));
    }
}

#[test]
fn reconcile_skips_reserved_device_ips() {
    let mut cap = cap_from(&[([192, 168, 1, 5], [192, 168, 1, 6])]);
    let groups = vec![cg(
        "192.168.1.0/24",
        Some("ACME"),
        1,
        None,
        &["192.168.1.5", "192.168.1.6"],
    )];
    let zones = vec![zt("10.70.0.0/24", Some("ACME"), 1, None, &["10.70.0.5"])];
    reconcile_capture_into_zones(
        &mut cap,
        &groups,
        &zones,
        ZoneAffinity::Both,
        7,
        true,
        &HashMap::new(),
        &HashMap::new(),
        100,
    );
    let (s0, d0) = addrs(&cap.packets[0].data);
    assert_eq!(s0[..3], [10, 70, 0]);
    assert_ne!(s0, [10, 70, 0, 5], "reserved device IP not reused");
    assert_ne!(d0, [10, 70, 0, 5]);
    assert_ne!(s0, d0, "distinct hosts get distinct IPs");
}

#[test]
fn reconcile_uses_protocol_when_vendor_unknown() {
    let mut cap = cap_from(&[([172, 16, 0, 2], [172, 16, 0, 3])]);
    let groups = vec![cg(
        "172.16.0.0/24",
        None,
        1,
        Some("modbus"),
        &["172.16.0.2", "172.16.0.3"],
    )];
    let zones = vec![
        zt(
            "10.10.0.0/24",
            Some("GE Fanuc Automation"),
            1,
            Some("enip"),
            &[],
        ),
        zt(
            "10.20.0.0/24",
            Some("Schneider Electric"),
            1,
            Some("modbus"),
            &[],
        ),
    ];
    reconcile_capture_into_zones(
        &mut cap,
        &groups,
        &zones,
        ZoneAffinity::Both,
        99,
        true,
        &HashMap::new(),
        &HashMap::new(),
        100,
    );
    let (s0, _d0) = addrs(&cap.packets[0].data);
    assert_eq!(
        s0[..3],
        [10, 20, 0],
        "modbus group lands in the modbus zone"
    );
}

#[test]
fn reconcile_force_maps_onto_device_with_vendor_mac_when_budget_zero() {
    let mut cap = cap_from(&[([192, 168, 1, 5], [192, 168, 1, 6])]);
    let groups = vec![cg(
        "192.168.1.0/24",
        Some("ACME"),
        1,
        None,
        &["192.168.1.5", "192.168.1.6"],
    )];
    // The zone holds one fabricated device at 10.70.0.5 with a vendor MAC.
    let zones = vec![zt("10.70.0.0/24", Some("ACME"), 1, None, &["10.70.0.5"])];
    let dev_ip = ip(10, 70, 0, 5);
    let dev_mac = [0x00, 0x0e, 0x8c, 0x12, 0x34, 0x56];
    let mut macs = HashMap::new();
    macs.insert(dev_ip, dev_mac);
    // Budget 0: no new assets; surplus hosts ride the device.
    let (_sum, new_assets) = reconcile_capture_into_zones(
        &mut cap,
        &groups,
        &zones,
        ZoneAffinity::Both,
        7,
        true,
        &HashMap::new(),
        &macs,
        0,
    );
    assert!(
        new_assets.is_empty(),
        "no new assets when the budget is zero"
    );
    let (s0, _d0) = addrs(&cap.packets[0].data);
    assert_eq!(
        s0,
        [10, 70, 0, 5],
        "surplus host rides the fabricated device"
    );
    assert_eq!(
        &cap.packets[0].data[6..12],
        &dev_mac,
        "and carries the device's vendor MAC, not a stable LAA MAC"
    );
}

#[test]
fn reconcile_reuses_registered_origin() {
    let mut cap = cap_from(&[([192, 168, 1, 5], [192, 168, 1, 6])]);
    let groups = vec![cg(
        "192.168.1.0/24",
        Some("ACME"),
        1,
        None,
        &["192.168.1.5", "192.168.1.6"],
    )];
    let zones = vec![zt("10.70.0.0/24", Some("ACME"), 1, None, &[])];
    // .5 is already a registered asset at 10.70.0.50.
    let mut reg = HashMap::new();
    reg.insert(
        ip(192, 168, 1, 5),
        ip(10, 70, 0, 50),
    );
    let (_sum, new_assets) = reconcile_capture_into_zones(
        &mut cap,
        &groups,
        &zones,
        ZoneAffinity::Both,
        7,
        true,
        &reg,
        &HashMap::new(),
        100,
    );
    let (s0, _d0) = addrs(&cap.packets[0].data);
    assert_eq!(
        s0,
        [10, 70, 0, 50],
        "registered origin reuses its stable IP"
    );
    assert_eq!(new_assets.len(), 1, "only the unregistered host is new");
    assert_eq!(new_assets[0].origin, ip(192, 168, 1, 6));
}

#[test]
fn apply_host_map_remaps_arp_addresses_and_macs() {
    // Ethernet + ARP reply: SHA 00:0e:8c:.., SPA 192.168.1.5, TPA 192.168.1.1.
    let mut data = vec![0xff, 0xff, 0xff, 0xff, 0xff, 0xff]; // dst mac (broadcast)
    data.extend_from_slice(&[0x00, 0x0e, 0x8c, 0x11, 0x22, 0x33]); // src mac
    data.extend_from_slice(&[0x08, 0x06]); // ethertype ARP
    data.extend_from_slice(&[0x00, 0x01, 0x08, 0x00, 0x06, 0x04, 0x00, 0x02]); // htype/ptype/hlen/plen/oper=reply
    data.extend_from_slice(&[0x00, 0x0e, 0x8c, 0x11, 0x22, 0x33]); // SHA
    data.extend_from_slice(&[192, 168, 1, 5]); // SPA
    data.extend_from_slice(&[0xaa, 0xbb, 0xcc, 0xdd, 0xee, 0xff]); // THA
    data.extend_from_slice(&[192, 168, 1, 1]); // TPA
    let mut cap = Capture {
        header: PcapHeader::default(),
        packets: vec![OwnedPacket {
            ts: Duration::new(1, 0),
            orig_len: data.len() as u32,
            data,
        }],
    };
    let new_spa = ip(10, 9, 0, 5);
    let new_tpa = ip(10, 9, 0, 1);
    let mut map = HashMap::new();
    map.insert(ip(192, 168, 1, 5), new_spa);
    map.insert(ip(192, 168, 1, 1), new_tpa);
    let seed: u64 = 42;
    apply_host_map(&mut cap, &map, &HashMap::new(), seed, true);
    let d = &cap.packets[0].data;
    let sender_mac = stable_mac(seed, new_spa);
    let target_mac = stable_mac(seed, new_tpa);
    assert_eq!(
        &d[28..32],
        &[10, 9, 0, 5],
        "sender protocol address remapped"
    );
    assert_eq!(
        &d[38..42],
        &[10, 9, 0, 1],
        "target protocol address remapped"
    );
    assert_eq!(&d[22..28], &sender_mac, "sender hardware address rewritten");
    assert_eq!(&d[6..12], &sender_mac, "Ethernet source matches the sender");
    assert_eq!(
        &d[32..38],
        &target_mac,
        "target hardware address rewritten (reply)"
    );
    assert_eq!(
        &d[0..6],
        &target_mac,
        "Ethernet dest matches the target (reply)"
    );
}

#[test]
fn stable_mac_is_laa_unicast_and_deterministic() {
    let a = stable_mac(7, ip(10, 1, 2, 3));
    let b = stable_mac(7, ip(10, 1, 2, 3));
    let c = stable_mac(7, ip(10, 1, 2, 4));
    assert_eq!(a, b, "same (seed, ip) yields the same MAC");
    assert_ne!(a, c, "different IPs yield different MACs");
    assert_eq!(a[0] & 0x01, 0, "unicast (group bit clear)");
    assert_eq!(a[0] & 0x02, 0x02, "locally administered (LAA bit set)");
}

#[test]
fn apply_host_map_rewrites_ipv4_macs_and_preserves_broadcast_dst() {
    // Unicast src->dst: both MACs become stable LAA, IP checksums stay valid.
    let mut uni = cap_from(&[([192, 168, 5, 10], [192, 168, 5, 20])]);
    let seed: u64 = 13;
    // Capture the post-remap new IPs by running the full remap, then re-derive
    // MAC expectations from those IPs.
    remap_capture(&mut uni, &[], seed, true);
    let (s, d) = addrs(&uni.packets[0].data);
    let new_src = u32::from_be_bytes(s);
    let new_dst = u32::from_be_bytes(d);
    assert_eq!(
        &uni.packets[0].data[6..12],
        &stable_mac(seed, new_src),
        "src MAC is the sender's stable MAC"
    );
    assert_eq!(
        &uni.packets[0].data[0..6],
        &stable_mac(seed, new_dst),
        "dst MAC is the peer's stable MAC"
    );
    let l = frame::parse_layout(&uni.packets[0].data).unwrap();
    assert!(frame::checksums_valid(&uni.packets[0].data, &l));

    // A multicast IP destination keeps its (multicast) destination MAC.
    let mut mc = Capture {
        header: PcapHeader::default(),
        packets: vec![OwnedPacket {
            ts: Duration::new(1, 0),
            orig_len: 0,
            data: {
                let mut b = vec![0x01, 0x00, 0x5e, 0x00, 0x00, 0x01]; // multicast dst mac
                b.extend_from_slice(&[0x52, 0x54, 0, 0, 0, 9]); // src mac
                b.extend_from_slice(&[0x08, 0x00]);
                b.extend_from_slice(&[0x45, 0x00, 0x00, 0x1c, 0, 0, 0x40, 0, 0x40, 17, 0, 0]);
                b.extend_from_slice(&[192, 168, 9, 9]); // src
                b.extend_from_slice(&[239, 1, 2, 3]); // multicast dst
                b.extend_from_slice(&[0x10, 0x00, 0x4e, 0x20, 0x00, 0x08, 0x00, 0x00]);
                let l = frame::parse_layout(&b).unwrap();
                frame::recompute_checksums(&mut b, &l);
                b
            },
        }],
    };
    remap_capture(&mut mc, &[], seed, true);
    assert_eq!(
        &mc.packets[0].data[0..6],
        &[0x01, 0x00, 0x5e, 0x00, 0x00, 0x01],
        "multicast destination MAC preserved"
    );
}

#[test]
fn drop_unsafe_frames_drops_ipv6_and_keeps_clean_ipv4() {
    // One clean private IPv4 UDP frame plus one IPv6 frame (ethertype 0x86dd).
    let ipv4 = udp([10, 0, 0, 1], [10, 0, 0, 2]);
    let mut ipv6 = vec![0x52, 0x54, 0, 0, 0, 1, 0x52, 0x54, 0, 0, 0, 2, 0x86, 0xdd];
    ipv6.extend(std::iter::repeat_n(0u8, 40)); // minimal IPv6 header, addresses 0
    ipv6[14] = 0x60; // version 6
    ipv6[22] = 0x20; // a global-ish src first byte (2000::/3)
    let mut cap = Capture {
        header: PcapHeader::default(),
        packets: vec![
            OwnedPacket {
                ts: Duration::new(1, 0),
                orig_len: 0,
                data: ipv4,
            },
            OwnedPacket {
                ts: Duration::new(1, 0),
                orig_len: 0,
                data: ipv6,
            },
        ],
    };
    let dropped = drop_unsafe_frames(&mut cap);
    assert_eq!(dropped, 1, "the IPv6 frame is dropped");
    assert_eq!(cap.packets.len(), 1, "the clean IPv4 frame is kept");
}

#[test]
fn remap_capture_relocates_arp_only_hosts() {
    // An ARP request whose sender IP appears in no IPv4 header must still be
    // relocated out of its original (public) range.
    let mut data = vec![0xff, 0xff, 0xff, 0xff, 0xff, 0xff];
    data.extend_from_slice(&[0x00, 0x11, 0x22, 0x33, 0x44, 0x55]); // src mac
    data.extend_from_slice(&[0x08, 0x06]); // ARP
    data.extend_from_slice(&[0x00, 0x01, 0x08, 0x00, 0x06, 0x04, 0x00, 0x01]); // request
    data.extend_from_slice(&[0x00, 0x11, 0x22, 0x33, 0x44, 0x55]); // SHA
    data.extend_from_slice(&[203, 0, 113, 7]); // SPA (public)
    data.extend_from_slice(&[0, 0, 0, 0, 0, 0]); // THA (zero, request)
    data.extend_from_slice(&[203, 0, 113, 9]); // TPA (public)
    let mut cap = Capture {
        header: PcapHeader::default(),
        packets: vec![OwnedPacket {
            ts: Duration::new(1, 0),
            orig_len: data.len() as u32,
            data,
        }],
    };
    let sum = remap_capture(&mut cap, &[], 5, true);
    assert!(sum.host_count >= 1, "ARP hosts are enumerated and remapped");
    // The frame survives (private after remap) and no longer carries the
    // public sender/target protocol addresses.
    assert_eq!(cap.packets.len(), 1, "the ARP frame is kept, not dropped");
    let d = &cap.packets[0].data;
    let spa = ip(d[28], d[29], d[30], d[31]);
    let tpa = ip(d[38], d[39], d[40], d[41]);
    assert!(
        !is_public_unicast(spa),
        "sender protocol address remapped private"
    );
    assert!(
        !is_public_unicast(tpa),
        "target protocol address remapped private"
    );
}

#[test]
fn carries_public_address_flags_public_ipv4_ipv6_and_arp() {
    // Private IPv4: safe.
    assert!(!carries_public_address(&udp([10, 0, 0, 1], [10, 0, 0, 2])));
    // Public IPv4 destination: flagged.
    assert!(carries_public_address(&udp([10, 0, 0, 1], [8, 8, 8, 8])));
    // IPv6 with a global source: flagged.
    let mut ipv6 = vec![0x52, 0x54, 0, 0, 0, 1, 0x52, 0x54, 0, 0, 0, 2, 0x86, 0xdd];
    ipv6.extend(std::iter::repeat_n(0u8, 40));
    ipv6[14] = 0x60;
    ipv6[22] = 0x20; // src starts 2000::/3 (global)
    assert!(carries_public_address(&ipv6));
    // ARP with a public sender protocol address: flagged.
    let mut arp = vec![0xff, 0xff, 0xff, 0xff, 0xff, 0xff];
    arp.extend_from_slice(&[0x00, 0x11, 0x22, 0x33, 0x44, 0x55]);
    arp.extend_from_slice(&[0x08, 0x06]);
    arp.extend_from_slice(&[0x00, 0x01, 0x08, 0x00, 0x06, 0x04, 0x00, 0x01]);
    arp.extend_from_slice(&[0x00, 0x11, 0x22, 0x33, 0x44, 0x55]);
    arp.extend_from_slice(&[198, 51, 100, 5]); // SPA (public)
    arp.extend_from_slice(&[0, 0, 0, 0, 0, 0]);
    arp.extend_from_slice(&[192, 168, 0, 1]);
    assert!(carries_public_address(&arp));
    // Unparseable buffer: fail closed.
    assert!(carries_public_address(&[0u8; 4]));
}
