use ot_turbolaser::ledger::{CaptureHostRecord, DeviceRecord, Session, SubnetRecord};
use ot_turbolaser::mac::parse_mac;
use ot_turbolaser::net::parse_ip;
use ot_turbolaser::proto::l3::stable_mac;
use ot_turbolaser::simulate::crossings::north_south_crossings;
use ot_turbolaser::simulate::roles::{arp_edges, cells_no_orphan, station_addr, Node, CELL_SIZE};
use std::collections::{HashMap, HashSet};

fn second_octet(ip: u32) -> u32 {
    ip / 0x1_0000 % 256
}

fn sess(seed: u64) -> Session {
    Session::new(seed, 0)
}

fn add_zone(s: &mut Session, cidr: &str) {
    s.subnets.push(SubnetRecord {
        cidr: cidr.into(),
        zone_name: "Z".into(),
        purdue_level: 1,
        vendor: None,
        ..Default::default()
    });
}

fn dev(ip: &str, cidr: &str) -> DeviceRecord {
    DeviceRecord {
        ip: ip.into(),
        mac: "00:00:bc:00:00:01".into(),
        vendor: "Rockwell Automation".into(),
        model: "1756-L61".into(),
        firmware: "20.011".into(),
        protocol: "enip".into(),
        cves: vec![],
        subnet_cidr: cidr.into(),
        hostname: None,
        asset_type: None,
    }
}

fn host(ip: &str, cidr: &str) -> CaptureHostRecord {
    CaptureHostRecord {
        origin_ip: ip.into(),
        ip: ip.into(),
        mac: "02:00:00:11:22:33".into(),
        vendor: None,
        protocol: None,
        purdue_level: 0,
        subnet_cidr: cidr.into(),
        hostname: None,
        asset_type: None,
    }
}

/// The cardinal invariant: every real asset is the OWNER of at least one
/// edge, so it emits an is-at reply and unions.
#[test]
fn every_asset_is_an_is_at_owner() {
    let cidr = "10.0.0.0/24";
    let mut s = sess(42);
    add_zone(&mut s, cidr);
    for i in 1..=40u8 {
        if i % 3 == 0 {
            s.devices.push(dev(&format!("10.0.0.{i}"), cidr));
        } else {
            s.capture_hosts.push(host(&format!("10.0.0.{i}"), cidr));
        }
    }
    let edges = arp_edges(&s, s.seed);
    let owners: HashSet<u32> = edges.iter().map(|e| e.owner.ip).collect();
    for i in 1..=40u8 {
        let ip = parse_ip(&format!("10.0.0.{i}")).unwrap();
        assert!(owners.contains(&ip), "asset {ip} never owns an is-at reply");
    }
    // The station binds too (it replies when its first member asks).
    assert!(owners.contains(&station_addr(cidr)), "station never binds");
}

/// No requester resolves more than CELL_SIZE-1 distinct owners: the wire
/// never shows one host sweeping the subnet.
#[test]
fn no_requester_scans_the_subnet() {
    let cidr = "10.1.0.0/24";
    let mut s = sess(7);
    add_zone(&mut s, cidr);
    for i in 1..=60u8 {
        s.capture_hosts.push(host(&format!("10.1.0.{i}"), cidr));
    }
    let edges = arp_edges(&s, s.seed);
    // Fan-out is a per-node property; key by requester IP (1:1 with MAC in
    // production, where stable_mac is per-IP -- the test helper reuses one MAC).
    let mut fanout: HashMap<u32, HashSet<u32>> = HashMap::new();
    for e in &edges {
        fanout.entry(e.requester.ip).or_default().insert(e.owner.ip);
    }
    for (ip, owners) in fanout {
        assert!(
            owners.len() < CELL_SIZE,
            "requester {ip} resolves {} owners (> {})",
            owners.len(),
            CELL_SIZE - 1
        );
    }
}

/// The owner MAC is the asset's stored MAC, which its traffic sources.
#[test]
fn owner_mac_is_the_stored_one() {
    let cidr = "10.2.0.0/24";
    let mut s = sess(1);
    add_zone(&mut s, cidr);
    s.capture_hosts.push(host("10.2.0.5", cidr));
    let edges = arp_edges(&s, s.seed);
    let owner = edges
        .iter()
        .find(|e| e.owner.ip == parse_ip("10.2.0.5").unwrap())
        .unwrap();
    assert_eq!(
        owner.owner.mac,
        [0x02, 0x00, 0x00, 0x11, 0x22, 0x33],
        "uses the stored MAC"
    );
}

/// Determinism: same ledger + seed yields the same graph (a host re-binds in
/// the same cell every burst, never a moving target the sensor can't fuse).
#[test]
fn graph_is_deterministic() {
    let cidr = "10.3.0.0/24";
    let mut s = sess(99);
    add_zone(&mut s, cidr);
    for i in 1..=25u8 {
        s.capture_hosts.push(host(&format!("10.3.0.{i}"), cidr));
    }
    assert_eq!(arp_edges(&s, s.seed), arp_edges(&s, s.seed));
}

/// A trailing single node is never stranded: it is merged into a pair so it
/// always has a peer to bind it.
#[test]
fn no_orphan_cell() {
    // 13 nodes, size 6 -> [6,?]: 13 = 6 + 7, and 7 > 6 with 7-6==1 would
    // strand one, so the split is 6,5,2 (every cell >= 2).
    let nodes: Vec<Node> = (0..13)
        .map(|i| Node {
            ip: i as u32,
            mac: [0; 6],
        })
        .collect();
    for cell in cells_no_orphan(&nodes, 6) {
        assert!(
            cell.len() >= 2,
            "cell of size {} strands a node",
            cell.len()
        );
    }
}

/// A zone with a single asset sitting on the station address still binds: it
/// gets a synthetic requester one below, so it is solicited and unions.
#[test]
fn lone_asset_on_station_address_still_binds() {
    let cidr = "10.5.0.0/24";
    let mut s = sess(3);
    add_zone(&mut s, cidr);
    s.capture_hosts.push(host("10.5.0.250", cidr)); // sits on the station addr
    let edges = arp_edges(&s, s.seed);
    let lone = parse_ip("10.5.0.250").unwrap();
    assert!(
        edges.iter().any(|e| e.owner.ip == lone),
        "the lone .250 asset must be solicited and bind: {edges:?}"
    );
}

/// An asset whose zone is absent from `ledger.subnets` is still bound: the
/// graph keys on the asset's own subnet, not the subnet list.
#[test]
fn asset_binds_even_if_zone_not_in_subnet_list() {
    let cidr = "10.6.0.0/24";
    let mut s = sess(5);
    // Note: NO add_zone -- subnets stays empty on purpose.
    s.capture_hosts.push(host("10.6.0.7", cidr));
    s.capture_hosts.push(host("10.6.0.8", cidr));
    let owners: HashSet<u32> = arp_edges(&s, s.seed).iter().map(|e| e.owner.ip).collect();
    assert!(owners.contains(&parse_ip("10.6.0.7").unwrap()));
    assert!(owners.contains(&parse_ip("10.6.0.8").unwrap()));
}

fn zoned(s: &mut Session, cidr: &str, level: u8) {
    s.subnets.push(SubnetRecord {
        cidr: cidr.into(),
        zone_name: "Z".into(),
        purdue_level: level,
        vendor: None,
        ..Default::default()
    });
}

fn cve_dev(ip: &str, cidr: &str) -> DeviceRecord {
    let mut d = dev(ip, cidr);
    d.cves = vec!["CVE-0000-0000".into()];
    d.asset_type = Some("Controller".into());
    d
}

fn infra(ip: &str, cidr: &str, class: &str, mac: &str) -> DeviceRecord {
    let mut d = dev(ip, cidr);
    d.mac = mac.into();
    d.protocol = "switch_snmp".into();
    d.cves = vec!["CVE-0000-0001".into()];
    d.asset_type = Some(class.into());
    d
}

#[test]
fn north_south_pairs_are_adjacent_only() {
    let mut s = sess(11);
    zoned(&mut s, "10.1.0.0/24", 1);
    zoned(&mut s, "10.2.0.0/24", 2);
    zoned(&mut s, "10.3.0.0/24", 3);
    s.devices.push(cve_dev("10.1.0.5", "10.1.0.0/24"));
    s.devices.push(cve_dev("10.1.0.6", "10.1.0.0/24"));
    s.devices.push(cve_dev("10.2.0.5", "10.2.0.0/24"));
    s.devices.push(cve_dev("10.2.0.6", "10.2.0.0/24"));
    s.devices.push(cve_dev("10.3.0.5", "10.3.0.0/24"));
    let xs = north_south_crossings(&s, s.seed, 2);
    assert!(!xs.is_empty(), "adjacent zones yield crossings");
    for c in &xs {
        let n = second_octet(c.north_ip);
        let so = second_octet(c.south_ip);
        // North is exactly one Purdue level above south (2->1 or 3->2), never
        // the non-adjacent 3->1.
        assert!(
            (n == 2 && so == 1) || (n == 3 && so == 2),
            "crossing {n}->{so} is not adjacent"
        );
    }
    assert!(
        xs.iter()
            .any(|c| second_octet(c.north_ip) == 2 && second_octet(c.south_ip) == 1),
        "the 2->1 pair is represented"
    );
    assert!(
        xs.iter()
            .any(|c| second_octet(c.north_ip) == 3 && second_octet(c.south_ip) == 2),
        "the 3->2 pair is represented"
    );
}

#[test]
fn crossings_are_bounded_and_deterministic() {
    let mut s = sess(7);
    zoned(&mut s, "10.1.0.0/24", 1);
    zoned(&mut s, "10.2.0.0/24", 2);
    for i in 1..=20u8 {
        s.devices
            .push(cve_dev(&format!("10.1.0.{i}"), "10.1.0.0/24"));
    }
    s.devices.push(cve_dev("10.2.0.5", "10.2.0.0/24"));
    // One north zone reaching one south zone, capped at max_per_pair even with
    // 20 candidate servers: never a mesh.
    assert_eq!(north_south_crossings(&s, s.seed, 3).len(), 3);
    assert_eq!(
        north_south_crossings(&s, s.seed, 3),
        north_south_crossings(&s, s.seed, 3),
        "deterministic"
    );
}

#[test]
fn conduit_prefers_router_then_firewall_then_switch_then_station() {
    let mut s = sess(5);
    zoned(&mut s, "10.1.0.0/24", 1);
    zoned(&mut s, "10.2.0.0/24", 2);
    s.devices.push(cve_dev("10.1.0.5", "10.1.0.0/24")); // south server
    let sw = infra("10.2.0.20", "10.2.0.0/24", "Switch", "00:90:e8:00:00:20");
    let fw = infra("10.2.0.1", "10.2.0.0/24", "Firewall", "00:09:0f:00:00:01");
    let rt = infra("10.2.0.30", "10.2.0.0/24", "Router", "00:00:0c:00:00:30");
    s.devices.push(sw.clone());
    s.devices.push(fw.clone());
    s.devices.push(rt.clone());
    let station_mac = stable_mac(s.seed, station_addr("10.2.0.0/24"));

    assert_eq!(
        north_south_crossings(&s, s.seed, 1)[0].conduit_mac,
        parse_mac(&rt.mac),
        "router preferred"
    );
    s.devices
        .retain(|d| d.asset_type.as_deref() != Some("Router"));
    assert_eq!(
        north_south_crossings(&s, s.seed, 1)[0].conduit_mac,
        parse_mac(&fw.mac),
        "firewall is next"
    );
    s.devices
        .retain(|d| d.asset_type.as_deref() != Some("Firewall"));
    assert_eq!(
        north_south_crossings(&s, s.seed, 1)[0].conduit_mac,
        parse_mac(&sw.mac),
        "switch is next"
    );
    s.devices
        .retain(|d| d.asset_type.as_deref() != Some("Switch"));
    assert_eq!(
        north_south_crossings(&s, s.seed, 1)[0].conduit_mac,
        station_mac,
        "the station MAC is the last resort, so a pair is never skipped"
    );
}
