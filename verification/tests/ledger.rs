use ot_turbolaser::ledger::{
    effective_asset_cap, effective_device_cap, effective_subnet_cap, CaptureHostRecord,
    DeviceRecord, SchemaError, Session, SubnetRecord, DEFAULT_MAX_ASSETS, MAX_DEVICES, MAX_SUBNETS,
    SCHEMA,
};
use ot_turbolaser::net::{ip_string, parse_ip, parse_net};

fn dev(ip: &str, cidr: &str) -> DeviceRecord {
    DeviceRecord {
        ip: ip.into(),
        mac: "00:00:bc:00:00:01".into(),
        vendor: "Rockwell Automation".into(),
        model: "1756-L61".into(),
        firmware: "20.011".into(),
        protocol: "enip".into(),
        cves: vec!["CVE-2021-22681".into()],
        subnet_cidr: cidr.into(),
        hostname: None,
        asset_type: None,
    }
}

fn subnet(cidr: &str) -> SubnetRecord {
    SubnetRecord {
        cidr: cidr.into(),
        zone_name: "Zone".into(),
        purdue_level: 1,
        vendor: Some("Rockwell Automation".into()),
        ..Default::default()
    }
}

fn chost(ip: &str, cidr: &str) -> CaptureHostRecord {
    CaptureHostRecord {
        origin_ip: format!("172.16.0.{}", ip.rsplit('.').next().unwrap_or("1")),
        ip: ip.into(),
        mac: "02:00:00:11:22:33".into(),
        vendor: None,
        protocol: Some("modbus".into()),
        purdue_level: 1,
        subnet_cidr: cidr.into(),
        hostname: None,
        asset_type: None,
    }
}

#[test]
fn device_cap_is_hard() {
    let mut s = Session::new(1, 0);
    for i in 0..MAX_DEVICES {
        assert!(s.add_device(dev(&format!("10.0.0.{}", i % 256), "10.0.0.0/24")));
    }
    assert_eq!(s.device_count(), MAX_DEVICES);
    assert!(!s.add_device(dev("10.9.9.9", "10.0.0.0/24")));
    assert_eq!(s.device_count(), MAX_DEVICES);
}

#[test]
fn subnet_cap_is_hard_and_dedups() {
    let mut s = Session::new(1, 0);
    for i in 0..MAX_SUBNETS {
        assert!(s.add_subnet(subnet(&format!("10.{i}.0.0/24"))));
    }
    assert!(!s.add_subnet(subnet("10.99.0.0/24")));
    // Duplicate CIDR refused even under the cap.
    let mut s2 = Session::new(1, 0);
    assert!(s2.add_subnet(subnet("10.1.0.0/24")));
    assert!(!s2.add_subnet(subnet("10.1.0.0/24")));
}

#[test]
fn next_free_ip_is_unique_and_exhausts() {
    let net = parse_net("10.0.0.0/30").unwrap(); // 2 usable hosts
    let mut s = Session::new(1, 0);
    let a = s.next_free_ip(net).unwrap();
    s.add_device(dev(&ip_string(a), "10.0.0.0/30"));
    let b = s.next_free_ip(net).unwrap();
    assert_ne!(a, b);
    s.add_device(dev(&ip_string(b), "10.0.0.0/30"));
    assert_eq!(s.next_free_ip(net), None, "subnet exhausted");
}

#[test]
fn rename_cycle_bumps_and_renames() {
    let mut s = Session::new(1, 0);
    s.add_subnet(subnet("10.1.0.0/24"));
    s.add_subnet(subnet("10.2.0.0/24"));
    s.rename_zones_new_cycle(|i, rec| format!("cycle1-zone{i}-{}", rec.cidr));
    assert_eq!(s.cycle, 1);
    assert_eq!(s.subnets[0].zone_name, "cycle1-zone0-10.1.0.0/24");
    assert_eq!(s.subnets[1].zone_name, "cycle1-zone1-10.2.0.0/24");
}

#[test]
fn new_session_is_current_schema_and_unsealed() {
    let s = Session::new(1, 0);
    assert_eq!(s.schema, SCHEMA);
    assert!(!s.is_sealed());
    assert_eq!(s.target_devices, 0);
}

#[test]
fn register_capture_host_dedups_and_honours_cap() {
    let mut s = Session::new(1, 0);
    // Cap of 2 total wire assets; one fabricated device already present.
    s.add_device(dev("10.0.0.5", "10.0.0.0/24"));
    assert!(s.register_capture_host(chost("10.0.0.6", "10.0.0.0/24"), 2));
    assert_eq!(s.total_wire_assets(), 2);
    let gen = s.registry_generation;
    // Cap reached: further registration refused, generation unchanged.
    assert!(!s.register_capture_host(chost("10.0.0.7", "10.0.0.0/24"), 2));
    assert_eq!(s.registry_generation, gen);
    // Dedup by IP even under a larger cap.
    assert!(!s.register_capture_host(chost("10.0.0.6", "10.0.0.0/24"), 10));
    assert_eq!(s.capture_host_count(), 1);
}

#[test]
fn used_ips_unions_devices_and_capture_hosts() {
    let mut s = Session::new(1, 0);
    s.add_device(dev("10.0.0.5", "10.0.0.0/24"));
    s.register_capture_host(chost("10.0.0.6", "10.0.0.0/24"), 100);
    let used = s.used_ips();
    assert!(used.contains(&parse_ip("10.0.0.5").unwrap()));
    assert!(used.contains(&parse_ip("10.0.0.6").unwrap()));
}

#[test]
fn effective_asset_cap_defaults_and_clamps() {
    assert_eq!(effective_asset_cap(None), DEFAULT_MAX_ASSETS);
    assert_eq!(effective_asset_cap(Some(128)), 128);
    assert_eq!(effective_asset_cap(Some(99_999)), MAX_DEVICES);
    assert_eq!(effective_asset_cap(Some(0)), 1);
}

#[test]
fn newer_schema_is_refused_and_older_is_upgraded() {
    let mut s = Session::new(1, 0);
    s.schema = 99;
    assert_eq!(
        s.accept().unwrap_err(),
        SchemaError::TooNew { found: 99, supported: SCHEMA }
    );
    let mut s = Session::new(4660, 100);
    s.schema = 1;
    let s = s.accept().unwrap();
    assert_eq!(s.schema, SCHEMA);
    assert_eq!(s.seed, 4660);
}

#[test]
fn zone_and_device_caps_only_lower() {
    assert_eq!(effective_subnet_cap(None), MAX_SUBNETS);
    assert_eq!(effective_subnet_cap(Some(4)), 4);
    assert_eq!(effective_subnet_cap(Some(400)), MAX_SUBNETS);
    assert_eq!(effective_device_cap(Some(5000)), MAX_DEVICES);
}

#[test]
fn devices_are_counted_by_network() {
    let mut s = Session::new(1, 0);
    s.add_device(dev("10.0.0.5", "10.0.0.0/24"));
    s.add_device(dev("10.1.0.5", "10.1.0.0/24"));
    s.add_device(dev("10.0.0.6", "10.0.0.0/24"));
    let counts = s.device_counts_by_subnet();
    assert_eq!(
        counts,
        vec![("10.0.0.0/24".to_string(), 2), ("10.1.0.0/24".to_string(), 1)]
    );
}

#[test]
fn an_assigned_address_is_not_offered_again() {
    let net = parse_net("10.5.0.0/24").unwrap();
    let mut s = Session::new(0xABCD, 100);
    let ip = s.next_free_ip(net).unwrap();
    s.add_device(dev(&ip_string(ip), "10.5.0.0/24"));
    assert!(s.used_ips().contains(&ip));
    assert_ne!(s.next_free_ip(net).unwrap(), ip);
}
