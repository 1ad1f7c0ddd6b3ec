use ot_turbolaser::config::number::Real;
use ot_turbolaser::config::{
    ActorsCfg, Campaign, Config, DnsCfg, GapCfg, GapDist, IocFidelity, L3Cfg, Mode, NetCfg,
    NorthSouthCfg, OuiDbCfg, OversizePolicy, Paths, RateCfg, RateModel, SessionCfg, SynthesisCfg,
    TargetCfg, ThreatsCfg, Watchdog, Weights, ZoneAffinity, ZonesCfg,
};
use ot_turbolaser::ledger::{DeviceRecord, PromotedHost, Session, SubnetRecord};
use ot_turbolaser::mac::parse_mac;
use ot_turbolaser::net::parse_ip;
use ot_turbolaser::oui::OuiDb;
use ot_turbolaser::pcapio::{Capture, OwnedPacket};
use ot_turbolaser::proto::frame::{checksums_valid, parse_layout};
use ot_turbolaser::proto::l3::stable_mac;
use ot_turbolaser::proto::testutil::build_tcp;
use ot_turbolaser::proto::thin::{drop_arp_frames, drop_oversize_frames};
use ot_turbolaser::scenario::action::Action;
use ot_turbolaser::scenario::document::Read;
use ot_turbolaser::scenario::plant::{DeviceSpec, PlantSpec, ZoneSpec};
use ot_turbolaser::scenario::playbook::{Phase, Playbook};
use ot_turbolaser::scenario::preflight;
use ot_turbolaser::simulate::announce::{build_assertions, missing_models, BurstCfg};
use ot_turbolaser::simulate::cache::{
    cache_budget, cache_name, place_for, plan_evictions, projected_total, CacheKey, MAX_SHM_BYTES,
};
use ot_turbolaser::simulate::devices::fabricable;
use ot_turbolaser::simulate::engine::SimulatorEngine;
use ot_turbolaser::simulate::identity::{
    assert_identity, ephemeral_port, fallback_profile, proto_from_str, Exchange,
};
use ot_turbolaser::simulate::listing::{plan_head, render_green, render_sample, render_session};
use ot_turbolaser::simulate::plan::{may_commit, plan_session};
use ot_turbolaser::simulate::remap::{capture_groups, zone_targets};
use ot_turbolaser::simulate::roles::station_addr;
use ot_turbolaser::simulate::wire::{lookup, resolve};
use ot_turbolaser::vuln::{DeviceProfile, ProfileProto, VulnDb};
use pcap_file::pcap::PcapHeader;
use std::time::Duration;

fn dev(proto: &str, model: &str, fw: &str) -> DeviceRecord {
    DeviceRecord {
        ip: "10.20.0.5".into(),
        mac: "00:0e:8c:11:22:33".into(),
        vendor: "Siemens AG".into(),
        model: model.into(),
        firmware: fw.into(),
        protocol: proto.into(),
        cves: vec!["CVE-2020-15782".into()],
        subnet_cidr: "10.20.0.0/24".into(),
        hostname: None,
        asset_type: None,
    }
}

fn identity_for(
    d: &DeviceRecord,
    p: &DeviceProfile,
    switch_beacons: bool,
    seed: u64,
    nonce: u64,
) -> Vec<Exchange> {
    let client_ip = station_addr(&d.subnet_cidr);
    let client_mac = stable_mac(seed, client_ip);
    assert_identity(
        parse_mac(&d.mac),
        parse_ip(&d.ip).unwrap(),
        client_ip,
        client_mac,
        p,
        switch_beacons,
        nonce,
    )
}

fn profile(vuln: &VulnDb, proto: ProfileProto) -> &DeviceProfile {
    vuln.profiles().iter().find(|p| p.protocol == proto).unwrap()
}

#[test]
fn mac_and_station_addr() {
    assert_eq!(
        parse_mac("00:0e:8c:11:22:33"),
        [0x00, 0x0E, 0x8C, 0x11, 0x22, 0x33]
    );
    assert_eq!(
        station_addr("10.20.0.0/24"),
        u32::from_be_bytes([10, 20, 0, 250])
    );
}

#[test]
fn enip_device_yields_request_and_reply() {
    let vuln = VulnDb::embedded();
    let p = profile(&vuln, ProfileProto::Enip);
    let d = dev("enip", &p.model, &p.firmware);
    let xs = identity_for(&d, p, true, 1337, 0);
    assert_eq!(xs.len(), 1, "one List Identity exchange");
    match &xs[0] {
        Exchange::Enip { link, serial, product_name, vendor_id, .. } => {
            assert_eq!(link.device_ip, parse_ip("10.20.0.5").unwrap());
            assert_eq!(*serial, link.device_ip);
            assert_eq!(*product_name, p.enip_product_name.clone().unwrap_or(p.model.clone()));
            assert_eq!(Some(*vendor_id), p.enip_vendor_id);
        }
        other => panic!("{other:?}"),
    }
}

#[test]
fn switch_device_emits_beacons_and_snmp() {
    let vuln = VulnDb::embedded();
    let p = profile(&vuln, ProfileProto::SwitchSnmp);
    let d = dev("switch_snmp", &p.model, &p.firmware);
    let on = identity_for(&d, p, true, 1337, 0);
    assert!(
        matches!(
            on.as_slice(),
            [Exchange::Lldp { .. }, Exchange::Cdp { .. }, Exchange::Snmp { .. }]
        ),
        "lldp + cdp + snmp request/response"
    );
    let off = identity_for(&d, p, false, 1337, 0);
    assert!(
        matches!(off.as_slice(), [Exchange::Snmp { .. }]),
        "beacons off leaves the snmp exchange"
    );
    let fw = vuln
        .profiles()
        .iter()
        .find(|p| p.asset_class.as_deref() == Some("Firewall"))
        .unwrap();
    assert_eq!(
        identity_for(&d, fw, true, 1337, 0).len(),
        1,
        "a firewall sends no discovery beacons"
    );
}

#[test]
fn ephemeral_port_varies_per_burst_and_device() {
    let a = parse_ip("10.0.0.5").unwrap();
    let b = parse_ip("10.0.0.6").unwrap();
    assert!(
        (49152..=65535).contains(&ephemeral_port(0, a)),
        "in the IANA dynamic range"
    );
    assert_ne!(
        ephemeral_port(0, a),
        ephemeral_port(1, a),
        "a new burst uses a new ephemeral port for the same device"
    );
    assert_ne!(
        ephemeral_port(0, a),
        ephemeral_port(0, b),
        "distinct devices use distinct ports within a burst"
    );
}

#[test]
fn successive_scans_are_distinct_connections() {
    let vuln = VulnDb::embedded();
    let p = profile(&vuln, ProfileProto::Modbus);
    let d = dev("modbus", &p.model, &p.firmware);
    // Two bursts (nonce 0 and 1) must differ on the wire, so a sensor sees a
    // fresh connection each scan rather than one it folds and never re-reads.
    let burst0 = identity_for(&d, p, false, 1337, 0);
    let burst1 = identity_for(&d, p, false, 1337, 1);
    assert_ne!(
        format!("{burst0:?}"),
        format!("{burst1:?}"),
        "successive scans are distinct connections (fresh port and ISN)"
    );
}

#[test]
fn plan_evictions_removes_oldest_until_within_budget_and_keeps_keep() {
    // Four 10-byte files, ages 1..4 (index 0 oldest); keep is the oldest.
    let entries = vec![(10, 1), (10, 2), (10, 3), (10, 4)];
    let evict = plan_evictions(&entries, 40, 25, 0);
    // Drop oldest non-keep until <= 25: idx 1 then idx 2 (total 20).
    assert_eq!(evict, vec![1, 2]);
    assert!(
        !evict.contains(&0),
        "the just-written file is never evicted"
    );
    // Under budget evicts nothing.
    let small = vec![(5, 1), (5, 2), (5, 3), (5, 4)];
    assert!(plan_evictions(&small, 20, 25, 0).is_empty());
}

#[test]
fn cache_names_tell_the_key() {
    let key = CacheKey {
        seed: 0xAB,
        generation: 7,
        affinity: ZoneAffinity::Vendor,
        mtime: 100,
        size: 42,
        stem: "modbus.1".into(),
    };
    assert_eq!(
        cache_name(&key),
        "v3.00000000000000ab.g7.v.100.42.modbus.1.pcap"
    );
}

#[test]
fn oversize_captures_are_refused_or_spilled() {
    assert_eq!(place_for(10, 100, OversizePolicy::Skip), Ok(false));
    let big = MAX_SHM_BYTES + 1;
    assert_eq!(place_for(big, u64::MAX, OversizePolicy::RemapToDisk), Ok(true));
    assert_eq!(
        place_for(big, u64::MAX, OversizePolicy::Skip).unwrap_err(),
        "capture is 268435457 bytes, over the 268435456 byte tmpfs budget (on_oversize=skip)"
    );
    assert_eq!(
        place_for(101, 100, OversizePolicy::RemapToDisk).unwrap_err(),
        "capture is 101 bytes, over the 100 byte remap ceiling"
    );
    assert_eq!(cache_budget(false, 5), MAX_SHM_BYTES);
    assert_eq!(cache_budget(true, 5), 10);
    assert_eq!(cache_budget(true, u64::MAX), u64::MAX);
    assert_eq!(projected_total(Some(5), 6, 99), 11);
    assert_eq!(projected_total(None, 6, 99), 99);
}

#[test]
fn fallback_keeps_what_the_record_says() {
    let p = fallback_profile(&dev("s7", "Lost", "1.0"));
    assert_eq!(p.protocol, ProfileProto::S7);
    assert_eq!(p.model, "Lost");
    assert_eq!(p.cves, vec!["CVE-2020-15782".to_string()]);
    assert_eq!(proto_from_str("modbus"), ProfileProto::Modbus);
    assert_eq!(proto_from_str("switch_snmp"), ProfileProto::SwitchSnmp);
    assert_eq!(proto_from_str("dnp3"), ProfileProto::Enip);
}

fn config() -> Config {
    Config {
        iface: "tl0".into(),
        mode: Mode::RedLaser,
        seed: None,
        paths: Paths {
            pool: "/opt/pool".into(),
            variants: "/opt/variants".into(),
            shm_dir: "/dev/shm/x".into(),
            status_file: "/run/x.json".into(),
        },
        l3: L3Cfg::default(),
        rate: RateCfg {
            model: RateModel::Original,
            multiplier: None,
            pps: None,
            pps_multi: None,
            mbps: None,
            mbps_min: None,
            mbps_max: None,
        },
        gap: GapCfg {
            dist: GapDist::ExpPoisson,
            mean_secs: Some(Real { bits: 5.0f64.to_bits() }),
            min_secs: None,
            max_secs: None,
            stddev_secs: None,
            lower_secs: None,
            upper_secs: None,
        },
        weights: Weights::default(),
        watchdog: Watchdog::default(),
        net: NetCfg::default(),
        no_pcaps_retry_secs: 30,
        zones: ZonesCfg::default(),
        synthesis: SynthesisCfg::default(),
        dns: DnsCfg::default(),
        north_south: NorthSouthCfg::default(),
        threats: ThreatsCfg::default(),
        session: SessionCfg::default(),
        oui_db: OuiDbCfg::default(),
        target: None,
    }
}

fn no_frames(_: &Action) -> Vec<Vec<u8>> {
    Vec::new()
}

#[test]
fn an_unsealed_world_grows_by_batches_and_announces_on_its_cadence() {
    let cfg = config();
    let mut e = SimulatorEngine::red(
        &cfg,
        Session::new(1337, 0),
        VulnDb::embedded(),
        OuiDb::embedded(),
        None,
    );
    let t = e.red_tick(0, 1000, &no_frames).expect("the first burst goes out");
    assert_eq!(e.ledger().device_count(), 16, "one batch");
    assert!(e.dirty);
    let arps = t
        .exchanges
        .iter()
        .take_while(|x| matches!(x, Exchange::Arp { .. }))
        .count();
    assert!(arps >= 16, "every device binds");
    assert!(
        t.exchanges[arps..].iter().all(|x| !matches!(x, Exchange::Arp { .. })),
        "the resolutions come first"
    );
    e.saved();
    assert!(!e.dirty);
    assert!(e.red_tick(1, 1010, &no_frames).is_none(), "within the interval");
    assert_eq!(e.ledger().device_count(), 32, "it grows all the same");
    assert!(e.red_tick(2, 1025, &no_frames).is_some(), "25 seconds later");
    assert_eq!(e.announce_count, 2);
}

#[test]
fn a_sealed_world_is_frozen() {
    let cfg = config();
    let mut s = Session::new(7, 0);
    s.add_subnet(SubnetRecord {
        cidr: "10.20.0.0/24".into(),
        zone_name: "Z".into(),
        purdue_level: 1,
        vendor: None,
        domain: None,
    });
    s.add_device(dev("s7", "SIMATIC S7-1200 CPU 1212C", "V4.4.0"));
    s.sealed = true;
    let mut e = SimulatorEngine::red(&cfg, s, VulnDb::embedded(), OuiDb::embedded(), None);
    e.cycle_every = 1;
    assert!(e.red_tick(1, 1, &no_frames).is_some());
    assert_eq!(e.ledger().device_count(), 1);
    assert_eq!(e.ledger().subnets[0].zone_name, "Z");
    assert_eq!(e.ledger().cycle, 0);
    e.sealed = false;
    e.params.max_devices = 1;
    e.red_tick(2, 2, &no_frames);
    assert_eq!(e.ledger().cycle, 1, "a saturated world refreshes its names");
    assert_ne!(e.ledger().subnets[0].zone_name, "Z");
}

#[test]
fn names_are_looked_up_at_the_zone_firewall() {
    let mut s = Session::new(7, 0);
    let mut cpu = dev("s7", "SIMATIC S7-1200 CPU 1212C", "V4.4.0");
    cpu.hostname = Some("cpu.plant.example".into());
    let mut fw = dev("switch_snmp", "FortiGate 100E", "6.0.4");
    fw.ip = "10.20.0.1".into();
    fw.mac = "00:09:0f:00:00:01".into();
    fw.asset_type = Some("Firewall".into());
    fw.hostname = Some("fw.plant.example".into());
    s.add_device(cpu);
    s.add_device(fw);
    let vuln = VulnDb::embedded();
    let cfg = BurstCfg {
        device_identity: true,
        switch_beacons: true,
        ns_enabled: false,
        ns_cadence: 1,
        ns_max_per_pair: 2,
    };
    let xs = build_assertions(&s, &vuln, &cfg, 1, 9);
    let lookups: Vec<&Exchange> =
        xs.iter().filter(|x| matches!(x, Exchange::Dns { .. })).collect();
    assert_eq!(lookups.len(), 1, "the resolver does not query itself");
    match lookups[0] {
        Exchange::Dns { name, resolver_ip, host_ip, .. } => {
            assert_eq!(name, "cpu.plant.example");
            assert_eq!(*resolver_ip, parse_ip("10.20.0.1").unwrap());
            assert_eq!(*host_ip, parse_ip("10.20.0.5").unwrap());
        }
        other => panic!("{other:?}"),
    }
    let off = BurstCfg { device_identity: false, ..cfg };
    assert!(build_assertions(&s, &vuln, &off, 1, 9).is_empty());
    assert!(missing_models(&s, &vuln).is_empty());
    s.add_device(dev("s7", "Lost", "1.0"));
    assert_eq!(missing_models(&s, &vuln), vec!["Lost".to_string()]);
}

fn capture(frames: Vec<Vec<u8>>) -> Capture {
    Capture {
        header: PcapHeader::default(),
        packets: frames
            .into_iter()
            .map(|data| OwnedPacket { ts: Duration::new(1, 0), orig_len: 0, data })
            .collect(),
    }
}

fn arp() -> Vec<u8> {
    let mut b = vec![0xff; 6];
    b.extend_from_slice(&[0x00, 0x11, 0x22, 0x33, 0x44, 0x55, 0x08, 0x06]);
    b.extend_from_slice(&[0x00, 0x01, 0x08, 0x00, 0x06, 0x04, 0x00, 0x01]);
    b.extend_from_slice(&[0x00, 0x11, 0x22, 0x33, 0x44, 0x55, 192, 168, 1, 5]);
    b.extend_from_slice(&[0, 0, 0, 0, 0, 0, 192, 168, 1, 6]);
    b
}

#[test]
fn a_capture_is_reconciled_into_the_plan() {
    let cfg = config();
    let mut s = Session::new(7, 0);
    s.add_subnet(SubnetRecord {
        cidr: "10.70.0.0/24".into(),
        zone_name: "Z".into(),
        purdue_level: 1,
        vendor: None,
        domain: None,
    });
    let mut d = dev("modbus", "BMX P34 2020", "v2.7");
    d.ip = "10.70.0.5".into();
    d.subnet_cidr = "10.70.0.0/24".into();
    s.add_device(d);
    let mut e = SimulatorEngine::red(&cfg, s, VulnDb::embedded(), OuiDb::embedded(), None);
    let mut cap = capture(vec![
        build_tcp([192, 168, 1, 5], [192, 168, 1, 6], 5000, 502, b"x"),
        arp(),
        build_tcp([192, 168, 1, 5], [192, 168, 1, 6], 5000, 502, &[0u8; 1500]),
    ]);
    e.remap_into_session(&cfg, &mut cap, &[]);
    assert_eq!(cap.packets.len(), 1, "the ARP and the oversized frame are out");
    let b = &cap.packets[0].data;
    let l = parse_layout(b).unwrap();
    assert!(checksums_valid(b, &l));
    assert_eq!(&b[l.l3 + 12..l.l3 + 15], &[10, 70, 0]);
    assert_ne!(b[l.l3 + 15], 5, "the device's address is reserved");
    assert_eq!(e.ledger().capture_host_count(), 2);
    assert_eq!(e.ledger().registry_generation, 2);
    assert!(e.dirty);
    // The same capture again rides the registered assets.
    let mut again = capture(vec![build_tcp([192, 168, 1, 5], [192, 168, 1, 6], 5000, 502, b"x")]);
    e.remap_into_session(&cfg, &mut again, &[]);
    assert_eq!(again.packets[0].data, cap.packets[0].data);
    assert_eq!(e.ledger().capture_host_count(), 2);
}

#[test]
fn without_zones_a_capture_is_moved_from_the_seed() {
    let cfg = config();
    let mut e = SimulatorEngine::red(
        &cfg,
        Session::new(7, 0),
        VulnDb::embedded(),
        OuiDb::embedded(),
        None,
    );
    let mut cap = capture(vec![build_tcp([192, 168, 1, 5], [192, 168, 1, 6], 5000, 502, b"x")]);
    e.remap_into_session(&cfg, &mut cap, &[]);
    assert_eq!(cap.packets.len(), 1);
    assert_eq!(cap.packets[0].data[14 + 12], 10, "a private network");
    assert_eq!(e.ledger().capture_host_count(), 0);
}

#[test]
fn groups_take_the_protocol_of_their_traffic() {
    let cap = capture(vec![
        build_tcp([192, 168, 1, 5], [192, 168, 1, 6], 5000, 502, b"x"),
        build_tcp([192, 168, 1, 5], [192, 168, 1, 6], 5000, 502, b"y"),
        build_tcp([192, 168, 1, 5], [192, 168, 2, 6], 102, 5000, b"z"),
    ]);
    let gs = capture_groups(&cap, &[], &OuiDb::embedded());
    assert_eq!(gs.len(), 2);
    assert_eq!(gs[0].protocol.as_deref(), Some("modbus"));
    assert_eq!(gs[1].protocol.as_deref(), Some("s7"));
    assert_eq!(gs[0].hosts.len(), 2);
}

#[test]
fn zone_targets_reserve_their_devices() {
    let mut s = Session::new(7, 0);
    s.add_subnet(SubnetRecord {
        cidr: "10.20.0.0/24".into(),
        zone_name: "Z".into(),
        purdue_level: 2,
        vendor: Some("Siemens AG".into()),
        domain: None,
    });
    s.add_subnet(SubnetRecord { cidr: "nowhere".into(), ..Default::default() });
    s.add_device(dev("s7", "m", "f"));
    let ts = zone_targets(&s);
    assert_eq!(ts.len(), 1, "a zone that is no network is left out");
    assert_eq!(ts[0].protocol.as_deref(), Some("s7"));
    assert!(ts[0].reserved.contains(&parse_ip("10.20.0.5").unwrap()));
}

#[test]
fn thinning_counts_what_it_drops() {
    let mut cap = capture(vec![
        arp(),
        build_tcp([10, 0, 0, 1], [10, 0, 0, 2], 1, 2, &[0u8; 100]),
        vec![0u8; 4],
    ]);
    assert_eq!(drop_oversize_frames(&mut cap, 100), 1);
    assert_eq!(drop_arp_frames(&mut cap), 1);
    assert_eq!(cap.packets.len(), 1, "what is no frame is no ARP either");
}

#[test]
fn a_plan_is_a_function_of_its_seed() {
    let cfg = config();
    let (vuln, oui) = (VulnDb::embedded(), OuiDb::embedded());
    let (a, added) = plan_session(&cfg, &vuln, &oui, 1337, 0, None);
    let (b, _) = plan_session(&cfg, &vuln, &oui, 1337, 0, None);
    assert_eq!(added, 64);
    assert_eq!(a.target_devices, a.device_count());
    assert!(a.device_count() > 64, "the supporting cast is counted");
    assert_eq!(a.max_assets, 512);
    assert!(!a.is_sealed());
    assert_eq!(a.devices, b.devices);
    for (i, d) in a.devices.iter().enumerate() {
        assert!(a.devices[i + 1..].iter().all(|e| e.ip != d.ip), "{} is given twice", d.ip);
    }
    assert!(a.subnets.iter().filter(|z| z.purdue_level == 3).count() == 3);
    assert!(a.subnets.iter().all(|z| z.domain.is_some()));
    let (c, added) = plan_session(&cfg, &vuln, &oui, 1337, 0, Some(5));
    assert_eq!(added, 5);
    assert!(c.device_count() < a.device_count());
    assert!(may_commit(false, false) && may_commit(true, true) && !may_commit(true, false));
}

#[test]
fn listings_line_up() {
    let mut s = Session::new(7, 0);
    s.add_subnet(SubnetRecord {
        cidr: "10.20.0.0/24".into(),
        zone_name: "Z".into(),
        purdue_level: 2,
        vendor: None,
        domain: Some("plant.example".into()),
    });
    s.add_device(dev("s7", "m", "f"));
    assert_eq!(
        render_session(&s),
        vec![
            "red-laser session: 1 zone(s), 1 device(s), cycle 0".to_string(),
            format!(
                "  {:<18} L{} {:<34} {:>4} devices  {:<20} {}",
                "10.20.0.0/24", 2, "Z", 1, "-", "plant.example"
            ),
        ]
    );
    let sample = render_sample(&s.devices);
    assert_eq!(
        sample[1],
        format!(
            "  {:<15} {:<22} {:<30} {:<10} [{}]",
            "10.20.0.5", "Siemens AG", "m", "f", "CVE-2020-15782"
        )
    );
    for i in 0..14 {
        let mut d = dev("s7", "m", "f");
        d.ip = format!("10.20.0.{}", 10 + i);
        s.add_device(d);
    }
    let sample = render_sample(&s.devices);
    assert_eq!(sample.len(), 14);
    assert_eq!(sample[13], "  ... and 3 more");
    assert_eq!(render_green(&vec![]), vec!["no zones derived from the captures"]);
    assert_eq!(
        plan_head(0xAB, 5, 2, None),
        "plan (preview, no traffic): seed=0x00000000000000ab, fabricated 5 device(s) across 2 zone(s)"
    );
    assert_eq!(
        plan_head(0xAB, 5, 2, Some("/s.json")),
        "committed plan: seed=0x00000000000000ab, 5 device(s) across 2 zone(s) -> /s.json"
    );
}

#[test]
fn a_payload_with_an_original_address_is_dropped() {
    let cfg = config();
    let mut s = Session::new(7, 0);
    s.add_subnet(SubnetRecord {
        cidr: "10.70.0.0/24".into(),
        zone_name: "Z".into(),
        purdue_level: 1,
        vendor: None,
        domain: None,
    });
    let mut e = SimulatorEngine::red(&cfg, s, VulnDb::embedded(), OuiDb::embedded(), None);
    let mut cap = capture(vec![
        build_tcp([192, 168, 1, 5], [192, 168, 1, 6], 5000, 502, &[1, 2, 192, 168, 1, 6, 3]),
        build_tcp([192, 168, 1, 5], [192, 168, 1, 6], 5000, 502, &[1, 2, 192, 168, 1, 7, 3]),
    ]);
    e.remap_into_session(&cfg, &mut cap, &[]);
    assert_eq!(cap.packets.len(), 1, "the first frame still names a host");
    let l = parse_layout(&cap.packets[0].data).unwrap();
    assert_eq!(cap.packets[0].data[l.payload + 5], 7);
}

#[test]
fn a_promotion_is_logged_with_its_time() {
    let cfg = config();
    let mut e = SimulatorEngine::red(
        &cfg,
        Session::new(7, 0),
        VulnDb::embedded(),
        OuiDb::embedded(),
        None,
    );
    assert!(e.promotion_due(50, 50) && !e.promotion_due(51, 50));
    assert!(!e.maybe_promote(50, 50, None));
    assert!(!e.dirty);
    assert_eq!(e.ledger().last_threat_unix, None);
    let record = |at: u64| PromotedHost {
        original_ip: "10.1.0.5".into(),
        external_ip: "203.0.113.7".into(),
        mac: "00:0e:8c:00:00:05".into(),
        promoted_unix: at,
    };
    assert!(!e.maybe_promote(61, 60, Some(record(60))), "not before the drawn time");
    assert!(e.maybe_promote(60, 60, Some(record(60))));
    assert!(e.dirty);
    assert_eq!(e.ledger().promoted.len(), 1);
    assert_eq!(e.ledger().promoted[0].external_ip, "203.0.113.7");
    assert_eq!(e.ledger().last_threat_unix, Some(60));
    assert!(!e.promotion_due(0, 86_459), "a day is not over");
    assert!(!e.promotion_due(0, 59), "nor where the clock went back");
    assert!(!e.maybe_promote(0, 86_459, Some(record(86_459))));
    assert!(e.maybe_promote(0, 86_460, Some(record(86_460))));
    assert_eq!(e.ledger().promoted.len(), 2);
    e.threats_enabled = false;
    assert!(!e.promotion_due(0, u64::MAX));
    e.saved();
    assert!(!e.dirty);
}

#[test]
fn a_resolution_binds_its_owner() {
    let (a, b) = ([0, 1, 2, 3, 4, 5], [0, 0x0e, 0x8c, 1, 2, 3]);
    let (req, rep) = resolve(a, 0x0a01_0005, b, 0x0a01_0006);
    assert_eq!((req.len(), rep.len()), (60, 60));
    assert_eq!(&req[..6], &[0xff; 6], "the request is broadcast");
    assert_eq!(&req[6..12], &a);
    assert_eq!(&req[12..22], &[8, 6, 0, 1, 8, 0, 6, 4, 0, 1]);
    assert_eq!(&req[38..42], &[10, 1, 0, 6]);
    assert_eq!(&rep[..6], &a, "the reply is unicast");
    assert_eq!(&rep[6..12], &b);
    assert_eq!(rep[21], 2);
    assert_eq!(&rep[22..28], &b);
    assert_eq!(&rep[28..32], &[10, 1, 0, 6]);
    assert_eq!(&rep[38..42], &[10, 1, 0, 5]);
}

#[test]
fn a_lookup_asks_and_answers() {
    let (h, r) = ([0, 1, 2, 3, 4, 5], [0, 9, 0x0f, 1, 2, 3]);
    let (q, a) = lookup(h, r, 0x0a01_0005, 0x0a01_0001, 50000, 0x1234, "plc.lan").unwrap();
    assert_eq!(&q[..6], &r);
    assert_eq!(&q[6..12], &h);
    let asked = [3, b'p', b'l', b'c', 3, b'l', b'a', b'n', 0, 0, 1, 0, 1];
    assert_eq!(&q[42..54], &[0x12, 0x34, 1, 0, 0, 1, 0, 0, 0, 0, 0, 0]);
    assert_eq!(&q[54..], &asked);
    assert_eq!(&a[42..54], &[0x12, 0x34, 0x81, 0x80, 0, 1, 0, 1, 0, 0, 0, 0]);
    assert_eq!(&a[54..67], &asked);
    assert_eq!(&a[a.len() - 4..], &[10, 1, 0, 5]);
    for f in [&q, &a] {
        let l = parse_layout(f).unwrap();
        assert!(checksums_valid(f, &l));
    }
    assert!(lookup(h, r, 1, 2, 3, 4, &"x".repeat(256)).is_none());
    let long = "y".repeat(80);
    let (q, _) = lookup(h, r, 1, 2, 3, 4, &long).unwrap();
    assert_eq!(q[54], 63, "a label is cut to what its length can say");
}

#[test]
fn without_a_core_profile_a_plan_has_no_controllers() {
    let cfg = config();
    let infra: Vec<DeviceProfile> = VulnDb::embedded()
        .profiles()
        .iter()
        .filter(|p| p.asset_class.is_some())
        .cloned()
        .collect();
    assert!(!infra.is_empty());
    let vuln = VulnDb::new(infra);
    let (s, added) = plan_session(&cfg, &vuln, &OuiDb::embedded(), 1337, 0, None);
    assert_eq!(added, 0);
    assert!(s.subnets.iter().all(|z| z.purdue_level == 3), "operations zones alone");
    assert!(fabricable(&Session::new(1, 0), &vuln), "nothing has room");
    assert!(!fabricable(&s, &vuln));
    assert!(fabricable(&s, &VulnDb::embedded()));
    assert!(fabricable(&s, &VulnDb::new(Vec::new())));
}

#[test]
fn a_payload_with_an_address_that_the_plan_shares_is_dropped() {
    let cfg = config();
    let mut s = Session::new(7, 0);
    s.add_subnet(SubnetRecord {
        cidr: "10.70.0.0/24".into(),
        zone_name: "Z".into(),
        purdue_level: 1,
        vendor: None,
        domain: None,
    });
    let mut d = dev("modbus", "BMX P34 2020", "v2.7");
    d.ip = "10.70.0.5".into();
    d.subnet_cidr = "10.70.0.0/24".into();
    s.add_device(d);
    let mut e = SimulatorEngine::red(&cfg, s, VulnDb::embedded(), OuiDb::embedded(), None);
    let mut cap = capture(vec![
        build_tcp([10, 70, 0, 5], [192, 168, 1, 6], 5000, 502, &[1, 2, 10, 70, 0, 5, 3]),
        build_tcp([10, 70, 0, 5], [192, 168, 1, 6], 5000, 502, b"plain"),
    ]);
    e.remap_into_session(&cfg, &mut cap, &[]);
    assert_eq!(cap.packets.len(), 1);
}

#[test]
fn preflight_reports_the_first_fault_of_a_pack() {
    let cfg = config();
    let (vuln, oui) = (VulnDb::embedded(), OuiDb::embedded());
    let target = TargetCfg {
        name: "demo".into(),
        description: None,
        profiles: "profiles.toml".into(),
        playbook: "playbook.yaml".into(),
        plant: "plant.yaml".into(),
        campaign: Campaign::Oneshot,
        max_frames_per_burst: 64,
        ioc_fidelity: IocFidelity::Real,
        actors: ActorsCfg::default(),
        pack_dir: "/packs/demo".into(),
    };
    let plant = |model: Option<&str>| {
        Read::Given(PlantSpec {
            zones: vec![ZoneSpec {
                cidr: "10.0.0.0/24".into(),
                name: "Z".into(),
                purdue_level: 1,
                vendor: None,
            }],
            devices: vec![DeviceSpec {
                zone: "10.0.0.0/24".into(),
                model: model.map(String::from),
                ip: None,
                hostname: None,
                asset_type: None,
                vendor: None,
                firmware: None,
                protocol: None,
            }],
            domains: Vec::new(),
            enrich: false,
        })
    };
    let check = |book, plant, profiles| {
        preflight(&cfg, &target, book, plant, &vuln, &oui, "/p.toml", profiles).err()
    };
    let no_book = || Read::Malformed("b".to_string());
    let e = check(no_book(), Read::Malformed("p".into()), Some("= nonsense")).unwrap();
    assert!(e.starts_with("scenario profiles /p.toml is malformed: "), "{e}");
    assert_eq!(
        check(no_book(), Read::Malformed("p".into()), None),
        Some("parsing plant spec: p".into())
    );
    let e = check(no_book(), plant(Some("NO SUCH MODEL")), Some("  ")).unwrap();
    assert!(e.starts_with("scenario plant model \"NO SUCH MODEL\""), "{e}");
    assert_eq!(
        check(no_book(), plant(Some("SIMATIC S7-1200 CPU 1212C")), None),
        Some("parsing playbook: b".into())
    );
    let book = Playbook {
        phases: vec![Phase {
            id: "a".into(),
            name: None,
            techniques: Vec::new(),
            dwell_runs: 1,
            events: Vec::new(),
        }],
    };
    assert_eq!(check(Read::Given(book), plant(Some("SIMATIC S7-1200 CPU 1212C")), None), None);
}

#[test]
fn a_ledger_over_the_caps_still_runs() {
    let cfg = config();
    let mut s = Session::new(7, 0);
    for i in 0..20 {
        s.subnets.push(SubnetRecord {
            cidr: format!("10.{}.0.0/24", i % 19),
            zone_name: "Z".into(),
            purdue_level: 1,
            vendor: None,
            domain: None,
        });
    }
    s.sealed = true;
    let mut e = SimulatorEngine::red(&cfg, s, VulnDb::embedded(), OuiDb::embedded(), None);
    e.red_tick(1, 1, &no_frames);
    assert_eq!(e.ledger().subnet_count(), 20);
}
