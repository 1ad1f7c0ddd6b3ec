use ot_turbolaser::ledger::{DeviceRecord, Session};
use ot_turbolaser::net::{ip_string, parse_net};
use ot_turbolaser::oui::OuiDb;
use ot_turbolaser::simulate::devices::{fabricate, AllocParams};
use ot_turbolaser::simulate::enrich::{create_l3_zones, enrich_plant};
use ot_turbolaser::vuln::VulnDb;
use rand::SeedableRng;
use rand_chacha::ChaCha8Rng;
use std::collections::HashSet;

fn db() -> VulnDb {
    VulnDb::embedded()
}

#[test]
fn respects_caps_and_unique_ips() {
    let params = AllocParams {
        max_subnets: 4,
        max_devices: 50,
        default_prefix: 24,
    };
    let mut s = Session::new(123, 0);
    let mut rng = ChaCha8Rng::seed_from_u64(123);
    let added = fabricate(&mut s, &db(), &params, 50, &mut rng);
    assert_eq!(added, 50);
    assert_eq!(s.device_count(), 50);
    assert!(s.subnet_count() >= 1 && s.subnet_count() <= 4);
    let ips: HashSet<&String> = s.devices.iter().map(|d| &d.ip).collect();
    assert_eq!(ips.len(), s.devices.len(), "IPs are unique");
    for d in &s.devices {
        assert!(!d.cves.is_empty(), "{} carries a CVE", d.model);
        assert!(s.subnets.iter().any(|z| z.cidr == d.subnet_cidr));
    }
}

#[test]
fn device_cap_bounds_the_target() {
    let params = AllocParams {
        max_subnets: 10,
        max_devices: 5,
        default_prefix: 24,
    };
    let mut s = Session::new(1, 0);
    let mut rng = ChaCha8Rng::seed_from_u64(1);
    let added = fabricate(&mut s, &db(), &params, 1000, &mut rng);
    assert_eq!(added, 5, "the device cap bounds an over-large target");
}

#[test]
fn fabrication_covers_all_protocols() {
    let params = AllocParams {
        max_subnets: 10,
        max_devices: 64,
        default_prefix: 24,
    };
    let mut s = Session::new(1337, 0);
    let mut rng = ChaCha8Rng::seed_from_u64(1337);
    fabricate(&mut s, &db(), &params, 64, &mut rng);
    let protos: HashSet<&str> = s.devices.iter().map(|d| d.protocol.as_str()).collect();
    for p in ["enip", "modbus", "s7", "switch_snmp"] {
        assert!(
            protos.contains(p),
            "a 64-device fleet covers {p}: {protos:?}"
        );
    }
}

#[test]
fn devices_deterministic_for_same_seed() {
    let params = AllocParams {
        max_subnets: 5,
        max_devices: 30,
        default_prefix: 24,
    };
    let run = || {
        let mut s = Session::new(7, 0);
        let mut rng = ChaCha8Rng::seed_from_u64(7);
        fabricate(&mut s, &db(), &params, 30, &mut rng);
        s.devices
            .iter()
            .map(|d| (d.ip.clone(), d.model.clone()))
            .collect::<Vec<_>>()
    };
    assert_eq!(run(), run());
}

#[test]
fn enrich_adds_bom_firewall_and_names_most_devices() {
    let params = AllocParams {
        max_subnets: 10,
        max_devices: 300,
        default_prefix: 24,
    };
    let mut s = Session::new(2024, 0);
    let mut rng = ChaCha8Rng::seed_from_u64(2024);
    let controllers = fabricate(&mut s, &db(), &params, 64, &mut rng);
    let cve_before = s.devices.iter().filter(|d| !d.cves.is_empty()).count();

    enrich_plant(&mut s, &db(), &OuiDb::embedded(), 2024);

    // Every zone has a firewall at .1, plus an HMI and an engineering station.
    for sn in &s.subnets {
        let net = parse_net(&sn.cidr).unwrap();
        let gw = ip_string(net.network() + 1);
        assert!(
            s.devices
                .iter()
                .any(|d| d.ip == gw && d.asset_type.as_deref() == Some("Firewall")),
            "zone {} has a firewall at .1",
            sn.cidr
        );
        for t in ["HMI", "EWS"] {
            assert!(
                s.devices
                    .iter()
                    .any(|d| d.subnet_cidr == sn.cidr && d.asset_type.as_deref() == Some(t)),
                "zone {} has a {t}",
                sn.cidr
            );
        }
    }
    // Before the BOM, the CVE-bearing set is exactly the fabricated core.
    assert_eq!(
        cve_before, controllers,
        "the fabricated core carries the CVEs"
    );
    // The zone-edge firewall is now CVE-bearing (a real SNMP identity); the
    // operator-facing classes (HMI/EWS/historian/server) stay identity-only.
    let firewalls: Vec<&DeviceRecord> = s
        .devices
        .iter()
        .filter(|d| d.asset_type.as_deref() == Some("Firewall"))
        .collect();
    assert!(!firewalls.is_empty());
    assert!(
        firewalls
            .iter()
            .all(|d| !d.cves.is_empty() && d.protocol == "switch_snmp"),
        "every zone firewall carries a CVE over SNMP"
    );
    let cve_after = s.devices.iter().filter(|d| !d.cves.is_empty()).count();
    assert!(cve_after > cve_before, "the BOM firewalls/routers add CVEs");
    for d in &s.devices {
        if matches!(
            d.asset_type.as_deref(),
            Some("HMI") | Some("EWS") | Some("Historian") | Some("Server")
        ) {
            assert!(d.cves.is_empty(), "{} is identity-only", d.ip);
        }
    }
    // Most core assets are named (BOM all named, controllers ~85%).
    let named = s.devices.iter().filter(|d| d.hostname.is_some()).count();
    assert!(
        named * 10 > s.devices.len() * 6,
        "most assets are DNS-named: {named}/{}",
        s.devices.len()
    );
    // IPs stay unique once the BOM is in.
    let ips: HashSet<&String> = s.devices.iter().map(|d| &d.ip).collect();
    assert_eq!(ips.len(), s.devices.len(), "IPs unique including the BOM");
}

#[test]
fn l3_zones_are_server_identity_only() {
    let params = AllocParams {
        max_subnets: 16,
        max_devices: 400,
        default_prefix: 24,
    };
    let mut s = Session::new(99, 0);
    let mut rng = ChaCha8Rng::seed_from_u64(99);
    fabricate(
        &mut s,
        &db(),
        &AllocParams {
            max_subnets: 10,
            ..params
        },
        64,
        &mut rng,
    );
    create_l3_zones(&mut s, &params, 3, &mut rng);
    enrich_plant(&mut s, &db(), &OuiDb::embedded(), 99);

    let l3: HashSet<String> = s
        .subnets
        .iter()
        .filter(|z| z.purdue_level == 3)
        .map(|z| z.cidr.clone())
        .collect();
    assert_eq!(l3.len(), 3, "three L3 (DCS) zones created");
    assert!(s.subnet_count() <= 16, "within the raised subnet cap");

    let l3_devs: Vec<&DeviceRecord> = s
        .devices
        .iter()
        .filter(|d| l3.contains(&d.subnet_cidr))
        .collect();
    assert!(!l3_devs.is_empty(), "L3 zones are populated by the BOM");
    for d in &l3_devs {
        assert_ne!(
            d.asset_type.as_deref(),
            Some("Controller"),
            "L3 zones hold servers/hosts, not controllers"
        );
        // The zone-edge firewall and router carry CVEs; servers and operator
        // stations are identity-only.
        match d.asset_type.as_deref() {
            Some("Firewall") | Some("Router") => {
                assert!(!d.cves.is_empty(), "L3 {} carries a CVE", d.ip)
            }
            _ => assert!(d.cves.is_empty(), "L3 asset {} is identity-only", d.ip),
        }
    }
    assert!(
        l3_devs
            .iter()
            .any(|d| d.asset_type.as_deref() == Some("Server")),
        "an L3 DCS zone is server-heavy"
    );
}
