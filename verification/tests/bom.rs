use ot_turbolaser::simulate::bom::{bom_for, hostname_for, AssetType};

#[test]
fn levels_have_a_firewall_and_expected_shape() {
    for lvl in [1u8, 2, 3] {
        let bom = bom_for(lvl);
        assert!(
            bom.iter()
                .any(|(t, n)| *t == AssetType::Firewall && *n >= 1),
            "level {lvl} has a zone-edge firewall"
        );
    }
    // L3 is server-heavy; L1/L2 are not.
    let servers = |lvl| {
        bom_for(lvl)
            .iter()
            .find(|(t, _)| *t == AssetType::Server)
            .map(|(_, n)| *n)
            .unwrap_or(0)
    };
    assert!(servers(3) >= 4, "L3 DCS is server-heavy");
    assert_eq!(servers(1), 0, "L1 has no servers");
}

#[test]
fn only_controllers_and_switches_are_cve_bearing() {
    assert!(AssetType::Controller.cve_bearing());
    assert!(AssetType::Switch.cve_bearing());
    for t in [
        AssetType::Hmi,
        AssetType::EngWorkstation,
        AssetType::Historian,
        AssetType::Firewall,
        AssetType::Server,
    ] {
        assert!(!t.cve_bearing(), "{} is identity-only", t.label());
    }
}

#[test]
fn hostnames_follow_vendor_conventions() {
    let rk = hostname_for(Some("Rockwell Automation"), AssetType::Controller, 0, 1);
    assert_eq!(rk, "LINE-01-PLC-02");
    let sm = hostname_for(Some("Siemens AG"), AssetType::Controller, 2, 0);
    assert_eq!(sm, "CELL-03-S7-01");
    assert_eq!(hostname_for(None, AssetType::Firewall, 3, 0), "FW-04");
    assert_eq!(hostname_for(None, AssetType::Historian, 1, 0), "HIST-02");
    assert_eq!(hostname_for(None, AssetType::Hmi, 0, 0), "HMI-01-01");
    assert_eq!(hostname_for(None, AssetType::Server, 4, 2), "SRV-05-03");
}

#[test]
fn hostnames_are_deterministic() {
    let a = hostname_for(Some("ABB"), AssetType::Controller, 1, 1);
    let b = hostname_for(Some("ABB"), AssetType::Controller, 1, 1);
    assert_eq!(a, b);
    assert_eq!(a, "LINE-02-AC500-02");
}
