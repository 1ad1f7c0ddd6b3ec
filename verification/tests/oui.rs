use ot_turbolaser::oui::{it_pool_oui, parse_prefix, OuiDb};

#[test]
fn embedded_loads_known_vendors() {
    let db = OuiDb::embedded();
    assert!(!db.is_empty());
    // Rockwell/Allen-Bradley legacy prefix.
    assert_eq!(
        db.vendor([0x00, 0x00, 0xBC, 1, 2, 3]),
        Some("Rockwell Automation")
    );
    // Siemens.
    assert_eq!(db.vendor([0x00, 0x0E, 0x8C, 9, 9, 9]), Some("Siemens AG"));
}

#[test]
fn unknown_prefix_is_none() {
    let db = OuiDb::embedded();
    assert_eq!(db.vendor([0xDE, 0xAD, 0xBE, 0, 0, 0]), None);
}

#[test]
fn parses_separated_and_bare_prefixes() {
    assert_eq!(parse_prefix("00:00:BC"), Some([0, 0, 0xBC]));
    assert_eq!(parse_prefix("00-00-bc"), Some([0, 0, 0xBC]));
    assert_eq!(parse_prefix("0000BC"), Some([0, 0, 0xBC]));
    assert_eq!(parse_prefix("00:00"), None);
    assert_eq!(parse_prefix("zzzzzz"), None);
}

#[test]
fn on_disk_missing_falls_back_to_embedded() {
    let db = OuiDb::load(None);
    assert!(!db.is_empty());
}

#[test]
fn oui_for_vendor_round_trips_and_is_deterministic() {
    let db = OuiDb::embedded();
    // ABB must resolve both ways.
    let abb = db.oui_for_vendor("ABB", 0).expect("ABB has an OUI");
    assert_eq!(db.vendor_of_prefix(abb), Some("ABB"));
    // A multi-OUI vendor: every pick still belongs to that vendor, and the
    // pick is stable for a given salt.
    for salt in 0..6u64 {
        let p = db.oui_for_vendor("Siemens AG", salt).unwrap();
        assert_eq!(db.vendor_of_prefix(p), Some("Siemens AG"));
    }
    assert_eq!(
        db.oui_for_vendor("Siemens AG", 7),
        db.oui_for_vendor("Siemens AG", 7)
    );
    assert!(db.oui_for_vendor("No Such Vendor", 0).is_none());
}

#[test]
fn it_pool_is_global_and_resolvable() {
    let db = OuiDb::embedded();
    for salt in 0..14u64 {
        let oui = it_pool_oui(salt);
        assert_eq!(oui[0] & 0x02, 0, "IT OUI is globally administered");
        assert!(
            db.vendor_of_prefix(oui).is_some(),
            "IT-pool OUI {oui:?} resolves to a vendor"
        );
    }
}
