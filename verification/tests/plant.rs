use ot_turbolaser::config::{ActorsCfg, Campaign, IocFidelity, TargetCfg};
use ot_turbolaser::ledger::Session;
use ot_turbolaser::oui::OuiDb;
use ot_turbolaser::scenario::document::Read;
use ot_turbolaser::scenario::plant::{
    build_sealed_session, pin_from_pack, DeviceSpec, PlantSpec, ZoneSpec,
};
use ot_turbolaser::scenario::playbook::{Phase, Playbook};
use ot_turbolaser::scenario::registry::{discover, shallow_meta, PackEntry};
use ot_turbolaser::scenario::{build_validated_plant, check_models, check_profiles, profiles_verdict};
use ot_turbolaser::vuln::VulnDb;
use serde::de::{Error, MapAccess, Visitor};
use serde::{Deserialize, Deserializer};

// Documents are read field by field, as the library's types have them: a text field
// takes the text of any scalar, and a list that is left blank is empty.

struct ZoneDoc(ZoneSpec);

impl<'de> Deserialize<'de> for ZoneDoc {
    fn deserialize<D: Deserializer<'de>>(d: D) -> Result<Self, D::Error> {
        d.deserialize_map(ZoneVisitor).map(ZoneDoc)
    }
}

struct ZoneVisitor;

impl<'de> Visitor<'de> for ZoneVisitor {
    type Value = ZoneSpec;

    fn expecting(&self, f: &mut std::fmt::Formatter) -> std::fmt::Result {
        f.write_str("a table")
    }

    fn visit_map<A: MapAccess<'de>>(self, mut m: A) -> Result<ZoneSpec, A::Error> {
        let (mut cidr, mut name, mut level, mut vendor) = (None, None, None, None);
        while let Some(k) = m.next_key::<String>()? {
            match k.as_str() {
                "cidr" => cidr = Some(m.next_value()?),
                "name" => name = Some(m.next_value()?),
                "purdue_level" => level = Some(m.next_value()?),
                "vendor" => vendor = m.next_value()?,
                _ => return Err(A::Error::custom(format!("unknown field `{k}`"))),
            }
        }
        let missing = || A::Error::custom("missing field");
        Ok(ZoneSpec {
            cidr: cidr.ok_or_else(missing)?,
            name: name.ok_or_else(missing)?,
            purdue_level: level.ok_or_else(missing)?,
            vendor,
        })
    }
}

struct DeviceDoc(DeviceSpec);

impl<'de> Deserialize<'de> for DeviceDoc {
    fn deserialize<D: Deserializer<'de>>(d: D) -> Result<Self, D::Error> {
        d.deserialize_map(DeviceVisitor).map(DeviceDoc)
    }
}

struct DeviceVisitor;

impl<'de> Visitor<'de> for DeviceVisitor {
    type Value = DeviceSpec;

    fn expecting(&self, f: &mut std::fmt::Formatter) -> std::fmt::Result {
        f.write_str("a table")
    }

    fn visit_map<A: MapAccess<'de>>(self, mut m: A) -> Result<DeviceSpec, A::Error> {
        let mut zone = None;
        let mut d = DeviceSpec {
            zone: String::new(),
            model: None,
            ip: None,
            hostname: None,
            asset_type: None,
            vendor: None,
            firmware: None,
            protocol: None,
        };
        while let Some(k) = m.next_key::<String>()? {
            match k.as_str() {
                "zone" => zone = Some(m.next_value()?),
                "model" => d.model = m.next_value()?,
                "ip" => d.ip = m.next_value()?,
                "hostname" => d.hostname = m.next_value()?,
                "asset_type" => d.asset_type = m.next_value()?,
                "vendor" => d.vendor = m.next_value()?,
                "firmware" => d.firmware = m.next_value()?,
                "protocol" => d.protocol = m.next_value()?,
                _ => return Err(A::Error::custom(format!("unknown field `{k}`"))),
            }
        }
        d.zone = zone.ok_or_else(|| A::Error::custom("missing field `zone`"))?;
        Ok(d)
    }
}

struct PlantDoc(PlantSpec);

impl<'de> Deserialize<'de> for PlantDoc {
    fn deserialize<D: Deserializer<'de>>(d: D) -> Result<Self, D::Error> {
        d.deserialize_map(PlantVisitor).map(PlantDoc)
    }
}

struct PlantVisitor;

impl<'de> Visitor<'de> for PlantVisitor {
    type Value = PlantSpec;

    fn expecting(&self, f: &mut std::fmt::Formatter) -> std::fmt::Result {
        f.write_str("a table")
    }

    fn visit_map<A: MapAccess<'de>>(self, mut m: A) -> Result<PlantSpec, A::Error> {
        let mut zones: Option<Vec<ZoneDoc>> = None;
        let mut devices: Vec<DeviceDoc> = Vec::new();
        let (mut domains, mut enrich) = (Vec::new(), true);
        while let Some(k) = m.next_key::<String>()? {
            match k.as_str() {
                "zones" => zones = Some(m.next_value()?),
                "devices" => devices = m.next_value()?,
                "domains" => domains = m.next_value()?,
                "enrich" => enrich = m.next_value()?,
                _ => return Err(A::Error::custom(format!("unknown field `{k}`"))),
            }
        }
        let zones = zones.ok_or_else(|| A::Error::custom("missing field `zones`"))?;
        Ok(PlantSpec {
            zones: zones.into_iter().map(|z| z.0).collect(),
            devices: devices.into_iter().map(|d| d.0).collect(),
            domains,
            enrich,
        })
    }
}

fn parse(yaml: &str) -> Result<PlantSpec, String> {
    let read = serde_norway::from_str::<PlantDoc>(yaml);
    PlantSpec::parse(read.map(|d| d.0).map_err(|e| e.to_string()))
}

fn build(yaml: &str, seed: u64, scenario: &str, domains: &[String]) -> Result<Session, String> {
    let spec = parse(yaml).unwrap();
    build_sealed_session(
        &spec,
        &VulnDb::embedded(),
        &OuiDb::embedded(),
        seed,
        0,
        scenario,
        domains,
    )
}

fn spec_yaml() -> &'static str {
    "zones:
  - { cidr: 10.20.10.0/24, name: 'Cascade Protection (L1)', purdue_level: 1, vendor: 'Siemens AG' }
devices:
  - { zone: 10.20.10.0/24, model: 'SIMATIC S7-300 CPU 315-2 PN/DP', ip: 10.20.10.11, hostname: A87-CPU }
  - { zone: 10.20.10.0/24, asset_type: SIS, vendor: 'Schneider Electric', protocol: tristation, ip: 10.20.10.20 }
enrich: true
"
}

#[test]
fn builds_a_sealed_scenario_ledger_with_pinned_kit() {
    let spec = parse(spec_yaml()).expect("spec parses");
    let vuln = VulnDb::embedded();
    let oui = OuiDb::embedded();
    let s = build_sealed_session(
        &spec,
        &vuln,
        &oui,
        1337,
        100,
        "stuxnet",
        &["plant.example".into()],
    )
    .expect("builds");

    assert!(s.is_sealed(), "scenario ledger is sealed");
    assert_eq!(s.scenario.as_deref(), Some("stuxnet"));
    // The S7-300 is pinned at its IP with the profile's CVE.
    let cpu = s
        .devices
        .iter()
        .find(|d| d.ip == "10.20.10.11")
        .expect("s7 pinned");
    assert_eq!(cpu.model, "SIMATIC S7-300 CPU 315-2 PN/DP");
    assert!(
        cpu.cves.iter().any(|c| c == "CVE-2016-9159"),
        "carries the CVE"
    );
    assert_eq!(
        cpu.hostname.as_deref(),
        Some("A87-CPU"),
        "explicit hostname kept"
    );
    // The identity-only SIS is pinned with no CVE.
    let sis = s
        .devices
        .iter()
        .find(|d| d.ip == "10.20.10.20")
        .expect("sis pinned");
    assert_eq!(sis.asset_type.as_deref(), Some("SIS"));
    assert!(sis.cves.is_empty(), "identity-only device has no CVE");
    // enrich added the zone's firewall at .1.
    assert!(
        s.devices
            .iter()
            .any(|d| d.ip == "10.20.10.1" && d.asset_type.as_deref() == Some("Firewall")),
        "enrich added the BOM firewall"
    );
}

#[test]
fn unresolved_model_is_pinned_identity_only() {
    // A descriptive model that is not a CVE profile is fine: the device is
    // pinned identity-only (a SIS/RTU/HMI the playbook drives), keeping its
    // label, rather than being rejected.
    let yaml = "zones:\n  - { cidr: 10.0.0.0/24, name: Z, purdue_level: 1 }\ndevices:\n  - { zone: 10.0.0.0/24, model: 'Custom RTU 560', ip: 10.0.0.50, asset_type: RTU, protocol: iec104 }\nenrich: false\n";
    let spec = parse(yaml).unwrap();
    let vuln = VulnDb::embedded();
    let s = build_sealed_session(&spec, &vuln, &OuiDb::embedded(), 1, 0, "x", &[]).unwrap();
    let dev = s.devices.iter().find(|d| d.ip == "10.0.0.50").unwrap();
    assert_eq!(dev.model, "Custom RTU 560", "descriptive model kept");
    assert!(dev.cves.is_empty(), "an unresolved model is identity-only");
    assert_eq!(dev.asset_type.as_deref(), Some("RTU"));
}

#[test]
fn auto_assigned_device_skips_the_firewall_slot() {
    // A device that omits `ip:` under enrich must not land on network+1 (.1),
    // which enrich reserves for the zone firewall and DNS resolver.
    let yaml = "zones:\n  - { cidr: 10.20.10.0/24, name: Z, purdue_level: 1, vendor: 'Siemens AG' }\ndevices:\n  - { zone: 10.20.10.0/24, model: 'SIMATIC S7-300 CPU 315-2 PN/DP' }\nenrich: true\n";
    let spec = parse(yaml).unwrap();
    let vuln = VulnDb::embedded();
    let s = build_sealed_session(
        &spec,
        &vuln,
        &OuiDb::embedded(),
        1337,
        0,
        "x",
        &["plant.example".into()],
    )
    .unwrap();
    // The firewall still owns the gateway slot.
    let fw = s
        .devices
        .iter()
        .find(|d| d.ip == "10.20.10.1")
        .expect("enrich kept the firewall at .1");
    assert_eq!(fw.asset_type.as_deref(), Some("Firewall"));
    // The auto-assigned CPU sits elsewhere, not on the gateway slot.
    let cpu = s
        .devices
        .iter()
        .find(|d| d.model == "SIMATIC S7-300 CPU 315-2 PN/DP")
        .expect("cpu pinned");
    assert_ne!(
        cpu.ip, "10.20.10.1",
        "auto-assign skipped the firewall slot"
    );
}

#[test]
fn a_plant_that_cannot_be_pinned_says_why() {
    let zone = "zones:\n  - { cidr: 10.0.0.0/24, name: Z, purdue_level: 1 }\n";
    let err = |yaml: &str| build(yaml, 1, "x", &[]).err().unwrap();
    assert_eq!(
        err("zones:\n  - { cidr: nope, name: Z, purdue_level: 1 }\n"),
        "zone cidr \"nope\" is not a valid CIDR"
    );
    assert_eq!(
        err("zones:\n  - { cidr: 10.0.0.0/24, name: Z, purdue_level: 1 }\n  - { cidr: 10.0.0.0/24, name: Y, purdue_level: 1 }\n"),
        "could not add zone 10.0.0.0/24 (duplicate or cap)"
    );
    assert_eq!(
        err(&format!("{zone}devices:\n  - {{ zone: 10.9.0.0/24 }}\n")),
        "device references undeclared zone 10.9.0.0/24"
    );
    assert_eq!(
        err(&format!("{zone}devices:\n  - {{ zone: 10.0.0.0/24, ip: here }}\n")),
        "device ip \"here\" is not valid"
    );
    let full = "zones:\n  - { cidr: 10.0.0.0/30, name: Z, purdue_level: 1 }\ndevices:\n  - { zone: 10.0.0.0/30 }\n  - { zone: 10.0.0.0/30 }\n";
    assert_eq!(err(full), "zone 10.0.0.0/30 is exhausted");
}

#[test]
fn domains_fall_back_to_the_configured_ones() {
    let yaml = "zones:\n  - { cidr: 10.0.0.0/24, name: Z, purdue_level: 1 }\nenrich: false\n";
    let s = build(yaml, 1, "x", &["site.example".into()]).unwrap();
    assert_eq!(s.subnets[0].domain.as_deref(), Some("site.example"));
    let own = format!("{yaml}domains: [own.example]\n");
    let s = build(&own, 1, "x", &["site.example".into()]).unwrap();
    assert_eq!(s.subnets[0].domain.as_deref(), Some("own.example"));
    assert_eq!(s.target_devices, 0);
}

#[test]
fn plant_fields_keep_to_their_types() {
    assert!(parse("zones: []\n").is_ok());
    assert!(parse("devices: []\n").is_err(), "zones are required");
    assert!(parse("zones: []\nbogus: 1\n").is_err());
    assert!(parse("zones:\n  - { cidr: a, name: b, purdue_level: 256 }\n").is_err());
    assert!(parse("zones: []\nenrich: maybe\n").is_err());
    assert!(parse("zones: []\n").unwrap().enrich, "the supporting cast is the default");
}

#[test]
fn models_without_a_profile_or_fields_are_refused() {
    let vuln = VulnDb::embedded();
    let spec = |device: &str| {
        parse(&format!(
            "zones:\n  - {{ cidr: 10.0.0.0/24, name: Z, purdue_level: 1 }}\ndevices:\n  - {device}\n"
        ))
        .unwrap()
    };
    let typo = spec("{ zone: 10.0.0.0/24, model: 'SIMATIC S7-4170' }");
    let err = check_models(&typo.devices, &vuln, "/p/profiles.toml").unwrap_err();
    assert_eq!(
        err,
        "scenario plant model \"SIMATIC S7-4170\" resolves to no CVE profile and declares no identity-only fields (protocol/vendor/firmware); define it in /p/profiles.toml or mark it identity-only"
    );
    let marked = spec("{ zone: 10.0.0.0/24, model: 'Custom', protocol: iec104 }");
    assert!(check_models(&marked.devices, &vuln, "/p").is_ok());
    let known = spec("{ zone: 10.0.0.0/24, model: '1756-L61' }");
    assert!(check_models(&known.devices, &vuln, "/p").is_ok());
}

#[test]
fn malformed_profiles_are_refused() {
    assert!(check_profiles("/p", None).is_ok(), "no file is fine");
    assert!(check_profiles("/p", Some(" \n")).is_ok(), "a blank file is fine");
    assert!(check_profiles("/p", Some("[[profile]]\nvendor = \"X\"\n")).is_ok());
    let err = check_profiles("/p", Some("[[profile\n")).unwrap_err();
    assert!(err.starts_with("scenario profiles /p is malformed: "), "{err}");
    assert_eq!(
        profiles_verdict("/p", Some("why")).unwrap_err(),
        "scenario profiles /p is malformed: why; fix it or remove it (a CVE-bearing plant device would otherwise silently degrade to identity-only)"
    );
    assert!(profiles_verdict("/p", None).is_ok());
}

fn entry(name: &str, yaml: Option<&str>, is_dir: bool) -> PackEntry {
    PackEntry {
        name: Some(name.into()),
        dir: format!("/targets/{name}"),
        is_dir,
        has_scenario: yaml.is_some(),
        document: yaml.map(String::from),
        has_profiles: true,
        has_playbook: false,
        has_plant: false,
    }
}

#[test]
fn discover_finds_packs_with_scenario_yaml_sorted() {
    let found = discover(&vec![
        entry(
            "zebra",
            Some("target:\n  name: zebra\n  description: last alphabetically\n"),
            true,
        ),
        entry("alpha", Some("target:\n  name: alpha\n  description: first\n"), true),
        // A directory without scenario.yaml is not a pack.
        entry("notapack", None, true),
        // A `_`-prefixed dir (the authoring template) is documentation, not a pack.
        entry("_template", Some("target:\n  name: _template\n"), true),
        entry("afile", Some("target:\n  name: afile\n"), false),
    ]);
    let names: Vec<&str> = found.iter().map(|s| s.name.as_str()).collect();
    assert_eq!(
        names,
        vec!["alpha", "zebra"],
        "sorted; junk and _-prefixed dirs skipped"
    );
    assert_eq!(found[0].declared_name.as_deref(), Some("alpha"));
    assert_eq!(found[0].description.as_deref(), Some("first"));
    assert!(found[0].has_profiles);
    assert!(!found[0].has_playbook);
}

#[test]
fn discover_missing_dir_is_empty_not_error() {
    assert!(discover(&vec![]).is_empty());
}

#[test]
fn a_pack_declares_its_name_where_it_can_be_read() {
    let yaml = "3: odd\ntarget: !t\n  name: demo\n  description: 7\n";
    assert_eq!(shallow_meta(Some(yaml)), (Some("demo".to_string()), None));
    assert_eq!(shallow_meta(Some("target: [")), (None, None));
    assert_eq!(shallow_meta(Some("name: demo")), (None, None));
    assert_eq!(shallow_meta(None), (None, None));
}

#[test]
fn an_unreadable_plant_is_refused_under_its_name() {
    let e = parse("zones: [").unwrap_err();
    assert!(e.starts_with("parsing plant spec: "), "{e}");
    assert_eq!(PlantSpec::parse(Err("why".into())).unwrap_err(), "parsing plant spec: why");
    let gone = Read::Missing { path: "/p/plant.yaml".into(), error: "gone".into() };
    assert_eq!(PlantSpec::load(gone).unwrap_err(), "reading plant /p/plant.yaml: gone");
    assert_eq!(
        PlantSpec::load(Read::Malformed("why".into())).unwrap_err(),
        "parsing plant spec: why"
    );
}

#[test]
fn plain_numbers_are_texts_and_blank_lists_are_empty() {
    let p = parse(
        "zones:\n  - { cidr: 10.0.0.0/24, name: 7, purdue_level: 1 }\ndevices:\n  - { zone: 10.0.0.0/24, firmware: 2.50, hostname: 1, vendor: true }\ndomains:\n",
    )
    .unwrap();
    assert_eq!(p.zones[0].name, "7");
    assert_eq!(p.devices[0].firmware.as_deref(), Some("2.50"));
    assert_eq!(p.devices[0].hostname.as_deref(), Some("1"));
    assert_eq!(p.devices[0].vendor.as_deref(), Some("true"));
    assert!(p.domains.is_empty());
    let p = parse("zones:\ndevices:\n").unwrap();
    assert!(p.zones.is_empty() && p.devices.is_empty());
}

fn target() -> TargetCfg {
    TargetCfg {
        name: "demo".into(),
        description: None,
        profiles: "profiles.toml".into(),
        playbook: "playbook.yaml".into(),
        plant: "plant.yaml".into(),
        campaign: Campaign::Oneshot,
        max_frames_per_burst: 64,
        ioc_fidelity: IocFidelity::Real,
        actors: ActorsCfg::default(),
        pack_dir: "/packs/demo".into(),
    }
}

#[test]
fn a_pack_is_refused_with_its_first_fault() {
    let (vuln, oui, t) = (VulnDb::embedded(), OuiDb::embedded(), target());
    let plant = parse("zones:\n  - { cidr: 10.0.0.0/24, name: Z, purdue_level: 1 }\n");
    let book = || Playbook {
        phases: vec![Phase {
            id: "a".into(),
            name: None,
            techniques: Vec::new(),
            dwell_runs: 1,
            events: Vec::new(),
        }],
    };
    let s = pin_from_pack(&t, &plant, &vuln, &oui, 7, 9, &[]).unwrap();
    assert!(s.is_sealed());
    assert_eq!((s.seed, s.created_unix, s.scenario.as_deref()), (7, 9, Some("demo")));
    assert_eq!(s.target_devices, s.device_count());
    let bad: Result<PlantSpec, String> = Err("no plant".into());
    assert_eq!(pin_from_pack(&t, &bad, &vuln, &oui, 7, 9, &[]).unwrap_err(), "no plant");
    let build = |b, p: &Result<PlantSpec, String>, v: &VulnDb| {
        build_validated_plant(&Vec::new(), &t, b, p, v, &oui, 7, 9)
    };
    assert!(build(Read::Given(book()), &plant, &vuln).is_ok());
    let none = VulnDb::new(Vec::new());
    assert_eq!(
        build(Read::Malformed("b".into()), &bad, &none).unwrap_err(),
        "no vulnerable-device profiles available"
    );
    assert_eq!(build(Read::Malformed("b".into()), &bad, &vuln).unwrap_err(), "parsing playbook: b");
    assert_eq!(build(Read::Given(book()), &bad, &vuln).unwrap_err(), "no plant");
}
