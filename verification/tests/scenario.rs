use ot_turbolaser::config::{ActorsCfg, Campaign, IocFidelity, TargetCfg};
use ot_turbolaser::ledger::{DeviceRecord, Session, SubnetRecord};
use ot_turbolaser::proto::frame::parse_layout;
use ot_turbolaser::proto::testutil::{build_tcp, build_udp};
use ot_turbolaser::scenario::action::{Action, Link};
use ot_turbolaser::scenario::document::Read;
use ot_turbolaser::scenario::engine::{first_host, resolve, ScenarioEngine};
use ot_turbolaser::scenario::guard_ledger_scenario;
use ot_turbolaser::scenario::hex::{decode_hex_strict, payload_bytes, HexError};
use ot_turbolaser::scenario::playbook::{DeviceRef, EmitKind, Event, Phase, Playbook};
use ot_turbolaser::vuln::VulnDb;
use serde::de::{Error, MapAccess, Visitor};
use serde::{Deserialize, Deserializer};

// Documents are read field by field, as the library's types have them: a text field
// takes the text of any scalar, and a list that is left blank is empty.

struct KindDoc(EmitKind);

impl<'de> Deserialize<'de> for KindDoc {
    fn deserialize<D: Deserializer<'de>>(d: D) -> Result<Self, D::Error> {
        match String::deserialize(d)?.as_str() {
            "s7_read" => Ok(KindDoc(EmitKind::S7Read)),
            "s7_program_download" => Ok(KindDoc(EmitKind::S7ProgramDownload)),
            "s7_write" => Ok(KindDoc(EmitKind::S7Write)),
            "s7_stop" => Ok(KindDoc(EmitKind::S7Stop)),
            "modbus_write" => Ok(KindDoc(EmitKind::ModbusWrite)),
            "tristation_status" => Ok(KindDoc(EmitKind::TristationStatus)),
            "tristation_download" => Ok(KindDoc(EmitKind::TristationDownload)),
            "iec104_interrogation" => Ok(KindDoc(EmitKind::Iec104Interrogation)),
            "iec104_command" => Ok(KindDoc(EmitKind::Iec104Command)),
            "dnp3_read" => Ok(KindDoc(EmitKind::Dnp3Read)),
            "dnp3_operate" => Ok(KindDoc(EmitKind::Dnp3Operate)),
            "cip_read" => Ok(KindDoc(EmitKind::CipRead)),
            "cip_write" => Ok(KindDoc(EmitKind::CipWrite)),
            "opcua_read" => Ok(KindDoc(EmitKind::OpcuaRead)),
            "iec101_interrogation" => Ok(KindDoc(EmitKind::Iec101Interrogation)),
            "iec101_command" => Ok(KindDoc(EmitKind::Iec101Command)),
            "c2_beacon" => Ok(KindDoc(EmitKind::C2Beacon)),
            "remote_access" => Ok(KindDoc(EmitKind::RemoteAccess)),
            "wiper" => Ok(KindDoc(EmitKind::Wiper)),
            "moxa_brick" => Ok(KindDoc(EmitKind::MoxaBrick)),
            k => Err(D::Error::custom(format!("unknown kind `{k}`"))),
        }
    }
}

struct RefDoc(DeviceRef);

impl<'de> Deserialize<'de> for RefDoc {
    fn deserialize<D: Deserializer<'de>>(d: D) -> Result<Self, D::Error> {
        d.deserialize_map(RefVisitor).map(RefDoc)
    }
}

struct RefVisitor;

impl<'de> Visitor<'de> for RefVisitor {
    type Value = DeviceRef;

    fn expecting(&self, f: &mut std::fmt::Formatter) -> std::fmt::Result {
        f.write_str("a table")
    }

    fn visit_map<A: MapAccess<'de>>(self, mut m: A) -> Result<DeviceRef, A::Error> {
        let mut r = DeviceRef { ip: None, model: None, asset_type: None };
        while let Some(k) = m.next_key::<String>()? {
            match k.as_str() {
                "ip" => r.ip = m.next_value()?,
                "model" => r.model = m.next_value()?,
                "asset_type" => r.asset_type = m.next_value()?,
                _ => return Err(A::Error::custom(format!("unknown field `{k}`"))),
            }
        }
        Ok(r)
    }
}

struct EventDoc(Event);

impl<'de> Deserialize<'de> for EventDoc {
    fn deserialize<D: Deserializer<'de>>(d: D) -> Result<Self, D::Error> {
        d.deserialize_map(EventVisitor).map(EventDoc)
    }
}

struct EventVisitor;

impl<'de> Visitor<'de> for EventVisitor {
    type Value = Event;

    fn expecting(&self, f: &mut std::fmt::Formatter) -> std::fmt::Result {
        f.write_str("a table")
    }

    fn visit_map<A: MapAccess<'de>>(self, mut m: A) -> Result<Event, A::Error> {
        let mut emit = None;
        let mut e = event(EmitKind::C2Beacon);
        while let Some(k) = m.next_key::<String>()? {
            match k.as_str() {
                "emit" => emit = Some(m.next_value::<KindDoc>()?.0),
                "target" => e.target = m.next_value::<Option<RefDoc>>()?.map(|r| r.0),
                "value" => e.value = m.next_value()?,
                "register" => e.register = m.next_value()?,
                "db" => e.db = m.next_value()?,
                "offset" => e.offset = m.next_value()?,
                "unit" => e.unit = m.next_value()?,
                "ioa" => e.ioa = m.next_value()?,
                "common_addr" => e.common_addr = m.next_value()?,
                "point" => e.point = m.next_value()?,
                "close" => e.close = m.next_value()?,
                "block_id" => e.block_id = m.next_value()?,
                "payload_hex" => e.payload_hex = m.next_value()?,
                "chunk" => e.chunk = m.next_value()?,
                "domain" => e.domain = m.next_value()?,
                "ip" => e.ip = m.next_value()?,
                "port" => e.port = m.next_value()?,
                "share" => e.share = m.next_value()?,
                _ => return Err(A::Error::custom(format!("unknown field `{k}`"))),
            }
        }
        e.emit = emit.ok_or_else(|| A::Error::custom("missing field `emit`"))?;
        Ok(e)
    }
}

struct PhaseDoc(Phase);

impl<'de> Deserialize<'de> for PhaseDoc {
    fn deserialize<D: Deserializer<'de>>(d: D) -> Result<Self, D::Error> {
        d.deserialize_map(PhaseVisitor).map(PhaseDoc)
    }
}

struct PhaseVisitor;

impl<'de> Visitor<'de> for PhaseVisitor {
    type Value = Phase;

    fn expecting(&self, f: &mut std::fmt::Formatter) -> std::fmt::Result {
        f.write_str("a table")
    }

    fn visit_map<A: MapAccess<'de>>(self, mut m: A) -> Result<Phase, A::Error> {
        let mut id = None;
        let mut p = Phase {
            id: String::new(),
            name: None,
            techniques: Vec::new(),
            dwell_runs: 1,
            events: Vec::new(),
        };
        while let Some(k) = m.next_key::<String>()? {
            match k.as_str() {
                "id" => id = Some(m.next_value()?),
                "name" => p.name = m.next_value()?,
                "techniques" => p.techniques = m.next_value()?,
                "dwell_runs" => p.dwell_runs = m.next_value()?,
                "events" => {
                    p.events = m.next_value::<Vec<EventDoc>>()?.into_iter().map(|e| e.0).collect()
                }
                _ => return Err(A::Error::custom(format!("unknown field `{k}`"))),
            }
        }
        p.id = id.ok_or_else(|| A::Error::custom("missing field `id`"))?;
        Ok(p)
    }
}

struct PlaybookDoc(Playbook);

impl<'de> Deserialize<'de> for PlaybookDoc {
    fn deserialize<D: Deserializer<'de>>(d: D) -> Result<Self, D::Error> {
        d.deserialize_map(PlaybookVisitor).map(PlaybookDoc)
    }
}

struct PlaybookVisitor;

impl<'de> Visitor<'de> for PlaybookVisitor {
    type Value = Playbook;

    fn expecting(&self, f: &mut std::fmt::Formatter) -> std::fmt::Result {
        f.write_str("a table")
    }

    fn visit_map<A: MapAccess<'de>>(self, mut m: A) -> Result<Playbook, A::Error> {
        let mut phases: Option<Vec<PhaseDoc>> = None;
        while let Some(k) = m.next_key::<String>()? {
            match k.as_str() {
                "phases" => phases = Some(m.next_value()?),
                _ => return Err(A::Error::custom(format!("unknown field `{k}`"))),
            }
        }
        let phases = phases.ok_or_else(|| A::Error::custom("missing field `phases`"))?;
        Ok(Playbook { phases: phases.into_iter().map(|p| p.0).collect() })
    }
}

fn event(emit: EmitKind) -> Event {
    Event {
        emit,
        target: None,
        value: None,
        register: None,
        db: None,
        offset: None,
        unit: None,
        ioa: None,
        common_addr: None,
        point: None,
        close: None,
        block_id: None,
        payload_hex: None,
        chunk: None,
        domain: None,
        ip: None,
        port: None,
        share: None,
    }
}

fn read(yaml: &str) -> Result<Playbook, String> {
    serde_norway::from_str::<PlaybookDoc>(yaml).map(|d| d.0).map_err(|e| e.to_string())
}

fn parse(yaml: &str) -> Result<Playbook, String> {
    Playbook::parse(read(yaml))
}

fn octets(ip: u32) -> [u8; 4] {
    ip.to_be_bytes()
}

fn exchange(l: &Link, dport: u16, payloads: &[Vec<u8>]) -> Vec<Vec<u8>> {
    payloads
        .iter()
        .map(|p| build_tcp(octets(l.client_ip), octets(l.device_ip), l.port, dport, p))
        .collect()
}

// A renderer whose frames carry what the action asks for.
fn render(a: &Action) -> Vec<Vec<u8>> {
    match a {
        Action::S7Read { link, order, firmware } => exchange(
            link,
            102,
            &[
                b"connect".to_vec(),
                b"setup".to_vec(),
                order.as_bytes().to_vec(),
                firmware.as_bytes().to_vec(),
            ],
        ),
        Action::S7Write { link, db, offset, value } => exchange(
            link,
            102,
            &[[db.to_be_bytes(), offset.to_be_bytes(), value.to_be_bytes()].concat()],
        ),
        Action::S7Stop { link } => exchange(link, 102, &[b"stop".to_vec()]),
        Action::C2Beacon { host_ip, resolver_ip, domain, port, .. } => vec![build_udp(
            octets(*host_ip),
            octets(*resolver_ip),
            *port,
            53,
            domain.as_bytes(),
        )],
        Action::S7ProgramDownload { link, payload, .. } => {
            exchange(link, 102, &[payload.clone()])
        }
        _ => vec![vec![0u8; 60]],
    }
}

fn ledger_with_s7() -> Session {
    let mut s = Session::new(1337, 0);
    s.add_subnet(SubnetRecord {
        cidr: "10.20.10.0/24".into(),
        zone_name: "L1".into(),
        purdue_level: 1,
        vendor: Some("Siemens AG".into()),
        domain: None,
    });
    s.add_device(DeviceRecord {
        ip: "10.20.10.11".into(),
        mac: "00:0e:8c:11:22:33".into(),
        vendor: "Siemens AG".into(),
        model: "SIMATIC S7-300 CPU 315-2 PN/DP".into(),
        firmware: "V3.2.12".into(),
        protocol: "s7".into(),
        cves: vec!["CVE-2016-9159".into()],
        subnet_cidr: "10.20.10.0/24".into(),
        hostname: None,
        asset_type: Some("Controller".into()),
    });
    s.add_device(DeviceRecord {
        ip: "10.20.10.1".into(),
        mac: "00:09:0f:aa:bb:cc".into(),
        vendor: "Fortinet".into(),
        model: "FortiGate 100E".into(),
        firmware: "6.0.4".into(),
        protocol: "switch_snmp".into(),
        cves: vec![],
        subnet_cidr: "10.20.10.0/24".into(),
        hostname: None,
        asset_type: Some("Firewall".into()),
    });
    s
}

fn engine(yaml: &str) -> ScenarioEngine {
    ScenarioEngine {
        name: "test".into(),
        playbook: parse(yaml).unwrap(),
        external_cidrs: vec!["198.51.100.0/24".into()],
        c2_domains: vec!["www.mypremierfutbol.com".into()],
        c2_ips: vec!["203.0.113.7".into()],
        fidelity: IocFidelity::Real,
        campaign: Campaign::Oneshot,
        max_frames_per_burst: 256,
        seed: 1337,
        phase_idx: 0,
        event_cursor: 0,
        bursts_in_phase: 0,
        event_frame_offset: 0,
        spill_nonce: None,
    }
}

#[test]
fn renders_s7_write_against_the_pinned_cpu() {
    let led = ledger_with_s7();
    let vuln = VulnDb::embedded();
    let mut e = engine(
        "phases:\n  - id: sabotage\n    events:\n      - { emit: s7_write, target: { ip: 10.20.10.11 }, db: 1, offset: 0, value: 1410 }\n",
    );
    let frames = e.phase_frames(&led, &vuln, 0, &render);
    assert!(!frames.is_empty(), "the write rendered frames");
    // The rogue value 1410 is on the wire, sourced from the .250 station.
    let value_present = frames.iter().any(|f| {
        let l = parse_layout(f).unwrap();
        f[l.payload..l.end]
            .windows(2)
            .any(|w| w == 1410u16.to_be_bytes())
    });
    assert!(value_present, "rogue setpoint 1410 emitted");
}

#[test]
fn timeline_advances_then_holds_on_oneshot() {
    let led = ledger_with_s7();
    let vuln = VulnDb::embedded();
    let mut e = engine(
        "phases:\n  - id: recon\n    dwell_runs: 2\n    events:\n      - { emit: s7_read, target: { ip: 10.20.10.11 } }\n  - id: impact\n    events:\n      - { emit: s7_stop, target: { ip: 10.20.10.11 } }\n",
    );
    assert_eq!(e.phase_id(), "recon");
    e.phase_frames(&led, &vuln, 0, &render); // burst 1: events done, dwell 1/2
    assert_eq!(e.phase_id(), "recon", "dwell holds the phase");
    e.phase_frames(&led, &vuln, 1, &render); // burst 2: dwell satisfied -> advance
    assert_eq!(e.phase_id(), "impact");
    e.phase_frames(&led, &vuln, 2, &render); // impact emits, then holds (oneshot)
    assert_eq!(e.phase_id(), "impact", "oneshot holds the final phase");
    let frames = e.phase_frames(&led, &vuln, 3, &render);
    assert!(!frames.is_empty(), "impact keeps emitting while held");
}

#[test]
fn loop_campaign_wraps_to_the_first_phase() {
    let led = ledger_with_s7();
    let vuln = VulnDb::embedded();
    let mut e = engine(
        "phases:\n  - id: recon\n    events:\n      - { emit: s7_read, target: { ip: 10.20.10.11 } }\n  - id: impact\n    events:\n      - { emit: s7_stop, target: { ip: 10.20.10.11 } }\n",
    );
    e.campaign = Campaign::Loop;
    assert_eq!(e.phase_id(), "recon");
    e.phase_frames(&led, &vuln, 0, &render); // recon spent -> advance
    assert_eq!(e.phase_id(), "impact");
    e.phase_frames(&led, &vuln, 1, &render); // impact spent, last phase -> wrap
    assert_eq!(e.phase_id(), "recon", "loop wraps to the first phase");
}

#[test]
fn multi_event_phase_spreads_one_event_per_burst() {
    let led = ledger_with_s7();
    let vuln = VulnDb::embedded();
    // Three reads in one phase, with the cap sized to exactly one event's
    // frames: each burst consumes one whole event and the three spread across
    // three bursts, so a long sequence never lands as one microburst.
    let ev = "phases:\n  - id: recon\n    events:\n      - { emit: s7_read, target: { ip: 10.20.10.11 } }\n      - { emit: s7_read, target: { ip: 10.20.10.11 } }\n      - { emit: s7_read, target: { ip: 10.20.10.11 } }\n";
    let mut e = engine(ev);
    let one = e
        .render_event(&e.playbook.phases[0].events[0].clone(), &led, &vuln, 0, &render)
        .len();
    e.max_frames_per_burst = one;
    let b0 = e.phase_frames(&led, &vuln, 0, &render);
    assert_eq!(b0.len(), one, "the burst emits exactly one whole event");
    assert_eq!(e.event_cursor, 1, "one event consumed under the cap");
    assert_eq!(
        e.event_frame_offset, 0,
        "the event drained on the boundary, no spill"
    );
    e.phase_frames(&led, &vuln, 1, &render);
    assert_eq!(e.event_cursor, 2, "the next event lands on the next burst");
}

#[test]
fn oversized_event_never_exceeds_the_cap_and_reassembles() {
    // A single s7_read renders a multi-frame S7 exchange. With a cap of 2 it
    // must spill across bursts: no burst exceeds the cap, no frame is dropped,
    // and the concatenation equals the single-shot render.
    let led = ledger_with_s7();
    let vuln = VulnDb::embedded();
    let ev = "phases:\n  - id: recon\n    events:\n      - { emit: s7_read, target: { ip: 10.20.10.11 } }\n";
    let mut e = engine(ev);
    // The full render at the nonce the engine pins (burst 0 nonce + cursor 0).
    let first_ev = e.playbook.phases[0].events[0].clone();
    let full = e.render_event(&first_ev, &led, &vuln, 0, &render);
    assert!(full.len() > 2, "the read is larger than the cap");

    e.max_frames_per_burst = 2;
    // Collect until the first full emission is drained. (This is a one-shot
    // single-phase campaign, so once the event drains the phase holds and
    // re-emits it with a fresh nonce; stop at the first complete render.)
    let mut drained: Vec<Vec<u8>> = Vec::new();
    for n in 0..50u64 {
        let b = e.phase_frames(&led, &vuln, n, &render);
        assert!(b.len() <= 2, "burst {n} stays within the cap");
        drained.extend(b);
        if drained.len() >= full.len() {
            break;
        }
    }
    assert_eq!(
        &drained[..full.len()],
        &full[..],
        "spilled frames reassemble the whole event, in order"
    );
}

#[test]
fn phase_holds_until_a_spilling_event_drains() {
    // dwell_runs: 1 with a single over-cap event: the phase must not advance
    // until the event is fully emitted, so an oversized impact action always
    // lands on the wire before the timeline moves.
    let led = ledger_with_s7();
    let vuln = VulnDb::embedded();
    let ev = "phases:\n  - id: impact\n    dwell_runs: 1\n    events:\n      - { emit: s7_read, target: { ip: 10.20.10.11 } }\n  - id: after\n    events:\n      - { emit: s7_stop, target: { ip: 10.20.10.11 } }\n";
    let mut e = engine(ev);
    let first_ev = e.playbook.phases[0].events[0].clone();
    let full_len = e.render_event(&first_ev, &led, &vuln, 0, &render).len();
    assert!(full_len > 1, "the impact event is multi-frame");
    e.max_frames_per_burst = 1;
    for _ in 0..(full_len - 1) {
        e.phase_frames(&led, &vuln, 0, &render);
        assert_eq!(e.phase_id(), "impact", "phase holds while the event spills");
    }
    e.phase_frames(&led, &vuln, 0, &render);
    assert_eq!(
        e.phase_id(),
        "after",
        "phase advances once the event fully drains"
    );
}

#[test]
fn unresolved_target_is_skipped_not_panicked() {
    let led = ledger_with_s7();
    let vuln = VulnDb::embedded();
    let mut e = engine(
        "phases:\n  - id: x\n    events:\n      - { emit: s7_stop, target: { ip: 10.99.99.99 } }\n",
    );
    assert!(
        e.phase_frames(&led, &vuln, 0, &render).is_empty(),
        "no frames, no panic"
    );
}

#[test]
fn validate_targets_rejects_an_orphaned_target() {
    // The run-time skip above is a silent detection miss; pre-flight must reject
    // a target that names no plant device instead of letting it emit nothing.
    let led = ledger_with_s7();
    let e = engine(
        "phases:\n  - id: impact\n    events:\n      - { emit: s7_stop, target: { ip: 10.99.99.99 } }\n",
    );
    let err = e.validate_targets(&led).unwrap_err();
    assert!(
        err.contains("10.99.99.99"),
        "names the unresolved target: {err}"
    );
}

#[test]
fn validate_targets_accepts_resolvable_targets_and_c2_without_one() {
    let led = ledger_with_s7();
    let e = engine(
        "phases:\n  - id: recon\n    events:\n      - { emit: s7_read, target: { ip: 10.20.10.11 } }\n      - { emit: c2_beacon }\n",
    );
    assert!(e.validate_targets(&led).is_ok());
}

#[test]
fn validate_targets_rejects_a_non_c2_event_with_no_target() {
    let led = ledger_with_s7();
    let e = engine("phases:\n  - id: impact\n    events:\n      - { emit: s7_stop }\n");
    let err = e.validate_targets(&led).unwrap_err();
    assert!(
        err.contains("no target"),
        "explains the missing target: {err}"
    );
}

#[test]
fn standin_fidelity_uses_documentation_c2() {
    let led = ledger_with_s7();
    let vuln = VulnDb::embedded();
    let mut e = engine("phases:\n  - id: c2\n    events:\n      - { emit: c2_beacon }\n");
    e.fidelity = IocFidelity::Standin;
    let frames = e.phase_frames(&led, &vuln, 0, &render);
    // No real domain leaks; the documentation stand-in is used instead.
    let leaked = frames.iter().any(|f| {
        let l = parse_layout(f).unwrap();
        f[l.payload..l.end].windows(9).any(|w| w == b"futbol.co")
    });
    assert!(!leaked, "standin fidelity suppresses the real domain");
}

#[test]
fn decode_hex_strict_pairs_bytes_and_allows_separators() {
    assert_eq!(
        decode_hex_strict("7070010203").unwrap(),
        vec![0x70, 0x70, 0x01, 0x02, 0x03]
    );
    assert_eq!(
        decode_hex_strict("de:ad-be ef").unwrap(),
        vec![0xde, 0xad, 0xbe, 0xef]
    );
    assert_eq!(decode_hex_strict("").unwrap(), Vec::<u8>::new());
}

#[test]
fn decode_hex_strict_rejects_odd_length_and_garbage() {
    // An interior non-hex char used to be silently stripped, shifting the
    // remaining nibbles into a different byte; it is now an error.
    assert!(decode_hex_strict("7g70").is_err(), "garbage char rejected");
    assert!(
        decode_hex_strict("707").is_err(),
        "odd digit count rejected"
    );
    assert!(decode_hex_strict("zz").is_err(), "non-hex rejected");
}

#[test]
fn payload_bytes_falls_back_on_absent_or_empty() {
    let def = b"\xaa\xbb";
    assert_eq!(payload_bytes(None, def), def.to_vec(), "absent -> default");
    assert_eq!(
        payload_bytes(Some(""), def),
        def.to_vec(),
        "empty -> default"
    );
    assert_eq!(
        payload_bytes(Some("0102"), def),
        vec![0x01, 0x02],
        "decoded"
    );
}

#[test]
fn load_rejects_a_malformed_payload_hex() {
    // A bad payload_hex is caught at pack load (pre-flight), not silently
    // defaulted at render time. Build a playbook directly and validate as load
    // does, since load() needs a pack dir.
    let pb = parse(
        "phases:\n  - id: implant\n    events:\n      - { emit: s7_program_download, target: { ip: 10.20.10.11 }, payload_hex: \"70g0\" }\n",
    )
    .unwrap();
    let bad = pb.phases.iter().flat_map(|p| &p.events).find_map(|ev| {
        ev.payload_hex
            .as_deref()
            .and_then(|h| decode_hex_strict(h).err())
    });
    assert!(bad.is_some(), "a malformed payload_hex is detected at load");
}

#[test]
fn guard_matches_and_mismatches() {
    assert!(
        guard_ledger_scenario(None, None).is_ok(),
        "generic vs generic"
    );
    assert!(guard_ledger_scenario(Some("stuxnet"), Some("stuxnet")).is_ok());
    assert!(
        guard_ledger_scenario(Some("stuxnet"), None).is_err(),
        "scenario vs generic"
    );
    assert!(
        guard_ledger_scenario(None, Some("triton")).is_err(),
        "generic vs scenario"
    );
    assert!(
        guard_ledger_scenario(Some("stuxnet"), Some("triton")).is_err(),
        "wrong scenario"
    );
}

#[test]
fn parses_a_phased_playbook() {
    let yaml = "
phases:
  - id: recon
    name: PLC enumeration
    techniques: [T0842, T0888]
    dwell_runs: 2
    events:
      - { emit: s7_read, target: { model: 'SIMATIC S7-300 CPU 315-2 PN/DP' } }
  - id: sabotage
    name: Rogue setpoint
    techniques: [T0836, T0831]
    events:
      - { emit: s7_write, target: { ip: 10.20.10.11 }, db: 1, offset: 0, value: 1410 }
      - { emit: c2_beacon, domain: www.mypremierfutbol.com }
";
    let pb = parse(yaml).expect("parses");
    assert_eq!(pb.phases.len(), 2);
    assert_eq!(pb.phases[0].id, "recon");
    assert_eq!(pb.phases[0].dwell_runs, 2);
    assert_eq!(pb.phases[0].events[0].emit, EmitKind::S7Read);
    let sab = &pb.phases[1];
    assert_eq!(sab.dwell_runs, 1, "dwell defaults to 1");
    assert_eq!(sab.events[0].emit, EmitKind::S7Write);
    assert_eq!(sab.events[0].value, Some(1410));
    assert_eq!(sab.events[1].emit, EmitKind::C2Beacon);
}

#[test]
fn empty_playbook_and_unknown_field_are_errors() {
    assert!(parse("phases: []").is_err(), "no phases");
    let bad = "phases:\n  - id: x\n    bogus: 1\n";
    assert!(parse(bad).is_err(), "deny_unknown_fields");
    let bad_kind = "phases:\n  - id: x\n    events:\n      - { emit: nope }\n";
    assert!(parse(bad_kind).is_err(), "unknown emit kind");
}

#[test]
fn engine_starts_at_the_first_phase_or_refuses_a_payload() {
    let target = TargetCfg {
        name: "demo".into(),
        description: None,
        profiles: "profiles.toml".into(),
        playbook: "playbook.yaml".into(),
        plant: "plant.yaml".into(),
        campaign: Campaign::Loop,
        max_frames_per_burst: 0,
        ioc_fidelity: IocFidelity::Standin,
        actors: ActorsCfg::default(),
        pack_dir: "/packs/demo".into(),
    };
    let good = parse("phases:\n  - id: a\n    events:\n      - { emit: s7_stop }\n").unwrap();
    let e = ScenarioEngine::load(&target, Read::Given(good), 5).unwrap();
    assert_eq!(e.name(), "demo");
    assert_eq!(e.phase_id(), "a");
    assert_eq!(e.phase_label(), "a");
    assert_eq!(e.max_frames_per_burst, 1, "a burst always has room for a frame");
    assert_eq!(e.event_cursor, 0);
    let bad = parse(
        "phases:\n  - id: implant\n    events:\n      - { emit: moxa_brick, payload_hex: \"70g0\" }\n",
    )
    .unwrap();
    let err = ScenarioEngine::load(&target, Read::Given(bad), 5).err().unwrap();
    assert_eq!(
        err,
        "playbook phase \"implant\": payload_hex: invalid character 'g'"
    );
    let load = |r| ScenarioEngine::load(&target, r, 5).err();
    assert_eq!(
        load(Read::Missing { path: "/p/playbook.yaml".into(), error: "gone".into() }),
        Some("reading playbook /p/playbook.yaml: gone".into())
    );
    assert_eq!(load(Read::Malformed("why".into())), Some("parsing playbook: why".into()));
    assert_eq!(
        load(Read::Given(Playbook { phases: Vec::new() })),
        Some("playbook has no phases".into())
    );
    // A plain number is the text that it was written as, and a blank list is empty.
    let plain = read(
        "phases:\n  - id: 1\n    techniques:\n    events:\n      - { emit: moxa_brick, payload_hex: 7070010203 }\n  - id: 0x10\n    name: true\n    events:\n",
    )
    .unwrap();
    assert_eq!(plain.phases[0].events[0].payload_hex.as_deref(), Some("7070010203"));
    assert!(plain.phases[0].techniques.is_empty() && plain.phases[1].events.is_empty());
    assert_eq!(plain.phases[1].name.as_deref(), Some("true"));
    let e = ScenarioEngine::load(&target, Read::Given(plain), 5).unwrap();
    assert_eq!(e.phase_id(), "1");
    assert_eq!(e.playbook.phases[1].id, "0x10");
}

#[test]
fn hex_errors_say_what_is_wrong() {
    assert_eq!(decode_hex_strict("7g70"), Err(HexError::Invalid('g')));
    assert_eq!(decode_hex_strict("70 7"), Err(HexError::Odd(3)));
    assert_eq!(
        HexError::Odd(3).message(),
        "payload_hex: 3 hex digit(s) is odd; a byte needs two"
    );
    assert_eq!(
        HexError::Invalid('\t').message(),
        "payload_hex: invalid character '\\t'"
    );
}

#[test]
fn targets_resolve_by_address_then_model_then_type() {
    let led = ledger_with_s7();
    let by = |ip: Option<&str>, model: Option<&str>, t: Option<&str>| {
        resolve(
            &led,
            &Some(DeviceRef {
                ip: ip.map(String::from),
                model: model.map(String::from),
                asset_type: t.map(String::from),
            }),
        )
        .map(|d| d.ip.clone())
    };
    assert_eq!(by(Some("10.20.10.1"), None, Some("Controller")), Some("10.20.10.1".into()));
    assert_eq!(by(Some("10.9.9.9"), Some("FortiGate 100E"), None), Some("10.20.10.1".into()));
    assert_eq!(by(None, Some("nope"), Some("Controller")), Some("10.20.10.11".into()));
    assert_eq!(by(None, None, Some("RTU")), None);
    assert!(resolve(&led, &None).is_none());
}

#[test]
fn actions_carry_the_plant_and_the_defaults() {
    let led = ledger_with_s7();
    let vuln = VulnDb::embedded();
    let e = engine(
        "phases:\n  - id: x\n    events:\n      - { emit: s7_read, target: { ip: 10.20.10.11 } }\n      - { emit: wiper, target: { ip: 10.20.10.11 } }\n      - { emit: remote_access, target: { ip: 10.20.10.11 } }\n      - { emit: c2_beacon }\n      - { emit: dnp3_operate, target: { ip: 10.20.10.11 }, point: 7, close: false }\n      - { emit: iec104_command, target: { ip: 10.20.10.11 }, close: true }\n",
    );
    let evs = &e.playbook.phases[0].events;
    let act = |i: usize, nonce: u64| e.event_action(&evs[i], &led, &vuln, nonce);
    match act(0, 16385) {
        Some(Action::S7Read { link, order, firmware }) => {
            assert_eq!(octets(link.client_ip), [10, 20, 10, 250], "the zone station asks");
            assert_eq!(octets(link.device_ip), [10, 20, 10, 11]);
            assert_eq!(link.device_mac, [0x00, 0x0e, 0x8c, 0x11, 0x22, 0x33]);
            assert_eq!(link.port, 49153);
            assert_eq!(order, "6ES7 315-2EH14-0AB0");
            assert_eq!(firmware, "V3.2.12");
        }
        other => panic!("{other:?}"),
    }
    match act(1, 0) {
        Some(Action::ShareWrite { share, .. }) => {
            assert_eq!(share, "\\\\10.20.10.11\\ADMIN$\\update.dll")
        }
        other => panic!("{other:?}"),
    }
    match act(2, 0) {
        Some(Action::RemoteAccess { gateway_mac, external_ip, host_ip, service_port, .. }) => {
            assert_eq!(gateway_mac, [0x00, 0x09, 0x0f, 0xaa, 0xbb, 0xcc], "the zone firewall");
            assert_eq!(octets(external_ip), [198, 51, 100, 10]);
            assert_eq!(octets(host_ip), [10, 20, 10, 11]);
            assert_eq!(service_port, 5938);
        }
        other => panic!("{other:?}"),
    }
    match act(3, 0x1_2345) {
        Some(Action::C2Beacon { host_ip, resolver_ip, domain, c2_ip, c2_port, id, .. }) => {
            assert_eq!(octets(host_ip), [10, 20, 10, 11], "the first device");
            assert_eq!(octets(resolver_ip), [10, 20, 10, 1]);
            assert_eq!(domain, "www.mypremierfutbol.com");
            assert_eq!(octets(c2_ip), [203, 0, 113, 7]);
            assert_eq!(c2_port, 80);
            assert_eq!(id, 0x2345);
        }
        other => panic!("{other:?}"),
    }
    match act(4, 0) {
        Some(Action::OnDevice { kind, link, point, close, value, .. }) => {
            assert_eq!(kind, EmitKind::Dnp3Operate);
            assert_eq!(octets(link.device_ip), [10, 20, 10, 11]);
            assert_eq!((point, close, value), (Some(7), Some(false), None));
        }
        other => panic!("{other:?}"),
    }
    match act(5, 0) {
        Some(Action::Iec104Command { common_addr, ioa, close, .. }) => {
            assert_eq!((common_addr, ioa, close), (1, 1, true))
        }
        other => panic!("{other:?}"),
    }
}

#[test]
fn external_sources_are_the_tenth_host() {
    assert_eq!(first_host("198.51.100.0/24").map(octets), Some([198, 51, 100, 10]));
    assert_eq!(first_host("198.51.100.0/29"), None, "six hosts are too few");
    assert_eq!(first_host("nope"), None);
}

#[test]
fn report_lists_targets_and_frames() {
    let led = ledger_with_s7();
    let vuln = VulnDb::embedded();
    let e = engine(
        "phases:\n  - id: recon\n    name: Look\n    techniques: [T0842, T0888]\n    dwell_runs: 2\n    events:\n      - { emit: s7_read, target: { ip: 10.20.10.11 } }\n      - { emit: s7_stop, target: { ip: 10.99.99.99 } }\n      - { emit: c2_beacon }\n",
    );
    let text = e.fidelity_report(&led, &vuln, &render);
    let lines: Vec<&str> = text.lines().collect();
    assert_eq!(
        lines,
        vec![
            "scenario test: 1 phase(s), campaign Oneshot, max 256 frame(s)/burst",
            "  phase recon (Look) [T0842,T0888], dwell 2",
            "    - S7Read -> 10.20.10.11 SIMATIC S7-300 CPU 315-2 PN/DP (Controller)  [4 frame(s)]",
            "    - S7Stop -> UNRESOLVED DeviceRef { ip: Some(\"10.99.99.99\"), model: None, asset_type: None }  [0 frame(s)]",
            "    - C2Beacon -> c2 beacon via first device 10.20.10.11  [1 frame(s)]",
            "    phase frames: 5",
            "  total attack frames per full pass: 5",
            "  ioc fidelity: Real",
            "  c2 domains: www.mypremierfutbol.com",
            "  c2 ips: 203.0.113.7",
            "  external cidrs: 198.51.100.0/24",
        ]
    );
}

#[test]
fn playbook_fields_keep_to_their_types() {
    assert!(parse("phases:\n  - id: x\n    events:\n      - { emit: s7_write, value: 65536 }\n").is_err());
    assert!(parse("phases:\n  - id: x\n    events:\n      - { emit: s7_write, value: 65535 }\n").is_ok());
    assert!(parse("phases:\n  - name: x\n").is_err(), "a phase needs an id");
    assert!(parse("phases: 3\n").is_err());
    assert!(parse("phases:\n  - id: x\n    events:\n      - { emit: s7_stop, target: { mac: y } }\n").is_err());
}

#[test]
fn an_unreadable_playbook_is_refused_under_its_name() {
    assert_eq!(parse("phases: []").unwrap_err(), "playbook has no phases");
    let e = parse("phases: [").unwrap_err();
    assert!(e.starts_with("parsing playbook: "), "{e}");
    assert_eq!(parse("phases:").unwrap_err(), "playbook has no phases");
}
