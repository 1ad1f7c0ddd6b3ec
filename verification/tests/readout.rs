use ot_turbolaser::netinfo::{assess, Datapath};
use ot_turbolaser::pewpew::{render_pewpew, StatusView, ZoneStatus};
use ot_turbolaser::readout::{render_net_show, Counters, Heartbeat};

fn path() -> Datapath {
    Datapath {
        mirror_mode: "tc".into(),
        replay: "tl0".into(),
        bridge: "tlbr0".into(),
        sensor: "sens0".into(),
        replay_exists: true,
        replay_up: true,
        replay_master: Some("tlbr0".into()),
        bridge_exists: true,
        bridge_physical_member: None,
        sensor_exists: true,
        sensor_up: true,
        sensor_promisc: true,
        mirror_present: true,
        tx_delta: Some(1200),
        rx_delta: Some(1200),
    }
}

#[test]
fn net_show_reads_line_by_line() {
    let d = path();
    let (health, findings) = assess(&d);
    let c = Counters {
        replay_mtu: Some(1500),
        replay_tx_packets: Some(10),
        replay_tx_dropped: None,
        sensor_rx_packets: Some(9),
        sensor_rx_dropped: Some(0),
    };
    let hb = Some(Heartbeat {
        state: Some("gap".into()),
        pps: Some("25".into()),
        last_error: None,
    });
    let lines = render_net_show(&d, &c, &vec!["tl0".into()], health, &findings, 3, &hb);
    assert_eq!(
        lines,
        vec![
            "turbolaser net-show  [healthy]  (tc mirror)",
            "  -- replay port (tcpreplay TX, mirror source) --",
            "    iface         : tl0 (up)",
            "    bridge master : tlbr0",
            "    mtu           : 1500",
            "    tx packets    : 10  (dropped null)",
            "  -- isolated bridge --",
            "    iface         : tlbr0 (present)",
            "    members       : tl0",
            "  -- sensor port (mirror destination) --",
            "    iface         : sens0 (up)",
            "    promiscuous   : on",
            "    rx packets    : 9  (dropped 0)",
            "  -- mirror --",
            "    span present  : yes",
            "  -- live probe (3s) --",
            "    replay tx     : +1200 frame(s)",
            "    sensor rx     : +1200 frame(s)",
            "    flowing       : yes (frames reach the sensor)",
            "  -- daemon heartbeat --",
            "    state         : gap",
            "    packets/sec   : 25",
            "  -- findings --",
            "    none: the datapath is healthy",
        ]
    );
}

#[test]
fn net_show_lists_findings_with_their_remedies() {
    let mut d = path();
    d.bridge_physical_member = Some("eth0".into());
    d.rx_delta = Some(0);
    let (health, findings) = assess(&d);
    let c = Counters {
        replay_mtu: None,
        replay_tx_packets: None,
        replay_tx_dropped: None,
        sensor_rx_packets: None,
        sensor_rx_dropped: None,
    };
    let lines = render_net_show(&d, &c, &vec![], health, &findings, 0, &None);
    assert_eq!(lines[0], "turbolaser net-show  [broken]  (tc mirror)");
    assert!(lines.contains(&"    members       : none".to_string()));
    assert!(lines.contains(
        &"    BREACH        : physical member eth0 on the isolated bridge".to_string()
    ));
    assert!(lines.contains(&"  -- live probe skipped (--probe-secs 0) --".to_string()));
    let at = lines.iter().position(|l| l == "  -- findings --").unwrap();
    let tail: Vec<String> = findings
        .iter()
        .flat_map(|f| {
            let mut v = vec![format!("    [broken] {}", f.message)];
            if let Some(r) = &f.remedy {
                v.push(format!("        -> {r}"));
            }
            v
        })
        .collect();
    assert_eq!(&lines[at + 1..], tail.as_slice());
}

fn view() -> StatusView {
    StatusView {
        laser: Some("red_laser".into()),
        iface: Some("tl0".into()),
        scenario: None,
        phase: None,
        technique_ids: vec![],
        device_count: Some(64),
        capture_host_count: Some(6),
        total_wire_assets: Some(70),
        max_assets: Some(512),
        target_devices: Some(64),
        sealed: true,
        zone_count: Some(1),
        subnet_cap: Some(16),
        cycle: Some(0),
        last_threat_unix: None,
        zones: vec![ZoneStatus {
            cidr: Some("10.0.0.0/24".into()),
            name: Some("Z".into()),
            devices: Some(64),
        }],
        run: Some(5),
        current_file: Some("/p/a.pcap".into()),
        last_run_packets: Some(42),
        total_tx_packets: None,
        pps: Some("25".into()),
        mbps: Some("1.5".into()),
        next_gap_secs: None,
        updated_unix: Some(160),
        started_unix: Some(100),
        last_error: None,
    }
}

#[test]
fn pewpew_reads_line_by_line() {
    assert_eq!(
        render_pewpew(&view(), "gap"),
        vec![
            "turbolaser pewpew  [gap]  red_laser on tl0".to_string(),
            "  -- wire footprint vs plan --".to_string(),
            "    assets        : 70 / 512  (64 fabricated, 6 capture-derived)".to_string(),
            "    planned fleet : 64 fabricated  (sealed: true)".to_string(),
            "    zones         : 1 / 16".to_string(),
            "    drift         : none".to_string(),
            "  -- zones --".to_string(),
            format!("    {:<18} {} ({} devices)", "10.0.0.0/24", "Z", 64),
            "  -- throughput & runtime --".to_string(),
            "    run           : 5".to_string(),
            "    current file  : /p/a.pcap".to_string(),
            "    last packets  : 42".to_string(),
            "    tx packets    : null".to_string(),
            "    packets/sec   : 25".to_string(),
            "    throughput    : 1.5 Mbps".to_string(),
            "    uptime        : 60s".to_string(),
            "    updated_unix  : 160".to_string(),
            "  (datapath triage: turbolaser net-show)".to_string(),
        ]
    );
}

#[test]
fn pewpew_shows_the_scenario_and_the_drift() {
    let mut v = view();
    v.laser = Some("target:stuxnet".into());
    v.scenario = Some("stuxnet".into());
    v.phase = Some("Sabotage".into());
    v.technique_ids = vec!["T0836".into(), "T0831".into()];
    v.device_count = Some(63);
    let lines = render_pewpew(&v, "replaying");
    assert_eq!(
        &lines[1..5],
        &[
            "  -- target scenario --".to_string(),
            "    scenario      : stuxnet".to_string(),
            "    phase         : Sabotage".to_string(),
            "    att&ck (ics)  : T0836 T0831".to_string(),
        ]
    );
    assert!(lines.contains(&"    drift         : DRIFT (wire diverges from plan)".to_string()));
    let mut g = view();
    g.laser = Some("green_laser".into());
    assert!(!render_pewpew(&g, "gap").contains(&"  -- wire footprint vs plan --".to_string()));
}
