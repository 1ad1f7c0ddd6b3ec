use ot_turbolaser::netinfo::{assess, Datapath, Health};

fn healthy() -> Datapath {
    Datapath {
        mirror_mode: "tc".into(),
        replay: "tl0".into(),
        bridge: "tlbr0".into(),
        sensor: "sens0".into(),
        replay_exists: true,
        replay_up: true,
        replay_master: Some("tlbr0".into()),
        bridge_exists: true,
        bridge_physical_member: None,
        sensor_exists: true,
        sensor_up: true,
        sensor_promisc: true,
        mirror_present: true,
        tx_delta: Some(1200),
        rx_delta: Some(1200),
    }
}

#[test]
fn a_flowing_datapath_is_healthy() {
    let (h, f) = assess(&healthy());
    assert_eq!(h, Health::Healthy, "{f:?}");
    assert_eq!(h.exit_code(), 0);
}

#[test]
fn tx_flowing_but_no_rx_is_broken_with_the_mirror_remedy() {
    // The live-demo failure: the daemon emits but nothing reaches the sensor.
    let mut d = healthy();
    d.rx_delta = Some(0);
    let (h, f) = assess(&d);
    assert_eq!(h, Health::Broken);
    assert!(
        f.iter().any(|x| x.severity == Health::Broken
            && x.message.contains("0 reached")
            && x.remedy.as_deref().unwrap_or("").contains("flood")),
        "names the datapath fault and the flood/OVS remedy: {f:?}"
    );
}

#[test]
fn idle_replay_is_degraded_not_broken() {
    let mut d = healthy();
    d.tx_delta = Some(0);
    d.rx_delta = Some(0);
    let (h, _) = assess(&d);
    assert_eq!(
        h,
        Health::Degraded,
        "an idle daemon is not a datapath fault"
    );
}

#[test]
fn missing_mirror_is_broken() {
    let mut d = healthy();
    d.mirror_present = false;
    assert_eq!(assess(&d).0, Health::Broken);
}

#[test]
fn sensor_not_promisc_is_degraded() {
    let mut d = healthy();
    d.sensor_promisc = false;
    assert_eq!(assess(&d).0, Health::Degraded);
}

#[test]
fn physical_bridge_member_is_an_isolation_breach() {
    let mut d = healthy();
    d.bridge_physical_member = Some("eth0".into());
    let (h, f) = assess(&d);
    assert_eq!(h, Health::Broken);
    assert!(f.iter().any(|x| x.message.contains("ISOLATION BREACH")));
}

#[test]
fn missing_replay_port_short_circuits() {
    let mut d = healthy();
    d.replay_exists = false;
    let (h, f) = assess(&d);
    assert_eq!(h, Health::Broken);
    // No spurious sensor/mirror findings once the replay port is absent.
    assert_eq!(f.len(), 1, "{f:?}");
}
