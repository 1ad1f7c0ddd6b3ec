use ot_turbolaser::control::{
    datapath_kind, datapath_missing_msg, missing_datapath_ifaces, DatapathKind,
};

#[test]
fn both_ports_present_is_self_contained() {
    // net-provision made both ends of the veth pair: build the local mirror.
    assert_eq!(
        datapath_kind("tl0", "sens0", |_| true),
        DatapathKind::SelfContained
    );
}

#[test]
fn replay_present_sensor_absent_is_hypervisor() {
    // Proxmox: eth1 is in the container, the sensor tap is on the host. net-setup
    // must no-op here rather than exit 4 looking for sens0.
    assert_eq!(
        datapath_kind("eth1", "sens0", |i| i == "eth1"),
        DatapathKind::HypervisorProvided
    );
}

#[test]
fn replay_absent_is_unprovisioned() {
    // No replay port: the daemon cannot transmit, regardless of the sensor.
    assert_eq!(
        datapath_kind("tl0", "sens0", |i| i == "sens0"),
        DatapathKind::Unprovisioned
    );
    assert_eq!(
        datapath_kind("tl0", "sens0", |_| false),
        DatapathKind::Unprovisioned
    );
}

#[test]
fn both_ports_present_yields_nothing_missing() {
    let missing = missing_datapath_ifaces("tl0", "sens0", |_| true);
    assert!(missing.is_empty(), "both present => fire proceeds");
}

#[test]
fn absent_replay_port_is_reported() {
    // Only the replay port is missing; the sensor exists.
    let missing = missing_datapath_ifaces("tl0", "sens0", |i| i == "sens0");
    assert_eq!(missing, vec![("replay port (iface)", "tl0")]);
}

#[test]
fn absent_sensor_port_is_reported() {
    let missing = missing_datapath_ifaces("tl0", "sens0", |i| i == "tl0");
    assert_eq!(missing, vec![("sensor port (net.sensor_port)", "sens0")]);
}

#[test]
fn both_absent_reported_replay_first() {
    // The appliance regime that triggered the bug: neither port provisioned.
    let missing = missing_datapath_ifaces("tl0", "sens0", |_| false);
    assert_eq!(
        missing,
        vec![
            ("replay port (iface)", "tl0"),
            ("sensor port (net.sensor_port)", "sens0"),
        ],
        "both listed, replay before sensor"
    );
}

#[test]
fn message_names_the_ifaces_and_the_remedy() {
    let missing = missing_datapath_ifaces("tl0", "sens0", |_| false);
    let msg = datapath_missing_msg(&missing);
    // Names both offending interfaces and their config keys.
    assert!(msg.contains("tl0") && msg.contains("sens0"), "names ifaces");
    assert!(msg.contains("iface") && msg.contains("net.sensor_port"));
    // Mirrors net-setup.sh's guidance and the isolation invariant.
    assert!(
        msg.contains("net-setup does not create these"),
        "states they are not auto-created: {msg}"
    );
    assert!(
        msg.contains("veth or tap") && msg.contains("never a physical uplink"),
        "points at provisioning a virtual, isolated pair: {msg}"
    );
    // Names the helper that fixes it and the retry command.
    assert!(
        msg.contains("turbolaser net-provision"),
        "names the provisioning command: {msg}"
    );
    assert!(msg.contains("turbolaser fire"), "names the retry command");
}
