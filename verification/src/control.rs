//! Operator control decisions: which datapath a host has, what the network
//! hooks do about it, and what a heartbeat says about health.

use vstd::prelude::*;
use crate::text::{
    chars_of, contains, dec, dec_string, holds, runs, split, split_on, str_eq, string_of, trim,
    trimmed,
};

verus! {

/// The exit code for an unusable configuration.
pub const EX_CONFIG: i32 = 78;

/// Which deployment regime the configured datapath implies, decided from which
/// ports exist on this host. The sensor port is the signal: on a self-contained
/// host both ports exist; on a hypervisor the sensor tap lives on the host, so it
/// is absent in this container and net-setup must do nothing rather than try to
/// build a local mirror.
#[derive(Clone, Copy, Debug, PartialEq, Eq, Structural)]
pub enum DatapathKind {
    /// Replay and sensor ports both present: build the isolated bridge + mirror here.
    SelfContained,
    /// Replay present, sensor absent: the hypervisor/host provides the datapath and
    /// owns the mirror.
    HypervisorProvided,
    /// Replay port absent: the daemon cannot transmit. A non-retryable error.
    Unprovisioned,
}

/// What `present` may answer about two ports.
pub open spec fn answers<F: Fn(&str) -> bool>(
    present: F,
    replay: &str,
    sensor: &str,
    a: bool,
    b: bool,
) -> bool {
    call_ensures(present, (replay,), a) && call_ensures(present, (sensor,), b)
}

/// Classify the datapath from the two configured port names. The sensor is not
/// asked about when the replay port is absent.
pub fn datapath_kind<F: Fn(&str) -> bool>(replay: &str, sensor: &str, present: F) -> (r:
    DatapathKind)
    requires
        call_requires(present, (replay,)),
        call_requires(present, (sensor,)),
    ensures
        match r {
            DatapathKind::Unprovisioned => call_ensures(present, (replay,), false),
            DatapathKind::HypervisorProvided => answers(present, replay, sensor, true, false),
            DatapathKind::SelfContained => answers(present, replay, sensor, true, true),
        },
{
    if !present(replay) {
        DatapathKind::Unprovisioned
    } else if !present(sensor) {
        DatapathKind::HypervisorProvided
    } else {
        DatapathKind::SelfContained
    }
}

/// A port's role and name.
pub open spec fn port_texts(v: Seq<(&str, &str)>) -> Seq<(Seq<char>, Seq<char>)> {
    v.map_values(|p: (&str, &str)| (p.0@, p.1@))
}

/// The roles and names of the absent ports, replay before sensor.
pub open spec fn absent_ports(
    replay: Seq<char>,
    sensor: Seq<char>,
    has_replay: bool,
    has_sensor: bool,
) -> Seq<(Seq<char>, Seq<char>)> {
    let first: Seq<(Seq<char>, Seq<char>)> = if has_replay {
        Seq::empty()
    } else {
        seq![("replay port (iface)"@, replay)]
    };
    if has_sensor {
        first
    } else {
        first.push(("sensor port (net.sensor_port)"@, sensor))
    }
}

/// The configured ports the `present` predicate reports absent, as (role, name)
/// pairs in (replay, sensor) order.
pub fn missing_datapath_ifaces<'a, F: Fn(&str) -> bool>(
    replay: &'a str,
    sensor: &'a str,
    present: F,
) -> (r: Vec<(&'static str, &'a str)>)
    requires
        call_requires(present, (replay,)),
        call_requires(present, (sensor,)),
    ensures
        exists|a: bool, b: bool| #[trigger]
            answers(present, replay, sensor, a, b) && port_texts(r@) == absent_ports(
                replay@,
                sensor@,
                a,
                b,
            ),
{
    let mut missing: Vec<(&'static str, &'a str)> = Vec::new();
    let has_replay: bool = present(replay);
    if !has_replay {
        missing.push(("replay port (iface)", replay));
    }
    let has_sensor: bool = present(sensor);
    if !has_sensor {
        missing.push(("sensor port (net.sensor_port)", sensor));
    }
    proof {
        assert(answers(present, replay, sensor, has_replay, has_sensor));
        assert(port_texts(missing@) =~= absent_ports(replay@, sensor@, has_replay, has_sensor));
    }
    missing
}

/// The ports of a list, each as its role and its name in quotes, separated by
/// commas.
pub open spec fn port_list(v: Seq<(Seq<char>, Seq<char>)>) -> Seq<char>
    decreases v.len(),
{
    if v.len() == 0 {
        Seq::empty()
    } else {
        let item = v.last().0 + " '"@ + v.last().1 + "'"@;
        if v.len() == 1 {
            item
        } else {
            port_list(v.drop_last()) + ", "@ + item
        }
    }
}

/// The fail-fast message for missing datapath ports: the ports must be
/// provisioned first and are not created by net-setup, and the replay port must
/// be a virtual link, never a physical uplink.
pub fn datapath_missing_msg(missing: &[(&str, &str)]) -> (r: String)
    ensures
        r@ == "datapath interface(s) not found: "@ + port_list(port_texts(missing@))
            + "\n  net-setup does not create these. On a self-contained host run\n  `turbolaser net-provision` to create the isolated veth pair, or point iface\n  and net.sensor_port at interfaces this host already has (a veth or tap pair,\n  never a physical uplink; on Proxmox the hypervisor provides them, see\n  docs/proxmox.md). Then re-run `turbolaser fire`."@,
{
    let mut list = String::new();
    let ghost all = port_texts(missing@);
    let mut i: usize = 0;
    proof {
        assert(all.take(0) =~= Seq::empty());
    }
    while i < missing.len()
        invariant
            i <= missing@.len(),
            all == port_texts(missing@),
            list@ == port_list(all.take(i as int)),
        decreases missing@.len() - i,
    {
        let ghost before = list@;
        proof {
            assert(all.take(i as int + 1).drop_last() =~= all.take(i as int));
        }
        if i > 0 {
            list.append(", ");
        }
        let mut item = missing[i].0.to_owned();
        item.append(" '");
        item.append(missing[i].1);
        item.append("'");
        list.append(item.as_str());
        proof {
            if i == 0 {
                assert(before =~= Seq::empty());
                assert(list@ =~= item@);
            }
        }
        i += 1;
    }
    proof {
        assert(all.take(i as int) =~= all);
    }
    let mut m = "datapath interface(s) not found: ".to_owned();
    m.append(list.as_str());
    m.append(
        "\n  net-setup does not create these. On a self-contained host run\n  `turbolaser net-provision` to create the isolated veth pair, or point iface\n  and net.sensor_port at interfaces this host already has (a veth or tap pair,\n  never a physical uplink; on Proxmox the hypervisor provides them, see\n  docs/proxmox.md). Then re-run `turbolaser fire`.",
    );
    m
}

/// What a network hook does.
#[derive(Clone, Copy, Debug, PartialEq, Eq, Structural)]
pub enum NetAction {
    /// Run the helper script.
    RunScript,
    /// Succeed at once: the hypervisor owns the datapath.
    SkipHypervisor,
    /// Succeed at once: there is nothing to undo.
    NothingToUndo,
    /// Fail with [`EX_CONFIG`] and name the missing ports.
    MissingPorts,
}

/// What a network hook does on a datapath. Without a port probe (`None`: the host
/// has no sysfs) the script decides.
pub fn net_script_action(kind: Option<DatapathKind>, is_setup: bool) -> (r: NetAction)
    ensures
        r == (match kind {
            Some(DatapathKind::HypervisorProvided) => NetAction::SkipHypervisor,
            Some(DatapathKind::Unprovisioned) => if is_setup {
                NetAction::MissingPorts
            } else {
                NetAction::NothingToUndo
            },
            Some(DatapathKind::SelfContained) | None => NetAction::RunScript,
        }),
{
    match kind {
        Some(DatapathKind::HypervisorProvided) => NetAction::SkipHypervisor,
        Some(DatapathKind::Unprovisioned) => {
            if is_setup {
                NetAction::MissingPorts
            } else {
                NetAction::NothingToUndo
            }
        },
        Some(DatapathKind::SelfContained) | None => NetAction::RunScript,
    }
}

/// The exit code for a helper script that ended with `code` (`None`: by a
/// signal). Exit 4 of net-setup is "interface not found", a configuration error.
pub fn script_exit_code(code: Option<i32>, is_setup: bool) -> (r: i32)
    ensures
        r == (match code {
            Some(c) => if c == 4 && is_setup {
                EX_CONFIG
            } else {
                c
            },
            None => 1,
        }),
{
    match code {
        Some(c) => {
            if c == 4 && is_setup {
                EX_CONFIG
            } else {
                c
            }
        },
        None => 1,
    }
}

/// `fire` can bring the unit up: the replay port, which the daemon transmits on,
/// exists. A missing sensor port is no obstacle.
pub fn can_fire(kind: DatapathKind) -> (r: bool)
    ensures
        r == (kind != DatapathKind::Unprovisioned),
{
    kind != DatapathKind::Unprovisioned
}

/// The lines of a text without the white space at their ends, empty ones left
/// out.
pub open spec fn clean_lines(parts: Seq<Seq<char>>) -> Seq<Seq<char>>
    decreases parts.len(),
{
    if parts.len() == 0 {
        Seq::empty()
    } else {
        let rest = clean_lines(parts.drop_last());
        let t = trimmed(parts.last());
        if t.len() == 0 {
            rest
        } else {
            rest.push(t)
        }
    }
}

pub open spec fn string_views(v: Seq<String>) -> Seq<Seq<char>> {
    v.map_values(|s: String| s@)
}

/// The names in a listing, one to a line.
pub fn listed_names(text: &str) -> (r: Vec<String>)
    ensures
        string_views(r@) == clean_lines(split(text@, '\n')),
{
    let cs = chars_of(text);
    let lines = split_on(cs.as_slice(), '\n');
    let ghost parts = runs(lines@);
    let mut r: Vec<String> = Vec::new();
    let mut i: usize = 0;
    proof {
        assert(parts.take(0) =~= Seq::empty());
        assert(string_views(r@) =~= Seq::empty());
    }
    while i < lines.len()
        invariant
            i <= lines@.len(),
            parts == runs(lines@),
            string_views(r@) == clean_lines(parts.take(i as int)),
        decreases lines@.len() - i,
    {
        proof {
            assert(parts.take(i as int + 1).drop_last() =~= parts.take(i as int));
        }
        let t = trim(lines[i].as_slice());
        if t.len() > 0 {
            let ghost o = r@;
            r.push(string_of(t));
            proof {
                assert(string_views(r@) =~= string_views(o).push(t@));
            }
        }
        i += 1;
    }
    proof {
        assert(parts.take(i as int) =~= parts);
    }
    r
}

/// Whether a listing names something.
pub fn lists_name(text: &str, name: &str) -> (r: bool)
    ensures
        r == clean_lines(split(text@, '\n')).contains(name@),
{
    let names = listed_names(text);
    let mut i: usize = 0;
    while i < names.len()
        invariant
            i <= names@.len(),
            string_views(names@) == clean_lines(split(text@, '\n')),
            forall|k: int| 0 <= k < i ==> (#[trigger] names@[k])@ != name@,
        decreases names@.len() - i,
    {
        if str_eq(names[i].as_str(), name) {
            proof {
                assert(string_views(names@)[i as int] == name@);
            }
            return true;
        }
        i += 1;
    }
    proof {
        let all = string_views(names@);
        if all.contains(name@) {
            let k = choose|k: int| 0 <= k < all.len() && all[k] == name@;
            assert(names@[k]@ == name@);
        }
    }
    false
}

/// A tc filter listing of the replay port mirrors to the sensor port.
pub fn tc_mirrors(filters: &str, sensor: &str) -> (r: bool)
    ensures
        r == (holds(filters@, "mirred"@) && holds(filters@, sensor@)),
{
    contains(filters, "mirred") && contains(filters, sensor)
}

/// An OVS mirror listing outputs to the port with the uuid; an empty uuid is none.
pub fn ovs_mirrors(uuid: &str, mirrors: &str) -> (r: bool)
    ensures
        r == (trimmed(uuid@).len() > 0 && holds(mirrors@, trimmed(uuid@))),
{
    let cs = chars_of(uuid);
    let t = trim(cs.as_slice());
    if t.len() == 0 {
        return false;
    }
    let u = string_of(t);
    contains(mirrors, u.as_str())
}

/// Delta between two counter samples, saturating (a counter reset reads as 0).
pub fn counter_delta(a: Option<u64>, b: Option<u64>) -> (r: Option<u64>)
    ensures
        r == (match (a, b) {
            (Some(a), Some(b)) => Some(
                if b >= a {
                    (b - a) as u64
                } else {
                    0
                },
            ),
            _ => None,
        }),
{
    match (a, b) {
        (Some(a), Some(b)) => Some(b.saturating_sub(a)),
        _ => None,
    }
}

/// A number in print, or "null" for none.
pub open spec fn shown(v: Option<u64>) -> Seq<char> {
    match v {
        Some(n) => dec(n as nat),
        None => "null"@,
    }
}

/// A number, or "null" for none.
pub fn opt(v: Option<u64>) -> (r: String)
    ensures
        r@ == shown(v),
{
    match v {
        Some(n) => dec_string(n),
        None => "null".to_owned(),
    }
}

/// The word for how an interface stands.
pub open spec fn iface_word(present: bool, up: bool) -> Seq<char> {
    if !present {
        "MISSING"@
    } else if up {
        "up"@
    } else {
        "DOWN"@
    }
}

/// How an interface stands.
pub fn iface_state(present: bool, up: bool) -> (r: &'static str)
    ensures
        r@ == iface_word(present, up),
{
    if !present {
        "MISSING"
    } else if up {
        "up"
    } else {
        "DOWN"
    }
}

/// What the counters of a live probe say about the flow.
pub open spec fn flow_word(tx: Option<u64>, rx: Option<u64>) -> Seq<char> {
    match (tx, rx) {
        (Some(t), Some(x)) => if t > 0 && x > 0 {
            "yes (frames reach the sensor)"@
        } else if t == 0 {
            "no tx (daemon idle/in a gap/stopped)"@
        } else {
            "TX but NO RX (mirror/bridge not delivering)"@
        },
        (Some(t), None) => if t == 0 {
            "no tx (daemon idle/in a gap/stopped)"@
        } else {
            "unknown"@
        },
        (None, _) => "unknown"@,
    }
}

/// What the counters of a live probe say about the flow.
pub fn flow_verdict(tx: Option<u64>, rx: Option<u64>) -> (r: &'static str)
    ensures
        r@ == flow_word(tx, rx),
{
    match (tx, rx) {
        (Some(t), Some(x)) => {
            if t > 0 && x > 0 {
                "yes (frames reach the sensor)"
            } else if t == 0 {
                "no tx (daemon idle/in a gap/stopped)"
            } else {
                "TX but NO RX (mirror/bridge not delivering)"
            }
        },
        (Some(t), None) => {
            if t == 0 {
                "no tx (daemon idle/in a gap/stopped)"
            } else {
                "unknown"
            }
        },
        (None, _) => "unknown",
    }
}

/// The exit code for a heartbeat state: 0 for a healthy one, the states of a
/// capture deliberately not sent and the clean stop among them; 3 for no
/// captures; 1 for anything else.
pub open spec fn state_code(state: Seq<char>) -> int {
    if state == "replaying"@ || state == "gap"@ || state == "starting"@ || state
        == "skipped_remap_failed"@ || state == "skipped_public_source"@ || state == "stopping"@ {
        0
    } else if state == "idle_no_pcaps"@ {
        3
    } else {
        1
    }
}

/// The exit code for a heartbeat state.
pub fn state_exit_code(state: &str) -> (r: i32)
    ensures
        r == state_code(state@),
{
    proof {
        reveal_strlit("replaying");
        reveal_strlit("gap");
        reveal_strlit("starting");
        reveal_strlit("skipped_remap_failed");
        reveal_strlit("skipped_public_source");
        reveal_strlit("stopping");
        reveal_strlit("idle_no_pcaps");
    }
    if str_eq(state, "replaying") || str_eq(state, "gap") || str_eq(state, "starting") || str_eq(
        state,
        "skipped_remap_failed",
    ) || str_eq(state, "skipped_public_source") || str_eq(state, "stopping") {
        0
    } else if str_eq(state, "idle_no_pcaps") {
        3
    } else {
        1
    }
}

/// The wire has drifted from the plan: more assets than planned, or a sealed
/// fleet of another size than its target.
pub fn drifted(total: u64, max_assets: u64, sealed: bool, target: u64, device_count: u64) -> (r:
    bool)
    ensures
        r == ((max_assets > 0 && total > max_assets) || (sealed && target > 0 && device_count
            != target)),
{
    (max_assets > 0 && total > max_assets) || (sealed && target > 0 && device_count != target)
}

} // verus!
