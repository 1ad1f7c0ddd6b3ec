//! Network-datapath inspection: from a snapshot of the kernel's own link state
//! and counters to a verdict.
//!
//! A single verdict localises a "sensor sees nothing" fault between the
//! appliance, the bridge/mirror, and the sensor.

use vstd::prelude::*;
use crate::text::{
    chars_of, contains, dec, holds, number_of, opt_is, opt_str, opt_text, parse_number, str_eq,
    trim, trimmed,
};

verus! {

/// The number in a counter file, surrounding white space aside.
pub fn counter_from(text: &str) -> (r: Option<u64>)
    ensures
        r == (match number_of(trimmed(text@), 10) {
            Ok(n) => Some(n),
            Err(_) => None,
        }),
{
    let cs = chars_of(text);
    match parse_number(trim(cs.as_slice()), 10) {
        Ok(n) => Some(n),
        Err(_) => None,
    }
}

/// Carrier present (link layer up), from the carrier file.
pub fn carrier_from(text: &str) -> (r: Option<bool>)
    ensures
        r == (match number_of(trimmed(text@), 10) {
            Ok(n) => Some(n != 0),
            Err(_) => None,
        }),
{
    match counter_from(text) {
        Some(n) => Some(n != 0),
        None => None,
    }
}

/// A usable link: operstate "up", or carrier present (covers veth/tap that
/// report operstate "unknown" while still carrying frames).
pub fn link_usable(operstate: Option<&str>, carrier: Option<bool>) -> (r: bool)
    ensures
        r == (opt_str(operstate) == Some("up"@) || carrier == Some(true)),
{
    let up = match operstate {
        Some(s) => str_eq(s, "up"),
        None => false,
    };
    up || match carrier {
        Some(c) => c,
        None => false,
    }
}

/// The value of a flags text: hexadecimal, behind `0x` if that is there.
pub open spec fn flags_of(text: Seq<char>) -> Option<u64> {
    let t = trimmed(text);
    let digits = if t.len() >= 2 && t[0] == '0' && t[1] == 'x' {
        t.skip(2)
    } else {
        t
    };
    match number_of(digits, 16) {
        Ok(n) => Some(n),
        Err(_) => None,
    }
}

/// Promiscuous mode, parsed from the `flags` bitfield (IFF_PROMISC = 0x100).
pub fn promisc_from(text: &str) -> (r: Option<bool>)
    ensures
        r == (match flags_of(text@) {
            Some(n) => Some(n as int / 0x100 % 2 == 1),
            None => None,
        }),
{
    let cs = chars_of(text);
    let t = trim(cs.as_slice());
    let flags = if t.len() >= 2 && t[0] == '0' && t[1] == 'x' {
        let rest = vstd::slice::slice_subrange(t, 2, t.len());
        proof {
            assert(rest@ =~= t@.skip(2));
        }
        parse_number(rest, 16)
    } else {
        parse_number(t, 16)
    };
    match flags {
        Ok(n) => Some(n / 0x100 % 2 == 1),
        Err(_) => None,
    }
}

/// The `device` link of an interface leads into the PCI or USB tree, so the
/// interface is a physical NIC.
pub fn physical_link(link: &str) -> (r: bool)
    ensures
        r == (holds(link@, "/pci"@) || holds(link@, "/usb"@)),
{
    contains(link, "/pci") || contains(link, "/usb")
}

/// A snapshot of the datapath, turned into a verdict. Kept separate from the
/// gathering so the decision table needs no live bridge.
#[derive(Debug)]
pub struct Datapath {
    pub mirror_mode: String,
    pub replay: String,
    pub bridge: String,
    pub sensor: String,
    pub replay_exists: bool,
    pub replay_up: bool,
    /// The bridge the replay port is enslaved to (tc mode), if any.
    pub replay_master: Option<String>,
    pub bridge_exists: bool,
    /// A physical member of the isolated bridge: an isolation breach.
    pub bridge_physical_member: Option<String>,
    pub sensor_exists: bool,
    pub sensor_up: bool,
    pub sensor_promisc: bool,
    /// A mirror/span from the replay port to the sensor port was found.
    pub mirror_present: bool,
    /// Counter deltas over the probe window. None when no probe was run.
    pub tx_delta: Option<u64>,
    pub rx_delta: Option<u64>,
}

/// Overall datapath health. The exit code is 0 healthy, 1 degraded (works but
/// something is off), 2 broken (frames cannot reach the sensor).
#[derive(Clone, Copy, Debug, PartialEq, Eq, Structural)]
pub enum Health {
    Healthy,
    Degraded,
    Broken,
}

impl Health {
    pub fn exit_code(&self) -> (r: i32)
        ensures
            r == (match *self {
                Health::Healthy => 0int,
                Health::Degraded => 1,
                Health::Broken => 2,
            }),
    {
        match self {
            Health::Healthy => 0,
            Health::Degraded => 1,
            Health::Broken => 2,
        }
    }
}

/// One finding about the datapath: a severity, a human line, and (optionally) a
/// remedy hint.
#[derive(Debug, PartialEq, Eq)]
pub struct Finding {
    pub severity: Health,
    pub message: String,
    pub remedy: Option<String>,
}

/// What a finding says.
pub struct FindingModel {
    pub severity: Health,
    pub message: Seq<char>,
    pub remedy: Option<Seq<char>>,
}

impl View for Finding {
    type V = FindingModel;

    open spec fn view(&self) -> FindingModel {
        FindingModel {
            severity: self.severity,
            message: self.message@,
            remedy: opt_text(self.remedy),
        }
    }
}

pub open spec fn finding_models(v: Seq<Finding>) -> Seq<FindingModel> {
    v.map_values(|f: Finding| f@)
}

pub open spec fn broken(message: Seq<char>, remedy: Seq<char>) -> FindingModel {
    FindingModel { severity: Health::Broken, message, remedy: Some(remedy) }
}

pub open spec fn degraded(message: Seq<char>, remedy: Seq<char>) -> FindingModel {
    FindingModel { severity: Health::Degraded, message, remedy: Some(remedy) }
}

/// A finding where the condition holds, else none.
pub open spec fn when(c: bool, f: FindingModel) -> Seq<FindingModel> {
    if c {
        seq![f]
    } else {
        Seq::empty()
    }
}

pub open spec fn breach_findings(d: Datapath) -> Seq<FindingModel> {
    match d.bridge_physical_member {
        Some(m) => seq![
            broken(
                "ISOLATION BREACH: bridge "@ + d.bridge@ + " has physical member "@ + m@,
                "remove the physical NIC from the isolated bridge immediately"@,
            ),
        ],
        None => Seq::empty(),
    }
}

pub open spec fn replay_missing(d: Datapath) -> FindingModel {
    broken(
        "replay port "@ + d.replay@ + " does not exist"@,
        "check `iface` in the config and that net-setup ran"@,
    )
}

pub open spec fn replay_down(d: Datapath) -> FindingModel {
    broken(
        "replay port "@ + d.replay@ + " is down"@,
        "ip link set "@ + d.replay@ + " up"@,
    )
}

pub open spec fn bridge_missing(d: Datapath) -> FindingModel {
    broken(
        "bridge "@ + d.bridge@ + " does not exist"@,
        "run net-setup to create the isolated bridge and mirror"@,
    )
}

pub open spec fn not_enslaved(d: Datapath) -> FindingModel {
    degraded(
        "replay port "@ + d.replay@ + " is not enslaved to bridge "@ + d.bridge@ + " (master="@ + (
        match d.replay_master {
            Some(m) => m@,
            None => "none"@,
        }) + ")"@,
        "ip link set "@ + d.replay@ + " master "@ + d.bridge@,
    )
}

pub open spec fn bridge_findings(d: Datapath) -> Seq<FindingModel> {
    if !d.bridge_exists {
        seq![bridge_missing(d)]
    } else {
        when(d.mirror_mode@ == "tc"@
            && opt_text(d.replay_master) != Some(d.bridge@), not_enslaved(d))
    }
}

pub open spec fn sensor_missing(d: Datapath) -> FindingModel {
    broken(
        "sensor port "@ + d.sensor@ + " does not exist"@,
        "check `net.sensor_port` in the config"@,
    )
}

pub open spec fn sensor_down(d: Datapath) -> FindingModel {
    broken("sensor port "@ + d.sensor@ + " is down"@, "ip link set "@ + d.sensor@ + " up"@)
}

pub open spec fn sensor_deaf(d: Datapath) -> FindingModel {
    degraded(
        "sensor port "@ + d.sensor@ + " is not promiscuous; mirrored frames are dropped"@,
        "ip link set "@ + d.sensor@ + " promisc on"@,
    )
}

pub open spec fn sensor_findings(d: Datapath) -> Seq<FindingModel> {
    if !d.sensor_exists {
        seq![sensor_missing(d)]
    } else {
        when(!d.sensor_up, sensor_down(d)) + when(!d.sensor_promisc, sensor_deaf(d))
    }
}

pub open spec fn mirror_missing(d: Datapath) -> FindingModel {
    broken(
        "no mirror from "@ + d.replay@ + " to "@ + d.sensor@ + " found ("@ + d.mirror_mode@
            + " mode)"@,
        "re-run net-setup to install the SPAN mirror"@,
    )
}

pub open spec fn idle() -> FindingModel {
    degraded(
        "no frames left the replay port during the probe (daemon idle, in a gap, or stopped)"@,
        "confirm the daemon is replaying: turbolaser pewpew"@,
    )
}

pub open spec fn not_delivering(d: Datapath, tx: u64) -> FindingModel {
    broken(
        dec(tx as nat) + " frame(s) egressed "@ + d.replay@ + " but 0 reached "@ + d.sensor@
            + ": the mirror/bridge is not delivering"@,
        "tcpreplay may use PACKET_QDISC_BYPASS (skips the tc mirror); switch the bridge to flood mode (`bridge link set dev <port> learning off flood on` on both ports) or use the OVS mirror"@,
    )
}

pub open spec fn probe_findings(d: Datapath) -> Seq<FindingModel> {
    match (d.tx_delta, d.rx_delta) {
        (Some(tx), Some(rx)) => if tx == 0 {
            seq![idle()]
        } else {
            when(rx == 0, not_delivering(d, tx))
        },
        _ => Seq::empty(),
    }
}

/// The findings of a snapshot, in order. Without a replay port nothing but a
/// breach of isolation is reported besides.
pub open spec fn findings_of(d: Datapath) -> Seq<FindingModel> {
    if !d.replay_exists {
        breach_findings(d) + seq![replay_missing(d)]
    } else {
        breach_findings(d) + when(!d.replay_up, replay_down(d)) + bridge_findings(d)
            + sensor_findings(d) + when(!d.mirror_present, mirror_missing(d)) + probe_findings(d)
    }
}

/// Some finding has the severity.
pub open spec fn has_severity(f: Seq<FindingModel>, h: Health) -> bool {
    exists|i: int| 0 <= i < f.len() && (#[trigger] f[i]).severity == h
}

/// The verdict on a list of findings: the worst severity among them.
pub open spec fn worst_of(f: Seq<FindingModel>) -> Health {
    if has_severity(f, Health::Broken) {
        Health::Broken
    } else if has_severity(f, Health::Degraded) {
        Health::Degraded
    } else {
        Health::Healthy
    }
}

struct Notes {
    worst: Health,
    findings: Vec<Finding>,
}

impl Notes {
    spec fn models(&self) -> Seq<FindingModel> {
        finding_models(self.findings@)
    }

    spec fn wf(&self) -> bool {
        self.worst == worst_of(self.models())
    }

    fn note(&mut self, severity: Health, message: String, remedy: String)
        requires
            old(self).wf(),
            severity != Health::Healthy,
        ensures
            final(self).wf(),
            final(self).models() == old(self).models().push(
                FindingModel { severity, message: message@, remedy: Some(remedy@) },
            ),
    {
        if severity == Health::Broken {
            self.worst = Health::Broken;
        } else if severity == Health::Degraded && self.worst == Health::Healthy {
            self.worst = Health::Degraded;
        }
        self.findings.push(Finding { severity, message, remedy: Some(remedy) });
        proof {
            let o = old(self).models();
            let n = self.models();
            let f = FindingModel { severity, message: message@, remedy: Some(remedy@) };
            assert(n =~= o.push(f));
            assert(n[o.len() as int] == f);
            assert forall|h: Health| #[trigger]
                has_severity(n, h) <==> has_severity(o, h) || severity == h by {
                if has_severity(o, h) {
                    let i = choose|i: int| 0 <= i < o.len() && (#[trigger] o[i]).severity == h;
                    assert(n[i].severity == h);
                }
                if has_severity(n, h) {
                    let i = choose|i: int| 0 <= i < n.len() && (#[trigger] n[i]).severity == h;
                    if i < o.len() {
                        assert(o[i].severity == h);
                    }
                }
            }
        }
    }
}

fn join3(a: &str, b: &str, c: &str) -> (r: String)
    ensures
        r@ == a@ + b@ + c@,
{
    let mut s = a.to_owned();
    s.append(b);
    s.append(c);
    s
}

fn note_bridge(d: &Datapath, n: &mut Notes)
    requires
        old(n).wf(),
    ensures
        final(n).wf(),
        final(n).models() == old(n).models() + bridge_findings(*d),
{
    let ghost o = n.models();
    if !d.bridge_exists {
        n.note(
            Health::Broken,
            join3("bridge ", d.bridge.as_str(), " does not exist"),
            "run net-setup to create the isolated bridge and mirror".to_owned(),
        );
        proof {
            assert(o.push(bridge_missing(*d)) =~= o + bridge_findings(*d));
        }
    } else if str_eq(d.mirror_mode.as_str(), "tc") && !opt_is(&d.replay_master, d.bridge.as_str()) {
        let mut m = join3("replay port ", d.replay.as_str(), " is not enslaved to bridge ");
        m.append(d.bridge.as_str());
        m.append(" (master=");
        m.append(
            match &d.replay_master {
                Some(x) => x.as_str(),
                None => "none",
            },
        );
        m.append(")");
        let mut r = join3("ip link set ", d.replay.as_str(), " master ");
        r.append(d.bridge.as_str());
        n.note(Health::Degraded, m, r);
        proof {
            assert(o.push(not_enslaved(*d)) =~= o + bridge_findings(*d));
        }
    } else {
        proof {
            assert(o =~= o + bridge_findings(*d));
        }
    }
}

fn note_sensor(d: &Datapath, n: &mut Notes)
    requires
        old(n).wf(),
    ensures
        final(n).wf(),
        final(n).models() == old(n).models() + sensor_findings(*d),
{
    let ghost o = n.models();
    if !d.sensor_exists {
        n.note(
            Health::Broken,
            join3("sensor port ", d.sensor.as_str(), " does not exist"),
            "check `net.sensor_port` in the config".to_owned(),
        );
    } else {
        if !d.sensor_up {
            n.note(
                Health::Broken,
                join3("sensor port ", d.sensor.as_str(), " is down"),
                join3("ip link set ", d.sensor.as_str(), " up"),
            );
        }
        if !d.sensor_promisc {
            n.note(
                Health::Degraded,
                join3(
                    "sensor port ",
                    d.sensor.as_str(),
                    " is not promiscuous; mirrored frames are dropped",
                ),
                join3("ip link set ", d.sensor.as_str(), " promisc on"),
            );
        }
    }
    proof {
        assert(n.models() =~= o + sensor_findings(*d));
    }
}

fn note_probe(d: &Datapath, n: &mut Notes)
    requires
        old(n).wf(),
    ensures
        final(n).wf(),
        final(n).models() == old(n).models() + probe_findings(*d),
{
    let ghost o = n.models();
    if let (Some(tx), Some(rx)) = (d.tx_delta, d.rx_delta) {
        if tx == 0 {
            n.note(
                Health::Degraded,
                "no frames left the replay port during the probe (daemon idle, in a gap, or stopped)".to_owned(),
                "confirm the daemon is replaying: turbolaser pewpew".to_owned(),
            );
        } else if rx == 0 {
            let mut m = crate::text::dec_string(tx);
            m.append(" frame(s) egressed ");
            m.append(d.replay.as_str());
            m.append(" but 0 reached ");
            m.append(d.sensor.as_str());
            m.append(": the mirror/bridge is not delivering");
            n.note(
                Health::Broken,
                m,
                "tcpreplay may use PACKET_QDISC_BYPASS (skips the tc mirror); switch the bridge to flood mode (`bridge link set dev <port> learning off flood on` on both ports) or use the OVS mirror".to_owned(),
            );
        }
    }
    proof {
        assert(n.models() =~= o + probe_findings(*d));
    }
}

/// Reduce a [`Datapath`] snapshot to a health verdict and an ordered list of
/// findings.
pub fn assess(d: &Datapath) -> (r: (Health, Vec<Finding>))
    ensures
        finding_models(r.1@) == findings_of(*d),
        r.0 == worst_of(findings_of(*d)),
{
    let mut n = Notes { worst: Health::Healthy, findings: Vec::new() };
    proof {
        assert(n.models() =~= Seq::empty());
    }
    // Isolation invariant first: a physical NIC on the isolated bridge is the one
    // thing that must never happen, regardless of replay health.
    if let Some(m) = &d.bridge_physical_member {
        let mut msg = join3("ISOLATION BREACH: bridge ", d.bridge.as_str(), " has physical member ");
        msg.append(m.as_str());
        n.note(
            Health::Broken,
            msg,
            "remove the physical NIC from the isolated bridge immediately".to_owned(),
        );
    }
    proof {
        assert(n.models() =~= breach_findings(*d));
    }
    if !d.replay_exists {
        n.note(
            Health::Broken,
            join3("replay port ", d.replay.as_str(), " does not exist"),
            "check `iface` in the config and that net-setup ran".to_owned(),
        );
        proof {
            assert(n.models() =~= findings_of(*d));
        }
        // Without a replay port nothing else is meaningful.
        return (n.worst, n.findings);
    }
    if !d.replay_up {
        n.note(
            Health::Broken,
            join3("replay port ", d.replay.as_str(), " is down"),
            join3("ip link set ", d.replay.as_str(), " up"),
        );
    }
    proof {
        assert(n.models() =~= breach_findings(*d) + when(!d.replay_up, replay_down(*d)));
    }
    note_bridge(d, &mut n);
    note_sensor(d, &mut n);
    let ghost before_mirror = n.models();
    if !d.mirror_present {
        let mut m = join3("no mirror from ", d.replay.as_str(), " to ");
        m.append(d.sensor.as_str());
        m.append(" found (");
        m.append(d.mirror_mode.as_str());
        m.append(" mode)");
        n.note(
            Health::Broken,
            m,
            "re-run net-setup to install the SPAN mirror".to_owned(),
        );
    }
    proof {
        assert(n.models() =~= before_mirror + when(!d.mirror_present, mirror_missing(*d)));
    }
    // The live probe is the decisive signal: did frames actually flow to the
    // sensor during the window?
    note_probe(d, &mut n);
    (n.worst, n.findings)
}

/// A physical member of the isolated bridge makes every verdict broken.
pub proof fn law_breach_is_broken(d: Datapath)
    requires
        d.bridge_physical_member is Some,
    ensures
        worst_of(findings_of(d)) == Health::Broken,
{
    assert(findings_of(d)[0].severity == Health::Broken);
    assert(has_severity(findings_of(d), Health::Broken));
}

/// The verdict is healthy exactly when there is nothing to report.
pub proof fn law_healthy_iff_no_findings(d: Datapath)
    ensures
        worst_of(findings_of(d)) == Health::Healthy <==> findings_of(d).len() == 0,
{
    let f = findings_of(d);
    if f.len() > 0 {
        assert(f[0].severity != Health::Healthy);
        assert(has_severity(f, f[0].severity));
    }
}

/// Something stands in the way of every frame: a breach of isolation, a port, the
/// bridge or the mirror that is missing or down, or frames that left and did not
/// arrive.
pub open spec fn nothing_arrives(d: Datapath) -> bool {
    ||| d.bridge_physical_member is Some
    ||| !d.replay_exists
    ||| !d.replay_up
    ||| !d.bridge_exists
    ||| !d.sensor_exists
    ||| !d.sensor_up
    ||| !d.mirror_present
    ||| d.tx_delta is Some && d.rx_delta is Some && d.tx_delta->0 > 0 && d.rx_delta->0 == 0
}

/// Something is amiss: the replay port is not in the bridge where the mirror needs
/// it to be, the sensor port is not promiscuous, or nothing was sent meanwhile.
pub open spec fn something_amiss(d: Datapath) -> bool {
    ||| d.mirror_mode@ == "tc"@ && opt_text(d.replay_master) != Some(d.bridge@)
    ||| !d.sensor_promisc
    ||| d.tx_delta is Some && d.rx_delta is Some && d.tx_delta->0 == 0
}

/// The verdict is broken exactly when nothing can arrive, degraded when that is
/// not so and yet something is amiss, and healthy otherwise.
pub proof fn law_verdict_follows_the_datapath(d: Datapath)
    ensures
        worst_of(findings_of(d)) == if nothing_arrives(d) {
            Health::Broken
        } else if something_amiss(d) {
            Health::Degraded
        } else {
            Health::Healthy
        },
{
    let f = findings_of(d);
    let a = breach_findings(d);
    if !d.replay_exists {
        assert(f[a.len() as int] == replay_missing(d));
        assert(has_severity(f, Health::Broken));
    } else {
        let b = when(!d.replay_up, replay_down(d));
        let c = bridge_findings(d);
        let e = sensor_findings(d);
        let g = when(!d.mirror_present, mirror_missing(d));
        let h = probe_findings(d);
        lemma_severity_join(a, b);
        lemma_severity_join(a + b, c);
        lemma_severity_join(a + b + c, e);
        lemma_severity_join(a + b + c + e, g);
        lemma_severity_join(a + b + c + e + g, h);
        lemma_severity_when(!d.replay_up, replay_down(d));
        lemma_severity_when(
            d.mirror_mode@ == "tc"@ && opt_text(d.replay_master) != Some(d.bridge@),
            not_enslaved(d),
        );
        lemma_severity_when(true, bridge_missing(d));
        lemma_severity_when(true, sensor_missing(d));
        lemma_severity_when(!d.sensor_up, sensor_down(d));
        lemma_severity_when(!d.sensor_promisc, sensor_deaf(d));
        lemma_severity_join(
            when(!d.sensor_up, sensor_down(d)),
            when(!d.sensor_promisc, sensor_deaf(d)),
        );
        lemma_severity_when(!d.mirror_present, mirror_missing(d));
        lemma_severity_when(true, idle());
        if d.tx_delta is Some && d.rx_delta is Some {
            lemma_severity_when(d.rx_delta->0 == 0, not_delivering(d, d.tx_delta->0));
        }
        if d.bridge_physical_member is Some {
            lemma_severity_when(true, a[0]);
            assert(a =~= when(true, a[0]));
        }
    }
}

proof fn lemma_severity_join(a: Seq<FindingModel>, b: Seq<FindingModel>)
    ensures
        forall|h: Health| #[trigger]
            has_severity(a + b, h) <==> has_severity(a, h) || has_severity(b, h),
{
    assert forall|h: Health| #[trigger] has_severity(a + b, h) <==> has_severity(a, h)
        || has_severity(b, h) by {
        if has_severity(a, h) {
            let i = choose|i: int| 0 <= i < a.len() && (#[trigger] a[i]).severity == h;
            assert((a + b)[i].severity == h);
        }
        if has_severity(b, h) {
            let i = choose|i: int| 0 <= i < b.len() && (#[trigger] b[i]).severity == h;
            assert((a + b)[a.len() + i].severity == h);
        }
        if has_severity(a + b, h) {
            let i = choose|i: int| 0 <= i < (a + b).len() && (#[trigger] (a + b)[i]).severity == h;
            if i < a.len() {
                assert(a[i].severity == h);
            } else {
                assert(b[i - a.len()].severity == h);
            }
        }
    }
}

proof fn lemma_severity_when(c: bool, f: FindingModel)
    ensures
        forall|h: Health| #[trigger] has_severity(when(c, f), h) <==> c && f.severity == h,
        seq![f] == when(true, f),
{
    assert forall|h: Health| #[trigger] has_severity(when(c, f), h) <==> c && f.severity == h by {
        if c {
            assert(when(c, f)[0].severity == f.severity);
        }
    }
}

/// A flowing datapath, in tc mode or not, is healthy.
pub proof fn law_flowing_is_healthy(d: Datapath)
    requires
        d.bridge_physical_member is None,
        d.replay_exists && d.replay_up && d.bridge_exists && d.sensor_exists && d.sensor_up
            && d.sensor_promisc && d.mirror_present,
        d.mirror_mode@ == "tc"@ ==> opt_text(d.replay_master) == Some(d.bridge@),
        d.tx_delta is Some && d.rx_delta is Some ==> d.tx_delta->0 > 0 && d.rx_delta->0 > 0,
    ensures
        worst_of(findings_of(d)) == Health::Healthy,
{
    assert(findings_of(d) =~= Seq::empty());
}

} // verus!
