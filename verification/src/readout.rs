//! The human readouts, line by line.

use vstd::prelude::*;
use crate::control::{flow_verdict, flow_word, iface_state, iface_word, opt, shown};
use crate::netinfo::{Datapath, Finding, Health};
use crate::text::{chars_of, dec, join, joined, opt_text, push_dec, texts};
use crate::scenario::engine::or;

verus! {

/// A text filled with blanks on the right.
pub open spec fn pad_right(s: Seq<char>, width: nat) -> Seq<char> {
    if s.len() >= width {
        s
    } else {
        s + Seq::new((width - s.len()) as nat, |i: int| ' ')
    }
}

/// A text filled with blanks on the left.
pub open spec fn pad_left(s: Seq<char>, width: nat) -> Seq<char> {
    if s.len() >= width {
        s
    } else {
        Seq::new((width - s.len()) as nat, |i: int| ' ') + s
    }
}

fn push_blanks(s: &mut String, n: usize)
    ensures
        final(s)@ == old(s)@ + Seq::new(n as nat, |i: int| ' '),
{
    let mut k: usize = 0;
    proof {
        assert(s@ =~= old(s)@ + Seq::new(0nat, |i: int| ' '));
    }
    while k < n
        invariant
            k <= n,
            s@ == old(s)@ + Seq::new(k as nat, |i: int| ' '),
        decreases n - k,
    {
        s.push(' ');
        proof {
            assert(s@ =~= old(s)@ + Seq::new((k + 1) as nat, |i: int| ' '));
        }
        k += 1;
    }
}

/// Append a text, filled with blanks on the right.
pub fn push_padded_right(s: &mut String, t: &str, width: usize)
    ensures
        final(s)@ == old(s)@ + pad_right(t@, width as nat),
{
    let n: usize = chars_of(t).len();
    s.append(t);
    if n < width {
        push_blanks(s, width - n);
    }
    proof {
        assert(s@ =~= old(s)@ + pad_right(t@, width as nat));
    }
}

/// Append a text, filled with blanks on the left.
pub fn push_padded_left(s: &mut String, t: &str, width: usize)
    ensures
        final(s)@ == old(s)@ + pad_left(t@, width as nat),
{
    let n: usize = chars_of(t).len();
    if n < width {
        push_blanks(s, width - n);
    }
    s.append(t);
    proof {
        assert(s@ =~= old(s)@ + pad_left(t@, width as nat));
    }
}

/// The word for a verdict.
pub open spec fn health_tag(h: Health) -> Seq<char> {
    match h {
        Health::Healthy => "healthy"@,
        Health::Degraded => "degraded"@,
        Health::Broken => "broken"@,
    }
}

/// The word for a verdict.
pub fn health_word(h: Health) -> (r: &'static str)
    ensures
        r@ == health_tag(h),
{
    match h {
        Health::Healthy => "healthy",
        Health::Degraded => "degraded",
        Health::Broken => "broken",
    }
}

pub(crate) fn line2(a: &str, b: &str) -> (r: String)
    ensures
        r@ == a@ + b@,
{
    let mut s = a.to_owned();
    s.append(b);
    s
}

pub(crate) fn line3(a: &str, b: &str, c: &str) -> (r: String)
    ensures
        r@ == a@ + b@ + c@,
{
    let mut s = a.to_owned();
    s.append(b);
    s.append(c);
    s
}

pub(crate) fn line5(a: &str, b: &str, c: &str, d: &str, e: &str) -> (r: String)
    ensures
        r@ == a@ + b@ + c@ + d@ + e@,
{
    let mut s = a.to_owned();
    s.append(b);
    s.append(c);
    s.append(d);
    s.append(e);
    s
}

pub(crate) fn text_of(o: &Option<String>, d: &'static str) -> (r: String)
    ensures
        r@ == or(opt_text(*o), d@),
{
    match o {
        Some(s) => s.clone(),
        None => d.to_owned(),
    }
}

/// Counters and settings that a datapath readout shows beside the verdict's own.
#[derive(Clone, Copy, Debug)]
pub struct Counters {
    pub replay_mtu: Option<u64>,
    pub replay_tx_packets: Option<u64>,
    pub replay_tx_dropped: Option<u64>,
    pub sensor_rx_packets: Option<u64>,
    pub sensor_rx_dropped: Option<u64>,
}

/// What the daemon last reported. The packet rate is in print.
#[derive(Debug)]
pub struct Heartbeat {
    pub state: Option<String>,
    pub pps: Option<String>,
    pub last_error: Option<String>,
}

/// The replay port's lines.
pub open spec fn replay_lines(d: Datapath, c: Counters) -> Seq<Seq<char>> {
    let mtu: Seq<Seq<char>> = match c.replay_mtu {
        Some(m) => seq!["    mtu           : "@ + dec(m as nat)],
        None => Seq::empty(),
    };
    seq![
        "  -- replay port (tcpreplay TX, mirror source) --"@,
        "    iface         : "@ + d.replay@ + " ("@ + iface_word(d.replay_exists, d.replay_up)
            + ")"@,
        "    bridge master : "@ + or(opt_text(d.replay_master), "none"@),
    ] + mtu + seq![
        "    tx packets    : "@ + shown(c.replay_tx_packets) + "  (dropped "@ + shown(
            c.replay_tx_dropped,
        ) + ")"@,
    ]
}

/// The bridge's lines.
pub open spec fn bridge_lines(d: Datapath, members: Seq<String>) -> Seq<Seq<char>> {
    let breach: Seq<Seq<char>> = match d.bridge_physical_member {
        Some(m) => seq![
            "    BREACH        : physical member "@ + m@ + " on the isolated bridge"@,
        ],
        None => Seq::empty(),
    };
    seq![
        "  -- isolated bridge --"@,
        "    iface         : "@ + d.bridge@ + " ("@ + (if d.bridge_exists {
            "present"@
        } else {
            "MISSING"@
        }) + ")"@,
        "    members       : "@ + if members.len() == 0 {
            "none"@
        } else {
            joined(texts(members), ", "@)
        },
    ] + breach
}

/// The sensor port's lines, and the mirror's.
pub open spec fn sensor_lines(d: Datapath, c: Counters) -> Seq<Seq<char>> {
    seq![
        "  -- sensor port (mirror destination) --"@,
        "    iface         : "@ + d.sensor@ + " ("@ + iface_word(d.sensor_exists, d.sensor_up)
            + ")"@,
        "    promiscuous   : "@ + if d.sensor_promisc {
            "on"@
        } else {
            "OFF"@
        },
        "    rx packets    : "@ + shown(c.sensor_rx_packets) + "  (dropped "@ + shown(
            c.sensor_rx_dropped,
        ) + ")"@,
        "  -- mirror --"@,
        "    span present  : "@ + if d.mirror_present {
            "yes"@
        } else {
            "NO"@
        },
    ]
}

/// The live probe's lines.
pub open spec fn probe_lines(d: Datapath, probe_secs: u64) -> Seq<Seq<char>> {
    if probe_secs > 0 {
        seq![
            "  -- live probe ("@ + dec(probe_secs as nat) + "s) --"@,
            "    replay tx     : +"@ + shown(d.tx_delta) + " frame(s)"@,
            "    sensor rx     : +"@ + shown(d.rx_delta) + " frame(s)"@,
            "    flowing       : "@ + flow_word(d.tx_delta, d.rx_delta),
        ]
    } else {
        seq!["  -- live probe skipped (--probe-secs 0) --"@]
    }
}

/// The daemon's lines.
pub open spec fn heartbeat_lines(h: Option<Heartbeat>) -> Seq<Seq<char>> {
    match h {
        None => Seq::empty(),
        Some(h) => {
            let pps: Seq<Seq<char>> = match h.pps {
                Some(p) => seq!["    packets/sec   : "@ + p@],
                None => Seq::empty(),
            };
            let err: Seq<Seq<char>> = match h.last_error {
                Some(e) => seq!["    last_error    : "@ + e@],
                None => Seq::empty(),
            };
            seq![
                "  -- daemon heartbeat --"@,
                "    state         : "@ + or(opt_text(h.state), "?"@),
            ] + pps + err
        },
    }
}

/// A finding's lines.
pub open spec fn finding_lines(f: Finding) -> Seq<Seq<char>> {
    let head = seq!["    ["@ + health_tag(f.severity) + "] "@ + f.message@];
    match f.remedy {
        Some(r) => head + seq!["        -> "@ + r@],
        None => head,
    }
}

/// The lines of findings, in order.
pub open spec fn findings_lines(fs: Seq<Finding>) -> Seq<Seq<char>>
    decreases fs.len(),
{
    if fs.len() == 0 {
        Seq::empty()
    } else {
        findings_lines(fs.drop_last()) + finding_lines(fs.last())
    }
}

/// The datapath readout.
pub open spec fn net_show_of(
    d: Datapath,
    c: Counters,
    members: Seq<String>,
    health: Health,
    findings: Seq<Finding>,
    probe_secs: u64,
    heartbeat: Option<Heartbeat>,
) -> Seq<Seq<char>> {
    seq![
        "turbolaser net-show  ["@ + health_tag(health) + "]  ("@ + d.mirror_mode@ + " mirror)"@,
    ] + replay_lines(d, c) + bridge_lines(d, members) + sensor_lines(d, c) + probe_lines(
        d,
        probe_secs,
    ) + heartbeat_lines(heartbeat) + seq!["  -- findings --"@] + if findings.len() == 0 {
        seq!["    none: the datapath is healthy"@]
    } else {
        findings_lines(findings)
    }
}

fn push_replay(out: &mut Vec<String>, d: &Datapath, c: &Counters)
    ensures
        texts(final(out)@) == texts(old(out)@) + replay_lines(*d, *c),
{
    let ghost o = texts(out@);
    out.push("  -- replay port (tcpreplay TX, mirror source) --".to_owned());
    out.push(
        line5(
            "    iface         : ",
            d.replay.as_str(),
            " (",
            iface_state(d.replay_exists, d.replay_up),
            ")",
        ),
    );
    out.push(line2("    bridge master : ", text_of(&d.replay_master, "none").as_str()));
    if let Some(m) = c.replay_mtu {
        let mut s = "    mtu           : ".to_owned();
        push_dec(&mut s, m);
        out.push(s);
    }
    out.push(
        line5(
            "    tx packets    : ",
            opt(c.replay_tx_packets).as_str(),
            "  (dropped ",
            opt(c.replay_tx_dropped).as_str(),
            ")",
        ),
    );
    proof {
        assert(texts(out@) =~= o + replay_lines(*d, *c));
    }
}

fn push_bridge(out: &mut Vec<String>, d: &Datapath, members: &Vec<String>)
    ensures
        texts(final(out)@) == texts(old(out)@) + bridge_lines(*d, members@),
{
    let ghost o = texts(out@);
    out.push("  -- isolated bridge --".to_owned());
    out.push(
        line5(
            "    iface         : ",
            d.bridge.as_str(),
            " (",
            if d.bridge_exists {
                "present"
            } else {
                "MISSING"
            },
            ")",
        ),
    );
    if members.len() == 0 {
        out.push(line2("    members       : ", "none"));
    } else {
        out.push(line2("    members       : ", join(members, ", ").as_str()));
    }
    if let Some(m) = &d.bridge_physical_member {
        out.push(
            line3(
                "    BREACH        : physical member ",
                m.as_str(),
                " on the isolated bridge",
            ),
        );
    }
    proof {
        assert(texts(out@) =~= o + bridge_lines(*d, members@));
    }
}

fn push_sensor(out: &mut Vec<String>, d: &Datapath, c: &Counters)
    ensures
        texts(final(out)@) == texts(old(out)@) + sensor_lines(*d, *c),
{
    let ghost o = texts(out@);
    out.push("  -- sensor port (mirror destination) --".to_owned());
    out.push(
        line5(
            "    iface         : ",
            d.sensor.as_str(),
            " (",
            iface_state(d.sensor_exists, d.sensor_up),
            ")",
        ),
    );
    out.push(
        line2(
            "    promiscuous   : ",
            if d.sensor_promisc {
                "on"
            } else {
                "OFF"
            },
        ),
    );
    out.push(
        line5(
            "    rx packets    : ",
            opt(c.sensor_rx_packets).as_str(),
            "  (dropped ",
            opt(c.sensor_rx_dropped).as_str(),
            ")",
        ),
    );
    out.push("  -- mirror --".to_owned());
    out.push(
        line2(
            "    span present  : ",
            if d.mirror_present {
                "yes"
            } else {
                "NO"
            },
        ),
    );
    proof {
        assert(texts(out@) =~= o + sensor_lines(*d, *c));
    }
}

fn push_probe(out: &mut Vec<String>, d: &Datapath, probe_secs: u64)
    ensures
        texts(final(out)@) == texts(old(out)@) + probe_lines(*d, probe_secs),
{
    let ghost o = texts(out@);
    if probe_secs > 0 {
        let mut s = "  -- live probe (".to_owned();
        push_dec(&mut s, probe_secs);
        s.append("s) --");
        out.push(s);
        out.push(line3("    replay tx     : +", opt(d.tx_delta).as_str(), " frame(s)"));
        out.push(line3("    sensor rx     : +", opt(d.rx_delta).as_str(), " frame(s)"));
        out.push(line2("    flowing       : ", flow_verdict(d.tx_delta, d.rx_delta)));
    } else {
        out.push("  -- live probe skipped (--probe-secs 0) --".to_owned());
    }
    proof {
        assert(texts(out@) =~= o + probe_lines(*d, probe_secs));
    }
}

fn push_heartbeat(out: &mut Vec<String>, h: &Option<Heartbeat>)
    ensures
        texts(final(out)@) == texts(old(out)@) + heartbeat_lines(*h),
{
    let ghost o = texts(out@);
    if let Some(h) = h {
        out.push("  -- daemon heartbeat --".to_owned());
        out.push(line2("    state         : ", text_of(&h.state, "?").as_str()));
        if let Some(p) = &h.pps {
            out.push(line2("    packets/sec   : ", p.as_str()));
        }
        if let Some(e) = &h.last_error {
            out.push(line2("    last_error    : ", e.as_str()));
        }
    }
    proof {
        assert(texts(out@) =~= o + heartbeat_lines(*h));
    }
}

fn push_findings(out: &mut Vec<String>, fs: &Vec<Finding>)
    ensures
        texts(final(out)@) == texts(old(out)@) + findings_lines(fs@),
{
    let ghost o = texts(out@);
    let mut i: usize = 0;
    proof {
        assert(fs@.take(0) =~= Seq::empty());
        assert(o + Seq::<Seq<char>>::empty() =~= o);
    }
    while i < fs.len()
        invariant
            i <= fs@.len(),
            texts(out@) == o + findings_lines(fs@.take(i as int)),
        decreases fs@.len() - i,
    {
        let ghost before = texts(out@);
        let f: &Finding = &fs[i];
        let mut s = "    [".to_owned();
        s.append(health_word(f.severity));
        s.append("] ");
        s.append(f.message.as_str());
        out.push(s);
        if let Some(r) = &f.remedy {
            out.push(line2("        -> ", r.as_str()));
        }
        proof {
            assert(fs@.take(i as int + 1).drop_last() =~= fs@.take(i as int));
            assert(texts(out@) =~= before + finding_lines(*f));
            assert(texts(out@) =~= o + (findings_lines(fs@.take(i as int)) + finding_lines(*f)));
        }
        i += 1;
    }
    proof {
        assert(fs@.take(i as int) =~= fs@);
    }
}

/// The datapath readout: the ports, the bridge, the mirror, the live probe, the
/// daemon's heartbeat and the findings.
pub fn render_net_show(
    d: &Datapath,
    c: &Counters,
    members: &Vec<String>,
    health: Health,
    findings: &Vec<Finding>,
    probe_secs: u64,
    heartbeat: &Option<Heartbeat>,
) -> (r: Vec<String>)
    ensures
        texts(r@) == net_show_of(
            *d,
            *c,
            members@,
            health,
            findings@,
            probe_secs,
            *heartbeat,
        ),
{
    let mut out: Vec<String> = Vec::new();
    out.push(
        line5(
            "turbolaser net-show  [",
            health_word(health),
            "]  (",
            d.mirror_mode.as_str(),
            " mirror)",
        ),
    );
    proof {
        assert(texts(out@) =~= seq![
            "turbolaser net-show  ["@ + health_tag(health) + "]  ("@ + d.mirror_mode@
                + " mirror)"@,
        ]);
    }
    push_replay(&mut out, d, c);
    push_bridge(&mut out, d, members);
    push_sensor(&mut out, d, c);
    push_probe(&mut out, d, probe_secs);
    push_heartbeat(&mut out, heartbeat);
    let ghost before = texts(out@);
    out.push("  -- findings --".to_owned());
    proof {
        assert(texts(out@) =~= before + seq!["  -- findings --"@]);
    }
    let ghost upto = texts(out@);
    if findings.len() == 0 {
        out.push("    none: the datapath is healthy".to_owned());
        proof {
            assert(texts(out@) =~= upto + seq!["    none: the datapath is healthy"@]);
        }
    } else {
        push_findings(&mut out, findings);
    }
    out
}

} // verus!
