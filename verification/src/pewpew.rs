//! The status readout.

use vstd::prelude::*;
use crate::control::{drifted, opt, shown};
use crate::readout::{line2, line3, pad_right, push_padded_right, text_of};
use crate::scenario::engine::or;
use crate::text::{dec, join, joined, opt_is, opt_text, push_dec, texts};

verus! {

/// A zone, as the daemon reports it.
#[derive(Debug)]
pub struct ZoneStatus {
    pub cidr: Option<String>,
    pub name: Option<String>,
    pub devices: Option<u64>,
}

/// What the daemon reports. Rates and the gap are in print.
#[derive(Debug)]
pub struct StatusView {
    pub laser: Option<String>,
    pub iface: Option<String>,
    pub scenario: Option<String>,
    pub phase: Option<String>,
    pub technique_ids: Vec<String>,
    pub device_count: Option<u64>,
    pub capture_host_count: Option<u64>,
    pub total_wire_assets: Option<u64>,
    pub max_assets: Option<u64>,
    pub target_devices: Option<u64>,
    pub sealed: bool,
    pub zone_count: Option<u64>,
    pub subnet_cap: Option<u64>,
    pub cycle: Option<u64>,
    pub last_threat_unix: Option<u64>,
    pub zones: Vec<ZoneStatus>,
    pub run: Option<u64>,
    pub current_file: Option<String>,
    pub last_run_packets: Option<u64>,
    pub total_tx_packets: Option<u64>,
    pub pps: Option<String>,
    pub mbps: Option<String>,
    pub next_gap_secs: Option<String>,
    pub updated_unix: Option<u64>,
    pub started_unix: Option<u64>,
    pub last_error: Option<String>,
}

/// The count, or none as zero.
pub open spec fn number(o: Option<u64>) -> u64 {
    or(o, 0)
}

fn number_of(o: Option<u64>) -> (r: u64)
    ensures
        r == number(o),
{
    match o {
        Some(n) => n,
        None => 0,
    }
}

/// The lines of the active scenario.
pub open spec fn scenario_lines(v: StatusView) -> Seq<Seq<char>> {
    match v.scenario {
        None => Seq::empty(),
        Some(s) => {
            let ids: Seq<Seq<char>> = if v.technique_ids@.len() == 0 {
                Seq::empty()
            } else {
                seq!["    att&ck (ics)  : "@ + joined(texts(v.technique_ids@), " "@)]
            };
            seq![
                "  -- target scenario --"@,
                "    scenario      : "@ + s@,
                "    phase         : "@ + or(opt_text(v.phase), "?"@),
            ] + ids
        },
    }
}

/// The wire diverges from the plan: more assets than it has, or a sealed fleet of
/// another size.
pub open spec fn drift(v: StatusView) -> bool {
    ||| number(v.max_assets) > 0 && number(v.total_wire_assets) > number(v.max_assets)
    ||| v.sealed && number(v.target_devices) > 0 && number(v.device_count) != number(
        v.target_devices,
    )
}

/// The lines of the wire footprint against the plan, for the red-laser family.
pub open spec fn footprint_lines(v: StatusView) -> Seq<Seq<char>> {
    if opt_text(v.laser) != Some("red_laser"@) && v.scenario is None {
        Seq::empty()
    } else {
        let fleet: Seq<Seq<char>> = if number(v.target_devices) > 0 {
            seq![
                "    planned fleet : "@ + dec(number(v.target_devices) as nat)
                    + " fabricated  (sealed: "@ + (if v.sealed {
                    "true"@
                } else {
                    "false"@
                }) + ")"@,
            ]
        } else {
            Seq::empty()
        };
        let cycle: Seq<Seq<char>> = match v.cycle {
            Some(c) => if c > 0 {
                seq!["    cycle         : "@ + dec(c as nat)]
            } else {
                Seq::empty()
            },
            None => Seq::empty(),
        };
        let threat: Seq<Seq<char>> = match v.last_threat_unix {
            Some(t) => seq!["    last threat   : "@ + dec(t as nat)],
            None => Seq::empty(),
        };
        seq![
            "  -- wire footprint vs plan --"@,
            "    assets        : "@ + dec(number(v.total_wire_assets) as nat) + " / "@ + dec(
                number(v.max_assets) as nat,
            ) + "  ("@ + dec(number(v.device_count) as nat) + " fabricated, "@ + dec(
                number(v.capture_host_count) as nat,
            ) + " capture-derived)"@,
        ] + fleet + seq![
            "    zones         : "@ + dec(number(v.zone_count) as nat) + " / "@ + dec(
                number(v.subnet_cap) as nat,
            ),
            "    drift         : "@ + if drift(v) {
                "DRIFT (wire diverges from plan)"@
            } else {
                "none"@
            },
        ] + cycle + threat
    }
}

/// A zone's line.
pub open spec fn zone_line() -> spec_fn(ZoneStatus) -> Seq<char> {
    |z: ZoneStatus|
        "    "@ + pad_right(or(opt_text(z.cidr), "?"@), 18) + " "@ + or(opt_text(z.name), "?"@)
            + " ("@ + dec(number(z.devices) as nat) + " devices)"@
}

/// The zones' lines.
pub open spec fn zones_lines(v: StatusView) -> Seq<Seq<char>> {
    if v.zones@.len() == 0 {
        Seq::empty()
    } else {
        seq!["  -- zones --"@] + v.zones@.map_values(zone_line())
    }
}

/// The lines of the throughput.
pub open spec fn throughput_lines(v: StatusView) -> Seq<Seq<char>> {
    let file: Seq<Seq<char>> = match v.current_file {
        Some(f) => seq!["    current file  : "@ + f@],
        None => Seq::empty(),
    };
    let gap: Seq<Seq<char>> = match v.next_gap_secs {
        Some(g) => seq!["    next gap      : "@ + g@ + "s"@],
        None => Seq::empty(),
    };
    seq![
        "  -- throughput & runtime --"@,
        "    run           : "@ + dec(number(v.run) as nat),
    ] + file + seq![
        "    last packets  : "@ + shown(v.last_run_packets),
        "    tx packets    : "@ + shown(v.total_tx_packets),
        "    packets/sec   : "@ + or(opt_text(v.pps), "null"@),
        "    throughput    : "@ + match v.mbps {
            Some(m) => m@ + " Mbps"@,
            None => "null"@,
        },
    ] + gap
}

/// The lines of the runtime.
pub open spec fn runtime_lines(v: StatusView) -> Seq<Seq<char>> {
    let updated = number(v.updated_unix);
    let started = number(v.started_unix);
    let uptime: Seq<Seq<char>> = if started > 0 && updated >= started {
        seq!["    uptime        : "@ + dec((updated - started) as nat) + "s"@]
    } else {
        Seq::empty()
    };
    let err: Seq<Seq<char>> = match v.last_error {
        Some(e) => seq!["    last_error    : "@ + e@],
        None => Seq::empty(),
    };
    uptime + seq!["    updated_unix  : "@ + dec(updated as nat)] + err + seq![
        "  (datapath triage: turbolaser net-show)"@,
    ]
}

/// The status readout.
pub open spec fn pewpew_of(v: StatusView, state: Seq<char>) -> Seq<Seq<char>> {
    seq![
        "turbolaser pewpew  ["@ + state + "]  "@ + or(opt_text(v.laser), "?"@) + " on "@ + or(
            opt_text(v.iface),
            "?"@,
        ),
    ] + scenario_lines(v) + footprint_lines(v) + zones_lines(v) + throughput_lines(v)
        + runtime_lines(v)
}

fn labelled(label: &str, n: u64) -> (r: String)
    ensures
        r@ == label@ + dec(n as nat),
{
    let mut s = label.to_owned();
    push_dec(&mut s, n);
    s
}

fn push_scenario(out: &mut Vec<String>, v: &StatusView)
    ensures
        texts(final(out)@) == texts(old(out)@) + scenario_lines(*v),
{
    let ghost o = texts(out@);
    if let Some(s) = &v.scenario {
        out.push("  -- target scenario --".to_owned());
        out.push(line2("    scenario      : ", s.as_str()));
        out.push(line2("    phase         : ", text_of(&v.phase, "?").as_str()));
        if v.technique_ids.len() > 0 {
            out.push(line2("    att&ck (ics)  : ", join(&v.technique_ids, " ").as_str()));
        }
    }
    proof {
        assert(texts(out@) =~= o + scenario_lines(*v));
    }
}

fn push_footprint(out: &mut Vec<String>, v: &StatusView)
    ensures
        texts(final(out)@) == texts(old(out)@) + footprint_lines(*v),
{
    let ghost o = texts(out@);
    if opt_is(&v.laser, "red_laser") || v.scenario.is_some() {
        let devices: u64 = number_of(v.device_count);
        let total: u64 = number_of(v.total_wire_assets);
        let cap: u64 = number_of(v.max_assets);
        let target: u64 = number_of(v.target_devices);
        out.push("  -- wire footprint vs plan --".to_owned());
        let mut s = labelled("    assets        : ", total);
        s.append(" / ");
        push_dec(&mut s, cap);
        s.append("  (");
        push_dec(&mut s, devices);
        s.append(" fabricated, ");
        push_dec(&mut s, number_of(v.capture_host_count));
        s.append(" capture-derived)");
        out.push(s);
        if target > 0 {
            let mut t = labelled("    planned fleet : ", target);
            t.append(" fabricated  (sealed: ");
            if v.sealed {
                t.append("true");
            } else {
                t.append("false");
            }
            t.append(")");
            out.push(t);
        }
        let mut z = labelled("    zones         : ", number_of(v.zone_count));
        z.append(" / ");
        push_dec(&mut z, number_of(v.subnet_cap));
        out.push(z);
        out.push(
            line2(
                "    drift         : ",
                if drifted(total, cap, v.sealed, target, devices) {
                    "DRIFT (wire diverges from plan)"
                } else {
                    "none"
                },
            ),
        );
        if let Some(c) = v.cycle {
            if c > 0 {
                out.push(labelled("    cycle         : ", c));
            }
        }
        if let Some(t) = v.last_threat_unix {
            out.push(labelled("    last threat   : ", t));
        }
    }
    proof {
        assert(texts(out@) =~= o + footprint_lines(*v));
    }
}

fn push_zones(out: &mut Vec<String>, v: &StatusView)
    ensures
        texts(final(out)@) == texts(old(out)@) + zones_lines(*v),
{
    let ghost o = texts(out@);
    if v.zones.len() > 0 {
        out.push("  -- zones --".to_owned());
        let ghost all = v.zones@.map_values(zone_line());
        let mut i: usize = 0;
        proof {
            assert(texts(out@) =~= o + (seq!["  -- zones --"@] + all.take(0)));
        }
        while i < v.zones.len()
            invariant
                i <= v.zones@.len(),
                all == v.zones@.map_values(zone_line()),
                texts(out@) == o + (seq!["  -- zones --"@] + all.take(i as int)),
            decreases v.zones@.len() - i,
        {
            let ghost before = texts(out@);
            let z: &ZoneStatus = &v.zones[i];
            let mut s = "    ".to_owned();
            push_padded_right(&mut s, text_of(&z.cidr, "?").as_str(), 18);
            s.append(" ");
            s.append(text_of(&z.name, "?").as_str());
            s.append(" (");
            push_dec(&mut s, number_of(z.devices));
            s.append(" devices)");
            let ghost line = s@;
            out.push(s);
            proof {
                assert(line == all[i as int]);
                assert(texts(out@) =~= before.push(line));
                assert(before.push(line) =~= o + (seq!["  -- zones --"@] + all.take(
                    i as int + 1,
                )));
            }
            i += 1;
        }
        proof {
            assert(all.take(i as int) =~= all);
        }
    } else {
        proof {
            assert(texts(out@) =~= o + zones_lines(*v));
        }
    }
}

fn push_throughput(out: &mut Vec<String>, v: &StatusView)
    ensures
        texts(final(out)@) == texts(old(out)@) + throughput_lines(*v),
{
    let ghost o = texts(out@);
    out.push("  -- throughput & runtime --".to_owned());
    out.push(labelled("    run           : ", number_of(v.run)));
    if let Some(f) = &v.current_file {
        out.push(line2("    current file  : ", f.as_str()));
    }
    out.push(line2("    last packets  : ", opt(v.last_run_packets).as_str()));
    out.push(line2("    tx packets    : ", opt(v.total_tx_packets).as_str()));
    out.push(line2("    packets/sec   : ", text_of(&v.pps, "null").as_str()));
    match &v.mbps {
        Some(m) => {
            let t = line2(m.as_str(), " Mbps");
            out.push(line2("    throughput    : ", t.as_str()));
        },
        None => out.push(line2("    throughput    : ", "null")),
    }
    if let Some(g) = &v.next_gap_secs {
        out.push(line3("    next gap      : ", g.as_str(), "s"));
    }
    proof {
        assert(texts(out@) =~= o + throughput_lines(*v));
    }
}

fn push_runtime(out: &mut Vec<String>, v: &StatusView)
    ensures
        texts(final(out)@) == texts(old(out)@) + runtime_lines(*v),
{
    let ghost o = texts(out@);
    let updated: u64 = number_of(v.updated_unix);
    let started: u64 = number_of(v.started_unix);
    if started > 0 && updated >= started {
        let mut s = labelled("    uptime        : ", updated - started);
        s.append("s");
        out.push(s);
    }
    out.push(labelled("    updated_unix  : ", updated));
    if let Some(e) = &v.last_error {
        out.push(line2("    last_error    : ", e.as_str()));
    }
    out.push("  (datapath triage: turbolaser net-show)".to_owned());
    proof {
        assert(texts(out@) =~= o + runtime_lines(*v));
    }
}

/// The status readout: a header, the active scenario, the wire footprint against
/// the plan, the zones, and the throughput and runtime.
pub fn render_pewpew(v: &StatusView, state: &str) -> (r: Vec<String>)
    ensures
        texts(r@) == pewpew_of(*v, state@),
{
    let mut out: Vec<String> = Vec::new();
    let mut s = line3("turbolaser pewpew  [", state, "]  ");
    s.append(text_of(&v.laser, "?").as_str());
    s.append(" on ");
    s.append(text_of(&v.iface, "?").as_str());
    let ghost head = s@;
    out.push(s);
    proof {
        assert(texts(out@) =~= seq![head]);
    }
    push_scenario(&mut out, v);
    push_footprint(&mut out, v);
    push_zones(&mut out, v);
    push_throughput(&mut out, v);
    push_runtime(&mut out, v);
    out
}

} // verus!
