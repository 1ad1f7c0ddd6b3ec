//! The pre-flight report: what each event of a playbook will put on the wire.

use vstd::prelude::*;
use crate::config::{Campaign, IocFidelity};
use crate::ledger::{DeviceRecord, Session};
use crate::scenario::action::{Action, ActionModel};
use crate::scenario::burst::{frame_views, renders};
use crate::scenario::engine::{or, resolve, resolved, ScenarioEngine};
use crate::scenario::playbook::{emit_tag, ref_shown, EmitKind, Event, Phase};
use crate::text::{dec, join, joined, opt_text, push_dec, texts};
use crate::vuln::VulnDb;

verus! {

/// The name of a campaign, as it is reported.
pub open spec fn campaign_tag(c: Campaign) -> Seq<char> {
    match c {
        Campaign::Oneshot => "Oneshot"@,
        Campaign::Loop => "Loop"@,
    }
}

/// The name of a fidelity, as it is reported.
pub open spec fn fidelity_tag(f: IocFidelity) -> Seq<char> {
    match f {
        IocFidelity::Real => "Real"@,
        IocFidelity::Standin => "Standin"@,
    }
}

/// A sum that stops at the largest count.
pub open spec fn sum_of(a: int, b: int) -> int {
    if a + b > usize::MAX {
        usize::MAX as int
    } else {
        a + b
    }
}

/// What an event's line says of its target.
pub open spec fn target_shown(ds: Seq<DeviceRecord>, ev: Event) -> Seq<char> {
    match ev.target {
        Some(t) => match resolved(ds, ev.target) {
            Some(i) => ds[i].ip@ + " "@ + ds[i].model@ + " ("@ + or(opt_text(ds[i].asset_type), "-"@)
                + ")"@,
            None => "UNRESOLVED "@ + ref_shown(t),
        },
        None => if ev.emit == EmitKind::C2Beacon {
            if ds.len() > 0 {
                "c2 beacon via first device "@ + ds[0].ip@
            } else {
                "c2 beacon (no plant device)"@
            }
        } else {
            "no target"@
        },
    }
}

fn show_target(ledger: &Session, ev: &Event) -> (r: String)
    ensures
        r@ == target_shown(ledger.devices@, *ev),
{
    match &ev.target {
        Some(t) => match resolve(ledger, &ev.target) {
            Some(d) => {
                let mut s = d.ip.clone();
                s.append(" ");
                s.append(d.model.as_str());
                s.append(" (");
                match &d.asset_type {
                    Some(a) => s.append(a.as_str()),
                    None => s.append("-"),
                }
                s.append(")");
                s
            },
            None => {
                let mut s = "UNRESOLVED ".to_owned();
                s.append(t.shown().as_str());
                s
            },
        },
        None => if ev.emit == EmitKind::C2Beacon {
            if ledger.devices.len() > 0 {
                let mut s = "c2 beacon via first device ".to_owned();
                s.append(ledger.devices[0].ip.as_str());
                s
            } else {
                "c2 beacon (no plant device)".to_owned()
            }
        } else {
            "no target".to_owned()
        },
    }
}

/// An event's line.
pub open spec fn event_line(ds: Seq<DeviceRecord>, ev: Event, frames: int) -> Seq<char> {
    "    - "@ + emit_tag(ev.emit) + " -> "@ + target_shown(ds, ev) + "  ["@ + dec(frames as nat)
        + " frame(s)]\n"@
}

/// A phase's head line.
pub open spec fn phase_line(ph: Phase) -> Seq<char> {
    let tech = if ph.techniques@.len() == 0 {
        ""@
    } else {
        " ["@ + joined(texts(ph.techniques@), ","@) + "]"@
    };
    "  phase "@ + ph.id@ + " ("@ + or(opt_text(ph.name), ph.id@) + ")"@ + tech + ", dwell "@ + dec(
        ph.dwell_runs as nat,
    ) + "\n"@
}

/// A list's line, where it has entries.
pub open spec fn list_line(label: Seq<char>, v: Seq<String>) -> Seq<char> {
    if v.len() == 0 {
        ""@
    } else {
        "  "@ + label + ": "@ + joined(texts(v), ", "@) + "\n"@
    }
}

fn push_event(s: &mut String, ledger: &Session, ev: &Event, frames: usize)
    ensures
        final(s)@ == old(s)@ + event_line(ledger.devices@, *ev, frames as int),
{
    let mut t = "    - ".to_owned();
    t.append(ev.emit.tag());
    t.append(" -> ");
    t.append(show_target(ledger, ev).as_str());
    t.append("  [");
    push_dec(&mut t, frames as u64);
    t.append(" frame(s)]\n");
    s.append(t.as_str());
}

fn push_phase(s: &mut String, ph: &Phase)
    ensures
        final(s)@ == old(s)@ + phase_line(*ph),
{
    let mut t = "  phase ".to_owned();
    t.append(ph.id.as_str());
    t.append(" (");
    match &ph.name {
        Some(n) => t.append(n.as_str()),
        None => t.append(ph.id.as_str()),
    }
    t.append(")");
    if ph.techniques.len() == 0 {
        t.append("");
    } else {
        let mut tech = " [".to_owned();
        tech.append(join(&ph.techniques, ",").as_str());
        tech.append("]");
        t.append(tech.as_str());
    }
    t.append(", dwell ");
    push_dec(&mut t, ph.dwell_runs);
    t.append("\n");
    s.append(t.as_str());
}

fn push_list(s: &mut String, label: &str, v: &Vec<String>)
    ensures
        final(s)@ == old(s)@ + list_line(label@, v@),
{
    if v.len() == 0 {
        s.append("");
    } else {
        let mut t = "  ".to_owned();
        t.append(label);
        t.append(": ");
        t.append(join(v, ", ").as_str());
        t.append("\n");
        s.append(t.as_str());
    }
}

impl ScenarioEngine {
    /// The frames of a phase's first `k` events, each rendered with its place.
    pub open spec fn phase_count(
        self,
        ds: Seq<DeviceRecord>,
        vuln: VulnDb,
        g: spec_fn(ActionModel) -> Seq<Seq<u8>>,
        ph: Phase,
        k: int,
    ) -> int
        decreases k,
    {
        if k <= 0 {
            0
        } else {
            sum_of(
                self.phase_count(ds, vuln, g, ph, k - 1),
                self.event_frames(ph.events@[k - 1], ds, vuln, (k - 1) as u64, g).len() as int,
            )
        }
    }

    /// The lines of a phase's first `k` events.
    pub open spec fn event_lines(
        self,
        ds: Seq<DeviceRecord>,
        vuln: VulnDb,
        g: spec_fn(ActionModel) -> Seq<Seq<u8>>,
        ph: Phase,
        k: int,
    ) -> Seq<char>
        decreases k,
    {
        if k <= 0 {
            Seq::empty()
        } else {
            let ev = ph.events@[k - 1];
            self.event_lines(ds, vuln, g, ph, k - 1) + event_line(
                ds,
                ev,
                self.event_frames(ev, ds, vuln, (k - 1) as u64, g).len() as int,
            )
        }
    }

    /// The frames of the first `k` phases.
    pub open spec fn total_count(
        self,
        ds: Seq<DeviceRecord>,
        vuln: VulnDb,
        g: spec_fn(ActionModel) -> Seq<Seq<u8>>,
        k: int,
    ) -> int
        decreases k,
    {
        if k <= 0 {
            0
        } else {
            let ph = self.playbook.phases@[k - 1];
            sum_of(
                self.total_count(ds, vuln, g, k - 1),
                self.phase_count(ds, vuln, g, ph, ph.events@.len() as int),
            )
        }
    }

    /// A phase's part of the report.
    pub open spec fn phase_lines(
        self,
        ds: Seq<DeviceRecord>,
        vuln: VulnDb,
        g: spec_fn(ActionModel) -> Seq<Seq<u8>>,
        ph: Phase,
    ) -> Seq<char> {
        let n = ph.events@.len() as int;
        phase_line(ph) + self.event_lines(ds, vuln, g, ph, n) + "    phase frames: "@ + dec(
            self.phase_count(ds, vuln, g, ph, n) as nat,
        ) + "\n"@
    }

    /// The parts of the first `k` phases.
    pub open spec fn all_lines(
        self,
        ds: Seq<DeviceRecord>,
        vuln: VulnDb,
        g: spec_fn(ActionModel) -> Seq<Seq<u8>>,
        k: int,
    ) -> Seq<char>
        decreases k,
    {
        if k <= 0 {
            Seq::empty()
        } else {
            self.all_lines(ds, vuln, g, k - 1) + self.phase_lines(
                ds,
                vuln,
                g,
                self.playbook.phases@[k - 1],
            )
        }
    }

    /// The report's head line.
    pub open spec fn head_line(self) -> Seq<char> {
        "scenario "@ + self.name@ + ": "@ + dec(self.playbook.phases@.len() as nat)
            + " phase(s), campaign "@ + campaign_tag(self.campaign) + ", max "@ + dec(
            self.max_frames_per_burst as nat,
        ) + " frame(s)/burst\n"@
    }

    /// The report's last lines.
    pub open spec fn tail_lines(self, total: int) -> Seq<char> {
        "  total attack frames per full pass: "@ + dec(total as nat) + "\n  ioc fidelity: "@
            + fidelity_tag(self.fidelity) + "\n"@ + list_line("c2 domains"@, self.c2_domains@)
            + list_line("c2 ips"@, self.c2_ips@) + list_line(
            "external cidrs"@,
            self.external_cidrs@,
        )
    }

    /// The whole report.
    pub open spec fn report(
        self,
        ds: Seq<DeviceRecord>,
        vuln: VulnDb,
        g: spec_fn(ActionModel) -> Seq<Seq<u8>>,
    ) -> Seq<char> {
        let n = self.playbook.phases@.len() as int;
        self.head_line() + self.all_lines(ds, vuln, g, n) + self.tail_lines(
            self.total_count(ds, vuln, g, n),
        )
    }

    fn push_head(&self, s: &mut String)
        ensures
            final(s)@ == old(s)@ + self.head_line(),
    {
        let mut t = "scenario ".to_owned();
        t.append(self.name.as_str());
        t.append(": ");
        push_dec(&mut t, self.playbook.phases.len() as u64);
        t.append(" phase(s), campaign ");
        t.append(
            match self.campaign {
                Campaign::Oneshot => "Oneshot",
                Campaign::Loop => "Loop",
            },
        );
        t.append(", max ");
        push_dec(&mut t, self.max_frames_per_burst as u64);
        t.append(" frame(s)/burst\n");
        s.append(t.as_str());
    }

    fn push_tail(&self, s: &mut String, total: usize)
        ensures
            final(s)@ == old(s)@ + self.tail_lines(total as int),
    {
        let mut t = "  total attack frames per full pass: ".to_owned();
        push_dec(&mut t, total as u64);
        t.append("\n  ioc fidelity: ");
        t.append(
            match self.fidelity {
                IocFidelity::Real => "Real",
                IocFidelity::Standin => "Standin",
            },
        );
        t.append("\n");
        push_list(&mut t, "c2 domains", &self.c2_domains);
        push_list(&mut t, "c2 ips", &self.c2_ips);
        push_list(&mut t, "external cidrs", &self.external_cidrs);
        s.append(t.as_str());
    }

    /// Report one phase, and count its frames.
    fn report_phase<F: Fn(&Action) -> Vec<Vec<u8>>>(
        &self,
        s: &mut String,
        ph: &Phase,
        ledger: &Session,
        vuln: &VulnDb,
        render: &F,
    ) -> (count: usize)
        requires
            forall|a: Action| #[trigger] render.requires((&a,)),
        ensures
            forall|g: spec_fn(ActionModel) -> Seq<Seq<u8>>| #[trigger]
                renders(*render, g) ==> {
                    &&& count == self.phase_count(
                        ledger.devices@,
                        *vuln,
                        g,
                        *ph,
                        ph.events@.len() as int,
                    )
                    &&& final(s)@ == old(s)@ + self.phase_lines(ledger.devices@, *vuln, g, *ph)
                },
    {
        let ghost ds = ledger.devices@;
        let mut t = String::new();
        push_phase(&mut t, ph);
        let mut events = String::new();
        let mut count: usize = 0;
        let mut i: usize = 0;
        proof {
            assert(events@ =~= Seq::empty());
            assert(t@ =~= phase_line(*ph));
        }
        while i < ph.events.len()
            invariant
                i <= ph.events@.len(),
                ds == ledger.devices@,
                forall|a: Action| #[trigger] render.requires((&a,)),
                forall|g: spec_fn(ActionModel) -> Seq<Seq<u8>>| #[trigger]
                    renders(*render, g) ==> {
                        &&& count == self.phase_count(ds, *vuln, g, *ph, i as int)
                        &&& events@ == self.event_lines(ds, *vuln, g, *ph, i as int)
                    },
            decreases ph.events@.len() - i,
        {
            let ev: &Event = &ph.events[i];
            let rendered = self.render_event(ev, ledger, vuln, i as u64, render);
            let frames: usize = rendered.len();
            let ghost earlier = count;
            count = if frames > usize::MAX - count {
                usize::MAX
            } else {
                count + frames
            };
            push_event(&mut events, ledger, ev, frames);
            proof {
                assert forall|g: spec_fn(ActionModel) -> Seq<Seq<u8>>| #[trigger]
                    renders(*render, g) implies {
                    &&& count == self.phase_count(ds, *vuln, g, *ph, i + 1)
                    &&& events@ == self.event_lines(ds, *vuln, g, *ph, i + 1)
                } by {
                    let f = self.event_frames(*ev, ds, *vuln, i as u64, g);
                    assert(frame_views(rendered@) == f);
                    assert(frame_views(rendered@).len() == frames);
                }
            }
            i += 1;
        }
        t.append(events.as_str());
        t.append("    phase frames: ");
        push_dec(&mut t, count as u64);
        t.append("\n");
        s.append(t.as_str());
        count
    }

    /// A human pre-flight report: for each phase, every event's target and how many
    /// frames it renders, and the actor's network identity. The timeline is left
    /// where it stands.
    pub fn fidelity_report<F: Fn(&Action) -> Vec<Vec<u8>>>(
        &self,
        ledger: &Session,
        vuln: &VulnDb,
        render: &F,
    ) -> (r: String)
        requires
            forall|a: Action| #[trigger] render.requires((&a,)),
        ensures
            forall|g: spec_fn(ActionModel) -> Seq<Seq<u8>>| #[trigger]
                renders(*render, g) ==> r@ == self.report(ledger.devices@, *vuln, g),
    {
        let ghost ds = ledger.devices@;
        let mut out = String::new();
        self.push_head(&mut out);
        let mut body = String::new();
        let mut total: usize = 0;
        let mut k: usize = 0;
        proof {
            assert(body@ =~= Seq::empty());
            assert(out@ =~= self.head_line());
        }
        while k < self.playbook.phases.len()
            invariant
                k <= self.playbook.phases@.len(),
                ds == ledger.devices@,
                forall|a: Action| #[trigger] render.requires((&a,)),
                forall|g: spec_fn(ActionModel) -> Seq<Seq<u8>>| #[trigger]
                    renders(*render, g) ==> {
                        &&& total == self.total_count(ds, *vuln, g, k as int)
                        &&& body@ == self.all_lines(ds, *vuln, g, k as int)
                    },
            decreases self.playbook.phases@.len() - k,
        {
            let count: usize = self.report_phase(
                &mut body,
                &self.playbook.phases[k],
                ledger,
                vuln,
                render,
            );
            total = if count > usize::MAX - total {
                usize::MAX
            } else {
                total + count
            };
            k += 1;
        }
        out.append(body.as_str());
        self.push_tail(&mut out, total);
        out
    }
}

} // verus!
