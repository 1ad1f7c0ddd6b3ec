//! The daemon loop, as decisions.
//!
//! Each stage waits for one event, and the event decides what is done next. The
//! daemon performs what is decided and reports the event; it never decides.

use vstd::prelude::*;
use crate::config::{Config, Mode};

verus! {

/// What the loop goes by.
#[derive(Clone, Copy, Debug, PartialEq, Eq, Structural)]
pub struct LoopCfg {
    pub red: bool,
    pub remap: bool,
    pub guard: bool,
    pub once: bool,
}

/// What the loop waits for.
#[derive(Clone, Copy, Debug, PartialEq, Eq, Structural)]
pub enum Stage {
    /// Whether a shutdown was asked for.
    Top,
    /// Whether a capture could be picked.
    Picking,
    /// Whether the capture was remapped.
    Remapping,
    /// Whether a host of the capture was promoted.
    Promoting,
    /// Whether the capture carries a public source.
    Inspecting,
    /// How the replay ended.
    Sending,
    /// That the identity burst is out.
    Announcing,
    /// Nothing: the loop has ended.
    Stopped,
}

/// What came of the last action.
#[derive(Clone, Copy, Debug, PartialEq, Eq, Structural)]
pub enum Event {
    Shutdown(bool),
    Picked(bool),
    Remapped(bool),
    Promoted(bool),
    PublicSource(bool),
    /// The replay succeeded, with the packets it counted, or it failed.
    Sent { ok: bool, packets: Option<u64> },
    Announced,
}

/// What is done next.
#[derive(Clone, Copy, Debug, PartialEq, Eq, Structural)]
pub enum Act {
    /// See whether a shutdown was asked for.
    Look,
    Pick,
    Remap,
    Promote,
    Inspect,
    Send,
    Announce,
    /// Sleep until captures are looked for again.
    Idle,
    /// Skip the capture, and sleep a gap.
    SkipRemap,
    SkipPublic,
    /// Sleep a gap.
    Rest,
    Stop,
}

/// Where the loop stands.
#[derive(Clone, Copy, Debug, PartialEq, Eq, Structural)]
pub struct LoopState {
    pub stage: Stage,
    pub run: u64,
    /// The last packet count that a run reported.
    pub last_packets: Option<u64>,
    /// What is sent this run has its addresses in the plan.
    pub remapped: bool,
    /// What is sent this run is the promoted capture.
    pub promoted: bool,
    /// What is sent this run was inspected, and carries no public source.
    pub inspected: bool,
}

/// The state at the top of a run.
pub open spec fn top(s: LoopState, run: u64) -> LoopState {
    LoopState {
        stage: Stage::Top,
        run,
        last_packets: s.last_packets,
        remapped: false,
        promoted: false,
        inspected: false,
    }
}

/// What follows a replay, and an identity burst: the loop ends where it was to run
/// once, else it rests.
pub open spec fn after_send(cfg: LoopCfg, s: LoopState) -> (LoopState, Act) {
    if cfg.once {
        (LoopState { stage: Stage::Stopped, ..s }, Act::Stop)
    } else {
        (top(s, (s.run + 1) as u64), Act::Rest)
    }
}

/// What an event decides.
pub open spec fn decided(cfg: LoopCfg, s: LoopState, e: Event) -> (LoopState, Act) {
    match (s.stage, e) {
        (Stage::Top, Event::Shutdown(true)) => (
            LoopState { stage: Stage::Stopped, ..s },
            Act::Stop,
        ),
        (Stage::Top, Event::Shutdown(false)) => (
            LoopState { stage: Stage::Picking, ..s },
            Act::Pick,
        ),
        (Stage::Picking, Event::Picked(false)) => (top(s, s.run), Act::Idle),
        (Stage::Picking, Event::Picked(true)) => if cfg.red && cfg.remap {
            (LoopState { stage: Stage::Remapping, ..s }, Act::Remap)
        } else if cfg.red {
            (LoopState { stage: Stage::Promoting, ..s }, Act::Promote)
        } else {
            (LoopState { stage: Stage::Sending, ..s }, Act::Send)
        },
        (Stage::Remapping, Event::Remapped(true)) => (
            LoopState { stage: Stage::Promoting, remapped: true, ..s },
            Act::Promote,
        ),
        (Stage::Remapping, Event::Remapped(false)) => (
            top(s, (s.run + 1) as u64),
            Act::SkipRemap,
        ),
        (Stage::Promoting, Event::Promoted(p)) => {
            let s = LoopState { promoted: p, ..s };
            if cfg.guard && !s.remapped && !p {
                (LoopState { stage: Stage::Inspecting, ..s }, Act::Inspect)
            } else {
                (LoopState { stage: Stage::Sending, ..s }, Act::Send)
            }
        },
        (Stage::Inspecting, Event::PublicSource(true)) => (
            top(s, (s.run + 1) as u64),
            Act::SkipPublic,
        ),
        (Stage::Inspecting, Event::PublicSource(false)) => (
            LoopState { stage: Stage::Sending, inspected: true, ..s },
            Act::Send,
        ),
        (Stage::Sending, Event::Sent { ok, packets }) => {
            let s = LoopState {
                last_packets: if ok && packets is Some {
                    packets
                } else {
                    s.last_packets
                },
                ..s
            };
            if cfg.red {
                (LoopState { stage: Stage::Announcing, ..s }, Act::Announce)
            } else {
                after_send(cfg, s)
            }
        },
        (Stage::Announcing, Event::Announced) => after_send(cfg, s),
        (Stage::Stopped, _) => (s, Act::Stop),
        _ => (s, Act::Look),
    }
}

impl LoopCfg {
    /// What a configuration and a one-shot flag ask of the loop.
    pub fn of(cfg: &Config, once: bool) -> (r: LoopCfg)
        ensures
            r == (LoopCfg {
                red: cfg.mode == Mode::RedLaser,
                remap: cfg.l3.remap,
                guard: cfg.l3.guard_public_sources,
                once,
            }),
    {
        LoopCfg {
            red: cfg.mode == Mode::RedLaser,
            remap: cfg.l3.remap,
            guard: cfg.l3.guard_public_sources,
            once,
        }
    }
}

impl LoopState {
    /// The state before the first run.
    pub fn start() -> (r: LoopState)
        ensures
            r.stage == Stage::Top,
            r.run == 0,
            r.last_packets is None,
            !r.remapped && !r.promoted && !r.inspected,
    {
        LoopState {
            stage: Stage::Top,
            run: 0,
            last_packets: None,
            remapped: false,
            promoted: false,
            inspected: false,
        }
    }

    fn fresh(self, run: u64) -> (r: LoopState)
        ensures
            r == top(self, run),
    {
        LoopState {
            stage: Stage::Top,
            run,
            last_packets: self.last_packets,
            remapped: false,
            promoted: false,
            inspected: false,
        }
    }

    fn after_send(self, cfg: &LoopCfg) -> (r: (LoopState, Act))
        requires
            self.run < u64::MAX,
        ensures
            r == after_send(*cfg, self),
    {
        if cfg.once {
            (LoopState { stage: Stage::Stopped, ..self }, Act::Stop)
        } else {
            (self.fresh(self.run + 1), Act::Rest)
        }
    }

    /// Decide what is done next, from where the loop stands and what came of the
    /// last action. An event that the stage does not wait for changes nothing.
    pub fn decide(self, cfg: &LoopCfg, e: Event) -> (r: (LoopState, Act))
        requires
            self.run < u64::MAX,
        ensures
            r == decided(*cfg, self, e),
    {
        match (self.stage, e) {
            (Stage::Top, Event::Shutdown(true)) => (
                LoopState { stage: Stage::Stopped, ..self },
                Act::Stop,
            ),
            (Stage::Top, Event::Shutdown(false)) => (
                LoopState { stage: Stage::Picking, ..self },
                Act::Pick,
            ),
            (Stage::Picking, Event::Picked(false)) => (self.fresh(self.run), Act::Idle),
            (Stage::Picking, Event::Picked(true)) => {
                if cfg.red && cfg.remap {
                    (LoopState { stage: Stage::Remapping, ..self }, Act::Remap)
                } else if cfg.red {
                    (LoopState { stage: Stage::Promoting, ..self }, Act::Promote)
                } else {
                    (LoopState { stage: Stage::Sending, ..self }, Act::Send)
                }
            },
            (Stage::Remapping, Event::Remapped(true)) => (
                LoopState { stage: Stage::Promoting, remapped: true, ..self },
                Act::Promote,
            ),
            (Stage::Remapping, Event::Remapped(false)) => (
                self.fresh(self.run + 1),
                Act::SkipRemap,
            ),
            (Stage::Promoting, Event::Promoted(p)) => {
                if cfg.guard && !self.remapped && !p {
                    (
                        LoopState { stage: Stage::Inspecting, promoted: p, ..self },
                        Act::Inspect,
                    )
                } else {
                    (LoopState { stage: Stage::Sending, promoted: p, ..self }, Act::Send)
                }
            },
            (Stage::Inspecting, Event::PublicSource(true)) => (
                self.fresh(self.run + 1),
                Act::SkipPublic,
            ),
            (Stage::Inspecting, Event::PublicSource(false)) => (
                LoopState { stage: Stage::Sending, inspected: true, ..self },
                Act::Send,
            ),
            (Stage::Sending, Event::Sent { ok, packets }) => {
                let s = LoopState {
                    last_packets: if ok && packets.is_some() {
                        packets
                    } else {
                        self.last_packets
                    },
                    ..self
                };
                if cfg.red {
                    (LoopState { stage: Stage::Announcing, ..s }, Act::Announce)
                } else {
                    s.after_send(cfg)
                }
            },
            (Stage::Announcing, Event::Announced) => self.after_send(cfg),
            (Stage::Stopped, _) => (self, Act::Stop),
            _ => (self, Act::Look),
        }
    }
}

/// The word that the heartbeat gives an action; none where it writes nothing.
pub open spec fn act_word(a: Act) -> Option<Seq<char>> {
    match a {
        Act::Send => Some("replaying"@),
        Act::Idle => Some("idle_no_pcaps"@),
        Act::SkipRemap => Some("skipped_remap_failed"@),
        Act::SkipPublic => Some("skipped_public_source"@),
        Act::Rest => Some("gap"@),
        Act::Stop => Some("stopping"@),
        _ => None,
    }
}

impl Act {
    /// The state that the heartbeat reports for the action, if any.
    pub fn state(self) -> (r: Option<&'static str>)
        ensures
            crate::text::opt_str(r) == act_word(self),
    {
        match self {
            Act::Send => Some("replaying"),
            Act::Idle => Some("idle_no_pcaps"),
            Act::SkipRemap => Some("skipped_remap_failed"),
            Act::SkipPublic => Some("skipped_public_source"),
            Act::Rest => Some("gap"),
            Act::Stop => Some("stopping"),
            _ => None,
        }
    }
}

/// What a run has cleared so far is what its stage needs: before a capture is sent
/// in red laser, it was remapped where the remap is on; else, with the guard on, it
/// is the promoted one or was inspected.
pub open spec fn cleared(cfg: LoopCfg, s: LoopState) -> bool {
    match s.stage {
        Stage::Remapping => cfg.red,
        Stage::Promoting => cfg.red && (cfg.remap ==> s.remapped),
        Stage::Inspecting => cfg.red && !s.remapped && !s.promoted && (cfg.remap ==> s.remapped),
        Stage::Sending => cfg.red ==> {
            &&& cfg.remap ==> s.remapped
            &&& cfg.guard ==> s.remapped || s.promoted || s.inspected
        },
        _ => true,
    }
}

/// Fail closed: from a sound state every decision leads to a sound state, and a
/// capture is sent only where it is cleared. In red laser that is where it was
/// remapped or, with the remap off and the guard on, promoted or inspected.
pub proof fn law_only_cleared_captures_are_sent(cfg: LoopCfg, s: LoopState, e: Event)
    requires
        cleared(cfg, s),
    ensures
        cleared(cfg, decided(cfg, s, e).0),
        decided(cfg, s, e).1 == Act::Send && s.stage != Stage::Sending ==> decided(
            cfg,
            s,
            e,
        ).0.stage == Stage::Sending,
        decided(cfg, s, e).1 == Act::Send && cfg.red && cfg.remap ==> decided(cfg, s, e).0.remapped,
        decided(cfg, s, e).1 == Act::Send && cfg.red && cfg.guard ==> {
            let n = decided(cfg, s, e).0;
            n.remapped || n.promoted || n.inspected
        },
{
}

/// The loop ends only where a shutdown was asked for, or after a run where it was
/// to run once: nothing else stops it, no failure and no missing capture.
pub proof fn law_only_shutdown_or_once_stops(cfg: LoopCfg, s: LoopState, e: Event)
    requires
        s.stage != Stage::Stopped,
        decided(cfg, s, e).1 == Act::Stop,
    ensures
        e == Event::Shutdown(true) || cfg.once,
{
}

/// Runs are counted one at a time: a run that was sent or skipped is counted, and
/// an idle look for captures is not.
pub proof fn law_runs_are_counted(cfg: LoopCfg, s: LoopState, e: Event)
    requires
        s.run < u64::MAX,
    ensures
        ({
            let (n, a) = decided(cfg, s, e);
            n.run == if a == Act::Rest || a == Act::SkipRemap || a == Act::SkipPublic {
                s.run + 1
            } else {
                s.run as int
            }
        }),
{
}

/// A packet count, once reported, is held until a later run reports another.
pub proof fn law_packet_count_is_held(cfg: LoopCfg, s: LoopState, e: Event)
    requires
        s.last_packets is Some,
    ensures
        decided(cfg, s, e).0.last_packets is Some,
        decided(cfg, s, e).0.last_packets == s.last_packets || (e matches Event::Sent {
            ok,
            packets,
        } && ok && decided(cfg, s, e).0.last_packets == packets),
{
}

/// A state of a loop that sends captures as they are.
pub open spec fn as_is(s: LoopState) -> bool {
    &&& s.stage == Stage::Top || s.stage == Stage::Picking || s.stage == Stage::Sending || s.stage
        == Stage::Stopped
    &&& !s.remapped && !s.promoted
}

/// Green laser replays captures as they are: it never remaps or promotes a host,
/// announces nothing, and skips no capture.
pub proof fn law_green_laser_replays_as_is(cfg: LoopCfg, s: LoopState, e: Event)
    requires
        !cfg.red,
        as_is(s),
    ensures
        as_is(decided(cfg, s, e).0),
        ({
            let a = decided(cfg, s, e).1;
            a == Act::Look || a == Act::Pick || a == Act::Send || a == Act::Idle || a == Act::Rest
                || a == Act::Stop
        }),
{
}

/// Nothing is skipped without a cause: the loop idles only where no capture was
/// found, and skips one only where its remap failed or where it was found to carry
/// a public source.
pub proof fn law_skips_have_a_cause(cfg: LoopCfg, s: LoopState, e: Event)
    ensures
        decided(cfg, s, e).1 == Act::Idle ==> e == Event::Picked(false),
        decided(cfg, s, e).1 == Act::SkipRemap ==> e == Event::Remapped(false),
        decided(cfg, s, e).1 == Act::SkipPublic ==> e == Event::PublicSource(true),
        decided(cfg, s, e).1 == Act::Inspect ==> cfg.guard && !s.remapped && e == Event::Promoted(
            false,
        ),
{
}

/// A run of red laser with the remap on looks for a shutdown, picks a capture,
/// remaps it, promotes a host, sends what came of it and announces the plant, in
/// this order; behind that it rests, or stops where it was to run once.
pub proof fn law_a_red_run_goes_through(
    cfg: LoopCfg,
    s: LoopState,
    promoted: bool,
    ok: bool,
    packets: Option<u64>,
)
    requires
        cfg.red && cfg.remap,
        s.stage == Stage::Top,
        s.run < u64::MAX,
    ensures
        ({
            let (s1, a1) = decided(cfg, s, Event::Shutdown(false));
            let (s2, a2) = decided(cfg, s1, Event::Picked(true));
            let (s3, a3) = decided(cfg, s2, Event::Remapped(true));
            let (s4, a4) = decided(cfg, s3, Event::Promoted(promoted));
            let (s5, a5) = decided(cfg, s4, Event::Sent { ok, packets });
            let (s6, a6) = decided(cfg, s5, Event::Announced);
            &&& a1 == Act::Pick
            &&& a2 == Act::Remap
            &&& a3 == Act::Promote
            &&& a4 == Act::Send
            &&& a5 == Act::Announce
            &&& cfg.once ==> a6 == Act::Stop
            &&& !cfg.once ==> a6 == Act::Rest && s6.stage == Stage::Top && s6.run == s.run + 1
        }),
{
}

/// A run of green laser looks for a shutdown, picks a capture and sends it; behind
/// that it rests, or stops where it was to run once.
pub proof fn law_a_green_run_goes_through(
    cfg: LoopCfg,
    s: LoopState,
    ok: bool,
    packets: Option<u64>,
)
    requires
        !cfg.red,
        s.stage == Stage::Top,
        s.run < u64::MAX,
    ensures
        ({
            let (s1, a1) = decided(cfg, s, Event::Shutdown(false));
            let (s2, a2) = decided(cfg, s1, Event::Picked(true));
            let (s3, a3) = decided(cfg, s2, Event::Sent { ok, packets });
            &&& a1 == Act::Pick
            &&& a2 == Act::Send
            &&& cfg.once ==> a3 == Act::Stop
            &&& !cfg.once ==> a3 == Act::Rest && s3.stage == Stage::Top && s3.run == s.run + 1
        }),
{
}

/// With the remap off and the guard on, a capture in which no host was promoted is
/// inspected, and sent exactly if it carries no public source.
pub proof fn law_the_guard_inspects(cfg: LoopCfg, s: LoopState, public: bool)
    requires
        cfg.red && !cfg.remap && cfg.guard,
        s.stage == Stage::Promoting,
        !s.remapped,
    ensures
        ({
            let (s1, a1) = decided(cfg, s, Event::Promoted(false));
            let (s2, a2) = decided(cfg, s1, Event::PublicSource(public));
            &&& a1 == Act::Inspect
            &&& a2 == if public {
                Act::SkipPublic
            } else {
                Act::Send
            }
        }),
{
}

/// A shutdown that is asked for at the top of a run stops the loop, and it stays
/// stopped.
pub proof fn law_shutdown_stops(cfg: LoopCfg, s: LoopState, e: Event)
    requires
        s.stage == Stage::Top,
    ensures
        decided(cfg, s, Event::Shutdown(true)).1 == Act::Stop,
        decided(cfg, decided(cfg, s, Event::Shutdown(true)).0, e).1 == Act::Stop,
{
}

/// A replay that succeeds and counts its packets has its count kept.
pub proof fn law_a_counted_run_is_kept(cfg: LoopCfg, s: LoopState, packets: u64)
    requires
        s.stage == Stage::Sending,
    ensures
        decided(cfg, s, Event::Sent { ok: true, packets: Some(packets) }).0.last_packets == Some(
            packets,
        ),
        decided(cfg, s, Event::Sent { ok: false, packets: Some(packets) }).0.last_packets
            == s.last_packets,
{
}

} // verus!
