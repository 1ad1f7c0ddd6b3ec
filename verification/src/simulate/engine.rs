//! The red-laser simulator engine.
//!
//! Holds the session ledger and drives each iteration: fabricate a few more
//! devices within the caps, refresh the zone names on a cadence, and build the
//! identity burst on its own.

use vstd::prelude::*;
use crate::config::Config;
use crate::ledger::{
    capped, device_models, effective_device_cap, effective_subnet_cap, subnet_models, PromotedHost,
    Session, SubnetModel, SubnetRecord, DEFAULT_MAX_ASSETS, MAX_DEVICES, MAX_SUBNETS,
};
use crate::net::Ipv4Net;
use crate::oui::OuiDb;
use crate::pcapio::Capture;
use crate::proto::l3::nets_wf;
use crate::rng::{rng_from_seed, rng_words, seeded_words};
use crate::scenario::action::{Action, ActionModel};
use crate::scenario::burst::{frame_views, renders};
use crate::scenario::engine::ScenarioEngine;
use crate::simulate::announce::{build_assertions, burst_of, BurstCfg};
use crate::simulate::devices::{
    can_fabricate, fab_of, fabricate, lemma_full_stays, room_list, AllocParams, Fab,
};
use crate::simulate::identity::{exchange_models, Exchange};
use crate::simulate::remap::{is_remap, remap_into_plan};
use crate::simulate::zones::{name_zone, zone_name};
use crate::text::{opt_ref, opt_text};
use crate::vuln::VulnDb;

verus! {

/// How many new devices to fabricate per iteration until the cap, so that the
/// asset set grows gradually rather than all at once.
pub const FABRICATE_BATCH: usize = 16;

/// The red-laser world and what drives it.
pub struct SimulatorEngine {
    pub ledger: Session,
    pub vuln: VulnDb,
    pub oui: OuiDb,
    pub params: AllocParams,
    pub identity_every: u64,
    /// Re-label zones every Nth run when unsealed and saturated; 0 is off.
    pub cycle_every: u64,
    pub synth_enabled: bool,
    pub threats_enabled: bool,
    pub burst: BurstCfg,
    /// The ledger was committed: do not fabricate past it.
    pub sealed: bool,
    pub sim_rng: rand_chacha::ChaCha8Rng,
    /// Minimum seconds between identity bursts.
    pub announce_interval_secs: u64,
    pub last_announce_unix: Option<u64>,
    /// Bursts so far, the nonce that makes each a fresh connection.
    pub announce_count: u64,
    /// The ledger changed since it was last written.
    pub dirty: bool,
    /// The active scenario, whose attack frames follow each identity burst.
    pub scenario: Option<ScenarioEngine>,
}

/// What an iteration puts on the wire: the identity burst, then the attack.
pub struct Tick {
    pub exchanges: Vec<Exchange>,
    pub attack: Vec<Vec<u8>>,
}

/// The least time between two promotions: a day.
pub const PROMOTION_FLOOR_SECS: u64 = 86_400;

/// The promotions of a ledger are a day or more apart, and the last of them is the
/// time of the last threat.
pub open spec fn a_day_apart(s: Session) -> bool {
    &&& forall|i: int, j: int|
        0 <= i < j < s.promoted@.len() ==> (#[trigger] s.promoted@[j]).promoted_unix >= (
        #[trigger] s.promoted@[i]).promoted_unix + PROMOTION_FLOOR_SECS
    &&& s.promoted@.len() > 0 ==> s.last_threat_unix == Some(s.promoted@.last().promoted_unix)
}

/// The larger of a cadence and one.
pub open spec fn at_least_one(n: u64) -> u64 {
    if n > 0 {
        n
    } else {
        1
    }
}

fn cadence(n: u64) -> (r: u64)
    ensures
        r == at_least_one(n),
{
    if n > 0 {
        n
    } else {
        1
    }
}

impl SimulatorEngine {
    /// The engine can run: its cadences are positive, its plant can be fabricated
    /// into where it is, and its scenario stands at a phase.
    pub open spec fn wf(self) -> bool {
        &&& self.oui.wf()
        &&& self.identity_every > 0
        &&& self.burst.ns_cadence > 0
        &&& self.burst.device_identity && !self.sealed ==> can_fabricate(
            self.ledger,
            self.vuln.profiles@,
        )
        &&& self.scenario matches Some(s) ==> s.wf()
    }

    /// The engine of a configuration over a session. The generator is seeded from
    /// the session seed, so that a run is reproducible.
    pub fn red(
        cfg: &Config,
        session: Session,
        vuln: VulnDb,
        oui: OuiDb,
        scenario: Option<ScenarioEngine>,
    ) -> (r: SimulatorEngine)
        requires
            oui.wf(),
            cfg.synthesis.device_identity && !session.sealed ==> can_fabricate(
                session,
                vuln.profiles@,
            ),
            scenario matches Some(s) ==> s.wf(),
        ensures
            r.wf(),
            r.ledger == session,
            r.vuln == vuln,
            r.oui == oui,
            r.params.max_subnets == capped(
                cfg.zones.max_subnets,
                MAX_SUBNETS,
                MAX_SUBNETS,
            ),
            r.params.max_devices == capped(
                cfg.synthesis.max_devices,
                MAX_DEVICES,
                MAX_DEVICES,
            ),
            r.params.default_prefix == cfg.zones.default_prefix,
            r.identity_every == at_least_one(cfg.synthesis.identity_every_n_runs),
            r.cycle_every == cfg.synthesis.cycle_every_n_runs,
            r.synth_enabled == cfg.synthesis.enabled,
            r.threats_enabled == cfg.threats.enabled,
            r.burst == (BurstCfg {
                device_identity: cfg.synthesis.device_identity,
                switch_beacons: cfg.synthesis.switch_beacons,
                ns_enabled: cfg.north_south.enabled,
                ns_cadence: at_least_one(cfg.north_south.cadence_runs),
                ns_max_per_pair: cfg.north_south.max_flows_per_pair,
            }),
            r.sealed == session.sealed,
            rng_words(r.sim_rng) == seeded_words(session.seed),
            r.announce_interval_secs == cfg.synthesis.announce_interval_secs,
            r.last_announce_unix is None,
            r.announce_count == 0,
            !r.dirty,
            r.scenario == scenario,
    {
        let sealed: bool = session.sealed;
        let sim_rng = rng_from_seed(session.seed);
        SimulatorEngine {
            vuln,
            oui,
            params: AllocParams {
                max_subnets: effective_subnet_cap(cfg.zones.max_subnets),
                max_devices: effective_device_cap(cfg.synthesis.max_devices),
                default_prefix: cfg.zones.default_prefix,
            },
            identity_every: cadence(cfg.synthesis.identity_every_n_runs),
            cycle_every: cfg.synthesis.cycle_every_n_runs,
            synth_enabled: cfg.synthesis.enabled,
            threats_enabled: cfg.threats.enabled,
            burst: BurstCfg {
                device_identity: cfg.synthesis.device_identity,
                switch_beacons: cfg.synthesis.switch_beacons,
                ns_enabled: cfg.north_south.enabled,
                ns_cadence: cadence(cfg.north_south.cadence_runs),
                ns_max_per_pair: cfg.north_south.max_flows_per_pair,
            },
            sealed,
            sim_rng,
            announce_interval_secs: cfg.synthesis.announce_interval_secs,
            last_announce_unix: None,
            announce_count: 0,
            dirty: false,
            scenario,
            ledger: session,
        }
    }

    pub fn ledger(&self) -> (r: &Session)
        ensures
            *r == self.ledger,
    {
        &self.ledger
    }

    /// The persisted session seed, so that an entropy-seeded run can be pinned.
    pub fn seed(&self) -> (r: u64)
        ensures
            r == self.ledger.seed,
    {
        self.ledger.seed
    }

    /// The active scenario's name, if any.
    pub fn scenario_name(&self) -> (r: Option<&str>)
        ensures
            match r {
                Some(n) => self.scenario is Some && n@ == self.scenario->0.name@,
                None => self.scenario is None,
            },
    {
        match &self.scenario {
            Some(s) => Some(s.name()),
            None => None,
        }
    }

    /// The active scenario's current phase label, if any.
    pub fn scenario_phase_label(&self) -> (r: Option<String>)
        requires
            self.wf(),
        ensures
            opt_text(r) == match self.scenario {
                Some(s) => Some(
                    crate::scenario::engine::or(opt_text(s.current().name), s.current().id@),
                ),
                None => None,
            },
    {
        match &self.scenario {
            Some(s) => Some(s.phase_label()),
            None => None,
        }
    }

    /// The active scenario's current phase id, if any.
    pub fn scenario_phase_id(&self) -> (r: Option<String>)
        requires
            self.wf(),
        ensures
            opt_text(r) == match self.scenario {
                Some(s) => Some(s.current().id@),
                None => None,
            },
    {
        match &self.scenario {
            Some(s) => Some(s.phase_id().to_owned()),
            None => None,
        }
    }

    /// The active scenario's current technique ids.
    pub fn scenario_techniques(&self) -> (r: Vec<String>)
        requires
            self.wf(),
        ensures
            r@ == match self.scenario {
                Some(s) => s.current().techniques@,
                None => Seq::empty(),
            },
    {
        match &self.scenario {
            Some(s) => s.techniques(),
            None => {
                let none: Vec<String> = Vec::new();
                proof {
                    assert(none@ =~= Seq::empty());
                }
                none
            },
        }
    }

    /// The ledger was written.
    pub fn saved(&mut self)
        ensures
            *final(self) == (SimulatorEngine { dirty: false, ..*old(self) }),
    {
        self.dirty = false;
    }

    /// A promotion is due: threats are on, the drawn time has come, and the last
    /// promotion is a day or more ago.
    pub open spec fn may_promote(self, next_due: u64, now: u64) -> bool {
        &&& self.threats_enabled
        &&& now >= next_due
        &&& self.ledger.last_threat_unix matches Some(t) ==> now >= t + PROMOTION_FLOOR_SECS
    }

    /// Whether a capture's host is to be promoted now, given the time that was drawn
    /// for the next promotion. Whatever was drawn, promotions are a day apart.
    pub fn promotion_due(&self, next_due: u64, now: u64) -> (r: bool)
        ensures
            r == (self.threats_enabled && now >= next_due && (
            self.ledger.last_threat_unix matches Some(t) ==> now >= t + 86_400)),
            r == self.may_promote(next_due, now),
    {
        let rested: bool = match self.ledger.last_threat_unix {
            Some(t) => now >= t && now - t >= PROMOTION_FLOOR_SECS,
            None => true,
        };
        self.threats_enabled && now >= next_due && rested
    }

    /// If a promotion is due, log that of the capture's host that was promoted, with
    /// its time, and say so. Where none is due, or no host could be promoted, nothing
    /// changes.
    pub fn maybe_promote(
        &mut self,
        next_due: u64,
        now: u64,
        record: Option<PromotedHost>,
    ) -> (r: bool)
        ensures
            r == (old(self).may_promote(next_due, now) && record is Some),
            !r ==> *final(self) == *old(self),
            r ==> {
                &&& final(self).ledger.promoted@ == old(self).ledger.promoted@.push(record->0)
                &&& final(self).ledger == (Session {
                    promoted: final(self).ledger.promoted,
                    last_threat_unix: Some(now),
                    ..old(self).ledger
                })
                &&& *final(self) == (SimulatorEngine {
                    ledger: final(self).ledger,
                    dirty: true,
                    ..*old(self)
                })
                &&& old(self).ledger.last_threat_unix matches Some(t) ==> now >= t + 86_400
            },
            a_day_apart(old(self).ledger) && (record matches Some(p) ==> p.promoted_unix == now)
                ==> a_day_apart(final(self).ledger),
            old(self).wf() ==> final(self).wf(),
            old(self).ledger.wf() ==> final(self).ledger.wf(),
    {
        if !self.promotion_due(next_due, now) {
            return false;
        }
        match record {
            None => false,
            Some(p) => {
                self.ledger.promoted.push(p);
                self.ledger.last_threat_unix = Some(now);
                self.dirty = true;
                true
            },
        }
    }

    /// Bring a capture into the session: its hosts are reconciled into the
    /// fabricated zones, and what is new is registered in the ledger.
    pub fn remap_into_session(
        &mut self,
        cfg: &Config,
        cap: &mut Capture,
        hints: &[Ipv4Net],
    )
        requires
            old(self).wf(),
            nets_wf(hints@),
            old(self).ledger.registry_generation + MAX_DEVICES < u64::MAX,
        ensures
            final(self).wf(),
            old(self).ledger.wf() ==> final(self).ledger.wf(),
            final(cap).header == old(cap).header,
            is_remap(
                old(cap)@,
                final(cap)@,
                old(self).ledger,
                final(self).ledger,
                hints@,
                old(self).oui@,
                cfg.l3,
                capped(cfg.synthesis.max_assets, DEFAULT_MAX_ASSETS, MAX_DEVICES),
            ),
            *final(self) == (SimulatorEngine {
                ledger: final(self).ledger,
                dirty: old(self).dirty || final(self).ledger.capture_hosts@.len()
                    > old(self).ledger.capture_hosts@.len(),
                ..*old(self)
            }),
    {
        let changed: bool = remap_into_plan(
            &mut self.ledger,
            cap,
            hints,
            &self.oui,
            &cfg.l3,
            cfg.synthesis.max_assets,
        );
        proof {
            let zs = subnet_models(self.ledger.subnets@);
            let (a, b) = (old(self).ledger.used(), self.ledger.used());
            if room_list(zs, a).len() == 0 {
                lemma_full_stays(zs, zs, a, b);
            }
        }
        if changed {
            self.dirty = true;
        }
    }

    /// The plant of this world, as the fabricator sees it.
    pub open spec fn fab(self) -> Fab {
        fab_of(self.ledger, self.ledger.used(), rng_words(self.sim_rng))
    }

    /// The fleet that an iteration grows to: a batch more, within the caps.
    pub open spec fn goal(self) -> nat {
        let n = self.ledger.devices@.len() + FABRICATE_BATCH as nat;
        if n < self.params.max_devices {
            n
        } else {
            self.params.max_devices as nat
        }
    }

    /// The plant after an iteration's growth. A sealed plant does not grow.
    pub open spec fn grown(self) -> Fab {
        if self.burst.device_identity && !self.sealed && self.vuln.profiles@.len() > 0 {
            self.fab().fabricate(self.vuln.profiles@, self.params, self.goal())
        } else {
            self.fab()
        }
    }

    /// An iteration refreshes the zone names: an unsealed, saturated world on its
    /// cadence.
    pub open spec fn cycles(self, run: u64) -> bool {
        &&& !self.sealed
        &&& self.cycle_every > 0
        &&& run > 0
        &&& run as int % self.cycle_every as int == 0
        &&& self.grown().devices.len() == self.ledger.devices@.len()
        &&& self.grown().subnets.len() > 0
    }

    /// The zones after an iteration.
    pub open spec fn zones_after(self, run: u64) -> Seq<SubnetModel> {
        let zs = self.grown().subnets;
        if self.cycles(run) {
            renamed(zs, (self.ledger.cycle + 1) as nat)
        } else {
            zs
        }
    }

    /// An identity burst is due: on its run cadence, and not within the interval of
    /// the last.
    pub open spec fn announces(self, run: u64, now: u64) -> bool {
        &&& run as int % self.identity_every as int == 0
        &&& match self.last_announce_unix {
            Some(t) => (if now >= t {
                now - t
            } else {
                0
            }) >= self.announce_interval_secs,
            None => true,
        }
    }

    fn grow(&mut self) -> (added: usize)
        requires
            old(self).wf(),
        ensures
            final(self).wf(),
            old(self).ledger.wf() ==> final(self).ledger.wf(),
            fab_of(final(self).ledger, old(self).grown().used, rng_words(final(self).sim_rng))
                == old(self).grown(),
            added == final(self).ledger.devices@.len() - old(self).ledger.devices@.len(),
            final(self).ledger.subnets@.len() <= old(self).ledger.subnets@.len()
                || final(self).ledger.subnets@.len() <= MAX_SUBNETS,
            *final(self) == (SimulatorEngine {
                ledger: final(self).ledger,
                sim_rng: final(self).sim_rng,
                dirty: old(self).dirty || added > 0,
                ..*old(self)
            }),
            final(self).ledger == (Session {
                subnets: final(self).ledger.subnets,
                devices: final(self).ledger.devices,
                ..old(self).ledger
            }),
    {
        if !self.burst.device_identity || self.sealed {
            return 0;
        }
        let n: usize = self.ledger.device_count().saturating_add(FABRICATE_BATCH);
        let target: usize = if n < self.params.max_devices {
            n
        } else {
            self.params.max_devices
        };
        let added: usize = fabricate(
            &mut self.ledger,
            &self.vuln,
            &self.params,
            target,
            &mut self.sim_rng,
        );
        if added > 0 {
            self.dirty = true;
        }
        added
    }

    fn cycle(&mut self)
        requires
            old(self).wf(),
            (old(self).ledger.cycle + 1) * MAX_SUBNETS + old(self).ledger.subnets@.len()
                < usize::MAX,
        ensures
            final(self).wf(),
            old(self).ledger.wf() ==> final(self).ledger.wf(),
            *final(self) == (SimulatorEngine {
                ledger: final(self).ledger,
                dirty: true,
                ..*old(self)
            }),
            final(self).ledger == (Session {
                subnets: final(self).ledger.subnets,
                cycle: (old(self).ledger.cycle + 1) as u64,
                ..old(self).ledger
            }),
            subnet_models(final(self).ledger.subnets@) == renamed(
                subnet_models(old(self).ledger.subnets@),
                (old(self).ledger.cycle + 1) as nat,
            ),
    {
        let next: u64 = self.ledger.cycle + 1;
        let base: usize = next as usize * MAX_SUBNETS;
        let ghost before = self.ledger.subnets@;
        let namer = |idx: usize, s: &SubnetRecord| -> (name: String)
            requires
                idx + base < usize::MAX,
            ensures
                name@ == zone_name(opt_text(s.vendor), None, s.purdue_level, (idx + base) as nat),
            { name_zone(opt_ref(&s.vendor), None, s.purdue_level, idx + base) };
        self.ledger.rename_zones_new_cycle(namer);
        self.dirty = true;
        proof {
            let zs = subnet_models(before);
            let after = self.ledger.subnets@;
            assert forall|i: int| 0 <= i < zs.len() implies #[trigger] subnet_models(after)[i]
                == renamed(zs, next as nat)[i] by {
                assert(after[i] == (SubnetRecord { zone_name: after[i].zone_name, ..before[i] }));
                assert(zs[i] == before[i]@);
            }
            assert(subnet_models(after) =~= renamed(zs, next as nat));
            if old(self).ledger.wf() {
                assert forall|i: int, j: int| 0 <= i < j < after.len() implies (
                #[trigger] after[i]).cidr@ != (#[trigger] after[j]).cidr@ by {
                    assert(before[i].cidr@ != before[j].cidr@);
                }
            }
            assert(self.ledger.used() =~= old(self).ledger.used());
            if room_list(zs, self.ledger.used()).len() == 0 {
                lemma_full_stays(
                    zs,
                    subnet_models(after),
                    self.ledger.used(),
                    self.ledger.used(),
                );
            }
        }
    }

    /// One red-laser iteration: grow the device set within the caps, refresh the
    /// zone names once saturated, and build what goes on the wire this round, if
    /// anything. `now` is the current time, for the periodic-discovery cadence.
    pub fn red_tick<F: Fn(&Action) -> Vec<Vec<u8>>>(
        &mut self,
        run: u64,
        now: u64,
        render: &F,
    ) -> (r: Option<Tick>)
        requires
            old(self).wf(),
            (old(self).ledger.cycle + 1) * MAX_SUBNETS + MAX_SUBNETS < usize::MAX,
            (old(self).ledger.cycle + 1) * MAX_SUBNETS + old(self).ledger.subnets@.len()
                < usize::MAX,
            old(self).scenario matches Some(s) ==> s.bursts_in_phase < u64::MAX,
            forall|a: Action| #[trigger] render.requires((&a,)),
        ensures
            final(self).wf(),
            old(self).ledger.wf() ==> final(self).ledger.wf(),
            final(self).vuln == old(self).vuln,
            final(self).oui == old(self).oui,
            final(self).params == old(self).params,
            final(self).burst == old(self).burst,
            final(self).sealed == old(self).sealed,
            final(self).identity_every == old(self).identity_every,
            final(self).cycle_every == old(self).cycle_every,
            final(self).synth_enabled == old(self).synth_enabled,
            final(self).threats_enabled == old(self).threats_enabled,
            final(self).announce_interval_secs == old(self).announce_interval_secs,
            r matches Some(t) ==> t.exchanges@.len() > 0 || t.attack@.len() > 0,
            !old(self).synth_enabled ==> r is None && *final(self) == *old(self),
            old(self).synth_enabled ==> {
                let due = old(self).announces(run, now);
                &&& fab_of(
                    final(self).ledger,
                    old(self).grown().used,
                    rng_words(final(self).sim_rng),
                ) == (Fab { subnets: old(self).zones_after(run), ..old(self).grown() })
                &&& final(self).ledger == (Session {
                    subnets: final(self).ledger.subnets,
                    devices: final(self).ledger.devices,
                    cycle: if old(self).cycles(run) {
                        (old(self).ledger.cycle + 1) as u64
                    } else {
                        old(self).ledger.cycle
                    },
                    ..old(self).ledger
                })
                &&& final(self).dirty == (old(self).dirty || old(self).cycles(run)
                    || final(self).ledger.devices@.len() > old(self).ledger.devices@.len())
                &&& final(self).last_announce_unix == if due {
                    Some(now)
                } else {
                    old(self).last_announce_unix
                }
                &&& final(self).announce_count == if due {
                    old(self).announce_count.wrapping_add(1)
                } else {
                    old(self).announce_count
                }
                &&& !due ==> r is None && final(self).scenario == old(self).scenario
                &&& due ==> {
                    let nonce = old(self).announce_count;
                    let burst = burst_of(
                        final(self).ledger,
                        old(self).vuln,
                        old(self).burst,
                        run,
                        nonce,
                    );
                    match r {
                        Some(t) => exchange_models(t.exchanges@) == burst,
                        None => burst.len() == 0,
                    }
                }
                &&& due && old(self).scenario is None ==> final(self).scenario is None && (
                r matches Some(t) ==> t.attack@.len() == 0)
                &&& due && old(self).scenario is Some ==> {
                    let before = old(self).scenario->0;
                    &&& final(self).scenario is Some
                    &&& final(self).scenario->0.same_scenario(before)
                    &&& forall|g: spec_fn(ActionModel) -> Seq<Seq<u8>>| #[trigger]
                        renders(*render, g) ==> {
                            let b = before.burst(
                                final(self).ledger.devices@,
                                old(self).vuln,
                                old(self).announce_count,
                                g,
                            );
                            &&& final(self).scenario->0.stand() == before.stand_after(b)
                            &&& match r {
                                Some(t) => frame_views(t.attack@) == b.frames,
                                None => b.frames.len() == 0,
                            }
                        }
                }
            },
    {
        if !self.synth_enabled {
            return None;
        }
        let added: usize = self.grow();
        if !self.sealed && self.cycle_every > 0 && run > 0 && run % self.cycle_every == 0 && added
            == 0 && self.ledger.subnet_count() > 0 {
            self.cycle();
        }
        let rested: bool = match self.last_announce_unix {
            Some(t) => now.saturating_sub(t) >= self.announce_interval_secs,
            None => true,
        };
        if !(run % self.identity_every == 0 && rested) {
            return None;
        }
        self.last_announce_unix = Some(now);
        let nonce: u64 = self.announce_count;
        self.announce_count = nonce.wrapping_add(1);
        let exchanges = build_assertions(&self.ledger, &self.vuln, &self.burst, run, nonce);
        let attack: Vec<Vec<u8>> = match &mut self.scenario {
            Some(s) => s.phase_frames(&self.ledger, &self.vuln, nonce, render),
            None => Vec::new(),
        };
        if exchanges.len() == 0 && attack.len() == 0 {
            return None;
        }
        Some(Tick { exchanges, attack })
    }
}

/// Zones with fresh names, as of a cycle.
pub open spec fn renamed(zs: Seq<SubnetModel>, cycle: nat) -> Seq<SubnetModel> {
    Seq::new(
        zs.len(),
        |i: int|
            SubnetModel {
                zone_name: zone_name(
                    zs[i].vendor,
                    None,
                    zs[i].purdue_level,
                    (i + cycle * MAX_SUBNETS) as nat,
                ),
                ..zs[i]
            },
    )
}

/// A sealed plant is frozen: no iteration adds a device or a zone, or renames one.
pub proof fn law_sealed_plant_is_frozen(e: SimulatorEngine, run: u64)
    requires
        e.sealed,
    ensures
        e.grown() == e.fab(),
        e.zones_after(run) == subnet_models(e.ledger.subnets@),
        e.grown().devices == device_models(e.ledger.devices@),
{
}

/// Bursts keep their distance: one is due no sooner than the interval behind the
/// last, whatever the run.
pub proof fn law_bursts_keep_their_distance(e: SimulatorEngine, run: u64, now: u64)
    requires
        e.last_announce_unix is Some,
        e.announces(run, now),
        e.announce_interval_secs > 0,
    ensures
        now >= e.last_announce_unix->0 + e.announce_interval_secs,
{
}

/// A burst is due on every run of the cadence once the interval behind the last one
/// is over, and at once where there was none; off the cadence none is.
pub proof fn law_bursts_come_on_their_cadence(e: SimulatorEngine, run: u64, now: u64)
    requires
        e.identity_every > 0,
    ensures
        run as int % e.identity_every as int == 0 && (e.last_announce_unix is None || now
            >= e.last_announce_unix->0 + e.announce_interval_secs) ==> e.announces(run, now),
        e.announces(run, now) ==> run as int % e.identity_every as int == 0,
{
}

/// Renaming zones, as of a later cycle, keeps their networks, levels, vendors and
/// domains; a zone's name starts with its vendor.
pub proof fn law_renaming_keeps_zones(zs: Seq<SubnetModel>, cycle: nat, i: int)
    requires
        0 <= i < zs.len(),
    ensures
        renamed(zs, cycle).len() == zs.len(),
        renamed(zs, cycle)[i].cidr == zs[i].cidr,
        renamed(zs, cycle)[i].purdue_level == zs[i].purdue_level,
        renamed(zs, cycle)[i].vendor == zs[i].vendor,
        renamed(zs, cycle)[i].domain == zs[i].domain,
        zs[i].vendor is Some ==> zs[i].vendor->0.is_prefix_of(renamed(zs, cycle)[i].zone_name),
{
    let name = renamed(zs, cycle)[i].zone_name;
    if zs[i].vendor is Some {
        let v = zs[i].vendor->0;
        assert(name.take(v.len() as int) =~= v);
    }
}

/// A promotion waits: none is due where threats are off, before the time that was
/// drawn, or within a day of the last; and with all three met one is.
pub proof fn law_promotions_wait(e: SimulatorEngine, next_due: u64, now: u64)
    ensures
        e.may_promote(next_due, now) <==> e.threats_enabled && now >= next_due && (
        e.ledger.last_threat_unix is None || now >= e.ledger.last_threat_unix->0 + 24 * 60 * 60),
{
}

/// An iteration grows an unsealed plant by no more than a batch, never past the
/// configured number of devices, and loses nothing.
pub proof fn law_growth_is_bounded(e: SimulatorEngine)
    requires
        can_fabricate(e.ledger, e.vuln.profiles@),
        e.vuln.profiles@.len() <= usize::MAX,
    ensures
        e.grown().devices.len() >= e.ledger.devices@.len(),
        e.grown().devices.len() <= e.ledger.devices@.len() + FABRICATE_BATCH,
        e.grown().devices.len() > e.ledger.devices@.len() ==> e.grown().devices.len()
            <= e.params.max_devices && !e.sealed && e.burst.device_identity,
{
    if e.burst.device_identity && !e.sealed && e.vuln.profiles@.len() > 0 {
        crate::simulate::devices::law_fabricate(
            e.fab(),
            e.vuln.profiles@,
            e.params,
            e.goal(),
        );
    }
}

} // verus!
