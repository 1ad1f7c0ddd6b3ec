//! The heartbeat.

use vstd::prelude::*;
use crate::config::number::Real;
use crate::config::{mode_tag, Config, RateModel};
use crate::ledger::{
    capped, devices_in, effective_asset_cap, effective_device_cap, effective_subnet_cap,
    DeviceRecord, Session, SubnetRecord, DEFAULT_MAX_ASSETS, MAX_DEVICES, MAX_SUBNETS,
};
use crate::net::net_text;
use crate::scenario::engine::or;
use crate::simulate::engine::SimulatorEngine;
use crate::simulate::listing::count_in;
use crate::simulate::zones::Zone;
use crate::text::{opt_text, texts};

verus! {

/// What the daemon reports.
#[derive(Debug)]
pub struct Status {
    pub schema: u32,
    pub pid: u32,
    pub state: String,
    pub laser: String,
    pub iface: String,
    pub run: u64,
    pub current_file: Option<String>,
    pub l3_seed: Option<u64>,
    pub rate_model: String,
    pub last_run_packets: Option<u64>,
    pub total_tx_packets: Option<u64>,
    pub pps: Option<Real>,
    pub mbps: Option<Real>,
    pub next_gap_secs: Option<Real>,
    pub last_error: Option<String>,
    pub zone_count: usize,
    pub device_count: usize,
    pub device_cap: usize,
    pub subnet_cap: usize,
    pub capture_host_count: usize,
    pub total_wire_assets: usize,
    pub max_assets: usize,
    pub target_devices: usize,
    pub sealed: bool,
    pub cycle: u64,
    pub last_threat_unix: Option<u64>,
    pub zones: Vec<StatusZone>,
    pub scenario: Option<String>,
    pub phase: Option<String>,
    pub technique_ids: Vec<String>,
    pub updated_unix: u64,
    pub started_unix: u64,
}

/// A zone in the heartbeat.
#[derive(Debug)]
pub struct StatusZone {
    pub cidr: String,
    pub name: String,
    pub purdue_level: u8,
    pub devices: usize,
}

/// The value of a zone in the heartbeat.
pub ghost struct StatusZoneModel {
    pub cidr: Seq<char>,
    pub name: Seq<char>,
    pub purdue_level: u8,
    pub devices: nat,
}

impl View for StatusZone {
    type V = StatusZoneModel;

    open spec fn view(&self) -> StatusZoneModel {
        StatusZoneModel {
            cidr: self.cidr@,
            name: self.name@,
            purdue_level: self.purdue_level,
            devices: self.devices as nat,
        }
    }
}

/// The values of zones in the heartbeat.
pub open spec fn zone_values(v: Seq<StatusZone>) -> Seq<StatusZoneModel> {
    v.map_values(|z: StatusZone| z@)
}

/// The word for a rate model.
pub open spec fn rate_word(m: RateModel) -> Seq<char> {
    match m {
        RateModel::Original => "original"@,
        RateModel::Multiplier => "multiplier"@,
        RateModel::Pps => "pps"@,
        RateModel::Mbps => "mbps"@,
        RateModel::Topspeed => "topspeed"@,
    }
}

/// The heartbeat of a run, before the zones and the session are filled in.
pub fn base_status(cfg: &Config, pid: u32, started: u64, run: u64, last_packets: Option<u64>) -> (r:
    Status)
    ensures
        r.schema == 4,
        r.pid == pid,
        r.state@.len() == 0,
        r.laser@ == mode_tag(cfg.mode),
        r.iface@ == cfg.iface@,
        r.run == run,
        r.current_file is None,
        r.l3_seed is None,
        r.rate_model@ == rate_word(cfg.rate.model),
        r.last_run_packets == last_packets,
        r.total_tx_packets is None,
        r.pps is None && r.mbps is None && r.next_gap_secs is None,
        r.last_error is None,
        r.zone_count == 0 && r.device_count == 0 && r.device_cap == 0 && r.subnet_cap == 0,
        r.capture_host_count == 0 && r.total_wire_assets == 0 && r.max_assets == 0,
        r.target_devices == 0 && !r.sealed && r.cycle == 0,
        r.last_threat_unix is None,
        r.zones@.len() == 0,
        r.scenario is None && r.phase is None,
        r.technique_ids@.len() == 0,
        r.updated_unix == 0,
        r.started_unix == started,
{
    Status {
        schema: 4,
        pid,
        state: String::new(),
        laser: cfg.mode.as_str().to_owned(),
        iface: cfg.iface.clone(),
        run,
        current_file: None,
        l3_seed: None,
        rate_model: (match cfg.rate.model {
            RateModel::Original => "original",
            RateModel::Multiplier => "multiplier",
            RateModel::Pps => "pps",
            RateModel::Mbps => "mbps",
            RateModel::Topspeed => "topspeed",
        }).to_owned(),
        last_run_packets: last_packets,
        total_tx_packets: None,
        pps: None,
        mbps: None,
        next_gap_secs: None,
        last_error: None,
        zone_count: 0,
        device_count: 0,
        device_cap: 0,
        subnet_cap: 0,
        capture_host_count: 0,
        total_wire_assets: 0,
        max_assets: 0,
        target_devices: 0,
        sealed: false,
        cycle: 0,
        last_threat_unix: None,
        zones: Vec::new(),
        scenario: None,
        phase: None,
        technique_ids: Vec::new(),
        updated_unix: 0,
        started_unix: started,
    }
}

/// A ledger's zone, as the heartbeat gives it.
pub open spec fn ledger_zone(ds: Seq<DeviceRecord>) -> spec_fn(SubnetRecord) -> StatusZoneModel {
    |z: SubnetRecord|
        StatusZoneModel {
            cidr: z.cidr@,
            name: z.zone_name@,
            purdue_level: z.purdue_level,
            devices: devices_in(ds, z.cidr@),
        }
}

/// A capture's zone, as the heartbeat gives it.
pub open spec fn capture_zone() -> spec_fn(Zone) -> StatusZoneModel {
    |z: Zone|
        StatusZoneModel {
            cidr: net_text(z.cidr),
            name: z.name@,
            purdue_level: z.purdue_level,
            devices: z.device_ips@.len(),
        }
}

fn ledger_zones(led: &Session) -> (r: Vec<StatusZone>)
    ensures
        zone_values(r@) == led.subnets@.map_values(ledger_zone(led.devices@)),
{
    let counts = led.device_counts_by_subnet();
    let ghost ds = led.devices@;
    let ghost all = led.subnets@.map_values(ledger_zone(ds));
    let mut out: Vec<StatusZone> = Vec::new();
    let mut i: usize = 0;
    while i < led.subnets.len()
        invariant
            i <= led.subnets@.len(),
            ds == led.devices@,
            all == led.subnets@.map_values(ledger_zone(ds)),
            out@.len() == i,
            forall|k: int| 0 <= k < i ==> (#[trigger] out@[k])@ == all[k],
            forall|k: int|
                0 <= k < counts@.len() ==> (#[trigger] counts@[k]).1 == devices_in(
                    ds,
                    counts@[k].0@,
                ),
            forall|d: int|
                0 <= d < ds.len() ==> crate::ledger::listed(
                    counts@,
                    (#[trigger] ds[d]).subnet_cidr@,
                ),
        decreases led.subnets@.len() - i,
    {
        let z: &SubnetRecord = &led.subnets[i];
        out.push(
            StatusZone {
                cidr: z.cidr.clone(),
                name: z.zone_name.clone(),
                purdue_level: z.purdue_level,
                devices: count_in(&counts, z.cidr.as_str(), Ghost(ds)),
            },
        );
        i += 1;
    }
    proof {
        assert(zone_values(out@) =~= all);
    }
    out
}

impl Status {
    /// Fill in the caps of the configuration.
    pub fn apply_caps(&mut self, cfg: &Config)
        ensures
            *final(self) == (Status {
                device_cap: capped(cfg.synthesis.max_devices, MAX_DEVICES, MAX_DEVICES),
                subnet_cap: capped(cfg.zones.max_subnets, MAX_SUBNETS, MAX_SUBNETS),
                max_assets: capped(cfg.synthesis.max_assets, DEFAULT_MAX_ASSETS, MAX_DEVICES),
                ..*old(self)
            }),
    {
        self.device_cap = effective_device_cap(cfg.synthesis.max_devices);
        self.subnet_cap = effective_subnet_cap(cfg.zones.max_subnets);
        self.max_assets = effective_asset_cap(cfg.synthesis.max_assets);
    }

    /// Fill in the ledger of a red laser, and the scenario where one is active.
    pub fn apply_engine(&mut self, e: &SimulatorEngine)
        requires
            e.wf(),
        ensures
            final(self).device_count == e.ledger.devices@.len(),
            final(self).capture_host_count == e.ledger.capture_hosts@.len(),
            final(self).total_wire_assets == e.ledger.total(),
            final(self).target_devices == e.ledger.target_devices,
            final(self).sealed == e.ledger.sealed,
            final(self).cycle == e.ledger.cycle,
            final(self).last_threat_unix == e.ledger.last_threat_unix,
            zone_values(final(self).zones@) == e.ledger.subnets@.map_values(
                ledger_zone(e.ledger.devices@),
            ),
            final(self).zone_count == e.ledger.subnets@.len(),
            opt_text(final(self).scenario) == match e.scenario {
                Some(s) => Some(s.name@),
                None => None,
            },
            opt_text(final(self).phase) == match e.scenario {
                Some(s) => Some(or(opt_text(s.current().name), s.current().id@)),
                None => None,
            },
            texts(final(self).technique_ids@) == match e.scenario {
                Some(s) => texts(s.current().techniques@),
                None => Seq::empty(),
            },
            final(self).laser@ == match e.scenario {
                Some(s) => "target:"@ + s.name@,
                None => old(self).laser@,
            },
            *final(self) == (Status {
                laser: final(self).laser,
                zone_count: final(self).zone_count,
                device_count: final(self).device_count,
                capture_host_count: final(self).capture_host_count,
                total_wire_assets: final(self).total_wire_assets,
                target_devices: final(self).target_devices,
                sealed: final(self).sealed,
                cycle: final(self).cycle,
                last_threat_unix: final(self).last_threat_unix,
                zones: final(self).zones,
                scenario: final(self).scenario,
                phase: final(self).phase,
                technique_ids: final(self).technique_ids,
                ..*old(self)
            }),
    {
        let led: &Session = e.ledger();
        self.device_count = led.device_count();
        self.capture_host_count = led.capture_host_count();
        self.total_wire_assets = led.total_wire_assets();
        self.target_devices = led.target_devices;
        self.sealed = led.is_sealed();
        self.cycle = led.cycle;
        self.last_threat_unix = led.last_threat_unix;
        self.zones = ledger_zones(led);
        proof {
            assert(zone_values(self.zones@).len() == self.zones@.len());
        }
        self.zone_count = self.zones.len();
        self.scenario = match e.scenario_name() {
            Some(n) => Some(n.to_owned()),
            None => None,
        };
        self.phase = e.scenario_phase_label();
        self.technique_ids = e.scenario_techniques();
        proof {
            if e.scenario is None {
                assert(texts(self.technique_ids@) =~= Seq::empty());
            }
        }
        if let Some(n) = e.scenario_name() {
            let mut laser = "target:".to_owned();
            laser.append(n);
            self.laser = laser;
        }
    }

    /// Fill in the zones of the capture that a green laser replays.
    pub fn apply_zones(&mut self, zones: &Vec<Zone>)
        ensures
            zone_values(final(self).zones@) == zones@.map_values(capture_zone()),
            *final(self) == (Status {
                zones: final(self).zones,
                zone_count: zones@.len() as usize,
                ..*old(self)
            }),
    {
        let ghost all = zones@.map_values(capture_zone());
        let mut out: Vec<StatusZone> = Vec::new();
        let mut i: usize = 0;
        while i < zones.len()
            invariant
                i <= zones@.len(),
                all == zones@.map_values(capture_zone()),
                out@.len() == i,
                forall|k: int| 0 <= k < i ==> (#[trigger] out@[k])@ == all[k],
            decreases zones@.len() - i,
        {
            let z: &Zone = &zones[i];
            out.push(
                StatusZone {
                    cidr: z.cidr.to_text(),
                    name: z.name.clone(),
                    purdue_level: z.purdue_level,
                    devices: z.device_ips.len(),
                },
            );
            i += 1;
        }
        proof {
            assert(zone_values(out@) =~= all);
        }
        self.zones = out;
        self.zone_count = zones.len();
    }
}

/// The last completed run's achieved rate. The last positive reading is held, so
/// that a run that reports none does not blank the display.
#[derive(Clone, Copy, Debug, PartialEq, Eq, Structural)]
pub struct PpsState {
    pub pps: Option<Real>,
    pub mbps: Option<Real>,
}

/// A reading where it is positive, else what was held.
pub open spec fn held(last: Option<Real>, new: Option<Real>) -> Option<Real> {
    match new {
        Some(x) => if x.is_positive() {
            new
        } else {
            last
        },
        None => last,
    }
}

impl PpsState {
    pub fn new() -> (r: PpsState)
        ensures
            r.pps is None,
            r.mbps is None,
    {
        PpsState { pps: None, mbps: None }
    }

    /// Record a completed run's measured rate.
    pub fn record(&mut self, pps: Option<Real>, mbps: Option<Real>)
        ensures
            final(self).pps == held(old(self).pps, pps),
            final(self).mbps == held(old(self).mbps, mbps),
    {
        if let Some(p) = pps {
            if p.positive() {
                self.pps = Some(p);
            }
        }
        if let Some(m) = mbps {
            if m.positive() {
                self.mbps = Some(m);
            }
        }
    }
}

/// Once a positive rate was recorded, a positive rate is shown, whatever later runs
/// report.
pub proof fn law_rate_is_never_blanked(last: Option<Real>, new: Option<Real>)
    requires
        last is Some,
        last->0.is_positive(),
    ensures
        held(last, new) is Some,
        held(last, new)->0.is_positive(),
{
}

} // verus!
