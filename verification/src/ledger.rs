//! The persistent session ledger.
//!
//! Tracks the fabricated world across daemon restarts: the named subnet zones,
//! the simulated devices and their assigned IP/MAC/CVE identities, and any hosts
//! promoted to external threat actors. It enforces the two hard caps and
//! preserves unique IP assignment. The file is the ground truth that `zones`,
//! `plan`, and `status` report.
//!
//! Hard caps are constants here, not config: a config may lower them but never
//! raise them, so the guarantee holds even if a config is wrong.

use std::collections::HashSet;
use vstd::prelude::*;
use crate::net::{find_free, first_free, ip_text, lemma_first_free, parse_ip, Ipv4Net};
use crate::text::{clone_opt, clone_strings, opt_text, str_eq, texts};

verus! {

/// No red-laser session ever fabricates more than this many subnet zones.
pub const MAX_SUBNETS: usize = 16;

/// No red-laser session ever fabricates more than this many devices.
pub const MAX_DEVICES: usize = 2000;

/// Current ledger schema version. Older files load with defaults for what they
/// lack; a newer file is refused on load rather than silently misread.
pub const SCHEMA: u32 = 4;

/// Default total wire-asset cap (fabricated devices plus capture-derived assets)
/// when a config does not set one.
pub const DEFAULT_MAX_ASSETS: usize = 512;

/// A configured cap brought into `1..=hard`, `default` standing for none.
pub open spec fn capped(configured: Option<usize>, default: usize, hard: usize) -> usize {
    let c = match configured {
        None => default,
        Some(c) => if c < hard {
            c
        } else {
            hard
        },
    };
    if c < 1 {
        1
    } else {
        c
    }
}

fn cap_of(configured: Option<usize>, default: usize, hard: usize) -> (r: usize)
    ensures
        r == capped(configured, default, hard),
{
    let c: usize = match configured {
        None => default,
        Some(c) => if c < hard {
            c
        } else {
            hard
        },
    };
    if c < 1 {
        1
    } else {
        c
    }
}

/// Resolve an effective cap from an optional config value: a config can lower a
/// hard cap but never exceed it.
pub fn effective_subnet_cap(configured: Option<usize>) -> (r: usize)
    ensures
        r == capped(configured, MAX_SUBNETS, MAX_SUBNETS),
        1 <= r <= MAX_SUBNETS,
{
    cap_of(configured, MAX_SUBNETS, MAX_SUBNETS)
}

/// Resolve an effective device cap. See [`effective_subnet_cap`].
pub fn effective_device_cap(configured: Option<usize>) -> (r: usize)
    ensures
        r == capped(configured, MAX_DEVICES, MAX_DEVICES),
        1 <= r <= MAX_DEVICES,
{
    cap_of(configured, MAX_DEVICES, MAX_DEVICES)
}

/// Resolve the total wire-asset cap (fabricated devices plus capture-derived
/// assets): the config value clamped to the device hard cap, defaulting to
/// [`DEFAULT_MAX_ASSETS`]. Bounds the wire so it never exceeds the plan.
pub fn effective_asset_cap(configured: Option<usize>) -> (r: usize)
    ensures
        r == capped(configured, DEFAULT_MAX_ASSETS, MAX_DEVICES),
        1 <= r <= MAX_DEVICES,
{
    cap_of(configured, DEFAULT_MAX_ASSETS, MAX_DEVICES)
}

#[derive(Debug)]
pub struct Session {
    pub schema: u32,
    pub created_unix: u64,
    /// Seed that drives all fabrication choices, so a session reproduces.
    pub seed: u64,
    /// Increments each time subnets are reused with fresh zone names.
    pub cycle: u64,
    pub subnets: Vec<SubnetRecord>,
    pub devices: Vec<DeviceRecord>,
    pub promoted: Vec<PromotedHost>,
    pub last_threat_unix: Option<u64>,
    /// True when this ledger was committed as a plan. The daemon replays it
    /// verbatim and does not fabricate past it.
    pub sealed: bool,
    /// Intended fabricated fleet size recorded at commit time. 0 on an
    /// unsealed or legacy ledger.
    pub target_devices: usize,
    /// Capture-derived assets: real replayed hosts registered as stable assets
    /// inside the planned zones, with their own stable MAC and IP.
    pub capture_hosts: Vec<CaptureHostRecord>,
    /// Bumped whenever the capture-host registry grows, so a remap cached against
    /// an earlier registry state is recomputed rather than reused.
    pub registry_generation: u64,
    /// Total wire-asset cap recorded at commit (fabricated plus capture-derived).
    /// 0 on an unsealed or legacy ledger; resolved from config at runtime.
    pub max_assets: usize,
    /// The scenario whose plant this is, `None` for a generic ledger.
    pub scenario: Option<String>,
}

#[derive(Debug, PartialEq, Eq)]
pub struct SubnetRecord {
    pub cidr: String,
    pub zone_name: String,
    pub purdue_level: u8,
    pub vendor: Option<String>,
    /// DNS domain this zone belongs to. Several zones share one value so the
    /// sensor correlates assets in different subnets as one site. `None` leaves
    /// hostnames single-label.
    pub domain: Option<String>,
}

/// What a zone record says.
#[verifier::ext_equal]
pub struct SubnetModel {
    pub cidr: Seq<char>,
    pub zone_name: Seq<char>,
    pub purdue_level: u8,
    pub vendor: Option<Seq<char>>,
    pub domain: Option<Seq<char>>,
}

impl View for SubnetRecord {
    type V = SubnetModel;

    open spec fn view(&self) -> SubnetModel {
        SubnetModel {
            cidr: self.cidr@,
            zone_name: self.zone_name@,
            purdue_level: self.purdue_level,
            vendor: opt_text(self.vendor),
            domain: opt_text(self.domain),
        }
    }
}

pub open spec fn subnet_models(v: Seq<SubnetRecord>) -> Seq<SubnetModel> {
    v.map_values(|s: SubnetRecord| s@)
}

impl Default for SubnetRecord {
    fn default() -> (r: Self)
        ensures
            r.cidr@.len() == 0,
            r.zone_name@.len() == 0,
            r.purdue_level == 0,
            r.vendor is None,
            r.domain is None,
    {
        SubnetRecord {
            cidr: String::new(),
            zone_name: String::new(),
            purdue_level: 0,
            vendor: None,
            domain: None,
        }
    }
}

impl Clone for SubnetRecord {
    fn clone(&self) -> (r: Self)
        ensures
            r == *self,
    {
        SubnetRecord {
            cidr: self.cidr.clone(),
            zone_name: self.zone_name.clone(),
            purdue_level: self.purdue_level,
            vendor: clone_opt(&self.vendor),
            domain: clone_opt(&self.domain),
        }
    }
}

#[derive(Debug, PartialEq, Eq)]
pub struct DeviceRecord {
    pub ip: String,
    pub mac: String,
    pub vendor: String,
    pub model: String,
    pub firmware: String,
    pub protocol: String,
    pub cves: Vec<String>,
    pub subnet_cidr: String,
    /// DNS hostname the asset resolves to. `None` for the assets left unnamed.
    pub hostname: Option<String>,
    /// Coarse asset class for analysis. `None` on legacy records.
    pub asset_type: Option<String>,
}

/// What a device record says.
#[verifier::ext_equal]
pub struct DeviceModel {
    pub ip: Seq<char>,
    pub mac: Seq<char>,
    pub vendor: Seq<char>,
    pub model: Seq<char>,
    pub firmware: Seq<char>,
    pub protocol: Seq<char>,
    pub cves: Seq<Seq<char>>,
    pub subnet_cidr: Seq<char>,
    pub hostname: Option<Seq<char>>,
    pub asset_type: Option<Seq<char>>,
}

impl View for DeviceRecord {
    type V = DeviceModel;

    open spec fn view(&self) -> DeviceModel {
        DeviceModel {
            ip: self.ip@,
            mac: self.mac@,
            vendor: self.vendor@,
            model: self.model@,
            firmware: self.firmware@,
            protocol: self.protocol@,
            cves: texts(self.cves@),
            subnet_cidr: self.subnet_cidr@,
            hostname: opt_text(self.hostname),
            asset_type: opt_text(self.asset_type),
        }
    }
}

pub open spec fn device_models(v: Seq<DeviceRecord>) -> Seq<DeviceModel> {
    v.map_values(|d: DeviceRecord| d@)
}

/// Two device records say the same, their CVE lists compared by content.
pub open spec fn same_device(a: DeviceRecord, b: DeviceRecord) -> bool {
    &&& a.cves@ == b.cves@
    &&& a == (DeviceRecord { cves: a.cves, ..b })
}

impl Clone for DeviceRecord {
    fn clone(&self) -> (r: Self)
        ensures
            same_device(r, *self),
    {
        DeviceRecord {
            ip: self.ip.clone(),
            mac: self.mac.clone(),
            vendor: self.vendor.clone(),
            model: self.model.clone(),
            firmware: self.firmware.clone(),
            protocol: self.protocol.clone(),
            cves: clone_strings(&self.cves),
            subnet_cidr: self.subnet_cidr.clone(),
            hostname: clone_opt(&self.hostname),
            asset_type: clone_opt(&self.asset_type),
        }
    }
}

#[derive(Clone, Debug, PartialEq, Eq)]
pub struct PromotedHost {
    pub original_ip: String,
    pub external_ip: String,
    pub mac: String,
    pub promoted_unix: u64,
}

/// A real host observed in a replayed capture, registered as a stable asset so
/// it keeps one IP and MAC across runs and is counted against the plan. Unlike a
/// `DeviceRecord` it carries no fabricated model/firmware/CVE: it is a genuine
/// replayed host, just relocated into a planned zone.
#[derive(Clone, Debug, PartialEq, Eq)]
pub struct CaptureHostRecord {
    /// The original capture IP this stable asset stands in for. The engine keys
    /// on it so a repeated capture (or another capture reusing the address) maps
    /// to the same asset every run.
    pub origin_ip: String,
    pub ip: String,
    pub mac: String,
    pub vendor: Option<String>,
    pub protocol: Option<String>,
    pub purdue_level: u8,
    pub subnet_cidr: String,
    pub hostname: Option<String>,
    pub asset_type: Option<String>,
}

/// What a capture host's record holds.
#[verifier::ext_equal]
pub struct HostModel {
    pub origin_ip: Seq<char>,
    pub ip: Seq<char>,
    pub mac: Seq<char>,
    pub vendor: Option<Seq<char>>,
    pub protocol: Option<Seq<char>>,
    pub purdue_level: u8,
    pub subnet_cidr: Seq<char>,
    pub hostname: Option<Seq<char>>,
    pub asset_type: Option<Seq<char>>,
}

impl View for CaptureHostRecord {
    type V = HostModel;

    open spec fn view(&self) -> HostModel {
        HostModel {
            origin_ip: self.origin_ip@,
            ip: self.ip@,
            mac: self.mac@,
            vendor: opt_text(self.vendor),
            protocol: opt_text(self.protocol),
            purdue_level: self.purdue_level,
            subnet_cidr: self.subnet_cidr@,
            hostname: opt_text(self.hostname),
            asset_type: opt_text(self.asset_type),
        }
    }
}

pub open spec fn host_models(v: Seq<CaptureHostRecord>) -> Seq<HostModel> {
    v.map_values(|h: CaptureHostRecord| h@)
}

/// A zone of the session has the network text.
pub open spec fn has_cidr(subnets: Seq<SubnetRecord>, cidr: Seq<char>) -> bool {
    exists|i: int| 0 <= i < subnets.len() && (#[trigger] subnets[i]).cidr@ == cidr
}

/// A capture host of the session has the address text.
pub open spec fn has_host_ip(hosts: Seq<CaptureHostRecord>, ip: Seq<char>) -> bool {
    exists|i: int| 0 <= i < hosts.len() && (#[trigger] hosts[i]).ip@ == ip
}

/// A device of the session has the address text.
pub open spec fn has_device_ip(devices: Seq<DeviceRecord>, ip: Seq<char>) -> bool {
    exists|i: int| 0 <= i < devices.len() && (#[trigger] devices[i]).ip@ == ip
}

/// How many devices sit in a zone.
pub open spec fn devices_in(devices: Seq<DeviceRecord>, cidr: Seq<char>) -> nat
    decreases devices.len(),
{
    if devices.len() == 0 {
        0
    } else {
        devices_in(devices.drop_last(), cidr) + if devices.last().subnet_cidr@ == cidr {
            1nat
        } else {
            0
        }
    }
}

/// What becomes of a ledger read from a file: one written by a newer build is
/// refused, any other is brought to the current schema.
#[derive(Clone, Copy, Debug, PartialEq, Eq, Structural)]
pub enum SchemaError {
    TooNew { found: u32, supported: u32 },
}

impl Session {
    /// The devices and capture hosts together, as far as a `usize` goes.
    pub open spec fn total(&self) -> usize {
        let n = self.devices@.len() + self.capture_hosts@.len();
        if n <= usize::MAX {
            n as usize
        } else {
            usize::MAX
        }
    }

    /// The session with other zones.
    pub open spec fn with_subnets(self, subnets: Vec<SubnetRecord>) -> Session {
        Session { subnets, ..self }
    }

    /// The session with other devices.
    pub open spec fn with_devices(self, devices: Vec<DeviceRecord>) -> Session {
        Session { devices, ..self }
    }

    /// The addresses in use: those of devices and capture hosts whose text is an
    /// address.
    pub open spec fn used(&self) -> Set<u32> {
        Set::new(
            |ip: u32|
                has_device_ip(self.devices@, ip_text(ip)) || has_host_ip(
                    self.capture_hosts@,
                    ip_text(ip),
                ),
        )
    }

    /// Within the hard caps, with no two zones of one network text.
    pub open spec fn wf(&self) -> bool {
        &&& self.subnets@.len() <= MAX_SUBNETS
        &&& self.devices@.len() <= MAX_DEVICES
        &&& forall|i: int, j: int|
            0 <= i < j < self.subnets@.len() ==> (#[trigger] self.subnets@[i]).cidr@ != (
            #[trigger] self.subnets@[j]).cidr@
    }

    /// A fresh, empty session.
    pub fn new(seed: u64, now_unix: u64) -> (r: Self)
        ensures
            r.schema == SCHEMA,
            r.created_unix == now_unix,
            r.seed == seed,
            r.cycle == 0,
            r.subnets@.len() == 0,
            r.devices@.len() == 0,
            r.promoted@.len() == 0,
            r.last_threat_unix is None,
            !r.sealed,
            r.target_devices == 0,
            r.capture_hosts@.len() == 0,
            r.registry_generation == 0,
            r.max_assets == 0,
            r.scenario is None,
            r.wf(),
    {
        Self {
            schema: SCHEMA,
            created_unix: now_unix,
            seed,
            cycle: 0,
            subnets: Vec::new(),
            devices: Vec::new(),
            promoted: Vec::new(),
            last_threat_unix: None,
            sealed: false,
            target_devices: 0,
            capture_hosts: Vec::new(),
            registry_generation: 0,
            max_assets: 0,
            scenario: None,
        }
    }

    /// Accept a ledger read from a file: refuse one with a newer schema rather
    /// than misread it, and bring an older one to the current schema.
    pub fn accept(self) -> (r: Result<Session, SchemaError>)
        ensures
            r == (if self.schema > SCHEMA {
                Err(SchemaError::TooNew { found: self.schema, supported: SCHEMA })
            } else {
                Ok(Session { schema: SCHEMA, ..self })
            }),
    {
        if self.schema > SCHEMA {
            return Err(SchemaError::TooNew { found: self.schema, supported: SCHEMA });
        }
        let mut s = self;
        s.schema = SCHEMA;
        Ok(s)
    }

    pub fn subnet_count(&self) -> (r: usize)
        ensures
            r == self.subnets@.len(),
    {
        self.subnets.len()
    }

    pub fn device_count(&self) -> (r: usize)
        ensures
            r == self.devices@.len(),
    {
        self.devices.len()
    }

    pub fn capture_host_count(&self) -> (r: usize)
        ensures
            r == self.capture_hosts@.len(),
    {
        self.capture_hosts.len()
    }

    /// Total distinct wire assets: fabricated devices plus capture-derived hosts.
    /// This is what the plan caps and what the sensor should inventory.
    pub fn total_wire_assets(&self) -> (r: usize)
        ensures
            r == self.total(),
    {
        self.devices.len().saturating_add(self.capture_hosts.len())
    }

    fn has_capture_host(&self, ip: &str) -> (r: bool)
        ensures
            r == has_host_ip(self.capture_hosts@, ip@),
    {
        let mut i: usize = 0;
        while i < self.capture_hosts.len()
            invariant
                i <= self.capture_hosts@.len(),
                forall|k: int| 0 <= k < i ==> (#[trigger] self.capture_hosts@[k]).ip@ != ip@,
            decreases self.capture_hosts@.len() - i,
        {
            if str_eq(self.capture_hosts[i].ip.as_str(), ip) {
                return true;
            }
            i += 1;
        }
        false
    }

    /// Register a capture-derived host as a stable asset, deduping by IP and
    /// bounding the total wire-asset count at `cap`. Bumps the registry
    /// generation on a real add so a stale remap cache is invalidated. Returns
    /// false when the cap is reached or the IP is already registered.
    pub fn register_capture_host(&mut self, rec: CaptureHostRecord, cap: usize) -> (r: bool)
        requires
            old(self).registry_generation < u64::MAX,
        ensures
            r == (old(self).total() < cap && !has_host_ip(old(self).capture_hosts@, rec.ip@)),
            !r ==> *final(self) == *old(self),
            r ==> {
                &&& *final(self) == (Session {
                    capture_hosts: final(self).capture_hosts,
                    registry_generation: (old(self).registry_generation + 1) as u64,
                    ..*old(self)
                })
                &&& final(self).capture_hosts@ == old(self).capture_hosts@.push(rec)
                &&& final(self).total() <= cap
            },
    {
        if self.total_wire_assets() >= cap {
            return false;
        }
        if self.has_capture_host(rec.ip.as_str()) {
            return false;
        }
        self.capture_hosts.push(rec);
        self.registry_generation += 1;
        true
    }

    /// Fabricated-device counts per network text in one pass, each text once, in
    /// the order in which they first occur.
    pub fn device_counts_by_subnet(&self) -> (r: Vec<(String, usize)>)
        ensures
            forall|k: int|
                0 <= k < r@.len() ==> (#[trigger] r@[k]).1 == devices_in(self.devices@, r@[k].0@)
                    && r@[k].1 > 0,
            forall|i: int, j: int|
                0 <= i < j < r@.len() ==> (#[trigger] r@[i]).0@ != (#[trigger] r@[j]).0@,
            forall|d: int|
                0 <= d < self.devices@.len() ==> listed(
                    r@,
                    (#[trigger] self.devices@[d]).subnet_cidr@,
                ),
    {
        let mut r: Vec<(String, usize)> = Vec::new();
        let mut i: usize = 0;
        let ghost ds = self.devices@;
        proof {
            assert(ds.take(0) =~= Seq::empty());
        }
        while i < self.devices.len()
            invariant
                i <= self.devices@.len(),
                ds == self.devices@,
                forall|k: int|
                    0 <= k < r@.len() ==> (#[trigger] r@[k]).1 == devices_in(
                        ds.take(i as int),
                        r@[k].0@,
                    ) && 0 < r@[k].1 <= i,
                forall|a: int, b: int|
                    0 <= a < b < r@.len() ==> (#[trigger] r@[a]).0@ != (#[trigger] r@[b]).0@,
                forall|d: int| 0 <= d < i ==> listed(r@, (#[trigger] ds[d]).subnet_cidr@),
                forall|c: Seq<char>|
                    !listed(r@, c) ==> #[trigger] devices_in(ds.take(i as int), c) == 0,
            decreases self.devices@.len() - i,
        {
            let cidr = self.devices[i].subnet_cidr.as_str();
            let ghost o = r@;
            proof {
                assert(ds.take(i as int + 1).drop_last() =~= ds.take(i as int));
            }
            let mut k: usize = 0;
            while k < r.len() && !str_eq(r[k].0.as_str(), cidr)
                invariant
                    k <= r@.len(),
                    r@ == o,
                    forall|j: int| 0 <= j < k ==> (#[trigger] r@[j]).0@ != cidr@,
                decreases r@.len() - k,
            {
                k += 1;
            }
            if k < r.len() {
                let n: usize = r[k].1 + 1;
                let name = r[k].0.clone();
                r.set(k, (name, n));
            } else {
                r.push((cidr.to_owned(), 1));
                proof {
                    assert(!listed(o, cidr@));
                }
            }
            proof {
                assert forall|c: Seq<char>| listed(o, c) implies listed(r@, c) by {
                    let j = choose|j: int| 0 <= j < o.len() && (#[trigger] o[j]).0@ == c;
                    assert(r@[j].0@ == c);
                }
                assert(r@[k as int].0@ == cidr@);
                assert(listed(r@, cidr@));
                assert forall|a: int, b: int| 0 <= a < b < r@.len() implies (
                #[trigger] r@[a]).0@ != (#[trigger] r@[b]).0@ by {
                    if b < o.len() {
                        assert(o[a].0@ != o[b].0@);
                    } else {
                        assert(o[a].0@ != cidr@);
                    }
                }
                assert forall|j: int| 0 <= j < r@.len() implies (#[trigger] r@[j]).1 == devices_in(
                    ds.take(i as int + 1),
                    r@[j].0@,
                ) && 0 < r@[j].1 <= i + 1 by {
                    assert(ds.take(i as int + 1).last() == ds[i as int]);
                    if j == k {
                        if j >= o.len() {
                            assert(devices_in(ds.take(i as int), cidr@) == 0);
                        } else {
                            assert(o[j].1 == devices_in(ds.take(i as int), o[j].0@));
                        }
                    } else {
                        assert(r@[j] == o[j]);
                        assert(o[j].0@ != cidr@);
                    }
                }
                assert forall|c: Seq<char>| !listed(r@, c) implies #[trigger] devices_in(
                    ds.take(i as int + 1),
                    c,
                ) == 0 by {
                    assert(!listed(o, c));
                    assert(devices_in(ds.take(i as int), c) == 0);
                    assert(ds.take(i as int + 1).last() == ds[i as int]);
                }
            }
            i += 1;
        }
        proof {
            assert(ds.take(i as int) =~= ds);
        }
        r
    }

    /// True when this ledger was committed as a plan and the daemon must replay
    /// it verbatim without fabricating more devices.
    pub fn is_sealed(&self) -> (r: bool)
        ensures
            r == self.sealed,
    {
        self.sealed
    }

    pub fn has_subnet(&self, cidr: &str) -> (r: bool)
        ensures
            r == has_cidr(self.subnets@, cidr@),
    {
        let mut i: usize = 0;
        while i < self.subnets.len()
            invariant
                i <= self.subnets@.len(),
                forall|k: int| 0 <= k < i ==> (#[trigger] self.subnets@[k]).cidr@ != cidr@,
            decreases self.subnets@.len() - i,
        {
            if str_eq(self.subnets[i].cidr.as_str(), cidr) {
                return true;
            }
            i += 1;
        }
        false
    }

    /// Add a subnet zone if under the hard cap. Returns false if the cap or a
    /// duplicate CIDR blocks it.
    pub fn add_subnet(&mut self, rec: SubnetRecord) -> (r: bool)
        ensures
            r == (old(self).subnets@.len() < MAX_SUBNETS && !has_cidr(
                old(self).subnets@,
                rec.cidr@,
            )),
            !r ==> *final(self) == *old(self),
            r ==> {
                &&& *final(self) == old(self).with_subnets(final(self).subnets)
                &&& final(self).subnets@ == old(self).subnets@.push(rec)
            },
            old(self).wf() ==> final(self).wf(),
    {
        if self.subnets.len() >= MAX_SUBNETS || self.has_subnet(rec.cidr.as_str()) {
            return false;
        }
        self.subnets.push(rec);
        true
    }

    /// Add a device if under the hard cap. Returns false when the cap is hit,
    /// the signal to stop fabricating and only re-announce existing devices.
    pub fn add_device(&mut self, rec: DeviceRecord) -> (r: bool)
        ensures
            r == (old(self).devices@.len() < MAX_DEVICES),
            !r ==> *final(self) == *old(self),
            r ==> {
                &&& *final(self) == old(self).with_devices(final(self).devices)
                &&& final(self).devices@ == old(self).devices@.push(rec)
            },
            old(self).wf() ==> final(self).wf(),
    {
        if self.devices.len() >= MAX_DEVICES {
            return false;
        }
        self.devices.push(rec);
        true
    }

    /// Every IP already assigned to a device or a registered capture host, for
    /// uniqueness checks. A new device or capture host never collides with one.
    pub fn used_ips(&self) -> (r: HashSet<u32>)
        ensures
            r@ == self.used(),
    {
        let mut r: HashSet<u32> = HashSet::new();
        let mut i: usize = 0;
        while i < self.devices.len()
            invariant
                i <= self.devices@.len(),
                forall|ip: u32|
                    r@.contains(ip) <==> has_device_ip(self.devices@.take(i as int), #[trigger] ip_text(ip)),
            decreases self.devices@.len() - i,
        {
            let ghost o = r@;
            if let Some(ip) = parse_ip(self.devices[i].ip.as_str()) {
                r.insert(ip);
                proof {
                    assert forall|x: u32| self.devices@[i as int].ip@ == #[trigger] ip_text(x) implies x
                        == ip by {
                        crate::net::law_ip_text_injective(x, ip);
                    }
                }
            }
            proof {
                lemma_device_ip_step(self.devices@, i as int);
            }
            i += 1;
        }
        let ghost from_devices = r@;
        proof {
            assert(self.devices@.take(i as int) =~= self.devices@);
        }
        let mut j: usize = 0;
        while j < self.capture_hosts.len()
            invariant
                j <= self.capture_hosts@.len(),
                forall|ip: u32|
                    r@.contains(ip) <==> has_device_ip(self.devices@, ip_text(ip)) || has_host_ip(
                        self.capture_hosts@.take(j as int),
                        #[trigger] ip_text(ip),
                    ),
            decreases self.capture_hosts@.len() - j,
        {
            if let Some(ip) = parse_ip(self.capture_hosts[j].ip.as_str()) {
                r.insert(ip);
                proof {
                    assert forall|x: u32|
                        self.capture_hosts@[j as int].ip@ == #[trigger] ip_text(x) implies x
                        == ip by {
                        crate::net::law_ip_text_injective(x, ip);
                    }
                }
            }
            proof {
                lemma_host_ip_step(self.capture_hosts@, j as int);
            }
            j += 1;
        }
        proof {
            assert(self.capture_hosts@.take(j as int) =~= self.capture_hosts@);
            assert(r@ =~= self.used());
        }
        r
    }

    /// The next unused host IP in `net`, or None if the subnet is exhausted.
    /// Uniqueness is global across the session, so a new device never collides
    /// with one assigned in an earlier cycle or before a restart.
    pub fn next_free_ip(&self, net: Ipv4Net) -> (r: Option<u32>)
        requires
            net.wf(),
        ensures
            r == first_free(net.host_lo(), net.host_hi(), self.used()),
            r matches Some(ip) ==> net.has(ip as int) && !self.used().contains(ip),
            r is None ==> forall|ip: u32|
                net.host_lo() <= ip <= net.host_hi() ==> self.used().contains(ip),
    {
        proof {
            net.lemma_bounds();
            lemma_first_free(net.host_lo(), net.host_hi(), self.used());
        }
        let used = self.used_ips();
        let (lo, hi) = net.hosts();
        find_free(lo, hi, &used)
    }

    /// Reuse the existing subnets under fresh zone names. Called on a cycle
    /// boundary once the subnet cap prevents new zones. `namer` receives the
    /// subnet index and its record (CIDR, vendor, level) and returns the new
    /// zone name.
    pub fn rename_zones_new_cycle<F: Fn(usize, &SubnetRecord) -> String>(&mut self, namer: F)
        requires
            old(self).cycle < u64::MAX,
            forall|i: usize, s: &SubnetRecord|
                i < old(self).subnets@.len() ==> #[trigger] call_requires(namer, (i, s)),
        ensures
            *final(self) == (Session {
                cycle: (old(self).cycle + 1) as u64,
                subnets: final(self).subnets,
                ..*old(self)
            }),
            final(self).subnets@.len() == old(self).subnets@.len(),
            forall|i: int|
                0 <= i < old(self).subnets@.len() ==> {
                    &&& call_ensures(
                        namer,
                        (i as usize, &old(self).subnets@[i]),
                        (#[trigger] final(self).subnets@[i]).zone_name,
                    )
                    &&& final(self).subnets@[i] == (SubnetRecord {
                        zone_name: final(self).subnets@[i].zone_name,
                        ..old(self).subnets@[i]
                    })
                },
    {
        self.cycle += 1;
        let mut i: usize = 0;
        while i < self.subnets.len()
            invariant
                i <= self.subnets@.len(),
                forall|i: usize, s: &SubnetRecord|
                i < old(self).subnets@.len() ==> #[trigger] call_requires(namer, (i, s)),
                *self == (Session {
                    cycle: (old(self).cycle + 1) as u64,
                    subnets: self.subnets,
                    ..*old(self)
                }),
                self.subnets@.len() == old(self).subnets@.len(),
                forall|k: int|
                    0 <= k < i ==> {
                        &&& call_ensures(
                            namer,
                            (k as usize, &old(self).subnets@[k]),
                            (#[trigger] self.subnets@[k]).zone_name,
                        )
                        &&& self.subnets@[k] == (SubnetRecord {
                            zone_name: self.subnets@[k].zone_name,
                            ..old(self).subnets@[k]
                        })
                    },
                forall|k: int|
                    i <= k < self.subnets@.len() ==> #[trigger] self.subnets@[k]
                        == old(self).subnets@[k],
            decreases self.subnets@.len() - i,
        {
            let name = namer(i, &self.subnets[i]);
            self.subnets[i].zone_name = name;
            i += 1;
        }
    }
}

/// A network text occurs in a list of counts.
pub open spec fn listed(r: Seq<(String, usize)>, cidr: Seq<char>) -> bool {
    exists|k: int| 0 <= k < r.len() && (#[trigger] r[k]).0@ == cidr
}

proof fn lemma_device_ip_step(ds: Seq<DeviceRecord>, i: int)
    requires
        0 <= i < ds.len(),
    ensures
        forall|t: Seq<char>|
            #![trigger has_device_ip(ds.take(i + 1), t)]
            has_device_ip(ds.take(i + 1), t) <==> has_device_ip(ds.take(i), t) || ds[i].ip@ == t,
{
    let a = ds.take(i);
    let b = ds.take(i + 1);
    assert forall|t: Seq<char>|
        #![trigger has_device_ip(b, t)]
        has_device_ip(b, t) <==> has_device_ip(a, t) || ds[i].ip@ == t by {
        if has_device_ip(a, t) {
            let k = choose|k: int| 0 <= k < a.len() && (#[trigger] a[k]).ip@ == t;
            assert(b[k].ip@ == t);
        }
        if ds[i].ip@ == t {
            assert(b[i].ip@ == t);
        }
        if has_device_ip(b, t) {
            let k = choose|k: int| 0 <= k < b.len() && (#[trigger] b[k]).ip@ == t;
            if k < i {
                assert(a[k].ip@ == t);
            }
        }
    }
}

proof fn lemma_host_ip_step(hs: Seq<CaptureHostRecord>, i: int)
    requires
        0 <= i < hs.len(),
    ensures
        forall|t: Seq<char>|
            #![trigger has_host_ip(hs.take(i + 1), t)]
            has_host_ip(hs.take(i + 1), t) <==> has_host_ip(hs.take(i), t) || hs[i].ip@ == t,
{
    let a = hs.take(i);
    let b = hs.take(i + 1);
    assert forall|t: Seq<char>|
        #![trigger has_host_ip(b, t)]
        has_host_ip(b, t) <==> has_host_ip(a, t) || hs[i].ip@ == t by {
        if has_host_ip(a, t) {
            let k = choose|k: int| 0 <= k < a.len() && (#[trigger] a[k]).ip@ == t;
            assert(b[k].ip@ == t);
        }
        if hs[i].ip@ == t {
            assert(b[i].ip@ == t);
        }
        if has_host_ip(b, t) {
            let k = choose|k: int| 0 <= k < b.len() && (#[trigger] b[k]).ip@ == t;
            if k < i {
                assert(a[k].ip@ == t);
            }
        }
    }
}

/// A device given the next free address is in use afterwards, so the same
/// address is never handed out twice.
pub proof fn law_next_free_is_unique(s: Session, after: Session, net: Ipv4Net, ip: u32, rec: DeviceRecord)
    requires
        net.wf(),
        first_free(net.host_lo(), net.host_hi(), s.used()) == Some(ip),
        rec.ip@ == ip_text(ip),
        after.devices@ == s.devices@.push(rec),
        after.capture_hosts@ == s.capture_hosts@,
    ensures
        !s.used().contains(ip),
        after.used().contains(ip),
        first_free(net.host_lo(), net.host_hi(), after.used()) != Some(ip),
        s.used().subset_of(after.used()),
{
    net.lemma_bounds();
    lemma_first_free(net.host_lo(), net.host_hi(), s.used());
    lemma_first_free(net.host_lo(), net.host_hi(), after.used());
    assert(after.devices@[s.devices@.len() as int].ip@ == ip_text(ip));
    assert forall|x: u32| s.used().contains(x) implies after.used().contains(x) by {
        if has_device_ip(s.devices@, ip_text(x)) {
            let k = choose|k: int| 0 <= k < s.devices@.len() && (#[trigger] s.devices@[k]).ip@ == ip_text(x);
            assert(after.devices@[k].ip@ == ip_text(x));
        }
    }
}

/// A cap that is configured between one and the hard cap is kept, a higher one
/// comes down to the hard cap, and none is ever zero; without one the default
/// stands.
pub proof fn law_caps_are_clamped(configured: Option<usize>, default: usize, hard: usize)
    requires
        1 <= default <= hard,
    ensures
        1 <= capped(configured, default, hard) <= hard,
        configured is None ==> capped(configured, default, hard) == default,
        configured is Some && 1 <= configured->0 <= hard ==> capped(configured, default, hard)
            == configured->0,
        configured is Some && configured->0 > hard ==> capped(configured, default, hard) == hard,
{
}

/// As many devices are counted in a zone as stand in it.
pub proof fn law_devices_are_counted(devices: Seq<DeviceRecord>, cidr: Seq<char>)
    ensures
        devices_in(devices, cidr) == devices.filter(|d: DeviceRecord| d.subnet_cidr@ == cidr).len(),
    decreases devices.len(),
{
    reveal(Seq::filter);
    if devices.len() > 0 {
        law_devices_are_counted(devices.drop_last(), cidr);
    }
}

} // verus!
