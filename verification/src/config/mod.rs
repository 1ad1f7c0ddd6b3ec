//! Replay configuration: the schema everything else keys off.
//!
//! Rate and gap use a flat shape: a kind and optional parameters. Semantic
//! checks live in `Config::validate`, so a config that passes is also coherent.

pub mod number;
pub mod tree;
pub mod validate;
pub mod validate_laws;
pub mod yaml;

use vstd::prelude::*;
use crate::config::number::Real;
use crate::text::texts;

verus! {

/// A whole replay configuration.
#[derive(Debug)]
pub struct Config {
    /// Replay NIC on the isolated bridge. Also the mirror source port.
    pub iface: String,
    pub mode: Mode,
    /// Green-laser master seed. Ignored in red laser, which uses entropy.
    pub seed: Option<u64>,
    pub paths: Paths,
    pub l3: L3Cfg,
    pub rate: RateCfg,
    pub gap: GapCfg,
    pub weights: Weights,
    pub watchdog: Watchdog,
    pub net: NetCfg,
    pub no_pcaps_retry_secs: u64,
    pub zones: ZonesCfg,
    pub synthesis: SynthesisCfg,
    pub dns: DnsCfg,
    pub north_south: NorthSouthCfg,
    pub threats: ThreatsCfg,
    pub session: SessionCfg,
    pub oui_db: OuiDbCfg,
    /// Present only when a scenario pack is loaded.
    pub target: Option<TargetCfg>,
}

/// Replay mode: a fabricated plant, or a reproducible baseline.
#[derive(Clone, Copy, Debug, PartialEq, Eq, Structural)]
pub enum Mode {
    RedLaser,
    GreenLaser,
}

/// The string that a mode goes by in the config and the status.
pub open spec fn mode_tag(m: Mode) -> Seq<char> {
    match m {
        Mode::RedLaser => "red_laser"@,
        Mode::GreenLaser => "green_laser"@,
    }
}

impl Mode {
    /// Canonical config and status string for this mode.
    pub fn as_str(self) -> (r: &'static str)
        ensures
            r@ == mode_tag(self),
    {
        match self {
            Mode::RedLaser => "red_laser",
            Mode::GreenLaser => "green_laser",
        }
    }
}

impl Default for Mode {
    fn default() -> (r: Self)
        ensures
            r == Mode::RedLaser,
    {
        Mode::RedLaser
    }
}

/// Where captures, variants and state are kept.
#[derive(Debug)]
pub struct Paths {
    pub pool: String,
    pub variants: String,
    pub shm_dir: String,
    pub status_file: String,
}

/// The coherent address remap.
#[derive(Debug)]
pub struct L3Cfg {
    /// Apply the coherent L3 remap per run in red-laser mode.
    pub remap: bool,
    /// Rewrite Ethernet and ARP MAC addresses alongside IPv4.
    pub remap_mac: bool,
    /// Optional CIDR hints for grouping hosts into subnets.
    pub subnets: Vec<String>,
    /// How replayed hosts are mapped onto the fabricated zones.
    pub zone_affinity: ZoneAffinity,
    /// Hard ceiling on capture size to remap; a larger capture is skipped.
    pub max_remap_bytes: u64,
    /// What to do with a capture over the tmpfs budget.
    pub on_oversize: OversizePolicy,
    /// Refuse to send a raw capture that carries a public source address.
    pub guard_public_sources: bool,
    /// Drop any frame whose on-wire length exceeds this before replay.
    pub max_frame_bytes: usize,
    /// Replay the capture's own broadcast ARP.
    pub replay_capture_arp: bool,
}

impl Default for L3Cfg {
    fn default() -> (r: Self)
        ensures
            r.remap && r.remap_mac && r.guard_public_sources && !r.replay_capture_arp,
            r.subnets@.len() == 0,
            r.zone_affinity == ZoneAffinity::Both,
            r.max_remap_bytes == 2 * 1024 * 1024 * 1024,
            r.on_oversize == OversizePolicy::RemapToDisk,
            r.max_frame_bytes == 1514,
    {
        L3Cfg {
            remap: true,
            remap_mac: true,
            subnets: Vec::new(),
            zone_affinity: ZoneAffinity::Both,
            max_remap_bytes: 2 * 1024 * 1024 * 1024,
            on_oversize: OversizePolicy::RemapToDisk,
            guard_public_sources: true,
            max_frame_bytes: 1514,
            replay_capture_arp: false,
        }
    }
}

/// What the remap does with a capture too large for the tmpfs budget.
#[derive(Clone, Copy, Debug, PartialEq, Eq, Structural)]
pub enum OversizePolicy {
    /// Remap to a disk temp dir beside the source capture.
    RemapToDisk,
    /// Skip the capture entirely.
    Skip,
}

impl Default for OversizePolicy {
    fn default() -> (r: Self)
        ensures
            r == OversizePolicy::RemapToDisk,
    {
        OversizePolicy::RemapToDisk
    }
}

/// How the red-laser remap places a replayed capture's hosts into the
/// fabricated ledger zones.
#[derive(Clone, Copy, Debug, PartialEq, Eq, Structural)]
pub enum ZoneAffinity {
    /// Vendor first, then protocol, then Purdue level, then size.
    Both,
    /// Vendor match only, else size-ordered.
    Vendor,
    /// Protocol match only, else size-ordered.
    Protocol,
    /// Size-ordered placement, vendor and protocol left aside.
    Off,
}

impl Default for ZoneAffinity {
    fn default() -> (r: Self)
        ensures
            r == ZoneAffinity::Both,
    {
        ZoneAffinity::Both
    }
}

/// Replay rate.
#[derive(Clone, Copy, Debug)]
pub struct RateCfg {
    pub model: RateModel,
    pub multiplier: Option<Real>,
    pub pps: Option<Real>,
    pub pps_multi: Option<u32>,
    pub mbps: Option<Real>,
    /// Per-run fixed Mbps band, which takes precedence over a bare `mbps`.
    pub mbps_min: Option<Real>,
    pub mbps_max: Option<Real>,
}

/// How the replay rate is set.
#[derive(Clone, Copy, Debug, PartialEq, Eq, Structural)]
pub enum RateModel {
    Original,
    Multiplier,
    Pps,
    Mbps,
    Topspeed,
}

impl Default for RateModel {
    fn default() -> (r: Self)
        ensures
            r == RateModel::Original,
    {
        RateModel::Original
    }
}

/// Pause between runs.
#[derive(Clone, Copy, Debug)]
pub struct GapCfg {
    pub dist: GapDist,
    pub mean_secs: Option<Real>,
    pub min_secs: Option<Real>,
    pub max_secs: Option<Real>,
    pub stddev_secs: Option<Real>,
    pub lower_secs: Option<Real>,
    pub upper_secs: Option<Real>,
}

/// The distribution that a pause is drawn from.
#[derive(Clone, Copy, Debug, PartialEq, Eq, Structural)]
pub enum GapDist {
    ExpPoisson,
    TruncNormal,
}

impl Default for GapDist {
    fn default() -> (r: Self)
        ensures
            r == GapDist::ExpPoisson,
    {
        GapDist::ExpPoisson
    }
}

/// How likely each capture is to be picked.
#[derive(Debug)]
pub struct Weights {
    pub default: Real,
    pub globs: Vec<GlobWeight>,
    /// Weights by file name.
    pub files: Vec<(String, Real)>,
}

impl Default for Weights {
    fn default() -> (r: Self)
        ensures
            r.default.bits == 0x3FF0_0000_0000_0000,
            r.globs@.len() == 0,
            r.files@.len() == 0,
    {
        Weights {
            default: Real { bits: 0x3FF0_0000_0000_0000 },
            globs: Vec::new(),
            files: Vec::new(),
        }
    }
}

/// A weight for every name that a pattern matches.
#[derive(Debug)]
pub struct GlobWeight {
    pub pattern: String,
    pub weight: Real,
}

/// Flatline detection.
#[derive(Clone, Copy, Debug)]
pub struct Watchdog {
    pub poll_secs: u64,
    pub flatline_secs: u64,
}

impl Default for Watchdog {
    fn default() -> (r: Self)
        ensures
            r.poll_secs == 2,
            r.flatline_secs == 10,
    {
        Watchdog { poll_secs: 2, flatline_secs: 10 }
    }
}

/// The bridge and its mirror.
#[derive(Debug)]
pub struct NetCfg {
    pub mirror: MirrorMode,
    pub bridge: String,
    pub sensor_port: String,
}

impl Default for NetCfg {
    fn default() -> (r: Self)
        ensures
            r.mirror == MirrorMode::Tc,
            r.bridge@ == "tlbr0"@,
            r.sensor_port@ == "sens0"@,
    {
        NetCfg {
            mirror: MirrorMode::Tc,
            bridge: "tlbr0".to_owned(),
            sensor_port: "sens0".to_owned(),
        }
    }
}

/// What mirrors the bridge to the sensor.
#[derive(Clone, Copy, Debug, PartialEq, Eq, Structural)]
pub enum MirrorMode {
    Tc,
    Ovs,
}

impl Default for MirrorMode {
    fn default() -> (r: Self)
        ensures
            r == MirrorMode::Tc,
    {
        MirrorMode::Tc
    }
}

impl MirrorMode {
    /// Canonical string passed to the net scripts and shown by net-show.
    pub fn as_str(self) -> (r: &'static str)
        ensures
            r@ == match self {
                MirrorMode::Tc => "tc"@,
                MirrorMode::Ovs => "ovs"@,
            },
    {
        match self {
            MirrorMode::Tc => "tc",
            MirrorMode::Ovs => "ovs",
        }
    }
}

/// Red-laser zone fabrication. The hard caps live in the ledger; config can
/// lower them but never raise them.
#[derive(Clone, Copy, Debug)]
pub struct ZonesCfg {
    pub enabled: bool,
    /// Cap on distinct subnet zones.
    pub max_subnets: Option<usize>,
    /// Prefix length for fabricated zone subnets.
    pub default_prefix: u8,
}

impl Default for ZonesCfg {
    fn default() -> (r: Self)
        ensures
            r == (ZonesCfg { enabled: true, max_subnets: None, default_prefix: 24 }),
    {
        ZonesCfg { enabled: true, max_subnets: None, default_prefix: 24 }
    }
}

/// Red-laser packet synthesis: device-identity assertions and switch beacons.
#[derive(Clone, Copy, Debug)]
pub struct SynthesisCfg {
    pub enabled: bool,
    pub switch_beacons: bool,
    pub device_identity: bool,
    /// Re-announce device identity every Nth run. 1 means every run.
    pub identity_every_n_runs: u64,
    /// Minimum seconds between identity bursts.
    pub announce_interval_secs: u64,
    /// Re-label zones with fresh names every Nth run; 0 disables.
    pub cycle_every_n_runs: u64,
    /// Cap on fabricated devices.
    pub max_devices: Option<usize>,
    /// Intended fabricated fleet size.
    pub target_devices: usize,
    /// Total wire-asset cap: fabricated devices plus capture-derived assets.
    pub max_assets: Option<usize>,
}

impl Default for SynthesisCfg {
    fn default() -> (r: Self)
        ensures
            r == (SynthesisCfg {
                enabled: true,
                switch_beacons: true,
                device_identity: true,
                identity_every_n_runs: 1,
                announce_interval_secs: 25,
                cycle_every_n_runs: 0,
                max_devices: None,
                target_devices: 64,
                max_assets: None,
            }),
    {
        SynthesisCfg {
            enabled: true,
            switch_beacons: true,
            device_identity: true,
            identity_every_n_runs: 1,
            announce_interval_secs: 25,
            cycle_every_n_runs: 0,
            max_devices: None,
            target_devices: 64,
            max_assets: None,
        }
    }
}

/// Shared DNS domain identity of the fabricated zones.
#[derive(Debug)]
pub struct DnsCfg {
    pub enabled: bool,
    /// Site domains; most zones take the first.
    pub domains: Vec<String>,
}

impl Default for DnsCfg {
    fn default() -> (r: Self)
        ensures
            r.enabled,
            texts(r.domains@) == seq!["plant.corp.example"@, "dmz.corp.example"@],
    {
        let mut domains: Vec<String> = Vec::new();
        domains.push("plant.corp.example".to_owned());
        domains.push("dmz.corp.example".to_owned());
        proof {
            assert(texts(domains@) =~= seq!["plant.corp.example"@, "dmz.corp.example"@]);
        }
        DnsCfg { enabled: true, domains }
    }
}

/// Bounded cross-zone sessions between adjacent Purdue zones.
#[derive(Clone, Copy, Debug)]
pub struct NorthSouthCfg {
    pub enabled: bool,
    /// Bounded flows per adjacent zone pair, so the wire carries no scan.
    pub max_flows_per_pair: usize,
    /// Emit the crossings every Nth run.
    pub cadence_runs: u64,
}

impl Default for NorthSouthCfg {
    fn default() -> (r: Self)
        ensures
            r == (NorthSouthCfg { enabled: false, max_flows_per_pair: 2, cadence_runs: 2 }),
    {
        NorthSouthCfg { enabled: false, max_flows_per_pair: 2, cadence_runs: 2 }
    }
}

/// External-threat host promotion.
#[derive(Debug)]
pub struct ThreatsCfg {
    pub enabled: bool,
    pub min_interval_secs: u64,
    pub max_interval_secs: u64,
    /// Non-RFC1918 source ranges a promoted host appears to come from.
    pub external_cidrs: Vec<String>,
}

impl Default for ThreatsCfg {
    fn default() -> (r: Self)
        ensures
            r.enabled,
            r.min_interval_secs == 172_800,
            r.max_interval_secs == 1_209_600,
            texts(r.external_cidrs@) == seq!["198.51.100.0/24"@, "203.0.113.0/24"@],
    {
        let mut external_cidrs: Vec<String> = Vec::new();
        external_cidrs.push("198.51.100.0/24".to_owned());
        external_cidrs.push("203.0.113.0/24".to_owned());
        proof {
            assert(texts(external_cidrs@) =~= seq!["198.51.100.0/24"@, "203.0.113.0/24"@]);
        }
        ThreatsCfg {
            enabled: true,
            min_interval_secs: 172_800,
            max_interval_secs: 1_209_600,
            external_cidrs,
        }
    }
}

/// Persistent red-laser session ledger.
#[derive(Debug)]
pub struct SessionCfg {
    pub path: String,
    /// Seed that makes a red-laser session reproducible.
    pub seed: Option<u64>,
}

impl Default for SessionCfg {
    fn default() -> (r: Self)
        ensures
            r.path@ == "/var/lib/ot-turbolaser/session.json"@,
            r.seed is None,
    {
        SessionCfg { path: "/var/lib/ot-turbolaser/session.json".to_owned(), seed: None }
    }
}

/// Paths to the OUI and vulnerable-profile databases.
#[derive(Debug)]
pub struct OuiDbCfg {
    pub path: String,
    pub vuln_path: String,
}

impl Default for OuiDbCfg {
    fn default() -> (r: Self)
        ensures
            r.path@ == "/opt/replay/data/oui.csv"@,
            r.vuln_path@ == "/opt/replay/data/vuln_profiles.toml"@,
    {
        OuiDbCfg {
            path: "/opt/replay/data/oui.csv".to_owned(),
            vuln_path: "/opt/replay/data/vuln_profiles.toml".to_owned(),
        }
    }
}

/// Active target-scenario overlay.
#[derive(Clone, Debug)]
pub struct TargetCfg {
    /// Scenario identifier, which is also the pack directory's name.
    pub name: String,
    /// One-line human description.
    pub description: Option<String>,
    /// CVE-profile pack, relative to the pack dir.
    pub profiles: String,
    /// Phased attack playbook, relative to the pack dir.
    pub playbook: String,
    /// Plant spec, relative to the pack dir.
    pub plant: String,
    /// One-shot campaign or loop.
    pub campaign: Campaign,
    /// Cap on attack-action frames appended to a single burst.
    pub max_frames_per_burst: usize,
    /// Emit the published network indicators, or documentation stand-ins.
    pub ioc_fidelity: IocFidelity,
    /// Threat-actor network identity.
    pub actors: ActorsCfg,
    /// Absolute pack directory, filled by the loader.
    pub pack_dir: String,
}

/// Whether a scenario timeline runs once or repeats.
#[derive(Clone, Copy, Debug, PartialEq, Eq, Structural)]
pub enum Campaign {
    /// Run the phases once, and hold the final (impact) phase.
    Oneshot,
    /// Restart from the first phase after the last.
    Loop,
}

impl Default for Campaign {
    fn default() -> (r: Self)
        ensures
            r == Campaign::Oneshot,
    {
        Campaign::Oneshot
    }
}

/// How literal the emitted network indicators are.
#[derive(Clone, Copy, Debug, PartialEq, Eq, Structural)]
pub enum IocFidelity {
    /// The published indicators from the pack.
    Real,
    /// A documentation stand-in for every network indicator.
    Standin,
}

impl Default for IocFidelity {
    fn default() -> (r: Self)
        ensures
            r == IocFidelity::Real,
    {
        IocFidelity::Real
    }
}

/// Threat-actor network identity for a scenario.
#[derive(Clone, Debug)]
pub struct ActorsCfg {
    /// Non-RFC1918 source ranges the actor appears to operate from.
    pub external_cidrs: Vec<String>,
    /// C2 domains resolved or queried during the campaign.
    pub c2_domains: Vec<String>,
    /// C2 IPv4 addresses contacted during the campaign.
    pub c2_ips: Vec<String>,
    /// Named artifacts surfaced as host-level indicators.
    pub artifacts: Vec<String>,
}

impl Default for ActorsCfg {
    fn default() -> (r: Self)
        ensures
            r.external_cidrs@.len() == 0,
            r.c2_domains@.len() == 0,
            r.c2_ips@.len() == 0,
            r.artifacts@.len() == 0,
    {
        ActorsCfg {
            external_cidrs: Vec::new(),
            c2_domains: Vec::new(),
            c2_ips: Vec::new(),
            artifacts: Vec::new(),
        }
    }
}

/// The first character of a path is a slash.
pub open spec fn absolute(p: Seq<char>) -> bool {
    p.len() > 0 && p[0] == '/'
}

/// A bare slug: a name that picks one directory below `targets/` and cannot
/// lead out of it.
pub open spec fn slug(name: Seq<char>) -> bool {
    &&& crate::text::trimmed(name).len() > 0
    &&& !name.contains('/')
    &&& !name.contains('\\')
    &&& !name.contains('.')
}

/// Whether a text can name a scenario.
pub fn is_scenario_name(name: &str) -> (r: bool)
    ensures
        r == slug(name@),
{
    if crate::text::is_blank(name) {
        return false;
    }
    let cs = crate::text::chars_of(name);
    let mut i: usize = 0;
    while i < cs.len()
        invariant
            i <= cs@.len(),
            cs@ == name@,
            forall|k: int|
                0 <= k < i ==> #[trigger] cs@[k] != '/' && cs@[k] != '\\' && cs@[k] != '.',
        decreases cs@.len() - i,
    {
        let c: char = cs[i];
        if c == '/' || c == '\\' || c == '.' {
            proof {
                assert(name@[i as int] == c);
                assert(name@.contains(c));
            }
            return false;
        }
        i += 1;
    }
    true
}

} // verus!
