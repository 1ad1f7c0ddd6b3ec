//! Planning a plant.

use vstd::prelude::*;
use crate::config::Config;
use crate::ledger::{
    capped, device_models, effective_asset_cap, effective_device_cap, effective_subnet_cap,
    subnet_models, Session, SubnetModel, DEFAULT_MAX_ASSETS, MAX_DEVICES, MAX_SUBNETS, SCHEMA,
};
use crate::net::{ip_text, net_text};
use crate::oui::OuiDb;
use crate::rng::{rng_from_seed, rng_words, seeded_words};
use crate::scenario::engine::or;
use crate::scenario::plant::{holds_ip, lemma_taken, taken};
use crate::simulate::devices::{
    all_used, any_core, distinct_ips, fab_of, fabricate, law_fabricate, AllocParams, Fab,
};
use crate::simulate::enrich::{
    assign_domains, create_l3_zones, enrich_plant, l3_vendor, l3_zones,
    law_enrich_keeps_addresses_distinct, same_but_names, with_domains, Stock,
};
use crate::simulate::enrich_laws::{law_operations_zones, law_zones_share_the_sites_domains};
use crate::simulate::zones::zone_name;
use crate::text::texts;
use crate::vuln::VulnDb;

verus! {

/// The allocation limits of a configuration.
pub open spec fn params_of(cfg: Config) -> AllocParams {
    AllocParams {
        max_subnets: capped(cfg.zones.max_subnets, MAX_SUBNETS, MAX_SUBNETS),
        max_devices: capped(cfg.synthesis.max_devices, MAX_DEVICES, MAX_DEVICES),
        default_prefix: cfg.zones.default_prefix,
    }
}

/// The allocation limits of a configuration.
pub fn alloc_params(cfg: &Config) -> (r: AllocParams)
    ensures
        r == params_of(*cfg),
{
    AllocParams {
        max_subnets: effective_subnet_cap(cfg.zones.max_subnets),
        max_devices: effective_device_cap(cfg.synthesis.max_devices),
        default_prefix: cfg.zones.default_prefix,
    }
}

/// The control zones' share of the limits: ten zones at most.
pub open spec fn field_params(p: AllocParams) -> AllocParams {
    AllocParams {
        max_subnets: if p.max_subnets < 10 {
            p.max_subnets
        } else {
            10
        },
        ..p
    }
}

/// A plant with nothing in it, and a fresh generator.
pub open spec fn empty_fab(seed: u64) -> Fab {
    Fab {
        subnets: Seq::empty(),
        devices: Seq::empty(),
        used: Set::empty(),
        words: seeded_words(seed),
    }
}

/// The control zones and their devices.
pub open spec fn field_plant(cfg: Config, vuln: VulnDb, seed: u64, devices: Option<usize>) -> Fab {
    let p = field_params(params_of(cfg));
    let target = or(devices, cfg.synthesis.target_devices);
    empty_fab(seed).fabricate(
        vuln.profiles@,
        p,
        if target < p.max_devices {
            target as nat
        } else {
            p.max_devices as nat
        },
    )
}

/// The plant with its operations zones, and its domains where they are enabled.
pub open spec fn zoned_plant(cfg: Config, vuln: VulnDb, seed: u64, devices: Option<usize>) -> Fab {
    let f = l3_zones(field_plant(cfg, vuln, seed, devices), params_of(cfg), 3);
    if cfg.dns.enabled {
        Fab { subnets: with_domains(f.subnets, texts(cfg.dns.domains@), seed), ..f }
    } else {
        f
    }
}

/// The plant that the supporting cast is added to: the zones and devices so far,
/// with the addresses of the devices taken.
pub open spec fn cast_base(z: Fab) -> Fab {
    Fab { used: taken(z.devices), words: Seq::empty(), ..z }
}

/// A planned session: the control zones within the field-zone budget, up to three
/// operations zones above them, their domains, and the supporting cast. Returns the
/// number of devices fabricated in the control zones with it.
pub fn plan_session(
    cfg: &Config,
    vuln: &VulnDb,
    oui: &OuiDb,
    seed: u64,
    now_unix: u64,
    devices: Option<usize>,
) -> (r: (Session, usize))
    requires
        vuln.profiles@.len() > 0,
    ensures
        ({
            let s = r.0;
            let st = Stock { profiles: vuln.profiles@, rows: oui@, seed };
            let z = zoned_plant(*cfg, *vuln, seed, devices);
            &&& r.1 == field_plant(*cfg, *vuln, seed, devices).devices.len()
            &&& subnet_models(s.subnets@) == z.subnets
            &&& device_models(s.devices@) == st.enrich(cast_base(z)).devices
            &&& s.wf()
            &&& s.schema == SCHEMA
            &&& s.created_unix == now_unix
            &&& s.seed == seed
            &&& s.cycle == 0
            &&& s.promoted@.len() == 0
            &&& s.last_threat_unix is None
            &&& !s.sealed
            &&& s.target_devices == s.devices@.len()
            &&& s.capture_hosts@.len() == 0
            &&& s.registry_generation == 0
            &&& s.max_assets == capped(cfg.synthesis.max_assets, DEFAULT_MAX_ASSETS, MAX_DEVICES)
            &&& s.scenario is None
        }),
{
    let mut rng = rng_from_seed(seed);
    let params = alloc_params(cfg);
    let target: usize = match devices {
        Some(n) => n,
        None => cfg.synthesis.target_devices,
    };
    let mut s = Session::new(seed, now_unix);
    let field = AllocParams {
        max_subnets: if params.max_subnets < 10 {
            params.max_subnets
        } else {
            10
        },
        max_devices: params.max_devices,
        default_prefix: params.default_prefix,
    };
    proof {
        assert(subnet_models(s.subnets@) =~= Seq::empty());
        assert(device_models(s.devices@) =~= Seq::empty());
        assert(s.used() =~= Set::empty());
        assert(fab_of(s, s.used(), rng_words(rng)) == empty_fab(seed));
    }
    let added: usize = fabricate(&mut s, vuln, &field, target, &mut rng);
    let ghost f1 = field_plant(*cfg, *vuln, seed, devices);
    proof {
        assert(fab_of(s, f1.used, rng_words(rng)) == f1);
    }
    create_l3_zones(&mut s, &params, 3, &mut rng);
    proof {
        assert(fab_of(s, f1.used, rng_words(rng)) == l3_zones(f1, params, 3));
    }
    if cfg.dns.enabled {
        assign_domains(&mut s, cfg.dns.domains.as_slice(), seed);
    }
    let ghost z = zoned_plant(*cfg, *vuln, seed, devices);
    let ghost f2 = fab_of(s, s.used(), Seq::empty());
    proof {
        lemma_taken(s);
        assert(f2 == cast_base(z));
    }
    enrich_plant(&mut s, vuln, oui, seed);
    s.target_devices = s.device_count();
    s.max_assets = effective_asset_cap(cfg.synthesis.max_assets);
    (s, added)
}

/// A committed plan may be written: there is none yet, or it is to be replaced.
pub fn may_commit(existing: bool, force: bool) -> (r: bool)
    ensures
        r == (!existing || force),
{
    !existing || force
}

proof fn lemma_l3_zones_keep_devices(f: Fab, params: AllocParams, count: nat)
    ensures
        l3_zones(f, params, count).devices == f.devices,
    decreases count,
{
    if !(count == 0 || f.subnets.len() >= params.max_subnets) {
        let (net, g) = f.fresh(params);
        let idx = f.subnets.len();
        let vendor = l3_vendor(idx as int);
        let s = SubnetModel {
            cidr: net_text(net),
            zone_name: zone_name(Some(vendor), None, 3, idx),
            purdue_level: 3,
            vendor: Some(vendor),
            domain: None,
        };
        let h = match g.add_subnet(s) {
            Some(h) => h,
            None => g,
        };
        lemma_l3_zones_keep_devices(h, params, (count - 1) as nat);
    }
}

/// No two assets of a plan share an address, and its control zones' devices stand
/// first, as fabricated but for their hostnames.
pub proof fn law_planned_addresses_are_distinct(
    cfg: Config,
    vuln: VulnDb,
    rows: Seq<(u32, Seq<char>)>,
    seed: u64,
    devices: Option<usize>,
)
    requires
        vuln.profiles@.len() <= usize::MAX,
    ensures
        ({
            let st = Stock { profiles: vuln.profiles@, rows, seed };
            let all = st.enrich(cast_base(zoned_plant(cfg, vuln, seed, devices))).devices;
            let field = field_plant(cfg, vuln, seed, devices).devices;
            &&& distinct_ips(all)
            &&& all.len() >= field.len()
            &&& same_but_names(field, all.take(field.len() as int))
        }),
{
    let p = field_params(params_of(cfg));
    let target = or(devices, cfg.synthesis.target_devices);
    let goal = if target < p.max_devices {
        target as nat
    } else {
        p.max_devices as nat
    };
    law_fabricate(empty_fab(seed), vuln.profiles@, p, goal);
    lemma_l3_zones_keep_devices(field_plant(cfg, vuln, seed, devices), params_of(cfg), 3);
    let st = Stock { profiles: vuln.profiles@, rows, seed };
    let base = cast_base(zoned_plant(cfg, vuln, seed, devices));
    assert(all_used(base.devices, base.used)) by {
        assert forall|i: int, ip: u32|
            0 <= i < base.devices.len() && (#[trigger] base.devices[i]).ip == #[trigger] ip_text(
                ip,
            ) implies base.used.contains(ip) by {
            assert(holds_ip(base.devices, ip_text(ip)));
        }
    }
    law_enrich_keeps_addresses_distinct(st, base);
}

/// A planned plant has at most ten control zones and no more devices in them than
/// asked for; at most three operations zones, all at level 3, come behind them and
/// hold no device yet; and with domains enabled and given every zone has one.
pub proof fn law_shape_of_a_planned_plant(
    cfg: Config,
    vuln: VulnDb,
    seed: u64,
    devices: Option<usize>,
)
    requires
        any_core(vuln.profiles@),
        vuln.profiles@.len() <= usize::MAX,
    ensures
        ({
            let f = field_plant(cfg, vuln, seed, devices);
            let z = zoned_plant(cfg, vuln, seed, devices);
            &&& f.subnets.len() <= 10
            &&& devices is Some ==> f.devices.len() <= devices->0
            &&& devices is None ==> f.devices.len() <= cfg.synthesis.target_devices
            &&& z.devices == f.devices
            &&& f.subnets.len() <= z.subnets.len() <= f.subnets.len() + 3
            &&& forall|i: int|
                f.subnets.len() <= i < z.subnets.len() ==> (#[trigger] z.subnets[i]).purdue_level
                    == 3
            &&& cfg.dns.enabled && cfg.dns.domains@.len() > 0 ==> forall|i: int|
                0 <= i < z.subnets.len() ==> (#[trigger] z.subnets[i]).domain is Some
        }),
{
    let p = field_params(params_of(cfg));
    let target = or(devices, cfg.synthesis.target_devices);
    let goal = if target < p.max_devices {
        target as nat
    } else {
        p.max_devices as nat
    };
    law_fabricate(empty_fab(seed), vuln.profiles@, p, goal);
    let f = field_plant(cfg, vuln, seed, devices);
    law_operations_zones(f, params_of(cfg), 3);
    let g = l3_zones(f, params_of(cfg), 3);
    let z = zoned_plant(cfg, vuln, seed, devices);
    let domains = texts(cfg.dns.domains@);
    if cfg.dns.enabled && domains.len() > 0 {
        assert forall|i: int| 0 <= i < z.subnets.len() implies (
        #[trigger] z.subnets[i]).purdue_level == g.subnets[i].purdue_level
            && z.subnets[i].domain is Some by {
            law_zones_share_the_sites_domains(g.subnets, domains, seed, i);
        }
    }
}

} // verus!
