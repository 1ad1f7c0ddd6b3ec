//! The target-scenario framework.
//!
//! A scenario is a data pack that pins a specific attack on top of red laser: its
//! document is laid over the base config, its profiles overlay the profile
//! database, its plant is fabricated as a sealed ledger, and its playbook drives
//! the phased attack. Without a scenario red laser's generic behaviour stands.

pub mod action;
pub mod action_laws;
pub mod burst;
pub mod document;
pub mod engine;
pub mod hex;
pub mod plant;
pub mod plant_laws;
pub mod playbook;
pub mod registry;
pub mod report;

use vstd::prelude::*;
use crate::config::validate::{first_fault, lemma_fault_ahead, verdict};
use crate::config::{Config, TargetCfg};
use crate::ledger::Session;
use crate::oui::OuiDb;
use crate::scenario::document::Read;
use crate::scenario::engine::{engine_fault, or, phase_target_fault, ScenarioEngine};
use crate::scenario::plant::{
    loaded_plant, pin_from_pack, pinned_as, plant_fault, DeviceSpec, PlantSpec,
};
use crate::scenario::playbook::{loaded_playbook, Playbook};
use crate::simulate::enrich::Stock;
use crate::text::{is_blank, opt_str, opt_text, quote, quoted, str_eq, texts, trimmed};
use crate::vuln::{model_place, VulnDb};

verus! {

/// What a ledger of another scenario is refused with.
pub open spec fn mismatch(ledger: Option<Seq<char>>, active: Option<Seq<char>>) -> Seq<char> {
    "session ledger belongs to scenario "@ + or(ledger, "<generic>"@)
        + " but the active config is "@ + or(active, "<generic>"@)
        + "; run `turbolaser reset` (matching --scenario) for a fresh plant"@
}

/// Refuse a ledger whose scenario tag does not match the active scenario, so that
/// a generic daemon never re-announces a scenario plant and a scenario run never
/// replays a generic ledger.
pub fn guard_ledger_scenario(ledger: Option<&str>, active: Option<&str>) -> (r: Result<(), String>)
    ensures
        match r {
            Ok(_) => opt_str(ledger) == opt_str(active),
            Err(e) => opt_str(ledger) != opt_str(active) && e@ == mismatch(
                opt_str(ledger),
                opt_str(active),
            ),
        },
{
    let same: bool = match (ledger, active) {
        (None, None) => true,
        (Some(a), Some(b)) => str_eq(a, b),
        _ => false,
    };
    if same {
        return Ok(());
    }
    let mut e = "session ledger belongs to scenario ".to_owned();
    match ledger {
        Some(a) => e.append(a),
        None => e.append("<generic>"),
    }
    e.append(" but the active config is ");
    match active {
        Some(b) => e.append(b),
        None => e.append("<generic>"),
    }
    e.append("; run `turbolaser reset` (matching --scenario) for a fresh plant");
    Err(e)
}

/// What building a scenario's plant is refused with, ahead of its targets: no
/// profiles, a playbook that cannot be played, or a plant that cannot be pinned.
pub open spec fn early_fault(
    st: Stock,
    playbook: Read<Playbook>,
    plant: Result<PlantSpec, String>,
) -> Option<Seq<char>> {
    if st.profiles.len() == 0 {
        Some("no vulnerable-device profiles available"@)
    } else if engine_fault(playbook) is Some {
        engine_fault(playbook)
    } else {
        plant_fault(st, plant)
    }
}

/// What building a scenario's plant gives: the first fault there is, or the sealed
/// plant with every target of the playbook in it.
pub open spec fn built(
    r: Result<Session, String>,
    st: Stock,
    playbook: Read<Playbook>,
    plant: Result<PlantSpec, String>,
    fallback: Seq<Seq<char>>,
    now_unix: u64,
    scenario: Seq<char>,
) -> bool {
    let phases = loaded_playbook(playbook)->Ok_0.phases@;
    match r {
        Err(e) => {
            ||| early_fault(st, playbook, plant) == Some(e@)
            ||| early_fault(st, playbook, plant) is None && exists|s: Session| #[trigger]
                pinned_as(s, st, plant->Ok_0, fallback, now_unix, scenario) && first_fault(
                    phases.map_values(phase_target_fault(s.devices@)),
                ) == Some(e@)
        },
        Ok(s) => {
            &&& early_fault(st, playbook, plant) is None
            &&& pinned_as(s, st, plant->Ok_0, fallback, now_unix, scenario)
            &&& first_fault(phases.map_values(phase_target_fault(s.devices@))) is None
        },
    }
}

/// Build a scenario's sealed plant and hold its playbook against it: the playbook
/// is checked, the plant is pinned into a sealed session, and every target of the
/// playbook must be in it. The playbook is given by what reading its file gave, the
/// plant by what loading its file came to.
pub fn build_validated_plant(
    domains: &Vec<String>,
    target: &TargetCfg,
    playbook: Read<Playbook>,
    plant: &Result<PlantSpec, String>,
    vuln: &VulnDb,
    oui: &OuiDb,
    seed: u64,
    now_unix: u64,
) -> (r: Result<Session, String>)
    ensures
        built(
            r,
            Stock { profiles: vuln.profiles@, rows: oui@, seed },
            playbook,
            *plant,
            texts(domains@),
            now_unix,
            target.name@,
        ),
{
    if vuln.is_empty() {
        return Err("no vulnerable-device profiles available".to_owned());
    }
    let engine = match ScenarioEngine::load(target, playbook, seed) {
        Ok(e) => e,
        Err(e) => {
            return Err(e);
        },
    };
    let session = match pin_from_pack(
        target,
        plant,
        vuln,
        oui,
        seed,
        now_unix,
        domains.as_slice(),
    ) {
        Ok(s) => s,
        Err(e) => {
            return Err(e);
        },
    };
    if let Err(e) = engine.validate_targets(&session) {
        return Err(e);
    }
    Ok(session)
}

/// What is wrong with a text as a TOML document.
pub uninterp spec fn toml_fault(text: Seq<char>) -> Option<Seq<char>>;

/// `toml::from_str::<toml::Value>`: whether a text is a TOML document, and what
/// the parser says is wrong where it is not. It depends on the text alone.
#[verifier::external_body]
fn toml_check(text: &str) -> (r: Option<String>)
    ensures
        opt_text(r) == toml_fault(text@),
{
    match toml::from_str::<toml::Value>(text) {
        Ok(_) => None,
        Err(e) => Some(e.to_string()),
    }
}

/// What a malformed profiles file is refused with.
pub open spec fn malformed_profiles(path: Seq<char>, fault: Seq<char>) -> Seq<char> {
    "scenario profiles "@ + path + " is malformed: "@ + fault
        + "; fix it or remove it (a CVE-bearing plant device would otherwise silently degrade to identity-only)"@
}

/// The verdict on a profiles file, given what the parser said.
pub fn profiles_verdict(path: &str, parse_fault: Option<&str>) -> (r: Result<(), String>)
    ensures
        verdict(r) == match opt_str(parse_fault) {
            Some(e) => Some(malformed_profiles(path@, e)),
            None => None,
        },
{
    match parse_fault {
        Some(f) => {
            let mut e = "scenario profiles ".to_owned();
            e.append(path);
            e.append(" is malformed: ");
            e.append(f);
            e.append(
                "; fix it or remove it (a CVE-bearing plant device would otherwise silently degrade to identity-only)",
            );
            Err(e)
        },
        None => Ok(()),
    }
}

/// Refuse a profiles file that is there, not blank, and no TOML document.
pub fn check_profiles(path: &str, text: Option<&str>) -> (r: Result<(), String>)
    ensures
        verdict(r) == profiles_fault(path@, opt_str(text)),
{
    match text {
        None => Ok(()),
        Some(t) => {
            if is_blank(t) {
                return Ok(());
            }
            match toml_check(t) {
                Some(e) => profiles_verdict(path, Some(e.as_str())),
                None => profiles_verdict(path, None),
            }
        },
    }
}

/// What is wrong with a declared model: it resolves to no profile, and nothing
/// says that the device is meant to be identity-only.
pub open spec fn model_fault(vuln: VulnDb, path: Seq<char>) -> spec_fn(DeviceSpec) -> Option<Seq<char>> {
    |d: DeviceSpec|
        match d.model {
            Some(m) => if d.protocol is None && d.vendor is None && d.firmware is None
                && model_place(vuln.profiles@, m@) >= vuln.profiles@.len() {
                Some(
                    "scenario plant model "@ + quoted(m@)
                        + " resolves to no CVE profile and declares no identity-only fields (protocol/vendor/firmware); define it in "@
                        + path + " or mark it identity-only"@,
                )
            } else {
                None
            },
            None => None,
        }
}

/// Refuse a plant that names a model expecting a profile where there is none: a
/// typo, or a model that the profiles were meant to define.
pub fn check_models(devices: &Vec<DeviceSpec>, vuln: &VulnDb, path: &str) -> (r: Result<(), String>)
    ensures
        verdict(r) == first_fault(devices@.map_values(model_fault(*vuln, path@))),
{
    let ghost all = devices@.map_values(model_fault(*vuln, path@));
    let mut i: usize = 0;
    while i < devices.len()
        invariant
            i <= devices@.len(),
            all == devices@.map_values(model_fault(*vuln, path@)),
            first_fault(all.take(i as int)) is None,
        decreases devices@.len() - i,
    {
        let d: &DeviceSpec = &devices[i];
        proof {
            assert(all.take(i as int + 1).drop_last() =~= all.take(i as int));
        }
        if let Some(m) = &d.model {
            let identity_only: bool = d.protocol.is_some() || d.vendor.is_some()
                || d.firmware.is_some();
            if !identity_only && vuln.by_model(m.as_str()).is_none() {
                let mut e = "scenario plant model ".to_owned();
                e.append(quote(m.as_str()).as_str());
                e.append(
                    " resolves to no CVE profile and declares no identity-only fields (protocol/vendor/firmware); define it in ",
                );
                e.append(path);
                e.append(" or mark it identity-only");
                proof {
                    assert(all[i as int] == Some(e@));
                    lemma_fault_ahead(all, i as int);
                }
                return Err(e);
            }
        }
        i += 1;
    }
    proof {
        assert(all.take(i as int) =~= all);
    }
    Ok(())
}

/// What building gave, as a verdict on the pack.
pub open spec fn pack_verdict(r: Result<Session, String>) -> Option<Seq<char>> {
    match r {
        Ok(_) => None,
        Err(e) => Some(e@),
    }
}

/// What is wrong with the text of a profiles file, where there is one.
pub open spec fn profiles_fault(path: Seq<char>, text: Option<Seq<char>>) -> Option<Seq<char>> {
    match text {
        None => None,
        Some(t) => if trimmed(t).len() == 0 || toml_fault(t) is None {
            None
        } else {
            Some(malformed_profiles(path, toml_fault(t)->0))
        },
    }
}

/// What is wrong with a pack ahead of what building its plant checks: its profiles,
/// its plant's file, and the models that its plant names.
pub open spec fn pack_fault(
    vuln: VulnDb,
    plant: Read<PlantSpec>,
    path: Seq<char>,
    profiles: Option<Seq<char>>,
) -> Option<Seq<char>> {
    if profiles_fault(path, profiles) is Some {
        profiles_fault(path, profiles)
    } else {
        match loaded_plant(plant) {
            Err(e) => Some(e),
            Ok(p) => first_fault(p.devices@.map_values(model_fault(vuln, path))),
        }
    }
}

/// Check a scenario pack end to end, without keeping the plant: its profiles, its
/// plant and the models that the plant names, and then all that building it checks.
/// A fixed seed, where the config gives none, keeps the check on the pack's
/// structure.
pub fn preflight(
    cfg: &Config,
    target: &TargetCfg,
    playbook: Read<Playbook>,
    plant: Read<PlantSpec>,
    vuln: &VulnDb,
    oui: &OuiDb,
    profiles_path: &str,
    profiles: Option<&str>,
) -> (r: Result<(), String>)
    ensures
        ({
            let early = pack_fault(*vuln, plant, profiles_path@, opt_str(profiles));
            let st = Stock { profiles: vuln.profiles@, rows: oui@, seed: or(cfg.session.seed, 0) };
            if early is Some {
                verdict(r) == early
            } else {
                exists|b: Result<Session, String>, p: Result<PlantSpec, String>|
                    p == Ok::<PlantSpec, String>(loaded_plant(plant)->Ok_0) && #[trigger] built(
                        b,
                        st,
                        playbook,
                        p,
                        texts(cfg.dns.domains@),
                        0,
                        target.name@,
                    ) && verdict(r) == pack_verdict(b)
            }
        }),
{
    if let Err(e) = check_profiles(profiles_path, profiles) {
        return Err(e);
    }
    let spec = match PlantSpec::load(plant) {
        Ok(p) => p,
        Err(e) => {
            return Err(e);
        },
    };
    if let Err(e) = check_models(&spec.devices, vuln, profiles_path) {
        return Err(e);
    }
    let seed: u64 = match cfg.session.seed {
        Some(s) => s,
        None => 0,
    };
    let p = Ok(spec);
    let b = build_validated_plant(&cfg.dns.domains, target, playbook, &p, vuln, oui, seed, 0);
    proof {
        let st = Stock { profiles: vuln.profiles@, rows: oui@, seed };
        assert(built(b, st, playbook, p, texts(cfg.dns.domains@), 0, target.name@));
    }
    match b {
        Ok(_) => Ok(()),
        Err(e) => Err(e),
    }
}

} // verus!
