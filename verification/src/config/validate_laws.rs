//! What makes a configuration coherent, in full.

use vstd::prelude::*;
use crate::config::validate::{
    base_fault, config_fault, domain_fault, external_fault, file_fault, gap_fault, glob_fault,
    lemma_no_fault, pace_fault, plant_fault, rate_fault, rate_flags, state_fault,
};
use crate::config::{Config, GapCfg, GapDist, Mode, RateCfg, RateModel};
use crate::config::number::Real;
use crate::net::cidr_net;
use crate::proto::l3::public_unicast;
use crate::text::{dec, has_white, trimmed};

verus! {

/// The number is there and above zero.
pub open spec fn above_zero(x: Option<Real>) -> bool {
    x is Some && x->0.is_positive()
}

/// The path starts at the root.
pub open spec fn rooted(p: Seq<char>) -> bool {
    p.len() > 0 && p[0] == '/'
}

/// The number is finite and not below zero.
pub open spec fn weighs(x: Real) -> bool {
    x.is_finite() && !x.is_negative()
}

/// The rate has what its model takes.
pub open spec fn rate_coherent(c: RateCfg) -> bool {
    &&& c.model == RateModel::Multiplier ==> above_zero(c.multiplier)
    &&& c.model == RateModel::Pps ==> above_zero(c.pps) && c.pps_multi != Some(0u32)
    &&& c.model == RateModel::Mbps ==> {
        ||| c.mbps_min is None && c.mbps_max is None && above_zero(c.mbps)
        ||| above_zero(c.mbps_min) && above_zero(c.mbps_max) && !c.mbps_max->0.below(c.mbps_min->0)
    }
}

/// The gap has what its distribution takes: a positive mean, and bounds that leave
/// room between them, which a truncated normal distribution needs.
pub open spec fn gap_coherent(c: GapCfg) -> bool {
    &&& above_zero(c.mean_secs)
    &&& c.dist == GapDist::ExpPoisson && c.min_secs is Some && c.max_secs is Some
        ==> !c.min_secs->0.is_negative() && !c.min_secs->0.reaches(c.max_secs->0)
    &&& c.dist == GapDist::TruncNormal ==> above_zero(c.stddev_secs) && c.lower_secs is Some
        && c.upper_secs is Some && !c.lower_secs->0.is_negative() && !c.lower_secs->0.reaches(
        c.upper_secs->0,
    )
}

/// Every weight is one that a pick can use.
pub open spec fn weights_coherent(c: Config) -> bool {
    &&& weighs(c.weights.default)
    &&& forall|i: int|
        0 <= i < c.weights.globs@.len() ==> weighs((#[trigger] c.weights.globs@[i]).weight)
    &&& forall|i: int| 0 <= i < c.weights.files@.len()
        ==> weighs((#[trigger] c.weights.files@[i]).1)
}

/// The plant can be built: its caps and counts are not zero, its prefix length is
/// between 8 and 30, its domains are words, and its crossings have a cadence.
pub open spec fn plant_coherent(c: Config) -> bool {
    &&& c.zones.max_subnets != Some(0usize)
    &&& 8 <= c.zones.default_prefix <= 30
    &&& c.synthesis.max_devices != Some(0usize)
    &&& c.synthesis.identity_every_n_runs > 0
    &&& c.synthesis.target_devices > 0
    &&& c.synthesis.max_assets != Some(0usize)
    &&& c.dns.enabled ==> forall|i: int|
        0 <= i < c.dns.domains@.len() ==> trimmed((#[trigger] c.dns.domains@[i])@).len() > 0
            && !has_white(c.dns.domains@[i]@)
    &&& c.north_south.enabled ==> c.north_south.cadence_runs > 0
        && c.north_south.max_flows_per_pair > 0
}

/// The external ranges are networks that start at a public unicast address.
pub open spec fn ranges_coherent(c: Config) -> bool {
    forall|i: int|
        0 <= i < c.threats.external_cidrs@.len() ==> cidr_net(
            (#[trigger] c.threats.external_cidrs@[i])@,
        ) is Some && public_unicast(cidr_net(c.threats.external_cidrs@[i]@)->0.first() as u32)
}

/// What a configuration has to meet.
pub open spec fn coherent(c: Config) -> bool {
    &&& trimmed(c.iface@).len() > 0
    &&& c.mode == Mode::RedLaser ==> c.l3.remap
    &&& rooted(c.paths.pool@)
    &&& rooted(c.paths.variants@)
    &&& rooted(c.paths.shm_dir@)
    &&& rooted(c.paths.status_file@)
    &&& rooted(c.session.path@)
    &&& rooted(c.oui_db.path@)
    &&& rooted(c.oui_db.vuln_path@)
    &&& rate_coherent(c.rate)
    &&& gap_coherent(c.gap)
    &&& weights_coherent(c)
    &&& plant_coherent(c)
    &&& c.watchdog.poll_secs > 0
    &&& c.watchdog.flatline_secs > 0
    &&& c.no_pcaps_retry_secs > 0
    &&& c.synthesis.enabled ==> c.synthesis.announce_interval_secs > 0
    &&& c.threats.min_interval_secs <= c.threats.max_interval_secs
    &&& ranges_coherent(c)
    &&& c.target is Some ==> {
        &&& c.mode == Mode::RedLaser
        &&& c.l3.remap
        &&& trimmed(c.target->0.name@).len() > 0
        &&& c.target->0.max_frames_per_burst > 0
    }
}

proof fn lemma_weights(c: Config)
    ensures
        pace_fault(c) is None <==> rate_fault(c.rate) is None && gap_fault(c.gap) is None
            && weights_coherent(c),
{
    let globs = c.weights.globs@.map_values(glob_fault());
    let files = c.weights.files@.map_values(file_fault());
    lemma_no_fault(globs);
    lemma_no_fault(files);
    assert forall|i: int| 0 <= i < c.weights.globs@.len() implies (globs[i] is None <==> weighs(
        (#[trigger] c.weights.globs@[i]).weight,
    )) by {}
    assert forall|i: int| 0 <= i < c.weights.files@.len() implies (files[i] is None <==> weighs(
        (#[trigger] c.weights.files@[i]).1,
    )) by {}
    if weights_coherent(c) {
        assert forall|i: int| 0 <= i < globs.len() implies #[trigger] globs[i] is None by {
            assert(weighs(c.weights.globs@[i].weight));
        }
        assert forall|i: int| 0 <= i < files.len() implies #[trigger] files[i] is None by {
            assert(weighs(c.weights.files@[i].1));
        }
    }
    if pace_fault(c) is None {
        assert forall|i: int| 0 <= i < c.weights.globs@.len() implies weighs(
            (#[trigger] c.weights.globs@[i]).weight,
        ) by {
            assert(globs[i] is None);
        }
        assert forall|i: int| 0 <= i < c.weights.files@.len() implies weighs(
            (#[trigger] c.weights.files@[i]).1,
        ) by {
            assert(files[i] is None);
        }
    }
}

proof fn lemma_plant(c: Config)
    ensures
        plant_fault(c) is None <==> plant_coherent(c),
{
    let all = c.dns.domains@.map_values(domain_fault());
    lemma_no_fault(all);
    if plant_coherent(c) && c.dns.enabled {
        assert forall|i: int| 0 <= i < all.len() implies #[trigger] all[i] is None by {
            assert(trimmed(c.dns.domains@[i]@).len() > 0);
        }
    }
    if plant_fault(c) is None && c.dns.enabled {
        assert forall|i: int| 0 <= i < c.dns.domains@.len() implies trimmed(
            (#[trigger] c.dns.domains@[i])@,
        ).len() > 0 && !has_white(c.dns.domains@[i]@) by {
            assert(all[i] is None);
        }
    }
}

proof fn lemma_ranges(c: Config)
    ensures
        state_fault(c) is None <==> ranges_coherent(c) && rooted(c.session.path@) && rooted(
            c.oui_db.path@,
        ) && rooted(c.oui_db.vuln_path@),
{
    let all = c.threats.external_cidrs@.map_values(external_fault());
    lemma_no_fault(all);
    if ranges_coherent(c) {
        assert forall|i: int| 0 <= i < all.len() implies #[trigger] all[i] is None by {
            assert(cidr_net(c.threats.external_cidrs@[i]@) is Some);
        }
    }
    if state_fault(c) is None {
        assert forall|i: int| 0 <= i < c.threats.external_cidrs@.len() implies cidr_net(
            (#[trigger] c.threats.external_cidrs@[i])@,
        ) is Some && public_unicast(
            cidr_net(c.threats.external_cidrs@[i]@)->0.first() as u32,
        ) by {
            assert(all[i] is None);
        }
    }
}

/// A configuration is accepted exactly when it is coherent.
pub proof fn law_coherent_configurations_are_accepted(c: Config)
    ensures
        config_fault(c) is None <==> coherent(c),
{
    lemma_weights(c);
    lemma_plant(c);
    lemma_ranges(c);
    law_coherent_rates_are_accepted(c.rate);
    law_coherent_gaps_are_accepted(c.gap);
    assert(base_fault(c) is None <==> trimmed(c.iface@).len() > 0 && (c.mode == Mode::RedLaser
        ==> c.l3.remap) && rooted(c.paths.pool@) && rooted(c.paths.variants@) && rooted(
        c.paths.shm_dir@,
    ) && rooted(c.paths.status_file@));
}

/// A rate is accepted exactly when it is coherent.
pub proof fn law_coherent_rates_are_accepted(c: RateCfg)
    ensures
        rate_fault(c) is None <==> rate_coherent(c),
{
}

/// A gap is accepted exactly when it is coherent.
pub proof fn law_coherent_gaps_are_accepted(c: GapCfg)
    ensures
        gap_fault(c) is None <==> gap_coherent(c),
{
}

/// A replay is told its rate by the flag of the rate's model: none for the
/// captured timing, one without an amount for top speed, and else one with it.
/// Only a packet rate has a second flag, for packets at a time.
pub proof fn law_each_rate_has_its_flag(c: RateCfg, amount: Seq<char>)
    ensures
        c.model == RateModel::Original ==> rate_flags(c, amount).len() == 0,
        c.model == RateModel::Topspeed ==> rate_flags(c, amount) == seq!["--topspeed"@],
        c.model == RateModel::Multiplier ==> rate_flags(c, amount) == seq![
            "--multiplier="@ + amount,
        ],
        c.model == RateModel::Mbps ==> rate_flags(c, amount) == seq!["--mbps="@ + amount],
        c.model == RateModel::Pps ==> rate_flags(c, amount).len() >= 1 && rate_flags(c, amount)[0]
            == "--pps="@ + amount,
        c.model == RateModel::Pps && c.pps_multi is Some ==> rate_flags(c, amount).len() == 2
            && rate_flags(c, amount)[1] == "--pps-multi="@ + dec(c.pps_multi->0 as nat),
        c.model == RateModel::Pps && c.pps_multi is None ==> rate_flags(c, amount).len() == 1,
{
}

} // verus!
