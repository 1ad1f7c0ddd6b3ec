//! Semantic checks of a configuration.
//!
//! Each check is a fault: the message of what is wrong, or none. The first fault
//! in the order below is what a refused configuration is refused with.

use vstd::prelude::*;
use crate::config::number::Real;
use crate::config::{
    absolute, Config, GapCfg, GapDist, GlobWeight, Mode, RateCfg, RateModel, TargetCfg,
};
use crate::net::{cidr_net, parse_net};
use crate::proto::l3::{is_public_unicast, public_unicast};
use crate::text::{
    dec_string, has_white, holds_white, is_blank, quote, quoted, texts, trimmed, chars_of, dec,
};

verus! {

/// What a verdict says: the message of the fault, or none.
pub open spec fn verdict(r: Result<(), String>) -> Option<Seq<char>> {
    match r {
        Ok(_) => None,
        Err(e) => Some(e@),
    }
}

/// A fault where `bad` holds.
pub open spec fn fault(bad: bool, text: Seq<char>) -> Option<Seq<char>> {
    if bad {
        Some(text)
    } else {
        None
    }
}

/// The first of two faults.
pub open spec fn either(a: Option<Seq<char>>, b: Option<Seq<char>>) -> Option<Seq<char>> {
    if a is Some {
        a
    } else {
        b
    }
}

/// The first fault of a list.
pub open spec fn first_fault(s: Seq<Option<Seq<char>>>) -> Option<Seq<char>>
    decreases s.len(),
{
    if s.len() == 0 {
        None
    } else {
        either(first_fault(s.drop_last()), s.last())
    }
}

/// A list has no fault exactly where none of its checks has.
pub proof fn lemma_no_fault(s: Seq<Option<Seq<char>>>)
    ensures
        first_fault(s) is None <==> forall|i: int| 0 <= i < s.len() ==> #[trigger] s[i] is None,
    decreases s.len(),
{
    if s.len() > 0 {
        lemma_no_fault(s.drop_last());
        if first_fault(s) is None {
            assert forall|i: int| 0 <= i < s.len() implies #[trigger] s[i] is None by {
                if i < s.len() - 1 {
                    assert(s.drop_last()[i] == s[i]);
                }
            }
        }
        if forall|i: int| 0 <= i < s.len() ==> #[trigger] s[i] is None {
            assert forall|i: int| 0 <= i < s.drop_last().len() implies #[trigger] s.drop_last()[i] is None by {
                assert(s[i] is None);
            }
        }
    }
}

/// The fault behind checks that found none is the first.
pub proof fn lemma_fault_ahead(s: Seq<Option<Seq<char>>>, i: int)
    requires
        0 <= i < s.len(),
        first_fault(s.take(i)) is None,
        s[i] is Some,
    ensures
        first_fault(s) == s[i],
    decreases s.len(),
{
    if i == s.len() - 1 {
        assert(s.drop_last() =~= s.take(i));
    } else {
        assert(s.drop_last().take(i) =~= s.take(i));
        lemma_fault_ahead(s.drop_last(), i);
    }
}

fn check(bad: bool, text: &str) -> (r: Result<(), String>)
    ensures
        verdict(r) == fault(bad, text@),
{
    if bad {
        Err(text.to_owned())
    } else {
        Ok(())
    }
}

fn text3(a: &str, b: &str, c: &str) -> (r: String)
    ensures
        r@ == a@ + b@ + c@,
{
    let mut s = a.to_owned();
    s.append(b);
    s.append(c);
    s
}

/// A parameter must be there and above zero.
pub open spec fn positive_fault(name: Seq<char>, v: Option<Real>) -> Option<Seq<char>> {
    match v {
        Some(x) => fault(!x.is_positive(), name + " must be > 0"@),
        None => Some(name + " is required"@),
    }
}

fn require_positive(name: &str, v: Option<Real>) -> (r: Result<(), String>)
    ensures
        verdict(r) == positive_fault(name@, v),
{
    match v {
        Some(x) => {
            if x.positive() {
                Ok(())
            } else {
                let mut s = name.to_owned();
                s.append(" must be > 0");
                Err(s)
            }
        },
        None => {
            let mut s = name.to_owned();
            s.append(" is required");
            Err(s)
        },
    }
}

/// What is wrong with a rate.
pub open spec fn rate_fault(c: RateCfg) -> Option<Seq<char>> {
    match c.model {
        RateModel::Original => None,
        RateModel::Topspeed => None,
        RateModel::Multiplier => positive_fault("rate.multiplier"@, c.multiplier),
        RateModel::Pps => either(
            positive_fault("rate.pps"@, c.pps),
            fault(c.pps_multi == Some(0u32), "rate.pps_multi must be > 0"@),
        ),
        RateModel::Mbps => match (c.mbps_min, c.mbps_max) {
            (Some(lo), Some(hi)) => either(
                positive_fault("rate.mbps_min"@, Some(lo)),
                either(
                    positive_fault("rate.mbps_max"@, Some(hi)),
                    fault(hi.below(lo), "rate.mbps_max must be >= rate.mbps_min"@),
                ),
            ),
            (None, None) => positive_fault("rate.mbps"@, c.mbps),
            _ => Some("rate.mbps band needs both mbps_min and mbps_max"@),
        },
    }
}

/// What the rate's parameter is for, as a replay flag.
pub open spec fn rate_flags(c: RateCfg, amount: Seq<char>) -> Seq<Seq<char>> {
    match c.model {
        RateModel::Original => Seq::empty(),
        RateModel::Topspeed => seq!["--topspeed"@],
        RateModel::Multiplier => seq!["--multiplier="@ + amount],
        RateModel::Pps => match c.pps_multi {
            Some(m) => seq!["--pps="@ + amount, "--pps-multi="@ + dec(m as nat)],
            None => seq!["--pps="@ + amount],
        },
        RateModel::Mbps => seq!["--mbps="@ + amount],
    }
}

fn flag(name: &str, value: &str) -> (r: String)
    ensures
        r@ == name@ + value@,
{
    let mut s = name.to_owned();
    s.append(value);
    s
}

impl RateCfg {
    /// The model's parameter is there, and is a rate that a replay can hold.
    pub fn validate(&self) -> (r: Result<(), String>)
        ensures
            verdict(r) == rate_fault(*self),
    {
        match self.model {
            RateModel::Original | RateModel::Topspeed => Ok(()),
            RateModel::Multiplier => require_positive("rate.multiplier", self.multiplier),
            RateModel::Pps => {
                if let Err(e) = require_positive("rate.pps", self.pps) {
                    return Err(e);
                }
                check(matches!(self.pps_multi, Some(0)), "rate.pps_multi must be > 0")
            },
            RateModel::Mbps => match (self.mbps_min, self.mbps_max) {
                (Some(lo), Some(hi)) => {
                    if let Err(e) = require_positive("rate.mbps_min", Some(lo)) {
                        return Err(e);
                    }
                    if let Err(e) = require_positive("rate.mbps_max", Some(hi)) {
                        return Err(e);
                    }
                    check(hi.less(lo), "rate.mbps_max must be >= rate.mbps_min")
                },
                (None, None) => require_positive("rate.mbps", self.mbps),
                _ => Err("rate.mbps band needs both mbps_min and mbps_max".to_owned()),
            },
        }
    }

    /// The replay's rate flags. `amount` is the model's parameter in print, which
    /// a model without one leaves aside.
    pub fn to_args(&self, amount: &str) -> (r: Vec<String>)
        ensures
            texts(r@) == rate_flags(*self, amount@),
    {
        let mut v: Vec<String> = Vec::new();
        match self.model {
            RateModel::Original => {},
            RateModel::Topspeed => v.push("--topspeed".to_owned()),
            RateModel::Multiplier => v.push(flag("--multiplier=", amount)),
            RateModel::Pps => {
                v.push(flag("--pps=", amount));
                if let Some(m) = self.pps_multi {
                    v.push(flag("--pps-multi=", dec_string(m as u64).as_str()));
                }
            },
            RateModel::Mbps => v.push(flag("--mbps=", amount)),
        }
        proof {
            assert(texts(v@) =~= rate_flags(*self, amount@));
        }
        v
    }
}

/// What is wrong with a gap.
pub open spec fn gap_fault(c: GapCfg) -> Option<Seq<char>> {
    match c.dist {
        GapDist::ExpPoisson => either(
            positive_fault("gap.mean_secs"@, c.mean_secs),
            match (c.min_secs, c.max_secs) {
                (Some(lo), Some(hi)) => either(
                    fault(lo.is_negative(), "gap.min_secs must be >= 0"@),
                    fault(lo.reaches(hi), "gap.min_secs must be < gap.max_secs"@),
                ),
                _ => None,
            },
        ),
        GapDist::TruncNormal => either(
            positive_fault("gap.mean_secs"@, c.mean_secs),
            either(
                positive_fault("gap.stddev_secs"@, c.stddev_secs),
                match (c.lower_secs, c.upper_secs) {
                    (None, _) => Some("gap.lower_secs required for trunc_normal"@),
                    (_, None) => Some("gap.upper_secs required for trunc_normal"@),
                    (Some(lo), Some(hi)) => either(
                        fault(lo.is_negative(), "gap.lower_secs must be >= 0"@),
                        fault(lo.reaches(hi), "gap.lower_secs must be < gap.upper_secs"@),
                    ),
                },
            ),
        ),
    }
}

impl GapCfg {
    /// The distribution's parameters are there, and bound the pause.
    pub fn validate(&self) -> (r: Result<(), String>)
        ensures
            verdict(r) == gap_fault(*self),
    {
        if let Err(e) = require_positive("gap.mean_secs", self.mean_secs) {
            return Err(e);
        }
        match self.dist {
            GapDist::ExpPoisson => match (self.min_secs, self.max_secs) {
                (Some(lo), Some(hi)) => {
                    if lo.negative() {
                        return Err("gap.min_secs must be >= 0".to_owned());
                    }
                    check(lo.at_least(hi), "gap.min_secs must be < gap.max_secs")
                },
                _ => Ok(()),
            },
            GapDist::TruncNormal => {
                if let Err(e) = require_positive("gap.stddev_secs", self.stddev_secs) {
                    return Err(e);
                }
                match (self.lower_secs, self.upper_secs) {
                    (None, _) => Err("gap.lower_secs required for trunc_normal".to_owned()),
                    (_, None) => Err("gap.upper_secs required for trunc_normal".to_owned()),
                    (Some(lo), Some(hi)) => {
                        if lo.negative() {
                            return Err("gap.lower_secs must be >= 0".to_owned());
                        }
                        check(lo.at_least(hi), "gap.lower_secs must be < gap.upper_secs")
                    },
                }
            },
        }
    }
}

/// A path must be absolute.
pub open spec fn path_fault(name: Seq<char>, p: Seq<char>) -> Option<Seq<char>> {
    fault(!absolute(p), name + " must be absolute: "@ + p)
}

fn check_path(name: &str, p: &str) -> (r: Result<(), String>)
    ensures
        verdict(r) == path_fault(name@, p@),
{
    let cs = chars_of(p);
    if cs.len() > 0 && cs[0] == '/' {
        Ok(())
    } else {
        Err(text3(name, " must be absolute: ", p))
    }
}

/// A weight that a pick can use.
pub open spec fn usable(w: Real) -> bool {
    w.is_finite() && !w.is_negative()
}

fn is_usable(w: Real) -> (r: bool)
    ensures
        r == usable(w),
{
    w.finite() && !w.negative()
}

/// What is wrong with a glob's weight.
pub open spec fn glob_fault() -> spec_fn(GlobWeight) -> Option<Seq<char>> {
    |g: GlobWeight|
        fault(
            !usable(g.weight),
            "weight for glob "@ + g.pattern@ + " must be a finite value >= 0"@,
        )
}

/// What is wrong with a file's weight.
pub open spec fn file_fault() -> spec_fn((String, Real)) -> Option<Seq<char>> {
    |f: (String, Real)|
        fault(!usable(f.1), "weight for file "@ + f.0@ + " must be a finite value >= 0"@)
}

/// What is wrong with a site domain.
pub open spec fn domain_fault() -> spec_fn(String) -> Option<Seq<char>> {
    |d: String|
        fault(
            trimmed(d@).len() == 0 || has_white(d@),
            "dns.domains entry "@ + quoted(d@) + " is not a valid domain"@,
        )
}

/// What is wrong with an external range.
pub open spec fn external_fault() -> spec_fn(String) -> Option<Seq<char>> {
    |c: String|
        match cidr_net(c@) {
            None => Some("threats.external_cidrs entry "@ + c@ + " is not a valid CIDR"@),
            Some(n) => fault(
                !public_unicast(n.first() as u32),
                "threats.external_cidrs entry "@ + c@
                    + " must be a public unicast range (not RFC1918, loopback, link-local, or multicast)"@,
            ),
        }
}

fn check_globs(v: &Vec<GlobWeight>) -> (r: Result<(), String>)
    ensures
        verdict(r) == first_fault(v@.map_values(glob_fault())),
{
    let ghost all = v@.map_values(glob_fault());
    let mut i: usize = 0;
    while i < v.len()
        invariant
            i <= v@.len(),
            all == v@.map_values(glob_fault()),
            first_fault(all.take(i as int)) is None,
        decreases v@.len() - i,
    {
        proof {
            assert(all.take(i as int + 1).drop_last() =~= all.take(i as int));
        }
        if !is_usable(v[i].weight) {
            proof {
                lemma_fault_ahead(all, i as int);
            }
            return Err(
                text3("weight for glob ", v[i].pattern.as_str(), " must be a finite value >= 0"),
            );
        }
        i += 1;
    }
    proof {
        assert(all.take(i as int) =~= all);
    }
    Ok(())
}

fn check_files(v: &Vec<(String, Real)>) -> (r: Result<(), String>)
    ensures
        verdict(r) == first_fault(v@.map_values(file_fault())),
{
    let ghost all = v@.map_values(file_fault());
    let mut i: usize = 0;
    while i < v.len()
        invariant
            i <= v@.len(),
            all == v@.map_values(file_fault()),
            first_fault(all.take(i as int)) is None,
        decreases v@.len() - i,
    {
        proof {
            assert(all.take(i as int + 1).drop_last() =~= all.take(i as int));
        }
        if !is_usable(v[i].1) {
            proof {
                lemma_fault_ahead(all, i as int);
            }
            return Err(
                text3("weight for file ", v[i].0.as_str(), " must be a finite value >= 0"),
            );
        }
        i += 1;
    }
    proof {
        assert(all.take(i as int) =~= all);
    }
    Ok(())
}

fn check_domains(v: &Vec<String>) -> (r: Result<(), String>)
    ensures
        verdict(r) == first_fault(v@.map_values(domain_fault())),
{
    let ghost all = v@.map_values(domain_fault());
    let mut i: usize = 0;
    while i < v.len()
        invariant
            i <= v@.len(),
            all == v@.map_values(domain_fault()),
            first_fault(all.take(i as int)) is None,
        decreases v@.len() - i,
    {
        proof {
            assert(all.take(i as int + 1).drop_last() =~= all.take(i as int));
        }
        let d: &str = v[i].as_str();
        if is_blank(d) || holds_white(d) {
            proof {
                lemma_fault_ahead(all, i as int);
            }
            return Err(text3("dns.domains entry ", quote(d).as_str(), " is not a valid domain"));
        }
        i += 1;
    }
    proof {
        assert(all.take(i as int) =~= all);
    }
    Ok(())
}

fn check_external(v: &Vec<String>) -> (r: Result<(), String>)
    ensures
        verdict(r) == first_fault(v@.map_values(external_fault())),
{
    let ghost all = v@.map_values(external_fault());
    let mut i: usize = 0;
    while i < v.len()
        invariant
            i <= v@.len(),
            all == v@.map_values(external_fault()),
            first_fault(all.take(i as int)) is None,
        decreases v@.len() - i,
    {
        proof {
            assert(all.take(i as int + 1).drop_last() =~= all.take(i as int));
        }
        let c: &str = v[i].as_str();
        match parse_net(c) {
            None => {
                proof {
                    lemma_fault_ahead(all, i as int);
                }
                return Err(text3("threats.external_cidrs entry ", c, " is not a valid CIDR"));
            },
            Some(n) => {
                if !is_public_unicast(n.network()) {
                    proof {
                        lemma_fault_ahead(all, i as int);
                    }
                    return Err(
                        text3(
                            "threats.external_cidrs entry ",
                            c,
                            " must be a public unicast range (not RFC1918, loopback, link-local, or multicast)",
                        ),
                    );
                }
            },
        }
        i += 1;
    }
    proof {
        assert(all.take(i as int) =~= all);
    }
    Ok(())
}

/// The interface, the mode and the paths.
pub open spec fn base_fault(c: Config) -> Option<Seq<char>> {
    either(
        fault(trimmed(c.iface@).len() == 0, "iface must not be empty"@),
        either(
            fault(
                c.mode == Mode::RedLaser && !c.l3.remap,
                "red_laser requires l3.remap = true (plan==wire); use green_laser for raw replay"@,
            ),
            either(
                path_fault("paths.pool"@, c.paths.pool@),
                either(
                    path_fault("paths.variants"@, c.paths.variants@),
                    either(
                        path_fault("paths.shm_dir"@, c.paths.shm_dir@),
                        path_fault("paths.status_file"@, c.paths.status_file@),
                    ),
                ),
            ),
        ),
    )
}

/// The rate, the gap and the weights.
pub open spec fn pace_fault(c: Config) -> Option<Seq<char>> {
    either(
        rate_fault(c.rate),
        either(
            gap_fault(c.gap),
            either(
                fault(
                    !usable(c.weights.default),
                    "weights.default must be a finite value >= 0"@,
                ),
                either(
                    first_fault(c.weights.globs@.map_values(glob_fault())),
                    first_fault(c.weights.files@.map_values(file_fault())),
                ),
            ),
        ),
    )
}

/// The fabricated plant: zones, devices, domains and crossings.
pub open spec fn plant_fault(c: Config) -> Option<Seq<char>> {
    let s = c.synthesis;
    let ns = c.north_south;
    either(
        fault(c.zones.max_subnets == Some(0usize), "zones.max_subnets must be > 0"@),
        either(
            fault(
                !(8 <= c.zones.default_prefix <= 30),
                "zones.default_prefix must be between 8 and 30"@,
            ),
            either(
                fault(s.max_devices == Some(0usize), "synthesis.max_devices must be > 0"@),
                either(
                    fault(
                        s.identity_every_n_runs == 0,
                        "synthesis.identity_every_n_runs must be > 0"@,
                    ),
                    either(
                        fault(s.target_devices == 0, "synthesis.target_devices must be > 0"@),
                        either(
                            fault(
                                s.max_assets == Some(0usize),
                                "synthesis.max_assets must be > 0"@,
                            ),
                            either(
                                if c.dns.enabled {
                                    first_fault(c.dns.domains@.map_values(domain_fault()))
                                } else {
                                    None
                                },
                                either(
                                    fault(
                                        ns.enabled && ns.cadence_runs == 0,
                                        "north_south.cadence_runs must be > 0"@,
                                    ),
                                    fault(
                                        ns.enabled && ns.max_flows_per_pair == 0,
                                        "north_south.max_flows_per_pair must be > 0"@,
                                    ),
                                ),
                            ),
                        ),
                    ),
                ),
            ),
        ),
    )
}

/// The timing knobs, which must be positive: a zero interval would spin a loop
/// or fire bursts with no delay.
pub open spec fn timing_fault(c: Config) -> Option<Seq<char>> {
    either(
        fault(c.watchdog.poll_secs == 0, "watchdog.poll_secs must be > 0"@),
        either(
            fault(c.watchdog.flatline_secs == 0, "watchdog.flatline_secs must be > 0"@),
            either(
                fault(c.no_pcaps_retry_secs == 0, "no_pcaps_retry_secs must be > 0"@),
                either(
                    fault(
                        c.synthesis.enabled && c.synthesis.announce_interval_secs == 0,
                        "synthesis.announce_interval_secs must be > 0"@,
                    ),
                    fault(
                        c.threats.min_interval_secs > c.threats.max_interval_secs,
                        "threats.min_interval_secs must be <= threats.max_interval_secs"@,
                    ),
                ),
            ),
        ),
    )
}

/// The state paths and the external ranges.
pub open spec fn state_fault(c: Config) -> Option<Seq<char>> {
    either(
        first_fault(c.threats.external_cidrs@.map_values(external_fault())),
        either(
            path_fault("session.path"@, c.session.path@),
            either(
                path_fault("oui_db.path"@, c.oui_db.path@),
                path_fault("oui_db.vuln_path"@, c.oui_db.vuln_path@),
            ),
        ),
    )
}

/// A scenario overlays red laser: it cannot switch the mode or the remap off.
pub open spec fn target_fault(c: Config) -> Option<Seq<char>> {
    match c.target {
        None => None,
        Some(t) => either(
            fault(
                c.mode != Mode::RedLaser,
                "target scenario "@ + quoted(t.name@)
                    + " requires mode red_laser (it overlays red laser)"@,
            ),
            either(
                fault(
                    !c.l3.remap,
                    "target scenario "@ + quoted(t.name@)
                        + " requires l3.remap = true (red laser is plan==wire)"@,
                ),
                either(
                    fault(trimmed(t.name@).len() == 0, "target.name must not be empty"@),
                    fault(
                        t.max_frames_per_burst == 0,
                        "target.max_frames_per_burst must be > 0"@,
                    ),
                ),
            ),
        ),
    }
}

/// What is wrong with a configuration, the first of it.
pub open spec fn config_fault(c: Config) -> Option<Seq<char>> {
    either(
        base_fault(c),
        either(
            pace_fault(c),
            either(
                plant_fault(c),
                either(timing_fault(c), either(state_fault(c), target_fault(c))),
            ),
        ),
    )
}

impl Config {
    fn check_base(&self) -> (r: Result<(), String>)
        ensures
            verdict(r) == base_fault(*self),
    {
        if is_blank(self.iface.as_str()) {
            return Err("iface must not be empty".to_owned());
        }
        if self.mode == Mode::RedLaser && !self.l3.remap {
            return Err(
                "red_laser requires l3.remap = true (plan==wire); use green_laser for raw replay".to_owned(),
            );
        }
        if let Err(e) = check_path("paths.pool", self.paths.pool.as_str()) {
            return Err(e);
        }
        if let Err(e) = check_path("paths.variants", self.paths.variants.as_str()) {
            return Err(e);
        }
        if let Err(e) = check_path("paths.shm_dir", self.paths.shm_dir.as_str()) {
            return Err(e);
        }
        check_path("paths.status_file", self.paths.status_file.as_str())
    }

    fn check_pace(&self) -> (r: Result<(), String>)
        ensures
            verdict(r) == pace_fault(*self),
    {
        if let Err(e) = self.rate.validate() {
            return Err(e);
        }
        if let Err(e) = self.gap.validate() {
            return Err(e);
        }
        if !is_usable(self.weights.default) {
            return Err("weights.default must be a finite value >= 0".to_owned());
        }
        if let Err(e) = check_globs(&self.weights.globs) {
            return Err(e);
        }
        check_files(&self.weights.files)
    }

    fn check_plant(&self) -> (r: Result<(), String>)
        ensures
            verdict(r) == plant_fault(*self),
    {
        if matches!(self.zones.max_subnets, Some(0)) {
            return Err("zones.max_subnets must be > 0".to_owned());
        }
        if !(8 <= self.zones.default_prefix && self.zones.default_prefix <= 30) {
            return Err("zones.default_prefix must be between 8 and 30".to_owned());
        }
        if matches!(self.synthesis.max_devices, Some(0)) {
            return Err("synthesis.max_devices must be > 0".to_owned());
        }
        if self.synthesis.identity_every_n_runs == 0 {
            return Err("synthesis.identity_every_n_runs must be > 0".to_owned());
        }
        if self.synthesis.target_devices == 0 {
            return Err("synthesis.target_devices must be > 0".to_owned());
        }
        if matches!(self.synthesis.max_assets, Some(0)) {
            return Err("synthesis.max_assets must be > 0".to_owned());
        }
        if self.dns.enabled {
            if let Err(e) = check_domains(&self.dns.domains) {
                return Err(e);
            }
        }
        if self.north_south.enabled {
            if self.north_south.cadence_runs == 0 {
                return Err("north_south.cadence_runs must be > 0".to_owned());
            }
            if self.north_south.max_flows_per_pair == 0 {
                return Err("north_south.max_flows_per_pair must be > 0".to_owned());
            }
        }
        Ok(())
    }

    fn check_timing(&self) -> (r: Result<(), String>)
        ensures
            verdict(r) == timing_fault(*self),
    {
        if self.watchdog.poll_secs == 0 {
            return Err("watchdog.poll_secs must be > 0".to_owned());
        }
        if self.watchdog.flatline_secs == 0 {
            return Err("watchdog.flatline_secs must be > 0".to_owned());
        }
        if self.no_pcaps_retry_secs == 0 {
            return Err("no_pcaps_retry_secs must be > 0".to_owned());
        }
        if self.synthesis.enabled && self.synthesis.announce_interval_secs == 0 {
            return Err("synthesis.announce_interval_secs must be > 0".to_owned());
        }
        check(
            self.threats.min_interval_secs > self.threats.max_interval_secs,
            "threats.min_interval_secs must be <= threats.max_interval_secs",
        )
    }

    fn check_state(&self) -> (r: Result<(), String>)
        ensures
            verdict(r) == state_fault(*self),
    {
        if let Err(e) = check_external(&self.threats.external_cidrs) {
            return Err(e);
        }
        if let Err(e) = check_path("session.path", self.session.path.as_str()) {
            return Err(e);
        }
        if let Err(e) = check_path("oui_db.path", self.oui_db.path.as_str()) {
            return Err(e);
        }
        check_path("oui_db.vuln_path", self.oui_db.vuln_path.as_str())
    }

    fn check_target(&self, t: &TargetCfg) -> (r: Result<(), String>)
        requires
            self.target == Some(*t),
        ensures
            verdict(r) == target_fault(*self),
    {
        if self.mode != Mode::RedLaser {
            return Err(
                text3(
                    "target scenario ",
                    quote(t.name.as_str()).as_str(),
                    " requires mode red_laser (it overlays red laser)",
                ),
            );
        }
        if !self.l3.remap {
            return Err(
                text3(
                    "target scenario ",
                    quote(t.name.as_str()).as_str(),
                    " requires l3.remap = true (red laser is plan==wire)",
                ),
            );
        }
        if is_blank(t.name.as_str()) {
            return Err("target.name must not be empty".to_owned());
        }
        check(t.max_frames_per_burst == 0, "target.max_frames_per_burst must be > 0")
    }

    /// Whether the configuration is coherent, or the first fault it has.
    pub fn validate(&self) -> (r: Result<(), String>)
        ensures
            verdict(r) == config_fault(*self),
    {
        if let Err(e) = self.check_base() {
            return Err(e);
        }
        if let Err(e) = self.check_pace() {
            return Err(e);
        }
        if let Err(e) = self.check_plant() {
            return Err(e);
        }
        if let Err(e) = self.check_timing() {
            return Err(e);
        }
        if let Err(e) = self.check_state() {
            return Err(e);
        }
        match &self.target {
            Some(t) => self.check_target(t),
            None => Ok(()),
        }
    }
}

/// Red laser never replays raw addresses: a coherent red-laser configuration,
/// and any coherent configuration with a scenario, has the remap on.
pub proof fn law_red_laser_remaps(c: Config)
    requires
        config_fault(c) is None,
        c.mode == Mode::RedLaser || c.target is Some,
    ensures
        c.mode == Mode::RedLaser,
        c.l3.remap,
{
}

/// The timing knobs of a coherent configuration are positive, so that no loop
/// spins, and the threat interval is one.
pub proof fn law_intervals_are_positive(c: Config)
    requires
        config_fault(c) is None,
    ensures
        c.watchdog.poll_secs > 0,
        c.watchdog.flatline_secs > 0,
        c.no_pcaps_retry_secs > 0,
        c.synthesis.enabled ==> c.synthesis.announce_interval_secs > 0,
        c.synthesis.identity_every_n_runs > 0,
        c.north_south.enabled ==> c.north_south.cadence_runs > 0,
        c.threats.min_interval_secs <= c.threats.max_interval_secs,
{
}

/// Every external range of a coherent configuration is a network that starts at a
/// public unicast address.
pub proof fn law_external_ranges_are_public(c: Config, i: int)
    requires
        config_fault(c) is None,
        0 <= i < c.threats.external_cidrs@.len(),
    ensures
        cidr_net(c.threats.external_cidrs@[i]@) is Some,
        public_unicast(cidr_net(c.threats.external_cidrs@[i]@)->0.first() as u32),
{
    let all = c.threats.external_cidrs@.map_values(external_fault());
    lemma_no_fault(all);
    assert(all[i] is None);
}

} // verus!
