//! Device fabrication: fill zones with simulated, CVE-bearing devices.
//!
//! Deterministic given the session seed. The plan preview and the red-laser run
//! loop share this allocator, so a preview matches what the daemon will
//! fabricate. Hard caps live in the ledger; `AllocParams` only lowers them.

use std::collections::HashSet;
use vstd::prelude::*;
use crate::ledger::{
    device_models, has_cidr, subnet_models, DeviceModel, DeviceRecord, Session, SubnetModel,
    SubnetRecord, MAX_DEVICES, MAX_SUBNETS,
};
use crate::mac::{fmt_mac, mac_text};
use crate::net::{
    cidr_net, first_free, ip_string, ip_text, law_ip_text_injective, lemma_first_free, net_text,
    parse_net, Ipv4Net,
};
use crate::proto::l3::{clamp_prefix, fresh_subnet, net_blocks, nets_wf, new_net};
use crate::rng::{
    byte_step, range_step, rng_byte, rng_coin, rng_index, rng_words, word_step, CHANCE_15_IN_100,
};
use crate::simulate::bom::{label_text, AssetType};
use crate::simulate::zones::{family_of, first_word, name_zone, zone_name};
use crate::text::{clone_strings, opt_ref, opt_str, opt_text, str_eq, texts};
use crate::vuln::{
    covers, profile_prefix, proto_tag, DeviceProfile, ProfileProto, VulnDb,
};

verus! {

#[derive(Clone, Copy)]
pub struct AllocParams {
    pub max_subnets: usize,
    pub max_devices: usize,
    pub default_prefix: u8,
}

/// A plant under fabrication: its zones and devices, the addresses in use, and
/// the generator state.
#[verifier::ext_equal]
pub struct Fab {
    pub subnets: Seq<SubnetModel>,
    pub devices: Seq<DeviceModel>,
    pub used: Set<u32>,
    pub words: Seq<u32>,
}

/// The gateway of a network, behind its first address: kept for the zone-edge
/// firewall.
pub open spec fn gateway(net: Ipv4Net) -> u32 {
    if net.first() < u32::MAX {
        (net.first() + 1) as u32
    } else {
        u32::MAX
    }
}

/// The first host address of a network that is not in use and not the gateway.
pub open spec fn free_in(net: Ipv4Net, used: Set<u32>) -> Option<u32> {
    first_free(net.host_lo(), net.host_hi(), used.insert(gateway(net)))
}

/// The next host in `net` not already in `used`, skipping network+1 which is
/// reserved for the zone-edge firewall gateway.
pub fn next_free_in(net: Ipv4Net, used: &HashSet<u32>) -> (r: Option<u32>)
    requires
        net.wf(),
    ensures
        r == free_in(net, used@),
        r matches Some(ip) ==> net.has(ip as int) && !used@.contains(ip) && ip != gateway(net),
{
    proof {
        net.lemma_bounds();
        lemma_first_free(net.host_lo(), net.host_hi(), used@.insert(gateway(net)));
    }
    let (lo, hi) = net.hosts();
    let gw: u32 = net.network().saturating_add(1);
    let mut ip: u64 = lo as u64;
    while ip <= hi as u64
        invariant
            lo <= ip <= hi + 1,
            lo == net.host_lo(),
            hi == net.host_hi(),
            gw == gateway(net),
            free_in(net, used@) == first_free(
                ip as int,
                hi as int,
                used@.insert(gateway(net)),
            ),
        decreases hi + 1 - ip,
    {
        let candidate: u32 = ip as u32;
        if candidate != gw && !used.contains(&candidate) {
            return Some(candidate);
        }
        ip += 1;
    }
    None
}

/// The network text is a network with a free host.
pub open spec fn has_room(cidr: Seq<char>, used: Set<u32>) -> bool {
    match cidr_net(cidr) {
        Some(n) => free_in(n, used) is Some,
        None => false,
    }
}

/// The network texts of the zones that have room, in order.
pub open spec fn room_list(subnets: Seq<SubnetModel>, used: Set<u32>) -> Seq<Seq<char>>
    decreases subnets.len(),
{
    if subnets.len() == 0 {
        Seq::empty()
    } else {
        let r = room_list(subnets.drop_last(), used);
        if has_room(subnets.last().cidr, used) {
            r.push(subnets.last().cidr)
        } else {
            r
        }
    }
}

/// The networks of the zones whose text is one.
pub open spec fn zone_nets(subnets: Seq<SubnetModel>) -> Seq<Ipv4Net>
    decreases subnets.len(),
{
    if subnets.len() == 0 {
        Seq::empty()
    } else {
        let r = zone_nets(subnets.drop_last());
        match cidr_net(subnets.last().cidr) {
            Some(n) => r.push(n),
            None => r,
        }
    }
}

/// A core profile: a controller or switch, not one that only the bill of
/// materials places.
pub open spec fn core_profile(p: DeviceProfile) -> bool {
    p.asset_class is None
}

/// The carrier protocols in the order in which zones cycle them.
pub open spec fn carriers() -> Seq<ProfileProto> {
    seq![ProfileProto::Enip, ProfileProto::Modbus, ProfileProto::S7, ProfileProto::SwitchSnmp]
}

/// The carrier protocols among the core profiles, in order.
pub open spec fn present(ps: Seq<DeviceProfile>) -> Seq<ProfileProto> {
    carriers().filter(|p: ProfileProto| covers(ps, p))
}

pub open spec fn of_proto(proto: ProfileProto) -> spec_fn(DeviceProfile) -> bool {
    |p: DeviceProfile| p.protocol == proto
}

pub open spec fn of_vendor(v: Seq<char>) -> spec_fn(DeviceProfile) -> bool {
    |p: DeviceProfile| p.vendor@ == v
}

pub open spec fn every_profile() -> spec_fn(DeviceProfile) -> bool {
    |p: DeviceProfile| true
}

/// The places of the core profiles for which `want` holds.
pub open spec fn places(ps: Seq<DeviceProfile>, want: spec_fn(DeviceProfile) -> bool) -> Seq<usize>
    decreases ps.len(),
{
    if ps.len() == 0 {
        Seq::empty()
    } else {
        let r = places(ps.drop_last(), want);
        if core_profile(ps.last()) && want(ps.last()) {
            r.push((ps.len() - 1) as usize)
        } else {
            r
        }
    }
}

/// A zone of the network text exists.
pub open spec fn known(subnets: Seq<SubnetModel>, cidr: Seq<char>) -> bool {
    exists|i: int| 0 <= i < subnets.len() && (#[trigger] subnets[i]).cidr == cidr
}

impl Fab {
    /// Draw an index under `n`.
    pub open spec fn draw(self, n: nat) -> (int, Fab) {
        let s = range_step(self.words, 0, (n - 1) as u64);
        let i = if s.0 < n {
            s.0 as int
        } else {
            0
        };
        (i, Fab { words: s.1, ..self })
    }

    /// Add a zone, if the hard cap allows and its network text is new.
    pub open spec fn add_subnet(self, s: SubnetModel) -> Option<Fab> {
        if self.subnets.len() < MAX_SUBNETS && !known(self.subnets, s.cidr) {
            Some(Fab { subnets: self.subnets.push(s), ..self })
        } else {
            None
        }
    }

    /// A fresh network that overlaps no zone.
    pub open spec fn fresh(self, params: AllocParams) -> (Ipv4Net, Fab) {
        let p = clamp_prefix(params.default_prefix as int) as u8;
        let step = new_net(p, self.words, net_blocks(zone_nets(self.subnets)));
        (Ipv4Net { addr: step.0, prefix: p }, Fab { words: step.1, ..self })
    }

    /// Create a zone: a fresh network, the carrier protocol whose turn it is, and
    /// a vendor drawn among that protocol's core profiles. Gives its network text.
    pub open spec fn create_zone(self, ps: Seq<DeviceProfile>, params: AllocParams) -> (
        Option<Seq<char>>,
        Fab,
    ) {
        let (net, f) = self.fresh(params);
        let protos = present(ps);
        if protos.len() == 0 {
            (None, f)
        } else {
            let proto = protos[self.subnets.len() as int % protos.len() as int];
            let cands = places(ps, of_proto(proto));
            let (k, g) = f.draw(cands.len());
            let profile = ps[cands[k] as int];
            let s = SubnetModel {
                cidr: net_text(net),
                zone_name: zone_name(
                    Some(profile.vendor@),
                    Some(first_word(profile.model@)),
                    profile.purdue_level,
                    self.subnets.len(),
                ),
                purdue_level: profile.purdue_level,
                vendor: Some(profile.vendor@),
                domain: None,
            };
            match g.add_subnet(s) {
                Some(h) => (Some(net_text(net)), h),
                None => (None, g),
            }
        }
    }

    /// Whether a new zone is due, with the coin tossed if it decides.
    pub open spec fn wants_zone(self, ps: Seq<DeviceProfile>, params: AllocParams) -> (bool, Fab) {
        let n = self.subnets.len();
        if n >= params.max_subnets {
            (false, self)
        } else if n < present(ps).len() || room_list(self.subnets, self.used).len() == 0 {
            (true, self)
        } else {
            let w = word_step(self.words);
            (w.0 < CHANCE_15_IN_100, Fab { words: w.1, ..self })
        }
    }

    /// The network text of the zone for the next device: a new zone when one is
    /// due and can be made, else one drawn among those with room.
    pub open spec fn choose_zone(self, ps: Seq<DeviceProfile>, params: AllocParams) -> (
        Option<Seq<char>>,
        Fab,
    ) {
        let rooms = room_list(self.subnets, self.used);
        let (due, f) = self.wants_zone(ps, params);
        let (made, g) = if due {
            f.create_zone(ps, params)
        } else {
            (None, f)
        };
        if made is Some {
            (made, g)
        } else if rooms.len() == 0 {
            (None, g)
        } else {
            let (k, h) = g.draw(rooms.len());
            (Some(rooms[k]), h)
        }
    }

    /// A core profile for a device: one of the zone's vendor if there is any.
    pub open spec fn pick_profile(self, ps: Seq<DeviceProfile>, vendor: Option<Seq<char>>) -> (
        int,
        Fab,
    ) {
        let matching = match vendor {
            Some(v) => places(ps, of_vendor(v)),
            None => Seq::empty(),
        };
        let all = places(ps, every_profile());
        let from = if matching.len() > 0 {
            matching
        } else {
            all
        };
        let (k, f) = self.draw(from.len());
        (from[k] as int, f)
    }

    /// `n` bytes drawn one after the other.
    pub open spec fn draw_bytes(self, n: nat) -> (Seq<u8>, Fab)
        decreases n,
    {
        if n == 0 {
            (Seq::empty(), self)
        } else {
            let (b, f) = self.draw_bytes((n - 1) as nat);
            let s = byte_step(f.words);
            (b.push(s.0), Fab { words: s.1, ..f })
        }
    }

    /// A MAC for a device: the profile's prefix with drawn low bytes, else six
    /// drawn bytes made globally administered and unicast.
    pub open spec fn make_mac(self, p: DeviceProfile) -> (Seq<u8>, Fab) {
        match profile_prefix(p) {
            Some(oui) => {
                let (b, f) = self.draw_bytes(3);
                (oui + b, f)
            },
            None => {
                let (b, f) = self.draw_bytes(6);
                (b.update(0, b[0] & 0xFC), f)
            },
        }
    }

    /// Put a device into a zone, at an address.
    pub open spec fn place_device(
        self,
        ps: Seq<DeviceProfile>,
        cidr: Seq<char>,
        ip: u32,
    ) -> Fab {
        let (k, f) = self.pick_profile(ps, vendor_of(self.subnets, cidr));
        let p = ps[k];
        let (mac, g) = f.make_mac(p);
        if g.devices.len() >= MAX_DEVICES {
            g
        } else {
            Fab {
                devices: g.devices.push(
                    DeviceModel {
                        ip: ip_text(ip),
                        mac: mac_text(mac),
                        vendor: p.vendor@,
                        model: p.model@,
                        firmware: p.firmware@,
                        protocol: proto_tag(p.protocol),
                        cves: texts(p.cves@),
                        subnet_cidr: cidr,
                        hostname: None,
                        asset_type: Some(class_label(p.protocol)),
                    },
                ),
                used: g.used.insert(ip),
                ..g
            }
        }
    }

    /// Fabricate until there are `target` devices. It ends early when no zone has
    /// room and none can be made, or at the hard cap. A zone that turns out full
    /// is passed over once it was added.
    pub open spec fn fabricate(self, ps: Seq<DeviceProfile>, params: AllocParams, target: nat) -> Fab
        decreases
                target - self.devices.len(),
                if self.subnets.len() < MAX_SUBNETS {
                    MAX_SUBNETS - self.subnets.len()
                } else {
                    0
                },
    {
        if self.devices.len() >= target {
            self
        } else {
            let (zone, f) = self.choose_zone(ps, params);
            match zone {
                None => f,
                Some(cidr) => match cidr_net(cidr) {
                    None => f,
                    Some(net) => match free_in(net, f.used) {
                        None => if f.devices.len() == self.devices.len() && self.subnets.len()
                            < MAX_SUBNETS && f.subnets.len() > self.subnets.len() {
                            f.fabricate(ps, params, target)
                        } else {
                            f
                        },
                        Some(ip) => {
                            let g = f.place_device(ps, cidr, ip);
                            if g.devices.len() == self.devices.len() + 1 {
                                g.fabricate(ps, params, target)
                            } else {
                                g
                            }
                        },
                    },
                },
            }
        }
    }
}

/// The vendor of the first zone with the network text.
pub open spec fn vendor_of(subnets: Seq<SubnetModel>, cidr: Seq<char>) -> Option<Seq<char>>
    decreases subnets.len(),
{
    if subnets.len() == 0 {
        None
    } else if subnets[0].cidr == cidr {
        subnets[0].vendor
    } else {
        vendor_of(subnets.drop_first(), cidr)
    }
}

/// The asset-class label for a fabricated, CVE-bearing device: switches speak
/// SNMP, everything else is a controller.
pub open spec fn class_label(p: ProfileProto) -> Seq<char> {
    if p == ProfileProto::SwitchSnmp {
        label_text(AssetType::Switch)
    } else {
        label_text(AssetType::Controller)
    }
}

pub fn asset_label_for_proto(p: ProfileProto) -> (r: &'static str)
    ensures
        r@ == class_label(p),
{
    if p == ProfileProto::SwitchSnmp {
        AssetType::Switch.label()
    } else {
        AssetType::Controller.label()
    }
}

/// The plant that a session and a generator state make up.
pub open spec fn fab_of(s: Session, used: Set<u32>, words: Seq<u32>) -> Fab {
    Fab { subnets: subnet_models(s.subnets@), devices: device_models(s.devices@), used, words }
}

fn is_core(p: &DeviceProfile) -> (r: bool)
    ensures
        r == core_profile(*p),
{
    p.asset_class.is_none()
}

/// The places of the core profiles of a carrier protocol.
fn core_of_proto(ps: &Vec<DeviceProfile>, proto: ProfileProto) -> (r: Vec<usize>)
    ensures
        r@ == places(ps@, of_proto(proto)),
        forall|i: int| 0 <= i < r@.len() ==> (#[trigger] r@[i]) < ps@.len(),
        r@.len() > 0 <==> covers(ps@, proto),
{
    let ghost want = of_proto(proto);
    let mut r: Vec<usize> = Vec::new();
    let mut i: usize = 0;
    proof {
        assert(ps@.take(0) =~= Seq::empty());
    }
    while i < ps.len()
        invariant
            i <= ps@.len(),
            want == of_proto(proto),
            r@ == places(ps@.take(i as int), want),
            forall|k: int| 0 <= k < r@.len() ==> (#[trigger] r@[k]) < i,
            r@.len() > 0 <==> covers(ps@.take(i as int), proto),
        decreases ps@.len() - i,
    {
        proof {
            assert(ps@.take(i as int + 1).drop_last() =~= ps@.take(i as int));
            lemma_covers_step(ps@, i as int, proto);
        }
        if is_core(&ps[i]) && ps[i].protocol == proto {
            r.push(i);
        }
        i += 1;
    }
    proof {
        assert(ps@.take(i as int) =~= ps@);
    }
    r
}

proof fn lemma_covers_step(ps: Seq<DeviceProfile>, i: int, proto: ProfileProto)
    requires
        0 <= i < ps.len(),
    ensures
        covers(ps.take(i + 1), proto) <==> covers(ps.take(i), proto) || (core_profile(ps[i])
            && ps[i].protocol == proto),
{
    let a = ps.take(i);
    let b = ps.take(i + 1);
    if covers(a, proto) {
        let k = choose|k: int|
            0 <= k < a.len() && (#[trigger] a[k]).protocol == proto && a[k].asset_class is None;
        assert(b[k].protocol == proto);
    }
    if core_profile(ps[i]) && ps[i].protocol == proto {
        assert(b[i].protocol == proto);
    }
    if covers(b, proto) {
        let k = choose|k: int|
            0 <= k < b.len() && (#[trigger] b[k]).protocol == proto && b[k].asset_class is None;
        if k < i {
            assert(a[k].protocol == proto);
        }
    }
}

/// The places of the core profiles of a vendor.
fn core_of_vendor(ps: &Vec<DeviceProfile>, vendor: &str) -> (r: Vec<usize>)
    ensures
        r@ == places(ps@, of_vendor(vendor@)),
        forall|i: int| 0 <= i < r@.len() ==> (#[trigger] r@[i]) < ps@.len(),
{
    let ghost want = of_vendor(vendor@);
    let mut r: Vec<usize> = Vec::new();
    let mut i: usize = 0;
    proof {
        assert(ps@.take(0) =~= Seq::empty());
    }
    while i < ps.len()
        invariant
            i <= ps@.len(),
            want == of_vendor(vendor@),
            r@ == places(ps@.take(i as int), want),
            forall|k: int| 0 <= k < r@.len() ==> (#[trigger] r@[k]) < i,
        decreases ps@.len() - i,
    {
        proof {
            assert(ps@.take(i as int + 1).drop_last() =~= ps@.take(i as int));
        }
        if is_core(&ps[i]) && str_eq(ps[i].vendor.as_str(), vendor) {
            r.push(i);
        }
        i += 1;
    }
    proof {
        assert(ps@.take(i as int) =~= ps@);
    }
    r
}

/// The places of all core profiles.
fn core_all(ps: &Vec<DeviceProfile>) -> (r: Vec<usize>)
    ensures
        r@ == places(ps@, every_profile()),
        forall|i: int| 0 <= i < r@.len() ==> (#[trigger] r@[i]) < ps@.len(),
        r@.len() > 0 <==> any_core(ps@),
{
    let ghost want = every_profile();
    let mut r: Vec<usize> = Vec::new();
    let mut i: usize = 0;
    proof {
        assert(ps@.take(0) =~= Seq::empty());
    }
    while i < ps.len()
        invariant
            i <= ps@.len(),
            want == every_profile(),
            r@ == places(ps@.take(i as int), want),
            forall|k: int| 0 <= k < r@.len() ==> (#[trigger] r@[k]) < i,
            forall|k: int| 0 <= k < i && core_profile(#[trigger] ps@[k]) ==> r@.len() > 0,
            r@.len() > 0 ==> any_core(ps@),
        decreases ps@.len() - i,
    {
        proof {
            assert(ps@.take(i as int + 1).drop_last() =~= ps@.take(i as int));
        }
        if is_core(&ps[i]) {
            r.push(i);
        }
        i += 1;
    }
    proof {
        assert(ps@.take(i as int) =~= ps@);
    }
    r
}

/// Some profile is a core profile.
pub open spec fn any_core(ps: Seq<DeviceProfile>) -> bool {
    exists|i: int| 0 <= i < ps.len() && core_profile(#[trigger] ps[i])
}

/// A session can be fabricated into: there is nothing to fabricate from, some
/// profile is a core one, or no zone has room for a device.
pub open spec fn can_fabricate(s: Session, ps: Seq<DeviceProfile>) -> bool {
    ps.len() == 0 || any_core(ps) || room_list(subnet_models(s.subnets@), s.used()).len() == 0
}

/// Whether a session can be fabricated into.
pub fn fabricable(session: &Session, vuln: &VulnDb) -> (r: bool)
    ensures
        r == can_fabricate(*session, vuln.profiles@),
{
    let some_core: bool = core_all(&vuln.profiles).len() > 0;
    let full: bool = zones_with_room(session, &session.used_ips()).len() == 0;
    vuln.profiles.len() == 0 || some_core || full
}

/// Without a core profile no carrier protocol is present.
pub proof fn lemma_no_core(ps: Seq<DeviceProfile>)
    requires
        !any_core(ps),
    ensures
        present(ps).len() == 0,
{
    let keep = |p: ProfileProto| covers(ps, p);
    if present(ps).len() > 0 {
        carriers().lemma_filter_pred(keep, 0);
        let p = present(ps)[0];
        assert(covers(ps, p));
        let i = choose|i: int|
            0 <= i < ps.len() && (#[trigger] ps[i]).protocol == p && ps[i].asset_class is None;
        assert(core_profile(ps[i]));
    }
}

/// Where no zone has room, none has any with more addresses in use.
pub proof fn lemma_full_stays(
    a: Seq<SubnetModel>,
    b: Seq<SubnetModel>,
    used: Set<u32>,
    more: Set<u32>,
)
    requires
        room_list(a, used).len() == 0,
        a.len() == b.len(),
        forall|i: int| 0 <= i < a.len() ==> (#[trigger] a[i]).cidr == b[i].cidr,
        used.subset_of(more),
    ensures
        room_list(b, more).len() == 0,
    decreases a.len(),
{
    if a.len() > 0 {
        let (x, y) = (a.drop_last(), b.drop_last());
        assert forall|i: int| 0 <= i < x.len() implies (#[trigger] x[i]).cidr == y[i].cidr by {
            assert(x[i] == a[i] && y[i] == b[i]);
        }
        lemma_full_stays(x, y, used, more);
        let last = a.len() - 1;
        assert(a[last].cidr == b[last].cidr);
        if has_room(b.last().cidr, more) {
            let net = cidr_net(b.last().cidr)->0;
            crate::net::lemma_cidr_net_wf(b.last().cidr);
            net.lemma_bounds();
            lemma_first_free(net.host_lo(), net.host_hi(), used.insert(gateway(net)));
            lemma_first_free(net.host_lo(), net.host_hi(), more.insert(gateway(net)));
            let ip = free_in(net, more)->0;
            assert(!used.insert(gateway(net)).contains(ip));
            assert(!has_room(a.last().cidr, used));
            assert(free_in(net, used) is None);
            assert(used.insert(gateway(net)).contains(ip));
        }
    }
}

/// The distinct carrier protocols present among the core profiles, in a fixed
/// order, so zone creation can cycle them and guarantee every protocol is
/// represented. Infrastructure (firewall/router) profiles are excluded so they
/// never seed a core zone.
fn protocols_present(vuln: &VulnDb) -> (r: Vec<ProfileProto>)
    ensures
        r@ == present(vuln.profiles@),
        forall|i: int| 0 <= i < r@.len() ==> covers(vuln.profiles@, #[trigger] r@[i]),
{
    let ps = &vuln.profiles;
    let ghost keep = |p: ProfileProto| covers(vuln.profiles@, p);
    let all: [ProfileProto; 4] = [
        ProfileProto::Enip,
        ProfileProto::Modbus,
        ProfileProto::S7,
        ProfileProto::SwitchSnmp,
    ];
    let mut r: Vec<ProfileProto> = Vec::new();
    let mut i: usize = 0;
    proof {
        assert(all@ =~= carriers());
        reveal(Seq::filter);
        assert(all@.take(0) =~= Seq::empty());
    }
    while i < 4
        invariant
            i <= 4,
            all@.len() == 4,
            ps@ == vuln.profiles@,
            keep == (|p: ProfileProto| covers(vuln.profiles@, p)),
            r@ == all@.take(i as int).filter(keep),
            forall|k: int| 0 <= k < r@.len() ==> covers(vuln.profiles@, #[trigger] r@[k]),
        decreases 4 - i,
    {
        proof {
            reveal(Seq::filter);
            assert(all@.take(i as int + 1).drop_last() =~= all@.take(i as int));
        }
        if core_of_proto(ps, all[i]).len() > 0 {
            r.push(all[i]);
        }
        i += 1;
    }
    proof {
        assert(all@.take(4) =~= all@);
    }
    r
}

/// The networks of the zones whose text is one.
pub(crate) fn existing_nets(session: &Session) -> (r: Vec<Ipv4Net>)
    ensures
        r@ == zone_nets(subnet_models(session.subnets@)),
        nets_wf(r@),
{
    let ghost all = subnet_models(session.subnets@);
    let mut r: Vec<Ipv4Net> = Vec::new();
    let mut i: usize = 0;
    proof {
        assert(all.take(0) =~= Seq::empty());
    }
    while i < session.subnets.len()
        invariant
            i <= session.subnets@.len(),
            all == subnet_models(session.subnets@),
            r@ == zone_nets(all.take(i as int)),
            nets_wf(r@),
        decreases session.subnets@.len() - i,
    {
        proof {
            assert(all.take(i as int + 1).drop_last() =~= all.take(i as int));
        }
        if let Some(n) = parse_net(session.subnets[i].cidr.as_str()) {
            r.push(n);
        }
        i += 1;
    }
    proof {
        assert(all.take(i as int) =~= all);
    }
    r
}

pub proof fn lemma_known(s: Seq<SubnetRecord>, cidr: Seq<char>)
    ensures
        known(subnet_models(s), cidr) == has_cidr(s, cidr),
{
    let m = subnet_models(s);
    if known(m, cidr) {
        let i = choose|i: int| 0 <= i < m.len() && (#[trigger] m[i]).cidr == cidr;
        assert(s[i].cidr@ == cidr);
    }
    if has_cidr(s, cidr) {
        let i = choose|i: int| 0 <= i < s.len() && (#[trigger] s[i]).cidr@ == cidr;
        assert(m[i].cidr == cidr);
    }
}

/// Only the zones and devices of a session differ.
pub open spec fn same_but_plant(a: Session, b: Session) -> bool {
    a == (Session { subnets: a.subnets, devices: a.devices, ..b })
}

fn create_zone(
    session: &mut Session,
    vuln: &VulnDb,
    params: &AllocParams,
    rng: &mut rand_chacha::ChaCha8Rng,
    Ghost(used): Ghost<Set<u32>>,
) -> (r: Option<String>)
    ensures
        (opt_text(r), fab_of(*final(session), used, rng_words(*final(rng)))) == fab_of(
            *old(session),
            used,
            rng_words(*old(rng)),
        ).create_zone(vuln.profiles@, *params),
        same_but_plant(*final(session), *old(session)),
        final(session).devices == old(session).devices,
        r is None ==> *final(session) == *old(session),
        r is Some ==> old(session).subnets@.len() < MAX_SUBNETS && final(session).subnets@.len()
            == old(session).subnets@.len() + 1,
        old(session).wf() ==> final(session).wf(),
{
    let existing = existing_nets(session);
    let net = fresh_subnet(params.default_prefix, existing.as_slice(), rng);
    let protos = protocols_present(vuln);
    if protos.len() == 0 {
        return None;
    }
    let idx: usize = session.subnet_count();
    let proto = protos[idx % protos.len()];
    let candidates = core_of_proto(&vuln.profiles, proto);
    let k: usize = rng_index(rng, candidates.len());
    if idx >= MAX_SUBNETS {
        return None;
    }
    let profile = &vuln.profiles[candidates[k]];
    let family = family_of(profile.model.as_str());
    let name = name_zone(
        Some(profile.vendor.as_str()),
        Some(family.as_str()),
        profile.purdue_level,
        idx,
    );
    let rec = SubnetRecord {
        cidr: net.to_text(),
        zone_name: name,
        purdue_level: profile.purdue_level,
        vendor: Some(profile.vendor.clone()),
        domain: None,
    };
    let ghost before = session.subnets@;
    let ghost m = rec@;
    proof {
        lemma_known(before, net_text(net));
    }
    if session.add_subnet(rec) {
        proof {
            assert(subnet_models(session.subnets@) =~= subnet_models(before).push(m));
        }
        Some(net.to_text())
    } else {
        None
    }
}

/// The network texts of the zones that have room.
fn zones_with_room(session: &Session, used: &HashSet<u32>) -> (r: Vec<String>)
    ensures
        texts(r@) == room_list(subnet_models(session.subnets@), used@),
        forall|i: int| 0 <= i < r@.len() ==> has_room((#[trigger] r@[i])@, used@),
{
    let ghost all = subnet_models(session.subnets@);
    let mut r: Vec<String> = Vec::new();
    let mut i: usize = 0;
    proof {
        assert(all.take(0) =~= Seq::empty());
        assert(texts(r@) =~= Seq::empty());
    }
    while i < session.subnets.len()
        invariant
            i <= session.subnets@.len(),
            all == subnet_models(session.subnets@),
            texts(r@) == room_list(all.take(i as int), used@),
            forall|k: int| 0 <= k < r@.len() ==> has_room((#[trigger] r@[k])@, used@),
        decreases session.subnets@.len() - i,
    {
        proof {
            assert(all.take(i as int + 1).drop_last() =~= all.take(i as int));
        }
        if let Some(n) = parse_net(session.subnets[i].cidr.as_str()) {
            if next_free_in(n, used).is_some() {
                let ghost o = r@;
                r.push(session.subnets[i].cidr.clone());
                proof {
                    assert(texts(r@) =~= texts(o).push(session.subnets@[i as int].cidr@));
                }
            }
        }
        i += 1;
    }
    proof {
        assert(all.take(i as int) =~= all);
    }
    r
}

/// A subnet CIDR with a free host, creating a new zone when there is room and
/// either nothing has space or to add variety. None when all subnets are full
/// and the subnet cap blocks new zones.
fn choose_or_create_subnet(
    session: &mut Session,
    vuln: &VulnDb,
    params: &AllocParams,
    used: &HashSet<u32>,
    rng: &mut rand_chacha::ChaCha8Rng,
) -> (r: Option<String>)
    ensures
        (opt_text(r), fab_of(*final(session), used@, rng_words(*final(rng)))) == fab_of(
            *old(session),
            used@,
            rng_words(*old(rng)),
        ).choose_zone(vuln.profiles@, *params),
        same_but_plant(*final(session), *old(session)),
        final(session).devices == old(session).devices,
        r matches Some(c) ==> (old(session).subnets@.len() < MAX_SUBNETS
            && final(session).subnets@.len() == old(session).subnets@.len() + 1) || (
        *final(session) == *old(session) && has_room(c@, used@)),
        r is None ==> *final(session) == *old(session),
        old(session).wf() ==> final(session).wf(),
{
    let with_room = zones_with_room(session, used);
    let ghost f0 = fab_of(*session, used@, rng_words(*rng));
    let n: usize = session.subnet_count();
    let can_create: bool = n < params.max_subnets;
    let create: bool = if !can_create {
        false
    } else if n < protocols_present(vuln).len() || with_room.len() == 0 {
        true
    } else {
        rng_coin(rng)
    };
    proof {
        assert((create, fab_of(*session, used@, rng_words(*rng))) == f0.wants_zone(
            vuln.profiles@,
            *params,
        ));
    }
    if create {
        if let Some(cidr) = create_zone(session, vuln, params, rng, Ghost(used@)) {
            return Some(cidr);
        }
    }
    if with_room.len() == 0 {
        None
    } else {
        let k: usize = rng_index(rng, with_room.len());
        proof {
            assert(texts(with_room@)[k as int] == with_room@[k as int]@);
        }
        Some(with_room[k].clone())
    }
}

/// Prefer a core profile matching the zone vendor; fall back to any core profile.
/// Infrastructure (firewall/router) profiles are excluded: they are placed by the
/// bill of materials, not fabricated into the core fleet.
fn pick_profile<'a>(
    vuln: &'a VulnDb,
    vendor: Option<&str>,
    rng: &mut rand_chacha::ChaCha8Rng,
    Ghost(f): Ghost<Fab>,
) -> (r: &'a DeviceProfile)
    requires
        any_core(vuln.profiles@),
        f.words == rng_words(*old(rng)),
    ensures
        ({
            let step = f.pick_profile(vuln.profiles@, opt_str(vendor));
            &&& *r == vuln.profiles@[step.0]
            &&& step.1 == (Fab { words: rng_words(*final(rng)), ..f })
        }),
{
    if let Some(v) = vendor {
        let matches = core_of_vendor(&vuln.profiles, v);
        if matches.len() > 0 {
            let k: usize = rng_index(rng, matches.len());
            return &vuln.profiles[matches[k]];
        }
    }
    let all = core_all(&vuln.profiles);
    let k: usize = rng_index(rng, all.len());
    &vuln.profiles[all[k]]
}

/// A MAC from the profile's vendor OUI plus random low bytes, so devices in a
/// zone are distinct assets while keeping the vendor-identifying prefix. With no
/// vendor OUI, fall back to a globally-administered unicast OUI (not a
/// locally-administered one): a passive sensor ignores locally-administered MACs
/// for asset association.
fn make_mac(
    profile: &DeviceProfile,
    rng: &mut rand_chacha::ChaCha8Rng,
    Ghost(f): Ghost<Fab>,
) -> (r: [u8; 6])
    requires
        f.words == rng_words(*old(rng)),
    ensures
        (r@, Fab { words: rng_words(*final(rng)), ..f }) == f.make_mac(*profile),
{
    proof {
        reveal_with_fuel(Fab::draw_bytes, 7);
    }
    match profile.oui_prefix() {
        Some(oui) => {
            let a: u8 = rng_byte(rng);
            let b: u8 = rng_byte(rng);
            let c: u8 = rng_byte(rng);
            let r: [u8; 6] = [oui[0], oui[1], oui[2], a, b, c];
            proof {
                assert(f.draw_bytes(3).0 =~= seq![a, b, c]);
                assert(r@ =~= oui@ + seq![a, b, c]);
            }
            r
        },
        None => {
            let a: u8 = rng_byte(rng);
            let b: u8 = rng_byte(rng);
            let c: u8 = rng_byte(rng);
            let d: u8 = rng_byte(rng);
            let e: u8 = rng_byte(rng);
            let g: u8 = rng_byte(rng);
            let r: [u8; 6] = [a & 0xFC, b, c, d, e, g];
            proof {
                assert(f.draw_bytes(6).0 =~= seq![a, b, c, d, e, g]);
                assert(r@ =~= f.draw_bytes(6).0.update(0, a & 0xFC));
            }
            r
        },
    }
}

/// The vendor of the first zone with the network text.
fn zone_vendor<'a>(session: &'a Session, cidr: &str) -> (r: Option<&'a str>)
    ensures
        opt_str(r) == vendor_of(subnet_models(session.subnets@), cidr@),
{
    let ghost all = subnet_models(session.subnets@);
    let mut i: usize = 0;
    proof {
        assert(all.skip(0) =~= all);
    }
    while i < session.subnets.len()
        invariant
            i <= session.subnets@.len(),
            all == subnet_models(session.subnets@),
            vendor_of(all, cidr@) == vendor_of(all.skip(i as int), cidr@),
        decreases session.subnets@.len() - i,
    {
        proof {
            assert(all.skip(i as int).drop_first() =~= all.skip(i as int + 1));
        }
        if str_eq(session.subnets[i].cidr.as_str(), cidr) {
            return opt_ref(&session.subnets[i].vendor);
        }
        i += 1;
    }
    None
}

/// Fabricate zones and devices into the session until it holds `target` devices
/// (bounded by the device cap). Returns the number of devices added.
pub fn fabricate(
    session: &mut Session,
    vuln: &VulnDb,
    params: &AllocParams,
    target: usize,
    rng: &mut rand_chacha::ChaCha8Rng,
) -> (added: usize)
    requires
        can_fabricate(*old(session), vuln.profiles@),
    ensures
        !any_core(vuln.profiles@) ==> *final(session) == *old(session),
        final(session).subnets@.len() <= old(session).subnets@.len()
            || final(session).subnets@.len() <= MAX_SUBNETS,
        added == final(session).devices@.len() - old(session).devices@.len(),
        same_but_plant(*final(session), *old(session)),
        vuln.profiles@.len() == 0 ==> *final(session) == *old(session) && *final(rng) == *old(rng),
        vuln.profiles@.len() > 0 ==> ({
            let goal = if target < params.max_devices {
                target as nat
            } else {
                params.max_devices as nat
            };
            let done = fab_of(*old(session), old(session).used(), rng_words(*old(rng))).fabricate(
                vuln.profiles@,
                *params,
                goal,
            );
            fab_of(*final(session), done.used, rng_words(*final(rng))) == done
        }),
        old(session).wf() ==> final(session).wf(),
{
    if vuln.is_empty() {
        return 0;
    }
    let goal: usize = if target < params.max_devices {
        target
    } else {
        params.max_devices
    };
    let mut used = session.used_ips();
    let mut added: usize = 0;
    let ghost ps = vuln.profiles@;
    let ghost start = fab_of(*old(session), old(session).used(), rng_words(*old(rng)));
    while session.device_count() < goal
        invariant_except_break
            start.fabricate(ps, *params, goal as nat) == fab_of(
                *session,
                used@,
                rng_words(*rng),
            ).fabricate(ps, *params, goal as nat),
        invariant
            ps == vuln.profiles@,
            any_core(ps) || (*session == *old(session) && used@ == old(session).used()
                && room_list(subnet_models(session.subnets@), used@).len() == 0),
            added == session.devices@.len() - old(session).devices@.len(),
            same_but_plant(*session, *old(session)),
            session.subnets@.len() <= old(session).subnets@.len() || session.subnets@.len()
                <= MAX_SUBNETS,
            old(session).wf() ==> session.wf(),
        ensures
            fab_of(*session, used@, rng_words(*rng)) == start.fabricate(ps, *params, goal as nat),
        decreases
                goal - session.devices@.len(),
                if session.subnets@.len() < MAX_SUBNETS {
                    MAX_SUBNETS - session.subnets@.len()
                } else {
                    0
                },
    {
        let ghost f0 = fab_of(*session, used@, rng_words(*rng));
        let cidr = match choose_or_create_subnet(session, vuln, params, &used, rng) {
            Some(c) => c,
            None => {
                break ;
            },
        };
        proof {
            if !any_core(ps) {
                lemma_no_core(ps);
            }
        }
        let ghost f1 = fab_of(*session, used@, rng_words(*rng));
        let net = match parse_net(cidr.as_str()) {
            Some(n) => n,
            None => {
                break ;
            },
        };
        let ip: u32 = match next_free_in(net, &used) {
            Some(ip) => ip,
            None => {
                continue ;
            },
        };
        let rec = {
            let vendor = zone_vendor(session, cidr.as_str());
            let profile = pick_profile(vuln, vendor, rng, Ghost(f1));
            let ghost f2 = Fab { words: rng_words(*rng), ..f1 };
            let mac = make_mac(profile, rng, Ghost(f2));
            let rec = DeviceRecord {
                ip: ip_string(ip),
                mac: fmt_mac(mac),
                vendor: profile.vendor.clone(),
                model: profile.model.clone(),
                firmware: profile.firmware.clone(),
                protocol: profile.protocol.as_str().to_owned(),
                cves: clone_strings(&profile.cves),
                subnet_cidr: cidr.clone(),
                hostname: None,
                asset_type: Some(asset_label_for_proto(profile.protocol).to_owned()),
            };
            rec
        };
        let ghost before = session.devices@;
        let ghost m = rec@;
        let ok: bool = session.add_device(rec);
        if !ok {
            break ;
        }
        proof {
            assert(device_models(session.devices@) =~= device_models(before).push(m));
        }
        used.insert(ip);
        added += 1;
    }
    added
}

/// No two devices share an address text.
pub open spec fn distinct_ips(ds: Seq<DeviceModel>) -> bool {
    forall|i: int, j: int| 0 <= i < j < ds.len() ==> (#[trigger] ds[i]).ip != (#[trigger] ds[j]).ip
}

/// Every device's address is in use.
pub open spec fn all_used(ds: Seq<DeviceModel>, used: Set<u32>) -> bool {
    forall|i: int, ip: u32|
        0 <= i < ds.len() && (#[trigger] ds[i]).ip == #[trigger] ip_text(ip) ==> used.contains(ip)
}

/// The device is one of a core profile.
pub open spec fn from_core(ps: Seq<DeviceProfile>, d: DeviceModel) -> bool {
    exists|k: int|
        0 <= k < ps.len() && core_profile(#[trigger] ps[k]) && d.vendor == ps[k].vendor@ && d.model
            == ps[k].model@ && d.firmware == ps[k].firmware@ && d.protocol == proto_tag(
            ps[k].protocol,
        ) && d.cves == texts(ps[k].cves@)
}

/// The device sits in its zone's network, not on the gateway.
pub open spec fn in_its_zone(d: DeviceModel) -> bool {
    exists|ip: u32|
        d.ip == #[trigger] ip_text(ip) && cidr_net(d.subnet_cidr) is Some && cidr_net(
            d.subnet_cidr,
        )->0.has(ip as int) && ip != gateway(cidr_net(d.subnet_cidr)->0)
}

/// What fabrication keeps and promises, from a plant to a later one: nothing is
/// lost, addresses stay distinct, and each new device is of a core profile and
/// sits in a zone of the plant.
pub open spec fn grown(ps: Seq<DeviceProfile>, a: Fab, b: Fab) -> bool {
    &&& a.devices.is_prefix_of(b.devices)
    &&& a.subnets.is_prefix_of(b.subnets)
    &&& a.used.subset_of(b.used)
    &&& distinct_ips(a.devices) && all_used(a.devices, a.used) ==> distinct_ips(b.devices)
        && all_used(b.devices, b.used)
    &&& forall|i: int|
        a.devices.len() <= i < b.devices.len() ==> from_core(ps, #[trigger] b.devices[i])
            && in_its_zone(b.devices[i]) && known(b.subnets, b.devices[i].subnet_cidr)
}

pub proof fn lemma_known_prefix(a: Seq<SubnetModel>, b: Seq<SubnetModel>, cidr: Seq<char>)
    requires
        a.is_prefix_of(b),
        known(a, cidr),
    ensures
        known(b, cidr),
{
    let i = choose|i: int| 0 <= i < a.len() && (#[trigger] a[i]).cidr == cidr;
    assert(b[i] == a[i]) by {
        assert(a == b.take(a.len() as int));
    }
    assert(b[i].cidr == cidr);
}

proof fn lemma_grown_trans(ps: Seq<DeviceProfile>, a: Fab, b: Fab, c: Fab)
    requires
        grown(ps, a, b),
        grown(ps, b, c),
    ensures
        grown(ps, a, c),
{
    assert(a.devices == b.devices.take(a.devices.len() as int));
    assert(b.devices == c.devices.take(b.devices.len() as int));
    assert(a.subnets == b.subnets.take(a.subnets.len() as int));
    assert(b.subnets == c.subnets.take(b.subnets.len() as int));
    assert(a.devices =~= c.devices.take(a.devices.len() as int));
    assert(a.subnets =~= c.subnets.take(a.subnets.len() as int));
    assert forall|i: int| a.devices.len() <= i < c.devices.len() implies from_core(
        ps,
        #[trigger] c.devices[i],
    ) && in_its_zone(c.devices[i]) && known(c.subnets, c.devices[i].subnet_cidr) by {
        if i < b.devices.len() {
            assert(c.devices[i] == b.devices[i]);
            lemma_known_prefix(b.subnets, c.subnets, b.devices[i].subnet_cidr);
        }
    }
}

pub proof fn lemma_places(ps: Seq<DeviceProfile>, want: spec_fn(DeviceProfile) -> bool)
    requires
        ps.len() <= usize::MAX,
    ensures
        forall|i: int|
            0 <= i < places(ps, want).len() ==> (#[trigger] places(ps, want)[i]) < ps.len()
                && core_profile(ps[places(ps, want)[i] as int]) && want(
                ps[places(ps, want)[i] as int],
            ),
        (exists|k: int| 0 <= k < ps.len() && core_profile(#[trigger] ps[k]) && want(ps[k]))
            ==> places(ps, want).len() > 0,
    decreases ps.len(),
{
    if ps.len() > 0 {
        let head = ps.drop_last();
        lemma_places(head, want);
        let r = places(head, want);
        assert forall|i: int| 0 <= i < places(ps, want).len() implies (
        #[trigger] places(ps, want)[i]) < ps.len() && core_profile(
            ps[places(ps, want)[i] as int],
        ) && want(ps[places(ps, want)[i] as int]) by {
            if i < r.len() {
                assert(places(ps, want)[i] == r[i]);
                assert(head[r[i] as int] == ps[r[i] as int]);
            }
        }
        if exists|k: int| 0 <= k < ps.len() && core_profile(#[trigger] ps[k]) && want(ps[k]) {
            let k = choose|k: int| 0 <= k < ps.len() && core_profile(#[trigger] ps[k]) && want(ps[k]);
            if k < head.len() {
                assert(core_profile(head[k]) && want(head[k]));
            }
        }
    }
}

pub proof fn lemma_pick_profile(f: Fab, ps: Seq<DeviceProfile>, vendor: Option<Seq<char>>)
    requires
        any_core(ps),
        ps.len() <= usize::MAX,
    ensures
        ({
            let (k, g) = f.pick_profile(ps, vendor);
            &&& 0 <= k < ps.len()
            &&& core_profile(ps[k])
            &&& g == (Fab { words: g.words, ..f })
        }),
{
    if vendor is Some {
        lemma_places(ps, of_vendor(vendor->0));
    }
    lemma_places(ps, every_profile());
    let k = choose|k: int| 0 <= k < ps.len() && core_profile(#[trigger] ps[k]);
    assert(core_profile(ps[k]) && every_profile()(ps[k]));
}

pub proof fn lemma_draw_bytes(f: Fab, n: nat)
    ensures
        f.draw_bytes(n).1 == (Fab { words: f.draw_bytes(n).1.words, ..f }),
        f.draw_bytes(n).0.len() == n,
    decreases n,
{
    if n > 0 {
        lemma_draw_bytes(f, (n - 1) as nat);
    }
}

pub proof fn lemma_place_device(f: Fab, ps: Seq<DeviceProfile>, cidr: Seq<char>, ip: u32)
    requires
        any_core(ps),
        ps.len() <= usize::MAX,
        cidr_net(cidr) is Some,
        cidr_net(cidr)->0.wf(),
        free_in(cidr_net(cidr)->0, f.used) == Some(ip),
        known(f.subnets, cidr),
    ensures
        grown(ps, f, f.place_device(ps, cidr, ip)),
        f.place_device(ps, cidr, ip).subnets == f.subnets,
        f.place_device(ps, cidr, ip).devices.len() == f.devices.len() || f.place_device(
            ps,
            cidr,
            ip,
        ).devices.len() == f.devices.len() + 1,
        f.place_device(ps, cidr, ip).devices.len() == f.devices.len() + 1 <==> f.devices.len()
            < MAX_DEVICES,
{
    let net = cidr_net(cidr)->0;
    net.lemma_bounds();
    lemma_first_free(net.host_lo(), net.host_hi(), f.used.insert(gateway(net)));
    let (k, g) = f.pick_profile(ps, vendor_of(f.subnets, cidr));
    lemma_pick_profile(f, ps, vendor_of(f.subnets, cidr));
    lemma_draw_bytes(g, 3);
    lemma_draw_bytes(g, 6);
    let r = f.place_device(ps, cidr, ip);
    if r.devices.len() > f.devices.len() {
        let d = r.devices.last();
        assert(r.devices.drop_last() =~= f.devices);
        assert(f.devices =~= r.devices.take(f.devices.len() as int));
        assert(d.ip == ip_text(ip));
        assert(from_core(ps, d));
        assert(in_its_zone(d));
        if distinct_ips(f.devices) && all_used(f.devices, f.used) {
            assert forall|i: int, j: int| 0 <= i < j < r.devices.len() implies (
            #[trigger] r.devices[i]).ip != (#[trigger] r.devices[j]).ip by {
                if j < f.devices.len() {
                    assert(f.devices[i].ip != f.devices[j].ip);
                } else if r.devices[i].ip == ip_text(ip) {
                    assert(f.devices[i].ip == ip_text(ip));
                }
            }
            assert forall|i: int, x: u32|
                0 <= i < r.devices.len() && (#[trigger] r.devices[i]).ip == #[trigger] ip_text(
                    x,
                ) implies r.used.contains(x) by {
                if i < f.devices.len() {
                    assert(f.devices[i].ip == ip_text(x));
                } else {
                    law_ip_text_injective(x, ip);
                }
            }
        }
    }
    assert(f.subnets =~= f.subnets.take(f.subnets.len() as int));
    assert(f.devices =~= f.devices.take(f.devices.len() as int));
}

pub proof fn lemma_room_list(subnets: Seq<SubnetModel>, used: Set<u32>)
    ensures
        forall|i: int|
            0 <= i < room_list(subnets, used).len() ==> known(
                subnets,
                #[trigger] room_list(subnets, used)[i],
            ),
    decreases subnets.len(),
{
    if subnets.len() > 0 {
        let head = subnets.drop_last();
        lemma_room_list(head, used);
        let r = room_list(head, used);
        let n = room_list(subnets, used);
        assert(head =~= subnets.take(head.len() as int));
        assert forall|i: int| 0 <= i < n.len() implies known(subnets, #[trigger] n[i]) by {
            if i < r.len() {
                assert(n[i] == r[i]);
                lemma_known_prefix(head, subnets, r[i]);
            } else {
                assert(subnets[subnets.len() - 1].cidr == n[i]);
            }
        }
    }
}

pub proof fn lemma_choose_zone(f: Fab, ps: Seq<DeviceProfile>, params: AllocParams)
    ensures
        ({
            let (zone, g) = f.choose_zone(ps, params);
            &&& grown(ps, f, g)
            &&& g.devices == f.devices
            &&& g.used == f.used
            &&& zone is Some ==> known(g.subnets, zone->0)
            &&& g.subnets.len() <= f.subnets.len() + 1
            &&& g.subnets.len() > f.subnets.len() ==> f.subnets.len() < params.max_subnets
                && f.subnets.len() < MAX_SUBNETS
        }),
{
    lemma_room_list(f.subnets, f.used);
    let (zone, g) = f.choose_zone(ps, params);
    assert(f.devices =~= g.devices.take(f.devices.len() as int));
    assert(f.subnets =~= g.subnets.take(f.subnets.len() as int));
    if g.subnets.len() > f.subnets.len() {
        assert(g.subnets[g.subnets.len() - 1].cidr == zone->0);
    }
}

/// Fabrication loses nothing and keeps addresses distinct; each device it adds is
/// of a core profile and sits in a zone of the plant, off the gateway. The fleet
/// never grows past the target or the hard cap, nor the zones past their caps.
pub proof fn law_fabricate(f: Fab, ps: Seq<DeviceProfile>, params: AllocParams, target: nat)
    requires
        any_core(ps) || room_list(f.subnets, f.used).len() == 0,
        ps.len() <= usize::MAX,
    ensures
        ({
            let g = f.fabricate(ps, params, target);
            &&& grown(ps, f, g)
            &&& g.devices.len() > f.devices.len() ==> g.devices.len() <= target && g.devices.len()
                <= MAX_DEVICES
            &&& g.subnets.len() > f.subnets.len() ==> g.subnets.len() <= params.max_subnets
                && g.subnets.len() <= MAX_SUBNETS
        }),
    decreases
            target - f.devices.len(),
            if f.subnets.len() < MAX_SUBNETS {
                MAX_SUBNETS - f.subnets.len()
            } else {
                0
            },
{
    assert(f.devices =~= f.devices.take(f.devices.len() as int));
    assert(f.subnets =~= f.subnets.take(f.subnets.len() as int));
    if f.devices.len() < target {
        let (zone, g) = f.choose_zone(ps, params);
        lemma_choose_zone(f, ps, params);
        if !any_core(ps) {
            lemma_no_core(ps);
        }
        if zone is Some && cidr_net(zone->0) is Some {
            let net = cidr_net(zone->0)->0;
            crate::net::lemma_cidr_net_wf(zone->0);
            match free_in(net, g.used) {
                None => if g.devices.len() == f.devices.len() && f.subnets.len() < MAX_SUBNETS
                    && g.subnets.len() > f.subnets.len() {
                    law_fabricate(g, ps, params, target);
                    lemma_grown_trans(ps, f, g, g.fabricate(ps, params, target));
                },
                Some(ip) => {
                    lemma_place_device(g, ps, zone->0, ip);
                    let h = g.place_device(ps, zone->0, ip);
                    lemma_grown_trans(ps, f, g, h);
                    if h.devices.len() == f.devices.len() + 1 {
                        law_fabricate(h, ps, params, target);
                        lemma_grown_trans(ps, f, h, h.fabricate(ps, params, target));
                    }
                },
            }
        }
    }
}

} // verus!
