//! Zone model and naming, plus green-laser read-only zone derivation.
//!
//! A zone is a subnet grouped from the conversation graph, named after its
//! Purdue/62443 level and dominant vendor. Red laser fabricates zones into the
//! ledger; green laser derives them from a real capture's actual addresses and
//! MAC OUIs without changing anything.

use std::collections::HashMap;
use vstd::prelude::*;
use crate::bytes::{be32, read_be32};
use crate::net::Ipv4Net;
use crate::order::{
    by_key, increasing, lemma_ascending_contains, lemma_ascending_increasing, sort_by_key, sort_u32,
};
use crate::oui::{prefix_number, vendor_in, OuiDb};
use crate::pcapio::{frames, Capture};
use crate::proto::frame::{layout_of, parse_layout, L3Kind};
use crate::proto::l3::{
    arp_ipv4, collect_groups, collect_hosts, group, group_list, group_of, hosts_in, is_arp_ipv4,
    is_group_list, lemma_group, lemma_group_list, nets_wf,
};
use crate::text::{
    chars_of, contains, dec, holds, is_white, opt_str, opt_text, push_dec, str_eq, string_of,
    trim_start, white,
};

verus! {

#[derive(Debug)]
pub struct Zone {
    pub cidr: Ipv4Net,
    pub name: String,
    pub purdue_level: u8,
    pub vendor: Option<String>,
    pub device_ips: Vec<u32>,
}

/// The label of a Purdue/62443 level.
pub open spec fn level_text(level: u8) -> Seq<char> {
    if level == 0 {
        "Field I/O"@
    } else if level == 1 {
        "Basic Control"@
    } else if level == 2 {
        "Supervisory"@
    } else if level == 3 {
        "Operations"@
    } else if level == 4 {
        "Enterprise"@
    } else {
        "Network"@
    }
}

/// Human label for a Purdue/62443 level.
pub fn purdue_label(level: u8) -> (r: &'static str)
    ensures
        r@ == level_text(level),
{
    match level {
        0 => "Field I/O",
        1 => "Basic Control",
        2 => "Supervisory",
        3 => "Operations",
        4 => "Enterprise",
        _ => "Network",
    }
}

/// The name is that of a switch maker.
pub open spec fn is_switch_vendor(v: Seq<char>) -> bool {
    holds(v, "Cisco"@) || holds(v, "Hirschmann"@) || holds(v, "Moxa"@) || holds(v, "Belden"@)
        || holds(v, "Westermo"@)
}

/// The name is that of a controller maker.
pub open spec fn is_controller_vendor(v: Seq<char>) -> bool {
    holds(v, "Siemens"@) || holds(v, "Rockwell"@) || holds(v, "Schneider"@) || holds(v, "GE"@)
        || holds(v, "ABB"@) || holds(v, "Beckhoff"@) || holds(v, "WAGO"@) || holds(v, "Phoenix"@)
}

/// The level that a vendor name stands for.
pub open spec fn level_of(vendor: Option<Seq<char>>) -> u8 {
    match vendor {
        None => 3,
        Some(v) => if is_switch_vendor(v) {
            2
        } else if is_controller_vendor(v) {
            1
        } else {
            3
        },
    }
}

/// Coarse Purdue level from a vendor name: switch vendors sit at the conduit
/// boundary (2), known controller vendors at basic control (1), the rest at
/// operations (3). A heuristic, used only to label derived zones.
pub fn infer_level(vendor: Option<&str>) -> (r: u8)
    ensures
        r == level_of(opt_str(vendor)),
{
    match vendor {
        None => 3,
        Some(v) => {
            if contains(v, "Cisco") || contains(v, "Hirschmann") || contains(v, "Moxa")
                || contains(v, "Belden") || contains(v, "Westermo") {
                2
            } else if contains(v, "Siemens") || contains(v, "Rockwell") || contains(v, "Schneider")
                || contains(v, "GE") || contains(v, "ABB") || contains(v, "Beckhoff") || contains(
                v,
                "WAGO",
            ) || contains(v, "Phoenix") {
                1
            } else {
                3
            }
        },
    }
}

/// The characters ahead of the first white space.
pub open spec fn word(s: Seq<char>) -> Seq<char>
    decreases s.len(),
{
    if s.len() == 0 || is_white(s[0]) {
        Seq::empty()
    } else {
        seq![s[0]] + word(s.drop_first())
    }
}

/// The first word of a text, empty if it has none.
pub open spec fn first_word(s: Seq<char>) -> Seq<char> {
    word(trim_start(s))
}

/// A short product-family token from a model string, e.g. "SIMATIC" from
/// "SIMATIC S7-1200 CPU 1212C". Used to flavour fabricated zone names.
pub fn family_of(model: &str) -> (r: String)
    ensures
        r@ == first_word(model@),
{
    let cs = chars_of(model);
    let mut i: usize = 0;
    proof {
        assert(cs@.skip(0) =~= cs@);
    }
    while i < cs.len() && white(cs[i])
        invariant
            i <= cs@.len(),
            trim_start(cs@) == trim_start(cs@.skip(i as int)),
        decreases cs@.len() - i,
    {
        proof {
            assert(cs@.skip(i as int).drop_first() =~= cs@.skip(i as int + 1));
        }
        i += 1;
    }
    let start: usize = i;
    proof {
        assert(trim_start(cs@) == cs@.skip(start as int));
        assert(cs@.subrange(start as int, start as int) =~= Seq::empty());
        assert(word(cs@.skip(start as int)) =~= Seq::<char>::empty() + word(
            cs@.skip(start as int),
        ));
    }
    while i < cs.len() && !white(cs[i])
        invariant
            start <= i <= cs@.len(),
            word(cs@.skip(start as int)) == cs@.subrange(start as int, i as int) + word(
                cs@.skip(i as int),
            ),
        decreases cs@.len() - i,
    {
        proof {
            let rest = cs@.skip(i as int);
            assert(rest.drop_first() =~= cs@.skip(i as int + 1));
            assert(cs@.subrange(start as int, i as int) + (seq![rest[0]] + word(
                rest.drop_first(),
            )) =~= cs@.subrange(start as int, i as int + 1) + word(cs@.skip(i as int + 1)));
        }
        i += 1;
    }
    let w = vstd::slice::slice_subrange(cs.as_slice(), start, i);
    proof {
        assert(word(cs@.skip(i as int)) =~= Seq::empty());
        assert(w@ =~= first_word(model@));
    }
    string_of(w)
}

/// The name of a zone.
pub open spec fn zone_name(
    vendor: Option<Seq<char>>,
    family: Option<Seq<char>>,
    level: u8,
    idx: nat,
) -> Seq<char> {
    let v = match vendor {
        Some(v) => v,
        None => "ICS"@,
    };
    let f = match family {
        Some(f) => if f.len() > 0 {
            v + " "@ + f
        } else {
            v
        },
        None => v,
    };
    f + " "@ + level_text(level) + " Area "@ + dec(idx + 1)
}

/// Build a zone name from vendor, optional product family, Purdue level, and a
/// per-vendor area index, e.g. "Siemens AG SIMATIC Basic Control Area 1".
pub fn name_zone(vendor: Option<&str>, family: Option<&str>, level: u8, idx: usize) -> (r: String)
    requires
        idx < usize::MAX,
    ensures
        r@ == zone_name(opt_str(vendor), opt_str(family), level, idx as nat),
{
    let mut s = match vendor {
        Some(v) => v.to_owned(),
        None => "ICS".to_owned(),
    };
    if let Some(f) = family {
        if !f.is_empty() {
            s.append(" ");
            s.append(f);
        }
    }
    s.append(" ");
    s.append(purdue_label(level));
    s.append(" Area ");
    push_dec(&mut s, idx as u64 + 1);
    s
}

/// The sender of a frame and the MAC it sends from: the source of an IPv4 packet
/// with the Ethernet source, or the sender of an ARP message with its hardware
/// address.
pub open spec fn sender(b: Seq<u8>) -> Option<(u32, Seq<u8>)> {
    match layout_of(b) {
        None => None,
        Some(l) => if l.l3_kind == L3Kind::Ipv4 {
            Some((be32(b, l.l3 + 12) as u32, b.subrange(6, 12)))
        } else if arp_ipv4(b, l.l3 as int) {
            Some((be32(b, l.l3 + 14) as u32, b.subrange(l.l3 + 8, l.l3 + 14)))
        } else {
            None
        },
    }
}

/// The MAC of a host: the one of the first frame that it sends.
pub open spec fn first_mac(fs: Seq<Seq<u8>>, ip: u32) -> Option<Seq<u8>>
    decreases fs.len(),
{
    if fs.len() == 0 {
        None
    } else {
        match first_mac(fs.drop_last(), ip) {
            Some(m) => Some(m),
            None => match sender(fs.last()) {
                Some((a, m)) => if a == ip {
                    Some(m)
                } else {
                    None
                },
                None => None,
            },
        }
    }
}

/// The vendors of the hosts of a list, in order, as far as they are known.
pub open spec fn vendor_votes(
    ips: Seq<u32>,
    fs: Seq<Seq<u8>>,
    rows: Seq<(u32, Seq<char>)>,
) -> Seq<Seq<char>>
    decreases ips.len(),
{
    if ips.len() == 0 {
        Seq::empty()
    } else {
        let v = vendor_votes(ips.drop_last(), fs, rows);
        match host_vendor(fs, rows, ips.last()) {
            Some(x) => v.push(x),
            None => v,
        }
    }
}

/// The vendor of a host, by its MAC.
pub open spec fn host_vendor(
    fs: Seq<Seq<u8>>,
    rows: Seq<(u32, Seq<char>)>,
    ip: u32,
) -> Option<Seq<char>> {
    match first_mac(fs, ip) {
        Some(m) => vendor_in(rows, prefix_number(m)),
        None => None,
    }
}

/// How often a vote was cast.
pub open spec fn tally(votes: Seq<Seq<char>>, v: Seq<char>) -> nat
    decreases votes.len(),
{
    if votes.len() == 0 {
        0
    } else {
        tally(votes.drop_last(), v) + if votes.last() == v {
            1nat
        } else {
            0
        }
    }
}

/// The vote at `i` is cast as often as any, and more often than any before it.
pub open spec fn wins(votes: Seq<Seq<char>>, i: int) -> bool {
    &&& 0 <= i < votes.len()
    &&& forall|j: int|
        0 <= j < votes.len() ==> tally(votes, #[trigger] votes[j]) <= tally(votes, votes[i])
    &&& forall|j: int|
        0 <= j < i ==> tally(votes, #[trigger] votes[j]) < tally(votes, votes[i])
}

/// The winner of a vote: the most frequent, the earliest of equals. `None`
/// without votes.
pub open spec fn winner(votes: Seq<Seq<char>>) -> Option<Seq<char>> {
    if votes.len() == 0 {
        None
    } else {
        Some(votes[choose|i: int| wins(votes, i)])
    }
}

proof fn lemma_winner(votes: Seq<Seq<char>>, i: int)
    requires
        wins(votes, i),
    ensures
        winner(votes) == Some(votes[i]),
{
    let k = choose|k: int| wins(votes, k);
    assert(wins(votes, k));
    if k < i {
        assert(tally(votes, votes[k]) < tally(votes, votes[i]));
        assert(tally(votes, votes[i]) <= tally(votes, votes[k]));
    } else if i < k {
        assert(tally(votes, votes[i]) < tally(votes, votes[k]));
        assert(tally(votes, votes[k]) <= tally(votes, votes[i]));
    }
}

pub open spec fn vote_texts(v: Seq<&str>) -> Seq<Seq<char>> {
    v.map_values(|s: &str| s@)
}

fn count_vote(votes: &Vec<&str>, v: &str) -> (r: usize)
    ensures
        r == tally(vote_texts(votes@), v@),
{
    let ghost all = vote_texts(votes@);
    let mut r: usize = 0;
    let mut i: usize = 0;
    proof {
        assert(all.take(0) =~= Seq::empty());
    }
    while i < votes.len()
        invariant
            i <= votes@.len(),
            all == vote_texts(votes@),
            r == tally(all.take(i as int), v@),
            r <= i,
        decreases votes@.len() - i,
    {
        proof {
            assert(all.take(i as int + 1).drop_last() =~= all.take(i as int));
        }
        if str_eq(votes[i], v) {
            r += 1;
        }
        i += 1;
    }
    proof {
        assert(all.take(i as int) =~= all);
    }
    r
}

/// The winner of a vote.
fn pick_winner(votes: &Vec<&str>) -> (r: Option<String>)
    ensures
        opt_text(r) == winner(vote_texts(votes@)),
{
    if votes.len() == 0 {
        return None;
    }
    let ghost all = vote_texts(votes@);
    let mut best: usize = 0;
    let mut best_count: usize = count_vote(votes, votes[0]);
    let mut i: usize = 1;
    while i < votes.len()
        invariant
            1 <= i <= votes@.len(),
            all == vote_texts(votes@),
            best < i,
            best_count == tally(all, all[best as int]),
            forall|j: int| 0 <= j < i ==> tally(all, #[trigger] all[j]) <= best_count,
            forall|j: int| 0 <= j < best ==> tally(all, #[trigger] all[j]) < best_count,
        decreases votes@.len() - i,
    {
        let n: usize = count_vote(votes, votes[i]);
        if n > best_count {
            best = i;
            best_count = n;
        }
        i += 1;
    }
    proof {
        assert(wins(all, best as int));
        lemma_winner(all, best as int);
    }
    Some(votes[best].to_owned())
}

/// An ascending list of the elements of a set.
pub open spec fn lists(s: Seq<u32>, set: Set<u32>) -> bool {
    &&& increasing(s)
    &&& forall|x: u32| s.contains(x) <==> set.contains(x)
}

/// The hosts of a group.
pub open spec fn members(hosts: Set<u32>, hints: Seq<Ipv4Net>, g: (u8, u32)) -> Set<u32> {
    hosts.filter(|h: u32| group(h, hints) == g)
}

/// The key that zones are ordered by: the network, then the prefix length.
pub open spec fn zone_keys(gs: Seq<(u8, u32)>) -> Seq<u64> {
    gs.map_values(|g: (u8, u32)| (g.1 as int * 64 + g.0) as u64)
}

/// The groups of a capture, lowest network first.
pub open spec fn zone_groups(fs: Seq<Seq<u8>>, hints: Seq<Ipv4Net>) -> Seq<(u8, u32)> {
    let gs = group_list(hosts_in(fs), hints);
    by_key(zone_keys(gs)).map_values(|i: usize| gs[i as int])
}

/// The zone is that of the group, number `idx` of a capture.
pub open spec fn is_zone(
    z: Zone,
    g: (u8, u32),
    idx: nat,
    fs: Seq<Seq<u8>>,
    hints: Seq<Ipv4Net>,
    rows: Seq<(u32, Seq<char>)>,
) -> bool {
    &&& z.cidr == (Ipv4Net { addr: g.1, prefix: g.0 })
    &&& lists(z.device_ips@, members(hosts_in(fs), hints, g))
    &&& opt_text(z.vendor) == winner(vendor_votes(z.device_ips@, fs, rows))
    &&& z.purdue_level == level_of(opt_text(z.vendor))
    &&& z.name@ == zone_name(opt_text(z.vendor), None, z.purdue_level, idx)
}

/// The MAC of each host of a capture.
fn collect_macs(cap: &Capture) -> (r: HashMap<u32, [u8; 6]>)
    ensures
        forall|ip: u32| #[trigger]
            r@.contains_key(ip) <==> first_mac(frames(cap@), ip) is Some,
        forall|ip: u32| #[trigger]
            r@.contains_key(ip) ==> first_mac(frames(cap@), ip) == Some(r@[ip]@),
{
    let mut r: HashMap<u32, [u8; 6]> = HashMap::new();
    let ghost fs = frames(cap@);
    let mut i: usize = 0;
    proof {
        assert(fs.take(0) =~= Seq::empty());
    }
    while i < cap.packets.len()
        invariant
            i <= cap.packets@.len(),
            fs == frames(cap@),
            forall|ip: u32| #[trigger]
                r@.contains_key(ip) <==> first_mac(fs.take(i as int), ip) is Some,
            forall|ip: u32| #[trigger]
                r@.contains_key(ip) ==> first_mac(fs.take(i as int), ip) == Some(r@[ip]@),
        decreases cap.packets@.len() - i,
    {
        let data: &[u8] = cap.packets[i].data.as_slice();
        proof {
            assert(fs.take(i as int + 1).drop_last() =~= fs.take(i as int));
            assert(fs.take(i as int + 1).last() == data@);
        }
        if let Some((ip, mac)) = frame_sender(data) {
            if !r.contains_key(&ip) {
                r.insert(ip, mac);
            }
        }
        i += 1;
    }
    proof {
        assert(fs.take(i as int) =~= fs);
    }
    r
}

fn six(data: &[u8], at: usize) -> (r: [u8; 6])
    requires
        at + 6 <= data.len(),
    ensures
        r@ == data@.subrange(at as int, at + 6),
{
    let r: [u8; 6] = [
        data[at],
        data[at + 1],
        data[at + 2],
        data[at + 3],
        data[at + 4],
        data[at + 5],
    ];
    proof {
        assert(r@ =~= data@.subrange(at as int, at + 6));
    }
    r
}

fn frame_sender(data: &[u8]) -> (r: Option<(u32, [u8; 6])>)
    ensures
        r is Some <==> sender(data@) is Some,
        r matches Some(x) ==> sender(data@) == Some((x.0, x.1@)),
{
    match parse_layout(data) {
        None => None,
        Some(l) => {
            if l.l3_kind == L3Kind::Ipv4 {
                Some((read_be32(data, l.l3 + 12), six(data, 6)))
            } else if is_arp_ipv4(data, l.l3) {
                Some((read_be32(data, l.l3 + 14), six(data, l.l3 + 8)))
            } else {
                None
            }
        },
    }
}

/// The hosts of a group, ascending.
fn group_members(hosts: &Vec<u32>, hints: &[Ipv4Net], g: (u8, u32)) -> (r: Vec<u32>)
    requires
        nets_wf(hints@),
        hosts@.no_duplicates(),
    ensures
        lists(r@, members(hosts@.to_set(), hints@, g)),
{
    let mut found: Vec<u32> = Vec::new();
    let mut i: usize = 0;
    while i < hosts.len()
        invariant
            i <= hosts@.len(),
            nets_wf(hints@),
            hosts@.no_duplicates(),
            found@.no_duplicates(),
            forall|k: int|
                0 <= k < found@.len() ==> group(#[trigger] found@[k], hints@) == g && hosts@.take(
                    i as int,
                ).contains(found@[k]),
            forall|k: int|
                0 <= k < i && group(#[trigger] hosts@[k], hints@) == g ==> found@.contains(
                    hosts@[k],
                ),
        decreases hosts@.len() - i,
    {
        let h: u32 = hosts[i];
        let ghost o = found@;
        let gh: (u8, u32) = group_of(h, hints);
        if gh.0 == g.0 && gh.1 == g.1 {
            found.push(h);
        }
        proof {
            let a = hosts@.take(i as int);
            let b = hosts@.take(i as int + 1);
            assert forall|x: u32| a.contains(x) implies b.contains(x) by {
                let k = choose|k: int| 0 <= k < a.len() && a[k] == x;
                assert(b[k] == x);
            }
            assert(b[i as int] == h);
            assert(!o.contains(h)) by {
                if o.contains(h) {
                    let k = choose|k: int| 0 <= k < o.len() && o[k] == h;
                    assert(a.contains(o[k]));
                    let m = choose|m: int| 0 <= m < a.len() && a[m] == h;
                    assert(hosts@[m] == hosts@[i as int]);
                }
            }
            assert forall|x: u32| o.contains(x) implies found@.contains(x) by {
                let k = choose|k: int| 0 <= k < o.len() && o[k] == x;
                assert(found@[k] == x);
            }
            if group(h, hints@) == g {
                assert(found@[o.len() as int] == h);
            }
        }
        i += 1;
    }
    let r: Vec<u32> = sort_u32(found.as_slice());
    proof {
        lemma_ascending_increasing(found@);
        let set = members(hosts@.to_set(), hints@, g);
        assert forall|x: u32| r@.contains(x) <==> set.contains(x) by {
            lemma_ascending_contains(found@, x);
            if found@.contains(x) {
                let k = choose|k: int| 0 <= k < found@.len() && found@[k] == x;
                assert(hosts@.take(i as int).contains(found@[k]));
                let m = choose|m: int|
                    0 <= m < hosts@.take(i as int).len() && hosts@.take(i as int)[m] == x;
                assert(hosts@[m] == x);
            }
            if set.contains(x) {
                let k = choose|k: int| 0 <= k < hosts@.len() && hosts@[k] == x;
                assert(group(hosts@[k], hints@) == g);
            }
        }
    }
    r
}

/// The dominant vendor of a list of hosts.
fn dominant_vendor(
    ips: &Vec<u32>,
    macs: &HashMap<u32, [u8; 6]>,
    oui: &OuiDb,
    Ghost(fs): Ghost<Seq<Seq<u8>>>,
) -> (r: Option<String>)
    requires
        oui.wf(),
        forall|ip: u32| #[trigger] macs@.contains_key(ip) <==> first_mac(fs, ip) is Some,
        forall|ip: u32| #[trigger] macs@.contains_key(ip) ==> first_mac(fs, ip) == Some(macs@[ip]@),
    ensures
        opt_text(r) == winner(vendor_votes(ips@, fs, oui@)),
{
    let mut votes: Vec<&str> = Vec::new();
    let mut i: usize = 0;
    proof {
        assert(ips@.take(0) =~= Seq::empty());
        assert(vote_texts(votes@) =~= Seq::empty());
    }
    while i < ips.len()
        invariant
            i <= ips@.len(),
            oui.wf(),
            forall|ip: u32| #[trigger] macs@.contains_key(ip) <==> first_mac(fs, ip) is Some,
            forall|ip: u32| #[trigger]
                macs@.contains_key(ip) ==> first_mac(fs, ip) == Some(macs@[ip]@),
            vote_texts(votes@) == vendor_votes(ips@.take(i as int), fs, oui@),
        decreases ips@.len() - i,
    {
        let ip: u32 = ips[i];
        proof {
            assert(ips@.take(i as int + 1).drop_last() =~= ips@.take(i as int));
            assert(macs@.contains_key(ip) <==> first_mac(fs, ip) is Some);
        }
        if let Some(mac) = macs.get(&ip) {
            if let Some(v) = oui.vendor(*mac) {
                let ghost o = votes@;
                votes.push(v);
                proof {
                    assert(vote_texts(votes@) =~= vote_texts(o).push(v@));
                }
            }
        }
        i += 1;
    }
    proof {
        assert(ips@.take(i as int) =~= ips@);
    }
    pick_winner(&votes)
}

/// Derive zones from a capture's actual addresses and MAC OUIs. Read-only: this
/// is green laser's view of the real world. A host's vendor is taken from the
/// OUI of the MAC on the first frame it sends.
pub fn derive_zones(cap: &Capture, hints: &[Ipv4Net], oui: &OuiDb) -> (r: Vec<Zone>)
    requires
        nets_wf(hints@),
        oui.wf(),
    ensures
        ({
            let fs = frames(cap@);
            let gs = zone_groups(fs, hints@);
            &&& r@.len() == gs.len()
            &&& forall|i: int|
                0 <= i < r@.len() ==> is_zone(#[trigger] r@[i], gs[i], i as nat, fs, hints@, oui@)
        }),
        forall|i: int| 0 <= i < r@.len() ==> (#[trigger] r@[i]).cidr.wf(),
        is_group_list(
            group_list(hosts_in(frames(cap@)), hints@),
            hosts_in(frames(cap@)),
            hints@,
        ),
{
    let ghost fs = frames(cap@);
    let macs = collect_macs(cap);
    let hosts: Vec<u32> = collect_hosts(cap);
    let gs: Vec<(u8, u32)> = collect_groups(hosts.as_slice(), hints);
    proof {
        lemma_group_list(gs@, hosts_in(fs), hints@);
    }
    let mut keys: Vec<u64> = Vec::new();
    let mut k: usize = 0;
    while k < gs.len()
        invariant
            k <= gs@.len(),
            keys@.len() == k,
            forall|j: int| 0 <= j < k ==> #[trigger] keys@[j] == zone_keys(gs@)[j],
        decreases gs@.len() - k,
    {
        keys.push(gs[k].1 as u64 * 64 + gs[k].0 as u64);
        k += 1;
    }
    proof {
        assert(keys@ =~= zone_keys(gs@));
    }
    let order: Vec<usize> = sort_by_key(keys.as_slice());
    let ghost zg = zone_groups(fs, hints@);
    let mut r: Vec<Zone> = Vec::new();
    let mut i: usize = 0;
    while i < order.len()
        invariant
            i <= order@.len(),
            nets_wf(hints@),
            oui.wf(),
            fs == frames(cap@),
            hosts@.no_duplicates(),
            hosts@.to_set() == hosts_in(fs),
            is_group_list(gs@, hosts_in(fs), hints@),
            forall|ip: u32| #[trigger] macs@.contains_key(ip) <==> first_mac(fs, ip) is Some,
            forall|ip: u32| #[trigger]
                macs@.contains_key(ip) ==> first_mac(fs, ip) == Some(macs@[ip]@),
            forall|j: int| 0 <= j < order@.len() ==> (#[trigger] order@[j]) < gs@.len(),
            zg == order@.map_values(|i: usize| gs@[i as int]),
            r@.len() == i,
            forall|j: int|
                0 <= j < i ==> is_zone(#[trigger] r@[j], zg[j], j as nat, fs, hints@, oui@),
            forall|j: int| 0 <= j < i ==> (#[trigger] r@[j]).cidr.wf(),
        decreases order@.len() - i,
    {
        let g: (u8, u32) = gs[order[i]];
        proof {
            assert(zg[i as int] == g);
            assert(crate::proto::l3::has_host(gs@[order@[i as int] as int], hosts_in(fs), hints@));
            let h = choose|h: u32| #[trigger]
                hosts_in(fs).contains(h) && group(h, hints@) == gs@[order@[i as int] as int];
            lemma_group(h, hints@);
        }
        let ips: Vec<u32> = group_members(&hosts, hints, g);
        let vendor = dominant_vendor(&ips, &macs, oui, Ghost(fs));
        let level: u8 = infer_level(crate::text::opt_ref(&vendor));
        let name = name_zone(crate::text::opt_ref(&vendor), None, level, i);
        r.push(
            Zone {
                cidr: Ipv4Net { addr: g.1, prefix: g.0 },
                name,
                purdue_level: level,
                vendor,
                device_ips: ips,
            },
        );
        i += 1;
    }
    r
}

} // verus!
