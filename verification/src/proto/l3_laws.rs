//! What the L3 remap keeps and what it guarantees.

use vstd::prelude::*;
use crate::bytes::{be16, be32, overwrite};
use crate::net::{
    lemma_span_bound, lemma_span_divides, lemma_span_values, network_of, octet, span, Ipv4Net,
};
use crate::proto::frame::{
    checksums_hold, law_layout_depends_on_headers, law_layout_in_bounds,
    law_mac_edit_keeps_checksums, law_recompute_keeps_layout, law_recompute_validates, layout_of,
    lemma_checksum_bytes, with_checksums, FrameLayout, L3Kind, L4Kind,
};
use crate::proto::l3::{
    all_are, all_in_ten, arp_ipv4, assign_nets, carries, clamp_prefix, group, group_list, group_lt,
    groups_sorted, has_host, host_mac, ip_bytes, is_group_list, is_ten_net, law_host_mac_is_local_unicast,
    lemma_first_free_net, lemma_group, lemma_moved_fits, lemma_ten_net, moved_hosts, net_tries,
    nets_wf, new_net, overlapping, public_unicast, random_net, remappable, room_left, safe_frame,
    ten_count, ten_net, HostMap, RFC1918_10_BASE,
};
use crate::rng::{range_step, seeded_words};

verus! {

proof fn lemma_random_net(words: Seq<u32>, p: int, assigned: Seq<(u32, u8)>, tries: nat)
    requires
        8 <= p <= 30,
    ensures
        random_net(words, p, assigned, tries).0 matches Some(n) ==> is_ten_net(n as int, p)
            && !overlapping(n as int, p, assigned),
    decreases tries,
{
    if tries > 0 {
        let step = range_step(words, 0, (ten_count(p) - 1) as u64);
        if step.0 < ten_count(p) {
            lemma_ten_net(p, step.0 as int);
            lemma_span_values();
        }
        lemma_random_net(step.1, p, assigned, (tries - 1) as nat);
    }
}

/// A new network lies in the 10/8 block, and overlaps none of those assigned
/// while the block has room for one.
pub proof fn law_new_net_is_free(prefix: u8, words: Seq<u32>, assigned: Seq<(u32, u8)>)
    ensures
        ({
            let p = clamp_prefix(prefix as int);
            let n = new_net(prefix, words, assigned).0;
            &&& is_ten_net(n as int, p)
            &&& room_left(p, assigned) ==> !overlapping(n as int, p, assigned)
        }),
{
    let p = clamp_prefix(prefix as int);
    lemma_random_net(words, p, assigned, net_tries());
    lemma_span_values();
    lemma_span_divides(8, p);
    assert(0 <= ten_count(p)) by (nonlinear_arith)
        requires
            0 < span(p) <= span(8),
            ten_count(p) == span(8) as int / span(p) as int,
    ;
    lemma_first_free_net(p, assigned, 0);
}

proof fn lemma_assigned(gs: Seq<(u8, u32)>, words: Seq<u32>)
    ensures
        ({
            let nets = assign_nets(gs, words).0;
            &&& nets.len() == gs.len()
            &&& all_in_ten(nets)
            &&& forall|i: int| 0 <= i < gs.len() ==> (#[trigger] nets[i]).1 == gs[i].0
        }),
    decreases gs.len(),
{
    if gs.len() > 0 {
        lemma_assigned(gs.drop_last(), words);
        let done = assign_nets(gs.drop_last(), words);
        law_new_net_is_free(gs.last().0, done.1, done.0);
    }
}

proof fn lemma_sorted_insert(gs: Seq<(u8, u32)>, g: (u8, u32)) -> (r: Seq<(u8, u32)>)
    requires
        groups_sorted(gs),
        !gs.contains(g),
    ensures
        groups_sorted(r),
        r.contains(g),
        forall|x: (u8, u32)| gs.contains(x) ==> r.contains(x),
        forall|i: int| 0 <= i < r.len() ==> #[trigger] r[i] == g || gs.contains(r[i]),
    decreases gs.len(),
{
    if gs.len() == 0 || group_lt(gs.last(), g) {
        let r = gs.push(g);
        assert forall|i: int, j: int| 0 <= i < j < r.len() implies group_lt(
            #[trigger] r[i],
            #[trigger] r[j],
        ) by {
            if j == gs.len() && i < gs.len() - 1 {
                assert(group_lt(gs[i], gs[gs.len() - 1]));
            }
        }
        assert(r[gs.len() as int] == g);
        assert forall|x: (u8, u32)| gs.contains(x) implies r.contains(x) by {
            let k = choose|k: int| 0 <= k < gs.len() && gs[k] == x;
            assert(r[k] == x);
        }
        assert forall|i: int| 0 <= i < r.len() implies #[trigger] r[i] == g
            || gs.contains(r[i]) by {
            if i < gs.len() {
                assert(gs[i] == r[i]);
            }
        }
        r
    } else {
        let last = gs.last();
        let head = gs.drop_last();
        assert forall|x: (u8, u32)| head.contains(x) implies gs.contains(x) by {
            let k = choose|k: int| 0 <= k < head.len() && head[k] == x;
            assert(gs[k] == x);
        }
        assert(gs.contains(last));
        let q = lemma_sorted_insert(head, g);
        let r = q.push(last);
        assert forall|i: int, j: int| 0 <= i < j < r.len() implies group_lt(
            #[trigger] r[i],
            #[trigger] r[j],
        ) by {
            if j == q.len() {
                if q[i] != g {
                    let k = choose|k: int| 0 <= k < head.len() && head[k] == q[i];
                    assert(group_lt(gs[k], gs[gs.len() - 1]));
                }
            }
        }
        let k0 = choose|k: int| 0 <= k < q.len() && q[k] == g;
        assert(r[k0] == g);
        assert forall|x: (u8, u32)| gs.contains(x) implies r.contains(x) by {
            let k = choose|k: int| 0 <= k < gs.len() && gs[k] == x;
            if k == gs.len() - 1 {
                assert(r[q.len() as int] == x);
            } else {
                assert(head[k] == x);
                assert(head.contains(x));
                assert(q.contains(x));
                let m = choose|m: int| 0 <= m < q.len() && q[m] == x;
                assert(r[m] == x);
            }
        }
        assert forall|i: int| 0 <= i < r.len() implies #[trigger] r[i] == g
            || gs.contains(r[i]) by {
            if i < q.len() {
                assert(q[i] == r[i]);
                if q[i] != g {
                    assert(head.contains(q[i]));
                }
            }
        }
        r
    }
}

/// A finite set of hosts has a list of groups.
pub proof fn lemma_group_list_exists(hosts: Set<u32>, hints: Seq<Ipv4Net>)
    requires
        hosts.finite(),
    ensures
        is_group_list(group_list(hosts, hints), hosts, hints),
    decreases hosts.len(),
{
    if hosts.len() == 0 {
        let gs = Seq::<(u8, u32)>::empty();
        assert(hosts =~= Set::empty());
        assert(is_group_list(gs, hosts, hints));
    } else {
        let h = hosts.choose();
        let rest = hosts.remove(h);
        lemma_group_list_exists(rest, hints);
        let old_gs = group_list(rest, hints);
        let g = group(h, hints);
        let gs = if old_gs.contains(g) {
            old_gs
        } else {
            lemma_sorted_insert(old_gs, g)
        };
        assert forall|x: u32| #[trigger] hosts.contains(x) implies gs.contains(group(x, hints)) by {
            if x != h {
                assert(rest.contains(x));
            }
        }
        assert forall|i: int| 0 <= i < gs.len() implies has_host(#[trigger] gs[i], hosts, hints) by {
            if gs[i] == g {
                assert(hosts.contains(h));
            } else {
                assert(old_gs.contains(gs[i]));
                let k = choose|k: int| 0 <= k < old_gs.len() && old_gs[k] == gs[i];
                assert(has_host(old_gs[k], rest, hints));
                let x = choose|x: u32| #[trigger]
                    rest.contains(x) && group(x, hints) == old_gs[k];
                assert(hosts.contains(x));
            }
        }
        assert(is_group_list(gs, hosts, hints));
    }
}

/// The place of a host's group, and the network assigned to it.
proof fn lemma_moved(h: u32, hosts: Set<u32>, hints: Seq<Ipv4Net>, seed: u64) -> (r: (int, u32))
    requires
        nets_wf(hints),
        hosts.finite(),
        hosts.contains(h),
    ensures
        ({
            let gs = group_list(hosts, hints);
            let nets = assign_nets(gs, seeded_words(seed)).0;
            let g = group(h, hints);
            let s = span(g.0 as int) as int;
            let m = moved_hosts(hosts, hints, seed)[h];
            &&& 0 <= r.0 < gs.len()
            &&& gs[r.0] == g
            &&& nets.len() == gs.len()
            &&& nets[r.0] == (r.1, g.0)
            &&& r.0 == gs.index_of(g)
            &&& 8 <= g.0 <= 32
            &&& s > 0
            &&& 0 <= h as int % s < s
            &&& m == r.1 + h as int % s
            &&& r.1 as int % s == 0
            &&& RFC1918_10_BASE <= m < RFC1918_10_BASE + 0x100_0000
        }),
{
    let gs = group_list(hosts, hints);
    let nets = assign_nets(gs, seeded_words(seed)).0;
    let g = group(h, hints);
    lemma_group_list_exists(hosts, hints);
    lemma_assigned(gs, seeded_words(seed));
    lemma_group(h, hints);
    lemma_span_bound(g.0 as int);
    let i = gs.index_of(g);
    assert(gs.contains(g));
    assert(nets[i].1 == gs[i].0);
    assert(is_ten_net(nets[i].0 as int, clamp_prefix(nets[i].1 as int)));
    lemma_moved_fits(nets[i].0, g.0, h);
    (i, nets[i].0)
}

/// A relocated host keeps its offset: its place within its subnet is the same
/// before and after.
pub proof fn law_moved_keeps_offset(h: u32, hosts: Set<u32>, hints: Seq<Ipv4Net>, seed: u64)
    requires
        nets_wf(hints),
        hosts.finite(),
        hosts.contains(h),
    ensures
        ({
            let s = span(group(h, hints).0 as int) as int;
            moved_hosts(hosts, hints, seed)[h] as int % s == h as int % s
        }),
{
    let (i, net) = lemma_moved(h, hosts, hints, seed);
    let s = span(group(h, hints).0 as int) as int;
    lemma_offset(net as int, h as int % s, s);
}

proof fn lemma_offset(n: int, o: int, s: int)
    requires
        s > 0,
        n % s == 0,
        0 <= o < s,
    ensures
        (n + o) % s == o,
{
    let k = n / s;
    assert(n == s * k) by (nonlinear_arith)
        requires
            s > 0,
            n % s == 0,
            k == n / s,
    ;
    assert((s * k + o) % s == o) by (nonlinear_arith)
        requires
            0 <= o < s,
    ;
}

/// Hosts of one subnet stay together: they land in one new subnet.
pub proof fn law_moved_keeps_subnets(
    a: u32,
    b: u32,
    hosts: Set<u32>,
    hints: Seq<Ipv4Net>,
    seed: u64,
)
    requires
        nets_wf(hints),
        hosts.finite(),
        hosts.contains(a),
        hosts.contains(b),
        group(a, hints) == group(b, hints),
    ensures
        ({
            let p = group(a, hints).0 as int;
            let m = moved_hosts(hosts, hints, seed);
            network_of(m[a] as int, p) == network_of(m[b] as int, p)
        }),
{
    let (i, net) = lemma_moved(a, hosts, hints, seed);
    let (j, net2) = lemma_moved(b, hosts, hints, seed);
    let s = span(group(a, hints).0 as int) as int;
    lemma_offset(net as int, a as int % s, s);
    lemma_offset(net as int, b as int % s, s);
}

/// A relocated host has a private address in 10/8.
pub proof fn law_moved_is_private(h: u32, hosts: Set<u32>, hints: Seq<Ipv4Net>, seed: u64)
    requires
        nets_wf(hints),
        hosts.finite(),
        hosts.contains(h),
    ensures
        octet(moved_hosts(hosts, hints, seed)[h] as int, 0) == 10,
        !public_unicast(moved_hosts(hosts, hints, seed)[h]),
{
    let (i, net) = lemma_moved(h, hosts, hints, seed);
}

/// No two networks of a list overlap.
pub open spec fn disjoint(nets: Seq<(u32, u8)>) -> bool {
    forall|i: int, j: int|
        0 <= i < j < nets.len() ==> {
            ||| (#[trigger] nets[i]).0 + span(nets[i].1 as int) <= (#[trigger] nets[j]).0
            ||| nets[j].0 + span(nets[j].1 as int) <= nets[i].0
        }
}

/// The 10/8 block has room for a network of each group in turn.
pub open spec fn room_for_all(gs: Seq<(u8, u32)>, words: Seq<u32>) -> bool {
    forall|i: int|
        0 <= i < gs.len() ==> room_left(
            clamp_prefix((#[trigger] gs[i]).0 as int),
            assign_nets(gs.take(i), words).0,
        )
}

/// While the 10/8 block has room at each step, the new subnets do not overlap.
pub proof fn law_assigned_nets_are_disjoint(gs: Seq<(u8, u32)>, words: Seq<u32>)
    requires
        forall|i: int| 0 <= i < gs.len() ==> 8 <= (#[trigger] gs[i]).0 <= 32,
        room_for_all(gs, words),
    ensures
        disjoint(assign_nets(gs, words).0),
    decreases gs.len(),
{
    if gs.len() > 0 {
        let prior = gs.drop_last();
        let last = gs.len() - 1;
        assert(prior =~= gs.take(last));
        assert forall|i: int| 0 <= i < prior.len() implies room_left(
            clamp_prefix((#[trigger] prior[i]).0 as int),
            assign_nets(prior.take(i), words).0,
        ) by {
            assert(gs[i] == prior[i]);
            assert(prior.take(i) =~= gs.take(i));
        }
        law_assigned_nets_are_disjoint(prior, words);
        let done = assign_nets(prior, words);
        let g = gs[last];
        let p = clamp_prefix(g.0 as int);
        law_new_net_is_free(g.0, done.1, done.0);
        let n = new_net(g.0, done.1, done.0).0;
        assert(room_left(p, done.0));
        lemma_span_divides(p, g.0 as int);
        let nets = assign_nets(gs, words).0;
        assert(nets =~= done.0.push((n, g.0)));
    }
}

/// With room in the block for every subnet, no two hosts share a new address.
pub proof fn law_moved_is_injective(
    a: u32,
    b: u32,
    hosts: Set<u32>,
    hints: Seq<Ipv4Net>,
    seed: u64,
)
    requires
        nets_wf(hints),
        hosts.finite(),
        hosts.contains(a),
        hosts.contains(b),
        a != b,
        room_for_all(group_list(hosts, hints), seeded_words(seed)),
    ensures
        moved_hosts(hosts, hints, seed)[a] != moved_hosts(hosts, hints, seed)[b],
{
    let gs = group_list(hosts, hints);
    let nets = assign_nets(gs, seeded_words(seed)).0;
    lemma_group_list_exists(hosts, hints);
    assert forall|i: int| 0 <= i < gs.len() implies 8 <= (#[trigger] gs[i]).0 <= 32 by {
        assert(has_host(gs[i], hosts, hints));
        let h = choose|h: u32| #[trigger] hosts.contains(h) && group(h, hints) == gs[i];
        lemma_group(h, hints);
    }
    law_assigned_nets_are_disjoint(gs, seeded_words(seed));
    lemma_group(a, hints);
    lemma_group(b, hints);
    let (i, na) = lemma_moved(a, hosts, hints, seed);
    let (j, nb) = lemma_moved(b, hosts, hints, seed);
    if group(a, hints) != group(b, hints) {
        assert(i != j);
        if i < j {
            assert(nets[i].0 + span(nets[i].1 as int) <= nets[j].0 || nets[j].0 + span(
                nets[j].1 as int,
            ) <= nets[i].0);
        } else {
            assert(nets[j].0 + span(nets[j].1 as int) <= nets[i].0 || nets[i].0 + span(
                nets[i].1 as int,
            ) <= nets[j].0);
        }
    }
}

/// The number of a /24 of the 10/8 block.
spec fn ten_place(net: (u32, u8)) -> int {
    (net.0 - RFC1918_10_BASE) / 256
}

/// The 10/8 block has room for one more /24 as long as fewer than 65,536 are assigned.
proof fn lemma_room_for_a_24(assigned: Seq<(u32, u8)>)
    requires
        all_in_ten(assigned),
        forall|i: int| 0 <= i < assigned.len() ==> (#[trigger] assigned[i]).1 == 24,
        assigned.len() < 0x1_0000,
    ensures
        room_left(24, assigned),
{
    lemma_span_values();
    assert(ten_count(24) == 0x1_0000);
    let places = assigned.map_values(|n: (u32, u8)| ten_place(n));
    let all = vstd::set_lib::set_int_range(0, 0x1_0000);
    vstd::set_lib::lemma_int_range(0, 0x1_0000);
    places.lemma_cardinality_of_set();
    if !room_left(24, assigned) {
        assert forall|idx: int| all.contains(idx) implies places.to_set().contains(idx) by {
            assert(overlapping(ten_net(24, idx), 24, assigned));
            let i = choose|i: int|
                0 <= i < assigned.len() && ten_net(24, idx) < (#[trigger] assigned[i]).0 + span(
                    assigned[i].1 as int,
                ) && assigned[i].0 < ten_net(24, idx) + span(24);
            assert(is_ten_net(assigned[i].0 as int, clamp_prefix(assigned[i].1 as int)));
            let j = choose|j: int|
                0 <= j < ten_count(24) && assigned[i].0 == #[trigger] ten_net(24, j);
            assert(idx == j);
            assert(places[i] == idx);
        }
        vstd::seq_lib::seq_to_set_is_finite(places);
        vstd::set_lib::lemma_len_subset(all, places.to_set());
    }
}

/// Without hints every group is a /24, so that the 10/8 block has room for up to 65,536
/// of them.
pub proof fn law_room_without_hints(hosts: Set<u32>, seed: u64)
    requires
        hosts.finite(),
        group_list(hosts, Seq::empty()).len() <= 0x1_0000,
    ensures
        room_for_all(group_list(hosts, Seq::empty()), seeded_words(seed)),
{
    let gs = group_list(hosts, Seq::empty());
    let words = seeded_words(seed);
    lemma_group_list_exists(hosts, Seq::empty());
    assert forall|i: int| 0 <= i < gs.len() implies (#[trigger] gs[i]).0 == 24 by {
        assert(has_host(gs[i], hosts, Seq::empty()));
    }
    assert forall|i: int| 0 <= i < gs.len() implies room_left(
        clamp_prefix((#[trigger] gs[i]).0 as int),
        assign_nets(gs.take(i), words).0,
    ) by {
        let part = gs.take(i);
        lemma_assigned(part, words);
        let nets = assign_nets(part, words).0;
        assert forall|k: int| 0 <= k < nets.len() implies (#[trigger] nets[k]).1 == 24 by {
            assert(part[k] == gs[k]);
        }
        lemma_room_for_a_24(nets);
    }
}

/// Without hints, and with hosts in at most 65,536 subnets, no two hosts share a new
/// address, and two share a new /24 exactly where they shared the old one.
pub proof fn law_moved_without_hints(a: u32, b: u32, hosts: Set<u32>, seed: u64)
    requires
        hosts.finite(),
        hosts.contains(a),
        hosts.contains(b),
        group_list(hosts, Seq::empty()).len() <= 0x1_0000,
    ensures
        ({
            let m = moved_hosts(hosts, Seq::empty(), seed);
            &&& a != b ==> m[a] != m[b]
            &&& network_of(m[a] as int, 24) == network_of(m[b] as int, 24) <==> network_of(
                a as int,
                24,
            ) == network_of(b as int, 24)
        }),
{
    let hints = Seq::<Ipv4Net>::empty();
    let gs = group_list(hosts, hints);
    let nets = assign_nets(gs, seeded_words(seed)).0;
    lemma_span_values();
    lemma_group(a, hints);
    lemma_group(b, hints);
    law_room_without_hints(hosts, seed);
    if a != b {
        law_moved_is_injective(a, b, hosts, hints, seed);
    }
    if network_of(a as int, 24) == network_of(b as int, 24) {
        law_moved_keeps_subnets(a, b, hosts, hints, seed);
    } else {
        let (i, na) = lemma_moved(a, hosts, hints, seed);
        let (j, nb) = lemma_moved(b, hosts, hints, seed);
        lemma_group_list_exists(hosts, hints);
        assert forall|k: int| 0 <= k < gs.len() implies 8 <= (#[trigger] gs[k]).0 <= 32 by {
            assert(has_host(gs[k], hosts, hints));
            let h = choose|h: u32| #[trigger] hosts.contains(h) && group(h, hints) == gs[k];
            lemma_group(h, hints);
        }
        law_assigned_nets_are_disjoint(gs, seeded_words(seed));
        lemma_offset(na as int, a as int % 256, 256);
        lemma_offset(nb as int, b as int % 256, 256);
        assert(i != j);
        if i < j {
            assert(nets[i].0 + span(nets[i].1 as int) <= nets[j].0 || nets[j].0 + span(
                nets[j].1 as int,
            ) <= nets[i].0);
        } else {
            assert(nets[j].0 + span(nets[j].1 as int) <= nets[i].0 || nets[i].0 + span(
                nets[i].1 as int,
            ) <= nets[j].0);
        }
    }
}

/// Where an address goes: to its new one if it has one, else it stays.
pub open spec fn goes_to(addrs: Map<u32, u32>, a: u32) -> u32 {
    if addrs.contains_key(a) {
        addrs[a]
    } else {
        a
    }
}

pub proof fn lemma_ip_bytes_read(b: Seq<u8>, at: int, ip: u32)
    requires
        0 <= at,
        at + 4 <= b.len(),
        b.subrange(at, at + 4) == ip_bytes(ip),
    ensures
        be32(b, at) == ip,
{
    let s = b.subrange(at, at + 4);
    assert(s[0] == b[at] && s[1] == b[at + 1] && s[2] == b[at + 2] && s[3] == b[at + 3]);
}

proof fn lemma_move_addr(hm: HostMap, b: Seq<u8>, at: int)
    requires
        0 <= at,
        at + 4 <= b.len(),
    ensures
        hm.move_addr(b, at).len() == b.len(),
        be32(hm.move_addr(b, at), at) == goes_to(hm.addrs, be32(b, at) as u32),
        forall|i: int|
            0 <= i < b.len() && !(at <= i < at + 4) ==> hm.move_addr(b, at)[i] == b[i],
{
    let ip = be32(b, at) as u32;
    if hm.addrs.contains_key(ip) {
        let c = hm.move_addr(b, at);
        assert(c.subrange(at, at + 4) =~= ip_bytes(hm.addrs[ip]));
        lemma_ip_bytes_read(c, at, hm.addrs[ip]);
    }
}

/// Relocating an IPv4 frame keeps its length and layout and the conversation it
/// is part of: each address goes where the map sends it, whichever end of the
/// conversation it stands at. If an address moved, both checksums hold
/// afterwards.
#[verifier::rlimit(40)]
pub proof fn law_ipv4_frame_relocated(hm: HostMap, b: Seq<u8>, l: FrameLayout)
    requires
        layout_of(b) == Some(l),
        l.l3_kind == L3Kind::Ipv4,
        b.len() <= usize::MAX,
    ensures
        hm.frame(b).len() == b.len(),
        layout_of(hm.frame(b)) == Some(l),
        be32(hm.frame(b), l.l3 + 12) == goes_to(hm.addrs, be32(b, l.l3 + 12) as u32),
        be32(hm.frame(b), l.l3 + 16) == goes_to(hm.addrs, be32(b, l.l3 + 16) as u32),
        (hm.moves(b, l.l3 + 12) || hm.moves(b, l.l3 + 16)) && l.csum_inside() ==> checksums_hold(
            hm.frame(b),
            l,
        ),
{
    law_layout_in_bounds(b);
    let src = l.l3 + 12;
    let dst = l.l3 + 16;
    let one = hm.move_addr(b, src);
    let two = hm.move_addr(one, dst);
    lemma_move_addr(hm, b, src);
    lemma_move_addr(hm, one, dst);
    law_layout_depends_on_headers(b, two, l);
    let any = hm.moves(b, src) || hm.moves(b, dst);
    let summed = if any {
        with_checksums(two, l)
    } else {
        two
    };
    if any {
        law_recompute_keeps_layout(two, l);
        if l.csum_inside() {
            law_recompute_validates(two, l);
        }
    }
    let s = hm.mac(hm.new_addr(b, src));
    let d = hm.mac(hm.new_addr(b, dst));
    law_host_mac_is_local_unicast(hm.seed, hm.new_addr(b, src));
    law_host_mac_is_local_unicast(hm.seed, hm.new_addr(b, dst));
    let sent = if hm.remap_mac && hm.moves(b, src) {
        overwrite(summed, 6, s)
    } else {
        summed
    };
    let done = if hm.remap_mac && hm.moves(b, dst) && b[0] % 2 == 0 {
        overwrite(sent, 0, d)
    } else {
        sent
    };
    law_mac_edit_keeps_checksums(summed, l, 6, s);
    law_mac_edit_keeps_checksums(sent, l, 0, d);
    law_layout_depends_on_headers(summed, done, l);
    assert(hm.frame(b) == done);
}

/// Relocating an ARP message keeps its length and layout: each address goes where
/// the map sends it.
pub proof fn law_arp_frame_relocated(hm: HostMap, b: Seq<u8>, l: FrameLayout)
    requires
        layout_of(b) == Some(l),
        l.l3_kind != L3Kind::Ipv4,
        arp_ipv4(b, l.l3 as int),
        b.len() <= usize::MAX,
    ensures
        hm.frame(b).len() == b.len(),
        layout_of(hm.frame(b)) == Some(l),
        be32(hm.frame(b), l.l3 + 14) == goes_to(hm.addrs, be32(b, l.l3 + 14) as u32),
        be32(hm.frame(b), l.l3 + 24) == goes_to(hm.addrs, be32(b, l.l3 + 24) as u32),
{
    law_layout_in_bounds(b);
    let l3 = l.l3 as int;
    let moved = hm.move_addr(b, l3 + 14);
    lemma_move_addr(hm, b, l3 + 14);
    let s = hm.mac(hm.new_addr(b, l3 + 14));
    law_host_mac_is_local_unicast(hm.seed, hm.new_addr(b, l3 + 14));
    let sent = if hm.remap_mac && hm.moves(b, l3 + 14) {
        overwrite(overwrite(moved, l3 + 8, s), 6, s)
    } else {
        moved
    };
    assert(s.len() == 6);
    let both = hm.move_addr(sent, l3 + 24);
    lemma_move_addr(hm, sent, l3 + 24);
    let d = hm.mac(hm.new_addr(b, l3 + 24));
    law_host_mac_is_local_unicast(hm.seed, hm.new_addr(b, l3 + 24));
    assert(d.len() == 6);
    law_layout_depends_on_headers(b, hm.frame(b), l);
}

/// A relocated frame carries no address but those that the map sends the frame's
/// own addresses to.
pub proof fn law_relocated_frame_carries(hm: HostMap, b: Seq<u8>, a: u32) -> (x: u32)
    requires
        carries(hm.frame(b), a),
        b.len() <= usize::MAX,
    ensures
        carries(b, x),
        a == goes_to(hm.addrs, x),
{
    if layout_of(b) is Some {
        let l = layout_of(b)->0;
        law_layout_in_bounds(b);
        if l.l3_kind == L3Kind::Ipv4 {
            law_ipv4_frame_relocated(hm, b, l);
            if be32(hm.frame(b), l.l3 + 12) == a {
                be32(b, l.l3 + 12) as u32
            } else {
                be32(b, l.l3 + 16) as u32
            }
        } else if arp_ipv4(b, l.l3 as int) {
            law_arp_frame_relocated(hm, b, l);
            if be32(hm.frame(b), l.l3 + 14) == a {
                be32(b, l.l3 + 14) as u32
            } else {
                be32(b, l.l3 + 24) as u32
            }
        } else {
            a
        }
    } else {
        a
    }
}

/// An address is public if it is from 1.0.0.0 on below 224.0.0.0, and in none of
/// 10/8, 127/8, 169.254/16, 172.16/12 and 192.168/16.
pub proof fn law_public_addresses(ip: u32)
    ensures
        public_unicast(ip) <==> {
            &&& 0x0100_0000 <= ip < 0xE000_0000
            &&& !(0x0A00_0000 <= ip <= 0x0AFF_FFFF)
            &&& !(0x7F00_0000 <= ip <= 0x7FFF_FFFF)
            &&& !(0xA9FE_0000 <= ip <= 0xA9FE_FFFF)
            &&& !(0xAC10_0000 <= ip <= 0xAC1F_FFFF)
            &&& !(0xC0A8_0000 <= ip <= 0xC0A8_FFFF)
        },
        remappable(ip) <==> 0x0100_0000 <= ip < 0xE000_0000 && !(0x7F00_0000 <= ip <= 0x7FFF_FFFF),
{
    let o0: int = ip as int / 0x100_0000;
    let o1: int = ip as int / 0x1_0000 % 0x100;
    assert(octet(ip as int, 0) == o0);
    assert(octet(ip as int, 1) == o1);
    assert(ip == o0 * 0x100_0000 + o1 * 0x1_0000 + ip as int % 0x1_0000);
}

/// An untagged IPv4 frame that passes the output guard is whole, and neither its
/// source at byte 26 nor its destination at byte 30 is a public address.
pub proof fn law_untagged_safe_frames(b: Seq<u8>)
    requires
        safe_frame(b),
        b.len() >= 34,
        b[12] == 0x08 && b[13] == 0x00,
    ensures
        14 + be16(b, 16) <= b.len(),
        !public_unicast(be32(b, 26) as u32),
        !public_unicast(be32(b, 30) as u32),
{
    assert(layout_of(b)->0.l3 == 14);
}

/// The hardware address that goes with a new address: that of the device there, or
/// else the stable one of the address.
pub open spec fn new_mac(hm: HostMap, ip: u32) -> Seq<u8> {
    if hm.macs.contains_key(ip) {
        hm.macs[ip]@
    } else {
        host_mac(hm.seed, ip)
    }
}

/// In a relocated IPv4 frame the Ethernet source follows a source address that
/// moved, and the Ethernet destination, unless it is a group address, a
/// destination that moved; with the hardware addresses left alone neither changes.
/// Every byte that is no hardware address, no IP address and no checksum stays.
#[verifier::rlimit(40)]
pub proof fn law_hardware_addresses_follow(hm: HostMap, b: Seq<u8>, l: FrameLayout)
    requires
        layout_of(b) == Some(l),
        l.l3_kind == L3Kind::Ipv4,
        b.len() <= usize::MAX,
    ensures
        ({
            let f = hm.frame(b);
            let src = be32(b, l.l3 + 12) as u32;
            let dst = be32(b, l.l3 + 16) as u32;
            &&& f.subrange(6, 12) == if hm.remap_mac && hm.addrs.contains_key(src) {
                new_mac(hm, hm.addrs[src])
            } else {
                b.subrange(6, 12)
            }
            &&& f.subrange(0, 6) == if hm.remap_mac && hm.addrs.contains_key(dst) && b[0] % 2
                == 0 {
                new_mac(hm, hm.addrs[dst])
            } else {
                b.subrange(0, 6)
            }
            &&& forall|i: int|
                12 <= i < b.len() && !(l.l3 + 10 <= i < l.l3 + 20) && !(l.l4_kind != L4Kind::Other
                    && l.l4 + l.csum_off() <= i <= l.l4 + l.csum_off() + 1) ==> #[trigger] f[i]
                    == b[i]
        }),
{
    law_layout_in_bounds(b);
    let src = l.l3 + 12;
    let dst = l.l3 + 16;
    let one = hm.move_addr(b, src);
    let two = hm.move_addr(one, dst);
    lemma_move_addr(hm, b, src);
    lemma_move_addr(hm, one, dst);
    let any = hm.moves(b, src) || hm.moves(b, dst);
    let summed = if any {
        with_checksums(two, l)
    } else {
        two
    };
    lemma_checksum_bytes(two, l);
    let s = hm.mac(hm.new_addr(b, src));
    let d = hm.mac(hm.new_addr(b, dst));
    law_host_mac_is_local_unicast(hm.seed, hm.new_addr(b, src));
    law_host_mac_is_local_unicast(hm.seed, hm.new_addr(b, dst));
    assert(s.len() == 6 && d.len() == 6);
    let sent = if hm.remap_mac && hm.moves(b, src) {
        overwrite(summed, 6, s)
    } else {
        summed
    };
    let f = hm.frame(b);
    assert forall|i: int| 0 <= i < 12 implies #[trigger] summed[i] == b[i] by {}
    assert(f.subrange(6, 12) =~= if hm.remap_mac && hm.moves(b, src) {
        s
    } else {
        b.subrange(6, 12)
    });
    assert(f.subrange(0, 6) =~= if hm.remap_mac && hm.moves(b, dst) && b[0] % 2 == 0 {
        d
    } else {
        b.subrange(0, 6)
    });
}

/// In a relocated ARP message the sender's hardware address, and the Ethernet
/// source with it, follows a sender address that moved; the target's, and the
/// Ethernet destination with it, follows a target address that moved, unless it is
/// zero or broadcast. With the hardware addresses left alone none changes, and no
/// byte of the message but its four addresses ever does.
#[verifier::rlimit(40)]
pub proof fn law_arp_hardware_addresses_follow(hm: HostMap, b: Seq<u8>, l: FrameLayout)
    requires
        layout_of(b) == Some(l),
        l.l3_kind != L3Kind::Ipv4,
        arp_ipv4(b, l.l3 as int),
        b.len() <= usize::MAX,
    ensures
        ({
            let f = hm.frame(b);
            let l3 = l.l3 as int;
            let from = be32(b, l3 + 14) as u32;
            let to = be32(b, l3 + 24) as u32;
            let follows_from = hm.remap_mac && hm.addrs.contains_key(from);
            let tha = b.subrange(l3 + 18, l3 + 24);
            let blank = tha == Seq::new(6, |i: int| 0u8) || tha == Seq::new(6, |i: int| 0xffu8);
            let follows_to = hm.remap_mac && hm.addrs.contains_key(to) && !blank;
            &&& f.subrange(l3 + 8, l3 + 14) == if follows_from {
                new_mac(hm, hm.addrs[from])
            } else {
                b.subrange(l3 + 8, l3 + 14)
            }
            &&& f.subrange(6, 12) == if follows_from {
                new_mac(hm, hm.addrs[from])
            } else {
                b.subrange(6, 12)
            }
            &&& f.subrange(l3 + 18, l3 + 24) == if follows_to {
                new_mac(hm, hm.addrs[to])
            } else {
                tha
            }
            &&& f.subrange(0, 6) == if follows_to {
                new_mac(hm, hm.addrs[to])
            } else {
                b.subrange(0, 6)
            }
            &&& forall|i: int|
                12 <= i < b.len() && !(l3 + 8 <= i < l3 + 28) ==> #[trigger] f[i] == b[i]
        }),
{
    law_layout_in_bounds(b);
    let l3 = l.l3 as int;
    let moved = hm.move_addr(b, l3 + 14);
    lemma_move_addr(hm, b, l3 + 14);
    let s = hm.mac(hm.new_addr(b, l3 + 14));
    law_host_mac_is_local_unicast(hm.seed, hm.new_addr(b, l3 + 14));
    let sent = if hm.remap_mac && hm.moves(b, l3 + 14) {
        overwrite(overwrite(moved, l3 + 8, s), 6, s)
    } else {
        moved
    };
    assert(s.len() == 6);
    lemma_move_addr(hm, sent, l3 + 24);
    let d = hm.mac(hm.new_addr(b, l3 + 24));
    law_host_mac_is_local_unicast(hm.seed, hm.new_addr(b, l3 + 24));
    assert(d.len() == 6);
    let f = hm.frame(b);
    let tha = b.subrange(l3 + 18, l3 + 24);
    assert(all_are(tha, 0) <==> tha =~= Seq::new(6, |i: int| 0u8));
    assert(all_are(tha, 0xff) <==> tha =~= Seq::new(6, |i: int| 0xffu8));
    let follows_from = hm.remap_mac && hm.moves(b, l3 + 14);
    let follows_to = hm.remap_mac && hm.moves(b, l3 + 24) && !all_are(tha, 0) && !all_are(
        tha,
        0xff,
    );
    assert(f.subrange(l3 + 8, l3 + 14) =~= if follows_from {
        s
    } else {
        b.subrange(l3 + 8, l3 + 14)
    });
    assert(f.subrange(6, 12) =~= if follows_from {
        s
    } else {
        b.subrange(6, 12)
    });
    assert(f.subrange(l3 + 18, l3 + 24) =~= if follows_to {
        d
    } else {
        tha
    });
    assert(f.subrange(0, 6) =~= if follows_to {
        d
    } else {
        b.subrange(0, 6)
    });
}

} // verus!
