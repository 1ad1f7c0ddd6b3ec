//! That a capture keeps its addresses: what a remap registers, later remaps give
//! back.

use vstd::prelude::*;
use crate::config::L3Cfg;
use crate::ledger::{
    has_device_ip, has_host_ip, host_models, DeviceRecord, HostModel, Session, SubnetRecord,
};
use crate::net::{cidr_net, ip_of, ip_text, law_ip_text_injective, lemma_cidr_net_wf, lemma_ip_of, Ipv4Net};
use crate::order::{
    ascending, by_key, increasing, lemma_ascending_contains, lemma_ascending_increasing,
    lemma_by_key_contains,
};
use crate::pcapio::{frames, PacketModel};
use crate::proto::l3::{carries, group, group_list, group_lt, hosts_in, safe_frame, HostMap};
use crate::proto::l3_laws::law_relocated_frame_carries;
use crate::proto::reconcile::{
    all_reserved, asset_at, best_zone, group_keys, is_lowest, law_best_zone_exists, law_place,
    law_reconcile_is_sound, law_reconcile_maps_every_host, place, AssetModel, GroupModel,
    ReconcileInput, Reconciled,
};
use crate::proto::thin::{clean_of, embeds, fits, not_arp};
use crate::simulate::cache::lemma_order;
use crate::simulate::remap::{
    are_groups, group_from, host_at, host_of, hosts_with, is_group, is_remap,
    law_remapped_frames_are_fit_to_send, macs_match, moved_capture, origins, plan_for,
    reconciled_as, room, targets_of, thinned, zone_has,
};
use crate::simulate::zones::{is_zone, members, zone_groups, zone_keys, Zone};

verus! {

/// A host and the zone that its group is placed in.
pub type Step = (int, u32);

/// The steps of a reconciliation: group by group in order, each group's hosts in
/// ascending order.
pub open spec fn steps_of(a: ReconcileInput, groups: Seq<GroupModel>, order: Seq<usize>) -> Seq<Step>
    decreases order.len(),
{
    if order.len() == 0 {
        Seq::empty()
    } else {
        let g = groups[order.last() as int];
        let zi = best_zone(g, a.zones, a.affinity, a.seed);
        steps_of(a, groups, order.drop_last()) + group_steps(zi, ascending(g.hosts))
    }
}

/// The steps of one group.
pub open spec fn group_steps(zi: int, hosts: Seq<u32>) -> Seq<Step> {
    hosts.map_values(|h: u32| (zi, h))
}

/// The steps taken in turn.
pub open spec fn taken_steps(a: ReconcileInput, st: Reconciled, steps: Seq<Step>) -> Reconciled
    decreases steps.len(),
{
    if steps.len() == 0 {
        st
    } else {
        a.map_host(
            taken_steps(a, st, steps.drop_last()),
            steps.last().0,
            steps.last().1,
        )
    }
}

/// Two states agree on all that a step reads and writes.
pub open spec fn agree(x: Reconciled, y: Reconciled) -> bool {
    x.map == y.map && x.taken == y.taken && x.budget == y.budget && x.assets == y.assets
}

proof fn lemma_agree_steps(a: ReconcileInput, x: Reconciled, y: Reconciled, steps: Seq<Step>)
    requires
        agree(x, y),
    ensures
        agree(taken_steps(a, x, steps), taken_steps(a, y, steps)),
    decreases steps.len(),
{
    if steps.len() > 0 {
        lemma_agree_steps(a, x, y, steps.drop_last());
    }
}

proof fn lemma_steps_join(a: ReconcileInput, st: Reconciled, s: Seq<Step>, t: Seq<Step>)
    ensures
        taken_steps(a, st, s + t) == taken_steps(a, taken_steps(a, st, s), t),
    decreases t.len(),
{
    if t.len() == 0 {
        assert(s + t =~= s);
    } else {
        assert((s + t).drop_last() =~= s + t.drop_last());
        lemma_steps_join(a, st, s, t.drop_last());
    }
}

proof fn lemma_group_steps(a: ReconcileInput, st: Reconciled, zi: int, hosts: Seq<u32>)
    ensures
        a.map_hosts(st, zi, hosts) == taken_steps(a, st, group_steps(zi, hosts)),
    decreases hosts.len(),
{
    let steps = group_steps(zi, hosts);
    if hosts.len() > 0 {
        lemma_group_steps(a, st, zi, hosts.drop_last());
        assert(steps.drop_last() =~= group_steps(zi, hosts.drop_last()));
    }
}

/// Mapping groups is taking their steps.
proof fn lemma_groups_are_steps(
    a: ReconcileInput,
    st: Reconciled,
    groups: Seq<GroupModel>,
    order: Seq<usize>,
)
    ensures
        agree(a.map_groups(st, groups, order), taken_steps(a, st, steps_of(a, groups, order))),
    decreases order.len(),
{
    if order.len() > 0 {
        let head = order.drop_last();
        let g = groups[order.last() as int];
        let zi = best_zone(g, a.zones, a.affinity, a.seed);
        let prior = a.map_groups(st, groups, head);
        let reset = Reconciled { placed: false, ..prior };
        let mine = group_steps(zi, ascending(g.hosts));
        lemma_groups_are_steps(a, st, groups, head);
        lemma_group_steps(a, reset, zi, ascending(g.hosts));
        lemma_agree_steps(a, reset, taken_steps(a, st, steps_of(a, groups, head)), mine);
        lemma_steps_join(a, st, steps_of(a, groups, head), mine);
    }
}

/// No host is stepped twice.
pub open spec fn hosts_once(steps: Seq<Step>) -> bool {
    forall|i: int, j: int|
        0 <= i < j < steps.len() ==> (#[trigger] steps[i]).1 != (#[trigger] steps[j]).1
}

/// Assets are only added.
proof fn lemma_assets_grow(a: ReconcileInput, st: Reconciled, steps: Seq<Step>, k: int)
    requires
        0 <= k <= steps.len(),
    ensures
        taken_steps(a, st, steps.take(k)).assets.is_prefix_of(
            taken_steps(a, st, steps).assets,
        ),
        taken_steps(a, st, steps.take(k)).budget + taken_steps(a, st, steps.take(k)).assets.len()
            == taken_steps(a, st, steps).budget + taken_steps(a, st, steps).assets.len(),
    decreases steps.len() - k,
{
    if k == steps.len() {
        assert(steps.take(k) =~= steps);
    } else {
        lemma_assets_grow(a, st, steps, k + 1);
        assert(steps.take(k + 1).drop_last() =~= steps.take(k));
        let x = taken_steps(a, st, steps.take(k)).assets;
        let y = taken_steps(a, st, steps.take(k + 1)).assets;
        assert(x.is_prefix_of(y));
    }
}

/// Every new asset was added by the step of its own host, which was not registered.
proof fn lemma_asset_step(a: ReconcileInput, st: Reconciled, steps: Seq<Step>, i: int) -> (k: int)
    requires
        st.assets.len() == 0,
        0 <= i < taken_steps(a, st, steps).assets.len(),
    ensures
        0 <= k < steps.len(),
        steps[k].1 == taken_steps(a, st, steps).assets[i].origin,
        !a.registered.contains_key(steps[k].1),
        taken_steps(a, st, steps.take(k)).assets.len() == i,
        taken_steps(a, st, steps.take(k + 1)).assets.len() == i + 1,
    decreases steps.len(),
{
    let sub = steps.drop_last();
    let prior = taken_steps(a, st, sub).assets;
    let n = steps.len() - 1;
    if i < prior.len() {
        let k = lemma_asset_step(a, st, sub, i);
        assert(sub.take(k) =~= steps.take(k));
        assert(sub.take(k + 1) =~= steps.take(k + 1));
        k
    } else {
        assert(steps.take(n) =~= sub);
        assert(steps.take(n + 1) =~= steps);
        n
    }
}

/// A zone that gives no address gives none once more are taken.
proof fn lemma_place_stays_full(net: Ipv4Net, t0: Set<u32>, t1: Set<u32>, h: u32)
    requires
        net.wf(),
        t0.subset_of(t1),
        place(net, t0, h) is None,
    ensures
        place(net, t1, h) is None,
{
    law_place(net, t0, h);
    net.lemma_bounds();
    crate::net::lemma_first_free(net.host_lo(), net.host_hi(), t1);
}

/// What relates a run to the next one of the same steps: the zones are the same,
/// what was registered is, the new assets of the first run are registered, nothing
/// else is, and the budget is what the first run left.
pub open spec fn follows(
    a: ReconcileInput,
    b: ReconcileInput,
    assets: Seq<AssetModel>,
) -> bool {
    &&& b.zones == a.zones
    &&& forall|h: u32| #[trigger]
        a.registered.contains_key(h) ==> b.registered.contains_key(h) && b.registered[h]
            == a.registered[h]
    &&& forall|i: int|
        0 <= i < assets.len() ==> b.registered.contains_key((#[trigger] assets[i]).origin)
            && b.registered[assets[i].origin] == assets[i].ip
    &&& forall|h: u32| #[trigger]
        b.registered.contains_key(h) ==> a.registered.contains_key(h) || has_origin(assets, h)
}

/// An asset stands for the host.
pub open spec fn has_origin(assets: Seq<AssetModel>, h: u32) -> bool {
    exists|i: int| 0 <= i < assets.len() && (#[trigger] assets[i]).origin == h
}

/// Step by step, the next run maps every host as the first did and adds nothing.
proof fn lemma_same_steps(
    a: ReconcileInput,
    b: ReconcileInput,
    budget: nat,
    left: nat,
    steps: Seq<Step>,
    k: int,
)
    requires
        0 <= k <= steps.len(),
        hosts_once(steps),
        forall|i: int|
            0 <= i < steps.len() ==> 0 <= (#[trigger] steps[i]).0 < a.zones.len()
                && a.zones[steps[i].0].net.wf(),
        follows(a, b, taken_steps(a, a.start(budget), steps).assets),
        left == taken_steps(a, a.start(budget), steps).budget,
    ensures
        ({
            let x = taken_steps(a, a.start(budget), steps.take(k));
            let y = taken_steps(b, b.start(left), steps.take(k));
            &&& y.map == x.map
            &&& y.assets.len() == 0
            &&& y.budget == left
            &&& y.taken == b.start(left).taken
            &&& x.taken.subset_of(y.taken)
        }),
    decreases k,
{
    let start = a.start(budget);
    let next = b.start(left);
    let all = taken_steps(a, start, steps).assets;
    if k == 0 {
        assert(steps.take(0) =~= Seq::empty());
        assert forall|t: u32| start.taken.contains(t) implies next.taken.contains(t) by {
            if a.registered.values().contains(t) {
                let h = choose|h: u32| a.registered.contains_key(h) && a.registered[h] == t;
                assert(b.registered.contains_key(h) && b.registered[h] == t);
            }
        }
    } else {
        let s = steps.take(k);
        let zi = steps[k - 1].0;
        let h = steps[k - 1].1;
        assert(s.drop_last() =~= steps.take(k - 1));
        assert(s.last() == steps[k - 1]);
        lemma_same_steps(a, b, budget, left, steps, k - 1);
        lemma_assets_grow(a, start, steps, k - 1);
        lemma_assets_grow(a, start, steps, k);
        let x = taken_steps(a, start, steps.take(k - 1));
        let y = taken_steps(b, next, steps.take(k - 1));
        let x1 = taken_steps(a, start, s);
        let z = a.zones[zi];
        if a.registered.contains_key(h) {
            assert(b.registered.contains_key(h));
        } else if x.budget > 0 && place(z.net, x.taken, h) is Some {
            let i = x.assets.len() as int;
            assert(x1.assets[i] == all[i]);
            assert(b.registered.contains_key(all[i].origin));
            assert(b.registered[h] == all[i].ip);
            assert(b.registered.values().contains(all[i].ip));
        } else {
            if b.registered.contains_key(h) {
                assert(has_origin(all, h));
                let i = choose|i: int| 0 <= i < all.len() && (#[trigger] all[i]).origin == h;
                let at = lemma_asset_step(a, start, steps, i);
                assert(steps[at].1 == h);
                if at < k - 1 {
                    assert(steps[at].1 != steps[k - 1].1);
                } else if at > k - 1 {
                    assert(steps[k - 1].1 != steps[at].1);
                }
                assert(false);
            }
            if x.budget > 0 {
                lemma_place_stays_full(z.net, x.taken, y.taken, h);
            }
        }
    }
}

/// The hosts of the groups are all different: no host is in two groups, or twice
/// in one.
pub open spec fn hosts_distinct(gs: Seq<GroupModel>) -> bool {
    &&& forall|i: int| 0 <= i < gs.len() ==> (#[trigger] gs[i]).hosts.no_duplicates()
    &&& forall|i: int, j: int, h: u32|
        0 <= i < j < gs.len() && #[trigger] gs[i].hosts.contains(h) ==> !(
        #[trigger] gs[j].hosts.contains(h))
}

/// The steps of groups with different hosts step each host once, into a zone.
proof fn lemma_steps_once(a: ReconcileInput, groups: Seq<GroupModel>, order: Seq<usize>)
    requires
        a.zones.len() > 0,
        forall|i: int| 0 <= i < a.zones.len() ==> (#[trigger] a.zones[i]).net.wf(),
        hosts_distinct(groups),
        order.no_duplicates(),
        forall|i: int| 0 <= i < order.len() ==> (#[trigger] order[i]) < groups.len(),
    ensures
        ({
            let s = steps_of(a, groups, order);
            &&& hosts_once(s)
            &&& forall|i: int|
                0 <= i < s.len() ==> 0 <= (#[trigger] s[i]).0 < a.zones.len()
                    && a.zones[s[i].0].net.wf() && in_some(groups, order, s[i].1)
        }),
    decreases order.len(),
{
    if order.len() > 0 {
        let head = order.drop_last();
        let last = order.last();
        let g = groups[last as int];
        let zi = best_zone(g, a.zones, a.affinity, a.seed);
        law_best_zone_exists(g, a.zones, a.affinity, a.seed);
        assert(a.zones[zi].net.wf());
        assert(head.no_duplicates()) by {
            assert forall|i: int, j: int| 0 <= i < head.len() && 0 <= j < head.len() && i
                != j implies head[i] != head[j] by {
                assert(order[i] != order[j]);
            }
        }
        assert forall|i: int| 0 <= i < head.len() implies (#[trigger] head[i]) < groups.len() by {
            assert(order[i] < groups.len());
        }
        lemma_steps_once(a, groups, head);
        let s = steps_of(a, groups, head);
        let hs = ascending(g.hosts);
        let t = group_steps(zi, hs);
        let all = steps_of(a, groups, order);
        assert(order[order.len() - 1] < groups.len());
        lemma_ascending_increasing(g.hosts);
        assert forall|i: int| 0 <= i < all.len() implies 0 <= (#[trigger] all[i]).0 < a.zones.len()
            && a.zones[all[i].0].net.wf() && in_some(groups, order, all[i].1) by {
            if i < s.len() {
                assert(all[i] == s[i]);
                let o = choose|o: int|
                    0 <= o < head.len() && #[trigger] groups[head[o] as int].hosts.contains(
                        s[i].1,
                    );
                assert(groups[order[o] as int].hosts.contains(all[i].1));
            } else {
                assert(all[i] == t[i - s.len()]);
                lemma_ascending_contains(g.hosts, hs[i - s.len()]);
                assert(hs.contains(hs[i - s.len()]));
                assert(groups[order[order.len() - 1] as int].hosts.contains(all[i].1));
            }
        }
        assert forall|i: int, j: int| 0 <= i < j < all.len() implies (#[trigger] all[i]).1 != (
        #[trigger] all[j]).1 by {
            if j < s.len() {
                assert(all[i] == s[i] && all[j] == s[j]);
            } else if i >= s.len() {
                assert(all[i] == t[i - s.len()] && all[j] == t[j - s.len()]);
                assert(hs[i - s.len()] < hs[j - s.len()]);
            } else {
                assert(all[i] == s[i]);
                assert(all[j] == t[j - s.len()]);
                assert(in_some(groups, head, s[i].1));
                let o = choose|o: int|
                    0 <= o < head.len() && #[trigger] groups[head[o] as int].hosts.contains(
                        s[i].1,
                    );
                let p = head[o] as int;
                assert(order[o] != order[order.len() - 1]);
                lemma_ascending_contains(g.hosts, all[j].1);
                assert(hs.contains(hs[j - s.len()]));
                assert(g.hosts.contains(all[j].1));
                if all[i].1 == all[j].1 {
                    if p < last {
                        assert(groups[p].hosts.contains(all[i].1));
                        assert(!groups[last as int].hosts.contains(all[i].1));
                    } else {
                        assert(groups[last as int].hosts.contains(all[i].1));
                        assert(!groups[p].hosts.contains(all[i].1));
                    }
                }
            }
        }
    }
}

/// The host is in one of the groups picked.
pub open spec fn in_some(groups: Seq<GroupModel>, order: Seq<usize>, h: u32) -> bool {
    exists|o: int|
        0 <= o < order.len() && #[trigger] groups[order[o] as int].hosts.contains(h)
}

/// Every registered host has an address of its own and an asset's, and no two are
/// of one origin.
pub open spec fn registry_ok(hosts: Seq<HostModel>) -> bool {
    &&& forall|i: int|
        0 <= i < hosts.len() ==> ip_of((#[trigger] hosts[i]).origin_ip) is Some && ip_of(
            hosts[i].ip,
        ) is Some
    &&& forall|i: int, j: int|
        0 <= i < j < hosts.len() ==> (#[trigger] hosts[i]).origin_ip != (
        #[trigger] hosts[j]).origin_ip
}

proof fn lemma_same_ip(s: Seq<char>, t: Seq<char>)
    requires
        ip_of(s) is Some,
        ip_of(s) == ip_of(t),
    ensures
        s == t,
{
}

/// With a registry in order, each record is looked up by its own origin.
proof fn lemma_origins(hosts: Seq<HostModel>)
    requires
        registry_ok(hosts),
    ensures
        forall|i: int|
            0 <= i < hosts.len() ==> origins(hosts).contains_key(
                ip_of((#[trigger] hosts[i]).origin_ip)->0,
            ) && origins(hosts)[ip_of(hosts[i].origin_ip)->0] == ip_of(hosts[i].ip)->0,
        forall|o: u32| #[trigger]
            origins(hosts).contains_key(o) ==> from_record(hosts, o),
    decreases hosts.len(),
{
    if hosts.len() > 0 {
        let sub = hosts.drop_last();
        let last = hosts.len() - 1;
        assert(registry_ok(sub)) by {
            assert forall|i: int| 0 <= i < sub.len() implies ip_of(
                (#[trigger] sub[i]).origin_ip,
            ) is Some && ip_of(sub[i].ip) is Some by {
                assert(hosts[i] == sub[i]);
            }
            assert forall|i: int, j: int| 0 <= i < j < sub.len() implies (
            #[trigger] sub[i]).origin_ip != (#[trigger] sub[j]).origin_ip by {
                assert(hosts[i].origin_ip != hosts[j].origin_ip);
            }
        }
        lemma_origins(sub);
        let o = ip_of(hosts[last].origin_ip)->0;
        assert(ip_of(hosts[last].origin_ip) is Some && ip_of(hosts[last].ip) is Some);
        assert forall|i: int| 0 <= i < hosts.len() implies origins(hosts).contains_key(
            ip_of((#[trigger] hosts[i]).origin_ip)->0,
        ) && origins(hosts)[ip_of(hosts[i].origin_ip)->0] == ip_of(hosts[i].ip)->0 by {
            if i < last {
                assert(sub[i] == hosts[i]);
                assert(hosts[i].origin_ip != hosts[last].origin_ip);
                if ip_of(hosts[i].origin_ip)->0 == o {
                    lemma_same_ip(hosts[i].origin_ip, hosts[last].origin_ip);
                }
            }
        }
        assert forall|x: u32| #[trigger] origins(hosts).contains_key(x) implies from_record(
            hosts,
            x,
        ) by {
            if x == o {
                assert(ip_of(hosts[last].origin_ip) == Some(x));
            } else {
                assert(origins(sub).contains_key(x));
                let i = choose|i: int|
                    0 <= i < sub.len() && ip_of((#[trigger] sub[i]).origin_ip) == Some(x);
                assert(ip_of(hosts[i].origin_ip) == Some(x));
            }
        }
    }
}

/// A record has the origin.
pub open spec fn from_record(hosts: Seq<HostModel>, o: u32) -> bool {
    exists|i: int| 0 <= i < hosts.len() && ip_of((#[trigger] hosts[i]).origin_ip) == Some(o)
}

/// New assets that fit and whose addresses are free are all registered.
proof fn lemma_all_registered(
    hosts: Seq<HostModel>,
    devices: nat,
    assets: Seq<AssetModel>,
    cap: nat,
)
    requires
        assets.len() > 0 ==> devices + hosts.len() + assets.len() <= cap,
        forall|i: int| 0 <= i < assets.len()
            ==> !host_at(hosts, ip_text((#[trigger] assets[i]).ip)),
        forall|i: int, j: int|
            0 <= i < j < assets.len() ==> (#[trigger] assets[i]).ip != (#[trigger] assets[j]).ip,
    ensures
        hosts_with(hosts, devices, assets, cap) == hosts + assets.map_values(
            |a: AssetModel| host_of(a),
        ),
    decreases assets.len(),
{
    let news = assets.map_values(|a: AssetModel| host_of(a));
    if assets.len() == 0 {
        assert(hosts + news =~= hosts);
    } else {
        let sub = assets.drop_last();
        let last = assets.len() - 1;
        assert forall|i: int| 0 <= i < sub.len() implies !host_at(
            hosts,
            ip_text((#[trigger] sub[i]).ip),
        ) by {
            assert(assets[i] == sub[i]);
        }
        assert forall|i: int, j: int| 0 <= i < j < sub.len() implies (#[trigger] sub[i]).ip != (
        #[trigger] sub[j]).ip by {
            assert(assets[i].ip != assets[j].ip);
        }
        lemma_all_registered(hosts, devices, sub, cap);
        let prior = hosts + sub.map_values(|a: AssetModel| host_of(a));
        let h = host_of(assets[last]);
        if host_at(prior, h.ip) {
            let i = choose|i: int| 0 <= i < prior.len() && (#[trigger] prior[i]).ip == h.ip;
            if i < hosts.len() {
                assert(hosts[i].ip == ip_text(assets[last].ip));
            } else {
                let k = i - hosts.len();
                assert(prior[i] == host_of(sub[k]));
                assert(assets[k].ip != assets[last].ip);
                law_ip_text_injective(sub[k].ip, assets[last].ip);
            }
        }
        assert(hosts + news =~= prior.push(h));
    }
}

proof fn lemma_targets_wf(ds: Seq<DeviceRecord>, subnets: Seq<SubnetRecord>)
    ensures
        forall|i: int|
            0 <= i < targets_of(ds, subnets).len() ==> (#[trigger] targets_of(
                ds,
                subnets,
            )[i]).net.wf(),
    decreases subnets.len(),
{
    if subnets.len() > 0 {
        lemma_targets_wf(ds, subnets.drop_last());
        if cidr_net(subnets.last().cidr@) is Some {
            lemma_cidr_net_wf(subnets.last().cidr@);
        }
    }
}

/// The new assets of a reconciliation are all registered, behind the hosts that were.
proof fn lemma_new_assets_registered(
    ledger: Session,
    l3: L3Cfg,
    gs: Seq<GroupModel>,
    cap: usize,
)
    requires
        registry_ok(host_models(ledger.capture_hosts@)),
        plan_for(ledger, l3).zones.len() > 0,
    ensures
        ({
            let hosts = host_models(ledger.capture_hosts@);
            let assets = plan_for(ledger, l3).reconcile(gs, room(ledger, cap)).assets;
            hosts_with(hosts, ledger.devices@.len(), assets, cap as nat) == hosts
                + assets.map_values(|a: AssetModel| host_of(a))
        }),
{
    let a = plan_for(ledger, l3);
    let budget = room(ledger, cap);
    let hosts = host_models(ledger.capture_hosts@);
    let assets = a.reconcile(gs, budget).assets;
    lemma_targets_wf(ledger.devices@, ledger.subnets@);
    law_reconcile_is_sound(a, gs, budget);
    lemma_origins(hosts);
    assert(hosts.len() == ledger.capture_hosts@.len());
    // Every new asset's address is free in the registry.
    assert forall|i: int| 0 <= i < assets.len() implies !host_at(
        hosts,
        ip_text((#[trigger] assets[i]).ip),
    ) by {
        assert(!a.start(budget).taken.contains(assets[i].ip));
        if host_at(hosts, ip_text(assets[i].ip)) {
            let j = choose|j: int|
                0 <= j < hosts.len() && (#[trigger] hosts[j]).ip == ip_text(assets[i].ip);
            lemma_ip_of(assets[i].ip);
            let o = ip_of(hosts[j].origin_ip)->0;
            assert(a.registered.contains_key(o) && a.registered[o] == assets[i].ip);
            assert(a.registered.values().contains(assets[i].ip));
        }
    }
    lemma_all_registered(hosts, ledger.devices@.len(), assets, cap as nat);
}

/// New assets are of distinct hosts, none of them registered.
proof fn lemma_origins_once(a: ReconcileInput, st: Reconciled, steps: Seq<Step>)
    requires
        st.assets.len() == 0,
        hosts_once(steps),
    ensures
        ({
            let assets = taken_steps(a, st, steps).assets;
            &&& forall|i: int|
                0 <= i < assets.len() ==> !a.registered.contains_key(
                    (#[trigger] assets[i]).origin,
                )
            &&& forall|i: int, j: int|
                0 <= i < j < assets.len() ==> (#[trigger] assets[i]).origin != (
                #[trigger] assets[j]).origin
        }),
{
    let assets = taken_steps(a, st, steps).assets;
    assert forall|i: int| 0 <= i < assets.len() implies !a.registered.contains_key(
        (#[trigger] assets[i]).origin,
    ) by {
        let k = lemma_asset_step(a, st, steps, i);
    }
    assert forall|i: int, j: int| 0 <= i < j < assets.len() implies (#[trigger] assets[i]).origin
        != (#[trigger] assets[j]).origin by {
        let k = lemma_asset_step(a, st, steps, i);
        let m = lemma_asset_step(a, st, steps, j);
        if k < m {
            assert(steps[k].1 != steps[m].1);
        } else if m < k {
            assert(steps[m].1 != steps[k].1);
        }
    }
}

/// A registry in order stays so with the assets of distinct hosts that it did not
/// hold.
proof fn lemma_registry_grows(hosts: Seq<HostModel>, assets: Seq<AssetModel>)
    requires
        registry_ok(hosts),
        forall|i: int|
            0 <= i < assets.len() ==> !origins(hosts).contains_key((#[trigger] assets[i]).origin),
        forall|i: int, j: int|
            0 <= i < j < assets.len() ==> (#[trigger] assets[i]).origin != (
            #[trigger] assets[j]).origin,
    ensures
        registry_ok(hosts + assets.map_values(|a: AssetModel| host_of(a))),
{
    let all = hosts + assets.map_values(|a: AssetModel| host_of(a));
    lemma_origins(hosts);
    assert forall|i: int| 0 <= i < all.len() implies ip_of((#[trigger] all[i]).origin_ip) is Some
        && ip_of(all[i].ip) is Some by {
        if i < hosts.len() {
            assert(all[i] == hosts[i]);
        } else {
            let k = i - hosts.len();
            assert(all[i] == host_of(assets[k]));
            lemma_ip_of(assets[k].origin);
            lemma_ip_of(assets[k].ip);
        }
    }
    assert forall|i: int, j: int| 0 <= i < j < all.len() implies (#[trigger] all[i]).origin_ip != (
    #[trigger] all[j]).origin_ip by {
        if j < hosts.len() {
            assert(all[i] == hosts[i] && all[j] == hosts[j]);
        } else {
            let q = j - hosts.len();
            assert(all[j] == host_of(assets[q]));
            lemma_ip_of(assets[q].origin);
            if i < hosts.len() {
                assert(all[i] == hosts[i]);
            } else {
                let p = i - hosts.len();
                assert(all[i] == host_of(assets[p]));
                if ip_text(assets[p].origin) == ip_text(assets[q].origin) {
                    law_ip_text_injective(assets[p].origin, assets[q].origin);
                }
            }
        }
    }
}

/// The run behind one whose new assets were registered follows it.
proof fn lemma_follows(
    a: ReconcileInput,
    b: ReconcileInput,
    hosts: Seq<HostModel>,
    assets: Seq<AssetModel>,
)
    requires
        registry_ok(hosts),
        registry_ok(hosts + assets.map_values(|a: AssetModel| host_of(a))),
        b.zones == a.zones,
        a.registered == origins(hosts),
        b.registered == origins(hosts + assets.map_values(|a: AssetModel| host_of(a))),
    ensures
        follows(a, b, assets),
{
    let all = hosts + assets.map_values(|a: AssetModel| host_of(a));
    lemma_origins(hosts);
    lemma_origins(all);
    assert forall|h: u32| #[trigger] a.registered.contains_key(h) implies b.registered.contains_key(
        h,
    ) && b.registered[h] == a.registered[h] by {
        assert(from_record(hosts, h));
        let i = choose|i: int|
            0 <= i < hosts.len() && ip_of((#[trigger] hosts[i]).origin_ip) == Some(h);
        assert(all[i] == hosts[i]);
    }
    assert forall|i: int| 0 <= i < assets.len() implies b.registered.contains_key(
        (#[trigger] assets[i]).origin,
    ) && b.registered[assets[i].origin] == assets[i].ip by {
        let k = hosts.len() + i;
        assert(all[k] == host_of(assets[i]));
        lemma_ip_of(assets[i].origin);
        lemma_ip_of(assets[i].ip);
    }
    assert forall|h: u32| #[trigger] b.registered.contains_key(h) implies a.registered.contains_key(
        h,
    ) || has_origin(assets, h) by {
        assert(from_record(all, h));
        let i = choose|i: int|
            0 <= i < all.len() && ip_of((#[trigger] all[i]).origin_ip) == Some(h);
        if i < hosts.len() {
            assert(all[i] == hosts[i]);
        } else {
            let k = i - hosts.len();
            assert(all[i] == host_of(assets[k]));
            lemma_ip_of(assets[k].origin);
            assert(assets[k].origin == h);
        }
    }
}

/// A capture replays to the same addresses: once its new hosts are registered, the
/// next remap of the same groups maps every host to where it went before, registers
/// nothing, and leaves the registry in order.
pub proof fn law_mapping_is_stable(
    ledger: Session,
    after: Session,
    l3: L3Cfg,
    gs: Seq<GroupModel>,
    cap: usize,
)
    requires
        registry_ok(host_models(ledger.capture_hosts@)),
        plan_for(ledger, l3).zones.len() > 0,
        gs.len() <= usize::MAX,
        hosts_distinct(gs),
        after == (Session {
            capture_hosts: after.capture_hosts,
            registry_generation: after.registry_generation,
            ..ledger
        }),
        host_models(after.capture_hosts@) == hosts_with(
            host_models(ledger.capture_hosts@),
            ledger.devices@.len(),
            plan_for(ledger, l3).reconcile(gs, room(ledger, cap)).assets,
            cap as nat,
        ),
    ensures
        ({
            let first = plan_for(ledger, l3).reconcile(gs, room(ledger, cap));
            let next = plan_for(after, l3).reconcile(gs, room(after, cap));
            &&& next.map == first.map
            &&& next.assets.len() == 0
            &&& registry_ok(host_models(after.capture_hosts@))
        }),
{
    let a = plan_for(ledger, l3);
    let b = plan_for(after, l3);
    let budget = room(ledger, cap);
    let left = room(after, cap);
    let order = by_key(group_keys(gs));
    let hosts = host_models(ledger.capture_hosts@);
    let hosts1 = host_models(after.capture_hosts@);
    let done = a.reconcile(gs, budget);
    let assets = done.assets;
    lemma_targets_wf(ledger.devices@, ledger.subnets@);
    lemma_order(group_keys(gs));
    assert forall|i: int| 0 <= i < order.len() implies (#[trigger] order[i]) < gs.len() by {
        lemma_by_key_contains(group_keys(gs), order[i]);
        assert(order.contains(order[i]));
    }
    lemma_steps_once(a, gs, order);
    let steps = steps_of(a, gs, order);
    lemma_groups_are_steps(a, a.start(budget), gs, order);
    let fin = taken_steps(a, a.start(budget), steps);
    assert(fin.assets == assets);
    assert(steps.take(steps.len() as int) =~= steps);
    lemma_assets_grow(a, a.start(budget), steps, 0);
    assert(steps.take(0) =~= Seq::empty());
    assert(fin.budget + assets.len() == budget);
    lemma_new_assets_registered(ledger, l3, gs, cap);
    assert(hosts1.len() == after.capture_hosts@.len());
    assert(hosts.len() == ledger.capture_hosts@.len());
    lemma_origins_once(a, a.start(budget), steps);
    lemma_registry_grows(hosts, assets);
    lemma_follows(a, b, hosts, assets);
    assert(left == fin.budget);
    lemma_same_steps(a, b, budget, left, steps, steps.len() as int);
    lemma_groups_are_steps(b, b.start(left), gs, order);
    lemma_steps_same_zones(a, b, gs, order);
}

/// The steps depend on the zones alone, not on what is registered.
proof fn lemma_steps_same_zones(
    a: ReconcileInput,
    b: ReconcileInput,
    groups: Seq<GroupModel>,
    order: Seq<usize>,
)
    requires
        a.zones == b.zones,
        a.affinity == b.affinity,
        a.seed == b.seed,
    ensures
        steps_of(a, groups, order) == steps_of(b, groups, order),
    decreases order.len(),
{
    if order.len() > 0 {
        lemma_steps_same_zones(a, b, groups, order.drop_last());
    }
}

/// A registered host keeps its asset in every later run, whatever else is
/// registered by then: it is mapped there whenever it is mapped.
pub proof fn law_registered_host_keeps_its_asset(
    ledger: Session,
    l3: L3Cfg,
    gs: Seq<GroupModel>,
    budget: nat,
    k: int,
)
    requires
        registry_ok(host_models(ledger.capture_hosts@)),
        plan_for(ledger, l3).zones.len() > 0,
        0 <= k < ledger.capture_hosts@.len(),
    ensures
        ({
            let rec = host_models(ledger.capture_hosts@)[k];
            let done = plan_for(ledger, l3).reconcile(gs, budget);
            let origin = ip_of(rec.origin_ip)->0;
            done.map.contains_key(origin) ==> done.map[origin] == ip_of(rec.ip)->0
        }),
{
    let hosts = host_models(ledger.capture_hosts@);
    lemma_targets_wf(ledger.devices@, ledger.subnets@);
    lemma_origins(hosts);
    law_reconcile_is_sound(plan_for(ledger, l3), gs, budget);
    let rec = hosts[k];
    assert(plan_for(ledger, l3).registered.contains_key(ip_of(rec.origin_ip)->0));
}

/// The groups of a capture share no host.
pub proof fn law_groups_share_no_host(
    gs: Seq<GroupModel>,
    fs: Seq<Seq<u8>>,
    hints: Seq<Ipv4Net>,
    rows: Seq<(u32, Seq<char>)>,
)
    requires
        are_groups(gs, fs, hints, rows),
        gs.len() <= usize::MAX,
    ensures
        hosts_distinct(gs),
{
    let keys = zone_groups(fs, hints);
    let hosts = hosts_in(fs);
    let list = group_list(hosts, hints);
    let order = by_key(zone_keys(list));
    assert(keys.len() == order.len());
    by_key_len(zone_keys(list));
    lemma_order(zone_keys(list));
    assert forall|i: int| 0 <= i < gs.len() implies (#[trigger] gs[i]).hosts.no_duplicates() by {
        assert(is_group(gs[i], keys[i], i as nat, fs, hints, rows));
        let z = choose|z: Zone| #[trigger]
            is_zone(z, keys[i], i as nat, fs, hints, rows) && gs[i]
                == group_from(z, fs, hints);
        lemma_increasing_once(z.device_ips@);
    }
    assert forall|i: int, j: int, h: u32|
        0 <= i < j < gs.len() && #[trigger] gs[i].hosts.contains(h) implies !(
    #[trigger] gs[j].hosts.contains(h)) by {
        assert(is_group(gs[i], keys[i], i as nat, fs, hints, rows));
        assert(is_group(gs[j], keys[j], j as nat, fs, hints, rows));
        let x = choose|z: Zone| #[trigger]
            is_zone(z, keys[i], i as nat, fs, hints, rows) && gs[i]
                == group_from(z, fs, hints);
        let y = choose|z: Zone| #[trigger]
            is_zone(z, keys[j], j as nat, fs, hints, rows) && gs[j]
                == group_from(z, fs, hints);
        assert(members(hosts, hints, keys[i]).contains(h));
        if gs[j].hosts.contains(h) {
            assert(members(hosts, hints, keys[j]).contains(h));
            assert(group(h, hints) == keys[i]);
            assert(group(h, hints) == keys[j]);
            assert(order[i] != order[j]);
            assert(order.contains(order[i]) && order.contains(order[j]));
            lemma_by_key_contains(zone_keys(list), order[i]);
            lemma_by_key_contains(zone_keys(list), order[j]);
            assert(keys[i] == list[order[i] as int]);
            assert(keys[j] == list[order[j] as int]);
            if order[i] < order[j] {
                assert(group_lt(list[order[i] as int], list[order[j] as int]));
            } else {
                assert(group_lt(list[order[j] as int], list[order[i] as int]));
            }
        }
    }
}

proof fn by_key_len(keys: Seq<u64>)
    ensures
        by_key(keys).len() == keys.len(),
{
    let all = Seq::new(keys.len(), |i: int| i as usize);
    all.lemma_sort_by_ensures(crate::order::key_order(keys));
    vstd::seq_lib::to_multiset_len(all);
    vstd::seq_lib::to_multiset_len(by_key(keys));
}

proof fn lemma_increasing_once(s: Seq<u32>)
    requires
        increasing(s),
    ensures
        s.no_duplicates(),
{
    assert forall|i: int, j: int| 0 <= i < s.len() && 0 <= j < s.len() && i != j implies s[i]
        != s[j] by {
        if i < j {
            assert(s[i] < s[j]);
        } else {
            assert(s[j] < s[i]);
        }
    }
}

/// Two ascending sequences of the same numbers are one.
proof fn lemma_increasing_same(s: Seq<u32>, t: Seq<u32>)
    requires
        increasing(s),
        increasing(t),
        forall|x: u32| s.contains(x) <==> t.contains(x),
    ensures
        s == t,
    decreases s.len(),
{
    if s.len() == 0 {
        if t.len() > 0 {
            assert(t.contains(t[0]));
        }
        assert(s =~= t);
    } else {
        assert(s.contains(s.last()));
        assert(t.contains(s.last()));
        let j = choose|j: int| 0 <= j < t.len() && t[j] == s.last();
        assert(t.contains(t.last()));
        let i = choose|i: int| 0 <= i < s.len() && s[i] == t.last();
        assert(s.last() == t.last());
        let (a, b) = (s.drop_last(), t.drop_last());
        assert forall|x: u32| a.contains(x) <==> b.contains(x) by {
            lemma_without_last(s, x);
            lemma_without_last(t, x);
        }
        lemma_increasing_same(a, b);
        assert(s =~= a.push(s.last()));
        assert(t =~= b.push(t.last()));
    }
}

proof fn lemma_without_last(s: Seq<u32>, x: u32)
    requires
        increasing(s),
        s.len() > 0,
    ensures
        s.drop_last().contains(x) <==> s.contains(x) && x != s.last(),
{
    if s.contains(x) && x != s.last() {
        let i = choose|i: int| 0 <= i < s.len() && s[i] == x;
        assert(s.drop_last()[i] == x);
    }
    if s.drop_last().contains(x) {
        let i = choose|i: int| 0 <= i < s.drop_last().len() && s.drop_last()[i] == x;
        assert(s[i] == x);
    }
}

/// A capture's frames decide its groups.
proof fn lemma_groups_same(
    a: Seq<GroupModel>,
    b: Seq<GroupModel>,
    fs: Seq<Seq<u8>>,
    hints: Seq<Ipv4Net>,
    rows: Seq<(u32, Seq<char>)>,
)
    requires
        are_groups(a, fs, hints, rows),
        are_groups(b, fs, hints, rows),
    ensures
        a == b,
{
    let keys = zone_groups(fs, hints);
    assert forall|i: int| 0 <= i < a.len() implies a[i] == b[i] by {
        assert(is_group(a[i], keys[i], i as nat, fs, hints, rows));
        assert(is_group(b[i], keys[i], i as nat, fs, hints, rows));
        let x = choose|z: Zone| #[trigger]
            is_zone(z, keys[i], i as nat, fs, hints, rows) && a[i] == group_from(z, fs, hints);
        let y = choose|z: Zone| #[trigger]
            is_zone(z, keys[i], i as nat, fs, hints, rows) && b[i] == group_from(z, fs, hints);
        lemma_increasing_same(x.device_ips@, y.device_ips@);
    }
    assert(a =~= b);
}

/// A capture replays to the same frames every run: once it has been brought into
/// the plan, bringing it in again gives the same frames and registers nothing.
pub proof fn law_capture_replays_the_same(
    c: Seq<PacketModel>,
    first: Seq<PacketModel>,
    again: Seq<PacketModel>,
    ledger: Session,
    after: Session,
    later: Session,
    hints: Seq<Ipv4Net>,
    rows: Seq<(u32, Seq<char>)>,
    l3: L3Cfg,
    cap: usize,
)
    requires
        registry_ok(host_models(ledger.capture_hosts@)),
        zone_groups(frames(c), hints).len() <= usize::MAX,
        is_remap(c, first, ledger, after, hints, rows, l3, cap),
        is_remap(c, again, after, later, hints, rows, l3, cap),
    ensures
        again == first,
        host_models(later.capture_hosts@) == host_models(after.capture_hosts@),
        registry_ok(host_models(later.capture_hosts@)),
{
    let fs = frames(c);
    assert(plan_for(after, l3).zones == plan_for(ledger, l3).zones);
    if plan_for(ledger, l3).zones.len() > 0 {
        let (gs, macs) = choose|gs: Seq<GroupModel>, macs: Map<u32, [u8; 6]>|
            {
                &&& are_groups(gs, fs, hints, rows)
                &&& macs_match(macs, ledger.devices@)
                &&& #[trigger] reconciled_as(
                    first,
                    host_models(after.capture_hosts@),
                    c,
                    ledger,
                    l3,
                    cap,
                    gs,
                    macs,
                    hosts_in(fs),
                )
            };
        let (hs, nacs) = choose|gs: Seq<GroupModel>, macs: Map<u32, [u8; 6]>|
            {
                &&& are_groups(gs, fs, hints, rows)
                &&& macs_match(macs, after.devices@)
                &&& #[trigger] reconciled_as(
                    again,
                    host_models(later.capture_hosts@),
                    c,
                    after,
                    l3,
                    cap,
                    gs,
                    macs,
                    hosts_in(fs),
                )
            };
        lemma_groups_same(gs, hs, fs, hints, rows);
        law_groups_share_no_host(gs, fs, hints, rows);
        law_mapping_is_stable(ledger, after, l3, gs, cap);
        assert forall|ip: u32| #[trigger] macs.contains_key(ip) implies macs[ip] == nacs[ip] by {
            assert(nacs.contains_key(ip));
            assert(macs[ip]@ == nacs[ip]@);
            assert(macs[ip] =~= nacs[ip]);
        }
        assert forall|ip: u32| macs.contains_key(ip) <==> nacs.contains_key(ip) by {}
        assert(macs =~= nacs);
    }
}

/// A ledger that holds a host's record uses its address.
proof fn lemma_host_in_use(after: Session, k: int, ip: u32)
    requires
        0 <= k < after.capture_hosts@.len(),
        host_models(after.capture_hosts@)[k].ip == ip_text(ip),
    ensures
        after.used().contains(ip),
{
    assert(after.capture_hosts@[k].ip@ == ip_text(ip));
    assert(has_host_ip(after.capture_hosts@, ip_text(ip)));
}

/// The asset of a registered host is in use for as long as its record is kept.
proof fn lemma_registered_in_use(hosts: Seq<HostModel>, after: Session, ip: u32)
    requires
        registry_ok(hosts),
        hosts.is_prefix_of(host_models(after.capture_hosts@)),
        origins(hosts).values().contains(ip),
    ensures
        after.used().contains(ip),
{
    lemma_origins(hosts);
    lemma_ip_of(ip);
    let o = choose|o: u32| #[trigger] origins(hosts).contains_key(o) && origins(hosts)[o] == ip;
    assert(from_record(hosts, o));
    let i = choose|i: int|
        0 <= i < hosts.len() && ip_of((#[trigger] hosts[i]).origin_ip) == Some(o);
    lemma_same_ip(hosts[i].ip, ip_text(ip));
    assert(host_models(after.capture_hosts@)[i] == hosts[i]);
    lemma_host_in_use(after, i, ip);
}

/// A device's address is in use.
proof fn lemma_reserved_in_use(after: Session, subnets: Seq<SubnetRecord>, ip: u32)
    requires
        all_reserved(targets_of(after.devices@, subnets)).contains(ip),
    ensures
        after.used().contains(ip),
{
    let ds = after.devices@;
    lemma_ip_of(ip);
    lemma_reserved_is_a_device(ds, subnets, ip);
    let i = choose|i: int| 0 <= i < ds.len() && ip_of((#[trigger] ds[i]).ip@) == Some(ip);
    lemma_same_ip(ds[i].ip@, ip_text(ip));
    assert(has_device_ip(ds, ip_text(ip)));
}

/// The addresses of new assets, of registered ones and of devices are in use once
/// the new assets are registered.
proof fn lemma_in_use(
    hosts: Seq<HostModel>,
    assets: Seq<AssetModel>,
    after: Session,
    subnets: Seq<SubnetRecord>,
    ip: u32,
)
    requires
        registry_ok(hosts),
        host_models(after.capture_hosts@) == hosts + assets.map_values(
            |a: AssetModel| host_of(a),
        ),
        asset_at(assets, ip) || origins(hosts).values().contains(ip) || all_reserved(
            targets_of(after.devices@, subnets),
        ).contains(ip),
    ensures
        after.used().contains(ip),
{
    let news = assets.map_values(|a: AssetModel| host_of(a));
    if asset_at(assets, ip) {
        let i = choose|i: int| 0 <= i < assets.len() && (#[trigger] assets[i]).ip == ip;
        assert((hosts + news)[hosts.len() + i] == host_of(assets[i]));
        assert(host_models(after.capture_hosts@).len() == after.capture_hosts@.len());
        lemma_host_in_use(after, hosts.len() + i, ip);
    } else if origins(hosts).values().contains(ip) {
        assert(hosts.is_prefix_of(hosts + news)) by {
            assert((hosts + news).take(hosts.len() as int) =~= hosts);
        }
        lemma_registered_in_use(hosts, after, ip);
    } else {
        lemma_reserved_in_use(after, subnets, ip);
    }
}

/// Every address that a capture's hosts go to is in use in the plan afterwards.
proof fn lemma_lands_in_plan(
    ledger: Session,
    after: Session,
    l3: L3Cfg,
    gs: Seq<GroupModel>,
    cap: usize,
    h: u32,
)
    requires
        registry_ok(host_models(ledger.capture_hosts@)),
        plan_for(ledger, l3).zones.len() > 0,
        after.devices == ledger.devices,
        host_models(after.capture_hosts@) == hosts_with(
            host_models(ledger.capture_hosts@),
            ledger.devices@.len(),
            plan_for(ledger, l3).reconcile(gs, room(ledger, cap)).assets,
            cap as nat,
        ),
        plan_for(ledger, l3).reconcile(gs, room(ledger, cap)).map.contains_key(h),
    ensures
        after.used().contains(plan_for(ledger, l3).reconcile(gs, room(ledger, cap)).map[h]),
{
    let done = plan_for(ledger, l3).reconcile(gs, room(ledger, cap));
    lemma_lands(ledger, l3, gs, room(ledger, cap), h);
    lemma_new_assets_registered(ledger, l3, gs, cap);
    lemma_in_use(
        host_models(ledger.capture_hosts@),
        done.assets,
        after,
        ledger.subnets@,
        done.map[h],
    );
}

/// Where a mapped host goes: to a new asset, to a registered one, or to a device.
proof fn lemma_lands(ledger: Session, l3: L3Cfg, gs: Seq<GroupModel>, budget: nat, h: u32)
    requires
        plan_for(ledger, l3).zones.len() > 0,
        plan_for(ledger, l3).reconcile(gs, budget).map.contains_key(h),
    ensures
        ({
            let done = plan_for(ledger, l3).reconcile(gs, budget);
            ||| asset_at(done.assets, done.map[h])
            ||| origins(host_models(ledger.capture_hosts@)).values().contains(done.map[h])
            ||| all_reserved(targets_of(ledger.devices@, ledger.subnets@)).contains(done.map[h])
        }),
{
    let a = plan_for(ledger, l3);
    lemma_targets_wf(ledger.devices@, ledger.subnets@);
    law_reconcile_is_sound(a, gs, budget);
    assert(a.start(budget).taken == all_reserved(a.zones).union(a.registered.values()));
}

/// A reserved address is a device's.
proof fn lemma_reserved_is_a_device(ds: Seq<DeviceRecord>, subnets: Seq<SubnetRecord>, ip: u32)
    requires
        all_reserved(targets_of(ds, subnets)).contains(ip),
    ensures
        exists|i: int| 0 <= i < ds.len() && ip_of((#[trigger] ds[i]).ip@) == Some(ip),
    decreases subnets.len(),
{
    let zones = targets_of(ds, subnets);
    let i = choose|i: int| 0 <= i < zones.len() && (#[trigger] zones[i]).reserved.contains(ip);
    let prior = targets_of(ds, subnets.drop_last());
    if i < prior.len() {
        assert(prior[i].reserved.contains(ip));
        lemma_reserved_is_a_device(ds, subnets.drop_last(), ip);
    } else {
        assert(zone_has(ds, subnets.last().cidr@, ip));
    }
}

/// Every host of a capture is in one of its groups.
proof fn lemma_host_in_a_group(
    gs: Seq<GroupModel>,
    fs: Seq<Seq<u8>>,
    hints: Seq<Ipv4Net>,
    rows: Seq<(u32, Seq<char>)>,
    h: u32,
) -> (gi: int)
    requires
        are_groups(gs, fs, hints, rows),
        gs.len() <= usize::MAX,
        hosts_in(fs).contains(h),
    ensures
        0 <= gi < gs.len(),
        gs[gi].hosts.contains(h),
{
    let keys = zone_groups(fs, hints);
    let list = group_list(hosts_in(fs), hints);
    let order = by_key(zone_keys(list));
    by_key_len(zone_keys(list));
    assert(list.contains(group(h, hints)));
    let k = choose|k: int| 0 <= k < list.len() && list[k] == group(h, hints);
    lemma_by_key_contains(zone_keys(list), k as usize);
    assert(order.contains(k as usize));
    let gi = choose|gi: int| 0 <= gi < order.len() && order[gi] == k as usize;
    assert(keys[gi] == list[k]);
    assert(is_group(gs[gi], keys[gi], gi as nat, fs, hints, rows));
    let z = choose|z: Zone| #[trigger]
        is_zone(z, keys[gi], gi as nat, fs, hints, rows) && gs[gi] == group_from(z, fs, hints);
    assert(members(hosts_in(fs), hints, keys[gi]).contains(h));
    assert(z.device_ips@.contains(h));
    gi
}

/// What is left of a capture that was moved and thinned are frames of it, moved.
proof fn lemma_thinned_is_moved(
    c: Seq<PacketModel>,
    hm: HostMap,
    hidden: Set<u32>,
    l3: L3Cfg,
    i: int,
) -> (k: int)
    requires
        0 <= i < thinned(moved_capture(c, hm), hidden, l3).len(),
    ensures
        0 <= k < c.len(),
        thinned(moved_capture(c, hm), hidden, l3)[i].data == hm.frame(c[k].data),
{
    let moved = c.map_values(|p: PacketModel| p.with_data(hm.frame(p.data)));
    let safe = moved_capture(c, hm);
    let clean = safe.filter(clean_of(hidden));
    let short = clean.filter(fits(l3.max_frame_bytes as int));
    let out = thinned(safe, hidden, l3);
    let p = out[i];
    if !l3.replay_capture_arp {
        short.lemma_filter_contains_rev(not_arp(), p);
    }
    assert(short.contains(p));
    clean.lemma_filter_contains_rev(fits(l3.max_frame_bytes as int), p);
    safe.lemma_filter_contains_rev(clean_of(hidden), p);
    moved.lemma_filter_contains_rev(|p: PacketModel| safe_frame(p.data), p);
    let k = choose|k: int| 0 <= k < moved.len() && moved[k] == p;
    k
}

/// A set of addresses that holds one has a lowest.
pub proof fn lemma_has_lowest(s: Set<u32>, x: u32)
    requires
        s.contains(x),
    ensures
        exists|m: u32| is_lowest(s, m),
    decreases x,
{
    if forall|y: u32| s.contains(y) ==> x <= y {
        assert(is_lowest(s, x));
    } else {
        let y = choose|y: u32| s.contains(y) && y < x;
        lemma_has_lowest(s, y);
    }
}

/// The hosts of a capture that are no address of the plan.
pub open spec fn originals(fs: Seq<Seq<u8>>, ledger: Session) -> Set<u32> {
    hosts_in(fs).difference(ledger.used())
}

/// A real host never surfaces: with a device in the plan, no frame of a remapped
/// capture carries, in its headers or in an ARP message, an address of the capture
/// that is not one of the plan, nor any address of the capture in its payload.
pub proof fn law_no_original_host_surfaces(
    c: Seq<PacketModel>,
    out: Seq<PacketModel>,
    ledger: Session,
    after: Session,
    hints: Seq<Ipv4Net>,
    rows: Seq<(u32, Seq<char>)>,
    l3: L3Cfg,
    cap: usize,
    i: int,
    h: u32,
)
    requires
        registry_ok(host_models(ledger.capture_hosts@)),
        zone_groups(frames(c), hints).len() <= usize::MAX,
        forall|k: int| 0 <= k < c.len() ==> (#[trigger] c[k]).data.len() <= usize::MAX,
        is_remap(c, out, ledger, after, hints, rows, l3, cap),
        exists|ip: u32| all_reserved(plan_for(ledger, l3).zones).contains(ip),
        0 <= i < out.len(),
        originals(frames(c), after).contains(h),
    ensures
        !carries(out[i].data, h),
        !embeds(out[i].data, hosts_in(frames(c))),
{
    let fs = frames(c);
    let a = plan_for(ledger, l3);
    let some = choose|ip: u32| all_reserved(a.zones).contains(ip);
    assert(all_reserved(a.zones).contains(some));
    lemma_has_lowest(all_reserved(a.zones), some);
    assert(a.zones.len() > 0);
    let (gs, macs) = choose|gs: Seq<GroupModel>, macs: Map<u32, [u8; 6]>|
        {
            &&& are_groups(gs, fs, hints, rows)
            &&& macs_match(macs, ledger.devices@)
            &&& #[trigger] reconciled_as(
                out,
                host_models(after.capture_hosts@),
                c,
                ledger,
                l3,
                cap,
                gs,
                macs,
                hosts_in(fs),
            )
        };
    let done = a.reconcile(gs, room(ledger, cap));
    let hm = HostMap { addrs: done.map, macs, seed: ledger.seed, remap_mac: l3.remap_mac };
    law_remapped_frames_are_fit_to_send(c, hm, hosts_in(fs), l3, i);
    let k = lemma_thinned_is_moved(c, hm, hosts_in(fs), l3, i);
    if carries(out[i].data, h) {
        let x = law_relocated_frame_carries(hm, c[k].data, h);
        if done.map.contains_key(x) {
            lemma_lands_in_plan(ledger, after, l3, gs, cap, x);
        } else {
            assert(fs[k] == c[k].data);
            assert(hosts_in(fs).contains(h));
            let gi = lemma_host_in_a_group(gs, fs, hints, rows, h);
            lemma_targets_wf(ledger.devices@, ledger.subnets@);
            law_reconcile_maps_every_host(a, gs, room(ledger, cap), gi, h);
        }
    }
}

} // verus!
