//! The OT communication graph: who resolves whom by ARP.
//!
//! A passive sensor forms the MAC<->IP union from an authoritative ARP
//! *is-at reply* -- an asset answering "my IP is at my MAC" -- not from a
//! `who-has` request's sender, and not from an L3/L7 source MAC. So every asset
//! we want fused must be the OWNER of a resolution: a peer asks for it, and it
//! answers `is-at`. The solicitation must look organic: a single host
//! broadcasting `who-has` for a whole subnet is an ARP-scan signature the sensor
//! suppresses. The faithful pattern is a few hosts each resolving the *few* peers
//! they actually talk to.
//!
//! This module models that: each zone is partitioned into small **control
//! cells**, mirroring an OT line/cell with a local controller. The cell master
//! resolves its members (they answer and bind); one member resolves the master
//! (it answers and binds). Every asset is the owner of at least one edge, while no
//! requester resolves more than `CELL_SIZE - 1` distinct owners, so there is no
//! scanner. The zone engineering station (`.250`) leads the first cell.
//!
//! The graph is a function of the ledger plus the session seed.

use vstd::prelude::*;
use crate::ledger::{CaptureHostRecord, DeviceRecord, Session};
use crate::mac::{mac_of, parse_mac};
use crate::net::{cidr_net, ip_of, parse_ip, parse_net, span, span_of, Ipv4Net};
use crate::order::{by_key, sort_by_key, text_before, text_less};
use crate::proto::l3::{host_mac, stable_mac};
use crate::simulate::devices::gateway;
use crate::text::str_eq;

verus! {

/// Assets per control cell: a local master plus up to `CELL_SIZE - 1` members.
/// The master's `who-has` fan-out is therefore bounded at `CELL_SIZE - 1`, well
/// under any ARP-scan threshold, while the cell stays the size of a plausible OT
/// line (a controller and the few field devices on it).
pub const CELL_SIZE: usize = 6;

/// One asset as the graph sees it: a stable IP bound to a stable MAC.
#[derive(Clone, Copy, Debug, PartialEq, Eq)]
pub struct Node {
    pub ip: u32,
    pub mac: [u8; 6],
}

/// A directed resolution: `requester` broadcasts `who-has` for `owner`; `owner`
/// answers `is-at` and binds at the sensor.
#[derive(Clone, Copy, Debug, PartialEq, Eq)]
pub struct Edge {
    pub requester: Node,
    pub owner: Node,
}

/// What a node says.
pub struct NodeModel {
    pub ip: u32,
    pub mac: Seq<u8>,
}

/// What an edge says.
pub struct EdgeModel {
    pub requester: NodeModel,
    pub owner: NodeModel,
}

impl View for Node {
    type V = NodeModel;

    open spec fn view(&self) -> NodeModel {
        NodeModel { ip: self.ip, mac: self.mac@ }
    }
}

impl View for Edge {
    type V = EdgeModel;

    open spec fn view(&self) -> EdgeModel {
        EdgeModel { requester: self.requester@, owner: self.owner@ }
    }
}

pub open spec fn node_models(v: Seq<Node>) -> Seq<NodeModel> {
    v.map_values(|n: Node| n@)
}

pub open spec fn edge_models(v: Seq<Edge>) -> Seq<EdgeModel> {
    v.map_values(|e: Edge| e@)
}

/// The offset of the engineering station in a network: 250, or the last usable
/// host of a smaller one.
pub open spec fn station_offset(prefix: int) -> int {
    let last = if span(prefix) >= 2 {
        span(prefix) - 2
    } else {
        0
    };
    if last < 250 {
        last
    } else {
        250
    }
}

/// The engineering-station address of a network.
pub open spec fn station_of(n: Ipv4Net) -> int {
    n.first() + station_offset(n.prefix as int)
}

/// The engineering-station address for a network text, 10.0.0.250 for a text that
/// is none.
pub open spec fn station(cidr: Seq<char>) -> u32 {
    match cidr_net(cidr) {
        Some(n) => station_of(n) as u32,
        None => 0x0A00_00FA,
    }
}

/// The gateway address for a network text, 10.0.0.1 for a text that is none.
pub open spec fn firewall(cidr: Seq<char>) -> u32 {
    match cidr_net(cidr) {
        Some(n) => gateway(n),
        None => 0x0A00_0001,
    }
}

/// The engineering-station address for an already-parsed subnet.
pub fn station_addr_net(n: Ipv4Net) -> (r: u32)
    requires
        n.wf(),
    ensures
        r == station_of(n),
        n.has(r as int),
{
    proof {
        n.lemma_bounds();
    }
    let size: u64 = span_of(n.prefix);
    let last: u64 = if size >= 2 {
        size - 2
    } else {
        0
    };
    let offset: u64 = if last < 250 {
        last
    } else {
        250
    };
    (n.network() as u64 + offset) as u32
}

/// The engineering-station address within a subnet (network + 250, clamped to
/// the last usable host so it never lands outside a small subnet). This is the
/// per-zone supervisory client: it leads the first control cell and is the OT
/// session client. One stable client per zone, so its MAC is never multi-homed
/// across zones (which a sensor cannot fuse).
pub fn station_addr(subnet_cidr: &str) -> (r: u32)
    ensures
        r == station(subnet_cidr@),
{
    match parse_net(subnet_cidr) {
        Some(n) => station_addr_net(n),
        None => 0x0A00_00FA,
    }
}

/// The zone-edge firewall/gateway address within a subnet (network + 1, the
/// conventional default gateway). It hosts the per-zone DNS resolver and is a
/// real ledger asset, so it unions like any other host and reads as the conduit
/// all the zone's traffic routes through.
pub fn firewall_addr(subnet_cidr: &str) -> (r: u32)
    ensures
        r == firewall(subnet_cidr@),
{
    match parse_net(subnet_cidr) {
        Some(n) => {
            proof {
                n.lemma_bounds();
            }
            n.network().saturating_add(1)
        },
        None => 0x0A00_0001,
    }
}

/// How many nodes the next cell takes of `n`: a full cell, but one fewer where
/// that would strand a single node.
pub open spec fn next_cell(n: int, size: int) -> int {
    if n > size && n - size == 1 {
        size - 1
    } else if n < size {
        n
    } else {
        size
    }
}

/// The nodes split into consecutive cells.
pub open spec fn cells<T>(nodes: Seq<T>, size: int) -> Seq<Seq<T>>
    decreases nodes.len(),
{
    let take = next_cell(nodes.len() as int, size);
    if nodes.len() == 0 || size < 2 {
        Seq::empty()
    } else {
        seq![nodes.take(take)] + cells(nodes.skip(take), size)
    }
}

pub open spec fn cell_models(v: Seq<&[Node]>) -> Seq<Seq<NodeModel>> {
    v.map_values(|c: &[Node]| node_models(c@))
}

/// Split `nodes` into consecutive cells of `size`, never leaving a size-1 tail
/// (a lone node would have no peer to bind it): a trailing single is merged back
/// by shrinking the prior cell to `size - 1`.
pub fn cells_no_orphan(nodes: &[Node], size: usize) -> (r: Vec<&[Node]>)
    requires
        size >= 2,
    ensures
        cell_models(r@) == cells(node_models(nodes@), size as int),
{
    let n: usize = nodes.len();
    let ghost all = node_models(nodes@);
    let mut out: Vec<&[Node]> = Vec::new();
    let mut i: usize = 0;
    proof {
        assert(all.skip(0) =~= all);
        assert(cell_models(out@) =~= Seq::empty());
        assert(cells(all, size as int) =~= Seq::<Seq<NodeModel>>::empty() + cells(
            all,
            size as int,
        ));
    }
    while i < n
        invariant
            size >= 2,
            n == nodes@.len(),
            i <= n,
            all == node_models(nodes@),
            cells(all, size as int) == cell_models(out@) + cells(all.skip(i as int), size as int),
        decreases n - i,
    {
        let remaining: usize = n - i;
        let take: usize = if remaining > size && remaining - size == 1 {
            size - 1
        } else if remaining < size {
            remaining
        } else {
            size
        };
        let ghost o = out@;
        let cell = vstd::slice::slice_subrange(nodes, i, i + take);
        out.push(cell);
        proof {
            let rest = all.skip(i as int);
            assert(rest.skip(take as int) =~= all.skip(i + take));
            assert(node_models(cell@) =~= rest.take(take as int));
            assert(cell_models(out@) =~= cell_models(o).push(rest.take(take as int)));
            assert(cell_models(o) + (seq![rest.take(take as int)] + cells(
                all.skip(i + take),
                size as int,
            )) =~= cell_models(out@) + cells(all.skip(i + take), size as int));
        }
        i += take;
    }
    proof {
        assert(all.skip(i as int) =~= Seq::empty());
        assert(cell_models(out@) + cells(all.skip(i as int), size as int) =~= cell_models(out@));
    }
    out
}

/// The edges of a cell: its first node resolves each other node, and its second
/// node resolves the first.
pub open spec fn cell_edges(cell: Seq<NodeModel>) -> Seq<EdgeModel> {
    let polls = Seq::new(
        (cell.len() - 1) as nat,
        |i: int| EdgeModel { requester: cell[0], owner: cell[i + 1] },
    );
    if cell.len() < 2 {
        Seq::empty()
    } else {
        polls.push(EdgeModel { requester: cell[1], owner: cell[0] })
    }
}

/// The edges of a list of cells.
pub open spec fn edges_of(cs: Seq<Seq<NodeModel>>) -> Seq<EdgeModel>
    decreases cs.len(),
{
    if cs.len() == 0 {
        Seq::empty()
    } else {
        edges_of(cs.drop_last()) + cell_edges(cs.last())
    }
}

/// An asset's zone text and node.
pub struct AssetNode {
    pub cidr: Seq<char>,
    pub node: NodeModel,
}

/// The nodes of the devices whose address text is one, in order.
pub open spec fn device_nodes(ds: Seq<DeviceRecord>) -> Seq<AssetNode>
    decreases ds.len(),
{
    if ds.len() == 0 {
        Seq::empty()
    } else {
        let r = device_nodes(ds.drop_last());
        let d = ds.last();
        match ip_of(d.ip@) {
            Some(ip) => r.push(
                AssetNode {
                    cidr: d.subnet_cidr@,
                    node: NodeModel { ip, mac: mac_of(d.mac@) },
                },
            ),
            None => r,
        }
    }
}

/// The nodes of the capture hosts whose address text is one, in order.
pub open spec fn host_nodes(hs: Seq<CaptureHostRecord>) -> Seq<AssetNode>
    decreases hs.len(),
{
    if hs.len() == 0 {
        Seq::empty()
    } else {
        let r = host_nodes(hs.drop_last());
        let h = hs.last();
        match ip_of(h.ip@) {
            Some(ip) => r.push(
                AssetNode {
                    cidr: h.subnet_cidr@,
                    node: NodeModel { ip, mac: mac_of(h.mac@) },
                },
            ),
            None => r,
        }
    }
}

/// The nodes of a session: devices, then capture hosts.
pub open spec fn asset_nodes(s: Session) -> Seq<AssetNode> {
    device_nodes(s.devices@) + host_nodes(s.capture_hosts@)
}

/// A text put in its place in an ordered list, unless it is there.
pub open spec fn insert_text(list: Seq<Seq<char>>, t: Seq<char>) -> Seq<Seq<char>>
    decreases list.len(),
{
    if list.len() == 0 || text_before(list.last(), t) {
        list.push(t)
    } else if list.last() == t {
        list
    } else {
        insert_text(list.drop_last(), t).push(list.last())
    }
}

/// The zone texts of a list of assets, in order, each once.
pub open spec fn zone_texts(a: Seq<AssetNode>) -> Seq<Seq<char>>
    decreases a.len(),
{
    if a.len() == 0 {
        Seq::empty()
    } else {
        insert_text(zone_texts(a.drop_last()), a.last().cidr)
    }
}

/// The nodes of the assets of a zone, in order.
pub open spec fn nodes_in(a: Seq<AssetNode>, cidr: Seq<char>) -> Seq<NodeModel>
    decreases a.len(),
{
    if a.len() == 0 {
        Seq::empty()
    } else {
        let r = nodes_in(a.drop_last(), cidr);
        if a.last().cidr == cidr {
            r.push(a.last().node)
        } else {
            r
        }
    }
}

pub open spec fn node_keys(nodes: Seq<NodeModel>) -> Seq<u64> {
    nodes.map_values(|n: NodeModel| n.ip as u64)
}

/// The nodes, lowest address first.
pub open spec fn by_address(nodes: Seq<NodeModel>) -> Seq<NodeModel> {
    by_key(node_keys(nodes)).map_values(|i: usize| nodes[i as int])
}

pub open spec fn has_ip(nodes: Seq<NodeModel>, ip: u32) -> bool {
    exists|i: int| 0 <= i < nodes.len() && (#[trigger] nodes[i]).ip == ip
}

/// A made-up node at an address, with the address's stable MAC.
pub open spec fn made_node(seed: u64, ip: u32) -> NodeModel {
    NodeModel { ip, mac: host_mac(seed, ip) }
}

/// The address below another.
pub open spec fn below(ip: u32) -> u32 {
    if ip > 0 {
        (ip - 1) as u32
    } else {
        0
    }
}

/// The nodes of a zone's graph: the engineering station, unless an asset has its
/// address, and the assets; a lone node gets a made-up peer ahead of it.
pub open spec fn graph_nodes(seed: u64, cidr: Seq<char>, reals: Seq<NodeModel>) -> Seq<NodeModel> {
    let st = station(cidr);
    let nodes = if has_ip(reals, st) {
        reals
    } else {
        seq![made_node(seed, st)] + reals
    };
    if nodes.len() == 1 && below(st) != nodes[0].ip {
        seq![made_node(seed, below(st))] + nodes
    } else {
        nodes
    }
}

/// The edges of one zone.
pub open spec fn zone_edges(seed: u64, cidr: Seq<char>, a: Seq<AssetNode>) -> Seq<EdgeModel> {
    edges_of(cells(graph_nodes(seed, cidr, by_address(nodes_in(a, cidr))), CELL_SIZE as int))
}

/// The edges of a list of zones.
pub open spec fn graph(seed: u64, zones: Seq<Seq<char>>, a: Seq<AssetNode>) -> Seq<EdgeModel>
    decreases zones.len(),
{
    if zones.len() == 0 {
        Seq::empty()
    } else {
        graph(seed, zones.drop_last(), a) + zone_edges(seed, zones.last(), a)
    }
}

struct Asset {
    cidr: String,
    node: Node,
}

spec fn asset_views(v: Seq<Asset>) -> Seq<AssetNode> {
    v.map_values(|a: Asset| AssetNode { cidr: a.cidr@, node: a.node@ })
}

fn collect_assets(ledger: &Session) -> (r: Vec<Asset>)
    ensures
        asset_views(r@) == asset_nodes(*ledger),
{
    let mut r: Vec<Asset> = Vec::new();
    let ghost ds = ledger.devices@;
    let mut i: usize = 0;
    proof {
        assert(ds.take(0) =~= Seq::empty());
        assert(asset_views(r@) =~= Seq::empty());
    }
    while i < ledger.devices.len()
        invariant
            i <= ledger.devices@.len(),
            ds == ledger.devices@,
            asset_views(r@) == device_nodes(ds.take(i as int)),
        decreases ledger.devices@.len() - i,
    {
        proof {
            assert(ds.take(i as int + 1).drop_last() =~= ds.take(i as int));
        }
        let d = &ledger.devices[i];
        if let Some(ip) = parse_ip(d.ip.as_str()) {
            let ghost o = r@;
            r.push(
                Asset { cidr: d.subnet_cidr.clone(), node: Node { ip, mac: parse_mac(d.mac.as_str()) } },
            );
            proof {
                let a = r@.last();
                assert(asset_views(r@) =~= asset_views(o).push(
                    AssetNode { cidr: a.cidr@, node: a.node@ },
                ));
            }
        }
        i += 1;
    }
    proof {
        assert(ds.take(i as int) =~= ds);
        assert(asset_views(r@) =~= device_nodes(ds) + host_nodes(ledger.capture_hosts@.take(0)));
    }
    let ghost hs = ledger.capture_hosts@;
    let mut j: usize = 0;
    while j < ledger.capture_hosts.len()
        invariant
            j <= ledger.capture_hosts@.len(),
            hs == ledger.capture_hosts@,
            ds == ledger.devices@,
            asset_views(r@) == device_nodes(ds) + host_nodes(hs.take(j as int)),
        decreases ledger.capture_hosts@.len() - j,
    {
        proof {
            assert(hs.take(j as int + 1).drop_last() =~= hs.take(j as int));
        }
        let h = &ledger.capture_hosts[j];
        if let Some(ip) = parse_ip(h.ip.as_str()) {
            let ghost o = r@;
            r.push(
                Asset { cidr: h.subnet_cidr.clone(), node: Node { ip, mac: parse_mac(h.mac.as_str()) } },
            );
            proof {
                let a = r@.last();
                let m = AssetNode { cidr: a.cidr@, node: a.node@ };
                assert(asset_views(r@) =~= asset_views(o).push(m));
                assert((device_nodes(ds) + host_nodes(hs.take(j as int))).push(m)
                    =~= device_nodes(ds) + host_nodes(hs.take(j as int)).push(m));
            }
        }
        j += 1;
    }
    proof {
        assert(hs.take(j as int) =~= hs);
    }
    r
}

pub open spec fn strings(v: Seq<String>) -> Seq<Seq<char>> {
    v.map_values(|s: String| s@)
}

/// Put a text in its place.
fn place_text(list: &mut Vec<String>, t: &str)
    ensures
        strings(final(list)@) == insert_text(strings(old(list)@), t@),
{
    let mut at: usize = list.len();
    let ghost all = strings(list@);
    proof {
        assert(all.take(all.len() as int) =~= all);
        assert(insert_text(all, t@) =~= insert_text(all, t@) + all.skip(all.len() as int));
    }
    while at > 0 && !text_less(list[at - 1].as_str(), t) && !str_eq(list[at - 1].as_str(), t)
        invariant
            at <= list@.len(),
            list@ == old(list)@,
            all == strings(list@),
            insert_text(all, t@) == insert_text(all.take(at as int), t@) + all.skip(at as int),
        decreases at,
    {
        proof {
            let head = all.take(at as int);
            assert(head.drop_last() =~= all.take(at as int - 1));
            assert(head.last() == list@[at - 1]@);
            assert(insert_text(head.drop_last(), t@).push(head.last()) + all.skip(at as int)
                =~= insert_text(head.drop_last(), t@) + all.skip(at as int - 1));
        }
        at -= 1;
    }
    if at > 0 && str_eq(list[at - 1].as_str(), t) && !text_less(list[at - 1].as_str(), t) {
        proof {
            assert(all.take(at as int).last() == list@[at - 1]@);
            assert(all.take(at as int) + all.skip(at as int) =~= all);
        }
        return ;
    }
    list.insert(at, t.to_owned());
    proof {
        assert(strings(list@) =~= all.take(at as int).push(t@) + all.skip(at as int));
        if at > 0 {
            assert(all.take(at as int).last() == old(list)@[at - 1]@);
        }
    }
}

fn push_cell_edges(edges: &mut Vec<Edge>, cell: &[Node])
    ensures
        edge_models(final(edges)@) == edge_models(old(edges)@) + cell_edges(node_models(cell@)),
{
    let ghost o = edges@;
    let ghost c = node_models(cell@);
    if cell.len() < 2 {
        proof {
            assert(edge_models(o) + cell_edges(c) =~= edge_models(o));
        }
        return ;
    }
    let master = cell[0];
    let mut i: usize = 1;
    while i < cell.len()
        invariant
            1 <= i <= cell@.len(),
            cell@.len() >= 2,
            master == cell@[0],
            c == node_models(cell@),
            edges@.len() == o.len() + i - 1,
            forall|k: int| 0 <= k < o.len() ==> #[trigger] edges@[k] == o[k],
            forall|k: int|
                o.len() <= k < edges@.len() ==> (#[trigger] edges@[k])@ == (EdgeModel {
                    requester: c[0],
                    owner: c[k - o.len() + 1],
                }),
        decreases cell@.len() - i,
    {
        edges.push(Edge { requester: master, owner: cell[i] });
        i += 1;
    }
    edges.push(Edge { requester: cell[1], owner: master });
    proof {
        let e = edge_models(edges@);
        let want = edge_models(o) + cell_edges(c);
        assert(e.len() == want.len());
        assert forall|k: int| 0 <= k < e.len() implies e[k] == want[k] by {
            if k < o.len() {
                assert(edges@[k] == o[k]);
            } else if k < o.len() + c.len() - 1 {
                assert(edges@[k]@ == (EdgeModel { requester: c[0], owner: c[k - o.len() + 1] }));
            }
        }
        assert(e =~= want);
    }
}

/// The nodes of a zone's graph.
fn zone_nodes(cidr: &str, reals: &Vec<Node>, seed: u64) -> (r: Vec<Node>)
    ensures
        node_models(r@) == graph_nodes(seed, cidr@, node_models(reals@)),
{
    let ghost rm = node_models(reals@);
    let st: u32 = station_addr(cidr);
    let mut taken: bool = false;
    let mut i: usize = 0;
    while i < reals.len()
        invariant
            i <= reals@.len(),
            rm == node_models(reals@),
            taken <==> exists|k: int| 0 <= k < i && (#[trigger] rm[k]).ip == st,
        decreases reals@.len() - i,
    {
        if reals[i].ip == st {
            proof {
                assert(rm[i as int].ip == st);
            }
            taken = true;
        }
        i += 1;
    }
    let mut nodes: Vec<Node> = Vec::new();
    if !taken {
        nodes.push(Node { ip: st, mac: stable_mac(seed, st) });
    }
    let ghost lead = node_models(nodes@);
    let mut k: usize = 0;
    proof {
        assert(node_models(nodes@) =~= lead + rm.take(0));
    }
    while k < reals.len()
        invariant
            k <= reals@.len(),
            rm == node_models(reals@),
            node_models(nodes@) == lead + rm.take(k as int),
        decreases reals@.len() - k,
    {
        let ghost o = nodes@;
        nodes.push(reals[k]);
        proof {
            assert(node_models(nodes@) =~= node_models(o).push(rm[k as int]));
            assert(lead + rm.take(k as int + 1) =~= (lead + rm.take(k as int)).push(rm[k as int]));
        }
        k += 1;
    }
    proof {
        assert(rm.take(k as int) =~= rm);
        assert(node_models(nodes@) =~= if has_ip(rm, st) {
            rm
        } else {
            seq![made_node(seed, st)] + rm
        });
    }
    if nodes.len() == 1 {
        let alt: u32 = st.saturating_sub(1);
        if alt != nodes[0].ip {
            let ghost o = nodes@;
            nodes.insert(0, Node { ip: alt, mac: stable_mac(seed, alt) });
            proof {
                assert(node_models(nodes@) =~= seq![made_node(seed, below(st))] + node_models(o));
            }
        }
    }
    nodes
}

/// The nodes of the assets of a zone, lowest address first.
fn sorted_nodes(assets: &Vec<Asset>, cidr: &str) -> (r: Vec<Node>)
    ensures
        node_models(r@) == by_address(nodes_in(asset_views(assets@), cidr@)),
{
    let ghost all = asset_views(assets@);
    let mut nodes: Vec<Node> = Vec::new();
    let mut keys: Vec<u64> = Vec::new();
    let mut i: usize = 0;
    proof {
        assert(all.take(0) =~= Seq::empty());
        assert(node_models(nodes@) =~= Seq::empty());
    }
    while i < assets.len()
        invariant
            i <= assets@.len(),
            all == asset_views(assets@),
            node_models(nodes@) == nodes_in(all.take(i as int), cidr@),
            keys@.len() == nodes@.len(),
            forall|k: int| 0 <= k < nodes@.len() ==> #[trigger] keys@[k] == nodes@[k].ip,
        decreases assets@.len() - i,
    {
        proof {
            assert(all.take(i as int + 1).drop_last() =~= all.take(i as int));
        }
        if str_eq(assets[i].cidr.as_str(), cidr) {
            let ghost o = nodes@;
            keys.push(assets[i].node.ip as u64);
            nodes.push(assets[i].node);
            proof {
                assert(node_models(nodes@) =~= node_models(o).push(all[i as int].node));
            }
        }
        i += 1;
    }
    proof {
        assert(all.take(i as int) =~= all);
        assert(keys@ =~= node_keys(node_models(nodes@)));
    }
    let order = sort_by_key(keys.as_slice());
    let mut r: Vec<Node> = Vec::new();
    let mut k: usize = 0;
    while k < order.len()
        invariant
            k <= order@.len(),
            forall|j: int| 0 <= j < order@.len() ==> (#[trigger] order@[j]) < nodes@.len(),
            r@.len() == k,
            forall|j: int| 0 <= j < k ==> #[trigger] r@[j] == nodes@[order@[j] as int],
        decreases order@.len() - k,
    {
        r.push(nodes[order[k]]);
        k += 1;
    }
    proof {
        assert(node_models(r@) =~= by_address(node_models(nodes@)));
    }
    r
}

/// Build the per-zone ARP communication graph as a flat edge list. Every real
/// asset (fabricated device or capture host) appears as the OWNER of at least
/// one edge, so it answers `is-at` and unions its MAC<->IP; no requester resolves
/// more than `CELL_SIZE - 1` distinct owners, so the wire carries no scan. The
/// owner's MAC is the asset's stored MAC -- the same one its L3/L7 traffic
/// sources -- so the sensor never sees two MACs for one IP. The synthetic zone
/// station's MAC is the stable one of its address, so ARP and the OT session
/// agree byte-for-byte.
pub fn arp_edges(ledger: &Session, seed: u64) -> (r: Vec<Edge>)
    ensures
        ({
            let a = asset_nodes(*ledger);
            edge_models(r@) == graph(seed, zone_texts(a), a)
        }),
{
    let assets = collect_assets(ledger);
    let ghost a = asset_views(assets@);
    let mut zones: Vec<String> = Vec::new();
    let mut i: usize = 0;
    proof {
        assert(a.take(0) =~= Seq::empty());
        assert(strings(zones@) =~= Seq::empty());
    }
    while i < assets.len()
        invariant
            i <= assets@.len(),
            a == asset_views(assets@),
            strings(zones@) == zone_texts(a.take(i as int)),
        decreases assets@.len() - i,
    {
        proof {
            assert(a.take(i as int + 1).drop_last() =~= a.take(i as int));
        }
        place_text(&mut zones, assets[i].cidr.as_str());
        i += 1;
    }
    proof {
        assert(a.take(i as int) =~= a);
    }
    let ghost zt = strings(zones@);
    let mut edges: Vec<Edge> = Vec::new();
    let mut z: usize = 0;
    proof {
        assert(zt.take(0) =~= Seq::empty());
        assert(edge_models(edges@) =~= Seq::empty());
    }
    while z < zones.len()
        invariant
            z <= zones@.len(),
            a == asset_views(assets@),
            zt == strings(zones@),
            edge_models(edges@) == graph(seed, zt.take(z as int), a),
        decreases zones@.len() - z,
    {
        proof {
            assert(zt.take(z as int + 1).drop_last() =~= zt.take(z as int));
        }
        let reals = sorted_nodes(&assets, zones[z].as_str());
        let nodes = zone_nodes(zones[z].as_str(), &reals, seed);
        let cs = cells_no_orphan(nodes.as_slice(), CELL_SIZE);
        let ghost cm = cell_models(cs@);
        let ghost before = edge_models(edges@);
        let mut k: usize = 0;
        proof {
            assert(cm.take(0) =~= Seq::empty());
            assert(before + edges_of(cm.take(0)) =~= before);
        }
        while k < cs.len()
            invariant
                k <= cs@.len(),
                cm == cell_models(cs@),
                edge_models(edges@) == before + edges_of(cm.take(k as int)),
            decreases cs@.len() - k,
        {
            proof {
                assert(cm.take(k as int + 1).drop_last() =~= cm.take(k as int));
                assert((before + edges_of(cm.take(k as int))) + cell_edges(cm[k as int])
                    =~= before + (edges_of(cm.take(k as int)) + cell_edges(cm[k as int])));
            }
            push_cell_edges(&mut edges, cs[k]);
            k += 1;
        }
        proof {
            assert(cm.take(k as int) =~= cm);
        }
        z += 1;
    }
    proof {
        assert(zt.take(z as int) =~= zt);
    }
    edges
}

} // verus!
