//! What the ARP communication graph guarantees.

use vstd::prelude::*;
use crate::net::{cidr_net, lemma_cidr_net_wf, lemma_span_divides, lemma_span_values, span};
use crate::order::{by_key, lemma_by_key_contains, text_before};
use crate::simulate::cache::lemma_order;
use crate::simulate::roles::{
    below, by_address, cell_edges, cells, edges_of, graph, graph_nodes, has_ip, insert_text, made_node,
    next_cell, node_keys, nodes_in, station, zone_edges, zone_texts, AssetNode, EdgeModel,
    NodeModel, CELL_SIZE,
};

verus! {

/// Two or more nodes split into cells that hold between two and `size` of them
/// each: no node is left without a peer.
pub proof fn law_no_orphan_cell<T>(nodes: Seq<T>, size: int)
    requires
        size >= 3,
        nodes.len() >= 2,
    ensures
        cells(nodes, size).len() > 0,
        forall|k: int|
            0 <= k < cells(nodes, size).len() ==> 2 <= (#[trigger] cells(nodes, size)[k]).len()
                <= size,
    decreases nodes.len(),
{
    let take = next_cell(nodes.len() as int, size);
    let rest = nodes.skip(take);
    let cs = cells(nodes, size);
    assert(cs == seq![nodes.take(take)] + cells(rest, size));
    if rest.len() > 0 {
        law_no_orphan_cell(rest, size);
        assert forall|k: int| 0 <= k < cs.len() implies 2 <= (#[trigger] cs[k]).len() <= size by {
            if k > 0 {
                assert(cs[k] == cells(rest, size)[k - 1]);
            }
        }
    } else {
        assert(cells(rest, size) =~= Seq::empty());
    }
}

/// Where a node ends up: its cell and its place there.
proof fn lemma_cell_of<T>(nodes: Seq<T>, size: int, i: int) -> (r: (int, int))
    requires
        size >= 3,
        0 <= i < nodes.len(),
    ensures
        0 <= r.0 < cells(nodes, size).len(),
        0 <= r.1 < cells(nodes, size)[r.0].len(),
        cells(nodes, size)[r.0][r.1] == nodes[i],
    decreases nodes.len(),
{
    let take = next_cell(nodes.len() as int, size);
    let rest = nodes.skip(take);
    let cs = cells(nodes, size);
    assert(cs == seq![nodes.take(take)] + cells(rest, size));
    if i < take {
        assert(cs[0] == nodes.take(take));
        (0, i)
    } else {
        let (k, j) = lemma_cell_of(rest, size, i - take);
        assert(cs[k + 1] == cells(rest, size)[k]);
        (k + 1, j)
    }
}

/// Which node stands at a place of a cell.
proof fn lemma_cell_index<T>(nodes: Seq<T>, size: int, k: int, j: int) -> (i: int)
    requires
        size >= 3,
        0 <= k < cells(nodes, size).len(),
        0 <= j < cells(nodes, size)[k].len(),
    ensures
        0 <= i < nodes.len(),
        cells(nodes, size)[k][j] == nodes[i],
        i == cell_start(nodes, size, k) + j,
    decreases nodes.len(),
{
    let take = next_cell(nodes.len() as int, size);
    let rest = nodes.skip(take);
    let cs = cells(nodes, size);
    assert(cs == seq![nodes.take(take)] + cells(rest, size));
    if k == 0 {
        assert(cs[0] == nodes.take(take));
        j
    } else {
        assert(cs[k] == cells(rest, size)[k - 1]);
        let i = lemma_cell_index(rest, size, k - 1, j);
        i + take
    }
}

/// How many nodes stand ahead of a cell.
pub open spec fn cell_start<T>(nodes: Seq<T>, size: int, k: int) -> int
    decreases nodes.len(),
{
    let take = next_cell(nodes.len() as int, size);
    if k <= 0 || nodes.len() == 0 || size < 2 {
        0
    } else {
        take + cell_start(nodes.skip(take), size, k - 1)
    }
}

/// Cells follow each other without overlap.
proof fn lemma_cells_apart<T>(nodes: Seq<T>, size: int, a: int, b: int)
    requires
        size >= 3,
        0 <= a < b < cells(nodes, size).len(),
    ensures
        cell_start(nodes, size, a) + cells(nodes, size)[a].len() <= cell_start(nodes, size, b),
    decreases nodes.len(),
{
    let take = next_cell(nodes.len() as int, size);
    let rest = nodes.skip(take);
    let cs = cells(nodes, size);
    assert(cs == seq![nodes.take(take)] + cells(rest, size));
    assert(cs[b] == cells(rest, size)[b - 1]);
    if a == 0 {
        assert(cs[0] == nodes.take(take));
        lemma_start_nonneg(rest, size, b - 1);
    } else {
        assert(cs[a] == cells(rest, size)[a - 1]);
        lemma_cells_apart(rest, size, a - 1, b - 1);
    }
}

proof fn lemma_start_nonneg<T>(nodes: Seq<T>, size: int, k: int)
    requires
        size >= 3,
    ensures
        cell_start(nodes, size, k) >= 0,
    decreases nodes.len(),
{
    if k > 0 && nodes.len() > 0 {
        let take = next_cell(nodes.len() as int, size);
        lemma_start_nonneg(nodes.skip(take), size, k - 1);
    }
}

proof fn lemma_edge_of_cell(cs: Seq<Seq<NodeModel>>, k: int, e: EdgeModel)
    requires
        0 <= k < cs.len(),
        cell_edges(cs[k]).contains(e),
    ensures
        edges_of(cs).contains(e),
    decreases cs.len(),
{
    let head = cs.drop_last();
    let a = edges_of(head);
    let b = cell_edges(cs.last());
    if k == cs.len() - 1 {
        let m = choose|m: int| 0 <= m < b.len() && b[m] == e;
        assert((a + b)[a.len() + m] == e);
    } else {
        assert(head[k] == cs[k]);
        lemma_edge_of_cell(head, k, e);
        let m = choose|m: int| 0 <= m < a.len() && a[m] == e;
        assert((a + b)[m] == e);
    }
}

/// Which cell an edge comes from.
proof fn lemma_cell_of_edge(cs: Seq<Seq<NodeModel>>, e: EdgeModel) -> (k: int)
    requires
        edges_of(cs).contains(e),
    ensures
        0 <= k < cs.len(),
        cell_edges(cs[k]).contains(e),
    decreases cs.len(),
{
    let head = cs.drop_last();
    let a = edges_of(head);
    let b = cell_edges(cs.last());
    let m = choose|m: int| 0 <= m < edges_of(cs).len() && edges_of(cs)[m] == e;
    if m < a.len() {
        assert(a[m] == e);
        assert(a.contains(e));
        let k = lemma_cell_of_edge(head, e);
        assert(head[k] == cs[k]);
        k
    } else {
        assert(b[m - a.len()] == e);
        cs.len() - 1
    }
}

/// In a cell of at least two, every node owns an edge.
proof fn lemma_cell_owners(cell: Seq<NodeModel>, j: int) -> (e: EdgeModel)
    requires
        cell.len() >= 2,
        0 <= j < cell.len(),
    ensures
        cell_edges(cell).contains(e),
        e.owner == cell[j],
{
    let es = cell_edges(cell);
    if j == 0 {
        assert(es[cell.len() - 1].owner == cell[0]);
        es[cell.len() - 1]
    } else {
        assert(es[j - 1].owner == cell[j]);
        es[j - 1]
    }
}

/// Among two or more nodes, each owns an edge of the graph.
pub proof fn law_every_node_owns_an_edge(nodes: Seq<NodeModel>, i: int)
    requires
        nodes.len() >= 2,
        0 <= i < nodes.len(),
    ensures
        exists|e: EdgeModel| #[trigger]
            edges_of(cells(nodes, CELL_SIZE as int)).contains(e) && e.owner == nodes[i],
{
    let cs = cells(nodes, CELL_SIZE as int);
    law_no_orphan_cell(nodes, CELL_SIZE as int);
    let (k, j) = lemma_cell_of(nodes, CELL_SIZE as int, i);
    let e = lemma_cell_owners(cs[k], j);
    lemma_edge_of_cell(cs, k, e);
}

proof fn lemma_insert_text(list: Seq<Seq<char>>, t: Seq<char>, y: Seq<char>)
    requires
        y == t || list.contains(y),
    ensures
        insert_text(list, t).contains(y),
    decreases list.len(),
{
    let n = insert_text(list, t);
    if list.len() == 0 || crate::order::text_before(list.last(), t) {
        if y == t {
            assert(n[list.len() as int] == y);
        } else {
            let k = choose|k: int| 0 <= k < list.len() && list[k] == y;
            assert(n[k] == y);
        }
    } else if list.last() == t {
        assert(list[list.len() - 1] == t);
    } else {
        let head = list.drop_last();
        let q = insert_text(head, t);
        if y == t {
            lemma_insert_text(head, t, y);
            let m = choose|m: int| 0 <= m < q.len() && q[m] == y;
            assert(n[m] == y);
        } else {
            let k = choose|k: int| 0 <= k < list.len() && list[k] == y;
            if k < head.len() {
                assert(head[k] == y);
                lemma_insert_text(head, t, y);
                let m = choose|m: int| 0 <= m < q.len() && q[m] == y;
                assert(n[m] == y);
            } else {
                assert(n[q.len() as int] == y);
            }
        }
    }
}

proof fn lemma_zone_listed(a: Seq<AssetNode>, i: int)
    requires
        0 <= i < a.len(),
    ensures
        zone_texts(a).contains(a[i].cidr),
    decreases a.len(),
{
    if i < a.len() - 1 {
        assert(a.drop_last()[i] == a[i]);
        lemma_zone_listed(a.drop_last(), i);
    }
    lemma_insert_text(zone_texts(a.drop_last()), a.last().cidr, a[i].cidr);
}

proof fn lemma_node_in_zone(a: Seq<AssetNode>, i: int)
    requires
        0 <= i < a.len(),
    ensures
        nodes_in(a, a[i].cidr).contains(a[i].node),
    decreases a.len(),
{
    let n = nodes_in(a, a[i].cidr);
    if i < a.len() - 1 {
        let head = a.drop_last();
        assert(head[i] == a[i]);
        lemma_node_in_zone(head, i);
        let r = nodes_in(head, a[i].cidr);
        let k = choose|k: int| 0 <= k < r.len() && r[k] == a[i].node;
        assert(n[k] == a[i].node);
    } else {
        assert(n[n.len() - 1] == a[i].node);
    }
}

proof fn lemma_by_address(nodes: Seq<NodeModel>, x: NodeModel)
    requires
        nodes.contains(x),
        nodes.len() <= usize::MAX,
    ensures
        by_address(nodes).contains(x),
{
    let i = choose|i: int| 0 <= i < nodes.len() && nodes[i] == x;
    let order = crate::order::by_key(node_keys(nodes));
    lemma_by_key_contains(node_keys(nodes), i as usize);
    let k = choose|k: int| 0 <= k < order.len() && order[k] == i as usize;
    assert(by_address(nodes)[k] == x);
}

proof fn lemma_edge_of_zone(
    seed: u64,
    zones: Seq<Seq<char>>,
    a: Seq<AssetNode>,
    z: int,
    e: EdgeModel,
)
    requires
        0 <= z < zones.len(),
        zone_edges(seed, zones[z], a).contains(e),
    ensures
        graph(seed, zones, a).contains(e),
    decreases zones.len(),
{
    let head = zones.drop_last();
    let x = graph(seed, head, a);
    let y = zone_edges(seed, zones.last(), a);
    if z == zones.len() - 1 {
        let m = choose|m: int| 0 <= m < y.len() && y[m] == e;
        assert((x + y)[x.len() + m] == e);
    } else {
        assert(head[z] == zones[z]);
        lemma_edge_of_zone(seed, head, a, z, e);
        let m = choose|m: int| 0 <= m < x.len() && x[m] == e;
        assert((x + y)[m] == e);
    }
}

/// Every asset is the owner of an edge of the graph, with its own address and
/// MAC, whether or not its zone is listed. Left out is a zone whose station
/// address is 0.0.0.0.
pub proof fn law_every_asset_binds(seed: u64, a: Seq<AssetNode>, i: int)
    requires
        0 <= i < a.len(),
        a.len() <= usize::MAX,
        station(a[i].cidr) != 0,
    ensures
        exists|e: EdgeModel| #[trigger]
            graph(seed, zone_texts(a), a).contains(e) && e.owner == a[i].node,
{
    let cidr = a[i].cidr;
    let zones = zone_texts(a);
    lemma_zone_listed(a, i);
    let z = choose|z: int| 0 <= z < zones.len() && zones[z] == cidr;
    lemma_node_in_zone(a, i);
    lemma_nodes_in_len(a, cidr);
    let found = nodes_in(a, cidr);
    lemma_by_address(found, a[i].node);
    let reals = by_address(found);
    let k = choose|k: int| 0 <= k < reals.len() && reals[k] == a[i].node;
    let nodes = graph_nodes(seed, cidr, reals);
    lemma_graph_nodes(seed, cidr, reals, k);
    let j = choose|j: int| 0 <= j < nodes.len() && nodes[j] == reals[k];
    law_every_node_owns_an_edge(nodes, j);
    let e = choose|e: EdgeModel| #[trigger]
        edges_of(cells(nodes, CELL_SIZE as int)).contains(e) && e.owner == nodes[j];
    assert(zone_edges(seed, cidr, a).contains(e));
    lemma_edge_of_zone(seed, zones, a, z, e);
}

proof fn lemma_nodes_in_len(a: Seq<AssetNode>, cidr: Seq<char>)
    ensures
        nodes_in(a, cidr).len() <= a.len(),
    decreases a.len(),
{
    if a.len() > 0 {
        lemma_nodes_in_len(a.drop_last(), cidr);
    }
}

/// A zone's graph holds its assets and at least two nodes.
proof fn lemma_graph_nodes(seed: u64, cidr: Seq<char>, reals: Seq<NodeModel>, k: int)
    requires
        0 <= k < reals.len(),
        station(cidr) != 0,
    ensures
        graph_nodes(seed, cidr, reals).contains(reals[k]),
        graph_nodes(seed, cidr, reals).len() >= 2,
{
    let st = station(cidr);
    let nodes = if has_ip(reals, st) {
        reals
    } else {
        seq![made_node(seed, st)] + reals
    };
    if has_ip(reals, st) {
        assert(nodes[k] == reals[k]);
    } else {
        assert(nodes[k + 1] == reals[k]);
    }
    let g = graph_nodes(seed, cidr, reals);
    if nodes.len() == 1 {
        assert(has_ip(reals, st));
        assert(nodes[0].ip == st) by {
            let m = choose|m: int| 0 <= m < reals.len() && (#[trigger] reals[m]).ip == st;
        }
        assert(g[1] == nodes[0]);
    } else {
        let m = choose|m: int| 0 <= m < nodes.len() && nodes[m] == reals[k];
        assert(g[m] == reals[k]);
    }
}

/// The addresses that a requester asks for.
pub open spec fn asked_by(es: Seq<EdgeModel>, requester: u32) -> Set<u32> {
    Set::new(
        |o: u32|
            exists|e: EdgeModel| #[trigger]
                es.contains(e) && e.requester.ip == requester && e.owner.ip == o,
    )
}

/// The addresses of a cell but one.
pub open spec fn peers(cell: Seq<NodeModel>, of: u32) -> Set<u32> {
    cell.map_values(|n: NodeModel| n.ip).to_set().remove(of)
}

/// With distinct addresses, no requester of a zone asks for as many as
/// `CELL_SIZE` distinct owners: nobody sweeps the subnet.
pub proof fn law_no_requester_scans(nodes: Seq<NodeModel>, requester: u32)
    requires
        forall|i: int, j: int|
            0 <= i < j < nodes.len() ==> (#[trigger] nodes[i]).ip != (#[trigger] nodes[j]).ip,
    ensures
        asked_by(edges_of(cells(nodes, CELL_SIZE as int)), requester).finite(),
        asked_by(edges_of(cells(nodes, CELL_SIZE as int)), requester).len() < CELL_SIZE,
{
    let size = CELL_SIZE as int;
    let cs = cells(nodes, size);
    let es = edges_of(cs);
    let asked = asked_by(es, requester);
    if exists|e: EdgeModel| #[trigger] es.contains(e) && e.requester.ip == requester {
        let e0 = choose|e: EdgeModel| #[trigger] es.contains(e) && e.requester.ip == requester;
        let k0 = lemma_cell_of_edge(cs, e0);
        let cell = cs[k0];
        let (j0, m0) = lemma_edge_places(cell, e0);
        let i0 = lemma_cell_index(nodes, size, k0, j0);
        let ips = cell.map_values(|n: NodeModel| n.ip);
        assert forall|o: u32| asked.contains(o) implies peers(cell, requester).contains(o) by {
            let e = choose|e: EdgeModel| #[trigger]
                es.contains(e) && e.requester.ip == requester && e.owner.ip == o;
            let k = lemma_cell_of_edge(cs, e);
            let (j, m) = lemma_edge_places(cs[k], e);
            let i = lemma_cell_index(nodes, size, k, j);
            if i < i0 {
                assert(nodes[i].ip != nodes[i0].ip);
            } else if i0 < i {
                assert(nodes[i0].ip != nodes[i].ip);
            }
            if k < k0 {
                lemma_cells_apart(nodes, size, k, k0);
            } else if k0 < k {
                lemma_cells_apart(nodes, size, k0, k);
            }
            assert(k == k0);
            let im = lemma_cell_index(nodes, size, k0, m);
            assert(ips[m] == o);
            if im < i {
                assert(nodes[im].ip != nodes[i].ip);
            } else if i < im {
                assert(nodes[i].ip != nodes[im].ip);
            }
        }
        ips.lemma_cardinality_of_set();
        assert(ips[j0] == requester);
        assert(ips.to_set().contains(requester));
        vstd::set_lib::lemma_len_subset(asked, peers(cell, requester));
        lemma_cell_size(nodes, size, k0);
    } else {
        assert(asked =~= Set::empty());
    }
}

proof fn lemma_cell_size<T>(nodes: Seq<T>, size: int, k: int)
    requires
        size >= 3,
        0 <= k < cells(nodes, size).len(),
    ensures
        cells(nodes, size)[k].len() <= size,
    decreases nodes.len(),
{
    let take = next_cell(nodes.len() as int, size);
    let rest = nodes.skip(take);
    let cs = cells(nodes, size);
    assert(cs == seq![nodes.take(take)] + cells(rest, size));
    if k > 0 {
        assert(cs[k] == cells(rest, size)[k - 1]);
        lemma_cell_size(rest, size, k - 1);
    }
}

/// The places of an edge's two ends in its cell.
proof fn lemma_edge_places(cell: Seq<NodeModel>, e: EdgeModel) -> (r: (int, int))
    requires
        cell_edges(cell).contains(e),
    ensures
        0 <= r.0 < cell.len(),
        0 <= r.1 < cell.len(),
        r.0 != r.1,
        cell[r.0] == e.requester,
        cell[r.1] == e.owner,
{
    let es = cell_edges(cell);
    let m = choose|m: int| 0 <= m < es.len() && es[m] == e;
    if m < cell.len() - 1 {
        assert(es[m] == (EdgeModel { requester: cell[0], owner: cell[m + 1] }));
        (0, m + 1)
    } else {
        (1, 0)
    }
}

/// Assets of distinct addresses, each in its own zone, in zones that share no address
/// and have room for a station and a peer.
pub open spec fn zoned_apart(a: Seq<AssetNode>) -> bool {
    &&& forall|i: int, j: int|
        0 <= i < j < a.len() ==> (#[trigger] a[i]).node.ip != (#[trigger] a[j]).node.ip
    &&& forall|i: int|
        0 <= i < a.len() ==> in_zone((#[trigger] a[i]).cidr, a[i].node.ip) && cidr_net(
            a[i].cidr,
        )->0.prefix <= 30
    &&& forall|i: int, j: int, ip: u32|
        0 <= i < a.len() && 0 <= j < a.len() && a[i].cidr != a[j].cidr && #[trigger] in_zone(
            a[i].cidr,
            ip,
        ) ==> !#[trigger] in_zone(a[j].cidr, ip)
}

/// The address is one of a network text.
pub open spec fn in_zone(cidr: Seq<char>, ip: u32) -> bool {
    cidr_net(cidr) is Some && cidr_net(cidr)->0.has(ip as int)
}

/// The nodes of a zone are its assets', each once.
proof fn lemma_nodes_in(a: Seq<AssetNode>, cidr: Seq<char>)
    requires
        forall|i: int, j: int|
            0 <= i < j < a.len() ==> (#[trigger] a[i]).node.ip != (#[trigger] a[j]).node.ip,
    ensures
        forall|k: int|
            0 <= k < nodes_in(a, cidr).len() ==> asset_in(
                a,
                cidr,
                #[trigger] nodes_in(a, cidr)[k],
            ),
        apart(nodes_in(a, cidr)),
        nodes_in(a, cidr).len() <= a.len(),
    decreases a.len(),
{
    if a.len() > 0 {
        let head = a.drop_last();
        assert forall|i: int, j: int| 0 <= i < j < head.len() implies (
        #[trigger] head[i]).node.ip != (#[trigger] head[j]).node.ip by {
            assert(a[i].node.ip != a[j].node.ip);
        }
        lemma_nodes_in(head, cidr);
        let n = nodes_in(a, cidr);
        let r = nodes_in(head, cidr);
        assert forall|k: int| 0 <= k < n.len() implies asset_in(a, cidr, #[trigger] n[k]) by {
            if k < r.len() {
                assert(n[k] == r[k]);
                let m = choose|m: int|
                    0 <= m < head.len() && (#[trigger] head[m]).cidr == cidr && head[m].node
                        == r[k];
                assert(a[m].cidr == cidr);
            } else {
                assert(a[a.len() - 1].cidr == cidr);
            }
        }
        assert forall|k: int, m: int| 0 <= k < m < n.len() implies (#[trigger] n[k]).ip != (
        #[trigger] n[m]).ip by {
            if m < r.len() {
                assert(n[k] == r[k] && n[m] == r[m]);
            } else {
                assert(asset_in(head, cidr, r[k]));
                let x = choose|x: int|
                    0 <= x < head.len() && (#[trigger] head[x]).cidr == cidr && head[x].node
                        == r[k];
                assert(a[x].node.ip != a[a.len() - 1].node.ip);
            }
        }
    }
}

/// A node is that of an asset of the zone.
pub open spec fn asset_in(a: Seq<AssetNode>, cidr: Seq<char>, n: NodeModel) -> bool {
    exists|i: int| 0 <= i < a.len() && (#[trigger] a[i]).cidr == cidr && a[i].node == n
}

/// No two nodes share an address.
pub open spec fn apart(nodes: Seq<NodeModel>) -> bool {
    forall|i: int, j: int|
        0 <= i < j < nodes.len() ==> (#[trigger] nodes[i]).ip != (#[trigger] nodes[j]).ip
}

/// Ordering nodes keeps them, and keeps them apart.
proof fn lemma_ordered_apart(nodes: Seq<NodeModel>)
    requires
        apart(nodes),
        nodes.len() <= usize::MAX,
    ensures
        apart(by_address(nodes)),
        forall|k: int|
            0 <= k < by_address(nodes).len() ==> nodes.contains(#[trigger] by_address(nodes)[k]),
{
    let keys = node_keys(nodes);
    let order = by_key(keys);
    let r = by_address(nodes);
    lemma_order(keys);
    assert forall|k: int| 0 <= k < order.len() implies (#[trigger] order[k]) < nodes.len() by {
        assert(order.contains(order[k]));
        lemma_by_key_contains(keys, order[k]);
    }
    assert forall|k: int| 0 <= k < r.len() implies nodes.contains(#[trigger] r[k]) by {
        assert(order[k] < nodes.len());
        assert(nodes[order[k] as int] == r[k]);
    }
    assert forall|i: int, j: int| 0 <= i < j < r.len() implies (#[trigger] r[i]).ip != (
    #[trigger] r[j]).ip by {
        assert(order[i] != order[j]);
        assert(order[i] < nodes.len() && order[j] < nodes.len());
        if order[i] < order[j] {
            assert(nodes[order[i] as int].ip != nodes[order[j] as int].ip);
        } else {
            assert(nodes[order[j] as int].ip != nodes[order[i] as int].ip);
        }
    }
}

/// The nodes of a zone's graph are apart and in the zone.
proof fn lemma_zone_nodes(seed: u64, a: Seq<AssetNode>, i: int)
    requires
        zoned_apart(a),
        0 <= i < a.len(),
        a.len() <= usize::MAX,
    ensures
        ({
            let cidr = a[i].cidr;
            let nodes = graph_nodes(seed, cidr, by_address(nodes_in(a, cidr)));
            &&& apart(nodes)
            &&& forall|k: int| 0 <= k < nodes.len() ==> in_zone(cidr, (#[trigger] nodes[k]).ip)
        }),
{
    let cidr = a[i].cidr;
    let found = nodes_in(a, cidr);
    let reals = by_address(found);
    let nodes = graph_nodes(seed, cidr, reals);
    let net = cidr_net(cidr)->0;
    lemma_nodes_in(a, cidr);
    lemma_ordered_apart(found);
    lemma_cidr_net_wf(cidr);
    net.lemma_bounds();
    lemma_span_values();
    lemma_span_at_least_four(net.prefix as int);
    assert(in_zone(a[i].cidr, a[i].node.ip));
    let st = station(cidr);
    assert(in_zone(cidr, st) && in_zone(cidr, below(st)) && below(st) != st);
    assert forall|k: int| 0 <= k < reals.len() implies in_zone(cidr, (#[trigger] reals[k]).ip) by {
        assert(found.contains(reals[k]));
        let m = choose|m: int| 0 <= m < found.len() && found[m] == reals[k];
        assert(asset_in(a, cidr, found[m]));
        let x = choose|x: int|
            0 <= x < a.len() && (#[trigger] a[x]).cidr == cidr && a[x].node == found[m];
        assert(in_zone(a[x].cidr, a[x].node.ip));
    }
    let mid = if has_ip(reals, st) {
        reals
    } else {
        seq![made_node(seed, st)] + reals
    };
    assert forall|k: int| 0 <= k < mid.len() implies in_zone(cidr, (#[trigger] mid[k]).ip) by {
        if !has_ip(reals, st) && k > 0 {
            assert(mid[k] == reals[k - 1]);
        }
    }
    assert forall|k: int, m: int| 0 <= k < m < mid.len() implies (#[trigger] mid[k]).ip != (
    #[trigger] mid[m]).ip by {
        if !has_ip(reals, st) {
            assert(mid[m] == reals[m - 1]);
            if k > 0 {
                assert(mid[k] == reals[k - 1]);
            }
        }
    }
    if nodes.len() > mid.len() {
        assert forall|k: int| 0 <= k < nodes.len() implies in_zone(cidr, (#[trigger] nodes[k]).ip) by {
            if k > 0 {
                assert(nodes[k] == mid[k - 1]);
            }
        }
    }
}

proof fn lemma_span_at_least_four(p: int)
    requires
        0 <= p <= 30,
    ensures
        span(p) >= 4,
    decreases 30 - p,
{
    if p < 30 {
        lemma_span_at_least_four(p + 1);
    }
    lemma_span_values();
    lemma_span_divides(p, 30);
}

/// Each edge of the graph is one of a zone.
proof fn lemma_zone_of_edge(
    seed: u64,
    zones: Seq<Seq<char>>,
    a: Seq<AssetNode>,
    e: EdgeModel,
) -> (z: int)
    requires
        graph(seed, zones, a).contains(e),
    ensures
        0 <= z < zones.len(),
        zone_edges(seed, zones[z], a).contains(e),
    decreases zones.len(),
{
    let head = zones.drop_last();
    let x = graph(seed, head, a);
    let y = zone_edges(seed, zones.last(), a);
    let m = choose|m: int| 0 <= m < (x + y).len() && (x + y)[m] == e;
    if m < x.len() {
        assert(x[m] == e);
        let z = lemma_zone_of_edge(seed, head, a, e);
        assert(head[z] == zones[z]);
        z
    } else {
        assert(y[m - x.len()] == e);
        zones.len() - 1
    }
}

/// Every zone that is listed is an asset's.
proof fn lemma_listed_zone(a: Seq<AssetNode>, z: int) -> (i: int)
    requires
        0 <= z < zone_texts(a).len(),
    ensures
        0 <= i < a.len(),
        a[i].cidr == zone_texts(a)[z],
    decreases a.len(),
{
    let head = a.drop_last();
    let t = zone_texts(a)[z];
    lemma_inserted(zone_texts(head), a.last().cidr, z);
    if zone_texts(head).contains(t) {
        let k = choose|k: int| 0 <= k < zone_texts(head).len() && zone_texts(head)[k] == t;
        let i = lemma_listed_zone(head, k);
        assert(head[i] == a[i]);
        i
    } else {
        a.len() - 1
    }
}

proof fn lemma_inserted(list: Seq<Seq<char>>, t: Seq<char>, z: int)
    requires
        0 <= z < insert_text(list, t).len(),
    ensures
        insert_text(list, t)[z] == t || list.contains(insert_text(list, t)[z]),
    decreases list.len(),
{
    let n = insert_text(list, t);
    if list.len() == 0 || text_before(list.last(), t) {
        if z < list.len() {
            assert(list[z] == n[z]);
        }
    } else if list.last() == t {
        assert(list[z] == n[z]);
    } else {
        let head = list.drop_last();
        if z < n.len() - 1 {
            assert(insert_text(head, t)[z] == n[z]);
            lemma_inserted(head, t, z);
            if head.contains(n[z]) {
                let k = choose|k: int| 0 <= k < head.len() && head[k] == n[z];
                assert(list[k] == n[z]);
            }
        } else {
            assert(list[list.len() - 1] == n[z]);
        }
    }
}

/// The requester of an edge of a zone is a node of the zone.
proof fn lemma_requester_in_zone(seed: u64, a: Seq<AssetNode>, i: int, e: EdgeModel)
    requires
        zoned_apart(a),
        0 <= i < a.len(),
        a.len() <= usize::MAX,
        zone_edges(seed, a[i].cidr, a).contains(e),
    ensures
        in_zone(a[i].cidr, e.requester.ip),
{
    let cidr = a[i].cidr;
    let nodes = graph_nodes(seed, cidr, by_address(nodes_in(a, cidr)));
    let cs = cells(nodes, CELL_SIZE as int);
    lemma_zone_nodes(seed, a, i);
    let k = lemma_cell_of_edge(cs, e);
    let (j, m) = lemma_edge_places(cs[k], e);
    let n = lemma_cell_index(nodes, CELL_SIZE as int, k, j);
    assert(in_zone(cidr, nodes[n].ip));
}

/// Nobody scans: over the whole plant, with its assets apart and in disjoint zones,
/// no requester asks for as many as `CELL_SIZE` distinct owners.
pub proof fn law_nobody_scans_the_plant(seed: u64, a: Seq<AssetNode>, requester: u32)
    requires
        zoned_apart(a),
        a.len() <= usize::MAX,
    ensures
        asked_by(graph(seed, zone_texts(a), a), requester).finite(),
        asked_by(graph(seed, zone_texts(a), a), requester).len() < CELL_SIZE,
{
    let zones = zone_texts(a);
    let es = graph(seed, zones, a);
    let asked = asked_by(es, requester);
    if exists|e: EdgeModel| #[trigger] es.contains(e) && e.requester.ip == requester {
        let e0 = choose|e: EdgeModel| #[trigger] es.contains(e) && e.requester.ip == requester;
        let z0 = lemma_zone_of_edge(seed, zones, a, e0);
        let i0 = lemma_listed_zone(a, z0);
        let cidr = a[i0].cidr;
        lemma_requester_in_zone(seed, a, i0, e0);
        let nodes = graph_nodes(seed, cidr, by_address(nodes_in(a, cidr)));
        let mine = edges_of(cells(nodes, CELL_SIZE as int));
        assert(mine == zone_edges(seed, cidr, a));
        assert forall|o: u32| asked.contains(o) implies asked_by(mine, requester).contains(o) by {
            let e = choose|e: EdgeModel| #[trigger]
                es.contains(e) && e.requester.ip == requester && e.owner.ip == o;
            let z = lemma_zone_of_edge(seed, zones, a, e);
            let i = lemma_listed_zone(a, z);
            lemma_requester_in_zone(seed, a, i, e);
            assert(a[i].cidr == cidr);
            assert(mine.contains(e));
        }
        lemma_zone_nodes(seed, a, i0);
        law_no_requester_scans(nodes, requester);
        vstd::set_lib::lemma_len_subset(asked, asked_by(mine, requester));
    } else {
        assert(asked =~= Set::empty());
    }
}

} // verus!
