//! Topology-preserving L3 remap.
//!
//! Moves every host to a fresh random RFC1918 subnet while preserving the
//! conversation graph and intra-subnet structure: hosts that shared a subnet
//! stay together, host offsets are kept, and the same original address always
//! maps to the same new address. The sensor sees genuine-looking conversations
//! that simply moved to new addresses, not a scramble.
//!
//! IPv4 only. Multicast, broadcast, loopback, and 0.0.0.0 are left untouched.

use std::collections::{HashMap, HashSet};
use vstd::prelude::*;
use crate::bytes::{be16, be32, overwrite, read_be16, read_be32, write_bytes};
use crate::net::{
    cidr_net, lemma_span_bound, lemma_span_divides, lemma_span_values, net_text, network_of, octet,
    parse_net, span, span_of, Ipv4Net,
};
use crate::pcapio::{frames, Capture, OwnedPacket, PacketModel};
use crate::rng::{range_step, rng_from_seed, rng_range, rng_words, seeded_words};
use crate::proto::frame::{layout_of, parse_layout, with_checksums, FrameLayout, L3Kind, ParsedFrame};

verus! {

/// Unicast, non-loopback, non-reserved: the addresses that are relocated.
pub open spec fn remappable(ip: u32) -> bool {
    let o0 = octet(ip as int, 0);
    o0 != 0 && o0 != 127 && o0 < 224
}

/// A routable unicast address: not private, loopback or link-local.
pub open spec fn public_unicast(ip: u32) -> bool {
    let o0 = octet(ip as int, 0);
    let o1 = octet(ip as int, 1);
    &&& remappable(ip)
    &&& o0 != 10
    &&& !(o0 == 172 && 16 <= o1 <= 31)
    &&& !(o0 == 192 && o1 == 168)
    &&& !(o0 == 169 && o1 == 254)
}

/// Unicast, non-loopback, non-reserved: the addresses we relocate.
pub fn is_remappable(addr: u32) -> (r: bool)
    ensures
        r == remappable(addr),
{
    let o0: u32 = addr / 0x100_0000;
    o0 != 0 && o0 != 127 && o0 < 224
}

/// Public unicast IPv4: a routable address that must never reach the wire
/// un-remapped. The shared definition for the remap output guard and the
/// run-loop leak backstop.
pub fn is_public_unicast(a: u32) -> (r: bool)
    ensures
        r == public_unicast(a),
{
    let o0: u32 = a / 0x100_0000;
    let o1: u32 = a / 0x1_0000 % 256;
    is_remappable(a) && o0 != 10 && !(o0 == 172 && 16 <= o1 && o1 <= 31) && !(o0 == 192 && o1
        == 168) && !(o0 == 169 && o1 == 254)
}

/// An IPv4-over-Ethernet ARP message stands at `l3`: hardware type 1, protocol
/// 0x0800, six-byte hardware and four-byte protocol addresses.
pub open spec fn arp_ipv4(b: Seq<u8>, l3: int) -> bool {
    &&& l3 >= 2
    &&& b.len() >= l3 + 28
    &&& be16(b, l3 - 2) == 0x0806
    &&& be16(b, l3) == 1
    &&& be16(b, l3 + 2) == 0x0800
    &&& b[l3 + 4] == 6
    &&& b[l3 + 5] == 4
}

/// True if `buf` is an IPv4-over-Ethernet ARP frame, the only ARP shape carrying
/// IPv4 addresses we remap.
pub fn is_arp_ipv4(buf: &[u8], l3: usize) -> (r: bool)
    ensures
        r == arp_ipv4(buf@, l3 as int),
        r ==> l3 + 28 <= usize::MAX,
{
    l3 >= 2 && buf.len() >= 28 && l3 <= buf.len() - 28 && read_be16(buf, l3 - 2) == 0x0806
        && read_be16(buf, l3) == 1 && read_be16(buf, l3 + 2) == 0x0800 && buf[l3 + 4] == 6
        && buf[l3 + 5] == 4
}

/// splitmix64 finalizer (the published mixing constants).
pub open spec fn mix64(x: u64) -> u64 {
    let a = (x ^ (x >> 30)).wrapping_mul(0xBF58_476D_1CE4_E5B9);
    let b = (a ^ (a >> 27)).wrapping_mul(0x94D0_49BB_1331_11EB);
    b ^ (b >> 31)
}

/// splitmix64 finalizer (the published mixing constants). Used for stable
/// per-host MACs and zone tiebreaks.
pub fn splitmix64(x: u64) -> (r: u64)
    ensures
        r == mix64(x),
{
    let a: u64 = (x ^ (x >> 30)).wrapping_mul(0xBF58_476D_1CE4_E5B9);
    let b: u64 = (a ^ (a >> 27)).wrapping_mul(0x94D0_49BB_1331_11EB);
    b ^ (b >> 31)
}

/// The stable MAC of a host: the high six bytes of a hash of the seed and the
/// address, the first made locally administered and unicast.
pub open spec fn host_mac(seed: u64, ip: u32) -> Seq<u8> {
    let h = mix64(seed ^ (ip as u64).wrapping_mul(0x9E37_79B9_7F4A_7C15));
    seq![
        (((h >> 56) as u8) & 0xFC) | 0x02,
        (h >> 48) as u8,
        (h >> 40) as u8,
        (h >> 32) as u8,
        (h >> 24) as u8,
        (h >> 16) as u8,
    ]
}

/// A stable, locally-administered unicast MAC for a remapped host, derived from
/// the session seed and the host's new IP. Deterministic per (seed, ip) so a
/// host keeps one MAC every run. Not vendor-matched: octet 0 is forced
/// locally-administered (bit 1 set) and unicast (bit 0 clear), so it never
/// collides with a real vendor OUI.
pub fn stable_mac(seed: u64, ip: u32) -> (r: [u8; 6])
    ensures
        r@ == host_mac(seed, ip),
        r[0] & 0x01 == 0,
        r[0] & 0x02 == 0x02,
{
    let h: u64 = splitmix64(seed ^ (ip as u64).wrapping_mul(0x9E37_79B9_7F4A_7C15));
    let b0: u8 = (h >> 56) as u8;
    let r: [u8; 6] = [
        (b0 & 0xFC) | 0x02,
        (h >> 48) as u8,
        (h >> 40) as u8,
        (h >> 32) as u8,
        (h >> 24) as u8,
        (h >> 16) as u8,
    ];
    proof {
        assert(((b0 & 0xFC) | 0x02) & 0x01 == 0) by (bit_vector);
        assert(((b0 & 0xFC) | 0x02) & 0x02 == 0x02) by (bit_vector);
        assert(r@ =~= host_mac(seed, ip));
    }
    r
}

/// A host MAC is locally administered and unicast.
pub proof fn law_host_mac_is_local_unicast(seed: u64, ip: u32)
    ensures
        host_mac(seed, ip).len() == 6,
        host_mac(seed, ip)[0] & 0x01 == 0,
        host_mac(seed, ip)[0] & 0x02 == 0x02,
{
    let h = mix64(seed ^ (ip as u64).wrapping_mul(0x9E37_79B9_7F4A_7C15));
    let b0 = (h >> 56) as u8;
    assert(((b0 & 0xFC) | 0x02) & 0x01 == 0) by (bit_vector);
    assert(((b0 & 0xFC) | 0x02) & 0x02 == 0x02) by (bit_vector);
}

/// The four bytes of an address in network order.
pub open spec fn ip_bytes(ip: u32) -> Seq<u8> {
    seq![
        octet(ip as int, 0) as u8,
        octet(ip as int, 1) as u8,
        octet(ip as int, 2) as u8,
        octet(ip as int, 3) as u8,
    ]
}

pub fn octets(ip: u32) -> (r: [u8; 4])
    ensures
        r@ == ip_bytes(ip),
{
    let r: [u8; 4] = [
        (ip / 0x100_0000 % 256) as u8,
        (ip / 0x1_0000 % 256) as u8,
        (ip / 0x100 % 256) as u8,
        (ip % 256) as u8,
    ];
    proof {
        assert(r@ =~= ip_bytes(ip));
    }
    r
}

/// Where addresses and MACs go: the new address of each relocated one, the MACs
/// that override a host's stable one, the seed of the stable ones, and whether
/// MACs are rewritten at all.
pub struct HostMap {
    pub addrs: Map<u32, u32>,
    pub macs: Map<u32, [u8; 6]>,
    pub seed: u64,
    pub remap_mac: bool,
}

impl HostMap {
    /// The MAC that goes with a new address.
    pub open spec fn mac(self, ip: u32) -> Seq<u8> {
        if self.macs.contains_key(ip) {
            self.macs[ip]@
        } else {
            host_mac(self.seed, ip)
        }
    }

    /// The bytes with the address at `at` relocated.
    pub open spec fn move_addr(self, b: Seq<u8>, at: int) -> Seq<u8> {
        let old_ip = be32(b, at) as u32;
        if self.addrs.contains_key(old_ip) {
            overwrite(b, at, ip_bytes(self.addrs[old_ip]))
        } else {
            b
        }
    }

    /// The address at `at` is relocated.
    pub open spec fn moves(self, b: Seq<u8>, at: int) -> bool {
        self.addrs.contains_key(be32(b, at) as u32)
    }

    pub open spec fn new_addr(self, b: Seq<u8>, at: int) -> u32 {
        self.addrs[be32(b, at) as u32]
    }

    /// An IPv4 frame with both addresses relocated, its checksums filled in if
    /// one was, and the MACs rewritten to match. A destination MAC with the group
    /// bit set stays.
    pub open spec fn ipv4_frame(self, b: Seq<u8>, l: FrameLayout) -> Seq<u8> {
        let src = l.l3 + 12;
        let dst = l.l3 + 16;
        let moved = self.move_addr(self.move_addr(b, src), dst);
        let summed = if self.moves(b, src) || self.moves(b, dst) {
            with_checksums(moved, l)
        } else {
            moved
        };
        let sent = if self.remap_mac && self.moves(b, src) {
            overwrite(summed, 6, self.mac(self.new_addr(b, src)))
        } else {
            summed
        };
        if self.remap_mac && self.moves(b, dst) && b[0] % 2 == 0 {
            overwrite(sent, 0, self.mac(self.new_addr(b, dst)))
        } else {
            sent
        }
    }

    /// An ARP message with its protocol addresses relocated. With MACs rewritten,
    /// the sender's hardware address and the Ethernet source follow the sender;
    /// a target hardware address that is neither zero nor broadcast, and the
    /// Ethernet destination with it, follow the target.
    pub open spec fn arp_frame(self, b: Seq<u8>, l3: int) -> Seq<u8> {
        let moved = self.move_addr(b, l3 + 14);
        let sent = if self.remap_mac && self.moves(b, l3 + 14) {
            let mac = self.mac(self.new_addr(b, l3 + 14));
            overwrite(overwrite(moved, l3 + 8, mac), 6, mac)
        } else {
            moved
        };
        let both = self.move_addr(sent, l3 + 24);
        let tha = b.subrange(l3 + 18, l3 + 24);
        if self.remap_mac && self.moves(b, l3 + 24) && !all_are(tha, 0) && !all_are(tha, 0xff) {
            let mac = self.mac(self.new_addr(b, l3 + 24));
            overwrite(overwrite(both, l3 + 18, mac), 0, mac)
        } else {
            both
        }
    }

    /// A frame with its addresses and MACs relocated. Frames that are neither
    /// IPv4 nor IPv4 ARP, or that cannot be parsed, stay as they are.
    pub open spec fn frame(self, b: Seq<u8>) -> Seq<u8> {
        match layout_of(b) {
            None => b,
            Some(l) => if l.l3_kind == L3Kind::Ipv4 {
                self.ipv4_frame(b, l)
            } else if arp_ipv4(b, l.l3 as int) {
                self.arp_frame(b, l.l3 as int)
            } else {
                b
            },
        }
    }
}

/// Every byte of a run has the value.
pub open spec fn all_are(s: Seq<u8>, v: u8) -> bool {
    forall|i: int| 0 <= i < s.len() ==> s[i] == v
}

/// The MAC for a remapped new IP: an explicit override (a fabricated device's
/// real vendor MAC, for a host riding it) if present, else the host's stable
/// per-host MAC.
fn mac_for(mac_map: &HashMap<u32, [u8; 6]>, seed: u64, new_ip: u32) -> (r: [u8; 6])
    ensures
        r@ == (if mac_map@.contains_key(new_ip) {
            mac_map@[new_ip]@
        } else {
            host_mac(seed, new_ip)
        }),
{
    match mac_map.get(&new_ip) {
        Some(m) => *m,
        None => stable_mac(seed, new_ip),
    }
}

fn all_bytes_are(buf: &[u8], from: usize, n: usize, v: u8) -> (r: bool)
    requires
        from + n <= buf.len(),
    ensures
        r == all_are(buf@.subrange(from as int, from + n), v),
{
    let mut i: usize = 0;
    while i < n
        invariant
            i <= n,
            from + n <= buf.len(),
            forall|k: int| from <= k < from + i ==> buf@[k] == v,
        decreases n - i,
    {
        if buf[from + i] != v {
            proof {
                assert(buf@.subrange(from as int, from + n)[i as int] != v);
            }
            return false;
        }
        i += 1;
    }
    true
}

/// Rewrite an ARP frame's sender/target protocol (IPv4) addresses through the
/// host map. When `remap_mac`, also rewrite the sender hardware address (and the
/// Ethernet source) to the sender's MAC, and the target hardware address
/// (and Ethernet destination) of a reply, so L2 and L3 agree. A no-op for
/// non-IPv4-over-Ethernet ARP.
fn remap_arp_addrs(
    buf: &mut [u8],
    l3: usize,
    map: &HashMap<u32, u32>,
    mac_map: &HashMap<u32, [u8; 6]>,
    seed: u64,
    remap_mac: bool,
)
    requires
        14 <= l3,
    ensures
        final(buf)@ == (if arp_ipv4(old(buf)@, l3 as int) {
            (HostMap { addrs: map@, macs: mac_map@, seed, remap_mac }).arp_frame(
                old(buf)@,
                l3 as int,
            )
        } else {
            old(buf)@
        }),
{
    if !is_arp_ipv4(buf, l3) {
        return ;
    }
    let ghost hm = HostMap { addrs: map@, macs: mac_map@, seed, remap_mac };
    let ghost b = buf@;
    let ghost size: usize = buf.len();
    let spa: u32 = read_be32(buf, l3 + 14);
    let tpa: u32 = read_be32(buf, l3 + 24);
    let tha_unset: bool = all_bytes_are(buf, l3 + 18, 6, 0) || all_bytes_are(buf, l3 + 18, 6, 0xff);
    if let Some(n) = map.get(&spa) {
        let nspa: u32 = *n;
        write_bytes(buf, l3 + 14, octets(nspa).as_slice());
        if remap_mac {
            let mac = mac_for(mac_map, seed, nspa);
            write_bytes(buf, l3 + 8, mac.as_slice());
            write_bytes(buf, 6, mac.as_slice());
        }
    }
    let ghost sent = buf@;
    proof {
        assert(be32(sent, l3 + 24) == be32(b, l3 + 24));
    }
    if let Some(n) = map.get(&tpa) {
        let ntpa: u32 = *n;
        write_bytes(buf, l3 + 24, octets(ntpa).as_slice());
        if remap_mac && !tha_unset {
            let mac = mac_for(mac_map, seed, ntpa);
            write_bytes(buf, l3 + 18, mac.as_slice());
            write_bytes(buf, 0, mac.as_slice());
        }
    }
}

fn map_frame(
    data: &mut Vec<u8>,
    map: &HashMap<u32, u32>,
    mac_map: &HashMap<u32, [u8; 6]>,
    seed: u64,
    remap_mac: bool,
)
    ensures
        final(data)@ == (HostMap { addrs: map@, macs: mac_map@, seed, remap_mac }).frame(
            old(data)@,
        ),
{
    let ghost hm = HostMap { addrs: map@, macs: mac_map@, seed, remap_mac };
    let ghost b = data@;
    if let Some(mut f) = ParsedFrame::parse(data.as_mut_slice()) {
        if f.is_ipv4() {
            let l3: usize = f.layout.l3;
            let src: u32 = read_be32(f.buf, l3 + 12);
            let dst: u32 = read_be32(f.buf, l3 + 16);
            let new_src: Option<u32> = match map.get(&src) {
                Some(n) => Some(*n),
                None => None,
            };
            let new_dst: Option<u32> = match map.get(&dst) {
                Some(n) => Some(*n),
                None => None,
            };
            if let Some(ns) = new_src {
                f.set_ipv4_src(octets(ns));
            }
            proof {
                assert(be32(f.bytes(), l3 + 16) == be32(b, l3 + 16));
            }
            if let Some(nd) = new_dst {
                f.set_ipv4_dst(octets(nd));
            }
            if new_src.is_some() || new_dst.is_some() {
                f.recompute_checksums();
            }
            if remap_mac {
                if let Some(ns) = new_src {
                    f.set_src_mac(mac_for(mac_map, seed, ns));
                }
                if let Some(nd) = new_dst {
                    proof {
                        assert(f.bytes()[0] == b[0]);
                    }
                    if f.buf[0] % 2 == 0 {
                        f.set_dst_mac(mac_for(mac_map, seed, nd));
                    }
                }
            }
        } else {
            let l3: usize = f.layout.l3;
            remap_arp_addrs(f.buf, l3, map, mac_map, seed, remap_mac);
        }
    }
}

/// Rewrite every packet's src/dst IPv4 through `map` (old u32 -> new u32),
/// recompute checksums on changed frames, and (when `remap_mac`) give each
/// remapped host a stable per-host MAC so the sensor fuses MAC<->IP into one
/// asset. Shared by the random remap and the into-zones remap.
pub fn apply_host_map(
    cap: &mut Capture,
    map: &HashMap<u32, u32>,
    mac_map: &HashMap<u32, [u8; 6]>,
    seed: u64,
    remap_mac: bool,
)
    ensures
        final(cap).header == old(cap).header,
        ({
            let hm = HostMap { addrs: map@, macs: mac_map@, seed, remap_mac };
            final(cap)@ == old(cap)@.map_values(|p: PacketModel| p.with_data(hm.frame(p.data)))
        }),
{
    let ghost hm = HostMap { addrs: map@, macs: mac_map@, seed, remap_mac };
    let mut i: usize = 0;
    while i < cap.packets.len()
        invariant
            i <= cap.packets@.len(),
            hm == (HostMap { addrs: map@, macs: mac_map@, seed, remap_mac }),
            cap.header == old(cap).header,
            cap.packets@.len() == old(cap).packets@.len(),
            forall|k: int|
                0 <= k < i ==> (#[trigger] cap.packets@[k])@ == old(cap)@[k].with_data(
                    hm.frame(old(cap)@[k].data),
                ),
            forall|k: int| i <= k < cap.packets@.len() ==> cap.packets@[k] == old(cap).packets@[k],
        decreases cap.packets@.len() - i,
    {
        map_frame(&mut cap.packets[i].data, map, mac_map, seed, remap_mac);
        i += 1;
    }
    proof {
        assert(cap@ =~= old(cap)@.map_values(
            |p: PacketModel| p.with_data(hm.frame(p.data)),
        ));
    }
}

/// The frame carries no public IPv4 address that a relocation could have left
/// behind: an IPv4 packet, not cut short by the capture, with two non-public
/// addresses; an IPv4 ARP message with two non-public addresses; another ARP
/// message; or a frame of neither IP version.
pub open spec fn safe_frame(b: Seq<u8>) -> bool {
    match layout_of(b) {
        None => false,
        Some(l) => {
            let l3 = l.l3 as int;
            if l.l3_kind == L3Kind::Ipv4 {
                &&& l3 + be16(b, l3 + 2) <= b.len()
                &&& !public_unicast(be32(b, l3 + 12) as u32)
                &&& !public_unicast(be32(b, l3 + 16) as u32)
            } else {
                &&& be16(b, l3 - 2) != 0x86dd
                &&& arp_ipv4(b, l3) ==> {
                    &&& !public_unicast(be32(b, l3 + 14) as u32)
                    &&& !public_unicast(be32(b, l3 + 24) as u32)
                }
            }
        },
    }
}

pub fn frame_is_safe(buf: &[u8]) -> (r: bool)
    ensures
        r == safe_frame(buf@),
{
    let l = match parse_layout(buf) {
        Some(l) => l,
        None => {
            return false;
        },
    };
    match l.l3_kind {
        L3Kind::Ipv4 => {
            let ip_total: usize = read_be16(buf, l.l3 + 2) as usize;
            if ip_total > buf.len() - l.l3 {
                return false;
            }
            !is_public_unicast(read_be32(buf, l.l3 + 12)) && !is_public_unicast(
                read_be32(buf, l.l3 + 16),
            )
        },
        L3Kind::Other => {
            match read_be16(buf, l.l3 - 2) {
                0x86dd => false,
                0x0806 => {
                    if !is_arp_ipv4(buf, l.l3) {
                        return true;
                    }
                    !is_public_unicast(read_be32(buf, l.l3 + 14)) && !is_public_unicast(
                        read_be32(buf, l.l3 + 24),
                    )
                },
                _ => true,
            }
        },
    }
}

/// Fail-closed output guard. After the remap, keep a frame only if it cannot put
/// a real or public address on the wire. IPv6 and other unhandled L3 are never
/// remapped, so they are dropped. Returns the number of frames dropped.
pub fn drop_unsafe_frames(cap: &mut Capture) -> (dropped: usize)
    ensures
        final(cap).header == old(cap).header,
        final(cap)@ == old(cap)@.filter(|p: PacketModel| safe_frame(p.data)),
        dropped == old(cap)@.len() - final(cap)@.len(),
{
    let keep = Ghost(|p: PacketModel| safe_frame(p.data));
    let before: usize = cap.packets.len();
    let mut all: Vec<OwnedPacket> = Vec::new();
    core::mem::swap(&mut all, &mut cap.packets);
    let ghost packets = all@;
    let ghost models = old(cap)@;
    proof {
        assert(models.take(0) =~= Seq::empty());
        reveal(Seq::filter);
    }
    for p in it: all
        invariant
            it.seq() == packets,
            models == packets.map_values(|p: OwnedPacket| p@),
            keep@ == (|p: PacketModel| safe_frame(p.data)),
            cap.header == old(cap).header,
            cap@ == models.take(it.index()).filter(keep@),
            cap.packets@.len() <= it.index(),
    {
        let ghost n = it.index();
        proof {
            reveal(Seq::filter);
            assert(models.take(n + 1).drop_last() =~= models.take(n));
            assert(models.take(n + 1).last() == p@);
        }
        let ghost kept = cap.packets@;
        if frame_is_safe(p.data.as_slice()) {
            cap.packets.push(p);
            proof {
                assert(cap@ =~= kept.map_values(|p: OwnedPacket| p@).push(p@));
            }
        }
    }
    proof {
        assert(models.take(models.len() as int) =~= models);
    }
    before - cap.packets.len()
}

/// An IPv6 address in a frame that is routable: not link-local, multicast or
/// unspecified.
pub open spec fn routable_v6(b: Seq<u8>, at: int) -> bool {
    &&& !(b[at] == 0xfe && b[at + 1] / 64 == 2)
    &&& b[at] != 0xff
    &&& !all_are(b.subrange(at, at + 16), 0)
}

/// The frame carries a routable address, or cannot be shown not to.
pub open spec fn public_frame(b: Seq<u8>) -> bool {
    match layout_of(b) {
        None => true,
        Some(l) => {
            let l3 = l.l3 as int;
            if l.l3_kind == L3Kind::Ipv4 {
                ||| public_unicast(be32(b, l3 + 12) as u32)
                ||| public_unicast(be32(b, l3 + 16) as u32)
            } else if be16(b, l3 - 2) == 0x86dd {
                b.len() < l3 + 40 || routable_v6(b, l3 + 8) || routable_v6(b, l3 + 24)
            } else {
                arp_ipv4(b, l3) && (public_unicast(be32(b, l3 + 14) as u32) || public_unicast(
                    be32(b, l3 + 24) as u32,
                ))
            }
        },
    }
}

fn v6_routable(buf: &[u8], at: usize) -> (r: bool)
    requires
        at + 16 <= buf.len(),
    ensures
        r == routable_v6(buf@, at as int),
{
    let link_local: bool = buf[at] == 0xfe && buf[at + 1] / 64 == 2;
    let multicast: bool = buf[at] == 0xff;
    let unspecified: bool = all_bytes_are(buf, at, 16, 0);
    !link_local && !multicast && !unspecified
}

/// True if an IPv6 frame carries a non-link-local, non-multicast, non-zero
/// address (so a real/global address would reach the wire). Fails closed.
pub fn ipv6_carries_routable(buf: &[u8], l3: usize) -> (r: bool)
    ensures
        r == (buf@.len() < l3 + 40 || routable_v6(buf@, l3 + 8) || routable_v6(buf@, l3 + 24)),
{
    if buf.len() < 40 || l3 > buf.len() - 40 {
        return true;
    }
    v6_routable(buf, l3 + 8) || v6_routable(buf, l3 + 24)
}

/// True if a raw frame carries a routable address (public IPv4 unicast, a
/// non-local IPv6 address, or a public ARP protocol address). The run-loop
/// remap-off backstop uses this; it fails closed (returns true) on anything it
/// cannot parse and prove safe.
pub fn carries_public_address(buf: &[u8]) -> (r: bool)
    ensures
        r == public_frame(buf@),
{
    let l = match parse_layout(buf) {
        Some(l) => l,
        None => {
            return true;
        },
    };
    match l.l3_kind {
        L3Kind::Ipv4 => is_public_unicast(read_be32(buf, l.l3 + 12)) || is_public_unicast(
            read_be32(buf, l.l3 + 16),
        ),
        L3Kind::Other => {
            match read_be16(buf, l.l3 - 2) {
                0x86dd => ipv6_carries_routable(buf, l.l3),
                0x0806 => {
                    if !is_arp_ipv4(buf, l.l3) {
                        return false;
                    }
                    is_public_unicast(read_be32(buf, l.l3 + 14)) || is_public_unicast(
                        read_be32(buf, l.l3 + 24),
                    )
                },
                _ => false,
            }
        },
    }
}

/// A frame kept by the output guard never carries a public address.
pub proof fn law_safe_frames_are_not_public(b: Seq<u8>)
    requires
        safe_frame(b),
    ensures
        !public_frame(b),
{
}

/// The base of the 10/8 block.
pub const RFC1918_10_BASE: u32 = 0x0A00_0000;

pub const DEFAULT_PREFIX: u8 = 24;

/// What the remap did, for the round manifest and logs.
pub struct RemapSummary {
    pub host_count: usize,
    pub subnets: Vec<(String, String)>,
}

/// The networks that the parseable texts of a list stand for, in order.
pub open spec fn hint_nets(hints: Seq<String>) -> Seq<Ipv4Net>
    decreases hints.len(),
{
    if hints.len() == 0 {
        Seq::empty()
    } else {
        let rest = hint_nets(hints.drop_last());
        match cidr_net(hints.last()@) {
            Some(n) => rest.push(n),
            None => rest,
        }
    }
}

pub open spec fn nets_wf(nets: Seq<Ipv4Net>) -> bool {
    forall|i: int| 0 <= i < nets.len() ==> (#[trigger] nets[i]).wf()
}

/// Parse CIDR hint strings, dropping any that do not parse.
pub fn parse_hints(hints: &[String]) -> (r: Vec<Ipv4Net>)
    ensures
        r@ == hint_nets(hints@),
        nets_wf(r@),
{
    let mut r: Vec<Ipv4Net> = Vec::new();
    let mut i: usize = 0;
    proof {
        assert(hints@.take(0) =~= Seq::empty());
    }
    while i < hints.len()
        invariant
            i <= hints@.len(),
            r@ == hint_nets(hints@.take(i as int)),
            nets_wf(r@),
        decreases hints@.len() - i,
    {
        proof {
            assert(hints@.take(i as int + 1).drop_last() =~= hints@.take(i as int));
        }
        if let Some(n) = parse_net(hints[i].as_str()) {
            r.push(n);
        }
        i += 1;
    }
    proof {
        assert(hints@.take(i as int) =~= hints@);
    }
    r
}

/// The group of an address: under the first hint of a prefix of at least 8 that
/// holds it, else its /24. A group is a prefix length and a network.
pub open spec fn group(addr: u32, hints: Seq<Ipv4Net>) -> (u8, u32)
    decreases hints.len(),
{
    if hints.len() == 0 {
        (DEFAULT_PREFIX, network_of(addr as int, DEFAULT_PREFIX as int) as u32)
    } else if hints[0].prefix >= 8 && hints[0].has(addr as int) {
        (hints[0].prefix, network_of(addr as int, hints[0].prefix as int) as u32)
    } else {
        group(addr, hints.drop_first())
    }
}

/// A group's prefix is between 8 and 32, and its network is that of the address.
pub proof fn lemma_group(addr: u32, hints: Seq<Ipv4Net>)
    requires
        nets_wf(hints),
    ensures
        8 <= group(addr, hints).0 <= 32,
        group(addr, hints).1 == network_of(addr as int, group(addr, hints).0 as int),
    decreases hints.len(),
{
    if hints.len() == 0 {
        (Ipv4Net { addr, prefix: DEFAULT_PREFIX }).lemma_bounds();
    } else if hints[0].prefix >= 8 && hints[0].has(addr as int) {
        assert(hints[0].wf());
        (Ipv4Net { addr, prefix: hints[0].prefix }).lemma_bounds();
    } else {
        assert forall|i: int| 0 <= i < hints.drop_first().len() implies (
        #[trigger] hints.drop_first()[i]).wf() by {
            assert(hints[i + 1].wf());
        }
        lemma_group(addr, hints.drop_first());
    }
}

/// The (prefix, network) group an address belongs to: a matching hint if any,
/// otherwise its /24.
pub fn group_of(addr: u32, hints: &[Ipv4Net]) -> (r: (u8, u32))
    requires
        nets_wf(hints@),
    ensures
        r == group(addr, hints@),
{
    let mut i: usize = 0;
    proof {
        assert(hints@.skip(0) =~= hints@);
    }
    while i < hints.len()
        invariant
            i <= hints@.len(),
            nets_wf(hints@),
            group(addr, hints@) == group(addr, hints@.skip(i as int)),
        decreases hints@.len() - i,
    {
        proof {
            assert(hints@[i as int].wf());
            assert(hints@.skip(i as int).drop_first() =~= hints@.skip(i as int + 1));
        }
        if hints[i].prefix_len() >= 8 && hints[i].contains(addr) {
            let p: u8 = hints[i].prefix_len();
            return (p, (Ipv4Net { addr, prefix: p }).network());
        }
        i += 1;
    }
    (DEFAULT_PREFIX, (Ipv4Net { addr, prefix: DEFAULT_PREFIX }).network())
}

/// The subnet an address belongs to. Shared by the remap and by zone grouping so
/// the two always agree on subnet boundaries.
pub fn subnet_of(addr: u32, hints: &[Ipv4Net]) -> (r: Ipv4Net)
    requires
        nets_wf(hints@),
    ensures
        r == (Ipv4Net { addr: group(addr, hints@).1, prefix: group(addr, hints@).0 }),
        r.wf(),
        r.has(addr as int),
        r.addr == r.first(),
{
    proof {
        lemma_group(addr, hints@);
        (Ipv4Net { addr, prefix: group(addr, hints@).0 }).lemma_bounds();
        lemma_span_bound(group(addr, hints@).0 as int);
    }
    let (p, net) = group_of(addr, hints);
    Ipv4Net { addr: net, prefix: p }
}

/// A prefix length brought into `8..=30`.
pub open spec fn clamp_prefix(p: int) -> int {
    if p < 8 {
        8
    } else if p > 30 {
        30
    } else {
        p
    }
}

/// How many networks of a prefix length the 10/8 block holds.
pub open spec fn ten_count(p: int) -> int {
    span(8) as int / span(p) as int
}

/// The network numbered `idx` of a prefix length in the 10/8 block.
pub open spec fn ten_net(p: int, idx: int) -> int {
    RFC1918_10_BASE + idx * span(p)
}

/// A network overlaps one of those assigned, each given by its first address and
/// prefix length.
pub open spec fn overlapping(net: int, p: int, assigned: Seq<(u32, u8)>) -> bool {
    exists|i: int|
        0 <= i < assigned.len() && net < (#[trigger] assigned[i]).0 + span(assigned[i].1 as int)
            && assigned[i].0 < net + span(p)
}

/// Some network of the prefix length in the 10/8 block overlaps none of those
/// assigned.
pub open spec fn room_left(p: int, assigned: Seq<(u32, u8)>) -> bool {
    exists|idx: int| 0 <= idx < ten_count(p) && !overlapping(#[trigger] ten_net(p, idx), p, assigned)
}

pub proof fn lemma_ten_net(p: int, idx: int)
    requires
        8 <= p <= 30,
        0 <= idx < ten_count(p),
    ensures
        RFC1918_10_BASE <= ten_net(p, idx),
        ten_net(p, idx) + span(p) <= RFC1918_10_BASE + span(8),
        ten_net(p, idx) % (span(p) as int) == 0,
        0 < ten_count(p) <= span(8),
{
    lemma_span_values();
    lemma_span_bound(p);
    lemma_span_divides(8, p);
    let s = span(p) as int;
    let n = span(8) as int;
    let k = n / s;
    assert(n == s * k) by (nonlinear_arith)
        requires
            s > 0,
            n % s == 0,
            k == n / s,
    ;
    assert(idx * s + s <= n && 0 <= idx * s) by (nonlinear_arith)
        requires
            0 <= idx < k,
            n == s * k,
            s > 0,
    ;
    assert(k <= n) by (nonlinear_arith)
        requires
            n == s * k,
            s >= 1,
            k >= 0,
    ;
    assert(RFC1918_10_BASE == 10 * n);
    assert((RFC1918_10_BASE + idx * s) % s == 0) by (nonlinear_arith)
        requires
            s > 0,
            n == s * k,
            RFC1918_10_BASE == 10 * n,
    {
        assert(10 * (s * k) + idx * s == s * (10 * k + idx)) by (nonlinear_arith);
        assert((s * (10 * k + idx)) % s == 0) by (nonlinear_arith)
            requires
                s > 0,
        ;
    }
}

/// Up to `tries` random networks, the first free one being taken. A number that
/// counts no network of the block is no network.
pub open spec fn random_net(words: Seq<u32>, p: int, assigned: Seq<(u32, u8)>, tries: nat) -> (
    Option<u32>,
    Seq<u32>,
)
    decreases tries,
{
    if tries == 0 {
        (None, words)
    } else {
        let step = range_step(words, 0, (ten_count(p) - 1) as u64);
        let net = ten_net(p, step.0 as int);
        if step.0 < ten_count(p) && !overlapping(net, p, assigned) {
            (Some(net as u32), step.1)
        } else {
            random_net(step.1, p, assigned, (tries - 1) as nat)
        }
    }
}

/// The first free network from number `idx` on, else the base of the block.
pub open spec fn first_free_net(p: int, assigned: Seq<(u32, u8)>, idx: int) -> u32
    decreases ten_count(p) - idx,
{
    if idx >= ten_count(p) {
        RFC1918_10_BASE
    } else if !overlapping(ten_net(p, idx), p, assigned) {
        ten_net(p, idx) as u32
    } else {
        first_free_net(p, assigned, idx + 1)
    }
}

/// How many random networks are tried before the block is searched in order.
pub open spec fn net_tries() -> nat {
    256
}

/// A new network of the given prefix length (brought into `8..=30`) in the 10/8
/// block, and the generator state behind it.
pub open spec fn new_net(prefix: u8, words: Seq<u32>, assigned: Seq<(u32, u8)>) -> (u32, Seq<u32>) {
    let p = clamp_prefix(prefix as int);
    let tried = random_net(words, p, assigned, net_tries());
    match tried.0 {
        Some(n) => (n, tried.1),
        None => (first_free_net(p, assigned, 0), tried.1),
    }
}

pub open spec fn prefixes_ok(assigned: Seq<(u32, u8)>) -> bool {
    forall|i: int| 0 <= i < assigned.len() ==> (#[trigger] assigned[i]).1 <= 32
}

fn overlaps(net: u32, prefix: u8, assigned: &[(u32, u8)]) -> (r: bool)
    requires
        prefix <= 32,
        prefixes_ok(assigned@),
    ensures
        r == overlapping(net as int, prefix as int, assigned@),
{
    let lo: u64 = net as u64;
    let hi: u64 = lo + span_of(prefix);
    let mut i: usize = 0;
    while i < assigned.len()
        invariant
            i <= assigned@.len(),
            prefixes_ok(assigned@),
            lo == net,
            hi == net + span(prefix as int),
            forall|k: int|
                0 <= k < i ==> !(net < (#[trigger] assigned@[k]).0 + span(assigned@[k].1 as int)
                    && assigned@[k].0 < net + span(prefix as int)),
        decreases assigned@.len() - i,
    {
        proof {
            assert(assigned@[i as int].1 <= 32);
        }
        let lo2: u64 = assigned[i].0 as u64;
        let hi2: u64 = lo2 + span_of(assigned[i].1);
        if lo < hi2 && lo2 < hi {
            return true;
        }
        i += 1;
    }
    false
}

/// Pick a random network of the given prefix within 10/8 that does not overlap
/// any already assigned network.
fn pick_new_net(
    prefix: u8,
    rng: &mut rand_chacha::ChaCha8Rng,
    assigned: &[(u32, u8)],
) -> (net: u32)
    requires
        prefixes_ok(assigned@),
    ensures
        (net, rng_words(*final(rng))) == new_net(prefix, rng_words(*old(rng)), assigned@),
        is_ten_net(net as int, clamp_prefix(prefix as int)),
        room_left(clamp_prefix(prefix as int), assigned@) ==> !overlapping(
            net as int,
            clamp_prefix(prefix as int),
            assigned@,
        ),
{
    let p: u8 = if prefix < 8 {
        8
    } else if prefix > 30 {
        30
    } else {
        prefix
    };
    let size: u64 = span_of(p);
    proof {
        lemma_span_values();
        lemma_span_divides(8, p as int);
        assert(0 < ten_count(p as int)) by (nonlinear_arith)
            requires
                0 < span(p as int) <= span(8),
                ten_count(p as int) == span(8) as int / span(p as int) as int,
        ;
        lemma_ten_net(p as int, 0);
    }
    let count: u64 = 0x100_0000 / size;
    let ghost start = rng_words(*rng);
    let mut tries: usize = 256;
    while tries > 0
        invariant
            8 <= p <= 30,
            p == clamp_prefix(prefix as int),
            tries <= 256,
            size == span(p as int),
            count == ten_count(p as int),
            0 < count <= 0x100_0000,
            prefixes_ok(assigned@),
            random_net(start, p as int, assigned@, net_tries()) == random_net(
                rng_words(*rng),
                p as int,
                assigned@,
                tries as nat,
            ),
            start == rng_words(*old(rng)),
        decreases tries,
    {
        let idx: u64 = rng_range(rng, 0, count - 1);
        proof {
            lemma_ten_net(p as int, idx as int);
            lemma_span_values();
        }
        let net: u32 = (RFC1918_10_BASE as u64 + idx * size) as u32;
        proof {
            assert(net == ten_net(p as int, idx as int));
        }
        if !overlaps(net, p, assigned) {
            return net;
        }
        tries -= 1;
    }
    let mut idx: u64 = 0;
    proof {
        lemma_first_free_net(p as int, assigned@, 0);
    }
    while idx < count
        invariant
            8 <= p <= 30,
            idx <= count,
            size == span(p as int),
            count == ten_count(p as int),
            0 < count <= 0x100_0000,
            prefixes_ok(assigned@),
            random_net(start, p as int, assigned@, net_tries()) == (None::<u32>, rng_words(*rng)),
            start == rng_words(*old(rng)),
            p == clamp_prefix(prefix as int),
            is_ten_net(first_free_net(p as int, assigned@, 0) as int, p as int),
            room_left(p as int, assigned@) ==> !overlapping(
                first_free_net(p as int, assigned@, 0) as int,
                p as int,
                assigned@,
            ),
            first_free_net(p as int, assigned@, 0) == first_free_net(
                p as int,
                assigned@,
                idx as int,
            ),
        decreases count - idx,
    {
        proof {
            lemma_ten_net(p as int, idx as int);
            lemma_span_values();
        }
        let net: u32 = (RFC1918_10_BASE as u64 + idx * size) as u32;
        if !overlaps(net, p, assigned) {
            return net;
        }
        idx += 1;
    }
    RFC1918_10_BASE
}

pub proof fn lemma_first_free_net(p: int, assigned: Seq<(u32, u8)>, idx: int)
    requires
        8 <= p <= 30,
        0 <= idx <= ten_count(p),
        forall|k: int| 0 <= k < idx ==> overlapping(#[trigger] ten_net(p, k), p, assigned),
    ensures
        ({
            let n = first_free_net(p, assigned, idx);
            &&& exists|k: int| 0 <= k < ten_count(p) && n == #[trigger] ten_net(p, k)
            &&& room_left(p, assigned) ==> !overlapping(n as int, p, assigned)
        }),
    decreases ten_count(p) - idx,
{
    lemma_span_values();
    lemma_span_divides(8, p);
    assert(0 < ten_count(p)) by (nonlinear_arith)
        requires
            0 < span(p) <= span(8),
            ten_count(p) == span(8) as int / span(p) as int,
    ;
    if idx >= ten_count(p) {
        assert(ten_net(p, 0) == RFC1918_10_BASE);
    } else {
        lemma_ten_net(p, idx);
        if overlapping(ten_net(p, idx), p, assigned) {
            lemma_first_free_net(p, assigned, idx + 1);
        }
    }
}

/// `net` is one of the 10/8 networks of a prefix length.
pub open spec fn is_ten_net(net: int, p: int) -> bool {
    exists|idx: int| 0 <= idx < ten_count(p) && net == #[trigger] ten_net(p, idx)
}

/// A fresh `/prefix` network in 10/8 that does not overlap any in `existing`
/// while the block has room for one.
pub fn fresh_subnet(
    prefix: u8,
    existing: &[Ipv4Net],
    rng: &mut rand_chacha::ChaCha8Rng,
) -> (r: Ipv4Net)
    requires
        nets_wf(existing@),
    ensures
        ({
            let step = new_net(
                clamp_prefix(prefix as int) as u8,
                rng_words(*old(rng)),
                net_blocks(existing@),
            );
            &&& r == (Ipv4Net { addr: step.0, prefix: clamp_prefix(prefix as int) as u8 })
            &&& rng_words(*final(rng)) == step.1
        }),
        r.wf(),
        is_ten_net(r.addr as int, r.prefix as int),
        room_left(r.prefix as int, net_blocks(existing@)) ==> !overlapping(
            r.addr as int,
            r.prefix as int,
            net_blocks(existing@),
        ),
{
    let mut assigned: Vec<(u32, u8)> = Vec::new();
    let mut i: usize = 0;
    while i < existing.len()
        invariant
            i <= existing@.len(),
            nets_wf(existing@),
            assigned@ =~= net_blocks(existing@.take(i as int)),
            prefixes_ok(assigned@),
        decreases existing@.len() - i,
    {
        proof {
            assert(existing@[i as int].wf());
            existing@[i as int].lemma_bounds();
        }
        assigned.push((existing[i].network(), existing[i].prefix_len()));
        i += 1;
    }
    proof {
        assert(existing@.take(i as int) =~= existing@);
    }
    let p: u8 = if prefix < 8 {
        8
    } else if prefix > 30 {
        30
    } else {
        prefix
    };
    let net: u32 = pick_new_net(p, rng, assigned.as_slice());
    Ipv4Net { addr: net, prefix: p }
}

/// The first address and the prefix length of each network.
pub open spec fn net_blocks(nets: Seq<Ipv4Net>) -> Seq<(u32, u8)> {
    nets.map_values(|n: Ipv4Net| (n.first() as u32, n.prefix))
}

/// The frame names the address as its source or destination, or as an ARP
/// sender or target.
pub open spec fn carries(b: Seq<u8>, a: u32) -> bool {
    match layout_of(b) {
        None => false,
        Some(l) => if l.l3_kind == L3Kind::Ipv4 {
            be32(b, l.l3 + 12) == a || be32(b, l.l3 + 16) == a
        } else {
            arp_ipv4(b, l.l3 as int) && (be32(b, l.l3 + 14) == a || be32(b, l.l3 + 24) == a)
        },
    }
}

/// The addresses in a list of frames that are relocated.
pub open spec fn hosts_in(fs: Seq<Seq<u8>>) -> Set<u32> {
    Set::new(
        |a: u32| remappable(a) && exists|i: int| 0 <= i < fs.len() && carries(#[trigger] fs[i], a),
    )
}

pub open spec fn group_lt(a: (u8, u32), b: (u8, u32)) -> bool {
    a.0 < b.0 || (a.0 == b.0 && a.1 < b.1)
}

pub open spec fn groups_sorted(gs: Seq<(u8, u32)>) -> bool {
    forall|i: int, j: int| 0 <= i < j < gs.len() ==> group_lt(#[trigger] gs[i], #[trigger] gs[j])
}

/// The groups of a set of hosts, in order and without repeats.
pub open spec fn is_group_list(gs: Seq<(u8, u32)>, hosts: Set<u32>, hints: Seq<Ipv4Net>) -> bool {
    &&& groups_sorted(gs)
    &&& forall|h: u32| #[trigger] hosts.contains(h) ==> gs.contains(group(h, hints))
    &&& forall|i: int| 0 <= i < gs.len() ==> has_host(#[trigger] gs[i], hosts, hints)
}

/// Some host is in the group.
pub open spec fn has_host(g: (u8, u32), hosts: Set<u32>, hints: Seq<Ipv4Net>) -> bool {
    exists|h: u32| #[trigger] hosts.contains(h) && group(h, hints) == g
}

/// The groups of a set of hosts, in order.
pub open spec fn group_list(hosts: Set<u32>, hints: Seq<Ipv4Net>) -> Seq<(u8, u32)> {
    choose|gs: Seq<(u8, u32)>| is_group_list(gs, hosts, hints)
}

proof fn lemma_sorted_unique(a: Seq<(u8, u32)>, b: Seq<(u8, u32)>)
    requires
        groups_sorted(a),
        groups_sorted(b),
        forall|g: (u8, u32)| a.contains(g) <==> b.contains(g),
    ensures
        a == b,
    decreases a.len(),
{
    if a.len() == 0 {
        if b.len() > 0 {
            assert(b.contains(b[0]));
            assert(a.contains(b[0]));
        }
        assert(a =~= b);
    } else {
        assert(a.contains(a.last()));
        assert(b.contains(a.last()));
        let j = choose|j: int| 0 <= j < b.len() && b[j] == a.last();
        assert(b.contains(b.last()));
        assert(a.contains(b.last()));
        let i = choose|i: int| 0 <= i < a.len() && a[i] == b.last();
        assert(a.last() == b.last()) by {
            if j < b.len() - 1 && i < a.len() - 1 {
                assert(group_lt(b[j], b[b.len() - 1]));
                assert(group_lt(a[i], a[a.len() - 1]));
            }
        }
        let x = a.drop_last();
        let y = b.drop_last();
        assert forall|g: (u8, u32)| x.contains(g) <==> y.contains(g) by {
            if x.contains(g) {
                let k = choose|k: int| 0 <= k < x.len() && x[k] == g;
                assert(a[k] == g && group_lt(a[k], a[a.len() - 1]));
                assert(a.contains(g));
                let m = choose|m: int| 0 <= m < b.len() && b[m] == g;
                assert(y[m] == g);
            }
            if y.contains(g) {
                let k = choose|k: int| 0 <= k < y.len() && y[k] == g;
                assert(b[k] == g && group_lt(b[k], b[b.len() - 1]));
                assert(b.contains(g));
                let m = choose|m: int| 0 <= m < a.len() && a[m] == g;
                assert(x[m] == g);
            }
        }
        lemma_sorted_unique(x, y);
        assert(a =~= x.push(a.last()));
        assert(b =~= y.push(b.last()));
    }
}

/// A list of groups in order is the list of groups.
pub proof fn lemma_group_list(gs: Seq<(u8, u32)>, hosts: Set<u32>, hints: Seq<Ipv4Net>)
    requires
        is_group_list(gs, hosts, hints),
    ensures
        group_list(hosts, hints) == gs,
{
    let other = group_list(hosts, hints);
    assert(is_group_list(other, hosts, hints));
    assert forall|g: (u8, u32)| gs.contains(g) <==> other.contains(g) by {
        if gs.contains(g) {
            let k = choose|k: int| 0 <= k < gs.len() && gs[k] == g;
            assert(has_host(gs[k], hosts, hints));
            let h = choose|h: u32| #[trigger] hosts.contains(h) && group(h, hints) == gs[k];
            assert(other.contains(group(h, hints)));
        }
        if other.contains(g) {
            let k = choose|k: int| 0 <= k < other.len() && other[k] == g;
            assert(has_host(other[k], hosts, hints));
            let h = choose|h: u32| #[trigger] hosts.contains(h) && group(h, hints) == other[k];
            assert(gs.contains(group(h, hints)));
        }
    }
    lemma_sorted_unique(gs, other);
}

/// The new network of each group in turn, with its prefix length, and the
/// generator state behind the last.
pub open spec fn assign_nets(gs: Seq<(u8, u32)>, words: Seq<u32>) -> (Seq<(u32, u8)>, Seq<u32>)
    decreases gs.len(),
{
    if gs.len() == 0 {
        (Seq::empty(), words)
    } else {
        let done = assign_nets(gs.drop_last(), words);
        let step = new_net(gs.last().0, done.1, done.0);
        (done.0.push((step.0, gs.last().0)), step.1)
    }
}

/// The new address of a host: its offset in its group, kept, in the network
/// assigned to the group.
pub open spec fn moved(
    h: u32,
    gs: Seq<(u8, u32)>,
    nets: Seq<(u32, u8)>,
    hints: Seq<Ipv4Net>,
) -> u32 {
    let g = group(h, hints);
    (nets[gs.index_of(g)].0 + h as int % (span(g.0 as int) as int)) as u32
}

/// The new address of every host.
pub open spec fn moved_hosts(hosts: Set<u32>, hints: Seq<Ipv4Net>, seed: u64) -> Map<u32, u32> {
    let gs = group_list(hosts, hints);
    let nets = assign_nets(gs, seeded_words(seed)).0;
    Map::new(|h: u32| hosts.contains(h), |h: u32| moved(h, gs, nets, hints))
}

fn note_host(seen: &mut HashSet<u32>, hosts: &mut Vec<u32>, addr: u32)
    requires
        old(hosts)@.to_set() == old(seen)@,
        old(hosts)@.no_duplicates(),
    ensures
        final(hosts)@.to_set() == final(seen)@,
        final(hosts)@.no_duplicates(),
        final(seen)@ == (if remappable(addr) {
            old(seen)@.insert(addr)
        } else {
            old(seen)@
        }),
{
    if is_remappable(addr) {
        if seen.insert(addr) {
            hosts.push(addr);
            proof {
                assert forall|x: u32| hosts@.to_set().contains(x) <==> seen@.contains(x) by {
                    if old(seen)@.contains(x) {
                        assert(old(hosts)@.to_set().contains(x));
                        let k = choose|k: int|
                            0 <= k < old(hosts)@.len() && old(hosts)@[k] == x;
                        assert(hosts@[k] == x);
                    }
                    if x == addr {
                        assert(hosts@[hosts@.len() - 1] == x);
                    }
                    if hosts@.to_set().contains(x) && x != addr {
                        let k = choose|k: int| 0 <= k < hosts@.len() && hosts@[k] == x;
                        assert(old(hosts)@[k] == x);
                        assert(old(hosts)@.to_set().contains(x));
                    }
                }
                assert(hosts@.to_set() =~= seen@);
                assert forall|i: int, j: int|
                    0 <= i < j < hosts@.len() implies hosts@[i] != hosts@[j] by {
                    if j == hosts@.len() - 1 && hosts@[i] == addr {
                        assert(old(hosts)@.to_set().contains(addr));
                    }
                }
            }
        } else {
            proof {
                assert(old(seen)@.insert(addr) =~= old(seen)@);
            }
        }
    }
}

/// The distinct hosts of a capture that are relocated.
pub(crate) fn collect_hosts(cap: &Capture) -> (hosts: Vec<u32>)
    ensures
        hosts@.no_duplicates(),
        hosts@.to_set() == hosts_in(frames(cap@)),
{
    let mut seen: HashSet<u32> = HashSet::new();
    let mut hosts: Vec<u32> = Vec::new();
    let ghost fs = frames(cap@);
    let mut i: usize = 0;
    proof {
        assert(hosts@.to_set() =~= seen@);
        assert(seen@ =~= hosts_in(fs.take(0)));
    }
    while i < cap.packets.len()
        invariant
            i <= cap.packets@.len(),
            fs == frames(cap@),
            hosts@.no_duplicates(),
            hosts@.to_set() == seen@,
            seen@ == hosts_in(fs.take(i as int)),
        decreases cap.packets@.len() - i,
    {
        let data: &[u8] = cap.packets[i].data.as_slice();
        let ghost before = seen@;
        proof {
            assert(fs[i as int] == data@);
        }
        if let Some(l) = parse_layout(data) {
            let l3: usize = l.l3;
            if l.l3_kind == L3Kind::Ipv4 {
                note_host(&mut seen, &mut hosts, read_be32(data, l3 + 12));
                note_host(&mut seen, &mut hosts, read_be32(data, l3 + 16));
            } else if is_arp_ipv4(data, l3) {
                note_host(&mut seen, &mut hosts, read_be32(data, l3 + 14));
                note_host(&mut seen, &mut hosts, read_be32(data, l3 + 24));
            }
        }
        proof {
            assert(seen@ =~= hosts_in(fs.take(i as int + 1))) by {
                assert forall|a: u32| seen@.contains(a) <==> hosts_in(
                    fs.take(i as int + 1),
                ).contains(a) by {
                    let now = fs.take(i as int + 1);
                    let prior = fs.take(i as int);
                    if before.contains(a) {
                        let k = choose|k: int|
                            0 <= k < prior.len() && carries(#[trigger] prior[k], a);
                        assert(carries(now[k], a));
                    }
                    if remappable(a) && carries(fs[i as int], a) {
                        assert(carries(now[i as int], a));
                    }
                    if hosts_in(now).contains(a) {
                        let k = choose|k: int| 0 <= k < now.len() && carries(#[trigger] now[k], a);
                        if k < i {
                            assert(carries(prior[k], a));
                        }
                    }
                }
            }
        }
        i += 1;
    }
    proof {
        assert(fs.take(i as int) =~= fs);
    }
    hosts
}

/// Put a group in its place, unless it is there.
fn insert_group(gs: &mut Vec<(u8, u32)>, g: (u8, u32))
    requires
        groups_sorted(old(gs)@),
    ensures
        groups_sorted(final(gs)@),
        forall|x: (u8, u32)| final(gs)@.contains(x) <==> x == g || old(gs)@.contains(x),
{
    let mut i: usize = 0;
    while i < gs.len()
        invariant
            i <= gs@.len(),
            gs@ == old(gs)@,
            forall|k: int| 0 <= k < i ==> group_lt(#[trigger] gs@[k], g),
        ensures
            i <= gs@.len(),
            gs@ == old(gs)@,
            forall|k: int| 0 <= k < i ==> group_lt(#[trigger] gs@[k], g),
            i < gs@.len() ==> !group_lt(gs@[i as int], g),
        decreases gs@.len() - i,
    {
        let x: (u8, u32) = gs[i];
        if !(x.0 < g.0 || (x.0 == g.0 && x.1 < g.1)) {
            break ;
        }
        i += 1;
    }
    if i < gs.len() && gs[i].0 == g.0 && gs[i].1 == g.1 {
        proof {
            assert(gs@[i as int] == g);
        }
        return ;
    }
    gs.insert(i, g);
    proof {
        let n = gs@;
        let o = old(gs)@;
        assert(n == o.insert(i as int, g));
        assert forall|a: int, b: int| 0 <= a < b < n.len() implies group_lt(
            #[trigger] n[a],
            #[trigger] n[b],
        ) by {
            let oa = if a < i {
                a
            } else {
                a - 1
            };
            let ob = if b < i {
                b
            } else {
                b - 1
            };
            if a != i && b != i {
                assert(group_lt(o[oa], o[ob]));
            } else if b == i {
                assert(group_lt(o[a], g));
            } else {
                assert(n[b] == o[b - 1]);
                if b - 1 > i {
                    assert(group_lt(o[i as int], o[b - 1]));
                }
            }
        }
        assert forall|x: (u8, u32)| n.contains(x) <==> x == g || o.contains(x) by {
            if n.contains(x) {
                let k = choose|k: int| 0 <= k < n.len() && n[k] == x;
                if k < i {
                    assert(o[k] == x);
                } else if k > i {
                    assert(o[k - 1] == x);
                }
            }
            if x == g {
                assert(n[i as int] == x);
            }
            if o.contains(x) {
                let k = choose|k: int| 0 <= k < o.len() && o[k] == x;
                if k < i {
                    assert(n[k] == x);
                } else {
                    assert(n[k + 1] == x);
                }
            }
        }
    }
}

/// The groups of the hosts, in order.
pub(crate) fn collect_groups(hosts: &[u32], hints: &[Ipv4Net]) -> (gs: Vec<(u8, u32)>)
    requires
        nets_wf(hints@),
    ensures
        is_group_list(gs@, hosts@.to_set(), hints@),
{
    let mut gs: Vec<(u8, u32)> = Vec::new();
    let mut i: usize = 0;
    while i < hosts.len()
        invariant
            i <= hosts@.len(),
            nets_wf(hints@),
            groups_sorted(gs@),
            forall|k: int| 0 <= k < i ==> gs@.contains(group(#[trigger] hosts@[k], hints@)),
            forall|x: (u8, u32)| #[trigger]
                gs@.contains(x) ==> exists|k: int|
                    0 <= k < i && group(#[trigger] hosts@[k], hints@) == x,
        decreases hosts@.len() - i,
    {
        let ghost before = gs@;
        insert_group(&mut gs, group_of(hosts[i], hints));
        proof {
            assert forall|x: (u8, u32)| #[trigger] gs@.contains(x) implies exists|k: int|
                0 <= k < i + 1 && group(#[trigger] hosts@[k], hints@) == x by {
                if before.contains(x) {
                    let k = choose|k: int| 0 <= k < i && group(#[trigger] hosts@[k], hints@) == x;
                    assert(group(hosts@[k], hints@) == x);
                } else {
                    assert(group(hosts@[i as int], hints@) == x);
                }
            }
        }
        i += 1;
    }
    proof {
        let set = hosts@.to_set();
        assert forall|h: u32| #[trigger] set.contains(h) implies gs@.contains(
            group(h, hints@),
        ) by {
            let k = choose|k: int| 0 <= k < hosts@.len() && hosts@[k] == h;
            assert(gs@.contains(group(hosts@[k], hints@)));
        }
        assert forall|j: int| 0 <= j < gs@.len() implies has_host(
            #[trigger] gs@[j],
            set,
            hints@,
        ) by {
            assert(gs@.contains(gs@[j]));
            let k = choose|k: int|
                0 <= k < hosts@.len() && group(#[trigger] hosts@[k], hints@) == gs@[j];
            assert(set.contains(hosts@[k]));
        }
    }
    gs
}

/// The position of a group in a list of groups that holds it.
fn find_group(gs: &[(u8, u32)], g: (u8, u32)) -> (i: usize)
    requires
        groups_sorted(gs@),
        gs@.contains(g),
    ensures
        i == gs@.index_of(g),
        i < gs@.len(),
        gs@[i as int] == g,
{
    let mut i: usize = 0;
    let ghost at = gs@.index_of(g);
    while i < gs.len()
        invariant
            i <= at,
            0 <= at < gs@.len(),
            gs@[at] == g,
            at == gs@.index_of(g),
            groups_sorted(gs@),
        decreases gs@.len() - i,
    {
        if gs[i].0 == g.0 && gs[i].1 == g.1 {
            proof {
                if i < at {
                    assert(group_lt(gs@[i as int], gs@[at]));
                }
            }
            return i;
        }
        i += 1;
    }
    i
}

proof fn lemma_assign_len(gs: Seq<(u8, u32)>, words: Seq<u32>)
    ensures
        assign_nets(gs, words).0.len() == gs.len(),
        forall|i: int|
            0 <= i < gs.len() ==> (#[trigger] assign_nets(gs, words).0[i]).1 == gs[i].0,
    decreases gs.len(),
{
    if gs.len() > 0 {
        lemma_assign_len(gs.drop_last(), words);
    }
}

/// Each network assigned is one of the 10/8 block.
pub open spec fn all_in_ten(nets: Seq<(u32, u8)>) -> bool {
    forall|i: int|
        0 <= i < nets.len() ==> is_ten_net(
            (#[trigger] nets[i]).0 as int,
            clamp_prefix(nets[i].1 as int),
        )
}

/// A host's offset fits behind a network of the 10/8 block.
pub proof fn lemma_moved_fits(net: u32, p: u8, h: u32)
    requires
        8 <= p <= 32,
        is_ten_net(net as int, clamp_prefix(p as int)),
    ensures
        0 <= h as int % (span(p as int) as int) < span(p as int),
        RFC1918_10_BASE <= net + h as int % (span(p as int) as int) < RFC1918_10_BASE + span(8),
        span(8) == 0x100_0000,
        net as int % (span(p as int) as int) == 0,
{
    let q = clamp_prefix(p as int);
    let idx = choose|idx: int| 0 <= idx < ten_count(q) && net == #[trigger] ten_net(q, idx);
    lemma_ten_net(q, idx);
    lemma_span_values();
    lemma_span_bound(p as int);
    lemma_span_divides(q, p as int);
    let s = span(p as int) as int;
    let t = span(q) as int;
    let n = net as int;
    let x = h as int;
    assert(0 <= x % s < s) by (nonlinear_arith)
        requires
            s > 0,
    ;
    assert(n % s == 0) by (nonlinear_arith)
        requires
            n % t == 0,
            t % s == 0,
            s > 0,
            t > 0,
    {
        let k = n / t;
        let m = t / s;
        assert(n == t * k);
        assert(t == s * m);
        assert(n == s * (m * k)) by (nonlinear_arith)
            requires
                n == t * k,
                t == s * m,
        ;
        assert((s * (m * k)) % s == 0) by (nonlinear_arith)
            requires
                s > 0,
        ;
    }
}

/// Remap every host in the capture in place, recomputing checksums on changed
/// frames. Deterministic for a given capture and seed. Frames that would still
/// carry a real or public address are dropped.
pub fn remap_capture(
    cap: &mut Capture,
    hints: &[Ipv4Net],
    seed: u64,
    remap_mac: bool,
) -> (r: RemapSummary)
    requires
        nets_wf(hints@),
    ensures
        final(cap).header == old(cap).header,
        ({
            let hosts = hosts_in(frames(old(cap)@));
            let gs = group_list(hosts, hints@);
            let nets = assign_nets(gs, seeded_words(seed)).0;
            let hm = HostMap {
                addrs: moved_hosts(hosts, hints@, seed),
                macs: Map::empty(),
                seed,
                remap_mac,
            };
            &&& is_group_list(gs, hosts, hints@)
            &&& all_in_ten(nets)
            &&& final(cap)@ == old(cap)@.map_values(
                |p: PacketModel| p.with_data(hm.frame(p.data)),
            ).filter(|p: PacketModel| safe_frame(p.data))
            &&& r.host_count == hosts.len()
            &&& hosts.finite()
            &&& r.subnets@.len() == gs.len()
            &&& forall|i: int|
                0 <= i < gs.len() ==> {
                    &&& (#[trigger] r.subnets@[i]).0@ == net_text(
                        Ipv4Net { addr: gs[i].1, prefix: gs[i].0 },
                    )
                    &&& r.subnets@[i].1@ == net_text(Ipv4Net { addr: nets[i].0, prefix: gs[i].0 })
                }
        }),
{
    let mut rng = rng_from_seed(seed);
    let hosts: Vec<u32> = collect_hosts(cap);
    let gs: Vec<(u8, u32)> = collect_groups(hosts.as_slice(), hints);
    let ghost host_set = hosts_in(frames(old(cap)@));
    let ghost words = seeded_words(seed);
    proof {
        lemma_group_list(gs@, host_set, hints@);
        assert(gs@.take(0) =~= Seq::empty());
    }

    // Assign each old group a fresh, non-overlapping new network in 10/8.
    let mut assigned: Vec<(u32, u8)> = Vec::new();
    let mut subnets: Vec<(String, String)> = Vec::new();
    let mut i: usize = 0;
    while i < gs.len()
        invariant
            i <= gs@.len(),
            is_group_list(gs@, host_set, hints@),
            nets_wf(hints@),
            (assigned@, rng_words(rng)) == assign_nets(gs@.take(i as int), words),
            prefixes_ok(assigned@),
            all_in_ten(assigned@),
            assigned@.len() == i,
            subnets@.len() == i,
            forall|k: int|
                0 <= k < i ==> {
                    &&& (#[trigger] subnets@[k]).0@ == net_text(
                        Ipv4Net { addr: gs@[k].1, prefix: gs@[k].0 },
                    )
                    &&& subnets@[k].1@ == net_text(
                        Ipv4Net { addr: assigned@[k].0, prefix: gs@[k].0 },
                    )
                },
        decreases gs@.len() - i,
    {
        proof {
            assert(gs@.take(i as int + 1).drop_last() =~= gs@.take(i as int));
            assert(has_host(gs@[i as int], host_set, hints@));
            let h = choose|h: u32| #[trigger]
                host_set.contains(h) && group(h, hints@) == gs@[i as int];
            lemma_group(h, hints@);
        }
        let g: (u8, u32) = gs[i];
        let net: u32 = pick_new_net(g.0, &mut rng, assigned.as_slice());
        subnets.push(
            (
                (Ipv4Net { addr: g.1, prefix: g.0 }).to_text(),
                (Ipv4Net { addr: net, prefix: g.0 }).to_text(),
            ),
        );
        assigned.push((net, g.0));
        i += 1;
    }
    proof {
        assert(gs@.take(i as int) =~= gs@);
        lemma_assign_len(gs@, words);
    }

    // Build the host bijection, preserving the host offset within the subnet.
    let mut map: HashMap<u32, u32> = HashMap::new();
    let mut j: usize = 0;
    while j < hosts.len()
        invariant
            j <= hosts@.len(),
            hosts@.to_set() == host_set,
            hosts@.no_duplicates(),
            nets_wf(hints@),
            is_group_list(gs@, host_set, hints@),
            assigned@ == assign_nets(gs@, words).0,
            assigned@.len() == gs@.len(),
            all_in_ten(assigned@),
            forall|k: int| 0 <= k < gs@.len() ==> (#[trigger] assigned@[k]).1 == gs@[k].0,
            map@.dom() == hosts@.take(j as int).to_set(),
            forall|k: int|
                0 <= k < j ==> map@[#[trigger] hosts@[k]] == moved(
                    hosts@[k],
                    gs@,
                    assigned@,
                    hints@,
                ),
        decreases hosts@.len() - j,
    {
        let host: u32 = hosts[j];
        proof {
            assert(host_set.contains(host));
            lemma_group(host, hints@);
        }
        let g: (u8, u32) = group_of(host, hints);
        let at: usize = find_group(gs.as_slice(), g);
        proof {
            lemma_moved_fits(assigned@[at as int].0, g.0, host);
        }
        let new_ip: u32 = (assigned[at].0 as u64 + host as u64 % span_of(g.0)) as u32;
        map.insert(host, new_ip);
        proof {
            let now = hosts@.take(j as int + 1);
            assert(now =~= hosts@.take(j as int).push(host));
            assert forall|x: u32| now.to_set().contains(x) <==> hosts@.take(
                j as int,
            ).to_set().contains(x) || x == host by {
                if hosts@.take(j as int).to_set().contains(x) {
                    let k = choose|k: int| 0 <= k < j && hosts@.take(j as int)[k] == x;
                    assert(now[k] == x);
                }
                if x == host {
                    assert(now[j as int] == x);
                }
                if now.to_set().contains(x) && x != host {
                    let k = choose|k: int| 0 <= k < now.len() && now[k] == x;
                    assert(hosts@.take(j as int)[k] == x);
                }
            }
            assert(map@.dom() =~= now.to_set());
        }
        j += 1;
    }
    proof {
        assert(hosts@.take(j as int) =~= hosts@);
        hosts@.unique_seq_to_set();
        let want = moved_hosts(host_set, hints@, seed);
        assert forall|h: u32| map@.dom().contains(h) implies map@[h] == want[h] by {
            assert(hosts@.to_set().contains(h));
            let k = choose|k: int| 0 <= k < hosts@.len() && hosts@[k] == h;
            assert(map@[hosts@[k]] == moved(h, gs@, assigned@, hints@));
        }
        assert(map@ =~= want);
    }
    let no_macs: HashMap<u32, [u8; 6]> = HashMap::new();
    apply_host_map(cap, &map, &no_macs, seed, remap_mac);
    drop_unsafe_frames(cap);
    RemapSummary { host_count: hosts.len(), subnets }
}

} // verus!
