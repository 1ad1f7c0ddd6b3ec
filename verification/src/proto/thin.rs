//! Thinning a capture before it is replayed.

use std::collections::HashSet;
use vstd::prelude::*;
use crate::bytes::{be16, be32, read_be16, read_be32};
use crate::pcapio::{Capture, OwnedPacket, PacketModel};
use crate::proto::frame::{layout_of, parse_layout};

verus! {

/// The frame fits a link of the given frame size.
pub open spec fn fits(max: int) -> spec_fn(PacketModel) -> bool {
    |p: PacketModel| p.data.len() <= max
}

/// The frame is an ARP message.
pub open spec fn is_arp(b: Seq<u8>) -> bool {
    layout_of(b) is Some && be16(b, layout_of(b)->0.l3 - 2) == 0x0806
}

/// The frame is not an ARP message.
pub open spec fn not_arp() -> spec_fn(PacketModel) -> bool {
    |p: PacketModel| !is_arp(p.data)
}

fn carries_arp(b: &[u8]) -> (r: bool)
    ensures
        r == is_arp(b@),
{
    match parse_layout(b) {
        Some(l) => read_be16(b, l.l3 - 2) == 0x0806,
        None => false,
    }
}

/// Drop every frame longer than `max` bytes: one frame over the link's size makes
/// a replay abort. Returns the number of frames dropped.
pub fn drop_oversize_frames(cap: &mut Capture, max: usize) -> (dropped: usize)
    ensures
        final(cap).header == old(cap).header,
        final(cap)@ == old(cap)@.filter(fits(max as int)),
        dropped == old(cap)@.len() - final(cap)@.len(),
{
    let before: usize = cap.packets.len();
    let mut all: Vec<OwnedPacket> = Vec::new();
    core::mem::swap(&mut all, &mut cap.packets);
    let ghost packets = all@;
    let ghost models = old(cap)@;
    proof {
        assert(models.take(0) =~= Seq::empty());
        reveal(Seq::filter);
    }
    for p in it: all
        invariant
            it.seq() == packets,
            models == packets.map_values(|p: OwnedPacket| p@),
            cap.header == old(cap).header,
            cap@ == models.take(it.index()).filter(fits(max as int)),
            cap.packets@.len() <= it.index(),
    {
        let ghost n = it.index();
        proof {
            reveal(Seq::filter);
            assert(models.take(n + 1).drop_last() =~= models.take(n));
            assert(models.take(n + 1).last() == p@);
        }
        let ghost kept = cap.packets@;
        if p.data.len() <= max {
            cap.packets.push(p);
            proof {
                assert(cap@ =~= kept.map_values(|p: OwnedPacket| p@).push(p@));
            }
        }
    }
    proof {
        assert(models.take(models.len() as int) =~= models);
    }
    before - cap.packets.len()
}

/// Drop the capture's own ARP: the identity burst supplies the bindings. Returns
/// the number of frames dropped.
pub fn drop_arp_frames(cap: &mut Capture) -> (dropped: usize)
    ensures
        final(cap).header == old(cap).header,
        final(cap)@ == old(cap)@.filter(not_arp()),
        dropped == old(cap)@.len() - final(cap)@.len(),
{
    let before: usize = cap.packets.len();
    let mut all: Vec<OwnedPacket> = Vec::new();
    core::mem::swap(&mut all, &mut cap.packets);
    let ghost packets = all@;
    let ghost models = old(cap)@;
    proof {
        assert(models.take(0) =~= Seq::empty());
        reveal(Seq::filter);
    }
    for p in it: all
        invariant
            it.seq() == packets,
            models == packets.map_values(|p: OwnedPacket| p@),
            cap.header == old(cap).header,
            cap@ == models.take(it.index()).filter(not_arp()),
            cap.packets@.len() <= it.index(),
    {
        let ghost n = it.index();
        proof {
            reveal(Seq::filter);
            assert(models.take(n + 1).drop_last() =~= models.take(n));
            assert(models.take(n + 1).last() == p@);
        }
        let ghost kept = cap.packets@;
        if !carries_arp(p.data.as_slice()) {
            cap.packets.push(p);
            proof {
                assert(cap@ =~= kept.map_values(|p: OwnedPacket| p@).push(p@));
            }
        }
    }
    proof {
        assert(models.take(models.len() as int) =~= models);
    }
    before - cap.packets.len()
}

/// The frame's payload holds one of the addresses, in network order.
pub open spec fn embeds(b: Seq<u8>, hosts: Set<u32>) -> bool {
    layout_of(b) is Some && exists|i: int|
        layout_of(b)->0.payload <= i && i + 4 <= b.len() && hosts.contains(
            #[trigger] address_at(b, i),
        )
}

/// The address that four bytes make up.
pub open spec fn address_at(b: Seq<u8>, i: int) -> u32 {
    be32(b, i) as u32
}

/// The frame's payload holds none of the addresses.
pub open spec fn clean_of(hosts: Set<u32>) -> spec_fn(PacketModel) -> bool {
    |p: PacketModel| !embeds(p.data, hosts)
}

fn holds_address(b: &[u8], hosts: &HashSet<u32>) -> (r: bool)
    ensures
        r == embeds(b@, hosts@),
{
    match parse_layout(b) {
        None => false,
        Some(l) => {
            if b.len() < 4 {
                return false;
            }
            let mut i: usize = l.payload;
            while i <= b.len() - 4
                invariant
                    b.len() >= 4,
                    layout_of(b@) == Some(l),
                    l.payload <= i,
                    i <= b.len() - 4 + 1 || i == l.payload,
                    forall|k: int|
                        l.payload <= k < i && k + 4 <= b@.len() ==> !hosts@.contains(
                            #[trigger] address_at(b@, k),
                        ),
                decreases b@.len() + 1 - i,
            {
                let a: u32 = read_be32(b, i);
                if hosts.contains(&a) {
                    proof {
                        assert(address_at(b@, i as int) == a);
                    }
                    return true;
                }
                i += 1;
            }
            false
        },
    }
}

/// Drop every frame whose payload holds one of the addresses, so that a host that
/// was moved does not surface inside one. Returns the number of frames dropped.
pub fn drop_embedding_frames(cap: &mut Capture, hosts: &HashSet<u32>) -> (dropped: usize)
    ensures
        final(cap).header == old(cap).header,
        final(cap)@ == old(cap)@.filter(clean_of(hosts@)),
        dropped == old(cap)@.len() - final(cap)@.len(),
{
    let before: usize = cap.packets.len();
    let mut all: Vec<OwnedPacket> = Vec::new();
    core::mem::swap(&mut all, &mut cap.packets);
    let ghost packets = all@;
    let ghost models = old(cap)@;
    proof {
        assert(models.take(0) =~= Seq::empty());
        reveal(Seq::filter);
    }
    for p in it: all
        invariant
            it.seq() == packets,
            models == packets.map_values(|p: OwnedPacket| p@),
            cap.header == old(cap).header,
            cap@ == models.take(it.index()).filter(clean_of(hosts@)),
            cap.packets@.len() <= it.index(),
    {
        let ghost n = it.index();
        proof {
            reveal(Seq::filter);
            assert(models.take(n + 1).drop_last() =~= models.take(n));
            assert(models.take(n + 1).last() == p@);
        }
        let ghost kept = cap.packets@;
        if !holds_address(p.data.as_slice(), hosts) {
            cap.packets.push(p);
            proof {
                assert(cap@ =~= kept.map_values(|p: OwnedPacket| p@).push(p@));
            }
        }
    }
    proof {
        assert(models.take(models.len() as int) =~= models);
    }
    before - cap.packets.len()
}

} // verus!
