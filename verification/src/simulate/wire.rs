//! The frames that bind an asset: the resolution of its address, and the lookup of
//! its name.

use vstd::prelude::*;
use vstd::string::StringSliceAdditionalSpecFns;
use crate::bytes::{be16, be32, overwrite, push_be16, push_bytes, write_bytes};
use crate::proto::frame::{
    checksums_hold, law_layout_depends_on_headers, law_layout_in_bounds,
    law_mac_edit_keeps_checksums, layout_of, with_checksums,
};
use crate::proto::l3::{arp_ipv4, ip_bytes, octets};
use crate::proto::testutil::{build_udp, udp_raw};

verus! {

/// An ARP message from the host at `spa` with `sha` to the one at `tpa`, sent to
/// the MAC `dst` and padded to the shortest frame that a link carries.
pub open spec fn arp_bytes(
    dst: Seq<u8>,
    oper: u8,
    sha: Seq<u8>,
    spa: u32,
    tha: Seq<u8>,
    tpa: u32,
) -> Seq<u8> {
    dst + sha + seq![0x08u8, 0x06, 0x00, 0x01, 0x08, 0x00, 0x06, 0x04, 0x00, oper] + sha + ip_bytes(
        spa,
    ) + tha + ip_bytes(tpa) + Seq::new(18, |i: int| 0u8)
}

fn arp_message(
    dst: [u8; 6],
    oper: u8,
    sha: [u8; 6],
    spa: u32,
    tha: [u8; 6],
    tpa: u32,
) -> (r: Vec<u8>)
    ensures
        r@ == arp_bytes(dst@, oper, sha@, spa, tha@, tpa),
{
    let mut b: Vec<u8> = Vec::new();
    push_bytes(&mut b, dst.as_slice());
    push_bytes(&mut b, sha.as_slice());
    let head: [u8; 10] = [0x08, 0x06, 0x00, 0x01, 0x08, 0x00, 0x06, 0x04, 0x00, oper];
    push_bytes(&mut b, head.as_slice());
    push_bytes(&mut b, sha.as_slice());
    push_bytes(&mut b, octets(spa).as_slice());
    push_bytes(&mut b, tha.as_slice());
    push_bytes(&mut b, octets(tpa).as_slice());
    let pad: [u8; 18] = [0; 18];
    push_bytes(&mut b, pad.as_slice());
    proof {
        assert(head@ =~= seq![0x08u8, 0x06, 0x00, 0x01, 0x08, 0x00, 0x06, 0x04, 0x00, oper]);
        assert(pad@ =~= Seq::new(18, |i: int| 0u8));
        assert(b@ =~= arp_bytes(dst@, oper, sha@, spa, tha@, tpa));
    }
    b
}

/// A resolution: a broadcast who-has request, and the owner's unicast is-at reply.
pub fn resolve(
    requester_mac: [u8; 6],
    requester_ip: u32,
    owner_mac: [u8; 6],
    owner_ip: u32,
) -> (r: (Vec<u8>, Vec<u8>))
    ensures
        r.0@ == arp_bytes(
            Seq::new(6, |i: int| 0xffu8),
            1,
            requester_mac@,
            requester_ip,
            Seq::new(6, |i: int| 0u8),
            owner_ip,
        ),
        r.1@ == arp_bytes(
            requester_mac@,
            2,
            owner_mac@,
            owner_ip,
            requester_mac@,
            requester_ip,
        ),
{
    let all: [u8; 6] = [0xff; 6];
    let none: [u8; 6] = [0; 6];
    proof {
        assert(all@ =~= Seq::new(6, |i: int| 0xffu8));
        assert(none@ =~= Seq::new(6, |i: int| 0u8));
    }
    (
        arp_message(all, 1, requester_mac, requester_ip, none, owner_ip),
        arp_message(requester_mac, 2, owner_mac, owner_ip, requester_mac, requester_ip),
    )
}

/// An ARP message reads back: it is sent by its sender's MAC, carries both
/// addresses, and is no shorter than a link carries.
pub proof fn law_arp_message_reads_back(
    dst: Seq<u8>,
    oper: u8,
    sha: Seq<u8>,
    spa: u32,
    tha: Seq<u8>,
    tpa: u32,
)
    requires
        dst.len() == 6,
        sha.len() == 6,
        tha.len() == 6,
    ensures
        ({
            let b = arp_bytes(dst, oper, sha, spa, tha, tpa);
            &&& b.len() == 60
            &&& b.take(6) == dst
            &&& b.subrange(6, 12) == sha
            &&& layout_of(b) is Some
            &&& layout_of(b)->0.l3 == 14
            &&& arp_ipv4(b, 14)
            &&& b[21] == oper
            &&& b.subrange(22, 28) == sha
            &&& be32(b, 28) == spa
            &&& b.subrange(32, 38) == tha
            &&& be32(b, 38) == tpa
        }),
{
    let b = arp_bytes(dst, oper, sha, spa, tha, tpa);
    assert(b.take(6) =~= dst);
    assert(b.subrange(6, 12) =~= sha);
    assert(b.subrange(22, 28) =~= sha);
    assert(b.subrange(32, 38) =~= tha);
    assert(be16(b, 12) == 0x0806);
    assert(b.subrange(28, 32) =~= ip_bytes(spa));
    assert(b.subrange(38, 42) =~= ip_bytes(tpa));
    crate::proto::l3_laws::lemma_ip_bytes_read(b, 28, spa);
    crate::proto::l3_laws::lemma_ip_bytes_read(b, 38, tpa);
}

/// The place of the first dot of a name, or its length.
pub open spec fn first_dot(s: Seq<u8>) -> nat
    decreases s.len(),
{
    if s.len() == 0 || s[0] == 0x2e {
        0
    } else {
        1 + first_dot(s.drop_first())
    }
}

/// A label: its length and its bytes, sixty-three at most.
pub open spec fn label_bytes(s: Seq<u8>) -> Seq<u8> {
    let n = if s.len() < 63 {
        s.len() as int
    } else {
        63
    };
    seq![n as u8] + s.take(n)
}

/// A name as a lookup carries it: label by label, and the empty label behind.
pub open spec fn name_bytes(s: Seq<u8>) -> Seq<u8>
    decreases s.len(),
{
    let n = first_dot(s) as int;
    if n >= s.len() {
        label_bytes(s) + seq![0u8]
    } else {
        label_bytes(s.take(n)) + name_bytes(s.skip(n + 1))
    }
}

/// Append a name, label by label.
fn push_name(b: &mut Vec<u8>, name: &[u8])
    ensures
        final(b)@ == old(b)@ + name_bytes(name@),
{
    let mut from: usize = 0;
    let mut i: usize = 0;
    proof {
        assert(name@.skip(0) =~= name@);
        assert(name@.subrange(0, 0) =~= Seq::empty());
    }
    while i < name.len()
        invariant
            from <= i <= name@.len(),
            b@ + name_bytes(name@.skip(from as int)) == old(b)@ + name_bytes(name@),
            first_dot(name@.skip(from as int)) == i - from + first_dot(name@.skip(i as int)),
        decreases name@.len() - i,
    {
        let ghost rest = name@.skip(from as int);
        proof {
            assert(name@.skip(i as int).drop_first() =~= name@.skip(i as int + 1));
        }
        if name[i] == 0x2e {
            let ghost before = b@;
            push_label(b, name, from, i);
            proof {
                assert(rest.take(i - from) =~= name@.subrange(from as int, i as int));
                assert(rest.skip(i - from + 1) =~= name@.skip(i as int + 1));
                assert(before + name_bytes(rest) =~= b@ + name_bytes(name@.skip(i as int + 1)));
            }
            from = i + 1;
        }
        i += 1;
    }
    push_label(b, name, from, i);
    proof {
        assert(name@.skip(from as int) =~= name@.subrange(from as int, i as int));
    }
    let ghost done = b@;
    b.push(0);
    proof {
        assert(b@ =~= done + seq![0u8]);
        assert(b@ =~= old(b)@ + name_bytes(name@));
    }
}

fn push_label(b: &mut Vec<u8>, name: &[u8], from: usize, to: usize)
    requires
        from <= to <= name@.len(),
    ensures
        final(b)@ == old(b)@ + label_bytes(name@.subrange(from as int, to as int)),
{
    let n: usize = if to - from < 63 {
        to - from
    } else {
        63
    };
    b.push(n as u8);
    let ghost head = b@;
    let mut i: usize = 0;
    while i < n
        invariant
            i <= n,
            from + n <= to <= name@.len(),
            b@ == head + name@.subrange(from as int, from + i),
        decreases n - i,
    {
        b.push(name[from + i]);
        proof {
            assert(name@.subrange(from as int, from + i + 1) =~= name@.subrange(
                from as int,
                from + i,
            ).push(name@[from + i]));
        }
        i += 1;
    }
    proof {
        assert(name@.subrange(from as int, to as int).take(n as int) =~= name@.subrange(
            from as int,
            from + n,
        ));
        assert(b@ =~= old(b)@ + label_bytes(name@.subrange(from as int, to as int)));
    }
}

/// The question of a lookup: the address of a name.
pub open spec fn question(name: Seq<u8>) -> Seq<u8> {
    name_bytes(name) + seq![0u8, 1, 0, 1]
}

/// A query for the address of a name.
pub open spec fn query_bytes(id: u16, name: Seq<u8>) -> Seq<u8> {
    seq![(id / 256) as u8, (id % 256) as u8, 1, 0, 0, 1, 0, 0, 0, 0, 0, 0] + question(name)
}

/// The answer that a name has the address, for an hour.
pub open spec fn answer_bytes(id: u16, name: Seq<u8>, ip: u32) -> Seq<u8> {
    seq![(id / 256) as u8, (id % 256) as u8, 0x81, 0x80, 0, 1, 0, 1, 0, 0, 0, 0] + question(name)
        + seq![0xc0u8, 0x0c, 0, 1, 0, 1, 0, 0, 0x0e, 0x10, 0, 4] + ip_bytes(ip)
}

/// A UDP frame between two hosts and their MACs.
pub open spec fn udp_frame(
    src_mac: Seq<u8>,
    dst_mac: Seq<u8>,
    src: u32,
    dst: u32,
    sport: u16,
    dport: u16,
    payload: Seq<u8>,
) -> Seq<u8> {
    let raw = udp_raw(ip_bytes(src), ip_bytes(dst), sport, dport, payload);
    overwrite(overwrite(with_checksums(raw, layout_of(raw)->0), 0, dst_mac), 6, src_mac)
}

fn udp_between(
    src_mac: [u8; 6],
    dst_mac: [u8; 6],
    src: u32,
    dst: u32,
    sport: u16,
    dport: u16,
    payload: &[u8],
) -> (r: Vec<u8>)
    requires
        payload@.len() <= 60000,
    ensures
        r@ == udp_frame(src_mac@, dst_mac@, src, dst, sport, dport, payload@),
        layout_of(r@) is Some,
        checksums_hold(r@, layout_of(r@)->0),
{
    let mut b = build_udp(octets(src), octets(dst), sport, dport, payload);
    let ghost built = b@;
    let ghost l = layout_of(built)->0;
    proof {
        law_layout_in_bounds(built);
    }
    write_bytes(b.as_mut_slice(), 0, dst_mac.as_slice());
    let ghost one = b@;
    write_bytes(b.as_mut_slice(), 6, src_mac.as_slice());
    proof {
        law_mac_edit_keeps_checksums(built, l, 0, dst_mac@);
        law_mac_edit_keeps_checksums(one, l, 6, src_mac@);
        law_layout_depends_on_headers(built, b@, l);
    }
    b
}

/// A lookup of a host's name at a resolver: the query and the answer. A name longer
/// than a lookup carries has none.
pub fn lookup(
    host_mac: [u8; 6],
    resolver_mac: [u8; 6],
    host_ip: u32,
    resolver_ip: u32,
    port: u16,
    id: u16,
    name: &str,
) -> (r: Option<(Vec<u8>, Vec<u8>)>)
    ensures
        match r {
            Some(f) => {
                &&& name.spec_bytes().len() <= 255
                &&& f.0@ == udp_frame(
                    host_mac@,
                    resolver_mac@,
                    host_ip,
                    resolver_ip,
                    port,
                    53,
                    query_bytes(id, name.spec_bytes()),
                )
                &&& f.1@ == udp_frame(
                    resolver_mac@,
                    host_mac@,
                    resolver_ip,
                    host_ip,
                    53,
                    port,
                    answer_bytes(id, name.spec_bytes(), host_ip),
                )
                &&& layout_of(f.0@) is Some && checksums_hold(f.0@, layout_of(f.0@)->0)
                &&& layout_of(f.1@) is Some && checksums_hold(f.1@, layout_of(f.1@)->0)
            },
            None => name.spec_bytes().len() > 255,
        },
{
    let bytes = name.as_bytes();
    if bytes.len() > 255 {
        return None;
    }
    proof {
        lemma_name_len(bytes@);
    }
    let mut query: Vec<u8> = Vec::new();
    push_be16(&mut query, id);
    let asks: [u8; 10] = [1, 0, 0, 1, 0, 0, 0, 0, 0, 0];
    push_bytes(&mut query, asks.as_slice());
    push_name(&mut query, bytes);
    let kind: [u8; 4] = [0, 1, 0, 1];
    push_bytes(&mut query, kind.as_slice());
    let mut answer: Vec<u8> = Vec::new();
    push_be16(&mut answer, id);
    let tells: [u8; 10] = [0x81, 0x80, 0, 1, 0, 1, 0, 0, 0, 0];
    push_bytes(&mut answer, tells.as_slice());
    push_name(&mut answer, bytes);
    push_bytes(&mut answer, kind.as_slice());
    let record: [u8; 12] = [0xc0, 0x0c, 0, 1, 0, 1, 0, 0, 0x0e, 0x10, 0, 4];
    push_bytes(&mut answer, record.as_slice());
    push_bytes(&mut answer, octets(host_ip).as_slice());
    proof {
        assert(query@ =~= query_bytes(id, bytes@));
        assert(answer@ =~= answer_bytes(id, bytes@, host_ip));
    }
    Some(
        (
            udp_between(
                host_mac,
                resolver_mac,
                host_ip,
                resolver_ip,
                port,
                53,
                query.as_slice(),
            ),
            udp_between(
                resolver_mac,
                host_mac,
                resolver_ip,
                host_ip,
                53,
                port,
                answer.as_slice(),
            ),
        ),
    )
}

/// A name takes at most two bytes more than it has.
proof fn lemma_name_len(s: Seq<u8>)
    ensures
        name_bytes(s).len() <= s.len() + 2,
    decreases s.len(),
{
    let n = first_dot(s) as int;
    lemma_first_dot(s);
    if n < s.len() {
        lemma_name_len(s.skip(n + 1));
    }
}

proof fn lemma_first_dot(s: Seq<u8>)
    ensures
        first_dot(s) <= s.len(),
    decreases s.len(),
{
    if s.len() > 0 && s[0] != 0x2e {
        lemma_first_dot(s.drop_first());
    }
}

} // verus!
