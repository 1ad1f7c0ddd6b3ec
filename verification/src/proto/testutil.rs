//! Frame builders: assemble Ethernet + IPv4 + TCP/UDP around a payload, with
//! correct checksums.

use vstd::prelude::*;
use crate::bytes::{be16, push_be16, push_bytes};
use crate::proto::frame::{
    checksums_hold, law_recompute_keeps_layout, law_recompute_validates, layout_of, link_header,
    parse_layout, recompute_checksums, with_checksums, FrameLayout, L3Kind, L4Kind,
};

verus! {

/// The two bytes of a 16-bit value, high byte first.
pub open spec fn be_bytes(v: int) -> Seq<u8> {
    seq![(v / 256) as u8, (v % 256) as u8]
}

/// The Ethernet header and the IPv4 header, without its checksum, of a packet
/// of `total` bytes.
pub open spec fn packet_head(src: Seq<u8>, dst: Seq<u8>, total: int, proto: u8) -> Seq<u8> {
    seq![0x52u8, 0x54, 0, 0, 0, 1, 0x52, 0x54, 0, 0, 0, 2, 0x08, 0x00, 0x45, 0x00] + be_bytes(
        total % 65536,
    ) + seq![0u8, 0, 0x40, 0, 0x40, proto, 0, 0] + src + dst
}

/// A TCP frame around `payload`, before its checksums are filled in.
pub open spec fn tcp_raw(
    src: Seq<u8>,
    dst: Seq<u8>,
    sport: u16,
    dport: u16,
    payload: Seq<u8>,
) -> Seq<u8> {
    packet_head(src, dst, 40 + payload.len() as int, 6) + be_bytes(sport as int) + be_bytes(dport as int)
        + seq![0u8, 0, 0, 0, 0, 0, 0, 0, 0x50, 0x18, 0xff, 0xff, 0, 0, 0, 0] + payload
}

/// A UDP frame around `payload`, before its checksums are filled in.
pub open spec fn udp_raw(
    src: Seq<u8>,
    dst: Seq<u8>,
    sport: u16,
    dport: u16,
    payload: Seq<u8>,
) -> Seq<u8> {
    packet_head(src, dst, 28 + payload.len() as int, 17) + be_bytes(sport as int) + be_bytes(dport as int)
        + be_bytes((8 + payload.len() as int) % 65536) + seq![0u8, 0] + payload
}

proof fn lemma_packet_head(src: Seq<u8>, dst: Seq<u8>, total: int, proto: u8)
    requires
        src.len() == 4,
        dst.len() == 4,
        0 <= total,
    ensures
        ({
            let h = packet_head(src, dst, total, proto);
            &&& h.len() == 34
            &&& h[12] == 0x08 && h[13] == 0x00
            &&& h[14] == 0x45
            &&& be16(h, 16) == total % 65536
            &&& h[23] == proto
        }),
{
}

/// The layout of a frame that starts with such a head and goes on with a
/// 20-byte TCP header or an 8-byte UDP header.
proof fn lemma_built_layout(
    raw: Seq<u8>,
    src: Seq<u8>,
    dst: Seq<u8>,
    total: int,
    proto: u8,
    hdr: int,
)
    requires
        src.len() == 4,
        dst.len() == 4,
        0 <= total,
        total % 65536 >= 20,
        raw.len() == 14 + total,
        raw.len() <= usize::MAX,
        total >= 20 + hdr,
        raw.take(34) == packet_head(src, dst, total, proto),
        (proto == 6 && hdr == 20 && raw[46] == 0x50) || (proto == 17 && hdr == 8),
    ensures
        layout_of(raw) is Some,
        layout_of(raw)->0.l3_kind == L3Kind::Ipv4,
        layout_of(raw)->0.l4 == 34,
        layout_of(raw)->0.l4_kind == if proto == 6 {
            L4Kind::Tcp
        } else {
            L4Kind::Udp
        },
        total <= 65535 ==> layout_of(raw)->0.payload == 34 + hdr && layout_of(raw)->0.end
            == raw.len(),
{
    lemma_packet_head(src, dst, total, proto);
    let h = packet_head(src, dst, total, proto);
    assert forall|i: int| 0 <= i < 34 implies raw[i] == h[i] by {
        assert(raw[i] == raw.take(34)[i]);
    }
    assert(link_header(raw, 12) == Some((14int, 0x0800int)));
}

fn push_head(b: &mut Vec<u8>, src: [u8; 4], dst: [u8; 4], total: usize, proto: u8)
    requires
        old(b)@.len() == 0,
    ensures
        final(b)@ == packet_head(src@, dst@, total as int, proto),
{
    let head: [u8; 16] = [0x52, 0x54, 0, 0, 0, 1, 0x52, 0x54, 0, 0, 0, 2, 0x08, 0x00, 0x45, 0x00];
    push_bytes(b, head.as_slice());
    push_be16(b, (total % 65536) as u16);
    let mid: [u8; 8] = [0, 0, 0x40, 0, 0x40, proto, 0, 0];
    push_bytes(b, mid.as_slice());
    push_bytes(b, src.as_slice());
    push_bytes(b, dst.as_slice());
    proof {
        assert(b@ =~= packet_head(src@, dst@, total as int, proto));
    }
}

/// A TCP frame from `src:sport` to `dst:dport` carrying `payload`. The IPv4
/// length field holds the packet length modulo 65536, and has to cover the
/// header.
pub fn build_tcp(
    src: [u8; 4],
    dst: [u8; 4],
    sport: u16,
    dport: u16,
    payload: &[u8],
) -> (r: Vec<u8>)
    requires
        (40 + payload@.len()) % 65536 >= 20,
        payload@.len() + 54 <= usize::MAX,
    ensures
        ({
            let raw = tcp_raw(src@, dst@, sport, dport, payload@);
            layout_of(raw) is Some && r@ == with_checksums(raw, layout_of(raw)->0)
        }),
        40 + payload@.len() <= 65535 ==> {
            &&& layout_of(r@) is Some
            &&& checksums_hold(r@, layout_of(r@)->0)
            &&& r@.subrange(54, r@.len() as int) == payload@
        },
{
    let mut b: Vec<u8> = Vec::new();
    push_head(&mut b, src, dst, 40 + payload.len(), 6);
    push_be16(&mut b, sport);
    push_be16(&mut b, dport);
    let rest: [u8; 16] = [0, 0, 0, 0, 0, 0, 0, 0, 0x50, 0x18, 0xff, 0xff, 0, 0, 0, 0];
    push_bytes(&mut b, rest.as_slice());
    push_bytes(&mut b, payload);
    let ghost raw = tcp_raw(src@, dst@, sport, dport, payload@);
    proof {
        assert(b@ =~= raw);
        lemma_packet_head(src@, dst@, 40 + payload@.len() as int, 6);
        assert(raw.take(34) =~= packet_head(src@, dst@, 40 + payload@.len() as int, 6));
        lemma_built_layout(raw, src@, dst@, 40 + payload@.len() as int, 6, 20);
    }
    let l: FrameLayout = parse_layout(b.as_slice()).unwrap();
    recompute_checksums(b.as_mut_slice(), &l);
    proof {
        law_recompute_keeps_layout(raw, l);
        if 40 + payload@.len() <= 65535 {
            law_recompute_validates(raw, l);
            assert(raw.subrange(54, raw.len() as int) =~= payload@);
            assert(b@.subrange(54, b@.len() as int) =~= raw.subrange(54, raw.len() as int));
        }
    }
    b
}

/// A UDP frame from `src:sport` to `dst:dport` carrying `payload`. The length
/// fields hold their values modulo 65536, and the IPv4 one has to cover the
/// header.
pub fn build_udp(
    src: [u8; 4],
    dst: [u8; 4],
    sport: u16,
    dport: u16,
    payload: &[u8],
) -> (r: Vec<u8>)
    requires
        (28 + payload@.len()) % 65536 >= 20,
        payload@.len() + 42 <= usize::MAX,
    ensures
        ({
            let raw = udp_raw(src@, dst@, sport, dport, payload@);
            layout_of(raw) is Some && r@ == with_checksums(raw, layout_of(raw)->0)
        }),
        28 + payload@.len() <= 65535 ==> {
            &&& layout_of(r@) is Some
            &&& checksums_hold(r@, layout_of(r@)->0)
            &&& r@.subrange(42, r@.len() as int) == payload@
        },
{
    let mut b: Vec<u8> = Vec::new();
    push_head(&mut b, src, dst, 28 + payload.len(), 17);
    push_be16(&mut b, sport);
    push_be16(&mut b, dport);
    push_be16(&mut b, ((8 + payload.len()) % 65536) as u16);
    push_be16(&mut b, 0);
    push_bytes(&mut b, payload);
    let ghost raw = udp_raw(src@, dst@, sport, dport, payload@);
    proof {
        assert(b@ =~= raw);
        lemma_packet_head(src@, dst@, 28 + payload@.len() as int, 17);
        assert(raw.take(34) =~= packet_head(src@, dst@, 28 + payload@.len() as int, 17));
        lemma_built_layout(raw, src@, dst@, 28 + payload@.len() as int, 17, 8);
    }
    let l: FrameLayout = parse_layout(b.as_slice()).unwrap();
    recompute_checksums(b.as_mut_slice(), &l);
    proof {
        law_recompute_keeps_layout(raw, l);
        if 28 + payload@.len() <= 65535 {
            law_recompute_validates(raw, l);
            assert(raw.subrange(42, raw.len() as int) =~= payload@);
            assert(b@.subrange(42, b@.len() as int) =~= raw.subrange(42, raw.len() as int));
        }
    }
    b
}

} // verus!
