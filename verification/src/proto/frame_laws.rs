//! Where the parts of a frame stand, and what its checksums come to.

use vstd::prelude::*;
use crate::bytes::be16;
use crate::proto::frame::{
    ip_sum, l4_sum, law_layout_in_bounds, law_recompute_keeps_layout, law_recompute_validates,
    layout_of, lemma_word_sum_push2, link_header, pseudo_header, with_checksums, word_sum,
    FrameLayout, L3Kind, L4Kind,
};

verus! {

/// The two bytes at `at` announce a VLAN tag: 81 00 or 88 A8.
pub open spec fn tag_at(b: Seq<u8>, at: int) -> bool {
    (b[at] == 0x81 && b[at + 1] == 0x00) || (b[at] == 0x88 && b[at + 1] == 0xa8)
}

/// The frame has `n` VLAN tags, one behind the other from byte 12 on, and no more.
pub open spec fn tagged(b: Seq<u8>, n: int) -> bool {
    &&& 0 <= n
    &&& b.len() >= 14 + 4 * n
    &&& forall|k: int| 0 <= k < n ==> #[trigger] tag_at(b, 12 + 4 * k)
    &&& !tag_at(b, 12 + 4 * n)
}

proof fn lemma_link_header(b: Seq<u8>, n: int, k: int)
    requires
        tagged(b, n),
        0 <= k <= n,
    ensures
        link_header(b, 12 + 4 * k) == Some((14 + 4 * n, be16(b, 12 + 4 * n))),
    decreases n - k,
{
    if k < n {
        assert(tag_at(b, 12 + 4 * k));
        lemma_link_header(b, n, k + 1);
    }
}

/// Behind its VLAN tags, however many, the packet of a parsed frame starts. An
/// IPv4 packet has its transport header behind as many words as its header length
/// says; a TCP payload starts behind as many words as its data offset says, a UDP
/// payload behind eight bytes; and the packet ends where its total length says, or
/// with the frame.
pub proof fn law_parts_of_a_frame(b: Seq<u8>, n: int)
    requires
        tagged(b, n),
        layout_of(b) is Some,
        b.len() <= usize::MAX,
    ensures
        ({
            let l = layout_of(b)->0;
            let l3 = 14 + 4 * n;
            let stop = l3 + be16(b, l3 + 2);
            &&& l.l3 == l3
            &&& l.l3_kind == L3Kind::Ipv4 <==> b[l3 - 2] == 0x08 && b[l3 - 1] == 0x00
            &&& l.l3_kind == L3Kind::Ipv4 ==> {
                &&& b[l3] / 16 == 4
                &&& l.ihl == b[l3] as int % 16 * 4
                &&& l.l4 == l3 + b[l3] as int % 16 * 4
                &&& stop <= b.len() ==> l.end == stop
                &&& stop > b.len() ==> l.end == b.len()
                &&& l.l4_kind == L4Kind::Tcp <==> b[l3 + 9] == 6
                &&& l.l4_kind == L4Kind::Udp <==> b[l3 + 9] == 17
                &&& l.l4_kind == L4Kind::Tcp && l.l4 + b[l.l4 + 12] as int / 16 * 4 <= l.end
                    ==> l.payload == l.l4 + b[l.l4 + 12] as int / 16 * 4
                &&& l.l4_kind == L4Kind::Udp && l.l4 + 8 <= l.end ==> l.payload == l.l4 + 8
            }
        }),
{
    law_layout_in_bounds(b);
    lemma_link_header(b, n, 0);
}

proof fn lemma_ten_words(s: Seq<u8>)
    requires
        s.len() == 20,
    ensures
        word_sum(s) == be16(s, 0) + be16(s, 2) + be16(s, 4) + be16(s, 6) + be16(s, 8) + be16(s, 10)
            + be16(s, 12) + be16(s, 14) + be16(s, 16) + be16(s, 18),
{
    assert(s.take(0) =~= Seq::empty());
    assert(word_sum(s.take(0)) == 0);
    lemma_word_sum_push2(s, 0);
    lemma_word_sum_push2(s, 2);
    lemma_word_sum_push2(s, 4);
    lemma_word_sum_push2(s, 6);
    lemma_word_sum_push2(s, 8);
    lemma_word_sum_push2(s, 10);
    lemma_word_sum_push2(s, 12);
    lemma_word_sum_push2(s, 14);
    lemma_word_sum_push2(s, 16);
    lemma_word_sum_push2(s, 18);
    assert(s.take(20) =~= s);
}

/// With its checksums filled in, the ten words of an IPv4 header without options
/// sum to a multiple of 65535, as those of every valid header do.
pub proof fn law_header_words_sum_up(b: Seq<u8>, l: FrameLayout)
    requires
        layout_of(b) == Some(l),
        l.l3_kind == L3Kind::Ipv4,
        l.ihl == 20,
        l.csum_inside(),
        b.len() <= usize::MAX,
    ensures
        ({
            let c = with_checksums(b, l);
            let h = l.l3 as int;
            (be16(c, h) + be16(c, h + 2) + be16(c, h + 4) + be16(c, h + 6) + be16(c, h + 8) + be16(
                c,
                h + 10,
            ) + be16(c, h + 12) + be16(c, h + 14) + be16(c, h + 16) + be16(c, h + 18)) % 65535 == 0
        }),
{
    law_layout_in_bounds(b);
    law_recompute_validates(b, l);
    law_recompute_keeps_layout(b, l);
    let c = with_checksums(b, l);
    let h = l.l3 as int;
    let s = c.subrange(h, h + 20);
    lemma_ten_words(s);
    assert(ip_sum(c, l) % 65535 == 0);
}

/// With its checksums filled in, the pseudo header of a TCP or UDP segment (the two
/// addresses, the protocol, the length of the segment) and the segment itself sum
/// to a multiple of 65535.
pub proof fn law_segment_words_sum_up(b: Seq<u8>, l: FrameLayout)
    requires
        layout_of(b) == Some(l),
        l.l3_kind == L3Kind::Ipv4,
        l.l4_kind != L4Kind::Other,
        l.csum_inside(),
        b.len() <= usize::MAX,
    ensures
        ({
            let c = with_checksums(b, l);
            let h = l.l3 as int;
            (be16(c, h + 12) + be16(c, h + 14) + be16(c, h + 16) + be16(c, h + 18) + c[h + 9] + (
            l.end - l.l4) + word_sum(c.subrange(l.l4 as int, l.end as int))) % 65535 == 0
        }),
{
    law_layout_in_bounds(b);
    law_recompute_validates(b, l);
    law_recompute_keeps_layout(b, l);
    let c = with_checksums(b, l);
    let h = l.l3 as int;
    let s = pseudo_header(c, l);
    assert(s.take(0) =~= Seq::empty());
    assert(word_sum(s.take(0)) == 0);
    lemma_word_sum_push2(s, 0);
    lemma_word_sum_push2(s, 2);
    lemma_word_sum_push2(s, 4);
    lemma_word_sum_push2(s, 6);
    lemma_word_sum_push2(s, 8);
    lemma_word_sum_push2(s, 10);
    assert(s.take(12) =~= s);
    assert(be16(s, 0) == be16(c, h + 12));
    assert(be16(s, 2) == be16(c, h + 14));
    assert(be16(s, 4) == be16(c, h + 16));
    assert(be16(s, 6) == be16(c, h + 18));
    assert(be16(s, 8) == c[h + 9]);
    assert(be16(s, 10) == l.end - l.l4);
    assert(l4_sum(c, l) % 65535 == 0);
}

} // verus!
