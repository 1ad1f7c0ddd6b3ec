//! Offset-checked access to L2 through L4 of one captured frame, with in-place
//! IPv4 and TCP/UDP checksum recompute.
//!
//! IPv4 only: IPv6 and non-IP frames are recognised as `Other` and left
//! untouched.

use vstd::prelude::*;
use crate::bytes::{be16, overwrite, put_be16, read_be16, write_be16, write_bytes};
use vstd::slice::slice_subrange;

verus! {

#[derive(Clone, Copy, Debug, PartialEq, Eq, Structural)]
pub enum L3Kind {
    Ipv4,
    Other,
}

#[derive(Clone, Copy, Debug, PartialEq, Eq, Structural)]
pub enum L4Kind {
    Tcp,
    Udp,
    Other,
}

/// Byte offsets into a frame buffer. `end` is the end of the IP packet within
/// the buffer, without any Ethernet padding, so checksums and payload slices
/// cover exactly the IP payload.
#[derive(Clone, Copy, Debug, PartialEq, Eq, Structural)]
pub struct FrameLayout {
    pub l3: usize,
    pub l3_kind: L3Kind,
    pub ihl: usize,
    pub l4: usize,
    pub l4_kind: L4Kind,
    pub payload: usize,
    pub end: usize,
}

impl FrameLayout {
    /// The offsets address a buffer of `len` bytes.
    pub open spec fn fits(self, len: int) -> bool {
        &&& self.l3_kind == L3Kind::Ipv4 ==> {
            &&& self.l3 + 20 <= len
            &&& self.l3 + self.ihl <= len
            &&& self.ihl <= 0xffff
            &&& self.l4 <= len
            &&& self.end <= len
            &&& self.end - self.l4 <= 0xffff
        }
        &&& self.l4_kind != L4Kind::Other ==> self.l3_kind == L3Kind::Ipv4
    }

    /// What every layout read from a frame of `len` bytes satisfies.
    pub open spec fn parsed_from(self, len: int) -> bool {
        &&& 14 <= self.l3 <= self.l4
        &&& self.l4 <= self.payload
        &&& self.payload <= self.end
        &&& self.end <= len
        &&& self.l3_kind == L3Kind::Ipv4 ==> {
            &&& 20 <= self.ihl <= 60
            &&& self.l3 + self.ihl == self.l4
            &&& self.end - self.l3 <= 0xffff
        }
        &&& self.l4_kind != L4Kind::Other ==> self.l3_kind == L3Kind::Ipv4
        &&& self.l4_kind == L4Kind::Tcp ==> {
            &&& self.l4 + 20 <= len
            &&& self.payload == self.end || self.payload >= self.l4 + 20
        }
        &&& self.l4_kind == L4Kind::Udp ==> self.l4 + 8 <= len
    }

    /// Where the transport checksum sits, counted from `l4`.
    pub open spec fn csum_off(self) -> int {
        if self.l4_kind == L4Kind::Tcp {
            16
        } else {
            6
        }
    }

    /// The IP packet is long enough to hold the transport checksum.
    pub open spec fn csum_inside(self) -> bool {
        self.l4_kind != L4Kind::Other ==> self.l4 + self.csum_off() + 2 <= self.end
    }
}

/// An ethertype that announces a VLAN tag.
pub open spec fn is_vlan(ethertype: int) -> bool {
    ethertype == 0x8100 || ethertype == 0x88a8
}

/// The offset behind the link header and its ethertype, given that an ethertype
/// stands at `at`: VLAN tags are stepped over, however many there are. `None`
/// when a tag is cut off.
pub open spec fn link_header(b: Seq<u8>, at: int) -> Option<(int, int)>
    decreases b.len() - at,
{
    if is_vlan(be16(b, at)) {
        if b.len() < at + 6 {
            None
        } else {
            link_header(b, at + 4)
        }
    } else {
        Some((at + 2, be16(b, at)))
    }
}

pub open spec fn min_int(a: int, b: int) -> int {
    if a <= b {
        a
    } else {
        b
    }
}

/// The transport kind and header length that the IPv4 protocol number at
/// `l3 + 9` announces. `None` when the transport header is cut off.
pub open spec fn transport_header(b: Seq<u8>, l3: int, l4: int) -> Option<(L4Kind, int)> {
    if b[l3 + 9] == 6 {
        let data_off = b[l4 + 12] as int / 16 * 4;
        if b.len() < l4 + 20 || data_off < 20 || b.len() < l4 + data_off {
            None
        } else {
            Some((L4Kind::Tcp, data_off))
        }
    } else if b[l3 + 9] == 17 {
        if b.len() < l4 + 8 {
            None
        } else {
            Some((L4Kind::Udp, 8))
        }
    } else {
        Some((L4Kind::Other, 0))
    }
}

/// The layout of the IPv4 packet that starts at `l3`.
pub open spec fn ipv4_layout(b: Seq<u8>, l3: int) -> Option<FrameLayout> {
    let ihl = b[l3] as int % 16 * 4;
    let total = be16(b, l3 + 2);
    let l4 = l3 + ihl;
    let end = min_int(l3 + total, b.len() as int);
    if b.len() < l3 + 20 || b[l3] as int / 16 != 4 || ihl < 20 || b.len() < l3 + ihl || total < ihl {
        None
    } else {
        match transport_header(b, l3, l4) {
            None => None,
            Some((kind, hdr)) => Some(
                (FrameLayout {
                    l3: l3 as usize,
                    l3_kind: L3Kind::Ipv4,
                    ihl: ihl as usize,
                    l4: l4 as usize,
                    l4_kind: kind,
                    payload: min_int(l4 + hdr, end) as usize,
                    end: end as usize,
                }),
            ),
        }
    }
}

/// The layout of a frame. `None` for frames too short or malformed to edit.
pub open spec fn layout_of(b: Seq<u8>) -> Option<FrameLayout> {
    if b.len() < 14 {
        None
    } else {
        match link_header(b, 12) {
            None => None,
            Some((l3, ethertype)) => if ethertype == 0x0800 {
                ipv4_layout(b, l3)
            } else {
                Some(
                    (FrameLayout {
                        l3: l3 as usize,
                        l3_kind: L3Kind::Other,
                        ihl: 0,
                        l4: l3 as usize,
                        l4_kind: L4Kind::Other,
                        payload: l3 as usize,
                        end: b.len() as usize,
                    }),
                )
            },
        }
    }
}

/// Parse Ethernet (with any number of VLAN tags) then IPv4 then TCP/UDP.
/// Returns None for frames too short or malformed to mutate safely.
pub fn parse_layout(buf: &[u8]) -> (r: Option<FrameLayout>)
    ensures
        r == layout_of(buf@),
        r is Some ==> r->0.parsed_from(buf@.len() as int),
{
    if buf.len() < 14 {
        return None;
    }
    let mut at: usize = 12;
    let mut ethertype: u16 = read_be16(buf, 12);
    while ethertype == 0x8100 || ethertype == 0x88a8
        invariant
            12 <= at,
            at + 2 <= buf@.len(),
            ethertype == be16(buf@, at as int),
            link_header(buf@, 12) == link_header(buf@, at as int),
        decreases buf@.len() - at,
    {
        if buf.len() - at < 6 {
            return None;
        }
        ethertype = read_be16(buf, at + 4);
        at += 4;
    }
    let l3: usize = at + 2;
    if ethertype == 0x0800 {
        parse_ipv4(buf, l3)
    } else {
        Some(
            FrameLayout {
                l3,
                l3_kind: L3Kind::Other,
                ihl: 0,
                l4: l3,
                l4_kind: L4Kind::Other,
                payload: l3,
                end: buf.len(),
            },
        )
    }
}

fn parse_ipv4(buf: &[u8], l3: usize) -> (r: Option<FrameLayout>)
    requires
        14 <= l3 <= buf@.len(),
    ensures
        r == ipv4_layout(buf@, l3 as int),
        r is Some ==> r->0.parsed_from(buf@.len() as int),
{
    if buf.len() - l3 < 20 {
        return None;
    }
    let vihl: u8 = buf[l3];
    if vihl / 16 != 4 {
        return None;
    }
    let ihl: usize = (vihl % 16) as usize * 4;
    if ihl < 20 || buf.len() - l3 < ihl {
        return None;
    }
    let ip_total: usize = read_be16(buf, l3 + 2) as usize;
    if ip_total < ihl {
        return None;
    }
    let end: usize = if ip_total <= buf.len() - l3 {
        l3 + ip_total
    } else {
        buf.len()
    };
    let proto: u8 = buf[l3 + 9];
    let l4: usize = l3 + ihl;
    let (l4_kind, l4_hdr): (L4Kind, usize) = match proto {
        6 => {
            if buf.len() - l4 < 20 {
                return None;
            }
            let data_off: usize = (buf[l4 + 12] / 16) as usize * 4;
            if data_off < 20 || buf.len() - l4 < data_off {
                return None;
            }
            (L4Kind::Tcp, data_off)
        },
        17 => {
            if buf.len() - l4 < 8 {
                return None;
            }
            (L4Kind::Udp, 8)
        },
        _ => (L4Kind::Other, 0),
    };
    let payload: usize = if l4 <= end && l4_hdr <= end - l4 {
        l4 + l4_hdr
    } else {
        end
    };
    Some(FrameLayout { l3, l3_kind: L3Kind::Ipv4, ihl, l4, l4_kind, payload, end })
}

/// The sum of a byte run read as big-endian 16-bit words, an odd last byte
/// being the high half of its word.
pub open spec fn word_sum(s: Seq<u8>) -> nat
    decreases s.len(),
{
    if s.len() == 0 {
        0
    } else {
        word_sum(s.drop_last()) + weighed(s.len() - 1, s.last() as int) as nat
    }
}

/// What a byte of value `v` at index `i` counts for in a word sum.
pub open spec fn weighed(i: int, v: int) -> int {
    if i % 2 == 0 {
        256 * v
    } else {
        v
    }
}

/// The end-around-carry fold of a sum to 16 bits: the representative of the sum
/// modulo 65535 in `1..=65535`, and 0 for 0.
pub open spec fn fold16(sum: nat) -> nat {
    if sum == 0 {
        0
    } else if sum % 65535 == 0 {
        65535
    } else {
        sum % 65535
    }
}

/// The TCP/UDP pseudo header of the packet laid out by `l`.
pub open spec fn pseudo_header(b: Seq<u8>, l: FrameLayout) -> Seq<u8> {
    b.subrange(l.l3 + 12, l.l3 + 20) + seq![
        0u8,
        b[l.l3 + 9],
        ((l.end - l.l4) / 256) as u8,
        ((l.end - l.l4) % 256) as u8,
    ]
}

/// The word sum over the IPv4 header.
pub open spec fn ip_sum(b: Seq<u8>, l: FrameLayout) -> nat {
    word_sum(b.subrange(l.l3 as int, l.l3 + l.ihl))
}

/// The word sum over the pseudo header and the transport segment.
pub open spec fn l4_sum(b: Seq<u8>, l: FrameLayout) -> nat {
    word_sum(pseudo_header(b, l)) + word_sum(b.subrange(l.l4 as int, l.end as int))
}

/// The frame with its IPv4 header checksum filled in.
pub open spec fn with_ip_checksum(b: Seq<u8>, l: FrameLayout) -> Seq<u8> {
    put_be16(
        b,
        l.l3 + 10,
        0xffff - fold16(ip_sum(put_be16(b, l.l3 + 10, 0), l)),
    )
}

/// The transport checksum of a frame: the complement of the folded sum taken
/// with the checksum field zeroed. UDP writes all ones for a computed zero.
pub open spec fn l4_checksum_of(b: Seq<u8>, l: FrameLayout) -> int {
    let c = 0xffff - fold16(l4_sum(put_be16(b, l.l4 + l.csum_off(), 0), l));
    if l.l4_kind == L4Kind::Udp && c == 0 {
        0xffff
    } else {
        c
    }
}

/// The frame with its transport checksum filled in; unchanged where there is no
/// transport segment or the buffer ends before the checksum field does.
pub open spec fn with_l4_checksum(b: Seq<u8>, l: FrameLayout) -> Seq<u8> {
    if l.l4_kind == L4Kind::Other || l.end <= l.l4 || l.l4 + l.csum_off() + 1 >= b.len() {
        b
    } else {
        put_be16(b, l.l4 + l.csum_off(), l4_checksum_of(b, l))
    }
}

/// The frame with both checksums filled in. Only IPv4 frames change.
pub open spec fn with_checksums(b: Seq<u8>, l: FrameLayout) -> Seq<u8> {
    if l.l3_kind != L3Kind::Ipv4 {
        b
    } else {
        with_l4_checksum(with_ip_checksum(b, l), l)
    }
}

/// Both checksums hold: each sum, checksum field and all, folds to all ones.
pub open spec fn checksums_hold(b: Seq<u8>, l: FrameLayout) -> bool {
    l.l3_kind == L3Kind::Ipv4 ==> {
        &&& fold16(ip_sum(b, l)) == 0xffff
        &&& l.l4_kind != L4Kind::Other ==> fold16(l4_sum(b, l)) == 0xffff
    }
}

proof fn lemma_word_sum_bound(s: Seq<u8>)
    ensures
        word_sum(s) <= 65280 * s.len(),
    decreases s.len(),
{
    if s.len() > 0 {
        lemma_word_sum_bound(s.drop_last());
    }
}

pub proof fn lemma_word_sum_push2(s: Seq<u8>, i: int)
    requires
        0 <= i,
        i + 1 < s.len(),
        i % 2 == 0,
    ensures
        word_sum(s.take(i + 2)) == word_sum(s.take(i)) + be16(s, i),
{
    assert(s.take(i + 2).drop_last() =~= s.take(i + 1));
    assert(s.take(i + 1).drop_last() =~= s.take(i));
    assert(word_sum(s.take(i + 1)) == word_sum(s.take(i)) + weighed(i, s[i] as int));
    assert(word_sum(s.take(i + 2)) == word_sum(s.take(i + 1)) + weighed(i + 1, s[i + 1] as int));
}

proof fn lemma_word_sum_prefix(s: Seq<u8>, i: int)
    requires
        0 <= i <= s.len(),
    ensures
        word_sum(s.take(i)) <= word_sum(s),
    decreases s.len() - i,
{
    if i < s.len() {
        lemma_word_sum_prefix(s, i + 1);
        assert(s.take(i + 1).drop_last() =~= s.take(i));
    } else {
        assert(s.take(i) =~= s);
    }
}

proof fn lemma_word_sum_update(s: Seq<u8>, i: int, v: u8)
    requires
        0 <= i < s.len(),
    ensures
        word_sum(s.update(i, v)) == word_sum(s) + weighed(i, v as int - s[i] as int),
    decreases s.len(),
{
    if i < s.len() - 1 {
        assert(s.update(i, v).drop_last() =~= s.drop_last().update(i, v));
        lemma_word_sum_update(s.drop_last(), i, v);
    } else {
        assert(s.update(i, v).drop_last() =~= s.drop_last());
    }
}

/// Add a run of bytes to a word sum.
pub fn sum_words(acc: &mut u32, data: &[u8])
    requires
        *old(acc) + word_sum(data@) <= u32::MAX,
    ensures
        *final(acc) == *old(acc) + word_sum(data@),
{
    let mut i: usize = 0;
    while i + 1 < data.len()
        invariant
            i % 2 == 0,
            i <= data.len(),
            data.len() == data@.len(),
            *old(acc) + word_sum(data@) <= u32::MAX,
            *acc == *old(acc) + word_sum(data@.take(i as int)),
        decreases data@.len() - i,
    {
        proof {
            lemma_word_sum_push2(data@, i as int);
            lemma_word_sum_prefix(data@, i as int + 2);
        }
        *acc += data[i] as u32 * 256 + data[i + 1] as u32;
        i += 2;
    }
    if i < data.len() {
        proof {
            assert(data@.take(i as int + 1) =~= data@);
            assert(data@.drop_last() =~= data@.take(i as int));
            assert(word_sum(data@) == word_sum(data@.drop_last()) + weighed(
                i as int,
                data@.last() as int,
            ));
        }
        *acc += data[i] as u32 * 256;
    } else {
        proof {
            assert(data@.take(i as int) =~= data@);
        }
    }
}

/// Fold a word sum to 16 bits.
pub fn fold(sum: u32) -> (r: u16)
    ensures
        r == fold16(sum as nat),
{
    let mut s: u32 = sum;
    while s / 65536 != 0
        invariant
            s % 65535 == sum % 65535,
            s == 0 <==> sum == 0,
        decreases s,
    {
        s = s % 65536 + s / 65536;
    }
    s as u16
}

/// Recompute the IPv4 header checksum and the TCP/UDP checksum in place. A
/// no-op for non-IPv4 frames.
pub fn recompute_checksums(buf: &mut [u8], l: &FrameLayout)
    requires
        l.fits(old(buf).len() as int),
    ensures
        final(buf)@ == with_checksums(old(buf)@, *l),
{
    if l.l3_kind != L3Kind::Ipv4 {
        return ;
    }
    write_be16(buf, l.l3 + 10, 0);
    let mut s: u32 = 0;
    proof {
        lemma_word_sum_bound(buf@.subrange(l.l3 as int, l.l3 + l.ihl));
    }
    sum_words(&mut s, slice_subrange(buf, l.l3, l.l3 + l.ihl));
    let ipck: u16 = 0xffff - fold(s);
    write_be16(buf, l.l3 + 10, ipck);
    proof {
        assert(buf@ =~= with_ip_checksum(old(buf)@, *l));
    }
    match l.l4_kind {
        L4Kind::Tcp => l4_checksum(buf, l, 16),
        L4Kind::Udp => l4_checksum(buf, l, 6),
        L4Kind::Other => {},
    }
}

fn pseudo(buf: &[u8], l: &FrameLayout) -> (r: [u8; 12])
    requires
        l.l3_kind == L3Kind::Ipv4,
        l.fits(buf.len() as int),
        l.l4 <= l.end,
    ensures
        r@ == pseudo_header(buf@, *l),
{
    let l4_len: usize = l.end - l.l4;
    let a: usize = l.l3 + 12;
    let r: [u8; 12] = [
        buf[a],
        buf[a + 1],
        buf[a + 2],
        buf[a + 3],
        buf[a + 4],
        buf[a + 5],
        buf[a + 6],
        buf[a + 7],
        0,
        buf[l.l3 + 9],
        (l4_len / 256) as u8,
        (l4_len % 256) as u8,
    ];
    proof {
        assert(r@ =~= pseudo_header(buf@, *l));
    }
    r
}

/// The pseudo header and segment sum fits the accumulator.
fn segment_sum(buf: &[u8], l: &FrameLayout) -> (s: u32)
    requires
        l.l3_kind == L3Kind::Ipv4,
        l.fits(buf.len() as int),
        l.l4 <= l.end,
    ensures
        s == l4_sum(buf@, *l),
{
    let mut s: u32 = 0;
    let p: [u8; 12] = pseudo(buf, l);
    proof {
        lemma_word_sum_bound(p@);
        lemma_word_sum_bound(buf@.subrange(l.l4 as int, l.end as int));
    }
    sum_words(&mut s, p.as_slice());
    sum_words(&mut s, slice_subrange(buf, l.l4, l.end));
    s
}

/// True if the IPv4 header checksum and the TCP/UDP checksum both validate.
/// Non-IPv4 frames are reported valid (nothing to check).
pub fn checksums_valid(buf: &[u8], l: &FrameLayout) -> (r: bool)
    requires
        l.fits(buf.len() as int),
        l.l4_kind != L4Kind::Other ==> l.l4 <= l.end,
    ensures
        r == checksums_hold(buf@, *l),
{
    if l.l3_kind != L3Kind::Ipv4 {
        return true;
    }
    let mut s: u32 = 0;
    proof {
        lemma_word_sum_bound(buf@.subrange(l.l3 as int, l.l3 + l.ihl));
    }
    sum_words(&mut s, slice_subrange(buf, l.l3, l.l3 + l.ihl));
    if fold(s) != 0xffff {
        return false;
    }
    match l.l4_kind {
        L4Kind::Tcp | L4Kind::Udp => fold(segment_sum(buf, l)) == 0xffff,
        L4Kind::Other => true,
    }
}

fn l4_checksum(buf: &mut [u8], l: &FrameLayout, csum_off: usize)
    requires
        l.l3_kind == L3Kind::Ipv4,
        l.l4_kind != L4Kind::Other,
        csum_off == l.csum_off(),
        l.fits(old(buf).len() as int),
    ensures
        final(buf)@ == with_l4_checksum(old(buf)@, *l),
{
    if l.end <= l.l4 || buf.len() - l.l4 < csum_off + 2 {
        return ;
    }
    write_be16(buf, l.l4 + csum_off, 0);
    let mut csum: u16 = 0xffff - fold(segment_sum(buf, l));
    if l.l4_kind == L4Kind::Udp && csum == 0 {
        csum = 0xffff;
    }
    write_be16(buf, l.l4 + csum_off, csum);
    proof {
        assert(buf@ =~= with_l4_checksum(old(buf)@, *l));
    }
}

/// A parsed frame: a mutable view of the buffer plus its layout.
pub struct ParsedFrame<'a> {
    pub buf: &'a mut [u8],
    pub layout: FrameLayout,
}

impl<'a> ParsedFrame<'a> {
    /// The frame's bytes as they stand.
    pub open spec fn bytes(&self) -> Seq<u8> {
        self.buf@
    }

    /// The layout was read from a buffer of this length.
    pub open spec fn wf(&self) -> bool {
        self.layout.parsed_from(self.buf@.len() as int)
    }

    /// `self` is `before` with its bytes changed to `bytes`.
    pub open spec fn edited(&self, before: &ParsedFrame<'a>, bytes: Seq<u8>) -> bool {
        &&& self.layout == before.layout
        &&& self.buf@ == bytes
    }

    /// Parse a frame for editing. The frame holds the caller's buffer, so that
    /// what is written through it is what the caller finds there afterwards.
    pub fn parse(buf: &'a mut [u8]) -> (r: Option<Self>)
        ensures
            r is Some <==> layout_of(old(buf)@) is Some,
            r matches Some(f) ==> {
                &&& f.buf@ == old(buf)@
                &&& Some(f.layout) == layout_of(old(buf)@)
                &&& f.wf()
                &&& final(f.buf)@ == final(buf)@
            },
            r is None ==> final(buf)@ == old(buf)@,
    {
        let layout = parse_layout(buf)?;
        Some(Self { buf, layout })
    }

    pub fn is_ipv4(&self) -> (r: bool)
        ensures
            r == (self.layout.l3_kind == L3Kind::Ipv4),
    {
        self.layout.l3_kind == L3Kind::Ipv4
    }

    pub fn l4_kind(&self) -> (r: L4Kind)
        ensures
            r == self.layout.l4_kind,
    {
        self.layout.l4_kind
    }

    /// The transport payload: what lies behind the headers, up to the end of the
    /// IP packet.
    pub fn payload(&self) -> (r: &[u8])
        requires
            self.wf(),
        ensures
            r@ == self.bytes().subrange(self.layout.payload as int, self.layout.end as int),
    {
        slice_subrange(self.buf, self.layout.payload, self.layout.end)
    }

    /// The transport payload, for writing.
    pub fn payload_mut(&mut self) -> (r: &mut [u8])
        requires
            old(self).wf(),
        ensures
            r@ == old(self).bytes().subrange(
                old(self).layout.payload as int,
                old(self).layout.end as int,
            ),
            final(self).layout == old(self).layout,
            final(self).buf@ == old(self).bytes().take(old(self).layout.payload as int) + final(r)@
                + old(self).bytes().skip(old(self).layout.end as int),
            final(final(self).buf)@ == final(old(self).buf)@,
    {
        let p: usize = self.layout.payload;
        let e: usize = self.layout.end;
        let (_, tail) = self.buf.split_at_mut(p);
        let (mid, _) = tail.split_at_mut(e - p);
        mid
    }

    /// The IPv4 source address, for an IPv4 frame.
    pub fn ipv4_src(&self) -> (r: Option<[u8; 4]>)
        requires
            self.wf(),
        ensures
            r is Some <==> self.layout.l3_kind == L3Kind::Ipv4,
            r matches Some(a) ==> a@ == self.bytes().subrange(self.layout.l3 + 12, self.layout.l3 + 16),
    {
        if !self.is_ipv4() {
            return None;
        }
        let l: usize = self.layout.l3;
        let a: [u8; 4] = [self.buf[l + 12], self.buf[l + 13], self.buf[l + 14], self.buf[l + 15]];
        proof {
            assert(a@ =~= self.buf@.subrange(l + 12, l + 16));
        }
        Some(a)
    }

    /// The IPv4 destination address, for an IPv4 frame.
    pub fn ipv4_dst(&self) -> (r: Option<[u8; 4]>)
        requires
            self.wf(),
        ensures
            r is Some <==> self.layout.l3_kind == L3Kind::Ipv4,
            r matches Some(a) ==> a@ == self.bytes().subrange(self.layout.l3 + 16, self.layout.l3 + 20),
    {
        if !self.is_ipv4() {
            return None;
        }
        let l: usize = self.layout.l3;
        let a: [u8; 4] = [self.buf[l + 16], self.buf[l + 17], self.buf[l + 18], self.buf[l + 19]];
        proof {
            assert(a@ =~= self.buf@.subrange(l + 16, l + 20));
        }
        Some(a)
    }

    /// Rewrite the IPv4 source address. A no-op for other frames.
    pub fn set_ipv4_src(&mut self, a: [u8; 4])
        requires
            old(self).wf(),
        ensures
            final(self).edited(
                old(self),
                if old(self).layout.l3_kind == L3Kind::Ipv4 {
                    overwrite(old(self).bytes(), old(self).layout.l3 + 12, a@)
                } else {
                    old(self).bytes()
                },
            ),
            final(self).wf(),
            final(final(self).buf)@ == final(old(self).buf)@,
    {
        if self.is_ipv4() {
            let l: usize = self.layout.l3;
            write_bytes(self.buf, l + 12, a.as_slice());
        }
    }

    /// Rewrite the IPv4 destination address. A no-op for other frames.
    pub fn set_ipv4_dst(&mut self, a: [u8; 4])
        requires
            old(self).wf(),
        ensures
            final(self).edited(
                old(self),
                if old(self).layout.l3_kind == L3Kind::Ipv4 {
                    overwrite(old(self).bytes(), old(self).layout.l3 + 16, a@)
                } else {
                    old(self).bytes()
                },
            ),
            final(self).wf(),
            final(final(self).buf)@ == final(old(self).buf)@,
    {
        if self.is_ipv4() {
            let l: usize = self.layout.l3;
            write_bytes(self.buf, l + 16, a.as_slice());
        }
    }

    /// Destination MAC (Ethernet bytes 0..6).
    pub fn dst_mac(&self) -> (r: [u8; 6])
        requires
            self.wf(),
        ensures
            r@ == self.bytes().subrange(0, 6),
    {
        let m: [u8; 6] = [
            self.buf[0],
            self.buf[1],
            self.buf[2],
            self.buf[3],
            self.buf[4],
            self.buf[5],
        ];
        proof {
            assert(m@ =~= self.buf@.subrange(0, 6));
        }
        m
    }

    /// Source MAC (Ethernet bytes 6..12).
    pub fn src_mac(&self) -> (r: [u8; 6])
        requires
            self.wf(),
        ensures
            r@ == self.bytes().subrange(6, 12),
    {
        let m: [u8; 6] = [
            self.buf[6],
            self.buf[7],
            self.buf[8],
            self.buf[9],
            self.buf[10],
            self.buf[11],
        ];
        proof {
            assert(m@ =~= self.buf@.subrange(6, 12));
        }
        m
    }

    /// Rewrite the destination MAC. No checksum recompute needed: the captured
    /// frame carries no FCS and MAC bytes are outside the IP/L4 checksum scope.
    pub fn set_dst_mac(&mut self, m: [u8; 6])
        requires
            old(self).wf(),
        ensures
            final(self).edited(old(self), overwrite(old(self).bytes(), 0, m@)),
            final(self).wf(),
            final(final(self).buf)@ == final(old(self).buf)@,
    {
        write_bytes(self.buf, 0, m.as_slice());
    }

    /// Rewrite the source MAC.
    pub fn set_src_mac(&mut self, m: [u8; 6])
        requires
            old(self).wf(),
        ensures
            final(self).edited(old(self), overwrite(old(self).bytes(), 6, m@)),
            final(self).wf(),
            final(final(self).buf)@ == final(old(self).buf)@,
    {
        write_bytes(self.buf, 6, m.as_slice());
    }

    /// The transport source port, for a TCP or UDP frame.
    pub fn src_port(&self) -> (r: Option<u16>)
        requires
            self.wf(),
        ensures
            r is Some <==> self.layout.l4_kind != L4Kind::Other,
            r matches Some(p) ==> p == be16(self.bytes(), self.layout.l4 as int),
    {
        match self.layout.l4_kind {
            L4Kind::Tcp | L4Kind::Udp => Some(read_be16(self.buf, self.layout.l4)),
            L4Kind::Other => None,
        }
    }

    /// The transport destination port, for a TCP or UDP frame.
    pub fn dst_port(&self) -> (r: Option<u16>)
        requires
            self.wf(),
        ensures
            r is Some <==> self.layout.l4_kind != L4Kind::Other,
            r matches Some(p) ==> p == be16(self.bytes(), self.layout.l4 + 2),
    {
        proof {
            assert(self.buf@.len() == self.buf.len());
        }
        match self.layout.l4_kind {
            L4Kind::Tcp | L4Kind::Udp => Some(read_be16(self.buf, self.layout.l4 + 2)),
            L4Kind::Other => None,
        }
    }

    /// Recompute both checksums in place.
    pub fn recompute_checksums(&mut self)
        requires
            old(self).wf(),
        ensures
            final(self).edited(old(self), with_checksums(old(self).bytes(), old(self).layout)),
            final(self).wf(),
            final(final(self).buf)@ == final(old(self).buf)@,
    {
        recompute_checksums(self.buf, &self.layout)
    }
}

proof fn lemma_word_sum_at_least(s: Seq<u8>, i: int)
    requires
        0 <= i < s.len(),
    ensures
        word_sum(s) >= s[i],
    decreases s.len(),
{
    if i < s.len() - 1 {
        lemma_word_sum_at_least(s.drop_last(), i);
    }
}

/// A word written at an even place inside a summed run adds its value to the
/// sum taken with that word zeroed.
proof fn lemma_sum_put(b: Seq<u8>, lo: int, hi: int, at: int, v: int)
    requires
        0 <= lo <= at,
        at + 2 <= hi <= b.len(),
        (at - lo) % 2 == 0,
        0 <= v <= 0xffff,
    ensures
        word_sum(put_be16(b, at, v).subrange(lo, hi)) == word_sum(
            put_be16(b, at, 0).subrange(lo, hi),
        ) + v,
{
    let z = put_be16(b, at, 0).subrange(lo, hi);
    let i = at - lo;
    assert(put_be16(b, at, v).subrange(lo, hi) =~= z.update(i, (v / 256) as u8).update(
        i + 1,
        (v % 256) as u8,
    ));
    lemma_word_sum_update(z, i, (v / 256) as u8);
    lemma_word_sum_update(z.update(i, (v / 256) as u8), i + 1, (v % 256) as u8);
    assert(z[i] == 0 && z[i + 1] == 0);
}

/// A word that completes a nonzero sum to all ones is the complement of the
/// folded sum, unless it is all ones itself.
proof fn lemma_completing_word(s: nat, c: int)
    requires
        s > 0,
        0 <= c <= 0xffff,
        fold16((s + c) as nat) == 0xffff,
    ensures
        c == 0xffff - fold16(s) || (c == 0xffff && fold16(s) == 0xffff),
{
}

proof fn lemma_complement_folds_to_ones(s: nat)
    requires
        s > 0,
    ensures
        fold16((s + 0xffff - fold16(s)) as nat) == 0xffff,
{
    assert((s + 0xffff - fold16(s)) % 65535 == 0) by (nonlinear_arith)
        requires
            fold16(s) % 65535 == s % 65535,
    ;
}

/// What the layout of an IPv4 frame says of its first header byte and of its
/// protocol number.
proof fn lemma_ipv4_bytes(b: Seq<u8>, l: FrameLayout)
    requires
        layout_of(b) == Some(l),
        l.l3_kind == L3Kind::Ipv4,
        b.len() <= usize::MAX,
    ensures
        b[l.l3 as int] > 0,
        l.l4_kind != L4Kind::Other ==> b[l.l3 + 9] > 0,
{
    lemma_link_header_bound(b, 12);
}

/// Both checksums, as they stand after a recompute, sit on top of the other
/// bytes of the frame.
pub proof fn lemma_checksum_bytes(b: Seq<u8>, l: FrameLayout)
    requires
        l.l3_kind == L3Kind::Ipv4,
        l.parsed_from(b.len() as int),
    ensures
        with_checksums(b, l).len() == b.len(),
        forall|i: int|
            0 <= i < b.len() && i != l.l3 + 10 && i != l.l3 + 11 && !(l.l4_kind != L4Kind::Other
                && l.l4 + l.csum_off() <= i <= l.l4 + l.csum_off() + 1) ==> with_checksums(b, l)[i]
                == b[i],
{
}

/// Recomputing the checksums of a parsed frame makes both of them hold. The
/// transport checksum needs room inside the IP packet.
pub proof fn law_recompute_validates(b: Seq<u8>, l: FrameLayout)
    requires
        layout_of(b) == Some(l),
        b.len() <= usize::MAX,
        l.csum_inside(),
    ensures
        checksums_hold(with_checksums(b, l), l),
{
    law_layout_in_bounds(b);
    if l.l3_kind == L3Kind::Ipv4 {
        lemma_ipv4_bytes(b, l);
        let l3 = l.l3 as int;
        let h = l3 + l.ihl;
        let z = put_be16(b, l3 + 10, 0);
        let s = ip_sum(z, l);
        lemma_word_sum_at_least(z.subrange(l3, h), 0);
        lemma_sum_put(b, l3, h, l3 + 10, 0xffff - fold16(s));
        lemma_complement_folds_to_ones(s);
        let b1 = with_ip_checksum(b, l);
        assert(fold16(ip_sum(b1, l)) == 0xffff);
        let b2 = with_checksums(b, l);
        assert(b2.subrange(l3, h) =~= b1.subrange(l3, h));
        if l.l4_kind != L4Kind::Other {
            let at = l.l4 + l.csum_off();
            let z4 = put_be16(b1, at, 0);
            assert(pseudo_header(z4, l) =~= pseudo_header(b2, l));
            lemma_word_sum_at_least(pseudo_header(z4, l), 9);
            lemma_sum_put(b1, l.l4 as int, l.end as int, at, l4_checksum_of(b1, l));
            lemma_complement_folds_to_ones(l4_sum(z4, l));
        }
    }
}

/// Recomputing twice is recomputing once.
pub proof fn law_recompute_idempotent(b: Seq<u8>, l: FrameLayout)
    requires
        l.parsed_from(b.len() as int),
    ensures
        with_checksums(with_checksums(b, l), l) == with_checksums(b, l),
{
    if l.l3_kind == L3Kind::Ipv4 {
        let l3 = l.l3 as int;
        let h = l3 + l.ihl;
        let b1 = with_ip_checksum(b, l);
        let b2 = with_checksums(b, l);
        assert(put_be16(b2, l3 + 10, 0).subrange(l3, h) =~= put_be16(b, l3 + 10, 0).subrange(
            l3,
            h,
        ));
        assert(with_ip_checksum(b2, l) =~= b2);
        if l.l4_kind != L4Kind::Other {
            let at = l.l4 + l.csum_off();
            assert(put_be16(b2, at, 0) =~= put_be16(b1, at, 0));
            assert(with_l4_checksum(b2, l) =~= b2);
        }
    }
}

/// A frame whose checksums hold is left as it is by a recompute, unless one of
/// them is written in its other form: all ones for an IP or TCP sum of zero, or
/// zero for UDP.
pub proof fn law_recompute_keeps_valid_frame(b: Seq<u8>, l: FrameLayout)
    requires
        layout_of(b) == Some(l),
        b.len() <= usize::MAX,
        l.csum_inside(),
        checksums_hold(b, l),
        l.l3_kind == L3Kind::Ipv4 ==> be16(b, l.l3 + 10) != 0xffff,
        l.l4_kind == L4Kind::Tcp ==> be16(b, l.l4 + 16) != 0xffff,
        l.l4_kind == L4Kind::Udp ==> be16(b, l.l4 + 6) != 0,
    ensures
        with_checksums(b, l) == b,
{
    law_layout_in_bounds(b);
    if l.l3_kind == L3Kind::Ipv4 {
        lemma_ipv4_bytes(b, l);
        let l3 = l.l3 as int;
        let h = l3 + l.ihl;
        let z = put_be16(b, l3 + 10, 0);
        let ck = be16(b, l3 + 10);
        assert(put_be16(b, l3 + 10, ck) =~= b);
        lemma_sum_put(b, l3, h, l3 + 10, ck);
        lemma_word_sum_at_least(z.subrange(l3, h), 0);
        assert(ip_sum(b, l) == ip_sum(z, l) + ck);
        lemma_completing_word(ip_sum(z, l), ck);
        assert(with_ip_checksum(b, l) =~= b);
        if l.l4_kind != L4Kind::Other {
            let at = l.l4 + l.csum_off();
            let c4 = be16(b, at);
            let z4 = put_be16(b, at, 0);
            assert(put_be16(b, at, c4) =~= b);
            assert(pseudo_header(z4, l) =~= pseudo_header(b, l));
            lemma_word_sum_at_least(pseudo_header(z4, l), 9);
            lemma_sum_put(b, l.l4 as int, l.end as int, at, c4);
            assert(l4_sum(b, l) == l4_sum(z4, l) + c4);
            lemma_completing_word(l4_sum(z4, l), c4);
            assert(c4 == l4_checksum_of(b, l));
            assert(with_l4_checksum(b, l) =~= b);
        }
    }
}

proof fn lemma_link_header_agrees(a: Seq<u8>, b: Seq<u8>, at: int, l3: int)
    requires
        0 <= at,
        at + 2 <= a.len(),
        a.len() == b.len(),
        link_header(a, at) is Some,
        l3 == (link_header(a, at)->0).0,
        forall|i: int| at <= i < l3 ==> a[i] == b[i],
    ensures
        at + 2 <= l3 <= a.len(),
        link_header(b, at) == link_header(a, at),
    decreases a.len() - at,
{
    if is_vlan(be16(a, at)) {
        lemma_link_header_bound(a, at + 4);
        lemma_link_header_agrees(a, b, at + 4, l3);
    }
}

proof fn lemma_link_header_bound(a: Seq<u8>, at: int)
    requires
        0 <= at,
        at + 2 <= a.len(),
        link_header(a, at) is Some,
    ensures
        at + 2 <= (link_header(a, at)->0).0 <= a.len(),
    decreases a.len() - at,
{
    if is_vlan(be16(a, at)) {
        lemma_link_header_bound(a, at + 4);
    }
}

/// The layout of a frame is within its bounds.
pub proof fn law_layout_in_bounds(b: Seq<u8>)
    requires
        layout_of(b) is Some,
        b.len() <= usize::MAX,
    ensures
        layout_of(b)->0.parsed_from(b.len() as int),
{
    lemma_link_header_bound(b, 12);
}

/// The bytes of a frame that its layout is read from.
pub open spec fn is_layout_byte(l: FrameLayout, i: int) -> bool {
    ||| 12 <= i < l.l3
    ||| l.l3_kind == L3Kind::Ipv4 && l.l3 <= i < l.l3 + 10
    ||| l.l4_kind == L4Kind::Tcp && i == l.l4 + 12
}

/// Two frames of one length that agree on the bytes a layout is read from have
/// the same layout: editing MACs, addresses, checksums or payload keeps it.
pub proof fn law_layout_depends_on_headers(a: Seq<u8>, b: Seq<u8>, l: FrameLayout)
    requires
        layout_of(a) == Some(l),
        a.len() == b.len(),
        a.len() <= usize::MAX,
        forall|i: int| 0 <= i < a.len() && is_layout_byte(l, i) ==> a[i] == b[i],
    ensures
        layout_of(b) == Some(l),
{
    law_layout_in_bounds(a);
    lemma_link_header_bound(a, 12);
    lemma_link_header_agrees(a, b, 12, l.l3 as int);
}

/// Recomputing checksums keeps the layout.
pub proof fn law_recompute_keeps_layout(b: Seq<u8>, l: FrameLayout)
    requires
        layout_of(b) == Some(l),
        b.len() <= usize::MAX,
    ensures
        layout_of(with_checksums(b, l)) == Some(l),
        with_checksums(b, l).len() == b.len(),
{
    law_layout_in_bounds(b);
    if l.l3_kind == L3Kind::Ipv4 {
        lemma_checksum_bytes(b, l);
        law_layout_depends_on_headers(b, with_checksums(b, l), l);
    }
}

/// Rewriting a MAC address leaves both checksums as they are.
pub proof fn law_mac_edit_keeps_checksums(b: Seq<u8>, l: FrameLayout, at: int, mac: Seq<u8>)
    requires
        l.parsed_from(b.len() as int),
        at == 0 || at == 6,
        mac.len() == 6,
    ensures
        checksums_hold(overwrite(b, at, mac), l) == checksums_hold(b, l),
{
    let c = overwrite(b, at, mac);
    if l.l3_kind == L3Kind::Ipv4 {
        assert(c.subrange(l.l3 as int, l.l3 + l.ihl) =~= b.subrange(l.l3 as int, l.l3 + l.ihl));
        assert(pseudo_header(c, l) =~= pseudo_header(b, l));
        assert(c.subrange(l.l4 as int, l.end as int) =~= b.subrange(l.l4 as int, l.end as int));
    }
}

} // verus!
