//! IPv4 addresses as numbers, IPv4 networks, and their text forms.

use std::collections::HashSet;
use vstd::prelude::*;
use crate::text::{
    chars_of, dec, digit_of, digit_value, law_decimal_roundtrip, number_value, push_dec,
};

verus! {

/// How many addresses a prefix of the given length leaves free.
pub open spec fn span(prefix: int) -> nat
    decreases 32 - prefix,
{
    if prefix >= 32 {
        1
    } else {
        2 * span(prefix + 1)
    }
}

pub proof fn lemma_span_values()
    ensures
        span(0) == 0x1_0000_0000,
        span(8) == 0x100_0000,
        span(24) == 0x100,
        span(30) == 4,
        span(31) == 2,
        span(32) == 1,
{
    reveal_with_fuel(span, 34);
}

/// Spans are positive and those of shorter prefixes are multiples of those of
/// longer ones.
pub proof fn lemma_span_divides(p: int, q: int)
    requires
        p <= q <= 32,
    ensures
        span(q) > 0,
        span(p) % span(q) == 0,
        span(q) <= span(p),
    decreases q - p,
{
    lemma_span_positive(q);
    if p < q {
        lemma_span_divides(p + 1, q);
        let k = span(p + 1) / span(q);
        assert(span(p) == span(q) * (2 * k)) by (nonlinear_arith)
            requires
                span(p) == 2 * span(p + 1),
                span(p + 1) % span(q) == 0,
                k == span(p + 1) / span(q),
                span(q) > 0,
        ;
        assert((span(q) * (2 * k)) % span(q) == 0) by (nonlinear_arith)
            requires
                span(q) > 0,
        ;
    } else {
        assert(span(q) % span(q) == 0) by (nonlinear_arith)
            requires
                span(q) > 0,
        ;
    }
}

pub proof fn lemma_span_positive(p: int)
    requires
        p <= 32,
    ensures
        span(p) > 0,
    decreases 32 - p,
{
    if p < 32 {
        lemma_span_positive(p + 1);
    }
}

pub proof fn lemma_span_bound(p: int)
    requires
        0 <= p <= 32,
    ensures
        0 < span(p) <= 0x1_0000_0000,
{
    lemma_span_values();
    lemma_span_divides(0, p);
}

/// The first address of the network of `addr` under a prefix.
pub open spec fn network_of(addr: int, prefix: int) -> int {
    addr - addr % (span(prefix) as int)
}

/// How many addresses a prefix leaves free.
pub fn span_of(prefix: u8) -> (r: u64)
    requires
        prefix <= 32,
    ensures
        r == span(prefix as int),
        0 < r <= 0x1_0000_0000,
{
    let mut r: u64 = 1;
    let mut p: u8 = 32;
    while p > prefix
        invariant
            prefix <= p <= 32,
            r == span(p as int),
        decreases p,
    {
        proof {
            lemma_span_bound(p as int - 1);
        }
        r = r * 2;
        p -= 1;
    }
    proof {
        lemma_span_bound(prefix as int);
    }
    r
}

/// An IPv4 network: an address and a prefix length of at most 32. The address
/// may have bits set behind the prefix.
#[derive(Clone, Copy, Debug, PartialEq, Eq, Structural)]
pub struct Ipv4Net {
    pub addr: u32,
    pub prefix: u8,
}

impl Ipv4Net {
    pub open spec fn wf(self) -> bool {
        self.prefix <= 32
    }

    pub open spec fn first(self) -> int {
        network_of(self.addr as int, self.prefix as int)
    }

    pub open spec fn last(self) -> int {
        self.first() + span(self.prefix as int) - 1
    }

    pub open spec fn has(self, ip: int) -> bool {
        self.first() <= ip <= self.last()
    }

    /// The lowest address that `hosts` gives.
    pub open spec fn host_lo(self) -> int {
        if self.prefix < 31 {
            self.first() + 1
        } else {
            self.first()
        }
    }

    /// The highest address that `hosts` gives.
    pub open spec fn host_hi(self) -> int {
        if self.prefix < 31 {
            self.last() - 1
        } else {
            self.last()
        }
    }

    pub proof fn lemma_bounds(self)
        requires
            self.wf(),
        ensures
            0 <= self.first() <= self.addr <= self.last() <= 0xffff_ffff,
            span(self.prefix as int) > 0,
            self.first() % (span(self.prefix as int) as int) == 0,
            self.host_lo() <= self.host_hi(),
            self.first() <= self.host_lo(),
            self.host_hi() <= self.last(),
    {
        let s = span(self.prefix as int) as int;
        let a = self.addr as int;
        lemma_span_bound(self.prefix as int);
        lemma_span_values();
        lemma_span_divides(0, self.prefix as int);
        let m = 0x1_0000_0000int;
        assert(a - a % s + s <= m && (a - a % s) % s == 0) by (nonlinear_arith)
            requires
                s > 0,
                m % s == 0,
                0 <= a < m,
        {
            let q = a / s;
            let k = m / s;
            assert(a == s * q + a % s);
            assert(m == s * k);
            assert(q < k) by (nonlinear_arith)
                requires
                    s > 0,
                    a == s * q + a % s,
                    0 <= a % s,
                    a < m,
                    m == s * k,
            ;
            assert(s * q + s <= s * k) by (nonlinear_arith)
                requires
                    q < k,
                    s > 0,
            ;
            assert((s * q) % s == 0) by (nonlinear_arith)
                requires
                    s > 0,
            ;
        }
        assert(0 <= a % s < s && a % s <= a) by (nonlinear_arith)
            requires
                s > 0,
                0 <= a,
        ;
        if self.prefix < 31 {
            lemma_span_divides(self.prefix as int, 30);
        }
    }

    /// A network from its address and prefix length; `None` for a prefix over 32.
    pub fn new(addr: u32, prefix: u8) -> (r: Option<Ipv4Net>)
        ensures
            r == if prefix <= 32 {
                Some(Ipv4Net { addr, prefix })
            } else {
                None
            },
    {
        if prefix <= 32 {
            Some(Ipv4Net { addr, prefix })
        } else {
            None
        }
    }

    pub fn prefix_len(&self) -> (r: u8)
        ensures
            r == self.prefix,
    {
        self.prefix
    }

    /// The first address of the network.
    pub fn network(&self) -> (r: u32)
        requires
            self.wf(),
        ensures
            r == self.first(),
    {
        proof {
            self.lemma_bounds();
        }
        (self.addr as u64 - self.addr as u64 % span_of(self.prefix)) as u32
    }

    /// The last address of the network.
    pub fn broadcast(&self) -> (r: u32)
        requires
            self.wf(),
        ensures
            r == self.last(),
    {
        proof {
            self.lemma_bounds();
        }
        (self.network() as u64 + span_of(self.prefix) - 1) as u32
    }

    /// Whether the network holds the address.
    pub fn contains(&self, ip: u32) -> (r: bool)
        requires
            self.wf(),
        ensures
            r == self.has(ip as int),
    {
        self.network() <= ip && ip <= self.broadcast()
    }

    /// The lowest and the highest host address: without the network and the
    /// broadcast address, except for prefixes of 31 and 32.
    pub fn hosts(&self) -> (r: (u32, u32))
        requires
            self.wf(),
        ensures
            r.0 == self.host_lo(),
            r.1 == self.host_hi(),
            r.0 <= r.1,
    {
        proof {
            self.lemma_bounds();
        }
        if self.prefix < 31 {
            (self.network() + 1, self.broadcast() - 1)
        } else {
            (self.network(), self.broadcast())
        }
    }

    /// The network in `address/prefix` form.
    pub fn to_text(&self) -> (r: String)
        ensures
            r@ == net_text(*self),
    {
        let mut s = ip_string(self.addr);
        s.push('/');
        push_dec(&mut s, self.prefix as u64);
        proof {
            assert(s@ =~= net_text(*self));
        }
        s
    }
}

/// An octet of an address, counted from the most significant.
pub open spec fn octet(ip: int, i: int) -> int {
    if i == 0 {
        ip / 0x100_0000 % 256
    } else if i == 1 {
        ip / 0x1_0000 % 256
    } else if i == 2 {
        ip / 0x100 % 256
    } else {
        ip % 256
    }
}

/// An address in dotted-quad form.
pub open spec fn ip_text(ip: u32) -> Seq<char> {
    dec(octet(ip as int, 0) as nat) + seq!['.'] + dec(octet(ip as int, 1) as nat) + seq!['.'] + dec(
        octet(ip as int, 2) as nat,
    ) + seq!['.'] + dec(octet(ip as int, 3) as nat)
}

/// A network in `address/prefix` form.
pub open spec fn net_text(n: Ipv4Net) -> Seq<char> {
    ip_text(n.addr) + seq!['/'] + dec(n.prefix as nat)
}

/// Append an address in dotted-quad form.
pub fn push_ip(s: &mut String, ip: u32)
    ensures
        final(s)@ == old(s)@ + ip_text(ip),
{
    push_dec(s, (ip / 0x100_0000 % 256) as u64);
    s.push('.');
    push_dec(s, (ip / 0x1_0000 % 256) as u64);
    s.push('.');
    push_dec(s, (ip / 0x100 % 256) as u64);
    s.push('.');
    push_dec(s, (ip % 256) as u64);
    proof {
        assert(s@ =~= old(s)@ + ip_text(ip));
    }
}

/// An address in dotted-quad form.
pub fn ip_string(ip: u32) -> (r: String)
    ensures
        r@ == ip_text(ip),
{
    let mut s = String::new();
    push_ip(&mut s, ip);
    proof {
        assert(s@ =~= ip_text(ip));
    }
    s
}

/// Where reading separated decimal fields stands: the fields read so far, as
/// base-256 digits, and the current field. Both are cut off at a bound that no
/// well-formed text reaches.
pub struct Fields {
    pub done: int,
    pub cur: int,
}

pub open spec fn clip(n: int, bound: int) -> int {
    if n > bound {
        bound
    } else {
        n
    }
}

/// Read one more character.
pub open spec fn read_field(f: Fields, c: char) -> Fields {
    match digit_value(c) {
        Some(d) => Fields { done: f.done, cur: clip(f.cur * 10 + d, 1000) },
        None => Fields { done: clip(f.done * 256 + f.cur, 0xffff_ffff), cur: 0 },
    }
}

/// Read a run of characters.
pub open spec fn read_fields(f: Fields, s: Seq<char>) -> Fields
    decreases s.len(),
{
    if s.len() == 0 {
        f
    } else {
        read_field(read_fields(f, s.drop_last()), s.last())
    }
}

proof fn lemma_read_fields_concat(f: Fields, a: Seq<char>, b: Seq<char>)
    ensures
        read_fields(f, a + b) == read_fields(read_fields(f, a), b),
    decreases b.len(),
{
    if b.len() == 0 {
        assert(a + b =~= a);
    } else {
        assert((a + b).drop_last() =~= a + b.drop_last());
        lemma_read_fields_concat(f, a, b.drop_last());
    }
}

/// A run of digits reads as its value.
proof fn lemma_read_number(done: int, s: Seq<char>)
    requires
        number_value(s, 10) is Some,
        number_value(s, 10)->0 <= 999,
    ensures
        read_fields(Fields { done, cur: 0 }, s) == (Fields { done, cur: number_value(s, 10)->0 }),
        number_value(s, 10)->0 >= 0,
    decreases s.len(),
{
    if s.len() > 0 {
        let h = number_value(s.drop_last(), 10)->0;
        lemma_number_nonneg(s.drop_last());
        lemma_read_number(done, s.drop_last());
    }
}

proof fn lemma_number_nonneg(s: Seq<char>)
    requires
        number_value(s, 10) is Some,
    ensures
        number_value(s, 10)->0 >= 0,
    decreases s.len(),
{
    if s.len() > 0 {
        lemma_number_nonneg(s.drop_last());
    }
}

/// A run of one to `digits` digits with a value of at most `max`.
pub open spec fn is_field(s: Seq<char>, digits: int, max: int) -> bool {
    &&& 1 <= s.len() <= digits
    &&& number_value(s, 10) is Some
    &&& number_value(s, 10)->0 <= max
}

/// The text made of four fields, dots between them.
pub open spec fn quad(o: Seq<Seq<char>>) -> Seq<char> {
    o[0] + seq!['.'] + o[1] + seq!['.'] + o[2] + seq!['.'] + o[3]
}

/// The address that four fields stand for.
pub open spec fn quad_value(o: Seq<Seq<char>>) -> int {
    number_value(o[0], 10)->0 * 0x100_0000 + number_value(o[1], 10)->0 * 0x1_0000 + number_value(
        o[2],
        10,
    )->0 * 0x100 + number_value(o[3], 10)->0
}

proof fn lemma_read_separator(f: Fields, c: char)
    requires
        digit_value(c) is None,
    ensures
        read_fields(f, seq![c]) == read_field(f, c),
{
    assert(seq![c].drop_last() =~= Seq::<char>::empty());
    assert(read_fields(f, Seq::<char>::empty()) == f);
}

proof fn lemma_read_quad(o: Seq<Seq<char>>)
    requires
        o.len() == 4,
        forall|i: int| 0 <= i < 4 ==> is_field(#[trigger] o[i], 3, 255),
    ensures
        read_fields(Fields { done: 0, cur: 0 }, quad(o)) == (Fields {
            done: quad_value(o) / 256,
            cur: quad_value(o) % 256,
        }),
        0 <= quad_value(o) <= 0xffff_ffff,
{
    let start = Fields { done: 0, cur: 0 };
    let n0 = number_value(o[0], 10)->0;
    let n1 = number_value(o[1], 10)->0;
    let n2 = number_value(o[2], 10)->0;
    let n3 = number_value(o[3], 10)->0;
    assert(is_field(o[0], 3, 255) && is_field(o[1], 3, 255) && is_field(o[2], 3, 255) && is_field(
        o[3],
        3,
        255,
    ));
    let dot = seq!['.'];
    lemma_read_number(0, o[0]);
    lemma_read_number(n0, o[1]);
    lemma_read_number(n0 * 256 + n1, o[2]);
    lemma_read_number((n0 * 256 + n1) * 256 + n2, o[3]);
    let a = o[0] + dot;
    let b = a + o[1];
    let c = b + dot;
    let d = c + o[2];
    let e = d + dot;
    lemma_read_fields_concat(start, o[0], dot);
    lemma_read_separator(Fields { done: 0, cur: n0 }, '.');
    lemma_read_fields_concat(start, a, o[1]);
    lemma_read_fields_concat(start, b, dot);
    lemma_read_separator(Fields { done: n0, cur: n1 }, '.');
    lemma_read_fields_concat(start, c, o[2]);
    lemma_read_fields_concat(start, d, dot);
    lemma_read_separator(Fields { done: n0 * 256 + n1, cur: n2 }, '.');
    lemma_read_fields_concat(start, e, o[3]);
}

pub open spec fn ip_fields(ip: u32) -> Seq<Seq<char>> {
    seq![
        dec(octet(ip as int, 0) as nat),
        dec(octet(ip as int, 1) as nat),
        dec(octet(ip as int, 2) as nat),
        dec(octet(ip as int, 3) as nat),
    ]
}

proof fn lemma_dec_len(n: nat)
    ensures
        n < 1000 ==> 1 <= dec(n).len() <= 3,
        n < 100 ==> dec(n).len() <= 2,
{
    reveal_with_fuel(dec, 4);
}

proof fn lemma_octets(ip: u32)
    ensures
        forall|i: int| 0 <= i < 4 ==> 0 <= #[trigger] octet(ip as int, i) <= 255,
        octet(ip as int, 0) * 0x100_0000 + octet(ip as int, 1) * 0x1_0000 + octet(ip as int, 2)
            * 0x100 + octet(ip as int, 3) == ip,
{
}

proof fn lemma_octet_field(n: nat)
    requires
        n <= 255,
    ensures
        is_field(dec(n), 3, 255),
        number_value(dec(n), 10) == Some(n as int),
{
    law_decimal_roundtrip(n);
    lemma_dec_len(n);
}

proof fn lemma_ip_fields(ip: u32)
    ensures
        forall|i: int| 0 <= i < 4 ==> is_field(#[trigger] ip_fields(ip)[i], 3, 255),
        quad(ip_fields(ip)) == ip_text(ip),
        quad_value(ip_fields(ip)) == ip,
{
    lemma_octets(ip);
    let f = ip_fields(ip);
    lemma_octet_field(octet(ip as int, 0) as nat);
    lemma_octet_field(octet(ip as int, 1) as nat);
    lemma_octet_field(octet(ip as int, 2) as nat);
    lemma_octet_field(octet(ip as int, 3) as nat);
    assert(f[0] == dec(octet(ip as int, 0) as nat));
    assert(f[1] == dec(octet(ip as int, 1) as nat));
    assert(f[2] == dec(octet(ip as int, 2) as nat));
    assert(f[3] == dec(octet(ip as int, 3) as nat));
}

/// Reading a dotted quad gives back the address it was written from, so no two
/// addresses share a text.
pub proof fn law_ip_text_roundtrip(ip: u32)
    ensures
        read_fields(Fields { done: 0, cur: 0 }, ip_text(ip)) == (Fields {
            done: ip as int / 256,
            cur: ip as int % 256,
        }),
{
    lemma_ip_fields(ip);
    lemma_read_quad(ip_fields(ip));
}

/// Two addresses with one text are the same.
pub proof fn law_ip_text_injective(a: u32, b: u32)
    requires
        ip_text(a) == ip_text(b),
    ensures
        a == b,
{
    law_ip_text_roundtrip(a);
    law_ip_text_roundtrip(b);
}

fn read_all(cs: &[char]) -> (r: (u64, u64))
    ensures
        read_fields(Fields { done: 0, cur: 0 }, cs@) == (Fields {
            done: r.0 as int,
            cur: r.1 as int,
        }),
        r.0 <= 0xffff_ffff,
        r.1 <= 1000,
{
    let mut done: u64 = 0;
    let mut cur: u64 = 0;
    let mut i: usize = 0;
    while i < cs.len()
        invariant
            i <= cs@.len(),
            done <= 0xffff_ffff,
            cur <= 1000,
            read_fields(Fields { done: 0, cur: 0 }, cs@.take(i as int)) == (Fields {
                done: done as int,
                cur: cur as int,
            }),
        decreases cs@.len() - i,
    {
        proof {
            assert(cs@.take(i as int + 1).drop_last() =~= cs@.take(i as int));
        }
        match digit_of(cs[i]) {
            Some(d) => {
                cur = cur * 10 + d as u64;
                if cur > 1000 {
                    cur = 1000;
                }
            },
            None => {
                done = done * 256 + cur;
                if done > 0xffff_ffff {
                    done = 0xffff_ffff;
                }
                cur = 0;
            },
        }
        i += 1;
    }
    proof {
        assert(cs@.take(i as int) =~= cs@);
    }
    (done, cur)
}

/// The address that a text stands for: its dotted quad, four decimal octets
/// without leading zeros.
pub open spec fn ip_of(s: Seq<char>) -> Option<u32> {
    if exists|ip: u32| s == #[trigger] ip_text(ip) {
        Some(choose|ip: u32| s == #[trigger] ip_text(ip))
    } else {
        None
    }
}

/// An address's own text stands for it.
pub proof fn lemma_ip_of(ip: u32)
    ensures
        ip_of(ip_text(ip)) == Some(ip),
{
    let c = choose|c: u32| ip_text(ip) == #[trigger] ip_text(c);
    law_ip_text_injective(ip, c);
}

/// The address that a text stands for. `None` for a text that is none.
pub fn parse_ip(s: &str) -> (r: Option<u32>)
    ensures
        r == ip_of(s@),
        r matches Some(ip) ==> s@ == ip_text(ip),
        r is None ==> forall|ip: u32| s@ != #[trigger] ip_text(ip),
{
    let cs = chars_of(s);
    let (done, cur) = read_all(cs.as_slice());
    let n: u64 = done * 256 + cur;
    proof {
        assert forall|ip: u32| s@ == #[trigger] ip_text(ip) implies n == ip by {
            law_ip_text_roundtrip(ip);
        }
    }
    if n > 0xffff_ffff {
        return None;
    }
    let ip: u32 = n as u32;
    if ip_string(ip) == s.to_owned() {
        proof {
            lemma_ip_of(ip);
        }
        Some(ip)
    } else {
        None
    }
}

/// The text is a network of address `a` and prefix length `p`: four octets of
/// one to three digits, a slash, and one or two digits of at most 32.
pub open spec fn is_cidr(s: Seq<char>, a: u32, p: u8) -> bool {
    exists|o: Seq<Seq<char>>, q: Seq<char>|
        {
            &&& o.len() == 4
            &&& forall|i: int| 0 <= i < 4 ==> is_field(#[trigger] o[i], 3, 255)
            &&& is_field(q, 2, 32)
            &&& s == #[trigger] (quad(o) + seq!['/'] + q)
            &&& a == quad_value(o)
            &&& p == number_value(q, 10)->0
        }
}

/// A text is a network in at most one way.
pub proof fn law_cidr_unambiguous(s: Seq<char>, a: u32, p: u8, b: u32, q: u8)
    requires
        is_cidr(s, a, p),
        is_cidr(s, b, q),
    ensures
        a == b,
        p == q,
{
    lemma_read_cidr(s, a, p);
    lemma_read_cidr(s, b, q);
}

proof fn lemma_read_cidr(s: Seq<char>, a: u32, p: u8)
    requires
        is_cidr(s, a, p),
    ensures
        read_fields(Fields { done: 0, cur: 0 }, s) == (Fields { done: a as int, cur: p as int }),
{
    let (o, q) = choose|o: Seq<Seq<char>>, q: Seq<char>|
        {
            &&& o.len() == 4
            &&& forall|i: int| 0 <= i < 4 ==> is_field(#[trigger] o[i], 3, 255)
            &&& is_field(q, 2, 32)
            &&& s == #[trigger] (quad(o) + seq!['/'] + q)
            &&& a == quad_value(o)
            &&& p == number_value(q, 10)->0
        };
    let start = Fields { done: 0, cur: 0 };
    let slash = seq!['/'];
    lemma_read_quad(o);
    lemma_read_fields_concat(start, quad(o), slash);
    lemma_read_separator(read_fields(start, quad(o)), '/');
    lemma_read_fields_concat(start, quad(o) + slash, q);
    lemma_read_number(a as int, q);
}

/// A network's own text reads back as the network.
pub proof fn law_net_text_is_cidr(n: Ipv4Net)
    requires
        n.wf(),
    ensures
        is_cidr(net_text(n), n.addr, n.prefix),
{
    lemma_ip_fields(n.addr);
    law_decimal_roundtrip(n.prefix as nat);
    lemma_dec_len(n.prefix as nat);
    assert(net_text(n) == quad(ip_fields(n.addr)) + seq!['/'] + dec(n.prefix as nat));
}

/// `ipnet::Ipv4Net::from_str`: reads four octets of one to three digits, a
/// slash and a prefix length of one or two digits, and refuses all else.
#[verifier::external_body]
fn ipnet_parse(s: &str) -> (r: Option<(u32, u8)>)
    ensures
        r matches Some(n) ==> is_cidr(s@, n.0, n.1),
        r is None ==> forall|a: u32, p: u8| !(#[trigger] is_cidr(s@, a, p)),
{
    match s.parse::<ipnet::Ipv4Net>() {
        Ok(n) => Some((u32::from(n.addr()), n.prefix_len())),
        Err(_) => None,
    }
}

/// The network that a text stands for.
pub open spec fn cidr_net(s: Seq<char>) -> Option<Ipv4Net> {
    if exists|a: u32, p: u8| #[trigger] is_cidr(s, a, p) {
        let (a, p) = choose|a: u32, p: u8| #[trigger] is_cidr(s, a, p);
        Some(Ipv4Net { addr: a, prefix: p })
    } else {
        None
    }
}

/// What `cidr_net` gives for a text that is a network.
pub proof fn lemma_cidr_net(s: Seq<char>, a: u32, p: u8)
    requires
        is_cidr(s, a, p),
    ensures
        cidr_net(s) == Some(Ipv4Net { addr: a, prefix: p }),
        p <= 32,
{
    let (b, q) = choose|b: u32, q: u8| #[trigger] is_cidr(s, b, q);
    law_cidr_unambiguous(s, a, p, b, q);
}

/// A network read from a text is well formed.
pub proof fn lemma_cidr_net_wf(s: Seq<char>)
    ensures
        cidr_net(s) is Some ==> cidr_net(s)->0.wf(),
{
    if cidr_net(s) is Some {
        let (a, p) = choose|a: u32, p: u8| #[trigger] is_cidr(s, a, p);
        lemma_cidr_net(s, a, p);
    }
}

/// A network's text stands for the network.
pub proof fn law_net_text_roundtrip(n: Ipv4Net)
    requires
        n.wf(),
    ensures
        cidr_net(net_text(n)) == Some(n),
{
    law_net_text_is_cidr(n);
    lemma_cidr_net(net_text(n), n.addr, n.prefix);
}

/// The network that a text stands for, if it is one.
pub fn parse_net(s: &str) -> (r: Option<Ipv4Net>)
    ensures
        r == cidr_net(s@),
        r is Some ==> r->0.wf(),
{
    match ipnet_parse(s) {
        Some((addr, prefix)) => {
            proof {
                lemma_cidr_net(s@, addr, prefix);
            }
            Some(Ipv4Net { addr, prefix })
        },
        None => None,
    }
}

/// The first address from `lo` up to `hi` that is not taken.
pub open spec fn first_free(lo: int, hi: int, taken: Set<u32>) -> Option<u32>
    decreases hi - lo + 1,
{
    if lo > hi {
        None
    } else if !taken.contains(lo as u32) {
        Some(lo as u32)
    } else {
        first_free(lo + 1, hi, taken)
    }
}

pub proof fn lemma_first_free(lo: int, hi: int, taken: Set<u32>)
    requires
        0 <= lo,
        hi <= u32::MAX,
    ensures
        match first_free(lo, hi, taken) {
            Some(ip) => lo <= ip <= hi && !taken.contains(ip),
            None => forall|ip: u32| lo <= ip <= hi ==> taken.contains(ip),
        },
    decreases hi - lo + 1,
{
    if lo <= hi {
        lemma_first_free(lo + 1, hi, taken);
    }
}

/// The first address from `lo` up to `hi` that is not taken.
pub fn find_free(lo: u32, hi: u32, taken: &HashSet<u32>) -> (r: Option<u32>)
    ensures
        r == first_free(lo as int, hi as int, taken@),
{
    let mut ip: u64 = lo as u64;
    while ip <= hi as u64
        invariant
            lo <= ip,
            ip <= hi + 1 || ip == lo,
            first_free(lo as int, hi as int, taken@) == first_free(ip as int, hi as int, taken@),
        decreases hi + 1 - ip,
    {
        let candidate: u32 = ip as u32;
        if !taken.contains(&candidate) {
            return Some(candidate);
        }
        ip += 1;
    }
    None
}

} // verus!
