//! MAC addresses in their colon-separated text form.

use vstd::prelude::*;
use crate::text::{
    chars_of, digit, digit_char, hex_value, lemma_split_nonempty, number_of, parse_number,
    read_digits, runs, split, split_on, NumberError,
};

verus! {

/// A byte as two hexadecimal digits.
pub open spec fn byte_text(b: u8) -> Seq<char> {
    seq![digit_char(b as int / 16), digit_char(b as int % 16)]
}

/// A MAC address as six bytes of two hexadecimal digits, colons between them.
pub open spec fn mac_text(m: Seq<u8>) -> Seq<char> {
    byte_text(m[0]) + seq![':'] + byte_text(m[1]) + seq![':'] + byte_text(m[2]) + seq![':']
        + byte_text(m[3]) + seq![':'] + byte_text(m[4]) + seq![':'] + byte_text(m[5])
}

fn push_byte(s: &mut String, b: u8)
    ensures
        final(s)@ == old(s)@ + byte_text(b),
{
    s.push(digit(b / 16));
    s.push(digit(b % 16));
    proof {
        assert(s@ =~= old(s)@ + byte_text(b));
    }
}

/// A MAC address in text form.
pub fn fmt_mac(m: [u8; 6]) -> (r: String)
    ensures
        r@ == mac_text(m@),
{
    let mut s = String::new();
    push_byte(&mut s, m[0]);
    s.push(':');
    push_byte(&mut s, m[1]);
    s.push(':');
    push_byte(&mut s, m[2]);
    s.push(':');
    push_byte(&mut s, m[3]);
    s.push(':');
    push_byte(&mut s, m[4]);
    s.push(':');
    push_byte(&mut s, m[5]);
    proof {
        assert(s@ =~= mac_text(m@));
    }
    s
}

/// The byte that a text stands for in hexadecimal, 0 if it is none.
pub open spec fn byte_of(s: Seq<char>) -> u8 {
    match number_of(s, 16) {
        Ok(n) => if n <= 255 {
            n as u8
        } else {
            0
        },
        Err(_) => 0,
    }
}

/// The address that a text stands for: its first six colon-separated parts, each
/// a byte; a part that is missing or is no byte counts as 0.
pub open spec fn mac_of(s: Seq<char>) -> Seq<u8> {
    let parts = split(s, ':');
    Seq::new(
        6,
        |i: int|
            if i < parts.len() {
                byte_of(parts[i])
            } else {
                0
            },
    )
}

fn byte_at(parts: &Vec<Vec<char>>, i: usize) -> (r: u8)
    ensures
        r == (if i < parts@.len() {
            byte_of(runs(parts@)[i as int])
        } else {
            0
        }),
{
    if i < parts.len() {
        match parse_number(parts[i].as_slice(), 16) {
            Ok(n) => if n <= 255 {
                n as u8
            } else {
                0
            },
            Err(_) => 0,
        }
    } else {
        0
    }
}

/// The address that a text stands for. Never fails: what cannot be read is 0.
pub fn parse_mac(s: &str) -> (r: [u8; 6])
    ensures
        r@ == mac_of(s@),
{
    let cs = chars_of(s);
    let parts = split_on(cs.as_slice(), ':');
    let r: [u8; 6] = [
        byte_at(&parts, 0),
        byte_at(&parts, 1),
        byte_at(&parts, 2),
        byte_at(&parts, 3),
        byte_at(&parts, 4),
        byte_at(&parts, 5),
    ];
    proof {
        assert(r@ =~= mac_of(s@));
    }
    r
}

pub proof fn lemma_hex_digit(d: int)
    requires
        0 <= d < 16,
    ensures
        hex_value(digit_char(d)) == Some(d),
        digit_char(d) != ':',
        digit_char(d) != '+',
{
}

proof fn lemma_byte_reads_back(b: u8)
    ensures
        byte_of(byte_text(b)) == b,
        forall|i: int| 0 <= i < byte_text(b).len() ==> byte_text(b)[i] != ':',
{
    let s = byte_text(b);
    let hi = b as int / 16;
    let lo = b as int % 16;
    lemma_hex_digit(hi);
    lemma_hex_digit(lo);
    let t = s.drop_first();
    assert(t[0] == s[1]);
    let u = t.drop_first();
    assert(u.len() == 0);
    assert(read_digits(hi * 16 + lo, u, 16) == Ok::<u64, NumberError>((hi * 16 + lo) as u64));
    assert(read_digits(hi, t, 16) == Ok::<u64, NumberError>((hi * 16 + lo) as u64));
    assert(read_digits(0, s, 16) == Ok::<u64, NumberError>((hi * 16 + lo) as u64));
}

/// Text without the separator adds to the last part.
proof fn lemma_split_tail(a: Seq<char>, b: Seq<char>, c: char)
    requires
        forall|i: int| 0 <= i < b.len() ==> b[i] != c,
    ensures
        ({
            let r = split(a, c);
            split(a + b, c) == r.update(r.len() - 1, r.last() + b)
        }),
    decreases b.len(),
{
    let r = split(a, c);
    lemma_split_nonempty(a, c);
    if b.len() == 0 {
        assert(a + b =~= a);
        assert(r.last() + b =~= r.last());
        assert(r.update(r.len() - 1, r.last() + b) =~= r);
    } else {
        let head = b.drop_last();
        assert forall|i: int| 0 <= i < head.len() implies head[i] != c by {
            assert(head[i] == b[i]);
        }
        lemma_split_tail(a, head, c);
        assert((a + b).drop_last() =~= a + head);
        assert((a + b).last() == b.last());
        let q = split(a + head, c);
        assert((r.last() + head).push(b.last()) =~= r.last() + b);
        assert(q.update(q.len() - 1, q.last().push(b.last())) =~= r.update(
            r.len() - 1,
            r.last() + b,
        ));
    }
}

/// A separator and a text without one add a part.
proof fn lemma_split_next(a: Seq<char>, b: Seq<char>, c: char)
    requires
        forall|i: int| 0 <= i < b.len() ==> b[i] != c,
    ensures
        split(a + seq![c] + b, c) == split(a, c).push(b),
{
    assert((a + seq![c]).drop_last() =~= a);
    assert(split(a + seq![c], c) == split(a, c).push(Seq::<char>::empty()));
    lemma_split_tail(a + seq![c], b, c);
    let r = split(a, c).push(Seq::<char>::empty());
    assert(Seq::<char>::empty() + b =~= b);
    assert(r.update(r.len() - 1, r.last() + b) =~= split(a, c).push(b));
}

/// A MAC address reads back from its text.
pub proof fn law_mac_text_roundtrip(m: Seq<u8>)
    requires
        m.len() == 6,
    ensures
        mac_of(mac_text(m)) == m,
{
    let c = ':';
    let sep = seq![c];
    lemma_byte_reads_back(m[0]);
    lemma_byte_reads_back(m[1]);
    lemma_byte_reads_back(m[2]);
    lemma_byte_reads_back(m[3]);
    lemma_byte_reads_back(m[4]);
    lemma_byte_reads_back(m[5]);
    let t0 = byte_text(m[0]);
    let t1 = t0 + sep + byte_text(m[1]);
    let t2 = t1 + sep + byte_text(m[2]);
    let t3 = t2 + sep + byte_text(m[3]);
    let t4 = t3 + sep + byte_text(m[4]);
    let e = Seq::<char>::empty();
    assert(e + t0 =~= t0);
    lemma_split_tail(e, t0, c);
    assert(split(e, c) =~= seq![e]);
    assert(split(t0, c) =~= seq![t0]);
    lemma_split_next(t0, byte_text(m[1]), c);
    lemma_split_next(t1, byte_text(m[2]), c);
    lemma_split_next(t2, byte_text(m[3]), c);
    lemma_split_next(t3, byte_text(m[4]), c);
    lemma_split_next(t4, byte_text(m[5]), c);
    let p = split(mac_text(m), c);
    assert(p.len() == 6);
    assert(p[0] == t0);
    assert(p[1] == byte_text(m[1]));
    assert(p[2] == byte_text(m[2]));
    assert(p[3] == byte_text(m[3]));
    assert(p[4] == byte_text(m[4]));
    assert(p[5] == byte_text(m[5]));
    assert(mac_of(mac_text(m)) =~= m);
}

} // verus!
