//! Payloads written as hex digits.

use vstd::prelude::*;
use crate::mac::lemma_hex_digit;
use crate::text::{chars_of, dec, digit_char, hex_digit_of, hex_value, opt_str, push_dec, quote_char, quoted_char};

verus! {

/// Why a text is no payload.
#[derive(Clone, Copy, Debug, PartialEq, Eq, Structural)]
pub enum HexError {
    /// A character that is neither a hex digit nor a separator.
    Invalid(char),
    /// An odd number of digits.
    Odd(usize),
}

/// A character that may stand between digits.
pub open spec fn separator(c: char) -> bool {
    c == ' ' || c == '\t' || c == '\n' || c == '\r' || c == ':' || c == '-' || c == '_'
}

/// The values of a text's digits, separators aside; or the first character that
/// is neither.
pub open spec fn hex_digits(s: Seq<char>) -> Result<Seq<int>, char>
    decreases s.len(),
{
    if s.len() == 0 {
        Ok(Seq::empty())
    } else {
        match hex_digits(s.drop_last()) {
            Err(c) => Err(c),
            Ok(v) => if separator(s.last()) {
                Ok(v)
            } else {
                match hex_value(s.last()) {
                    Some(d) => Ok(v.push(d)),
                    None => Err(s.last()),
                }
            },
        }
    }
}

/// Two digits a byte, the high one first.
pub open spec fn paired(v: Seq<int>) -> Seq<u8> {
    Seq::new((v.len() / 2) as nat, |i: int| (v[2 * i] * 16 + v[2 * i + 1]) as u8)
}

/// The bytes that a text of hex digits stands for.
pub open spec fn decoded(s: Seq<char>) -> Result<Seq<u8>, HexError> {
    match hex_digits(s) {
        Err(c) => Err(HexError::Invalid(c)),
        Ok(v) => if v.len() % 2 == 1 {
            Err(HexError::Odd(v.len() as usize))
        } else {
            Ok(paired(v))
        },
    }
}

/// The digits so far, as numbers.
pub open spec fn widened(v: Seq<u8>) -> Seq<int> {
    v.map_values(|d: u8| d as int)
}

proof fn lemma_first_bad(s: Seq<char>, i: int)
    requires
        0 <= i < s.len(),
        hex_digits(s.take(i)) is Ok,
        !separator(s[i]),
        hex_value(s[i]) is None,
    ensures
        hex_digits(s) == Err::<Seq<int>, char>(s[i]),
    decreases s.len(),
{
    if i == s.len() - 1 {
        assert(s.drop_last() =~= s.take(i));
    } else {
        assert(s.drop_last().take(i) =~= s.take(i));
        lemma_first_bad(s.drop_last(), i);
    }
}

/// Decode a payload to bytes. Separators are left out first; the remainder must
/// be an even number of hex digits.
pub fn decode_hex_strict(s: &str) -> (r: Result<Vec<u8>, HexError>)
    ensures
        match r {
            Ok(b) => decoded(s@) == Ok::<Seq<u8>, HexError>(b@),
            Err(e) => decoded(s@) == Err::<Seq<u8>, HexError>(e),
        },
{
    let cs = chars_of(s);
    let mut nibbles: Vec<u8> = Vec::new();
    let mut i: usize = 0;
    proof {
        assert(s@.take(0) =~= Seq::empty());
        assert(widened(nibbles@) =~= Seq::empty());
    }
    while i < cs.len()
        invariant
            i <= cs@.len(),
            cs@ == s@,
            nibbles@.len() <= i,
            hex_digits(s@.take(i as int)) == Ok::<Seq<int>, char>(widened(nibbles@)),
            forall|k: int| 0 <= k < nibbles@.len() ==> #[trigger] nibbles@[k] < 16,
        decreases cs@.len() - i,
    {
        let c: char = cs[i];
        proof {
            assert(s@.take(i as int + 1).drop_last() =~= s@.take(i as int));
        }
        if !(c == ' ' || c == '\t' || c == '\n' || c == '\r' || c == ':' || c == '-' || c == '_') {
            match hex_digit_of(c) {
                Some(d) => {
                    let ghost before = nibbles@;
                    nibbles.push(d);
                    proof {
                        assert(widened(nibbles@) =~= widened(before).push(d as int));
                    }
                },
                None => {
                    proof {
                        lemma_first_bad(s@, i as int);
                    }
                    return Err(HexError::Invalid(c));
                },
            }
        }
        i += 1;
    }
    proof {
        assert(s@.take(i as int) =~= s@);
    }
    let n: usize = nibbles.len();
    if n % 2 == 1 {
        return Err(HexError::Odd(n));
    }
    let mut out: Vec<u8> = Vec::new();
    let mut k: usize = 0;
    while k < n / 2
        invariant
            n == nibbles@.len(),
            k <= n / 2,
            out@.len() == k,
            forall|j: int| 0 <= j < nibbles@.len() ==> #[trigger] nibbles@[j] < 16,
            forall|j: int| 0 <= j < k ==> #[trigger] out@[j] == paired(widened(nibbles@))[j],
        decreases n / 2 - k,
    {
        let b: u8 = nibbles[2 * k] * 16 + nibbles[2 * k + 1];
        out.push(b);
        k += 1;
    }
    proof {
        assert(out@ =~= paired(widened(nibbles@)));
    }
    Ok(out)
}

/// What a refused payload is refused with.
pub open spec fn hex_message(e: HexError) -> Seq<char> {
    match e {
        HexError::Invalid(c) => "payload_hex: invalid character "@ + quoted_char(c),
        HexError::Odd(n) => "payload_hex: "@ + dec(n as nat)
            + " hex digit(s) is odd; a byte needs two"@,
    }
}

impl HexError {
    /// The error in print.
    pub fn message(self) -> (r: String)
        ensures
            r@ == hex_message(self),
    {
        match self {
            HexError::Invalid(c) => {
                let mut s = "payload_hex: invalid character ".to_owned();
                s.append(quote_char(c).as_str());
                s
            },
            HexError::Odd(n) => {
                let mut s = "payload_hex: ".to_owned();
                push_dec(&mut s, n as u64);
                s.append(" hex digit(s) is odd; a byte needs two");
                s
            },
        }
    }
}

/// The payload that an optional text asks for: its bytes, or `default` where it
/// gives none.
pub open spec fn payload_of(hex: Option<Seq<char>>, default: Seq<u8>) -> Seq<u8> {
    match hex {
        Some(h) => match decoded(h) {
            Ok(b) => if b.len() > 0 {
                b
            } else {
                default
            },
            Err(_) => default,
        },
        None => default,
    }
}

/// Decode an optional payload to bytes, falling back to `default` when it is
/// absent, empty or malformed.
pub fn payload_bytes(hex: Option<&str>, default: &[u8]) -> (r: Vec<u8>)
    ensures
        r@ == payload_of(opt_str(hex), default@),
{
    match hex {
        Some(h) => match decode_hex_strict(h) {
            Ok(b) => if b.len() > 0 {
                b
            } else {
                vstd::slice::slice_to_vec(default)
            },
            Err(_) => vstd::slice::slice_to_vec(default),
        },
        None => vstd::slice::slice_to_vec(default),
    }
}

/// The two digits of each byte, in lower case.
pub open spec fn hex_pairs(b: Seq<u8>) -> Seq<char>
    decreases b.len(),
{
    if b.len() == 0 {
        Seq::empty()
    } else {
        hex_pairs(b.drop_last()).push(digit_char(b.last() as int / 16)).push(
            digit_char(b.last() as int % 16),
        )
    }
}

proof fn lemma_pair_digits(b: Seq<u8>)
    ensures
        hex_digits(hex_pairs(b)) is Ok,
        hex_digits(hex_pairs(b))->Ok_0.len() == 2 * b.len(),
        forall|i: int|
            0 <= i < b.len() ==> #[trigger] hex_digits(hex_pairs(b))->Ok_0[2 * i] == b[i] as int / 16
                && hex_digits(hex_pairs(b))->Ok_0[2 * i + 1] == b[i] as int % 16,
    decreases b.len(),
{
    if b.len() > 0 {
        let sub = b.drop_last();
        lemma_pair_digits(sub);
        let hi = digit_char(b.last() as int / 16);
        let lo = digit_char(b.last() as int % 16);
        let t = hex_pairs(sub);
        lemma_hex_digit(b.last() as int / 16);
        lemma_hex_digit(b.last() as int % 16);
        assert(t.push(hi).drop_last() =~= t);
        assert(!separator(hi) && !separator(lo));
        assert(t.push(hi).push(lo).drop_last() =~= t.push(hi));
        let v = hex_digits(t)->Ok_0;
        assert(hex_digits(t.push(hi)) == Ok::<Seq<int>, char>(v.push(b.last() as int / 16)));
        assert(hex_pairs(b) == t.push(hi).push(lo));
        assert(hex_digits(hex_pairs(b)) == Ok::<Seq<int>, char>(
            v.push(b.last() as int / 16).push(b.last() as int % 16),
        ));
        assert forall|i: int| 0 <= i < b.len() implies #[trigger] hex_digits(hex_pairs(b))->Ok_0[2 * i] == b[i] as int / 16
                && hex_digits(hex_pairs(b))->Ok_0[2 * i + 1] == b[i] as int % 16 by {
            if i < sub.len() {
                assert(hex_digits(t)->Ok_0[2 * i] == sub[i] as int / 16);
            }
        }
    }
}

/// Any bytes, written two digits each, decode to themselves.
pub proof fn law_hex_reads_back(b: Seq<u8>)
    ensures
        decoded(hex_pairs(b)) == Ok::<Seq<u8>, HexError>(b),
{
    lemma_pair_digits(b);
    let v = hex_digits(hex_pairs(b))->Ok_0;
    assert forall|i: int| 0 <= i < b.len() implies #[trigger] paired(v)[i] == b[i] by {
        assert(v[2 * i] == b[i] as int / 16);
    }
    assert(paired(v) =~= b);
}

} // verus!
