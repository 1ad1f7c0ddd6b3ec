//! Text building and scanning over character sequences.

use vstd::prelude::*;
use vstd::string::StringSliceAdditionalSpecFns;

verus! {

/// `String::push` appends one character.
pub assume_specification[ String::push ](s: &mut String, c: char)
    ensures
        final(s)@ == old(s)@.push(c),
;

/// The characters of a string.
pub fn chars_of(s: &str) -> (r: Vec<char>)
    ensures
        r@ == s@,
{
    let mut r: Vec<char> = Vec::new();
    for c in it: s.chars()
        invariant
            r@ == s@.take(it.index()),
            it.seq() == s@,
    {
        r.push(c);
        proof {
            assert(s@.take(it.index() + 1) =~= s@.take(it.index()).push(c));
        }
    }
    proof {
        assert(s@.take(s@.len() as int) =~= s@);
    }
    r
}

/// The string made of the characters.
pub fn string_of(v: &[char]) -> (r: String)
    ensures
        r@ == v@,
{
    let mut r = String::new();
    let mut i: usize = 0;
    while i < v.len()
        invariant
            i <= v@.len(),
            r@ == v@.take(i as int),
        decreases v@.len() - i,
    {
        r.push(v[i]);
        proof {
            assert(v@.take(i as int + 1) =~= v@.take(i as int).push(v@[i as int]));
        }
        i += 1;
    }
    proof {
        assert(v@.take(i as int) =~= v@);
    }
    r
}

/// Whether two strings hold the same text.
pub fn str_eq(a: &str, b: &str) -> (r: bool)
    ensures
        r == (a@ == b@),
{
    a.to_owned() == b.to_owned()
}

/// The decimal digit of a value under ten.
pub open spec fn digit_char(d: int) -> char {
    if d == 0 {
        '0'
    } else if d == 1 {
        '1'
    } else if d == 2 {
        '2'
    } else if d == 3 {
        '3'
    } else if d == 4 {
        '4'
    } else if d == 5 {
        '5'
    } else if d == 6 {
        '6'
    } else if d == 7 {
        '7'
    } else if d == 8 {
        '8'
    } else if d == 9 {
        '9'
    } else if d == 10 {
        'a'
    } else if d == 11 {
        'b'
    } else if d == 12 {
        'c'
    } else if d == 13 {
        'd'
    } else if d == 14 {
        'e'
    } else {
        'f'
    }
}

/// The value of a decimal digit.
pub open spec fn digit_value(c: char) -> Option<int> {
    if '0' <= c <= '9' {
        Some(c as int - '0' as int)
    } else {
        None
    }
}

/// The value of a hexadecimal digit of either case.
pub open spec fn hex_value(c: char) -> Option<int> {
    if '0' <= c <= '9' {
        Some(c as int - '0' as int)
    } else if 'a' <= c <= 'f' {
        Some(c as int - 'a' as int + 10)
    } else if 'A' <= c <= 'F' {
        Some(c as int - 'A' as int + 10)
    } else {
        None
    }
}

/// A number in decimal.
pub open spec fn dec(n: nat) -> Seq<char>
    decreases n,
{
    if n < 10 {
        seq![digit_char(n as int)]
    } else {
        dec(n / 10).push(digit_char((n % 10) as int))
    }
}

/// A number in lower-case hexadecimal.
pub open spec fn hex(n: nat) -> Seq<char>
    decreases n,
{
    if n < 16 {
        seq![digit_char(n as int)]
    } else {
        hex(n / 16).push(digit_char((n % 16) as int))
    }
}

/// The value of a run of digits in a base, with `None` for a character that is
/// no digit.
pub open spec fn number_value(s: Seq<char>, base: int) -> Option<int>
    decreases s.len(),
{
    if s.len() == 0 {
        Some(0)
    } else {
        let head = number_value(s.drop_last(), base);
        let d = if base == 16 {
            hex_value(s.last())
        } else {
            digit_value(s.last())
        };
        match (head, d) {
            (Some(h), Some(d)) => Some(h * base + d),
            _ => None,
        }
    }
}

pub fn digit(d: u8) -> (c: char)
    requires
        d < 16,
    ensures
        c == digit_char(d as int),
{
    match d {
        0 => '0',
        1 => '1',
        2 => '2',
        3 => '3',
        4 => '4',
        5 => '5',
        6 => '6',
        7 => '7',
        8 => '8',
        9 => '9',
        10 => 'a',
        11 => 'b',
        12 => 'c',
        13 => 'd',
        14 => 'e',
        _ => 'f',
    }
}

/// Append a number in decimal.
pub fn push_dec(s: &mut String, n: u64)
    ensures
        final(s)@ == old(s)@ + dec(n as nat),
    decreases n,
{
    if n >= 10 {
        push_dec(s, n / 10);
    }
    s.push(digit((n % 10) as u8));
    proof {
        assert(s@ =~= old(s)@ + dec(n as nat));
    }
}

/// Append a number in hexadecimal.
pub fn push_hex(s: &mut String, n: u64)
    ensures
        final(s)@ == old(s)@ + hex(n as nat),
    decreases n,
{
    if n >= 16 {
        push_hex(s, n / 16);
    }
    s.push(digit((n % 16) as u8));
    proof {
        assert(s@ =~= old(s)@ + hex(n as nat));
    }
}

/// A number in decimal.
pub fn dec_string(n: u64) -> (r: String)
    ensures
        r@ == dec(n as nat),
{
    let mut s = String::new();
    push_dec(&mut s, n);
    proof {
        assert(s@ =~= dec(n as nat));
    }
    s
}

/// The value of a decimal digit, in executable form.
pub fn digit_of(c: char) -> (r: Option<u8>)
    ensures
        r is Some <==> digit_value(c) is Some,
        r is Some ==> r->0 == digit_value(c)->0 && r->0 < 10,
{
    if '0' <= c && c <= '9' {
        Some((c as u32 - '0' as u32) as u8)
    } else {
        None
    }
}

/// The value of a hexadecimal digit, in executable form.
pub fn hex_digit_of(c: char) -> (r: Option<u8>)
    ensures
        r is Some <==> hex_value(c) is Some,
        r is Some ==> r->0 == hex_value(c)->0 && r->0 < 16,
{
    if '0' <= c && c <= '9' {
        Some((c as u32 - '0' as u32) as u8)
    } else if 'a' <= c && c <= 'f' {
        Some((c as u32 - 'a' as u32) as u8 + 10)
    } else if 'A' <= c && c <= 'F' {
        Some((c as u32 - 'A' as u32) as u8 + 10)
    } else {
        None
    }
}

pub proof fn lemma_digit_roundtrip(d: int)
    requires
        0 <= d < 10,
    ensures
        digit_value(digit_char(d)) == Some(d),
{
}

/// A decimal rendering reads back as the number.
pub proof fn law_decimal_roundtrip(n: nat)
    ensures
        number_value(dec(n), 10) == Some(n as int),
        dec(n).len() > 0,
        forall|i: int| 0 <= i < dec(n).len() ==> digit_value(#[trigger] dec(n)[i]) is Some,
    decreases n,
{
    lemma_digit_roundtrip((n % 10) as int);
    assert(number_value(Seq::<char>::empty(), 10) == Some(0int));
    if n < 10 {
        assert(dec(n).drop_last() =~= Seq::<char>::empty());
    } else {
        law_decimal_roundtrip(n / 10);
        assert(dec(n).drop_last() =~= dec(n / 10));
    }
}

/// The text of an optional string.
pub open spec fn opt_text(o: Option<String>) -> Option<Seq<char>> {
    match o {
        Some(s) => Some(s@),
        None => None,
    }
}

/// A copy of an optional string.
pub fn clone_opt(o: &Option<String>) -> (r: Option<String>)
    ensures
        r == *o,
{
    match o {
        Some(s) => Some(s.clone()),
        None => None,
    }
}

/// The texts of a list of strings.
pub open spec fn texts(v: Seq<String>) -> Seq<Seq<char>> {
    v.map_values(|s: String| s@)
}

/// A copy of a list of strings.
pub fn clone_strings(v: &Vec<String>) -> (r: Vec<String>)
    ensures
        r@ == v@,
{
    let mut r: Vec<String> = Vec::new();
    let mut i: usize = 0;
    while i < v.len()
        invariant
            i <= v@.len(),
            r@.len() == i,
            forall|k: int| 0 <= k < i ==> #[trigger] r@[k] == v@[k],
        decreases v@.len() - i,
    {
        r.push(v[i].clone());
        i += 1;
    }
    proof {
        assert(r@ =~= v@);
    }
    r
}

/// A white space character, as Unicode counts them.
pub open spec fn is_white(c: char) -> bool {
    let n = c as u32;
    ||| 0x09 <= n <= 0x0d
    ||| n == 0x20
    ||| n == 0x85
    ||| n == 0xa0
    ||| n == 0x1680
    ||| 0x2000 <= n <= 0x200a
    ||| n == 0x2028
    ||| n == 0x2029
    ||| n == 0x202f
    ||| n == 0x205f
    ||| n == 0x3000
}

pub fn white(c: char) -> (r: bool)
    ensures
        r == is_white(c),
{
    let n: u32 = c as u32;
    (0x09 <= n && n <= 0x0d) || n == 0x20 || n == 0x85 || n == 0xa0 || n == 0x1680 || (0x2000 <= n
        && n <= 0x200a) || n == 0x2028 || n == 0x2029 || n == 0x202f || n == 0x205f || n == 0x3000
}

/// A text without the white space at its start.
pub open spec fn trim_start(s: Seq<char>) -> Seq<char>
    decreases s.len(),
{
    if s.len() > 0 && is_white(s[0]) {
        trim_start(s.drop_first())
    } else {
        s
    }
}

/// A text without the white space at its end.
pub open spec fn trim_end(s: Seq<char>) -> Seq<char>
    decreases s.len(),
{
    if s.len() > 0 && is_white(s.last()) {
        trim_end(s.drop_last())
    } else {
        s
    }
}

/// A text without the white space at either end.
pub open spec fn trimmed(s: Seq<char>) -> Seq<char> {
    trim_end(trim_start(s))
}

/// The part of a character run behind the white space at its front.
pub fn trim_front(s: &[char]) -> (r: &[char])
    ensures
        r@ == trim_start(s@),
{
    let mut lo: usize = 0;
    proof {
        assert(s@.skip(0) =~= s@);
    }
    while lo < s.len() && white(s[lo])
        invariant
            lo <= s@.len(),
            trim_start(s@) == trim_start(s@.skip(lo as int)),
        decreases s@.len() - lo,
    {
        proof {
            assert(s@.skip(lo as int).drop_first() =~= s@.skip(lo as int + 1));
        }
        lo += 1;
    }
    proof {
        assert(s@.subrange(lo as int, s@.len() as int) =~= s@.skip(lo as int));
    }
    vstd::slice::slice_subrange(s, lo, s.len())
}

/// The part of a character run between the white space at its ends.
pub fn trim(s: &[char]) -> (r: &[char])
    ensures
        r@ == trimmed(s@),
{
    let mut lo: usize = 0;
    proof {
        assert(s@.skip(0) =~= s@);
    }
    while lo < s.len() && white(s[lo])
        invariant
            lo <= s@.len(),
            trim_start(s@) == trim_start(s@.skip(lo as int)),
        decreases s@.len() - lo,
    {
        proof {
            assert(s@.skip(lo as int).drop_first() =~= s@.skip(lo as int + 1));
        }
        lo += 1;
    }
    let mut hi: usize = s.len();
    proof {
        assert(trim_start(s@) == s@.skip(lo as int));
        assert(s@.subrange(lo as int, hi as int) =~= s@.skip(lo as int));
    }
    while hi > lo && white(s[hi - 1])
        invariant
            lo <= hi <= s@.len(),
            trimmed(s@) == trim_end(s@.subrange(lo as int, hi as int)),
        decreases hi,
    {
        proof {
            assert(s@.subrange(lo as int, hi as int).drop_last() =~= s@.subrange(
                lo as int,
                hi as int - 1,
            ));
        }
        hi -= 1;
    }
    vstd::slice::slice_subrange(s, lo, hi)
}

/// Why a text is not a number.
#[derive(Clone, Copy, Debug, PartialEq, Eq, Structural)]
pub enum NumberError {
    Empty,
    InvalidDigit,
    TooLarge,
}

/// The value of a character in base 10 or 16.
pub open spec fn digit_in(c: char, base: int) -> Option<int> {
    if base == 16 {
        hex_value(c)
    } else {
        digit_value(c)
    }
}

/// Read digits from left to right on top of `acc`. The first character that is
/// no digit, or that takes the number past `u64`, decides the error.
pub open spec fn read_digits(acc: int, s: Seq<char>, base: int) -> Result<u64, NumberError>
    decreases s.len(),
{
    if s.len() == 0 {
        Ok(acc as u64)
    } else {
        match digit_in(s[0], base) {
            None => Err(NumberError::InvalidDigit),
            Some(d) => if acc * base + d > u64::MAX {
                Err(NumberError::TooLarge)
            } else {
                read_digits(acc * base + d, s.drop_first(), base)
            },
        }
    }
}

/// The number a text stands for in a base: digits, after a plus sign if there is
/// one.
pub open spec fn number_of(s: Seq<char>, base: int) -> Result<u64, NumberError> {
    if s.len() == 0 {
        Err(NumberError::Empty)
    } else if s[0] == '+' {
        if s.len() == 1 {
            Err(NumberError::InvalidDigit)
        } else {
            read_digits(0, s.drop_first(), base)
        }
    } else {
        read_digits(0, s, base)
    }
}

/// The number a character run stands for in base 10 or 16.
pub fn parse_number(s: &[char], base: u64) -> (r: Result<u64, NumberError>)
    requires
        base == 10 || base == 16,
    ensures
        r == number_of(s@, base as int),
{
    if s.len() == 0 {
        return Err(NumberError::Empty);
    }
    let mut i: usize = 0;
    if s[0] == '+' {
        if s.len() == 1 {
            return Err(NumberError::InvalidDigit);
        }
        i = 1;
    }
    let mut acc: u64 = 0;
    proof {
        assert(s@.skip(0) =~= s@);
        assert(s@.skip(1) =~= s@.drop_first());
    }
    while i < s.len()
        invariant
            i <= s@.len(),
            base == 10 || base == 16,
            number_of(s@, base as int) == read_digits(acc as int, s@.skip(i as int), base as int),
        decreases s@.len() - i,
    {
        proof {
            assert(s@.skip(i as int).drop_first() =~= s@.skip(i as int + 1));
        }
        let d: Option<u8> = if base == 16 {
            hex_digit_of(s[i])
        } else {
            digit_of(s[i])
        };
        match d {
            None => {
                return Err(NumberError::InvalidDigit);
            },
            Some(d) => {
                let shifted: u128 = if base == 16 {
                    acc as u128 * 16
                } else {
                    acc as u128 * 10
                };
                let v: u128 = shifted + d as u128;
                if v > 0xffff_ffff_ffff_ffff {
                    return Err(NumberError::TooLarge);
                }
                acc = v as u64;
            },
        }
        i += 1;
    }
    Ok(acc)
}

/// The decimal rendering of a number stands for the number.
pub proof fn law_number_reads_back(n: u64)
    ensures
        number_of(dec(n as nat), 10) == Ok::<u64, NumberError>(n),
{
    law_decimal_roundtrip(n as nat);
    let s = dec(n as nat);
    assert(digit_value(s[0]) is Some);
    lemma_read_digits(0, s, n as int);
}

/// The value of a digit run on top of a number already read.
pub open spec fn appended(acc: int, s: Seq<char>) -> int
    decreases s.len(),
{
    if s.len() == 0 {
        acc
    } else {
        appended(acc, s.drop_last()) * 10 + digit_value(s.last())->0
    }
}

proof fn lemma_appended_value(s: Seq<char>)
    requires
        number_value(s, 10) is Some,
    ensures
        appended(0, s) == number_value(s, 10)->0,
    decreases s.len(),
{
    if s.len() > 0 {
        lemma_appended_value(s.drop_last());
    }
}

proof fn lemma_appended_first(acc: int, s: Seq<char>)
    requires
        s.len() > 0,
    ensures
        appended(acc, s) == appended(acc * 10 + digit_value(s[0])->0, s.drop_first()),
    decreases s.len(),
{
    if s.len() == 1 {
        assert(s.drop_last() =~= Seq::<char>::empty());
        assert(s.drop_first() =~= Seq::<char>::empty());
        assert(appended(acc, s.drop_last()) == acc);
    } else {
        lemma_appended_first(acc, s.drop_last());
        assert(s.drop_last().drop_first() =~= s.drop_first().drop_last());
    }
}

proof fn lemma_appended_grows(acc: int, s: Seq<char>)
    requires
        0 <= acc,
        forall|i: int| 0 <= i < s.len() ==> digit_value(#[trigger] s[i]) is Some,
    ensures
        acc <= appended(acc, s),
    decreases s.len(),
{
    if s.len() > 0 {
        lemma_appended_grows(acc, s.drop_last());
    }
}

proof fn lemma_read_digits_from(acc: int, s: Seq<char>)
    requires
        0 <= acc,
        forall|i: int| 0 <= i < s.len() ==> digit_value(#[trigger] s[i]) is Some,
        appended(acc, s) <= u64::MAX,
    ensures
        read_digits(acc, s, 10) == Ok::<u64, NumberError>(appended(acc, s) as u64),
    decreases s.len(),
{
    if s.len() > 0 {
        lemma_appended_first(acc, s);
        let next = acc * 10 + digit_value(s[0])->0;
        lemma_appended_grows(next, s.drop_first());
        lemma_read_digits_from(next, s.drop_first());
    }
}

proof fn lemma_read_digits(acc: int, s: Seq<char>, n: int)
    requires
        acc == 0,
        number_value(s, 10) == Some(n),
        n <= u64::MAX,
        forall|i: int| 0 <= i < s.len() ==> digit_value(#[trigger] s[i]) is Some,
    ensures
        read_digits(acc, s, 10) == Ok::<u64, NumberError>(n as u64),
{
    lemma_appended_value(s);
    lemma_read_digits_from(0, s);
}

/// The parts of a text between the separators `c`. There is always one more part
/// than there are separators.
pub open spec fn split(s: Seq<char>, c: char) -> Seq<Seq<char>>
    decreases s.len(),
{
    if s.len() == 0 {
        seq![Seq::<char>::empty()]
    } else {
        let r = split(s.drop_last(), c);
        if s.last() == c {
            r.push(Seq::<char>::empty())
        } else {
            r.update(r.len() - 1, r.last().push(s.last()))
        }
    }
}

/// The contents of a list of character runs.
pub open spec fn runs(v: Seq<Vec<char>>) -> Seq<Seq<char>> {
    v.map_values(|p: Vec<char>| p@)
}

pub proof fn lemma_split_nonempty(s: Seq<char>, c: char)
    ensures
        split(s, c).len() > 0,
    decreases s.len(),
{
    if s.len() > 0 {
        lemma_split_nonempty(s.drop_last(), c);
    }
}

/// The parts of a character run between the separators.
pub fn split_on(s: &[char], c: char) -> (r: Vec<Vec<char>>)
    ensures
        runs(r@) == split(s@, c),
        r@.len() > 0,
{
    let mut done: Vec<Vec<char>> = Vec::new();
    let mut cur: Vec<char> = Vec::new();
    let mut i: usize = 0;
    proof {
        assert(s@.take(0) =~= Seq::empty());
        assert(runs(done@).push(cur@) =~= seq![Seq::<char>::empty()]);
    }
    while i < s.len()
        invariant
            i <= s@.len(),
            runs(done@).push(cur@) == split(s@.take(i as int), c),
        decreases s@.len() - i,
    {
        proof {
            assert(s@.take(i as int + 1).drop_last() =~= s@.take(i as int));
        }
        let ghost before = done@;
        if s[i] == c {
            done.push(cur);
            cur = Vec::new();
            proof {
                assert(runs(done@) =~= runs(before).push(done@.last()@));
                assert(runs(done@).push(cur@) =~= split(s@.take(i as int), c).push(
                    Seq::<char>::empty(),
                ));
            }
        } else {
            let ghost old_cur = cur@;
            cur.push(s[i]);
            proof {
                let r = runs(before).push(old_cur);
                assert(runs(done@).push(cur@) =~= r.update(r.len() - 1, r.last().push(s@[i as int])));
            }
        }
        i += 1;
    }
    let ghost before = done@;
    let ghost last = cur@;
    done.push(cur);
    proof {
        assert(s@.take(i as int) =~= s@);
        assert(runs(done@) =~= runs(before).push(last));
    }
    done
}

/// The text holds the pattern at `i`.
pub open spec fn holds_at(s: Seq<char>, pat: Seq<char>, i: int) -> bool {
    0 <= i && i + pat.len() <= s.len() && s.subrange(i, i + pat.len()) == pat
}

/// The text holds the pattern.
pub open spec fn holds(s: Seq<char>, pat: Seq<char>) -> bool {
    exists|i: int| holds_at(s, pat, i)
}

/// Whether a character run starts with another.
pub fn starts_with(s: &[char], pat: &[char]) -> (r: bool)
    ensures
        r == holds_at(s@, pat@, 0),
{
    if pat.len() > s.len() {
        return false;
    }
    has_at(s, pat, 0)
}

fn has_at(s: &[char], pat: &[char], at: usize) -> (r: bool)
    requires
        at + pat.len() <= s.len(),
    ensures
        r == holds_at(s@, pat@, at as int),
{
    let mut k: usize = 0;
    while k < pat.len()
        invariant
            k <= pat@.len(),
            at + pat.len() <= s.len(),
            forall|j: int| 0 <= j < k ==> s@[at + j] == #[trigger] pat@[j],
        decreases pat@.len() - k,
    {
        if s[at + k] != pat[k] {
            proof {
                assert(s@.subrange(at as int, at + pat@.len())[k as int] != pat@[k as int]);
            }
            return false;
        }
        k += 1;
    }
    proof {
        assert(s@.subrange(at as int, at + pat@.len()) =~= pat@);
    }
    true
}

/// Whether a text holds a pattern.
pub fn contains(s: &str, pat: &str) -> (r: bool)
    ensures
        r == holds(s@, pat@),
{
    let cs = chars_of(s);
    let ps = chars_of(pat);
    if ps.len() > cs.len() {
        return false;
    }
    let last: usize = cs.len() - ps.len();
    let mut i: usize = 0;
    while i < last
        invariant
            last == cs.len() - ps.len(),
            i <= last,
            cs@ == s@,
            ps@ == pat@,
            forall|j: int| 0 <= j < i ==> !holds_at(s@, pat@, j),
        decreases last - i,
    {
        if has_at(cs.as_slice(), ps.as_slice(), i) {
            return true;
        }
        i += 1;
    }
    has_at(cs.as_slice(), ps.as_slice(), last)
}

/// Optional text, by reference.
pub open spec fn opt_str(o: Option<&str>) -> Option<Seq<char>> {
    match o {
        Some(s) => Some(s@),
        None => None,
    }
}

/// An optional string says the given text.
pub fn opt_is(o: &Option<String>, s: &str) -> (r: bool)
    ensures
        r == (opt_text(*o) == Some(s@)),
{
    match o {
        Some(t) => str_eq(t.as_str(), s),
        None => false,
    }
}

/// An optional string, by reference.
pub fn opt_ref(o: &Option<String>) -> (r: Option<&str>)
    ensures
        opt_str(r) == opt_text(*o),
{
    match o {
        Some(t) => Some(t.as_str()),
        None => None,
    }
}

/// The largest character boundary of a text at or below `max`.
pub open spec fn boundary_below(b: Seq<u8>, max: int) -> int
    decreases max,
{
    if max <= 0 {
        0
    } else if vstd::utf8::is_char_boundary(b, max) {
        max
    } else {
        boundary_below(b, max - 1)
    }
}

/// A text cut to at most `max` bytes, at a character boundary.
pub open spec fn clamped(s: Seq<char>, max: int) -> Seq<char> {
    let b = vstd::utf8::encode_utf8(s);
    if b.len() <= max {
        s
    } else {
        vstd::utf8::decode_utf8(b.take(boundary_below(b, max)))
    }
}

/// Truncate a string to at most `max` bytes at a char boundary, so a builder's
/// fixed-width length field can never disagree with the bytes that follow.
pub fn clamp_str(s: &str, max: usize) -> (r: &str)
    ensures
        r@ == clamped(s@, max as int),
{
    if s.as_bytes().len() <= max {
        return s;
    }
    let mut end: usize = max;
    while end > 0 && !s.is_char_boundary(end)
        invariant
            boundary_below(s.spec_bytes(), max as int) == boundary_below(
                s.spec_bytes(),
                end as int,
            ),
            end <= max,
        decreases end,
    {
        end -= 1;
    }
    proof {
        vstd::utf8::encode_utf8_valid_utf8(s@);
        vstd::utf8::is_char_boundary_start_end_of_seq(s.spec_bytes());
    }
    let (head, _) = s.split_at(end);
    proof {
        vstd::utf8::encode_utf8_decode_utf8(head@);
        assert(head.spec_bytes() =~= s.spec_bytes().take(end as int));
    }
    head
}

/// How a text reads between quotes, with what needs escaping escaped.
pub uninterp spec fn quoted(s: Seq<char>) -> Seq<char>;

/// `<str as Debug>::fmt`, through `format!("{:?}")`: the quoted form of a text,
/// which depends on the text alone.
#[verifier::external_body]
pub(crate) fn quote(s: &str) -> (r: String)
    ensures
        r@ == quoted(s@),
{
    format!("{:?}", s)
}

/// How a character reads between quotes, with what needs escaping escaped.
pub uninterp spec fn quoted_char(c: char) -> Seq<char>;

/// `<char as Debug>::fmt`, through `format!("{:?}")`: the quoted form of a
/// character, which depends on the character alone.
#[verifier::external_body]
pub(crate) fn quote_char(c: char) -> (r: String)
    ensures
        r@ == quoted_char(c),
{
    format!("{:?}", c)
}

/// A text is empty or white space alone.
pub fn is_blank(s: &str) -> (r: bool)
    ensures
        r == (trimmed(s@).len() == 0),
{
    let cs = chars_of(s);
    trim(cs.as_slice()).len() == 0
}

/// A text holds a white space character.
pub open spec fn has_white(s: Seq<char>) -> bool {
    exists|i: int| 0 <= i < s.len() && is_white(#[trigger] s[i])
}

/// Whether a text holds a white space character.
pub fn holds_white(s: &str) -> (r: bool)
    ensures
        r == has_white(s@),
{
    let cs = chars_of(s);
    let mut i: usize = 0;
    while i < cs.len()
        invariant
            i <= cs@.len(),
            cs@ == s@,
            forall|k: int| 0 <= k < i ==> !is_white(#[trigger] cs@[k]),
        decreases cs@.len() - i,
    {
        if white(cs[i]) {
            return true;
        }
        i += 1;
    }
    false
}

/// Texts one behind the other, with a separator between.
pub open spec fn joined(v: Seq<Seq<char>>, sep: Seq<char>) -> Seq<char>
    decreases v.len(),
{
    if v.len() == 0 {
        Seq::empty()
    } else if v.len() == 1 {
        v[0]
    } else {
        joined(v.drop_last(), sep) + sep + v.last()
    }
}

/// Join strings with a separator.
pub fn join(v: &Vec<String>, sep: &str) -> (r: String)
    ensures
        r@ == joined(texts(v@), sep@),
{
    let mut r = String::new();
    let ghost all = texts(v@);
    let mut i: usize = 0;
    proof {
        assert(all.take(0) =~= Seq::empty());
        assert(r@ =~= Seq::empty());
    }
    while i < v.len()
        invariant
            i <= v@.len(),
            all == texts(v@),
            r@ == joined(all.take(i as int), sep@),
        decreases v@.len() - i,
    {
        let ghost before = r@;
        proof {
            assert(all.take(i as int + 1).drop_last() =~= all.take(i as int));
        }
        if i > 0 {
            r.append(sep);
        }
        r.append(v[i].as_str());
        proof {
            if i == 0 {
                assert(before =~= Seq::empty());
                assert(r@ =~= all[0]);
            }
        }
        i += 1;
    }
    proof {
        assert(all.take(i as int) =~= all);
    }
    r
}

/// The runs of characters between white space.
pub open spec fn words(s: Seq<char>) -> Seq<Seq<char>>
    decreases s.len(),
{
    if s.len() == 0 {
        Seq::empty()
    } else {
        let w = words(s.drop_last());
        let c = s.last();
        if is_white(c) {
            w
        } else if s.len() == 1 || is_white(s[s.len() - 2]) {
            w.push(seq![c])
        } else {
            w.update(w.len() - 1, w.last().push(c))
        }
    }
}

proof fn lemma_words_open(s: Seq<char>)
    requires
        s.len() > 0,
        !is_white(s.last()),
    ensures
        words(s).len() > 0,
    decreases s.len(),
{
    if s.len() > 1 && !is_white(s[s.len() - 2]) {
        lemma_words_open(s.drop_last());
    }
}

/// The words of a text.
pub fn split_words(s: &[char]) -> (r: Vec<Vec<char>>)
    ensures
        runs(r@) == words(s@),
{
    let mut r: Vec<Vec<char>> = Vec::new();
    let mut i: usize = 0;
    proof {
        assert(s@.take(0) =~= Seq::empty());
        assert(runs(r@) =~= Seq::empty());
    }
    while i < s.len()
        invariant
            i <= s@.len(),
            runs(r@) == words(s@.take(i as int)),
        decreases s@.len() - i,
    {
        let c: char = s[i];
        let ghost before = r@;
        let ghost t = s@.take(i as int + 1);
        proof {
            assert(t.drop_last() =~= s@.take(i as int));
            assert(runs(before).len() == before.len());
        }
        if !white(c) {
            if i == 0 || white(s[i - 1]) {
                let mut w: Vec<char> = Vec::new();
                w.push(c);
                r.push(w);
                proof {
                    assert(w@ =~= seq![c]);
                    assert(runs(r@) =~= runs(before).push(seq![c]));
                }
            } else {
                proof {
                    lemma_words_open(s@.take(i as int));
                }
                let at: usize = r.len() - 1;
                let mut w: Vec<char> = Vec::new();
                core::mem::swap(&mut w, &mut r[at]);
                w.push(c);
                r[at] = w;
                proof {
                    assert(runs(before)[at as int] == before[at as int]@);
                    assert(runs(r@) =~= runs(before).update(
                        at as int,
                        runs(before).last().push(c),
                    ));
                }
            }
        }
        i += 1;
    }
    proof {
        assert(s@.take(i as int) =~= s@);
    }
    r
}

proof fn lemma_boundary_below(b: Seq<u8>, max: int)
    requires
        vstd::utf8::valid_utf8(b),
        max <= b.len(),
    ensures
        0 <= boundary_below(b, max),
        0 <= max ==> boundary_below(b, max) <= max,
        vstd::utf8::is_char_boundary(b, boundary_below(b, max)),
    decreases max,
{
    vstd::utf8::is_char_boundary_start_end_of_seq(b);
    if max > 0 && !vstd::utf8::is_char_boundary(b, max) {
        lemma_boundary_below(b, max - 1);
    }
}

/// A clamped text takes up no more bytes than it may, and is how the text starts.
pub proof fn law_clamped_text_fits(s: Seq<char>, max: int)
    requires
        0 <= max,
    ensures
        vstd::utf8::encode_utf8(clamped(s, max)).len() <= max,
        clamped(s, max).is_prefix_of(s),
{
    let b = vstd::utf8::encode_utf8(s);
    if b.len() <= max {
        assert(s =~= s.take(s.len() as int));
    } else {
        vstd::utf8::encode_utf8_valid_utf8(s);
        vstd::utf8::encode_utf8_decode_utf8(s);
        lemma_boundary_below(b, max);
        let k = boundary_below(b, max);
        vstd::utf8::valid_utf8_split(b, k);
        vstd::utf8::decode_utf8_split(b, k);
        assert(b.subrange(0, k) =~= b.take(k));
        vstd::utf8::decode_utf8_encode_utf8(b.take(k));
        let t = clamped(s, max);
        assert(t =~= s.take(t.len() as int));
    }
}

} // verus!
