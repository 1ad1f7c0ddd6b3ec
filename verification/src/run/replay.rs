//! Reading what a replay run printed.

use vstd::prelude::*;
use crate::text::{
    chars_of, dec, law_number_reads_back, number_of, parse_number, push_dec, runs, split, split_on, split_words,
    starts_with, string_of, trim, trimmed, words, holds_at,
};

verus! {

/// The first of the words that is a number.
pub open spec fn first_number(ws: Seq<Seq<char>>) -> Option<u64>
    decreases ws.len(),
{
    if ws.len() == 0 {
        None
    } else {
        match number_of(ws[0], 10) {
            Ok(n) => Some(n),
            Err(_) => first_number(ws.drop_first()),
        }
    }
}

/// The packet count of a line, where it is the final one.
pub open spec fn line_packets(line: Seq<char>) -> Option<u64> {
    let t = trimmed(line);
    if holds_at(t, "Actual:"@, 0) {
        first_number(words(t.skip("Actual:"@.len() as int)))
    } else {
        None
    }
}

/// The first count among lines.
pub open spec fn first_packets(lines: Seq<Seq<char>>) -> Option<u64>
    decreases lines.len(),
{
    if lines.len() == 0 {
        None
    } else {
        match line_packets(lines[0]) {
            Some(n) => Some(n),
            None => first_packets(lines.drop_first()),
        }
    }
}

fn find_number(ws: &Vec<Vec<char>>) -> (r: Option<u64>)
    ensures
        r == first_number(runs(ws@)),
{
    let ghost all = runs(ws@);
    let mut i: usize = 0;
    proof {
        assert(all.skip(0) =~= all);
    }
    while i < ws.len()
        invariant
            i <= ws@.len(),
            all == runs(ws@),
            first_number(all) == first_number(all.skip(i as int)),
        decreases ws@.len() - i,
    {
        proof {
            assert(all.skip(i as int).drop_first() =~= all.skip(i as int + 1));
            assert(all.skip(i as int)[0] == ws@[i as int]@);
        }
        if let Ok(n) = parse_number(ws[i].as_slice(), 10) {
            return Some(n);
        }
        i += 1;
    }
    None
}

fn packets_in(line: &[char]) -> (r: Option<u64>)
    ensures
        r == line_packets(line@),
{
    let t: &[char] = trim(line);
    let head = chars_of("Actual:");
    if !starts_with(t, head.as_slice()) {
        return None;
    }
    let rest: &[char] = vstd::slice::slice_subrange(t, head.len(), t.len());
    proof {
        assert(rest@ =~= t@.skip(head@.len() as int));
    }
    let ws = split_words(rest);
    find_number(&ws)
}

/// The packets of a run: its output ends with a line `Actual: <n> packets ...`.
pub fn parse_packets(text: &str) -> (r: Option<u64>)
    ensures
        r == first_packets(split(text@, '\n')),
{
    let cs = chars_of(text);
    let lines = split_on(cs.as_slice(), '\n');
    let ghost all = runs(lines@);
    let mut i: usize = 0;
    proof {
        assert(all.skip(0) =~= all);
    }
    while i < lines.len()
        invariant
            i <= lines@.len(),
            all == runs(lines@),
            all == split(text@, '\n'),
            first_packets(all) == first_packets(all.skip(i as int)),
        decreases lines@.len() - i,
    {
        proof {
            assert(all.skip(i as int).drop_first() =~= all.skip(i as int + 1));
            assert(all.skip(i as int)[0] == lines@[i as int]@);
        }
        if let Some(n) = packets_in(lines[i].as_slice()) {
            return Some(n);
        }
        i += 1;
    }
    None
}

/// The last line that is not blank, without white space at its ends.
pub open spec fn last_line(lines: Seq<Seq<char>>) -> Seq<char>
    decreases lines.len(),
{
    if lines.len() == 0 {
        Seq::empty()
    } else if trimmed(lines.last()).len() > 0 {
        trimmed(lines.last())
    } else {
        last_line(lines.drop_last())
    }
}

/// A signed number in decimal.
pub open spec fn signed(n: int) -> Seq<char> {
    if n < 0 {
        "-"@ + dec((-n) as nat)
    } else {
        dec(n as nat)
    }
}

/// One line on how a run ended: its exit code, or that a signal ended it, and the
/// last thing it printed.
pub fn summarize(text: &str, code: Option<i32>) -> (r: String)
    ensures
        r@ == (match code {
            Some(c) => "exit="@ + signed(c as int) + " "@,
            None => "signal-terminated "@,
        }) + last_line(split(text@, '\n')),
{
    let cs = chars_of(text);
    let lines = split_on(cs.as_slice(), '\n');
    let ghost all = runs(lines@);
    let mut n: usize = lines.len();
    let mut last = String::new();
    proof {
        assert(all.take(n as int) =~= all);
        assert(last@ =~= Seq::empty());
    }
    while n > 0
        invariant_except_break
            last@ == Seq::<char>::empty(),
            last_line(all) == last_line(all.take(n as int)),
        invariant
            n <= lines@.len(),
            all == runs(lines@),
        ensures
            last@ == last_line(all),
        decreases n,
    {
        proof {
            assert(all.take(n as int).drop_last() =~= all.take(n as int - 1));
            assert(all.take(n as int).last() == lines@[n as int - 1]@);
        }
        let t: &[char] = trim(lines[n - 1].as_slice());
        if t.len() > 0 {
            last = string_of(t);
            break;
        }
        n -= 1;
    }
    let mut s = match code {
        Some(c) => {
            let mut s = "exit=".to_owned();
            if c < 0 {
                let mut m = "-".to_owned();
                push_dec(&mut m, (-(c as i64)) as u64);
                s.append(m.as_str());
            } else {
                push_dec(&mut s, c as u64);
            }
            s.append(" ");
            s
        },
        None => "signal-terminated ".to_owned(),
    };
    s.append(last.as_str());
    s
}

/// The place of a word, or the length where it is not there.
pub open spec fn word_place(ws: Seq<Seq<char>>, w: Seq<char>) -> int
    decreases ws.len(),
{
    if ws.len() == 0 {
        0
    } else if ws[0] == w {
        0
    } else {
        1 + word_place(ws.drop_first(), w)
    }
}

/// The word behind another.
pub open spec fn word_after(ws: Seq<Seq<char>>, w: Seq<char>) -> Option<Seq<char>> {
    let i = word_place(ws, w) + 1;
    if 0 <= i < ws.len() {
        Some(ws[i])
    } else {
        None
    }
}

/// The first number behind an opening bracket.
pub open spec fn bracketed(ws: Seq<Seq<char>>) -> Option<u64>
    decreases ws.len(),
{
    if ws.len() == 0 {
        None
    } else if ws[0].len() > 0 && ws[0][0] == '(' && number_of(ws[0].skip(1), 10) is Ok {
        Some(number_of(ws[0].skip(1), 10)->Ok_0)
    } else {
        bracketed(ws.drop_first())
    }
}

/// What a rate is made from: packets, bytes, and the duration in print.
#[derive(Debug)]
pub struct RateParts {
    pub packets: u64,
    pub bytes: u64,
    pub secs: String,
}

/// The words of the first line that starts with `Actual:`.
pub open spec fn actual_words(lines: Seq<Seq<char>>) -> Option<Seq<Seq<char>>>
    decreases lines.len(),
{
    if lines.len() == 0 {
        None
    } else if holds_at(crate::text::trim_start(lines[0]), "Actual:"@, 0) {
        Some(words(lines[0]))
    } else {
        actual_words(lines.drop_first())
    }
}

/// The parts of a run's rate, where its output gives all three.
pub open spec fn parts_of(text: Seq<char>) -> Option<(u64, u64, Seq<char>)> {
    match actual_words(split(text, '\n')) {
        None => None,
        Some(ws) => match (word_after(ws, "Actual:"@), bracketed(ws), word_after(ws, "in"@)) {
            (Some(p), Some(b), Some(s)) => match number_of(p, 10) {
                Ok(n) => Some((n, b, s)),
                Err(_) => None,
            },
            _ => None,
        },
    }
}

fn same_chars(a: &[char], b: &[char]) -> (r: bool)
    ensures
        r == (a@ == b@),
{
    if a.len() != b.len() {
        return false;
    }
    let mut i: usize = 0;
    while i < a.len()
        invariant
            i <= a@.len(),
            a@.len() == b@.len(),
            forall|k: int| 0 <= k < i ==> #[trigger] a@[k] == b@[k],
        decreases a@.len() - i,
    {
        if a[i] != b[i] {
            proof {
                assert(a@[i as int] != b@[i as int]);
            }
            return false;
        }
        i += 1;
    }
    proof {
        assert(a@ =~= b@);
    }
    true
}

fn find_word(ws: &Vec<Vec<char>>, w: &str) -> (r: usize)
    ensures
        r == word_place(runs(ws@), w@),
        r <= ws@.len(),
{
    let wc = chars_of(w);
    let ghost all = runs(ws@);
    let mut i: usize = 0;
    proof {
        assert(all.skip(0) =~= all);
    }
    while i < ws.len()
        invariant
            i <= ws@.len(),
            wc@ == w@,
            all == runs(ws@),
            word_place(all, w@) == i + word_place(all.skip(i as int), w@),
        decreases ws@.len() - i,
    {
        proof {
            assert(all.skip(i as int).drop_first() =~= all.skip(i as int + 1));
            assert(all.skip(i as int)[0] == ws@[i as int]@);
        }
        if same_chars(ws[i].as_slice(), wc.as_slice()) {
            return i;
        }
        i += 1;
    }
    i
}

fn find_bracketed(ws: &Vec<Vec<char>>) -> (r: Option<u64>)
    ensures
        r == bracketed(runs(ws@)),
{
    let ghost all = runs(ws@);
    let mut i: usize = 0;
    proof {
        assert(all.skip(0) =~= all);
    }
    while i < ws.len()
        invariant
            i <= ws@.len(),
            all == runs(ws@),
            bracketed(all) == bracketed(all.skip(i as int)),
        decreases ws@.len() - i,
    {
        proof {
            assert(all.skip(i as int).drop_first() =~= all.skip(i as int + 1));
            assert(all.skip(i as int)[0] == ws@[i as int]@);
        }
        let w: &[char] = ws[i].as_slice();
        if w.len() > 0 && w[0] == '(' {
            let rest: &[char] = vstd::slice::slice_subrange(w, 1, w.len());
            proof {
                assert(rest@ =~= w@.skip(1));
            }
            if let Ok(n) = parse_number(rest, 10) {
                return Some(n);
            }
        }
        i += 1;
    }
    None
}

fn find_actual(lines: &Vec<Vec<char>>) -> (r: Option<Vec<Vec<char>>>)
    ensures
        match r {
            Some(ws) => actual_words(runs(lines@)) == Some(runs(ws@)),
            None => actual_words(runs(lines@)) is None,
        },
{
    let head = chars_of("Actual:");
    let ghost all = runs(lines@);
    let mut i: usize = 0;
    proof {
        assert(all.skip(0) =~= all);
    }
    while i < lines.len()
        invariant
            i <= lines@.len(),
            head@ == "Actual:"@,
            all == runs(lines@),
            actual_words(all) == actual_words(all.skip(i as int)),
        decreases lines@.len() - i,
    {
        proof {
            assert(all.skip(i as int).drop_first() =~= all.skip(i as int + 1));
            assert(all.skip(i as int)[0] == lines@[i as int]@);
        }
        let line: &[char] = lines[i].as_slice();
        if starts_with(crate::text::trim_front(line), head.as_slice()) {
            return Some(split_words(line));
        }
        i += 1;
    }
    None
}

/// The parts of a run's rate, from its final `Actual: <n> packets (<b> bytes) sent
/// in <t> seconds` line. Nothing where the line or any of the three is missing.
pub fn parse_rate(text: &str) -> (r: Option<RateParts>)
    ensures
        match r {
            Some(p) => parts_of(text@) == Some((p.packets, p.bytes, p.secs@)),
            None => parts_of(text@) is None,
        },
{
    let cs = chars_of(text);
    let lines = split_on(cs.as_slice(), '\n');
    match find_actual(&lines) {
        None => None,
        Some(ws) => {
            let p: usize = find_word(&ws, "Actual:");
            let s: usize = find_word(&ws, "in");
            let bytes: Option<u64> = find_bracketed(&ws);
            if ws.len() == 0 || p >= ws.len() - 1 || s >= ws.len() - 1 {
                return None;
            }
            match bytes {
                None => None,
                Some(bytes) => match parse_number(ws[p + 1].as_slice(), 10) {
                    Err(_) => None,
                    Ok(packets) => Some(
                        RateParts { packets, bytes, secs: string_of(ws[s + 1].as_slice()) },
                    ),
                },
            }
        },
    }
}

/// What a run is reported with: what it printed last, and where the watchdog ended
/// it, that it did.
pub fn run_detail(summary: &str, killed: bool) -> (r: String)
    ensures
        r@ == if killed {
            "watchdog killed stalled replay; "@ + summary@
        } else {
            summary@
        },
{
    if killed {
        let mut s = "watchdog killed stalled replay; ".to_owned();
        s.append(summary);
        s
    } else {
        summary.to_owned()
    }
}

/// The first number among words is the first that is one: the words before it are
/// passed over, whatever they are.
pub proof fn law_first_number_counts(ws: Seq<Seq<char>>, k: int, n: u64)
    requires
        0 <= k < ws.len(),
        ws[k] == dec(n as nat),
        forall|j: int| 0 <= j < k ==> number_of(#[trigger] ws[j], 10) is Err,
    ensures
        first_number(ws) == Some(n),
    decreases k,
{
    if k == 0 {
        law_number_reads_back(n);
    } else {
        let rest = ws.drop_first();
        assert(number_of(ws[0], 10) is Err);
        assert(rest[k - 1] == ws[k]);
        assert forall|j: int| 0 <= j < k - 1 implies number_of(#[trigger] rest[j], 10) is Err by {
            assert(rest[j] == ws[j + 1]);
        }
        law_first_number_counts(rest, k - 1, n);
    }
}

/// The word behind another is the one that follows where that comes first.
pub proof fn law_word_after_follows(ws: Seq<Seq<char>>, k: int, w: Seq<char>)
    requires
        0 <= k,
        k + 1 < ws.len(),
        ws[k] == w,
        forall|j: int| 0 <= j < k ==> #[trigger] ws[j] != w,
    ensures
        word_after(ws, w) == Some(ws[k + 1]),
{
    lemma_word_place(ws, k, w);
}

proof fn lemma_word_place(ws: Seq<Seq<char>>, k: int, w: Seq<char>)
    requires
        0 <= k < ws.len(),
        ws[k] == w,
        forall|j: int| 0 <= j < k ==> #[trigger] ws[j] != w,
    ensures
        word_place(ws, w) == k,
    decreases k,
{
    if k > 0 {
        let rest = ws.drop_first();
        assert(ws[0] != w);
        assert(rest[k - 1] == ws[k]);
        assert forall|j: int| 0 <= j < k - 1 implies #[trigger] rest[j] != w by {
            assert(rest[j] == ws[j + 1]);
        }
        lemma_word_place(rest, k - 1, w);
    }
}

/// A count in brackets is the first word that opens with a bracket and goes on as
/// a number.
pub proof fn law_bracketed_count(ws: Seq<Seq<char>>, k: int, n: u64)
    requires
        0 <= k < ws.len(),
        ws[k] == seq!['('] + dec(n as nat),
        forall|j: int|
            0 <= j < k ==> !((#[trigger] ws[j]).len() > 0 && ws[j][0] == '(' && number_of(
                ws[j].skip(1),
                10,
            ) is Ok),
    ensures
        bracketed(ws) == Some(n),
    decreases k,
{
    if k == 0 {
        assert(ws[0].skip(1) =~= dec(n as nat));
        law_number_reads_back(n);
    } else {
        let rest = ws.drop_first();
        assert(!(ws[0].len() > 0 && ws[0][0] == '(' && number_of(ws[0].skip(1), 10) is Ok));
        assert(rest[k - 1] == ws[k]);
        assert forall|j: int|
            0 <= j < k - 1 implies !((#[trigger] rest[j]).len() > 0 && rest[j][0] == '('
            && number_of(rest[j].skip(1), 10) is Ok) by {
            assert(rest[j] == ws[j + 1]);
        }
        law_bracketed_count(rest, k - 1, n);
    }
}

/// The last thing that a run printed is its last line with anything on it, without
/// the white space round it.
pub proof fn law_last_line_is_shown(lines: Seq<Seq<char>>, k: int)
    requires
        0 <= k < lines.len(),
        trimmed(lines[k]).len() > 0,
        forall|j: int| k < j < lines.len() ==> trimmed(#[trigger] lines[j]).len() == 0,
    ensures
        last_line(lines) == trimmed(lines[k]),
    decreases lines.len(),
{
    if k < lines.len() - 1 {
        let head = lines.drop_last();
        assert(trimmed(lines[lines.len() - 1]).len() == 0);
        assert(head[k] == lines[k]);
        assert forall|j: int| k < j < head.len() implies trimmed(#[trigger] head[j]).len() == 0 by {
            assert(head[j] == lines[j]);
        }
        law_last_line_is_shown(head, k);
    }
}

} // verus!
