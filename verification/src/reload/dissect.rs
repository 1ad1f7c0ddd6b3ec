//! The verdict of a dissector on a forged round.

use vstd::prelude::*;
use crate::config::validate::verdict;
use crate::text::{chars_of, joined, runs, split_words, string_of, words};

verus! {

/// What a list of frames is refused with; nothing where it is blank.
pub open spec fn listed_fault(label: Seq<char>, listed: Seq<char>) -> Option<Seq<char>> {
    if words(listed).len() == 0 {
        None
    } else {
        Some(label + joined(words(listed), ","@))
    }
}

fn listed_check(label: &str, listed: &str) -> (r: Result<(), String>)
    ensures
        verdict(r) == listed_fault(label@, listed@),
{
    let cs = chars_of(listed);
    let ws = split_words(cs.as_slice());
    let ghost all = runs(ws@);
    if ws.len() == 0 {
        return Ok(());
    }
    let mut list = String::new();
    let mut i: usize = 0;
    proof {
        assert(all.take(0) =~= Seq::empty());
        assert(list@ =~= Seq::empty());
    }
    while i < ws.len()
        invariant
            i <= ws@.len(),
            all == runs(ws@),
            list@ == joined(all.take(i as int), ","@),
        decreases ws@.len() - i,
    {
        let ghost before = list@;
        proof {
            assert(all.take(i as int + 1).drop_last() =~= all.take(i as int));
        }
        if i > 0 {
            list.append(",");
        }
        let w: String = string_of(ws[i].as_slice());
        list.append(w.as_str());
        proof {
            if i == 0 {
                assert(before =~= Seq::empty());
                assert(list@ =~= all[0]);
            }
        }
        i += 1;
    }
    proof {
        assert(all.take(i as int) =~= all);
    }
    let mut e = label.to_owned();
    e.append(list.as_str());
    Err(e)
}

/// Refuse a round with malformed frames, or else with bad checksums. The arguments
/// are the frame numbers that the dissector lists for each.
pub fn round_verdict(malformed: &str, bad_checksums: &str) -> (r: Result<(), String>)
    ensures
        verdict(r) == match listed_fault("malformed frames: "@, malformed@) {
            Some(e) => Some(e),
            None => listed_fault("bad checksums in frames: "@, bad_checksums@),
        },
{
    if let Err(e) = listed_check("malformed frames: ", malformed) {
        return Err(e);
    }
    listed_check("bad checksums in frames: ", bad_checksums)
}

} // verus!
