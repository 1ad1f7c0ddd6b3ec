//! Which files are captures, and which captures may be sent raw.

use vstd::prelude::*;
use crate::pcapio::{frames, Capture};
use crate::proto::l3::{carries_public_address, public_frame};
use crate::text::chars_of;

verus! {

/// A character in either of its ASCII cases.
pub open spec fn either_case(c: char, lower: char, upper: char) -> bool {
    c == lower || c == upper
}

/// An extension that captures go by, in either case.
pub open spec fn capture_extension(e: Seq<char>) -> bool {
    &&& e.len() == 4 || e.len() == 6
    &&& either_case(e[0], 'p', 'P')
    &&& either_case(e[1], 'c', 'C')
    &&& either_case(e[2], 'a', 'A')
    &&& either_case(e[3], 'p', 'P')
    &&& e.len() == 6 ==> either_case(e[4], 'n', 'N') && either_case(e[5], 'g', 'G')
}

/// Whether a file's extension is a capture's.
pub fn is_capture_extension(ext: &str) -> (r: bool)
    ensures
        r == capture_extension(ext@),
{
    let e = chars_of(ext);
    if e.len() != 4 && e.len() != 6 {
        return false;
    }
    let pcap: bool = (e[0] == 'p' || e[0] == 'P') && (e[1] == 'c' || e[1] == 'C') && (e[2] == 'a'
        || e[2] == 'A') && (e[3] == 'p' || e[3] == 'P');
    if e.len() == 4 {
        pcap
    } else {
        pcap && (e[4] == 'n' || e[4] == 'N') && (e[5] == 'g' || e[5] == 'G')
    }
}

/// Some frame carries a routable address, or cannot be shown not to.
pub open spec fn any_public(fs: Seq<Seq<u8>>) -> bool {
    exists|i: int| 0 <= i < fs.len() && public_frame(#[trigger] fs[i])
}

/// Whether any frame of a capture carries a routable address. What cannot be
/// inspected counts as one that does: a file whose size is not known or over the
/// limit, or one that is no capture. So a failure to inspect never lets a capture
/// through.
pub fn has_public_source(size: Option<u64>, max_bytes: u64, cap: Option<&Capture>) -> (r: bool)
    ensures
        r == (size is None || size->0 > max_bytes || cap is None || any_public(frames(cap->0@))),
{
    match size {
        None => {
            return true;
        },
        Some(n) => {
            if n > max_bytes {
                return true;
            }
        },
    }
    match cap {
        None => true,
        Some(c) => {
            let ghost fs = frames(c@);
            let mut i: usize = 0;
            while i < c.packets.len()
                invariant
                    i <= c.packets@.len(),
                    cap == Some(c),
                    fs == frames(c@),
                    forall|k: int| 0 <= k < i ==> !public_frame(#[trigger] fs[k]),
                decreases c.packets@.len() - i,
            {
                proof {
                    assert(fs[i as int] == c.packets@[i as int].data@);
                }
                if carries_public_address(c.packets[i].data.as_slice()) {
                    return true;
                }
                i += 1;
            }
            false
        },
    }
}

} // verus!
