//! Forging variant captures (the rounds) from a source capture.
//!
//! Each round i uses seed_base + i, so a family is reproducible.

pub mod dissect;
pub mod laws;
pub mod manifest;
pub mod pipeline;

use vstd::prelude::*;
use crate::cli::{ModeSel, ProtoSel};
use crate::proto::Protocol;
use crate::text::{
    chars_of, dec, hex, number_of, parse_number, push_dec, push_hex, trim, trimmed, NumberError,
};

verus! {

/// The protocol that a selector narrows a reload to.
pub fn proto_filter(sel: ProtoSel) -> (r: Option<Protocol>)
    ensures
        r == match sel {
            ProtoSel::Auto => None,
            ProtoSel::Modbus => Some(Protocol::Modbus),
            ProtoSel::Enip => Some(Protocol::Enip),
            ProtoSel::S7 => Some(Protocol::S7),
            ProtoSel::Dnp3 => Some(Protocol::Dnp3),
        },
{
    match sel {
        ProtoSel::Auto => None,
        ProtoSel::Modbus => Some(Protocol::Modbus),
        ProtoSel::Enip => Some(Protocol::Enip),
        ProtoSel::S7 => Some(Protocol::S7),
        ProtoSel::Dnp3 => Some(Protocol::Dnp3),
    }
}

/// The name that a mode goes by in a manifest.
pub fn mode_name(mode: ModeSel) -> (r: &'static str)
    ensures
        r@ == match mode {
            ModeSel::RedLaser => "red_laser"@,
            ModeSel::GreenLaser => "green_laser"@,
        },
{
    match mode {
        ModeSel::RedLaser => "red_laser",
        ModeSel::GreenLaser => "green_laser",
    }
}

/// The seed that a text stands for: hexadecimal behind `0x` or `0X`, else
/// decimal, white space at the ends aside. No text is seed 0.
pub open spec fn seed_of(s: Option<Seq<char>>) -> Result<u64, NumberError> {
    match s {
        None => Ok(0),
        Some(t) => {
            let t = trimmed(t);
            if t.len() >= 2 && t[0] == '0' && (t[1] == 'x' || t[1] == 'X') {
                number_of(t.skip(2), 16)
            } else {
                number_of(t, 10)
            }
        },
    }
}

/// Read a seed argument, hexadecimal (`0x...`) or decimal.
pub fn parse_seed(s: Option<&str>) -> (r: Result<u64, NumberError>)
    ensures
        r == seed_of(
            match s {
                Some(t) => Some(t@),
                None => None,
            },
        ),
{
    match s {
        None => Ok(0),
        Some(t) => {
            let cs = chars_of(t);
            let t = trim(cs.as_slice());
            if t.len() >= 2 && t[0] == '0' && (t[1] == 'x' || t[1] == 'X') {
                let rest = vstd::slice::slice_subrange(t, 2, t.len());
                proof {
                    assert(rest@ =~= t@.skip(2));
                }
                parse_number(rest, 16)
            } else {
                parse_number(t, 10)
            }
        },
    }
}

/// The seed of a round: rounds count on from the base seed, around the end of
/// the range if need be.
pub fn round_seed(seed_base: u64, i: u32) -> (r: u64)
    ensures
        r == seed_base.wrapping_add(i as u64),
{
    seed_base.wrapping_add(i as u64)
}

/// A number in decimal, filled with zeros to `width`.
pub open spec fn padded(n: nat, width: nat) -> Seq<char> {
    let d = dec(n);
    if d.len() >= width {
        d
    } else {
        Seq::new((width - d.len()) as nat, |i: int| '0') + d
    }
}

/// Append a number in decimal, filled with zeros to `width`.
pub fn push_padded(s: &mut String, n: u64, width: usize)
    ensures
        final(s)@ == old(s)@ + padded(n as nat, width as nat),
{
    let d = crate::text::dec_string(n);
    let len: usize = chars_of(d.as_str()).len();
    let mut fill: usize = 0;
    while len < width && fill < width - len
        invariant
            len == dec(n as nat).len(),
            fill <= width,
            len < width ==> fill <= width - len,
            len >= width ==> fill == 0,
            s@ == old(s)@ + Seq::new(fill as nat, |i: int| '0'),
        decreases width - fill,
    {
        s.push('0');
        proof {
            assert(Seq::new(fill as nat + 1, |i: int| '0') =~= Seq::new(
                fill as nat,
                |i: int| '0',
            ).push('0'));
        }
        fill += 1;
    }
    push_dec(s, n);
    proof {
        assert(s@ =~= old(s)@ + padded(n as nat, width as nat));
    }
}

/// The file stem of a round: the source's stem, the round's number in at least
/// four digits, and its seed in hexadecimal.
pub open spec fn round_stem_text(stem: Seq<char>, i: u32, seed: u64) -> Seq<char> {
    stem + "__v"@ + padded((i + 1) as nat, 4) + "__seed-"@ + hex(seed as nat)
}

/// The file stem of the round numbered `i`, counted from zero.
pub fn round_stem(stem: &str, i: u32, seed: u64) -> (r: String)
    ensures
        r@ == round_stem_text(stem@, i, seed),
{
    let mut s = stem.to_owned();
    s.append("__v");
    push_padded(&mut s, i as u64 + 1, 4);
    s.append("__seed-");
    push_hex(&mut s, seed);
    s
}

} // verus!
