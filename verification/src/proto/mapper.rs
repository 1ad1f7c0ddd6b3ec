//! Seeded, capture-wide consistent identifier remapping.
//!
//! The same `(domain, original)` always maps to the same new value across a
//! whole capture, and the mapping is reproducible from the seed. Mappings are
//! injective within a domain where the value space allows it, so two distinct
//! assets do not collapse into one identity.

use std::collections::{HashMap, HashSet};
use vstd::prelude::*;
use crate::rng::{range_step, rng_from_seed, rng_range, rng_words, seeded_words};

verus! {

#[derive(Clone, Copy, PartialEq, Eq, Hash, Debug, Structural)]
pub enum Domain {
    ModbusUnitId,
    EnipVendor,
    EnipDeviceType,
    EnipProductCode,
    EnipSerial,
    S7ModuleId,
    S7Serial,
    Dnp3Addr,
}

impl Domain {
    pub open spec fn number(self) -> int {
        match self {
            Domain::ModbusUnitId => 0,
            Domain::EnipVendor => 1,
            Domain::EnipDeviceType => 2,
            Domain::EnipProductCode => 3,
            Domain::EnipSerial => 4,
            Domain::S7ModuleId => 5,
            Domain::S7Serial => 6,
            Domain::Dnp3Addr => 7,
        }
    }
}

/// A domain and a value in it as one key.
pub open spec fn key_of(d: Domain, v: u64) -> u128 {
    (d.number() * 0x1_0000_0000_0000_0000 + v) as u128
}

proof fn lemma_key_injective(d1: Domain, v1: u64, d2: Domain, v2: u64)
    requires
        key_of(d1, v1) == key_of(d2, v2),
    ensures
        d1 == d2,
        v1 == v2,
{
}

/// What a mapper has assigned so far, and the generator state it draws from.
pub struct MapperModel {
    pub words: Seq<u32>,
    pub fwd: Map<(Domain, u64), u64>,
}

/// How many further draws follow one that hit a value already in use.
pub open spec fn draw_retries() -> nat {
    64
}

impl MapperModel {
    /// A mapper that has assigned nothing.
    pub open spec fn fresh(seed: u64) -> MapperModel {
        MapperModel { words: seeded_words(seed), fwd: Map::empty() }
    }

    /// Some original of the domain has been given the value.
    pub open spec fn used(self, d: Domain, v: u64) -> bool {
        exists|o: u64| #[trigger]
            self.fwd.contains_key((d, o)) && self.fwd[(d, o)] == v
    }

    /// Draw until an unused value comes, at most `retries` times after the
    /// first; the last draw counts whatever it is.
    pub open spec fn draw(self, d: Domain, lo: u64, hi: u64, words: Seq<u32>, retries: nat) -> (
        u64,
        Seq<u32>,
    )
        decreases retries,
    {
        let step = range_step(words, lo, hi);
        if !self.used(d, step.0) || retries == 0 {
            step
        } else {
            self.draw(d, lo, hi, step.1, (retries - 1) as nat)
        }
    }

    /// The value given to an original that has none yet. An empty or
    /// single-valued range gives its lower end and draws nothing.
    pub open spec fn pick(self, d: Domain, lo: u64, hi: u64) -> (u64, Seq<u32>) {
        if hi <= lo {
            (lo, self.words)
        } else {
            self.draw(d, lo, hi, self.words, draw_retries())
        }
    }

    /// The value of an original, and the mapper behind the request.
    pub open spec fn map(self, d: Domain, orig: u64, lo: u64, hi: u64) -> (u64, MapperModel) {
        if self.fwd.contains_key((d, orig)) {
            (self.fwd[(d, orig)], self)
        } else {
            let p = self.pick(d, lo, hi);
            (p.0, MapperModel { words: p.1, fwd: self.fwd.insert((d, orig), p.0) })
        }
    }
}

pub struct SeededMapper {
    rng: rand_chacha::ChaCha8Rng,
    fwd: HashMap<u128, u64>,
    used: HashSet<u128>,
}

impl View for SeededMapper {
    type V = MapperModel;

    closed spec fn view(&self) -> MapperModel {
        MapperModel {
            words: rng_words(self.rng),
            fwd: Map::new(
                |k: (Domain, u64)| self.fwd@.contains_key(key_of(k.0, k.1)),
                |k: (Domain, u64)| self.fwd@[key_of(k.0, k.1)],
            ),
        }
    }
}

impl SeededMapper {
    /// The values in use are exactly those handed out.
    pub closed spec fn wf(&self) -> bool {
        forall|d: Domain, v: u64| #[trigger]
            self.used@.contains(key_of(d, v)) <==> self@.used(d, v)
    }

    pub fn from_seed(seed: u64) -> (m: Self)
        ensures
            m@ == MapperModel::fresh(seed),
            m.wf(),
    {
        let m = Self { rng: rng_from_seed(seed), fwd: HashMap::new(), used: HashSet::new() };
        proof {
            assert(m@.fwd =~= Map::empty());
        }
        m
    }

    fn key(domain: Domain, v: u64) -> (k: u128)
        ensures
            k == key_of(domain, v),
    {
        let n: u128 = match domain {
            Domain::ModbusUnitId => 0,
            Domain::EnipVendor => 1,
            Domain::EnipDeviceType => 2,
            Domain::EnipProductCode => 3,
            Domain::EnipSerial => 4,
            Domain::S7ModuleId => 5,
            Domain::S7Serial => 6,
            Domain::Dnp3Addr => 7,
        };
        n * 0x1_0000_0000_0000_0000 + v as u128
    }

    /// Map `orig` to a new value in `[lo, hi]`, consistent across the capture.
    /// Avoids collisions within the domain where the range allows, so the
    /// remap stays injective.
    pub fn map_range(&mut self, domain: Domain, orig: u64, lo: u64, hi: u64) -> (v: u64)
        requires
            old(self).wf(),
        ensures
            (v, final(self)@) == old(self)@.map(domain, orig, lo, hi),
            !old(self)@.fwd.contains_key((domain, orig)) && lo <= hi ==> lo <= v <= hi,
            final(self).wf(),
    {
        let k: u128 = Self::key(domain, orig);
        if let Some(v) = self.fwd.get(&k) {
            return *v;
        }
        let v: u64 = self.draw_unused(domain, lo, hi);
        let ghost mid = self@;
        self.fwd.insert(k, v);
        let ku: u128 = Self::key(domain, v);
        self.used.insert(ku);
        proof {
            assert forall|d: Domain, o: u64| key_of(d, o) == k implies d == domain && o == orig by {
                lemma_key_injective(d, o, domain, orig);
            }
            assert(self@.fwd =~= mid.fwd.insert((domain, orig), v));
            assert(self@.fwd.contains_key((domain, orig)));
            assert forall|d: Domain, w: u64| #[trigger]
                self.used@.contains(key_of(d, w)) <==> self@.used(d, w) by {
                if key_of(d, w) == ku {
                    lemma_key_injective(d, w, domain, v);
                }
                if mid.used(d, w) {
                    let o = choose|o: u64| #[trigger]
                        mid.fwd.contains_key((d, o)) && mid.fwd[(d, o)] == w;
                    assert(self@.fwd.contains_key((d, o)));
                }
                if self@.used(d, w) {
                    let o = choose|o: u64| #[trigger]
                        self@.fwd.contains_key((d, o)) && self@.fwd[(d, o)] == w;
                    assert((d, o) == (domain, orig) || mid.fwd.contains_key((d, o)));
                }
            }
        }
        v
    }

    fn draw_unused(&mut self, domain: Domain, lo: u64, hi: u64) -> (v: u64)
        requires
            old(self).wf(),
        ensures
            (v, final(self)@.words) == old(self)@.pick(domain, lo, hi),
            lo <= hi ==> lo <= v <= hi,
            final(self)@.fwd == old(self)@.fwd,
            final(self).fwd@ == old(self).fwd@,
            final(self).used@ == old(self).used@,
    {
        if hi <= lo {
            return lo;
        }
        let ghost mut before = rng_words(self.rng);
        let mut candidate: u64 = rng_range(&mut self.rng, lo, hi);
        let mut left: usize = 64;
        while left > 0 && self.used.contains(&Self::key(domain, candidate))
            invariant
                lo < hi,
                lo <= candidate <= hi,
                left <= 64,
                old(self).wf(),
                self.fwd@ == old(self).fwd@,
                self.used@ == old(self).used@,
                range_step(before, lo, hi) == (candidate, rng_words(self.rng)),
                old(self)@.draw(domain, lo, hi, before, left as nat) == old(self)@.pick(
                    domain,
                    lo,
                    hi,
                ),
            decreases left,
        {
            proof {
                before = rng_words(self.rng);
            }
            candidate = rng_range(&mut self.rng, lo, hi);
            left -= 1;
        }
        candidate
    }

    pub fn map_u8(&mut self, domain: Domain, orig: u8) -> (v: u8)
        requires
            old(self).wf(),
        ensures
            v == old(self)@.map(domain, orig as u64, 0, 0xff).0 as u8,
            final(self)@ == old(self)@.map(domain, orig as u64, 0, 0xff).1,
            final(self).wf(),
    {
        self.map_range(domain, orig as u64, 0, 0xff) as u8
    }

    pub fn map_u16(&mut self, domain: Domain, orig: u16) -> (v: u16)
        requires
            old(self).wf(),
        ensures
            v == old(self)@.map(domain, orig as u64, 0, 0xffff).0 as u16,
            final(self)@ == old(self)@.map(domain, orig as u64, 0, 0xffff).1,
            final(self).wf(),
    {
        self.map_range(domain, orig as u64, 0, 0xffff) as u16
    }

    pub fn map_u32(&mut self, domain: Domain, orig: u32) -> (v: u32)
        requires
            old(self).wf(),
        ensures
            v == old(self)@.map(domain, orig as u64, 0, 0xffff_ffff).0 as u32,
            final(self)@ == old(self)@.map(domain, orig as u64, 0, 0xffff_ffff).1,
            final(self).wf(),
    {
        self.map_range(domain, orig as u64, 0, 0xffff_ffff) as u32
    }
}

/// A mapped original keeps its value: a later request for it, in any range, gives
/// the same value and changes nothing.
pub proof fn law_mapping_is_consistent(
    m: MapperModel,
    d: Domain,
    orig: u64,
    lo: u64,
    hi: u64,
    later: MapperModel,
    lo2: u64,
    hi2: u64,
)
    requires
        m.map(d, orig, lo, hi).1.fwd.submap_of(later.fwd),
    ensures
        later.map(d, orig, lo2, hi2) == (m.map(d, orig, lo, hi).0, later),
{
    let after = m.map(d, orig, lo, hi).1;
    assert(after.fwd.contains_key((d, orig)));
    assert(later.fwd.contains_key((d, orig)));
}

/// A request never changes a value that was assigned before.
pub proof fn law_mapping_only_grows(m: MapperModel, d: Domain, orig: u64, lo: u64, hi: u64)
    ensures
        m.fwd.submap_of(m.map(d, orig, lo, hi).1.fwd),
        m.map(d, orig, lo, hi).1.fwd.dom() == m.fwd.dom().insert((d, orig)),
{
    assert(m.map(d, orig, lo, hi).1.fwd.dom() =~= m.fwd.dom().insert((d, orig)));
}

/// The candidate of the draw numbered `n`, counted from zero.
pub open spec fn candidate(words: Seq<u32>, lo: u64, hi: u64, n: nat) -> u64
    decreases n,
{
    if n == 0 {
        range_step(words, lo, hi).0
    } else {
        candidate(range_step(words, lo, hi).1, lo, hi, (n - 1) as nat)
    }
}

proof fn lemma_draw_unused_if_any(
    m: MapperModel,
    d: Domain,
    lo: u64,
    hi: u64,
    words: Seq<u32>,
    retries: nat,
    n: nat,
)
    requires
        n <= retries,
        !m.used(d, candidate(words, lo, hi, n)),
    ensures
        !m.used(d, m.draw(d, lo, hi, words, retries).0),
    decreases retries,
{
    if m.used(d, range_step(words, lo, hi).0) {
        lemma_draw_unused_if_any(
            m,
            d,
            lo,
            hi,
            range_step(words, lo, hi).1,
            (retries - 1) as nat,
            (n - 1) as nat,
        );
    }
}

/// No two originals of one domain share a value.
pub open spec fn injective(m: MapperModel, d: Domain) -> bool {
    forall|a: u64, b: u64| #[trigger]
        m.fwd.contains_key((d, a)) && #[trigger] m.fwd.contains_key((d, b)) && m.fwd[(d, a)]
            == m.fwd[(d, b)] ==> a == b
}

/// The mapping stays injective within a domain as long as one of the draws made
/// for a new original is a value not yet in use.
pub proof fn law_mapping_stays_injective(
    m: MapperModel,
    d: Domain,
    orig: u64,
    lo: u64,
    hi: u64,
    n: nat,
)
    requires
        injective(m, d),
        lo < hi,
        n <= draw_retries(),
        m.fwd.contains_key((d, orig)) || !m.used(d, candidate(m.words, lo, hi, n)),
    ensures
        injective(m.map(d, orig, lo, hi).1, d),
{
    if !m.fwd.contains_key((d, orig)) {
        lemma_draw_unused_if_any(m, d, lo, hi, m.words, draw_retries(), n);
        let after = m.map(d, orig, lo, hi).1;
        assert forall|a: u64, b: u64| #[trigger]
            after.fwd.contains_key((d, a)) && #[trigger] after.fwd.contains_key((d, b))
                && after.fwd[(d, a)] == after.fwd[(d, b)] implies a == b by {
            if a != b {
                assert(a == orig || m.fwd.contains_key((d, a)));
                assert(b == orig || m.fwd.contains_key((d, b)));
            }
        }
    }
}

/// A request in one domain leaves every other domain as it was.
pub proof fn law_domains_are_independent(
    m: MapperModel,
    d: Domain,
    orig: u64,
    lo: u64,
    hi: u64,
    other: Domain,
    o: u64,
)
    requires
        d != other,
    ensures
        m.map(d, orig, lo, hi).1.fwd.contains_key((other, o)) == m.fwd.contains_key((other, o)),
        m.fwd.contains_key((other, o)) ==> m.map(d, orig, lo, hi).1.fwd[(other, o)] == m.fwd[(
            other,
            o,
        )],
{
}

} // verus!
