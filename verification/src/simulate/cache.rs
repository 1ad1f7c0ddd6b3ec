//! Where a remapped capture is kept, and for how long.

use vstd::prelude::*;
use crate::config::{OversizePolicy, ZoneAffinity};
use crate::order::{by_key, lemma_by_key_contains, sort_by_key};
use crate::text::{dec, digit_char, push_dec};

verus! {

/// Captures over this stay out of the tmpfs cache, to bound its use.
pub const MAX_SHM_BYTES: u64 = 268_435_456;

/// Format of the cached captures, a part of their names: a new one leaves every
/// older entry unused.
pub const REMAP_CACHE_VERSION: u32 = 3;

/// What a capture of a size is refused with.
pub open spec fn size_fault(size: u64, ceiling: u64, policy: OversizePolicy) -> Option<Seq<char>> {
    if size > ceiling {
        Some(
            "capture is "@ + dec(size as nat) + " bytes, over the "@ + dec(ceiling as nat)
                + " byte remap ceiling"@,
        )
    } else if size > MAX_SHM_BYTES && policy == OversizePolicy::Skip {
        Some(
            "capture is "@ + dec(size as nat) + " bytes, over the "@ + dec(MAX_SHM_BYTES as nat)
                + " byte tmpfs budget (on_oversize=skip)"@,
        )
    } else {
        None
    }
}

/// Where a capture of a size is remapped to: the disk, or else the tmpfs cache.
/// One that is too large for what the configuration allows is refused.
pub fn place_for(size: u64, ceiling: u64, policy: OversizePolicy) -> (r: Result<bool, String>)
    ensures
        match r {
            Ok(to_disk) => size_fault(size, ceiling, policy) is None && to_disk == (size
                > MAX_SHM_BYTES),
            Err(e) => size_fault(size, ceiling, policy) == Some(e@),
        },
{
    if size > ceiling {
        let mut e = "capture is ".to_owned();
        push_dec(&mut e, size);
        e.append(" bytes, over the ");
        push_dec(&mut e, ceiling);
        e.append(" byte remap ceiling");
        return Err(e);
    }
    let to_disk: bool = size > MAX_SHM_BYTES;
    if to_disk && policy == OversizePolicy::Skip {
        let mut e = "capture is ".to_owned();
        push_dec(&mut e, size);
        e.append(" bytes, over the ");
        push_dec(&mut e, MAX_SHM_BYTES);
        e.append(" byte tmpfs budget (on_oversize=skip)");
        return Err(e);
    }
    Ok(to_disk)
}

/// The letter of an affinity in a cache name.
pub open spec fn affinity_char(a: ZoneAffinity) -> char {
    match a {
        ZoneAffinity::Both => 'b',
        ZoneAffinity::Vendor => 'v',
        ZoneAffinity::Protocol => 'p',
        ZoneAffinity::Off => 'o',
    }
}

/// The low hexadecimal digits of a number, as many as asked for.
pub open spec fn hex_fixed(n: nat, width: nat) -> Seq<char>
    decreases width,
{
    if width == 0 {
        Seq::empty()
    } else {
        hex_fixed(n / 16, (width - 1) as nat).push(digit_char((n % 16) as int))
    }
}

/// Append the low hexadecimal digits of a number.
pub fn push_hex_fixed(s: &mut String, n: u64, width: u64)
    ensures
        final(s)@ == old(s)@ + hex_fixed(n as nat, width as nat),
    decreases width,
{
    if width > 0 {
        push_hex_fixed(s, n / 16, width - 1);
        s.push(crate::text::digit((n % 16) as u8));
    }
    proof {
        assert(s@ =~= old(s)@ + hex_fixed(n as nat, width as nat));
    }
}

/// What a cached capture's name is made of.
#[derive(Clone, Debug)]
pub struct CacheKey {
    pub seed: u64,
    pub generation: u64,
    pub affinity: ZoneAffinity,
    pub mtime: u64,
    pub size: u64,
    pub stem: String,
}

/// The tail of a cache name, from the modification time on.
pub open spec fn cache_tail(k: CacheKey) -> Seq<char> {
    dec(k.mtime as nat) + "."@ + (dec(k.size as nat) + "."@ + (k.stem@ + ".pcap"@))
}

/// The name of a cached capture: format version, session seed, registry
/// generation, affinity, and the capture's own time, size and stem.
pub open spec fn cache_name_of(k: CacheKey) -> Seq<char> {
    "v"@ + (dec(REMAP_CACHE_VERSION as nat) + "."@ + (hex_fixed(k.seed as nat, 16) + (".g"@ + (dec(k.generation as nat) + "."@ + (seq![
        affinity_char(k.affinity),
    ] + ("."@ + cache_tail(k)))))))
}

/// The name that a capture remapped under a key is cached by.
pub fn cache_name(k: &CacheKey) -> (r: String)
    ensures
        r@ == cache_name_of(*k),
{
    let mut s = "v".to_owned();
    push_dec(&mut s, REMAP_CACHE_VERSION as u64);
    s.append(".");
    push_hex_fixed(&mut s, k.seed, 16);
    s.append(".g");
    push_dec(&mut s, k.generation);
    s.append(".");
    s.push(
        match k.affinity {
            ZoneAffinity::Both => 'b',
            ZoneAffinity::Vendor => 'v',
            ZoneAffinity::Protocol => 'p',
            ZoneAffinity::Off => 'o',
        },
    );
    s.append(".");
    push_dec(&mut s, k.mtime);
    s.append(".");
    push_dec(&mut s, k.size);
    s.append(".");
    s.append(k.stem.as_str());
    s.append(".pcap");
    proof {
        assert(s@ =~= cache_name_of(*k));
    }
    s
}

/// What a cache may hold: the tmpfs budget, or two captures of the largest size on
/// disk.
pub fn cache_budget(to_disk: bool, ceiling: u64) -> (r: u64)
    ensures
        r == if to_disk {
            if ceiling as int * 2 > u64::MAX {
                u64::MAX as int
            } else {
                ceiling * 2
            }
        } else {
            MAX_SHM_BYTES as int
        },
{
    if to_disk {
        if ceiling > u64::MAX / 2 {
            u64::MAX
        } else {
            ceiling * 2
        }
    } else {
        MAX_SHM_BYTES
    }
}

/// What a cache holds once `written` bytes are added: the running estimate carried
/// on, or what a walk of the directory found where there is no estimate yet.
pub fn projected_total(estimate: Option<u64>, written: u64, walked: u64) -> (r: u64)
    ensures
        r == match estimate {
            Some(n) => if n + written > u64::MAX {
                u64::MAX as int
            } else {
                n + written
            },
            None => walked as int,
        },
{
    match estimate {
        Some(n) => n.saturating_add(written),
        None => walked,
    }
}

/// The sizes of entries, together.
pub open spec fn total_size(entries: Seq<(u64, u64)>) -> int
    decreases entries.len(),
{
    if entries.len() == 0 {
        0
    } else {
        total_size(entries.drop_last()) + entries.last().0
    }
}

/// What the evictions take away.
pub open spec fn taken_size(entries: Seq<(u64, u64)>, places: Seq<usize>) -> int
    decreases places.len(),
{
    if places.len() == 0 {
        0
    } else {
        taken_size(entries, places.drop_last()) + entries[places.last() as int].0
    }
}

/// The entries that go, of those in `order`, once `gone` have: the next one that is
/// not kept, as long as what is left is over the budget.
pub open spec fn evictions(
    entries: Seq<(u64, u64)>,
    total: int,
    budget: int,
    keep: int,
    order: Seq<usize>,
) -> Seq<usize>
    decreases order.len(),
{
    if order.len() == 0 {
        Seq::empty()
    } else {
        let gone = evictions(entries, total, budget, keep, order.drop_last());
        if total - taken_size(entries, gone) <= budget || order.last() == keep {
            gone
        } else {
            gone.push(order.last())
        }
    }
}

/// The times of entries.
pub open spec fn ages(entries: Seq<(u64, u64)>) -> Seq<u64> {
    entries.map_values(|e: (u64, u64)| e.1)
}

proof fn lemma_sum_bound(entries: Seq<(u64, u64)>, places: Seq<usize>)
    requires
        entries.len() <= usize::MAX,
        places.no_duplicates(),
        forall|i: int| 0 <= i < places.len() ==> (#[trigger] places[i]) < entries.len(),
    ensures
        taken_size(entries, places) <= total_size(entries),
    decreases entries.len(),
{
    if entries.len() == 0 {
        if places.len() > 0 {
            assert(places[0] < 0);
        }
    } else {
        let last = (entries.len() - 1) as usize;
        let sub = entries.drop_last();
        if places.contains(last) {
            let k = choose|k: int| 0 <= k < places.len() && places[k] == last;
            let rest = places.remove(k);
            assert forall|i: int| 0 <= i < rest.len() implies (#[trigger] rest[i]) < sub.len() by {
                let j = if i < k {
                    i
                } else {
                    i + 1
                };
                assert(places[j] == rest[i]);
                assert(places[j] != places[k]);
            }
            assert(rest.no_duplicates()) by {
                assert forall|i: int, j: int|
                    0 <= i < rest.len() && 0 <= j < rest.len() && i != j implies rest[i]
                    != rest[j] by {
                    let a = if i < k {
                        i
                    } else {
                        i + 1
                    };
                    let b = if j < k {
                        j
                    } else {
                        j + 1
                    };
                    assert(places[a] != places[b]);
                }
            }
            lemma_sum_bound(sub, rest);
            lemma_taken_remove(entries, places, k);
            lemma_taken_sub(entries, rest);
        } else {
            assert forall|i: int| 0 <= i < places.len() implies (#[trigger] places[i])
                < sub.len() by {
                assert(places[i] < entries.len());
                if places[i] == last {
                    assert(places.contains(last));
                }
            }
            lemma_sum_bound(sub, places);
            lemma_taken_sub(entries, places);
        }
    }
}

proof fn lemma_taken_remove(entries: Seq<(u64, u64)>, places: Seq<usize>, k: int)
    requires
        0 <= k < places.len(),
    ensures
        taken_size(entries, places) == taken_size(entries, places.remove(k))
            + entries[places[k] as int].0,
    decreases places.len(),
{
    if k == places.len() - 1 {
        assert(places.remove(k) =~= places.drop_last());
    } else {
        lemma_taken_remove(entries, places.drop_last(), k);
        assert(places.remove(k).drop_last() =~= places.drop_last().remove(k));
    }
}

proof fn lemma_taken_sub(entries: Seq<(u64, u64)>, places: Seq<usize>)
    requires
        entries.len() > 0,
        forall|i: int| 0 <= i < places.len() ==> (#[trigger] places[i]) < entries.len() - 1,
    ensures
        taken_size(entries, places) == taken_size(entries.drop_last(), places),
    decreases places.len(),
{
    if places.len() > 0 {
        assert forall|i: int| 0 <= i < places.drop_last().len() implies (
        #[trigger] places.drop_last()[i]) < entries.len() - 1 by {
            assert(places[i] < entries.len() - 1);
        }
        assert(places[places.len() - 1] < entries.len() - 1);
        lemma_taken_sub(entries, places.drop_last());
    }
}

/// Evictions are a part of the order, without repeats, and never what is kept.
proof fn lemma_evictions(
    entries: Seq<(u64, u64)>,
    total: int,
    budget: int,
    keep: int,
    order: Seq<usize>,
)
    requires
        order.no_duplicates(),
    ensures
        ({
            let e = evictions(entries, total, budget, keep, order);
            &&& e.no_duplicates()
            &&& e.len() <= order.len()
            &&& forall|x: usize| e.contains(x) ==> order.contains(x) && x != keep
        }),
    decreases order.len(),
{
    if order.len() > 0 {
        let sub = order.drop_last();
        let last = order.last();
        assert(sub.no_duplicates()) by {
            assert forall|i: int, j: int| 0 <= i < sub.len() && 0 <= j < sub.len() && i
                != j implies sub[i] != sub[j] by {
                assert(order[i] != order[j]);
            }
        }
        lemma_evictions(entries, total, budget, keep, sub);
        let gone = evictions(entries, total, budget, keep, sub);
        let e = evictions(entries, total, budget, keep, order);
        assert forall|x: usize| gone.contains(x) implies order.contains(x) && x != last by {
            let i = choose|i: int| 0 <= i < sub.len() && sub[i] == x;
            assert(order[i] == x);
            assert(order[i] != order[order.len() - 1]);
        }
        if e.len() > gone.len() {
            assert(order[order.len() - 1] == last);
            assert forall|i: int, j: int| 0 <= i < e.len() && 0 <= j < e.len() && i
                != j implies e[i] != e[j] by {
                if i < gone.len() {
                    assert(gone.contains(gone[i]));
                }
                if j < gone.len() {
                    assert(gone.contains(gone[j]));
                }
            }
            assert forall|x: usize| e.contains(x) implies order.contains(x) && x != keep by {
                let i = choose|i: int| 0 <= i < e.len() && e[i] == x;
                if i < gone.len() {
                    assert(gone[i] == x);
                    assert(gone.contains(x));
                }
            }
        }
    }
}

pub proof fn lemma_order(keys: Seq<u64>)
    requires
        keys.len() <= usize::MAX,
    ensures
        by_key(keys).no_duplicates(),
{
    let all = Seq::new(keys.len(), |i: int| i as usize);
    let leq = crate::order::key_order(keys);
    all.lemma_sort_by_ensures(leq);
    assert(all.no_duplicates());
    all.lemma_multiset_has_no_duplicates();
    by_key(keys).lemma_multiset_has_no_duplicates_conv();
}

/// The entries to evict, oldest first, to bring `total` within `budget`, never the
/// one at `keep_idx`. An entry is its size and the time it was written.
pub fn plan_evictions(entries: &[(u64, u64)], total: u64, budget: u64, keep_idx: usize) -> (r: Vec<
    usize,
>)
    requires
        total_size(entries@) <= total,
    ensures
        r@ == evictions(
            entries@,
            total as int,
            budget as int,
            keep_idx as int,
            by_key(ages(entries@)),
        ),
{
    let mut keys: Vec<u64> = Vec::new();
    let mut i: usize = 0;
    while i < entries.len()
        invariant
            i <= entries@.len(),
            keys@.len() == i,
            forall|k: int| 0 <= k < i ==> #[trigger] keys@[k] == ages(entries@)[k],
        decreases entries@.len() - i,
    {
        keys.push(entries[i].1);
        i += 1;
    }
    proof {
        assert(keys@ =~= ages(entries@));
    }
    let order: Vec<usize> = sort_by_key(keys.as_slice());
    let ghost es = entries@;
    proof {
        assert(keys.len() <= usize::MAX);
        assert(entries.len() <= usize::MAX);
        lemma_order(keys@);
    }
    let mut remaining: u64 = total;
    let mut evict: Vec<usize> = Vec::new();
    let mut n: usize = 0;
    proof {
        assert(order@.take(0) =~= Seq::empty());
        assert(evict@ =~= Seq::empty());
    }
    while n < order.len()
        invariant
            n <= order@.len(),
            es == entries@,
            es.len() <= usize::MAX,
            order@.no_duplicates(),
            forall|k: int| 0 <= k < order@.len() ==> (#[trigger] order@[k]) < es.len(),
            total_size(es) <= total,
            remaining == total - taken_size(es, evict@),
            evict@ == evictions(
                es,
                total as int,
                budget as int,
                keep_idx as int,
                order@.take(n as int),
            ),
        decreases order@.len() - n,
    {
        let at: usize = order[n];
        let ghost upto = order@.take(n as int + 1);
        proof {
            assert(upto.drop_last() =~= order@.take(n as int));
            assert(upto.no_duplicates()) by {
                assert forall|i: int, j: int| 0 <= i < upto.len() && 0 <= j < upto.len() && i
                    != j implies upto[i] != upto[j] by {
                    assert(order@[i] != order@[j]);
                }
            }
            lemma_evictions(es, total as int, budget as int, keep_idx as int, upto);
        }
        if remaining > budget && at != keep_idx {
            let ghost before = evict@;
            evict.push(at);
            proof {
                assert(evict@.drop_last() =~= before);
                assert forall|k: int| 0 <= k < evict@.len() implies (#[trigger] evict@[k])
                    < es.len() by {
                    assert(evict@.contains(evict@[k]));
                    let j = choose|j: int| 0 <= j < upto.len() && upto[j] == evict@[k];
                    assert(order@[j] == evict@[k]);
                }
                lemma_sum_bound(es, evict@);
            }
            remaining = remaining - entries[at].0;
        }
        n += 1;
    }
    proof {
        assert(order@.take(n as int) =~= order@);
    }
    evict
}

/// The entry just written is never evicted, no entry is evicted twice, and what is
/// evicted was there.
pub proof fn law_evictions_spare_the_kept(
    entries: Seq<(u64, u64)>,
    total: int,
    budget: int,
    keep: int,
)
    requires
        entries.len() <= usize::MAX,
    ensures
        ({
            let e = evictions(entries, total, budget, keep, by_key(ages(entries)));
            &&& e.no_duplicates()
            &&& forall|x: usize| e.contains(x) ==> x < entries.len() && x != keep
        }),
{
    let keys = ages(entries);
    lemma_order(keys);
    lemma_evictions(entries, total, budget, keep, by_key(keys));
    let e = evictions(entries, total, budget, keep, by_key(keys));
    assert forall|x: usize| e.contains(x) implies x < entries.len() && x != keep by {
        lemma_by_key_contains(keys, x);
    }
}

proof fn lemma_evictions_reach(
    entries: Seq<(u64, u64)>,
    total: int,
    budget: int,
    keep: int,
    order: Seq<usize>,
)
    ensures
        ({
            let e = evictions(entries, total, budget, keep, order);
            ||| total - taken_size(entries, e) <= budget
            ||| forall|x: usize| order.contains(x) && x != keep ==> e.contains(x)
        }),
    decreases order.len(),
{
    if order.len() > 0 {
        let sub = order.drop_last();
        lemma_evictions_reach(entries, total, budget, keep, sub);
        let gone = evictions(entries, total, budget, keep, sub);
        let e = evictions(entries, total, budget, keep, order);
        if total - taken_size(entries, gone) > budget {
            assert forall|x: usize| order.contains(x) && x != keep implies e.contains(x) by {
                let i = choose|i: int| 0 <= i < order.len() && order[i] == x;
                if i < sub.len() {
                    assert(sub[i] == x);
                    assert(gone.contains(x));
                    let j = choose|j: int| 0 <= j < gone.len() && gone[j] == x;
                    assert(e[j] == x);
                } else {
                    assert(e[e.len() - 1] == x);
                }
            }
        }
    }
}

/// Evictions bring the cache within its budget, or leave nothing but the entry
/// just written.
pub proof fn law_evictions_meet_the_budget(
    entries: Seq<(u64, u64)>,
    total: int,
    budget: int,
    keep: int,
)
    requires
        entries.len() <= usize::MAX,
    ensures
        ({
            let e = evictions(entries, total, budget, keep, by_key(ages(entries)));
            ||| total - taken_size(entries, e) <= budget
            ||| forall|x: usize| x < entries.len() && x != keep ==> e.contains(x)
        }),
{
    let keys = ages(entries);
    let e = evictions(entries, total, budget, keep, by_key(keys));
    lemma_evictions_reach(entries, total, budget, keep, by_key(keys));
    if total - taken_size(entries, e) > budget {
        assert forall|x: usize| x < entries.len() && x != keep implies e.contains(x) by {
            lemma_by_key_contains(keys, x);
        }
    }
}

/// No entry goes that need not: without the last eviction the cache is over its
/// budget.
pub proof fn law_evictions_stop_in_time(
    entries: Seq<(u64, u64)>,
    total: int,
    budget: int,
    keep: int,
    order: Seq<usize>,
)
    ensures
        ({
            let e = evictions(entries, total, budget, keep, order);
            e.len() > 0 ==> total - taken_size(entries, e.drop_last()) > budget
        }),
    decreases order.len(),
{
    if order.len() > 0 {
        law_evictions_stop_in_time(entries, total, budget, keep, order.drop_last());
        let gone = evictions(entries, total, budget, keep, order.drop_last());
        let e = evictions(entries, total, budget, keep, order);
        if e.len() > gone.len() {
            assert(e.drop_last() =~= gone);
        }
    }
}

/// The lengths of two texts with a point each at the end of a run of digits.
proof fn lemma_dec_then_point(a: nat, b: nat, x: Seq<char>, y: Seq<char>)
    requires
        dec(a) + "."@ + x == dec(b) + "."@ + y,
    ensures
        a == b,
        x == y,
{
    reveal_strlit(".");
    let s = dec(a) + "."@ + x;
    let t = dec(b) + "."@ + y;
    lemma_dec_digits(a);
    lemma_dec_digits(b);
    if dec(a).len() < dec(b).len() {
        assert(s[dec(a).len() as int] == '.');
        assert(t[dec(a).len() as int] == dec(b)[dec(a).len() as int]);
        assert(false);
    }
    if dec(b).len() < dec(a).len() {
        assert(t[dec(b).len() as int] == '.');
        assert(s[dec(b).len() as int] == dec(a)[dec(b).len() as int]);
        assert(false);
    }
    let n = dec(a).len() as int;
    assert(s.take(n) =~= dec(a));
    assert(t.take(n) =~= dec(b));
    crate::text::law_decimal_roundtrip(a);
    crate::text::law_decimal_roundtrip(b);
    assert(s.skip(n + 1) =~= x);
    assert(t.skip(n + 1) =~= y);
}

proof fn lemma_dec_digits(n: nat)
    ensures
        dec(n).len() > 0,
        forall|i: int| 0 <= i < dec(n).len() ==> #[trigger] dec(n)[i] != '.',
    decreases n,
{
    if n >= 10 {
        lemma_dec_digits(n / 10);
        assert forall|i: int| 0 <= i < dec(n).len() implies #[trigger] dec(n)[i] != '.' by {
            if i < dec(n / 10).len() {
                assert(dec(n)[i] == dec(n / 10)[i]);
            }
        }
    }
}

proof fn lemma_hex_fixed(a: nat, b: nat, w: nat)
    requires
        hex_fixed(a, w) == hex_fixed(b, w),
    ensures
        hex_fixed(a, w).len() == w,
        a % pow16(w) == b % pow16(w),
    decreases w,
{
    lemma_hex_len(a, w);
    lemma_hex_len(b, w);
    if w > 0 {
        let v = (w - 1) as nat;
        assert(hex_fixed(a, w).drop_last() =~= hex_fixed(a / 16, v));
        assert(hex_fixed(b, w).drop_last() =~= hex_fixed(b / 16, v));
        lemma_hex_fixed(a / 16, b / 16, v);
        assert(hex_fixed(a, w).last() == digit_char((a % 16) as int));
        assert(hex_fixed(b, w).last() == digit_char((b % 16) as int));
        crate::mac::lemma_hex_digit((a % 16) as int);
        crate::mac::lemma_hex_digit((b % 16) as int);
        let m = pow16(v);
        lemma_pow16(v);
        lemma_split(a, m);
        lemma_split(b, m);
    }
}

proof fn lemma_split(a: nat, m: nat)
    requires
        m > 0,
    ensures
        a % (16 * m) == 16 * ((a / 16) % m) + a % 16,
{
    let q = (a / 16) / m;
    let r = (a / 16) % m;
    let d = a % 16;
    vstd::arithmetic::div_mod::lemma_fundamental_div_mod(a as int, 16);
    vstd::arithmetic::div_mod::lemma_fundamental_div_mod((a / 16) as int, m as int);
    assert(a == q * (16 * m) + (16 * r + d)) by (nonlinear_arith)
        requires
            a == 16 * (a / 16) + d,
            a / 16 == m * q + r,
    ;
    assert(0 <= 16 * r + d < 16 * m);
    vstd::arithmetic::div_mod::lemma_fundamental_div_mod_converse(
        a as int,
        (16 * m) as int,
        q as int,
        (16 * r + d) as int,
    );
}

/// Sixteen to a power.
pub open spec fn pow16(w: nat) -> nat
    decreases w,
{
    if w == 0 {
        1
    } else {
        16 * pow16((w - 1) as nat)
    }
}

proof fn lemma_pow16(w: nat)
    ensures
        pow16(w) > 0,
    decreases w,
{
    if w > 0 {
        lemma_pow16((w - 1) as nat);
    }
}

proof fn lemma_hex_len(n: nat, w: nat)
    ensures
        hex_fixed(n, w).len() == w,
    decreases w,
{
    if w > 0 {
        lemma_hex_len(n / 16, (w - 1) as nat);
    }
}

/// A cache name tells all that went into the capture: two keys with one name are
/// the same seed, generation, affinity, time, size and stem. So a hit is always
/// the same capture under the same plan and registry.
pub proof fn law_cache_name_is_unambiguous(a: CacheKey, b: CacheKey)
    requires
        cache_name_of(a) == cache_name_of(b),
    ensures
        a.seed == b.seed,
        a.generation == b.generation,
        a.affinity == b.affinity,
        a.mtime == b.mtime,
        a.size == b.size,
        a.stem@ == b.stem@,
{
    reveal_strlit("v");
    reveal_strlit(".");
    reveal_strlit(".g");
    let (ra, rb) = (key_rest(a), key_rest(b));
    let v = dec(REMAP_CACHE_VERSION as nat);
    let head = "v"@ + (v + "."@);
    lemma_hex_len(a.seed as nat, 16);
    lemma_hex_len(b.seed as nat, 16);
    let ha = hex_fixed(a.seed as nat, 16);
    let hb = hex_fixed(b.seed as nat, 16);
    let n = head.len() as int;
    assert(cache_name_of(a) =~= head + ha + ".g"@ + ra);
    assert(cache_name_of(b) =~= head + hb + ".g"@ + rb);
    assert(cache_name_of(a).subrange(n, n + 16) =~= ha);
    assert(cache_name_of(b).subrange(n, n + 16) =~= hb);
    assert(cache_name_of(a).skip(n + 18) =~= ra);
    assert(cache_name_of(b).skip(n + 18) =~= rb);
    lemma_hex_fixed(a.seed as nat, b.seed as nat, 16);
    assert(pow16(16) == 0x1_0000_0000_0000_0000) by {
        reveal_with_fuel(pow16, 17);
    }
    lemma_dec_then_point(
        a.generation as nat,
        b.generation as nat,
        seq![affinity_char(a.affinity)] + ("."@ + cache_tail(a)),
        seq![affinity_char(b.affinity)] + ("."@ + cache_tail(b)),
    );
    let ta = seq![affinity_char(a.affinity)] + ("."@ + cache_tail(a));
    let tb = seq![affinity_char(b.affinity)] + ("."@ + cache_tail(b));
    assert(ta[0] == affinity_char(a.affinity));
    assert(tb[0] == affinity_char(b.affinity));
    assert(ta.skip(2) =~= cache_tail(a));
    assert(tb.skip(2) =~= cache_tail(b));
    lemma_dec_then_point(
        a.mtime as nat,
        b.mtime as nat,
        dec(a.size as nat) + "."@ + (a.stem@ + ".pcap"@),
        dec(b.size as nat) + "."@ + (b.stem@ + ".pcap"@),
    );
    lemma_dec_then_point(
        a.size as nat,
        b.size as nat,
        a.stem@ + ".pcap"@,
        b.stem@ + ".pcap"@,
    );
    let sa = a.stem@ + ".pcap"@;
    let sb = b.stem@ + ".pcap"@;
    assert(sa.take(sa.len() - ".pcap"@.len()) =~= a.stem@);
    assert(sb.take(sb.len() - ".pcap"@.len()) =~= b.stem@);
}

/// The part of a cache name behind the seed.
spec fn key_rest(k: CacheKey) -> Seq<char> {
    dec(k.generation as nat) + "."@ + (seq![affinity_char(k.affinity)] + ("."@ + cache_tail(k)))
}

/// Whatever stands before an evicted entry in line is evicted too, unless kept.
proof fn lemma_evictions_in_line(
    entries: Seq<(u64, u64)>,
    total: int,
    budget: int,
    keep: int,
    order: Seq<usize>,
    i: int,
    j: int,
)
    requires
        0 <= i < j < order.len(),
        order.no_duplicates(),
        evictions(entries, total, budget, keep, order).contains(order[j]),
        order[i] != keep,
    ensures
        evictions(entries, total, budget, keep, order).contains(order[i]),
    decreases order.len(),
{
    let sub = order.drop_last();
    let gone = evictions(entries, total, budget, keep, sub);
    let e = evictions(entries, total, budget, keep, order);
    assert(sub[i] == order[i]);
    assert(sub.no_duplicates()) by {
        assert forall|a: int, b: int|
            0 <= a < sub.len() && 0 <= b < sub.len() && a != b implies sub[a] != sub[b] by {
            assert(order[a] != order[b]);
        }
    }
    if j < sub.len() {
        let k = choose|k: int| 0 <= k < e.len() && e[k] == order[j];
        assert(order[j] != order[order.len() - 1]);
        assert(k < gone.len() && gone[k] == order[j]);
        assert(sub[j] == order[j]);
        lemma_evictions_in_line(entries, total, budget, keep, sub, i, j);
    } else {
        lemma_evictions(entries, total, budget, keep, sub);
        lemma_evictions_reach(entries, total, budget, keep, sub);
        if !gone.contains(order[i]) {
            assert(sub.contains(order[i]));
            assert(e == gone);
            let k = choose|k: int| 0 <= k < gone.len() && gone[k] == order[j];
            assert(gone.contains(order[j]));
            assert(sub.contains(order[j]));
            let a = choose|a: int| 0 <= a < sub.len() && sub[a] == order[j];
            assert(order[a] != order[j]);
        }
    }
    let k = choose|k: int| 0 <= k < gone.len() && gone[k] == order[i];
    assert(e[k] == order[i]);
}

/// The oldest go first: an entry that is evicted is no younger than any that
/// stays, the one just written aside.
pub proof fn law_oldest_go_first(
    entries: Seq<(u64, u64)>,
    total: int,
    budget: int,
    keep: int,
    gone: usize,
    left: usize,
)
    requires
        entries.len() <= usize::MAX,
        evictions(entries, total, budget, keep, by_key(ages(entries))).contains(gone),
        !evictions(entries, total, budget, keep, by_key(ages(entries))).contains(left),
        left < entries.len(),
        left != keep,
    ensures
        gone < entries.len(),
        entries[gone as int].1 <= entries[left as int].1,
{
    let keys = ages(entries);
    let order = by_key(keys);
    let leq = crate::order::key_order(keys);
    lemma_order(keys);
    law_evictions_spare_the_kept(entries, total, budget, keep);
    lemma_by_key_contains(keys, gone);
    lemma_by_key_contains(keys, left);
    let a = choose|a: int| 0 <= a < order.len() && order[a] == gone;
    let b = choose|b: int| 0 <= b < order.len() && order[b] == left;
    if b < a {
        lemma_evictions_in_line(entries, total, budget, keep, order, b, a);
    }
    let all = Seq::new(keys.len(), |i: int| i as usize);
    all.lemma_sort_by_ensures(leq);
    assert(leq(order[a], order[b]));
}

} // verus!
