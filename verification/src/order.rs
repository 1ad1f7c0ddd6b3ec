//! Sorting of numbers and of indices by key.

use vstd::prelude::*;
use vstd::relations::{sorted_by, total_ordering};
use vstd::seq_lib::lemma_sorted_unique;
use crate::text::chars_of;

verus! {

/// The numbers in ascending order.
pub open spec fn ascending(s: Seq<u32>) -> Seq<u32> {
    s.sort_by(|a: u32, b: u32| a <= b)
}

/// Index `a` comes no later than index `b`: its key is smaller, or the keys are
/// the same and `a` is.
pub open spec fn key_order(keys: Seq<u64>) -> spec_fn(usize, usize) -> bool {
    |a: usize, b: usize| keys[a as int] < keys[b as int] || (keys[a as int] == keys[b as int] && a <= b)
}

/// The indices of a list of keys, the smallest key first, equal keys in place.
pub open spec fn by_key(keys: Seq<u64>) -> Seq<usize> {
    Seq::new(keys.len(), |i: int| i as usize).sort_by(key_order(keys))
}

/// `r` holds the items of `s` in order.
pub proof fn lemma_is_sorted<T>(s: Seq<T>, r: Seq<T>, leq: spec_fn(T, T) -> bool)
    requires
        total_ordering(leq),
        sorted_by(r, leq),
        r.to_multiset() == s.to_multiset(),
    ensures
        r == s.sort_by(leq),
{
    s.lemma_sort_by_ensures(leq);
    lemma_sorted_unique(r, s.sort_by(leq), leq);
}

/// Inserting an item behind all that are no larger keeps a list in order.
pub proof fn lemma_insert_sorted<T>(s: Seq<T>, at: int, x: T, leq: spec_fn(T, T) -> bool)
    requires
        total_ordering(leq),
        sorted_by(s, leq),
        0 <= at <= s.len(),
        forall|i: int| 0 <= i < at ==> leq(#[trigger] s[i], x),
        at < s.len() ==> !leq(s[at], x),
    ensures
        sorted_by(s.insert(at, x), leq),
        s.insert(at, x).to_multiset() == s.to_multiset().insert(x),
{
    let n = s.insert(at, x);
    assert forall|i: int, j: int| 0 <= i < j < n.len() implies #[trigger] leq(n[i], n[j]) by {
        if j < at {
            assert(leq(s[i], s[j]));
        } else if j == at {
            assert(leq(s[i], x));
        } else if i < at {
            assert(leq(s[i], s[j - 1]));
        } else if i == at {
            assert(leq(x, s[at]));
            if j - 1 > at {
                assert(leq(s[at], s[j - 1]));
            }
        } else {
            assert(leq(s[i - 1], s[j - 1]));
        }
    }
    vstd::seq_lib::to_multiset_insert(s, at, x);
}

/// Adding an item to a list adds it to the list's multiset.
pub proof fn lemma_push_multiset<T>(s: Seq<T>, x: T)
    ensures
        s.push(x).to_multiset() == s.to_multiset().insert(x),
{
    vstd::seq_lib::to_multiset_insert(s, s.len() as int, x);
    assert(s.insert(s.len() as int, x) =~= s.push(x));
}

/// A copy of the numbers in ascending order.
pub fn sort_u32(v: &[u32]) -> (r: Vec<u32>)
    ensures
        r@ == ascending(v@),
        r@.len() == v@.len(),
{
    let ghost leq = |a: u32, b: u32| a <= b;
    let mut r: Vec<u32> = Vec::new();
    let mut n: usize = 0;
    proof {
        assert(v@.take(0) =~= r@);
    }
    while n < v.len()
        invariant
            n <= v@.len(),
            leq == (|a: u32, b: u32| a <= b),
            sorted_by(r@, leq),
            r@.len() == n,
            r@.to_multiset() == v@.take(n as int).to_multiset(),
        decreases v@.len() - n,
    {
        let x: u32 = v[n];
        let mut at: usize = 0;
        while at < r.len() && r[at] <= x
            invariant
                at <= r@.len(),
                leq == (|a: u32, b: u32| a <= b),
                forall|i: int| 0 <= i < at ==> leq(#[trigger] r@[i], x),
            decreases r@.len() - at,
        {
            at += 1;
        }
        let ghost o = r@;
        r.insert(at, x);
        proof {
            lemma_insert_sorted(o, at as int, x, leq);
            assert(v@.take(n as int + 1) =~= v@.take(n as int).push(x));
            lemma_push_multiset(v@.take(n as int), x);
        }
        n += 1;
    }
    proof {
        assert(v@.take(n as int) =~= v@);
        lemma_is_sorted(v@, r@, leq);
    }
    r
}

/// The indices of the keys, the smallest key first, equal keys in place.
pub fn sort_by_key(keys: &[u64]) -> (r: Vec<usize>)
    ensures
        r@ == by_key(keys@),
        r@.len() == keys@.len(),
        forall|i: int| 0 <= i < r@.len() ==> (#[trigger] r@[i]) < keys@.len(),
{
    let ghost leq = key_order(keys@);
    let ghost all = Seq::new(keys@.len(), |i: int| i as usize);
    let mut r: Vec<usize> = Vec::new();
    let mut n: usize = 0;
    proof {
        assert(all.take(0) =~= r@);
    }
    while n < keys.len()
        invariant
            n <= keys@.len(),
            leq == key_order(keys@),
            all == Seq::new(keys@.len(), |i: int| i as usize),
            sorted_by(r@, leq),
            r@.len() == n,
            forall|i: int| 0 <= i < r@.len() ==> (#[trigger] r@[i]) < n,
            r@.to_multiset() == all.take(n as int).to_multiset(),
        decreases keys@.len() - n,
    {
        let k: u64 = keys[n];
        let mut at: usize = 0;
        while at < r.len() && keys[r[at]] <= k
            invariant
                at <= r@.len(),
                n < keys@.len(),
                k == keys@[n as int],
                leq == key_order(keys@),
                forall|i: int| 0 <= i < r@.len() ==> (#[trigger] r@[i]) < n,
                forall|i: int| 0 <= i < at ==> leq(#[trigger] r@[i], n),
            decreases r@.len() - at,
        {
            at += 1;
        }
        let ghost o = r@;
        r.insert(at, n);
        proof {
            lemma_insert_sorted(o, at as int, n, leq);
            assert(all.take(n as int + 1) =~= all.take(n as int).push(n));
            lemma_push_multiset(all.take(n as int), n);
        }
        n += 1;
    }
    proof {
        assert(all.take(n as int) =~= all);
        lemma_is_sorted(all, r@, leq);
    }
    r
}

proof fn lemma_sort_contains<T>(s: Seq<T>, leq: spec_fn(T, T) -> bool, x: T)
    requires
        total_ordering(leq),
    ensures
        s.sort_by(leq).contains(x) <==> s.contains(x),
{
    broadcast use vstd::seq_lib::group_to_multiset_ensures;

    s.lemma_sort_by_ensures(leq);
    assert(s.contains(x) <==> s.to_multiset().count(x) > 0);
    assert(s.sort_by(leq).contains(x) <==> s.sort_by(leq).to_multiset().count(x) > 0);
}

/// Sorting numbers keeps which ones there are.
pub proof fn lemma_ascending_contains(s: Seq<u32>, x: u32)
    ensures
        ascending(s).contains(x) <==> s.contains(x),
{
    lemma_sort_contains(s, |a: u32, b: u32| a <= b, x);
}

/// Every index is among those sorted by key, and no other.
pub proof fn lemma_by_key_contains(keys: Seq<u64>, x: usize)
    requires
        keys.len() <= usize::MAX,
    ensures
        by_key(keys).contains(x) <==> x < keys.len(),
{
    let all = Seq::new(keys.len(), |i: int| i as usize);
    lemma_sort_contains(all, key_order(keys), x);
    if x < keys.len() {
        assert(all[x as int] == x);
    }
}

/// Each number is larger than those before it.
pub open spec fn increasing(s: Seq<u32>) -> bool {
    forall|i: int, j: int| 0 <= i < j < s.len() ==> #[trigger] s[i] < #[trigger] s[j]
}

/// Distinct numbers sort to an ascending list without repeats.
pub proof fn lemma_ascending_increasing(s: Seq<u32>)
    requires
        s.no_duplicates(),
    ensures
        increasing(ascending(s)),
        ascending(s).len() == s.len(),
{
    let leq = |a: u32, b: u32| a <= b;
    let r = ascending(s);
    s.lemma_sort_by_ensures(leq);
    s.lemma_multiset_has_no_duplicates();
    r.lemma_multiset_has_no_duplicates_conv();
    assert(r.len() == r.to_multiset().len()) by {
        broadcast use vstd::seq_lib::group_to_multiset_ensures;

    }
    assert(s.len() == s.to_multiset().len()) by {
        broadcast use vstd::seq_lib::group_to_multiset_ensures;

    }
    assert forall|i: int, j: int| 0 <= i < j < r.len() implies #[trigger] r[i]
        < #[trigger] r[j] by {
        assert(leq(r[i], r[j]));
    }
}

/// A text comes before another: at the first character where they differ, or by
/// being a proper start of it.
pub open spec fn text_before(a: Seq<char>, b: Seq<char>) -> bool
    decreases a.len(),
{
    if b.len() == 0 {
        false
    } else if a.len() == 0 {
        true
    } else if a[0] != b[0] {
        a[0] < b[0]
    } else {
        text_before(a.drop_first(), b.drop_first())
    }
}

/// Whether a text comes before another.
pub fn text_less(a: &str, b: &str) -> (r: bool)
    ensures
        r == text_before(a@, b@),
{
    let x = chars_of(a);
    let y = chars_of(b);
    let mut i: usize = 0;
    proof {
        assert(x@.skip(0) =~= x@);
        assert(y@.skip(0) =~= y@);
    }
    while i < x.len() && i < y.len()
        invariant
            i <= x@.len(),
            i <= y@.len(),
            text_before(x@, y@) == text_before(x@.skip(i as int), y@.skip(i as int)),
            x@ == a@,
            y@ == b@,
        decreases x@.len() - i,
    {
        proof {
            assert(x@.skip(i as int).drop_first() =~= x@.skip(i as int + 1));
            assert(y@.skip(i as int).drop_first() =~= y@.skip(i as int + 1));
        }
        if x[i] != y[i] {
            return x[i] < y[i];
        }
        i += 1;
    }
    i < y.len()
}

} // verus!
