//! Configuration documents as trees, and the overlay of one over another.

use vstd::prelude::*;
use crate::text::str_eq;

verus! {

/// What a leaf of a document is.
#[derive(Clone, Copy, Debug, PartialEq, Eq, Structural)]
pub enum LeafKind {
    Null,
    Bool,
    Number,
    Text,
}

/// A document: a leaf by its kind and text, a list, or named entries.
#[derive(Debug)]
pub enum Tree {
    Leaf(LeafKind, String),
    List(Vec<Tree>),
    Table(Vec<(String, Tree)>),
}

/// The first entry of a name, or the length where there is none.
pub open spec fn place(m: Seq<(String, Tree)>, key: Seq<char>) -> int
    decreases m.len(),
{
    if m.len() == 0 {
        0
    } else if m[0].0@ == key {
        0
    } else {
        1 + place(m.drop_first(), key)
    }
}

/// Some entry has the name.
pub open spec fn names(m: Seq<(String, Tree)>, key: Seq<char>) -> bool {
    exists|i: int| 0 <= i < m.len() && (#[trigger] m[i]).0@ == key
}

/// No two entries share a name.
pub open spec fn distinct(m: Seq<(String, Tree)>) -> bool {
    forall|i: int, j: int|
        0 <= i < j < m.len() ==> (#[trigger] m[i]).0@ != (#[trigger] m[j]).0@
}

/// An entry whose name stands nowhere in `m`.
pub open spec fn fresh_in(m: Seq<(String, Tree)>) -> spec_fn((String, Tree)) -> bool {
    |e: (String, Tree)| !names(m, e.0@)
}

/// Within every table the names are distinct.
pub open spec fn wf(t: Tree) -> bool
    decreases t,
{
    match t {
        Tree::Table(m) => distinct(m@) && forall|i: int|
            0 <= i < m.len() ==> wf((#[trigger] m[i]).1),
        _ => true,
    }
}

/// `r` is `over` laid over `base`. Where both are tables, the entries of `base`
/// keep their order, each with the entry of the same name laid over it, and the
/// entries with a new name follow in their own order. Else `over` stands alone.
pub open spec fn merged(base: Tree, over: Tree, r: Tree) -> bool
    decreases over,
{
    match (base, over) {
        (Tree::Table(b), Tree::Table(o)) => {
            &&& r is Table
            &&& r->Table_0.len() >= b.len()
            &&& forall|i: int|
                0 <= i < b.len() ==> {
                    let p = place(o@, (#[trigger] b[i]).0@);
                    &&& r->Table_0[i].0@ == b[i].0@
                    &&& if 0 <= p < o.len() {
                        merged(b[i].1, o[p].1, r->Table_0[i].1)
                    } else {
                        r->Table_0[i].1 == b[i].1
                    }
                }
            &&& r->Table_0@.skip(b.len() as int) == o@.filter(fresh_in(b@))
        },
        _ => r == over,
    }
}

proof fn lemma_place(m: Seq<(String, Tree)>, key: Seq<char>)
    ensures
        0 <= place(m, key) <= m.len(),
        place(m, key) < m.len() <==> names(m, key),
        place(m, key) < m.len() ==> m[place(m, key)].0@ == key,
    decreases m.len(),
{
    if m.len() > 0 && m[0].0@ != key {
        lemma_place(m.drop_first(), key);
        if names(m, key) {
            let i = choose|i: int| 0 <= i < m.len() && (#[trigger] m[i]).0@ == key;
            assert(m.drop_first()[i - 1].0@ == key);
        }
        if names(m.drop_first(), key) {
            let i = choose|i: int|
                0 <= i < m.drop_first().len() && (#[trigger] m.drop_first()[i]).0@ == key;
            assert(m[i + 1].0@ == key);
        }
    } else if m.len() > 0 {
        assert(m[0].0@ == key);
    }
}

/// Where names are distinct, an entry's place is its own.
proof fn lemma_place_is(m: Seq<(String, Tree)>, i: int)
    requires
        distinct(m),
        0 <= i < m.len(),
    ensures
        place(m, m[i].0@) == i,
{
    lemma_place(m, m[i].0@);
    let p = place(m, m[i].0@);
    assert(names(m, m[i].0@));
    if p < i {
        assert(m[p].0@ != m[i].0@);
    } else if i < p {
        assert(m[i].0@ != m[p].0@);
    }
}

/// The first place of a name.
fn find(m: &Vec<(String, Tree)>, key: &str) -> (r: usize)
    ensures
        r == place(m@, key@),
        r <= m@.len(),
{
    let mut i: usize = 0;
    proof {
        assert(m@.skip(0) =~= m@);
    }
    while i < m.len()
        invariant
            i <= m@.len(),
            place(m@, key@) == i + place(m@.skip(i as int), key@),
        decreases m@.len() - i,
    {
        proof {
            assert(m@.skip(i as int).drop_first() =~= m@.skip(i as int + 1));
        }
        if str_eq(m[i].0.as_str(), key) {
            return i;
        }
        i += 1;
    }
    i
}

/// The value that a document gives a name.
pub open spec fn value_of(t: Tree, key: Seq<char>) -> Option<Tree> {
    match t {
        Tree::Table(m) => {
            let p = place(m@, key);
            if 0 <= p < m@.len() {
                Some(m@[p].1)
            } else {
                None
            }
        },
        _ => None,
    }
}

impl Tree {
    /// The value of a name, where the document is a table that has it.
    pub fn get(&self, key: &str) -> (r: Option<&Tree>)
        ensures
            match r {
                Some(t) => value_of(*self, key@) == Some(*t),
                None => value_of(*self, key@) is None,
            },
    {
        match self {
            Tree::Table(m) => {
                let p: usize = find(m, key);
                if p < m.len() {
                    Some(&m[p].1)
                } else {
                    None
                }
            },
            _ => None,
        }
    }

    /// The text of a text leaf.
    pub fn text(&self) -> (r: Option<&str>)
        ensures
            match r {
                Some(s) => *self is Leaf && self->Leaf_0 == LeafKind::Text && s@ == self->Leaf_1@,
                None => !(*self is Leaf && self->Leaf_0 == LeafKind::Text),
            },
    {
        match self {
            Tree::Leaf(LeafKind::Text, s) => Some(s.as_str()),
            _ => None,
        }
    }
}

/// The merge after the first `j` entries of the overlay.
spec fn partly(
    b: Seq<(String, Tree)>,
    o: Seq<(String, Tree)>,
    j: int,
    r: Seq<(String, Tree)>,
) -> bool {
    &&& r.len() >= b.len()
    &&& forall|i: int|
        0 <= i < b.len() ==> {
            let p = place(o, (#[trigger] b[i]).0@);
            &&& r[i].0@ == b[i].0@
            &&& if p < j {
                merged(b[i].1, o[p].1, r[i].1)
            } else {
                r[i].1 == b[i].1
            }
        }
    &&& r.skip(b.len() as int) == o.take(j).filter(fresh_in(b))
}

/// An entry of an unknown name comes behind the others.
proof fn lemma_new_entry(
    b: Seq<(String, Tree)>,
    o: Seq<(String, Tree)>,
    j: int,
    r: Seq<(String, Tree)>,
)
    requires
        distinct(o),
        0 <= j < o.len(),
        partly(b, o, j, r),
        !names(b, o[j].0@),
    ensures
        partly(b, o, j + 1, r.push(o[j])),
{
    reveal(Seq::filter);
    let after = r.push(o[j]);
    assert(o.take(j + 1).drop_last() =~= o.take(j));
    assert(after.skip(b.len() as int) =~= r.skip(b.len() as int).push(o[j]));
    assert forall|i: int| 0 <= i < b.len() implies {
        let p = place(o, (#[trigger] b[i]).0@);
        &&& after[i].0@ == b[i].0@
        &&& if p < j + 1 {
            merged(b[i].1, o[p].1, after[i].1)
        } else {
            after[i].1 == b[i].1
        }
    } by {
        lemma_place(o, b[i].0@);
        assert(after[i] == r[i]);
    }
}

/// An entry of a known name changes that entry alone.
proof fn lemma_known_entry(
    b: Seq<(String, Tree)>,
    o: Seq<(String, Tree)>,
    j: int,
    r: Seq<(String, Tree)>,
    at: int,
    e: (String, Tree),
)
    requires
        distinct(b),
        distinct(o),
        0 <= j < o.len(),
        partly(b, o, j, r),
        0 <= at < b.len(),
        b[at].0@ == o[j].0@,
        e.0@ == b[at].0@,
        merged(b[at].1, o[j].1, e.1),
    ensures
        partly(b, o, j + 1, r.update(at, e)),
{
    reveal(Seq::filter);
    let after = r.update(at, e);
    assert(names(b, o[j].0@));
    assert(o.take(j + 1).drop_last() =~= o.take(j));
    assert(after.skip(b.len() as int) =~= r.skip(b.len() as int));
    assert forall|i: int| 0 <= i < b.len() implies {
        let p = place(o, (#[trigger] b[i]).0@);
        &&& after[i].0@ == b[i].0@
        &&& if p < j + 1 {
            merged(b[i].1, o[p].1, after[i].1)
        } else {
            after[i].1 == b[i].1
        }
    } by {
        lemma_place(o, b[i].0@);
        lemma_place_is(o, j);
        if i != at {
            if i < at {
                assert(b[i].0@ != b[at].0@);
            } else {
                assert(b[at].0@ != b[i].0@);
            }
            assert(after[i] == r[i]);
        }
    }
}

/// What a filter keeps was there before.
proof fn lemma_kept(s: Seq<(String, Tree)>, f: spec_fn((String, Tree)) -> bool, i: int)
    requires
        0 <= i < s.filter(f).len(),
    ensures
        exists|k: int| 0 <= k < s.len() && #[trigger] s[k] == s.filter(f)[i],
    decreases s.len(),
{
    reveal(Seq::filter);
    if s.len() > 0 {
        let sub = s.drop_last().filter(f);
        if i < sub.len() {
            lemma_kept(s.drop_last(), f, i);
            let k = choose|k: int|
                0 <= k < s.drop_last().len() && #[trigger] s.drop_last()[k] == sub[i];
            assert(s[k] == s.filter(f)[i]);
        } else {
            assert(s[s.len() - 1] == s.filter(f)[i]);
        }
    }
}

/// The names of the merged entries stay distinct.
proof fn lemma_merged_distinct(
    b: Seq<(String, Tree)>,
    o: Seq<(String, Tree)>,
    j: int,
    r: Seq<(String, Tree)>,
)
    requires
        distinct(b),
        distinct(o),
        0 <= j < o.len(),
        partly(b, o, j, r),
        !names(b, o[j].0@),
        distinct(r),
    ensures
        distinct(r.push(o[j])),
        !names(r, o[j].0@),
{
    let extra = o.take(j).filter(fresh_in(b));
    assert forall|i: int| 0 <= i < r.len() implies (#[trigger] r[i]).0@ != o[j].0@ by {
        if i < b.len() {
            assert(b[i].0@ == r[i].0@);
        } else {
            assert(r[i] == r.skip(b.len() as int)[i - b.len()]);
            lemma_kept(o.take(j), fresh_in(b), i - b.len());
            let k = choose|k: int| 0 <= k < j && o.take(j)[k] == extra[i - b.len()];
            assert(o[k] == r[i]);
        }
    }
}

/// Overlay one document on another: where both sides are tables, entries are
/// merged by name; otherwise the overlay replaces the base wholesale. So an
/// overlay replaces a list entirely rather than appending to it.
pub fn deep_merge(base: Tree, overlay: Tree) -> (r: Tree)
    requires
        wf(base),
        wf(overlay),
    ensures
        merged(base, overlay, r),
        wf(r),
    decreases overlay,
{
    match (base, overlay) {
        (Tree::Table(b), Tree::Table(o)) => {
            let ghost b0 = b;
            let ghost o0 = o;
            let mut m = b;
            let mut rest = o;
            let mut j: usize = 0;
            proof {
                assert(m@.skip(b0@.len() as int) =~= Seq::empty());
                reveal(Seq::filter);
                assert(o0@.take(0) =~= Seq::empty());
                assert forall|i: int| 0 <= i < b0@.len() implies place(
                    o0@,
                    (#[trigger] b0@[i]).0@,
                ) >= 0 by {
                    lemma_place(o0@, b0@[i].0@);
                }
            }
            while rest.len() > 0
                invariant
                    wf(Tree::Table(b0)),
                    wf(Tree::Table(o0)),
                    overlay == Tree::Table(o0),
                    base == Tree::Table(b0),
                    0 <= j <= o0.len(),
                    rest@ == o0@.skip(j as int),
                    partly(b0@, o0@, j as int, m@),
                    distinct(m@),
                    forall|i: int| 0 <= i < m@.len() ==> wf((#[trigger] m@[i]).1),
                decreases rest@.len(),
            {
                let (key, value) = rest.remove(0);
                proof {
                    assert((key, value) == o0@[j as int]);
                    assert(rest@ =~= o0@.skip(j as int + 1));
                    assert(wf(o0[j as int].1));
                    assert(decreases_to!(overlay => o0));
                    assert(decreases_to!(o0 => o0[j as int]));
                    assert(decreases_to!(o0[j as int] => o0[j as int].1));
                }
                let at: usize = find(&m, key.as_str());
                let ghost before = m@;
                proof {
                    lemma_place(before, key@);
                }
                if at < m.len() {
                    proof {
                        lemma_known_place(b0@, o0@, j as int, before, at as int);
                    }
                    let (name, old_value) = m.remove(at);
                    let value = deep_merge(old_value, value);
                    let ghost e = (name, value);
                    m.insert(at, (name, value));
                    proof {
                        assert(m@ =~= before.update(at as int, e));
                        assert(b0@[at as int].1 == before[at as int].1);
                        lemma_known_entry(b0@, o0@, j as int, before, at as int, e);
                        assert forall|i: int, k: int| 0 <= i < k < m@.len() implies (
                        #[trigger] m@[i]).0@ != (#[trigger] m@[k]).0@ by {
                            assert(before[i].0@ != before[k].0@);
                        }
                    }
                } else {
                    proof {
                        assert forall|i: int| 0 <= i < b0@.len() implies (#[trigger] b0@[i]).0@
                            != key@ by {
                            assert(before[i].0@ == b0@[i].0@);
                        }
                        lemma_new_entry(b0@, o0@, j as int, before);
                        lemma_merged_distinct(b0@, o0@, j as int, before);
                    }
                    m.push((key, value));
                    proof {
                        assert(m@ =~= before.push(o0@[j as int]));
                    }
                }
                j += 1;
            }
            proof {
                assert(o0@.take(o0@.len() as int) =~= o0@);
                assert forall|i: int| 0 <= i < b0.len() implies {
                    let p = place(o0@, (#[trigger] b0[i]).0@);
                    &&& m[i].0@ == b0[i].0@
                    &&& if 0 <= p < o0.len() {
                        merged(b0[i].1, o0[p].1, m[i].1)
                    } else {
                        m[i].1 == b0[i].1
                    }
                } by {
                    assert(b0@[i] == b0[i]);
                    lemma_place(o0@, b0@[i].0@);
                }
            }
            Tree::Table(m)
        },
        (_, overlay) => overlay,
    }
}

/// A name that the merge knows stands where the base has it.
proof fn lemma_known_place(
    b: Seq<(String, Tree)>,
    o: Seq<(String, Tree)>,
    j: int,
    r: Seq<(String, Tree)>,
    at: int,
)
    requires
        distinct(o),
        0 <= j < o.len(),
        partly(b, o, j, r),
        0 <= at < r.len(),
        r[at].0@ == o[j].0@,
    ensures
        at < b.len(),
        b[at].0@ == o[j].0@,
        r[at].1 == b[at].1,
{
    if at >= b.len() {
        let extra = o.take(j).filter(fresh_in(b));
        assert(r[at] == r.skip(b.len() as int)[at - b.len()]);
        lemma_kept(o.take(j), fresh_in(b), at - b.len());
        let k = choose|k: int| 0 <= k < j && o.take(j)[k] == extra[at - b.len()];
        assert(o[k].0@ == o[j].0@);
        assert(false);
    }
    assert(b[at].0@ == r[at].0@);
    lemma_place_is(o, j);
}

/// Name by name, an overlay of one table on another gives: the overlay's value
/// laid over the base's where both have the name, the only value there is where
/// one of them has it, and nothing else.
pub proof fn law_merge_by_name(base: Tree, over: Tree, r: Tree, key: Seq<char>)
    requires
        base is Table,
        over is Table,
        wf(base),
        wf(over),
        merged(base, over, r),
    ensures
        r is Table,
        match (value_of(base, key), value_of(over, key)) {
            (Some(b), Some(o)) => value_of(r, key) is Some && merged(b, o, value_of(r, key)->0),
            (Some(b), None) => value_of(r, key) == Some(b),
            (None, o) => value_of(r, key) == o,
        },
{
    let b = base->Table_0@;
    let o = over->Table_0@;
    let m = r->Table_0@;
    lemma_place(b, key);
    lemma_place(o, key);
    lemma_place(m, key);
    let p = place(b, key);
    let kept = o.filter(fresh_in(b));
    if p < b.len() {
        assert(base->Table_0[p].0@ == key);
        assert(m[p].0@ == key);
        assert(names(m, key));
        let q = place(m, key);
        lemma_place_first(m, key, p);
        if q < p {
            assert(base->Table_0[q].0@ == m[q].0@);
            assert(b[q].0@ == key);
        }
    } else {
        let q = place(o, key);
        if names(m, key) {
            let i = place(m, key);
            if i < b.len() {
                assert(base->Table_0[i].0@ == m[i].0@);
                assert(b[i].0@ == key);
            }
            assert(m[i] == m.skip(b.len() as int)[i - b.len()]);
            lemma_kept(o, fresh_in(b), i - b.len());
            let k = choose|k: int| 0 <= k < o.len() && #[trigger] o[k] == kept[i - b.len()];
            lemma_place_is(o, k);
            assert(o[k].0@ == key);
        }
        if q < o.len() {
            o.lemma_filter_contains(fresh_in(b), q);
            let i = choose|i: int| 0 <= i < kept.len() && kept[i] == o[q];
            assert(m.skip(b.len() as int)[i] == m[b.len() + i]);
            assert(m[b.len() + i].0@ == key);
            assert(names(m, key));
        }
    }
}

/// A name's place is not behind an entry of that name.
proof fn lemma_place_first(m: Seq<(String, Tree)>, key: Seq<char>, i: int)
    requires
        0 <= i < m.len(),
        m[i].0@ == key,
    ensures
        place(m, key) <= i,
    decreases m.len(),
{
    if m[0].0@ != key {
        lemma_place_first(m.drop_first(), key, i - 1);
    }
}

/// An overlay that is no table, or that meets none, stands alone.
pub proof fn law_merge_replaces(base: Tree, over: Tree, r: Tree)
    requires
        !(base is Table && over is Table),
        merged(base, over, r),
    ensures
        r == over,
{
}

} // verus!
