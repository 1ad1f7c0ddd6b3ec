//! Documents as they are written: YAML text, what it says, and its tree.

use vstd::prelude::*;
use crate::config::tree::{deep_merge, distinct, merged, wf, LeafKind, Tree};
use crate::scenario::document::{unreadable, unreadable_message};
use crate::text::{opt_text, str_eq};

verus! {

/// A value of the YAML reader, `serde_norway::Value`.
#[verifier::external_type_specification]
#[verifier::external_body]
pub struct ExValue(serde_norway::Value);

/// What a YAML value says: numbers by their text, and tables by their entries in
/// order.
pub ghost enum Doc {
    Null,
    Bool(bool),
    Number(Seq<char>),
    Text(Seq<char>),
    List(Seq<Doc>),
    Table(Seq<(Doc, Doc)>),
    Tagged(Box<Doc>),
}

/// What a text says, or what is wrong with it.
pub uninterp spec fn yaml_of(text: Seq<char>) -> Result<Doc, Seq<char>>;

/// What a value holds.
pub uninterp spec fn doc_of(v: serde_norway::Value) -> Doc;

/// `serde_norway::from_str::<serde_norway::Value>`: the value that a text stands
/// for, or what the reader says is wrong with it. It depends on the text alone.
#[verifier::external_body]
pub(crate) fn yaml_value(text: &str) -> (r: Result<serde_norway::Value, String>)
    ensures
        match r {
            Ok(v) => yaml_of(text@) == Ok::<Doc, Seq<char>>(doc_of(v)),
            Err(e) => yaml_of(text@) == Err::<Doc, Seq<char>>(e@),
        },
{
    serde_norway::from_str::<serde_norway::Value>(text).map_err(|e| e.to_string())
}

/// A value taken apart, one level deep.
enum Node {
    Null,
    Bool(bool),
    Number(String),
    Text(String),
    List(Vec<serde_norway::Value>),
    Table(Vec<(serde_norway::Value, serde_norway::Value)>),
    Tagged(serde_norway::Value),
}

/// What the parts of a value say together.
closed spec fn node_doc(n: Node) -> Doc {
    match n {
        Node::Null => Doc::Null,
        Node::Bool(b) => Doc::Bool(b),
        Node::Number(s) => Doc::Number(s@),
        Node::Text(s) => Doc::Text(s@),
        Node::List(l) => Doc::List(l@.map_values(|v: serde_norway::Value| doc_of(v))),
        Node::Table(m) => Doc::Table(
            m@.map_values(
                |e: (serde_norway::Value, serde_norway::Value)| (doc_of(e.0), doc_of(e.1)),
            ),
        ),
        Node::Tagged(v) => Doc::Tagged(Box::new(doc_of(v))),
    }
}

/// No two entries are under one text.
pub open spec fn keys_distinct(m: Seq<(Doc, Doc)>) -> bool {
    forall|i: int, j: int|
        0 <= i < j < m.len() && (#[trigger] m[i]).0 is Text ==> m[i].0 != (#[trigger] m[j]).0
}

/// The variants of `serde_norway::Value`, told apart: a number by its `Display` text,
/// a mapping by its entries in order, of which no two have one key, and a tagged
/// value by what the tag stands before.
#[verifier::external_body]
fn yaml_node(v: serde_norway::Value) -> (r: Node)
    ensures
        node_doc(r) == doc_of(v),
        node_doc(r) matches Doc::Table(m) ==> keys_distinct(m),
{
    match v {
        serde_norway::Value::Null => Node::Null,
        serde_norway::Value::Bool(b) => Node::Bool(b),
        serde_norway::Value::Number(n) => Node::Number(n.to_string()),
        serde_norway::Value::String(s) => Node::Text(s),
        serde_norway::Value::Sequence(s) => Node::List(s),
        serde_norway::Value::Mapping(m) => Node::Table(m.into_iter().collect()),
        serde_norway::Value::Tagged(t) => Node::Tagged(t.value),
    }
}

/// Every key of every table is a text.
pub open spec fn plain(d: Doc) -> bool
    decreases d,
{
    match d {
        Doc::List(l) => forall|i: int| 0 <= i < l.len() ==> plain(#[trigger] l[i]),
        Doc::Table(m) => forall|i: int|
            0 <= i < m.len() ==> (#[trigger] m[i]).0 is Text && plain(m[i].1),
        Doc::Tagged(x) => plain(*x),
        _ => true,
    }
}

/// The tree holds what the document says; a tag says nothing.
pub open spec fn shows(t: Tree, d: Doc) -> bool
    decreases d,
{
    match d {
        Doc::Null => t matches Tree::Leaf(k, s) && k == LeafKind::Null && s@ == "null"@,
        Doc::Bool(b) => t matches Tree::Leaf(k, s) && k == LeafKind::Bool && s@ == if b {
            "true"@
        } else {
            "false"@
        },
        Doc::Number(n) => t matches Tree::Leaf(k, s) && k == LeafKind::Number && s@ == n,
        Doc::Text(x) => t matches Tree::Leaf(k, s) && k == LeafKind::Text && s@ == x,
        Doc::List(l) => {
            &&& t is List
            &&& t->List_0@.len() == l.len()
            &&& forall|i: int| 0 <= i < l.len() ==> shows(t->List_0@[i], #[trigger] l[i])
        },
        Doc::Table(m) => {
            &&& t is Table
            &&& t->Table_0@.len() == m.len()
            &&& forall|i: int|
                0 <= i < m.len() ==> (#[trigger] m[i]).0 == Doc::Text(t->Table_0@[i].0@) && shows(
                    t->Table_0@[i].1,
                    m[i].1,
                )
        },
        Doc::Tagged(x) => shows(t, *x),
    }
}

fn tree(v: serde_norway::Value) -> (r: Option<Tree>)
    ensures
        r is Some <==> plain(doc_of(v)),
        r matches Some(t) ==> shows(t, doc_of(v)) && wf(t),
    decreases doc_of(v),
{
    let ghost d = doc_of(v);
    match yaml_node(v) {
        Node::Null => Some(Tree::Leaf(LeafKind::Null, "null".to_owned())),
        Node::Bool(b) => Some(
            Tree::Leaf(
                LeafKind::Bool,
                if b {
                    "true".to_owned()
                } else {
                    "false".to_owned()
                },
            ),
        ),
        Node::Number(s) => Some(Tree::Leaf(LeafKind::Number, s)),
        Node::Text(s) => Some(Tree::Leaf(LeafKind::Text, s)),
        Node::List(l) => {
            let ghost ds = l@.map_values(|v: serde_norway::Value| doc_of(v));
            let mut out: Vec<Tree> = Vec::new();
            for x in it: l
                invariant
                    d == doc_of(v),
                    d == Doc::List(ds),
                    ds == it.seq().map_values(|v: serde_norway::Value| doc_of(v)),
                    out@.len() == it.index(),
                    forall|i: int|
                        0 <= i < it.index() ==> plain(#[trigger] ds[i]) && shows(out@[i], ds[i])
                            && wf(out@[i]),
            {
                let ghost n = it.index();
                proof {
                    assert(ds[n] == doc_of(x));
                    assert(d->List_0[n] == ds[n]);
                    assert(decreases_to!(d => d->List_0[n]));
                }
                match tree(x) {
                    Some(t) => out.push(t),
                    None => {
                        proof {
                            assert(!plain(ds[n]));
                        }
                        return None;
                    },
                }
            }
            proof {
                assert(shows(Tree::List(out), d));
            }
            Some(Tree::List(out))
        },
        Node::Table(m) => {
            let ghost ds = m@.map_values(
                |e: (serde_norway::Value, serde_norway::Value)| (doc_of(e.0), doc_of(e.1)),
            );
            let mut out: Vec<(String, Tree)> = Vec::new();
            for e in it: m
                invariant
                    d == doc_of(v),
                    d == Doc::Table(ds),
                    ds == it.seq().map_values(
                        |e: (serde_norway::Value, serde_norway::Value)| (doc_of(e.0), doc_of(e.1)),
                    ),
                    out@.len() == it.index(),
                    forall|i: int|
                        0 <= i < it.index() ==> (#[trigger] ds[i]).0 == Doc::Text(out@[i].0@)
                            && plain(ds[i].1) && shows(out@[i].1, ds[i].1) && wf(out@[i].1),
            {
                let ghost n = it.index();
                proof {
                    assert(ds[n] == (doc_of(e.0), doc_of(e.1)));
                    assert(d->Table_0[n] == ds[n]);
                    assert(decreases_to!(d => d->Table_0[n].1));
                }
                let (k, x) = e;
                match yaml_node(k) {
                    Node::Text(s) => match tree(x) {
                        Some(t) => out.push((s, t)),
                        None => {
                            return None;
                        },
                    },
                    _ => {
                        return None;
                    },
                }
            }
            proof {
                assert(distinct(out@)) by {
                    assert forall|i: int, j: int| 0 <= i < j < out@.len() implies (
                    #[trigger] out@[i]).0@ != (#[trigger] out@[j]).0@ by {
                        assert(ds[i].0 != ds[j].0);
                    }
                }
            }
            let t = Tree::Table(out);
            proof {
                assert forall|i: int| 0 <= i < out.len() implies wf((#[trigger] out[i]).1) by {
                    assert(ds[i].0 == Doc::Text(out@[i].0@));
                }
                assert(shows(t, d));
                assert(wf(t));
            }
            Some(t)
        },
        Node::Tagged(x) => {
            proof {
                assert(*d->Tagged_0 == doc_of(x));
                assert(decreases_to!(d => *d->Tagged_0));
            }
            tree(x)
        },
    }
}

/// What keeps a text from being read as a tree: it is no YAML, or a table in it has
/// a key that is no text.
pub open spec fn text_fault(text: Seq<char>) -> Option<Seq<char>> {
    match yaml_of(text) {
        Err(e) => Some(e),
        Ok(d) => if plain(d) {
            None
        } else {
            Some("a key is not a string"@)
        },
    }
}

/// The tree is that of a text.
pub open spec fn is_tree_of(t: Tree, text: Seq<char>) -> bool {
    &&& text_fault(text) is None
    &&& shows(t, yaml_of(text)->Ok_0)
    &&& wf(t)
}

/// The tree of a value, where every key in it is a text.
pub fn value_tree(v: Result<serde_norway::Value, String>) -> (r: Result<Tree, String>)
    ensures
        match r {
            Ok(t) => v matches Ok(x) && plain(doc_of(x)) && shows(t, doc_of(x)) && wf(t),
            Err(e) => match v {
                Ok(x) => !plain(doc_of(x)) && e@ == "a key is not a string"@,
                Err(f) => e == f,
            },
        },
{
    match v {
        Ok(x) => match tree(x) {
            Some(t) => Ok(t),
            None => Err("a key is not a string".to_owned()),
        },
        Err(e) => Err(e),
    }
}

/// Read a text as a tree.
pub fn parse_yaml(text: &str) -> (r: Result<Tree, String>)
    ensures
        match r {
            Ok(t) => is_tree_of(t, text@),
            Err(e) => text_fault(text@) == Some(e@),
        },
{
    value_tree(yaml_value(text))
}

/// What is said of a text that cannot be read, under its name.
pub open spec fn named_fault(name: Seq<char>, text: Seq<char>) -> Option<Seq<char>> {
    match text_fault(text) {
        Some(e) => Some(unreadable(name, e)),
        None => None,
    }
}

/// Read a text as a tree, or refuse it under its name.
pub fn parse_named(name: &str, text: &str) -> (r: Result<Tree, String>)
    ensures
        match r {
            Ok(t) => is_tree_of(t, text@),
            Err(e) => named_fault(name@, text@) == Some(e@),
        },
{
    match parse_yaml(text) {
        Ok(t) => Ok(t),
        Err(e) => Err(unreadable_message(name, e.as_str())),
    }
}

/// A tree is that of one text laid over that of another.
pub open spec fn is_overlay_of(r: Tree, base: Seq<char>, over: Seq<char>) -> bool {
    exists|b: Tree, o: Tree|
        is_tree_of(b, base) && is_tree_of(o, over) && #[trigger] merged(b, o, r)
}

/// Lay the document of a text over that of another. The texts go by the names of
/// their files; the first that cannot be read is refused under its name.
pub fn overlay_texts(base_name: &str, base: &str, over_name: &str, over: &str) -> (r: Result<
    Tree,
    String,
>)
    ensures
        match r {
            Ok(t) => {
                &&& text_fault(base@) is None
                &&& text_fault(over@) is None
                &&& is_overlay_of(t, base@, over@)
                &&& wf(t)
            },
            Err(e) => Some(e@) == match named_fault(base_name@, base@) {
                Some(f) => Some(f),
                None => named_fault(over_name@, over@),
            },
        },
{
    let b = match parse_named(base_name, base) {
        Ok(t) => t,
        Err(e) => {
            return Err(e);
        },
    };
    match parse_named(over_name, over) {
        Ok(o) => Ok(deep_merge(b, o)),
        Err(e) => Err(e),
    }
}

/// A document behind its tags.
pub open spec fn untagged(d: Doc) -> Doc
    decreases d,
{
    match d {
        Doc::Tagged(x) => untagged(*x),
        _ => d,
    }
}

/// The value of the first entry under a text.
pub open spec fn entry(m: Seq<(Doc, Doc)>, key: Seq<char>) -> Option<Doc>
    decreases m.len(),
{
    if m.len() == 0 {
        None
    } else {
        match entry(m.drop_last(), key) {
            Some(d) => Some(d),
            None => if m.last().0 == Doc::Text(key) {
                Some(m.last().1)
            } else {
                None
            },
        }
    }
}

/// What a table has under a text.
pub open spec fn under(d: Doc, key: Seq<char>) -> Option<Doc> {
    match untagged(d) {
        Doc::Table(m) => entry(m, key),
        _ => None,
    }
}

/// The text that a document is.
pub open spec fn doc_text(d: Doc) -> Option<Seq<char>> {
    match untagged(d) {
        Doc::Text(s) => Some(s),
        _ => None,
    }
}

fn untag(v: serde_norway::Value) -> (r: Node)
    ensures
        node_doc(r) == untagged(doc_of(v)),
    decreases doc_of(v),
{
    let ghost d = doc_of(v);
    match yaml_node(v) {
        Node::Tagged(x) => {
            proof {
                assert(*d->Tagged_0 == doc_of(x));
                assert(decreases_to!(d => *d->Tagged_0));
            }
            untag(x)
        },
        n => n,
    }
}

/// A value or none, as documents.
closed spec fn opt_doc(v: Option<serde_norway::Value>) -> Option<Doc> {
    match v {
        Some(x) => Some(doc_of(x)),
        None => None,
    }
}

/// The values that a table has under two texts.
fn take_two(v: serde_norway::Value, a: &str, b: &str) -> (r: (
    Option<serde_norway::Value>,
    Option<serde_norway::Value>,
))
    requires
        a@ != b@,
    ensures
        opt_doc(r.0) == under(doc_of(v), a@),
        opt_doc(r.1) == under(doc_of(v), b@),
{
    let mut first: Option<serde_norway::Value> = None;
    let mut second: Option<serde_norway::Value> = None;
    if let Node::Table(m) = untag(v) {
        let ghost ds = m@.map_values(
            |e: (serde_norway::Value, serde_norway::Value)| (doc_of(e.0), doc_of(e.1)),
        );
        for e in it: m
            invariant
                a@ != b@,
                ds == it.seq().map_values(
                    |e: (serde_norway::Value, serde_norway::Value)| (doc_of(e.0), doc_of(e.1)),
                ),
                opt_doc(first) == entry(ds.take(it.index()), a@),
                opt_doc(second) == entry(ds.take(it.index()), b@),
        {
            let ghost n = it.index();
            proof {
                assert(ds[n] == (doc_of(e.0), doc_of(e.1)));
                assert(ds.take(n + 1).drop_last() =~= ds.take(n));
            }
            let (k, x) = e;
            if let Node::Text(s) = yaml_node(k) {
                if str_eq(s.as_str(), a) {
                    if first.is_none() {
                        first = Some(x);
                    }
                } else if str_eq(s.as_str(), b) {
                    if second.is_none() {
                        second = Some(x);
                    }
                }
            }
        }
        proof {
            assert(ds.take(ds.len() as int) =~= ds);
        }
    }
    (first, second)
}

fn text_in(v: Option<serde_norway::Value>) -> (r: Option<String>)
    ensures
        opt_text(r) == match opt_doc(v) {
            Some(d) => doc_text(d),
            None => None,
        },
{
    match v {
        Some(x) => match untag(x) {
            Node::Text(s) => Some(s),
            _ => None,
        },
        None => None,
    }
}

/// What a document declares under `target`.
pub open spec fn declared_in(d: Doc, key: Seq<char>) -> Option<Seq<char>> {
    match under(d, "target"@) {
        Some(t) => match under(t, key) {
            Some(x) => doc_text(x),
            None => None,
        },
        None => None,
    }
}

/// The name and the description that a value declares.
pub fn value_meta(v: serde_norway::Value) -> (r: (Option<String>, Option<String>))
    ensures
        opt_text(r.0) == declared_in(doc_of(v), "name"@),
        opt_text(r.1) == declared_in(doc_of(v), "description"@),
{
    proof {
        reveal_strlit("target");
        reveal_strlit("name");
        reveal_strlit("description");
        assert("name"@.len() != "description"@.len());
        assert("target"@.len() != "name"@.len());
    }
    let (target, _) = take_two(v, "target", "name");
    match target {
        Some(t) => {
            let (n, d) = take_two(t, "name", "description");
            (text_in(n), text_in(d))
        },
        None => (None, None),
    }
}

/// Two trees hold the same.
pub open spec fn alike(t: Tree, u: Tree) -> bool
    decreases t,
{
    match (t, u) {
        (Tree::Leaf(k, s), Tree::Leaf(l, x)) => k == l && s@ == x@,
        (Tree::List(a), Tree::List(b)) => a.len() == b.len() && forall|i: int|
            0 <= i < a.len() ==> alike(#[trigger] a[i], b[i]),
        (Tree::Table(a), Tree::Table(b)) => a.len() == b.len() && forall|i: int|
            0 <= i < a.len() ==> (#[trigger] a[i]).0@ == b[i].0@ && alike(a[i].1, b[i].1),
        _ => false,
    }
}

/// A document has one tree: any two that show it hold the same.
pub proof fn law_one_document_one_tree(t: Tree, u: Tree, d: Doc)
    requires
        shows(t, d),
        shows(u, d),
    ensures
        alike(t, u),
    decreases d,
{
    match d {
        Doc::List(l) => {
            assert forall|i: int| 0 <= i < t->List_0.len() implies alike(
                #[trigger] t->List_0[i],
                u->List_0[i],
            ) by {
                assert(shows(t->List_0@[i], l[i]) && shows(u->List_0@[i], l[i]));
                law_one_document_one_tree(t->List_0@[i], u->List_0@[i], l[i]);
            }
        },
        Doc::Table(m) => {
            assert forall|i: int| 0 <= i < t->Table_0.len() implies (
            #[trigger] t->Table_0[i]).0@ == u->Table_0[i].0@ && alike(
                t->Table_0[i].1,
                u->Table_0[i].1,
            ) by {
                assert(m[i].0 == Doc::Text(t->Table_0@[i].0@));
                assert(m[i].0 == Doc::Text(u->Table_0@[i].0@));
                law_one_document_one_tree(t->Table_0@[i].1, u->Table_0@[i].1, m[i].1);
            }
        },
        Doc::Tagged(x) => law_one_document_one_tree(t, u, *x),
        _ => {},
    }
}

} // verus!
