//! Scenario discovery.
//!
//! A scenario pack is an immediate subdirectory of the targets directory that
//! holds a `scenario.yaml`. Adding a scenario is a drop-in: a new directory, no
//! code change.

use vstd::prelude::*;
use crate::config::yaml::{declared_in, value_meta, yaml_of, yaml_value};
use crate::order::{text_before, text_less};
use crate::text::{chars_of, opt_ref, opt_str, opt_text};

verus! {

/// One discovered scenario pack.
#[derive(Clone, Debug, PartialEq, Eq)]
pub struct ScenarioInfo {
    /// Pack directory name, by which the pack is selected.
    pub name: String,
    /// The name declared inside the pack, if any.
    pub declared_name: Option<String>,
    /// The description declared inside the pack, if any.
    pub description: Option<String>,
    pub dir: String,
    pub has_profiles: bool,
    pub has_playbook: bool,
    pub has_plant: bool,
}

/// An entry of the targets directory.
#[derive(Debug)]
pub struct PackEntry {
    /// The entry's name, where it is readable text.
    pub name: Option<String>,
    pub dir: String,
    pub is_dir: bool,
    pub has_scenario: bool,
    /// The text of the pack's document, where it could be read.
    pub document: Option<String>,
    pub has_profiles: bool,
    pub has_playbook: bool,
    pub has_plant: bool,
}

/// What a text declares under `target`.
pub open spec fn declared(text: Option<Seq<char>>, key: Seq<char>) -> Option<Seq<char>> {
    match text {
        Some(t) => match yaml_of(t) {
            Ok(d) => declared_in(d, key),
            Err(_) => None,
        },
        None => None,
    }
}

/// The declared name and description of a pack, from the text of its document. Best
/// effort: what cannot be read is left out.
pub fn shallow_meta(text: Option<&str>) -> (r: (Option<String>, Option<String>))
    ensures
        opt_text(r.0) == declared(opt_str(text), "name"@),
        opt_text(r.1) == declared(opt_str(text), "description"@),
{
    match text {
        Some(t) => match yaml_value(t) {
            Ok(v) => value_meta(v),
            Err(_) => (None, None),
        },
        None => (None, None),
    }
}

/// The value of a discovered pack.
pub ghost struct InfoModel {
    pub name: Seq<char>,
    pub declared_name: Option<Seq<char>>,
    pub description: Option<Seq<char>>,
    pub dir: Seq<char>,
    pub has_profiles: bool,
    pub has_playbook: bool,
    pub has_plant: bool,
}

impl View for ScenarioInfo {
    type V = InfoModel;

    open spec fn view(&self) -> InfoModel {
        InfoModel {
            name: self.name@,
            declared_name: opt_text(self.declared_name),
            description: opt_text(self.description),
            dir: self.dir@,
            has_profiles: self.has_profiles,
            has_playbook: self.has_playbook,
            has_plant: self.has_plant,
        }
    }
}

/// The values of discovered packs.
pub open spec fn infos(v: Seq<ScenarioInfo>) -> Seq<InfoModel> {
    v.map_values(|s: ScenarioInfo| s@)
}

/// The pack that an entry is: a directory with a scenario document, whose name is
/// text and does not begin with an underscore, which marks a template.
pub open spec fn pack_of(e: PackEntry) -> Option<InfoModel> {
    if e.is_dir && e.has_scenario && e.name is Some && !(e.name->0@.len() > 0 && e.name->0@[0]
        == '_') {
        Some(
            InfoModel {
                name: e.name->0@,
                declared_name: declared(opt_text(e.document), "name"@),
                description: declared(opt_text(e.document), "description"@),
                dir: e.dir@,
                has_profiles: e.has_profiles,
                has_playbook: e.has_playbook,
                has_plant: e.has_plant,
            },
        )
    } else {
        None
    }
}

/// The place of a new name in an ordered list: behind all that are not after it.
pub open spec fn slot(v: Seq<InfoModel>, name: Seq<char>) -> int
    decreases v.len(),
{
    if v.len() == 0 {
        0
    } else if text_before(name, v.last().name) {
        slot(v.drop_last(), name)
    } else {
        v.len() as int
    }
}

/// The packs among entries, in order of their names.
pub open spec fn packs_of(es: Seq<PackEntry>) -> Seq<InfoModel>
    decreases es.len(),
{
    if es.len() == 0 {
        Seq::empty()
    } else {
        let prior = packs_of(es.drop_last());
        match pack_of(es.last()) {
            Some(p) => prior.insert(slot(prior, p.name), p),
            None => prior,
        }
    }
}

fn starts_with_underscore(s: &str) -> (r: bool)
    ensures
        r == (s@.len() > 0 && s@[0] == '_'),
{
    let cs = chars_of(s);
    cs.len() > 0 && cs[0] == '_'
}

fn pack(e: &PackEntry) -> (r: Option<ScenarioInfo>)
    ensures
        match r {
            Some(p) => pack_of(*e) == Some(p@),
            None => pack_of(*e) is None,
        },
{
    if !e.is_dir || !e.has_scenario {
        return None;
    }
    match &e.name {
        None => None,
        Some(name) => {
            if starts_with_underscore(name.as_str()) {
                return None;
            }
            let (declared_name, description) = shallow_meta(opt_ref(&e.document));
            Some(
                ScenarioInfo {
                    name: name.clone(),
                    declared_name,
                    description,
                    dir: e.dir.clone(),
                    has_profiles: e.has_profiles,
                    has_playbook: e.has_playbook,
                    has_plant: e.has_plant,
                },
            )
        },
    }
}

fn find_slot(v: &Vec<ScenarioInfo>, name: &str) -> (r: usize)
    ensures
        r == slot(infos(v@), name@),
        r <= v@.len(),
{
    let ghost all = infos(v@);
    let mut n: usize = v.len();
    proof {
        assert(all.take(n as int) =~= all);
    }
    while n > 0
        invariant
            n <= v@.len(),
            all == infos(v@),
            slot(all, name@) == slot(all.take(n as int), name@),
        decreases n,
    {
        proof {
            assert(all.take(n as int).drop_last() =~= all.take(n as int - 1));
            assert(all.take(n as int).last() == v@[n as int - 1]@);
        }
        if !text_less(name, v[n - 1].name.as_str()) {
            return n;
        }
        n -= 1;
    }
    0
}

/// The scenario packs among the entries of a targets directory, sorted by name.
pub fn discover(entries: &Vec<PackEntry>) -> (r: Vec<ScenarioInfo>)
    ensures
        infos(r@) == packs_of(entries@),
{
    let mut out: Vec<ScenarioInfo> = Vec::new();
    let mut i: usize = 0;
    proof {
        assert(entries@.take(0) =~= Seq::empty());
        assert(infos(out@) =~= Seq::empty());
    }
    while i < entries.len()
        invariant
            i <= entries@.len(),
            infos(out@) == packs_of(entries@.take(i as int)),
        decreases entries@.len() - i,
    {
        proof {
            assert(entries@.take(i as int + 1).drop_last() =~= entries@.take(i as int));
        }
        if let Some(p) = pack(&entries[i]) {
            let at: usize = find_slot(&out, p.name.as_str());
            let ghost before = out@;
            let ghost m = p@;
            out.insert(at, p);
            proof {
                assert(infos(out@) =~= infos(before).insert(at as int, m));
            }
        }
        i += 1;
    }
    proof {
        assert(entries@.take(i as int) =~= entries@);
    }
    out
}

/// No name comes after a name that follows it.
pub open spec fn in_order(v: Seq<InfoModel>) -> bool {
    forall|i: int, j: int|
        0 <= i < j < v.len() ==> !text_before((#[trigger] v[j]).name, (#[trigger] v[i]).name)
}

proof fn lemma_before_asym(a: Seq<char>, b: Seq<char>)
    requires
        text_before(a, b),
    ensures
        !text_before(b, a),
    decreases a.len(),
{
    if a.len() > 0 && a[0] == b[0] {
        lemma_before_asym(a.drop_first(), b.drop_first());
    }
}

proof fn lemma_not_before_trans(a: Seq<char>, b: Seq<char>, c: Seq<char>)
    requires
        text_before(a, b),
        !text_before(c, b),
    ensures
        text_before(a, c),
    decreases a.len(),
{
    if a.len() > 0 && b.len() > 0 && c.len() > 0 && a[0] == b[0] && b[0] == c[0] {
        lemma_not_before_trans(a.drop_first(), b.drop_first(), c.drop_first());
    }
}

proof fn lemma_slot(v: Seq<InfoModel>, name: Seq<char>)
    requires
        in_order(v),
    ensures
        0 <= slot(v, name) <= v.len(),
        forall|i: int| 0 <= i < slot(v, name) ==> !text_before(name, (#[trigger] v[i]).name),
        forall|i: int|
            slot(v, name) <= i < v.len() ==> text_before(name, (#[trigger] v[i]).name),
    decreases v.len(),
{
    if v.len() > 0 {
        let last = v.len() - 1;
        if text_before(name, v.last().name) {
            assert forall|i: int, j: int| 0 <= i < j < v.drop_last().len() implies !text_before(
                (#[trigger] v.drop_last()[j]).name,
                (#[trigger] v.drop_last()[i]).name,
            ) by {
                assert(!text_before(v[j].name, v[i].name));
            }
            lemma_slot(v.drop_last(), name);
            assert forall|i: int| 0 <= i < slot(v, name) implies !text_before(
                name,
                (#[trigger] v[i]).name,
            ) by {
                assert(v.drop_last()[i] == v[i]);
            }
            assert forall|i: int| slot(v, name) <= i < v.len() implies text_before(
                name,
                (#[trigger] v[i]).name,
            ) by {
                if i < last {
                    assert(v.drop_last()[i] == v[i]);
                }
            }
        } else {
            assert forall|i: int| 0 <= i < slot(v, name) implies !text_before(
                name,
                (#[trigger] v[i]).name,
            ) by {
                if i < last && text_before(name, v[i].name) {
                    assert(!text_before(v[last].name, v[i].name));
                    lemma_not_before_trans(name, v[i].name, v[last].name);
                }
            }
        }
    }
}

/// Packs are listed in order of their names.
pub proof fn law_packs_are_sorted(es: Seq<PackEntry>)
    ensures
        in_order(packs_of(es)),
    decreases es.len(),
{
    if es.len() > 0 {
        law_packs_are_sorted(es.drop_last());
        let prior = packs_of(es.drop_last());
        if let Some(p) = pack_of(es.last()) {
            let at = slot(prior, p.name);
            lemma_slot(prior, p.name);
            let n = prior.insert(at, p);
            assert forall|i: int, j: int| 0 <= i < j < n.len() implies !text_before(
                (#[trigger] n[j]).name,
                (#[trigger] n[i]).name,
            ) by {
                if i == at {
                    lemma_before_asym(p.name, prior[j - 1].name);
                } else if j == at {
                    assert(!text_before(p.name, prior[i].name));
                } else {
                    let a = if i < at {
                        i
                    } else {
                        i - 1
                    };
                    let b = if j < at {
                        j
                    } else {
                        j - 1
                    };
                    assert(!text_before(prior[b].name, prior[a].name));
                }
            }
        }
    }
}

} // verus!
