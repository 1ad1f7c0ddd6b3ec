//! The weight of a capture. An exact file entry, by name or full path, comes
//! before the first matching glob, and that before the default.

use vstd::prelude::*;
use crate::config::number::Real;
use crate::config::{GlobWeight, Weights};
use crate::text::str_eq;

verus! {

/// Whether a text matches a pattern; none where the pattern is no pattern.
pub uninterp spec fn glob_match(pattern: Seq<char>, text: Seq<char>) -> Option<bool>;

/// `glob::Pattern::new` and, where that succeeds, `glob::Pattern::matches`: whether
/// the text matches the pattern under the default options. It depends on the two
/// texts alone.
#[verifier::external_body]
fn glob_says(pattern: &str, text: &str) -> (r: Option<bool>)
    ensures
        r == glob_match(pattern@, text@),
{
    match glob::Pattern::new(pattern) {
        Ok(p) => Some(p.matches(text)),
        Err(_) => None,
    }
}

/// The first weight that is listed under a name.
pub open spec fn listed_weight(files: Seq<(String, Real)>, name: Seq<char>) -> Option<Real>
    decreases files.len(),
{
    if files.len() == 0 {
        None
    } else if files[0].0@ == name {
        Some(files[0].1)
    } else {
        listed_weight(files.drop_first(), name)
    }
}

/// The first glob among answers that says yes, or the length where none does.
pub open spec fn first_yes(answers: Seq<bool>) -> int
    decreases answers.len(),
{
    if answers.len() == 0 {
        0
    } else if answers[0] {
        0
    } else {
        1 + first_yes(answers.drop_first())
    }
}

/// What the globs say of a capture.
pub open spec fn glob_answers(
    globs: Seq<GlobWeight>,
    name: Seq<char>,
    full: Seq<char>,
) -> Seq<bool> {
    globs.map_values(
        |g: GlobWeight|
            glob_match(g.pattern@, name) == Some(true) || glob_match(g.pattern@, full) == Some(
                true,
            ),
    )
}

/// The weight of a capture, given what the globs say of it.
pub open spec fn weight_given(
    w: Weights,
    name: Seq<char>,
    full: Seq<char>,
    answers: Seq<bool>,
) -> Real {
    match listed_weight(w.files@, name) {
        Some(x) => x,
        None => match listed_weight(w.files@, full) {
            Some(x) => x,
            None => {
                let i = first_yes(answers);
                if 0 <= i < w.globs@.len() {
                    w.globs@[i].weight
                } else {
                    w.default
                }
            },
        },
    }
}

fn find_weight(files: &Vec<(String, Real)>, name: &str) -> (r: Option<Real>)
    ensures
        r == listed_weight(files@, name@),
{
    let mut i: usize = 0;
    proof {
        assert(files@.skip(0) =~= files@);
    }
    while i < files.len()
        invariant
            i <= files@.len(),
            listed_weight(files@, name@) == listed_weight(files@.skip(i as int), name@),
        decreases files@.len() - i,
    {
        proof {
            assert(files@.skip(i as int).drop_first() =~= files@.skip(i as int + 1));
        }
        if str_eq(files[i].0.as_str(), name) {
            return Some(files[i].1);
        }
        i += 1;
    }
    None
}

/// The weight of a capture, given what each glob says of it: the entry of its name,
/// else of its full path, else of the first glob that says yes, else the default.
pub fn pick_weight(w: &Weights, name: &str, full: &str, answers: &Vec<bool>) -> (r: Real)
    requires
        answers@.len() == w.globs@.len(),
    ensures
        r == weight_given(*w, name@, full@, answers@),
{
    if let Some(x) = find_weight(&w.files, name) {
        return x;
    }
    if let Some(x) = find_weight(&w.files, full) {
        return x;
    }
    let mut i: usize = 0;
    proof {
        assert(answers@.skip(0) =~= answers@);
    }
    while i < answers.len()
        invariant
            i <= answers@.len(),
            answers@.len() == w.globs@.len(),
            first_yes(answers@) == i + first_yes(answers@.skip(i as int)),
            listed_weight(w.files@, name@) is None,
            listed_weight(w.files@, full@) is None,
        decreases answers@.len() - i,
    {
        proof {
            assert(answers@.skip(i as int).drop_first() =~= answers@.skip(i as int + 1));
        }
        if answers[i] {
            return w.globs[i].weight;
        }
        i += 1;
    }
    w.default
}

/// The weight of a capture, by its name and full path.
pub fn weight_for(name: &str, full: &str, w: &Weights) -> (r: Real)
    ensures
        r == weight_given(*w, name@, full@, glob_answers(w.globs@, name@, full@)),
{
    let mut answers: Vec<bool> = Vec::new();
    let mut i: usize = 0;
    while i < w.globs.len()
        invariant
            i <= w.globs@.len(),
            answers@.len() == i,
            forall|k: int|
                0 <= k < i ==> #[trigger] answers@[k] == glob_answers(w.globs@, name@, full@)[k],
        decreases w.globs@.len() - i,
    {
        let p: &str = w.globs[i].pattern.as_str();
        let yes: bool = matches!(glob_says(p, name), Some(true)) || matches!(
            glob_says(p, full),
            Some(true)
        );
        answers.push(yes);
        i += 1;
    }
    proof {
        assert(answers@ =~= glob_answers(w.globs@, name@, full@));
    }
    pick_weight(w, name, full, &answers)
}

/// An exact entry comes before every glob, and the name's before the path's.
pub proof fn law_exact_entry_comes_first(
    w: Weights,
    name: Seq<char>,
    full: Seq<char>,
    answers: Seq<bool>,
)
    requires
        listed_weight(w.files@, name) is Some || listed_weight(w.files@, full) is Some,
    ensures
        Some(weight_given(w, name, full, answers)) == match listed_weight(w.files@, name) {
            Some(x) => Some(x),
            None => listed_weight(w.files@, full),
        },
{
}

/// The first entry of the name, at `k`.
pub open spec fn first_listed(w: Weights, name: Seq<char>, k: int) -> bool {
    &&& 0 <= k < w.files@.len()
    &&& w.files@[k].0@ == name
    &&& forall|j: int| 0 <= j < k ==> (#[trigger] w.files@[j]).0@ != name
}

/// No entry is of the name.
pub open spec fn unlisted(w: Weights, name: Seq<char>) -> bool {
    forall|j: int| 0 <= j < w.files@.len() ==> (#[trigger] w.files@[j]).0@ != name
}

proof fn lemma_listed(files: Seq<(String, Real)>, name: Seq<char>)
    ensures
        forall|k: int|
            0 <= k < files.len() && (#[trigger] files[k]).0@ == name && (forall|j: int|
                0 <= j < k ==> (#[trigger] files[j]).0@ != name) ==> listed_weight(files, name)
                == Some(files[k].1),
        (forall|j: int| 0 <= j < files.len() ==> (#[trigger] files[j]).0@ != name)
            ==> listed_weight(files, name) is None,
    decreases files.len(),
{
    if files.len() > 0 && files[0].0@ != name {
        let rest = files.drop_first();
        lemma_listed(rest, name);
        assert forall|k: int|
            0 <= k < files.len() && (#[trigger] files[k]).0@ == name && (forall|j: int|
                0 <= j < k ==> (#[trigger] files[j]).0@ != name) implies listed_weight(files, name)
            == Some(files[k].1) by {
            assert(rest[k - 1] == files[k]);
            assert forall|j: int| 0 <= j < k - 1 implies (#[trigger] rest[j]).0@ != name by {
                assert(rest[j] == files[j + 1]);
            }
        }
        if forall|j: int| 0 <= j < files.len() ==> (#[trigger] files[j]).0@ != name {
            assert forall|j: int| 0 <= j < rest.len() implies (#[trigger] rest[j]).0@ != name by {
                assert(rest[j] == files[j + 1]);
            }
        }
    } else if files.len() > 0 {
        assert(files[0].0@ == name);
    }
}

proof fn lemma_first_yes(answers: Seq<bool>)
    ensures
        forall|k: int|
            0 <= k < answers.len() && #[trigger] answers[k] && (forall|j: int|
                0 <= j < k ==> !(#[trigger] answers[j])) ==> first_yes(answers) == k,
        (forall|j: int| 0 <= j < answers.len() ==> !(#[trigger] answers[j])) ==> first_yes(answers)
            == answers.len(),
    decreases answers.len(),
{
    if answers.len() > 0 && !answers[0] {
        let rest = answers.drop_first();
        lemma_first_yes(rest);
        assert forall|k: int|
            0 <= k < answers.len() && #[trigger] answers[k] && (forall|j: int|
                0 <= j < k ==> !(#[trigger] answers[j])) implies first_yes(answers) == k by {
            assert(rest[k - 1] == answers[k]);
            assert forall|j: int| 0 <= j < k - 1 implies !(#[trigger] rest[j]) by {
                assert(rest[j] == answers[j + 1]);
            }
        }
        if forall|j: int| 0 <= j < answers.len() ==> !(#[trigger] answers[j]) {
            assert forall|j: int| 0 <= j < rest.len() implies !(#[trigger] rest[j]) by {
                assert(rest[j] == answers[j + 1]);
            }
        }
    }
}

/// The weight of a capture is that of the first entry of its file name; without
/// one, of the first entry of its path; without one, of the first glob that says
/// yes to either; and without one, the default.
pub proof fn law_weight_goes_by_name_path_glob(
    w: Weights,
    name: Seq<char>,
    full: Seq<char>,
    answers: Seq<bool>,
)
    requires
        answers.len() == w.globs@.len(),
    ensures
        forall|k: int| #[trigger]
            first_listed(w, name, k) ==> weight_given(w, name, full, answers) == w.files@[k].1,
        forall|k: int| #[trigger]
            first_listed(w, full, k) && unlisted(w, name) ==> weight_given(w, name, full, answers)
                == w.files@[k].1,
        unlisted(w, name) && unlisted(w, full) ==> {
            &&& forall|k: int|
                0 <= k < answers.len() && #[trigger] answers[k] && (forall|j: int|
                    0 <= j < k ==> !(#[trigger] answers[j])) ==> weight_given(
                    w,
                    name,
                    full,
                    answers,
                ) == w.globs@[k].weight
            &&& (forall|j: int| 0 <= j < answers.len() ==> !(#[trigger] answers[j]))
                ==> weight_given(w, name, full, answers) == w.default
        },
{
    lemma_listed(w.files@, name);
    lemma_listed(w.files@, full);
    lemma_first_yes(answers);
    assert forall|k: int| #[trigger] first_listed(w, name, k) implies weight_given(
        w,
        name,
        full,
        answers,
    ) == w.files@[k].1 by {
        assert(w.files@[k].0@ == name);
    }
    assert forall|k: int| #[trigger] first_listed(w, full, k) && unlisted(
        w,
        name,
    ) implies weight_given(w, name, full, answers) == w.files@[k].1 by {
        assert(w.files@[k].0@ == full);
    }
}

} // verus!
