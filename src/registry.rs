//! Which names to look up in the package index for an import, and how the
//! answers decide the dependency that is recorded.
use vstd::prelude::*;
use vstd::string::StringExecFns;
use crate::imports::{ImportModel, PythonImport};
use crate::modules::{is_std_module, views};
use crate::text::push_char;

verus! {

/// `module.member`.
pub open spec fn dotted(m: Seq<char>, x: Seq<char>) -> Seq<char> {
    m + seq!['.'] + x
}

/// The names to ask the index about, in order, until one is confirmed: `m`
/// alone for `import m`; the dotted name `m.x`, then `m`, for
/// `from m import x`. A standard module is never asked about.
pub open spec fn plan_of(i: ImportModel, stdlib: Seq<Seq<char>>) -> Seq<Seq<char>> {
    if stdlib.contains(i.0) {
        Seq::<Seq<char>>::empty()
    } else {
        match i.1 {
            None => seq![i.0],
            Some(x) => seq![dotted(i.0, x), i.0],
        }
    }
}

/// The dotted name `module.member`.
pub fn dotted_name(module: &String, member: &String) -> (r: String)
    ensures
        r@ == dotted(module@, member@),
{
    let mut s = module.clone();
    push_char(&mut s, '.');
    s.append(member.as_str());
    s
}

/// The index's metadata address for a package name.
pub fn registry_url(name: &String) -> (r: String)
    ensures
        r@ == "https://pypi.org/pypi/"@ + name@ + "/json"@,
{
    let mut s = String::from_str("https://pypi.org/pypi/");
    s.append(name.as_str());
    s.append("/json");
    s
}

/// The names to look up for one import, in the order they are tried.
pub fn lookup_plan(import: &PythonImport, stdlib: &[String]) -> (r: Vec<String>)
    ensures
        views(r@) == plan_of(import@, views(stdlib@)),
{
    let mut plan: Vec<String> = Vec::new();
    match import {
        PythonImport::ModuleOnly(m) => {
            if !is_std_module(stdlib, m) {
                plan.push(m.clone());
            }
        },
        PythonImport::ModuleWithMember(m, x) => {
            if !is_std_module(stdlib, m) {
                plan.push(dotted_name(m, x));
                plan.push(m.clone());
            }
        },
    }
    proof {
        assert(views(plan@) =~= plan_of(import@, views(stdlib@)));
    }
    plan
}

/// What to do next while resolving one import.
#[derive(Debug, Clone, PartialEq, Eq)]
pub enum LookupStep {
    /// Ask the index whether this name exists.
    Query(String),
    /// This name was confirmed: record it.
    Found(String),
    /// Every name was refused: record nothing.
    NotFound,
}

/// How a lookup whose request failed (no response at all) is counted.
#[derive(Debug, Clone, Copy, PartialEq, Eq, Structural)]
pub enum FailurePolicy {
    /// As a package that does not exist; the default.
    TreatAsAbsent,
    /// As a package that exists.
    TreatAsPresent,
    /// Not at all: the run stops.
    Abort,
}

/// The answer to one lookup: `Some(success)` for a response, `None` when the
/// request failed. Gives whether the name counts as existing, or `None` where
/// the policy says to stop.
pub fn interpret_response(response: Option<bool>, policy: FailurePolicy) -> (r: Option<bool>)
    ensures
        match response {
            Some(ok) => r == Some(ok),
            None => r == match policy {
                FailurePolicy::TreatAsAbsent => Some(false),
                FailurePolicy::TreatAsPresent => Some(true),
                FailurePolicy::Abort => None::<bool>,
            },
        },
{
    match response {
        Some(ok) => Some(ok),
        None => match policy {
            FailurePolicy::TreatAsAbsent => Some(false),
            FailurePolicy::TreatAsPresent => Some(true),
            FailurePolicy::Abort => None,
        },
    }
}

/// Given the answers to the first `answers.len()` names of `plan`, the next step: the first confirmed name is
/// recorded, else the next name is asked about, else nothing is recorded.
pub fn next_lookup(plan: &[String], answers: &[bool]) -> (r: LookupStep)
    requires
        answers@.len() <= plan@.len(),
    ensures
        match r {
            LookupStep::Found(n) => exists|j: int|
                0 <= j < answers@.len() && answers@[j] && (forall|k: int|
                    0 <= k < j ==> !answers@[k]) && n@ == plan@[j]@,
            LookupStep::Query(n) => (forall|k: int| 0 <= k < answers@.len() ==> !answers@[k])
                && answers@.len() < plan@.len() && n@ == plan@[answers@.len() as int]@,
            LookupStep::NotFound => (forall|k: int| 0 <= k < answers@.len() ==> !answers@[k])
                && answers@.len() == plan@.len(),
        },
{
    let mut j: usize = 0;
    while j < answers.len()
        invariant
            j <= answers@.len() <= plan@.len(),
            forall|k: int| 0 <= k < j ==> !answers@[k],
        decreases answers@.len() - j,
    {
        if answers[j] {
            return LookupStep::Found(plan[j].clone());
        }
        j = j + 1;
    }
    if answers.len() < plan.len() {
        LookupStep::Query(plan[answers.len()].clone())
    } else {
        LookupStep::NotFound
    }
}

/// An import of a standard module is never looked up, whatever the index
/// would say, so it never becomes a dependency.
pub proof fn lemma_std_module_excluded(i: ImportModel, stdlib: Seq<Seq<char>>)
    requires
        stdlib.contains(i.0),
    ensures
        plan_of(i, stdlib).len() == 0,
{
}

/// No name that is ever looked up is a standard module, when the standard
/// set holds only undotted names: a plain import is asked about only when
/// it is not standard, and a dotted `m.x` holds a `'.'`.
pub proof fn lemma_plan_avoids_std(i: ImportModel, stdlib: Seq<Seq<char>>)
    requires
        forall|k: int, c: int|
            0 <= k < stdlib.len() && 0 <= c < stdlib[k].len() ==> #[trigger] stdlib[k][c] != '.',
    ensures
        forall|k: int| 0 <= k < plan_of(i, stdlib).len() ==> !stdlib.contains(#[trigger] plan_of(i, stdlib)[k]),
{
    let plan = plan_of(i, stdlib);
    assert forall|k: int| 0 <= k < plan.len() implies !stdlib.contains(#[trigger] plan[k]) by {
        if stdlib.contains(plan[k]) {
            let w = choose|w: int| 0 <= w < stdlib.len() && stdlib[w] == plan[k];
            match i.1 {
                Some(x) => {
                    if k == 0 {
                        let d = dotted(i.0, x);
                        assert(d[i.0.len() as int] == '.');
                        assert(stdlib[w][i.0.len() as int] == '.');
                    }
                },
                None => {},
            }
        }
    }
}

} // verus!
