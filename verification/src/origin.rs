//! Which origins an exposed value answers.
use vstd::prelude::*;

verus! {

/// An entry in an exposed value's allowed-origin list. `P` is the type of a
/// caller's own test, standing in for a regular expression.
#[derive(Clone)]
pub enum Origin<P> {
    /// Every origin.
    Any,
    /// This origin exactly; `"*"` is every origin.
    Exact(String),
    /// Whatever origin the caller's test accepts.
    Predicate(P),
}

impl<P> Origin<P> {
    pub fn predicate(f: P) -> (r: Origin<P>)
        ensures
            r == Origin::Predicate(f),
    {
        Origin::Predicate(f)
    }
}

/// `entry` lets `origin` in: it is `Any`, it names `origin` or `"*"`, or it
/// is a test that can answer yes.
pub open spec fn admits<P: Fn(&str) -> bool>(entry: Origin<P>, origin: &str) -> bool {
    match entry {
        Origin::Any => true,
        Origin::Exact(s) => s@ == origin@ || s@ == "*"@,
        Origin::Predicate(p) => call_ensures(p, (origin,), true),
    }
}

/// `entry` keeps `origin` out: it names neither `origin` nor `"*"`, or it is
/// a test that can answer no.
pub open spec fn refuses<P: Fn(&str) -> bool>(entry: Origin<P>, origin: &str) -> bool {
    match entry {
        Origin::Any => false,
        Origin::Exact(s) => s@ != origin@ && s@ != "*"@,
        Origin::Predicate(p) => call_ensures(p, (origin,), false),
    }
}

/// An `Any` entry, or one that names `"*"`, lets every origin in and keeps
/// none out.
pub proof fn lemma_wildcard_admits_all<P: Fn(&str) -> bool>(entry: Origin<P>, origin: &str)
    requires
        entry is Any || (entry matches Origin::Exact(s) && s@ == "*"@),
    ensures
        admits(entry, origin),
        !refuses(entry, origin),
{
}

/// Whether some entry of `allowed` lets `origin` in. Entries are tried in
/// order and the first that admits decides; a test entry is asked only when
/// no earlier entry admitted.
pub fn is_allowed_origin<P: Fn(&str) -> bool>(allowed: &[Origin<P>], origin: &str) -> (r: bool)
    requires
        forall|i: int|
            0 <= i < allowed@.len() ==> (#[trigger] allowed@[i] matches Origin::Predicate(p)
                ==> call_requires(p, (origin,))),
    ensures
        r ==> exists|i: int| 0 <= i < allowed@.len() && admits(#[trigger] allowed@[i], origin),
        !r ==> forall|i: int| 0 <= i < allowed@.len() ==> refuses(#[trigger] allowed@[i], origin),
{
    proof {
        reveal_strlit("*");
    }
    let mut i: usize = 0;
    while i < allowed.len()
        invariant
            i <= allowed@.len(),
            forall|j: int|
                0 <= j < allowed@.len() ==> (#[trigger] allowed@[j] matches Origin::Predicate(p)
                    ==> call_requires(p, (origin,))),
            forall|j: int| 0 <= j < i ==> refuses(#[trigger] allowed@[j], origin),
        decreases allowed.len() - i,
    {
        match &allowed[i] {
            Origin::Any => {
                assert(admits(allowed@[i as int], origin));
                return true;
            },
            Origin::Exact(s) => {
                let s = s.as_str();
                if crate::value::same_text(s, origin) || crate::value::same_text(s, "*") {
                    assert(admits(allowed@[i as int], origin));
                    return true;
                }
                assert(refuses(allowed@[i as int], origin));
            },
            Origin::Predicate(f) => {
                let answer = f(origin);
                if answer {
                    assert(admits(allowed@[i as int], origin));
                    return true;
                }
                assert(refuses(allowed@[i as int], origin));
            },
        }
        i = i + 1;
    }
    false
}


} // verus!
