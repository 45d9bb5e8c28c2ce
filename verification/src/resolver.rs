//! The release resolver: the highest version among a list of tag names.
//!
//! Every name is parsed; the ones that fail to parse are taken for unrelated
//! annotations and silently ignored. When nothing parses, the empty list
//! included, the resolver answers the sentinel `0.1.0`, the version that
//! means "no release has ever been made".
//!
//! Tag sets that mix prefixes still order by the numeric core alone. The
//! policy for the ambiguity that leaves: of several names with the same
//! highest core, the earliest in the list wins, and the prefix reported for
//! persisting is that of the winner.

use vstd::prelude::*;

use crate::order::{core_lt, lemma_precedence_connected, lemma_precedence_irreflexive,
    lemma_precedence_transitive};
use crate::version::{spec_parse, Version, VersionModel};

verus! {

/// The sentinel: bare `0.1.0`, no prefix, no suffix.
pub open spec fn sentinel_model() -> VersionModel {
    VersionModel {
        prefix: Seq::<char>::empty(),
        major: 0,
        minor: 1,
        patch: 0,
        pre: None,
        build: None,
        suffix: Seq::<char>::empty(),
    }
}

/// Does at least one name in the list parse as a version?
pub open spec fn any_parses(names: Seq<String>) -> bool {
    exists|i: int| 0 <= i < names.len() && spec_parse(names[i]@) is Some
}

/// The result of a resolution: `r` is the version of the name at `i`, no
/// parsed name anywhere is strictly higher, and every parsed name before `i`
/// is strictly lower — so `i` is the first position where the maximum occurs.
pub open spec fn resolved_at(names: Seq<String>, r: VersionModel, i: int) -> bool {
    &&& 0 <= i < names.len()
    &&& spec_parse(names[i]@) == Some(r)
    &&& forall|j: int| 0 <= j < names.len() ==> (#[trigger] spec_parse(names[j]@) matches Some(w)
        ==> !core_lt(r, w))
    &&& forall|j: int| 0 <= j < i ==> (#[trigger] spec_parse(names[j]@) matches Some(w)
        ==> core_lt(w, r))
}

/// Builds the sentinel version.
pub fn sentinel_version() -> (v: Version)
    ensures
        v@ == sentinel_model(),
{
    Version::new(0, 1, 0)
}

/// Finds the highest version among the given tag names: unparsable names are
/// ignored; ties on the core keep the earliest name; when nothing parses the
/// sentinel `0.1.0` is returned.
pub fn resolve_latest(names: &Vec<String>) -> (r: Version)
    ensures
        !any_parses(names@) ==> r@ == sentinel_model(),
        any_parses(names@) ==> exists|i: int| resolved_at(names@, r@, i),
{
    let mut best: Option<Version> = None;
    let ghost mut best_idx: int = 0;
    let mut k: usize = 0;
    while k < names.len()
        invariant
            k <= names@.len(),
            match best {
                Some(b) => {
                    &&& 0 <= best_idx < k
                    &&& spec_parse(names@[best_idx]@) == Some(b@)
                    &&& forall|j: int| 0 <= j < k ==> (#[trigger] spec_parse(names@[j]@)
                        matches Some(w) ==> !core_lt(b@, w))
                    &&& forall|j: int| 0 <= j < best_idx ==> (#[trigger] spec_parse(names@[j]@)
                        matches Some(w) ==> core_lt(w, b@))
                },
                None => forall|j: int| 0 <= j < k ==> spec_parse(#[trigger] names@[j]@) is None,
            },
        decreases names@.len() - k,
    {
        let parsed = Version::parse(names[k].as_str());
        match parsed {
            Ok(v) => {
                let take_it: bool = match &best {
                    None => true,
                    Some(b) => b.precedes(&v),
                };
                if take_it {
                    proof {
                        match best {
                            Some(b) => {
                                assert forall|j: int| 0 <= j < k + 1
                                    implies (#[trigger] spec_parse(names@[j]@) matches Some(w)
                                    ==> !core_lt(v@, w)) by {
                                    if j < k {
                                        match spec_parse(names@[j]@) {
                                            Some(w) => {
                                                if core_lt(v@, w) {
                                                    lemma_precedence_transitive(b@, v@, w);
                                                }
                                            },
                                            None => {},
                                        }
                                    } else {
                                        lemma_precedence_irreflexive(v@);
                                    }
                                }
                                assert forall|j: int| 0 <= j < k
                                    implies (#[trigger] spec_parse(names@[j]@) matches Some(w)
                                    ==> core_lt(w, v@)) by {
                                    match spec_parse(names@[j]@) {
                                        Some(w) => {
                                            if !core_lt(w, v@) {
                                                if core_lt(v@, w) {
                                                    lemma_precedence_transitive(b@, v@, w);
                                                } else {
                                                    lemma_precedence_connected(w, v@);
                                                }
                                            }
                                        },
                                        None => {},
                                    }
                                }
                            },
                            None => {
                                lemma_precedence_irreflexive(v@);
                            },
                        }
                        best_idx = k as int;
                    }
                    best = Some(v);
                }
            },
            Err(_) => {},
        }
        k = k + 1;
    }
    match best {
        Some(b) => {
            proof {
                assert(resolved_at(names@, b@, best_idx));
            }
            b
        },
        None => sentinel_version(),
    }
}

/// Reports the tag prefix the caller should persist: the resolved prefix,
/// exactly when it is nonempty and no prefix is configured yet. Persisting it
/// is the caller's explicit decision.
pub fn inferred_prefix(resolved: &Version, configured: &Option<String>) -> (r: Option<String>)
    ensures
        match r {
            Some(p) => p@ == resolved@.prefix && resolved@.prefix.len() > 0 && configured is None,
            None => resolved@.prefix.len() == 0 || configured is Some,
        },
{
    match configured {
        Some(_) => None,
        None => {
            if resolved.prefix.as_str().unicode_len() == 0 {
                None
            } else {
                Some(resolved.prefix.clone())
            }
        },
    }
}

} // verus!
