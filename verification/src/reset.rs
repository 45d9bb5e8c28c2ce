//! The reset operation: a non-interactive hard overwrite of the local tag
//! set so that it mirrors the remote set exactly.
//!
//! The plan deletes every local tag, then recreates one local tag per remote
//! name. It is destructive by design: a local-only tag is lost with no
//! confirmation, and a failure midway leaves the store partially rebuilt —
//! the operation promises no atomicity across the set.

use vstd::prelude::*;

use crate::plan::{has_name, names_of};

verus! {

/// The two halves of a hard reset: what to delete, then what to create.
#[derive(Debug)]
pub struct ResetPlan {
    pub to_delete: Vec<String>,
    pub to_create: Vec<String>,
}

/// The set of names in a list.
pub open spec fn name_set(tt: Seq<Seq<char>>) -> Set<Seq<char>> {
    Set::new(|t: Seq<char>| has_name(tt, t))
}

/// What a store holds after the deletions and creations of a plan are
/// applied to it, in that order.
pub open spec fn apply_reset(
    initial: Set<Seq<char>>,
    deletes: Seq<Seq<char>>,
    creates: Seq<Seq<char>>,
) -> Set<Seq<char>> {
    initial.difference(name_set(deletes)).union(name_set(creates))
}

/// Copies a tag-name list.
fn clone_tags(v: &Vec<String>) -> (r: Vec<String>)
    ensures
        names_of(r@) == names_of(v@),
{
    let mut r: Vec<String> = Vec::new();
    let mut i: usize = 0;
    while i < v.len()
        invariant
            i <= v@.len(),
            r@.len() == i,
            forall|j: int| 0 <= j < i ==> #[trigger] r@[j]@ == v@[j]@,
        decreases v@.len() - i,
    {
        r.push(v[i].clone());
        i = i + 1;
    }
    proof {
        assert forall|j: int| 0 <= j < v@.len() implies names_of(r@)[j] == names_of(v@)[j] by {
            assert(names_of(r@)[j] == r@[j]@);
            assert(names_of(v@)[j] == v@[j]@);
        }
        assert(names_of(r@) =~= names_of(v@));
    }
    r
}

/// Plans a hard reset: delete every local tag, recreate every remote one.
pub fn plan_reset(local: &Vec<String>, remote: &Vec<String>) -> (p: ResetPlan)
    ensures
        names_of(p.to_delete@) == names_of(local@),
        names_of(p.to_create@) == names_of(remote@),
{
    ResetPlan { to_delete: clone_tags(local), to_create: clone_tags(remote) }
}

/// The reset ends with the local store holding exactly the remote names:
/// applying a plan that deletes all of `local` and creates all of `remote`
/// to a store holding the `local` names leaves precisely the `remote` names.
pub proof fn lemma_reset_mirrors_remote(local: Seq<Seq<char>>, remote: Seq<Seq<char>>)
    ensures
        apply_reset(name_set(local), local, remote) == name_set(remote),
{
    assert(apply_reset(name_set(local), local, remote) =~= name_set(remote));
}

} // verus!
