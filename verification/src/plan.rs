//! The tag diff engine: partitions a local and a remote tag-name set into
//! push-only, pull-only and shared subsets, and presents their union in
//! lexicographic order.

use vstd::prelude::*;

use crate::text::{lex_lt, str_eq, str_lt, lemma_lex_lt_connected, lemma_lex_lt_transitive,
    has_prefix, has_suffix, str_has_prefix, str_has_suffix};

verus! {

/// The views of a list of tag names.
pub open spec fn names_of(ss: Seq<String>) -> Seq<Seq<char>> {
    ss.map_values(|s: String| s@)
}

/// Is the tag name `t` in the list?
pub open spec fn has_name(tt: Seq<Seq<char>>, t: Seq<char>) -> bool {
    exists|i: int| 0 <= i < tt.len() && tt[i] == t
}

/// The names of `l` that are not in `rm`, in their original order.
pub open spec fn only_in(l: Seq<Seq<char>>, rm: Seq<Seq<char>>) -> Seq<Seq<char>>
    decreases l.len(),
{
    if l.len() == 0 {
        Seq::<Seq<char>>::empty()
    } else if has_name(rm, l.last()) {
        only_in(l.drop_last(), rm)
    } else {
        only_in(l.drop_last(), rm).push(l.last())
    }
}

/// The names of `l` that are also in `rm`, in their original order.
pub open spec fn also_in(l: Seq<Seq<char>>, rm: Seq<Seq<char>>) -> Seq<Seq<char>>
    decreases l.len(),
{
    if l.len() == 0 {
        Seq::<Seq<char>>::empty()
    } else if has_name(rm, l.last()) {
        also_in(l.drop_last(), rm).push(l.last())
    } else {
        also_in(l.drop_last(), rm)
    }
}

/// Strictly ascending in lexicographic order; strictness makes every name
/// unique.
pub open spec fn strictly_sorted(tt: Seq<Seq<char>>) -> bool {
    forall|i: int, j: int| 0 <= i < j < tt.len() ==> lex_lt(#[trigger] tt[i], #[trigger] tt[j])
}

/// Membership in a pushed list.
proof fn lemma_has_name_push(tt: Seq<Seq<char>>, x: Seq<char>, t: Seq<char>)
    ensures
        has_name(tt.push(x), t) == (has_name(tt, t) || x == t),
{
    if has_name(tt, t) {
        let i = choose|i: int| 0 <= i < tt.len() && tt[i] == t;
        assert(tt.push(x)[i] == t);
    }
    if x == t {
        assert(tt.push(x)[tt.len() as int] == t);
    }
    if has_name(tt.push(x), t) {
        let i = choose|i: int| 0 <= i < tt.push(x).len() && tt.push(x)[i] == t;
        if i < tt.len() {
            assert(tt[i] == t);
        }
    }
}

/// What `only_in` holds: exactly the names of `l` that `rm` lacks.
pub proof fn lemma_only_in_membership(l: Seq<Seq<char>>, rm: Seq<Seq<char>>)
    ensures
        forall|t: Seq<char>| #[trigger] has_name(only_in(l, rm), t)
            == (has_name(l, t) && !has_name(rm, t)),
    decreases l.len(),
{
    if l.len() == 0 {
        assert forall|t: Seq<char>| #[trigger] has_name(only_in(l, rm), t)
            == (has_name(l, t) && !has_name(rm, t)) by {
            assert(!has_name(Seq::<Seq<char>>::empty(), t));
            assert(!has_name(l, t));
        }
    } else {
        lemma_only_in_membership(l.drop_last(), rm);
        assert forall|t: Seq<char>| #[trigger] has_name(only_in(l, rm), t)
            == (has_name(l, t) && !has_name(rm, t)) by {
            lemma_has_name_push(only_in(l.drop_last(), rm), l.last(), t);
            lemma_has_name_push(l.drop_last(), l.last(), t);
            assert(l.drop_last().push(l.last()) =~= l);
            assert(has_name(l, t) == (has_name(l.drop_last(), t) || l.last() == t));
        }
    }
}

/// What `also_in` holds: exactly the names shared by `l` and `rm`.
pub proof fn lemma_also_in_membership(l: Seq<Seq<char>>, rm: Seq<Seq<char>>)
    ensures
        forall|t: Seq<char>| #[trigger] has_name(also_in(l, rm), t)
            == (has_name(l, t) && has_name(rm, t)),
    decreases l.len(),
{
    if l.len() == 0 {
        assert forall|t: Seq<char>| #[trigger] has_name(also_in(l, rm), t)
            == (has_name(l, t) && has_name(rm, t)) by {
            assert(!has_name(Seq::<Seq<char>>::empty(), t));
            assert(!has_name(l, t));
        }
    } else {
        lemma_also_in_membership(l.drop_last(), rm);
        assert forall|t: Seq<char>| #[trigger] has_name(also_in(l, rm), t)
            == (has_name(l, t) && has_name(rm, t)) by {
            assert(has_name(also_in(l.drop_last(), rm), t) == (has_name(l.drop_last(), t)
                && has_name(rm, t)));
            if has_name(rm, l.last()) {
                lemma_has_name_push(also_in(l.drop_last(), rm), l.last(), t);
            }
            lemma_has_name_push(l.drop_last(), l.last(), t);
            assert(l.drop_last().push(l.last()) =~= l);
            assert(has_name(l, t) == (has_name(l.drop_last(), t) || l.last() == t));
        }
    }
}

/// The computed partition of a local and a remote tag-name set, with their
/// union in presentation order.
#[derive(Debug)]
pub struct TagSyncStatus {
    pub all_tags: Vec<String>,
    pub to_push: Vec<String>,
    pub to_pull: Vec<String>,
    pub in_sync: Vec<String>,
}

/// Does the list hold this tag name?
pub fn contains_tag(v: &Vec<String>, t: &String) -> (r: bool)
    ensures
        r == has_name(names_of(v@), t@),
{
    let mut i: usize = 0;
    while i < v.len()
        invariant
            i <= v@.len(),
            forall|j: int| 0 <= j < i ==> names_of(v@)[j] != t@,
        decreases v@.len() - i,
    {
        if str_eq(v[i].as_str(), t.as_str()) {
            proof {
                assert(names_of(v@)[i as int] == t@);
            }
            return true;
        }
        proof {
            assert(names_of(v@)[i as int] == v@[i as int]@);
        }
        i = i + 1;
    }
    false
}

/// Keeps the names of `l` that are not in `rm`.
fn keep_only_in(l: &Vec<String>, rm: &Vec<String>) -> (r: Vec<String>)
    ensures
        names_of(r@) == only_in(names_of(l@), names_of(rm@)),
{
    let mut r: Vec<String> = Vec::new();
    let mut i: usize = 0;
    while i < l.len()
        invariant
            i <= l@.len(),
            names_of(r@) == only_in(names_of(l@).take(i as int), names_of(rm@)),
        decreases l@.len() - i,
    {
        let ghost pre = names_of(l@).take(i as int);
        let ghost post = names_of(l@).take(i + 1);
        proof {
            assert(post.drop_last() =~= pre);
            assert(post.last() == l@[i as int]@);
        }
        if !contains_tag(rm, &l[i]) {
            r.push(l[i].clone());
            proof {
                assert(names_of(r@) =~= only_in(post, names_of(rm@)));
            }
        } else {
            proof {
                assert(names_of(r@) =~= only_in(post, names_of(rm@)));
            }
        }
        i = i + 1;
    }
    proof {
        assert(names_of(l@).take(l@.len() as int) =~= names_of(l@));
    }
    r
}

/// Keeps the names of `l` that are also in `rm`.
fn keep_also_in(l: &Vec<String>, rm: &Vec<String>) -> (r: Vec<String>)
    ensures
        names_of(r@) == also_in(names_of(l@), names_of(rm@)),
{
    let mut r: Vec<String> = Vec::new();
    let mut i: usize = 0;
    while i < l.len()
        invariant
            i <= l@.len(),
            names_of(r@) == also_in(names_of(l@).take(i as int), names_of(rm@)),
        decreases l@.len() - i,
    {
        let ghost pre = names_of(l@).take(i as int);
        let ghost post = names_of(l@).take(i + 1);
        proof {
            assert(post.drop_last() =~= pre);
            assert(post.last() == l@[i as int]@);
        }
        if contains_tag(rm, &l[i]) {
            r.push(l[i].clone());
            proof {
                assert(names_of(r@) =~= also_in(post, names_of(rm@)));
            }
        } else {
            proof {
                assert(names_of(r@) =~= also_in(post, names_of(rm@)));
            }
        }
        i = i + 1;
    }
    proof {
        assert(names_of(l@).take(l@.len() as int) =~= names_of(l@));
    }
    r
}

/// Inserts a tag name into a strictly sorted list, keeping it strictly
/// sorted; a name already present is left alone.
fn insert_sorted_unique(acc: &mut Vec<String>, t: &String)
    requires
        strictly_sorted(names_of(old(acc)@)),
    ensures
        strictly_sorted(names_of(final(acc)@)),
        forall|x: Seq<char>| #[trigger] has_name(names_of(final(acc)@), x)
            == (has_name(names_of(old(acc)@), x) || x == t@),
{
    let ghost olds = names_of(acc@);
    let mut k: usize = 0;
    while k < acc.len() && str_lt(acc[k].as_str(), t.as_str())
        invariant
            k <= acc@.len(),
            olds == names_of(acc@),
            strictly_sorted(olds),
            forall|j: int| 0 <= j < k ==> lex_lt(#[trigger] olds[j], t@),
        decreases acc@.len() - k,
    {
        proof {
            assert(olds[k as int] == acc@[k as int]@);
        }
        k = k + 1;
    }
    proof {
        if k < acc@.len() {
            assert(olds[k as int] == acc@[k as int]@);
        }
    }
    if k < acc.len() && str_eq(acc[k].as_str(), t.as_str()) {
        proof {
            assert(olds[k as int] == t@);
            assert forall|x: Seq<char>| #[trigger] has_name(names_of(acc@), x)
                == (has_name(olds, x) || x == t@) by {
                if x == t@ {
                    assert(olds[k as int] == x);
                }
            }
        }
        return ;
    }
    proof {
        // The new name is strictly between its neighbours.
        if k < acc@.len() {
            if !lex_lt(t@, olds[k as int]) {
                lemma_lex_lt_connected(olds[k as int], t@);
                assert(false);
            }
        }
    }
    acc.insert(k, t.clone());
    proof {
        let news = names_of(acc@);
        assert(news =~= olds.insert(k as int, t@));
        assert(news.len() == olds.len() + 1);
        assert forall|i: int| 0 <= i < news.len() implies news[i] == (if i < k {
            olds[i]
        } else if i == k {
            t@
        } else {
            olds[i - 1]
        }) by {}
        assert forall|i: int, j: int| 0 <= i < j < news.len() implies lex_lt(
            #[trigger] news[i],
            #[trigger] news[j],
        ) by {
            if i < k && j == k {
                assert(lex_lt(olds[i], t@));
            } else if i == k && j > k {
                if k < olds.len() {
                    if j - 1 > k {
                        lemma_lex_lt_transitive(t@, olds[k as int], olds[j - 1]);
                    }
                }
            } else if i < k && j > k {
                assert(lex_lt(olds[i], olds[j - 1]));
            } else if i > k && j > k {
                assert(lex_lt(olds[i - 1], olds[j - 1]));
            }
        }
        assert forall|x: Seq<char>| #[trigger] has_name(news, x) == (has_name(olds, x) || x
            == t@) by {
            if has_name(olds, x) {
                let i = choose|i: int| 0 <= i < olds.len() && olds[i] == x;
                if i < k {
                    assert(news[i] == x);
                } else {
                    assert(news[i + 1] == x);
                }
            }
            if x == t@ {
                assert(news[k as int] == x);
            }
            if has_name(news, x) {
                let i = choose|i: int| 0 <= i < news.len() && news[i] == x;
                if i < k {
                    assert(olds[i] == x);
                } else if i > k {
                    assert(olds[i - 1] == x);
                }
            }
        }
    }
}

/// Computes the sync plan for a local and a remote tag-name list:
/// `to_push` is local minus remote, `to_pull` remote minus local, `in_sync`
/// their intersection, and `all_tags` the union, sorted lexicographically
/// with duplicates removed.
pub fn compute_sync_plan(local: &Vec<String>, remote: &Vec<String>) -> (r: TagSyncStatus)
    ensures
        names_of(r.to_push@) == only_in(names_of(local@), names_of(remote@)),
        names_of(r.to_pull@) == only_in(names_of(remote@), names_of(local@)),
        names_of(r.in_sync@) == also_in(names_of(local@), names_of(remote@)),
        strictly_sorted(names_of(r.all_tags@)),
        forall|t: Seq<char>| #[trigger] has_name(names_of(r.all_tags@), t)
            == (has_name(names_of(local@), t) || has_name(names_of(remote@), t)),
{
    let to_push = keep_only_in(local, remote);
    let to_pull = keep_only_in(remote, local);
    let in_sync = keep_also_in(local, remote);
    let mut all_tags: Vec<String> = Vec::new();
    let mut i: usize = 0;
    while i < local.len()
        invariant
            i <= local@.len(),
            strictly_sorted(names_of(all_tags@)),
            forall|t: Seq<char>| #[trigger] has_name(names_of(all_tags@), t)
                == has_name(names_of(local@).take(i as int), t),
        decreases local@.len() - i,
    {
        insert_sorted_unique(&mut all_tags, &local[i]);
        proof {
            let pre = names_of(local@).take(i as int);
            let post = names_of(local@).take(i + 1);
            assert(post.drop_last() =~= pre);
            assert(post.last() == local@[i as int]@);
            assert forall|t: Seq<char>| #[trigger] has_name(names_of(all_tags@), t)
                == has_name(post, t) by {
                lemma_has_name_push(pre, local@[i as int]@, t);
                assert(pre.push(local@[i as int]@) =~= post);
            }
        }
        i = i + 1;
    }
    proof {
        assert(names_of(local@).take(local@.len() as int) =~= names_of(local@));
    }
    let mut j: usize = 0;
    while j < remote.len()
        invariant
            j <= remote@.len(),
            strictly_sorted(names_of(all_tags@)),
            forall|t: Seq<char>| #[trigger] has_name(names_of(all_tags@), t)
                == (has_name(names_of(local@), t) || has_name(
                    names_of(remote@).take(j as int),
                    t,
                )),
        decreases remote@.len() - j,
    {
        insert_sorted_unique(&mut all_tags, &remote[j]);
        proof {
            let pre = names_of(remote@).take(j as int);
            let post = names_of(remote@).take(j + 1);
            assert(post.drop_last() =~= pre);
            assert(post.last() == remote@[j as int]@);
            assert forall|t: Seq<char>| #[trigger] has_name(names_of(all_tags@), t)
                == (has_name(names_of(local@), t) || has_name(post, t)) by {
                lemma_has_name_push(pre, remote@[j as int]@, t);
                assert(pre.push(remote@[j as int]@) =~= post);
            }
        }
        j = j + 1;
    }
    proof {
        assert(names_of(remote@).take(remote@.len() as int) =~= names_of(remote@));
    }
    TagSyncStatus { all_tags, to_push, to_pull, in_sync }
}

impl TagSyncStatus {
    /// A plan with nothing to push and nothing to pull means the two stores
    /// already agree.
    pub fn is_synced(&self) -> (r: bool)
        ensures
            r == (self.to_push@.len() == 0 && self.to_pull@.len() == 0),
    {
        self.to_push.len() == 0 && self.to_pull.len() == 0
    }
}

// ---------------------------------------------------------------------------
// Remote ref listings
// ---------------------------------------------------------------------------

/// The tag name of one remote ref entry: the text after `refs/tags/`, unless
/// the entry is a peeled `^{}` duplicate or no tag ref at all.
pub fn tag_name_of_ref(ref_name: &str) -> (r: Option<String>)
    ensures
        match r {
            Some(t) => has_prefix(ref_name@, "refs/tags/"@) && !has_suffix(ref_name@, "^{}"@)
                && t@ == ref_name@.skip("refs/tags/"@.len() as int),
            None => !has_prefix(ref_name@, "refs/tags/"@) || has_suffix(ref_name@, "^{}"@),
        },
{
    proof {
        reveal_strlit("refs/tags/");
        reveal_strlit("^{}");
    }
    if !str_has_prefix(ref_name, "refs/tags/") {
        return None;
    }
    if str_has_suffix(ref_name, "^{}") {
        return None;
    }
    let len = ref_name.unicode_len();
    Some(ref_name.substring_char(10, len).to_owned())
}

/// The tag names among a remote ref listing, in listing order.
pub open spec fn spec_tag_names_of_refs(refs: Seq<Seq<char>>) -> Seq<Seq<char>>
    decreases refs.len(),
{
    if refs.len() == 0 {
        Seq::<Seq<char>>::empty()
    } else if has_prefix(refs.last(), "refs/tags/"@) && !has_suffix(refs.last(), "^{}"@) {
        spec_tag_names_of_refs(refs.drop_last()).push(
            refs.last().skip("refs/tags/"@.len() as int),
        )
    } else {
        spec_tag_names_of_refs(refs.drop_last())
    }
}

/// Extracts the tag names from a remote ref listing, dropping peeled `^{}`
/// entries and refs that are not tags.
pub fn tag_names_of_refs(refs: &Vec<String>) -> (r: Vec<String>)
    ensures
        names_of(r@) == spec_tag_names_of_refs(names_of(refs@)),
{
    let mut r: Vec<String> = Vec::new();
    let mut i: usize = 0;
    while i < refs.len()
        invariant
            i <= refs@.len(),
            names_of(r@) == spec_tag_names_of_refs(names_of(refs@).take(i as int)),
        decreases refs@.len() - i,
    {
        let ghost pre = names_of(refs@).take(i as int);
        let ghost post = names_of(refs@).take(i + 1);
        proof {
            assert(post.drop_last() =~= pre);
            assert(post.last() == refs@[i as int]@);
        }
        match tag_name_of_ref(refs[i].as_str()) {
            Some(t) => {
                r.push(t);
                proof {
                    assert(names_of(r@) =~= spec_tag_names_of_refs(post));
                }
            },
            None => {
                proof {
                    assert(names_of(r@) =~= spec_tag_names_of_refs(post));
                }
            },
        }
        i = i + 1;
    }
    proof {
        assert(names_of(refs@).take(refs@.len() as int) =~= names_of(refs@));
    }
    r
}

} // verus!
