//! Version precedence: a total order over `(major, minor, patch, preRelease)`.
//!
//! Numeric components compare numerically. For equal numeric cores a version
//! with a pre-release precedes one without; two pre-releases compare by their
//! dot-separated identifiers, numeric identifiers numerically and before
//! alphanumeric ones, alphanumeric identifiers by character code, and a
//! shorter identifier list before any extension of it. Prefix and suffix take
//! no part in the order.

use vstd::prelude::*;

use crate::text::{is_digit, check_digit, lex_lt, scan_len, str_eq, str_lt,
    lemma_scan_len_is, lemma_lex_lt_transitive, lemma_lex_lt_connected, lemma_lex_lt_asymmetric};
use crate::version::{Version, VersionModel};

verus! {

/// Is every character of `a` an ASCII digit?
pub open spec fn all_digits(a: Seq<char>) -> bool {
    forall|i: int| 0 <= i < a.len() ==> is_digit(#[trigger] a[i])
}

/// Numeric identifiers in canonical form compare numerically: a shorter one
/// is smaller, equal lengths compare by digit characters.
pub open spec fn num_ident_lt(a: Seq<char>, b: Seq<char>) -> bool {
    a.len() < b.len() || (a.len() == b.len() && lex_lt(a, b))
}

/// One pre-release identifier before another: numeric identifiers compare
/// numerically and precede alphanumeric ones; alphanumeric identifiers
/// compare by character code.
pub open spec fn pre_ident_lt(a: Seq<char>, b: Seq<char>) -> bool {
    if all_digits(a) && all_digits(b) {
        num_ident_lt(a, b)
    } else if all_digits(a) {
        true
    } else if all_digits(b) {
        false
    } else {
        lex_lt(a, b)
    }
}

/// One pre-release before another: identifiers compare left to right, and an
/// exhausted identifier list precedes any continuation.
pub open spec fn pre_lt(p: Seq<char>, q: Seq<char>) -> bool
    decreases p.len(),
{
    let dp = scan_len(p, |c: char| c != '.');
    let dq = scan_len(q, |c: char| c != '.');
    let ip = if 0 <= dp && dp < p.len() { p.take(dp) } else { p };
    let iq = if 0 <= dq && dq < q.len() { q.take(dq) } else { q };
    if ip != iq {
        pre_ident_lt(ip, iq)
    } else if 0 <= dp && dp < p.len() && 0 <= dq && dq < q.len() {
        pre_lt(p.skip(dp + 1), q.skip(dq + 1))
    } else {
        !(dp < p.len()) && dq < q.len()
    }
}

/// Strict precedence over `(major, minor, patch, preRelease)`: numeric parts
/// compare numerically, and for an equal numeric core a pre-release sorts
/// before its absence.
pub open spec fn core_lt(a: VersionModel, b: VersionModel) -> bool {
    if a.major != b.major {
        a.major < b.major
    } else if a.minor != b.minor {
        a.minor < b.minor
    } else if a.patch != b.patch {
        a.patch < b.patch
    } else {
        match (a.pre, b.pre) {
            (Some(p), Some(q)) => pre_lt(p, q),
            (Some(p), None) => true,
            (None, Some(q)) => false,
            (None, None) => false,
        }
    }
}

// ---------------------------------------------------------------------------
// Executable comparison
// ---------------------------------------------------------------------------

/// Is every character of `s` an ASCII digit?
fn str_all_digits(s: &str) -> (r: bool)
    ensures
        r == all_digits(s@),
{
    let len = s.unicode_len();
    let mut i: usize = 0;
    while i < len
        invariant
            i <= len,
            len == s@.len(),
            forall|j: int| 0 <= j < i ==> is_digit(#[trigger] s@[j]),
        decreases len - i,
    {
        if !check_digit(s.get_char(i)) {
            return false;
        }
        i = i + 1;
    }
    true
}

/// Executable [`pre_ident_lt`].
fn pre_ident_lt_str(a: &str, b: &str) -> (r: bool)
    ensures
        r == pre_ident_lt(a@, b@),
{
    let an = str_all_digits(a);
    let bn = str_all_digits(b);
    if an && bn {
        let alen = a.unicode_len();
        let blen = b.unicode_len();
        if alen != blen {
            alen < blen
        } else {
            str_lt(a, b)
        }
    } else if an {
        true
    } else if bn {
        false
    } else {
        str_lt(a, b)
    }
}

/// Executable [`pre_lt`].
fn pre_lt_str(p: &str, q: &str) -> (r: bool)
    ensures
        r == pre_lt(p@, q@),
    decreases p@.len(),
{
    let plen = p.unicode_len();
    let qlen = q.unicode_len();
    let mut dp: usize = 0;
    while dp < plen && p.get_char(dp) != '.'
        invariant
            dp <= plen,
            plen == p@.len(),
            forall|j: int| 0 <= j < dp ==> #[trigger] p@[j] != '.',
        decreases plen - dp,
    {
        dp = dp + 1;
    }
    proof {
        lemma_scan_len_is(p@, |c: char| c != '.', dp as int);
    }
    let mut dq: usize = 0;
    while dq < qlen && q.get_char(dq) != '.'
        invariant
            dq <= qlen,
            qlen == q@.len(),
            forall|j: int| 0 <= j < dq ==> #[trigger] q@[j] != '.',
        decreases qlen - dq,
    {
        dq = dq + 1;
    }
    proof {
        lemma_scan_len_is(q@, |c: char| c != '.', dq as int);
    }
    let phead: &str = if dp < plen { p.substring_char(0, dp) } else { p };
    let qhead: &str = if dq < qlen { q.substring_char(0, dq) } else { q };
    proof {
        if dp < plen {
            assert(phead@ == p@.take(dp as int));
        }
        if dq < qlen {
            assert(qhead@ == q@.take(dq as int));
        }
    }
    if !str_eq(phead, qhead) {
        pre_ident_lt_str(phead, qhead)
    } else if dp < plen && dq < qlen {
        let ptail = p.substring_char(dp + 1, plen);
        let qtail = q.substring_char(dq + 1, qlen);
        proof {
            assert(ptail@ == p@.skip(dp + 1));
            assert(qtail@ == q@.skip(dq + 1));
        }
        pre_lt_str(ptail, qtail)
    } else {
        !(dp < plen) && dq < qlen
    }
}

impl Version {
    /// Does `self` strictly precede `other` in version precedence?
    pub fn precedes(&self, other: &Version) -> (r: bool)
        ensures
            r == core_lt(self@, other@),
    {
        if self.major != other.major {
            return self.major < other.major;
        }
        if self.minor != other.minor {
            return self.minor < other.minor;
        }
        if self.patch != other.patch {
            return self.patch < other.patch;
        }
        match (&self.pre, &other.pre) {
            (Some(p), Some(q)) => pre_lt_str(p.as_str(), q.as_str()),
            (Some(_), None) => true,
            (None, Some(_)) => false,
            (None, None) => false,
        }
    }
}

} // verus!

verus! {

// ---------------------------------------------------------------------------
// The order is a strict total order over (major, minor, patch, preRelease)
// ---------------------------------------------------------------------------

proof fn lemma_pre_ident_lt_trans(a: Seq<char>, b: Seq<char>, c: Seq<char>)
    requires
        pre_ident_lt(a, b),
        pre_ident_lt(b, c),
    ensures
        pre_ident_lt(a, c),
{
    if all_digits(a) && all_digits(c) {
        if all_digits(b) {
            if a.len() == b.len() && b.len() == c.len() {
                lemma_lex_lt_transitive(a, b, c);
            }
        } else {
            assert(!pre_ident_lt(b, c));
        }
    } else if !all_digits(a) {
        assert(!all_digits(b));
        assert(!all_digits(c));
        lemma_lex_lt_transitive(a, b, c);
    }
}

proof fn lemma_pre_ident_lt_asym(a: Seq<char>, b: Seq<char>)
    requires
        pre_ident_lt(a, b),
    ensures
        !pre_ident_lt(b, a),
{
    if all_digits(a) && all_digits(b) {
        if a.len() == b.len() && lex_lt(a, b) {
            lemma_lex_lt_asymmetric(a, b);
        }
    } else if !all_digits(a) && !all_digits(b) {
        lemma_lex_lt_asymmetric(a, b);
    }
}

proof fn lemma_pre_ident_lt_connected(a: Seq<char>, b: Seq<char>)
    requires
        !pre_ident_lt(a, b),
        !pre_ident_lt(b, a),
    ensures
        a == b,
{
    if all_digits(a) && all_digits(b) {
        assert(a.len() == b.len());
        lemma_lex_lt_connected(a, b);
    } else if !all_digits(a) && !all_digits(b) {
        lemma_lex_lt_connected(a, b);
    }
}

proof fn lemma_pre_lt_trans(p: Seq<char>, q: Seq<char>, r: Seq<char>)
    requires
        pre_lt(p, q),
        pre_lt(q, r),
    ensures
        pre_lt(p, r),
    decreases p.len() + q.len() + r.len(),
{
    let dp = scan_len(p, |c: char| c != '.');
    let dq = scan_len(q, |c: char| c != '.');
    let dr = scan_len(r, |c: char| c != '.');
    crate::text::lemma_scan_len(p, |c: char| c != '.');
    crate::text::lemma_scan_len(q, |c: char| c != '.');
    crate::text::lemma_scan_len(r, |c: char| c != '.');
    let ip = if 0 <= dp && dp < p.len() { p.take(dp) } else { p };
    let iq = if 0 <= dq && dq < q.len() { q.take(dq) } else { q };
    let ir = if 0 <= dr && dr < r.len() { r.take(dr) } else { r };
    if ip != iq && iq != ir {
        lemma_pre_ident_lt_trans(ip, iq, ir);
        if ip == ir {
            lemma_pre_ident_lt_asym(ip, iq);
            assert(false);
        }
    } else if ip != iq && iq == ir {
        assert(pre_ident_lt(ip, ir));
    } else if ip == iq && iq != ir {
        assert(pre_ident_lt(ip, ir));
    } else {
        assert(ip == ir);
        if 0 <= dp && dp < p.len() {
            assert(dq < q.len());
            assert(dr < r.len());
            lemma_pre_lt_trans(p.skip(dp + 1), q.skip(dq + 1), r.skip(dr + 1));
        } else {
            assert(dq < q.len());
            assert(dr < r.len());
        }
    }
}

proof fn lemma_pre_lt_asym(p: Seq<char>, q: Seq<char>)
    requires
        pre_lt(p, q),
    ensures
        !pre_lt(q, p),
    decreases p.len(),
{
    let dp = scan_len(p, |c: char| c != '.');
    let dq = scan_len(q, |c: char| c != '.');
    crate::text::lemma_scan_len(p, |c: char| c != '.');
    crate::text::lemma_scan_len(q, |c: char| c != '.');
    let ip = if 0 <= dp && dp < p.len() { p.take(dp) } else { p };
    let iq = if 0 <= dq && dq < q.len() { q.take(dq) } else { q };
    if ip != iq {
        lemma_pre_ident_lt_asym(ip, iq);
    } else if 0 <= dp && dp < p.len() && 0 <= dq && dq < q.len() {
        lemma_pre_lt_asym(p.skip(dp + 1), q.skip(dq + 1));
    }
}

proof fn lemma_pre_lt_connected(p: Seq<char>, q: Seq<char>)
    requires
        !pre_lt(p, q),
        !pre_lt(q, p),
    ensures
        p == q,
    decreases p.len(),
{
    let dp = scan_len(p, |c: char| c != '.');
    let dq = scan_len(q, |c: char| c != '.');
    crate::text::lemma_scan_len(p, |c: char| c != '.');
    crate::text::lemma_scan_len(q, |c: char| c != '.');
    let ip = if 0 <= dp && dp < p.len() { p.take(dp) } else { p };
    let iq = if 0 <= dq && dq < q.len() { q.take(dq) } else { q };
    if ip != iq {
        lemma_pre_ident_lt_connected(ip, iq);
        assert(false);
    } else if dp < p.len() && dq < q.len() {
        lemma_pre_lt_connected(p.skip(dp + 1), q.skip(dq + 1));
        assert(ip.len() == dp && iq.len() == dq);
        assert(p =~= q) by {
            assert(dp == dq);
            assert(p.len() == dp + 1 + p.skip(dp + 1).len());
            assert(q.len() == dq + 1 + q.skip(dq + 1).len());
            assert forall|i: int| 0 <= i < p.len() implies p[i] == q[i] by {
                if i < dp {
                    assert(p[i] == ip[i]);
                    assert(q[i] == iq[i]);
                } else if i == dp {
                    assert(!((p[dp]) != '.'));
                    assert(!((q[dq]) != '.'));
                } else {
                    assert(p[i] == p.skip(dp + 1)[i - dp - 1]);
                    assert(q[i] == q.skip(dq + 1)[i - dq - 1]);
                }
            }
        }
    } else if !(dp < p.len()) && !(dq < q.len()) {
        assert(p == q);
    } else {
        assert(false);
    }
}

/// Precedence never relates a version to itself.
pub proof fn lemma_precedence_irreflexive(a: VersionModel)
    ensures
        !core_lt(a, a),
{
    match a.pre {
        Some(p) => {
            if pre_lt(p, p) {
                lemma_pre_lt_asym(p, p);
            }
        },
        None => {},
    }
}

/// Precedence is transitive.
pub proof fn lemma_precedence_transitive(a: VersionModel, b: VersionModel, c: VersionModel)
    requires
        core_lt(a, b),
        core_lt(b, c),
    ensures
        core_lt(a, c),
{
    if a.major == c.major && a.minor == c.minor && a.patch == c.patch {
        match (a.pre, b.pre, c.pre) {
            (Some(p), Some(pb), Some(pc)) => {
                lemma_pre_lt_trans(p, pb, pc);
            },
            _ => {},
        }
    }
}

/// Two versions neither of which precedes the other agree on everything the
/// order inspects: the numeric core and the pre-release.
pub proof fn lemma_precedence_connected(a: VersionModel, b: VersionModel)
    requires
        !core_lt(a, b),
        !core_lt(b, a),
    ensures
        a.major == b.major,
        a.minor == b.minor,
        a.patch == b.patch,
        a.pre == b.pre,
{
    match (a.pre, b.pre) {
        (Some(p), Some(q)) => {
            lemma_pre_lt_connected(p, q);
        },
        _ => {},
    }
}

} // verus!

verus! {

/// Numeric pre-release identifiers compare by their numeric value, never by
/// plain character order: on canonical digit strings (as the parser admits
/// them) the identifier order is exactly value order.
pub proof fn lemma_numeric_idents_compare_numerically(a: Seq<char>, b: Seq<char>)
    requires
        crate::text::is_canonical_digits(a),
        crate::text::is_canonical_digits(b),
    ensures
        pre_ident_lt(a, b) == (crate::text::digits_val(a) < crate::text::digits_val(b)),
{
    assert(all_digits(a));
    assert(all_digits(b));
    crate::text::lemma_canonical_digits_order(a, b);
}

} // verus!
