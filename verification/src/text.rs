//! Character classes, maximal-run scans, decimal digit strings and
//! lexicographic ordering: the string groundwork under the version grammar and
//! the tag-set engine.

use vstd::prelude::*;

verus! {

// ---------------------------------------------------------------------------
// Character classes
// ---------------------------------------------------------------------------

/// An ASCII decimal digit.
pub open spec fn is_digit(c: char) -> bool {
    '0' <= c && c <= '9'
}

/// A character allowed inside a version-core span: a digit, `.`, `-` or `+`.
pub open spec fn is_core_char(c: char) -> bool {
    is_digit(c) || c == '.' || c == '-' || c == '+'
}

/// A character allowed inside a pre-release or build identifier:
/// an ASCII letter, a digit, or `-`.
pub open spec fn is_ident_char(c: char) -> bool {
    is_digit(c) || ('a' <= c && c <= 'z') || ('A' <= c && c <= 'Z') || c == '-'
}

/// Executable check for [`is_digit`].
pub fn check_digit(c: char) -> (r: bool)
    ensures
        r == is_digit(c),
{
    '0' <= c && c <= '9'
}

/// Executable check for [`is_core_char`].
pub fn check_core_char(c: char) -> (r: bool)
    ensures
        r == is_core_char(c),
{
    check_digit(c) || c == '.' || c == '-' || c == '+'
}

/// Executable check for [`is_ident_char`].
pub fn check_ident_char(c: char) -> (r: bool)
    ensures
        r == is_ident_char(c),
{
    check_digit(c) || ('a' <= c && c <= 'z') || ('A' <= c && c <= 'Z') || c == '-'
}

// ---------------------------------------------------------------------------
// Decimal digits
// ---------------------------------------------------------------------------

/// The numeric value of a digit character.
pub open spec fn digit_val(c: char) -> nat
    recommends
        is_digit(c),
{
    if c == '0' { 0 } else if c == '1' { 1 } else if c == '2' { 2 } else if c == '3' { 3 }
    else if c == '4' { 4 } else if c == '5' { 5 } else if c == '6' { 6 } else if c == '7' { 7 }
    else if c == '8' { 8 } else { 9 }
}

/// The digit character for a value below ten.
pub open spec fn digit_char(d: nat) -> char
    recommends
        d < 10,
{
    if d == 0 { '0' } else if d == 1 { '1' } else if d == 2 { '2' } else if d == 3 { '3' }
    else if d == 4 { '4' } else if d == 5 { '5' } else if d == 6 { '6' } else if d == 7 { '7' }
    else if d == 8 { '8' } else { '9' }
}

/// The value of a digit string read most-significant first.
pub open spec fn digits_val(s: Seq<char>) -> nat
    decreases s.len(),
{
    if s.len() == 0 {
        0
    } else {
        digits_val(s.drop_last()) * 10 + digit_val(s.last())
    }
}

/// The canonical decimal rendering of a number: no leading zero except for
/// the single digit `0` itself.
pub open spec fn fmt_nat(n: nat) -> Seq<char>
    decreases n,
{
    if n < 10 {
        seq![digit_char(n)]
    } else {
        fmt_nat(n / 10).push(digit_char((n % 10) as nat))
    }
}

/// A well-formed numeric component: at least one digit, digits only, and no
/// leading zero unless the component is exactly `0`.
pub open spec fn is_canonical_digits(s: Seq<char>) -> bool {
    &&& s.len() >= 1
    &&& forall|i: int| 0 <= i < s.len() ==> is_digit(#[trigger] s[i])
    &&& (s.len() > 1 ==> s[0] != '0')
}

/// A nonempty digit string that does not start with `0` has a positive value.
pub proof fn lemma_digits_val_pos(s: Seq<char>)
    requires
        s.len() >= 1,
        forall|i: int| 0 <= i < s.len() ==> is_digit(#[trigger] s[i]),
        s[0] != '0',
    ensures
        digits_val(s) >= 1,
    decreases s.len(),
{
    if s.len() > 1 {
        lemma_digits_val_pos(s.drop_last());
    }
}

/// Digit strings in canonical form are uniquely readable: rendering the value
/// gives the original string back.
pub proof fn lemma_fmt_nat_digits_val(s: Seq<char>)
    requires
        is_canonical_digits(s),
    ensures
        fmt_nat(digits_val(s)) == s,
    decreases s.len(),
{
    if s.len() == 1 {
        assert(s.drop_last() =~= Seq::<char>::empty());
        assert(digits_val(Seq::<char>::empty()) == 0);
        assert(digits_val(s) == 0 * 10 + digit_val(s.last()));
        assert(digit_char(digit_val(s[0])) == s[0]);
        assert(fmt_nat(digits_val(s)) =~= s);
    } else {
        let s0 = s.drop_last();
        let d = digit_val(s.last());
        assert(s0[0] == s[0]);
        lemma_fmt_nat_digits_val(s0);
        lemma_digits_val_pos(s0);
        let v0 = digits_val(s0);
        let v = digits_val(s);
        assert(v == v0 * 10 + d);
        assert(v >= 10);
        vstd::arithmetic::div_mod::lemma_fundamental_div_mod_converse(
            v as int, 10, v0 as int, d as int);
        assert(v / 10 == v0 && v % 10 == d);
        assert(digit_char(digit_val(s.last())) == s.last());
        assert(fmt_nat(v) =~= s0.push(s.last()));
        assert(s0.push(s.last()) =~= s);
    }
}

/// Extending a digit string on the right never lowers its value.
pub proof fn lemma_digits_val_take_monotone(s: Seq<char>, i: int, j: int)
    requires
        0 <= i <= j <= s.len(),
    ensures
        digits_val(s.take(i)) <= digits_val(s.take(j)),
    decreases j - i,
{
    if i < j {
        lemma_digits_val_take_monotone(s, i, j - 1);
        assert(s.take(j).drop_last() =~= s.take(j - 1));
        assert(digits_val(s.take(j)) == digits_val(s.take(j - 1)) * 10 + digit_val(s.take(j).last()));
    }
}

// ---------------------------------------------------------------------------
// Maximal-run scans
// ---------------------------------------------------------------------------

/// Length of the maximal prefix of `s` whose characters all satisfy `p`.
pub open spec fn scan_len(s: Seq<char>, p: spec_fn(char) -> bool) -> int
    decreases s.len(),
{
    if s.len() == 0 {
        0
    } else if p(s[0]) {
        1 + scan_len(s.drop_first(), p)
    } else {
        0
    }
}

pub proof fn lemma_scan_len(s: Seq<char>, p: spec_fn(char) -> bool)
    ensures
        0 <= scan_len(s, p) <= s.len(),
        forall|i: int| 0 <= i < scan_len(s, p) ==> p(#[trigger] s[i]),
        scan_len(s, p) < s.len() ==> !p(s[scan_len(s, p)]),
    decreases s.len(),
{
    if s.len() != 0 && p(s[0]) {
        lemma_scan_len(s.drop_first(), p);
        assert forall|i: int| 0 <= i < scan_len(s, p) implies p(#[trigger] s[i]) by {
            if i > 0 {
                assert(s.drop_first()[i - 1] == s[i]);
            }
        }
        if scan_len(s, p) < s.len() {
            assert(s.drop_first()[scan_len(s, p) - 1] == s[scan_len(s, p)]);
        }
    }
}

/// The characterization is exact: any cut with the same shape is the scan.
pub proof fn lemma_scan_len_is(s: Seq<char>, p: spec_fn(char) -> bool, n: int)
    requires
        0 <= n <= s.len(),
        forall|i: int| 0 <= i < n ==> p(#[trigger] s[i]),
        n < s.len() ==> !p(s[n]),
    ensures
        scan_len(s, p) == n,
    decreases s.len(),
{
    if s.len() != 0 && n > 0 {
        assert(p(s[0]));
        assert forall|i: int| 0 <= i < n - 1 implies p(#[trigger] s.drop_first()[i]) by {
            assert(s.drop_first()[i] == s[i + 1]);
        }
        if n - 1 < s.drop_first().len() {
            assert(s.drop_first()[n - 1] == s[n]);
        }
        lemma_scan_len_is(s.drop_first(), p, n - 1);
    }
}

/// Length of the maximal suffix of `s` whose characters all satisfy `p`.
pub open spec fn scan_back_len(s: Seq<char>, p: spec_fn(char) -> bool) -> int
    decreases s.len(),
{
    if s.len() == 0 {
        0
    } else if p(s.last()) {
        1 + scan_back_len(s.drop_last(), p)
    } else {
        0
    }
}

pub proof fn lemma_scan_back_len(s: Seq<char>, p: spec_fn(char) -> bool)
    ensures
        0 <= scan_back_len(s, p) <= s.len(),
        forall|i: int| s.len() - scan_back_len(s, p) <= i < s.len() ==> p(#[trigger] s[i]),
        scan_back_len(s, p) < s.len() ==> !p(s[s.len() - scan_back_len(s, p) - 1]),
    decreases s.len(),
{
    if s.len() != 0 && p(s.last()) {
        lemma_scan_back_len(s.drop_last(), p);
        let n = scan_back_len(s, p);
        assert(n == 1 + scan_back_len(s.drop_last(), p));
        assert forall|i: int| s.len() - n <= i < s.len() implies p(#[trigger] s[i]) by {
            if i < s.len() - 1 {
                assert(s.drop_last()[i] == s[i]);
            }
        }
        if n < s.len() {
            assert(s.drop_last()[s.len() - n - 1] == s[s.len() - n - 1]);
        }
    }
}

pub proof fn lemma_scan_back_len_is(s: Seq<char>, p: spec_fn(char) -> bool, n: int)
    requires
        0 <= n <= s.len(),
        forall|i: int| s.len() - n <= i < s.len() ==> p(#[trigger] s[i]),
        n < s.len() ==> !p(s[s.len() - n - 1]),
    ensures
        scan_back_len(s, p) == n,
    decreases s.len(),
{
    if s.len() != 0 && n > 0 {
        assert(p(s.last()));
        assert forall|i: int| s.drop_last().len() - (n - 1) <= i < s.drop_last().len()
            implies p(#[trigger] s.drop_last()[i]) by {
            assert(s.drop_last()[i] == s[i]);
        }
        if n - 1 < s.drop_last().len() {
            assert(s.drop_last()[s.len() - n - 1] == s[s.len() - n - 1]);
        }
        lemma_scan_back_len_is(s.drop_last(), p, n - 1);
    }
}

// ---------------------------------------------------------------------------
// Prefixes and suffixes
// ---------------------------------------------------------------------------

pub open spec fn has_prefix(s: Seq<char>, p: Seq<char>) -> bool {
    p.len() <= s.len() && s.take(p.len() as int) == p
}

pub open spec fn has_suffix(s: Seq<char>, x: Seq<char>) -> bool {
    x.len() <= s.len() && s.skip(s.len() - x.len()) == x
}

// ---------------------------------------------------------------------------
// Lexicographic order on character sequences
// ---------------------------------------------------------------------------

/// Strict lexicographic order by character code, a proper prefix ordering
/// before any of its extensions. On UTF-8 encoded text this agrees with
/// byte-wise comparison of the encoded strings.
pub open spec fn lex_lt(a: Seq<char>, b: Seq<char>) -> bool
    decreases a.len(),
{
    if b.len() == 0 {
        false
    } else if a.len() == 0 {
        true
    } else if a[0] != b[0] {
        (a[0] as int) < (b[0] as int)
    } else {
        lex_lt(a.drop_first(), b.drop_first())
    }
}

pub proof fn lemma_lex_lt_connected(a: Seq<char>, b: Seq<char>)
    requires
        !lex_lt(a, b),
        !lex_lt(b, a),
    ensures
        a == b,
    decreases a.len(),
{
    if a.len() == 0 || b.len() == 0 {
        assert(a =~= b);
    } else {
        assert(a[0] == b[0]) by {
            if a[0] != b[0] {
                assert(a[0] as int != b[0] as int);
            }
        }
        lemma_lex_lt_connected(a.drop_first(), b.drop_first());
        assert(a =~= b) by {
            assert(forall|i: int| 1 <= i < a.len() ==> a[i] == a.drop_first()[i - 1]);
            assert(forall|i: int| 1 <= i < b.len() ==> b[i] == b.drop_first()[i - 1]);
        }
    }
}

pub proof fn lemma_lex_lt_asymmetric(a: Seq<char>, b: Seq<char>)
    requires
        lex_lt(a, b),
    ensures
        !lex_lt(b, a),
    decreases a.len(),
{
    if a.len() > 0 && b.len() > 0 && a[0] == b[0] {
        lemma_lex_lt_asymmetric(a.drop_first(), b.drop_first());
    }
}

pub proof fn lemma_lex_lt_transitive(a: Seq<char>, b: Seq<char>, c: Seq<char>)
    requires
        lex_lt(a, b),
        lex_lt(b, c),
    ensures
        lex_lt(a, c),
    decreases a.len() + b.len() + c.len(),
{
    if b.len() == 0 || c.len() == 0 {
        // lex_lt(b, c) forces c nonempty; lex_lt(a, b) forces b nonempty.
    } else if a.len() == 0 {
        // Empty is below any nonempty sequence.
    } else {
        if a[0] == b[0] && b[0] == c[0] {
            lemma_lex_lt_transitive(a.drop_first(), b.drop_first(), c.drop_first());
        }
    }
}

/// Equal prefixes cancel on both sides of the order.
pub proof fn lemma_lex_lt_skip(a: Seq<char>, b: Seq<char>, i: int)
    requires
        0 <= i <= a.len(),
        i <= b.len(),
        forall|j: int| 0 <= j < i ==> a[j] == b[j],
    ensures
        lex_lt(a, b) == lex_lt(a.skip(i), b.skip(i)),
    decreases i,
{
    if i == 0 {
        assert(a.skip(0) =~= a);
        assert(b.skip(0) =~= b);
    } else {
        assert(a[0] == b[0]);
        assert(a.len() > 0 && b.len() > 0);
        assert forall|j: int| 0 <= j < i - 1 implies a.drop_first()[j] == b.drop_first()[j] by {
            assert(a.drop_first()[j] == a[j + 1]);
            assert(b.drop_first()[j] == b[j + 1]);
        }
        lemma_lex_lt_skip(a.drop_first(), b.drop_first(), i - 1);
        assert(a.drop_first().skip(i - 1) =~= a.skip(i));
        assert(b.drop_first().skip(i - 1) =~= b.skip(i));
    }
}

} // verus!


verus! {

// ---------------------------------------------------------------------------
// Executable digit helpers
// ---------------------------------------------------------------------------

/// The numeric value of a digit character, as a machine integer.
pub fn digit_value(c: char) -> (d: u64)
    requires
        is_digit(c),
    ensures
        d == digit_val(c),
        d < 10,
{
    if c == '0' { 0 } else if c == '1' { 1 } else if c == '2' { 2 } else if c == '3' { 3 }
    else if c == '4' { 4 } else if c == '5' { 5 } else if c == '6' { 6 } else if c == '7' { 7 }
    else if c == '8' { 8 } else { 9 }
}

/// A one-character string slice for a digit value below ten.
pub fn digit_to_str(d: u64) -> (s: &'static str)
    requires
        d < 10,
    ensures
        s@ == seq![digit_char(d as nat)],
{
    proof {
        reveal_strlit("0");
        reveal_strlit("1");
        reveal_strlit("2");
        reveal_strlit("3");
        reveal_strlit("4");
        reveal_strlit("5");
        reveal_strlit("6");
        reveal_strlit("7");
        reveal_strlit("8");
        reveal_strlit("9");
    }
    let s = if d == 0 { "0" } else if d == 1 { "1" } else if d == 2 { "2" } else if d == 3 { "3" }
    else if d == 4 { "4" } else if d == 5 { "5" } else if d == 6 { "6" } else if d == 7 { "7" }
    else if d == 8 { "8" } else { "9" };
    proof {
        assert(s@ =~= seq![digit_char(d as nat)]);
    }
    s
}

/// Renders a number in canonical decimal form.
pub fn u64_to_dec_string(n: u64) -> (s: String)
    ensures
        s@ == fmt_nat(n as nat),
    decreases n,
{
    if n < 10 {
        let s = digit_to_str(n).to_owned();
        proof {
            assert(s@ =~= fmt_nat(n as nat));
        }
        s
    } else {
        let mut s = u64_to_dec_string(n / 10);
        let d = n % 10;
        s.append(digit_to_str(d));
        proof {
            assert((n / 10) as nat == (n as nat) / 10);
            assert(d as nat == (n as nat) % 10);
            assert(s@ =~= fmt_nat(n as nat));
        }
        s
    }
}

// ---------------------------------------------------------------------------
// Executable string comparisons
// ---------------------------------------------------------------------------

/// Character-wise string equality.
pub fn str_eq(a: &str, b: &str) -> (r: bool)
    ensures
        r == (a@ == b@),
{
    let alen = a.unicode_len();
    let blen = b.unicode_len();
    if alen != blen {
        return false;
    }
    let mut i: usize = 0;
    while i < alen
        invariant
            i <= alen,
            alen == a@.len(),
            alen == b@.len(),
            forall|j: int| 0 <= j < i ==> a@[j] == b@[j],
        decreases alen - i,
    {
        if a.get_char(i) != b.get_char(i) {
            return false;
        }
        i = i + 1;
    }
    proof {
        assert(a@ =~= b@);
    }
    true
}

/// Strict lexicographic comparison, agreeing with [`lex_lt`].
pub fn str_lt(a: &str, b: &str) -> (r: bool)
    ensures
        r == lex_lt(a@, b@),
{
    let alen = a.unicode_len();
    let blen = b.unicode_len();
    let mut i: usize = 0;
    while i < alen && i < blen
        invariant
            i <= alen,
            i <= blen,
            alen == a@.len(),
            blen == b@.len(),
            forall|j: int| 0 <= j < i ==> a@[j] == b@[j],
        decreases alen - i,
    {
        let ca = a.get_char(i);
        let cb = b.get_char(i);
        if ca != cb {
            proof {
                lemma_lex_lt_skip(a@, b@, i as int);
                assert(a@.skip(i as int)[0] == ca);
                assert(b@.skip(i as int)[0] == cb);
                assert(ca as int == ca as u32 as int);
                assert(cb as int == cb as u32 as int);
            }
            return (ca as u32) < (cb as u32);
        }
        i = i + 1;
    }
    proof {
        lemma_lex_lt_skip(a@, b@, i as int);
    }
    alen < blen
}

/// Does `s` start with `p`?
pub fn str_has_prefix(s: &str, p: &str) -> (r: bool)
    ensures
        r == has_prefix(s@, p@),
{
    let slen = s.unicode_len();
    let plen = p.unicode_len();
    if plen > slen {
        return false;
    }
    let mut i: usize = 0;
    while i < plen
        invariant
            i <= plen,
            plen <= slen,
            slen == s@.len(),
            plen == p@.len(),
            forall|j: int| 0 <= j < i ==> s@[j] == p@[j],
        decreases plen - i,
    {
        if s.get_char(i) != p.get_char(i) {
            proof {
                assert(s@.take(plen as int)[i as int] == s@[i as int]);
            }
            return false;
        }
        i = i + 1;
    }
    proof {
        assert(s@.take(plen as int) =~= p@);
    }
    true
}

/// Does `s` end with `x`?
pub fn str_has_suffix(s: &str, x: &str) -> (r: bool)
    ensures
        r == has_suffix(s@, x@),
{
    let slen = s.unicode_len();
    let xlen = x.unicode_len();
    if xlen > slen {
        return false;
    }
    let off = slen - xlen;
    let mut i: usize = 0;
    while i < xlen
        invariant
            i <= xlen,
            off == slen - xlen,
            xlen <= slen,
            slen == s@.len(),
            xlen == x@.len(),
            forall|j: int| 0 <= j < i ==> s@[off + j] == x@[j],
        decreases xlen - i,
    {
        if s.get_char(off + i) != x.get_char(i) {
            proof {
                assert(s@.skip(off as int)[i as int] == s@[off + i as int]);
            }
            return false;
        }
        i = i + 1;
    }
    proof {
        assert(s@.skip(off as int) =~= x@);
    }
    true
}

// ---------------------------------------------------------------------------
// Whitespace trimming
// ---------------------------------------------------------------------------

/// An ASCII whitespace character.
pub open spec fn is_ws(c: char) -> bool {
    c == ' ' || c == '\t' || c == '\r' || c == '\n'
}

/// Executable check for [`is_ws`].
pub fn check_ws(c: char) -> (r: bool)
    ensures
        r == is_ws(c),
{
    c == ' ' || c == '\t' || c == '\r' || c == '\n'
}

/// `s` with maximal runs of ASCII whitespace removed from both ends.
pub open spec fn trim_ws(s: Seq<char>) -> Seq<char> {
    let t = s.skip(scan_len(s, |c: char| is_ws(c)));
    t.take(t.len() - scan_back_len(t, |c: char| is_ws(c)))
}

/// Trims ASCII whitespace from both ends of a string.
pub fn trim_ws_str(s: &str) -> (r: String)
    ensures
        r@ == trim_ws(s@),
{
    let len = s.unicode_len();
    let mut start: usize = 0;
    while start < len && check_ws(s.get_char(start))
        invariant
            start <= len,
            len == s@.len(),
            forall|j: int| 0 <= j < start ==> is_ws(#[trigger] s@[j]),
        decreases len - start,
    {
        start = start + 1;
    }
    proof {
        lemma_scan_len_is(s@, |c: char| is_ws(c), start as int);
    }
    let mut end: usize = len;
    while end > start && check_ws(s.get_char(end - 1))
        invariant
            start <= end <= len,
            len == s@.len(),
            forall|j: int| end <= j < len ==> is_ws(#[trigger] s@[j]),
        decreases end,
    {
        end = end - 1;
    }
    let ghost t = s@.skip(start as int);
    proof {
        assert forall|i: int| t.len() - (len - end) <= i < t.len()
            implies is_ws(#[trigger] t[i]) by {
            assert(t[i] == s@[start + i]);
        }
        if end > start {
            assert(t[t.len() - (len - end) - 1] == s@[end - 1]);
        }
        lemma_scan_back_len_is(t, |c: char| is_ws(c), len as int - end as int);
        assert(t.take(end as int - start as int) =~= s@.subrange(start as int, end as int));
    }
    s.substring_char(start, end).to_owned()
}

} // verus!

verus! {

// ---------------------------------------------------------------------------
// Digit strings denote numbers: order facts
// ---------------------------------------------------------------------------

/// Ten to the `n`.
pub open spec fn pow10(n: nat) -> nat
    decreases n,
{
    if n == 0 {
        1
    } else {
        10 * pow10((n - 1) as nat)
    }
}

/// A digit's value is its distance from `0` in the character code.
proof fn lemma_digit_val_code(c: char)
    requires
        is_digit(c),
    ensures
        digit_val(c) == c as int - '0' as int,
{
}

proof fn lemma_pow10_pos(n: nat)
    ensures
        pow10(n) >= 1,
    decreases n,
{
    if n > 0 {
        lemma_pow10_pos((n - 1) as nat);
    }
}

proof fn lemma_pow10_monotone(m: nat, n: nat)
    requires
        m <= n,
    ensures
        pow10(m) <= pow10(n),
    decreases n,
{
    if m < n {
        lemma_pow10_monotone(m, (n - 1) as nat);
        lemma_pow10_pos((n - 1) as nat);
    }
}

/// An all-digit string of length `n` reads below ten to the `n`.
proof fn lemma_digits_val_upper(s: Seq<char>)
    requires
        forall|i: int| 0 <= i < s.len() ==> is_digit(#[trigger] s[i]),
    ensures
        digits_val(s) < pow10(s.len()),
    decreases s.len(),
{
    if s.len() == 0 {
    } else {
        lemma_digits_val_upper(s.drop_last());
        lemma_pow10_pos((s.len() - 1) as nat);
        assert(digits_val(s.drop_last()) <= pow10((s.len() - 1) as nat) - 1);
        assert(digit_val(s.last()) <= 9);
    }
}

/// An all-digit string without a leading zero reads at least ten to one
/// less than its length.
proof fn lemma_digits_val_lower(s: Seq<char>)
    requires
        s.len() >= 1,
        forall|i: int| 0 <= i < s.len() ==> is_digit(#[trigger] s[i]),
        s[0] != '0',
    ensures
        digits_val(s) >= pow10((s.len() - 1) as nat),
    decreases s.len(),
{
    if s.len() == 1 {
        lemma_digit_val_code(s[0]);
    } else {
        lemma_digits_val_lower(s.drop_last());
    }
}

/// Reading a digit string from the front: the first digit carries the place
/// value of the rest.
proof fn lemma_digits_val_front(s: Seq<char>)
    requires
        s.len() >= 1,
        forall|i: int| 0 <= i < s.len() ==> is_digit(#[trigger] s[i]),
    ensures
        digits_val(s) == digit_val(s[0]) * pow10((s.len() - 1) as nat) + digits_val(
            s.drop_first(),
        ),
    decreases s.len(),
{
    if s.len() == 1 {
        assert(s.drop_first() =~= Seq::<char>::empty());
        assert(s.drop_last() =~= Seq::<char>::empty());
    } else {
        let t = s.drop_last();
        lemma_digits_val_front(t);
        let d0 = digit_val(s[0]);
        let dl = digit_val(s.last());
        let p = pow10((s.len() - 2) as nat);
        assert(t[0] == s[0]);
        assert(digits_val(t) == d0 * p + digits_val(t.drop_first()));
        assert(s.drop_first().drop_last() =~= t.drop_first());
        assert(s.drop_first().last() == s.last());
        let r = digits_val(t.drop_first());
        assert(digits_val(s.drop_first()) == r * 10 + dl);
        assert(digits_val(s) == (d0 * p + r) * 10 + dl);
        assert((d0 * p + r) * 10 + dl == d0 * (10 * p) + (r * 10 + dl)) by (nonlinear_arith);
        assert(pow10((s.len() - 1) as nat) == 10 * p);
        assert(digits_val(s) == d0 * pow10((s.len() - 1) as nat) + digits_val(s.drop_first()));
    }
}

/// Among equal-length all-digit strings, the character order is the numeric
/// order.
proof fn lemma_digits_val_lex(a: Seq<char>, b: Seq<char>)
    requires
        a.len() == b.len(),
        forall|i: int| 0 <= i < a.len() ==> is_digit(#[trigger] a[i]),
        forall|i: int| 0 <= i < b.len() ==> is_digit(#[trigger] b[i]),
        lex_lt(a, b),
    ensures
        digits_val(a) < digits_val(b),
    decreases a.len(),
{
    assert(b.len() > 0);
    if a[0] == b[0] {
        assert(lex_lt(a.drop_first(), b.drop_first()));
        lemma_digits_val_lex(a.drop_first(), b.drop_first());
        lemma_digits_val_front(a);
        lemma_digits_val_front(b);
    } else {
        let p = pow10((a.len() - 1) as nat);
        let da = digit_val(a[0]);
        let db = digit_val(b[0]);
        lemma_digit_val_code(a[0]);
        lemma_digit_val_code(b[0]);
        assert(da < db);
        lemma_digits_val_front(a);
        lemma_digits_val_front(b);
        lemma_digits_val_upper(a.drop_first());
        assert(digits_val(a.drop_first()) < p);
        assert(da * p + p == (da + 1) * p) by (nonlinear_arith);
        vstd::arithmetic::mul::lemma_mul_inequality(da as int + 1, db as int, p as int);
    }
}

/// The numeric reading of the shorter-before-longer, then character-wise
/// rule: on canonical digit strings it is exactly comparison by value.
pub proof fn lemma_canonical_digits_order(a: Seq<char>, b: Seq<char>)
    requires
        is_canonical_digits(a),
        is_canonical_digits(b),
    ensures
        (a.len() < b.len() || (a.len() == b.len() && lex_lt(a, b))) == (digits_val(a)
            < digits_val(b)),
{
    if a.len() < b.len() {
        lemma_digits_val_upper(a);
        lemma_digits_val_lower(b);
        lemma_pow10_monotone(a.len(), (b.len() - 1) as nat);
    } else if a.len() == b.len() {
        if lex_lt(a, b) {
            lemma_digits_val_lex(a, b);
        } else if lex_lt(b, a) {
            lemma_digits_val_lex(b, a);
        } else {
            lemma_lex_lt_connected(a, b);
        }
    } else {
        lemma_digits_val_upper(b);
        lemma_digits_val_lower(a);
        lemma_pow10_monotone(b.len(), (a.len() - 1) as nat);
    }
}

} // verus!
