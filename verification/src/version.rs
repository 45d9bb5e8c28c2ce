//! The version-identifier grammar.
//!
//! A version identifier is an optional prefix (the maximal leading run with no
//! ASCII digit), a semantic-version core (`MAJOR.MINOR.PATCH` with optional
//! `-PRERELEASE` and `+BUILD`), and an optional suffix (whatever follows the
//! maximal run of core characters). The prefix and suffix take no part in
//! ordering or bumping; they are carried through for display and round-trip.

use vstd::prelude::*;

use crate::text::{
    digit_val, digit_value, digits_val, fmt_nat, is_canonical_digits, is_core_char,
    is_digit, is_ident_char, check_core_char, check_digit, check_ident_char,
    lemma_digits_val_take_monotone, lemma_scan_len, lemma_scan_len_is, scan_len,
    u64_to_dec_string,
};

verus! {

/// Which component of the semantic-version core a bump raises.
#[derive(Copy, Clone, PartialEq, Eq, Structural, Debug)]
pub enum BumpType {
    Patch,
    Minor,
    Major,
}

/// The error for a tag name whose core span is missing or is not a valid
/// semantic version.
#[derive(Copy, Clone, PartialEq, Eq, Structural, Debug)]
pub enum VersionError {
    InvalidVersion,
}

/// A parsed version identifier: `prefix` + `major.minor.patch` core
/// (optionally `-pre` and `+build`) + `suffix`.
#[derive(Clone, PartialEq, Eq, Debug)]
pub struct Version {
    pub prefix: String,
    pub major: u64,
    pub minor: u64,
    pub patch: u64,
    pub pre: Option<String>,
    pub build: Option<String>,
    pub suffix: String,
}

/// The mathematical shape of a version identifier.
pub struct VersionModel {
    pub prefix: Seq<char>,
    pub major: nat,
    pub minor: nat,
    pub patch: nat,
    pub pre: Option<Seq<char>>,
    pub build: Option<Seq<char>>,
    pub suffix: Seq<char>,
}

impl View for Version {
    type V = VersionModel;

    open spec fn view(&self) -> VersionModel {
        VersionModel {
            prefix: self.prefix@,
            major: self.major as nat,
            minor: self.minor as nat,
            patch: self.patch as nat,
            pre: match self.pre {
                Some(p) => Some(p@),
                None => None,
            },
            build: match self.build {
                Some(b) => Some(b@),
                None => None,
            },
            suffix: self.suffix@,
        }
    }
}

// ---------------------------------------------------------------------------
// Grammar: well-formedness of the core span
// ---------------------------------------------------------------------------

/// A numeric core component: canonical digits whose value fits a machine word.
pub open spec fn wf_num(a: Seq<char>) -> bool {
    is_canonical_digits(a) && digits_val(a) <= u64::MAX as nat
}

/// A pre-release identifier: nonempty, identifier characters only, and if it
/// is all digits it must not have a leading zero.
pub open spec fn wf_pre_ident(a: Seq<char>) -> bool {
    &&& a.len() >= 1
    &&& forall|i: int| 0 <= i < a.len() ==> is_ident_char(#[trigger] a[i])
    &&& ((forall|i: int| 0 <= i < a.len() ==> is_digit(#[trigger] a[i])) && a.len() > 1
        ==> a[0] != '0')
}

/// A build identifier: nonempty, identifier characters only.
pub open spec fn wf_build_ident(a: Seq<char>) -> bool {
    &&& a.len() >= 1
    &&& forall|i: int| 0 <= i < a.len() ==> is_ident_char(#[trigger] a[i])
}

/// A pre-release: dot-separated pre-release identifiers.
pub open spec fn wf_pre(s: Seq<char>) -> bool
    decreases s.len(),
{
    let d = scan_len(s, |c: char| c != '.');
    if 0 <= d && d < s.len() {
        wf_pre_ident(s.take(d)) && wf_pre(s.skip(d + 1))
    } else {
        wf_pre_ident(s)
    }
}

/// Build metadata: dot-separated build identifiers.
pub open spec fn wf_build(s: Seq<char>) -> bool
    decreases s.len(),
{
    let d = scan_len(s, |c: char| c != '.');
    if 0 <= d && d < s.len() {
        wf_build_ident(s.take(d)) && wf_build(s.skip(d + 1))
    } else {
        wf_build_ident(s)
    }
}

// ---------------------------------------------------------------------------
// Grammar: decomposition of the core span
// ---------------------------------------------------------------------------

/// Position of the first `+` in the core span, or its length.
pub open spec fn build_cut(c: Seq<char>) -> int {
    scan_len(c, |ch: char| ch != '+')
}

/// The core span without its build metadata.
pub open spec fn core_sans_build(c: Seq<char>) -> Seq<char> {
    c.take(build_cut(c))
}

/// The build metadata of a core span, if a `+` is present.
pub open spec fn core_build(c: Seq<char>) -> Option<Seq<char>> {
    if build_cut(c) < c.len() {
        Some(c.skip(build_cut(c) + 1))
    } else {
        None
    }
}

/// Position of the first `-` before the build cut, or the cut itself.
pub open spec fn pre_cut(c: Seq<char>) -> int {
    scan_len(core_sans_build(c), |ch: char| ch != '-')
}

/// The numeric `MAJOR.MINOR.PATCH` region of a core span.
pub open spec fn core_nums(c: Seq<char>) -> Seq<char> {
    core_sans_build(c).take(pre_cut(c))
}

/// The pre-release of a core span, if a `-` precedes the build metadata.
pub open spec fn core_pre(c: Seq<char>) -> Option<Seq<char>> {
    if pre_cut(c) < core_sans_build(c).len() {
        Some(core_sans_build(c).skip(pre_cut(c) + 1))
    } else {
        None
    }
}

/// The three numeric components of the `MAJOR.MINOR.PATCH` region, split at
/// its first two dots.
pub open spec fn nums_parts(nums: Seq<char>) -> (Seq<char>, Seq<char>, Seq<char>) {
    let d1 = scan_len(nums, |c: char| c != '.');
    let rest = nums.skip(d1 + 1);
    let d2 = scan_len(rest, |c: char| c != '.');
    (nums.take(d1), rest.take(d2), rest.skip(d2 + 1))
}

/// Is the numeric region exactly three well-formed components?
pub open spec fn wf_nums(nums: Seq<char>) -> bool {
    let d1 = scan_len(nums, |c: char| c != '.');
    let rest = nums.skip(d1 + 1);
    let d2 = scan_len(rest, |c: char| c != '.');
    &&& d1 < nums.len()
    &&& d2 < rest.len()
    &&& wf_num(nums_parts(nums).0)
    &&& wf_num(nums_parts(nums).1)
    &&& wf_num(nums_parts(nums).2)
}

/// Is the whole core span a valid semantic version?
pub open spec fn wf_core(c: Seq<char>) -> bool {
    &&& wf_nums(core_nums(c))
    &&& (core_pre(c) matches Some(p) ==> wf_pre(p))
    &&& (core_build(c) matches Some(b) ==> wf_build(b))
}

// ---------------------------------------------------------------------------
// Grammar: decomposition of a whole tag name
// ---------------------------------------------------------------------------

/// Length of the prefix: the maximal leading run containing no ASCII digit.
pub open spec fn prefix_len(s: Seq<char>) -> int {
    scan_len(s, |c: char| !is_digit(c))
}

/// End of the core span: from the first digit, the maximal run of digits,
/// `.`, `-` and `+`.
pub open spec fn core_end(s: Seq<char>) -> int {
    prefix_len(s) + scan_len(s.skip(prefix_len(s)), |c: char| is_core_char(c))
}

/// The core span of a tag name.
pub open spec fn core_span(s: Seq<char>) -> Seq<char> {
    s.subrange(prefix_len(s), core_end(s))
}

/// What parsing a tag name yields: its decomposition into prefix, semantic
/// core and suffix, or nothing when the core span is not a valid semantic
/// version.
pub open spec fn spec_parse(s: Seq<char>) -> Option<VersionModel> {
    let c = core_span(s);
    if wf_core(c) {
        Some(VersionModel {
            prefix: s.take(prefix_len(s)),
            major: digits_val(nums_parts(core_nums(c)).0),
            minor: digits_val(nums_parts(core_nums(c)).1),
            patch: digits_val(nums_parts(core_nums(c)).2),
            pre: core_pre(c),
            build: core_build(c),
            suffix: s.skip(core_end(s)),
        })
    } else {
        None
    }
}

// ---------------------------------------------------------------------------
// Formatting
// ---------------------------------------------------------------------------

/// The canonical text of a semantic core.
pub open spec fn fmt_core_model(m: VersionModel) -> Seq<char> {
    fmt_nat(m.major) + seq!['.'] + fmt_nat(m.minor) + seq!['.'] + fmt_nat(m.patch)
        + (match m.pre {
        Some(p) => seq!['-'] + p,
        None => Seq::<char>::empty(),
    }) + (match m.build {
        Some(b) => seq!['+'] + b,
        None => Seq::<char>::empty(),
    })
}

/// The full text of a version identifier: prefix, core, suffix.
pub open spec fn fmt_version(m: VersionModel) -> Seq<char> {
    m.prefix + fmt_core_model(m) + m.suffix
}

/// The structural invariant of a parsed or bumped version: the prefix holds
/// no digit, the suffix does not begin with a core character, and the
/// pre-release and build parts are well-formed.
pub open spec fn wf_version(m: VersionModel) -> bool {
    &&& forall|i: int| 0 <= i < m.prefix.len() ==> !is_digit(#[trigger] m.prefix[i])
    &&& m.suffix.len() > 0 ==> !is_core_char(m.suffix[0])
    &&& m.major <= u64::MAX as nat
    &&& m.minor <= u64::MAX as nat
    &&& m.patch <= u64::MAX as nat
    &&& (m.pre matches Some(p) ==> wf_pre(p))
    &&& (m.build matches Some(b) ==> wf_build(b))
}

// ---------------------------------------------------------------------------
// Construction, bumping, rendering
// ---------------------------------------------------------------------------

impl Version {
    /// A bare version with the given numeric core and no decoration.
    pub fn new(major: u64, minor: u64, patch: u64) -> (v: Version)
        ensures
            v@ == (VersionModel {
                prefix: Seq::<char>::empty(),
                major: major as nat,
                minor: minor as nat,
                patch: patch as nat,
                pre: None,
                build: None,
                suffix: Seq::<char>::empty(),
            }),
    {
        let v = Version {
            prefix: String::new(),
            major,
            minor,
            patch,
            pre: None,
            build: None,
            suffix: String::new(),
        };
        proof {
            assert(v@.prefix =~= Seq::<char>::empty());
            assert(v@.suffix =~= Seq::<char>::empty());
        }
        v
    }

    /// The same version under a different prefix.
    pub fn with_prefix(self, prefix: String) -> (v: Version)
        ensures
            v@ == (VersionModel { prefix: prefix@, ..self@ }),
    {
        Version { prefix, ..self }
    }

    /// Raises one core component, zeroes the ones below it, and strips any
    /// pre-release and build metadata; prefix and suffix are carried over.
    pub fn bump(&self, bump_type: BumpType) -> (v: Version)
        requires
            bump_type is Major ==> self@.major < u64::MAX as nat,
            bump_type is Minor ==> self@.minor < u64::MAX as nat,
            bump_type is Patch ==> self@.patch < u64::MAX as nat,
        ensures
            v@.prefix == self@.prefix,
            v@.suffix == self@.suffix,
            v@.pre is None,
            v@.build is None,
            bump_type is Major ==> v@.major == self@.major + 1 && v@.minor == 0 && v@.patch == 0,
            bump_type is Minor ==> v@.major == self@.major && v@.minor == self@.minor + 1
                && v@.patch == 0,
            bump_type is Patch ==> v@.major == self@.major && v@.minor == self@.minor
                && v@.patch == self@.patch + 1,
            wf_version(self@) ==> wf_version(v@),
    {
        let (major, minor, patch) = match bump_type {
            BumpType::Major => (self.major + 1, 0u64, 0u64),
            BumpType::Minor => (self.major, self.minor + 1, 0u64),
            BumpType::Patch => (self.major, self.minor, self.patch + 1),
        };
        let v = Version {
            prefix: self.prefix.clone(),
            major,
            minor,
            patch,
            pre: None,
            build: None,
            suffix: self.suffix.clone(),
        };
        proof {
            if wf_version(self@) {
                assert forall|i: int| 0 <= i < v@.prefix.len()
                    implies !is_digit(#[trigger] v@.prefix[i]) by {
                    assert(!is_digit(self@.prefix[i]));
                }
                assert(wf_version(v@));
            }
        }
        v
    }

    /// Renders the identifier: prefix, canonical core, suffix.
    pub fn format(&self) -> (s: String)
        ensures
            s@ == fmt_version(self@),
    {
        proof {
            reveal_strlit(".");
            reveal_strlit("-");
            reveal_strlit("+");
        }
        let mut s = self.prefix.clone();
        let major_str = u64_to_dec_string(self.major);
        s.append(major_str.as_str());
        s.append(".");
        let minor_str = u64_to_dec_string(self.minor);
        s.append(minor_str.as_str());
        s.append(".");
        let patch_str = u64_to_dec_string(self.patch);
        s.append(patch_str.as_str());
        match &self.pre {
            Some(p) => {
                s.append("-");
                s.append(p.as_str());
            },
            None => {},
        }
        match &self.build {
            Some(b) => {
                s.append("+");
                s.append(b.as_str());
            },
            None => {},
        }
        s.append(self.suffix.as_str());
        proof {
            assert("."@ =~= seq!['.']);
            assert("-"@ =~= seq!['-']);
            assert("+"@ =~= seq!['+']);
            assert(s@ =~= fmt_version(self@));
        }
        s
    }
}

} // verus!

verus! {

// ---------------------------------------------------------------------------
// Parsing helpers over spans of the input string
// ---------------------------------------------------------------------------

/// Reads a numeric component from `s[from..to]`: canonical digits whose value
/// fits a `u64`, or nothing.
fn parse_num_span(s: &str, from: usize, to: usize) -> (r: Option<u64>)
    requires
        from as int <= to as int <= s@.len(),
    ensures
        match r {
            Some(v) => wf_num(s@.subrange(from as int, to as int)) && v as nat == digits_val(
                s@.subrange(from as int, to as int),
            ),
            None => !wf_num(s@.subrange(from as int, to as int)),
        },
{
    let ghost sub = s@.subrange(from as int, to as int);
    if from == to {
        return None;
    }
    if to - from > 1 && s.get_char(from) == '0' {
        proof {
            assert(sub[0] == s@[from as int]);
        }
        return None;
    }
    let mut acc: u64 = 0;
    let mut i: usize = from;
    while i < to
        invariant
            from <= i <= to,
            to as int <= s@.len(),
            sub == s@.subrange(from as int, to as int),
            forall|j: int| 0 <= j < i - from ==> is_digit(#[trigger] sub[j]),
            acc as nat == digits_val(sub.take(i - from)),
        decreases to - i,
    {
        let c = s.get_char(i);
        proof {
            assert(sub[i - from] == s@[i as int]);
        }
        if !check_digit(c) {
            proof {
                assert(!is_digit(sub[i - from]));
            }
            return None;
        }
        let d = digit_value(c);
        proof {
            assert(sub.take(i - from + 1).drop_last() =~= sub.take(i - from));
            assert(sub.take(i - from + 1).last() == sub[i - from]);
            assert(digits_val(sub.take(i - from + 1)) == (acc as nat) * 10 + digit_val(
                sub[i - from],
            ));
        }
        let next = match acc.checked_mul(10) {
            Some(m10) => m10.checked_add(d),
            None => None,
        };
        match next {
            Some(n) => {
                acc = n;
            },
            None => {
                proof {
                    assert(digits_val(sub.take(i - from + 1)) > u64::MAX as nat);
                    lemma_digits_val_take_monotone(sub, i - from + 1, sub.len() as int);
                    assert(sub.take(sub.len() as int) =~= sub);
                    assert(digits_val(sub) > u64::MAX as nat);
                }
                return None;
            },
        }
        i = i + 1;
    }
    proof {
        assert(sub.take(sub.len() as int) =~= sub);
        assert(is_canonical_digits(sub));
    }
    Some(acc)
}

/// Checks one pre-release identifier in `s[from..to]`.
fn check_pre_ident_span(s: &str, from: usize, to: usize) -> (r: bool)
    requires
        from as int <= to as int <= s@.len(),
    ensures
        r == wf_pre_ident(s@.subrange(from as int, to as int)),
{
    let ghost sub = s@.subrange(from as int, to as int);
    if from == to {
        return false;
    }
    let mut all_num: bool = true;
    let mut i: usize = from;
    while i < to
        invariant
            from <= i <= to,
            to as int <= s@.len(),
            sub == s@.subrange(from as int, to as int),
            forall|j: int| 0 <= j < i - from ==> is_ident_char(#[trigger] sub[j]),
            all_num == (forall|j: int| 0 <= j < i - from ==> is_digit(#[trigger] sub[j])),
        decreases to - i,
    {
        let c = s.get_char(i);
        proof {
            assert(sub[i - from] == s@[i as int]);
        }
        if !check_ident_char(c) {
            proof {
                assert(!is_ident_char(sub[i - from]));
            }
            return false;
        }
        if !check_digit(c) {
            proof {
                assert(!is_digit(sub[i - from]));
            }
            all_num = false;
        }
        i = i + 1;
    }
    if all_num && to - from > 1 {
        let c0 = s.get_char(from);
        proof {
            assert(sub[0] == s@[from as int]);
        }
        if c0 == '0' {
            return false;
        }
    }
    true
}

/// Checks one build identifier in `s[from..to]`.
fn check_build_ident_span(s: &str, from: usize, to: usize) -> (r: bool)
    requires
        from as int <= to as int <= s@.len(),
    ensures
        r == wf_build_ident(s@.subrange(from as int, to as int)),
{
    let ghost sub = s@.subrange(from as int, to as int);
    if from == to {
        return false;
    }
    let mut i: usize = from;
    while i < to
        invariant
            from <= i <= to,
            to as int <= s@.len(),
            sub == s@.subrange(from as int, to as int),
            forall|j: int| 0 <= j < i - from ==> is_ident_char(#[trigger] sub[j]),
        decreases to - i,
    {
        let c = s.get_char(i);
        proof {
            assert(sub[i - from] == s@[i as int]);
        }
        if !check_ident_char(c) {
            proof {
                assert(!is_ident_char(sub[i - from]));
            }
            return false;
        }
        i = i + 1;
    }
    true
}

/// Checks a whole dot-separated pre-release in `s[from..to]`.
fn check_pre_span(s: &str, from: usize, to: usize) -> (r: bool)
    requires
        from as int <= to as int <= s@.len(),
    ensures
        r == wf_pre(s@.subrange(from as int, to as int)),
    decreases to - from,
{
    let ghost sub = s@.subrange(from as int, to as int);
    let mut d: usize = from;
    while d < to && s.get_char(d) != '.'
        invariant
            from <= d <= to,
            to as int <= s@.len(),
            forall|j: int| from <= j < d ==> #[trigger] s@[j] != '.',
        decreases to - d,
    {
        d = d + 1;
    }
    proof {
        assert forall|j: int| 0 <= j < d - from implies #[trigger] sub[j] != '.' by {
            assert(sub[j] == s@[from + j]);
        }
        if d < to {
            assert(sub[d - from] == s@[d as int]);
        }
        lemma_scan_len_is(sub, |c: char| c != '.', d as int - from as int);
    }
    if d < to {
        let head_ok = check_pre_ident_span(s, from, d);
        proof {
            assert(sub.take(d - from) =~= s@.subrange(from as int, d as int));
        }
        if !head_ok {
            return false;
        }
        let rest_ok = check_pre_span(s, d + 1, to);
        proof {
            assert(sub.skip(d - from + 1) =~= s@.subrange(d as int + 1, to as int));
        }
        rest_ok
    } else {
        check_pre_ident_span(s, from, to)
    }
}

/// Checks whole dot-separated build metadata in `s[from..to]`.
fn check_build_span(s: &str, from: usize, to: usize) -> (r: bool)
    requires
        from as int <= to as int <= s@.len(),
    ensures
        r == wf_build(s@.subrange(from as int, to as int)),
    decreases to - from,
{
    let ghost sub = s@.subrange(from as int, to as int);
    let mut d: usize = from;
    while d < to && s.get_char(d) != '.'
        invariant
            from <= d <= to,
            to as int <= s@.len(),
            forall|j: int| from <= j < d ==> #[trigger] s@[j] != '.',
        decreases to - d,
    {
        d = d + 1;
    }
    proof {
        assert forall|j: int| 0 <= j < d - from implies #[trigger] sub[j] != '.' by {
            assert(sub[j] == s@[from + j]);
        }
        if d < to {
            assert(sub[d - from] == s@[d as int]);
        }
        lemma_scan_len_is(sub, |c: char| c != '.', d as int - from as int);
    }
    if d < to {
        let head_ok = check_build_ident_span(s, from, d);
        proof {
            assert(sub.take(d - from) =~= s@.subrange(from as int, d as int));
        }
        if !head_ok {
            return false;
        }
        let rest_ok = check_build_span(s, d + 1, to);
        proof {
            assert(sub.skip(d - from + 1) =~= s@.subrange(d as int + 1, to as int));
        }
        rest_ok
    } else {
        check_build_ident_span(s, from, to)
    }
}

} // verus!

verus! {

impl Version {
    /// Parses a tag name: maximal digit-free prefix, maximal core-character
    /// span parsed as a strict semantic version, the rest as suffix. Fails
    /// exactly when the core span is not a valid semantic version.
    #[verifier::rlimit(100)]
    #[verifier::spinoff_prover]
    pub fn parse(text: &str) -> (r: Result<Version, VersionError>)
        ensures
            match r {
                Ok(v) => spec_parse(text@) == Some(v@) && wf_version(v@),
                Err(e) => spec_parse(text@) is None && e == VersionError::InvalidVersion,
            },
    {
        let len = text.unicode_len();
        // Prefix: the maximal leading run with no ASCII digit.
        let mut p: usize = 0;
        while p < len && !check_digit(text.get_char(p))
            invariant
                p <= len,
                len == text@.len(),
                forall|j: int| 0 <= j < p ==> !is_digit(#[trigger] text@[j]),
            decreases len - p,
        {
            p = p + 1;
        }
        proof {
            lemma_scan_len_is(text@, |c: char| !is_digit(c), p as int);
            assert(prefix_len(text@) == p as int);
        }
        // Core span: from the first digit, the maximal run of core characters.
        let mut e: usize = p;
        while e < len && check_core_char(text.get_char(e))
            invariant
                p <= e <= len,
                len == text@.len(),
                forall|j: int| p <= j < e ==> is_core_char(#[trigger] text@[j]),
            decreases len - e,
        {
            e = e + 1;
        }
        let ghost rest_of = text@.skip(p as int);
        proof {
            assert forall|j: int| 0 <= j < e - p implies is_core_char(#[trigger] rest_of[j]) by {
                assert(rest_of[j] == text@[p + j]);
            }
            if e < len {
                assert(rest_of[e - p] == text@[e as int]);
            }
            lemma_scan_len_is(rest_of, |c: char| is_core_char(c), e as int - p as int);
            assert(core_end(text@) == e as int);
        }
        let ghost span = core_span(text@);
        proof {
            assert(span == text@.subrange(p as int, e as int));
            assert forall|j: int| 0 <= j < e - p implies #[trigger] span[j] == text@[p + j] by {}
        }
        // Build metadata begins at the first `+` of the span.
        let mut bpos: usize = p;
        while bpos < e && text.get_char(bpos) != '+'
            invariant
                p <= bpos <= e <= len,
                len == text@.len(),
                forall|j: int| p <= j < bpos ==> #[trigger] text@[j] != '+',
            decreases e - bpos,
        {
            bpos = bpos + 1;
        }
        proof {
            assert forall|j: int| 0 <= j < bpos - p implies #[trigger] span[j] != '+' by {
                assert(span[j] == text@[p + j]);
            }
            if bpos < e {
                assert(span[bpos - p] == text@[bpos as int]);
            }
            lemma_scan_len_is(span, |ch: char| ch != '+', bpos as int - p as int);
            assert(build_cut(span) == bpos - p);
            assert(core_sans_build(span) =~= text@.subrange(p as int, bpos as int));
        }
        let ghost sansb = core_sans_build(span);
        // The pre-release begins at the first `-` before the build cut.
        let mut ppos: usize = p;
        while ppos < bpos && text.get_char(ppos) != '-'
            invariant
                p <= ppos <= bpos <= len,
                len == text@.len(),
                forall|j: int| p <= j < ppos ==> #[trigger] text@[j] != '-',
            decreases bpos - ppos,
        {
            ppos = ppos + 1;
        }
        proof {
            assert forall|j: int| 0 <= j < ppos - p implies #[trigger] sansb[j] != '-' by {
                assert(sansb[j] == text@[p + j]);
            }
            if ppos < bpos {
                assert(sansb[ppos - p] == text@[ppos as int]);
            }
            lemma_scan_len_is(sansb, |ch: char| ch != '-', ppos as int - p as int);
            assert(pre_cut(span) == ppos - p);
            assert(core_nums(span) =~= text@.subrange(p as int, ppos as int));
        }
        let ghost nums = core_nums(span);
        // First dot of the numeric region.
        let mut d1: usize = p;
        while d1 < ppos && text.get_char(d1) != '.'
            invariant
                p <= d1 <= ppos <= len,
                len == text@.len(),
                forall|j: int| p <= j < d1 ==> #[trigger] text@[j] != '.',
            decreases ppos - d1,
        {
            d1 = d1 + 1;
        }
        proof {
            assert forall|j: int| 0 <= j < d1 - p implies #[trigger] nums[j] != '.' by {
                assert(nums[j] == text@[p + j]);
            }
            if d1 < ppos {
                assert(nums[d1 - p] == text@[d1 as int]);
            }
            lemma_scan_len_is(nums, |c: char| c != '.', d1 as int - p as int);
        }
        if d1 == ppos {
            proof {
                assert(!wf_nums(nums));
            }
            return Err(VersionError::InvalidVersion);
        }
        // Second dot of the numeric region.
        let ghost numrest = nums.skip(d1 - p + 1);
        proof {
            assert(numrest =~= text@.subrange(d1 as int + 1, ppos as int));
        }
        let mut d2: usize = d1 + 1;
        while d2 < ppos && text.get_char(d2) != '.'
            invariant
                d1 + 1 <= d2 <= ppos <= len,
                len == text@.len(),
                forall|j: int| d1 + 1 <= j < d2 ==> #[trigger] text@[j] != '.',
            decreases ppos - d2,
        {
            d2 = d2 + 1;
        }
        proof {
            assert forall|j: int| 0 <= j < d2 - d1 - 1 implies #[trigger] numrest[j] != '.' by {
                assert(numrest[j] == text@[d1 + 1 + j]);
            }
            if d2 < ppos {
                assert(numrest[d2 - d1 - 1] == text@[d2 as int]);
            }
            lemma_scan_len_is(numrest, |c: char| c != '.', d2 as int - d1 as int - 1);
        }
        if d2 == ppos {
            proof {
                assert(!wf_nums(nums));
            }
            return Err(VersionError::InvalidVersion);
        }
        proof {
            assert(nums_parts(nums).0 =~= text@.subrange(p as int, d1 as int));
            assert(nums_parts(nums).1 =~= text@.subrange(d1 as int + 1, d2 as int));
            assert(nums_parts(nums).2 =~= text@.subrange(d2 as int + 1, ppos as int));
        }
        // The three numeric components.
        let major = match parse_num_span(text, p, d1) {
            Some(v) => v,
            None => {
                proof {
                    assert(!wf_nums(nums));
                }
                return Err(VersionError::InvalidVersion);
            },
        };
        let minor = match parse_num_span(text, d1 + 1, d2) {
            Some(v) => v,
            None => {
                proof {
                    assert(!wf_nums(nums));
                }
                return Err(VersionError::InvalidVersion);
            },
        };
        let patch = match parse_num_span(text, d2 + 1, ppos) {
            Some(v) => v,
            None => {
                proof {
                    assert(!wf_nums(nums));
                }
                return Err(VersionError::InvalidVersion);
            },
        };
        // Pre-release, when a `-` precedes the build cut.
        let pre: Option<String> = if ppos < bpos {
            proof {
                assert(core_pre(span) == Some(sansb.skip(ppos - p + 1)));
                assert(sansb.skip(ppos - p + 1) =~= text@.subrange(ppos as int + 1, bpos as int));
            }
            if !check_pre_span(text, ppos + 1, bpos) {
                return Err(VersionError::InvalidVersion);
            }
            Some(text.substring_char(ppos + 1, bpos).to_owned())
        } else {
            proof {
                assert(core_pre(span) is None);
            }
            None
        };
        // Build metadata, when a `+` is present in the span.
        let build: Option<String> = if bpos < e {
            proof {
                assert(core_build(span) == Some(span.skip(bpos - p + 1)));
                assert(span.skip(bpos - p + 1) =~= text@.subrange(bpos as int + 1, e as int));
            }
            if !check_build_span(text, bpos + 1, e) {
                return Err(VersionError::InvalidVersion);
            }
            Some(text.substring_char(bpos + 1, e).to_owned())
        } else {
            proof {
                assert(core_build(span) is None);
            }
            None
        };
        let v = Version {
            prefix: text.substring_char(0, p).to_owned(),
            major,
            minor,
            patch,
            pre,
            build,
            suffix: text.substring_char(e, len).to_owned(),
        };
        proof {
            assert(wf_core(span));
            let m = VersionModel {
                prefix: text@.take(prefix_len(text@)),
                major: digits_val(nums_parts(core_nums(span)).0),
                minor: digits_val(nums_parts(core_nums(span)).1),
                patch: digits_val(nums_parts(core_nums(span)).2),
                pre: core_pre(span),
                build: core_build(span),
                suffix: text@.skip(core_end(text@)),
            };
            assert(spec_parse(text@) == Some(m));
            assert(v@.prefix =~= m.prefix);
            assert(v@.suffix =~= m.suffix);
            assert(v@.pre == m.pre);
            assert(v@.build == m.build);
            assert(v@ == m);
            // The invariant: prefix holds no digit, the suffix cannot begin
            // with a core character, pre-release and build are well-formed.
            assert(wf_version(v@)) by {
                assert forall|i: int| 0 <= i < v@.prefix.len()
                    implies !is_digit(#[trigger] v@.prefix[i]) by {
                    assert(v@.prefix[i] == text@[i]);
                }
                if v@.suffix.len() > 0 {
                    assert(v@.suffix[0] == text@[e as int]);
                }
            }
        }
        Ok(v)
    }
}

} // verus!

verus! {

// ---------------------------------------------------------------------------
// Round trip: formatting a parsed version restores the tag name exactly
// ---------------------------------------------------------------------------

/// The numeric region is its three components joined by dots.
proof fn lemma_nums_stitch(nums: Seq<char>)
    requires
        wf_nums(nums),
    ensures
        nums =~= nums_parts(nums).0 + seq!['.'] + nums_parts(nums).1 + seq!['.']
            + nums_parts(nums).2,
{
    let d1 = scan_len(nums, |c: char| c != '.');
    lemma_scan_len(nums, |c: char| c != '.');
    let rest = nums.skip(d1 + 1);
    let d2 = scan_len(rest, |c: char| c != '.');
    lemma_scan_len(rest, |c: char| c != '.');
    assert(nums[d1] == '.');
    assert(rest[d2] == '.');
    let whole = nums_parts(nums).0 + seq!['.'] + nums_parts(nums).1 + seq!['.']
        + nums_parts(nums).2;
    assert(nums.len() == d1 + 1 + rest.len());
    assert(rest.len() == d2 + 1 + rest.skip(d2 + 1).len());
    assert forall|i: int| 0 <= i < nums.len() implies nums[i] == whole[i] by {
        if i < d1 {
            assert(whole[i] == nums.take(d1)[i]);
        } else if i == d1 {
            assert(whole[i] == '.');
        } else if i < d1 + 1 + d2 {
            assert(whole[i] == rest.take(d2)[i - d1 - 1]);
            assert(rest[i - d1 - 1] == nums[i]);
        } else if i == d1 + 1 + d2 {
            assert(whole[i] == '.');
            assert(rest[d2] == nums[i]);
        } else {
            assert(whole[i] == rest.skip(d2 + 1)[i - d1 - 1 - d2 - 1]);
            assert(rest.skip(d2 + 1)[i - d1 - d2 - 2] == rest[i - d1 - 1]);
            assert(rest[i - d1 - 1] == nums[i]);
        }
    }
}

/// A well-formed core span is its canonical rendering: numeric region, then
/// `-` pre-release if present, then `+` build metadata if present.
proof fn lemma_core_stitch(c: Seq<char>)
    requires
        wf_core(c),
    ensures
        c =~= core_nums(c) + (match core_pre(c) {
            Some(p) => seq!['-'] + p,
            None => Seq::<char>::empty(),
        }) + (match core_build(c) {
            Some(b) => seq!['+'] + b,
            None => Seq::<char>::empty(),
        }),
{
    let bc = build_cut(c);
    lemma_scan_len(c, |ch: char| ch != '+');
    let sansb = core_sans_build(c);
    let pc = pre_cut(c);
    lemma_scan_len(sansb, |ch: char| ch != '-');
    // The region up to the build cut splits at the first dash.
    let front = core_nums(c) + (match core_pre(c) {
        Some(p) => seq!['-'] + p,
        None => Seq::<char>::empty(),
    });
    assert(sansb =~= front) by {
        if pc < sansb.len() {
            assert(sansb[pc] == '-');
            assert forall|i: int| 0 <= i < sansb.len() implies sansb[i] == front[i] by {
                if i < pc {
                    assert(front[i] == sansb.take(pc)[i]);
                } else if i == pc {
                    assert(front[i] == '-');
                } else {
                    assert(front[i] == sansb.skip(pc + 1)[i - pc - 1]);
                }
            }
        } else {
            assert(core_pre(c) is None);
            assert(core_nums(c) == sansb.take(pc));
            assert(sansb.take(pc) =~= sansb);
        }
    }
    // The whole span splits at the first plus.
    let whole = front + (match core_build(c) {
        Some(b) => seq!['+'] + b,
        None => Seq::<char>::empty(),
    });
    assert(c =~= whole) by {
        if bc < c.len() {
            assert(c[bc] == '+');
            assert(front.len() == bc);
            assert forall|i: int| 0 <= i < c.len() implies c[i] == whole[i] by {
                if i < bc {
                    assert(whole[i] == front[i]);
                    assert(front[i] == sansb[i]);
                    assert(sansb[i] == c.take(bc)[i]);
                } else if i == bc {
                    assert(whole[i] == '+');
                } else {
                    assert(whole[i] == c.skip(bc + 1)[i - bc - 1]);
                }
            }
        } else {
            assert(core_build(c) is None);
            assert(sansb =~= c);
        }
    }
}

/// Parsing never loses text: rendering the parsed decomposition restores the
/// input exactly.
pub proof fn lemma_parse_format_round_trip(s: Seq<char>)
    requires
        spec_parse(s) is Some,
    ensures
        spec_parse(s) matches Some(m) ==> fmt_version(m) == s,
{
    let c = core_span(s);
    assert(wf_core(c));
    let m = spec_parse(s)->Some_0;
    let pl = prefix_len(s);
    let ce = core_end(s);
    lemma_scan_len(s, |ch: char| !is_digit(ch));
    lemma_scan_len(s.skip(pl), |ch: char| is_core_char(ch));
    assert(0 <= pl <= ce <= s.len());
    // The three numeric components render back to themselves.
    let nums = core_nums(c);
    let p0 = nums_parts(nums).0;
    let p1 = nums_parts(nums).1;
    let p2 = nums_parts(nums).2;
    crate::text::lemma_fmt_nat_digits_val(p0);
    crate::text::lemma_fmt_nat_digits_val(p1);
    crate::text::lemma_fmt_nat_digits_val(p2);
    assert(fmt_nat(m.major) == p0);
    assert(fmt_nat(m.minor) == p1);
    assert(fmt_nat(m.patch) == p2);
    lemma_nums_stitch(nums);
    lemma_core_stitch(c);
    assert(fmt_core_model(m) =~= c) by {
        assert(m.pre == core_pre(c));
        assert(m.build == core_build(c));
        assert(fmt_core_model(m) =~= nums + (match core_pre(c) {
            Some(p) => seq!['-'] + p,
            None => Seq::<char>::empty(),
        }) + (match core_build(c) {
            Some(b) => seq!['+'] + b,
            None => Seq::<char>::empty(),
        }));
    }
    assert(fmt_version(m) =~= s) by {
        assert(m.prefix == s.take(pl));
        assert(m.suffix == s.skip(ce));
        assert(fmt_version(m) =~= s.take(pl) + c + s.skip(ce));
        assert forall|i: int| 0 <= i < s.len() implies (s.take(pl) + c + s.skip(ce))[i]
            == s[i] by {
            if i < pl {
            } else if i < ce {
                assert((s.take(pl) + c + s.skip(ce))[i] == c[i - pl]);
                assert(c[i - pl] == s[i]);
            } else {
                assert((s.take(pl) + c + s.skip(ce))[i] == s.skip(ce)[i - ce]);
            }
        }
    }
}

/// The success condition of the grammar: any text assembled from a digit-free
/// prefix, a valid semantic core written with core characters, and a suffix
/// that does not begin with a core character, parses back into exactly those
/// three parts and survives the round trip.
pub proof fn lemma_parse_well_formed_input(p: Seq<char>, c: Seq<char>, x: Seq<char>)
    requires
        forall|i: int| 0 <= i < p.len() ==> !is_digit(#[trigger] p[i]),
        wf_core(c),
        forall|i: int| 0 <= i < c.len() ==> is_core_char(#[trigger] c[i]),
        x.len() > 0 ==> !is_core_char(x[0]),
    ensures
        spec_parse(p + c + x) matches Some(m) && m.prefix == p && m.suffix == x
            && fmt_version(m) == p + c + x,
{
    let s = p + c + x;
    // The core is nonempty and begins with a digit.
    let nums = core_nums(c);
    let sansb = core_sans_build(c);
    lemma_scan_len(c, |ch: char| ch != '+');
    lemma_scan_len(sansb, |ch: char| ch != '-');
    lemma_scan_len(nums, |ch: char| ch != '.');
    assert(nums.len() >= 1 && is_digit(nums[0])) by {
        let d1 = scan_len(nums, |ch: char| ch != '.');
        assert(d1 < nums.len());
        assert(is_canonical_digits(nums_parts(nums).0));
        assert(nums_parts(nums).0[0] == nums[0]);
    }
    assert(c[0] == nums[0]) by {
        assert(nums[0] == sansb[0]);
        assert(sansb[0] == c[0]);
    }
    // The prefix scan stops at the first digit, which opens the core.
    assert forall|i: int| 0 <= i < p.len() implies !is_digit(#[trigger] s[i]) by {
        assert(s[i] == p[i]);
    }
    assert(s[p.len() as int] == c[0]);
    lemma_scan_len_is(s, |ch: char| !is_digit(ch), p.len() as int);
    assert(prefix_len(s) == p.len());
    // The core scan covers exactly the supplied core.
    let rest_of = s.skip(p.len() as int);
    assert forall|i: int| 0 <= i < c.len() implies is_core_char(#[trigger] rest_of[i]) by {
        assert(rest_of[i] == s[p.len() + i]);
        assert(s[p.len() + i] == c[i]);
    }
    if x.len() > 0 {
        assert(rest_of[c.len() as int] == x[0]);
    }
    lemma_scan_len_is(rest_of, |ch: char| is_core_char(ch), c.len() as int);
    assert(core_end(s) == p.len() + c.len());
    assert(core_span(s) =~= c);
    assert(spec_parse(s) is Some);
    let m = spec_parse(s)->Some_0;
    assert(m.prefix =~= p);
    assert(m.suffix =~= x);
    lemma_parse_format_round_trip(s);
}

} // verus!
