//! Repository-facing data and the pure string rules used around the tag
//! store: commit records, project descriptor files, the release-API client
//! handle, remote-URL normalization, and the extraction rules for changelog
//! and commit text. All file, process and network traffic stays with the
//! embedding application.

use vstd::prelude::*;

use crate::text::{has_prefix, has_suffix, scan_len, str_eq, str_has_prefix, trim_ws,
    trim_ws_str, lemma_scan_len_is};

verus! {

/// One commit: its hash and its full message.
#[derive(Debug, Clone)]
pub struct GitCommit {
    pub hash: String,
    pub message: String,
}

/// The kinds of project descriptor files whose version field is kept in step
/// with the tags.
#[derive(Copy, Clone, PartialEq, Eq, Structural, Debug)]
pub enum ProjectFileType {
    CargoToml,
    PackageJson,
    PyProjectToml,
    Other,
}

/// One detected project descriptor file.
#[derive(Debug, Clone)]
pub struct ProjectFile {
    pub path: String,
    pub file_type: ProjectFileType,
}

/// A summary of the repository: its current version, remote URL, commit
/// count and branch.
#[derive(Debug, Clone)]
pub struct ProjectInfo {
    pub version: crate::version::Version,
    pub repo_url: Option<String>,
    pub commit_count: usize,
    pub branch_name: Option<String>,
}

/// A handle on the release API: the access token and the repository URL all
/// requests are made against.
#[derive(Debug, Clone)]
pub struct GitHubClient {
    pub token: String,
    pub repo_url: String,
}

impl GitHubClient {
    pub fn new(token: String, repo_url: String) -> (c: GitHubClient)
        ensures
            c.token == token,
            c.repo_url == repo_url,
    {
        GitHubClient { token, repo_url }
    }
}

/// Which project descriptor a file name denotes, if any.
pub fn classify_project_file(name: &str) -> (r: Option<ProjectFileType>)
    ensures
        match r {
            Some(t) => match t {
                ProjectFileType::CargoToml => name@ == "Cargo.toml"@,
                ProjectFileType::PackageJson => name@ == "package.json"@,
                ProjectFileType::PyProjectToml => name@ == "pyproject.toml"@,
                ProjectFileType::Other => name@ == ".rustytag.json"@,
            },
            None => name@ != "Cargo.toml"@ && name@ != "package.json"@ && name@
                != "pyproject.toml"@ && name@ != ".rustytag.json"@,
        },
{
    if str_eq(name, "Cargo.toml") {
        Some(ProjectFileType::CargoToml)
    } else if str_eq(name, "package.json") {
        Some(ProjectFileType::PackageJson)
    } else if str_eq(name, "pyproject.toml") {
        Some(ProjectFileType::PyProjectToml)
    } else if str_eq(name, ".rustytag.json") {
        Some(ProjectFileType::Other)
    } else {
        None
    }
}

/// Is this the release commit the changelog skips?
pub fn is_release_commit(message: &str) -> (r: bool)
    ensures
        r == has_prefix(message@, "chore: release"@),
{
    str_has_prefix(message, "chore: release")
}

/// The first line of a commit message.
pub fn first_line(s: &str) -> (r: String)
    ensures
        r@ == s@.take(scan_len(s@, |c: char| c != '\n')),
{
    let len = s.unicode_len();
    let mut i: usize = 0;
    while i < len && s.get_char(i) != '\n'
        invariant
            i <= len,
            len == s@.len(),
            forall|j: int| 0 <= j < i ==> #[trigger] s@[j] != '\n',
        decreases len - i,
    {
        i = i + 1;
    }
    proof {
        lemma_scan_len_is(s@, |c: char| c != '\n', i as int);
    }
    s.substring_char(0, i).to_owned()
}

/// The date half of an ISO timestamp: everything before the first `T`.
pub fn date_part(timestamp: &str) -> (r: String)
    ensures
        r@ == timestamp@.take(scan_len(timestamp@, |c: char| c != 'T')),
{
    let len = timestamp.unicode_len();
    let mut i: usize = 0;
    while i < len && timestamp.get_char(i) != 'T'
        invariant
            i <= len,
            len == timestamp@.len(),
            forall|j: int| 0 <= j < i ==> #[trigger] timestamp@[j] != 'T',
        decreases len - i,
    {
        i = i + 1;
    }
    proof {
        lemma_scan_len_is(timestamp@, |c: char| c != 'T', i as int);
    }
    timestamp.substring_char(0, i).to_owned()
}

/// The abbreviated form of a commit hash: its first seven characters.
pub fn short_hash(hash: &str) -> (r: String)
    requires
        hash@.len() >= 7,
    ensures
        r@ == hash@.take(7),
{
    hash.substring_char(0, 7).to_owned()
}

} // verus!

verus! {

// ---------------------------------------------------------------------------
// Remote-URL normalization
// ---------------------------------------------------------------------------

/// How many times `c` occurs in `s`.
pub open spec fn count_char(s: Seq<char>, c: char) -> int
    decreases s.len(),
{
    if s.len() == 0 {
        0
    } else {
        count_char(s.drop_last(), c) + if s.last() == c { 1int } else { 0int }
    }
}

/// The path-separator form of a URL character: `:` becomes `/`.
pub open spec fn swap_colon(c: char) -> char {
    if c == ':' { '/' } else { c }
}

/// `s` with every trailing `.git` removed.
pub open spec fn strip_git(s: Seq<char>) -> Seq<char>
    decreases s.len(),
{
    if s.len() >= 4 && has_suffix(s, ".git"@) {
        strip_git(s.take(s.len() - 4))
    } else {
        s
    }
}

/// What an SSH-style remote URL reads as over HTTPS: for `git@host:path`,
/// with exactly one `@`, the host and path joined by `/` under an `https://`
/// scheme, any trailing `.git` dropped; any other URL is kept as it is.
pub open spec fn spec_https_url(u: Seq<char>) -> Seq<char> {
    if has_prefix(u, "git@"@) && count_char(u, '@') == 1 {
        "https://"@ + strip_git(u.skip(4).map_values(|c: char| swap_colon(c)))
    } else {
        u
    }
}

/// Where a repeated-`.git` strip of `s` ends: `strip_git(s) == s.take(e)`.
fn strip_git_end(s: &str) -> (e: usize)
    ensures
        e <= s@.len(),
        strip_git(s@) == s@.take(e as int),
    decreases s@.len(),
{
    proof {
        reveal_strlit(".git");
    }
    let len = s.unicode_len();
    let mut e: usize = len;
    proof {
        assert(s@.take(len as int) =~= s@);
    }
    while e >= 4 && (s.get_char(e - 4) == '.' && s.get_char(e - 3) == 'g' && s.get_char(e - 2)
        == 'i' && s.get_char(e - 1) == 't')
        invariant
            e <= len,
            len == s@.len(),
            strip_git(s@) == strip_git(s@.take(e as int)),
        decreases e,
    {
        let ghost cur = s@.take(e as int);
        proof {
            reveal_strlit(".git");
            assert(cur.skip(e - 4).len() == 4);
            assert(cur.skip(e - 4)[0] == s@[e - 4]);
            assert(cur.skip(e - 4)[1] == s@[e - 3]);
            assert(cur.skip(e - 4)[2] == s@[e - 2]);
            assert(cur.skip(e - 4)[3] == s@[e - 1]);
            assert(cur.skip(e - 4) =~= ".git"@);
            assert(has_suffix(cur, ".git"@));
            assert(cur.take(e - 4) =~= s@.take(e - 4));
        }
        e = e - 4;
    }
    proof {
        let cur = s@.take(e as int);
        if e >= 4 && has_suffix(cur, ".git"@) {
            assert(cur.skip(e - 4) == ".git"@);
            assert(s@[e - 4] == cur[e - 4] && cur[e - 4] == ".git"@[0]);
            assert(s@[e - 3] == cur[e - 3] && cur[e - 3] == ".git"@[1]);
            assert(s@[e - 2] == cur[e - 2] && cur[e - 2] == ".git"@[2]);
            assert(s@[e - 1] == cur[e - 1] && cur[e - 1] == ".git"@[3]);
            assert(false);
        }
        assert(strip_git(cur) == cur);
    }
    e
}

/// Normalizes a remote URL for link building: an SSH-style
/// `git@host:path.git` becomes `https://host/path`; anything else is
/// returned unchanged.
pub fn convert_ssh_to_https(url: &str) -> (r: String)
    ensures
        r@ == spec_https_url(url@),
{
    proof {
        reveal_strlit("git@");
        reveal_strlit("https://");
        reveal_strlit("/");
    }
    let len = url.unicode_len();
    if !str_has_prefix(url, "git@") {
        return url.to_owned();
    }
    // Exactly one `@` may occur.
    let mut count: usize = 0;
    let mut i: usize = 0;
    while i < len
        invariant
            i <= len,
            len == url@.len(),
            count <= i,
            count == count_char(url@.take(i as int), '@'),
        decreases len - i,
    {
        let ghost pre = url@.take(i as int);
        let ghost post = url@.take(i + 1);
        proof {
            assert(post.drop_last() =~= pre);
            assert(post.last() == url@[i as int]);
        }
        if url.get_char(i) == '@' {
            count = count + 1;
        }
        i = i + 1;
    }
    proof {
        assert(url@.take(len as int) =~= url@);
    }
    if count != 1 {
        return url.to_owned();
    }
    // Swap `:` for `/` in everything after `git@`.
    let ghost base = url@.skip(4);
    let mut body = String::new();
    let mut k: usize = 4;
    while k < len
        invariant
            4 <= k <= len,
            len == url@.len(),
            base == url@.skip(4),
            body@ == base.take(k - 4).map_values(|c: char| swap_colon(c)),
        decreases len - k,
    {
        let c = url.get_char(k);
        proof {
            assert(base[k - 4] == url@[k as int]);
        }
        if c == ':' {
            body.append("/");
        } else {
            let piece = url.substring_char(k, k + 1);
            proof {
                assert(piece@ =~= seq![url@[k as int]]);
            }
            body.append(piece);
        }
        proof {
            reveal_strlit("/");
            assert("/"@ =~= seq!['/']);
            assert(body@ =~= base.take(k - 4 + 1).map_values(|c: char| swap_colon(c)));
        }
        k = k + 1;
    }
    proof {
        assert(base.take(base.len() as int) =~= base);
    }
    // Drop every trailing `.git` of the swapped body.
    let e = strip_git_end(body.as_str());
    let mut r = String::new();
    r.append("https://");
    r.append(body.as_str().substring_char(0, e));
    proof {
        assert(r@ == "https://"@ + strip_git(base.map_values(|c: char| swap_colon(c))));
    }
    r
}

} // verus!

verus! {

// ---------------------------------------------------------------------------
// Owner and repository of a normalized URL
// ---------------------------------------------------------------------------

/// The owner and repository a URL addresses: its last two `/`-separated
/// segments, after any trailing `.git` is dropped; nothing when no `/`
/// occurs.
pub open spec fn spec_owner_repo(u: Seq<char>) -> Option<(Seq<char>, Seq<char>)> {
    let t = strip_git(u);
    if crate::text::scan_back_len(t, |c: char| c != '/') < t.len() {
        let j = t.len() - crate::text::scan_back_len(t, |c: char| c != '/') - 1;
        let t2 = t.take(j);
        let j2 = t2.len() - crate::text::scan_back_len(t2, |c: char| c != '/') - 1;
        Some((t.subrange(j2 + 1, j), t.skip(j + 1)))
    } else {
        None
    }
}

/// Splits a repository URL into its owner and repository segments.
pub fn owner_repo_of_url(url: &str) -> (r: Option<(String, String)>)
    ensures
        match r {
            Some(p) => spec_owner_repo(url@) matches Some(q) && p.0@ == q.0 && p.1@ == q.1,
            None => spec_owner_repo(url@) is None,
        },
{
    let e = strip_git_end(url);
    let ghost t = strip_git(url@);
    proof {
        assert(t.len() == e);
        assert(forall|i: int| 0 <= i < e ==> t[i] == url@[i]);
    }
    let mut j: usize = e;
    while j > 0 && url.get_char(j - 1) != '/'
        invariant
            j <= e,
            e <= url@.len(),
            forall|i: int| j <= i < e ==> #[trigger] url@[i] != '/',
        decreases j,
    {
        j = j - 1;
    }
    proof {
        assert forall|i: int| t.len() - (e - j) <= i < t.len() implies #[trigger] t[i]
            != '/' by {
            assert(t[i] == url@[i]);
        }
        if j > 0 {
            assert(t[j - 1] == url@[j - 1]);
        }
        crate::text::lemma_scan_back_len_is(t, |c: char| c != '/', e as int - j as int);
    }
    if j == 0 {
        return None;
    }
    let ghost t2 = t.take(j - 1);
    let mut j2: usize = j - 1;
    while j2 > 0 && url.get_char(j2 - 1) != '/'
        invariant
            j2 <= j - 1,
            j <= e <= url@.len(),
            1 <= j,
            forall|i: int| j2 <= i < j - 1 ==> #[trigger] url@[i] != '/',
        decreases j2,
    {
        j2 = j2 - 1;
    }
    proof {
        assert forall|i: int| t2.len() - (j - 1 - j2) <= i < t2.len() implies #[trigger] t2[i]
            != '/' by {
            assert(t2[i] == url@[i]);
        }
        if j2 > 0 {
            assert(t2[j2 - 1] == url@[j2 - 1]);
        }
        crate::text::lemma_scan_back_len_is(t2, |c: char| c != '/', j as int - 1 - j2 as int);
    }
    let owner = url.substring_char(j2, j - 1).to_owned();
    let repo = url.substring_char(j, e).to_owned();
    proof {
        assert(owner@ =~= t.subrange(j2 as int, j - 1));
        assert(repo@ =~= t.skip(j as int));
    }
    Some((owner, repo))
}

// ---------------------------------------------------------------------------
// The tag message: the newest changelog section
// ---------------------------------------------------------------------------

/// Does the section marker `---` with its newline start at `i`?
pub open spec fn marker_at(s: Seq<char>, i: int) -> bool {
    0 <= i && i + 4 <= s.len() && s.subrange(i, i + 4) == "---\n"@
}

/// The first marker at or after `from`.
pub open spec fn first_marker_from(s: Seq<char>, from: int) -> Option<int>
    decreases s.len() - from,
{
    if from < 0 || from + 4 > s.len() {
        None
    } else if marker_at(s, from) {
        Some(from)
    } else {
        first_marker_from(s, from + 1)
    }
}

proof fn lemma_first_marker_some(s: Seq<char>, from: int, n: int)
    requires
        0 <= from <= n,
        marker_at(s, n),
        forall|j: int| from <= j < n ==> !marker_at(s, j),
    ensures
        first_marker_from(s, from) == Some(n),
    decreases n - from,
{
    if from < n {
        lemma_first_marker_some(s, from + 1, n);
    }
}

proof fn lemma_first_marker_none(s: Seq<char>, from: int)
    requires
        0 <= from,
        forall|j: int| from <= j ==> !marker_at(s, j),
    ensures
        first_marker_from(s, from) is None,
    decreases s.len() - from,
{
    if from + 4 <= s.len() {
        lemma_first_marker_none(s, from + 1);
    }
}

/// Finds the first section marker at or after `from`.
fn find_marker(s: &str, from: usize) -> (r: Option<usize>)
    requires
        from as int <= s@.len(),
    ensures
        match r {
            Some(i) => from <= i && marker_at(s@, i as int) && first_marker_from(
                s@,
                from as int,
            ) == Some(i as int),
            None => first_marker_from(s@, from as int) is None,
        },
{
    let len = s.unicode_len();
    let mut i: usize = from;
    while len >= 4 && i <= len - 4
        invariant
            from <= i,
            i <= len,
            len == s@.len(),
            forall|j: int| from <= j < i ==> !marker_at(s@, j),
        decreases len - i,
    {
        let c0 = s.get_char(i);
        let c1 = s.get_char(i + 1);
        let c2 = s.get_char(i + 2);
        let c3 = s.get_char(i + 3);
        if c0 == '-' && c1 == '-' && c2 == '-' && c3 == '\n' {
            proof {
                reveal_strlit("---\n");
                assert(s@.subrange(i as int, i + 4).len() == 4);
                assert(s@.subrange(i as int, i + 4)[0] == c0);
                assert(s@.subrange(i as int, i + 4)[1] == c1);
                assert(s@.subrange(i as int, i + 4)[2] == c2);
                assert(s@.subrange(i as int, i + 4)[3] == c3);
                assert(s@.subrange(i as int, i + 4) =~= "---\n"@);
                lemma_first_marker_some(s@, from as int, i as int);
            }
            return Some(i);
        }
        proof {
            reveal_strlit("---\n");
            if marker_at(s@, i as int) {
                assert(s@.subrange(i as int, i + 4)[0] == c0);
                assert(s@.subrange(i as int, i + 4)[1] == c1);
                assert(s@.subrange(i as int, i + 4)[2] == c2);
                assert(s@.subrange(i as int, i + 4)[3] == c3);
                assert(false);
            }
        }
        i = i + 1;
    }
    proof {
        assert forall|j: int| from <= j implies !marker_at(s@, j) by {
            if j >= i {
                assert(j + 4 > s@.len());
            }
        }
        lemma_first_marker_none(s@, from as int);
    }
    None
}

/// The text a new tag is annotated with: the newest changelog section, the
/// text between the first two section markers (or after the only one),
/// trimmed; a fixed note when the changelog has no marker at all.
pub fn tag_message_of_changelog(content: &str) -> (r: String)
    ensures
        r@ == (match first_marker_from(content@, 0) {
            None => "No changelog content"@,
            Some(i) => match first_marker_from(content@, i + 4) {
                None => trim_ws(content@.skip(i + 4)),
                Some(j) => trim_ws(content@.subrange(i + 4, j)),
            },
        }),
{
    let len = content.unicode_len();
    match find_marker(content, 0) {
        None => String::from_str("No changelog content"),
        Some(i) => {
            proof {
                assert(marker_at(content@, i as int));
            }
            match find_marker(content, i + 4) {
                None => {
                    let r = trim_ws_str(content.substring_char(i + 4, len));
                    proof {
                        assert(content@.subrange(i + 4, len as int) =~= content@.skip(i + 4));
                    }
                    r
                },
                Some(j) => {
                    proof {
                        assert(marker_at(content@, j as int));
                    }
                    trim_ws_str(content.substring_char(i + 4, j))
                },
            }
        },
    }
}

} // verus!
