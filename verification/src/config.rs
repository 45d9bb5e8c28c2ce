//! Configuration values and the rule that routes a `KEY=VALUE` assignment to
//! one of the closed set of typed settings. Reading and writing the files
//! that hold these values is the embedding application's business.

use vstd::prelude::*;

use crate::text::{scan_len, str_eq, lemma_scan_len_is};

verus! {

/// The user-wide settings: the access token for the release API.
#[derive(Debug, Clone)]
pub struct GlobalConfig {
    pub github_token: Option<String>,
}

/// The per-repository settings: the tag prefix this project uses.
#[derive(Debug, Clone)]
pub struct LocalConfig {
    pub version_prefix: Option<String>,
}

impl Default for GlobalConfig {
    fn default() -> (c: GlobalConfig)
        ensures
            c.github_token is None,
    {
        GlobalConfig { github_token: None }
    }
}

impl Default for LocalConfig {
    fn default() -> (c: LocalConfig)
        ensures
            c.version_prefix is None,
    {
        LocalConfig { version_prefix: None }
    }
}

impl LocalConfig {
    /// Where the per-repository settings live, relative to the repository.
    pub fn config_path() -> (p: String)
        ensures
            p@ == ".rustytag.json"@,
    {
        String::from_str(".rustytag.json")
    }
}

/// One typed configuration assignment, resolved once at the boundary.
#[derive(Debug, Clone, PartialEq, Eq)]
pub enum ConfigAction {
    SetGithubToken(String),
    SetVersionPrefix(String),
}

/// Why an assignment was refused.
#[derive(Copy, Clone, PartialEq, Eq, Structural, Debug)]
pub enum ConfigError {
    /// Not of the shape `KEY=VALUE` with exactly one `=`.
    InvalidFormat,
    /// Neither scope was named and the key is not one of the known settings.
    UnknownKey,
    /// The key does not belong to the scope that was named.
    InvalidCombination,
}

/// Splits `KEY=VALUE` at its only `=`; any other shape is refused.
pub open spec fn spec_split_kv(s: Seq<char>) -> Option<(Seq<char>, Seq<char>)> {
    let e = scan_len(s, |c: char| c != '=');
    if e < s.len() && scan_len(s.skip(e + 1), |c: char| c != '=') == s.len() - e - 1 {
        Some((s.take(e), s.skip(e + 1)))
    } else {
        None
    }
}

/// Does the key select the user-wide scope when no scope flag is given?
pub open spec fn key_is_token(k: Seq<char>) -> bool {
    k == "GITHUB_TOKEN"@
}

/// Does the key select the per-repository scope when no scope flag is given?
pub open spec fn key_is_prefix(k: Seq<char>) -> bool {
    k == "VERSION_PREFIX"@
}

/// The scope an assignment lands in: the flags when one is given, else the
/// scope the key itself names.
pub open spec fn effective_global(k: Seq<char>, global: bool, local: bool) -> bool {
    if !global && !local { key_is_token(k) } else { global }
}

pub open spec fn effective_local(k: Seq<char>, global: bool, local: bool) -> bool {
    if !global && !local { key_is_prefix(k) } else { local }
}

/// Routes one `KEY=VALUE` assignment: `GITHUB_TOKEN` to the user-wide
/// settings, `VERSION_PREFIX` to the per-repository settings. With no scope
/// flag the key picks its own scope; with a flag the key must belong to it.
pub fn resolve_config_setting(set_str: &str, global: bool, local: bool) -> (r: Result<
    ConfigAction,
    ConfigError,
>)
    ensures
        match r {
            Ok(a) => spec_split_kv(set_str@) matches Some(kv) && match a {
                ConfigAction::SetGithubToken(v) => key_is_token(kv.0) && effective_global(
                    kv.0,
                    global,
                    local,
                ) && v@ == kv.1,
                ConfigAction::SetVersionPrefix(v) => key_is_prefix(kv.0) && !(key_is_token(kv.0)
                    && effective_global(kv.0, global, local)) && effective_local(
                    kv.0,
                    global,
                    local,
                ) && v@ == kv.1,
            },
            Err(ConfigError::InvalidFormat) => spec_split_kv(set_str@) is None,
            Err(ConfigError::UnknownKey) => spec_split_kv(set_str@) matches Some(kv) && !global
                && !local && !key_is_token(kv.0) && !key_is_prefix(kv.0),
            Err(ConfigError::InvalidCombination) => spec_split_kv(set_str@) matches Some(kv)
                && (global || local) && !(key_is_token(kv.0) && effective_global(
                kv.0,
                global,
                local,
            )) && !(key_is_prefix(kv.0) && effective_local(kv.0, global, local)),
        },
{
    proof {
        reveal_strlit("GITHUB_TOKEN");
        reveal_strlit("VERSION_PREFIX");
    }
    let len = set_str.unicode_len();
    // The position of the first `=`.
    let mut e: usize = 0;
    while e < len && set_str.get_char(e) != '='
        invariant
            e <= len,
            len == set_str@.len(),
            forall|j: int| 0 <= j < e ==> #[trigger] set_str@[j] != '=',
        decreases len - e,
    {
        e = e + 1;
    }
    proof {
        lemma_scan_len_is(set_str@, |c: char| c != '=', e as int);
    }
    if e == len {
        return Err(ConfigError::InvalidFormat);
    }
    // No second `=` may follow.
    let mut f: usize = e + 1;
    while f < len && set_str.get_char(f) != '='
        invariant
            e + 1 <= f <= len,
            len == set_str@.len(),
            forall|j: int| e + 1 <= j < f ==> #[trigger] set_str@[j] != '=',
        decreases len - f,
    {
        f = f + 1;
    }
    let ghost tail = set_str@.skip(e + 1);
    proof {
        assert forall|j: int| 0 <= j < f - e - 1 implies #[trigger] tail[j] != '=' by {
            assert(tail[j] == set_str@[e + 1 + j]);
        }
        if f < len {
            assert(tail[f - e - 1] == set_str@[f as int]);
        }
        lemma_scan_len_is(tail, |c: char| c != '=', f as int - e as int - 1);
    }
    if f < len {
        return Err(ConfigError::InvalidFormat);
    }
    let key = set_str.substring_char(0, e);
    let value = set_str.substring_char(e + 1, len);
    proof {
        assert(key@ =~= set_str@.take(e as int));
        assert(value@ =~= set_str@.skip(e + 1));
        assert(spec_split_kv(set_str@) == Some((key@, value@)));
    }
    let is_token = str_eq(key, "GITHUB_TOKEN");
    let is_prefix = str_eq(key, "VERSION_PREFIX");
    if !global && !local && !is_token && !is_prefix {
        return Err(ConfigError::UnknownKey);
    }
    let eff_global = if !global && !local { is_token } else { global };
    let eff_local = if !global && !local { is_prefix } else { local };
    if is_token && eff_global {
        Ok(ConfigAction::SetGithubToken(value.to_owned()))
    } else if is_prefix && eff_local {
        Ok(ConfigAction::SetVersionPrefix(value.to_owned()))
    } else {
        Err(ConfigError::InvalidCombination)
    }
}

} // verus!
