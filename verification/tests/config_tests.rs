use rustytag::config::{
    resolve_config_setting, ConfigAction, ConfigError, GlobalConfig, LocalConfig,
};

#[test]
fn keys_pick_their_own_scope() {
    assert_eq!(
        resolve_config_setting("GITHUB_TOKEN=abc123", false, false),
        Ok(ConfigAction::SetGithubToken("abc123".to_string()))
    );
    assert_eq!(
        resolve_config_setting("VERSION_PREFIX=v", false, false),
        Ok(ConfigAction::SetVersionPrefix("v".to_string()))
    );
}

#[test]
fn unknown_key_without_scope_flag() {
    assert_eq!(
        resolve_config_setting("SOMETHING=1", false, false),
        Err(ConfigError::UnknownKey)
    );
}

#[test]
fn malformed_assignments() {
    assert_eq!(
        resolve_config_setting("GITHUB_TOKEN", false, false),
        Err(ConfigError::InvalidFormat)
    );
    assert_eq!(
        resolve_config_setting("A=B=C", false, false),
        Err(ConfigError::InvalidFormat)
    );
    assert_eq!(
        resolve_config_setting("", false, false),
        Err(ConfigError::InvalidFormat)
    );
}

#[test]
fn scope_flags_must_match_the_key() {
    assert_eq!(
        resolve_config_setting("GITHUB_TOKEN=x", true, false),
        Ok(ConfigAction::SetGithubToken("x".to_string()))
    );
    assert_eq!(
        resolve_config_setting("VERSION_PREFIX=v", false, true),
        Ok(ConfigAction::SetVersionPrefix("v".to_string()))
    );
    assert_eq!(
        resolve_config_setting("VERSION_PREFIX=v", true, false),
        Err(ConfigError::InvalidCombination)
    );
    assert_eq!(
        resolve_config_setting("GITHUB_TOKEN=x", false, true),
        Err(ConfigError::InvalidCombination)
    );
    assert_eq!(
        resolve_config_setting("SOMETHING=1", true, false),
        Err(ConfigError::InvalidCombination)
    );
}

#[test]
fn empty_values_are_allowed() {
    assert_eq!(
        resolve_config_setting("GITHUB_TOKEN=", false, false),
        Ok(ConfigAction::SetGithubToken(String::new()))
    );
}

#[test]
fn config_path_and_defaults() {
    assert_eq!(LocalConfig::config_path(), ".rustytag.json");
    assert!(GlobalConfig::default().github_token.is_none());
    assert!(LocalConfig::default().version_prefix.is_none());
}
