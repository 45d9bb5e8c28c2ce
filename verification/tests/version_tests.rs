use rustytag::version::{BumpType, Version, VersionError};

fn parsed(s: &str) -> Version {
    Version::parse(s).unwrap()
}

#[test]
fn parse_decomposes_plain_tag() {
    let v = parsed("v1.2.3");
    assert_eq!(v.prefix, "v");
    assert_eq!(v.major, 1);
    assert_eq!(v.minor, 2);
    assert_eq!(v.patch, 3);
    assert_eq!(v.pre, None);
    assert_eq!(v.build, None);
    assert_eq!(v.suffix, "");
}

#[test]
fn parse_takes_maximal_digit_free_prefix() {
    let v = parsed("release-2.10.7");
    assert_eq!(v.prefix, "release-");
    assert_eq!(v.major, 2);
    assert_eq!(v.minor, 10);
    assert_eq!(v.patch, 7);
}

#[test]
fn parse_splits_pre_release_and_build() {
    let v = parsed("app-2.3.4-5.6+7-8.9");
    assert_eq!(v.prefix, "app-");
    assert_eq!(v.major, 2);
    assert_eq!(v.minor, 3);
    assert_eq!(v.patch, 4);
    assert_eq!(v.pre.as_deref(), Some("5.6"));
    assert_eq!(v.build.as_deref(), Some("7-8.9"));
}

#[test]
fn parse_keeps_suffix_after_core_run() {
    let v = parsed("v1.2.3_final");
    assert_eq!(v.prefix, "v");
    assert_eq!(v.suffix, "_final");
}

#[test]
fn parse_handles_non_ascii_decoration() {
    let v = parsed("版本1.2.3好");
    assert_eq!(v.prefix, "版本");
    assert_eq!(v.suffix, "好");
    assert_eq!(v.major, 1);
}

#[test]
fn parse_accepts_largest_component() {
    let v = parsed("18446744073709551615.0.0");
    assert_eq!(v.major, u64::MAX);
}

#[test]
fn parse_rejects_missing_core() {
    assert_eq!(Version::parse("abc"), Err(VersionError::InvalidVersion));
    assert_eq!(Version::parse("v"), Err(VersionError::InvalidVersion));
    assert_eq!(Version::parse(""), Err(VersionError::InvalidVersion));
}

#[test]
fn parse_rejects_wrong_component_count() {
    assert_eq!(Version::parse("v1.2"), Err(VersionError::InvalidVersion));
    assert_eq!(Version::parse("v1.2.3.4"), Err(VersionError::InvalidVersion));
}

#[test]
fn parse_rejects_leading_zero() {
    assert_eq!(Version::parse("v01.2.3"), Err(VersionError::InvalidVersion));
    assert_eq!(Version::parse("v1.02.3"), Err(VersionError::InvalidVersion));
}

#[test]
fn parse_rejects_empty_pre_release_and_build() {
    assert_eq!(Version::parse("v1.2.3-"), Err(VersionError::InvalidVersion));
    assert_eq!(Version::parse("v1.2.3+"), Err(VersionError::InvalidVersion));
}

#[test]
fn parse_rejects_core_cut_short_by_letters() {
    // The core span stops before the first letter, leaving `1.2.3-`,
    // which is no valid semantic version.
    assert_eq!(Version::parse("v1.2.3-rc"), Err(VersionError::InvalidVersion));
}

#[test]
fn parse_rejects_numeric_overflow() {
    assert_eq!(
        Version::parse("18446744073709551616.0.0"),
        Err(VersionError::InvalidVersion)
    );
}

#[test]
fn format_restores_parsed_text() {
    for s in [
        "v1.2.3",
        "release-2.10.7",
        "app-2.3.4-5.6+7-8.9",
        "v1.2.3_final",
        "版本1.2.3好",
        "0.1.0",
        "v10.20.30-0.1+44",
    ] {
        assert_eq!(parsed(s).format(), s);
    }
}

#[test]
fn bump_patch_minor_major() {
    let v = parsed("v1.2.3");
    assert_eq!(v.bump(BumpType::Patch), parsed("v1.2.4"));
    assert_eq!(v.bump(BumpType::Minor), parsed("v1.3.0"));
    assert_eq!(v.bump(BumpType::Major), parsed("v2.0.0"));
}

#[test]
fn bump_strips_pre_release_and_build() {
    let v = parsed("v1.2.3-4+5");
    assert_eq!(v.bump(BumpType::Patch), parsed("v1.2.4"));
}

#[test]
fn bump_keeps_prefix_and_suffix() {
    let v = parsed("rel-1.2.3_x");
    let b = v.bump(BumpType::Minor);
    assert_eq!(b.prefix, "rel-");
    assert_eq!(b.suffix, "_x");
    assert_eq!(b.format(), "rel-1.3.0_x");
}

#[test]
fn new_and_with_prefix_render() {
    let v = Version::new(1, 2, 3);
    assert_eq!(v.format(), "1.2.3");
    let v = Version::new(0, 1, 0).with_prefix(String::from("v"));
    assert_eq!(v.format(), "v0.1.0");
}
