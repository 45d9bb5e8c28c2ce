use rustytag::version::Version;

fn parsed(s: &str) -> Version {
    Version::parse(s).unwrap()
}

#[test]
fn ordering_is_numeric_not_lexicographic() {
    // As strings, "1.10.0" sorts before "1.9.0"; as versions it must not.
    assert!(parsed("v1.9.0").precedes(&parsed("v1.10.0")));
    assert!(!parsed("v1.10.0").precedes(&parsed("v1.9.0")));
}

#[test]
fn ordering_by_component() {
    assert!(parsed("1.0.0").precedes(&parsed("2.0.0")));
    assert!(parsed("2.1.0").precedes(&parsed("2.2.0")));
    assert!(parsed("2.2.1").precedes(&parsed("2.2.2")));
    assert!(!parsed("2.0.0").precedes(&parsed("1.9.9")));
}

#[test]
fn ordering_ignores_prefix_and_suffix() {
    assert!(parsed("v1.0.0").precedes(&parsed("rel-2.0.0")));
    assert!(!parsed("rel-1.0.0").precedes(&parsed("v1.0.0")));
    assert!(!parsed("v1.0.0").precedes(&parsed("rel-1.0.0")));
}

#[test]
fn pre_release_sorts_before_release() {
    assert!(parsed("v1.0.0-1").precedes(&parsed("v1.0.0")));
    assert!(!parsed("v1.0.0").precedes(&parsed("v1.0.0-1")));
}

#[test]
fn numeric_pre_release_identifiers_compare_numerically() {
    // Lexicographically "10" < "2"; numerically 2 < 10.
    assert!(parsed("v1.0.0-2").precedes(&parsed("v1.0.0-10")));
    assert!(!parsed("v1.0.0-10").precedes(&parsed("v1.0.0-2")));
}

#[test]
fn shorter_pre_release_list_sorts_first() {
    assert!(parsed("v1.0.0-1.2").precedes(&parsed("v1.0.0-1.2.3")));
    assert!(!parsed("v1.0.0-1.2.3").precedes(&parsed("v1.0.0-1.2")));
}

#[test]
fn equal_versions_do_not_precede_each_other() {
    assert!(!parsed("v1.2.3").precedes(&parsed("v1.2.3")));
    assert!(!parsed("v1.0.0-1.2").precedes(&parsed("v1.0.0-1.2")));
}

#[test]
fn build_metadata_does_not_order() {
    assert!(!parsed("v1.0.0+1").precedes(&parsed("v1.0.0+2")));
    assert!(!parsed("v1.0.0+2").precedes(&parsed("v1.0.0+1")));
}
