use rustytag::resolver::{inferred_prefix, resolve_latest, sentinel_version};
use rustytag::version::Version;

fn names(xs: &[&str]) -> Vec<String> {
    xs.iter().map(|s| s.to_string()).collect()
}

#[test]
fn latest_picks_highest_and_ignores_unparsable() {
    let r = resolve_latest(&names(&["v1.0.0", "v2.0.0", "not-a-tag"]));
    assert_eq!(r, Version::parse("v2.0.0").unwrap());
}

#[test]
fn latest_of_empty_list_is_sentinel() {
    let r = resolve_latest(&names(&[]));
    assert_eq!(r, sentinel_version());
    assert_eq!(r.format(), "0.1.0");
}

#[test]
fn latest_of_all_unparsable_is_sentinel() {
    let r = resolve_latest(&names(&["alpha", "beta", "no-digits-here"]));
    assert_eq!(r, sentinel_version());
}

#[test]
fn latest_is_numeric_over_many() {
    let r = resolve_latest(&names(&["v1.9.0", "v1.10.0", "v1.2.3", "junk"]));
    assert_eq!(r.format(), "v1.10.0");
}

#[test]
fn latest_keeps_first_of_equal_cores() {
    // "v1.0.0" and "rel-1.0.0" share one core; the earlier name wins.
    let r = resolve_latest(&names(&["v1.0.0", "rel-1.0.0"]));
    assert_eq!(r.prefix, "v");
    let r = resolve_latest(&names(&["rel-1.0.0", "v1.0.0"]));
    assert_eq!(r.prefix, "rel-");
}

#[test]
fn prefix_inferred_only_when_unconfigured() {
    let v = Version::parse("v1.0.0").unwrap();
    assert_eq!(inferred_prefix(&v, &None), Some("v".to_string()));
    assert_eq!(inferred_prefix(&v, &Some("rel-".to_string())), None);
    let bare = Version::parse("1.0.0").unwrap();
    assert_eq!(inferred_prefix(&bare, &None), None);
}
