use rustytag::plan::{compute_sync_plan, tag_name_of_ref, tag_names_of_refs};

fn names(xs: &[&str]) -> Vec<String> {
    xs.iter().map(|s| s.to_string()).collect()
}

#[test]
fn diff_partitions_two_sets() {
    let plan = compute_sync_plan(&names(&["a", "b"]), &names(&["b", "c"]));
    assert_eq!(plan.to_push, names(&["a"]));
    assert_eq!(plan.to_pull, names(&["c"]));
    assert_eq!(plan.in_sync, names(&["b"]));
    assert_eq!(plan.all_tags, names(&["a", "b", "c"]));
    assert!(!plan.is_synced());
}

#[test]
fn diff_of_equal_sets_is_synced() {
    let plan = compute_sync_plan(&names(&["x", "y"]), &names(&["y", "x"]));
    assert!(plan.to_push.is_empty());
    assert!(plan.to_pull.is_empty());
    assert_eq!(plan.in_sync, names(&["x", "y"]));
    assert_eq!(plan.all_tags, names(&["x", "y"]));
    assert!(plan.is_synced());
}

#[test]
fn diff_of_empty_sets() {
    let plan = compute_sync_plan(&names(&[]), &names(&[]));
    assert!(plan.all_tags.is_empty());
    assert!(plan.is_synced());
}

#[test]
fn diff_against_empty_remote_pushes_everything() {
    let plan = compute_sync_plan(&names(&["v1.0.0", "v0.9.0"]), &names(&[]));
    assert_eq!(plan.to_push, names(&["v1.0.0", "v0.9.0"]));
    assert!(plan.to_pull.is_empty());
    assert!(plan.in_sync.is_empty());
    assert_eq!(plan.all_tags, names(&["v0.9.0", "v1.0.0"]));
}

#[test]
fn all_tags_are_sorted_and_unique() {
    let plan = compute_sync_plan(
        &names(&["v1.10.0", "v1.2.0"]),
        &names(&["v1.2.0", "a", "z"]),
    );
    // Presentation order is plain string order, not version order.
    assert_eq!(plan.all_tags, names(&["a", "v1.10.0", "v1.2.0", "z"]));
}

#[test]
fn ref_listing_yields_tag_names() {
    assert_eq!(
        tag_name_of_ref("refs/tags/v1.0.0"),
        Some("v1.0.0".to_string())
    );
    assert_eq!(tag_name_of_ref("refs/tags/v1.0.0^{}"), None);
    assert_eq!(tag_name_of_ref("refs/heads/main"), None);
}

#[test]
fn ref_listing_filters_in_order() {
    let refs = names(&[
        "refs/tags/v1.0.0",
        "refs/tags/v1.0.0^{}",
        "refs/heads/main",
        "refs/tags/v2.0.0",
    ]);
    assert_eq!(tag_names_of_refs(&refs), names(&["v1.0.0", "v2.0.0"]));
}
