use rustytag::reset::plan_reset;

fn names(xs: &[&str]) -> Vec<String> {
    xs.iter().map(|s| s.to_string()).collect()
}

/// Applies a reset plan to a store state the way the driver does: every
/// deletion first, then every creation.
fn apply(initial: &[&str], plan: &rustytag::reset::ResetPlan) -> Vec<String> {
    let mut store = names(initial);
    for t in &plan.to_delete {
        store.retain(|x| x != t);
    }
    for t in &plan.to_create {
        if !store.contains(t) {
            store.push(t.clone());
        }
    }
    store
}

#[test]
fn reset_mirrors_remote_exactly() {
    let plan = plan_reset(&names(&["a", "b"]), &names(&["b", "c"]));
    assert_eq!(plan.to_delete, names(&["a", "b"]));
    assert_eq!(plan.to_create, names(&["b", "c"]));
    let end = apply(&["a", "b"], &plan);
    assert_eq!(end, names(&["b", "c"]));
}

#[test]
fn reset_of_empty_remote_clears_the_store() {
    let plan = plan_reset(&names(&["x"]), &names(&[]));
    let end = apply(&["x"], &plan);
    assert!(end.is_empty());
}

#[test]
fn reset_recreates_everything_on_an_empty_store() {
    let plan = plan_reset(&names(&[]), &names(&["v1.0.0", "v2.0.0"]));
    let end = apply(&[], &plan);
    assert_eq!(end, names(&["v1.0.0", "v2.0.0"]));
}
