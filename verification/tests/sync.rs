use renderer::sync::{contains_id, plan_sync, skybox_needs_update};

#[test]
fn plan_drops_stale_and_creates_missing() {
    let plan = plan_sync(&[1, 2, 3], &[3, 4, 4, 5]);
    assert_eq!(plan.remove, vec![1, 2]);
    assert_eq!(plan.create, vec![4, 5]);
}

#[test]
fn plan_for_a_cache_in_step_is_empty() {
    let plan = plan_sync(&[7, 8], &[8, 7]);
    assert!(plan.remove.is_empty());
    assert!(plan.create.is_empty());
}

#[test]
fn applying_a_plan_reaches_the_target() {
    let current = vec![1u64, 2, 3, 9];
    let target = vec![2u64, 6, 9, 6];
    let plan = plan_sync(&current, &target);
    let mut cache: Vec<u64> = current.iter().copied().filter(|x| !plan.remove.contains(x)).collect();
    cache.extend(plan.create.iter().copied());
    for x in 0..12u64 {
        assert_eq!(cache.contains(&x), target.contains(&x));
    }
}

#[test]
fn ids_are_looked_up() {
    assert!(contains_id(&[4, 5], 5));
    assert!(!contains_id(&[4, 5], 6));
    assert!(!contains_id(&[], 0));
}

#[test]
fn skybox_rebuilds_only_on_change() {
    assert!(skybox_needs_update(2, 1));
    assert!(!skybox_needs_update(3, 3));
}
