use pubspec_lsp::pubdev::{disk_list_age, name_list_is_fresh, NAME_LIST_TTL_SECS};

#[test]
fn name_list_is_fresh_for_eight_hours() {
    assert!(name_list_is_fresh(0));
    assert!(name_list_is_fresh(8 * 60 * 60 - 1));
    assert!(!name_list_is_fresh(8 * 60 * 60));
    assert!(!name_list_is_fresh(u64::MAX));
}

#[test]
fn disk_list_age_is_capped_at_twice_the_ttl() {
    assert_eq!(disk_list_age(10), 10);
    assert_eq!(disk_list_age(NAME_LIST_TTL_SECS), NAME_LIST_TTL_SECS);
    assert_eq!(disk_list_age(2 * NAME_LIST_TTL_SECS - 1), 2 * NAME_LIST_TTL_SECS - 1);
    assert_eq!(disk_list_age(2 * NAME_LIST_TTL_SECS), 2 * NAME_LIST_TTL_SECS);
    assert_eq!(disk_list_age(u64::MAX), 2 * NAME_LIST_TTL_SECS);
    // A stale copy stays stale once backdated.
    assert!(!name_list_is_fresh(disk_list_age(NAME_LIST_TTL_SECS + 5)));
}

use pubspec_lsp::pubdev::{names_after_disk, names_after_fetch, names_plan, NamesPlan};

#[test]
fn names_plan_serves_fresh_memory_refreshes_stale_and_reads_disk_first() {
    assert_eq!(names_plan(Some(10)), NamesPlan::ServeMemory);
    assert_eq!(names_plan(Some(NAME_LIST_TTL_SECS)), NamesPlan::Fetch);
    assert_eq!(names_plan(None), NamesPlan::ReadDisk);
}

#[test]
fn disk_copy_is_served_only_when_fresh() {
    assert!(names_after_disk(Some(60)));
    assert!(!names_after_disk(Some(NAME_LIST_TTL_SECS + 1)));
    assert!(!names_after_disk(None));
}

#[test]
fn a_failed_fetch_serves_the_held_list() {
    let held = vec!["http".to_string()];
    let fresh = vec!["dio".to_string(), "http".to_string()];
    assert_eq!(names_after_fetch(Some(fresh.clone()), Some(held.clone())), Some(fresh.clone()));
    assert_eq!(names_after_fetch(Some(fresh.clone()), None), Some(fresh));
    assert_eq!(names_after_fetch(None, Some(held.clone())), Some(held));
    assert_eq!(names_after_fetch(None, None), None);
}
