use pubspec_lsp::versions::is_outdated;

#[test]
fn caret_constraints() {
    assert_eq!(is_outdated(Some("^1.2.0"), "1.6.0"), Some(false));
    assert_eq!(is_outdated(Some("^0.13.0"), "1.6.0"), Some(true));
    assert_eq!(is_outdated(Some("^1.2.0"), "2.0.0"), Some(true));
    // 0.x caret: ^0.1.2 admits 0.1.9 but not 0.2.0
    assert_eq!(is_outdated(Some("^0.1.2"), "0.1.9"), Some(false));
    assert_eq!(is_outdated(Some("^0.1.2"), "0.2.0"), Some(true));
}

#[test]
fn exact_constraints() {
    assert_eq!(is_outdated(Some("1.5.0"), "1.6.0"), Some(true));
    assert_eq!(is_outdated(Some("1.6.0"), "1.6.0"), Some(false));
    assert_eq!(is_outdated(Some("1.6.0+1"), "1.6.0+1"), Some(false));
}

#[test]
fn range_constraints() {
    assert_eq!(is_outdated(Some(">=1.0.0 <2.0.0"), "1.9.0"), Some(false));
    assert_eq!(is_outdated(Some(">=1.0.0 <2.0.0"), "2.1.0"), Some(true));
    assert_eq!(is_outdated(Some(">=0.9.0"), "1.6.0"), Some(false));
}

#[test]
fn unbounded_or_missing_is_never_outdated() {
    assert_eq!(is_outdated(Some("any"), "1.6.0"), None);
    assert_eq!(is_outdated(Some(""), "1.6.0"), None);
    assert_eq!(is_outdated(None, "1.6.0"), None);
}

#[test]
fn unparseable_is_skipped() {
    assert_eq!(is_outdated(Some("banana"), "1.6.0"), None);
    assert_eq!(is_outdated(Some("^1.2.0"), "not-a-version"), None);
}

#[test]
fn constraint_above_latest_is_not_outdated() {
    assert_eq!(is_outdated(Some("^9.0.0"), "1.6.0"), Some(false));
}

#[test]
fn quoted_constraints() {
    assert_eq!(is_outdated(Some("\"^1.2.0\""), "2.0.0"), Some(true));
}

#[test]
fn single_quoted_and_padded_constraints() {
    assert_eq!(is_outdated(Some("  '1.0.0'  "), "1.6.0"), Some(true));
    assert_eq!(is_outdated(Some("\"\""), "1.6.0"), None);
    assert_eq!(is_outdated(Some("' any '"), "1.6.0"), None);
}

#[test]
fn lowest_floor_decides_below_or_above() {
    // Rejected by the range, but one comparator sits below latest.
    assert_eq!(is_outdated(Some(">=2.0.0 <3.0.0"), "1.6.0"), Some(false));
    assert_eq!(is_outdated(Some("<1.0.0"), "1.6.0"), Some(true));
    assert_eq!(is_outdated(Some(">1.0.0 <1.5.0"), "1.6.0"), Some(true));
}

#[test]
fn prerelease_latest_against_exact() {
    assert_eq!(is_outdated(Some("1.6.0"), "1.6.0-beta"), Some(false));
    assert_eq!(is_outdated(Some("1.5.0"), "1.6.0-beta"), Some(true));
}

#[test]
fn quotes_around_a_constraint_do_not_change_the_verdict() {
    for (c, latest) in [("^1.2.0", "2.0.0"), ("^1.2.0", "1.6.0"), ("1.5.0", "1.6.0"), (">=1.0.0 <2.0.0", "2.1.0")] {
        let bare = is_outdated(Some(c), latest);
        assert_eq!(is_outdated(Some(&format!("\"{c}\"")), latest), bare);
        assert_eq!(is_outdated(Some(&format!(" '{c}' ")), latest), bare);
    }
}
