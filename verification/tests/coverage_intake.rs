use kndo_core::engine::{
    coverage_source, is_stale_report, max_report_age_secs, report_patterns, unreadable_report_message,
    MAX_COVERAGE_AGE_DAYS,
};

fn strings(items: &[&str]) -> Vec<String> {
    items.iter().map(|s| s.to_string()).collect()
}

#[test]
fn configured_report_paths_replace_the_requested_ones() {
    let requested = strings(&["coverage/lcov.info", "lcov.info"]);
    assert_eq!(report_patterns(&[], &requested), requested);
    let configured = strings(&["packages/*/coverage/lcov.info"]);
    assert_eq!(report_patterns(&configured, &requested), configured);
}

#[test]
fn the_default_age_limit_is_a_week() {
    assert_eq!(MAX_COVERAGE_AGE_DAYS, 7);
    assert_eq!(max_report_age_secs(None), 7 * 86_400);
    assert_eq!(max_report_age_secs(Some(60)), 60);
}

#[test]
fn only_a_known_age_past_the_limit_is_stale() {
    assert!(is_stale_report(Some(700_000), 604_800));
    assert!(!is_stale_report(Some(604_800), 604_800));
    assert!(!is_stale_report(None, 0));
}

#[test]
fn an_ingested_report_is_recorded_with_its_age_in_days() {
    assert_eq!(coverage_source("lcov", "coverage/lcov.info", Some(3 * 86_400 + 5)), "lcov coverage/lcov.info (3d old)");
    assert_eq!(coverage_source("lcov", "lcov.info", None), "lcov lcov.info (0d old)");
    assert_eq!(
        unreadable_report_message("lcov.info", "permission denied"),
        "coverage report lcov.info could not be read: permission denied"
    );
}
