use cargo_cooldown::registry::{cache_entry_fresh, retry_after_failure, VersionMeta};
use cargo_cooldown::resolver::{filter_candidates, parse_blockers, Candidate};
use chrono::{TimeZone, Utc};

fn micros(y: i32, mo: u32, d: u32, h: u32, mi: u32) -> i64 {
    Utc.with_ymd_and_hms(y, mo, d, h, mi, 0).unwrap().timestamp_micros()
}

fn meta(num: &str, created_at: i64, yanked: bool) -> VersionMeta {
    VersionMeta { created_at, yanked, num: num.to_string() }
}

fn listed(c: &Candidate) -> VersionMeta {
    VersionMeta { created_at: c.created_at, yanked: false, num: c.version.clone() }
}

#[test]
fn filters_fresh_versions() {
    let now = micros(2024, 10, 1, 0, 0);
    let versions = vec![
        meta("1.2.3", micros(2024, 9, 30, 23, 50), false),
        meta("1.2.2", micros(2024, 9, 30, 22, 0), false),
        meta("1.2.1", micros(2024, 9, 30, 20, 0), true),
    ];
    let candidates = filter_candidates(versions, 30, now);
    assert_eq!(candidates.len(), 1);
    assert_eq!(candidates[0].version, "1.2.2");
}

#[test]
fn candidates_come_newest_first_and_ties_keep_order() {
    let now = micros(2024, 10, 1, 0, 0);
    let versions = vec![
        meta("1.0.0", micros(2024, 1, 1, 0, 0), false),
        meta("1.2.0", micros(2024, 6, 1, 0, 0), false),
        meta("1.1.0", micros(2024, 3, 1, 0, 0), false),
        meta("1.1.1", micros(2024, 3, 1, 0, 0), false),
    ];
    let got: Vec<String> = filter_candidates(versions, 0, now).into_iter().map(|c| c.version).collect();
    assert_eq!(got, vec!["1.2.0", "1.1.0", "1.1.1", "1.0.0"]);
}

#[test]
fn age_boundary_is_inclusive() {
    let now = micros(2024, 10, 1, 0, 0);
    let exactly = now - 30 * 60_000_000;
    let versions = vec![meta("a", exactly, false), meta("b", exactly + 1, false)];
    let got = filter_candidates(versions, 30, now);
    assert_eq!(got.len(), 1);
    assert_eq!(got[0].version, "a");
    assert!(filter_candidates(vec![], 30, now).is_empty());
    // an enormous minimum leaves nothing, without overflow
    assert!(filter_candidates(vec![meta("a", 0, false)], u64::MAX, now).is_empty());
}

#[test]
fn filtering_twice_changes_nothing() {
    let now = micros(2024, 10, 1, 0, 0);
    let versions = vec![
        meta("1.2.3", micros(2024, 9, 30, 23, 50), false),
        meta("1.2.2", micros(2024, 9, 30, 22, 0), false),
        meta("1.1.0", micros(2024, 8, 30, 22, 0), false),
        meta("1.2.1", micros(2024, 9, 30, 20, 0), true),
    ];
    let once = filter_candidates(versions, 30, now);
    let again = filter_candidates(once.iter().map(listed).collect(), 30, now);
    let a: Vec<(String, i64)> = once.iter().map(|c| (c.version.clone(), c.created_at)).collect();
    let b: Vec<(String, i64)> = again.iter().map(|c| (c.version.clone(), c.created_at)).collect();
    assert_eq!(a, b);
    assert_eq!(a.len(), 2);
}

#[test]
fn blockers_are_read_from_both_streams() {
    let stdout = "    Updating crates.io index\n";
    let stderr = "error: failed to select a version\n  required by package `foo v2.0.0`\n    ... which satisfies dependency\n  required by package `bar 1.0.0`\nrequired by package `foo v2.0.0`\n";
    let bs = parse_blockers(stdout, stderr);
    assert_eq!(bs.len(), 2);
    assert_eq!(bs[0].name, "foo");
    assert_eq!(bs[0].version.as_deref(), Some("2.0.0"));
    assert_eq!(bs[1].name, "bar");
    assert_eq!(bs[1].version.as_deref(), Some("1.0.0"));
}

#[test]
fn blockers_without_version_and_odd_lines() {
    let out = "required by package `solo`\r\nrequired by package `solo`\nrequired by package `unterminated 1.0\nnot required by package `x 1.0.0`\n";
    let bs = parse_blockers(out, "");
    assert_eq!(bs.len(), 1);
    assert_eq!(bs[0].name, "solo");
    assert_eq!(bs[0].version, None);
    assert!(parse_blockers("", "").is_empty());
    let spaced = parse_blockers("required by package `my crate v1.2.3`", "");
    assert_eq!(spaced[0].name, "my crate");
    assert_eq!(spaced[0].version.as_deref(), Some("1.2.3"));
}

#[test]
fn retries_back_off_linearly_then_stop() {
    assert_eq!(retry_after_failure(1, 2), Some(200));
    assert_eq!(retry_after_failure(2, 2), Some(400));
    assert_eq!(retry_after_failure(3, 2), None);
    assert_eq!(retry_after_failure(1, 0), None);
}

#[test]
fn cache_entries_expire_after_ttl() {
    assert!(cache_entry_fresh(1_000, 1_060, 60));
    assert!(!cache_entry_fresh(1_000, 1_061, 60));
    assert!(cache_entry_fresh(1_000, 900, 0));
}
