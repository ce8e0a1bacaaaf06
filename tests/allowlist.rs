use cargo_cooldown::allowlist::{AllowExact, AllowGlobal, AllowPackage, AllowSection, Allowlist};

fn sample() -> Allowlist {
    Allowlist {
        allow: AllowSection {
            exact: vec![AllowExact { crate_name: "foo".to_string(), version: "1.2.3".to_string() }],
            package: vec![AllowPackage {
                crate_name: "bar".to_string(),
                minimum_release_age: Some(3),
                minutes: None,
            }],
            global: Some(AllowGlobal { minimum_release_age: None, minutes: Some(5) }),
        },
    }
}

#[test]
fn loads_allowlist_and_respects_exact() {
    let allowlist = sample();
    assert!(allowlist.is_exact_allowed("foo", "1.2.3"));
    assert!(!allowlist.is_exact_allowed("foo", "1.2.4"));

    let per_crate = allowlist.per_crate_minutes();
    let bar = per_crate.iter().find(|(name, _)| name == "bar").map(|(_, m)| *m);
    assert_eq!(bar, Some(3));
    assert_eq!(allowlist.global_minutes(), Some(5));
    assert_eq!(allowlist.effective_minutes_for("bar", 7), 3);
    assert_eq!(allowlist.effective_minutes_for("baz", 7), 5);
}

#[test]
fn release_age_spelling_wins_over_legacy_minutes() {
    let pkg = AllowPackage { crate_name: "x".to_string(), minimum_release_age: Some(4), minutes: Some(9) };
    assert_eq!(pkg.effective_minutes(), Some(4));
    let legacy = AllowPackage { crate_name: "x".to_string(), minimum_release_age: None, minutes: Some(9) };
    assert_eq!(legacy.effective_minutes(), Some(9));
    let global = AllowGlobal { minimum_release_age: Some(1), minutes: Some(2) };
    assert_eq!(global.effective_minutes(), Some(1));
}

#[test]
fn effective_minimum_is_smallest_of_three() {
    let allowlist = sample();
    // default below both the global and the package value
    assert_eq!(allowlist.effective_minutes_for("bar", 2), 2);
    assert_eq!(allowlist.effective_minutes_for("baz", 4), 4);
    // zero disables
    assert_eq!(allowlist.effective_minutes_for("baz", 0), 0);
    let empty = Allowlist::default();
    assert_eq!(empty.effective_minutes_for("anything", 30), 30);
    assert_eq!(empty.global_minutes(), None);
    assert!(empty.per_crate_minutes().is_empty());
}

#[test]
fn first_package_rule_applies_and_rules_without_value_are_skipped() {
    let allowlist = Allowlist {
        allow: AllowSection {
            exact: vec![],
            package: vec![
                AllowPackage { crate_name: "a".to_string(), minimum_release_age: None, minutes: None },
                AllowPackage { crate_name: "b".to_string(), minimum_release_age: None, minutes: Some(6) },
                AllowPackage { crate_name: "b".to_string(), minimum_release_age: Some(1), minutes: None },
            ],
            global: None,
        },
    };
    assert_eq!(allowlist.package_minutes("b"), Some(6));
    assert_eq!(allowlist.package_minutes("a"), None);
    assert_eq!(allowlist.effective_minutes_for("b", 10), 6);
    assert_eq!(
        allowlist.per_crate_minutes(),
        vec![("b".to_string(), 6), ("b".to_string(), 1)]
    );
}
