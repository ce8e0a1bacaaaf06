use cargo_cooldown::cli::{
    assemble_cargo_args, engine_enabled, failure_is_fatal, refuses_update, split_features,
    CargoInvocation,
};
use cargo_cooldown::config::{Config, ConfigLayer, Mode};

fn strings(v: &[&str]) -> Vec<String> {
    v.iter().map(|s| s.to_string()).collect()
}

#[test]
fn command_leads_and_rest_follows() {
    let inv = CargoInvocation { cargo_args: strings(&["build", "--release"]), ..CargoInvocation::default() };
    assert_eq!(assemble_cargo_args(&inv), strings(&["build", "--release"]));
}

#[test]
fn manifest_path_is_placed_after_command() {
    let inv = CargoInvocation {
        cargo_args: strings(&["build"]),
        manifest_path: Some("examples/demo/Cargo.toml".to_string()),
        ..CargoInvocation::default()
    };
    assert_eq!(
        assemble_cargo_args(&inv),
        strings(&["build", "--manifest-path", "examples/demo/Cargo.toml"])
    );
}

#[test]
fn selectors_come_in_cargo_order() {
    let inv = CargoInvocation {
        cargo_args: strings(&["test", "--", "--nocapture"]),
        manifest_path: None,
        packages: strings(&["a", "b"]),
        workspace: true,
        all: false,
        exclude: strings(&["c"]),
        all_features: false,
        no_default_features: true,
        features: strings(&["foo bar", "baz,,qux"]),
    };
    assert_eq!(
        assemble_cargo_args(&inv),
        strings(&[
            "test", "--package", "a", "--package", "b", "--workspace", "--exclude", "c",
            "--no-default-features", "--features", "foo,bar,baz,qux", "--", "--nocapture",
        ])
    );
}

#[test]
fn features_split_on_spaces_and_commas() {
    assert_eq!(split_features("foo bar"), strings(&["foo", "bar"]));
    assert_eq!(split_features(" a,,b ,c "), strings(&["a", "b", "c"]));
    assert!(split_features("").is_empty());
}

#[test]
fn update_is_refused() {
    assert!(refuses_update(&strings(&["update"])));
    assert!(refuses_update(&strings(&["update", "-p", "x"])));
    assert!(!refuses_update(&strings(&["build"])));
    assert!(!refuses_update(&vec![]));
}

#[test]
fn engine_runs_only_when_enabled() {
    let on = ConfigLayer { cooldown_minutes: Some(5), ..ConfigLayer::default() };
    let c = Config::from_layers(&on, &ConfigLayer::default(), &ConfigLayer::default());
    assert!(engine_enabled(&c));
    let off = ConfigLayer { cooldown_minutes: Some(5), mode: Some("off".to_string()), ..ConfigLayer::default() };
    let c = Config::from_layers(&off, &ConfigLayer::default(), &ConfigLayer::default());
    assert!(!engine_enabled(&c));
    let zero = Config::from_layers(&ConfigLayer::default(), &ConfigLayer::default(), &ConfigLayer::default());
    assert!(!engine_enabled(&zero));
    assert!(failure_is_fatal(Mode::Enforce));
    assert!(!failure_is_fatal(Mode::Warn));
}
