use cargo_cooldown::config::{
    default_allowed_registries, normalize_registry_index, parse_bool, parse_registry_list, Config,
    ConfigLayer, Mode,
};

fn env_with_index(value: &str) -> ConfigLayer {
    ConfigLayer { registry_index: Some(value.to_string()), ..ConfigLayer::default() }
}

fn resolve(env: ConfigLayer) -> Config {
    Config::from_layers(&env, &ConfigLayer::default(), &ConfigLayer::default())
}

#[test]
fn default_allowed_registries_include_sparse_and_git() {
    let config = resolve(ConfigLayer::default());
    assert_eq!(config.allowed_registries, default_allowed_registries());
    assert_eq!(
        config.allowed_registries,
        vec![
            "registry+https://github.com/rust-lang/crates.io-index".to_string(),
            "registry+sparse+https://index.crates.io/".to_string(),
        ]
    );
}

#[test]
fn registry_index_normalizes_missing_prefix() {
    let config = resolve(env_with_index("https://example.com/custom-index"));
    assert_eq!(
        config.allowed_registries,
        vec!["registry+https://example.com/custom-index".to_string()]
    );
}

#[test]
fn registry_index_respects_existing_prefix() {
    let config = resolve(env_with_index("registry+https://alt.example.com/index"));
    assert_eq!(
        config.allowed_registries,
        vec!["registry+https://alt.example.com/index".to_string()]
    );
}

#[test]
fn registry_index_supports_comma_separated_list() {
    let config = resolve(env_with_index(
        "registry+sparse+https://index.crates.io/, https://alt.example.com/index",
    ));
    assert_eq!(
        config.allowed_registries,
        vec![
            "registry+sparse+https://index.crates.io/".to_string(),
            "registry+https://alt.example.com/index".to_string(),
        ]
    );
}

#[test]
fn blank_registry_index_yields_defaults() {
    assert!(parse_registry_list("").is_empty());
    assert!(parse_registry_list(" , ,").is_empty());
    assert_eq!(resolve(env_with_index("")).allowed_registries, default_allowed_registries());
    assert_eq!(resolve(env_with_index(" ,, ")).allowed_registries, default_allowed_registries());
}

#[test]
fn normalize_trims_and_prefixes() {
    assert_eq!(normalize_registry_index("  https://a.example/i  "), "registry+https://a.example/i");
    assert_eq!(normalize_registry_index("registry+x"), "registry+x");
    assert_eq!(
        normalize_registry_index("   "),
        "registry+https://github.com/rust-lang/crates.io-index"
    );
    assert_eq!(normalize_registry_index("registry"), "registry+registry");
}

#[test]
fn workspace_layer_settings_apply() {
    let workspace = ConfigLayer {
        cooldown_minutes: Some(15),
        mode: Some("warn".to_string()),
        allowlist_path: Some("/work/allow.toml".to_string()),
        offline_ok: Some(true),
        verbose: Some(true),
        registry_index: Some("https://mirror.example/index".to_string()),
        ..ConfigLayer::default()
    };
    let config = Config::from_layers(&ConfigLayer::default(), &workspace, &ConfigLayer::default());
    assert_eq!(config.cooldown_minutes, 15);
    assert_eq!(config.mode, Mode::Warn);
    assert!(config.allowlist_path.unwrap().ends_with("allow.toml"));
    assert!(config.offline_ok);
    assert!(config.verbose);
    assert_eq!(
        config.allowed_registries,
        vec!["registry+https://mirror.example/index".to_string()]
    );
    assert_eq!(config.ttl_seconds, 86_400);
    assert_eq!(config.http_retries, 2);
    assert_eq!(config.registry_api, "https://crates.io/api/v1/");
}

#[test]
fn home_layer_applies_where_nothing_higher_is_set() {
    let home = ConfigLayer {
        cooldown_minutes: Some(5),
        mode: Some("off".to_string()),
        http_retries: Some(3),
        ttl_seconds: Some(60),
        ..ConfigLayer::default()
    };
    let workspace = ConfigLayer { ttl_seconds: Some(120), ..ConfigLayer::default() };
    let config = Config::from_layers(&ConfigLayer::default(), &workspace, &home);
    assert_eq!(config.cooldown_minutes, 5);
    assert_eq!(config.mode, Mode::Off);
    assert_eq!(config.http_retries, 3);
    assert_eq!(config.ttl_seconds, 120);
}

#[test]
fn environment_layer_wins_over_files() {
    let env = ConfigLayer { cooldown_minutes: Some(10), ..ConfigLayer::default() };
    let workspace = ConfigLayer { cooldown_minutes: Some(30), ..ConfigLayer::default() };
    let home = ConfigLayer { cooldown_minutes: Some(60), ..ConfigLayer::default() };
    assert_eq!(Config::from_layers(&env, &workspace, &home).cooldown_minutes, 10);
    assert_eq!(
        Config::from_layers(&ConfigLayer::default(), &workspace, &home).cooldown_minutes,
        30
    );
    assert_eq!(resolve(ConfigLayer::default()).cooldown_minutes, 0);
}

#[test]
fn out_of_range_retries_fall_through() {
    let env = ConfigLayer { http_retries: Some(9), ..ConfigLayer::default() };
    let workspace = ConfigLayer { http_retries: Some(4), ..ConfigLayer::default() };
    let config = Config::from_layers(&env, &workspace, &ConfigLayer::default());
    assert_eq!(config.http_retries, 4);
    let config = Config::from_layers(&env, &ConfigLayer::default(), &ConfigLayer::default());
    assert_eq!(config.http_retries, 2);
    let env = ConfigLayer { http_retries: Some(8), ..ConfigLayer::default() };
    assert_eq!(resolve(env).http_retries, 8);
}

#[test]
fn empty_paths_count_as_unset() {
    let env = ConfigLayer {
        allowlist_path: Some(String::new()),
        cache_dir: Some(String::new()),
        ..ConfigLayer::default()
    };
    let workspace = ConfigLayer { allowlist_path: Some("/w/a.toml".to_string()), ..ConfigLayer::default() };
    let config = Config::from_layers(&env, &workspace, &ConfigLayer::default());
    assert_eq!(config.allowlist_path, None);
    assert_eq!(config.cache_dir, None);
}

#[test]
fn booleans_and_modes() {
    assert!(parse_bool("1"));
    assert!(parse_bool("true"));
    assert!(parse_bool("TrUe"));
    assert!(!parse_bool("yes"));
    assert!(!parse_bool("0"));
    assert!(!parse_bool(""));
    assert_eq!(Mode::from_env(Some("warn".to_string())), Mode::Warn);
    assert_eq!(Mode::from_env(Some("off".to_string())), Mode::Off);
    assert_eq!(Mode::from_env(Some("enforce".to_string())), Mode::Enforce);
    assert_eq!(Mode::from_env(Some("WARN".to_string())), Mode::Enforce);
    assert_eq!(Mode::from_env(None), Mode::Enforce);
}

#[test]
fn registry_allowed_compares_plain_text() {
    let config = resolve(ConfigLayer::default());
    assert!(config.is_registry_allowed("registry+sparse+https://index.crates.io/"));
    assert!(config.is_registry_allowed("registry+https://github.com/rust-lang/crates.io-index"));
    assert!(!config.is_registry_allowed("git+https://github.com/rust-lang/crates.io-index"));
    assert!(!config.is_registry_allowed("registry+sparse+https://index.crates.io"));
}
