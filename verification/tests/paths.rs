use config_core::paths::{config_path_for_home, default_config_path, resolve_config_path};

#[test]
fn env_override_wins_when_set_and_non_empty() {
    assert_eq!(resolve_config_path(Some("/tmp/explicit.toml"), "demo"), "/tmp/explicit.toml");
}

#[test]
fn set_but_empty_env_falls_through_to_the_default() {
    assert_eq!(resolve_config_path(Some(""), "demo"), default_config_path("demo"));
}

#[test]
fn unset_env_falls_through_to_the_default() {
    assert_eq!(resolve_config_path(None, "demo"), default_config_path("demo"));
}

#[test]
fn default_is_dot_config_not_macos_application_support() {
    let p = default_config_path("demo");
    assert!(p.ends_with(".config/demo/config.toml"), "{}", p);
    assert!(!p.contains("Application Support"));
}

#[test]
fn config_path_for_a_given_home() {
    assert_eq!(config_path_for_home(Some("/home/u"), "warden"), "/home/u/.config/warden/config.toml");
    assert_eq!(config_path_for_home(Some("/home/u/"), "warden"), "/home/u/.config/warden/config.toml");
    assert_eq!(config_path_for_home(None, "lector"), "./.config/lector/config.toml");
}
