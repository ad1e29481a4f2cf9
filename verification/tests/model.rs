use config_core::model::{
    default_true, default_window_height, default_window_width, Density, Group, OpenOnLaunch,
    Warning,
};

#[test]
fn shared_defaults() {
    assert!(default_true());
    assert_eq!(default_window_width(), 1500);
    assert_eq!(default_window_height(), 1000);
}

#[test]
fn density_default_is_comfortable_and_tokens_are_lowercase() {
    assert_eq!(Density::default(), Density::Comfortable);
    assert_eq!(Density::Comfortable.as_str(), "comfortable");
    assert_eq!(Density::Compact.as_str(), "compact");
    assert_ne!(Density::Comfortable.as_str(), Density::Compact.as_str());
}

#[test]
fn open_on_launch_defaults_to_toggle_false() {
    assert_eq!(OpenOnLaunch::default(), OpenOnLaunch::Toggle(false));
    assert_ne!(OpenOnLaunch::default(), OpenOnLaunch::Toggle(true));
    assert_ne!(OpenOnLaunch::default(), OpenOnLaunch::Tab("Mail".to_string()));
}

#[test]
fn group_and_warning_hold_their_fields() {
    let g = Group { name: "Chat".to_string(), tabs: vec!["Gmail", "Slack"] };
    assert_eq!(g.name, "Chat");
    assert_eq!(g.tabs.len(), 2);
    assert_eq!(g.tabs[0], "Gmail");
    let w = Warning { window: "Comms".to_string(), message: "duplicate url".to_string() };
    assert_eq!(w.clone(), w);
}
