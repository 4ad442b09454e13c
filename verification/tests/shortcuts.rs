use wavalyze::shortcuts::{
    ShortcutAction, ShortcutBinding, ShortcutConfig, ShortcutScope, legacy_fill_screen_height_binding,
    legacy_zoom_to_selection_binding,
};

#[test]
fn default_config_has_global_and_one_hand_bindings() {
    let config = ShortcutConfig::default();

    assert_eq!(config.bindings.len(), ShortcutAction::ALL.len() * ShortcutScope::ALL.len());
}

#[test]
fn normalize_falls_back_to_default_for_invalid_key() {
    let mut config = ShortcutConfig {
        bindings: vec![ShortcutBinding {
            action: ShortcutAction::ZoomToSelection,
            scope: ShortcutScope::Global,
            key: "NotAKey".into(),
            command: true,
            ctrl: false,
            shift: false,
            alt: false,
        }],
    };

    config.normalize();

    assert_eq!(config.bindings.len(), 8);
    assert_eq!(
        config.bindings[0],
        ShortcutConfig::default_binding_for(ShortcutAction::ZoomToSelection, ShortcutScope::Global)
    );
}

#[test]
fn normalize_keeps_first_valid_binding_per_action_and_scope() {
    let mut config = ShortcutConfig {
        bindings: vec![
            ShortcutBinding::new(ShortcutAction::ZoomToFull, "1").with_scope(ShortcutScope::Global).with_command(),
            ShortcutBinding::new(ShortcutAction::ZoomToFull, "2").with_scope(ShortcutScope::Global).with_command(),
        ],
    };

    config.normalize();

    assert_eq!(
        config.bindings[2],
        ShortcutBinding::new(ShortcutAction::ZoomToFull, "1").with_scope(ShortcutScope::Global).with_command()
    );
}

#[test]
fn default_global_bindings_match_expected() {
    assert_eq!(
        ShortcutConfig::default_binding_for(ShortcutAction::ZoomToSelection, ShortcutScope::Global),
        ShortcutBinding::new(ShortcutAction::ZoomToSelection, "L")
            .with_scope(ShortcutScope::Global)
            .with_command()
            .with_shift()
    );
    assert_eq!(
        ShortcutConfig::default_binding_for(ShortcutAction::FillScreenHeight, ShortcutScope::Global),
        ShortcutBinding::new(ShortcutAction::FillScreenHeight, "H")
            .with_scope(ShortcutScope::Global)
            .with_command()
            .with_shift()
    );
}

#[test]
fn default_one_hand_bindings_match_expected() {
    assert_eq!(
        ShortcutConfig::default_binding_for(ShortcutAction::ZoomToSelection, ShortcutScope::OneHand),
        ShortcutBinding::new(ShortcutAction::ZoomToSelection, "S").with_scope(ShortcutScope::OneHand)
    );
    assert_eq!(
        ShortcutConfig::default_binding_for(ShortcutAction::ZoomToFull, ShortcutScope::OneHand),
        ShortcutBinding::new(ShortcutAction::ZoomToFull, "R").with_scope(ShortcutScope::OneHand)
    );
}

#[test]
fn normalize_migrates_legacy_zoom_to_selection_bindings() {
    let mut config = ShortcutConfig {
        bindings: vec![
            ShortcutBinding::new(ShortcutAction::ZoomToSelection, "X")
                .with_scope(ShortcutScope::Global)
                .with_command()
                .with_shift(),
        ],
    };

    config.normalize();

    assert_eq!(
        config.bindings[0],
        ShortcutConfig::default_binding_for(ShortcutAction::ZoomToSelection, ShortcutScope::Global)
    );
}

#[test]
fn normalize_migrates_legacy_fill_screen_height_binding() {
    let mut config = ShortcutConfig {
        bindings: vec![
            ShortcutBinding::new(ShortcutAction::FillScreenHeight, "F")
                .with_scope(ShortcutScope::Global)
                .with_command()
                .with_shift(),
        ],
    };

    config.normalize();

    assert_eq!(
        config.bindings[4],
        ShortcutConfig::default_binding_for(ShortcutAction::FillScreenHeight, ShortcutScope::Global)
    );
}

#[test]
fn labels_name_actions_and_scopes() {
    assert_eq!(ShortcutAction::ZoomToSelection.label(), "Zoom To Selection");
    assert_eq!(ShortcutAction::ZoomToFull.label(), "Reset X Zoom");
    assert_eq!(ShortcutScope::Global.label(), "Modifier shortcuts");
    assert_eq!(ShortcutScope::OneHand.label(), "One-hand shortcuts");
}

#[test]
fn specificity_counts_modifiers() {
    let b = ShortcutBinding::new(ShortcutAction::ZoomToFull, "A");
    assert_eq!(b.specificity(), 0);
    assert_eq!(b.clone().with_command().with_shift().specificity(), 2);
}

#[test]
fn key_names_are_checked_against_the_key_table() {
    assert!(ShortcutBinding::new(ShortcutAction::ZoomToFull, "A").has_valid_key());
    assert!(ShortcutBinding::new(ShortcutAction::ZoomToFull, " A ").has_valid_key());
    assert!(!ShortcutBinding::new(ShortcutAction::ZoomToFull, "NotAKey").has_valid_key());
}

#[test]
fn normalize_keeps_padded_valid_keys_and_is_idempotent() {
    let mut config = ShortcutConfig {
        bindings: vec![ShortcutBinding::new(ShortcutAction::RecenterYAll, " Q ").with_scope(ShortcutScope::OneHand)],
    };
    config.normalize();
    assert_eq!(config.bindings[7], ShortcutBinding::new(ShortcutAction::RecenterYAll, " Q ").with_scope(ShortcutScope::OneHand));
    let once = config.clone();
    config.normalize();
    assert_eq!(config, once);
}

#[test]
fn default_config_is_already_normalized() {
    let mut config = ShortcutConfig::default();
    let before = config.clone();
    config.normalize();
    assert_eq!(config, before);
}

#[test]
fn legacy_bindings_are_command_shift_globals() {
    let b = legacy_zoom_to_selection_binding("X");
    assert_eq!(b.action, ShortcutAction::ZoomToSelection);
    assert_eq!(b.scope, ShortcutScope::Global);
    assert!(b.command && b.shift && !b.ctrl && !b.alt);
    assert_eq!(b.key, "X");
    let f = legacy_fill_screen_height_binding("F");
    assert_eq!(f.action, ShortcutAction::FillScreenHeight);
    assert_eq!(f.key, "F");
}

#[test]
fn keys_are_trimmed_of_unicode_white_space() {
    assert!(ShortcutBinding::new(ShortcutAction::ZoomToFull, "\u{3000}A\t\n").has_valid_key());
    assert!(!ShortcutBinding::new(ShortcutAction::ZoomToFull, "\u{3000}").has_valid_key());
}
