use batocera_menu::app::{App, KeyCode};
use batocera_menu::model::Row;

fn toggle_row(key: &str) -> Row {
    Row::Toggle {
        key: key.to_string(),
        prompt: "TOGGLE".to_string(),
        description: None,
        choices: [
            ("Off".to_string(), "off".to_string()),
            ("On".to_string(), "on".to_string()),
        ],
        enabled: true,
    }
}

fn choice_row(key: &str) -> Row {
    Row::Choice {
        key: key.to_string(),
        prompt: "CHOICE".to_string(),
        description: None,
        choices: vec![
            ("A".to_string(), "a".to_string()),
            ("B".to_string(), "b".to_string()),
            ("C".to_string(), "c".to_string()),
        ],
        enabled: true,
    }
}

#[test]
fn space_toggles_enabled_state_of_toggle_row() {
    let root = vec![toggle_row("k")];
    let mut app = App::new(&root);
    assert!(app.is_enabled("k"));

    app.handle_key(KeyCode::Char(' '));
    assert!(!app.is_enabled("k"));

    app.handle_key(KeyCode::Char(' '));
    assert!(app.is_enabled("k"));
}

#[test]
fn space_does_nothing_on_group_header_submenu_or_placeholder_rows() {
    let root = vec![
        Row::GroupHeader {
            title: "G".to_string(),
        },
        Row::Submenu {
            title: "S".to_string(),
            rows: vec![],
        },
        Row::Placeholder {
            label: "L".to_string(),
            note: "n",
            enabled: true,
        },
    ];
    let mut app = App::new(&root);

    for _ in 0..root.len() {
        app.handle_key(KeyCode::Char(' '));
        app.handle_key(KeyCode::Down);
    }

    assert!(app.enabled_diff().is_empty());
}

#[test]
fn space_is_ignored_while_popup_is_open() {
    let root = vec![choice_row("k")];
    let mut app = App::new(&root);
    app.handle_key(KeyCode::Enter);
    assert!(app.popup().is_some());

    app.handle_key(KeyCode::Char(' '));
    assert!(app.is_enabled("k"));
    assert!(app.popup().is_some());
}

#[test]
fn q_at_top_level_with_no_changes_quits_immediately() {
    let root = vec![toggle_row("k")];
    let mut app = App::new(&root);
    app.handle_key(KeyCode::Char('q'));
    assert!(app.should_quit);
    assert!(app.confirm_dialog().is_none());
}

#[test]
fn q_with_pending_changes_opens_confirm_dialog_instead_of_quitting() {
    let root = vec![toggle_row("k")];
    let mut app = App::new(&root);
    app.handle_key(KeyCode::Char(' '));
    app.handle_key(KeyCode::Char('q'));
    assert!(!app.should_quit);
    assert!(app.confirm_dialog().is_some());
}

#[test]
fn confirm_dialog_yes_sets_write_requested_and_quits() {
    let root = vec![toggle_row("k")];
    let mut app = App::new(&root);
    app.handle_key(KeyCode::Char(' '));
    app.handle_key(KeyCode::Char('q'));
    app.handle_key(KeyCode::Enter); // cursor defaults to 0 = save

    assert!(app.should_quit);
    assert!(app.write_requested());
    assert_eq!(app.enabled_diff(), vec![("k".to_string(), false)]);
}

#[test]
fn confirm_dialog_no_discards_and_quits() {
    let root = vec![toggle_row("k")];
    let mut app = App::new(&root);
    app.handle_key(KeyCode::Char(' '));
    app.handle_key(KeyCode::Char('q'));
    app.handle_key(KeyCode::Down); // cursor -> 1 = discard
    app.handle_key(KeyCode::Enter);

    assert!(app.should_quit);
    assert!(!app.write_requested());
}

#[test]
fn confirm_dialog_esc_cancels_and_returns_to_menu() {
    let root = vec![toggle_row("k")];
    let mut app = App::new(&root);
    app.handle_key(KeyCode::Char(' '));
    app.handle_key(KeyCode::Char('q'));
    assert!(app.confirm_dialog().is_some());

    app.handle_key(KeyCode::Esc);
    assert!(app.confirm_dialog().is_none());
    assert!(!app.should_quit);
    // The pending change survived the cancelled dialog.
    assert!(!app.is_enabled("k"));

    app.handle_key(KeyCode::Char('q'));
    assert!(app.confirm_dialog().is_some());
}

#[test]
fn esc_at_submenu_depth_pops_stack_without_confirm_even_with_pending_changes() {
    let sub_rows = vec![toggle_row("k")];
    let root = vec![Row::Submenu {
        title: "SUB".to_string(),
        rows: sub_rows,
    }];
    let mut app = App::new(&root);

    app.handle_key(KeyCode::Enter); // drill into submenu
    app.handle_key(KeyCode::Char(' ')); // toggle the nested row
    assert!(!app.is_enabled("k"));

    app.handle_key(KeyCode::Esc); // pop back to top level
    assert!(!app.should_quit);
    assert!(app.confirm_dialog().is_none());
    assert_eq!(app.current_level().title, "MENU");
}


fn submenu_root() -> Vec<Row> {
    vec![
        Row::Submenu {
            title: "SUB".to_string(),
            rows: vec![toggle_row("k"), choice_row("c")],
        },
        toggle_row("top"),
    ]
}

#[test]
fn new_app_starts_on_top_level_with_first_choices_selected() {
    let root = submenu_root();
    let app = App::new(&root);
    assert_eq!(app.current_level().title, "MENU");
    assert_eq!(app.current_level().cursor, 0);
    assert_eq!(app.breadcrumb(), "MENU");
    assert_eq!(app.selection("k"), Some("off"));
    assert_eq!(app.selection("c"), Some("a"));
    assert_eq!(app.selection("top"), Some("off"));
    assert_eq!(app.selection("missing"), None);
    assert!(app.popup().is_none());
    assert!(app.confirm_dialog().is_none());
    assert!(!app.should_quit);
    assert!(!app.write_requested());
    assert!(app.enabled_diff().is_empty());
}

#[test]
fn unknown_keys_read_as_enabled() {
    let root = vec![toggle_row("k")];
    let app = App::new(&root);
    assert!(app.is_enabled("never-seen"));
}

#[test]
fn baked_disabled_state_is_live_and_not_a_pending_change() {
    let root = vec![Row::Toggle {
        key: "k".to_string(),
        prompt: "TOGGLE".to_string(),
        description: None,
        choices: [
            ("Off".to_string(), "off".to_string()),
            ("On".to_string(), "on".to_string()),
        ],
        enabled: false,
    }];
    let mut app = App::new(&root);
    assert!(!app.is_enabled("k"));
    assert!(app.enabled_diff().is_empty());
    app.handle_key(KeyCode::Char(' '));
    assert!(app.is_enabled("k"));
    assert_eq!(app.enabled_diff(), vec![("k".to_string(), true)]);
}

#[test]
fn enter_twice_on_toggle_switches_value_and_back() {
    let root = vec![toggle_row("k")];
    let mut app = App::new(&root);
    app.handle_key(KeyCode::Enter);
    assert_eq!(app.selection("k"), Some("on"));
    app.handle_key(KeyCode::Enter);
    assert_eq!(app.selection("k"), Some("off"));
}

#[test]
fn choice_popup_opens_on_current_selection_and_enter_selects() {
    let root = vec![choice_row("c")];
    let mut app = App::new(&root);
    app.handle_key(KeyCode::Enter);
    assert_eq!(app.popup().unwrap().cursor, 0);
    assert_eq!(app.popup().unwrap().prompt, "CHOICE");
    assert_eq!(app.popup().unwrap().key, "c");
    app.handle_key(KeyCode::Up);
    assert_eq!(app.popup().unwrap().cursor, 0);
    app.handle_key(KeyCode::Down);
    app.handle_key(KeyCode::Down);
    app.handle_key(KeyCode::Down);
    assert_eq!(app.popup().unwrap().cursor, 2);
    app.handle_key(KeyCode::Enter);
    assert!(app.popup().is_none());
    assert_eq!(app.selection("c"), Some("c"));

    app.handle_key(KeyCode::Enter);
    assert_eq!(app.popup().unwrap().cursor, 2);
    app.handle_key(KeyCode::Enter);
    assert_eq!(app.selection("c"), Some("c"));
}

#[test]
fn choice_popup_esc_keeps_selection() {
    let root = vec![choice_row("c")];
    let mut app = App::new(&root);
    app.handle_key(KeyCode::Enter);
    app.handle_key(KeyCode::Down);
    app.handle_key(KeyCode::Esc);
    assert!(app.popup().is_none());
    assert_eq!(app.selection("c"), Some("a"));
    assert!(!app.should_quit);
}

#[test]
fn popup_takes_q_and_other_keys_without_effect() {
    let root = vec![choice_row("c")];
    let mut app = App::new(&root);
    app.handle_key(KeyCode::Enter);
    app.handle_key(KeyCode::Char('q'));
    app.handle_key(KeyCode::Backspace);
    app.handle_key(KeyCode::Other);
    assert!(!app.should_quit);
    assert!(app.popup().is_some());
    assert_eq!(app.popup().unwrap().cursor, 0);
}

#[test]
fn submenu_enter_then_back_returns_to_parent_screen() {
    let root = submenu_root();
    let mut app = App::new(&root);
    app.handle_key(KeyCode::Enter);
    assert_eq!(app.current_level().title, "SUB");
    assert_eq!(app.breadcrumb(), "MENU > SUB");
    app.handle_key(KeyCode::Down);
    assert_eq!(app.current_level().cursor, 1);
    app.handle_key(KeyCode::Backspace);
    assert_eq!(app.current_level().title, "MENU");
    assert_eq!(app.breadcrumb(), "MENU");
    assert_eq!(app.current_level().cursor, 0);
}

#[test]
fn cursor_stays_within_the_screen() {
    let root = submenu_root();
    let mut app = App::new(&root);
    app.handle_key(KeyCode::Up);
    assert_eq!(app.current_level().cursor, 0);
    app.handle_key(KeyCode::Down);
    app.handle_key(KeyCode::Down);
    app.handle_key(KeyCode::Down);
    assert_eq!(app.current_level().cursor, 1);
}

#[test]
fn space_twice_leaves_no_pending_change_and_q_quits() {
    let root = vec![toggle_row("k")];
    let mut app = App::new(&root);
    app.handle_key(KeyCode::Char(' '));
    app.handle_key(KeyCode::Char(' '));
    assert!(app.enabled_diff().is_empty());
    app.handle_key(KeyCode::Char('q'));
    assert!(app.should_quit);
    assert!(app.confirm_dialog().is_none());
}

#[test]
fn esc_at_top_level_quits_when_nothing_changed() {
    let root = vec![toggle_row("k")];
    let mut app = App::new(&root);
    app.handle_key(KeyCode::Esc);
    assert!(app.should_quit);
    assert!(!app.write_requested());
}

#[test]
fn backspace_at_top_level_with_pending_change_asks_to_confirm() {
    let root = vec![toggle_row("k")];
    let mut app = App::new(&root);
    app.handle_key(KeyCode::Char(' '));
    app.handle_key(KeyCode::Backspace);
    assert!(!app.should_quit);
    assert_eq!(app.confirm_dialog().unwrap().cursor, 0);
    app.handle_key(KeyCode::Down);
    app.handle_key(KeyCode::Down);
    assert_eq!(app.confirm_dialog().unwrap().cursor, 1);
    app.handle_key(KeyCode::Up);
    app.handle_key(KeyCode::Up);
    assert_eq!(app.confirm_dialog().unwrap().cursor, 0);
    app.handle_key(KeyCode::Char(' '));
    assert!(!app.is_enabled("k"));
}

#[test]
fn enabled_diff_lists_changes_in_first_seen_order() {
    let root = vec![toggle_row("a"), toggle_row("b"), toggle_row("c")];
    let mut app = App::new(&root);
    app.handle_key(KeyCode::Down);
    app.handle_key(KeyCode::Down);
    app.handle_key(KeyCode::Char(' '));
    app.handle_key(KeyCode::Up);
    app.handle_key(KeyCode::Up);
    app.handle_key(KeyCode::Char(' '));
    assert_eq!(
        app.enabled_diff(),
        vec![("a".to_string(), false), ("c".to_string(), false)]
    );
}

#[test]
fn should_quit_accessor_follows_the_field() {
    let root = vec![toggle_row("k")];
    let mut app = App::new(&root);
    assert!(!app.should_quit());
    app.handle_key(KeyCode::Char('q'));
    assert!(app.should_quit());
    assert_eq!(app.should_quit(), app.should_quit);
}

#[test]
fn pending_changes_list_each_changed_key_once_with_its_live_state() {
    let root = vec![
        Row::Submenu {
            title: "SUB".to_string(),
            rows: vec![toggle_row("a"), choice_row("b")],
        },
        toggle_row("c"),
    ];
    let mut app = App::new(&root);
    app.handle_key(KeyCode::Enter);
    app.handle_key(KeyCode::Char(' '));
    app.handle_key(KeyCode::Down);
    app.handle_key(KeyCode::Char(' '));
    app.handle_key(KeyCode::Up);
    app.handle_key(KeyCode::Char(' '));
    app.handle_key(KeyCode::Char(' '));
    assert_eq!(
        app.enabled_diff(),
        vec![("a".to_string(), false), ("b".to_string(), false)]
    );
    app.handle_key(KeyCode::Char(' '));
    app.handle_key(KeyCode::Down);
    app.handle_key(KeyCode::Char(' '));
    assert!(app.enabled_diff().is_empty());
    app.handle_key(KeyCode::Esc);
    app.handle_key(KeyCode::Char('q'));
    assert!(app.should_quit);
}
