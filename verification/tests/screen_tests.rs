use batocera_menu::app::{App, KeyCode};
use batocera_menu::model::Row;
use batocera_menu::screen::{focused_description, row_item, RowLine};

fn toggle_row(key: &str, prompt: &str, description: Option<&str>) -> Row {
    Row::Toggle {
        key: key.to_string(),
        prompt: prompt.to_string(),
        description: description.map(|d| d.to_string()),
        choices: [
            ("Off".to_string(), "off".to_string()),
            ("On".to_string(), "on".to_string()),
        ],
        enabled: true,
    }
}

fn pad40(s: &str) -> String {
    format!("{:<40}", s)
}

#[test]
fn setting_row_pads_prompt_and_brackets_selection() {
    let root = vec![toggle_row("k", "SMOOTH", None)];
    let app = App::new(&root);
    assert_eq!(
        row_item(&root[0], &app),
        RowLine::Setting(format!("{} ", pad40("SMOOTH")), "[off]".to_string())
    );
}

#[test]
fn long_prompt_is_not_cut_or_padded() {
    let long = "A PROMPT THAT IS LONGER THAN FORTY CHARACTERS IN ALL";
    let root = vec![toggle_row("k", long, None)];
    let app = App::new(&root);
    assert_eq!(
        row_item(&root[0], &app),
        RowLine::Setting(format!("{long} "), "[off]".to_string())
    );
}

#[test]
fn disabled_row_is_one_grey_line() {
    let root = vec![toggle_row("k", "SMOOTH", None)];
    let mut app = App::new(&root);
    app.handle_key(KeyCode::Enter);
    app.handle_key(KeyCode::Char(' '));
    assert_eq!(
        row_item(&root[0], &app),
        RowLine::Greyed(format!("{} [on]", pad40("SMOOTH")))
    );
}

#[test]
fn other_rows_show_their_titles() {
    let root = vec![
        Row::Submenu {
            title: "VIDEO".to_string(),
            rows: vec![],
        },
        Row::GroupHeader {
            title: "ADVANCED".to_string(),
        },
        Row::Placeholder {
            label: "SHADERS".to_string(),
            note: "(shared feature, defined elsewhere)",
            enabled: true,
        },
    ];
    let app = App::new(&root);
    assert_eq!(row_item(&root[0], &app), RowLine::Link("VIDEO >".to_string()));
    assert_eq!(
        row_item(&root[1], &app),
        RowLine::Header("── ADVANCED ──".to_string())
    );
    assert_eq!(
        row_item(&root[2], &app),
        RowLine::Note("SHADERS (shared feature, defined elsewhere)".to_string())
    );
}

#[test]
fn description_panel_follows_the_focus() {
    let root = vec![
        toggle_row("a", "A", Some("first row")),
        toggle_row("b", "B", None),
        Row::Placeholder {
            label: "P".to_string(),
            note: "(preset-based option, not shown)",
            enabled: true,
        },
    ];
    let mut app = App::new(&root);
    assert_eq!(focused_description(&app), "first row");
    app.handle_key(KeyCode::Down);
    assert_eq!(focused_description(&app), "");
    app.handle_key(KeyCode::Down);
    assert_eq!(focused_description(&app), "(preset-based option, not shown)");
}

#[test]
fn description_of_an_empty_screen_is_empty() {
    let root = vec![Row::Submenu {
        title: "EMPTY".to_string(),
        rows: vec![],
    }];
    let mut app = App::new(&root);
    app.handle_key(KeyCode::Enter);
    assert_eq!(app.current_level().title, "EMPTY");
    assert_eq!(focused_description(&app), "");
}
