use batocera_menu::model::Row;
use batocera_menu::tree::{format_choices, render_rows};

fn choices(labels: &[&str]) -> Vec<(String, String)> {
    labels
        .iter()
        .map(|l| (l.to_string(), l.to_lowercase()))
        .collect()
}

fn strip_ansi(s: &str) -> String {
    let mut out = String::new();
    let mut in_escape = false;
    for ch in s.chars() {
        if ch == '\u{1b}' {
            in_escape = true;
        } else if in_escape {
            if ch == 'm' {
                in_escape = false;
            }
        } else {
            out.push(ch);
        }
    }
    out
}

#[test]
fn format_choices_brackets_only_the_first() {
    let c = choices(&["Off", "On"]);
    let s = strip_ansi(&format_choices(&c));
    assert_eq!(s, "[Off] / On");
}

#[test]
fn format_choices_joins_multiple() {
    let c = choices(&["Auto", "1x", "2x", "4x"]);
    let s = strip_ansi(&format_choices(&c));
    assert_eq!(s, "[Auto] / 1x / 2x / 4x");
}

#[test]
fn tree_structure_uses_connectors_headers_and_nesting() {
    let rows = vec![
        Row::GroupHeader {
            title: "ADVANCED".to_string(),
        },
        Row::Submenu {
            title: "TIMING".to_string(),
            rows: vec![Row::Toggle {
                key: "k".to_string(),
                prompt: "FRAMESKIP".to_string(),
                description: None,
                choices: [
                    ("Off".to_string(), "off".to_string()),
                    ("On".to_string(), "on".to_string()),
                ],
                enabled: true,
            }],
        },
        Row::Placeholder {
            label: "SLIDER".to_string(),
            note: "(preset-based option, not shown)",
            enabled: true,
        },
    ];

    let out = strip_ansi(&render_rows(&rows, ""));
    let lines: Vec<&str> = out.lines().collect();

    assert_eq!(lines[0], "├── ── ADVANCED ──");
    assert_eq!(lines[1], "├── TIMING >");
    assert_eq!(lines[2], "│   └── FRAMESKIP  [Off] / On");
    assert_eq!(lines[3], "└── SLIDER (preset-based option, not shown)");
}

#[test]
fn disabled_toggle_row_renders_as_flat_grey_line_without_green_bracket() {
    let rows = vec![Row::Toggle {
        key: "k".to_string(),
        prompt: "FRAMESKIP".to_string(),
        description: None,
        choices: [
            ("Off".to_string(), "off".to_string()),
            ("On".to_string(), "on".to_string()),
        ],
        enabled: false,
    }];

    let raw = render_rows(&rows, "");
    // The whole line should carry exactly one style span (grey), not a
    // green bracket around the default choice.
    assert!(!raw.contains("[Off]"));
    let stripped = strip_ansi(&raw);
    assert_eq!(stripped, "└── FRAMESKIP  Off / On\n");
}

#[test]
fn last_row_uses_corner_connector() {
    let rows = vec![
        Row::Placeholder {
            label: "A".to_string(),
            note: "n",
            enabled: true,
        },
        Row::Placeholder {
            label: "B".to_string(),
            note: "n",
            enabled: true,
        },
    ];
    let out = strip_ansi(&render_rows(&rows, ""));
    let lines: Vec<&str> = out.lines().collect();
    assert!(lines[0].starts_with("├── "));
    assert!(lines[1].starts_with("└── "));
}


#[test]
fn no_rows_render_as_nothing() {
    assert_eq!(render_rows(&[], ""), "");
    assert_eq!(render_rows(&[], "│   "), "");
}

#[test]
fn nested_rows_carry_the_prefix_and_choice_rows_list_every_label() {
    let rows = vec![
        Row::Submenu {
            title: "OUTER".to_string(),
            rows: vec![
                Row::Choice {
                    key: "scale".to_string(),
                    prompt: "SCALE".to_string(),
                    description: None,
                    choices: choices(&["Auto", "2x", "4x"]),
                    enabled: true,
                },
                Row::Submenu {
                    title: "INNER".to_string(),
                    rows: vec![Row::Placeholder {
                        label: "P".to_string(),
                        note: "n",
                        enabled: true,
                    }],
                },
            ],
        },
        Row::Placeholder {
            label: "LAST".to_string(),
            note: "n",
            enabled: true,
        },
    ];
    let out = strip_ansi(&render_rows(&rows, "> "));
    assert_eq!(
        out,
        "> ├── OUTER >\n\
         > │   ├── SCALE  [Auto] / 2x / 4x\n\
         > │   └── INNER >\n\
         > │       └── P n\n\
         > └── LAST n\n"
    );
}

#[test]
fn format_choices_of_nothing_is_empty() {
    assert_eq!(strip_ansi(&format_choices(&[])), "");
}

#[test]
fn styled_rows_carry_escape_sequences() {
    let submenu = vec![Row::Submenu {
        title: "S".to_string(),
        rows: vec![],
    }];
    let header = vec![Row::GroupHeader {
        title: "G".to_string(),
    }];
    let placeholder = vec![Row::Placeholder {
        label: "P".to_string(),
        note: "n",
        enabled: true,
    }];
    let disabled = vec![Row::Choice {
        key: "c".to_string(),
        prompt: "C".to_string(),
        description: None,
        choices: choices(&["A", "B", "C"]),
        enabled: false,
    }];
    for (rows, shown) in [
        (&submenu, "└── S >\n"),
        (&header, "└── ── G ──\n"),
        (&placeholder, "└── P n\n"),
        (&disabled, "└── C  A / B / C\n"),
    ] {
        let raw = render_rows(rows, "");
        assert!(raw.contains('\u{1b}'));
        assert_eq!(strip_ansi(&raw), shown);
    }
    let dim = render_rows(&placeholder, "");
    assert_eq!(dim, "└── \u{1b}[2mP n\u{1b}[0m\n");
    assert!(format_choices(&choices(&["X"])).contains('\u{1b}'));
}

#[test]
fn disabled_row_is_one_dark_grey_span_around_prompt_and_labels() {
    let rows = vec![Row::Toggle {
        key: "k".to_string(),
        prompt: "FRAMESKIP".to_string(),
        description: None,
        choices: [
            ("Off".to_string(), "off".to_string()),
            ("On".to_string(), "on".to_string()),
        ],
        enabled: false,
    }];
    let raw = render_rows(&rows, "");
    let coloured = "└── \u{1b}[38;5;8mFRAMESKIP  Off / On\u{1b}[39m\n";
    let no_color = "└── \u{1b}[mFRAMESKIP  Off / On\u{1b}[m\n";
    assert!(raw == coloured || raw == no_color || raw == "└── \n");
}
