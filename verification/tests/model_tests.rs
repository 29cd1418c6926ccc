use batocera_menu::model::{
    build_menu, scalar_label, yaml_scalar_to_string, CoreYml, CustomFeature, Row, ScalarText,
};
use batocera_menu::strmap::StrMap;
use indexmap::IndexMap;
use serde_yaml::Value;

fn text_field(m: &serde_yaml::Mapping, name: &str) -> Option<String> {
    m.get(name).and_then(|v| v.as_str()).map(|s| s.to_string())
}

/// A core yml read from its text, field by field as the format defines it.
fn parse(yaml: &str) -> CoreYml {
    let v: Value = serde_yaml::from_str(yaml).expect("valid yaml");
    let shared_features = v
        .get("shared_features")
        .and_then(|s| s.as_sequence())
        .map(|s| s.iter().map(|x| x.as_str().unwrap().to_string()).collect())
        .unwrap_or_default();
    let mut custom_features = IndexMap::new();
    if let Some(m) = v.get("custom_features").and_then(|m| m.as_mapping()) {
        for (k, f) in m {
            let f = f.as_mapping().expect("a feature is a mapping");
            let mut choices = IndexMap::new();
            if let Some(c) = f.get("choices").and_then(|c| c.as_mapping()) {
                for (label, value) in c {
                    choices.insert(label.clone(), value.clone());
                }
            }
            custom_features.insert(
                k.as_str().unwrap().to_string(),
                CustomFeature {
                    group: text_field(f, "group"),
                    submenu: text_field(f, "submenu"),
                    prompt: text_field(f, "prompt").expect("prompt"),
                    description: text_field(f, "description"),
                    choices,
                },
            );
        }
    }
    CoreYml {
        shared_features,
        custom_features,
    }
}

#[test]
fn preserves_custom_feature_order() {
    let core = parse(
        r#"
custom_features:
  zeta:
    prompt: ZETA
    choices:
      'Off': disabled
      'On': enabled
  alpha:
    prompt: ALPHA
    choices:
      'Off': disabled
      'On': enabled
"#,
    );
    let rows = build_menu(&core, &StrMap::new());
    assert_eq!(rows[0].prompt(), "ZETA");
    assert_eq!(rows[1].prompt(), "ALPHA");
}

#[test]
fn preserves_choice_order() {
    let core = parse(
        r#"
custom_features:
  res:
    prompt: RES
    choices:
      1x: one
      2x: two
      4x: four
"#,
    );
    let rows = build_menu(&core, &StrMap::new());
    match &rows[0] {
        Row::Choice { choices, .. } => {
            assert_eq!(choices[0].0, "1x");
            assert_eq!(choices[1].0, "2x");
            assert_eq!(choices[2].0, "4x");
        }
        _ => panic!("expected Choice row"),
    }
}

#[test]
fn group_creates_header_and_clusters_rows() {
    let core = parse(
        r#"
custom_features:
  a:
    group: ADVANCED
    prompt: A
    choices:
      'Off': disabled
      'On': enabled
  b:
    group: ADVANCED
    prompt: B
    choices:
      'Off': disabled
      'On': enabled
"#,
    );
    let rows = build_menu(&core, &StrMap::new());
    assert_eq!(rows.len(), 3);
    match &rows[0] {
        Row::GroupHeader { title } => assert_eq!(title, "ADVANCED"),
        _ => panic!("expected GroupHeader row"),
    }
    assert_eq!(rows[1].prompt(), "A");
    assert_eq!(rows[2].prompt(), "B");
}

#[test]
fn group_order_is_first_seen_and_independent_of_submenu_order() {
    let core = parse(
        r#"
custom_features:
  a:
    group: BETA
    submenu: SUBX
    prompt: A
    choices:
      'Off': disabled
      'On': enabled
  b:
    group: ALPHA
    submenu: SUBY
    prompt: B
    choices:
      'Off': disabled
      'On': enabled
  c:
    group: BETA
    submenu: SUBY
    prompt: C
    choices:
      'Off': disabled
      'On': enabled
"#,
    );
    let rows = build_menu(&core, &StrMap::new());
    assert_eq!(rows.len(), 5);

    match &rows[0] {
        Row::GroupHeader { title } => assert_eq!(title, "BETA"),
        _ => panic!("expected GroupHeader row"),
    }
    match &rows[1] {
        Row::Submenu { title, rows } => {
            assert_eq!(title, "SUBX");
            assert_eq!(rows[0].prompt(), "A");
        }
        _ => panic!("expected Submenu row"),
    }
    match &rows[2] {
        Row::Submenu { title, rows } => {
            assert_eq!(title, "SUBY");
            assert_eq!(rows[0].prompt(), "C");
        }
        _ => panic!("expected Submenu row"),
    }
    match &rows[3] {
        Row::GroupHeader { title } => assert_eq!(title, "ALPHA"),
        _ => panic!("expected GroupHeader row"),
    }
    match &rows[4] {
        Row::Submenu { title, rows } => {
            assert_eq!(title, "SUBY");
            assert_eq!(rows[0].prompt(), "B");
        }
        _ => panic!("expected Submenu row"),
    }
}

#[test]
fn group_and_submenu_combine_into_nested_submenu_under_header() {
    let core = parse(
        r#"
custom_features:
  a:
    group: ADVANCED
    submenu: TIMING
    prompt: A
    choices:
      'Off': disabled
      'On': enabled
  b:
    group: ADVANCED
    submenu: TIMING
    prompt: B
    choices:
      'Off': disabled
      'On': enabled
"#,
    );
    let rows = build_menu(&core, &StrMap::new());
    assert_eq!(rows.len(), 2);
    match &rows[0] {
        Row::GroupHeader { title } => assert_eq!(title, "ADVANCED"),
        _ => panic!("expected GroupHeader row"),
    }
    match &rows[1] {
        Row::Submenu { title, rows } => {
            assert_eq!(title, "TIMING");
            assert_eq!(rows.len(), 2);
            assert_eq!(rows[0].prompt(), "A");
            assert_eq!(rows[1].prompt(), "B");
        }
        _ => panic!("expected Submenu row"),
    }
}

#[test]
fn ungrouped_feature_unaffected_by_sibling_group() {
    let core = parse(
        r#"
custom_features:
  plain:
    prompt: PLAIN
    choices:
      'Off': disabled
      'On': enabled
  grouped:
    group: ADVANCED
    prompt: GROUPED
    choices:
      'Off': disabled
      'On': enabled
"#,
    );
    let rows = build_menu(&core, &StrMap::new());
    assert_eq!(rows.len(), 3);
    assert_eq!(rows[0].prompt(), "PLAIN");
    match &rows[1] {
        Row::GroupHeader { title } => assert_eq!(title, "ADVANCED"),
        _ => panic!("expected GroupHeader row"),
    }
    assert_eq!(rows[2].prompt(), "GROUPED");
}

#[test]
fn shared_features_remain_trailing_placeholders_with_groups_and_submenus() {
    let core = parse(
        r#"
shared_features:
  - autosave
  - use_guns
custom_features:
  a:
    group: ADVANCED
    submenu: TIMING
    prompt: A
    choices:
      'Off': disabled
      'On': enabled
"#,
    );
    let rows = build_menu(&core, &StrMap::new());
    assert_eq!(rows.len(), 4);
    assert!(matches!(rows[0], Row::GroupHeader { .. }));
    assert!(matches!(rows[1], Row::Submenu { .. }));
    assert_eq!(rows[2].prompt(), "autosave");
    assert_eq!(rows[3].prompt(), "use_guns");
    assert!(matches!(rows[2], Row::Placeholder { .. }));
    assert!(matches!(rows[3], Row::Placeholder { .. }));
}

#[test]
fn two_choices_is_toggle_three_plus_is_choice() {
    let core = parse(
        r#"
custom_features:
  t:
    prompt: T
    choices:
      'Off': disabled
      'On': enabled
  c:
    prompt: C
    choices:
      A: a
      B: b
      C: c
"#,
    );
    let rows = build_menu(&core, &StrMap::new());
    assert!(matches!(rows[0], Row::Toggle { .. }));
    assert!(matches!(rows[1], Row::Choice { .. }));
}

#[test]
fn zero_choices_becomes_placeholder() {
    let core = parse(
        r#"
custom_features:
  slider:
    prompt: SLIDER
    preset: something
"#,
    );
    let rows = build_menu(&core, &StrMap::new());
    assert!(matches!(rows[0], Row::Placeholder { .. }));
}

#[test]
fn missing_description_is_none() {
    let core = parse(
        r#"
custom_features:
  a:
    prompt: A
    choices:
      'Off': disabled
      'On': enabled
"#,
    );
    let rows = build_menu(&core, &StrMap::new());
    assert_eq!(rows[0].description(), None);
}

#[test]
fn shared_features_become_trailing_placeholders() {
    let core = parse(
        r#"
shared_features:
  - autosave
  - use_guns
custom_features:
  a:
    prompt: A
    choices:
      'Off': disabled
      'On': enabled
"#,
    );
    let rows = build_menu(&core, &StrMap::new());
    assert_eq!(rows.len(), 3);
    assert_eq!(rows[1].prompt(), "autosave");
    assert_eq!(rows[2].prompt(), "use_guns");
    assert!(matches!(rows[1], Row::Placeholder { .. }));
}

#[test]
fn unquoted_scalars_are_coerced_and_reproduced_not_hidden() {
    // A choice author forgetting to quote a label/value that looks
    // like a number or bool is a real authoring bug in these yml
    // files. serde_yaml resolves such bare scalars to Number/Bool
    // (not YAML-1.1 extras like sexagesimal `16:9` or `on`/`off`,
    // which this parser does not implement) — the tool should show
    // the resolved value, not paper over it.
    let core = parse(
        r#"
custom_features:
  numeric:
    prompt: NUMERIC
    choices:
      Auto: auto
      100: 100
      200: 200
  boolflag:
    prompt: BOOLFLAG
    choices:
      'Off': false
      'On': true
"#,
    );
    let rows = build_menu(&core, &StrMap::new());
    match &rows[0] {
        Row::Choice { choices, .. } => {
            assert_eq!(choices[0], ("Auto".to_string(), "auto".to_string()));
            assert_eq!(choices[1], ("100".to_string(), "100".to_string()));
            assert_eq!(choices[2], ("200".to_string(), "200".to_string()));
        }
        _ => panic!("expected Choice row"),
    }
    match &rows[1] {
        Row::Toggle { choices, .. } => {
            assert_eq!(choices[0], ("Off".to_string(), "false".to_string()));
            assert_eq!(choices[1], ("On".to_string(), "true".to_string()));
        }
        _ => panic!("expected Toggle row"),
    }
}

#[test]
fn enabled_override_marks_toggle_row_disabled() {
    let core = parse(
        r#"
custom_features:
  a:
    prompt: A
    choices:
      'Off': disabled
      'On': enabled
"#,
    );
    let mut overrides = StrMap::new();
    overrides.insert("a".to_string(), false);
    let rows = build_menu(&core, &overrides);
    assert!(!rows[0].enabled());
}

#[test]
fn missing_key_in_overrides_defaults_to_enabled() {
    let core = parse(
        r#"
custom_features:
  a:
    prompt: A
    choices:
      'Off': disabled
      'On': enabled
"#,
    );
    let rows = build_menu(&core, &StrMap::new());
    assert!(rows[0].enabled());
    assert_eq!(rows[0].key(), Some("a"));
}

#[test]
fn enabled_override_applies_to_choice_and_placeholder_rows() {
    let core = parse(
        r#"
custom_features:
  c:
    prompt: C
    choices:
      A: a
      B: b
      C: c
  p:
    prompt: P
    preset: something
"#,
    );
    let mut overrides = StrMap::new();
    overrides.insert("c".to_string(), false);
    overrides.insert("p".to_string(), false);
    let rows = build_menu(&core, &overrides);

    assert!(matches!(rows[0], Row::Choice { .. }));
    assert!(!rows[0].enabled());
    assert!(matches!(rows[1], Row::Placeholder { .. }));
    assert!(!rows[1].enabled());
    // Placeholder rows aren't backed by a toggleable key.
    assert_eq!(rows[1].key(), None);
}

#[test]
fn shared_feature_placeholders_are_always_enabled() {
    let core = parse(
        r#"
shared_features:
  - autosave
"#,
    );
    let rows = build_menu(&core, &StrMap::new());
    assert!(rows[0].enabled());
}


#[test]
fn yaml_scalars_show_as_they_resolved() {
    assert_eq!(yaml_scalar_to_string(&Value::String("x y".to_string())), "x y");
    assert_eq!(yaml_scalar_to_string(&Value::Number(42.into())), "42");
    assert_eq!(yaml_scalar_to_string(&Value::Number((-7).into())), "-7");
    assert_eq!(yaml_scalar_to_string(&Value::Number(1.5.into())), "1.5");
    assert_eq!(yaml_scalar_to_string(&Value::Bool(true)), "true");
    assert_eq!(yaml_scalar_to_string(&Value::Bool(false)), "false");
    assert_eq!(yaml_scalar_to_string(&Value::Null), "~");
    let seq = Value::Sequence(vec![
        Value::String("a".to_string()),
        Value::String("b".to_string()),
    ]);
    assert_eq!(yaml_scalar_to_string(&seq), "- a\n- b");
}

#[test]
fn scalar_labels_of_each_kind() {
    assert_eq!(scalar_label(ScalarText::Str(" keep ".to_string())), " keep ");
    assert_eq!(scalar_label(ScalarText::Num("3".to_string())), "3");
    assert_eq!(scalar_label(ScalarText::Bool(true)), "true");
    assert_eq!(scalar_label(ScalarText::Null), "~");
    assert_eq!(
        scalar_label(ScalarText::Other(Some("  {a: 1}\n".to_string()))),
        "{a: 1}"
    );
    assert_eq!(scalar_label(ScalarText::Other(None)), "");
}

#[test]
fn row_accessors_report_each_kind() {
    let rows = build_menu(
        &parse(
            r#"
custom_features:
  alpha:
    prompt: ALPHA
    description: the first
    choices:
      'Off': disabled
      'On': enabled
  beta:
    prompt: BETA
    submenu: MORE
    choices:
      'A': a
      'B': b
      'C': c
shared_features:
  - shaders
"#,
        ),
        &StrMap::new(),
    );
    assert_eq!(rows.len(), 3);
    assert_eq!(rows[0].prompt(), "ALPHA");
    assert_eq!(rows[0].description(), Some("the first"));
    assert_eq!(rows[0].key(), Some("alpha"));
    assert!(rows[0].enabled());
    assert_eq!(rows[1].prompt(), "MORE");
    assert_eq!(rows[1].description(), None);
    assert_eq!(rows[1].key(), None);
    assert!(rows[1].enabled());
    match &rows[1] {
        Row::Submenu { rows: sub, .. } => {
            assert_eq!(sub.len(), 1);
            assert_eq!(sub[0].key(), Some("beta"));
        }
        _ => panic!("expected a submenu"),
    }
    assert_eq!(rows[2].prompt(), "shaders");
    assert_eq!(
        rows[2].description(),
        Some("(shared feature, defined elsewhere)")
    );
    assert_eq!(rows[2].key(), None);
}

#[test]
fn submenus_under_groups_hold_no_headers() {
    let rows = build_menu(
        &parse(
            r#"
custom_features:
  a:
    prompt: A
    group: G
    submenu: S
    choices:
      'X': x
  b:
    prompt: B
    group: G
    submenu: S
    choices:
      'Y': y
"#,
        ),
        &StrMap::new(),
    );
    assert_eq!(rows.len(), 2);
    assert!(matches!(rows[0], Row::GroupHeader { .. }));
    match &rows[1] {
        Row::Submenu { title, rows: sub } => {
            assert_eq!(title, "S");
            assert_eq!(sub.len(), 2);
            assert!(sub.iter().all(|r| matches!(r, Row::Choice { .. })));
        }
        _ => panic!("expected a submenu"),
    }
}

#[test]
fn two_flag_maps_give_menus_differing_only_in_flags() {
    let core = parse(
        r#"
custom_features:
  a:
    prompt: A
    submenu: S
    choices:
      'Off': disabled
      'On': enabled
  b:
    prompt: B
    group: G
  c:
    prompt: C
    choices:
      'X': x
shared_features:
  - shaders
"#,
    );
    let mut off = StrMap::new();
    off.insert("a".to_string(), false);
    off.insert("b".to_string(), false);
    off.insert("c".to_string(), false);
    let on = build_menu(&core, &StrMap::new());
    let offs = build_menu(&core, &off);
    assert_eq!(on.len(), offs.len());
    let flags = |rows: &[Row]| -> Vec<(String, bool)> {
        let mut out = Vec::new();
        for r in rows {
            match r {
                Row::Submenu { title, rows } => {
                    out.push((title.clone(), true));
                    for s in rows {
                        out.push((s.prompt().to_string(), s.enabled()));
                    }
                }
                other => out.push((other.prompt().to_string(), other.enabled())),
            }
        }
        out
    };
    assert_eq!(
        flags(&on),
        vec![
            ("C".to_string(), true),
            ("S".to_string(), true),
            ("A".to_string(), true),
            ("G".to_string(), true),
            ("B".to_string(), true),
            ("shaders".to_string(), true),
        ]
    );
    assert_eq!(
        flags(&offs),
        vec![
            ("C".to_string(), false),
            ("S".to_string(), true),
            ("A".to_string(), false),
            ("G".to_string(), true),
            ("B".to_string(), false),
            ("shaders".to_string(), true),
        ]
    );
}
