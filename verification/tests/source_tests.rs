use batocera_menu::model::{CoreYml, CustomFeature};
use batocera_menu::source::{ReconstructError, SourceFile};
use indexmap::IndexMap;
use serde_yaml::Value;

fn text_field(m: &serde_yaml::Mapping, name: &str) -> Option<String> {
    m.get(name).and_then(|v| v.as_str()).map(|s| s.to_string())
}

/// A feature entry read from its parsed YAML, as the file format defines it.
fn feature_of(v: &Value) -> CustomFeature {
    let m = v.as_mapping().expect("a feature is a mapping");
    let mut choices = IndexMap::new();
    if let Some(c) = m.get("choices").and_then(|c| c.as_mapping()) {
        for (k, v) in c {
            choices.insert(k.clone(), v.clone());
        }
    }
    CustomFeature {
        group: text_field(m, "group"),
        submenu: text_field(m, "submenu"),
        prompt: text_field(m, "prompt").expect("prompt"),
        description: text_field(m, "description"),
        choices,
    }
}

/// The feature entries of a parsed mapping, in order.
fn features_of(v: &Value) -> IndexMap<String, CustomFeature> {
    let mut out = IndexMap::new();
    if let Some(m) = v.as_mapping() {
        for (k, f) in m {
            out.insert(k.as_str().unwrap().to_string(), feature_of(f));
        }
    }
    out
}

/// A core yml read from its text.
fn core_of(text: &str) -> CoreYml {
    let v: Value = serde_yaml::from_str(text).expect("valid yaml");
    let shared_features = v
        .get("shared_features")
        .and_then(|s| s.as_sequence())
        .map(|s| s.iter().map(|x| x.as_str().unwrap().to_string()).collect())
        .unwrap_or_default();
    let custom_features = v.get("custom_features").map(features_of).unwrap_or_default();
    CoreYml {
        shared_features,
        custom_features,
    }
}

/// Each commented-out entry's feature, reconstructed from its lines.
fn reconstruct_all(source: &SourceFile) -> Vec<Option<CustomFeature>> {
    source
        .blocks()
        .iter()
        .map(|b| {
            if b.enabled {
                None
            } else {
                let fragment = source.reconstruct_fragment(b);
                let parsed = serde_yaml::from_str::<Value>(&fragment)
                    .ok()
                    .map(|v| features_of(&v));
                source.reconstruct_feature(b, parsed).ok()
            }
        })
        .collect()
}

fn feature_keys(source: &SourceFile) -> Vec<&str> {
    source.blocks().iter().map(|b| b.key.as_str()).collect()
}

#[test]
fn finds_simple_active_block_range() {
    let text = "\
custom_features:
  alpha:
    prompt: ALPHA
    choices:
      'Off': disabled
      'On': enabled
  beta:
    prompt: BETA
    choices:
      'Off': disabled
      'On': enabled
systems:
  - foo
";
    let source = SourceFile::scan(text);
    assert_eq!(source.key_indent(), 2);
    assert_eq!(feature_keys(&source), vec!["alpha", "beta"]);
    assert!(source.blocks().iter().all(|b| b.enabled));

    let alpha = &source.blocks()[0];
    assert_eq!((alpha.start_line, alpha.end_line), (1, 6));
    let beta = &source.blocks()[1];
    assert_eq!((beta.start_line, beta.end_line), (6, 11));
}

#[test]
fn blank_line_inside_block_is_tolerated() {
    let text = "\
custom_features:
  alpha:
    prompt: ALPHA

    choices:
      'Off': disabled
      'On': enabled
systems:
  - foo
";
    let source = SourceFile::scan(text);
    assert_eq!(feature_keys(&source), vec!["alpha"]);
    let alpha = &source.blocks()[0];
    assert_eq!((alpha.start_line, alpha.end_line), (1, 7));
}

#[test]
fn blank_lines_between_blocks_do_not_create_phantom_blocks() {
    let text = "\
custom_features:
  alpha:
    prompt: ALPHA
    choices:
      'Off': disabled
      'On': enabled

  beta:
    prompt: BETA
    choices:
      'Off': disabled
      'On': enabled
systems:
  - foo
";
    let source = SourceFile::scan(text);
    assert_eq!(feature_keys(&source), vec!["alpha", "beta"]);
    // The blank line is absorbed into the preceding block's range.
    assert_eq!(source.blocks()[0].end_line, source.blocks()[1].start_line);
}

#[test]
fn last_key_in_section_ends_at_next_top_level_key() {
    let text = "\
custom_features:
  alpha:
    prompt: ALPHA
    choices:
      'Off': disabled
      'On': enabled
systems:
  - foo
";
    let source = SourceFile::scan(text);
    let alpha = &source.blocks()[0];
    assert_eq!(alpha.end_line, 6); // the "systems:" line's index
}

#[test]
fn last_key_in_section_ends_at_eof() {
    let text = "\
custom_features:
  alpha:
    prompt: ALPHA
    choices:
      'Off': disabled
      'On': enabled
";
    let source = SourceFile::scan(text);
    let alpha = &source.blocks()[0];
    assert_eq!(alpha.end_line, source.line_count());
}

#[test]
fn group_and_submenu_decorated_feature_block_detected_like_any_other() {
    let text = "\
custom_features:
  alpha:
    group: ADVANCED
    submenu: TIMING
    prompt: ALPHA
    choices:
      'Off': disabled
      'On': enabled
systems:
  - foo
";
    let source = SourceFile::scan(text);
    assert_eq!(feature_keys(&source), vec!["alpha"]);
    assert!(source.blocks()[0].enabled);
}

#[test]
fn detects_preexisting_commented_block_and_marks_disabled() {
    let text = "\
custom_features:
  alpha:
    prompt: ALPHA
    choices:
      'Off': disabled
      'On': enabled
  # beta:
  #   prompt: BETA
  #   choices:
  #     'Off': disabled
  #     'On': enabled
systems:
  - foo
";
    let source = SourceFile::scan(text);
    assert_eq!(feature_keys(&source), vec!["alpha", "beta"]);
    assert!(source.blocks()[0].enabled);
    assert!(!source.blocks()[1].enabled);
}

#[test]
fn reconstruct_feature_from_commented_block_matches_active_equivalent() {
    let commented = "\
custom_features:
  # beta:
  #   group: ADVANCED
  #   prompt: BETA
  #   choices:
  #     'Off': disabled
  #     'On': enabled
";
    let active = "\
custom_features:
  beta:
    group: ADVANCED
    prompt: BETA
    choices:
      'Off': disabled
      'On': enabled
";
    let source = SourceFile::scan(commented);
    let block = &source.blocks()[0];
    let fragment = source.reconstruct_fragment(block);
    let parsed: Value = serde_yaml::from_str(&fragment).expect("reconstructs");
    let map = features_of(&parsed);
    let reconstructed = source
        .reconstruct_feature(block, Some(map))
        .expect("reconstructs");

    let expected = core_of(active);
    let expected = expected.custom_features.get("beta").unwrap();

    assert_eq!(&reconstructed, expected);
}

#[test]
fn toggle_disable_produces_expected_comment_markers() {
    let text = "\
custom_features:
  alpha:
    group: Beetle Specific
    prompt: OVERCLOCK
    choices:
      50%: 50%
";
    let mut source = SourceFile::scan(text);
    source.set_enabled("alpha", false);
    let rendered = source.render();
    assert_eq!(
        rendered,
        "\
custom_features:
  # alpha:
  #   group: Beetle Specific
  #   prompt: OVERCLOCK
  #   choices:
  #     50%: 50%
"
    );
}

#[test]
fn toggle_uncomment_then_recomment_is_byte_identical_to_original() {
    let text = "\
custom_features:
  alpha:
    prompt: ALPHA
    choices:
      'Off': disabled
      'On': enabled
  beta:
    prompt: BETA
    choices:
      'Off': disabled
      'On': enabled
systems:
  - foo
";
    let mut source = SourceFile::scan(text);
    source.set_enabled("alpha", false);
    assert_ne!(source.render(), text);
    source.set_enabled("alpha", true);
    assert_eq!(source.render(), text);
}

#[test]
fn scan_then_render_with_no_changes_is_identical_to_original() {
    let text = "\
custom_features:
  alpha:
    prompt: ALPHA
    choices:
      'Off': disabled
      'On': enabled
systems:
  - foo
";
    let source = SourceFile::scan(text);
    assert_eq!(source.render(), text);
}

#[test]
fn render_preserves_trailing_newline_presence() {
    let with_newline = "custom_features:\n  alpha:\n    prompt: A\n";
    let source = SourceFile::scan(with_newline);
    assert_eq!(source.render(), with_newline);

    let without_newline = "custom_features:\n  alpha:\n    prompt: A";
    let source = SourceFile::scan(without_newline);
    assert_eq!(source.render(), without_newline);
}

#[test]
fn scan_handles_missing_custom_features_section_without_crashing() {
    let text = "systems:\n  - foo\n";
    let source = SourceFile::scan(text);
    assert!(source.blocks().is_empty());
    assert_eq!(source.render(), text);
}

#[test]
fn merge_into_preserves_file_order_including_reactivated_disabled_feature() {
    let text = "\
custom_features:
  alpha:
    prompt: ALPHA
    choices:
      'Off': disabled
      'On': enabled
  # beta:
  #   prompt: BETA
  #   choices:
  #     'Off': disabled
  #     'On': enabled
  gamma:
    prompt: GAMMA
    choices:
      'Off': disabled
      'On': enabled
";
    let mut core = core_of(text);
    assert_eq!(
        core.custom_features.keys().collect::<Vec<_>>(),
        vec!["alpha", "gamma"]
    );

    let source = SourceFile::scan(text);
    let reconstructed = reconstruct_all(&source);
    source.merge_into(&mut core, reconstructed);

    assert_eq!(
        core.custom_features.keys().collect::<Vec<_>>(),
        vec!["alpha", "beta", "gamma"]
    );
    assert_eq!(core.custom_features.get("beta").unwrap().prompt, "BETA");
}


#[test]
fn reconstruct_feature_reports_why_it_failed() {
    let text = "\
custom_features:
  # beta:
  #   prompt: BETA
";
    let source = SourceFile::scan(text);
    let block = &source.blocks()[0];
    assert_eq!(
        source.reconstruct_feature(block, None),
        Err(ReconstructError::Unparsable)
    );
    let mut other = IndexMap::new();
    other.insert(
        "gamma".to_string(),
        CustomFeature {
            group: None,
            submenu: None,
            prompt: "GAMMA".to_string(),
            description: None,
            choices: IndexMap::new(),
        },
    );
    assert_eq!(
        source.reconstruct_feature(block, Some(other)),
        Err(ReconstructError::KeyNotFound)
    );
}

#[test]
fn reconstruct_fragment_strips_markers_and_key_indent() {
    let text = "\
custom_features:
  # beta:
  #   prompt: BETA

  #   choices:
  #     'Off': disabled
";
    let source = SourceFile::scan(text);
    let fragment = source.reconstruct_fragment(&source.blocks()[0]);
    assert_eq!(
        fragment,
        "beta:\n  prompt: BETA\n\n  choices:\n    'Off': disabled\n"
    );
}

#[test]
fn set_enabled_on_unknown_key_changes_nothing() {
    let text = "custom_features:\n  alpha:\n    prompt: ALPHA\n";
    let mut source = SourceFile::scan(text);
    source.set_enabled("nope", false);
    assert_eq!(source.render(), text);
    source.set_enabled("alpha", true);
    assert_eq!(source.render(), text);
}

#[test]
fn overrides_report_the_state_just_set() {
    let text = "\
custom_features:
  alpha:
    prompt: ALPHA
  # beta:
  #   prompt: BETA
";
    let mut source = SourceFile::scan(text);
    let before = source.enabled_overrides();
    assert_eq!(before.get("alpha"), Some(&true));
    assert_eq!(before.get("beta"), Some(&false));
    source.set_enabled("alpha", false);
    let after = source.enabled_overrides();
    assert_eq!(after.get("alpha"), Some(&false));
    assert_eq!(after.get("beta"), Some(&false));
    assert_eq!(after.len(), 2);
    assert_eq!(
        source.render(),
        "\
custom_features:
  # alpha:
  #   prompt: ALPHA
  # beta:
  #   prompt: BETA
"
    );
}

#[test]
fn crlf_text_round_trips_and_keeps_its_endings_when_toggled() {
    let text = "custom_features:\r\n  alpha:\r\n    prompt: ALPHA\r\n";
    let mut source = SourceFile::scan(text);
    assert_eq!(source.render(), text);
    assert_eq!(source.line_count(), 3);
    assert_eq!(source.key_indent(), 2);
    source.set_enabled("alpha", false);
    assert_eq!(
        source.render(),
        "custom_features:\r\n  # alpha:\r\n  #   prompt: ALPHA\r\n"
    );
}

#[test]
fn mixed_line_endings_are_written_back_with_crlf() {
    let source = SourceFile::scan("a\r\nb\n");
    assert_eq!(source.render(), "a\r\nb\r\n");
}

#[test]
fn merge_appends_parsed_features_the_scan_did_not_find() {
    let mut core = core_of(
        "\
custom_features:
  alpha:
    prompt: ALPHA
",
    );
    let source = SourceFile::scan("other_section:\n  x: 1\n");
    assert!(source.blocks().is_empty());
    source.merge_into(&mut core, reconstruct_all(&source));
    let keys: Vec<&str> = core.custom_features.keys().map(|k| k.as_str()).collect();
    assert_eq!(keys, vec!["alpha"]);
}

#[test]
fn merge_skips_commented_entries_that_do_not_reconstruct() {
    let text = "\
custom_features:
  alpha:
    prompt: ALPHA
  # beta:
  #   prompt: [unclosed
";
    let mut core = core_of("custom_features:\n  alpha:\n    prompt: ALPHA\n");
    let source = SourceFile::scan(text);
    let reconstructed = reconstruct_all(&source);
    assert!(reconstructed[1].is_none());
    source.merge_into(&mut core, reconstructed);
    let keys: Vec<&str> = core.custom_features.keys().map(|k| k.as_str()).collect();
    assert_eq!(keys, vec!["alpha"]);
}

#[test]
fn enable_then_disable_restores_entries_in_our_comment_convention() {
    let text = "\
custom_features:
  # beta:
  #   prompt: BETA

  #   choices:
  #     'Off': disabled
";
    let mut source = SourceFile::scan(text);
    source.set_enabled("beta", true);
    assert_eq!(
        source.render(),
        "custom_features:\n  beta:\n    prompt: BETA\n\n    choices:\n      'Off': disabled\n"
    );
    source.set_enabled("beta", false);
    assert_eq!(source.render(), text);
}

#[test]
fn bare_hash_marker_is_rewritten_in_our_convention() {
    let text = "custom_features:\n  #beta:\n  #  prompt: BETA\n";
    let mut source = SourceFile::scan(text);
    assert!(!source.blocks()[0].enabled);
    source.set_enabled("beta", true);
    assert_eq!(source.render(), "custom_features:\n  beta:\n   prompt: BETA\n");
    source.set_enabled("beta", false);
    assert_eq!(
        source.render(),
        "custom_features:\n  # beta:\n  #  prompt: BETA\n"
    );
}

#[test]
fn disabled_entry_reconstructs_to_the_active_fragment() {
    let active = "\
custom_features:
  beta:
    prompt: BETA

    choices:
      'Off': disabled
";
    let mut source = SourceFile::scan(active);
    let before = source.reconstruct_fragment(&source.blocks()[0]);
    source.set_enabled("beta", false);
    let after = source.reconstruct_fragment(&source.blocks()[0]);
    assert_eq!(before, after);
    assert_eq!(before, "beta:\n  prompt: BETA\n\n  choices:\n    'Off': disabled\n");
}

#[test]
fn apply_changes_sets_each_key_in_turn() {
    let text = "\
custom_features:
  alpha:
    prompt: ALPHA
  # beta:
  #   prompt: BETA
";
    let mut source = SourceFile::scan(text);
    source.apply_changes(&[
        ("alpha".to_string(), false),
        ("beta".to_string(), true),
        ("missing".to_string(), false),
    ]);
    assert_eq!(
        source.render(),
        "\
custom_features:
  # alpha:
  #   prompt: ALPHA
  beta:
    prompt: BETA
"
    );
    source.apply_changes(&[("alpha".to_string(), true), ("beta".to_string(), false)]);
    assert_eq!(source.render(), text);
}
