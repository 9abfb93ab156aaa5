use phl::plugins::cordis;
use phl::plugins::id_blocks;

fn lines(text: &str) -> Vec<String> {
    text.lines().map(|l| l.to_string()).collect()
}

const NESTED: &str = "\
- id: foo
  name: foo
  config:
    items:
      - a
      - b
- id: bar
  name: bar
";

#[test]
fn plugins_block_ends_at_a_sibling_not_at_a_nested_item() {
    let doc = lines(NESTED);
    assert_eq!(id_blocks::find_block(&doc, "foo"), Some((0, 6)));
    assert_eq!(id_blocks::find_block(&doc, "bar"), Some((6, 8)));
    assert_eq!(id_blocks::find_block(&doc, "missing"), None);
}

#[test]
fn plugins_removing_a_block_leaves_the_rest_intact() {
    let mut doc = lines(NESTED);
    let (start, end) = id_blocks::find_block(&doc, "foo").unwrap();
    doc.drain(start..end);
    assert_eq!(doc, lines("- id: bar\n  name: bar\n"));
}

#[test]
fn plugins_disabled_key_is_scoped_to_the_block_level() {
    let doc = lines("- id: foo\n  config:\n    disabled: true\n  name: foo\n");
    let range = id_blocks::find_block(&doc, "foo").unwrap();
    let indent = id_blocks::child_indent(&doc, range);
    assert_eq!(indent, 2);
    let found = (range.0 + 1..range.1).find(|&i| {
        id_blocks::indent_of(&doc[i]) == indent && doc[i].trim_start().starts_with("disabled:")
    });
    assert_eq!(found, None);
}

#[test]
fn plugins_nested_list_style_documents_are_handled() {
    let doc = lines("plugins:\n  - id: foo\n    name: foo\n  - id: bar\n");
    assert_eq!(id_blocks::find_block(&doc, "foo"), Some((1, 3)));
    assert_eq!(id_blocks::child_indent(&doc, (1, 3)), 4);
}

#[test]
fn cordis_block_ends_at_a_sibling_not_at_a_nested_item() {
    let doc = lines(NESTED);
    assert_eq!(cordis::find_block(&doc, "foo"), Some((0, 6)));
    assert_eq!(cordis::find_block(&doc, "bar"), Some((6, 8)));
    assert_eq!(cordis::find_block(&doc, "missing"), None);
}

#[test]
fn cordis_removing_a_block_leaves_the_rest_intact() {
    let mut doc = lines(NESTED);
    let (start, end) = cordis::find_block(&doc, "foo").unwrap();
    doc.drain(start..end);
    assert_eq!(doc, lines("- id: bar\n  name: bar\n"));
}

#[test]
fn cordis_disabled_key_is_scoped_to_the_block_level() {
    let doc = lines("- id: foo\n  config:\n    disabled: true\n  name: foo\n");
    let range = cordis::find_block(&doc, "foo").unwrap();
    let indent = cordis::child_indent(&doc, range);
    assert_eq!(indent, 2);
    let found = (range.0 + 1..range.1).find(|&i| {
        cordis::indent_of(&doc[i]) == indent && doc[i].trim_start().starts_with("disabled:")
    });
    assert_eq!(found, None);
}

#[test]
fn cordis_nested_list_style_documents_are_handled() {
    let doc = lines("plugins:\n  - id: foo\n    name: foo\n  - id: bar\n");
    assert_eq!(cordis::find_block(&doc, "foo"), Some((1, 3)));
    assert_eq!(cordis::child_indent(&doc, (1, 3)), 4);
}

/* ---- the mount-row editor on the shapes the original exercised through files ---- */

fn text_of(v: &[String]) -> String {
    cordis::patch_file_text(v)
}

#[test]
fn shared_insert_keeps_siblings_and_ignores_nested_config_rows() {
    let doc = lines("- insert:\n    - name: '@acme/first'\n      id: first\n      config:\n        entries:\n          - id: nested\n            name: ghost\n    - id: second\n      name: second\n      disabled: true # retained sibling\n");
    let doc = cordis::set_plugin_disabled_lines(doc, "@acme/first", true).unwrap();
    let text = text_of(&doc);
    let v: Vec<serde_yaml::Value> = serde_yaml::from_str(&text).unwrap();
    assert_eq!(v[0]["insert"][0]["disabled"], serde_yaml::Value::Bool(true));
    assert_eq!(v[0]["insert"][1]["disabled"], serde_yaml::Value::Bool(true));
    assert!(cordis::find_block(&doc, "ghost").is_none());
    let disabled = cordis::disabled_plugin_ids_in(&doc);
    assert!(disabled.contains(&"@acme/first".to_string()));
    assert!(disabled.contains(&"second".to_string()));
    let doc = cordis::remove_block_lines(doc, "@acme/first").unwrap();
    let v: Vec<serde_yaml::Value> = serde_yaml::from_str(&text_of(&doc)).unwrap();
    assert_eq!(v[0]["insert"].as_sequence().unwrap().len(), 1);
    assert_eq!(v[0]["insert"][0]["name"], serde_yaml::Value::String("second".into()));
    let doc = cordis::set_plugin_disabled_lines(doc, "second", false).unwrap();
    assert!(cordis::disabled_plugin_ids_in(&doc).is_empty());
}

#[test]
fn id_only_insert_gets_a_row_level_disabled_key() {
    let doc = lines("- insert:\n    - id: foo\n");
    let doc = cordis::set_plugin_disabled_lines(doc, "foo", true).unwrap();
    let v: Vec<serde_yaml::Value> = serde_yaml::from_str(&text_of(&doc)).unwrap();
    assert_eq!(v[0]["insert"][0]["disabled"], serde_yaml::Value::Bool(true));
}

#[test]
fn first_entry_replaces_the_scaffold_placeholder() {
    let doc = lines("# Your patch layer for this dsh profile\n# a top-level YAML array\n[]\n");
    let doc = cordis::register_lines(doc, "dshmarket", None).unwrap();
    let text = text_of(&doc);
    assert!(!text.contains("[]"), "placeholder replaced: {text}");
    assert!(text.contains("# Your patch layer"));
    let v: Vec<serde_yaml::Value> = serde_yaml::from_str(&text).unwrap();
    assert_eq!(v[0]["insert"][0]["id"], serde_yaml::Value::String("dshmarket".into()));
    assert_eq!(v[0]["insert"][0]["name"], serde_yaml::Value::String("dshmarket".into()));
}

#[test]
fn enable_disable_roundtrip_on_an_insert_block() {
    let doc = cordis::register_lines(Vec::new(), "dsh-dream-skin", None).unwrap();
    assert!(cordis::disabled_plugin_ids_in(&doc).is_empty());
    let doc = cordis::set_plugin_disabled_lines(doc, "dsh-dream-skin", true).unwrap();
    assert!(cordis::disabled_plugin_ids_in(&doc).contains(&"dsh-dream-skin".to_string()));
    assert_eq!(cordis::plugin_registration_state_in(&doc, "dsh-dream-skin"), Some(true));
    let doc = cordis::set_plugin_disabled_lines(doc, "dsh-dream-skin", false).unwrap();
    assert!(cordis::disabled_plugin_ids_in(&doc).is_empty());
    let text = text_of(&doc);
    assert!(!text.contains("disabled: true"));
    assert!(text.contains("    - id: dsh-dream-skin"));
}

#[test]
fn writing_heals_a_file_the_old_append_corrupted() {
    let doc = lines("# header\n[]\n\n- id: dshmarket\n  name: dshmarket\n");
    let doc = cordis::set_plugin_disabled_lines(doc, "dshmarket", true).unwrap();
    let text = text_of(&doc);
    assert!(!text.contains("[]"));
    let v: Vec<serde_yaml::Value> = serde_yaml::from_str(&text).unwrap();
    assert_eq!(v.len(), 1);
    assert_eq!(v[0]["disabled"], serde_yaml::Value::Bool(true));
}

#[test]
fn find_block_matches_the_mount_name_for_a_handwritten_id() {
    let doc = lines("- insert:\n    - id: dsh-market\n      name: dshmarket\n");
    let doc = cordis::set_plugin_disabled_lines(doc, "dshmarket", true).unwrap();
    let v: Vec<serde_yaml::Value> = serde_yaml::from_str(&text_of(&doc)).unwrap();
    assert_eq!(v.len(), 1);
    assert_eq!(v[0]["insert"][0]["id"], serde_yaml::Value::String("dsh-market".into()));
    assert_eq!(v[0]["insert"][0]["disabled"], serde_yaml::Value::Bool(true));
    assert!(cordis::disabled_plugin_ids_in(&doc).contains(&"dsh-market".to_string()));
}

#[test]
fn indented_empty_lists_survive_a_write() {
    let doc = lines("- id: foo\n  name: foo\n  config:\n    items: []\n");
    let doc = cordis::set_plugin_disabled_lines(doc, "foo", true).unwrap();
    let text = text_of(&doc);
    assert!(text.contains("items: []"));
    let _: Vec<serde_yaml::Value> = serde_yaml::from_str(&text).unwrap();
}

#[test]
fn enabling_an_unregistered_plugin_writes_nothing() {
    assert!(cordis::set_plugin_disabled_lines(lines("- id: a\n"), "b", false).is_none());
    assert!(id_blocks::set_plugin_disabled_lines(lines("- id: a\n"), "b", false).is_none());
}

#[test]
fn registering_twice_is_a_no_op() {
    let doc = cordis::register_lines(Vec::new(), "x", Some(true)).unwrap();
    assert_eq!(doc, lines("- insert:\n    - id: x\n      name: 'x'\n      disabled: true\n"));
    assert!(cordis::register_lines(doc, "x", None).is_none());
}

#[test]
fn scoped_ids_are_quoted_as_loader_ids() {
    let block = cordis::insert_block("@scope/p", false);
    assert_eq!(block, vec!["- insert:", "    - id: '@scope/p'", "      name: '@scope/p'"]);
}

#[test]
fn declarations_keep_the_first_flag_per_id() {
    let doc = lines("- id: a\n  disabled: true\n- id: a\n");
    let decls = cordis::declared_plugin_ids_in(&doc);
    assert_eq!(decls, vec![("a".to_string(), true)]);
}

#[test]
fn patch_text_is_newline_terminated_unless_empty() {
    assert_eq!(cordis::patch_file_text(&[]), "");
    assert_eq!(cordis::patch_file_text(&["[]".to_string()]), "");
    assert_eq!(cordis::patch_file_text(&["a".to_string(), "  []".to_string()]), "a\n  []\n");
}

#[test]
fn id_block_editor_round_trip() {
    let doc = id_blocks::register_lines(lines("- id: other\n"), "p", None).unwrap();
    assert_eq!(doc, lines("- id: other\n\n- id: p\n  name: p\n"));
    let doc = id_blocks::set_plugin_disabled_lines(doc, "p", true).unwrap();
    assert_eq!(id_blocks::disabled_plugin_ids_in(&doc), vec!["p".to_string()]);
    // The block goes; the blank separator written before it stays.
    let doc = id_blocks::remove_block_lines(doc, "p").unwrap();
    assert_eq!(doc, lines("- id: other\n\n"));
}

#[test]
fn toggling_a_row_with_nested_config_reads_back() {
    let doc = lines("- id: foo\n  name: foo\n  config:\n    disabled: true\n- id: bar\n");
    let doc = cordis::set_plugin_disabled_lines(doc, "foo", true).unwrap();
    assert_eq!(cordis::plugin_registration_state_in(&doc, "foo"), Some(true));
    assert_eq!(cordis::plugin_registration_state_in(&doc, "bar"), Some(false));
    let doc = cordis::set_plugin_disabled_lines(doc, "foo", false).unwrap();
    assert_eq!(cordis::plugin_registration_state_in(&doc, "foo"), Some(false));
    assert!(cordis::disabled_plugin_ids_in(&doc).is_empty());
    assert!(doc.contains(&"    disabled: true".to_string()));
}

#[test]
fn disabling_an_unmounted_plugin_mounts_it_disabled() {
    let doc = cordis::set_plugin_disabled_lines(lines("- id: other\n  name: other\n"), "fresh", true).unwrap();
    assert_eq!(cordis::plugin_registration_state_in(&doc, "fresh"), Some(true));
    assert_eq!(cordis::plugin_registration_state_in(&doc, "other"), Some(false));
    assert_eq!(cordis::disabled_plugin_ids_in(&doc), vec!["fresh".to_string()]);
}

#[test]
fn id_block_enable_reads_back() {
    let doc = lines("- id: p\n  name: p\n  disabled: true\n- id: q\n  disabled: true\n");
    assert_eq!(id_blocks::disabled_plugin_ids_in(&doc), vec!["p".to_string(), "q".to_string()]);
    let doc = id_blocks::set_plugin_disabled_lines(doc, "p", false).unwrap();
    assert_eq!(id_blocks::disabled_plugin_ids_in(&doc), vec!["q".to_string()]);
    let doc = id_blocks::set_plugin_disabled_lines(doc, "p", true).unwrap();
    assert_eq!(id_blocks::disabled_plugin_ids_in(&doc), vec!["p".to_string(), "q".to_string()]);
}

#[test]
fn a_second_flag_line_keeps_a_plugin_disabled() {
    // Only the first `disabled:` key at the row's level is dropped.
    let doc = lines("- id: p\n  disabled: false\n  disabled: true\n");
    let doc = id_blocks::set_plugin_disabled_lines(doc, "p", false).unwrap();
    assert_eq!(id_blocks::disabled_plugin_ids_in(&doc), vec!["p".to_string()]);
}

#[test]
fn restoring_a_registration_snapshot_reads_back() {
    let before = lines("# header\n[]\n- id: other\n  name: other\n");
    let state = cordis::plugin_registration_state_in(&before, "p");
    assert_eq!(state, None);
    // An install mounts the plugin; restoring the snapshot unmounts it.
    let installed = cordis::register_lines(before.clone(), "p", None).unwrap();
    let restored = cordis::restore_registration_lines(installed, "p", state).unwrap();
    assert_eq!(cordis::plugin_registration_state_in(&restored, "p"), None);
    assert_eq!(cordis::plugin_registration_state_in(&restored, "other"), Some(false));
    // A plugin that was disabled before comes back disabled.
    let doc = cordis::restore_registration_lines(lines("- id: other\n"), "q", Some(true)).unwrap();
    assert_eq!(cordis::plugin_registration_state_in(&doc, "q"), Some(true));
    let doc = cordis::set_plugin_disabled_lines(doc, "q", false).unwrap();
    let doc = cordis::restore_registration_lines(doc, "q", Some(true)).unwrap();
    assert_eq!(cordis::plugin_registration_state_in(&doc, "q"), Some(true));
    // Restoring what is already there writes nothing new.
    let same = cordis::restore_registration_lines(lines("- id: r\n"), "r", Some(false)).unwrap();
    assert_eq!(same, lines("- id: r\n"));
}

#[test]
fn unmounting_is_read_back_and_keeps_siblings() {
    let doc = lines("- insert:\n    - id: a\n      disabled: true\n    - id: b\n      name: b\n- id: c\n");
    let doc = cordis::remove_block_lines(doc, "a").unwrap();
    assert_eq!(cordis::plugin_registration_state_in(&doc, "a"), None);
    assert_eq!(cordis::plugin_registration_state_in(&doc, "b"), Some(false));
    assert_eq!(cordis::plugin_registration_state_in(&doc, "c"), Some(false));
    let legacy = lines("- id: p\n  disabled: true\n- id: q\n");
    let legacy = id_blocks::remove_block_lines(legacy, "p").unwrap();
    assert_eq!(id_blocks::find_block(&legacy, "p"), None);
    assert!(id_blocks::disabled_plugin_ids_in(&legacy).is_empty());
}

#[test]
fn cordis_disabling_twice_writes_the_same_text() {
    let doc = lines(
        "- insert:\n    - id: browser-use\n      name: '@deepseek-ai/dsh-browser-use'\n    - id: other\n      name: other\n",
    );
    let once = cordis::set_plugin_disabled_lines(doc, "browser-use", true).unwrap();
    assert!(once.iter().any(|l| l == "      disabled: true"));
    let twice = cordis::set_plugin_disabled_lines(once.clone(), "browser-use", true).unwrap();
    assert_eq!(twice, once);
    assert_eq!(cordis::plugin_registration_state_in(&twice, "browser-use"), Some(true));
    assert_eq!(cordis::plugin_registration_state_in(&twice, "other"), Some(false));
}
