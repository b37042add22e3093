use gogo_core::Command;
use gogo_core::GadgetVariable;
use gogo_core::sync_variables;
use gogo_core::update_variable_name_in_place;

fn meta(name: &str, description: &str, default: Option<&str>) -> GadgetVariable {
    GadgetVariable {
        name: name.to_string(),
        description: description.to_string(),
        default: default.map(|d| d.to_string()),
    }
}

#[test]
fn rename_keeps_metadata_by_position() {
    let old_tpl = Command::new("cp {{src}} {{dst}}".to_string());
    let new_tpl = Command::new("cp {{from}} {{to}}".to_string());
    let old_meta = vec![meta("src", "source file", None), meta("dst", "dest file", None)];
    let result = sync_variables(&old_meta, &old_tpl.parts, &new_tpl.parts);
    assert_eq!(result, vec![meta("from", "source file", None), meta("to", "dest file", None)]);
}

#[test]
fn name_match_survives_reorder_and_text_change() {
    let old_tpl = Command::new("{{a}} then {{b}}".to_string());
    let new_tpl = Command::new("now {{b}} and {{a}}!".to_string());
    let old_meta = vec![meta("a", "first", None), meta("b", "second", None)];
    let result = sync_variables(&old_meta, &old_tpl.parts, &new_tpl.parts);
    assert_eq!(result, vec![meta("b", "second", None), meta("a", "first", None)]);
}

#[test]
fn new_variable_gets_blank_metadata() {
    let old_tpl = Command::new("{{a}}".to_string());
    let new_tpl = Command::new("{{a}} {{c}}".to_string());
    let old_meta = vec![meta("a", "kept", Some("x"))];
    let result = sync_variables(&old_meta, &old_tpl.parts, &new_tpl.parts);
    assert_eq!(result, vec![meta("a", "kept", Some("x")), meta("c", "", None)]);
}

#[test]
fn dropped_variable_is_removed() {
    let old_tpl = Command::new("{{a}} {{b}}".to_string());
    let new_tpl = Command::new("only {{b}} left".to_string());
    let old_meta = vec![meta("a", "gone", Some("d")), meta("b", "stays", None)];
    let result = sync_variables(&old_meta, &old_tpl.parts, &new_tpl.parts);
    assert_eq!(result, vec![meta("b", "stays", None)]);
    assert!(result.iter().all(|v| v.name != "a"));
}

#[test]
fn reconcile_against_itself_is_identity() {
    let tpl = Command::new("curl -X {{method}} {{url}}".to_string());
    let old_meta = vec![
        meta("method", "http verb", Some("GET")),
        meta("url", "target address", None),
    ];
    let result = sync_variables(&old_meta, &tpl.parts, &tpl.parts);
    assert_eq!(result, old_meta);
}

#[test]
fn duplicate_placeholders_yield_one_entry_per_distinct_name() {
    let old_tpl = Command::new(String::new());
    let new_tpl = Command::new("{{x}} {{y}} {{x}}".to_string());
    let old_meta: Vec<GadgetVariable> = Vec::new();
    let result = sync_variables(&old_meta, &old_tpl.parts, &new_tpl.parts);
    assert_eq!(result, vec![meta("x", "", None), meta("y", "", None)]);
}

#[test]
fn regime_a_with_fewer_old_slots_falls_back_to_blank() {
    // Literal text unchanged but a placeholder added where none stood:
    // adjacent placeholders share the empty literal sequence.
    let old_tpl = Command::new("{{a}}".to_string());
    let new_tpl = Command::new("{{b}}{{c}}".to_string());
    let old_meta = vec![meta("a", "first slot", None)];
    let result = sync_variables(&old_meta, &old_tpl.parts, &new_tpl.parts);
    assert_eq!(result, vec![meta("b", "first slot", None), meta("c", "", None)]);
}

#[test]
fn update_variable_name_rewrites_list_and_command() {
    let mut vars = vec![meta("host", "the host", None), meta("port", "the port", Some("22"))];
    let mut cmd = Command::new("ssh {{host}} -p {{port}}".to_string());
    update_variable_name_in_place(&mut vars, 0, "host", "server", &mut cmd);
    assert_eq!(cmd.raw, "ssh {{server}} -p {{port}}");
    assert_eq!(vars[0], meta("server", "the host", None));
    assert_eq!(vars[1], meta("port", "the port", Some("22")));
}

#[test]
fn update_variable_name_out_of_range_leaves_list() {
    let mut vars = vec![meta("a", "d", None)];
    let mut cmd = Command::new("{{a}}".to_string());
    update_variable_name_in_place(&mut vars, 5, "a", "b", &mut cmd);
    assert_eq!(cmd.raw, "{{b}}");
    assert_eq!(vars, vec![meta("a", "d", None)]);
}
