use gogo_core::Command;
use gogo_core::Gadget;
use gogo_core::GadgetAddError;
use gogo_core::GadgetStore;
use gogo_core::GadgetVariable;
use gogo_core::gadget::pair_variable_descriptions;

fn meta(name: &str, description: &str, default: Option<&str>) -> GadgetVariable {
    GadgetVariable {
        name: name.to_string(),
        description: description.to_string(),
        default: default.map(|d| d.to_string()),
    }
}

fn gadget(name: &str, command: &str, vars: Vec<GadgetVariable>) -> Gadget {
    Gadget {
        name: name.to_string(),
        command: Command::new(command.to_string()),
        description: format!("about {}", name),
        variables: vars,
    }
}

#[test]
fn save_then_get_and_list() {
    let mut store = GadgetStore(Vec::new());
    store.save_gadget(&gadget("greet", "echo {{who}}", vec![meta("who", "whom", None)]));
    store.save_gadget(&gadget("ls", "ls -la", vec![]));
    assert_eq!(store.list_gadgets().len(), 2);
    let g = store.get_gadget("greet").expect("stored gadget");
    assert_eq!(g.command.raw, "echo {{who}}");
    assert!(store.get_gadget("absent").is_none());
}

#[test]
fn save_replaces_same_name() {
    let mut store = GadgetStore(Vec::new());
    store.save_gadget(&gadget("g", "echo one", vec![]));
    store.save_gadget(&gadget("g", "echo two", vec![]));
    assert_eq!(store.list_gadgets().len(), 1);
    assert_eq!(store.get_gadget("g").unwrap().command.raw, "echo two");
}

#[test]
fn delete_removes_only_named_gadget() {
    let mut store = GadgetStore(Vec::new());
    store.save_gadget(&gadget("a", "echo a", vec![]));
    store.save_gadget(&gadget("b", "echo b", vec![]));
    store.delete_gadget("a");
    assert!(store.get_gadget("a").is_none());
    assert!(store.get_gadget("b").is_some());
    store.delete_gadget("never-there");
    assert_eq!(store.list_gadgets().len(), 1);
}

#[test]
fn add_reorders_metadata_to_detection_order() {
    let mut store = GadgetStore(Vec::new());
    let g = gadget(
        "swap",
        "mv {{from}} {{to}}",
        vec![meta("to", "target", None), meta("from", "origin", Some("here"))],
    );
    assert_eq!(store.add(g), Ok(()));
    let stored = store.get_gadget("swap").unwrap();
    assert_eq!(
        stored.variables,
        vec![meta("from", "origin", Some("here")), meta("to", "target", None)]
    );
}

#[test]
fn add_fills_blank_metadata_for_unmatched_names() {
    let mut store = GadgetStore(Vec::new());
    let g = gadget(
        "two",
        "join {{left}} {{right}}",
        vec![meta("left", "left part", None), meta("other", "unrelated", None)],
    );
    assert_eq!(store.add(g), Ok(()));
    let stored = store.get_gadget("two").unwrap();
    assert_eq!(
        stored.variables,
        vec![meta("left", "left part", None), meta("right", "", None)]
    );
}

#[test]
fn add_duplicate_placeholder_counts_distinct_names() {
    let mut store = GadgetStore(Vec::new());
    let g = gadget(
        "dup",
        "{{x}} {{y}} {{x}}",
        vec![meta("x", "ex", None), meta("y", "why", None)],
    );
    assert_eq!(store.add(g), Ok(()));
    let stored = store.get_gadget("dup").unwrap();
    assert_eq!(stored.variables, vec![meta("x", "ex", None), meta("y", "why", None)]);
}

#[test]
fn add_rejects_descriptions_without_variables() {
    let mut store = GadgetStore(Vec::new());
    let g = gadget("plain", "echo hi", vec![meta("ghost", "noise", None)]);
    assert_eq!(store.add(g), Err(GadgetAddError::NoVariablesButDescriptions));
    assert!(store.list_gadgets().is_empty());
}

#[test]
fn add_rejects_count_mismatch() {
    let mut store = GadgetStore(Vec::new());
    let g = gadget("m", "cp {{a}} {{b}}", vec![meta("a", "only one", None)]);
    match store.add(g) {
        Err(GadgetAddError::VariableCountMismatch { detected, provided }) => {
            assert_eq!(detected, vec!["a".to_string(), "b".to_string()]);
            assert_eq!(provided, vec!["a".to_string()]);
        }
        other => panic!("expected count mismatch, got {:?}", other),
    }
    assert!(store.list_gadgets().is_empty());
}

#[test]
fn add_rejects_invalid_variable_name() {
    let mut store = GadgetStore(Vec::new());
    let g = gadget(
        "bad",
        "run {{ok}} {{fine}}",
        vec![meta("ok", "fine", None), meta("no good", "spaces", None)],
    );
    match store.add(g) {
        Err(GadgetAddError::InvalidVariableName { name }) => assert_eq!(name, "no good"),
        other => panic!("expected invalid name, got {:?}", other),
    }
}

#[test]
fn add_accepts_dashed_names() {
    let mut store = GadgetStore(Vec::new());
    // The tokenizer's word class excludes dashes, so the dashed name is
    // supplied metadata that matches no detected name and the count must
    // still fit the two distinct detected names.
    let g = gadget(
        "dash",
        "go {{a}} {{b}}",
        vec![meta("my-name", "dashed", None), meta("b", "bee", None)],
    );
    assert_eq!(store.add(g), Ok(()));
    let stored = store.get_gadget("dash").unwrap();
    assert_eq!(stored.variables, vec![meta("a", "", None), meta("b", "bee", None)]);
}

#[test]
fn pair_descriptions_positionally() {
    let descs = vec!["first".to_string(), "second".to_string()];
    let vars = pair_variable_descriptions("cp {{src}} {{dst}}", &descs).unwrap();
    assert_eq!(vars, vec![meta("src", "first", None), meta("dst", "second", None)]);
}

#[test]
fn pair_descriptions_none_needed() {
    let vars = pair_variable_descriptions("echo hi", &Vec::new()).unwrap();
    assert_eq!(vars, Vec::<GadgetVariable>::new());
}

#[test]
fn pair_descriptions_rejects_unused() {
    let descs = vec!["noise".to_string()];
    assert_eq!(
        pair_variable_descriptions("echo hi", &descs),
        Err(GadgetAddError::NoVariablesButDescriptions)
    );
}

#[test]
fn pair_descriptions_rejects_count_mismatch() {
    let descs = vec!["one".to_string()];
    match pair_variable_descriptions("cp {{a}} {{b}}", &descs) {
        Err(GadgetAddError::VariableCountMismatch { detected, provided }) => {
            assert_eq!(detected, vec!["a".to_string(), "b".to_string()]);
            assert_eq!(provided, vec!["one".to_string()]);
        }
        other => panic!("expected count mismatch, got {:?}", other),
    }
}

#[test]
fn pair_descriptions_duplicates_count_once() {
    let descs = vec!["ex".to_string()];
    let vars = pair_variable_descriptions("{{x}} {{x}}", &descs).unwrap();
    assert_eq!(vars, vec![meta("x", "ex", None)]);
}
