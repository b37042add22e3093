use gogo_core::Command;
use gogo_core::CommandPart;
use gogo_core::extract_variables_from_command;

fn text(s: &str) -> CommandPart {
    CommandPart::Text(s.to_string())
}

fn var(s: &str) -> CommandPart {
    CommandPart::Variable(s.to_string())
}

#[test]
fn tokenize_basic() {
    let c = Command::new("echo {{foo}}".to_string());
    assert_eq!(c.raw, "echo {{foo}}");
    assert_eq!(c.parts, vec![text("echo "), var("foo")]);
}

#[test]
fn tokenize_empty_string() {
    let c = Command::new(String::new());
    assert_eq!(c.parts, Vec::<CommandPart>::new());
}

#[test]
fn tokenize_no_placeholders() {
    let c = Command::new("plain text".to_string());
    assert_eq!(c.parts, vec![text("plain text")]);
}

#[test]
fn tokenize_adjacent_placeholders() {
    let c = Command::new("{{a}}{{b}}".to_string());
    assert_eq!(c.parts, vec![var("a"), var("b")]);
}

#[test]
fn tokenize_empty_braces_stay_literal() {
    let c = Command::new("{{}}".to_string());
    assert_eq!(c.parts, vec![text("{{}}")]);
}

#[test]
fn tokenize_unclosed_braces_stay_literal() {
    let c = Command::new("{{never closed".to_string());
    assert_eq!(c.parts, vec![text("{{never closed")]);
}

#[test]
fn tokenize_non_word_name_stays_literal() {
    let c = Command::new("{{a b}}".to_string());
    assert_eq!(c.parts, vec![text("{{a b}}")]);
}

#[test]
fn tokenize_triple_braces() {
    let c = Command::new("{{{a}}}".to_string());
    assert_eq!(c.parts, vec![text("{"), var("a"), text("}")]);
}

#[test]
fn round_trip_reconstructs_raw() {
    let samples = [
        "",
        "echo hi",
        "{{a}}",
        "{{a}} and {{b}}",
        "{{}}",
        "{{{a}}}",
        "}}{{",
        "{{unclosed",
        "{{a b}}",
        "tail {{x}}",
        "{{x}} head",
        "h\u{e9}llo {{who}} \u{2713}",
        "{{x}}{{x}}{{x}}",
    ];
    for s in samples {
        let c = Command::new(s.to_string());
        assert_eq!(c.current(), s, "round trip failed for {:?}", s);
    }
}

#[test]
fn extraction_order_and_duplicates() {
    let c = Command::new("{{x}} {{y}} {{x}}".to_string());
    assert_eq!(c.extract_variables(), vec!["x".to_string(), "y".to_string(), "x".to_string()]);
}

#[test]
fn extract_variables_from_command_basic() {
    assert_eq!(extract_variables_from_command("echo {{foo}}"), vec!["foo".to_string()]);
    assert_eq!(extract_variables_from_command("no vars"), Vec::<String>::new());
}

#[test]
fn render_substitutes_values() {
    let c = Command::new("cp {{src}} {{dst}}".to_string());
    let values = vec![
        ("src".to_string(), "a.txt".to_string()),
        ("dst".to_string(), "b.txt".to_string()),
    ];
    assert_eq!(c.build_final_command(&values), "cp a.txt b.txt");
}

#[test]
fn render_missing_value_is_empty() {
    let c = Command::new("echo {{a}} {{b}}".to_string());
    let values = vec![("a".to_string(), "hi".to_string())];
    assert_eq!(c.build_final_command(&values), "echo hi ");
}

#[test]
fn render_no_values_at_all() {
    let c = Command::new("run {{x}} now".to_string());
    let values: Vec<(String, String)> = Vec::new();
    assert_eq!(c.build_final_command(&values), "run  now");
}

#[test]
fn replace_variable_name_everywhere() {
    let mut c = Command::new("mv {{src}} {{dst}}/{{src}}".to_string());
    c.replace_variable_name("src", "origin");
    assert_eq!(c.raw, "mv {{origin}} {{dst}}/{{origin}}");
    assert_eq!(
        c.extract_variables(),
        vec!["origin".to_string(), "dst".to_string(), "origin".to_string()]
    );
}

#[test]
fn replace_variable_name_to_non_word_degrades_to_literal() {
    let mut c = Command::new("run {{a}}".to_string());
    c.replace_variable_name("a", "a b");
    assert_eq!(c.raw, "run {{a b}}");
    assert_eq!(c.parts, vec![text("run {{a b}}")]);
}

#[test]
fn current_equals_raw_after_new() {
    let c = Command::new("ssh {{host}} -p {{port}}".to_string());
    assert_eq!(c.current(), c.raw);
}

#[test]
fn tokenize_extra_closing_brace_stays_literal() {
    let c = Command::new("{{a}}}".to_string());
    assert_eq!(c.parts, vec![var("a"), text("}")]);
}

#[test]
fn render_does_not_rescan_substituted_values() {
    let c = Command::new("echo {{a}}".to_string());
    let values = vec![("a".to_string(), "{{b}}".to_string())];
    assert_eq!(c.build_final_command(&values), "echo {{b}}");
}

#[test]
fn render_first_binding_wins() {
    let c = Command::new("{{k}}".to_string());
    let values = vec![
        ("k".to_string(), "one".to_string()),
        ("k".to_string(), "two".to_string()),
    ];
    assert_eq!(c.build_final_command(&values), "one");
}
