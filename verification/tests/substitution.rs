use remake::parser::normalize_command_output;
use remake::subst::{BuildInstruction, GlobalTable};

fn chars(s: &str) -> Vec<char> {
    s.chars().collect()
}

fn text(v: &[char]) -> String {
    v.iter().collect()
}

fn expand(template: &str, pairs: &[(&str, &str)]) -> String {
    let mut table = GlobalTable::new();
    for (name, value) in pairs {
        table.insert(chars(name), chars(value));
    }
    text(&BuildInstruction::new(&chars(template), &table).command_string)
}

#[test]
fn undefined_variable_expands_to_empty() {
    assert_eq!(expand("%UNDEFINED", &[]), "");
    assert_eq!(expand("a %UNDEFINED b", &[]), "a b");
}

#[test]
fn escaped_percent_is_literal_and_never_looked_up() {
    assert_eq!(expand("\\%NAME", &[]), "\\%NAME");
    assert_eq!(expand("\\%NAME", &[("NAME", "value")]), "\\%NAME");
}

#[test]
fn defined_variable_is_inserted_verbatim() {
    assert_eq!(expand("echo %V done", &[("V", "xy z")]), "echo xy zdone");
    assert_eq!(expand("%V", &[("V", "solo")]), "solo");
}

#[test]
fn token_ends_at_whitespace_which_is_consumed() {
    // The space that ends a token is swallowed by the substitution.
    assert_eq!(expand("a %B c", &[("B", "b")]), "a bc");
}

#[test]
fn a_new_percent_restarts_the_token() {
    assert_eq!(expand("x %A%B y", &[("A", "1"), ("B", "2")]), "x 2y");
}

#[test]
fn trailing_token_is_expanded_at_end_of_template() {
    assert_eq!(expand("echo build-a %GREETING", &[("GREETING", "hello ")]), "echo build-a hello ");
}

#[test]
fn redefining_a_variable_overwrites_it() {
    let mut table = GlobalTable::new();
    table.insert(chars("V"), chars("one"));
    table.insert(chars("V"), chars("two"));
    assert_eq!(table.len(), 1);
    assert_eq!(
        text(&BuildInstruction::new(&chars("%V"), &table).command_string),
        "two"
    );
}

#[test]
fn lookup_finds_only_defined_names() {
    let mut table = GlobalTable::new();
    table.insert(chars("A"), chars("1"));
    assert_eq!(table.lookup(&chars("A")).map(|v| text(v)), Some("1".to_string()));
    assert!(table.lookup(&chars("B")).is_none());
}

#[test]
fn trailing_newline_of_captured_output_becomes_a_space() {
    assert_eq!(text(&normalize_command_output(chars("hello\n"))), "hello ");
    assert_eq!(text(&normalize_command_output(chars("hello"))), "hello");
    assert_eq!(text(&normalize_command_output(chars(""))), "");
    // Only a single trailing newline is replaced.
    assert_eq!(text(&normalize_command_output(chars("a\n\n"))), "a\n ");
}
