use remake::graph::{BuildTree, GraphError};
use remake::parser::{Advance, ParseError, ParseSession};
use remake::subst::GlobalTable;
use remake::{find_target, BuildTarget};

fn chars(s: &str) -> Vec<char> {
    s.chars().collect()
}

fn text(v: &[char]) -> String {
    v.iter().collect()
}

/// Drives a whole parse, answering each command the parser hands out with the
/// next canned output, as a substitute for a real shell.
fn parse_with_outputs(source: &str, outputs: &[&str]) -> (Vec<BuildTarget>, GlobalTable, Vec<String>) {
    let mut session = ParseSession::new(chars(source));
    let mut next_output = 0;
    let mut commands = Vec::new();
    loop {
        match session.advance() {
            Advance::RunCommand(cmd) => {
                commands.push(text(&cmd));
                session.supply_output(chars(outputs[next_output]));
                next_output += 1;
            }
            Advance::Progress => {}
            Advance::Finished => break,
            Advance::Failed(e) => panic!("unexpected parse failure: {:?}", e),
        }
    }
    assert_eq!(next_output, outputs.len());
    (session.targets, session.globals, commands)
}

fn parse_error(source: &str, outputs: &[&str]) -> ParseError {
    let mut session = ParseSession::new(chars(source));
    let mut next_output = 0;
    loop {
        match session.advance() {
            Advance::RunCommand(_) => {
                session.supply_output(chars(outputs[next_output]));
                next_output += 1;
            }
            Advance::Progress => {}
            Advance::Finished => panic!("parse finished without the expected failure"),
            Advance::Failed(e) => return e,
        }
    }
}

const EXAMPLE_ONE: &str =
    "export GREETING=hello\na: b c\n\techo build-a %GREETING\nb:\n\techo build-b\nc:\n\techo build-c\n";

#[test]
fn example_one_parses_targets_and_globals() {
    let (targets, globals, commands) = parse_with_outputs(EXAMPLE_ONE, &["hello\n"]);
    assert_eq!(commands, vec!["echo hello".to_string()]);
    assert_eq!(globals.len(), 1);
    {
        let (name, value) = globals.entry(0);
        assert_eq!(text(name), "GREETING");
        assert_eq!(text(value), "hello ");
    }
    assert_eq!(targets.len(), 3);
    assert_eq!(text(&targets[0].name), "a");
    let deps: Vec<String> = targets[0].dependencies.iter().map(|d| text(d)).collect();
    assert_eq!(deps, vec!["b".to_string(), "c".to_string()]);
    assert_eq!(targets[0].build_commands.len(), 1);
    // The trailing substitution keeps the space that replaced the captured
    // output's newline.
    assert_eq!(
        text(&targets[0].build_commands[0].command_string),
        "echo build-a hello "
    );
    assert_eq!(text(&targets[1].name), "b");
    assert!(targets[1].dependencies.is_empty());
    assert_eq!(text(&targets[1].build_commands[0].command_string), "echo build-b");
    assert_eq!(text(&targets[2].name), "c");
    assert_eq!(text(&targets[2].build_commands[0].command_string), "echo build-c");
}

#[test]
fn example_one_graph_and_stage_order() {
    let (targets, _globals, _) = parse_with_outputs(EXAMPLE_ONE, &["hello\n"]);
    let root = find_target(&targets, &chars("a")).expect("target a exists");
    let tree = BuildTree::new(root, &targets).expect("graph builds");
    let mut depths: Vec<(String, usize)> = tree
        .target_map
        .iter()
        .map(|&(i, d)| (text(&targets[i].name), d))
        .collect();
    depths.sort();
    assert_eq!(
        depths,
        vec![
            ("a".to_string(), 0),
            ("b".to_string(), 1),
            ("c".to_string(), 1)
        ]
    );
    let stages = tree.build();
    assert_eq!(stages.len(), 2);
    let mut first: Vec<String> = stages[0].iter().map(|&i| text(&targets[i].name)).collect();
    first.sort();
    assert_eq!(first, vec!["b".to_string(), "c".to_string()]);
    let last: Vec<String> = stages[1].iter().map(|&i| text(&targets[i].name)).collect();
    assert_eq!(last, vec!["a".to_string()]);
}

#[test]
fn reparsing_same_text_is_deterministic() {
    let (t1, g1, c1) = parse_with_outputs(EXAMPLE_ONE, &["hello\n"]);
    let (t2, g2, c2) = parse_with_outputs(EXAMPLE_ONE, &["hello\n"]);
    assert_eq!(c1, c2);
    assert_eq!(g1.len(), g2.len());
    for i in 0..g1.len() {
        let (n1, v1) = g1.entry(i);
        let (n2, v2) = g2.entry(i);
        assert_eq!(n1, n2);
        assert_eq!(v1, v2);
    }
    assert_eq!(t1.len(), t2.len());
    for i in 0..t1.len() {
        assert_eq!(t1[i].name, t2[i].name);
        assert_eq!(t1[i].dependencies, t2[i].dependencies);
        let i1: Vec<&Vec<char>> = t1[i].build_commands.iter().map(|c| &c.command_string).collect();
        let i2: Vec<&Vec<char>> = t2[i].build_commands.iter().map(|c| &c.command_string).collect();
        assert_eq!(i1, i2);
    }
}

#[test]
fn export_evaluation_builds_echo_command() {
    // `export V=echo -n literal-value` runs `echo echo -n literal-value`, and
    // the captured output's trailing newline becomes a space.
    let (_, globals, commands) =
        parse_with_outputs("export V=echo -n literal-value\n", &["echo -n literal-value\n"]);
    assert_eq!(commands, vec!["echo echo -n literal-value".to_string()]);
    let (name, value) = globals.entry(0);
    assert_eq!(text(name), "V");
    assert_eq!(text(value), "echo -n literal-value ");
}

#[test]
fn export_without_separator_echoes_its_own_name() {
    let (_, globals, commands) = parse_with_outputs("export FOO\n", &["FOO\n"]);
    assert_eq!(commands, vec!["echo FOO".to_string()]);
    let (name, value) = globals.entry(0);
    assert_eq!(text(name), "FOO");
    assert_eq!(text(value), "FOO ");
}

#[test]
fn export_cut_short_by_end_of_input_is_dropped() {
    let (targets, globals, commands) = parse_with_outputs("export V=abc", &[]);
    assert!(commands.is_empty());
    assert_eq!(globals.len(), 0);
    assert!(targets.is_empty());
}

#[test]
fn missing_dependency_fails_before_any_execution() {
    let (targets, _, _) = parse_with_outputs("a: missing\n\techo hi\n", &[]);
    let root = find_target(&targets, &chars("a")).unwrap();
    match BuildTree::new(root, &targets) {
        Err(GraphError::UnresolvedDependency(n)) => assert_eq!(text(&n), "missing"),
        other => panic!("expected an unresolved dependency, got {:?}", other.is_ok()),
    }
}

#[test]
fn self_referential_cycle_is_reported() {
    let (targets, _, _) = parse_with_outputs("a: a\n\techo hi\n", &[]);
    let root = find_target(&targets, &chars("a")).unwrap();
    match BuildTree::new(root, &targets) {
        Err(GraphError::DependencyCycle(n)) => assert_eq!(text(&n), "a"),
        other => panic!("expected a cycle error, got {:?}", other.is_ok()),
    }
}

#[test]
fn longer_cycle_is_reported() {
    let (targets, _, _) = parse_with_outputs("a: b\nb: c\nc: a\n", &[]);
    let root = find_target(&targets, &chars("a")).unwrap();
    assert!(matches!(
        BuildTree::new(root, &targets),
        Err(GraphError::DependencyCycle(_))
    ));
}

#[test]
fn unknown_target_name_is_not_found() {
    let (targets, _, _) = parse_with_outputs("a:\n\techo hi\n", &[]);
    assert_eq!(find_target(&targets, &chars("x")), None);
    assert_eq!(find_target(&targets, &chars("a")), Some(0));
}

#[test]
fn two_path_target_gets_the_longer_depth() {
    // c is reachable directly (depth 1) and through b (depth 2): the longer
    // chain wins, and c's stage runs before b's, which runs before a's.
    let (targets, _, _) = parse_with_outputs("a: b c\nb: c\nc:\n", &[]);
    let root = find_target(&targets, &chars("a")).unwrap();
    let tree = BuildTree::new(root, &targets).unwrap();
    let mut depths: Vec<(String, usize)> = tree
        .target_map
        .iter()
        .map(|&(i, d)| (text(&targets[i].name), d))
        .collect();
    depths.sort();
    assert_eq!(
        depths,
        vec![
            ("a".to_string(), 0),
            ("b".to_string(), 1),
            ("c".to_string(), 2)
        ]
    );
    let stages = tree.build();
    let names: Vec<Vec<String>> = stages
        .iter()
        .map(|s| s.iter().map(|&i| text(&targets[i].name)).collect())
        .collect();
    assert_eq!(
        names,
        vec![
            vec!["c".to_string()],
            vec!["b".to_string()],
            vec!["a".to_string()]
        ]
    );
}

#[test]
fn later_duplicate_target_shadows_earlier() {
    let (targets, _, _) =
        parse_with_outputs("x:\n\techo first\nx:\n\techo second\n", &[]);
    assert_eq!(targets.len(), 2);
    let found = find_target(&targets, &chars("x")).unwrap();
    assert_eq!(found, 1);
    assert_eq!(text(&targets[found].build_commands[0].command_string), "echo second");
}

#[test]
fn whitespace_inside_target_name_is_an_error() {
    assert_eq!(
        parse_error("bad name:\n", &[]),
        ParseError::NameSeparator
    );
}

#[test]
fn unterminated_target_name_is_an_error() {
    assert_eq!(parse_error("justaname", &[]), ParseError::UnterminatedName);
}

#[test]
fn colon_without_name_is_an_error() {
    assert_eq!(parse_error(": b\n", &[]), ParseError::MissingTargetName);
}

#[test]
fn header_cut_short_by_end_of_input_is_an_error() {
    assert_eq!(parse_error("a: b c", &[]), ParseError::UnexpectedEnd);
}

#[test]
fn export_without_name_is_an_error() {
    assert_eq!(parse_error("export =v\n", &[]), ParseError::ExportMissingName);
    assert_eq!(parse_error("export \n", &[]), ParseError::ExportMissingName);
}

#[test]
fn instruction_block_ends_at_first_untabbed_line() {
    let (targets, _, _) =
        parse_with_outputs("a:\n\tone\n\ttwo\nb:\n\tthree\n", &[]);
    assert_eq!(targets.len(), 2);
    assert_eq!(targets[0].build_commands.len(), 2);
    assert_eq!(text(&targets[0].build_commands[0].command_string), "one");
    assert_eq!(text(&targets[0].build_commands[1].command_string), "two");
    assert_eq!(targets[1].build_commands.len(), 1);
    assert_eq!(text(&targets[1].build_commands[0].command_string), "three");
}

#[test]
fn extra_leading_tabs_are_stripped_and_blank_tab_line_is_empty_command() {
    let (targets, _, _) = parse_with_outputs("a:\n\t\tspaced\n\t\n", &[]);
    assert_eq!(targets[0].build_commands.len(), 2);
    assert_eq!(text(&targets[0].build_commands[0].command_string), "spaced");
    assert_eq!(text(&targets[0].build_commands[1].command_string), "");
}

#[test]
fn only_earlier_exports_are_visible_to_instructions() {
    // Instructions are expanded against the table as it stands at their point
    // in the file: a later export is invisible to an earlier target.
    let (targets, _, _) = parse_with_outputs(
        "a:\n\techo %V\nexport V=x\nb:\n\techo %V\n",
        &["x\n"],
    );
    assert_eq!(text(&targets[0].build_commands[0].command_string), "echo ");
    assert_eq!(text(&targets[1].build_commands[0].command_string), "echo x ");
}

#[test]
fn leading_whitespace_before_target_name_is_skipped() {
    let (targets, _, _) = parse_with_outputs("  a:\n\techo hi\n", &[]);
    assert_eq!(text(&targets[0].name), "a");
}
