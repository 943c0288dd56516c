use rshell::builtin::{cd_plan, is_builtin, run_builtin, BuiltinRequest, CdPlan};
use rshell::builtins;
use rshell::env::Environment;
use rshell::escapes::{expand_echo_escapes, interpret_echo_text};
use rshell::lexer::{lex, Token};
use rshell::line::{line_step, LineStep};
use rshell::parser::{build_ast, referenced_variables, try_build_ast, Node};
use rshell::plan::{next_action, plan_line, LineAction, Step};
use rshell::process::Process;

fn process(cmd: &str, args: &[&str]) -> Process {
    Process {
        cmd: cmd.to_string(),
        args: args.iter().map(|a| a.to_string()).collect(),
    }
}

fn tokens_of(line: &str) -> Vec<Token> {
    lex(line).unwrap()
}

fn steps_of(line: &str) -> Vec<Step> {
    let env = Environment::new();
    plan_line(&tokens_of(line), &env).unwrap().unwrap()
}

fn proc_text(p: &Process) -> String {
    format!("{} {:?}", p.cmd, p.args)
}

// ---- lexer ----

#[test]
fn lex_unterminated_single_quote() {
    let r = lex("echo 'abc\n");
    assert_eq!(r.unwrap_err(), "unterminated single quote");
}

#[test]
fn lex_unterminated_double_quote() {
    let r = lex("echo \"abc\ndef\"");
    assert_eq!(r.unwrap_err(), "unterminated double quote");
}

#[test]
fn lex_quote_closed_by_end_of_input() {
    let r = lex("echo 'abc");
    assert_eq!(format!("{:?}", r.unwrap()), r#"[Id("echo"), Id("abc")]"#);
}

#[test]
fn lex_all_operators() {
    let r = lex("a || b && c & d >> f > g | h < i ; ( ) { } $");
    assert_eq!(
        format!("{:?}", r.unwrap()),
        r#"[Id("a"), Or, Id("b"), And, Id("c"), Background, Id("d"), RedirectOutputAppend, Id("f"), RedirectOutput, Id("g"), Pipe, Id("h"), RedirectInput, Id("i"), Semicolon, LeftParen, RightParen, LeftCurlyBracket, RightCurlyBracket, Dollar]"#
    );
}

#[test]
fn lex_unicode_letters_continue_a_word() {
    let r = lex("echo héllo");
    assert_eq!(format!("{:?}", r.unwrap()), r#"[Id("echo"), Id("héllo")]"#);
}

// ---- environment ----

#[test]
fn environment_later_definition_wins() {
    let mut env = Environment::new();
    env.set("X", "1");
    env.set("Y", "other");
    env.set("X", "2");
    assert_eq!(env.lookup("X"), Ok("2".to_string()));
    assert_eq!(env.lookup("Y"), Ok("other".to_string()));
    assert_eq!(env.lookup("Z"), Err("environment variable not found".to_string()));
}

#[test]
fn environment_records_failed_lookups() {
    let mut env = Environment::new();
    env.define("BAD".to_string(), Err("environment variable was not valid unicode".to_string()));
    assert_eq!(
        env.lookup("BAD"),
        Err("environment variable was not valid unicode".to_string())
    );
}

// ---- parser ----

#[test]
fn referenced_variables_in_order() {
    let keys = referenced_variables(&tokens_of("echo $A $B; ls $"));
    assert_eq!(keys, vec!["A".to_string(), "B".to_string()]);
}

#[test]
fn dollar_at_end_stands_for_itself() {
    let env = Environment::new();
    let ast = build_ast(&tokens_of("echo $"), &env).unwrap();
    assert_eq!(format!("{:?}", ast), r#"[Command { cmd: "echo", args: ["$"] }]"#);
}

#[test]
fn dollar_before_operator_is_an_error() {
    let env = Environment::new();
    let r = build_ast(&tokens_of("echo $;"), &env);
    assert_eq!(r.unwrap_err(), "invalid argument to $");
}

#[test]
fn unset_variable_is_an_error() {
    let env = Environment::new();
    let r = build_ast(&tokens_of("echo $NOPE"), &env);
    assert_eq!(r.unwrap_err(), "environment variable not found");
}

#[test]
fn variable_expands_to_its_value() {
    let mut env = Environment::new();
    env.set("HOME", "/home/u");
    let ast = build_ast(&tokens_of("ls $HOME"), &env).unwrap();
    assert_eq!(format!("{:?}", ast), r#"[Command { cmd: "ls", args: ["/home/u"] }]"#);
}

#[test]
fn unmatched_right_paren() {
    let env = Environment::new();
    assert_eq!(build_ast(&tokens_of("ls )"), &env).unwrap_err(), "parse error near ')'");
}

#[test]
fn unmatched_left_paren() {
    let env = Environment::new();
    assert_eq!(build_ast(&tokens_of("(ls"), &env).unwrap_err(), "unmatched '('");
}

#[test]
fn unmatched_left_curly_bracket() {
    let env = Environment::new();
    assert_eq!(build_ast(&tokens_of("{ ls"), &env).unwrap_err(), "unmatched '{'");
}

#[test]
fn output_redirection_without_file() {
    let env = Environment::new();
    let r = try_build_ast(&tokens_of("echo >"), &env);
    assert_eq!(r.unwrap().unwrap_err(), "parse error near '>'");
}

#[test]
fn trailing_input_redirection_is_a_parse_error() {
    let env = Environment::new();
    let r = try_build_ast(&tokens_of("cat <"), &env);
    assert_eq!(r.unwrap().unwrap_err(), "parse error near '<'");
}

#[test]
fn pipe_first_in_group_has_no_tree() {
    let env = Environment::new();
    assert!(try_build_ast(&tokens_of("{ | ls }"), &env).is_none());
}

#[test]
fn try_build_ast_agrees_with_build_ast() {
    let env = Environment::new();
    let toks = tokens_of("ls -l | wc; (echo hi)");
    let a = format!("{:?}", try_build_ast(&toks, &env).unwrap().unwrap());
    let b = format!("{:?}", build_ast(&toks, &env).unwrap());
    assert_eq!(a, b);
    let ast = build_ast(&toks, &env).unwrap();
    assert!(matches!(ast[1], Node::Subshell { .. }));
}

// ---- plans ----

#[test]
fn plan_of_sequence() {
    let steps = steps_of("ls -l; echo hi");
    assert_eq!(steps.len(), 2);
    match (&steps[0], &steps[1]) {
        (Step::Run { proc: a, record: ra }, Step::Run { proc: b, record: rb }) => {
            assert_eq!(proc_text(a), r#"ls ["-l"]"#);
            assert_eq!(proc_text(b), r#"echo ["hi"]"#);
            assert!(*ra && *rb);
        }
        _ => panic!("unexpected steps"),
    }
}

#[test]
fn plan_of_subshell_runs_the_shell_itself() {
    let steps = steps_of("(echo hi)");
    match &steps[..] {
        [Step::Run { proc, record: true }] => {
            assert_eq!(proc_text(proc), r#"./target/debug/rshell ["-c", "echo hi "]"#);
        }
        _ => panic!("unexpected steps"),
    }
}

#[test]
fn plan_of_pipeline() {
    let steps = steps_of("ls | wc -l");
    match &steps[..] {
        [Step::RunPipe { procs, record: true }] => {
            assert_eq!(procs.len(), 2);
            assert_eq!(proc_text(&procs[0]), "ls []");
            assert_eq!(proc_text(&procs[1]), r#"wc ["-l"]"#);
        }
        _ => panic!("unexpected steps"),
    }
}

#[test]
fn plan_of_input_redirection() {
    let steps = steps_of("cat < notes");
    match &steps[..] {
        [Step::RunRedirectInput { proc, file, record: true }] => {
            assert_eq!(proc_text(proc), "cat []");
            assert_eq!(file, "notes");
        }
        _ => panic!("unexpected steps"),
    }
}

#[test]
fn plan_of_output_redirection_is_not_carried_out() {
    let steps = steps_of("ls > out");
    assert!(matches!(&steps[..], [Step::Unsupported]));
}

#[test]
fn plan_of_inline_group_records_no_status() {
    let steps = steps_of("{ ls; pwd }");
    match &steps[..] {
        [Step::Run { proc: a, record: false }, Step::Run { proc: b, record: false }] => {
            assert_eq!(proc_text(a), "ls []");
            assert_eq!(proc_text(b), "pwd []");
        }
        _ => panic!("unexpected steps"),
    }
}

#[test]
fn plan_line_reports_syntax_errors() {
    let env = Environment::new();
    let r = plan_line(&tokens_of("ls )"), &env).unwrap();
    assert_eq!(r.err().unwrap(), "parse error near ')'");
    assert!(plan_line(&tokens_of("{ < f }"), &env).is_none());
}

// ---- line continuation ----

#[test]
fn blank_input_is_empty() {
    assert!(matches!(line_step(""), LineStep::Empty));
    assert!(matches!(line_step("  \t\n"), LineStep::Empty));
}

#[test]
fn complete_line_runs() {
    assert!(matches!(line_step("ls -l\n"), LineStep::Run));
}

#[test]
fn trailing_backslash_continues() {
    match line_step("  ls \\\n") {
        LineStep::Continue(s) => assert_eq!(s, "ls "),
        _ => panic!("expected a continuation"),
    }
}

#[test]
fn double_trailing_backslash_runs() {
    assert!(matches!(line_step("ls \\\\\n"), LineStep::Run));
}

#[test]
fn unicode_white_space_is_trimmed() {
    assert!(matches!(line_step("\u{A0}ls\u{3000}"), LineStep::Run));
    match line_step("ls \\\u{2003}") {
        LineStep::Continue(s) => assert_eq!(s, "ls "),
        _ => panic!("expected a continuation"),
    }
}

#[test]
fn lone_backslash_continues_with_nothing() {
    match line_step("\\\n") {
        LineStep::Continue(s) => assert_eq!(s, ""),
        _ => panic!("expected a continuation"),
    }
}

#[test]
fn non_ascii_line_runs() {
    assert!(matches!(line_step("echo é\n"), LineStep::Run));
    match line_step("echo é\\\n") {
        LineStep::Continue(s) => assert_eq!(s, "echo é"),
        _ => panic!("expected a continuation"),
    }
}

// ---- builtins ----

#[test]
fn builtin_names() {
    for name in ["cd", "exit", "pwd", "echo", "clear"] {
        assert!(is_builtin(name));
        assert!(builtins::is_builtin(name));
    }
    assert!(!is_builtin("ls"));
    assert!(!is_builtin("ech"));
    assert!(!builtins::is_builtin("echo "));
}

#[test]
fn builtin_requests() {
    let mut out = Vec::new();
    assert!(matches!(run_builtin(&mut out, &process("cd", &["/tmp"])), BuiltinRequest::ChangeDirectory));
    assert!(matches!(run_builtin(&mut out, &process("pwd", &[])), BuiltinRequest::PrintWorkingDirectory));
    match run_builtin(&mut out, &process("pwd", &["x"])) {
        BuiltinRequest::Complain(m) => assert_eq!(m, "pwd: too many args"),
        _ => panic!("expected a complaint"),
    }
    assert!(matches!(run_builtin(&mut out, &process("clear", &[])), BuiltinRequest::ClearScreen));
    assert!(matches!(run_builtin(&mut out, &process("exit", &[])), BuiltinRequest::Exit));
    assert!(matches!(run_builtin(&mut out, &process("ls", &[])), BuiltinRequest::Done));
    assert!(out.is_empty());
}

#[test]
fn echo_octal_escape() {
    let mut out = Vec::new();
    run_builtin(&mut out, &process("echo", &["-e", "\\0101"]));
    assert_eq!(out, b"A \n");
}

#[test]
fn echo_hex_escape() {
    let mut out = Vec::new();
    run_builtin(&mut out, &process("echo", &["-e", "\\x41"]));
    assert_eq!(out, b"A \n");
}

#[test]
fn echo_zero_without_octal_digit_is_text() {
    let mut out = Vec::new();
    run_builtin(&mut out, &process("echo", &["-e", "\\08"]));
    assert_eq!(out, b"\\08 \n");
}

#[test]
fn echo_octal_escape_gives_a_byte() {
    let mut out = Vec::new();
    run_builtin(&mut out, &process("echo", &["-e", "\\0351"]));
    assert_eq!(out, b"\xE9 \n");
}

#[test]
fn echo_upper_e_disables_escapes() {
    let mut out = Vec::new();
    run_builtin(&mut out, &process("echo", &["-e", "-E", "a\\nb"]));
    assert_eq!(out, b"a\\nb \n");
    let mut out = Vec::new();
    run_builtin(&mut out, &process("echo", &["-Ee", "a\\nb"]));
    assert_eq!(out, b"a\nb \n");
}

#[test]
fn echo_stop_and_no_newline() {
    let mut out = Vec::new();
    run_builtin(&mut out, &process("echo", &["-n", "-e", "a\\cb"]));
    assert_eq!(out, b"a");
}

#[test]
fn echo_options_in_one_word() {
    let mut out = Vec::new();
    run_builtin(&mut out, &process("echo", &["-ne", "x\\ty"]));
    assert_eq!(out, b"x\ty ");
}

#[test]
fn echo_dash_after_operand_is_text() {
    let mut out = Vec::new();
    run_builtin(&mut out, &process("echo", &["a", "-n"]));
    assert_eq!(out, b"a -n \n");
}

#[test]
fn cd_without_arguments_goes_home() {
    match cd_plan(&vec![], "/home/u") {
        CdPlan::Enter(p) => assert_eq!(p, "/home/u"),
        _ => panic!("expected to enter home"),
    }
}

#[test]
fn cd_expands_tilde() {
    match cd_plan(&vec!["~/x".to_string()], "/home/u") {
        CdPlan::TryEnter { path, complaint } => {
            assert_eq!(path, "/home/u/x");
            assert_eq!(complaint, "cd: invalid directory ~/x");
        }
        _ => panic!("expected a directory to try"),
    }
}

#[test]
fn cd_merges_adjacent_home_copies() {
    match cd_plan(&vec!["~~".to_string()], "/home/u") {
        CdPlan::TryEnter { path, .. } => assert_eq!(path, "/home/u"),
        _ => panic!("expected a directory to try"),
    }
}

#[test]
fn cd_with_two_arguments_complains() {
    match cd_plan(&vec!["a".to_string(), "b".to_string()], "/home/u") {
        CdPlan::Complain(m) => assert_eq!(m, "cd: incorrect args"),
        _ => panic!("expected a complaint"),
    }
}

#[test]
fn early_builtins_interface() {
    assert_eq!(builtins::run_builtin(process("exit", &[])), 1);
    assert_eq!(builtins::run_builtin(process("cd", &[])), 0);
    assert_eq!(builtins::run_builtin(process("ls", &[])), 0);
    assert_eq!(builtins::pending_message("pwd"), Some("TODO!".to_string()));
    assert_eq!(builtins::pending_message("exit"), None);
    assert_eq!(builtins::pending_message("ls"), None);
}

// ---- escapes ----

#[test]
fn escaped_backslash_is_not_read_again() {
    assert_eq!(interpret_echo_text("a\\\\nb"), b"a\\nb".to_vec());
    assert_eq!(interpret_echo_text("\\\\c"), b"\\c".to_vec());
}

#[test]
fn hexadecimal_escape_takes_letters() {
    assert_eq!(interpret_echo_text("\\x4a"), b"J".to_vec());
    assert_eq!(interpret_echo_text("\\x4"), b"\x04".to_vec());
    assert_eq!(interpret_echo_text("\\xg"), b"\\xg".to_vec());
}

#[test]
fn simple_escapes_give_their_bytes() {
    assert_eq!(interpret_echo_text("a\\tb\\n"), b"a\tb\n".to_vec());
}

#[test]
fn plain_text_is_unchanged() {
    assert_eq!(interpret_echo_text("hello wörld"), "hello wörld".as_bytes().to_vec());
}

#[test]
fn stop_cuts_the_output() {
    let g: Vec<String> = ["a", "\\", "c", "d"].iter().map(|s| s.to_string()).collect();
    assert_eq!(expand_echo_escapes(&g), b"a".to_vec());
    assert_eq!(interpret_echo_text("é\\"), "é\\".as_bytes().to_vec());
}

#[test]
fn escape_letter_with_a_mark_keeps_the_mark() {
    assert_eq!(interpret_echo_text("\\n\u{301}"), "\n\u{301}".as_bytes().to_vec());
    assert_eq!(interpret_echo_text("\\c\u{301}x"), "\\c\u{301}x".as_bytes().to_vec());
    assert_eq!(interpret_echo_text("\\x4\u{301}"), "\u{4}\u{301}".as_bytes().to_vec());
}

#[test]
fn build_ignores_unreferenced_variables() {
    let toks = tokens_of("echo $A; ls");
    let mut small = Environment::new();
    small.set("A", "1");
    let mut large = Environment::new();
    large.set("UNUSED", "x");
    large.set("A", "1");
    large.define("OTHER".to_string(), Err("environment variable not found".to_string()));
    let a = format!("{:?}", build_ast(&toks, &small).unwrap());
    let b = format!("{:?}", build_ast(&toks, &large).unwrap());
    assert_eq!(a, b);
    assert_eq!(a, r#"[Command { cmd: "echo", args: ["1"] }, Command { cmd: "ls", args: [] }]"#);
}

#[test]
fn escaped_space_joins_a_word() {
    let r = lex("cd my\\ dir");
    assert_eq!(format!("{:?}", r.unwrap()), r#"[Id("cd"), Id("my dir")]"#);
}

#[test]
fn digits_make_one_word() {
    let r = lex("head -n 10 file");
    assert_eq!(format!("{:?}", r.unwrap()), r#"[Id("head"), Id("-n"), Id("10"), Id("file")]"#);
}

#[test]
fn comma_stays_in_its_word() {
    let r = lex("ls $HOME; echo Hello, World");
    assert_eq!(
        format!("{:?}", r.unwrap()),
        r#"[Id("ls"), Dollar, Id("HOME"), Semicolon, Id("echo"), Id("Hello,"), Id("World")]"#
    );
}

#[test]
fn line_actions_follow_the_steps() {
    let steps = steps_of("ls; ls > out; pwd");
    assert!(matches!(next_action(&steps, 0, Ok(())), LineAction::Run(0)));
    assert!(matches!(next_action(&steps, 1, Ok(())), LineAction::Report(1)));
    assert!(matches!(next_action(&steps, 2, Ok(())), LineAction::Run(2)));
    assert!(matches!(next_action(&steps, 3, Ok(())), LineAction::Finish));
    match next_action(&steps, 1, Err("No such file or directory".to_string())) {
        LineAction::Stop(e) => assert_eq!(e, "No such file or directory"),
        _ => panic!("expected the line to stop"),
    }
}

#[test]
fn failing_step_stops_the_line() {
    let steps = steps_of("{ { ls } } | wc; pwd");
    match next_action(&steps, 0, Ok(())) {
        LineAction::Stop(e) => assert_eq!(e, "cannot convert command to process"),
        _ => panic!("expected the line to stop"),
    }
}

#[test]
fn space_splits_lexing() {
    let a = "ls -l|wc";
    let b = "echo x>>f";
    let whole = format!("{:?}", lex(&format!("{a} {b}")).unwrap());
    let mut parts = lex(a).unwrap();
    parts.extend(lex(b).unwrap());
    assert_eq!(whole, format!("{:?}", parts));
}

#[test]
fn subshell_text_relexes() {
    let env = Environment::new();
    let ast = build_ast(&tokens_of("(ls a1; echo $HOME (pwd))"), &env).unwrap();
    match &ast[..] {
        [Node::Subshell { cmd }] => {
            assert_eq!(cmd, "ls a1 ;echo $HOME (pwd )");
            assert_eq!(
                format!("{:?}", lex(cmd).unwrap()),
                r#"[Id("ls"), Id("a1"), Semicolon, Id("echo"), Dollar, Id("HOME"), LeftParen, Id("pwd"), RightParen]"#
            );
        }
        _ => panic!("expected one subshell"),
    }
}

#[test]
fn space_after_escaped_backslash_splits_lexing() {
    let whole = format!("{:?}", lex("x\\\\ y").unwrap());
    assert_eq!(whole, r#"[Id("x\\"), Id("y")]"#);
    let mut parts = lex("x\\\\").unwrap();
    parts.extend(lex("y").unwrap());
    assert_eq!(whole, format!("{:?}", parts));
}

#[test]
fn nodes_can_be_cloned() {
    let env = Environment::new();
    let ast = build_ast(&tokens_of("{ ls | wc; cat < f } ; (pwd)"), &env).unwrap();
    let copy = ast.clone();
    assert_eq!(format!("{:?}", ast), format!("{:?}", copy));
}

#[test]
fn white_space_of_other_scripts_is_trimmed() {
    assert!(matches!(line_step("\u{85}\u{1680}\u{205F}"), LineStep::Empty));
    assert!(matches!(line_step("\u{200B}"), LineStep::Run));
}
