use minishell::dispatcher::{
    classify, dispatch, is_builtin, join_tokens, parse_i32, path_candidates, Action, TypeAnswer,
};

fn owned(parts: &[&str]) -> Vec<String> {
    parts.iter().map(|p| String::from(*p)).collect()
}

#[test]
fn parse_i32_accepts_plain_numbers() {
    assert_eq!(parse_i32("42"), Some(42));
    assert_eq!(parse_i32("0"), Some(0));
    assert_eq!(parse_i32("007"), Some(7));
}

#[test]
fn parse_i32_accepts_signs() {
    assert_eq!(parse_i32("+7"), Some(7));
    assert_eq!(parse_i32("-7"), Some(-7));
    assert_eq!(parse_i32("+0"), Some(0));
    assert_eq!(parse_i32("-0"), Some(0));
}

#[test]
fn parse_i32_honors_the_exact_bounds() {
    assert_eq!(parse_i32("2147483647"), Some(i32::MAX));
    assert_eq!(parse_i32("-2147483648"), Some(i32::MIN));
    assert_eq!(parse_i32("2147483648"), None);
    assert_eq!(parse_i32("-2147483649"), None);
    assert_eq!(parse_i32("99999999999999999999"), None);
}

#[test]
fn parse_i32_rejects_non_numbers() {
    assert_eq!(parse_i32(""), None);
    assert_eq!(parse_i32("-"), None);
    assert_eq!(parse_i32("+"), None);
    assert_eq!(parse_i32("abc"), None);
    assert_eq!(parse_i32("12a"), None);
    assert_eq!(parse_i32(" 1"), None);
    assert_eq!(parse_i32("1 "), None);
}

#[test]
fn builtin_names_are_the_five() {
    for name in ["cd", "pwd", "echo", "exit", "type"] {
        assert!(is_builtin(&String::from(name)));
    }
    assert!(!is_builtin(&String::from("ls")));
    assert!(!is_builtin(&String::from("")));
}

#[test]
fn type_reports_builtins_before_executables() {
    let shadowed = classify(&String::from("cd"), Some(String::from("/bin/cd")));
    assert_eq!(shadowed, TypeAnswer::Builtin);
    assert_eq!(classify(&String::from("echo"), None), TypeAnswer::Builtin);
}

#[test]
fn type_reports_found_executables_and_misses() {
    let found = classify(&String::from("ls"), Some(String::from("/bin/ls")));
    assert_eq!(found, TypeAnswer::External(String::from("/bin/ls")));
    assert_eq!(classify(&String::from("nope"), None), TypeAnswer::NotFound);
}

#[test]
fn empty_line_dispatches_to_nothing() {
    assert_eq!(dispatch(&owned(&[])), Action::Nop);
}

#[test]
fn pwd_takes_no_arguments() {
    assert_eq!(dispatch(&owned(&["pwd"])), Action::Pwd);
    assert_eq!(
        dispatch(&owned(&["pwd", "x"])),
        Action::Execute(String::from("pwd"), owned(&["x"]))
    );
}

#[test]
fn cd_takes_exactly_one_argument() {
    assert_eq!(dispatch(&owned(&["cd", "/x"])), Action::Cd(String::from("/x")));
    assert_eq!(
        dispatch(&owned(&["cd"])),
        Action::Execute(String::from("cd"), owned(&[]))
    );
    assert_eq!(
        dispatch(&owned(&["cd", "a", "b"])),
        Action::Execute(String::from("cd"), owned(&["a", "b"]))
    );
}

#[test]
fn echo_joins_its_arguments_with_single_spaces() {
    assert_eq!(dispatch(&owned(&["echo", "a", "b c"])), Action::Echo(String::from("a b c")));
    assert_eq!(dispatch(&owned(&["echo"])), Action::Echo(String::new()));
}

#[test]
fn exit_parses_its_code() {
    assert_eq!(dispatch(&owned(&["exit", "3"])), Action::Exit(Some(3)));
    assert_eq!(dispatch(&owned(&["exit"])), Action::Exit(Some(0)));
    assert_eq!(dispatch(&owned(&["exit", "many"])), Action::Exit(None));
    assert_eq!(
        dispatch(&owned(&["exit", "1", "2"])),
        Action::Execute(String::from("exit"), owned(&["1", "2"]))
    );
}

#[test]
fn type_query_takes_exactly_one_argument() {
    assert_eq!(dispatch(&owned(&["type", "cd"])), Action::TypeQuery(String::from("cd")));
    assert_eq!(
        dispatch(&owned(&["type"])),
        Action::Execute(String::from("type"), owned(&[]))
    );
}

#[test]
fn unknown_names_dispatch_to_external_commands() {
    assert_eq!(
        dispatch(&owned(&["ls", "-l", "/tmp"])),
        Action::Execute(String::from("ls"), owned(&["-l", "/tmp"]))
    );
}

#[test]
fn join_tokens_joins_from_an_offset() {
    let args = owned(&["echo", "a", "b"]);
    assert_eq!(join_tokens(&args, 0), "echo a b");
    assert_eq!(join_tokens(&args, 1), "a b");
    assert_eq!(join_tokens(&args, 3), "");
}

#[test]
fn path_candidates_walk_the_segments_in_order() {
    assert_eq!(
        path_candidates("/bin:/usr/bin", "ls"),
        owned(&["/bin/ls", "/usr/bin/ls"])
    );
}

#[test]
fn path_candidates_keep_empty_segments_and_trailing_slashes() {
    assert_eq!(path_candidates("a::b/", "ls"), owned(&["a/ls", "ls", "b/ls"]));
}

#[test]
fn path_candidates_pass_absolute_names_through() {
    assert_eq!(path_candidates("/bin:/sbin", "/opt/x"), owned(&["/opt/x", "/opt/x"]));
}
