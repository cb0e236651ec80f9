use glaze_layout::shell_exec::{
    candidate_program_paths, find_program_fault, parse_expanded_command, shell_exec,
    spawn_failed_message, validate_shell_program, ProgramFault,
};


#[test]
fn quoted_program_with_spaces_uses_closing_quote() {
    let (prog, args) =
        parse_expanded_command(r#""C:\Program Files\app.exe" --flag"#, &[])
            .unwrap();
    assert_eq!(prog, r"C:\Program Files\app.exe");
    assert_eq!(args, "--flag");
    validate_shell_program(&prog, "x").unwrap();
}

#[test]
fn quoted_program_with_quoted_arg() {
    let (prog, args) =
        parse_expanded_command(r#""C:\a b\c.exe" "d e""#, &[]).unwrap();
    assert_eq!(prog, r"C:\a b\c.exe");
    // Remainder keeps ShellExecute-style quoting for spaced args.
    assert_eq!(args, r#""d e""#);
    validate_shell_program(&prog, "x").unwrap();
}

#[test]
fn empty_quoted_program_rejected() {
    // Input is two quote chars: empty quoted program.
    let (prog, _args) = parse_expanded_command("\"\"", &[]).unwrap();
    assert_eq!(prog, "");
    assert!(validate_shell_program(&prog, "\"\"").is_err());
}

#[test]
fn empty_then_empty_does_not_yield_quote_space_program() {
    // The second quote ends the program, not the third.
    let input = "\"\" \"\"";
    let (prog, args) = parse_expanded_command(input, &[]).unwrap();
    assert_eq!(prog, "");
    assert_eq!(args, "\"\"");
    assert!(validate_shell_program(&prog, input).is_err());
}

#[test]
fn validate_rejects_quote_junk_and_bare_slashes() {
    assert!(validate_shell_program("\" ", "x").is_err());
    assert!(validate_shell_program(r"\\", "x").is_err());
    assert!(validate_shell_program(r"\ ", "x").is_err());
    assert!(validate_shell_program("zebar", "zebar start").is_ok());
    assert!(validate_shell_program(r"C:\Tools\app.exe", "x").is_ok());
}

#[test]
fn unquoted_simple_program() {
    let (prog, args) =
        parse_expanded_command("zebar start-widget-preset --pack x", &[]).unwrap();
    assert_eq!(prog, "zebar");
    assert_eq!(args, "start-widget-preset --pack x");
}

#[test]
fn unquoted_path_takes_shortest_file() {
    let command = r"C:\Program Files\Git\git-bash --cd=C:\Users\larsb\.glaze-wm";
    assert_eq!(
        candidate_program_paths(command),
        vec![
            r"C:\Program".to_string(),
            r"C:\Program Files\Git\git-bash".to_string(),
            r"C:\Program Files\Git\git-bash --cd=C:\Users\larsb\.glaze-wm".to_string(),
        ]
    );
    let files = [r"C:\Program Files\Git\git-bash".to_string()];
    assert_eq!(
        parse_expanded_command(command, &files),
        Ok((
            r"C:\Program Files\Git\git-bash".to_string(),
            r"--cd=C:\Users\larsb\.glaze-wm".to_string()
        ))
    );
    assert_eq!(
        parse_expanded_command(command, &[]),
        Err("program path is not valid.".to_string())
    );
    assert!(candidate_program_paths("code .").is_empty());
    assert!(candidate_program_paths(r#""C:\a b.exe" x"#).is_empty());
}

#[test]
fn words_are_joined_with_single_spaces() {
    assert_eq!(
        parse_expanded_command("  code   a  b ", &[]),
        Ok(("code".to_string(), "a b".to_string()))
    );
    assert_eq!(parse_expanded_command("code", &[]), Ok(("code".to_string(), String::new())));
    assert_eq!(
        parse_expanded_command("", &[]),
        Err("program path is not valid.".to_string())
    );
}

#[test]
fn program_faults_are_told_apart() {
    assert_eq!(find_program_fault("  "), Some(ProgramFault::Empty));
    assert_eq!(find_program_fault("a\"b"), Some(ProgramFault::LeftoverQuotes));
    assert_eq!(find_program_fault("\\\\ /"), Some(ProgramFault::Malformed));
    assert_eq!(find_program_fault("/bin/ls"), None);
    assert_eq!(
        validate_shell_program("a\"b", "orig"),
        Err(
            "Shell exec failed for 'orig': program path contains leftover quotes (\"a\\\"b\")."
                .to_string()
        )
    );
    assert_eq!(
        validate_shell_program(r"\\", "orig"),
        Err(r#"Shell exec failed for 'orig': program path is malformed ("\\\\")."#.to_string())
    );
    assert_eq!(
        validate_shell_program("", "orig"),
        Err("Shell exec failed for 'orig': program path is empty.".to_string())
    );
}

#[test]
fn shell_exec_reports_original_command() {
    assert_eq!(
        shell_exec("%EDITOR% a.txt", "vim a.txt", &[]),
        Ok(("vim".to_string(), "a.txt".to_string()))
    );
    assert_eq!(
        shell_exec("\"x", "\"x", &[]),
        Err("Shell exec failed for '\"x': command doesn't have an ending `\"`.".to_string())
    );
    assert_eq!(
        shell_exec("\"\"", "\"\"", &[]),
        Err("Shell exec failed for '\"\"': program path is empty.".to_string())
    );
    assert_eq!(
        spawn_failed_message("vim", "not found"),
        "Shell exec failed for 'vim'. Make sure the program exists and is accessible from your \
         shell. Error: not found"
    );
}
