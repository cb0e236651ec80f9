use glaze_layout::ipc_args::{
    ipc_argv_from_message, join_ipc_args, quote_ipc_arg, split_ipc_args, UnclosedQuote,
};
use std::path::Path;


#[test]
fn quote_leaves_simple_paths_alone() {
    assert_eq!(quote_ipc_arg(r"C:\temp\layout.json"), r"C:\temp\layout.json");
}

#[test]
fn quote_wraps_paths_with_spaces() {
    let path = r"C:\Users\mooto\AppData\Local\Temp\glazewm path test\a.json";
    let quoted = quote_ipc_arg(path);
    assert_eq!(quoted, format!("\"{path}\""));
    let tokens = split_ipc_args(&format!("load-layout {quoted}")).unwrap();
    assert_eq!(tokens, vec!["load-layout".to_string(), path.to_string()]);
}

#[test]
fn quote_empty_arg_is_quoted_empty() {
    assert_eq!(quote_ipc_arg(""), "\"\"");
}

#[test]
fn split_empty_quoted_argument() {
    let tokens = split_ipc_args("\"\"").unwrap();
    assert_eq!(tokens, vec![String::new()]);
}

#[test]
fn round_trip_empty_arg_quote_then_split() {
    let quoted = quote_ipc_arg("");
    assert_eq!(quoted, "\"\"");
    let tokens = split_ipc_args(&quoted).unwrap();
    assert_eq!(tokens, vec![String::new()]);
}

#[test]
fn round_trip_empty_arg_among_others() {
    let args = ["powershell".to_string(), String::new(), "-File".to_string()];
    let joined = join_ipc_args(&args);
    assert_eq!(joined, "powershell \"\" -File");
    let tokens = split_ipc_args(&joined).unwrap();
    assert_eq!(tokens, args);
}

#[test]
fn round_trip_all_path_bearing_commands() {
    let path = r"D:\my layouts\snap shot.json";
    let quoted = quote_ipc_arg(path);
    let messages = [
        format!("load-layout {quoted}"),
        format!("inspect-layout {quoted}"),
        format!("query layout-match {quoted}"),
        format!("command load-layout {quoted}"),
    ];
    for msg in messages {
        let tokens = split_ipc_args(&msg).unwrap();
        assert_eq!(tokens.last().map(String::as_str), Some(path));
    }
}

#[test]
fn path_display_helper_matches_quote_ipc_arg() {
    let p = Path::new(r"C:\Temp\glazewm path test\file.json");
    assert_eq!(
        quote_ipc_arg(&p.display().to_string()),
        format!("\"{}\"", p.display())
    );
}

#[test]
fn unclosed_quote_errors() {
    assert!(split_ipc_args(r#"load-layout "C:\broken"#).is_err());
}

#[test]
fn escaped_quote_inside_path() {
    let tokens =
        split_ipc_args(r#"inspect-layout "C:\odd\"name\file.json""#).unwrap();
    assert_eq!(tokens.len(), 2);
    assert_eq!(tokens[1], r#"C:\odd"name\file.json"#);
}

#[test]
fn ipc_argv_prepends_empty_bin() {
    let argv = ipc_argv_from_message(r#"load-layout "C:\a b\c.json""#).unwrap();
    assert_eq!(argv[0], "");
    assert_eq!(argv[1], "load-layout");
    assert_eq!(argv[2], r"C:\a b\c.json");
}

#[test]
fn shell_exec_powershell_file_path_with_spaces() {
    let msg = r#"shell-exec powershell -File "C:\My Scripts\foo.ps1""#;
    let tokens = split_ipc_args(msg).unwrap();
    assert_eq!(
        tokens,
        vec![
            "shell-exec".to_string(),
            "powershell".to_string(),
            "-File".to_string(),
            r"C:\My Scripts\foo.ps1".to_string(),
        ]
    );
    let reconstructed = join_ipc_args(&tokens[1..]);
    assert_eq!(
        reconstructed,
        r#"powershell -File "C:\My Scripts\foo.ps1""#
    );
    let reparsed = split_ipc_args(&reconstructed).unwrap();
    assert_eq!(reparsed, tokens[1..]);
}

#[test]
fn shell_exec_code_project_path_with_spaces() {
    let msg = r#"shell-exec code "C:\My Project""#;
    let tokens = split_ipc_args(msg).unwrap();
    assert_eq!(
        tokens,
        vec![
            "shell-exec".to_string(),
            "code".to_string(),
            r"C:\My Project".to_string(),
        ]
    );
    assert_eq!(
        join_ipc_args(&tokens[1..]),
        r#"code "C:\My Project""#
    );
}

#[test]
fn shell_exec_multiple_separately_quoted_args() {
    let msg = r#"shell-exec prog "arg one" "arg two" plain"#;
    let tokens = split_ipc_args(msg).unwrap();
    assert_eq!(
        tokens,
        vec![
            "shell-exec".to_string(),
            "prog".to_string(),
            "arg one".to_string(),
            "arg two".to_string(),
            "plain".to_string(),
        ]
    );
    assert_eq!(
        join_ipc_args(&tokens[1..]),
        r#"prog "arg one" "arg two" plain"#
    );
}

#[test]
fn shell_exec_embedded_escaped_quotes() {
    let msg = r#"shell-exec echo "say \"hello\"""#;
    let tokens = split_ipc_args(msg).unwrap();
    assert_eq!(tokens.len(), 3);
    assert_eq!(tokens[2], r#"say "hello""#);
    let joined = join_ipc_args(&tokens[1..]);
    let again = split_ipc_args(&joined).unwrap();
    assert_eq!(again, tokens[1..]);
}

#[test]
fn shell_exec_unc_path_with_spaces() {
    let unc = r"\\server\share\My Folder\file.ps1";
    let msg = format!(
        "shell-exec powershell -File {}",
        quote_ipc_arg(unc)
    );
    let tokens = split_ipc_args(&msg).unwrap();
    assert_eq!(tokens.last().map(String::as_str), Some(unc));
    let reconstructed = join_ipc_args(&tokens[1..]);
    assert!(reconstructed.contains('"'));
    let reparsed = split_ipc_args(&reconstructed).unwrap();
    assert_eq!(reparsed.last().map(String::as_str), Some(unc));
}

#[test]
fn shell_exec_empty_quoted_argument_in_command() {
    let msg = r#"shell-exec tool "" --flag"#;
    let tokens = split_ipc_args(msg).unwrap();
    assert_eq!(
        tokens,
        vec![
            "shell-exec".to_string(),
            "tool".to_string(),
            String::new(),
            "--flag".to_string(),
        ]
    );
    assert_eq!(join_ipc_args(&tokens[1..]), r#"tool "" --flag"#);
}

#[test]
fn tokenize_errors_name_the_message() {
    assert_eq!(split_ipc_args("a \"b"), Err(UnclosedQuote));
    assert_eq!(UnclosedQuote.message(), "Unclosed double-quote in IPC message.");
    let err = ipc_argv_from_message("a \"b").unwrap_err();
    assert_eq!(err.ipc_message, "a \"b");
    assert_eq!(err.message(), "Failed to tokenize IPC message: a \"b");
}

#[test]
fn quoted_argument_with_trailing_backslash_stays_open() {
    assert_eq!(quote_ipc_arg("a b\\"), "\"a b\\\"");
    assert!(split_ipc_args(&quote_ipc_arg("a b\\")).is_err());
    // Without white space there are no quotes, and the argument survives.
    assert_eq!(split_ipc_args(&quote_ipc_arg("ab\\")).unwrap(), vec!["ab\\".to_string()]);
}

#[test]
fn joined_arguments_split_into_themselves() {
    let args: Vec<String> =
        ["", "plain", "two words", "q\"uote", "\u{a0}x", "back\\slash"].map(String::from).to_vec();
    assert_eq!(split_ipc_args(&join_ipc_args(&args)).unwrap(), args);
}

#[test]
fn white_space_beyond_ascii_is_quoted() {
    // U+00A0 is white space, U+00E9 is not.
    assert_eq!(quote_ipc_arg("a\u{a0}b"), "\"a\u{a0}b\"");
    assert_eq!(quote_ipc_arg("a\u{e9}b"), "a\u{e9}b");
}

/// The words of a `shell-exec` message after the name of the command.
fn parse_shell_exec(message: &str) -> Vec<String> {
    let argv = ipc_argv_from_message(message).expect("parse");
    assert_eq!(argv[1], "shell-exec");
    argv[2..].to_vec()
}

#[test]
fn invoke_shell_exec_preserves_powershell_file_path_with_spaces() {
    let msg = r#"shell-exec powershell -File "C:\My Scripts\foo.ps1""#;
    let command = parse_shell_exec(msg);
    assert_eq!(
        command,
        vec![
            "powershell".to_string(),
            "-File".to_string(),
            r"C:\My Scripts\foo.ps1".to_string(),
        ]
    );
    assert_eq!(
        join_ipc_args(&command),
        r#"powershell -File "C:\My Scripts\foo.ps1""#
    );
}

#[test]
fn invoke_shell_exec_preserves_code_project_path() {
    let command = parse_shell_exec(r#"shell-exec code "C:\My Project""#);
    assert_eq!(join_ipc_args(&command), r#"code "C:\My Project""#);
}

#[test]
fn invoke_shell_exec_multiple_quoted_args_and_empty() {
    let command = parse_shell_exec(r#"shell-exec tool "arg one" "" --flag"#);
    assert_eq!(
        command,
        vec![
            "tool".to_string(),
            "arg one".to_string(),
            String::new(),
            "--flag".to_string(),
        ]
    );
    assert_eq!(join_ipc_args(&command), r#"tool "arg one" "" --flag"#);
}

#[test]
fn invoke_shell_exec_unc_path_round_trip() {
    let unc = r"\\server\share\My Folder\file.ps1";
    let msg = format!("shell-exec powershell -File {}", quote_ipc_arg(unc));
    let command = parse_shell_exec(&msg);
    assert_eq!(command.last().map(String::as_str), Some(unc));
    let joined = join_ipc_args(&command);
    let again = parse_shell_exec(&format!("shell-exec {joined}"));
    assert_eq!(again, command);
}
