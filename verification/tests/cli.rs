use docdb_rs::cli::{is_whitespace, parse_cli_input, split_words, CliCommand};

#[test]
fn parses_put_with_line_break() {
    match parse_cli_input("put hello world\n") {
        CliCommand::Put { key, value } => {
            assert_eq!(key, "hello");
            assert_eq!(value, "world");
        }
        other => panic!("unexpected {:?}", other),
    }
}

#[test]
fn parses_get_clear_help() {
    assert!(matches!(parse_cli_input("  get   k \n"), CliCommand::Get { key } if key == "k"));
    assert!(matches!(parse_cli_input("clear"), CliCommand::Clear));
    assert!(matches!(parse_cli_input("help\r\n"), CliCommand::Help));
}

#[test]
fn rejects_malformed_commands() {
    assert!(matches!(parse_cli_input(""), CliCommand::Invalid));
    assert!(matches!(parse_cli_input("put onlykey"), CliCommand::Invalid));
    assert!(matches!(parse_cli_input("get a b"), CliCommand::Invalid));
    assert!(matches!(parse_cli_input("PUT a b"), CliCommand::Invalid));
    assert!(matches!(parse_cli_input("help me"), CliCommand::Invalid));
}

#[test]
fn splits_on_unicode_white_space() {
    assert_eq!(split_words("\u{3000}get\u{a0}k\u{2028}"), vec!["get".to_string(), "k".to_string()]);
    assert_eq!(split_words("a\tb  c"), vec!["a".to_string(), "b".to_string(), "c".to_string()]);
    assert!(split_words(" \n ").is_empty());
    assert!(matches!(parse_cli_input("\u{3000}get\u{a0}k"), CliCommand::Get { key } if key == "k"));
}

#[test]
fn white_space_matches_std() {
    for c in ['\t', '\n', ' ', '\u{85}', '\u{a0}', '\u{1680}', '\u{2000}', '\u{200a}', '\u{3000}', 'a', '\u{200b}', '\u{feff}', '\0'] {
        assert_eq!(is_whitespace(c), c.is_whitespace());
    }
}
