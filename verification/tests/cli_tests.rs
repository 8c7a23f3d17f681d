use ai_listen::cli::{collect_required, help, parse_command, CliCommand};

fn args(v: &[&str]) -> Vec<String> {
    v.iter().map(|s| s.to_string()).collect()
}

#[test]
fn collect_required_joins_words() {
    assert_eq!(collect_required(&args(&["Product", "sync"]), "missing"), Ok("Product sync".to_string()));
    assert_eq!(collect_required(&args(&[]), "missing title"), Err("missing title".to_string()));
    assert_eq!(collect_required(&args(&[" ", ""]), "missing title"), Err("missing title".to_string()));
    assert_eq!(collect_required(&args(&[" a "]), "m"), Ok(" a ".to_string()));
}

#[test]
fn commands_are_parsed() {
    assert!(matches!(parse_command(&args(&[])), Ok(CliCommand::Help)));
    assert!(matches!(parse_command(&args(&["-h"])), Ok(CliCommand::Help)));
    assert!(matches!(parse_command(&args(&["list", "extra"])), Ok(CliCommand::List)));
    match parse_command(&args(&["new", "Product", "sync"])) {
        Ok(CliCommand::New { title }) => assert_eq!(title, "Product sync"),
        _ => panic!("expected new"),
    }
    match parse_command(&args(&["note", "Product sync", "Follow", "up"])) {
        Ok(CliCommand::Note { title, content }) => {
            assert_eq!(title, "Product sync");
            assert_eq!(content, "Follow up");
        }
        _ => panic!("expected note"),
    }
    match parse_command(&args(&["record-start", "x"])) {
        Ok(CliCommand::RecordStart { title }) => assert_eq!(title, "x"),
        _ => panic!("expected record-start"),
    }
    match parse_command(&args(&["slug", "A", "B"])) {
        Ok(CliCommand::Slug { title }) => assert_eq!(title, "A B"),
        _ => panic!("expected slug"),
    }
}

#[test]
fn command_errors() {
    assert_eq!(parse_command(&args(&["new"])).err(), Some("missing session title".to_string()));
    assert_eq!(parse_command(&args(&["note"])).err(), Some("missing session title".to_string()));
    assert_eq!(parse_command(&args(&["note", "t"])).err(), Some("missing note content".to_string()));
    assert_eq!(parse_command(&args(&["slug", " "])).err(), Some("missing title".to_string()));
    assert_eq!(parse_command(&args(&["fly"])).err(), Some("unknown command: fly".to_string()));
}

#[test]
fn help_lists_commands() {
    let h = help();
    assert!(h.starts_with("AI Listen RS\n\nUsage:\n"));
    assert!(h.contains("  ai-listen-rs record-stop <title>\n"));
}
