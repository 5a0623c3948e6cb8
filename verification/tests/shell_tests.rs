use agentlink::shell::parse_command;

#[test]
fn test_parse_command() {
    let parsed = parse_command("ls -a".to_string());
    assert_eq!(parsed, Some(("ls".to_string(), vec!["-a".to_string()])));
    let parsed = parse_command("pwd".to_string());
    assert_eq!(parsed, Some(("pwd".to_string(), Vec::new())));
}

#[test]
fn parse_command_empty_line_yields_nothing() {
    assert_eq!(parse_command(String::new()), None);
}

#[test]
fn parse_command_leading_space_yields_nothing() {
    assert_eq!(parse_command(" ls".to_string()), None);
}

#[test]
fn parse_command_keeps_empty_arguments_between_spaces() {
    let parsed = parse_command("echo  a".to_string());
    assert_eq!(
        parsed,
        Some(("echo".to_string(), vec![String::new(), "a".to_string()]))
    );
}

#[test]
fn parse_command_many_arguments_in_order() {
    let parsed = parse_command("grep -r -n pattern".to_string());
    assert_eq!(
        parsed,
        Some((
            "grep".to_string(),
            vec!["-r".to_string(), "-n".to_string(), "pattern".to_string()]
        ))
    );
}
