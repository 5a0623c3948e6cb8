use agentlink::codec::{decode_incoming, decode_reply, encode_outgoing, DecodeError};
use agentlink::messages::{ClientToServer, Command, ServerToClient};

fn same_command(a: &Command, b: &Command) -> bool {
    a.input == b.input && a.output == b.output && a.id == b.id
}

#[test]
fn encode_c2s_exact_text() {
    let cmd = Command::from_input("ls".to_owned(), 0);
    let msg = ClientToServer::from_cmds("H1".to_owned(), vec![cmd]);
    assert_eq!(
        msg.to_json().as_str(),
        r#"{"commands":[{"input":"ls","output":null,"id":0}],"id":"H1"}"#
    );
}

#[test]
fn encode_s2c_exact_text_with_output() {
    let mut cmd = Command::from_input("pwd".to_owned(), 12);
    cmd.add_output("/root".to_owned());
    let msg = ServerToClient::from_cmds(vec![cmd]);
    assert_eq!(
        msg.to_json().as_str(),
        r#"{"commands":[{"input":"pwd","output":"/root","id":12}]}"#
    );
}

#[test]
fn encode_escapes_quotes_backslashes_and_newlines() {
    let cmd = Command::from_input("a\"b\\c\nd\te\rf".to_owned(), 3);
    let msg = ClientToServer::from_cmds("x".to_owned(), vec![cmd]);
    assert_eq!(
        msg.to_json().as_str(),
        r#"{"commands":[{"input":"a\"b\\c\nd\te\rf","output":null,"id":3}],"id":"x"}"#
    );
}

#[test]
fn round_trip_c2s_empty_list() {
    let msg = ClientToServer::from_cmds("host".to_owned(), Vec::new());
    let back = ClientToServer::from_str(msg.to_json()).unwrap();
    assert_eq!(back.id, "host");
    assert_eq!(back.commands.len(), 0);
}

#[test]
fn round_trip_c2s_mixed_outputs_and_escapes() {
    let plain = Command::from_input("ls -a".to_owned(), 0);
    let mut done = Command::from_input("echo \"hi\\there\"".to_owned(), 1);
    done.add_output("line one\nline two".to_owned());
    let msg = ClientToServer::from_cmds("agent-7".to_owned(), vec![plain, done]);
    let back = ClientToServer::from_str(msg.to_json()).unwrap();
    assert_eq!(back.id, msg.id);
    assert_eq!(back.commands.len(), 2);
    for (a, b) in back.commands.iter().zip(msg.commands.iter()) {
        assert!(same_command(a, b));
    }
}

#[test]
fn round_trip_s2c_empty_and_nonempty() {
    let empty = ServerToClient::from_cmds(Vec::new());
    let back = ServerToClient::from_str(empty.to_json()).unwrap();
    assert_eq!(back.commands.len(), 0);

    let msg = ServerToClient::from_cmds(vec![
        Command::from_input("uname -a".to_owned(), 0),
        Command::from_input("id".to_owned(), 1),
    ]);
    let back = ServerToClient::from_str(msg.to_json()).unwrap();
    assert_eq!(back.commands.len(), 2);
    for (a, b) in back.commands.iter().zip(msg.commands.iter()) {
        assert!(same_command(a, b));
    }
}

#[test]
fn round_trip_largest_id() {
    let cmd = Command::from_input("x".to_owned(), usize::MAX);
    let msg = ServerToClient::from_cmds(vec![cmd]);
    let back = ServerToClient::from_str(msg.to_json()).unwrap();
    assert_eq!(back.commands[0].id, usize::MAX);
}

#[test]
fn decode_rejects_malformed_text() {
    assert!(ClientToServer::from_str("not json".to_owned()).is_err());
    assert!(ClientToServer::from_str(String::new()).is_err());
    assert!(ServerToClient::from_str(r#"{"commands":[}"#.to_owned()).is_err());
    // Trailing garbage after a well-formed envelope is refused too.
    assert!(ServerToClient::from_str(r#"{"commands":[]}x"#.to_owned()).is_err());
}

#[test]
fn decode_incoming_tells_bad_bytes_from_bad_structure() {
    let not_text = vec![0xff, 0xfe, 0x80];
    assert!(matches!(decode_incoming(not_text), Err(DecodeError::Bytes)));

    let not_envelope = b"hello there".to_vec();
    assert!(matches!(decode_incoming(not_envelope), Err(DecodeError::Json)));

    let good = ClientToServer::from_cmds("H1".to_owned(), Vec::new())
        .to_json()
        .into_bytes();
    let decoded = decode_incoming(good).unwrap();
    assert_eq!(decoded.id, "H1");
    assert_eq!(decoded.commands.len(), 0);
}

#[test]
fn wire_round_trip_through_bytes() {
    let mut cmd = Command::from_input("whoami".to_owned(), 0);
    cmd.add_output("root".to_owned());
    let msg = ServerToClient::from_cmds(vec![cmd]);
    let bytes = encode_outgoing(&msg);
    let back = decode_reply(bytes).unwrap();
    assert_eq!(back.commands.len(), 1);
    assert!(same_command(&back.commands[0], &msg.commands[0]));
}

#[test]
fn decode_number_too_large_for_usize_fails() {
    let text = r#"{"commands":[{"input":"x","output":null,"id":99999999999999999999999999}]}"#;
    assert!(ServerToClient::from_str(text.to_owned()).is_err());
}
