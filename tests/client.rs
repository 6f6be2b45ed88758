use stomp::{ClientCommand, DecodeError, StompFrame};

#[test]
fn client_should_parse() {
    let data = b"CONNECT
accept-version:1.2
host:example.com
login:user
passcode:password\n\n\x00"
        .to_vec();
    let frame = StompFrame::deserialize(data).unwrap();
    assert_eq!(frame.command, ClientCommand::CONNECT);
}

#[test]
fn should_write() {
    let data = b"CONNECT
foo:foo
accept-version:1.2
host:example.com\n\n\x00"
        .to_vec();
    let headers = vec![
        ("foo".to_string(), "foo".to_string()),
        ("accept-version".to_string(), "1.2".to_string()),
        ("host".to_string(), "example.com".to_string()),
    ];
    let frame = StompFrame {
        command: ClientCommand::CONNECT,
        headers,
        body: None,
    };
    assert_eq!(data, frame.serialize());
}

#[test]
fn client_frame_escapes_reserved_header_bytes() {
    let frame = StompFrame {
        command: ClientCommand::SEND,
        headers: vec![("a:b".to_string(), "x\ny\\z\r".to_string())],
        body: Some("hi".to_string()),
    };
    assert_eq!(frame.serialize(), b"SEND\na\\cb:x\\ny\\\\z\\r\n\nhi\x00".to_vec());
}

#[test]
fn client_frame_rejects_server_command() {
    let r = StompFrame::deserialize(b"MESSAGE\n\n\x00".to_vec());
    assert!(matches!(r, Err(DecodeError::UnknownCommand(ref t)) if t == "MESSAGE"));
}

#[test]
fn client_frame_keeps_headers_and_body() {
    let frame = StompFrame::deserialize(b"SEND\ndestination:/q\n\nhello\x00".to_vec()).unwrap();
    assert_eq!(frame.command, ClientCommand::SEND);
    assert_eq!(frame.headers, vec![("destination".to_string(), "/q".to_string())]);
    assert_eq!(frame.body, Some("hello".to_string()));
}

#[test]
fn client_commands_parse_and_render() {
    for name in [
        "SEND", "SUBSCRIBE", "UNSUBSCRIBE", "BEGIN", "COMMIT", "ABORT", "ACK", "NACK",
        "DISCONNECT", "CONNECT", "STOMP",
    ] {
        let c = ClientCommand::parse(name).unwrap();
        assert_eq!(c.render(), name);
    }
    assert!(ClientCommand::parse("MESSAGE").is_err());
    assert_eq!(ClientCommand::parse("COMMIT"), Ok(ClientCommand::COMMIT));
}
