use stomp::{deserialize, escape, serialize, unescape, Command, DecodeError, Frame, ParseError, ServerCommand};

fn pairs(hs: &[(&str, &str)]) -> Vec<(String, String)> {
    hs.iter().map(|(k, v)| (k.to_string(), v.to_string())).collect()
}

#[test]
fn frame_should_parse() {
    let data = b"MESSAGE
accept-version:1.2
host:example.com
login:user
passcode:password\n\nsome body\x00"
        .to_vec();
    let headers = vec![
        ("accept-version".to_string(), "1.2".to_string()),
        ("host".to_string(), "example.com".to_string()),
        ("login".to_string(), "user".to_string()),
        ("passcode".to_string(), "password".to_string()),
    ];
    let body = Some("some body".to_string());
    let expected = Frame {
        command: Command::MESSAGE,
        headers,
        body,
    };
    let frame: Frame = deserialize(data).expect("test");
    assert_eq!(expected, frame);
}

#[test]
fn should_write_client() {
    let data = b"CONNECT
foo:foo
accept-version:1.2
content-length:2
host:example.com\n\n\x00"
        .to_vec();
    let headers = vec![
        ("foo".to_string(), "foo".to_string()),
        ("accept-version".to_string(), "1.2".to_string()),
        ("content-length".to_string(), "2".to_string()),
        ("host".to_string(), "example.com".to_string()),
    ];
    let frame = Frame {
        command: Command::CONNECT,
        headers,
        body: None,
    };
    assert_eq!(data, serialize(frame));
}

#[test]
fn should_write_server() {
    let data = b"MESSAGE
foo:foo
accept-version:1.2
host:example.com\n\n\x00"
        .to_vec();
    let headers = vec![
        ("foo".to_string(), "foo".to_string()),
        ("accept-version".to_string(), "1.2".to_string()),
        ("host".to_string(), "example.com".to_string()),
    ];
    let frame = Frame {
        command: Command::MESSAGE,
        headers,
        body: None,
    };
    assert_eq!(data, serialize(frame));
}

#[test]
fn unknown_command_rejected() {
    assert_eq!(
        deserialize(b"FOO\n\n\x00".to_vec()),
        Err(DecodeError::UnknownCommand("FOO".to_string()))
    );
}

#[test]
fn lower_case_command_is_unknown() {
    assert_eq!(
        deserialize(b"send\n\n\x00".to_vec()),
        Err(DecodeError::UnknownCommand("send".to_string()))
    );
    assert_eq!(deserialize(Vec::new()), Err(DecodeError::UnknownCommand(String::new())));
}

#[test]
fn no_body_frame_encoding() {
    let frame = Frame {
        command: Command::CONNECT,
        headers: pairs(&[("host", "example.com")]),
        body: None,
    };
    assert_eq!(serialize(frame), b"CONNECT\nhost:example.com\n\n\x00".to_vec());
}

#[test]
fn body_preserved_verbatim() {
    let frame = deserialize(b"MESSAGE\nfoo:bar\n\nhello\x00".to_vec()).unwrap();
    assert_eq!(
        frame,
        Frame {
            command: Command::MESSAGE,
            headers: pairs(&[("foo", "bar")]),
            body: Some("hello".to_string()),
        }
    );
}

#[test]
fn truncated_input_rejected() {
    assert_eq!(deserialize(b"SEND\nfoo:bar".to_vec()), Err(DecodeError::TruncatedFrame));
    assert_eq!(deserialize(b"SEND".to_vec()), Err(DecodeError::TruncatedFrame));
    assert_eq!(deserialize(b"SEND\nfoo:bar\n".to_vec()), Err(DecodeError::TruncatedFrame));
}

#[test]
fn header_line_without_colon_rejected() {
    assert_eq!(deserialize(b"SEND\nfoobar\n\n\x00".to_vec()), Err(DecodeError::TruncatedFrame));
}

#[test]
fn invalid_utf8_rejected() {
    assert_eq!(deserialize(b"SEND\n\n\xff\x00".to_vec()), Err(DecodeError::InvalidEncoding));
    assert_eq!(deserialize(b"\xc3(\n\n\x00".to_vec()), Err(DecodeError::InvalidEncoding));
}

#[test]
fn header_order_preserved() {
    let frame = Frame {
        command: Command::SEND,
        headers: pairs(&[("a", "1"), ("b", "2")]),
        body: None,
    };
    let bytes = serialize(frame);
    assert_eq!(bytes, b"SEND\na:1\nb:2\n\n\x00".to_vec());
    let back = deserialize(bytes).unwrap();
    assert_eq!(back.headers, pairs(&[("a", "1"), ("b", "2")]));
}

#[test]
fn repeated_keys_kept_in_order() {
    let frame = deserialize(b"SEND\nk:2\nk:1\n\n\x00".to_vec()).unwrap();
    assert_eq!(frame.headers, pairs(&[("k", "2"), ("k", "1")]));
}

#[test]
fn value_is_split_on_first_colon_only() {
    let frame = deserialize(b"SEND\nurl:http://x:80\n\n\x00".to_vec()).unwrap();
    assert_eq!(frame.headers, pairs(&[("url", "http://x:80")]));
}

#[test]
fn round_trip_with_multiline_body() {
    let frame = Frame {
        command: Command::SEND,
        headers: pairs(&[("destination", "/queue/a"), ("", ""), ("ü", "ß")]),
        body: Some("line one\nline: two\n".to_string()),
    };
    let expected = Frame {
        command: Command::SEND,
        headers: frame.headers.clone(),
        body: frame.body.clone(),
    };
    assert_eq!(deserialize(serialize(frame)), Ok(expected));
}

#[test]
fn terminator_is_optional() {
    let with = deserialize(b"SEND\n\nabc\x00".to_vec()).unwrap();
    let without = deserialize(b"SEND\n\nabc".to_vec()).unwrap();
    assert_eq!(with.body, Some("abc".to_string()));
    assert_eq!(without.body, Some("abc".to_string()));
    assert_eq!(deserialize(b"SEND\n\n".to_vec()).unwrap().body, None);
    assert_eq!(deserialize(b"SEND\n\n\x00".to_vec()).unwrap().body, None);
}

#[test]
fn escaped_headers_are_not_unescaped_on_decode() {
    let frame = Frame {
        command: Command::SEND,
        headers: pairs(&[("a:b", "c")]),
        body: None,
    };
    let bytes = serialize(frame);
    assert_eq!(bytes, b"SEND\na\\cb:c\n\n\x00".to_vec());
    let back = deserialize(bytes).unwrap();
    assert_eq!(back.headers, pairs(&[("a\\cb", "c")]));
}

#[test]
fn escape_table() {
    assert_eq!(escape(b"\r\n:\\x"), b"\\r\\n\\c\\\\x".to_vec());
    assert_eq!(escape(b"plain"), b"plain".to_vec());
    assert_eq!(escape(b""), Vec::<u8>::new());
}

#[test]
fn unescape_reverses_escape() {
    for s in [&b"a:b\\c\r\nd"[..], b"", b"\\\\", b"::", b"\xff\x00"] {
        assert_eq!(unescape(&escape(s)), Some(s.to_vec()));
    }
    assert_eq!(unescape(b"\\x"), None);
    assert_eq!(unescape(b"ab\\"), None);
}

#[test]
fn commands_parse_and_render() {
    for name in [
        "SEND", "SUBSCRIBE", "UNSUBSCRIBE", "BEGIN", "COMMIT", "ABORT", "ACK", "NACK",
        "DISCONNECT", "CONNECT", "STOMP", "CONNECTED", "MESSAGE", "RECEIPT", "ERROR",
    ] {
        let c = Command::parse(name).unwrap();
        assert_eq!(c.render(), name);
        assert_eq!(name.parse::<Command>(), Ok(c));
    }
    assert_eq!(Command::parse(" SEND"), Err(ParseError::UnknownCommand(" SEND".to_string())));
    assert!(Command::MESSAGE.is_server());
    assert!(Command::SEND.is_client());
}

#[test]
fn server_commands_parse_and_render() {
    for name in ["CONNECTED", "MESSAGE", "RECEIPT", "ERROR"] {
        let c = ServerCommand::parse(name).unwrap();
        assert_eq!(c.render(), name);
    }
    assert_eq!(
        ServerCommand::parse("SEND"),
        Err(ParseError::UnknownCommand("SEND".to_string()))
    );
}
