use chatcore::msg::{Cmd, Msg};

#[test]
fn parses_prefixed_message() {
    let m = Msg::parse(b":nick!u@h PRIVMSG #chan :hi").unwrap();
    assert_eq!(m.pfx, Some(b"nick!u@h".to_vec()));
    assert_eq!(m.cmd, Cmd::Str(b"PRIVMSG".to_vec()));
    assert_eq!(m.params, vec![b"#chan".to_vec(), b"hi".to_vec()]);
}

#[test]
fn parses_message_without_prefix() {
    let m = Msg::parse(b"PING :abc").unwrap();
    assert_eq!(m.pfx, None);
    assert_eq!(m.cmd, Cmd::Str(b"PING".to_vec()));
    assert_eq!(m.params, vec![b"abc".to_vec()]);
}

#[test]
fn parses_numeric_reply() {
    let m = Msg::parse(b"001 me :Welcome home").unwrap();
    assert_eq!(m.cmd, Cmd::Num(1));
    assert_eq!(m.params, vec![b"me".to_vec(), b"Welcome home".to_vec()]);
}

#[test]
fn trailing_consumes_separators_verbatim() {
    let m = Msg::parse(b"TOPIC #c :a b : c").unwrap();
    assert_eq!(m.params, vec![b"#c".to_vec(), b"a b : c".to_vec()]);
}

#[test]
fn trailing_may_be_empty() {
    let m = Msg::parse(b"TOPIC #c :").unwrap();
    assert_eq!(m.params, vec![b"#c".to_vec(), b"".to_vec()]);
}

#[test]
fn repeated_separators_are_skipped() {
    let m = Msg::parse(b"MODE   #c   +o   :someone").unwrap();
    assert_eq!(m.cmd, Cmd::Str(b"MODE".to_vec()));
    assert_eq!(
        m.params,
        vec![b"#c".to_vec(), b"+o".to_vec(), b"someone".to_vec()]
    );
}

#[test]
fn rejects_empty_input() {
    assert!(Msg::parse(b"").is_err());
}

#[test]
fn rejects_prefix_without_command() {
    assert!(Msg::parse(b":only.a.prefix").is_err());
    assert!(Msg::parse(b":prefix   ").is_err());
}

#[test]
fn rejects_numeric_of_wrong_width() {
    assert!(Msg::parse(b"1234 x").is_err());
    assert!(Msg::parse(b"12 x").is_err());
}

#[test]
fn rejects_mixed_command_token() {
    assert!(Msg::parse(b"PRIV@TE x").is_err());
    assert!(Msg::parse(b"A1B x").is_err());
}

#[test]
fn renders_with_trailing_marker() {
    let m = Msg {
        pfx: None,
        cmd: Cmd::Str(b"PRIVMSG".to_vec()),
        params: vec![b"#chan".to_vec(), b"hi".to_vec()],
    };
    assert_eq!(m.render(), b"PRIVMSG #chan :hi\r\n".to_vec());
}

#[test]
fn renders_prefix_and_zero_padded_numeric() {
    let m = Msg {
        pfx: Some(b"srv".to_vec()),
        cmd: Cmd::Num(5),
        params: vec![b"me".to_vec()],
    };
    assert_eq!(m.render(), b":srv 005 :me\r\n".to_vec());
}

#[test]
fn render_then_parse_round_trips() {
    let m = Msg {
        pfx: Some(b"nick!u@h".to_vec()),
        cmd: Cmd::Str(b"PRIVMSG".to_vec()),
        params: vec![b"#chan".to_vec(), b"hello : world".to_vec()],
    };
    let mut wire = m.render();
    assert_eq!(&wire[wire.len() - 2..], b"\r\n");
    wire.truncate(wire.len() - 2);
    let back = Msg::parse(&wire).unwrap();
    assert_eq!(back, m);
}

#[test]
fn numeric_round_trips_through_padding() {
    let m = Msg { pfx: None, cmd: Cmd::Num(42), params: vec![b"p".to_vec()] };
    let mut wire = m.render();
    wire.truncate(wire.len() - 2);
    let back = Msg::parse(&wire).unwrap();
    assert_eq!(back.cmd, Cmd::Num(42));
}
