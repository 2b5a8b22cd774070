use chatcore::comms::{Comms, CommsErr, CommsRet};
use chatcore::msg::Cmd;
use chatcore::stream::{HsEvent, ReadEvent, Stream, StreamErr, WriteEvent};

fn fresh_session() -> Comms {
    Comms::new(
        Stream::new(7, false),
        b"srv".to_vec(),
        b"n".to_vec(),
        b"h".to_vec(),
        b"real name".to_vec(),
    )
}

#[test]
fn ping_writes_pong_and_surfaces_nothing() {
    let mut c = fresh_session();
    let (rets, outs) = c.read_incoming_msg(ReadEvent::Data(b"PING :abc\r\n".to_vec()));
    assert_eq!(rets.len(), 0);
    assert_eq!(outs, vec![b"PONG :abc\r\n".to_vec()]);
}

#[test]
fn privmsg_surfaces_incoming_message() {
    let mut c = fresh_session();
    let (rets, outs) = c.read_incoming_msg(ReadEvent::Data(b":nick!u@h PRIVMSG #chan :hi\r\n".to_vec()));
    assert_eq!(
        rets,
        vec![CommsRet::IncomingMsg {
            pfx: b"nick!u@h".to_vec(),
            cmd: Cmd::Str(b"PRIVMSG".to_vec()),
            args: vec![b"#chan".to_vec(), b"hi".to_vec()],
        }]
    );
    assert_eq!(
        outs,
        vec![b"USER h :real name\r\n".to_vec(), b"NICK :n\r\n".to_vec()]
    );
}

#[test]
fn split_chunks_reassemble_one_message() {
    let mut split = fresh_session();
    let (r1, o1) = split.read_incoming_msg(ReadEvent::Data(b":a PR".to_vec()));
    assert_eq!(r1.len(), 0);
    assert_eq!(o1.len(), 0);
    let (r2, _o2) = split.read_incoming_msg(ReadEvent::Data(b"IVMSG #c :x\r\n".to_vec()));

    let mut whole = fresh_session();
    let (rw, _ow) = whole.read_incoming_msg(ReadEvent::Data(b":a PRIVMSG #c :x\r\n".to_vec()));

    assert_eq!(r2, rw);
    assert_eq!(
        r2,
        vec![CommsRet::IncomingMsg {
            pfx: b"a".to_vec(),
            cmd: Cmd::Str(b"PRIVMSG".to_vec()),
            args: vec![b"#c".to_vec(), b"x".to_vec()],
        }]
    );
}

#[test]
fn zero_byte_read_yields_exactly_one_disconnected() {
    let mut c = fresh_session();
    let (r1, _) = c.read_incoming_msg(ReadEvent::Data(b"PING :x\r\n".to_vec()));
    assert_eq!(r1.len(), 0);
    let (rets, outs) = c.read_incoming_msg(ReadEvent::Eof);
    assert_eq!(rets, vec![CommsRet::Disconnected]);
    assert_eq!(outs.len(), 0);
}

#[test]
fn handshake_is_sent_exactly_once() {
    let mut c = fresh_session();
    let (rets, outs) =
        c.read_incoming_msg(ReadEvent::Data(b"PING :x\r\nFOO :a\r\nBAR :b\r\n".to_vec()));
    let user_lines = outs.iter().filter(|w| w.starts_with(b"USER")).count();
    assert_eq!(user_lines, 1);
    assert_eq!(rets.len(), 2);

    let (_, outs2) = c.read_incoming_msg(ReadEvent::Data(b"BAZ :c\r\n".to_vec()));
    let user_lines2 = outs2.iter().filter(|w| w.starts_with(b"USER")).count();
    assert_eq!(user_lines2, 0);
}

#[test]
fn pings_alone_never_trigger_handshake() {
    let mut c = fresh_session();
    let (rets, outs) =
        c.read_incoming_msg(ReadEvent::Data(b"PING :1\r\nPING :2\r\n".to_vec()));
    assert_eq!(rets.len(), 0);
    assert_eq!(outs, vec![b"PONG :1\r\n".to_vec(), b"PONG :2\r\n".to_vec()]);
}

#[test]
fn frames_dispatch_in_arrival_order() {
    let mut c = fresh_session();
    let (rets, _) = c.read_incoming_msg(ReadEvent::Data(
        b"AAA :1\r\nBBB :2\r\nCCC :3\r\n".to_vec(),
    ));
    let cmds: Vec<&Cmd> = rets
        .iter()
        .map(|r| match r {
            CommsRet::SentMsg { cmd, .. } => cmd,
            other => panic!("unexpected result {:?}", other),
        })
        .collect();
    assert_eq!(
        cmds,
        vec![
            &Cmd::Str(b"AAA".to_vec()),
            &Cmd::Str(b"BBB".to_vec()),
            &Cmd::Str(b"CCC".to_vec())
        ]
    );
}

#[test]
fn echo_without_prefix_is_sent_msg() {
    let mut c = fresh_session();
    let (rets, _) = c.read_incoming_msg(ReadEvent::Data(b"JOIN :#chan\r\n".to_vec()));
    assert_eq!(
        rets,
        vec![CommsRet::SentMsg {
            cmd: Cmd::Str(b"JOIN".to_vec()),
            args: vec![b"#chan".to_vec()],
        }]
    );
}

#[test]
fn unparseable_frame_reports_parse_failure() {
    let mut c = fresh_session();
    let (rets, outs) = c.read_incoming_msg(ReadEvent::Data(b"@@@\r\n".to_vec()));
    assert_eq!(rets, vec![CommsRet::Failure { err: CommsErr::Parse }]);
    assert_eq!(outs.len(), 0);
}

#[test]
fn malformed_frame_reports_frame_format_failure() {
    let mut c = fresh_session();
    let (rets, _) = c.read_incoming_msg(ReadEvent::Data(b"abc\nFOO :x\r\n".to_vec()));
    assert_eq!(rets.len(), 2);
    assert_eq!(rets[0], CommsRet::Failure { err: CommsErr::FrameFormat });
    assert!(matches!(rets[1], CommsRet::SentMsg { .. }));
}

#[test]
fn parse_failure_does_not_affect_sibling_frames() {
    let mut c = fresh_session();
    let (rets, _) = c.read_incoming_msg(ReadEvent::Data(b"@@@\r\nFOO :ok\r\n".to_vec()));
    assert_eq!(rets.len(), 2);
    assert_eq!(rets[0], CommsRet::Failure { err: CommsErr::Parse });
    assert_eq!(
        rets[1],
        CommsRet::SentMsg { cmd: Cmd::Str(b"FOO".to_vec()), args: vec![b"ok".to_vec()] }
    );
}

#[test]
fn would_block_surfaces_nothing() {
    let mut c = fresh_session();
    let (rets, outs) = c.read_incoming_msg(ReadEvent::WouldBlock);
    assert_eq!(rets.len(), 0);
    assert_eq!(outs.len(), 0);
}

#[test]
fn read_failure_surfaces_one_transport_error() {
    let mut c = fresh_session();
    let (rets, _) = c.read_incoming_msg(ReadEvent::Failed);
    assert_eq!(rets.len(), 1);
    assert!(matches!(
        rets[0],
        CommsRet::Failure { err: CommsErr::Transport(_) }
    ));
}

#[test]
fn tls_handshake_blocks_then_delivers() {
    let mut c = Comms::new(
        Stream::new(3, true),
        b"srv".to_vec(),
        b"n".to_vec(),
        b"h".to_vec(),
        b"r".to_vec(),
    );
    let (r1, _) = c.read_incoming_msg(ReadEvent::HsStep(HsEvent::Again));
    assert_eq!(r1.len(), 0);
    let (r2, _) = c.read_incoming_msg(ReadEvent::HsStep(HsEvent::Done));
    assert_eq!(r2.len(), 0);
    let (r3, o3) = c.read_incoming_msg(ReadEvent::Data(b"PING :z\r\n".to_vec()));
    assert_eq!(r3.len(), 0);
    assert_eq!(o3, vec![b"PONG :z\r\n".to_vec()]);
}

#[test]
fn tls_handshake_failure_is_terminal_error() {
    let mut c = Comms::new(
        Stream::new(3, true),
        b"srv".to_vec(),
        b"n".to_vec(),
        b"h".to_vec(),
        b"r".to_vec(),
    );
    let (rets, _) = c.read_incoming_msg(ReadEvent::HsStep(HsEvent::Failed));
    assert_eq!(
        rets,
        vec![CommsRet::Failure { err: CommsErr::Transport(StreamErr::TlsError) }]
    );
}

#[test]
fn stream_tracks_token_and_phases() {
    let mut s = Stream::new(9, false);
    assert_eq!(s.get_tok(), 9);
    assert!(s.is_established());
    assert_eq!(s.write_ready(WriteEvent::Flushed), Ok(()));
    let r = s.write_ready(WriteEvent::WouldBlock);
    assert!(r.err().unwrap().is_would_block());

    let mut t = Stream::new(4, true);
    assert!(t.is_handshaking());
    assert!(!t.is_established());
    assert_eq!(t.write_ready(WriteEvent::HsStep(HsEvent::Done)), Ok(()));
    assert!(t.is_established());
}

#[test]
fn stream_err_labels() {
    assert!(StreamErr::ConnectionClosed.description().contains("closed"));
    assert!(!StreamErr::TlsError.is_would_block());
    assert_eq!(StreamErr::CantResolveAddr.description(), "Can't resolve address");
}
