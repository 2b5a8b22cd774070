use chatcore::frame::{MsgBuf, RawFrame};

#[test]
fn drain_one_complete_frame() {
    let mut buf = MsgBuf::new();
    buf.append(b"hello\r\nwor");
    let frames = buf.drain_frames();
    assert_eq!(frames, vec![RawFrame::Line(b"hello".to_vec())]);
}

#[test]
fn drain_twice_yields_nothing_second_time() {
    let mut buf = MsgBuf::new();
    buf.append(b"one\r\ntwo\r\npartial");
    let first = buf.drain_frames();
    assert_eq!(first.len(), 2);
    let second = buf.drain_frames();
    assert_eq!(second.len(), 0);
}

#[test]
fn empty_buffer_drains_nothing() {
    let mut buf = MsgBuf::new();
    let frames = buf.drain_frames();
    assert_eq!(frames.len(), 0);
}

#[test]
fn chunk_boundaries_do_not_matter() {
    let whole: &[u8] = b"alpha\r\nbeta\r\ngamma\r\n";
    let mut one = MsgBuf::new();
    one.append(whole);
    let expect = one.drain_frames();

    let mut split = MsgBuf::new();
    let mut got: Vec<RawFrame> = Vec::new();
    for chunk in [&whole[..3], &whole[3..8], &whole[8..9], &whole[9..]] {
        split.append(chunk);
        got.extend(split.drain_frames());
    }
    assert_eq!(got, expect);
    assert_eq!(expect.len(), 3);
}

#[test]
fn resumes_across_terminator_split() {
    let mut buf = MsgBuf::new();
    buf.append(b"abc\r");
    assert_eq!(buf.drain_frames().len(), 0);
    buf.append(b"\ndef\r\n");
    let frames = buf.drain_frames();
    assert_eq!(
        frames,
        vec![RawFrame::Line(b"abc".to_vec()), RawFrame::Line(b"def".to_vec())]
    );
}

#[test]
fn lone_line_feed_is_malformed() {
    let mut buf = MsgBuf::new();
    buf.append(b"abc\ndef\r\n");
    let frames = buf.drain_frames();
    assert_eq!(frames, vec![RawFrame::Malformed, RawFrame::Line(b"def".to_vec())]);
}

#[test]
fn line_feed_at_start_is_malformed() {
    let mut buf = MsgBuf::new();
    buf.append(b"\n");
    let frames = buf.drain_frames();
    assert_eq!(frames, vec![RawFrame::Malformed]);
}

#[test]
fn denied_control_bytes_are_stripped() {
    let mut buf = MsgBuf::new();
    buf.append(b"h\x01e\x02l\x00l\x04o\r\n");
    let frames = buf.drain_frames();
    assert_eq!(frames, vec![RawFrame::Line(b"hello".to_vec())]);
}

#[test]
fn other_bytes_survive_stripping() {
    let mut buf = MsgBuf::new();
    buf.append(b"a\x03b\x05c\r\n");
    let frames = buf.drain_frames();
    assert_eq!(frames, vec![RawFrame::Line(b"a\x03b\x05c".to_vec())]);
}
