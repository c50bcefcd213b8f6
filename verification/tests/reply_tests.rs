use kaleidoscope_focus::{cleanup_reply, ReadEvent, ReadStep, ReplyAccumulator};

#[test]
fn normalize_strips_sentinel_and_blank_lines() {
    assert_eq!(cleanup_reply("a\n\n.\nb\n.\n\n".to_string()), "a\nb");
}

#[test]
fn normalize_idempotent() {
    for raw in ["x\r\n.\r\n\r\ny\r\n", "a\n\nb", ".\n.\n", "", "plain"] {
        let once = cleanup_reply(raw.to_string());
        assert_eq!(cleanup_reply(once.clone()), once);
    }
}

#[test]
fn normalize_crlf_reply() {
    assert_eq!(cleanup_reply("1 \r\n.\r\n".to_string()), "1 ");
}

#[test]
fn normalize_empty_reply_is_valid() {
    assert_eq!(cleanup_reply(String::new()), "");
    assert_eq!(cleanup_reply(".\n".to_string()), "");
}

#[test]
fn read_pass_timeout_ends_reply() {
    let mut acc = ReplyAccumulator::new();
    let step = acc.read_step(ReadEvent::Data(b"1 \n.\n".to_vec()));
    assert_eq!(step, ReadStep::Continue);
    let step = acc.read_step(ReadEvent::TimedOut);
    assert_eq!(step, ReadStep::Done);
    assert_eq!(acc.into_reply(), "1 ");
}

#[test]
fn read_pass_eof_ends_reply() {
    let mut acc = ReplyAccumulator::new();
    assert_eq!(acc.read_step(ReadEvent::Eof), ReadStep::Done);
    assert_eq!(acc.into_reply(), "");
}

#[test]
fn read_pass_failure_is_reported() {
    let mut acc = ReplyAccumulator::new();
    assert_eq!(acc.read_step(ReadEvent::Failed), ReadStep::Fail);
}

#[test]
fn read_pass_accumulates_across_reads() {
    let mut acc = ReplyAccumulator::new();
    acc.read_step(ReadEvent::Data(b"keymap.cus".to_vec()));
    acc.read_step(ReadEvent::Data(b"tom\nled.brightness\n".to_vec()));
    acc.read_step(ReadEvent::TimedOut);
    assert_eq!(acc.into_reply(), "keymap.custom\nled.brightness");
}

#[test]
fn invalid_bytes_replaced_not_rejected() {
    let mut acc = ReplyAccumulator::new();
    acc.read_step(ReadEvent::Data(vec![0xff, 0xfe, b'a', b'\n']));
    acc.read_step(ReadEvent::TimedOut);
    assert_eq!(acc.into_reply(), "\u{fffd}\u{fffd}a");
}
