use ssd1315::io_handler::IoHandler;
use ssd1315::message::IoEvent;
use std::sync::mpsc::channel;

fn ev(s: &str) -> IoEvent {
    IoEvent::new(&s.to_string())
}

#[test]
fn single_word_commands() {
    assert_eq!(ev("clear"), IoEvent::Clear);
    assert_eq!(ev("sleep\n"), IoEvent::Sleep);
    assert_eq!(ev("  wake  "), IoEvent::Wake);
    assert_eq!(ev("Clear"), IoEvent::NoOp);
    assert_eq!(ev("reset"), IoEvent::NoOp);
}

#[test]
fn empty_and_two_word_lines_are_no_command() {
    assert_eq!(ev(""), IoEvent::NoOp);
    assert_eq!(ev(" \t\n"), IoEvent::NoOp);
    assert_eq!(ev("clear now"), IoEvent::NoOp);
}

#[test]
fn write_command_joins_the_text_with_single_spaces() {
    assert_eq!(ev("write 3 4 hello world\n"), IoEvent::Write(3, 4, "hello world".to_string()));
    assert_eq!(ev("w  1\t2   a   b  "), IoEvent::Write(1, 2, "a b".to_string()));
    assert_eq!(ev("x 0 0"), IoEvent::Write(0, 0, String::new()));
}

#[test]
fn numbers_are_parsed_as_usize() {
    assert_eq!(ev("w +5 6 t"), IoEvent::Write(5, 6, "t".to_string()));
    assert_eq!(ev("w -5 6 t"), IoEvent::NoOp);
    assert_eq!(ev("w + 6 t"), IoEvent::NoOp);
    assert_eq!(ev("w 5x 6 t"), IoEvent::NoOp);
    assert_eq!(ev("w 1 99999999999999999999999 t"), IoEvent::NoOp);
    assert_eq!(ev("w 007 18446744073709551615 t"), IoEvent::Write(7, 18446744073709551615, "t".to_string()));
}

#[test]
fn non_ascii_text_and_whitespace() {
    assert_eq!(ev("w 1 2 héllo\u{3000}wörld"), IoEvent::Write(1, 2, "héllo wörld".to_string()));
    assert_eq!(ev("\u{a0}sleep\u{2028}"), IoEvent::Sleep);
}

#[test]
fn blank_lines_are_not_sent() {
    let (tx, rx) = channel();
    let mut h = IoHandler::new(tx);
    assert_eq!(h.handle_line(&"  \n".to_string()), Ok(false));
    assert_eq!(h.handle_line(&"clear\n".to_string()), Ok(true));
    assert_eq!(h.handle_line(&"bogus\n".to_string()), Ok(true));
    assert_eq!(rx.try_recv(), Ok(IoEvent::Clear));
    assert_eq!(rx.try_recv(), Ok(IoEvent::NoOp));
    assert!(rx.try_recv().is_err());
}

#[test]
fn event_for_line() {
    assert_eq!(IoHandler::event_for_line(&"\t \r\n".to_string()), None);
    assert_eq!(IoHandler::event_for_line(&"wake\n".to_string()), Some(IoEvent::Wake));
}

#[test]
fn a_closed_channel_hands_the_command_back() {
    let (tx, rx) = channel();
    drop(rx);
    let mut h = IoHandler::new(tx);
    assert_eq!(h.handle_line(&"w 1 2 hi".to_string()), Err(IoEvent::Write(1, 2, "hi".to_string())));
}

#[test]
fn each_non_blank_line_hands_over_its_own_command_in_order() {
    let (tx, rx) = channel();
    let mut h = IoHandler::new(tx);
    for line in ["sleep\n", "\n", "w 7 8 a  b\n", "wake\n"] {
        let _ = h.handle_line(&line.to_string());
    }
    let got: Vec<IoEvent> = rx.try_iter().collect();
    assert_eq!(got, vec![IoEvent::Sleep, IoEvent::Write(7, 8, "a b".to_string()), IoEvent::Wake]);
}
