//! Tests of the command parser: accepted forms, every rejection, and the
//! trailing-newline trim.

use chat_relay::Command;

#[test]
fn parse_join() {
    assert_eq!(
        Command::parse(b"join alpha".to_vec()),
        Some(Command::Join(b"alpha".to_vec()))
    );
}

#[test]
fn parse_join_with_newline() {
    assert_eq!(
        Command::parse(b"join alpha\n".to_vec()),
        Some(Command::Join(b"alpha".to_vec()))
    );
}

#[test]
fn parse_join_empty_room() {
    assert_eq!(Command::parse(b"join ".to_vec()), None);
    assert_eq!(Command::parse(b"join \n".to_vec()), None);
}

#[test]
fn parse_join_room_with_space() {
    assert_eq!(Command::parse(b"join a b".to_vec()), None);
}

#[test]
fn parse_part() {
    assert_eq!(
        Command::parse(b"part alpha\n".to_vec()),
        Some(Command::Part(b"alpha".to_vec()))
    );
    assert_eq!(Command::parse(b"part ".to_vec()), None);
    assert_eq!(Command::parse(b"part a b".to_vec()), None);
}

#[test]
fn parse_msg() {
    assert_eq!(
        Command::parse(b"msg alpha hello world".to_vec()),
        Some(Command::Msg {
            room: b"alpha".to_vec(),
            msg: b"hello world".to_vec()
        })
    );
}

#[test]
fn parse_msg_no_body_separator() {
    assert_eq!(Command::parse(b"msg alpha".to_vec()), None);
    assert_eq!(Command::parse(b"msg alpha\n".to_vec()), None);
}

#[test]
fn parse_msg_empty_body() {
    assert_eq!(
        Command::parse(b"msg alpha \n".to_vec()),
        Some(Command::Msg {
            room: b"alpha".to_vec(),
            msg: b"".to_vec()
        })
    );
}

#[test]
fn parse_msg_empty_room() {
    assert_eq!(Command::parse(b"msg  hello".to_vec()), None);
}

#[test]
fn parse_unknown_verb() {
    assert_eq!(Command::parse(b"bogus x".to_vec()), None);
}

#[test]
fn parse_no_separator() {
    assert_eq!(Command::parse(b"hello".to_vec()), None);
    assert_eq!(Command::parse(b"\n".to_vec()), None);
    assert_eq!(Command::parse(b"".to_vec()), None);
}

#[test]
fn parse_rejects_invalid_utf8() {
    assert_eq!(Command::parse(vec![106, 111, 105, 110, 32, 0xFF]), None);
    assert_eq!(Command::parse(vec![0xC0, 0xAF, 32, 97]), None);
}

#[test]
fn parse_accepts_multibyte_room() {
    let line = "join caf\u{e9}\n".as_bytes().to_vec();
    assert_eq!(
        Command::parse(line),
        Some(Command::Join("caf\u{e9}".as_bytes().to_vec()))
    );
}

#[test]
fn parse_msg_body_keeps_inner_spaces() {
    assert_eq!(
        Command::parse(b"msg r a  b   c\n".to_vec()),
        Some(Command::Msg {
            room: b"r".to_vec(),
            msg: b"a  b   c".to_vec()
        })
    );
}
