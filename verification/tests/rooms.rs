//! Tests of the room registry: lifecycle, idempotent join, broadcast
//! exclusion, ordering, and disconnection cleanup.

use chat_relay::registry::build_payload;
use chat_relay::{Command, Member, Registry};

fn member(id: usize, name: &str) -> Member {
    Member {
        id,
        username: name.as_bytes().to_vec(),
    }
}

fn join(room: &str) -> Command {
    Command::Join(room.as_bytes().to_vec())
}

fn part(room: &str) -> Command {
    Command::Part(room.as_bytes().to_vec())
}

fn msg(room: &str, body: &str) -> Command {
    Command::Msg {
        room: room.as_bytes().to_vec(),
        msg: body.as_bytes().to_vec(),
    }
}

#[test]
fn join_creates_room_with_one_member() {
    let mut reg = Registry::new();
    assert_eq!(reg.room_count(), 0);
    let alice = member(0, "alice");
    assert_eq!(reg.handle(join("lobby"), &alice), None);
    assert!(reg.contains_room(&b"lobby".to_vec()));
    assert_eq!(reg.room_count(), 1);
    assert_eq!(reg.member_ids(&b"lobby".to_vec()), vec![0]);
}

#[test]
fn last_part_deletes_room() {
    let mut reg = Registry::new();
    let alice = member(0, "alice");
    reg.handle(join("lobby"), &alice);
    assert_eq!(reg.handle(part("lobby"), &alice), None);
    assert!(!reg.contains_room(&b"lobby".to_vec()));
    assert_eq!(reg.room_count(), 0);
}

#[test]
fn rejoin_is_fresh() {
    let mut reg = Registry::new();
    let alice = member(0, "alice");
    let bob = member(1, "bob");
    reg.handle(join("lobby"), &alice);
    reg.handle(part("lobby"), &alice);
    reg.handle(join("lobby"), &bob);
    assert_eq!(reg.member_ids(&b"lobby".to_vec()), vec![1]);
}

#[test]
fn duplicate_join_is_idempotent() {
    let mut reg = Registry::new();
    let alice = member(0, "alice");
    reg.handle(join("lobby"), &alice);
    reg.handle(join("lobby"), &alice);
    assert_eq!(reg.member_ids(&b"lobby".to_vec()), vec![0]);
}

#[test]
fn part_of_unknown_room_or_nonmember_is_noop() {
    let mut reg = Registry::new();
    let alice = member(0, "alice");
    let bob = member(1, "bob");
    assert_eq!(reg.handle(part("lobby"), &alice), None);
    reg.handle(join("lobby"), &alice);
    assert_eq!(reg.handle(part("lobby"), &bob), None);
    assert_eq!(reg.member_ids(&b"lobby".to_vec()), vec![0]);
}

#[test]
fn broadcast_excludes_sender() {
    let mut reg = Registry::new();
    let a = member(0, "a");
    let b = member(1, "b");
    let c = member(2, "c");
    reg.handle(join("r"), &a);
    reg.handle(join("r"), &b);
    reg.handle(join("r"), &c);
    let (ids, payload) = reg.handle(msg("r", "hi"), &a).expect("room exists");
    assert_eq!(ids, vec![1, 2]);
    assert_eq!(payload, b"a: hi\n".to_vec());
    // membership is untouched by a broadcast
    assert_eq!(reg.member_ids(&b"r".to_vec()), vec![0, 1, 2]);
}

#[test]
fn msg_to_unknown_room_delivers_nothing() {
    let mut reg = Registry::new();
    let a = member(0, "a");
    assert_eq!(reg.handle(msg("nowhere", "hi"), &a), None);
}

#[test]
fn ordering_join_before_and_after_msg() {
    let mut reg = Registry::new();
    let a = member(0, "a");
    let b = member(1, "b");
    reg.handle(join("r"), &a);
    // b's join is processed after the msg: b does not receive it
    let (ids, _) = reg.handle(msg("r", "hi"), &a).expect("room exists");
    assert!(!ids.contains(&1));
    // b's join is processed before the next msg: b receives it
    reg.handle(join("r"), &b);
    let (ids, _) = reg.handle(msg("r", "hi"), &a).expect("room exists");
    assert_eq!(ids, vec![1]);
}

#[test]
fn payload_format_is_exact() {
    let payload = build_payload(&b"alice".to_vec(), &b"hi there".to_vec());
    assert_eq!(payload, b"alice: hi there\n".to_vec());
    let empty_body = build_payload(&b"u".to_vec(), &b"".to_vec());
    assert_eq!(empty_body, b"u: \n".to_vec());
}

#[test]
fn disconnect_removes_member_everywhere() {
    let mut reg = Registry::new();
    let a = member(0, "a");
    let b = member(1, "b");
    reg.handle(join("one"), &a);
    reg.handle(join("two"), &a);
    reg.handle(join("one"), &b);
    reg.disconnect(0);
    // the room a had alone is gone; the shared room keeps only b
    assert!(!reg.contains_room(&b"two".to_vec()));
    assert_eq!(reg.member_ids(&b"one".to_vec()), vec![1]);
    // a departed member no longer receives broadcast attempts
    let (ids, _) = reg.handle(msg("one", "x"), &b).expect("room exists");
    assert!(ids.is_empty());
}

#[test]
fn disconnect_of_stranger_changes_nothing() {
    let mut reg = Registry::new();
    let a = member(0, "a");
    reg.handle(join("r"), &a);
    reg.disconnect(9);
    assert_eq!(reg.member_ids(&b"r".to_vec()), vec![0]);
}
