//! Tests of the connection state machine and the end-to-end flow of bytes
//! through decoder, state machine and registry.

use chat_relay::{Command, Frame, Registry, State};

#[test]
fn first_payload_becomes_username() {
    let (state, sent) = State::Anon.on_payload(7, b"alice\n".to_vec());
    assert!(sent.is_none());
    match state {
        State::User(m) => {
            assert_eq!(m.id, 7);
            assert_eq!(m.username, b"alice".to_vec());
        }
        State::Anon => panic!("still anonymous after the first payload"),
    }
}

#[test]
fn named_state_parses_commands() {
    let (state, _) = State::Anon.on_payload(7, b"alice\n".to_vec());
    let (state, sent) = state.on_payload(7, b"join lobby\n".to_vec());
    let (cmd, m) = sent.expect("a valid command is handed on");
    assert_eq!(cmd, Command::Join(b"lobby".to_vec()));
    assert_eq!(m.id, 7);
    assert_eq!(m.username, b"alice".to_vec());
    assert!(matches!(state, State::User(_)));
}

#[test]
fn rejected_payload_is_dropped() {
    let (state, _) = State::Anon.on_payload(7, b"alice\n".to_vec());
    let (state, sent) = state.on_payload(7, b"gibberish\n".to_vec());
    assert!(sent.is_none());
    // the connection stays named and keeps working
    let (_, sent) = state.on_payload(7, b"join lobby\n".to_vec());
    assert!(sent.is_some());
}

#[test]
fn username_is_taken_verbatim() {
    // the first payload is not run through the parser
    let (state, sent) = State::Anon.on_payload(3, b"join lobby\n".to_vec());
    assert!(sent.is_none());
    match state {
        State::User(m) => assert_eq!(m.username, b"join lobby".to_vec()),
        State::Anon => panic!("still anonymous after the first payload"),
    }
}

/// One simulated client: a decoder and a connection state.
struct Client {
    id: usize,
    frame: Frame,
    state: State,
}

impl Client {
    fn new(id: usize) -> Client {
        Client {
            id,
            frame: Frame::new(),
            state: State::Anon,
        }
    }

    /// Feeds raw socket bytes and hands every completed command to the
    /// registry, collecting what the registry says to deliver.
    fn pump(&mut self, bytes: &[u8], reg: &mut Registry) -> Vec<(Vec<usize>, Vec<u8>)> {
        let mut deliveries = Vec::new();
        self.frame.feed(bytes);
        while let Some(payload) = self.frame.frame() {
            let state = std::mem::replace(&mut self.state, State::Anon);
            let (state, sent) = state.on_payload(self.id, payload);
            self.state = state;
            if let Some((cmd, sender)) = sent {
                if let Some(d) = reg.handle(cmd, &sender) {
                    deliveries.push(d);
                }
            }
        }
        deliveries
    }
}

#[test]
fn end_to_end_scenario() {
    let mut reg = Registry::new();
    let mut alice = Client::new(0);
    let mut bob = Client::new(1);

    assert!(alice.pump(b"alice\n", &mut reg).is_empty());
    assert!(alice.pump(b"join lobby\n", &mut reg).is_empty());
    assert!(bob.pump(b"bob\n", &mut reg).is_empty());
    assert!(bob.pump(b"join lobby\n", &mut reg).is_empty());

    let deliveries = alice.pump(b"msg lobby hi there\n", &mut reg);
    assert_eq!(deliveries.len(), 1);
    let (ids, payload) = &deliveries[0];
    // bob receives exactly "alice: hi there\n" once; alice receives nothing
    assert_eq!(ids, &vec![1]);
    assert_eq!(payload, &b"alice: hi there\n".to_vec());
}

#[test]
fn end_to_end_split_reads_and_disconnect() {
    let mut reg = Registry::new();
    let mut alice = Client::new(0);
    let mut bob = Client::new(1);

    alice.pump(b"ali", &mut reg);
    alice.pump(b"ce\njoin lo", &mut reg);
    alice.pump(b"bby\n", &mut reg);
    bob.pump(b"bob\njoin lobby\n", &mut reg);

    let deliveries = bob.pump(b"msg lobby hello\n", &mut reg);
    assert_eq!(deliveries.len(), 1);
    assert_eq!(deliveries[0].0, vec![0]);
    assert_eq!(deliveries[0].1, b"bob: hello\n".to_vec());

    // bob's connection closes: the registry is told, and alice's later
    // broadcast no longer targets him
    reg.disconnect(1);
    let deliveries = alice.pump(b"msg lobby anyone\n", &mut reg);
    assert_eq!(deliveries.len(), 1);
    assert!(deliveries[0].0.is_empty());
}
