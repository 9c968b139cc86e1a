//! Connection state machine: governs one socket's lifecycle.
//!
//! A connection starts anonymous. Its very first decoded payload — whatever
//! it holds — becomes the username, and the connection is named for the rest
//! of its life; there is no way back. Every later payload goes through the
//! command parser: an accepted command is handed on, paired with the
//! connection's member handle, and a rejected payload is silently dropped.

use vstd::prelude::*;

use crate::command::{parse_spec, strip_nl, Command};
use crate::frame::NL;
use crate::registry::Member;

verus! {

/// Protocol state of one connection.
pub enum State {
    /// No username yet: the next payload becomes the username.
    Anon,
    /// Named: commands are sent under this member handle.
    User(Member),
}

impl State {
    /// Consumes one decoded payload. In `Anon` the payload, its trailing
    /// newline stripped, becomes the username of a member handle bearing the
    /// connection's id, and no command is produced. In `User` the payload is
    /// parsed; an accepted command comes back paired with a copy of the
    /// member handle, a rejected payload yields nothing.
    pub fn on_payload(self, id: usize, payload: Vec<u8>) -> (r: (
        State,
        Option<(Command, Member)>,
    ))
        ensures
            self is Anon ==> (r.0 matches State::User(m) && m.id == id && m.username@ == strip_nl(
                payload@,
            )) && r.1 is None,
            self matches State::User(m0) ==> (r.0 matches State::User(m1) && m1@ == m0@) && (match
                parse_spec(payload@) {
                Some(c) => r.1 matches Some(p) && p.0@ == c && p.1@ == m0@,
                None => r.1 is None,
            }),
    {
        match self {
            State::Anon => {
                let ghost orig = payload@;
                let mut username = payload;
                let n = username.len();
                if n > 0 && username[n - 1] == NL {
                    let _ = username.pop();
                    proof {
                        assert(username@ =~= strip_nl(orig));
                    }
                }
                let member = Member { id, username };
                (State::User(member), None)
            },
            State::User(m) => {
                match Command::parse(payload) {
                    None => (State::User(m), None),
                    Some(c) => {
                        let d = m.duplicate();
                        (State::User(m), Some((c, d)))
                    },
                }
            },
        }
    }
}

} // verus!
