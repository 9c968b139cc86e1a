//! Command parser: turns one decoded payload into a typed command or rejects
//! it.
//!
//! A payload is parsed by trimming the trailing newline, rejecting bytes that
//! are not valid UTF-8 text, splitting at the first space into a verb and a
//! remainder, and dispatching on the verb. `join` and `part` demand a
//! non-empty room name with no internal space; `msg` splits the remainder
//! once more into a room name and a body that runs to the end of the line.
//! Rejection is silent: the parser returns no command and the caller drops
//! the payload.

use vstd::prelude::*;

use crate::bytes::{copy_range, find_byte, find_byte_in};
use crate::frame::NL;

verus! {

/// The space byte, the token separator of the wire protocol.
pub const SPACE: u8 = 32;

/// A UTF-8 continuation byte.
pub open spec fn is_cont(b: u8) -> bool {
    0x80 <= b <= 0xBF
}

/// Validity of a byte sequence as UTF-8 text (RFC 3629: no surrogates, no
/// overlong forms, no code points past U+10FFFF).
pub open spec fn utf8_ok(s: Seq<u8>) -> bool
    decreases s.len(),
{
    if s.len() == 0 {
        true
    } else {
        let b0 = s[0];
        if b0 < 0x80 {
            utf8_ok(s.skip(1))
        } else if b0 < 0xC2 {
            false
        } else if b0 <= 0xDF {
            if s.len() < 2 {
                false
            } else {
                is_cont(s[1]) && utf8_ok(s.skip(2))
            }
        } else if b0 <= 0xEF {
            if s.len() < 3 {
                false
            } else {
                let lo: u8 = if b0 == 0xE0 {
                    0xA0
                } else {
                    0x80
                };
                let hi: u8 = if b0 == 0xED {
                    0x9F
                } else {
                    0xBF
                };
                lo <= s[1] <= hi && is_cont(s[2]) && utf8_ok(s.skip(3))
            }
        } else if b0 <= 0xF4 {
            if s.len() < 4 {
                false
            } else {
                let lo: u8 = if b0 == 0xF0 {
                    0x90
                } else {
                    0x80
                };
                let hi: u8 = if b0 == 0xF4 {
                    0x8F
                } else {
                    0xBF
                };
                lo <= s[1] <= hi && is_cont(s[2]) && is_cont(s[3]) && utf8_ok(s.skip(4))
            }
        } else {
            false
        }
    }
}

/// Executable UTF-8 validity check, proved equal to [`utf8_ok`].
pub fn is_utf8(v: &Vec<u8>) -> (r: bool)
    ensures
        r == utf8_ok(v@),
{
    let n = v.len();
    let mut i: usize = 0;
    proof {
        assert(v@.skip(0) =~= v@);
    }
    while i < n
        invariant
            i <= n,
            n == v@.len(),
            utf8_ok(v@) == utf8_ok(v@.skip(i as int)),
        decreases n - i,
    {
        let ghost t = v@.skip(i as int);
        let b0 = v[i];
        if b0 < 0x80 {
            proof {
                assert(t.skip(1) =~= v@.skip(i as int + 1));
            }
            i = i + 1;
        } else if b0 < 0xC2 {
            return false;
        } else if b0 <= 0xDF {
            if n - i < 2 {
                return false;
            }
            let b1 = v[i + 1];
            if !(0x80 <= b1 && b1 <= 0xBF) {
                return false;
            }
            proof {
                assert(t.skip(2) =~= v@.skip(i as int + 2));
            }
            i = i + 2;
        } else if b0 <= 0xEF {
            if n - i < 3 {
                return false;
            }
            let b1 = v[i + 1];
            let b2 = v[i + 2];
            let lo: u8 = if b0 == 0xE0 {
                0xA0
            } else {
                0x80
            };
            let hi: u8 = if b0 == 0xED {
                0x9F
            } else {
                0xBF
            };
            if !(lo <= b1 && b1 <= hi && 0x80 <= b2 && b2 <= 0xBF) {
                return false;
            }
            proof {
                assert(t.skip(3) =~= v@.skip(i as int + 3));
            }
            i = i + 3;
        } else if b0 <= 0xF4 {
            if n - i < 4 {
                return false;
            }
            let b1 = v[i + 1];
            let b2 = v[i + 2];
            let b3 = v[i + 3];
            let lo: u8 = if b0 == 0xF0 {
                0x90
            } else {
                0x80
            };
            let hi: u8 = if b0 == 0xF4 {
                0x8F
            } else {
                0xBF
            };
            if !(lo <= b1 && b1 <= hi && 0x80 <= b2 && b2 <= 0xBF && 0x80 <= b3 && b3 <= 0xBF) {
                return false;
            }
            proof {
                assert(t.skip(4) =~= v@.skip(i as int + 4));
            }
            i = i + 4;
        } else {
            return false;
        }
    }
    proof {
        assert(v@.skip(n as int) =~= Seq::<u8>::empty());
    }
    true
}

/// Mathematical value of a command: room names and message bodies as byte
/// sequences.
pub enum CommandModel {
    Join(Seq<u8>),
    Part(Seq<u8>),
    Msg { room: Seq<u8>, msg: Seq<u8> },
}

/// A parsed command of the wire protocol.
#[derive(Debug, PartialEq, Eq)]
pub enum Command {
    Join(Vec<u8>),
    Part(Vec<u8>),
    Msg { room: Vec<u8>, msg: Vec<u8> },
}

impl View for Command {
    type V = CommandModel;

    open spec fn view(&self) -> CommandModel {
        match self {
            Command::Join(r) => CommandModel::Join(r@),
            Command::Part(r) => CommandModel::Part(r@),
            Command::Msg { room, msg } => CommandModel::Msg { room: room@, msg: msg@ },
        }
    }
}

/// View of an optional command.
pub open spec fn opt_cmd_view(r: Option<Command>) -> Option<CommandModel> {
    match r {
        Some(c) => Some(c@),
        None => None,
    }
}

/// The bytes of the verb `join`.
pub open spec fn join_verb() -> Seq<u8> {
    seq![106u8, 111u8, 105u8, 110u8]
}

/// The bytes of the verb `part`.
pub open spec fn part_verb() -> Seq<u8> {
    seq![112u8, 97u8, 114u8, 116u8]
}

/// The bytes of the verb `msg`.
pub open spec fn msg_verb() -> Seq<u8> {
    seq![109u8, 115u8, 103u8]
}

/// A payload with its trailing newline, if any, removed.
pub open spec fn strip_nl(s: Seq<u8>) -> Seq<u8> {
    if s.len() > 0 && s[s.len() - 1] == NL {
        s.drop_last()
    } else {
        s
    }
}

/// What parsing a payload yields: the command, or nothing when the payload
/// is rejected. Rejected are: payloads that are not valid UTF-8 text,
/// payloads without a verb/argument separator, unknown verbs, `join`/`part`
/// with an empty room name or one holding a space, `msg` without a second
/// separator, and `msg` with an empty room name. A `msg` body may be empty.
pub open spec fn parse_spec(input: Seq<u8>) -> Option<CommandModel> {
    let t = strip_nl(input);
    if !utf8_ok(t) {
        None
    } else {
        let p = find_byte(t, SPACE);
        if p < 0 {
            None
        } else {
            let verb = t.take(p);
            let rest = t.skip(p + 1);
            if verb == join_verb() || verb == part_verb() {
                if rest.len() == 0 || find_byte(rest, SPACE) >= 0 {
                    None
                } else if verb == join_verb() {
                    Some(CommandModel::Join(rest))
                } else {
                    Some(CommandModel::Part(rest))
                }
            } else if verb == msg_verb() {
                let q = find_byte(rest, SPACE);
                if q < 0 {
                    None
                } else {
                    let room = rest.take(q);
                    let body = rest.skip(q + 1);
                    if room.len() == 0 {
                        None
                    } else {
                        Some(CommandModel::Msg { room, msg: body })
                    }
                }
            } else {
                None
            }
        }
    }
}

impl Command {
    /// Parses one decoded payload into a command, or rejects it silently.
    pub fn parse(bytes: Vec<u8>) -> (r: Option<Command>)
        ensures
            opt_cmd_view(r) == parse_spec(bytes@),
    {
        let ghost orig = bytes@;
        let mut t = bytes;
        let n0 = t.len();
        if n0 > 0 && t[n0 - 1] == NL {
            let _ = t.pop();
            proof {
                assert(t@ =~= strip_nl(orig));
            }
        }
        let ghost ts = t@;
        proof {
            assert(ts == strip_nl(orig));
        }
        if !is_utf8(&t) {
            return None;
        }
        let tn = t.len();
        proof {
            assert(ts.take(tn as int) =~= ts);
        }
        let p = match find_byte_in(&t, tn, SPACE) {
            None => {
                return None;
            },
            Some(p) => p,
        };
        let rest = copy_range(&t, p + 1, tn);
        proof {
            assert(rest@ =~= ts.skip(p as int + 1));
            assert(ts.take(p as int).len() == p);
        }
        if p == 4 && t[0] == 106 && t[1] == 111 && t[2] == 105 && t[3] == 110 {
            proof {
                assert(ts.take(p as int) =~= join_verb());
            }
            if rest.len() == 0 {
                return None;
            }
            let rn = rest.len();
            proof {
                assert(rest@.take(rn as int) =~= rest@);
            }
            match find_byte_in(&rest, rn, SPACE) {
                Some(_) => None,
                None => Some(Command::Join(rest)),
            }
        } else if p == 4 && t[0] == 112 && t[1] == 97 && t[2] == 114 && t[3] == 116 {
            proof {
                assert(ts.take(p as int) =~= part_verb());
            }
            if rest.len() == 0 {
                return None;
            }
            let rn = rest.len();
            proof {
                assert(rest@.take(rn as int) =~= rest@);
            }
            match find_byte_in(&rest, rn, SPACE) {
                Some(_) => None,
                None => Some(Command::Part(rest)),
            }
        } else if p == 3 && t[0] == 109 && t[1] == 115 && t[2] == 103 {
            proof {
                assert(ts.take(p as int) =~= msg_verb());
            }
            let rn = rest.len();
            proof {
                assert(rest@.take(rn as int) =~= rest@);
            }
            match find_byte_in(&rest, rn, SPACE) {
                None => None,
                Some(q) => {
                    let room = copy_range(&rest, 0, q);
                    let body = copy_range(&rest, q + 1, rn);
                    proof {
                        assert(room@ =~= rest@.take(q as int));
                        assert(body@ =~= rest@.skip(q as int + 1));
                    }
                    if room.len() == 0 {
                        None
                    } else {
                        Some(Command::Msg { room, msg: body })
                    }
                },
            }
        } else {
            proof {
                let verb = ts.take(p as int);
                assert(verb != join_verb());
                assert(verb != part_verb());
                assert(verb != msg_verb());
            }
            None
        }
    }
}

} // verus!
