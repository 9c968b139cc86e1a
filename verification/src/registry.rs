//! Room registry: the single owner of all room membership.
//!
//! The registry maps room names to rooms, each a duplicate-free, ordered
//! list of member handles. It processes one command at a time: `Join`
//! creates the room if absent and appends the sender if not already a
//! member, `Part` removes the sender and deletes the room when it empties,
//! and `Msg` computes one shared outbound payload and the list of
//! recipients — every current member except the sender. A disconnecting
//! member is removed from every room. The serialized, message-passing use
//! of this structure (one task owning it, reached by a mailbox) lives
//! outside the library.

use vstd::prelude::*;

use crate::bytes::{copy_range, vec_eq};
use crate::command::{Command, CommandModel};

verus! {

/// Mathematical value of a member handle: identity is the id alone.
#[verifier::ext_equal]
pub struct MemberModel {
    pub id: int,
    pub username: Seq<u8>,
}

/// Mathematical value of a room: its name and its members in join order.
#[verifier::ext_equal]
pub struct RoomModel {
    pub name: Seq<u8>,
    pub members: Seq<MemberModel>,
}

/// The registry-visible identity of one named connection.
pub struct Member {
    pub id: usize,
    pub username: Vec<u8>,
}

impl View for Member {
    type V = MemberModel;

    open spec fn view(&self) -> MemberModel {
        MemberModel { id: self.id as int, username: self.username@ }
    }
}

impl Member {
    /// A copy of the handle; two copies are the same member.
    pub fn duplicate(&self) -> (m: Member)
        ensures
            m@ == self@,
    {
        let username = copy_range(&self.username, 0, self.username.len());
        proof {
            assert(username@ =~= self.username@);
        }
        Member { id: self.id, username }
    }
}

/// The ids of a member list, in order.
pub open spec fn ids_of(ms: Seq<MemberModel>) -> Seq<int> {
    ms.map_values(|m: MemberModel| m.id)
}

/// Index of the first member with the given id, or -1 if none.
pub open spec fn member_idx(ms: Seq<MemberModel>, id: int) -> int
    decreases ms.len(),
{
    if ms.len() == 0 {
        -1
    } else if ms[0].id == id {
        0
    } else if member_idx(ms.drop_first(), id) < 0 {
        -1
    } else {
        1 + member_idx(ms.drop_first(), id)
    }
}

/// Whether some member of the list has the given id.
pub open spec fn is_member(ms: Seq<MemberModel>, id: int) -> bool {
    member_idx(ms, id) >= 0
}

/// `member_idx` is -1 exactly when the id is absent; otherwise it is the
/// least index holding it.
pub proof fn lemma_member_idx(ms: Seq<MemberModel>, id: int)
    ensures
        member_idx(ms, id) < 0 ==> forall|i: int| 0 <= i < ms.len() ==> ms[i].id != id,
        member_idx(ms, id) >= 0 ==> member_idx(ms, id) < ms.len() && ms[member_idx(ms, id)].id
            == id && (forall|i: int| 0 <= i < member_idx(ms, id) ==> ms[i].id != id),
    decreases ms.len(),
{
    if ms.len() > 0 && ms[0].id != id {
        lemma_member_idx(ms.drop_first(), id);
        assert(forall|i: int| 1 <= i < ms.len() ==> ms[i] == ms.drop_first()[i - 1]);
    }
}

/// A position holding the id, with no earlier occurrence, is what
/// `member_idx` returns.
pub proof fn lemma_member_idx_at(ms: Seq<MemberModel>, id: int, p: int)
    requires
        0 <= p < ms.len(),
        ms[p].id == id,
        forall|i: int| 0 <= i < p ==> ms[i].id != id,
    ensures
        member_idx(ms, id) == p,
    decreases p,
{
    if p > 0 {
        assert(forall|i: int| 0 <= i < ms.len() - 1 ==> ms.drop_first()[i] == ms[i + 1]);
        lemma_member_idx_at(ms.drop_first(), id, p - 1);
    }
}

/// Index of the first room with the given name, or -1 if none.
pub open spec fn room_idx(rs: Seq<RoomModel>, name: Seq<u8>) -> int
    decreases rs.len(),
{
    if rs.len() == 0 {
        -1
    } else if rs[0].name == name {
        0
    } else if room_idx(rs.drop_first(), name) < 0 {
        -1
    } else {
        1 + room_idx(rs.drop_first(), name)
    }
}

/// Whether a room of that name exists.
pub open spec fn has_room(rs: Seq<RoomModel>, name: Seq<u8>) -> bool {
    room_idx(rs, name) >= 0
}

/// The members of the named room, in join order; empty if the room does not
/// exist.
pub open spec fn members_of(rs: Seq<RoomModel>, name: Seq<u8>) -> Seq<MemberModel> {
    if has_room(rs, name) {
        rs[room_idx(rs, name)].members
    } else {
        Seq::empty()
    }
}

/// `room_idx` is -1 exactly when the name is absent; otherwise it is the
/// least index holding it.
pub proof fn lemma_room_idx(rs: Seq<RoomModel>, name: Seq<u8>)
    ensures
        room_idx(rs, name) < 0 ==> forall|i: int| 0 <= i < rs.len() ==> rs[i].name != name,
        room_idx(rs, name) >= 0 ==> room_idx(rs, name) < rs.len() && rs[room_idx(rs, name)].name
            == name && (forall|i: int| 0 <= i < room_idx(rs, name) ==> rs[i].name != name),
    decreases rs.len(),
{
    if rs.len() > 0 && rs[0].name != name {
        lemma_room_idx(rs.drop_first(), name);
        assert(forall|i: int| 1 <= i < rs.len() ==> rs[i] == rs.drop_first()[i - 1]);
    }
}

/// A position holding the name, with no earlier occurrence, is what
/// `room_idx` returns.
pub proof fn lemma_room_idx_at(rs: Seq<RoomModel>, name: Seq<u8>, p: int)
    requires
        0 <= p < rs.len(),
        rs[p].name == name,
        forall|i: int| 0 <= i < p ==> rs[i].name != name,
    ensures
        room_idx(rs, name) == p,
    decreases p,
{
    if p > 0 {
        assert(forall|i: int| 0 <= i < rs.len() - 1 ==> rs.drop_first()[i] == rs[i + 1]);
        lemma_room_idx_at(rs.drop_first(), name, p - 1);
    }
}

/// No two members of a list share an id.
pub open spec fn wf_members(ms: Seq<MemberModel>) -> bool {
    forall|a: int, b: int| 0 <= a < b < ms.len() ==> ms[a].id != ms[b].id
}

/// Registry invariant: room names are unique, no room is empty, and no room
/// holds two members with the same id.
pub open spec fn wf_rooms(rs: Seq<RoomModel>) -> bool {
    &&& forall|i: int, j: int| 0 <= i < j < rs.len() ==> rs[i].name != rs[j].name
    &&& forall|i: int| 0 <= i < rs.len() ==> (#[trigger] rs[i]).members.len() > 0
    &&& forall|i: int| 0 <= i < rs.len() ==> wf_members((#[trigger] rs[i]).members)
}

/// Effect of `Join(name)` from member `m`: create the room if absent,
/// append `m` if not already a member.
pub open spec fn spec_join(rs: Seq<RoomModel>, name: Seq<u8>, m: MemberModel) -> Seq<RoomModel> {
    let i = room_idx(rs, name);
    if i < 0 {
        rs.push(RoomModel { name, members: seq![m] })
    } else if is_member(rs[i].members, m.id) {
        rs
    } else {
        rs.update(i, RoomModel { name, members: rs[i].members.push(m) })
    }
}

/// Effect of `Part(name)` from the member with the given id: remove it; if
/// the room empties, delete the room; no-op if room or member is absent.
pub open spec fn spec_part(rs: Seq<RoomModel>, name: Seq<u8>, id: int) -> Seq<RoomModel> {
    let i = room_idx(rs, name);
    if i < 0 {
        rs
    } else {
        let p = member_idx(rs[i].members, id);
        if p < 0 {
            rs
        } else {
            let ms = rs[i].members.remove(p);
            if ms.len() == 0 {
                rs.remove(i)
            } else {
                rs.update(i, RoomModel { name, members: ms })
            }
        }
    }
}

/// The ids that a broadcast from `sender` reaches: every member of the
/// list except the sender, in order.
pub open spec fn recipients_of(ms: Seq<MemberModel>, sender: int) -> Seq<int>
    decreases ms.len(),
{
    if ms.len() == 0 {
        Seq::empty()
    } else {
        let init = recipients_of(ms.drop_last(), sender);
        if ms.last().id == sender {
            init
        } else {
            init.push(ms.last().id)
        }
    }
}

/// The ids that a `Msg` to the named room from `sender` reaches.
pub open spec fn spec_msg_recipients(rs: Seq<RoomModel>, name: Seq<u8>, sender: int) -> Seq<int> {
    recipients_of(members_of(rs, name), sender)
}

/// The one outbound payload of a broadcast: `<username>: <body>\n`.
pub open spec fn payload_of(username: Seq<u8>, body: Seq<u8>) -> Seq<u8> {
    username + seq![58u8, 32u8] + body + seq![10u8]
}

/// Effect of a member's disconnection: it leaves every room; rooms that
/// empty are deleted, the others keep their order.
pub open spec fn spec_disconnect(rs: Seq<RoomModel>, id: int) -> Seq<RoomModel>
    decreases rs.len(),
{
    if rs.len() == 0 {
        Seq::empty()
    } else {
        let init = spec_disconnect(rs.drop_last(), id);
        let r = rs.last();
        let p = member_idx(r.members, id);
        let ms = if p < 0 {
            r.members
        } else {
            r.members.remove(p)
        };
        if ms.len() == 0 {
            init
        } else {
            init.push(RoomModel { name: r.name, members: ms })
        }
    }
}

/// Whether some room of the list bears the given name.
pub open spec fn contains_name(rs: Seq<RoomModel>, name: Seq<u8>) -> bool {
    exists|j: int| 0 <= j < rs.len() && (#[trigger] rs[j]).name == name
}

/// `room_idx` depends only on the names of the rooms.
pub proof fn lemma_room_idx_same_names(a: Seq<RoomModel>, b: Seq<RoomModel>, name: Seq<u8>)
    requires
        a.len() == b.len(),
        forall|x: int| 0 <= x < a.len() ==> a[x].name == b[x].name,
    ensures
        room_idx(a, name) == room_idx(b, name),
    decreases a.len(),
{
    if a.len() > 0 {
        assert(forall|x: int| 0 <= x < a.len() - 1 ==> a.drop_first()[x] == a[x + 1]);
        assert(forall|x: int| 0 <= x < b.len() - 1 ==> b.drop_first()[x] == b[x + 1]);
        lemma_room_idx_same_names(a.drop_first(), b.drop_first(), name);
    }
}

/// `Join` preserves the registry invariant.
pub proof fn lemma_join_wf(rs: Seq<RoomModel>, name: Seq<u8>, m: MemberModel)
    requires
        wf_rooms(rs),
    ensures
        wf_rooms(spec_join(rs, name, m)),
{
    lemma_room_idx(rs, name);
    let i = room_idx(rs, name);
    let out = spec_join(rs, name, m);
    if i < 0 {
        assert(wf_members(seq![m]));
        assert forall|a: int, b: int| 0 <= a < b < out.len() implies out[a].name != out[b].name by {
            if b == rs.len() {
                assert(out[a] == rs[a]);
                assert(out[b].name == name);
            }
        }
        assert forall|x: int| 0 <= x < out.len() implies (#[trigger] out[x]).members.len() > 0
            && wf_members(out[x].members) by {
            if x < rs.len() {
                assert(out[x] == rs[x]);
            } else {
                assert(out[x].members == seq![m]);
            }
        }
    } else if is_member(rs[i].members, m.id) {
        assert(out == rs);
    } else {
        lemma_member_idx(rs[i].members, m.id);
        let ms2 = rs[i].members.push(m);
        assert forall|a: int, b: int| 0 <= a < b < ms2.len() implies ms2[a].id != ms2[b].id by {
            if b < rs[i].members.len() {
                assert(ms2[a] == rs[i].members[a]);
                assert(ms2[b] == rs[i].members[b]);
            } else {
                assert(ms2[a] == rs[i].members[a]);
                assert(ms2[b] == m);
            }
        }
        assert forall|a: int, b: int| 0 <= a < b < out.len() implies out[a].name != out[b].name by {
            assert(out[a].name == rs[a].name);
            assert(out[b].name == rs[b].name);
        }
        assert forall|x: int| 0 <= x < out.len() implies (#[trigger] out[x]).members.len() > 0
            && wf_members(out[x].members) by {
            if x != i {
                assert(out[x] == rs[x]);
            } else {
                assert(out[x].members == ms2);
            }
        }
    }
}

/// Removing one member keeps the remaining ids distinct.
pub proof fn lemma_members_remove_wf(ms: Seq<MemberModel>, p: int)
    requires
        wf_members(ms),
        0 <= p < ms.len(),
    ensures
        wf_members(ms.remove(p)),
{
    ms.remove_ensures(p);
    let out = ms.remove(p);
    assert forall|a: int, b: int| 0 <= a < b < out.len() implies out[a].id != out[b].id by {
        if b < p {
            assert(out[a] == ms[a] && out[b] == ms[b]);
        } else if a < p {
            assert(out[a] == ms[a] && out[b] == ms[b + 1]);
        } else {
            assert(out[a] == ms[a + 1] && out[b] == ms[b + 1]);
        }
    }
}

/// `Part` preserves the registry invariant.
pub proof fn lemma_part_wf(rs: Seq<RoomModel>, name: Seq<u8>, id: int)
    requires
        wf_rooms(rs),
    ensures
        wf_rooms(spec_part(rs, name, id)),
{
    lemma_room_idx(rs, name);
    let i = room_idx(rs, name);
    if i >= 0 {
        lemma_member_idx(rs[i].members, id);
        let p = member_idx(rs[i].members, id);
        if p >= 0 {
            let ms = rs[i].members.remove(p);
            lemma_members_remove_wf(rs[i].members, p);
            if ms.len() == 0 {
                let out = rs.remove(i);
                rs.remove_ensures(i);
                assert forall|a: int, b: int| 0 <= a < b < out.len() implies out[a].name != out[b].name by {
                    if b < i {
                        assert(out[a] == rs[a] && out[b] == rs[b]);
                    } else if a < i {
                        assert(out[a] == rs[a] && out[b] == rs[b + 1]);
                    } else {
                        assert(out[a] == rs[a + 1] && out[b] == rs[b + 1]);
                    }
                }
                assert forall|x: int| 0 <= x < out.len() implies (#[trigger] out[x]).members.len()
                    > 0 && wf_members(out[x].members) by {
                    if x < i {
                        assert(out[x] == rs[x]);
                    } else {
                        assert(out[x] == rs[x + 1]);
                    }
                }
            } else {
                let out = rs.update(i, RoomModel { name, members: ms });
                assert forall|a: int, b: int| 0 <= a < b < out.len() implies out[a].name != out[b].name by {
                    assert(out[a].name == rs[a].name);
                    assert(out[b].name == rs[b].name);
                }
                assert forall|x: int| 0 <= x < out.len() implies (#[trigger] out[x]).members.len()
                    > 0 && wf_members(out[x].members) by {
                    if x != i {
                        assert(out[x] == rs[x]);
                    }
                }
            }
        }
    }
}

/// How `Join` changes membership: the named room gains the member unless it
/// is already there; every other room is untouched.
pub proof fn lemma_join_members(rs: Seq<RoomModel>, name: Seq<u8>, m: MemberModel)
    requires
        wf_rooms(rs),
    ensures
        has_room(spec_join(rs, name, m), name),
        members_of(spec_join(rs, name, m), name) == if is_member(members_of(rs, name), m.id) {
            members_of(rs, name)
        } else {
            members_of(rs, name).push(m)
        },
        forall|other: Seq<u8>|
            other != name ==> members_of(spec_join(rs, name, m), other) == members_of(rs, other)
                && has_room(spec_join(rs, name, m), other) == has_room(rs, other),
{
    lemma_room_idx(rs, name);
    let i = room_idx(rs, name);
    let out = spec_join(rs, name, m);
    if i < 0 {
        lemma_room_idx_at(out, name, rs.len() as int);
        assert(members_of(rs, name) == Seq::<MemberModel>::empty());
        assert(member_idx(Seq::<MemberModel>::empty(), m.id) < 0);
        assert(members_of(out, name) =~= members_of(rs, name).push(m));
        assert forall|other: Seq<u8>| other != name implies members_of(out, other) == members_of(
            rs,
            other,
        ) && has_room(out, other) == has_room(rs, other) by {
            lemma_room_idx(rs, other);
            lemma_room_idx(out, other);
            let j = room_idx(rs, other);
            if j >= 0 {
                assert(out[j] == rs[j]);
                lemma_room_idx_at(out, other, j);
            } else {
                if room_idx(out, other) >= 0 {
                    let q = room_idx(out, other);
                    assert(out[q].name == other);
                    assert(q < rs.len() ==> rs[q].name == other);
                    assert(q == rs.len() ==> out[q].name == name);
                }
            }
        }
    } else {
        assert(members_of(rs, name) == rs[i].members);
        if is_member(rs[i].members, m.id) {
            assert(out == rs);
        } else {
            assert(out[i].name == name);
            lemma_room_idx_at(out, name, i);
            assert(members_of(out, name) == rs[i].members.push(m));
            assert forall|other: Seq<u8>| other != name implies members_of(out, other)
                == members_of(rs, other) && has_room(out, other) == has_room(rs, other) by {
                lemma_room_idx_same_names(rs, out, other);
                let j = room_idx(rs, other);
                if j >= 0 {
                    lemma_room_idx(rs, other);
                    assert(j != i);
                    assert(out[j] == rs[j]);
                }
            }
        }
    }
}

/// How `Part` changes membership: the named room loses the member's only
/// occurrence and disappears when it empties; every other room is untouched.
pub proof fn lemma_part_members(rs: Seq<RoomModel>, name: Seq<u8>, id: int)
    requires
        wf_rooms(rs),
    ensures
        !is_member(members_of(rs, name), id) ==> spec_part(rs, name, id) == rs,
        is_member(members_of(rs, name), id) ==> {
            let ms = members_of(rs, name).remove(member_idx(members_of(rs, name), id));
            &&& has_room(spec_part(rs, name, id), name) == (ms.len() > 0)
            &&& members_of(spec_part(rs, name, id), name) == if ms.len() > 0 {
                ms
            } else {
                Seq::<MemberModel>::empty()
            }
        },
        forall|other: Seq<u8>|
            other != name ==> members_of(spec_part(rs, name, id), other) == members_of(rs, other)
                && has_room(spec_part(rs, name, id), other) == has_room(rs, other),
{
    lemma_room_idx(rs, name);
    let i = room_idx(rs, name);
    let out = spec_part(rs, name, id);
    if i < 0 {
        assert(members_of(rs, name) == Seq::<MemberModel>::empty());
        assert(member_idx(Seq::<MemberModel>::empty(), id) < 0);
        assert(out == rs);
    } else {
        lemma_member_idx(rs[i].members, id);
        let p = member_idx(rs[i].members, id);
        if p < 0 {
            assert(out == rs);
        } else {
            let ms = rs[i].members.remove(p);
            rs[i].members.remove_ensures(p);
            if ms.len() == 0 {
                rs.remove_ensures(i);
                lemma_room_idx(out, name);
                if room_idx(out, name) >= 0 {
                    let q = room_idx(out, name);
                    assert(out[q].name == name);
                    if q < i {
                        assert(out[q] == rs[q]);
                    } else {
                        assert(out[q] == rs[q + 1]);
                    }
                }
                assert(!has_room(out, name));
                assert forall|other: Seq<u8>| other != name implies members_of(out, other)
                    == members_of(rs, other) && has_room(out, other) == has_room(rs, other) by {
                    lemma_room_idx(rs, other);
                    lemma_room_idx(out, other);
                    let j = room_idx(rs, other);
                    if j >= 0 {
                        if j < i {
                            assert(out[j] == rs[j]);
                            lemma_room_idx_at(out, other, j);
                        } else {
                            assert(j != i);
                            assert(out[j - 1] == rs[j]);
                            assert forall|x: int| 0 <= x < j - 1 implies out[x].name != other by {
                                if x < i {
                                    assert(out[x] == rs[x]);
                                } else {
                                    assert(out[x] == rs[x + 1]);
                                }
                            }
                            lemma_room_idx_at(out, other, j - 1);
                        }
                    } else {
                        if room_idx(out, other) >= 0 {
                            let q = room_idx(out, other);
                            assert(out[q].name == other);
                            if q < i {
                                assert(out[q] == rs[q]);
                            } else {
                                assert(out[q] == rs[q + 1]);
                            }
                        }
                    }
                }
            } else {
                assert(out[i].name == name);
                lemma_room_idx_at(out, name, i);
                assert(members_of(out, name) == ms);
                assert forall|other: Seq<u8>| other != name implies members_of(out, other)
                    == members_of(rs, other) && has_room(out, other) == has_room(rs, other) by {
                    lemma_room_idx_same_names(rs, out, other);
                    let j = room_idx(rs, other);
                    if j >= 0 {
                        lemma_room_idx(rs, other);
                        assert(j != i);
                        assert(out[j] == rs[j]);
                    }
                }
            }
        }
    }
}

/// What a broadcast reaches: exactly the ids of the listed members other
/// than the sender.
pub proof fn lemma_recipients(ms: Seq<MemberModel>, sender: int)
    ensures
        forall|j: int|
            #[trigger] recipients_of(ms, sender).contains(j) <==> (j != sender && exists|k: int|
                0 <= k < ms.len() && (#[trigger] ms[k]).id == j),
    decreases ms.len(),
{
    let out = recipients_of(ms, sender);
    if ms.len() > 0 {
        let head = ms.drop_last();
        lemma_recipients(head, sender);
        let init = recipients_of(head, sender);
        assert forall|j: int| #[trigger] out.contains(j) implies (j != sender && exists|k: int|
            0 <= k < ms.len() && (#[trigger] ms[k]).id == j) by {
            let w = choose|w: int| 0 <= w < out.len() && out[w] == j;
            if ms.last().id == sender {
                assert(init[w] == j);
                assert(init.contains(j));
                let k = choose|k: int| 0 <= k < head.len() && head[k].id == j;
                assert(ms[k].id == j);
            } else {
                if w < init.len() {
                    assert(init[w] == j);
                    assert(init.contains(j));
                    let k = choose|k: int| 0 <= k < head.len() && head[k].id == j;
                    assert(ms[k].id == j);
                } else {
                    assert(j == ms.last().id);
                    assert(ms[ms.len() - 1].id == j);
                }
            }
        }
        assert forall|j: int| (j != sender && exists|k: int|
            0 <= k < ms.len() && (#[trigger] ms[k]).id == j) implies #[trigger] out.contains(
            j,
        ) by {
            let k = choose|k: int| 0 <= k < ms.len() && ms[k].id == j;
            if k < ms.len() - 1 {
                assert(head[k].id == j);
                assert(init.contains(j));
                let w = choose|w: int| 0 <= w < init.len() && init[w] == j;
                assert(out[w] == j);
            } else {
                assert(ms.last().id == j);
                assert(out[out.len() - 1] == j);
            }
        }
    }
}

/// In a well-formed room the recipient list holds no id twice.
pub proof fn lemma_recipients_unique(ms: Seq<MemberModel>, sender: int)
    requires
        wf_members(ms),
    ensures
        forall|a: int, b: int|
            0 <= a < b < recipients_of(ms, sender).len() ==> recipients_of(ms, sender)[a]
                != recipients_of(ms, sender)[b],
    decreases ms.len(),
{
    if ms.len() > 0 {
        let head = ms.drop_last();
        assert(wf_members(head));
        lemma_recipients_unique(head, sender);
        lemma_recipients(head, sender);
        let init = recipients_of(head, sender);
        let out = recipients_of(ms, sender);
        if ms.last().id != sender {
            assert forall|a: int| 0 <= a < init.len() implies init[a] != ms.last().id by {
                if init[a] == ms.last().id {
                    assert(init.contains(init[a]));
                    let k = choose|k: int| 0 <= k < head.len() && head[k].id == init[a];
                    assert(ms[k].id == ms[ms.len() - 1].id);
                }
            }
            assert forall|a: int, b: int| 0 <= a < b < out.len() implies out[a] != out[b] by {
                if b < init.len() {
                    assert(out[a] == init[a] && out[b] == init[b]);
                } else {
                    assert(out[a] == init[a] && out[b] == ms.last().id);
                }
            }
        }
    }
}

/// Room lifecycle: joining a nonexistent room creates it with the joining
/// member alone; the last `Part` from it deletes it; a later `Join`
/// recreates it fresh, with no memory of prior members.
pub proof fn lemma_room_lifecycle(
    rs: Seq<RoomModel>,
    name: Seq<u8>,
    a: MemberModel,
    b: MemberModel,
)
    requires
        wf_rooms(rs),
        !has_room(rs, name),
    ensures
        members_of(spec_join(rs, name, a), name) == seq![a],
        !has_room(spec_part(spec_join(rs, name, a), name, a.id), name),
        members_of(spec_join(spec_part(spec_join(rs, name, a), name, a.id), name, b), name)
            == seq![b],
{
    let rs1 = spec_join(rs, name, a);
    lemma_join_wf(rs, name, a);
    lemma_join_members(rs, name, a);
    assert(members_of(rs, name) == Seq::<MemberModel>::empty());
    assert(member_idx(Seq::<MemberModel>::empty(), a.id) < 0);
    assert(members_of(rs1, name) =~= seq![a]);
    let rs2 = spec_part(rs1, name, a.id);
    lemma_part_wf(rs1, name, a.id);
    lemma_part_members(rs1, name, a.id);
    assert(member_idx(seq![a], a.id) == 0);
    assert(is_member(members_of(rs1, name), a.id));
    assert(seq![a].remove(0) =~= Seq::<MemberModel>::empty());
    assert(!has_room(rs2, name));
    lemma_join_members(rs2, name, b);
    assert(members_of(rs2, name) == Seq::<MemberModel>::empty());
    assert(member_idx(Seq::<MemberModel>::empty(), b.id) < 0);
    assert(members_of(spec_join(rs2, name, b), name) =~= seq![b]);
}

/// Broadcast exclusion: a `Msg` from a sender reaches exactly the other
/// members of the room — never the sender, and each other member once.
pub proof fn lemma_broadcast_exclusion(rs: Seq<RoomModel>, name: Seq<u8>, sender: int)
    requires
        wf_rooms(rs),
    ensures
        !spec_msg_recipients(rs, name, sender).contains(sender),
        forall|j: int|
            #[trigger] spec_msg_recipients(rs, name, sender).contains(j) <==> (j != sender
                && is_member(members_of(rs, name), j)),
        forall|x: int, y: int|
            0 <= x < y < spec_msg_recipients(rs, name, sender).len() ==> spec_msg_recipients(
                rs,
                name,
                sender,
            )[x] != spec_msg_recipients(rs, name, sender)[y],
{
    let ms = members_of(rs, name);
    lemma_room_idx(rs, name);
    assert(wf_members(ms));
    lemma_recipients(ms, sender);
    assert forall|j: int| is_member(ms, j) == (exists|k: int|
        0 <= k < ms.len() && (#[trigger] ms[k]).id == j) by {
        lemma_member_idx(ms, j);
        if member_idx(ms, j) >= 0 {
            assert(ms[member_idx(ms, j)].id == j);
        }
    }
    lemma_recipients_unique(ms, sender);
}

/// Ordering: a member who joins the room before a `Msg` is processed is
/// among its recipients; one whose `Join` comes after is not.
pub proof fn lemma_ordering(rs: Seq<RoomModel>, name: Seq<u8>, a: MemberModel, b: MemberModel)
    requires
        wf_rooms(rs),
        !is_member(members_of(rs, name), b.id),
        a.id != b.id,
    ensures
        !spec_msg_recipients(rs, name, a.id).contains(b.id),
        spec_msg_recipients(spec_join(rs, name, b), name, a.id).contains(b.id),
{
    lemma_broadcast_exclusion(rs, name, a.id);
    lemma_join_wf(rs, name, b);
    lemma_join_members(rs, name, b);
    let rs1 = spec_join(rs, name, b);
    lemma_broadcast_exclusion(rs1, name, a.id);
    let ms1 = members_of(rs1, name);
    assert(ms1 == members_of(rs, name).push(b));
    assert(ms1[ms1.len() - 1].id == b.id);
    lemma_member_idx(ms1, b.id);
    assert(is_member(ms1, b.id));
}

/// Disconnection removes the member from every room, preserves the registry
/// invariant, and introduces no new room names.
pub proof fn lemma_disconnect_wf(rs: Seq<RoomModel>, id: int)
    requires
        wf_rooms(rs),
    ensures
        wf_rooms(spec_disconnect(rs, id)),
        forall|k: int|
            0 <= k < spec_disconnect(rs, id).len() ==> !is_member(
                (#[trigger] spec_disconnect(rs, id)[k]).members,
                id,
            ),
        forall|k: int|
            0 <= k < spec_disconnect(rs, id).len() ==> contains_name(
                rs,
                (#[trigger] spec_disconnect(rs, id)[k]).name,
            ),
    decreases rs.len(),
{
    let out = spec_disconnect(rs, id);
    if rs.len() > 0 {
        let head = rs.drop_last();
        assert(wf_rooms(head));
        lemma_disconnect_wf(head, id);
        let init = spec_disconnect(head, id);
        let r = rs.last();
        lemma_member_idx(r.members, id);
        let p = member_idx(r.members, id);
        let ms = if p < 0 {
            r.members
        } else {
            r.members.remove(p)
        };
        if p >= 0 {
            r.members.remove_ensures(p);
            lemma_members_remove_wf(r.members, p);
        }
        if ms.len() == 0 {
            assert(out == init);
            assert forall|k: int| 0 <= k < out.len() implies contains_name(
                rs,
                (#[trigger] out[k]).name,
            ) by {
                assert(contains_name(head, out[k].name));
                let j = choose|j: int| 0 <= j < head.len() && head[j].name == out[k].name;
                assert(rs[j].name == out[k].name);
            }
        } else {
            assert(out == init.push(RoomModel { name: r.name, members: ms }));
            assert(!is_member(ms, id)) by {
                if p >= 0 {
                    assert(r.members[p].id == id);
                    assert forall|x: int| 0 <= x < ms.len() implies ms[x].id != id by {
                        if x < p {
                            assert(ms[x] == r.members[x]);
                        } else {
                            assert(ms[x] == r.members[x + 1]);
                        }
                    }
                    lemma_member_idx(ms, id);
                    if member_idx(ms, id) >= 0 {
                        assert(ms[member_idx(ms, id)].id == id);
                    }
                }
            }
            assert forall|a2: int, b2: int| 0 <= a2 < b2 < out.len() implies out[a2].name
                != out[b2].name by {
                if b2 < init.len() {
                    assert(out[a2] == init[a2] && out[b2] == init[b2]);
                } else {
                    assert(out[a2] == init[a2]);
                    assert(out[b2].name == r.name);
                    assert(contains_name(head, init[a2].name));
                    let j = choose|j: int| 0 <= j < head.len() && head[j].name == init[a2].name;
                    assert(rs[j].name != rs[rs.len() - 1].name);
                }
            }
            assert forall|k: int| 0 <= k < out.len() implies (#[trigger] out[k]).members.len() > 0
                && wf_members(out[k].members) && !is_member(out[k].members, id) && contains_name(
                rs,
                out[k].name,
            ) by {
                if k < init.len() {
                    assert(out[k] == init[k]);
                    assert(contains_name(head, init[k].name));
                    let j = choose|j: int| 0 <= j < head.len() && head[j].name == init[k].name;
                    assert(rs[j].name == out[k].name);
                } else {
                    assert(out[k].members == ms);
                    assert(out[k].name == r.name);
                    assert(rs[rs.len() - 1].name == r.name);
                }
            }
        }
    }
}

/// A room: its name and its member handles in join order.
pub struct RoomEntry {
    name: Vec<u8>,
    members: Vec<Member>,
}

impl View for RoomEntry {
    type V = RoomModel;

    closed spec fn view(&self) -> RoomModel {
        RoomModel { name: self.name@, members: self.members@.map_values(|m: Member| m@) }
    }
}

/// The room registry: every room, owned exclusively by one task.
pub struct Registry {
    rooms: Vec<RoomEntry>,
}

impl View for Registry {
    type V = Seq<RoomModel>;

    closed spec fn view(&self) -> Seq<RoomModel> {
        self.rooms@.map_values(|r: RoomEntry| r@)
    }
}

/// First position of the member with the given id.
fn find_member(ms: &Vec<Member>, id: usize) -> (r: Option<usize>)
    ensures
        match r {
            Some(p) => p < ms@.len() && member_idx(ms@.map_values(|m: Member| m@), id as int)
                == p,
            None => member_idx(ms@.map_values(|m: Member| m@), id as int) < 0,
        },
{
    let ghost mm = ms@.map_values(|m: Member| m@);
    let n = ms.len();
    let mut i: usize = 0;
    while i < n
        invariant
            i <= n,
            n == ms@.len(),
            mm == ms@.map_values(|m: Member| m@),
            forall|j: int| 0 <= j < i ==> mm[j].id != id,
        decreases n - i,
    {
        if ms[i].id == id {
            proof {
                lemma_member_idx_at(mm, id as int, i as int);
            }
            return Some(i);
        }
        i = i + 1;
    }
    proof {
        lemma_member_idx(mm, id as int);
    }
    None
}

/// Builds the one shared broadcast payload: `<username>: <body>\n`.
pub fn build_payload(username: &Vec<u8>, body: &Vec<u8>) -> (r: Vec<u8>)
    ensures
        r@ == payload_of(username@, body@),
{
    let mut r = copy_range(username, 0, username.len());
    proof {
        assert(r@ =~= username@);
    }
    r.push(58);
    r.push(32);
    proof {
        assert(r@ =~= username@ + seq![58u8, 32u8] + body@.take(0));
    }
    let n = body.len();
    let mut i: usize = 0;
    while i < n
        invariant
            i <= n,
            n == body@.len(),
            r@ == username@ + seq![58u8, 32u8] + body@.take(i as int),
        decreases n - i,
    {
        r.push(body[i]);
        proof {
            assert(r@ =~= username@ + seq![58u8, 32u8] + body@.take(i as int + 1));
        }
        i = i + 1;
    }
    r.push(10);
    proof {
        assert(body@.take(n as int) =~= body@);
        assert(r@ =~= payload_of(username@, body@));
    }
    r
}

impl Registry {
    /// An empty registry: no rooms.
    pub fn new() -> (r: Registry)
        ensures
            r@ == Seq::<RoomModel>::empty(),
            wf_rooms(r@),
    {
        let r = Registry { rooms: Vec::new() };
        proof {
            assert(r@ =~= Seq::<RoomModel>::empty());
        }
        r
    }

    /// First position of the room with the given name.
    fn find_room(&self, name: &Vec<u8>) -> (r: Option<usize>)
        ensures
            match r {
                Some(i) => i < self@.len() && room_idx(self@, name@) == i,
                None => room_idx(self@, name@) < 0,
            },
    {
        let ghost rs = self@;
        let n = self.rooms.len();
        let mut i: usize = 0;
        while i < n
            invariant
                i <= n,
                n == self.rooms@.len(),
                rs == self@,
                rs.len() == n,
                forall|j: int| 0 <= j < i ==> rs[j].name != name@,
            decreases n - i,
        {
            if vec_eq(&self.rooms[i].name, name) {
                proof {
                    lemma_room_idx_at(rs, name@, i as int);
                }
                return Some(i);
            }
            i = i + 1;
        }
        proof {
            lemma_room_idx(rs, name@);
        }
        None
    }

    /// Number of rooms that currently exist.
    pub fn room_count(&self) -> (n: usize)
        ensures
            n == self@.len(),
    {
        self.rooms.len()
    }

    /// Whether a room of that name currently exists.
    pub fn contains_room(&self, name: &Vec<u8>) -> (r: bool)
        ensures
            r == has_room(self@, name@),
    {
        self.find_room(name).is_some()
    }

    /// The ids of the named room's members, in join order; empty if the room
    /// does not exist.
    pub fn member_ids(&self, name: &Vec<u8>) -> (r: Vec<usize>)
        ensures
            r@.map_values(|u: usize| u as int) == ids_of(members_of(self@, name@)),
    {
        let mut r: Vec<usize> = Vec::new();
        match self.find_room(name) {
            None => {
                proof {
                    assert(r@.map_values(|u: usize| u as int) =~= ids_of(
                        members_of(self@, name@),
                    ));
                }
                r
            },
            Some(i) => {
                let ghost mm = self@[i as int].members;
                let n = {
                    let e = &self.rooms[i];
                    e.members.len()
                };
                let mut j: usize = 0;
                while j < n
                    invariant
                        j <= n,
                        i < self.rooms@.len(),
                        mm == self@[i as int].members,
                        n == mm.len(),
                        n == self.rooms@[i as int].members@.len(),
                        r@.len() == j,
                        forall|x: int| 0 <= x < j ==> r@[x] as int == mm[x].id,
                    decreases n - j,
                {
                    let e = &self.rooms[i];
                    r.push(e.members[j].id);
                    j = j + 1;
                }
                proof {
                    assert(members_of(self@, name@) == mm);
                    assert(r@.map_values(|u: usize| u as int) =~= ids_of(mm));
                }
                r
            },
        }
    }

    /// Processes one command from the given sender. `Join` and `Part` change
    /// membership and deliver nothing; `Msg` changes nothing and yields the
    /// recipient ids with the one shared payload, or nothing when the room
    /// does not exist.
    pub fn handle(&mut self, cmd: Command, sender: &Member) -> (r: Option<(Vec<usize>, Vec<u8>)>)
        requires
            wf_rooms(old(self)@),
        ensures
            wf_rooms(final(self)@),
            match cmd@ {
                CommandModel::Join(room) => final(self)@ == spec_join(old(self)@, room, sender@)
                    && r is None,
                CommandModel::Part(room) => final(self)@ == spec_part(
                    old(self)@,
                    room,
                    sender@.id,
                ) && r is None,
                CommandModel::Msg { room, msg } => final(self)@ == old(self)@ && (match r {
                    Some(d) => has_room(old(self)@, room) && d.0@.map_values(|u: usize| u as int)
                        == spec_msg_recipients(old(self)@, room, sender@.id) && d.1@ == payload_of(
                        sender@.username,
                        msg,
                    ),
                    None => !has_room(old(self)@, room),
                }),
            },
    {
        let ghost rs0 = self@;
        match cmd {
            Command::Join(room) => {
                let ghost rname = room@;
                proof {
                    lemma_join_wf(rs0, rname, sender@);
                }
                match self.find_room(&room) {
                    None => {
                        let mut ms: Vec<Member> = Vec::new();
                        ms.push(sender.duplicate());
                        proof {
                            assert(ms@.map_values(|m: Member| m@) =~= seq![sender@]);
                        }
                        self.rooms.push(RoomEntry { name: room, members: ms });
                        proof {
                            assert(self@ =~~= spec_join(rs0, rname, sender@));
                        }
                    },
                    Some(i) => {
                        proof {
                            lemma_room_idx(rs0, rname);
                            assert(rs0[i as int].name == rname);
                        }
                        let already = {
                            let e = &self.rooms[i];
                            find_member(&e.members, sender.id)
                        };
                        match already {
                            Some(_) => {
                                proof {
                                    assert(is_member(rs0[i as int].members, sender@.id));
                                    assert(self@ == spec_join(rs0, rname, sender@));
                                }
                            },
                            None => {
                                let ghost r0 = self.rooms@;
                                let mut entry = self.rooms.remove(i);
                                entry.members.push(sender.duplicate());
                                self.rooms.insert(i, entry);
                                proof {
                                    assert(!is_member(rs0[i as int].members, sender@.id));
                                    assert(self.rooms@ =~= r0.update(i as int, self.rooms@[i as int]));
                                    assert(self@ =~~= spec_join(rs0, rname, sender@));
                                }
                            },
                        }
                    },
                }
                None
            },
            Command::Part(room) => {
                let ghost rname = room@;
                proof {
                    lemma_part_wf(rs0, rname, sender@.id as int);
                }
                match self.find_room(&room) {
                    None => {},
                    Some(i) => {
                        proof {
                            lemma_room_idx(rs0, rname);
                            assert(rs0[i as int].name == rname);
                        }
                        let ghost r0 = self.rooms@;
                        let mut entry = self.rooms.remove(i);
                        match find_member(&entry.members, sender.id) {
                            None => {
                                self.rooms.insert(i, entry);
                                proof {
                                    assert(member_idx(rs0[i as int].members, sender@.id) < 0);
                                    assert(self.rooms@ =~= r0);
                                    assert(self@ =~~= spec_part(rs0, rname, sender@.id));
                                }
                            },
                            Some(p) => {
                                let _ = entry.members.remove(p);
                                if entry.members.len() == 0 {
                                    proof {
                                        assert(self@ =~~= spec_part(rs0, rname, sender@.id));
                                    }
                                } else {
                                    self.rooms.insert(i, entry);
                                    proof {
                                        assert(self.rooms@ =~= r0.update(
                                            i as int,
                                            self.rooms@[i as int],
                                        ));
                                        assert(self@ =~~= spec_part(rs0, rname, sender@.id));
                                    }
                                }
                            },
                        }
                    },
                }
                None
            },
            Command::Msg { room, msg } => {
                let ghost rname = room@;
                match self.find_room(&room) {
                    None => None,
                    Some(i) => {
                        let payload = build_payload(&sender.username, &msg);
                        let ghost mm = self@[i as int].members;
                        let n = {
                            let e = &self.rooms[i];
                            e.members.len()
                        };
                        let mut recips: Vec<usize> = Vec::new();
                        proof {
                            assert(recips@.map_values(|u: usize| u as int) =~= recipients_of(
                                mm.take(0),
                                sender@.id,
                            ));
                        }
                        let mut j: usize = 0;
                        while j < n
                            invariant
                                j <= n,
                                i < self.rooms@.len(),
                                mm == self@[i as int].members,
                                n == mm.len(),
                                n == self.rooms@[i as int].members@.len(),
                                recips@.map_values(|u: usize| u as int) == recipients_of(
                                    mm.take(j as int),
                                    sender@.id,
                                ),
                            decreases n - j,
                        {
                            let m_id = {
                                let e = &self.rooms[i];
                                e.members[j].id
                            };
                            if m_id != sender.id {
                                recips.push(m_id);
                            }
                            proof {
                                assert(mm.take(j as int + 1).drop_last() =~= mm.take(j as int));
                                assert(mm.take(j as int + 1).last() == mm[j as int]);
                                assert(recips@.map_values(|u: usize| u as int) =~= recipients_of(
                                    mm.take(j as int + 1),
                                    sender@.id,
                                ));
                            }
                            j = j + 1;
                        }
                        proof {
                            assert(mm.take(n as int) =~= mm);
                            assert(members_of(rs0, rname) == mm);
                        }
                        Some((recips, payload))
                    },
                }
            },
        }
    }

    /// Removes the member with the given id from every room; rooms that
    /// empty are deleted. The required cleanup when a connection closes.
    pub fn disconnect(&mut self, id: usize)
        requires
            wf_rooms(old(self)@),
        ensures
            wf_rooms(final(self)@),
            final(self)@ == spec_disconnect(old(self)@, id as int),
    {
        let ghost rs0 = self@;
        let ghost r0 = self.rooms@;
        let total = self.rooms.len();
        let mut out: Vec<RoomEntry> = Vec::new();
        let mut processed: usize = 0;
        proof {
            lemma_disconnect_wf(rs0, id as int);
            assert(out@.map_values(|r: RoomEntry| r@) =~= spec_disconnect(
                rs0.take(0),
                id as int,
            ));
            assert(self.rooms@ =~= r0.skip(0));
        }
        while self.rooms.len() > 0
            invariant
                processed <= total,
                total == r0.len(),
                self.rooms@ == r0.skip(processed as int),
                rs0 == r0.map_values(|r: RoomEntry| r@),
                out@.map_values(|r: RoomEntry| r@) == spec_disconnect(
                    rs0.take(processed as int),
                    id as int,
                ),
            decreases self.rooms@.len(),
        {
            let mut entry = self.rooms.remove(0);
            proof {
                assert(entry == r0.skip(processed as int)[0]);
                assert(entry == r0[processed as int]);
                assert(self.rooms@ =~= r0.skip(processed as int + 1));
                assert(entry@ == rs0[processed as int]);
            }
            let ghost mm0 = entry@.members;
            match find_member(&entry.members, id) {
                Some(p) => {
                    let _ = entry.members.remove(p);
                    proof {
                        assert(entry@.members =~= mm0.remove(p as int));
                    }
                },
                None => {},
            }
            if entry.members.len() > 0 {
                out.push(entry);
            }
            proof {
                assert(rs0.take(processed as int + 1).drop_last() =~= rs0.take(processed as int));
                assert(rs0.take(processed as int + 1).last() == rs0[processed as int]);
                assert(out@.map_values(|r: RoomEntry| r@) =~~= spec_disconnect(
                    rs0.take(processed as int + 1),
                    id as int,
                ));
            }
            processed = processed + 1;
        }
        self.rooms = out;
        proof {
            assert(processed == r0.len());
            assert(rs0.take(processed as int) =~= rs0);
        }
    }
}

} // verus!
