//! What the directory server decides for one connection: the login dialog,
//! the requests to join or create a room, and the clean-up when it closes.
use vstd::prelude::*;
use crate::records::{BaseUserInfo, ClientInfo, ID, Room, User};
use crate::registry::{
    AllRoomInfo, AllUserInfo, JoinError, join_target, others, room_created, room_joined, room_left,
    user_added, user_removed,
};

verus! {

/// The reply to a successful login or room request.
pub const STATUS_OK: &'static str = "OK";

/// The reply to a login request that cannot be read or lacks a name or password.
pub const FAIL_LOGIN: &'static str = "Fail to login user";

/// The reply to a login under a name that a live user has.
pub const USER_EXISTS: &'static str = "User already exists";

/// The reply to a room request whose name or password does not match.
pub const FAIL_JOIN: &'static str = "Fail to join room";

/// The outcome of one login attempt.
#[derive(Debug)]
pub enum LoginReply {
    /// Logged in: the identity to send back after the status.
    Accepted(BaseUserInfo),
    AlreadyExists,
    Failed,
}

/// Handles one login request: `cand` is the request as decoded, `None` when
/// the payload was not a user record.
pub fn login(users: &mut AllUserInfo, cand: Option<User>) -> (r: LoginReply)
    requires
        old(users).wf(),
    ensures
        final(users).wf(),
        r is Accepted <==> (r matches LoginReply::Accepted(b) && cand matches Some(u) && b.name@
            == u.name@ && user_added(*old(users), *final(users), u, b.id)),
        !(r is Accepted) ==> final(users).same(*old(users)),
        match cand {
            None => r is Failed,
            Some(u) => if u.name@.len() == 0 || u.passwd@.len() == 0 {
                r is Failed
            } else if old(users).names().contains_key(u.name@) {
                r is AlreadyExists
            } else {
                &&& old(users).ids().len() <= u32::MAX / 2 ==> r is Accepted
                &&& !(r is AlreadyExists)
            },
        },
{
    let mut u = match cand {
        Some(u) => u,
        None => return LoginReply::Failed,
    };
    if u.name.as_str().is_empty() || u.passwd.as_str().is_empty() {
        return LoginReply::Failed;
    }
    if users.has_name(&u.name) {
        return LoginReply::AlreadyExists;
    }
    let ghost before = u;
    if users.insert(&mut u) {
        LoginReply::Accepted(BaseUserInfo { id: u.id, name: u.name })
    } else {
        LoginReply::Failed
    }
}

/// The outcome of one request on a logged-in connection.
#[derive(Debug)]
pub enum RoomReply {
    /// The payload was no room request; nothing to answer.
    Ignored,
    /// Joined or created: the room as stored, then the members that were in
    /// it before, each of whom is to be told of the newcomer.
    Joined(Room, Vec<ClientInfo>),
    /// The room's name or password did not match, or no room id was left.
    Failed,
}

/// Handles one frame on a logged-in connection: `req` is the frame decoded
/// as a room request, `None` when it was none. `me` is the requesting user
/// as the other members will see it.
pub fn room_request(rooms: &mut AllRoomInfo, req: Option<Room>, me: &ClientInfo) -> (r: RoomReply)
    requires
        old(rooms).wf(),
    ensures
        final(rooms).wf(),
        match req {
            None => r is Ignored && final(rooms).same(*old(rooms)),
            Some(room) => match join_target(*old(rooms), room) {
                Some(t) => {
                    let rf = old(rooms).rooms()[t];
                    if rf.name@ == room.name@ && rf.passwd@ == room.passwd@ {
                        &&& r matches RoomReply::Joined(c, snap) && c.id == t && c.name@ == rf.name@
                            && c.passwd@ == rf.passwd@ && snap@ == others(rf.cs@, me.id)
                        &&& room_joined(*old(rooms), *final(rooms), t, *me)
                    } else {
                        r is Failed && final(rooms).same(*old(rooms))
                    }
                },
                None => {
                    &&& old(rooms).rooms().len() <= u32::MAX / 2 ==> r is Joined
                    &&& r is Failed ==> final(rooms).same(*old(rooms))
                    &&& r matches RoomReply::Joined(c, snap) ==> c.name@ == room.name@ && c.passwd@
                        == room.passwd@ && snap@.len() == 0 && room_created(
                        *old(rooms),
                        *final(rooms),
                        room,
                        *me,
                        c.id,
                    )
                },
            },
        },
{
    let room = match req {
        Some(room) => room,
        None => return RoomReply::Ignored,
    };
    match rooms.join(&room, me) {
        Ok((c, snap)) => RoomReply::Joined(c, snap),
        Err(_) => RoomReply::Failed,
    }
}

/// Room `q` after user `uid` left it, as seen from the registry `before`:
/// gone when nobody else was in it, else holding the others.
pub open spec fn left_room(before: AllRoomInfo, after: AllRoomInfo, q: u32, uid: u32) -> bool {
    let rf = before.rooms()[q];
    let rest = others(rf.cs@, uid);
    if !before.rooms().contains_key(q) || rest.len() == 0 {
        !after.rooms().contains_key(q)
    } else {
        &&& after.rooms().contains_key(q)
        &&& after.rooms()[q].id == rf.id
        &&& after.rooms()[q].name@ == rf.name@
        &&& after.rooms()[q].passwd@ == rf.passwd@
        &&& after.rooms()[q].cs@ == rest
    }
}

/// Clean-up when a connection closes: the user leaves the user registry and
/// each room it joined; rooms left empty go. Other rooms stay as they were.
pub fn disconnect(users: &mut AllUserInfo, rooms: &mut AllRoomInfo, uid: ID, joined: &Vec<u32>)
    requires
        old(users).wf(),
        old(rooms).wf(),
    ensures
        final(users).wf(),
        final(rooms).wf(),
        old(users).ids().contains_key(uid) ==> user_removed(*old(users), *final(users), uid),
        !old(users).ids().contains_key(uid) ==> final(users).same(*old(users)),
        forall|q: u32| #[trigger]
            joined@.contains(q) ==> left_room(*old(rooms), *final(rooms), q, uid),
        forall|q: u32|
            !joined@.contains(q) ==> (#[trigger] final(rooms).rooms().contains_key(q)
                <==> old(rooms).rooms().contains_key(q)) && (old(rooms).rooms().contains_key(q)
                ==> final(rooms).rooms()[q] == old(rooms).rooms()[q]),
{
    users.remove(uid);
    let ghost start = *rooms;
    let mut i: usize = 0;
    while i < joined.len()
        invariant
            rooms.wf(),
            i <= joined@.len(),
            forall|q: u32| #[trigger]
                joined@.take(i as int).contains(q) ==> left_room(start, *rooms, q, uid),
            forall|q: u32|
                !joined@.take(i as int).contains(q) ==> (#[trigger] rooms.rooms().contains_key(q)
                    <==> start.rooms().contains_key(q)) && (start.rooms().contains_key(q)
                    ==> rooms.rooms()[q] == start.rooms()[q]),
        decreases joined@.len() - i,
    {
        let ghost before = *rooms;
        let rid = joined[i];
        rooms.leave(rid, uid);
        proof {
            let done = joined@.take(i + 1);
            assert(done =~= joined@.take(i as int).push(rid));
            assert(done[i as int] == rid);
            assert forall|q: u32| q != rid implies (#[trigger] rooms.rooms().contains_key(q)
                <==> before.rooms().contains_key(q)) && (before.rooms().contains_key(q)
                ==> rooms.rooms()[q] == before.rooms()[q]) by {
                if before.rooms().contains_key(rid) && others(before.rooms()[rid].cs@, uid).len() != 0 {
                    assert(rooms.rooms().remove(rid) == before.rooms().remove(rid));
                    assert(rooms.rooms().remove(rid).contains_key(q) == rooms.rooms().contains_key(q));
                    assert(before.rooms().remove(rid).contains_key(q) == before.rooms().contains_key(q));
                    if before.rooms().contains_key(q) {
                        assert(rooms.rooms().remove(rid)[q] == rooms.rooms()[q]);
                        assert(before.rooms().remove(rid)[q] == before.rooms()[q]);
                    }
                }
            }
            assert(left_room(start, *rooms, rid, uid)) by {
                if joined@.take(i as int).contains(rid) {
                    assert(left_room(start, before, rid, uid));
                    if start.rooms().contains_key(rid) {
                        lemma_others_idempotent(start.rooms()[rid].cs@, uid);
                    }
                }
            }
            assert forall|q: u32| #[trigger] done.contains(q) implies left_room(start, *rooms, q, uid) by {
                if q != rid {
                    assert(joined@.take(i as int).contains(q));
                }
            }
            assert forall|q: u32| !done.contains(q) implies (#[trigger] rooms.rooms().contains_key(q)
                <==> start.rooms().contains_key(q)) && (start.rooms().contains_key(q)
                ==> rooms.rooms()[q] == start.rooms()[q]) by {
                assert(!joined@.take(i as int).contains(q));
                assert(q != rid);
            }
        }
        i += 1;
    }
    assert(joined@.take(i as int) =~= joined@);
    assert forall|q: u32| !joined@.contains(q) implies (#[trigger] rooms.rooms().contains_key(q)
        <==> old(rooms).rooms().contains_key(q)) && (old(rooms).rooms().contains_key(q)
        ==> rooms.rooms()[q] == old(rooms).rooms()[q]) by {
        assert(!joined@.take(i as int).contains(q));
    }
}

proof fn lemma_others_idempotent(cs: Seq<ClientInfo>, uid: u32)
    ensures
        others(others(cs, uid), uid) == others(cs, uid),
    decreases cs.len(),
{
    reveal(Seq::filter);
    if cs.len() > 0 {
        lemma_others_idempotent(cs.drop_last(), uid);
        let pred = |c: ClientInfo| c.id != uid;
        let f = cs.drop_last().filter(pred);
        if pred(cs.last()) {
            assert(f.push(cs.last()).drop_last() =~= f);
        }
    }
}


/// Seconds between the server's keep-alive heartbeats on a connection.
pub const KEEPALIVE_SECS: u64 = 300;

/// The commands the server reads on its standard input.
#[derive(Debug, PartialEq, Eq, Structural)]
pub enum Command {
    EchoRooms,
    EchoUsers,
    Exit,
}

/// ASCII white space.
pub open spec fn is_space(b: u8) -> bool {
    b == 0x20 || b == 0x09 || b == 0x0a || b == 0x0b || b == 0x0c || b == 0x0d
}

/// `s` without its leading white space.
pub open spec fn trim_front(s: Seq<u8>) -> Seq<u8>
    decreases s.len(),
{
    if s.len() > 0 && is_space(s[0]) {
        trim_front(s.drop_first())
    } else {
        s
    }
}

/// `s` without its trailing white space.
pub open spec fn trim_back(s: Seq<u8>) -> Seq<u8>
    decreases s.len(),
{
    if s.len() > 0 && is_space(s.last()) {
        trim_back(s.drop_last())
    } else {
        s
    }
}

/// The upper-case form of an ASCII byte.
pub open spec fn upper(b: u8) -> u8 {
    if 0x61 <= b <= 0x7a {
        (b - 32) as u8
    } else {
        b
    }
}

/// `a` spells `w` up to the case of ASCII letters.
pub open spec fn same_text(a: Seq<u8>, w: Seq<u8>) -> bool {
    a.len() == w.len() && forall|i: int| 0 <= i < a.len() ==> upper(#[trigger] a[i]) == upper(w[i])
}

/// The bytes of `echo rooms`.
pub open spec fn echo_rooms_word() -> Seq<u8> {
    seq![0x65u8, 0x63, 0x68, 0x6f, 0x20, 0x72, 0x6f, 0x6f, 0x6d, 0x73]
}

/// The bytes of `echo users`.
pub open spec fn echo_users_word() -> Seq<u8> {
    seq![0x65u8, 0x63, 0x68, 0x6f, 0x20, 0x75, 0x73, 0x65, 0x72, 0x73]
}

/// The bytes of `exit`.
pub open spec fn exit_word() -> Seq<u8> {
    seq![0x65u8, 0x78, 0x69, 0x74]
}

fn upper_byte(b: u8) -> (r: u8)
    ensures
        r == upper(b),
{
    if 0x61 <= b && b <= 0x7a {
        b - 32
    } else {
        b
    }
}

fn same_text_at(line: &[u8], start: usize, end: usize, w: &[u8]) -> (r: bool)
    requires
        start <= end <= line@.len(),
    ensures
        r == same_text(line@.subrange(start as int, end as int), w@),
{
    if end - start != w.len() {
        return false;
    }
    let mut i: usize = 0;
    while i < w.len()
        invariant
            end - start == w@.len(),
            start <= end <= line@.len(),
            i <= w@.len(),
            forall|j: int| 0 <= j < i ==> upper(line@[start + j]) == upper(w@[j]),
        decreases w@.len() - i,
    {
        if upper_byte(line[start + i]) != upper_byte(w[i]) {
            assert(line@.subrange(start as int, end as int)[i as int] == line@[start + i]);
            return false;
        }
        i += 1;
    }
    assert forall|j: int| 0 <= j < w@.len() implies upper(
        #[trigger] line@.subrange(start as int, end as int)[j],
    ) == upper(w@[j]) by {
        assert(line@.subrange(start as int, end as int)[j] == line@[start + j]);
    }
    true
}

proof fn lemma_trim_front_skip(s: Seq<u8>, i: int)
    requires
        0 <= i <= s.len(),
        forall|j: int| 0 <= j < i ==> is_space(s[j]),
    ensures
        trim_front(s) == trim_front(s.skip(i)),
    decreases i,
{
    if i > 0 {
        assert(s.drop_first().skip(i - 1) =~= s.skip(i));
        lemma_trim_front_skip(s.drop_first(), i - 1);
    } else {
        assert(s.skip(0) =~= s);
    }
}

proof fn lemma_trim_back_take(s: Seq<u8>, k: int)
    requires
        0 <= k <= s.len(),
        forall|j: int| k <= j < s.len() ==> is_space(s[j]),
    ensures
        trim_back(s) == trim_back(s.take(k)),
    decreases s.len() - k,
{
    if k < s.len() {
        assert(s.drop_last().take(k) =~= s.take(k));
        lemma_trim_back_take(s.drop_last(), k);
    } else {
        assert(s.take(k) =~= s);
    }
}

/// Reads one line of the server's standard input: white space around it and
/// the case of letters do not matter.
pub fn parse_command(line: &[u8]) -> (r: Option<Command>)
    ensures
        ({
            let t = trim_back(trim_front(line@));
            &&& r == Some(Command::EchoRooms) <==> same_text(t, echo_rooms_word())
            &&& r == Some(Command::EchoUsers) <==> same_text(t, echo_users_word())
            &&& r == Some(Command::Exit) <==> same_text(t, exit_word())
        }),
{
    let n = line.len();
    let mut start: usize = 0;
    while start < n && (line[start] == 0x20 || line[start] == 0x09 || line[start] == 0x0a
        || line[start] == 0x0b || line[start] == 0x0c || line[start] == 0x0d)
        invariant
            n == line@.len(),
            start <= n,
            forall|j: int| 0 <= j < start ==> is_space(line@[j]),
        decreases n - start,
    {
        start += 1;
    }
    let mut end: usize = n;
    while end > start && (line[end - 1] == 0x20 || line[end - 1] == 0x09 || line[end - 1] == 0x0a
        || line[end - 1] == 0x0b || line[end - 1] == 0x0c || line[end - 1] == 0x0d)
        invariant
            n == line@.len(),
            start <= end <= n,
            forall|j: int| end <= j < n ==> is_space(line@[j]),
        decreases end - start,
    {
        end -= 1;
    }
    proof {
        lemma_trim_front_skip(line@, start as int);
        let f = line@.skip(start as int);
        if start < n {
            assert(f[0] == line@[start as int]);
        }
        assert(trim_front(f) == f);
        lemma_trim_back_take(f, end - start);
        let b = f.take(end - start);
        if end > start {
            assert(b.last() == line@[end - 1]);
        }
        assert(trim_back(b) == b);
        assert(b =~= line@.subrange(start as int, end as int));
    }
    let rooms_w: [u8; 10] = [0x65, 0x63, 0x68, 0x6f, 0x20, 0x72, 0x6f, 0x6f, 0x6d, 0x73];
    let users_w: [u8; 10] = [0x65, 0x63, 0x68, 0x6f, 0x20, 0x75, 0x73, 0x65, 0x72, 0x73];
    let exit_w: [u8; 4] = [0x65, 0x78, 0x69, 0x74];
    assert(rooms_w@ =~= echo_rooms_word());
    assert(users_w@ =~= echo_users_word());
    assert(exit_w@ =~= exit_word());
    let t = Ghost(line@.subrange(start as int, end as int));
    proof {
        // the three words differ, so at most one of them matches
        if same_text(t@, echo_rooms_word()) {
            assert(upper(t@[5]) == upper(0x72u8));
            assert(!same_text(t@, echo_users_word()));
        }
    }
    if same_text_at(line, start, end, rooms_w.as_slice()) {
        Some(Command::EchoRooms)
    } else if same_text_at(line, start, end, users_w.as_slice()) {
        Some(Command::EchoUsers)
    } else if same_text_at(line, start, end, exit_w.as_slice()) {
        Some(Command::Exit)
    } else {
        None
    }
}

} // verus!
