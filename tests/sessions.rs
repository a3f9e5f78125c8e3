use p2p_chat_net::client::{is_ok_status, local_port, PORT_END, PORT_MIN};
use p2p_chat_net::registry::{AllRoomInfo, AllUserInfo, JoinError};
use p2p_chat_net::server::{
    disconnect, login, parse_command, room_request, Command, LoginReply, RoomReply, FAIL_JOIN,
    STATUS_OK,
};
use p2p_chat_net::session::{react, LinkAction, LinkEvent};
use p2p_chat_net::{ClientInfo, ErrorType, IoError, Room, User};

fn user(name: &str, passwd: &str) -> User {
    User { id: 0, name: name.to_string(), passwd: passwd.to_string() }
}

fn room(id: u32, name: &str, passwd: &str) -> Room {
    Room { id, name: name.to_string(), passwd: passwd.to_string() }
}

fn client(id: u32, name: &str, addr: &str) -> ClientInfo {
    ClientInfo { id, name: name.to_string(), addr: addr.to_string() }
}

fn login_id(users: &mut AllUserInfo, name: &str) -> u32 {
    match login(users, Some(user(name, "1"))) {
        LoginReply::Accepted(b) => {
            assert_eq!(b.name, name);
            b.id
        }
        other => panic!("login of {} failed: {:?}", name, other),
    }
}

#[test]
fn new_records_are_blank() {
    let u = User::new();
    assert_eq!((u.id, u.name.as_str(), u.passwd.as_str()), (0, "", ""));
    let r = Room::new();
    assert_eq!((r.id, r.name.as_str(), r.passwd.as_str()), (0, "", ""));
}

#[test]
fn solo_join() {
    let mut users = AllUserInfo::new();
    let mut rooms = AllRoomInfo::new();
    assert_eq!(login_id(&mut users, "a"), 1);
    match room_request(&mut rooms, Some(room(0, "R", "p")), &client(1, "a", "1.1.1.1:4001")) {
        RoomReply::Joined(r, snap) => {
            assert_eq!((r.id, r.name.as_str(), r.passwd.as_str()), (1, "R", "p"));
            assert!(snap.is_empty());
        }
        other => panic!("{:?}", other),
    }
}

#[test]
fn second_joiner_gets_snapshot_of_one() {
    let mut users = AllUserInfo::new();
    let mut rooms = AllRoomInfo::new();
    assert_eq!(login_id(&mut users, "a"), 1);
    room_request(&mut rooms, Some(room(0, "R", "p")), &client(1, "a", "10.0.0.1:4001"));
    assert_eq!(login_id(&mut users, "b"), 2);
    match room_request(&mut rooms, Some(room(0, "R", "p")), &client(2, "b", "10.0.0.2:4002")) {
        RoomReply::Joined(r, snap) => {
            assert_eq!((r.id, r.name.as_str(), r.passwd.as_str()), (1, "R", "p"));
            assert_eq!(snap.len(), 1);
            assert_eq!((snap[0].id, snap[0].name.as_str(), snap[0].addr.as_str()), (1, "a", "10.0.0.1:4001"));
        }
        other => panic!("{:?}", other),
    }
    // a third joiner sees both, in the order they came
    match room_request(&mut rooms, Some(room(1, "R", "p")), &client(3, "c", "10.0.0.3:4003")) {
        RoomReply::Joined(_, snap) => {
            let ids: Vec<u32> = snap.iter().map(|c| c.id).collect();
            assert_eq!(ids, vec![1, 2]);
        }
        other => panic!("{:?}", other),
    }
}

#[test]
fn wrong_room_password() {
    let mut rooms = AllRoomInfo::new();
    room_request(&mut rooms, Some(room(0, "R", "p")), &client(1, "a", "x:1"));
    let r = room_request(&mut rooms, Some(room(0, "R", "wrong")), &client(3, "c", "x:3"));
    assert!(matches!(r, RoomReply::Failed));
    assert_eq!(FAIL_JOIN, "Fail to join room");
    assert!(matches!(rooms.join(&room(0, "R", "wrong"), &client(3, "c", "x:3")), Err(JoinError::Mismatch)));
    // nothing changed: the next joiner still sees only the first member
    match room_request(&mut rooms, Some(room(0, "R", "p")), &client(2, "b", "x:2")) {
        RoomReply::Joined(_, snap) => assert_eq!(snap.len(), 1),
        other => panic!("{:?}", other),
    }
    // a known id under another name is refused too
    assert!(matches!(
        room_request(&mut rooms, Some(room(1, "S", "p")), &client(4, "d", "x:4")),
        RoomReply::Failed
    ));
}

#[test]
fn last_member_departure_destroys_room() {
    let mut users = AllUserInfo::new();
    let mut rooms = AllRoomInfo::new();
    let a = login_id(&mut users, "a");
    room_request(&mut rooms, Some(room(0, "R", "p")), &client(a, "a", "x:1"));
    disconnect(&mut users, &mut rooms, a, &vec![1]);
    // the name is free again and id 1 comes back for the next new room
    match room_request(&mut rooms, Some(room(0, "T", "q")), &client(7, "z", "x:7")) {
        RoomReply::Joined(r, snap) => {
            assert_eq!((r.id, r.name.as_str()), (1, "T"));
            assert!(snap.is_empty());
        }
        other => panic!("{:?}", other),
    }
}

#[test]
fn departure_keeps_room_with_members() {
    let mut rooms = AllRoomInfo::new();
    room_request(&mut rooms, Some(room(0, "R", "p")), &client(1, "a", "x:1"));
    room_request(&mut rooms, Some(room(0, "R", "p")), &client(2, "b", "x:2"));
    assert!(!rooms.leave(1, 1));
    match room_request(&mut rooms, Some(room(0, "R", "p")), &client(3, "c", "x:3")) {
        RoomReply::Joined(r, snap) => {
            assert_eq!(r.id, 1);
            assert_eq!(snap.iter().map(|c| c.id).collect::<Vec<u32>>(), vec![2]);
        }
        other => panic!("{:?}", other),
    }
    assert!(!rooms.leave(1, 2));
    assert!(rooms.leave(1, 3));
    assert!(!rooms.leave(1, 3));
}

#[test]
fn rejoin_replaces_own_entry() {
    let mut rooms = AllRoomInfo::new();
    room_request(&mut rooms, Some(room(0, "R", "p")), &client(1, "a", "x:1"));
    room_request(&mut rooms, Some(room(0, "R", "p")), &client(2, "b", "x:2"));
    match room_request(&mut rooms, Some(room(0, "R", "p")), &client(1, "a", "x:9")) {
        RoomReply::Joined(_, snap) => assert_eq!(snap.iter().map(|c| c.id).collect::<Vec<u32>>(), vec![2]),
        other => panic!("{:?}", other),
    }
}

#[test]
fn login_failures() {
    let mut users = AllUserInfo::new();
    assert!(matches!(login(&mut users, None), LoginReply::Failed));
    assert!(matches!(login(&mut users, Some(user("", "1"))), LoginReply::Failed));
    assert!(matches!(login(&mut users, Some(user("a", ""))), LoginReply::Failed));
    assert_eq!(login_id(&mut users, "a"), 1);
    assert!(matches!(login(&mut users, Some(user("a", "other"))), LoginReply::AlreadyExists));
    assert!(users.has_name(&"a".to_string()));
    assert!(!users.has_name(&"b".to_string()));
}

#[test]
fn user_id_recycling() {
    let mut users = AllUserInfo::new();
    let a = login_id(&mut users, "a");
    let b = login_id(&mut users, "b");
    let c = login_id(&mut users, "c");
    assert_eq!((a, b, c), (1, 2, 3));
    let gone = users.remove(b).expect("b is live");
    assert_eq!((gone.id, gone.name.as_str()), (2, "b"));
    assert!(users.remove(b).is_none());
    assert_eq!(login_id(&mut users, "d"), 2);
    // with nothing to reuse, the scan starts at the number of users
    assert_eq!(login_id(&mut users, "e"), 4);
}

#[test]
fn registry_stays_consistent() {
    let mut users = AllUserInfo::new();
    let names = ["u0", "u1", "u2", "u3", "u4", "u5"];
    let mut live: Vec<(u32, &str)> = Vec::new();
    for n in names.iter() {
        live.push((login_id(&mut users, n), n));
    }
    for &(id, _) in live.iter().step_by(2) {
        users.remove(id);
    }
    for n in ["v0", "v1"].iter() {
        let id = login_id(&mut users, n);
        assert!(id != 0);
        assert!(live.iter().skip(1).step_by(2).all(|&(j, _)| j != id));
    }
    for &(_, n) in live.iter().skip(1).step_by(2) {
        assert!(users.has_name(&n.to_string()));
    }
    for &(_, n) in live.iter().step_by(2) {
        assert!(!users.has_name(&n.to_string()));
    }
}

#[test]
fn status_replies() {
    assert!(is_ok_status(STATUS_OK.as_bytes()));
    assert!(is_ok_status(b"ok"));
    assert!(is_ok_status(b"all Ok here"));
    assert!(!is_ok_status(b"Fail to login user"));
    assert!(!is_ok_status(b"User already exists"));
    assert!(!is_ok_status(b"O"));
    assert!(!is_ok_status(b""));
}

#[test]
fn server_commands() {
    assert_eq!(parse_command(b"echo rooms\n"), Some(Command::EchoRooms));
    assert_eq!(parse_command(b"  ECHO Users \r\n"), Some(Command::EchoUsers));
    assert_eq!(parse_command(b"Exit"), Some(Command::Exit));
    assert_eq!(parse_command(b"echo  rooms"), None);
    assert_eq!(parse_command(b""), None);
    assert_eq!(parse_command(b"quit"), None);
}

#[test]
fn local_port_in_range() {
    let mut seen = std::collections::HashSet::new();
    for _ in 0..100 {
        let p = local_port();
        assert!(PORT_MIN <= p && p < PORT_END);
        seen.insert(p);
    }
    // drawn at random, not a fixed end of the range
    assert!(seen.len() > 1);
    assert_eq!((PORT_MIN, PORT_END), (4000, 9000));
}

#[test]
fn session_policy() {
    assert!(matches!(react(LinkEvent::Frame(vec![])), LinkAction::Wait));
    assert!(matches!(react(LinkEvent::Frame(b"hi".to_vec())), LinkAction::Deliver(p) if p == b"hi".to_vec()));
    assert!(matches!(react(LinkEvent::ReadFailed(ErrorType::Pending)), LinkAction::Wait));
    assert!(matches!(react(LinkEvent::ReadFailed(ErrorType::IO(IoError::WouldBlock))), LinkAction::Wait));
    assert!(matches!(react(LinkEvent::ReadFailed(ErrorType::NotPackage(vec![0; 8]))), LinkAction::Terminate));
    assert!(matches!(react(LinkEvent::ReadFailed(ErrorType::MissingHead(vec![]))), LinkAction::Terminate));
    assert!(matches!(react(LinkEvent::Outgoing(b"x".to_vec())), LinkAction::Send(p) if p == b"x".to_vec()));
    assert!(matches!(react(LinkEvent::SourceClosed), LinkAction::Terminate));
    assert!(matches!(react(LinkEvent::Tick), LinkAction::Heartbeat));
    assert!(matches!(react(LinkEvent::WriteFailed), LinkAction::Terminate));
}

#[test]
fn registries_list_their_entries() {
    let mut users = AllUserInfo::new();
    let mut rooms = AllRoomInfo::new();
    login_id(&mut users, "a");
    login_id(&mut users, "b");
    let mut names: Vec<(u32, String)> = users.list().into_iter().map(|u| (u.id, u.name)).collect();
    names.sort();
    assert_eq!(names, vec![(1, "a".to_string()), (2, "b".to_string())]);
    room_request(&mut rooms, Some(room(0, "R", "p")), &client(1, "a", "x:1"));
    room_request(&mut rooms, Some(room(0, "R", "p")), &client(2, "b", "x:2"));
    room_request(&mut rooms, Some(room(0, "S", "q")), &client(2, "b", "x:2"));
    let mut listed: Vec<(u32, String, usize)> =
        rooms.list().into_iter().map(|r| (r.id, r.name, r.cs.len())).collect();
    listed.sort();
    assert_eq!(listed, vec![(1, "R".to_string(), 2), (2, "S".to_string(), 1)]);
}

#[test]
fn non_room_payload_is_ignored() {
    let mut rooms = AllRoomInfo::new();
    assert!(matches!(room_request(&mut rooms, None, &client(1, "a", "x:1")), RoomReply::Ignored));
    // nothing was created: the first room still gets id 1
    match room_request(&mut rooms, Some(room(0, "R", "p")), &client(1, "a", "x:1")) {
        RoomReply::Joined(r, _) => assert_eq!(r.id, 1),
        other => panic!("{:?}", other),
    }
}

#[test]
fn room_found_by_id_or_name() {
    let mut rooms = AllRoomInfo::new();
    room_request(&mut rooms, Some(room(0, "R", "p")), &client(1, "a", "x:1"));
    room_request(&mut rooms, Some(room(0, "S", "q")), &client(1, "a", "x:1"));
    // by id
    match room_request(&mut rooms, Some(room(2, "S", "q")), &client(2, "b", "x:2")) {
        RoomReply::Joined(r, snap) => {
            assert_eq!((r.id, r.name.as_str()), (2, "S"));
            assert_eq!(snap.len(), 1);
        }
        other => panic!("{:?}", other),
    }
    // an unknown id falls back to the name
    match room_request(&mut rooms, Some(room(77, "R", "p")), &client(3, "c", "x:3")) {
        RoomReply::Joined(r, _) => assert_eq!(r.id, 1),
        other => panic!("{:?}", other),
    }
    // an unknown id and name create a room under a fresh id, not the one asked for
    match room_request(&mut rooms, Some(room(77, "T", "t")), &client(3, "c", "x:3")) {
        RoomReply::Joined(r, snap) => {
            assert_eq!((r.id, r.name.as_str()), (3, "T"));
            assert!(snap.is_empty());
        }
        other => panic!("{:?}", other),
    }
}
