//! The records that travel between clients and the directory server.
use vstd::prelude::*;

verus! {

/// A user id handed out by the directory server; 0 means "not assigned".
pub type ID = u32;

/// The identity that two peers exchange when a peer link opens.
#[derive(Debug, Clone)]
pub struct BaseUserInfo {
    pub id: ID,
    pub name: String,
}

/// A room member as announced to the other members: who, and the endpoint
/// where it listens for peers (as `host:port` text).
#[derive(Debug, Clone)]
pub struct ClientInfo {
    pub id: ID,
    pub name: String,
    pub addr: String,
}

/// A login request, and once logged in the user's record.
#[derive(Debug, Clone)]
pub struct User {
    pub id: ID,
    pub name: String,
    pub passwd: String,
}

impl User {
    /// A user with no id, name or password yet.
    pub fn new() -> (r: User)
        ensures
            r.id == 0,
            r.name@ == Seq::<char>::empty(),
            r.passwd@ == Seq::<char>::empty(),
    {
        User { id: 0, name: String::new(), passwd: String::new() }
    }
}

/// A room as a client asks for it and as the server confirms it.
#[derive(Debug, Clone)]
pub struct Room {
    pub id: u32,
    pub name: String,
    pub passwd: String,
}

impl Room {
    /// A room with no id, name or password yet.
    pub fn new() -> (r: Room)
        ensures
            r.id == 0,
            r.name@ == Seq::<char>::empty(),
            r.passwd@ == Seq::<char>::empty(),
    {
        Room { id: 0, name: String::new(), passwd: String::new() }
    }
}

} // verus!
