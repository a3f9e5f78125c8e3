//! Networking core of a peer-to-peer group chat: the length-prefixed frame
//! codec with its resumable reader, the directory server's user and room
//! registries, and the decisions that the server and client sessions make.
pub mod client;
pub mod frame;
pub mod records;
pub mod registry;
pub mod server;
pub mod session;

pub use frame::{ErrorType, IoError, MemStream, TryRead};
pub use records::{BaseUserInfo, ClientInfo, Room, User, ID};
