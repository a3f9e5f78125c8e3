//! The policy that every framed session follows, on the server's control
//! links and on the clients' control and peer links: what to do with each
//! thing that happens, as a function from event to action.
use vstd::prelude::*;
use crate::frame::ErrorType;

verus! {

/// Something that happened on a session.
#[derive(Debug)]
pub enum LinkEvent {
    /// A whole frame came, with this payload.
    Frame(Vec<u8>),
    /// The frame reader stopped with this error.
    ReadFailed(ErrorType),
    /// A payload to send: local input, or a notification to forward.
    Outgoing(Vec<u8>),
    /// The local source of outgoing payloads closed.
    SourceClosed,
    /// The heartbeat interval passed.
    Tick,
    /// A write on the link failed.
    WriteFailed,
}

/// What the session does next.
#[derive(Debug)]
pub enum LinkAction {
    /// Hand this payload to the session's consumer.
    Deliver(Vec<u8>),
    /// Write this payload as one frame.
    Send(Vec<u8>),
    /// Write an empty frame.
    Heartbeat,
    /// Nothing to do; wait for the next event.
    Wait,
    /// Close the session.
    Terminate,
}

/// Decides what a session does on `ev`: empty frames are heartbeats and are
/// dropped; a reader error ends the session unless it only means "not yet";
/// a failed write or a closed input source ends it too.
pub fn react(ev: LinkEvent) -> (r: LinkAction)
    ensures
        match ev {
            LinkEvent::Frame(p) => if p@.len() == 0 {
                r is Wait
            } else {
                r matches LinkAction::Deliver(q) && q@ == p@
            },
            LinkEvent::ReadFailed(e) => if e.continuable() {
                r is Wait
            } else {
                r is Terminate
            },
            LinkEvent::Outgoing(p) => r matches LinkAction::Send(q) && q@ == p@,
            LinkEvent::SourceClosed => r is Terminate,
            LinkEvent::Tick => r is Heartbeat,
            LinkEvent::WriteFailed => r is Terminate,
        },
{
    match ev {
        LinkEvent::Frame(p) => if p.len() == 0 {
            LinkAction::Wait
        } else {
            LinkAction::Deliver(p)
        },
        LinkEvent::ReadFailed(e) => match e.can_continue() {
            None => LinkAction::Wait,
            Some(_) => LinkAction::Terminate,
        },
        LinkEvent::Outgoing(p) => LinkAction::Send(p),
        LinkEvent::SourceClosed => LinkAction::Terminate,
        LinkEvent::Tick => LinkAction::Heartbeat,
        LinkEvent::WriteFailed => LinkAction::Terminate,
    }
}

} // verus!
