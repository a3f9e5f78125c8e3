//! What a chat client decides on its own: the local endpoint it dials from,
//! and how it reads the directory server's status replies.
use rand::Rng;
use vstd::prelude::*;

verus! {

/// Lowest local port a client binds to.
pub const PORT_MIN: u16 = 4000;

/// Local ports a client binds to stay below this one.
pub const PORT_END: u16 = 9000;

/// Seconds between heartbeats on the link to the directory server.
pub const SERVER_HEARTBEAT_SECS: u64 = 5;

/// Seconds between heartbeats on a peer link.
pub const PEER_HEARTBEAT_SECS: u64 = 60;

/// Relies on rand's `Rng::gen_range` on `thread_rng()`: a value in
/// `lo..hi`, which must not be empty (it panics then).
#[verifier::external_body]
fn random_in(lo: u16, hi: u16) -> (r: u16)
    requires
        lo < hi,
    ensures
        lo <= r < hi,
{
    rand::thread_rng().gen_range(lo..hi)
}

/// A random local port in `PORT_MIN..PORT_END`, from which the client dials
/// both the server and its peers.
pub fn local_port() -> (r: u16)
    ensures
        PORT_MIN <= r < PORT_END,
{
    random_in(PORT_MIN, PORT_END)
}

/// Whether byte `b` is the letter `up` in either case (`up` an upper-case
/// ASCII letter).
pub open spec fn is_letter(b: u8, up: u8) -> bool {
    b == up || b == up + 32
}

/// A status reply means success when "OK" appears anywhere in it, in any
/// case.
pub open spec fn has_ok(s: Seq<u8>) -> bool {
    exists|i: int| 0 <= i < s.len() - 1 && is_letter(#[trigger] s[i], 0x4f) && is_letter(s[i + 1], 0x4b)
}

/// Reads a status reply of the directory server.
pub fn is_ok_status(payload: &[u8]) -> (r: bool)
    ensures
        r == has_ok(payload@),
{
    let n = payload.len();
    if n < 2 {
        return false;
    }
    let mut i: usize = 0;
    while i < n - 1
        invariant
            n == payload@.len(),
            n >= 2,
            i <= n - 1,
            forall|j: int| 0 <= j < i ==> !(is_letter(#[trigger] payload@[j], 0x4f) && is_letter(payload@[j + 1], 0x4b)),
        decreases n - i,
    {
        let a = payload[i];
        let b = payload[i + 1];
        if (a == 0x4fu8 || a == 0x6fu8) && (b == 0x4bu8 || b == 0x6bu8) {
            return true;
        }
        i += 1;
    }
    false
}

} // verus!
