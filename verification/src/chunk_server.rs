//! The chunk server's start: the port it listens on, and the texts of its
//! fixed answers.

use vstd::prelude::*;

verus! {

/// The first port of the search for a free one.
pub const START_PORT: u16 = 8000;

/// The last port of the search for a free one.
pub const MAX_PORT: u16 = 8100;

/// The largest body that a chunk server accepts: 256 MiB.
pub const CHUNK_SIZE_MAX: usize = 268435456;

/// The first port from `start` to `end` that `is_port_available` reports
/// as free. Each port is asked at most once, in rising order, and none
/// after the first free one.
pub fn find_available_port<F: Fn(u16) -> bool>(start: u16, end: u16, is_port_available: F) -> (r:
    Option<u16>)
    requires
        forall|port: u16| call_requires(is_port_available, (port,)),
    ensures
        match r {
            Some(port) => {
                &&& start <= port <= end
                &&& call_ensures(is_port_available, (port,), true)
                &&& forall|p: u16| start <= p < port ==> call_ensures(is_port_available, (p,), false)
            },
            None => forall|p: u16| start <= p <= end ==> call_ensures(is_port_available, (p,), false),
        },
{
    let mut port: u16 = start;
    while port <= end
        invariant
            start <= port,
            forall|p: u16| call_requires(is_port_available, (p,)),
            forall|p: u16| start <= p < port ==> call_ensures(is_port_available, (p,), false),
        decreases end - port + 1,
    {
        if is_port_available(port) {
            return Some(port);
        }
        if port == end {
            return None;
        }
        port += 1;
    }
    None
}

/// The greeting of a chunk server.
pub fn hello() -> (text: &'static str)
    ensures
        text@ == "Hello, world! from Chunk Server\n"@,
{
    "Hello, world! from Chunk Server\n"
}

/// The body of the answer to a malformed request.
pub fn bad_request() -> (text: &'static str)
    ensures
        text@ == "400 Bad Request\n"@,
{
    "400 Bad Request\n"
}

/// The body of the answer where nothing is found.
pub fn not_found() -> (text: &'static str)
    ensures
        text@ == "404 Not Found\n"@,
{
    "404 Not Found\n"
}

/// The body of the answer to a request that is too large.
pub fn payload_too_large() -> (text: &'static str)
    ensures
        text@ == "413 Payload Too Large\n"@,
{
    "413 Payload Too Large\n"
}

} // verus!
