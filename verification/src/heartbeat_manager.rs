//! Membership: a chunk server that reports in is admitted to the pool from
//! which placements draw.

use crate::chunk_manager::{add_server, with_server, ChunkTables};
use crate::error::FsError;
use crate::text::free_of;
use crate::master_chunk_utils::Metadata;
use vstd::prelude::*;

verus! {

/// The character of a decimal digit.
pub open spec fn digit_char(d: int) -> char {
    if d == 0 {
        '0'
    } else if d == 1 {
        '1'
    } else if d == 2 {
        '2'
    } else if d == 3 {
        '3'
    } else if d == 4 {
        '4'
    } else if d == 5 {
        '5'
    } else if d == 6 {
        '6'
    } else if d == 7 {
        '7'
    } else if d == 8 {
        '8'
    } else {
        '9'
    }
}

/// A number in decimal, without leading zeros.
pub open spec fn decimal(n: nat) -> Seq<char>
    decreases n,
{
    if n < 10 {
        seq![digit_char(n as int)]
    } else {
        decimal(n / 10).push(digit_char((n % 10) as int))
    }
}

/// The address under which a chunk server is known: the address it
/// reported from, a colon, and its port in decimal.
pub open spec fn server_address(ip: Seq<char>, port: u16) -> Seq<char> {
    ip.push(':') + decimal(port as nat)
}

/// The text of one decimal digit.
fn digit_text(d: u64) -> (text: &'static str)
    requires
        d < 10,
    ensures
        text@ == seq![digit_char(d as int)],
{
    proof {
        reveal_strlit("0");
        reveal_strlit("1");
        reveal_strlit("2");
        reveal_strlit("3");
        reveal_strlit("4");
        reveal_strlit("5");
        reveal_strlit("6");
        reveal_strlit("7");
        reveal_strlit("8");
        reveal_strlit("9");
    }
    let text = if d == 0 {
        "0"
    } else if d == 1 {
        "1"
    } else if d == 2 {
        "2"
    } else if d == 3 {
        "3"
    } else if d == 4 {
        "4"
    } else if d == 5 {
        "5"
    } else if d == 6 {
        "6"
    } else if d == 7 {
        "7"
    } else if d == 8 {
        "8"
    } else {
        "9"
    };
    assert(text@ =~= seq![digit_char(d as int)]);
    text
}

/// A number in decimal.
pub fn decimal_text(n: u64) -> (text: String)
    ensures
        text@ == decimal(n as nat),
    decreases n,
{
    if n < 10 {
        digit_text(n).to_owned()
    } else {
        let mut text = decimal_text(n / 10);
        let ghost front = text@;
        text.append(digit_text(n % 10));
        assert(text@ =~= front.push(digit_char((n % 10) as int)));
        text
    }
}

/// The address of the chunk server that reported from `ip` on `port`.
pub fn address_text(ip: &str, port: u16) -> (address: String)
    ensures
        address@ == server_address(ip@, port),
{
    proof {
        reveal_strlit(":");
    }
    let mut address = ip.to_owned();
    address.append(":");
    let digits = decimal_text(port as u64);
    address.append(digits.as_str());
    assert(address@ =~= server_address(ip@, port));
    address
}

/// A heartbeat from `ip`: the server at that address and the reported port
/// is admitted with no chunks, unless it is already live. A sender whose
/// address holds a comma is refused with `InvalidInput`.
pub fn receive_heartbeat(tables: &mut ChunkTables, ip: &str, metadata: &Metadata) -> (r: Result<
    (),
    FsError,
>)
    requires
        old(tables).wf(),
    ensures
        final(tables).wf(),
        final(tables)@.chunks == old(tables)@.chunks,
        free_of(server_address(ip@, metadata.chunkserver_id), ',') ==> r is Ok && final(tables)@.servers == with_server(
            old(tables)@.servers,
            server_address(ip@, metadata.chunkserver_id),
        ),
        !free_of(server_address(ip@, metadata.chunkserver_id), ',') ==> r == Err::<(), FsError>(
            FsError::InvalidInput,
        ) && final(tables)@ == old(tables)@,
{
    let addr = address_text(ip, metadata.chunkserver_id);
    add_server(tables, addr)
}

} // verus!
