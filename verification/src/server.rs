//! The echo server's per-datagram work: decode a probe, build the
//! reflection. The socket loop around it lives in the application shell.

use vstd::prelude::*;
use crate::codec::{spec_decode, spec_encode, Packet, PacketType};

verus! {

/// What the server answers one datagram with: a response probe carrying
/// the request's id, or nothing when the datagram does not parse. The
/// reflection carries the server's own protocol version.
pub fn handle_datagram(data: &[u8]) -> (r: Option<Vec<u8>>)
    ensures
        match spec_decode(data@) {
            Ok(p) => r matches Some(out) && out@ == spec_encode(1u32, p.id, PacketType::Resp),
            Err(_) => r is None,
        },
{
    match Packet::new_from_raw(data) {
        Ok(p) => Some(Packet::new_resp(p.get_id()).to_bytes()),
        Err(_) => None,
    }
}

} // verus!
