//! The probe client's compute steps: allocate the next request and encode
//! it, and turn a received datagram into a sample. The socket and the
//! cadence timer live in the application shell.

use vstd::prelude::*;
use crate::analyzer::AnalyzerEvent;
use crate::codec::{spec_decode, spec_encode, Packet, PacketModel, PacketType};
use crate::config::ServerIdentifier;

verus! {

/// The sender's step: advance the probe counter, build the request
/// sample to publish, and the bytes to send.
pub fn client_send_step(counter: u64, server_identifier: &ServerIdentifier) -> (r: (
    u64,
    AnalyzerEvent,
    Vec<u8>,
))
    requires
        counter < u64::MAX,
    ensures
        r.0 == counter + 1,
        r.1.server_identifier@ == server_identifier@,
        r.1.packet@ == (PacketModel {
            version: 1u32,
            id: (counter + 1) as u64,
            packet_type: PacketType::Req,
        }),
        r.2@ == spec_encode(1u32, (counter + 1) as u64, PacketType::Req),
{
    let next = counter + 1;
    let packet = Packet::new_req(next);
    let event = AnalyzerEvent::new(server_identifier.clone(), packet);
    let bytes = Packet::new_req(next).to_bytes();
    (next, event, bytes)
}

/// The receiver's step: a received datagram becomes a sample for the
/// analyzer, or nothing when it does not parse.
pub fn client_parse_datagram(data: &[u8], server_identifier: &ServerIdentifier) -> (r: Option<
    AnalyzerEvent,
>)
    ensures
        match spec_decode(data@) {
            Ok(p) => r matches Some(ev) && ev.packet@ == p && ev.server_identifier@
                == server_identifier@,
            Err(_) => r is None,
        },
{
    match Packet::new_from_raw(data) {
        Ok(p) => Some(AnalyzerEvent::new(server_identifier.clone(), p)),
        Err(_) => None,
    }
}

} // verus!
