//! The event bus: one producer, any number of subscribers, each with a
//! bounded queue. A slow subscriber is told how far it lagged and goes on;
//! the producer never blocks.

use vstd::prelude::*;
use crate::analyzer_event::{UdpEchoAnalyzerEventDatacenter, UdpEchoAnalyzerEventServer};

verus! {

/// The per-subscriber queue bound the supervisor uses.
pub const BUS_CAPACITY: usize = 1000;

/// What the analyzer publishes: a tagged aggregate record.
#[derive(Debug, Clone)]
pub enum BroadcastEvent {
    UdpEchoAnalyzerEventServer(UdpEchoAnalyzerEventServer),
    UdpEchoAnalyzerEventDatacenter(UdpEchoAnalyzerEventDatacenter),
}

#[verifier::external_type_specification]
#[verifier::external_body]
#[verifier::reject_recursive_types(T)]
pub struct ExSender<T>(tokio::sync::broadcast::Sender<T>);

#[verifier::external_type_specification]
#[verifier::external_body]
#[verifier::reject_recursive_types(T)]
pub struct ExReceiver<T>(tokio::sync::broadcast::Receiver<T>);

/// What one read attempt on the bus yields.
#[derive(Debug)]
pub enum BusRead {
    /// The next event.
    Event(BroadcastEvent),
    /// The subscriber fell behind and this many events were dropped for
    /// it; later events are still delivered.
    Lagged(u64),
    /// Nothing queued right now.
    Empty,
    /// The producer is gone and everything queued was consumed.
    Closed,
}

/// Relies on tokio's `broadcast::channel`: a fresh bus with one
/// subscriber; it panics on a zero capacity or one above half the address
/// space, which the bounds rule out.
#[verifier::external_body]
pub fn bus_channel(capacity: usize) -> (r: (
    tokio::sync::broadcast::Sender<BroadcastEvent>,
    tokio::sync::broadcast::Receiver<BroadcastEvent>,
))
    requires
        1 <= capacity <= usize::MAX / 2,
{
    tokio::sync::broadcast::channel(capacity)
}

/// Relies on tokio's `Sender::send`: the value goes to every current
/// subscriber's queue, or comes back when there is none; it never blocks.
/// Whether anyone received it depends on concurrent subscribers, so only
/// the outcome tag is reported.
#[verifier::external_body]
pub fn bus_send(sender: &tokio::sync::broadcast::Sender<BroadcastEvent>, ev: BroadcastEvent) -> (r:
    bool)
{
    sender.send(ev).is_ok()
}

/// Relies on tokio's `Sender::subscribe`: a new subscriber that sees the
/// values sent after this call.
#[verifier::external_body]
pub fn bus_subscribe(sender: &tokio::sync::broadcast::Sender<BroadcastEvent>) -> (r:
    tokio::sync::broadcast::Receiver<BroadcastEvent>)
{
    sender.subscribe()
}

/// Relies on tokio's `Receiver::try_recv`: the next queued value, a lag
/// notice with the count of values dropped for this subscriber, or the
/// empty and closed cases; one outside variant maps to one of ours.
#[verifier::external_body]
pub fn bus_try_recv(receiver: &mut tokio::sync::broadcast::Receiver<BroadcastEvent>) -> (r: BusRead)
{
    match receiver.try_recv() {
        Ok(ev) => BusRead::Event(ev),
        Err(tokio::sync::broadcast::error::TryRecvError::Lagged(n)) => BusRead::Lagged(n),
        Err(tokio::sync::broadcast::error::TryRecvError::Empty) => BusRead::Empty,
        Err(tokio::sync::broadcast::error::TryRecvError::Closed) => BusRead::Closed,
    }
}

/// Fan a tick's aggregates out on the bus: every per-peer record, then
/// every per-datacenter record. A bus without subscribers swallows them;
/// the count of accepted sends is returned.
pub fn publish_events(
    sender: &tokio::sync::broadcast::Sender<BroadcastEvent>,
    server_events: Vec<UdpEchoAnalyzerEventServer>,
    datacenter_events: Vec<UdpEchoAnalyzerEventDatacenter>,
) -> (accepted: usize)
    ensures
        accepted <= server_events@.len() + datacenter_events@.len(),
{
    let mut accepted: usize = 0;
    let ns = server_events.len();
    let mut i: usize = 0;
    while i < ns
        invariant
            0 <= i <= ns,
            ns == server_events@.len(),
            accepted <= i,
        decreases ns - i,
    {
        let ev = server_events[i].clone();
        if bus_send(sender, BroadcastEvent::UdpEchoAnalyzerEventServer(ev)) {
            accepted = accepted + 1;
        }
        i = i + 1;
    }
    let nd = datacenter_events.len();
    let mut j: usize = 0;
    while j < nd
        invariant
            0 <= j <= nd,
            nd == datacenter_events@.len(),
            ns == server_events@.len(),
            accepted <= ns + j,
        decreases nd - j,
    {
        let ev = datacenter_events[j].clone();
        if bus_send(sender, BroadcastEvent::UdpEchoAnalyzerEventDatacenter(ev)) {
            accepted = accepted.saturating_add(1);
        }
        j = j + 1;
    }
    accepted
}

} // verus!
