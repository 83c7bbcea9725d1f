//! The metric subscriber's compute step: the counters one aggregate
//! yields. Sending them anywhere is the application shell's work.

use vstd::prelude::*;
use crate::analysis::spec_loss;
use crate::analyzer_event::UdpEchoAnalyzerEventServer;

verus! {

/// One counter to emit: a metric name and how much to add.
#[derive(Debug)]
pub struct MetricCounter {
    pub name: String,
    pub value: i32,
}

/// A loss clamped to what the counter field holds.
pub open spec fn clamp_loss(loss: u64) -> i32 {
    if loss > i32::MAX {
        i32::MAX
    } else {
        loss as i32
    }
}

/// The three counters one per-peer aggregate yields: the loss itself,
/// the loss charged to the sending server, and the loss charged to the
/// receiving server.
pub fn metric_counters(event: &UdpEchoAnalyzerEventServer) -> (r: Vec<MetricCounter>)
    ensures
        r@.len() == 3,
        r@[0].name@ == "mehsh.loss"@,
        r@[1].name@ == "mehsh.sendloss."@ + event.server_from@,
        r@[2].name@ == "mehsh.recvloss."@ + event.server_to@,
        forall|i: int| 0 <= i < 3 ==> (#[trigger] r@[i]).value == clamp_loss(spec_loss(*event)),
{
    let loss: u64 = if event.resp_count <= event.req_count {
        event.req_count - event.resp_count
    } else {
        0
    };
    let value: i32 = if loss > i32::MAX as u64 {
        i32::MAX
    } else {
        loss as i32
    };
    let mut out: Vec<MetricCounter> = Vec::new();
    let total = String::from_str("mehsh.loss");
    out.push(MetricCounter { name: total, value });
    let mut send_name = String::from_str("mehsh.sendloss.");
    send_name.append(event.server_from.as_str());
    out.push(MetricCounter { name: send_name, value });
    let mut recv_name = String::from_str("mehsh.recvloss.");
    recv_name.append(event.server_to.as_str());
    out.push(MetricCounter { name: recv_name, value });
    out
}

} // verus!
