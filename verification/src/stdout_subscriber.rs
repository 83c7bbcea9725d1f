//! The stdout subscriber's compute step: one human-readable line per
//! aggregate. Printing it is the application shell's work.

use vstd::prelude::*;
use crate::analysis::{format_utc, spec_loss, utc_format_text, MAX_STAMP_SECS};
use crate::analyzer_event::{UdpEchoAnalyzerEventDatacenter, UdpEchoAnalyzerEventServer};
use crate::text::{dec_digits, push_char, u64_to_dec};

verus! {

/// The tag the maintenance gate puts on every line.
pub open spec fn mode_text(active: bool) -> Seq<char> {
    if active {
        "MAINTENANCE"@
    } else {
        "normal"@
    }
}

/// The maintenance tag for a line.
pub fn get_mode_info(active: bool) -> (r: String)
    ensures
        r@ == mode_text(active),
{
    if active {
        String::from_str("MAINTENANCE")
    } else {
        String::from_str("normal")
    }
}

/// How an optional latency is written: its value, or `None`.
pub open spec fn opt_latency_text(o: Option<u64>) -> Seq<char> {
    match o {
        Some(v) => "Some("@ + dec_digits(v as nat) + ")"@,
        None => "None"@,
    }
}

fn opt_latency_to_text(o: &Option<u64>) -> (r: String)
    ensures
        r@ == opt_latency_text(*o),
{
    match o {
        Some(v) => {
            let mut s = String::from_str("Some(");
            s.append(u64_to_dec(*v).as_str());
            s.append(")");
            proof {
                assert(s@ =~= opt_latency_text(*o));
            }
            s
        },
        None => String::from_str("None"),
    }
}

/// The line one per-peer aggregate prints.
pub open spec fn server_line_text(ev: UdpEchoAnalyzerEventServer, mode: Seq<char>) -> Seq<char> {
    utc_format_text((ev.time_micros / 1000000) as u64, "%Y-%m-%d %H:%M:%S"@) + " server: "@
        + ev.server_from@ + " -> "@ + ev.server_to@ + ", ip: "@ + ev.server_to_ip@ + ", req: "@
        + dec_digits(ev.req_count as nat) + ", resp: "@ + dec_digits(ev.resp_count as nat)
        + ", max_lat: "@ + opt_latency_text(ev.max_latency) + ", min_lat: "@ + opt_latency_text(
        ev.min_latency,
    ) + ", mode: "@ + mode + ", loss: "@ + dec_digits(spec_loss(ev) as nat) + ", "@ + (if spec_loss(
        ev,
    ) > 0 {
        "withloss"@
    } else {
        "withoutloss"@
    })
}

/// Render one per-peer aggregate.
pub fn render_server_event_line(ev: &UdpEchoAnalyzerEventServer, mode: &String) -> (r: String)
    requires
        ev.time_micros / 1000000 <= MAX_STAMP_SECS,
    ensures
        r@ == server_line_text(*ev, mode@),
{
    let mut s = format_utc(ev.time_micros / 1000000, "%Y-%m-%d %H:%M:%S");
    s.append(" server: ");
    s.append(ev.server_from.as_str());
    s.append(" -> ");
    s.append(ev.server_to.as_str());
    s.append(", ip: ");
    s.append(ev.server_to_ip.as_str());
    s.append(", req: ");
    s.append(u64_to_dec(ev.req_count).as_str());
    s.append(", resp: ");
    s.append(u64_to_dec(ev.resp_count).as_str());
    s.append(", max_lat: ");
    s.append(opt_latency_to_text(&ev.max_latency).as_str());
    s.append(", min_lat: ");
    s.append(opt_latency_to_text(&ev.min_latency).as_str());
    s.append(", mode: ");
    s.append(mode.as_str());
    s.append(", loss: ");
    let loss: u64 = if ev.resp_count <= ev.req_count {
        ev.req_count - ev.resp_count
    } else {
        0
    };
    s.append(u64_to_dec(loss).as_str());
    s.append(", ");
    if loss > 0 {
        s.append("withloss");
    } else {
        s.append("withoutloss");
    }
    proof {
        assert(s@ =~= server_line_text(*ev, mode@));
    }
    s
}

/// The line one per-datacenter aggregate prints.
pub open spec fn datacenter_line_text(
    ev: UdpEchoAnalyzerEventDatacenter,
    mode: Seq<char>,
) -> Seq<char> {
    utc_format_text((ev.time_micros / 1000000) as u64, "%Y-%m-%d %H:%M:%S"@) + " datacenter: "@
        + ev.datacenter_from@ + " -> "@ + ev.datacenter_to@ + ", req: "@ + dec_digits(
        ev.req_count as nat,
    ) + ", resp: "@ + dec_digits(ev.resp_count as nat) + ", max_lat: "@ + opt_latency_text(
        ev.max_latency,
    ) + ", min_lat: "@ + opt_latency_text(ev.min_latency) + ", mode: "@ + mode + ", loss: "@
        + dec_digits(dc_loss(ev) as nat) + ", "@ + (if dc_loss(ev) > 0 {
        "withloss"@
    } else {
        "withoutloss"@
    })
}

/// The loss a datacenter aggregate reports.
pub open spec fn dc_loss(ev: UdpEchoAnalyzerEventDatacenter) -> u64 {
    if ev.resp_count <= ev.req_count {
        (ev.req_count - ev.resp_count) as u64
    } else {
        0
    }
}

/// Render one per-datacenter aggregate.
pub fn render_datacenter_event_line(ev: &UdpEchoAnalyzerEventDatacenter, mode: &String) -> (r:
    String)
    requires
        ev.time_micros / 1000000 <= MAX_STAMP_SECS,
    ensures
        r@ == datacenter_line_text(*ev, mode@),
{
    let mut s = format_utc(ev.time_micros / 1000000, "%Y-%m-%d %H:%M:%S");
    s.append(" datacenter: ");
    s.append(ev.datacenter_from.as_str());
    s.append(" -> ");
    s.append(ev.datacenter_to.as_str());
    s.append(", req: ");
    s.append(u64_to_dec(ev.req_count).as_str());
    s.append(", resp: ");
    s.append(u64_to_dec(ev.resp_count).as_str());
    s.append(", max_lat: ");
    s.append(opt_latency_to_text(&ev.max_latency).as_str());
    s.append(", min_lat: ");
    s.append(opt_latency_to_text(&ev.min_latency).as_str());
    s.append(", mode: ");
    s.append(mode.as_str());
    s.append(", loss: ");
    let loss: u64 = if ev.resp_count <= ev.req_count {
        ev.req_count - ev.resp_count
    } else {
        0
    };
    s.append(u64_to_dec(loss).as_str());
    s.append(", ");
    if loss > 0 {
        s.append("withloss");
    } else {
        s.append("withoutloss");
    }
    proof {
        assert(s@ =~= datacenter_line_text(*ev, mode@));
    }
    s
}

} // verus!
