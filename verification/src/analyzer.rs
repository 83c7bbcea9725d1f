//! The correlation and aggregation engine: pair requests with responses,
//! expire unmatched ones, and aggregate per peer and per datacenter.

use vstd::prelude::*;
use crate::codec::{Packet, PacketType};
use crate::config::{find_server, vec_contains_str, Config, ServerIdentifier};
use crate::text::str_eq;

verus! {

/// One second, in the microseconds every time here is measured in.
pub const PENDING_GRACE_MICROS: u64 = 1000000;

/// A sample observed by a probe client: which peer, which packet.
#[derive(Debug)]
pub struct AnalyzerEvent {
    pub server_identifier: ServerIdentifier,
    pub packet: Packet,
}

impl AnalyzerEvent {
    pub fn new(server_identifier: ServerIdentifier, packet: Packet) -> (r: Self)
        ensures
            r.server_identifier == server_identifier,
            r.packet == packet,
    {
        AnalyzerEvent { server_identifier, packet }
    }
}

/// A pending probe: sent at `req_time`, answered at `resp_time` if at all.
#[derive(Debug)]
pub struct AnalyzerStatsEntry {
    pub server_identifier: ServerIdentifier,
    pub probe_id: u64,
    pub req_time: u64,
    pub resp_time: Option<u64>,
}

impl Clone for AnalyzerStatsEntry {
    /// An exact copy.
    fn clone(&self) -> (r: Self)
        ensures
            r == *self,
    {
        AnalyzerStatsEntry {
            server_identifier: self.server_identifier.clone(),
            probe_id: self.probe_id,
            req_time: self.req_time,
            resp_time: self.resp_time,
        }
    }
}

/// The answer's delay, or nothing when no answer came or the clock went
/// backwards between request and response.
pub open spec fn spec_latency(e: AnalyzerStatsEntry) -> Option<u64> {
    match e.resp_time {
        Some(rt) => if rt >= e.req_time {
            Some((rt - e.req_time) as u64)
        } else {
            None
        },
        None => None,
    }
}

impl AnalyzerStatsEntry {
    /// The answer's delay in microseconds; a clock that went backwards
    /// yields nothing.
    pub fn calculate_latency(&self) -> (r: Option<u64>)
        ensures
            r == spec_latency(*self),
    {
        match self.resp_time {
            Some(rt) => {
                if rt >= self.req_time {
                    Some(rt - self.req_time)
                } else {
                    None
                }
            },
            None => None,
        }
    }
}

/// The key a sample is correlated by: peer and probe id.
pub open spec fn entry_key(e: AnalyzerStatsEntry) -> (Seq<char>, u64) {
    (e.server_identifier@, e.probe_id)
}

/// No two entries share a key.
pub open spec fn keys_unique(s: Seq<AnalyzerStatsEntry>) -> bool {
    forall|i: int, j: int| 0 <= i < j < s.len() ==> entry_key(s[i]) != entry_key(s[j])
}

/// Is some entry filed under this key?
pub open spec fn has_entry_key(s: Seq<AnalyzerStatsEntry>, key: (Seq<char>, u64)) -> bool {
    exists|i: int| 0 <= i < s.len() && entry_key(s[i]) == key
}

/// Every entry names a declared peer.
pub open spec fn peers_known(config: Config, s: Seq<AnalyzerStatsEntry>) -> bool {
    forall|i: int|
        0 <= i < s.len() ==> find_server(
            config.spec_servers(),
            (#[trigger] s[i]).server_identifier@,
        ) is Some
}

/// What one sample does to the pending table: a first request files an
/// entry, a response fills the entry in place, anything else is dropped.
pub open spec fn spec_add_event(
    s: Seq<AnalyzerStatsEntry>,
    ev: AnalyzerEvent,
    now: u64,
) -> Seq<AnalyzerStatsEntry> {
    let key = (ev.server_identifier@, ev.packet@.id);
    if !has_entry_key(s, key) {
        if ev.packet@.packet_type == PacketType::Req {
            s.push(
                AnalyzerStatsEntry {
                    server_identifier: ev.server_identifier,
                    probe_id: ev.packet@.id,
                    req_time: now,
                    resp_time: None,
                },
            )
        } else {
            s
        }
    } else {
        if ev.packet@.packet_type == PacketType::Req {
            s
        } else {
            let i = choose|i: int| 0 <= i < s.len() && entry_key(s[i]) == key;
            s.update(i, AnalyzerStatsEntry { resp_time: Some(now), ..s[i] })
        }
    }
}

/// Does a pending entry stay for the next tick: it is younger than the
/// grace period.
pub open spec fn keeps_pending(e: AnalyzerStatsEntry, now: u64) -> bool {
    e.req_time <= now && now - e.req_time < PENDING_GRACE_MICROS
}

/// Does a pending entry move into the tick batch: it has aged past the
/// grace period.
pub open spec fn moves_to_batch(e: AnalyzerStatsEntry, now: u64) -> bool {
    e.req_time <= now && now - e.req_time >= PENDING_GRACE_MICROS
}

/// The peer a pending entry belongs to.
pub open spec fn peer_of(e: AnalyzerStatsEntry) -> Seq<char> {
    e.server_identifier@
}

/// The peers of a batch, first occurrence first, each once.
pub open spec fn distinct_peers(batch: Seq<AnalyzerStatsEntry>) -> Seq<Seq<char>>
    decreases batch.len(),
{
    if batch.len() == 0 {
        Seq::empty()
    } else {
        let prev = distinct_peers(batch.drop_last());
        if prev.contains(peer_of(batch.last())) {
            prev
        } else {
            prev.push(peer_of(batch.last()))
        }
    }
}

/// The batch entries of one peer, in batch order.
pub open spec fn peer_entries(batch: Seq<AnalyzerStatsEntry>, peer: Seq<char>) -> Seq<
    AnalyzerStatsEntry,
> {
    batch.filter(|e: AnalyzerStatsEntry| peer_of(e) == peer)
}

/// Did the probe get an answer?
pub open spec fn responded(e: AnalyzerStatsEntry) -> bool {
    e.resp_time is Some
}

/// How many probes of a tick went to the peer.
pub open spec fn peer_req_count(batch: Seq<AnalyzerStatsEntry>, peer: Seq<char>) -> nat {
    peer_entries(batch, peer).len()
}

/// How many of them were answered.
pub open spec fn peer_resp_count(batch: Seq<AnalyzerStatsEntry>, peer: Seq<char>) -> nat {
    peer_entries(batch, peer).filter(|e: AnalyzerStatsEntry| responded(e)).len()
}

/// The smaller of two optional values; nothing counts as no bound.
pub open spec fn opt_min(a: Option<u64>, b: Option<u64>) -> Option<u64> {
    match (a, b) {
        (None, x) => x,
        (Some(x), None) => Some(x),
        (Some(x), Some(y)) => if y < x {
            Some(y)
        } else {
            Some(x)
        },
    }
}

/// The larger of two optional values; nothing counts as no bound.
pub open spec fn opt_max(a: Option<u64>, b: Option<u64>) -> Option<u64> {
    match (a, b) {
        (None, x) => x,
        (Some(x), None) => Some(x),
        (Some(x), Some(y)) => if y > x {
            Some(y)
        } else {
            Some(x)
        },
    }
}

/// The least defined latency of these entries, if any.
pub open spec fn min_latency_of(s: Seq<AnalyzerStatsEntry>) -> Option<u64>
    decreases s.len(),
{
    if s.len() == 0 {
        None
    } else {
        opt_min(min_latency_of(s.drop_last()), spec_latency(s.last()))
    }
}

/// The greatest defined latency of these entries, if any.
pub open spec fn max_latency_of(s: Seq<AnalyzerStatsEntry>) -> Option<u64>
    decreases s.len(),
{
    if s.len() == 0 {
        None
    } else {
        opt_max(max_latency_of(s.drop_last()), spec_latency(s.last()))
    }
}

/// In every aggregate, answers never outnumber probes.
pub proof fn lemma_resp_le_req(batch: Seq<AnalyzerStatsEntry>, peer: Seq<char>)
    ensures
        peer_resp_count(batch, peer) <= peer_req_count(batch, peer),
{
    broadcast use vstd::seq_lib::group_filter_ensures;

}

/// Whenever both latency bounds are defined, the least is at most the
/// greatest; and each is defined exactly when the other is.
pub proof fn lemma_latency_bounds_ordered(s: Seq<AnalyzerStatsEntry>)
    ensures
        min_latency_of(s) is Some <==> max_latency_of(s) is Some,
        min_latency_of(s) is Some ==> min_latency_of(s).unwrap() <= max_latency_of(s).unwrap(),
    decreases s.len(),
{
    if s.len() > 0 {
        lemma_latency_bounds_ordered(s.drop_last());
    }
}

/// Exactly the fresh requests file entries: one sample grows the table
/// by one entry when it is a request under a new key, and never
/// otherwise. So a tick's per-peer probe count is the count of that
/// peer's accepted requests.
pub proof fn lemma_entry_per_request(s: Seq<AnalyzerStatsEntry>, ev: AnalyzerEvent, now: u64)
    ensures
        spec_add_event(s, ev, now).len() == s.len() + (if !has_entry_key(
            s,
            (ev.server_identifier@, ev.packet@.id),
        ) && ev.packet@.packet_type == PacketType::Req {
            1int
        } else {
            0int
        }),
{
}

/// Saturating addition: sums clamp at the integer ceiling.
pub open spec fn sat_add(a: u64, b: u64) -> u64 {
    if a + b > u64::MAX {
        u64::MAX
    } else {
        (a + b) as u64
    }
}

/// A count clamped to what a machine word holds.
pub open spec fn clamp_u64(n: nat) -> u64 {
    if n > u64::MAX {
        u64::MAX
    } else {
        n as u64
    }
}

/// The datacenter names of these peers, in peer order, with repetitions.
pub open spec fn dc_concat(servers: Seq<crate::config::ConfigServer>, peers: Seq<Seq<char>>) -> Seq<
    Seq<char>,
>
    decreases peers.len(),
{
    if peers.len() == 0 {
        Seq::empty()
    } else {
        dc_concat(servers, peers.drop_last()) + crate::config::server_named(
            servers,
            peers.last(),
        ).datacenter_as_entries.deep_view()
    }
}

/// The list with every text dropped that occurred earlier.
pub open spec fn dedup_texts(s: Seq<Seq<char>>) -> Seq<Seq<char>>
    decreases s.len(),
{
    if s.len() == 0 {
        Seq::empty()
    } else {
        let prev = dedup_texts(s.drop_last());
        if s.drop_last().contains(s.last()) {
            prev
        } else {
            prev.push(s.last())
        }
    }
}

/// Dropping repetitions keeps exactly the texts.
proof fn lemma_dedup_texts_contains(s: Seq<Seq<char>>, x: Seq<char>)
    ensures
        dedup_texts(s).contains(x) == s.contains(x),
    decreases s.len(),
{
    if s.len() > 0 {
        let dl = s.drop_last();
        let prev = dedup_texts(dl);
        lemma_dedup_texts_contains(dl, x);
        if s.contains(x) {
            let i = choose|i: int| 0 <= i < s.len() && s[i] == x;
            if i < s.len() - 1 {
                assert(dl[i] == s[i]);
                assert(dl.contains(x));
            }
            if dl.contains(x) {
                let j = choose|j: int| 0 <= j < prev.len() && prev[j] == x;
                if dl.contains(s.last()) {
                    assert(dedup_texts(s) == prev);
                } else {
                    assert(dedup_texts(s)[j] == prev[j]);
                }
                assert(dedup_texts(s).contains(x));
            } else {
                assert(i == s.len() - 1);
                assert(s.last() == x);
                assert(dedup_texts(s) == prev.push(s.last()));
                assert(dedup_texts(s)[dedup_texts(s).len() - 1] == x);
                assert(dedup_texts(s).contains(x));
            }
        }
        if dedup_texts(s).contains(x) {
            let i = choose|i: int| 0 <= i < dedup_texts(s).len() && dedup_texts(s)[i] == x;
            if dl.contains(s.last()) {
                assert(prev.contains(x));
                assert(dl.contains(x));
                let j = choose|j: int| 0 <= j < dl.len() && dl[j] == x;
                assert(s[j] == dl[j]);
                assert(s.contains(x));
            } else {
                if i < prev.len() {
                    assert(prev[i] == dedup_texts(s)[i]);
                    assert(prev.contains(x));
                    assert(dl.contains(x));
                    let j = choose|j: int| 0 <= j < dl.len() && dl[j] == x;
                    assert(s[j] == dl[j]);
                    assert(s.contains(x));
                } else {
                    assert(dedup_texts(s)[i] == s.last());
                    assert(s[s.len() - 1] == x);
                    assert(s.contains(x));
                }
            }
        }
    }
}

/// Each distinct peer is the peer of some batch entry.
proof fn lemma_distinct_peers_from(batch: Seq<AnalyzerStatsEntry>, k: int)
    requires
        0 <= k < distinct_peers(batch).len(),
    ensures
        exists|j: int| 0 <= j < batch.len() && peer_of(batch[j]) == distinct_peers(batch)[k],
    decreases batch.len(),
{
    if batch.len() > 0 {
        let dl = batch.drop_last();
        let prev = distinct_peers(dl);
        if k < prev.len() {
            lemma_distinct_peers_from(dl, k);
            let j = choose|j: int| 0 <= j < dl.len() && peer_of(dl[j]) == prev[k];
            assert(batch[j] == dl[j]);
            assert(distinct_peers(batch)[k] == prev[k]);
        } else {
            assert(distinct_peers(batch)[k] == peer_of(batch.last()));
            assert(batch[batch.len() - 1] == batch.last());
        }
    }
}

/// This datacenter's probe count: the peers under it, summed, clamped.
pub open spec fn dc_req(
    servers: Seq<crate::config::ConfigServer>,
    batch: Seq<AnalyzerStatsEntry>,
    peers: Seq<Seq<char>>,
    d: Seq<char>,
) -> u64
    decreases peers.len(),
{
    if peers.len() == 0 {
        0
    } else {
        sat_add(
            dc_req(servers, batch, peers.drop_last(), d),
            if crate::config::server_named(
                servers,
                peers.last(),
            ).datacenter_as_entries.deep_view().contains(d) {
                clamp_u64(peer_req_count(batch, peers.last()))
            } else {
                0
            },
        )
    }
}

/// This datacenter's answer count, likewise.
pub open spec fn dc_resp(
    servers: Seq<crate::config::ConfigServer>,
    batch: Seq<AnalyzerStatsEntry>,
    peers: Seq<Seq<char>>,
    d: Seq<char>,
) -> u64
    decreases peers.len(),
{
    if peers.len() == 0 {
        0
    } else {
        sat_add(
            dc_resp(servers, batch, peers.drop_last(), d),
            if crate::config::server_named(
                servers,
                peers.last(),
            ).datacenter_as_entries.deep_view().contains(d) {
                clamp_u64(peer_resp_count(batch, peers.last()))
            } else {
                0
            },
        )
    }
}

/// This datacenter's least latency over its peers.
pub open spec fn dc_min(
    servers: Seq<crate::config::ConfigServer>,
    batch: Seq<AnalyzerStatsEntry>,
    peers: Seq<Seq<char>>,
    d: Seq<char>,
) -> Option<u64>
    decreases peers.len(),
{
    if peers.len() == 0 {
        None
    } else {
        opt_min(
            dc_min(servers, batch, peers.drop_last(), d),
            if crate::config::server_named(
                servers,
                peers.last(),
            ).datacenter_as_entries.deep_view().contains(d) {
                min_latency_of(peer_entries(batch, peers.last()))
            } else {
                None
            },
        )
    }
}

/// This datacenter's greatest latency over its peers.
pub open spec fn dc_max(
    servers: Seq<crate::config::ConfigServer>,
    batch: Seq<AnalyzerStatsEntry>,
    peers: Seq<Seq<char>>,
    d: Seq<char>,
) -> Option<u64>
    decreases peers.len(),
{
    if peers.len() == 0 {
        None
    } else {
        opt_max(
            dc_max(servers, batch, peers.drop_last(), d),
            if crate::config::server_named(
                servers,
                peers.last(),
            ).datacenter_as_entries.deep_view().contains(d) {
                max_latency_of(peer_entries(batch, peers.last()))
            } else {
                None
            },
        )
    }
}

/// Does the list hold this text? Stated over the list's deep view.
fn contains_text(v: &Vec<String>, s: &str) -> (r: bool)
    ensures
        r == v.deep_view().contains(s@),
{
    let r = vec_contains_str(v, s);
    proof {
        assert(forall|t: int| 0 <= t < v@.len() ==> #[trigger] v.deep_view()[t] == v@[t]@);
        if r {
            let w = choose|i: int| 0 <= i < v@.len() && #[trigger] v@[i]@ == s@;
            assert(v.deep_view()[w] == s@);
        } else {
            if v.deep_view().contains(s@) {
                let w = choose|t: int|
                    0 <= t < v.deep_view().len() && v.deep_view()[t] == s@;
                assert(v@[w]@ == s@);
            }
        }
    }
    r
}

/// In every datacenter aggregate too, answers never outnumber probes.
pub proof fn lemma_dc_resp_le_req(
    servers: Seq<crate::config::ConfigServer>,
    batch: Seq<AnalyzerStatsEntry>,
    peers: Seq<Seq<char>>,
    d: Seq<char>,
)
    ensures
        dc_resp(servers, batch, peers, d) <= dc_req(servers, batch, peers, d),
    decreases peers.len(),
{
    if peers.len() > 0 {
        lemma_dc_resp_le_req(servers, batch, peers.drop_last(), d);
        lemma_resp_le_req(batch, peers.last());
    }
}

/// A datacenter's latency bounds are defined together, least at most
/// greatest.
pub proof fn lemma_dc_latency_bounds_ordered(
    servers: Seq<crate::config::ConfigServer>,
    batch: Seq<AnalyzerStatsEntry>,
    peers: Seq<Seq<char>>,
    d: Seq<char>,
)
    ensures
        dc_min(servers, batch, peers, d) is Some <==> dc_max(servers, batch, peers, d) is Some,
        dc_min(servers, batch, peers, d) is Some ==> dc_min(
            servers,
            batch,
            peers,
            d,
        ).unwrap() <= dc_max(servers, batch, peers, d).unwrap(),
    decreases peers.len(),
{
    if peers.len() > 0 {
        lemma_dc_latency_bounds_ordered(servers, batch, peers.drop_last(), d);
        lemma_latency_bounds_ordered(peer_entries(batch, peers.last()));
    }
}

/// The smaller of two optional values.
fn opt_min_exec(a: Option<u64>, b: Option<u64>) -> (r: Option<u64>)
    ensures
        r == opt_min(a, b),
{
    match (a, b) {
        (None, x) => x,
        (Some(x), None) => Some(x),
        (Some(x), Some(y)) => if y < x {
            Some(y)
        } else {
            Some(x)
        },
    }
}

/// The larger of two optional values.
fn opt_max_exec(a: Option<u64>, b: Option<u64>) -> (r: Option<u64>)
    ensures
        r == opt_max(a, b),
{
    match (a, b) {
        (None, x) => x,
        (Some(x), None) => Some(x),
        (Some(x), Some(y)) => if y > x {
            Some(y)
        } else {
            Some(x)
        },
    }
}

/// The pending-sample table, with the configuration it validates peers
/// against.
pub struct AnalyzerStats {
    config: Config,
    entries: Vec<AnalyzerStatsEntry>,
}

impl AnalyzerStats {
    /// The configuration the table was built with.
    pub closed spec fn spec_config(&self) -> Config {
        self.config
    }

    /// The pending entries, oldest filing first.
    pub closed spec fn spec_entries(&self) -> Seq<AnalyzerStatsEntry> {
        self.entries@
    }

    /// Well-formedness: the configuration is sound, keys are unique, and
    /// every entry names a declared peer.
    pub open spec fn wf(&self) -> bool {
        &&& self.spec_config().wf()
        &&& keys_unique(self.spec_entries())
        &&& peers_known(self.spec_config(), self.spec_entries())
    }

    /// An empty table.
    pub fn new(config: Config) -> (r: AnalyzerStats)
        requires
            config.wf(),
        ensures
            r.wf(),
            r.spec_config() == config,
            r.spec_entries() == Seq::<AnalyzerStatsEntry>::empty(),
    {
        let r = AnalyzerStats { config, entries: Vec::new() };
        proof {
            assert(r.spec_entries() =~= Seq::<AnalyzerStatsEntry>::empty());
        }
        r
    }

    /// File one sample: create on first request, fill in the response
    /// time on a response, drop duplicates and unmatched responses.
    #[verifier::loop_isolation(false)]
    pub fn add_event(&mut self, event: AnalyzerEvent, now: u64)
        requires
            old(self).wf(),
            find_server(
                old(self).spec_config().spec_servers(),
                event.server_identifier@,
            ) is Some,
        ensures
            final(self).wf(),
            final(self).spec_config() == old(self).spec_config(),
            final(self).spec_entries() == spec_add_event(old(self).spec_entries(), event, now),
    {
        let ghost s0 = self.entries@;
        let ghost key = (event.server_identifier@, event.packet@.id);
        let n = self.entries.len();
        let id = event.packet.get_id();
        let mut i: usize = 0;
        while i < n && !(str_eq(
            self.entries[i].server_identifier.as_str(),
            event.server_identifier.as_str(),
        ) && self.entries[i].probe_id == id)
            invariant
                0 <= i <= n,
                forall|k: int| 0 <= k < i ==> entry_key(s0[k]) != key,
            decreases n - i,
        {
            i = i + 1;
        }
        if i >= n {
            proof {
                assert(!has_entry_key(s0, key));
            }
            match event.packet.get_type() {
                PacketType::Req => {
                    let entry = AnalyzerStatsEntry {
                        server_identifier: event.server_identifier,
                        probe_id: id,
                        req_time: now,
                        resp_time: None,
                    };
                    self.entries.push(entry);
                    proof {
                        assert(self.entries@ =~= spec_add_event(s0, event, now));
                        assert forall|a: int, b: int|
                            0 <= a < b < self.entries@.len() implies entry_key(self.entries@[a])
                            != entry_key(self.entries@[b]) by {
                            if b < s0.len() {
                            } else {
                                assert(entry_key(self.entries@[b]) == key);
                                assert(entry_key(s0[a]) != key);
                            }
                        }
                    }
                },
                PacketType::Resp => {
                    proof {
                        assert(self.entries@ =~= spec_add_event(s0, event, now));
                    }
                },
            }
        } else {
            proof {
                assert(entry_key(s0[i as int]) == key);
                assert(has_entry_key(s0, key));
            }
            match event.packet.get_type() {
                PacketType::Req => {
                    proof {
                        assert(self.entries@ =~= spec_add_event(s0, event, now));
                    }
                },
                PacketType::Resp => {
                    let e = &self.entries[i];
                    let updated = AnalyzerStatsEntry {
                        server_identifier: e.server_identifier.clone(),
                        probe_id: e.probe_id,
                        req_time: e.req_time,
                        resp_time: Some(now),
                    };
                    self.entries.set(i, updated);
                    proof {
                        let ghost j = choose|j: int|
                            0 <= j < s0.len() && entry_key(s0[j]) == key;
                        assert(entry_key(s0[i as int]) == entry_key(s0[j]));
                        assert(j == i as int);
                        assert(updated == (AnalyzerStatsEntry {
                            resp_time: Some(now),
                            ..s0[i as int]
                        }));
                        assert(self.entries@ =~= spec_add_event(s0, event, now));
                        assert forall|a: int, b: int|
                            0 <= a < b < self.entries@.len() implies entry_key(self.entries@[a])
                            != entry_key(self.entries@[b]) by {
                            assert(entry_key(self.entries@[a]) == entry_key(s0[a]));
                            assert(entry_key(self.entries@[b]) == entry_key(s0[b]));
                        }
                    }
                },
            }
        }
    }

    /// Drain the table at a tick: entries younger than the grace period
    /// stay unchanged, aged ones move to the returned batch, and entries
    /// filed in the future of `now` are discarded.
    #[verifier::loop_isolation(false)]
    pub fn slice(&mut self, now: u64) -> (r: Vec<AnalyzerStatsEntry>)
        requires
            old(self).wf(),
        ensures
            final(self).wf(),
            final(self).spec_config() == old(self).spec_config(),
            final(self).spec_entries() == old(self).spec_entries().filter(
                |e: AnalyzerStatsEntry| keeps_pending(e, now),
            ),
            r@ == old(self).spec_entries().filter(
                |e: AnalyzerStatsEntry| moves_to_batch(e, now),
            ),
            keys_unique(r@),
            peers_known(old(self).spec_config(), r@),
    {
        broadcast use vstd::seq_lib::group_filter_ensures;

        let ghost s0 = self.entries@;
        let ghost keep_pred = |e: AnalyzerStatsEntry| keeps_pending(e, now);
        let ghost move_pred = |e: AnalyzerStatsEntry| moves_to_batch(e, now);
        let n = self.entries.len();
        let mut kept: Vec<AnalyzerStatsEntry> = Vec::new();
        let mut batch: Vec<AnalyzerStatsEntry> = Vec::new();
        proof {
            assert(s0.take(0) =~= Seq::<AnalyzerStatsEntry>::empty());
            assert(kept@ =~= s0.take(0).filter(keep_pred));
            assert(batch@ =~= s0.take(0).filter(move_pred));
        }
        let mut i: usize = 0;
        while i < n
            invariant
                0 <= i <= n,
                self.entries@ == s0,
                kept@ == s0.take(i as int).filter(keep_pred),
                batch@ == s0.take(i as int).filter(move_pred),
            decreases n - i,
        {
            proof {
                assert(s0.take(i as int + 1) =~= s0.take(i as int).push(s0[i as int]));
                s0.take(i as int).lemma_filter_push(s0[i as int], keep_pred);
                s0.take(i as int).lemma_filter_push(s0[i as int], move_pred);
            }
            let e = self.entries[i].clone();
            if e.req_time > now {
                // The clock went backwards past the filing time: discard.
            } else if now - e.req_time < PENDING_GRACE_MICROS {
                kept.push(e);
            } else {
                batch.push(e);
            }
            i = i + 1;
        }
        proof {
            assert(s0.take(n as int) =~= s0);
        }
        self.entries = kept;
        proof {
            let fkeep = s0.filter(keep_pred);
            let fmove = s0.filter(move_pred);
            Self::lemma_filter_sub_entries(s0, keep_pred);
            Self::lemma_filter_sub_entries(s0, move_pred);
            assert forall|a: int, b: int| 0 <= a < b < fkeep.len() implies entry_key(fkeep[a])
                != entry_key(fkeep[b]) by {
                Self::lemma_filter_two_indexes(s0, keep_pred, a, b);
            }
            assert forall|a: int, b: int| 0 <= a < b < fmove.len() implies entry_key(fmove[a])
                != entry_key(fmove[b]) by {
                Self::lemma_filter_two_indexes(s0, move_pred, a, b);
            }
        }
        batch
    }

    /// Aggregate a tick batch: one record per peer, with counts and the
    /// latency range, and one record per datacenter of those peers,
    /// rolled up along the datacenter hierarchy. An empty batch yields
    /// nothing.
    #[verifier::loop_isolation(false)]
    #[verifier::rlimit(60)]
    pub fn aggregate(&self, stats_entries: Vec<AnalyzerStatsEntry>, now: u64) -> (r: (
        Vec<crate::analyzer_event::UdpEchoAnalyzerEventServer>,
        Vec<crate::analyzer_event::UdpEchoAnalyzerEventDatacenter>,
    ))
        requires
            self.wf(),
            peers_known(self.spec_config(), stats_entries@),
        ensures
            ({
                let batch = stats_entries@;
                let servers = self.spec_config().spec_servers();
                let peers = distinct_peers(batch);
                let dcs = dedup_texts(dc_concat(servers, peers));
                &&& r.0@.len() == peers.len()
                &&& forall|i: int|
                    0 <= i < peers.len() ==> {
                        let ev = #[trigger] r.0@[i];
                        let p = peers[i];
                        &&& ev.time_micros == now
                        &&& ev.server_from@ == self.spec_config().spec_self().identifier@
                        &&& ev.server_to@ == p
                        &&& find_server(servers, p) is Some
                        &&& ev.server_to_ip@ == crate::config::server_named(servers, p).ip@
                        &&& ev.req_count == peer_req_count(batch, p)
                        &&& ev.resp_count == peer_resp_count(batch, p)
                        &&& ev.min_latency == min_latency_of(peer_entries(batch, p))
                        &&& ev.max_latency == max_latency_of(peer_entries(batch, p))
                    }
                &&& r.1@.len() == dcs.len()
                &&& forall|i: int|
                    0 <= i < dcs.len() ==> {
                        let ev = #[trigger] r.1@[i];
                        let d = dcs[i];
                        &&& ev.time_micros == now
                        &&& ev.server_from@ == self.spec_config().spec_self().identifier@
                        &&& ev.datacenter_from@ == (match self.spec_config().spec_self()
                            .datacenter {
                            Some(t) => t@,
                            None => Seq::<char>::empty(),
                        })
                        &&& ev.datacenter_to@ == d
                        &&& ev.req_count == dc_req(servers, batch, peers, d)
                        &&& ev.resp_count == dc_resp(servers, batch, peers, d)
                        &&& ev.min_latency == dc_min(servers, batch, peers, d)
                        &&& ev.max_latency == dc_max(servers, batch, peers, d)
                    }
            }),
    {
        broadcast use vstd::seq_lib::group_filter_ensures;

        let ghost batch = stats_entries@;
        let ghost servers = self.spec_config().spec_servers();
        let n = stats_entries.len();

        // The peers of the batch, first occurrence first.
        let mut peers: Vec<String> = Vec::new();
        proof {
            assert(batch.take(0) =~= Seq::<AnalyzerStatsEntry>::empty());
            assert(peers.deep_view() =~= distinct_peers(batch.take(0)));
        }
        let mut j: usize = 0;
        while j < n
            invariant
                0 <= j <= n,
                peers.deep_view() == distinct_peers(batch.take(j as int)),
            decreases n - j,
        {
            proof {
                assert(batch.take(j as int + 1).drop_last() =~= batch.take(j as int));
                assert(batch.take(j as int + 1).last() == batch[j as int]);
            }
            let e = &stats_entries[j];
            let seen = contains_text(&peers, e.server_identifier.as_str());
            proof {
                assert(seen == distinct_peers(batch.take(j as int)).contains(
                    peer_of(batch[j as int]),
                ));
            }
            if !seen {
                let ghost pdv = peers.deep_view();
                peers.push(e.server_identifier.clone());
                proof {
                    assert(peers.deep_view() =~= pdv.push(peer_of(batch[j as int])));
                }
            }
            j = j + 1;
        }
        proof {
            assert(batch.take(n as int) =~= batch);
        }

        // One aggregate per peer.
        let me = self.config.get_server_self();
        let np = peers.len();
        let mut out_servers: Vec<crate::analyzer_event::UdpEchoAnalyzerEventServer> = Vec::new();
        let mut pi: usize = 0;
        while pi < np
            invariant
                0 <= pi <= np,
                np == peers@.len(),
                peers.deep_view() == distinct_peers(batch),
                out_servers@.len() == pi,
                forall|i: int|
                    0 <= i < pi ==> {
                        let ev = #[trigger] out_servers@[i];
                        let p = distinct_peers(batch)[i];
                        &&& ev.time_micros == now
                        &&& ev.server_from@ == self.spec_config().spec_self().identifier@
                        &&& ev.server_to@ == p
                        &&& find_server(servers, p) is Some
                        &&& ev.server_to_ip@ == crate::config::server_named(servers, p).ip@
                        &&& ev.req_count == peer_req_count(batch, p)
                        &&& ev.resp_count == peer_resp_count(batch, p)
                        &&& ev.min_latency == min_latency_of(peer_entries(batch, p))
                        &&& ev.max_latency == max_latency_of(peer_entries(batch, p))
                    },
            decreases np - pi,
        {
            proof {
                assert(peers.deep_view()[pi as int] == peers@[pi as int]@);
                lemma_distinct_peers_from(batch, pi as int);
                let w = choose|w: int|
                    0 <= w < batch.len() && peer_of(batch[w]) == distinct_peers(batch)[pi as int];
                assert(find_server(servers, batch[w].server_identifier@) is Some);
            }
            let p = &peers[pi];
            let srv = match self.config.get_server_by_identifier(p) {
                Some(s) => s,
                None => {
                    // Unreachable: the name was shown to be declared.
                    proof {
                        assert(false);
                    }
                    return (Vec::new(), Vec::new());
                },
            };
            proof {
                assert(crate::config::server_named(servers, peers@[pi as int]@) == *srv);
            }
            let ghost pv = peers@[pi as int]@;
            let ghost ppred = |e: AnalyzerStatsEntry| peer_of(e) == pv;
            let ghost rpred = |e: AnalyzerStatsEntry| responded(e);
            let mut req: u64 = 0;
            let mut resp: u64 = 0;
            let mut minl: Option<u64> = None;
            let mut maxl: Option<u64> = None;
            proof {
                assert(batch.take(0) =~= Seq::<AnalyzerStatsEntry>::empty());
                assert(batch.take(0).filter(ppred) =~= Seq::<AnalyzerStatsEntry>::empty());
                assert(batch.take(0).filter(ppred).filter(rpred)
                    =~= Seq::<AnalyzerStatsEntry>::empty());
            }
            let mut k: usize = 0;
            while k < n
                invariant
                    0 <= k <= n,
                    ppred == (|e: AnalyzerStatsEntry| peer_of(e) == pv),
                    rpred == (|e: AnalyzerStatsEntry| responded(e)),
                    req as nat == batch.take(k as int).filter(ppred).len(),
                    resp as nat == batch.take(k as int).filter(ppred).filter(rpred).len(),
                    minl == min_latency_of(batch.take(k as int).filter(ppred)),
                    maxl == max_latency_of(batch.take(k as int).filter(ppred)),
                decreases n - k,
            {
                proof {
                    assert(batch.take(k as int + 1).drop_last() =~= batch.take(k as int));
                    assert(batch.take(k as int + 1) =~= batch.take(k as int).push(
                        batch[k as int],
                    ));
                    batch.take(k as int).lemma_filter_push(batch[k as int], ppred);
                    batch.take(k as int).filter(ppred).lemma_filter_len(rpred);
                    batch.take(k as int).lemma_filter_len(ppred);
                    if ppred(batch[k as int]) {
                        batch.take(k as int).filter(ppred).lemma_filter_push(
                            batch[k as int],
                            rpred,
                        );
                    }
                }
                let e = &stats_entries[k];
                if str_eq(e.server_identifier.as_str(), p.as_str()) {
                    let ghost fp = batch.take(k as int).filter(ppred);
                    proof {
                        assert(batch.take(k as int + 1).filter(ppred) == fp.push(
                            batch[k as int],
                        ));
                        assert(fp.push(batch[k as int]).drop_last() =~= fp);
                    }
                    req = req + 1;
                    if e.resp_time.is_some() {
                        resp = resp + 1;
                    }
                    let lat = e.calculate_latency();
                    minl = opt_min_exec(minl, lat);
                    maxl = opt_max_exec(maxl, lat);
                }
                k = k + 1;
            }
            proof {
                assert(batch.take(n as int) =~= batch);
            }
            let ev = crate::analyzer_event::UdpEchoAnalyzerEventServer {
                time_micros: now,
                server_from: me.identifier.clone(),
                server_to: p.clone(),
                server_to_ip: srv.ip.clone(),
                req_count: req,
                resp_count: resp,
                max_latency: maxl,
                min_latency: minl,
            };
            out_servers.push(ev);
            pi = pi + 1;
        }

        // The datacenters of those peers, first occurrence first.
        let mut dcs: Vec<String> = Vec::new();
        let ghost peers_dv = peers.deep_view();
        proof {
            assert(peers_dv.take(0) =~= Seq::<Seq<char>>::empty());
            assert(dc_concat(servers, peers_dv.take(0)) =~= Seq::<Seq<char>>::empty());
            assert(dcs.deep_view() =~= dedup_texts(dc_concat(servers, peers_dv.take(0))));
        }
        let mut pi: usize = 0;
        while pi < np
            invariant
                0 <= pi <= np,
                np == peers@.len(),
                peers.deep_view() == distinct_peers(batch),
                peers_dv == peers.deep_view(),
                dcs.deep_view() == dedup_texts(dc_concat(servers, peers_dv.take(pi as int))),
            decreases np - pi,
        {
            proof {
                assert(peers.deep_view()[pi as int] == peers@[pi as int]@);
                lemma_distinct_peers_from(batch, pi as int);
                let w = choose|w: int|
                    0 <= w < batch.len() && peer_of(batch[w]) == distinct_peers(batch)[pi as int];
                assert(find_server(servers, batch[w].server_identifier@) is Some);
            }
            let p = &peers[pi];
            let srv = match self.config.get_server_by_identifier(p) {
                Some(s) => s,
                None => {
                    // Unreachable: the name was shown to be declared.
                    proof {
                        assert(false);
                    }
                    return (Vec::new(), Vec::new());
                },
            };
            proof {
                assert(crate::config::server_named(servers, peers_dv[pi as int]) == *srv);
                assert(peers_dv.take(pi as int + 1).drop_last() =~= peers_dv.take(pi as int));
                assert(peers_dv.take(pi as int + 1).last() == peers_dv[pi as int]);
            }
            let ghost cc = dc_concat(servers, peers_dv.take(pi as int));
            let ghost sdc = srv.datacenter_as_entries.deep_view();
            let nd = srv.datacenter_as_entries.len();
            proof {
                assert(dc_concat(servers, peers_dv.take(pi as int + 1)) == cc + sdc);
                assert(sdc.take(0) =~= Seq::<Seq<char>>::empty());
                assert(cc + sdc.take(0) =~= cc);
            }
            let mut di: usize = 0;
            while di < nd
                invariant
                    0 <= di <= nd,
                    nd == srv.datacenter_as_entries@.len(),
                    sdc == srv.datacenter_as_entries.deep_view(),
                    dcs.deep_view() == dedup_texts(cc + sdc.take(di as int)),
                decreases nd - di,
            {
                proof {
                    assert(sdc[di as int] == srv.datacenter_as_entries@[di as int]@);
                    assert((cc + sdc.take(di as int + 1)).drop_last() =~= cc + sdc.take(
                        di as int,
                    ));
                    assert((cc + sdc.take(di as int + 1)).last() == sdc[di as int]);
                }
                let d = &srv.datacenter_as_entries[di];
                let seen = contains_text(&dcs, d.as_str());
                proof {
                    lemma_dedup_texts_contains(cc + sdc.take(di as int), sdc[di as int]);
                    assert(seen == (cc + sdc.take(di as int)).contains(sdc[di as int]));
                }
                if !seen {
                    let ghost ddv = dcs.deep_view();
                    dcs.push(d.clone());
                    proof {
                        assert(dcs.deep_view() =~= ddv.push(sdc[di as int]));
                    }
                }
                di = di + 1;
            }
            proof {
                assert(sdc.take(nd as int) =~= sdc);
                assert(dcs.deep_view() == dedup_texts(
                    dc_concat(servers, peers_dv.take(pi as int + 1)),
                ));
            }
            pi = pi + 1;
        }
        proof {
            assert(peers_dv.take(np as int) =~= peers_dv);
        }

        // One rolled-up aggregate per datacenter.
        let datacenter_self: String = match &me.datacenter {
            Some(d) => d.clone(),
            None => String::new(),
        };
        let ndc = dcs.len();
        let mut out_dcs: Vec<crate::analyzer_event::UdpEchoAnalyzerEventDatacenter> = Vec::new();
        let ghost dcs_dv = dcs.deep_view();
        let mut di: usize = 0;
        while di < ndc
            invariant
                0 <= di <= ndc,
                ndc == dcs@.len(),
                dcs_dv == dcs.deep_view(),
                dcs.deep_view() == dedup_texts(dc_concat(servers, peers_dv)),
                out_dcs@.len() == di,
                forall|i: int|
                    0 <= i < di ==> {
                        let ev = #[trigger] out_dcs@[i];
                        let d = dcs_dv[i];
                        &&& ev.time_micros == now
                        &&& ev.server_from@ == self.spec_config().spec_self().identifier@
                        &&& ev.datacenter_from@ == (match self.spec_config().spec_self()
                            .datacenter {
                            Some(t) => t@,
                            None => Seq::<char>::empty(),
                        })
                        &&& ev.datacenter_to@ == d
                        &&& ev.req_count == dc_req(servers, batch, peers_dv, d)
                        &&& ev.resp_count == dc_resp(servers, batch, peers_dv, d)
                        &&& ev.min_latency == dc_min(servers, batch, peers_dv, d)
                        &&& ev.max_latency == dc_max(servers, batch, peers_dv, d)
                    },
            decreases ndc - di,
        {
            proof {
                assert(dcs.deep_view()[di as int] == dcs@[di as int]@);
            }
            let d = &dcs[di];
            let ghost dv = dcs_dv[di as int];
            let mut req: u64 = 0;
            let mut resp: u64 = 0;
            let mut minl: Option<u64> = None;
            let mut maxl: Option<u64> = None;
            proof {
                assert(peers_dv.take(0) =~= Seq::<Seq<char>>::empty());
            }
            let mut pi: usize = 0;
            while pi < np
                invariant
                    0 <= pi <= np,
                    np == peers@.len(),
                    0 <= di < ndc,
                    dv == dcs_dv[di as int],
                    req == dc_req(servers, batch, peers_dv.take(pi as int), dv),
                    resp == dc_resp(servers, batch, peers_dv.take(pi as int), dv),
                    minl == dc_min(servers, batch, peers_dv.take(pi as int), dv),
                    maxl == dc_max(servers, batch, peers_dv.take(pi as int), dv),
                decreases np - pi,
            {
                proof {
                    assert(peers.deep_view()[pi as int] == peers@[pi as int]@);
                    lemma_distinct_peers_from(batch, pi as int);
                    let w = choose|w: int|
                        0 <= w < batch.len() && peer_of(batch[w]) == distinct_peers(
                            batch,
                        )[pi as int];
                    assert(find_server(servers, batch[w].server_identifier@) is Some);
                    assert(peers_dv.take(pi as int + 1).drop_last() =~= peers_dv.take(pi as int));
                    assert(peers_dv.take(pi as int + 1).last() == peers_dv[pi as int]);
                }
                let p = &peers[pi];
                let srv = match self.config.get_server_by_identifier(p) {
                    Some(s) => s,
                    None => {
                        // Unreachable: the name was shown to be declared.
                        proof {
                            assert(false);
                        }
                        return (Vec::new(), Vec::new());
                    },
                };
                proof {
                    assert(crate::config::server_named(servers, peers_dv[pi as int]) == *srv);
                }
                let member = contains_text(&srv.datacenter_as_entries, d.as_str());
                if member {
                    let pev = &out_servers[pi];
                    proof {
                        batch.lemma_filter_len(
                            |e: AnalyzerStatsEntry| peer_of(e) == peers_dv[pi as int],
                        );
                    }
                    req = req.saturating_add(pev.req_count);
                    resp = resp.saturating_add(pev.resp_count);
                    minl = opt_min_exec(minl, pev.min_latency);
                    maxl = opt_max_exec(maxl, pev.max_latency);
                }
                pi = pi + 1;
            }
            proof {
                assert(peers_dv.take(np as int) =~= peers_dv);
            }
            let ev = crate::analyzer_event::UdpEchoAnalyzerEventDatacenter {
                time_micros: now,
                server_from: me.identifier.clone(),
                datacenter_from: datacenter_self.clone(),
                datacenter_to: d.clone(),
                req_count: req,
                resp_count: resp,
                max_latency: maxl,
                min_latency: minl,
            };
            out_dcs.push(ev);
            di = di + 1;
        }

        (out_servers, out_dcs)
    }

    /// Every element of a filtered list stands in the list.
    proof fn lemma_filter_sub_entries(
        s: Seq<AnalyzerStatsEntry>,
        pred: spec_fn(AnalyzerStatsEntry) -> bool,
    )
        ensures
            forall|k: int|
                0 <= k < s.filter(pred).len() ==> exists|j: int|
                    0 <= j < s.len() && s[j] == #[trigger] s.filter(pred)[k],
        decreases s.len(),
    {
        broadcast use vstd::seq_lib::group_filter_ensures;

        if s.len() > 0 {
            let dl = s.drop_last();
            assert(dl.push(s.last()) =~= s);
            dl.lemma_filter_push(s.last(), pred);
            Self::lemma_filter_sub_entries(dl, pred);
            assert forall|k: int|
                0 <= k < s.filter(pred).len() implies exists|j: int|
                0 <= j < s.len() && s[j] == #[trigger] s.filter(pred)[k] by {
                if k < dl.filter(pred).len() {
                    let j = choose|j: int| 0 <= j < dl.len() && dl[j] == dl.filter(pred)[k];
                    assert(s[j] == dl[j]);
                } else {
                    assert(s.filter(pred)[k] == s.last());
                    assert(s[s.len() - 1] == s.last());
                }
            }
        }
    }

    /// Two positions of a filtered list come from two distinct positions
    /// of the list, in order.
    proof fn lemma_filter_two_indexes(
        s: Seq<AnalyzerStatsEntry>,
        pred: spec_fn(AnalyzerStatsEntry) -> bool,
        a: int,
        b: int,
    )
        requires
            keys_unique(s),
            0 <= a < b < s.filter(pred).len(),
        ensures
            entry_key(s.filter(pred)[a]) != entry_key(s.filter(pred)[b]),
        decreases s.len(),
    {
        broadcast use vstd::seq_lib::group_filter_ensures;

        if s.len() > 0 {
            let dl = s.drop_last();
            assert(dl.push(s.last()) =~= s);
            dl.lemma_filter_push(s.last(), pred);
            assert(keys_unique(dl));
            if pred(s.last()) && b == s.filter(pred).len() - 1 {
                assert(s.filter(pred)[b] == s.last());
                Self::lemma_filter_sub_entries(dl, pred);
                assert(s.filter(pred)[a] == dl.filter(pred)[a]);
                let j = choose|j: int| 0 <= j < dl.len() && dl[j] == dl.filter(pred)[a];
                assert(s[j] == dl[j]);
                assert(entry_key(s[j]) != entry_key(s[s.len() - 1]));
            } else {
                Self::lemma_filter_two_indexes(dl, pred, a, b);
            }
        }
    }
}

} // verus!
