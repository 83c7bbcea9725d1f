//! The resolved fleet configuration the core runs on: servers, groups,
//! checks and analyses, handed over as plain values.

use vstd::prelude::*;
use crate::allow_addr::{spec_parse_ipv4, AllowIp, Ipv4Addr};
use crate::text::{join_seq, push_char, split_seq, split_str, str_eq};

verus! {

/// The logical name of a server in the fleet.
pub type ServerIdentifier = String;

/// A server as the fleet description declares it.
#[derive(Debug, Clone)]
pub struct RawConfigServer {
    pub identifier: ServerIdentifier,
    pub datacenter: Option<String>,
    pub ip: String,
    pub groups: Vec<String>,
    pub serverdensity_udp_agent: Option<bool>,
    pub extra1: Option<String>,
    pub extra2: Option<String>,
    pub extra3: Option<String>,
}

/// A named set of servers.
#[derive(Debug, Clone)]
pub struct RawConfigGroup {
    pub name: String,
}

/// A reactive analysis as declared: a route, a loss threshold, a command.
#[derive(Debug, Clone)]
pub struct RawConfigAnalysis {
    pub name: String,
    pub from: String,
    pub to: String,
    pub min_loss: u32,
    pub command: String,
}

/// A check as declared: a route and the kind of probe.
#[derive(Debug, Clone)]
pub struct RawConfigCheck {
    pub from: String,
    pub to: String,
    pub check: String,
    pub http_url: Option<String>,
}

/// The whole fleet description, before resolution.
#[derive(Debug, Clone)]
pub struct RawConfig {
    pub server: Vec<RawConfigServer>,
    pub group: Vec<RawConfigGroup>,
    pub check: Option<Vec<RawConfigCheck>>,
    pub analysis: Option<Vec<RawConfigAnalysis>>,
}

/// A server after resolution, with its datacenter hierarchy expanded.
#[derive(Debug)]
pub struct ConfigServer {
    pub identifier: ServerIdentifier,
    pub datacenter: Option<String>,
    pub datacenter_as_entries: Vec<String>,
    pub ip: String,
    pub groups: Vec<String>,
    pub serverdensity_udp_agent: bool,
    pub extra1: Option<String>,
    pub extra2: Option<String>,
    pub extra3: Option<String>,
}

/// A resolved endpoint of a check: a server name and its address.
#[derive(Debug)]
pub struct Ident {
    pub identifier: ServerIdentifier,
    pub ip: AllowIp,
}

/// One resolved check between two concrete servers.
#[derive(Debug, Clone)]
pub struct ConfigCheck {
    pub from: Ident,
    pub to: Ident,
    pub check: String,
    pub http_url: Option<String>,
}

/// One resolved analysis between two concrete servers.
#[derive(Debug, Clone)]
pub struct ConfigAnalysis {
    pub name: String,
    pub from: ConfigServer,
    pub to: ConfigServer,
    pub min_loss: u32,
    pub command: String,
}

/// Why a fleet description cannot be resolved.
#[derive(Debug, Clone, Copy, PartialEq, Eq, Structural)]
pub enum ConfigError {
    DuplicateServer,
    DuplicateGroup,
    AmbiguousIdentifier,
    SelfNotFound,
    InvalidIp,
}

/// Equality of optional strings by their text.
pub open spec fn opt_str_eq(a: Option<String>, b: Option<String>) -> bool {
    match (a, b) {
        (Some(x), Some(y)) => x@ == y@,
        (None, None) => true,
        _ => false,
    }
}

/// The datacenter text a raw server declares, with its default.
pub open spec fn spec_datacenter_text(datacenter: Option<String>) -> Seq<char> {
    match datacenter {
        Some(d) => d@,
        None => "no-datacenter"@,
    }
}

/// The hierarchy a dotted datacenter name expands to: one entry per dotted
/// prefix, shortest first.
pub open spec fn dc_prefix_entries(s: Seq<char>) -> Seq<Seq<char>> {
    let parts = split_seq(s, '.');
    Seq::new(parts.len(), |i: int| join_seq(parts.take(i + 1), '.'))
}

/// Does the resolved server carry exactly the raw server's data?
pub open spec fn server_matches_raw(s: ConfigServer, raw: RawConfigServer) -> bool {
    &&& s.identifier@ == raw.identifier@
    &&& opt_str_eq(s.datacenter, raw.datacenter)
    &&& s.datacenter_as_entries.deep_view() == dc_prefix_entries(
        spec_datacenter_text(raw.datacenter),
    )
    &&& s.ip@ == raw.ip@
    &&& s.groups@ == raw.groups@
    &&& s.serverdensity_udp_agent == (raw.serverdensity_udp_agent == Some(true))
    &&& opt_str_eq(s.extra1, raw.extra1)
    &&& opt_str_eq(s.extra2, raw.extra2)
    &&& opt_str_eq(s.extra3, raw.extra3)
}

impl ConfigServer {
    /// Resolve a raw server, expanding its datacenter hierarchy.
    pub fn from_raw_config_server(raw: RawConfigServer) -> (r: Self)
        ensures
            server_matches_raw(r, raw),
    {
        let dc: String = match &raw.datacenter {
            Some(d) => d.clone(),
            None => {
                let s = String::from_str("no-datacenter");
                s
            },
        };
        let parts = split_str(dc.as_str(), '.');
        let n = parts.len();
        let mut entries: Vec<String> = Vec::new();
        proof {
            assert(parts.deep_view()[0] == parts@[0]@);
            assert(split_seq(dc@, '.').take(1).drop_last() =~= Seq::<Seq<char>>::empty());
            assert(split_seq(dc@, '.').take(1) =~= seq![parts.deep_view()[0]]);
        }
        let mut cur: String = parts[0].clone();
        entries.push(cur.clone());
        let mut k: usize = 1;
        while k < n
            invariant
                1 <= k <= n,
                n == parts@.len(),
                parts.deep_view() == split_seq(dc@, '.'),
                cur@ == join_seq(parts.deep_view().take(k as int), '.'),
                entries.deep_view() == Seq::new(
                    k as nat,
                    |i: int| join_seq(parts.deep_view().take(i + 1), '.'),
                ),
            decreases n - k,
        {
            proof {
                assert(parts.deep_view()[k as int] == parts@[k as int]@);
                assert(parts.deep_view().take(k as int + 1).drop_last() =~= parts.deep_view()
                    .take(k as int));
                assert(parts.deep_view().take(k as int + 1).last() == parts.deep_view()[k as int]);
            }
            push_char(&mut cur, '.');
            let part = parts[k].clone();
            cur.append(part.as_str());
            proof {
                assert(cur@ =~= join_seq(parts.deep_view().take(k as int + 1), '.'));
            }
            let ghost edv = entries.deep_view();
            entries.push(cur.clone());
            proof {
                assert(entries.deep_view() =~= edv.push(cur@));
                assert(entries.deep_view() =~= Seq::new(
                    (k + 1) as nat,
                    |i: int| join_seq(parts.deep_view().take(i + 1), '.'),
                ));
            }
            k = k + 1;
        }
        proof {
            assert(entries.deep_view() =~= dc_prefix_entries(spec_datacenter_text(raw.datacenter)));
        }
        ConfigServer {
            identifier: raw.identifier,
            datacenter: raw.datacenter,
            datacenter_as_entries: entries,
            ip: raw.ip,
            groups: raw.groups,
            serverdensity_udp_agent: match raw.serverdensity_udp_agent {
                Some(b) => b,
                None => false,
            },
            extra1: raw.extra1,
            extra2: raw.extra2,
            extra3: raw.extra3,
        }
    }
}

/// The first declared server with the given identifier.
pub open spec fn find_server(servers: Seq<ConfigServer>, id: Seq<char>) -> Option<ConfigServer>
    decreases servers.len(),
{
    if servers.len() == 0 {
        None
    } else if servers[0].identifier@ == id {
        Some(servers[0])
    } else {
        find_server(servers.drop_first(), id)
    }
}

/// Is some declared group so named?
pub open spec fn has_group(groups: Seq<RawConfigGroup>, name: Seq<char>) -> bool {
    exists|i: int| 0 <= i < groups.len() && groups[i].name@ == name
}

/// Does this server belong to the named group?
pub open spec fn in_group(s: ConfigServer, name: Seq<char>) -> bool {
    exists|i: int| 0 <= i < s.groups@.len() && s.groups@[i]@ == name
}

/// The servers that belong to the named group, in declaration order.
pub open spec fn group_members(servers: Seq<ConfigServer>, name: Seq<char>) -> Seq<ConfigServer> {
    servers.filter(|s: ConfigServer| in_group(s, name))
}

/// The endpoint a resolved server yields; meaningful when its address
/// parses.
pub open spec fn ident_of(s: ConfigServer) -> Ident {
    match spec_parse_ipv4(s.ip@) {
        Some(ip) => Ident { identifier: s.identifier, ip: AllowIp::V4(ip) },
        None => Ident { identifier: s.identifier, ip: AllowIp::V6(s.ip) },
    }
}

/// Do all these servers carry parseable addresses?
pub open spec fn all_ips_parse(servers: Seq<ConfigServer>) -> bool {
    forall|i: int|
        0 <= i < servers.len() ==> #[trigger] spec_parse_ipv4(servers[i].ip@) is Some
}

/// What resolving one identifier yields: the one server of that name, the
/// members of the group of that name, or nothing.
pub open spec fn spec_resolve_idents(
    servers: Seq<ConfigServer>,
    groups: Seq<RawConfigGroup>,
    id: Seq<char>,
) -> Result<Seq<Ident>, ConfigError> {
    match find_server(servers, id) {
        Some(s) => {
            if spec_parse_ipv4(s.ip@) is Some {
                Ok(seq![ident_of(s)])
            } else {
                Err(ConfigError::InvalidIp)
            }
        },
        None => {
            if has_group(groups, id) {
                let members = group_members(servers, id);
                if all_ips_parse(members) {
                    Ok(members.map_values(|s: ConfigServer| ident_of(s)))
                } else {
                    Err(ConfigError::InvalidIp)
                }
            } else {
                Ok(Seq::empty())
            }
        },
    }
}

/// The resolved configuration one agent runs on.
#[derive(Debug, Clone)]
pub struct Config {
    self_server_identifier: ServerIdentifier,
    self_index: usize,
    server: Vec<ConfigServer>,
    group: Vec<RawConfigGroup>,
    check: Option<Vec<RawConfigCheck>>,
    analysis: Option<Vec<RawConfigAnalysis>>,
}

impl Config {
    /// The declared servers, in declaration order.
    pub closed spec fn spec_servers(&self) -> Seq<ConfigServer> {
        self.server@
    }

    /// The declared groups, in declaration order.
    pub closed spec fn spec_groups(&self) -> Seq<RawConfigGroup> {
        self.group@
    }

    /// The declared checks, if any.
    pub closed spec fn spec_checks(&self) -> Option<Vec<RawConfigCheck>> {
        self.check
    }

    /// The declared analyses, if any.
    pub closed spec fn spec_analyses(&self) -> Option<Vec<RawConfigAnalysis>> {
        self.analysis
    }

    /// This agent's own server entry.
    pub closed spec fn spec_self(&self) -> ConfigServer {
        self.server@[self.self_index as int]
    }

    /// This agent's own identifier.
    pub closed spec fn spec_self_identifier(&self) -> Seq<char> {
        self.self_server_identifier@
    }

    /// Well-formedness: identifiers are unambiguous and the self entry is
    /// among the declared servers.
    pub open spec fn wf(&self) -> bool {
        &&& forall|i: int, j: int|
            0 <= i < j < self.spec_servers().len() ==> self.spec_servers()[i].identifier@
                != self.spec_servers()[j].identifier@
        &&& forall|i: int, j: int|
            0 <= i < j < self.spec_groups().len() ==> self.spec_groups()[i].name@
                != self.spec_groups()[j].name@
        &&& forall|i: int|
            0 <= i < self.spec_servers().len() ==> !has_group(
                self.spec_groups(),
                #[trigger] self.spec_servers()[i].identifier@,
            )
        &&& find_server(self.spec_servers(), self.spec_self_identifier()) == Some(
            self.spec_self(),
        )
        &&& self.spec_self().identifier@ == self.spec_self_identifier()
        &&& self.self_entry_in_range()
    }

    /// The held index of the agent's own entry points at it.
    pub closed spec fn self_entry_in_range(&self) -> bool {
        self.self_index < self.server@.len()
    }

    /// Does the list up to `i` lack the identifier, so that the search goes
    /// on behind it?
    proof fn lemma_find_server_step(servers: Seq<ConfigServer>, id: Seq<char>, i: int)
        requires
            0 <= i < servers.len(),
            servers[i].identifier@ != id,
        ensures
            find_server(servers.skip(i), id) == find_server(servers.skip(i + 1), id),
    {
        assert(servers.skip(i).drop_first() =~= servers.skip(i + 1));
        assert(servers.skip(i)[0] == servers[i]);
    }

    /// Resolve a raw fleet description: expand every server, and reject
    /// descriptions with duplicate or ambiguous names or without the
    /// agent's own entry.
    #[verifier::loop_isolation(false)]
    pub fn new_from_raw_config(self_server_identifier: ServerIdentifier, raw: RawConfig) -> (r:
        Result<Config, ConfigError>)
        ensures
            match r {
                Ok(c) => {
                    &&& c.wf()
                    &&& c.spec_servers().len() == raw.server@.len()
                    &&& forall|i: int|
                        0 <= i < raw.server@.len() ==> server_matches_raw(
                            #[trigger] c.spec_servers()[i],
                            raw.server@[i],
                        )
                    &&& c.spec_groups() == raw.group@
                    &&& c.spec_checks() == raw.check
                    &&& c.spec_analyses() == raw.analysis
                    &&& c.spec_self_identifier() == self_server_identifier@
                },
                Err(ConfigError::DuplicateServer) => exists|i: int, j: int|
                    0 <= i < j < raw.server@.len() && raw.server@[i].identifier@
                        == raw.server@[j].identifier@,
                Err(ConfigError::DuplicateGroup) => exists|i: int, j: int|
                    0 <= i < j < raw.group@.len() && raw.group@[i].name@ == raw.group@[j].name@,
                Err(ConfigError::AmbiguousIdentifier) => exists|i: int|
                    0 <= i < raw.server@.len() && has_group(
                        raw.group@,
                        #[trigger] raw.server@[i].identifier@,
                    ),
                Err(ConfigError::SelfNotFound) => forall|i: int|
                    0 <= i < raw.server@.len() ==> #[trigger] raw.server@[i].identifier@
                        != self_server_identifier@,
                _ => false,
            },
    {
        let ghost raw_servers = raw.server@;
        let mut rest = raw.server;
        let mut servers: Vec<ConfigServer> = Vec::new();
        while rest.len() > 0
            invariant
                servers@.len() + rest@.len() == raw_servers.len(),
                rest@ == raw_servers.skip(servers@.len() as int),
                forall|i: int|
                    0 <= i < servers@.len() ==> server_matches_raw(
                        #[trigger] servers@[i],
                        raw_servers[i],
                    ),
            decreases rest@.len(),
        {
            let head = rest.remove(0);
            proof {
                assert(head == raw_servers[servers@.len() as int]);
                assert(rest@ =~= raw_servers.skip(servers@.len() as int + 1));
            }
            servers.push(ConfigServer::from_raw_config_server(head));
        }
        let n = servers.len();

        // Reject a duplicated server identifier.
        let mut i: usize = 0;
        while i < n
            invariant
                0 <= i <= n,
                n == servers@.len(),
                forall|a: int, b: int|
                    0 <= a < b < i ==> servers@[a].identifier@ != servers@[b].identifier@,
            decreases n - i,
        {
            let mut j: usize = 0;
            while j < i
                invariant
                    0 <= j <= i < n,
                    n == servers@.len(),
                    forall|b: int| 0 <= b < j ==> servers@[b].identifier@ != servers@[i as int].identifier@,
                decreases i - j,
            {
                if str_eq(servers[j].identifier.as_str(), servers[i].identifier.as_str()) {
                    proof {
                        assert(server_matches_raw(servers@[j as int], raw_servers[j as int]));
                        assert(server_matches_raw(servers@[i as int], raw_servers[i as int]));
                        assert(raw_servers[j as int].identifier@ == raw_servers[i as int].identifier@);
                    }
                    return Err(ConfigError::DuplicateServer);
                }
                j = j + 1;
            }
            i = i + 1;
        }
        proof {
            assert forall|a: int, b: int|
                0 <= a < b < raw_servers.len() implies raw_servers[a].identifier@
                != raw_servers[b].identifier@ by {
                assert(server_matches_raw(servers@[a], raw_servers[a]));
                assert(server_matches_raw(servers@[b], raw_servers[b]));
            }
        }

        // Reject a duplicated group name.
        let groups = raw.group;
        let g = groups.len();
        let mut i: usize = 0;
        while i < g
            invariant
                0 <= i <= g,
                g == groups@.len(),
                forall|a: int, b: int| 0 <= a < b < i ==> groups@[a].name@ != groups@[b].name@,
            decreases g - i,
        {
            let mut j: usize = 0;
            while j < i
                invariant
                    0 <= j <= i < g,
                    g == groups@.len(),
                    forall|b: int| 0 <= b < j ==> groups@[b].name@ != groups@[i as int].name@,
                decreases i - j,
            {
                if str_eq(groups[j].name.as_str(), groups[i].name.as_str()) {
                    return Err(ConfigError::DuplicateGroup);
                }
                j = j + 1;
            }
            i = i + 1;
        }

        // Reject a name that is both a server and a group.
        let mut i: usize = 0;
        while i < n
            invariant
                0 <= i <= n,
                n == servers@.len(),
                g == groups@.len(),
                forall|a: int| 0 <= a < i ==> !has_group(groups@, #[trigger] servers@[a].identifier@),
            decreases n - i,
        {
            let mut j: usize = 0;
            while j < g
                invariant
                    0 <= j <= g,
                    0 <= i < n,
                    n == servers@.len(),
                    g == groups@.len(),
                    forall|b: int| 0 <= b < j ==> groups@[b].name@ != servers@[i as int].identifier@,
                decreases g - j,
            {
                if str_eq(groups[j].name.as_str(), servers[i].identifier.as_str()) {
                    proof {
                        assert(has_group(groups@, servers@[i as int].identifier@));
                        assert(server_matches_raw(servers@[i as int], raw_servers[i as int]));
                        assert(has_group(raw.group@, raw_servers[i as int].identifier@));
                    }
                    return Err(ConfigError::AmbiguousIdentifier);
                }
                j = j + 1;
            }
            i = i + 1;
        }

        // Find the agent's own entry.
        proof {
            assert(servers@.skip(0) =~= servers@);
        }
        let mut idx: usize = 0;
        while idx < n && !str_eq(servers[idx].identifier.as_str(), self_server_identifier.as_str())
            invariant
                0 <= idx <= n,
                find_server(servers@, self_server_identifier@) == find_server(
                    servers@.skip(idx as int),
                    self_server_identifier@,
                ),
                forall|a: int|
                    0 <= a < idx ==> #[trigger] servers@[a].identifier@ != self_server_identifier@,
            decreases n - idx,
        {
            proof {
                Self::lemma_find_server_step(servers@, self_server_identifier@, idx as int);
            }
            idx = idx + 1;
        }
        if idx >= n {
            proof {
                assert(servers@.skip(idx as int) =~= Seq::<ConfigServer>::empty());
                assert forall|a: int|
                    0 <= a < raw_servers.len() implies #[trigger] raw_servers[a].identifier@
                    != self_server_identifier@ by {
                    assert(server_matches_raw(servers@[a], raw_servers[a]));
                }
            }
            return Err(ConfigError::SelfNotFound);
        }
        proof {
            assert(servers@.skip(idx as int)[0] == servers@[idx as int]);
            assert(find_server(servers@, self_server_identifier@) == Some(servers@[idx as int]));
        }

        Ok(
            Config {
                self_server_identifier,
                self_index: idx,
                server: servers,
                group: groups,
                check: raw.check,
                analysis: raw.analysis,
            },
        )
    }

    /// Is the identifier this server itself, or a group it belongs to?
    pub fn is_server_or_is_in_group(&self, server_or_group_identifier: &str) -> (r: bool)
        requires
            self.wf(),
        ensures
            r == (self.spec_self().identifier@ == server_or_group_identifier@ || in_group(
                self.spec_self(),
                server_or_group_identifier@,
            )),
    {
        let me = &self.server[self.self_index];
        if str_eq(me.identifier.as_str(), server_or_group_identifier) {
            return true;
        }
        vec_contains_str(&me.groups, server_or_group_identifier)
    }

    /// The first declared server of that name, if any.
    pub fn get_server_by_identifier(&self, identifier: &ServerIdentifier) -> (r: Option<
        &ConfigServer,
    >)
        ensures
            match r {
                Some(s) => find_server(self.spec_servers(), identifier@) == Some(*s),
                None => find_server(self.spec_servers(), identifier@) is None,
            },
    {
        let n = self.server.len();
        proof {
            assert(self.server@.skip(0) =~= self.server@);
        }
        let mut i: usize = 0;
        while i < n
            invariant
                0 <= i <= n,
                n == self.server@.len(),
                find_server(self.server@, identifier@) == find_server(
                    self.server@.skip(i as int),
                    identifier@,
                ),
            decreases n - i,
        {
            if str_eq(self.server[i].identifier.as_str(), identifier.as_str()) {
                proof {
                    assert(self.server@.skip(i as int)[0] == self.server@[i as int]);
                }
                return Some(&self.server[i]);
            }
            proof {
                Self::lemma_find_server_step(self.server@, identifier@, i as int);
            }
            i = i + 1;
        }
        proof {
            assert(self.server@.skip(i as int) =~= Seq::<ConfigServer>::empty());
        }
        None
    }

    /// This agent's own entry.
    pub fn get_server_self(&self) -> (r: &ConfigServer)
        requires
            self.wf(),
        ensures
            *r == self.spec_self(),
    {
        &self.server[self.self_index]
    }

    /// Resolve an identifier to endpoints: the server so named, or every
    /// member of the group so named, or nothing.
    #[verifier::loop_isolation(false)]
    pub fn resolve_idents(&self, raw_identifier: &str) -> (r: Result<Vec<Ident>, ConfigError>)
        ensures
            match r {
                Ok(list) => spec_resolve_idents(
                    self.spec_servers(),
                    self.spec_groups(),
                    raw_identifier@,
                ) == Ok::<Seq<Ident>, ConfigError>(list@),
                Err(e) => spec_resolve_idents(
                    self.spec_servers(),
                    self.spec_groups(),
                    raw_identifier@,
                ) == Err::<Seq<Ident>, ConfigError>(e),
            },
    {
        let n = self.server.len();

        // A server of that name wins.
        proof {
            assert(self.server@.skip(0) =~= self.server@);
        }
        let mut i: usize = 0;
        while i < n
            invariant
                0 <= i <= n,
                n == self.server@.len(),
                find_server(self.server@, raw_identifier@) == find_server(
                    self.server@.skip(i as int),
                    raw_identifier@,
                ),
            decreases n - i,
        {
            if str_eq(self.server[i].identifier.as_str(), raw_identifier) {
                proof {
                    assert(self.server@.skip(i as int)[0] == self.server@[i as int]);
                }
                let s = &self.server[i];
                match Ipv4Addr::parse(s.ip.as_str()) {
                    Some(ip) => {
                        let mut list: Vec<Ident> = Vec::new();
                        list.push(Ident { identifier: s.identifier.clone(), ip: AllowIp::V4(ip) });
                        proof {
                            assert(list@ =~= seq![ident_of(self.server@[i as int])]);
                        }
                        return Ok(list);
                    },
                    None => {
                        return Err(ConfigError::InvalidIp);
                    },
                }
            }
            proof {
                Self::lemma_find_server_step(self.server@, raw_identifier@, i as int);
            }
            i = i + 1;
        }
        proof {
            assert(self.server@.skip(i as int) =~= Seq::<ConfigServer>::empty());
        }

        // Then a group of that name.
        let g = self.group.len();
        let mut found_group = false;
        let mut j: usize = 0;
        while j < g
            invariant
                0 <= j <= g,
                g == self.group@.len(),
                found_group ==> has_group(self.group@, raw_identifier@),
                !found_group ==> forall|b: int|
                    0 <= b < j ==> self.group@[b].name@ != raw_identifier@,
            decreases g - j,
        {
            if str_eq(self.group[j].name.as_str(), raw_identifier) {
                found_group = true;
            }
            j = j + 1;
        }
        if !found_group {
            let empty: Vec<Ident> = Vec::new();
            proof {
                assert(empty@ =~= Seq::<Ident>::empty());
            }
            return Ok(empty);
        }

        // Every member of the group, in declaration order.
        let mut list: Vec<Ident> = Vec::new();
        let ghost member_pred = |s: ConfigServer| in_group(s, raw_identifier@);
        proof {
            assert(self.server@.take(0).filter(member_pred) =~= Seq::<ConfigServer>::empty());
            assert(list@ =~= self.server@.take(0).filter(member_pred).map_values(
                |s: ConfigServer| ident_of(s),
            ));
        }
        let mut i: usize = 0;
        while i < n
            invariant
                0 <= i <= n,
                n == self.server@.len(),
                find_server(self.server@, raw_identifier@) is None,
                has_group(self.group@, raw_identifier@),
                member_pred == (|s: ConfigServer| in_group(s, raw_identifier@)),
                all_ips_parse(self.server@.take(i as int).filter(member_pred)),
                list@ == self.server@.take(i as int).filter(member_pred).map_values(
                    |s: ConfigServer| ident_of(s),
                ),
            decreases n - i,
        {
            broadcast use vstd::seq_lib::group_filter_ensures;

            proof {
                assert(self.server@.take(i as int + 1).drop_last() =~= self.server@.take(i as int));
                assert(self.server@.take(i as int + 1) =~= self.server@.take(i as int).push(
                    self.server@[i as int],
                ));
                self.server@.take(i as int).lemma_filter_push(
                    self.server@[i as int],
                    member_pred,
                );
            }
            let s = &self.server[i];
            if vec_contains_str(&s.groups, raw_identifier) {
                proof {
                    assert(member_pred(self.server@[i as int]));
                }
                match Ipv4Addr::parse(s.ip.as_str()) {
                    Some(ip) => {
                        let ghost lv = list@;
                        list.push(Ident { identifier: s.identifier.clone(), ip: AllowIp::V4(ip) });
                        proof {
                            let pre = self.server@.take(i as int).filter(member_pred);
                            let post = self.server@.take(i as int + 1).filter(member_pred);
                            assert(post =~= pre.push(self.server@[i as int]));
                            assert(list@ =~= post.map_values(|s: ConfigServer| ident_of(s)));
                        }
                    },
                    None => {
                        proof {
                            let post = self.server@.take(i as int + 1).filter(member_pred);
                            let full = self.server@.filter(member_pred);
                            assert(post =~= self.server@.take(i as int).filter(member_pred).push(
                                self.server@[i as int],
                            ));
                            let k = post.len() - 1;
                            assert(spec_parse_ipv4(post[k].ip@) is None);
                            Self::lemma_filter_take_prefix(self.server@, member_pred, i as int + 1);
                            assert(full[k] == post[k]);
                            assert(!all_ips_parse(full));
                        }
                        return Err(ConfigError::InvalidIp);
                    },
                }
            } else {
                proof {
                    assert(!member_pred(self.server@[i as int]));
                    assert(self.server@.take(i as int + 1).filter(member_pred) =~= self.server@
                        .take(i as int).filter(member_pred));
                }
            }
            i = i + 1;
        }
        proof {
            assert(self.server@.take(n as int) =~= self.server@);
        }
        Ok(list)
    }

    /// The declared check entries, or none.
    pub open spec fn spec_check_entries(&self) -> Seq<RawConfigCheck> {
        match self.spec_checks() {
            Some(v) => v@,
            None => Seq::empty(),
        }
    }

    /// A resolution failure in a prefix settles the whole list.
    proof fn lemma_checks_err_propagates(
        servers: Seq<ConfigServer>,
        groups: Seq<RawConfigGroup>,
        entries: Seq<RawConfigCheck>,
        k: int,
    )
        requires
            0 <= k <= entries.len(),
            spec_checks_of_entries(servers, groups, entries.take(k)) is Err,
        ensures
            spec_checks_of_entries(servers, groups, entries) == spec_checks_of_entries(
                servers,
                groups,
                entries.take(k),
            ),
        decreases entries.len() - k,
    {
        if k < entries.len() {
            assert(entries.take(k + 1).drop_last() =~= entries.take(k));
            Self::lemma_checks_err_propagates(servers, groups, entries, k + 1);
        } else {
            assert(entries.take(k) =~= entries);
        }
    }

    /// Resolve every declared check to concrete server pairs, keeping the
    /// first record of each route.
    #[verifier::loop_isolation(false)]
    pub fn all_checks(&self) -> (r: Result<Vec<ConfigCheck>, ConfigError>)
        requires
            self.wf(),
        ensures
            match r {
                Ok(list) => spec_checks_of_entries(
                    self.spec_servers(),
                    self.spec_groups(),
                    self.spec_check_entries(),
                ) matches Ok(full) && list@ == dedup_checks(full),
                Err(e) => spec_checks_of_entries(
                    self.spec_servers(),
                    self.spec_groups(),
                    self.spec_check_entries(),
                ) == Err::<Seq<ConfigCheck>, ConfigError>(e),
            },
    {
        let ghost servers = self.spec_servers();
        let ghost groups = self.spec_groups();
        let mut out: Vec<ConfigCheck> = Vec::new();
        let entries: &Vec<RawConfigCheck> = match &self.check {
            Some(v) => v,
            None => {
                proof {
                    assert(self.spec_check_entries() =~= Seq::<RawConfigCheck>::empty());
                    assert(out@ =~= dedup_checks(Seq::<ConfigCheck>::empty()));
                }
                return Ok(out);
            },
        };
        let ne = entries.len();
        let ghost mut full: Seq<ConfigCheck> = Seq::empty();
        let mut ei: usize = 0;
        proof {
            assert(entries@.take(0) =~= Seq::<RawConfigCheck>::empty());
            assert(out@ =~= dedup_checks(full));
        }
        while ei < ne
            invariant
                0 <= ei <= ne,
                spec_checks_of_entries(servers, groups, entries@.take(ei as int)) == Ok::<
                    Seq<ConfigCheck>,
                    ConfigError,
                >(full),
                out@ == dedup_checks(full),
            decreases ne - ei,
        {
            let entry = &entries[ei];
            proof {
                assert(entries@.take(ei as int + 1).drop_last() =~= entries@.take(ei as int));
                assert(entries@.take(ei as int + 1).last() == entries@[ei as int]);
            }
            let froms = match self.resolve_idents(entry.from.as_str()) {
                Ok(v) => v,
                Err(e) => {
                    proof {
                        Self::lemma_checks_err_propagates(servers, groups, entries@, ei as int + 1);
                    }
                    return Err(e);
                },
            };
            let tos = match self.resolve_idents(entry.to.as_str()) {
                Ok(v) => v,
                Err(e) => {
                    proof {
                        Self::lemma_checks_err_propagates(servers, groups, entries@, ei as int + 1);
                    }
                    return Err(e);
                },
            };
            let nf = froms.len();
            let ghost base = full;
            proof {
                assert(checks_for_entry(entries@[ei as int], froms@.take(0), tos@)
                    =~= Seq::<ConfigCheck>::empty());
                assert(full =~= base + checks_for_entry(entries@[ei as int], froms@.take(0), tos@));
            }
            let mut fi: usize = 0;
            while fi < nf
                invariant
                    0 <= fi <= nf,
                    full == base + checks_for_entry(
                        entries@[ei as int],
                        froms@.take(fi as int),
                        tos@,
                    ),
                    out@ == dedup_checks(full),
                decreases nf - fi,
            {
                let nt = tos.len();
                let ghost base2 = full;
                proof {
                    assert(tos@.take(0) =~= Seq::<Ident>::empty());
                    assert(checks_for_from(entries@[ei as int], froms@[fi as int], tos@.take(0))
                        =~= Seq::<ConfigCheck>::empty());
                    assert(full =~= base2 + checks_for_from(
                        entries@[ei as int],
                        froms@[fi as int],
                        tos@.take(0),
                    ));
                }
                let mut ti: usize = 0;
                while ti < nt
                    invariant
                        0 <= ti <= nt,
                        0 <= fi < nf,
                        full == base2 + checks_for_from(
                            entries@[ei as int],
                            froms@[fi as int],
                            tos@.take(ti as int),
                        ),
                        out@ == dedup_checks(full),
                    decreases nt - ti,
                {
                    let c = ConfigCheck {
                        from: froms[fi].clone(),
                        to: tos[ti].clone(),
                        check: entry.check.clone(),
                        http_url: clone_opt_string(&entry.http_url),
                    };
                    let ghost fullp = full.push(c);
                    proof {
                        assert(c == check_of(
                            entries@[ei as int],
                            froms@[fi as int],
                            tos@[ti as int],
                        ));
                        assert(tos@.take(ti as int + 1).drop_last() =~= tos@.take(ti as int));
                        assert(checks_for_from(
                            entries@[ei as int],
                            froms@[fi as int],
                            tos@.take(ti as int + 1),
                        ) =~= checks_for_from(
                            entries@[ei as int],
                            froms@[fi as int],
                            tos@.take(ti as int),
                        ).push(c));
                        assert(fullp.drop_last() =~= full);
                        assert(fullp.last() == c);
                        lemma_dedup_checks_keys(full, c);
                    }
                    if contains_check_key(&out, &c) {
                        proof {
                            assert(has_check_key(full, c));
                            assert(dedup_checks(fullp) == dedup_checks(full));
                            full = fullp;
                            assert(full =~= base2 + checks_for_from(
                                entries@[ei as int],
                                froms@[fi as int],
                                tos@.take(ti as int + 1),
                            ));
                        }
                    } else {
                        let ghost ov = out@;
                        out.push(c);
                        proof {
                            assert(!has_check_key(full, c));
                            assert(dedup_checks(fullp) == dedup_checks(full).push(c));
                            assert(out@ =~= ov.push(c));
                            full = fullp;
                            assert(full =~= base2 + checks_for_from(
                                entries@[ei as int],
                                froms@[fi as int],
                                tos@.take(ti as int + 1),
                            ));
                        }
                    }
                    ti = ti + 1;
                }
                proof {
                    assert(tos@.take(nt as int) =~= tos@);
                    assert(froms@.take(fi as int + 1).drop_last() =~= froms@.take(fi as int));
                    assert(froms@.take(fi as int + 1).last() == froms@[fi as int]);
                    assert(full =~= base + checks_for_entry(
                        entries@[ei as int],
                        froms@.take(fi as int + 1),
                        tos@,
                    ));
                }
                fi = fi + 1;
            }
            proof {
                assert(froms@.take(nf as int) =~= froms@);
                assert(spec_checks_of_entries(servers, groups, entries@.take(ei as int + 1))
                    == Ok::<Seq<ConfigCheck>, ConfigError>(full));
            }
            ei = ei + 1;
        }
        proof {
            assert(entries@.take(ne as int) =~= entries@);
        }
        Ok(out)
    }

    /// The declared analysis entries, or none.
    pub open spec fn spec_analysis_entries(&self) -> Seq<RawConfigAnalysis> {
        match self.spec_analyses() {
            Some(v) => v@,
            None => Seq::empty(),
        }
    }

    /// A resolution failure in a prefix settles the whole list.
    proof fn lemma_analyses_err_propagates(
        servers: Seq<ConfigServer>,
        groups: Seq<RawConfigGroup>,
        entries: Seq<RawConfigAnalysis>,
        k: int,
    )
        requires
            0 <= k <= entries.len(),
            spec_analyses_of_entries(servers, groups, entries.take(k)) is Err,
        ensures
            spec_analyses_of_entries(servers, groups, entries) == spec_analyses_of_entries(
                servers,
                groups,
                entries.take(k),
            ),
        decreases entries.len() - k,
    {
        if k < entries.len() {
            assert(entries.take(k + 1).drop_last() =~= entries.take(k));
            Self::lemma_analyses_err_propagates(servers, groups, entries, k + 1);
        } else {
            assert(entries.take(k) =~= entries);
        }
    }

    /// Resolve every declared analysis to concrete server pairs, keeping
    /// the first record of each named route.
    #[verifier::loop_isolation(false)]
    pub fn all_analyisis(&self) -> (r: Result<Vec<ConfigAnalysis>, ConfigError>)
        requires
            self.wf(),
        ensures
            match r {
                Ok(list) => spec_analyses_of_entries(
                    self.spec_servers(),
                    self.spec_groups(),
                    self.spec_analysis_entries(),
                ) matches Ok(full) && {
                    let ded = dedup_analyses(full);
                    &&& list@.len() == ded.len()
                    &&& forall|i: int|
                        0 <= i < ded.len() ==> analysis_matches(#[trigger] list@[i], ded[i])
                },
                Err(e) => spec_analyses_of_entries(
                    self.spec_servers(),
                    self.spec_groups(),
                    self.spec_analysis_entries(),
                ) == Err::<Seq<ConfigAnalysis>, ConfigError>(e),
            },
    {
        let ghost servers = self.spec_servers();
        let ghost groups = self.spec_groups();
        let mut out: Vec<ConfigAnalysis> = Vec::new();
        let entries: &Vec<RawConfigAnalysis> = match &self.analysis {
            Some(v) => v,
            None => {
                proof {
                    assert(self.spec_analysis_entries() =~= Seq::<RawConfigAnalysis>::empty());
                }
                return Ok(out);
            },
        };
        let ne = entries.len();
        let ghost mut full: Seq<ConfigAnalysis> = Seq::empty();
        let mut ei: usize = 0;
        proof {
            assert(entries@.take(0) =~= Seq::<RawConfigAnalysis>::empty());
            assert(dedup_analyses(full) =~= Seq::<ConfigAnalysis>::empty());
        }
        while ei < ne
            invariant
                0 <= ei <= ne,
                spec_analyses_of_entries(servers, groups, entries@.take(ei as int)) == Ok::<
                    Seq<ConfigAnalysis>,
                    ConfigError,
                >(full),
                out@.len() == dedup_analyses(full).len(),
                forall|i: int|
                    0 <= i < out@.len() ==> analysis_matches(
                        #[trigger] out@[i],
                        dedup_analyses(full)[i],
                    ),
            decreases ne - ei,
        {
            let entry = &entries[ei];
            proof {
                assert(entries@.take(ei as int + 1).drop_last() =~= entries@.take(ei as int));
                assert(entries@.take(ei as int + 1).last() == entries@[ei as int]);
            }
            let froms = match self.resolve_idents(entry.from.as_str()) {
                Ok(v) => v,
                Err(e) => {
                    proof {
                        Self::lemma_analyses_err_propagates(
                            servers,
                            groups,
                            entries@,
                            ei as int + 1,
                        );
                    }
                    return Err(e);
                },
            };
            let tos = match self.resolve_idents(entry.to.as_str()) {
                Ok(v) => v,
                Err(e) => {
                    proof {
                        Self::lemma_analyses_err_propagates(
                            servers,
                            groups,
                            entries@,
                            ei as int + 1,
                        );
                    }
                    return Err(e);
                },
            };
            proof {
                lemma_resolve_idents_exist(servers, groups, entries@[ei as int].from@);
                lemma_resolve_idents_exist(servers, groups, entries@[ei as int].to@);
            }
            let nf = froms.len();
            let ghost base = full;
            proof {
                assert(analyses_for_entry(entries@[ei as int], servers, froms@.take(0), tos@)
                    =~= Seq::<ConfigAnalysis>::empty());
                assert(full =~= base + analyses_for_entry(
                    entries@[ei as int],
                    servers,
                    froms@.take(0),
                    tos@,
                ));
            }
            let mut fi: usize = 0;
            while fi < nf
                invariant
                    0 <= fi <= nf,
                    full == base + analyses_for_entry(
                        entries@[ei as int],
                        servers,
                        froms@.take(fi as int),
                        tos@,
                    ),
                    out@.len() == dedup_analyses(full).len(),
                    forall|i: int|
                        0 <= i < out@.len() ==> analysis_matches(
                            #[trigger] out@[i],
                            dedup_analyses(full)[i],
                        ),
                decreases nf - fi,
            {
                let from_server: &ConfigServer = match self.get_server_by_identifier(
                    &froms[fi].identifier,
                ) {
                    Some(s) => s,
                    None => {
                        // Unreachable: the name was shown to be declared.
                        proof {
                            assert(false);
                        }
                        return Err(ConfigError::InvalidIp);
                    },
                };
                let ghost from_spec = server_named(servers, froms@[fi as int].identifier@);
                proof {
                    assert(find_server(servers, froms@[fi as int].identifier@) == Some(
                        *from_server,
                    ));
                    assert(from_spec == *from_server);
                }
                let nt = tos.len();
                let ghost base2 = full;
                proof {
                    assert(tos@.take(0) =~= Seq::<Ident>::empty());
                    assert(analyses_for_from(
                        entries@[ei as int],
                        servers,
                        from_spec,
                        tos@.take(0),
                    ) =~= Seq::<ConfigAnalysis>::empty());
                    assert(full =~= base2 + analyses_for_from(
                        entries@[ei as int],
                        servers,
                        from_spec,
                        tos@.take(0),
                    ));
                }
                let mut ti: usize = 0;
                while ti < nt
                    invariant
                        0 <= ti <= nt,
                        0 <= fi < nf,
                        full == base2 + analyses_for_from(
                            entries@[ei as int],
                            servers,
                            from_spec,
                            tos@.take(ti as int),
                        ),
                        out@.len() == dedup_analyses(full).len(),
                        forall|i: int|
                            0 <= i < out@.len() ==> analysis_matches(
                                #[trigger] out@[i],
                                dedup_analyses(full)[i],
                            ),
                    decreases nt - ti,
                {
                    let to_server: &ConfigServer = match self.get_server_by_identifier(
                        &tos[ti].identifier,
                    ) {
                        Some(s) => s,
                        None => {
                            proof {
                                assert(false);
                            }
                            return Err(ConfigError::InvalidIp);
                        },
                    };
                    let ghost to_spec = server_named(servers, tos@[ti as int].identifier@);
                    proof {
                        assert(find_server(servers, tos@[ti as int].identifier@) == Some(
                            *to_server,
                        ));
                        assert(to_spec == *to_server);
                    }
                    let c = ConfigAnalysis {
                        name: entry.name.clone(),
                        from: from_server.clone(),
                        to: to_server.clone(),
                        min_loss: entry.min_loss,
                        command: entry.command.clone(),
                    };
                    let ghost cs = analysis_of(entries@[ei as int], from_spec, to_spec);
                    let ghost fullp = full.push(cs);
                    proof {
                        assert(analysis_matches(c, cs));
                        assert(tos@.take(ti as int + 1).drop_last() =~= tos@.take(ti as int));
                        assert(analyses_for_from(
                            entries@[ei as int],
                            servers,
                            from_spec,
                            tos@.take(ti as int + 1),
                        ) =~= analyses_for_from(
                            entries@[ei as int],
                            servers,
                            from_spec,
                            tos@.take(ti as int),
                        ).push(cs));
                        assert(fullp.drop_last() =~= full);
                        assert(fullp.last() == cs);
                        lemma_dedup_analyses_keys(full, cs);
                        lemma_matching_analysis_keys(out@, dedup_analyses(full), c, cs);
                    }
                    if contains_analysis_key(&out, &c) {
                        proof {
                            assert(has_analysis_key(full, cs));
                            assert(dedup_analyses(fullp) == dedup_analyses(full));
                            full = fullp;
                            assert(full =~= base2 + analyses_for_from(
                                entries@[ei as int],
                                servers,
                                from_spec,
                                tos@.take(ti as int + 1),
                            ));
                        }
                    } else {
                        let ghost ov = out@;
                        out.push(c);
                        proof {
                            assert(!has_analysis_key(full, cs));
                            assert(dedup_analyses(fullp) == dedup_analyses(full).push(cs));
                            assert(out@ =~= ov.push(c));
                            full = fullp;
                            assert(full =~= base2 + analyses_for_from(
                                entries@[ei as int],
                                servers,
                                from_spec,
                                tos@.take(ti as int + 1),
                            ));
                        }
                    }
                    ti = ti + 1;
                }
                proof {
                    assert(tos@.take(nt as int) =~= tos@);
                    assert(froms@.take(fi as int + 1).drop_last() =~= froms@.take(fi as int));
                    assert(froms@.take(fi as int + 1).last() == froms@[fi as int]);
                    assert(full =~= base + analyses_for_entry(
                        entries@[ei as int],
                        servers,
                        froms@.take(fi as int + 1),
                        tos@,
                    ));
                }
                fi = fi + 1;
            }
            proof {
                assert(froms@.take(nf as int) =~= froms@);
                assert(spec_analyses_of_entries(servers, groups, entries@.take(ei as int + 1))
                    == Ok::<Seq<ConfigAnalysis>, ConfigError>(full));
            }
            ei = ei + 1;
        }
        proof {
            assert(entries@.take(ne as int) =~= entries@);
        }
        Ok(out)
    }

    /// Filtering a prefix gives a prefix of the filtered whole.
    proof fn lemma_filter_take_prefix(
        s: Seq<ConfigServer>,
        pred: spec_fn(ConfigServer) -> bool,
        i: int,
    )
        requires
            0 <= i <= s.len(),
        ensures
            s.take(i).filter(pred).len() <= s.filter(pred).len(),
            forall|k: int|
                0 <= k < s.take(i).filter(pred).len() ==> s.filter(pred)[k] == #[trigger] s.take(
                    i,
                ).filter(pred)[k],
        decreases s.len() - i,
    {
        broadcast use vstd::seq_lib::group_filter_ensures;

        if i == s.len() {
            assert(s.take(i) =~= s);
        } else {
            assert(s.take(i + 1) =~= s.take(i).push(s[i]));
            s.take(i).lemma_filter_push(s[i], pred);
            Self::lemma_filter_take_prefix(s, pred, i + 1);
            let fi = s.take(i).filter(pred);
            let fi1 = s.take(i + 1).filter(pred);
            assert(fi1 == (if pred(s[i]) {
                fi.push(s[i])
            } else {
                fi
            }));
            assert forall|k: int| 0 <= k < fi.len() implies s.filter(pred)[k] == fi[k] by {
                assert(fi1[k] == fi[k]);
                assert(s.filter(pred)[k] == fi1[k]);
            }
        }
    }
}

/// One resolved check record for an entry and two endpoints.
pub open spec fn check_of(entry: RawConfigCheck, f: Ident, t: Ident) -> ConfigCheck {
    ConfigCheck { from: f, to: t, check: entry.check, http_url: entry.http_url }
}

/// The checks one entry and one `from` endpoint yield, in `to` order.
pub open spec fn checks_for_from(entry: RawConfigCheck, f: Ident, tos: Seq<Ident>) -> Seq<
    ConfigCheck,
> {
    tos.map_values(|t: Ident| check_of(entry, f, t))
}

/// The checks one entry yields, `from`-major.
pub open spec fn checks_for_entry(entry: RawConfigCheck, froms: Seq<Ident>, tos: Seq<Ident>) -> Seq<
    ConfigCheck,
>
    decreases froms.len(),
{
    if froms.len() == 0 {
        Seq::empty()
    } else {
        checks_for_entry(entry, froms.drop_last(), tos) + checks_for_from(
            entry,
            froms.last(),
            tos,
        )
    }
}

/// Every check of every entry, in declaration order; the first resolution
/// failure wins.
pub open spec fn spec_checks_of_entries(
    servers: Seq<ConfigServer>,
    groups: Seq<RawConfigGroup>,
    entries: Seq<RawConfigCheck>,
) -> Result<Seq<ConfigCheck>, ConfigError>
    decreases entries.len(),
{
    if entries.len() == 0 {
        Ok(Seq::empty())
    } else {
        match spec_checks_of_entries(servers, groups, entries.drop_last()) {
            Err(e) => Err(e),
            Ok(prev) => {
                let entry = entries.last();
                match spec_resolve_idents(servers, groups, entry.from@) {
                    Err(e) => Err(e),
                    Ok(froms) => match spec_resolve_idents(servers, groups, entry.to@) {
                        Err(e) => Err(e),
                        Ok(tos) => Ok(prev + checks_for_entry(entry, froms, tos)),
                    },
                }
            },
        }
    }
}

/// Do two check records name the same route, kind and target?
pub open spec fn check_key_matches(a: ConfigCheck, b: ConfigCheck) -> bool {
    &&& a.from.identifier@ == b.from.identifier@
    &&& a.to.identifier@ == b.to.identifier@
    &&& a.check@ == b.check@
    &&& opt_str_eq(a.http_url, b.http_url)
}

/// Does some record in the list share this record's key?
pub open spec fn has_check_key(s: Seq<ConfigCheck>, c: ConfigCheck) -> bool {
    exists|i: int| 0 <= i < s.len() && check_key_matches(s[i], c)
}

/// The list with every record dropped whose key occurred earlier.
pub open spec fn dedup_checks(s: Seq<ConfigCheck>) -> Seq<ConfigCheck>
    decreases s.len(),
{
    if s.len() == 0 {
        Seq::empty()
    } else {
        let prev = dedup_checks(s.drop_last());
        if has_check_key(s.drop_last(), s.last()) {
            prev
        } else {
            prev.push(s.last())
        }
    }
}

/// Dropping later duplicates keeps exactly the keys.
proof fn lemma_dedup_checks_keys(s: Seq<ConfigCheck>, c: ConfigCheck)
    ensures
        has_check_key(dedup_checks(s), c) == has_check_key(s, c),
    decreases s.len(),
{
    if s.len() > 0 {
        let last = s.last();
        let dl = s.drop_last();
        let prev = dedup_checks(dl);
        lemma_dedup_checks_keys(dl, c);
        if has_check_key(dl, last) {
            assert(dedup_checks(s) == prev);
            if has_check_key(s, c) {
                let i = choose|i: int| 0 <= i < s.len() && check_key_matches(s[i], c);
                if i == s.len() - 1 {
                    let j = choose|j: int|
                        0 <= j < dl.len() && check_key_matches(dl[j], last);
                    assert(check_key_matches(dl[j], c));
                    assert(has_check_key(dl, c));
                } else {
                    assert(dl[i] == s[i]);
                    assert(has_check_key(dl, c));
                }
            }
            if has_check_key(prev, c) {
                assert(has_check_key(dl, c));
                let j = choose|j: int| 0 <= j < dl.len() && check_key_matches(dl[j], c);
                assert(s[j] == dl[j]);
                assert(has_check_key(s, c));
            }
        } else {
            let d = prev.push(last);
            assert(dedup_checks(s) == d);
            if has_check_key(s, c) {
                let i = choose|i: int| 0 <= i < s.len() && check_key_matches(s[i], c);
                if i == s.len() - 1 {
                    assert(check_key_matches(d[d.len() - 1], c));
                    assert(has_check_key(d, c));
                } else {
                    assert(dl[i] == s[i]);
                    assert(has_check_key(dl, c));
                    let j = choose|j: int|
                        0 <= j < prev.len() && check_key_matches(prev[j], c);
                    assert(d[j] == prev[j]);
                    assert(has_check_key(d, c));
                }
            }
            if has_check_key(d, c) {
                let i = choose|i: int| 0 <= i < d.len() && check_key_matches(d[i], c);
                if i < prev.len() {
                    assert(prev[i] == d[i]);
                    assert(has_check_key(prev, c));
                    assert(has_check_key(dl, c));
                    let j = choose|j: int| 0 <= j < dl.len() && check_key_matches(dl[j], c);
                    assert(s[j] == dl[j]);
                    assert(has_check_key(s, c));
                } else {
                    assert(d[i] == last);
                    assert(check_key_matches(s[s.len() - 1], c));
                    assert(has_check_key(s, c));
                }
            }
        }
    }
}

/// Field-for-field sameness of two servers, by text.
pub open spec fn server_content_eq(a: ConfigServer, b: ConfigServer) -> bool {
    &&& a.identifier@ == b.identifier@
    &&& opt_str_eq(a.datacenter, b.datacenter)
    &&& a.datacenter_as_entries.deep_view() == b.datacenter_as_entries.deep_view()
    &&& a.ip@ == b.ip@
    &&& a.groups.deep_view() == b.groups.deep_view()
    &&& a.serverdensity_udp_agent == b.serverdensity_udp_agent
    &&& opt_str_eq(a.extra1, b.extra1)
    &&& opt_str_eq(a.extra2, b.extra2)
    &&& opt_str_eq(a.extra3, b.extra3)
}

impl Clone for ConfigServer {
    /// A copy equal in every field's text.
    fn clone(&self) -> (r: Self)
        ensures
            server_content_eq(r, *self),
    {
        let entries = self.datacenter_as_entries.clone();
        let groups = self.groups.clone();
        proof {
            assert(entries@ =~= self.datacenter_as_entries@);
            assert(entries.deep_view() =~= self.datacenter_as_entries.deep_view());
            assert(groups@ =~= self.groups@);
            assert(groups.deep_view() =~= self.groups.deep_view());
        }
        ConfigServer {
            identifier: self.identifier.clone(),
            datacenter: clone_opt_string(&self.datacenter),
            datacenter_as_entries: entries,
            ip: self.ip.clone(),
            groups,
            serverdensity_udp_agent: self.serverdensity_udp_agent,
            extra1: clone_opt_string(&self.extra1),
            extra2: clone_opt_string(&self.extra2),
            extra3: clone_opt_string(&self.extra3),
        }
    }
}

/// The declared server an endpoint names; meaningful when one exists.
pub open spec fn server_named(servers: Seq<ConfigServer>, id: Seq<char>) -> ConfigServer {
    choose|s: ConfigServer| find_server(servers, id) == Some(s)
}

/// One resolved analysis record.
pub open spec fn analysis_of(
    entry: RawConfigAnalysis,
    f: ConfigServer,
    t: ConfigServer,
) -> ConfigAnalysis {
    ConfigAnalysis {
        name: entry.name,
        from: f,
        to: t,
        min_loss: entry.min_loss,
        command: entry.command,
    }
}

/// The analyses one entry and one `from` server yield, in `to` order.
pub open spec fn analyses_for_from(
    entry: RawConfigAnalysis,
    servers: Seq<ConfigServer>,
    f: ConfigServer,
    tos: Seq<Ident>,
) -> Seq<ConfigAnalysis> {
    tos.map_values(|t: Ident| analysis_of(entry, f, server_named(servers, t.identifier@)))
}

/// The analyses one entry yields, `from`-major.
pub open spec fn analyses_for_entry(
    entry: RawConfigAnalysis,
    servers: Seq<ConfigServer>,
    froms: Seq<Ident>,
    tos: Seq<Ident>,
) -> Seq<ConfigAnalysis>
    decreases froms.len(),
{
    if froms.len() == 0 {
        Seq::empty()
    } else {
        analyses_for_entry(entry, servers, froms.drop_last(), tos) + analyses_for_from(
            entry,
            servers,
            server_named(servers, froms.last().identifier@),
            tos,
        )
    }
}

/// Every analysis of every entry, in declaration order; the first
/// resolution failure wins.
pub open spec fn spec_analyses_of_entries(
    servers: Seq<ConfigServer>,
    groups: Seq<RawConfigGroup>,
    entries: Seq<RawConfigAnalysis>,
) -> Result<Seq<ConfigAnalysis>, ConfigError>
    decreases entries.len(),
{
    if entries.len() == 0 {
        Ok(Seq::empty())
    } else {
        match spec_analyses_of_entries(servers, groups, entries.drop_last()) {
            Err(e) => Err(e),
            Ok(prev) => {
                let entry = entries.last();
                match spec_resolve_idents(servers, groups, entry.from@) {
                    Err(e) => Err(e),
                    Ok(froms) => match spec_resolve_idents(servers, groups, entry.to@) {
                        Err(e) => Err(e),
                        Ok(tos) => Ok(prev + analyses_for_entry(entry, servers, froms, tos)),
                    },
                }
            },
        }
    }
}

/// Do two analysis records name the same analysis of the same route?
pub open spec fn analysis_key_matches(a: ConfigAnalysis, b: ConfigAnalysis) -> bool {
    &&& a.from.identifier@ == b.from.identifier@
    &&& a.to.identifier@ == b.to.identifier@
    &&& a.name@ == b.name@
}

/// Does some record in the list share this record's key?
pub open spec fn has_analysis_key(s: Seq<ConfigAnalysis>, c: ConfigAnalysis) -> bool {
    exists|i: int| 0 <= i < s.len() && analysis_key_matches(s[i], c)
}

/// The list with every record dropped whose key occurred earlier.
pub open spec fn dedup_analyses(s: Seq<ConfigAnalysis>) -> Seq<ConfigAnalysis>
    decreases s.len(),
{
    if s.len() == 0 {
        Seq::empty()
    } else {
        let prev = dedup_analyses(s.drop_last());
        if has_analysis_key(s.drop_last(), s.last()) {
            prev
        } else {
            prev.push(s.last())
        }
    }
}

/// Dropping later duplicates keeps exactly the keys.
proof fn lemma_dedup_analyses_keys(s: Seq<ConfigAnalysis>, c: ConfigAnalysis)
    ensures
        has_analysis_key(dedup_analyses(s), c) == has_analysis_key(s, c),
    decreases s.len(),
{
    if s.len() > 0 {
        let last = s.last();
        let dl = s.drop_last();
        let prev = dedup_analyses(dl);
        lemma_dedup_analyses_keys(dl, c);
        if has_analysis_key(dl, last) {
            assert(dedup_analyses(s) == prev);
            if has_analysis_key(s, c) {
                let i = choose|i: int| 0 <= i < s.len() && analysis_key_matches(s[i], c);
                if i == s.len() - 1 {
                    let j = choose|j: int|
                        0 <= j < dl.len() && analysis_key_matches(dl[j], last);
                    assert(analysis_key_matches(dl[j], c));
                    assert(has_analysis_key(dl, c));
                } else {
                    assert(dl[i] == s[i]);
                    assert(has_analysis_key(dl, c));
                }
            }
            if has_analysis_key(prev, c) {
                assert(has_analysis_key(dl, c));
                let j = choose|j: int| 0 <= j < dl.len() && analysis_key_matches(dl[j], c);
                assert(s[j] == dl[j]);
                assert(has_analysis_key(s, c));
            }
        } else {
            let d = prev.push(last);
            assert(dedup_analyses(s) == d);
            if has_analysis_key(s, c) {
                let i = choose|i: int| 0 <= i < s.len() && analysis_key_matches(s[i], c);
                if i == s.len() - 1 {
                    assert(analysis_key_matches(d[d.len() - 1], c));
                    assert(has_analysis_key(d, c));
                } else {
                    assert(dl[i] == s[i]);
                    assert(has_analysis_key(dl, c));
                    let j = choose|j: int|
                        0 <= j < prev.len() && analysis_key_matches(prev[j], c);
                    assert(d[j] == prev[j]);
                    assert(has_analysis_key(d, c));
                }
            }
            if has_analysis_key(d, c) {
                let i = choose|i: int| 0 <= i < d.len() && analysis_key_matches(d[i], c);
                if i < prev.len() {
                    assert(prev[i] == d[i]);
                    assert(has_analysis_key(prev, c));
                    assert(has_analysis_key(dl, c));
                    let j = choose|j: int| 0 <= j < dl.len() && analysis_key_matches(dl[j], c);
                    assert(s[j] == dl[j]);
                    assert(has_analysis_key(s, c));
                } else {
                    assert(d[i] == last);
                    assert(analysis_key_matches(s[s.len() - 1], c));
                    assert(has_analysis_key(s, c));
                }
            }
        }
    }
}

/// Record sameness: same declaration data, servers the same by text.
pub open spec fn analysis_matches(a: ConfigAnalysis, b: ConfigAnalysis) -> bool {
    &&& a.name@ == b.name@
    &&& server_content_eq(a.from, b.from)
    &&& server_content_eq(a.to, b.to)
    &&& a.min_loss == b.min_loss
    &&& a.command@ == b.command@
}

/// Lists that match record for record hold the same keys.
proof fn lemma_matching_analysis_keys(
    a: Seq<ConfigAnalysis>,
    b: Seq<ConfigAnalysis>,
    c: ConfigAnalysis,
    cs: ConfigAnalysis,
)
    requires
        a.len() == b.len(),
        forall|i: int| 0 <= i < a.len() ==> analysis_matches(#[trigger] a[i], b[i]),
        analysis_matches(c, cs),
    ensures
        has_analysis_key(a, c) == has_analysis_key(b, cs),
{
    if has_analysis_key(a, c) {
        let i = choose|i: int| 0 <= i < a.len() && analysis_key_matches(a[i], c);
        assert(analysis_matches(a[i], b[i]));
        assert(analysis_key_matches(b[i], cs));
        assert(has_analysis_key(b, cs));
    }
    if has_analysis_key(b, cs) {
        let i = choose|i: int| 0 <= i < b.len() && analysis_key_matches(b[i], cs);
        assert(analysis_matches(a[i], b[i]));
        assert(analysis_key_matches(a[i], c));
        assert(has_analysis_key(a, c));
    }
}

/// Every element of a filtered list stands in the list.
proof fn lemma_filter_elems_from(s: Seq<ConfigServer>, pred: spec_fn(ConfigServer) -> bool, k: int)
    requires
        0 <= k < s.filter(pred).len(),
    ensures
        exists|j: int| 0 <= j < s.len() && s[j] == s.filter(pred)[k],
    decreases s.len(),
{
    broadcast use vstd::seq_lib::group_filter_ensures;

    if s.len() > 0 {
        let dl = s.drop_last();
        assert(dl.push(s.last()) =~= s);
        dl.lemma_filter_push(s.last(), pred);
        if pred(s.last()) {
            assert(s.filter(pred) == dl.filter(pred).push(s.last()));
            if k < dl.filter(pred).len() {
                lemma_filter_elems_from(dl, pred, k);
                let j = choose|j: int| 0 <= j < dl.len() && dl[j] == dl.filter(pred)[k];
                assert(s[j] == dl[j]);
            } else {
                assert(s.filter(pred)[k] == s.last());
                assert(s[s.len() - 1] == s.last());
            }
        } else {
            assert(s.filter(pred) == dl.filter(pred));
            lemma_filter_elems_from(dl, pred, k);
            let j = choose|j: int| 0 <= j < dl.len() && dl[j] == dl.filter(pred)[k];
            assert(s[j] == dl[j]);
        }
    }
}

/// A search for a present identifier succeeds.
proof fn lemma_find_server_exists(servers: Seq<ConfigServer>, id: Seq<char>)
    requires
        exists|k: int| 0 <= k < servers.len() && #[trigger] servers[k].identifier@ == id,
    ensures
        find_server(servers, id) is Some,
    decreases servers.len(),
{
    if servers.len() > 0 && servers[0].identifier@ != id {
        let k = choose|k: int| 0 <= k < servers.len() && #[trigger] servers[k].identifier@ == id;
        assert(servers.drop_first()[k - 1] == servers[k]);
        lemma_find_server_exists(servers.drop_first(), id);
    }
}

/// A found server bears the identifier it was found by.
proof fn lemma_find_server_id(servers: Seq<ConfigServer>, id: Seq<char>)
    requires
        find_server(servers, id) is Some,
    ensures
        exists|k: int|
            0 <= k < servers.len() && servers[k] == find_server(servers, id).unwrap(),
        find_server(servers, id).unwrap().identifier@ == id,
    decreases servers.len(),
{
    if servers.len() > 0 && servers[0].identifier@ != id {
        lemma_find_server_id(servers.drop_first(), id);
        let k = choose|k: int|
            0 <= k < servers.drop_first().len() && servers.drop_first()[k] == find_server(
                servers.drop_first(),
                id,
            ).unwrap();
        assert(servers[k + 1] == servers.drop_first()[k]);
    }
}

/// Every endpoint a resolution yields names a declared server.
proof fn lemma_resolve_idents_exist(
    servers: Seq<ConfigServer>,
    groups: Seq<RawConfigGroup>,
    id: Seq<char>,
)
    requires
        spec_resolve_idents(servers, groups, id) is Ok,
    ensures
        forall|k: int|
            0 <= k < spec_resolve_idents(servers, groups, id).unwrap().len()
                ==> find_server(
                servers,
                #[trigger] spec_resolve_idents(servers, groups, id).unwrap()[k].identifier@,
            ) is Some,
{
    let list = spec_resolve_idents(servers, groups, id).unwrap();
    match find_server(servers, id) {
        Some(s) => {
            lemma_find_server_id(servers, id);
            assert(list[0] == ident_of(s));
            assert(ident_of(s).identifier == s.identifier);
            assert(find_server(servers, s.identifier@) is Some);
        },
        None => {
            if has_group(groups, id) {
                let members = group_members(servers, id);
                assert forall|k: int|
                    0 <= k < list.len() implies find_server(
                    servers,
                    #[trigger] list[k].identifier@,
                ) is Some by {
                    assert(list[k] == ident_of(members[k]));
                    assert(list[k].identifier == members[k].identifier);
                    lemma_filter_elems_from(
                        servers,
                        |s: ConfigServer| in_group(s, id),
                        k,
                    );
                    let j = choose|j: int|
                        0 <= j < servers.len() && servers[j] == members[k];
                    assert(servers[j].identifier@ == list[k].identifier@);
                    lemma_find_server_exists(servers, list[k].identifier@);
                }
            }
        },
    }
}

/// Does the list hold a record with this record's key?
fn contains_analysis_key(list: &Vec<ConfigAnalysis>, c: &ConfigAnalysis) -> (r: bool)
    ensures
        r == has_analysis_key(list@, *c),
{
    let n = list.len();
    let mut i: usize = 0;
    while i < n
        invariant
            0 <= i <= n,
            n == list@.len(),
            forall|k: int| 0 <= k < i ==> !analysis_key_matches(#[trigger] list@[k], *c),
        decreases n - i,
    {
        let e = &list[i];
        if str_eq(e.from.identifier.as_str(), c.from.identifier.as_str()) && str_eq(
            e.to.identifier.as_str(),
            c.to.identifier.as_str(),
        ) && str_eq(e.name.as_str(), c.name.as_str()) {
            return true;
        }
        i = i + 1;
    }
    false
}

impl Clone for AllowIp {
    /// An exact copy.
    fn clone(&self) -> (r: Self)
        ensures
            r == *self,
    {
        match self {
            AllowIp::V4(ip) => AllowIp::V4(*ip),
            AllowIp::V6(v) => AllowIp::V6(v.clone()),
        }
    }
}

impl Clone for Ident {
    /// An exact copy.
    fn clone(&self) -> (r: Self)
        ensures
            r == *self,
    {
        Ident { identifier: self.identifier.clone(), ip: self.ip.clone() }
    }
}

/// An exact copy of an optional string.
pub fn clone_opt_string(o: &Option<String>) -> (r: Option<String>)
    ensures
        r == *o,
{
    match o {
        Some(s) => Some(s.clone()),
        None => None,
    }
}

/// Text equality of two optional strings.
pub fn opt_str_eq_exec(a: &Option<String>, b: &Option<String>) -> (r: bool)
    ensures
        r == opt_str_eq(*a, *b),
{
    match (a, b) {
        (Some(x), Some(y)) => str_eq(x.as_str(), y.as_str()),
        (None, None) => true,
        _ => false,
    }
}

/// Does the list hold a record with this record's key?
fn contains_check_key(list: &Vec<ConfigCheck>, c: &ConfigCheck) -> (r: bool)
    ensures
        r == has_check_key(list@, *c),
{
    let n = list.len();
    let mut i: usize = 0;
    while i < n
        invariant
            0 <= i <= n,
            n == list@.len(),
            forall|k: int| 0 <= k < i ==> !check_key_matches(#[trigger] list@[k], *c),
        decreases n - i,
    {
        let e = &list[i];
        if str_eq(e.from.identifier.as_str(), c.from.identifier.as_str()) && str_eq(
            e.to.identifier.as_str(),
            c.to.identifier.as_str(),
        ) && str_eq(e.check.as_str(), c.check.as_str()) && opt_str_eq_exec(
            &e.http_url,
            &c.http_url,
        ) {
            return true;
        }
        i = i + 1;
    }
    false
}

/// Does the list hold a string with this text?
pub fn vec_contains_str(v: &Vec<String>, s: &str) -> (r: bool)
    ensures
        r == (exists|i: int| 0 <= i < v@.len() && #[trigger] v@[i]@ == s@),
{
    let n = v.len();
    let mut i: usize = 0;
    while i < n
        invariant
            0 <= i <= n,
            n == v@.len(),
            forall|k: int| 0 <= k < i ==> #[trigger] v@[k]@ != s@,
        decreases n - i,
    {
        if str_eq(v[i].as_str(), s) {
            return true;
        }
        i = i + 1;
    }
    false
}

} // verus!
