//! The reactive-analysis engine: the per-route policy that decides when a
//! diagnostic runs, the single-flight runner state, the command template
//! expansion, and the naming of report files.

use vstd::prelude::*;
use crate::analyzer::sat_add;
use crate::analyzer_event::UdpEchoAnalyzerEventServer;
use crate::config::ConfigAnalysis;
use crate::text::{push_char, replace_str, spec_replace};

verus! {

/// Warm-up before the first diagnostic may start, in microseconds.
pub const ANALYSIS_WARMUP_MICROS: u64 = 20000000;

/// Rest between two diagnostic starts on one route, in microseconds.
pub const ANALYSIS_COOLDOWN_MICROS: u64 = 120000000;

/// The last second chrono can place in year 9999.
pub const MAX_STAMP_SECS: u64 = 253402300799;

/// What the policy does with one matching aggregate.
#[derive(Debug, Clone, Copy, PartialEq, Eq, Structural)]
pub enum AnalysisDecision {
    /// Another route, or loss under the threshold: not this policy's
    /// business.
    Ignore,
    /// Within the cooldown window: skip, the cooldown stands.
    SkipCooldown,
    /// The maintenance gate is on: skip, the cooldown stands.
    SkipMaintenance,
    /// Ask the runner to start, and rest for the cooldown window.
    Start,
}

/// The loss an aggregate reports: unanswered probes.
pub open spec fn spec_loss(ev: UdpEchoAnalyzerEventServer) -> u64 {
    if ev.resp_count <= ev.req_count {
        (ev.req_count - ev.resp_count) as u64
    } else {
        0
    }
}

/// Is the aggregate this route's, with loss at or above the threshold?
pub open spec fn spec_event_triggers(cfg: ConfigAnalysis, ev: UdpEchoAnalyzerEventServer) -> bool {
    &&& ev.server_to@ == cfg.to.identifier@
    &&& ev.server_from@ == cfg.from.identifier@
    &&& spec_loss(ev) >= cfg.min_loss as u64
}

/// The decision the policy takes, in order: route and threshold, then
/// cooldown, then maintenance, then start.
pub open spec fn spec_analysis_decision(
    cfg: ConfigAnalysis,
    cooldown_until: u64,
    ev: UdpEchoAnalyzerEventServer,
    now: u64,
    maintenance_active: bool,
) -> AnalysisDecision {
    if !spec_event_triggers(cfg, ev) {
        AnalysisDecision::Ignore
    } else if now < cooldown_until {
        AnalysisDecision::SkipCooldown
    } else if maintenance_active {
        AnalysisDecision::SkipMaintenance
    } else {
        AnalysisDecision::Start
    }
}

/// The per-route policy: which analysis it serves and when it may next
/// start a diagnostic.
pub struct AnalyzerEventSubscriberAnalysis {
    config_analysis: ConfigAnalysis,
    do_not_collect_until: u64,
}

impl AnalyzerEventSubscriberAnalysis {
    /// The analysis this policy serves.
    pub closed spec fn spec_config(&self) -> ConfigAnalysis {
        self.config_analysis
    }

    /// No diagnostic starts before this instant.
    pub closed spec fn spec_cooldown_until(&self) -> u64 {
        self.do_not_collect_until
    }

    /// A fresh policy: the warm-up window starts now.
    pub fn new(config_analysis: ConfigAnalysis, now: u64) -> (r: Self)
        ensures
            r.spec_config() == config_analysis,
            r.spec_cooldown_until() == sat_add(now, ANALYSIS_WARMUP_MICROS),
    {
        AnalyzerEventSubscriberAnalysis {
            config_analysis,
            do_not_collect_until: now.saturating_add(ANALYSIS_WARMUP_MICROS),
        }
    }

    /// Judge one per-peer aggregate: on this route, sustained loss starts
    /// a diagnostic unless the cooldown or the maintenance gate forbids
    /// it. Only a start advances the cooldown.
    pub fn on_udp_echo_analyzer_event_server(
        &mut self,
        event: &UdpEchoAnalyzerEventServer,
        now: u64,
        maintenance_active: bool,
    ) -> (r: AnalysisDecision)
        ensures
            r == spec_analysis_decision(
                old(self).spec_config(),
                old(self).spec_cooldown_until(),
                *event,
                now,
                maintenance_active,
            ),
            final(self).spec_config() == old(self).spec_config(),
            final(self).spec_cooldown_until() == (if r == AnalysisDecision::Start {
                sat_add(now, ANALYSIS_COOLDOWN_MICROS)
            } else {
                old(self).spec_cooldown_until()
            }),
    {
        if !crate::text::str_eq(
            event.server_to.as_str(),
            self.config_analysis.to.identifier.as_str(),
        ) {
            return AnalysisDecision::Ignore;
        }
        if !crate::text::str_eq(
            event.server_from.as_str(),
            self.config_analysis.from.identifier.as_str(),
        ) {
            return AnalysisDecision::Ignore;
        }
        let loss: u64 = if event.resp_count <= event.req_count {
            event.req_count - event.resp_count
        } else {
            0
        };
        if loss < self.config_analysis.min_loss as u64 {
            return AnalysisDecision::Ignore;
        }
        if now < self.do_not_collect_until {
            return AnalysisDecision::SkipCooldown;
        }
        if maintenance_active {
            return AnalysisDecision::SkipMaintenance;
        }
        self.do_not_collect_until = now.saturating_add(ANALYSIS_COOLDOWN_MICROS);
        AnalysisDecision::Start
    }
}

/// Two starts on one route lie at least the cooldown window apart: after
/// a start at `t1`, a second start can only be judged at a `t2` past the
/// full window.
pub proof fn lemma_successive_starts_apart(
    cfg: ConfigAnalysis,
    cooldown0: u64,
    ev1: UdpEchoAnalyzerEventServer,
    t1: u64,
    m1: bool,
    ev2: UdpEchoAnalyzerEventServer,
    t2: u64,
    m2: bool,
)
    requires
        t1 + ANALYSIS_COOLDOWN_MICROS <= u64::MAX,
        spec_analysis_decision(cfg, cooldown0, ev1, t1, m1) == AnalysisDecision::Start,
        spec_analysis_decision(
            cfg,
            sat_add(t1, ANALYSIS_COOLDOWN_MICROS),
            ev2,
            t2,
            m2,
        ) == AnalysisDecision::Start,
    ensures
        t2 >= t1 + ANALYSIS_COOLDOWN_MICROS,
{
}

/// The single-flight runner: idle, or one run in progress with its start
/// time and the output captured so far.
pub enum ExecuteAnalysisCommandState {
    Idle,
    Running { started_micros: u64, content: Vec<u8> },
}

/// Does a start request spawn a subprocess: only when nothing runs.
pub open spec fn spec_notify_spawns(st: ExecuteAnalysisCommandState) -> bool {
    st is Idle
}

impl ExecuteAnalysisCommandState {
    /// The runner starts idle.
    pub fn new() -> (r: Self)
        ensures
            r is Idle,
    {
        ExecuteAnalysisCommandState::Idle
    }

    /// A start request. Single-flight: a subprocess is spawned exactly
    /// when the runner is idle; a start request during a run changes
    /// nothing.
    pub fn on_notify(self, now: u64) -> (r: (Self, bool))
        ensures
            r.1 == spec_notify_spawns(self),
            self is Idle ==> (r.0 matches ExecuteAnalysisCommandState::Running {
                started_micros: s,
                content: c,
            } && s == now && c@ == Seq::<u8>::empty()),
            self is Running ==> r.0 == self,
    {
        match self {
            ExecuteAnalysisCommandState::Idle => {
                let fresh: Vec<u8> = Vec::new();
                proof {
                    assert(fresh@ =~= Seq::<u8>::empty());
                }
                (
                    ExecuteAnalysisCommandState::Running {
                        started_micros: now,
                        content: fresh,
                    },
                    true,
                )
            },
            _ => (self, false),
        }
    }

    /// A chunk of subprocess output, appended in arrival order; output
    /// with no run in progress is dropped.
    pub fn on_cli_output(self, chunk: &[u8]) -> (r: Self)
        ensures
            match self {
                ExecuteAnalysisCommandState::Running { started_micros, content } => (r matches
                    ExecuteAnalysisCommandState::Running {
                    started_micros: s2,
                    content: c2,
                } && s2 == started_micros && c2@ == content@ + chunk@),
                ExecuteAnalysisCommandState::Idle => r is Idle,
            },
    {
        match self {
            ExecuteAnalysisCommandState::Running { started_micros, mut content } => {
                let ghost c0 = content@;
                content.extend_from_slice(chunk);
                proof {
                    assert(content@ =~= c0 + chunk@);
                }
                ExecuteAnalysisCommandState::Running { started_micros, content }
            },
            ExecuteAnalysisCommandState::Idle => ExecuteAnalysisCommandState::Idle,
        }
    }

    /// The run finished: back to idle, handing out the start time and the
    /// captured bytes for the report.
    pub fn on_finish(self) -> (r: (Self, Option<(u64, Vec<u8>)>))
        ensures
            r.0 is Idle,
            match self {
                ExecuteAnalysisCommandState::Running { started_micros, content } => (r.1 matches Some(
                    p,
                ) && p.0 == started_micros && p.1@ == content@),
                ExecuteAnalysisCommandState::Idle => r.1 is None,
            },
    {
        match self {
            ExecuteAnalysisCommandState::Running { started_micros, content } => (
                ExecuteAnalysisCommandState::Idle,
                Some((started_micros, content)),
            ),
            ExecuteAnalysisCommandState::Idle => (ExecuteAnalysisCommandState::Idle, None),
        }
    }
}

/// The text an optional extra contributes: its own, or nothing.
pub open spec fn opt_text(o: Option<String>) -> Seq<char> {
    match o {
        Some(s) => s@,
        None => Seq::empty(),
    }
}

/// The command template with every placeholder substituted, left to
/// right: the two addresses, then each endpoint's extras; a missing
/// extra becomes empty text.
pub open spec fn spec_command_with_variables(c: ConfigAnalysis) -> Seq<char> {
    let s1 = spec_replace(c.command@, "{{server.from.ip}}"@, c.from.ip@);
    let s2 = spec_replace(s1, "{{server.from.extra1}}"@, opt_text(c.from.extra1));
    let s3 = spec_replace(s2, "{{server.from.extra2}}"@, opt_text(c.from.extra2));
    let s4 = spec_replace(s3, "{{server.from.extra3}}"@, opt_text(c.from.extra3));
    let s5 = spec_replace(s4, "{{server.to.ip}}"@, c.to.ip@);
    let s6 = spec_replace(s5, "{{server.to.extra1}}"@, opt_text(c.to.extra1));
    let s7 = spec_replace(s6, "{{server.to.extra2}}"@, opt_text(c.to.extra2));
    spec_replace(s7, "{{server.to.extra3}}"@, opt_text(c.to.extra3))
}

fn replace_opt(s: &String, pat: &str, rep: &Option<String>) -> (r: String)
    requires
        pat@.len() > 0,
    ensures
        r@ == spec_replace(s@, pat@, opt_text(*rep)),
{
    match rep {
        Some(t) => replace_str(s.as_str(), pat, t.as_str()),
        None => {
            let r = replace_str(s.as_str(), pat, "");
            proof {
                reveal_strlit("");
                assert(""@ =~= Seq::<char>::empty());
            }
            r
        },
    }
}

/// The command a diagnostic runs: the template with all placeholders
/// substituted.
pub fn get_command_with_variables(config: &ConfigAnalysis) -> (r: String)
    ensures
        r@ == spec_command_with_variables(*config),
{
    proof {
        reveal_strlit("{{server.from.ip}}");
        reveal_strlit("{{server.from.extra1}}");
        reveal_strlit("{{server.from.extra2}}");
        reveal_strlit("{{server.from.extra3}}");
        reveal_strlit("{{server.to.ip}}");
        reveal_strlit("{{server.to.extra1}}");
        reveal_strlit("{{server.to.extra2}}");
        reveal_strlit("{{server.to.extra3}}");
    }
    let s1 = replace_str(config.command.as_str(), "{{server.from.ip}}", config.from.ip.as_str());
    let s2 = replace_opt(&s1, "{{server.from.extra1}}", &config.from.extra1);
    let s3 = replace_opt(&s2, "{{server.from.extra2}}", &config.from.extra2);
    let s4 = replace_opt(&s3, "{{server.from.extra3}}", &config.from.extra3);
    let s5 = replace_str(s4.as_str(), "{{server.to.ip}}", config.to.ip.as_str());
    let s6 = replace_opt(&s5, "{{server.to.extra1}}", &config.to.extra1);
    let s7 = replace_opt(&s6, "{{server.to.extra2}}", &config.to.extra2);
    replace_opt(&s7, "{{server.to.extra3}}", &config.to.extra3)
}

/// The text of a UTC instant under a formatting pattern; a function of
/// the two arguments alone.
pub uninterp spec fn utc_format_text(secs: u64, fmt: Seq<char>) -> Seq<char>;

/// Relies on chrono's `DateTime::from_timestamp` and `format`: the UTC
/// text of the instant. Seconds through year 9999 are within chrono's
/// range, and the two patterns the library uses are ones chrono formats
/// without failing.
#[verifier::external_body]
pub fn format_utc(secs: u64, fmt: &str) -> (r: String)
    requires
        secs <= MAX_STAMP_SECS,
        fmt@ == "%Y_%m_%d_%H_%M_%S"@ || fmt@ == "%Y-%m-%d %H:%M:%S"@,
    ensures
        r@ == utc_format_text(secs, fmt@),
{
    match chrono::DateTime::<chrono::Utc>::from_timestamp(secs as i64, 0) {
        Some(dt) => dt.format(fmt).to_string(),
        None => String::new(),
    }
}

/// The directory a route's reports go to.
pub fn report_directory(config: &ConfigAnalysis) -> (r: String)
    ensures
        r@ == "/tmp/mehsh/"@ + config.name@ + "/"@ + config.to.identifier@,
{
    let mut s = String::from_str("/tmp/mehsh/");
    s.append(config.name.as_str());
    push_char(&mut s, '/');
    proof {
        reveal_strlit("/");
        assert("/"@ =~= seq!['/']);
    }
    s.append(config.to.identifier.as_str());
    proof {
        assert(s@ =~= "/tmp/mehsh/"@ + config.name@ + "/"@ + config.to.identifier@);
    }
    s
}

/// The file a finished run's report goes to: its name is the run's start
/// time, to the second.
pub fn report_file_path(config: &ConfigAnalysis, started_secs: u64) -> (r: String)
    requires
        started_secs <= MAX_STAMP_SECS,
    ensures
        r@ == "/tmp/mehsh/"@ + config.name@ + "/"@ + config.to.identifier@ + "/"@
            + utc_format_text(started_secs, "%Y_%m_%d_%H_%M_%S"@) + ".txt"@,
{
    let mut s = report_directory(config);
    push_char(&mut s, '/');
    proof {
        reveal_strlit("/");
        assert("/"@ =~= seq!['/']);
    }
    let stamp = format_utc(started_secs, "%Y_%m_%d_%H_%M_%S");
    s.append(stamp.as_str());
    s.append(".txt");
    proof {
        assert(s@ =~= "/tmp/mehsh/"@ + config.name@ + "/"@ + config.to.identifier@ + "/"@
            + utc_format_text(started_secs, "%Y_%m_%d_%H_%M_%S"@) + ".txt"@);
    }
    s
}

} // verus!
