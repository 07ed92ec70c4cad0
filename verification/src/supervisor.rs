use vstd::prelude::*;

use crate::chars::{chars_string, dec_digits, spec_trim, str_chars, trim_chars, u16_string};
use crate::path_rewrite::{rewrite_path, spec_rewrite_path};
use crate::scan::{line_port_update, line_prefix_update, scan_line};

verus! {

/// The stage of the supervised process's start sequence.
#[derive(Clone, Copy, PartialEq, Eq, Structural, Debug)]
pub enum Phase {
    /// No start sequence is in progress.
    Idle,
    /// Spawned with a dynamic port; the announced port has yet to be seen.
    AwaitPort,
    /// The port is known; candidate path prefixes are being probed.
    Probe,
    /// The prefix is decided; the health endpoints are being polled.
    Poll,
    /// Both health endpoints succeeded in one poll cycle.
    Ready,
}

/// The failures a start sequence can surface.
#[derive(Clone, Debug)]
pub enum SupervisorError {
    /// No server binary is configured or resolvable.
    Unavailable,
    /// The spawn itself failed.
    Launch(String),
    /// The process exited within the initial liveness window.
    EarlyExit,
    /// No port-bearing output line arrived within the discovery deadline.
    PortDiscoveryTimeout,
    /// The health endpoints did not both succeed within the deadline; carries
    /// the last observed failure detail.
    ReadinessTimeout(String),
}

/// The abstract state of a supervisor.
pub ghost struct ManagerView {
    pub binary: Option<Seq<char>>,
    pub args: Seq<Seq<char>>,
    pub desired_port: u16,
    pub working_dir: Seq<char>,
    pub has_child: bool,
    pub phase: Phase,
    pub port: Option<u16>,
    pub api_prefix: Seq<char>,
    pub ready: bool,
    pub shutting_down: bool,
}

/// Supervises the lifecycle of one long-running server process.  This type
/// holds the launch specification and the runtime state, and makes every
/// lifecycle decision; performing the process, network and timer operations
/// it calls for is its caller's business.
pub struct OpenCodeManager {
    binary: Option<String>,
    args: Vec<String>,
    desired_port: u16,
    working_dir: String,
    has_child: bool,
    phase: Phase,
    port: Option<u16>,
    api_prefix: String,
    ready: bool,
    shutting_down: bool,
}

impl View for OpenCodeManager {
    type V = ManagerView;

    closed spec fn view(&self) -> ManagerView {
        ManagerView {
            binary: self.binary.deep_view(),
            args: self.args.deep_view(),
            desired_port: self.desired_port,
            working_dir: self.working_dir@,
            has_child: self.has_child,
            phase: self.phase,
            port: self.port,
            api_prefix: self.api_prefix@,
            ready: self.ready,
            shutting_down: self.shutting_down,
        }
    }
}

/// The command-line arguments a launch uses: a serve command with an explicit
/// port (0 requests a dynamically chosen one), and an optional config file.
pub open spec fn spec_serve_args(port: u16, config: Option<Seq<char>>) -> Seq<Seq<char>> {
    let base = seq!["serve"@, "--port"@, dec_digits(port as int)];
    match config {
        Some(c) => if c.len() > 0 {
            base + seq!["--config"@, c]
        } else {
            base
        },
        None => base,
    }
}

/// The decision `ensure_running` starts from.
#[derive(Clone, Copy, PartialEq, Eq, Structural, Debug)]
pub enum StartDecision {
    /// No binary: the caller gets `Unavailable` and nothing is spawned.
    Unavailable,
    /// A live, ready process exists: nothing is spawned.
    AlreadyRunning,
    /// A new process must be spawned.
    Spawn,
}

/// What beginning `ensure_running` does: with no binary or with a live ready
/// process the state is untouched; otherwise readiness is cleared and a spawn
/// is requested.
pub open spec fn spec_start_begin(v: ManagerView) -> (ManagerView, StartDecision) {
    if v.binary is None {
        (v, StartDecision::Unavailable)
    } else if v.has_child && v.ready {
        (v, StartDecision::AlreadyRunning)
    } else {
        ((ManagerView { ready: false, phase: Phase::Idle, ..v }), StartDecision::Spawn)
    }
}

/// What a successful spawn does: the handle is held; a fixed port is recorded
/// immediately and probing starts, while a dynamic port must first be
/// discovered from the process output.
pub open spec fn spec_on_spawned(v: ManagerView) -> ManagerView {
    ManagerView {
        has_child: true,
        port: if v.desired_port > 0 {
            Some(v.desired_port)
        } else {
            v.port
        },
        phase: if v.desired_port == 0 {
            Phase::AwaitPort
        } else {
            Phase::Probe
        },
        ..v
    }
}

/// What ingesting one output line does: the leftmost announced address wins;
/// its port overwrites the discovered port and its path segment, when present
/// and not the bare root, overwrites the discovered prefix.
pub open spec fn spec_ingest(v: ManagerView, line: Seq<char>) -> ManagerView {
    ManagerView {
        port: match line_port_update(line) {
            Some(p) => Some(p),
            None => v.port,
        },
        api_prefix: match line_prefix_update(line) {
            Some(p) => p,
            None => v.api_prefix,
        },
        ..v
    }
}

/// What one readiness poll cycle does: both endpoints must succeed in the
/// same cycle for the supervisor to become ready; any other cycle changes
/// nothing.
pub open spec fn spec_on_poll_cycle(v: ManagerView, config_ok: bool, agent_ok: bool) -> ManagerView {
    if v.phase is Poll && config_ok && agent_ok {
        ManagerView { ready: true, phase: Phase::Ready, ..v }
    } else {
        v
    }
}

/// What resetting for a relaunch does: the discovered port is cleared only
/// when the port is dynamic; the discovered prefix is cleared unconditionally.
pub open spec fn spec_restart_reset(v: ManagerView) -> ManagerView {
    ManagerView {
        port: if v.desired_port == 0 {
            None
        } else {
            v.port
        },
        api_prefix: Seq::<char>::empty(),
        phase: Phase::Idle,
        ..v
    }
}

impl OpenCodeManager {
    /// Build a supervisor from its launch specification: the resolved binary
    /// (if any), the configured port (0 requests a dynamic one), an optional
    /// config-file path, and the initial working directory.
    pub fn new_with_directory(
        binary: Option<String>,
        desired_port: u16,
        config_path: Option<String>,
        initial_dir: String,
    ) -> (s: Self)
        ensures
            s@.binary == binary.deep_view(),
            s@.args == spec_serve_args(desired_port, config_path.deep_view()),
            s@.desired_port == desired_port,
            s@.working_dir == initial_dir@,
            !s@.has_child,
            s@.phase is Idle,
            s@.port is None,
            s@.api_prefix =~= Seq::<char>::empty(),
            !s@.ready,
            !s@.shutting_down,
    {
        let mut args: Vec<String> = Vec::new();
        args.push(String::from_str("serve"));
        args.push(String::from_str("--port"));
        args.push(u16_string(desired_port));
        match &config_path {
            Some(c) => {
                if !c.as_str().is_empty() {
                    args.push(String::from_str("--config"));
                    args.push(c.clone());
                }
            },
            None => {},
        }
        proof {
            assert(args.deep_view() =~~= spec_serve_args(desired_port, config_path.deep_view()));
        }
        OpenCodeManager {
            binary,
            args,
            desired_port,
            working_dir: initial_dir,
            has_child: false,
            phase: Phase::Idle,
            port: None,
            api_prefix: String::new(),
            ready: false,
            shutting_down: false,
        }
    }

    /// Whether a server binary was resolved at construction.
    pub fn is_cli_available(&self) -> (r: bool)
        ensures
            r == (self@.binary is Some),
    {
        self.binary.is_some()
    }

    /// The resolved binary path, for the caller that performs the spawn.
    pub fn binary_path(&self) -> (r: Option<&String>)
        ensures
            match r {
                Some(b) => self@.binary == Some(b@),
                None => self@.binary is None,
            },
    {
        self.binary.as_ref()
    }

    /// The launch arguments, for the caller that performs the spawn.
    pub fn launch_args(&self) -> (r: &Vec<String>)
        ensures
            r.deep_view() == self@.args,
    {
        &self.args
    }

    /// Begin `ensure_running`: decide between failing for want of a binary,
    /// returning at once because a live ready process exists, and clearing
    /// readiness ahead of a new spawn.
    pub fn start_begin(&mut self) -> (r: StartDecision)
        ensures
            (final(self)@, r) == spec_start_begin(old(self)@),
    {
        if self.binary.is_none() {
            StartDecision::Unavailable
        } else if self.has_child && self.ready {
            StartDecision::AlreadyRunning
        } else {
            self.ready = false;
            self.phase = Phase::Idle;
            StartDecision::Spawn
        }
    }

    /// Record that the child process was spawned.
    pub fn on_spawned(&mut self)
        requires
            old(self)@.binary is Some,
        ensures
            final(self)@ == spec_on_spawned(old(self)@),
    {
        self.has_child = true;
        if self.desired_port > 0 {
            self.port = Some(self.desired_port);
            self.phase = Phase::Probe;
        } else {
            self.phase = Phase::AwaitPort;
        }
    }

    /// Record that the spawn itself failed.
    pub fn on_spawn_failed(&mut self, detail: String) -> (e: SupervisorError)
        ensures
            e matches SupervisorError::Launch(d) && d@ == detail@,
            final(self)@ == (ManagerView {
                has_child: false,
                ready: false,
                phase: Phase::Idle,
                ..old(self)@
            }),
    {
        self.has_child = false;
        self.ready = false;
        self.phase = Phase::Idle;
        SupervisorError::Launch(detail)
    }

    /// Record that the process was observed to have exited within the
    /// initial liveness window without emitting any output.
    pub fn on_early_exit(&mut self) -> (e: SupervisorError)
        ensures
            e is EarlyExit,
            final(self)@ == (ManagerView {
                has_child: false,
                ready: false,
                phase: Phase::Idle,
                ..old(self)@
            }),
    {
        self.has_child = false;
        self.ready = false;
        self.phase = Phase::Idle;
        SupervisorError::EarlyExit
    }

    /// Record that the process was observed to have exited unexpectedly.
    pub fn on_child_exit_observed(&mut self)
        ensures
            final(self)@ == (ManagerView {
                has_child: false,
                ready: false,
                phase: Phase::Idle,
                ..old(self)@
            }),
    {
        self.has_child = false;
        self.ready = false;
        self.phase = Phase::Idle;
    }

    /// Ingest one line of the process's output, from either stream.
    pub fn ingest_output_line(&mut self, line: &str)
        ensures
            final(self)@ == spec_ingest(old(self)@, line@),
    {
        let cs = str_chars(line);
        let (port_update, prefix_update) = scan_line(&cs);
        match port_update {
            Some(p) => {
                self.port = Some(p);
            },
            None => {},
        }
        match prefix_update {
            Some(p) => {
                self.api_prefix = p;
            },
            None => {},
        }
    }

    /// One step of waiting for port discovery: proceed to prefix probing as
    /// soon as an announced port has been ingested.
    pub fn port_check(&mut self) -> (r: bool)
        requires
            old(self)@.phase is AwaitPort,
        ensures
            r == (old(self)@.port is Some),
            final(self)@ == if r {
                (ManagerView { phase: Phase::Probe, ..old(self)@ })
            } else {
                old(self)@
            },
    {
        if self.port.is_some() {
            self.phase = Phase::Probe;
            true
        } else {
            false
        }
    }

    /// Record that the port discovery deadline elapsed with no announced port.
    pub fn on_port_timeout(&mut self) -> (e: SupervisorError)
        requires
            old(self)@.phase is AwaitPort,
            old(self)@.port is None,
        ensures
            e is PortDiscoveryTimeout,
            final(self)@ == (ManagerView { phase: Phase::Idle, ..old(self)@ }),
    {
        self.phase = Phase::Idle;
        SupervisorError::PortDiscoveryTimeout
    }

    /// Record the prefix-discovery outcome: the first accepted candidate, or
    /// none, in which case the empty prefix is used and discovery is
    /// non-fatal.  Moves on to readiness polling either way.
    pub fn detect_api_prefix(&mut self, chosen: Option<usize>)
        requires
            old(self)@.phase is Probe,
            chosen matches Some(i) ==> i < 2,
        ensures
            final(self)@ == (ManagerView {
                api_prefix: match chosen {
                    Some(i) => spec_normalize_api_prefix(candidate_prefix(i as int)),
                    None => Seq::<char>::empty(),
                },
                phase: Phase::Poll,
                ..old(self)@
            }),
    {
        match chosen {
            Some(i) => {
                let c = candidate_prefix_str(i);
                self.api_prefix = normalize_api_prefix(c.as_str());
            },
            None => {
                self.api_prefix = String::new();
                proof {
                    assert(self.api_prefix@ =~= Seq::<char>::empty());
                }
            },
        }
        self.phase = Phase::Poll;
    }

    /// Apply one readiness poll cycle: both health endpoints must have
    /// succeeded in this same cycle for the supervisor to become ready.
    pub fn on_poll_cycle(&mut self, config_ok: bool, agent_ok: bool) -> (became: bool)
        requires
            old(self)@.phase is Poll,
        ensures
            became == (config_ok && agent_ok),
            final(self)@ == spec_on_poll_cycle(old(self)@, config_ok, agent_ok),
    {
        if config_ok && agent_ok {
            self.ready = true;
            self.phase = Phase::Ready;
            true
        } else {
            false
        }
    }

    /// Record that the readiness deadline elapsed; carries the last observed
    /// failure detail from either endpoint.
    pub fn on_ready_timeout(&mut self, last_detail: String) -> (e: SupervisorError)
        requires
            old(self)@.phase is Poll,
        ensures
            e matches SupervisorError::ReadinessTimeout(d) && d@ == last_detail@,
            final(self)@ == (ManagerView { phase: Phase::Idle, ..old(self)@ }),
    {
        self.phase = Phase::Idle;
        SupervisorError::ReadinessTimeout(last_detail)
    }

    /// Begin a restart: readiness is cleared before anything else happens.
    pub fn restart_begin(&mut self)
        ensures
            final(self)@ == (ManagerView { ready: false, phase: Phase::Idle, ..old(self)@ }),
    {
        self.ready = false;
        self.phase = Phase::Idle;
    }

    /// Reset discovery state ahead of the relaunch: a dynamic port must be
    /// rediscovered, a fixed port is kept; the prefix is always rediscovered.
    pub fn restart_reset(&mut self)
        ensures
            final(self)@ == spec_restart_reset(old(self)@),
    {
        if self.desired_port == 0 {
            self.port = None;
        }
        self.api_prefix = String::new();
        self.phase = Phase::Idle;
        proof {
            assert(self.api_prefix@ =~= Seq::<char>::empty());
        }
    }

    /// Begin `shutdown`: mark the supervisor as shutting down and not ready.
    pub fn shutdown_begin(&mut self)
        ensures
            final(self)@ == (ManagerView {
                shutting_down: true,
                ready: false,
                phase: Phase::Idle,
                ..old(self)@
            }),
    {
        self.shutting_down = true;
        self.ready = false;
        self.phase = Phase::Idle;
    }

    /// Record that the shutdown sequencer finished: no handle is held.
    pub fn on_stopped(&mut self)
        ensures
            final(self)@ == (ManagerView { has_child: false, ..old(self)@ }),
    {
        self.has_child = false;
    }

    /// The current stage of the start sequence.
    pub fn phase(&self) -> (r: Phase)
        ensures
            r == self@.phase,
    {
        self.phase
    }

    /// Non-blocking read of the discovered port.
    pub fn current_port(&self) -> (r: Option<u16>)
        ensures
            r == self@.port,
    {
        self.port
    }

    /// Non-blocking read of the discovered API prefix (possibly empty).
    pub fn api_prefix(&self) -> (r: String)
        ensures
            r@ == self@.api_prefix,
    {
        self.api_prefix.clone()
    }

    /// Non-blocking read of the readiness flag.
    pub fn is_ready(&self) -> (r: bool)
        ensures
            r == self@.ready,
    {
        self.ready
    }

    /// Non-blocking read of the shutting-down flag.
    pub fn is_shutting_down(&self) -> (r: bool)
        ensures
            r == self@.shutting_down,
    {
        self.shutting_down
    }

    /// Whether a process handle is currently held.
    pub fn is_child_running(&self) -> (r: bool)
        ensures
            r == self@.has_child,
    {
        self.has_child
    }

    /// Update the directory used for the next spawn; a running process is
    /// unaffected.
    pub fn set_working_directory(&mut self, new_dir: String)
        ensures
            final(self)@ == (ManagerView { working_dir: new_dir@, ..old(self)@ }),
    {
        self.working_dir = new_dir;
    }

    /// The directory the next spawn will use.
    pub fn get_working_directory(&self) -> (r: String)
        ensures
            r@ == self@.working_dir,
    {
        self.working_dir.clone()
    }

    /// Strip the fixed inbound routing prefix from a request path.
    pub fn rewrite_path(&self, incoming_path: &str) -> (r: String)
        ensures
            r@ == spec_rewrite_path(incoming_path@),
    {
        rewrite_path(incoming_path)
    }

    /// The two health-check URLs under the discovered base address.
    pub fn health_urls(&self) -> (r: (String, String))
        requires
            self@.port is Some,
        ensures
            r.0@ == spec_base_url(self@.port->0, self@.api_prefix) + "/config"@,
            r.1@ == spec_base_url(self@.port->0, self@.api_prefix) + "/agent"@,
    {
        let base = self.base_url();
        let config_url = base.clone().concat("/config");
        let agent_url = base.concat("/agent");
        (config_url, agent_url)
    }

    /// The probe URL for one candidate prefix.
    pub fn probe_url(&self, i: usize) -> (r: String)
        requires
            self@.port is Some,
            i < 2,
        ensures
            r@ == spec_base_url(self@.port->0, candidate_prefix(i as int)) + "/config"@,
    {
        let p = match self.port {
            Some(p) => p,
            None => 0,  // unreachable under the precondition
        };
        let c = candidate_prefix_str(i);
        String::from_str("http://127.0.0.1:").concat(u16_string(p).as_str()).concat(
            c.as_str(),
        ).concat("/config")
    }

    fn base_url(&self) -> (r: String)
        requires
            self@.port is Some,
        ensures
            r@ == spec_base_url(self@.port->0, self@.api_prefix),
    {
        let p = match self.port {
            Some(p) => p,
            None => 0,  // unreachable under the precondition
        };
        String::from_str("http://127.0.0.1:").concat(u16_string(p).as_str()).concat(
            self.api_prefix.as_str(),
        )
    }
}

/// The base URL the discovered endpoint is reached under.
pub open spec fn spec_base_url(port: u16, prefix: Seq<char>) -> Seq<char> {
    "http://127.0.0.1:"@ + dec_digits(port as int) + prefix
}

// ---------------------------------------------------------------------------
// Endpoint discovery
// ---------------------------------------------------------------------------

/// The ordered candidate path prefixes: the empty prefix first, then the
/// single alternate.
pub open spec fn candidate_prefix(i: int) -> Seq<char> {
    if i == 0 {
        Seq::<char>::empty()
    } else {
        "/api"@
    }
}

/// The candidate path prefix with index `i`.
pub fn candidate_prefix_str(i: usize) -> (r: String)
    requires
        i < 2,
    ensures
        r@ == candidate_prefix(i as int),
{
    if i == 0 {
        let r = String::new();
        proof {
            assert(r@ =~= Seq::<char>::empty());
        }
        r
    } else {
        String::from_str("/api")
    }
}

/// What one prefix probe observed: whether the response had a success status,
/// and its body.
pub struct ProbeOutcome {
    pub success: bool,
    pub body: String,
}

/// A candidate is accepted only if the response was a success and the body,
/// stripped of surrounding whitespace, begins like a JSON document.
pub open spec fn spec_probe_accepts(success: bool, body: Seq<char>) -> bool {
    success && spec_trim(body).len() > 0 && (spec_trim(body)[0] == '{' || spec_trim(body)[0]
        == '[')
}

pub fn probe_accepts(outcome: &ProbeOutcome) -> (r: bool)
    ensures
        r == spec_probe_accepts(outcome.success, outcome.body@),
{
    if !outcome.success {
        return false;
    }
    let cs = str_chars(outcome.body.as_str());
    let (a, b) = trim_chars(&cs, 0, cs.len());
    proof {
        assert(cs@.subrange(0, cs@.len() as int) =~= cs@);
    }
    if a == b {
        return false;
    }
    let c = cs[a];
    proof {
        assert(cs@.subrange(a as int, b as int)[0] == cs@[a as int]);
    }
    c == '{' || c == '['
}

/// The first accepted candidate wins.
pub open spec fn spec_selected_candidate(accept0: bool, accept1: bool) -> Option<int> {
    if accept0 {
        Some(0int)
    } else if accept1 {
        Some(1int)
    } else {
        None
    }
}

/// Given the two probe outcomes in candidate order, pick the first accepted
/// candidate, if any.
pub fn select_prefix(o0: &ProbeOutcome, o1: &ProbeOutcome) -> (r: Option<usize>)
    ensures
        match r {
            Some(i) => Some(i as int) == spec_selected_candidate(
                spec_probe_accepts(o0.success, o0.body@),
                spec_probe_accepts(o1.success, o1.body@),
            ) && i < 2,
            None => spec_selected_candidate(
                spec_probe_accepts(o0.success, o0.body@),
                spec_probe_accepts(o1.success, o1.body@),
            ) is None,
        },
{
    if probe_accepts(o0) {
        Some(0)
    } else if probe_accepts(o1) {
        Some(1)
    } else {
        None
    }
}

// ---------------------------------------------------------------------------
// Prefix normalization
// ---------------------------------------------------------------------------

/// What stripping trailing slashes yields.
pub open spec fn spec_strip_trailing_slashes(s: Seq<char>) -> Seq<char>
    decreases s.len(),
{
    if s.len() > 0 && s.last() == '/' {
        spec_strip_trailing_slashes(s.drop_last())
    } else {
        s
    }
}

/// What normalizing a serving prefix yields: surrounding whitespace is
/// trimmed; an empty or bare-root prefix becomes empty; otherwise trailing
/// slashes are stripped and a leading slash is guaranteed.
pub open spec fn spec_normalize_api_prefix(s: Seq<char>) -> Seq<char> {
    let t = spec_trim(s);
    if t.len() == 0 || t == seq!['/'] {
        Seq::<char>::empty()
    } else {
        let u = spec_strip_trailing_slashes(t);
        if u.len() > 0 && u[0] == '/' {
            u
        } else {
            seq!['/'] + u
        }
    }
}

proof fn lemma_strip_trailing_slashes_at(s: Seq<char>, i: int)
    requires
        0 <= i <= s.len(),
        forall|j: int| i <= j < s.len() ==> #[trigger] s[j] == '/',
        i > 0 ==> s[i - 1] != '/',
    ensures
        spec_strip_trailing_slashes(s) == s.subrange(0, i),
    decreases s.len() - i,
{
    if i == s.len() {
        if s.len() > 0 {
            assert(s.last() != '/');
        }
        assert(s.subrange(0, s.len() as int) =~= s);
    } else {
        assert(s.last() == '/');
        let s1 = s.drop_last();
        assert(forall|j: int| i <= j < s1.len() ==> #[trigger] s1[j] == '/');
        lemma_strip_trailing_slashes_at(s1, i);
        assert(s1.subrange(0, i) =~= s.subrange(0, i));
    }
}

/// Normalize a serving prefix to either the empty string or a string that
/// begins with a slash and does not end with one.
pub fn normalize_api_prefix(prefix: &str) -> (r: String)
    ensures
        r@ == spec_normalize_api_prefix(prefix@),
{
    let cs = str_chars(prefix);
    let (a, b) = trim_chars(&cs, 0, cs.len());
    proof {
        assert(cs@.subrange(0, cs@.len() as int) =~= cs@);
    }
    let ghost t = spec_trim(cs@);
    if a == b || (b - a == 1 && cs[a] == '/') {
        proof {
            if b - a == 1 {
                assert(t =~= seq!['/']);
            }
        }
        let r = String::new();
        proof {
            assert(r@ =~= Seq::<char>::empty());
        }
        return r;
    }
    proof {
        if t == seq!['/'] {
            assert(t.len() == 1);
            assert(cs@.subrange(a as int, b as int)[0] == cs@[a as int]);
        }
    }
    // strip trailing slashes from the trimmed range
    let mut e: usize = b;
    while e > a && cs[e - 1] == '/'
        invariant
            a <= e <= b <= cs@.len(),
            t == cs@.subrange(a as int, b as int),
            forall|j: int| e - a <= j < t.len() ==> #[trigger] t[j] == '/',
        decreases e,
    {
        proof {
            assert(t[e - 1 - a as int] == cs@[e - 1 as int]);
        }
        e -= 1;
    }
    proof {
        if e > a {
            assert(t[e - 1 - a as int] == cs@[e - 1 as int]);
        }
        lemma_strip_trailing_slashes_at(t, e - a as int);
        assert(t.subrange(0, e - a as int) =~= cs@.subrange(a as int, e as int));
    }
    let ghost u = spec_strip_trailing_slashes(t);
    let mut out: Vec<char> = Vec::new();
    if !(e > a && cs[a] == '/') {
        proof {
            if u.len() > 0 {
                assert(u[0] == cs@[a as int]);
            }
        }
        out.push('/');
    }
    let mut k: usize = a;
    while k < e
        invariant
            a <= k <= e <= cs@.len(),
            u == cs@.subrange(a as int, e as int),
            out@ == if u.len() > 0 && u[0] == '/' {
                cs@.subrange(a as int, k as int)
            } else {
                seq!['/'] + cs@.subrange(a as int, k as int)
            },
        decreases e - k,
    {
        out.push(cs[k]);
        k += 1;
        proof {
            if u.len() > 0 && u[0] == '/' {
                assert(out@ =~= cs@.subrange(a as int, k as int));
            } else {
                assert(out@ =~= seq!['/'] + cs@.subrange(a as int, k as int));
            }
        }
    }
    proof {
        assert(cs@.subrange(a as int, e as int) =~= u);
        if u.len() > 0 && u[0] == '/' {
            assert(out@ =~= u);
        } else {
            assert(out@ =~= seq!['/'] + u);
        }
    }
    chars_string(&out)
}

// ---------------------------------------------------------------------------
// Shutdown sequencing
// ---------------------------------------------------------------------------

/// The first decision of the shutdown sequencer.
#[derive(Clone, Copy, PartialEq, Eq, Structural, Debug)]
pub enum StopDecision {
    /// No handle is held, or the process has already exited: finish at once,
    /// sending no signal.
    AlreadyGone,
    /// A live process: send the graceful-termination signal.
    SendGraceful,
}

/// What the sequencer first decides, given whether a handle is held and
/// whether its exit was already observable.
pub open spec fn spec_stop_decide(has_child: bool, observed_exited: bool) -> StopDecision {
    if !has_child || observed_exited {
        StopDecision::AlreadyGone
    } else {
        StopDecision::SendGraceful
    }
}

pub fn stop_decide(has_child: bool, observed_exited: bool) -> (r: StopDecision)
    ensures
        r == spec_stop_decide(has_child, observed_exited),
{
    if !has_child || observed_exited {
        StopDecision::AlreadyGone
    } else {
        StopDecision::SendGraceful
    }
}

/// The escalation decision after the graceful signal.
#[derive(Clone, Copy, PartialEq, Eq, Structural, Debug)]
pub enum EscalationDecision {
    /// The process exited within the graceful bound: done.
    Finished,
    /// It did not: send the forceful kill and wait out the second bound.
    SendKill,
}

pub open spec fn spec_stop_escalate(exited_within_grace: bool) -> EscalationDecision {
    if exited_within_grace {
        EscalationDecision::Finished
    } else {
        EscalationDecision::SendKill
    }
}

pub fn stop_escalate(exited_within_grace: bool) -> (r: EscalationDecision)
    ensures
        r == spec_stop_escalate(exited_within_grace),
{
    if exited_within_grace {
        EscalationDecision::Finished
    } else {
        EscalationDecision::SendKill
    }
}

// ---------------------------------------------------------------------------
// The liveness window after a spawn
// ---------------------------------------------------------------------------

/// The verdict of the initial liveness window.
#[derive(Clone, Copy, PartialEq, Eq, Structural, Debug)]
pub enum LivenessVerdict {
    /// The process exited before emitting any output: the spawn failed.
    EarlyExit,
    /// Output was seen, or the window elapsed with the process still up:
    /// the spawn is provisionally successful.
    Proceed,
}

pub open spec fn spec_liveness_verdict(first_signal_seen: bool, child_exited: bool) -> LivenessVerdict {
    if child_exited && !first_signal_seen {
        LivenessVerdict::EarlyExit
    } else {
        LivenessVerdict::Proceed
    }
}

pub fn liveness_verdict(first_signal_seen: bool, child_exited: bool) -> (r: LivenessVerdict)
    ensures
        r == spec_liveness_verdict(first_signal_seen, child_exited),
{
    if child_exited && !first_signal_seen {
        LivenessVerdict::EarlyExit
    } else {
        LivenessVerdict::Proceed
    }
}

} // verus!
