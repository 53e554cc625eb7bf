//! Supervision of the DHCP daemon and atomic mutation of its configuration.
//!
//! The daemon's liveness is derived from a PID file and a signal probe; the
//! supervisor never holds an in-memory process handle, so it survives its own
//! restarts. Everything that sleeps, spawns or touches files lives in the
//! shell around this library: the functions here make each decision of the
//! start/stop protocol (and deliver the signals), and the shell drives them
//! step by step. Configuration setters work on a configuration
//! value read from disk by the caller, which writes the rendered result back
//! under its own lock.

use vstd::prelude::*;
use vstd::pervasive::VecAdditionalExecFns;
use crate::ipv4::Ipv4Addr;
use crate::text::{
    all_digits, dec_chars, dec_val, parse_digits, render_u32, spec_trim, str_eq, trim,
};
use crate::udhcpd_config::{
    parse_config, render_config, spec_parse_config, spec_render_config, StaticLease,
    StaticLeaseView, UdhcpdConfig, UdhcpdConfigView, UdhcpdError,
};

verus! {

/// How many liveness probes the stop protocol makes after the graceful
/// signal before it escalates.
pub const STOP_POLL_ATTEMPTS: u32 = 30;

/// Milliseconds between two liveness probes of the stop protocol.
pub const STOP_POLL_INTERVAL_MS: u64 = 100;

/// Milliseconds between stopping and starting again on a restart.
pub const RESTART_DELAY_MS: u64 = 200;

// ---------------------------------------------------------------------------
// PID file contents
// ---------------------------------------------------------------------------

/// A decimal integer with an optional sign, as `i32` text is parsed: leading
/// zeros are accepted, surrounding whitespace is not.
pub open spec fn spec_parse_i32(s: Seq<char>) -> Option<i32> {
    let neg = s.len() >= 1 && s[0] == '-';
    let ds = if s.len() >= 1 && (s[0] == '+' || s[0] == '-') {
        s.drop_first()
    } else {
        s
    };
    if ds.len() >= 1 && all_digits(ds) {
        if neg {
            if dec_val(ds) <= 0x8000_0000 {
                Some((0 - dec_val(ds) as int) as i32)
            } else {
                None
            }
        } else {
            if dec_val(ds) <= 0x7FFF_FFFF {
                Some(dec_val(ds) as i32)
            } else {
                None
            }
        }
    } else {
        None
    }
}

/// The process id held by a PID file: its text, trimmed, as an `i32`.
pub open spec fn spec_parse_pid(content: Seq<char>) -> Option<i32> {
    spec_parse_i32(spec_trim(content))
}

fn parse_i32(s: &str) -> (r: Option<i32>)
    ensures
        r == spec_parse_i32(s@),
{
    let n = s.unicode_len();
    if n == 0 {
        return None;
    }
    let c0 = s.get_char(0);
    let neg: bool = c0 == '-';
    let start: usize = if c0 == '-' || c0 == '+' {
        1
    } else {
        0
    };
    let max: u64 = if neg {
        0x8000_0000
    } else {
        0x7FFF_FFFF
    };
    let ghost ds = if s@[0] == '+' || s@[0] == '-' {
        s@.drop_first()
    } else {
        s@
    };
    proof {
        assert(s@.subrange(start as int, n as int) =~= ds);
    }
    match parse_digits(s, start, n, max) {
        Some(v) => {
            if neg {
                let w: i64 = 0 - (v as i64);
                proof {
                    assert(-0x8000_0000i64 <= w <= 0);
                }
                Some(w as i32)
            } else {
                Some(v as i32)
            }
        },
        None => None,
    }
}

/// Parses the text of a PID file: the trimmed content as a decimal `i32`.
pub fn parse_pid(content: &str) -> (r: Option<i32>)
    ensures
        r == spec_parse_pid(content@),
{
    let t = trim(content);
    parse_i32(t.as_str())
}

// ---------------------------------------------------------------------------
// Signals (the one place the library calls an outside crate)
// ---------------------------------------------------------------------------

/// The three uses the supervisor makes of the `kill` system call.
pub enum ProcessSignal {
    /// Graceful termination (SIGTERM).
    Term,
    /// Forceful kill (SIGKILL).
    Kill,
    /// No signal: only check that the process exists.
    Probe,
}

/// Relies on nix::sys::signal::kill: delivers SIGTERM or SIGKILL to the
/// process with the given id, or, for `Probe`, delivers no signal and only
/// checks that the process exists and may be signalled. Whether it succeeds
/// depends on the machine's process table, so nothing is promised of the
/// result; a failure carries the raw errno.
#[verifier::external_body]
fn kill_raw(pid: i32, sig: &ProcessSignal) -> Result<(), i32> {
    let s: Option<nix::sys::signal::Signal> = match sig {
        ProcessSignal::Term => Some(nix::sys::signal::Signal::SIGTERM),
        ProcessSignal::Kill => Some(nix::sys::signal::Signal::SIGKILL),
        ProcessSignal::Probe => None,
    };
    match nix::sys::signal::kill(nix::unistd::Pid::from_raw(pid), s) {
        Ok(()) => Ok(()),
        Err(e) => Err(e as i32),
    }
}

// ---------------------------------------------------------------------------
// The stop protocol as a state machine
// ---------------------------------------------------------------------------

/// What `stop_begin` decided and did.
#[derive(Debug)]
pub enum StopBegin {
    /// No valid PID file: stopping something not running is a success.
    AlreadyStopped,
    /// The graceful signal was delivered to this process id.
    TermSent(i32),
    /// The graceful signal could not be delivered; the payload is the errno.
    SignalFailed(i32),
}

/// What one liveness poll decided.
#[derive(Clone, Copy, Debug, PartialEq, Eq, Structural)]
pub enum StopPoll {
    /// The process is gone: remove the PID file and report success.
    Exited,
    /// Still alive and attempts remain: sleep one interval and poll again.
    KeepWaiting,
    /// Still alive after the whole window: kill forcefully, remove the PID
    /// file, and report success without re-confirming death.
    ForceKill,
}

/// The verdict after `attempt` probes have already been made and the current
/// probe reports `alive`.
pub open spec fn spec_poll_verdict(attempt: u32, alive: bool) -> StopPoll {
    if !alive {
        StopPoll::Exited
    } else if attempt < STOP_POLL_ATTEMPTS {
        StopPoll::KeepWaiting
    } else {
        StopPoll::ForceKill
    }
}

/// The pure decision of one poll step.
pub fn poll_verdict(attempt: u32, alive: bool) -> (r: StopPoll)
    ensures
        r == spec_poll_verdict(attempt, alive),
{
    if !alive {
        StopPoll::Exited
    } else if attempt < STOP_POLL_ATTEMPTS {
        StopPoll::KeepWaiting
    } else {
        StopPoll::ForceKill
    }
}

/// The outcome of a whole run of the stop protocol.
pub enum StopOutcome {
    /// No valid PID file; nothing was signalled and the call succeeds.
    NoOp,
    /// The process was stopped: `polls` liveness probes were made, and
    /// `killed` says whether the forceful signal was sent (at most once).
    /// The PID file is removed.
    Stopped { killed: bool, polls: nat },
    /// The graceful signal could not be delivered; the error propagates.
    Failed,
}

pub open spec fn probe_at(probes: Seq<bool>, i: nat) -> bool {
    if i < probes.len() {
        probes[i as int]
    } else {
        false
    }
}

pub open spec fn stop_polling(probes: Seq<bool>, attempt: u32) -> StopOutcome
    decreases STOP_POLL_ATTEMPTS + 1 - attempt,
{
    if attempt > STOP_POLL_ATTEMPTS {
        StopOutcome::Stopped { killed: false, polls: attempt as nat }
    } else {
        match spec_poll_verdict(attempt, probe_at(probes, attempt as nat)) {
            StopPoll::Exited => StopOutcome::Stopped { killed: false, polls: attempt as nat + 1 },
            StopPoll::KeepWaiting => stop_polling(probes, (attempt + 1) as u32),
            StopPoll::ForceKill => StopOutcome::Stopped { killed: true, polls: attempt as nat + 1 },
        }
    }
}

/// The whole stop protocol over its inputs: the PID file contents, whether
/// the graceful signal could be delivered, and the liveness probe outcomes
/// in the order they would be made.
pub open spec fn spec_stop(
    pid_file: Option<Seq<char>>,
    term_ok: bool,
    probes: Seq<bool>,
) -> StopOutcome {
    match pid_file {
        None => StopOutcome::NoOp,
        Some(content) => match spec_parse_pid(content) {
            None => StopOutcome::NoOp,
            Some(_) => if term_ok {
                stop_polling(probes, 0)
            } else {
                StopOutcome::Failed
            },
        },
    }
}

/// Stopping an already-stopped daemon is a success that signals nothing, so
/// a second `stop` right after a completed one is a no-op: a completed stop
/// either removed the PID file (leaving none to read) or left a file that
/// holds no process id, and both read back as `NoOp`.
pub proof fn lemma_stop_idempotent(
    pid_file: Option<Seq<char>>,
    term_ok: bool,
    probes: Seq<bool>,
    term_ok2: bool,
    probes2: Seq<bool>,
)
    requires
        spec_stop(pid_file, term_ok, probes) != StopOutcome::Failed,
    ensures
        spec_stop(
            match pid_file {
                None => None,
                Some(content) => if spec_parse_pid(content) is Some {
                    None
                } else {
                    Some(content)
                },
            },
            term_ok2,
            probes2,
        ) == StopOutcome::NoOp,
{
}

proof fn lemma_stop_polling_all_alive(probes: Seq<bool>, attempt: u32)
    requires
        attempt <= STOP_POLL_ATTEMPTS,
        forall|i: int| 0 <= i < probes.len() ==> #[trigger] probes[i],
        probes.len() > STOP_POLL_ATTEMPTS,
    ensures
        stop_polling(probes, attempt) == (StopOutcome::Stopped {
            killed: true,
            polls: STOP_POLL_ATTEMPTS as nat + 1,
        }),
    decreases STOP_POLL_ATTEMPTS + 1 - attempt,
{
    assert(probe_at(probes, attempt as nat));
    if attempt < STOP_POLL_ATTEMPTS {
        lemma_stop_polling_all_alive(probes, (attempt + 1) as u32);
    }
}

/// A process that ignores the graceful signal is probed through the whole
/// window and then killed forcefully, exactly once, after the final check.
pub proof fn lemma_stop_escalates(content: Seq<char>, probes: Seq<bool>)
    requires
        spec_parse_pid(content) is Some,
        probes.len() > STOP_POLL_ATTEMPTS,
        forall|i: int| 0 <= i < probes.len() ==> #[trigger] probes[i],
    ensures
        spec_stop(Some(content), true, probes) == (StopOutcome::Stopped {
            killed: true,
            polls: STOP_POLL_ATTEMPTS as nat + 1,
        }),
{
    lemma_stop_polling_all_alive(probes, 0);
}

// ---------------------------------------------------------------------------
// The manager
// ---------------------------------------------------------------------------

/// The program and argument to spawn the daemon with.
#[derive(Debug)]
pub struct SpawnCommand {
    pub program: String,
    pub arg: String,
}

/// The runtime identity of the supervised daemon: where its executable,
/// configuration file and PID file live. The manager holds no process
/// handle; liveness is always derived from the PID file and a probe.
pub struct UdhcpdManager {
    pub executable_path: String,
    pub config_path: String,
    pub pid_path: String,
}

impl UdhcpdManager {
    pub fn new(executable_path: &str, config_path: &str, pid_path: &str) -> (r: Self)
        ensures
            r.executable_path@ == executable_path@,
            r.config_path@ == config_path@,
            r.pid_path@ == pid_path@,
    {
        UdhcpdManager {
            executable_path: executable_path.to_owned(),
            config_path: config_path.to_owned(),
            pid_path: pid_path.to_owned(),
        }
    }

    /// Parses the configuration file's text.
    pub fn read_config(&self, file_text: &str) -> (r: Result<UdhcpdConfig, UdhcpdError>)
        ensures
            match r {
                Ok(c) => spec_parse_config(file_text@) == Ok::<UdhcpdConfigView, Seq<char>>(c@),
                Err(e) => match spec_parse_config(file_text@) {
                    Err(t) => e matches UdhcpdError::InvalidIp(tok) && tok@ == t,
                    Ok(_) => false,
                },
            },
    {
        parse_config(file_text)
    }

    /// Renders a configuration to the text to be written to the file.
    pub fn write_config(&self, config: &UdhcpdConfig) -> (s: String)
        ensures
            s@ == spec_render_config(config@),
    {
        render_config(config)
    }

    /// The process id the PID file holds, or a `PidFile` error when the file
    /// is absent or does not parse.
    pub fn get_pid(&self, pid_file_content: Option<&String>) -> (r: Result<i32, UdhcpdError>)
        ensures
            match pid_file_content {
                None => r matches Err(UdhcpdError::PidFile(_)),
                Some(s) => match spec_parse_pid(s@) {
                    Some(p) => r matches Ok(q) && q == p,
                    None => r matches Err(UdhcpdError::PidFile(_)),
                },
            },
    {
        match pid_file_content {
            None => Err(UdhcpdError::PidFile("PID file not found".to_owned())),
            Some(content) => match parse_pid(content.as_str()) {
                Some(p) => Ok(p),
                None => Err(UdhcpdError::PidFile("failed to parse PID from file".to_owned())),
            },
        }
    }

    /// The liveness predicate: a PID file that parses, and a probe of that
    /// process that succeeds. Without a valid PID file the daemon counts as
    /// stopped; with one, the probe's outcome depends on the process table.
    pub fn is_running(&self, pid_file_content: Option<&String>) -> (r: bool)
        ensures
            (match pid_file_content {
                None => true,
                Some(s) => spec_parse_pid(s@) is None,
            }) ==> r == false,
    {
        match self.get_pid(pid_file_content) {
            Ok(pid) => kill_raw(pid, &ProcessSignal::Probe).is_ok(),
            Err(_) => false,
        }
    }

    /// Decides whether the daemon may be started: it must not already be
    /// running and its configuration file must exist; then the daemon is
    /// spawned with the configuration path as its sole argument.
    pub fn start_plan(&self, running: bool, config_file_exists: bool) -> (r: Result<
        SpawnCommand,
        UdhcpdError,
    >)
        ensures
            running ==> r matches Err(UdhcpdError::Process(_)),
            !running && !config_file_exists ==> r matches Err(UdhcpdError::Io(_)),
            !running && config_file_exists ==> (r matches Ok(cmd) && cmd.program@
                == self.executable_path@ && cmd.arg@ == self.config_path@),
    {
        if running {
            Err(UdhcpdError::Process("udhcpd is already running".to_owned()))
        } else if !config_file_exists {
            Err(UdhcpdError::Io("configuration file not found; cannot start service".to_owned()))
        } else {
            Ok(
                SpawnCommand {
                    program: self.executable_path.clone(),
                    arg: self.config_path.clone(),
                },
            )
        }
    }

    /// The text to write to the PID file after a successful spawn: the
    /// process id in decimal.
    pub fn pid_file_contents(&self, pid: u32) -> (s: String)
        ensures
            s@ == dec_chars(pid as nat),
            spec_parse_pid(s@) == Some(pid as i32) || pid > 0x7FFF_FFFF,
    {
        let s = render_u32(pid);
        proof {
            crate::text::lemma_dec_chars_wf(pid as nat);
            lemma_trim_nonspace(s@);
            if pid <= 0x7FFF_FFFF {
                assert(s@.len() >= 1 && s@[0] != '+' && s@[0] != '-') by {
                    assert(crate::text::is_digit(s@[0]));
                }
                assert(spec_parse_i32(s@) == Some(pid as i32));
            }
        }
        s
    }

    /// Begins the stop protocol: with no valid PID file the daemon is
    /// already stopped (a success, nothing is signalled); otherwise the
    /// graceful signal is delivered to the process the file names.
    pub fn stop_begin(&self, pid_file_content: Option<&String>) -> (r: StopBegin)
        ensures
            match pid_file_content {
                None => r is AlreadyStopped,
                Some(s) => match spec_parse_pid(s@) {
                    None => r is AlreadyStopped,
                    Some(p) => (r matches StopBegin::TermSent(q) && q == p) || r matches StopBegin::SignalFailed(_),
                },
            },
    {
        match self.get_pid(pid_file_content) {
            Err(_) => StopBegin::AlreadyStopped,
            Ok(pid) => match kill_raw(pid, &ProcessSignal::Term) {
                Ok(_) => StopBegin::TermSent(pid),
                Err(errno) => StopBegin::SignalFailed(errno),
            },
        }
    }

    /// One poll of the stop protocol: probes the process and decides whether
    /// to finish, keep waiting, or escalate, by `spec_poll_verdict`.
    pub fn stop_poll(&self, pid: i32, attempt: u32) -> (r: StopPoll)
        ensures
            exists|alive: bool| r == spec_poll_verdict(attempt, alive),
            attempt < STOP_POLL_ATTEMPTS ==> r != StopPoll::ForceKill,
            attempt >= STOP_POLL_ATTEMPTS ==> r != StopPoll::KeepWaiting,
    {
        let alive = kill_raw(pid, &ProcessSignal::Probe).is_ok();
        let r = poll_verdict(attempt, alive);
        proof {
            assert(r == spec_poll_verdict(attempt, alive));
        }
        r
    }

    /// Escalation: delivers the forceful signal. The protocol then removes
    /// the PID file and reports success without re-confirming death.
    pub fn stop_force(&self, pid: i32) -> (r: Result<(), UdhcpdError>)
        ensures
            r matches Err(e) ==> e matches UdhcpdError::Signal(_),
    {
        match kill_raw(pid, &ProcessSignal::Kill) {
            Ok(_) => Ok(()),
            Err(errno) => Err(UdhcpdError::Signal(errno)),
        }
    }
}

/// Trimming a string of non-whitespace characters leaves it unchanged.
proof fn lemma_trim_nonspace(s: Seq<char>)
    requires
        s.len() >= 1,
        forall|i: int| 0 <= i < s.len() ==> !crate::text::is_space(#[trigger] s[i]),
    ensures
        spec_trim(s) == s,
{
    crate::text::lemma_scan_nonspace_at(s, 0);
    assert(!crate::text::is_space(s.last()));
    assert(crate::text::trim_end_idx(s) == s.len());
    assert(s.subrange(0, s.len() as int) =~= s);
}

// ---------------------------------------------------------------------------
// Configuration mutation
// ---------------------------------------------------------------------------

/// Adding a lease replaces the first lease whose MAC matches (by exact
/// string equality), else appends; the rest keep their order.
pub open spec fn add_lease_spec(
    ls: Seq<StaticLeaseView>,
    lease: StaticLeaseView,
) -> Seq<StaticLeaseView>
    decreases ls.len(),
{
    if ls.len() == 0 {
        seq![lease]
    } else if ls[0].mac == lease.mac {
        seq![lease] + ls.drop_first()
    } else {
        seq![ls[0]] + add_lease_spec(ls.drop_first(), lease)
    }
}

/// Removing a MAC keeps, in order, exactly the leases whose MAC differs.
pub open spec fn remove_leases_spec(ls: Seq<StaticLeaseView>, mac: Seq<char>) -> Seq<
    StaticLeaseView,
>
    decreases ls.len(),
{
    if ls.len() == 0 {
        Seq::empty()
    } else if ls[0].mac == mac {
        remove_leases_spec(ls.drop_first(), mac)
    } else {
        seq![ls[0]] + remove_leases_spec(ls.drop_first(), mac)
    }
}

/// Adding a lease whose MAC is already present replaces that first match in
/// place: the list does not grow and every other lease is untouched.
pub proof fn lemma_add_lease_replaces(ls: Seq<StaticLeaseView>, lease: StaticLeaseView, i: int)
    requires
        0 <= i < ls.len(),
        ls[i].mac == lease.mac,
        forall|k: int| 0 <= k < i ==> #[trigger] ls[k].mac != lease.mac,
    ensures
        add_lease_spec(ls, lease) == ls.update(i, lease),
    decreases i,
{
    if i == 0 {
        assert(seq![lease] + ls.drop_first() =~= ls.update(0, lease));
    } else {
        let t = ls.drop_first();
        assert(t[i - 1].mac == lease.mac);
        assert(forall|k: int| 0 <= k < i - 1 ==> #[trigger] t[k].mac != lease.mac) by {
            assert(forall|k: int| 0 <= k < i - 1 ==> t[k] == ls[k + 1]);
        }
        lemma_add_lease_replaces(t, lease, i - 1);
        assert(seq![ls[0]] + t.update(i - 1, lease) =~= ls.update(i, lease));
    }
}

/// Adding a lease whose MAC is absent appends it; in particular, adds with
/// pairwise distinct MACs each grow the list by exactly one.
pub proof fn lemma_add_lease_appends(ls: Seq<StaticLeaseView>, lease: StaticLeaseView)
    requires
        forall|k: int| 0 <= k < ls.len() ==> #[trigger] ls[k].mac != lease.mac,
    ensures
        add_lease_spec(ls, lease) == ls.push(lease),
    decreases ls.len(),
{
    if ls.len() == 0 {
        assert(seq![lease] =~= ls.push(lease));
    } else {
        let t = ls.drop_first();
        assert(forall|k: int| 0 <= k < t.len() ==> #[trigger] t[k].mac != lease.mac) by {
            assert(forall|k: int| 0 <= k < t.len() ==> t[k] == ls[k + 1]);
        }
        lemma_add_lease_appends(t, lease);
        assert(seq![ls[0]] + t.push(lease) =~= ls.push(lease));
    }
}

/// A whole run of add-or-update operations, in order.
pub open spec fn add_all_leases(
    ls: Seq<StaticLeaseView>,
    adds: Seq<StaticLeaseView>,
) -> Seq<StaticLeaseView>
    decreases adds.len(),
{
    if adds.len() == 0 {
        ls
    } else {
        add_all_leases(add_lease_spec(ls, adds[0]), adds.drop_first())
    }
}

/// The observable half of the mutual-exclusion property: when every mutation
/// is serialized (the shell holds one lock around each add), a run of adds
/// with pairwise-distinct MACs, none of them present yet, leaves exactly one
/// lease per add — the table ends with one entry for each distinct MAC.
pub proof fn lemma_serialized_distinct_adds(
    ls: Seq<StaticLeaseView>,
    adds: Seq<StaticLeaseView>,
)
    requires
        forall|i: int, j: int|
            0 <= i < j < adds.len() ==> #[trigger] adds[i].mac != #[trigger] adds[j].mac,
        forall|i: int, k: int|
            0 <= i < adds.len() && 0 <= k < ls.len() ==> #[trigger] ls[k].mac != #[trigger] adds[i].mac,
    ensures
        add_all_leases(ls, adds) == ls + adds,
        add_all_leases(ls, adds).len() == ls.len() + adds.len(),
    decreases adds.len(),
{
    if adds.len() == 0 {
        assert(ls + adds =~= ls);
    } else {
        assert(forall|k: int| 0 <= k < ls.len() ==> #[trigger] ls[k].mac != adds[0].mac);
        lemma_add_lease_appends(ls, adds[0]);
        let ls2 = ls.push(adds[0]);
        let rest = adds.drop_first();
        assert(forall|i: int, j: int|
            0 <= i < j < rest.len() ==> #[trigger] rest[i].mac != #[trigger] rest[j].mac) by {
            assert(forall|i: int| 0 <= i < rest.len() ==> rest[i] == adds[i + 1]);
        }
        assert forall|i: int, k: int|
            0 <= i < rest.len() && 0 <= k < ls2.len() implies #[trigger] ls2[k].mac
            != #[trigger] rest[i].mac by {
            assert(rest[i] == adds[i + 1]);
            if k < ls.len() {
                assert(ls2[k] == ls[k]);
            } else {
                assert(ls2[k] == adds[0]);
            }
        }
        lemma_serialized_distinct_adds(ls2, rest);
        assert(ls.push(adds[0]) + rest =~= ls + adds);
    }
}

/// Removal removes every lease with the given MAC and keeps every other
/// lease, in order.
pub proof fn lemma_remove_leases_spec(ls: Seq<StaticLeaseView>, mac: Seq<char>)
    ensures
        forall|k: int|
            0 <= k < remove_leases_spec(ls, mac).len() ==> #[trigger] remove_leases_spec(
                ls,
                mac,
            )[k].mac != mac,
        forall|k: int|
            0 <= k < ls.len() && #[trigger] ls[k].mac != mac ==> remove_leases_spec(
                ls,
                mac,
            ).contains(ls[k]),
        remove_leases_spec(ls, mac).len() <= ls.len(),
    decreases ls.len(),
{
    if ls.len() > 0 {
        let t = ls.drop_first();
        lemma_remove_leases_spec(t, mac);
        let r = remove_leases_spec(ls, mac);
        let rt = remove_leases_spec(t, mac);
        assert forall|k: int| 0 <= k < ls.len() && #[trigger] ls[k].mac != mac implies r.contains(
            ls[k],
        ) by {
            if k == 0 {
                assert(ls[0].mac != mac);
                assert(r[0] == ls[0]);
            } else {
                assert(ls[k] == t[k - 1]);
                assert(rt.contains(t[k - 1]));
                let j = choose|j: int| 0 <= j < rt.len() && rt[j] == t[k - 1];
                if ls[0].mac == mac {
                    assert(r[j] == ls[k]);
                } else {
                    assert(r[j + 1] == ls[k]);
                }
            }
        }
    }
}

impl UdhcpdManager {
    /// The configuration seeded on first boot: the given interface, a
    /// private /24 address range, its netmask and gateway, two public DNS
    /// resolvers, and one marker comment carried as a passthrough line. When
    /// a file already exists and `overwrite` is false, the call fails with
    /// an already-exists condition and nothing is to be written.
    pub fn create_config_with_defaults(
        &self,
        interface: &str,
        file_exists: bool,
        overwrite: bool,
    ) -> (r: Result<UdhcpdConfig, UdhcpdError>)
        ensures
            file_exists && !overwrite ==> r matches Err(UdhcpdError::Io(_)),
            !(file_exists && !overwrite) ==> (r matches Ok(c) && c@ == default_config_view(
                interface@,
            )),
    {
        if file_exists && !overwrite {
            return Err(
                UdhcpdError::Io(
                    "configuration file already exists; set overwrite to replace it".to_owned(),
                ),
            );
        }
        let mut marker: Vec<String> = Vec::new();
        marker.push("# managed by meowtail".to_owned());
        let dns1 = Ipv4Addr::new(8, 8, 8, 8);
        let dns2 = Ipv4Addr::new(1, 1, 1, 1);
        let mut dns: Vec<Ipv4Addr> = Vec::new();
        dns.push(dns1);
        dns.push(dns2);
        let c = UdhcpdConfig {
            start: Some(Ipv4Addr::new(192, 168, 1, 100)),
            end: Some(Ipv4Addr::new(192, 168, 1, 200)),
            interface: Some(interface.to_owned()),
            subnet_mask: Some(Ipv4Addr::new(255, 255, 255, 0)),
            dns_servers: dns,
            router: Some(Ipv4Addr::new(192, 168, 1, 1)),
            static_leases: Vec::new(),
            remaining_lines: marker,
        };
        proof {
            assert(c@.dns_servers =~= default_config_view(interface@).dns_servers);
            assert(c@.static_leases =~= default_config_view(interface@).static_leases);
            assert(c@.remaining_lines =~= default_config_view(interface@).remaining_lines);
            assert(c@ =~= default_config_view(interface@));
        }
        Ok(c)
    }

    /// Sets the address range: read the file, change these two fields, write
    /// the file back — the caller holds its lock around the whole sequence.
    pub fn set_dhcp_range(&self, config: &mut UdhcpdConfig, start: Ipv4Addr, end: Ipv4Addr)
        ensures
            final(config)@ == (UdhcpdConfigView {
                start: Some(start),
                end: Some(end),
                ..old(config)@
            }),
    {
        config.start = Some(start);
        config.end = Some(end);
    }

    pub fn set_subnet_mask(&self, config: &mut UdhcpdConfig, mask: Ipv4Addr)
        ensures
            final(config)@ == (UdhcpdConfigView { subnet_mask: Some(mask), ..old(config)@ }),
    {
        config.subnet_mask = Some(mask);
    }

    pub fn set_dns_servers(&self, config: &mut UdhcpdConfig, servers: Vec<Ipv4Addr>)
        ensures
            final(config)@ == (UdhcpdConfigView { dns_servers: servers@, ..old(config)@ }),
    {
        config.dns_servers = servers;
    }

    pub fn set_gateway(&self, config: &mut UdhcpdConfig, gateway: Ipv4Addr)
        ensures
            final(config)@ == (UdhcpdConfigView { router: Some(gateway), ..old(config)@ }),
    {
        config.router = Some(gateway);
    }

    pub fn set_interface(&self, config: &mut UdhcpdConfig, interface: String)
        ensures
            final(config)@ == (UdhcpdConfigView { interface: Some(interface@), ..old(config)@ }),
    {
        config.interface = Some(interface);
    }

    /// Replaces the first lease with this MAC, else appends the lease.
    pub fn add_or_update_static_lease(&self, config: &mut UdhcpdConfig, lease: StaticLease)
        ensures
            final(config)@ == (UdhcpdConfigView {
                static_leases: add_lease_spec(old(config)@.static_leases, lease@),
                ..old(config)@
            }),
    {
        let ghost pre = config@.static_leases;
        let n = config.static_leases.len();
        let mut i: usize = 0;
        while i < n
            invariant
                i <= n == config.static_leases@.len(),
                config@ == old(config)@,
                pre == config@.static_leases,
                forall|k: int| 0 <= k < i ==> #[trigger] pre[k].mac != lease@.mac,
            decreases n - i,
        {
            if str_eq(config.static_leases[i].mac.as_str(), lease.mac.as_str()) {
                proof {
                    assert(pre[i as int] == config.static_leases@[i as int]@);
                    lemma_add_lease_replaces(pre, lease@, i as int);
                }
                let ghost prev = config@;
                config.static_leases.set(i, lease);
                proof {
                    assert(config@.static_leases =~= pre.update(i as int, lease@));
                    assert(config@ =~= (UdhcpdConfigView {
                        static_leases: add_lease_spec(prev.static_leases, lease@),
                        ..prev
                    }));
                }
                return ;
            }
            proof {
                assert(pre[i as int] == config.static_leases@[i as int]@);
            }
            i = i + 1;
        }
        proof {
            lemma_add_lease_appends(pre, lease@);
        }
        let ghost prev = config@;
        config.static_leases.push(lease);
        proof {
            assert(config@.static_leases =~= pre.push(lease@));
            assert(config@ =~= (UdhcpdConfigView {
                static_leases: add_lease_spec(prev.static_leases, lease@),
                ..prev
            }));
        }
    }

    /// Removes every lease with this MAC (all matches, not just the first —
    /// deliberately asymmetric with add's first-match semantics).
    pub fn remove_static_lease(&self, config: &mut UdhcpdConfig, mac_address: &str)
        ensures
            final(config)@ == (UdhcpdConfigView {
                static_leases: remove_leases_spec(old(config)@.static_leases, mac_address@),
                ..old(config)@
            }),
    {
        let ghost pre = config@.static_leases;
        let mut kept: Vec<StaticLease> = Vec::new();
        let n = config.static_leases.len();
        let mut i: usize = 0;
        proof {
            assert(pre.skip(0int) =~= pre);
        }
        while i < n
            invariant
                i <= n == config.static_leases@.len(),
                config@ == old(config)@,
                pre == config@.static_leases,
                remove_leases_spec(pre, mac_address@) == kept@.map_values(|l: StaticLease| l@)
                    + remove_leases_spec(pre.skip(i as int), mac_address@),
            decreases n - i,
        {
            let ghost suf = pre.skip(i as int);
            proof {
                assert(suf[0] == pre[i as int]);
                assert(pre[i as int] == config.static_leases@[i as int]@);
                assert(suf.drop_first() =~= pre.skip(i as int + 1));
            }
            if !str_eq(config.static_leases[i].mac.as_str(), mac_address) {
                let ghost kv = kept@.map_values(|l: StaticLease| l@);
                kept.push(config.static_leases[i].clone());
                proof {
                    assert(kept@.map_values(|l: StaticLease| l@) =~= kv.push(pre[i as int]));
                    assert((kv + (seq![pre[i as int]] + remove_leases_spec(
                        pre.skip(i as int + 1),
                        mac_address@,
                    ))) =~= (kv.push(pre[i as int]) + remove_leases_spec(
                        pre.skip(i as int + 1),
                        mac_address@,
                    )));
                }
            }
            i = i + 1;
        }
        let ghost prev = config@;
        config.static_leases = kept;
        proof {
            assert(pre.skip(n as int) =~= Seq::<StaticLeaseView>::empty());
            assert(remove_leases_spec(Seq::<StaticLeaseView>::empty(), mac_address@)
                =~= Seq::<StaticLeaseView>::empty());
            assert(config@.static_leases =~= remove_leases_spec(pre, mac_address@));
            assert(config@ =~= (UdhcpdConfigView {
                static_leases: remove_leases_spec(prev.static_leases, mac_address@),
                ..prev
            }));
        }
    }
}

/// The configuration written on first boot.
pub open spec fn default_config_view(interface: Seq<char>) -> UdhcpdConfigView {
    UdhcpdConfigView {
        start: Some(Ipv4Addr { a: 192, b: 168, c: 1, d: 100 }),
        end: Some(Ipv4Addr { a: 192, b: 168, c: 1, d: 200 }),
        interface: Some(interface),
        subnet_mask: Some(Ipv4Addr { a: 255, b: 255, c: 255, d: 0 }),
        dns_servers: seq![
            Ipv4Addr { a: 8, b: 8, c: 8, d: 8 },
            Ipv4Addr { a: 1, b: 1, c: 1, d: 1 },
        ],
        router: Some(Ipv4Addr { a: 192, b: 168, c: 1, d: 1 }),
        static_leases: Seq::empty(),
        remaining_lines: seq!["# managed by meowtail"@],
    }
}

} // verus!
