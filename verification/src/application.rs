//! Per-application records and their lifecycle state machine.
//!
//! An application is a declaratively-configured unit of execution with a
//! start command, a stop command, and a lifecycle driven by the scheduler.
//! The record itself never spawns a process: the driver spawns and reports
//! the outcome, and the transition methods here compute the next state.
//! Stop transitions deliver SIGTERM themselves (through a small trusted
//! call into `nix`), and kill escalation delivers SIGKILL likewise.

use vstd::prelude::*;

use crate::limits::RLimit;
use crate::stream::Stream;

verus! {

/// Execution flavour of an application.
///
/// *Simple*: the start command's own process is the service.  *Forking*:
/// the start command exits after spawning the service, whose PID is read
/// from a pid-file.  *OneShot*: the start command runs to completion and is
/// not kept alive.
#[derive(Clone, Copy, Debug, PartialEq, Eq, Structural)]
pub enum Mode {
    Simple,
    Forking,
    OneShot,
}

/// Lifecycle state of one application record.
///
/// `Running { dead: true }` marks a record whose service died unexpectedly
/// (or whose pid-file was unreadable): it is still formally "running" so
/// the scheduler can drive a proper stop transition for cleanup, but no PID
/// is tracked any more.  `Stopping.restart` records whether the record
/// returns to `Idle` (eligible to start again) or rests at `Stopped` once
/// everything is reaped.
#[derive(Clone, Copy, Debug)]
pub enum AppState {
    Idle,
    Starting { exec_pid: u32 },
    Running { app_pid: Option<u32>, dead: bool },
    Stopping { exec_pid: Option<u32>, app_pid: Option<u32>, restart: bool },
    Complete,
    Stopped,
}

/// A record is in exactly one lifecycle state.
pub open spec fn in_exactly_one_state(s: AppState) -> bool {
    (if s is Idle { 1int } else { 0int }) + (if s is Starting { 1int } else { 0int }) + (if s
        is Running { 1int } else { 0int }) + (if s is Stopping { 1int } else { 0int }) + (if s
        is Complete { 1int } else { 0int }) + (if s is Stopped { 1int } else { 0int }) == 1
}

/// Every reachable value of `AppState` is in exactly one state: the six
/// state predicates are exhaustive and mutually exclusive.
pub proof fn lemma_state_exclusive(s: AppState)
    ensures
        in_exactly_one_state(s),
{
}

/// One supervised application: immutable configuration plus the mutable
/// lifecycle state.
#[derive(Clone, Debug)]
pub struct Application {
    /// Stable identity.
    pub id: String,
    pub mode: Mode,
    /// Working directory for the start/stop commands.
    pub dir: String,
    /// Where a Forking service advertises its PID.
    pub pidfile: Option<String>,
    /// Environment handed to the commands (parent environment cleared).
    pub env: Vec<(String, String)>,
    /// Start command argv.
    pub start: Vec<String>,
    /// Stop command argv; may be empty (nothing to run on stop).
    pub stop: Vec<String>,
    /// Health-check groups this application subscribes to.
    pub healthchecks: Vec<String>,
    /// Resource limits applied to spawned commands.
    pub limits: Vec<RLimit>,
    pub stdout: Option<Stream>,
    pub stderr: Option<Stream>,
    pub state: AppState,
    /// Ids of applications that must be started before this one.
    pub depends: Vec<String>,
}

/// The service PID a record tracks while running or stopping.
pub open spec fn spec_app_pid(s: AppState) -> Option<u32> {
    match s {
        AppState::Running { app_pid, .. } => app_pid,
        AppState::Stopping { app_pid, .. } => app_pid,
        _ => None,
    }
}

/// Every PID the record still tracks (and SIGKILL escalation must target).
pub open spec fn spec_tracked_pids(s: AppState) -> Seq<u32> {
    match s {
        AppState::Starting { exec_pid } => seq![exec_pid],
        AppState::Running { app_pid, .. } => match app_pid {
            Some(p) => seq![p],
            None => Seq::empty(),
        },
        AppState::Stopping { exec_pid, app_pid, .. } => (match exec_pid {
            Some(p) => seq![p],
            None => Seq::empty(),
        }) + (match app_pid {
            Some(p) => seq![p],
            None => Seq::empty(),
        }),
        _ => Seq::empty(),
    }
}

/// Whether the record would claim a reaped child with PID `child`: the PID
/// must be one its state carries.
pub open spec fn claims_pid(s: AppState, child: u32) -> bool {
    match s {
        AppState::Starting { exec_pid } => exec_pid == child,
        AppState::Running { app_pid, .. } => app_pid == Some(child),
        AppState::Stopping { exec_pid, app_pid, .. } => exec_pid == Some(child) || app_pid == Some(
            child,
        ),
        _ => false,
    }
}

/// A record claims exactly the PIDs it tracks.
pub proof fn lemma_claims_pid(s: AppState, child: u32)
    ensures
        claims_pid(s, child) == spec_tracked_pids(s).contains(child),
{
    let pids = spec_tracked_pids(s);
    match s {
        AppState::Starting { exec_pid } => {
            if exec_pid == child {
                assert(pids[0] == child);
            }
        },
        AppState::Running { app_pid, .. } => {
            if app_pid == Some(child) {
                assert(pids[0] == child);
            }
        },
        AppState::Stopping { exec_pid, app_pid, .. } => {
            if exec_pid == Some(child) {
                assert(pids[0] == child);
            } else if app_pid == Some(child) {
                assert(pids[pids.len() - 1] == child);
            }
        },
        _ => {},
    }
}

/// The state after the record claims the reaped child `child` with exit
/// status `status`.  `file_pid` is the PID read from the pid-file (when the
/// record is a starting Forking service and the driver could read one).
pub open spec fn claim_next(app: Application, child: u32, status: i32, file_pid: Option<u32>) -> AppState {
    match app.state {
        AppState::Starting { exec_pid } => match app.mode {
            Mode::OneShot => if status == 0 {
                AppState::Complete
            } else {
                AppState::Idle
            },
            _ => if status != 0 {
                AppState::Idle
            } else {
                match file_pid {
                    Some(p) => if p > 0 {
                        AppState::Running { app_pid: Some(p), dead: false }
                    } else {
                        AppState::Running { app_pid: None, dead: true }
                    },
                    None => AppState::Running { app_pid: None, dead: true },
                }
            },
        },
        AppState::Running { .. } => AppState::Running { app_pid: None, dead: true },
        AppState::Stopping { exec_pid, app_pid, restart } => {
            if app_pid == Some(child) && exec_pid is Some {
                AppState::Stopping { exec_pid, app_pid: None, restart }
            } else if exec_pid == Some(child) && app_pid is Some && app_pid != Some(child) {
                AppState::Stopping { exec_pid: None, app_pid, restart }
            } else if restart {
                AppState::Idle
            } else {
                AppState::Stopped
            }
        },
        _ => app.state,
    }
}

/// The state after a stop transition.  `exec` is the PID of the spawned
/// stop command, when one was spawned.  While any PID remains outstanding
/// the record is `Stopping`; with nothing left it rests at `Idle` (restart
/// wanted) or `Stopped` (shutdown).
pub open spec fn stop_next(app: Application, exec: Option<u32>, restart: bool) -> AppState {
    let app_pid = spec_app_pid(app.state);
    if exec is Some || app_pid is Some {
        AppState::Stopping { exec_pid: exec, app_pid, restart }
    } else if restart {
        AppState::Idle
    } else {
        AppState::Stopped
    }
}

/// The PID a stop transition terminates directly: with no stop command in
/// flight, the tracked service PID receives SIGTERM.
pub open spec fn stop_signal_target(app: Application, exec: Option<u32>) -> Option<u32> {
    if exec is None {
        spec_app_pid(app.state)
    } else {
        None
    }
}

/// The state after a successful spawn of the start command: a Simple
/// service is immediately `Running` under that PID; Forking and OneShot
/// await the command's exit in `Starting`.
pub open spec fn start_next(app: Application, exec_pid: u32) -> AppState {
    match app.mode {
        Mode::Simple => AppState::Running { app_pid: Some(exec_pid), dead: false },
        _ => AppState::Starting { exec_pid },
    }
}

pub const SIGTERM_NUM: i32 = 15;

pub const SIGKILL_NUM: i32 = 9;

/// Relies on `nix::sys::signal::kill` (and `Signal::try_from` to decode the
/// signal number): delivers the signal to the process `pid` and reports
/// whether the kernel accepted it.  Nothing further is assumed of the
/// outcome.
#[verifier::external_body]
fn send_signal(pid: u32, signum: i32) -> (ok: bool)
    requires
        1 <= pid <= 0x7fff_ffff,
        signum == SIGKILL_NUM || signum == SIGTERM_NUM,
{
    match nix::sys::signal::Signal::try_from(signum) {
        Ok(sig) => nix::sys::signal::kill(nix::unistd::Pid::from_raw(pid as i32), sig).is_ok(),
        Err(_) => false,
    }
}

/// Delivers `signum` when `pid` is a plausible process id; PIDs outside
/// `1..=i32::MAX` (e.g. a nonsense pid-file value) are never signalled,
/// since 0 and negative values would address whole process groups.
fn signal_checked(pid: u32, signum: i32)
    requires
        signum == SIGKILL_NUM || signum == SIGTERM_NUM,
{
    if 1 <= pid && pid <= 0x7fff_ffff {
        let _ok = send_signal(pid, signum);
    }
}

impl Application {
    /// The record is idle: not running, eligible to start.
    pub fn is_idle(&self) -> (r: bool)
        ensures
            r == (self.state is Idle),
    {
        matches!(self.state, AppState::Idle)
    }

    /// A OneShot run to successful completion.
    pub fn is_complete(&self) -> (r: bool)
        ensures
            r == (self.state is Complete),
    {
        matches!(self.state, AppState::Complete)
    }

    /// The record counts as started for its dependents: running, or a
    /// completed OneShot.
    pub fn is_started(&self) -> (r: bool)
        ensures
            r == (self.state is Running || self.state is Complete),
    {
        matches!(self.state, AppState::Running { .. } | AppState::Complete)
    }

    /// The record rests at its shutdown terminal state.
    pub fn is_stopped(&self) -> (r: bool)
        ensures
            r == (self.state is Stopped),
    {
        matches!(self.state, AppState::Stopped)
    }

    /// The stop command has finished but the service PID is still alive:
    /// the scheduler should arm a kill timer.
    pub fn is_runaway(&self) -> (r: bool)
        ensures
            r == (self.state matches AppState::Stopping { exec_pid: None, app_pid: Some(_), .. }),
    {
        matches!(self.state, AppState::Stopping { exec_pid: None, app_pid: Some(_), .. })
    }

    /// The service died unexpectedly (or never advertised a readable PID);
    /// the scheduler should drive a stop transition for cleanup.
    pub fn is_dead(&self) -> (r: bool)
        ensures
            r == (self.state matches AppState::Running { dead: true, .. }),
    {
        matches!(self.state, AppState::Running { dead: true, .. })
    }

    /// The tracked service PID, while one is running or stopping.
    pub fn get_app_pid(&self) -> (r: Option<u32>)
        ensures
            r == spec_app_pid(self.state),
    {
        match self.state {
            AppState::Running { app_pid, .. } => app_pid,
            AppState::Stopping { app_pid, .. } => app_pid,
            _ => None,
        }
    }

    /// Records a successful spawn of the start command as child `exec_pid`.
    /// Returns the PID to await (`None` for Simple mode, whose spawn *is*
    /// the service).
    pub fn start(&mut self, exec_pid: u32) -> (r: Option<u32>)
        requires
            old(self).state is Idle,
            exec_pid > 0,
        ensures
            *final(self) == (Application { state: start_next(*old(self), exec_pid), ..*old(self) }),
            r == (if old(self).mode is Simple {
                Option::<u32>::None
            } else {
                Some(exec_pid)
            }),
    {
        match self.mode {
            Mode::Simple => {
                self.state = AppState::Running { app_pid: Some(exec_pid), dead: false };
                None
            },
            _ => {
                self.state = AppState::Starting { exec_pid };
                Some(exec_pid)
            },
        }
    }

    /// Applies the stop transition.  `exec` is the PID of the stop command
    /// the driver spawned, when the record wants one (see
    /// [`Self::stop_wants_exec`]); with no stop command in flight, the
    /// tracked service PID is sent SIGTERM here.  Returns the signalled PID.
    pub fn stop(&mut self, exec: Option<u32>, restart: bool) -> (r: Option<u32>)
        requires
            old(self).state is Idle || old(self).state is Running || old(self).state is Complete,
            old(self).mode is Simple ==> exec is None,
        ensures
            *final(self) == (Application { state: stop_next(*old(self), exec, restart), ..*old(self) }),
            r == stop_signal_target(*old(self), exec),
    {
        let app_pid = self.get_app_pid();
        let target = if exec.is_none() {
            app_pid
        } else {
            None
        };
        if let Some(p) = target {
            signal_checked(p, SIGTERM_NUM);
        }
        if exec.is_some() || app_pid.is_some() {
            self.state = AppState::Stopping { exec_pid: exec, app_pid, restart };
        } else if restart {
            self.state = AppState::Idle;
        } else {
            self.state = AppState::Stopped;
        }
        target
    }

    /// Whether the stop transition needs the driver to spawn the declared
    /// stop command first: Simple services are stopped by SIGTERM alone,
    /// and an empty stop command means there is nothing to run.
    pub fn stop_wants_exec(&self) -> (r: bool)
        ensures
            r == (!(self.mode is Simple) && self.stop@.len() > 0),
    {
        !matches!(self.mode, Mode::Simple) && self.stop.len() > 0
    }

    /// Kill escalation: sends SIGKILL to every PID the record still tracks.
    /// The state does not change here; the reaping loop observes the exits.
    /// Returns the targeted PIDs.
    pub fn kill(&self) -> (r: Vec<u32>)
        ensures
            r@ == spec_tracked_pids(self.state),
    {
        let mut pids: Vec<u32> = Vec::new();
        match self.state {
            AppState::Starting { exec_pid } => {
                pids.push(exec_pid);
            },
            AppState::Running { app_pid, .. } => {
                if let Some(p) = app_pid {
                    pids.push(p);
                }
            },
            AppState::Stopping { exec_pid, app_pid, .. } => {
                if let Some(p) = exec_pid {
                    pids.push(p);
                }
                if let Some(p) = app_pid {
                    pids.push(p);
                }
            },
            _ => {},
        }
        let n = pids.len();
        let mut i: usize = 0;
        while i < n
            invariant
                n == pids@.len(),
                0 <= i <= n,
                pids@ == spec_tracked_pids(self.state),
            decreases n - i,
        {
            signal_checked(pids[i], SIGKILL_NUM);
            i += 1;
        }
        pids
    }

    /// Asks the record to claim a reaped child: returns true and applies
    /// the corresponding transition iff `child` is a PID it tracks.
    ///
    /// `file_pid` is the pid-file content (already parsed) for a Forking
    /// record whose start command just succeeded, `None` when the file was
    /// unreadable; it is ignored in every other situation.
    pub fn claim_child(&mut self, child: u32, status: i32, file_pid: Option<u32>) -> (claimed: bool)
        requires
            old(self).mode is Simple ==> !(old(self).state is Starting),
        ensures
            claimed == claims_pid(old(self).state, child),
            claimed ==> *final(self) == (Application {
                state: claim_next(*old(self), child, status, file_pid),
                ..*old(self)
            }),
            !claimed ==> *final(self) == *old(self),
    {
        match self.state {
            AppState::Starting { exec_pid } => {
                if exec_pid != child {
                    return false;
                }
                match self.mode {
                    Mode::OneShot => {
                        if status == 0 {
                            self.state = AppState::Complete;
                        } else {
                            self.state = AppState::Idle;
                        }
                    },
                    _ => {
                        if status != 0 {
                            self.state = AppState::Idle;
                        } else {
                            match file_pid {
                                Some(p) if p > 0 => {
                                    self.state = AppState::Running { app_pid: Some(p), dead: false };
                                },
                                _ => {
                                    self.state = AppState::Running { app_pid: None, dead: true };
                                },
                            }
                        }
                    },
                }
                true
            },
            AppState::Running { app_pid, .. } => {
                if app_pid == Some(child) {
                    self.state = AppState::Running { app_pid: None, dead: true };
                    true
                } else {
                    false
                }
            },
            AppState::Stopping { exec_pid, app_pid, restart } => {
                if app_pid != Some(child) && exec_pid != Some(child) {
                    return false;
                }
                if app_pid == Some(child) && exec_pid.is_some() {
                    self.state = AppState::Stopping { exec_pid, app_pid: None, restart };
                } else if exec_pid == Some(child) && app_pid.is_some() && app_pid != Some(child) {
                    self.state = AppState::Stopping { exec_pid: None, app_pid, restart };
                } else if restart {
                    self.state = AppState::Idle;
                } else {
                    self.state = AppState::Stopped;
                }
                true
            },
            _ => {
                false
            },
        }
    }
}

} // verus!
