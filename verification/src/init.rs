//! The supervision scheduler.
//!
//! A single owner of the whole application set.  The driver around it runs
//! the event loop: on every tick it asks which records are due a kill, a
//! stop or a start, performs the process work (spawning is the driver's
//! job), and reports outcomes and events back through the `apply_*` and
//! `handle_*` methods.  Everything decided here — eligibility, cascade
//! stops, grace timers, backoff — is computed from plain state and is fully
//! specified.

use vstd::prelude::*;

use crate::application::claim_next;
use crate::application::claims_pid;
use crate::application::spec_tracked_pids;
use crate::application::start_next;
use crate::application::stop_next;
use crate::application::stop_signal_target;
use crate::application::AppState;
use crate::application::Application;

verus! {

/// Grace period between a stop transition and SIGKILL escalation, in the
/// driver's time unit (milliseconds).
pub const GRACE_MS: u64 = 5000;

/// Backoff before a failed or restarting record may start again.
pub const BACKOFF_MS: u64 = 1000;

/// One application under supervision, together with the scheduler's
/// per-record bookkeeping.
#[derive(Clone, Debug)]
pub struct InitApp {
    pub inner: Application,
    /// A stop has been requested and not yet issued.
    pub needs_stop: bool,
    /// Whether the requested stop should lead back to `Idle` (restart) or
    /// to `Stopped` (shutdown).
    pub restart: bool,
    /// When SIGKILL escalation fires, if armed.
    pub kill_time: Option<u64>,
    /// Earliest next start (backoff), if armed.
    pub start_time: Option<u64>,
    /// Indices of every application this one transitively depends on.
    pub depends: Vec<usize>,
    /// Indices of every application that transitively depends on this one.
    pub rdepends: Vec<usize>,
}

impl InitApp {
    /// Wraps a fresh application record: no pending stop, no timers, and
    /// dependency indices not yet resolved.
    pub fn new(app: Application) -> (r: Self)
        ensures
            r.inner == app,
            !r.needs_stop,
            !r.restart,
            r.kill_time is None,
            r.start_time is None,
            r.depends@ =~= Seq::<usize>::empty(),
            r.rdepends@ =~= Seq::<usize>::empty(),
    {
        InitApp {
            inner: app,
            needs_stop: false,
            restart: false,
            kill_time: None,
            start_time: None,
            depends: Vec::new(),
            rdepends: Vec::new(),
        }
    }
}

/// The scheduler: owns every record, plus the global shutdown flag.
#[derive(Debug)]
pub struct Init {
    pub applications: Vec<InitApp>,
    pub shutdown: bool,
}

/// Every resolved dependency index points inside the application vector.
pub open spec fn deps_wf(apps: Seq<InitApp>) -> bool {
    forall|i: int, k: int|
        0 <= i < apps.len() && 0 <= k < apps[i].depends@.len() ==> (#[trigger] apps[i].depends@[k])
            < apps.len()
}

/// Every reverse-dependency index points inside the application vector.
pub open spec fn rdeps_wf(apps: Seq<InitApp>) -> bool {
    forall|i: int, k: int|
        0 <= i < apps.len() && 0 <= k < apps[i].rdepends@.len() ==> (
        #[trigger] apps[i].rdepends@[k]) < apps.len()
}

/// Scheduler well-formedness: all index lists resolved in range.
pub open spec fn wf(s: Init) -> bool {
    deps_wf(s.applications@) && rdeps_wf(s.applications@)
}

/// A record marked for a cascading stop-and-restart.
pub open spec fn mark_stop(a: InitApp) -> InitApp {
    InitApp { needs_stop: true, restart: true, ..a }
}

/// `j` appears in the resolved reverse-dependency list of record `idx`.
pub open spec fn rdep_contains(apps: Seq<InitApp>, idx: int, j: int) -> bool {
    exists|m: int|
        0 <= m < apps[idx].rdepends@.len() && (#[trigger] apps[idx].rdepends@[m]) as int == j
}

/// The application set after a stop of record `idx` is scheduled: the
/// record itself and every transitive reverse-dependent is marked
/// `needs_stop` with restart wanted.
pub open spec fn schedule_stop_spec(apps: Seq<InitApp>, idx: int) -> Seq<InitApp> {
    Seq::new(
        apps.len(),
        |j: int|
            if j == idx || rdep_contains(apps, idx, j) {
                mark_stop(apps[j])
            } else {
                apps[j]
            },
    )
}

/// Scheduling the same record's stop twice is the same as scheduling it
/// once: marking is idempotent, and marking changes no dependency list.
pub proof fn lemma_schedule_stop_idempotent(apps: Seq<InitApp>, idx: int)
    requires
        0 <= idx < apps.len(),
    ensures
        schedule_stop_spec(schedule_stop_spec(apps, idx), idx) =~= schedule_stop_spec(apps, idx),
{
    let once = schedule_stop_spec(apps, idx);
    assert(once[idx].rdepends@ == apps[idx].rdepends@);
}

/// A record marked for shutdown: stop wanted, no restart.
pub open spec fn mark_term(a: InitApp) -> InitApp {
    InitApp { needs_stop: true, restart: false, ..a }
}

/// The application set after a termination signal.
pub open spec fn term_marked(apps: Seq<InitApp>) -> Seq<InitApp> {
    Seq::new(apps.len(), |j: int| mark_term(apps[j]))
}

/// A second termination signal after the first changes nothing: the marking
/// is idempotent, so the run ends in the same terminal state either way.
pub proof fn lemma_handle_term_idempotent(apps: Seq<InitApp>)
    ensures
        term_marked(term_marked(apps)) =~= term_marked(apps),
{
}

impl Init {
    /// Wraps a set of application records for supervision.  Dependency
    /// indices are not resolved yet: see [`Self::setup_dependencies`].
    pub fn new(mut applications: Vec<Application>) -> (r: Init)
        ensures
            wf(r),
            !r.shutdown,
            r.applications@.len() == applications@.len(),
            forall|i: int|
                0 <= i < applications@.len() ==> {
                    let a = #[trigger] r.applications@[i];
                    &&& a.inner == applications@[i]
                    &&& !a.needs_stop
                    &&& !a.restart
                    &&& a.kill_time is None
                    &&& a.start_time is None
                    &&& a.depends@.len() == 0
                    &&& a.rdepends@.len() == 0
                },
    {
        let ghost orig = applications@;
        let mut apps: Vec<InitApp> = Vec::new();
        while applications.len() > 0
            invariant
                apps@.len() + applications@.len() == orig.len(),
                applications@ =~= orig.skip(apps@.len() as int),
                forall|k: int|
                    0 <= k < apps@.len() ==> {
                        let a = #[trigger] apps@[k];
                        &&& a.inner == orig[k]
                        &&& !a.needs_stop
                        &&& !a.restart
                        &&& a.kill_time is None
                        &&& a.start_time is None
                        &&& a.depends@.len() == 0
                        &&& a.rdepends@.len() == 0
                    },
            decreases applications@.len(),
        {
            let ghost done = apps@.len() as int;
            let app = applications.remove(0);
            proof {
                assert(app == orig.skip(done)[0]);
                assert(app == orig[done]);
                assert(applications@ =~= orig.skip(done + 1));
            }
            apps.push(InitApp::new(app));
        }
        Init { applications: apps, shutdown: false }
    }

    /// Marks record `idx` and all its reverse-dependents for a
    /// stop-and-restart cascade.
    pub fn schedule_stop(&mut self, idx: usize)
        requires
            idx < old(self).applications@.len(),
            rdeps_wf(old(self).applications@),
        ensures
            final(self).applications@ =~= schedule_stop_spec(old(self).applications@, idx as int),
            final(self).shutdown == old(self).shutdown,
            wf(*old(self)) ==> wf(*final(self)),
            modes_wf(old(self).applications@) ==> modes_wf(final(self).applications@),
    {
        let ghost orig = self.applications@;
        self.applications[idx].needs_stop = true;
        self.applications[idx].restart = true;
        proof {
            assert(self.applications@ =~= orig.update(idx as int, mark_stop(orig[idx as int])));
        }
        let rn = self.applications[idx].rdepends.len();
        let mut k: usize = 0;
        while k < rn
            invariant
                idx < orig.len(),
                rdeps_wf(orig),
                rn == orig[idx as int].rdepends@.len(),
                0 <= k <= rn,
                self.shutdown == old(self).shutdown,
                self.applications@.len() == orig.len(),
                self.applications@[idx as int].rdepends@ == orig[idx as int].rdepends@,
                forall|j: int|
                    0 <= j < orig.len() ==> #[trigger] self.applications@[j] == (if j == idx || (
                    exists|m: int|
                        0 <= m < k && (#[trigger] orig[idx as int].rdepends@[m]) as int == j) {
                        mark_stop(orig[j])
                    } else {
                        orig[j]
                    }),
            decreases rn - k,
        {
            let ghost prev = self.applications@;
            let r = self.applications[idx].rdepends[k];
            proof {
                assert(orig[idx as int].rdepends@[k as int] == r);
                assert(r < orig.len());
            }
            self.applications[r].needs_stop = true;
            self.applications[r].restart = true;
            proof {
                assert(self.applications@ =~= prev.update(r as int, mark_stop(prev[r as int])));
                assert(mark_stop(mark_stop(orig[r as int])) == mark_stop(orig[r as int]));
                assert forall|j: int| 0 <= j < orig.len() implies #[trigger] self.applications@[j]
                    == (if j == idx || (exists|m: int|
                    0 <= m < k + 1 && (#[trigger] orig[idx as int].rdepends@[m]) as int == j) {
                    mark_stop(orig[j])
                } else {
                    orig[j]
                }) by {
                    if j == r as int {
                        assert((orig[idx as int].rdepends@[k as int]) as int == j);
                    } else {
                        assert(self.applications@[j] == prev[j]);
                        assert forall|m: int|
                            0 <= m < k + 1 && (#[trigger] orig[idx as int].rdepends@[m]) as int
                                == j implies m < k by {}
                    }
                }
            }
            k += 1;
        }
        proof {
            assert forall|j: int| 0 <= j < orig.len() implies #[trigger] self.applications@[j]
                == schedule_stop_spec(orig, idx as int)[j] by {
                assert(rdep_contains(orig, idx as int, j) == (exists|m: int|
                    0 <= m < rn && (#[trigger] orig[idx as int].rdepends@[m]) as int == j));
            }
        }
    }

    /// Reacts to SIGTERM or SIGINT: enters shutdown and marks every record
    /// to stop with no restart.
    pub fn handle_term(&mut self)
        ensures
            final(self).shutdown,
            final(self).applications@ =~= term_marked(old(self).applications@),
            wf(*old(self)) ==> wf(*final(self)),
            modes_wf(old(self).applications@) ==> modes_wf(final(self).applications@),
    {
        let ghost orig = self.applications@;
        self.shutdown = true;
        let n = self.applications.len();
        let mut i: usize = 0;
        while i < n
            invariant
                n == orig.len(),
                0 <= i <= n,
                self.shutdown,
                self.applications@.len() == n,
                forall|j: int| i <= j < n ==> #[trigger] self.applications@[j] == orig[j],
                forall|j: int|
                    0 <= j < i ==> #[trigger] self.applications@[j] == mark_term(orig[j]),
            decreases n - i,
        {
            let ghost prev = self.applications@;
            self.applications[i].needs_stop = true;
            self.applications[i].restart = false;
            proof {
                assert(self.applications@ =~= prev.update(i as int, mark_term(prev[i as int])));
            }
            i += 1;
        }
    }

    /// Every record rests at a terminal state: a completed OneShot or a
    /// stopped record.  Shutdown may end once this holds.
    pub fn all_stopped(&self) -> (r: bool)
        ensures
            r == forall|i: int|
                0 <= i < self.applications@.len() ==> (#[trigger] self.applications@[i].inner.state)
                    is Complete || self.applications@[i].inner.state is Stopped,
    {
        let n = self.applications.len();
        let mut i: usize = 0;
        while i < n
            invariant
                n == self.applications@.len(),
                0 <= i <= n,
                forall|j: int|
                    0 <= j < i ==> (#[trigger] self.applications@[j].inner.state) is Complete
                        || self.applications@[j].inner.state is Stopped,
            decreases n - i,
        {
            let terminal = {
                let a = &self.applications[i];
                a.is_complete_or_stopped()
            };
            if !terminal {
                return false;
            }
            i += 1;
        }
        true
    }

    /// The earliest armed timer deadline (kill or backoff) over all
    /// records, if any timer is armed at all.
    pub fn get_next_timeout(&self) -> (r: Option<u64>)
        ensures
            match r {
                None => forall|i: int|
                    0 <= i < self.applications@.len() ==> (
                    #[trigger] self.applications@[i].kill_time) is None
                        && self.applications@[i].start_time is None,
                Some(t) => {
                    &&& exists|i: int|
                        0 <= i < self.applications@.len() && ((
                        #[trigger] self.applications@[i].kill_time) == Some(t)
                            || self.applications@[i].start_time == Some(t))
                    &&& forall|i: int|
                        0 <= i < self.applications@.len() ==> match (
                        #[trigger] self.applications@[i].kill_time) {
                            Some(v) => t <= v,
                            None => true,
                        } && match self.applications@[i].start_time {
                            Some(v) => t <= v,
                            None => true,
                        }
                },
            },
    {
        let n = self.applications.len();
        let mut best: Option<u64> = None;
        let mut i: usize = 0;
        while i < n
            invariant
                n == self.applications@.len(),
                0 <= i <= n,
                match best {
                    None => forall|j: int|
                        0 <= j < i ==> (#[trigger] self.applications@[j].kill_time) is None
                            && self.applications@[j].start_time is None,
                    Some(t) => {
                        &&& exists|j: int|
                            0 <= j < i && ((#[trigger] self.applications@[j].kill_time) == Some(t)
                                || self.applications@[j].start_time == Some(t))
                        &&& forall|j: int|
                            0 <= j < i ==> match (#[trigger] self.applications@[j].kill_time) {
                                Some(v) => t <= v,
                                None => true,
                            } && match self.applications@[j].start_time {
                                Some(v) => t <= v,
                                None => true,
                            }
                    },
                },
            decreases n - i,
        {
            let a = &self.applications[i];
            if let Some(v) = a.kill_time {
                best = match best {
                    None => Some(v),
                    Some(b) => if v < b {
                        Some(v)
                    } else {
                        Some(b)
                    },
                };
            }
            if let Some(v) = a.start_time {
                best = match best {
                    None => Some(v),
                    Some(b) => if v < b {
                        Some(v)
                    } else {
                        Some(b)
                    },
                };
            }
            i += 1;
        }
        best
    }
}

impl InitApp {
    /// The record rests at a terminal state.
    pub fn is_complete_or_stopped(&self) -> (r: bool)
        ensures
            r == (self.inner.state is Complete || self.inner.state is Stopped),
    {
        matches!(self.inner.state, AppState::Complete | AppState::Stopped)
    }
}

/// Dependency `d` satisfies a dependent that wants to start: it is started
/// (running or a completed OneShot) and no stop of it is pending.
pub open spec fn dep_ok(apps: Seq<InitApp>, d: int) -> bool {
    &&& 0 <= d < apps.len()
    &&& (apps[d].inner.state is Running || apps[d].inner.state is Complete)
    &&& !apps[d].needs_stop
}

/// The record's start backoff, if armed, has elapsed.
pub open spec fn backoff_elapsed(a: InitApp, now: u64) -> bool {
    match a.start_time {
        None => true,
        Some(t) => t <= now,
    }
}

/// Record `i` may enter Starting at time `now`: no shutdown in progress,
/// the record is idle with its backoff elapsed, and every dependency is
/// started with no stop pending.
pub open spec fn start_eligible(s: Init, i: int, now: u64) -> bool {
    &&& !s.shutdown
    &&& 0 <= i < s.applications@.len()
    &&& s.applications@[i].inner.state is Idle
    &&& backoff_elapsed(s.applications@[i], now)
    &&& forall|k: int|
        0 <= k < s.applications@[i].depends@.len() ==> dep_ok(
            s.applications@,
            (#[trigger] s.applications@[i].depends@[k]) as int,
        )
}

/// A record enters Starting only at ticks where each of its dependencies
/// is Running or Complete and has no stop pending.
pub proof fn lemma_start_respects_dependencies(s: Init, i: int, now: u64, k: int)
    requires
        start_eligible(s, i, now),
        0 <= k < s.applications@[i].depends@.len(),
    ensures
        ({
            let d = s.applications@[i].depends@[k] as int;
            &&& (s.applications@[d].inner.state is Running || s.applications@[d].inner.state
                is Complete)
            &&& !s.applications@[d].needs_stop
        }),
{
}

/// An idle record with no dependencies and no backoff is eligible on any
/// tick (outside shutdown): it starts as soon as a tick runs.
pub proof fn lemma_no_deps_starts_immediately(s: Init, i: int, now: u64)
    requires
        !s.shutdown,
        0 <= i < s.applications@.len(),
        s.applications@[i].inner.state is Idle,
        s.applications@[i].start_time is None,
        s.applications@[i].depends@.len() == 0,
    ensures
        start_eligible(s, i, now),
{
}

/// Every reverse-dependent of record `i` has quiesced: idle, a completed
/// OneShot, or stopped.
pub open spec fn rdeps_quiesced(apps: Seq<InitApp>, i: int) -> bool {
    forall|k: int|
        0 <= k < apps[i].rdepends@.len() ==> {
            let r = (#[trigger] apps[i].rdepends@[k]) as int;
            &&& 0 <= r < apps.len()
            &&& (apps[r].inner.state is Idle || apps[r].inner.state is Complete
                || apps[r].inner.state is Stopped)
        }
}

/// Record `i` is due its requested stop: a stop is pending, the record is
/// in a state the stop transition accepts, and every reverse-dependent has
/// quiesced.
pub open spec fn stop_due(s: Init, i: int) -> bool {
    &&& 0 <= i < s.applications@.len()
    &&& s.applications@[i].needs_stop
    &&& (s.applications@[i].inner.state is Idle || s.applications@[i].inner.state is Running
        || s.applications@[i].inner.state is Complete)
    &&& rdeps_quiesced(s.applications@, i)
}

/// A record enters Stopping only at ticks where each of its
/// reverse-dependents is Idle, Complete or Stopped.
pub proof fn lemma_stop_waits_for_dependents(s: Init, i: int, k: int)
    requires
        stop_due(s, i),
        0 <= k < s.applications@[i].rdepends@.len(),
    ensures
        ({
            let r = s.applications@[i].rdepends@[k] as int;
            s.applications@[r].inner.state is Idle || s.applications@[r].inner.state is Complete
                || s.applications@[r].inner.state is Stopped
        }),
{
}

/// Record `i`'s kill escalation is due: its grace timer is armed and has
/// expired.
pub open spec fn kill_due(s: Init, i: int, now: u64) -> bool {
    &&& 0 <= i < s.applications@.len()
    &&& match s.applications@[i].kill_time {
        Some(t) => t <= now,
        None => false,
    }
}

/// Once a record's grace deadline has passed, its kill escalation is due on
/// the next tick.
pub proof fn lemma_grace_deadline_escalates(s: Init, i: int, t: u64, now: u64)
    requires
        0 <= i < s.applications@.len(),
        s.applications@[i].kill_time == Some(t),
        t <= now,
    ensures
        kill_due(s, i, now),
{
}

/// No record tracks the reaped PID `child`.
pub open spec fn no_claimant(apps: Seq<InitApp>, child: u32) -> bool {
    forall|i: int| 0 <= i < apps.len() ==> !claims_pid((#[trigger] apps[i]).inner.state, child)
}

/// No Simple-mode record is ever in Starting: a Simple spawn goes straight
/// to Running.
pub open spec fn modes_wf(apps: Seq<InitApp>) -> bool {
    forall|i: int|
        0 <= i < apps.len() ==> ((#[trigger] apps[i].inner.mode) is Simple ==> !(
        apps[i].inner.state is Starting))
}

/// The application set after record `i` claims the reaped child `child`
/// and the scheduler reacts: an unexpected death schedules a cleanup stop
/// cascade, a runaway stop arms the kill timer, and a record gone idle
/// drops its kill timer and backs off its next start.
pub open spec fn post_claim_spec(
    apps: Seq<InitApp>,
    i: int,
    child: u32,
    status: i32,
    file_pid: Option<u32>,
    now: u64,
) -> Seq<InitApp> {
    let inner2 = Application {
        state: claim_next(apps[i].inner, child, status, file_pid),
        ..apps[i].inner
    };
    let a2 = InitApp { inner: inner2, ..apps[i] };
    let apps2 = apps.update(i, a2);
    if inner2.state matches AppState::Running { dead: true, .. } {
        schedule_stop_spec(apps2, i)
    } else if inner2.state matches AppState::Stopping { exec_pid: None, app_pid: Some(_), .. } {
        apps2.update(i, InitApp { kill_time: Some((now + GRACE_MS) as u64), ..a2 })
    } else if inner2.state is Idle {
        apps2.update(
            i,
            InitApp { kill_time: None, start_time: Some((now + BACKOFF_MS) as u64), ..a2 },
        )
    } else {
        apps2
    }
}

/// A reaped PID is claimed by at most one record: after record `i` claims
/// it, every other record keeps its application record (state and all)
/// unchanged — a death cascade touches only the others' stop-request
/// flags, never their lifecycle.
pub proof fn lemma_claim_touches_one_record(
    apps: Seq<InitApp>,
    i: int,
    child: u32,
    status: i32,
    file_pid: Option<u32>,
    now: u64,
    j: int,
)
    requires
        0 <= i < apps.len(),
        0 <= j < apps.len(),
        j != i,
    ensures
        post_claim_spec(apps, i, child, status, file_pid, now)[j].inner == apps[j].inner,
{
}

impl Init {
    /// Decides which records may start on this tick, in ascending index
    /// order.  The driver spawns each one's start command and reports the
    /// outcome through [`Self::apply_start`].
    pub fn starts_due(&self, now: u64) -> (r: Vec<usize>)
        requires
            deps_wf(self.applications@),
        ensures
            forall|k1: int, k2: int| 0 <= k1 < k2 < r@.len() ==> r@[k1] < r@[k2],
            forall|i: usize|
                (i as int) < self.applications@.len() ==> (r@.contains(i) == start_eligible(
                    *self,
                    i as int,
                    now,
                )),
            forall|k: int| 0 <= k < r@.len() ==> (#[trigger] r@[k]) < self.applications@.len(),
    {
        let mut r: Vec<usize> = Vec::new();
        let n = self.applications.len();
        let mut i: usize = 0;
        while i < n
            invariant
                n == self.applications@.len(),
                0 <= i <= n,
                deps_wf(self.applications@),
                forall|k1: int, k2: int| 0 <= k1 < k2 < r@.len() ==> r@[k1] < r@[k2],
                forall|k: int| 0 <= k < r@.len() ==> (#[trigger] r@[k]) < i,
                forall|j: usize|
                    (j as int) < i ==> (r@.contains(j) == start_eligible(*self, j as int, now)),
            decreases n - i,
        {
            let ghost prev = r@;
            if self.start_eligible_at(i, now) {
                r.push(i);
                proof {
                    assert(r@[r@.len() - 1] == i);
                    assert forall|j: usize| (j as int) < i implies (prev.contains(j)
                        == #[trigger] r@.contains(j)) by {
                        if prev.contains(j) {
                            let m = choose|m: int| 0 <= m < prev.len() && prev[m] == j;
                            assert(r@[m] == j);
                        }
                        if r@.contains(j) {
                            let m = choose|m: int| 0 <= m < r@.len() && r@[m] == j;
                            assert(0 <= m < prev.len());
                            assert(prev[m] == j);
                        }
                    }
                    assert(r@.contains(i));
                }
            } else {
                proof {
                    assert(forall|j: usize| #[trigger] r@.contains(j) ==> (j as int) < i);
                }
            }
            i += 1;
        }
        r
    }

    /// Whether record `i` may start on this tick.
    fn start_eligible_at(&self, i: usize, now: u64) -> (r: bool)
        requires
            deps_wf(self.applications@),
            (i as int) < self.applications@.len(),
        ensures
            r == start_eligible(*self, i as int, now),
    {
        if self.shutdown {
            return false;
        }
        let a = &self.applications[i];
        if !a.inner.is_idle() {
            return false;
        }
        if let Some(t) = a.start_time {
            if t > now {
                return false;
            }
        }
        let dn = a.depends.len();
        let mut k: usize = 0;
        while k < dn
            invariant
                deps_wf(self.applications@),
                (i as int) < self.applications@.len(),
                a == self.applications@[i as int],
                dn == a.depends@.len(),
                0 <= k <= dn,
                forall|m: int|
                    0 <= m < k ==> dep_ok(
                        self.applications@,
                        (#[trigger] a.depends@[m]) as int,
                    ),
            decreases dn - k,
        {
            let d = a.depends[k];
            proof {
                assert(a.depends@[k as int] == d);
                assert((d as int) < self.applications@.len());
            }
            let dep = &self.applications[d];
            if !dep.inner.is_started() || dep.needs_stop {
                proof {
                    assert(!dep_ok(self.applications@, d as int));
                }
                return false;
            }
            k += 1;
        }
        true
    }

    /// Reports the outcome of spawning record `idx`'s start command:
    /// `Some(pid)` transitions the record (Starting, or straight to Running
    /// for Simple mode) and returns the PID the driver must await;
    /// `None` (spawn failure) leaves the record idle and backs off its next
    /// start attempt.
    pub fn apply_start(&mut self, idx: usize, exec_pid: Option<u32>, now: u64) -> (r: Option<u32>)
        requires
            (idx as int) < old(self).applications@.len(),
            start_eligible(*old(self), idx as int, now),
            exec_pid matches Some(p) ==> p > 0,
            now + BACKOFF_MS <= u64::MAX,
        ensures
            final(self).shutdown == old(self).shutdown,
            final(self).applications@.len() == old(self).applications@.len(),
            wf(*old(self)) ==> wf(*final(self)),
            modes_wf(old(self).applications@) ==> modes_wf(final(self).applications@),
            forall|j: int|
                0 <= j < old(self).applications@.len() && j != idx
                    ==> final(self).applications@[j] == old(self).applications@[j],
            match exec_pid {
                Some(p) => {
                    &&& final(self).applications@[idx as int] == (InitApp {
                        inner: (Application {
                            state: start_next(old(self).applications@[idx as int].inner, p),
                            ..old(self).applications@[idx as int].inner
                        }),
                        start_time: None,
                        ..old(self).applications@[idx as int]
                    })
                    &&& r == (if old(self).applications@[idx as int].inner.mode is Simple {
                        Option::<u32>::None
                    } else {
                        Some(p)
                    })
                },
                None => {
                    &&& final(self).applications@[idx as int] == (InitApp {
                        start_time: Some((now + BACKOFF_MS) as u64),
                        ..old(self).applications@[idx as int]
                    })
                    &&& r is None
                },
            },
    {
        let a = &mut self.applications[idx];
        match exec_pid {
            Some(p) => {
                let r = a.inner.start(p);
                a.start_time = None;
                r
            },
            None => {
                a.start_time = Some(now + BACKOFF_MS);
                None
            },
        }
    }

    /// Decides which records are issued their pending stop on this tick:
    /// those marked `needs_stop` whose reverse-dependents have all
    /// quiesced.  Ascending index order.
    pub fn stops_due(&self) -> (r: Vec<usize>)
        requires
            rdeps_wf(self.applications@),
        ensures
            forall|k1: int, k2: int| 0 <= k1 < k2 < r@.len() ==> r@[k1] < r@[k2],
            forall|i: usize|
                (i as int) < self.applications@.len() ==> (r@.contains(i) == stop_due(
                    *self,
                    i as int,
                )),
            forall|k: int| 0 <= k < r@.len() ==> (#[trigger] r@[k]) < self.applications@.len(),
    {
        let mut r: Vec<usize> = Vec::new();
        let n = self.applications.len();
        let mut i: usize = 0;
        while i < n
            invariant
                n == self.applications@.len(),
                0 <= i <= n,
                rdeps_wf(self.applications@),
                forall|k1: int, k2: int| 0 <= k1 < k2 < r@.len() ==> r@[k1] < r@[k2],
                forall|k: int| 0 <= k < r@.len() ==> (#[trigger] r@[k]) < i,
                forall|j: usize|
                    (j as int) < i ==> (r@.contains(j) == stop_due(*self, j as int)),
            decreases n - i,
        {
            let ghost prev = r@;
            if self.stop_due_at(i) {
                r.push(i);
                proof {
                    assert(r@[r@.len() - 1] == i);
                    assert forall|j: usize| (j as int) < i implies (prev.contains(j)
                        == #[trigger] r@.contains(j)) by {
                        if prev.contains(j) {
                            let m = choose|m: int| 0 <= m < prev.len() && prev[m] == j;
                            assert(r@[m] == j);
                        }
                        if r@.contains(j) {
                            let m = choose|m: int| 0 <= m < r@.len() && r@[m] == j;
                            assert(0 <= m < prev.len());
                            assert(prev[m] == j);
                        }
                    }
                    assert(r@.contains(i));
                }
            } else {
                proof {
                    assert(forall|j: usize| #[trigger] r@.contains(j) ==> (j as int) < i);
                }
            }
            i += 1;
        }
        r
    }

    /// Whether record `i` is due its pending stop on this tick.
    fn stop_due_at(&self, i: usize) -> (r: bool)
        requires
            rdeps_wf(self.applications@),
            (i as int) < self.applications@.len(),
        ensures
            r == stop_due(*self, i as int),
    {
        let a = &self.applications[i];
        if !a.needs_stop {
            return false;
        }
        if !matches!(
            a.inner.state,
            AppState::Idle | AppState::Running { .. } | AppState::Complete
        ) {
            return false;
        }
        let rn = a.rdepends.len();
        let mut k: usize = 0;
        while k < rn
            invariant
                rdeps_wf(self.applications@),
                (i as int) < self.applications@.len(),
                a == self.applications@[i as int],
                rn == a.rdepends@.len(),
                0 <= k <= rn,
                forall|m: int|
                    0 <= m < k ==> {
                        let rr = (#[trigger] a.rdepends@[m]) as int;
                        &&& 0 <= rr < self.applications@.len()
                        &&& (self.applications@[rr].inner.state is Idle
                            || self.applications@[rr].inner.state is Complete
                            || self.applications@[rr].inner.state is Stopped)
                    },
            decreases rn - k,
        {
            let d = a.rdepends[k];
            proof {
                assert(a.rdepends@[k as int] == d);
                assert((d as int) < self.applications@.len());
            }
            let dep = &self.applications[d];
            if !matches!(
                dep.inner.state,
                AppState::Idle | AppState::Complete | AppState::Stopped
            ) {
                proof {
                    assert(!rdeps_quiesced(self.applications@, i as int));
                }
                return false;
            }
            k += 1;
        }
        true
    }

    /// Issues record `idx`'s pending stop.  `exec` is the PID of the stop
    /// command the driver spawned beforehand (when the record wants one).
    /// A record that enters Stopping gets its grace timer armed at
    /// `now + GRACE_MS`; one that lands back at Idle backs off its next
    /// start.  The restart wish is honoured only outside shutdown.
    /// Returns the PID sent SIGTERM, if any.
    pub fn apply_stop(&mut self, idx: usize, exec: Option<u32>, now: u64) -> (r: Option<u32>)
        requires
            (idx as int) < old(self).applications@.len(),
            stop_due(*old(self), idx as int),
            old(self).applications@[idx as int].inner.mode is Simple ==> exec is None,
            now + GRACE_MS <= u64::MAX,
            now + BACKOFF_MS <= u64::MAX,
        ensures
            final(self).shutdown == old(self).shutdown,
            final(self).applications@.len() == old(self).applications@.len(),
            wf(*old(self)) ==> wf(*final(self)),
            modes_wf(old(self).applications@) ==> modes_wf(final(self).applications@),
            forall|j: int|
                0 <= j < old(self).applications@.len() && j != idx
                    ==> final(self).applications@[j] == old(self).applications@[j],
            ({
                let pre = old(self).applications@[idx as int];
                let eff_restart = pre.restart && !old(self).shutdown;
                let state2 = stop_next(pre.inner, exec, eff_restart);
                &&& final(self).applications@[idx as int] == (InitApp {
                    inner: (Application { state: state2, ..pre.inner }),
                    needs_stop: false,
                    kill_time: if state2 is Stopping {
                        Some((now + GRACE_MS) as u64)
                    } else {
                        None
                    },
                    start_time: if state2 is Idle {
                        Some((now + BACKOFF_MS) as u64)
                    } else {
                        pre.start_time
                    },
                    ..pre
                })
                &&& r == stop_signal_target(pre.inner, exec)
            }),
    {
        let shutdown = self.shutdown;
        let a = &mut self.applications[idx];
        let eff_restart = a.restart && !shutdown;
        let r = a.inner.stop(exec, eff_restart);
        a.needs_stop = false;
        if matches!(a.inner.state, AppState::Stopping { .. }) {
            a.kill_time = Some(now + GRACE_MS);
        } else {
            a.kill_time = None;
        }
        if matches!(a.inner.state, AppState::Idle) {
            a.start_time = Some(now + BACKOFF_MS);
        }
        r
    }

    /// Fires every expired grace timer: sends SIGKILL to each PID the
    /// record still tracks and clears the timer.  Returns, in ascending
    /// order, each escalated record with the PIDs that were targeted.
    pub fn do_kills(&mut self, now: u64) -> (r: Vec<(usize, Vec<u32>)>)
        ensures
            final(self).shutdown == old(self).shutdown,
            final(self).applications@.len() == old(self).applications@.len(),
            wf(*old(self)) ==> wf(*final(self)),
            modes_wf(old(self).applications@) ==> modes_wf(final(self).applications@),
            forall|j: int|
                0 <= j < old(self).applications@.len() ==> final(self).applications@[j] == (if
                kill_due(*old(self), j, now) {
                    (InitApp { kill_time: None, ..old(self).applications@[j] })
                } else {
                    old(self).applications@[j]
                }),
            forall|k1: int, k2: int| 0 <= k1 < k2 < r@.len() ==> r@[k1].0 < r@[k2].0,
            forall|k: int|
                0 <= k < r@.len() ==> kill_due(*old(self), (#[trigger] r@[k]).0 as int, now)
                    && r@[k].1@ == spec_tracked_pids(
                    old(self).applications@[r@[k].0 as int].inner.state,
                ),
            forall|i: usize|
                (i as int) < old(self).applications@.len() && kill_due(*old(self), i as int, now)
                    ==> exists|k: int| 0 <= k < r@.len() && (#[trigger] r@[k]).0 == i,
    {
        let mut r: Vec<(usize, Vec<u32>)> = Vec::new();
        let n = self.applications.len();
        let mut i: usize = 0;
        while i < n
            invariant
                n == old(self).applications@.len(),
                0 <= i <= n,
                self.shutdown == old(self).shutdown,
                self.applications@.len() == n,
                forall|j: int| i <= j < n ==> self.applications@[j] == old(self).applications@[j],
                forall|j: int|
                    0 <= j < i ==> self.applications@[j] == (if kill_due(*old(self), j, now) {
                        (InitApp { kill_time: None, ..old(self).applications@[j] })
                    } else {
                        old(self).applications@[j]
                    }),
                forall|k1: int, k2: int| 0 <= k1 < k2 < r@.len() ==> r@[k1].0 < r@[k2].0,
                forall|k: int| 0 <= k < r@.len() ==> (#[trigger] r@[k]).0 < i,
                forall|k: int|
                    0 <= k < r@.len() ==> kill_due(*old(self), (#[trigger] r@[k]).0 as int, now)
                        && r@[k].1@ == spec_tracked_pids(
                        old(self).applications@[r@[k].0 as int].inner.state,
                    ),
                forall|j: usize|
                    (j as int) < i && kill_due(*old(self), j as int, now) ==> exists|k: int|
                        0 <= k < r@.len() && (#[trigger] r@[k]).0 == j,
            decreases n - i,
        {
            let due = match self.applications[i].kill_time {
                Some(t) => t <= now,
                None => false,
            };
            if due {
                let pids = {
                    let a = &self.applications[i];
                    a.inner.kill()
                };
                let ghost prev = self.applications@;
                self.applications[i].kill_time = None;
                proof {
                    assert(self.applications@ =~= prev.update(
                        i as int,
                        InitApp { kill_time: None, ..prev[i as int] },
                    ));
                }
                let ghost rprev = r@;
                r.push((i, pids));
                proof {
                    assert(r@[r@.len() - 1].0 == i);
                    assert(forall|k: int| 0 <= k < rprev.len() ==> r@[k] == rprev[k]);
                }
            }
            i += 1;
        }
        r
    }

    /// Reacts to a reaped child `(child, status)`: asks each record in turn
    /// to claim the PID and stops at the first that does (so at most one
    /// record ever claims a reaped PID).  `file_pid` is the parsed pid-file
    /// content the driver read in case a Forking record was waiting on it.
    /// Returns the claimant's index; `None` means an adopted zombie that
    /// belongs to nobody, and nothing changes.
    pub fn handle_child(
        &mut self,
        child: u32,
        status: i32,
        file_pid: Option<u32>,
        now: u64,
    ) -> (r: Option<usize>)
        requires
            modes_wf(old(self).applications@),
            rdeps_wf(old(self).applications@),
            now + GRACE_MS <= u64::MAX,
            now + BACKOFF_MS <= u64::MAX,
        ensures
            final(self).shutdown == old(self).shutdown,
            wf(*old(self)) ==> wf(*final(self)),
            modes_wf(old(self).applications@) ==> modes_wf(final(self).applications@),
            match r {
                None => {
                    &&& no_claimant(old(self).applications@, child)
                    &&& final(self).applications@ == old(self).applications@
                },
                Some(i) => {
                    &&& (i as int) < old(self).applications@.len()
                    &&& claims_pid(old(self).applications@[i as int].inner.state, child)
                    &&& forall|j: int|
                        0 <= j < i ==> !claims_pid(
                            (#[trigger] old(self).applications@[j]).inner.state,
                            child,
                        )
                    &&& final(self).applications@ =~= post_claim_spec(
                        old(self).applications@,
                        i as int,
                        child,
                        status,
                        file_pid,
                        now,
                    )
                },
            },
    {
        let n = self.applications.len();
        let mut i: usize = 0;
        while i < n
            invariant
                n == old(self).applications@.len(),
                0 <= i <= n,
                modes_wf(old(self).applications@),
                rdeps_wf(old(self).applications@),
                now + GRACE_MS <= u64::MAX,
                now + BACKOFF_MS <= u64::MAX,
                self.shutdown == old(self).shutdown,
                self.applications@ == old(self).applications@,
                forall|j: int|
                    0 <= j < i ==> !claims_pid(
                        (#[trigger] old(self).applications@[j]).inner.state,
                        child,
                    ),
            decreases n - i,
        {
            let claimed = {
                let a = &mut self.applications[i];
                a.inner.claim_child(child, status, file_pid)
            };
            if claimed {
                proof {
                    assert(self.applications@ =~= old(self).applications@.update(
                        i as int,
                        InitApp {
                            inner: Application {
                                state: claim_next(
                                    old(self).applications@[i as int].inner,
                                    child,
                                    status,
                                    file_pid,
                                ),
                                ..old(self).applications@[i as int].inner
                            },
                            ..old(self).applications@[i as int]
                        },
                    ));
                }
                let ghost apps2 = self.applications@;
                let dead = {
                    let a = &self.applications[i];
                    a.inner.is_dead()
                };
                if dead {
                    self.schedule_stop(i);
                    proof {
                        assert(self.applications@ =~= schedule_stop_spec(apps2, i as int));
                    }
                } else {
                    let runaway = {
                        let a = &self.applications[i];
                        a.inner.is_runaway()
                    };
                    let idle = {
                        let a = &self.applications[i];
                        a.inner.is_idle()
                    };
                    if runaway {
                        let ghost prev = self.applications@;
                        self.applications[i].kill_time = Some(now + GRACE_MS);
                        proof {
                            assert(self.applications@ =~= prev.update(
                                i as int,
                                InitApp {
                                    kill_time: Some((now + GRACE_MS) as u64),
                                    ..prev[i as int]
                                },
                            ));
                        }
                    } else if idle {
                        let ghost prev = self.applications@;
                        self.applications[i].kill_time = None;
                        self.applications[i].start_time = Some(now + BACKOFF_MS);
                        proof {
                            assert(self.applications@ =~= prev.update(
                                i as int,
                                InitApp {
                                    kill_time: None,
                                    start_time: Some((now + BACKOFF_MS) as u64),
                                    ..prev[i as int]
                                },
                            ));
                        }
                    }
                }
                return Some(i);
            }
            i += 1;
        }
        None
    }

    /// Record `i` subscribes to health-check group `group`.
    fn subscribes(&self, i: usize, group: &String) -> (r: bool)
        requires
            (i as int) < self.applications@.len(),
        ensures
            r == subscribed(self.applications@, i as int, group@),
    {
        let a = &self.applications[i];
        let hn = a.inner.healthchecks.len();
        let mut k: usize = 0;
        while k < hn
            invariant
                (i as int) < self.applications@.len(),
                a == self.applications@[i as int],
                hn == a.inner.healthchecks@.len(),
                0 <= k <= hn,
                forall|m: int| 0 <= m < k ==> (#[trigger] a.inner.healthchecks@[m])@ != group@,
            decreases hn - k,
        {
            if a.inner.healthchecks[k] == *group {
                proof {
                    assert(a.inner.healthchecks@[k as int]@ == group@);
                }
                return true;
            }
            k += 1;
        }
        false
    }

    /// Reacts to a health-check failure in `group`: every subscribed record
    /// and each of its transitive reverse-dependents is marked to stop with
    /// restart wanted.
    pub fn handle_healthcheck_fail(&mut self, group: &String)
        requires
            rdeps_wf(old(self).applications@),
        ensures
            final(self).shutdown == old(self).shutdown,
            final(self).applications@.len() == old(self).applications@.len(),
            wf(*old(self)) ==> wf(*final(self)),
            modes_wf(old(self).applications@) ==> modes_wf(final(self).applications@),
            forall|j: int|
                0 <= j < old(self).applications@.len() ==> final(self).applications@[j] == (if
                fail_marked(old(self).applications@, group@, j) {
                    mark_stop(old(self).applications@[j])
                } else {
                    old(self).applications@[j]
                }),
    {
        let ghost orig = self.applications@;
        let n = self.applications.len();
        let mut i: usize = 0;
        while i < n
            invariant
                n == orig.len(),
                0 <= i <= n,
                rdeps_wf(orig),
                self.shutdown == old(self).shutdown,
                self.applications@.len() == n,
                forall|j: int|
                    0 <= j < n ==> #[trigger] self.applications@[j] == (if fail_marked_upto(
                        orig,
                        group@,
                        j,
                        i as int,
                    ) {
                        mark_stop(orig[j])
                    } else {
                        orig[j]
                    }),
            decreases n - i,
        {
            let ghost prev = self.applications@;
            let g = {
                let ghost_i = i;
                self.subscribes(i, group)
            };
            proof {
                assert(subscribed(self.applications@, i as int, group@) == subscribed(
                    orig,
                    i as int,
                    group@,
                )) by {
                    assert(self.applications@[i as int].inner.healthchecks@ == orig[i as int]
                        .inner.healthchecks@);
                }
            }
            if g {
                self.schedule_stop(i);
                proof {
                    lemma_fail_mark_step(orig, prev, self.applications@, group@, i as int);
                }
            } else {
                proof {
                    assert forall|j: int| 0 <= j < n implies #[trigger] self.applications@[j]
                        == (if fail_marked_upto(orig, group@, j, i + 1) {
                        mark_stop(orig[j])
                    } else {
                        orig[j]
                    }) by {
                        if fail_marked_upto(orig, group@, j, i + 1) {
                            assert(fail_marked_upto(orig, group@, j, i as int));
                        } else {
                            assert(!fail_marked_upto(orig, group@, j, i as int));
                        }
                    }
                }
            }
            i += 1;
        }
        proof {
            assert forall|j: int| 0 <= j < n implies (fail_marked_upto(orig, group@, j, n as int)
                == fail_marked(orig, group@, j)) by {}
        }
    }
}

/// `j` is the record that the application id `name` resolves to: the first
/// record bearing that id.
pub open spec fn is_first_id(apps: Seq<InitApp>, name: Seq<char>, j: int) -> bool {
    &&& 0 <= j < apps.len()
    &&& apps[j].inner.id@ == name
    &&& forall|m: int| 0 <= m < j ==> (#[trigger] apps[m].inner.id)@ != name
}

/// The direct dependency relation: record `i` names an id that resolves to
/// record `j`.
pub open spec fn dep_edge(apps: Seq<InitApp>, i: int, j: int) -> bool {
    &&& 0 <= i < apps.len()
    &&& exists|k: int|
        0 <= k < apps[i].inner.depends@.len() && is_first_id(
            apps,
            (#[trigger] apps[i].inner.depends@[k])@,
            j,
        )
}

/// `p` walks dependency edges: at least one step, each consecutive pair an
/// edge.
pub open spec fn is_dep_path(apps: Seq<InitApp>, p: Seq<int>) -> bool {
    &&& p.len() >= 2
    &&& forall|t: int| 0 <= t < p.len() - 1 ==> dep_edge(apps, #[trigger] p[t], p[t + 1])
}

/// Record `j` is in record `i`'s transitive dependency closure: some
/// dependency path leads from `i` to `j`.
pub open spec fn reaches(apps: Seq<InitApp>, i: int, j: int) -> bool {
    exists|p: Seq<int>| is_dep_path(apps, p) && p[0] == i && p.last() == j
}

/// A single edge is a path.
pub proof fn lemma_edge_reaches(apps: Seq<InitApp>, i: int, j: int)
    requires
        dep_edge(apps, i, j),
    ensures
        reaches(apps, i, j),
{
    let p = seq![i, j];
    assert(p.last() == j);
    assert(forall|t: int| 0 <= t < p.len() - 1 ==> dep_edge(apps, #[trigger] p[t], p[t + 1]));
    assert(is_dep_path(apps, p));
}

/// Reachability extends along an edge.
pub proof fn lemma_reaches_step(apps: Seq<InitApp>, i: int, v: int, w: int)
    requires
        reaches(apps, i, v),
        dep_edge(apps, v, w),
    ensures
        reaches(apps, i, w),
{
    let p = choose|p: Seq<int>| is_dep_path(apps, p) && p[0] == i && p.last() == v;
    let q = p.push(w);
    assert(q.last() == w);
    assert(q[0] == i);
    assert forall|t: int| 0 <= t < q.len() - 1 implies dep_edge(apps, #[trigger] q[t], q[t + 1]) by {
        if t < p.len() - 1 {
            assert(q[t] == p[t] && q[t + 1] == p[t + 1]);
        } else {
            assert(q[t] == p.last() && q[t + 1] == w);
        }
    }
    assert(is_dep_path(apps, q));
}

/// A set of marks that contains every direct successor of `i` and is
/// closed under edges contains everything reachable from `i`.
proof fn lemma_closed_marks_complete(apps: Seq<InitApp>, marks: Seq<bool>, i: int, j: int)
    requires
        marks.len() == apps.len(),
        forall|w: int| dep_edge(apps, i, w) ==> 0 <= w < apps.len() && #[trigger] marks[w],
        forall|v: int, w: int|
            0 <= v < apps.len() && marks[v] && #[trigger] dep_edge(apps, v, w) ==> 0 <= w
                < apps.len() && marks[w],
        reaches(apps, i, j),
    ensures
        0 <= j < apps.len() && marks[j],
{
    let p = choose|p: Seq<int>| is_dep_path(apps, p) && p[0] == i && p.last() == j;
    lemma_path_end_marked(apps, marks, i, p);
}

/// Induction over the path for `lemma_closed_marks_complete`.
proof fn lemma_path_end_marked(apps: Seq<InitApp>, marks: Seq<bool>, i: int, p: Seq<int>)
    requires
        marks.len() == apps.len(),
        forall|w: int| dep_edge(apps, i, w) ==> 0 <= w < apps.len() && #[trigger] marks[w],
        forall|v: int, w: int|
            0 <= v < apps.len() && marks[v] && #[trigger] dep_edge(apps, v, w) ==> 0 <= w
                < apps.len() && marks[w],
        is_dep_path(apps, p),
        p[0] == i,
    ensures
        0 <= p.last() < apps.len() && marks[p.last()],
    decreases p.len(),
{
    if p.len() == 2 {
        assert(dep_edge(apps, i, p[1]));
    } else {
        let q = p.subrange(0, p.len() - 1);
        assert forall|t: int| 0 <= t < q.len() - 1 implies dep_edge(apps, #[trigger] q[t], q[t + 1]) by {
            assert(q[t] == p[t] && q[t + 1] == p[t + 1]);
        }
        assert(is_dep_path(apps, q));
        assert(q[0] == i);
        lemma_path_end_marked(apps, marks, i, q);
        assert(dep_edge(apps, p[p.len() - 2], p[p.len() - 1]));
        assert(q.last() == p[p.len() - 2]);
    }
}

/// Number of set marks.
pub open spec fn count_true(s: Seq<bool>) -> int
    decreases s.len(),
{
    if s.len() == 0 {
        0
    } else {
        count_true(s.drop_last()) + if s.last() {
            1int
        } else {
            0int
        }
    }
}

proof fn lemma_count_true_bounds(s: Seq<bool>)
    ensures
        0 <= count_true(s) <= s.len(),
    decreases s.len(),
{
    if s.len() > 0 {
        lemma_count_true_bounds(s.drop_last());
    }
}

proof fn lemma_count_true_update(s: Seq<bool>, i: int)
    requires
        0 <= i < s.len(),
        !s[i],
    ensures
        count_true(s.update(i, true)) == count_true(s) + 1,
    decreases s.len(),
{
    let s2 = s.update(i, true);
    if i == s.len() - 1 {
        assert(s2.drop_last() =~= s.drop_last());
    } else {
        assert(s2.drop_last() =~= s.drop_last().update(i, true));
        lemma_count_true_update(s.drop_last(), i);
    }
}

/// Direct successors of `v` named by its first `k` dependency entries are
/// all marked.
pub open spec fn succs_marked_upto(
    apps: Seq<InitApp>,
    marks: Seq<bool>,
    v: int,
    k: int,
) -> bool {
    forall|w: int|
        (exists|k2: int|
            0 <= k2 < k && is_first_id(apps, (#[trigger] apps[v].inner.depends@[k2])@, w)) ==> 0
            <= w < apps.len() && #[trigger] marks[w]
}

/// Resolves an application id to the first record bearing it.
fn resolve_id(apps: &Vec<InitApp>, name: &String) -> (r: Option<usize>)
    ensures
        match r {
            Some(j) => is_first_id(apps@, name@, j as int),
            None => forall|m: int|
                0 <= m < apps@.len() ==> (#[trigger] apps@[m].inner.id)@ != name@,
        },
{
    let n = apps.len();
    let mut m: usize = 0;
    while m < n
        invariant
            n == apps@.len(),
            0 <= m <= n,
            forall|m2: int| 0 <= m2 < m ==> (#[trigger] apps@[m2].inner.id)@ != name@,
        decreases n - m,
    {
        if apps[m].inner.id == *name {
            return Some(m);
        }
        m += 1;
    }
    None
}

/// Marks everything reachable from record `i` along dependency edges: a
/// worklist walk over the resolved id graph.
fn reach_row(apps: &Vec<InitApp>, i: usize) -> (marks: Vec<bool>)
    requires
        (i as int) < apps@.len(),
    ensures
        marks@.len() == apps@.len(),
        forall|j: int| 0 <= j < apps@.len() ==> (marks@[j] == reaches(apps@, i as int, j)),
{
    let n = apps.len();
    let mut marks: Vec<bool> = Vec::new();
    let mut z: usize = 0;
    while z < n
        invariant
            0 <= z <= n,
            marks@.len() == z,
            forall|j: int| 0 <= j < z ==> !(#[trigger] marks@[j]),
        decreases n - z,
    {
        marks.push(false);
        z += 1;
    }
    let mut work: Vec<usize> = Vec::new();
    proof {
        lemma_count_true_bounds(marks@);
    }

    // Seed: the direct successors of `i`.
    let dn = apps[i].depends_len();
    let mut k: usize = 0;
    while k < dn
        invariant
            n == apps@.len(),
            (i as int) < n,
            dn == apps@[i as int].inner.depends@.len(),
            0 <= k <= dn,
            marks@.len() == n,
            count_true(marks@) <= n,
            forall|j: int| 0 <= j < n && #[trigger] marks@[j] ==> reaches(apps@, i as int, j),
            forall|m: int|
                0 <= m < work@.len() ==> (#[trigger] work@[m]) < n && marks@[work@[m] as int],
            succs_marked_upto(apps@, marks@, i as int, k as int),
            forall|v: int, w: int|
                0 <= v < n && marks@[v] && !work@.contains(v as usize) && #[trigger] dep_edge(
                    apps@,
                    v,
                    w,
                ) ==> 0 <= w < n && marks@[w],
        decreases dn - k,
    {
        let name = apps[i].depends_at(k);
        let hit = resolve_id(apps, name);
        proof {
            lemma_count_true_bounds(marks@);
        }
        if let Some(j) = hit {
            if !marks[j] {
                let ghost prev = marks@;
                let ghost wprev = work@;
                marks[j] = true;
                work.push(j);
                proof {
                    assert(marks@ =~= prev.update(j as int, true));
                    lemma_count_true_update(prev, j as int);
                    assert(dep_edge(apps@, i as int, j as int));
                    lemma_edge_reaches(apps@, i as int, j as int);
                    assert(work@[work@.len() - 1] == j);
                    assert forall|v: int, w: int|
                        0 <= v < n && marks@[v] && !work@.contains(v as usize)
                            && #[trigger] dep_edge(apps@, v, w) implies 0 <= w < n
                            && marks@[w] by {
                        assert(v != j as int);
                        assert(!wprev.contains(v as usize)) by {
                            if wprev.contains(v as usize) {
                                let m = choose|m: int|
                                    0 <= m < wprev.len() && wprev[m] == v as usize;
                                assert(work@[m] == v as usize);
                            }
                        }
                        assert(prev[v]);
                    }
                }
            }
        }
        proof {
            assert forall|w: int|
                (exists|k2: int|
                    0 <= k2 < k + 1 && is_first_id(
                        apps@,
                        (#[trigger] apps@[i as int].inner.depends@[k2])@,
                        w,
                    )) implies 0 <= w < n && #[trigger] marks@[w] by {
                let k2 = choose|k2: int|
                    0 <= k2 < k + 1 && is_first_id(
                        apps@,
                        (apps@[i as int].inner.depends@[k2])@,
                        w,
                    );
                if k2 == k {
                    assert(match hit {
                        Some(j) => j as int == w,
                        None => false,
                    });
                }
            }
            lemma_count_true_bounds(marks@);
        }
        k += 1;
    }
    proof {
        lemma_count_true_bounds(marks@);
    }

    // Walk: take a marked record off the worklist and mark its successors.
    while work.len() > 0
        invariant
            n == apps@.len(),
            (i as int) < n,
            marks@.len() == n,
            count_true(marks@) <= n,
            forall|j: int| 0 <= j < n && #[trigger] marks@[j] ==> reaches(apps@, i as int, j),
            forall|m: int|
                0 <= m < work@.len() ==> (#[trigger] work@[m]) < n && marks@[work@[m] as int],
            forall|w: int| dep_edge(apps@, i as int, w) ==> 0 <= w < n && #[trigger] marks@[w],
            forall|v: int, w: int|
                0 <= v < n && marks@[v] && !work@.contains(v as usize) && #[trigger] dep_edge(
                    apps@,
                    v,
                    w,
                ) ==> 0 <= w < n && marks@[w],
        decreases n - count_true(marks@), work@.len(),
    {
        let ghost marks0 = marks@;
        let ghost work0 = work@;
        let v = match work.pop() {
            Some(v) => v,
            None => {
                proof {
                    assert(false);
                }
                0
            },
        };
        proof {
            assert(work0[work0.len() - 1] == v);
            assert((v as int) < n && marks@[v as int]);
        }
        proof {
            assert forall|v2: int|
                #![trigger work@.contains(v2 as usize)]
                0 <= v2 < n && v2 != v as int && !work@.contains(v2 as usize) implies !work0
                .contains(v2 as usize) by {
                if work0.contains(v2 as usize) {
                    let m = choose|m: int| 0 <= m < work0.len() && work0[m] == v2 as usize;
                    if m < work0.len() - 1 {
                        assert(work@[m] == v2 as usize);
                    } else {
                        assert(work0[m] == v);
                    }
                }
            }
        }
        let dn = apps[v].depends_len();
        let mut k: usize = 0;
        while k < dn
            invariant
                n == apps@.len(),
                (i as int) < n,
                (v as int) < n,
                work0.len() > 0,
                marks@[v as int],
                dn == apps@[v as int].inner.depends@.len(),
                0 <= k <= dn,
                marks@.len() == n,
                count_true(marks@) <= n,
                count_true(marks0) <= count_true(marks@),
                count_true(marks@) > count_true(marks0) || (marks@ == marks0 && work@
                    == work0.drop_last()),
                forall|j: int| 0 <= j < n && #[trigger] marks@[j] ==> reaches(apps@, i as int, j),
                forall|m: int|
                    0 <= m < work@.len() ==> (#[trigger] work@[m]) < n && marks@[work@[m] as int],
                forall|w: int| dep_edge(apps@, i as int, w) ==> 0 <= w < n && #[trigger] marks@[w],
                succs_marked_upto(apps@, marks@, v as int, k as int),
                forall|v2: int, w: int|
                    0 <= v2 < n && marks@[v2] && v2 != v as int && !work@.contains(v2 as usize)
                        && #[trigger] dep_edge(apps@, v2, w) ==> 0 <= w < n && marks@[w],
            decreases dn - k,
        {
            let name = apps[v].depends_at(k);
            let hit = resolve_id(apps, name);
            proof {
                lemma_count_true_bounds(marks@);
            }
            if let Some(j) = hit {
                if !marks[j] {
                    let ghost prev = marks@;
                    let ghost wprev = work@;
                    marks[j] = true;
                    work.push(j);
                    proof {
                        assert(marks@ =~= prev.update(j as int, true));
                        lemma_count_true_update(prev, j as int);
                        assert(dep_edge(apps@, v as int, j as int));
                        lemma_reaches_step(apps@, i as int, v as int, j as int);
                        assert(work@[work@.len() - 1] == j);
                        assert forall|v2: int, w: int|
                            0 <= v2 < n && marks@[v2] && v2 != v as int && !work@.contains(
                                v2 as usize,
                            ) && #[trigger] dep_edge(apps@, v2, w) implies 0 <= w < n
                            && marks@[w] by {
                            assert(v2 != j as int);
                            assert(!wprev.contains(v2 as usize)) by {
                                if wprev.contains(v2 as usize) {
                                    let m = choose|m: int|
                                        0 <= m < wprev.len() && wprev[m] == v2 as usize;
                                    assert(work@[m] == v2 as usize);
                                }
                            }
                            assert(prev[v2]);
                        }
                    }
                }
            }
            proof {
                assert forall|w: int|
                    (exists|k2: int|
                        0 <= k2 < k + 1 && is_first_id(
                            apps@,
                            (#[trigger] apps@[v as int].inner.depends@[k2])@,
                            w,
                        )) implies 0 <= w < n && #[trigger] marks@[w] by {
                    let k2 = choose|k2: int|
                        0 <= k2 < k + 1 && is_first_id(
                            apps@,
                            (apps@[v as int].inner.depends@[k2])@,
                            w,
                        );
                    if k2 == k {
                        assert(match hit {
                            Some(j) => j as int == w,
                            None => false,
                        });
                    }
                }
                lemma_count_true_bounds(marks@);
            }
            k += 1;
        }
        proof {
            // `v`'s successors are now all marked, so the closure frontier
            // shrinks to the remaining worklist.
            assert forall|v2: int, w: int|
                0 <= v2 < n && marks@[v2] && !work@.contains(v2 as usize)
                    && #[trigger] dep_edge(apps@, v2, w) implies 0 <= w < n && marks@[w] by {
                if v2 == v as int {
                    assert(exists|k2: int|
                        0 <= k2 < apps@[v as int].inner.depends@.len() && is_first_id(
                            apps@,
                            (#[trigger] apps@[v as int].inner.depends@[k2])@,
                            w,
                        ));
                }
            }
            lemma_count_true_bounds(marks@);
        }
    }
    proof {
        assert forall|j: int| 0 <= j < n implies (marks@[j] == reaches(
            apps@,
            i as int,
            j,
        )) by {
            if reaches(apps@, i as int, j) {
                lemma_closed_marks_complete(apps@, marks@, i as int, j);
            }
        }
    }
    marks
}

impl InitApp {
    /// Number of declared dependency ids.
    fn depends_len(&self) -> (r: usize)
        ensures
            r == self.inner.depends@.len(),
    {
        self.inner.depends.len()
    }

    /// The `k`-th declared dependency id.
    fn depends_at(&self, k: usize) -> (r: &String)
        requires
            (k as int) < self.inner.depends@.len(),
        ensures
            r == self.inner.depends@[k as int],
    {
        &self.inner.depends[k]
    }
}

impl Init {
    /// Resolves every record's declared dependency ids into transitive
    /// closure index lists (`depends`) and their reverses (`rdepends`).
    /// Ids that match no record are ignored.  Fails, changing nothing, iff
    /// the dependency graph has a cycle; on success no record reaches
    /// itself, and the scheduler is well-formed.
    pub fn setup_dependencies(&mut self) -> (ok: bool)
        ensures
            final(self).shutdown == old(self).shutdown,
            modes_wf(old(self).applications@) ==> modes_wf(final(self).applications@),
            !ok ==> *final(self) == *old(self) && exists|i: int|
                0 <= i < old(self).applications@.len() && reaches(old(self).applications@, i, i),
            ok ==> {
                let apps0 = old(self).applications@;
                &&& wf(*final(self))
                &&& final(self).applications@.len() == apps0.len()
                &&& forall|i: int| 0 <= i < apps0.len() ==> !reaches(apps0, i, i)
                &&& forall|i: int|
                    0 <= i < apps0.len() ==> (#[trigger] final(self).applications@[i]) == (InitApp {
                        depends: final(self).applications@[i].depends,
                        rdepends: final(self).applications@[i].rdepends,
                        ..apps0[i]
                    })
                &&& forall|i: int, w: usize|
                    0 <= i < apps0.len() && (w as int) < apps0.len() ==> ((
                    #[trigger] final(self).applications@[i].depends@.contains(w)) == reaches(
                        apps0,
                        i,
                        w as int,
                    ))
                &&& forall|i: int, w: usize|
                    0 <= i < apps0.len() && (w as int) < apps0.len() ==> ((
                    #[trigger] final(self).applications@[i].rdepends@.contains(w)) == reaches(
                        apps0,
                        w as int,
                        i,
                    ))
            },
    {
        let ghost apps0 = self.applications@;
        let n = self.applications.len();

        let mut rows: Vec<Vec<bool>> = Vec::new();
        let mut i: usize = 0;
        while i < n
            invariant
                n == apps0.len(),
                self.applications@ == apps0,
                self.shutdown == old(self).shutdown,
                0 <= i <= n,
                rows@.len() == i,
                forall|i2: int|
                    0 <= i2 < i ==> (#[trigger] rows@[i2])@.len() == n && forall|j: int|
                        0 <= j < n ==> ((#[trigger] rows@[i2]@[j]) == reaches(apps0, i2, j)),
            decreases n - i,
        {
            let row = reach_row(&self.applications, i);
            rows.push(row);
            i += 1;
        }

        let mut i: usize = 0;
        while i < n
            invariant
                n == apps0.len(),
                self.applications@ == apps0,
                self.shutdown == old(self).shutdown,
                0 <= i <= n,
                rows@.len() == n,
                forall|i2: int|
                    0 <= i2 < n ==> (#[trigger] rows@[i2])@.len() == n && forall|j: int|
                        0 <= j < n ==> ((#[trigger] rows@[i2]@[j]) == reaches(apps0, i2, j)),
                forall|i2: int| 0 <= i2 < i ==> !reaches(apps0, i2, i2),
            decreases n - i,
        {
            if rows[i][i] {
                return false;
            }
            i += 1;
        }

        let mut i: usize = 0;
        while i < n
            invariant
                n == apps0.len(),
                self.shutdown == old(self).shutdown,
                0 <= i <= n,
                rows@.len() == n,
                forall|i2: int|
                    0 <= i2 < n ==> (#[trigger] rows@[i2])@.len() == n && forall|j: int|
                        0 <= j < n ==> ((#[trigger] rows@[i2]@[j]) == reaches(apps0, i2, j)),
                self.applications@.len() == n,
                forall|j: int| i <= j < n ==> (#[trigger] self.applications@[j]) == apps0[j],
                forall|j: int|
                    0 <= j < i ==> (#[trigger] self.applications@[j]) == (InitApp {
                        depends: self.applications@[j].depends,
                        rdepends: self.applications@[j].rdepends,
                        ..apps0[j]
                    }),
                forall|j: int, w: usize|
                    0 <= j < i && (w as int) < n ==> ((
                    #[trigger] self.applications@[j].depends@.contains(w)) == reaches(
                        apps0,
                        j,
                        w as int,
                    )) && (self.applications@[j].depends@.contains(w) ==> (w as int) < n),
                forall|j: int, w: usize|
                    0 <= j < i && (w as int) < n ==> ((
                    #[trigger] self.applications@[j].rdepends@.contains(w)) == reaches(
                        apps0,
                        w as int,
                        j,
                    )),
                forall|j: int, m: int|
                    0 <= j < i && 0 <= m < self.applications@[j].depends@.len() ==> (
                    #[trigger] self.applications@[j].depends@[m]) < n,
                forall|j: int, m: int|
                    0 <= j < i && 0 <= m < self.applications@[j].rdepends@.len() ==> (
                    #[trigger] self.applications@[j].rdepends@[m]) < n,
            decreases n - i,
        {
            let mut dl: Vec<usize> = Vec::new();
            let mut j: usize = 0;
            while j < n
                invariant
                    n == apps0.len(),
                    (i as int) < n,
                    rows@.len() == n,
                    forall|i2: int|
                        0 <= i2 < n ==> (#[trigger] rows@[i2])@.len() == n && forall|j2: int|
                            0 <= j2 < n ==> ((#[trigger] rows@[i2]@[j2]) == reaches(
                                apps0,
                                i2,
                                j2,
                            )),
                    0 <= j <= n,
                    forall|m: int| 0 <= m < dl@.len() ==> (#[trigger] dl@[m]) < j,
                    forall|w: usize| (w as int) < j ==> (dl@.contains(w) == reaches(apps0, i as int, w as int)),
                decreases n - j,
            {
                let ghost prev = dl@;
                if rows[i][j] {
                    dl.push(j);
                    proof {
                        assert(dl@[dl@.len() - 1] == j);
                        assert forall|w: usize| (w as int) < j + 1 implies (dl@.contains(w)
                            == (prev.contains(w) || w == j)) by {
                            if prev.contains(w) {
                                let m = choose|m: int| 0 <= m < prev.len() && prev[m] == w;
                                assert(dl@[m] == w);
                            }
                            if dl@.contains(w) {
                                let m = choose|m: int| 0 <= m < dl@.len() && dl@[m] == w;
                                if m < prev.len() {
                                    assert(prev[m] == w);
                                }
                            }
                        }
                    }
                } else {
                    proof {
                        assert forall|w: usize| #[trigger] dl@.contains(w) implies (w as int)
                            < j by {
                            let m = choose|m: int| 0 <= m < dl@.len() && dl@[m] == w;
                        }
                    }
                }
                j += 1;
            }
            let mut rl: Vec<usize> = Vec::new();
            let mut j: usize = 0;
            while j < n
                invariant
                    n == apps0.len(),
                    (i as int) < n,
                    rows@.len() == n,
                    forall|i2: int|
                        0 <= i2 < n ==> (#[trigger] rows@[i2])@.len() == n && forall|j2: int|
                            0 <= j2 < n ==> ((#[trigger] rows@[i2]@[j2]) == reaches(
                                apps0,
                                i2,
                                j2,
                            )),
                    0 <= j <= n,
                    forall|m: int| 0 <= m < rl@.len() ==> (#[trigger] rl@[m]) < j,
                    forall|w: usize| (w as int) < j ==> (rl@.contains(w) == reaches(apps0, w as int, i as int)),
                decreases n - j,
            {
                let ghost prev = rl@;
                if rows[j][i] {
                    rl.push(j);
                    proof {
                        assert(rl@[rl@.len() - 1] == j);
                        assert forall|w: usize| (w as int) < j + 1 implies (rl@.contains(w)
                            == (prev.contains(w) || w == j)) by {
                            if prev.contains(w) {
                                let m = choose|m: int| 0 <= m < prev.len() && prev[m] == w;
                                assert(rl@[m] == w);
                            }
                            if rl@.contains(w) {
                                let m = choose|m: int| 0 <= m < rl@.len() && rl@[m] == w;
                                if m < prev.len() {
                                    assert(prev[m] == w);
                                }
                            }
                        }
                    }
                } else {
                    proof {
                        assert forall|w: usize| #[trigger] rl@.contains(w) implies (w as int)
                            < j by {
                            let m = choose|m: int| 0 <= m < rl@.len() && rl@[m] == w;
                        }
                    }
                }
                j += 1;
            }
            let ghost sprev = self.applications@;
            self.applications[i].depends = dl;
            self.applications[i].rdepends = rl;
            proof {
                assert(self.applications@ =~= sprev.update(
                    i as int,
                    InitApp {
                        depends: self.applications@[i as int].depends,
                        rdepends: self.applications@[i as int].rdepends,
                        ..sprev[i as int]
                    },
                ));
            }
            i += 1;
        }
        proof {
            assert forall|i2: int, k: int|
                0 <= i2 < n && 0 <= k < self.applications@[i2].depends@.len() implies (
            #[trigger] self.applications@[i2].depends@[k]) < n by {}
        }
        true
    }
}

/// Record `i` subscribes to health-check group `group`.
pub open spec fn subscribed(apps: Seq<InitApp>, i: int, group: Seq<char>) -> bool {
    exists|k: int|
        0 <= k < apps[i].inner.healthchecks@.len() && (#[trigger] apps[i].inner.healthchecks@[k])@
            == group
}

/// Record `j` is touched by a failure of `group`: some subscriber `i`
/// exists with `j` equal to it or among its reverse-dependents.
pub open spec fn fail_marked(apps: Seq<InitApp>, group: Seq<char>, j: int) -> bool {
    exists|i: int|
        0 <= i < apps.len() && #[trigger] subscribed(apps, i, group) && (j == i || rdep_contains(
            apps,
            i,
            j,
        ))
}

/// `fail_marked` restricted to subscribers below `upto`.
pub open spec fn fail_marked_upto(apps: Seq<InitApp>, group: Seq<char>, j: int, upto: int) -> bool {
    exists|i: int|
        0 <= i < upto && i < apps.len() && #[trigger] subscribed(apps, i, group) && (j == i
            || rdep_contains(apps, i, j))
}

/// One marking step preserves the running characterization of
/// `handle_healthcheck_fail`: after scheduling subscriber `i`'s stop, the
/// marked set is exactly the one for subscribers below `i + 1`.
proof fn lemma_fail_mark_step(
    orig: Seq<InitApp>,
    prev: Seq<InitApp>,
    cur: Seq<InitApp>,
    group: Seq<char>,
    i: int,
)
    requires
        0 <= i < orig.len(),
        prev.len() == orig.len(),
        subscribed(orig, i, group),
        forall|j: int|
            0 <= j < orig.len() ==> #[trigger] prev[j] == (if fail_marked_upto(orig, group, j, i) {
                mark_stop(orig[j])
            } else {
                orig[j]
            }),
        cur =~= schedule_stop_spec(prev, i),
    ensures
        forall|j: int|
            0 <= j < orig.len() ==> #[trigger] cur[j] == (if fail_marked_upto(
                orig,
                group,
                j,
                i + 1,
            ) {
                mark_stop(orig[j])
            } else {
                orig[j]
            }),
{
    assert(prev[i].rdepends@ == orig[i].rdepends@);
    assert forall|j: int| 0 <= j < orig.len() implies #[trigger] cur[j] == (if fail_marked_upto(
        orig,
        group,
        j,
        i + 1,
    ) {
        mark_stop(orig[j])
    } else {
        orig[j]
    }) by {
        assert(rdep_contains(prev, i, j) == rdep_contains(orig, i, j));
        if j == i || rdep_contains(orig, i, j) {
            assert(cur[j] == mark_stop(prev[j]));
            assert(mark_stop(mark_stop(orig[j])) == mark_stop(orig[j]));
            assert(fail_marked_upto(orig, group, j, i + 1));
        } else {
            assert(cur[j] == prev[j]);
            if fail_marked_upto(orig, group, j, i + 1) {
                let w = choose|w: int|
                    0 <= w < i + 1 && w < orig.len() && #[trigger] subscribed(orig, w, group) && (j
                        == w || rdep_contains(orig, w, j));
                assert(w < i || w == i);
                if w == i {
                    assert(false);
                }
                assert(fail_marked_upto(orig, group, j, i));
            } else {
                assert(!fail_marked_upto(orig, group, j, i));
            }
        }
    }
}

} // verus!
