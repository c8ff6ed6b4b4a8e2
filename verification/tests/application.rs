use riffol::{AppState, Application, Mode};

// PIDs used in these tests are above i32::MAX on purpose: the library
// refuses to signal such PIDs, so exercising stop/kill transitions here can
// never deliver a signal to a real process.
const PID_A: u32 = 0x8000_0001;
const PID_B: u32 = 0x8000_0002;

fn mk_app(id: &str, mode: Mode) -> Application {
    Application {
        id: id.to_string(),
        mode,
        dir: "/tmp".to_string(),
        pidfile: None,
        env: Vec::new(),
        start: vec!["/bin/true".to_string()],
        stop: Vec::new(),
        healthchecks: Vec::new(),
        limits: Vec::new(),
        stdout: None,
        stderr: None,
        state: AppState::Idle,
        depends: Vec::new(),
    }
}

#[test]
fn simple_start_goes_straight_to_running() {
    let mut app = mk_app("a", Mode::Simple);
    let awaited = app.start(PID_A);
    assert_eq!(awaited, None);
    assert!(matches!(
        app.state,
        AppState::Running { app_pid: Some(p), dead: false } if p == PID_A
    ));
    assert!(app.is_started());
    assert!(!app.is_idle());
}

#[test]
fn forking_start_waits_in_starting() {
    let mut app = mk_app("f", Mode::Forking);
    let awaited = app.start(PID_A);
    assert_eq!(awaited, Some(PID_A));
    assert!(matches!(app.state, AppState::Starting { exec_pid } if exec_pid == PID_A));
    assert!(!app.is_started());
}

#[test]
fn forking_exec_exit_reads_pid_file() {
    let mut app = mk_app("f", Mode::Forking);
    app.start(PID_A);
    // exec exited 0 and the pid-file named the service PID
    let claimed = app.claim_child(PID_A, 0, Some(PID_B));
    assert!(claimed);
    assert!(matches!(
        app.state,
        AppState::Running { app_pid: Some(p), dead: false } if p == PID_B
    ));
}

#[test]
fn forking_unreadable_pid_file_needs_cleanup() {
    let mut app = mk_app("f", Mode::Forking);
    app.start(PID_A);
    let claimed = app.claim_child(PID_A, 0, None);
    assert!(claimed);
    // Treated as a failed start: flagged dead so the scheduler issues a
    // cleanup stop.
    assert!(app.is_dead());
}

#[test]
fn forking_nonzero_exit_goes_idle() {
    let mut app = mk_app("f", Mode::Forking);
    app.start(PID_A);
    let claimed = app.claim_child(PID_A, 3, None);
    assert!(claimed);
    assert!(app.is_idle());
}

#[test]
fn oneshot_success_completes() {
    let mut app = mk_app("m", Mode::OneShot);
    app.start(PID_A);
    let claimed = app.claim_child(PID_A, 0, None);
    assert!(claimed);
    assert!(app.is_complete());
    assert!(app.is_started());
}

#[test]
fn oneshot_failure_goes_idle() {
    let mut app = mk_app("m", Mode::OneShot);
    app.start(PID_A);
    let claimed = app.claim_child(PID_A, 1, None);
    assert!(claimed);
    assert!(app.is_idle());
}

#[test]
fn unexpected_death_flags_dead() {
    let mut app = mk_app("a", Mode::Simple);
    app.start(PID_A);
    let claimed = app.claim_child(PID_A, 9, None);
    assert!(claimed);
    assert!(app.is_dead());
    // the PID is reaped: nothing is tracked any more
    assert_eq!(app.get_app_pid(), None);
}

#[test]
fn foreign_pid_is_not_claimed() {
    let mut app = mk_app("a", Mode::Simple);
    app.start(PID_A);
    let claimed = app.claim_child(PID_B, 0, None);
    assert!(!claimed);
    assert!(matches!(app.state, AppState::Running { app_pid: Some(p), .. } if p == PID_A));
}

#[test]
fn simple_stop_terminates_the_service_pid() {
    let mut app = mk_app("a", Mode::Simple);
    app.start(PID_A);
    let signalled = app.stop(None, false);
    assert_eq!(signalled, Some(PID_A));
    assert!(matches!(
        app.state,
        AppState::Stopping { exec_pid: None, app_pid: Some(p), restart: false } if p == PID_A
    ));
    // service exits: terminal at Stopped (no restart)
    assert!(app.claim_child(PID_A, 0, None));
    assert!(matches!(app.state, AppState::Stopped));
}

#[test]
fn stop_with_restart_returns_to_idle() {
    let mut app = mk_app("a", Mode::Simple);
    app.start(PID_A);
    app.stop(None, true);
    assert!(app.claim_child(PID_A, 0, None));
    assert!(app.is_idle());
}

#[test]
fn stop_command_then_service_exit() {
    let mut app = mk_app("f", Mode::Forking);
    app.state = AppState::Running { app_pid: Some(PID_A), dead: false };
    // driver spawned the declared stop command as PID_B
    let signalled = app.stop(Some(PID_B), false);
    assert_eq!(signalled, None);
    assert!(matches!(
        app.state,
        AppState::Stopping { exec_pid: Some(e), app_pid: Some(a), restart: false }
            if e == PID_B && a == PID_A
    ));
    // stop command finishes first: the record is a runaway until the
    // service dies
    assert!(app.claim_child(PID_B, 0, None));
    assert!(app.is_runaway());
    assert!(app.claim_child(PID_A, 0, None));
    assert!(matches!(app.state, AppState::Stopped));
}

#[test]
fn idle_stop_is_immediately_terminal() {
    let mut app = mk_app("a", Mode::Simple);
    let signalled = app.stop(None, false);
    assert_eq!(signalled, None);
    assert!(matches!(app.state, AppState::Stopped));
}

#[test]
fn stop_wants_exec_only_with_a_stop_command() {
    let mut simple = mk_app("a", Mode::Simple);
    simple.stop = vec!["/bin/stop".to_string()];
    assert!(!simple.stop_wants_exec());

    let mut oneshot = mk_app("m", Mode::OneShot);
    assert!(!oneshot.stop_wants_exec());
    oneshot.stop = vec!["/bin/cleanup".to_string()];
    assert!(oneshot.stop_wants_exec());
}

#[test]
fn kill_targets_every_tracked_pid() {
    let mut app = mk_app("f", Mode::Forking);
    app.state = AppState::Stopping {
        exec_pid: Some(PID_B),
        app_pid: Some(PID_A),
        restart: false,
    };
    assert_eq!(app.kill(), vec![PID_B, PID_A]);
    app.state = AppState::Idle;
    assert_eq!(app.kill(), Vec::<u32>::new());
}
