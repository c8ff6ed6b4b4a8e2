use riffol::{AppState, Application, Init, Mode, BACKOFF_MS, GRACE_MS};

// PIDs above i32::MAX: the library never signals such PIDs, so these
// scenarios drive the full stop/kill logic without touching any real
// process.
const PID_A: u32 = 0x8000_0011;
const PID_B: u32 = 0x8000_0012;

fn mk_app(id: &str, mode: Mode, depends: &[&str]) -> Application {
    Application {
        id: id.to_string(),
        mode,
        dir: "/tmp".to_string(),
        pidfile: None,
        env: Vec::new(),
        start: vec!["/bin/true".to_string()],
        stop: Vec::new(),
        healthchecks: Vec::new(),
        limits: Vec::new(),
        stdout: None,
        stderr: None,
        state: AppState::Idle,
        depends: depends.iter().map(|s| s.to_string()).collect(),
    }
}

#[test]
fn dependency_chain_starts_in_order_and_stops_in_reverse() {
    let apps = vec![mk_app("a", Mode::Simple, &[]), mk_app("b", Mode::Simple, &["a"])];
    let mut init = Init::new(apps);
    assert!(init.setup_dependencies());

    // b transitively depends on a; a is depended on by b
    assert_eq!(init.applications[1].depends, vec![0]);
    assert_eq!(init.applications[0].rdepends, vec![1]);

    // first tick: only a may start (b's dependency is not started yet)
    assert_eq!(init.starts_due(0), vec![0]);
    init.apply_start(0, Some(PID_A), 0);
    assert_eq!(init.starts_due(0), vec![1]);
    init.apply_start(1, Some(PID_B), 0);
    assert_eq!(init.starts_due(0), Vec::<usize>::new());

    // termination signal: every record wants a stop, but a must wait for b
    init.handle_term();
    assert!(init.shutdown);
    assert_eq!(init.stops_due(), vec![1]);
    let signalled = init.apply_stop(1, None, 10);
    assert_eq!(signalled, Some(PID_B));
    // b is stopping, not yet quiesced: a still waits
    assert_eq!(init.stops_due(), Vec::<usize>::new());

    // b's service exits and is reaped
    assert_eq!(init.handle_child(PID_B, 0, None, 20), Some(1));
    assert!(matches!(init.applications[1].inner.state, AppState::Stopped));

    assert_eq!(init.stops_due(), vec![0]);
    init.apply_stop(0, None, 30);
    assert_eq!(init.handle_child(PID_A, 0, None, 40), Some(0));
    assert!(init.all_stopped());
}

#[test]
fn oneshot_completion_satisfies_dependents() {
    let apps = vec![mk_app("m", Mode::OneShot, &[]), mk_app("n", Mode::Simple, &["m"])];
    let mut init = Init::new(apps);
    assert!(init.setup_dependencies());

    assert_eq!(init.starts_due(0), vec![0]);
    init.apply_start(0, Some(PID_A), 0);
    // m's start command is still running: n must wait
    assert_eq!(init.starts_due(0), Vec::<usize>::new());

    // m exits 0: Complete, and n becomes eligible
    assert_eq!(init.handle_child(PID_A, 0, None, 5), Some(0));
    assert!(matches!(init.applications[0].inner.state, AppState::Complete));
    assert_eq!(init.starts_due(5), vec![1]);
}

#[test]
fn record_with_no_dependencies_starts_on_the_first_tick() {
    let apps = vec![mk_app("solo", Mode::Simple, &[])];
    let mut init = Init::new(apps);
    assert!(init.setup_dependencies());
    assert_eq!(init.starts_due(0), vec![0]);
}

#[test]
fn failed_spawn_backs_off() {
    let apps = vec![mk_app("a", Mode::Simple, &[])];
    let mut init = Init::new(apps);
    assert!(init.setup_dependencies());
    init.apply_start(0, None, 100);
    assert!(init.applications[0].inner.is_idle());
    assert_eq!(init.applications[0].start_time, Some(100 + BACKOFF_MS));
    // not eligible again until the backoff elapses
    assert_eq!(init.starts_due(100), Vec::<usize>::new());
    assert_eq!(init.starts_due(100 + BACKOFF_MS), vec![0]);
}

#[test]
fn dependency_cycle_is_detected() {
    let apps = vec![mk_app("a", Mode::Simple, &["b"]), mk_app("b", Mode::Simple, &["a"])];
    let mut init = Init::new(apps);
    assert!(!init.setup_dependencies());
}

#[test]
fn unknown_dependency_ids_are_ignored() {
    let apps = vec![mk_app("a", Mode::Simple, &["ghost"])];
    let mut init = Init::new(apps);
    assert!(init.setup_dependencies());
    assert_eq!(init.applications[0].depends, Vec::<usize>::new());
    assert_eq!(init.starts_due(0), vec![0]);
}

#[test]
fn unclaimed_child_changes_nothing() {
    let apps = vec![mk_app("a", Mode::Simple, &[])];
    let mut init = Init::new(apps);
    assert!(init.setup_dependencies());
    init.apply_start(0, Some(PID_A), 0);
    assert_eq!(init.handle_child(PID_B, 0, None, 5), None);
    assert!(matches!(
        init.applications[0].inner.state,
        AppState::Running { app_pid: Some(p), .. } if p == PID_A
    ));
}

#[test]
fn unexpected_death_cascades_a_restart_stop() {
    let apps = vec![mk_app("a", Mode::Simple, &[]), mk_app("b", Mode::Simple, &["a"])];
    let mut init = Init::new(apps);
    assert!(init.setup_dependencies());
    init.apply_start(0, Some(PID_A), 0);
    init.apply_start(1, Some(PID_B), 0);

    // a dies unexpectedly: a and its dependent b are both marked to stop
    // with restart wanted
    assert_eq!(init.handle_child(PID_A, 9, None, 10), Some(0));
    assert!(init.applications[0].inner.is_dead());
    assert!(init.applications[0].needs_stop && init.applications[0].restart);
    assert!(init.applications[1].needs_stop && init.applications[1].restart);

    // leaf first: only b may stop now
    assert_eq!(init.stops_due(), vec![1]);
}

#[test]
fn health_failure_marks_subscribers_and_dependents() {
    let mut subscriber = mk_app("h", Mode::Simple, &[]);
    subscriber.healthchecks = vec!["tcp-8080".to_string()];
    let apps = vec![subscriber, mk_app("web", Mode::Simple, &["h"]), mk_app("other", Mode::Simple, &[])];
    let mut init = Init::new(apps);
    assert!(init.setup_dependencies());

    init.handle_healthcheck_fail(&"tcp-8080".to_string());
    assert!(init.applications[0].needs_stop && init.applications[0].restart);
    assert!(init.applications[1].needs_stop && init.applications[1].restart);
    assert!(!init.applications[2].needs_stop);
}

#[test]
fn restart_stop_returns_to_idle_with_backoff() {
    let mut subscriber = mk_app("h", Mode::Simple, &[]);
    subscriber.healthchecks = vec!["g".to_string()];
    let mut init = Init::new(vec![subscriber]);
    assert!(init.setup_dependencies());
    init.apply_start(0, Some(PID_A), 0);

    init.handle_healthcheck_fail(&"g".to_string());
    assert_eq!(init.stops_due(), vec![0]);
    let signalled = init.apply_stop(0, None, 50);
    assert_eq!(signalled, Some(PID_A));
    assert_eq!(init.applications[0].kill_time, Some(50 + GRACE_MS));

    // the service exits: restart wanted, so the record goes back to Idle
    // with a fresh backoff, and the kill timer is dropped
    assert_eq!(init.handle_child(PID_A, 0, None, 60), Some(0));
    assert!(init.applications[0].inner.is_idle());
    assert_eq!(init.applications[0].kill_time, None);
    assert_eq!(init.applications[0].start_time, Some(60 + BACKOFF_MS));
}

#[test]
fn grace_expiry_escalates_to_sigkill() {
    let apps = vec![mk_app("k", Mode::Simple, &[])];
    let mut init = Init::new(apps);
    assert!(init.setup_dependencies());
    init.apply_start(0, Some(PID_A), 0);
    init.handle_term();
    assert_eq!(init.stops_due(), vec![0]);
    init.apply_stop(0, None, 100);
    assert_eq!(init.applications[0].kill_time, Some(100 + GRACE_MS));

    // before the grace deadline nothing fires
    assert_eq!(init.do_kills(100 + GRACE_MS - 1), Vec::<(usize, Vec<u32>)>::new());
    // at the deadline the still-tracked service PID is targeted and the
    // timer is cleared
    let killed = init.do_kills(100 + GRACE_MS);
    assert_eq!(killed, vec![(0, vec![PID_A])]);
    assert_eq!(init.applications[0].kill_time, None);

    // the SIGKILLed service is reaped: terminal
    assert_eq!(init.handle_child(PID_A, 9, None, 200), Some(0));
    assert!(matches!(init.applications[0].inner.state, AppState::Stopped));
    assert!(init.all_stopped());
}

#[test]
fn runaway_stop_arms_the_kill_timer() {
    let mut app = mk_app("f", Mode::Forking, &[]);
    app.stop = vec!["/bin/stop".to_string()];
    let mut init = Init::new(vec![app]);
    assert!(init.setup_dependencies());
    init.applications[0].inner.state = AppState::Running { app_pid: Some(PID_A), dead: false };

    init.handle_term();
    assert!(init.applications[0].inner.stop_wants_exec());
    init.apply_stop(0, Some(PID_B), 10);
    // the stop command exits but the service PID lives on: kill timer armed
    assert_eq!(init.handle_child(PID_B, 0, None, 20), Some(0));
    assert!(init.applications[0].inner.is_runaway());
    assert_eq!(init.applications[0].kill_time, Some(20 + GRACE_MS));
}

#[test]
fn second_termination_signal_changes_nothing() {
    let apps = vec![mk_app("a", Mode::Simple, &[]), mk_app("b", Mode::Simple, &[])];
    let mut init = Init::new(apps);
    assert!(init.setup_dependencies());
    init.apply_start(0, Some(PID_A), 0);

    init.handle_term();
    let flags: Vec<(bool, bool)> =
        init.applications.iter().map(|a| (a.needs_stop, a.restart)).collect();
    init.handle_term();
    let again: Vec<(bool, bool)> =
        init.applications.iter().map(|a| (a.needs_stop, a.restart)).collect();
    assert_eq!(flags, again);
    assert!(init.shutdown);
}

#[test]
fn scheduling_a_stop_twice_equals_once() {
    let apps = vec![mk_app("a", Mode::Simple, &[]), mk_app("b", Mode::Simple, &["a"])];
    let mut init = Init::new(apps);
    assert!(init.setup_dependencies());

    init.schedule_stop(0);
    let flags: Vec<(bool, bool)> =
        init.applications.iter().map(|a| (a.needs_stop, a.restart)).collect();
    init.schedule_stop(0);
    let again: Vec<(bool, bool)> =
        init.applications.iter().map(|a| (a.needs_stop, a.restart)).collect();
    assert_eq!(flags, again);
    assert_eq!(flags, vec![(true, true), (true, true)]);
}

#[test]
fn next_timeout_is_the_earliest_armed_timer() {
    let apps = vec![mk_app("a", Mode::Simple, &[]), mk_app("b", Mode::Simple, &[])];
    let mut init = Init::new(apps);
    assert!(init.setup_dependencies());
    assert_eq!(init.get_next_timeout(), None);

    init.apply_start(0, None, 100);  // backoff timer at 100 + BACKOFF_MS
    init.applications[1].kill_time = Some(50);
    assert_eq!(init.get_next_timeout(), Some(50));
}

#[test]
fn health_restart_is_overridden_by_shutdown() {
    let mut subscriber = mk_app("h", Mode::Simple, &[]);
    subscriber.healthchecks = vec!["g".to_string()];
    let mut init = Init::new(vec![subscriber]);
    assert!(init.setup_dependencies());
    init.apply_start(0, Some(PID_A), 0);

    init.handle_term();
    init.handle_healthcheck_fail(&"g".to_string());
    init.apply_stop(0, None, 10);
    assert_eq!(init.handle_child(PID_A, 0, None, 20), Some(0));
    // restart was requested, but shutdown wins: the record rests at Stopped
    assert!(matches!(init.applications[0].inner.state, AppState::Stopped));
}
