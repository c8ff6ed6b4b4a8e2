use riffol::{
    df_ok, first_probe_deadline, next_probe_deadline, DfCheck, DfOutcome, HealthCheck,
    IntervalHealthCheck, ProcCheck, ProcEntry, TcpCheck,
};

#[test]
fn disk_free_criterion_is_in_mib() {
    // 4096-byte blocks, 256 available = exactly 1 MiB free
    assert!(df_ok(4096, 256, 0));
    assert!(df_ok(4096, 256, 1));
    assert!(!df_ok(4096, 256, 2));
    // one byte short of 1 MiB
    assert!(!df_ok(1, 1024 * 1024 - 1, 1));
    // huge figures do not overflow
    assert!(df_ok(u64::MAX, u64::MAX, u64::MAX));
}

#[test]
fn df_probe_runs_against_the_root_filesystem() {
    // Requiring zero MiB free always passes when statvfs itself works,
    // and "/" is always there to be probed.
    let check = DfCheck::new("/", 0);
    assert!(matches!(check.do_check(), DfOutcome::Passed));
}

#[test]
fn df_probe_reports_unreadable_paths() {
    let check = DfCheck::new("/no/such/path/riffol", 1);
    assert!(matches!(check.do_check(), DfOutcome::Unreadable));
}

#[test]
fn df_description_names_threshold_and_path() {
    let check = DfCheck::new("/dev/sda", 100);
    assert_eq!(check.to_string(), "DF healthcheck, min 100MB for /dev/sda");
}

#[test]
fn proc_description_names_the_process() {
    let check = ProcCheck::new("nginx");
    assert_eq!(check.to_string(), "Proc healthcheck, checking for nginx");
}

#[test]
fn tcp_description_names_the_address() {
    let check = TcpCheck::new("127.0.0.1:80");
    assert_eq!(check.to_string(), "TCP healthcheck, connect to 127.0.0.1:80");
}

#[test]
fn check_description_dispatches_on_the_probe_kind() {
    let c = HealthCheck::ProcCheck(ProcCheck::new("sshd"));
    assert_eq!(c.to_string(), "Proc healthcheck, checking for sshd");
    let i = IntervalHealthCheck {
        group: "g".to_string(),
        interval: 10,
        timeout: 5,
        check: HealthCheck::TcpCheck(TcpCheck::new("10.0.0.1:443")),
    };
    assert_eq!(i.to_string(), "TCP healthcheck, connect to 10.0.0.1:443");
}

fn entry(name: &str, comm: &str, cmdline_empty: bool) -> ProcEntry {
    ProcEntry {
        name: name.to_string(),
        comm: comm.to_string(),
        cmdline_empty,
    }
}

#[test]
fn proc_probe_finds_a_live_named_process() {
    let check = ProcCheck::new("nginx");
    let snapshot = vec![
        entry("1", "systemd\n", false),
        entry("4242", "nginx\n", false),
    ];
    assert!(check.matches_snapshot(&snapshot));
}

#[test]
fn proc_probe_ignores_zombies() {
    let check = ProcCheck::new("nginx");
    // empty cmdline marks a zombie
    let snapshot = vec![entry("4242", "nginx\n", true)];
    assert!(!check.matches_snapshot(&snapshot));
}

#[test]
fn proc_probe_ignores_non_pid_entries() {
    let check = ProcCheck::new("cpuinfo");
    let snapshot = vec![entry("cpuinfo", "cpuinfo\n", false)];
    assert!(!check.matches_snapshot(&snapshot));
}

#[test]
fn proc_probe_requires_an_exact_name() {
    let check = ProcCheck::new("nginx");
    let snapshot = vec![
        entry("10", "nginx-helper\n", false),
        entry("11", "ngin\n", false),
    ];
    assert!(!check.matches_snapshot(&snapshot));
    assert!(!check.matches_snapshot(&Vec::new()));
}

#[test]
fn proc_probe_accepts_comm_without_newline() {
    let check = ProcCheck::new("nginx");
    let snapshot = vec![entry("12", "nginx", false)];
    assert!(check.matches_snapshot(&snapshot));
}

#[test]
fn first_probe_is_jittered_within_one_interval() {
    for _ in 0..50 {
        let d = first_probe_deadline(1000, 30);
        assert!((1000..1030).contains(&d));
    }
}

#[test]
fn later_probes_keep_the_configured_cadence() {
    let first = first_probe_deadline(0, 60);
    let second = next_probe_deadline(first, 60);
    let third = next_probe_deadline(second, 60);
    assert_eq!(second - first, 60);
    assert_eq!(third - second, 60);
}
