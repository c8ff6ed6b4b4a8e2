use riffol::Timers;

#[test]
fn empty_timer_set_has_no_timeout() {
    let timers: Timers<u32> = Timers::new();
    assert_eq!(timers.get_timeout(0), None);
    assert!(timers.earliest().is_none());
}

#[test]
fn timeout_counts_down_to_earliest() {
    let mut timers: Timers<&str> = Timers::new();
    timers.add_timer(100, 50, "a");
    timers.add_timer(100, 20, "b");
    timers.add_timer(100, 70, "c");
    // earliest fires at 120
    assert_eq!(timers.get_timeout(100), Some(20));
    assert_eq!(timers.get_timeout(115), Some(5));
    assert_eq!(timers.get_timeout(120), Some(0));
    // already past: zero, not negative
    assert_eq!(timers.get_timeout(500), Some(0));
}

#[test]
fn remove_earliest_returns_payloads_in_deadline_order() {
    let mut timers: Timers<&str> = Timers::new();
    timers.add_timer(0, 50, "late");
    timers.add_timer(0, 20, "early");
    timers.add_timer(0, 30, "middle");
    assert_eq!(timers.remove_earliest(), "early");
    assert_eq!(timers.remove_earliest(), "middle");
    assert_eq!(timers.remove_earliest(), "late");
    assert_eq!(timers.get_timeout(0), None);
}

#[test]
fn remove_earliest_takes_first_of_tied_deadlines() {
    let mut timers: Timers<u32> = Timers::new();
    timers.add_timer(0, 10, 1);
    timers.add_timer(0, 10, 2);
    assert_eq!(timers.remove_earliest(), 1);
    assert_eq!(timers.remove_earliest(), 2);
}

#[test]
fn earliest_reports_instant() {
    let mut timers: Timers<u8> = Timers::new();
    timers.add_timer(10, 40, 7);
    let t = timers.earliest().unwrap();
    assert_eq!(t.instant, 50);
    assert_eq!(t.payload, 7);
}
