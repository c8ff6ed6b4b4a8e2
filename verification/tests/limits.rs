use riffol::{get_limits, Limit, LimitsError, RLimit};

fn group(name: &str, entries: &[(&str, u64)]) -> (String, Vec<(String, u64)>) {
    (
        name.to_string(),
        entries.iter().map(|(k, v)| (k.to_string(), *v)).collect(),
    )
}

fn names(ns: &[&str]) -> Vec<String> {
    ns.iter().map(|s| s.to_string()).collect()
}

#[test]
fn no_groups_means_unlimited() {
    let configs = vec![group("1", &[("max_procs", 64)])];
    let r = get_limits(&configs, &names(&[])).unwrap();
    assert_eq!(
        r,
        vec![
            RLimit::Procs(Limit::Infinity),
            RLimit::Memory(Limit::Infinity),
            RLimit::Files(Limit::Infinity),
        ]
    );
}

#[test]
fn single_group_applies_its_entries() {
    let configs = vec![group("1", &[("max_procs", 64), ("max_files", 10)])];
    let r = get_limits(&configs, &names(&["1"])).unwrap();
    assert_eq!(
        r,
        vec![
            RLimit::Procs(Limit::Num(64)),
            RLimit::Memory(Limit::Infinity),
            RLimit::Files(Limit::Num(10)),
        ]
    );
}

#[test]
fn memory_is_scaled_from_mib_to_bytes() {
    let configs = vec![group("mem", &[("max_mem", 3)])];
    let r = get_limits(&configs, &names(&["mem"])).unwrap();
    assert_eq!(r[1], RLimit::Memory(Limit::Num(3 * 1024 * 1024)));
}

#[test]
fn each_resource_takes_the_minimum_across_groups() {
    let configs = vec![
        group("a", &[("max_procs", 64), ("max_files", 100)]),
        group("b", &[("max_procs", 32), ("max_files", 200), ("max_mem", 1)]),
    ];
    let r = get_limits(&configs, &names(&["a", "b"])).unwrap();
    assert_eq!(
        r,
        vec![
            RLimit::Procs(Limit::Num(32)),
            RLimit::Memory(Limit::Num(1024 * 1024)),
            RLimit::Files(Limit::Num(100)),
        ]
    );
}

#[test]
fn composition_ignores_group_order() {
    let configs = vec![
        group("a", &[("max_procs", 64), ("max_files", 100)]),
        group("b", &[("max_procs", 32), ("max_mem", 7)]),
    ];
    let ab = get_limits(&configs, &names(&["a", "b"])).unwrap();
    let ba = get_limits(&configs, &names(&["b", "a"])).unwrap();
    assert_eq!(ab, ba);
}

#[test]
fn repeating_a_group_changes_nothing() {
    let configs = vec![group("a", &[("max_procs", 64)])];
    let once = get_limits(&configs, &names(&["a"])).unwrap();
    let twice = get_limits(&configs, &names(&["a", "a"])).unwrap();
    assert_eq!(once, twice);
}

#[test]
fn missing_group_is_an_error() {
    let configs = vec![group("1", &[("max_procs", 64)])];
    match get_limits(&configs, &names(&["2"])) {
        Err(LimitsError::UnknownGroup(name)) => assert_eq!(name, "2"),
        other => panic!("expected UnknownGroup, got {:?}", other),
    }
    assert!(get_limits(&configs, &names(&["1"])).is_ok());
}

#[test]
fn unknown_resource_name_is_an_error() {
    let configs = vec![group("1", &[("nonono", 64)])];
    match get_limits(&configs, &names(&["1"])) {
        Err(LimitsError::UnknownResource(key)) => assert_eq!(key, "nonono"),
        other => panic!("expected UnknownResource, got {:?}", other),
    }
}
