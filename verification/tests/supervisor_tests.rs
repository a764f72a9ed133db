use logforward::supervisor::{
    filter_streams, ActiveStreamSet, MonitorHandle, TickOutcome, LOG_STREAM_PREFIX,
};

fn names(set: &ActiveStreamSet) -> Vec<Vec<u8>> {
    let mut out: Vec<Vec<u8>> = set.entries.iter().map(|e| e.name.clone()).collect();
    out.sort();
    out
}

fn b(s: &str) -> Vec<u8> {
    s.as_bytes().to_vec()
}

#[test]
fn reconcile_spawns_cancels_and_keeps() {
    // Snapshot {"a","b"} against an empty set: both spawned.
    let mut set = ActiveStreamSet::new();
    let out = set.reconcile(&vec![b("a"), b("b")]);
    assert_eq!(out.cancelled.len(), 0);
    let mut spawned = out.spawned.clone();
    spawned.sort();
    assert_eq!(spawned, vec![b("a"), b("b")]);
    assert_eq!(names(&set), vec![b("a"), b("b")]);
    let handle_of_b = set
        .entries
        .iter()
        .find(|e| e.name == b("b"))
        .unwrap()
        .handle;
    assert!(!handle_of_b.cancelled);

    // Next snapshot {"b","c"}: "a" cancelled and removed, "c" spawned,
    // "b" untouched.
    let out = set.reconcile(&vec![b("b"), b("c")]);
    assert_eq!(out.cancelled.len(), 1);
    assert_eq!(out.cancelled[0].name, b("a"));
    assert!(out.cancelled[0].handle.cancelled);
    assert_eq!(out.spawned, vec![b("c")]);
    assert_eq!(names(&set), vec![b("b"), b("c")]);
    let handle_of_b_after = set
        .entries
        .iter()
        .find(|e| e.name == b("b"))
        .unwrap()
        .handle;
    assert_eq!(handle_of_b_after, handle_of_b);
}

#[test]
fn reconcile_ignores_duplicate_snapshot_names() {
    let mut set = ActiveStreamSet::new();
    let out = set.reconcile(&vec![b("a"), b("a")]);
    assert_eq!(out.spawned, vec![b("a")]);
    assert_eq!(set.entries.len(), 1);
}

#[test]
fn cancel_is_idempotent() {
    let mut h = MonitorHandle::new();
    assert!(!h.cancelled);
    h.cancel();
    let once = h;
    h.cancel();
    assert_eq!(h, once);
    assert!(h.cancelled);
}

#[test]
fn failed_listing_terminates_and_leaves_monitors_alone() {
    let mut set = ActiveStreamSet::new();
    set.reconcile(&vec![b("a"), b("b")]);
    let before = names(&set);
    let out = set.supervisor_tick(None);
    assert!(matches!(out, TickOutcome::Terminated));
    assert_eq!(names(&set), before);
    for e in &set.entries {
        assert!(!e.handle.cancelled);
    }
}

#[test]
fn successful_tick_reconciles() {
    let mut set = ActiveStreamSet::new();
    let out = set.supervisor_tick(Some(vec![b("x")]));
    match out {
        TickOutcome::Reconciled(o) => assert_eq!(o.spawned, vec![b("x")]),
        TickOutcome::Terminated => panic!("a successful listing must reconcile"),
    }
}

#[test]
fn filter_keeps_only_prefixed_topics() {
    let prefix = LOG_STREAM_PREFIX.as_bytes().to_vec();
    let one = b("system:container-logs:web");
    let two = b("system:metrics:web");
    let three = b("system:container-logs:db");
    let out = filter_streams(vec![one.clone(), two, three.clone()], &prefix);
    assert_eq!(out, vec![one, three]);
}

#[test]
fn filter_of_nothing_is_empty() {
    let prefix = LOG_STREAM_PREFIX.as_bytes().to_vec();
    let out = filter_streams(vec![], &prefix);
    assert!(out.is_empty());
}
