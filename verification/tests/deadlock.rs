use os_sim::deadlock::{DeadlockManager, IoDevice, ReleaseOutcome, RequestOutcome};
use os_sim::report::format_resource_map;

fn device<'a>(m: &'a DeadlockManager, name: &str) -> &'a IoDevice {
    &m.devices.iter().find(|d| d.name == name).unwrap().device
}

#[test]
fn io_device_starts_free() {
    let d = IoDevice::new(3);
    assert_eq!(d.instances, 3);
    assert_eq!(d.available, 3);
    assert!(d.held_by.is_empty());
    assert!(d.wait_queue.is_empty());
}

#[test]
fn request_grants_or_queues() {
    let mut m = DeadlockManager::new();
    m.add_device("printer", 2);
    assert_eq!(m.request_resource(1, "printer", 1), RequestOutcome::Granted { available: 1 });
    assert_eq!(m.request_resource(2, "printer", 2), RequestOutcome::Waiting { available: 1 });
    assert_eq!(m.request_resource(2, "scanner", 1), RequestOutcome::NoSuchDevice);
    let d = device(&m, "printer");
    assert_eq!(d.held_by, vec![1]);
    assert_eq!(d.wait_queue, vec![2]);
    assert_eq!(m.allocation_of(1, "printer"), 1);
    assert_eq!(m.allocation_of(2, "printer"), 0);
}

#[test]
fn release_serves_the_wait_queue_one_instance_each() {
    let mut m = DeadlockManager::new();
    m.add_device("printer", 2);
    m.request_resource(1, "printer", 1);
    m.request_resource(2, "printer", 2);
    match m.release_resource(1, "printer", 1) {
        ReleaseOutcome::Released { released, available, woken } => {
            assert_eq!(released, 1);
            assert_eq!(available, 2);
            assert_eq!(woken, vec![2]);
        },
        ReleaseOutcome::NoSuchDevice => panic!("device is there"),
    }
    let d = device(&m, "printer");
    assert_eq!(d.available, 1);
    assert_eq!(d.held_by, vec![2]);
    assert!(d.wait_queue.is_empty());
    assert_eq!(m.allocation_of(2, "printer"), 1);
    assert_eq!(m.allocation_of(1, "printer"), 0);
    assert!(matches!(m.release_resource(1, "nothing", 1), ReleaseOutcome::NoSuchDevice));
}

#[test]
fn release_gives_back_at_most_what_is_held() {
    let mut m = DeadlockManager::new();
    m.add_device("disk", 3);
    m.request_resource(4, "disk", 2);
    match m.release_resource(4, "disk", 5) {
        ReleaseOutcome::Released { released, available, woken } => {
            assert_eq!(released, 2);
            assert_eq!(available, 3);
            assert!(woken.is_empty());
        },
        ReleaseOutcome::NoSuchDevice => panic!("device is there"),
    }
}

#[test]
fn release_right_after_grant_restores_the_device() {
    let mut m = DeadlockManager::new();
    m.add_device("tape", 4);
    m.request_resource(1, "tape", 1);
    let before = (device(&m, "tape").available, device(&m, "tape").held_by.clone());
    m.request_resource(2, "tape", 2);
    m.release_resource(2, "tape", 2);
    let d = device(&m, "tape");
    assert_eq!((d.available, d.held_by.clone()), before);
}

#[test]
fn add_device_replaces_a_device_of_the_same_name() {
    let mut m = DeadlockManager::new();
    m.add_device("printer", 1);
    m.request_resource(1, "printer", 1);
    m.add_device("printer", 5);
    assert_eq!(m.devices.len(), 1);
    assert_eq!(device(&m, "printer").available, 5);
    assert!(device(&m, "printer").held_by.is_empty());
}

#[test]
fn add_process_reads_the_need_list() {
    let mut m = DeadlockManager::new();
    m.add_device("printer", 3);
    m.add_device("disk", 2);
    m.add_process(1, "printer:2,disk:+1,bad,scanner:x, tape:4");
    m.add_process(1, "disk:2");
    assert_eq!(m.processes, vec![1]);
    assert_eq!(m.need_of(1, "printer"), 2);
    assert_eq!(m.need_of(1, "disk"), 2);
    assert_eq!(m.need_of(1, "tape"), 4);
    assert_eq!(m.need_of(1, "scanner"), 0);
    m.request_resource(1, "printer", 1);
    assert_eq!(m.need_of(1, "printer"), 1);
    m.request_resource(1, "printer", 2);
    assert_eq!(m.need_of(1, "printer"), 0);
}

#[test]
fn detects_a_two_process_deadlock() {
    let mut m = DeadlockManager::new();
    m.add_device("a", 1);
    m.add_device("b", 1);
    m.request_resource(1, "a", 1);
    m.request_resource(2, "b", 1);
    m.request_resource(1, "b", 1);
    m.request_resource(2, "a", 1);
    let r = m.detect_deadlock();
    assert_eq!(r.deadlocked, vec![1, 2]);
}

#[test]
fn waiting_without_a_cycle_is_no_deadlock() {
    let mut m = DeadlockManager::new();
    m.add_device("a", 1);
    m.request_resource(1, "a", 1);
    m.request_resource(2, "a", 1);
    let r = m.detect_deadlock();
    assert!(r.deadlocked.is_empty());
    assert_eq!(r.graph.len(), 1);
    let empty = DeadlockManager::new().detect_deadlock();
    assert!(empty.graph.is_empty());
    assert!(empty.deadlocked.is_empty());
}

#[test]
fn bankers_finds_a_safe_sequence() {
    let mut m = DeadlockManager::new();
    m.add_device("r", 3);
    m.add_process(1, "r:2");
    m.add_process(2, "r:3");
    m.request_resource(1, "r", 1);
    m.request_resource(2, "r", 1);
    let r = m.bankers_algorithm();
    assert!(r.safe);
    assert_eq!(r.safe_sequence, vec![1, 2]);
    assert!(r.unfinished.is_empty());
}

#[test]
fn bankers_reports_an_unsafe_state() {
    let mut m = DeadlockManager::new();
    m.add_device("r", 2);
    m.add_process(1, "r:2");
    m.add_process(2, "r:2");
    m.request_resource(1, "r", 1);
    m.request_resource(2, "r", 1);
    let r = m.bankers_algorithm();
    assert!(!r.safe);
    assert!(r.safe_sequence.is_empty());
    assert_eq!(r.unfinished, vec![1, 2]);
}

#[test]
fn bankers_passes_repeat_until_nobody_finishes() {
    let mut m = DeadlockManager::new();
    m.add_device("r", 2);
    m.add_process(1, "r:2");
    m.add_process(2, "r:1");
    m.request_resource(2, "r", 1);
    m.request_resource(1, "r", 1);
    let r = m.bankers_algorithm();
    assert_eq!(r.safe_sequence, vec![2, 1]);
    assert!(r.safe);
}

#[test]
fn resource_maps_render_like_the_table() {
    let keys = vec!["printer".to_string(), "disk".to_string()];
    assert_eq!(format_resource_map(None, &keys), "-");
    let map = vec![("printer".to_string(), 2usize)];
    assert_eq!(format_resource_map(Some(&map), &keys), "printer:2 disk:0");
    assert_eq!(format_resource_map(Some(&map), &Vec::new()), "");
    let big = vec![("disk".to_string(), 1203usize)];
    assert_eq!(format_resource_map(Some(&big), &keys), "printer:0 disk:1203");
}

#[test]
fn allocation_and_need_maps() {
    let mut m = DeadlockManager::new();
    m.add_device("printer", 3);
    m.add_device("disk", 2);
    assert!(m.allocation_map(1).is_none());
    m.add_process(1, "printer:2,disk:1");
    let keys: Vec<String> = m.devices.iter().map(|d| d.name.clone()).collect();
    let registered = m.allocation_map(1).unwrap();
    assert_eq!(format_resource_map(Some(&registered), &keys), "printer:0 disk:0");
    m.request_resource(1, "printer", 1);
    let keys: Vec<String> = m.devices.iter().map(|d| d.name.clone()).collect();
    let alloc = m.allocation_map(1).unwrap();
    assert_eq!(format_resource_map(Some(&alloc), &keys), "printer:1 disk:0");
    let need = m.need_map(1);
    assert_eq!(format_resource_map(Some(&need), &keys), "printer:1 disk:1");
}

#[test]
fn three_process_cycle_reports_the_back_edge_ends() {
    let mut m = DeadlockManager::new();
    m.add_device("a", 1);
    m.add_device("b", 1);
    m.add_device("c", 1);
    m.request_resource(1, "a", 1);
    m.request_resource(2, "b", 1);
    m.request_resource(3, "c", 1);
    m.request_resource(1, "b", 1);
    m.request_resource(2, "c", 1);
    m.request_resource(3, "a", 1);
    let r = m.detect_deadlock();
    let edges: Vec<(u32, Vec<u32>)> = r.graph.iter().map(|w| (w.pid, w.waits_for.clone())).collect();
    assert_eq!(edges, vec![(1, vec![2]), (2, vec![3]), (3, vec![1])]);
    assert_eq!(r.deadlocked, vec![1, 3]);
}

#[test]
fn empty_need_list_declares_nothing() {
    let mut m = DeadlockManager::new();
    m.add_device("printer", 1);
    m.add_process(5, "");
    assert_eq!(m.processes, vec![5]);
    assert_eq!(m.need_of(5, "printer"), 0);
    assert!(m.max_need.is_empty());
}

#[test]
fn holders_are_listed_once_in_order_of_first_grant() {
    let mut m = DeadlockManager::new();
    m.add_device("disk", 6);
    m.request_resource(3, "disk", 2);
    m.request_resource(1, "disk", 1);
    m.request_resource(3, "disk", 1);
    let d = device(&m, "disk");
    assert_eq!(d.held_by, vec![3, 3, 1, 3]);
    assert_eq!(d.holders(), vec![3, 1]);
    assert!(IoDevice::new(2).holders().is_empty());
}

#[test]
fn allocation_matches_holders_through_requests_and_releases() {
    let mut m = DeadlockManager::new();
    m.add_device("tape", 3);
    m.request_resource(1, "tape", 2);
    m.request_resource(2, "tape", 2);
    m.request_resource(3, "tape", 1);
    m.release_resource(1, "tape", 2);
    let d = device(&m, "tape");
    for p in 1..4u32 {
        let held = d.held_by.iter().filter(|&&h| h == p).count();
        assert_eq!(m.allocation_of(p, "tape"), held);
    }
}

#[test]
fn replacing_a_device_forgets_its_holders_but_not_the_allocation() {
    let mut m = DeadlockManager::new();
    m.add_device("printer", 1);
    m.request_resource(1, "printer", 1);
    m.add_device("printer", 1);
    assert!(device(&m, "printer").held_by.is_empty());
    assert_eq!(m.allocation_of(1, "printer"), 1);
}
