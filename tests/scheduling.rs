use network_scheduler::config::Config;
use network_scheduler::data_chunk::{BlockRange, DataChunk, DatasetRanges};
use network_scheduler::scheduler::{is_listed, Scheduler, SchedulerConfig};
use network_scheduler::scheduling_unit::SchedulingUnit;
use network_scheduler::worker_state::JailReason;

fn chunk(ds: &str, begin: u32, end: u32, size: u64) -> DataChunk {
    DataChunk::new(ds.to_string(), BlockRange { begin, end }, size)
}

fn unit(ds: &str, begin: u32, size: u64) -> SchedulingUnit {
    SchedulingUnit::from_slice(&[chunk(ds, begin, begin + 9, size)])
}

fn config(rf: usize, capacity: u64) -> SchedulerConfig {
    SchedulerConfig {
        replication_factor: rf,
        worker_storage_bytes: capacity,
        inactive_timeout: 10_000,
        unreachable_timeout: 10_000,
        stale_timeout: 5_000,
    }
}

fn scheduler(rf: usize, capacity: u64, workers: usize) -> Scheduler {
    let mut s = Scheduler::new(config(rf, capacity));
    for i in 0..workers {
        assert!(s.add_worker(format!("peer{i}"), format!("0x{i}"), 0));
    }
    s
}

fn replicas(s: &Scheduler, u: &SchedulingUnit, now: u64) -> usize {
    s.count_replicas(&u.id(), now)
}

#[test]
fn replication_converges_in_one_pass() {
    let mut s = scheduler(3, 100, 5);
    let u = unit("ds", 0, 40);
    s.new_unit(u.clone());
    s.schedule(1_000);
    assert_eq!(replicas(&s, &u, 1_000), 3);
    let holders = s.workers.iter().filter(|w| w.has_unit(&u.id())).count();
    assert_eq!(holders, 3);
    s.schedule(1_000);
    assert_eq!(replicas(&s, &u, 1_000), 3);
}

#[test]
fn most_remaining_capacity_is_preferred() {
    let mut s = scheduler(1, 100, 2);
    let a = unit("ds", 0, 30);
    s.new_unit(a.clone());
    s.schedule(1_000);
    let first = s.workers.iter().position(|w| w.has_unit(&a.id())).unwrap();
    let b = unit("ds", 10, 30);
    s.new_unit(b.clone());
    s.schedule(1_000);
    let second = s.workers.iter().position(|w| w.has_unit(&b.id())).unwrap();
    assert_ne!(first, second);
}

#[test]
fn under_capacity_assigns_what_fits() {
    let mut s = scheduler(3, 50, 2);
    let u = unit("ds", 0, 40);
    s.new_unit(u.clone());
    s.schedule(1_000);
    assert_eq!(replicas(&s, &u, 1_000), 2);
    let v = unit("ds", 10, 40);
    s.new_unit(v.clone());
    s.schedule(1_000);
    assert_eq!(replicas(&s, &v, 1_000), 0);
    for w in &s.workers {
        assert!(w.assigned_bytes <= w.capacity);
    }
}

#[test]
fn inactive_workers_get_nothing() {
    let mut s = scheduler(2, 100, 3);
    assert!(s.ping(&"peer1".to_string(), 20_000, None, Vec::new(), None));
    let u = unit("ds", 0, 10);
    s.new_unit(u.clone());
    s.schedule(20_000);
    assert_eq!(replicas(&s, &u, 20_000), 1);
    assert!(s.workers[1].has_unit(&u.id()));
    assert_eq!(s.active_workers(20_000), vec!["peer1".to_string()]);
}

#[test]
fn stale_worker_is_jailed_and_units_move() {
    let mut s = scheduler(1, 100, 2);
    let u = unit("ds", 0, 10);
    s.new_unit(u.clone());
    s.schedule(1_000);
    let holder = s.workers.iter().position(|w| w.has_unit(&u.id())).unwrap();
    let other = 1 - holder;
    assert_eq!(s.workers[holder].num_missing_chunks, 1);
    // Both workers keep pinging; neither reports the chunk.
    for p in ["peer0", "peer1"] {
        assert!(s.ping(&p.to_string(), 6_000, None, Vec::new(), None));
    }
    s.sweep(6_000);
    assert!(s.workers[holder].jailed);
    assert_eq!(s.workers[holder].jail_reason, Some(JailReason::Stale));
    assert!(!s.workers[other].jailed);
    assert_eq!(replicas(&s, &u, 6_000), 0);
    s.schedule(6_000);
    assert!(s.workers[other].has_unit(&u.id()));
    assert_eq!(replicas(&s, &u, 6_000), 1);
}

#[test]
fn progressing_worker_is_not_jailed() {
    let mut s = scheduler(1, 100, 1);
    let u = SchedulingUnit::from_slice(&[chunk("ds", 0, 9, 1), chunk("ds", 10, 19, 1)]);
    s.new_unit(u.clone());
    s.schedule(1_000);
    let ranges = vec![DatasetRanges { url: "ds".to_string(), ranges: vec![BlockRange { begin: 0, end: 9 }] }];
    assert!(s.ping(&"peer0".to_string(), 6_000, None, ranges, None));
    s.sweep(6_000);
    assert!(!s.workers[0].jailed);
    assert_eq!(s.workers[0].num_missing_chunks, 1);
}

#[test]
fn inactive_and_unreachable_workers_are_jailed() {
    let mut s = scheduler(1, 100, 2);
    assert!(s.ping(&"peer1".to_string(), 30_000, None, Vec::new(), None));
    assert!(s.dialed(&"peer1".to_string(), false, 10_000));
    s.sweep(30_000);
    assert_eq!(s.workers[0].jail_reason, Some(JailReason::Inactive));
    assert_eq!(s.workers[1].jail_reason, Some(JailReason::Unreachable));
    assert!(s.release_worker(&"peer1".to_string()));
    assert!(!s.workers[1].jailed);
    assert!(!s.release_worker(&"nobody".to_string()));
}

#[test]
fn recovery_clears_removed_dataset() {
    let mut s = scheduler(2, 100, 2);
    let keep = unit("kept", 0, 30);
    let drop = unit("gone", 0, 20);
    s.new_unit(keep.clone());
    s.new_unit(drop.clone());
    s.schedule(1_000);
    assert_eq!(s.workers[0].assigned_bytes, 50);
    s.clear_deprecated_units(&vec!["kept".to_string()]);
    assert_eq!(s.units.len(), 1);
    assert!(s.units[0].id().same_as(&keep.id()));
    for w in &s.workers {
        assert!(!w.has_unit(&drop.id()));
        assert!(w.has_unit(&keep.id()));
        assert_eq!(w.assigned_bytes, 30);
    }
}

#[test]
fn new_unit_replaces_and_expands() {
    let mut s = scheduler(1, 100, 1);
    let small = SchedulingUnit::from_slice(&[chunk("ds", 0, 9, 30)]);
    s.new_unit(small.clone());
    s.schedule(1_000);
    assert_eq!(s.workers[0].assigned_bytes, 30);
    let grown = SchedulingUnit::from_slice(&[chunk("ds", 0, 9, 30), chunk("ds", 10, 19, 40)]);
    s.new_unit(grown.clone());
    assert_eq!(s.units.len(), 1);
    assert_eq!(s.units[0].num_chunks(), 2);
    assert_eq!(s.workers[0].assigned_bytes, 70);
    let too_big = SchedulingUnit::from_slice(&[chunk("ds", 0, 9, 30), chunk("ds", 10, 19, 90)]);
    s.new_unit(too_big);
    assert!(!s.workers[0].has_unit(&grown.id()));
    assert_eq!(s.workers[0].assigned_bytes, 0);
}

#[test]
fn worker_state_lists_expected_chunks() {
    let mut s = scheduler(1, 100, 1);
    let u = SchedulingUnit::from_slice(&[chunk("ds", 0, 9, 1), chunk("ds", 10, 19, 1)]);
    s.new_unit(u);
    assert!(s.get_worker_state(&"peer0".to_string()).unwrap().is_empty());
    s.schedule(1_000);
    let chunks = s.get_worker_state(&"peer0".to_string()).unwrap();
    assert_eq!(chunks.len(), 2);
    assert_eq!(chunks[1].block_range, BlockRange { begin: 10, end: 19 });
    assert!(s.get_worker_state(&"nobody".to_string()).is_none());
}

#[test]
fn allowlist_adds_only_new_workers() {
    let mut s = scheduler(1, 100, 1);
    s.update_workers(
        vec![("peer0".to_string(), "0x0".to_string()), ("peer9".to_string(), "0x9".to_string())],
        5,
    );
    assert_eq!(s.workers.len(), 2);
    assert_eq!(s.workers[1].peer_id, "peer9");
    assert_eq!(s.workers[1].capacity, 100);
    assert!(!s.add_worker("peer9".to_string(), "0x9".to_string(), 5));
    assert!(s.find_worker(&"peer9".to_string()).is_some());
}

#[test]
fn dataset_listing() {
    let list = vec!["a".to_string(), "b".to_string()];
    assert!(is_listed(&list, &"b".to_string()));
    assert!(!is_listed(&list, &"c".to_string()));
}

#[test]
fn config_converts_timeouts() {
    let c = Config {
        schedule_interval_sec: 10,
        replication_factor: 3,
        scheduling_unit_size: 5,
        worker_storage_bytes: 1 << 30,
        s3_endpoint: "http://localhost".to_string(),
        buckets: vec!["a".to_string()],
        worker_inactive_timeout_sec: 60,
        worker_unreachable_timeout_sec: 120,
        worker_stale_timeout_sec: u64::MAX,
    };
    let sc = c.scheduler_config();
    assert_eq!(sc.replication_factor, 3);
    assert_eq!(sc.inactive_timeout, 60_000);
    assert_eq!(sc.unreachable_timeout, 120_000);
    assert_eq!(sc.stale_timeout, u64::MAX);
}

#[test]
fn second_pass_changes_nothing() {
    let mut s = scheduler(2, 50, 3);
    for i in 0..4u32 {
        s.new_unit(unit("ds", i * 10, 30));
    }
    s.schedule(1_000);
    let before: Vec<(u64, u64, usize)> =
        s.workers.iter().map(|w| (w.assigned_bytes, w.last_assignment, w.assigned_units.len())).collect();
    s.schedule(1_000);
    let after: Vec<(u64, u64, usize)> =
        s.workers.iter().map(|w| (w.assigned_bytes, w.last_assignment, w.assigned_units.len())).collect();
    assert_eq!(before, after);
    for w in &s.workers {
        assert!(w.assigned_bytes <= 50);
    }
}

#[test]
fn touched_workers_get_progress_reset() {
    let mut s = scheduler(1, 100, 2);
    let u = SchedulingUnit::from_slice(&[chunk("ds", 0, 9, 1), chunk("ds", 10, 19, 1)]);
    s.new_unit(u.clone());
    s.schedule(7_000);
    let holder = s.workers.iter().position(|w| w.has_unit(&u.id())).unwrap();
    assert_eq!(s.workers[holder].last_assignment, 7_000);
    assert_eq!(s.workers[holder].num_missing_chunks, 2);
    assert_eq!(s.workers[1 - holder].last_assignment, 0);
}

#[test]
fn holders_are_min_of_rf_and_ready_workers() {
    let mut s = scheduler(3, 100, 4);
    assert!(s.ping(&"peer0".to_string(), 50_000, None, Vec::new(), None));
    assert!(s.ping(&"peer1".to_string(), 50_000, None, Vec::new(), None));
    let u = unit("ds", 0, 60);
    s.new_unit(u.clone());
    s.schedule(50_000);
    assert_eq!(replicas(&s, &u, 50_000), 2);
    assert!(!s.workers[2].has_unit(&u.id()));
    assert!(!s.workers[3].has_unit(&u.id()));
}

#[test]
fn clearing_with_every_dataset_listed_changes_nothing() {
    let mut s = scheduler(1, 100, 2);
    s.new_unit(unit("a", 0, 10));
    s.new_unit(unit("b", 0, 20));
    s.schedule(1_000);
    let before: Vec<(u64, usize)> = s.workers.iter().map(|w| (w.assigned_bytes, w.assigned_units.len())).collect();
    s.clear_deprecated_units(&vec!["b".to_string(), "a".to_string()]);
    let after: Vec<(u64, usize)> = s.workers.iter().map(|w| (w.assigned_bytes, w.assigned_units.len())).collect();
    assert_eq!(before, after);
    assert_eq!(s.units.len(), 2);
    assert_eq!(s.units[0].chunks[0].dataset_url, "a");
    assert_eq!(s.units[1].chunks[0].dataset_url, "b");
}
