use network_scheduler::data_chunk::{BlockRange, DataChunk, DatasetRanges};
use network_scheduler::scheduling_unit::SchedulingUnit;
use network_scheduler::worker_state::{JailReason, WorkerState};

fn chunk(ds: &str, begin: u32, end: u32, size: u64) -> DataChunk {
    DataChunk::new(ds.to_string(), BlockRange { begin, end }, size)
}

fn unit(ds: &str, begin: u32, size: u64) -> SchedulingUnit {
    SchedulingUnit::from_slice(&[chunk(ds, begin, begin + 9, size)])
}

fn worker(capacity: u64) -> WorkerState {
    WorkerState::new("peer".to_string(), "0xabc".to_string(), capacity, 1_000)
}

#[test]
fn new_worker_is_empty() {
    let w = worker(100);
    assert_eq!(w.remaining_capacity(), 100);
    assert!(!w.jailed);
    assert!(w.assigned_units.is_empty());
    assert_eq!(w.last_ping, 1_000);
    assert_eq!(w.jail_reason_str(), "??");
}

#[test]
fn assign_respects_capacity_and_duplicates() {
    let mut w = worker(100);
    let a = unit("ds", 0, 60);
    let b = unit("ds", 10, 50);
    assert!(w.try_assign_unit(a.id(), 60));
    assert_eq!(w.assigned_bytes, 60);
    assert_eq!(w.remaining_capacity(), 40);
    assert!(!w.try_assign_unit(b.id(), 50));
    assert_eq!(w.assigned_bytes, 60);
    assert!(!w.try_assign_unit(a.id(), 10));
    assert_eq!(w.assigned_units.len(), 1);
    assert!(w.try_assign_unit(b.id(), 40));
    assert_eq!(w.assigned_bytes, 100);
    assert_eq!(w.remaining_capacity(), 0);
}

#[test]
fn capacity_accounting_over_operation_sequence() {
    let mut w = worker(100);
    let a = unit("ds", 0, 30);
    let b = unit("ds", 10, 20);
    assert!(w.try_assign_unit(a.id(), 30));
    assert!(w.try_assign_unit(b.id(), 20));
    assert!(w.try_expand_unit(&a.id(), 30, 70));
    assert_eq!(w.assigned_bytes, 90);
    assert!(!w.try_expand_unit(&b.id(), 20, 40));
    assert_eq!(w.assigned_bytes, 70);
    assert!(!w.has_unit(&b.id()));
    w.remove_unit(&a.id(), 70);
    assert_eq!(w.assigned_bytes, 0);
    w.remove_unit(&a.id(), 70);
    assert_eq!(w.assigned_bytes, 0);
    let total: u64 = w.assigned_units.iter().map(|u| u.size_bytes).sum();
    assert_eq!(total, w.assigned_bytes);
}

#[test]
fn expand_that_exactly_fits_keeps_unit() {
    let mut w = worker(100);
    let a = unit("ds", 0, 30);
    assert!(w.try_assign_unit(a.id(), 30));
    assert!(w.try_expand_unit(&a.id(), 30, 100));
    assert_eq!(w.assigned_bytes, 100);
    assert_eq!(w.assigned_units[0].size_bytes, 100);
}

#[test]
fn jail_clears_assignment() {
    let mut w = worker(100);
    let a = unit("ds", 0, 30);
    let b = unit("ds", 10, 20);
    assert!(w.try_assign_unit(a.id(), 30));
    assert!(w.try_assign_unit(b.id(), 20));
    let freed = w.jail(JailReason::Unreachable);
    assert_eq!(freed.len(), 2);
    assert!(freed[0].same_as(&a.id()));
    assert!(freed[1].same_as(&b.id()));
    assert!(w.jailed);
    assert!(w.assigned_units.is_empty());
    assert_eq!(w.assigned_bytes, 0);
    assert_eq!(w.num_missing_chunks, 0);
    assert_eq!(w.jail_reason, Some(JailReason::Unreachable));
    assert_eq!(w.jail_reason_str(), "Worker could not be reached on a public address");
    w.release();
    assert!(!w.jailed);
    assert_eq!(w.jail_reason, None);
}

#[test]
fn jail_reason_messages() {
    assert_eq!(JailReason::Inactive.message(), "Worker didn't send pings within the inactivity timeout");
    assert_eq!(
        JailReason::Stale.message(),
        "Worker didn't download any of the assigned chunks within the stale timeout"
    );
}

#[test]
fn activity_and_reachability() {
    let mut w = worker(100);
    assert!(w.is_active(1_500, 1_000));
    assert!(!w.is_active(2_000, 1_000));
    w.ping(3_000, Some("1.0".to_string()), Vec::new(), Some(42));
    assert!(w.is_active(3_500, 1_000));
    assert_eq!(w.stored_bytes, 42);
    assert_eq!(w.version.as_deref(), Some("1.0"));
    w.dialed(false, 4_000);
    assert_eq!(w.unreachable_since, Some(4_000));
    w.dialed(false, 5_000);
    assert_eq!(w.unreachable_since, Some(4_000));
    assert!(!w.is_unreachable(5_000, 1_000));
    assert!(w.is_unreachable(5_001, 1_000));
    w.dialed(true, 6_000);
    assert_eq!(w.unreachable_since, None);
    assert!(w.last_dial_ok);
    assert!(!w.is_unreachable(100_000, 1_000));
}

#[test]
fn missing_chunks_follow_reported_ranges() {
    let mut w = worker(1_000);
    let units = vec![
        SchedulingUnit::from_slice(&[chunk("ds", 0, 9, 1), chunk("ds", 10, 19, 1)]),
        unit("other", 0, 1),
    ];
    assert!(w.try_assign_unit(units[0].id(), 2));
    assert!(w.try_assign_unit(units[1].id(), 1));
    assert_eq!(w.assigned_chunks(&units).len(), 3);
    w.reset_download_progress(&units, 10_000);
    assert_eq!(w.num_missing_chunks, 3);
    assert_eq!(w.last_assignment, 10_000);
    // Within the grace period progress is assumed.
    assert!(w.check_download_progress(&units, 10_500, 1_000));
    // After it, no decrease means no progress.
    assert!(!w.check_download_progress(&units, 11_000, 1_000));
    let ranges = vec![DatasetRanges { url: "ds".to_string(), ranges: vec![BlockRange { begin: 0, end: 9 }] }];
    w.ping(11_000, None, ranges, None);
    assert!(w.check_download_progress(&units, 11_000, 1_000));
    assert_eq!(w.num_missing_chunks, 2);
    let all = vec![
        DatasetRanges { url: "ds".to_string(), ranges: vec![BlockRange { begin: 0, end: 19 }] },
        DatasetRanges { url: "other".to_string(), ranges: vec![BlockRange { begin: 0, end: 100 }] },
    ];
    w.ping(12_000, None, all, None);
    assert_eq!(w.count_missing_chunks(&w.assigned_chunks(&units)), 0);
    assert!(w.check_download_progress(&units, 12_000, 1_000));
    assert_eq!(w.num_missing_chunks, 0);
}
