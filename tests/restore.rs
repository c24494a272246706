use network_scheduler::data_chunk::{BlockRange, ChunkId, DataChunk};
use network_scheduler::scheduler::{Scheduler, SchedulerConfig};
use network_scheduler::scheduling_unit::SchedulingUnit;
use network_scheduler::worker_state::{AssignedUnit, WorkerState};

fn config() -> SchedulerConfig {
    SchedulerConfig {
        replication_factor: 1,
        worker_storage_bytes: 100,
        inactive_timeout: 1_000,
        unreachable_timeout: 1_000,
        stale_timeout: 1_000,
    }
}

fn unit(begin: u32, size: u64) -> SchedulingUnit {
    SchedulingUnit::from_slice(&[DataChunk::new("ds".to_string(), BlockRange { begin, end: begin + 9 }, size)])
}

fn holding(peer: &str, units: &[(u32, u64)], bytes: u64) -> WorkerState {
    let mut w = WorkerState::new(peer.to_string(), "0x".to_string(), 100, 0);
    w.assigned_units = units
        .iter()
        .map(|&(begin, size)| AssignedUnit {
            id: ChunkId { dataset_url: "ds".to_string(), block_range: BlockRange { begin, end: begin + 9 } },
            size_bytes: size,
        })
        .collect();
    w.assigned_bytes = bytes;
    w
}

fn state(units: Vec<SchedulingUnit>, workers: Vec<WorkerState>) -> Scheduler {
    Scheduler { units, workers, config: config() }
}

#[test]
fn restore_accepts_consistent_state() {
    let s = state(vec![unit(0, 10), unit(10, 20)], vec![holding("a", &[(0, 10), (10, 20)], 30), holding("b", &[], 0)]);
    let r = Scheduler::restore(s).unwrap();
    assert_eq!(r.units.len(), 2);
    assert_eq!(r.workers[0].assigned_bytes, 30);
}

#[test]
fn restore_rejects_wrong_byte_count() {
    let s = state(vec![unit(0, 10)], vec![holding("a", &[(0, 10)], 11)]);
    assert!(Scheduler::restore(s).is_none());
}

#[test]
fn restore_rejects_size_mismatch() {
    let s = state(vec![unit(0, 10)], vec![holding("a", &[(0, 12)], 12)]);
    assert!(Scheduler::restore(s).is_none());
}

#[test]
fn restore_rejects_unknown_unit() {
    let s = state(vec![unit(0, 10)], vec![holding("a", &[(50, 10)], 10)]);
    assert!(Scheduler::restore(s).is_none());
}

#[test]
fn restore_rejects_duplicates() {
    let s = state(vec![unit(0, 10), unit(0, 10)], vec![]);
    assert!(Scheduler::restore(s).is_none());
    let s = state(vec![unit(0, 10)], vec![holding("a", &[], 0), holding("a", &[], 0)]);
    assert!(Scheduler::restore(s).is_none());
    let s = state(vec![unit(0, 10)], vec![holding("a", &[(0, 10), (0, 10)], 20)]);
    assert!(Scheduler::restore(s).is_none());
}

#[test]
fn restore_rejects_over_capacity_and_jailed_holder() {
    let s = state(vec![unit(0, 150)], vec![holding("a", &[(0, 150)], 150)]);
    assert!(Scheduler::restore(s).is_none());
    let mut w = holding("a", &[(0, 10)], 10);
    w.jailed = true;
    assert!(Scheduler::restore(state(vec![unit(0, 10)], vec![w])).is_none());
    let empty = SchedulingUnit { chunks: Vec::new() };
    assert!(Scheduler::restore(state(vec![empty], vec![])).is_none());
}

#[test]
fn worker_record_check() {
    assert!(holding("a", &[(0, 10)], 10).check_wf());
    assert!(!holding("a", &[(0, 10)], 9).check_wf());
    assert!(!holding("a", &[(0, u64::MAX), (10, 5)], 4).check_wf());
}

#[test]
fn selection_and_lookup() {
    let mut s = Scheduler::new(config());
    assert!(s.add_worker("a".to_string(), "0x".to_string(), 0));
    assert!(s.add_worker("b".to_string(), "0x".to_string(), 0));
    let u = unit(0, 30);
    s.new_unit(u.clone());
    assert_eq!(s.find_unit(&u.id()), Some(0));
    assert_eq!(s.find_unit(&unit(10, 1).id()), None);
    let pick = s.select_worker(&u.id(), 30, 10).unwrap();
    assert_eq!(pick, 0);
    s.schedule(10);
    assert_eq!(s.select_worker(&u.id(), 30, 10), Some(1));
    assert_eq!(s.select_worker(&u.id(), 101, 10), None);
}
