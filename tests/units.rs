use network_scheduler::bundler::Bundler;
use network_scheduler::data_chunk::{BlockRange, ChunkId, DataChunk, DatasetRanges};
use network_scheduler::scheduling_unit::SchedulingUnit;

fn chunk(ds: &str, begin: u32, end: u32, size: u64) -> DataChunk {
    DataChunk::new(ds.to_string(), BlockRange { begin, end }, size)
}

fn stream() -> Vec<DataChunk> {
    (0..5u32).map(|i| chunk("ds", i * 100, i * 100 + 99, 10 + i as u64)).collect()
}

fn ids_of(units: &[SchedulingUnit]) -> Vec<(u32, usize)> {
    units.iter().map(|u| (u.id().block_range.begin, u.num_chunks())).collect()
}

#[test]
fn unit_id_is_first_chunk_id() {
    let chunks = stream();
    let unit = SchedulingUnit::from_slice(&chunks[1..3]);
    let id = unit.id();
    assert_eq!(id.dataset_url, "ds");
    assert_eq!(id.block_range, BlockRange { begin: 100, end: 199 });
    assert_eq!(unit.num_chunks(), 2);
    assert_eq!(unit.size_bytes(), 11 + 12);
}

#[test]
fn unit_size_saturates() {
    let chunks = vec![chunk("ds", 0, 1, u64::MAX), chunk("ds", 2, 3, 5)];
    assert_eq!(SchedulingUnit::from_slice(&chunks).size_bytes(), u64::MAX);
}

#[test]
fn unit_identity_does_not_depend_on_batching() {
    let s = stream();
    let mut a = Bundler::new(2);
    let mut out_a = a.push_batch(s[0..3].to_vec());
    out_a.extend(a.push_batch(s[3..5].to_vec()));
    let mut b = Bundler::new(2);
    let mut out_b = b.push_batch(s[0..1].to_vec());
    out_b.extend(b.push_batch(s[1..5].to_vec()));
    // The last announcement of each identifier is the same either way.
    let last = |units: &[SchedulingUnit]| {
        let mut m = std::collections::BTreeMap::new();
        for (id, n) in ids_of(units) {
            m.insert(id, n);
        }
        m.into_iter().collect::<Vec<_>>()
    };
    assert_eq!(last(&out_a), vec![(0, 2), (200, 2), (400, 1)]);
    assert_eq!(last(&out_a), last(&out_b));
}

#[test]
fn incomplete_unit_is_reannounced_with_same_id() {
    let s = stream();
    let mut b = Bundler::new(3);
    let first = b.push_batch(s[0..2].to_vec());
    assert_eq!(ids_of(&first), vec![(0, 2)]);
    let second = b.push_batch(s[2..5].to_vec());
    assert_eq!(ids_of(&second), vec![(0, 3), (300, 2)]);
    assert_eq!(second[0].size_bytes(), 10 + 11 + 12);
}

#[test]
fn full_groups_leave_nothing_pending() {
    let s = stream();
    let mut b = Bundler::new(1);
    assert_eq!(ids_of(&b.push_batch(s.clone())).len(), 5);
    assert!(b.push_batch(Vec::new()).is_empty());
    assert_eq!(b.unit_size(), 1);
}

#[test]
fn empty_batch_reannounces_incomplete_unit() {
    let s = stream();
    let mut b = Bundler::new(4);
    assert_eq!(ids_of(&b.push_batch(s[0..5].to_vec())), vec![(0, 4), (400, 1)]);
    assert_eq!(ids_of(&b.push_batch(Vec::new())), vec![(400, 1)]);
}

#[test]
fn chunk_ids_compare_by_dataset_and_range() {
    let a = chunk("ds", 0, 9, 1).id();
    let b = chunk("ds", 0, 9, 2).id();
    let c = chunk("other", 0, 9, 1).id();
    assert!(a.same_as(&b));
    assert!(!a.same_as(&c));
    let d: ChunkId = a.duplicate();
    assert!(d.same_as(&a));
}

#[test]
fn ranges_include_chunk_inside_one_range() {
    let r = DatasetRanges {
        url: "ds".to_string(),
        ranges: vec![BlockRange { begin: 0, end: 99 }, BlockRange { begin: 200, end: 299 }],
    };
    assert!(r.includes(&BlockRange { begin: 10, end: 20 }));
    assert!(r.includes(&BlockRange { begin: 200, end: 299 }));
    assert!(!r.includes(&BlockRange { begin: 90, end: 210 }));
    assert!(!r.includes(&BlockRange { begin: 300, end: 300 }));
}

#[test]
fn adjacent_reports_cover_chunk_together() {
    let r = DatasetRanges {
        url: "ds".to_string(),
        ranges: vec![BlockRange { begin: 50, end: 99 }, BlockRange { begin: 0, end: 49 }],
    };
    assert!(r.includes(&BlockRange { begin: 0, end: 99 }));
    assert!(r.includes(&BlockRange { begin: 40, end: 60 }));
    assert!(!r.includes(&BlockRange { begin: 0, end: 100 }));
    let gap = DatasetRanges {
        url: "ds".to_string(),
        ranges: vec![BlockRange { begin: 0, end: 48 }, BlockRange { begin: 50, end: 99 }],
    };
    assert!(!gap.includes(&BlockRange { begin: 0, end: 99 }));
    let top = DatasetRanges { url: "ds".to_string(), ranges: vec![BlockRange { begin: 0, end: u32::MAX }] };
    assert!(top.includes(&BlockRange { begin: u32::MAX - 1, end: u32::MAX }));
}

#[test]
fn carried_over_unit_completes_across_batches() {
    let s = stream();
    let mut b = Bundler::new(2);
    let first = b.push_batch(s[0..1].to_vec());
    assert_eq!(ids_of(&first), vec![(0, 1)]);
    let second = b.push_batch(s[1..2].to_vec());
    assert_eq!(ids_of(&second), vec![(0, 2)]);
    assert_eq!(second[0].chunks[1].block_range.begin, 100);
    let third = b.push_batch(s[2..5].to_vec());
    assert_eq!(ids_of(&third), vec![(200, 2), (400, 1)]);
}
