use vstd::prelude::*;

use crate::data_chunk::{chunk_views, BlockRange, ChunkView, DataChunk, DatasetRanges, IdView, ranges_include};
use crate::scheduling_unit::{SchedulingUnit, UnitId};

verus! {

/// Why a worker was excluded from assignment.
#[derive(Clone, Copy, Debug, PartialEq, Eq, Structural)]
pub enum JailReason {
    Inactive,
    Unreachable,
    Stale,
}

/// A unit assigned to a worker, with the size it was accounted at.
#[derive(Clone, Debug)]
pub struct AssignedUnit {
    pub id: UnitId,
    pub size_bytes: u64,
}

/// The identifiers of a sequence of assigned units.
pub open spec fn assigned_ids(s: Seq<AssignedUnit>) -> Seq<IdView> {
    s.map_values(|a: AssignedUnit| a.id@)
}

/// Sum of the accounted sizes of a sequence of assigned units.
pub open spec fn assigned_total(s: Seq<AssignedUnit>) -> int
    decreases s.len(),
{
    if s.len() == 0 {
        0
    } else {
        assigned_total(s.drop_last()) + s.last().size_bytes
    }
}

/// The chunks of the units in `units` whose identifier is in `ids`, in the order of `units`.
pub open spec fn held_chunks(ids: Seq<IdView>, units: Seq<SchedulingUnit>) -> Seq<ChunkView>
    decreases units.len(),
{
    if units.len() == 0 {
        Seq::empty()
    } else {
        held_chunks(ids, units.drop_last()) + if ids.contains(units.last().spec_id()) {
            units.last().view_chunks()
        } else {
            Seq::empty()
        }
    }
}

/// The ranges of the last report entry for `url`, if any.
pub open spec fn ranges_for(stored: Seq<DatasetRanges>, url: Seq<char>) -> Option<Seq<BlockRange>>
    decreases stored.len(),
{
    if stored.len() == 0 {
        None
    } else if stored.last().url@ == url {
        Some(stored.last().ranges@)
    } else {
        ranges_for(stored.drop_last(), url)
    }
}

/// Whether the reported ranges cover a chunk.
pub open spec fn covered(stored: Seq<DatasetRanges>, c: ChunkView) -> bool {
    match ranges_for(stored, c.0) {
        Some(r) => ranges_include(r, c.1),
        None => false,
    }
}

/// The number of chunks that the reported ranges do not cover.
pub open spec fn missing_count(stored: Seq<DatasetRanges>, chunks: Seq<ChunkView>) -> nat
    decreases chunks.len(),
{
    if chunks.len() == 0 {
        0
    } else {
        missing_count(stored, chunks.drop_last()) + if covered(stored, chunks.last()) {
            0nat
        } else {
            1nat
        }
    }
}

/// Time elapsed from `since` to `now`, in milliseconds; zero if `now` is earlier.
pub open spec fn elapsed(since: u64, now: u64) -> u64 {
    if now >= since {
        (now - since) as u64
    } else {
        0
    }
}

/// Health, capacity and assignment record of one worker. Times are in
/// milliseconds.
#[derive(Clone, Debug)]
pub struct WorkerState {
    pub peer_id: String,
    pub address: String,
    pub last_ping: u64,
    pub version: Option<String>,
    pub jailed: bool,
    pub jail_reason: Option<JailReason>,
    pub assigned_units: Vec<AssignedUnit>,
    /// Cached sum of the sizes of `assigned_units`.
    pub assigned_bytes: u64,
    /// Storage the worker offers, in bytes.
    pub capacity: u64,
    pub stored_ranges: Vec<DatasetRanges>,
    pub stored_bytes: u64,
    /// Assigned chunks found missing at the last observation.
    pub num_missing_chunks: u64,
    pub last_assignment: u64,
    pub last_dial_time: u64,
    pub last_dial_ok: bool,
    pub unreachable_since: Option<u64>,
}

impl WorkerState {
    pub open spec fn ids(&self) -> Seq<IdView> {
        assigned_ids(self.assigned_units@)
    }

    pub open spec fn holds(&self, id: IdView) -> bool {
        self.ids().contains(id)
    }

    /// The capacity invariant: the cached byte count is the sum of the sizes
    /// of the assigned units and fits the capacity; no unit is assigned twice;
    /// a jailed worker holds nothing.
    pub open spec fn wf(&self) -> bool {
        &&& self.assigned_bytes == assigned_total(self.assigned_units@)
        &&& self.assigned_bytes <= self.capacity
        &&& self.ids().no_duplicates()
        &&& self.jailed ==> self.assigned_units@.len() == 0
    }

    pub open spec fn spec_remaining(&self) -> u64 {
        if self.capacity >= self.assigned_bytes {
            (self.capacity - self.assigned_bytes) as u64
        } else {
            0
        }
    }

    /// Identity, reports and probe records are the same in both states.
    pub open spec fn same_identity(&self, other: &WorkerState) -> bool {
        &&& self.peer_id == other.peer_id
        &&& self.address == other.address
        &&& self.last_ping == other.last_ping
        &&& self.version == other.version
        &&& self.capacity == other.capacity
        &&& self.stored_ranges == other.stored_ranges
        &&& self.stored_bytes == other.stored_bytes
        &&& self.last_dial_time == other.last_dial_time
        &&& self.last_dial_ok == other.last_dial_ok
        &&& self.unreachable_since == other.unreachable_since
    }

    /// Jail status and download-progress record are the same in both states.
    pub open spec fn same_status(&self, other: &WorkerState) -> bool {
        &&& self.jailed == other.jailed
        &&& self.jail_reason == other.jail_reason
        &&& self.num_missing_chunks == other.num_missing_chunks
        &&& self.last_assignment == other.last_assignment
    }

    /// Everything but the assignment is the same in both states.
    pub open spec fn same_but_assignment(&self, other: &WorkerState) -> bool {
        &&& self.same_identity(other)
        &&& self.jailed == other.jailed
        &&& self.jail_reason == other.jail_reason
        &&& self.num_missing_chunks == other.num_missing_chunks
        &&& self.last_assignment == other.last_assignment
    }

    /// Every entry of this state but those for `id` is an entry of `other`.
    pub open spec fn entries_from(&self, other: &WorkerState, id: IdView) -> bool {
        forall|e: int|
            0 <= e < self.assigned_units@.len() && self.ids()[e] != id ==> exists|e0: int|
                0 <= e0 < other.assigned_units@.len() && #[trigger] other.assigned_units@[e0]
                    == #[trigger] self.assigned_units@[e]
    }

    /// Whether the grace period after the last assignment still runs.
    pub open spec fn in_grace(&self, now: u64, stale_timeout: u64) -> bool {
        now >= self.last_assignment && now - self.last_assignment < stale_timeout
    }

    pub open spec fn spec_is_active(&self, now: u64, inactive_timeout: u64) -> bool {
        elapsed(self.last_ping, now) < inactive_timeout
    }

    pub open spec fn spec_is_unreachable(&self, now: u64, unreachable_timeout: u64) -> bool {
        match self.unreachable_since {
            Some(t) => elapsed(t, now) > unreachable_timeout,
            None => false,
        }
    }

    /// Missing chunks among those of the assigned units.
    pub open spec fn spec_missing(&self, units: Seq<SchedulingUnit>) -> nat {
        missing_count(self.stored_ranges@, held_chunks(self.ids(), units))
    }

    pub fn new(peer_id: String, address: String, capacity: u64, now: u64) -> (r: WorkerState)
        ensures
            r.wf(),
            r.peer_id == peer_id,
            r.address == address,
            r.capacity == capacity,
            r.last_ping == now,
            r.last_assignment == now,
            r.last_dial_time == now,
            !r.last_dial_ok,
            r.version.is_none(),
            !r.jailed,
            r.jail_reason.is_none(),
            r.assigned_units@.len() == 0,
            r.assigned_bytes == 0,
            r.stored_ranges@.len() == 0,
            r.stored_bytes == 0,
            r.num_missing_chunks == 0,
            r.unreachable_since.is_none(),
    {
        let r = WorkerState {
            peer_id,
            address,
            last_ping: now,
            version: None,
            jailed: false,
            jail_reason: None,
            assigned_units: Vec::new(),
            assigned_bytes: 0,
            capacity,
            stored_ranges: Vec::new(),
            stored_bytes: 0,
            num_missing_chunks: 0,
            last_assignment: now,
            last_dial_time: now,
            last_dial_ok: false,
            unreachable_since: None,
        };
        assert(r.ids() =~= Seq::<IdView>::empty());
        r
    }

    /// Records a ping: its time, the reported version, stored ranges and bytes.
    pub fn ping(
        &mut self,
        now: u64,
        version: Option<String>,
        stored_ranges: Vec<DatasetRanges>,
        stored_bytes: Option<u64>,
    )
        ensures
            final(self).last_ping == now,
            final(self).version == version,
            final(self).stored_ranges == stored_ranges,
            final(self).stored_bytes == match stored_bytes {
                Some(b) => b,
                None => 0,
            },
            final(self).assigned_units == old(self).assigned_units,
            final(self).assigned_bytes == old(self).assigned_bytes,
            final(self).capacity == old(self).capacity,
            final(self).jailed == old(self).jailed,
            final(self).jail_reason == old(self).jail_reason,
            final(self).peer_id == old(self).peer_id,
            final(self).address == old(self).address,
            final(self).last_dial_time == old(self).last_dial_time,
            final(self).last_dial_ok == old(self).last_dial_ok,
            final(self).num_missing_chunks == old(self).num_missing_chunks,
            final(self).last_assignment == old(self).last_assignment,
            final(self).unreachable_since == old(self).unreachable_since,
    {
        self.last_ping = now;
        self.version = version;
        self.stored_ranges = stored_ranges;
        self.stored_bytes = match stored_bytes {
            Some(b) => b,
            None => 0,
        };
    }

    /// Records the outcome of a reachability probe.
    pub fn dialed(&mut self, reachable: bool, now: u64)
        ensures
            final(self).last_dial_time == now,
            final(self).last_dial_ok == reachable,
            final(self).unreachable_since == if reachable {
                None
            } else if old(self).unreachable_since.is_none() {
                Some(now)
            } else {
                old(self).unreachable_since
            },
            final(self).same_but_dial(old(self)),
    {
        self.last_dial_time = now;
        self.last_dial_ok = reachable;
        if reachable {
            self.unreachable_since = None;
        } else if self.unreachable_since.is_none() {
            self.unreachable_since = Some(now);
        }
    }

    /// Everything but the probe record is the same in both states.
    pub open spec fn same_but_dial(&self, other: &WorkerState) -> bool {
        &&& self.peer_id == other.peer_id
        &&& self.address == other.address
        &&& self.last_ping == other.last_ping
        &&& self.version == other.version
        &&& self.jailed == other.jailed
        &&& self.jail_reason == other.jail_reason
        &&& self.assigned_units == other.assigned_units
        &&& self.assigned_bytes == other.assigned_bytes
        &&& self.capacity == other.capacity
        &&& self.stored_ranges == other.stored_ranges
        &&& self.stored_bytes == other.stored_bytes
        &&& self.num_missing_chunks == other.num_missing_chunks
        &&& self.last_assignment == other.last_assignment
    }

    /// Whether the last ping is more recent than `inactive_timeout`.
    pub fn is_active(&self, now: u64, inactive_timeout: u64) -> (r: bool)
        ensures
            r == self.spec_is_active(now, inactive_timeout),
    {
        now.saturating_sub(self.last_ping) < inactive_timeout
    }

    /// Whether probes have failed for longer than `unreachable_timeout`.
    pub fn is_unreachable(&self, now: u64, unreachable_timeout: u64) -> (r: bool)
        ensures
            r == self.spec_is_unreachable(now, unreachable_timeout),
    {
        match self.unreachable_since {
            Some(t) => now.saturating_sub(t) > unreachable_timeout,
            None => false,
        }
    }

    pub fn remaining_capacity(&self) -> (r: u64)
        ensures
            r == self.spec_remaining(),
    {
        self.capacity.saturating_sub(self.assigned_bytes)
    }

    /// The position of a unit among the assigned ones.
    fn find_unit(&self, unit_id: &UnitId) -> (r: Option<usize>)
        ensures
            match r {
                Some(i) => i < self.assigned_units@.len() && self.ids()[i as int] == unit_id@,
                None => !self.holds(unit_id@),
            },
    {
        let mut i: usize = 0;
        while i < self.assigned_units.len()
            invariant
                0 <= i <= self.assigned_units@.len(),
                forall|j: int| 0 <= j < i ==> self.ids()[j] != unit_id@,
            decreases self.assigned_units@.len() - i,
        {
            if self.assigned_units[i].id.same_as(unit_id) {
                return Some(i);
            }
            i = i + 1;
        }
        None
    }

    /// Assigns a unit if it fits the remaining capacity and is not assigned yet.
    /// Returns whether it was assigned; otherwise nothing changes.
    pub fn try_assign_unit(&mut self, unit_id: UnitId, unit_size: u64) -> (r: bool)
        requires
            old(self).wf(),
            !old(self).jailed,
        ensures
            final(self).wf(),
            r == (unit_size <= old(self).spec_remaining() && !old(self).holds(unit_id@)),
            final(self).same_but_assignment(old(self)),
            r ==> final(self).assigned_units@ == old(self).assigned_units@.push(
                AssignedUnit { id: unit_id, size_bytes: unit_size },
            ),
            r ==> final(self).assigned_bytes == old(self).assigned_bytes + unit_size,
            !r ==> final(self).assigned_units == old(self).assigned_units,
            !r ==> final(self).assigned_bytes == old(self).assigned_bytes,
    {
        if unit_size > self.remaining_capacity() {
            return false;
        }
        if self.find_unit(&unit_id).is_some() {
            return false;
        }
        let ghost old_units = self.assigned_units@;
        let ghost uid = unit_id@;
        self.assigned_units.push(AssignedUnit { id: unit_id, size_bytes: unit_size });
        self.assigned_bytes = self.assigned_bytes + unit_size;
        proof {
            assert(self.assigned_units@.drop_last() =~= old_units);
            assert(self.ids() =~= assigned_ids(old_units).push(uid));
            assert forall|a: int, b: int|
                0 <= a < self.ids().len() && 0 <= b < self.ids().len() && a != b implies
                self.ids()[a] != self.ids()[b] by {
                if a == self.ids().len() - 1 {
                    assert(assigned_ids(old_units)[b] == self.ids()[b]);
                } else if b == self.ids().len() - 1 {
                    assert(assigned_ids(old_units)[a] == self.ids()[a]);
                }
            }
        }
        true
    }

    /// Unassigns a unit, if assigned, and takes its size off the byte count.
    pub fn remove_unit(&mut self, unit_id: &UnitId, unit_size: u64)
        requires
            old(self).wf(),
            forall|i: int|
                0 <= i < old(self).assigned_units@.len() && old(self).ids()[i] == unit_id@
                    ==> #[trigger] old(self).assigned_units@[i].size_bytes == unit_size,
        ensures
            final(self).wf(),
            final(self).same_but_assignment(old(self)),
            !final(self).holds(unit_id@),
            forall|id: IdView| id != unit_id@ ==> final(self).holds(id) == old(self).holds(id),
            final(self).entries_from(old(self), unit_id@),
            final(self).assigned_bytes == if old(self).holds(unit_id@) {
                old(self).assigned_bytes - unit_size
            } else {
                old(self).assigned_bytes as int
            },
    {
        match self.find_unit(unit_id) {
            Some(i) => {
                self.remove_at(i);
            },
            None => {},
        }
    }

    /// Removes the entry at `i`, adjusting the byte count.
    fn remove_at(&mut self, i: usize)
        requires
            old(self).wf(),
            i < old(self).assigned_units@.len(),
        ensures
            final(self).wf(),
            final(self).same_but_assignment(old(self)),
            final(self).assigned_units@ == old(self).assigned_units@.remove(i as int),
            final(self).assigned_bytes == old(self).assigned_bytes - old(self).assigned_units@[i as int].size_bytes,
            !final(self).holds(old(self).ids()[i as int]),
            final(self).entries_from(old(self), old(self).ids()[i as int]),
            forall|id: IdView|
                id != old(self).ids()[i as int] ==> final(self).holds(id) == old(self).holds(id),
    {
        let ghost s = self.assigned_units@;
        let ghost removed = s[i as int].id@;
        proof {
            lemma_total_remove(s, i as int);
            lemma_total_nonneg(s.remove(i as int));
        }
        let a = self.assigned_units.remove(i);
        self.assigned_bytes = self.assigned_bytes - a.size_bytes;
        proof {
            assert(self.ids() =~= assigned_ids(s).remove(i as int));
            assert forall|a: int, b: int|
                0 <= a < self.ids().len() && 0 <= b < self.ids().len() && a != b implies
                self.ids()[a] != self.ids()[b] by {
                let a2 = if a < i { a } else { a + 1 };
                let b2 = if b < i { b } else { b + 1 };
                assert(assigned_ids(s)[a2] != assigned_ids(s)[b2]);
            }
            assert forall|id: IdView| id != removed implies self.holds(id) == assigned_ids(
                s,
            ).contains(id) by {
                if assigned_ids(s).contains(id) {
                    let j = choose|j: int| 0 <= j < s.len() && assigned_ids(s)[j] == id;
                    if j < i {
                        assert(self.ids()[j] == id);
                    } else {
                        assert(j != i);
                        assert(self.ids()[j - 1] == id);
                    }
                }
            }
            assert forall|e: int| 0 <= e < self.assigned_units@.len() && self.ids()[e] != removed implies exists|e0: int|
                0 <= e0 < s.len() && #[trigger] s[e0] == #[trigger] self.assigned_units@[e] by {
                if e < i {
                    assert(s[e] == self.assigned_units@[e]);
                } else {
                    assert(s[e + 1] == self.assigned_units@[e]);
                }
            }
            if self.holds(removed) {
                let j = choose|j: int| 0 <= j < self.ids().len() && self.ids()[j] == removed;
                if j < i {
                    assert(assigned_ids(s)[j] == removed);
                } else {
                    assert(assigned_ids(s)[j + 1] == removed);
                }
            }
        }
    }

    /// A unit grew in place from `old_size` to `new_size`. If the growth fits
    /// the remaining capacity the unit stays assigned at its new size;
    /// otherwise it is unassigned. Returns whether it stays assigned.
    pub fn try_expand_unit(&mut self, unit_id: &UnitId, old_size: u64, new_size: u64) -> (r: bool)
        requires
            old(self).wf(),
            old(self).holds(unit_id@),
            old_size <= new_size,
            forall|i: int|
                0 <= i < old(self).assigned_units@.len() && old(self).ids()[i] == unit_id@
                    ==> #[trigger] old(self).assigned_units@[i].size_bytes == old_size,
        ensures
            final(self).wf(),
            final(self).same_but_assignment(old(self)),
            r == (new_size - old_size <= old(self).spec_remaining()),
            r ==> final(self).assigned_bytes == old(self).assigned_bytes + (new_size - old_size),
            r ==> final(self).ids() == old(self).ids(),
            r ==> forall|i: int|
                0 <= i < final(self).assigned_units@.len() ==> #[trigger] final(self).assigned_units@[i].size_bytes == if final(self).ids()[i] == unit_id@ {
                    new_size
                } else {
                    old(self).assigned_units@[i].size_bytes
                },
            !r ==> final(self).assigned_bytes == old(self).assigned_bytes - old_size,
            !r ==> !final(self).holds(unit_id@),
            forall|id: IdView| id != unit_id@ ==> final(self).holds(id) == old(self).holds(id),
            final(self).entries_from(old(self), unit_id@),
    {
        let i = match self.find_unit(unit_id) {
            Some(i) => i,
            None => {
                return false;
            },
        };
        let size_diff = new_size - old_size;
        if size_diff <= self.remaining_capacity() {
            let ghost s = self.assigned_units@;
            let entry = AssignedUnit { id: unit_id.duplicate(), size_bytes: new_size };
            self.assigned_units.set(i, entry);
            self.assigned_bytes = self.assigned_bytes + size_diff;
            proof {
                lemma_total_update(s, i as int, self.assigned_units@[i as int]);
                assert(self.ids() =~= assigned_ids(s));
                assert forall|k: int| 0 <= k < s.len() && k != i implies assigned_ids(s)[k]
                    != unit_id@ by {
                    assert(assigned_ids(s)[i as int] == unit_id@);
                }
                assert forall|e: int| 0 <= e < self.assigned_units@.len() && self.ids()[e] != unit_id@ implies exists|e0: int|
                    0 <= e0 < s.len() && #[trigger] s[e0] == #[trigger] self.assigned_units@[e] by {
                    assert(s[e] == self.assigned_units@[e]);
                }
            }
            true
        } else {
            self.remove_at(i);
            false
        }
    }

    /// Position of the last report entry for `url`.
    fn ranges_index(&self, url: &String) -> (r: Option<usize>)
        ensures
            match r {
                Some(i) => i < self.stored_ranges@.len() && ranges_for(self.stored_ranges@, url@)
                    == Some(self.stored_ranges@[i as int].ranges@),
                None => ranges_for(self.stored_ranges@, url@).is_none(),
            },
    {
        let mut i: usize = self.stored_ranges.len();
        assert(self.stored_ranges@.take(i as int) =~= self.stored_ranges@);
        while i > 0
            invariant
                0 <= i <= self.stored_ranges@.len(),
                ranges_for(self.stored_ranges@, url@) == ranges_for(
                    self.stored_ranges@.take(i as int),
                    url@,
                ),
            decreases i,
        {
            let ghost t = self.stored_ranges@.take(i as int);
            assert(t.drop_last() =~= self.stored_ranges@.take(i - 1));
            if self.stored_ranges[i - 1].url == *url {
                return Some(i - 1);
            }
            i = i - 1;
        }
        None
    }

    /// Whether the reported ranges cover a chunk.
    pub fn is_covered(&self, chunk: &DataChunk) -> (r: bool)
        ensures
            r == covered(self.stored_ranges@, chunk@),
    {
        match self.ranges_index(&chunk.dataset_url) {
            Some(i) => self.stored_ranges[i].includes(&chunk.block_range),
            None => false,
        }
    }

    /// The number of the given chunks that the reported ranges do not cover.
    pub fn count_missing_chunks(&self, chunks: &Vec<DataChunk>) -> (r: u64)
        ensures
            r == missing_count(self.stored_ranges@, chunk_views(chunks@)),
    {
        let mut count: u64 = 0;
        let mut i: usize = 0;
        while i < chunks.len()
            invariant
                0 <= i <= chunks@.len(),
                count <= i,
                count == missing_count(self.stored_ranges@, chunk_views(chunks@).take(i as int)),
            decreases chunks@.len() - i,
        {
            assert(chunk_views(chunks@).take(i + 1).drop_last() =~= chunk_views(chunks@).take(
                i as int,
            ));
            if !self.is_covered(&chunks[i]) {
                count = count + 1;
            }
            i = i + 1;
        }
        assert(chunk_views(chunks@).take(chunks@.len() as int) =~= chunk_views(chunks@));
        count
    }

    /// Whether a unit is assigned to this worker.
    pub fn has_unit(&self, unit_id: &UnitId) -> (r: bool)
        ensures
            r == self.holds(unit_id@),
    {
        self.find_unit(unit_id).is_some()
    }

    /// Copies of the chunks of the assigned units among `units`.
    pub fn assigned_chunks(&self, units: &Vec<SchedulingUnit>) -> (r: Vec<DataChunk>)
        requires
            forall|i: int| 0 <= i < units@.len() ==> (#[trigger] units@[i]).wf(),
        ensures
            chunk_views(r@) == held_chunks(self.ids(), units@),
    {
        let mut out: Vec<DataChunk> = Vec::new();
        let mut i: usize = 0;
        while i < units.len()
            invariant
                0 <= i <= units@.len(),
                forall|k: int| 0 <= k < units@.len() ==> (#[trigger] units@[k]).wf(),
                chunk_views(out@) == held_chunks(self.ids(), units@.take(i as int)),
            decreases units@.len() - i,
        {
            let unit = &units[i];
            assert(units@.take(i + 1).drop_last() =~= units@.take(i as int));
            if self.has_unit(&unit.id()) {
                let ghost before = out@;
                let mut j: usize = 0;
                while j < unit.chunks.len()
                    invariant
                        0 <= j <= unit.chunks@.len(),
                        out@.len() == before.len() + j,
                        forall|k: int| 0 <= k < before.len() ==> #[trigger] out@[k] == before[k],
                        forall|k: int|
                            0 <= k < j ==> (#[trigger] out@[before.len() + k])@ == unit.chunks@[k]@,
                    decreases unit.chunks@.len() - j,
                {
                    out.push(unit.chunks[j].duplicate());
                    j = j + 1;
                }
                assert forall|k: int| 0 <= k < out@.len() implies #[trigger] chunk_views(out@)[k]
                    == (chunk_views(before) + unit.view_chunks())[k] by {
                    if k >= before.len() {
                        assert(out@[before.len() + (k - before.len())]@ == unit.chunks@[k
                            - before.len()]@);
                    }
                }
                assert(chunk_views(out@) =~= chunk_views(before) + unit.view_chunks());
            } else {
                assert(held_chunks(self.ids(), units@.take(i + 1)) =~= held_chunks(
                    self.ids(),
                    units@.take(i as int),
                ));
            }
            i = i + 1;
        }
        assert(units@.take(units@.len() as int) =~= units@);
        out
    }

    /// Whether the worker is fully synced or downloading its assigned chunks.
    /// Within the grace period after an assignment it always is. After it,
    /// the missing chunks are counted: with none, or fewer than last observed,
    /// the count is recorded and the worker makes progress; otherwise it does not.
    pub fn check_download_progress(
        &mut self,
        units: &Vec<SchedulingUnit>,
        now: u64,
        stale_timeout: u64,
    ) -> (r: bool)
        requires
            !old(self).jailed,
            forall|i: int| 0 <= i < units@.len() ==> (#[trigger] units@[i]).wf(),
        ensures
            r == (old(self).in_grace(now, stale_timeout) || old(self).spec_missing(units@) == 0
                || old(self).spec_missing(units@) < old(self).num_missing_chunks),
            final(self).num_missing_chunks == if !old(self).in_grace(now, stale_timeout) && r {
                old(self).spec_missing(units@) as u64
            } else {
                old(self).num_missing_chunks
            },
            final(self).same_identity(old(self)),
            final(self).assigned_units == old(self).assigned_units,
            final(self).assigned_bytes == old(self).assigned_bytes,
            final(self).jailed == old(self).jailed,
            final(self).jail_reason == old(self).jail_reason,
            final(self).last_assignment == old(self).last_assignment,
    {
        if now >= self.last_assignment && now - self.last_assignment < stale_timeout {
            return true;
        }
        let chunks = self.assigned_chunks(units);
        let missing = self.count_missing_chunks(&chunks);
        if missing == 0 || missing < self.num_missing_chunks {
            self.num_missing_chunks = missing;
            true
        } else {
            false
        }
    }

    /// Recounts the missing chunks and starts a new grace period; called
    /// whenever the assignment changes.
    pub fn reset_download_progress(&mut self, units: &Vec<SchedulingUnit>, now: u64)
        requires
            forall|i: int| 0 <= i < units@.len() ==> (#[trigger] units@[i]).wf(),
        ensures
            final(self).num_missing_chunks == old(self).spec_missing(units@),
            final(self).last_assignment == now,
            final(self).same_identity(old(self)),
            final(self).assigned_units == old(self).assigned_units,
            final(self).assigned_bytes == old(self).assigned_bytes,
            final(self).jailed == old(self).jailed,
            final(self).jail_reason == old(self).jail_reason,
    {
        let chunks = self.assigned_chunks(units);
        self.num_missing_chunks = self.count_missing_chunks(&chunks);
        self.last_assignment = now;
    }

    /// Jails the worker, unassigns all its units and returns their identifiers.
    pub fn jail(&mut self, reason: JailReason) -> (r: Vec<UnitId>)
        requires
            old(self).wf(),
        ensures
            final(self).wf(),
            final(self).jailed,
            final(self).jail_reason == Some(reason),
            final(self).assigned_units@.len() == 0,
            final(self).assigned_bytes == 0,
            final(self).num_missing_chunks == 0,
            r@.map_values(|u: UnitId| u@) == old(self).ids(),
            final(self).same_identity(old(self)),
            final(self).last_assignment == old(self).last_assignment,
    {
        self.jailed = true;
        self.jail_reason = Some(reason);
        self.assigned_bytes = 0;
        self.num_missing_chunks = 0;
        let mut units: Vec<AssignedUnit> = Vec::new();
        std::mem::swap(&mut units, &mut self.assigned_units);
        let mut ids: Vec<UnitId> = Vec::new();
        let mut i: usize = 0;
        while i < units.len()
            invariant
                0 <= i <= units@.len(),
                ids@.len() == i,
                forall|k: int| 0 <= k < i ==> (#[trigger] ids@[k])@ == units@[k].id@,
            decreases units@.len() - i,
        {
            ids.push(units[i].id.duplicate());
            i = i + 1;
        }
        assert(ids@.map_values(|u: UnitId| u@) =~= assigned_ids(units@));
        assert(self.ids() =~= Seq::<IdView>::empty());
        ids
    }

    /// Lifts the jail.
    pub fn release(&mut self)
        ensures
            !final(self).jailed,
            final(self).jail_reason.is_none(),
            final(self).same_identity(old(self)),
            final(self).assigned_units == old(self).assigned_units,
            final(self).assigned_bytes == old(self).assigned_bytes,
            final(self).num_missing_chunks == old(self).num_missing_chunks,
            final(self).last_assignment == old(self).last_assignment,
    {
        self.jailed = false;
        self.jail_reason = None;
    }

    /// The description of the jail reason, or `??` when not jailed.
    pub fn jail_reason_str(&self) -> (r: String)
        ensures
            r@ == match self.jail_reason {
                Some(reason) => reason.spec_message(),
                None => "??"@,
            },
    {
        match self.jail_reason {
            Some(reason) => reason.message(),
            None => {
                proof {
                    reveal_strlit("??");
                }
                String::from_str("??")
            },
        }
    }

    /// Whether the record satisfies the capacity invariant; used to vet a
    /// record read back from storage.
    pub fn check_wf(&self) -> (r: bool)
        ensures
            r == self.wf(),
    {
        let n = self.assigned_units.len();
        if self.jailed && n > 0 {
            return false;
        }
        let mut total: u64 = 0;
        let mut i: usize = 0;
        while i < n
            invariant
                n == self.assigned_units@.len(),
                0 <= i <= n,
                total == assigned_total(self.assigned_units@.take(i as int)),
            decreases n - i,
        {
            assert(self.assigned_units@.take(i + 1).drop_last() =~= self.assigned_units@.take(i as int));
            let size = self.assigned_units[i].size_bytes;
            if total > u64::MAX - size {
                proof {
                    lemma_total_prefix(self.assigned_units@, i + 1);
                }
                return false;
            }
            total = total + size;
            i = i + 1;
        }
        assert(self.assigned_units@.take(n as int) =~= self.assigned_units@);
        if total != self.assigned_bytes || self.assigned_bytes > self.capacity {
            return false;
        }
        let mut a: usize = 0;
        while a < n
            invariant
                n == self.assigned_units@.len(),
                0 <= a <= n,
                forall|x: int, y: int| 0 <= x < a && 0 <= y < n && x != y ==> self.ids()[x] != self.ids()[y],
            decreases n - a,
        {
            let mut b: usize = 0;
            while b < n
                invariant
                    n == self.assigned_units@.len(),
                    0 <= a < n,
                    0 <= b <= n,
                    forall|x: int, y: int| 0 <= x < a && 0 <= y < n && x != y ==> self.ids()[x] != self.ids()[y],
                    forall|y: int| 0 <= y < b && a != y ==> self.ids()[a as int] != self.ids()[y],
                decreases n - b,
            {
                if a != b && self.assigned_units[a].id.same_as(&self.assigned_units[b].id) {
                    assert(self.ids()[a as int] == self.ids()[b as int]);
                    return false;
                }
                b = b + 1;
            }
            a = a + 1;
        }
        true
    }
}

/// A prefix's total never exceeds the whole's.
pub proof fn lemma_total_prefix(s: Seq<AssignedUnit>, k: int)
    requires
        0 <= k <= s.len(),
    ensures
        assigned_total(s.take(k)) <= assigned_total(s),
    decreases s.len(),
{
    if k < s.len() {
        assert(s.drop_last().take(k) =~= s.take(k));
        lemma_total_prefix(s.drop_last(), k);
    } else {
        assert(s.take(k) =~= s);
    }
}

/// Replacing one entry changes the total by the difference of the sizes.
pub proof fn lemma_total_update(s: Seq<AssignedUnit>, i: int, x: AssignedUnit)
    requires
        0 <= i < s.len(),
    ensures
        assigned_total(s.update(i, x)) == assigned_total(s) - s[i].size_bytes + x.size_bytes,
    decreases s.len(),
{
    if i == s.len() - 1 {
        assert(s.update(i, x).drop_last() =~= s.drop_last());
    } else {
        lemma_total_update(s.drop_last(), i, x);
        assert(s.update(i, x).drop_last() =~= s.drop_last().update(i, x));
    }
}


/// The capacity invariant, which every assignment operation requires and
/// preserves: the cached byte count is the exact sum of the sizes of the
/// assigned units and never exceeds the capacity.
pub proof fn lemma_capacity_invariant(w: WorkerState)
    requires
        w.wf(),
    ensures
        w.assigned_bytes == assigned_total(w.assigned_units@),
        w.assigned_bytes <= w.capacity,
        w.spec_remaining() == w.capacity - w.assigned_bytes,
{
}

/// Totals are never negative.
pub proof fn lemma_total_nonneg(s: Seq<AssignedUnit>)
    ensures
        assigned_total(s) >= 0,
    decreases s.len(),
{
    if s.len() > 0 {
        lemma_total_nonneg(s.drop_last());
    }
}

/// Removing one entry takes its size off the total.
pub proof fn lemma_total_remove(s: Seq<AssignedUnit>, i: int)
    requires
        0 <= i < s.len(),
    ensures
        assigned_total(s.remove(i)) == assigned_total(s) - s[i].size_bytes,
    decreases s.len(),
{
    if i == s.len() - 1 {
        assert(s.remove(i) =~= s.drop_last());
    } else {
        lemma_total_remove(s.drop_last(), i);
        assert(s.remove(i).drop_last() =~= s.drop_last().remove(i));
    }
}

impl JailReason {
    /// A description of the reason.
    pub fn message(&self) -> (r: String)
        ensures
            r@ == self.spec_message(),
    {
        proof {
            reveal_strlit("Worker didn't send pings within the inactivity timeout");
            reveal_strlit("Worker could not be reached on a public address");
            reveal_strlit("Worker didn't download any of the assigned chunks within the stale timeout");
        }
        match self {
            JailReason::Inactive => String::from_str(
                "Worker didn't send pings within the inactivity timeout",
            ),
            JailReason::Unreachable => String::from_str(
                "Worker could not be reached on a public address",
            ),
            JailReason::Stale => String::from_str(
                "Worker didn't download any of the assigned chunks within the stale timeout",
            ),
        }
    }

    pub open spec fn spec_message(&self) -> Seq<char> {
        match self {
            JailReason::Inactive => "Worker didn't send pings within the inactivity timeout"@,
            JailReason::Unreachable => "Worker could not be reached on a public address"@,
            JailReason::Stale => "Worker didn't download any of the assigned chunks within the stale timeout"@,
        }
    }
}

} // verus!
