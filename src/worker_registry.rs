use vstd::prelude::*;

use crate::data_chunk::{DataChunk, DatasetRanges, IdView, chunk_views};
use crate::scheduler::{Scheduler, is_replica, worker_ok};
use crate::scheduling_unit::SchedulingUnit;
use crate::worker_state::{JailReason, WorkerState, held_chunks};

verus! {

/// Whether a worker with this peer identifier is known.
pub open spec fn known(ws: Seq<WorkerState>, peer_id: Seq<char>) -> bool {
    exists|i: int| 0 <= i < ws.len() && (#[trigger] ws[i]).peer_id@ == peer_id
}

/// Whether an active, unjailed worker has this peer identifier.
pub open spec fn active_peer(ws: Seq<WorkerState>, peer_id: Seq<char>, now: u64, inactive: u64) -> bool {
    exists|k: int|
        0 <= k < ws.len() && (#[trigger] ws[k]).peer_id@ == peer_id && ws[k].spec_is_active(now, inactive)
            && !ws[k].jailed
}

/// The verdict of the health check on a worker that is not jailed: inactive
/// first, then unreachable, then stale; `None` when healthy.
pub open spec fn health_verdict(
    w: WorkerState,
    units: Seq<SchedulingUnit>,
    now: u64,
    inactive: u64,
    unreachable: u64,
    stale: u64,
) -> Option<JailReason> {
    if !w.spec_is_active(now, inactive) {
        Some(JailReason::Inactive)
    } else if w.spec_is_unreachable(now, unreachable) {
        Some(JailReason::Unreachable)
    } else if !(w.in_grace(now, stale) || w.spec_missing(units) == 0 || w.spec_missing(units)
        < w.num_missing_chunks) {
        Some(JailReason::Stale)
    } else {
        None
    }
}

/// What a health sweep does to one worker: a jailed worker stays as it was;
/// a failing one is jailed with the verdict's reason and holds nothing; a
/// healthy one keeps its assignment.
pub open spec fn sweep_step(
    pre: WorkerState,
    post: WorkerState,
    units: Seq<SchedulingUnit>,
    now: u64,
    inactive: u64,
    unreachable: u64,
    stale: u64,
) -> bool {
    if pre.jailed {
        post == pre
    } else {
        match health_verdict(pre, units, now, inactive, unreachable, stale) {
            Some(reason) => {
                &&& post.jailed
                &&& post.jail_reason == Some(reason)
                &&& post.assigned_units@.len() == 0
                &&& post.assigned_bytes == 0
                &&& post.same_identity(&pre)
            },
            None => {
                &&& !post.jailed
                &&& post.jail_reason == pre.jail_reason
                &&& post.assigned_units == pre.assigned_units
                &&& post.assigned_bytes == pre.assigned_bytes
                &&& post.same_identity(&pre)
                &&& post.last_assignment == pre.last_assignment
                &&& post.num_missing_chunks == if pre.in_grace(now, stale) {
                    pre.num_missing_chunks
                } else {
                    pre.spec_missing(units) as u64
                }
            },
        }
    }
}

impl Scheduler {
    /// Position of the worker with this peer identifier.
    pub fn find_worker(&self, peer_id: &String) -> (r: Option<usize>)
        requires
            self.wf(),
        ensures
            match r {
                Some(i) => i < self.workers@.len() && self.workers@[i as int].peer_id@ == peer_id@,
                None => !known(self.workers@, peer_id@),
            },
    {
        let mut i: usize = 0;
        while i < self.workers.len()
            invariant
                0 <= i <= self.workers@.len(),
                forall|j: int| 0 <= j < i ==> (#[trigger] self.workers@[j]).peer_id@ != peer_id@,
            decreases self.workers@.len() - i,
        {
            if self.workers[i].peer_id == *peer_id {
                return Some(i);
            }
            i = i + 1;
        }
        None
    }

    /// Adds a worker seen for the first time in the allowlist; a known one is left alone.
    pub fn add_worker(&mut self, peer_id: String, address: String, now: u64) -> (r: bool)
        requires
            old(self).wf(),
        ensures
            final(self).wf(),
            final(self).units == old(self).units,
            final(self).config == old(self).config,
            r == !known(old(self).workers@, peer_id@),
            !r ==> final(self).workers == old(self).workers,
            r ==> final(self).workers@.len() == old(self).workers@.len() + 1,
            r ==> final(self).workers@.drop_last() == old(self).workers@,
            r ==> {
                let w = final(self).workers@.last();
                &&& w.peer_id == peer_id
                &&& w.address == address
                &&& w.capacity == old(self).config.worker_storage_bytes
                &&& w.last_ping == now
                &&& !w.jailed
                &&& w.assigned_units@.len() == 0
            },
    {
        if self.find_worker(&peer_id).is_some() {
            return false;
        }
        let ghost ws = self.workers@;
        let w = WorkerState::new(peer_id, address, self.config.worker_storage_bytes, now);
        self.workers.push(w);
        proof {
            assert(self.workers@.drop_last() =~= ws);
            assert(worker_ok(self.units@, self.workers@.last()));
        }
        true
    }

    /// Adds every worker of the allowlist not known yet.
    pub fn update_workers(&mut self, allowlist: Vec<(String, String)>, now: u64)
        requires
            old(self).wf(),
        ensures
            final(self).wf(),
            final(self).units == old(self).units,
            final(self).config == old(self).config,
            final(self).workers@.len() >= old(self).workers@.len(),
            forall|i: int| 0 <= i < old(self).workers@.len() ==> #[trigger] final(self).workers@[i] == old(self).workers@[i],
            forall|j: int| 0 <= j < allowlist@.len() ==> known(final(self).workers@, (#[trigger] allowlist@[j]).0@),
            forall|i: int| old(self).workers@.len() <= i < final(self).workers@.len() ==> exists|j: int|
                0 <= j < allowlist@.len() && allowlist@[j].0@ == (#[trigger] final(self).workers@[i]).peer_id@,
    {
        let ghost ws0 = self.workers@;
        let mut rest = allowlist;
        let ghost all = rest@;
        while rest.len() > 0
            invariant
                self.wf(),
                self.units == old(self).units,
                self.config == old(self).config,
                self.workers@.len() >= ws0.len(),
                ws0 == old(self).workers@,
                rest@.len() <= all.len(),
                rest@ == all.take(rest@.len() as int),
                forall|i: int| 0 <= i < ws0.len() ==> #[trigger] self.workers@[i] == ws0[i],
                forall|j: int| rest@.len() <= j < all.len() ==> known(self.workers@, (#[trigger] all[j]).0@),
                forall|i: int| ws0.len() <= i < self.workers@.len() ==> exists|j: int|
                    0 <= j < all.len() && all[j].0@ == (#[trigger] self.workers@[i]).peer_id@,
            decreases rest@.len(),
        {
            let ghost before = self.workers@;
            let item = rest.pop().unwrap();
            assert(item == all[rest@.len() as int]);
            let (peer_id, address) = item;
            let added = self.add_worker(peer_id, address, now);
            proof {
                if added {
                    assert(self.workers@.last().peer_id@ == all[rest@.len() as int].0@);
                    assert(self.workers@[self.workers@.len() - 1] == self.workers@.last());
                    assert forall|j: int| rest@.len() < j < all.len() implies known(self.workers@, (#[trigger] all[j]).0@) by {
                        let i = choose|i: int| 0 <= i < before.len() && (#[trigger] before[i]).peer_id@ == all[j].0@;
                        assert(self.workers@[i] == before[i]);
                    }
                    assert forall|i: int| 0 <= i < ws0.len() implies #[trigger] self.workers@[i] == ws0[i] by {
                        assert(self.workers@[i] == before[i]);
                    }
                    assert forall|i: int| ws0.len() <= i < self.workers@.len() implies exists|j: int|
                        0 <= j < all.len() && all[j].0@ == (#[trigger] self.workers@[i]).peer_id@ by {
                        if i < before.len() {
                            assert(self.workers@[i] == before[i]);
                        } else {
                            assert(all[rest@.len() as int].0@ == self.workers@[i].peer_id@);
                        }
                    }
                }
                assert(rest@ =~= all.take(rest@.len() as int));
            }
        }
    }

    /// Records a ping from a worker. Returns whether the worker is known.
    pub fn ping(
        &mut self,
        peer_id: &String,
        now: u64,
        version: Option<String>,
        stored_ranges: Vec<DatasetRanges>,
        stored_bytes: Option<u64>,
    ) -> (r: bool)
        requires
            old(self).wf(),
        ensures
            final(self).wf(),
            final(self).units == old(self).units,
            final(self).config == old(self).config,
            r == known(old(self).workers@, peer_id@),
            final(self).workers@.len() == old(self).workers@.len(),
            forall|i: int|
                0 <= i < old(self).workers@.len() && old(self).workers@[i].peer_id@ != peer_id@
                    ==> #[trigger] final(self).workers@[i] == old(self).workers@[i],
            forall|i: int|
                0 <= i < old(self).workers@.len() && old(self).workers@[i].peer_id@ == peer_id@ ==> {
                    let w = #[trigger] final(self).workers@[i];
                    &&& w.last_ping == now
                    &&& w.version == version
                    &&& w.stored_ranges == stored_ranges
                    &&& w.stored_bytes == match stored_bytes {
                        Some(b) => b,
                        None => 0,
                    }
                    &&& w.assigned_units == old(self).workers@[i].assigned_units
                    &&& w.jailed == old(self).workers@[i].jailed
                },
    {
        match self.find_worker(peer_id) {
            None => false,
            Some(i) => {
                let ghost ws = self.workers@;
                let mut w = self.workers.remove(i);
                assert(w == ws[i as int]);
                w.ping(now, version, stored_ranges, stored_bytes);
                self.workers.insert(i, w);
                proof {
                    assert(self.workers@ =~= ws.update(i as int, w));
                    assert(worker_ok(self.units@, ws[i as int]));
                }
                true
            },
        }
    }

    /// Records the outcome of a reachability probe. Returns whether the worker is known.
    pub fn dialed(&mut self, peer_id: &String, reachable: bool, now: u64) -> (r: bool)
        requires
            old(self).wf(),
        ensures
            final(self).wf(),
            final(self).units == old(self).units,
            final(self).config == old(self).config,
            r == known(old(self).workers@, peer_id@),
            final(self).workers@.len() == old(self).workers@.len(),
            forall|i: int|
                0 <= i < old(self).workers@.len() && old(self).workers@[i].peer_id@ != peer_id@
                    ==> #[trigger] final(self).workers@[i] == old(self).workers@[i],
            forall|i: int|
                0 <= i < old(self).workers@.len() && old(self).workers@[i].peer_id@ == peer_id@ ==> {
                    let w = #[trigger] final(self).workers@[i];
                    &&& w.last_dial_time == now
                    &&& w.last_dial_ok == reachable
                    &&& w.unreachable_since == if reachable {
                        None
                    } else if old(self).workers@[i].unreachable_since.is_none() {
                        Some(now)
                    } else {
                        old(self).workers@[i].unreachable_since
                    }
                    &&& w.same_but_dial(&old(self).workers@[i])
                },
    {
        match self.find_worker(peer_id) {
            None => false,
            Some(i) => {
                let ghost ws = self.workers@;
                let mut w = self.workers.remove(i);
                assert(w == ws[i as int]);
                w.dialed(reachable, now);
                self.workers.insert(i, w);
                proof {
                    assert(self.workers@ =~= ws.update(i as int, w));
                    assert(worker_ok(self.units@, ws[i as int]));
                }
                true
            },
        }
    }

    /// Lifts the jail of a worker. Returns whether the worker is known.
    pub fn release_worker(&mut self, peer_id: &String) -> (r: bool)
        requires
            old(self).wf(),
        ensures
            final(self).wf(),
            final(self).units == old(self).units,
            final(self).config == old(self).config,
            r == known(old(self).workers@, peer_id@),
            final(self).workers@.len() == old(self).workers@.len(),
            forall|i: int|
                0 <= i < old(self).workers@.len() && old(self).workers@[i].peer_id@ != peer_id@
                    ==> #[trigger] final(self).workers@[i] == old(self).workers@[i],
            forall|i: int|
                0 <= i < old(self).workers@.len() && old(self).workers@[i].peer_id@ == peer_id@ ==> {
                    let w = #[trigger] final(self).workers@[i];
                    &&& !w.jailed
                    &&& w.jail_reason.is_none()
                    &&& w.same_identity(&old(self).workers@[i])
                    &&& w.assigned_units == old(self).workers@[i].assigned_units
                },
    {
        match self.find_worker(peer_id) {
            None => false,
            Some(i) => {
                let ghost ws = self.workers@;
                let mut w = self.workers.remove(i);
                assert(w == ws[i as int]);
                w.release();
                self.workers.insert(i, w);
                proof {
                    assert(self.workers@ =~= ws.update(i as int, w));
                    assert(worker_ok(self.units@, ws[i as int]));
                }
                true
            },
        }
    }

    /// The health sweep run before each assignment pass: every worker that is
    /// not jailed is checked for activity, reachability and download progress,
    /// and jailed on the first check it fails, which frees its units.
    pub fn sweep(&mut self, now: u64)
        requires
            old(self).wf(),
        ensures
            final(self).wf(),
            final(self).units == old(self).units,
            final(self).config == old(self).config,
            final(self).workers@.len() == old(self).workers@.len(),
            forall|i: int|
                0 <= i < old(self).workers@.len() ==> sweep_step(
                    old(self).workers@[i],
                    #[trigger] final(self).workers@[i],
                    old(self).units@,
                    now,
                    old(self).config.inactive_timeout,
                    old(self).config.unreachable_timeout,
                    old(self).config.stale_timeout,
                ),
    {
        let ghost pre = *self;
        let cfg = self.config;
        let mut i: usize = 0;
        while i < self.workers.len()
            invariant
                self.wf(),
                self.units == pre.units,
                self.config == pre.config,
                cfg == pre.config,
                0 <= i <= self.workers@.len(),
                self.workers@.len() == pre.workers@.len(),
                forall|k: int| i <= k < pre.workers@.len() ==> #[trigger] self.workers@[k] == pre.workers@[k],
                forall|k: int|
                    0 <= k < i ==> sweep_step(
                        pre.workers@[k],
                        #[trigger] self.workers@[k],
                        pre.units@,
                        now,
                        cfg.inactive_timeout,
                        cfg.unreachable_timeout,
                        cfg.stale_timeout,
                    ),
            decreases pre.workers@.len() - i,
        {
            if !self.workers[i].jailed {
                let ghost ws = self.workers@;
                let mut w = self.workers.remove(i);
                assert(w == ws[i as int]);
                proof {
                    assert(worker_ok(self.units@, w));
                }
                if !w.is_active(now, cfg.inactive_timeout) {
                    w.jail(JailReason::Inactive);
                } else if w.is_unreachable(now, cfg.unreachable_timeout) {
                    w.jail(JailReason::Unreachable);
                } else if !w.check_download_progress(&self.units, now, cfg.stale_timeout) {
                    w.jail(JailReason::Stale);
                }
                self.workers.insert(i, w);
                proof {
                    assert(self.workers@ =~= ws.update(i as int, w));
                    assert(worker_ok(self.units@, w));
                }
            }
            i = i + 1;
        }
    }

    /// Peer identifiers of the workers eligible for assignment: active and not jailed.
    pub fn active_workers(&self, now: u64) -> (r: Vec<String>)
        ensures
            forall|j: int| 0 <= j < r@.len() ==> active_peer(self.workers@, (#[trigger] r@[j])@, now, self.config.inactive_timeout),
            forall|i: int|
                0 <= i < self.workers@.len() && (#[trigger] self.workers@[i]).spec_is_active(now, self.config.inactive_timeout)
                    && !self.workers@[i].jailed ==> exists|j: int| 0 <= j < r@.len() && r@[j]@ == self.workers@[i].peer_id@,
    {
        let t = self.config.inactive_timeout;
        let mut out: Vec<String> = Vec::new();
        let mut i: usize = 0;
        while i < self.workers.len()
            invariant
                0 <= i <= self.workers@.len(),
                t == self.config.inactive_timeout,
                forall|j: int| 0 <= j < out@.len() ==> active_peer(self.workers@, (#[trigger] out@[j])@, now, t),
                forall|k: int|
                    0 <= k < i && (#[trigger] self.workers@[k]).spec_is_active(now, t)
                        && !self.workers@[k].jailed ==> exists|j: int| 0 <= j < out@.len() && out@[j]@ == self.workers@[k].peer_id@,
            decreases self.workers@.len() - i,
        {
            let w = &self.workers[i];
            if w.is_active(now, t) && !w.jailed {
                let ghost out0 = out@;
                out.push(w.peer_id.clone());
                proof {
                    assert(out@[out@.len() - 1]@ == self.workers@[i as int].peer_id@);
                    assert forall|j: int| 0 <= j < out@.len() implies active_peer(self.workers@, (#[trigger] out@[j])@, now, t) by {
                        if j < out0.len() {
                            assert(out@[j] == out0[j]);
                        } else {
                            assert(self.workers@[i as int].peer_id@ == out@[j]@);
                        }
                    }
                    assert forall|k: int|
                        0 <= k < i + 1 && (#[trigger] self.workers@[k]).spec_is_active(now, t)
                            && !self.workers@[k].jailed implies exists|j: int| 0 <= j < out@.len() && out@[j]@ == self.workers@[k].peer_id@ by {
                        if k < i {
                            let j = choose|j: int| 0 <= j < out0.len() && out0[j]@ == self.workers@[k].peer_id@;
                            assert(out@[j] == out0[j]);
                        } else {
                            assert(out@[out@.len() - 1]@ == self.workers@[k].peer_id@);
                        }
                    }
                }
            }
            i = i + 1;
        }
        out
    }

    /// What a worker must store: copies of the chunks of its assigned units,
    /// or `None` for an unknown worker.
    pub fn get_worker_state(&self, peer_id: &String) -> (r: Option<Vec<DataChunk>>)
        requires
            self.wf(),
        ensures
            r.is_some() == known(self.workers@, peer_id@),
            match r {
                Some(v) => exists|i: int|
                    0 <= i < self.workers@.len() && (#[trigger] self.workers@[i]).peer_id@ == peer_id@
                        && chunk_views(v@) == held_chunks(self.workers@[i].ids(), self.units@),
                None => true,
            },
    {
        match self.find_worker(peer_id) {
            None => None,
            Some(i) => {
                let v = self.workers[i].assigned_chunks(&self.units);
                Some(v)
            },
        }
    }
}

/// Stale detection: a worker that is active and reachable, past its grace
/// period, whose missing-chunk count is not zero and not below the count of
/// the previous check, is jailed as stale by the sweep and is no replica of
/// any unit afterwards, so its units are free for the next pass.
pub proof fn lemma_stale_detection(
    pre: WorkerState,
    post: WorkerState,
    units: Seq<SchedulingUnit>,
    now: u64,
    inactive: u64,
    unreachable: u64,
    stale: u64,
    x: IdView,
)
    requires
        sweep_step(pre, post, units, now, inactive, unreachable, stale),
        !pre.jailed,
        pre.spec_is_active(now, inactive),
        !pre.spec_is_unreachable(now, unreachable),
        !pre.in_grace(now, stale),
        pre.spec_missing(units) > 0,
        pre.spec_missing(units) >= pre.num_missing_chunks,
    ensures
        post.jailed,
        post.jail_reason == Some(JailReason::Stale),
        !post.holds(x),
        !is_replica(post, x, now, inactive),
{
    assert(post.ids() =~= Seq::<IdView>::empty());
}

} // verus!
