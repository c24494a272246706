use vstd::prelude::*;

use crate::data_chunk::{ChunkView, IdView};
use crate::scheduling_unit::{SchedulingUnit, UnitId};
use crate::worker_state::{AssignedUnit, WorkerState, assigned_total};

verus! {

/// Settings of the scheduler. Times are in milliseconds.
#[derive(Clone, Copy, Debug)]
pub struct SchedulerConfig {
    /// Number of distinct workers that should hold each unit.
    pub replication_factor: usize,
    /// Storage each worker offers, in bytes.
    pub worker_storage_bytes: u64,
    pub inactive_timeout: u64,
    pub unreachable_timeout: u64,
    pub stale_timeout: u64,
}

/// Units are non-empty and no two share an identifier.
pub open spec fn units_wf(units: Seq<SchedulingUnit>) -> bool {
    &&& forall|i: int| 0 <= i < units.len() ==> (#[trigger] units[i]).wf()
    &&& forall|i: int, j: int|
        0 <= i < units.len() && 0 <= j < units.len() && i != j ==> (#[trigger] units[i]).spec_id()
            != (#[trigger] units[j]).spec_id()
}

/// An assignment names a known unit at that unit's size.
pub open spec fn entry_ok(units: Seq<SchedulingUnit>, a: AssignedUnit) -> bool {
    exists|u: int|
        0 <= u < units.len() && (#[trigger] units[u]).spec_id() == a.id@ && units[u].spec_size()
            == a.size_bytes
}

/// A worker record satisfies its own invariant and assigns known units only.
pub open spec fn worker_ok(units: Seq<SchedulingUnit>, w: WorkerState) -> bool {
    &&& w.wf()
    &&& forall|k: int|
        0 <= k < w.assigned_units@.len() ==> entry_ok(units, #[trigger] w.assigned_units@[k])
}

/// A worker that may receive a unit: active, not jailed, not holding it, with room for it.
pub open spec fn eligible(w: WorkerState, id: IdView, size: u64, now: u64, inactive: u64) -> bool {
    &&& w.spec_is_active(now, inactive)
    &&& !w.jailed
    &&& !w.holds(id)
    &&& size <= w.spec_remaining()
}

/// A worker that counts as a replica of a unit: active and holding it.
pub open spec fn is_replica(w: WorkerState, id: IdView, now: u64, inactive: u64) -> bool {
    w.spec_is_active(now, inactive) && w.holds(id)
}

/// The number of replicas of a unit among the workers.
pub open spec fn replicas(ws: Seq<WorkerState>, id: IdView, now: u64, inactive: u64) -> nat
    decreases ws.len(),
{
    if ws.len() == 0 {
        0
    } else {
        replicas(ws.drop_last(), id, now, inactive) + if is_replica(ws.last(), id, now, inactive) {
            1nat
        } else {
            0nat
        }
    }
}

/// Owns the known units and the workers' records.
pub struct Scheduler {
    pub units: Vec<SchedulingUnit>,
    pub workers: Vec<WorkerState>,
    pub config: SchedulerConfig,
}

/// A worker gains a unit only if it was active and not jailed and the unit
/// had fewer than `rf` replicas before.
pub open spec fn gains_eligible(pre: Seq<WorkerState>, post: Seq<WorkerState>, now: u64, t: u64, rf: usize) -> bool {
    forall|i: int, x: IdView|
        0 <= i < pre.len() && #[trigger] post[i].holds(x) && !pre[i].holds(x) ==> {
            &&& pre[i].spec_is_active(now, t)
            &&& !pre[i].jailed
            &&& replicas(pre, x, now, t) < rf
        }
}

/// A worker either is unchanged or gained a unit and had its download
/// progress reset at `now`: missing chunks recounted over its new assignment.
pub open spec fn touched_reset(pre: Seq<WorkerState>, post: Seq<WorkerState>, units: Seq<SchedulingUnit>, now: u64) -> bool {
    forall|i: int|
        0 <= i < pre.len() ==> #[trigger] post[i] == pre[i] || {
            &&& post[i].last_assignment == now
            &&& post[i].num_missing_chunks == post[i].spec_missing(units)
            &&& exists|x: IdView| post[i].holds(x) && !pre[i].holds(x)
        }
}

/// What one assignment pass guarantees, at time `now`: no assignment is
/// taken away, and afterwards every unit has `replication_factor` replicas
/// or no eligible worker is left for it; no unit gains replicas beyond
/// `replication_factor`.
pub open spec fn schedule_outcome(pre: Scheduler, post: Scheduler, now: u64) -> bool {
    let t = pre.config.inactive_timeout;
    let rf = pre.config.replication_factor;
    &&& post.units == pre.units
    &&& post.config == pre.config
    &&& post.workers@.len() == pre.workers@.len()
    &&& forall|i: int|
        0 <= i < pre.workers@.len() ==> {
            &&& (#[trigger] post.workers@[i]).same_identity(&pre.workers@[i])
            &&& post.workers@[i].jailed == pre.workers@[i].jailed
            &&& forall|id: IdView| pre.workers@[i].holds(id) ==> post.workers@[i].holds(id)
        }
    &&& gains_eligible(pre.workers@, post.workers@, now, t, rf)
    &&& forall|u: int, i: int|
        0 <= u < pre.units@.len() && 0 <= i < pre.workers@.len() && (#[trigger] post.workers@[i]).holds(
            (#[trigger] pre.units@[u]).spec_id(),
        ) && !pre.workers@[i].holds(pre.units@[u].spec_id()) ==> eligible(
            pre.workers@[i],
            pre.units@[u].spec_id(),
            pre.units@[u].spec_size(),
            now,
            t,
        )
    &&& touched_reset(pre.workers@, post.workers@, pre.units@, now)
    &&& forall|u: int|
        0 <= u < pre.units@.len() ==> {
            let id = (#[trigger] pre.units@[u]).spec_id();
            let size = pre.units@[u].spec_size();
            &&& replicas(post.workers@, id, now, t) <= if replicas(pre.workers@, id, now, t) > rf {
                replicas(pre.workers@, id, now, t)
            } else {
                rf as nat
            }
            &&& (replicas(post.workers@, id, now, t) >= rf || forall|i: int|
                0 <= i < post.workers@.len() ==> !eligible(
                    #[trigger] post.workers@[i],
                    id,
                    size,
                    now,
                    t,
                ))
        }
}

impl Scheduler {
    pub open spec fn wf(&self) -> bool {
        &&& units_wf(self.units@)
        &&& forall|i: int|
            0 <= i < self.workers@.len() ==> worker_ok(self.units@, #[trigger] self.workers@[i])
        &&& forall|i: int, j: int|
            0 <= i < self.workers@.len() && 0 <= j < self.workers@.len() && i != j
                ==> (#[trigger] self.workers@[i]).peer_id@ != (#[trigger] self.workers@[j]).peer_id@
    }

    pub fn new(config: SchedulerConfig) -> (r: Scheduler)
        ensures
            r.wf(),
            r.config == config,
            r.units@.len() == 0,
            r.workers@.len() == 0,
    {
        Scheduler { units: Vec::new(), workers: Vec::new(), config }
    }

    /// Accepts a scheduler read back from storage if it satisfies the
    /// invariant; `None` for a state that does not.
    pub fn restore(s: Scheduler) -> (r: Option<Scheduler>)
        ensures
            r.is_some() == s.wf(),
            r.is_some() ==> r.unwrap() == s,
    {
        let nu = s.units.len();
        let mut a: usize = 0;
        while a < nu
            invariant
                nu == s.units@.len(),
                0 <= a <= nu,
                forall|x: int| 0 <= x < a ==> (#[trigger] s.units@[x]).wf(),
            decreases nu - a,
        {
            if s.units[a].chunks.len() == 0 {
                assert(!s.units@[a as int].wf());
                assert(!units_wf(s.units@));
                return None;
            }
            a = a + 1;
        }
        let mut a: usize = 0;
        while a < nu
            invariant
                nu == s.units@.len(),
                0 <= a <= nu,
                forall|x: int| 0 <= x < nu ==> (#[trigger] s.units@[x]).wf(),
                forall|x: int, y: int|
                    0 <= x < a && 0 <= y < nu && x != y ==> (#[trigger] s.units@[x]).spec_id() != (#[trigger] s.units@[y]).spec_id(),
            decreases nu - a,
        {
            let ida = s.units[a].id();
            let mut b: usize = 0;
            while b < nu
                invariant
                    nu == s.units@.len(),
                    0 <= a < nu,
                    0 <= b <= nu,
                    ida@ == s.units@[a as int].spec_id(),
                    forall|x: int| 0 <= x < nu ==> (#[trigger] s.units@[x]).wf(),
                    forall|x: int, y: int|
                        0 <= x < a && 0 <= y < nu && x != y ==> (#[trigger] s.units@[x]).spec_id() != (#[trigger] s.units@[y]).spec_id(),
                    forall|y: int| 0 <= y < b && y != a ==> s.units@[a as int].spec_id() != (#[trigger] s.units@[y]).spec_id(),
                decreases nu - b,
            {
                if a != b && ida.same_as(&s.units[b].id()) {
                    assert(s.units@[a as int].spec_id() == s.units@[b as int].spec_id());
                    assert(!units_wf(s.units@));
                    return None;
                }
                b = b + 1;
            }
            a = a + 1;
        }
        let nw = s.workers.len();
        let mut i: usize = 0;
        while i < nw
            invariant
                nw == s.workers@.len(),
                units_wf(s.units@),
                0 <= i <= nw,
                forall|x: int| 0 <= x < i ==> worker_ok(s.units@, #[trigger] s.workers@[x]),
            decreases nw - i,
        {
            let w = &s.workers[i];
            if !w.check_wf() {
                assert(!worker_ok(s.units@, s.workers@[i as int]));
                return None;
            }
            let ne = w.assigned_units.len();
            let mut e: usize = 0;
            while e < ne
                invariant
                    ne == w.assigned_units@.len(),
                    i < nw,
                    nw == s.workers@.len(),
                    w == s.workers@[i as int],
                    units_wf(s.units@),
                    0 <= e <= ne,
                    forall|x: int| 0 <= x < e ==> entry_ok(s.units@, #[trigger] w.assigned_units@[x]),
                decreases ne - e,
            {
                match s.find_unit(&w.assigned_units[e].id) {
                    None => {
                        proof {
                            if entry_ok(s.units@, w.assigned_units@[e as int]) {
                                let u = choose|u: int| 0 <= u < s.units@.len() && (#[trigger] s.units@[u]).spec_id() == w.assigned_units@[e as int].id@ && s.units@[u].spec_size() == w.assigned_units@[e as int].size_bytes;
                                assert(s.units@[u].spec_id() != w.assigned_units@[e as int].id@);
                            }
                            assert(!worker_ok(s.units@, s.workers@[i as int]));
                        }
                        return None;
                    },
                    Some(k) => {
                        if s.units[k].size_bytes() != w.assigned_units[e].size_bytes {
                            proof {
                                if entry_ok(s.units@, w.assigned_units@[e as int]) {
                                    let u = choose|u: int| 0 <= u < s.units@.len() && (#[trigger] s.units@[u]).spec_id() == w.assigned_units@[e as int].id@ && s.units@[u].spec_size() == w.assigned_units@[e as int].size_bytes;
                                    assert(u == k);
                                }
                                assert(!worker_ok(s.units@, s.workers@[i as int]));
                            }
                            return None;
                        }
                    },
                }
                e = e + 1;
            }
            i = i + 1;
        }
        let mut a: usize = 0;
        while a < nw
            invariant
                nw == s.workers@.len(),
                0 <= a <= nw,
                forall|x: int, y: int|
                    0 <= x < a && 0 <= y < nw && x != y ==> (#[trigger] s.workers@[x]).peer_id@ != (#[trigger] s.workers@[y]).peer_id@,
            decreases nw - a,
        {
            let mut b: usize = 0;
            while b < nw
                invariant
                    nw == s.workers@.len(),
                    0 <= a < nw,
                    0 <= b <= nw,
                    forall|x: int, y: int|
                        0 <= x < a && 0 <= y < nw && x != y ==> (#[trigger] s.workers@[x]).peer_id@ != (#[trigger] s.workers@[y]).peer_id@,
                    forall|y: int| 0 <= y < b && y != a ==> s.workers@[a as int].peer_id@ != (#[trigger] s.workers@[y]).peer_id@,
                decreases nw - b,
            {
                if a != b && s.workers[a].peer_id == s.workers[b].peer_id {
                    assert(s.workers@[a as int].peer_id@ == s.workers@[b as int].peer_id@);
                    return None;
                }
                b = b + 1;
            }
            a = a + 1;
        }
        Some(s)
    }

    /// The eligible worker with the most remaining capacity, if any.
    pub fn select_worker(&self, id: &UnitId, size: u64, now: u64) -> (r: Option<usize>)
        requires
            self.wf(),
        ensures
            match r {
                Some(i) => {
                    &&& i < self.workers@.len()
                    &&& eligible(self.workers@[i as int], id@, size, now, self.config.inactive_timeout)
                    &&& forall|j: int|
                        0 <= j < self.workers@.len() && eligible(
                            #[trigger] self.workers@[j],
                            id@,
                            size,
                            now,
                            self.config.inactive_timeout,
                        ) ==> self.workers@[j].spec_remaining()
                            <= self.workers@[i as int].spec_remaining()
                },
                None => forall|j: int|
                    0 <= j < self.workers@.len() ==> !eligible(
                        #[trigger] self.workers@[j],
                        id@,
                        size,
                        now,
                        self.config.inactive_timeout,
                    ),
            },
    {
        let t = self.config.inactive_timeout;
        let mut best: Option<usize> = None;
        let mut best_remaining: u64 = 0;
        let mut i: usize = 0;
        while i < self.workers.len()
            invariant
                0 <= i <= self.workers@.len(),
                t == self.config.inactive_timeout,
                match best {
                    Some(b) => {
                        &&& b < i
                        &&& eligible(self.workers@[b as int], id@, size, now, t)
                        &&& best_remaining == self.workers@[b as int].spec_remaining()
                        &&& forall|j: int|
                            0 <= j < i && eligible(#[trigger] self.workers@[j], id@, size, now, t)
                                ==> self.workers@[j].spec_remaining() <= best_remaining
                    },
                    None => forall|j: int|
                        0 <= j < i ==> !eligible(#[trigger] self.workers@[j], id@, size, now, t),
                },
            decreases self.workers@.len() - i,
        {
            let w = &self.workers[i];
            let remaining = w.remaining_capacity();
            if w.is_active(now, t) && !w.jailed && !w.has_unit(id) && size <= remaining {
                let better = match best {
                    Some(_) => remaining > best_remaining,
                    None => true,
                };
                if better {
                    best = Some(i);
                    best_remaining = remaining;
                }
            }
            i = i + 1;
        }
        best
    }

    /// Assigns an eligible worker the unit at `u` and restarts its progress tracking.
    fn assign_to(&mut self, i: usize, u: usize, now: u64)
        requires
            old(self).wf(),
            i < old(self).workers@.len(),
            u < old(self).units@.len(),
            eligible(
                old(self).workers@[i as int],
                old(self).units@[u as int].spec_id(),
                old(self).units@[u as int].spec_size(),
                now,
                old(self).config.inactive_timeout,
            ),
        ensures
            final(self).wf(),
            final(self).units == old(self).units,
            final(self).config == old(self).config,
            final(self).workers@.len() == old(self).workers@.len(),
            forall|k: int| 0 <= k < old(self).workers@.len() && k != i ==> final(self).workers@[k] == old(self).workers@[k],
            final(self).workers@[i as int].same_identity(&old(self).workers@[i as int]),
            final(self).workers@[i as int].jailed == old(self).workers@[i as int].jailed,
            final(self).workers@[i as int].spec_remaining() <= old(self).workers@[i as int].spec_remaining(),
            final(self).workers@[i as int].last_assignment == now,
            final(self).workers@[i as int].num_missing_chunks == final(self).workers@[i as int].spec_missing(old(self).units@),
            forall|x: IdView|
                #[trigger] final(self).workers@[i as int].holds(x) == (old(self).workers@[i as int].holds(x)
                    || x == old(self).units@[u as int].spec_id()),
    {
        let ghost ws = self.workers@;
        let id = self.units[u].id();
        let size = self.units[u].size_bytes();
        let mut w = self.workers.remove(i);
        assert(w == ws[i as int]);
        let ghost w0 = w;
        let ghost gid = id;
        let ok = w.try_assign_unit(id, size);
        assert(ok);
        proof {
            lemma_holds_push(w0, w, AssignedUnit { id: gid, size_bytes: size });
            assert forall|k: int| 0 <= k < w.assigned_units@.len() implies entry_ok(
                self.units@,
                #[trigger] w.assigned_units@[k],
            ) by {
                if k < w0.assigned_units@.len() {
                    assert(w.assigned_units@[k] == w0.assigned_units@[k]);
                } else {
                    assert(self.units@[u as int].spec_id() == w.assigned_units@[k].id@);
                }
            }
        }
        let ghost w1 = w;
        w.reset_download_progress(&self.units, now);
        proof {
            assert(w.ids() == w1.ids());
        }
        self.workers.insert(i, w);
        proof {
            assert(self.workers@ =~= ws.update(i as int, w));
            assert forall|x: IdView| #[trigger] w.holds(x) == (w0.holds(x) || x == self.units@[u as int].spec_id()) by {
                assert(w.holds(x) == w1.holds(x));
            }
        }
    }

    /// The number of replicas of a unit.
    pub fn count_replicas(&self, id: &UnitId, now: u64) -> (r: usize)
        ensures
            r == replicas(self.workers@, id@, now, self.config.inactive_timeout),
    {
        let t = self.config.inactive_timeout;
        let mut count: usize = 0;
        let mut i: usize = 0;
        while i < self.workers.len()
            invariant
                0 <= i <= self.workers@.len(),
                t == self.config.inactive_timeout,
                count <= i,
                count == replicas(self.workers@.take(i as int), id@, now, t),
            decreases self.workers@.len() - i,
        {
            assert(self.workers@.take(i + 1).drop_last() =~= self.workers@.take(i as int));
            if self.workers[i].is_active(now, t) && self.workers[i].has_unit(id) {
                count = count + 1;
            }
            i = i + 1;
        }
        assert(self.workers@.take(self.workers@.len() as int) =~= self.workers@);
        count
    }

    /// The assignment pass: every unit short of `replication_factor` replicas
    /// is given to further eligible workers, the one with the most remaining
    /// capacity first, until it has enough or no eligible worker is left.
    pub fn schedule(&mut self, now: u64)
        requires
            old(self).wf(),
        ensures
            final(self).wf(),
            schedule_outcome(*old(self), *final(self), now),
    {
        let ghost pre = *self;
        let t = self.config.inactive_timeout;
        let rf = self.config.replication_factor;
        let mut u: usize = 0;
        while u < self.units.len()
            invariant
                self.wf(),
                self.units == pre.units,
                self.config == pre.config,
                t == pre.config.inactive_timeout,
                rf == pre.config.replication_factor,
                u <= self.units@.len(),
                self.workers@.len() == pre.workers@.len(),
                gains_eligible(pre.workers@, self.workers@, now, t, rf),
                forall|v: int, i: int|
                    0 <= v < self.units@.len() && 0 <= i < pre.workers@.len() && (#[trigger] self.workers@[i]).holds(
                        (#[trigger] self.units@[v]).spec_id(),
                    ) && !pre.workers@[i].holds(self.units@[v].spec_id()) ==> eligible(
                        pre.workers@[i],
                        self.units@[v].spec_id(),
                        self.units@[v].spec_size(),
                        now,
                        t,
                    ),
                forall|i: int| 0 <= i < pre.workers@.len() ==> (#[trigger] self.workers@[i]).spec_remaining() <= pre.workers@[i].spec_remaining(),
                touched_reset(pre.workers@, self.workers@, pre.units@, now),
                forall|i: int|
                    0 <= i < pre.workers@.len() ==> {
                        &&& (#[trigger] self.workers@[i]).same_identity(&pre.workers@[i])
                        &&& self.workers@[i].jailed == pre.workers@[i].jailed
                        &&& forall|id: IdView| pre.workers@[i].holds(id) ==> self.workers@[i].holds(id)
                    },
                forall|v: int, i: int|
                    u <= v < self.units@.len() && 0 <= i < pre.workers@.len() ==> (#[trigger] self.workers@[i]).holds(
                        (#[trigger] self.units@[v]).spec_id(),
                    ) == pre.workers@[i].holds(self.units@[v].spec_id()),
                forall|v: int|
                    0 <= v < u ==> {
                        let id = (#[trigger] pre.units@[v]).spec_id();
                        let size = pre.units@[v].spec_size();
                        &&& replicas(self.workers@, id, now, t) <= if replicas(pre.workers@, id, now, t) > rf {
                            replicas(pre.workers@, id, now, t)
                        } else {
                            rf as nat
                        }
                        &&& (replicas(self.workers@, id, now, t) >= rf || forall|i: int|
                            0 <= i < self.workers@.len() ==> !eligible(
                                #[trigger] self.workers@[i],
                                id,
                                size,
                                now,
                                t,
                            ))
                    },
            decreases pre.units@.len() - u,
        {
            let id = self.units[u].id();
            let size = self.units[u].size_bytes();
            let ghost uid = self.units@[u as int].spec_id();
            let mut count = self.count_replicas(&id, now);
            proof {
                lemma_replicas_frame(self.workers@, pre.workers@, uid, now, t);
            }
            let ghost start = count;
            let mut stuck = false;
            while count < rf && !stuck
                invariant
                    self.wf(),
                    self.units == pre.units,
                    self.config == pre.config,
                    t == pre.config.inactive_timeout,
                    rf == pre.config.replication_factor,
                    u < self.units@.len(),
                    id@ == uid,
                    uid == self.units@[u as int].spec_id(),
                    size == self.units@[u as int].spec_size(),
                    start == replicas(pre.workers@, uid, now, t),
                    count == replicas(self.workers@, uid, now, t),
                    count <= if start > rf { start as nat } else { rf as nat },
                    stuck ==> forall|i: int|
                        0 <= i < self.workers@.len() ==> !eligible(#[trigger] self.workers@[i], uid, size, now, t),
                    self.workers@.len() == pre.workers@.len(),
                    start <= count,
                    gains_eligible(pre.workers@, self.workers@, now, t, rf),
                    forall|v: int, i: int|
                        0 <= v < self.units@.len() && 0 <= i < pre.workers@.len() && (#[trigger] self.workers@[i]).holds(
                            (#[trigger] self.units@[v]).spec_id(),
                        ) && !pre.workers@[i].holds(self.units@[v].spec_id()) ==> eligible(
                            pre.workers@[i],
                            self.units@[v].spec_id(),
                            self.units@[v].spec_size(),
                            now,
                            t,
                        ),
                    forall|i: int| 0 <= i < pre.workers@.len() ==> (#[trigger] self.workers@[i]).spec_remaining() <= pre.workers@[i].spec_remaining(),
                    touched_reset(pre.workers@, self.workers@, pre.units@, now),
                    forall|i: int|
                        0 <= i < pre.workers@.len() ==> {
                            &&& (#[trigger] self.workers@[i]).same_identity(&pre.workers@[i])
                            &&& self.workers@[i].jailed == pre.workers@[i].jailed
                            &&& forall|id: IdView| pre.workers@[i].holds(id) ==> self.workers@[i].holds(id)
                        },
                    forall|v: int, i: int|
                        u < v < self.units@.len() && 0 <= i < pre.workers@.len() ==> (#[trigger] self.workers@[i]).holds(
                            (#[trigger] self.units@[v]).spec_id(),
                        ) == pre.workers@[i].holds(self.units@[v].spec_id()),
                    forall|v: int|
                        0 <= v < u ==> {
                            let id = (#[trigger] pre.units@[v]).spec_id();
                            let size = pre.units@[v].spec_size();
                            &&& replicas(self.workers@, id, now, t) <= if replicas(pre.workers@, id, now, t) > rf {
                                replicas(pre.workers@, id, now, t)
                            } else {
                                rf as nat
                            }
                            &&& (replicas(self.workers@, id, now, t) >= rf || forall|i: int|
                                0 <= i < self.workers@.len() ==> !eligible(
                                    #[trigger] self.workers@[i],
                                    id,
                                    size,
                                    now,
                                    t,
                                ))
                        },
                decreases rf - count, if stuck { 0int } else { 1int },
            {
                match self.select_worker(&id, size, now) {
                    None => {
                        stuck = true;
                    },
                    Some(i) => {
                        let ghost ws = self.workers@;
                        self.assign_to(i, u, now);
                        proof {
                            let ws2 = self.workers@;
                            assert(ws2 =~= ws.update(i as int, ws2[i as int]));
                            lemma_replicas_update(ws, i as int, ws2[i as int], uid, now, t);
                            assert forall|k: int, x: IdView| 0 <= k < pre.workers@.len() && #[trigger] ws2[k].holds(x)
                                && !pre.workers@[k].holds(x) implies {
                                &&& pre.workers@[k].spec_is_active(now, t)
                                &&& !pre.workers@[k].jailed
                                &&& replicas(pre.workers@, x, now, t) < rf
                            } by {
                                if k == i && x == uid {
                                    assert(eligible(ws[k], uid, size, now, t));
                                    assert(ws[k].same_identity(&pre.workers@[k]));
                                } else if k == i {
                                    assert(ws2[k].holds(x) == (ws[k].holds(x) || x == uid));
                                    assert(ws[k].holds(x));
                                } else {
                                    assert(ws2[k] == ws[k]);
                                    assert(ws[k].holds(x));
                                }
                            }
                            assert forall|v: int, k: int|
                                0 <= v < self.units@.len() && 0 <= k < pre.workers@.len() && (#[trigger] ws2[k]).holds(
                                    (#[trigger] self.units@[v]).spec_id(),
                                ) && !pre.workers@[k].holds(self.units@[v].spec_id()) implies eligible(
                                    pre.workers@[k],
                                    self.units@[v].spec_id(),
                                    self.units@[v].spec_size(),
                                    now,
                                    t,
                                ) by {
                                if k == i && v == u {
                                    assert(eligible(ws[k], uid, size, now, t));
                                    assert(ws[k].same_identity(&pre.workers@[k]));
                                } else if k == i {
                                    assert(self.units@[v].spec_id() != uid);
                                    assert(ws2[k].holds(self.units@[v].spec_id()) == ws[k].holds(self.units@[v].spec_id()));
                                } else {
                                    assert(ws2[k] == ws[k]);
                                }
                            }
                            assert forall|k: int| 0 <= k < pre.workers@.len() implies (#[trigger] ws2[k]).spec_remaining()
                                <= pre.workers@[k].spec_remaining() by {
                                if k != i {
                                    assert(ws2[k] == ws[k]);
                                }
                            }
                            assert forall|k: int| 0 <= k < pre.workers@.len() implies #[trigger] ws2[k] == pre.workers@[k] || {
                                &&& ws2[k].last_assignment == now
                                &&& ws2[k].num_missing_chunks == ws2[k].spec_missing(pre.units@)
                                &&& exists|x: IdView| ws2[k].holds(x) && !pre.workers@[k].holds(x)
                            } by {
                                if k == i {
                                    assert(eligible(ws[k], uid, size, now, t));
                                    assert(ws2[k].holds(uid) == (ws[k].holds(uid) || uid == uid));
                                    assert(!pre.workers@[k].holds(uid));
                                } else {
                                    assert(ws2[k] == ws[k]);
                                }
                            }
                            assert forall|v: int, k: int| 0 <= v < self.units@.len() && v != u && 0 <= k < ws.len() implies
                                (#[trigger] ws2[k]).holds((#[trigger] self.units@[v]).spec_id())
                                    == ws[k].holds(self.units@[v].spec_id()) by {
                                assert(self.units@[v].spec_id() != uid);
                            }
                            assert forall|v: int| 0 <= v < u implies replicas(ws2, (#[trigger] pre.units@[v]).spec_id(), now, t)
                                == replicas(ws, pre.units@[v].spec_id(), now, t) by {
                                let vid = pre.units@[v].spec_id();
                                assert(vid != uid);
                                assert forall|k: int| 0 <= k < ws.len() implies is_replica(#[trigger] ws2[k], vid, now, t)
                                    == is_replica(ws[k], vid, now, t) by {
                                    assert(ws2[k].holds(vid) == ws[k].holds(vid));
                                }
                                lemma_replicas_frame(ws2, ws, vid, now, t);
                            }
                            assert forall|v: int| 0 <= v < u implies {
                                let id = (#[trigger] pre.units@[v]).spec_id();
                                let size = pre.units@[v].spec_size();
                                (replicas(ws2, id, now, t) >= rf || forall|k: int|
                                    0 <= k < ws2.len() ==> !eligible(#[trigger] ws2[k], id, size, now, t))
                            } by {
                                let vid = pre.units@[v].spec_id();
                                let vsize = pre.units@[v].spec_size();
                                if replicas(ws, vid, now, t) < rf {
                                    assert forall|k: int| 0 <= k < ws2.len() implies !eligible(#[trigger] ws2[k], vid, vsize, now, t) by {
                                        assert(!eligible(ws[k], vid, vsize, now, t));
                                        assert(ws2[k].holds(vid) == ws[k].holds(vid));
                                    }
                                }
                            }
                            assert forall|k: int| 0 <= k < pre.workers@.len() implies
                                forall|id: IdView| pre.workers@[k].holds(id) ==> (#[trigger] ws2[k]).holds(id) by {
                                assert forall|id: IdView| pre.workers@[k].holds(id) implies ws2[k].holds(id) by {
                                    assert(ws[k].holds(id));
                                }
                            }
                        }
                        count = count + 1;
                    },
                }
            }
            u = u + 1;
        }
    }

    /// Position of the unit with the given identifier.
    pub fn find_unit(&self, id: &UnitId) -> (r: Option<usize>)
        requires
            units_wf(self.units@),
        ensures
            match r {
                Some(k) => k < self.units@.len() && self.units@[k as int].spec_id() == id@,
                None => forall|k: int| 0 <= k < self.units@.len() ==> (#[trigger] self.units@[k]).spec_id() != id@,
            },
    {
        let mut k: usize = 0;
        while k < self.units.len()
            invariant
                units_wf(self.units@),
                0 <= k <= self.units@.len(),
                forall|j: int| 0 <= j < k ==> (#[trigger] self.units@[j]).spec_id() != id@,
            decreases self.units@.len() - k,
        {
            if self.units[k].id().same_as(id) {
                return Some(k);
            }
            k = k + 1;
        }
        None
    }

    /// Registers a unit, replacing the one with the same identifier. Workers
    /// holding a replaced unit keep it at its new size if it still fits them
    /// (a unit that shrank is released); otherwise they give it up. No
    /// assignment happens here.
    pub fn new_unit(&mut self, unit: SchedulingUnit)
        requires
            old(self).wf(),
            unit.wf(),
        ensures
            final(self).wf(),
            final(self).config == old(self).config,
            (forall|k: int| 0 <= k < old(self).units@.len() ==> (#[trigger] old(self).units@[k]).spec_id() != unit.spec_id())
                ==> final(self).units@ == old(self).units@.push(unit),
            forall|k: int| 0 <= k < old(self).units@.len() && (#[trigger] old(self).units@[k]).spec_id() == unit.spec_id()
                ==> final(self).units@ == old(self).units@.update(k, unit),
            forall|k: int, i: int|
                0 <= k < old(self).units@.len() && (#[trigger] old(self).units@[k]).spec_id() == unit.spec_id()
                    && 0 <= i < old(self).workers@.len() ==> (#[trigger] final(self).workers@[i]).holds(unit.spec_id())
                    == (old(self).workers@[i].holds(unit.spec_id()) && keeps_grown(
                        old(self).workers@[i],
                        old(self).units@[k].spec_size(),
                        unit.spec_size(),
                    )),
            final(self).workers@.len() == old(self).workers@.len(),
            forall|i: int|
                0 <= i < old(self).workers@.len() ==> {
                    &&& (#[trigger] final(self).workers@[i]).same_identity(&old(self).workers@[i])
                    &&& final(self).workers@[i].jailed == old(self).workers@[i].jailed
                    &&& forall|x: IdView| x != unit.spec_id() ==> final(self).workers@[i].holds(x) == old(self).workers@[i].holds(x)
                    &&& final(self).workers@[i].holds(unit.spec_id()) ==> old(self).workers@[i].holds(unit.spec_id())
                },
    {
        let id = unit.id();
        let k = match self.find_unit(&id) {
            None => {
                let ghost us = self.units@;
                self.units.push(unit);
                proof {
                    assert forall|i: int| 0 <= i < self.workers@.len() implies worker_ok(self.units@, #[trigger] self.workers@[i]) by {
                        let w = self.workers@[i];
                        assert(worker_ok(us, w));
                        assert forall|e: int| 0 <= e < w.assigned_units@.len() implies entry_ok(self.units@, #[trigger] w.assigned_units@[e]) by {
                            assert(entry_ok(us, w.assigned_units@[e]));
                            let u = choose|u: int| 0 <= u < us.len() && (#[trigger] us[u]).spec_id() == w.assigned_units@[e].id@ && us[u].spec_size() == w.assigned_units@[e].size_bytes;
                            assert(self.units@[u] == us[u]);
                        }
                    }
                }
                return;
            },
            Some(k) => k,
        };
        let ghost us = self.units@;
        let ghost ws0 = self.workers@;
        let ghost cfg = self.config;
        let ghost new_units = us.update(k as int, unit);
        let old_size = self.units[k].size_bytes();
        let new_size = unit.size_bytes();
        let mut i: usize = 0;
        while i < self.workers.len()
            invariant
                self.units@ == us,
                self.config == cfg,
                units_wf(us),
                new_units == us.update(k as int, unit),
                k < us.len(),
                us[k as int].spec_id() == id@,
                unit.spec_id() == id@,
                unit.wf(),
                old_size == us[k as int].spec_size(),
                new_size == unit.spec_size(),
                0 <= i <= self.workers@.len(),
                self.workers@.len() == ws0.len(),
                forall|j: int| 0 <= j < ws0.len() ==> worker_ok(us, #[trigger] ws0[j]),
                forall|j: int, l: int| 0 <= j < ws0.len() && 0 <= l < ws0.len() && j != l
                    ==> (#[trigger] ws0[j]).peer_id@ != (#[trigger] ws0[l]).peer_id@,
                forall|j: int| i <= j < ws0.len() ==> #[trigger] self.workers@[j] == ws0[j],
                forall|j: int| 0 <= j < i ==> worker_ok(new_units, #[trigger] self.workers@[j]),
                forall|j: int| 0 <= j < i ==> (#[trigger] self.workers@[j]).holds(id@) == (ws0[j].holds(id@)
                    && keeps_grown(ws0[j], old_size, new_size)),
                forall|j: int|
                    0 <= j < ws0.len() ==> {
                        &&& (#[trigger] self.workers@[j]).same_identity(&ws0[j])
                        &&& self.workers@[j].jailed == ws0[j].jailed
                        &&& forall|x: IdView| x != id@ ==> self.workers@[j].holds(x) == ws0[j].holds(x)
                        &&& self.workers@[j].holds(id@) ==> ws0[j].holds(id@)
                    },
            decreases ws0.len() - i,
        {
            let mut w = self.workers.remove(i);
            assert(w == ws0[i as int]);
            let ghost w0 = w;
            proof {
                assert forall|e: int| 0 <= e < w.assigned_units@.len() && w.ids()[e] == id@
                    implies #[trigger] w.assigned_units@[e].size_bytes == old_size by {
                    assert(entry_ok(us, w.assigned_units@[e]));
                }
            }
            if w.has_unit(&id) {
                if new_size >= old_size {
                    w.try_expand_unit(&id, old_size, new_size);
                } else {
                    w.remove_unit(&id, old_size);
                }
            }
            proof {
                assert forall|e: int| 0 <= e < w.assigned_units@.len() && w.ids()[e] == id@
                    implies #[trigger] w.assigned_units@[e].size_bytes == new_size by {
                    assert(w.ids()[e] == id@);
                    assert(w.holds(id@));
                }
                if !w0.holds(id@) {
                    assert(w == w0);
                }
                assert(w.holds(id@) == (w0.holds(id@) && keeps_grown(w0, old_size, new_size)));
                lemma_worker_ok_after(us, new_units, k as int, unit, w0, w);
            }
            self.workers.insert(i, w);
            i = i + 1;
        }
        self.units.set(k, unit);
    }

    /// Takes the unit at `u` away from every worker that holds it.
    fn unassign_everywhere(&mut self, u: usize)
        requires
            old(self).wf(),
            u < old(self).units@.len(),
        ensures
            final(self).wf(),
            final(self).units == old(self).units,
            final(self).config == old(self).config,
            final(self).workers@.len() == old(self).workers@.len(),
            forall|k: int|
                0 <= k < old(self).workers@.len() ==> (#[trigger] final(self).workers@[k]).same_identity(&old(self).workers@[k])
                    && final(self).workers@[k].same_status(&old(self).workers@[k]),
            forall|k: int, x: IdView|
                0 <= k < old(self).workers@.len() ==> #[trigger] final(self).workers@[k].holds(x) == (old(self).workers@[k].holds(x)
                    && x != old(self).units@[u as int].spec_id()),
            forall|k: int|
                0 <= k < old(self).workers@.len() ==> (#[trigger] final(self).workers@[k]).assigned_bytes
                    == old(self).workers@[k].assigned_bytes - if old(self).workers@[k].holds(old(self).units@[u as int].spec_id()) {
                        old(self).units@[u as int].spec_size() as int
                    } else {
                        0int
                    },
    {
        let ghost pre = *self;
        let ghost uid = self.units@[u as int].spec_id();
        let id = self.units[u].id();
        let size = self.units[u].size_bytes();
        let mut i: usize = 0;
        while i < self.workers.len()
            invariant
                self.wf(),
                self.units == pre.units,
                self.config == pre.config,
                u < self.units@.len(),
                id@ == uid,
                uid == self.units@[u as int].spec_id(),
                size == self.units@[u as int].spec_size(),
                0 <= i <= self.workers@.len(),
                self.workers@.len() == pre.workers@.len(),
                forall|k: int|
                    0 <= k < pre.workers@.len() ==> (#[trigger] self.workers@[k]).same_identity(&pre.workers@[k])
                        && self.workers@[k].same_status(&pre.workers@[k]),
                forall|k: int, x: IdView|
                    0 <= k < pre.workers@.len() ==> #[trigger] self.workers@[k].holds(x) == (pre.workers@[k].holds(x)
                        && !(k < i && x == uid)),
                forall|k: int|
                    0 <= k < pre.workers@.len() ==> (#[trigger] self.workers@[k]).assigned_bytes
                        == pre.workers@[k].assigned_bytes - if k < i && pre.workers@[k].holds(uid) {
                            size as int
                        } else {
                            0int
                        },
            decreases pre.workers@.len() - i,
        {
            let ghost ws = self.workers@;
            let mut w = self.workers.remove(i);
            assert(w == ws[i as int]);
            let ghost w0 = w;
            proof {
                assert(worker_ok(self.units@, w0));
                assert forall|e: int| 0 <= e < w.assigned_units@.len() && w.ids()[e] == id@
                    implies #[trigger] w.assigned_units@[e].size_bytes == size by {
                    assert(entry_ok(self.units@, w.assigned_units@[e]));
                }
            }
            w.remove_unit(&id, size);
            proof {
                assert forall|e: int| 0 <= e < w.assigned_units@.len() implies entry_ok(self.units@, #[trigger] w.assigned_units@[e]) by {
                    let a = w.assigned_units@[e];
                    assert(w.ids()[e] == a.id@);
                    assert(w.holds(a.id@));
                    let e0 = choose|e0: int| 0 <= e0 < w0.assigned_units@.len() && #[trigger] w0.assigned_units@[e0] == a;
                    assert(entry_ok(self.units@, w0.assigned_units@[e0]));
                }
            }
            self.workers.insert(i, w);
            proof {
                assert(self.workers@ =~= ws.update(i as int, w));
                assert forall|k: int| 0 <= k < pre.workers@.len() implies (#[trigger] self.workers@[k]).assigned_bytes
                    == pre.workers@[k].assigned_bytes - if k < i + 1 && pre.workers@[k].holds(uid) {
                        size as int
                    } else {
                        0int
                    } by {
                    if k != i {
                        assert(self.workers@[k] == ws[k]);
                    } else {
                        assert(ws[k].holds(uid) == pre.workers@[k].holds(uid));
                    }
                }
                assert forall|k: int, x: IdView| 0 <= k < pre.workers@.len() implies #[trigger] self.workers@[k].holds(x)
                    == (pre.workers@[k].holds(x) && !(k < i + 1 && x == uid)) by {
                    if k == i {
                        assert(ws[k].holds(x) == pre.workers@[k].holds(x));
                        if x != uid {
                            assert(w.holds(x) == w0.holds(x));
                        }
                    } else {
                        assert(self.workers@[k] == ws[k]);
                        assert(ws[k].holds(x) == (pre.workers@[k].holds(x) && !(k < i && x == uid)));
                    }
                }
            }
            i = i + 1;
        }
    }

    /// Drops every unit whose dataset is not listed, and unassigns it from all
    /// workers, adjusting their byte counts. Run after loading a saved state.
    pub fn clear_deprecated_units(&mut self, datasets: &Vec<String>)
        requires
            old(self).wf(),
        ensures
            final(self).wf(),
            clear_outcome(*old(self), *final(self), datasets@),
    {
        let ghost pre = *self;
        let mut u: usize = 0;
        while u < self.units.len()
            invariant
                self.wf(),
                self.units == pre.units,
                self.config == pre.config,
                0 <= u <= self.units@.len(),
                self.workers@.len() == pre.workers@.len(),
                forall|k: int|
                    0 <= k < pre.workers@.len() ==> (#[trigger] self.workers@[k]).same_identity(&pre.workers@[k])
                        && self.workers@[k].same_status(&pre.workers@[k]),
                forall|k: int, x: IdView|
                    0 <= k < pre.workers@.len() ==> #[trigger] self.workers@[k].holds(x) == (pre.workers@[k].holds(x)
                        && !dropped_before(pre.units@, datasets@, x, u as int)),
                (forall|j: int| 0 <= j < u ==> listed(datasets@, (#[trigger] pre.units@[j]).spec_id().0))
                    ==> self.workers == pre.workers,
                forall|k: int|
                    0 <= k < pre.workers@.len() ==> (#[trigger] self.workers@[k]).assigned_bytes + dropped_bytes(
                        pre.workers@[k],
                        pre.units@,
                        datasets@,
                        u as int,
                    ) == pre.workers@[k].assigned_bytes,
            decreases pre.units@.len() - u,
        {
            let keep = is_listed(datasets, &self.units[u].chunks[0].dataset_url);
            let ghost uid = self.units@[u as int].spec_id();
            proof {
                assert(self.units@[u as int].spec_id().0 == self.units@[u as int].chunks@[0].dataset_url@);
            }
            let ghost ws = self.workers@;
            if !keep {
                self.unassign_everywhere(u);
            }
            proof {
                assert forall|k: int, x: IdView| 0 <= k < pre.workers@.len() implies #[trigger] self.workers@[k].holds(x)
                    == (pre.workers@[k].holds(x) && !dropped_before(pre.units@, datasets@, x, u + 1)) by {
                    assert(ws[k].holds(x) == (pre.workers@[k].holds(x) && !dropped_before(pre.units@, datasets@, x, u as int)));
                    if dropped_before(pre.units@, datasets@, x, u + 1) && !dropped_before(pre.units@, datasets@, x, u as int) {
                        let v = choose|v: int| 0 <= v < u + 1 && (#[trigger] pre.units@[v]).spec_id() == x && !listed(datasets@, x.0);
                        assert(v == u);
                    }
                    if x == uid && !keep {
                        assert(pre.units@[u as int].spec_id() == x);
                        assert(dropped_before(pre.units@, datasets@, x, u + 1));
                    }
                    if !keep {
                        assert(self.workers@[k].holds(x) == (ws[k].holds(x) && x != uid));
                    }
                }
                if !keep {
                    assert(!listed(datasets@, pre.units@[u as int].spec_id().0));
                }
                assert forall|k: int| 0 <= k < pre.workers@.len() implies (#[trigger] self.workers@[k]).assigned_bytes
                    + dropped_bytes(pre.workers@[k], pre.units@, datasets@, u + 1) == pre.workers@[k].assigned_bytes by {
                    assert(ws[k].holds(uid) == (pre.workers@[k].holds(uid) && !dropped_before(pre.units@, datasets@, uid, u as int)));
                    if dropped_before(pre.units@, datasets@, uid, u as int) {
                        let v = choose|v: int| 0 <= v < u && (#[trigger] pre.units@[v]).spec_id() == uid && !listed(datasets@, uid.0);
                        assert(pre.units@[v].spec_id() != pre.units@[u as int].spec_id());
                    }
                    if keep {
                        assert(listed(datasets@, uid.0));
                        assert(self.workers@[k] == ws[k]);
                    }
                }
            }
            u = u + 1;
        }
        let ghost ws1 = self.workers@;
        let ghost wvec = self.workers;
        let ghost us = self.units@;
        assert(self.units@.len() == pre.units@.len());
        let mut kept: Vec<SchedulingUnit> = Vec::new();
        let ghost mut src: Seq<int> = Seq::empty();
        let mut v: usize = 0;
        assert(unit_views(kept@) =~= kept_units(us.take(0), datasets@));
        while v < self.units.len()
            invariant
                self.units@ == us,
                units_wf(us),
                0 <= v <= us.len(),
                kept@.len() == src.len(),
                forall|i: int| 0 <= i < src.len() ==> 0 <= #[trigger] src[i] < v,
                forall|i: int, l: int| 0 <= i < l < src.len() ==> #[trigger] src[i] < #[trigger] src[l],
                forall|i: int|
                    0 <= i < kept@.len() ==> (#[trigger] kept@[i]).view_chunks() == us[src[i]].view_chunks()
                        && listed(datasets@, us[src[i]].spec_id().0) && kept@[i].wf(),
                forall|w: int|
                    0 <= w < v && listed(datasets@, (#[trigger] us[w]).spec_id().0) ==> exists|i: int|
                        0 <= i < src.len() && src[i] == w,
                unit_views(kept@) == kept_units(us.take(v as int), datasets@),
            decreases us.len() - v,
        {
            proof {
                assert(us[v as int].spec_id().0 == us[v as int].chunks@[0].dataset_url@);
                assert(us.take(v + 1).drop_last() =~= us.take(v as int));
                assert(us.take(v + 1).last() == us[v as int]);
            }
            if is_listed(datasets, &self.units[v].chunks[0].dataset_url) {
                let copy = self.units[v].duplicate();
                let ghost kept0 = kept@;
                let ghost src0 = src;
                assert(copy.view_chunks().len() == us[v as int].view_chunks().len());
                kept.push(copy);
                proof {
                    assert(unit_views(kept@) =~= unit_views(kept0).push(us[v as int].view_chunks()));
                    src = src.push(v as int);
                    assert(src[src.len() - 1] == v);
                    assert forall|i: int| 0 <= i < kept@.len() implies (#[trigger] kept@[i]).view_chunks() == us[src[i]].view_chunks()
                        && listed(datasets@, us[src[i]].spec_id().0) && kept@[i].wf() by {
                        if i < kept0.len() {
                            assert(kept@[i] == kept0[i]);
                            assert(src[i] == src0[i]);
                        }
                    }
                    assert forall|w: int| 0 <= w < v + 1 && listed(datasets@, (#[trigger] us[w]).spec_id().0) implies exists|i: int|
                        0 <= i < src.len() && src[i] == w by {
                        if w < v {
                            let i = choose|i: int| 0 <= i < src0.len() && src0[i] == w;
                            assert(src[i] == w);
                        } else {
                            assert(src[src.len() - 1] == w);
                        }
                    }
                }
            }
            v = v + 1;
        }
        proof {
            assert forall|i: int, l: int| 0 <= i < kept@.len() && 0 <= l < kept@.len() && i != l
                implies (#[trigger] kept@[i]).spec_id() != (#[trigger] kept@[l]).spec_id() by {
                if i < l {
                    assert(src[i] < src[l]);
                } else {
                    assert(src[l] < src[i]);
                }
                assert(us[src[i]].spec_id() != us[src[l]].spec_id());
            }
            assert forall|k: int| 0 <= k < ws1.len() implies worker_ok(kept@, #[trigger] ws1[k]) by {
                let w = ws1[k];
                assert(worker_ok(us, w));
                assert forall|e: int| 0 <= e < w.assigned_units@.len() implies entry_ok(kept@, #[trigger] w.assigned_units@[e]) by {
                    let a = w.assigned_units@[e];
                    assert(entry_ok(us, a));
                    let uu = choose|uu: int| 0 <= uu < us.len() && (#[trigger] us[uu]).spec_id() == a.id@ && us[uu].spec_size() == a.size_bytes;
                    assert(w.ids()[e] == a.id@);
                    assert(w.holds(a.id@));
                    assert(ws1[k].holds(a.id@) == (pre.workers@[k].holds(a.id@) && !dropped_before(pre.units@, datasets@, a.id@, us.len() as int)));
                    if !listed(datasets@, a.id@.0) {
                        assert(dropped_before(pre.units@, datasets@, a.id@, us.len() as int));
                    }
                    assert(listed(datasets@, us[uu].spec_id().0));
                    let i = choose|i: int| 0 <= i < src.len() && src[i] == uu;
                    assert(kept@[i].view_chunks() == us[uu].view_chunks());
                }
            }
            assert forall|j: int| 0 <= j < pre.units@.len() && listed(datasets@, (#[trigger] pre.units@[j]).spec_id().0)
                implies exists|i: int| 0 <= i < kept@.len() && kept@[i].view_chunks() == pre.units@[j].view_chunks() by {
                assert(listed(datasets@, us[j].spec_id().0));
                let i = choose|i: int| 0 <= i < src.len() && src[i] == j;
                assert(kept@[i].view_chunks() == pre.units@[j].view_chunks());
            }
            assert forall|i: int| 0 <= i < kept@.len() implies listed(datasets@, (#[trigger] kept@[i]).spec_id().0)
                && exists|j: int| 0 <= j < pre.units@.len() && kept@[i].view_chunks() == pre.units@[j].view_chunks() by {
                assert(kept@[i].view_chunks() == pre.units@[src[i]].view_chunks());
            }
            assert forall|k: int, x: IdView| 0 <= k < pre.workers@.len() implies #[trigger] ws1[k].holds(x)
                == (pre.workers@[k].holds(x) && listed(datasets@, x.0)) by {
                assert(ws1[k].holds(x) == (pre.workers@[k].holds(x) && !dropped_before(pre.units@, datasets@, x, us.len() as int)));
                if pre.workers@[k].holds(x) {
                    let w = pre.workers@[k];
                    let e = choose|e: int| 0 <= e < w.ids().len() && w.ids()[e] == x;
                    assert(worker_ok(pre.units@, w));
                    assert(entry_ok(pre.units@, w.assigned_units@[e]));
                    let uu = choose|uu: int| 0 <= uu < us.len() && (#[trigger] us[uu]).spec_id() == x && us[uu].spec_size() == w.assigned_units@[e].size_bytes;
                    if !listed(datasets@, x.0) {
                        assert(dropped_before(pre.units@, datasets@, x, us.len() as int));
                    }
                }
            }
        }
        proof {
            assert(us.take(us.len() as int) =~= us);
            if forall|j: int| 0 <= j < pre.units@.len() ==> listed(datasets@, (#[trigger] pre.units@[j]).spec_id().0) {
                lemma_all_kept(us, datasets@);
                assert(wvec == pre.workers);
                assert(unit_views(kept@) == unit_views(pre.units@));
            }
            assert(unit_views(kept@) == kept_units(pre.units@, datasets@));
        }
        self.units = kept;
    }
}

/// Whether a worker keeps a unit that grew from `old_size` to `new_size`:
/// the unit did not shrink and the growth fits the worker's remaining capacity.
pub open spec fn keeps_grown(w: WorkerState, old_size: u64, new_size: u64) -> bool {
    old_size <= new_size && new_size - old_size <= w.spec_remaining()
}

/// Bytes of the first `n` units that `w` holds and whose dataset is not listed.
pub open spec fn dropped_bytes(w: WorkerState, units: Seq<SchedulingUnit>, datasets: Seq<String>, n: int) -> int
    decreases n,
{
    if n <= 0 {
        0
    } else {
        dropped_bytes(w, units, datasets, n - 1) + if w.holds(units[n - 1].spec_id()) && !listed(
            datasets,
            units[n - 1].spec_id().0,
        ) {
            units[n - 1].spec_size() as int
        } else {
            0int
        }
    }
}

/// The chunks of each unit, in order.
pub open spec fn unit_views(s: Seq<SchedulingUnit>) -> Seq<Seq<ChunkView>> {
    s.map_values(|u: SchedulingUnit| u.view_chunks())
}

/// The chunks of the units whose dataset is listed, in their order.
pub open spec fn kept_units(units: Seq<SchedulingUnit>, datasets: Seq<String>) -> Seq<Seq<ChunkView>>
    decreases units.len(),
{
    if units.len() == 0 {
        Seq::empty()
    } else if listed(datasets, units.last().spec_id().0) {
        kept_units(units.drop_last(), datasets).push(units.last().view_chunks())
    } else {
        kept_units(units.drop_last(), datasets)
    }
}

/// When every unit's dataset is listed, all units are kept.
pub proof fn lemma_all_kept(units: Seq<SchedulingUnit>, datasets: Seq<String>)
    requires
        forall|j: int| 0 <= j < units.len() ==> listed(datasets, (#[trigger] units[j]).spec_id().0),
    ensures
        kept_units(units, datasets) == unit_views(units),
    decreases units.len(),
{
    if units.len() > 0 {
        assert(units[units.len() - 1] == units.last());
        lemma_all_kept(units.drop_last(), datasets);
        assert(unit_views(units) =~= unit_views(units.drop_last()).push(units.last().view_chunks()));
    } else {
        assert(unit_views(units) =~= Seq::<Seq<ChunkView>>::empty());
    }
}

/// Whether some dataset in the list has this URL.
pub open spec fn listed(datasets: Seq<String>, url: Seq<char>) -> bool {
    exists|i: int| 0 <= i < datasets.len() && (#[trigger] datasets[i])@ == url
}

/// Whether `x` is the identifier of one of the first `n` units and its dataset is not listed.
pub open spec fn dropped_before(units: Seq<SchedulingUnit>, datasets: Seq<String>, x: IdView, n: int) -> bool {
    exists|v: int| 0 <= v < n && (#[trigger] units[v]).spec_id() == x && !listed(datasets, x.0)
}

/// What clearing the units of unlisted datasets guarantees: the units left
/// are exactly those of listed datasets, and every worker holds exactly the
/// units it held whose dataset is listed.
pub open spec fn clear_outcome(pre: Scheduler, post: Scheduler, datasets: Seq<String>) -> bool {
    &&& post.config == pre.config
    &&& unit_views(post.units@) == kept_units(pre.units@, datasets)
    &&& forall|k: int|
        0 <= k < pre.workers@.len() ==> (#[trigger] post.workers@[k]).assigned_bytes + dropped_bytes(
            pre.workers@[k],
            pre.units@,
            datasets,
            pre.units@.len() as int,
        ) == pre.workers@[k].assigned_bytes
    &&& (forall|j: int| 0 <= j < pre.units@.len() ==> listed(datasets, (#[trigger] pre.units@[j]).spec_id().0))
        ==> post.workers == pre.workers && unit_views(post.units@) == unit_views(pre.units@)
    &&& forall|i: int|
        0 <= i < post.units@.len() ==> listed(datasets, (#[trigger] post.units@[i]).spec_id().0)
            && exists|j: int| 0 <= j < pre.units@.len() && post.units@[i].view_chunks() == pre.units@[j].view_chunks()
    &&& forall|j: int|
        0 <= j < pre.units@.len() && listed(datasets, (#[trigger] pre.units@[j]).spec_id().0)
            ==> exists|i: int| 0 <= i < post.units@.len() && post.units@[i].view_chunks() == pre.units@[j].view_chunks()
    &&& post.workers@.len() == pre.workers@.len()
    &&& forall|k: int|
        0 <= k < pre.workers@.len() ==> (#[trigger] post.workers@[k]).same_identity(&pre.workers@[k])
            && post.workers@[k].same_status(&pre.workers@[k])
    &&& forall|k: int, x: IdView|
        0 <= k < pre.workers@.len() ==> #[trigger] post.workers@[k].holds(x) == (pre.workers@[k].holds(x)
            && listed(datasets, x.0))
}

/// Whether the list holds this URL.
pub fn is_listed(datasets: &Vec<String>, url: &String) -> (r: bool)
    ensures
        r == listed(datasets@, url@),
{
    let mut i: usize = 0;
    while i < datasets.len()
        invariant
            0 <= i <= datasets@.len(),
            forall|j: int| 0 <= j < i ==> (#[trigger] datasets@[j])@ != url@,
        decreases datasets@.len() - i,
    {
        if datasets[i] == *url {
            return true;
        }
        i = i + 1;
    }
    false
}

/// A worker that kept its entries, but for one unit whose entries now carry
/// that unit's new size, assigns known units of the updated unit list.
pub proof fn lemma_worker_ok_after(
    us: Seq<SchedulingUnit>,
    new_units: Seq<SchedulingUnit>,
    k: int,
    unit: SchedulingUnit,
    w0: WorkerState,
    w: WorkerState,
)
    requires
        units_wf(us),
        0 <= k < us.len(),
        new_units == us.update(k, unit),
        unit.spec_id() == us[k].spec_id(),
        worker_ok(us, w0),
        w.wf(),
        w.entries_from(&w0, unit.spec_id()),
        forall|e: int|
            0 <= e < w.assigned_units@.len() && w.ids()[e] == unit.spec_id()
                ==> #[trigger] w.assigned_units@[e].size_bytes == unit.spec_size(),
    ensures
        worker_ok(new_units, w),
{
    assert forall|e: int| 0 <= e < w.assigned_units@.len() implies entry_ok(new_units, #[trigger] w.assigned_units@[e]) by {
        let a = w.assigned_units@[e];
        assert(w.ids()[e] == a.id@);
        if a.id@ == unit.spec_id() {
            assert(new_units[k] == unit);
        } else {
            let e0 = choose|e0: int| 0 <= e0 < w0.assigned_units@.len() && #[trigger] w0.assigned_units@[e0] == a;
            assert(entry_ok(us, w0.assigned_units@[e0]));
            let u = choose|u: int| 0 <= u < us.len() && (#[trigger] us[u]).spec_id() == w0.assigned_units@[e0].id@ && us[u].spec_size() == w0.assigned_units@[e0].size_bytes;
            assert(u != k);
            assert(new_units[u] == us[u]);
        }
    }
}

/// After appending an entry, a worker holds what it held and the new unit.
pub proof fn lemma_holds_push(w0: WorkerState, w1: WorkerState, a: AssignedUnit)
    requires
        w1.assigned_units@ == w0.assigned_units@.push(a),
    ensures
        forall|x: IdView| #[trigger] w1.holds(x) == (w0.holds(x) || x == a.id@),
{
    assert(w1.ids() =~= w0.ids().push(a.id@));
    assert forall|x: IdView| #[trigger] w1.holds(x) == (w0.holds(x) || x == a.id@) by {
        if w0.holds(x) {
            let j = choose|j: int| 0 <= j < w0.ids().len() && w0.ids()[j] == x;
            assert(w1.ids()[j] == x);
        }
        if x == a.id@ {
            assert(w1.ids()[w0.ids().len() as int] == x);
        }
        if w1.holds(x) {
            let j = choose|j: int| 0 <= j < w1.ids().len() && w1.ids()[j] == x;
            if j < w0.ids().len() {
                assert(w0.ids()[j] == x);
            }
        }
    }
}

/// Replacing one worker changes the count by the difference of the two.
pub proof fn lemma_replicas_update(
    ws: Seq<WorkerState>,
    i: int,
    w: WorkerState,
    id: IdView,
    now: u64,
    t: u64,
)
    requires
        0 <= i < ws.len(),
    ensures
        replicas(ws.update(i, w), id, now, t) + (if is_replica(ws[i], id, now, t) {
            1int
        } else {
            0int
        }) == replicas(ws, id, now, t) + (if is_replica(w, id, now, t) {
            1int
        } else {
            0int
        }),
    decreases ws.len(),
{
    if i == ws.len() - 1 {
        assert(ws.update(i, w).drop_last() =~= ws.drop_last());
    } else {
        lemma_replicas_update(ws.drop_last(), i, w, id, now, t);
        assert(ws.update(i, w).drop_last() =~= ws.drop_last().update(i, w));
    }
}

/// Fewer replicas than workers ready for a unit leaves a ready worker that is no replica.
pub proof fn lemma_free_ready_worker(
    pre: Seq<WorkerState>,
    post: Seq<WorkerState>,
    id: IdView,
    size: u64,
    now: u64,
    t: u64,
)
    requires
        pre.len() == post.len(),
        replicas(post, id, now, t) < ready_count(pre, size, now, t),
    ensures
        exists|i: int|
            0 <= i < pre.len() && is_ready(#[trigger] pre[i], size, now, t) && !is_replica(
                post[i],
                id,
                now,
                t,
            ),
    decreases pre.len(),
{
    let n = pre.len() - 1;
    if is_ready(pre[n], size, now, t) && !is_replica(post[n], id, now, t) {
    } else {
        lemma_free_ready_worker(pre.drop_last(), post.drop_last(), id, size, now, t);
        let i = choose|i: int|
            0 <= i < pre.drop_last().len() && is_ready(#[trigger] pre.drop_last()[i], size, now, t)
                && !is_replica(post.drop_last()[i], id, now, t);
        assert(pre[i] == pre.drop_last()[i]);
    }
}

/// A worker ready for a unit of `size` bytes: active, not jailed, with that much capacity.
pub open spec fn is_ready(w: WorkerState, size: u64, now: u64, t: u64) -> bool {
    w.spec_is_active(now, t) && !w.jailed && size <= w.capacity
}

/// The number of workers ready for a unit of `size` bytes.
pub open spec fn ready_count(ws: Seq<WorkerState>, size: u64, now: u64, t: u64) -> nat
    decreases ws.len(),
{
    if ws.len() == 0 {
        0
    } else {
        ready_count(ws.drop_last(), size, now, t) + if is_ready(ws.last(), size, now, t) {
            1nat
        } else {
            0nat
        }
    }
}

/// Nobody holding a unit means it has no replicas.
pub proof fn lemma_no_replicas(ws: Seq<WorkerState>, id: IdView, now: u64, t: u64)
    requires
        forall|i: int| 0 <= i < ws.len() ==> !(#[trigger] ws[i]).holds(id),
    ensures
        replicas(ws, id, now, t) == 0,
    decreases ws.len(),
{
    if ws.len() > 0 {
        lemma_no_replicas(ws.drop_last(), id, now, t);
    }
}

/// Two worker sequences that agree on who is a replica of a unit count the same.
pub proof fn lemma_replicas_frame(a: Seq<WorkerState>, b: Seq<WorkerState>, id: IdView, now: u64, t: u64)
    requires
        a.len() == b.len(),
        forall|i: int| 0 <= i < a.len() ==> is_replica(#[trigger] a[i], id, now, t) == is_replica(b[i], id, now, t),
    ensures
        replicas(a, id, now, t) == replicas(b, id, now, t),
    decreases a.len(),
{
    if a.len() > 0 {
        lemma_replicas_frame(a.drop_last(), b.drop_last(), id, now, t);
    }
}

/// Replication convergence: when the scheduler knows one unit, held by no
/// worker, and at least `replication_factor` workers are active, not jailed
/// and large enough for it, one pass gives the unit exactly
/// `replication_factor` replicas.
pub proof fn lemma_replication_convergence(pre: Scheduler, post: Scheduler, now: u64)
    requires
        pre.wf(),
        post.wf(),
        schedule_outcome(pre, post, now),
        pre.units@.len() == 1,
        forall|i: int|
            0 <= i < pre.workers@.len() ==> !(#[trigger] pre.workers@[i]).holds(
                pre.units@[0].spec_id(),
            ),
        ready_count(pre.workers@, pre.units@[0].spec_size(), now, pre.config.inactive_timeout)
            >= pre.config.replication_factor,
    ensures
        replicas(post.workers@, pre.units@[0].spec_id(), now, pre.config.inactive_timeout)
            == pre.config.replication_factor,
{
    let t = pre.config.inactive_timeout;
    let rf = pre.config.replication_factor;
    let id = pre.units@[0].spec_id();
    let size = pre.units@[0].spec_size();
    lemma_no_replicas(pre.workers@, id, now, t);
    assert(pre.units@[0] == pre.units@[0]);
    if replicas(post.workers@, id, now, t) < rf {
        lemma_free_ready_worker(pre.workers@, post.workers@, id, size, now, t);
        let i = choose|i: int|
            0 <= i < pre.workers@.len() && is_ready(#[trigger] pre.workers@[i], size, now, t)
                && !is_replica(post.workers@[i], id, now, t);
        let w = post.workers@[i];
        assert(w.same_identity(&pre.workers@[i]));
        assert(!w.holds(id));
        if w.assigned_units@.len() > 0 {
            assert(worker_ok(post.units@, w));
            assert(entry_ok(post.units@, w.assigned_units@[0]));
            assert(w.ids()[0] == id);
        }
        assert(w.assigned_units@ =~= Seq::<AssignedUnit>::empty());
        assert(eligible(w, id, size, now, t));
    }
}

/// A pass run right after another one at the same time, with nothing new in
/// between, changes no worker: every unit short of replicas has no eligible
/// worker left.
pub proof fn lemma_idle_pass(prev: Scheduler, pre: Scheduler, post: Scheduler, now: u64)
    requires
        schedule_outcome(prev, pre, now),
        post.wf(),
        schedule_outcome(pre, post, now),
    ensures
        post.workers@ == pre.workers@,
{
    let t = pre.config.inactive_timeout;
    let rf = pre.config.replication_factor;
    assert forall|i: int| 0 <= i < pre.workers@.len() implies post.workers@[i] == pre.workers@[i] by {
        if post.workers@[i] != pre.workers@[i] {
            let w = post.workers@[i];
            let x = choose|x: IdView| w.holds(x) && !pre.workers@[i].holds(x);
            let e = choose|e: int| 0 <= e < w.ids().len() && w.ids()[e] == x;
            assert(worker_ok(post.units@, w));
            assert(entry_ok(post.units@, w.assigned_units@[e]));
            let u = choose|u: int| 0 <= u < post.units@.len() && (#[trigger] post.units@[u]).spec_id() == w.assigned_units@[e].id@
                && post.units@[u].spec_size() == w.assigned_units@[e].size_bytes;
            assert(w.holds(pre.units@[u].spec_id()));
            assert(eligible(pre.workers@[i], x, pre.units@[u].spec_size(), now, t));
            assert(replicas(pre.workers@, x, now, t) < rf);
            assert(prev.units@[u] == pre.units@[u]);
        }
    }
    assert(post.workers@ =~= pre.workers@);
}

/// Replicas after a pass, counted against workers that were ready before it,
/// never outnumber them when every replica was ready.
pub proof fn lemma_replicas_le_ready(pre: Seq<WorkerState>, post: Seq<WorkerState>, id: IdView, size: u64, now: u64, t: u64)
    requires
        pre.len() == post.len(),
        forall|i: int| 0 <= i < pre.len() && is_replica(#[trigger] post[i], id, now, t) ==> is_ready(pre[i], size, now, t),
    ensures
        replicas(post, id, now, t) <= ready_count(pre, size, now, t),
    decreases pre.len(),
{
    if pre.len() > 0 {
        let n = pre.len() - 1;
        assert forall|i: int| 0 <= i < pre.drop_last().len() && is_replica(#[trigger] post.drop_last()[i], id, now, t)
            implies is_ready(pre.drop_last()[i], size, now, t) by {
            assert(post.drop_last()[i] == post[i]);
        }
        lemma_replicas_le_ready(pre.drop_last(), post.drop_last(), id, size, now, t);
        if is_replica(post[n], id, now, t) {
            assert(is_ready(pre[n], size, now, t));
        }
    }
}

/// Under-capacity degradation, exactly: when the scheduler knows one unit,
/// held by no worker, one pass gives it to as many workers as are active,
/// not jailed and large enough for it, up to `replication_factor`.
pub proof fn lemma_replicas_min(pre: Scheduler, post: Scheduler, now: u64)
    requires
        pre.wf(),
        post.wf(),
        schedule_outcome(pre, post, now),
        pre.units@.len() == 1,
        forall|i: int|
            0 <= i < pre.workers@.len() ==> !(#[trigger] pre.workers@[i]).holds(pre.units@[0].spec_id()),
    ensures
        ({
            let ready = ready_count(pre.workers@, pre.units@[0].spec_size(), now, pre.config.inactive_timeout);
            let rf = pre.config.replication_factor;
            replicas(post.workers@, pre.units@[0].spec_id(), now, pre.config.inactive_timeout)
                == if ready < rf { ready } else { rf as nat }
        }),
{
    let t = pre.config.inactive_timeout;
    let rf = pre.config.replication_factor;
    let id = pre.units@[0].spec_id();
    let size = pre.units@[0].spec_size();
    let ready = ready_count(pre.workers@, size, now, t);
    lemma_no_replicas(pre.workers@, id, now, t);
    assert(pre.units@[0] == pre.units@[0]);
    assert forall|i: int| 0 <= i < pre.workers@.len() && is_replica(#[trigger] post.workers@[i], id, now, t)
        implies is_ready(pre.workers@[i], size, now, t) by {
        assert(post.workers@[i].holds(id));
        assert(eligible(pre.workers@[i], id, size, now, t));
        let w = pre.workers@[i];
        if w.assigned_units@.len() > 0 {
            assert(worker_ok(pre.units@, w));
            assert(entry_ok(pre.units@, w.assigned_units@[0]));
            assert(w.ids()[0] == id);
        }
        assert(w.assigned_units@ =~= Seq::<AssignedUnit>::empty());
    }
    lemma_replicas_le_ready(pre.workers@, post.workers@, id, size, now, t);
    if replicas(post.workers@, id, now, t) < rf && replicas(post.workers@, id, now, t) < ready {
        lemma_free_ready_worker(pre.workers@, post.workers@, id, size, now, t);
        let i = choose|i: int|
            0 <= i < pre.workers@.len() && is_ready(#[trigger] pre.workers@[i], size, now, t)
                && !is_replica(post.workers@[i], id, now, t);
        let w = post.workers@[i];
        assert(w.same_identity(&pre.workers@[i]));
        assert(!w.holds(id));
        if w.assigned_units@.len() > 0 {
            assert(worker_ok(post.units@, w));
            assert(entry_ok(post.units@, w.assigned_units@[0]));
            assert(w.ids()[0] == id);
        }
        assert(w.assigned_units@ =~= Seq::<AssignedUnit>::empty());
        assert(eligible(w, id, size, now, t));
    }
}

/// Under-capacity degradation: after a pass every unit that is short of
/// `replication_factor` replicas has no active, unjailed worker left that
/// lacks it and has room for it, and no worker holds more than its capacity.
pub proof fn lemma_under_capacity(pre: Scheduler, post: Scheduler, now: u64, u: int, i: int)
    requires
        post.wf(),
        schedule_outcome(pre, post, now),
        0 <= u < pre.units@.len(),
        0 <= i < post.workers@.len(),
        replicas(post.workers@, pre.units@[u].spec_id(), now, pre.config.inactive_timeout)
            < pre.config.replication_factor,
    ensures
        post.workers@[i].assigned_bytes <= post.workers@[i].capacity,
        post.workers@[i].spec_is_active(now, pre.config.inactive_timeout) && !post.workers@[i].jailed
            && !post.workers@[i].holds(pre.units@[u].spec_id())
            ==> post.workers@[i].spec_remaining() < pre.units@[u].spec_size(),
{
    assert(pre.units@[u] == pre.units@[u]);
    assert(worker_ok(post.units@, post.workers@[i]));
    assert(!eligible(post.workers@[i], pre.units@[u].spec_id(), pre.units@[u].spec_size(), now, pre.config.inactive_timeout));
}

/// Recovery: after the units of unlisted datasets are cleared, no unit and no
/// assignment of an unlisted dataset is left, and every worker's byte count
/// is the sum of the sizes of the units it still holds, each at the size of
/// its unit.
pub proof fn lemma_recovery(pre: Scheduler, post: Scheduler, datasets: Seq<String>, x: IdView, k: int)
    requires
        pre.wf(),
        post.wf(),
        clear_outcome(pre, post, datasets),
        !listed(datasets, x.0),
        0 <= k < post.workers@.len(),
    ensures
        forall|i: int| 0 <= i < post.units@.len() ==> (#[trigger] post.units@[i]).spec_id() != x,
        !post.workers@[k].holds(x),
        post.workers@[k].assigned_bytes == assigned_total(post.workers@[k].assigned_units@),
        post.workers@[k].assigned_bytes <= post.workers@[k].capacity,
        forall|e: int|
            0 <= e < post.workers@[k].assigned_units@.len() ==> entry_ok(post.units@, #[trigger] post.workers@[k].assigned_units@[e]),
{
    assert(post.workers@[k].holds(x) == (pre.workers@[k].holds(x) && listed(datasets, x.0)));
    assert(worker_ok(post.units@, post.workers@[k]));
}

} // verus!
