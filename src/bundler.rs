use vstd::math::min;
use vstd::prelude::*;

use crate::data_chunk::{chunk_id, chunk_views, ChunkView, DataChunk};
use crate::scheduling_unit::SchedulingUnit;

verus! {

/// The group of at most `k` chunks of `s` that starts at `start`.
pub open spec fn group_at(s: Seq<ChunkView>, start: int, k: int) -> Seq<ChunkView> {
    s.subrange(start, min(start + k, s.len() as int))
}

/// Groups a stream of chunks into units of `unit_size` chunks. A trailing
/// group that is not full yet is handed out as an incomplete unit and is
/// handed out again, with the same first chunk, once more chunks arrive.
pub struct Bundler {
    unit_size: usize,
    incomplete: Vec<DataChunk>,
    stream: Ghost<Seq<ChunkView>>,
    groups: Ghost<nat>,
}

impl Bundler {
    /// All chunks received so far, in order.
    pub closed spec fn stream(&self) -> Seq<ChunkView> {
        self.stream@
    }

    /// The number of full units formed so far.
    pub closed spec fn groups(&self) -> nat {
        self.groups@
    }

    /// The chunks of the incomplete unit carried over to the next batch.
    pub closed spec fn pending(&self) -> Seq<ChunkView> {
        chunk_views(self.incomplete@)
    }

    pub closed spec fn spec_unit_size(&self) -> nat {
        self.unit_size as nat
    }

    pub closed spec fn wf(&self) -> bool {
        &&& self.unit_size > 0
        &&& self.incomplete@.len() < self.unit_size
        &&& self.stream@.len() == self.groups@ * self.unit_size + self.incomplete@.len()
        &&& chunk_views(self.incomplete@) == self.stream@.subrange(
            self.groups@ * self.unit_size,
            self.stream@.len() as int,
        )
    }

    pub fn new(unit_size: usize) -> (r: Bundler)
        requires
            unit_size > 0,
        ensures
            r.wf(),
            r.spec_unit_size() == unit_size,
            r.stream() == Seq::<ChunkView>::empty(),
            r.groups() == 0,
            r.pending() == Seq::<ChunkView>::empty(),
    {
        let r = Bundler {
            unit_size,
            incomplete: Vec::new(),
            stream: Ghost(Seq::empty()),
            groups: Ghost(0),
        };
        assert(chunk_views(r.incomplete@) =~= r.stream@.subrange(0, 0));
        assert(0 * unit_size == 0);
        r
    }

    pub fn unit_size(&self) -> (r: usize)
        ensures
            r == self.spec_unit_size(),
    {
        self.unit_size
    }

    /// Appends a batch to the stream and returns the units it completes or
    /// extends: unit `j` is the group of the whole stream that starts at chunk
    /// `(groups + j) * unit_size`, so each unit's first chunk, and thus its
    /// identifier, does not depend on how the stream was split into batches.
    pub fn push_batch(&mut self, batch: Vec<DataChunk>) -> (r: Vec<SchedulingUnit>)
        requires
            old(self).wf(),
        ensures
            final(self).wf(),
            final(self).spec_unit_size() == old(self).spec_unit_size(),
            final(self).stream() == old(self).stream() + chunk_views(batch@),
            final(self).groups() >= old(self).groups(),
            final(self).spec_unit_size() > 0,
            final(self).groups() == final(self).stream().len() / final(self).spec_unit_size(),
            final(self).pending() == final(self).stream().subrange(
                (final(self).groups() * final(self).spec_unit_size()) as int,
                final(self).stream().len() as int,
            ),
            final(self).pending().len() < final(self).spec_unit_size(),
            forall|j: int|
                0 <= j < r@.len() ==> {
                    &&& (#[trigger] r@[j]).wf()
                    &&& r@[j].view_chunks() == group_at(
                        final(self).stream(),
                        (old(self).groups() + j) * old(self).spec_unit_size(),
                        old(self).spec_unit_size() as int,
                    )
                },
            (old(self).groups() + r@.len()) * old(self).spec_unit_size()
                >= final(self).stream().len(),
            r@.len() == 0 || (old(self).groups() + r@.len() - 1) * old(self).spec_unit_size()
                < final(self).stream().len(),
    {
        let k = self.unit_size;
        let ghost g0 = self.groups@;
        let ghost base = g0 * k;
        let ghost s0 = self.stream@;
        let mut combined: Vec<DataChunk> = Vec::new();
        std::mem::swap(&mut combined, &mut self.incomplete);
        let ghost inc_views = chunk_views(combined@);
        let mut batch = batch;
        let ghost bviews = chunk_views(batch@);
        combined.append(&mut batch);
        let ghost cviews = chunk_views(combined@);
        let ghost s1 = s0 + bviews;
        proof {
            assert(cviews =~= inc_views + bviews);
            assert(cviews =~= s1.subrange(base, s1.len() as int));
        }
        let len_c = combined.len();
        let mut units: Vec<SchedulingUnit> = Vec::new();
        let mut next_incomplete: Vec<DataChunk> = Vec::new();
        let mut pos: usize = 0;
        let ghost mut full: nat = 0;
        while pos < len_c
            invariant
                k > 0,
                len_c == combined@.len(),
                cviews == chunk_views(combined@),
                pos <= len_c,
                units@.len() * k >= pos,
                pos == len_c || pos == units@.len() * k,
                units@.len() == 0 || (units@.len() - 1) * k < len_c,
                pos < len_c ==> full == units@.len() && next_incomplete@.len() == 0,
                full * k + next_incomplete@.len() == pos,
                next_incomplete@.len() < k,
                chunk_views(next_incomplete@) == cviews.subrange(full * k, pos as int),
                forall|j: int|
                    0 <= j < units@.len() ==> {
                        &&& (#[trigger] units@[j]).wf()
                        &&& units@[j].view_chunks() == group_at(cviews, j * k, k as int)
                    },
            decreases len_c - pos,
        {
            let start = pos;
            let end: usize = if len_c - pos > k {
                pos + k
            } else {
                len_c
            };
            let mut chunks: Vec<DataChunk> = Vec::new();
            let mut i: usize = start;
            while i < end
                invariant
                    start <= i <= end <= combined@.len(),
                    chunks@.len() == i - start,
                    forall|j: int|
                        0 <= j < chunks@.len() ==> (#[trigger] chunks@[j])@ == combined@[start + j]@,
                decreases end - i,
            {
                chunks.push(combined[i].duplicate());
                i = i + 1;
            }
            let unit = SchedulingUnit { chunks };
            assert(unit.view_chunks() =~= cviews.subrange(start as int, end as int));
            assert(unit.view_chunks() =~= group_at(cviews, units@.len() * k, k as int));
            proof {
                assert((units@.len() + 1) * k == units@.len() * k + k) by (nonlinear_arith);
            }
            if end - start < k {
                next_incomplete = unit.duplicate().chunks;
                assert(chunk_views(next_incomplete@) =~= cviews.subrange(full * k, end as int));
            } else {
                proof {
                    assert((full + 1) * k == full * k + k) by (nonlinear_arith);
                    full = full + 1;
                }
                assert(chunk_views(next_incomplete@) =~= cviews.subrange(full * k, end as int));
            }
            units.push(unit);
            pos = end;
        }
        proof {
            assert((g0 + full) * k == g0 * k + full * k) by (nonlinear_arith);
            assert((g0 + units@.len()) * k == g0 * k + units@.len() * k) by (nonlinear_arith);
            if units@.len() > 0 {
                assert((g0 + units@.len() - 1) * k == g0 * k + (units@.len() - 1) * k)
                    by (nonlinear_arith)
                    requires units@.len() > 0;
            }
            assert forall|j: int| 0 <= j < units@.len() implies #[trigger] units@[j].view_chunks()
                == group_at(s1, (g0 + j) * k, k as int) by {
                assert((g0 + j) * k == g0 * k + j * k) by (nonlinear_arith);
                assert(0 <= j * k) by (nonlinear_arith) requires 0 <= j, k > 0;
                assert(j * k <= (units@.len() - 1) * k) by (nonlinear_arith)
                    requires j <= units@.len() - 1, k > 0;
                assert(group_at(s1, (g0 + j) * k, k as int) =~= group_at(cviews, j * k, k as int));
            }
        }
        self.incomplete = next_incomplete;
        self.stream = Ghost(s1);
        self.groups = Ghost(g0 + full);
        proof {
            assert(chunk_views(self.incomplete@) =~= s1.subrange(
                (g0 + full) * k,
                s1.len() as int,
            ));
            lemma_groups_div(self.groups@, k as nat, self.incomplete@.len(), s1.len());
        }
        units
    }
}

/// With `len == g * k + rest` and `rest < k`, `g` is `len / k`.
pub proof fn lemma_groups_div(g: nat, k: nat, rest: nat, len: nat)
    requires
        k > 0,
        rest < k,
        len == g * k + rest,
    ensures
        g == len / k,
{
    vstd::arithmetic::div_mod::lemma_fundamental_div_mod_converse(len as int, k as int, g as int, rest as int);
}

/// The bookkeeping of a well-formed bundler: the unit size is positive, the
/// number of full units is the stream length divided by the unit size, and
/// the carried-over chunks are the rest of the stream.
pub proof fn lemma_bundler_state(b: Bundler)
    requires
        b.wf(),
    ensures
        b.spec_unit_size() > 0,
        b.groups() == b.stream().len() / b.spec_unit_size(),
        b.pending() == b.stream().subrange((b.groups() * b.spec_unit_size()) as int, b.stream().len() as int),
        b.pending().len() < b.spec_unit_size(),
{
    lemma_groups_div(b.groups@, b.unit_size as nat, b.incomplete@.len(), b.stream@.len());
}

/// Two bundlers fed the same stream with the same unit size, in whatever
/// batches, have formed the same full units and carry over the same chunks.
pub proof fn lemma_batching_independent(a: Bundler, b: Bundler)
    requires
        a.wf(),
        b.wf(),
        a.spec_unit_size() == b.spec_unit_size(),
        a.stream() == b.stream(),
    ensures
        a.groups() == b.groups(),
        a.pending() == b.pending(),
{
    lemma_bundler_state(a);
    lemma_bundler_state(b);
}

/// A unit formed from the group of the stream at `g * k` is identified by the
/// stream's chunk at `g * k`. Since `push_batch` hands out exactly such groups,
/// the identifiers of the units depend on the stream of chunks alone, not on
/// the batches it arrived in.
pub proof fn lemma_unit_identity(s: Seq<ChunkView>, g: nat, k: nat, u: SchedulingUnit)
    requires
        k > 0,
        g * k < s.len(),
        u.view_chunks() == group_at(s, (g * k) as int, k as int),
    ensures
        u.wf(),
        u.spec_id() == chunk_id(s[(g * k) as int]),
{
    assert(u.view_chunks().len() > 0);
    assert(u.view_chunks()[0] == s[(g * k) as int]);
}

} // verus!
