use vstd::math::min;
use vstd::prelude::*;

use crate::data_chunk::{chunk_id, chunk_views, ChunkId, ChunkView, DataChunk, IdView};

verus! {

/// Identifier of a scheduling unit: the identifier of its first chunk.
pub type UnitId = ChunkId;

/// Total size in bytes of a sequence of chunks.
pub open spec fn total_size(s: Seq<ChunkView>) -> int
    decreases s.len(),
{
    if s.len() == 0 {
        0
    } else {
        total_size(s.drop_last()) + s.last().2
    }
}

/// The schedulable bundle of consecutive chunks of one dataset.
#[derive(Clone, Debug)]
pub struct SchedulingUnit {
    pub chunks: Vec<DataChunk>,
}

impl SchedulingUnit {
    pub open spec fn view_chunks(&self) -> Seq<ChunkView> {
        chunk_views(self.chunks@)
    }

    /// A unit holds at least one chunk.
    pub open spec fn wf(&self) -> bool {
        self.chunks@.len() > 0
    }

    pub open spec fn spec_id(&self) -> IdView {
        chunk_id(self.view_chunks()[0])
    }

    /// The total size of the chunks, saturated at the largest 64-bit value.
    pub open spec fn spec_size(&self) -> u64 {
        if total_size(self.view_chunks()) <= u64::MAX {
            total_size(self.view_chunks()) as u64
        } else {
            u64::MAX
        }
    }

    /// Builds a unit holding copies of the given chunks.
    pub fn from_slice(chunks: &[DataChunk]) -> (r: SchedulingUnit)
        requires
            chunks@.len() > 0,
        ensures
            r.wf(),
            r.view_chunks() == chunk_views(chunks@),
    {
        let mut v: Vec<DataChunk> = Vec::new();
        let mut i: usize = 0;
        while i < chunks.len()
            invariant
                0 <= i <= chunks@.len(),
                v@.len() == i,
                forall|j: int| 0 <= j < i ==> (#[trigger] v@[j])@ == chunks@[j]@,
            decreases chunks@.len() - i,
        {
            v.push(chunks[i].duplicate());
            i = i + 1;
        }
        assert(chunk_views(v@) =~= chunk_views(chunks@));
        SchedulingUnit { chunks: v }
    }

    /// A copy with the same contents.
    pub fn duplicate(&self) -> (r: SchedulingUnit)
        ensures
            r.view_chunks() == self.view_chunks(),
    {
        let mut v: Vec<DataChunk> = Vec::new();
        let mut i: usize = 0;
        while i < self.chunks.len()
            invariant
                0 <= i <= self.chunks@.len(),
                v@.len() == i,
                forall|j: int| 0 <= j < i ==> (#[trigger] v@[j])@ == self.chunks@[j]@,
            decreases self.chunks@.len() - i,
        {
            v.push(self.chunks[i].duplicate());
            i = i + 1;
        }
        assert(chunk_views(v@) =~= self.view_chunks());
        SchedulingUnit { chunks: v }
    }

    pub fn num_chunks(&self) -> (r: usize)
        ensures
            r == self.chunks@.len(),
    {
        self.chunks.len()
    }

    pub fn size_bytes(&self) -> (r: u64)
        ensures
            r == self.spec_size(),
    {
        let mut total: u64 = 0;
        let mut i: usize = 0;
        while i < self.chunks.len()
            invariant
                0 <= i <= self.chunks@.len(),
                total == min(total_size(self.view_chunks().take(i as int)), u64::MAX as int),
            decreases self.chunks@.len() - i,
        {
            proof {
                assert(self.view_chunks().take(i as int + 1).drop_last()
                    =~= self.view_chunks().take(i as int));
                lemma_total_size_monotone(self.view_chunks().take(i as int + 1));
            }
            total = total.saturating_add(self.chunks[i].size_bytes);
            i = i + 1;
        }
        assert(self.view_chunks().take(self.chunks@.len() as int) =~= self.view_chunks());
        total
    }

    /// The unit is known by its first chunk, so completing an incomplete unit
    /// later keeps its identifier.
    pub fn id(&self) -> (r: UnitId)
        requires
            self.wf(),
        ensures
            r@ == self.spec_id(),
    {
        self.chunks[0].id()
    }
}

/// Sizes are never negative.
pub proof fn lemma_total_size_monotone(s: Seq<ChunkView>)
    ensures
        0 <= total_size(s),
        s.len() > 0 ==> total_size(s.drop_last()) <= total_size(s),
    decreases s.len(),
{
    if s.len() > 0 {
        lemma_total_size_monotone(s.drop_last());
    }
}

} // verus!
