use vstd::prelude::*;

verus! {

/// An inclusive range of block numbers.
#[derive(Clone, Copy, Debug, PartialEq, Eq, Structural)]
pub struct BlockRange {
    pub begin: u32,
    pub end: u32,
}

impl BlockRange {
    /// Whether `other` lies entirely within this range.
    pub open spec fn spec_contains(self, other: BlockRange) -> bool {
        self.begin <= other.begin && other.end <= self.end
    }

    pub fn contains(&self, other: &BlockRange) -> (r: bool)
        ensures
            r == self.spec_contains(*other),
    {
        self.begin <= other.begin && other.end <= self.end
    }
}


/// Identifier of a chunk: the dataset it belongs to and its block range.
/// Downloading the same chunk again yields the same identifier.
#[derive(Clone, Debug)]
pub struct ChunkId {
    pub dataset_url: String,
    pub block_range: BlockRange,
}

/// Mathematical form of a chunk identifier.
pub type IdView = (Seq<char>, BlockRange);

impl View for ChunkId {
    type V = IdView;

    open spec fn view(&self) -> IdView {
        (self.dataset_url@, self.block_range)
    }
}

impl ChunkId {
    /// A copy with the same contents.
    pub fn duplicate(&self) -> (r: ChunkId)
        ensures
            r@ == self@,
    {
        ChunkId { dataset_url: self.dataset_url.clone(), block_range: self.block_range }
    }

    pub fn same_as(&self, other: &ChunkId) -> (r: bool)
        ensures
            r == (self@ == other@),
    {
        self.dataset_url == other.dataset_url && self.block_range == other.block_range
    }
}

/// One immutable, contiguous block range of a dataset.
#[derive(Clone, Debug)]
pub struct DataChunk {
    pub dataset_url: String,
    pub block_range: BlockRange,
    pub size_bytes: u64,
}

/// Mathematical form of a chunk: dataset, block range and size.
pub type ChunkView = (Seq<char>, BlockRange, u64);

impl View for DataChunk {
    type V = ChunkView;

    open spec fn view(&self) -> ChunkView {
        (self.dataset_url@, self.block_range, self.size_bytes)
    }
}

/// The identifier of a chunk, read from its mathematical form.
pub open spec fn chunk_id(c: ChunkView) -> IdView {
    (c.0, c.1)
}

impl DataChunk {
    pub fn new(dataset_url: String, block_range: BlockRange, size_bytes: u64) -> (r: DataChunk)
        ensures
            r@ == (dataset_url@, block_range, size_bytes),
    {
        DataChunk { dataset_url, block_range, size_bytes }
    }

    /// A copy with the same contents.
    pub fn duplicate(&self) -> (r: DataChunk)
        ensures
            r@ == self@,
    {
        DataChunk {
            dataset_url: self.dataset_url.clone(),
            block_range: self.block_range,
            size_bytes: self.size_bytes,
        }
    }

    pub fn id(&self) -> (r: ChunkId)
        ensures
            r@ == chunk_id(self@),
    {
        ChunkId { dataset_url: self.dataset_url.clone(), block_range: self.block_range }
    }
}

/// The views of a sequence of chunks.
pub open spec fn chunk_views(s: Seq<DataChunk>) -> Seq<ChunkView> {
    s.map_values(|c: DataChunk| c@)
}

/// Block ranges that a worker reports as stored for one dataset.
#[derive(Clone, Debug)]
pub struct DatasetRanges {
    pub url: String,
    pub ranges: Vec<BlockRange>,
}

/// Whether one of the ranges holds block `b`.
pub open spec fn block_covered(ranges: Seq<BlockRange>, b: int) -> bool {
    exists|i: int| 0 <= i < ranges.len() && (#[trigger] ranges[i]).begin <= b <= ranges[i].end
}

/// Whether the ranges together hold every block of `r`.
pub open spec fn ranges_include(ranges: Seq<BlockRange>, r: BlockRange) -> bool {
    forall|b: int| r.begin <= b <= r.end ==> #[trigger] block_covered(ranges, b)
}

impl DatasetRanges {
    /// Position of a range holding block `b`.
    fn find_covering(&self, b: u32) -> (r: Option<usize>)
        ensures
            match r {
                Some(i) => i < self.ranges@.len() && self.ranges@[i as int].begin <= b <= self.ranges@[i as int].end,
                None => !block_covered(self.ranges@, b as int),
            },
    {
        let mut i: usize = 0;
        while i < self.ranges.len()
            invariant
                0 <= i <= self.ranges@.len(),
                forall|j: int| 0 <= j < i ==> !((#[trigger] self.ranges@[j]).begin <= b <= self.ranges@[j].end),
            decreases self.ranges@.len() - i,
        {
            if self.ranges[i].begin <= b && b <= self.ranges[i].end {
                return Some(i);
            }
            i = i + 1;
        }
        None
    }

    /// Whether the reported ranges together cover every block of `r`.
    pub fn includes(&self, r: &BlockRange) -> (res: bool)
        ensures
            res == ranges_include(self.ranges@, *r),
    {
        if r.begin > r.end {
            return true;
        }
        let mut cur: u32 = r.begin;
        loop
            invariant
                r.begin <= cur <= r.end,
                forall|b: int| r.begin <= b < cur ==> #[trigger] block_covered(self.ranges@, b),
            decreases r.end - cur,
        {
            match self.find_covering(cur) {
                None => {
                    return false;
                },
                Some(i) => {
                    let e = self.ranges[i].end;
                    proof {
                        assert forall|b: int| cur <= b <= e implies #[trigger] block_covered(self.ranges@, b) by {
                            assert(self.ranges@[i as int].begin <= b <= self.ranges@[i as int].end);
                        }
                    }
                    if e >= r.end {
                        return true;
                    }
                    cur = e + 1;
                }
            }
        }
    }
}

} // verus!
