use itertools::Itertools;
use vstd::prelude::*;

use crate::data_chunk::{BlockRange, ChunkView, DataChunk, chunk_views};

verus! {

/// A stored object `<prefix>/<file_name>`; the prefix names the chunk the object belongs to.
#[derive(Clone, Debug)]
pub struct S3Object {
    pub prefix: String,
    pub file_name: String,
    pub size: u64,
}

/// Mathematical form of an object: prefix, file name and size.
pub type ObjView = (Seq<char>, Seq<char>, u64);

impl View for S3Object {
    type V = ObjView;

    open spec fn view(&self) -> ObjView {
        (self.prefix@, self.file_name@, self.size)
    }
}

pub open spec fn obj_views(s: Seq<S3Object>) -> Seq<ObjView> {
    s.map_values(|o: S3Object| o@)
}

/// Why an object listing entry was refused.
#[derive(Clone, Copy, Debug, PartialEq, Eq, Structural)]
pub enum ObjectError {
    KeyMissing,
    NoPrefix,
}

/// Why a batch of new objects was refused.
#[derive(Clone, Copy, Debug, PartialEq, Eq, Structural)]
pub enum IngestError {
    /// A group of objects was empty.
    EmptyGroup,
    /// A group lacks the marker file.
    MarkerMissing,
    /// A chunk's prefix does not name a block range.
    InvalidChunk,
    /// The next chunk does not begin at `expected`, but at `found`.
    Gap { expected: u64, found: u32 },
    /// The object store could not be listed.
    ListingFailed,
}

/// The name of the file whose presence marks a complete chunk.
pub open spec fn marker_name() -> Seq<char> {
    "blocks.parquet"@
}

/// Relies on `str::rsplit_once`: splits at the last `/`, if there is one.
#[verifier::external_body]
fn split_last_slash(s: &str) -> (r: Option<(String, String)>)
    ensures
        match r {
            Some((a, b)) => s@ == a@ + seq!['/'] + b@ && !b@.contains('/'),
            None => !s@.contains('/'),
        },
{
    s.rsplit_once('/').map(|(a, b)| (a.to_string(), b.to_string()))
}

impl S3Object {
    pub fn key(&self) -> (r: String)
        ensures
            r@ == self.prefix@ + seq!['/'] + self.file_name@,
    {
        let mut k = self.prefix.clone();
        proof {
            reveal_strlit("/");
        }
        k.append("/");
        k.append(self.file_name.as_str());
        k
    }

    /// Reads a listing entry: the key splits at its last `/` into prefix and file name.
    pub fn from_key(key: Option<String>, size: u64) -> (r: Result<S3Object, ObjectError>)
        ensures
            key.is_none() ==> r == Err::<S3Object, ObjectError>(ObjectError::KeyMissing),
            key.is_some() && !key.unwrap()@.contains('/') ==> r == Err::<S3Object, ObjectError>(
                ObjectError::NoPrefix,
            ),
            r.is_ok() ==> key.is_some() && key.unwrap()@ == r.unwrap().prefix@ + seq!['/']
                + r.unwrap().file_name@ && !r.unwrap().file_name@.contains('/') && r.unwrap().size
                == size,
            key.is_some() && key.unwrap()@.contains('/') ==> r.is_ok(),
    {
        match key {
            None => Err(ObjectError::KeyMissing),
            Some(k) => match split_last_slash(k.as_str()) {
                None => Err(ObjectError::NoPrefix),
                Some((prefix, file_name)) => {
                    assert((prefix@ + seq!['/'] + file_name@)[prefix@.len() as int] == '/');
                    Ok(S3Object { prefix, file_name, size })
                },
            },
        }
    }
}

/// A listing entry that names an object: it has a key holding a `/`.
pub open spec fn readable_entry(e: (Option<String>, u64)) -> bool {
    e.0.is_some() && e.0.unwrap()@.contains('/')
}

/// Reads one page of a listing. `None` when the page is empty or holds an
/// entry that names no object, which ends the listing; otherwise the objects
/// in order, with the key of the last one, where the next page starts.
pub fn read_page(page: Vec<(Option<String>, u64)>) -> (r: Option<(Vec<S3Object>, String)>)
    ensures
        r.is_none() == (page@.len() == 0 || exists|i: int| 0 <= i < page@.len() && !readable_entry(#[trigger] page@[i])),
        match r {
            Some((objs, last)) => {
                &&& objs@.len() == page@.len()
                &&& forall|i: int|
                    0 <= i < objs@.len() ==> {
                        &&& page@[i].0.unwrap()@ == (#[trigger] objs@[i]).prefix@ + seq!['/'] + objs@[i].file_name@
                        &&& !objs@[i].file_name@.contains('/')
                        &&& objs@[i].size == page@[i].1
                    }
                &&& last@ == page@.last().0.unwrap()@
            },
            None => true,
        },
{
    if page.len() == 0 {
        return None;
    }
    let mut objs: Vec<S3Object> = Vec::new();
    let mut i: usize = 0;
    while i < page.len()
        invariant
            0 <= i <= page@.len(),
            objs@.len() == i,
            forall|j: int| 0 <= j < i ==> readable_entry(#[trigger] page@[j]),
            forall|j: int|
                0 <= j < i ==> {
                    &&& page@[j].0.unwrap()@ == (#[trigger] objs@[j]).prefix@ + seq!['/'] + objs@[j].file_name@
                    &&& !objs@[j].file_name@.contains('/')
                    &&& objs@[j].size == page@[j].1
                },
        decreases page@.len() - i,
    {
        let key = match &page[i].0 {
            Some(k) => Some(k.clone()),
            None => None,
        };
        match S3Object::from_key(key, page[i].1) {
            Err(_) => {
                assert(!readable_entry(page@[i as int]));
                return None;
            },
            Ok(o) => {
                assert(readable_entry(page@[i as int]));
                objs.push(o);
            },
        }
        i = i + 1;
    }
    let last = objs[objs.len() - 1].key();
    Some((objs, last))
}

/// Relies on `itertools::Itertools::group_by`: consecutive objects with equal
/// prefixes form one group, groups in order.
#[verifier::external_body]
fn group_by_prefix(objs: Vec<S3Object>) -> (r: Vec<Vec<S3Object>>)
    ensures
        is_prefix_grouping(obj_views(objs@), group_views(r@)),
{
    let grouped = objs.into_iter().group_by(|o| o.prefix.clone());
    grouped.into_iter().map(|(_, g)| g.collect()).collect()
}

pub open spec fn group_views(g: Seq<Vec<S3Object>>) -> Seq<Seq<ObjView>> {
    g.map_values(|v: Vec<S3Object>| obj_views(v@))
}

/// Concatenation of groups.
pub open spec fn concat(g: Seq<Seq<ObjView>>) -> Seq<ObjView>
    decreases g.len(),
{
    if g.len() == 0 {
        Seq::empty()
    } else {
        concat(g.drop_last()) + g.last()
    }
}

/// `groups` splits `objs` into maximal runs of equal prefix.
pub open spec fn is_prefix_grouping(objs: Seq<ObjView>, groups: Seq<Seq<ObjView>>) -> bool {
    &&& concat(groups) == objs
    &&& forall|i: int| 0 <= i < groups.len() ==> (#[trigger] groups[i]).len() > 0
    &&& forall|i: int, j: int|
        0 <= i < groups.len() && 0 <= j < groups[i].len() ==> (#[trigger] groups[i][j]).0
            == groups[i][0].0
    &&& forall|i: int| 0 < i < groups.len() ==> (#[trigger] groups[i])[0].0 != groups[i - 1][0].0
}

/// The position of the last `c` in `s`, or -1.
pub open spec fn last_index(s: Seq<char>, c: char) -> int
    decreases s.len(),
{
    if s.len() == 0 {
        -1
    } else if s.last() == c {
        s.len() - 1
    } else {
        last_index(s.drop_last(), c)
    }
}

/// The position of the first `c` in `s`, or -1.
pub open spec fn first_index(s: Seq<char>, c: char) -> int
    decreases s.len(),
{
    if s.len() == 0 {
        -1
    } else if first_index(s.drop_last(), c) >= 0 {
        first_index(s.drop_last(), c)
    } else if s.last() == c {
        s.len() - 1
    } else {
        -1
    }
}

pub open spec fn is_digit(c: char) -> bool {
    '0' <= c && c <= '9'
}

/// The value of a string of decimal digits.
pub open spec fn decimal_value(s: Seq<char>) -> int
    decreases s.len(),
{
    if s.len() == 0 {
        0
    } else {
        decimal_value(s.drop_last()) * 10 + (s.last() as int - '0' as int)
    }
}

/// A non-empty string of decimal digits whose value fits in 32 bits.
pub open spec fn valid_number(s: Seq<char>) -> bool {
    &&& s.len() > 0
    &&& forall|i: int| 0 <= i < s.len() ==> is_digit(#[trigger] s[i])
    &&& decimal_value(s) <= u32::MAX
}

/// The block range a chunk prefix names: its last path segment reads
/// `<first>-<last>` or `<first>-<last>-<anything>`, with `first <= last`.
pub open spec fn chunk_range(prefix: Seq<char>) -> Option<BlockRange> {
    let seg = prefix.subrange(last_index(prefix, '/') + 1, prefix.len() as int);
    let d1 = first_index(seg, '-');
    let rest = seg.subrange(d1 + 1, seg.len() as int);
    let d2 = first_index(rest, '-');
    let a = seg.subrange(0, d1);
    let b = if d2 >= 0 { rest.subrange(0, d2) } else { rest };
    if d1 >= 0 && valid_number(a) && valid_number(b) && decimal_value(a) <= decimal_value(b) {
        Some(BlockRange { begin: decimal_value(a) as u32, end: decimal_value(b) as u32 })
    } else {
        None
    }
}

/// Digit strings have non-negative values that grow as digits are appended.
pub proof fn lemma_decimal_prefix(s: Seq<char>, k: int)
    requires
        0 <= k <= s.len(),
        forall|i: int| 0 <= i < s.len() ==> is_digit(#[trigger] s[i]),
    ensures
        0 <= decimal_value(s.take(k)) <= decimal_value(s),
    decreases s.len(),
{
    if k < s.len() {
        assert(s.drop_last().take(k) =~= s.take(k));
        lemma_decimal_prefix(s.drop_last(), k);
        assert(is_digit(s[s.len() - 1]));
    } else {
        assert(s.take(k) =~= s);
        if s.len() > 0 {
            lemma_decimal_prefix(s.drop_last(), k - 1);
            assert(s.drop_last().take(k - 1) =~= s.drop_last());
            assert(is_digit(s[s.len() - 1]));
        }
    }
}

/// The first occurrence in a prefix is the first occurrence in the whole.
pub proof fn lemma_first_index_extend(s: Seq<char>, k: int, c: char)
    requires
        0 <= k <= s.len(),
        first_index(s.take(k), c) >= 0,
    ensures
        first_index(s, c) == first_index(s.take(k), c),
    decreases s.len(),
{
    if k < s.len() {
        assert(s.drop_last().take(k) =~= s.take(k));
        lemma_first_index_extend(s.drop_last(), k, c);
    } else {
        assert(s.take(k) =~= s);
    }
}

/// The characters of a string.
fn chars_of(s: &String) -> (r: Vec<char>)
    ensures
        r@ == s@,
{
    let n = s.as_str().unicode_len();
    let mut v: Vec<char> = Vec::new();
    let mut i: usize = 0;
    while i < n
        invariant
            n == s@.len(),
            0 <= i <= n,
            v@ == s@.take(i as int),
        decreases n - i,
    {
        v.push(s.as_str().get_char(i));
        i = i + 1;
        assert(v@ =~= s@.take(i as int));
    }
    assert(s@.take(n as int) =~= s@);
    v
}

/// Position of the last `c` in `v`.
fn find_last(v: &Vec<char>, c: char) -> (r: Option<usize>)
    ensures
        match r {
            Some(i) => i < v@.len() && last_index(v@, c) == i,
            None => last_index(v@, c) == -1,
        },
{
    let mut i: usize = v.len();
    assert(v@.take(i as int) =~= v@);
    while i > 0
        invariant
            0 <= i <= v@.len(),
            last_index(v@, c) == last_index(v@.take(i as int), c),
        decreases i,
    {
        assert(v@.take(i as int).drop_last() =~= v@.take(i - 1));
        if v[i - 1] == c {
            return Some(i - 1);
        }
        i = i - 1;
    }
    None
}

/// Position of the first `c` in `v[from..to]`, counted from the start of `v`.
fn find_first(v: &Vec<char>, from: usize, to: usize, c: char) -> (r: Option<usize>)
    requires
        from <= to <= v@.len(),
    ensures
        match r {
            Some(i) => from <= i < to && first_index(v@.subrange(from as int, to as int), c) == i - from,
            None => first_index(v@.subrange(from as int, to as int), c) == -1,
        },
{
    let mut j: usize = from;
    assert(v@.subrange(from as int, from as int) =~= Seq::<char>::empty());
    while j < to
        invariant
            from <= j <= to <= v@.len(),
            first_index(v@.subrange(from as int, j as int), c) == -1,
        decreases to - j,
    {
        assert(v@.subrange(from as int, j + 1).drop_last() =~= v@.subrange(from as int, j as int));
        if v[j] == c {
            proof {
                lemma_first_index_extend(v@.subrange(from as int, to as int), j - from + 1, c);
                assert(v@.subrange(from as int, to as int).take(j - from + 1) =~= v@.subrange(from as int, j + 1));
            }
            return Some(j);
        }
        j = j + 1;
    }
    None
}

/// The number written in `v[from..to]`, if it is a valid one.
fn parse_number(v: &Vec<char>, from: usize, to: usize) -> (r: Option<u32>)
    requires
        from <= to <= v@.len(),
    ensures
        match r {
            Some(n) => valid_number(v@.subrange(from as int, to as int)) && n == decimal_value(
                v@.subrange(from as int, to as int),
            ),
            None => !valid_number(v@.subrange(from as int, to as int)),
        },
{
    let ghost s = v@.subrange(from as int, to as int);
    if from == to {
        return None;
    }
    let mut val: u64 = 0;
    let mut j: usize = from;
    assert(s.take(0) =~= Seq::<char>::empty());
    while j < to
        invariant
            from <= j <= to <= v@.len(),
            s == v@.subrange(from as int, to as int),
            forall|i: int| 0 <= i < j - from ==> is_digit(#[trigger] s[i]),
            val == decimal_value(s.take(j - from)),
            val <= u32::MAX,
        decreases to - j,
    {
        let c = v[j];
        if !('0' <= c && c <= '9') {
            assert(!is_digit(s[j - from]));
            return None;
        }
        let d = (c as u32 - '0' as u32) as u64;
        assert(s.take(j - from + 1).drop_last() =~= s.take(j - from));
        let next = val * 10 + d;
        if next > u32::MAX as u64 {
            proof {
                assert(decimal_value(s.take(j - from + 1)) == next);
                if forall|i: int| 0 <= i < s.len() ==> is_digit(#[trigger] s[i]) {
                    lemma_decimal_prefix(s, j - from + 1);
                }
            }
            return None;
        }
        val = next;
        j = j + 1;
    }
    assert(s.take(s.len() as int) =~= s);
    Some(val as u32)
}

/// Reads the block range a chunk prefix names.
pub fn parse_chunk_range(prefix: &String) -> (r: Option<BlockRange>)
    ensures
        r == chunk_range(prefix@),
{
    let v = chars_of(prefix);
    let n = v.len();
    let start: usize = match find_last(&v, '/') {
        Some(i) => i + 1,
        None => 0,
    };
    let ghost seg = v@.subrange(start as int, n as int);
    assert(seg == prefix@.subrange(last_index(prefix@, '/') + 1, prefix@.len() as int));
    let d1 = match find_first(&v, start, n, '-') {
        Some(d) => d,
        None => {
            return None;
        },
    };
    let ghost rest = seg.subrange(d1 - start + 1, seg.len() as int);
    assert(rest =~= v@.subrange(d1 + 1, n as int));
    assert(seg.subrange(0, d1 - start) =~= v@.subrange(start as int, d1 as int));
    let a = match parse_number(&v, start, d1) {
        Some(a) => a,
        None => {
            return None;
        },
    };
    let bend: usize = match find_first(&v, d1 + 1, n, '-') {
        Some(d2) => {
            assert(rest.subrange(0, d2 - d1 - 1) =~= v@.subrange(d1 + 1, d2 as int));
            d2
        },
        None => n,
    };
    let b = match parse_number(&v, d1 + 1, bend) {
        Some(b) => b,
        None => {
            return None;
        },
    };
    if a <= b {
        Some(BlockRange { begin: a, end: b })
    } else {
        None
    }
}

/// The chunk a group of objects forms, or why it cannot form one.
pub open spec fn group_chunk(bucket: Seq<char>, objs: Seq<ObjView>) -> Result<ChunkView, IngestError> {
    if objs.len() == 0 {
        Err(IngestError::EmptyGroup)
    } else if !(exists|i: int| 0 <= i < objs.len() && (#[trigger] objs[i]).1 == marker_name()) {
        Err(IngestError::MarkerMissing)
    } else {
        match chunk_range(objs.last().0) {
            None => Err(IngestError::InvalidChunk),
            Some(r) => Ok((bucket, r, sizes_sum(objs))),
        }
    }
}

/// Total size of a group of objects, saturated at the largest 64-bit value.
pub open spec fn sizes_sum(objs: Seq<ObjView>) -> u64
    decreases objs.len(),
{
    if objs.len() == 0 {
        0
    } else {
        let t = sizes_sum(objs.drop_last()) + objs.last().2;
        if t > u64::MAX {
            u64::MAX
        } else {
            t as u64
        }
    }
}

/// Forms the chunk of a group of objects sharing one prefix: the group must
/// hold the marker file, and the prefix must name a block range.
pub fn objects_to_chunk(bucket: &String, objs: &Vec<S3Object>) -> (r: Result<DataChunk, IngestError>)
    ensures
        match r {
            Ok(c) => group_chunk(bucket@, obj_views(objs@)) == Ok::<ChunkView, IngestError>(c@),
            Err(e) => group_chunk(bucket@, obj_views(objs@)) == Err::<ChunkView, IngestError>(e),
        },
{
    if objs.len() == 0 {
        return Err(IngestError::EmptyGroup);
    }
    proof {
        reveal_strlit("blocks.parquet");
    }
    let marker = String::from_str("blocks.parquet");
    let mut present = false;
    let mut size: u64 = 0;
    let mut i: usize = 0;
    while i < objs.len()
        invariant
            0 <= i <= objs@.len(),
            marker@ == marker_name(),
            present == exists|j: int| 0 <= j < i && (#[trigger] obj_views(objs@)[j]).1 == marker_name(),
            size == sizes_sum(obj_views(objs@).take(i as int)),
        decreases objs@.len() - i,
    {
        assert(obj_views(objs@).take(i + 1).drop_last() =~= obj_views(objs@).take(i as int));
        assert(obj_views(objs@)[i as int].1 == objs@[i as int].file_name@);
        if objs[i].file_name == marker {
            present = true;
        } else {
            assert(obj_views(objs@)[i as int].1 != marker_name());
        }
        size = size.saturating_add(objs[i].size);
        i = i + 1;
    }
    assert(obj_views(objs@).take(objs@.len() as int) =~= obj_views(objs@));
    if !present {
        return Err(IngestError::MarkerMissing);
    }
    let last = objs.len() - 1;
    match parse_chunk_range(&objs[last].prefix) {
        None => Err(IngestError::InvalidChunk),
        Some(range) => Ok(DataChunk::new(bucket.clone(), range, size)),
    }
}

/// The block each chunk must begin at: one past the previous chunk's end,
/// and for the first one past `last_block`, or block zero.
pub open spec fn expected_begin(last_block: Option<u32>, chunks: Seq<ChunkView>, i: int) -> int {
    if i == 0 {
        match last_block {
            Some(b) => b + 1,
            None => 0,
        }
    } else {
        chunks[i - 1].1.end + 1
    }
}

/// Every chunk begins where the one before it ended.
pub open spec fn contiguous(last_block: Option<u32>, chunks: Seq<ChunkView>) -> bool {
    forall|i: int| 0 <= i < chunks.len() ==> (#[trigger] chunks[i]).1.begin == expected_begin(last_block, chunks, i)
}

/// Verifies that the chunks continue the dataset without a gap; the error
/// names the first chunk that does not.
pub fn check_continuity(last_block: Option<u32>, chunks: &Vec<DataChunk>) -> (r: Result<(), IngestError>)
    ensures
        r.is_ok() == contiguous(last_block, chunk_views(chunks@)),
        match r {
            Ok(_) => true,
            Err(e) => exists|i: int|
                0 <= i < chunks@.len() && e == IngestError::Gap {
                    expected: expected_begin(last_block, chunk_views(chunks@), i) as u64,
                    found: chunks@[i].block_range.begin,
                } && (#[trigger] chunks@[i]).block_range.begin != expected_begin(last_block, chunk_views(chunks@), i)
                    && forall|j: int| 0 <= j < i ==> (#[trigger] chunk_views(chunks@)[j]).1.begin
                        == expected_begin(last_block, chunk_views(chunks@), j),
        },
{
    let ghost cv = chunk_views(chunks@);
    let mut next: u64 = match last_block {
        Some(b) => b as u64 + 1,
        None => 0,
    };
    let mut i: usize = 0;
    while i < chunks.len()
        invariant
            0 <= i <= chunks@.len(),
            cv == chunk_views(chunks@),
            next == expected_begin(last_block, cv, i as int),
            forall|j: int| 0 <= j < i ==> (#[trigger] cv[j]).1.begin == expected_begin(last_block, cv, j),
        decreases chunks@.len() - i,
    {
        if chunks[i].block_range.begin as u64 != next {
            assert(cv[i as int].1.begin != expected_begin(last_block, cv, i as int));
            return Err(IngestError::Gap { expected: next, found: chunks[i].block_range.begin });
        }
        next = chunks[i].block_range.end as u64 + 1;
        i = i + 1;
    }
    Ok(())
}

/// The chunks the groups form, in order, or the error of the first group that forms none.
pub open spec fn build_chunks(bucket: Seq<char>, groups: Seq<Seq<ObjView>>) -> Result<Seq<ChunkView>, IngestError>
    decreases groups.len(),
{
    if groups.len() == 0 {
        Ok(Seq::empty())
    } else {
        match build_chunks(bucket, groups.drop_last()) {
            Err(e) => Err(e),
            Ok(cs) => match group_chunk(bucket, groups.last()) {
                Err(e) => Err(e),
                Ok(c) => Ok(cs.push(c)),
            },
        }
    }
}

/// An error in a prefix of the groups is the error of all of them.
pub proof fn lemma_build_error_extends(bucket: Seq<char>, groups: Seq<Seq<ObjView>>, k: int)
    requires
        0 <= k <= groups.len(),
        build_chunks(bucket, groups.take(k)).is_err(),
    ensures
        build_chunks(bucket, groups) == build_chunks(bucket, groups.take(k)),
    decreases groups.len(),
{
    if k < groups.len() {
        assert(groups.drop_last().take(k) =~= groups.take(k));
        lemma_build_error_extends(bucket, groups.drop_last(), k);
    } else {
        assert(groups.take(k) =~= groups);
    }
}

/// Waiting time, in seconds, after a failed listing.
pub const ERROR_BACKOFF_SECS: u64 = 60;

/// Waiting time, in seconds, after a listing with nothing new.
pub const IDLE_BACKOFF_SECS: u64 = 300;

/// What the polling loop of a bucket does after a listing.
#[derive(Clone, Copy, Debug, PartialEq, Eq, Structural)]
pub enum PollAction {
    /// Hand the new chunks on, then list again.
    Send,
    /// Wait this many seconds, then list again.
    WaitSecs(u64),
}

/// The polling decision: after an error retry later, after an empty listing
/// wait longer, otherwise hand the chunks on.
pub fn next_poll(outcome: &Result<Vec<DataChunk>, IngestError>) -> (r: PollAction)
    ensures
        r == match outcome {
            Err(_) => PollAction::WaitSecs(ERROR_BACKOFF_SECS),
            Ok(v) => if v@.len() == 0 {
                PollAction::WaitSecs(IDLE_BACKOFF_SECS)
            } else {
                PollAction::Send
            },
        },
{
    match outcome {
        Err(_) => PollAction::WaitSecs(ERROR_BACKOFF_SECS),
        Ok(v) => if v.len() == 0 {
            PollAction::WaitSecs(IDLE_BACKOFF_SECS)
        } else {
            PollAction::Send
        },
    }
}

/// Ingestion state of one dataset bucket: the last object key and the last
/// block seen so far.
#[derive(Clone, Debug)]
pub struct DatasetStorage {
    pub bucket: String,
    pub last_key: Option<String>,
    pub last_block: Option<u32>,
}

impl DatasetStorage {
    pub fn new(bucket: String) -> (r: DatasetStorage)
        ensures
            r.bucket == bucket,
            r.last_key.is_none(),
            r.last_block.is_none(),
    {
        DatasetStorage { bucket, last_key: None, last_block: None }
    }

    /// Turns groups of objects into chunks, each group in turn.
    pub fn chunks_from_groups(&self, groups: &Vec<Vec<S3Object>>) -> (r: Result<Vec<DataChunk>, IngestError>)
        ensures
            match r {
                Ok(v) => build_chunks(self.bucket@, group_views(groups@)) == Ok::<Seq<ChunkView>, IngestError>(chunk_views(v@)),
                Err(e) => build_chunks(self.bucket@, group_views(groups@)) == Err::<Seq<ChunkView>, IngestError>(e),
            },
    {
        let ghost gv = group_views(groups@);
        let mut chunks: Vec<DataChunk> = Vec::new();
        let mut i: usize = 0;
        assert(gv.take(0) =~= Seq::<Seq<ObjView>>::empty());
        assert(chunk_views(chunks@) =~= Seq::<ChunkView>::empty());
        while i < groups.len()
            invariant
                0 <= i <= groups@.len(),
                gv == group_views(groups@),
                build_chunks(self.bucket@, gv.take(i as int)) == Ok::<Seq<ChunkView>, IngestError>(chunk_views(chunks@)),
            decreases groups@.len() - i,
        {
            assert(gv.take(i + 1).drop_last() =~= gv.take(i as int));
            assert(gv.take(i + 1).last() == obj_views(groups@[i as int]@));
            match objects_to_chunk(&self.bucket, &groups[i]) {
                Err(e) => {
                    proof {
                        lemma_build_error_extends(self.bucket@, gv, i + 1);
                    }
                    return Err(e);
                },
                Ok(c) => {
                    let ghost before = chunks@;
                    chunks.push(c);
                    assert(chunk_views(chunks@) =~= chunk_views(before).push(c@));
                },
            }
            i = i + 1;
        }
        assert(gv.take(groups@.len() as int) =~= gv);
        Ok(chunks)
    }

    /// Takes a listing of new objects, in key order: groups them by prefix,
    /// forms a chunk of each group and verifies that the chunks continue the
    /// dataset without a gap. On success the last key and block advance; on
    /// any error nothing changes and no chunk is handed out.
    pub fn accept_listing(&mut self, objects: Vec<S3Object>) -> (r: Result<Vec<DataChunk>, IngestError>)
        ensures
            final(self).bucket == old(self).bucket,
            r.is_err() ==> final(self).last_key == old(self).last_key && final(self).last_block == old(self).last_block,
            objects@.len() == 0 ==> r.is_ok() && r.unwrap()@.len() == 0 && final(self).last_key == old(self).last_key
                && final(self).last_block == old(self).last_block,
            objects@.len() > 0 ==> exists|groups: Seq<Seq<ObjView>>| {
                &&& #[trigger] is_prefix_grouping(obj_views(objects@), groups)
                &&& r.is_ok() == (build_chunks(old(self).bucket@, groups).is_ok()
                    && contiguous(old(self).last_block, build_chunks(old(self).bucket@, groups).unwrap()))
                &&& r.is_ok() ==> {
                    let cs = build_chunks(old(self).bucket@, groups).unwrap();
                    &&& chunk_views(r.unwrap()@) == cs
                    &&& cs.len() > 0
                    &&& final(self).last_block == Some(cs.last().1.end)
                    &&& final(self).last_key.is_some()
                    &&& final(self).last_key.unwrap()@ == objects@.last().prefix@ + seq!['/'] + objects@.last().file_name@
                }
            },
    {
        if objects.len() == 0 {
            return Ok(Vec::new());
        }
        let last_key = objects[objects.len() - 1].key();
        let ghost ov = obj_views(objects@);
        let groups = group_by_prefix(objects);
        let ghost gv = group_views(groups@);
        proof {
            lemma_nonempty_groups(ov, gv);
        }
        let chunks = match self.chunks_from_groups(&groups) {
            Ok(c) => c,
            Err(e) => {
                return Err(e);
            },
        };
        match check_continuity(self.last_block, &chunks) {
            Err(e) => {
                return Err(e);
            },
            Ok(_) => {},
        }
        proof {
            lemma_build_len(self.bucket@, gv);
        }
        let end = chunks[chunks.len() - 1].block_range.end;
        self.last_key = Some(last_key);
        self.last_block = Some(end);
        Ok(chunks)
    }
}

/// A grouping of a non-empty listing has at least one group.
pub proof fn lemma_nonempty_groups(objs: Seq<ObjView>, groups: Seq<Seq<ObjView>>)
    requires
        is_prefix_grouping(objs, groups),
        objs.len() > 0,
    ensures
        groups.len() > 0,
{
    if groups.len() == 0 {
        assert(concat(groups) =~= Seq::<ObjView>::empty());
    }
}

/// Successful building forms one chunk per group.
pub proof fn lemma_build_len(bucket: Seq<char>, groups: Seq<Seq<ObjView>>)
    requires
        build_chunks(bucket, groups).is_ok(),
    ensures
        build_chunks(bucket, groups).unwrap().len() == groups.len(),
    decreases groups.len(),
{
    if groups.len() > 0 {
        lemma_build_len(bucket, groups.drop_last());
    }
}

} // verus!
