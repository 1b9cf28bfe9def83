//! Files that are read at any place, and reads of many ranges at once.
use std::sync::Arc;
use vstd::prelude::*;
use vstd::slice::slice_subrange;
use crate::error::Error;
use crate::sorting::{is_order, precedes, sorted, Comparison};

verus! {

/// Ranges that are no further apart than this are read together.
pub const COALESCE_GAP: u64 = 1_048_576;

/// Ranges are read together up to this size.
pub const COALESCE_MAX_RANGE: u64 = 33_554_432;

/// A part of bytes that are shared.
pub struct ReadRangeBuffer {
    data: Arc<Vec<u8>>,
    start: usize,
    len: usize,
}

impl View for ReadRangeBuffer {
    type V = Seq<u8>;

    closed spec fn view(&self) -> Seq<u8> {
        self.data@.subrange(self.start as int, self.start + self.len)
    }
}

impl ReadRangeBuffer {
    pub closed spec fn wf(&self) -> bool {
        self.start + self.len <= self.data@.len()
    }

    pub fn new(data: Arc<Vec<u8>>, start: usize, len: usize) -> (result: Result<Self, Error>)
        ensures
            start + len <= data@.len() ==> (result matches Ok(buffer) && buffer.wf() && buffer@ == data@.subrange(
                start as int,
                start + len,
            )),
            start + len > data@.len() ==> result == Err::<Self, Error>(Error::RangeOutOfBounds),
    {
        let total: usize = data.len();
        match start.checked_add(len) {
            None => Err(Error::RangeOutOfBounds),
            Some(end) => if end > total {
                Err(Error::RangeOutOfBounds)
            } else {
                Ok(ReadRangeBuffer { data, start, len })
            },
        }
    }

    pub fn as_slice(&self) -> (bytes: &[u8])
        requires
            self.wf(),
        ensures
            bytes@ == self@,
    {
        assert(self.data.len() == self.data@.len());
        slice_subrange(self.data.as_slice(), self.start, self.start + self.len)
    }

    pub fn len(&self) -> (len: usize)
        requires
            self.wf(),
        ensures
            len == self@.len(),
    {
        self.len
    }

    pub fn is_empty(&self) -> (empty: bool)
        requires
            self.wf(),
        ensures
            empty == (self@.len() == 0),
    {
        self.len == 0
    }
}

impl Clone for ReadRangeBuffer {
    fn clone(&self) -> (copy: Self)
        ensures
            copy@ == self@,
            self.wf() ==> copy.wf(),
    {
        ReadRangeBuffer { data: share(&self.data), start: self.start, len: self.len }
    }
}

/// `Arc::clone` gives another handle on the same value.
#[verifier::external_body]
pub(crate) fn share<T>(data: &Arc<T>) -> (other: Arc<T>)
    ensures
        *other == **data,
{
    Arc::clone(data)
}

// ---------------------------------------------------------------- ranges

/// The end of a range.
pub open spec fn range_end(range: (u64, usize)) -> int {
    range.0 + range.1
}

/// The ranges end where an offset can point.
pub open spec fn ranges_ok(ranges: Seq<(u64, usize)>) -> bool {
    forall|i: int| 0 <= i < ranges.len() ==> range_end(#[trigger] ranges[i]) <= u64::MAX
}

/// The bytes of a range.
pub open spec fn range_bytes(contents: Seq<u8>, range: (u64, usize)) -> Seq<u8> {
    contents.subrange(range.0 as int, range_end(range))
}

/// The range lies inside the bytes.
pub open spec fn range_inside(contents: Seq<u8>, range: (u64, usize)) -> bool {
    range_end(range) <= contents.len()
}

/// Ranges that are read together.
pub struct MergedRange {
    pub start: u64,
    pub end: u64,
    pub members: Vec<usize>,
}

impl MergedRange {
    /// The members lie inside, and the whole ends where one of them does.
    pub open spec fn wf(&self, ranges: Seq<(u64, usize)>) -> bool {
        &&& self.start <= self.end
        &&& self.end - self.start <= usize::MAX
        &&& forall|k: int|
            0 <= k < self.members@.len() ==> (#[trigger] self.members@[k]) < ranges.len() && self.start
                <= ranges[self.members@[k] as int].0 && range_end(ranges[self.members@[k] as int]) <= self.end
        &&& exists|k: int| 0 <= k < self.members@.len() && range_end(ranges[#[trigger] self.members@[k] as int]) == self.end
    }

    /// Each member but the first starts no further behind an earlier one than a gap may be, and does
    /// not make the whole too long.
    pub open spec fn is_close(&self, ranges: Seq<(u64, usize)>) -> bool {
        forall|k: int|
            0 < k < self.members@.len() ==> range_end(ranges[#[trigger] self.members@[k] as int]) - self.start <= COALESCE_MAX_RANGE
                && follows(self.members@, ranges, k)
    }

    pub open spec fn has(&self, i: int) -> bool {
        exists|k: int| 0 <= k < self.members@.len() && #[trigger] self.members@[k] == i
    }

    fn len(&self) -> (len: usize)
        requires
            self.start <= self.end,
            self.end - self.start <= usize::MAX,
        ensures
            len == self.end - self.start,
    {
        (self.end - self.start) as usize
    }
}

/// Member `k` starts no further behind an earlier one than a gap may be.
pub open spec fn follows(members: Seq<usize>, ranges: Seq<(u64, usize)>, k: int) -> bool {
    exists|j: int| 0 <= j < k && ranges[members[k] as int].0 - range_end(ranges[#[trigger] members[j] as int]) <= COALESCE_GAP
}

/// The merged ranges start where their first members do, and what is read together is close.
pub open spec fn merged_ok(merged: Seq<MergedRange>, ranges: Seq<(u64, usize)>) -> bool {
    &&& forall|m: int| 0 <= m < merged.len() ==> (#[trigger] merged[m]).wf(ranges) && merged[m].members@.len() > 0
    &&& forall|m: int| 0 <= m < merged.len() ==> ranges[(#[trigger] merged[m]).members@[0] as int].0 == merged[m].start
    &&& forall|m: int| 0 <= m < merged.len() ==> (#[trigger] merged[m]).is_close(ranges)
}

/// Every range is a member of a merged one.
pub open spec fn all_covered(merged: Seq<MergedRange>, num_ranges: nat) -> bool {
    forall|i: int| 0 <= i < num_ranges ==> #[trigger] covered(merged, i)
}

pub open spec fn covered(merged: Seq<MergedRange>, i: int) -> bool {
    exists|m: int| 0 <= m < merged.len() && (#[trigger] merged[m]).has(i)
}

/// The ranges in the order of their offsets.
pub open spec fn by_offset(order: Seq<usize>, ranges: Seq<(u64, usize)>) -> bool {
    forall|a: int, b: int|
        0 <= a <= b < order.len() ==> ranges[#[trigger] order[a] as int].0 <= ranges[#[trigger] order[b] as int].0
}

/// Ranges by their offsets.
struct Offsets<'a> {
    ranges: &'a [(u64, usize)],
}

impl<'a> Comparison for Offsets<'a> {
    closed spec fn count(&self) -> nat {
        self.ranges@.len()
    }

    closed spec fn at_most(&self, i: int, j: int) -> bool {
        self.ranges@[i].0 <= self.ranges@[j].0
    }

    proof fn lemma_total(&self, i: int, j: int) {
    }

    proof fn lemma_transitive(&self, i: int, j: int, k: int) {
    }

    fn is_at_most(&self, i: usize, j: usize) -> (result: bool) {
        self.ranges[i].0 <= self.ranges[j].0
    }
}

/// The order of the ranges by their offsets.
pub fn sorted_by_offset(ranges: &[(u64, usize)]) -> (order: Vec<usize>)
    ensures
        is_order(order@, ranges@.len()),
        by_offset(order@, ranges@),
{
    let offsets: Offsets<'_> = Offsets { ranges };
    let order: Vec<usize> = sorted(&offsets, ranges.len());
    assert forall|a: int, b: int| 0 <= a <= b < order@.len() implies ranges@[#[trigger] order@[a] as int].0
        <= ranges@[#[trigger] order@[b] as int].0 by {
        assert(precedes(offsets, order@[a] as int, order@[b] as int));
    }
    order
}

/// Whether the next range is read together with those before it.
pub open spec fn joins(start: int, end: int, range: (u64, usize)) -> bool {
    &&& range.0 - end <= COALESCE_GAP
    &&& range_end(range) - start <= COALESCE_MAX_RANGE
}

/// No two neighbours are close enough to be read together.
pub open spec fn apart(merged: Seq<MergedRange>, ranges: Seq<(u64, usize)>) -> bool {
    forall|m: int|
        #![trigger merged[m]]
        0 < m < merged.len() ==> merged[m - 1].start <= merged[m].start && !joins(
            merged[m - 1].start as int,
            merged[m - 1].end as int,
            ranges[merged[m].members@[0] as int],
        )
}

proof fn lemma_stays_close(before: MergedRange, after: MergedRange, ranges: Seq<(u64, usize)>, idx: usize)
    requires
        before.wf(ranges),
        before.is_close(ranges),
        after.start == before.start,
        after.members@ == before.members@.push(idx),
        joins(before.start as int, before.end as int, ranges[idx as int]),
    ensures
        after.is_close(ranges),
{
    let members = before.members@;
    let ending = choose|k: int| 0 <= k < members.len() && range_end(ranges[#[trigger] members[k] as int]) == before.end;
    assert forall|k: int| 0 < k < after.members@.len() implies range_end(ranges[#[trigger] after.members@[k] as int]) - after.start
        <= COALESCE_MAX_RANGE && follows(after.members@, ranges, k) by {
        if k < members.len() {
            assert(after.members@[k] == members[k]);
            assert(follows(members, ranges, k));
            let j = choose|j: int|
                0 <= j < k && ranges[members[k] as int].0 - range_end(ranges[#[trigger] members[j] as int]) <= COALESCE_GAP;
            assert(after.members@[j] == members[j]);
        } else {
            assert(after.members@[ending] == members[ending]);
        }
    }
}

fn add_range(merged: &mut Vec<MergedRange>, ranges: &[(u64, usize)], idx: usize)
    requires
        idx < ranges@.len(),
        ranges_ok(ranges@),
        merged_ok(old(merged)@, ranges@),
        apart(old(merged)@, ranges@),
        old(merged)@.len() > 0 ==> old(merged)@.last().start <= ranges@[idx as int].0,
    ensures
        merged_ok(final(merged)@, ranges@),
        apart(final(merged)@, ranges@),
        final(merged)@.len() > 0,
        final(merged)@.last().start <= ranges@[idx as int].0,
        covered(final(merged)@, idx as int),
        forall|i: int| covered(old(merged)@, i) ==> #[trigger] covered(final(merged)@, i),
{
    let offset: u64 = ranges[idx].0;
    let len: usize = ranges[idx].1;
    assert(range_end(ranges@[idx as int]) <= u64::MAX);
    let end: u64 = offset + len as u64;
    let ghost before = merged@;
    if merged.len() > 0 {
        let last: usize = merged.len() - 1;
        let start: u64 = merged[last].start;
        let old_end: u64 = merged[last].end;
        let near: bool = offset <= old_end || offset - old_end <= COALESCE_GAP;
        if near && end - start <= COALESCE_MAX_RANGE {
            let mut range: MergedRange = merged.pop().unwrap();
            let ghost members = range.members@;
            assert(before[last as int].wf(ranges@));
            let ghost ending = choose|k: int| 0 <= k < members.len() && range_end(ranges@[#[trigger] members[k] as int]) == range.end;
            if end > range.end {
                range.end = end;
            }
            range.members.push(idx);
            assert(range.members@[members.len() as int] == idx);
            assert(range.members@[ending] == members[ending]);
            assert(range.wf(ranges@)) by {
                assert forall|j: int| 0 <= j < range.members@.len() implies (#[trigger] range.members@[j]) < ranges@.len()
                    && range.start <= ranges@[range.members@[j] as int].0 && range_end(ranges@[range.members@[j] as int])
                    <= range.end by {
                    if j < members.len() {
                        assert(range.members@[j] == members[j]);
                    }
                }
            }
            assert(range.members@[0] == members[0]);
            proof {
                lemma_stays_close(before[last as int], range, ranges@, idx);
            }
            merged.push(range);
            assert(merged@[last as int] == range);
            proof {
                assert(range.has(idx as int));
                lemma_grown(before, merged@, ranges@);
                assert forall|i: int| covered(before, i) implies #[trigger] covered(merged@, i) by {
                    let m = choose|m: int| 0 <= m < before.len() && (#[trigger] before[m]).has(i);
                    if m == last {
                        let q = choose|q: int| 0 <= q < members.len() && #[trigger] members[q] == i;
                        assert(range.members@[q] == i);
                        assert(merged@[last as int].has(i));
                    } else {
                        assert(merged@[m].has(i));
                    }
                }
            }
            return;
        }
    }
    let mut members: Vec<usize> = Vec::new();
    members.push(idx);
    let range = MergedRange { start: offset, end, members };
    assert(range.members@[0] == idx);
    assert(range_end(ranges@[range.members@[0] as int]) == range.end);
    assert(range.wf(ranges@));
    merged.push(range);
    proof {
        let after = merged@;
        assert(after[before.len() as int].has(idx as int));
        assert forall|i: int| covered(before, i) implies #[trigger] covered(after, i) by {
            let m = choose|m: int| 0 <= m < before.len() && (#[trigger] before[m]).has(i);
            assert(after[m].has(i));
        }
        assert forall|m: int|
            #![trigger after[m]]
            0 < m < after.len() implies after[m - 1].start <= after[m].start && !joins(
            after[m - 1].start as int,
            after[m - 1].end as int,
            ranges@[after[m].members@[0] as int],
        ) by {
            if m < before.len() {
                assert(after[m] == before[m] && after[m - 1] == before[m - 1]);
            }
        }
    }
}

/// Only the last merged range has grown.
proof fn lemma_grown(before: Seq<MergedRange>, after: Seq<MergedRange>, ranges: Seq<(u64, usize)>)
    requires
        apart(before, ranges),
        before.len() == after.len(),
        before.len() > 0,
        forall|m: int| 0 <= m < before.len() - 1 ==> #[trigger] after[m] == before[m],
        after.last().start == before.last().start,
        after.last().members@.len() > 0,
        after.last().members@[0] == before.last().members@[0],
    ensures
        apart(after, ranges),
{
    assert forall|m: int|
        #![trigger after[m]]
        0 < m < after.len() implies after[m - 1].start <= after[m].start && !joins(
        after[m - 1].start as int,
        after[m - 1].end as int,
        ranges[after[m].members@[0] as int],
    ) by {
        assert(after[m - 1] == before[m - 1]);
        assert(before[m].start == after[m].start);
    }
}

/// Merges ranges that are close to each other.
pub fn merge_ranges(ranges: &[(u64, usize)]) -> (merged: Vec<MergedRange>)
    requires
        ranges_ok(ranges@),
    ensures
        merged_ok(merged@, ranges@),
        all_covered(merged@, ranges@.len()),
        apart(merged@, ranges@),
{
    let order: Vec<usize> = sorted_by_offset(ranges);
    let mut merged: Vec<MergedRange> = Vec::new();
    let mut k: usize = 0;
    while k < order.len()
        invariant
            k <= order.len(),
            is_order(order@, ranges@.len()),
            by_offset(order@, ranges@),
            ranges_ok(ranges@),
            merged_ok(merged@, ranges@),
            apart(merged@, ranges@),
            merged@.len() > 0 ==> k > 0 && merged@.last().start <= ranges@[order@[k - 1] as int].0,
            forall|j: int| 0 <= j < k ==> covered(merged@, #[trigger] order@[j] as int),
        decreases order.len() - k,
    {
        proof {
            if k > 0 {
                assert(ranges@[order@[k - 1] as int].0 <= ranges@[order@[k as int] as int].0);
            }
        }
        let ghost before = merged@;
        add_range(&mut merged, ranges, order[k]);
        assert forall|j: int| 0 <= j < k + 1 implies covered(merged@, #[trigger] order@[j] as int) by {
            if j < k {
                assert(covered(before, order@[j] as int));
            }
        }
        k += 1;
    }
    assert(all_covered(merged@, ranges@.len())) by {
        assert forall|i: int| 0 <= i < ranges@.len() implies #[trigger] covered(merged@, i) by {
            assert(order@.contains(i as usize));
            let j = choose|j: int| 0 <= j < order@.len() && #[trigger] order@[j] == i as usize;
            assert(covered(merged@, order@[j] as int));
        }
    }
    merged
}

// ---------------------------------------------------------------- files

/// The ranges end before the limit.
pub open spec fn ranges_below(ranges: Seq<(u64, usize)>, limit: int) -> bool {
    forall|i: int| 0 <= i < ranges.len() ==> range_end(#[trigger] ranges[i]) <= limit
}

/// Merged ranges end where some range ends.
proof fn lemma_merged_below(merged: MergedRange, ranges: Seq<(u64, usize)>, limit: int)
    requires
        merged.wf(ranges),
        ranges_below(ranges, limit),
    ensures
        merged.end <= limit,
{
    let k = choose|k: int| 0 <= k < merged.members@.len() && range_end(ranges[#[trigger] merged.members@[k] as int]) == merged.end;
    assert(range_end(ranges[merged.members@[k] as int]) <= limit);
}

/// Each buffer holds the bytes of its range.
pub open spec fn ranges_read(contents: Seq<u8>, ranges: Seq<(u64, usize)>, buffers: Seq<Seq<u8>>) -> bool {
    &&& buffers.len() == ranges.len()
    &&& forall|i: int|
        #![trigger ranges[i]]
        #![trigger buffers[i]]
        0 <= i < ranges.len() ==> range_inside(contents, ranges[i]) && buffers[i] == range_bytes(contents, ranges[i])
}

pub open spec fn buffer_views(buffers: Seq<ReadRangeBuffer>) -> Seq<Seq<u8>> {
    Seq::new(buffers.len(), |i: int| buffers[i]@)
}

pub open spec fn vec_views(buffers: Seq<Vec<u8>>) -> Seq<Seq<u8>> {
    Seq::new(buffers.len(), |i: int| buffers[i]@)
}

/// A file that is read at any place. Reading may fail; it then says so with an input or output
/// error. The bytes of the file do not change while it is read.
pub trait InputFile: Sync {
    /// The bytes of the file. Every file that is verified says which they are.
    open spec fn contents(&self) -> Seq<u8> {
        Seq::empty()
    }

    /// The bytes that the file has can always be read.
    open spec fn never_fails(&self) -> bool {
        false
    }

    /// Fills `buf` with the bytes from `offset` on.
    fn read_at(&self, offset: u64, buf: &mut [u8]) -> (result: Result<(), Error>)
        ensures
            final(buf)@.len() == old(buf)@.len(),
            result is Ok ==> range_inside(self.contents(), (offset, old(buf)@.len() as usize)) && final(buf)@ == range_bytes(
                self.contents(),
                (offset, old(buf)@.len() as usize),
            ),
            result matches Err(e) ==> e is Io && !(self.never_fails() && range_inside(
                self.contents(),
                (offset, old(buf)@.len() as usize),
            )),
    ;

    /// Reads many ranges; those that are close to each other share their bytes.
    fn read_ranges_shared(&self, ranges: &[(u64, usize)]) -> (result: Result<Vec<ReadRangeBuffer>, Error>)
        requires
            ranges_ok(ranges@),
        ensures
            result matches Ok(buffers) ==> ranges_read(self.contents(), ranges@, buffer_views(buffers@)) && forall|i: int|
                0 <= i < buffers@.len() ==> (#[trigger] buffers@[i]).wf(),
            result matches Err(e) ==> e is Io && !(self.never_fails() && ranges_below(ranges@, self.contents().len() as int)),
    {
        let merged: Vec<MergedRange> = merge_ranges(ranges);
        let mut fetched: Vec<Vec<u8>> = Vec::new();
        let mut m: usize = 0;
        while m < merged.len()
            invariant
                m <= merged.len(),
                fetched@.len() == m,
                merged_ok(merged@, ranges@),
                forall|j: int|
                    0 <= j < m ==> (#[trigger] merged@[j]).end <= self.contents().len() && fetched@[j]@
                        == self.contents().subrange(merged@[j].start as int, merged@[j].end as int),
            decreases merged.len() - m,
        {
            assert(merged@[m as int].wf(ranges@));
            let mut buf: Vec<u8> = vec![0u8; merged[m].len()];
            match self.read_at(merged[m].start, buf.as_mut_slice()) {
                Ok(_) => {
                    fetched.push(buf);
                },
                Err(e) => {
                    proof {
                        if ranges_below(ranges@, self.contents().len() as int) {
                            lemma_merged_below(merged@[m as int], ranges@, self.contents().len() as int);
                        }
                    }
                    return Err(e);
                },
            }
            m += 1;
        }
        Ok(shared_ranges(ranges, merged, fetched, Ghost(self.contents())))
    }

    /// Reads many ranges.
    fn read_ranges(&self, ranges: &[(u64, usize)]) -> (result: Result<Vec<Vec<u8>>, Error>)
        requires
            ranges_ok(ranges@),
        ensures
            result matches Ok(buffers) ==> ranges_read(self.contents(), ranges@, vec_views(buffers@)),
            result matches Err(e) ==> e is Io && !(self.never_fails() && ranges_below(ranges@, self.contents().len() as int)),
    {
        let merged: Vec<MergedRange> = merge_ranges(ranges);
        let mut fetched: Vec<Vec<u8>> = Vec::new();
        let mut m: usize = 0;
        while m < merged.len()
            invariant
                m <= merged.len(),
                fetched@.len() == m,
                merged_ok(merged@, ranges@),
                forall|j: int|
                    0 <= j < m ==> (#[trigger] merged@[j]).end <= self.contents().len() && fetched@[j]@
                        == self.contents().subrange(merged@[j].start as int, merged@[j].end as int),
            decreases merged.len() - m,
        {
            assert(merged@[m as int].wf(ranges@));
            let mut buf: Vec<u8> = vec![0u8; merged[m].len()];
            match self.read_at(merged[m].start, buf.as_mut_slice()) {
                Ok(_) => {
                    fetched.push(buf);
                },
                Err(e) => {
                    proof {
                        if ranges_below(ranges@, self.contents().len() as int) {
                            lemma_merged_below(merged@[m as int], ranges@, self.contents().len() as int);
                        }
                    }
                    return Err(e);
                },
            }
            m += 1;
        }
        Ok(copied_ranges(ranges, merged, fetched, Ghost(self.contents())))
    }
}

/// Reads one range.
pub fn read_range<I: InputFile + ?Sized>(input: &I, offset: u64, len: usize) -> (result: Result<Vec<u8>, Error>)
    ensures
        result matches Ok(bytes) ==> range_inside(input.contents(), (offset, len)) && bytes@ == range_bytes(
            input.contents(),
            (offset, len),
        ),
        result matches Err(e) ==> e is Io && !(input.never_fails() && range_inside(input.contents(), (offset, len))),
{
    let mut buf: Vec<u8> = vec![0u8; len];
    match input.read_at(offset, buf.as_mut_slice()) {
        Ok(_) => Ok(buf),
        Err(e) => Err(e),
    }
}

/// The bytes of merged ranges.
pub open spec fn merged_read(contents: Seq<u8>, merged: Seq<MergedRange>, fetched: Seq<Seq<u8>>) -> bool {
    &&& fetched.len() == merged.len()
    &&& forall|m: int|
        0 <= m < merged.len() ==> (#[trigger] merged[m]).end <= contents.len() && fetched[m] == contents.subrange(
            merged[m].start as int,
            merged[m].end as int,
        )
}

/// Where a range stands in the merged ranges.
fn locate(merged: &Vec<MergedRange>, ranges: &[(u64, usize)]) -> (places: Vec<(usize, usize)>)
    requires
        merged_ok(merged@, ranges@),
        all_covered(merged@, ranges@.len()),
    ensures
        places@.len() == ranges@.len(),
        forall|i: int|
            0 <= i < ranges@.len() ==> (#[trigger] places@[i]).0 < merged@.len() && merged@[places@[i].0 as int].start
                + places@[i].1 == ranges@[i].0 && range_end(ranges@[i]) <= merged@[places@[i].0 as int].end,
{
    let mut places: Vec<(usize, usize)> = Vec::new();
    let mut i: usize = 0;
    while i < ranges.len()
        invariant
            i <= ranges.len(),
            places@.len() == i,
        decreases ranges.len() - i,
    {
        places.push((0, 0));
        i += 1;
    }
    let mut m: usize = 0;
    while m < merged.len()
        invariant
            m <= merged.len(),
            places@.len() == ranges@.len(),
            merged_ok(merged@, ranges@),
            forall|i: int, j: int|
                #![trigger merged@[j].has(i)]
                0 <= i < ranges@.len() && 0 <= j < m && merged@[j].has(i) ==> placed(merged@, ranges@, places@, i),
        decreases merged.len() - m,
    {
        assert(merged@[m as int].wf(ranges@));
        let mut k: usize = 0;
        while k < merged[m].members.len()
            invariant
                m < merged.len(),
                k <= merged@[m as int].members@.len(),
                places@.len() == ranges@.len(),
                merged_ok(merged@, ranges@),
                merged@[m as int].wf(ranges@),
                forall|i: int, j: int|
                    #![trigger merged@[j].has(i)]
                    0 <= i < ranges@.len() && 0 <= j < m && merged@[j].has(i) ==> placed(merged@, ranges@, places@, i),
                forall|q: int| 0 <= q < k ==> placed(merged@, ranges@, places@, #[trigger] merged@[m as int].members@[q] as int),
            decreases merged@[m as int].members@.len() - k,
        {
            let idx: usize = merged[m].members[k];
            let ghost before = places@;
            assert(idx < ranges@.len());
            let start: usize = (ranges[idx].0 - merged[m].start) as usize;
            places.set(idx, (m, start));
            assert(placed(merged@, ranges@, places@, idx as int));
            assert forall|i: int| placed(merged@, ranges@, before, i) && 0 <= i < ranges@.len() implies placed(
                merged@,
                ranges@,
                places@,
                i,
            ) by {
                if i != idx {
                    assert(places@[i] == before[i]);
                }
            }
            k += 1;
        }
        assert forall|i: int, j: int|
            #![trigger merged@[j].has(i)]
            0 <= i < ranges@.len() && 0 <= j < m + 1 && merged@[j].has(i) implies placed(merged@, ranges@, places@, i) by {
            if j == m {
                let q = choose|q: int| 0 <= q < merged@[m as int].members@.len() && #[trigger] merged@[m as int].members@[q] == i;
                assert(placed(merged@, ranges@, places@, merged@[m as int].members@[q] as int));
            }
        }
        m += 1;
    }
    assert forall|i: int| 0 <= i < ranges@.len() implies (#[trigger] places@[i]).0 < merged@.len() && merged@[places@[i].0 as int].start
        + places@[i].1 == ranges@[i].0 && range_end(ranges@[i]) <= merged@[places@[i].0 as int].end by {
        assert(covered(merged@, i));
        let j = choose|j: int| 0 <= j < merged@.len() && (#[trigger] merged@[j]).has(i);
        assert(merged@[j].has(i));
        assert(placed(merged@, ranges@, places@, i));
    }
    places
}

spec fn placed(merged: Seq<MergedRange>, ranges: Seq<(u64, usize)>, places: Seq<(usize, usize)>, i: int) -> bool {
    &&& places[i].0 < merged.len()
    &&& merged[places[i].0 as int].start + places[i].1 == ranges[i].0
    &&& range_end(ranges[i]) <= merged[places[i].0 as int].end
}

/// Hands the bytes of merged ranges out to the ranges that share them.
fn shared_ranges(
    ranges: &[(u64, usize)],
    merged: Vec<MergedRange>,
    fetched: Vec<Vec<u8>>,
    Ghost(contents): Ghost<Seq<u8>>,
) -> (buffers: Vec<ReadRangeBuffer>)
    requires
        merged_ok(merged@, ranges@),
        all_covered(merged@, ranges@.len()),
        merged_read(contents, merged@, vec_views(fetched@)),
    ensures
        ranges_read(contents, ranges@, buffer_views(buffers@)),
        forall|i: int| 0 <= i < buffers@.len() ==> (#[trigger] buffers@[i]).wf(),
{
    let ghost views = vec_views(fetched@);
    let places: Vec<(usize, usize)> = locate(&merged, ranges);
    let mut shared: Vec<Arc<Vec<u8>>> = Vec::new();
    let mut rest: Vec<Vec<u8>> = fetched;
    while rest.len() > 0
        invariant
            rest@.len() <= views.len(),
            shared@.len() == views.len() - rest@.len(),
            forall|k: int| 0 <= k < rest@.len() ==> #[trigger] rest@[k]@ == views[k],
            forall|k: int| 0 <= k < shared@.len() ==> (#[trigger] shared@[k])@ == views[views.len() - 1 - k],
        decreases rest.len(),
    {
        let bytes: Vec<u8> = rest.pop().unwrap();
        shared.push(Arc::new(bytes));
    }
    let mut buffers: Vec<ReadRangeBuffer> = Vec::new();
    let mut i: usize = 0;
    while i < ranges.len()
        invariant
            i <= ranges.len(),
            buffers@.len() == i,
            places@.len() == ranges@.len(),
            merged_read(contents, merged@, views),
            shared@.len() == views.len(),
            forall|k: int| 0 <= k < shared@.len() ==> (#[trigger] shared@[k])@ == views[views.len() - 1 - k],
            forall|i: int|
                0 <= i < ranges@.len() ==> (#[trigger] places@[i]).0 < merged@.len() && merged@[places@[i].0 as int].start
                    + places@[i].1 == ranges@[i].0 && range_end(ranges@[i]) <= merged@[places@[i].0 as int].end,
            forall|k: int| 0 <= k < i ==> (#[trigger] buffers@[k]).wf(),
            forall|k: int|
                #![trigger ranges@[k]]
                #![trigger buffers@[k]]
                0 <= k < i ==> range_inside(contents, ranges@[k]) && buffers@[k]@ == range_bytes(contents, ranges@[k]),
        decreases ranges.len() - i,
    {
        let place: (usize, usize) = places[i];
        let m: usize = place.0;
        assert(places@[i as int].0 < merged@.len());
        assert(merged@[m as int].end <= contents.len());
        let data: Arc<Vec<u8>> = share(&shared[shared.len() - 1 - m]);
        assert(data@ == views[m as int]);
        let buffer = ReadRangeBuffer { data, start: place.1, len: ranges[i].1 };
        assert(buffer@ =~= range_bytes(contents, ranges@[i as int]));
        buffers.push(buffer);
        i += 1;
    }
    assert forall|k: int|
        #![trigger ranges@[k]]
        #![trigger buffer_views(buffers@)[k]]
        0 <= k < ranges@.len() implies range_inside(contents, ranges@[k]) && buffer_views(buffers@)[k] == range_bytes(
        contents,
        ranges@[k],
    ) by {
        assert(buffers@[k]@ == range_bytes(contents, ranges@[k]));
    }
    buffers
}

/// Hands the bytes of merged ranges out as copies.
fn copied_ranges(
    ranges: &[(u64, usize)],
    merged: Vec<MergedRange>,
    fetched: Vec<Vec<u8>>,
    Ghost(contents): Ghost<Seq<u8>>,
) -> (buffers: Vec<Vec<u8>>)
    requires
        merged_ok(merged@, ranges@),
        all_covered(merged@, ranges@.len()),
        merged_read(contents, merged@, vec_views(fetched@)),
    ensures
        ranges_read(contents, ranges@, vec_views(buffers@)),
{
    let ghost views = vec_views(fetched@);
    let places: Vec<(usize, usize)> = locate(&merged, ranges);
    let mut buffers: Vec<Vec<u8>> = Vec::new();
    let mut i: usize = 0;
    while i < ranges.len()
        invariant
            i <= ranges.len(),
            buffers@.len() == i,
            places@.len() == ranges@.len(),
            views == vec_views(fetched@),
            merged_read(contents, merged@, views),
            forall|i: int|
                0 <= i < ranges@.len() ==> (#[trigger] places@[i]).0 < merged@.len() && merged@[places@[i].0 as int].start
                    + places@[i].1 == ranges@[i].0 && range_end(ranges@[i]) <= merged@[places@[i].0 as int].end,
            forall|k: int|
                #![trigger ranges@[k]]
                #![trigger buffers@[k]]
                0 <= k < i ==> range_inside(contents, ranges@[k]) && buffers@[k]@ == range_bytes(contents, ranges@[k]),
        decreases ranges.len() - i,
    {
        let place: (usize, usize) = places[i];
        let m: usize = place.0;
        assert(places@[i as int].0 < merged@.len());
        assert(merged@[m as int].end <= contents.len());
        assert(views[m as int] == fetched@[m as int]@);
        let total: usize = fetched[m].len();
        assert(total == merged@[m as int].end - merged@[m as int].start);
        let part: &[u8] = slice_subrange(fetched[m].as_slice(), place.1, place.1 + ranges[i].1);
        let bytes: Vec<u8> = vstd::slice::slice_to_vec(part);
        assert(bytes@ =~= range_bytes(contents, ranges@[i as int]));
        buffers.push(bytes);
        i += 1;
    }
    assert forall|k: int|
        #![trigger ranges@[k]]
        #![trigger vec_views(buffers@)[k]]
        0 <= k < ranges@.len() implies range_inside(contents, ranges@[k]) && vec_views(buffers@)[k] == range_bytes(
        contents,
        ranges@[k],
    ) by {
        assert(buffers@[k]@ == range_bytes(contents, ranges@[k]));
    }
    buffers
}

} // verus!
