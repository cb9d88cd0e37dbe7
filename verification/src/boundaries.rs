//! Chunk boundaries: half-open byte ranges laid end to end over a buffer, and
//! how they are obtained from the cut points that a boundary detector reports.

use vstd::prelude::*;

verus! {

/// The half-open byte range `[start, end)` of one chunk.
#[derive(Clone, Copy, Debug, PartialEq, Eq, Structural)]
pub struct ChunkRange {
    pub start: usize,
    pub end: usize,
}

impl ChunkRange {
    /// The number of bytes in the range.
    pub open spec fn size(self) -> int {
        self.end - self.start
    }
}

/// Each range ends where the next one starts.
pub open spec fn contiguous(ranges: Seq<ChunkRange>) -> bool {
    forall|i: int| 0 <= i < ranges.len() - 1 ==> (#[trigger] ranges[i]).end == ranges[i + 1].start
}

/// The ranges cover `[0, len)` exactly: the first starts at 0, the last ends
/// at `len`, and they follow one another without gap or overlap.
pub open spec fn covers(ranges: Seq<ChunkRange>, len: int) -> bool {
    &&& ranges.len() > 0
    &&& ranges.first().start == 0
    &&& ranges.last().end == len
    &&& contiguous(ranges)
    &&& forall|i: int| 0 <= i < ranges.len() ==> (#[trigger] ranges[i]).start <= ranges[i].end
}

/// No range is empty.
pub open spec fn all_nonempty(ranges: Seq<ChunkRange>) -> bool {
    forall|i: int| 0 <= i < ranges.len() ==> (#[trigger] ranges[i]).start < ranges[i].end
}

/// Some range starts at `offset`.
pub open spec fn has_start(ranges: Seq<ChunkRange>, offset: int) -> bool {
    exists|k: int| 0 <= k < ranges.len() && (#[trigger] ranges[k]).start == offset
}

/// The cut points never go backwards.
pub open spec fn nondecreasing(cuts: Seq<usize>) -> bool {
    forall|i: int, j: int| 0 <= i <= j < cuts.len() ==> cuts[i] <= cuts[j]
}

/// The cut points are the starts of the chunks of a buffer of `len` bytes:
/// the first is 0, each is larger than the one before, all lie below `len`.
pub open spec fn chunk_starts(cuts: Seq<usize>, len: int) -> bool {
    &&& cuts.len() > 0
    &&& cuts[0] == 0
    &&& forall|i: int, j: int| 0 <= i < j < cuts.len() ==> cuts[i] < cuts[j]
    &&& forall|i: int| 0 <= i < cuts.len() ==> cuts[i] < len
}

/// The ranges whose starts are `cuts`: each runs to the next cut point, the
/// last one to `len`.
pub open spec fn ranges_of_starts(cuts: Seq<usize>, len: usize) -> Seq<ChunkRange> {
    Seq::new(
        cuts.len(),
        |i: int|
            ChunkRange { start: cuts[i], end: if i + 1 < cuts.len() { cuts[i + 1] } else { len } },
    )
}

/// Every range lies within a buffer of `len` bytes.
pub open spec fn all_within(ranges: Seq<ChunkRange>, len: int) -> bool {
    forall|i: int| 0 <= i < ranges.len() ==> (#[trigger] ranges[i]).start <= ranges[i].end <= len
}

/// The bytes of the ranges, one range after the other.
pub open spec fn concat_ranges(buffer: Seq<u8>, ranges: Seq<ChunkRange>) -> Seq<u8>
    decreases ranges.len(),
{
    if ranges.len() == 0 {
        Seq::empty()
    } else {
        concat_ranges(buffer, ranges.drop_last()) + buffer.subrange(
            ranges.last().start as int,
            ranges.last().end as int,
        )
    }
}

/// Among ranges that follow one another, an earlier one neither starts nor
/// ends after a later one, and it ends before the later one starts: the
/// ranges are in ascending order and do not overlap.
pub proof fn lemma_covering_ranges_ascend(ranges: Seq<ChunkRange>, i: int, j: int)
    requires
        contiguous(ranges),
        forall|k: int| 0 <= k < ranges.len() ==> (#[trigger] ranges[k]).start <= ranges[k].end,
        0 <= i <= j < ranges.len(),
    ensures
        ranges[i].end <= ranges[j].end,
        ranges[i].start <= ranges[j].start,
        i < j ==> ranges[i].end <= ranges[j].start,
    decreases j - i,
{
    if i < j {
        lemma_covering_ranges_ascend(ranges, i, j - 1);
        assert(ranges[j - 1].end == ranges[(j - 1) + 1].start);
        assert(ranges[j].start <= ranges[j].end);
        assert(ranges[j - 1].start <= ranges[j - 1].end);
    }
}

/// Ranges that cover a buffer all lie within it, in ascending order.
pub proof fn lemma_covering_ranges_within(ranges: Seq<ChunkRange>, len: int)
    requires
        covers(ranges, len),
    ensures
        all_within(ranges, len),
        forall|i: int, j: int| 0 <= i <= j < ranges.len() ==> ranges[i].end <= ranges[j].end,
        forall|i: int, j: int| 0 <= i <= j < ranges.len() ==> ranges[i].start <= ranges[j].start,
        forall|i: int, j: int| 0 <= i < j < ranges.len() ==> ranges[i].end <= ranges[j].start,
{
    assert forall|i: int, j: int| 0 <= i <= j < ranges.len() implies ranges[i].end
        <= ranges[j].end && ranges[i].start <= ranges[j].start && (i < j ==> ranges[i].end
        <= ranges[j].start) by {
        lemma_covering_ranges_ascend(ranges, i, j);
    }
    assert forall|i: int| 0 <= i < ranges.len() implies (#[trigger] ranges[i]).start
        <= ranges[i].end <= len by {
        lemma_covering_ranges_ascend(ranges, i, ranges.len() - 1);
    }
}

/// The bytes of the first `k` of the ranges that cover a buffer are the
/// buffer up to the end of the last of them.
proof fn lemma_prefix_reconstructs(buffer: Seq<u8>, ranges: Seq<ChunkRange>, k: int)
    requires
        covers(ranges, buffer.len() as int),
        1 <= k <= ranges.len(),
    ensures
        concat_ranges(buffer, ranges.take(k)) == buffer.subrange(0, ranges[k - 1].end as int),
    decreases k,
{
    lemma_covering_ranges_within(ranges, buffer.len() as int);
    let head = ranges.take(k);
    assert(head.last() == ranges[k - 1]);
    assert(head.drop_last() =~= ranges.take(k - 1));
    if k == 1 {
        assert(concat_ranges(buffer, ranges.take(0)) =~= Seq::<u8>::empty());
        assert(ranges[0].start == 0);
        assert(concat_ranges(buffer, head) =~= buffer.subrange(0, ranges[0].end as int));
    } else {
        lemma_prefix_reconstructs(buffer, ranges, k - 1);
        assert(ranges[k - 2].end == ranges[(k - 2) + 1].start);
        assert(ranges[k - 2].start <= ranges[k - 2].end);
        assert(ranges[k - 1].start <= ranges[k - 1].end <= buffer.len());
        assert(buffer.subrange(0, ranges[k - 2].end as int) + buffer.subrange(
            ranges[k - 1].start as int,
            ranges[k - 1].end as int,
        ) =~= buffer.subrange(0, ranges[k - 1].end as int));
    }
}

/// Putting the bytes of covering ranges one after the other gives back the
/// buffer, byte for byte.
pub proof fn lemma_cover_reconstructs(buffer: Seq<u8>, ranges: Seq<ChunkRange>)
    requires
        covers(ranges, buffer.len() as int),
    ensures
        concat_ranges(buffer, ranges) == buffer,
{
    lemma_prefix_reconstructs(buffer, ranges, ranges.len() as int);
    assert(ranges.take(ranges.len() as int) =~= ranges);
    assert(buffer.subrange(0, buffer.len() as int) =~= buffer);
}

/// Among non-empty ranges that follow one another, a later range starts
/// after an earlier one.
proof fn lemma_starts_increase(ranges: Seq<ChunkRange>, i: int, j: int)
    requires
        contiguous(ranges),
        all_nonempty(ranges),
        0 <= i < j < ranges.len(),
    ensures
        ranges[i].start < ranges[j].start,
{
    assert forall|k: int| 0 <= k < ranges.len() implies (#[trigger] ranges[k]).start
        <= ranges[k].end by {
        assert(ranges[k].start < ranges[k].end);
    }
    lemma_covering_ranges_ascend(ranges, i, j);
    assert(ranges[i].start < ranges[i].end);
}

/// Two coverings by non-empty ranges with the same starts agree on the start
/// of their `k`-th range, and one has a `k`-th range if the other has.
proof fn lemma_same_starts_same_start(a: Seq<ChunkRange>, b: Seq<ChunkRange>, len: int, k: int)
    requires
        covers(a, len),
        covers(b, len),
        all_nonempty(a),
        all_nonempty(b),
        forall|x: int| has_start(a, x) <==> has_start(b, x),
        0 <= k < a.len(),
    ensures
        k < b.len(),
        a[k].start == b[k].start,
    decreases k,
{
    if k > 0 {
        lemma_same_starts_same_start(a, b, len, k - 1);
        // The k-th start of `a` is a start of `b`, at a place after k - 1.
        let t = a[k].start as int;
        lemma_starts_increase(a, k - 1, k);
        assert(has_start(a, t));
        let m = choose|m: int| 0 <= m < b.len() && (#[trigger] b[m]).start == t;
        if m <= k - 1 {
            if m < k - 1 {
                lemma_starts_increase(b, m, k - 1);
            }
            assert(false);
        }
        if m > k {
            lemma_starts_increase(b, k, m);
        }
        // The k-th start of `b` is a start of `a`, at a place after k - 1.
        let u = b[k].start as int;
        lemma_starts_increase(b, k - 1, k);
        assert(has_start(b, u));
        let n = choose|n: int| 0 <= n < a.len() && (#[trigger] a[n]).start == u;
        if n <= k - 1 {
            if n < k - 1 {
                lemma_starts_increase(a, n, k - 1);
            }
            assert(false);
        }
        if n > k {
            lemma_starts_increase(a, k, n);
        }
    }
}

/// Non-empty ranges that cover a buffer are fixed by where they start: two
/// such coverings of the same length with the same starts are equal.
pub proof fn lemma_starts_fix_cover(a: Seq<ChunkRange>, b: Seq<ChunkRange>, len: int)
    requires
        covers(a, len),
        covers(b, len),
        all_nonempty(a),
        all_nonempty(b),
        forall|x: int| has_start(a, x) <==> has_start(b, x),
    ensures
        a == b,
{
    lemma_same_starts_same_start(a, b, len, a.len() - 1);
    lemma_same_starts_same_start(b, a, len, b.len() - 1);
    assert(a.len() == b.len());
    assert forall|k: int| 0 <= k < a.len() implies a[k] == b[k] by {
        lemma_same_starts_same_start(a, b, len, k);
        if k + 1 < a.len() {
            lemma_same_starts_same_start(a, b, len, k + 1);
            assert(a[k].end == a[k + 1].start);
            assert(b[k].end == b[k + 1].start);
        }
    }
    assert(a =~= b);
}

/// Appending a non-empty range that starts where the ranges so far end keeps
/// them a covering, now up to the end of the new range.
proof fn lemma_extend_cover(before: Seq<ChunkRange>, added: ChunkRange)
    requires
        added.start < added.end,
        added.start == 0 ==> before.len() == 0,
        added.start > 0 ==> covers(before, added.start as int),
        all_nonempty(before),
    ensures
        covers(before.push(added), added.end as int),
        all_nonempty(before.push(added)),
{
    let after = before.push(added);
    assert(after.last() == added);
    assert forall|k: int| 0 <= k < after.len() - 1 implies (#[trigger] after[k]).end == after[k
        + 1].start by {
        if k < before.len() - 1 {
            assert(after[k] == before[k]);
            assert(after[k + 1] == before[k + 1]);
        } else {
            assert(after[k] == before.last());
            assert(after[k + 1] == added);
        }
    }
    if before.len() > 0 {
        assert(after.first() == before.first());
    }
    assert forall|k: int| 0 <= k < after.len() implies (#[trigger] after[k]).start
        < after[k].end by {
        if k < before.len() {
            assert(after[k] == before[k]);
        }
    }
}

/// Appending a range keeps every start there was and adds its own.
proof fn lemma_extend_starts(before: Seq<ChunkRange>, added: ChunkRange)
    ensures
        has_start(before.push(added), added.start as int),
        forall|x: int| has_start(before, x) ==> has_start(before.push(added), x),
        forall|k: int|
            0 <= k < before.len() ==> #[trigger] before.push(added)[k] == before[k],
        before.push(added)[before.len() as int] == added,
{
    let after = before.push(added);
    assert(after[before.len() as int].start == added.start);
    assert forall|x: int| has_start(before, x) implies has_start(after, x) by {
        let k = choose|k: int| 0 <= k < before.len() && (#[trigger] before[k]).start == x;
        assert(after[k].start == x);
    }
}

/// What holds of the ranges built from the first `i` cut points, the last of
/// which was `prev` (0 before the first): they cover the buffer up to `prev`,
/// none is empty, and their starts are 0 and the cut points seen so far that
/// lie strictly between 0 and `prev`.
#[verifier::opaque]
spec fn built(cuts: Seq<usize>, len: usize, i: int, prev: usize, ranges: Seq<ChunkRange>) -> bool {
    &&& 0 <= i <= cuts.len()
    &&& prev <= len
    &&& i == 0 ==> prev == 0
    &&& i > 0 ==> prev == cuts[i - 1]
    &&& prev == 0 ==> ranges.len() == 0
    &&& prev > 0 ==> covers(ranges, prev as int)
    &&& all_nonempty(ranges)
    &&& forall|k: int|
        0 <= k < ranges.len() ==> (#[trigger] ranges[k]).start == 0 || cuts.contains(
            ranges[k].start,
        )
    &&& forall|j: int| 0 <= j < i && 0 < cuts[j] < prev ==> has_start(ranges, #[trigger] cuts[j] as int)
    &&& chunk_starts(cuts, len as int) ==> {
        &&& ranges.len() == (if i == 0 {
            0
        } else {
            i - 1
        })
        &&& forall|k: int|
            0 <= k < ranges.len() ==> #[trigger] ranges[k] == (ChunkRange {
                start: cuts[k],
                end: cuts[k + 1],
            })
    }
}

/// Before any cut point is read, nothing is built.
proof fn lemma_built_first(cuts: Seq<usize>, len: usize)
    ensures
        built(cuts, len, 0, 0, Seq::empty()),
{
    reveal(built);
}

/// Reading the next cut point: one that repeats the last opens no range, a
/// larger one closes the range that began at the last.
proof fn lemma_built_next(cuts: Seq<usize>, len: usize, i: int, prev: usize, ranges: Seq<ChunkRange>)
    requires
        nondecreasing(cuts),
        forall|j: int| 0 <= j < cuts.len() ==> cuts[j] <= len,
        built(cuts, len, i, prev, ranges),
        i < cuts.len(),
    ensures
        prev <= cuts[i],
        cuts[i] == prev ==> built(cuts, len, i + 1, prev, ranges),
        cuts[i] > prev ==> built(
            cuts,
            len,
            i + 1,
            cuts[i],
            ranges.push(ChunkRange { start: prev, end: cuts[i] }),
        ),
{
    reveal(built);
    let end = cuts[i];
    if i > 0 {
        assert(cuts[i - 1] <= cuts[i]);
    }
    if end > prev {
        let added = ChunkRange { start: prev, end };
        let after = ranges.push(added);
        lemma_extend_cover(ranges, added);
        lemma_extend_starts(ranges, added);
        assert forall|k: int| 0 <= k < after.len() implies (#[trigger] after[k]).start == 0
            || cuts.contains(after[k].start) by {
            if k < ranges.len() {
                assert(after[k] == ranges[k]);
            } else if prev > 0 {
                assert(cuts[i - 1] == prev);
            }
        }
        assert forall|j: int| 0 <= j < i + 1 && 0 < cuts[j] < end implies has_start(
            after,
            #[trigger] cuts[j] as int,
        ) by {
            if cuts[j] < prev {
                assert(has_start(ranges, cuts[j] as int));
            } else {
                if j < i {
                    assert(cuts[j] <= cuts[i - 1]);
                }
                assert(cuts[j] == prev);
            }
        }
        if chunk_starts(cuts, len as int) {
            if i == 0 {
                assert(cuts[0] == 0);
                assert(false);
            }
            assert forall|k: int| 0 <= k < after.len() implies #[trigger] after[k] == (ChunkRange {
                start: cuts[k],
                end: cuts[k + 1],
            }) by {
                if k < ranges.len() {
                    assert(after[k] == ranges[k]);
                }
            }
        }
    } else {
        if chunk_starts(cuts, len as int) && i > 0 {
            assert(cuts[i - 1] < cuts[i]);
        }
    }
}

/// `ranges` are the chunk ranges that the cut points `cuts` give on a buffer
/// of `len` bytes.
pub open spec fn ranges_follow_cuts(cuts: Seq<usize>, len: usize, ranges: Seq<ChunkRange>) -> bool {
    &&& len == 0 ==> ranges.len() == 0
    &&& len > 0 ==> covers(ranges, len as int)
    &&& all_nonempty(ranges)
    &&& forall|k: int|
        0 <= k < ranges.len() ==> (#[trigger] ranges[k]).start == 0 || cuts.contains(
            ranges[k].start,
        )
    &&& forall|j: int|
        0 <= j < cuts.len() && 0 < cuts[j] < len ==> has_start(ranges, #[trigger] cuts[j] as int)
    &&& chunk_starts(cuts, len as int) ==> ranges == ranges_of_starts(cuts, len)
}

/// After the last cut point, what is left of the buffer becomes the final
/// range, and the ranges are complete.
proof fn lemma_built_last(cuts: Seq<usize>, len: usize, prev: usize, ranges: Seq<ChunkRange>)
    requires
        nondecreasing(cuts),
        forall|j: int| 0 <= j < cuts.len() ==> cuts[j] <= len,
        built(cuts, len, cuts.len() as int, prev, ranges),
    ensures
        prev <= len,
        prev < len ==> ranges_follow_cuts(cuts, len, ranges.push(ChunkRange { start: prev, end: len })),
        prev == len ==> ranges_follow_cuts(cuts, len, ranges),
{
    reveal(built);
    let n = cuts.len() as int;
    if prev < len {
        let added = ChunkRange { start: prev, end: len };
        let done = ranges.push(added);
        lemma_extend_cover(ranges, added);
        lemma_extend_starts(ranges, added);
        assert forall|k: int| 0 <= k < done.len() implies (#[trigger] done[k]).start == 0
            || cuts.contains(done[k].start) by {
            if k < ranges.len() {
                assert(done[k] == ranges[k]);
            } else if prev > 0 {
                assert(cuts[n - 1] == prev);
            }
        }
        assert forall|j: int| 0 <= j < cuts.len() && 0 < cuts[j] < len implies has_start(
            done,
            #[trigger] cuts[j] as int,
        ) by {
            if cuts[j] < prev {
                assert(has_start(ranges, cuts[j] as int));
            } else {
                assert(cuts[j] <= cuts[n - 1]);
                assert(cuts[j] == prev);
            }
        }
        if chunk_starts(cuts, len as int) {
            assert(done =~= ranges_of_starts(cuts, len));
        }
    } else {
        assert forall|j: int| 0 <= j < cuts.len() && 0 < cuts[j] < len implies has_start(
            ranges,
            #[trigger] cuts[j] as int,
        ) by {
            assert(has_start(ranges, cuts[j] as int));
        }
        if chunk_starts(cuts, len as int) {
            assert(cuts[n - 1] < len);
        }
    }
}

/// Turns the cut points reported for a buffer of `len` bytes into chunk
/// ranges. A range runs from one cut point to the next; a cut point equal to
/// the one before it opens no range, and what is left after the last cut point
/// becomes the final range.
///
/// For `len > 0` the ranges cover the buffer and none is empty; their starts
/// are 0 and the cut points that lie strictly between 0 and `len`, which fixes
/// them completely (`lemma_starts_fix_cover`). An empty buffer has no ranges.
pub fn ranges_from_cuts(cuts: &Vec<usize>, len: usize) -> (ranges: Vec<ChunkRange>)
    requires
        nondecreasing(cuts@),
        forall|i: int| 0 <= i < cuts@.len() ==> cuts@[i] <= len,
    ensures
        ranges_follow_cuts(cuts@, len, ranges@),
{
    let mut ranges: Vec<ChunkRange> = Vec::new();
    let mut prev: usize = 0;
    let mut i: usize = 0;
    proof {
        lemma_built_first(cuts@, len);
    }
    while i < cuts.len()
        invariant
            i <= cuts@.len(),
            nondecreasing(cuts@),
            forall|j: int| 0 <= j < cuts@.len() ==> cuts@[j] <= len,
            built(cuts@, len, i as int, prev, ranges@),
        decreases cuts@.len() - i,
    {
        let end = cuts[i];
        proof {
            lemma_built_next(cuts@, len, i as int, prev, ranges@);
        }
        if end > prev {
            ranges.push(ChunkRange { start: prev, end });
        }
        prev = end;
        i += 1;
    }
    proof {
        lemma_built_last(cuts@, len, prev, ranges@);
    }
    if prev < len {
        ranges.push(ChunkRange { start: prev, end: len });
    }
    ranges
}

} // verus!
