//! The chunker: from a buffer and three sizes to the ranges of its chunks.

use crate::boundaries::{
    all_nonempty, chunk_starts, covers, nondecreasing, ranges_from_cuts, ranges_of_starts,
    ChunkRange,
};
use crate::detector::{detect_cuts, detector_cuts, detector_supports, evenly_cut, supports_sizes};
use vstd::prelude::*;

verus! {

/// The sizes are positive and in order: `0 < min <= avg <= max`.
pub open spec fn sizes_in_order(min: usize, avg: usize, max: usize) -> bool {
    0 < min <= avg <= max
}

/// The sizes can be used on a buffer of `len` bytes: they are in order, and
/// where the buffer is long enough to need the detector, the detector
/// supports them.
pub open spec fn sizes_usable(len: usize, min: usize, avg: usize, max: usize) -> bool {
    &&& sizes_in_order(min, avg, max)
    &&& len >= min ==> detector_supports(min, avg, max)
}

/// The chunk ranges of `buffer`: the whole buffer as one range where it is
/// shorter than `min`, else one range per cut point of the detector.
pub open spec fn chunk_ranges(buffer: Seq<u8>, min: usize, avg: usize, max: usize) -> Seq<ChunkRange> {
    if buffer.len() < min {
        seq![ChunkRange { start: 0, end: buffer.len() as usize }]
    } else {
        ranges_of_starts(detector_cuts(buffer, min, avg, max), buffer.len() as usize)
    }
}

/// Tells whether `chunk` can be called with these sizes on a buffer of `len`
/// bytes.
pub fn sizes_are_usable(len: usize, min: usize, avg: usize, max: usize) -> (ok: bool)
    ensures
        ok == sizes_usable(len, min, avg, max),
{
    0 < min && min <= avg && avg <= max && (len < min || supports_sizes(min, avg, max))
}

/// Splits `buffer` into content-defined chunks.
///
/// A buffer shorter than `min` is one chunk. Otherwise the detector's cut
/// points give the chunks: they cover the buffer without gap or overlap in
/// ascending order, none is empty, none is longer than `max`, and all but the
/// last are at least `min` long. The result is a function of the bytes and
/// the sizes alone.
pub fn chunk(buffer: &[u8], min: usize, avg: usize, max: usize) -> (ranges: Vec<ChunkRange>)
    requires
        sizes_usable(buffer@.len() as usize, min, avg, max),
    ensures
        ranges@ == chunk_ranges(buffer@, min, avg, max),
        covers(ranges@, buffer@.len() as int),
        buffer@.len() > 0 ==> all_nonempty(ranges@),
        buffer@.len() < min ==> ranges@ == seq![ChunkRange { start: 0, end: buffer@.len() as usize }],
        forall|i: int| 0 <= i < ranges@.len() ==> (#[trigger] ranges@[i]).size() <= max,
        forall|i: int| 0 <= i < ranges@.len() - 1 ==> min <= (#[trigger] ranges@[i]).size(),
{
    let len = buffer.len();
    if len < min {
        let mut ranges: Vec<ChunkRange> = Vec::new();
        ranges.push(ChunkRange { start: 0, end: len });
        proof {
            assert(ranges@ =~= seq![ChunkRange { start: 0, end: len }]);
        }
        return ranges;
    }
    let cuts = detect_cuts(buffer, min, avg, max);
    proof {
        lemma_evenly_cut_are_starts(cuts@, len as int, min as int, max as int);
    }
    let ranges = ranges_from_cuts(&cuts, len);
    ranges
}

/// Cut points that are evenly cut with a positive `min` on a non-empty buffer
/// are chunk starts, and never go backwards.
proof fn lemma_evenly_cut_are_starts(cuts: Seq<usize>, len: int, min: int, max: int)
    requires
        evenly_cut(cuts, len, min, max),
        0 < min,
        0 < len,
    ensures
        chunk_starts(cuts, len),
        nondecreasing(cuts),
{
    assert forall|i: int, j: int| 0 <= i < j < cuts.len() implies cuts[i] < cuts[j] by {
        lemma_gap(cuts, min, max, i, j);
    }
}

/// Between two positions of cut points whose neighbours are at least `min`
/// apart, the later cut point is the larger one.
proof fn lemma_gap(cuts: Seq<usize>, min: int, max: int, i: int, j: int)
    requires
        forall|k: int| 0 <= k < cuts.len() - 1 ==> min <= cuts[k + 1] - #[trigger] cuts[k] <= max,
        0 < min,
        0 <= i < j < cuts.len(),
    ensures
        cuts[i] < cuts[j],
    decreases j - i,
{
    if j == i + 1 {
        assert(min <= cuts[i + 1] - cuts[i]);
    } else {
        lemma_gap(cuts, min, max, i, j - 1);
        assert(min <= cuts[(j - 1) + 1] - cuts[j - 1]);
    }
}

} // verus!
