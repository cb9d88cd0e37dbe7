//! The pipeline: chunk a buffer, then fingerprint every chunk, in the order
//! in which the chunks lie in the buffer.

use crate::boundaries::{
    all_within, lemma_covering_ranges_ascend, lemma_covering_ranges_within, ChunkRange,
};
use crate::chunker::{chunk, chunk_ranges, sizes_are_usable, sizes_usable};
use crate::error::ChunkError;
use crate::fingerprint::{fingerprint, fingerprint_of};
use vstd::prelude::*;
use vstd::slice::slice_subrange;

verus! {

/// One chunk of a processed buffer: where it starts and the fingerprint of
/// its bytes.
#[derive(Clone, Debug, PartialEq, Eq)]
pub struct ChunkResult {
    pub offset: usize,
    pub fingerprint: String,
}

impl View for ChunkResult {
    type V = (usize, Seq<char>);

    open spec fn view(&self) -> (usize, Seq<char>) {
        (self.offset, self.fingerprint@)
    }
}

impl DeepView for ChunkResult {
    type V = (usize, Seq<char>);

    open spec fn deep_view(&self) -> (usize, Seq<char>) {
        self@
    }
}

/// The bytes of `buffer` that lie in `range`.
pub open spec fn chunk_bytes(buffer: Seq<u8>, range: ChunkRange) -> Seq<u8> {
    buffer.subrange(range.start as int, range.end as int)
}

/// The result for one range of `buffer`.
pub open spec fn result_of(buffer: Seq<u8>, range: ChunkRange) -> (usize, Seq<char>) {
    (range.start, fingerprint_of(chunk_bytes(buffer, range)))
}

/// The results for `ranges` of `buffer`, one per range and in the same order.
pub open spec fn results_of(buffer: Seq<u8>, ranges: Seq<ChunkRange>) -> Seq<(usize, Seq<char>)> {
    Seq::new(ranges.len(), |i: int| result_of(buffer, ranges[i]))
}

/// What processing `buffer` with the given sizes yields.
pub open spec fn process_output(buffer: Seq<u8>, min: usize, avg: usize, max: usize) -> Seq<
    (usize, Seq<char>),
> {
    results_of(buffer, chunk_ranges(buffer, min, avg, max))
}

/// Fingerprints the bytes of one range. This is the whole work of one chunk
/// and touches nothing but the buffer, so ranges can be handled in any order
/// or side by side.
pub fn fingerprint_range(buffer: &[u8], range: ChunkRange) -> (result: ChunkResult)
    requires
        range.start <= range.end <= buffer@.len(),
    ensures
        result@ == result_of(buffer@, range),
        result.offset == range.start,
        result.fingerprint@.len() == 64,
{
    let bytes = slice_subrange(buffer, range.start, range.end);
    ChunkResult { offset: range.start, fingerprint: fingerprint(bytes) }
}

/// Fingerprints every range, keeping the order of the ranges.
pub fn fingerprint_ranges(buffer: &[u8], ranges: &Vec<ChunkRange>) -> (results: Vec<ChunkResult>)
    requires
        all_within(ranges@, buffer@.len() as int),
    ensures
        results.deep_view() == results_of(buffer@, ranges@),
        results@.len() == ranges@.len(),
        forall|i: int| 0 <= i < results@.len() ==> (#[trigger] results@[i]).offset == ranges@[i].start,
{
    let mut results: Vec<ChunkResult> = Vec::new();
    let mut i: usize = 0;
    while i < ranges.len()
        invariant
            i <= ranges@.len(),
            all_within(ranges@, buffer@.len() as int),
            results@.len() == i,
            forall|k: int| 0 <= k < i ==> (#[trigger] results@[k])@ == result_of(buffer@, ranges@[k]),
        decreases ranges@.len() - i,
    {
        let range = ranges[i];
        assert(ranges@[i as int].start <= ranges@[i as int].end <= buffer@.len());
        let result = fingerprint_range(buffer, range);
        results.push(result);
        i += 1;
    }
    proof {
        assert(results.deep_view() =~= results_of(buffer@, ranges@));
    }
    results
}

/// Identical bytes and sizes give identical chunk ranges and identical
/// results, whatever else differs between two runs.
pub proof fn lemma_same_input_same_output(
    first: Seq<u8>,
    second: Seq<u8>,
    min: usize,
    avg: usize,
    max: usize,
)
    requires
        first.len() == second.len(),
        forall|i: int| 0 <= i < first.len() ==> first[i] == second[i],
    ensures
        chunk_ranges(first, min, avg, max) == chunk_ranges(second, min, avg, max),
        process_output(first, min, avg, max) == process_output(second, min, avg, max),
{
    assert(first =~= second);
}

/// A run of bytes has one fingerprint, wherever it lies: two ranges, in the
/// same buffer or in two buffers, that hold the same bytes get the same
/// fingerprint. A chunk that an edit elsewhere leaves untouched therefore
/// keeps its fingerprint even if its offset moves.
pub proof fn lemma_same_bytes_same_fingerprint(
    first: Seq<u8>,
    first_range: ChunkRange,
    second: Seq<u8>,
    second_range: ChunkRange,
)
    requires
        chunk_bytes(first, first_range) == chunk_bytes(second, second_range),
    ensures
        result_of(first, first_range).1 == result_of(second, second_range).1,
{
}

/// Every per-chunk outcome is a success.
pub open spec fn all_succeeded(outcomes: Seq<Result<ChunkResult, ChunkError>>) -> bool {
    forall|i: int| 0 <= i < outcomes.len() ==> (#[trigger] outcomes[i]) is Ok
}

/// Gathers the outcomes of the per-chunk tasks, given in the order of the
/// chunks, into the outcome of the run. The run succeeds only if every task
/// did, and then holds the results in that same order; otherwise it fails
/// with the failure of the first chunk that has one, whatever became of the
/// chunks after it.
pub fn collect_outcomes(outcomes: Vec<Result<ChunkResult, ChunkError>>) -> (outcome: Result<
    Vec<ChunkResult>,
    ChunkError,
>)
    ensures
        outcome is Ok <==> all_succeeded(outcomes@),
        outcome matches Ok(results) ==> {
            &&& results@.len() == outcomes@.len()
            &&& forall|i: int| 0 <= i < results@.len() ==> outcomes@[i] == Ok::<
                ChunkResult,
                ChunkError,
            >(#[trigger] results@[i])
        },
        outcome matches Err(e) ==> exists|first: int|
            {
                &&& 0 <= first < outcomes@.len()
                &&& #[trigger] outcomes@[first] == Err::<ChunkResult, ChunkError>(e)
                &&& forall|k: int| 0 <= k < first ==> (#[trigger] outcomes@[k]) is Ok
            },
{
    let ghost all = outcomes@;
    let mut results: Vec<ChunkResult> = Vec::new();
    for item in it: outcomes
        invariant
            it.seq() == all,
            results@.len() == it.index(),
            forall|k: int| 0 <= k < it.index() ==> all[k] == Ok::<ChunkResult, ChunkError>(
                #[trigger] results@[k],
            ),
    {
        match item {
            Ok(result) => {
                results.push(result);
            },
            Err(e) => {
                proof {
                    let first = it.index();
                    assert(all[first] == Err::<ChunkResult, ChunkError>(e));
                    assert forall|k: int| 0 <= k < first implies (#[trigger] all[k]) is Ok by {
                        assert(all[k] == Ok::<ChunkResult, ChunkError>(results@[k]));
                    }
                }
                return Err(e);
            },
        }
    }
    proof {
        assert forall|i: int| 0 <= i < all.len() implies (#[trigger] all[i]) is Ok by {
            assert(all[i] == Ok::<ChunkResult, ChunkError>(results@[i]));
        }
    }
    Ok(results)
}

/// Chunks `buffer` and fingerprints every chunk.
///
/// The sizes are looked at before anything else: unless they are in order
/// and, where the buffer is long enough to need the detector, supported by
/// it, the run is refused as a configuration error. Otherwise there is one
/// result per chunk, in ascending order of offset, and the results are a
/// function of the bytes and the sizes alone.
pub fn process(buffer: &[u8], min: usize, avg: usize, max: usize) -> (outcome: Result<
    Vec<ChunkResult>,
    ChunkError,
>)
    ensures
        outcome is Ok <==> sizes_usable(buffer@.len() as usize, min, avg, max),
        outcome matches Err(e) ==> e == ChunkError::Configuration,
        outcome matches Ok(results) ==> {
            &&& results.deep_view() == process_output(buffer@, min, avg, max)
            &&& results@.len() >= 1
            &&& buffer@.len() < min ==> results@.len() == 1
            &&& results@[0].offset == 0
            &&& forall|i: int, j: int|
                0 <= i < j < results@.len() ==> results@[i].offset <= results@[j].offset
            &&& buffer@.len() > 0 ==> forall|i: int, j: int|
                0 <= i < j < results@.len() ==> results@[i].offset < results@[j].offset
            &&& buffer@.len() < min ==> results.deep_view() == seq![(0usize, fingerprint_of(buffer@))]
            &&& forall|i: int|
                0 <= i < results@.len() - 1 ==> min <= results@[i + 1].offset
                    - (#[trigger] results@[i]).offset <= max
            &&& buffer@.len() - results@.last().offset <= max
        },
{
    if !sizes_are_usable(buffer.len(), min, avg, max) {
        return Err(ChunkError::Configuration);
    }
    let ranges = chunk(buffer, min, avg, max);
    proof {
        lemma_covering_ranges_within(ranges@, buffer@.len() as int);
    }
    let results = fingerprint_ranges(buffer, &ranges);
    proof {
        assert forall|i: int, j: int| 0 <= i < j < results@.len() implies results@[i].offset
            <= results@[j].offset by {
            assert(ranges@[i].start <= ranges@[j].start);
        }
        if buffer@.len() > 0 {
            assert forall|i: int, j: int| 0 <= i < j < results@.len() implies results@[i].offset
                < results@[j].offset by {
                lemma_covering_ranges_ascend(ranges@, i, j);
                assert(ranges@[i].start < ranges@[i].end);
            }
        }
        assert forall|i: int| 0 <= i < results@.len() - 1 implies min <= results@[i + 1].offset
            - (#[trigger] results@[i]).offset <= max by {
            assert(ranges@[i].end == ranges@[i + 1].start);
            assert(min <= ranges@[i].size() <= max);
        }
        assert(ranges@.last().size() <= max);
        if buffer@.len() < min {
            assert(buffer@.subrange(0, buffer@.len() as int) =~= buffer@);
            assert(results.deep_view() =~= seq![(0usize, fingerprint_of(buffer@))]);
        }
    }
    Ok(results)
}

} // verus!
