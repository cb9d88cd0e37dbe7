//! The boundary detector: FastCDC, a gear-based rolling hash that reports
//! where the chunks of a buffer start. Its table and masks are those of the
//! `fastcdc` crate, so cut points stay stable for as long as that crate is
//! held at the same major version.

use fastcdc::FastCDC;
use vstd::prelude::*;

verus! {

/// Smallest minimum chunk size the detector accepts.
pub const MIN_SIZE_FLOOR: usize = 64;

/// Largest minimum chunk size the detector accepts.
pub const MIN_SIZE_CEILING: usize = 67_108_864;

/// Smallest average chunk size the detector accepts.
pub const AVG_SIZE_FLOOR: usize = 256;

/// Largest average chunk size the detector accepts.
pub const AVG_SIZE_CEILING: usize = 268_435_456;

/// Smallest maximum chunk size the detector accepts.
pub const MAX_SIZE_FLOOR: usize = 1024;

/// Largest maximum chunk size the detector accepts.
pub const MAX_SIZE_CEILING: usize = 1_073_741_824;

/// The sizes lie within the limits outside of which the detector refuses to
/// be constructed.
pub open spec fn detector_supports(min: usize, avg: usize, max: usize) -> bool {
    &&& MIN_SIZE_FLOOR <= min <= MIN_SIZE_CEILING
    &&& AVG_SIZE_FLOOR <= avg <= AVG_SIZE_CEILING
    &&& MAX_SIZE_FLOOR <= max <= MAX_SIZE_CEILING
}

/// The offsets at which FastCDC starts a chunk when it walks `buffer` with the
/// given sizes, in the order in which it reports them.
pub uninterp spec fn detector_cuts(buffer: Seq<u8>, min: usize, avg: usize, max: usize) -> Seq<usize>;

/// What the detector's cut points look like on a buffer of `len` bytes: on a
/// non-empty buffer the first is 0, and all lie below `len`; two neighbours
/// are at least `min` and at most `max` apart, and at most `max` bytes follow
/// the last one.
pub open spec fn evenly_cut(cuts: Seq<usize>, len: int, min: int, max: int) -> bool {
    &&& len > 0 ==> cuts.len() > 0 && cuts[0] == 0
    &&& forall|i: int| 0 <= i < cuts.len() ==> cuts[i] < len
    &&& forall|i: int| 0 <= i < cuts.len() - 1 ==> min <= cuts[i + 1] - #[trigger] cuts[i] <= max
    &&& cuts.len() > 0 ==> len - cuts.last() <= max
}

/// Runs `fastcdc::FastCDC::new` over `buffer` and collects the `offset` of
/// every chunk the iterator yields.
///
/// Trusted, as read from the crate's source: the offsets depend on the bytes
/// and the three sizes alone. On a non-empty buffer the first chunk starts at
/// offset 0, every chunk starts where the one before it ends, and the last one
/// ends with the buffer. A chunk that another one follows was cut where more
/// than `min` bytes were left, so it is at least `min` bytes long, and no
/// chunk is longer than `max`. The constructor panics on sizes outside its
/// limits; those are left out here.
#[verifier::external_body]
pub(crate) fn detect_cuts(buffer: &[u8], min: usize, avg: usize, max: usize) -> (cuts: Vec<usize>)
    requires
        detector_supports(min, avg, max),
        min <= avg <= max,
    ensures
        cuts@ == detector_cuts(buffer@, min, avg, max),
        evenly_cut(cuts@, buffer@.len() as int, min as int, max as int),
{
    FastCDC::new(buffer, min, avg, max).map(|entry| entry.offset).collect()
}

/// Whether the detector can be run with these sizes.
pub fn supports_sizes(min: usize, avg: usize, max: usize) -> (ok: bool)
    ensures
        ok == detector_supports(min, avg, max),
{
    MIN_SIZE_FLOOR <= min && min <= MIN_SIZE_CEILING && AVG_SIZE_FLOOR <= avg && avg
        <= AVG_SIZE_CEILING && MAX_SIZE_FLOOR <= max && max <= MAX_SIZE_CEILING
}

} // verus!
