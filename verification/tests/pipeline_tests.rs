use content_chunker::boundaries::ChunkRange;
use content_chunker::chunker::chunk;
use content_chunker::error::ChunkError;
use content_chunker::fingerprint::fingerprint;
use content_chunker::pipeline::{
    collect_outcomes, fingerprint_range, fingerprint_ranges, process, ChunkResult,
};
use std::collections::HashMap;

/// Bytes from a fixed linear congruential generator.
fn random_bytes(len: usize, seed: u64) -> Vec<u8> {
    let mut state: u64 = seed;
    let mut out: Vec<u8> = Vec::with_capacity(len);
    for _ in 0..len {
        state = state.wrapping_mul(6364136223846793005).wrapping_add(1442695040888963407);
        out.push((state >> 33) as u8);
    }
    out
}

fn result(offset: usize, text: &str) -> ChunkResult {
    ChunkResult { offset, fingerprint: String::from(text) }
}

#[test]
fn small_buffer_yields_one_result_for_the_whole_buffer() {
    let results = process(b"hello world", 4096, 8192, 16384).unwrap();
    assert_eq!(
        results,
        vec![result(0, "b94d27b9934d3e08a52e52d7da7dabfac484efe37a5380ee9088f7ace2efcde9")]
    );
}

#[test]
fn empty_buffer_yields_the_fingerprint_of_nothing() {
    let results = process(b"", 4096, 8192, 16384).unwrap();
    assert_eq!(
        results,
        vec![result(0, "e3b0c44298fc1c149afbf4c8996fb92427ae41e4649b934ca495991b7852b855")]
    );
}

#[test]
fn sizes_out_of_order_are_refused() {
    let buffer: Vec<u8> = random_bytes(50_000, 1);
    assert_eq!(process(&buffer, 0, 8192, 16384), Err(ChunkError::Configuration));
    assert_eq!(process(&buffer, 8192, 4096, 16384), Err(ChunkError::Configuration));
    assert_eq!(process(&buffer, 4096, 16384, 8192), Err(ChunkError::Configuration));
    assert_eq!(process(&buffer, 16384, 8192, 4096), Err(ChunkError::Configuration));
}

#[test]
fn sizes_out_of_order_are_refused_on_a_small_buffer_too() {
    assert_eq!(process(b"abc", 0, 0, 0), Err(ChunkError::Configuration));
    assert_eq!(process(b"abc", 8192, 4096, 16384), Err(ChunkError::Configuration));
    assert_eq!(process(b"", 4096, 16384, 8192), Err(ChunkError::Configuration));
}

#[test]
fn sizes_the_detector_cannot_take_are_refused_when_it_is_needed() {
    let buffer: Vec<u8> = random_bytes(1000, 2);
    assert_eq!(process(&buffer, 10, 20, 30), Err(ChunkError::Configuration));
    assert_eq!(process(&buffer, 64, 128, 1024), Err(ChunkError::Configuration));
    assert!(process(&buffer, 64, 256, 1024).is_ok());
    assert!(process(&buffer, 1001, 2000, 3000).is_ok());
}

#[test]
fn one_result_per_chunk_in_offset_order() {
    let buffer: Vec<u8> = random_bytes(400_000, 3);
    let ranges = chunk(&buffer, 2048, 8192, 32768);
    let results = process(&buffer, 2048, 8192, 32768).unwrap();
    assert_eq!(results.len(), ranges.len());
    assert!(results.len() > 3);
    for (r, range) in results.iter().zip(ranges.iter()) {
        assert_eq!(r.offset, range.start);
        assert_eq!(r.fingerprint, fingerprint(&buffer[range.start..range.end]));
    }
    assert_eq!(results[0].offset, 0);
    for pair in results.windows(2) {
        assert!(pair[0].offset < pair[1].offset);
    }
}

#[test]
fn offsets_are_between_min_and_max_apart() {
    let buffer: Vec<u8> = random_bytes(600_000, 14);
    let min: usize = 1024;
    let avg: usize = 4096;
    let max: usize = 8192;
    let results = process(&buffer, min, avg, max).unwrap();
    assert!(results.len() > 3);
    for pair in results.windows(2) {
        let size: usize = pair[1].offset - pair[0].offset;
        assert!(min <= size && size <= max);
    }
    let last: usize = buffer.len() - results[results.len() - 1].offset;
    assert!(0 < last && last <= max);
}

#[test]
fn processing_twice_gives_the_same_results() {
    let buffer: Vec<u8> = random_bytes(300_000, 4);
    let first = process(&buffer, 4096, 8192, 16384).unwrap();
    let second = process(&buffer.clone(), 4096, 8192, 16384).unwrap();
    assert_eq!(first, second);
}

#[test]
fn fingerprint_range_names_the_bytes_of_the_range() {
    let buffer: &[u8] = b"xxabcxx";
    let r = fingerprint_range(buffer, ChunkRange { start: 2, end: 5 });
    assert_eq!(
        r,
        result(2, "ba7816bf8f01cfea414140de5dae2223b00361a396177a9cb410ff61f20015ad")
    );
}

#[test]
fn fingerprint_range_of_an_empty_range() {
    let r = fingerprint_range(b"abc", ChunkRange { start: 3, end: 3 });
    assert_eq!(
        r,
        result(3, "e3b0c44298fc1c149afbf4c8996fb92427ae41e4649b934ca495991b7852b855")
    );
}

#[test]
fn fingerprint_ranges_keeps_the_order_of_the_ranges() {
    let buffer: &[u8] = b"abchello world";
    let ranges: Vec<ChunkRange> =
        vec![ChunkRange { start: 3, end: 14 }, ChunkRange { start: 0, end: 3 }];
    let results = fingerprint_ranges(buffer, &ranges);
    assert_eq!(
        results,
        vec![
            result(3, "b94d27b9934d3e08a52e52d7da7dabfac484efe37a5380ee9088f7ace2efcde9"),
            result(0, "ba7816bf8f01cfea414140de5dae2223b00361a396177a9cb410ff61f20015ad"),
        ]
    );
}

#[test]
fn fingerprint_ranges_of_no_ranges() {
    assert_eq!(fingerprint_ranges(b"abc", &vec![]), vec![]);
}

#[test]
fn collect_outcomes_keeps_successes_in_order() {
    let outcomes: Vec<Result<ChunkResult, ChunkError>> =
        vec![Ok(result(0, "aa")), Ok(result(10, "bb")), Ok(result(25, "cc"))];
    assert_eq!(
        collect_outcomes(outcomes),
        Ok(vec![result(0, "aa"), result(10, "bb"), result(25, "cc")])
    );
}

#[test]
fn collect_outcomes_of_nothing_is_an_empty_success() {
    assert_eq!(collect_outcomes(vec![]), Ok(vec![]));
}

#[test]
fn collect_outcomes_fails_if_any_chunk_failed() {
    let outcomes: Vec<Result<ChunkResult, ChunkError>> = vec![
        Ok(result(0, "aa")),
        Err(ChunkError::Io(String::from("disk full"))),
        Ok(result(25, "cc")),
    ];
    assert_eq!(collect_outcomes(outcomes), Err(ChunkError::Io(String::from("disk full"))));
}

#[test]
fn collect_outcomes_reports_the_first_failure() {
    let outcomes: Vec<Result<ChunkResult, ChunkError>> = vec![
        Ok(result(0, "aa")),
        Err(ChunkError::Io(String::from("permission denied"))),
        Err(ChunkError::Io(String::from("disk full"))),
    ];
    assert_eq!(
        collect_outcomes(outcomes),
        Err(ChunkError::Io(String::from("permission denied")))
    );
}

#[test]
fn collect_outcomes_fails_on_a_failure_in_last_place() {
    let outcomes: Vec<Result<ChunkResult, ChunkError>> =
        vec![Ok(result(0, "aa")), Err(ChunkError::Io(String::from("disk full")))];
    assert_eq!(collect_outcomes(outcomes), Err(ChunkError::Io(String::from("disk full"))));
}

#[test]
fn shared_run_has_the_same_fingerprint_in_two_buffers() {
    let shared: Vec<u8> = random_bytes(3000, 5);
    let mut first: Vec<u8> = random_bytes(100, 6);
    first.extend_from_slice(&shared);
    let mut second: Vec<u8> = random_bytes(700, 7);
    second.extend_from_slice(&shared);
    second.extend_from_slice(&random_bytes(50, 8));
    let in_first = fingerprint_range(&first, ChunkRange { start: 100, end: 3100 });
    let in_second = fingerprint_range(&second, ChunkRange { start: 700, end: 3700 });
    assert_eq!(in_first.fingerprint, in_second.fingerprint);
    assert_eq!(in_first.fingerprint, fingerprint(&shared));
    assert_ne!(in_first.offset, in_second.offset);
}

#[test]
fn identical_buffers_share_every_fingerprint() {
    let first: Vec<u8> = random_bytes(200_000, 9);
    let second: Vec<u8> = first.clone();
    assert_eq!(
        process(&first, 1024, 4096, 16384).unwrap(),
        process(&second, 1024, 4096, 16384).unwrap()
    );
}

#[test]
fn repeating_pattern_of_ten_megabytes() {
    let len: usize = 10 * 1024 * 1024;
    let pattern: Vec<u8> = random_bytes(1000, 10);
    let mut buffer: Vec<u8> = Vec::with_capacity(len);
    while buffer.len() < len {
        let take: usize = std::cmp::min(pattern.len(), len - buffer.len());
        buffer.extend_from_slice(&pattern[..take]);
    }
    let min: usize = 4096;
    let avg: usize = 8192;
    let max: usize = 16384;
    let results = process(&buffer, min, avg, max).unwrap();
    assert!(results.len() > 1);
    assert_eq!(results[0].offset, 0);
    let mut total: usize = 0;
    for i in 0..results.len() {
        let end: usize = if i + 1 < results.len() { results[i + 1].offset } else { len };
        assert!(end > results[i].offset);
        let size: usize = end - results[i].offset;
        total += size;
        assert!(size <= max);
        if i + 1 < results.len() {
            assert!(size >= min);
        }
    }
    assert_eq!(total, len);
    // Two chunks of the same length that start at the same place in the
    // pattern hold the same bytes.
    let mut seen: HashMap<(usize, usize), String> = HashMap::new();
    let mut repeats: usize = 0;
    for i in 0..results.len() - 1 {
        let size: usize = results[i + 1].offset - results[i].offset;
        let key: (usize, usize) = (results[i].offset % pattern.len(), size);
        match seen.get(&key) {
            Some(known) => {
                assert_eq!(known, &results[i].fingerprint);
                repeats += 1;
            }
            None => {
                seen.insert(key, results[i].fingerprint.clone());
            }
        }
    }
    assert!(repeats > 0);
}

#[test]
fn insertion_in_the_middle_leaves_distant_chunks_alone() {
    let buffer: Vec<u8> = random_bytes(2 * 1024 * 1024, 11);
    let middle: usize = buffer.len() / 2;
    let mut edited: Vec<u8> = buffer[..middle].to_vec();
    edited.extend_from_slice(b"a few bytes that were not there before");
    edited.extend_from_slice(&buffer[middle..]);

    let before = process(&buffer, 4096, 8192, 16384).unwrap();
    let after = process(&edited, 4096, 8192, 16384).unwrap();

    // Chunks that end well before the edit are the same, offsets included.
    let mut same_prefix: usize = 0;
    while same_prefix < before.len()
        && same_prefix < after.len()
        && before[same_prefix] == after[same_prefix]
    {
        same_prefix += 1;
    }
    assert!(same_prefix > 0);
    assert!(before[same_prefix].offset + 16384 >= middle);

    // Chunks after the edit come back under the same fingerprints.
    let kept: usize = before
        .iter()
        .filter(|b| after.iter().any(|a| a.fingerprint == b.fingerprint))
        .count();
    assert!(before.len() - kept <= 8);
    assert_eq!(before[before.len() - 1].fingerprint, after[after.len() - 1].fingerprint);
}

#[test]
fn deletion_in_the_middle_leaves_distant_chunks_alone() {
    let buffer: Vec<u8> = random_bytes(2 * 1024 * 1024, 12);
    let middle: usize = buffer.len() / 2;
    let mut edited: Vec<u8> = buffer[..middle].to_vec();
    edited.extend_from_slice(&buffer[middle + 100..]);

    let before = process(&buffer, 4096, 8192, 16384).unwrap();
    let after = process(&edited, 4096, 8192, 16384).unwrap();

    let kept: usize = before
        .iter()
        .filter(|b| after.iter().any(|a| a.fingerprint == b.fingerprint))
        .count();
    assert!(before.len() - kept <= 8);
    assert_eq!(before[0], after[0]);
    assert_eq!(before[before.len() - 1].fingerprint, after[after.len() - 1].fingerprint);
}
