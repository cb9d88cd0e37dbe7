use content_chunker::boundaries::{ranges_from_cuts, ChunkRange};

fn range(start: usize, end: usize) -> ChunkRange {
    ChunkRange { start, end }
}

#[test]
fn cuts_become_consecutive_ranges() {
    let ranges = ranges_from_cuts(&vec![0, 5, 8], 10);
    assert_eq!(ranges, vec![range(0, 5), range(5, 8), range(8, 10)]);
}

#[test]
fn leading_zero_cut_opens_no_range() {
    let ranges = ranges_from_cuts(&vec![0], 7);
    assert_eq!(ranges, vec![range(0, 7)]);
}

#[test]
fn repeated_cut_is_discarded() {
    let ranges = ranges_from_cuts(&vec![0, 4, 4, 4, 9], 12);
    assert_eq!(ranges, vec![range(0, 4), range(4, 9), range(9, 12)]);
}

#[test]
fn cut_at_the_end_leaves_no_tail() {
    let ranges = ranges_from_cuts(&vec![0, 6, 10], 10);
    assert_eq!(ranges, vec![range(0, 6), range(6, 10)]);
}

#[test]
fn no_cuts_give_the_whole_buffer() {
    let ranges = ranges_from_cuts(&vec![], 10);
    assert_eq!(ranges, vec![range(0, 10)]);
}

#[test]
fn first_cut_need_not_be_zero() {
    let ranges = ranges_from_cuts(&vec![3, 6], 10);
    assert_eq!(ranges, vec![range(0, 3), range(3, 6), range(6, 10)]);
}

#[test]
fn empty_buffer_has_no_ranges() {
    assert_eq!(ranges_from_cuts(&vec![], 0), vec![]);
    assert_eq!(ranges_from_cuts(&vec![0, 0], 0), vec![]);
}

#[test]
fn ranges_tile_the_buffer() {
    let cuts: Vec<usize> = vec![0, 0, 10, 25, 25, 40, 99, 100];
    let len: usize = 100;
    let ranges = ranges_from_cuts(&cuts, len);
    assert_eq!(ranges[0].start, 0);
    assert_eq!(ranges[ranges.len() - 1].end, len);
    for pair in ranges.windows(2) {
        assert_eq!(pair[0].end, pair[1].start);
    }
    for r in ranges.iter() {
        assert!(r.start < r.end);
    }
    let total: usize = ranges.iter().map(|r| r.end - r.start).sum();
    assert_eq!(total, len);
}

#[test]
fn ranges_put_together_give_back_the_buffer() {
    let buffer: Vec<u8> = (0u8..100).collect();
    let ranges = ranges_from_cuts(&vec![0, 17, 17, 60, 93], buffer.len());
    let mut rebuilt: Vec<u8> = Vec::new();
    for r in ranges.iter() {
        rebuilt.extend_from_slice(&buffer[r.start..r.end]);
    }
    assert_eq!(rebuilt, buffer);
}
