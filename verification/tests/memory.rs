use maple_core::memory::{coalesce, BufferSource, MemorySource, Region};

fn r(base: usize, size: usize) -> Region {
    Region { base, size }
}

#[test]
fn empty_stays_empty() {
    assert!(coalesce(vec![]).is_empty());
}

#[test]
fn adjacent_regions_merge() {
    assert_eq!(coalesce(vec![r(0, 10), r(10, 10)]), vec![r(0, 20)]);
}

#[test]
fn gap_is_preserved() {
    assert_eq!(
        coalesce(vec![r(0, 10), r(20, 10)]),
        vec![r(0, 10), r(20, 10)]
    );
}

#[test]
fn overlap_merges() {
    assert_eq!(coalesce(vec![r(0, 15), r(10, 10)]), vec![r(0, 20)]);
}

#[test]
fn unsorted_input_is_sorted_and_merged() {
    assert_eq!(
        coalesce(vec![r(20, 10), r(0, 10), r(10, 10)]),
        vec![r(0, 30)]
    );
}

#[test]
fn buffer_source_reads_within_range() {
    let src = BufferSource::new(0x1000, vec![1, 2, 3, 4, 5]);
    let mut buf = [0u8; 3];
    assert_eq!(src.read_into(0x1002, &mut buf).unwrap(), 3);
    assert_eq!(buf, [3, 4, 5]);
}

#[test]
fn buffer_source_truncates_at_end() {
    let src = BufferSource::new(0x1000, vec![1, 2, 3]);
    let mut buf = [0u8; 8];
    assert_eq!(src.read_into(0x1001, &mut buf).unwrap(), 2);
    assert_eq!(&buf[..2], &[2, 3]);
}

#[test]
fn coalescing_twice_changes_nothing() {
    let once = coalesce(vec![r(40, 5), r(0, 10), r(5, 10), r(30, 10)]);
    assert_eq!(once, vec![r(0, 15), r(30, 15)]);
    let twice = coalesce(once.clone());
    assert_eq!(twice, once);
}

#[test]
fn contained_region_is_absorbed() {
    assert_eq!(coalesce(vec![r(0, 100), r(10, 5)]), vec![r(0, 100)]);
}

#[test]
fn one_address_gap_is_kept() {
    assert_eq!(
        coalesce(vec![r(0, 10), r(11, 1)]),
        vec![r(0, 10), r(11, 1)]
    );
}

#[test]
fn buffer_source_below_base_fails_and_past_end_reads_nothing() {
    let src = BufferSource::new(0x1000, vec![1, 2, 3]);
    let mut buf = [9u8; 4];
    let below = src.read_into(0x0FFF, &mut buf);
    assert_eq!(below.unwrap_err().kind(), std::io::ErrorKind::InvalidInput);
    let past = src.read_into(0x1003, &mut buf);
    assert_eq!(past.unwrap(), 0);
    assert_eq!(buf, [9u8; 4]);
}

#[test]
fn region_end_is_base_plus_size() {
    assert_eq!(r(0x1000, 0x20).end(), 0x1020);
}

#[test]
fn buffer_source_read_below_base_leaves_the_buffer_alone() {
    let src = BufferSource::new(0x1000, vec![1, 2, 3]);
    let mut buf = [7u8; 2];
    let r = src.read_into(0x0800, &mut buf);
    assert_eq!(r.unwrap_err().kind(), std::io::ErrorKind::InvalidInput);
    assert_eq!(buf, [7u8; 2]);
}

#[test]
fn buffer_source_short_read_keeps_the_tail_of_the_buffer() {
    let src = BufferSource::new(0x1000, vec![1, 2, 3]);
    let mut buf = [9u8; 5];
    assert_eq!(src.read_into(0x1001, &mut buf).unwrap(), 2);
    assert_eq!(buf, [2, 3, 9, 9, 9]);
}

#[test]
fn coalescing_ignores_input_order() {
    let a = vec![r(0x3000, 0x100), r(0x1000, 0x800), r(0x1800, 0x10), r(0x1400, 0x20)];
    let b = vec![r(0x1400, 0x20), r(0x1800, 0x10), r(0x3000, 0x100), r(0x1000, 0x800)];
    let ca = coalesce(a);
    let cb = coalesce(b);
    assert_eq!(ca, cb);
    assert_eq!(ca, vec![r(0x1000, 0x810), r(0x3000, 0x100)]);
}
