use waypipe_core::copy::{make_copy_regions, CopyRegion};

fn r(buffer_offset: u64, buffer_row_length: u32, x: i32, y: i32, width: u32, height: u32) -> CopyRegion {
    CopyRegion { buffer_offset, buffer_row_length, x, y, width, height }
}

#[test]
fn a_segment_splits_into_first_middle_and_last_rows() {
    let regions = make_copy_regions(&[(0, 8, 40)], 4, None, 4);
    assert_eq!(regions, vec![r(0, 4, 2, 0, 2, 1), r(8, 4, 0, 1, 4, 1), r(24, 4, 0, 2, 2, 1)]);
}

#[test]
fn whole_rows_form_one_block() {
    let regions = make_copy_regions(&[(64, 0, 48)], 4, None, 4);
    assert_eq!(regions, vec![r(64, 4, 0, 0, 4, 3)]);
}

#[test]
fn padding_at_row_ends_is_skipped() {
    assert_eq!(make_copy_regions(&[(100, 16, 24)], 4, Some(20), 4), vec![r(104, 5, 0, 1, 1, 1)]);
    assert_eq!(make_copy_regions(&[(0, 16, 20)], 4, Some(20), 4), vec![]);
    assert_eq!(make_copy_regions(&[(0, 0, 20)], 4, Some(20), 4), vec![r(0, 5, 0, 0, 4, 1)]);
}

#[test]
fn every_segment_is_mapped_in_order() {
    let regions = make_copy_regions(&[(0, 4, 8), (4, 20, 28)], 2, None, 8);
    assert_eq!(regions, vec![r(0, 8, 2, 0, 2, 1), r(4, 8, 2, 1, 4, 1)]);
}

#[test]
fn regions_hold_exactly_the_pixels_of_each_segment() {
    let (w, bpp, row) = (5u32, 4u32, 24u32);
    for seg in [(100u32, 0u32, 24u32), (0, 4, 60), (7, 20, 28), (0, 24, 96), (3, 44, 100), (0, 16, 20)] {
        let regions = make_copy_regions(&[seg], bpp, Some(row), w);
        for y in 0..5i64 {
            for x in 0..(w as i64) {
                let pos = y * row as i64 + x * bpp as i64;
                let in_seg = seg.1 as i64 <= pos && pos < seg.2 as i64;
                let holders: Vec<&CopyRegion> = regions
                    .iter()
                    .filter(|r| {
                        (r.x as i64) <= x && x < r.x as i64 + r.width as i64 && (r.y as i64) <= y && y < r.y as i64 + r.height as i64
                    })
                    .collect();
                assert_eq!(in_seg, holders.len() == 1, "segment {:?} pixel ({}, {})", seg, x, y);
                assert!(holders.len() <= 1);
                for r in holders {
                    let byte = r.buffer_offset as i64
                        + (y - r.y as i64) * (r.buffer_row_length as i64 * bpp as i64)
                        + (x - r.x as i64) * bpp as i64;
                    assert_eq!(byte, seg.0 as i64 + pos - seg.1 as i64);
                }
            }
        }
    }
}
