use waypipe_core::damage::{compute_damaged_segments, union_damage, validate_output, Rect, SegmentError};

#[test]
fn test_union_damage() {
    let x: &[(usize, usize)] = &[(0, 6)];
    let y: &[(usize, usize)] = &[(8, 10), (14, 20)];
    let align_bits = 1;
    let max_gap = 4;
    assert!(validate_output(x, align_bits, max_gap).is_ok());
    assert!(validate_output(y, align_bits, max_gap).is_ok());

    let bad1: &[(usize, usize)] = &[(8, 10), (15, 20)];
    let bad2: &[(usize, usize)] = &[(8, 10), (12, 20)];
    let bad3: &[(usize, usize)] = &[(8, 10), (6, 20)];
    assert!(validate_output(bad1, align_bits, max_gap).is_err());
    assert!(validate_output(bad2, align_bits, max_gap).is_err());
    assert!(validate_output(bad3, align_bits, max_gap).is_err());

    let output = union_damage(x, y, max_gap);
    println!("output: {:?}", output);
    assert_eq!(&output, &[(0, 10), (14, 20)]);
}

fn fill_mask(mask: &mut [bool], w: usize, h: usize, stride: usize, bpp: usize, rects: &[Rect]) {
    mask.fill(false);
    for r in rects {
        assert!(r.x1 < r.x2 && r.x2 <= w as u32, "{:?}", r);
        assert!(r.y1 < r.y2 && r.y2 <= h as u32, "{:?}", r);
        for y in r.y1..r.y2 {
            mask[((y as usize) * stride + (r.x1 as usize) * bpp)
                ..((y as usize) * stride + (r.x2 as usize) * bpp)]
                .fill(true);
        }
    }
}

fn check_segments(mask: &mut [bool], segments: &[(usize, usize)]) {
    for (a, b) in segments {
        let b = std::cmp::min(*b, mask.len());
        mask[*a..b].fill(false);
    }
    assert!(mask.iter().all(|x| !*x));
}

#[test]
fn test_damage_computation() {
    {
        let w = 100;
        let h = 50;
        let bpp = 1;
        let stride = bpp * w;

        let example_pattern = [
            Rect {
                x1: 0,
                x2: 10,
                y1: 0,
                y2: 10,
            },
            Rect {
                x1: 90,
                x2: 100,
                y1: 40,
                y2: 50,
            },
        ];

        let align_bits = 0;
        let offset = 0;
        let mut tmp = example_pattern;
        let slices = compute_damaged_segments(&mut tmp, align_bits, 0, offset, stride, bpp);
        assert!(slices.len() == 20);
        println!("slices: {:?}", slices);

        let mut tmp = example_pattern;
        let min_gap = usize::MAX;
        let slices = compute_damaged_segments(&mut tmp, align_bits, min_gap, offset, stride, bpp);
        assert_eq!(slices, &[(0, w * h * bpp)]);
    }

    let w = 100;
    let h = 100;
    let bpp = 1;
    let stride = 200;
    assert!(stride >= w * bpp);
    let mut mask = vec![false; h * stride];
    for i in 0..100_usize {
        let mut rects: Vec<Rect> = Vec::new();
        if i == 0 {
            for x in 0..((w / 2) as u32) {
                for y in 0..((h / 2) as u32) {
                    rects.push(Rect {
                        x1: 2 * x,
                        x2: 2 * x + 1,
                        y1: 2 * y,
                        y2: 2 * y + 1,
                    });
                }
            }
        } else if i % 4 == 0 {
            for j in 0..(i as u32) {
                rects.push(Rect {
                    x1: j,
                    x2: j + 1,
                    y1: 0,
                    y2: (h as u32) - j,
                });
                rects.push(Rect {
                    x1: 0,
                    x2: (w as u32) - j,
                    y1: j,
                    y2: j + 1,
                });
            }
        } else if i % 2 == 0 {
            for j in 0..(i as u32) {
                rects.push(Rect {
                    x1: j,
                    x2: j + 2,
                    y1: j,
                    y2: j + 2,
                });
            }
        } else {
            let (dw, dh, di) = ((w / 2) as u32, (h / 2) as u32, (i / 2) as u32);
            for j in 1..di {
                rects.push(Rect {
                    x1: dw - j,
                    x2: dw + j,
                    y1: dh - (di - j),
                    y2: dh + (di - j),
                });
            }
        }

        let align_bits = 2;
        let min_gap = 1;

        fill_mask(&mut mask, w, h, stride, bpp, &rects);
        let nset = mask.iter().map(|x| *x as usize).sum::<usize>();

        let mut tmp = rects;
        let slices = compute_damaged_segments(&mut tmp, align_bits, min_gap, 0, stride, bpp);

        let ncover = slices.iter().map(|(x, y)| y - x).sum::<usize>();
        println!(
            "test {}, {} rects, {} slices, {} filled, {} covered",
            i,
            tmp.len(),
            slices.len(),
            nset,
            ncover
        );

        validate_output(&slices, align_bits, min_gap).unwrap();
        check_segments(&mut mask, &slices);
    }
}

#[test]
fn validate_output_reports_each_violation() {
    assert!(matches!(validate_output(&[(4, 4)], 1, 0), Err(SegmentError::EmptyInterval(4, 4))));
    assert!(matches!(validate_output(&[(3, 8)], 1, 0), Err(SegmentError::Misaligned(3, 8))));
    assert!(matches!(
        validate_output(&[(0, 8), (6, 10)], 1, 0),
        Err(SegmentError::Overlapping((0, 8), (6, 10)))
    ));
    assert!(matches!(
        validate_output(&[(0, 8), (10, 12)], 1, 4),
        Err(SegmentError::GapTooSmall((0, 8), (10, 12)))
    ));
    assert!(validate_output(&[], 3, 100).is_ok());
}

#[test]
fn union_damage_with_empty_is_identity() {
    let a: &[(usize, usize)] = &[(0, 4), (10, 12), (20, 30)];
    assert_eq!(union_damage(a, &[], 5), a.to_vec());
    assert_eq!(union_damage(&[], a, 5), a.to_vec());
}

#[test]
fn union_damage_joins_close_segments() {
    let a: &[(usize, usize)] = &[(0, 4), (20, 24)];
    let b: &[(usize, usize)] = &[(6, 8), (40, 44)];
    assert_eq!(union_damage(a, b, 3), vec![(0, 8), (20, 24), (40, 44)]);
    assert_eq!(union_damage(a, b, 2), vec![(0, 4), (6, 8), (20, 24), (40, 44)]);
}

#[test]
fn damage_of_empty_rect_list_is_empty() {
    let mut rects: [Rect; 0] = [];
    assert!(compute_damaged_segments(&mut rects, 3, 8, 0, 0, 0).is_empty());
}

#[test]
fn damage_segments_are_aligned_and_sorted_in_place() {
    let mut rects = [
        Rect { x1: 5, x2: 6, y1: 3, y2: 4 },
        Rect { x1: 1, x2: 2, y1: 0, y2: 1 },
    ];
    let out = compute_damaged_segments(&mut rects, 3, 0, 4, 64, 4);
    // Rows at byte 4+0*64+4 = 8..12 and 4+3*64+20 = 216..220, widened to multiples of 8.
    assert_eq!(out, vec![(8, 16), (216, 224)]);
    assert_eq!(rects[0].y1, 0);
    assert_eq!(rects[1].y1, 3);
}

#[test]
fn rows_far_apart_give_one_range_each() {
    let mut rects = [rect(0, 10, 0, 10), rect(90, 100, 40, 50)];
    let out = compute_damaged_segments(&mut rects, 0, 0, 0, 100, 1);
    assert_eq!(out.len(), 20);
    for k in 0..10 {
        assert_eq!(out[k], (100 * k, 100 * k + 10));
        assert_eq!(out[10 + k], (100 * (40 + k) + 90, 100 * (40 + k) + 100));
    }
    let out = compute_damaged_segments(&mut rects, 0, usize::MAX, 0, 100, 1);
    assert_eq!(out, vec![(0, 5000)]);
}

#[test]
fn small_group_stops_at_its_bound() {
    // The first visit's work estimate (log2 16 = 4) already exceeds an eighth of the
    // group's 16-byte extent, so one range runs to the end of the group's bound.
    let mut rects = [rect(0, 4, 0, 3)];
    let out = compute_damaged_segments(&mut rects, 0, 0, 0, 4, 1);
    assert_eq!(out, vec![(0, 16)]);
}

fn rect(x1: u32, x2: u32, y1: u32, y2: u32) -> Rect {
    Rect { x1, x2, y1, y2 }
}

#[test]
fn union_is_commutative_with_empty_unit() {
    let a: &[(usize, usize)] = &[(0, 6), (20, 24)];
    let b: &[(usize, usize)] = &[(0, 2), (8, 10), (14, 20), (30, 32)];
    let gap = 4;
    assert_eq!(union_damage(a, b, gap), union_damage(b, a, gap));
    assert_eq!(union_damage(a, b, gap), vec![(0, 10), (14, 24), (30, 32)]);
    assert_eq!(union_damage(a, &[], gap), a.to_vec());
    assert_eq!(union_damage(&[], a, gap), a.to_vec());
}
