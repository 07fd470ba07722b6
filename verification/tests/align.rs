use scrollstitch::factor::{FactorListImage, FactorListPartialImage, MatchedPoint};
use scrollstitch::geometry::Rect;
use scrollstitch::pixels::ColorImage;
use scrollstitch::{Error, FailedStage};

/// A pseudo-random channel value for the panel content at column `x`,
/// content row `cy`, channel `c`. Windows of such content are decorrelated
/// at every nonzero shift, so only the true offset crosses the correlation
/// threshold.
fn content_byte(x: usize, cy: usize, c: usize) -> u8 {
    let h = (x * 3 + c + 1)
        .wrapping_mul(0x9E37_79B1)
        .wrapping_add(cy.wrapping_mul(0x85EB_CA77));
    ((h >> 13) ^ h) as u8
}

/// A frame showing the content rows `start_row .. start_row + height`.
fn content_frame(width: usize, height: usize, start_row: usize) -> ColorImage {
    let mut data = Vec::with_capacity(width * height * 3);
    for y in 0..height {
        for x in 0..width {
            for c in 0..3 {
                data.push(content_byte(x, start_row + y, c));
            }
        }
    }
    ColorImage::from_raw(width, height, data).unwrap()
}

fn content_view(width: usize, height: usize, start_row: usize) -> FactorListPartialImage {
    let image = content_frame(width, height, start_row);
    let h = image.height as i32;
    FactorListPartialImage {
        image,
        factor_list_area: Rect::new(0, 0, width as i32, h),
    }
}

/// A frame whose every pixel of row `r` has the channel value `row_vals[r]`.
fn frame_of_rows(width: usize, row_vals: &[u8]) -> ColorImage {
    let height = row_vals.len();
    let mut data = Vec::with_capacity(width * height * 3);
    for &v in row_vals {
        for _ in 0..width * 3 {
            data.push(v);
        }
    }
    ColorImage::from_raw(width, height, data).unwrap()
}

fn view_of_rows(width: usize, row_vals: &[u8]) -> FactorListPartialImage {
    let image = frame_of_rows(width, row_vals);
    let h = image.height as i32;
    FactorListPartialImage {
        image,
        factor_list_area: Rect::new(0, 0, width as i32, h),
    }
}

#[test]
fn alignment_scenario_scrolled_by_fifty() {
    // The later view's first 100 rows repeat the earlier view's rows
    // 50..150; 50 new rows follow. Expected: self_offset 50, other_offset 0,
    // merged height 50 + 150 = 200.
    let a = content_view(100, 150, 0);
    let b = content_view(100, 150, 50);
    let m = a.detect_match_area(&b).unwrap();
    assert_eq!(m, MatchedPoint(50, 0));
    let merged = a.get_merged_below(&b).unwrap();
    assert_eq!(merged.height, 200);
    assert_eq!(merged.width, 100);
    // Rows 0..50 come from the earlier view, rows 50..200 from the later.
    let seam = 50 * 100 * 3;
    assert_eq!(&merged.data[..seam], &a.image.data[..seam]);
    assert_eq!(&merged.data[seam..], &b.image.data[..]);
}

#[test]
fn alignment_idempotent_on_identical_inputs() {
    let a = content_view(40, 120, 0);
    let b = content_view(40, 120, 30);
    let first = a.detect_match_area(&b).unwrap();
    let second = a.detect_match_area(&b).unwrap();
    assert_eq!(first, second);
    assert_eq!(first, MatchedPoint(30, 0));
}

#[test]
fn identical_frames_resolve_to_zero_height_merge() {
    // Two identical views with generic content: only position 0 of the
    // earlier view correlates with the later view's first strip, so the
    // bottom-up scan descends to 0, the merge keeps no rows of the earlier
    // view, and the result reproduces the later one.
    let a = content_view(30, 150, 0);
    let b = content_view(30, 150, 0);
    let m = a.detect_match_area(&b).unwrap();
    assert_eq!(m, MatchedPoint(0, 0));
    let merged = a.get_merged_below(&b).unwrap();
    assert_eq!(merged.height, 150);
    assert_eq!(merged.data, b.image.data);
}

#[test]
fn constant_frames_fail_alignment() {
    // Two identical constant frames: every window is flat, its centered
    // energy is zero, and no correlation can cross the threshold.
    let a = view_of_rows(20, &vec![90u8; 150]);
    let b = view_of_rows(20, &vec![90u8; 150]);
    match a.detect_match_area(&b) {
        Err(Error::ImageNotMatched { stage }) => {
            assert_eq!(stage, FailedStage::Alignment { later_frame: 1 });
        },
        other => panic!("expected ImageNotMatched, got {:?}", other),
    }
}

#[test]
fn identical_periodic_frames_resolve_to_highest_overlap() {
    // With periodic content (rows alternating between two values) the
    // first strip correlates perfectly at every even scan position, so two
    // identical frames resolve at the highest such position, 134, and the
    // merge nearly doubles the column.
    let rows: Vec<u8> = (0..150).map(|y| if y % 2 == 0 { 80 } else { 180 }).collect();
    let a = view_of_rows(20, &rows);
    let b = view_of_rows(20, &rows);
    let m = a.detect_match_area(&b).unwrap();
    assert_eq!(m, MatchedPoint(134, 0));
    let merged = a.get_merged_below(&b).unwrap();
    assert_eq!(merged.height, 284);
}

#[test]
fn brightness_shifted_content_still_aligns() {
    // The later view shows the earlier view's rows 40.. brightened by a
    // constant 50 per channel. A constant shift leaves the centered cross
    // term and energies unchanged, so the correlation at the true offset is
    // exactly 1 and the pair aligns there — no byte of the two windows is
    // equal.
    let width = 60;
    let mut data_a = Vec::with_capacity(width * 120 * 3);
    let mut data_b = Vec::with_capacity(width * 120 * 3);
    for y in 0..120 {
        for x in 0..width {
            for c in 0..3 {
                data_a.push(content_byte(x, y, c) % 200);
                data_b.push(content_byte(x, y + 40, c) % 200 + 50);
            }
        }
    }
    let a = FactorListPartialImage {
        image: ColorImage::from_raw(width, 120, data_a).unwrap(),
        factor_list_area: Rect::new(0, 0, width as i32, 120),
    };
    let b = FactorListPartialImage {
        image: ColorImage::from_raw(width, 120, data_b).unwrap(),
        factor_list_area: Rect::new(0, 0, width as i32, 120),
    };
    let m = a.detect_match_area(&b).unwrap();
    assert_eq!(m, MatchedPoint(40, 0));
}

#[test]
fn alignment_fails_on_unrelated_content() {
    let a = content_view(25, 120, 0);
    let b = content_view(25, 120, 5000);
    match a.detect_match_area(&b) {
        Err(Error::ImageNotMatched { stage }) => {
            assert_eq!(stage, FailedStage::Alignment { later_frame: 1 });
        },
        other => panic!("expected ImageNotMatched, got {:?}", other),
    }
}

#[test]
fn alignment_fails_on_different_window_widths() {
    let a = FactorListPartialImage {
        image: content_frame(30, 120, 0),
        factor_list_area: Rect::new(0, 0, 30, 120),
    };
    let b = FactorListPartialImage {
        image: content_frame(30, 120, 0),
        factor_list_area: Rect::new(0, 0, 20, 120),
    };
    assert!(a.detect_match_area(&b).is_err());
}

#[test]
fn merge_round_trip_reproduces_tail() {
    // Cropping the merged column at the seam gives back the later view's
    // kept tail byte for byte.
    let a = content_view(50, 150, 0);
    let b = content_view(50, 150, 50);
    let m = a.detect_match_area(&b).unwrap();
    assert_eq!(m, MatchedPoint(50, 0));
    let merged = a.get_merged_below(&b).unwrap();
    let seam = 50usize * 50 * 3;
    assert_eq!(&merged.data[seam..], &b.image.data[0..]);
}

#[test]
fn fold_is_left_to_right() {
    // Folding [A, B, C] must equal merge(merge(A, B), C).
    let a = content_view(40, 150, 0);
    let b = content_view(40, 150, 50);
    let c = content_view(40, 150, 100);
    let list = FactorListImage {
        images: vec![
            content_view(40, 150, 0),
            content_view(40, 150, 50),
            content_view(40, 150, 100),
        ],
    };
    let folded = list.merged_image().unwrap();

    let mut acc = a;
    acc.merge_below(&b).unwrap();
    let pairwise = acc.get_merged_below(&c).unwrap();
    assert_eq!(folded.width, pairwise.width);
    assert_eq!(folded.height, pairwise.height);
    assert_eq!(folded.data, pairwise.data);
    assert_eq!(folded.height, 250);
}

#[test]
fn fold_reversed_order_differs() {
    // Content scrolls in one direction: folding the frames in reverse
    // order cannot reproduce the forward composite.
    let forward = FactorListImage {
        images: vec![
            content_view(40, 150, 0),
            content_view(40, 150, 50),
            content_view(40, 150, 100),
        ],
    };
    let forward_img = forward.merged_image().unwrap();
    let reversed = FactorListImage {
        images: vec![
            content_view(40, 150, 100),
            content_view(40, 150, 50),
            content_view(40, 150, 0),
        ],
    };
    match reversed.merged_image() {
        Ok(img) => {
            assert!(img.height != forward_img.height || img.data != forward_img.data);
        },
        Err(_) => {},
    }
}

#[test]
fn list_area_roi_is_the_window_columns() {
    let rows: Vec<u8> = (0..100).collect();
    let image = frame_of_rows(30, &rows);
    let v = FactorListPartialImage {
        image,
        factor_list_area: Rect::new(5, 0, 20, 100),
    };
    let roi = v.get_list_area_roi();
    assert_eq!(roi.width, 20);
    assert_eq!(roi.height, 100);
    assert_eq!(roi.data[0], 0);
    assert_eq!(roi.data[99 * 20 * 3], 99);
}

#[test]
fn fold_failure_names_the_later_frame() {
    // The first two views align; the third is flat (constant), so no
    // strip of it can cross the correlation threshold, and the fold fails
    // while merging frame 2 below the column of frames 0 and 1.
    let list = FactorListImage {
        images: vec![
            content_view(30, 150, 0),
            content_view(30, 150, 50),
            view_of_rows(30, &vec![255u8; 150]),
        ],
    };
    match list.merged_image() {
        Err(Error::ImageNotMatched { stage }) => {
            assert_eq!(stage, FailedStage::Alignment { later_frame: 2 });
        },
        other => panic!("expected ImageNotMatched, got {:?}", other),
    }
}

#[test]
fn push_appends_a_view() {
    let mut list = FactorListImage {
        images: vec![content_view(20, 100, 0)],
    };
    list.push(content_view(20, 100, 30));
    assert_eq!(list.images.len(), 2);
    let merged = list.merged_image().unwrap();
    assert_eq!(merged.height, 130);
}
