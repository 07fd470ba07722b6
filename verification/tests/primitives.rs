use scrollstitch::geometry::{scaled_rect, Rect};
use scrollstitch::pixels::{gray_px, ColorImage, GrayImage, HsvRange};
use scrollstitch::scan::{
    get_position_black_after_white, get_position_white_after_black, sorted_ascending,
};

#[test]
fn rect_new_stores_fields() {
    let r = Rect::new(1, 2, 3, 4);
    assert_eq!(r.x, 1);
    assert_eq!(r.y, 2);
    assert_eq!(r.width, 3);
    assert_eq!(r.height, 4);
}

#[test]
fn scaled_rect_rounds_toward_zero() {
    let r = scaled_rect(Rect::new(10, 21, 30, 43), 1, 2);
    assert_eq!(r, Rect::new(5, 10, 15, 21));
    let same = scaled_rect(Rect::new(7, 8, 9, 10), 5, 5);
    assert_eq!(same, Rect::new(7, 8, 9, 10));
}

#[test]
fn gray_uses_fixed_point_luma_weights() {
    // (77 * r + 150 * g + 29 * b + 128) / 256
    assert_eq!(gray_px(0, 0, 255), 77);
    assert_eq!(gray_px(0, 255, 0), 149);
    assert_eq!(gray_px(255, 0, 0), 29);
    assert_eq!(gray_px(255, 255, 255), 255);
    assert_eq!(gray_px(0, 0, 0), 0);
}

#[test]
fn from_raw_rejects_mismatched_sizes() {
    assert!(ColorImage::from_raw(2, 2, vec![0u8; 12]).is_some());
    assert!(ColorImage::from_raw(2, 2, vec![0u8; 11]).is_none());
    assert!(GrayImage::from_raw(3, 2, vec![0u8; 6]).is_some());
    assert!(GrayImage::from_raw(3, 2, vec![0u8; 5]).is_none());
}

#[test]
fn abs_diff_and_threshold() {
    let a = ColorImage::from_raw(1, 2, vec![10, 200, 90, 0, 0, 0]).unwrap();
    let b = ColorImage::from_raw(1, 2, vec![60, 130, 90, 0, 0, 0]).unwrap();
    let d = a.abs_diff(&b);
    assert_eq!(d.data, vec![50, 70, 0, 0, 0, 0]);
    let g = d.to_gray();
    // gray(b=50, g=70, r=0) = (150*70 + 29*50 + 128) / 256 = 47
    assert_eq!(g.data[0], 47);
    let m = g.threshold_binary(45);
    assert_eq!(m.data, vec![255, 0]);
}

#[test]
fn hsv_mask_selects_saturated_yellow() {
    // One yellow pixel (hue 30 on the half-degree scale) and one white one.
    let img = ColorImage::from_raw(2, 1, vec![0, 255, 255, 255, 255, 255]).unwrap();
    let range = HsvRange { h_lo: 25, s_lo: 160, v_lo: 160, h_hi: 60, s_hi: 255, v_hi: 255 };
    let m = img.hsv_mask(range);
    assert_eq!(m.data, vec![255, 0]);
}

#[test]
fn vertical_concatenation_stacks_bytes() {
    let a = ColorImage::from_raw(1, 1, vec![1, 2, 3]).unwrap();
    let b = ColorImage::from_raw(1, 2, vec![4, 5, 6, 7, 8, 9]).unwrap();
    let m = a.get_merged_below(&b);
    assert_eq!(m.width, 1);
    assert_eq!(m.height, 3);
    assert_eq!(m.data, vec![1, 2, 3, 4, 5, 6, 7, 8, 9]);
}

#[test]
fn black_after_white_transition() {
    assert_eq!(get_position_black_after_white(&vec![200, 200, 100, 50]), Some(2));
    // Never white first: no transition.
    assert_eq!(get_position_black_after_white(&vec![100, 50, 20]), None);
    // White only: no transition.
    assert_eq!(get_position_black_after_white(&vec![200, 255]), None);
    // The threshold itself (127) counts as black.
    assert_eq!(get_position_black_after_white(&vec![128, 127]), Some(1));
}

#[test]
fn white_after_black_transition() {
    assert_eq!(get_position_white_after_black(&vec![50, 100, 200]), Some(2));
    assert_eq!(get_position_white_after_black(&vec![200, 255]), None);
    // The threshold itself (127) counts as white.
    assert_eq!(get_position_white_after_black(&vec![126, 127]), Some(1));
}

#[test]
fn sorting_is_stable_ascending() {
    let v: Vec<usize> = vec![5, 1, 4, 1, 9, 0];
    let s = sorted_ascending(&v);
    assert_eq!(s, vec![0, 1, 1, 4, 5, 9]);
}
