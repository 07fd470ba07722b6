use scrollstitch::detail::HorseGirlDetailImage;
use scrollstitch::geometry::Rect;
use scrollstitch::pixels::ColorImage;
use scrollstitch::{Error, FailedStage};

fn solid_frame(width: usize, height: usize, bgr: (u8, u8, u8)) -> ColorImage {
    let mut data = Vec::with_capacity(width * height * 3);
    for _ in 0..width * height {
        data.push(bgr.0);
        data.push(bgr.1);
        data.push(bgr.2);
    }
    ColorImage::from_raw(width, height, data).unwrap()
}

fn set_pixel(img: &mut ColorImage, x: usize, y: usize, bgr: (u8, u8, u8)) {
    let base = (y * img.width + x) * 3;
    img.data[base] = bgr.0;
    img.data[base + 1] = bgr.1;
    img.data[base + 2] = bgr.2;
}

// Mid gray: inside the chrome HSV box (low saturation, value 128).
const CHROME: (u8, u8, u8) = (128, 128, 128);
// Pure white: value 255 exceeds the chrome box's value bound of 240, and it
// sits inside the near-white background box used for the bottom margin.
const WHITE: (u8, u8, u8) = (255, 255, 255);
// Pure yellow: hue 30 (half-degrees), full saturation and value, inside the
// title-bar accent box.
const ACCENT: (u8, u8, u8) = (0, 255, 255);
// Pure black: outside all three boxes but the chrome one.
const BLACK: (u8, u8, u8) = (0, 0, 0);

#[test]
fn left_margin_of_twenty_pixels() {
    // A solid chrome-colored left border 20 pixels wide, then content the
    // chrome mask rejects: the margin must be exactly 20.
    let mut img = solid_frame(60, 40, WHITE);
    for y in 0..40 {
        for x in 0..20 {
            set_pixel(&mut img, x, y, CHROME);
        }
    }
    let frame = HorseGirlDetailImage {
        image: img,
        factor_list_area: Some(Rect::new(30, 10, 20, 20)),
    };
    assert_eq!(frame.get_left_right_margin().unwrap(), 20);
}

#[test]
fn left_margin_requires_region() {
    let frame = HorseGirlDetailImage::from_image(solid_frame(60, 40, CHROME));
    match frame.get_left_right_margin() {
        Err(Error::RequiredCalculationsIsNotCompleted { .. }) => {},
        other => panic!("expected RequiredCalculationsIsNotCompleted, got {:?}", other),
    }
}

#[test]
fn left_margin_without_transition_fails() {
    // Everything left of the region is chrome-colored: no row ever crosses
    // back below the brightness threshold.
    let img = solid_frame(60, 40, CHROME);
    let frame = HorseGirlDetailImage {
        image: img,
        factor_list_area: Some(Rect::new(30, 10, 20, 20)),
    };
    match frame.get_left_right_margin() {
        Err(Error::ImageNotMatched { stage }) => {
            assert_eq!(stage, FailedStage::LeftRightMargin);
        },
        other => panic!("expected ImageNotMatched, got {:?}", other),
    }
}

#[test]
fn top_margin_with_title_bar() {
    // The accent mask is set for rows 0..12 of every region column and
    // clear below: the black-after-white transition is 12 everywhere, so
    // the mean of the upper half of the sorted positions is 12.
    let mut img = solid_frame(60, 40, WHITE);
    for y in 0..12 {
        for x in 0..60 {
            set_pixel(&mut img, x, y, ACCENT);
        }
    }
    let frame = HorseGirlDetailImage {
        image: img,
        factor_list_area: Some(Rect::new(10, 20, 40, 15)),
    };
    assert_eq!(frame.get_top_margin(true).unwrap(), 12);
}

#[test]
fn top_margin_margin_only() {
    // Without the title bar the scan looks for white-after-black: rows
    // 0..7 are outside the accent box, the accent begins at row 7.
    let mut img = solid_frame(60, 40, WHITE);
    for y in 7..20 {
        for x in 0..60 {
            set_pixel(&mut img, x, y, ACCENT);
        }
    }
    let frame = HorseGirlDetailImage {
        image: img,
        factor_list_area: Some(Rect::new(10, 20, 40, 15)),
    };
    assert_eq!(frame.get_top_margin(false).unwrap(), 7);
}

#[test]
fn top_margin_without_transition_fails() {
    let img = solid_frame(60, 40, WHITE);
    let frame = HorseGirlDetailImage {
        image: img,
        factor_list_area: Some(Rect::new(10, 20, 40, 15)),
    };
    match frame.get_top_margin(true) {
        Err(Error::ImageNotMatched { stage }) => {
            assert_eq!(stage, FailedStage::TopMargin);
        },
        other => panic!("expected ImageNotMatched, got {:?}", other),
    }
}

#[test]
fn bottom_margin_of_five_rows() {
    // Below the region (rows 25..40): the bottom 5 rows are black, the
    // rows above them near-white. Scanning bottom to top, every column
    // crosses to white at depth 5; the mean of the lower half is 5.
    let mut img = solid_frame(60, 40, WHITE);
    for y in 35..40 {
        for x in 0..60 {
            set_pixel(&mut img, x, y, BLACK);
        }
    }
    let frame = HorseGirlDetailImage {
        image: img,
        factor_list_area: Some(Rect::new(10, 5, 40, 20)),
    };
    assert_eq!(frame.get_bottom_margin().unwrap(), 5);
}

#[test]
fn bottom_margin_without_transition_fails() {
    // All near-white below the region: no column ever reaches black, so no
    // transition exists.
    let img = solid_frame(60, 40, WHITE);
    let frame = HorseGirlDetailImage {
        image: img,
        factor_list_area: Some(Rect::new(10, 5, 40, 20)),
    };
    match frame.get_bottom_margin() {
        Err(Error::ImageNotMatched { stage }) => {
            assert_eq!(stage, FailedStage::BottomMargin);
        },
        other => panic!("expected ImageNotMatched, got {:?}", other),
    }
}
