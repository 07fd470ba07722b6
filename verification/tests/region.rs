use scrollstitch::detail::{HorseGirlDetailImage, HorseGirlFullDetailImage, ImageConfig};
use scrollstitch::geometry::Rect;
use scrollstitch::pixels::{ColorImage, GrayImage};
use scrollstitch::region::{covered_change_rect, row_run_rects};
use scrollstitch::{Error, FailedStage};

fn solid_frame(width: usize, height: usize, v: u8) -> ColorImage {
    ColorImage::from_raw(width, height, vec![v; width * height * 3]).unwrap()
}

fn set_pixel(img: &mut ColorImage, x: usize, y: usize, v: u8) {
    let base = (y * img.width + x) * 3;
    img.data[base] = v;
    img.data[base + 1] = v;
    img.data[base + 2] = v;
}

#[test]
fn covered_change_rect_unions_survivors() {
    // Frame height 80: the scanning band is [10, 75].
    let candidates = vec![
        Rect::new(5, 30, 4, 3),   // area 12, in band: kept
        Rect::new(50, 40, 2, 2),  // area 4: noise, dropped
        Rect::new(8, 20, 5, 2),   // area 10, in band: kept
        Rect::new(0, 2, 10, 10),  // above the band: dropped
        Rect::new(0, 78, 10, 10), // below the band: dropped
    ];
    let r = covered_change_rect(&candidates, 80).unwrap();
    assert_eq!(r, Rect::new(5, 20, 8, 13));
}

#[test]
fn covered_change_rect_none_when_nothing_survives() {
    let candidates = vec![
        Rect::new(0, 2, 10, 10),  // above the band
        Rect::new(50, 40, 2, 2),  // noise
    ];
    assert!(covered_change_rect(&candidates, 80).is_none());
}

#[test]
fn covered_change_rect_keeps_zero_coordinate() {
    // A survivor with a legitimately zero x must seed the accumulator like
    // any other rectangle.
    let candidates = vec![Rect::new(0, 20, 10, 4)];
    let r = covered_change_rect(&candidates, 80).unwrap();
    assert_eq!(r, Rect::new(0, 20, 10, 4));
}

#[test]
fn row_runs_of_a_small_mask() {
    // 8x2 mask: row 0 has runs [1,3) and [5,8); row 1 has run [0,2).
    let mut data = vec![0u8; 16];
    data[1] = 255;
    data[2] = 255;
    data[5] = 255;
    data[6] = 255;
    data[7] = 255;
    data[8] = 255;
    data[9] = 255;
    let mask = GrayImage::from_raw(8, 2, data).unwrap();
    let runs = row_run_rects(&mask);
    assert_eq!(
        runs,
        vec![
            Rect::new(1, 0, 2, 1),
            Rect::new(5, 0, 3, 1),
            Rect::new(0, 1, 2, 1),
        ]
    );
}

#[test]
fn region_detected_from_changed_block() {
    // Two 40x80 frames, identical except for a strongly changed block at
    // rows 30..40, columns 5..15. The detector must enclose exactly it.
    let f1 = solid_frame(40, 80, 0);
    let mut img2 = solid_frame(40, 80, 0);
    for y in 30..40 {
        for x in 5..15 {
            set_pixel(&mut img2, x, y, 255);
        }
    }
    let frames = vec![
        HorseGirlDetailImage::from_image(f1),
        HorseGirlDetailImage::from_image(img2),
    ];
    let full = HorseGirlFullDetailImage::from_images(frames, ImageConfig::default()).unwrap();
    let area = full.images[0].get_factor_list_area().unwrap();
    assert_eq!(area, Rect::new(5, 30, 10, 10));
    // The detector's guarantees: positive extent, top row inside the
    // scanning band [height/8, height - height/16].
    assert!(area.width > 0 && area.height > 0);
    assert!(area.y >= 80 / 8);
    assert!(area.y <= 80 - 80 / 16);
    // Every frame carries the same rectangle.
    assert_eq!(full.images[1].get_factor_list_area().unwrap(), area);
}

#[test]
fn identical_frames_yield_no_region() {
    let frames = vec![
        HorseGirlDetailImage::from_image(solid_frame(30, 64, 77)),
        HorseGirlDetailImage::from_image(solid_frame(30, 64, 77)),
    ];
    match HorseGirlFullDetailImage::from_images(frames, ImageConfig::default()) {
        Err(Error::ImageNotMatched { stage }) => {
            assert_eq!(stage, FailedStage::RegionDetection);
        },
        other => panic!("expected ImageNotMatched, got {:?}", other),
    }
}

#[test]
fn single_frame_is_not_enough() {
    let frames = vec![HorseGirlDetailImage::from_image(solid_frame(30, 64, 0))];
    match HorseGirlFullDetailImage::from_images(frames, ImageConfig::default()) {
        Err(Error::NotEnoughImageSample) => {},
        other => panic!("expected NotEnoughImageSample, got {:?}", other),
    }
}

#[test]
fn changes_in_chrome_are_ignored() {
    // A difference confined to the top eighth of the frame is chrome, not
    // scroll content: detection fails rather than reporting it.
    let f1 = solid_frame(40, 80, 0);
    let mut img2 = solid_frame(40, 80, 0);
    for y in 0..5 {
        for x in 0..40 {
            set_pixel(&mut img2, x, y, 255);
        }
    }
    let frames = vec![
        HorseGirlDetailImage::from_image(f1),
        HorseGirlDetailImage::from_image(img2),
    ];
    assert!(HorseGirlFullDetailImage::from_images(frames, ImageConfig::default()).is_err());
}
