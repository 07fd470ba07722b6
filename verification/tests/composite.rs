use scrollstitch::detail::{
    HeaderTrimMode, HorseGirlDetailImage, HorseGirlFullDetailImage, ImageConfig,
};
use scrollstitch::geometry::Rect;
use scrollstitch::pixels::ColorImage;

/// A pseudo-random channel value, so that region content is decorrelated
/// at every nonzero shift and alignment resolves at offset zero.
fn content_byte(x: usize, y: usize, c: usize) -> u8 {
    let h = (x * 3 + c + 1)
        .wrapping_mul(0x9E37_79B1)
        .wrapping_add(y.wrapping_mul(0x85EB_CA77));
    ((h >> 13) ^ h) as u8
}

fn content_frame(width: usize, height: usize) -> ColorImage {
    let mut data = Vec::with_capacity(width * height * 3);
    for y in 0..height {
        for x in 0..width {
            for c in 0..3 {
                data.push(content_byte(x, y, c));
            }
        }
    }
    ColorImage::from_raw(width, height, data).unwrap()
}

/// Two frames whose scrollable regions (rows 10..40) hold identical
/// content, so alignment resolves to a zero-height merge and the column is
/// the second frame's region.
fn two_frame_set(config: ImageConfig) -> HorseGirlFullDetailImage {
    let area = Rect::new(2, 10, 10, 30);
    let frame1 = content_frame(20, 60);
    let mut data2 = Vec::with_capacity(20 * 60 * 3);
    for y in 0..60 {
        for x in 0..20 {
            for c in 0..3 {
                if y >= 10 && y < 40 {
                    data2.push(content_byte(x, y, c));
                } else {
                    data2.push(250);
                }
            }
        }
    }
    let frame2 = ColorImage::from_raw(20, 60, data2).unwrap();
    HorseGirlFullDetailImage {
        images: vec![
            HorseGirlDetailImage {
                image: frame1,
                factor_list_area: Some(area),
            },
            HorseGirlDetailImage {
                image: frame2,
                factor_list_area: Some(area),
            },
        ],
        config,
    }
}

#[test]
fn render_composes_status_column_footer() {
    let full = two_frame_set(ImageConfig::default());
    let out = full.render().unwrap();
    assert_eq!(out.width, 20);
    // 10 status rows + 30 column rows + 20 footer rows.
    assert_eq!(out.height, 60);
    let row = 20 * 3;
    // Status rows come from the first frame.
    assert_eq!(&out.data[..10 * row], &full.images[0].image.data[..10 * row]);
    // The merged column reproduces the second frame's region content.
    assert_eq!(
        &out.data[10 * row..40 * row],
        &full.images[1].image.data[10 * row..40 * row]
    );
    // Footer rows come from the first frame again.
    assert_eq!(
        &out.data[40 * row..],
        &full.images[0].image.data[40 * row..]
    );
}

#[test]
fn render_without_footer() {
    let config = ImageConfig {
        header_trim_mode: None,
        do_merge_close_button: false,
        scaling_threshold_pixels: None,
    };
    let full = two_frame_set(config);
    let out = full.render().unwrap();
    // 10 status rows + 30 column rows, no footer.
    assert_eq!(out.height, 40);
    let row = 20 * 3;
    assert_eq!(
        &out.data[10 * row..40 * row],
        &full.images[1].image.data[10 * row..40 * row]
    );
}

#[test]
fn default_config_values() {
    let c = ImageConfig::default();
    assert!(c.header_trim_mode.is_none());
    assert!(c.do_merge_close_button);
    assert!(c.scaling_threshold_pixels.is_none());
}

#[test]
fn set_config_replaces_only_the_config() {
    let mut full = two_frame_set(ImageConfig::default());
    let new_config = ImageConfig {
        header_trim_mode: Some(HeaderTrimMode::TrimTitleBar),
        do_merge_close_button: false,
        scaling_threshold_pixels: Some(1000),
    };
    full.set_config(new_config);
    assert_eq!(full.config.header_trim_mode, Some(HeaderTrimMode::TrimTitleBar));
    assert!(!full.config.do_merge_close_button);
    assert_eq!(full.images.len(), 2);
}

#[test]
fn status_and_footer_crops() {
    let full = two_frame_set(ImageConfig::default());
    let row = 20 * 3;
    let status = full.get_status_image().unwrap();
    assert_eq!(status.width(), 20);
    assert_eq!(status.height(), 10);
    assert_eq!(&status.image.data[..], &full.images[0].image.data[..10 * row]);
    let footer = full.get_footer_image().unwrap();
    assert_eq!(footer.width(), 20);
    assert_eq!(footer.height(), 20);
    assert_eq!(&footer.image.data[..], &full.images[0].image.data[40 * row..]);
}

const CHROME: (u8, u8, u8) = (128, 128, 128);
const WHITE: (u8, u8, u8) = (255, 255, 255);
const ACCENT: (u8, u8, u8) = (0, 255, 255);
const BLACK: (u8, u8, u8) = (0, 0, 0);

fn paint(img: &mut ColorImage, x: usize, y: usize, bgr: (u8, u8, u8)) {
    let base = (y * img.width + x) * 3;
    img.data[base] = bgr.0;
    img.data[base + 1] = bgr.1;
    img.data[base + 2] = bgr.2;
}

/// A 30x60 frame with chrome colors laid out so that every margin scan
/// succeeds: a chrome border `lr_border` columns wide left of the region,
/// an accent band starting at row 5 over the region columns, and a black
/// band over the bottom 3 rows below the region.
fn chrome_frame(area: Rect, lr_border: usize) -> HorseGirlDetailImage {
    let mut img = ColorImage::from_raw(30, 60, vec![255u8; 30 * 60 * 3]).unwrap();
    let x0 = area.x as usize;
    let x1 = (area.x + area.width) as usize;
    let y0 = area.y as usize;
    let y1 = (area.y + area.height) as usize;
    for y in y0..y1 {
        for x in 0..lr_border {
            paint(&mut img, x, y, CHROME);
        }
        for x in lr_border..x0 {
            paint(&mut img, x, y, WHITE);
        }
    }
    for y in 5..y0 {
        for x in x0..x1 {
            paint(&mut img, x, y, ACCENT);
        }
    }
    // Decorrelated content inside the region, so that alignment of the two
    // identical frames resolves at offset zero rather than at a repeated
    // pattern.
    for y in y0..y1 {
        for x in x0..x1 {
            paint(
                &mut img,
                x,
                y,
                (content_byte(x, y, 0), content_byte(x, y, 1), content_byte(x, y, 2)),
            );
        }
    }
    for y in 57..60 {
        for x in x0..x1 {
            paint(&mut img, x, y, BLACK);
        }
    }
    HorseGirlDetailImage {
        image: img,
        factor_list_area: Some(area),
    }
}

#[test]
fn render_with_margin_trim() {
    let area = Rect::new(6, 20, 20, 20);
    let full = HorseGirlFullDetailImage {
        images: vec![chrome_frame(area, 4), chrome_frame(area, 4)],
        config: ImageConfig {
            header_trim_mode: Some(HeaderTrimMode::TrimMarginOnly),
            do_merge_close_button: true,
            scaling_threshold_pixels: None,
        },
    };
    // Margins: left/right 4, top 5, bottom 3. The untrimmed composite is
    // 30x60 (identical frames merge to a zero-height overlap), so the
    // trimmed one is (30 - 2*4) x (60 - 5 - 3).
    let out = full.render().unwrap();
    assert_eq!(out.width, 22);
    assert_eq!(out.height, 52);
    // The pixel at (10, 10) of the output is the frame pixel at
    // (4 + 10, 5 + 10), which sits in the accent band.
    let base = ((10 * out.width) + 10) * 3;
    assert_eq!(
        (out.data[base], out.data[base + 1], out.data[base + 2]),
        ACCENT
    );
}

#[test]
fn render_fails_when_margins_exceed_composite() {
    // The chrome border reaches column 20 while the whole frame is only 30
    // columns wide: trimming 20 columns from both sides is impossible.
    let area = Rect::new(28, 20, 2, 20);
    let full = HorseGirlFullDetailImage {
        images: vec![chrome_frame(area, 20), chrome_frame(area, 20)],
        config: ImageConfig {
            header_trim_mode: Some(HeaderTrimMode::TrimMarginOnly),
            do_merge_close_button: true,
            scaling_threshold_pixels: None,
        },
    };
    match full.render() {
        Err(scrollstitch::Error::BackendFailure) => {},
        other => panic!("expected BackendFailure, got {:?}", other),
    }
}

#[test]
fn factor_image_is_region_crop_with_narrowed_window() {
    let full = two_frame_set(ImageConfig::default());
    let v = full.images[0].get_factor_image().unwrap();
    assert_eq!(v.image.width, 20);
    assert_eq!(v.image.height, 30);
    let row = 20 * 3;
    assert_eq!(&v.image.data[..], &full.images[0].image.data[10 * row..40 * row]);
    // The matching window keeps the region's x and narrows its width to
    // 98% (rounded down): 10 * 98 / 100 = 9.
    assert_eq!(v.factor_list_area, Rect::new(2, 0, 9, 30));
}
