//! The engine's pixel-matrix backend: three-channel and single-channel
//! images with exactly specified primitive operations (difference,
//! intensity, HSV thresholding, crops, vertical concatenation).

use vstd::prelude::*;

use crate::geometry::{CropHeight, CropWidth, CropX, CropY};

verus! {

/// Upper bound on either image dimension, in pixels.
pub const MAX_IMAGE_DIM: usize = 100000000;

/// Upper bound on the byte size of one image's pixel storage.
pub const MAX_PIXEL_BYTES: usize = 300000000;

/// Absolute difference of two channel values.
pub open spec fn absdiff_of(a: u8, b: u8) -> u8 {
    if a >= b {
        (a - b) as u8
    } else {
        (b - a) as u8
    }
}

/// Single-channel intensity of a blue/green/red pixel, computed with the
/// usual fixed-point luma weights (77, 150, 29 out of 256).
pub open spec fn gray_of(b: u8, g: u8, r: u8) -> u8 {
    (((77 * (r as int) + 150 * (g as int) + 29 * (b as int) + 128) / 256) as u8)
}

pub open spec fn max3(a: u8, b: u8, c: u8) -> u8 {
    if a >= b && a >= c {
        a
    } else if b >= c {
        b
    } else {
        c
    }
}

pub open spec fn min3(a: u8, b: u8, c: u8) -> u8 {
    if a <= b && a <= c {
        a
    } else if b <= c {
        b
    } else {
        c
    }
}

/// Hue of a blue/green/red pixel in degrees, in `[0, 360)`; `0` for gray
/// pixels. Integer divisions round toward zero (all numerators here are
/// nonnegative).
pub open spec fn hue_deg_of(b: u8, g: u8, r: u8) -> int {
    let v = max3(b, g, r) as int;
    let mn = min3(b, g, r) as int;
    let d = v - mn;
    if d == 0 {
        0
    } else {
        let raw = if r as int == v {
            if g >= b {
                60 * (g as int - b as int) / d
            } else {
                360 - 60 * (b as int - g as int) / d
            }
        } else if g as int == v {
            if b >= r {
                120 + 60 * (b as int - r as int) / d
            } else {
                120 - 60 * (r as int - b as int) / d
            }
        } else {
            if r >= g {
                240 + 60 * (r as int - g as int) / d
            } else {
                240 - 60 * (g as int - r as int) / d
            }
        };
        if raw == 360 {
            0
        } else {
            raw
        }
    }
}

/// Hue on the half-degree scale used by 8-bit pixel backends: `[0, 180)`.
pub open spec fn hsv_h_of(b: u8, g: u8, r: u8) -> int {
    hue_deg_of(b, g, r) / 2
}

/// Saturation of a blue/green/red pixel, scaled to `[0, 255]`.
pub open spec fn hsv_s_of(b: u8, g: u8, r: u8) -> int {
    let v = max3(b, g, r) as int;
    let mn = min3(b, g, r) as int;
    if v == 0 {
        0
    } else {
        255 * (v - mn) / v
    }
}

/// Value (brightness) of a blue/green/red pixel.
pub open spec fn hsv_v_of(b: u8, g: u8, r: u8) -> int {
    max3(b, g, r) as int
}

/// An inclusive box in HSV space, on the 8-bit scales (`h` in `[0, 180]`).
#[derive(Debug, Copy, Clone)]
pub struct HsvRange {
    pub h_lo: u8,
    pub s_lo: u8,
    pub v_lo: u8,
    pub h_hi: u8,
    pub s_hi: u8,
    pub v_hi: u8,
}

/// Whether the pixel's HSV coordinates fall inside the box, all channels
/// inclusive on both ends.
pub open spec fn hsv_in_range(b: u8, g: u8, r: u8, range: HsvRange) -> bool {
    &&& range.h_lo as int <= hsv_h_of(b, g, r) <= range.h_hi as int
    &&& range.s_lo as int <= hsv_s_of(b, g, r) <= range.s_hi as int
    &&& range.v_lo as int <= hsv_v_of(b, g, r) <= range.v_hi as int
}

/// A three-channel (blue, green, red) 8-bit image with row-major interleaved
/// storage: the channel `c` of the pixel at `(x, y)` sits at byte
/// `(y * width + x) * 3 + c`.
#[derive(Debug)]
pub struct ColorImage {
    pub width: usize,
    pub height: usize,
    pub data: Vec<u8>,
}

/// A single-channel 8-bit image; the pixel at `(x, y)` sits at byte
/// `y * width + x`. Also used for binary masks, whose pixels are 0 or 255.
#[derive(Debug)]
pub struct GrayImage {
    pub width: usize,
    pub height: usize,
    pub data: Vec<u8>,
}

/// Row-major pixel offsets stay inside the image.
pub proof fn lemma_row_major_bound(w: int, h: int, x: int, y: int)
    requires
        0 <= x < w,
        0 <= y < h,
    ensures
        0 <= y * w + x,
        y * w + x < w * h,
{
    assert(0 <= y * w + x && y * w + x < w * h) by (nonlinear_arith)
        requires 0 <= x < w && 0 <= y < h;
}

impl ColorImage {
    pub open spec fn wf(self) -> bool {
        &&& self.data@.len() == self.width * self.height * 3
        &&& self.width <= MAX_IMAGE_DIM
        &&& self.height <= MAX_IMAGE_DIM
        &&& self.data@.len() <= MAX_PIXEL_BYTES
    }

    /// Channel `c` of the pixel at `(x, y)`.
    pub open spec fn pixel(self, x: int, y: int, c: int) -> u8 {
        self.data@[(y * self.width + x) * 3 + c]
    }

    /// Wraps raw interleaved bytes; `None` when the byte count does not
    /// match the dimensions or a size cap is exceeded.
    pub fn from_raw(width: usize, height: usize, data: Vec<u8>) -> (res: Option<ColorImage>)
        ensures
            match res {
                Some(img) => {
                    &&& img.wf()
                    &&& img.width == width
                    &&& img.height == height
                    &&& img.data@ == data@
                },
                None => !(ColorImage { width, height, data }).wf(),
            },
    {
        if width > MAX_IMAGE_DIM || height > MAX_IMAGE_DIM {
            return None;
        }
        if data.len() > MAX_PIXEL_BYTES {
            return None;
        }
        proof {
            assert((width as int) * (height as int) <= 0x2386f26fc10000) by (nonlinear_arith)
                requires width <= MAX_IMAGE_DIM && height <= MAX_IMAGE_DIM;
        }
        let expected: u64 = width as u64 * height as u64 * 3;
        if data.len() as u64 == expected {
            Some(ColorImage { width, height, data })
        } else {
            None
        }
    }

    /// Channel `c` of the pixel at `(x, y)`.
    pub fn at(&self, x: usize, y: usize, c: usize) -> (v: u8)
        requires
            self.wf(),
            x < self.width,
            y < self.height,
            c < 3,
        ensures
            v == self.pixel(x as int, y as int, c as int),
    {
        proof {
            lemma_row_major_bound(self.width as int, self.height as int, x as int, y as int);
        }
        self.data[(y * self.width + x) * 3 + c]
    }

    /// An independent copy with the same dimensions and bytes.
    pub fn duplicate(&self) -> (c: ColorImage)
        ensures
            c.width == self.width,
            c.height == self.height,
            c.data@ == self.data@,
    {
        let n = self.data.len();
        let mut out: Vec<u8> = Vec::new();
        let mut i: usize = 0;
        while i < n
            invariant
                n == self.data@.len(),
                i <= n,
                out@ == self.data@.subrange(0, i as int),
            decreases n - i,
        {
            out.push(self.data[i]);
            proof {
                assert(out@ =~= self.data@.subrange(0, i + 1));
            }
            i += 1;
        }
        assert(out@ =~= self.data@);
        ColorImage { width: self.width, height: self.height, data: out }
    }

    /// Per-byte absolute difference of two images of equal dimensions.
    pub fn abs_diff(&self, other: &ColorImage) -> (d: ColorImage)
        requires
            self.wf(),
            other.wf(),
            self.width == other.width,
            self.height == other.height,
        ensures
            d.wf(),
            d.width == self.width,
            d.height == self.height,
            forall|j: int| 0 <= j < self.data@.len()
                ==> d.data@[j] == absdiff_of(self.data@[j], other.data@[j]),
    {
        let n = self.data.len();
        let mut out: Vec<u8> = Vec::new();
        let mut i: usize = 0;
        while i < n
            invariant
                n == self.data@.len() == other.data@.len(),
                i <= n,
                out@.len() == i,
                forall|j: int| 0 <= j < i
                    ==> out@[j] == absdiff_of(self.data@[j], other.data@[j]),
            decreases n - i,
        {
            let a = self.data[i];
            let b = other.data[i];
            if a >= b {
                out.push(a - b);
            } else {
                out.push(b - a);
            }
            i += 1;
        }
        ColorImage { width: self.width, height: self.height, data: out }
    }

    /// Conversion to single-channel intensity.
    pub fn to_gray(&self) -> (g: GrayImage)
        requires
            self.wf(),
        ensures
            g.wf(),
            g.width == self.width,
            g.height == self.height,
            forall|p: int| 0 <= p < g.data@.len()
                ==> g.data@[p] == gray_of(self.data@[3 * p], self.data@[3 * p + 1], self.data@[3 * p + 2]),
    {
        let n = self.data.len() / 3;
        let mut out: Vec<u8> = Vec::new();
        let mut p: usize = 0;
        while p < n
            invariant
                self.wf(),
                n == self.width * self.height,
                3 * n == self.data@.len(),
                p <= n,
                out@.len() == p,
                forall|q: int| 0 <= q < p
                    ==> out@[q] == gray_of(self.data@[3 * q], self.data@[3 * q + 1], self.data@[3 * q + 2]),
            decreases n - p,
        {
            let b = self.data[3 * p];
            let gch = self.data[3 * p + 1];
            let r = self.data[3 * p + 2];
            out.push(gray_px(b, gch, r));
            p += 1;
        }
        GrayImage { width: self.width, height: self.height, data: out }
    }

    /// Binary mask of the pixels whose HSV coordinates fall in `range`:
    /// 255 inside the box, 0 outside.
    pub fn hsv_mask(&self, range: HsvRange) -> (m: GrayImage)
        requires
            self.wf(),
        ensures
            m.wf(),
            m.width == self.width,
            m.height == self.height,
            forall|p: int| 0 <= p < m.data@.len()
                ==> m.data@[p] == (if hsv_in_range(
                        self.data@[3 * p],
                        self.data@[3 * p + 1],
                        self.data@[3 * p + 2],
                        range,
                    ) { 255u8 } else { 0u8 }),
    {
        let n = self.data.len() / 3;
        let mut out: Vec<u8> = Vec::new();
        let mut p: usize = 0;
        while p < n
            invariant
                self.wf(),
                n == self.width * self.height,
                3 * n == self.data@.len(),
                p <= n,
                out@.len() == p,
                forall|q: int| 0 <= q < p
                    ==> out@[q] == (if hsv_in_range(
                            self.data@[3 * q],
                            self.data@[3 * q + 1],
                            self.data@[3 * q + 2],
                            range,
                        ) { 255u8 } else { 0u8 }),
            decreases n - p,
        {
            let b = self.data[3 * p];
            let gch = self.data[3 * p + 1];
            let r = self.data[3 * p + 2];
            if hsv_px_in_range(b, gch, r, range) {
                out.push(255);
            } else {
                out.push(0);
            }
            p += 1;
        }
        GrayImage { width: self.width, height: self.height, data: out }
    }

    /// Keeps the full width and the rows `[crop_y, crop_y + crop_height)`.
    /// The result's bytes are exactly the corresponding slice of the
    /// original's storage.
    pub fn vertical_crop_image(&self, crop_y: CropY, crop_height: CropHeight) -> (c: ColorImage)
        requires
            self.wf(),
            0 <= crop_y.0,
            0 <= crop_height.0,
            crop_y.0 + crop_height.0 <= self.height,
        ensures
            c.wf(),
            c.width == self.width,
            c.height == crop_height.0,
            c.data@ == self.data@.subrange(
                crop_y.0 * self.width * 3,
                (crop_y.0 + crop_height.0) * self.width * 3,
            ),
            forall|x: int, y: int, ch: int|
                0 <= x < self.width && 0 <= y < crop_height.0 && 0 <= ch < 3
                    ==> c.pixel(x, y, ch) == self.pixel(x, crop_y.0 + y, ch),
    {
        proof {
            lemma_vertical_span(self.width as int, self.height as int, crop_y.0 as int, crop_height.0 as int);
        }
        let y0 = crop_y.0 as usize;
        let ch_rows = crop_height.0 as usize;
        let start = y0 * self.width * 3;
        let end = (y0 + ch_rows) * self.width * 3;
        let mut out: Vec<u8> = Vec::new();
        let mut i: usize = start;
        while i < end
            invariant
                self.wf(),
                start == y0 * self.width * 3,
                end == (y0 + ch_rows) * self.width * 3,
                start <= i <= end,
                end <= self.data@.len(),
                out@ == self.data@.subrange(start as int, i as int),
            decreases end - i,
        {
            out.push(self.data[i]);
            proof {
                assert(out@ =~= self.data@.subrange(start as int, i + 1));
            }
            i += 1;
        }
        let result = ColorImage { width: self.width, height: crop_height.0 as usize, data: out };
        proof {
            lemma_vertical_crop_pixels(*self, result, crop_y.0 as int, crop_height.0 as int);
        }
        result
    }

    /// Keeps the full height and the columns `[crop_x, crop_x + crop_width)`.
    pub fn horizontal_crop_image(&self, crop_x: CropX, crop_width: CropWidth) -> (c: ColorImage)
        requires
            self.wf(),
            0 <= crop_x.0,
            0 <= crop_width.0,
            crop_x.0 + crop_width.0 <= self.width,
        ensures
            c.wf(),
            c.width == crop_width.0,
            c.height == self.height,
            forall|x: int, y: int, ch: int|
                0 <= x < crop_width.0 && 0 <= y < self.height && 0 <= ch < 3
                    ==> c.pixel(x, y, ch) == self.pixel(crop_x.0 + x, y, ch),
    {
        let x0 = crop_x.0 as usize;
        let cw = crop_width.0 as usize;
        let seg = cw * 3;
        proof {
            lemma_horizontal_bounds(self.width as int, self.height as int, x0 as int, cw as int);
        }
        let mut out: Vec<u8> = Vec::new();
        let mut y: usize = 0;
        while y < self.height
            invariant
                self.wf(),
                x0 + cw <= self.width,
                seg == cw * 3,
                seg * self.height <= self.data@.len(),
                y <= self.height,
                out@.len() == y * seg,
                forall|j: int| 0 <= j < out@.len()
                    ==> #[trigger] out@[j]
                        == self.data@[hcrop_src_index(self.width as int, x0 as int, seg as int, j)],
            decreases self.height - y,
        {
            proof {
                lemma_row_segment_bound(self.width as int, self.height as int, x0 as int, cw as int, y as int);
                assert(y * seg <= (self.height - 1) * seg) by (nonlinear_arith)
                    requires 0 <= seg && y <= self.height - 1;
                assert((self.height - 1) * seg + seg == self.height * seg) by (nonlinear_arith);
                assert(seg * self.height == self.height * seg) by (nonlinear_arith);
            }
            let base = (y * self.width + x0) * 3;
            let mut k: usize = 0;
            while k < seg
                invariant
                    self.wf(),
                    x0 + cw <= self.width,
                    seg == cw * 3,
                    y < self.height,
                    base == (y * self.width + x0) * 3,
                    base + seg <= self.data@.len(),
                    k <= seg,
                    out@.len() == y * seg + k,
                    forall|j: int| 0 <= j < y * seg + k
                        ==> #[trigger] out@[j]
                            == self.data@[hcrop_src_index(self.width as int, x0 as int, seg as int, j)],
                decreases seg - k,
            {
                out.push(self.data[base + k]);
                proof {
                    let ln = (y * seg + k) as int;
                    vstd::arithmetic::div_mod::lemma_fundamental_div_mod_converse(
                        ln, seg as int, y as int, k as int);
                    assert(hcrop_src_index(self.width as int, x0 as int, seg as int, ln)
                        == base + k);
                }
                k += 1;
            }
            y += 1;
            proof {
                assert(y * seg == (y - 1) * seg + seg) by (nonlinear_arith);
            }
        }
        let result = ColorImage { width: cw, height: self.height, data: out };
        proof {
            lemma_horizontal_crop_pixels(*self, result, x0 as int, cw as int);
        }
        result
    }

    /// Vertical concatenation: `self` on top, `other` below. The result's
    /// bytes are exactly the two storages in sequence.
    pub fn get_merged_below(&self, other: &ColorImage) -> (m: ColorImage)
        requires
            self.wf(),
            other.wf(),
            self.width == other.width,
            self.data@.len() + other.data@.len() <= MAX_PIXEL_BYTES,
            self.height + other.height <= MAX_IMAGE_DIM,
        ensures
            m.wf(),
            m.width == self.width,
            m.height == self.height + other.height,
            m.data@ == self.data@ + other.data@,
    {
        let mut out: Vec<u8> = Vec::new();
        let mut i: usize = 0;
        let n1 = self.data.len();
        while i < n1
            invariant
                n1 == self.data@.len(),
                i <= n1,
                out@ == self.data@.subrange(0, i as int),
            decreases n1 - i,
        {
            out.push(self.data[i]);
            proof {
                assert(out@ =~= self.data@.subrange(0, i + 1));
            }
            i += 1;
        }
        assert(out@ =~= self.data@);
        let n2 = other.data.len();
        let mut j: usize = 0;
        while j < n2
            invariant
                n2 == other.data@.len(),
                j <= n2,
                out@ == self.data@ + other.data@.subrange(0, j as int),
            decreases n2 - j,
        {
            out.push(other.data[j]);
            proof {
                assert(out@ =~= self.data@ + other.data@.subrange(0, j + 1));
            }
            j += 1;
        }
        assert(out@ =~= self.data@ + other.data@);
        proof {
            lemma_concat_height(self.width as int, self.height as int, other.height as int);
        }
        ColorImage { width: self.width, height: self.height + other.height, data: out }
    }
}

impl GrayImage {
    pub open spec fn wf(self) -> bool {
        &&& self.data@.len() == self.width * self.height
        &&& self.width <= MAX_IMAGE_DIM
        &&& self.height <= MAX_IMAGE_DIM
        &&& self.data@.len() <= MAX_PIXEL_BYTES
    }

    /// The pixel at `(x, y)`.
    pub open spec fn pixel(self, x: int, y: int) -> u8 {
        self.data@[y * self.width + x]
    }

    /// Wraps raw bytes; `None` when the byte count does not match the
    /// dimensions or a size cap is exceeded.
    pub fn from_raw(width: usize, height: usize, data: Vec<u8>) -> (res: Option<GrayImage>)
        ensures
            match res {
                Some(img) => {
                    &&& img.wf()
                    &&& img.width == width
                    &&& img.height == height
                    &&& img.data@ == data@
                },
                None => !(GrayImage { width, height, data }).wf(),
            },
    {
        if width > MAX_IMAGE_DIM || height > MAX_IMAGE_DIM {
            return None;
        }
        if data.len() > MAX_PIXEL_BYTES {
            return None;
        }
        proof {
            assert((width as int) * (height as int) <= 0x2386f26fc10000) by (nonlinear_arith)
                requires width <= MAX_IMAGE_DIM && height <= MAX_IMAGE_DIM;
        }
        let expected: u64 = width as u64 * height as u64;
        if data.len() as u64 == expected {
            Some(GrayImage { width, height, data })
        } else {
            None
        }
    }

    /// The pixel at `(x, y)`.
    pub fn at(&self, x: usize, y: usize) -> (v: u8)
        requires
            self.wf(),
            x < self.width,
            y < self.height,
        ensures
            v == self.pixel(x as int, y as int),
    {
        proof {
            lemma_row_major_bound(self.width as int, self.height as int, x as int, y as int);
        }
        self.data[y * self.width + x]
    }

    /// Binary threshold: 255 where the intensity is at least `t`,
    /// otherwise 0.
    pub fn threshold_binary(&self, t: u8) -> (m: GrayImage)
        requires
            self.wf(),
        ensures
            m.wf(),
            m.width == self.width,
            m.height == self.height,
            forall|p: int| 0 <= p < m.data@.len()
                ==> m.data@[p] == (if self.data@[p] >= t { 255u8 } else { 0u8 }),
    {
        let n = self.data.len();
        let mut out: Vec<u8> = Vec::new();
        let mut i: usize = 0;
        while i < n
            invariant
                n == self.data@.len(),
                i <= n,
                out@.len() == i,
                forall|j: int| 0 <= j < i
                    ==> out@[j] == (if self.data@[j] >= t { 255u8 } else { 0u8 }),
            decreases n - i,
        {
            if self.data[i] >= t {
                out.push(255);
            } else {
                out.push(0);
            }
            i += 1;
        }
        GrayImage { width: self.width, height: self.height, data: out }
    }

    /// The pixels of row `y` restricted to columns `[x0, x1)`, left to right.
    pub fn row_slice(&self, y: usize, x0: usize, x1: usize) -> (row: Vec<u8>)
        requires
            self.wf(),
            y < self.height,
            x0 <= x1,
            x1 <= self.width,
        ensures
            row@.len() == x1 - x0,
            forall|i: int| 0 <= i < row@.len() ==> row@[i] == self.pixel(x0 + i, y as int),
    {
        let mut out: Vec<u8> = Vec::new();
        let mut x: usize = x0;
        while x < x1
            invariant
                self.wf(),
                y < self.height,
                x0 <= x <= x1,
                x1 <= self.width,
                out@.len() == x - x0,
                forall|i: int| 0 <= i < out@.len() ==> out@[i] == self.pixel(x0 + i, y as int),
            decreases x1 - x,
        {
            out.push(self.at(x, y));
            x += 1;
        }
        out
    }

    /// The pixels of column `x` restricted to rows `[y0, y1)`, top to bottom.
    pub fn col_slice(&self, x: usize, y0: usize, y1: usize) -> (col: Vec<u8>)
        requires
            self.wf(),
            x < self.width,
            y0 <= y1,
            y1 <= self.height,
        ensures
            col@.len() == y1 - y0,
            forall|i: int| 0 <= i < col@.len() ==> col@[i] == self.pixel(x as int, y0 + i),
    {
        let mut out: Vec<u8> = Vec::new();
        let mut y: usize = y0;
        while y < y1
            invariant
                self.wf(),
                x < self.width,
                y0 <= y <= y1,
                y1 <= self.height,
                out@.len() == y - y0,
                forall|i: int| 0 <= i < out@.len() ==> out@[i] == self.pixel(x as int, y0 + i),
            decreases y1 - y,
        {
            out.push(self.at(x, y));
            y += 1;
        }
        out
    }

    /// The pixels of column `x` restricted to rows `[y0, y1)`, bottom to top.
    pub fn col_slice_rev(&self, x: usize, y0: usize, y1: usize) -> (col: Vec<u8>)
        requires
            self.wf(),
            x < self.width,
            y0 <= y1,
            y1 <= self.height,
        ensures
            col@.len() == y1 - y0,
            forall|i: int| 0 <= i < col@.len() ==> col@[i] == self.pixel(x as int, y1 - 1 - i),
    {
        let mut out: Vec<u8> = Vec::new();
        let mut y: usize = y1;
        while y > y0
            invariant
                self.wf(),
                x < self.width,
                y0 <= y <= y1,
                y1 <= self.height,
                out@.len() == y1 - y,
                forall|i: int| 0 <= i < out@.len() ==> out@[i] == self.pixel(x as int, y1 - 1 - i),
            decreases y - y0,
        {
            y -= 1;
            out.push(self.at(x, y));
        }
        out
    }
}

/// Executable counterpart of `gray_of`.
pub fn gray_px(b: u8, g: u8, r: u8) -> (v: u8)
    ensures
        v == gray_of(b, g, r),
{
    let sum: u32 = 77 * (r as u32) + 150 * (g as u32) + 29 * (b as u32) + 128;
    (sum / 256) as u8
}

/// Executable counterpart of `hsv_in_range`.
pub fn hsv_px_in_range(b: u8, g: u8, r: u8, range: HsvRange) -> (res: bool)
    ensures
        res == hsv_in_range(b, g, r, range),
{
    let v: u8 = if r >= g && r >= b { r } else if g >= b { g } else { b };
    let mn: u8 = if r <= g && r <= b { r } else if g <= b { g } else { b };
    assert(v == max3(b, g, r));
    assert(mn == min3(b, g, r));
    let d: u32 = (v - mn) as u32;
    let h: u32 = if d == 0 {
        0
    } else {
        let raw: u32 = if r == v {
            if g >= b {
                proof { lemma_scaled_ratio_bound(g as int - b as int, d as int); }
                60 * (g as u32 - b as u32) / d
            } else {
                proof { lemma_scaled_ratio_bound(b as int - g as int, d as int); }
                360 - 60 * (b as u32 - g as u32) / d
            }
        } else if g == v {
            if b >= r {
                proof { lemma_scaled_ratio_bound(b as int - r as int, d as int); }
                120 + 60 * (b as u32 - r as u32) / d
            } else {
                proof { lemma_scaled_ratio_bound(r as int - b as int, d as int); }
                120 - 60 * (r as u32 - b as u32) / d
            }
        } else {
            if r >= g {
                proof { lemma_scaled_ratio_bound(r as int - g as int, d as int); }
                240 + 60 * (r as u32 - g as u32) / d
            } else {
                proof { lemma_scaled_ratio_bound(g as int - r as int, d as int); }
                240 - 60 * (g as u32 - r as u32) / d
            }
        };
        let wrapped: u32 = if raw == 360 { 0 } else { raw };
        wrapped / 2
    };
    assert(h == hsv_h_of(b, g, r));
    let s: u32 = if v == 0 {
        0
    } else {
        proof {
            lemma_saturation_bound(d as int, v as int);
        }
        255 * d / (v as u32)
    };
    assert(s == hsv_s_of(b, g, r));
    (range.h_lo as u32) <= h && h <= (range.h_hi as u32)
        && (range.s_lo as u32) <= s && s <= (range.s_hi as u32)
        && range.v_lo <= v && v <= range.v_hi
}

/// `60 * x / d` stays within `[0, 60]` when `0 <= x <= d`.
proof fn lemma_scaled_ratio_bound(x: int, d: int)
    requires
        0 < d,
        0 <= x <= d,
    ensures
        0 <= 60 * x / d <= 60,
{
    assert(0 <= 60 * x / d <= 60) by (nonlinear_arith)
        requires 0 < d && 0 <= x <= d;
}

/// `255 * d / v` stays within `[0, 255]` when `0 <= d <= v`.
proof fn lemma_saturation_bound(d: int, v: int)
    requires
        0 < v,
        0 <= d <= v,
    ensures
        0 <= 255 * d / v <= 255,
{
    assert(0 <= 255 * d / v <= 255) by (nonlinear_arith)
        requires 0 < v && 0 <= d <= v;
}

/// Byte offsets of a vertical row band stay inside the storage.
proof fn lemma_vertical_span(w: int, h: int, y0: int, rows: int)
    requires
        0 <= w,
        0 <= y0,
        0 <= rows,
        y0 + rows <= h,
    ensures
        0 <= y0 * w * 3,
        y0 * w * 3 <= (y0 + rows) * w * 3,
        (y0 + rows) * w * 3 <= h * w * 3,
        (y0 + rows) * w * 3 - y0 * w * 3 == rows * (w * 3),
        rows * (w * 3) == rows * w * 3,
    {
    assert(0 <= y0 * w * 3 && y0 * w * 3 <= (y0 + rows) * w * 3 && (y0 + rows) * w * 3 <= h * w * 3
        && (y0 + rows) * w * 3 - y0 * w * 3 == rows * (w * 3) && rows * (w * 3) == rows * w * 3)
        by (nonlinear_arith)
        requires 0 <= w && 0 <= y0 && 0 <= rows && y0 + rows <= h;
}

/// Pixels of a vertical crop line up with the source rows.
proof fn lemma_vertical_crop_pixels(src: ColorImage, dst: ColorImage, y0: int, rows: int)
    requires
        src.wf(),
        0 <= y0,
        0 <= rows,
        y0 + rows <= src.height,
        dst.width == src.width,
        dst.height == rows,
        dst.data@ == src.data@.subrange(y0 * src.width * 3, (y0 + rows) * src.width * 3),
    ensures
        dst.wf(),
        forall|x: int, y: int, ch: int|
            0 <= x < src.width && 0 <= y < rows && 0 <= ch < 3
                ==> dst.pixel(x, y, ch) == src.pixel(x, y0 + y, ch),
{
    let w = src.width as int;
    lemma_vertical_span(w, src.height as int, y0, rows);
    assert(dst.data@.len() == rows * w * 3);
    assert(dst.data@.len() == dst.width * dst.height * 3) by (nonlinear_arith)
        requires dst.data@.len() == rows * w * 3 && dst.width == w && dst.height == rows;
    assert forall|x: int, y: int, ch: int|
        0 <= x < src.width && 0 <= y < rows && 0 <= ch < 3
            implies dst.pixel(x, y, ch) == src.pixel(x, y0 + y, ch) by {
        lemma_row_major_bound(w, rows, x, y);
        assert((y * w + x) * 3 + ch < rows * w * 3) by (nonlinear_arith)
            requires 0 <= (y * w + x) && (y * w + x) < rows * w && 0 <= ch < 3;
        assert(y0 * w * 3 + ((y * w + x) * 3 + ch) == (((y0 + y) * w + x) * 3 + ch)) by (nonlinear_arith);
    }
}

/// Bounds used while cropping columns.
proof fn lemma_horizontal_bounds(w: int, h: int, x0: int, cw: int)
    requires
        0 <= x0,
        0 <= cw,
        x0 + cw <= w,
        0 <= h,
    ensures
        (cw * 3) * h <= w * h * 3,
{
    assert((cw * 3) * h <= w * h * 3) by (nonlinear_arith)
        requires 0 <= cw && cw <= w && 0 <= h;
}

/// The row segment copied by a horizontal crop stays inside the storage.
proof fn lemma_row_segment_bound(w: int, h: int, x0: int, cw: int, y: int)
    requires
        0 <= x0,
        0 <= cw,
        x0 + cw <= w,
        0 <= y < h,
    ensures
        0 <= (y * w + x0) * 3,
        (y * w + x0) * 3 + cw * 3 <= w * h * 3,
{
    assert(0 <= (y * w + x0) * 3 && (y * w + x0) * 3 + cw * 3 <= w * h * 3) by (nonlinear_arith)
        requires 0 <= x0 && 0 <= cw && x0 + cw <= w && 0 <= y < h;
}

/// Source byte offset that feeds position `j` of a horizontal crop whose
/// rows are `seg` bytes long.
pub open spec fn hcrop_src_index(w: int, x0: int, seg: int, j: int) -> int {
    ((j / seg) * w + x0) * 3 + (j % seg)
}

/// Pixels of a horizontal crop line up with the source columns.
proof fn lemma_horizontal_crop_pixels(src: ColorImage, dst: ColorImage, x0: int, cw: int)
    requires
        src.wf(),
        0 <= x0,
        0 <= cw,
        x0 + cw <= src.width,
        dst.width == cw,
        dst.height == src.height,
        dst.data@.len() == src.height * (cw * 3),
        forall|j: int| 0 <= j < dst.data@.len()
            ==> #[trigger] dst.data@[j] == src.data@[hcrop_src_index(src.width as int, x0, cw * 3, j)],
    ensures
        dst.wf(),
        forall|x: int, y: int, ch: int|
            0 <= x < cw && 0 <= y < src.height && 0 <= ch < 3
                ==> dst.pixel(x, y, ch) == src.pixel(x0 + x, y, ch),
{
    let w = src.width as int;
    let h = src.height as int;
    let seg = cw * 3;
    assert(dst.data@.len() == dst.width * dst.height * 3) by (nonlinear_arith)
        requires dst.data@.len() == h * (cw * 3) && dst.width == cw && dst.height == h;
    assert(dst.data@.len() <= src.data@.len()) by (nonlinear_arith)
        requires dst.data@.len() == h * (cw * 3) && src.data@.len() == w * h * 3 && 0 <= cw && cw <= w && 0 <= h;
    assert forall|x: int, y: int, ch: int|
        0 <= x < cw && 0 <= y < h && 0 <= ch < 3
            implies dst.pixel(x, y, ch) == src.pixel(x0 + x, y, ch) by {
        let j = (y * cw + x) * 3 + ch;
        assert(j == y * seg + (x * 3 + ch)) by (nonlinear_arith)
            requires seg == cw * 3 && j == (y * cw + x) * 3 + ch;
        assert(0 <= x * 3 + ch < seg);
        vstd::arithmetic::div_mod::lemma_fundamental_div_mod_converse(j, seg, y, x * 3 + ch);
        assert(0 <= j < dst.data@.len()) by (nonlinear_arith)
            requires
                j == y * seg + (x * 3 + ch) && 0 <= x * 3 + ch < seg
                && 0 <= y < h && dst.data@.len() == h * seg;
        assert(hcrop_src_index(w, x0, seg, j) == (y * w + x0) * 3 + (x * 3 + ch));
        assert((y * w + (x0 + x)) * 3 + ch == (y * w + x0) * 3 + (x * 3 + ch)) by (nonlinear_arith);
    }
}

/// Dimension bookkeeping for vertical concatenation.
proof fn lemma_concat_height(w: int, h1: int, h2: int)
    requires
        0 <= w,
        0 <= h1,
        0 <= h2,
    ensures
        w * h1 * 3 + w * h2 * 3 == w * (h1 + h2) * 3,
{
    assert(w * h1 * 3 + w * h2 * 3 == w * (h1 + h2) * 3) by (nonlinear_arith);
}

} // verus!
