//! Frames, the margin and region detectors, and the composite builder that
//! assembles status chrome, the merged scrolling column, and footer chrome
//! into the final image.

use vstd::prelude::*;

use crate::{Error, FailedStage};
use crate::factor::{
    fold_model, models, FactorListImage, FactorListPartialImage, ViewModel,
};
use crate::geometry::{CropHeight, CropY, Rect};
use crate::pixels::{absdiff_of, gray_of, hsv_in_range, ColorImage, GrayImage, HsvRange};
use crate::region::{
    covered_change_rect, is_run, is_run_rect, keep_candidate, mask_px, row_run_rects, run_covers,
};
use crate::scan::{
    get_position_black_after_white, get_position_white_after_black, mean_of_range,
    sorted_ascending,
};

verus! {

/// How much chrome the final composite sheds at its top edge.
#[derive(Debug, Copy, Clone, PartialEq, Eq, Structural)]
pub enum HeaderTrimMode {
    /// Remove only the blank margin above the content.
    TrimMarginOnly,
    /// Remove the margin and the title bar.
    TrimTitleBar,
}

/// Per-render options. A pure value: rendering never mutates it.
#[derive(Debug, Copy, Clone)]
pub struct ImageConfig {
    /// Chrome trimming policy; `None` renders the full composite.
    pub header_trim_mode: Option<HeaderTrimMode>,
    /// Whether the footer (close-button area) is appended below the column.
    pub do_merge_close_button: bool,
    /// When set, frames larger than this many pixels are downscaled at load
    /// time; the scaling itself happens outside this crate.
    pub scaling_threshold_pixels: Option<i32>,
}

impl Default for ImageConfig {
    fn default() -> (c: Self)
        ensures
            c.header_trim_mode is None,
            c.do_merge_close_button == true,
            c.scaling_threshold_pixels is None,
    {
        Self {
            header_trim_mode: None,
            do_merge_close_button: true,
            scaling_threshold_pixels: None,
        }
    }
}

/// The chrome above the scrollable region: status bar plus header.
#[derive(Debug)]
pub struct StatusImage {
    pub image: ColorImage,
}

impl StatusImage {
    pub fn width(&self) -> (w: usize)
        ensures
            w == self.image.width,
    {
        self.image.width
    }

    pub fn height(&self) -> (h: usize)
        ensures
            h == self.image.height,
    {
        self.image.height
    }
}

/// The chrome below the scrollable region: footer and close button.
#[derive(Debug)]
pub struct FooterImage {
    pub image: ColorImage,
}

impl FooterImage {
    pub fn width(&self) -> (w: usize)
        ensures
            w == self.image.width,
    {
        self.image.width
    }

    pub fn height(&self) -> (h: usize)
        ensures
            h == self.image.height,
    {
        self.image.height
    }
}

/// The binarization threshold applied to the inter-frame difference: a
/// difference pixel whose intensity reaches this value counts as changed.
pub const DIFF_BINARY_THRESHOLD: u8 = 70;

/// One pixel of the binarized difference of two frames: 255 where the
/// intensity of the per-channel absolute difference reaches the threshold,
/// otherwise 0.
pub open spec fn diff_mask_px(a: ColorImage, b: ColorImage, p: int) -> u8 {
    if gray_of(
        absdiff_of(a.data@[3 * p], b.data@[3 * p]),
        absdiff_of(a.data@[3 * p + 1], b.data@[3 * p + 1]),
        absdiff_of(a.data@[3 * p + 2], b.data@[3 * p + 2]),
    ) >= DIFF_BINARY_THRESHOLD {
        255u8
    } else {
        0u8
    }
}

/// The binarized difference of two frames as a flat mask.
pub open spec fn diff_mask_model(a: ColorImage, b: ColorImage) -> Seq<u8> {
    Seq::new((a.width * a.height) as nat, |p: int| diff_mask_px(a, b, p))
}

/// The mask of the pixels of `img` whose HSV coordinates fall in `range`.
pub open spec fn hsv_mask_model(img: ColorImage, range: HsvRange) -> Seq<u8> {
    Seq::new(
        (img.width * img.height) as nat,
        |p: int| if hsv_in_range(
            img.data@[3 * p],
            img.data@[3 * p + 1],
            img.data@[3 * p + 2],
            range,
        ) { 255u8 } else { 0u8 },
    )
}

/// One loaded screenshot, with the scrollable-region rectangle once a
/// region detection run has assigned it.
#[derive(Debug)]
pub struct HorseGirlDetailImage {
    pub image: ColorImage,
    pub factor_list_area: Option<Rect>,
}

impl HorseGirlDetailImage {
    pub open spec fn wf(self) -> bool {
        &&& self.image.wf()
        &&& (match self.factor_list_area {
            Some(a) => {
                &&& a.wf()
                &&& a.right() <= self.image.width
                &&& a.bottom() <= self.image.height
            },
            None => true,
        })
    }

    /// Wraps one decoded frame; the scrollable region starts unset.
    pub fn from_image(image: ColorImage) -> (d: Self)
        requires
            image.wf(),
        ensures
            d.wf(),
            d.image == image,
            d.factor_list_area is None,
    {
        Self { image, factor_list_area: None }
    }

    pub fn width(&self) -> (w: usize)
        ensures
            w == self.image.width,
    {
        self.image.width
    }

    pub fn height(&self) -> (h: usize)
        ensures
            h == self.image.height,
    {
        self.image.height
    }

    /// Number of pixels in the frame.
    pub fn pixels_count(&self) -> (n: u64)
        requires
            self.wf(),
        ensures
            n == self.image.width * self.image.height,
    {
        proof {
            assert((self.image.width as int) * (self.image.height as int) <= 0x2386f26fc10000)
                by (nonlinear_arith)
                requires self.image.width <= 100000000 && self.image.height <= 100000000;
        }
        self.image.width as u64 * self.image.height as u64
    }

    /// The scrollable-region rectangle, or `RequiredCalculationsIsNotCompleted`
    /// when no region detection run has assigned it yet.
    pub fn get_factor_list_area(&self) -> (res: Result<Rect, Error>)
        ensures
            (match res {
                Ok(r) => self.factor_list_area == Some(r),
                Err(e) => {
                    &&& self.factor_list_area is None
                    &&& (e matches Error::RequiredCalculationsIsNotCompleted { .. })
                },
            }),
    {
        match self.factor_list_area {
            Some(r) => Ok(r),
            None => Err(Error::RequiredCalculationsIsNotCompleted {
                message: "run HorseGirlFullDetailImage::calc_children_list_area() first".to_string(),
            }),
        }
    }

    /// The per-pixel absolute difference of two frames, converted to
    /// intensity and binarized at `DIFF_BINARY_THRESHOLD`.
    pub fn diff_binary(&self, other: &HorseGirlDetailImage) -> (m: GrayImage)
        requires
            self.wf(),
            other.wf(),
            self.image.width == other.image.width,
            self.image.height == other.image.height,
        ensures
            m.wf(),
            m.width == self.image.width,
            m.height == self.image.height,
            m.data@ == diff_mask_model(self.image, other.image),
    {
        let d = self.image.abs_diff(&other.image);
        let g = d.to_gray();
        let m = g.threshold_binary(DIFF_BINARY_THRESHOLD);
        proof {
            assert forall|p: int| 0 <= p < m.data@.len()
                implies m.data@[p] == diff_mask_px(self.image, other.image, p) by {
                assert(3 * p + 2 < d.data@.len());
            }
            assert(m.data@ =~= diff_mask_model(self.image, other.image));
        }
        m
    }

    /// Everything above the scrollable region, as one cropped image.
    pub fn get_status_image(&self) -> (res: Result<StatusImage, Error>)
        requires
            self.wf(),
        ensures
            (match res {
                Ok(s) => {
                    &&& self.factor_list_area matches Some(a)
                    &&& s.image.wf()
                    &&& s.image.width == self.image.width
                    &&& s.image.height == self.factor_list_area->Some_0.y
                    &&& s.image.data@ == self.image.data@.subrange(
                        0,
                        self.factor_list_area->Some_0.y * self.image.width * 3,
                    )
                },
                Err(e) => {
                    &&& self.factor_list_area is None
                    &&& (e matches Error::RequiredCalculationsIsNotCompleted { .. })
                },
            }),
    {
        let area = self.get_factor_list_area()?;
        let cropped = self.image.vertical_crop_image(CropY(0), CropHeight(area.y));
        proof {
            assert(0 * self.image.width * 3 == 0);
        }
        Ok(StatusImage { image: cropped })
    }

    /// Everything below the scrollable region, as one cropped image.
    pub fn get_footer_image(&self) -> (res: Result<FooterImage, Error>)
        requires
            self.wf(),
        ensures
            (match res {
                Ok(f) => {
                    &&& self.factor_list_area matches Some(a)
                    &&& f.image.wf()
                    &&& f.image.width == self.image.width
                    &&& f.image.height == self.image.height - self.factor_list_area->Some_0.bottom()
                    &&& f.image.data@ == self.image.data@.subrange(
                        self.factor_list_area->Some_0.bottom() * self.image.width * 3,
                        self.image.height * self.image.width * 3,
                    )
                },
                Err(e) => {
                    &&& self.factor_list_area is None
                    &&& (e matches Error::RequiredCalculationsIsNotCompleted { .. })
                },
            }),
    {
        let area = self.get_factor_list_area()?;
        let footer_start_y = area.y + area.height;
        let rows = self.image.height as i32 - footer_start_y;
        let cropped = self.image.vertical_crop_image(CropY(footer_start_y), CropHeight(rows));
        Ok(FooterImage { image: cropped })
    }

    /// The scrollable region of this frame as a partial view ready for
    /// alignment (see `FactorListPartialImage::from_detail`).
    pub fn get_factor_image(&self) -> (res: Result<FactorListPartialImage, Error>)
        requires
            self.wf(),
        ensures
            (match res {
                Ok(v) => {
                    &&& self.factor_list_area is Some
                    &&& v.wf()
                    &&& v.view_model() == frame_view(*self)
                },
                Err(e) => {
                    &&& self.factor_list_area is None
                    &&& (e matches Error::RequiredCalculationsIsNotCompleted { .. })
                },
            }),
    {
        FactorListPartialImage::from_detail(self)
    }
}

/// HSV box of the light chrome color left and right of the scrollable
/// region (excluding saturated or bright interface elements).
pub open spec fn lr_margin_range() -> HsvRange {
    HsvRange { h_lo: 0, s_lo: 0, v_lo: 0, h_hi: 250, s_hi: 140, v_hi: 240 }
}

/// HSV box of the saturated title-bar accent color.
pub open spec fn top_margin_range() -> HsvRange {
    HsvRange { h_lo: 25, s_lo: 160, v_lo: 160, h_hi: 60, s_hi: 255, v_hi: 255 }
}

/// HSV box of the near-white background below the scrollable region.
pub open spec fn bottom_margin_range() -> HsvRange {
    HsvRange { h_lo: 0, s_lo: 0, v_lo: 254, h_hi: 5, s_hi: 20, v_hi: 255 }
}

/// Row `y` of a mask, restricted to columns `[x0, x1)`.
pub open spec fn mask_row_seq(md: Seq<u8>, w: int, y: int, x0: int, x1: int) -> Seq<u8> {
    Seq::new((x1 - x0) as nat, |i: int| mask_px(md, w, x0 + i, y))
}

/// Column `x` of a mask, restricted to rows `[y0, y1)`, top to bottom.
pub open spec fn mask_col_seq(md: Seq<u8>, w: int, x: int, y0: int, y1: int) -> Seq<u8> {
    Seq::new((y1 - y0) as nat, |i: int| mask_px(md, w, x, y0 + i))
}

/// Column `x` of a mask, restricted to rows `[y0, y1)`, bottom to top.
pub open spec fn mask_col_seq_rev(md: Seq<u8>, w: int, x: int, y0: int, y1: int) -> Seq<u8> {
    Seq::new((y1 - y0) as nat, |i: int| mask_px(md, w, x, y1 - 1 - i))
}

/// The black-after-white transition positions found in the first `n` rows
/// of the chrome mask restricted to the columns left of the region, in row
/// order; rows without a transition contribute nothing.
pub open spec fn lr_transitions_upto(md: Seq<u8>, w: int, a: Rect, n: int) -> Seq<usize>
    decreases n,
{
    if n <= 0 {
        Seq::empty()
    } else {
        let prev = lr_transitions_upto(md, w, a, n - 1);
        match crate::scan::first_black_after_white(
            mask_row_seq(md, w, a.y + n - 1, 0, a.x as int),
        ) {
            Some(i) => prev.push(i),
            None => prev,
        }
    }
}

/// All left-margin transitions of the region's rows.
pub open spec fn lr_transitions(md: Seq<u8>, w: int, a: Rect) -> Seq<usize> {
    lr_transitions_upto(md, w, a, a.height as int)
}

/// The transition positions found in the first `n` columns of the accent
/// mask restricted to the top half of the frame, in column order. With the
/// title bar included the transition is black-after-white, otherwise
/// white-after-black.
pub open spec fn top_transitions_upto(
    md: Seq<u8>,
    w: int,
    half: int,
    a: Rect,
    include_title_bar: bool,
    n: int,
) -> Seq<usize>
    decreases n,
{
    if n <= 0 {
        Seq::empty()
    } else {
        let prev = top_transitions_upto(md, w, half, a, include_title_bar, n - 1);
        let col = mask_col_seq(md, w, a.x + n - 1, 0, half);
        let t = if include_title_bar {
            crate::scan::first_black_after_white(col)
        } else {
            crate::scan::first_white_after_black(col)
        };
        match t {
            Some(i) => prev.push(i),
            None => prev,
        }
    }
}

/// All top-margin transitions of the region's columns.
pub open spec fn top_transitions(
    md: Seq<u8>,
    w: int,
    half: int,
    a: Rect,
    include_title_bar: bool,
) -> Seq<usize> {
    top_transitions_upto(md, w, half, a, include_title_bar, a.width as int)
}

/// The white-after-black transition positions found scanning the first `n`
/// columns of the background mask below the region, bottom to top, in
/// column order.
pub open spec fn bottom_transitions_upto(md: Seq<u8>, w: int, h: int, a: Rect, n: int) -> Seq<usize>
    decreases n,
{
    if n <= 0 {
        Seq::empty()
    } else {
        let prev = bottom_transitions_upto(md, w, h, a, n - 1);
        let col = mask_col_seq_rev(md, w, a.x + n - 1, a.bottom(), h);
        match crate::scan::first_white_after_black(col) {
            Some(i) => prev.push(i),
            None => prev,
        }
    }
}

/// All bottom-margin transitions of the region's columns.
pub open spec fn bottom_transitions(md: Seq<u8>, w: int, h: int, a: Rect) -> Seq<usize> {
    bottom_transitions_upto(md, w, h, a, a.width as int)
}

/// The largest element of a sequence of transition positions (0 when
/// empty).
pub open spec fn seq_max_usize(s: Seq<usize>) -> usize
    decreases s.len(),
{
    if s.len() == 0 {
        0
    } else if s.len() == 1 {
        s[0]
    } else {
        let m = seq_max_usize(s.drop_last());
        if s.last() > m {
            s.last()
        } else {
            m
        }
    }
}

/// `m` is the left/right margin of frame `d`: the region rectangle is
/// assigned, at least one of its rows shows a black-after-white transition
/// in the chrome mask left of the region, and `m` is the largest such
/// transition position.
pub open spec fn lr_margin_ok(d: HorseGirlDetailImage, m: int) -> bool {
    match d.factor_list_area {
        Some(a) => {
            let t = lr_transitions(
                hsv_mask_model(d.image, lr_margin_range()),
                d.image.width as int,
                a,
            );
            &&& t.len() > 0
            &&& m == seq_max_usize(t)
        },
        None => false,
    }
}

/// No row of the chrome mask left of the region shows a transition.
pub open spec fn lr_margin_none(d: HorseGirlDetailImage) -> bool {
    match d.factor_list_area {
        Some(a) => lr_transitions(
            hsv_mask_model(d.image, lr_margin_range()),
            d.image.width as int,
            a,
        ).len() == 0,
        None => false,
    }
}

/// `m` is the top margin of frame `d`: at least one region column shows a
/// transition in the accent mask over the top half of the frame, and `m`
/// is the mean of the upper half of the sorted transition positions (the
/// smaller half is discarded to filter outlier columns).
pub open spec fn top_margin_ok(d: HorseGirlDetailImage, include_title_bar: bool, m: int) -> bool {
    match d.factor_list_area {
        Some(a) => {
            let t = top_transitions(
                hsv_mask_model(d.image, top_margin_range()),
                d.image.width as int,
                d.image.height as int / 2,
                a,
                include_title_bar,
            );
            let ts = t.sort_by(crate::scan::usize_leq());
            &&& t.len() > 0
            &&& m == crate::scan::seq_sum(ts.subrange(t.len() as int / 2, t.len() as int))
                / (t.len() as int - t.len() as int / 2)
        },
        None => false,
    }
}

/// No region column shows a top-margin transition.
pub open spec fn top_margin_none(d: HorseGirlDetailImage, include_title_bar: bool) -> bool {
    match d.factor_list_area {
        Some(a) => top_transitions(
            hsv_mask_model(d.image, top_margin_range()),
            d.image.width as int,
            d.image.height as int / 2,
            a,
            include_title_bar,
        ).len() == 0,
        None => false,
    }
}

/// `m` is the bottom margin of frame `d`: at least two region columns show
/// a white-after-black transition scanning the background mask below the
/// region bottom to top, and `m` is the mean of the lower half of the
/// sorted transition positions.
pub open spec fn bottom_margin_ok(d: HorseGirlDetailImage, m: int) -> bool {
    match d.factor_list_area {
        Some(a) => {
            let t = bottom_transitions(
                hsv_mask_model(d.image, bottom_margin_range()),
                d.image.width as int,
                d.image.height as int,
                a,
            );
            let ts = t.sort_by(crate::scan::usize_leq());
            &&& t.len() >= 2
            &&& m == crate::scan::seq_sum(ts.subrange(0, t.len() as int / 2))
                / (t.len() as int / 2)
        },
        None => false,
    }
}

/// Fewer than two region columns show a bottom-margin transition, so no
/// stable mean exists.
pub open spec fn bottom_margin_none(d: HorseGirlDetailImage) -> bool {
    match d.factor_list_area {
        Some(a) => bottom_transitions(
            hsv_mask_model(d.image, bottom_margin_range()),
            d.image.width as int,
            d.image.height as int,
            a,
        ).len() <= 1,
        None => false,
    }
}

impl HorseGirlDetailImage {
    /// Measures the chrome margin left (and, by symmetry of the layout,
    /// right) of the scrollable region: thresholds the frame for the light
    /// chrome color, scans each region row left to right for the first
    /// black-after-white transition, and takes the largest transition
    /// position over all rows.
    pub fn get_left_right_margin(&self) -> (res: Result<i32, Error>)
        requires
            self.wf(),
        ensures
            (match res {
                Ok(m) => 0 <= m <= 100000000 && lr_margin_ok(*self, m as int),
                Err(e) => {
                    &&& ((e matches Error::RequiredCalculationsIsNotCompleted { .. })
                        || (e matches Error::ImageNotMatched { stage }
                            && stage == FailedStage::LeftRightMargin))
                    &&& ((e matches Error::RequiredCalculationsIsNotCompleted { .. })
                        ==> self.factor_list_area is None)
                    &&& ((e matches Error::ImageNotMatched { .. }) ==> lr_margin_none(*self))
                },
            }),
    {
        let area = self.get_factor_list_area()?;
        let range = HsvRange { h_lo: 0, s_lo: 0, v_lo: 0, h_hi: 250, s_hi: 140, v_hi: 240 };
        let mask = self.image.hsv_mask(range);
        proof {
            assert(range == lr_margin_range());
            assert(mask.data@ =~= hsv_mask_model(self.image, lr_margin_range()));
        }
        let ghost md = mask.data@;
        let ghost w = mask.width as int;
        let rows = area.height as usize;
        let y0 = area.y as usize;
        let x1 = area.x as usize;
        let mut points: Vec<usize> = Vec::new();
        let mut y: usize = 0;
        while y < rows
            invariant
                self.wf(),
                self.factor_list_area == Some(area),
                mask.wf(),
                md == mask.data@,
                w == mask.width as int,
                mask.width == self.image.width,
                mask.height == self.image.height,
                rows == area.height,
                y0 == area.y,
                x1 == area.x,
                y <= rows,
                points@ == lr_transitions_upto(md, w, area, y as int),
                forall|j: int| 0 <= j < points@.len() ==> #[trigger] points@[j] < x1,
            decreases rows - y,
        {
            let row = mask.row_slice(y0 + y, 0, x1);
            proof {
                assert(row@ =~= mask_row_seq(md, w, (y0 + y) as int, 0, x1 as int));
                assert(area.y + (y + 1) - 1 == y0 + y);
            }
            match get_position_black_after_white(&row) {
                Some(i) => {
                    points.push(i);
                },
                None => {},
            }
            y += 1;
        }
        if points.len() == 0 {
            return Err(Error::ImageNotMatched { stage: FailedStage::LeftRightMargin });
        }
        let mut m: usize = points[0];
        let mut j: usize = 1;
        proof {
            assert(points@.subrange(0, 1) =~= seq![points@[0]]);
        }
        while j < points.len()
            invariant
                1 <= j <= points@.len(),
                m == seq_max_usize(points@.subrange(0, j as int)),
                forall|k: int| 0 <= k < points@.len() ==> #[trigger] points@[k] < x1,
                x1 <= 100000000,
                m < x1,
            decreases points@.len() - j,
        {
            let v = points[j];
            proof {
                assert(points@.subrange(0, j + 1).drop_last() =~= points@.subrange(0, j as int));
                assert(points@.subrange(0, j + 1).last() == points@[j as int]);
            }
            if v > m {
                m = v;
            }
            j += 1;
        }
        proof {
            assert(points@.subrange(0, points@.len() as int) =~= points@);
        }
        Ok(m as i32)
    }

    /// Measures the top chrome margin: thresholds the frame for the
    /// title-bar accent color over its top half, scans each region column
    /// top to bottom for a transition (black-after-white when the title bar
    /// is to be trimmed too, white-after-black otherwise), sorts the
    /// per-column transition rows and averages the larger half, which
    /// filters columns that crossed stray interface elements.
    pub fn get_top_margin(&self, include_title_bar: bool) -> (res: Result<i32, Error>)
        requires
            self.wf(),
        ensures
            (match res {
                Ok(m) => 0 <= m <= 100000000 && top_margin_ok(*self, include_title_bar, m as int),
                Err(e) => {
                    &&& ((e matches Error::RequiredCalculationsIsNotCompleted { .. })
                        || (e matches Error::ImageNotMatched { stage }
                            && stage == FailedStage::TopMargin))
                    &&& ((e matches Error::RequiredCalculationsIsNotCompleted { .. })
                        ==> self.factor_list_area is None)
                    &&& ((e matches Error::ImageNotMatched { .. })
                        ==> top_margin_none(*self, include_title_bar))
                },
            }),
    {
        let area = self.get_factor_list_area()?;
        let range = HsvRange { h_lo: 25, s_lo: 160, v_lo: 160, h_hi: 60, s_hi: 255, v_hi: 255 };
        let mask = self.image.hsv_mask(range);
        proof {
            assert(range == top_margin_range());
            assert(mask.data@ =~= hsv_mask_model(self.image, top_margin_range()));
        }
        let ghost md = mask.data@;
        let ghost w = mask.width as int;
        let half = self.image.height / 2;
        let cols = area.width as usize;
        let x0 = area.x as usize;
        let mut points: Vec<usize> = Vec::new();
        let mut x: usize = 0;
        while x < cols
            invariant
                self.wf(),
                self.factor_list_area == Some(area),
                mask.wf(),
                md == mask.data@,
                w == mask.width as int,
                mask.width == self.image.width,
                mask.height == self.image.height,
                half == self.image.height / 2,
                cols == area.width,
                x0 == area.x,
                x <= cols,
                points@ == top_transitions_upto(md, w, half as int, area, include_title_bar, x as int),
                points@.len() <= x,
                forall|j: int| 0 <= j < points@.len() ==> #[trigger] points@[j] <= 100000000,
            decreases cols - x,
        {
            let col = mask.col_slice(x0 + x, 0, half);
            proof {
                assert(col@ =~= mask_col_seq(md, w, (x0 + x) as int, 0, half as int));
                assert(area.x + (x + 1) - 1 == x0 + x);
            }
            let t = if include_title_bar {
                get_position_black_after_white(&col)
            } else {
                get_position_white_after_black(&col)
            };
            match t {
                Some(i) => {
                    points.push(i);
                },
                None => {},
            }
            x += 1;
        }
        if points.len() == 0 {
            return Err(Error::ImageNotMatched { stage: FailedStage::TopMargin });
        }
        let sorted = sorted_ascending(&points);
        proof {
            lemma_permutation_bound(sorted@, points@);
        }
        let lo = points.len() / 2;
        let hi = points.len();
        let m = mean_of_range(&sorted, lo, hi);
        Ok(m as i32)
    }

    /// Measures the bottom chrome margin: thresholds the frame for the
    /// near-white background, scans each region column below the region
    /// bottom to top for a white-after-black transition, sorts the
    /// per-column transition depths and averages the smaller half. At
    /// least two columns must yield a transition for the mean to be
    /// considered stable.
    pub fn get_bottom_margin(&self) -> (res: Result<i32, Error>)
        requires
            self.wf(),
        ensures
            (match res {
                Ok(m) => 0 <= m <= 100000000 && bottom_margin_ok(*self, m as int),
                Err(e) => {
                    &&& ((e matches Error::RequiredCalculationsIsNotCompleted { .. })
                        || (e matches Error::ImageNotMatched { stage }
                            && stage == FailedStage::BottomMargin))
                    &&& ((e matches Error::RequiredCalculationsIsNotCompleted { .. })
                        ==> self.factor_list_area is None)
                    &&& ((e matches Error::ImageNotMatched { .. }) ==> bottom_margin_none(*self))
                },
            }),
    {
        let area = self.get_factor_list_area()?;
        let range = HsvRange { h_lo: 0, s_lo: 0, v_lo: 254, h_hi: 5, s_hi: 20, v_hi: 255 };
        let mask = self.image.hsv_mask(range);
        proof {
            assert(range == bottom_margin_range());
            assert(mask.data@ =~= hsv_mask_model(self.image, bottom_margin_range()));
        }
        let ghost md = mask.data@;
        let ghost w = mask.width as int;
        let byt = (area.y + area.height) as usize;
        let h = self.image.height;
        let cols = area.width as usize;
        let x0 = area.x as usize;
        let mut points: Vec<usize> = Vec::new();
        let mut x: usize = 0;
        while x < cols
            invariant
                self.wf(),
                self.factor_list_area == Some(area),
                mask.wf(),
                md == mask.data@,
                w == mask.width as int,
                mask.width == self.image.width,
                mask.height == self.image.height,
                h == self.image.height,
                byt == area.bottom(),
                cols == area.width,
                x0 == area.x,
                x <= cols,
                points@ == bottom_transitions_upto(md, w, h as int, area, x as int),
                points@.len() <= x,
                forall|j: int| 0 <= j < points@.len() ==> #[trigger] points@[j] <= 100000000,
            decreases cols - x,
        {
            let col = mask.col_slice_rev(x0 + x, byt, h);
            proof {
                assert(col@ =~= mask_col_seq_rev(md, w, (x0 + x) as int, byt as int, h as int));
                assert(area.x + (x + 1) - 1 == x0 + x);
            }
            match get_position_white_after_black(&col) {
                Some(i) => {
                    points.push(i);
                },
                None => {},
            }
            x += 1;
        }
        if points.len() < 2 {
            return Err(Error::ImageNotMatched { stage: FailedStage::BottomMargin });
        }
        let sorted = sorted_ascending(&points);
        proof {
            lemma_permutation_bound(sorted@, points@);
        }
        let hi = points.len() / 2;
        let m = mean_of_range(&sorted, 0, hi);
        Ok(m as i32)
    }
}

/// Elements of a permutation obey the same upper bound as the original.
proof fn lemma_permutation_bound(a: Seq<usize>, b: Seq<usize>)
    requires
        a.to_multiset() == b.to_multiset(),
        forall|j: int| 0 <= j < b.len() ==> #[trigger] b[j] <= 100000000,
    ensures
        forall|j: int| 0 <= j < a.len() ==> #[trigger] a[j] <= 100000000,
{
    broadcast use vstd::seq_lib::group_to_multiset_ensures;

    assert forall|j: int| 0 <= j < a.len() implies #[trigger] a[j] <= 100000000 by {
        assert(a.to_multiset().contains(a[j]));
        assert(b.to_multiset().contains(a[j]));
        assert(b.contains(a[j]));
        let k = choose|k: int| 0 <= k < b.len() && b[k] == a[j];
        assert(b[k] <= 100000000);
    }
}

/// The scrollable-region view that `from_detail` derives from a frame whose
/// region rectangle is assigned: the frame cropped to the region's rows,
/// with a matching window at the region's columns narrowed to 98% of the
/// region width.
pub open spec fn frame_view(d: HorseGirlDetailImage) -> ViewModel {
    let a = d.factor_list_area->Some_0;
    ViewModel {
        width: d.image.width as int,
        height: a.height as int,
        data: d.image.data@.subrange(
            a.y * d.image.width * 3,
            (a.y + a.height) * d.image.width * 3,
        ),
        win_x: a.x as int,
        win_w: a.width * 98 / 100,
    }
}

impl FactorListPartialImage {
    /// Crops the frame to the rows of its scrollable region (keeping the
    /// full width) and derives the matching window: the region's columns,
    /// narrowed to 98% of the region width to avoid scrollbar and edge
    /// artifacts, with its vertical origin reset to the crop.
    pub fn from_detail(src: &HorseGirlDetailImage) -> (res: Result<FactorListPartialImage, Error>)
        requires
            src.wf(),
        ensures
            (match res {
                Ok(v) => {
                    &&& src.factor_list_area is Some
                    &&& v.wf()
                    &&& v.view_model() == frame_view(*src)
                    &&& v.image.width == src.image.width
                    &&& v.image.height == src.factor_list_area->Some_0.height
                    &&& v.image.data@.len() <= src.image.data@.len()
                },
                Err(e) => {
                    &&& src.factor_list_area is None
                    &&& (e matches Error::RequiredCalculationsIsNotCompleted { .. })
                },
            }),
    {
        let area = src.get_factor_list_area()?;
        let cropped = src.image.vertical_crop_image(CropY(area.y), CropHeight(area.height));
        proof {
            assert((area.width as int) * 98 <= 0x7fff_ffff * 98int) by (nonlinear_arith)
                requires 0 <= area.width <= 0x7fff_ffff;
            assert(0 <= (area.width as int) * 98 / 100 <= area.width) by (nonlinear_arith)
                requires 0 <= area.width;
            assert(area.y * src.image.width * 3 <= (area.y + area.height) * src.image.width * 3
                <= src.image.height * src.image.width * 3) by (nonlinear_arith)
                requires 0 <= area.y && 0 <= area.height
                    && area.y + area.height <= src.image.height && 0 <= src.image.width;
            assert(src.image.data@.len() == src.image.height * src.image.width * 3)
                by (nonlinear_arith)
                requires src.image.data@.len() == src.image.width * src.image.height * 3;
        }
        let win_w = ((area.width as i64) * 98 / 100) as i32;
        let window = Rect::new(area.x, 0, win_w, cropped.height as i32);
        Ok(FactorListPartialImage { image: cropped, factor_list_area: window })
    }
}

/// The survivor filter of the region-of-change detector restated for
/// one-row-high runs: a maximal run survives when it is at least
/// `DIFF_THRESHOLD_PIXELS_COUNT` pixels long and its row lies inside the
/// scanning band.
pub open spec fn keep_run(fh: int, y: int, len: int) -> bool {
    &&& len >= crate::region::DIFF_THRESHOLD_PIXELS_COUNT
    &&& fh / (crate::region::SCANNING_AREA_START_PARTITION_NUM as int) <= y
    &&& y <= fh - fh / (crate::region::SCANNING_AREA_END_PARTITION_NUM as int)
}

/// No maximal run of the binarized frame difference survives the filter:
/// region detection must fail.
pub open spec fn change_region_none(a: ColorImage, b: ColorImage) -> bool {
    forall|x: int, y: int, len: int|
        #[trigger] is_run(diff_mask_model(a, b), a.width as int, a.height as int, x, y, len)
            ==> !keep_run(a.height as int, y, len)
}

/// `r` is the scrollable region detected from frames `a` and `b`: the
/// smallest rectangle enclosing every maximal run of the binarized frame
/// difference that survives the filter. Its top row lies inside the
/// scanning band and its extent is positive in both directions.
pub open spec fn change_region_ok(a: ColorImage, b: ColorImage, r: Rect) -> bool {
    let md = diff_mask_model(a, b);
    let w = a.width as int;
    let h = a.height as int;
    &&& r.wf()
    &&& r.width >= 1
    &&& r.height >= 1
    &&& h / (crate::region::SCANNING_AREA_START_PARTITION_NUM as int) <= r.y
    &&& r.y <= h - h / (crate::region::SCANNING_AREA_END_PARTITION_NUM as int)
    &&& r.right() <= w
    &&& r.bottom() <= h
    &&& (exists|x: int, y: int, len: int|
            #[trigger] is_run(md, w, h, x, y, len) && keep_run(h, y, len) && x == r.x)
    &&& (exists|x: int, y: int, len: int|
            #[trigger] is_run(md, w, h, x, y, len) && keep_run(h, y, len) && y == r.y)
    &&& (exists|x: int, y: int, len: int|
            #[trigger] is_run(md, w, h, x, y, len) && keep_run(h, y, len) && x + len == r.right())
    &&& (exists|x: int, y: int, len: int|
            #[trigger] is_run(md, w, h, x, y, len) && keep_run(h, y, len) && y + 1 == r.bottom())
    &&& (forall|x: int, y: int, len: int|
            #[trigger] is_run(md, w, h, x, y, len) && keep_run(h, y, len)
                ==> r.x <= x && r.y <= y && x + len <= r.right() && y + 1 <= r.bottom())
}

/// On every frame pair from which a region is detected at all, the
/// detected rectangle has positive width and height and its top row lies
/// inside the scanning band `[height / 8, height - height / 16]`.
pub proof fn lemma_detected_region_in_band(a: ColorImage, b: ColorImage, r: Rect)
    requires
        change_region_ok(a, b, r),
    ensures
        r.width >= 1,
        r.height >= 1,
        a.height as int / (crate::region::SCANNING_AREA_START_PARTITION_NUM as int) <= r.y,
        r.y <= a.height as int
            - a.height as int / (crate::region::SCANNING_AREA_END_PARTITION_NUM as int),
        r.bottom() <= a.height as int
            - a.height as int / (crate::region::SCANNING_AREA_END_PARTITION_NUM as int) + 1,
        r.right() <= a.width,
        r.bottom() <= a.height,
{
    let md = diff_mask_model(a, b);
    let w = a.width as int;
    let h = a.height as int;
    let (x, y, len) = choose|x: int, y: int, len: int|
        #[trigger] is_run(md, w, h, x, y, len) && keep_run(h, y, len) && y + 1 == r.bottom();
    assert(keep_run(h, y, len));
}

/// Ties the run rectangles extracted from a mask to the run predicates of
/// its pixels: every surviving run is listed, and every listed survivor is
/// a surviving run.
proof fn lemma_runs_bridge(md: Seq<u8>, w: int, h: int, runs: Seq<Rect>, fh: int)
    requires
        fh == h,
        forall|k: int| 0 <= k < runs.len() ==> is_run_rect(md, w, h, #[trigger] runs[k]),
        forall|x: int, y: int|
            0 <= x < w && 0 <= y < h && #[trigger] mask_px(md, w, x, y) != 0
                ==> exists|k: int| 0 <= k < runs.len() && run_covers(#[trigger] runs[k], x, y),
    ensures
        forall|x: int, y: int, len: int|
            #[trigger] is_run(md, w, h, x, y, len) && keep_run(fh, y, len)
                ==> exists|k: int| 0 <= k < runs.len()
                    && keep_candidate(#[trigger] runs[k], fh)
                    && runs[k].x == x && runs[k].y == y && runs[k].width == len,
        forall|k: int| 0 <= k < runs.len() && keep_candidate(#[trigger] runs[k], fh)
            ==> is_run(md, w, h, runs[k].x as int, runs[k].y as int, runs[k].width as int)
                && keep_run(fh, runs[k].y as int, runs[k].width as int),
{
    assert forall|x: int, y: int, len: int|
        #[trigger] is_run(md, w, h, x, y, len) && keep_run(fh, y, len)
            implies exists|k: int| 0 <= k < runs.len()
                && keep_candidate(#[trigger] runs[k], fh)
                && runs[k].x == x && runs[k].y == y && runs[k].width == len by {
        assert(mask_px(md, w, x, y) != 0);
        let k = choose|k: int| 0 <= k < runs.len() && run_covers(#[trigger] runs[k], x, y);
        let rk = runs[k];
        assert(is_run_rect(md, w, h, rk));
        crate::region::lemma_run_unique(md, w, h, rk.x as int, rk.width as int, x, len, y);
        assert(rk.width * rk.height == rk.width) by (nonlinear_arith)
            requires rk.height == 1;
        assert(keep_candidate(rk, fh));
    }
    assert forall|k: int| 0 <= k < runs.len() && keep_candidate(#[trigger] runs[k], fh)
        implies is_run(md, w, h, runs[k].x as int, runs[k].y as int, runs[k].width as int)
            && keep_run(fh, runs[k].y as int, runs[k].width as int) by {
        let rk = runs[k];
        assert(is_run_rect(md, w, h, rk));
        assert(rk.width * rk.height == rk.width) by (nonlinear_arith)
            requires rk.height == 1;
    }
}

/// Total byte count of the pixel storage of a sequence of frames.
pub open spec fn frames_total_bytes(s: Seq<HorseGirlDetailImage>) -> int
    decreases s.len(),
{
    if s.len() == 0 {
        0
    } else {
        frames_total_bytes(s.drop_last()) + s.last().image.data@.len()
    }
}

/// Total row count of a sequence of frames.
pub open spec fn frames_total_rows(s: Seq<HorseGirlDetailImage>) -> int
    decreases s.len(),
{
    if s.len() == 0 {
        0
    } else {
        frames_total_rows(s.drop_last()) + s.last().image.height
    }
}

pub proof fn lemma_frames_total_take_snoc(s: Seq<HorseGirlDetailImage>, k: int)
    requires
        0 <= k < s.len(),
    ensures
        frames_total_bytes(s.take(k + 1)) == frames_total_bytes(s.take(k)) + s[k].image.data@.len(),
        frames_total_rows(s.take(k + 1)) == frames_total_rows(s.take(k)) + s[k].image.height,
{
    assert(s.take(k + 1).drop_last() =~= s.take(k));
}

pub proof fn lemma_frames_total_prefix(s: Seq<HorseGirlDetailImage>, k: int)
    requires
        0 <= k <= s.len(),
    ensures
        frames_total_bytes(s.take(k)) <= frames_total_bytes(s),
        frames_total_rows(s.take(k)) <= frames_total_rows(s),
    decreases s.len() - k,
{
    if k == s.len() {
        assert(s.take(k) =~= s);
    } else {
        lemma_frames_total_take_snoc(s, k);
        lemma_frames_total_prefix(s, k + 1);
    }
}

/// An ordered set of at least two frames sharing one scrollable-region
/// rectangle, together with the render configuration.
#[derive(Debug)]
pub struct HorseGirlFullDetailImage {
    pub images: Vec<HorseGirlDetailImage>,
    pub config: ImageConfig,
}

impl HorseGirlFullDetailImage {
    pub open spec fn wf(self) -> bool {
        &&& self.images@.len() >= 2
        &&& forall|i: int| 0 <= i < self.images@.len() ==> (#[trigger] self.images@[i]).wf()
        &&& forall|i: int| 0 <= i < self.images@.len()
                ==> (#[trigger] self.images@[i]).image.width == self.images@[0].image.width
                    && self.images@[i].image.height == self.images@[0].image.height
    }

    /// Builds the frame set from decoded frames. At least two frames are
    /// needed; the shared scrollable region is detected immediately from
    /// the first two and assigned to every frame.
    pub fn from_images(images: Vec<HorseGirlDetailImage>, config: ImageConfig) -> (res: Result<HorseGirlFullDetailImage, Error>)
        requires
            forall|i: int| 0 <= i < images@.len() ==> (#[trigger] images@[i]).wf(),
            forall|i: int| 0 <= i < images@.len()
                ==> (#[trigger] images@[i]).image.width == images@[0].image.width
                    && images@[i].image.height == images@[0].image.height,
        ensures
            (match res {
                Ok(full) => {
                    &&& images@.len() >= 2
                    &&& full.wf()
                    &&& full.config == config
                    &&& full.images@.len() == images@.len()
                    &&& (exists|r: Rect|
                            #[trigger] change_region_ok(images@[0].image, images@[1].image, r)
                            && (forall|i: int| 0 <= i < images@.len()
                                ==> (#[trigger] full.images@[i]).factor_list_area == Some(r)))
                    &&& (forall|i: int| 0 <= i < images@.len() ==> {
                            &&& (#[trigger] full.images@[i]).image.width == images@[i].image.width
                            &&& full.images@[i].image.height == images@[i].image.height
                            &&& full.images@[i].image.data@ == images@[i].image.data@
                        })
                },
                Err(e) => {
                    ||| ((e matches Error::NotEnoughImageSample) && images@.len() < 2)
                    ||| ((e matches Error::ImageNotMatched { stage }
                            && stage == FailedStage::RegionDetection)
                        && images@.len() >= 2
                        && change_region_none(images@[0].image, images@[1].image))
                },
            }),
    {
        if images.len() < 2 {
            return Err(Error::NotEnoughImageSample);
        }
        let mut full = HorseGirlFullDetailImage { images, config };
        match full.calc_children_list_area() {
            Ok(r) => Ok(full),
            Err(e) => Err(e),
        }
    }

    /// Replaces the render configuration; cached geometry is untouched.
    pub fn set_config(&mut self, config: ImageConfig)
        ensures
            final(self).config == config,
            final(self).images == old(self).images,
    {
        self.config = config;
    }

    /// Runs the region-of-change detector on the first two frames: computes
    /// the binarized difference of the two full images, decomposes it into
    /// maximal one-row runs of changed pixels, filters them by area and
    /// scanning band, and encloses the survivors in one rectangle.
    ///
    /// The candidates are per-row runs, not the bounding boxes of whole
    /// connected change blobs; the two decompositions disagree on
    /// identifiable inputs (see the `region` module documentation). With
    /// per-box filtering, a changed blob 3 pixels wide and 4 rows tall
    /// (box area 12) would be kept, while no row of it reaches the 10-pixel
    /// run floor here; and a tall blob whose top row is above the band
    /// would be dropped whole, while its in-band rows survive here.
    ///
    /// Fails with `Error::ImageNotMatched` when no run survives, instead of
    /// propagating a zero rectangle downstream.
    pub fn get_list_area_rect(&self) -> (res: Result<Rect, Error>)
        requires
            self.wf(),
        ensures
            (match res {
                Ok(r) => change_region_ok(self.images@[0].image, self.images@[1].image, r),
                Err(e) => {
                    &&& (e matches Error::ImageNotMatched { stage }
                        && stage == FailedStage::RegionDetection)
                    &&& change_region_none(self.images@[0].image, self.images@[1].image)
                },
            }),
    {
        let first = &self.images[0];
        let second = &self.images[1];
        let mask = first.diff_binary(second);
        let runs = row_run_rects(&mask);
        let ghost md = mask.data@;
        let ghost w = mask.width as int;
        let ghost h = mask.height as int;
        proof {
            assert forall|k: int| 0 <= k < runs@.len() implies {
                &&& (#[trigger] runs@[k]).wf()
                &&& runs@[k].right() <= 0x7fff_ffff
                &&& runs@[k].bottom() <= 0x7fff_ffff
            } by {
                assert(is_run_rect(md, w, h, runs@[k]));
            }
        }
        let covered = covered_change_rect(&runs, first.image.height as i32);
        proof {
            lemma_runs_bridge(md, w, h, runs@, h);
        }
        match covered {
            None => {
                proof {
                    let a = first.image;
                    let b = second.image;
                    assert forall|x: int, y: int, len: int|
                        #[trigger] is_run(diff_mask_model(a, b), a.width as int, a.height as int, x, y, len)
                            implies !keep_run(a.height as int, y, len) by {
                        if keep_run(h, y, len) {
                            let k = choose|k: int| 0 <= k < runs@.len()
                                && keep_candidate(#[trigger] runs@[k], h)
                                && runs@[k].x == x && runs@[k].y == y && runs@[k].width == len;
                            assert(!keep_candidate(runs@[k], h));
                        }
                    }
                }
                Err(Error::ImageNotMatched { stage: FailedStage::RegionDetection })
            },
            Some(r) => {
                proof {
                    let a = first.image;
                    let b = second.image;
                    let ghost cands = runs@;
                    let kx = choose|k: int| 0 <= k < cands.len()
                        && keep_candidate(#[trigger] cands[k], h) && cands[k].x == r.x;
                    let ky = choose|k: int| 0 <= k < cands.len()
                        && keep_candidate(#[trigger] cands[k], h) && cands[k].y == r.y;
                    let kr = choose|k: int| 0 <= k < cands.len()
                        && keep_candidate(#[trigger] cands[k], h) && cands[k].right() == r.right();
                    let kb = choose|k: int| 0 <= k < cands.len()
                        && keep_candidate(#[trigger] cands[k], h) && cands[k].bottom() == r.bottom();
                    assert(is_run(md, w, h, cands[kx].x as int, cands[kx].y as int, cands[kx].width as int));
                    assert(is_run(md, w, h, cands[ky].x as int, cands[ky].y as int, cands[ky].width as int));
                    assert(is_run(md, w, h, cands[kr].x as int, cands[kr].y as int, cands[kr].width as int));
                    assert(cands[kr].x as int + cands[kr].width as int == r.right());
                    assert(is_run(md, w, h, cands[kb].x as int, cands[kb].y as int, cands[kb].width as int));
                    assert(cands[kb].y as int + 1 == r.bottom());
                    assert forall|x: int, y: int, len: int|
                        #[trigger] is_run(md, w, h, x, y, len) && keep_run(h, y, len)
                            implies r.x <= x && r.y <= y && x + len <= r.right()
                                && y + 1 <= r.bottom() by {
                        let k = choose|k: int| 0 <= k < cands.len()
                            && keep_candidate(#[trigger] cands[k], h)
                            && cands[k].x == x && cands[k].y == y && cands[k].width == len;
                        assert(r.x <= cands[k].x && r.y <= cands[k].y
                            && cands[k].right() <= r.right() && cands[k].bottom() <= r.bottom());
                    }
                    assert(r.right() <= w);
                    assert(r.bottom() <= h);
                }
                Ok(r)
            },
        }
    }

    /// Detects the shared scrollable region from the first two frames and
    /// assigns it to every frame of the set.
    pub fn calc_children_list_area(&mut self) -> (res: Result<Rect, Error>)
        requires
            old(self).wf(),
        ensures
            (match res {
                Ok(r) => {
                    &&& final(self).wf()
                    &&& change_region_ok(old(self).images@[0].image, old(self).images@[1].image, r)
                    &&& final(self).images@.len() == old(self).images@.len()
                    &&& final(self).config == old(self).config
                    &&& (forall|i: int| 0 <= i < old(self).images@.len() ==> {
                            &&& (#[trigger] final(self).images@[i]).image.width
                                == old(self).images@[i].image.width
                            &&& final(self).images@[i].image.height
                                == old(self).images@[i].image.height
                            &&& final(self).images@[i].image.data@
                                == old(self).images@[i].image.data@
                            &&& final(self).images@[i].factor_list_area == Some(r)
                        })
                },
                Err(e) => {
                    &&& (e matches Error::ImageNotMatched { stage }
                        && stage == FailedStage::RegionDetection)
                    &&& change_region_none(old(self).images@[0].image, old(self).images@[1].image)
                    &&& *final(self) == *old(self)
                },
            }),
    {
        let r = match self.get_list_area_rect() {
            Ok(r) => r,
            Err(e) => {
                return Err(e);
            },
        };
        let n = self.images.len();
        let mut updated: Vec<HorseGirlDetailImage> = Vec::new();
        let mut i: usize = 0;
        while i < n
            invariant
                old(self).wf(),
                *self == *old(self),
                n == self.images@.len(),
                i <= n,
                change_region_ok(self.images@[0].image, self.images@[1].image, r),
                updated@.len() == i,
                forall|j: int| 0 <= j < i ==> {
                    &&& (#[trigger] updated@[j]).image.width == self.images@[j].image.width
                    &&& updated@[j].image.height == self.images@[j].image.height
                    &&& updated@[j].image.data@ == self.images@[j].image.data@
                    &&& updated@[j].factor_list_area == Some(r)
                    &&& updated@[j].wf()
                },
            decreases n - i,
        {
            let f = &self.images[i];
            let copied = f.image.duplicate();
            proof {
                assert(self.images@[i as int].wf());
                assert(r.right() <= self.images@[0].image.width);
                assert(r.bottom() <= self.images@[0].image.height);
            }
            updated.push(HorseGirlDetailImage { image: copied, factor_list_area: Some(r) });
            i += 1;
        }
        self.images = updated;
        Ok(r)
    }

    /// The left/right chrome margin, measured on the first frame.
    pub fn get_left_right_margin(&self) -> (res: Result<i32, Error>)
        requires
            self.wf(),
        ensures
            (match res {
                Ok(m) => 0 <= m <= 100000000 && lr_margin_ok(self.images@[0], m as int),
                Err(e) => {
                    &&& ((e matches Error::RequiredCalculationsIsNotCompleted { .. })
                        || (e matches Error::ImageNotMatched { stage }
                            && stage == FailedStage::LeftRightMargin))
                    &&& ((e matches Error::RequiredCalculationsIsNotCompleted { .. })
                        ==> self.images@[0].factor_list_area is None)
                    &&& ((e matches Error::ImageNotMatched { .. })
                        ==> lr_margin_none(self.images@[0]))
                },
            }),
    {
        let first = &self.images[0];
        first.get_left_right_margin()
    }

    /// The top chrome margin, measured on the first frame.
    pub fn get_top_margin(&self, include_title_bar: bool) -> (res: Result<i32, Error>)
        requires
            self.wf(),
        ensures
            (match res {
                Ok(m) => 0 <= m <= 100000000 && top_margin_ok(self.images@[0], include_title_bar, m as int),
                Err(e) => {
                    &&& ((e matches Error::RequiredCalculationsIsNotCompleted { .. })
                        || (e matches Error::ImageNotMatched { stage }
                            && stage == FailedStage::TopMargin))
                    &&& ((e matches Error::RequiredCalculationsIsNotCompleted { .. })
                        ==> self.images@[0].factor_list_area is None)
                    &&& ((e matches Error::ImageNotMatched { .. })
                        ==> top_margin_none(self.images@[0], include_title_bar))
                },
            }),
    {
        let first = &self.images[0];
        first.get_top_margin(include_title_bar)
    }

    /// The bottom chrome margin, measured on the first frame.
    pub fn get_bottom_margin(&self) -> (res: Result<i32, Error>)
        requires
            self.wf(),
        ensures
            (match res {
                Ok(m) => 0 <= m <= 100000000 && bottom_margin_ok(self.images@[0], m as int),
                Err(e) => {
                    &&& ((e matches Error::RequiredCalculationsIsNotCompleted { .. })
                        || (e matches Error::ImageNotMatched { stage }
                            && stage == FailedStage::BottomMargin))
                    &&& ((e matches Error::RequiredCalculationsIsNotCompleted { .. })
                        ==> self.images@[0].factor_list_area is None)
                    &&& ((e matches Error::ImageNotMatched { .. })
                        ==> bottom_margin_none(self.images@[0]))
                },
            }),
    {
        let first = &self.images[0];
        first.get_bottom_margin()
    }

    /// The chrome above the scrollable region, cropped from the first frame.
    pub fn get_status_image(&self) -> (res: Result<StatusImage, Error>)
        requires
            self.wf(),
        ensures
            (match res {
                Ok(s) => {
                    &&& self.images@[0].factor_list_area is Some
                    &&& s.image.wf()
                    &&& s.image.width == self.images@[0].image.width
                    &&& s.image.height == self.images@[0].factor_list_area->Some_0.y
                    &&& s.image.data@ == self.images@[0].image.data@.subrange(
                        0,
                        self.images@[0].factor_list_area->Some_0.y
                            * self.images@[0].image.width * 3,
                    )
                },
                Err(e) => {
                    &&& self.images@[0].factor_list_area is None
                    &&& (e matches Error::RequiredCalculationsIsNotCompleted { .. })
                },
            }),
    {
        let first = &self.images[0];
        first.get_status_image()
    }

    /// The chrome below the scrollable region, cropped from the first frame.
    pub fn get_footer_image(&self) -> (res: Result<FooterImage, Error>)
        requires
            self.wf(),
        ensures
            (match res {
                Ok(f) => {
                    &&& self.images@[0].factor_list_area is Some
                    &&& f.image.wf()
                    &&& f.image.width == self.images@[0].image.width
                    &&& f.image.height == self.images@[0].image.height
                        - self.images@[0].factor_list_area->Some_0.bottom()
                    &&& f.image.data@ == self.images@[0].image.data@.subrange(
                        self.images@[0].factor_list_area->Some_0.bottom()
                            * self.images@[0].image.width * 3,
                        self.images@[0].image.height * self.images@[0].image.width * 3,
                    )
                },
                Err(e) => {
                    &&& self.images@[0].factor_list_area is None
                    &&& (e matches Error::RequiredCalculationsIsNotCompleted { .. })
                },
            }),
    {
        let first = &self.images[0];
        first.get_footer_image()
    }

    /// Every frame's scrollable region as a partial view, in frame order,
    /// ready for the merge fold.
    pub fn get_factor_list_image(&self) -> (res: Result<FactorListImage, Error>)
        requires
            self.wf(),
        ensures
            (match res {
                Ok(f) => {
                    &&& f.wf()
                    &&& f.images@.len() == self.images@.len()
                    &&& (forall|i: int| 0 <= i < self.images@.len() ==> {
                            &&& (#[trigger] self.images@[i]).factor_list_area is Some
                            &&& f.images@[i].view_model() == frame_view(self.images@[i])
                        })
                    &&& crate::factor::total_bytes(f.images@)
                        <= frames_total_bytes(self.images@)
                    &&& crate::factor::total_rows(f.images@) <= frames_total_rows(self.images@)
                    &&& f.images@[0].factor_list_area.x
                        == self.images@[0].factor_list_area->Some_0.x
                    &&& f.images@[0].factor_list_area.width
                        == self.images@[0].factor_list_area->Some_0.width * 98 / 100
                },
                Err(e) => {
                    &&& (e matches Error::RequiredCalculationsIsNotCompleted { .. })
                    &&& (exists|i: int| 0 <= i < self.images@.len()
                        && (#[trigger] self.images@[i]).factor_list_area is None)
                },
            }),
    {
        FactorListImage::from_detail(self)
    }
}

/// Channel `c` of the pixel at `(x, y)` of a flat image whose rows are `w`
/// pixels wide.
pub open spec fn seq_pixel(data: Seq<u8>, w: int, x: int, y: int, c: int) -> u8 {
    data[(y * w + x) * 3 + c]
}

/// Whether a trim mode sheds the title bar along with the margin.
pub open spec fn trim_includes_title(mode: HeaderTrimMode) -> bool {
    mode == HeaderTrimMode::TrimTitleBar
}

/// The bottom margin that a render used: the detected one when the footer
/// was merged, zero otherwise (no bottom chrome to trim then).
pub open spec fn bot_in_play(merge_footer: bool, d: HorseGirlDetailImage, bot: int) -> bool {
    if merge_footer {
        bottom_margin_ok(d, bot)
    } else {
        bot == 0
    }
}

/// The view models that the merge fold runs over: one per frame, in frame
/// order.
pub open spec fn frame_views_model(s: Seq<HorseGirlDetailImage>) -> Seq<ViewModel> {
    Seq::new(s.len(), |i: int| frame_view(s[i]))
}

impl HorseGirlFullDetailImage {
    /// Builds the complete composite: the status chrome of the first frame,
    /// the merged scrollable column folded from every frame, and (when
    /// configured) the footer chrome, concatenated vertically; then, when a
    /// trim mode is configured, the detected chrome margins are cropped
    /// away: `margin_lr` columns on each side, `margin_top` rows above, and
    /// `margin_bottom` rows below when the footer was merged.
    ///
    /// All-or-nothing: any stage failure aborts the render and no partial
    /// composite is produced. A failed scan reports its stage — region
    /// detection, one of the three margin scans, or alignment with the
    /// index of the frame whose view could not be merged — and only scans
    /// the configuration actually runs can be reported: with no trim mode
    /// configured no margin scan is performed, so none can fail the render.
    pub fn render(&self) -> (res: Result<ColorImage, Error>)
        requires
            self.wf(),
            frames_total_bytes(self.images@) + self.images@[0].image.data@.len()
                <= crate::pixels::MAX_PIXEL_BYTES,
            frames_total_rows(self.images@) + self.images@[0].image.height
                <= crate::pixels::MAX_IMAGE_DIM,
        ensures
            (match res {
                Ok(img) => {
                    &&& (forall|i: int| 0 <= i < self.images@.len()
                            ==> (#[trigger] self.images@[i]).factor_list_area is Some)
                    &&& fold_model(frame_views_model(self.images@)) is Some
                    &&& img.wf()
                    &&& ({
                        let w = self.images@[0].image.width as int;
                        let h = self.images@[0].image.height as int;
                        let a = self.images@[0].factor_list_area->Some_0;
                        let col = fold_model(frame_views_model(self.images@))->Some_0;
                        let status_data = self.images@[0].image.data@.subrange(0, a.y * w * 3);
                        let footer_data = self.images@[0].image.data@.subrange(
                            a.bottom() * w * 3, h * w * 3);
                        let base = if self.config.do_merge_close_button {
                            status_data + col.data + footer_data
                        } else {
                            status_data + col.data
                        };
                        let base_h = if self.config.do_merge_close_button {
                            a.y + col.height + (h - a.bottom())
                        } else {
                            a.y + col.height
                        };
                        match self.config.header_trim_mode {
                            None => {
                                &&& img.width == w
                                &&& img.height == base_h
                                &&& img.data@ == base
                            },
                            Some(mode) => exists|lr: int, top: int, bot: int| {
                                &&& #[trigger] lr_margin_ok(self.images@[0], lr)
                                &&& #[trigger] top_margin_ok(
                                    self.images@[0],
                                    trim_includes_title(mode),
                                    top,
                                )
                                &&& #[trigger] bot_in_play(
                                    self.config.do_merge_close_button,
                                    self.images@[0],
                                    bot,
                                )
                                &&& img.width == w - 2 * lr
                                &&& img.height == (if self.config.do_merge_close_button {
                                    base_h - (top + bot)
                                } else {
                                    base_h - top
                                })
                                &&& (forall|x: int, y: int, c: int|
                                    0 <= x < img.width && 0 <= y < img.height && 0 <= c < 3
                                        ==> img.pixel(x, y, c)
                                            == seq_pixel(base, w, lr + x, top + y, c))
                            },
                        }
                    })
                },
                Err(e) => {
                    ||| ((e matches Error::RequiredCalculationsIsNotCompleted { .. })
                        && (exists|i: int| 0 <= i < self.images@.len()
                            && (#[trigger] self.images@[i]).factor_list_area is None))
                    ||| ((e matches Error::ImageNotMatched { stage }
                        && (forall|i: int| 0 <= i < self.images@.len()
                                ==> (#[trigger] self.images@[i]).factor_list_area is Some)
                        && {
                            ||| (stage matches FailedStage::Alignment { later_frame }
                                && 1 <= later_frame < self.images@.len()
                                && fold_model(frame_views_model(self.images@)
                                    .take(later_frame as int)) is Some
                                && fold_model(frame_views_model(self.images@)
                                    .take(later_frame as int + 1)) is None
                                && fold_model(frame_views_model(self.images@)) is None)
                            ||| (self.config.header_trim_mode is Some
                                && stage == FailedStage::LeftRightMargin
                                && lr_margin_none(self.images@[0]))
                            ||| (self.config.header_trim_mode is Some
                                && stage == FailedStage::TopMargin
                                && top_margin_none(
                                    self.images@[0],
                                    trim_includes_title(self.config.header_trim_mode->Some_0),
                                ))
                            ||| (self.config.header_trim_mode is Some
                                && self.config.do_merge_close_button
                                && stage == FailedStage::BottomMargin
                                && bottom_margin_none(self.images@[0]))
                        }))
                    ||| ((e matches Error::BackendFailure)
                        && (forall|i: int| 0 <= i < self.images@.len()
                                ==> (#[trigger] self.images@[i]).factor_list_area is Some)
                        && self.config.header_trim_mode is Some
                        && (exists|lr: int, top: int, bot: int| {
                            &&& #[trigger] lr_margin_ok(self.images@[0], lr)
                            &&& #[trigger] top_margin_ok(
                                self.images@[0],
                                trim_includes_title(self.config.header_trim_mode->Some_0),
                                top,
                            )
                            &&& #[trigger] bot_in_play(
                                self.config.do_merge_close_button,
                                self.images@[0],
                                bot,
                            )
                            &&& (self.images@[0].image.width < 2 * lr
                                || ({
                                    let a = self.images@[0].factor_list_area->Some_0;
                                    let col = fold_model(frame_views_model(self.images@))->Some_0;
                                    let with_footer = if self.config.do_merge_close_button {
                                        self.images@[0].image.height - a.bottom()
                                    } else {
                                        0
                                    };
                                    a.y + col.height + with_footer < top + bot
                                }))
                        }))
                },
            }),
    {
        let status = match self.get_status_image() {
            Ok(s) => s,
            Err(e) => {
                proof {
                    assert(self.images@[0].factor_list_area is None);
                }
                return Err(e);
            },
        };
        let factor = match self.get_factor_list_image() {
            Ok(f) => f,
            Err(e) => {
                return Err(e);
            },
        };
        proof {
            assert forall|i: int| 0 <= i < factor.images@.len()
                implies models(factor.images@)[i] == frame_views_model(self.images@)[i] by {
                assert(factor.images@[i].view_model() == frame_view(self.images@[i]));
            }
            assert(models(factor.images@) =~= frame_views_model(self.images@));
            crate::factor::lemma_total_nonneg(factor.images@);
        }
        let column = match factor.merged_image() {
            Ok(c) => c,
            Err(e) => {
                return Err(e);
            },
        };
        let ghost col = fold_model(frame_views_model(self.images@))->Some_0;
        proof {
            let w0 = self.images@[0].image.width as int;
            let h0 = self.images@[0].image.height as int;
            let a = self.images@[0].factor_list_area->Some_0;
            assert(a.y * w0 * 3 + (h0 * w0 * 3 - a.bottom() * w0 * 3) <= h0 * w0 * 3)
                by (nonlinear_arith)
                requires 0 <= a.y && a.y <= a.bottom() && a.bottom() <= h0 && 0 <= w0;
            assert(a.y * w0 * 3 >= 0) by (nonlinear_arith)
                requires 0 <= a.y && 0 <= w0;
            assert(h0 * w0 * 3 - a.bottom() * w0 * 3 >= 0) by (nonlinear_arith)
                requires a.bottom() <= h0 && 0 <= w0;
            assert(self.images@[0].image.data@.len() == h0 * w0 * 3) by (nonlinear_arith)
                requires self.images@[0].image.data@.len() == w0 * h0 * 3;
            assert(factor.images@[0].image.width as int
                == frame_view(self.images@[0]).width);
        }
        let mut merged = status.image.get_merged_below(&column);
        if self.config.do_merge_close_button {
            let footer = match self.get_footer_image() {
                Ok(f) => f,
                Err(e) => {
                    return Err(e);
                },
            };
            merged = merged.get_merged_below(&footer.image);
            proof {
                assert(merged.data@ =~= status.image.data@ + col.data
                    + self.images@[0].image.data@.subrange(
                        self.images@[0].factor_list_area->Some_0.bottom()
                            * self.images@[0].image.width * 3,
                        self.images@[0].image.height * self.images@[0].image.width * 3,
                    ));
            }
        }
        let ghost base = merged.data@;
        let ghost base_h = merged.height as int;
        let ghost w = self.images@[0].image.width as int;
        let trim_mode = self.config.header_trim_mode;
        match trim_mode {
            None => Ok(merged),
            Some(mode) => {
                let lr = match self.get_left_right_margin() {
                    Ok(m) => m,
                    Err(e) => {
                        return Err(e);
                    },
                };
                let include_title_bar = mode == HeaderTrimMode::TrimTitleBar;
                let top = match self.get_top_margin(include_title_bar) {
                    Ok(m) => m,
                    Err(e) => {
                        return Err(e);
                    },
                };
                let bot: i32 = if self.config.do_merge_close_button {
                    match self.get_bottom_margin() {
                        Ok(m) => m,
                        Err(e) => {
                            return Err(e);
                        },
                    }
                } else {
                    0
                };
                let crop_w = merged.width as i32 - 2 * lr;
                let crop_h = merged.height as i32 - (top + bot);
                if crop_w < 0 || crop_h < 0 {
                    proof {
                        assert(lr_margin_ok(self.images@[0], lr as int));
                        assert(include_title_bar
                            == trim_includes_title(self.config.header_trim_mode->Some_0));
                        assert(top_margin_ok(
                            self.images@[0],
                            trim_includes_title(self.config.header_trim_mode->Some_0),
                            top as int,
                        ));
                        assert(bot_in_play(
                            self.config.do_merge_close_button,
                            self.images@[0],
                            bot as int,
                        ));
                    }
                    return Err(Error::BackendFailure);
                }
                let narrowed = merged.horizontal_crop_image(
                    crate::geometry::CropX(lr),
                    crate::geometry::CropWidth(crop_w),
                );
                let trimmed = narrowed.vertical_crop_image(CropY(top), CropHeight(crop_h));
                proof {
                    assert forall|x: int, y: int, c: int|
                        0 <= x < trimmed.width && 0 <= y < trimmed.height && 0 <= c < 3
                            implies trimmed.pixel(x, y, c)
                                == seq_pixel(base, w, lr + x, top + y, c) by {
                        assert(trimmed.pixel(x, y, c) == narrowed.pixel(x, top + y, c));
                        assert(narrowed.pixel(x, top + y, c)
                            == merged.pixel(lr + x, top + y, c));
                    }
                    assert(lr_margin_ok(self.images@[0], lr as int));
                    assert(include_title_bar == trim_includes_title(mode));
                    assert(top_margin_ok(self.images@[0], trim_includes_title(mode), top as int));
                    assert(bot_in_play(
                        self.config.do_merge_close_button,
                        self.images@[0],
                        bot as int,
                    ));
                }
                Ok(trimmed)
            },
        }
    }
}

impl FactorListImage {
    /// Derives every frame's scrollable-region view (see
    /// `FactorListPartialImage::from_detail`), in frame order.
    pub fn from_detail(src: &HorseGirlFullDetailImage) -> (res: Result<FactorListImage, Error>)
        requires
            src.wf(),
        ensures
            (match res {
                Ok(f) => {
                    &&& f.wf()
                    &&& f.images@.len() == src.images@.len()
                    &&& (forall|i: int| 0 <= i < src.images@.len() ==> {
                            &&& (#[trigger] src.images@[i]).factor_list_area is Some
                            &&& f.images@[i].view_model() == frame_view(src.images@[i])
                        })
                    &&& crate::factor::total_bytes(f.images@) <= frames_total_bytes(src.images@)
                    &&& crate::factor::total_rows(f.images@) <= frames_total_rows(src.images@)
                    &&& f.images@[0].factor_list_area.x
                        == src.images@[0].factor_list_area->Some_0.x
                    &&& f.images@[0].factor_list_area.width
                        == src.images@[0].factor_list_area->Some_0.width * 98 / 100
                },
                Err(e) => {
                    &&& (e matches Error::RequiredCalculationsIsNotCompleted { .. })
                    &&& (exists|i: int| 0 <= i < src.images@.len()
                        && (#[trigger] src.images@[i]).factor_list_area is None)
                },
            }),
    {
        let n = src.images.len();
        let mut views: Vec<FactorListPartialImage> = Vec::new();
        let mut i: usize = 0;
        while i < n
            invariant
                src.wf(),
                n == src.images@.len(),
                i <= n,
                views@.len() == i,
                forall|j: int| 0 <= j < i ==> {
                    &&& (#[trigger] src.images@[j]).factor_list_area is Some
                    &&& views@[j].wf()
                    &&& views@[j].view_model() == frame_view(src.images@[j])
                    &&& views@[j].image.width == src.images@[j].image.width
                    &&& views@[j].image.data@.len() <= src.images@[j].image.data@.len()
                    &&& views@[j].image.height <= src.images@[j].image.height
                },
                crate::factor::total_bytes(views@) <= frames_total_bytes(src.images@.take(i as int)),
                crate::factor::total_rows(views@) <= frames_total_rows(src.images@.take(i as int)),
            decreases n - i,
        {
            let f = &src.images[i];
            let v = match FactorListPartialImage::from_detail(f) {
                Ok(v) => v,
                Err(e) => {
                    return Err(e);
                },
            };
            proof {
                let a = src.images@[i as int].factor_list_area->Some_0;
                assert(a.height <= src.images@[i as int].image.height);
            }
            let ghost old_views = views@;
            views.push(v);
            proof {
                crate::factor::lemma_total_take_snoc(views@, views@.len() - 1);
                assert(views@.take(views@.len() - 1) =~= old_views);
                assert(views@.take(views@.len() as int) =~= views@);
                lemma_frames_total_take_snoc(src.images@, i as int);
            }
            i += 1;
        }
        let result = FactorListImage { images: views };
        proof {
            assert(src.images@.take(n as int) =~= src.images@);
            assert forall|j: int| 0 <= j < result.images@.len()
                implies (#[trigger] result.images@[j]).image.width
                    == result.images@[0].image.width by {
                assert(result.images@[j].image.width == src.images@[j].image.width);
                assert(result.images@[0].image.width == src.images@[0].image.width);
                assert(src.images@[j].image.width == src.images@[0].image.width);
            }
            assert forall|j: int| 0 <= j < result.images@.len()
                implies (#[trigger] result.images@[j]).wf() by {
                assert(src.images@[j].factor_list_area is Some);
            }
            assert(result.wf());
            assert(result.images@[0].view_model() == frame_view(src.images@[0]));
            assert(result.images@[0].factor_list_area.x as int
                == src.images@[0].factor_list_area->Some_0.x as int);
            assert(result.images@[0].factor_list_area.width as int
                == src.images@[0].factor_list_area->Some_0.width * 98 / 100);
        }
        Ok(result)
    }
}

} // verus!
