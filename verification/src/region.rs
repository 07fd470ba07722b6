//! The region-of-change detector's core: decomposing a binary change mask
//! into maximal runs and accumulating the surviving candidates into one
//! enclosing rectangle.
//!
//! The candidates are maximal one-row runs of changed pixels, not the
//! bounding rectangles of whole connected components. The survivor filter
//! therefore applies per row: a change blob contributes each of its rows
//! whose run is at least `DIFF_THRESHOLD_PIXELS_COUNT` pixels long and
//! whose row lies inside the scanning band, so a blob narrower than that
//! in every row is dropped even when its total area is larger, and a tall
//! blob that starts above the band still contributes its in-band rows.
//! Row-wise filtering is also what guarantees that every surviving
//! candidate — and so the top row of the enclosing rectangle — lies inside
//! the band.

use vstd::prelude::*;

use crate::geometry::Rect;
use crate::pixels::GrayImage;

verus! {

/// Candidate rectangles whose area is below this many pixels are noise.
pub const DIFF_THRESHOLD_PIXELS_COUNT: i32 = 10;

/// The scanning band starts at `height / 8`: the top eighth of the frame is
/// chrome, never scroll content.
pub const SCANNING_AREA_START_PARTITION_NUM: i32 = 8;

/// The scanning band ends at `height - height / 16`: the bottom sixteenth
/// of the frame is chrome, never scroll content.
pub const SCANNING_AREA_END_PARTITION_NUM: i32 = 16;

/// The mask pixel at `(x, y)` of a row-major single-channel image.
pub open spec fn mask_px(data: Seq<u8>, w: int, x: int, y: int) -> u8 {
    data[y * w + x]
}

/// `[x, x + len)` is a maximal horizontal run of set (nonzero) mask pixels
/// in row `y`: every pixel of the run is set, and the pixels immediately
/// left and right of it (when they exist) are clear.
pub open spec fn is_run(data: Seq<u8>, w: int, h: int, x: int, y: int, len: int) -> bool {
    &&& 0 <= y < h
    &&& 0 <= x
    &&& 1 <= len
    &&& x + len <= w
    &&& forall|i: int| x <= i < x + len ==> #[trigger] mask_px(data, w, i, y) != 0
    &&& (x == 0 || mask_px(data, w, x - 1, y) == 0)
    &&& (x + len == w || mask_px(data, w, x + len, y) == 0)
}

/// `r` is a one-row-high rectangle describing a maximal run.
pub open spec fn is_run_rect(data: Seq<u8>, w: int, h: int, r: Rect) -> bool {
    &&& r.height == 1
    &&& is_run(data, w, h, r.x as int, r.y as int, r.width as int)
}

/// `r` covers the mask position `(x, y)`.
pub open spec fn run_covers(r: Rect, x: int, y: int) -> bool {
    &&& r.y == y
    &&& r.x <= x < r.x + r.width
}

/// Two maximal runs of the same row that share a pixel are the same run.
pub proof fn lemma_run_unique(
    data: Seq<u8>,
    w: int,
    h: int,
    x1: int,
    l1: int,
    x2: int,
    l2: int,
    y: int,
)
    requires
        is_run(data, w, h, x1, y, l1),
        is_run(data, w, h, x2, y, l2),
        x1 < x2 + l2,
        x2 < x1 + l1,
    ensures
        x1 == x2,
        l1 == l2,
{
    if x1 < x2 {
        assert(mask_px(data, w, x2 - 1, y) != 0);
        assert(false);
    }
    if x2 < x1 {
        assert(mask_px(data, w, x1 - 1, y) != 0);
        assert(false);
    }
    if x1 + l1 < x2 + l2 {
        assert(mask_px(data, w, x1 + l1, y) != 0);
        assert(false);
    }
    if x2 + l2 < x1 + l1 {
        assert(mask_px(data, w, x2 + l2, y) != 0);
        assert(false);
    }
}

/// Decomposes a binary mask into the maximal horizontal runs of its set
/// pixels, one rectangle of height 1 per run: every returned rectangle is
/// a maximal run, and every set pixel is covered by a returned rectangle.
pub fn row_run_rects(mask: &GrayImage) -> (runs: Vec<Rect>)
    requires
        mask.wf(),
    ensures
        forall|k: int| 0 <= k < runs@.len()
            ==> is_run_rect(mask.data@, mask.width as int, mask.height as int, #[trigger] runs@[k]),
        forall|x: int, y: int|
            0 <= x < mask.width && 0 <= y < mask.height
                && #[trigger] mask_px(mask.data@, mask.width as int, x, y) != 0
                ==> exists|k: int| 0 <= k < runs@.len() && run_covers(#[trigger] runs@[k], x, y),
{
    let ghost md = mask.data@;
    let ghost w = mask.width as int;
    let ghost h = mask.height as int;
    let mut runs: Vec<Rect> = Vec::new();
    let mut y: usize = 0;
    while y < mask.height
        invariant
            mask.wf(),
            md == mask.data@,
            w == mask.width as int,
            h == mask.height as int,
            y <= mask.height,
            forall|k: int| 0 <= k < runs@.len() ==> is_run_rect(md, w, h, #[trigger] runs@[k]),
            forall|x0: int, y0: int|
                0 <= x0 < w && 0 <= y0 < y && #[trigger] mask_px(md, w, x0, y0) != 0
                    ==> exists|k: int| 0 <= k < runs@.len() && run_covers(#[trigger] runs@[k], x0, y0),
        decreases mask.height - y,
    {
        let mut run_start: Option<usize> = None;
        let mut x: usize = 0;
        while x < mask.width
            invariant
                mask.wf(),
                md == mask.data@,
                w == mask.width as int,
                h == mask.height as int,
                y < mask.height,
                x <= mask.width,
                forall|k: int| 0 <= k < runs@.len() ==> is_run_rect(md, w, h, #[trigger] runs@[k]),
                forall|x0: int, y0: int|
                    0 <= x0 < w && 0 <= y0 < y && #[trigger] mask_px(md, w, x0, y0) != 0
                        ==> exists|k: int| 0 <= k < runs@.len() && run_covers(#[trigger] runs@[k], x0, y0),
                (match run_start {
                    Some(st) => {
                        &&& st < x
                        &&& (st == 0 || mask_px(md, w, st as int - 1, y as int) == 0)
                        &&& forall|i: int| st <= i < x ==> #[trigger] mask_px(md, w, i, y as int) != 0
                        &&& forall|x0: int|
                                0 <= x0 < st && #[trigger] mask_px(md, w, x0, y as int) != 0
                                    ==> exists|k: int| 0 <= k < runs@.len()
                                        && run_covers(#[trigger] runs@[k], x0, y as int)
                    },
                    None => {
                        &&& (x == 0 || mask_px(md, w, x as int - 1, y as int) == 0)
                        &&& forall|x0: int|
                                0 <= x0 < x && #[trigger] mask_px(md, w, x0, y as int) != 0
                                    ==> exists|k: int| 0 <= k < runs@.len()
                                        && run_covers(#[trigger] runs@[k], x0, y as int)
                    },
                }),
            decreases mask.width - x,
        {
            let v = mask.at(x, y);
            if v != 0 {
                if run_start.is_none() {
                    run_start = Some(x);
                }
            } else {
                if let Some(st) = run_start {
                    let r = Rect::new(st as i32, y as i32, (x - st) as i32, 1);
                    let ghost old_runs = runs@;
                    runs.push(r);
                    proof {
                        assert(is_run_rect(md, w, h, r));
                        let kn = runs@.len() - 1;
                        assert(runs@[kn] == r);
                        assert forall|x0: int, y0: int|
                            0 <= x0 < w && 0 <= y0 < y && #[trigger] mask_px(md, w, x0, y0) != 0
                                implies exists|k: int| 0 <= k < runs@.len()
                                    && run_covers(#[trigger] runs@[k], x0, y0) by {
                            let k0 = choose|k0: int| 0 <= k0 < old_runs.len()
                                && run_covers(#[trigger] old_runs[k0], x0, y0);
                            assert(runs@[k0] == old_runs[k0]);
                            assert(run_covers(runs@[k0], x0, y0));
                        }
                        assert forall|x0: int|
                            0 <= x0 < x && #[trigger] mask_px(md, w, x0, y as int) != 0
                                implies exists|k: int| 0 <= k < runs@.len()
                                    && run_covers(#[trigger] runs@[k], x0, y as int) by {
                            if x0 < st {
                                let k0 = choose|k0: int| 0 <= k0 < old_runs.len()
                                    && run_covers(#[trigger] old_runs[k0], x0, y as int);
                                assert(runs@[k0] == old_runs[k0]);
                                assert(run_covers(runs@[k0], x0, y as int));
                            } else {
                                assert(run_covers(runs@[kn], x0, y as int));
                            }
                        }
                    }
                    run_start = None;
                }
            }
            x += 1;
        }
        if let Some(st) = run_start {
            let r = Rect::new(st as i32, y as i32, (mask.width - st) as i32, 1);
            let ghost old_runs = runs@;
            runs.push(r);
            proof {
                assert(is_run_rect(md, w, h, r));
                let kn = runs@.len() - 1;
                assert(runs@[kn] == r);
                assert forall|x0: int, y0: int|
                    0 <= x0 < w && 0 <= y0 < y && #[trigger] mask_px(md, w, x0, y0) != 0
                        implies exists|k: int| 0 <= k < runs@.len()
                            && run_covers(#[trigger] runs@[k], x0, y0) by {
                    let k0 = choose|k0: int| 0 <= k0 < old_runs.len()
                        && run_covers(#[trigger] old_runs[k0], x0, y0);
                    assert(runs@[k0] == old_runs[k0]);
                    assert(run_covers(runs@[k0], x0, y0));
                }
                assert forall|x0: int|
                    0 <= x0 < w && #[trigger] mask_px(md, w, x0, y as int) != 0
                        implies exists|k: int| 0 <= k < runs@.len()
                            && run_covers(#[trigger] runs@[k], x0, y as int) by {
                    if x0 < st {
                        let k0 = choose|k0: int| 0 <= k0 < old_runs.len()
                            && run_covers(#[trigger] old_runs[k0], x0, y as int);
                        assert(runs@[k0] == old_runs[k0]);
                        assert(run_covers(runs@[k0], x0, y as int));
                    } else {
                        assert(run_covers(runs@[kn], x0, y as int));
                    }
                }
            }
        }
        proof {
            assert forall|x0: int, y0: int|
                0 <= x0 < w && 0 <= y0 < y + 1 && #[trigger] mask_px(md, w, x0, y0) != 0
                    implies exists|k: int| 0 <= k < runs@.len()
                        && run_covers(#[trigger] runs@[k], x0, y0) by {
            }
        }
        y += 1;
    }
    runs
}

/// The survivor filter of the region-of-change detector: a candidate
/// rectangle is kept when its area is at least `DIFF_THRESHOLD_PIXELS_COUNT`
/// pixels and its top row lies inside the scanning band
/// `[height / 8, height - height / 16]`.
pub open spec fn keep_candidate(c: Rect, frame_height: int) -> bool {
    &&& c.width * c.height >= DIFF_THRESHOLD_PIXELS_COUNT
    &&& frame_height as int / (SCANNING_AREA_START_PARTITION_NUM as int) <= c.y
    &&& c.y <= frame_height as int - frame_height as int / (SCANNING_AREA_END_PARTITION_NUM as int)
}

/// A kept well-formed candidate has positive extent in both directions.
pub proof fn lemma_keep_positive(c: Rect, frame_height: int)
    requires
        c.wf(),
        keep_candidate(c, frame_height),
    ensures
        c.width >= 1,
        c.height >= 1,
{
    if c.width == 0 || c.height == 0 {
        assert(c.width * c.height == 0) by (nonlinear_arith)
            requires c.width == 0 || c.height == 0;
    }
}

/// Accumulates the surviving candidate rectangles into the single smallest
/// rectangle enclosing all of them. The accumulator starts unset and is
/// seeded by the first survivor, then expanded just enough to contain each
/// later one; a survivor with a legitimately zero coordinate is therefore
/// treated like any other. `None` exactly when no candidate survives the
/// filter.
pub fn covered_change_rect(candidates: &Vec<Rect>, frame_height: i32) -> (res: Option<Rect>)
    requires
        frame_height >= 0,
        forall|k: int| 0 <= k < candidates@.len() ==> {
            &&& (#[trigger] candidates@[k]).wf()
            &&& candidates@[k].right() <= 0x7fff_ffff
            &&& candidates@[k].bottom() <= 0x7fff_ffff
        },
    ensures
        (res is None <==> (forall|k: int| 0 <= k < candidates@.len()
            ==> !keep_candidate(#[trigger] candidates@[k], frame_height as int))),
        (match res {
            Some(a) => {
                &&& a.wf()
                &&& (exists|k: int| 0 <= k < candidates@.len()
                        && keep_candidate(#[trigger] candidates@[k], frame_height as int)
                        && candidates@[k].x == a.x)
                &&& (exists|k: int| 0 <= k < candidates@.len()
                        && keep_candidate(#[trigger] candidates@[k], frame_height as int)
                        && candidates@[k].y == a.y)
                &&& (exists|k: int| 0 <= k < candidates@.len()
                        && keep_candidate(#[trigger] candidates@[k], frame_height as int)
                        && candidates@[k].right() == a.right())
                &&& (exists|k: int| 0 <= k < candidates@.len()
                        && keep_candidate(#[trigger] candidates@[k], frame_height as int)
                        && candidates@[k].bottom() == a.bottom())
                &&& (forall|k: int| 0 <= k < candidates@.len()
                        && keep_candidate(#[trigger] candidates@[k], frame_height as int)
                        ==> a.x <= candidates@[k].x
                            && a.y <= candidates@[k].y
                            && candidates@[k].right() <= a.right()
                            && candidates@[k].bottom() <= a.bottom())
                &&& a.width >= 1
                &&& a.height >= 1
                &&& frame_height as int / (SCANNING_AREA_START_PARTITION_NUM as int) <= a.y
                &&& a.y <= frame_height as int - frame_height as int / (SCANNING_AREA_END_PARTITION_NUM as int)
            },
            None => true,
        }),
{
    let scanning_area_start_y = frame_height / SCANNING_AREA_START_PARTITION_NUM;
    let scanning_area_end_y = frame_height - frame_height / SCANNING_AREA_END_PARTITION_NUM;
    let mut acc: Option<Rect> = None;
    let n = candidates.len();
    let mut k: usize = 0;
    while k < n
        invariant
            frame_height >= 0,
            n == candidates@.len(),
            k <= n,
            scanning_area_start_y == frame_height as int / (SCANNING_AREA_START_PARTITION_NUM as int),
            scanning_area_end_y as int
                == frame_height as int - frame_height as int / (SCANNING_AREA_END_PARTITION_NUM as int),
            forall|j: int| 0 <= j < candidates@.len() ==> {
                &&& (#[trigger] candidates@[j]).wf()
                &&& candidates@[j].right() <= 0x7fff_ffff
                &&& candidates@[j].bottom() <= 0x7fff_ffff
            },
            (acc is None <==> (forall|j: int| 0 <= j < k
                ==> !keep_candidate(#[trigger] candidates@[j], frame_height as int))),
            (match acc {
                Some(a) => {
                    &&& a.wf()
                    &&& a.right() <= 0x7fff_ffff
                    &&& a.bottom() <= 0x7fff_ffff
                    &&& (exists|j: int| 0 <= j < k
                            && keep_candidate(#[trigger] candidates@[j], frame_height as int)
                            && candidates@[j].x == a.x)
                    &&& (exists|j: int| 0 <= j < k
                            && keep_candidate(#[trigger] candidates@[j], frame_height as int)
                            && candidates@[j].y == a.y)
                    &&& (exists|j: int| 0 <= j < k
                            && keep_candidate(#[trigger] candidates@[j], frame_height as int)
                            && candidates@[j].right() == a.right())
                    &&& (exists|j: int| 0 <= j < k
                            && keep_candidate(#[trigger] candidates@[j], frame_height as int)
                            && candidates@[j].bottom() == a.bottom())
                    &&& (forall|j: int| 0 <= j < k
                            && keep_candidate(#[trigger] candidates@[j], frame_height as int)
                            ==> a.x <= candidates@[j].x
                                && a.y <= candidates@[j].y
                                && candidates@[j].right() <= a.right()
                                && candidates@[j].bottom() <= a.bottom())
                },
                None => true,
            }),
        decreases n - k,
    {
        let c = candidates[k];
        proof {
            assert(c.width as int * c.height as int <= 0x7fff_ffff * 0x7fff_ffffi64)
                by (nonlinear_arith)
                requires 0 <= c.width <= 0x7fff_ffff && 0 <= c.height <= 0x7fff_ffff;
        }
        let area: i64 = c.width as i64 * c.height as i64;
        let keep = area >= DIFF_THRESHOLD_PIXELS_COUNT as i64
            && c.y >= scanning_area_start_y
            && c.y <= scanning_area_end_y;
        proof {
            assert(keep == keep_candidate(c, frame_height as int));
        }
        if keep {
            match acc {
                None => {
                    acc = Some(c);
                },
                Some(a) => {
                    let new_x = if c.x < a.x { c.x } else { a.x };
                    let new_y = if c.y < a.y { c.y } else { a.y };
                    let a_right = a.x + a.width;
                    let c_right = c.x + c.width;
                    let new_right = if c_right > a_right { c_right } else { a_right };
                    let a_bottom = a.y + a.height;
                    let c_bottom = c.y + c.height;
                    let new_bottom = if c_bottom > a_bottom { c_bottom } else { a_bottom };
                    acc = Some(Rect::new(new_x, new_y, new_right - new_x, new_bottom - new_y));
                },
            }
        }
        k += 1;
    }
    proof {
        if acc is Some {
            let a = acc->Some_0;
            let ghost cands = candidates@;
            let j = choose|j: int| 0 <= j < n
                && keep_candidate(#[trigger] cands[j], frame_height as int)
                && cands[j].right() == a.right();
            lemma_keep_positive(cands[j], frame_height as int);
            assert(a.x <= cands[j].x);
            assert(a.right() >= cands[j].x + 1);
            let j2 = choose|j2: int| 0 <= j2 < n
                && keep_candidate(#[trigger] cands[j2], frame_height as int)
                && cands[j2].bottom() == a.bottom();
            lemma_keep_positive(cands[j2], frame_height as int);
            assert(a.bottom() >= cands[j2].y + 1);
            let j3 = choose|j3: int| 0 <= j3 < n
                && keep_candidate(#[trigger] cands[j3], frame_height as int)
                && cands[j3].y == a.y;
            assert(keep_candidate(cands[j3], frame_height as int));
        }
    }
    acc
}

} // verus!
