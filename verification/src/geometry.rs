//! Rectangles and crop coordinates shared by every stage of the engine.

use vstd::prelude::*;

verus! {

/// Axis-aligned rectangle in integer pixel coordinates, top-left origin.
///
/// A rectangle is well formed when all four fields are nonnegative; a
/// well-formed rectangle may still be empty (zero width or height).
#[derive(Debug, Copy, Clone, PartialEq, Eq, Structural)]
pub struct Rect {
    pub x: i32,
    pub y: i32,
    pub width: i32,
    pub height: i32,
}

impl Rect {
    /// All extents nonnegative.
    pub open spec fn wf(self) -> bool {
        0 <= self.x && 0 <= self.y && 0 <= self.width && 0 <= self.height
    }

    /// One past the rightmost column covered by the rectangle.
    pub open spec fn right(self) -> int {
        self.x + self.width
    }

    /// One past the bottommost row covered by the rectangle.
    pub open spec fn bottom(self) -> int {
        self.y + self.height
    }

    pub fn new(x: i32, y: i32, width: i32, height: i32) -> (r: Self)
        ensures
            r.x == x,
            r.y == y,
            r.width == width,
            r.height == height,
    {
        Self { x, y, width, height }
    }
}

/// Starting column of a horizontal crop.
#[derive(Debug, Copy, Clone)]
pub struct CropX(pub i32);

/// Column count of a horizontal crop.
#[derive(Debug, Copy, Clone)]
pub struct CropWidth(pub i32);

/// Starting row of a vertical crop.
#[derive(Debug, Copy, Clone)]
pub struct CropY(pub i32);

/// Row count of a vertical crop.
#[derive(Debug, Copy, Clone)]
pub struct CropHeight(pub i32);

/// Rescales a region rectangle after its frame was uniformly downscaled by
/// the rational ratio `num / den`. Each field is scaled and rounded toward
/// zero, mirroring what happens to the frame's pixel grid.
pub fn scaled_rect(r: Rect, num: u32, den: u32) -> (s: Rect)
    requires
        r.wf(),
        0 < den,
        num <= den,
    ensures
        s.x == r.x * num / (den as int),
        s.y == r.y * num / (den as int),
        s.width == r.width * num / (den as int),
        s.height == r.height * num / (den as int),
        s.wf(),
{
    let x = scaled_field(r.x, num, den);
    let y = scaled_field(r.y, num, den);
    let width = scaled_field(r.width, num, den);
    let height = scaled_field(r.height, num, den);
    Rect { x, y, width, height }
}

/// One coordinate scaled down by `num / den`, rounded toward zero.
fn scaled_field(v: i32, num: u32, den: u32) -> (s: i32)
    requires
        0 <= v,
        0 < den,
        num <= den,
    ensures
        s == v * num / (den as int),
        0 <= s <= v,
{
    proof {
        assert(v as i64 * num as i64 <= 0x7fff_ffffi64 * 0xffff_ffffi64) by (nonlinear_arith)
            requires 0 <= v <= 0x7fff_ffff && num <= 0xffff_ffffu32;
        assert(0 <= v as i64 * num as i64) by (nonlinear_arith)
            requires 0 <= v && 0 <= num;
        lemma_scale_bound(v as int, num as int, den as int);
    }
    ((v as i64 * num as i64) / den as i64) as i32
}

/// A nonnegative value scaled down by `num / den` with `num <= den` stays
/// within its original range.
proof fn lemma_scale_bound(v: int, num: int, den: int)
    requires
        0 <= v,
        0 < den,
        num <= den,
        0 <= num,
    ensures
        0 <= v * num / den <= v,
{
    assert(v * num <= v * den) by (nonlinear_arith)
        requires 0 <= v && num <= den;
    assert(0 <= v * num) by (nonlinear_arith)
        requires 0 <= v && 0 <= num;
    assert(v * num / den <= v * den / den) by (nonlinear_arith)
        requires 0 < den && v * num <= v * den;
    assert(v * den / den == v) by (nonlinear_arith)
        requires 0 < den;
}

} // verus!
