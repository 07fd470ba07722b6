//! The alignment and merge engine: finds the vertical offset at which one
//! scrollable-region view continues another and folds all views into one
//! seamless column.
//!
//! A candidate window is accepted when the normalized cross-correlation of
//! the two windows exceeds 19/20, stated and decided exactly in integers:
//! with `num = n·Σab − Σa·Σb` and `den = (n·Σa² − (Σa)²)·(n·Σb² − (Σb)²)`,
//! the correlation exceeds 19/20 iff `num > 0` and `400·num² > 361·den`.
//! A constant (flat) window has zero centered energy and never crosses the
//! threshold. A floating-point backend computing the same test can differ
//! from this form only through its own rounding at the exact threshold.

use vstd::prelude::*;

use crate::{Error, FailedStage};
use crate::geometry::{CropHeight, CropY, Rect};
use crate::pixels::{ColorImage, MAX_IMAGE_DIM, MAX_PIXEL_BYTES};

verus! {

/// Number of equal horizontal strips the later view's matching window is
/// partitioned into during alignment.
pub const HEIGHT_PARTITION_NUM: usize = 10;

/// A pair of row offsets resolved by alignment: the row in the earlier view
/// below which content is discarded, and the row in the later view above
/// which content is discarded, before vertical concatenation.
#[derive(Debug, Copy, Clone, PartialEq, Eq, Structural)]
pub struct MatchedPoint(pub i32, pub i32);

/// One frame's scrollable region, cropped out of the frame and re-expressed
/// in local coordinates, together with the matching window used for
/// alignment (narrower than the full width, to avoid scrollbar and edge
/// artifacts).
#[derive(Debug)]
pub struct FactorListPartialImage {
    pub image: ColorImage,
    pub factor_list_area: Rect,
}

/// The mathematical content of a `FactorListPartialImage`: its pixel bytes,
/// dimensions, and matching window columns.
pub ghost struct ViewModel {
    pub width: int,
    pub height: int,
    pub data: Seq<u8>,
    pub win_x: int,
    pub win_w: int,
}

impl ViewModel {
    pub open spec fn wf(self) -> bool {
        &&& self.data.len() == self.width * self.height * 3
        &&& 0 <= self.win_x
        &&& 0 <= self.win_w
        &&& self.win_x + self.win_w <= self.width
        &&& 0 <= self.height
    }

    /// Channel `c` of the pixel at `(x, y)`.
    pub open spec fn pixel(self, x: int, y: int, c: int) -> u8 {
        self.data[(y * self.width + x) * 3 + c]
    }
}

/// Sum of a window's sample bytes.
pub open spec fn sum_bytes(s: Seq<u8>) -> int
    decreases s.len(),
{
    if s.len() == 0 {
        0
    } else {
        sum_bytes(s.drop_last()) + s.last()
    }
}

/// Sum of the squares of a window's sample bytes.
pub open spec fn sum_squares(s: Seq<u8>) -> int
    decreases s.len(),
{
    if s.len() == 0 {
        0
    } else {
        sum_squares(s.drop_last()) + s.last() * s.last()
    }
}

/// Sum of the pointwise products of two windows' sample bytes.
pub open spec fn sum_products(a: Seq<u8>, b: Seq<u8>) -> int
    decreases a.len(),
{
    if a.len() == 0 || b.len() == 0 {
        0
    } else {
        sum_products(a.drop_last(), b.drop_last()) + a.last() * b.last()
    }
}

/// The centered cross term of two windows, scaled by the sample count:
/// `n·Σab − Σa·Σb`, which is `n²` times the covariance.
pub open spec fn corr_num(a: Seq<u8>, b: Seq<u8>) -> int {
    a.len() * sum_products(a, b) - sum_bytes(a) * sum_bytes(b)
}

/// The centered energy of a window, scaled by the sample count:
/// `n·Σa² − (Σa)²`, which is `n²` times the variance. Nonnegative, and
/// zero exactly for constant windows.
pub open spec fn corr_den(a: Seq<u8>) -> int {
    a.len() * sum_squares(a) - sum_bytes(a) * sum_bytes(a)
}

/// The normalized cross-correlation of the two windows exceeds 19/20.
/// With `corr = num / sqrt(den_a·den_b)`, the test `corr > 19/20` holds
/// exactly when `num > 0` and `400·num² > 361·den_a·den_b`; this is that
/// test, free of square roots and fractions. A constant window has zero
/// centered energy, so it never crosses the threshold.
pub open spec fn corr_exceeds_threshold(a: Seq<u8>, b: Seq<u8>) -> bool {
    &&& a.len() == b.len()
    &&& corr_num(a, b) > 0
    &&& 400 * corr_num(a, b) * corr_num(a, b) > 361 * (corr_den(a) * corr_den(b))
}

/// The sample bytes of the `ph`-row matching window of `v` starting at row
/// `row`, flattened row-major: sample `k` is channel `(k % (win_w·3)) % 3`
/// of window column `(k % (win_w·3)) / 3` in window row `k / (win_w·3)`.
pub open spec fn window_bytes(v: ViewModel, row: int, ph: int) -> Seq<u8> {
    Seq::new(
        (v.win_w * ph * 3) as nat,
        |k: int| v.pixel(
            v.win_x + (k % (v.win_w * 3)) / 3,
            row + k / (v.win_w * 3),
            (k % (v.win_w * 3)) % 3,
        ),
    )
}

/// The `ph`-row window of `a` starting at row `s` matches the `ph`-row
/// window of `b` starting at row `o` when their normalized cross-correlation
/// exceeds 19/20. Windows of different widths never match.
pub open spec fn window_match(a: ViewModel, b: ViewModel, s: int, o: int, ph: int) -> bool {
    &&& a.win_w == b.win_w
    &&& corr_exceeds_threshold(window_bytes(a, s, ph), window_bytes(b, o, ph))
}

/// Sum of squared deviations of a window's samples from `c`.
pub open spec fn sum_sq_dev(s: Seq<u8>, c: int) -> int
    decreases s.len(),
{
    if s.len() == 0 {
        0
    } else {
        sum_sq_dev(s.drop_last(), c) + (s.last() - c) * (s.last() - c)
    }
}

proof fn lemma_sum_sq_dev_nonneg(s: Seq<u8>, c: int)
    ensures
        sum_sq_dev(s, c) >= 0,
    decreases s.len(),
{
    if s.len() > 0 {
        lemma_sum_sq_dev_nonneg(s.drop_last(), c);
        assert((s.last() - c) * (s.last() - c) >= 0) by (nonlinear_arith);
    }
}

proof fn lemma_sum_sq_dev_pos(s: Seq<u8>, c: int, i: int)
    requires
        0 <= i < s.len(),
        s[i] != c,
    ensures
        sum_sq_dev(s, c) > 0,
    decreases s.len(),
{
    let t = s.drop_last();
    if i == s.len() - 1 {
        lemma_sum_sq_dev_nonneg(t, c);
        assert((s.last() - c) * (s.last() - c) > 0) by (nonlinear_arith)
            requires s.last() != c;
    } else {
        assert(t[i] == s[i]);
        lemma_sum_sq_dev_pos(t, c, i);
        assert((s.last() - c) * (s.last() - c) >= 0) by (nonlinear_arith);
    }
}

/// `Σ(sᵢ − c)² == Σs² − 2c·Σs + n·c²`.
proof fn lemma_sum_sq_dev_expand(s: Seq<u8>, c: int)
    ensures
        sum_sq_dev(s, c) == sum_squares(s) - 2 * c * sum_bytes(s) + s.len() * c * c,
    decreases s.len(),
{
    if s.len() > 0 {
        let t = s.drop_last();
        lemma_sum_sq_dev_expand(t, c);
        let x = s.last() as int;
        let st = sum_bytes(t);
        let sqt = sum_squares(t);
        let n1 = t.len() as int;
        assert(sum_sq_dev(t, c) + (x - c) * (x - c)
            == (sqt + x * x) - 2 * c * (st + x) + (n1 + 1) * c * c) by (nonlinear_arith)
            requires sum_sq_dev(t, c) == sqt - 2 * c * st + n1 * c * c;
    }
}

/// Appending a sample adds its squared deviation terms:
/// `corr_den(s.push(x)) == corr_den(s) + sum_sq_dev(s, x)`.
proof fn lemma_corr_den_push(s: Seq<u8>, x: u8)
    ensures
        corr_den(s.push(x)) == corr_den(s) + sum_sq_dev(s, x as int),
{
    let p = s.push(x);
    assert(p.drop_last() =~= s);
    assert(p.last() == x);
    assert(sum_squares(p) == sum_squares(s) + x * x);
    assert(sum_bytes(p) == sum_bytes(s) + x);
    lemma_sum_sq_dev_expand(s, x as int);
    let n = s.len() as int;
    let sq = sum_squares(s);
    let sm = sum_bytes(s);
    let xi = x as int;
    assert((n + 1) * (sq + xi * xi) - (sm + xi) * (sm + xi)
        == (n * sq - sm * sm) + (sq - 2 * xi * sm + n * xi * xi)) by (nonlinear_arith);
}

/// The centered energy of a window is nonnegative (Cauchy–Schwarz).
pub proof fn lemma_corr_den_nonneg(s: Seq<u8>)
    ensures
        corr_den(s) >= 0,
    decreases s.len(),
{
    if s.len() > 0 {
        let t = s.drop_last();
        assert(t.push(s.last()) =~= s);
        lemma_corr_den_nonneg(t);
        lemma_corr_den_push(t, s.last());
        lemma_sum_sq_dev_nonneg(t, s.last() as int);
    }
}

/// A window that is not constant has strictly positive centered energy.
pub proof fn lemma_corr_den_pos(s: Seq<u8>)
    requires
        exists|i: int, j: int| 0 <= i < j < s.len() && s[i] != s[j],
    ensures
        corr_den(s) > 0,
    decreases s.len(),
{
    let (i, j) = choose|i: int, j: int| 0 <= i < j < s.len() && s[i] != s[j];
    let t = s.drop_last();
    assert(t.push(s.last()) =~= s);
    lemma_corr_den_push(t, s.last());
    if j == s.len() - 1 {
        lemma_corr_den_nonneg(t);
        assert(t[i] == s[i]);
        lemma_sum_sq_dev_pos(t, s.last() as int, i);
    } else {
        assert(t[i] == s[i] && t[j] == s[j]);
        assert(0 <= i < j < t.len() && t[i] != t[j]);
        lemma_corr_den_pos(t);
        lemma_sum_sq_dev_nonneg(t, s.last() as int);
    }
}

/// Self-correlation: the pointwise products of a window with itself are
/// its squares.
proof fn lemma_sum_products_self(s: Seq<u8>)
    ensures
        sum_products(s, s) == sum_squares(s),
    decreases s.len(),
{
    if s.len() > 0 {
        lemma_sum_products_self(s.drop_last());
    }
}

/// `x / d` stays below `c` when `x < d·c`.
proof fn lemma_div_below(x: int, d: int, c: int)
    requires
        0 <= x,
        0 < d,
        0 < c,
        x < d * c,
    ensures
        x / d < c,
{
    vstd::arithmetic::div_mod::lemma_fundamental_div_mod(x, d);
    vstd::arithmetic::div_mod::lemma_mod_bound(x, d);
    if x / d >= c {
        assert(d * (x / d) >= d * c) by (nonlinear_arith)
            requires x / d >= c && d > 0;
        assert(x >= d * (x / d));
        assert(false);
    }
}

/// A product of values below `ca` and `cb` stays below `ca·cb`.
proof fn lemma_mul_below(a: int, b: int, ca: int, cb: int)
    requires
        0 <= a < ca,
        0 <= b < cb,
    ensures
        0 <= a * b,
        a * b < ca * cb,
{
    assert(0 <= a * b && a * b < ca * cb) by (nonlinear_arith)
        requires 0 <= a < ca && 0 <= b < cb;
}

/// Two-limb product expansion: `(x1·d + x0)(y1·d + y0)` regrouped by powers
/// of `d`.
proof fn lemma_limb_expand(x1: int, x0: int, y1: int, y0: int, d: int)
    ensures
        (x1 * d + x0) * (y1 * d + y0)
            == (x1 * y1) * (d * d) + (x1 * y0 + x0 * y1) * d + x0 * y0,
{
    let a = x1 * d;
    let c = y1 * d;
    assert((a + x0) * (c + y0) == a * c + a * y0 + x0 * c + x0 * y0) by (nonlinear_arith);
    assert((x1 * d) * (y1 * d) == (x1 * y1) * (d * d)) by (nonlinear_arith);
    assert((x1 * d) * y0 == (x1 * y0) * d) by (nonlinear_arith);
    assert(x0 * (y1 * d) == (x0 * y1) * d) by (nonlinear_arith);
    assert((x1 * y0) * d + (x0 * y1) * d == (x1 * y0 + x0 * y1) * d) by (nonlinear_arith);
}

/// Carry normalization: folding the carries of the middle and low limbs
/// back into the higher ones preserves the value.
proof fn lemma_limb_carry(p2: int, p1: int, p0: int, c0: int, l: int, c1: int, m: int, d: int)
    requires
        p0 == c0 * d + l,
        p1 + c0 == c1 * d + m,
    ensures
        (p2 + c1) * (d * d) + m * d + l == p2 * (d * d) + p1 * d + p0,
{
    assert((p2 + c1) * (d * d) + m * d + l == p2 * (d * d) + p1 * d + p0) by (nonlinear_arith)
        requires p0 == c0 * d + l && p1 + c0 == c1 * d + m;
}

/// Three-limb values with normalized middle and low limbs compare
/// lexicographically.
proof fn lemma_limb_order(h1: int, m1: int, l1: int, h2: int, m2: int, l2: int, d: int)
    requires
        0 < d,
        0 <= h1,
        0 <= m1 < d,
        0 <= l1 < d,
        0 <= h2,
        0 <= m2 < d,
        0 <= l2 < d,
        h1 > h2 || (h1 == h2 && (m1 > m2 || (m1 == m2 && l1 > l2))),
    ensures
        h1 * (d * d) + m1 * d + l1 > h2 * (d * d) + m2 * d + l2,
{
    assert(h1 * (d * d) + m1 * d + l1 > h2 * (d * d) + m2 * d + l2) by (nonlinear_arith)
        requires
            0 < d && 0 <= h1 && 0 <= m1 < d && 0 <= l1 < d
            && 0 <= h2 && 0 <= m2 < d && 0 <= l2 < d
            && (h1 > h2 || (h1 == h2 && (m1 > m2 || (m1 == m2 && l1 > l2))));
}

/// Splits a product of two bounded values into limbs of 2^64, so that
/// products beyond the u128 range can be compared exactly: the result
/// `(h, m, l)` satisfies `h·2^128 + m·2^64 + l == x·y` with `m, l < 2^64`.
fn mul_limbs(x: u128, y: u128) -> (r: (u128, u128, u128))
    requires
        x < 0x1000000000000000000000000,
        y < 0x1000000000000000000000000,
    ensures
        (r.0 as int) * (0x10000000000000000 * 0x10000000000000000)
            + (r.1 as int) * 0x10000000000000000 + (r.2 as int)
            == (x as int) * (y as int),
        r.1 < 0x10000000000000000,
        r.2 < 0x10000000000000000,
{
    let b: u128 = 0x10000000000000000;
    let x1 = x / b;
    let x0 = x % b;
    let y1 = y / b;
    let y0 = y % b;
    proof {
        lemma_div_below(x as int, 0x10000000000000000, 0x100000000);
        lemma_div_below(y as int, 0x10000000000000000, 0x100000000);
        lemma_mul_below(x0 as int, y0 as int, 0x10000000000000000, 0x10000000000000000);
        lemma_mul_below(x1 as int, y0 as int, 0x100000000, 0x10000000000000000);
        lemma_mul_below(x0 as int, y1 as int, 0x10000000000000000, 0x100000000);
        lemma_mul_below(x1 as int, y1 as int, 0x100000000, 0x100000000);
    }
    let p0 = x0 * y0;
    let p1 = x1 * y0 + x0 * y1;
    let p2 = x1 * y1;
    let l = p0 % b;
    let c0 = p0 / b;
    let mt = p1 + c0;
    let m = mt % b;
    let c1 = mt / b;
    let h = p2 + c1;
    proof {
        let bi: int = 0x10000000000000000;
        let x1i = x1 as int;
        let x0i = x0 as int;
        let y1i = y1 as int;
        let y0i = y0 as int;
        assert(x as int == x1i * bi + x0i);
        assert(y as int == y1i * bi + y0i);
        lemma_limb_expand(x1i, x0i, y1i, y0i, bi);
        assert(p0 == c0 * bi + l);
        assert(mt == c1 * bi + m);
        lemma_limb_carry(p2 as int, p1 as int, p0 as int, c0 as int, l as int, c1 as int, m as int, bi);
    }
    (h, m, l)
}

/// Exact comparison `x·y > z·w` for factors whose product may exceed the
/// u128 range.
fn product_gt(x: u128, y: u128, z: u128, w: u128) -> (r: bool)
    requires
        x < 0x1000000000000000000000000,
        y < 0x1000000000000000000000000,
        z < 0x1000000000000000000000000,
        w < 0x1000000000000000000000000,
    ensures
        r == ((x as int) * (y as int) > (z as int) * (w as int)),
{
    let (h1, m1, l1) = mul_limbs(x, y);
    let (h2, m2, l2) = mul_limbs(z, w);
    proof {
        let bi: int = 0x10000000000000000;
        if h1 > h2 || (h1 == h2 && (m1 > m2 || (m1 == m2 && l1 > l2))) {
            lemma_limb_order(h1 as int, m1 as int, l1 as int, h2 as int, m2 as int, l2 as int, bi);
        } else {
            if h2 > h1 || (h2 == h1 && (m2 > m1 || (m2 == m1 && l2 > l1))) {
                lemma_limb_order(h2 as int, m2 as int, l2 as int, h1 as int, m1 as int, l1 as int, bi);
            }
        }
    }
    if h1 != h2 {
        h1 > h2
    } else if m1 != m2 {
        m1 > m2
    } else {
        l1 > l2
    }
}

/// Decides the correlation threshold from the six window sums:
/// `num > 0 && 400·num² > 361·den_a·den_b` with `num = n·Σab − Σa·Σb`,
/// `den_a = n·Σa² − (Σa)²`, `den_b = n·Σb² − (Σb)²`.
fn corr_decide(n: u64, sa: u64, sb: u64, sab: u64, saa: u64, sbb: u64) -> (r: bool)
    requires
        n <= 300000000,
        sa <= 255 * n,
        sb <= 255 * n,
        sab <= 65025 * n,
        saa <= 65025 * n,
        sbb <= 65025 * n,
        n * saa >= sa * sa,
        n * sbb >= sb * sb,
    ensures
        r == ({
            let num = n * sab - sa * sb;
            let da = n * saa - sa * sa;
            let db = n * sbb - sb * sb;
            num > 0 && 400 * num * num > 361 * (da * db)
        }),
{
    proof {
        assert((n as int) * (sab as int) <= 65025 * 300000000 * 300000000int)
            by (nonlinear_arith)
            requires n <= 300000000 && sab <= 65025 * n;
        assert((n as int) * (saa as int) <= 65025 * 300000000 * 300000000int)
            by (nonlinear_arith)
            requires n <= 300000000 && saa <= 65025 * n;
        assert((n as int) * (sbb as int) <= 65025 * 300000000 * 300000000int)
            by (nonlinear_arith)
            requires n <= 300000000 && sbb <= 65025 * n;
        assert((sa as int) * (sb as int) <= 255 * 300000000 * (255 * 300000000int))
            by (nonlinear_arith)
            requires sa <= 255 * 300000000 && sb <= 255 * 300000000;
        assert((sa as int) * (sa as int) <= 255 * 300000000 * (255 * 300000000int))
            by (nonlinear_arith)
            requires sa <= 255 * 300000000;
        assert((sb as int) * (sb as int) <= 255 * 300000000 * (255 * 300000000int))
            by (nonlinear_arith)
            requires sb <= 255 * 300000000;
    }
    let nsab = (n as u128) * (sab as u128);
    let sasb = (sa as u128) * (sb as u128);
    if nsab <= sasb {
        return false;
    }
    let num = nsab - sasb;
    let da = (n as u128) * (saa as u128) - (sa as u128) * (sa as u128);
    let db = (n as u128) * (sbb as u128) - (sb as u128) * (sb as u128);
    let r = product_gt(400 * num, num, 361 * da, db);
    proof {
        assert(361 * ((da as int) * (db as int)) == (361 * (da as int)) * (db as int))
            by (nonlinear_arith);
        assert(400 * (num as int) * (num as int) == (400 * (num as int)) * (num as int));
    }
    r
}

/// Scans the earlier view bottom to top, from row `s` down to row 0, and
/// yields the first (largest) scan position whose window matches the strip
/// of `b` at `o`.
pub open spec fn scan_down(a: ViewModel, b: ViewModel, o: int, ph: int, s: int) -> Option<int>
    decreases s,
{
    if s < 0 {
        None
    } else if window_match(a, b, s, o, ph) {
        Some(s)
    } else if s == 0 {
        None
    } else {
        scan_down(a, b, o, ph, s - 1)
    }
}

/// Tries the strips of `b` top to bottom, starting at strip `p`; for each
/// strip, scans `a` bottom to top. Yields the first match in that order as
/// `(scan position in a, strip start row in b)`.
pub open spec fn detect_from(a: ViewModel, b: ViewModel, ph: int, p: int) -> Option<(int, int)>
    decreases HEIGHT_PARTITION_NUM - p,
{
    if p < 0 || p >= HEIGHT_PARTITION_NUM {
        None
    } else {
        let here = if a.height - ph >= 0 {
            scan_down(a, b, p * ph, ph, a.height - ph)
        } else {
            None
        };
        match here {
            Some(s) => Some((s, p * ph)),
            None => detect_from(a, b, ph, p + 1),
        }
    }
}

/// The alignment result for a pair of views: the strip height is a tenth of
/// the later view's height, and the first strip/scan-position combination
/// (strips top to bottom, scan positions bottom to top) whose windows match
/// is taken. `None` when the strip height is zero or nothing matches.
pub open spec fn detect_spec(a: ViewModel, b: ViewModel) -> Option<(int, int)> {
    let ph = b.height / (HEIGHT_PARTITION_NUM as int);
    if ph <= 0 {
        None
    } else {
        detect_from(a, b, ph, 0)
    }
}

impl FactorListPartialImage {
    pub open spec fn wf(self) -> bool {
        &&& self.image.wf()
        &&& self.factor_list_area.wf()
        &&& self.factor_list_area.y == 0
        &&& self.factor_list_area.height == self.image.height
        &&& self.factor_list_area.x + self.factor_list_area.width <= self.image.width
    }

    pub open spec fn view_model(self) -> ViewModel {
        ViewModel {
            width: self.image.width as int,
            height: self.image.height as int,
            data: self.image.data@,
            win_x: self.factor_list_area.x as int,
            win_w: self.factor_list_area.width as int,
        }
    }

    /// Compares the `ph`-row window of `self` starting at row `s` with the
    /// `ph`-row window of `other` starting at row `o`: accumulates the six
    /// window sums and decides the exact correlation threshold on them.
    fn window_match_at(&self, other: &FactorListPartialImage, s: usize, o: usize, ph: usize) -> (res: bool)
        requires
            self.wf(),
            other.wf(),
            s + ph <= self.image.height,
            o + ph <= other.image.height,
        ensures
            res == window_match(self.view_model(), other.view_model(), s as int, o as int, ph as int),
    {
        let ghost am = self.view_model();
        let ghost bm = other.view_model();
        if self.factor_list_area.width != other.factor_list_area.width {
            return false;
        }
        let win_w = self.factor_list_area.width as usize;
        let ax = self.factor_list_area.x as usize;
        let bx = other.factor_list_area.x as usize;
        proof {
            assert(win_w * ph * 3 <= self.image.width * self.image.height * 3)
                by (nonlinear_arith)
                requires
                    win_w <= self.image.width && ph <= self.image.height
                    && 0 <= win_w && 0 <= self.image.width && 0 <= ph;
            assert((win_w * 3) * ph == win_w * ph * 3) by (nonlinear_arith);
        }
        let w3 = win_w * 3;
        let n = w3 * ph;
        let ghost wa = window_bytes(am, s as int, ph as int);
        let ghost wb = window_bytes(bm, o as int, ph as int);
        proof {
            assert(wa.len() == n);
            assert(wb.len() == n);
        }
        let mut sa: u64 = 0;
        let mut sb: u64 = 0;
        let mut sab: u64 = 0;
        let mut saa: u64 = 0;
        let mut sbb: u64 = 0;
        let mut k: usize = 0;
        while k < n
            invariant
                self.wf(),
                other.wf(),
                am == self.view_model(),
                bm == other.view_model(),
                am.win_w == bm.win_w,
                win_w == am.win_w,
                ax == am.win_x,
                bx == bm.win_x,
                s + ph <= self.image.height,
                o + ph <= other.image.height,
                w3 == win_w * 3,
                n == w3 * ph,
                n <= 300000000,
                wa == window_bytes(am, s as int, ph as int),
                wb == window_bytes(bm, o as int, ph as int),
                wa.len() == n,
                wb.len() == n,
                k <= n,
                sa as int == sum_bytes(wa.take(k as int)),
                sb as int == sum_bytes(wb.take(k as int)),
                sab as int == sum_products(wa.take(k as int), wb.take(k as int)),
                saa as int == sum_squares(wa.take(k as int)),
                sbb as int == sum_squares(wb.take(k as int)),
                sa <= 255 * k,
                sb <= 255 * k,
                sab <= 65025 * k,
                saa <= 65025 * k,
                sbb <= 65025 * k,
            decreases n - k,
        {
            proof {
                assert(w3 > 0) by (nonlinear_arith)
                    requires k < n && n == w3 * ph && 0 <= w3 && 0 <= ph;
            }
            let dy = k / w3;
            let rem = k % w3;
            let dx = rem / 3;
            let c = rem % 3;
            proof {
                vstd::arithmetic::div_mod::lemma_fundamental_div_mod(k as int, w3 as int);
                vstd::arithmetic::div_mod::lemma_fundamental_div_mod(rem as int, 3);
                assert(k == dy * w3 + rem && rem < w3);
                assert(rem == dx * 3 + c && c < 3);
                assert(dy < ph) by (nonlinear_arith)
                    requires
                        k == dy * w3 + rem && 0 <= rem && k < w3 * ph && 0 < w3
                        && 0 <= dy && 0 <= ph;
                assert(dx < win_w) by (nonlinear_arith)
                    requires rem == dx * 3 + c && 0 <= c && rem < win_w * 3 && 0 <= dx;
                assert(ax + dx < self.image.width);
                assert(bx + dx < other.image.width);
            }
            let av = self.image.at(ax + dx, s + dy, c);
            let bv = other.image.at(bx + dx, o + dy, c);
            proof {
                assert(wa[k as int] == av);
                assert(wb[k as int] == bv);
                assert(wa.take(k + 1).drop_last() =~= wa.take(k as int));
                assert(wb.take(k + 1).drop_last() =~= wb.take(k as int));
                assert(wa.take(k + 1).last() == wa[k as int]);
                assert(wb.take(k + 1).last() == wb[k as int]);
                assert(255 * (k + 1) == 255 * k + 255) by (nonlinear_arith);
                assert(65025 * (k + 1) == 65025 * k + 65025) by (nonlinear_arith);
                assert((av as int) * (bv as int) <= 65025) by (nonlinear_arith)
                    requires av <= 255 && bv <= 255;
                assert((av as int) * (av as int) <= 65025) by (nonlinear_arith)
                    requires av <= 255;
                assert((bv as int) * (bv as int) <= 65025) by (nonlinear_arith)
                    requires bv <= 255;
            }
            sa = sa + av as u64;
            sb = sb + bv as u64;
            sab = sab + (av as u64) * (bv as u64);
            saa = saa + (av as u64) * (av as u64);
            sbb = sbb + (bv as u64) * (bv as u64);
            k += 1;
        }
        proof {
            assert(wa.take(n as int) =~= wa);
            assert(wb.take(n as int) =~= wb);
            lemma_corr_den_nonneg(wa);
            lemma_corr_den_nonneg(wb);
        }
        let r = corr_decide(n as u64, sa, sb, sab, saa, sbb);
        proof {
            assert(corr_num(wa, wb) == (n as int) * (sab as int) - (sa as int) * (sb as int));
            assert(corr_den(wa) == (n as int) * (saa as int) - (sa as int) * (sa as int));
            assert(corr_den(wb) == (n as int) * (sbb as int) - (sb as int) * (sb as int));
        }
        r
    }

    /// Finds where `other`'s content continues `self`'s content: partitions
    /// `other`'s matching window into ten equal strips, and for each strip
    /// (top to bottom) scans `self`'s matching window bottom to top for a
    /// window whose normalized cross-correlation with the strip exceeds
    /// 19/20 (the exact integer test of `corr_exceeds_threshold`). The
    /// first crossing in that order is returned as
    /// `MatchedPoint(scan position in self, strip start row in other)`.
    ///
    /// Fails with `Error::ImageNotMatched` (stage `Alignment`, the later
    /// view reported as frame 1) when the strip height is zero or no strip
    /// crosses the threshold anywhere.
    ///
    /// Two identical views never fail unless their content is constant: a
    /// non-constant strip correlates perfectly with itself, so the scan
    /// finds a crossing (see `lemma_identical_views_resolve`), while
    /// constant content has zero centered energy and yields the alignment
    /// error. Which offsets come out depends on the content, since the
    /// bottom-up scan returns the *highest* crossing: for generic
    /// (decorrelated) content only position 0 correlates with the first
    /// strip, so the pair resolves to `(0, 0)` and the merge keeps no rows
    /// of the earlier view, but self-similar content — a periodic pattern,
    /// or a smooth gradient, whose windows correlate perfectly at every
    /// shift — resolves at the highest crossing and nearly doubles the
    /// column.
    pub fn detect_match_area(&self, other: &FactorListPartialImage) -> (res: Result<MatchedPoint, Error>)
        requires
            self.wf(),
            other.wf(),
        ensures
            (match res {
                Ok(m) => {
                    &&& 0 <= m.0
                    &&& 0 <= m.1
                    &&& detect_spec(self.view_model(), other.view_model())
                        == Some((m.0 as int, m.1 as int))
                },
                Err(e) => {
                    &&& (e matches Error::ImageNotMatched { stage }
                        && stage == (FailedStage::Alignment { later_frame: 1 }))
                    &&& detect_spec(self.view_model(), other.view_model()) is None
                },
            }),
    {
        let ghost am = self.view_model();
        let ghost bm = other.view_model();
        let ph = other.image.height / HEIGHT_PARTITION_NUM;
        if ph == 0 {
            return Err(Error::ImageNotMatched { stage: FailedStage::Alignment { later_frame: 1 } });
        }
        let mut p: usize = 0;
        while p < HEIGHT_PARTITION_NUM
            invariant
                self.wf(),
                other.wf(),
                am == self.view_model(),
                bm == other.view_model(),
                ph == bm.height / (HEIGHT_PARTITION_NUM as int),
                ph >= 1,
                p <= HEIGHT_PARTITION_NUM,
                detect_from(am, bm, ph as int, 0) == detect_from(am, bm, ph as int, p as int),
            decreases HEIGHT_PARTITION_NUM - p,
        {
            proof {
                lemma_strip_in_bounds(bm.height, ph as int, p as int);
            }
            let o = p * ph;
            if self.image.height >= ph {
                let top = self.image.height - ph;
                let mut spos = top + 1;
                while spos > 0
                    invariant
                        self.wf(),
                        other.wf(),
                        am == self.view_model(),
                        bm == other.view_model(),
                        ph == bm.height / (HEIGHT_PARTITION_NUM as int),
                        ph >= 1,
                        p < HEIGHT_PARTITION_NUM,
                        o == p * ph,
                        o + ph <= other.image.height,
                        top == self.image.height - ph,
                        spos <= top + 1,
                        detect_from(am, bm, ph as int, 0) == detect_from(am, bm, ph as int, p as int),
                        scan_down(am, bm, o as int, ph as int, top as int)
                            == (if spos > 0 {
                                scan_down(am, bm, o as int, ph as int, spos - 1)
                            } else {
                                None::<int>
                            }),
                    decreases spos,
                {
                    let s = spos - 1;
                    if self.window_match_at(other, s, o, ph) {
                        proof {
                            assert(scan_down(am, bm, o as int, ph as int, s as int) == Some(s as int));
                            assert(scan_down(am, bm, o as int, ph as int, top as int) == Some(s as int));
                            assert(detect_from(am, bm, ph as int, p as int) == Some((s as int, o as int)));
                        }
                        return Ok(MatchedPoint(s as i32, o as i32));
                    }
                    spos -= 1;
                }
                proof {
                    assert(scan_down(am, bm, o as int, ph as int, top as int) is None);
                }
            }
            p += 1;
        }
        Err(Error::ImageNotMatched { stage: FailedStage::Alignment { later_frame: 1 } })
    }
}

/// A strip index below `HEIGHT_PARTITION_NUM` starts a strip that lies
/// inside the later view.
proof fn lemma_strip_in_bounds(h: int, ph: int, p: int)
    requires
        ph == h / (HEIGHT_PARTITION_NUM as int),
        ph >= 1,
        0 <= p < HEIGHT_PARTITION_NUM,
        0 <= h,
    ensures
        0 <= p * ph,
        p * ph + ph <= h,
{
    assert(0 <= p * ph && p * ph + ph <= (HEIGHT_PARTITION_NUM as int) * ph) by (nonlinear_arith)
        requires 0 <= p < HEIGHT_PARTITION_NUM && 1 <= ph;
    assert((HEIGHT_PARTITION_NUM as int) * (h / (HEIGHT_PARTITION_NUM as int)) <= h) by (nonlinear_arith)
        requires 0 <= h;
}

/// A successful bottom-up scan lands between 0 and the starting position.
pub proof fn lemma_scan_down_bounds(a: ViewModel, b: ViewModel, o: int, ph: int, s: int)
    requires
        scan_down(a, b, o, ph, s) is Some,
    ensures
        0 <= scan_down(a, b, o, ph, s)->Some_0 <= s,
    decreases s,
{
    if s < 0 {
    } else if window_match(a, b, s, o, ph) {
    } else if s == 0 {
    } else {
        lemma_scan_down_bounds(a, b, o, ph, s - 1);
    }
}

/// A successful detection yields offsets that keep both windows inside
/// their views.
pub proof fn lemma_detect_bounds(a: ViewModel, b: ViewModel)
    requires
        detect_spec(a, b) is Some,
    ensures
        ({
            let ph = b.height / (HEIGHT_PARTITION_NUM as int);
            let (s, o) = detect_spec(a, b)->Some_0;
            &&& ph >= 1
            &&& 0 <= s
            &&& s + ph <= a.height
            &&& 0 <= o
            &&& o + ph <= b.height
        }),
{
    let ph = b.height / (HEIGHT_PARTITION_NUM as int);
    lemma_detect_from_bounds(a, b, ph, 0);
}

proof fn lemma_detect_from_bounds(a: ViewModel, b: ViewModel, ph: int, p: int)
    requires
        detect_from(a, b, ph, p) is Some,
        ph >= 1,
        ph == b.height / (HEIGHT_PARTITION_NUM as int),
        0 <= b.height,
    ensures
        ({
            let (s, o) = detect_from(a, b, ph, p)->Some_0;
            &&& 0 <= s
            &&& s + ph <= a.height
            &&& 0 <= o
            &&& o + ph <= b.height
        }),
    decreases HEIGHT_PARTITION_NUM - p,
{
    if p < 0 || p >= HEIGHT_PARTITION_NUM {
    } else {
        let here = if a.height - ph >= 0 {
            scan_down(a, b, p * ph, ph, a.height - ph)
        } else {
            None
        };
        match here {
            Some(s) => {
                lemma_scan_down_bounds(a, b, p * ph, ph, a.height - ph);
                lemma_strip_in_bounds(b.height, ph, p);
            },
            None => {
                lemma_detect_from_bounds(a, b, ph, p + 1);
            },
        }
    }
}

/// Strip `p` of the later view matches the earlier view's window at scan
/// position `s`.
pub open spec fn strip_hit(a: ViewModel, b: ViewModel, ph: int, p: int, s: int) -> bool {
    window_match(a, b, s, p * ph, ph)
}

/// A bottom-up scan yields the first match from the top position down:
/// the result matches and no higher position does; `None` means no
/// position in `[0, s]` matches.
pub proof fn lemma_scan_down_first(a: ViewModel, b: ViewModel, o: int, ph: int, s: int)
    requires
        0 <= s,
    ensures
        (match scan_down(a, b, o, ph, s) {
            Some(sp) => {
                &&& 0 <= sp <= s
                &&& window_match(a, b, sp, o, ph)
                &&& (forall|t: int| sp < t <= s ==> !#[trigger] window_match(a, b, t, o, ph))
            },
            None => forall|t: int| 0 <= t <= s ==> !#[trigger] window_match(a, b, t, o, ph),
        }),
    decreases s,
{
    if window_match(a, b, s, o, ph) {
    } else if s == 0 {
    } else {
        lemma_scan_down_first(a, b, o, ph, s - 1);
    }
}

/// Strip `pp` is the first crossing of the search that starts at strip
/// `lo`: it matches the earlier view at scan position `sp`, no higher scan
/// position matches it, and no strip between `lo` and `pp` matches
/// anywhere.
pub open spec fn first_hit_at(a: ViewModel, b: ViewModel, ph: int, lo: int, pp: int, sp: int) -> bool {
    &&& lo <= pp < HEIGHT_PARTITION_NUM
    &&& strip_hit(a, b, ph, pp, sp)
    &&& 0 <= sp <= a.height - ph
    &&& (forall|t: int| sp < t <= a.height - ph ==> !#[trigger] strip_hit(a, b, ph, pp, t))
    &&& (forall|p2: int, t: int|
            lo <= p2 < pp && 0 <= t <= a.height - ph
                ==> !#[trigger] strip_hit(a, b, ph, p2, t))
}

/// No strip from `lo` on matches the earlier view anywhere.
pub open spec fn no_hit_from(a: ViewModel, b: ViewModel, ph: int, lo: int) -> bool {
    forall|p2: int, t: int|
        lo <= p2 < HEIGHT_PARTITION_NUM && 0 <= t <= a.height - ph
            ==> !#[trigger] strip_hit(a, b, ph, p2, t)
}

/// The strip search takes the first crossing in its order: strips top to
/// bottom from `p`, scan positions bottom to top. A result `(sp, op)` names
/// its strip as `op / ph`.
pub proof fn lemma_detect_from_first(a: ViewModel, b: ViewModel, ph: int, p: int)
    requires
        0 <= p,
        1 <= ph,
    ensures
        (match detect_from(a, b, ph, p) {
            Some(m) => first_hit_at(a, b, ph, p, m.1 / ph, m.0) && m.1 == (m.1 / ph) * ph,
            None => no_hit_from(a, b, ph, p),
        }),
    decreases HEIGHT_PARTITION_NUM - p,
{
    if p >= HEIGHT_PARTITION_NUM {
    } else {
        let scanned = if a.height - ph >= 0 {
            lemma_scan_down_first(a, b, p * ph, ph, a.height - ph);
            scan_down(a, b, p * ph, ph, a.height - ph)
        } else {
            None
        };
        match scanned {
            Some(sp) => {
                assert(strip_hit(a, b, ph, p, sp));
                assert forall|t: int| sp < t <= a.height - ph
                    implies !#[trigger] strip_hit(a, b, ph, p, t) by {
                    assert(!window_match(a, b, t, p * ph, ph));
                }
                vstd::arithmetic::div_mod::lemma_div_multiples_vanish(p, ph);
                assert((p * ph) / ph == p);
                assert(first_hit_at(a, b, ph, p, p, sp));
            },
            None => {
                lemma_detect_from_first(a, b, ph, p + 1);
                assert forall|t: int| 0 <= t <= a.height - ph
                    implies !#[trigger] strip_hit(a, b, ph, p, t) by {
                    assert(!window_match(a, b, t, p * ph, ph));
                }
                match detect_from(a, b, ph, p + 1) {
                    Some(m) => {
                        let pp = m.1 / ph;
                        assert(first_hit_at(a, b, ph, p + 1, pp, m.0));
                        assert forall|p2: int, t: int|
                            p <= p2 < pp && 0 <= t <= a.height - ph
                                implies !#[trigger] strip_hit(a, b, ph, p2, t) by {
                            if p2 == p {
                                assert(!strip_hit(a, b, ph, p, t));
                            }
                        }
                        assert(first_hit_at(a, b, ph, p, pp, m.0));
                    },
                    None => {
                        assert forall|p2: int, t: int|
                            p <= p2 < HEIGHT_PARTITION_NUM && 0 <= t <= a.height - ph
                                implies !#[trigger] strip_hit(a, b, ph, p2, t) by {
                            if p2 == p {
                                assert(!strip_hit(a, b, ph, p, t));
                            }
                        }
                        assert(no_hit_from(a, b, ph, p));
                    },
                }
            },
        }
    }
}

/// The alignment result is the first threshold crossing of the whole
/// search: strips of the later view top to bottom (the matched strip is
/// `other_offset / strip_height`), scan positions of the earlier view
/// bottom to top. `None` means the strip height is zero or no strip
/// matches anywhere.
pub proof fn lemma_detect_first_crossing(a: ViewModel, b: ViewModel)
    ensures
        (match detect_spec(a, b) {
            Some(m) => {
                let ph = b.height / (HEIGHT_PARTITION_NUM as int);
                first_hit_at(a, b, ph, 0, m.1 / ph, m.0)
            },
            None => {
                let ph = b.height / (HEIGHT_PARTITION_NUM as int);
                ph < 1 || no_hit_from(a, b, ph, 0)
            },
        }),
{
    let ph = b.height / (HEIGHT_PARTITION_NUM as int);
    if ph >= 1 {
        lemma_detect_from_first(a, b, ph, 0);
    }
}

/// Alignment depends on the two views alone: any two results that the
/// alignment contract admits for the same pair of views are equal. Running
/// the detection twice on identical inputs therefore yields identical
/// offsets.
pub proof fn lemma_alignment_idempotent(a: ViewModel, b: ViewModel, m1: MatchedPoint, m2: MatchedPoint)
    requires
        detect_spec(a, b) == Some((m1.0 as int, m1.1 as int)),
        detect_spec(a, b) == Some((m2.0 as int, m2.1 as int)),
    ensures
        m1 == m2,
{
}

/// A window is not constant: it holds two different sample bytes.
pub open spec fn non_constant(s: Seq<u8>) -> bool {
    exists|i: int, j: int| 0 <= i < j < s.len() && s[i] != s[j]
}

/// Two identical views align whenever the later view's first strip is not
/// constant: a non-constant window correlates perfectly with itself
/// (`num == den > 0` and `400·den² > 361·den²`), so the very first strip
/// matches somewhere and the scan cannot exhaust. Which offsets come out
/// depends on the content (see `detect_match_area`). Constant content has
/// zero centered energy, never crosses the threshold, and fails with the
/// typed alignment error instead.
pub proof fn lemma_identical_views_resolve(a: ViewModel)
    requires
        a.height >= HEIGHT_PARTITION_NUM,
        non_constant(window_bytes(a, 0, a.height / (HEIGHT_PARTITION_NUM as int))),
    ensures
        detect_spec(a, a) is Some,
{
    let ph = a.height / (HEIGHT_PARTITION_NUM as int);
    assert(ph >= 1);
    assert(a.height - ph >= 0);
    let w = window_bytes(a, 0, ph);
    lemma_sum_products_self(w);
    lemma_corr_den_pos(w);
    let d = corr_den(w);
    assert(corr_num(w, w) == d);
    assert(400 * d * d > 361 * (d * d)) by (nonlinear_arith)
        requires d > 0;
    assert(corr_exceeds_threshold(w, w));
    assert(window_match(a, a, 0, 0, ph));
    lemma_scan_down_first(a, a, 0, ph, a.height - ph);
    match scan_down(a, a, 0, ph, a.height - ph) {
        Some(sp) => {
            assert(detect_from(a, a, ph, 0) == Some((sp, 0 * ph)));
        },
        None => {
            assert(!window_match(a, a, 0, 0, ph));
            assert(false);
        },
    }
}

/// The merge of an earlier view with a later view: rows `[0, s)` of the
/// earlier view followed by rows `[o, height)` of the later view, where
/// `(s, o)` is the alignment result. `None` when the views have different
/// widths or alignment fails.
pub open spec fn merge_model(a: ViewModel, b: ViewModel) -> Option<ViewModel> {
    if a.width != b.width {
        None
    } else {
        match detect_spec(a, b) {
            None => None,
            Some((s, o)) => Some(ViewModel {
                width: a.width,
                height: s + (b.height - o),
                data: a.data.subrange(0, s * a.width * 3)
                    + b.data.subrange(o * b.width * 3, b.height * b.width * 3),
                win_x: a.win_x,
                win_w: a.win_w,
            }),
        }
    }
}

/// A merged view is no larger than its two inputs together.
pub proof fn lemma_merge_size(a: ViewModel, b: ViewModel)
    requires
        a.wf(),
        b.wf(),
        merge_model(a, b) is Some,
    ensures
        ({
            let m = merge_model(a, b)->Some_0;
            &&& m.wf()
            &&& m.width == a.width
            &&& 0 <= m.height <= a.height + b.height
            &&& m.data.len() <= a.data.len() + b.data.len()
            &&& m.data.len() == m.width * m.height * 3
        }),
{
    let m = merge_model(a, b)->Some_0;
    let (s, o) = detect_spec(a, b)->Some_0;
    lemma_detect_bounds(a, b);
    let w = a.width;
    assert(0 <= s * w * 3 <= a.height * w * 3) by (nonlinear_arith)
        requires 0 <= s <= a.height && 0 <= w;
    assert(0 <= o * w * 3 <= b.height * w * 3) by (nonlinear_arith)
        requires 0 <= o <= b.height && 0 <= w;
    assert(a.data.len() == a.height * w * 3) by (nonlinear_arith)
        requires a.data.len() == w * a.height * 3;
    assert(b.data.len() == b.height * w * 3) by (nonlinear_arith)
        requires b.data.len() == w * b.height * 3;
    assert(m.data.len() == s * w * 3 + (b.height * w * 3 - o * w * 3));
    assert(m.data.len() == w * (s + (b.height - o)) * 3) by (nonlinear_arith)
        requires m.data.len() == s * w * 3 + (b.height * w * 3 - o * w * 3);
    assert(s * w * 3 + (b.height * w * 3 - o * w * 3) <= a.height * w * 3 + b.height * w * 3)
        by (nonlinear_arith)
        requires 0 <= s * w * 3 <= a.height * w * 3 && 0 <= o * w * 3;
}

impl FactorListPartialImage {
    /// Merges `other` below `self`: aligns the two views, keeps the rows of
    /// `self` above the matched position and the rows of `other` from the
    /// matched strip downward, and concatenates them vertically. The
    /// overlapping duplicate content is discarded exactly once.
    pub fn get_merged_below(&self, other: &FactorListPartialImage) -> (res: Result<ColorImage, Error>)
        requires
            self.wf(),
            other.wf(),
            self.image.width == other.image.width,
            self.image.data@.len() + other.image.data@.len() <= MAX_PIXEL_BYTES,
            self.image.height + other.image.height <= MAX_IMAGE_DIM,
        ensures
            (match res {
                Ok(img) => {
                    &&& merge_model(self.view_model(), other.view_model())
                        == Some(ViewModel {
                            width: img.width as int,
                            height: img.height as int,
                            data: img.data@,
                            win_x: self.factor_list_area.x as int,
                            win_w: self.factor_list_area.width as int,
                        })
                    &&& img.wf()
                    &&& img.width == self.image.width
                },
                Err(e) => {
                    &&& (e matches Error::ImageNotMatched { stage }
                        && stage == (FailedStage::Alignment { later_frame: 1 }))
                    &&& merge_model(self.view_model(), other.view_model()) is None
                },
            }),
    {
        let ghost am = self.view_model();
        let ghost bm = other.view_model();
        match self.detect_match_area(other) {
            Err(e) => Err(e),
            Ok(m) => {
                proof {
                    lemma_detect_bounds(am, bm);
                    let w = am.width;
                    let s = m.0 as int;
                    let o = m.1 as int;
                    assert(0 <= s * w * 3 <= am.height * w * 3) by (nonlinear_arith)
                        requires 0 <= s <= am.height && 0 <= w;
                    assert(0 <= o * w * 3 <= bm.height * w * 3) by (nonlinear_arith)
                        requires 0 <= o <= bm.height && 0 <= w;
                    assert(am.data.len() == am.height * w * 3) by (nonlinear_arith)
                        requires am.data.len() == w * am.height * 3;
                    assert(bm.data.len() == bm.height * w * 3) by (nonlinear_arith)
                        requires bm.data.len() == w * bm.height * 3;
                }
                let top = self.image.vertical_crop_image(CropY(0), CropHeight(m.0));
                let tail_rows: i32 = other.image.height as i32 - m.1;
                let tail = other.image.vertical_crop_image(CropY(m.1), CropHeight(tail_rows));
                proof {
                    let w = am.width;
                    let s = m.0 as int;
                    let o = m.1 as int;
                    assert(top.data@.len() == s * w * 3 - 0 * w * 3);
                    assert(tail.data@.len() == bm.height * w * 3 - o * w * 3);
                }
                let merged = top.get_merged_below(&tail);
                proof {
                    let w = am.width;
                    let s = m.0 as int;
                    let o = m.1 as int;
                    assert(0 * self.image.width * 3 == 0);
                    assert(merged.data@ == am.data.subrange(0, s * w * 3)
                        + bm.data.subrange(o * w * 3, bm.height * w * 3));
                    assert(merged.height as int == s + (bm.height - o));
                }
                Ok(merged)
            },
        }
    }

    /// The matching-window region of interest: the view restricted to the
    /// window's columns, over the full height.
    pub fn get_list_area_roi(&self) -> (roi: ColorImage)
        requires
            self.wf(),
        ensures
            roi.wf(),
            roi.width == self.factor_list_area.width,
            roi.height == self.image.height,
            forall|x: int, y: int, c: int|
                0 <= x < roi.width && 0 <= y < roi.height && 0 <= c < 3
                    ==> roi.pixel(x, y, c)
                        == self.image.pixel(self.factor_list_area.x + x, y, c),
    {
        self.image.horizontal_crop_image(
            crate::geometry::CropX(self.factor_list_area.x),
            crate::geometry::CropWidth(self.factor_list_area.width),
        )
    }

    /// Replaces `self` with the merge of `self` and `other` (see
    /// `get_merged_below`); the matching window keeps its columns and grows
    /// to the merged height. On failure `self` is unchanged.
    pub fn merge_below(&mut self, other: &FactorListPartialImage) -> (res: Result<(), Error>)
        requires
            old(self).wf(),
            other.wf(),
            old(self).image.width == other.image.width,
            old(self).image.data@.len() + other.image.data@.len() <= MAX_PIXEL_BYTES,
            old(self).image.height + other.image.height <= MAX_IMAGE_DIM,
        ensures
            (match res {
                Ok(()) => {
                    &&& final(self).wf()
                    &&& merge_model(old(self).view_model(), other.view_model())
                        == Some(final(self).view_model())
                    &&& final(self).image.width == old(self).image.width
                    &&& final(self).factor_list_area.x == old(self).factor_list_area.x
                    &&& final(self).factor_list_area.width == old(self).factor_list_area.width
                },
                Err(e) => {
                    &&& *final(self) == *old(self)
                    &&& (e matches Error::ImageNotMatched { stage }
                        && stage == (FailedStage::Alignment { later_frame: 1 }))
                    &&& merge_model(old(self).view_model(), other.view_model()) is None
                },
            }),
    {
        let ghost am = self.view_model();
        let ghost bm = other.view_model();
        match self.get_merged_below(other) {
            Err(e) => Err(e),
            Ok(img) => {
                proof {
                    lemma_merge_size(am, bm);
                }
                self.factor_list_area = Rect::new(
                    self.factor_list_area.x,
                    0,
                    self.factor_list_area.width,
                    img.height as i32,
                );
                self.image = img;
                Ok(())
            },
        }
    }
}

/// The view models of a sequence of partial images.
pub open spec fn models(s: Seq<FactorListPartialImage>) -> Seq<ViewModel> {
    s.map_values(|v: FactorListPartialImage| v.view_model())
}

/// Left fold of pairwise merging over a sequence of views, in sequence
/// order: the first view, then each later view merged below the running
/// column. `None` on an empty sequence or when any merge fails.
pub open spec fn fold_model(ms: Seq<ViewModel>) -> Option<ViewModel>
    decreases ms.len(),
{
    if ms.len() == 0 {
        None
    } else if ms.len() == 1 {
        Some(ms[0])
    } else {
        match fold_model(ms.drop_last()) {
            None => None,
            Some(acc) => merge_model(acc, ms.last()),
        }
    }
}

/// Total byte count of the pixel storage of a sequence of partial images.
pub open spec fn total_bytes(s: Seq<FactorListPartialImage>) -> int
    decreases s.len(),
{
    if s.len() == 0 {
        0
    } else {
        total_bytes(s.drop_last()) + s.last().image.data@.len()
    }
}

/// Total row count of a sequence of partial images.
pub open spec fn total_rows(s: Seq<FactorListPartialImage>) -> int
    decreases s.len(),
{
    if s.len() == 0 {
        0
    } else {
        total_rows(s.drop_last()) + s.last().image.height
    }
}

proof fn lemma_take_snoc<A>(s: Seq<A>, k: int)
    requires
        0 <= k < s.len(),
    ensures
        s.take(k + 1).drop_last() == s.take(k),
        s.take(k + 1).last() == s[k],
        s.take(k + 1).len() == k + 1,
{
    assert(s.take(k + 1).drop_last() =~= s.take(k));
}

pub proof fn lemma_total_take_snoc(s: Seq<FactorListPartialImage>, k: int)
    requires
        0 <= k < s.len(),
    ensures
        total_bytes(s.take(k + 1)) == total_bytes(s.take(k)) + s[k].image.data@.len(),
        total_rows(s.take(k + 1)) == total_rows(s.take(k)) + s[k].image.height,
{
    lemma_take_snoc(s, k);
}

pub proof fn lemma_total_nonneg(s: Seq<FactorListPartialImage>)
    ensures
        total_bytes(s) >= 0,
        total_rows(s) >= 0,
    decreases s.len(),
{
    if s.len() > 0 {
        lemma_total_nonneg(s.drop_last());
    }
}

pub proof fn lemma_total_prefix(s: Seq<FactorListPartialImage>, k: int)
    requires
        0 <= k <= s.len(),
    ensures
        total_bytes(s.take(k)) <= total_bytes(s),
        total_rows(s.take(k)) <= total_rows(s),
    decreases s.len() - k,
{
    if k == s.len() {
        assert(s.take(k) =~= s);
    } else {
        lemma_total_take_snoc(s, k);
        lemma_total_prefix(s, k + 1);
    }
}

proof fn lemma_fold_take_snoc(ms: Seq<ViewModel>, k: int)
    requires
        1 <= k < ms.len(),
    ensures
        fold_model(ms.take(k + 1)) == (match fold_model(ms.take(k)) {
            None => None,
            Some(acc) => merge_model(acc, ms[k]),
        }),
{
    lemma_take_snoc(ms, k);
}

proof fn lemma_fold_none_stays(ms: Seq<ViewModel>, k: int)
    requires
        1 <= k <= ms.len(),
        fold_model(ms.take(k)) is None,
    ensures
        fold_model(ms) is None,
    decreases ms.len() - k,
{
    if k == ms.len() {
        assert(ms.take(k) =~= ms);
    } else {
        lemma_fold_take_snoc(ms, k);
        lemma_fold_none_stays(ms, k + 1);
    }
}

/// The scrolling column assembled from every frame's scrollable region.
#[derive(Debug)]
pub struct FactorListImage {
    pub images: Vec<FactorListPartialImage>,
}

impl FactorListImage {
    pub open spec fn wf(self) -> bool {
        &&& self.images@.len() >= 1
        &&& forall|i: int| 0 <= i < self.images@.len() ==> (#[trigger] self.images@[i]).wf()
        &&& forall|i: int| 0 <= i < self.images@.len()
                ==> (#[trigger] self.images@[i]).image.width == self.images@[0].image.width
    }

    /// Appends one more partial view to the end of the sequence.
    pub fn push(&mut self, image: FactorListPartialImage)
        ensures
            final(self).images@ == old(self).images@.push(image),
    {
        self.images.push(image);
    }

    /// Folds all partial views left to right into one merged column: the
    /// first view, then each later view merged below the running result.
    /// The fold order is significant; merging is not commutative.
    ///
    /// Fails with `Error::ImageNotMatched` as soon as one adjacent pair
    /// cannot be aligned; the stage names the later frame of that pair, the
    /// first index whose view cannot be merged below the column folded so
    /// far.
    pub fn merged_image(&self) -> (res: Result<ColorImage, Error>)
        requires
            self.wf(),
            total_bytes(self.images@) <= MAX_PIXEL_BYTES,
            total_rows(self.images@) <= MAX_IMAGE_DIM,
        ensures
            (match res {
                Ok(img) => {
                    &&& fold_model(models(self.images@))
                        == Some(ViewModel {
                            width: img.width as int,
                            height: img.height as int,
                            data: img.data@,
                            win_x: self.images@[0].factor_list_area.x as int,
                            win_w: self.images@[0].factor_list_area.width as int,
                        })
                    &&& img.wf()
                    &&& img.width == self.images@[0].image.width
                    &&& img.data@.len() <= total_bytes(self.images@)
                    &&& img.height <= total_rows(self.images@)
                },
                Err(e) => {
                    &&& (e matches Error::ImageNotMatched { stage }
                        && stage matches FailedStage::Alignment { later_frame }
                        && 1 <= later_frame < self.images@.len()
                        && fold_model(models(self.images@).take(later_frame as int)) is Some
                        && fold_model(models(self.images@).take(later_frame as int + 1)) is None)
                    &&& fold_model(models(self.images@)) is None
                },
            }),
    {
        let ghost ms = models(self.images@);
        let n = self.images.len();
        let first = &self.images[0];
        let mut acc = FactorListPartialImage {
            image: first.image.duplicate(),
            factor_list_area: first.factor_list_area,
        };
        proof {
            assert(acc.view_model() == ms[0]);
            assert(ms.take(1) =~= seq![ms[0]]);
            lemma_total_take_snoc(self.images@, 0);
            assert(self.images@.take(0) =~= Seq::<FactorListPartialImage>::empty());
            lemma_total_nonneg(self.images@.take(0));
        }
        let mut i: usize = 1;
        while i < n
            invariant
                self.wf(),
                n == self.images@.len(),
                ms == models(self.images@),
                1 <= i <= n,
                acc.wf(),
                acc.image.width == self.images@[0].image.width,
                acc.factor_list_area.x == self.images@[0].factor_list_area.x,
                acc.factor_list_area.width == self.images@[0].factor_list_area.width,
                fold_model(ms.take(i as int)) == Some(acc.view_model()),
                acc.image.data@.len() <= total_bytes(self.images@.take(i as int)),
                acc.image.height <= total_rows(self.images@.take(i as int)),
                total_bytes(self.images@) <= MAX_PIXEL_BYTES,
                total_rows(self.images@) <= MAX_IMAGE_DIM,
            decreases n - i,
        {
            proof {
                lemma_total_take_snoc(self.images@, i as int);
                lemma_total_prefix(self.images@, i as int + 1);
            }
            let ghost pre = acc.view_model();
            let step = acc.merge_below(&self.images[i]);
            match step {
                Err(e) => {
                    proof {
                        lemma_fold_take_snoc(ms, i as int);
                        assert(ms[i as int] == self.images@[i as int].view_model());
                        assert(fold_model(ms.take(i as int + 1)) is None);
                        lemma_fold_none_stays(ms, i as int + 1);
                    }
                    return Err(Error::ImageNotMatched {
                        stage: FailedStage::Alignment { later_frame: i },
                    });
                },
                Ok(()) => {
                    proof {
                        lemma_fold_take_snoc(ms, i as int);
                        assert(ms[i as int] == self.images@[i as int].view_model());
                        lemma_merge_size(pre, self.images@[i as int].view_model());
                    }
                },
            }
            i += 1;
        }
        proof {
            assert(ms.take(n as int) =~= ms);
            assert(self.images@.take(n as int) =~= self.images@);
        }
        Ok(acc.image)
    }
}

/// Round trip of a merge: cropping the merged column at the seam (the row
/// where the earlier view's kept content ends) reproduces, byte for byte,
/// exactly the later view's kept tail.
pub proof fn lemma_merge_round_trip(a: ViewModel, b: ViewModel)
    requires
        a.wf(),
        b.wf(),
        merge_model(a, b) is Some,
    ensures
        ({
            let m = merge_model(a, b)->Some_0;
            let (s, o) = detect_spec(a, b)->Some_0;
            m.data.subrange(s * a.width * 3, m.data.len() as int)
                == b.data.subrange(o * b.width * 3, b.height * b.width * 3)
        }),
{
    let m = merge_model(a, b)->Some_0;
    let (s, o) = detect_spec(a, b)->Some_0;
    lemma_detect_bounds(a, b);
    let w = a.width;
    assert(0 <= s * w * 3 <= a.height * w * 3) by (nonlinear_arith)
        requires 0 <= s <= a.height && 0 <= w;
    assert(a.data.len() == a.height * w * 3) by (nonlinear_arith)
        requires a.data.len() == w * a.height * 3;
    let topseq = a.data.subrange(0, s * w * 3);
    let tailseq = b.data.subrange(o * b.width * 3, b.height * b.width * 3);
    assert(m.data == topseq + tailseq);
    assert(m.data.subrange(topseq.len() as int, m.data.len() as int) =~= tailseq);
}

/// Folding three views left to right equals merging the first two and then
/// merging the third below the result. Together with the non-commutativity
/// of `merge_model`, this pins the fold order.
pub proof fn lemma_fold_left_order(a: ViewModel, b: ViewModel, c: ViewModel)
    ensures
        fold_model(seq![a, b, c]) == (match merge_model(a, b) {
            None => None,
            Some(ab) => merge_model(ab, c),
        }),
{
    let s = seq![a, b, c];
    assert(s.drop_last() =~= seq![a, b]);
    assert(seq![a, b].drop_last() =~= seq![a]);
    assert(fold_model(seq![a]) == Some(a));
    assert(fold_model(seq![a, b]) == merge_model(a, b));
}

} // verus!
