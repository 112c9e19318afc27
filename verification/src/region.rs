//! Physical-pixel geometry on the virtual desktop.

use vstd::prelude::*;

verus! {

/// The smaller of two integers.
pub open spec fn min_int(a: int, b: int) -> int {
    if a <= b { a } else { b }
}

/// The larger of two integers.
pub open spec fn max_int(a: int, b: int) -> int {
    if a >= b { a } else { b }
}

/// `v` held inside `[lo, hi]`; `lo <= hi` is expected.
pub open spec fn clamp_int(v: int, lo: int, hi: int) -> int {
    if v < lo { lo } else if v > hi { hi } else { v }
}

/// `a - b` held inside the range of `i32`.
pub open spec fn saturating_diff_i32(a: int, b: int) -> int {
    clamp_int(a - b, i32::MIN as int, i32::MAX as int)
}

/// The `i32` with the same 32 bits as the `u32` value `v`, as `v as i32`
/// reads it.
pub open spec fn as_i32(v: int) -> int {
    if v <= i32::MAX { v } else { v - 0x1_0000_0000 }
}

/// `v as i32` for a `u32`.
pub fn to_i32(v: u32) -> (r: i32)
    ensures
        r == as_i32(v as int),
{
    let r = #[verifier::truncate] (v as i32);
    assert(r == if v <= 0x7fff_ffff { v as int } else { v - 0x1_0000_0000 }) by (bit_vector)
        requires
            r == #[verifier::truncate] (v as i32),
    ;
    r
}

/// The `u32` with the same 32 bits as the `i32` value `v`.
pub open spec fn i32_bits_as_u32(v: int) -> int {
    if v >= 0 { v } else { v + 0x1_0000_0000 }
}

/// A point in physical desktop pixels.
#[derive(Clone, Copy, Debug, Default, PartialEq, Eq)]
pub struct PixelPoint {
    pub x: i32,
    pub y: i32,
}

/// A rectangle in physical desktop pixels: `left` and `top` are inside it,
/// `right` and `bottom` are just outside it.
#[derive(Clone, Copy, Debug, Default, PartialEq, Eq)]
pub struct PixelRect {
    pub left: i32,
    pub top: i32,
    pub right: i32,
    pub bottom: i32,
}

fn min_i32(a: i32, b: i32) -> (r: i32)
    ensures
        r == min_int(a as int, b as int),
{
    if a <= b { a } else { b }
}

fn max_i32(a: i32, b: i32) -> (r: i32)
    ensures
        r == max_int(a as int, b as int),
{
    if a >= b { a } else { b }
}

/// `Ord::clamp` on `i32`, which panics when `lo > hi`.
fn clamp_i32(v: i32, lo: i32, hi: i32) -> (r: i32)
    requires
        lo <= hi,
    ensures
        r == clamp_int(v as int, lo as int, hi as int),
{
    if v < lo { lo } else if v > hi { hi } else { v }
}

/// `a.saturating_sub(b) as u32`: the difference held in `i32`, then
/// reinterpreted as unsigned.
fn saturating_span(a: i32, b: i32) -> (r: u32)
    ensures
        r == i32_bits_as_u32(saturating_diff_i32(a as int, b as int)),
{
    let wide: i64 = a as i64 - b as i64;
    let d: i64 = if wide < i32::MIN as i64 {
        i32::MIN as i64
    } else if wide > i32::MAX as i64 {
        i32::MAX as i64
    } else {
        wide
    };
    if d >= 0 {
        d as u32
    } else {
        (d + 0x1_0000_0000i64) as u32
    }
}

impl PixelRect {
    /// The rectangle is normalized: its left edge is not right of its right
    /// edge and its top edge is not below its bottom edge.
    pub open spec fn is_ordered(self) -> bool {
        self.left <= self.right && self.top <= self.bottom
    }

    /// The width as `width()` computes it.
    pub open spec fn spec_width(self) -> int {
        i32_bits_as_u32(saturating_diff_i32(self.right as int, self.left as int))
    }

    /// The height as `height()` computes it.
    pub open spec fn spec_height(self) -> int {
        i32_bits_as_u32(saturating_diff_i32(self.bottom as int, self.top as int))
    }

    /// The rectangle covers no pixel.
    pub open spec fn spec_is_empty(self) -> bool {
        self.right <= self.left || self.bottom <= self.top
    }

    /// The pixel `(x, y)` lies inside the rectangle.
    pub open spec fn contains(self, x: int, y: int) -> bool {
        self.left <= x < self.right && self.top <= y < self.bottom
    }

    /// The rectangle spanned by two corner points, in either order.
    pub fn from_points(a: PixelPoint, b: PixelPoint) -> (r: Self)
        ensures
            r.left == min_int(a.x as int, b.x as int),
            r.top == min_int(a.y as int, b.y as int),
            r.right == max_int(a.x as int, b.x as int),
            r.bottom == max_int(a.y as int, b.y as int),
            r.is_ordered(),
    {
        PixelRect {
            left: min_i32(a.x, b.x),
            top: min_i32(a.y, b.y),
            right: max_i32(a.x, b.x),
            bottom: max_i32(a.y, b.y),
        }
    }

    /// `right - left`, saturated to `i32` and read as `u32`. For a normalized
    /// rectangle narrower than `2^31` pixels this is the number of columns.
    pub fn width(self) -> (w: u32)
        ensures
            w == self.spec_width(),
            0 <= self.right - self.left <= i32::MAX ==> w == self.right - self.left,
    {
        saturating_span(self.right, self.left)
    }

    /// `bottom - top`, saturated to `i32` and read as `u32`. For a normalized
    /// rectangle lower than `2^31` pixels this is the number of rows.
    pub fn height(self) -> (h: u32)
        ensures
            h == self.spec_height(),
            0 <= self.bottom - self.top <= i32::MAX ==> h == self.bottom - self.top,
    {
        saturating_span(self.bottom, self.top)
    }

    /// Whether the rectangle covers no pixel.
    pub fn is_empty(self) -> (e: bool)
        ensures
            e == self.spec_is_empty(),
            e <==> !(exists|x: int, y: int| self.contains(x, y)),
    {
        let e = self.right <= self.left || self.bottom <= self.top;
        if !e {
            assert(self.contains(self.left as int, self.top as int));
        }
        e
    }

    /// `self` with every edge moved inside `bounds`.
    pub open spec fn clamp_to_spec(self, bounds: Self) -> Self {
        PixelRect {
            left: clamp_int(self.left as int, bounds.left as int, bounds.right as int) as i32,
            top: clamp_int(self.top as int, bounds.top as int, bounds.bottom as int) as i32,
            right: clamp_int(self.right as int, bounds.left as int, bounds.right as int) as i32,
            bottom: clamp_int(self.bottom as int, bounds.top as int, bounds.bottom as int) as i32,
        }
    }

    /// Every edge moved inside `bounds`. `bounds` must be normalized, as
    /// `Ord::clamp` panics otherwise.
    pub fn clamp_to(self, bounds: Self) -> (r: Self)
        requires
            bounds.is_ordered(),
        ensures
            r.left == clamp_int(self.left as int, bounds.left as int, bounds.right as int),
            r.top == clamp_int(self.top as int, bounds.top as int, bounds.bottom as int),
            r.right == clamp_int(self.right as int, bounds.left as int, bounds.right as int),
            r.bottom == clamp_int(self.bottom as int, bounds.top as int, bounds.bottom as int),
            r == self.clamp_to_spec(bounds),
    {
        PixelRect {
            left: clamp_i32(self.left, bounds.left, bounds.right),
            top: clamp_i32(self.top, bounds.top, bounds.bottom),
            right: clamp_i32(self.right, bounds.left, bounds.right),
            bottom: clamp_i32(self.bottom, bounds.top, bounds.bottom),
        }
    }
}

} // verus!
