//! The annotation model and how a document of annotations is drawn onto a
//! captured frame.

use vstd::prelude::*;
use crate::canvas::{
    BLUE, Canvas, RED, WHITE, YELLOW, area_sum, block_average, block_start, grid_ok, in_glyph_cell, lemma_decompose, lemma_disc_bounds, lemma_tdiv_between, in_line_disc, line_steps, tdiv, edge, lemma_block, glyph_set, glyphs_fit, line_fits, line_set, marker_fits, marker_paint, opaque,
    painted, pixelated, rect_set, tri_fits, tri_set,
};
use crate::frame::{BgraFrame, copy_bytes};
use vstd::utf8::encode_utf8;
use crate::region::{as_i32, max_int, min_int, to_i32};

verus! {

/// The drawing tools of the annotation workspace.
#[derive(Clone, Copy, Debug, PartialEq, Eq)]
pub enum AnnotationTool {
    Arrow,
    Rectangle,
    Highlight,
    Text,
    Redact,
    Marker,
}

/// A position on a captured image, in image pixels.
#[derive(Clone, Copy, Debug, Default, PartialEq, Eq)]
pub struct AnnotationPoint {
    pub x: i32,
    pub y: i32,
}

impl AnnotationPoint {
    /// The point `(x, y)`.
    pub fn new(x: i32, y: i32) -> (p: Self)
        ensures
            p.x == x,
            p.y == y,
    {
        AnnotationPoint { x, y }
    }
}

/// One annotation of a document.
#[derive(Clone, Debug, PartialEq)]
pub enum AnnotationItem {
    Arrow { start: AnnotationPoint, end: AnnotationPoint, thickness: u32 },
    Rectangle { start: AnnotationPoint, end: AnnotationPoint, thickness: u32 },
    Highlight { start: AnnotationPoint, end: AnnotationPoint },
    Text { position: AnnotationPoint, text: String, size: u32 },
    Redact { start: AnnotationPoint, end: AnnotationPoint, block_size: u32 },
    Marker { center: AnnotationPoint, number: u32 },
}

/// The two base corners of an arrow's head; the tip is the arrow's end.
#[derive(Clone, Copy, Debug, PartialEq, Eq)]
pub struct ArrowHead {
    pub left: AnnotationPoint,
    pub right: AnnotationPoint,
}

/// The decimal digits of `n`, as ASCII bytes.
pub open spec fn decimal(n: nat) -> Seq<u8>
    decreases n,
{
    if n < 10 {
        seq![(48 + n) as u8]
    } else {
        decimal(n / 10).push((48 + n % 10) as u8)
    }
}

/// `10^k`.
pub open spec fn ten_pow(k: nat) -> nat
    decreases k,
{
    if k == 0 { 1 } else { 10 * ten_pow((k - 1) as nat) }
}

/// A number below `10^k` has at most `k` digits.
pub proof fn lemma_decimal_len(n: nat, k: nat)
    requires
        1 <= k,
        n < ten_pow(k),
    ensures
        1 <= decimal(n).len() <= k,
    decreases k,
{
    if n >= 10 {
        assert(k >= 2) by {
            if k == 1 {
                assert(ten_pow(1) == 10) by {
                    reveal_with_fuel(ten_pow, 2);
                }
            }
        }
        assert(n / 10 < ten_pow((k - 1) as nat));
        lemma_decimal_len(n / 10, (k - 1) as nat);
    }
}

/// A `u32` has at most ten decimal digits.
pub proof fn lemma_u32_digits(n: u32)
    ensures
        1 <= decimal(n as nat).len() <= 10,
{
    assert(ten_pow(10) == 10_000_000_000) by {
        reveal_with_fuel(ten_pow, 11);
    }
    lemma_decimal_len(n as nat, 10);
}

/// The decimal digits of `n`, as ASCII bytes.
pub fn decimal_digits(n: u32) -> (digits: Vec<u8>)
    ensures
        digits@ == decimal(n as nat),
    decreases n,
{
    if n < 10 {
        let mut v: Vec<u8> = Vec::new();
        v.push(48u8 + n as u8);
        assert(v@ =~= decimal(n as nat));
        v
    } else {
        let mut v = decimal_digits(n / 10);
        v.push(48u8 + (n % 10) as u8);
        v
    }
}

/// The corners `a` and `b` as `(left, top, right, bottom)`.
pub open spec fn ordered_rect(a: AnnotationPoint, b: AnnotationPoint) -> (int, int, int, int) {
    (
        min_int(a.x as int, b.x as int),
        min_int(a.y as int, b.y as int),
        max_int(a.x as int, b.x as int),
        max_int(a.y as int, b.y as int),
    )
}

fn ordered_rect_exec(a: AnnotationPoint, b: AnnotationPoint) -> (r: (i32, i32, i32, i32))
    ensures
        (r.0 as int, r.1 as int, r.2 as int, r.3 as int) == ordered_rect(a, b),
{
    (
        if a.x <= b.x { a.x } else { b.x },
        if a.y <= b.y { a.y } else { b.y },
        if a.x >= b.x { a.x } else { b.x },
        if a.y >= b.y { a.y } else { b.y },
    )
}

/// `v`, but at least `lo`.
pub open spec fn at_least(v: int, lo: int) -> int {
    if v >= lo { v } else { lo }
}


/// The drawing of the item, with the given head for an arrow, stays within
/// `i32` arithmetic: the thickness read as `i32` (a thickness of `2^31`
/// and more wraps around, and an arrow whose thickness wraps to a negative
/// number draws no shaft), coordinates that stay within `i32`, and a line
/// or disc radius of at most 32767.
pub open spec fn item_fits(item: AnnotationItem, head: Option<ArrowHead>) -> bool {
    match item {
        AnnotationItem::Arrow { start, end, thickness } => {
            let t = as_i32(at_least(thickness as int, 2));
            &&& t != i32::MIN
            &&& t >= 1 ==> line_fits(start.x as int, start.y as int, end.x as int, end.y as int, (t - 1) / 2)
            &&& match head {
                Some(hd) => tri_fits(
                    end.x as int,
                    end.y as int,
                    hd.left.x as int,
                    hd.left.y as int,
                    hd.right.x as int,
                    hd.right.y as int,
                ),
                None => true,
            }
        },
        AnnotationItem::Rectangle { start, end, thickness } => {
            let (l, t, r, b) = ordered_rect(start, end);
            let th = as_i32(at_least(thickness as int, 1));
            &&& r + 1 <= i32::MAX
            &&& b + 1 <= i32::MAX
            &&& i32::MIN <= t + th <= i32::MAX
            &&& i32::MIN <= l + th <= i32::MAX
            &&& i32::MIN <= b - th && b - th + 1 <= i32::MAX
            &&& i32::MIN <= r - th && r - th + 1 <= i32::MAX
        },
        AnnotationItem::Highlight { start, end } => {
            let (l, t, r, b) = ordered_rect(start, end);
            r + 1 <= i32::MAX && b + 1 <= i32::MAX
        },
        AnnotationItem::Text { position, text, size } => {
            let scale = at_least(at_least(size as int, 8) / 8, 1);
            glyphs_fit(position.x as int, position.y as int, encode_utf8(text@).len() as int, scale)
        },
        AnnotationItem::Redact { start, end, block_size } => {
            let (l, t, r, b) = ordered_rect(start, end);
            r + 1 <= i32::MAX && b + 1 <= i32::MAX
        },
        AnnotationItem::Marker { center, number } => marker_fits(center.x as int, center.y as int),
    }
}

/// The bytes of a `w` by `h` canvas after `item` has been drawn on `s`.
pub open spec fn draw_spec(s: Seq<u8>, w: int, h: int, stride: int, item: AnnotationItem, head: Option<ArrowHead>) -> Seq<u8> {
    match item {
        AnnotationItem::Arrow { start, end, thickness } => {
            let t = as_i32(at_least(thickness as int, 2));
            let shaft = if t >= 1 {
                painted(
                    s,
                    w,
                    h,
                    stride,
                    line_set(start.x as int, start.y as int, end.x as int, end.y as int, (t - 1) / 2),
                    RED,
                    255,
                )
            } else {
                s
            };
            match head {
                Some(hd) => painted(
                    shaft,
                    w,
                    h,
                    stride,
                    tri_set(
                        end.x as int,
                        end.y as int,
                        hd.left.x as int,
                        hd.left.y as int,
                        hd.right.x as int,
                        hd.right.y as int,
                    ),
                    RED,
                    255,
                ),
                None => shaft,
            }
        },
        AnnotationItem::Rectangle { start, end, thickness } => {
            let (l, t, r, b) = ordered_rect(start, end);
            let th = as_i32(at_least(thickness as int, 1));
            let top_edge = painted(s, w, h, stride, rect_set(l, t, r + 1, t + th), RED, 255);
            let bottom_edge = painted(top_edge, w, h, stride, rect_set(l, b - th + 1, r + 1, b + 1), RED, 255);
            let left_edge = painted(bottom_edge, w, h, stride, rect_set(l, t, l + th, b + 1), RED, 255);
            painted(left_edge, w, h, stride, rect_set(r - th + 1, t, r + 1, b + 1), RED, 255)
        },
        AnnotationItem::Highlight { start, end } => {
            let (l, t, r, b) = ordered_rect(start, end);
            painted(s, w, h, stride, rect_set(l, t, r + 1, b + 1), YELLOW, 96)
        },
        AnnotationItem::Text { position, text, size } => {
            let scale = at_least(at_least(size as int, 8) / 8, 1);
            painted(s, w, h, stride, glyph_set(position.x as int, position.y as int, encode_utf8(text@), scale), WHITE, 255)
        },
        AnnotationItem::Redact { start, end, block_size } => {
            let (l, t, r, b) = ordered_rect(start, end);
            pixelated(
                s,
                w,
                h,
                stride,
                at_least(l, 0),
                at_least(t, 0),
                at_least(min_int(r + 1, w), 0),
                at_least(min_int(b + 1, h), 0),
                at_least(block_size as int, 3),
            )
        },
        AnnotationItem::Marker { center, number } => marker_paint(
            s,
            w,
            h,
            stride,
            center.x as int,
            center.y as int,
            decimal(number as nat),
        ),
    }
}

/// A rectangle is outlined on all four sides. With `(l, t, r, b)` the
/// rectangle spanned by its corners and `th` its thickness read as `i32`
/// (at least 1): every canvas pixel of the band of `th` rows along its top
/// and along its bottom (across its width), and of the band of `th` columns
/// along its left and along its right side (across its height), is painted
/// opaque red, and every other byte keeps its value.
pub proof fn lemma_rectangle_outline(
    s: Seq<u8>,
    w: int,
    h: int,
    stride: int,
    start: AnnotationPoint,
    end: AnnotationPoint,
    thickness: u32,
    head: Option<ArrowHead>,
    x: int,
    y: int,
    c: int,
)
    requires
        grid_ok(w, h, stride),
        stride * h <= s.len(),
        0 <= x < w,
        0 <= y < h,
        0 <= c < 4,
    ensures
        ({
            let l = min_int(start.x as int, end.x as int);
            let t = min_int(start.y as int, end.y as int);
            let r = max_int(start.x as int, end.x as int);
            let b = max_int(start.y as int, end.y as int);
            let th = as_i32(if thickness >= 1 { thickness as int } else { 1 });
            let v = draw_spec(s, w, h, stride, AnnotationItem::Rectangle { start, end, thickness }, head)[y
                * stride + 4 * x + c];
            let on_outline = (l <= x <= r && t <= y < t + th) || (l <= x <= r && b - th < y <= b) || (l
                <= x < l + th && t <= y <= b) || (r - th < x <= r && t <= y <= b);
            &&& on_outline ==> v == RED@[c]
            &&& !on_outline ==> v == s[y * stride + 4 * x + c]
        }),
{
    lemma_decompose(w, h, stride, x, y, c);
    let l = min_int(start.x as int, end.x as int);
    let t = min_int(start.y as int, end.y as int);
    let r = max_int(start.x as int, end.x as int);
    let b = max_int(start.y as int, end.y as int);
    let th = as_i32(if thickness >= 1 { thickness as int } else { 1 });
    let i = y * stride + 4 * x + c;
    let s1 = painted(s, w, h, stride, rect_set(l, t, r + 1, t + th), RED, 255);
    let s2 = painted(s1, w, h, stride, rect_set(l, b - th + 1, r + 1, b + 1), RED, 255);
    let s3 = painted(s2, w, h, stride, rect_set(l, t, l + th, b + 1), RED, 255);
    let s4 = painted(s3, w, h, stride, rect_set(r - th + 1, t, r + 1, b + 1), RED, 255);
    assert(at_least(thickness as int, 1) == (if thickness >= 1 { thickness as int } else { 1 }));
    assert(draw_spec(s, w, h, stride, AnnotationItem::Rectangle { start, end, thickness }, head) == s4);
    assert(s1[i] == if rect_set(l, t, r + 1, t + th)(x, y) { RED@[c] } else { s[i] });
    assert(s2[i] == if rect_set(l, b - th + 1, r + 1, b + 1)(x, y) { RED@[c] } else { s1[i] });
    assert(s3[i] == if rect_set(l, t, l + th, b + 1)(x, y) { RED@[c] } else { s2[i] });
    assert(s4[i] == if rect_set(r - th + 1, t, r + 1, b + 1)(x, y) { RED@[c] } else { s3[i] });
}

/// The last step of a line reaches its end: `tdiv(d * steps, steps) == d`.
proof fn lemma_tdiv_whole(d: int, steps: int)
    requires
        steps >= 1,
    ensures
        tdiv(d * steps, steps) == d,
{
    if d >= 0 {
        assert(d * steps == steps * d) by (nonlinear_arith);
        vstd::arithmetic::div_mod::lemma_div_multiples_vanish(d, steps);
        assert(0 <= d * steps) by (nonlinear_arith)
            requires
                d >= 0,
                steps >= 1,
        ;
    } else {
        assert(d * steps < 0) by (nonlinear_arith)
            requires
                d < 0,
                steps >= 1,
        ;
        assert(-(d * steps) == steps * (-d)) by (nonlinear_arith);
        vstd::arithmetic::div_mod::lemma_div_multiples_vanish(-d, steps);
    }
}

/// An arrow is red and stays near its shaft and head. With `rr` half of
/// its thickness read as `i32` (at least 2) less one, rounded down: every
/// canvas pixel is either opaque red or keeps every byte; when the
/// thickness is positive, the pixels within distance `rr` of the start and
/// of the end are red; the three corners of the head (the end and the two
/// head points), where there is a head, are red; and a pixel more than `rr`
/// away, across or along, from the box spanned by start and end, and
/// outside the box spanned by the head's corners, keeps every byte.
pub proof fn lemma_arrow_shape(
    s: Seq<u8>,
    w: int,
    h: int,
    stride: int,
    start: AnnotationPoint,
    end: AnnotationPoint,
    thickness: u32,
    head: Option<ArrowHead>,
    x: int,
    y: int,
)
    requires
        grid_ok(w, h, stride),
        stride * h <= s.len(),
        0 <= x < w,
        0 <= y < h,
    ensures
        ({
            let t = as_i32(if thickness >= 2 { thickness as int } else { 2 });
            let rr = (t - 1) / 2;
            let sx = start.x as int;
            let sy = start.y as int;
            let ex = end.x as int;
            let ey = end.y as int;
            let out = draw_spec(s, w, h, stride, AnnotationItem::Arrow { start, end, thickness }, head);
            let red = forall|c: int| 0 <= c < 4 ==> #[trigger] out[y * stride + 4 * x + c] == RED@[c];
            let kept = forall|c: int| 0 <= c < 4 ==> #[trigger] out[y * stride + 4 * x + c] == s[y * stride + 4 * x
                + c];
            let near_start = (x - sx) * (x - sx) + (y - sy) * (y - sy) <= rr * rr;
            let near_end = (x - ex) * (x - ex) + (y - ey) * (y - ey) <= rr * rr;
            let near_shaft = min_int(sx, ex) - rr <= x <= max_int(sx, ex) + rr && min_int(sy, ey) - rr <= y
                <= max_int(sy, ey) + rr;
            let is_corner = match head {
                Some(hd) => (x == ex && y == ey) || (x == hd.left.x && y == hd.left.y) || (x == hd.right.x
                    && y == hd.right.y),
                None => false,
            };
            let near_head = match head {
                Some(hd) => min_int(min_int(ex, hd.left.x as int), hd.right.x as int) <= x <= max_int(
                    max_int(ex, hd.left.x as int),
                    hd.right.x as int,
                ) && min_int(min_int(ey, hd.left.y as int), hd.right.y as int) <= y <= max_int(
                    max_int(ey, hd.left.y as int),
                    hd.right.y as int,
                ),
                None => false,
            };
            &&& red || kept
            &&& t >= 1 && (near_start || near_end) ==> red
            &&& is_corner ==> red
            &&& !(t >= 1 && near_shaft) && !near_head ==> kept
        }),
{
    let t = as_i32(at_least(thickness as int, 2));
    assert(t == as_i32(if thickness >= 2 { thickness as int } else { 2 }));
    let rr = (t - 1) / 2;
    let sx = start.x as int;
    let sy = start.y as int;
    let ex = end.x as int;
    let ey = end.y as int;
    let ls = line_set(sx, sy, ex, ey, rr);
    let shaft = if t >= 1 { painted(s, w, h, stride, ls, RED, 255) } else { s };
    let out = draw_spec(s, w, h, stride, AnnotationItem::Arrow { start, end, thickness }, head);
    let in_shaft = t >= 1 && ls(x, y);
    let in_head = match head {
        Some(hd) => tri_set(ex, ey, hd.left.x as int, hd.left.y as int, hd.right.x as int, hd.right.y as int)(x, y),
        None => false,
    };
    assert forall|c: int| 0 <= c < 4 implies #[trigger] out[y * stride + 4 * x + c] == if in_shaft || in_head {
        RED@[c]
    } else {
        s[y * stride + 4 * x + c]
    } by {
        lemma_decompose(w, h, stride, x, y, c);
        let i = y * stride + 4 * x + c;
        assert(shaft[i] == if in_shaft { RED@[c] } else { s[i] });
    }
    let steps = line_steps(sx, sy, ex, ey);
    if t >= 1 {
        if (x - sx) * (x - sx) + (y - sy) * (y - sy) <= rr * rr {
            assert(tdiv((ex - sx) * 0, steps) == 0);
            assert(tdiv((ey - sy) * 0, steps) == 0);
            assert(in_line_disc(sx, sy, ex, ey, rr, 0, x, y));
        }
        if (x - ex) * (x - ex) + (y - ey) * (y - ey) <= rr * rr {
            lemma_tdiv_whole(ex - sx, steps);
            lemma_tdiv_whole(ey - sy, steps);
            assert(in_line_disc(sx, sy, ex, ey, rr, steps, x, y));
        }
        if ls(x, y) {
            let j = choose|j: int| 0 <= j < steps + 1 && #[trigger] in_line_disc(sx, sy, ex, ey, rr, j, x, y);
            lemma_tdiv_between(ex - sx, j, steps);
            lemma_tdiv_between(ey - sy, j, steps);
            let qx = sx + tdiv((ex - sx) * j, steps);
            let qy = sy + tdiv((ey - sy) * j, steps);
            lemma_disc_bounds(x - qx, y - qy, rr);
        }
    }
    match head {
        Some(hd) => {
            let lx = hd.left.x as int;
            let ly = hd.left.y as int;
            let rx = hd.right.x as int;
            let ry = hd.right.y as int;
            if x == ex && y == ey {
                assert(edge(ex, ey, lx, ly, x, y) == 0) by (nonlinear_arith)
                    requires
                        x == ex && y == ey,
                ;
                assert(edge(rx, ry, ex, ey, x, y) == 0) by (nonlinear_arith)
                    requires
                        x == ex && y == ey,
                ;
            }
            if x == lx && y == ly {
                assert(edge(ex, ey, lx, ly, x, y) == 0) by (nonlinear_arith)
                    requires
                        x == lx && y == ly,
                ;
                assert(edge(lx, ly, rx, ry, x, y) == 0) by (nonlinear_arith)
                    requires
                        x == lx && y == ly,
                ;
            }
            if x == rx && y == ry {
                assert(edge(lx, ly, rx, ry, x, y) == 0) by (nonlinear_arith)
                    requires
                        x == rx && y == ry,
                ;
                assert(edge(rx, ry, ex, ey, x, y) == 0) by (nonlinear_arith)
                    requires
                        x == rx && y == ry,
                ;
            }
        },
        None => {},
    }
}

/// A highlight tints exactly the rectangle spanned by its corners: each
/// canvas pixel inside it gets each color channel blended as
/// `(yellow * 96 + old * 159 + 127) / 255` and becomes opaque; every byte
/// outside keeps its value.
pub proof fn lemma_highlight(
    s: Seq<u8>,
    w: int,
    h: int,
    stride: int,
    start: AnnotationPoint,
    end: AnnotationPoint,
    head: Option<ArrowHead>,
    x: int,
    y: int,
    c: int,
)
    requires
        grid_ok(w, h, stride),
        stride * h <= s.len(),
        0 <= x < w,
        0 <= y < h,
        0 <= c < 4,
    ensures
        ({
            let l = min_int(start.x as int, end.x as int);
            let t = min_int(start.y as int, end.y as int);
            let r = max_int(start.x as int, end.x as int);
            let b = max_int(start.y as int, end.y as int);
            let i = y * stride + 4 * x + c;
            let v = draw_spec(s, w, h, stride, AnnotationItem::Highlight { start, end }, head)[i];
            let inside = l <= x <= r && t <= y <= b;
            &&& !inside ==> v == s[i]
            &&& inside && c == 3 ==> v == 255
            &&& inside && c < 3 ==> v == ((YELLOW@[c] * 96 + s[i] * 159 + 127) / 255) as u8
        }),
{
    lemma_decompose(w, h, stride, x, y, c);
}

/// Text is drawn in white inside its box and nowhere else: with `n` the
/// number of bytes of the text and `k` its scale (its size over 8, at least
/// 1), a canvas pixel outside `[px, px + 6 * n * k) x [py, py + 7 * k)`
/// keeps every byte, and a pixel inside it is either opaque white or keeps
/// every byte.
pub proof fn lemma_text_box(
    s: Seq<u8>,
    w: int,
    h: int,
    stride: int,
    position: AnnotationPoint,
    text: String,
    size: u32,
    head: Option<ArrowHead>,
    x: int,
    y: int,
)
    requires
        grid_ok(w, h, stride),
        stride * h <= s.len(),
        0 <= x < w,
        0 <= y < h,
    ensures
        ({
            let n = encode_utf8(text@).len() as int;
            let k = if size >= 16 { size / 8 } else { 1 };
            let px = position.x as int;
            let py = position.y as int;
            let out = draw_spec(s, w, h, stride, AnnotationItem::Text { position, text, size }, head);
            let inside = px <= x < px + 6 * n * k && py <= y < py + 7 * k;
            &&& !inside ==> forall|c: int| 0 <= c < 4 ==> #[trigger] out[y * stride + 4 * x + c] == s[y * stride + 4 * x + c]
            &&& (forall|c: int| 0 <= c < 4 ==> #[trigger] out[y * stride + 4 * x + c] == WHITE@[c])
                || (forall|c: int| 0 <= c < 4 ==> #[trigger] out[y * stride + 4 * x + c] == s[y * stride + 4 * x + c])
        }),
{
    let bytes = encode_utf8(text@);
    let n = bytes.len() as int;
    let k = if size >= 16 { size / 8 } else { 1 };
    let scale = at_least(at_least(size as int, 8) / 8, 1);
    assert(scale == k);
    let px = position.x as int;
    let py = position.y as int;
    let gs = glyph_set(px, py, bytes, scale);
    let out = draw_spec(s, w, h, stride, AnnotationItem::Text { position, text, size }, head);
    assert(out == painted(s, w, h, stride, gs, WHITE, 255));
    assert forall|c: int| 0 <= c < 4 implies #[trigger] out[y * stride + 4 * x + c] == if gs(x, y) {
        WHITE@[c]
    } else {
        s[y * stride + 4 * x + c]
    } by {
        lemma_decompose(w, h, stride, x, y, c);
    }
    if gs(x, y) {
        let m = choose|m: int| 0 <= m < 35 * n && #[trigger] in_glyph_cell(px, py, bytes, scale, m, x, y);
        let g = m / 35;
        let row = (m % 35) / 5;
        let col = m % 5;
        assert(0 <= g < n && 0 <= row < 7 && 0 <= col < 5) by (nonlinear_arith)
            requires
                0 <= m < 35 * n,
                g == m / 35,
                row == (m % 35) / 5,
                col == m % 5,
        ;
        assert(g * 6 * scale + col * scale + scale <= 6 * n * scale) by (nonlinear_arith)
            requires
                0 <= g < n,
                0 <= col < 5,
                scale >= 1,
        ;
        assert(row * scale + scale <= 7 * scale) by (nonlinear_arith)
            requires
                0 <= row < 7,
                scale >= 1,
        ;
        assert(0 <= g * 6 * scale + col * scale) by (nonlinear_arith)
            requires
                0 <= g,
                0 <= col,
                scale >= 1,
        ;
        assert(0 <= row * scale) by (nonlinear_arith)
            requires
                0 <= row,
                scale >= 1,
        ;
    }
}

/// A redaction pixelates exactly the rectangle spanned by its corners. With
/// `(l, t, r, b)` that rectangle and `k` the block size (at least 3): a
/// canvas pixel outside it keeps every byte; a pixel inside it becomes
/// opaque, and each of its color channels the average of that channel over
/// its block, the `k` by `k` square (cut at the rectangle and the canvas)
/// counted from the rectangle's top-left corner on the canvas.
pub proof fn lemma_redaction(
    s: Seq<u8>,
    w: int,
    h: int,
    stride: int,
    start: AnnotationPoint,
    end: AnnotationPoint,
    block_size: u32,
    head: Option<ArrowHead>,
    x: int,
    y: int,
    c: int,
)
    requires
        grid_ok(w, h, stride),
        stride * h <= s.len(),
        0 <= x < w,
        0 <= y < h,
        0 <= c < 4,
    ensures
        ({
            let l = min_int(start.x as int, end.x as int);
            let t = min_int(start.y as int, end.y as int);
            let r = max_int(start.x as int, end.x as int);
            let b = max_int(start.y as int, end.y as int);
            let k = if block_size >= 3 { block_size as int } else { 3 };
            let left = if l >= 0 { l } else { 0 };
            let top = if t >= 0 { t } else { 0 };
            let x0 = left + ((x - left) / k) * k;
            let y0 = top + ((y - top) / k) * k;
            let x1 = min_int(min_int(x0 + k, r + 1), w);
            let y1 = min_int(min_int(y0 + k, b + 1), h);
            let i = y * stride + 4 * x + c;
            let v = draw_spec(s, w, h, stride, AnnotationItem::Redact { start, end, block_size }, head)[i];
            let inside = l <= x <= r && t <= y <= b;
            &&& !inside ==> v == s[i]
            &&& inside && c == 3 ==> v == 255
            &&& inside && c < 3 ==> v == (area_sum(s, stride, c, x0, x1, y0, y1) / ((x1 - x0) * (y1 - y0))) as u8
        }),
{
    lemma_decompose(w, h, stride, x, y, c);
    let l = min_int(start.x as int, end.x as int);
    let t = min_int(start.y as int, end.y as int);
    let r = max_int(start.x as int, end.x as int);
    let b = max_int(start.y as int, end.y as int);
    let k = if block_size >= 3 { block_size as int } else { 3 };
    let left = if l >= 0 { l } else { 0 };
    let top = if t >= 0 { t } else { 0 };
    let right = at_least(min_int(r + 1, w), 0);
    let bottom = at_least(min_int(b + 1, h), 0);
    let i = y * stride + 4 * x + c;
    assert(at_least(block_size as int, 3) == k);
    let p = pixelated(s, w, h, stride, left, top, right, bottom, k);
    assert(draw_spec(s, w, h, stride, AnnotationItem::Redact { start, end, block_size }, head) == p);
    let inside = l <= x <= r && t <= y <= b;
    assert(inside <==> (left <= x < right && top <= y < bottom));
    if inside {
        lemma_block(x, left, k);
        lemma_block(y, top, k);
        assert(block_start(y, top, k) < bottom);
        assert(p[i] == if c == 3 {
            255u8
        } else {
            block_average(s, stride, c, x, y, left, top, right, bottom, k) as u8
        });
    } else {
        assert(p[i] == s[i]);
    }
}

/// The head drawn with item `i`: `heads[i]` where there is one.
pub open spec fn head_for(heads: Seq<Option<ArrowHead>>, i: int) -> Option<ArrowHead> {
    if 0 <= i < heads.len() { heads[i] } else { None }
}

/// The bytes after the first `k` items have been drawn in order.
pub open spec fn draw_all(
    s: Seq<u8>,
    w: int,
    h: int,
    stride: int,
    items: Seq<AnnotationItem>,
    heads: Seq<Option<ArrowHead>>,
    k: int,
) -> Seq<u8>
    decreases k,
{
    if k <= 0 {
        s
    } else {
        draw_spec(draw_all(s, w, h, stride, items, heads, k - 1), w, h, stride, items[k - 1], head_for(heads, k - 1))
    }
}

/// The pixels of a frame after a document has been applied: unchanged when
/// the buffer is shorter than `stride * h`; else every item drawn in order,
/// then every pixel made opaque.
pub open spec fn rendered(
    s: Seq<u8>,
    w: int,
    h: int,
    stride: int,
    items: Seq<AnnotationItem>,
    heads: Seq<Option<ArrowHead>>,
) -> Seq<u8> {
    if s.len() < stride * h {
        s
    } else {
        opaque(draw_all(s, w, h, stride, items, heads, items.len() as int), w, h, stride)
    }
}

/// Every item of the document can be drawn with its head.
pub open spec fn items_fit(items: Seq<AnnotationItem>, heads: Seq<Option<ArrowHead>>) -> bool {
    forall|i: int| 0 <= i < items.len() ==> item_fits(#[trigger] items[i], head_for(heads, i))
}

fn at_least_u32(v: u32, lo: u32) -> (r: u32)
    ensures
        r == at_least(v as int, lo as int),
{
    if v >= lo { v } else { lo }
}

impl Canvas {
    /// Draws one annotation item, with `head` as the head of an arrow.
    pub fn draw(&mut self, item: &AnnotationItem, head: Option<ArrowHead>)
        requires
            old(self).wf(),
            item_fits(*item, head),
        ensures
            final(self).same_shape(*old(self)),
            final(self).wf(),
            final(self).pixels@ == draw_spec(
                old(self).pixels@,
                old(self).width as int,
                old(self).height as int,
                old(self).stride as int,
                *item,
                head,
            ),
    {
        match item {
            AnnotationItem::Arrow { start, end, thickness } => {
                let t = to_i32(at_least_u32(*thickness, 2));
                if t >= 1 {
                    self.line(start.x, start.y, end.x, end.y, (t - 1) / 2, RED);
                }
                match head {
                    Some(hd) => {
                        self.filled_triangle(end.x, end.y, hd.left.x, hd.left.y, hd.right.x, hd.right.y, RED);
                    },
                    None => {},
                }
            },
            AnnotationItem::Rectangle { start, end, thickness } => {
                let (left, top, right, bottom) = ordered_rect_exec(*start, *end);
                let t = to_i32(at_least_u32(*thickness, 1));
                self.fill_rect(left, top, right + 1, top + t, RED, 255);
                self.fill_rect(left, bottom - t + 1, right + 1, bottom + 1, RED, 255);
                self.fill_rect(left, top, left + t, bottom + 1, RED, 255);
                self.fill_rect(right - t + 1, top, right + 1, bottom + 1, RED, 255);
            },
            AnnotationItem::Highlight { start, end } => {
                let (left, top, right, bottom) = ordered_rect_exec(*start, *end);
                self.fill_rect(left, top, right + 1, bottom + 1, YELLOW, 96);
            },
            AnnotationItem::Text { position, text, size } => {
                let size = at_least_u32(*size, 8);
                let scale = at_least_u32(size / 8, 1) as i32;
                let bytes = text.as_str().as_bytes();
                self.text(position.x, position.y, bytes, scale);
            },
            AnnotationItem::Redact { start, end, block_size } => {
                let (left, top, right, bottom) = ordered_rect_exec(*start, *end);
                let l: i32 = if left >= 0 { left } else { 0 };
                let t: i32 = if top >= 0 { top } else { 0 };
                let r0: i32 = if right + 1 <= self.width as i32 { right + 1 } else { self.width as i32 };
                let r: i32 = if r0 >= 0 { r0 } else { 0 };
                let b0: i32 = if bottom + 1 <= self.height as i32 { bottom + 1 } else { self.height as i32 };
                let b: i32 = if b0 >= 0 { b0 } else { 0 };
                let block = at_least_u32(*block_size, 3) as usize;
                self.pixelate(l as usize, t as usize, r as usize, b as usize, block);
            },
            AnnotationItem::Marker { center, number } => {
                let label = decimal_digits(*number);
                proof {
                    lemma_u32_digits(*number);
                }
                self.marker(center.x, center.y, label.as_slice());
            },
        }
    }
}


/// The number the next marker of a document whose counter is `next` gets:
/// the counter, but at least 1.
pub open spec fn marker_number(next: u32) -> u32 {
    if next >= 1 { next } else { 1 }
}

/// The counter after a marker numbered `n` was added: `n + 1`, saturated.
pub open spec fn counter_after(n: u32) -> u32 {
    if n < u32::MAX { (n + 1) as u32 } else { u32::MAX }
}

/// An ordered list of annotations, with the counter that numbers markers.
#[derive(Clone, Debug, PartialEq)]
pub struct AnnotationDocument {
    pub items: Vec<AnnotationItem>,
    next_marker_number: u32,
}

impl View for AnnotationDocument {
    type V = Seq<AnnotationItem>;

    /// The items, in drawing order.
    closed spec fn view(&self) -> Seq<AnnotationItem> {
        self.items@
    }
}

impl Default for AnnotationDocument {
    fn default() -> (d: Self)
        ensures
            d@.len() == 0,
            d.next_marker() == 1,
    {
        Self::new()
    }
}

impl AnnotationDocument {
    /// The number the document's counter holds for the next marker.
    pub closed spec fn next_marker(self) -> u32 {
        self.next_marker_number
    }

    /// A document holds its items in a vector, so their number fits
    /// `usize`.
    pub proof fn lemma_len_fits(&self)
        ensures
            self@.len() <= usize::MAX,
    {
        assert(self@.len() == self.items.len());
    }

    /// An empty document whose first marker will be numbered 1.
    pub fn new() -> (d: Self)
        ensures
            d@.len() == 0,
            d.next_marker() == 1,
    {
        AnnotationDocument { items: Vec::new(), next_marker_number: 1 }
    }

    /// Appends an item. A marker gets the document's next number in place of
    /// the number it carries, and that number is returned; any other item is
    /// appended as it is and 0 is returned.
    pub fn add(&mut self, item: AnnotationItem) -> (n: u32)
        ensures
            match item {
                AnnotationItem::Marker { center, number } => {
                    &&& n == marker_number(old(self).next_marker())
                    &&& final(self)@ == old(self)@.push(AnnotationItem::Marker { center, number: n })
                    &&& final(self).next_marker() == counter_after(n)
                },
                _ => {
                    &&& n == 0
                    &&& final(self)@ == old(self)@.push(item)
                    &&& final(self).next_marker() == old(self).next_marker()
                },
            },
    {
        match item {
            AnnotationItem::Marker { center, number: _ } => {
                let assigned = if self.next_marker_number >= 1 { self.next_marker_number } else { 1 };
                self.next_marker_number = if assigned < u32::MAX { assigned + 1 } else { u32::MAX };
                self.items.push(AnnotationItem::Marker { center, number: assigned });
                assigned
            },
            other => {
                self.items.push(other);
                0
            },
        }
    }

    /// Appends an item, as `add` does.
    pub fn add_item(&mut self, item: AnnotationItem) -> (n: u32)
        ensures
            match item {
                AnnotationItem::Marker { center, number } => {
                    &&& n == marker_number(old(self).next_marker())
                    &&& final(self)@ == old(self)@.push(AnnotationItem::Marker { center, number: n })
                    &&& final(self).next_marker() == counter_after(n)
                },
                _ => {
                    &&& n == 0
                    &&& final(self)@ == old(self)@.push(item)
                    &&& final(self).next_marker() == old(self).next_marker()
                },
            },
    {
        self.add(item)
    }

    /// Appends a marker at `center` and returns the number it got.
    pub fn add_marker(&mut self, center: AnnotationPoint) -> (n: u32)
        ensures
            n == marker_number(old(self).next_marker()),
            final(self)@ == old(self)@.push(AnnotationItem::Marker { center, number: n }),
            final(self).next_marker() == counter_after(n),
    {
        self.add(AnnotationItem::Marker { center, number: 0 })
    }

    /// Removes and returns the last item. The marker counter is left as it
    /// is, so a later marker never reuses a number.
    pub fn undo(&mut self) -> (r: Option<AnnotationItem>)
        ensures
            old(self)@.len() == 0 ==> r is None && final(self)@ == old(self)@,
            old(self)@.len() > 0 ==> r == Some(old(self)@.last()) && final(self)@
                == old(self)@.drop_last(),
            final(self).next_marker() == old(self).next_marker(),
    {
        self.items.pop()
    }

    /// Removes every item and restarts marker numbering at 1.
    pub fn clear(&mut self)
        ensures
            final(self)@.len() == 0,
            final(self).next_marker() == 1,
    {
        self.items.clear();
        self.next_marker_number = 1;
    }

    /// Draws every item, in order, onto `frame`, then makes every pixel
    /// opaque. The `i`-th entry of `heads`, where there is one, is the head
    /// of the `i`-th item when that item is an arrow. A frame whose buffer is
    /// shorter than `stride * height` (or whose `stride * height` overflows)
    /// is left as it is.
    pub fn apply(&self, frame: &mut BgraFrame, heads: &Vec<Option<ArrowHead>>)
        requires
            old(frame).width <= i32::MAX,
            old(frame).height <= i32::MAX,
            4 * old(frame).width <= old(frame).stride,
            items_fit(self@, heads@),
        ensures
            final(frame).origin_x == old(frame).origin_x,
            final(frame).origin_y == old(frame).origin_y,
            final(frame).width == old(frame).width,
            final(frame).height == old(frame).height,
            final(frame).stride == old(frame).stride,
            final(frame).pixels@ == rendered(
                old(frame).pixels@,
                old(frame).width as int,
                old(frame).height as int,
                old(frame).stride as int,
                self@,
                heads@,
            ),
    {
        let width = frame.width as usize;
        let height = frame.height as usize;
        let stride = frame.stride;
        let len = frame.pixels.len();
        let needed = match stride.checked_mul(height) {
            Some(needed) => needed,
            None => {
                assert(len < stride * height);
                return;
            },
        };
        if len < needed {
            return;
        }
        let ghost s0 = frame.pixels@;
        let ghost w = width as int;
        let ghost h = height as int;
        let ghost st = stride as int;
        let mut pixels: Vec<u8> = Vec::new();
        std::mem::swap(&mut pixels, &mut frame.pixels);
        let mut canvas = Canvas { pixels, width, height, stride };
        let mut i: usize = 0;
        while i < self.items.len()
            invariant
                canvas.wf(),
                canvas.width == w,
                canvas.height == h,
                canvas.stride == st,
                items_fit(self@, heads@),
                i <= self.items@.len(),
                canvas.pixels@ == draw_all(s0, w, h, st, self.items@, heads@, i as int),
            decreases self.items@.len() - i,
        {
            let head: Option<ArrowHead> = if i < heads.len() { heads[i] } else { None };
            assert(item_fits(self.items@[i as int], head_for(heads@, i as int)));
            canvas.draw(&self.items[i], head);
            i = i + 1;
        }
        canvas.make_opaque();
        frame.pixels = canvas.pixels;
    }

    /// A copy of `frame` with the document applied, as `apply` does; `frame`
    /// itself is left as it is.
    pub fn render(&self, frame: &BgraFrame, heads: &Vec<Option<ArrowHead>>) -> (out: BgraFrame)
        requires
            frame.width <= i32::MAX,
            frame.height <= i32::MAX,
            4 * frame.width <= frame.stride,
            items_fit(self@, heads@),
        ensures
            out.origin_x == frame.origin_x,
            out.origin_y == frame.origin_y,
            out.width == frame.width,
            out.height == frame.height,
            out.stride == frame.stride,
            out.pixels@ == rendered(
                frame.pixels@,
                frame.width as int,
                frame.height as int,
                frame.stride as int,
                self@,
                heads@,
            ),
    {
        let mut out = frame.duplicate();
        self.apply(&mut out, heads);
        out
    }
}

/// Undoing right after adding an item gives back the items from before.
pub proof fn lemma_undo_after_add(items: Seq<AnnotationItem>, item: AnnotationItem)
    ensures
        items.push(item).len() > 0,
        items.push(item).last() == item,
        items.push(item).drop_last() == items,
{
    assert(items.push(item).drop_last() =~= items);
}

/// Marker numbers are sequential: the marker added after one numbered `n`
/// (with any undo in between, which keeps the counter) is numbered `n + 1`,
/// unless `n` is already the largest `u32`.
pub proof fn lemma_markers_sequential(next: u32)
    ensures
        marker_number(next) < u32::MAX ==> marker_number(counter_after(marker_number(next)))
            == marker_number(next) + 1,
        marker_number(next) == u32::MAX ==> marker_number(counter_after(marker_number(next)))
            == u32::MAX,
{
}

/// Every marker of `items` is numbered from 1 and below `next`, the counter
/// of the document (or the counter has stopped at the largest `u32`).
pub open spec fn markers_below(items: Seq<AnnotationItem>, next: u32) -> bool {
    forall|i: int|
        0 <= i < items.len() ==> match #[trigger] items[i] {
            AnnotationItem::Marker { number, .. } => 1 <= number && (number < next || next == u32::MAX),
            _ => true,
        }
}

/// Marker numbering stays monotonic and unambiguous: when every marker of a
/// document is numbered below its counter, the marker added next gets a
/// number larger than that of every marker already there, and afterwards
/// every marker is again below the new counter. Undo keeps every marker
/// below the counter, and an empty document meets it from the start.
pub proof fn lemma_marker_numbers_increase(items: Seq<AnnotationItem>, next: u32, center: AnnotationPoint)
    requires
        markers_below(items, next),
        next < u32::MAX,
    ensures
        forall|i: int|
            0 <= i < items.len() ==> match #[trigger] items[i] {
                AnnotationItem::Marker { number, .. } => number < marker_number(next),
                _ => true,
            },
        markers_below(
            items.push(AnnotationItem::Marker { center, number: marker_number(next) }),
            counter_after(marker_number(next)),
        ),
        items.len() > 0 ==> markers_below(items.drop_last(), next),
        markers_below(Seq::empty(), 1),
{
    let pushed = items.push(AnnotationItem::Marker { center, number: marker_number(next) });
    assert forall|i: int| 0 <= i < pushed.len() implies match #[trigger] pushed[i] {
        AnnotationItem::Marker { number, .. } => 1 <= number && (number < counter_after(marker_number(next))
            || counter_after(marker_number(next)) == u32::MAX),
        _ => true,
    } by {
        if i < items.len() {
            assert(pushed[i] == items[i]);
        }
    }
    if items.len() > 0 {
        assert forall|i: int| 0 <= i < items.drop_last().len() implies match #[trigger] items.drop_last()[i] {
            AnnotationItem::Marker { number, .. } => 1 <= number && (number < next || next == u32::MAX),
            _ => true,
        } by {
            assert(items.drop_last()[i] == items[i]);
        }
    }
}

/// A call that changes an annotation document: `add` (or `add_item`,
/// `add_marker`) of an item, `undo` or `clear`.
pub enum DocumentOp {
    Add(AnnotationItem),
    Undo,
    Clear,
}

/// The items and marker counter of a document made by `new` and then
/// changed by the calls `ops` in order, step by step as the contracts of
/// `add`, `undo` and `clear` describe.
pub open spec fn replay(ops: Seq<DocumentOp>) -> (Seq<AnnotationItem>, u32)
    decreases ops.len(),
{
    if ops.len() == 0 {
        (seq![], 1)
    } else {
        let (items, next) = replay(ops.drop_last());
        match ops.last() {
            DocumentOp::Add(AnnotationItem::Marker { center, .. }) => (
                items.push(AnnotationItem::Marker { center, number: marker_number(next) }),
                counter_after(marker_number(next)),
            ),
            DocumentOp::Add(item) => (items.push(item), next),
            DocumentOp::Undo => (if items.len() > 0 { items.drop_last() } else { items }, next),
            DocumentOp::Clear => (seq![], 1),
        }
    }
}

/// The number of markers added by `ops` since the last `clear` (undo does
/// not lower it).
pub open spec fn markers_added(ops: Seq<DocumentOp>) -> nat
    decreases ops.len(),
{
    if ops.len() == 0 {
        0
    } else {
        let m = markers_added(ops.drop_last());
        match ops.last() {
            DocumentOp::Add(AnnotationItem::Marker { .. }) => m + 1,
            DocumentOp::Clear => 0,
            _ => m,
        }
    }
}

/// Marker numbering over any history: after `m` markers were added since
/// the document was made or last cleared (whatever was undone in between),
/// the next marker is numbered `m + 1` (the counter stops at the largest
/// `u32`), and every marker the document holds is numbered below its
/// counter, so no two markers share a number before the counter stops.
pub proof fn lemma_marker_history(ops: Seq<DocumentOp>)
    ensures
        markers_added(ops) < u32::MAX ==> marker_number(replay(ops).1) == markers_added(ops) + 1,
        markers_added(ops) >= u32::MAX ==> marker_number(replay(ops).1) == u32::MAX,
        markers_below(replay(ops).0, replay(ops).1),
    decreases ops.len(),
{
    if ops.len() > 0 {
        let p = ops.drop_last();
        lemma_marker_history(p);
        let (items, next) = replay(p);
        match ops.last() {
            DocumentOp::Add(AnnotationItem::Marker { center, .. }) => {
                let pushed = items.push(AnnotationItem::Marker { center, number: marker_number(next) });
                assert forall|i: int| 0 <= i < pushed.len() implies match #[trigger] pushed[i] {
                    AnnotationItem::Marker { number, .. } => 1 <= number && (number < counter_after(
                        marker_number(next),
                    ) || counter_after(marker_number(next)) == u32::MAX),
                    _ => true,
                } by {
                    if i < items.len() {
                        assert(pushed[i] == items[i]);
                    }
                }
            },
            DocumentOp::Add(item) => {
                let pushed = items.push(item);
                assert forall|i: int| 0 <= i < pushed.len() implies match #[trigger] pushed[i] {
                    AnnotationItem::Marker { number, .. } => 1 <= number && (number < next || next == u32::MAX),
                    _ => true,
                } by {
                    if i < items.len() {
                        assert(pushed[i] == items[i]);
                    }
                }
            },
            DocumentOp::Undo => {
                if items.len() > 0 {
                    assert forall|i: int| 0 <= i < items.drop_last().len() implies match #[trigger] items.drop_last()[i] {
                        AnnotationItem::Marker { number, .. } => 1 <= number && (number < next || next == u32::MAX),
                        _ => true,
                    } by {
                        assert(items.drop_last()[i] == items[i]);
                    }
                }
            },
            DocumentOp::Clear => {},
        }
    }
}

/// After `clear` the next marker is numbered 1.
pub proof fn lemma_clear_restarts_numbering()
    ensures
        marker_number(1) == 1,
{
}

/// Rendering makes every pixel of the frame opaque, when the buffer is long
/// enough to hold it.
pub proof fn lemma_rendered_opaque(
    s: Seq<u8>,
    w: int,
    h: int,
    stride: int,
    items: Seq<AnnotationItem>,
    heads: Seq<Option<ArrowHead>>,
    x: int,
    y: int,
)
    requires
        0 <= x < w,
        0 <= y < h,
        4 * w <= stride,
        stride * h <= s.len(),
    ensures
        rendered(s, w, h, stride, items, heads)[y * stride + 4 * x + 3] == 255,
{
    crate::canvas::lemma_decompose(w, h, stride, x, y, 3);
    lemma_draw_all_len(s, w, h, stride, items, heads, items.len() as int);
    assert(stride * h == h * stride) by (nonlinear_arith);
}

/// Drawing keeps the length of the byte buffer.
pub proof fn lemma_draw_all_len(
    s: Seq<u8>,
    w: int,
    h: int,
    stride: int,
    items: Seq<AnnotationItem>,
    heads: Seq<Option<ArrowHead>>,
    k: int,
)
    ensures
        draw_all(s, w, h, stride, items, heads, k).len() == s.len(),
    decreases k,
{
    if k > 0 {
        lemma_draw_all_len(s, w, h, stride, items, heads, k - 1);
    }
}

} // verus!
