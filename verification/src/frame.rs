//! Captured BGRA frames: bounds, cropping, row packing and channel order.

use vstd::prelude::*;
use crate::region::{PixelRect, min_int};

verus! {

/// Byte `col` of row `row` in a buffer whose rows start every `stride` bytes.
pub open spec fn at(s: Seq<u8>, stride: int, row: int, col: int) -> u8 {
    s[row * stride + col]
}

/// A byte inside row `row` and column `col < width` of a buffer of `rows`
/// rows of `stride >= width` bytes lies before `rows * stride`.
pub proof fn lemma_row_offset(row: int, col: int, rows: int, stride: int, width: int)
    requires
        0 <= row < rows,
        0 <= col < width,
        width <= stride,
    ensures
        0 <= row * stride + col < rows * stride,
        row * stride + col + (stride - col) <= rows * stride,
        rows * stride == stride * rows,
{
    assert(rows * stride == stride * rows) by (nonlinear_arith);
    assert(row * stride + stride <= rows * stride) by (nonlinear_arith)
        requires
            0 <= row < rows,
            0 <= stride,
    ;
    assert(0 <= row * stride) by (nonlinear_arith)
        requires
            0 <= row,
            0 <= stride,
    ;
}

/// Two positions `(row, col)` and `(row2, col2)` of a packed buffer with
/// `0 <= col, col2 < width` are the same byte only when they are the same
/// position.
pub proof fn lemma_row_offset_injective(row: int, col: int, row2: int, col2: int, width: int)
    requires
        0 <= col < width,
        0 <= col2 < width,
        row * width + col == row2 * width + col2,
    ensures
        row == row2,
        col == col2,
{
    if row < row2 {
        assert(row * width + width <= row2 * width) by (nonlinear_arith)
            requires
                row < row2,
                0 <= width,
        ;
    } else if row2 < row {
        assert(row2 * width + width <= row * width) by (nonlinear_arith)
            requires
                row2 < row,
                0 <= width,
        ;
    }
}

/// Copies `rows` rows of `row_bytes` bytes out of `src`, starting at row
/// `row0` and byte `byte0` of each row, into a tightly packed buffer.
pub fn copy_rows(
    src: &Vec<u8>,
    stride: usize,
    row0: usize,
    byte0: usize,
    rows: usize,
    row_bytes: usize,
) -> (out: Vec<u8>)
    requires
        byte0 + row_bytes <= stride,
        row0 + rows <= usize::MAX,
        (row0 + rows) * stride <= src@.len(),
    ensures
        out@.len() == rows * row_bytes,
        forall|r: int, c: int|
            0 <= r < rows && 0 <= c < row_bytes ==> #[trigger] at(out@, row_bytes as int, r, c)
                == at(src@, stride as int, row0 + r, byte0 + c),
{
    let mut out: Vec<u8> = Vec::new();
    let total = src.len();
    let mut r: usize = 0;
    while r < rows
        invariant
            r <= rows,
            byte0 + row_bytes <= stride,
            row0 + rows <= usize::MAX,
            (row0 + rows) * stride <= src@.len(),
            total == src@.len(),
            out@.len() == r * row_bytes,
            forall|r2: int, c2: int|
                0 <= r2 < r && 0 <= c2 < row_bytes ==> #[trigger] at(out@, row_bytes as int, r2, c2)
                    == at(src@, stride as int, row0 + r2, byte0 + c2),
        decreases rows - r,
    {
        assert((r + 1) * row_bytes <= rows * row_bytes) by (nonlinear_arith)
            requires
                r + 1 <= rows,
        ;
        assert((row0 + r) * stride + stride <= (row0 + rows) * stride) by (nonlinear_arith)
            requires
                r < rows,
        ;
        let row_start: usize = row0 + r;
        assert(row_start * stride <= total);
        let base: usize = row_start * stride + byte0;
        let mut c: usize = 0;
        while c < row_bytes
            invariant
                r < rows,
                c <= row_bytes,
                byte0 + row_bytes <= stride,
                (row0 + rows) * stride <= src@.len(),
                base == (row0 + r) * stride + byte0,
                base + row_bytes <= src@.len(),
                total == src@.len(),
                out@.len() == r * row_bytes + c,
                forall|r2: int, c2: int|
                    0 <= r2 < r && 0 <= c2 < row_bytes ==> #[trigger] at(
                        out@,
                        row_bytes as int,
                        r2,
                        c2,
                    ) == at(src@, stride as int, row0 + r2, byte0 + c2),
                forall|c2: int|
                    0 <= c2 < c ==> #[trigger] at(out@, row_bytes as int, r as int, c2) == at(
                        src@,
                        stride as int,
                        row0 + r,
                        byte0 + c2,
                    ),
            decreases row_bytes - c,
        {
            let ghost before = out@;
            out.push(src[base + c]);
            assert forall|r2: int, c2: int|
                0 <= r2 < r && 0 <= c2 < row_bytes implies #[trigger] at(
                    out@,
                    row_bytes as int,
                    r2,
                    c2,
                ) == at(src@, stride as int, row0 + r2, byte0 + c2) by {
                lemma_row_offset(r2, c2, r as int, row_bytes as int, row_bytes as int);
                assert(at(out@, row_bytes as int, r2, c2) == at(before, row_bytes as int, r2, c2));
            }
            assert forall|c2: int|
                0 <= c2 < c + 1 implies #[trigger] at(out@, row_bytes as int, r as int, c2) == at(
                    src@,
                    stride as int,
                    row0 + r,
                    byte0 + c2,
                ) by {
                if c2 < c {
                    assert(at(out@, row_bytes as int, r as int, c2) == at(
                        before,
                        row_bytes as int,
                        r as int,
                        c2,
                    ));
                }
            }
            c = c + 1;
        }
        assert((r + 1) * row_bytes == r * row_bytes + row_bytes) by (nonlinear_arith);
        r = r + 1;
    }
    out
}

/// A captured desktop image: 32-bit BGRA pixels, rows `stride` bytes apart,
/// positioned at `(origin_x, origin_y)` in desktop pixels.
#[derive(Clone, Debug)]
pub struct BgraFrame {
    pub origin_x: i32,
    pub origin_y: i32,
    pub width: u32,
    pub height: u32,
    pub stride: usize,
    pub pixels: Vec<u8>,
}

impl BgraFrame {
    /// Every row holds `width` pixels of four bytes, and the buffer holds
    /// `height` rows.
    pub open spec fn wf(self) -> bool {
        &&& 4 * self.width <= self.stride
        &&& self.stride * self.height <= self.pixels@.len()
    }

    /// The frame's bottom-right corner is an `i32` position.
    pub open spec fn bounds_fit(self) -> bool {
        &&& self.width <= i32::MAX
        &&& self.height <= i32::MAX
        &&& self.origin_x + self.width <= i32::MAX
        &&& self.origin_y + self.height <= i32::MAX
    }

    /// The desktop rectangle that the frame covers.
    pub open spec fn spec_bounds(self) -> PixelRect {
        PixelRect {
            left: self.origin_x,
            top: self.origin_y,
            right: (self.origin_x + self.width) as i32,
            bottom: (self.origin_y + self.height) as i32,
        }
    }

    /// Channel `c` of the pixel at column `x`, row `y`.
    pub open spec fn byte(self, x: int, y: int, c: int) -> u8 {
        at(self.pixels@, self.stride as int, y, 4 * x + c)
    }

    /// The desktop rectangle that the frame covers.
    pub fn bounds(&self) -> (r: PixelRect)
        requires
            self.bounds_fit(),
        ensures
            r == self.spec_bounds(),
            r.is_ordered(),
    {
        PixelRect {
            left: self.origin_x,
            top: self.origin_y,
            right: self.origin_x + self.width as i32,
            bottom: self.origin_y + self.height as i32,
        }
    }

    /// The part of the frame inside `rect`, with `rect` first clamped to the
    /// frame. Fails with "selection is empty" when nothing is left.
    pub fn crop(&self, rect: PixelRect) -> (res: Result<Self, String>)
        requires
            self.wf(),
            self.bounds_fit(),
        ensures
            ({
                let c = rect.clamp_to_spec(self.spec_bounds());
                match res {
                    Err(e) => c.spec_is_empty() && e@ == "selection is empty"@,
                    Ok(out) => {
                        &&& !c.spec_is_empty()
                        &&& out.origin_x == c.left
                        &&& out.origin_y == c.top
                        &&& out.width == c.right - c.left
                        &&& out.height == c.bottom - c.top
                        &&& out.stride == 4 * out.width
                        &&& out.wf()
                        &&& out.pixels@.len() == out.stride * out.height
                        &&& forall|x: int, y: int, ch: int|
                            0 <= x < out.width && 0 <= y < out.height && 0 <= ch < 4
                                ==> #[trigger] out.byte(x, y, ch) == self.byte(
                                x + c.left - self.origin_x,
                                y + c.top - self.origin_y,
                                ch,
                            )
                    },
                }
            }),
    {
        let rect = rect.clamp_to(self.bounds());
        if rect.is_empty() {
            return Err(String::from_str("selection is empty"));
        }
        let width = rect.width();
        let height = rect.height();
        let stride = width as usize * 4;
        let source_x = (rect.left - self.origin_x) as usize;
        let source_y = (rect.top - self.origin_y) as usize;
        proof {
            assert((source_y + height) * self.stride <= self.stride * self.height) by (nonlinear_arith)
                requires
                    source_y + height <= self.height,
            ;
        }
        let pixels = copy_rows(&self.pixels, self.stride, source_y, source_x * 4, height as usize, stride);
        let out = BgraFrame {
            origin_x: rect.left,
            origin_y: rect.top,
            width,
            height,
            stride,
            pixels,
        };
        proof {
            assert forall|x: int, y: int, ch: int|
                0 <= x < out.width && 0 <= y < out.height && 0 <= ch < 4
                    implies #[trigger] out.byte(x, y, ch) == self.byte(
                    x + rect.left - self.origin_x,
                    y + rect.top - self.origin_y,
                    ch,
                ) by {
                assert(at(out.pixels@, stride as int, y, 4 * x + ch) == at(
                    self.pixels@,
                    self.stride as int,
                    source_y + y,
                    source_x * 4 + 4 * x + ch,
                ));
            }
        }
        assert((height as int) * (stride as int) == (stride as int) * (height as int)) by (nonlinear_arith);
        Ok(out)
    }
}


/// The index of byte `col` of row `row` when rows start every `stride` bytes.
pub open spec fn offset(stride: int, row: int, col: int) -> int {
    row * stride + col
}

/// Byte `i` lies in the first `row_bytes` bytes of one of the first `rows`
/// rows of a buffer whose rows start every `stride` bytes.
pub open spec fn in_rows(i: int, stride: int, row_bytes: int, rows: int) -> bool {
    exists|y: int, col: int|
        0 <= y < rows && 0 <= col < row_bytes && i == #[trigger] offset(stride, y, col)
}

/// A byte-for-byte copy of `v`.
pub fn copy_bytes(v: &Vec<u8>) -> (out: Vec<u8>)
    ensures
        out@ == v@,
{
    let mut out: Vec<u8> = Vec::new();
    let mut i: usize = 0;
    while i < v.len()
        invariant
            i <= v@.len(),
            out@ == v@.subrange(0, i as int),
        decreases v@.len() - i,
    {
        out.push(v[i]);
        i = i + 1;
    }
    out
}

/// Pixel `p` of a packed BGRA buffer turned into RGBA with full alpha.
pub open spec fn swizzled(s: Seq<u8>, i: int) -> u8 {
    let p = i / 4;
    let c = i % 4;
    if c == 0 {
        s[4 * p + 2]
    } else if c == 1 {
        s[4 * p + 1]
    } else if c == 2 {
        s[4 * p]
    } else {
        255u8
    }
}

/// Turns each four-byte BGRA pixel of `v` into RGBA with alpha 255.
fn swizzle_to_rgba(v: &mut Vec<u8>)
    requires
        old(v)@.len() % 4 == 0,
    ensures
        final(v)@.len() == old(v)@.len(),
        forall|i: int| 0 <= i < old(v)@.len() ==> #[trigger] final(v)@[i] == swizzled(old(v)@, i),
{
    let ghost original = v@;
    let n = v.len();
    let mut p: usize = 0;
    while p < n
        invariant
            n == v@.len(),
            n == original.len(),
            n % 4 == 0,
            p % 4 == 0,
            p <= n,
            forall|i: int| 0 <= i < p ==> #[trigger] v@[i] == swizzled(original, i),
            forall|i: int| p <= i < n ==> #[trigger] v@[i] == original[i],
        decreases n - p,
    {
        assert(p + 4 <= n);
        let blue = v[p];
        let red = v[p + 2];
        v.set(p, red);
        v.set(p + 2, blue);
        v.set(p + 3, 255u8);
        assert forall|i: int| 0 <= i < p + 4 implies #[trigger] v@[i] == swizzled(original, i) by {
            if i >= p {
                assert(i / 4 == p / 4);
            }
        }
        p = p + 4;
    }
}

/// Segment height, in rows, used when a capture is split into pages: the
/// width times 1.38, rounded half up, and at least one row.
pub open spec fn segment_rows(width: int) -> int {
    let rounded = (138 * width + 50) / 100;
    if rounded >= 1 { rounded } else { 1 }
}

/// A capture is split into pages when it is taller than 2.35 times its width
/// (any capture of width zero counts as taller).
pub open spec fn is_tall(width: int, height: int) -> bool {
    !(width > 0 && 100 * height <= 235 * width)
}

/// The two frames hold the same image at the same place.
pub open spec fn same_image(a: BgraFrame, b: BgraFrame) -> bool {
    &&& a.origin_x == b.origin_x
    &&& a.origin_y == b.origin_y
    &&& a.width == b.width
    &&& a.height == b.height
    &&& a.stride == b.stride
    &&& a.pixels@ == b.pixels@
}

/// The sum of the heights of `frames`.
pub open spec fn total_height(frames: Seq<BgraFrame>) -> int
    decreases frames.len(),
{
    if frames.len() == 0 {
        0
    } else {
        total_height(frames.drop_last()) + frames.last().height
    }
}

/// The source pixel that a rotated output shows at `(x, y)`, for an output
/// rotation and a source of `sw` by `sh` pixels. Coordinates saturate at zero.
pub open spec fn rotated_source(rotation: Rotation, x: int, y: int, sw: int, sh: int) -> (int, int) {
    let sat = |a: int, b: int| if a >= b { a - b } else { 0 };
    match rotation {
        Rotation::Identity => (x, y),
        Rotation::Rotate90 => (y, sat(sat(sh, 1), x)),
        Rotation::Rotate180 => (sat(sat(sw, 1), x), sat(sat(sh, 1), y)),
        Rotation::Rotate270 => (sat(sat(sw, 1), y), x),
    }
}

/// Where each output rotation takes the pixels of a `sw` by `sh` source
/// (both at least one pixel). A quarter-turn output is `sh` pixels wide and
/// `sw` tall: with a 90-degree rotation its pixel `(x, y)` shows source pixel
/// `(y, sh - 1 - x)`, with a 270-degree rotation source pixel
/// `(sw - 1 - y, x)`; a half-turn output shows `(sw - 1 - x, sh - 1 - y)`
/// and an unrotated one `(x, y)`. Reading a 90-degree output back with a
/// 270-degree rotation gives the source again, and so does reading a
/// half-turn output with a half turn.
pub proof fn lemma_rotations(x: int, y: int, sw: int, sh: int)
    requires
        1 <= sw,
        1 <= sh,
        0 <= x,
        0 <= y,
    ensures
        x < sh && y < sw ==> rotated_source(Rotation::Rotate90, x, y, sw, sh) == (y, sh - 1 - x),
        x < sh && y < sw ==> rotated_source(Rotation::Rotate270, x, y, sw, sh) == (sw - 1 - y, x),
        x < sw && y < sh ==> rotated_source(Rotation::Rotate180, x, y, sw, sh) == (sw - 1 - x, sh - 1 - y),
        rotated_source(Rotation::Identity, x, y, sw, sh) == (x, y),
        x < sw && y < sh ==> ({
            let (u, v) = rotated_source(Rotation::Rotate270, x, y, sh, sw);
            &&& 0 <= u < sh
            &&& 0 <= v < sw
            &&& rotated_source(Rotation::Rotate90, u, v, sw, sh) == (x, y)
        }),
        x < sw && y < sh ==> ({
            let (u, v) = rotated_source(Rotation::Rotate180, x, y, sw, sh);
            &&& 0 <= u < sw
            &&& 0 <= v < sh
            &&& rotated_source(Rotation::Rotate180, u, v, sw, sh) == (x, y)
        }),
{
}

/// How a display output is rotated relative to its desktop coordinates.
#[derive(Clone, Copy, Debug, PartialEq, Eq)]
pub enum Rotation {
    Identity,
    Rotate90,
    Rotate180,
    Rotate270,
}

fn sat_sub_u32(a: u32, b: u32) -> (r: u32)
    ensures
        r == if a >= b { a - b } else { 0 },
{
    if a >= b { a - b } else { 0 }
}

/// Fills each pixel of a `destination_width` by `destination_height` BGRA
/// buffer from the source pixel that the output rotation maps to it. Pixels
/// whose source lies outside the source keep their bytes, as do all bytes
/// outside the destination rows.
pub fn copy_or_rotate(
    source: &Vec<u8>,
    source_stride: usize,
    source_width: u32,
    source_height: u32,
    destination: &mut Vec<u8>,
    destination_stride: usize,
    destination_width: u32,
    destination_height: u32,
    rotation: Rotation,
)
    requires
        4 * source_width <= source_stride,
        source_stride * source_height <= source@.len(),
        4 * destination_width <= destination_stride,
        destination_stride * destination_height <= old(destination)@.len(),
    ensures
        final(destination)@.len() == old(destination)@.len(),
        forall|x: int, y: int, c: int|
            0 <= x < destination_width && 0 <= y < destination_height && 0 <= c < 4 ==> {
                let (sx, sy) = rotated_source(
                    rotation,
                    x,
                    y,
                    source_width as int,
                    source_height as int,
                );
                #[trigger] at(final(destination)@, destination_stride as int, y, 4 * x + c) == if sx
                    < source_width && sy < source_height {
                    at(source@, source_stride as int, sy, 4 * sx + c)
                } else {
                    at(old(destination)@, destination_stride as int, y, 4 * x + c)
                }
            },
        forall|i: int|
            0 <= i < old(destination)@.len() && !in_rows(i, destination_stride as int, 4 * destination_width, destination_height as int) ==> #[trigger] final(destination)@[i] == old(
                destination,
            )@[i],
{
    let ghost before = destination@;
    let slen = source.len();
    let dlen = destination.len();
    let mut y: u32 = 0;
    while y < destination_height
        invariant
            y <= destination_height,
            4 * source_width <= source_stride,
            source_stride * source_height <= source@.len(),
            4 * destination_width <= destination_stride,
            destination_stride * destination_height <= before.len(),
            destination@.len() == before.len(),
            slen == source@.len(),
            dlen == before.len(),
            forall|x: int, y2: int, c: int|
                0 <= x < destination_width && 0 <= y2 < destination_height && 0 <= c < 4 ==> {
                    let (sx, sy) = rotated_source(
                        rotation,
                        x,
                        y2,
                        source_width as int,
                        source_height as int,
                    );
                    #[trigger] at(destination@, destination_stride as int, y2, 4 * x + c) == if y2
                        < y && sx < source_width && sy < source_height {
                        at(source@, source_stride as int, sy, 4 * sx + c)
                    } else {
                        at(before, destination_stride as int, y2, 4 * x + c)
                    }
                },
            forall|i: int|
                0 <= i < before.len() && !in_rows(i, destination_stride as int, 4 * destination_width, destination_height as int) ==> #[trigger] destination@[i] == before[i],
        decreases destination_height - y,
    {
        let mut x: u32 = 0;
        while x < destination_width
            invariant
                y < destination_height,
                x <= destination_width,
                4 * source_width <= source_stride,
                source_stride * source_height <= source@.len(),
                4 * destination_width <= destination_stride,
                destination_stride * destination_height <= before.len(),
                destination@.len() == before.len(),
                slen == source@.len(),
                dlen == before.len(),
                forall|x2: int, y2: int, c: int|
                    0 <= x2 < destination_width && 0 <= y2 < destination_height && 0 <= c < 4 ==> {
                        let (sx, sy) = rotated_source(
                            rotation,
                            x2,
                            y2,
                            source_width as int,
                            source_height as int,
                        );
                        #[trigger] at(destination@, destination_stride as int, y2, 4 * x2 + c)
                            == if (y2 < y || (y2 == y && x2 < x)) && sx < source_width && sy
                            < source_height {
                            at(source@, source_stride as int, sy, 4 * sx + c)
                        } else {
                            at(before, destination_stride as int, y2, 4 * x2 + c)
                        }
                    },
                forall|i: int|
                    0 <= i < before.len() && !in_rows(i, destination_stride as int, 4 * destination_width, destination_height as int) ==> #[trigger] destination@[i]
                        == before[i],
            decreases destination_width - x,
        {
            let (sx, sy) = match rotation {
                Rotation::Rotate90 => (y, sat_sub_u32(sat_sub_u32(source_height, 1), x)),
                Rotation::Rotate180 => (
                    sat_sub_u32(sat_sub_u32(source_width, 1), x),
                    sat_sub_u32(sat_sub_u32(source_height, 1), y),
                ),
                Rotation::Rotate270 => (sat_sub_u32(sat_sub_u32(source_width, 1), y), x),
                Rotation::Identity => (x, y),
            };
            if sx < source_width && sy < source_height {
                proof {
                    lemma_row_offset(sy as int, 4 * sx + 3, source_height as int, source_stride as int, 4 * source_width as int);
                    lemma_row_offset(y as int, 4 * x + 3, destination_height as int, destination_stride as int, 4 * destination_width as int);
                }
                let src: usize = sy as usize * source_stride + sx as usize * 4;
                let dst: usize = y as usize * destination_stride + x as usize * 4;
                let ghost prev = destination@;
                let mut c: usize = 0;
                while c < 4
                    invariant
                        c <= 4,
                        src + 4 <= source@.len(),
                        dst + 4 <= destination@.len(),
                        slen == source@.len(),
                        dlen == destination@.len(),
                        destination@.len() == prev.len(),
                        forall|i: int| 0 <= i < c ==> #[trigger] destination@[dst + i] == source@[src + i],
                        forall|i: int|
                            0 <= i < prev.len() && !(dst <= i < dst + c) ==> #[trigger] destination@[i]
                                == prev[i],
                    decreases 4 - c,
                {
                    destination.set(dst + c, source[src + c]);
                    c = c + 1;
                }
                proof {
                    assert forall|x2: int, y2: int, ch: int|
                        0 <= x2 < destination_width && 0 <= y2 < destination_height && 0 <= ch < 4
                            && (x2 != x || y2 != y) implies #[trigger] at(
                        destination@,
                        destination_stride as int,
                        y2,
                        4 * x2 + ch,
                    ) == at(prev, destination_stride as int, y2, 4 * x2 + ch) by {
                        let k = y2 * destination_stride + 4 * x2 + ch;
                        lemma_row_offset(y2, 4 * x2 + ch, destination_height as int, destination_stride as int, 4 * destination_width as int);
                        if dst <= k < dst + 4 {
                            lemma_row_offset_injective(y2, 4 * x2 + ch, y as int, 4 * x + (k - dst), destination_stride as int);
                        }
                    }
                    assert forall|i: int|
                        0 <= i < before.len() && !in_rows(i, destination_stride as int, 4 * destination_width, destination_height as int) implies #[trigger] destination@[i]
                        == before[i] by {
                        if dst <= i < dst + 4 {
                            assert(i == offset(destination_stride as int, y as int, 4 * x + (i - dst)));
                        }
                    }
                    assert forall|ch: int| 0 <= ch < 4 implies #[trigger] at(
                        destination@,
                        destination_stride as int,
                        y as int,
                        4 * x + ch,
                    ) == at(source@, source_stride as int, sy as int, 4 * sx + ch) by {
                        assert(destination@[dst + ch] == source@[src + ch]);
                    }
                }
            }
            x = x + 1;
        }
        y = y + 1;
    }
}

/// `out` holds the pixels of `f` as packed RGBA rows with full alpha.
pub open spec fn is_rgba_of(out: Seq<u8>, f: BgraFrame) -> bool {
    forall|x: int, y: int|
        0 <= x < f.width && 0 <= y < f.height ==> {
            &&& #[trigger] at(out, 4 * f.width, y, 4 * x) == f.byte(x, y, 2)
            &&& at(out, 4 * f.width, y, 4 * x + 1) == f.byte(x, y, 1)
            &&& at(out, 4 * f.width, y, 4 * x + 2) == f.byte(x, y, 0)
            &&& at(out, 4 * f.width, y, 4 * x + 3) == 255
        }
}

impl BgraFrame {
    /// A field-for-field copy of the frame.
    pub fn duplicate(&self) -> (r: Self)
        ensures
            same_image(r, *self),
    {
        BgraFrame {
            origin_x: self.origin_x,
            origin_y: self.origin_y,
            width: self.width,
            height: self.height,
            stride: self.stride,
            pixels: copy_bytes(&self.pixels),
        }
    }

    /// The pixel rows packed without padding: the buffer itself when its
    /// rows are already `4 * width` bytes apart, else `height` rows of
    /// `4 * width` bytes.
    pub fn tight_bgra(&self) -> (out: Vec<u8>)
        requires
            self.wf(),
        ensures
            self.stride == 4 * self.width ==> out@ == self.pixels@,
            self.stride != 4 * self.width ==> {
                &&& out@.len() == 4 * self.width * self.height
                &&& forall|y: int, col: int|
                    0 <= y < self.height && 0 <= col < 4 * self.width ==> #[trigger] at(
                        out@,
                        4 * self.width,
                        y,
                        col,
                    ) == at(self.pixels@, self.stride as int, y, col)
            },
    {
        let tight_stride = self.width as usize * 4;
        if self.stride == tight_stride {
            return copy_bytes(&self.pixels);
        }
        proof {
            assert((self.height as int) * (self.stride as int) == (self.stride as int) * (self.height as int)) by (nonlinear_arith);
        }
        let out = copy_rows(&self.pixels, self.stride, 0, 0, self.height as usize, tight_stride);
        proof {
            assert((self.height as int) * (tight_stride as int) == 4 * ((self.width as int) * (self.height as int))) by (nonlinear_arith)
                requires tight_stride == 4 * self.width;
            assert((self.height as int) * (tight_stride as int) == 4 * (self.width as int) * (self.height as int)) by (nonlinear_arith)
                requires tight_stride == 4 * self.width;
        }
        out
    }

    /// The pixels as tightly packed RGBA rows with full alpha: each BGRA pixel
    /// `[b, g, r, a]` becomes `[r, g, b, 255]`.
    pub fn rgba_pixels(&self) -> (out: Vec<u8>)
        requires
            self.wf(),
        ensures
            out@.len() == 4 * self.width * self.height,
            is_rgba_of(out@, *self),
    {
        let tight_stride = self.width as usize * 4;
        proof {
            assert((self.height as int) * (self.stride as int) == (self.stride as int) * (self.height as int)) by (nonlinear_arith);
        }
        let mut out = copy_rows(&self.pixels, self.stride, 0, 0, self.height as usize, tight_stride);
        let ghost packed = out@;
        proof {
            assert((self.height as int) * (tight_stride as int) == 4 * ((self.width as int) * (self.height as int))) by (nonlinear_arith)
                requires tight_stride == 4 * self.width;
            assert((self.height as int) * (tight_stride as int) == 4 * (self.width as int) * (self.height as int)) by (nonlinear_arith)
                requires tight_stride == 4 * self.width;
        }
        swizzle_to_rgba(&mut out);
        proof {
            assert(out@.len() == 4 * self.width * self.height);
            assert forall|x: int, y: int|
                0 <= x < self.width && 0 <= y < self.height implies {
                    &&& #[trigger] at(out@, 4 * self.width, y, 4 * x) == self.byte(x, y, 2)
                    &&& at(out@, 4 * self.width, y, 4 * x + 1) == self.byte(x, y, 1)
                    &&& at(out@, 4 * self.width, y, 4 * x + 2) == self.byte(x, y, 0)
                    &&& at(out@, 4 * self.width, y, 4 * x + 3) == 255
                } by {
                let w4 = 4 * self.width;
                let base = y * w4 + 4 * x;
                lemma_row_offset(y, 4 * x + 3, self.height as int, w4, w4);
                assert(y * w4 + 4 * x == 4 * (y * self.width + x)) by (nonlinear_arith)
                    requires w4 == 4 * self.width;
                assert((base) / 4 == y * self.width + x);
                assert((base + 1) / 4 == y * self.width + x);
                assert((base + 2) / 4 == y * self.width + x);
                assert((base + 3) / 4 == y * self.width + x);
                assert(at(packed, w4, y, 4 * x + 2) == self.byte(x, y, 2));
                assert(at(packed, w4, y, 4 * x + 1) == self.byte(x, y, 1));
                assert(at(packed, w4, y, 4 * x) == self.byte(x, y, 0));
            }
            assert(is_rgba_of(out@, *self));
        }
        out
    }
}


/// Rows `[row0, row0 + rows)` of `frame`, as a frame of their own with
/// tightly packed rows.
pub open spec fn is_band_of(band: BgraFrame, frame: BgraFrame, row0: int, rows: int) -> bool {
    &&& band.origin_x == frame.origin_x
    &&& band.origin_y == frame.origin_y + row0
    &&& band.width == frame.width
    &&& band.height == rows
    &&& band.stride == 4 * frame.width
    &&& band.pixels@.len() == band.stride * band.height
    &&& forall|x: int, r: int, ch: int|
        0 <= x < frame.width && 0 <= r < rows && 0 <= ch < 4 ==> #[trigger] band.byte(x, r, ch)
            == frame.byte(x, row0 + r, ch)
}

/// Splits a capture that is too tall for one page into bands of
/// `segment_rows(width)` rows (the last band holds what is left). A capture
/// that is not tall comes back whole, as a single copy.
pub fn split_tall_capture(frame: &BgraFrame) -> (segments: Vec<BgraFrame>)
    requires
        frame.wf(),
        frame.bounds_fit(),
    ensures
        !is_tall(frame.width as int, frame.height as int) ==> segments@.len() == 1 && same_image(
            segments@[0],
            *frame,
        ),
        is_tall(frame.width as int, frame.height as int) ==> {
            let seg = segment_rows(frame.width as int);
            &&& segments@.len() * seg >= frame.height
            &&& segments@.len() == 0 || (segments@.len() - 1) * seg < frame.height
            &&& total_height(segments@) == frame.height
            &&& forall|k: int|
                0 <= k < segments@.len() ==> is_band_of(
                    #[trigger] segments@[k],
                    *frame,
                    k * seg,
                    min_int(seg, frame.height - k * seg),
                )
        },
{
    let width = frame.width;
    let height = frame.height;
    if !(width > 0 && 100 * (height as u64) <= 235 * (width as u64)) {
        // tall: fall through to splitting
    } else {
        let mut whole: Vec<BgraFrame> = Vec::new();
        whole.push(frame.duplicate());
        return whole;
    }
    let rounded: u64 = (138 * (width as u64) + 50) / 100;
    let seg: u64 = if rounded >= 1 { rounded } else { 1 };
    let ghost segi = segment_rows(width as int);
    assert(seg == segi);
    let stride: usize = width as usize * 4;
    let mut segments: Vec<BgraFrame> = Vec::new();
    let mut y: u32 = 0;
    let ghost mut k: int = 0;
    while y < height
        invariant
            frame.wf(),
            frame.bounds_fit(),
            width == frame.width,
            height == frame.height,
            stride == 4 * width,
            seg == segi,
            segi >= 1,
            y <= height,
            segments@.len() == k,
            y == height || y == k * segi,
            y == height ==> k * segi >= height,
            k == 0 || (k - 1) * segi < height,
            total_height(segments@) == y,
            forall|j: int|
                0 <= j < k ==> is_band_of(
                    #[trigger] segments@[j],
                    *frame,
                    j * segi,
                    min_int(segi, height - j * segi),
                ),
        decreases height - y,
    {
        let left: u64 = (height - y) as u64;
        let rows: u32 = if seg < left { seg as u32 } else { left as u32 };
        proof {
            assert((y + rows) * frame.stride <= frame.stride * frame.height) by (nonlinear_arith)
                requires
                    y + rows <= frame.height,
            ;
        }
        let pixels = copy_rows(&frame.pixels, frame.stride, y as usize, 0, rows as usize, stride);
        let band = BgraFrame {
            origin_x: frame.origin_x,
            origin_y: frame.origin_y + y as i32,
            width,
            height: rows,
            stride,
            pixels,
        };
        proof {
            assert((rows as int) * (stride as int) == (stride as int) * (rows as int)) by (nonlinear_arith);
            assert forall|x: int, r: int, ch: int|
                0 <= x < frame.width && 0 <= r < rows && 0 <= ch < 4 implies #[trigger] band.byte(
                    x,
                    r,
                    ch,
                ) == frame.byte(x, y + r, ch) by {
                assert(at(band.pixels@, stride as int, r, 4 * x + ch) == at(
                    frame.pixels@,
                    frame.stride as int,
                    y + r,
                    4 * x + ch,
                ));
            }
            assert(is_band_of(band, *frame, k * segi, min_int(segi, height - k * segi)));
        }
        let ghost old_segments = segments@;
        segments.push(band);
        proof {
            assert(segments@.drop_last() =~= old_segments);
            assert forall|j: int|
                0 <= j < k + 1 implies is_band_of(
                    #[trigger] segments@[j],
                    *frame,
                    j * segi,
                    min_int(segi, height - j * segi),
                ) by {
                if j < k {
                    assert(segments@[j] == old_segments[j]);
                }
            }
            assert((k + 1) * segi == k * segi + segi) by (nonlinear_arith);
            k = k + 1;
        }
        y = y + rows;
    }
    segments
}

/// No row of a split capture is lost: row `y` of the capture is row
/// `y % seg` of band `y / seg`, and that row lies inside the band.
pub proof fn lemma_split_covers_every_row(frame: BgraFrame, segments: Seq<BgraFrame>, y: int)
    requires
        is_tall(frame.width as int, frame.height as int),
        segments.len() * segment_rows(frame.width as int) >= frame.height,
        forall|k: int|
            0 <= k < segments.len() ==> is_band_of(
                #[trigger] segments[k],
                frame,
                k * segment_rows(frame.width as int),
                min_int(segment_rows(frame.width as int), frame.height - k * segment_rows(frame.width as int)),
            ),
        0 <= y < frame.height,
    ensures
        ({
            let seg = segment_rows(frame.width as int);
            &&& 0 <= y / seg < segments.len()
            &&& 0 <= y % seg < segments[y / seg].height
            &&& forall|x: int, ch: int|
                0 <= x < frame.width && 0 <= ch < 4 ==> #[trigger] segments[y / seg].byte(
                    x,
                    y % seg,
                    ch,
                ) == frame.byte(x, y, ch)
        }),
{
    let seg = segment_rows(frame.width as int);
    vstd::arithmetic::div_mod::lemma_fundamental_div_mod(y, seg);
    vstd::arithmetic::div_mod::lemma_mod_bound(y, seg);
    let k = y / seg;
    assert(0 <= k) by (nonlinear_arith)
        requires
            0 <= y,
            seg >= 1,
            k == y / seg,
    ;
    if k >= segments.len() {
        assert(k * seg >= segments.len() * seg) by (nonlinear_arith)
            requires
                k >= segments.len(),
                seg >= 1,
        ;
        assert(false);
    }
    assert(k * seg == seg * k) by (nonlinear_arith);
    let band = segments[k];
    assert(is_band_of(band, frame, k * seg, min_int(seg, frame.height - k * seg)));
    assert forall|x: int, ch: int|
        0 <= x < frame.width && 0 <= ch < 4 implies #[trigger] segments[y / seg].byte(x, y % seg, ch)
            == frame.byte(x, y, ch) by {
        assert(band.byte(x, y % seg, ch) == frame.byte(x, k * seg + y % seg, ch));
    }
}

} // verus!
