//! One desktop frame made of the captures of its outputs (monitors), and
//! the checks made on a capture of the whole virtual desktop.

use vstd::prelude::*;
use crate::frame::{at, copy_rows, lemma_row_offset, lemma_row_offset_injective, BgraFrame};
use crate::region::{as_i32, max_int, min_int, to_i32, PixelRect};
use crate::text::{signed_text, signed_decimal_string};

verus! {

/// The capture of one output: its place on the desktop and its pixels.
#[derive(Clone, Debug)]
pub struct OutputCapture {
    pub rect: PixelRect,
    pub width: u32,
    pub height: u32,
    pub stride: usize,
    pub pixels: Vec<u8>,
}

impl OutputCapture {
    /// Every row holds `width` pixels of four bytes, and the buffer holds
    /// `height` rows.
    pub open spec fn wf(self) -> bool {
        &&& 4 * self.width <= self.stride
        &&& self.stride * self.height <= self.pixels@.len()
    }

    /// Channel `c` of the pixel at column `x`, row `y`.
    pub open spec fn byte(self, x: int, y: int, c: int) -> u8 {
        at(self.pixels@, self.stride as int, y, 4 * x + c)
    }
}

/// The smallest rectangle that holds every rectangle of `rects`, as a fold
/// from the empty extremes: left and top start at `i32::MAX`, right and
/// bottom at `i32::MIN`.
pub open spec fn union_bounds(rects: Seq<PixelRect>) -> PixelRect
    decreases rects.len(),
{
    if rects.len() == 0 {
        PixelRect { left: i32::MAX, top: i32::MAX, right: i32::MIN, bottom: i32::MIN }
    } else {
        let b = union_bounds(rects.drop_last());
        let r = rects.last();
        PixelRect {
            left: min_int(b.left as int, r.left as int) as i32,
            top: min_int(b.top as int, r.top as int) as i32,
            right: max_int(b.right as int, r.right as int) as i32,
            bottom: max_int(b.bottom as int, r.bottom as int) as i32,
        }
    }
}

/// The desktop rectangle that the outputs `rects` cover together.
pub fn desktop_bounds(rects: &Vec<PixelRect>) -> (b: PixelRect)
    ensures
        b == union_bounds(rects@),
{
    let mut b = PixelRect { left: i32::MAX, top: i32::MAX, right: i32::MIN, bottom: i32::MIN };
    let mut i: usize = 0;
    while i < rects.len()
        invariant
            i <= rects@.len(),
            b == union_bounds(rects@.subrange(0, i as int)),
        decreases rects@.len() - i,
    {
        let r = rects[i];
        assert(rects@.subrange(0, i + 1).drop_last() =~= rects@.subrange(0, i as int));
        b = PixelRect {
            left: if r.left < b.left {
                r.left
            } else {
                b.left
            },
            top: if r.top < b.top {
                r.top
            } else {
                b.top
            },
            right: if r.right > b.right {
                r.right
            } else {
                b.right
            },
            bottom: if r.bottom > b.bottom {
                r.bottom
            } else {
                b.bottom
            },
        };
        i = i + 1;
    }
    assert(rects@.subrange(0, rects@.len() as int) =~= rects@);
    b
}

/// Every output lies inside the desktop bounds.
pub proof fn lemma_union_holds_each(rects: Seq<PixelRect>, k: int)
    requires
        0 <= k < rects.len(),
    ensures
        union_bounds(rects).left <= rects[k].left,
        union_bounds(rects).top <= rects[k].top,
        rects[k].right <= union_bounds(rects).right,
        rects[k].bottom <= union_bounds(rects).bottom,
    decreases rects.len(),
{
    if k < rects.len() - 1 {
        lemma_union_holds_each(rects.drop_last(), k);
        assert(rects.drop_last()[k] == rects[k]);
    }
}

/// Byte `c` of the desktop pixel at column `x`, row `y` of a frame whose
/// top-left corner is `(left, top)`, made of the captures `caps` drawn in
/// order: that of the last capture that covers the pixel, or 0 when none
/// does.
pub open spec fn composed_byte(caps: Seq<OutputCapture>, left: int, top: int, x: int, y: int, c: int) -> u8
    decreases caps.len(),
{
    if caps.len() == 0 {
        0
    } else {
        let k = caps.last();
        let ox = k.rect.left - left;
        let oy = k.rect.top - top;
        if ox <= x < ox + k.width && oy <= y < oy + k.height {
            k.byte(x - ox, y - oy, c)
        } else {
            composed_byte(caps.drop_last(), left, top, x, y, c)
        }
    }
}

/// Whether capture `cap` covers the desktop pixel `(x, y)` of a frame whose
/// top-left corner is `(left, top)`.
pub open spec fn covers(cap: OutputCapture, left: int, top: int, x: int, y: int) -> bool {
    let ox = cap.rect.left - left;
    let oy = cap.rect.top - top;
    ox <= x < ox + cap.width && oy <= y < oy + cap.height
}

/// Stitching keeps every output's pixels in place: a desktop pixel covered
/// by output `k` and by no later output shows that output's pixel.
pub proof fn lemma_output_pixel_kept(
    caps: Seq<OutputCapture>,
    left: int,
    top: int,
    k: int,
    x: int,
    y: int,
    c: int,
)
    requires
        0 <= k < caps.len(),
        covers(caps[k], left, top, x, y),
        forall|j: int| k < j < caps.len() ==> !covers(#[trigger] caps[j], left, top, x, y),
    ensures
        composed_byte(caps, left, top, x, y, c) == caps[k].byte(
            x - (caps[k].rect.left - left),
            y - (caps[k].rect.top - top),
            c,
        ),
    decreases caps.len(),
{
    if k < caps.len() - 1 {
        let rest = caps.drop_last();
        assert(!covers(caps[caps.len() - 1], left, top, x, y));
        assert forall|j: int| k < j < rest.len() implies !covers(#[trigger] rest[j], left, top, x, y) by {
            assert(rest[j] == caps[j]);
        }
        lemma_output_pixel_kept(rest, left, top, k, x, y, c);
        assert(rest[k] == caps[k]);
    }
}

/// Copies `rows` rows of `row_bytes` bytes of `src` (rows `src_stride`
/// bytes apart) into `dst` (rows `dst_stride` bytes apart) at row `dy`,
/// byte `dx`; every other byte of `dst` is kept.
fn blit(
    dst: &mut Vec<u8>,
    dst_stride: usize,
    dst_rows: usize,
    dx: usize,
    dy: usize,
    src: &Vec<u8>,
    src_stride: usize,
    row_bytes: usize,
    rows: usize,
)
    requires
        dx + row_bytes <= dst_stride,
        dy + rows <= dst_rows,
        dst_rows * dst_stride <= old(dst)@.len(),
        row_bytes <= src_stride,
        rows * src_stride <= src@.len(),
    ensures
        final(dst)@.len() == old(dst)@.len(),
        forall|r: int, c: int|
            0 <= r < dst_rows && 0 <= c < dst_stride ==> #[trigger] at(final(dst)@, dst_stride as int, r, c)
                == if dy <= r < dy + rows && dx <= c < dx + row_bytes {
                at(src@, src_stride as int, r - dy, c - dx)
            } else {
                at(old(dst)@, dst_stride as int, r, c)
            },
{
    let ghost d0 = dst@;
    let dlen = dst.len();
    let slen = src.len();
    let mut r: usize = 0;
    while r < rows
        invariant
            dlen == d0.len(),
            slen == src@.len(),
            dx + row_bytes <= dst_stride,
            dy + rows <= dst_rows,
            dst_rows * dst_stride <= d0.len(),
            row_bytes <= src_stride,
            rows * src_stride <= src@.len(),
            r <= rows,
            dst@.len() == d0.len(),
            forall|r2: int, c2: int|
                0 <= r2 < dst_rows && 0 <= c2 < dst_stride ==> #[trigger] at(dst@, dst_stride as int, r2, c2)
                    == if dy <= r2 < dy + r && dx <= c2 < dx + row_bytes {
                    at(src@, src_stride as int, r2 - dy, c2 - dx)
                } else {
                    at(d0, dst_stride as int, r2, c2)
                },
        decreases rows - r,
    {
        assert((dy + r) * dst_stride + dst_stride <= dst_rows * dst_stride) by (nonlinear_arith)
            requires
                dy + r < dst_rows,
                0 <= dst_stride,
        ;
        assert(r * src_stride + src_stride <= rows * src_stride) by (nonlinear_arith)
            requires
                r < rows,
                0 <= src_stride,
        ;
        let drow: usize = (dy + r) * dst_stride + dx;
        let srow: usize = r * src_stride;
        let mut c: usize = 0;
        while c < row_bytes
            invariant
                dlen == d0.len(),
                slen == src@.len(),
                dx + row_bytes <= dst_stride,
                dy + rows <= dst_rows,
                dst_rows * dst_stride <= d0.len(),
                row_bytes <= src_stride,
                rows * src_stride <= src@.len(),
                r < rows,
                c <= row_bytes,
                drow == (dy + r) * dst_stride + dx,
                drow + row_bytes <= dst_rows * dst_stride,
                srow == r * src_stride,
                srow + src_stride <= src@.len(),
                dst@.len() == d0.len(),
                forall|r2: int, c2: int|
                    0 <= r2 < dst_rows && 0 <= c2 < dst_stride ==> #[trigger] at(
                        dst@,
                        dst_stride as int,
                        r2,
                        c2,
                    ) == if (dy <= r2 < dy + r && dx <= c2 < dx + row_bytes) || (r2 == dy + r && dx <= c2
                        < dx + c) {
                        at(src@, src_stride as int, r2 - dy, c2 - dx)
                    } else {
                        at(d0, dst_stride as int, r2, c2)
                    },
            decreases row_bytes - c,
        {
            let ghost before = dst@;
            let value = src[srow + c];
            dst.set(drow + c, value);
            proof {
                assert forall|r2: int, c2: int|
                    0 <= r2 < dst_rows && 0 <= c2 < dst_stride implies #[trigger] at(
                        dst@,
                        dst_stride as int,
                        r2,
                        c2,
                    ) == if (dy <= r2 < dy + r && dx <= c2 < dx + row_bytes) || (r2 == dy + r && dx <= c2
                        < dx + c + 1) {
                        at(src@, src_stride as int, r2 - dy, c2 - dx)
                    } else {
                        at(d0, dst_stride as int, r2, c2)
                    } by {
                    lemma_row_offset(r2, c2, dst_rows as int, dst_stride as int, dst_stride as int);
                    if r2 * dst_stride + c2 == drow + c {
                        lemma_row_offset_injective(r2, c2, dy + r, dx + c, dst_stride as int);
                    } else {
                        assert(at(dst@, dst_stride as int, r2, c2) == at(before, dst_stride as int, r2, c2));
                    }
                }
            }
            c = c + 1;
        }
        r = r + 1;
    }
}

/// Every capture of `caps` is well formed and lies inside the `width` by
/// `height` desktop whose top-left corner is `(left, top)`.
pub open spec fn placed_inside(caps: Seq<OutputCapture>, left: int, top: int, width: int, height: int) -> bool {
    forall|k: int|
        0 <= k < caps.len() ==> {
            let cap = #[trigger] caps[k];
            &&& cap.wf()
            &&& left <= cap.rect.left
            &&& top <= cap.rect.top
            &&& cap.rect.left - left + cap.width <= width
            &&& cap.rect.top - top + cap.height <= height
        }
}

/// The desktop frame covering `bounds` made of the output captures `caps`,
/// drawn in order onto black: each pixel is that of the last capture that
/// covers it, or zero; see `composed_byte`.
pub fn compose_outputs(bounds: PixelRect, caps: &Vec<OutputCapture>) -> (frame: BgraFrame)
    requires
        bounds.left <= bounds.right,
        bounds.top <= bounds.bottom,
        bounds.right - bounds.left <= i32::MAX,
        bounds.bottom - bounds.top <= i32::MAX,
        4 * (bounds.right - bounds.left) <= usize::MAX,
        4 * (bounds.right - bounds.left) * (bounds.bottom - bounds.top) <= usize::MAX,
        placed_inside(
            caps@,
            bounds.left as int,
            bounds.top as int,
            bounds.right - bounds.left,
            bounds.bottom - bounds.top,
        ),
    ensures
        frame.origin_x == bounds.left,
        frame.origin_y == bounds.top,
        frame.width == bounds.right - bounds.left,
        frame.height == bounds.bottom - bounds.top,
        frame.stride == 4 * frame.width,
        frame.pixels@.len() == frame.stride * frame.height,
        frame.wf(),
        forall|x: int, y: int, c: int|
            0 <= x < frame.width && 0 <= y < frame.height && 0 <= c < 4 ==> #[trigger] frame.byte(x, y, c)
                == composed_byte(caps@, bounds.left as int, bounds.top as int, x, y, c),
{
    let width: u32 = bounds.width();
    let height: u32 = bounds.height();
    let stride: usize = width as usize * 4;
    assert(stride * height == 4 * (bounds.right - bounds.left) * (bounds.bottom - bounds.top)) by (
    nonlinear_arith)
        requires
            stride == 4 * width,
            width == bounds.right - bounds.left,
            height == bounds.bottom - bounds.top,
    ;
    let total: usize = stride * height as usize;
    let mut pixels: Vec<u8> = Vec::new();
    let mut n: usize = 0;
    while n < total
        invariant
            n <= total,
            pixels@.len() == n,
            forall|i: int| 0 <= i < n ==> #[trigger] pixels@[i] == 0,
        decreases total - n,
    {
        pixels.push(0);
        n = n + 1;
    }
    let ghost left = bounds.left as int;
    let ghost top = bounds.top as int;
    assert forall|x: int, y: int, c: int|
        0 <= x < width && 0 <= y < height && 0 <= c < 4 implies #[trigger] at(
            pixels@,
            stride as int,
            y,
            4 * x + c,
        ) == composed_byte(caps@.subrange(0, 0), left, top, x, y, c) by {
        lemma_row_offset(y, 4 * x + c, height as int, stride as int, stride as int);
    }
    let mut k: usize = 0;
    while k < caps.len()
        invariant
            k <= caps@.len(),
            width == bounds.right - bounds.left,
            height == bounds.bottom - bounds.top,
            stride == 4 * width,
            total == stride * height,
            pixels@.len() == total,
            left == bounds.left,
            top == bounds.top,
            placed_inside(caps@, left, top, width as int, height as int),
            forall|x: int, y: int, c: int|
                0 <= x < width && 0 <= y < height && 0 <= c < 4 ==> #[trigger] at(
                    pixels@,
                    stride as int,
                    y,
                    4 * x + c,
                ) == composed_byte(caps@.subrange(0, k as int), left, top, x, y, c),
        decreases caps@.len() - k,
    {
        let cap = &caps[k];
        assert(caps@[k as int] == *cap);
        let ox: usize = (cap.rect.left as i64 - bounds.left as i64) as usize;
        let oy: usize = (cap.rect.top as i64 - bounds.top as i64) as usize;
        let ghost before = pixels@;
        proof {
            assert(cap.height * cap.stride <= cap.pixels@.len()) by (nonlinear_arith)
                requires
                    cap.stride * cap.height <= cap.pixels@.len(),
            ;
        }
        blit(
            &mut pixels,
            stride,
            height as usize,
            4 * ox,
            oy,
            &cap.pixels,
            cap.stride,
            4 * cap.width as usize,
            cap.height as usize,
        );
        proof {
            let pre = caps@.subrange(0, k + 1);
            assert(pre.drop_last() =~= caps@.subrange(0, k as int));
            assert(pre.last() == *cap);
            assert forall|x: int, y: int, c: int|
                0 <= x < width && 0 <= y < height && 0 <= c < 4 implies #[trigger] at(
                    pixels@,
                    stride as int,
                    y,
                    4 * x + c,
                ) == composed_byte(pre, left, top, x, y, c) by {
                assert(at(before, stride as int, y, 4 * x + c) == composed_byte(
                    caps@.subrange(0, k as int),
                    left,
                    top,
                    x,
                    y,
                    c,
                ));
            }
        }
        k = k + 1;
    }
    assert(caps@.subrange(0, caps@.len() as int) =~= caps@);
    BgraFrame { origin_x: bounds.left, origin_y: bounds.top, width, height, stride, pixels }
}

/// The size of a virtual desktop reported as `width` by `height` pixels:
/// its width, height, row stride and byte count. Fails when a dimension is
/// not positive ("Windows reported invalid virtual desktop dimensions W x
/// H") or the image would not fit in memory ("virtual desktop is too large
/// to capture").
pub fn virtual_desktop_size(width: i32, height: i32) -> (res: Result<(u32, u32, usize, usize), String>)
    ensures
        (width <= 0 || height <= 0) ==> res is Err && res->Err_0@ == "Windows reported invalid virtual desktop dimensions "@
            + signed_text(width as int) + " x "@ + signed_text(height as int),
        (width > 0 && height > 0 && 4 * width * height > usize::MAX) ==> res is Err && res->Err_0@
            == "virtual desktop is too large to capture"@,
        (width > 0 && height > 0 && 4 * width * height <= usize::MAX) ==> res is Ok && res->Ok_0 == (
            width as u32,
            height as u32,
            (4 * width) as usize,
            (4 * width * height) as usize,
        ),
{
    if width <= 0 || height <= 0 {
        let mut message = String::from_str("Windows reported invalid virtual desktop dimensions ");
        let w = signed_decimal_string(width as i64);
        message.append(w.as_str());
        message.append(" x ");
        let h = signed_decimal_string(height as i64);
        message.append(h.as_str());
        return Err(message);
    }
    let w = width as u32;
    let h = height as u32;
    let stride: usize = match (w as usize).checked_mul(4) {
        Some(stride) => stride,
        None => {
            assert(4 * width * height > usize::MAX) by (nonlinear_arith)
                requires
                    4 * width > usize::MAX,
                    height >= 1,
            ;
            return Err(String::from_str("virtual desktop is too large to capture"));
        },
    };
    match stride.checked_mul(h as usize) {
        Some(count) => {
            assert(count == 4 * width * height) by (nonlinear_arith)
                requires
                    count == stride * h,
                    stride == 4 * w,
                    w == width,
                    h == height,
            ;
            Ok((w, h, stride, count))
        },
        None => {
            assert(4 * width * height > usize::MAX) by (nonlinear_arith)
                requires
                    stride * h > usize::MAX,
                    stride == 4 * w,
                    w == width,
                    h == height,
            ;
            Err(String::from_str("virtual desktop is too large to capture"))
        },
    }
}

/// How many rows of a desktop bitmap a copy delivered.
#[derive(Clone, Debug, PartialEq, Eq)]
pub enum RowCopy {
    /// Every row arrived.
    Complete,
    /// No row arrived; the system's last error says why.
    Failed,
    /// Only some rows arrived, as the message says.
    Partial(String),
}

/// Whether copying a `height`-row bitmap, which delivered `copied` rows,
/// succeeded: complete when every row arrived (the count compared with the
/// height read as `i32`), failed when none did, and "GetDIBits copied N of
/// H rows" otherwise.
pub fn check_copied_rows(copied: i32, height: u32) -> (res: RowCopy)
    ensures
        copied == as_i32(height as int) ==> res == RowCopy::Complete,
        copied != as_i32(height as int) && copied == 0 ==> res == RowCopy::Failed,
        copied != as_i32(height as int) && copied != 0 ==> res is Partial && res->Partial_0@ == "GetDIBits copied "@
            + signed_text(copied as int) + " of "@ + signed_text(height as int) + " rows"@,
{
    if copied == to_i32(height) {
        RowCopy::Complete
    } else if copied == 0 {
        RowCopy::Failed
    } else {
        let mut message = String::from_str("GetDIBits copied ");
        let c = signed_decimal_string(copied as i64);
        message.append(c.as_str());
        message.append(" of ");
        let h = signed_decimal_string(height as i64);
        message.append(h.as_str());
        message.append(" rows");
        RowCopy::Partial(message)
    }
}

/// A bitmap from the screen carries no meaningful alpha: the pixels with
/// every fourth byte, from the fourth on, set to 255 (opaque).
pub fn make_opaque_bytes(pixels: &mut Vec<u8>)
    ensures
        final(pixels)@.len() == old(pixels)@.len(),
        forall|i: int|
            0 <= i < old(pixels)@.len() ==> #[trigger] final(pixels)@[i] == if i % 4 == 3 {
                255u8
            } else {
                old(pixels)@[i]
            },
{
    let ghost p0 = pixels@;
    let n = pixels.len();
    let count = n / 4;
    let mut p: usize = 0;
    while p < count
        invariant
            n == p0.len(),
            count == n / 4,
            p <= count,
            pixels@.len() == n,
            forall|k: int|
                0 <= k < n ==> #[trigger] pixels@[k] == if k % 4 == 3 && k / 4 < p {
                    255u8
                } else {
                    p0[k]
                },
        decreases count - p,
    {
        pixels.set(4 * p + 3, 255);
        p = p + 1;
    }
}

/// The image put on the clipboard: a 32-bit bitmap `width` pixels wide
/// whose rows run top-down (a negative `height`), `image_size` bytes of
/// tightly packed BGRA rows.
#[derive(Clone, Debug)]
pub struct ClipboardBitmap {
    pub width: i32,
    pub height: i32,
    pub image_size: u32,
    pub pixels: Vec<u8>,
}

/// The clipboard bitmap of `frame`: its size (read as `i32`), a negative
/// height for top-down rows, the byte count of the pixels (as a 32-bit
/// field), and its rows without padding.
pub fn clipboard_bitmap(frame: &BgraFrame) -> (b: ClipboardBitmap)
    requires
        frame.wf(),
        frame.height != 0x8000_0000,
        4 * frame.width * frame.height <= usize::MAX,
    ensures
        b.width == as_i32(frame.width as int),
        b.height == -as_i32(frame.height as int),
        b.image_size == (4 * frame.width * frame.height) % 0x1_0000_0000,
        b.pixels@.len() == 4 * frame.width * frame.height,
        forall|y: int, col: int|
            0 <= y < frame.height && 0 <= col < 4 * frame.width ==> #[trigger] at(
                b.pixels@,
                4 * frame.width,
                y,
                col,
            ) == at(frame.pixels@, frame.stride as int, y, col),
{
    let row_bytes: usize = frame.width as usize * 4;
    assert(frame.height * frame.stride <= frame.pixels@.len()) by (nonlinear_arith)
        requires
            frame.stride * frame.height <= frame.pixels@.len(),
    ;
    let pixels = copy_rows(&frame.pixels, frame.stride, 0, 0, frame.height as usize, row_bytes);
    assert(frame.height * row_bytes == 4 * frame.width * frame.height) by (nonlinear_arith)
        requires
            row_bytes == 4 * frame.width,
    ;
    let size: u64 = (row_bytes * frame.height as usize) as u64;
    let image_size = #[verifier::truncate] (size as u32);
    assert(image_size == size % 0x1_0000_0000) by (bit_vector)
        requires
            image_size == #[verifier::truncate] (size as u32),
    ;
    ClipboardBitmap { width: to_i32(frame.width), height: -to_i32(frame.height), image_size, pixels }
}

} // verus!
