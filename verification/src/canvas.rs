//! A software rasterizer over BGRA pixel buffers.
//!
//! Every drawing operation paints a set of grid pixels: each pixel of the set
//! that lies on the canvas is blended with a color, every other byte keeps its
//! value. `painted` states that effect over the byte sequence.

use vstd::prelude::*;
use crate::frame::at;
use crate::region::min_int;

verus! {

/// A canvas of `w` by `h` pixels whose rows start every `stride` bytes.
pub open spec fn grid_ok(w: int, h: int, stride: int) -> bool {
    0 <= w && 0 <= h && 4 * w <= stride
}

/// Column of the pixel that byte `i` belongs to.
pub open spec fn grid_x(i: int, stride: int) -> int {
    (i % stride) / 4
}

/// Row of the pixel that byte `i` belongs to.
pub open spec fn grid_y(i: int, stride: int) -> int {
    i / stride
}

/// Channel (0 blue, 1 green, 2 red, 3 alpha) that byte `i` holds.
pub open spec fn grid_c(i: int, stride: int) -> int {
    (i % stride) % 4
}

/// Byte `i` is a channel of one of the `w` by `h` canvas pixels.
pub open spec fn in_grid(i: int, w: int, h: int, stride: int) -> bool {
    &&& stride > 0
    &&& 0 <= i
    &&& i / stride < h
    &&& i % stride < 4 * w
}

/// `(src * alpha + dst * (255 - alpha) + 127) / 255`: the rounded blend of
/// one channel.
pub open spec fn mix(src: int, dst: int, alpha: int) -> int {
    (src * alpha + dst * (255 - alpha) + 127) / 255
}

/// The new value of channel `c` of a pixel painted with `color` at `alpha`:
/// an opaque paint copies the color (its alpha byte included); a translucent
/// one blends blue, green and red and makes the pixel opaque.
pub open spec fn paint_byte(old: u8, color: [u8; 4], alpha: u8, c: int) -> u8 {
    if alpha == 255 {
        color@[c]
    } else if c == 3 {
        255u8
    } else {
        mix(color@[c] as int, old as int, alpha as int) as u8
    }
}

/// The bytes `s` after every canvas pixel `(x, y)` with `inside(x, y)` has
/// been painted with `color` at `alpha`.
pub open spec fn painted(
    s: Seq<u8>,
    w: int,
    h: int,
    stride: int,
    inside: spec_fn(int, int) -> bool,
    color: [u8; 4],
    alpha: u8,
) -> Seq<u8> {
    Seq::new(
        s.len(),
        |i: int|
            if in_grid(i, w, h, stride) && inside(grid_x(i, stride), grid_y(i, stride)) {
                paint_byte(s[i], color, alpha, grid_c(i, stride))
            } else {
                s[i]
            },
    )
}

/// The single pixel `(px, py)`.
pub open spec fn single(px: int, py: int) -> spec_fn(int, int) -> bool {
    |x: int, y: int| x == px && y == py
}

/// The pixels of the half-open rectangle `[left, right) x [top, bottom)`.
pub open spec fn rect_set(left: int, top: int, right: int, bottom: int) -> spec_fn(int, int) -> bool {
    |x: int, y: int| left <= x < right && top <= y < bottom
}

/// The pixels in either set.
pub open spec fn union(a: spec_fn(int, int) -> bool, b: spec_fn(int, int) -> bool) -> spec_fn(int, int) -> bool {
    |x: int, y: int| a(x, y) || b(x, y)
}

/// No pixel.
pub open spec fn nothing() -> spec_fn(int, int) -> bool {
    |x: int, y: int| false
}

/// Byte `y * stride + 4 * x + c` of a canvas is channel `c` of pixel `(x, y)`.
pub proof fn lemma_decompose(w: int, h: int, stride: int, x: int, y: int, c: int)
    requires
        grid_ok(w, h, stride),
        0 <= x < w,
        0 <= y < h,
        0 <= c < 4,
    ensures
        in_grid(y * stride + 4 * x + c, w, h, stride),
        grid_x(y * stride + 4 * x + c, stride) == x,
        grid_y(y * stride + 4 * x + c, stride) == y,
        grid_c(y * stride + 4 * x + c, stride) == c,
        y * stride + 4 * x + c < stride * h,
{
    let i = y * stride + 4 * x + c;
    assert(y * stride + stride <= stride * h) by (nonlinear_arith)
        requires
            0 <= y < h,
            0 <= stride,
    ;
    vstd::arithmetic::div_mod::lemma_fundamental_div_mod_converse(i, stride, y, 4 * x + c);
    vstd::arithmetic::div_mod::lemma_fundamental_div_mod_converse(4 * x + c, 4, x, c);
    assert(0 <= y * stride) by (nonlinear_arith)
        requires
            0 <= y,
            0 <= stride,
    ;
}

/// A canvas byte is `y * stride + 4 * x + c` for its own pixel and channel.
pub proof fn lemma_compose(w: int, h: int, stride: int, i: int)
    requires
        grid_ok(w, h, stride),
        in_grid(i, w, h, stride),
    ensures
        i == grid_y(i, stride) * stride + 4 * grid_x(i, stride) + grid_c(i, stride),
        0 <= grid_x(i, stride) < w,
        0 <= grid_y(i, stride) < h,
        0 <= grid_c(i, stride) < 4,
{
    vstd::arithmetic::div_mod::lemma_fundamental_div_mod(i, stride);
    vstd::arithmetic::div_mod::lemma_mod_bound(i, stride);
    vstd::arithmetic::div_mod::lemma_fundamental_div_mod(i % stride, 4);
    vstd::arithmetic::div_mod::lemma_mod_bound(i % stride, 4);
    assert(i / stride * stride == stride * (i / stride)) by (nonlinear_arith);
    assert(0 <= i / stride) by (nonlinear_arith)
        requires
            0 <= i,
            0 < stride,
    ;
}

/// Painting depends on the set only through its canvas pixels.
pub proof fn lemma_painted_ext(
    s: Seq<u8>,
    w: int,
    h: int,
    stride: int,
    a: spec_fn(int, int) -> bool,
    b: spec_fn(int, int) -> bool,
    color: [u8; 4],
    alpha: u8,
)
    requires
        grid_ok(w, h, stride),
        forall|x: int, y: int| 0 <= x < w && 0 <= y < h ==> #[trigger] a(x, y) == b(x, y),
    ensures
        painted(s, w, h, stride, a, color, alpha) == painted(s, w, h, stride, b, color, alpha),
{
    assert forall|i: int| 0 <= i < s.len() implies #[trigger] painted(s, w, h, stride, a, color, alpha)[i]
        == painted(s, w, h, stride, b, color, alpha)[i] by {
        if in_grid(i, w, h, stride) {
            lemma_compose(w, h, stride, i);
        }
    }
    assert(painted(s, w, h, stride, a, color, alpha) =~= painted(s, w, h, stride, b, color, alpha));
}

/// Painting no pixel changes nothing.
pub proof fn lemma_painted_nothing(s: Seq<u8>, w: int, h: int, stride: int, color: [u8; 4], alpha: u8)
    ensures
        painted(s, w, h, stride, nothing(), color, alpha) == s,
{
    assert(painted(s, w, h, stride, nothing(), color, alpha) =~= s);
}

/// Painting a set and then a second set with the same color: an opaque
/// paint, or sets that share no pixel, paint their union.
pub proof fn lemma_painted_union(
    s: Seq<u8>,
    w: int,
    h: int,
    stride: int,
    a: spec_fn(int, int) -> bool,
    b: spec_fn(int, int) -> bool,
    color: [u8; 4],
    alpha: u8,
)
    requires
        grid_ok(w, h, stride),
        alpha == 255 || (forall|x: int, y: int| 0 <= x < w && 0 <= y < h ==> !(#[trigger] a(x, y) && b(x, y))),
    ensures
        painted(painted(s, w, h, stride, a, color, alpha), w, h, stride, b, color, alpha) == painted(
            s,
            w,
            h,
            stride,
            union(a, b),
            color,
            alpha,
        ),
{
    let left = painted(painted(s, w, h, stride, a, color, alpha), w, h, stride, b, color, alpha);
    let right = painted(s, w, h, stride, union(a, b), color, alpha);
    assert forall|i: int| 0 <= i < s.len() implies #[trigger] left[i] == right[i] by {
        if in_grid(i, w, h, stride) {
            lemma_compose(w, h, stride, i);
        }
    }
    assert(left =~= right);
}

/// A mutable BGRA pixel buffer with its geometry.
pub struct Canvas {
    pub pixels: Vec<u8>,
    pub width: usize,
    pub height: usize,
    pub stride: usize,
}

impl Canvas {
    /// The geometry fits the buffer and pixel coordinates fit `i32`.
    pub open spec fn wf(self) -> bool {
        &&& self.width <= i32::MAX
        &&& self.height <= i32::MAX
        &&& 4 * self.width <= self.stride
        &&& self.stride * self.height <= self.pixels@.len()
    }

    /// `painted` on this canvas's bytes and geometry.
    pub open spec fn paint(self, inside: spec_fn(int, int) -> bool, color: [u8; 4], alpha: u8) -> Seq<u8> {
        painted(
            self.pixels@,
            self.width as int,
            self.height as int,
            self.stride as int,
            inside,
            color,
            alpha,
        )
    }

    /// Both canvases have the same geometry.
    pub open spec fn same_shape(self, other: Canvas) -> bool {
        &&& self.width == other.width
        &&& self.height == other.height
        &&& self.stride == other.stride
    }

    /// Paints the single pixel `(x, y)` when it lies on the canvas.
    pub fn pixel(&mut self, x: i32, y: i32, color: [u8; 4], alpha: u8)
        requires
            old(self).wf(),
        ensures
            final(self).same_shape(*old(self)),
            final(self).pixels@ == old(self).paint(single(x as int, y as int), color, alpha),
    {
        if x < 0 || y < 0 || x >= self.width as i32 || y >= self.height as i32 {
            proof {
                let w = self.width as int;
                let h = self.height as int;
                let st = self.stride as int;
                assert forall|i: int| 0 <= i < self.pixels@.len() implies #[trigger] old(self).paint(
                    single(x as int, y as int),
                    color,
                    alpha,
                )[i] == self.pixels@[i] by {
                    if in_grid(i, w, h, st) {
                        lemma_compose(w, h, st, i);
                    }
                }
                assert(self.pixels@ =~= old(self).paint(single(x as int, y as int), color, alpha));
            }
            return;
        }
        let ghost s0 = self.pixels@;
        let ghost w = self.width as int;
        let ghost h = self.height as int;
        let ghost st = self.stride as int;
        proof {
            lemma_decompose(w, h, st, x as int, y as int, 3);
            assert((y as int) * st + st <= h * st) by (nonlinear_arith)
                requires
                    y < h,
                    0 <= st,
            ;
            assert(h * st == st * h) by (nonlinear_arith);
        }
        let total = self.pixels.len();
        assert((y as int) * st + 4 * (x as int) + 3 < total);
        let offset: usize = y as usize * self.stride + x as usize * 4;
        if alpha == 255 {
            self.pixels.set(offset, color[0]);
            self.pixels.set(offset + 1, color[1]);
            self.pixels.set(offset + 2, color[2]);
            self.pixels.set(offset + 3, color[3]);
        } else {
            let a: u16 = alpha as u16;
            let inverse: u16 = 255 - a;
            let mut c: usize = 0;
            while c < 3
                invariant
                    c <= 3,
                    alpha < 255,
                    a == alpha,
                    inverse == 255 - a,
                    offset + 4 <= total,
                    total == s0.len(),
                    self.same_shape(*old(self)),
                    self.pixels@.len() == s0.len(),
                    forall|k: int| 0 <= k < c ==> #[trigger] self.pixels@[offset + k] == mix(
                        color@[k] as int,
                        s0[offset + k] as int,
                        alpha as int,
                    ) as u8,
                    forall|i: int|
                        0 <= i < s0.len() && !(offset <= i < offset + c) ==> #[trigger] self.pixels@[i]
                            == s0[i],
                decreases 3 - c,
            {
                let source: u16 = color[c] as u16;
                let destination: u16 = self.pixels[offset + c] as u16;
                assert(source * a + destination * inverse + 127 <= 65152) by (nonlinear_arith)
                    requires
                        source <= 255,
                        destination <= 255,
                        a + inverse == 255,
                ;
                let value: u16 = (source * a + destination * inverse + 127) / 255;
                self.pixels.set(offset + c, value as u8);
                c = c + 1;
            }
            self.pixels.set(offset + 3, 255u8);
        }
        proof {
            let target = painted(s0, w, h, st, single(x as int, y as int), color, alpha);
            assert forall|i: int| 0 <= i < s0.len() implies #[trigger] self.pixels@[i] == target[i] by {
                if offset <= i < offset + 4 {
                    lemma_decompose(w, h, st, x as int, y as int, i - offset);
                } else if in_grid(i, w, h, st) {
                    lemma_compose(w, h, st, i);
                    if grid_x(i, st) == x && grid_y(i, st) == y {
                        assert(i == offset + grid_c(i, st));
                    }
                }
            }
            assert(self.pixels@ =~= target);
        }
    }
}


/// The bytes `s` with the alpha channel of every canvas pixel set to 255.
pub open spec fn opaque(s: Seq<u8>, w: int, h: int, stride: int) -> Seq<u8> {
    Seq::new(
        s.len(),
        |i: int|
            if in_grid(i, w, h, stride) && grid_c(i, stride) == 3 {
                255u8
            } else {
                s[i]
            },
    )
}

/// The pixels within distance `r` of `(cx, cy)`: `dx * dx + dy * dy <= r * r`.
/// A negative radius holds no pixel.
pub open spec fn disc_set(cx: int, cy: int, r: int) -> spec_fn(int, int) -> bool {
    |x: int, y: int| r >= 0 && (x - cx) * (x - cx) + (y - cy) * (y - cy) <= r * r
}

/// A disc of radius `r` around `(cx, cy)` can be drawn with `i32` arithmetic.
pub open spec fn disc_fits(cx: int, cy: int, r: int) -> bool {
    r < 0 || (r <= 32767 && i32::MIN <= cx - r && cx + r <= i32::MAX && i32::MIN <= cy - r && cy
        + r <= i32::MAX)
}

/// The pixels of `disc_set(cx, cy, r)` whose offset from the center comes
/// before `(rx, ry)` in row-major order.
pub open spec fn disc_done(cx: int, cy: int, r: int, ry: int, rx: int) -> spec_fn(int, int) -> bool {
    |x: int, y: int| disc_set(cx, cy, r)(x, y) && (y - cy < ry || (y - cy == ry && x - cx < rx))
}

/// Within a disc both offsets are at most the radius.
pub proof fn lemma_disc_bounds(dx: int, dy: int, r: int)
    requires
        r >= 0,
        dx * dx + dy * dy <= r * r,
    ensures
        -r <= dx <= r,
        -r <= dy <= r,
{
    assert(0 <= dy * dy) by (nonlinear_arith);
    assert(0 <= dx * dx) by (nonlinear_arith);
    if dx > r {
        assert(dx * dx > r * r) by (nonlinear_arith)
            requires
                dx > r,
                r >= 0,
        ;
    }
    if dx < -r {
        assert(dx * dx > r * r) by (nonlinear_arith)
            requires
                dx < -r,
                r >= 0,
        ;
    }
    if dy > r {
        assert(dy * dy > r * r) by (nonlinear_arith)
            requires
                dy > r,
                r >= 0,
        ;
    }
    if dy < -r {
        assert(dy * dy > r * r) by (nonlinear_arith)
            requires
                dy < -r,
                r >= 0,
        ;
    }
}

fn max_i32(a: i32, b: i32) -> (r: i32)
    ensures
        r == if a >= b { a } else { b },
{
    if a >= b { a } else { b }
}

fn min_i32(a: i32, b: i32) -> (r: i32)
    ensures
        r == if a <= b { a } else { b },
{
    if a <= b { a } else { b }
}

impl Canvas {
    /// Paints every canvas pixel of `[left, right) x [top, bottom)`.
    pub fn fill_rect(&mut self, left: i32, top: i32, right: i32, bottom: i32, color: [u8; 4], alpha: u8)
        requires
            old(self).wf(),
        ensures
            final(self).same_shape(*old(self)),
            final(self).wf(),
            final(self).pixels@ == old(self).paint(
                rect_set(left as int, top as int, right as int, bottom as int),
                color,
                alpha,
            ),
    {
        let ghost s0 = self.pixels@;
        let ghost w = self.width as int;
        let ghost h = self.height as int;
        let ghost st = self.stride as int;
        let y0 = max_i32(top, 0);
        let y1 = min_i32(bottom, self.height as i32);
        let x0 = max_i32(left, 0);
        let x1 = min_i32(right, self.width as i32);
        proof {
            lemma_painted_nothing(s0, w, h, st, color, alpha);
            lemma_painted_ext(s0, w, h, st, nothing(), rect_set(x0 as int, y0 as int, x1 as int, y0 as int), color, alpha);
        }
        let mut y = y0;
        while y < y1
            invariant
                self.wf(),
                self.same_shape(*old(self)),
                w == self.width,
                h == self.height,
                st == self.stride,
                s0 == old(self).pixels@,
                y0 <= y,
                y <= y1 || y == y0,
                y1 <= h,
                x1 <= w,
                0 <= x0,
                0 <= y0,
                self.pixels@ == painted(s0, w, h, st, rect_set(x0 as int, y0 as int, x1 as int, y as int), color, alpha),
            decreases y1 - y,
        {
            let mut x = x0;
            while x < x1
                invariant
                    self.wf(),
                    self.same_shape(*old(self)),
                    w == self.width,
                    h == self.height,
                    st == self.stride,
                    y0 <= y < y1,
                    y1 <= h,
                    x1 <= w,
                    0 <= x0,
                    0 <= y0,
                    x0 <= x,
                    x <= x1 || x == x0,
                    self.pixels@ == painted(
                        s0,
                        w,
                        h,
                        st,
                        union(rect_set(x0 as int, y0 as int, x1 as int, y as int), rect_set(x0 as int, y as int, x as int, y + 1)),
                        color,
                        alpha,
                    ),
                decreases x1 - x,
            {
                let ghost a = union(rect_set(x0 as int, y0 as int, x1 as int, y as int), rect_set(x0 as int, y as int, x as int, y + 1));
                self.pixel(x, y, color, alpha);
                proof {
                    lemma_painted_union(s0, w, h, st, a, single(x as int, y as int), color, alpha);
                    lemma_painted_ext(
                        s0,
                        w,
                        h,
                        st,
                        union(a, single(x as int, y as int)),
                        union(rect_set(x0 as int, y0 as int, x1 as int, y as int), rect_set(x0 as int, y as int, x + 1, y + 1)),
                        color,
                        alpha,
                    );
                }
                x = x + 1;
            }
            proof {
                lemma_painted_ext(
                    s0,
                    w,
                    h,
                    st,
                    union(rect_set(x0 as int, y0 as int, x1 as int, y as int), rect_set(x0 as int, y as int, x as int, y + 1)),
                    rect_set(x0 as int, y0 as int, x1 as int, y + 1),
                    color,
                    alpha,
                );
            }
            y = y + 1;
        }
        proof {
            lemma_painted_ext(
                s0,
                w,
                h,
                st,
                rect_set(x0 as int, y0 as int, x1 as int, y as int),
                rect_set(left as int, top as int, right as int, bottom as int),
                color,
                alpha,
            );
        }
    }

    /// Sets the alpha byte of every canvas pixel to 255.
    pub fn make_opaque(&mut self)
        requires
            old(self).wf(),
        ensures
            final(self).same_shape(*old(self)),
            final(self).wf(),
            final(self).pixels@ == opaque(
                old(self).pixels@,
                old(self).width as int,
                old(self).height as int,
                old(self).stride as int,
            ),
    {
        let ghost s0 = self.pixels@;
        let ghost w = self.width as int;
        let ghost h = self.height as int;
        let ghost st = self.stride as int;
        let total = self.pixels.len();
        let mut y: usize = 0;
        while y < self.height
            invariant
                self.wf(),
                self.same_shape(*old(self)),
                w == self.width,
                h == self.height,
                st == self.stride,
                total == s0.len(),
                self.pixels@.len() == s0.len(),
                y <= h,
                forall|i: int|
                    0 <= i < s0.len() ==> #[trigger] self.pixels@[i] == if in_grid(i, w, h, st)
                        && grid_c(i, st) == 3 && grid_y(i, st) < y {
                        255u8
                    } else {
                        s0[i]
                    },
            decreases h - y,
        {
            let mut x: usize = 0;
            while x < self.width
                invariant
                    self.wf(),
                    self.same_shape(*old(self)),
                    w == self.width,
                    h == self.height,
                    st == self.stride,
                    total == s0.len(),
                    self.pixels@.len() == s0.len(),
                    y < h,
                    x <= w,
                    forall|i: int|
                        0 <= i < s0.len() ==> #[trigger] self.pixels@[i] == if in_grid(i, w, h, st)
                            && grid_c(i, st) == 3 && (grid_y(i, st) < y || (grid_y(i, st) == y
                            && grid_x(i, st) < x)) {
                            255u8
                        } else {
                            s0[i]
                        },
                decreases w - x,
            {
                proof {
                    lemma_decompose(w, h, st, x as int, y as int, 3);
                    assert((y as int) * st + st <= h * st) by (nonlinear_arith)
                        requires
                            y < h,
                            0 <= st,
                    ;
                    assert(h * st == st * h) by (nonlinear_arith);
                }
                let offset: usize = y * self.stride + x * 4 + 3;
                self.pixels.set(offset, 255u8);
                proof {
                    assert forall|i: int| 0 <= i < s0.len() implies #[trigger] self.pixels@[i] == if in_grid(
                        i,
                        w,
                        h,
                        st,
                    ) && grid_c(i, st) == 3 && (grid_y(i, st) < y || (grid_y(i, st) == y && grid_x(
                        i,
                        st,
                    ) < x + 1)) {
                        255u8
                    } else {
                        s0[i]
                    } by {
                        if in_grid(i, w, h, st) {
                            lemma_compose(w, h, st, i);
                        }
                    }
                }
                x = x + 1;
            }
            proof {
                assert forall|i: int| 0 <= i < s0.len() implies #[trigger] self.pixels@[i] == if in_grid(
                    i,
                    w,
                    h,
                    st,
                ) && grid_c(i, st) == 3 && grid_y(i, st) < y + 1 {
                    255u8
                } else {
                    s0[i]
                } by {
                    if in_grid(i, w, h, st) {
                        lemma_compose(w, h, st, i);
                    }
                }
            }
            y = y + 1;
        }
        proof {
            assert forall|i: int| 0 <= i < s0.len() implies #[trigger] self.pixels@[i] == opaque(s0, w, h, st)[i] by {
                if in_grid(i, w, h, st) {
                    lemma_compose(w, h, st, i);
                }
            }
            assert(self.pixels@ =~= opaque(s0, w, h, st));
        }
    }

    /// Paints every canvas pixel of the disc of radius `radius` around
    /// `center`.
    pub fn disc(&mut self, cx: i32, cy: i32, radius: i32, color: [u8; 4], alpha: u8)
        requires
            old(self).wf(),
            disc_fits(cx as int, cy as int, radius as int),
        ensures
            final(self).same_shape(*old(self)),
            final(self).wf(),
            final(self).pixels@ == old(self).paint(disc_set(cx as int, cy as int, radius as int), color, alpha),
    {
        let ghost s0 = self.pixels@;
        let ghost w = self.width as int;
        let ghost h = self.height as int;
        let ghost st = self.stride as int;
        let ghost r = radius as int;
        if radius < 0 {
            proof {
                lemma_painted_nothing(s0, w, h, st, color, alpha);
                lemma_painted_ext(s0, w, h, st, nothing(), disc_set(cx as int, cy as int, r), color, alpha);
            }
            return;
        }
        proof {
            lemma_painted_nothing(s0, w, h, st, color, alpha);
            assert forall|x: int, y: int| 0 <= x < w && 0 <= y < h implies #[trigger] nothing()(x, y) == disc_done(cx as int, cy as int, r, -r, -r)(x, y) by {
                if disc_set(cx as int, cy as int, r)(x, y) {
                    lemma_disc_bounds(x - cx, y - cy, r);
                }
            }
            lemma_painted_ext(s0, w, h, st, nothing(), disc_done(cx as int, cy as int, r, -r, -r), color, alpha);
        }
        let mut y: i32 = -radius;
        while y <= radius
            invariant
                self.wf(),
                self.same_shape(*old(self)),
                w == self.width,
                h == self.height,
                st == self.stride,
                s0 == old(self).pixels@,
                0 <= radius <= 32767,
                r == radius,
                disc_fits(cx as int, cy as int, r),
                -radius <= y <= radius + 1,
                self.pixels@ == painted(s0, w, h, st, disc_done(cx as int, cy as int, r, y as int, -r), color, alpha),
            decreases radius + 1 - y,
        {
            let mut x: i32 = -radius;
            while x <= radius
                invariant
                    self.wf(),
                    self.same_shape(*old(self)),
                    w == self.width,
                    h == self.height,
                    st == self.stride,
                    0 <= radius <= 32767,
                    r == radius,
                    disc_fits(cx as int, cy as int, r),
                    -radius <= y <= radius,
                    -radius <= x <= radius + 1,
                    self.pixels@ == painted(s0, w, h, st, disc_done(cx as int, cy as int, r, y as int, x as int), color, alpha),
                decreases radius + 1 - x,
            {
                assert(0 <= x * x <= 32767 * 32767) by (nonlinear_arith)
                    requires
                        -32767 <= x <= 32767,
                ;
                assert(0 <= y * y <= 32767 * 32767) by (nonlinear_arith)
                    requires
                        -32767 <= y <= 32767,
                ;
                assert(radius * radius <= 32767 * 32767) by (nonlinear_arith)
                    requires
                        0 <= radius <= 32767,
                ;
                let ghost before = disc_done(cx as int, cy as int, r, y as int, x as int);
                if x * x + y * y <= radius * radius {
                    self.pixel(cx + x, cy + y, color, alpha);
                    proof {
                        lemma_painted_union(s0, w, h, st, before, single(cx + x, cy + y), color, alpha);
                        lemma_painted_ext(s0, w, h, st, union(before, single(cx + x, cy + y)), disc_done(cx as int, cy as int, r, y as int, x + 1), color, alpha);
                    }
                } else {
                    proof {
                        lemma_painted_ext(s0, w, h, st, before, disc_done(cx as int, cy as int, r, y as int, x + 1), color, alpha);
                    }
                }
                x = x + 1;
            }
            proof {
                assert(x == radius + 1);
                assert forall|px: int, py: int| 0 <= px < w && 0 <= py < h implies #[trigger] disc_done(cx as int, cy as int, r, y as int, x as int)(px, py) == disc_done(cx as int, cy as int, r, y + 1, -r)(px, py) by {
                    if disc_set(cx as int, cy as int, r)(px, py) {
                        lemma_disc_bounds(px - cx, py - cy, r);
                        assert(px - cx < r + 1);
                        assert(!(px - cx < -r));
                        assert(disc_done(cx as int, cy as int, r, y as int, x as int)(px, py) == (py - cy < y || (py - cy == y && px - cx < x)));
                        assert(disc_done(cx as int, cy as int, r, y + 1, -r)(px, py) == (py - cy < y + 1 || (py - cy == y + 1 && px - cx < -r)));
                    } else {
                        assert(!disc_done(cx as int, cy as int, r, y as int, x as int)(px, py));
                        assert(!disc_done(cx as int, cy as int, r, y + 1, -r)(px, py));
                    }
                }
                lemma_painted_ext(s0, w, h, st, disc_done(cx as int, cy as int, r, y as int, x as int), disc_done(cx as int, cy as int, r, y + 1, -r), color, alpha);
            }
            y = y + 1;
        }
        proof {
            assert forall|px: int, py: int| 0 <= px < w && 0 <= py < h implies #[trigger] disc_done(cx as int, cy as int, r, y as int, -r)(px, py) == disc_set(cx as int, cy as int, r)(px, py) by {
                if disc_set(cx as int, cy as int, r)(px, py) {
                    lemma_disc_bounds(px - cx, py - cy, r);
                }
            }
            lemma_painted_ext(s0, w, h, st, disc_done(cx as int, cy as int, r, y as int, -r), disc_set(cx as int, cy as int, r), color, alpha);
        }
    }
}


/// Integer division rounding toward zero, for a positive divisor.
pub open spec fn tdiv(a: int, b: int) -> int {
    if a >= 0 { a / b } else { -((-a) / b) }
}

/// The number of steps a line from `(sx, sy)` to `(ex, ey)` is drawn in.
pub open spec fn line_steps(sx: int, sy: int, ex: int, ey: int) -> int {
    let adx = if ex - sx >= 0 { ex - sx } else { sx - ex };
    let ady = if ey - sy >= 0 { ey - sy } else { sy - ey };
    let m = if adx >= ady { adx } else { ady };
    if m >= 1 { m } else { 1 }
}

/// The pixel `(x, y)` lies in the disc of radius `r` around step `j` of the
/// line from `(sx, sy)` to `(ex, ey)`.
pub open spec fn in_line_disc(sx: int, sy: int, ex: int, ey: int, r: int, j: int, x: int, y: int) -> bool {
    let steps = line_steps(sx, sy, ex, ey);
    disc_set(sx + tdiv((ex - sx) * j, steps), sy + tdiv((ey - sy) * j, steps), r)(x, y)
}

/// The pixels covered by discs of radius `r` centered on the points of the
/// line, at the steps `[0, upto)`.
pub open spec fn line_upto(sx: int, sy: int, ex: int, ey: int, r: int, upto: int) -> spec_fn(int, int) -> bool {
    |x: int, y: int| exists|j: int| 0 <= j < upto && #[trigger] in_line_disc(sx, sy, ex, ey, r, j, x, y)
}

/// The pixels of a line of discs of radius `r` from `(sx, sy)` to
/// `(ex, ey)`.
pub open spec fn line_set(sx: int, sy: int, ex: int, ey: int, r: int) -> spec_fn(int, int) -> bool {
    line_upto(sx, sy, ex, ey, r, line_steps(sx, sy, ex, ey) + 1)
}

/// A line can be drawn with `i32` arithmetic.
pub open spec fn line_fits(sx: int, sy: int, ex: int, ey: int, r: int) -> bool {
    let steps = line_steps(sx, sy, ex, ey);
    &&& i32::MIN < ex - sx <= i32::MAX
    &&& i32::MIN < ey - sy <= i32::MAX
    &&& (if ex - sx >= 0 { ex - sx } else { sx - ex }) * steps <= i32::MAX
    &&& (if ey - sy >= 0 { ey - sy } else { sy - ey }) * steps <= i32::MAX
    &&& 0 <= r <= 32767
    &&& disc_fits(sx, sy, r)
    &&& disc_fits(ex, ey, r)
}

/// `tdiv(d * j, steps)` lies between 0 and `d` for `0 <= j <= steps`.
pub proof fn lemma_tdiv_between(d: int, j: int, steps: int)
    requires
        0 <= j <= steps,
        steps >= 1,
    ensures
        d >= 0 ==> 0 <= tdiv(d * j, steps) <= d,
        d < 0 ==> d <= tdiv(d * j, steps) <= 0,
{
    if d >= 0 {
        assert(0 <= d * j <= d * steps) by (nonlinear_arith)
            requires
                d >= 0,
                0 <= j <= steps,
        ;
        vstd::arithmetic::div_mod::lemma_div_is_ordered(d * j, d * steps, steps);
        vstd::arithmetic::div_mod::lemma_div_multiples_vanish(d, steps);
        vstd::arithmetic::div_mod::lemma_div_pos_is_pos(d * j, steps);
        assert(d * steps == steps * d) by (nonlinear_arith);
    } else {
        assert(0 <= (-d) * j <= (-d) * steps) by (nonlinear_arith)
            requires
                d < 0,
                0 <= j <= steps,
        ;
        assert(-(d * j) == (-d) * j) by (nonlinear_arith);
        vstd::arithmetic::div_mod::lemma_div_is_ordered((-d) * j, (-d) * steps, steps);
        vstd::arithmetic::div_mod::lemma_div_multiples_vanish(-d, steps);
        vstd::arithmetic::div_mod::lemma_div_pos_is_pos((-d) * j, steps);
        assert((-d) * steps == steps * (-d)) by (nonlinear_arith);
        if d * j >= 0 {
            assert(d * j <= 0) by (nonlinear_arith)
                requires
                    d < 0,
                    0 <= j,
            ;
            assert(d * j == 0);
        }
    }
}

/// `a / b` with `b > 0`, rounded toward zero.
fn tdiv_i64(a: i64, b: i64) -> (q: i64)
    requires
        b > 0,
        a > i64::MIN,
    ensures
        q == tdiv(a as int, b as int),
{
    if a >= 0 {
        a / b
    } else {
        let n: i64 = -a;
        -(n / b)
    }
}

fn abs_i32(v: i32) -> (r: i32)
    requires
        v > i32::MIN,
    ensures
        r == if v >= 0 { v as int } else { -v },
{
    if v >= 0 { v } else { -v }
}

/// The edge function of `(x, y)` against the edge from `p` to `q`.
pub open spec fn edge(px: int, py: int, qx: int, qy: int, x: int, y: int) -> int {
    (x - px) * (qy - py) - (y - py) * (qx - px)
}

/// The pixels of the bounding box of the triangle `a b c` that lie on the
/// same side of all three edges (edges included).
pub open spec fn tri_set(ax: int, ay: int, bx: int, by: int, cx: int, cy: int) -> spec_fn(int, int) -> bool {
    |x: int, y: int| {
        let e1 = edge(ax, ay, bx, by, x, y);
        let e2 = edge(bx, by, cx, cy, x, y);
        let e3 = edge(cx, cy, ax, ay, x, y);
        &&& min_int3(ax, bx, cx) <= x <= max_int3(ax, bx, cx)
        &&& min_int3(ay, by, cy) <= y <= max_int3(ay, by, cy)
        &&& ((e1 >= 0 && e2 >= 0 && e3 >= 0) || (e1 <= 0 && e2 <= 0 && e3 <= 0))
    }
}

/// The pixels of `tri_set` before `(rx, ry)` in row-major order.
pub open spec fn tri_done(ax: int, ay: int, bx: int, by: int, cx: int, cy: int, ry: int, rx: int) -> spec_fn(int, int) -> bool {
    |x: int, y: int| tri_set(ax, ay, bx, by, cx, cy)(x, y) && (y < ry || (y == ry && x < rx))
}

/// The smallest of three integers.
pub open spec fn min_int3(a: int, b: int, c: int) -> int {
    let m = if a <= b { a } else { b };
    if m <= c { m } else { c }
}

/// The largest of three integers.
pub open spec fn max_int3(a: int, b: int, c: int) -> int {
    let m = if a >= b { a } else { b };
    if m >= c { m } else { c }
}

/// The triangle can be drawn: the coordinate differences inside its
/// bounding box fit `i32`.
pub open spec fn tri_fits(ax: int, ay: int, bx: int, by: int, cx: int, cy: int) -> bool {
    &&& max_int3(ax, bx, cx) - min_int3(ax, bx, cx) <= i32::MAX
    &&& max_int3(ay, by, cy) - min_int3(ay, by, cy) <= i32::MAX
}

fn edge_i64(px: i32, py: i32, qx: i32, qy: i32, x: i64, y: i64, lo_x: i64, hi_x: i64, lo_y: i64, hi_y: i64) -> (e: i64)
    requires
        lo_x <= px <= hi_x,
        lo_x <= qx <= hi_x,
        lo_x <= x <= hi_x,
        lo_y <= py <= hi_y,
        lo_y <= qy <= hi_y,
        lo_y <= y <= hi_y,
        hi_x - lo_x <= i32::MAX,
        hi_y - lo_y <= i32::MAX,
    ensures
        e == edge(px as int, py as int, qx as int, qy as int, x as int, y as int),
{
    let a: i64 = x - px as i64;
    let b: i64 = qy as i64 - py as i64;
    let c: i64 = y - py as i64;
    let d: i64 = qx as i64 - px as i64;
    assert(-0x4000_0000_0000_0000int < a * b < 0x4000_0000_0000_0000int) by (nonlinear_arith)
        requires
            -0x7fff_ffff <= a <= 0x7fff_ffff,
            -0x7fff_ffff <= b <= 0x7fff_ffff,
    ;
    assert(-0x4000_0000_0000_0000int < c * d < 0x4000_0000_0000_0000int) by (nonlinear_arith)
        requires
            -0x7fff_ffff <= c <= 0x7fff_ffff,
            -0x7fff_ffff <= d <= 0x7fff_ffff,
    ;
    a * b - c * d
}

impl Canvas {
    /// Paints, opaquely, the discs of radius `radius` centered on the
    /// `line_steps + 1` evenly spaced points from `(sx, sy)` to `(ex, ey)`.
    pub fn line(&mut self, sx: i32, sy: i32, ex: i32, ey: i32, radius: i32, color: [u8; 4])
        requires
            old(self).wf(),
            line_fits(sx as int, sy as int, ex as int, ey as int, radius as int),
        ensures
            final(self).same_shape(*old(self)),
            final(self).wf(),
            final(self).pixels@ == old(self).paint(
                line_set(sx as int, sy as int, ex as int, ey as int, radius as int),
                color,
                255,
            ),
    {
        let ghost s0 = self.pixels@;
        let ghost w = self.width as int;
        let ghost h = self.height as int;
        let ghost st = self.stride as int;
        let dx = ex - sx;
        let dy = ey - sy;
        let adx = abs_i32(dx);
        let ady = abs_i32(dy);
        let m = if adx >= ady { adx } else { ady };
        let steps: i32 = if m >= 1 { m } else { 1 };
        assert(steps == line_steps(sx as int, sy as int, ex as int, ey as int));
        assert(steps <= 46341) by (nonlinear_arith)
            requires
                steps == adx || steps == ady || steps == 1,
                adx * steps <= 0x7fff_ffff,
                ady * steps <= 0x7fff_ffff,
                steps >= 1;
        proof {
            lemma_painted_nothing(s0, w, h, st, color, 255);
            lemma_painted_ext(s0, w, h, st, nothing(), line_upto(sx as int, sy as int, ex as int, ey as int, radius as int, 0), color, 255);
        }
        let mut step: i32 = 0;
        while step <= steps
            invariant
                self.wf(),
                self.same_shape(*old(self)),
                w == self.width,
                h == self.height,
                st == self.stride,
                s0 == old(self).pixels@,
                line_fits(sx as int, sy as int, ex as int, ey as int, radius as int),
                dx == ex - sx,
                dy == ey - sy,
                adx == (if dx >= 0 { dx as int } else { -dx }),
                ady == (if dy >= 0 { dy as int } else { -dy }),
                steps == line_steps(sx as int, sy as int, ex as int, ey as int),
                1 <= steps <= 46341,
                0 <= step <= steps + 1,
                self.pixels@ == painted(s0, w, h, st, line_upto(sx as int, sy as int, ex as int, ey as int, radius as int, step as int), color, 255),
            decreases steps + 1 - step,
        {
            proof {
                lemma_tdiv_between(dx as int, step as int, steps as int);
                lemma_tdiv_between(dy as int, step as int, steps as int);
                assert((if dx >= 0 { dx as int } else { -dx }) * step <= (if dx >= 0 { dx as int } else { -dx }) * steps) by (nonlinear_arith)
                    requires 0 <= step <= steps;
                assert((if dy >= 0 { dy as int } else { -dy }) * step <= (if dy >= 0 { dy as int } else { -dy }) * steps) by (nonlinear_arith)
                    requires 0 <= step <= steps;
                assert(-0x7fff_ffff <= (dx as int) * (step as int) <= 0x7fff_ffff) by (nonlinear_arith)
                    requires
                        0 <= step <= steps,
                        adx == (if dx >= 0 { dx as int } else { -dx }),
                        adx * steps <= 0x7fff_ffff;
                assert(-0x7fff_ffff <= (dy as int) * (step as int) <= 0x7fff_ffff) by (nonlinear_arith)
                    requires
                        0 <= step <= steps,
                        ady == (if dy >= 0 { dy as int } else { -dy }),
                        ady * steps <= 0x7fff_ffff;
            }
            let ox = tdiv_i64(dx as i64 * step as i64, steps as i64);
            let oy = tdiv_i64(dy as i64 * step as i64, steps as i64);
            let px: i32 = (sx as i64 + ox) as i32;
            let py: i32 = (sy as i64 + oy) as i32;
            let ghost before = line_upto(sx as int, sy as int, ex as int, ey as int, radius as int, step as int);
            self.disc(px, py, radius, color, 255);
            proof {
                let d = disc_set(px as int, py as int, radius as int);
                lemma_painted_union(s0, w, h, st, before, d, color, 255);
                let after = line_upto(sx as int, sy as int, ex as int, ey as int, radius as int, step + 1);
                assert forall|x: int, y: int| 0 <= x < w && 0 <= y < h implies #[trigger] union(before, d)(x, y) == after(x, y) by {
                    if d(x, y) {
                        assert(in_line_disc(sx as int, sy as int, ex as int, ey as int, radius as int, step as int, x, y));
                    }
                    if after(x, y) {
                        let j = choose|j: int| 0 <= j < step + 1 && #[trigger] in_line_disc(sx as int, sy as int, ex as int, ey as int, radius as int, j, x, y);
                        if j < step {
                            assert(before(x, y));
                        }
                    }
                }
                lemma_painted_ext(s0, w, h, st, union(before, d), after, color, 255);
            }
            step = step + 1;
        }
    }

    /// Paints, opaquely, the pixels of `tri_set(a, b, c)`.
    pub fn filled_triangle(&mut self, ax: i32, ay: i32, bx: i32, by: i32, cx: i32, cy: i32, color: [u8; 4])
        requires
            old(self).wf(),
            tri_fits(ax as int, ay as int, bx as int, by as int, cx as int, cy as int),
        ensures
            final(self).same_shape(*old(self)),
            final(self).wf(),
            final(self).pixels@ == old(self).paint(
                tri_set(ax as int, ay as int, bx as int, by as int, cx as int, cy as int),
                color,
                255,
            ),
    {
        let ghost s0 = self.pixels@;
        let ghost w = self.width as int;
        let ghost h = self.height as int;
        let ghost st = self.stride as int;
        let ghost t = tri_set(ax as int, ay as int, bx as int, by as int, cx as int, cy as int);
        let min_x: i64 = min_i32(min_i32(ax, bx), cx) as i64;
        let max_x: i64 = max_i32(max_i32(ax, bx), cx) as i64;
        let min_y: i64 = min_i32(min_i32(ay, by), cy) as i64;
        let max_y: i64 = max_i32(max_i32(ay, by), cy) as i64;
        assert(min_x == min_int3(ax as int, bx as int, cx as int));
        assert(max_x == max_int3(ax as int, bx as int, cx as int));
        assert(min_y == min_int3(ay as int, by as int, cy as int));
        assert(max_y == max_int3(ay as int, by as int, cy as int));
        proof {
            lemma_painted_nothing(s0, w, h, st, color, 255);
            lemma_painted_ext(s0, w, h, st, nothing(), tri_done(ax as int, ay as int, bx as int, by as int, cx as int, cy as int, min_y as int, min_x as int), color, 255);
        }
        let mut y: i64 = min_y;
        while y <= max_y
            invariant
                self.wf(),
                self.same_shape(*old(self)),
                w == self.width,
                h == self.height,
                st == self.stride,
                s0 == old(self).pixels@,
                tri_fits(ax as int, ay as int, bx as int, by as int, cx as int, cy as int),
                min_x == min_int3(ax as int, bx as int, cx as int),
                max_x == max_int3(ax as int, bx as int, cx as int),
                min_y == min_int3(ay as int, by as int, cy as int),
                max_y == max_int3(ay as int, by as int, cy as int),
                min_y <= y <= max_y + 1,
                self.pixels@ == painted(s0, w, h, st, tri_done(ax as int, ay as int, bx as int, by as int, cx as int, cy as int, y as int, min_x as int), color, 255),
            decreases max_y + 1 - y,
        {
            let mut x: i64 = min_x;
            while x <= max_x
                invariant
                    self.wf(),
                    self.same_shape(*old(self)),
                    w == self.width,
                    h == self.height,
                    st == self.stride,
                    tri_fits(ax as int, ay as int, bx as int, by as int, cx as int, cy as int),
                    min_x == min_int3(ax as int, bx as int, cx as int),
                    max_x == max_int3(ax as int, bx as int, cx as int),
                    min_y == min_int3(ay as int, by as int, cy as int),
                    max_y == max_int3(ay as int, by as int, cy as int),
                    min_y <= y <= max_y,
                    min_x <= x <= max_x + 1,
                    self.pixels@ == painted(s0, w, h, st, tri_done(ax as int, ay as int, bx as int, by as int, cx as int, cy as int, y as int, x as int), color, 255),
                decreases max_x + 1 - x,
            {
                let e1 = edge_i64(ax, ay, bx, by, x, y, min_x, max_x, min_y, max_y);
                let e2 = edge_i64(bx, by, cx, cy, x, y, min_x, max_x, min_y, max_y);
                let e3 = edge_i64(cx, cy, ax, ay, x, y, min_x, max_x, min_y, max_y);
                let ghost before = tri_done(ax as int, ay as int, bx as int, by as int, cx as int, cy as int, y as int, x as int);
                let ghost after = tri_done(ax as int, ay as int, bx as int, by as int, cx as int, cy as int, y as int, x + 1);
                if (e1 >= 0 && e2 >= 0 && e3 >= 0) || (e1 <= 0 && e2 <= 0 && e3 <= 0) {
                    self.pixel(x as i32, y as i32, color, 255);
                    proof {
                        lemma_painted_union(s0, w, h, st, before, single(x as int, y as int), color, 255);
                        lemma_painted_ext(s0, w, h, st, union(before, single(x as int, y as int)), after, color, 255);
                    }
                } else {
                    proof {
                        lemma_painted_ext(s0, w, h, st, before, after, color, 255);
                    }
                }
                x = x + 1;
            }
            proof {
                lemma_painted_ext(
                    s0,
                    w,
                    h,
                    st,
                    tri_done(ax as int, ay as int, bx as int, by as int, cx as int, cy as int, y as int, x as int),
                    tri_done(ax as int, ay as int, bx as int, by as int, cx as int, cy as int, y + 1, min_x as int),
                    color,
                    255,
                );
            }
            y = y + 1;
        }
        proof {
            lemma_painted_ext(
                s0,
                w,
                h,
                st,
                tri_done(ax as int, ay as int, bx as int, by as int, cx as int, cy as int, y as int, min_x as int),
                t,
                color,
                255,
            );
        }
    }
}


/// The sum of channel `c` over the pixels `[x0, x1)` of row `y`.
pub open spec fn row_sum(s: Seq<u8>, stride: int, c: int, y: int, x0: int, x1: int) -> int
    decreases x1 - x0,
{
    if x1 <= x0 {
        0
    } else {
        row_sum(s, stride, c, y, x0, x1 - 1) + at(s, stride, y, 4 * (x1 - 1) + c)
    }
}

/// The sum of channel `c` over the pixels `[x0, x1) x [y0, y1)`.
pub open spec fn area_sum(s: Seq<u8>, stride: int, c: int, x0: int, x1: int, y0: int, y1: int) -> int
    decreases y1 - y0,
{
    if y1 <= y0 {
        0
    } else {
        area_sum(s, stride, c, x0, x1, y0, y1 - 1) + row_sum(s, stride, c, y1 - 1, x0, x1)
    }
}

/// The start of the block of size `block`, counted from `origin`, that holds
/// coordinate `v`.
pub open spec fn block_start(v: int, origin: int, block: int) -> int {
    origin + ((v - origin) / block) * block
}

/// The end of that block, cut at `limit`.
pub open spec fn block_end(v: int, origin: int, block: int, limit: int) -> int {
    min_int(block_start(v, origin, block) + block, limit)
}

/// Channel `c` of the average color of the block holding pixel `(x, y)`
/// within the area `[l, r) x [t, b)` split into `block`-sized squares.
pub open spec fn block_average(s: Seq<u8>, stride: int, c: int, x: int, y: int, l: int, t: int, r: int, b: int, block: int) -> int {
    let x0 = block_start(x, l, block);
    let x1 = block_end(x, l, block, r);
    let y0 = block_start(y, t, block);
    let y1 = block_end(y, t, block, b);
    area_sum(s, stride, c, x0, x1, y0, y1) / ((x1 - x0) * (y1 - y0))
}

/// The bytes `s` after every pixel of `[l, r) x [t, b)` whose block starts
/// before `(bx, by)` in row-major block order has been replaced by the
/// average of its block, at full alpha.
pub open spec fn pixelated_upto(
    s: Seq<u8>,
    w: int,
    h: int,
    stride: int,
    l: int,
    t: int,
    r: int,
    b: int,
    block: int,
    by: int,
    bx: int,
) -> Seq<u8> {
    Seq::new(
        s.len(),
        |i: int|
            {
                let x = grid_x(i, stride);
                let y = grid_y(i, stride);
                let c = grid_c(i, stride);
                if in_grid(i, w, h, stride) && l <= x < r && t <= y < b && (block_start(y, t, block)
                    < by || (block_start(y, t, block) == by && block_start(x, l, block) < bx)) {
                    if c == 3 {
                        255u8
                    } else {
                        block_average(s, stride, c, x, y, l, t, r, b, block) as u8
                    }
                } else {
                    s[i]
                }
            },
    )
}

/// The bytes `s` after every pixel of `[l, r) x [t, b)` has been replaced by
/// the average of its `block`-sized square, at full alpha.
pub open spec fn pixelated(s: Seq<u8>, w: int, h: int, stride: int, l: int, t: int, r: int, b: int, block: int) -> Seq<u8> {
    pixelated_upto(s, w, h, stride, l, t, r, b, block, b, 0)
}

/// Facts on the block that holds `v`.
pub proof fn lemma_block(v: int, origin: int, block: int)
    requires
        origin <= v,
        block >= 1,
    ensures
        block_start(v, origin, block) <= v < block_start(v, origin, block) + block,
        origin <= block_start(v, origin, block),
        (block_start(v, origin, block) - origin) % block == 0,
{
    vstd::arithmetic::div_mod::lemma_fundamental_div_mod(v - origin, block);
    vstd::arithmetic::div_mod::lemma_mod_bound(v - origin, block);
    vstd::arithmetic::div_mod::lemma_div_pos_is_pos(v - origin, block);
    let q = (v - origin) / block;
    assert(block * q == q * block) by (nonlinear_arith);
    assert(0 <= q * block) by (nonlinear_arith)
        requires
            0 <= q,
            1 <= block,
    ;
    vstd::arithmetic::div_mod::lemma_mod_multiples_basic(q, block);
}

/// A coordinate inside the block that starts at `start` belongs to it.
pub proof fn lemma_block_of(v: int, origin: int, block: int, start: int)
    requires
        block >= 1,
        origin <= start,
        (start - origin) % block == 0,
        start <= v < start + block,
    ensures
        block_start(v, origin, block) == start,
{
    vstd::arithmetic::div_mod::lemma_fundamental_div_mod(start - origin, block);
    let q = (start - origin) / block;
    assert(block * q == q * block) by (nonlinear_arith);
    vstd::arithmetic::div_mod::lemma_fundamental_div_mod_converse(v - origin, block, q, v - start);
}

/// Two blocks start either at the same place or at least a block apart.
pub proof fn lemma_block_starts_apart(a: int, b: int, origin: int, block: int)
    requires
        block >= 1,
        origin <= a,
        origin <= b,
        (a - origin) % block == 0,
        (b - origin) % block == 0,
        a < b,
    ensures
        a + block <= b,
{
    vstd::arithmetic::div_mod::lemma_fundamental_div_mod(a - origin, block);
    vstd::arithmetic::div_mod::lemma_fundamental_div_mod(b - origin, block);
    let qa = (a - origin) / block;
    let qb = (b - origin) / block;
    assert(qa < qb) by (nonlinear_arith)
        requires
            a - origin == block * qa,
            b - origin == block * qb,
            a < b,
            block >= 1,
    ;
    assert(block * qa + block <= block * qb) by (nonlinear_arith)
        requires
            qa < qb,
            block >= 1,
    ;
}

/// A row sum reads only the bytes of its row span.
pub proof fn lemma_row_sum_agree(s: Seq<u8>, u: Seq<u8>, stride: int, c: int, y: int, x0: int, x1: int)
    requires
        forall|x: int| x0 <= x < x1 ==> #[trigger] at(s, stride, y, 4 * x + c) == at(u, stride, y, 4 * x + c),
    ensures
        row_sum(s, stride, c, y, x0, x1) == row_sum(u, stride, c, y, x0, x1),
    decreases x1 - x0,
{
    if x1 > x0 {
        lemma_row_sum_agree(s, u, stride, c, y, x0, x1 - 1);
        assert(at(s, stride, y, 4 * (x1 - 1) + c) == at(u, stride, y, 4 * (x1 - 1) + c));
    }
}

/// An area sum reads only the bytes of its area.
pub proof fn lemma_area_sum_agree(s: Seq<u8>, u: Seq<u8>, stride: int, c: int, x0: int, x1: int, y0: int, y1: int)
    requires
        forall|x: int, y: int|
            x0 <= x < x1 && y0 <= y < y1 ==> #[trigger] at(s, stride, y, 4 * x + c) == at(u, stride, y, 4 * x + c),
    ensures
        area_sum(s, stride, c, x0, x1, y0, y1) == area_sum(u, stride, c, x0, x1, y0, y1),
    decreases y1 - y0,
{
    if y1 > y0 {
        lemma_area_sum_agree(s, u, stride, c, x0, x1, y0, y1 - 1);
        assert forall|x: int| x0 <= x < x1 implies #[trigger] at(s, stride, y1 - 1, 4 * x + c) == at(u, stride, y1 - 1, 4 * x + c) by {}
        lemma_row_sum_agree(s, u, stride, c, y1 - 1, x0, x1);
    }
}

/// A row sum of bytes is at most 255 per pixel.
pub proof fn lemma_row_sum_bound(s: Seq<u8>, stride: int, c: int, y: int, x0: int, x1: int)
    requires
        x0 <= x1,
    ensures
        0 <= row_sum(s, stride, c, y, x0, x1) <= 255 * (x1 - x0),
    decreases x1 - x0,
{
    if x1 > x0 {
        lemma_row_sum_bound(s, stride, c, y, x0, x1 - 1);
    }
}

/// An area sum of bytes is at most 255 per pixel.
pub proof fn lemma_area_sum_bound(s: Seq<u8>, stride: int, c: int, x0: int, x1: int, y0: int, y1: int)
    requires
        x0 <= x1,
        y0 <= y1,
    ensures
        0 <= area_sum(s, stride, c, x0, x1, y0, y1) <= 255 * ((x1 - x0) * (y1 - y0)),
    decreases y1 - y0,
{
    if y1 > y0 {
        lemma_area_sum_bound(s, stride, c, x0, x1, y0, y1 - 1);
        lemma_row_sum_bound(s, stride, c, y1 - 1, x0, x1);
        assert((x1 - x0) * (y1 - 1 - y0) + (x1 - x0) == (x1 - x0) * (y1 - y0)) by (nonlinear_arith);
    }
}

impl Canvas {
    /// Sums channels blue, green and red over the pixels
    /// `[x0, x1) x [y0, y1)`.
    fn block_sums(&self, x0: usize, x1: usize, y0: usize, y1: usize) -> (sums: (u128, u128, u128))
        requires
            self.wf(),
            x0 <= x1 <= self.width,
            y0 <= y1 <= self.height,
        ensures
            sums.0 == area_sum(self.pixels@, self.stride as int, 0, x0 as int, x1 as int, y0 as int, y1 as int),
            sums.1 == area_sum(self.pixels@, self.stride as int, 1, x0 as int, x1 as int, y0 as int, y1 as int),
            sums.2 == area_sum(self.pixels@, self.stride as int, 2, x0 as int, x1 as int, y0 as int, y1 as int),
    {
        let ghost s = self.pixels@;
        let ghost st = self.stride as int;
        let ghost w = self.width as int;
        let ghost h = self.height as int;
        let total = self.pixels.len();
        let mut blue: u128 = 0;
        let mut green: u128 = 0;
        let mut red: u128 = 0;
        let mut y = y0;
        while y < y1
            invariant
                self.wf(),
                s == self.pixels@,
                st == self.stride,
                w == self.width,
                h == self.height,
                total == s.len(),
                x0 <= x1 <= w,
                y0 <= y <= y1 <= h,
                blue == area_sum(s, st, 0, x0 as int, x1 as int, y0 as int, y as int),
                green == area_sum(s, st, 1, x0 as int, x1 as int, y0 as int, y as int),
                red == area_sum(s, st, 2, x0 as int, x1 as int, y0 as int, y as int),
            decreases y1 - y,
        {
            proof {
                lemma_area_sum_bound(s, st, 0, x0 as int, x1 as int, y0 as int, y1 as int);
            }
            let mut x = x0;
            while x < x1
                invariant
                    self.wf(),
                    s == self.pixels@,
                    st == self.stride,
                    w == self.width,
                    h == self.height,
                    total == s.len(),
                    x0 <= x <= x1 <= w,
                    y0 <= y < y1 <= h,
                    blue == area_sum(s, st, 0, x0 as int, x1 as int, y0 as int, y as int) + row_sum(s, st, 0, y as int, x0 as int, x as int),
                    green == area_sum(s, st, 1, x0 as int, x1 as int, y0 as int, y as int) + row_sum(s, st, 1, y as int, x0 as int, x as int),
                    red == area_sum(s, st, 2, x0 as int, x1 as int, y0 as int, y as int) + row_sum(s, st, 2, y as int, x0 as int, x as int),
                decreases x1 - x,
            {
                proof {
                    lemma_decompose(w, h, st, x as int, y as int, 3);
                    assert((y as int) * st + st <= h * st) by (nonlinear_arith)
                        requires
                            y < h,
                            0 <= st,
                    ;
                    assert(h * st == st * h) by (nonlinear_arith);
                    lemma_area_sum_bound(s, st, 0, x0 as int, x1 as int, y0 as int, y as int);
                    lemma_area_sum_bound(s, st, 1, x0 as int, x1 as int, y0 as int, y as int);
                    lemma_area_sum_bound(s, st, 2, x0 as int, x1 as int, y0 as int, y as int);
                    lemma_row_sum_bound(s, st, 0, y as int, x0 as int, x as int);
                    lemma_row_sum_bound(s, st, 1, y as int, x0 as int, x as int);
                    lemma_row_sum_bound(s, st, 2, y as int, x0 as int, x as int);
                    assert(((x1 - x0) as int) * ((y - y0) as int) <= 0x8000_0000 * 0x8000_0000) by (nonlinear_arith)
                        requires
                            0 <= x1 - x0 <= 0x8000_0000,
                            0 <= y - y0 <= 0x8000_0000;
                }
                let offset: usize = y * self.stride + x * 4;
                blue = blue + self.pixels[offset] as u128;
                green = green + self.pixels[offset + 1] as u128;
                red = red + self.pixels[offset + 2] as u128;
                x = x + 1;
            }
            y = y + 1;
        }
        (blue, green, red)
    }

    /// Replaces each `block`-sized square of the pixels of
    /// `[l, r) x [t, b)` with its average color at full alpha.
    pub fn pixelate(&mut self, l: usize, t: usize, r: usize, b: usize, block: usize)
        requires
            old(self).wf(),
            block >= 1,
            r <= old(self).width,
            b <= old(self).height,
        ensures
            final(self).same_shape(*old(self)),
            final(self).wf(),
            final(self).pixels@ == pixelated(
                old(self).pixels@,
                old(self).width as int,
                old(self).height as int,
                old(self).stride as int,
                l as int,
                t as int,
                r as int,
                b as int,
                block as int,
            ),
    {
        let ghost s0 = self.pixels@;
        let ghost w = self.width as int;
        let ghost h = self.height as int;
        let ghost st = self.stride as int;
        let ghost bl = block as int;
        proof {
            assert(pixelated_upto(s0, w, h, st, l as int, t as int, r as int, b as int, bl, t as int, l as int) =~= s0) by {
                assert forall|i: int| 0 <= i < s0.len() implies pixelated_upto(s0, w, h, st, l as int, t as int, r as int, b as int, bl, t as int, l as int)[i] == s0[i] by {
                    if in_grid(i, w, h, st) && l <= grid_x(i, st) < r && t <= grid_y(i, st) < b {
                        lemma_block(grid_y(i, st), t as int, bl);
                        lemma_block(grid_x(i, st), l as int, bl);
                    }
                }
            }
        }
        proof {
            vstd::arithmetic::div_mod::lemma_mod_multiples_basic(0, bl);
        }
        let mut by = t;
        while by < b
            invariant
                self.wf(),
                self.same_shape(*old(self)),
                w == self.width,
                h == self.height,
                st == self.stride,
                s0 == old(self).pixels@,
                bl == block,
                block >= 1,
                r <= w,
                b <= h,
                t <= by,
                by <= b || by == t,
                by < b ==> (by - t) % bl == 0,
                self.pixels@ == pixelated_upto(s0, w, h, st, l as int, t as int, r as int, b as int, bl, by as int, l as int),
            decreases b - by,
        {
            let bb = if block >= b - by { b } else { by + block };
            proof {
                vstd::arithmetic::div_mod::lemma_mod_multiples_basic(0, bl);
            }
            let mut bx = l;
            while bx < r
                invariant
                    self.wf(),
                    self.same_shape(*old(self)),
                    w == self.width,
                    h == self.height,
                    st == self.stride,
                    s0 == old(self).pixels@,
                    bl == block,
                    block >= 1,
                    r <= w,
                    b <= h,
                    t <= by < b,
                    (by - t) % bl == 0,
                    bb == min_int(by + bl, b as int),
                    l <= bx,
                    bx <= r || bx == l,
                    bx < r ==> (bx - l) % bl == 0,
                    self.pixels@ == pixelated_upto(s0, w, h, st, l as int, t as int, r as int, b as int, bl, by as int, bx as int),
                decreases r - bx,
            {
                let br = if block >= r - bx { r } else { bx + block };
                assert(br <= w && bb <= h);
                let ghost cur = self.pixels@;
                let sums = self.block_sums(bx, br, by, bb);
                proof {
                    // the block is untouched so far
                    assert forall|ch: int| 0 <= ch < 3 implies area_sum(cur, st, ch, bx as int, br as int, by as int, bb as int)
                        == area_sum(s0, st, ch, bx as int, br as int, by as int, bb as int) by {
                        assert forall|x: int, y: int| bx <= x < br && by <= y < bb implies #[trigger] at(cur, st, y, 4 * x + ch) == at(s0, st, y, 4 * x + ch) by {
                            lemma_decompose(w, h, st, x, y, ch);
                            assert(y * st + 4 * x + ch < s0.len());
                            lemma_block_of(y, t as int, bl, by as int);
                            lemma_block_of(x, l as int, bl, bx as int);
                        }
                        lemma_area_sum_agree(cur, s0, st, ch, bx as int, br as int, by as int, bb as int);
                    }
                    lemma_area_sum_bound(s0, st, 0, bx as int, br as int, by as int, bb as int);
                    lemma_area_sum_bound(s0, st, 1, bx as int, br as int, by as int, bb as int);
                    lemma_area_sum_bound(s0, st, 2, bx as int, br as int, by as int, bb as int);
                    assert(((br - bx) as int) * ((bb - by) as int) >= 1) by (nonlinear_arith)
                        requires br > bx, bb > by;
                    assert(((br - bx) as int) * ((bb - by) as int) <= 0x8000_0000 * 0x8000_0000) by (nonlinear_arith)
                        requires 0 <= br - bx <= 0x8000_0000, 0 <= bb - by <= 0x8000_0000;
                }
                let count: u128 = ((br - bx) as u128) * ((bb - by) as u128);
                let avg_blue: u128 = sums.0 / count;
                let avg_green: u128 = sums.1 / count;
                let avg_red: u128 = sums.2 / count;
                proof {
                    vstd::arithmetic::div_mod::lemma_div_is_ordered(sums.0 as int, 255 * (count as int), count as int);
                    vstd::arithmetic::div_mod::lemma_div_is_ordered(sums.1 as int, 255 * (count as int), count as int);
                    vstd::arithmetic::div_mod::lemma_div_is_ordered(sums.2 as int, 255 * (count as int), count as int);
                    vstd::arithmetic::div_mod::lemma_div_multiples_vanish(255, count as int);
                    assert(255 * (count as int) == (count as int) * 255) by (nonlinear_arith);
                }
                let color: [u8; 4] = [avg_blue as u8, avg_green as u8, avg_red as u8, 255u8];
                self.fill_rect(bx as i32, by as i32, br as i32, bb as i32, color, 255);
                proof {
                    let next = pixelated_upto(s0, w, h, st, l as int, t as int, r as int, b as int, bl, by as int, br as int);
                    let got = painted(cur, w, h, st, rect_set(bx as int, by as int, br as int, bb as int), color, 255);
                    assert forall|i: int| 0 <= i < s0.len() implies got[i] == next[i] by {
                        if in_grid(i, w, h, st) {
                            lemma_compose(w, h, st, i);
                            let x = grid_x(i, st);
                            let y = grid_y(i, st);
                            if l <= x < r && t <= y < b {
                                lemma_block(y, t as int, bl);
                                lemma_block(x, l as int, bl);
                                if bx <= x < br && by <= y < bb {
                                    lemma_block_of(y, t as int, bl, by as int);
                                    lemma_block_of(x, l as int, bl, bx as int);
                                } else if block_start(y, t as int, bl) == by && bx <= block_start(x, l as int, bl) < br {
                                    if block_start(x, l as int, bl) > bx {
                                        lemma_block_starts_apart(bx as int, block_start(x, l as int, bl), l as int, bl);
                                    }
                                    assert(false);
                                }
                            }
                        }
                    }
                    assert(got =~= next);
                    if br < r {
                        vstd::arithmetic::div_mod::lemma_fundamental_div_mod(bx - l, bl);
                        let q = (bx - l) / bl;
                        assert(bl * q + bl == (q + 1) * bl) by (nonlinear_arith);
                        vstd::arithmetic::div_mod::lemma_fundamental_div_mod_converse(br - l, bl, q + 1, 0);
                    }
                }
                bx = br;
            }
            proof {
                let done_row = pixelated_upto(s0, w, h, st, l as int, t as int, r as int, b as int, bl, by as int, bx as int);
                let next = pixelated_upto(s0, w, h, st, l as int, t as int, r as int, b as int, bl, bb as int, l as int);
                assert forall|i: int| 0 <= i < s0.len() implies done_row[i] == next[i] by {
                    if in_grid(i, w, h, st) {
                        lemma_compose(w, h, st, i);
                        let x = grid_x(i, st);
                        let y = grid_y(i, st);
                        if l <= x < r && t <= y < b {
                            lemma_block(y, t as int, bl);
                            lemma_block(x, l as int, bl);
                            if block_start(y, t as int, bl) > by && block_start(y, t as int, bl) < bb {
                                lemma_block_starts_apart(by as int, block_start(y, t as int, bl), t as int, bl);
                            }
                        }
                    }
                }
                assert(done_row =~= next);
                if bb < b {
                    vstd::arithmetic::div_mod::lemma_fundamental_div_mod(by - t, bl);
                    let q = (by - t) / bl;
                    assert(bl * q + bl == (q + 1) * bl) by (nonlinear_arith);
                    vstd::arithmetic::div_mod::lemma_fundamental_div_mod_converse(bb - t, bl, q + 1, 0);
                }
            }
            by = bb;
        }
        proof {
            let done_all = pixelated_upto(s0, w, h, st, l as int, t as int, r as int, b as int, bl, by as int, l as int);
            let target = pixelated(s0, w, h, st, l as int, t as int, r as int, b as int, bl);
            assert forall|i: int| 0 <= i < s0.len() implies done_all[i] == target[i] by {
                if in_grid(i, w, h, st) {
                    lemma_compose(w, h, st, i);
                    let x = grid_x(i, st);
                    let y = grid_y(i, st);
                    if l <= x < r && t <= y < b {
                        lemma_block(y, t as int, bl);
                        lemma_block(x, l as int, bl);
                    }
                }
            }
            assert(done_all =~= target);
        }
    }
}


/// Bit `col` of row `row` of the glyph drawn for `byte`: the byte rotated
/// left by `row` places, then bit `col`.
pub open spec fn glyph_bit(byte: u8, row: int, col: int) -> bool {
    (byte >> (((col + 8 - row) % 8) as u8)) & 1u8 == 1u8
}

/// Cell `m` of a glyph run (glyph `m / 35`, row `(m % 35) / 5`, column
/// `m % 5`) is set, and the pixel `(x, y)` lies in its square of side
/// `scale` placed from `(px, py)`; glyphs advance 6 cells to the right.
pub open spec fn in_glyph_cell(px: int, py: int, bytes: Seq<u8>, scale: int, m: int, x: int, y: int) -> bool {
    let k = m / 35;
    let row = (m % 35) / 5;
    let col = m % 5;
    let left = px + k * 6 * scale + col * scale;
    let top = py + row * scale;
    &&& glyph_bit(bytes[k], row, col)
    &&& left <= x < left + scale
    &&& top <= y < top + scale
}

/// The pixels of the glyph cells `[0, upto)` of a glyph run.
pub open spec fn glyph_upto(px: int, py: int, bytes: Seq<u8>, scale: int, upto: int) -> spec_fn(int, int) -> bool {
    |x: int, y: int| exists|m: int| 0 <= m < upto && #[trigger] in_glyph_cell(px, py, bytes, scale, m, x, y)
}

/// The pixels of the glyphs of `bytes`, 5 by 7 cells of side `scale` each,
/// drawn from `(px, py)`.
pub open spec fn glyph_set(px: int, py: int, bytes: Seq<u8>, scale: int) -> spec_fn(int, int) -> bool {
    glyph_upto(px, py, bytes, scale, 35 * bytes.len() as int)
}

/// The glyph cells of `n` glyphs of scale `scale` from `(px, py)` have
/// `i32` coordinates.
pub open spec fn glyphs_fit(px: int, py: int, n: int, scale: int) -> bool {
    &&& 1 <= scale
    &&& 7 * scale <= i32::MAX
    &&& n <= i32::MAX
    &&& 6 * n * scale <= i32::MAX + scale
    &&& px + 6 * n * scale <= i32::MAX + scale
    &&& py + 7 * scale <= i32::MAX
}

/// The 96 offsets, from the center, of the points of the marker ring of
/// radius 13: every offset `(round(13 cos a), round(13 sin a))` for a whole
/// number of degrees `a`.
pub open spec fn ring_offsets_spec() -> Seq<(i32, i32)> {
    seq![
        (13i32, 0i32), (13i32, 1i32), (13i32, 2i32), (13i32, 3i32), (12i32, 4i32), (12i32, 5i32),
        (12i32, 6i32), (11i32, 6i32), (11i32, 7i32), (11i32, 8i32), (10i32, 8i32), (10i32, 9i32),
        (9i32, 9i32), (9i32, 10i32), (8i32, 10i32), (8i32, 11i32), (7i32, 11i32), (6i32, 11i32),
        (6i32, 12i32), (5i32, 12i32), (4i32, 12i32), (3i32, 13i32), (2i32, 13i32), (1i32, 13i32),
        (0i32, 13i32), (-1i32, 13i32), (-2i32, 13i32), (-3i32, 13i32), (-4i32, 12i32), (-5i32, 12i32),
        (-6i32, 12i32), (-6i32, 11i32), (-7i32, 11i32), (-8i32, 11i32), (-8i32, 10i32), (-9i32, 10i32),
        (-9i32, 9i32), (-10i32, 9i32), (-10i32, 8i32), (-11i32, 8i32), (-11i32, 7i32), (-11i32, 6i32),
        (-12i32, 6i32), (-12i32, 5i32), (-12i32, 4i32), (-13i32, 3i32), (-13i32, 2i32), (-13i32, 1i32),
        (-13i32, 0i32), (-13i32, -1i32), (-13i32, -2i32), (-13i32, -3i32), (-12i32, -4i32), (-12i32, -5i32),
        (-12i32, -6i32), (-11i32, -6i32), (-11i32, -7i32), (-11i32, -8i32), (-10i32, -8i32), (-10i32, -9i32),
        (-9i32, -9i32), (-9i32, -10i32), (-8i32, -10i32), (-8i32, -11i32), (-7i32, -11i32), (-6i32, -11i32),
        (-6i32, -12i32), (-5i32, -12i32), (-4i32, -12i32), (-3i32, -13i32), (-2i32, -13i32), (-1i32, -13i32),
        (0i32, -13i32), (1i32, -13i32), (2i32, -13i32), (3i32, -13i32), (4i32, -12i32), (5i32, -12i32),
        (6i32, -12i32), (6i32, -11i32), (7i32, -11i32), (8i32, -11i32), (8i32, -10i32), (9i32, -10i32),
        (9i32, -9i32), (10i32, -9i32), (10i32, -8i32), (11i32, -8i32), (11i32, -7i32), (11i32, -6i32),
        (12i32, -6i32), (12i32, -5i32), (12i32, -4i32), (13i32, -3i32), (13i32, -2i32), (13i32, -1i32),
    ]
}

/// The 96 offsets of `ring_offsets_spec`.
pub fn ring_offsets() -> (v: Vec<(i32, i32)>)
    ensures
        v@ == ring_offsets_spec(),
{
    let v = vec![
        (13i32, 0i32), (13i32, 1i32), (13i32, 2i32), (13i32, 3i32), (12i32, 4i32), (12i32, 5i32),
        (12i32, 6i32), (11i32, 6i32), (11i32, 7i32), (11i32, 8i32), (10i32, 8i32), (10i32, 9i32),
        (9i32, 9i32), (9i32, 10i32), (8i32, 10i32), (8i32, 11i32), (7i32, 11i32), (6i32, 11i32),
        (6i32, 12i32), (5i32, 12i32), (4i32, 12i32), (3i32, 13i32), (2i32, 13i32), (1i32, 13i32),
        (0i32, 13i32), (-1i32, 13i32), (-2i32, 13i32), (-3i32, 13i32), (-4i32, 12i32), (-5i32, 12i32),
        (-6i32, 12i32), (-6i32, 11i32), (-7i32, 11i32), (-8i32, 11i32), (-8i32, 10i32), (-9i32, 10i32),
        (-9i32, 9i32), (-10i32, 9i32), (-10i32, 8i32), (-11i32, 8i32), (-11i32, 7i32), (-11i32, 6i32),
        (-12i32, 6i32), (-12i32, 5i32), (-12i32, 4i32), (-13i32, 3i32), (-13i32, 2i32), (-13i32, 1i32),
        (-13i32, 0i32), (-13i32, -1i32), (-13i32, -2i32), (-13i32, -3i32), (-12i32, -4i32), (-12i32, -5i32),
        (-12i32, -6i32), (-11i32, -6i32), (-11i32, -7i32), (-11i32, -8i32), (-10i32, -8i32), (-10i32, -9i32),
        (-9i32, -9i32), (-9i32, -10i32), (-8i32, -10i32), (-8i32, -11i32), (-7i32, -11i32), (-6i32, -11i32),
        (-6i32, -12i32), (-5i32, -12i32), (-4i32, -12i32), (-3i32, -13i32), (-2i32, -13i32), (-1i32, -13i32),
        (0i32, -13i32), (1i32, -13i32), (2i32, -13i32), (3i32, -13i32), (4i32, -12i32), (5i32, -12i32),
        (6i32, -12i32), (6i32, -11i32), (7i32, -11i32), (8i32, -11i32), (8i32, -10i32), (9i32, -10i32),
        (9i32, -9i32), (10i32, -9i32), (10i32, -8i32), (11i32, -8i32), (11i32, -7i32), (11i32, -6i32),
        (12i32, -6i32), (12i32, -5i32), (12i32, -4i32), (13i32, -3i32), (13i32, -2i32), (13i32, -1i32),
    ];
    assert(v@ =~= ring_offsets_spec());
    v
}

/// The pixels of the discs of radius 1 around the ring points `[0, upto)`
/// of a marker centered on `(cx, cy)`.
pub open spec fn ring_upto(cx: int, cy: int, upto: int) -> spec_fn(int, int) -> bool {
    |x: int, y: int| exists|j: int| 0 <= j < upto && #[trigger] in_ring_disc(cx, cy, j, x, y)
}

/// The pixel `(x, y)` lies in the disc of radius 1 around ring point `j`.
pub open spec fn in_ring_disc(cx: int, cy: int, j: int, x: int, y: int) -> bool {
    disc_set(cx + ring_offsets_spec()[j].0, cy + ring_offsets_spec()[j].1, 1)(x, y)
}

/// The pixels of the white ring of a marker centered on `(cx, cy)`.
pub open spec fn ring_set(cx: int, cy: int) -> spec_fn(int, int) -> bool {
    ring_upto(cx, cy, 96)
}

/// The ring is symmetric under a quarter turn: with the offset `(dx, dy)`
/// it holds `(-dy, dx)`, 24 points (90 degrees) further on.
#[verifier::rlimit(50)]
pub proof fn lemma_ring_quarter_turn(j: int)
    requires
        0 <= j < 96,
    ensures
        ring_offsets_spec()[(j + 24) % 96].0 == -ring_offsets_spec()[j].1,
        ring_offsets_spec()[(j + 24) % 96].1 == ring_offsets_spec()[j].0,
{
    assert(ring_offsets_spec().len() == 96);
}

/// The offsets of the ring lie within 13 pixels of the center.
pub proof fn lemma_ring_offsets_small(j: int)
    requires
        0 <= j < 96,
    ensures
        -13 <= ring_offsets_spec()[j].0 <= 13,
        -13 <= ring_offsets_spec()[j].1 <= 13,
{
}

impl Canvas {
    /// Paints the glyphs of `bytes` in white, 5 by 7 cells of side `scale`
    /// per glyph, from `(px, py)`.
    pub fn text(&mut self, px: i32, py: i32, bytes: &[u8], scale: i32)
        requires
            old(self).wf(),
            glyphs_fit(px as int, py as int, bytes@.len() as int, scale as int),
        ensures
            final(self).same_shape(*old(self)),
            final(self).wf(),
            final(self).pixels@ == old(self).paint(glyph_set(px as int, py as int, bytes@, scale as int), WHITE, 255),
    {
        let ghost s0 = self.pixels@;
        let ghost w = self.width as int;
        let ghost h = self.height as int;
        let ghost st = self.stride as int;
        let ghost bs = bytes@;
        let n = bytes.len();
        proof {
            lemma_painted_nothing(s0, w, h, st, WHITE, 255);
            lemma_painted_ext(s0, w, h, st, nothing(), glyph_upto(px as int, py as int, bs, scale as int, 0), WHITE, 255);
        }
        let mut k: usize = 0;
        while k < n
            invariant
                self.wf(),
                self.same_shape(*old(self)),
                w == self.width,
                h == self.height,
                st == self.stride,
                s0 == old(self).pixels@,
                bs == bytes@,
                n == bs.len(),
                glyphs_fit(px as int, py as int, n as int, scale as int),
                k <= n,
                self.pixels@ == painted(s0, w, h, st, glyph_upto(px as int, py as int, bs, scale as int, 35 * k), WHITE, 255),
            decreases n - k,
        {
            let byte = bytes[k];
            let mut row: i32 = 0;
            while row < 7
                invariant
                    self.wf(),
                    self.same_shape(*old(self)),
                    w == self.width,
                    h == self.height,
                    st == self.stride,
                    s0 == old(self).pixels@,
                    bs == bytes@,
                    n == bs.len(),
                    glyphs_fit(px as int, py as int, n as int, scale as int),
                    k < n,
                    byte == bs[k as int],
                    0 <= row <= 7,
                    self.pixels@ == painted(s0, w, h, st, glyph_upto(px as int, py as int, bs, scale as int, 35 * k + 5 * row), WHITE, 255),
                decreases 7 - row,
            {
                let mut col: i32 = 0;
                while col < 5
                    invariant
                        self.wf(),
                        self.same_shape(*old(self)),
                        w == self.width,
                        h == self.height,
                        st == self.stride,
                        s0 == old(self).pixels@,
                        bs == bytes@,
                        n == bs.len(),
                        glyphs_fit(px as int, py as int, n as int, scale as int),
                        k < n,
                        byte == bs[k as int],
                        0 <= row < 7,
                        0 <= col <= 5,
                        self.pixels@ == painted(s0, w, h, st, glyph_upto(px as int, py as int, bs, scale as int, 35 * k + 5 * row + col), WHITE, 255),
                    decreases 5 - col,
                {
                    let ghost m = 35 * k + 5 * row + col;
                    let ghost before = glyph_upto(px as int, py as int, bs, scale as int, m);
                    let ghost after = glyph_upto(px as int, py as int, bs, scale as int, m + 1);
                    proof {
                        vstd::arithmetic::div_mod::lemma_fundamental_div_mod_converse(m, 35, k as int, 5 * row + col);
                        vstd::arithmetic::div_mod::lemma_fundamental_div_mod_converse(5 * row + col, 5, row as int, col as int);
                        assert(m % 5 == col) by {
                            vstd::arithmetic::div_mod::lemma_fundamental_div_mod_converse(m, 5, 7 * k + row, col as int);
                        }
                        assert((k as int) * 6 * (scale as int) <= 6 * (n as int) * (scale as int) - 6 * (scale as int)) by (nonlinear_arith)
                            requires
                                k + 1 <= n,
                                scale >= 1;
                        assert((k as int) * 6 <= (k as int) * 6 * (scale as int)) by (nonlinear_arith)
                            requires
                                0 <= k,
                                scale >= 1;
                        assert(0 <= (k as int) * 6 * (scale as int)) by (nonlinear_arith)
                            requires
                                0 <= k,
                                scale >= 1;
                        assert(0 <= (col as int) * (scale as int) <= 4 * (scale as int)) by (nonlinear_arith)
                            requires
                                0 <= col < 5,
                                scale >= 1;
                        assert(0 <= (row as int) * (scale as int) <= 6 * (scale as int)) by (nonlinear_arith)
                            requires
                                0 <= row < 7,
                                scale >= 1;
                        assert((col as int + 1) * (scale as int) == (col as int) * (scale as int) + scale) by (nonlinear_arith);
                        assert((row as int + 1) * (scale as int) == (row as int) * (scale as int) + scale) by (nonlinear_arith);
                    }
                    let shift: u8 = ((col + 8 - row) % 8) as u8;
                    if (byte >> shift) & 1u8 == 1u8 {
                        let origin: i32 = px + (k as i32) * 6 * scale;
                        let left: i32 = origin + col * scale;
                        let top: i32 = py + row * scale;
                        let right: i32 = origin + (col + 1) * scale;
                        let bottom: i32 = py + (row + 1) * scale;
                        self.fill_rect(left, top, right, bottom, WHITE, 255);
                        proof {
                            let cell = rect_set(left as int, top as int, right as int, bottom as int);
                            lemma_painted_union(s0, w, h, st, before, cell, WHITE, 255);
                            assert forall|x: int, y: int| 0 <= x < w && 0 <= y < h implies #[trigger] union(before, cell)(x, y) == after(x, y) by {
                                if cell(x, y) {
                                    assert(in_glyph_cell(px as int, py as int, bs, scale as int, m, x, y));
                                }
                                if after(x, y) {
                                    let j = choose|j: int| 0 <= j < m + 1 && #[trigger] in_glyph_cell(px as int, py as int, bs, scale as int, j, x, y);
                                    if j < m {
                                        assert(before(x, y));
                                    }
                                }
                            }
                            lemma_painted_ext(s0, w, h, st, union(before, cell), after, WHITE, 255);
                        }
                    } else {
                        proof {
                            assert forall|x: int, y: int| 0 <= x < w && 0 <= y < h implies #[trigger] before(x, y) == after(x, y) by {
                                if after(x, y) {
                                    let j = choose|j: int| 0 <= j < m + 1 && #[trigger] in_glyph_cell(px as int, py as int, bs, scale as int, j, x, y);
                                    if j < m {
                                        assert(before(x, y));
                                    }
                                }
                            }
                            lemma_painted_ext(s0, w, h, st, before, after, WHITE, 255);
                        }
                    }
                    col = col + 1;
                }
                row = row + 1;
            }
            k = k + 1;
        }
    }

    /// Paints a numbered marker centered on `(cx, cy)`: a blue disc of
    /// radius 13, a white ring of radius-1 discs around it, and the glyphs
    /// of `label` at scale 1, centered.
    pub fn marker(&mut self, cx: i32, cy: i32, label: &[u8])
        requires
            old(self).wf(),
            marker_fits(cx as int, cy as int),
            1 <= label@.len() <= 10,
        ensures
            final(self).same_shape(*old(self)),
            final(self).wf(),
            final(self).pixels@ == marker_paint(
                old(self).pixels@,
                old(self).width as int,
                old(self).height as int,
                old(self).stride as int,
                cx as int,
                cy as int,
                label@,
            ),
    {
        let ghost s0 = self.pixels@;
        let ghost w = self.width as int;
        let ghost h = self.height as int;
        let ghost st = self.stride as int;
        self.disc(cx, cy, 13, BLUE, 255);
        let ghost s1 = self.pixels@;
        let offsets = ring_offsets();
        proof {
            lemma_painted_nothing(s1, w, h, st, WHITE, 255);
            lemma_painted_ext(s1, w, h, st, nothing(), ring_upto(cx as int, cy as int, 0), WHITE, 255);
        }
        let mut j: usize = 0;
        while j < offsets.len()
            invariant
                self.wf(),
                self.same_shape(*old(self)),
                w == self.width,
                h == self.height,
                st == self.stride,
                offsets@ == ring_offsets_spec(),
                marker_fits(cx as int, cy as int),
                j <= 96,
                self.pixels@ == painted(s1, w, h, st, ring_upto(cx as int, cy as int, j as int), WHITE, 255),
            decreases 96 - j,
        {
            let (ox, oy) = offsets[j];
            proof {
                lemma_ring_offsets_small(j as int);
            }
            let ghost before = ring_upto(cx as int, cy as int, j as int);
            let ghost after = ring_upto(cx as int, cy as int, j + 1);
            self.disc(cx + ox, cy + oy, 1, WHITE, 255);
            proof {
                let d = disc_set(cx + ox, cy + oy, 1);
                lemma_painted_union(s1, w, h, st, before, d, WHITE, 255);
                assert forall|x: int, y: int| 0 <= x < w && 0 <= y < h implies #[trigger] union(before, d)(x, y) == after(x, y) by {
                    if d(x, y) {
                        assert(in_ring_disc(cx as int, cy as int, j as int, x, y));
                    }
                    if after(x, y) {
                        let i = choose|i: int| 0 <= i < j + 1 && #[trigger] in_ring_disc(cx as int, cy as int, i, x, y);
                        if i < j {
                            assert(before(x, y));
                        }
                    }
                }
                lemma_painted_ext(s1, w, h, st, union(before, d), after, WHITE, 255);
            }
            j = j + 1;
        }
        let width: i32 = label.len() as i32 * 6;
        self.text(cx - width / 2, cy - 6, label, 1);
    }
}

/// A marker centered on `(cx, cy)` can be drawn with `i32` arithmetic.
pub open spec fn marker_fits(cx: int, cy: int) -> bool {
    &&& i32::MIN + 30 <= cx <= i32::MAX - 30
    &&& i32::MIN + 14 <= cy <= i32::MAX - 14
}

/// The bytes `s` after a marker with the glyphs `label` has been drawn
/// centered on `(cx, cy)`.
pub open spec fn marker_paint(s: Seq<u8>, w: int, h: int, stride: int, cx: int, cy: int, label: Seq<u8>) -> Seq<u8> {
    let disc = painted(s, w, h, stride, disc_set(cx, cy, 13), BLUE, 255);
    let ring = painted(disc, w, h, stride, ring_set(cx, cy), WHITE, 255);
    painted(ring, w, h, stride, glyph_set(cx - (6 * label.len()) / 2, cy - 6, label, 1), WHITE, 255)
}

/// What a marker looks like. For a marker centered on `(cx, cy)` with the
/// glyphs `label` (drawn at scale 1 from `(cx - 6 * n / 2, cy - 6)`, `n` the
/// number of glyphs): a canvas pixel covered by the ring or by the label is
/// white; any other pixel within distance 13 of the center
/// (`dx * dx + dy * dy <= 169`) is opaque blue; every other byte keeps its
/// value.
pub proof fn lemma_marker_look(
    s: Seq<u8>,
    w: int,
    h: int,
    stride: int,
    cx: int,
    cy: int,
    label: Seq<u8>,
    x: int,
    y: int,
    c: int,
)
    requires
        grid_ok(w, h, stride),
        stride * h <= s.len(),
        0 <= x < w,
        0 <= y < h,
        0 <= c < 4,
    ensures
        ({
            let i = y * stride + 4 * x + c;
            let v = marker_paint(s, w, h, stride, cx, cy, label)[i];
            let white = ring_set(cx, cy)(x, y) || glyph_set(cx - (6 * label.len()) / 2, cy - 6, label, 1)(x, y);
            let near = (x - cx) * (x - cx) + (y - cy) * (y - cy) <= 169;
            &&& white ==> v == WHITE@[c]
            &&& !white && near ==> v == BLUE@[c]
            &&& !white && !near ==> v == s[i]
        }),
{
    lemma_decompose(w, h, stride, x, y, c);
    let i = y * stride + 4 * x + c;
    let gs = glyph_set(cx - (6 * label.len()) / 2, cy - 6, label, 1);
    let s1 = painted(s, w, h, stride, disc_set(cx, cy, 13), BLUE, 255);
    let s2 = painted(s1, w, h, stride, ring_set(cx, cy), WHITE, 255);
    let s3 = painted(s2, w, h, stride, gs, WHITE, 255);
    assert(marker_paint(s, w, h, stride, cx, cy, label) == s3);
    assert(disc_set(cx, cy, 13)(x, y) == ((x - cx) * (x - cx) + (y - cy) * (y - cy) <= 169));
    assert(s1[i] == if disc_set(cx, cy, 13)(x, y) { BLUE@[c] } else { s[i] });
    assert(s2[i] == if ring_set(cx, cy)(x, y) { WHITE@[c] } else { s1[i] });
    assert(s3[i] == if gs(x, y) { WHITE@[c] } else { s2[i] });
}

/// Annotation red, in BGRA order.
pub const RED: [u8; 4] = [32, 32, 230, 255];

/// Marker blue, in BGRA order.
pub const BLUE: [u8; 4] = [220, 105, 35, 255];

/// Highlight yellow, in BGRA order.
pub const YELLOW: [u8; 4] = [0, 230, 255, 255];

/// White, in BGRA order.
pub const WHITE: [u8; 4] = [255, 255, 255, 255];

} // verus!
