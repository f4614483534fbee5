//! The canvas: a colour buffer and a depth buffer of one frame.
use vstd::prelude::*;
use crate::depth::Depth;

verus! {

/// The mathematical model of a canvas: its size and the contents of its two
/// buffers, row by row from the top.
pub struct Frame {
    pub width: nat,
    pub height: nat,
    /// Four bytes per pixel: red, green, blue, alpha.
    pub color: Seq<u8>,
    /// One depth per pixel.
    pub depth: Seq<Depth>,
}

impl Frame {
    /// Both buffers hold exactly `width * height` pixels.
    pub open spec fn wf(self) -> bool {
        &&& self.depth.len() == self.width * self.height
        &&& self.color.len() == 4 * self.depth.len()
    }

    /// Whether `(x, y)` is a pixel of the canvas.
    pub open spec fn contains(self, x: int, y: int) -> bool {
        0 <= x < self.width && 0 <= y < self.height
    }

    /// The place of pixel `(x, y)` in the depth buffer; its colour starts at
    /// four times that place.
    pub open spec fn index(self, x: int, y: int) -> int {
        y * self.width + x
    }

    /// The depth stored at `(x, y)`.
    pub open spec fn depth_at(self, x: int, y: int) -> Depth {
        self.depth[self.index(x, y)]
    }

    /// The four channels stored at `(x, y)`.
    pub open spec fn rgba_at(self, x: int, y: int) -> (u8, u8, u8, u8) {
        let i = 4 * self.index(x, y);
        (self.color[i], self.color[i + 1], self.color[i + 2], self.color[i + 3])
    }

    /// The frame of the given size in which every pixel is opaque black and
    /// infinitely far away.
    pub open spec fn cleared(width: nat, height: nat) -> Frame {
        Frame {
            width,
            height,
            color: Seq::new(
                4 * (width * height),
                |j: int|
                    if j % 4 == 3 {
                        255u8
                    } else {
                        0u8
                    },
            ),
            depth: Seq::new(width * height, |i: int| Depth::spec_neg_infinity()),
        }
    }

    /// This frame cleared: same size, every pixel opaque black and
    /// infinitely far away.
    pub open spec fn wiped(self) -> Frame {
        Frame::cleared(self.width, self.height)
    }

    /// Whether a write of depth `z` at `(x, y)` lands: the pixel exists and
    /// `z` is strictly closer than what it holds.
    pub open spec fn accepts(self, x: int, y: int, z: Depth) -> bool {
        self.contains(x, y) && z.spec_gt(self.depth_at(x, y))
    }

    /// The frame after one depth-tested write. A write that lands stores `z`
    /// and the three colour channels and keeps alpha; any other write leaves
    /// the frame as it is.
    pub open spec fn put(self, x: int, y: int, z: Depth, r: u8, g: u8, b: u8) -> Frame {
        if self.accepts(x, y, z) {
            let i = self.index(x, y);
            Frame {
                depth: self.depth.update(i, z),
                color: self.color.update(4 * i, r).update(4 * i + 1, g).update(4 * i + 2, b),
                ..self
            }
        } else {
            self
        }
    }

    /// Whether painting `cover` at depth `z` changes the pixel at place `i`:
    /// the pixel is covered and `z` is strictly closer than what it holds.
    pub open spec fn hit(self, cover: spec_fn(int, int) -> bool, z: Depth, i: int) -> bool {
        cover(i % (self.width as int), i / (self.width as int)) && z.spec_gt(self.depth[i])
    }

    /// The frame after a depth-tested write of one depth and one colour to
    /// every pixel that `cover` holds of.
    pub open spec fn paint(
        self,
        cover: spec_fn(int, int) -> bool,
        z: Depth,
        r: u8,
        g: u8,
        b: u8,
    ) -> Frame {
        Frame {
            width: self.width,
            height: self.height,
            depth: Seq::new(
                self.depth.len(),
                |i: int|
                    if self.hit(cover, z, i) {
                        z
                    } else {
                        self.depth[i]
                    },
            ),
            color: Seq::new(
                self.color.len(),
                |j: int|
                    if self.hit(cover, z, j / 4) && j % 4 == 0 {
                        r
                    } else if self.hit(cover, z, j / 4) && j % 4 == 1 {
                        g
                    } else if self.hit(cover, z, j / 4) && j % 4 == 2 {
                        b
                    } else {
                        self.color[j]
                    },
            ),
        }
    }
}

/// A pixel of a well-formed frame has its place inside both buffers.
pub proof fn lemma_index_in_bounds(f: Frame, x: int, y: int)
    requires
        f.wf(),
        f.contains(x, y),
    ensures
        0 <= y * f.width <= f.index(x, y) < f.depth.len(),
        4 * f.index(x, y) + 3 < f.color.len(),
{
    assert(y * f.width <= (f.height - 1) * f.width) by (nonlinear_arith)
        requires
            0 <= y <= f.height - 1,
            0 <= f.width,
    ;
    assert((f.height - 1) * f.width == f.width * f.height - f.width) by (nonlinear_arith);
    assert(0 <= y * f.width) by (nonlinear_arith)
        requires
            0 <= y,
            0 <= f.width,
    ;
}

/// Every place in the buffers of a well-formed frame belongs to one pixel.
pub proof fn lemma_pixel_of_index(f: Frame, i: int)
    requires
        f.wf(),
        0 <= i < f.depth.len(),
    ensures
        f.contains(i % (f.width as int), i / (f.width as int)),
        f.index(i % (f.width as int), i / (f.width as int)) == i,
{
    let w = f.width as int;
    let h = f.height as int;
    assert(w > 0) by (nonlinear_arith)
        requires
            0 < w * h,
            0 <= w,
    ;
    vstd::arithmetic::div_mod::lemma_fundamental_div_mod(i, w);
    vstd::arithmetic::div_mod::lemma_mod_bound(i, w);
    let q = i / w;
    assert(w * q == q * w) by (nonlinear_arith);
    assert(0 <= q < h) by (nonlinear_arith)
        requires
            0 <= i < w * h,
            i == q * w + i % w,
            0 <= i % w < w,
    ;
}

/// A pixel is found again from its place.
pub proof fn lemma_index_of_pixel(f: Frame, x: int, y: int)
    requires
        f.wf(),
        f.contains(x, y),
    ensures
        f.index(x, y) % (f.width as int) == x,
        f.index(x, y) / (f.width as int) == y,
{
    vstd::arithmetic::div_mod::lemma_fundamental_div_mod_converse(
        f.index(x, y),
        f.width as int,
        y,
        x,
    );
}

/// Painting keeps the size of a frame.
pub proof fn lemma_paint_wf(f: Frame, cover: spec_fn(int, int) -> bool, z: Depth, r: u8, g: u8, b: u8)
    requires
        f.wf(),
    ensures
        f.paint(cover, z, r, g, b).wf(),
        f.paint(cover, z, r, g, b).width == f.width,
        f.paint(cover, z, r, g, b).height == f.height,
{
}

/// Painting looks at a cover only on the canvas.
pub proof fn lemma_paint_ext(
    f: Frame,
    c1: spec_fn(int, int) -> bool,
    c2: spec_fn(int, int) -> bool,
    z: Depth,
    r: u8,
    g: u8,
    b: u8,
)
    requires
        f.wf(),
        forall|u: int, v: int| f.contains(u, v) ==> #[trigger] c1(u, v) == c2(u, v),
    ensures
        f.paint(c1, z, r, g, b) == f.paint(c2, z, r, g, b),
{
    let once = f.paint(c1, z, r, g, b);
    let other = f.paint(c2, z, r, g, b);
    assert forall|i: int| 0 <= i < f.depth.len() implies f.hit(c1, z, i) == f.hit(c2, z, i) by {
        lemma_pixel_of_index(f, i);
        assert(c1(i % (f.width as int), i / (f.width as int)) == c2(
            i % (f.width as int),
            i / (f.width as int),
        ));
    }
    assert(once.depth =~= other.depth);
    assert forall|j: int| 0 <= j < f.color.len() implies once.color[j] == other.color[j] by {
        assert(0 <= j / 4 < f.depth.len());
    }
    assert(once.color =~= other.color);
}

/// Painting a cover that holds of no pixel of the canvas changes nothing.
pub proof fn lemma_paint_none(
    f: Frame,
    cover: spec_fn(int, int) -> bool,
    z: Depth,
    r: u8,
    g: u8,
    b: u8,
)
    requires
        f.wf(),
        forall|u: int, v: int| f.contains(u, v) ==> !#[trigger] cover(u, v),
    ensures
        f.paint(cover, z, r, g, b) == f,
{
    let p = f.paint(cover, z, r, g, b);
    assert forall|i: int| 0 <= i < f.depth.len() implies !f.hit(cover, z, i) by {
        lemma_pixel_of_index(f, i);
    }
    assert(p.depth =~= f.depth);
    assert forall|j: int| 0 <= j < f.color.len() implies p.color[j] == f.color[j] by {
        assert(0 <= j / 4 < f.depth.len());
    }
    assert(p.color =~= f.color);
}

/// One more write extends a painted cover by one pixel: where `(x, y)` is
/// not yet covered, painting `cover` and then writing to `(x, y)` is
/// painting `wider`, which is `cover` and that pixel.
pub proof fn lemma_paint_put(
    f: Frame,
    cover: spec_fn(int, int) -> bool,
    wider: spec_fn(int, int) -> bool,
    x: int,
    y: int,
    z: Depth,
    r: u8,
    g: u8,
    b: u8,
)
    requires
        f.wf(),
        !cover(x, y),
        forall|u: int, v: int|
            f.contains(u, v) ==> #[trigger] wider(u, v) == (cover(u, v) || (u == x && v == y)),
    ensures
        f.paint(cover, z, r, g, b).put(x, y, z, r, g, b) == f.paint(wider, z, r, g, b),
{
    let p = f.paint(cover, z, r, g, b);
    let q = p.put(x, y, z, r, g, b);
    let w = f.paint(wider, z, r, g, b);
    let width = f.width as int;
    if f.contains(x, y) {
        let i = f.index(x, y);
        lemma_index_in_bounds(f, x, y);
        lemma_index_of_pixel(f, x, y);
        assert(!f.hit(cover, z, i));
        assert(p.depth[i] == f.depth[i]);
        assert(wider(x, y));
        assert forall|k: int| 0 <= k < f.depth.len() && k != i implies f.hit(wider, z, k) == f.hit(
            cover,
            z,
            k,
        ) by {
            lemma_pixel_of_index(f, k);
            assert(wider(k % width, k / width) == (cover(k % width, k / width) || (k % width == x
                && k / width == y)));
        }
        assert(f.hit(wider, z, i) == z.spec_gt(f.depth[i]));
        assert(q.depth =~= w.depth);
        assert forall|j: int| 0 <= j < f.color.len() implies q.color[j] == w.color[j] by {
            assert(0 <= j / 4 < f.depth.len());
            if j / 4 == i {
                assert(j == 4 * i || j == 4 * i + 1 || j == 4 * i + 2 || j == 4 * i + 3);
            }
        }
        assert(q.color =~= w.color);
    } else {
        lemma_paint_ext(f, cover, wider, z, r, g, b);
    }
}

/// Painting twice with the same depth and colour is painting the union of
/// the two covers once.
pub proof fn lemma_paint_union(
    f: Frame,
    c1: spec_fn(int, int) -> bool,
    c2: spec_fn(int, int) -> bool,
    both: spec_fn(int, int) -> bool,
    z: Depth,
    r: u8,
    g: u8,
    b: u8,
)
    requires
        f.wf(),
        forall|u: int, v: int|
            f.contains(u, v) ==> #[trigger] both(u, v) == (c1(u, v) || c2(u, v)),
    ensures
        f.paint(c1, z, r, g, b).paint(c2, z, r, g, b) == f.paint(both, z, r, g, b),
{
    let p = f.paint(c1, z, r, g, b);
    let q = p.paint(c2, z, r, g, b);
    let w = f.paint(both, z, r, g, b);
    let width = f.width as int;
    assert forall|i: int| 0 <= i < f.depth.len() implies f.hit(both, z, i) == (f.hit(c1, z, i)
        || p.hit(c2, z, i)) && !(f.hit(c1, z, i) && p.hit(c2, z, i)) by {
        lemma_pixel_of_index(f, i);
        assert(both(i % width, i / width) == (c1(i % width, i / width) || c2(
            i % width,
            i / width,
        )));
    }
    assert(q.depth =~= w.depth);
    assert forall|j: int| 0 <= j < f.color.len() implies q.color[j] == w.color[j] by {
        assert(0 <= j / 4 < f.depth.len());
    }
    assert(q.color =~= w.color);
}

/// A cleared frame is well formed, and each of its pixels is opaque black
/// at negative infinity.
pub proof fn lemma_cleared(width: nat, height: nat, x: int, y: int)
    ensures
        Frame::cleared(width, height).wf(),
        Frame::cleared(width, height).contains(x, y) ==> {
            &&& Frame::cleared(width, height).depth_at(x, y) == Depth::spec_neg_infinity()
            &&& Frame::cleared(width, height).rgba_at(x, y) == (0u8, 0u8, 0u8, 255u8)
        },
{
    let f = Frame::cleared(width, height);
    assert(f.wf());
    if f.contains(x, y) {
        lemma_index_in_bounds(f, x, y);
    }
}

/// Clearing twice is clearing once.
pub proof fn lemma_clear_idempotent(f: Frame)
    ensures
        f.wiped().wiped() == f.wiped(),
{
}

/// One frame's pixel state: a colour buffer of four bytes per pixel and a
/// depth buffer of one depth per pixel, both `width * height` pixels long.
pub struct Canvas {
    width: usize,
    height: usize,
    buf: Vec<u8>,
    z_buf: Vec<Depth>,
}

impl View for Canvas {
    type V = Frame;

    closed spec fn view(&self) -> Frame {
        Frame {
            width: self.width as nat,
            height: self.height as nat,
            color: self.buf@,
            depth: self.z_buf@,
        }
    }
}

impl Canvas {
    /// Every canvas is well formed.
    #[verifier::type_invariant]
    pub open spec fn inv(self) -> bool {
        self@.wf()
    }

    /// A cleared canvas of the given size, or `None` where its colour buffer
    /// would be longer than the machine can address.
    pub fn new(width: usize, height: usize) -> (made: Option<Canvas>)
        ensures
            made is Some <==> 4 * (width * height) <= usize::MAX,
            made matches Some(canvas) ==> canvas@ == Frame::cleared(width as nat, height as nat),
    {
        let pixels = match width.checked_mul(height) {
            Some(n) => n,
            None => {
                return None;
            },
        };
        let bytes = match pixels.checked_mul(4) {
            Some(n) => n,
            None => {
                return None;
            },
        };
        let mut buf: Vec<u8> = Vec::new();
        let mut j: usize = 0;
        while j < bytes
            invariant
                j <= bytes,
                buf@.len() == j,
                forall|k: int| 0 <= k < j ==> buf@[k] == Frame::cleared(width as nat, height as nat).color[k],
                bytes == 4 * (width * height),
            decreases bytes - j,
        {
            buf.push(if j % 4 == 3 { 255 } else { 0 });
            j += 1;
        }
        let mut z_buf: Vec<Depth> = Vec::new();
        let mut i: usize = 0;
        while i < pixels
            invariant
                i <= pixels,
                z_buf@.len() == i,
                forall|k: int| 0 <= k < i ==> z_buf@[k] == Depth::spec_neg_infinity(),
            decreases pixels - i,
        {
            z_buf.push(Depth::neg_infinity());
            i += 1;
        }
        let canvas = Canvas { width, height, buf, z_buf };
        assert(canvas@.color =~= Frame::cleared(width as nat, height as nat).color);
        assert(canvas@.depth =~= Frame::cleared(width as nat, height as nat).depth);
        Some(canvas)
    }

    /// The width in pixels.
    pub fn width(&self) -> (w: usize)
        ensures
            w == self@.width,
    {
        self.width
    }

    /// The height in pixels.
    pub fn height(&self) -> (h: usize)
        ensures
            h == self@.height,
    {
        self.height
    }

    /// The colour buffer: four bytes per pixel, row by row from the top.
    pub fn buf(&self) -> (bytes: &Vec<u8>)
        ensures
            bytes@ == self@.color,
            bytes@.len() == 4 * (self@.width * self@.height),
    {
        proof {
            use_type_invariant(self);
        }
        &self.buf
    }

    /// The depth buffer: one depth per pixel, row by row from the top.
    pub fn z_buf(&self) -> (depths: &Vec<Depth>)
        ensures
            depths@ == self@.depth,
            depths@.len() == self@.width * self@.height,
    {
        proof {
            use_type_invariant(self);
        }
        &self.z_buf
    }

    /// Makes every pixel opaque black and infinitely far away.
    pub fn clear(&mut self)
        ensures
            final(self)@ == old(self)@.wiped(),
    {
        proof {
            use_type_invariant(&*self);
        }
        let bytes = self.buf.len();
        let mut j: usize = 0;
        while j < bytes
            invariant
                j <= bytes,
                bytes == self.buf@.len(),
                self.width == old(self).width,
                self.height == old(self).height,
                self.z_buf == old(self).z_buf,
                self@.wf(),
                forall|k: int| 0 <= k < j ==> self.buf@[k] == (if k % 4 == 3 { 255u8 } else { 0u8 }),
            decreases bytes - j,
        {
            self.buf[j] = if j % 4 == 3 { 255 } else { 0 };
            j += 1;
        }
        let pixels = self.z_buf.len();
        let mut i: usize = 0;
        while i < pixels
            invariant
                i <= pixels,
                pixels == self.z_buf@.len(),
                self.width == old(self).width,
                self.height == old(self).height,
                self@.wf(),
                forall|k: int| 0 <= k < self.buf@.len() ==> self.buf@[k] == (if k % 4 == 3 { 255u8 } else { 0u8 }),
                forall|k: int| 0 <= k < i ==> self.z_buf@[k] == Depth::spec_neg_infinity(),
            decreases pixels - i,
        {
            self.z_buf[i] = Depth::neg_infinity();
            i += 1;
        }
        assert(self@.color =~= Frame::cleared(old(self)@.width, old(self)@.height).color);
        assert(self@.depth =~= Frame::cleared(old(self)@.width, old(self)@.height).depth);
    }

    /// Writes `color` at depth `z` to pixel `(x, y)` if that pixel exists and
    /// `z` is strictly closer than the depth it holds; does nothing otherwise.
    pub fn put_pixel(&mut self, x: i32, y: i32, z: Depth, color: [u8; 3])
        ensures
            final(self)@ == old(self)@.put(x as int, y as int, z, color[0], color[1], color[2]),
    {
        proof {
            use_type_invariant(&*self);
        }
        if x < 0 || y < 0 {
            return;
        }
        let col = x as usize;
        let row = y as usize;
        if col >= self.width || row >= self.height {
            return;
        }
        proof {
            lemma_index_in_bounds(self@, x as int, y as int);
            assert(self.buf.len() == self.buf@.len());
        }
        let i = row * self.width + col;
        if z.gt(self.z_buf[i]) {
            self.z_buf[i] = z;
            self.buf[4 * i] = color[0];
            self.buf[4 * i + 1] = color[1];
            self.buf[4 * i + 2] = color[2];
        }
    }
}

} // verus!
