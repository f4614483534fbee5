//! Scanline rasterization of screen-space triangles.
//!
//! A triangle is filled in two runs of rows: from its top vertex down to the
//! row above its middle vertex, between the long edge and the upper short
//! edge; then from the middle vertex's row down to the bottom vertex's,
//! between the long edge and the lower short edge. Edge positions are exact:
//! the quotient `dx * rows / dy`, rounded to the nearest pixel.
use vstd::prelude::*;
use crate::canvas::{
    lemma_paint_ext,
    lemma_paint_none,
    lemma_paint_put,
    lemma_paint_union,
    Canvas,
    Frame,
};
use crate::depth::Depth;

verus! {

/// A vertex in screen space: the pixel it falls on and its depth.
#[derive(Clone, Copy, Debug)]
pub struct Vertex {
    /// Column, growing to the right.
    pub x: i32,
    /// Row, growing downwards.
    pub y: i32,
    /// Depth; larger is closer.
    pub z: Depth,
}

/// A triangle in screen space with the lighting of its face.
#[derive(Clone, Copy, Debug)]
pub struct Triangle {
    pub a: Vertex,
    pub b: Vertex,
    pub c: Vertex,
    /// The lighting term of the face: the cosine between its normal and the
    /// direction towards the camera, scaled to 255 and rounded. Negative on a
    /// face that looks away; `None` where the face has no normal.
    pub shade: Option<i32>,
}

/// An ordered list of triangles.
pub struct Mesh {
    pub triangles: Vec<Triangle>,
}

/// `n / d` rounded to the nearest integer, a half away from zero, for a
/// positive `d`.
pub open spec fn round_div(n: int, d: int) -> int {
    if n >= 0 {
        (2 * n + d) / (2 * d)
    } else {
        -((2 * (-n) + d) / (2 * d))
    }
}

/// How far across an edge has moved `k` rows below its upper end, where it
/// moves `dx` across over `dy` rows. An edge that lies in one row stays at
/// its start.
pub open spec fn edge_offset(dx: int, dy: int, k: int) -> int {
    if dy == 0 {
        0
    } else {
        round_div(dx * k, dy)
    }
}

/// The column of the edge from `from` down to `to`, `k` rows below `from`.
pub open spec fn edge_x(from: Vertex, to: Vertex, k: int) -> int {
    from.x + edge_offset(to.x - from.x, to.y - from.y, k)
}

/// Whether `x` lies between `a` and `b`, both included, whichever is left.
pub open spec fn between(a: int, b: int, x: int) -> bool {
    (a <= x <= b) || (b <= x <= a)
}

/// The pixels of row `row` from `x_a` to `x_b`, both included.
pub open spec fn span(row: int, x_a: int, x_b: int) -> spec_fn(int, int) -> bool {
    |u: int, v: int| v == row && between(x_a, x_b, u)
}

impl Triangle {
    /// The vertices by ascending row; vertices of one row keep the order in
    /// which the triangle names them.
    pub open spec fn spec_by_row(self) -> (Vertex, Vertex, Vertex) {
        let (a, b, c) = (self.a, self.b, self.c);
        if a.y <= b.y {
            if b.y <= c.y {
                (a, b, c)
            } else if a.y <= c.y {
                (a, c, b)
            } else {
                (c, a, b)
            }
        } else {
            if a.y <= c.y {
                (b, a, c)
            } else if b.y <= c.y {
                (b, c, a)
            } else {
                (c, b, a)
            }
        }
    }

    /// The two ends of the span that the triangle fills in row `y`, or
    /// `None` where it fills nothing of that row.
    pub open spec fn ends(self, y: int) -> Option<(int, int)> {
        let (top, middle, bottom) = self.spec_by_row();
        if top.y <= y < middle.y {
            Some((edge_x(top, bottom, y - top.y), edge_x(top, middle, y - top.y)))
        } else if middle.y <= y <= bottom.y {
            Some((edge_x(top, bottom, y - top.y), edge_x(middle, bottom, y - middle.y)))
        } else {
            None
        }
    }

    /// Whether the triangle fills pixel `(x, y)`.
    pub open spec fn covers(self, x: int, y: int) -> bool {
        match self.ends(y) {
            Some((x_a, x_b)) => between(x_a, x_b, x),
            None => false,
        }
    }

    /// The grey level of the face: its lighting term, capped at 255. A face
    /// with a negative term, or with none, is not drawn and has no grey.
    pub open spec fn spec_grey(self) -> Option<u8> {
        match self.shade {
            Some(s) => if s < 0 {
                None
            } else if s > 255 {
                Some(255u8)
            } else {
                Some(s as u8)
            },
            None => None,
        }
    }

    /// The depth at which every pixel of the triangle is written: that of
    /// its first vertex.
    pub open spec fn depth(self) -> Depth {
        self.a.z
    }

    /// The vertices by ascending row, as `(top, middle, bottom)`.
    #[verifier::when_used_as_spec(spec_by_row)]
    pub fn by_row(self) -> (sorted: (Vertex, Vertex, Vertex))
        ensures
            sorted == self.spec_by_row(),
    {
        let mut top = self.a;
        let mut middle = self.b;
        let mut bottom = self.c;
        if middle.y < top.y {
            let v = top;
            top = middle;
            middle = v;
        }
        if bottom.y < middle.y {
            let v = middle;
            middle = bottom;
            bottom = v;
            if middle.y < top.y {
                let w = top;
                top = middle;
                middle = w;
            }
        }
        (top, middle, bottom)
    }

    /// The grey level of the face, or `None` where the face is not drawn.
    #[verifier::when_used_as_spec(spec_grey)]
    pub fn grey(self) -> (level: Option<u8>)
        ensures
            level == self.spec_grey(),
    {
        match self.shade {
            Some(s) => if s < 0 {
                None
            } else if s > 255 {
                Some(255)
            } else {
                Some(s as u8)
            },
            None => None,
        }
    }
}

impl Frame {
    /// The frame after one triangle: every pixel that the triangle fills is
    /// written at the triangle's depth in its grey; a triangle without a
    /// grey leaves the frame as it is.
    pub open spec fn draw(self, t: Triangle) -> Frame {
        match t.spec_grey() {
            Some(grey) => self.paint(cover_of(t), t.depth(), grey, grey, grey),
            None => self,
        }
    }

    /// The frame after a list of triangles, drawn first to last.
    pub open spec fn render(self, triangles: Seq<Triangle>) -> Frame
        decreases triangles.len(),
    {
        if triangles.len() == 0 {
            self
        } else {
            self.render(triangles.drop_last()).draw(triangles.last())
        }
    }
}

/// The pixels that a triangle fills.
pub open spec fn cover_of(t: Triangle) -> spec_fn(int, int) -> bool {
    |u: int, v: int| t.covers(u, v)
}

/// The pixels that a triangle fills above row `end`.
pub open spec fn rows_above(t: Triangle, end: int) -> spec_fn(int, int) -> bool {
    |u: int, v: int| t.covers(u, v) && v < end
}

/// The pixels of a span to the left of column `end`.
pub open spec fn span_left_of(row: int, x_a: int, x_b: int, end: int) -> spec_fn(int, int) -> bool {
    |u: int, v: int| v == row && between(x_a, x_b, u) && u < end
}

/// Half-up rounding of `n / d` stays within `0..=m` where `n` is at most
/// `m * d`.
pub proof fn lemma_half_up_bounded(n: int, d: int, m: int)
    requires
        0 <= n <= m * d,
        0 < d,
    ensures
        0 <= (2 * n + d) / (2 * d) <= m,
{
    let q = (2 * n + d) / (2 * d);
    vstd::arithmetic::div_mod::lemma_fundamental_div_mod(2 * n + d, 2 * d);
    vstd::arithmetic::div_mod::lemma_mod_bound(2 * n + d, 2 * d);
    assert(0 <= q <= m) by (nonlinear_arith)
        requires
            2 * n + d == (2 * d) * q + (2 * n + d) % (2 * d),
            0 <= (2 * n + d) % (2 * d) < 2 * d,
            0 <= n <= m * d,
            0 < d,
    ;
}

/// The offset of an edge is the half-up rounded quotient of the magnitudes,
/// with the sign of `dx`, and never exceeds `dx` in magnitude.
pub proof fn lemma_edge_offset(dx: int, dy: int, k: int)
    requires
        0 <= k <= dy,
        0 < dy,
    ensures
        ({
            let m = if dx < 0 { -dx } else { dx };
            let q = (2 * (m * k) + dy) / (2 * dy);
            &&& 0 <= m * k <= m * dy
            &&& 0 <= q <= m
            &&& edge_offset(dx, dy, k) == if dx < 0 { -q } else { q }
        }),
{
    let m = if dx < 0 { -dx } else { dx };
    let n = m * k;
    assert(0 <= n <= m * dy) by (nonlinear_arith)
        requires
            0 <= k <= dy,
            0 <= m,
            n == m * k,
    ;
    lemma_half_up_bounded(n, dy, m);
    if dx < 0 {
        assert(dx * k == -n) by (nonlinear_arith)
            requires
                n == (-dx) * k,
        ;
        if n == 0 {
            lemma_half_up_bounded(0, dy, 0);
        }
    }
}

/// An edge never leaves the columns between its two ends.
pub proof fn lemma_edge_between_ends(from: Vertex, to: Vertex, k: int)
    requires
        0 <= k <= to.y - from.y,
    ensures
        between(from.x as int, to.x as int, edge_x(from, to, k)),
{
    if to.y - from.y != 0 {
        lemma_edge_offset(to.x - from.x, to.y - from.y, k);
    }
}

/// The column of the edge from `from` down to `to`, `k` rows below `from`.
pub fn edge_column(from: Vertex, to: Vertex, k: i64) -> (x: i32)
    requires
        0 <= k <= to.y - from.y,
    ensures
        x == edge_x(from, to, k as int),
{
    let dy: i64 = to.y as i64 - from.y as i64;
    if dy == 0 {
        return from.x;
    }
    let dx: i64 = to.x as i64 - from.x as i64;
    let m: u64 = if dx < 0 {
        (-dx) as u64
    } else {
        dx as u64
    };
    proof {
        lemma_edge_offset(dx as int, dy as int, k as int);
        assert(m * dy <= 0xffff_ffff * 0xffff_ffff) by (nonlinear_arith)
            requires
                0 <= m <= 0xffff_ffff,
                0 <= dy <= 0xffff_ffff,
        ;
    }
    let n: u128 = (m as u128) * (k as u128);
    let q: u128 = (2 * n + dy as u128) / (2 * (dy as u128));
    let offset: i64 = if dx < 0 {
        -(q as i64)
    } else {
        q as i64
    };
    (from.x as i64 + offset) as i32
}

/// Writes `color` at depth `z`, each write depth-tested, to the pixels of row
/// `row` from `x_a` to `x_b`, both included and in either order.
pub fn fill_span(canvas: &mut Canvas, row: i32, x_a: i32, x_b: i32, z: Depth, color: [u8; 3])
    ensures
        final(canvas)@ == old(canvas)@.paint(
            span(row as int, x_a as int, x_b as int),
            z,
            color[0],
            color[1],
            color[2],
        ),
{
    proof {
        use_type_invariant(&*canvas);
    }
    let ghost start = canvas@;
    let ghost whole = span(row as int, x_a as int, x_b as int);
    let (left, right) = if x_a <= x_b {
        (x_a, x_b)
    } else {
        (x_b, x_a)
    };
    let width = canvas.width();
    if right < 0 || width == 0 {
        proof {
            lemma_paint_none(start, whole, z, color[0], color[1], color[2]);
        }
        return;
    }
    let first: i64 = if left < 0 {
        0
    } else {
        left as i64
    };
    let last: i64 = if right as usize >= width {
        (width - 1) as i64
    } else {
        right as i64
    };
    let mut x: i64 = first;
    proof {
        lemma_paint_none(
            start,
            span_left_of(row as int, x_a as int, x_b as int, x as int),
            z,
            color[0],
            color[1],
            color[2],
        );
    }
    while x <= last
        invariant
            first <= x <= last + 1 || (last < first && x == first),
            0 <= first,
            left <= first,
            last <= right,
            last < width,
            last <= i32::MAX,
            left as int == if x_a <= x_b { x_a as int } else { x_b as int },
            right as int == if x_a <= x_b { x_b as int } else { x_a as int },
            start.wf(),
            canvas@ == start.paint(
                span_left_of(row as int, x_a as int, x_b as int, x as int),
                z,
                color[0],
                color[1],
                color[2],
            ),
        decreases last + 1 - x,
    {
        proof {
            lemma_paint_put(
                start,
                span_left_of(row as int, x_a as int, x_b as int, x as int),
                span_left_of(row as int, x_a as int, x_b as int, x + 1),
                x as int,
                row as int,
                z,
                color[0],
                color[1],
                color[2],
            );
        }
        canvas.put_pixel(x as i32, row, z, color);
        x += 1;
    }
    proof {
        lemma_paint_ext(
            start,
            span_left_of(row as int, x_a as int, x_b as int, x as int),
            whole,
            z,
            color[0],
            color[1],
            color[2],
        );
    }
}

/// Draws one triangle: a face that looks away from the camera, or has no
/// normal, is dropped; any other is filled row by row in its grey at the
/// depth of its first vertex, each pixel through the depth test.
pub fn rasterize_triangle(triangle: &Triangle, canvas: &mut Canvas)
    ensures
        final(canvas)@ == old(canvas)@.draw(*triangle),
{
    proof {
        use_type_invariant(&*canvas);
    }
    let grey = match triangle.grey() {
        Some(level) => level,
        None => {
            return;
        },
    };
    let (top, middle, bottom) = triangle.by_row();
    let z = triangle.a.z;
    let color = [grey, grey, grey];
    let height = canvas.height();
    let rows: i64 = if height > 0x7fff_ffff {
        0x8000_0000
    } else {
        height as i64
    };
    let ghost start = canvas@;
    let ghost t = *triangle;

    let first_upper: i64 = if top.y < 0 {
        0
    } else {
        top.y as i64
    };
    let upper_end: i64 = if (middle.y as i64) < rows {
        middle.y as i64
    } else {
        rows
    };
    let mut row: i64 = first_upper;
    proof {
        lemma_paint_none(start, rows_above(t, row as int), z, grey, grey, grey);
    }
    while row < upper_end
        invariant
            start.wf(),
            (top, middle, bottom) == t.spec_by_row(),
            top.y <= middle.y <= bottom.y,
            color[0] == grey && color[1] == grey && color[2] == grey,
            0 <= first_upper,
            top.y <= first_upper,
            upper_end <= middle.y,
            upper_end <= rows,
            first_upper <= row,
            row <= upper_end || row == first_upper,
            canvas@ == start.paint(rows_above(t, row as int), z, grey, grey, grey),
        decreases upper_end - row,
    {
        let x_a = edge_column(top, bottom, row - top.y as i64);
        let x_b = edge_column(top, middle, row - top.y as i64);
        proof {
            lemma_paint_union(
                start,
                rows_above(t, row as int),
                span(row as int, x_a as int, x_b as int),
                rows_above(t, row + 1),
                z,
                grey,
                grey,
                grey,
            );
        }
        fill_span(canvas, row as i32, x_a, x_b, z, color);
        row += 1;
    }

    let first_lower: i64 = if middle.y < 0 {
        0
    } else {
        middle.y as i64
    };
    let lower_end: i64 = if (bottom.y as i64) < rows {
        bottom.y as i64 + 1
    } else {
        rows
    };
    proof {
        lemma_paint_ext(
            start,
            rows_above(t, row as int),
            rows_above(t, first_lower as int),
            z,
            grey,
            grey,
            grey,
        );
    }
    row = first_lower;
    while row < lower_end
        invariant
            start.wf(),
            (top, middle, bottom) == t.spec_by_row(),
            top.y <= middle.y <= bottom.y,
            color[0] == grey && color[1] == grey && color[2] == grey,
            0 <= first_lower,
            middle.y <= first_lower,
            lower_end <= bottom.y + 1,
            lower_end <= rows,
            first_lower <= row,
            row <= lower_end || row == first_lower,
            canvas@ == start.paint(rows_above(t, row as int), z, grey, grey, grey),
        decreases lower_end - row,
    {
        let x_a = edge_column(top, bottom, row - top.y as i64);
        let x_b = edge_column(middle, bottom, row - middle.y as i64);
        proof {
            lemma_paint_union(
                start,
                rows_above(t, row as int),
                span(row as int, x_a as int, x_b as int),
                rows_above(t, row + 1),
                z,
                grey,
                grey,
                grey,
            );
        }
        fill_span(canvas, row as i32, x_a, x_b, z, color);
        row += 1;
    }
    proof {
        lemma_paint_ext(start, rows_above(t, row as int), cover_of(t), z, grey, grey, grey);
    }
}

/// Renders one frame: clears the canvas, then draws the triangles of the mesh
/// first to last.
pub fn render_frame(mesh: &Mesh, canvas: &mut Canvas)
    ensures
        final(canvas)@ == old(canvas)@.wiped().render(mesh.triangles@),
{
    canvas.clear();
    let ghost blank = canvas@;
    let count = mesh.triangles.len();
    let mut i: usize = 0;
    while i < count
        invariant
            i <= count,
            count == mesh.triangles@.len(),
            canvas@ == blank.render(mesh.triangles@.take(i as int)),
        decreases count - i,
    {
        proof {
            assert(mesh.triangles@.take(i + 1).drop_last() =~= mesh.triangles@.take(i as int));
        }
        rasterize_triangle(&mesh.triangles[i], canvas);
        i += 1;
    }
    proof {
        assert(mesh.triangles@.take(count as int) =~= mesh.triangles@);
    }
}

} // verus!
