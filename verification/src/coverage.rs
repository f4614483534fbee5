//! What a triangle covers, and what drawing it does to each pixel.
use vstd::prelude::*;
use crate::canvas::{lemma_index_in_bounds, lemma_index_of_pixel, lemma_paint_none, Frame};
use crate::raster::{
    cover_of,
    edge_x,
    lemma_edge_between_ends,
    lemma_half_up_bounded,
    Triangle,
    Vertex,
};

verus! {

impl Triangle {
    /// The vertex that the triangle names at place 0, 1 or 2.
    pub open spec fn named(self, i: int) -> Vertex {
        if i == 0 {
            self.a
        } else if i == 1 {
            self.b
        } else {
            self.c
        }
    }

    /// Whether `(x, y)` lies in the smallest upright rectangle that holds the
    /// three vertices.
    pub open spec fn in_box(self, x: int, y: int) -> bool {
        &&& self.a.x <= x || self.b.x <= x || self.c.x <= x
        &&& x <= self.a.x || x <= self.b.x || x <= self.c.x
        &&& self.a.y <= y || self.b.y <= y || self.c.y <= y
        &&& y <= self.a.y || y <= self.b.y || y <= self.c.y
    }

    /// Whether the three vertices lie together to one side of the canvas:
    /// all to its left, all to its right, all above it or all below it.
    pub open spec fn beside(self, f: Frame) -> bool {
        ||| self.a.x < 0 && self.b.x < 0 && self.c.x < 0
        ||| self.a.x >= f.width && self.b.x >= f.width && self.c.x >= f.width
        ||| self.a.y < 0 && self.b.y < 0 && self.c.y < 0
        ||| self.a.y >= f.height && self.b.y >= f.height && self.c.y >= f.height
    }

    /// Whether drawing the triangle changes pixel `(x, y)` of `f`: the face
    /// is drawn, it fills the pixel, and it is closer than what the pixel
    /// holds.
    pub open spec fn shows_at(self, f: Frame, x: int, y: int) -> bool {
        &&& self.spec_grey() is Some
        &&& self.covers(x, y)
        &&& f.accepts(x, y, self.depth())
    }
}

/// Sorting by row keeps the three vertices, puts them in ascending rows, and
/// leaves vertices of one row in the order in which the triangle names them.
pub proof fn lemma_by_row_is_stable_sort(t: Triangle)
    ensures
        ({
            let (top, middle, bottom) = t.spec_by_row();
            &&& top.y <= middle.y <= bottom.y
            &&& exists|i: int, j: int, k: int|
                {
                    &&& 0 <= i < 3 && 0 <= j < 3 && 0 <= k < 3
                    &&& i != j && j != k && i != k
                    &&& top == #[trigger] t.named(i)
                    &&& middle == #[trigger] t.named(j)
                    &&& bottom == #[trigger] t.named(k)
                    &&& top.y == middle.y ==> i < j
                    &&& middle.y == bottom.y ==> j < k
                }
        }),
{
    let (a, b, c) = (t.a, t.b, t.c);
    let (top, middle, bottom) = t.spec_by_row();
    let (i, j, k): (int, int, int) = if a.y <= b.y {
        if b.y <= c.y {
            (0, 1, 2)
        } else if a.y <= c.y {
            (0, 2, 1)
        } else {
            (2, 0, 1)
        }
    } else {
        if a.y <= c.y {
            (1, 0, 2)
        } else if b.y <= c.y {
            (1, 2, 0)
        } else {
            (2, 1, 0)
        }
    };
    assert(top == t.named(i) && middle == t.named(j) && bottom == t.named(k));
}

/// A triangle fills no pixel outside the rectangle that holds its vertices.
pub proof fn lemma_covers_in_box(t: Triangle, x: int, y: int)
    requires
        t.covers(x, y),
    ensures
        t.in_box(x, y),
{
    let (top, middle, bottom) = t.spec_by_row();
    lemma_by_row_is_stable_sort(t);
    lemma_edge_between_ends(top, bottom, y - top.y);
    if y < middle.y {
        lemma_edge_between_ends(top, middle, y - top.y);
    } else {
        lemma_edge_between_ends(middle, bottom, y - middle.y);
    }
}

/// An edge starts in the column of its upper end.
pub proof fn lemma_edge_starts_at_upper_end(from: Vertex, to: Vertex)
    requires
        from.y <= to.y,
    ensures
        edge_x(from, to, 0) == from.x,
{
    let dy = to.y - from.y;
    if dy > 0 {
        lemma_half_up_bounded(0, dy, 0);
    }
}

/// A triangle always fills the pixel of its middle vertex.
pub proof fn lemma_covers_middle(t: Triangle)
    ensures
        t.covers(t.spec_by_row().1.x as int, t.spec_by_row().1.y as int),
{
    let (top, middle, bottom) = t.spec_by_row();
    lemma_by_row_is_stable_sort(t);
    lemma_edge_starts_at_upper_end(middle, bottom);
}

/// What drawing does to one pixel: where the triangle shows, the pixel takes
/// its depth and its grey and keeps its alpha; elsewhere it keeps all it
/// had.
pub proof fn lemma_draw_at(f: Frame, t: Triangle, x: int, y: int)
    requires
        f.wf(),
        f.contains(x, y),
    ensures
        f.draw(t).wf(),
        f.draw(t).width == f.width,
        f.draw(t).height == f.height,
        t.shows_at(f, x, y) ==> {
            &&& f.draw(t).depth_at(x, y) == t.depth()
            &&& f.draw(t).rgba_at(x, y) == (
                t.spec_grey()->0,
                t.spec_grey()->0,
                t.spec_grey()->0,
                f.rgba_at(x, y).3,
            )
        },
        !t.shows_at(f, x, y) ==> {
            &&& f.draw(t).depth_at(x, y) == f.depth_at(x, y)
            &&& f.draw(t).rgba_at(x, y) == f.rgba_at(x, y)
        },
{
    lemma_index_in_bounds(f, x, y);
    lemma_index_of_pixel(f, x, y);
    let i = f.index(x, y);
    if t.spec_grey() is Some {
        let z = t.depth();
        assert(f.hit(cover_of(t), z, i) == (t.covers(x, y) && z.spec_gt(f.depth[i])));
        assert((4 * i) / 4 == i && (4 * i + 1) / 4 == i && (4 * i + 2) / 4 == i && (4 * i + 3) / 4
            == i);
    }
}

/// A face that looks away from the camera is not drawn: the frame stays as
/// it is, wherever the triangle lies.
pub proof fn lemma_back_face_draws_nothing(f: Frame, t: Triangle)
    requires
        t.shade matches Some(s) && s < 0,
    ensures
        f.draw(t) == f,
{
}

/// A triangle that fills no pixel of the canvas leaves the frame as it is.
pub proof fn lemma_draw_off_canvas(f: Frame, t: Triangle)
    requires
        f.wf(),
        forall|x: int, y: int| f.contains(x, y) ==> !t.covers(x, y),
    ensures
        f.draw(t) == f,
{
    if t.spec_grey() is Some {
        let g = t.spec_grey()->0;
        assert forall|u: int, v: int| f.contains(u, v) implies !#[trigger] cover_of(t)(u, v) by {}
        lemma_paint_none(f, cover_of(t), t.depth(), g, g, g);
    }
}

/// A triangle whose vertices lie together to one side of the canvas leaves
/// the frame as it is: colours and depths stay what they were.
pub proof fn lemma_draw_beside_canvas(f: Frame, t: Triangle)
    requires
        f.wf(),
        t.beside(f),
    ensures
        f.draw(t) == f,
{
    assert forall|x: int, y: int| f.contains(x, y) implies !t.covers(x, y) by {
        if t.covers(x, y) {
            lemma_covers_in_box(t, x, y);
        }
    }
    lemma_draw_off_canvas(f, t);
}

/// A face that looks towards the camera leaves a mark wherever it can: if
/// some pixel that it fills is on the canvas and holds something farther,
/// then after drawing, some pixel inside the rectangle of its vertices holds
/// the triangle's depth and grey.
pub proof fn lemma_front_face_marks(f: Frame, t: Triangle)
    requires
        f.wf(),
        t.spec_grey() is Some,
        exists|x: int, y: int| t.covers(x, y) && f.accepts(x, y, t.depth()),
    ensures
        exists|x: int, y: int|
            {
                &&& t.in_box(x, y)
                &&& f.contains(x, y)
                &&& f.draw(t).depth_at(x, y) == t.depth()
                &&& #[trigger] f.draw(t).rgba_at(x, y) == (
                    t.spec_grey()->0,
                    t.spec_grey()->0,
                    t.spec_grey()->0,
                    f.rgba_at(x, y).3,
                )
            },
{
    let (x, y) = choose|x: int, y: int| t.covers(x, y) && f.accepts(x, y, t.depth());
    lemma_covers_in_box(t, x, y);
    lemma_draw_at(f, t, x, y);
}

} // verus!
