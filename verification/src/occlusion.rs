//! Depth ordering: the closer surface wins, whatever the drawing order.
use vstd::prelude::*;
use crate::canvas::{lemma_paint_wf, lemma_pixel_of_index, Frame};
use crate::coverage::lemma_draw_at;
use crate::depth::Depth;
use crate::raster::{cover_of, Triangle};

verus! {

/// Two paints at different depths can be swapped: where `z1` is closer than
/// `z2`, painting one cover at `z1` and another at `z2` gives the same frame
/// in either order.
pub proof fn lemma_paint_order(
    f: Frame,
    c1: spec_fn(int, int) -> bool,
    z1: Depth,
    r1: u8,
    g1: u8,
    b1: u8,
    c2: spec_fn(int, int) -> bool,
    z2: Depth,
    r2: u8,
    g2: u8,
    b2: u8,
)
    requires
        f.wf(),
        z1.spec_gt(z2),
    ensures
        f.paint(c1, z1, r1, g1, b1).paint(c2, z2, r2, g2, b2) == f.paint(c2, z2, r2, g2, b2).paint(
            c1,
            z1,
            r1,
            g1,
            b1,
        ),
{
    let nearer = f.paint(c1, z1, r1, g1, b1);
    let farther = f.paint(c2, z2, r2, g2, b2);
    let near_far = nearer.paint(c2, z2, r2, g2, b2);
    let far_near = farther.paint(c1, z1, r1, g1, b1);
    lemma_paint_wf(f, c1, z1, r1, g1, b1);
    lemma_paint_wf(f, c2, z2, r2, g2, b2);
    assert forall|i: int| 0 <= i < f.depth.len() implies {
        &&& nearer.hit(c2, z2, i) == (f.hit(c2, z2, i) && !f.hit(c1, z1, i))
        &&& farther.hit(c1, z1, i) == f.hit(c1, z1, i)
    } by {
        lemma_pixel_of_index(f, i);
    }
    assert(near_far.depth =~= far_near.depth);
    assert forall|j: int| 0 <= j < f.color.len() implies near_far.color[j] == far_near.color[j] by {
        assert(0 <= j / 4 < f.depth.len());
    }
    assert(near_far.color =~= far_near.color);
}

/// Rendering a list of two triangles is drawing the first, then the second.
pub proof fn lemma_render_pair(f: Frame, first: Triangle, second: Triangle)
    ensures
        f.render(seq![first, second]) == f.draw(first).draw(second),
{
    let both = seq![first, second];
    let one = both.drop_last();
    assert(one.drop_last().len() == 0);
    assert(one.last() == first);
    assert(f.render(one.drop_last()) == f) by {
        reveal_with_fuel(Frame::render, 1);
    }
    assert(f.render(one) == f.draw(first)) by {
        reveal_with_fuel(Frame::render, 2);
    }
    assert(both.last() == second);
}

/// The order of drawing does not matter between two triangles of different
/// depths: drawn far then near, or near then far, the frame is the same.
pub proof fn lemma_draw_order(f: Frame, near: Triangle, far: Triangle)
    requires
        f.wf(),
        near.depth().spec_gt(far.depth()),
    ensures
        f.draw(far).draw(near) == f.draw(near).draw(far),
        f.render(seq![far, near]) == f.render(seq![near, far]),
{
    if near.spec_grey() is Some && far.spec_grey() is Some {
        let n = near.spec_grey()->0;
        let m = far.spec_grey()->0;
        lemma_paint_order(
            f,
            cover_of(near),
            near.depth(),
            n,
            n,
            n,
            cover_of(far),
            far.depth(),
            m,
            m,
            m,
        );
    }
    lemma_render_pair(f, far, near);
    lemma_render_pair(f, near, far);
}

/// Where two triangles overlap, the closer one shows: at every pixel that
/// the nearer triangle fills, and where nothing closer was stored before,
/// the frame holds the nearer triangle's depth and grey after both are
/// drawn, in either order.
pub proof fn lemma_closer_shows(f: Frame, near: Triangle, far: Triangle, x: int, y: int)
    requires
        f.wf(),
        near.depth().spec_gt(far.depth()),
        near.shows_at(f, x, y),
    ensures
        f.draw(far).draw(near).depth_at(x, y) == near.depth(),
        f.draw(far).draw(near).rgba_at(x, y) == (
            near.spec_grey()->0,
            near.spec_grey()->0,
            near.spec_grey()->0,
            f.rgba_at(x, y).3,
        ),
        f.draw(near).draw(far).depth_at(x, y) == near.depth(),
        f.draw(near).draw(far).rgba_at(x, y) == f.draw(far).draw(near).rgba_at(x, y),
{
    lemma_draw_at(f, far, x, y);
    lemma_draw_at(f.draw(far), near, x, y);
    lemma_draw_order(f, near, far);
}

} // verus!
