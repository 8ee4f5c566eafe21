//! Per-frame orchestration: draws the clip-window border, draws a line
//! for every bond whose transformed endpoints both lie strictly inside
//! the clip rectangle, and serializes the rasterizer. The caller
//! supplies transformed points already rounded to integer sub-cell
//! coordinates, each with its clip-test result.

use vstd::prelude::*;

verus! {

use crate::canvas::{Canvas, stamp_seq, line_points, COORD_LIMIT};

/// A transformed atom position as the rasterizer sees it: its rounded
/// integer sub-cell coordinates, and whether the unrounded position lay
/// strictly inside the clip rectangle on both axes.
#[derive(Clone, Copy, PartialEq, Eq, Structural, Debug)]
pub struct ViewPoint {
    pub x: i32,
    pub y: i32,
    pub inside: bool,
}

/// A bond is drawn only when it is flagged and both its endpoints lie
/// strictly inside the clip rectangle; a bond with even one endpoint
/// outside is dropped whole, never clipped.
pub open spec fn seg_visible(pts: Seq<ViewPoint>, bonds: Seq<bool>, i: int) -> bool {
    bonds[i] && pts[i].inside && pts[i + 1].inside
}

/// The grid after drawing, in order, the lines of the first `n` bond
/// indices that are visible.
pub open spec fn connections_upto(
    g: Map<(int, int), u8>,
    pts: Seq<ViewPoint>,
    bonds: Seq<bool>,
    n: int,
) -> Map<(int, int), u8>
    decreases n,
{
    if n <= 0 {
        g
    } else {
        let g1 = connections_upto(g, pts, bonds, n - 1);
        if seg_visible(pts, bonds, n - 1) {
            stamp_seq(
                g1,
                line_points(
                    pts[n - 1].x as int,
                    pts[n - 1].y as int,
                    pts[n].x as int,
                    pts[n].y as int,
                ),
            )
        } else {
            g1
        }
    }
}

/// The grid after drawing every visible bond.
pub open spec fn connections_spec(
    g: Map<(int, int), u8>,
    pts: Seq<ViewPoint>,
    bonds: Seq<bool>,
) -> Map<(int, int), u8> {
    connections_upto(g, pts, bonds, bonds.len() as int)
}

/// The grid after drawing the 4 border edges through the corners in the
/// fixed cyclic order: low-low, high-low, high-high, low-high, and back.
pub open spec fn border_spec(g: Map<(int, int), u8>, x0: int, y0: int, x1: int, y1: int) -> Map<
    (int, int),
    u8,
> {
    stamp_seq(
        stamp_seq(
            stamp_seq(stamp_seq(g, line_points(x0, y0, x1, y0)), line_points(x1, y0, x1, y1)),
            line_points(x1, y1, x0, y1),
        ),
        line_points(x0, y1, x0, y0),
    )
}

/// Draws the 4 edges of the clip rectangle as a visible border, corner
/// to corner in the fixed cyclic order.
pub fn draw_border(canvas: &mut Canvas, x0: i32, y0: i32, x1: i32, y1: i32)
    requires
        old(canvas).wf(),
        -COORD_LIMIT <= x0 <= COORD_LIMIT,
        -COORD_LIMIT <= y0 <= COORD_LIMIT,
        -COORD_LIMIT <= x1 <= COORD_LIMIT,
        -COORD_LIMIT <= y1 <= COORD_LIMIT,
    ensures
        final(canvas).wf(),
        final(canvas).grid() == border_spec(
            old(canvas).grid(),
            x0 as int,
            y0 as int,
            x1 as int,
            y1 as int,
        ),
{
    canvas.line(x0, y0, x1, y0);
    canvas.line(x1, y0, x1, y1);
    canvas.line(x1, y1, x0, y1);
    canvas.line(x0, y1, x0, y0);
}

/// Draws the line of every bond whose flag is set and whose endpoints
/// both lie strictly inside the clip rectangle; every other bond
/// contributes nothing.
pub fn draw_connections(canvas: &mut Canvas, pts: &Vec<ViewPoint>, bonds: &Vec<bool>)
    requires
        old(canvas).wf(),
        pts@.len() == 0 ==> bonds@.len() == 0,
        pts@.len() > 0 ==> bonds@.len() == pts@.len() - 1,
        forall|i: int|
            0 <= i < pts@.len() ==> -COORD_LIMIT <= (#[trigger] pts@[i]).x <= COORD_LIMIT
                && -COORD_LIMIT <= pts@[i].y <= COORD_LIMIT,
    ensures
        final(canvas).wf(),
        final(canvas).grid() == connections_spec(old(canvas).grid(), pts@, bonds@),
{
    let ghost g0 = canvas.grid();
    let mut i: usize = 0;
    while i < bonds.len()
        invariant
            canvas.wf(),
            g0 == old(canvas).grid(),
            pts@.len() == 0 ==> bonds@.len() == 0,
            pts@.len() > 0 ==> bonds@.len() == pts@.len() - 1,
            forall|j: int|
                0 <= j < pts@.len() ==> -COORD_LIMIT <= (#[trigger] pts@[j]).x <= COORD_LIMIT
                    && -COORD_LIMIT <= pts@[j].y <= COORD_LIMIT,
            i <= bonds@.len(),
            canvas.grid() == connections_upto(g0, pts@, bonds@, i as int),
        decreases bonds@.len() - i,
    {
        if bonds[i] {
            let p = pts[i];
            let q = pts[i + 1];
            if p.inside && q.inside {
                canvas.line(p.x, p.y, q.x, q.y);
            }
        }
        proof {
            assert(connections_upto(g0, pts@, bonds@, i as int + 1) == (if seg_visible(
                pts@,
                bonds@,
                i as int,
            ) {
                stamp_seq(
                    connections_upto(g0, pts@, bonds@, i as int),
                    line_points(
                        pts@[i as int].x as int,
                        pts@[i as int].y as int,
                        pts@[i as int + 1].x as int,
                        pts@[i as int + 1].y as int,
                    ),
                )
            } else {
                connections_upto(g0, pts@, bonds@, i as int)
            }));
        }
        i += 1;
    }
}

proof fn lemma_upto_bond_dropped(
    g: Map<(int, int), u8>,
    pts: Seq<ViewPoint>,
    bonds: Seq<bool>,
    i: int,
    n: int,
)
    requires
        0 <= i < bonds.len(),
        !(pts[i].inside && pts[i + 1].inside),
        n <= bonds.len(),
    ensures
        connections_upto(g, pts, bonds, n) == connections_upto(g, pts, bonds.update(i, false), n),
    decreases n,
{
    let b2 = bonds.update(i, false);
    if n <= 0 {
    } else {
        lemma_upto_bond_dropped(g, pts, bonds, i, n - 1);
        if n - 1 == i {
            assert(!seg_visible(pts, bonds, n - 1));
            assert(!seg_visible(pts, b2, n - 1));
        } else {
            assert(b2[n - 1] == bonds[n - 1]);
        }
    }
}

/// Bond-drop rule: a bond with even one transformed endpoint outside
/// the clip rectangle contributes no line at all; turning its flag off
/// leaves the drawn frame unchanged.
pub proof fn lemma_outside_bond_dropped(
    g: Map<(int, int), u8>,
    pts: Seq<ViewPoint>,
    bonds: Seq<bool>,
    i: int,
)
    requires
        0 <= i < bonds.len(),
        !(pts[i].inside && pts[i + 1].inside),
    ensures
        connections_spec(g, pts, bonds) == connections_spec(g, pts, bonds.update(i, false)),
{
    lemma_upto_bond_dropped(g, pts, bonds, i, bonds.len() as int);
}

/// One full update: clears the rasterizer, draws the clip-window border,
/// draws every visible bond, and serializes the result.
pub fn render_scene(
    canvas: &mut Canvas,
    x0: i32,
    y0: i32,
    x1: i32,
    y1: i32,
    pts: &Vec<ViewPoint>,
    bonds: &Vec<bool>,
) -> (out: String)
    requires
        -COORD_LIMIT <= x0 <= COORD_LIMIT,
        -COORD_LIMIT <= y0 <= COORD_LIMIT,
        -COORD_LIMIT <= x1 <= COORD_LIMIT,
        -COORD_LIMIT <= y1 <= COORD_LIMIT,
        pts@.len() == 0 ==> bonds@.len() == 0,
        pts@.len() > 0 ==> bonds@.len() == pts@.len() - 1,
        forall|i: int|
            0 <= i < pts@.len() ==> -COORD_LIMIT <= (#[trigger] pts@[i]).x <= COORD_LIMIT
                && -COORD_LIMIT <= pts@[i].y <= COORD_LIMIT,
    ensures
        final(canvas).wf(),
        final(canvas).grid() == connections_spec(
            border_spec(
                Map::<(int, int), u8>::empty(),
                x0 as int,
                y0 as int,
                x1 as int,
                y1 as int,
            ),
            pts@,
            bonds@,
        ),
        out@ == final(canvas).frame_spec(),
{
    canvas.clear();
    draw_border(canvas, x0, y0, x1, y1);
    draw_connections(canvas, pts, bonds);
    canvas.frame()
}

/// Advances the active model index by one, wrapping past the last model.
pub fn next_model_index(curr: usize, count: usize) -> (r: usize)
    requires
        0 < count,
        curr < count,
    ensures
        r as int == (curr as int + 1) % (count as int),
{
    (curr + 1) % count
}

/// The 0-based initial model index from a 1-based request; an
/// out-of-range request falls back to the first model.
pub fn initial_model_index(requested: usize, count: usize) -> (r: usize)
    requires
        0 < count,
    ensures
        r as int == if 1 <= requested <= count {
            requested as int - 1
        } else {
            0int
        },
{
    if requested > 0 && requested <= count {
        requested - 1
    } else {
        0
    }
}

} // verus!
