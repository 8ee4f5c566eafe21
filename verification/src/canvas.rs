//! Sparse sub-cell rasterizer: accumulates dots at twice-horizontal,
//! four-times-vertical terminal-cell resolution and serializes the touched
//! region to a block of dot-matrix glyphs.

use vstd::prelude::*;

verus! {

use vstd::arithmetic::div_mod::{lemma_hoist_over_denominator, lemma_mod_multiples_vanish};

/// Largest sub-cell coordinate magnitude the rasterizer accepts. Callers
/// pre-clip to a viewing window that is far smaller than this; the bound
/// only rules out integer overflow inside the drawing routines.
pub const COORD_LIMIT: i32 = 1000000;

/// One terminal cell that holds at least one dot.
struct DotCell {
    cx: i32,
    cy: i32,
    mask: u8,
}

/// Column of the terminal cell that sub-cell column `x` falls in: floor
/// division by the 2 sub-columns per cell, so negative positions fall in
/// the cell to the left rather than being pulled toward zero.
pub open spec fn cell_col(x: int) -> int {
    x / 2
}

/// Row of the terminal cell that sub-cell row `y` falls in: floor
/// division by the 4 sub-rows per cell.
pub open spec fn cell_row(y: int) -> int {
    y / 4
}

/// The dot-mask bit of a sub-cell position within its cell. The layout
/// matches the bit assignment of the dot-matrix glyph block at the base
/// code point, so the OR of any bits is a valid glyph offset.
pub open spec fn dot_bit(x: int, y: int) -> u8 {
    let sx: int = x % 2;
    let sy: int = y % 4;
    if sx == 0 {
        if sy == 0 {
            0x01u8
        } else if sy == 1 {
            0x02u8
        } else if sy == 2 {
            0x04u8
        } else {
            0x40u8
        }
    } else {
        if sy == 0 {
            0x08u8
        } else if sy == 1 {
            0x10u8
        } else if sy == 2 {
            0x20u8
        } else {
            0x80u8
        }
    }
}

/// Magnitude of an integer.
pub open spec fn iabs(a: int) -> int {
    if a < 0 {
        -a
    } else {
        a
    }
}

/// One run of the integer line-stepping recurrence: from the current
/// position and error term, the positions visited up to and including
/// the endpoint. `fuel` only bounds the recursion; the drawing routine
/// always supplies enough for the endpoint to be reached.
pub open spec fn bres_rec(
    x: int,
    y: int,
    x2: int,
    y2: int,
    dx: int,
    dy: int,
    sx: int,
    sy: int,
    err: int,
    fuel: nat,
) -> Seq<(int, int)>
    decreases fuel,
{
    if x == x2 && y == y2 {
        seq![(x, y)]
    } else if fuel == 0 {
        seq![(x, y)]
    } else {
        let e2: int = 2 * err;
        let nx: int = if e2 >= dy {
            x + sx
        } else {
            x
        };
        let ny: int = if e2 <= dx {
            y + sy
        } else {
            y
        };
        let nerr: int = err + (if e2 >= dy {
            dy
        } else {
            0
        }) + (if e2 <= dx {
            dx
        } else {
            0
        });
        seq![(x, y)] + bres_rec(nx, ny, x2, y2, dx, dy, sx, sy, nerr, (fuel - 1) as nat)
    }
}

/// The integer sub-cell positions a line visits, both endpoints
/// included: the standard integer error-accumulation line recurrence.
pub open spec fn line_points(x1: int, y1: int, x2: int, y2: int) -> Seq<(int, int)> {
    let dx: int = iabs(x2 - x1);
    let dy: int = -iabs(y2 - y1);
    let sx: int = if x1 < x2 {
        1
    } else {
        -1
    };
    let sy: int = if y1 < y2 {
        1
    } else {
        -1
    };
    bres_rec(x1, y1, x2, y2, dx, dy, sx, sy, dx + dy, (dx - dy + 1) as nat)
}

proof fn lemma_bres_adjacent(
    x: int,
    y: int,
    x2: int,
    y2: int,
    dx: int,
    dy: int,
    sx: int,
    sy: int,
    err: int,
    fuel: nat,
)
    requires
        sx == 1 || sx == -1,
        sy == 1 || sy == -1,
    ensures
        ({
            let ps = bres_rec(x, y, x2, y2, dx, dy, sx, sy, err, fuel);
            forall|i: int|
                0 <= i < ps.len() - 1 ==> iabs((#[trigger] ps[i + 1]).0 - ps[i].0) <= 1 && iabs(
                    ps[i + 1].1 - ps[i].1,
                ) <= 1
        }),
    decreases fuel,
{
    let ps = bres_rec(x, y, x2, y2, dx, dy, sx, sy, err, fuel);
    if (x == x2 && y == y2) || fuel == 0 {
        assert(ps.len() == 1);
    } else {
        let e2: int = 2 * err;
        let nx: int = if e2 >= dy {
            x + sx
        } else {
            x
        };
        let ny: int = if e2 <= dx {
            y + sy
        } else {
            y
        };
        let nerr: int = err + (if e2 >= dy {
            dy
        } else {
            0
        }) + (if e2 <= dx {
            dx
        } else {
            0
        });
        let rest = bres_rec(nx, ny, x2, y2, dx, dy, sx, sy, nerr, (fuel - 1) as nat);
        lemma_bres_adjacent(nx, ny, x2, y2, dx, dy, sx, sy, nerr, (fuel - 1) as nat);
        assert(rest.len() >= 1 && rest[0] == (nx, ny));
        assert(ps == seq![(x, y)] + rest);
        assert forall|i: int|
            0 <= i < ps.len() - 1 implies iabs((#[trigger] ps[i + 1]).0 - ps[i].0) <= 1 && iabs(
            ps[i + 1].1 - ps[i].1,
        ) <= 1 by {
            if i == 0 {
                assert(ps[0] == (x, y));
                assert(ps[1] == rest[0]);
                assert(iabs(nx - x) <= 1 && iabs(ny - y) <= 1);
            } else {
                assert(ps[i] == rest[i - 1]);
                assert(ps[i + 1] == rest[i]);
                assert(iabs(rest[(i - 1) + 1].0 - rest[i - 1].0) <= 1 && iabs(
                    rest[(i - 1) + 1].1 - rest[i - 1].1,
                ) <= 1);
            }
        }
    }
}

/// Connectivity: consecutive positions a line visits differ by at most
/// one sub-cell on each axis, so the drawn path has no gap.
pub proof fn lemma_line_points_connected(x1: int, y1: int, x2: int, y2: int)
    ensures
        ({
            let ps = line_points(x1, y1, x2, y2);
            forall|i: int|
                0 <= i < ps.len() - 1 ==> iabs((#[trigger] ps[i + 1]).0 - ps[i].0) <= 1 && iabs(
                    ps[i + 1].1 - ps[i].1,
                ) <= 1
        }),
{
    let dx: int = iabs(x2 - x1);
    let dy: int = -iabs(y2 - y1);
    lemma_bres_adjacent(
        x1,
        y1,
        x2,
        y2,
        dx,
        dy,
        if x1 < x2 {
            1
        } else {
            -1
        },
        if y1 < y2 {
            1
        } else {
            -1
        },
        dx + dy,
        (dx - dy + 1) as nat,
    );
}

/// The grid after one dot lands at sub-cell position `p`: the position's
/// bit is OR-ed into the mask of the cell it falls in, creating the cell
/// if it was absent.
pub open spec fn stamp(g: Map<(int, int), u8>, p: (int, int)) -> Map<(int, int), u8> {
    let k: (int, int) = (cell_col(p.0), cell_row(p.1));
    let b: u8 = dot_bit(p.0, p.1);
    if g.contains_key(k) {
        g.insert(k, g[k] | b)
    } else {
        g.insert(k, b)
    }
}

/// The grid after the dots of `ps` land in order.
pub open spec fn stamp_seq(g: Map<(int, int), u8>, ps: Seq<(int, int)>) -> Map<(int, int), u8>
    decreases ps.len(),
{
    if ps.len() == 0 {
        g
    } else {
        stamp_seq(stamp(g, ps[0]), ps.subrange(1, ps.len() as int))
    }
}

/// The cell a sub-cell position falls in.
pub open spec fn cell_of(p: (int, int)) -> (int, int) {
    (cell_col(p.0), cell_row(p.1))
}

/// The OR of the dot bit of every position in `ps` that falls in cell
/// `k`.
pub open spec fn or_bits(ps: Seq<(int, int)>, k: (int, int)) -> u8
    decreases ps.len(),
{
    if ps.len() == 0 {
        0u8
    } else {
        (if cell_of(ps[0]) == k {
            dot_bit(ps[0].0, ps[0].1)
        } else {
            0u8
        }) | or_bits(ps.subrange(1, ps.len() as int), k)
    }
}

/// After the dots of `ps` land on `g`, a cell holds a mask exactly when
/// it held one before or a dot fell in it, and the mask it holds is the
/// OR of what it held before with the bit of every dot that fell in it.
pub proof fn lemma_stamp_seq_mask(g: Map<(int, int), u8>, ps: Seq<(int, int)>, k: (int, int))
    ensures
        stamp_seq(g, ps).contains_key(k) <==> (g.contains_key(k) || exists|i: int|
            0 <= i < ps.len() && cell_of(#[trigger] ps[i]) == k),
        stamp_seq(g, ps).contains_key(k) ==> stamp_seq(g, ps)[k] == (if g.contains_key(k) {
            g[k]
        } else {
            0u8
        }) | or_bits(ps, k),
    decreases ps.len(),
{
    if ps.len() == 0 {
        let a: u8 = if g.contains_key(k) {
            g[k]
        } else {
            0u8
        };
        assert(a | 0u8 == a) by (bit_vector);
    } else {
        let p = ps[0];
        let rest = ps.subrange(1, ps.len() as int);
        let g1 = stamp(g, p);
        lemma_stamp_seq_mask(g1, rest, k);
        assert(stamp_seq(g, ps) == stamp_seq(g1, rest));
        let b0: u8 = if cell_of(p) == k {
            dot_bit(p.0, p.1)
        } else {
            0u8
        };
        let a: u8 = if g.contains_key(k) {
            g[k]
        } else {
            0u8
        };
        assert((exists|i: int| 0 <= i < ps.len() && cell_of(#[trigger] ps[i]) == k) <==> (cell_of(
            ps[0],
        ) == k || exists|j: int| 0 <= j < rest.len() && cell_of(#[trigger] rest[j]) == k)) by {
            if exists|i: int| 0 <= i < ps.len() && cell_of(#[trigger] ps[i]) == k {
                let i = choose|i: int| 0 <= i < ps.len() && cell_of(#[trigger] ps[i]) == k;
                if i > 0 {
                    assert(rest[i - 1] == ps[i]);
                }
            }
            if exists|j: int| 0 <= j < rest.len() && cell_of(#[trigger] rest[j]) == k {
                let j = choose|j: int| 0 <= j < rest.len() && cell_of(#[trigger] rest[j]) == k;
                assert(ps[j + 1] == rest[j]);
            }
        }
        if cell_of(p) == k {
            assert(g1.contains_key(k));
            assert(g1[k] == a | b0) by {
                if !g.contains_key(k) {
                    assert(0u8 | b0 == b0) by (bit_vector);
                }
            }
            if stamp_seq(g1, rest).contains_key(k) {
                let r: u8 = or_bits(rest, k);
                assert((a | b0) | r == a | (b0 | r)) by (bit_vector);
            }
        } else {
            assert(g1.contains_key(k) == g.contains_key(k));
            if g.contains_key(k) {
                assert(g1[k] == g[k]);
                if stamp_seq(g1, rest).contains_key(k) {
                    let r: u8 = or_bits(rest, k);
                    assert(a | r == a | (0u8 | r)) by (bit_vector);
                }
            } else {
                if stamp_seq(g1, rest).contains_key(k) {
                    let r: u8 = or_bits(rest, k);
                    assert(0u8 | r == 0u8 | (0u8 | r)) by (bit_vector);
                }
            }
        }
    }
}

/// Landing two dots on a grid gives the same grid in either order: each
/// dot only ORs its bit into the mask of its own cell.
pub proof fn lemma_stamp_commutes(g: Map<(int, int), u8>, p: (int, int), q: (int, int))
    ensures
        stamp(stamp(g, p), q) == stamp(stamp(g, q), p),
{
    let kp: (int, int) = (cell_col(p.0), cell_row(p.1));
    let bp: u8 = dot_bit(p.0, p.1);
    let kq: (int, int) = (cell_col(q.0), cell_row(q.1));
    let bq: u8 = dot_bit(q.0, q.1);
    if kp == kq {
        if g.contains_key(kp) {
            let a: u8 = g[kp];
            assert((a | bp) | bq == (a | bq) | bp) by (bit_vector);
            assert(stamp(stamp(g, p), q) =~= stamp(stamp(g, q), p));
        } else {
            assert(bp | bq == bq | bp) by (bit_vector);
            assert(stamp(stamp(g, p), q) =~= stamp(stamp(g, q), p));
        }
    } else {
        assert(stamp(stamp(g, p), q) =~= stamp(stamp(g, q), p));
    }
}

/// Appending a dot to a drawing order lands it last; the grid is the one
/// dot landed on the grid of the others.
pub proof fn lemma_stamp_seq_push(g: Map<(int, int), u8>, ps: Seq<(int, int)>, p: (int, int))
    ensures
        stamp_seq(g, ps.push(p)) == stamp(stamp_seq(g, ps), p),
    decreases ps.len(),
{
    if ps.len() == 0 {
        assert(ps.push(p)[0] == p);
        assert(ps.push(p).subrange(1, 1) =~= Seq::<(int, int)>::empty());
        assert(stamp_seq(g, ps.push(p)) == stamp_seq(stamp(g, p), Seq::<(int, int)>::empty()));
        assert(stamp_seq(stamp(g, p), Seq::<(int, int)>::empty()) == stamp(g, p));
        assert(stamp_seq(g, ps) == g);
    } else {
        let t = ps.subrange(1, ps.len() as int);
        assert(ps.push(p)[0] == ps[0]);
        assert(ps.push(p).subrange(1, ps.len() as int + 1) =~= t.push(p));
        assert(stamp_seq(g, ps.push(p)) == stamp_seq(stamp(g, ps[0]), t.push(p)));
        lemma_stamp_seq_push(stamp(g, ps[0]), t, p);
        assert(stamp_seq(g, ps) == stamp_seq(stamp(g, ps[0]), t));
    }
}

proof fn lemma_stamp_seq_front(g: Map<(int, int), u8>, ps: Seq<(int, int)>, p: (int, int))
    ensures
        stamp_seq(stamp(g, p), ps) == stamp(stamp_seq(g, ps), p),
    decreases ps.len(),
{
    if ps.len() == 0 {
    } else {
        let t = ps.subrange(1, ps.len() as int);
        lemma_stamp_commutes(g, p, ps[0]);
        lemma_stamp_seq_front(stamp(g, ps[0]), t, p);
    }
}

/// Landing the dots of a drawing order in reverse gives the same grid:
/// the touched cells and their accumulated masks do not depend on the
/// order the dots land in.
pub proof fn lemma_stamp_seq_reverse(g: Map<(int, int), u8>, ps: Seq<(int, int)>)
    ensures
        stamp_seq(g, ps.reverse()) == stamp_seq(g, ps),
    decreases ps.len(),
{
    if ps.len() == 0 {
        assert(ps.reverse() =~= ps);
    } else {
        let r = ps.reverse();
        let lst = ps.last();
        let t = ps.drop_last();
        assert(r[0] == lst);
        assert(r.subrange(1, r.len() as int) =~= t.reverse());
        lemma_stamp_seq_reverse(stamp(g, lst), t);
        lemma_stamp_seq_front(g, t, lst);
        lemma_stamp_seq_push(g, t, lst);
        assert(t.push(lst) =~= ps);
    }
}

/// A degenerate line, both endpoints equal, lands exactly the one dot of
/// a single point-set call on the same position.
pub proof fn lemma_line_single_point(g: Map<(int, int), u8>, x: int, y: int)
    ensures
        stamp_seq(g, line_points(x, y, x, y)) == stamp(g, (x, y)),
{
    assert(line_points(x, y, x, y) == seq![(x, y)]);
    assert(seq![(x, y)].subrange(1, 1) =~= Seq::<(int, int)>::empty());
    assert(stamp_seq(g, seq![(x, y)]) == stamp_seq(stamp(g, (x, y)), seq![(x, y)].subrange(1, 1)));
    assert(stamp_seq(stamp(g, (x, y)), Seq::<(int, int)>::empty()) == stamp(g, (x, y)));
}

spec fn straight_points(x: int, y: int, x2: int, y2: int) -> Seq<(int, int)> {
    Seq::new(
        ((if iabs(x2 - x) >= iabs(y2 - y) {
            iabs(x2 - x)
        } else {
            iabs(y2 - y)
        }) + 1) as nat,
        |i: int|
            (
                if x2 == x {
                    x
                } else if x < x2 {
                    x + i
                } else {
                    x - i
                },
                if y2 == y {
                    y
                } else if y < y2 {
                    y + i
                } else {
                    y - i
                },
            ),
    )
}

proof fn lemma_bres_straight(
    x: int,
    y: int,
    x2: int,
    y2: int,
    dx: int,
    dy: int,
    sx: int,
    sy: int,
    fuel: nat,
)
    requires
        dx >= 0,
        dy <= 0,
        dx == 0 || dy == 0 || dx == -dy,
        iabs(x2 - x) <= dx,
        iabs(y2 - y) <= -dy,
        dx == 0 ==> x == x2,
        dy == 0 ==> y == y2,
        dx == -dy && dx != 0 ==> iabs(x2 - x) == iabs(y2 - y),
        x != x2 ==> ((sx == 1 && x < x2) || (sx == -1 && x > x2)),
        y != y2 ==> ((sy == 1 && y < y2) || (sy == -1 && y > y2)),
        fuel > iabs(x2 - x) + iabs(y2 - y),
    ensures
        bres_rec(x, y, x2, y2, dx, dy, sx, sy, dx + dy, fuel) == straight_points(x, y, x2, y2),
    decreases fuel,
{
    if x == x2 && y == y2 {
        assert(bres_rec(x, y, x2, y2, dx, dy, sx, sy, dx + dy, fuel) =~= straight_points(
            x,
            y,
            x2,
            y2,
        ));
    } else {
        let e2: int = 2 * (dx + dy);
        let xstep: bool = e2 >= dy;
        let ystep: bool = e2 <= dx;
        let nx: int = if xstep {
            x + sx
        } else {
            x
        };
        let ny: int = if ystep {
            y + sy
        } else {
            y
        };
        if dy == 0 {
            assert(y == y2 && x != x2);
            assert(dx > 0);
            assert(xstep && !ystep);
        } else if dx == 0 {
            assert(x == x2 && y != y2);
            assert(dy < 0);
            assert(!xstep && ystep);
        } else {
            assert(dx == -dy && dx > 0);
            assert(e2 == 0);
            assert(xstep && ystep);
            assert(x != x2 && y != y2) by {
                assert(iabs(x2 - x) == iabs(y2 - y));
            }
        }
        let nerr: int = (dx + dy) + (if xstep {
            dy
        } else {
            0
        }) + (if ystep {
            dx
        } else {
            0
        });
        assert(nerr == dx + dy);
        assert(bres_rec(x, y, x2, y2, dx, dy, sx, sy, dx + dy, fuel) == seq![(x, y)] + bres_rec(
            nx,
            ny,
            x2,
            y2,
            dx,
            dy,
            sx,
            sy,
            nerr,
            (fuel - 1) as nat,
        ));
        lemma_bres_straight(nx, ny, x2, y2, dx, dy, sx, sy, (fuel - 1) as nat);
        assert(seq![(x, y)] + straight_points(nx, ny, x2, y2) =~= straight_points(x, y, x2, y2));
    }
}

/// Swapping the endpoints of an axis-aligned or exactly diagonal line
/// visits the same positions in reverse order, so it touches the same
/// cells and leaves the same masks: the resulting grid is the same.
pub proof fn lemma_line_swap_straight(g: Map<(int, int), u8>, x1: int, y1: int, x2: int, y2: int)
    requires
        x1 == x2 || y1 == y2 || iabs(x2 - x1) == iabs(y2 - y1),
    ensures
        stamp_seq(g, line_points(x1, y1, x2, y2)) == stamp_seq(g, line_points(x2, y2, x1, y1)),
{
    let dx: int = iabs(x2 - x1);
    let dyp: int = iabs(y2 - y1);
    lemma_bres_straight(
        x1,
        y1,
        x2,
        y2,
        dx,
        -dyp,
        if x1 < x2 {
            1
        } else {
            -1
        },
        if y1 < y2 {
            1
        } else {
            -1
        },
        (dx + dyp + 1) as nat,
    );
    lemma_bres_straight(
        x2,
        y2,
        x1,
        y1,
        dx,
        -dyp,
        if x2 < x1 {
            1
        } else {
            -1
        },
        if y2 < y1 {
            1
        } else {
            -1
        },
        (dx + dyp + 1) as nat,
    );
    assert(line_points(x1, y1, x2, y2) == straight_points(x1, y1, x2, y2));
    assert(line_points(x2, y2, x1, y1) == straight_points(x2, y2, x1, y1));
    let n: int = if dx >= dyp {
        dx
    } else {
        dyp
    };
    assert(straight_points(x2, y2, x1, y1) =~= straight_points(x1, y1, x2, y2).reverse()) by {
        assert(forall|i: int|
            0 <= i <= n ==> #[trigger] straight_points(x1, y1, x2, y2).reverse()[i]
                == straight_points(x1, y1, x2, y2)[n - i]);
        assert(forall|i: int|
            0 <= i <= n ==> #[trigger] straight_points(x2, y2, x1, y1)[i] == straight_points(
                x1,
                y1,
                x2,
                y2,
            )[n - i]) by {
            assert(x1 != x2 ==> n == dx);
            assert(y1 != y2 ==> n == dyp);
        }
    }
    lemma_stamp_seq_reverse(g, line_points(x1, y1, x2, y2));
}

/// The glyph standing for a cell's dot mask: the dot-matrix block's base
/// code point plus the mask value.
pub open spec fn glyph_of(m: u8) -> char {
    (0x2800 + m) as char
}

/// The character emitted for position `(x, y)` of the serialized block:
/// the cell's glyph where a cell is present, a blank otherwise.
pub open spec fn cell_glyph(g: Map<(int, int), u8>, x: int, y: int) -> char {
    if g.contains_key((x, y)) {
        glyph_of(g[(x, y)])
    } else {
        ' '
    }
}

/// One serialized row: the characters for columns `x0..=x1` of row `y`.
pub open spec fn row_glyphs(g: Map<(int, int), u8>, y: int, x0: int, x1: int) -> Seq<char> {
    Seq::new((x1 - x0 + 1) as nat, |i: int| cell_glyph(g, x0 + i, y))
}

/// The serialized rows `y0..=y1`, each terminated by a carriage return
/// and newline pair.
pub open spec fn rows_glyphs(g: Map<(int, int), u8>, y0: int, y1: int, x0: int, x1: int) -> Seq<
    char,
>
    decreases y1 - y0 + 1,
{
    if y0 > y1 {
        Seq::empty()
    } else {
        row_glyphs(g, y0, x0, x1) + seq!['\r', '\n'] + rows_glyphs(g, y0 + 1, y1, x0, x1)
    }
}

/// Relies on char::from_u32: a valid Unicode scalar value converts to
/// the char at that code point; a surrogate or out-of-range value gives
/// nothing.
pub assume_specification[ char::from_u32 ](v: u32) -> (r: Option<char>)
    ensures
        (v < 0xD800 || (0xE000 <= v && v <= 0x10FFFF)) ==> r == Some(v as char),
        !(v < 0xD800 || (0xE000 <= v && v <= 0x10FFFF)) ==> r == None::<char>,
;

/// Relies on String::push: appends the one character to the string.
pub assume_specification[ String::push ](s: &mut String, ch: char)
    ensures
        final(s)@ == old(s)@.push(ch),
;

fn glyph_char(m: u8) -> (c: char)
    ensures
        c == glyph_of(m),
{
    let v: u32 = 0x2800u32 + (m as u32);
    match char::from_u32(v) {
        Some(c) => c,
        None => ' ',
    }
}

proof fn lemma_rows_glyphs_len(g: Map<(int, int), u8>, y0: int, y1: int, x0: int, x1: int)
    requires
        x0 <= x1,
    ensures
        y0 > y1 ==> rows_glyphs(g, y0, y1, x0, x1).len() == 0,
        y0 <= y1 ==> rows_glyphs(g, y0, y1, x0, x1).len() == (y1 - y0 + 1) * (x1 - x0 + 3),
    decreases y1 - y0 + 1,
{
    if y0 > y1 {
    } else {
        lemma_rows_glyphs_len(g, y0 + 1, y1, x0, x1);
        assert(rows_glyphs(g, y0, y1, x0, x1) == row_glyphs(g, y0, x0, x1) + seq!['\r', '\n']
            + rows_glyphs(g, y0 + 1, y1, x0, x1));
        assert(row_glyphs(g, y0, x0, x1).len() == x1 - x0 + 1);
        assert(y0 + 1 <= y1 ==> rows_glyphs(g, y0 + 1, y1, x0, x1).len() == (y1 - y0) * (x1 - x0
            + 3)) by {
            if y0 + 1 <= y1 {
                assert((y1 - (y0 + 1) + 1) * (x1 - x0 + 3) == (y1 - y0) * (x1 - x0 + 3));
            }
        }
        assert((y1 - y0 + 1) * (x1 - x0 + 3) == (y1 - y0) * (x1 - x0 + 3) + (x1 - x0 + 3))
            by (nonlinear_arith);
        assert(rows_glyphs(g, y0, y1, x0, x1).len() == (x1 - x0 + 3) + rows_glyphs(
            g,
            y0 + 1,
            y1,
            x0,
            x1,
        ).len());
        if y0 == y1 {
            assert(rows_glyphs(g, y0 + 1, y1, x0, x1).len() == 0);
            assert((y1 - y0) * (x1 - x0 + 3) == 0) by (nonlinear_arith)
                requires
                    y0 == y1,
            ;
        }
    }
}

proof fn lemma_rows_glyphs_index(
    g: Map<(int, int), u8>,
    y0: int,
    y1: int,
    x0: int,
    x1: int,
    x: int,
    y: int,
)
    requires
        x0 <= x <= x1,
        y0 <= y <= y1,
    ensures
        ({
            let idx = (y - y0) * (x1 - x0 + 3) + (x - x0);
            0 <= idx < rows_glyphs(g, y0, y1, x0, x1).len() && rows_glyphs(g, y0, y1, x0, x1)[idx]
                == cell_glyph(g, x, y)
        }),
    decreases y - y0,
{
    lemma_rows_glyphs_len(g, y0, y1, x0, x1);
    let row = row_glyphs(g, y0, x0, x1);
    let rest = rows_glyphs(g, y0 + 1, y1, x0, x1);
    let whole = rows_glyphs(g, y0, y1, x0, x1);
    assert(whole == row + seq!['\r', '\n'] + rest);
    if y == y0 {
        let idx: int = x - x0;
        assert((y - y0) * (x1 - x0 + 3) == 0) by (nonlinear_arith)
            requires
                y == y0,
        ;
        assert((row + seq!['\r', '\n'])[idx] == row[idx]);
        assert(whole[idx] == (row + seq!['\r', '\n'])[idx]);
        assert(row[idx] == cell_glyph(g, x0 + idx, y0));
    } else {
        lemma_rows_glyphs_index(g, y0 + 1, y1, x0, x1, x, y);
        lemma_rows_glyphs_len(g, y0 + 1, y1, x0, x1);
        let sub: int = (y - y0 - 1) * (x1 - x0 + 3) + (x - x0);
        let idx: int = (y - y0) * (x1 - x0 + 3) + (x - x0);
        assert((y - y0) * (x1 - x0 + 3) + (x - x0) == (y - y0 - 1) * (x1 - x0 + 3) + (x - x0) + (x1
            - x0 + 3)) by (nonlinear_arith);
        assert(idx == sub + (x1 - x0 + 3));
        assert((row + seq!['\r', '\n']).len() == x1 - x0 + 3);
        assert(whole[idx] == rest[idx - (x1 - x0 + 3)]);
    }
}

/// Parse-back: for every cell present in a well-formed rasterizer, the
/// serialized block holds, at that cell's position, exactly the glyph
/// standing for the cell's mask — the OR of the bit of every dot that
/// ever landed in that cell, whatever the order the dots landed in.
pub proof fn lemma_frame_parse_back(c: Canvas, k: (int, int))
    requires
        c.wf(),
        c.grid().contains_key(k),
    ensures
        ({
            let width = c.max_col() - c.min_col() + 1;
            let idx = (k.1 - c.min_row()) * (width + 2) + (k.0 - c.min_col());
            0 <= idx < c.frame_spec().len() && c.frame_spec()[idx] == glyph_of(c.grid()[k])
        }),
{
    c.lemma_bounds_exact();
    assert(c.grid().dom().contains(k));
    assert(c.grid().dom() != Set::<(int, int)>::empty());
    assert(c.grid() != Map::<(int, int), u8>::empty()) by {
        if c.grid() == Map::<(int, int), u8>::empty() {
            assert(c.grid().dom() =~= Set::<(int, int)>::empty());
        }
    }
    assert(c.min_col() <= k.0 <= c.max_col() && c.min_row() <= k.1 <= c.max_row());
    lemma_rows_glyphs_index(c.grid(), c.min_row(), c.max_row(), c.min_col(), c.max_col(), k.0, k.1);
    assert(cell_glyph(c.grid(), k.0, k.1) == glyph_of(c.grid()[k]));
}

spec fn cell_key(c: DotCell) -> (int, int) {
    (c.cx as int, c.cy as int)
}

spec fn map_of(s: Seq<DotCell>) -> Map<(int, int), u8>
    decreases s.len(),
{
    if s.len() == 0 {
        Map::empty()
    } else {
        map_of(s.drop_last()).insert(cell_key(s.last()), s.last().mask)
    }
}

spec fn has_key(s: Seq<DotCell>, k: (int, int)) -> bool {
    exists|i: int| 0 <= i < s.len() && #[trigger] cell_key(s[i]) == k
}

proof fn lemma_map_of_contains(s: Seq<DotCell>, k: (int, int))
    ensures
        map_of(s).contains_key(k) <==> has_key(s, k),
    decreases s.len(),
{
    if s.len() == 0 {
    } else {
        let t = s.drop_last();
        lemma_map_of_contains(t, k);
        if cell_key(s.last()) == k {
            assert(cell_key(s[s.len() - 1]) == k);
            assert(has_key(s, k));
        } else {
            if map_of(s).contains_key(k) {
                let i = choose|i: int| 0 <= i < t.len() && #[trigger] cell_key(t[i]) == k;
                assert(cell_key(s[i]) == k);
                assert(has_key(s, k));
            }
            if has_key(s, k) {
                let i = choose|i: int| 0 <= i < s.len() && #[trigger] cell_key(s[i]) == k;
                assert(i < s.len() - 1);
                assert(cell_key(t[i]) == k);
                assert(has_key(t, k));
            }
        }
    }
}

proof fn lemma_map_of_get(s: Seq<DotCell>, i: int)
    requires
        Canvas::keys_unique(s),
        0 <= i < s.len(),
    ensures
        map_of(s).contains_key(cell_key(s[i])),
        map_of(s)[cell_key(s[i])] == s[i].mask,
    decreases s.len(),
{
    let t = s.drop_last();
    if i == s.len() - 1 {
    } else {
        assert(forall|p: int, q: int|
            0 <= p < q < t.len() ==> cell_key(t[p]) != cell_key(t[q])) by {
            assert(forall|p: int| 0 <= p < t.len() ==> t[p] == s[p]);
        }
        lemma_map_of_get(t, i);
        assert(cell_key(s[i]) != cell_key(s.last()));
    }
}

proof fn lemma_map_of_update(s: Seq<DotCell>, i: int, c: DotCell)
    requires
        Canvas::keys_unique(s),
        0 <= i < s.len(),
        cell_key(c) == cell_key(s[i]),
    ensures
        map_of(s.update(i, c)) == map_of(s).insert(cell_key(c), c.mask),
    decreases s.len(),
{
    let t = s.drop_last();
    let u = s.update(i, c);
    if i == s.len() - 1 {
        assert(u.drop_last() =~= t);
        assert(u.last() == c);
        assert(map_of(u) == map_of(t).insert(cell_key(c), c.mask));
        assert(map_of(s) == map_of(t).insert(cell_key(s.last()), s.last().mask));
        assert(map_of(t).insert(cell_key(s.last()), s.last().mask).insert(cell_key(c), c.mask)
            =~= map_of(t).insert(cell_key(c), c.mask));
    } else {
        assert(forall|p: int, q: int|
            0 <= p < q < t.len() ==> cell_key(t[p]) != cell_key(t[q])) by {
            assert(forall|p: int| 0 <= p < t.len() ==> t[p] == s[p]);
        }
        lemma_map_of_update(t, i, c);
        assert(u.drop_last() =~= t.update(i, c));
        assert(u.last() == s.last());
        assert(map_of(u) == map_of(t).insert(cell_key(c), c.mask).insert(
            cell_key(s.last()),
            s.last().mask,
        ));
        assert(cell_key(s.last()) != cell_key(c));
        assert(map_of(t).insert(cell_key(c), c.mask).insert(cell_key(s.last()), s.last().mask)
            =~= map_of(t).insert(cell_key(s.last()), s.last().mask).insert(cell_key(c), c.mask));
    }
}

/// Sparse rasterizer state: the cells that received at least one dot, each
/// with its accumulated 8-bit dot mask, plus the tight bounding rectangle
/// over the touched cells (held at an empty sentinel when no cell is
/// present).
pub struct Canvas {
    cells: Vec<DotCell>,
    min_x: i32,
    max_x: i32,
    min_y: i32,
    max_y: i32,
}

impl Canvas {
    /// The sparse cell store: cell address to accumulated dot mask.
    pub closed spec fn grid(self) -> Map<(int, int), u8> {
        map_of(self.cells@)
    }

    pub closed spec fn min_col(self) -> int {
        self.min_x as int
    }

    pub closed spec fn max_col(self) -> int {
        self.max_x as int
    }

    pub closed spec fn min_row(self) -> int {
        self.min_y as int
    }

    pub closed spec fn max_row(self) -> int {
        self.max_y as int
    }

    spec fn keys_unique(s: Seq<DotCell>) -> bool {
        forall|i: int, j: int| 0 <= i < j < s.len() ==> #[trigger] cell_key(s[i]) != #[trigger] cell_key(s[j])
    }

    pub closed spec fn wf(self) -> bool {
        &&& Self::keys_unique(self.cells@)
        &&& forall|i: int|
            0 <= i < self.cells@.len() ==> (#[trigger] self.cells@[i]).mask != 0
        &&& forall|i: int|
            0 <= i < self.cells@.len() ==> -500001 <= (#[trigger] self.cells@[i]).cx <= 500001
                && -250001 <= self.cells@[i].cy <= 250001
        &&& if self.cells@.len() == 0 {
            self.min_x == i32::MAX && self.max_x == i32::MIN && self.min_y == i32::MAX
                && self.max_y == i32::MIN
        } else {
            &&& forall|i: int|
                0 <= i < self.cells@.len() ==> self.min_x <= (#[trigger] self.cells@[i]).cx
                    <= self.max_x && self.min_y <= self.cells@[i].cy <= self.max_y
            &&& exists|i: int|
                0 <= i < self.cells@.len() && (#[trigger] self.cells@[i]).cx == self.min_x
            &&& exists|i: int|
                0 <= i < self.cells@.len() && (#[trigger] self.cells@[i]).cx == self.max_x
            &&& exists|i: int|
                0 <= i < self.cells@.len() && (#[trigger] self.cells@[i]).cy == self.min_y
            &&& exists|i: int|
                0 <= i < self.cells@.len() && (#[trigger] self.cells@[i]).cy == self.max_y
        }
    }

    /// The bounding rectangle is exactly the min/max over the cell
    /// addresses present in the grid, with the empty sentinel when no cell
    /// holds a dot.
    pub open spec fn bounds_exact(self) -> bool {
        if self.grid().dom() == Set::<(int, int)>::empty() {
            self.min_col() == i32::MAX && self.max_col() == i32::MIN && self.min_row() == i32::MAX
                && self.max_row() == i32::MIN
        } else {
            &&& forall|k: (int, int)|
                #[trigger] self.grid().contains_key(k) ==> self.min_col() <= k.0 <= self.max_col()
                    && self.min_row() <= k.1 <= self.max_row()
            &&& exists|k: (int, int)| #[trigger] self.grid().contains_key(k) && k.0 == self.min_col()
            &&& exists|k: (int, int)| #[trigger] self.grid().contains_key(k) && k.0 == self.max_col()
            &&& exists|k: (int, int)| #[trigger] self.grid().contains_key(k) && k.1 == self.min_row()
            &&& exists|k: (int, int)| #[trigger] self.grid().contains_key(k) && k.1 == self.max_row()
        }
    }

    /// After any sequence of operations that keep the rasterizer
    /// well-formed, the stored bounding rectangle equals the min/max
    /// column and row over the cells with a non-empty mask.
    pub proof fn lemma_bounds_exact(self)
        requires
            self.wf(),
        ensures
            self.bounds_exact(),
    {
        let s = self.cells@;
        if s.len() == 0 {
            assert(self.grid().dom() =~= Set::<(int, int)>::empty());
        } else {
            assert(self.grid().contains_key(cell_key(s[0]))) by {
                lemma_map_of_contains(s, cell_key(s[0]));
            }
            assert(self.grid().dom() != Set::<(int, int)>::empty()) by {
                assert(self.grid().dom().contains(cell_key(s[0])));
            }
            assert forall|k: (int, int)| #[trigger] self.grid().contains_key(k) implies self.min_col()
                <= k.0 <= self.max_col() && self.min_row() <= k.1 <= self.max_row() by {
                lemma_map_of_contains(s, k);
                let i = choose|i: int| 0 <= i < s.len() && #[trigger] cell_key(s[i]) == k;
                assert(self.min_x <= s[i].cx <= self.max_x);
            }
            let i1 = choose|i: int| 0 <= i < s.len() && (#[trigger] s[i]).cx == self.min_x;
            lemma_map_of_contains(s, cell_key(s[i1]));
            assert(self.grid().contains_key(cell_key(s[i1])) && cell_key(s[i1]).0 == self.min_col());
            let i2 = choose|i: int| 0 <= i < s.len() && (#[trigger] s[i]).cx == self.max_x;
            lemma_map_of_contains(s, cell_key(s[i2]));
            assert(self.grid().contains_key(cell_key(s[i2])) && cell_key(s[i2]).0 == self.max_col());
            let i3 = choose|i: int| 0 <= i < s.len() && (#[trigger] s[i]).cy == self.min_y;
            lemma_map_of_contains(s, cell_key(s[i3]));
            assert(self.grid().contains_key(cell_key(s[i3])) && cell_key(s[i3]).1 == self.min_row());
            let i4 = choose|i: int| 0 <= i < s.len() && (#[trigger] s[i]).cy == self.max_y;
            lemma_map_of_contains(s, cell_key(s[i4]));
            assert(self.grid().contains_key(cell_key(s[i4])) && cell_key(s[i4]).1 == self.max_row());
        }
    }

    /// A rasterizer with no dots and the empty bounding rectangle.
    pub fn new() -> (r: Canvas)
        ensures
            r.wf(),
            r.grid() == Map::<(int, int), u8>::empty(),
    {
        let r = Canvas {
            cells: Vec::new(),
            min_x: i32::MAX,
            max_x: i32::MIN,
            min_y: i32::MAX,
            max_y: i32::MIN,
        };
        proof {
            assert(r.cells@.len() == 0);
        }
        r
    }

    /// Removes every cell and resets the bounding rectangle to the empty
    /// sentinel.
    pub fn clear(&mut self)
        ensures
            final(self).wf(),
            final(self).grid() == Map::<(int, int), u8>::empty(),
            final(self).frame_spec() == Seq::<char>::empty(),
    {
        self.cells.clear();
        self.min_x = i32::MAX;
        self.max_x = i32::MIN;
        self.min_y = i32::MAX;
        self.max_y = i32::MIN;
    }

    /// Splits an integer sub-cell position into its cell address and
    /// dot-mask bit, with floor-division semantics on both axes.
    pub fn get_pixel_map(x: i32, y: i32) -> (r: ((i32, i32), u8))
        requires
            -COORD_LIMIT <= x <= COORD_LIMIT,
            -COORD_LIMIT <= y <= COORD_LIMIT,
        ensures
            r.0.0 as int == cell_col(x as int),
            r.0.1 as int == cell_row(y as int),
            r.1 == dot_bit(x as int, y as int),
            r.1 != 0,
    {
        let ux: u32 = (x + 2097152) as u32;
        let uy: u32 = (y + 2097152) as u32;
        let cx: i32 = (ux / 2) as i32 - 1048576;
        let cy: i32 = (uy / 4) as i32 - 524288;
        let sx: u32 = ux % 2;
        let sy: u32 = uy % 4;
        proof {
            lemma_hoist_over_denominator(x as int, 1048576, 2);
            lemma_hoist_over_denominator(y as int, 524288, 4);
            lemma_mod_multiples_vanish(1048576, x as int, 2);
            lemma_mod_multiples_vanish(524288, y as int, 4);
        }
        let mask: u8 = if sx == 0 {
            if sy == 0 {
                0x01
            } else if sy == 1 {
                0x02
            } else if sy == 2 {
                0x04
            } else {
                0x40
            }
        } else {
            if sy == 0 {
                0x08
            } else if sy == 1 {
                0x10
            } else if sy == 2 {
                0x20
            } else {
                0x80
            }
        };
        ((cx, cy), mask)
    }

    fn find_cell(&self, cx: i32, cy: i32) -> (r: Option<usize>)
        ensures
            match r {
                Some(i) => i < self.cells@.len() && cell_key(self.cells@[i as int]) == (
                    cx as int,
                    cy as int,
                ),
                None => !has_key(self.cells@, (cx as int, cy as int)),
            },
    {
        let mut i: usize = 0;
        while i < self.cells.len()
            invariant
                i <= self.cells@.len(),
                forall|j: int|
                    0 <= j < i ==> #[trigger] cell_key(self.cells@[j]) != (cx as int, cy as int),
            decreases self.cells@.len() - i,
        {
            if self.cells[i].cx == cx && self.cells[i].cy == cy {
                return Some(i);
            }
            i += 1;
        }
        None
    }

    /// Lands one dot at integer sub-cell position `(x, y)`: the dot's bit
    /// is OR-accumulated into the mask of the cell the position falls in,
    /// and the bounding rectangle is widened if the cell is new-extremal.
    pub fn set(&mut self, x: i32, y: i32)
        requires
            old(self).wf(),
            -COORD_LIMIT <= x <= COORD_LIMIT,
            -COORD_LIMIT <= y <= COORD_LIMIT,
        ensures
            final(self).wf(),
            final(self).grid() == stamp(old(self).grid(), (x as int, y as int)),
    {
        let ((cx, cy), bit) = Self::get_pixel_map(x, y);
        let ghost k: (int, int) = (cx as int, cy as int);
        let ghost s0 = self.cells@;
        let ghost mut ip: int = 0;
        proof {
            lemma_map_of_contains(s0, k);
            assert(-500001 <= cx <= 500001 && -250001 <= cy <= 250001);
        }
        match self.find_cell(cx, cy) {
            Some(i) => {
                let m: u8 = self.cells[i].mask;
                proof {
                    assert(cell_key(s0[i as int]) == k);
                    assert(has_key(s0, k));
                    lemma_map_of_get(s0, i as int);
                }
                let nm: u8 = m | bit;
                let c = DotCell { cx, cy, mask: nm };
                self.cells[i] = c;
                proof {
                    ip = i as int;
                    assert(nm != 0) by (bit_vector)
                        requires
                            nm == m | bit,
                            bit != 0u8,
                    ;
                    lemma_map_of_update(s0, i as int, c);
                    assert(self.grid() == stamp(map_of(s0), (x as int, y as int)));
                    assert(forall|j: int| 0 <= j < s0.len() && j != i ==> self.cells@[j] == s0[j]);
                    assert(forall|j: int|
                        0 <= j < self.cells@.len() ==> (#[trigger] self.cells@[j]).cx == s0[j].cx
                            && self.cells@[j].cy == s0[j].cy && self.cells@[j].mask != 0);
                    assert(forall|j: int|
                        0 <= j < self.cells@.len() ==> #[trigger] cell_key(self.cells@[j])
                            == cell_key(s0[j]));
                    assert(Self::keys_unique(self.cells@));
                }
            },
            None => {
                let c = DotCell { cx, cy, mask: bit };
                self.cells.push(c);
                proof {
                    ip = s0.len() as int;
                    assert(self.cells@.drop_last() =~= s0);
                    assert(self.cells@.last() == c);
                    assert(self.grid() == map_of(s0).insert(k, bit));
                    assert(self.grid() == stamp(map_of(s0), (x as int, y as int)));
                    assert(forall|j: int| 0 <= j < s0.len() ==> self.cells@[j] == s0[j]);
                    assert(forall|j: int|
                        0 <= j < s0.len() ==> #[trigger] cell_key(self.cells@[j]) != k);
                    assert(Self::keys_unique(self.cells@)) by {
                        assert(forall|p: int, q: int|
                            0 <= p < q < self.cells@.len() && q < s0.len()
                                ==> #[trigger] cell_key(self.cells@[p])
                                != #[trigger] cell_key(self.cells@[q]));
                        assert(forall|p: int|
                            0 <= p < s0.len() ==> #[trigger] cell_key(self.cells@[p])
                                != cell_key(self.cells@[s0.len() as int]));
                    }
                }
            },
        }
        if cx < self.min_x {
            self.min_x = cx;
        }
        if cx > self.max_x {
            self.max_x = cx;
        }
        if cy < self.min_y {
            self.min_y = cy;
        }
        if cy > self.max_y {
            self.max_y = cy;
        }
        proof {
            let s = self.cells@;
            assert(s.len() > 0);
            assert(0 <= ip < s.len() && s[ip].cx == cx && s[ip].cy == cy);
            // coordinates of the cells at old indices are unchanged
            assert(forall|j: int|
                0 <= j < s0.len() ==> (#[trigger] s[j]).cx == s0[j].cx && s[j].cy == s0[j].cy);
            assert(forall|j: int| 0 <= j < s.len() ==> self.min_x <= (#[trigger] s[j]).cx <= self.max_x
                && self.min_y <= s[j].cy <= self.max_y);
            assert(exists|i: int| 0 <= i < s.len() && (#[trigger] s[i]).cx == self.min_x) by {
                if self.min_x == cx {
                    assert(s[ip].cx == self.min_x);
                } else {
                    assert(s0.len() > 0);
                    let iw = choose|i: int| 0 <= i < s0.len() && (#[trigger] s0[i]).cx
                        == old(self).min_x;
                    assert(s[iw].cx == self.min_x);
                }
            }
            assert(exists|i: int| 0 <= i < s.len() && (#[trigger] s[i]).cx == self.max_x) by {
                if self.max_x == cx {
                    assert(s[ip].cx == self.max_x);
                } else {
                    assert(s0.len() > 0);
                    let iw = choose|i: int| 0 <= i < s0.len() && (#[trigger] s0[i]).cx
                        == old(self).max_x;
                    assert(s[iw].cx == self.max_x);
                }
            }
            assert(exists|i: int| 0 <= i < s.len() && (#[trigger] s[i]).cy == self.min_y) by {
                if self.min_y == cy {
                    assert(s[ip].cy == self.min_y);
                } else {
                    assert(s0.len() > 0);
                    let iw = choose|i: int| 0 <= i < s0.len() && (#[trigger] s0[i]).cy
                        == old(self).min_y;
                    assert(s[iw].cy == self.min_y);
                }
            }
            assert(exists|i: int| 0 <= i < s.len() && (#[trigger] s[i]).cy == self.max_y) by {
                if self.max_y == cy {
                    assert(s[ip].cy == self.max_y);
                } else {
                    assert(s0.len() > 0);
                    let iw = choose|i: int| 0 <= i < s0.len() && (#[trigger] s0[i]).cy
                        == old(self).max_y;
                    assert(s[iw].cy == self.max_y);
                }
            }
        }
    }

    /// Draws the discrete line between two integer sub-cell positions,
    /// landing one dot per visited position, both endpoints included.
    pub fn line(&mut self, x1: i32, y1: i32, x2: i32, y2: i32)
        requires
            old(self).wf(),
            -COORD_LIMIT <= x1 <= COORD_LIMIT,
            -COORD_LIMIT <= y1 <= COORD_LIMIT,
            -COORD_LIMIT <= x2 <= COORD_LIMIT,
            -COORD_LIMIT <= y2 <= COORD_LIMIT,
        ensures
            final(self).wf(),
            final(self).grid() == stamp_seq(
                old(self).grid(),
                line_points(x1 as int, y1 as int, x2 as int, y2 as int),
            ),
            line_points(x1 as int, y1 as int, x2 as int, y2 as int).len() >= 1,
            line_points(x1 as int, y1 as int, x2 as int, y2 as int)[0] == (x1 as int, y1 as int),
            line_points(x1 as int, y1 as int, x2 as int, y2 as int).last() == (
                x2 as int,
                y2 as int,
            ),
    {
        let ghost xa: int = x1 as int;
        let ghost ya: int = y1 as int;
        let ghost xb: int = x2 as int;
        let ghost yb: int = y2 as int;
        let dx: i32 = if x2 >= x1 {
            x2 - x1
        } else {
            x1 - x2
        };
        let dyp: i32 = if y2 >= y1 {
            y2 - y1
        } else {
            y1 - y2
        };
        let dy: i32 = -dyp;
        let sx: i32 = if x1 < x2 {
            1
        } else {
            -1
        };
        let sy: i32 = if y1 < y2 {
            1
        } else {
            -1
        };
        let mut err: i32 = dx + dy;
        let mut x: i32 = x1;
        let mut y: i32 = y1;
        let ghost dxg: int = dx as int;
        let ghost dyg: int = dy as int;
        let ghost sxg: int = sx as int;
        let ghost syg: int = sy as int;
        let ghost g0 = self.grid();
        let ghost pts = line_points(xa, ya, xb, yb);
        let ghost mut done: Seq<(int, int)> = Seq::empty();
        let ghost mut fuel: nat = (dxg - dyg + 1) as nat;
        let ghost mut axp: int = 0;
        let ghost mut byp: int = 0;
        proof {
            assert(dxg == iabs(xb - xa));
            assert(dyg == -iabs(yb - ya));
            assert(pts == bres_rec(xa, ya, xb, yb, dxg, dyg, sxg, syg, err as int, fuel));
            assert(Seq::<(int, int)>::empty() + bres_rec(
                xa,
                ya,
                xb,
                yb,
                dxg,
                dyg,
                sxg,
                syg,
                err as int,
                fuel,
            ) =~= bres_rec(xa, ya, xb, yb, dxg, dyg, sxg, syg, err as int, fuel));
        }
        loop
            invariant_except_break
                self.wf(),
                g0 == old(self).grid(),
                pts == line_points(xa, ya, xb, yb),
                xa == x1 as int && ya == y1 as int && xb == x2 as int && yb == y2 as int,
                -COORD_LIMIT <= x1 <= COORD_LIMIT && -COORD_LIMIT <= y1 <= COORD_LIMIT,
                -COORD_LIMIT <= x2 <= COORD_LIMIT && -COORD_LIMIT <= y2 <= COORD_LIMIT,
                dxg == iabs(xb - xa) && dyg == -iabs(yb - ya),
                dx as int == dxg && dy as int == dyg,
                sx as int == sxg && sy as int == syg,
                sxg == (if xa < xb { 1int } else { -1int }),
                syg == (if ya < yb { 1int } else { -1int }),
                0 <= axp <= dxg,
                0 <= byp <= -dyg,
                sxg == 1 ==> x as int == xa + axp,
                sxg == -1 ==> x as int == xa - axp,
                syg == 1 ==> y as int == ya + byp,
                syg == -1 ==> y as int == ya - byp,
                -COORD_LIMIT <= x <= COORD_LIMIT,
                -COORD_LIMIT <= y <= COORD_LIMIT,
                err as int == dxg + dyg + axp * dyg + byp * dxg,
                3 * dyg <= 2 * (err as int) <= 3 * dxg,
                fuel >= (dxg - axp) + (-dyg - byp) + 1,
                self.grid() == stamp_seq(g0, done),
                done.len() == 0 ==> x as int == xa && y as int == ya,
                done.len() > 0 ==> done[0] == (xa, ya),
                pts == done + bres_rec(
                    x as int,
                    y as int,
                    xb,
                    yb,
                    dxg,
                    dyg,
                    sxg,
                    syg,
                    err as int,
                    fuel,
                ),
            ensures
                self.wf(),
                self.grid() == stamp_seq(g0, pts),
                pts.len() >= 1,
                pts[0] == (xa, ya),
                pts.last() == (xb, yb),
            decreases fuel,
        {
            let ghost done0 = done;
            self.set(x, y);
            proof {
                lemma_stamp_seq_push(g0, done0, (x as int, y as int));
                done = done0.push((x as int, y as int));
            }
            if x == x2 && y == y2 {
                proof {
                    assert(bres_rec(x as int, y as int, xb, yb, dxg, dyg, sxg, syg, err as int, fuel)
                        == seq![(x as int, y as int)]);
                    assert(done0 + seq![(x as int, y as int)] =~= done);
                    assert(pts == done);
                    assert(pts.last() == (xb, yb));
                    assert(pts[0] == (xa, ya));
                }
                break;
            }
            let e2: i32 = 2 * err;
            let ghost x_old: int = x as int;
            let ghost y_old: int = y as int;
            let ghost err_old: int = err as int;
            let ghost fuel_old: nat = fuel;
            let ghost axp_old: int = axp;
            let ghost byp_old: int = byp;
            proof {
                // the endpoint coordinate, once reached, is never stepped past
                if axp == dxg && byp < -dyg {
                    assert(2 * (dxg + dyg + dxg * dyg + byp * dxg) < dyg) by (nonlinear_arith)
                        requires
                            dxg >= 0,
                            0 <= byp <= -dyg - 1,
                    ;
                    assert(2 * (err as int) < dyg);
                }
                if byp == -dyg && axp < dxg {
                    assert(2 * (dxg + dyg + axp * dyg + (-dyg) * dxg) > dxg) by (nonlinear_arith)
                        requires
                            dyg <= 0,
                            0 <= axp <= dxg - 1,
                    ;
                    assert(2 * (err as int) > dxg);
                }
                assert(axp == dxg ==> x as int == xb);
                assert(byp == -dyg ==> y as int == yb);
                assert(x as int == xb ==> axp == dxg);
                assert(y as int == yb ==> byp == -dyg);
            }
            if e2 >= dy {
                proof {
                    assert(axp < dxg);
                }
                err = err + dy;
                x = x + sx;
                proof {
                    axp = axp + 1;
                    assert((axp_old + 1) * dyg == axp_old * dyg + dyg) by (nonlinear_arith);
                }
            }
            if e2 <= dx {
                proof {
                    assert(byp < -dyg);
                }
                err = err + dx;
                y = y + sy;
                proof {
                    byp = byp + 1;
                    assert((byp_old + 1) * dxg == byp_old * dxg + dxg) by (nonlinear_arith);
                }
            }
            proof {
                fuel = (fuel_old - 1) as nat;
                assert(bres_rec(x_old, y_old, xb, yb, dxg, dyg, sxg, syg, err_old, fuel_old)
                    == seq![(x_old, y_old)] + bres_rec(
                    x as int,
                    y as int,
                    xb,
                    yb,
                    dxg,
                    dyg,
                    sxg,
                    syg,
                    err as int,
                    fuel,
                ));
                assert(done0 + (seq![(x_old, y_old)] + bres_rec(
                    x as int,
                    y as int,
                    xb,
                    yb,
                    dxg,
                    dyg,
                    sxg,
                    syg,
                    err as int,
                    fuel,
                )) =~= done + bres_rec(
                    x as int,
                    y as int,
                    xb,
                    yb,
                    dxg,
                    dyg,
                    sxg,
                    syg,
                    err as int,
                    fuel,
                ));
            }
        }
    }

    fn mask_at(&self, cx: i32, cy: i32) -> (r: Option<u8>)
        requires
            self.wf(),
        ensures
            match r {
                Some(m) => self.grid().contains_key((cx as int, cy as int)) && self.grid()[(
                    cx as int,
                    cy as int,
                )] == m,
                None => !self.grid().contains_key((cx as int, cy as int)),
            },
    {
        proof {
            lemma_map_of_contains(self.cells@, (cx as int, cy as int));
        }
        match self.find_cell(cx, cy) {
            Some(i) => {
                proof {
                    assert(cell_key(self.cells@[i as int]) == (cx as int, cy as int));
                    lemma_map_of_get(self.cells@, i as int);
                }
                Some(self.cells[i].mask)
            },
            None => None,
        }
    }

    /// The full serialization: each row of the bounding rectangle as
    /// glyphs followed by a carriage return and newline, top row first;
    /// the empty sequence when no cell holds a dot.
    pub open spec fn frame_spec(self) -> Seq<char> {
        if self.grid() == Map::<(int, int), u8>::empty() {
            Seq::empty()
        } else {
            rows_glyphs(self.grid(), self.min_row(), self.max_row(), self.min_col(), self.max_col())
        }
    }

    /// Serializes the bounding rectangle to a block of glyphs: one
    /// character per cell (a blank for an absent cell), rows terminated
    /// by a carriage-return-newline pair; the empty string when the
    /// rasterizer holds no dot.
    pub fn frame(&self) -> (r: String)
        requires
            self.wf(),
        ensures
            r@ == self.frame_spec(),
    {
        let ghost g = self.grid();
        if self.cells.len() == 0 {
            return String::new();
        }
        proof {
            assert(g.contains_key(cell_key(self.cells@[0]))) by {
                lemma_map_of_contains(self.cells@, cell_key(self.cells@[0]));
            }
            assert(g != Map::<(int, int), u8>::empty());
        }
        let mut out = String::new();
        let mut y: i32 = self.min_y;
        proof {
            assert(Seq::empty() + rows_glyphs(g, y as int, self.max_row(), self.min_col(),
                self.max_col()) =~= rows_glyphs(g, y as int, self.max_row(), self.min_col(),
                self.max_col()));
        }
        while y <= self.max_y
            invariant
                self.wf(),
                g == self.grid(),
                self.cells@.len() > 0,
                self.min_y as int <= y as int <= self.max_y as int + 1,
                -250001 <= self.min_y <= 250001,
                -250001 <= self.max_y <= 250001,
                -500001 <= self.min_x <= 500001,
                -500001 <= self.max_x <= 500001,
                out@ + rows_glyphs(g, y as int, self.max_row(), self.min_col(), self.max_col())
                    == self.frame_spec(),
            decreases self.max_y as int - y as int + 1,
        {
            let ghost out0 = out@;
            let mut x: i32 = self.min_x;
            proof {
                assert(Seq::new(0nat, |i: int| cell_glyph(g, self.min_col() + i, y as int))
                    =~= Seq::<char>::empty());
                assert(out@ =~= out0 + Seq::new(0nat, |i: int|
                    cell_glyph(g, self.min_col() + i, y as int)));
            }
            while x <= self.max_x
                invariant
                    self.wf(),
                    g == self.grid(),
                    self.min_x as int <= x as int <= self.max_x as int + 1,
                    -500001 <= self.min_x <= 500001,
                    -500001 <= self.max_x <= 500001,
                    -250001 <= y <= 250001,
                    out@ == out0 + Seq::new((x as int - self.min_x as int) as nat, |i: int|
                        cell_glyph(g, self.min_col() + i, y as int)),
                decreases self.max_x as int - x as int + 1,
            {
                let ghost outp = out@;
                let c: char = match self.mask_at(x, y) {
                    Some(m) => glyph_char(m),
                    None => ' ',
                };
                proof {
                    assert(c == cell_glyph(g, x as int, y as int));
                }
                out.push(c);
                proof {
                    assert(out@ =~= out0 + Seq::new((x as int + 1 - self.min_x as int) as nat, (|i: int|
                        cell_glyph(g, self.min_col() + i, y as int))));
                }
                x += 1;
            }
            proof {
                assert(out@ =~= out0 + row_glyphs(g, y as int, self.min_col(), self.max_col()));
            }
            out.push('\r');
            out.push('\n');
            proof {
                assert(out@ =~= out0 + (row_glyphs(g, y as int, self.min_col(), self.max_col())
                    + seq!['\r', '\n']));
                assert(rows_glyphs(g, y as int, self.max_row(), self.min_col(), self.max_col())
                    == row_glyphs(g, y as int, self.min_col(), self.max_col()) + seq!['\r', '\n']
                    + rows_glyphs(g, y as int + 1, self.max_row(), self.min_col(), self.max_col()));
                assert(out@ + rows_glyphs(g, y as int + 1, self.max_row(), self.min_col(),
                    self.max_col()) =~= out0 + rows_glyphs(g, y as int, self.max_row(),
                    self.min_col(), self.max_col()));
            }
            y += 1;
        }
        proof {
            assert(rows_glyphs(g, y as int, self.max_row(), self.min_col(), self.max_col())
                =~= Seq::<char>::empty());
            assert(out@ + Seq::<char>::empty() =~= out@);
        }
        out
    }
}

} // verus!
