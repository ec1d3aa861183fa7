use vstd::prelude::*;
use vstd::multiset::Multiset;

use crate::facet::{
    Pixel, Rgb, block_pixels, cell_index, column_pixels, first_similar, group_pixels, in_rect, leaders,
    lemma_first_similar, paint_group, paint_groups, paint_pixel, pixel_at, rect_groups, rect_pixels,
    rect_pixels_whole, rect_start,
};
use crate::facet::{among_first_colors, color_of, group_means, lemma_reduced_palette_origin, reduced_palette};

verus! {

// Where colour reduction paints: the pixels of a rectangle are grouped and each group is
// painted in turn. Every byte outside the rectangle's pixels keeps its value, and every pixel
// ends up in the colour of its group. A rectangle that reaches past the image width meets
// pixels of the next rows again; with a positive distance such a pixel always joins the same
// group, so the last holds there too.

/// The pixel whose red byte is at offset `i` of `buf` has colour `c`.
pub open spec fn painted(buf: Seq<u8>, i: int, c: Rgb) -> bool {
    buf[i] == c.0 && buf[i + 1] == c.1 && buf[i + 2] == c.2
}

/// Byte `p` belongs to a pixel of the rectangle that lies in a buffer of length `n`.
pub open spec fn rect_covers(n: int, w: int, rect: Seq<u32>, p: int) -> bool {
    exists|x: int, y: int|
        in_rect(rect, x, y) && #[trigger] cell_index(w, x, y) < n && cell_index(w, x, y) <= p < cell_index(w, x, y)
            + 3
}

/// `q` is the pixel of one of the cells of columns `x0 .. x0 + cols`, rows `y0 .. y0 + rows`,
/// that lie in `src`.
pub open spec fn block_cell(src: Seq<u8>, w: int, x0: int, y0: int, cols: int, rows: int, q: Pixel) -> bool {
    exists|x: int, y: int|
        x0 <= x < x0 + cols && y0 <= y < y0 + rows && #[trigger] cell_index(w, x, y) < src.len() && q
            == pixel_at(src, cell_index(w, x, y))
}

/// Byte `p` belongs to one of the pixels of `g`.
pub open spec fn group_covers(g: Seq<Pixel>, p: int) -> bool {
    exists|k: int| 0 <= k < g.len() && (#[trigger] g[k]).3 <= p < g[k].3 + 3
}

/// Byte `p` belongs to a pixel of one of the groups.
pub open spec fn groups_cover(gs: Seq<Seq<Pixel>>, p: int) -> bool {
    exists|j: int| 0 <= j < gs.len() && #[trigger] group_covers(gs[j], p)
}

/// `q` is a pixel of one of the groups.
pub open spec fn in_groups(gs: Seq<Seq<Pixel>>, q: Pixel) -> bool {
    exists|j: int, k: int| 0 <= j < gs.len() && 0 <= k < gs[j].len() && #[trigger] gs[j][k] == q
}

/// Any two pixels of the list at different positions share no byte.
pub open spec fn pixels_apart(px: Seq<Pixel>) -> bool {
    forall|a: int, b: int|
        0 <= a < px.len() && 0 <= b < px.len() && a != b ==> (#[trigger] px[a]).3 + 3 <= (#[trigger] px[b]).3
            || px[b].3 + 3 <= px[a].3
}

/// Any two pixels of the groups at different positions share no byte.
pub open spec fn groups_apart(gs: Seq<Seq<Pixel>>) -> bool {
    forall|j: int, k: int, i: int, l: int|
        0 <= j < gs.len() && 0 <= k < gs[j].len() && 0 <= i < gs.len() && 0 <= l < gs[i].len() && (j != i || k
            != l) ==> (#[trigger] gs[j][k]).3 + 3 <= (#[trigger] gs[i][l]).3 || gs[i][l].3 + 3 <= gs[j][k].3
}

/// Two pixels are the same pixel or share no byte.
pub open spec fn same_or_apart(p: Pixel, q: Pixel) -> bool {
    p == q || p.3 + 3 <= q.3 || q.3 + 3 <= p.3
}

/// Any two pixels of the group are the same pixel or share no byte.
pub open spec fn group_consistent(g: Seq<Pixel>) -> bool {
    forall|a: int, b: int| 0 <= a < g.len() && 0 <= b < g.len() ==> same_or_apart(#[trigger] g[a], #[trigger] g[b])
}

/// Within a group two pixels are the same or share no byte; pixels of different groups share
/// no byte.
pub open spec fn groups_consistent(gs: Seq<Seq<Pixel>>) -> bool {
    &&& forall|j: int| 0 <= j < gs.len() ==> group_consistent(#[trigger] gs[j])
    &&& forall|j: int, k: int, i: int, l: int|
        0 <= j < gs.len() && 0 <= k < gs[j].len() && 0 <= i < gs.len() && 0 <= l < gs[i].len() && j != i
            ==> (#[trigger] gs[j][k]).3 + 3 <= (#[trigger] gs[i][l]).3 || gs[i][l].3 + 3 <= gs[j][k].3
}

// ---------------------------------------------------------------------------
// Cells of a rectangle
// ---------------------------------------------------------------------------

/// Two cells of the same offset, both within the width, are the same cell.
proof fn lemma_cell_index_injective(w: int, x1: int, y1: int, x2: int, y2: int)
    requires
        0 <= x1 < w,
        0 <= x2 < w,
        cell_index(w, x1, y1) == cell_index(w, x2, y2),
    ensures
        x1 == x2,
        y1 == y2,
{
    let u = y1 * w + x1;
    assert(u == y2 * w + x2);
    vstd::arithmetic::div_mod::lemma_fundamental_div_mod_converse(u, w, y1, x1);
    vstd::arithmetic::div_mod::lemma_fundamental_div_mod_converse(u, w, y2, x2);
}

/// The offset of a cell with non-negative coordinates is a non-negative multiple of 3.
proof fn lemma_cell_index_shape(w: int, x: int, y: int)
    requires
        0 <= x,
        0 <= y,
        0 <= w,
    ensures
        cell_index(w, x, y) >= 0,
        cell_index(w, x, y) % 3 == 0,
{
    assert(y * w >= 0) by (nonlinear_arith)
        requires
            0 <= y,
            0 <= w,
    ;
}

/// The pixels of a column are pixels of its cells, at different offsets, and include every
/// cell of the column that lies in `src`.
proof fn lemma_column_cells(src: Seq<u8>, w: int, x: int, y0: int, m: int)
    requires
        0 <= x,
        0 <= y0,
        src.len() <= usize::MAX,
    ensures
        forall|i: int|
            0 <= i < column_pixels(src, w, x, y0, m).len() ==> block_cell(
                src,
                w,
                x,
                y0,
                1,
                m,
                #[trigger] column_pixels(src, w, x, y0, m)[i],
            ),
        x < w ==> forall|i: int, k: int|
            0 <= i < k < column_pixels(src, w, x, y0, m).len() ==> (#[trigger] column_pixels(src, w, x, y0, m)[i]).3
                != (#[trigger] column_pixels(src, w, x, y0, m)[k]).3,
        forall|y: int|
            y0 <= y < y0 + m && #[trigger] cell_index(w, x, y) < src.len() ==> column_pixels(
                src,
                w,
                x,
                y0,
                m,
            ).contains(pixel_at(src, cell_index(w, x, y))),
    decreases m,
{
    if m > 0 {
        lemma_column_cells(src, w, x, y0, m - 1);
        let s = column_pixels(src, w, x, y0, m - 1);
        let c = column_pixels(src, w, x, y0, m);
        let yl = y0 + m - 1;
        let il = cell_index(w, x, yl);
        if il < src.len() {
            assert(c == s.push(pixel_at(src, il)));
            assert forall|i: int| 0 <= i < c.len() implies block_cell(src, w, x, y0, 1, m, #[trigger] c[i]) by {
                if i < s.len() {
                    assert(c[i] == s[i]);
                    assert(block_cell(src, w, x, y0, 1, m - 1, s[i]));
                    let (xa, ya) = choose|xa: int, ya: int|
                        x <= xa < x + 1 && y0 <= ya < y0 + m - 1 && #[trigger] cell_index(w, xa, ya) < src.len()
                            && s[i] == pixel_at(src, cell_index(w, xa, ya));
                    assert(cell_index(w, xa, ya) < src.len());
                } else {
                    assert(c[i] == pixel_at(src, il));
                    assert(cell_index(w, x, yl) < src.len());
                }
            }
            if x < w {
                assert forall|i: int, k: int| 0 <= i < k < c.len() implies (#[trigger] c[i]).3 != (#[trigger] c[k]).3 by {
                    if k < s.len() {
                        assert(c[i] == s[i] && c[k] == s[k]);
                    } else {
                        assert(c[i] == s[i]);
                        assert(block_cell(src, w, x, y0, 1, m - 1, s[i]));
                        let (xa, ya) = choose|xa: int, ya: int|
                            x <= xa < x + 1 && y0 <= ya < y0 + m - 1 && #[trigger] cell_index(w, xa, ya) < src.len()
                                && s[i] == pixel_at(src, cell_index(w, xa, ya));
                        if c[i].3 == c[k].3 {
                            lemma_cell_index_shape(w, xa, ya);
                            lemma_cell_index_shape(w, x, yl);
                            lemma_cell_index_injective(w, xa, ya, x, yl);
                        }
                    }
                }
            }
            assert forall|y: int| y0 <= y < y0 + m && #[trigger] cell_index(w, x, y) < src.len() implies c.contains(
                pixel_at(src, cell_index(w, x, y)),
            ) by {
                if y < yl {
                    let q = pixel_at(src, cell_index(w, x, y));
                    assert(s.contains(q));
                    let i = choose|i: int| 0 <= i < s.len() && s[i] == q;
                    assert(c[i] == s[i]);
                } else {
                    assert(c[s.len() as int] == pixel_at(src, il));
                }
            }
        } else {
            assert(c == s);
            assert forall|i: int| 0 <= i < c.len() implies block_cell(src, w, x, y0, 1, m, #[trigger] c[i]) by {
                assert(block_cell(src, w, x, y0, 1, m - 1, s[i]));
                let (xa, ya) = choose|xa: int, ya: int|
                    x <= xa < x + 1 && y0 <= ya < y0 + m - 1 && #[trigger] cell_index(w, xa, ya) < src.len() && s[i]
                        == pixel_at(src, cell_index(w, xa, ya));
                assert(cell_index(w, xa, ya) < src.len());
            }
        }
    }
}

/// The pixels of a block are pixels of its cells, at different offsets, and include every
/// cell of the block that lies in `src`.
proof fn lemma_block_cells(src: Seq<u8>, w: int, x0: int, y0: int, cols: int, rows: int)
    requires
        0 <= x0,
        0 <= y0,
        src.len() <= usize::MAX,
    ensures
        forall|i: int|
            0 <= i < block_pixels(src, w, x0, y0, cols, rows).len() ==> block_cell(
                src,
                w,
                x0,
                y0,
                cols,
                rows,
                #[trigger] block_pixels(src, w, x0, y0, cols, rows)[i],
            ),
        x0 + cols <= w ==> forall|i: int, k: int|
            0 <= i < k < block_pixels(src, w, x0, y0, cols, rows).len() ==> (#[trigger] block_pixels(
                src,
                w,
                x0,
                y0,
                cols,
                rows,
            )[i]).3 != (#[trigger] block_pixels(src, w, x0, y0, cols, rows)[k]).3,
        forall|x: int, y: int|
            x0 <= x < x0 + cols && y0 <= y < y0 + rows && #[trigger] cell_index(w, x, y) < src.len()
                ==> block_pixels(src, w, x0, y0, cols, rows).contains(pixel_at(src, cell_index(w, x, y))),
    decreases cols,
{
    if cols > 0 {
        let xl = x0 + cols - 1;
        lemma_block_cells(src, w, x0, y0, cols - 1, rows);
        lemma_column_cells(src, w, xl, y0, rows);
        let a = block_pixels(src, w, x0, y0, cols - 1, rows);
        let b = column_pixels(src, w, xl, y0, rows);
        let s = block_pixels(src, w, x0, y0, cols, rows);
        assert(s == a + b);
        assert forall|i: int| 0 <= i < s.len() implies block_cell(src, w, x0, y0, cols, rows, #[trigger] s[i]) by {
            if i < a.len() {
                assert(s[i] == a[i]);
                assert(block_cell(src, w, x0, y0, cols - 1, rows, a[i]));
                let (xa, ya) = choose|xa: int, ya: int|
                    x0 <= xa < x0 + cols - 1 && y0 <= ya < y0 + rows && #[trigger] cell_index(w, xa, ya) < src.len()
                        && a[i] == pixel_at(src, cell_index(w, xa, ya));
                assert(cell_index(w, xa, ya) < src.len());
            } else {
                assert(s[i] == b[i - a.len()]);
                assert(block_cell(src, w, xl, y0, 1, rows, b[i - a.len()]));
                let (xa, ya) = choose|xa: int, ya: int|
                    xl <= xa < xl + 1 && y0 <= ya < y0 + rows && #[trigger] cell_index(w, xa, ya) < src.len() && b[i
                        - a.len()] == pixel_at(src, cell_index(w, xa, ya));
                assert(cell_index(w, xa, ya) < src.len());
            }
        }
        if x0 + cols <= w {
            assert forall|i: int, k: int| 0 <= i < k < s.len() implies (#[trigger] s[i]).3 != (#[trigger] s[k]).3 by {
                if k < a.len() {
                    assert(s[i] == a[i] && s[k] == a[k]);
                } else if i >= a.len() {
                    assert(s[i] == b[i - a.len()] && s[k] == b[k - a.len()]);
                } else {
                    assert(s[i] == a[i] && s[k] == b[k - a.len()]);
                    assert(block_cell(src, w, x0, y0, cols - 1, rows, a[i]));
                    assert(block_cell(src, w, xl, y0, 1, rows, b[k - a.len()]));
                    let (xa, ya) = choose|xa: int, ya: int|
                        x0 <= xa < x0 + cols - 1 && y0 <= ya < y0 + rows && #[trigger] cell_index(w, xa, ya) < src.len()
                            && a[i] == pixel_at(src, cell_index(w, xa, ya));
                    let (xb, yb) = choose|xb: int, yb: int|
                        xl <= xb < xl + 1 && y0 <= yb < y0 + rows && #[trigger] cell_index(w, xb, yb) < src.len() && b[k
                            - a.len()] == pixel_at(src, cell_index(w, xb, yb));
                    if s[i].3 == s[k].3 {
                        lemma_cell_index_shape(w, xa, ya);
                        lemma_cell_index_shape(w, xb, yb);
                        lemma_cell_index_injective(w, xa, ya, xb, yb);
                    }
                }
            }
        }
        assert forall|x: int, y: int|
            x0 <= x < x0 + cols && y0 <= y < y0 + rows && #[trigger] cell_index(w, x, y) < src.len() implies s.contains(
            pixel_at(src, cell_index(w, x, y)),
        ) by {
            let q = pixel_at(src, cell_index(w, x, y));
            if x < xl {
                assert(a.contains(q));
                let i = choose|i: int| 0 <= i < a.len() && a[i] == q;
                assert(s[i] == a[i]);
            } else {
                assert(b.contains(q));
                let i = choose|i: int| 0 <= i < b.len() && b[i] == q;
                assert(s[a.len() + i] == b[i]);
            }
        }
    }
}

// ---------------------------------------------------------------------------
// Grouping keeps the pixels
// ---------------------------------------------------------------------------

/// The groups hold exactly the pixels of the list: each group pixel comes from the list, each
/// pixel of the list is in a group, and pixels apart in the list stay apart in the groups.
proof fn lemma_group_pixels_members(px: Seq<Pixel>, d: int)
    ensures
        forall|j: int, k: int|
            0 <= j < group_pixels(px, d).len() && 0 <= k < group_pixels(px, d)[j].len() ==> px.contains(
                #[trigger] group_pixels(px, d)[j][k],
            ),
        forall|i: int| 0 <= i < px.len() ==> in_groups(group_pixels(px, d), #[trigger] px[i]),
        pixels_apart(px) ==> groups_apart(group_pixels(px, d)),
    decreases px.len(),
{
    if px.len() > 0 {
        let pre = px.drop_last();
        let p = px.last();
        let n = px.len() - 1;
        lemma_group_pixels_members(pre, d);
        let gs0 = group_pixels(pre, d);
        let gs = group_pixels(px, d);
        let j0 = first_similar(leaders(gs0), color_of(p), d);
        lemma_first_similar(leaders(gs0), color_of(p), d);
        assert(leaders(gs0).len() == gs0.len());
        assert(forall|i: int| 0 <= i < pre.len() ==> #[trigger] pre[i] == px[i]);
        // where each pixel of the new groups comes from
        assert forall|j: int, k: int| 0 <= j < gs.len() && 0 <= k < gs[j].len() implies (k < gs0[j].len() && j
            < gs0.len() && #[trigger] gs[j][k] == gs0[j][k]) || gs[j][k] == p by {
            if j0 < gs0.len() {
                assert(gs == gs0.update(j0, gs0[j0].push(p)));
                if j == j0 {
                    if k < gs0[j0].len() {
                        assert(gs[j][k] == gs0[j][k]);
                    } else {
                        assert(gs[j][k] == p);
                    }
                } else {
                    assert(gs[j] == gs0[j]);
                }
            } else {
                assert(gs == gs0.push(seq![p]));
                if j < gs0.len() {
                    assert(gs[j] == gs0[j]);
                } else {
                    assert(gs[j][k] == p);
                }
            }
        }
        // the position of the new pixel
        let (jn, kn) = if j0 < gs0.len() {
            (j0, gs0[j0].len() as int)
        } else {
            (gs0.len() as int, 0int)
        };
        assert(0 <= jn < gs.len() && 0 <= kn < gs[jn].len() && gs[jn][kn] == p && !(kn < gs0[jn].len() && jn
            < gs0.len())) by {
            if j0 < gs0.len() {
                assert(gs == gs0.update(j0, gs0[j0].push(p)));
            } else {
                assert(gs == gs0.push(seq![p]));
            }
        }
        // old positions keep their pixels
        assert forall|j: int, k: int| 0 <= j < gs0.len() && 0 <= k < gs0[j].len() implies 0 <= j < gs.len() && 0
            <= k < gs[j].len() && #[trigger] gs0[j][k] == gs[j][k] by {
            if j0 < gs0.len() {
                assert(gs == gs0.update(j0, gs0[j0].push(p)));
                if j == j0 {
                    assert(gs[j] == gs0[j0].push(p));
                }
            } else {
                assert(gs == gs0.push(seq![p]));
            }
        }
        assert forall|j: int, k: int| 0 <= j < gs.len() && 0 <= k < gs[j].len() implies px.contains(
            #[trigger] gs[j][k],
        ) by {
            if k < gs0[j].len() && j < gs0.len() && gs[j][k] == gs0[j][k] {
                assert(pre.contains(gs0[j][k]));
                let i = choose|i: int| 0 <= i < pre.len() && pre[i] == gs0[j][k];
                assert(px[i] == pre[i]);
            } else {
                assert(px[n] == p);
            }
        }
        assert forall|i: int| 0 <= i < px.len() implies in_groups(gs, #[trigger] px[i]) by {
            if i < n {
                assert(in_groups(gs0, pre[i]));
                let (j, k) = choose|j: int, k: int| 0 <= j < gs0.len() && 0 <= k < gs0[j].len() && #[trigger] gs0[j][k]
                    == pre[i];
                assert(gs[j][k] == gs0[j][k]);
            } else {
                assert(gs[jn][kn] == px[i]);
            }
        }
        if pixels_apart(px) {
            assert(pixels_apart(pre)) by {
                assert forall|a: int, b: int| 0 <= a < pre.len() && 0 <= b < pre.len() && a != b implies (
                #[trigger] pre[a]).3 + 3 <= (#[trigger] pre[b]).3 || pre[b].3 + 3 <= pre[a].3 by {
                    assert(pre[a] == px[a] && pre[b] == px[b]);
                }
            }
            assert forall|j: int, k: int, i: int, l: int|
                0 <= j < gs.len() && 0 <= k < gs[j].len() && 0 <= i < gs.len() && 0 <= l < gs[i].len() && (j != i
                    || k != l) implies (#[trigger] gs[j][k]).3 + 3 <= (#[trigger] gs[i][l]).3 || gs[i][l].3 + 3
                <= gs[j][k].3 by {
                let old1 = k < gs0[j].len() && j < gs0.len() && gs[j][k] == gs0[j][k];
                let old2 = l < gs0[i].len() && i < gs0.len() && gs[i][l] == gs0[i][l];
                if j == jn && k == kn {
                    // the other one is old
                    assert(!(i == jn && l == kn));
                    if !old2 {
                        assert(gs[i][l] == p);
                        // two positions holding the new pixel: impossible, p is not an old pixel
                        assert(false) by {
                            lemma_new_pixel_unique(gs0, gs, p, jn, kn, i, l, j0);
                        }
                    }
                    assert(pre.contains(gs0[i][l]));
                    let b = choose|b: int| 0 <= b < pre.len() && pre[b] == gs0[i][l];
                    assert(px[b] == gs[i][l] && px[n] == gs[j][k] && b != n);
                } else if i == jn && l == kn {
                    if !old1 {
                        assert(gs[j][k] == p);
                        assert(false) by {
                            lemma_new_pixel_unique(gs0, gs, p, jn, kn, j, k, j0);
                        }
                    }
                    assert(pre.contains(gs0[j][k]));
                    let a = choose|a: int| 0 <= a < pre.len() && pre[a] == gs0[j][k];
                    assert(px[a] == gs[j][k] && px[n] == gs[i][l] && a != n);
                } else {
                    if !old1 {
                        lemma_new_pixel_unique(gs0, gs, p, jn, kn, j, k, j0);
                    }
                    if !old2 {
                        lemma_new_pixel_unique(gs0, gs, p, jn, kn, i, l, j0);
                    }
                    assert(gs0[j][k] == gs[j][k] && gs0[i][l] == gs[i][l]);
                }
            }
        }
    }
}

/// Adding a colour after the others does not change which earlier colour is first similar.
proof fn lemma_first_similar_push(reps: Seq<Rgb>, x: Rgb, c: Rgb, d: int)
    ensures
        first_similar(reps, c, d) < reps.len() ==> first_similar(reps.push(x), c, d) == first_similar(reps, c, d),
{
    assert(reps.push(x).drop_last() =~= reps);
}

/// A colour similar to none of `reps` is first similar to itself once added after them.
proof fn lemma_first_similar_new(reps: Seq<Rgb>, c: Rgb, d: int)
    requires
        d > 0,
        first_similar(reps, c, d) == reps.len(),
    ensures
        first_similar(reps.push(c), c, d) == reps.len(),
{
    assert(reps.push(c).drop_last() =~= reps);
    crate::facet::lemma_color_distance_symmetric(c, c);
}

/// With a positive distance, the group of each pixel is the first group whose first pixel is
/// similar to it; so equal pixels always land in the same group.
proof fn lemma_group_index(px: Seq<Pixel>, d: int)
    requires
        d > 0,
    ensures
        forall|j: int, k: int|
            0 <= j < group_pixels(px, d).len() && 0 <= k < group_pixels(px, d)[j].len() ==> first_similar(
                leaders(group_pixels(px, d)),
                color_of(#[trigger] group_pixels(px, d)[j][k]),
                d,
            ) == j,
    decreases px.len(),
{
    if px.len() > 0 {
        let pre = px.drop_last();
        let p = px.last();
        lemma_group_index(pre, d);
        crate::facet::lemma_groups_nonempty(pre, d);
        let gs0 = group_pixels(pre, d);
        let gs = group_pixels(px, d);
        let l0 = leaders(gs0);
        let j0 = first_similar(l0, color_of(p), d);
        lemma_first_similar(l0, color_of(p), d);
        if j0 < gs0.len() {
            assert(gs == gs0.update(j0, gs0[j0].push(p)));
            assert(leaders(gs) =~= l0) by {
                assert(gs0[j0].len() > 0);
                assert(gs[j0][0] == gs0[j0][0]);
            }
            assert forall|j: int, k: int| 0 <= j < gs.len() && 0 <= k < gs[j].len() implies first_similar(
                leaders(gs),
                color_of(#[trigger] gs[j][k]),
                d,
            ) == j by {
                if j == j0 && k == gs0[j0].len() {
                    assert(gs[j][k] == p);
                } else if j == j0 {
                    assert(gs[j][k] == gs0[j][k]);
                } else {
                    assert(gs[j] == gs0[j]);
                }
            }
        } else {
            assert(gs == gs0.push(seq![p]));
            assert(leaders(gs) =~= l0.push(color_of(p)));
            lemma_first_similar_new(l0, color_of(p), d);
            assert forall|j: int, k: int| 0 <= j < gs.len() && 0 <= k < gs[j].len() implies first_similar(
                leaders(gs),
                color_of(#[trigger] gs[j][k]),
                d,
            ) == j by {
                if j < gs0.len() {
                    assert(gs[j] == gs0[j]);
                    assert(first_similar(l0, color_of(gs0[j][k]), d) == j);
                    lemma_first_similar_push(l0, color_of(p), color_of(gs0[j][k]), d);
                } else {
                    assert(gs[j][k] == p);
                }
            }
        }
    }
}

/// With a positive distance, groups formed from pixels that are each the same or apart are
/// consistent.
proof fn lemma_groups_consistent(px: Seq<Pixel>, d: int)
    requires
        d > 0,
        forall|a: int, b: int| 0 <= a < px.len() && 0 <= b < px.len() ==> same_or_apart(#[trigger] px[a], #[trigger] px[b]),
    ensures
        groups_consistent(group_pixels(px, d)),
{
    let gs = group_pixels(px, d);
    lemma_group_pixels_members(px, d);
    lemma_group_index(px, d);
    assert forall|j: int| 0 <= j < gs.len() implies group_consistent(#[trigger] gs[j]) by {
        assert forall|a: int, b: int| 0 <= a < gs[j].len() && 0 <= b < gs[j].len() implies same_or_apart(
            #[trigger] gs[j][a],
            #[trigger] gs[j][b],
        ) by {
            assert(px.contains(gs[j][a]) && px.contains(gs[j][b]));
            let ia = choose|i: int| 0 <= i < px.len() && px[i] == gs[j][a];
            let ib = choose|i: int| 0 <= i < px.len() && px[i] == gs[j][b];
            assert(same_or_apart(px[ia], px[ib]));
        }
    }
    assert forall|j: int, k: int, i: int, l: int|
        0 <= j < gs.len() && 0 <= k < gs[j].len() && 0 <= i < gs.len() && 0 <= l < gs[i].len() && j != i implies (
        #[trigger] gs[j][k]).3 + 3 <= (#[trigger] gs[i][l]).3 || gs[i][l].3 + 3 <= gs[j][k].3 by {
        assert(px.contains(gs[j][k]) && px.contains(gs[i][l]));
        let ia = choose|a: int| 0 <= a < px.len() && px[a] == gs[j][k];
        let ib = choose|a: int| 0 <= a < px.len() && px[a] == gs[i][l];
        assert(same_or_apart(px[ia], px[ib]));
        assert(first_similar(leaders(gs), color_of(gs[j][k]), d) == j);
        assert(first_similar(leaders(gs), color_of(gs[i][l]), d) == i);
    }
}

/// The pixels of a rectangle are each the same pixel or share no byte, whatever its width.
proof fn lemma_rect_pixels_consistent(src: Seq<u8>, w: int, rect: Seq<u32>)
    requires
        rect.len() == 4,
        0 <= w,
        src.len() <= usize::MAX,
    ensures
        forall|a: int, b: int|
            0 <= a < rect_pixels(src, w, rect).len() && 0 <= b < rect_pixels(src, w, rect).len() ==> same_or_apart(
                #[trigger] rect_pixels(src, w, rect)[a],
                #[trigger] rect_pixels(src, w, rect)[b],
            ),
{
    let px = rect_pixels(src, w, rect);
    let (x0, y0, cols, rows) = (rect[0] as int, rect[1] as int, rect[2] as int, rect[3] as int);
    lemma_block_cells(src, w, x0, y0, cols, rows);
    assert forall|a: int, b: int| 0 <= a < px.len() && 0 <= b < px.len() implies same_or_apart(
        #[trigger] px[a],
        #[trigger] px[b],
    ) by {
        assert(block_cell(src, w, x0, y0, cols, rows, px[a]));
        assert(block_cell(src, w, x0, y0, cols, rows, px[b]));
        let (xa, ya) = choose|xa: int, ya: int|
            x0 <= xa < x0 + cols && y0 <= ya < y0 + rows && #[trigger] cell_index(w, xa, ya) < src.len() && px[a]
                == pixel_at(src, cell_index(w, xa, ya));
        let (xb, yb) = choose|xb: int, yb: int|
            x0 <= xb < x0 + cols && y0 <= yb < y0 + rows && #[trigger] cell_index(w, xb, yb) < src.len() && px[b]
                == pixel_at(src, cell_index(w, xb, yb));
        lemma_cell_index_shape(w, xa, ya);
        lemma_cell_index_shape(w, xb, yb);
    }
}

/// After a pixel joins the groups, the only position that is not an old one is its own.
proof fn lemma_new_pixel_unique(
    gs0: Seq<Seq<Pixel>>,
    gs: Seq<Seq<Pixel>>,
    p: Pixel,
    jn: int,
    kn: int,
    j: int,
    k: int,
    j0: int,
)
    requires
        0 <= j0,
        j0 < gs0.len() ==> gs == gs0.update(j0, gs0[j0].push(p)) && jn == j0 && kn == gs0[j0].len(),
        j0 >= gs0.len() ==> gs == gs0.push(seq![p]) && jn == gs0.len() && kn == 0,
        0 <= j < gs.len(),
        0 <= k < gs[j].len(),
        !(k < gs0[j].len() && j < gs0.len() && gs[j][k] == gs0[j][k]),
    ensures
        j == jn,
        k == kn,
{
    if j0 < gs0.len() {
        if j != j0 {
            assert(gs[j] == gs0[j]);
        } else if k < gs0[j0].len() {
            assert(gs[j][k] == gs0[j][k]);
        }
    } else {
        if j < gs0.len() {
            assert(gs[j] == gs0[j]);
        }
    }
}

// ---------------------------------------------------------------------------
// Painting groups
// ---------------------------------------------------------------------------

/// Every pixel of `g` lies whole in a buffer of length `n`.
pub open spec fn offsets_within(g: Seq<Pixel>, n: int) -> bool {
    forall|k: int| 0 <= k < g.len() ==> (#[trigger] g[k]).3 + 2 < n
}

/// Painting a group keeps the length and every byte outside its pixels.
proof fn lemma_paint_group_outside(out: Seq<u8>, g: Seq<Pixel>, c: Rgb, p: int)
    requires
        offsets_within(g, out.len() as int),
    ensures
        paint_group(out, g, c).len() == out.len(),
        0 <= p < out.len() && !group_covers(g, p) ==> paint_group(out, g, c)[p] == out[p],
    decreases g.len(),
{
    if g.len() > 0 {
        let pre = g.drop_last();
        assert(offsets_within(pre, out.len() as int)) by {
            assert forall|k: int| 0 <= k < pre.len() implies (#[trigger] pre[k]).3 + 2 < out.len() by {
                assert(pre[k] == g[k]);
            }
        }
        lemma_paint_group_outside(out, pre, c, p);
        assert(g[g.len() - 1].3 + 2 < out.len());
        if !group_covers(g, p) {
            assert(!group_covers(pre, p)) by {
                if group_covers(pre, p) {
                    let k = choose|k: int| 0 <= k < pre.len() && (#[trigger] pre[k]).3 <= p < pre[k].3 + 3;
                    assert(g[k] == pre[k]);
                }
            }
            assert(!(g[g.len() - 1].3 <= p < g[g.len() - 1].3 + 3));
        }
    }
}

/// Painting a group whose pixels are the same or share no byte sets each of its pixels to the
/// colour.
proof fn lemma_paint_group_inside(out: Seq<u8>, g: Seq<Pixel>, c: Rgb)
    requires
        offsets_within(g, out.len() as int),
        group_consistent(g),
    ensures
        forall|k: int| 0 <= k < g.len() ==> #[trigger] painted(paint_group(out, g, c), g[k].3 as int, c),
    decreases g.len(),
{
    if g.len() > 0 {
        let pre = g.drop_last();
        let n = g.len() - 1;
        assert(offsets_within(pre, out.len() as int)) by {
            assert forall|k: int| 0 <= k < pre.len() implies (#[trigger] pre[k]).3 + 2 < out.len() by {
                assert(pre[k] == g[k]);
            }
        }
        assert(group_consistent(pre)) by {
            assert forall|a: int, b: int| 0 <= a < pre.len() && 0 <= b < pre.len() implies same_or_apart(
                #[trigger] pre[a],
                #[trigger] pre[b],
            ) by {
                assert(pre[a] == g[a] && pre[b] == g[b]);
            }
        }
        lemma_paint_group_inside(out, pre, c);
        lemma_paint_group_outside(out, pre, c, 0);
        let before = paint_group(out, pre, c);
        assert forall|k: int| 0 <= k < g.len() implies #[trigger] painted(paint_group(out, g, c), g[k].3 as int, c) by {
            assert(g[n].3 + 2 < out.len());
            if k < n {
                assert(pre[k] == g[k]);
                assert(painted(before, pre[k].3 as int, c));
                assert(same_or_apart(g[k], g[n]));
            }
        }
    }
}

/// Painting the groups in turn keeps the length and every byte outside their pixels.
proof fn lemma_paint_groups_outside(out: Seq<u8>, gs: Seq<Seq<Pixel>>, colors: Seq<Rgb>, p: int)
    requires
        forall|j: int| 0 <= j < gs.len() ==> offsets_within(#[trigger] gs[j], out.len() as int),
    ensures
        paint_groups(out, gs, colors).len() == out.len(),
        0 <= p < out.len() && !groups_cover(gs, p) ==> paint_groups(out, gs, colors)[p] == out[p],
    decreases gs.len(),
{
    if gs.len() > 0 {
        let pre = gs.drop_last();
        let n = gs.len() - 1;
        assert forall|j: int| 0 <= j < pre.len() implies offsets_within(#[trigger] pre[j], out.len() as int) by {
            assert(pre[j] == gs[j]);
        }
        lemma_paint_groups_outside(out, pre, colors, p);
        let before = paint_groups(out, pre, colors);
        assert(offsets_within(gs[n], before.len() as int));
        lemma_paint_group_outside(before, gs[n], colors[n], p);
        if !groups_cover(gs, p) {
            assert(!groups_cover(pre, p)) by {
                if groups_cover(pre, p) {
                    let j = choose|j: int| 0 <= j < pre.len() && #[trigger] group_covers(pre[j], p);
                    assert(pre[j] == gs[j]);
                }
            }
            assert(!group_covers(gs[n], p));
        }
    }
}

/// Painting groups whose pixels are consistent sets each pixel to the colour of its group.
proof fn lemma_paint_groups_inside(out: Seq<u8>, gs: Seq<Seq<Pixel>>, colors: Seq<Rgb>)
    requires
        forall|j: int| 0 <= j < gs.len() ==> offsets_within(#[trigger] gs[j], out.len() as int),
        groups_consistent(gs),
    ensures
        forall|j: int, k: int|
            0 <= j < gs.len() && 0 <= k < gs[j].len() ==> painted(paint_groups(out, gs, colors), (#[trigger] gs[j][k]).3 as int, colors[j]),
    decreases gs.len(),
{
    if gs.len() > 0 {
        let pre = gs.drop_last();
        let n = gs.len() - 1;
        assert forall|j: int| 0 <= j < pre.len() implies offsets_within(#[trigger] pre[j], out.len() as int) by {
            assert(pre[j] == gs[j]);
        }
        assert(groups_consistent(pre)) by {
            assert forall|j: int| 0 <= j < pre.len() implies group_consistent(#[trigger] pre[j]) by {
                assert(pre[j] == gs[j]);
            }
            assert forall|j: int, k: int, i: int, l: int|
                0 <= j < pre.len() && 0 <= k < pre[j].len() && 0 <= i < pre.len() && 0 <= l < pre[i].len() && j
                    != i implies (#[trigger] pre[j][k]).3 + 3 <= (#[trigger] pre[i][l]).3 || pre[i][l].3 + 3
                <= pre[j][k].3 by {
                assert(pre[j] == gs[j] && pre[i] == gs[i]);
            }
        }
        lemma_paint_groups_inside(out, pre, colors);
        lemma_paint_groups_outside(out, pre, colors, 0);
        let before = paint_groups(out, pre, colors);
        let last = gs[n];
        assert(offsets_within(last, before.len() as int));
        assert(group_consistent(last));
        lemma_paint_group_inside(before, last, colors[n]);
        assert forall|j: int, k: int|
            0 <= j < gs.len() && 0 <= k < gs[j].len() implies painted(paint_groups(out, gs, colors), (#[trigger] gs[j][k]).3 as int, colors[j]) by {
            if j < n {
                let o = gs[j][k].3 as int;
                assert(pre[j] == gs[j]);
                assert(painted(before, pre[j][k].3 as int, colors[j]));
                assert forall|q: int| o <= q < o + 3 implies !group_covers(last, q) by {
                    if group_covers(last, q) {
                        let l = choose|l: int| 0 <= l < last.len() && (#[trigger] last[l]).3 <= q < last[l].3 + 3;
                        assert(gs[n][l] == last[l]);
                        assert(gs[j][k].3 + 3 <= gs[n][l].3 || gs[n][l].3 + 3 <= gs[j][k].3);
                    }
                }
                lemma_paint_group_outside(before, last, colors[n], o);
                lemma_paint_group_outside(before, last, colors[n], o + 1);
                lemma_paint_group_outside(before, last, colors[n], o + 2);
            } else {
                assert(gs[j][k] == last[k]);
            }
        }
    }
}

/// Groups whose pixels share no byte are consistent.
proof fn lemma_apart_consistent(gs: Seq<Seq<Pixel>>)
    requires
        groups_apart(gs),
    ensures
        groups_consistent(gs),
{
    assert forall|j: int| 0 <= j < gs.len() implies group_consistent(#[trigger] gs[j]) by {
        assert forall|a: int, b: int| 0 <= a < gs[j].len() && 0 <= b < gs[j].len() implies same_or_apart(
            #[trigger] gs[j][a],
            #[trigger] gs[j][b],
        ) by {
            if a != b {
                assert(gs[j][a].3 + 3 <= gs[j][b].3 || gs[j][b].3 + 3 <= gs[j][a].3);
            }
        }
    }
}

// ---------------------------------------------------------------------------
// Laws of colour reduction over a rectangle
// ---------------------------------------------------------------------------

/// The pixels of the groups of a rectangle are pixels of its cells that lie in `src`, and lie
/// whole in `out`.
proof fn lemma_rect_group_cells(src: Seq<u8>, out_len: int, w: int, rect: Seq<u32>, d: int)
    requires
        rect.len() == 4,
        0 <= w,
        src.len() <= usize::MAX,
        rect_pixels_whole(src.len() as int, out_len, w, rect),
    ensures
        forall|j: int, k: int|
            0 <= j < rect_groups(src, w, rect, d).len() && 0 <= k < rect_groups(src, w, rect, d)[j].len()
                ==> block_cell(
                src,
                w,
                rect[0] as int,
                rect[1] as int,
                rect[2] as int,
                rect[3] as int,
                #[trigger] rect_groups(src, w, rect, d)[j][k],
            ),
        forall|j: int| 0 <= j < rect_groups(src, w, rect, d).len() ==> offsets_within(#[trigger] rect_groups(src, w, rect, d)[j], out_len),
{
    let gs = rect_groups(src, w, rect, d);
    let (x0, y0, cols, rows) = (rect[0] as int, rect[1] as int, rect[2] as int, rect[3] as int);
    if rect_start(w, rect) < src.len() {
        let px = rect_pixels(src, w, rect);
        lemma_block_cells(src, w, x0, y0, cols, rows);
        lemma_group_pixels_members(px, d);
        assert forall|j: int, k: int| 0 <= j < gs.len() && 0 <= k < gs[j].len() implies block_cell(
            src,
            w,
            x0,
            y0,
            cols,
            rows,
            #[trigger] gs[j][k],
        ) by {
            assert(px.contains(gs[j][k]));
            let i = choose|i: int| 0 <= i < px.len() && px[i] == gs[j][k];
            assert(block_cell(src, w, x0, y0, cols, rows, px[i]));
        }
    }
    assert forall|j: int| 0 <= j < gs.len() implies offsets_within(#[trigger] gs[j], out_len) by {
        assert forall|k: int| 0 <= k < gs[j].len() implies (#[trigger] gs[j][k]).3 + 2 < out_len by {
            assert(block_cell(src, w, x0, y0, cols, rows, gs[j][k]));
            let (x, y) = choose|x: int, y: int|
                x0 <= x < x0 + cols && y0 <= y < y0 + rows && #[trigger] cell_index(w, x, y) < src.len() && gs[j][k]
                    == pixel_at(src, cell_index(w, x, y));
            lemma_cell_index_shape(w, x, y);
            assert(in_rect(rect, x, y));
            assert(cell_index(w, x, y) < src.len());
        }
    }
}

/// Colour reduction over a rectangle leaves every byte of `out` that belongs to no pixel of
/// the rectangle lying in `src` as it was, whatever the colours painted.
pub proof fn lemma_rect_painting_outside(src: Seq<u8>, out: Seq<u8>, w: int, rect: Seq<u32>, d: int, colors: Seq<Rgb>)
    requires
        rect.len() == 4,
        0 <= w,
        src.len() <= usize::MAX,
        rect_pixels_whole(src.len() as int, out.len() as int, w, rect),
    ensures
        paint_groups(out, rect_groups(src, w, rect, d), colors).len() == out.len(),
        forall|p: int|
            0 <= p < out.len() && !rect_covers(src.len() as int, w, rect, p) ==> #[trigger] paint_groups(
                out,
                rect_groups(src, w, rect, d),
                colors,
            )[p] == out[p],
{
    let gs = rect_groups(src, w, rect, d);
    let (x0, y0, cols, rows) = (rect[0] as int, rect[1] as int, rect[2] as int, rect[3] as int);
    lemma_rect_group_cells(src, out.len() as int, w, rect, d);
    lemma_paint_groups_outside(out, gs, colors, 0);
    assert forall|p: int| 0 <= p < out.len() && !rect_covers(src.len() as int, w, rect, p) implies #[trigger] paint_groups(
        out,
        gs,
        colors,
    )[p] == out[p] by {
        lemma_paint_groups_outside(out, gs, colors, p);
        if groups_cover(gs, p) {
            let j = choose|j: int| 0 <= j < gs.len() && #[trigger] group_covers(gs[j], p);
            let k = choose|k: int| 0 <= k < gs[j].len() && (#[trigger] gs[j][k]).3 <= p < gs[j][k].3 + 3;
            assert(block_cell(src, w, x0, y0, cols, rows, gs[j][k]));
            let (x, y) = choose|x: int, y: int|
                x0 <= x < x0 + cols && y0 <= y < y0 + rows && #[trigger] cell_index(w, x, y) < src.len() && gs[j][k]
                    == pixel_at(src, cell_index(w, x, y));
            lemma_cell_index_shape(w, x, y);
            assert(in_rect(rect, x, y) && cell_index(w, x, y) < src.len() && cell_index(w, x, y) <= p < cell_index(
                w,
                x,
                y,
            ) + 3);
            assert(rect_covers(src.len() as int, w, rect, p));
        }
    }
}

/// Colour reduction over a rectangle, with a positive distance or within the image width:
/// every pixel of the rectangle that lies in `src` belongs to a group, each group holds pixels
/// of the rectangle, and after painting, each pixel of a group has the colour given to that
/// group.
pub proof fn lemma_rect_painting_groups(src: Seq<u8>, out: Seq<u8>, w: int, rect: Seq<u32>, d: int, colors: Seq<Rgb>)
    requires
        rect.len() == 4,
        0 <= w,
        rect[0] + rect[2] <= w || d > 0,
        src.len() <= usize::MAX,
        rect_pixels_whole(src.len() as int, out.len() as int, w, rect),
    ensures
        forall|x: int, y: int|
            in_rect(rect, x, y) && #[trigger] cell_index(w, x, y) < src.len() ==> in_groups(
                rect_groups(src, w, rect, d),
                pixel_at(src, cell_index(w, x, y)),
            ),
        forall|j: int, k: int|
            0 <= j < rect_groups(src, w, rect, d).len() && 0 <= k < rect_groups(src, w, rect, d)[j].len()
                ==> block_cell(
                src,
                w,
                rect[0] as int,
                rect[1] as int,
                rect[2] as int,
                rect[3] as int,
                #[trigger] rect_groups(src, w, rect, d)[j][k],
            ),
        forall|j: int, k: int|
            0 <= j < rect_groups(src, w, rect, d).len() && 0 <= k < rect_groups(src, w, rect, d)[j].len()
                ==> painted(
                paint_groups(out, rect_groups(src, w, rect, d), colors),
                (#[trigger] rect_groups(src, w, rect, d)[j][k]).3 as int,
                colors[j],
            ),
{
    let gs = rect_groups(src, w, rect, d);
    let (x0, y0, cols, rows) = (rect[0] as int, rect[1] as int, rect[2] as int, rect[3] as int);
    lemma_rect_group_cells(src, out.len() as int, w, rect, d);
    let px = rect_pixels(src, w, rect);
    lemma_block_cells(src, w, x0, y0, cols, rows);
    lemma_group_pixels_members(px, d);
    assert forall|x: int, y: int| in_rect(rect, x, y) && #[trigger] cell_index(w, x, y) < src.len() implies in_groups(
        gs,
        pixel_at(src, cell_index(w, x, y)),
    ) by {
        assert(y0 * w <= y * w) by (nonlinear_arith)
            requires
                0 <= y0 <= y,
                0 <= w,
        ;
        assert(rect_start(w, rect) <= cell_index(w, x, y));
        assert(px.contains(pixel_at(src, cell_index(w, x, y))));
        let i = choose|i: int| 0 <= i < px.len() && px[i] == pixel_at(src, cell_index(w, x, y));
        assert(in_groups(gs, px[i]));
    }
    if rect_start(w, rect) < src.len() && rect[0] + rect[2] > w {
        lemma_rect_pixels_consistent(src, w, rect);
        lemma_groups_consistent(px, d);
        lemma_paint_groups_inside(out, gs, colors);
    } else if rect_start(w, rect) < src.len() {
        assert(pixels_apart(px)) by {
            assert forall|a: int, b: int| 0 <= a < px.len() && 0 <= b < px.len() && a != b implies (
            #[trigger] px[a]).3 + 3 <= (#[trigger] px[b]).3 || px[b].3 + 3 <= px[a].3 by {
                assert(block_cell(src, w, x0, y0, cols, rows, px[a]));
                assert(block_cell(src, w, x0, y0, cols, rows, px[b]));
                let (xa, ya) = choose|xa: int, ya: int|
                    x0 <= xa < x0 + cols && y0 <= ya < y0 + rows && #[trigger] cell_index(w, xa, ya) < src.len()
                        && px[a] == pixel_at(src, cell_index(w, xa, ya));
                let (xb, yb) = choose|xb: int, yb: int|
                    x0 <= xb < x0 + cols && y0 <= yb < y0 + rows && #[trigger] cell_index(w, xb, yb) < src.len()
                        && px[b] == pixel_at(src, cell_index(w, xb, yb));
                lemma_cell_index_shape(w, xa, ya);
                lemma_cell_index_shape(w, xb, yb);
                if a < b {
                    assert(px[a].3 != px[b].3);
                } else {
                    assert(px[b].3 != px[a].3);
                }
            }
        }
        lemma_group_pixels_members(px, d);
        lemma_apart_consistent(gs);
        lemma_paint_groups_inside(out, gs, colors);
    } else {
        assert(gs.len() == 0);
    }
}

/// Colour reduction to `n` colours over a rectangle, with a positive distance or within the
/// image width: every pixel of the rectangle that lies in `src` ends up in the mean colour of
/// one of the first `max(n, 1)` groups, so the rectangle holds at most `max(n, 1)` colours.
pub proof fn lemma_reduced_rect_colors(src: Seq<u8>, out: Seq<u8>, w: int, rect: Seq<u32>, d: int, n: int)
    requires
        rect.len() == 4,
        0 <= w,
        rect[0] + rect[2] <= w || d > 0,
        src.len() <= usize::MAX,
        rect_pixels_whole(src.len() as int, out.len() as int, w, rect),
        n >= 0,
    ensures
        forall|x: int, y: int|
            in_rect(rect, x, y) && #[trigger] cell_index(w, x, y) < src.len() ==> among_first_colors(
                group_means(rect_groups(src, w, rect, d)),
                n,
                (
                    paint_groups(
                        out,
                        rect_groups(src, w, rect, d),
                        reduced_palette(group_means(rect_groups(src, w, rect, d)), n),
                    )[cell_index(w, x, y)],
                    paint_groups(
                        out,
                        rect_groups(src, w, rect, d),
                        reduced_palette(group_means(rect_groups(src, w, rect, d)), n),
                    )[cell_index(w, x, y) + 1],
                    paint_groups(
                        out,
                        rect_groups(src, w, rect, d),
                        reduced_palette(group_means(rect_groups(src, w, rect, d)), n),
                    )[cell_index(w, x, y) + 2],
                ),
            ),
{
    let gs = rect_groups(src, w, rect, d);
    let means = group_means(gs);
    let palette = reduced_palette(means, n);
    let res = paint_groups(out, gs, palette);
    lemma_rect_painting_groups(src, out, w, rect, d, palette);
    lemma_reduced_palette_origin(means, n);
    assert forall|x: int, y: int| in_rect(rect, x, y) && #[trigger] cell_index(w, x, y) < src.len() implies among_first_colors(
        means,
        n,
        (res[cell_index(w, x, y)], res[cell_index(w, x, y) + 1], res[cell_index(w, x, y) + 2]),
    ) by {
        let ci = cell_index(w, x, y);
        assert(in_groups(gs, pixel_at(src, ci)));
        let (j, k) = choose|j: int, k: int| 0 <= j < gs.len() && 0 <= k < gs[j].len() && #[trigger] gs[j][k] == pixel_at(src, ci);
        lemma_cell_index_shape(w, x, y);
        assert(gs[j][k].3 as int == ci);
        assert(painted(res, gs[j][k].3 as int, palette[j]));
        assert(means.len() == gs.len());
        assert(among_first_colors(means, n, palette[j]));
        assert((res[ci], res[ci + 1], res[ci + 2]) == palette[j]);
    }
}

/// Grouping with a positive distance `d`: each pixel lies in the first group whose first pixel
/// is closer than `d` to it in colour; the first pixel of every earlier group is at least `d`
/// away. Every pixel of the list is in a group, and every pixel of a group comes from the list.
pub proof fn lemma_group_pixels_first_close(px: Seq<Pixel>, d: int)
    requires
        d > 0,
    ensures
        forall|j: int, k: int|
            0 <= j < group_pixels(px, d).len() && 0 <= k < group_pixels(px, d)[j].len() ==> crate::facet::color_distance(
                color_of(group_pixels(px, d)[j][0]),
                color_of(#[trigger] group_pixels(px, d)[j][k]),
            ) < d,
        forall|j: int, k: int, i: int|
            0 <= i < j < group_pixels(px, d).len() && 0 <= k < group_pixels(px, d)[j].len() ==> crate::facet::color_distance(
                color_of(#[trigger] group_pixels(px, d)[i][0]),
                color_of(#[trigger] group_pixels(px, d)[j][k]),
            ) >= d,
        forall|i: int| 0 <= i < px.len() ==> in_groups(group_pixels(px, d), #[trigger] px[i]),
        forall|j: int, k: int|
            0 <= j < group_pixels(px, d).len() && 0 <= k < group_pixels(px, d)[j].len() ==> px.contains(
                #[trigger] group_pixels(px, d)[j][k],
            ),
{
    let gs = group_pixels(px, d);
    lemma_group_pixels_members(px, d);
    lemma_group_index(px, d);
    crate::facet::lemma_group_members_close(px, d);
    crate::facet::lemma_groups_nonempty(px, d);
    assert forall|j: int, k: int, i: int|
        0 <= i < j < gs.len() && 0 <= k < gs[j].len() implies crate::facet::color_distance(
        color_of(#[trigger] gs[i][0]),
        color_of(#[trigger] gs[j][k]),
    ) >= d by {
        let c = color_of(gs[j][k]);
        assert(first_similar(leaders(gs), c, d) == j);
        lemma_first_similar(leaders(gs), c, d);
        assert(leaders(gs)[i] == color_of(gs[i][0]));
        assert(crate::facet::color_distance(leaders(gs)[i], c) >= d);
    }
}

/// All the pixels of the groups, counted with repetition.
pub open spec fn group_multiset(gs: Seq<Seq<Pixel>>) -> Multiset<Pixel>
    decreases gs.len(),
{
    if gs.len() == 0 {
        Multiset::empty()
    } else {
        group_multiset(gs.drop_last()).add(gs.last().to_multiset())
    }
}

/// Adding a pixel to one group adds it once to the pixels of the groups.
proof fn lemma_group_multiset_push(gs: Seq<Seq<Pixel>>, j: int, p: Pixel)
    requires
        0 <= j < gs.len(),
    ensures
        group_multiset(gs.update(j, gs[j].push(p))) =~= group_multiset(gs).insert(p),
    decreases gs.len(),
{
    broadcast use vstd::seq_lib::group_to_multiset_ensures;
    let gs2 = gs.update(j, gs[j].push(p));
    if j == gs.len() - 1 {
        assert(gs2.drop_last() =~= gs.drop_last());
        assert(gs2.last() == gs[j].push(p));
    } else {
        assert(gs2.drop_last() =~= gs.drop_last().update(j, gs[j].push(p)));
        lemma_group_multiset_push(gs.drop_last(), j, p);
        assert(gs2.last() == gs.last());
    }
}

/// Grouping keeps every pixel exactly as often as the list holds it: no pixel is lost,
/// repeated or made up.
pub proof fn lemma_group_pixels_multiset(px: Seq<Pixel>, d: int)
    ensures
        group_multiset(group_pixels(px, d)) =~= px.to_multiset(),
    decreases px.len(),
{
    broadcast use vstd::seq_lib::group_to_multiset_ensures;
    if px.len() == 0 {
        assert(px.to_multiset() =~= Multiset::empty());
    } else {
        let pre = px.drop_last();
        let p = px.last();
        lemma_group_pixels_multiset(pre, d);
        let gs0 = group_pixels(pre, d);
        let j = first_similar(leaders(gs0), color_of(p), d);
        lemma_first_similar(leaders(gs0), color_of(p), d);
        assert(px =~= pre.push(p));
        if j < gs0.len() {
            lemma_group_multiset_push(gs0, j, p);
        } else {
            let gs = gs0.push(seq![p]);
            assert(gs.drop_last() =~= gs0);
            assert(seq![p] =~= Seq::<Pixel>::empty().push(p));
            assert(Seq::<Pixel>::empty().to_multiset() =~= Multiset::empty());
        }
    }
}

/// `px` lists the pixels of the cells `cells`, which are all the cells of columns
/// `x0 .. x0 + cols`, rows `y0 .. y0 + rows`, that lie in `src`, in column-major order: column by
/// column, and top to bottom within a column.
pub open spec fn cells_in_order(
    src: Seq<u8>,
    w: int,
    x0: int,
    y0: int,
    cols: int,
    rows: int,
    px: Seq<Pixel>,
    cells: Seq<(int, int)>,
) -> bool {
    &&& cells.len() == px.len()
    &&& forall|a: int|
        0 <= a < cells.len() ==> x0 <= (#[trigger] cells[a]).0 < x0 + cols && y0 <= cells[a].1 < y0 + rows
            && cell_index(w, cells[a].0, cells[a].1) < src.len() && px[a] == pixel_at(
            src,
            cell_index(w, cells[a].0, cells[a].1),
        )
    &&& forall|a: int, b: int|
        0 <= a < b < cells.len() ==> (#[trigger] cells[a]).0 < (#[trigger] cells[b]).0 || (cells[a].0 == cells[b].0
            && cells[a].1 < cells[b].1)
    &&& forall|x: int, y: int|
        x0 <= x < x0 + cols && y0 <= y < y0 + rows && #[trigger] cell_index(w, x, y) < src.len() ==> cells.contains(
            (x, y),
        )
}

proof fn lemma_column_order(src: Seq<u8>, w: int, x: int, y0: int, m: int)
    ensures
        exists|cells: Seq<(int, int)>| #[trigger] cells_in_order(src, w, x, y0, 1, m, column_pixels(src, w, x, y0, m), cells),
    decreases m,
{
    let c = column_pixels(src, w, x, y0, m);
    if m <= 0 {
        let cells = Seq::<(int, int)>::empty();
        assert(cells_in_order(src, w, x, y0, 1, m, c, cells));
    } else {
        lemma_column_order(src, w, x, y0, m - 1);
        let s = column_pixels(src, w, x, y0, m - 1);
        let cells0 = choose|cells: Seq<(int, int)>| #[trigger] cells_in_order(src, w, x, y0, 1, m - 1, s, cells);
        let yl = y0 + m - 1;
        if cell_index(w, x, yl) < src.len() {
            let cells = cells0.push((x, yl));
            assert(c == s.push(pixel_at(src, cell_index(w, x, yl))));
            assert forall|a: int| 0 <= a < cells.len() implies x <= (#[trigger] cells[a]).0 < x + 1 && y0 <= cells[a].1
                < y0 + m && cell_index(w, cells[a].0, cells[a].1) < src.len() && c[a] == pixel_at(
                src,
                cell_index(w, cells[a].0, cells[a].1),
            ) by {
                if a < cells0.len() {
                    assert(cells[a] == cells0[a] && c[a] == s[a]);
                }
            }
            assert forall|a: int, b: int| 0 <= a < b < cells.len() implies (#[trigger] cells[a]).0 < (
            #[trigger] cells[b]).0 || (cells[a].0 == cells[b].0 && cells[a].1 < cells[b].1) by {
                assert(cells[a] == cells0[a]);
                if b < cells0.len() {
                    assert(cells[b] == cells0[b]);
                }
            }
            assert forall|xx: int, y: int|
                x <= xx < x + 1 && y0 <= y < y0 + m && #[trigger] cell_index(w, xx, y) < src.len() implies cells.contains(
                (xx, y),
            ) by {
                if y < yl {
                    assert(cells0.contains((xx, y)));
                    let a = choose|a: int| 0 <= a < cells0.len() && cells0[a] == (xx, y);
                    assert(cells[a] == cells0[a]);
                } else {
                    assert(cells[cells0.len() as int] == (xx, y));
                }
            }
            assert(cells_in_order(src, w, x, y0, 1, m, c, cells));
        } else {
            assert(c == s);
            assert forall|xx: int, y: int|
                x <= xx < x + 1 && y0 <= y < y0 + m && #[trigger] cell_index(w, xx, y) < src.len() implies cells0.contains(
                (xx, y),
            ) by {
                if y == yl {
                    assert(xx == x);
                }
            }
            assert(cells_in_order(src, w, x, y0, 1, m, c, cells0));
        }
    }
}

proof fn lemma_block_order(src: Seq<u8>, w: int, x0: int, y0: int, cols: int, rows: int)
    ensures
        exists|cells: Seq<(int, int)>|
            #[trigger] cells_in_order(src, w, x0, y0, cols, rows, block_pixels(src, w, x0, y0, cols, rows), cells),
    decreases cols,
{
    let s = block_pixels(src, w, x0, y0, cols, rows);
    if cols <= 0 {
        let cells = Seq::<(int, int)>::empty();
        assert(cells_in_order(src, w, x0, y0, cols, rows, s, cells));
    } else {
        let xl = x0 + cols - 1;
        lemma_block_order(src, w, x0, y0, cols - 1, rows);
        lemma_column_order(src, w, xl, y0, rows);
        let a = block_pixels(src, w, x0, y0, cols - 1, rows);
        let b = column_pixels(src, w, xl, y0, rows);
        let ca = choose|cells: Seq<(int, int)>| #[trigger] cells_in_order(src, w, x0, y0, cols - 1, rows, a, cells);
        let cb = choose|cells: Seq<(int, int)>| #[trigger] cells_in_order(src, w, xl, y0, 1, rows, b, cells);
        let cells = ca + cb;
        assert(s == a + b);
        assert forall|i: int| 0 <= i < cells.len() implies x0 <= (#[trigger] cells[i]).0 < x0 + cols && y0 <= cells[i].1
            < y0 + rows && cell_index(w, cells[i].0, cells[i].1) < src.len() && s[i] == pixel_at(
            src,
            cell_index(w, cells[i].0, cells[i].1),
        ) by {
            if i < ca.len() {
                assert(cells[i] == ca[i] && s[i] == a[i]);
            } else {
                assert(cells[i] == cb[i - ca.len()] && s[i] == b[i - ca.len()]);
            }
        }
        assert forall|i: int, j: int| 0 <= i < j < cells.len() implies (#[trigger] cells[i]).0 < (#[trigger] cells[j]).0
            || (cells[i].0 == cells[j].0 && cells[i].1 < cells[j].1) by {
            if j < ca.len() {
                assert(cells[i] == ca[i] && cells[j] == ca[j]);
            } else if i >= ca.len() {
                assert(cells[i] == cb[i - ca.len()] && cells[j] == cb[j - ca.len()]);
            } else {
                assert(cells[i] == ca[i] && cells[j] == cb[j - ca.len()]);
            }
        }
        assert forall|x: int, y: int|
            x0 <= x < x0 + cols && y0 <= y < y0 + rows && #[trigger] cell_index(w, x, y) < src.len() implies cells.contains(
            (x, y),
        ) by {
            if x < xl {
                assert(ca.contains((x, y)));
                let i = choose|i: int| 0 <= i < ca.len() && ca[i] == (x, y);
                assert(cells[i] == ca[i]);
            } else {
                assert(cb.contains((x, y)));
                let i = choose|i: int| 0 <= i < cb.len() && cb[i] == (x, y);
                assert(cells[ca.len() + i] == cb[i]);
            }
        }
        assert(cells_in_order(src, w, x0, y0, cols, rows, s, cells));
    }
}

/// Colour reduction visits the pixels of a rectangle column by column, top to bottom within a
/// column: the pixels it groups are those of all the cells of the rectangle that lie in `src`,
/// each once, in that order.
pub proof fn lemma_rect_pixels_order(src: Seq<u8>, w: int, rect: Seq<u32>)
    requires
        rect.len() == 4,
    ensures
        exists|cells: Seq<(int, int)>|
            #[trigger] cells_in_order(
                src,
                w,
                rect[0] as int,
                rect[1] as int,
                rect[2] as int,
                rect[3] as int,
                rect_pixels(src, w, rect),
                cells,
            ),
{
    let (x0, y0, cols, rows) = (rect[0] as int, rect[1] as int, rect[2] as int, rect[3] as int);
    lemma_block_order(src, w, x0, y0, cols, rows);
    let px = block_pixels(src, w, x0, y0, cols, rows);
    let cells = choose|cells: Seq<(int, int)>| #[trigger] cells_in_order(src, w, x0, y0, cols, rows, px, cells);
    assert(rect_pixels(src, w, rect) == px);
    assert(cells_in_order(src, w, x0, y0, cols, rows, rect_pixels(src, w, rect), cells));
}

} // verus!
