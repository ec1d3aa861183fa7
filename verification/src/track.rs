use vstd::prelude::*;

use crate::bitmap::EdgePoints;
use crate::point::Point;

verus! {

// ---------------------------------------------------------------------------
// The 8-neighbourhood
// ---------------------------------------------------------------------------

/// Column offset of the `k`-th neighbour, in the order
/// (0,1) (1,1) (1,0) (1,-1) (0,-1) (-1,-1) (-1,0) (-1,1).
pub open spec fn offset_x(k: int) -> int {
    if k == 0 || k == 4 {
        0
    } else if 1 <= k <= 3 {
        1
    } else {
        -1
    }
}

/// Row offset of the `k`-th neighbour.
pub open spec fn offset_y(k: int) -> int {
    if k == 0 || k == 1 || k == 7 {
        1
    } else if k == 2 || k == 6 {
        0
    } else {
        -1
    }
}

/// The index `k` of the neighbour that lies `(dx, dy)` away.
pub open spec fn direction_of(dx: int, dy: int) -> int {
    if dx == 0 && dy == 1 {
        0
    } else if dx == 1 && dy == 1 {
        1
    } else if dx == 1 && dy == 0 {
        2
    } else if dx == 1 && dy == -1 {
        3
    } else if dx == 0 && dy == -1 {
        4
    } else if dx == -1 && dy == -1 {
        5
    } else if dx == -1 && dy == 0 {
        6
    } else {
        7
    }
}

/// The index of the neighbour `q` of `p`.
pub open spec fn direction(p: Point, q: Point) -> int {
    direction_of(q.x - p.x, q.y - p.y)
}

/// `q` is one of the eight cells around `p`.
pub open spec fn is_neighbor(p: Point, q: Point) -> bool {
    &&& p != q
    &&& -1 <= q.x - p.x <= 1
    &&& -1 <= q.y - p.y <= 1
}

/// The cell `(x, y)` lies on the bitmap and is set.
pub open spec fn is_edge_at(g: Seq<Seq<bool>>, x: int, y: int) -> bool {
    &&& 0 <= x < g.len()
    &&& 0 <= y < g[x].len()
    &&& g[x][y]
}

/// The cell of `p` lies on the bitmap and is set.
pub open spec fn is_edge(g: Seq<Seq<bool>>, p: Point) -> bool {
    is_edge_at(g, p.x as int, p.y as int)
}

/// Some point of `s` lies at `(x, y)`.
pub open spec fn covers(s: Seq<Point>, x: int, y: int) -> bool {
    exists|i: int| 0 <= i < s.len() && #[trigger] s[i].x == x && s[i].y == y
}

/// Scan order: column first, then row.
pub open spec fn scan_before(p: Point, q: Point) -> bool {
    p.x < q.x || (p.x == q.x && p.y < q.y)
}

// ---------------------------------------------------------------------------
// Breadth-first order of a region
// ---------------------------------------------------------------------------

/// `s[j]` is the first point of `s` next to `s[k]`, and comes before it.
pub open spec fn is_parent(s: Seq<Point>, j: int, k: int) -> bool {
    &&& 0 <= j < k < s.len()
    &&& is_neighbor(s[j], s[k])
    &&& forall|i: int| 0 <= i < j ==> !is_neighbor(#[trigger] s[i], s[k])
}

/// Some point of `s` is the parent of `s[k]`.
pub open spec fn has_parent(s: Seq<Point>, k: int) -> bool {
    exists|j: int| #[trigger] is_parent(s, j, k)
}

/// Every point after the first has a parent before it, and the points come in the order of
/// their parents, then of the direction in which they lie from their parent.
pub open spec fn is_breadth_first(s: Seq<Point>) -> bool {
    &&& forall|k: int| 1 <= k < s.len() ==> #[trigger] has_parent(s, k)
    &&& forall|k: int, l: int, j: int, m: int|
        #![trigger is_parent(s, j, k), is_parent(s, m, l)]
        k < l && is_parent(s, j, k) && is_parent(s, m, l) ==> j < m || (j == m && direction(
            s[j],
            s[k],
        ) < direction(s[m], s[l]))
}

// ---------------------------------------------------------------------------
// The result of edge tracking
// ---------------------------------------------------------------------------

/// Number of columns, and length of the first column (0 without columns).
pub open spec fn height_of(g: Seq<Seq<bool>>) -> int {
    if g.len() > 0 {
        g[0].len() as int
    } else {
        0
    }
}

/// A bitmap that edge tracking scans without going out of bounds: either the first column is
/// empty, and nothing is scanned, or there are as many columns as the first one is long, at
/// most `i16::MAX`, and no column is shorter than the first.
pub open spec fn is_trackable(g: Seq<Seq<bool>>) -> bool {
    height_of(g) == 0 || {
        &&& g.len() <= i16::MAX
        &&& height_of(g) == g.len()
        &&& forall|x: int| 0 <= x < g.len() ==> #[trigger] g[x].len() >= height_of(g)
    }
}

/// The cells that edge tracking looks at: each column cut to the length of the first.
pub open spec fn scanned_cells(g: Seq<Seq<bool>>) -> Seq<Seq<bool>> {
    g.map_values(|column: Seq<bool>| column.take(height_of(g)))
}

/// `cs` lists the 8-connected regions of set cells of `g`: each set cell in exactly one
/// region, each region closed under neighbourhood, in breadth-first order from its first
/// cell in scan order, and the regions in the scan order of their first cells.
pub open spec fn is_region_list(g: Seq<Seq<bool>>, cs: Seq<Seq<Point>>) -> bool {
    &&& forall|c: int| 0 <= c < cs.len() ==> #[trigger] cs[c].len() > 0
    &&& forall|c: int, i: int| 0 <= c < cs.len() && 0 <= i < cs[c].len() ==> is_edge(g, #[trigger] cs[c][i])
    &&& forall|c: int, i: int, d: int, j: int|
        0 <= c < cs.len() && 0 <= i < cs[c].len() && 0 <= d < cs.len() && 0 <= j < cs[d].len() && (c != d
            || i != j) ==> #[trigger] cs[c][i] != #[trigger] cs[d][j]
    &&& forall|x: int, y: int| #[trigger] is_edge_at(g, x, y) ==> exists|c: int| 0 <= c < cs.len() && #[trigger] covers(cs[c], x, y)
    &&& forall|c: int, i: int, q: Point|
        0 <= c < cs.len() && 0 <= i < cs[c].len() && is_edge(g, q) && #[trigger] is_neighbor(cs[c][i], q) ==> covers(cs[c], q.x as int, q.y as int)
    &&& forall|c: int| 0 <= c < cs.len() ==> is_breadth_first(#[trigger] cs[c])
    &&& forall|c: int, i: int| 0 <= c < cs.len() && 0 <= i < cs[c].len() ==> #[trigger] cs[c][i] == cs[c][0] || scan_before(cs[c][0], cs[c][i])
    &&& forall|c: int, d: int| 0 <= c < d < cs.len() ==> scan_before(#[trigger] cs[c][0], #[trigger] cs[d][0])
}

/// The contours of a list of point vectors, as sequences.
pub open spec fn contours_view(v: Seq<Vec<Point>>) -> Seq<Seq<Point>> {
    v.map_values(|c: Vec<Point>| c@)
}

// ---------------------------------------------------------------------------
// Counting set cells (termination of region growing)
// ---------------------------------------------------------------------------

spec fn count_row(s: Seq<bool>) -> nat
    decreases s.len(),
{
    if s.len() == 0 {
        0
    } else {
        count_row(s.drop_last()) + if s.last() {
            1nat
        } else {
            0nat
        }
    }
}

spec fn count_cells(g: Seq<Seq<bool>>) -> nat
    decreases g.len(),
{
    if g.len() == 0 {
        0
    } else {
        count_cells(g.drop_last()) + count_row(g.last())
    }
}

proof fn lemma_count_row_clear(s: Seq<bool>, y: int)
    requires
        0 <= y < s.len(),
        s[y],
    ensures
        count_row(s.update(y, false)) + 1 == count_row(s),
    decreases s.len(),
{
    let t = s.update(y, false);
    if y == s.len() - 1 {
        assert(t.drop_last() =~= s.drop_last());
    } else {
        assert(t.drop_last() =~= s.drop_last().update(y, false));
        lemma_count_row_clear(s.drop_last(), y);
    }
}

proof fn lemma_count_cells_clear(g: Seq<Seq<bool>>, x: int, y: int)
    requires
        0 <= x < g.len(),
        0 <= y < g[x].len(),
        g[x][y],
    ensures
        count_cells(g.update(x, g[x].update(y, false))) + 1 == count_cells(g),
    decreases g.len(),
{
    let t = g.update(x, g[x].update(y, false));
    if x == g.len() - 1 {
        assert(t.drop_last() =~= g.drop_last());
        lemma_count_row_clear(g[x], y);
    } else {
        assert(t.drop_last() =~= g.drop_last().update(x, g[x].update(y, false)));
        lemma_count_cells_clear(g.drop_last(), x, y);
    }
}

// ---------------------------------------------------------------------------
// Facts about the neighbourhood
// ---------------------------------------------------------------------------

proof fn lemma_offset_is_neighbor(p: Point, q: Point, k: int)
    requires
        0 <= k < 8,
        q.x == p.x + offset_x(k),
        q.y == p.y + offset_y(k),
    ensures
        is_neighbor(p, q),
        direction(p, q) == k,
{
}

proof fn lemma_neighbor_offset(p: Point, q: Point)
    requires
        is_neighbor(p, q),
    ensures
        0 <= direction(p, q) < 8,
        q.x == p.x + offset_x(direction(p, q)),
        q.y == p.y + offset_y(direction(p, q)),
{
}

/// The offsets of the eight neighbours, in the order of `offset_x` and `offset_y`.
fn neighbor_offset(k: usize) -> (d: (i16, i16))
    requires
        k < 8,
    ensures
        d.0 == offset_x(k as int),
        d.1 == offset_y(k as int),
{
    match k {
        0 => (0, 1),
        1 => (1, 1),
        2 => (1, 0),
        3 => (1, -1),
        4 => (0, -1),
        5 => (-1, -1),
        6 => (-1, 0),
        _ => (-1, 1),
    }
}

/// `g` is a square bitmap whose side fits in 16 bits.
spec fn is_square(g: Seq<Seq<bool>>) -> bool {
    &&& g.len() <= i16::MAX
    &&& forall|x: int| 0 <= x < g.len() ==> #[trigger] g[x].len() == g.len()
}

spec fn in_square(w: int, x: int, y: int) -> bool {
    0 <= x < w && 0 <= y < w
}

/// The state of region growing: `c` holds the points taken so far, the first `h` of them
/// processed and the neighbours `0..k` of `c[h]` looked at; `cur` is `g` with the points of `c`
/// cleared; `parents` and `dirs` record from which point and in which direction each point
/// was taken.
#[verifier::opaque]
spec fn growing(
    g: Seq<Seq<bool>>,
    cur: Seq<Seq<bool>>,
    c: Seq<Point>,
    parents: Seq<int>,
    dirs: Seq<int>,
    h: int,
    k: int,
) -> bool {
    let w = g.len() as int;
    &&& is_square(g)
    &&& is_square(cur)
    &&& cur.len() == w
    &&& 0 <= h <= c.len()
    &&& 0 <= k <= 8
    &&& parents.len() == c.len()
    &&& dirs.len() == c.len()
    &&& forall|i: int|
        0 <= i < c.len() ==> in_square(w, #[trigger] c[i].x as int, c[i].y as int) && g[c[i].x as int][c[i].y as int]
    &&& forall|i: int, j: int| 0 <= i < j < c.len() ==> #[trigger] c[i] != #[trigger] c[j]
    &&& forall|i: int| 0 <= i < c.len() ==> !cur[#[trigger] c[i].x as int][c[i].y as int]
    &&& forall|a: int, b: int| in_square(w, a, b) && #[trigger] cur[a][b] ==> g[a][b]
    &&& forall|a: int, b: int| in_square(w, a, b) && g[a][b] && !#[trigger] cur[a][b] ==> covers(c, a, b)
    &&& forall|i: int, d: int|
        #![trigger c[i], offset_x(d)]
        0 <= i < h && 0 <= d < 8 && in_square(w, c[i].x + offset_x(d), c[i].y + offset_y(d))
            ==> !cur[c[i].x + offset_x(d)][c[i].y + offset_y(d)]
    &&& forall|d: int|
        h < c.len() && 0 <= d < k && in_square(w, c[h].x + offset_x(d), c[h].y + offset_y(d))
            ==> !cur[c[h].x + #[trigger] offset_x(d)][c[h].y + offset_y(d)]
    &&& forall|l: int|
        1 <= l < c.len() ==> 0 <= #[trigger] parents[l] <= h && parents[l] < l && 0 <= dirs[l] < 8
            && c[l].x == c[parents[l]].x + offset_x(dirs[l]) && c[l].y == c[parents[l]].y + offset_y(dirs[l])
    &&& forall|l: int| 1 <= l < c.len() && #[trigger] parents[l] == h ==> dirs[l] < k
    &&& forall|l: int, i: int| 1 <= l < c.len() && 0 <= i < parents[l] ==> !is_neighbor(#[trigger] c[i], #[trigger] c[l])
    &&& forall|l: int, n: int|
        1 <= l < n < c.len() ==> #[trigger] parents[l] < #[trigger] parents[n] || (parents[l] == parents[n]
            && dirs[l] < dirs[n])
}

proof fn lemma_growing_start(g: Seq<Seq<bool>>, cur: Seq<Seq<bool>>, p: Point)
    requires
        is_square(g),
        in_square(g.len() as int, p.x as int, p.y as int),
        g[p.x as int][p.y as int],
        cur == g.update(p.x as int, g[p.x as int].update(p.y as int, false)),
    ensures
        growing(g, cur, seq![p], seq![0int], seq![0int], 0, 0),
{
    reveal(growing);
    let c = seq![p];
    assert forall|a: int, b: int| in_square(g.len() as int, a, b) && g[a][b] && !#[trigger] cur[a][b] implies covers(
        c,
        a,
        b,
    ) by {
        assert(c[0].x == a && c[0].y == b);
    }
}

proof fn lemma_growing_skip(
    g: Seq<Seq<bool>>,
    cur: Seq<Seq<bool>>,
    c: Seq<Point>,
    parents: Seq<int>,
    dirs: Seq<int>,
    h: int,
    k: int,
)
    requires
        growing(g, cur, c, parents, dirs, h, k),
        h < c.len(),
        0 <= k < 8,
        in_square(g.len() as int, c[h].x + offset_x(k), c[h].y + offset_y(k)) ==> !cur[c[h].x + offset_x(
            k,
        )][c[h].y + offset_y(k)],
    ensures
        growing(g, cur, c, parents, dirs, h, k + 1),
{
    reveal(growing);
}

proof fn lemma_growing_take(
    g: Seq<Seq<bool>>,
    cur: Seq<Seq<bool>>,
    c: Seq<Point>,
    parents: Seq<int>,
    dirs: Seq<int>,
    h: int,
    k: int,
    q: Point,
)
    requires
        growing(g, cur, c, parents, dirs, h, k),
        h < c.len(),
        0 <= k < 8,
        q.x == c[h].x + offset_x(k),
        q.y == c[h].y + offset_y(k),
        in_square(g.len() as int, q.x as int, q.y as int),
        cur[q.x as int][q.y as int],
    ensures
        growing(
            g,
            cur.update(q.x as int, cur[q.x as int].update(q.y as int, false)),
            c.push(q),
            parents.push(h),
            dirs.push(k),
            h,
            k + 1,
        ),
{
    reveal(growing);
    let w = g.len() as int;
    let cur2 = cur.update(q.x as int, cur[q.x as int].update(q.y as int, false));
    let c2 = c.push(q);
    let n = c.len() as int;
    assert forall|i: int| 0 <= i < c.len() implies c[i] != q by {
        assert(!cur[c[i].x as int][c[i].y as int]);
    }
    assert forall|i: int| 0 <= i < h implies !is_neighbor(c[i], q) by {
        if is_neighbor(c[i], q) {
            lemma_neighbor_offset(c[i], q);
            let d = direction(c[i], q);
            assert(in_square(w, c[i].x + offset_x(d), c[i].y + offset_y(d)));
        }
    }
    assert(is_square(cur2)) by {
        assert forall|x: int| 0 <= x < cur2.len() implies #[trigger] cur2[x].len() == cur2.len() by {
            assert(cur[x].len() == cur.len());
        }
    }
    assert forall|a: int, b: int| in_square(w, a, b) && g[a][b] && !#[trigger] cur2[a][b] implies covers(c2, a, b) by {
        if a == q.x && b == q.y {
            assert(c2[n].x == a && c2[n].y == b);
        } else {
            assert(!cur[a][b]);
            let i = choose|i: int| 0 <= i < c.len() && #[trigger] c[i].x == a && c[i].y == b;
            assert(c2[i] == c[i]);
        }
    }
    assert forall|l: int, i: int| 1 <= l < c2.len() && 0 <= i < parents.push(h)[l] implies !is_neighbor(
        #[trigger] c2[i],
        #[trigger] c2[l],
    ) by {
        if l < n {
            assert(c2[l] == c[l] && c2[i] == c[i]);
        } else {
            assert(c2[i] == c[i]);
        }
    }
    assert forall|i: int, j: int| 0 <= i < j < c2.len() implies #[trigger] c2[i] != #[trigger] c2[j] by {
        if j < n {
            assert(c2[i] == c[i] && c2[j] == c[j]);
        } else {
            assert(c2[i] == c[i]);
        }
    }
}

proof fn lemma_growing_next(
    g: Seq<Seq<bool>>,
    cur: Seq<Seq<bool>>,
    c: Seq<Point>,
    parents: Seq<int>,
    dirs: Seq<int>,
    h: int,
)
    requires
        growing(g, cur, c, parents, dirs, h, 8),
        h < c.len(),
    ensures
        growing(g, cur, c, parents, dirs, h + 1, 0),
{
    reveal(growing);
    let w = g.len() as int;
    assert forall|i: int, d: int|
        #![trigger c[i], offset_x(d)]
        0 <= i < h + 1 && 0 <= d < 8 && in_square(w, c[i].x + offset_x(d), c[i].y + offset_y(d)) implies !cur[c[i].x
        + offset_x(d)][c[i].y + offset_y(d)] by {
        if i == h {
            assert(!cur[c[h].x + offset_x(d)][c[h].y + offset_y(d)]);
        }
    }
}

proof fn lemma_growing_done(
    g: Seq<Seq<bool>>,
    cur: Seq<Seq<bool>>,
    c: Seq<Point>,
    parents: Seq<int>,
    dirs: Seq<int>,
)
    requires
        growing(g, cur, c, parents, dirs, c.len() as int, 0),
    ensures
        is_square(cur),
        cur.len() == g.len(),
        forall|i: int| 0 <= i < c.len() ==> is_edge(g, #[trigger] c[i]),
        forall|i: int, j: int| 0 <= i < j < c.len() ==> #[trigger] c[i] != #[trigger] c[j],
        forall|a: int, b: int|
            in_square(g.len() as int, a, b) ==> #[trigger] cur[a][b] == (g[a][b] && !covers(c, a, b)),
        forall|i: int, q: Point|
            0 <= i < c.len() && is_edge(g, q) && #[trigger] is_neighbor(c[i], q) ==> covers(
                c,
                q.x as int,
                q.y as int,
            ),
        is_breadth_first(c),
{
    reveal(growing);
    let w = g.len() as int;
    assert forall|i: int| 0 <= i < c.len() implies is_edge(g, #[trigger] c[i]) by {
        assert(in_square(w, c[i].x as int, c[i].y as int));
        assert(g[c[i].x as int].len() == w);
    }
    assert forall|a: int, b: int| in_square(w, a, b) implies #[trigger] cur[a][b] == (g[a][b] && !covers(c, a, b)) by {
        if covers(c, a, b) {
            let i = choose|i: int| 0 <= i < c.len() && #[trigger] c[i].x == a && c[i].y == b;
            assert(!cur[c[i].x as int][c[i].y as int]);
        }
    }
    assert forall|i: int, q: Point|
        0 <= i < c.len() && is_edge(g, q) && #[trigger] is_neighbor(c[i], q) implies covers(c, q.x as int, q.y as int) by {
        lemma_neighbor_offset(c[i], q);
        let d = direction(c[i], q);
        assert(g[q.x as int].len() == w);
        assert(in_square(w, c[i].x + offset_x(d), c[i].y + offset_y(d)));
        assert(!cur[c[i].x + offset_x(d)][c[i].y + offset_y(d)]);
    }
    lemma_breadth_first(c, parents, dirs);
}

/// Grows the region of set cells around `(x, y)` breadth first, clearing each cell it takes.
fn grow_region(edges: &mut Vec<Vec<bool>>, x: usize, y: usize) -> (contour: Vec<Point>)
    requires
        is_square(old(edges).cells()),
        x < old(edges).cells().len(),
        y < old(edges).cells().len(),
        old(edges).cells()[x as int][y as int],
    ensures
        is_square(final(edges).cells()),
        final(edges).cells().len() == old(edges).cells().len(),
        contour@.len() > 0,
        contour@[0].x == x,
        contour@[0].y == y,
        forall|i: int| 0 <= i < contour@.len() ==> is_edge(old(edges).cells(), #[trigger] contour@[i]),
        forall|i: int, j: int| 0 <= i < j < contour@.len() ==> #[trigger] contour@[i] != #[trigger] contour@[j],
        forall|a: int, b: int|
            in_square(old(edges).cells().len() as int, a, b) ==> #[trigger] final(edges).cells()[a][b] == (old(
                edges,
            ).cells()[a][b] && !covers(contour@, a, b)),
        forall|i: int, q: Point|
            0 <= i < contour@.len() && is_edge(old(edges).cells(), q) && #[trigger] is_neighbor(contour@[i], q)
                ==> covers(contour@, q.x as int, q.y as int),
        is_breadth_first(contour@),
{
    let ghost g = edges.cells();
    let ghost w = g.len() as int;
    proof {
        lemma_count_cells_clear(g, x as int, y as int);
    }
    *edges.atu(x, y) = false;
    let mut seeds: Vec<Point> = Vec::new();
    let mut contour: Vec<Point> = Vec::new();
    seeds.push(Point::from_usize(x, y));
    contour.push(Point::from_usize(x, y));
    let ghost mut parents: Seq<int> = seq![0int];
    let ghost mut dirs: Seq<int> = seq![0int];
    proof {
        assert(contour@ == seq![Point { x: x as i16, y: y as i16 }]);
        lemma_growing_start(g, edges.cells(), contour@[0]);
    }
    while seeds.len() > 0
        invariant
            w == g.len(),
            x < w,
            y < w,
            contour@.len() >= 1,
            seeds@.len() <= contour@.len(),
            contour@[0].x == x,
            contour@[0].y == y,
            seeds@ == contour@.subrange(contour@.len() - seeds@.len(), contour@.len() as int),
            growing(g, edges.cells(), contour@, parents, dirs, contour@.len() - seeds@.len(), 0),
        decreases 2 * count_cells(edges.cells()) + seeds@.len(),
    {
        let ghost h = contour@.len() - seeds@.len();
        let ghost m0 = 2 * count_cells(edges.cells()) + seeds@.len();
        assert(seeds@[0] == contour@[h]);
        for k in 0..8
            invariant
                w == g.len(),
                x < w,
                y < w,
                contour@.len() >= 1,
                seeds@.len() >= 1,
                seeds@.len() <= contour@.len(),
                h == contour@.len() - seeds@.len(),
                seeds@[0] == contour@[h],
                2 * count_cells(edges.cells()) + seeds@.len() <= m0,
                contour@[0].x == x,
                contour@[0].y == y,
                seeds@ == contour@.subrange(contour@.len() - seeds@.len(), contour@.len() as int),
                growing(g, edges.cells(), contour@, parents, dirs, h, k as int),
        {
            proof {
                reveal(growing);
            }
            let (dx, dy) = neighbor_offset(k);
            let new_x = seeds[0].x + dx;
            let new_y = seeds[0].y + dy;
            let ghost cells = edges.cells();
            let ghost c0 = contour@;
            if (new_x >= 0) && (new_x <= edges.widthi() - 1) && (new_y >= 0) && (new_y <= edges.heighti()
                - 1) {
                let set = *edges.at(new_x, new_y);
                proof {
                    assert(edges.cells()[new_x as int] =~= cells[new_x as int]);
                    assert(edges.cells() =~= cells);
                }
                if set {
                    let ghost q = Point { x: new_x, y: new_y };
                    proof {
                        lemma_count_cells_clear(cells, new_x as int, new_y as int);
                        lemma_growing_take(g, cells, c0, parents, dirs, h, k as int, q);
                    }
                    *edges.at(new_x, new_y) = false;
                    seeds.push(Point::new(new_x, new_y));
                    contour.push(Point::new(new_x, new_y));
                    proof {
                        parents = parents.push(h);
                        dirs = dirs.push(k as int);
                        assert(contour@ == c0.push(q));
                        assert(edges.cells() == cells.update(new_x as int, cells[new_x as int].update(new_y as int, false)));
                    }
                } else {
                    proof {
                        lemma_growing_skip(g, cells, c0, parents, dirs, h, k as int);
                    }
                }
            } else {
                proof {
                    lemma_growing_skip(g, cells, c0, parents, dirs, h, k as int);
                }
            }
        }
        proof {
            lemma_growing_next(g, edges.cells(), contour@, parents, dirs, h);
        }
        seeds.remove(0);
    }
    proof {
        lemma_growing_done(g, edges.cells(), contour@, parents, dirs);
    }
    contour
}

/// The parent and direction records that region growing keeps make its order breadth first.
proof fn lemma_breadth_first(s: Seq<Point>, parents: Seq<int>, dirs: Seq<int>)
    requires
        parents.len() == s.len(),
        dirs.len() == s.len(),
        forall|k: int|
            1 <= k < s.len() ==> 0 <= #[trigger] parents[k] < k && 0 <= dirs[k] < 8 && s[k].x == s[parents[k]].x
                + offset_x(dirs[k]) && s[k].y == s[parents[k]].y + offset_y(dirs[k]),
        forall|k: int, i: int| 1 <= k < s.len() && 0 <= i < parents[k] ==> !is_neighbor(#[trigger] s[i], #[trigger] s[k]),
        forall|k: int, l: int|
            1 <= k < l < s.len() ==> #[trigger] parents[k] < #[trigger] parents[l] || (parents[k] == parents[l]
                && dirs[k] < dirs[l]),
    ensures
        is_breadth_first(s),
{
    assert forall|k: int| 1 <= k < s.len() implies is_parent(s, #[trigger] parents[k], k) by {
        lemma_offset_is_neighbor(s[parents[k]], s[k], dirs[k]);
    }
    assert forall|k: int| 1 <= k < s.len() implies #[trigger] has_parent(s, k) by {
        assert(is_parent(s, parents[k], k));
    }
    assert forall|k: int, l: int, j: int, m: int|
        #![trigger is_parent(s, j, k), is_parent(s, m, l)]
        k < l && is_parent(s, j, k) && is_parent(s, m, l) implies j < m || (j == m && direction(s[j], s[k])
            < direction(s[m], s[l])) by {
        lemma_offset_is_neighbor(s[parents[k]], s[k], dirs[k]);
        lemma_offset_is_neighbor(s[parents[l]], s[l], dirs[l]);
        if j < parents[k] {
            assert(!is_neighbor(s[j], s[k]));
        }
        if parents[k] < j {
            assert(!is_neighbor(s[parents[k]], s[k]));
        }
        if m < parents[l] {
            assert(!is_neighbor(s[m], s[l]));
        }
        if parents[l] < m {
            assert(!is_neighbor(s[parents[l]], s[l]));
        }
        assert(j == parents[k] && m == parents[l]);
    }
}

// ---------------------------------------------------------------------------
// Scanning the bitmap
// ---------------------------------------------------------------------------

/// Column-major scan position `(x, y)` comes after the cell `(a, b)`.
spec fn scanned(x: int, y: int, a: int, b: int) -> bool {
    a < x || (a == x && b < y)
}

/// The state of the scan at `(x, y)`: `cs` lists the regions found so far, `cur` is `g` with
/// their cells cleared, and every cell before `(x, y)` is clear.
#[verifier::opaque]
spec fn tracing(g: Seq<Seq<bool>>, cur: Seq<Seq<bool>>, cs: Seq<Seq<Point>>, x: int, y: int) -> bool {
    let w = g.len() as int;
    &&& is_square(g)
    &&& is_square(cur)
    &&& cur.len() == w
    &&& 0 <= x <= w
    &&& 0 <= y <= w
    &&& forall|c: int| 0 <= c < cs.len() ==> #[trigger] cs[c].len() > 0
    &&& forall|c: int, i: int| 0 <= c < cs.len() && 0 <= i < cs[c].len() ==> is_edge(g, #[trigger] cs[c][i])
    &&& forall|c: int, i: int, d: int, j: int|
        0 <= c < cs.len() && 0 <= i < cs[c].len() && 0 <= d < cs.len() && 0 <= j < cs[d].len() && (c != d
            || i != j) ==> #[trigger] cs[c][i] != #[trigger] cs[d][j]
    &&& forall|c: int, i: int|
        0 <= c < cs.len() && 0 <= i < cs[c].len() ==> !cur[#[trigger] cs[c][i].x as int][cs[c][i].y as int]
    &&& forall|a: int, b: int| in_square(w, a, b) && #[trigger] cur[a][b] ==> g[a][b]
    &&& forall|a: int, b: int|
        in_square(w, a, b) && g[a][b] && !#[trigger] cur[a][b] ==> exists|c: int| 0 <= c < cs.len() && #[trigger] covers(cs[c], a, b)
    &&& forall|c: int, i: int, q: Point|
        0 <= c < cs.len() && 0 <= i < cs[c].len() && is_edge(g, q) && #[trigger] is_neighbor(cs[c][i], q) ==> covers(cs[c], q.x as int, q.y as int)
    &&& forall|c: int| 0 <= c < cs.len() ==> is_breadth_first(#[trigger] cs[c])
    &&& forall|c: int, i: int| 0 <= c < cs.len() && 0 <= i < cs[c].len() ==> #[trigger] cs[c][i] == cs[c][0] || scan_before(cs[c][0], cs[c][i])
    &&& forall|c: int, d: int| 0 <= c < d < cs.len() ==> scan_before(#[trigger] cs[c][0], #[trigger] cs[d][0])
    &&& forall|c: int| 0 <= c < cs.len() ==> scanned(x, y, #[trigger] cs[c][0].x as int, cs[c][0].y as int)
    &&& forall|a: int, b: int| in_square(w, a, b) && scanned(x, y, a, b) ==> !#[trigger] cur[a][b]
}

proof fn lemma_tracing_start(g: Seq<Seq<bool>>)
    requires
        is_square(g),
    ensures
        tracing(g, g, Seq::<Seq<Point>>::empty(), 0, 0),
{
    reveal(tracing);
}

proof fn lemma_tracing_skip(g: Seq<Seq<bool>>, cur: Seq<Seq<bool>>, cs: Seq<Seq<Point>>, x: int, y: int)
    requires
        tracing(g, cur, cs, x, y),
        x < g.len(),
        y < g.len(),
        !cur[x][y],
    ensures
        tracing(g, cur, cs, x, y + 1),
{
    reveal(tracing);
}

proof fn lemma_tracing_column(g: Seq<Seq<bool>>, cur: Seq<Seq<bool>>, cs: Seq<Seq<Point>>, x: int)
    requires
        tracing(g, cur, cs, x, g.len() as int),
        x < g.len(),
    ensures
        tracing(g, cur, cs, x + 1, 0),
{
    reveal(tracing);
}

proof fn lemma_tracing_add(
    g: Seq<Seq<bool>>,
    cur: Seq<Seq<bool>>,
    cs: Seq<Seq<Point>>,
    x: int,
    y: int,
    cur2: Seq<Seq<bool>>,
    s: Seq<Point>,
)
    requires
        tracing(g, cur, cs, x, y),
        0 <= x < g.len(),
        0 <= y < g.len(),
        cur[x][y],
        is_square(cur2),
        cur2.len() == cur.len(),
        s.len() > 0,
        s[0].x == x,
        s[0].y == y,
        forall|i: int| 0 <= i < s.len() ==> is_edge(cur, #[trigger] s[i]),
        forall|i: int, j: int| 0 <= i < j < s.len() ==> #[trigger] s[i] != #[trigger] s[j],
        forall|a: int, b: int|
            in_square(cur.len() as int, a, b) ==> #[trigger] cur2[a][b] == (cur[a][b] && !covers(s, a, b)),
        forall|i: int, q: Point|
            0 <= i < s.len() && is_edge(cur, q) && #[trigger] is_neighbor(s[i], q) ==> covers(
                s,
                q.x as int,
                q.y as int,
            ),
        is_breadth_first(s),
    ensures
        tracing(g, cur2, cs.push(s), x, y + 1),
{
    reveal(tracing);
    let w = g.len() as int;
    let cs2 = cs.push(s);
    let n = cs.len() as int;
    assert(cs2[n] == s);
    assert forall|c: int| 0 <= c < cs.len() implies cs2[c] == cs[c] by {}
    // every point of `s` is set in `cur`, so it belongs to no earlier region
    assert forall|i: int| 0 <= i < s.len() implies in_square(w, #[trigger] s[i].x as int, s[i].y as int)
        && cur[s[i].x as int][s[i].y as int] && g[s[i].x as int][s[i].y as int] by {
        assert(cur[s[i].x as int].len() == w);
    }
    assert forall|c: int, i: int| 0 <= c < cs2.len() && 0 <= i < cs2[c].len() implies is_edge(g, #[trigger] cs2[c][i]) by {
        if c == n {
            assert(g[s[i].x as int].len() == w);
        }
    }
    assert forall|c: int, i: int, d: int, j: int|
        0 <= c < cs2.len() && 0 <= i < cs2[c].len() && 0 <= d < cs2.len() && 0 <= j < cs2[d].len() && (c != d
            || i != j) implies #[trigger] cs2[c][i] != #[trigger] cs2[d][j] by {
        if c == n && d == n {
            if i < j {
                assert(s[i] != s[j]);
            } else {
                assert(s[j] != s[i]);
            }
        } else if c == n {
            assert(!cur[cs[d][j].x as int][cs[d][j].y as int]);
        } else if d == n {
            assert(!cur[cs[c][i].x as int][cs[c][i].y as int]);
        } else {
            assert(cs[c][i] != cs[d][j]);
        }
    }
    assert forall|c: int, i: int| 0 <= c < cs2.len() && 0 <= i < cs2[c].len() implies !cur2[#[trigger] cs2[c][i].x as int][cs2[c][i].y as int] by {
        if c == n {
            assert(s[i].x == s[i].x && covers(s, s[i].x as int, s[i].y as int));
        } else {
            assert(!cur[cs[c][i].x as int][cs[c][i].y as int]);
            assert(in_square(w, cs[c][i].x as int, cs[c][i].y as int)) by {
                assert(is_edge(g, cs[c][i]));
            }
        }
    }
    assert forall|a: int, b: int| in_square(w, a, b) && #[trigger] cur2[a][b] implies g[a][b] by {
        assert(cur[a][b]);
    }
    assert forall|a: int, b: int|
        in_square(w, a, b) && g[a][b] && !#[trigger] cur2[a][b] implies exists|c: int| 0 <= c < cs2.len() && #[trigger] covers(cs2[c], a, b) by {
        if cur[a][b] {
            assert(covers(cs2[n], a, b));
        } else {
            let c = choose|c: int| 0 <= c < cs.len() && #[trigger] covers(cs[c], a, b);
            assert(covers(cs2[c], a, b));
        }
    }
    assert forall|c: int, i: int, q: Point|
        0 <= c < cs2.len() && 0 <= i < cs2[c].len() && is_edge(g, q) && #[trigger] is_neighbor(cs2[c][i], q) implies covers(cs2[c], q.x as int, q.y as int) by {
        if c == n {
            let p = s[i];
            if cur[q.x as int][q.y as int] {
                assert(is_edge(cur, q));
            } else {
                assert(g[q.x as int].len() == w);
                let d = choose|d: int| 0 <= d < cs.len() && #[trigger] covers(cs[d], q.x as int, q.y as int);
                let j = choose|j: int| 0 <= j < cs[d].len() && #[trigger] cs[d][j].x == q.x && cs[d][j].y == q.y;
                assert(cs[d][j] == q);
                assert(is_neighbor(cs[d][j], p));
                assert(is_edge(g, p));
                assert(covers(cs[d], p.x as int, p.y as int));
                let k = choose|k: int| 0 <= k < cs[d].len() && #[trigger] cs[d][k].x == p.x && cs[d][k].y == p.y;
                assert(cs[d][k] == p);
                assert(!cur[cs[d][k].x as int][cs[d][k].y as int]);
                assert(false);
            }
        }
    }
    assert forall|c: int| 0 <= c < cs2.len() implies is_breadth_first(#[trigger] cs2[c]) by {}
    assert forall|c: int, i: int| 0 <= c < cs2.len() && 0 <= i < cs2[c].len() implies #[trigger] cs2[c][i] == cs2[c][0] || scan_before(cs2[c][0], cs2[c][i]) by {
        if c == n {
            let p = s[i];
            if p != s[0] && !scan_before(s[0], p) {
                assert(scanned(x, y, p.x as int, p.y as int));
                assert(!cur[p.x as int][p.y as int]);
            }
        }
    }
    assert forall|c: int, d: int| 0 <= c < d < cs2.len() implies scan_before(#[trigger] cs2[c][0], #[trigger] cs2[d][0]) by {
        if d == n {
            assert(scanned(x, y, cs[c][0].x as int, cs[c][0].y as int));
        }
    }
    assert forall|c: int| 0 <= c < cs2.len() implies scanned(x, y + 1, #[trigger] cs2[c][0].x as int, cs2[c][0].y as int) by {
        if c < n {
            assert(scanned(x, y, cs[c][0].x as int, cs[c][0].y as int));
        }
    }
    assert forall|a: int, b: int| in_square(w, a, b) && scanned(x, y + 1, a, b) implies !#[trigger] cur2[a][b] by {
        if a == x && b == y {
            assert(covers(s, a, b)) by {
                assert(s[0].x == a && s[0].y == b);
            }
        } else {
            assert(!cur[a][b]);
        }
    }
}

proof fn lemma_tracing_end(g: Seq<Seq<bool>>, cur: Seq<Seq<bool>>, cs: Seq<Seq<Point>>)
    requires
        tracing(g, cur, cs, g.len() as int, 0),
    ensures
        is_region_list(g, cs),
{
    reveal(tracing);
    let w = g.len() as int;
    assert forall|x: int, y: int| #[trigger] is_edge_at(g, x, y) implies exists|c: int| 0 <= c < cs.len() && #[trigger] covers(cs[c], x, y) by {
        assert(in_square(w, x, y));
        assert(!cur[x][y]);
    }
}

/// Splits the set cells of `edges` into 8-connected regions: scanning the bitmap column by
/// column, each set cell that no earlier region holds starts a region, grown breadth first
/// through the eight neighbours of each cell.
fn trace_regions(edges: Vec<Vec<bool>>) -> (contours: Vec<Vec<Point>>)
    requires
        is_square(edges.cells()),
    ensures
        is_region_list(edges.cells(), contours_view(contours@)),
{
    let ghost g = edges.cells();
    let ghost w = g.len() as int;
    let mut edges = edges;
    let mut contours: Vec<Vec<Point>> = Vec::new();
    let height = edges.height();
    proof {
        if height > 0 {
            lemma_tracing_start(g);
            assert(contours_view(contours@) =~= Seq::<Seq<Point>>::empty());
        }
    }
    for x in 0..height
        invariant
            w == g.len(),
            height > 0 ==> height == w,
            height > 0 ==> tracing(g, edges.cells(), contours_view(contours@), x as int, 0),
            height == 0 ==> contours@.len() == 0,
    {
        proof {
            reveal(tracing);
        }
        let width = edges.width();
        for y in 0..width
            invariant
                w == g.len(),
                height == w,
                width == w,
                x < w,
                tracing(g, edges.cells(), contours_view(contours@), x as int, y as int),
        {
            proof {
                reveal(tracing);
                assert(edges.cells()[x as int].len() == w);
            }
            if edges[x][y] {
                let ghost cur = edges.cells();
                let ghost cs = contours_view(contours@);
                let contour = grow_region(&mut edges, x, y);
                proof {
                    assert forall|i: int| 0 <= i < contour@.len() implies is_edge(cur, #[trigger] contour@[i]) by {}
                }
                contours.push(contour);
                proof {
                    assert(contours_view(contours@) =~= cs.push(contour@));
                    lemma_tracing_add(g, cur, cs, x as int, y as int, edges.cells(), contour@);
                }
            } else {
                proof {
                    lemma_tracing_skip(g, edges.cells(), contours_view(contours@), x as int, y as int);
                }
            }
        }
        proof {
            lemma_tracing_column(g, edges.cells(), contours_view(contours@), x as int);
        }
    }
    proof {
        if height > 0 {
            lemma_tracing_end(g, edges.cells(), contours_view(contours@));
        } else {
            assert(contours_view(contours@) =~= Seq::<Seq<Point>>::empty());
            assert forall|a: int, b: int| #[trigger] is_edge_at(g, a, b) implies false by {
                assert(g[a].len() == g.len());
            }
        }
    }
    contours
}

/// Edge tracking: the 8-connected regions of set cells of the bitmap (indexed `[x][y]`), each
/// grown breadth first from its first cell in scan order, and listed in that order. Only the
/// cells within the length of the first column are looked at.
pub fn track_edge(edges: Vec<Vec<bool>>) -> (contours: Vec<Vec<Point>>)
    requires
        is_trackable(edges.cells()),
    ensures
        is_region_list(scanned_cells(edges.cells()), contours_view(contours@)),
{
    let ghost g = edges.cells();
    let ghost s = scanned_cells(g);
    let mut edges = edges;
    let height = edges.height();
    let width = edges.width();
    if height == 0 {
        let none: Vec<Vec<Point>> = Vec::new();
        proof {
            assert(contours_view(none@) =~= Seq::<Seq<Point>>::empty());
            assert forall|a: int, b: int| #[trigger] is_edge_at(s, a, b) implies false by {
                assert(s[a].len() == 0);
            }
        }
        return none;
    }
    for x in 0..width
        invariant
            g.len() == width,
            height == height_of(g),
            height == width,
            s == scanned_cells(g),
            is_trackable(g),
            edges@.len() == width,
            forall|a: int| 0 <= a < x ==> #[trigger] edges.cells()[a] == s[a],
            forall|a: int| x <= a < width ==> #[trigger] edges.cells()[a] == g[a],
    {
        assert(edges.cells()[x as int] == g[x as int]);
        assert(g[x as int].len() >= height);
        let ghost before = edges.cells();
        edges[x].truncate(height);
        assert(edges.cells() =~= before.update(x as int, s[x as int]));
    }
    assert(edges.cells() =~= s);
    assert(is_square(s)) by {
        assert forall|a: int| 0 <= a < s.len() implies #[trigger] s[a].len() == s.len() by {
            assert(g[a].len() >= height);
        }
    }
    trace_regions(edges)
}

} // verus!
