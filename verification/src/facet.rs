use vstd::prelude::*;

verus! {

/// A colour, as red, green and blue bytes.
pub type Rgb = (u8, u8, u8);

/// A pixel of a region: its colour and the offset of its red byte in the buffer.
pub type Pixel = (u8, u8, u8, usize);

/// The squared euclidean distance between two colours.
pub open spec fn color_distance(a: Rgb, b: Rgb) -> int {
    (b.0 - a.0) * (b.0 - a.0) + (b.1 - a.1) * (b.1 - a.1) + (b.2 - a.2) * (b.2 - a.2)
}

/// The colour of a pixel.
pub open spec fn color_of(p: Pixel) -> Rgb {
    (p.0, p.1, p.2)
}

/// The squared euclidean distance between the colours `(r1, g1, b1)` and `(r2, g2, b2)`;
/// at most `255 * 255 * 3`.
pub fn color_diff(r1: u8, g1: u8, b1: u8, r2: u8, g2: u8, b2: u8) -> (d: u32)
    ensures
        d == color_distance((r1, g1, b1), (r2, g2, b2)),
        d <= 195075,
{
    let dr = r2 as i32 - r1 as i32;
    let dg = g2 as i32 - g1 as i32;
    let db = b2 as i32 - b1 as i32;
    assert(0 <= dr * dr <= 65025) by (nonlinear_arith)
        requires
            -255 <= dr <= 255,
    ;
    assert(0 <= dg * dg <= 65025) by (nonlinear_arith)
        requires
            -255 <= dg <= 255,
    ;
    assert(0 <= db * db <= 65025) by (nonlinear_arith)
        requires
            -255 <= db <= 255,
    ;
    ((r2 as i32 - r1 as i32) * (r2 as i32 - r1 as i32) + (g2 as i32 - g1 as i32) * (g2 as i32 - g1 as i32)
        + (b2 as i32 - b1 as i32) * (b2 as i32 - b1 as i32)) as u32
}

/// The distance between two colours does not depend on their order.
pub proof fn lemma_color_distance_symmetric(a: Rgb, b: Rgb)
    ensures
        color_distance(a, b) == color_distance(b, a),
        color_distance(a, a) == 0,
        color_distance(a, b) >= 0,
{
    assert((b.0 - a.0) * (b.0 - a.0) == (a.0 - b.0) * (a.0 - b.0)) by (nonlinear_arith);
    assert((b.1 - a.1) * (b.1 - a.1) == (a.1 - b.1) * (a.1 - b.1)) by (nonlinear_arith);
    assert((b.2 - a.2) * (b.2 - a.2) == (a.2 - b.2) * (a.2 - b.2)) by (nonlinear_arith);
    assert((b.0 - a.0) * (b.0 - a.0) >= 0) by (nonlinear_arith);
    assert((b.1 - a.1) * (b.1 - a.1) >= 0) by (nonlinear_arith);
    assert((b.2 - a.2) * (b.2 - a.2) >= 0) by (nonlinear_arith);
}

// ---------------------------------------------------------------------------
// The pixels of a rectangle
// ---------------------------------------------------------------------------

/// Offset of the red byte of the cell `(x, y)` in a 3-byte-per-pixel buffer `w` pixels wide.
pub open spec fn cell_index(w: int, x: int, y: int) -> int {
    y * w * 3 + x * 3
}

/// The pixel whose red byte is at offset `i`.
pub open spec fn pixel_at(src: Seq<u8>, i: int) -> Pixel {
    (src[i], src[i + 1], src[i + 2], i as usize)
}

/// The cells `(x, y0) .. (x, y0 + m)` that lie in `src`, in that order.
pub open spec fn column_pixels(src: Seq<u8>, w: int, x: int, y0: int, m: int) -> Seq<Pixel>
    decreases m,
{
    if m <= 0 {
        seq![]
    } else {
        let s = column_pixels(src, w, x, y0, m - 1);
        let i = cell_index(w, x, y0 + m - 1);
        if i < src.len() {
            s.push(pixel_at(src, i))
        } else {
            s
        }
    }
}

/// The cells of the columns `x0 .. x0 + cols`, rows `y0 .. y0 + rows`, that lie in `src`,
/// column by column.
pub open spec fn block_pixels(src: Seq<u8>, w: int, x0: int, y0: int, cols: int, rows: int) -> Seq<Pixel>
    decreases cols,
{
    if cols <= 0 {
        seq![]
    } else {
        block_pixels(src, w, x0, y0, cols - 1, rows) + column_pixels(src, w, x0 + cols - 1, y0, rows)
    }
}

/// The pixels of `rect` (`[x, y, width, height]`) that lie in `src`, column by column.
pub open spec fn rect_pixels(src: Seq<u8>, w: int, rect: Seq<u32>) -> Seq<Pixel> {
    block_pixels(src, w, rect[0] as int, rect[1] as int, rect[2] as int, rect[3] as int)
}

// ---------------------------------------------------------------------------
// Grouping by colour
// ---------------------------------------------------------------------------

/// Index of the first colour of `reps` closer than `d` to `c`, or `reps.len()` if none is.
pub open spec fn first_similar(reps: Seq<Rgb>, c: Rgb, d: int) -> int
    decreases reps.len(),
{
    if reps.len() == 0 {
        0
    } else {
        let j = first_similar(reps.drop_last(), c, d);
        if j < reps.len() - 1 {
            j
        } else if color_distance(reps.last(), c) < d {
            reps.len() - 1
        } else {
            reps.len() as int
        }
    }
}

/// The colour of the first pixel of each group.
pub open spec fn leaders(groups: Seq<Seq<Pixel>>) -> Seq<Rgb> {
    groups.map_values(|g: Seq<Pixel>| color_of(g[0]))
}

/// Groups the pixels in order: each joins the first group whose first pixel is closer than
/// `d` in colour, or else starts a new group.
pub open spec fn group_pixels(px: Seq<Pixel>, d: int) -> Seq<Seq<Pixel>>
    decreases px.len(),
{
    if px.len() == 0 {
        seq![]
    } else {
        let gs = group_pixels(px.drop_last(), d);
        let p = px.last();
        let j = first_similar(leaders(gs), color_of(p), d);
        if j < gs.len() {
            gs.update(j, gs[j].push(p))
        } else {
            gs.push(seq![p])
        }
    }
}

/// Sum of channel `ch` (0 red, 1 green, 2 blue) over the pixels of `g`.
pub open spec fn channel_total(g: Seq<Pixel>, ch: int) -> int
    decreases g.len(),
{
    if g.len() == 0 {
        0
    } else {
        channel_total(g.drop_last(), ch) + if ch == 0 {
            g.last().0 as int
        } else if ch == 1 {
            g.last().1 as int
        } else {
            g.last().2 as int
        }
    }
}

/// The mean colour of a non-empty group, each channel rounded down.
pub open spec fn group_mean(g: Seq<Pixel>) -> Rgb {
    (
        (channel_total(g, 0) / g.len() as int) as u8,
        (channel_total(g, 1) / g.len() as int) as u8,
        (channel_total(g, 2) / g.len() as int) as u8,
    )
}

/// The mean colour of each group.
pub open spec fn group_means(gs: Seq<Seq<Pixel>>) -> Seq<Rgb> {
    gs.map_values(|g: Seq<Pixel>| group_mean(g))
}

/// The channel sums and sizes of the groups fit in 32 bits.
pub open spec fn totals_fit(gs: Seq<Seq<Pixel>>) -> bool {
    forall|j: int, ch: int|
        0 <= j < gs.len() && 0 <= ch < 3 ==> #[trigger] channel_total(gs[j], ch) <= u32::MAX && gs[j].len()
            <= u32::MAX
}

// ---------------------------------------------------------------------------
// Painting
// ---------------------------------------------------------------------------

/// `out` with the pixel at offset `i` set to colour `c`.
pub open spec fn paint_pixel(out: Seq<u8>, i: int, c: Rgb) -> Seq<u8> {
    out.update(i, c.0).update(i + 1, c.1).update(i + 2, c.2)
}

/// `out` with the pixels of `g` set to colour `c`, in order.
pub open spec fn paint_group(out: Seq<u8>, g: Seq<Pixel>, c: Rgb) -> Seq<u8>
    decreases g.len(),
{
    if g.len() == 0 {
        out
    } else {
        paint_pixel(paint_group(out, g.drop_last(), c), g.last().3 as int, c)
    }
}

/// `out` with the pixels of each group `gs[j]` set to colour `colors[j]`, group after group.
pub open spec fn paint_groups(out: Seq<u8>, gs: Seq<Seq<Pixel>>, colors: Seq<Rgb>) -> Seq<u8>
    decreases gs.len(),
{
    if gs.len() == 0 {
        out
    } else {
        paint_group(paint_groups(out, gs.drop_last(), colors), gs.last(), colors[gs.len() - 1])
    }
}

// ---------------------------------------------------------------------------
// Conditions on a rectangle
// ---------------------------------------------------------------------------

/// The cell `(x, y)` lies in `rect` (`[x, y, width, height]`).
pub open spec fn in_rect(rect: Seq<u32>, x: int, y: int) -> bool {
    &&& rect[0] <= x < rect[0] + rect[2]
    &&& rect[1] <= y < rect[1] + rect[3]
}

/// Offset of the first cell of `rect`.
pub open spec fn rect_start(w: int, rect: Seq<u32>) -> int {
    cell_index(w, rect[0] as int, rect[1] as int)
}

/// The far edges of `rect`, and the offsets of its first cell and of all its cells, fit in
/// 32 bits.
pub open spec fn rect_fits(w: int, rect: Seq<u32>) -> bool {
    &&& rect[0] + rect[2] <= u32::MAX
    &&& rect[1] + rect[3] <= u32::MAX
    &&& rect_start(w, rect) <= u32::MAX
    &&& forall|x: int, y: int| in_rect(rect, x, y) ==> #[trigger] cell_index(w, x, y) <= u32::MAX
}

/// Every pixel of `rect` that starts in a buffer of length `n` lies whole in it and in one of
/// length `out_len`; so does the first cell.
pub open spec fn rect_pixels_whole(n: int, out_len: int, w: int, rect: Seq<u32>) -> bool {
    &&& rect_start(w, rect) < n ==> rect_start(w, rect) + 2 < n
    &&& forall|x: int, y: int|
        in_rect(rect, x, y) && #[trigger] cell_index(w, x, y) < n ==> cell_index(w, x, y) + 2 < n
            && cell_index(w, x, y) + 2 < out_len
}

/// A zero distance only where no pixel gets grouped.
pub open spec fn distance_usable(n: int, w: int, rect: Seq<u32>, d: int) -> bool {
    d > 0 || rect[2] == 0 || rect[3] == 0 || rect_start(w, rect) >= n
}

/// The groups that colour reduction forms over `rect`: none when its first cell lies outside
/// `src`.
pub open spec fn rect_groups(src: Seq<u8>, w: int, rect: Seq<u32>, d: int) -> Seq<Seq<Pixel>> {
    if rect_start(w, rect) < src.len() {
        group_pixels(rect_pixels(src, w, rect), d)
    } else {
        seq![]
    }
}

/// The groups held in a vector of vectors.
pub open spec fn groups_view(v: Seq<Vec<Pixel>>) -> Seq<Seq<Pixel>> {
    v.map_values(|g: Vec<Pixel>| g@)
}

// ---------------------------------------------------------------------------
// Lemmas
// ---------------------------------------------------------------------------

/// `first_similar` is the first index within distance, or the length.
pub proof fn lemma_first_similar(reps: Seq<Rgb>, c: Rgb, d: int)
    ensures
        0 <= first_similar(reps, c, d) <= reps.len(),
        first_similar(reps, c, d) < reps.len() ==> color_distance(reps[first_similar(reps, c, d)], c) < d,
        forall|j: int| 0 <= j < first_similar(reps, c, d) ==> color_distance(#[trigger] reps[j], c) >= d,
    decreases reps.len(),
{
    if reps.len() > 0 {
        lemma_first_similar(reps.drop_last(), c, d);
        assert forall|j: int| 0 <= j < first_similar(reps, c, d) implies color_distance(#[trigger] reps[j], c) >= d by {
            if j < reps.len() - 1 {
                assert(reps[j] == reps.drop_last()[j]);
            }
        }
    }
}

spec fn color_code(c: Rgb) -> int {
    c.0 * 65536 + c.1 * 256 + c.2
}

/// A list of distinct colours holds at most `2^24` of them.
proof fn lemma_distinct_colors_bound(s: Seq<Rgb>)
    requires
        forall|i: int, j: int| 0 <= i < j < s.len() ==> #[trigger] s[i] != #[trigger] s[j],
    ensures
        s.len() <= 16777216,
{
    let codes = s.map_values(|c: Rgb| color_code(c));
    assert forall|i: int, j: int| 0 <= i < j < codes.len() implies #[trigger] codes[i] != #[trigger] codes[j] by {
        let a = s[i];
        let b = s[j];
        assert(a != b);
        if color_code(a) == color_code(b) {
            assert(a.0 == b.0 && a.1 == b.1 && a.2 == b.2);
        }
    }
    assert(codes.no_duplicates());
    codes.unique_seq_to_set();
    vstd::set_lib::lemma_int_range(0, 16777216);
    assert(codes.to_set().subset_of(vstd::set_lib::set_int_range(0, 16777216))) by {
        assert forall|v: int| codes.to_set().contains(v) implies vstd::set_lib::set_int_range(0, 16777216).contains(v) by {
            let i = choose|i: int| 0 <= i < codes.len() && codes[i] == v;
            assert(codes[i] == color_code(s[i]));
        }
    }
    vstd::set_lib::lemma_len_subset(codes.to_set(), vstd::set_lib::set_int_range(0, 16777216));
}

// ---------------------------------------------------------------------------
// Grouping the pixels of a rectangle
// ---------------------------------------------------------------------------

/// Groups the pixels of `rect` by colour (see `group_pixels`); no groups when the first
/// cell of `rect` lies outside `src`.
fn group_rect(width: u32, src: &Vec<u8>, rect: &[u32; 4], distance: u32, Ghost(out_len): Ghost<int>) -> (groups:
    Vec<Vec<Pixel>>)
    requires
        rect_fits(width as int, rect@),
        rect_pixels_whole(src@.len() as int, out_len, width as int, rect@),
        distance_usable(src@.len() as int, width as int, rect@, distance as int),
    ensures
        groups_view(groups@) == rect_groups(src@, width as int, rect@, distance as int),
        forall|j: int, k: int|
            0 <= j < groups@.len() && 0 <= k < groups@[j]@.len() ==> (#[trigger] groups@[j]@[k]).3 + 2 < src@.len()
                && groups@[j]@[k].3 + 2 < out_len,
{
    let ghost w = width as int;
    let ghost n = src@.len() as int;
    let ghost r0 = rect@[0] as int;
    let ghost r1 = rect@[1] as int;
    let ghost r2 = rect@[2] as int;
    let ghost r3 = rect@[3] as int;
    let ghost d = distance as int;
    assert(0 <= rect[1] * width <= rect[1] * width * 3) by (nonlinear_arith);
    let i = (rect[1] * width * 3 + rect[0] * 3) as usize;
    if i >= src.len() {
        let groups: Vec<Vec<Pixel>> = Vec::new();
        assert(groups_view(groups@) =~= seq![]);
        return groups;
    }
    let mut species: Vec<Rgb> = vec![(src[i], src[i + 1], src[i + 2])];
    let mut species_map: Vec<Vec<Pixel>> = Vec::new();
    let x_start = rect[0];
    let x_end = rect[0] + rect[2];
    let y_start = rect[1];
    let y_end = rect[1] + rect[3];
    let ghost mut px: Seq<Pixel> = seq![];
    let ghost c0: Rgb = (src@[i as int], src@[i + 1], src@[i + 2]);
    assert(groups_view(species_map@) =~= group_pixels(px, d));
    for x in x_start..x_end
        invariant
            w == width as int,
            n == src@.len(),
            r0 == rect@[0],
            r1 == rect@[1],
            r2 == rect@[2],
            r3 == rect@[3],
            d == distance as int,
            x_start == r0,
            x_end == r0 + r2,
            y_start == r1,
            y_end == r1 + r3,
            r0 <= x <= r0 + r2,
            rect_fits(w, rect@),
            rect_pixels_whole(n, out_len, w, rect@),
            distance_usable(n, w, rect@, d),
            i as int == rect_start(w, rect@),
            i < n,
            c0 == (src@[i as int], src@[i + 1], src@[i + 2]),
            px == block_pixels(src@, w, r0, r1, x - r0, r3),
            groups_view(species_map@) == group_pixels(px, d),
            forall|j: int| 0 <= j < species_map@.len() ==> (#[trigger] species_map@[j])@.len() > 0,
            forall|j: int, k: int|
                0 <= j < species_map@.len() && 0 <= k < species_map@[j]@.len() ==> (
                #[trigger] species_map@[j]@[k]).3 + 2 < n && species_map@[j]@[k].3 + 2 < out_len,
            px.len() > 0 ==> species@ == leaders(group_pixels(px, d)),
            px.len() == 0 ==> species@ == seq![c0] && species_map@.len() == 0,
            px.len() == 0 ==> x == r0 || r3 == 0,
            forall|a: int, b: int|
                0 <= a < b < species@.len() ==> color_distance(#[trigger] species@[a], #[trigger] species@[b]) >= d,
    {
        for y in y_start..y_end
            invariant
                w == width as int,
                n == src@.len(),
                r0 == rect@[0],
                r1 == rect@[1],
                r2 == rect@[2],
                r3 == rect@[3],
                d == distance as int,
                x_start == r0,
                x_end == r0 + r2,
                y_start == r1,
                y_end == r1 + r3,
                r0 <= x < r0 + r2,
                r1 <= y <= r1 + r3,
                rect_fits(w, rect@),
                rect_pixels_whole(n, out_len, w, rect@),
                distance_usable(n, w, rect@, d),
                i as int == rect_start(w, rect@),
                i < n,
                c0 == (src@[i as int], src@[i + 1], src@[i + 2]),
                px == block_pixels(src@, w, r0, r1, x - r0, r3) + column_pixels(src@, w, x as int, r1, y - r1),
                groups_view(species_map@) == group_pixels(px, d),
                forall|j: int| 0 <= j < species_map@.len() ==> (#[trigger] species_map@[j])@.len() > 0,
                forall|j: int, k: int|
                    0 <= j < species_map@.len() && 0 <= k < species_map@[j]@.len() ==> (
                    #[trigger] species_map@[j]@[k]).3 + 2 < n && species_map@[j]@[k].3 + 2 < out_len,
                px.len() > 0 ==> species@ == leaders(group_pixels(px, d)),
                px.len() == 0 ==> species@ == seq![c0] && species_map@.len() == 0,
                px.len() == 0 ==> (x == r0 && y == r1) || r3 == 0,
                forall|a: int, b: int|
                    0 <= a < b < species@.len() ==> color_distance(#[trigger] species@[a], #[trigger] species@[b])
                        >= d,
        {
            assert(in_rect(rect@, x as int, y as int));
            assert(cell_index(w, x as int, y as int) <= u32::MAX);
            assert(0 <= y * width <= y * width * 3) by (nonlinear_arith);
            let i = (y * width * 3 + x * 3) as usize;
            let ghost before = px;
            assert(column_pixels(src@, w, x as int, r1, y - r1 + 1) == if (i as int) < n {
                column_pixels(src@, w, x as int, r1, y - r1).push(pixel_at(src@, i as int))
            } else {
                column_pixels(src@, w, x as int, r1, y - r1)
            });
            if i >= src.len() {
                assert(block_pixels(src@, w, r0, r1, x - r0, r3) + column_pixels(src@, w, x as int, r1, y - r1 + 1) == px);
            } else {
                assert(cell_index(w, x as int, y as int) + 2 < n);
                let (r, g, b) = (src[i], src[i + 1], src[i + 2]);
                let ghost p: Pixel = (r, g, b, i);
                assert(p == pixel_at(src@, i as int));
                let ghost gs = group_pixels(px, d);
                let mut si: i32 = -1;
                let mut sp: usize = 0;
                proof {
                    if px.len() == 0 {
                        assert(d > 0);
                        assert(c0 == (r, g, b));
                        lemma_color_distance_symmetric(c0, c0);
                    }
                    lemma_distinct_bound_from_distance(species@, d);
                }
                let nsp = species.len();
                while sp < nsp
                    invariant_except_break
                        si == -1,
                    invariant
                        nsp == species@.len(),
                        0 <= sp <= nsp,
                        nsp <= 16777216,
                        forall|j: int| 0 <= j < sp ==> color_distance(#[trigger] species@[j], (r, g, b)) >= distance,
                    ensures
                        si == -1 ==> forall|j: int| 0 <= j < nsp ==> color_distance(#[trigger] species@[j], (r, g, b)) >= distance,
                        si != -1 ==> 0 <= si < nsp && color_distance(species@[si as int], (r, g, b)) < distance
                            && forall|j: int| 0 <= j < si ==> color_distance(#[trigger] species@[j], (r, g, b)) >= distance,
                    decreases nsp - sp,
                {
                    let dist = color_diff(r, g, b, species[sp].0, species[sp].1, species[sp].2);
                    proof {
                        lemma_color_distance_symmetric((r, g, b), species@[sp as int]);
                    }
                    if dist < distance {
                        si = sp as i32;
                        break;
                    }
                    sp += 1;
                }
                proof {
                    if px.len() > 0 {
                        lemma_first_similar(species@, (r, g, b), d);
                    } else {
                        assert(species@[0] == (r, g, b));
                        lemma_color_distance_symmetric((r, g, b), (r, g, b));
                        assert(si != -1);
                        assert(si == 0);
                    }
                }
                let ghost old_species = species@;
                let ghost old_map = species_map@;
                if si == -1 {
                    si = species.len() as i32;
                    species.push((r, g, b));
                }
                let si = si as usize;
                if species_map.len() < (si + 1) {
                    species_map.push(Vec::new());
                }
                species_map[si].push((r, g, b, i));
                proof {
                    px = px.push(p);
                    assert(px.drop_last() == before);
                    assert(block_pixels(src@, w, r0, r1, x - r0, r3) + column_pixels(src@, w, x as int, r1, y - r1 + 1) == px);
                    let j = first_similar(leaders(gs), color_of(p), d);
                    if px.len() == 1 {
                        assert(gs =~= seq![]);
                        assert(si == 0);
                        assert(group_pixels(px, d) == gs.push(seq![p]));
                        assert(groups_view(species_map@) =~= group_pixels(px, d));
                        assert(species@ =~= leaders(group_pixels(px, d)));
                    } else {
                        assert(old_species == leaders(gs));
                        assert(j == si);
                        if j < gs.len() {
                            assert(group_pixels(px, d) == gs.update(j, gs[j].push(p)));
                            assert(groups_view(species_map@) =~= group_pixels(px, d));
                            assert(species@ =~= leaders(group_pixels(px, d)));
                        } else {
                            assert(group_pixels(px, d) == gs.push(seq![p]));
                            assert(groups_view(species_map@) =~= group_pixels(px, d));
                            assert(species@ =~= leaders(group_pixels(px, d)));
                        }
                    }
                    assert forall|j: int, k: int|
                        0 <= j < species_map@.len() && 0 <= k < species_map@[j]@.len() implies (
                        #[trigger] species_map@[j]@[k]).3 + 2 < n && species_map@[j]@[k].3 + 2 < out_len by {
                        if j == si && k == species_map@[j]@.len() - 1 {
                        } else {
                            assert(species_map@[j]@[k] == old_map[j]@[k]);
                        }
                    }
                }
            }
        }
        assert(block_pixels(src@, w, r0, r1, x - r0 + 1, r3) == block_pixels(src@, w, r0, r1, x - r0, r3)
            + column_pixels(src@, w, x as int, r1, r3));
    }
    assert(rect_pixels(src@, w, rect@) == px);
    species_map
}

/// Distinct colours at pairwise distance at least `d > 0` number at most `2^24`.
proof fn lemma_distinct_bound_from_distance(s: Seq<Rgb>, d: int)
    requires
        d > 0 || s.len() <= 1,
        forall|a: int, b: int| 0 <= a < b < s.len() ==> color_distance(#[trigger] s[a], #[trigger] s[b]) >= d,
    ensures
        s.len() <= 16777216,
{
    assert forall|a: int, b: int| 0 <= a < b < s.len() implies #[trigger] s[a] != #[trigger] s[b] by {
        lemma_color_distance_symmetric(s[a], s[a]);
    }
    lemma_distinct_colors_bound(s);
}

// ---------------------------------------------------------------------------
// Mean colours and painting
// ---------------------------------------------------------------------------

proof fn lemma_channel_total_step(g: Seq<Pixel>, k: int, ch: int)
    requires
        0 <= k < g.len(),
    ensures
        channel_total(g.take(k + 1), ch) == channel_total(g.take(k), ch) + if ch == 0 {
            g[k].0 as int
        } else if ch == 1 {
            g[k].1 as int
        } else {
            g[k].2 as int
        },
{
    assert(g.take(k + 1).drop_last() =~= g.take(k));
}

proof fn lemma_channel_total_bounds(g: Seq<Pixel>, k: int, ch: int)
    requires
        0 <= k <= g.len(),
    ensures
        0 <= channel_total(g.take(k), ch) <= channel_total(g, ch),
        channel_total(g, ch) <= 255 * g.len(),
    decreases g.len(),
{
    if g.len() > 0 {
        if k == g.len() {
            assert(g.take(k) =~= g);
            lemma_channel_total_bounds(g.drop_last(), k - 1, ch);
        } else {
            assert(g.take(k) =~= g.drop_last().take(k));
            lemma_channel_total_bounds(g.drop_last(), k, ch);
        }
    } else {
        assert(g.take(k) =~= g);
    }
}

/// The mean colour of a non-empty group, each channel rounded down.
fn mean_color(pixels: &Vec<Pixel>) -> (c: Rgb)
    requires
        pixels@.len() > 0,
        pixels@.len() <= u32::MAX,
        forall|ch: int| 0 <= ch < 3 ==> #[trigger] channel_total(pixels@, ch) <= u32::MAX,
    ensures
        c == group_mean(pixels@),
{
    let ghost g = pixels@;
    let mut tr: u32 = 0;
    let mut tg: u32 = 0;
    let mut tb: u32 = 0;
    let mut k: usize = 0;
    assert(g.take(0) =~= seq![]);
    while k < pixels.len()
        invariant
            g == pixels@,
            0 <= k <= g.len(),
            g.len() <= u32::MAX,
            forall|ch: int| 0 <= ch < 3 ==> #[trigger] channel_total(g, ch) <= u32::MAX,
            tr == channel_total(g.take(k as int), 0),
            tg == channel_total(g.take(k as int), 1),
            tb == channel_total(g.take(k as int), 2),
        decreases g.len() - k,
    {
        proof {
            lemma_channel_total_step(g, k as int, 0);
            lemma_channel_total_step(g, k as int, 1);
            lemma_channel_total_step(g, k as int, 2);
            lemma_channel_total_bounds(g, k as int + 1, 0);
            lemma_channel_total_bounds(g, k as int + 1, 1);
            lemma_channel_total_bounds(g, k as int + 1, 2);
            assert(channel_total(g, 0) <= u32::MAX);
            assert(channel_total(g, 1) <= u32::MAX);
            assert(channel_total(g, 2) <= u32::MAX);
        }
        tr += pixels[k].0 as u32;
        tg += pixels[k].1 as u32;
        tb += pixels[k].2 as u32;
        k += 1;
    }
    assert(g.take(k as int) =~= g);
    let len = pixels.len() as u32;
    tr = tr / len;
    tg = tg / len;
    tb = tb / len;
    proof {
        lemma_channel_total_bounds(g, 0, 0);
        lemma_channel_total_bounds(g, 0, 1);
        lemma_channel_total_bounds(g, 0, 2);
        let l = g.len() as int;
        assert(forall|t: int| 0 <= t <= 255 * l ==> #[trigger] (t / l) <= 255) by {
            assert forall|t: int| 0 <= t <= 255 * l implies #[trigger] (t / l) <= 255 by {
                assert(t / l <= 255) by (nonlinear_arith)
                    requires
                        0 <= t <= 255 * l,
                        l > 0,
                ;
            }
        }
    }
    (tr as u8, tg as u8, tb as u8)
}

/// Sets each pixel of `pixels` in `out` to the colour `c`.
fn paint(out: &mut Vec<u8>, pixels: &Vec<Pixel>, c: Rgb)
    requires
        forall|k: int| 0 <= k < pixels@.len() ==> (#[trigger] pixels@[k]).3 + 2 < old(out)@.len(),
    ensures
        final(out)@ == paint_group(old(out)@, pixels@, c),
        final(out)@.len() == old(out)@.len(),
{
    let ghost out0 = out@;
    let ghost g = pixels@;
    assert(g.take(0) =~= seq![]);
    for k in 0..pixels.len()
        invariant
            g == pixels@,
            out@.len() == out0.len(),
            forall|k: int| 0 <= k < g.len() ==> (#[trigger] g[k]).3 + 2 < out0.len(),
            out@ == paint_group(out0, g.take(k as int), c),
    {
        let i = pixels[k].3;
        assert(g[k as int].3 + 2 < out0.len());
        assert(i + 2 < out.len());
        out[i] = c.0;
        out[i + 1] = c.1;
        out[i + 2] = c.2;
        assert(g.take(k + 1).drop_last() =~= g.take(k as int));
    }
    assert(g.take(g.len() as int) =~= g);
}

proof fn lemma_paint_groups_step(out: Seq<u8>, gs: Seq<Seq<Pixel>>, colors: Seq<Rgb>, j: int)
    requires
        0 <= j < gs.len(),
    ensures
        paint_groups(out, gs.take(j + 1), colors) == paint_group(paint_groups(out, gs.take(j), colors), gs[j], colors[j]),
{
    assert(gs.take(j + 1).drop_last() =~= gs.take(j));
}

// ---------------------------------------------------------------------------
// Colour reduction
// ---------------------------------------------------------------------------

/// Replaces the colour of each pixel of `rect` (`[x, y, width, height]`) by the mean colour
/// of its group, the pixels being grouped in column order so that each joins the first group
/// whose first pixel is closer than `distance` (squared) in colour.
pub fn facet_rect(width: u32, _height: u32, src: &Vec<u8>, out: &mut Vec<u8>, rect: &[u32; 4], distance: u32)
    requires
        rect_fits(width as int, rect@),
        rect_pixels_whole(src@.len() as int, old(out)@.len() as int, width as int, rect@),
        distance_usable(src@.len() as int, width as int, rect@, distance as int),
        totals_fit(rect_groups(src@, width as int, rect@, distance as int)),
    ensures
        final(out)@ == paint_groups(
            old(out)@,
            rect_groups(src@, width as int, rect@, distance as int),
            group_means(rect_groups(src@, width as int, rect@, distance as int)),
        ),
{
    let ghost gs = rect_groups(src@, width as int, rect@, distance as int);
    let ghost out0 = out@;
    let species_map = group_rect(width, src, rect, distance, Ghost(out@.len() as int));
    let mut j: usize = 0;
    assert(gs.take(0) =~= seq![]);
    while j < species_map.len()
        invariant
            gs == rect_groups(src@, width as int, rect@, distance as int),
            groups_view(species_map@) == gs,
            totals_fit(gs),
            0 <= j <= gs.len(),
            out@.len() == out0.len(),
            forall|a: int, k: int|
                0 <= a < species_map@.len() && 0 <= k < species_map@[a]@.len() ==> (
                #[trigger] species_map@[a]@[k]).3 + 2 < out0.len(),
            out@ == paint_groups(out0, gs.take(j as int), group_means(gs)),
        decreases gs.len() - j,
    {
        assert(species_map@[j as int]@ == gs[j as int]);
        proof {
            assert(channel_total(gs[j as int], 0) <= u32::MAX);
            assert(channel_total(gs[j as int], 1) <= u32::MAX);
            assert(channel_total(gs[j as int], 2) <= u32::MAX);
            let px = rect_pixels(src@, width as int, rect@);
            lemma_groups_nonempty(px, distance as int);
            assert(species_map@.len() == gs.len());
            if rect_start(width as int, rect@) < src@.len() {
                assert(gs == group_pixels(px, distance as int));
                assert(group_pixels(px, distance as int)[j as int].len() > 0);
            }
            assert(gs[j as int].len() > 0);
        }
        let c = mean_color(&species_map[j]);
        paint(out, &species_map[j], c);
        proof {
            lemma_paint_groups_step(out0, gs, group_means(gs), j as int);
        }
        j += 1;
    }
    assert(gs.take(gs.len() as int) =~= gs);
}

/// The rectangle covering a whole image `width` by `height` pixels.
pub open spec fn whole_image(width: u32, height: u32) -> Seq<u32> {
    seq![0u32, 0u32, width, height]
}

/// Merges similar colours over the whole image: `facet_rect` on the rectangle
/// `[0, 0, width, height]` with a squared colour distance of 900.
pub fn facet(width: u32, height: u32, block_size: u32, src: &Vec<u8>, out: &mut Vec<u8>)
    requires
        rect_fits(width as int, whole_image(width, height)),
        rect_pixels_whole(src@.len() as int, old(out)@.len() as int, width as int, whole_image(width, height)),
        totals_fit(rect_groups(src@, width as int, whole_image(width, height), 900)),
    ensures
        final(out)@ == paint_groups(
            old(out)@,
            rect_groups(src@, width as int, whole_image(width, height), 900),
            group_means(rect_groups(src@, width as int, whole_image(width, height), 900)),
        ),
{
    let rect: [u32; 4] = [0, 0, width, height];
    assert(rect@ =~= whole_image(width, height));
    facet_rect(width, height, src, out, &rect, 900);
}

/// Every group is non-empty.
pub proof fn lemma_groups_nonempty(px: Seq<Pixel>, d: int)
    ensures
        forall|j: int| 0 <= j < group_pixels(px, d).len() ==> #[trigger] group_pixels(px, d)[j].len() > 0,
    decreases px.len(),
{
    if px.len() > 0 {
        lemma_groups_nonempty(px.drop_last(), d);
        let gs = group_pixels(px.drop_last(), d);
        let p = px.last();
        let j = first_similar(leaders(gs), color_of(p), d);
        lemma_first_similar(leaders(gs), color_of(p), d);
        if j < gs.len() {
            let gs2 = gs.update(j, gs[j].push(p));
            assert(group_pixels(px, d) == gs2);
            assert forall|a: int| 0 <= a < gs2.len() implies #[trigger] gs2[a].len() > 0 by {
                if a != j {
                    assert(gs[a].len() > 0);
                }
            }
        } else {
            let gs2 = gs.push(seq![p]);
            assert(group_pixels(px, d) == gs2);
            assert forall|a: int| 0 <= a < gs2.len() implies #[trigger] gs2[a].len() > 0 by {
                if a < gs.len() {
                    assert(gs[a].len() > 0);
                }
            }
        }
    }
}

// ---------------------------------------------------------------------------
// Reducing the number of colours
// ---------------------------------------------------------------------------

/// Index, among the first `m` colours of `means`, of the first one closest to `c`; 0 when
/// `m` is 0.
pub open spec fn closest_among(means: Seq<Rgb>, m: int, c: Rgb) -> int
    decreases m,
{
    if m <= 1 {
        0
    } else {
        let g = closest_among(means, m - 1, c);
        if color_distance(means[m - 1], c) < color_distance(means[g], c) {
            m - 1
        } else {
            g
        }
    }
}

/// The first `n` colours of `means` kept, each later one replaced by the closest of the first
/// `n` (by the first colour when `n` is 0).
pub open spec fn reduced_palette(means: Seq<Rgb>, n: int) -> Seq<Rgb> {
    Seq::new(
        means.len(),
        |j: int|
            if j < n {
                means[j]
            } else {
                means[closest_among(means, n, means[j])]
            },
    )
}

proof fn lemma_closest_among_range(means: Seq<Rgb>, m: int, c: Rgb)
    ensures
        m >= 1 ==> 0 <= closest_among(means, m, c) < m,
        m <= 1 ==> closest_among(means, m, c) == 0,
    decreases m,
{
    if m > 1 {
        lemma_closest_among_range(means, m - 1, c);
    }
}

/// Like `facet_rect`, then keeps the mean colours of the first `n` groups only: each later
/// group takes the colour, among those `n`, closest to its own mean.
pub fn facet_rect2(
    width: u32,
    _height: u32,
    src: &Vec<u8>,
    out: &mut Vec<u8>,
    rect: &[u32; 4],
    d: u32,
    n: usize,
)
    requires
        rect_fits(width as int, rect@),
        rect_pixels_whole(src@.len() as int, old(out)@.len() as int, width as int, rect@),
        distance_usable(src@.len() as int, width as int, rect@, d as int),
        totals_fit(rect_groups(src@, width as int, rect@, d as int)),
    ensures
        final(out)@ == paint_groups(
            old(out)@,
            rect_groups(src@, width as int, rect@, d as int),
            reduced_palette(group_means(rect_groups(src@, width as int, rect@, d as int)), n as int),
        ),
{
    let ghost gs = rect_groups(src@, width as int, rect@, d as int);
    let ghost means = group_means(gs);
    let ghost palette = reduced_palette(means, n as int);
    let ghost out0 = out@;
    let species_map = group_rect(width, src, rect, d, Ghost(out@.len() as int));
    let mut colors_map: Vec<Rgb> = Vec::new();
    let mut j: usize = 0;
    while j < species_map.len()
        invariant
            gs == rect_groups(src@, width as int, rect@, d as int),
            means == group_means(gs),
            groups_view(species_map@) == gs,
            totals_fit(gs),
            0 <= j <= gs.len(),
            colors_map@ == means.take(j as int),
        decreases gs.len() - j,
    {
        assert(species_map@[j as int]@ == gs[j as int]);
        proof {
            assert(channel_total(gs[j as int], 0) <= u32::MAX);
            assert(channel_total(gs[j as int], 1) <= u32::MAX);
            assert(channel_total(gs[j as int], 2) <= u32::MAX);
            let px = rect_pixels(src@, width as int, rect@);
            lemma_groups_nonempty(px, d as int);
            assert(species_map@.len() == gs.len());
            if rect_start(width as int, rect@) < src@.len() {
                assert(gs == group_pixels(px, d as int));
                assert(group_pixels(px, d as int)[j as int].len() > 0);
            }
        }
        let c = mean_color(&species_map[j]);
        colors_map.push(c);
        assert(colors_map@ =~= means.take(j + 1));
        j += 1;
    }
    assert(colors_map@ =~= means);
    if colors_map.len() > n {
        let len = colors_map.len();
        for i in n..len
            invariant
                means.len() == len,
                palette == reduced_palette(means, n as int),
                colors_map@.len() == len,
                forall|a: int| 0 <= a < i ==> #[trigger] colors_map@[a] == palette[a],
                forall|a: int| i <= a < len ==> #[trigger] colors_map@[a] == means[a],
        {
            let mut fit_index: usize = 0;
            let mut min_dist: u32 = u32::MAX;
            assert(colors_map@[i as int] == means[i as int]);
            for g in 0..n
                invariant
                    means.len() == len,
                    n <= i < len,
                    colors_map@.len() == len,
                    forall|a: int| 0 <= a < i ==> #[trigger] colors_map@[a] == palette[a],
                    forall|a: int| i <= a < len ==> #[trigger] colors_map@[a] == means[a],
                    palette == reduced_palette(means, n as int),
                    g == 0 ==> fit_index == 0 && min_dist == u32::MAX,
                    g >= 1 ==> fit_index < g && fit_index as int == closest_among(means, g as int, means[i as int])
                        && min_dist == color_distance(means[fit_index as int], means[i as int]),
            {
                assert(colors_map@[g as int] == means[g as int]);
                let dist = color_diff(
                    colors_map[g].0,
                    colors_map[g].1,
                    colors_map[g].2,
                    colors_map[i].0,
                    colors_map[i].1,
                    colors_map[i].2,
                );
                if dist < min_dist {
                    min_dist = dist;
                    fit_index = g;
                }
            }
            proof {
                lemma_closest_among_range(means, n as int, means[i as int]);
                if fit_index < i {
                    assert(colors_map@[fit_index as int] == means[fit_index as int]);
                }
            }
            let c = colors_map[fit_index];
            colors_map.set(i, c);
        }
    }
    assert(colors_map@ =~= palette);
    let mut j: usize = 0;
    assert(gs.take(0) =~= seq![]);
    while j < species_map.len()
        invariant
            gs == rect_groups(src@, width as int, rect@, d as int),
            groups_view(species_map@) == gs,
            colors_map@ == palette,
            palette.len() == gs.len(),
            0 <= j <= gs.len(),
            out@.len() == out0.len(),
            forall|a: int, k: int|
                0 <= a < species_map@.len() && 0 <= k < species_map@[a]@.len() ==> (
                #[trigger] species_map@[a]@[k]).3 + 2 < out0.len(),
            out@ == paint_groups(out0, gs.take(j as int), palette),
        decreases gs.len() - j,
    {
        assert(species_map@[j as int]@ == gs[j as int]);
        paint(out, &species_map[j], colors_map[j]);
        proof {
            lemma_paint_groups_step(out0, gs, palette, j as int);
        }
        j += 1;
    }
    assert(gs.take(gs.len() as int) =~= gs);
}

// ---------------------------------------------------------------------------
// Laws of grouping and reduction
// ---------------------------------------------------------------------------

/// Each pixel of a group is closer than `d` in colour to the first pixel of its group: the
/// colours that a group's mean replaces are all similar.
pub proof fn lemma_group_members_close(px: Seq<Pixel>, d: int)
    requires
        d > 0,
    ensures
        forall|j: int, k: int|
            0 <= j < group_pixels(px, d).len() && 0 <= k < group_pixels(px, d)[j].len() ==> color_distance(
                color_of(group_pixels(px, d)[j][0]),
                color_of(#[trigger] group_pixels(px, d)[j][k]),
            ) < d,
    decreases px.len(),
{
    if px.len() > 0 {
        lemma_group_members_close(px.drop_last(), d);
        lemma_groups_nonempty(px.drop_last(), d);
        let gs = group_pixels(px.drop_last(), d);
        let p = px.last();
        let j = first_similar(leaders(gs), color_of(p), d);
        lemma_first_similar(leaders(gs), color_of(p), d);
        if j < gs.len() {
            let gs2 = gs.update(j, gs[j].push(p));
            assert(group_pixels(px, d) == gs2);
            assert forall|a: int, k: int| 0 <= a < gs2.len() && 0 <= k < gs2[a].len() implies color_distance(
                color_of(gs2[a][0]),
                color_of(#[trigger] gs2[a][k]),
            ) < d by {
                if a == j {
                    assert(gs2[a][0] == gs[j][0]);
                    if k < gs[j].len() {
                        assert(gs2[a][k] == gs[j][k]);
                    } else {
                        assert(gs2[a][k] == p);
                        assert(leaders(gs)[j] == color_of(gs[j][0]));
                    }
                } else {
                    assert(gs2[a] == gs[a]);
                }
            }
        } else {
            let gs2 = gs.push(seq![p]);
            assert(group_pixels(px, d) == gs2);
            assert forall|a: int, k: int| 0 <= a < gs2.len() && 0 <= k < gs2[a].len() implies color_distance(
                color_of(gs2[a][0]),
                color_of(#[trigger] gs2[a][k]),
            ) < d by {
                if a == gs.len() {
                    lemma_color_distance_symmetric(color_of(p), color_of(p));
                } else {
                    assert(gs2[a] == gs[a]);
                }
            }
        }
    }
}

/// The first colours of any two groups are at least `d` apart: colours that far apart are
/// never merged.
pub proof fn lemma_leaders_apart(px: Seq<Pixel>, d: int)
    ensures
        forall|a: int, b: int|
            0 <= a < b < group_pixels(px, d).len() ==> color_distance(
                #[trigger] leaders(group_pixels(px, d))[a],
                #[trigger] leaders(group_pixels(px, d))[b],
            ) >= d,
    decreases px.len(),
{
    if px.len() > 0 {
        lemma_leaders_apart(px.drop_last(), d);
        lemma_groups_nonempty(px.drop_last(), d);
        let gs = group_pixels(px.drop_last(), d);
        let p = px.last();
        let j = first_similar(leaders(gs), color_of(p), d);
        lemma_first_similar(leaders(gs), color_of(p), d);
        if j < gs.len() {
            let gs2 = gs.update(j, gs[j].push(p));
            assert(group_pixels(px, d) == gs2);
            assert(leaders(gs2) =~= leaders(gs));
        } else {
            let gs2 = gs.push(seq![p]);
            assert(group_pixels(px, d) == gs2);
            assert(leaders(gs2) =~= leaders(gs).push(color_of(p)));
            assert forall|a: int, b: int| 0 <= a < b < gs2.len() implies color_distance(
                #[trigger] leaders(gs2)[a],
                #[trigger] leaders(gs2)[b],
            ) >= d by {
                if b == gs.len() {
                    assert(color_distance(leaders(gs)[a], color_of(p)) >= d);
                } else {
                    assert(leaders(gs2)[a] == leaders(gs)[a] && leaders(gs2)[b] == leaders(gs)[b]);
                }
            }
        }
    }
}

/// `c` is one of the first `max(n, 1)` colours of `means`.
pub open spec fn among_first_colors(means: Seq<Rgb>, n: int, c: Rgb) -> bool {
    exists|k: int| 0 <= k < means.len() && (k < n || k == 0) && #[trigger] means[k] == c
}

/// Colour reduction paints at most `max(n, 1)` distinct colours: every colour of the reduced
/// palette is the mean colour of one of the first `max(n, 1)` groups.
pub proof fn lemma_reduced_palette_origin(means: Seq<Rgb>, n: int)
    requires
        n >= 0,
    ensures
        forall|j: int| 0 <= j < means.len() ==> among_first_colors(means, n, #[trigger] reduced_palette(means, n)[j]),
{
    assert forall|j: int| 0 <= j < means.len() implies among_first_colors(means, n, #[trigger] reduced_palette(means, n)[j]) by {
        if j < n {
            assert(reduced_palette(means, n)[j] == means[j]);
        } else {
            lemma_closest_among_range(means, n, means[j]);
            let k = closest_among(means, n, means[j]);
            assert(reduced_palette(means, n)[j] == means[k]);
        }
    }
}

/// `means[k]` is, among the first `n` colours of `means`, the first one closest to colour `c`.
pub open spec fn is_first_closest(means: Seq<Rgb>, n: int, k: int, c: Rgb) -> bool {
    &&& 0 <= k < n
    &&& forall|i: int| 0 <= i < n ==> color_distance(means[k], c) <= color_distance(#[trigger] means[i], c)
    &&& forall|i: int| 0 <= i < k ==> color_distance(#[trigger] means[i], c) > color_distance(means[k], c)
}

proof fn lemma_closest_among_minimal(means: Seq<Rgb>, m: int, c: Rgb)
    requires
        1 <= m <= means.len(),
    ensures
        is_first_closest(means, m, closest_among(means, m, c), c),
    decreases m,
{
    if m > 1 {
        lemma_closest_among_minimal(means, m - 1, c);
    }
}

/// `c` is the first of the first `n` colours of `means` closest to `means[j]`.
pub open spec fn takes_first_closest(means: Seq<Rgb>, n: int, j: int, c: Rgb) -> bool {
    exists|k: int| #[trigger] is_first_closest(means, n, k, means[j]) && c == means[k]
}

/// Colour reduction to `n` colours: each of the first `n` groups keeps its own mean colour, and
/// each later group takes, among those `n` kept means, the first one whose colour distance to
/// its own mean is smallest; with `n` zero every group takes the first mean.
pub proof fn lemma_reduced_palette_closest(means: Seq<Rgb>, n: int)
    requires
        n >= 0,
    ensures
        reduced_palette(means, n).len() == means.len(),
        forall|j: int| 0 <= j < n && j < means.len() ==> #[trigger] reduced_palette(means, n)[j] == means[j],
        n >= 1 ==> forall|j: int|
            n <= j < means.len() ==> takes_first_closest(means, n, j, #[trigger] reduced_palette(means, n)[j]),
        n >= 1 ==> forall|j: int, k: int|
            n <= j < means.len() && 0 <= k < n ==> color_distance(#[trigger] reduced_palette(means, n)[j], means[j])
                <= color_distance(#[trigger] means[k], means[j]),
        n == 0 ==> forall|j: int| 0 <= j < means.len() ==> #[trigger] reduced_palette(means, n)[j] == means[0],
{
    let palette = reduced_palette(means, n);
    if n >= 1 {
        assert forall|j: int| n <= j < means.len() implies takes_first_closest(means, n, j, #[trigger] palette[j]) by {
            if n <= means.len() {
                lemma_closest_among_minimal(means, n, means[j]);
            }
            let k = closest_among(means, n, means[j]);
            assert(is_first_closest(means, n, k, means[j]) && palette[j] == means[k]);
        }
        assert forall|j: int, k: int| n <= j < means.len() && 0 <= k < n implies color_distance(
            #[trigger] palette[j],
            means[j],
        ) <= color_distance(#[trigger] means[k], means[j]) by {
            lemma_closest_among_minimal(means, n, means[j]);
            let g = closest_among(means, n, means[j]);
            assert(palette[j] == means[g]);
            assert(color_distance(means[g], means[j]) <= color_distance(means[k], means[j]));
        }
    }
}

/// Channel sums add up: nothing for no pixel, the channel's value for one pixel, and the sum of
/// the parts for two lists one after the other.
pub proof fn lemma_channel_total_sum(g1: Seq<Pixel>, g2: Seq<Pixel>, p: Pixel, ch: int)
    ensures
        channel_total(Seq::<Pixel>::empty(), ch) == 0,
        channel_total(seq![p], 0) == p.0 as int,
        channel_total(seq![p], 1) == p.1 as int,
        channel_total(seq![p], 2) == p.2 as int,
        channel_total(g1 + g2, ch) == channel_total(g1, ch) + channel_total(g2, ch),
    decreases g2.len(),
{
    assert(seq![p].drop_last() =~= Seq::<Pixel>::empty());
    assert(seq![p].last() == p);
    reveal_with_fuel(channel_total, 2);
    if g2.len() == 0 {
        assert(g1 + g2 =~= g1);
    } else {
        lemma_channel_total_sum(g1, g2.drop_last(), p, ch);
        assert((g1 + g2).drop_last() =~= g1 + g2.drop_last());
        assert((g1 + g2).last() == g2.last());
    }
}

/// Each channel of the mean colour of a non-empty group is its channel sum divided by the
/// number of pixels, rounded down: `mean * len <= sum < (mean + 1) * len`.
pub proof fn lemma_group_mean_floor(g: Seq<Pixel>)
    requires
        g.len() > 0,
    ensures
        group_mean(g).0 * g.len() <= channel_total(g, 0) < (group_mean(g).0 + 1) * g.len(),
        group_mean(g).1 * g.len() <= channel_total(g, 1) < (group_mean(g).1 + 1) * g.len(),
        group_mean(g).2 * g.len() <= channel_total(g, 2) < (group_mean(g).2 + 1) * g.len(),
{
    let l = g.len() as int;
    assert forall|ch: int| 0 <= ch < 3 implies {
        let t = #[trigger] channel_total(g, ch);
        (t / l) * l <= t < (t / l + 1) * l && 0 <= t / l <= 255
    } by {
        let t = channel_total(g, ch);
        lemma_channel_total_bounds(g, 0, ch);
        vstd::arithmetic::div_mod::lemma_fundamental_div_mod(t, l);
        assert((t / l) * l <= t < (t / l + 1) * l && 0 <= t / l <= 255) by (nonlinear_arith)
            requires
                l > 0,
                0 <= t <= 255 * l,
                t == l * (t / l) + t % l,
                0 <= t % l < l,
        ;
    }
    assert(channel_total(g, 0) == channel_total(g, 0));
    assert(channel_total(g, 1) == channel_total(g, 1));
    assert(channel_total(g, 2) == channel_total(g, 2));
}

} // verus!
