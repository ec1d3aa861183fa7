use vstd::prelude::*;

use crate::bitmap::EdgePoints;

verus! {

// Edge detection after the retina: each pixel acts as a bipolar cell, which fires on bright
// light and is inhibited by dim light, and its right and lower neighbours act as horizontal
// cells, which do the opposite. The pixel is an edge where the three outputs (the bipolar
// cell counted twice) do not cancel out.
//
// The input is the luminance level of each pixel, row after row; a pixel is bright for a
// threshold when its level reaches the threshold. Edges are reported by the offset `3 * j`
// of the pixel `j` in a buffer of three bytes per pixel.

/// Pixel `j` is bright for threshold `t`.
pub open spec fn is_bright(levels: Seq<u8>, j: int, t: u8) -> bool {
    levels[j] >= t
}

/// Pixel `j` has a right and a lower neighbour, and its brightness for `t` differs from that of
/// one of them.
pub open spec fn is_edge_pixel(levels: Seq<u8>, width: int, j: int, t: u8) -> bool {
    &&& 0 <= j
    &&& j + 1 < levels.len()
    &&& j + width < levels.len()
    &&& !(is_bright(levels, j, t) == is_bright(levels, j + 1, t) && is_bright(levels, j, t) == is_bright(
        levels,
        j + width,
        t,
    ))
}

/// Pixel `j` is an edge for one of the thresholds.
pub open spec fn is_edge_for_some(levels: Seq<u8>, width: int, thresholds: Seq<u8>, j: int) -> bool {
    exists|k: int| 0 <= k < thresholds.len() && is_edge_pixel(levels, width, j, #[trigger] thresholds[k])
}

/// Offsets of the edge pixels among the first `m` pixels for threshold `t`, in order.
pub open spec fn edge_offsets_upto(levels: Seq<u8>, width: int, t: u8, m: int) -> Seq<usize>
    decreases m,
{
    if m <= 0 {
        seq![]
    } else {
        let s = edge_offsets_upto(levels, width, t, m - 1);
        if is_edge_pixel(levels, width, m - 1, t) {
            s.push((3 * (m - 1)) as usize)
        } else {
            s
        }
    }
}

/// Offsets of the edge pixels for each threshold in turn.
pub open spec fn edge_offsets(levels: Seq<u8>, width: int, thresholds: Seq<u8>) -> Seq<usize>
    decreases thresholds.len(),
{
    if thresholds.len() == 0 {
        seq![]
    } else {
        edge_offsets(levels, width, thresholds.drop_last()) + edge_offsets_upto(
            levels,
            width,
            thresholds.last(),
            levels.len() as int,
        )
    }
}

/// Output of a bipolar cell: 1 on bright light, -1 on dim light.
fn calc_bipolar_cell(level: u8, threshold: u8) -> (out: i8)
    ensures
        out == if level >= threshold {
            1i8
        } else {
            -1i8
        },
{
    if level >= threshold {
        1
    } else {
        -1
    }
}

/// Output of a horizontal cell: -1 on bright light, 1 on dim light.
fn calc_horizontal_cell(level: u8, threshold: u8) -> (out: i8)
    ensures
        out == if level >= threshold {
            -1i8
        } else {
            1i8
        },
{
    if level >= threshold {
        -1
    } else {
        1
    }
}

/// The offsets `3 * j` of the edge pixels `j` of an image `width` pixels wide, given the
/// luminance level of each pixel: for each threshold in turn, the pixels in order.
pub fn edge_detect(width: u32, levels: &Vec<u8>, thresholds: Vec<u8>) -> (offsets: Vec<usize>)
    requires
        3 * levels@.len() + 3 * width <= usize::MAX,
    ensures
        offsets@ == edge_offsets(levels@, width as int, thresholds@),
{
    let ghost lv = levels@;
    let ghost w = width as int;
    let bytepp: usize = 3;
    let size = levels.len() * 3;
    let mut offsets: Vec<usize> = Vec::new();
    assert(thresholds@.take(0) =~= seq![]);
    for ti in 0..thresholds.len()
        invariant
            lv == levels@,
            w == width as int,
            bytepp == 3,
            size == 3 * lv.len(),
            3 * lv.len() + 3 * width <= usize::MAX,
            offsets@ == edge_offsets(lv, w, thresholds@.take(ti as int)),
    {
        let threshold = thresholds[ti];
        let ghost before = offsets@;
        let mut i: usize = 0;
        while i < size
            invariant
                lv == levels@,
                w == width as int,
                bytepp == 3,
                size == 3 * lv.len(),
                3 * lv.len() + 3 * width <= usize::MAX,
                i % 3 == 0,
                i <= size,
                offsets@ == before + edge_offsets_upto(lv, w, threshold, i as int / 3),
            decreases size - i,
        {
            let hrid = i + bytepp;
            let hbid = i + bytepp * width as usize;
            let b_out = calc_bipolar_cell(levels[i / 3], threshold);
            let ghost j = i as int / 3;
            if hrid < size && hbid < size {
                let hr_out = calc_horizontal_cell(levels[hrid / 3], threshold);
                let hb_out = calc_horizontal_cell(levels[hbid / 3], threshold);
                assert(hrid / 3 == j + 1 && hbid / 3 == j + w);
                if b_out * 2 + hr_out + hb_out != 0 {
                    offsets.push(i);
                }
            }
            assert(edge_offsets_upto(lv, w, threshold, j + 1) == if is_edge_pixel(lv, w, j, threshold) {
                edge_offsets_upto(lv, w, threshold, j).push((3 * j) as usize)
            } else {
                edge_offsets_upto(lv, w, threshold, j)
            });
            i += bytepp;
            assert(i as int / 3 == j + 1);
        }
        assert(thresholds@.take(ti + 1).drop_last() =~= thresholds@.take(ti as int));
        assert(i as int / 3 == lv.len());
    }
    assert(thresholds@.take(thresholds@.len() as int) =~= thresholds@);
    offsets
}

/// The offsets for one threshold are those of its edge pixels.
proof fn lemma_edge_offsets_upto(levels: Seq<u8>, width: int, t: u8, m: int)
    requires
        0 <= m,
        3 * m <= usize::MAX,
    ensures
        forall|q: int|
            0 <= q < edge_offsets_upto(levels, width, t, m).len() ==> {
                let i = #[trigger] edge_offsets_upto(levels, width, t, m)[q] as int;
                &&& i % 3 == 0
                &&& 0 <= i / 3 < m
                &&& is_edge_pixel(levels, width, i / 3, t)
            },
        forall|j: int|
            0 <= j < m && #[trigger] is_edge_pixel(levels, width, j, t) ==> edge_offsets_upto(
                levels,
                width,
                t,
                m,
            ).contains((3 * j) as usize),
    decreases m,
{
    if m > 0 {
        lemma_edge_offsets_upto(levels, width, t, m - 1);
        let s = edge_offsets_upto(levels, width, t, m - 1);
        let s2 = edge_offsets_upto(levels, width, t, m);
        if is_edge_pixel(levels, width, m - 1, t) {
            assert(s2 == s.push((3 * (m - 1)) as usize));
            assert forall|j: int| 0 <= j < m && #[trigger] is_edge_pixel(levels, width, j, t) implies s2.contains(
                (3 * j) as usize,
            ) by {
                if j == m - 1 {
                    assert(s2[s.len() as int] == (3 * j) as usize);
                } else {
                    assert(s.contains((3 * j) as usize));
                    let q = choose|q: int| 0 <= q < s.len() && s[q] == (3 * j) as usize;
                    assert(s2[q] == s[q]);
                }
            }
            assert forall|q: int| 0 <= q < s2.len() implies {
                let i = #[trigger] s2[q] as int;
                &&& i % 3 == 0
                &&& 0 <= i / 3 < m
                &&& is_edge_pixel(levels, width, i / 3, t)
            } by {
                if q < s.len() {
                    assert(s2[q] == s[q]);
                }
            }
        } else {
            assert(s2 == s);
        }
    }
}

/// The offsets for one threshold among the first `m` pixels increase and stay below `3 * m`.
proof fn lemma_edge_offsets_upto_increasing(levels: Seq<u8>, width: int, t: u8, m: int)
    requires
        0 <= m,
        3 * m <= usize::MAX,
    ensures
        forall|a: int, b: int|
            0 <= a < b < edge_offsets_upto(levels, width, t, m).len() ==> #[trigger] edge_offsets_upto(
                levels,
                width,
                t,
                m,
            )[a] < #[trigger] edge_offsets_upto(levels, width, t, m)[b],
        forall|a: int|
            0 <= a < edge_offsets_upto(levels, width, t, m).len() ==> #[trigger] edge_offsets_upto(
                levels,
                width,
                t,
                m,
            )[a] < 3 * m,
    decreases m,
{
    if m > 0 {
        lemma_edge_offsets_upto_increasing(levels, width, t, m - 1);
        let s = edge_offsets_upto(levels, width, t, m - 1);
        let s2 = edge_offsets_upto(levels, width, t, m);
        if is_edge_pixel(levels, width, m - 1, t) {
            assert(s2 == s.push((3 * (m - 1)) as usize));
            assert forall|a: int, b: int| 0 <= a < b < s2.len() implies #[trigger] s2[a] < #[trigger] s2[b] by {
                assert(s2[a] == s[a]);
                if b < s.len() {
                    assert(s2[b] == s[b]);
                }
            }
            assert forall|a: int| 0 <= a < s2.len() implies #[trigger] s2[a] < 3 * m by {
                if a < s.len() {
                    assert(s2[a] == s[a]);
                }
            }
        }
    }
}

/// Edge detection with one threshold `t`: the offsets come in increasing order, and `3 * j` is
/// among them exactly when pixel `j` has a right and a lower neighbour in the image and its
/// level reaches `t` while that of one of them does not, or the other way round.
pub proof fn lemma_single_threshold(levels: Seq<u8>, width: int, t: u8)
    requires
        3 * levels.len() <= usize::MAX,
        0 <= width,
    ensures
        forall|a: int, b: int|
            0 <= a < b < edge_offsets(levels, width, seq![t]).len() ==> #[trigger] edge_offsets(
                levels,
                width,
                seq![t],
            )[a] < #[trigger] edge_offsets(levels, width, seq![t])[b],
        forall|a: int|
            0 <= a < edge_offsets(levels, width, seq![t]).len() ==> (#[trigger] edge_offsets(
                levels,
                width,
                seq![t],
            )[a]) % 3 == 0,
        forall|j: int|
            0 <= j < levels.len() ==> (edge_offsets(levels, width, seq![t]).contains(#[trigger] ((3 * j) as usize)) <==> (j
                + 1 < levels.len() && j + width < levels.len() && ((levels[j] >= t) != (levels[j + 1] >= t) || (levels[j]
                >= t) != (levels[j + width] >= t)))),
{
    let n = levels.len() as int;
    let s = edge_offsets(levels, width, seq![t]);
    assert(seq![t].drop_last() =~= Seq::<u8>::empty());
    assert(seq![t].last() == t);
    assert(edge_offsets(levels, width, Seq::<u8>::empty()) =~= Seq::<usize>::empty());
    assert(s =~= edge_offsets_upto(levels, width, t, n));
    lemma_edge_offsets_upto(levels, width, t, n);
    lemma_edge_offsets_upto_increasing(levels, width, t, n);
    assert forall|j: int| 0 <= j < levels.len() implies (s.contains(#[trigger] ((3 * j) as usize)) <==> (j + 1 < levels.len()
        && j + width < levels.len() && ((levels[j] >= t) != (levels[j + 1] >= t) || (levels[j] >= t) != (levels[j
        + width] >= t)))) by {
        if s.contains((3 * j) as usize) {
            let q = choose|q: int| 0 <= q < s.len() && s[q] == (3 * j) as usize;
            assert(s[q] as int / 3 == j);
            assert(is_edge_pixel(levels, width, j, t));
        }
        if j + 1 < levels.len() && j + width < levels.len() && ((levels[j] >= t) != (levels[j + 1] >= t) || (levels[j]
            >= t) != (levels[j + width] >= t)) {
            assert(is_edge_pixel(levels, width, j, t));
        }
    }
}

/// Detecting with two lists of thresholds one after the other gives the offsets of the first
/// list followed by those of the second.
pub proof fn lemma_edge_offsets_append(levels: Seq<u8>, width: int, ts1: Seq<u8>, ts2: Seq<u8>)
    ensures
        edge_offsets(levels, width, ts1 + ts2) == edge_offsets(levels, width, ts1) + edge_offsets(levels, width, ts2),
    decreases ts2.len(),
{
    if ts2.len() == 0 {
        assert(ts1 + ts2 =~= ts1);
        assert(edge_offsets(levels, width, ts1) + edge_offsets(levels, width, ts2) =~= edge_offsets(levels, width, ts1));
    } else {
        lemma_edge_offsets_append(levels, width, ts1, ts2.drop_last());
        assert((ts1 + ts2).drop_last() =~= ts1 + ts2.drop_last());
        assert((ts1 + ts2).last() == ts2.last());
        let last = edge_offsets_upto(levels, width, ts2.last(), levels.len() as int);
        assert(edge_offsets(levels, width, ts1) + edge_offsets(levels, width, ts2) =~= edge_offsets(levels, width, ts1)
            + edge_offsets(levels, width, ts2.drop_last()) + last);
    }
}

/// The offsets reported are those of the pixels that are edges for some threshold.
pub proof fn lemma_edge_offsets(levels: Seq<u8>, width: int, thresholds: Seq<u8>)
    requires
        3 * levels.len() <= usize::MAX,
    ensures
        forall|q: int|
            0 <= q < edge_offsets(levels, width, thresholds).len() ==> {
                let i = #[trigger] edge_offsets(levels, width, thresholds)[q] as int;
                &&& i % 3 == 0
                &&& 0 <= i / 3 < levels.len()
                &&& is_edge_for_some(levels, width, thresholds, i / 3)
            },
        forall|j: int|
            #[trigger] is_edge_for_some(levels, width, thresholds, j) ==> edge_offsets(
                levels,
                width,
                thresholds,
            ).contains((3 * j) as usize),
    decreases thresholds.len(),
{
    if thresholds.len() > 0 {
        let rest = thresholds.drop_last();
        let t = thresholds.last();
        let n = levels.len() as int;
        lemma_edge_offsets(levels, width, rest);
        lemma_edge_offsets_upto(levels, width, t, n);
        let a = edge_offsets(levels, width, rest);
        let b = edge_offsets_upto(levels, width, t, n);
        let s = edge_offsets(levels, width, thresholds);
        assert(s == a + b);
        assert forall|q: int| 0 <= q < s.len() implies {
            let i = #[trigger] s[q] as int;
            &&& i % 3 == 0
            &&& 0 <= i / 3 < levels.len()
            &&& is_edge_for_some(levels, width, thresholds, i / 3)
        } by {
            if q < a.len() {
                assert(s[q] == a[q]);
                let i = a[q] as int;
                let k = choose|k: int| 0 <= k < rest.len() && is_edge_pixel(levels, width, i / 3, #[trigger] rest[k]);
                assert(thresholds[k] == rest[k]);
            } else {
                assert(s[q] == b[q - a.len()]);
                let i = b[q - a.len()] as int;
                assert(is_edge_pixel(levels, width, i / 3, thresholds[thresholds.len() - 1]));
            }
        }
        assert forall|j: int| #[trigger] is_edge_for_some(levels, width, thresholds, j) implies s.contains(
            (3 * j) as usize,
        ) by {
            let k = choose|k: int| 0 <= k < thresholds.len() && is_edge_pixel(levels, width, j, #[trigger] thresholds[k]);
            if k < rest.len() {
                assert(rest[k] == thresholds[k]);
                assert(is_edge_for_some(levels, width, rest, j));
                let q = choose|q: int| 0 <= q < a.len() && a[q] == (3 * j) as usize;
                assert(s[q] == a[q]);
            } else {
                assert(is_edge_pixel(levels, width, j, t));
                let q = choose|q: int| 0 <= q < b.len() && b[q] == (3 * j) as usize;
                assert(s[a.len() + q] == b[q]);
            }
        }
    }
}

/// The edge pixels of an image `width` by `height` pixels, given the luminance level of each
/// pixel, as a bitmap indexed `[x][y]`: a cell is set where the pixel `y * width + x` is an
/// edge for some threshold.
pub fn edge_detect_points(width: u32, height: u32, levels: &Vec<u8>, thresholds: Vec<u8>) -> (edges: Vec<
    Vec<bool>,
>)
    requires
        3 * levels@.len() + 3 * width <= usize::MAX,
        forall|k: int, j: int|
            0 <= k < thresholds@.len() && #[trigger] is_edge_pixel(levels@, width as int, j, thresholds@[k])
                ==> width > 0 && j / (width as int) < height,
    ensures
        edges.cells().len() == width,
        forall|x: int| 0 <= x < width ==> #[trigger] edges.cells()[x].len() == height,
        forall|x: int, y: int|
            0 <= x < width && 0 <= y < height ==> #[trigger] edges.cells()[x][y] == is_edge_for_some(
                levels@,
                width as int,
                thresholds@,
                y * width + x,
            ),
{
    let ghost w = width as int;
    let ghost h = height as int;
    let ghost lv = levels@;
    let ghost ts = thresholds@;
    let mut edges: Vec<Vec<bool>> = Vec::new();
    for _x in 0..width
        invariant
            h == height as int,
            forall|x: int| 0 <= x < edges@.len() ==> #[trigger] edges@[x]@ =~= Seq::new(h as nat, |y: int| false),
            edges@.len() == _x,
    {
        let column = vec![false; height as usize];
        assert(column@ =~= Seq::new(h as nat, |y: int| false)) by {
            assert forall|y: int| 0 <= y < h implies column@[y] == false by {
                assert(cloned(false, column@[y]));
            }
        }
        edges.push(column);
    }
    let offsets = edge_detect(width, levels, thresholds);
    proof {
        lemma_edge_offsets(lv, w, ts);
    }
    for k in 0..offsets.len()
        invariant
            w == width as int,
            h == height as int,
            offsets@ == edge_offsets(lv, w, ts),
            edges.cells().len() == w,
            forall|x: int| 0 <= x < w ==> #[trigger] edges.cells()[x].len() == h,
            forall|k: int, j: int|
                0 <= k < ts.len() && #[trigger] is_edge_pixel(lv, w, j, ts[k]) ==> w > 0 && j / w < h,
            forall|q: int|
                0 <= q < offsets@.len() ==> {
                    let i = #[trigger] offsets@[q] as int;
                    &&& i % 3 == 0
                    &&& 0 <= i / 3 < lv.len()
                    &&& is_edge_for_some(lv, w, ts, i / 3)
                },
            forall|x: int, y: int|
                0 <= x < w && 0 <= y < h ==> #[trigger] edges.cells()[x][y] == exists|q: int|
                    0 <= q < k && #[trigger] offsets@[q] == 3 * (y * w + x),
    {
        let i = offsets[k];
        let ghost j = i as int / 3;
        proof {
            assert(is_edge_for_some(lv, w, ts, j));
            let kk = choose|kk: int| 0 <= kk < ts.len() && is_edge_pixel(lv, w, j, #[trigger] ts[kk]);
            assert(is_edge_pixel(lv, w, j, ts[kk]));
            assert(w > 0 && j / w < h);
            vstd::arithmetic::div_mod::lemma_fundamental_div_mod(j, w);
        }
        let x = i / 3 % width as usize;
        let y = i / 3 / width as usize;
        let ghost before = edges.cells();
        proof {
            assert(x < w && y < h);
            assert(before[x as int].len() == h);
            assert(x == j % w && y == j / w);
            assert(w * (j / w) == (j / w) * w) by (nonlinear_arith);
            assert(i == 3 * (y * w + x));
        }
        edges[x][y] = true;
        proof {
            assert(edges.cells() =~= before.update(x as int, before[x as int].update(y as int, true)));
            assert forall|a: int, b: int| 0 <= a < w && 0 <= b < h implies #[trigger] edges.cells()[a][b] == exists|q: int|
                0 <= q < k + 1 && #[trigger] offsets@[q] == 3 * (b * w + a) by {
                if a == x && b == y {
                    assert(offsets@[k as int] == 3 * (b * w + a));
                } else {
                    assert(edges.cells()[a][b] == before[a][b]);
                    if offsets@[k as int] == 3 * (b * w + a) {
                        vstd::arithmetic::div_mod::lemma_fundamental_div_mod_converse(j, w, b, a);
                    }
                    if exists|q: int| 0 <= q < k + 1 && #[trigger] offsets@[q] == 3 * (b * w + a) {
                        let q = choose|q: int| 0 <= q < k + 1 && #[trigger] offsets@[q] == 3 * (b * w + a);
                        if q == k {
                            vstd::arithmetic::div_mod::lemma_fundamental_div_mod_converse(j, w, b, a);
                        }
                    }
                }
            }
        }
    }
    proof {
        assert forall|x: int, y: int| 0 <= x < w && 0 <= y < h implies #[trigger] edges.cells()[x][y] == is_edge_for_some(
            lv,
            w,
            ts,
            y * w + x,
        ) by {
            let j = y * w + x;
            if is_edge_for_some(lv, w, ts, j) {
                assert(offsets@.contains((3 * j) as usize));
                let q = choose|q: int| 0 <= q < offsets@.len() && offsets@[q] == (3 * j) as usize;
                assert(0 <= j);
                assert(offsets@[q] == 3 * (y * w + x));
            }
            if edges.cells()[x][y] {
                let q = choose|q: int| 0 <= q < offsets@.len() && #[trigger] offsets@[q] == 3 * (y * w + x);
                assert(offsets@[q] as int / 3 == j);
            }
        }
    }
    edges
}

/// Paints the edge pixels: each pixel of `out`, three bytes per pixel, that is an edge of the
/// image (given by the luminance level of each pixel) for some threshold takes `out_color`;
/// the other bytes keep their value.
pub fn edge_detect_draw(
    width: u32,
    levels: &Vec<u8>,
    out: &mut Vec<u8>,
    thresholds: Vec<u8>,
    out_color: &[u8; 3],
)
    requires
        3 * levels@.len() + 3 * width <= usize::MAX,
        forall|k: int, j: int|
            0 <= k < thresholds@.len() && #[trigger] is_edge_pixel(levels@, width as int, j, thresholds@[k])
                ==> 3 * j + 2 < old(out)@.len(),
    ensures
        final(out)@.len() == old(out)@.len(),
        forall|p: int|
            0 <= p < old(out)@.len() ==> #[trigger] final(out)@[p] == if is_edge_for_some(
                levels@,
                width as int,
                thresholds@,
                p / 3,
            ) {
                out_color@[p % 3]
            } else {
                old(out)@[p]
            },
{
    let ghost w = width as int;
    let ghost lv = levels@;
    let ghost ts = thresholds@;
    let ghost start = out@;
    let out_len = out.len();
    let offsets = edge_detect(width, levels, thresholds);
    proof {
        lemma_edge_offsets(lv, w, ts);
    }
    for k in 0..offsets.len()
        invariant
            w == width as int,
            offsets@ == edge_offsets(lv, w, ts),
            out@.len() == start.len(),
            out_len == start.len(),
            forall|k: int, j: int|
                0 <= k < ts.len() && #[trigger] is_edge_pixel(lv, w, j, ts[k]) ==> 3 * j + 2 < start.len(),
            forall|q: int|
                0 <= q < offsets@.len() ==> {
                    let i = #[trigger] offsets@[q] as int;
                    &&& i % 3 == 0
                    &&& 0 <= i / 3 < lv.len()
                    &&& is_edge_for_some(lv, w, ts, i / 3)
                },
            forall|p: int|
                0 <= p < start.len() ==> #[trigger] out@[p] == if exists|q: int|
                    0 <= q < k && #[trigger] offsets@[q] == 3 * (p / 3) {
                    out_color@[p % 3]
                } else {
                    start[p]
                },
    {
        let i = offsets[k];
        proof {
            let j = i as int / 3;
            assert(is_edge_for_some(lv, w, ts, j));
            let kk = choose|kk: int| 0 <= kk < ts.len() && is_edge_pixel(lv, w, j, #[trigger] ts[kk]);
            assert(is_edge_pixel(lv, w, j, ts[kk]));
            assert(i + 2 < start.len());
        }
        let c0 = out_color[0];
        let c1 = out_color[1];
        let c2 = out_color[2];
        let ghost before = out@;
        out[i] = c0;
        out[i + 1] = c1;
        out[i + 2] = c2;
        proof {
            assert forall|p: int| 0 <= p < start.len() implies #[trigger] out@[p] == if exists|q: int|
                0 <= q < k + 1 && #[trigger] offsets@[q] == 3 * (p / 3) {
                out_color@[p % 3]
            } else {
                start[p]
            } by {
                if i <= p < i + 3 {
                    assert(offsets@[k as int] == 3 * (p / 3));
                } else {
                    assert(out@[p] == before[p]);
                    if exists|q: int| 0 <= q < k + 1 && #[trigger] offsets@[q] == 3 * (p / 3) {
                        let q = choose|q: int| 0 <= q < k + 1 && #[trigger] offsets@[q] == 3 * (p / 3);
                        assert(q != k);
                    }
                }
            }
        }
    }
    proof {
        assert forall|p: int| 0 <= p < start.len() implies #[trigger] out@[p] == if is_edge_for_some(
            lv,
            w,
            ts,
            p / 3,
        ) {
            out_color@[p % 3]
        } else {
            start[p]
        } by {
            let j = p / 3;
            if is_edge_for_some(lv, w, ts, j) {
                assert(offsets@.contains((3 * j) as usize));
                let q = choose|q: int| 0 <= q < offsets@.len() && offsets@[q] == (3 * j) as usize;
                assert(offsets@[q] == 3 * (p / 3));
            }
            if exists|q: int| 0 <= q < offsets@.len() && #[trigger] offsets@[q] == 3 * (p / 3) {
                let q = choose|q: int| 0 <= q < offsets@.len() && #[trigger] offsets@[q] == 3 * (p / 3);
                assert(offsets@[q] as int / 3 == j);
            }
        }
    }
}

} // verus!
