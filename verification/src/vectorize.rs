use vstd::prelude::*;

use crate::point::Point;

verus! {

// Thinning a contour into a polyline: walking along the contour, a point is kept when it lies at
// least the minimum distance away from the last point kept. The minimum distance is given by its
// square `min_square`, so that everything here is integer arithmetic on the `i16` coordinates.

/// Squared Euclidean distance between two points.
pub open spec fn square_distance(a: Point, b: Point) -> int {
    (a.x - b.x) * (a.x - b.x) + (a.y - b.y) * (a.y - b.y)
}

/// The squared distance of `a` and `b` can be computed in `i16` without overflow.
pub open spec fn fits_i16(a: Point, b: Point) -> bool {
    &&& i16::MIN <= a.x - b.x <= i16::MAX
    &&& i16::MIN <= a.y - b.y <= i16::MAX
    &&& square_distance(a, b) <= i16::MAX
}

/// The points kept among the first `n` points of `contour` (at least the first point).
pub open spec fn thin_upto(contour: Seq<Point>, min_square: int, n: int) -> Seq<Point>
    decreases n,
{
    if n <= 1 {
        seq![contour[0]]
    } else {
        let kept = thin_upto(contour, min_square, n - 1);
        if square_distance(kept.last(), contour[n - 1]) >= min_square {
            kept.push(contour[n - 1])
        } else {
            kept
        }
    }
}

/// The polyline kept from a whole contour.
pub open spec fn thin(contour: Seq<Point>, min_square: int) -> Seq<Point> {
    thin_upto(contour, min_square, contour.len() as int)
}

/// Each distance that the thinning of `contour` computes fits in `i16`.
pub open spec fn thinning_fits(contour: Seq<Point>, min_square: int) -> bool {
    forall|i: int|
        1 <= i < contour.len() ==> fits_i16(#[trigger] thin_upto(contour, min_square, i).last(), contour[i])
}

/// Thins each contour into a polyline: the first point is kept, and each later point is kept
/// when its squared distance to the last point kept reaches `min_square`. For a minimum
/// distance `m`, `min_square` is the least squared distance whose square root reaches `m`.
pub fn vectorize(contours: &Vec<Vec<Point>>, min_square: u32) -> (lines: Vec<Vec<Point>>)
    requires
        forall|c: int|
            0 <= c < contours@.len() ==> #[trigger] contours@[c]@.len() > 0 && thinning_fits(
                contours@[c]@,
                min_square as int,
            ),
    ensures
        lines@.len() == contours@.len(),
        forall|c: int|
            0 <= c < contours@.len() ==> #[trigger] lines@[c]@ == thin(contours@[c]@, min_square as int),
        forall|c: int|
            0 <= c < contours@.len() ==> thins(contours@[c]@, min_square as int, #[trigger] lines@[c]@),
{
    let ghost t = min_square as int;
    let mut lines: Vec<Vec<Point>> = Vec::new();
    for ci in 0..contours.len()
        invariant
            t == min_square as int,
            forall|c: int|
                0 <= c < contours@.len() ==> #[trigger] contours@[c]@.len() > 0 && thinning_fits(
                    contours@[c]@,
                    t,
                ),
            lines@.len() == ci,
            forall|c: int| 0 <= c < ci ==> #[trigger] lines@[c]@ == thin(contours@[c]@, t),
    {
        let contour = &contours[ci];
        let ghost cs = contour@;
        assert(cs.len() > 0 && thinning_fits(cs, t));
        let mut points: Vec<Point> = Vec::new();
        points.push(contour[0]);
        assert(points@ =~= thin_upto(cs, t, 1));
        for i in 1..contour.len()
            invariant
                t == min_square as int,
                cs == contour@,
                cs.len() > 0,
                thinning_fits(cs, t),
                points@ == thin_upto(cs, t, i as int),
        {
            proof {
                lemma_thin_spacing(cs, t, i as int);
            }
            let pi = points.len() - 1;
            let a = points[pi];
            let b = contour[i];
            assert(fits_i16(thin_upto(cs, t, i as int).last(), cs[i as int]));
            let dx = a.x - b.x;
            let dy = a.y - b.y;
            assert(dx * dx >= 0 && dy * dy >= 0) by (nonlinear_arith);
            let dist = dx * dx + dy * dy;
            if dist as u32 >= min_square {
                points.push(b);
            }
        }
        lines.push(points);
    }
    proof {
        assert forall|c: int| 0 <= c < contours@.len() implies thins(contours@[c]@, min_square as int, #[trigger] lines@[c]@) by {
            let cs = contours@[c]@;
            let m = min_square as int;
            lemma_thin_is_thinning(cs, m);
            let idx = choose|idx: Seq<int>| #[trigger] is_thinning(cs, m, cs.len() as int, thin(cs, m), idx);
            assert(lines@[c]@ == thin(cs, m));
            assert(is_thinning(cs, m, cs.len() as int, lines@[c]@, idx));
        }
    }
    lines
}

/// Whether `contour` is non-empty and its thinning computes each squared distance in `i16`
/// without overflow.
pub fn thinning_fits_check(contour: &Vec<Point>, min_square: u32) -> (ok: bool)
    ensures
        ok == (contour@.len() > 0 && thinning_fits(contour@, min_square as int)),
{
    let ghost cs = contour@;
    let ghost t = min_square as int;
    if contour.len() == 0 {
        return false;
    }
    let mut last = contour[0];
    assert(thin_upto(cs, t, 1) =~= seq![cs[0]]);
    for i in 1..contour.len()
        invariant
            cs == contour@,
            t == min_square as int,
            cs.len() > 0,
            last == thin_upto(cs, t, i as int).last(),
            forall|k: int| 1 <= k < i ==> fits_i16(#[trigger] thin_upto(cs, t, k).last(), cs[k]),
    {
        proof {
            lemma_thin_spacing(cs, t, i as int);
        }
        let b = contour[i];
        let dx = last.x as i64 - b.x as i64;
        let dy = last.y as i64 - b.y as i64;
        if dx < i16::MIN as i64 || dx > i16::MAX as i64 || dy < i16::MIN as i64 || dy > i16::MAX as i64 {
            return false;
        }
        assert(0 <= dx * dx <= 1073741824) by (nonlinear_arith)
            requires
                -32768 <= dx <= 32767,
        ;
        assert(0 <= dy * dy <= 1073741824) by (nonlinear_arith)
            requires
                -32768 <= dy <= 32767,
        ;
        let dist = dx * dx + dy * dy;
        if dist > i16::MAX as i64 {
            return false;
        }
        if dist >= min_square as i64 {
            last = b;
        }
    }
    true
}

/// Thins each contour as `vectorize` does, or gives `None` when a contour is empty or its
/// thinning would overflow the `i16` arithmetic.
pub fn try_vectorize(contours: &Vec<Vec<Point>>, min_square: u32) -> (lines: Option<Vec<Vec<Point>>>)
    ensures
        lines.is_some() == (forall|c: int|
            0 <= c < contours@.len() ==> #[trigger] contours@[c]@.len() > 0 && thinning_fits(
                contours@[c]@,
                min_square as int,
            )),
        lines matches Some(ls) ==> ls@.len() == contours@.len() && forall|c: int|
            0 <= c < contours@.len() ==> #[trigger] ls@[c]@ == thin(contours@[c]@, min_square as int),
        lines matches Some(ls) ==> forall|c: int|
            0 <= c < contours@.len() ==> thins(contours@[c]@, min_square as int, #[trigger] ls@[c]@),
{
    for ci in 0..contours.len()
        invariant
            forall|c: int|
                0 <= c < ci ==> #[trigger] contours@[c]@.len() > 0 && thinning_fits(contours@[c]@, min_square as int),
    {
        if !thinning_fits_check(&contours[ci], min_square) {
            return None;
        }
    }
    Some(vectorize(contours, min_square))
}

/// Two consecutive points kept by the thinning are at a squared distance of at least
/// `min_square`, and the first point of the contour is the first point kept.
pub proof fn lemma_thin_spacing(contour: Seq<Point>, min_square: int, n: int)
    requires
        contour.len() > 0,
        1 <= n <= contour.len(),
    ensures
        thin_upto(contour, min_square, n).len() >= 1,
        thin_upto(contour, min_square, n)[0] == contour[0],
        forall|q: int|
            0 <= q < thin_upto(contour, min_square, n).len() - 1 ==> square_distance(
                #[trigger] thin_upto(contour, min_square, n)[q],
                thin_upto(contour, min_square, n)[q + 1],
            ) >= min_square,
    decreases n,
{
    if n > 1 {
        lemma_thin_spacing(contour, min_square, n - 1);
        let kept = thin_upto(contour, min_square, n - 1);
        let now = thin_upto(contour, min_square, n);
        if square_distance(kept.last(), contour[n - 1]) >= min_square {
            assert(now == kept.push(contour[n - 1]));
            assert forall|q: int| 0 <= q < now.len() - 1 implies square_distance(
                #[trigger] now[q],
                now[q + 1],
            ) >= min_square by {
                if q + 1 < kept.len() {
                    assert(now[q] == kept[q] && now[q + 1] == kept[q + 1]);
                } else {
                    assert(now[q] == kept.last());
                }
            }
        }
    }
}

/// `kept` is the subsequence of the first `n` points of `contour` at the increasing positions `idx`.
pub open spec fn picks(contour: Seq<Point>, n: int, kept: Seq<Point>, idx: Seq<int>) -> bool {
    &&& idx.len() == kept.len()
    &&& forall|q: int| 0 <= q < idx.len() ==> 0 <= #[trigger] idx[q] < n
    &&& forall|q: int| 0 <= q < idx.len() ==> #[trigger] kept[q] == contour[idx[q]]
    &&& forall|p: int, q: int| 0 <= p < q < idx.len() ==> #[trigger] idx[p] < #[trigger] idx[q]
}

/// The thinning keeps points of the contour, in their order along it.
pub proof fn lemma_thin_subsequence(contour: Seq<Point>, min_square: int, n: int)
    requires
        contour.len() > 0,
        1 <= n <= contour.len(),
    ensures
        exists|idx: Seq<int>| #[trigger] picks(contour, n, thin_upto(contour, min_square, n), idx),
    decreases n,
{
    let now = thin_upto(contour, min_square, n);
    if n == 1 {
        let idx = seq![0int];
        assert(picks(contour, n, now, idx));
    } else {
        lemma_thin_subsequence(contour, min_square, n - 1);
        let kept = thin_upto(contour, min_square, n - 1);
        let idx0 = choose|idx: Seq<int>| #[trigger] picks(contour, n - 1, kept, idx);
        if square_distance(kept.last(), contour[n - 1]) >= min_square {
            let idx = idx0.push(n - 1);
            assert(now == kept.push(contour[n - 1]));
            assert forall|q: int| 0 <= q < idx.len() implies #[trigger] now[q] == contour[idx[q]] by {
                if q < kept.len() {
                    assert(now[q] == kept[q] && idx[q] == idx0[q]);
                }
            }
            assert forall|p: int, q: int| 0 <= p < q < idx.len() implies #[trigger] idx[p] < #[trigger] idx[q] by {
                if q < idx0.len() {
                    assert(idx[p] == idx0[p] && idx[q] == idx0[q]);
                } else {
                    assert(idx[p] == idx0[p]);
                }
            }
            assert(picks(contour, n, now, idx));
        } else {
            assert(picks(contour, n, now, idx0));
        }
    }
}

/// Position that ends the stretch of points after the `q`-th kept point: the next kept point,
/// or `n` after the last one.
pub open spec fn gap_end(idx: Seq<int>, q: int, n: int) -> int {
    if q + 1 < idx.len() {
        idx[q + 1]
    } else {
        n
    }
}

/// `kept`, taken at positions `idx` of the first `n` points of `contour`, thins them with
/// minimum squared distance `min_square`: the first point is kept; each kept point lies at
/// least that far from the kept point before it; and every point skipped lies closer than that
/// to the last point kept before it.
pub open spec fn is_thinning(contour: Seq<Point>, min_square: int, n: int, kept: Seq<Point>, idx: Seq<int>) -> bool {
    &&& picks(contour, n, kept, idx)
    &&& idx.len() >= 1
    &&& idx[0] == 0
    &&& forall|q: int| 0 <= q < idx.len() - 1 ==> square_distance(#[trigger] kept[q], kept[q + 1]) >= min_square
    &&& forall|q: int, i: int|
        0 <= q < idx.len() && idx[q] < i < gap_end(idx, q, n) ==> square_distance(
            #[trigger] kept[q],
            #[trigger] contour[i],
        ) < min_square
}

proof fn lemma_thin_upto_is_thinning(contour: Seq<Point>, min_square: int, n: int)
    requires
        contour.len() > 0,
        1 <= n <= contour.len(),
    ensures
        exists|idx: Seq<int>| #[trigger] is_thinning(contour, min_square, n, thin_upto(contour, min_square, n), idx),
    decreases n,
{
    let kept = thin_upto(contour, min_square, n);
    if n == 1 {
        let idx = seq![0int];
        assert(kept =~= seq![contour[0]]);
        assert(is_thinning(contour, min_square, n, kept, idx));
    } else {
        lemma_thin_upto_is_thinning(contour, min_square, n - 1);
        let kept0 = thin_upto(contour, min_square, n - 1);
        let idx0 = choose|idx: Seq<int>| #[trigger] is_thinning(contour, min_square, n - 1, kept0, idx);
        let l = idx0.len() - 1;
        let p = contour[n - 1];
        assert(kept0.last() == kept0[l]);
        if square_distance(kept0.last(), p) >= min_square {
            let idx = idx0.push(n - 1);
            assert(kept == kept0.push(p));
            assert(picks(contour, n, kept, idx)) by {
                assert forall|q: int| 0 <= q < idx.len() implies #[trigger] kept[q] == contour[idx[q]] by {
                    if q < l + 1 {
                        assert(kept[q] == kept0[q] && idx[q] == idx0[q]);
                    }
                }
                assert forall|a: int, b: int| 0 <= a < b < idx.len() implies #[trigger] idx[a] < #[trigger] idx[b] by {
                    if b < l + 1 {
                        assert(idx[a] == idx0[a] && idx[b] == idx0[b]);
                    } else {
                        assert(idx[a] == idx0[a]);
                    }
                }
                assert forall|q: int| 0 <= q < idx.len() implies 0 <= #[trigger] idx[q] < n by {
                    if q < l + 1 {
                        assert(idx[q] == idx0[q]);
                    }
                }
            }
            assert forall|q: int| 0 <= q < idx.len() - 1 implies square_distance(#[trigger] kept[q], kept[q + 1])
                >= min_square by {
                assert(kept[q] == kept0[q]);
                if q < l {
                    assert(kept[q + 1] == kept0[q + 1]);
                }
            }
            assert forall|q: int, i: int| 0 <= q < idx.len() && idx[q] < i < gap_end(idx, q, n) implies square_distance(
                #[trigger] kept[q],
                #[trigger] contour[i],
            ) < min_square by {
                if q <= l {
                    assert(kept[q] == kept0[q] && idx[q] == idx0[q]);
                    assert(gap_end(idx, q, n) == gap_end(idx0, q, n - 1));
                }
            }
            assert(is_thinning(contour, min_square, n, kept, idx));
        } else {
            assert(kept == kept0);
            assert(forall|q: int| 0 <= q < idx0.len() ==> 0 <= #[trigger] idx0[q] < n);
            assert forall|q: int, i: int| 0 <= q < idx0.len() && idx0[q] < i < gap_end(idx0, q, n) implies square_distance(
                #[trigger] kept[q],
                #[trigger] contour[i],
            ) < min_square by {
                if q < l {
                    assert(gap_end(idx0, q, n) == gap_end(idx0, q, n - 1));
                } else if i < n - 1 {
                    assert(gap_end(idx0, q, n - 1) == n - 1);
                } else {
                    assert(i == n - 1);
                }
            }
            assert(is_thinning(contour, min_square, n, kept, idx0));
        }
    }
}

/// `kept` thins the whole of `contour` (see `is_thinning`), at some positions of it.
pub open spec fn thins(contour: Seq<Point>, min_square: int, kept: Seq<Point>) -> bool {
    exists|idx: Seq<int>| #[trigger] is_thinning(contour, min_square, contour.len() as int, kept, idx)
}

/// Thinning walks the whole contour: the polyline kept from it is a thinning of all its
/// points, so the first point is kept, consecutive kept points lie at least `min_square`
/// (squared) apart, and every point dropped lies closer than that to the last point kept
/// before it.
pub proof fn lemma_thin_is_thinning(contour: Seq<Point>, min_square: int)
    requires
        contour.len() > 0,
    ensures
        thins(contour, min_square, thin(contour, min_square)),
{
    let n = contour.len() as int;
    lemma_thin_upto_is_thinning(contour, min_square, n);
    let idx = choose|idx: Seq<int>| #[trigger] is_thinning(contour, min_square, n, thin_upto(contour, min_square, n), idx);
    assert(thin(contour, min_square) == thin_upto(contour, min_square, n));
    assert(is_thinning(contour, min_square, n, thin(contour, min_square), idx));
}

} // verus!
