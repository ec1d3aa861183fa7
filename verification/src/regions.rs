use vstd::prelude::*;

use crate::point::Point;
use crate::track::{covers, has_parent, is_breadth_first, is_edge, is_neighbor, is_parent, is_region_list, scan_before};

verus! {

// The region list of a bitmap is unique: the regions are its 8-connected components, each
// listed breadth first from its first cell in scan order, and the regions in the scan order of
// their first cells. So the contract of edge tracking determines what it returns.

/// `r` holds every set cell next to one of its points.
pub open spec fn closed_in(g: Seq<Seq<bool>>, r: Seq<Point>) -> bool {
    forall|i: int, q: Point|
        0 <= i < r.len() && is_edge(g, q) && #[trigger] is_neighbor(r[i], q) ==> covers(r, q.x as int, q.y as int)
}

/// A point of `r` lies at the place of `q`, so `r` contains `q`.
proof fn lemma_covers_contains(r: Seq<Point>, q: Point)
    requires
        covers(r, q.x as int, q.y as int),
    ensures
        r.contains(q),
{
    let i = choose|i: int| 0 <= i < r.len() && #[trigger] r[i].x == q.x && r[i].y == q.y;
    assert(r[i] == q);
}

/// A closed list that contains a point of a breadth-first region contains its first point.
proof fn lemma_reaches_first(g: Seq<Seq<bool>>, s: Seq<Point>, r: Seq<Point>, k: int)
    requires
        is_breadth_first(s),
        forall|i: int| 0 <= i < s.len() ==> is_edge(g, #[trigger] s[i]),
        closed_in(g, r),
        0 <= k < s.len(),
        r.contains(s[k]),
    ensures
        r.contains(s[0]),
    decreases k,
{
    if k > 0 {
        assert(has_parent(s, k));
        let j = choose|j: int| #[trigger] is_parent(s, j, k);
        let i = choose|i: int| 0 <= i < r.len() && r[i] == s[k];
        assert(is_neighbor(r[i], s[j]));
        assert(is_edge(g, s[j]));
        lemma_covers_contains(r, s[j]);
        lemma_reaches_first(g, s, r, j);
    }
}

/// A closed list that contains the first point of a breadth-first region contains its point `k`.
proof fn lemma_reaches_all(g: Seq<Seq<bool>>, s: Seq<Point>, r: Seq<Point>, k: int)
    requires
        is_breadth_first(s),
        forall|i: int| 0 <= i < s.len() ==> is_edge(g, #[trigger] s[i]),
        closed_in(g, r),
        s.len() > 0,
        r.contains(s[0]),
        0 <= k < s.len(),
    ensures
        r.contains(s[k]),
    decreases k,
{
    if k > 0 {
        assert(has_parent(s, k));
        let j = choose|j: int| #[trigger] is_parent(s, j, k);
        lemma_reaches_all(g, s, r, j);
        let i = choose|i: int| 0 <= i < r.len() && r[i] == s[j];
        assert(is_neighbor(r[i], s[k]));
        lemma_covers_contains(r, s[k]);
    }
}

/// Two regions of region lists of the same bitmap that share a point hold the same points
/// and start at the same point.
proof fn lemma_regions_meet(g: Seq<Seq<bool>>, cs1: Seq<Seq<Point>>, cs2: Seq<Seq<Point>>, c: int, d: int, p: Point)
    requires
        is_region_list(g, cs1),
        is_region_list(g, cs2),
        0 <= c < cs1.len(),
        0 <= d < cs2.len(),
        cs1[c].contains(p),
        cs2[d].contains(p),
    ensures
        forall|i: int| 0 <= i < cs1[c].len() ==> cs2[d].contains(#[trigger] cs1[c][i]),
        forall|i: int| 0 <= i < cs2[d].len() ==> cs1[c].contains(#[trigger] cs2[d][i]),
        cs1[c][0] == cs2[d][0],
{
    let s = cs1[c];
    let r = cs2[d];
    assert(is_breadth_first(s));
    assert(is_breadth_first(r));
    assert(forall|i: int| 0 <= i < s.len() ==> is_edge(g, #[trigger] s[i]));
    assert(forall|i: int| 0 <= i < r.len() ==> is_edge(g, #[trigger] r[i]));
    assert(closed_in(g, s));
    assert(closed_in(g, r));
    let ks = choose|k: int| 0 <= k < s.len() && s[k] == p;
    let kr = choose|k: int| 0 <= k < r.len() && r[k] == p;
    lemma_reaches_first(g, s, r, ks);
    lemma_reaches_first(g, r, s, kr);
    assert forall|i: int| 0 <= i < s.len() implies r.contains(#[trigger] s[i]) by {
        lemma_reaches_all(g, s, r, i);
    }
    assert forall|i: int| 0 <= i < r.len() implies s.contains(#[trigger] r[i]) by {
        lemma_reaches_all(g, r, s, i);
    }
    let a = choose|i: int| 0 <= i < s.len() && s[i] == r[0];
    let b = choose|i: int| 0 <= i < r.len() && r[i] == s[0];
    assert(s[a] == s[0] || scan_before(s[0], s[a]));
    assert(r[b] == r[0] || scan_before(r[0], r[b]));
}

/// Two lists without repeats that hold the same points have the same length.
proof fn lemma_same_points_same_length(s: Seq<Point>, t: Seq<Point>)
    requires
        s.no_duplicates(),
        t.no_duplicates(),
        forall|i: int| 0 <= i < s.len() ==> t.contains(#[trigger] s[i]),
        forall|i: int| 0 <= i < t.len() ==> s.contains(#[trigger] t[i]),
    ensures
        s.len() == t.len(),
{
    s.unique_seq_to_set();
    t.unique_seq_to_set();
    assert(s.to_set() =~= t.to_set()) by {
        assert forall|p: Point| s.to_set().contains(p) implies t.to_set().contains(p) by {
            let i = choose|i: int| 0 <= i < s.len() && s[i] == p;
            assert(t.contains(s[i]));
        }
        assert forall|p: Point| t.to_set().contains(p) implies s.to_set().contains(p) by {
            let i = choose|i: int| 0 <= i < t.len() && t[i] == p;
            assert(s.contains(t[i]));
        }
    }
}

/// Two breadth-first orders of the same points from the same first point that agree on their
/// first `k` points agree on the next one.
proof fn lemma_breadth_first_step(s: Seq<Point>, t: Seq<Point>, k: int)
    requires
        s.len() == t.len(),
        s.no_duplicates(),
        t.no_duplicates(),
        forall|i: int| 0 <= i < s.len() ==> t.contains(#[trigger] s[i]),
        forall|i: int| 0 <= i < t.len() ==> s.contains(#[trigger] t[i]),
        is_breadth_first(s),
        is_breadth_first(t),
        1 <= k < s.len(),
        forall|i: int| 0 <= i < k ==> #[trigger] s[i] == t[i],
    ensures
        s[k] == t[k],
{
    let e1 = s[k];
    let e2 = t[k];
    if e1 != e2 {
        assert(has_parent(s, k));
        assert(has_parent(t, k));
        let j1 = choose|j: int| #[trigger] is_parent(s, j, k);
        let j2 = choose|j: int| #[trigger] is_parent(t, j, k);
        assert(t.contains(e1));
        assert(s.contains(e2));
        let l1 = choose|l: int| 0 <= l < t.len() && t[l] == e1;
        let l2 = choose|l: int| 0 <= l < s.len() && s[l] == e2;
        if l1 < k {
            assert(s[l1] == t[l1]);
        }
        if l2 < k {
            assert(s[l2] == t[l2]);
        }
        assert(l1 > k && l2 > k);
        assert(s[j1] == t[j1] && s[j2] == t[j2]);
        assert(is_parent(t, j1, l1)) by {
            assert forall|i: int| 0 <= i < j1 implies !is_neighbor(#[trigger] t[i], t[l1]) by {
                assert(s[i] == t[i]);
            }
        }
        assert(is_parent(s, j2, l2)) by {
            assert forall|i: int| 0 <= i < j2 implies !is_neighbor(#[trigger] s[i], s[l2]) by {
                assert(s[i] == t[i]);
            }
        }
        assert(is_parent(s, j1, k) && is_parent(s, j2, l2));
        assert(is_parent(t, j2, k) && is_parent(t, j1, l1));
    }
}

/// Two breadth-first orders of the same points from the same first point agree on their
/// first `k` points.
proof fn lemma_breadth_first_prefix(s: Seq<Point>, t: Seq<Point>, k: int)
    requires
        s.len() == t.len(),
        s.len() > 0,
        s[0] == t[0],
        s.no_duplicates(),
        t.no_duplicates(),
        forall|i: int| 0 <= i < s.len() ==> t.contains(#[trigger] s[i]),
        forall|i: int| 0 <= i < t.len() ==> s.contains(#[trigger] t[i]),
        is_breadth_first(s),
        is_breadth_first(t),
        1 <= k <= s.len(),
    ensures
        forall|i: int| 0 <= i < k ==> #[trigger] s[i] == t[i],
    decreases k,
{
    if k > 1 {
        lemma_breadth_first_prefix(s, t, k - 1);
        lemma_breadth_first_step(s, t, k - 1);
        assert forall|i: int| 0 <= i < k implies #[trigger] s[i] == t[i] by {
            if i < k - 1 {
                assert(s[i] == t[i]);
            }
        }
    }
}

/// Index of the region of `cs2` that starts where region `c` of `cs1` starts.
pub open spec fn match_index(cs1: Seq<Seq<Point>>, c: int, cs2: Seq<Seq<Point>>) -> int {
    choose|d: int| 0 <= d < cs2.len() && #[trigger] cs2[d][0] == cs1[c][0]
}

/// Each region of `cs1` starts where a region of `cs2` with the same points starts.
proof fn lemma_match(g: Seq<Seq<bool>>, cs1: Seq<Seq<Point>>, cs2: Seq<Seq<Point>>, c: int)
    requires
        is_region_list(g, cs1),
        is_region_list(g, cs2),
        0 <= c < cs1.len(),
    ensures
        0 <= match_index(cs1, c, cs2) < cs2.len(),
        cs2[match_index(cs1, c, cs2)][0] == cs1[c][0],
        forall|i: int| 0 <= i < cs1[c].len() ==> cs2[match_index(cs1, c, cs2)].contains(#[trigger] cs1[c][i]),
        forall|i: int|
            0 <= i < cs2[match_index(cs1, c, cs2)].len() ==> cs1[c].contains(
                #[trigger] cs2[match_index(cs1, c, cs2)][i],
            ),
{
    assert(cs1[c].len() > 0);
    let p = cs1[c][0];
    assert(is_edge(g, p));
    assert(crate::track::is_edge_at(g, p.x as int, p.y as int));
    let d = choose|d: int| 0 <= d < cs2.len() && #[trigger] covers(cs2[d], p.x as int, p.y as int);
    lemma_covers_contains(cs2[d], p);
    assert(cs1[c].contains(p));
    lemma_regions_meet(g, cs1, cs2, c, d, p);
    assert(cs2[d][0] == cs1[c][0]);
    let m = match_index(cs1, c, cs2);
    assert(0 <= m < cs2.len() && cs2[m][0] == cs1[c][0]);
    assert(cs2[m].len() > 0);
    assert(cs2[m].contains(p));
    lemma_regions_meet(g, cs1, cs2, c, m, p);
}

/// Matching keeps the order of the regions.
proof fn lemma_match_increasing(g: Seq<Seq<bool>>, cs1: Seq<Seq<Point>>, cs2: Seq<Seq<Point>>, c: int, e: int)
    requires
        is_region_list(g, cs1),
        is_region_list(g, cs2),
        0 <= c < e < cs1.len(),
    ensures
        match_index(cs1, c, cs2) < match_index(cs1, e, cs2),
{
    lemma_match(g, cs1, cs2, c);
    lemma_match(g, cs1, cs2, e);
    let d = match_index(cs1, c, cs2);
    let f = match_index(cs1, e, cs2);
    assert(scan_before(cs1[c][0], cs1[e][0]));
    if f < d {
        assert(scan_before(cs2[f][0], cs2[d][0]));
    }
}

/// Region `c` of `cs1` matches a region of `cs2` at index `c` or later.
proof fn lemma_match_lower(g: Seq<Seq<bool>>, cs1: Seq<Seq<Point>>, cs2: Seq<Seq<Point>>, c: int)
    requires
        is_region_list(g, cs1),
        is_region_list(g, cs2),
        0 <= c < cs1.len(),
    ensures
        match_index(cs1, c, cs2) >= c,
    decreases c,
{
    lemma_match(g, cs1, cs2, c);
    if c > 0 {
        lemma_match_lower(g, cs1, cs2, c - 1);
        lemma_match_increasing(g, cs1, cs2, c - 1, c);
    }
}

/// Region `c` of `cs1` matches a region of `cs2` leaving room for the regions after it.
proof fn lemma_match_upper(g: Seq<Seq<bool>>, cs1: Seq<Seq<Point>>, cs2: Seq<Seq<Point>>, c: int)
    requires
        is_region_list(g, cs1),
        is_region_list(g, cs2),
        0 <= c < cs1.len(),
    ensures
        match_index(cs1, c, cs2) <= cs2.len() - cs1.len() + c,
    decreases cs1.len() - c,
{
    lemma_match(g, cs1, cs2, c);
    if c < cs1.len() - 1 {
        lemma_match_upper(g, cs1, cs2, c + 1);
        lemma_match_increasing(g, cs1, cs2, c, c + 1);
    }
}

/// The region list of a bitmap is unique: two lists of contours that both split the set cells
/// of `g` into 8-connected regions, each listed breadth first from its first cell in scan
/// order and the regions in that order, are equal. Edge tracking thus returns the one region
/// list of its bitmap.
pub proof fn lemma_region_list_unique(g: Seq<Seq<bool>>, cs1: Seq<Seq<Point>>, cs2: Seq<Seq<Point>>)
    requires
        is_region_list(g, cs1),
        is_region_list(g, cs2),
    ensures
        cs1 == cs2,
{
    if cs1.len() > 0 {
        lemma_match_lower(g, cs1, cs2, cs1.len() - 1);
        lemma_match(g, cs1, cs2, cs1.len() - 1);
    }
    if cs2.len() > 0 {
        lemma_match_lower(g, cs2, cs1, cs2.len() - 1);
        lemma_match(g, cs2, cs1, cs2.len() - 1);
    }
    assert(cs1.len() == cs2.len());
    assert forall|c: int| 0 <= c < cs1.len() implies #[trigger] cs1[c] == cs2[c] by {
        lemma_match_lower(g, cs1, cs2, c);
        lemma_match_upper(g, cs1, cs2, c);
        lemma_match(g, cs1, cs2, c);
        let s = cs1[c];
        let t = cs2[c];
        assert(s.len() > 0 && t.len() > 0);
        assert(s.no_duplicates()) by {
            assert forall|i: int, j: int| 0 <= i < s.len() && 0 <= j < s.len() && i != j implies s[i] != s[j] by {
                assert(cs1[c][i] != cs1[c][j]);
            }
        }
        assert(t.no_duplicates()) by {
            assert forall|i: int, j: int| 0 <= i < t.len() && 0 <= j < t.len() && i != j implies t[i] != t[j] by {
                assert(cs2[c][i] != cs2[c][j]);
            }
        }
        assert(is_breadth_first(s) && is_breadth_first(t));
        lemma_same_points_same_length(s, t);
        lemma_breadth_first_prefix(s, t, s.len() as int);
        assert(s =~= t);
    }
    assert(cs1 =~= cs2);
}

} // verus!
