use retina::point::Point;
use retina::track::track_edge;
use retina::trash::track_edge_grow;

fn bitmap(n: usize, on: &[(usize, usize)]) -> Vec<Vec<bool>> {
    let mut g = vec![vec![false; n]; n];
    for &(x, y) in on {
        g[x][y] = true;
    }
    g
}

fn points(ps: &[(i16, i16)]) -> Vec<Point> {
    ps.iter().map(|&(x, y)| Point::new(x, y)).collect()
}

#[test]
fn track_edge_regions_in_scan_order() {
    let g = bitmap(5, &[(0, 0), (1, 1), (2, 0), (4, 4), (3, 4), (4, 2), (0, 3), (0, 4)]);
    let contours = track_edge(g);
    assert_eq!(
        contours,
        vec![
            points(&[(0, 0), (1, 1), (2, 0)]),
            points(&[(0, 3), (0, 4)]),
            points(&[(3, 4), (4, 4)]),
            points(&[(4, 2)]),
        ]
    );
}

#[test]
fn track_edge_breadth_first_order() {
    let g = bitmap(4, &[(1, 1), (1, 2), (1, 3), (2, 2), (3, 1), (3, 3), (2, 0)]);
    let contours = track_edge(g);
    assert_eq!(contours, vec![points(&[(1, 1), (1, 2), (2, 2), (2, 0), (1, 3), (3, 3), (3, 1)])]);
}

#[test]
fn track_edge_empty_bitmaps() {
    assert_eq!(track_edge(vec![]), Vec::<Vec<Point>>::new());
    assert_eq!(track_edge(vec![vec![], vec![], vec![]]), Vec::<Vec<Point>>::new());
    assert_eq!(track_edge(bitmap(3, &[])), Vec::<Vec<Point>>::new());
}

#[test]
fn track_edge_single_cell() {
    assert_eq!(track_edge(vec![vec![true]]), vec![points(&[(0, 0)])]);
}

#[test]
fn track_edge_full_bitmap_is_one_region() {
    let contours = track_edge(vec![vec![true; 3]; 3]);
    assert_eq!(contours.len(), 1);
    assert_eq!(
        contours[0],
        points(&[(0, 0), (0, 1), (1, 1), (1, 0), (0, 2), (1, 2), (2, 2), (2, 1), (2, 0)])
    );
}

#[test]
fn track_edge_partitions_set_cells() {
    let on = [(0, 0), (1, 1), (2, 0), (4, 4), (3, 4), (4, 2), (0, 3), (0, 4), (2, 2)];
    let g = bitmap(5, &on);
    let contours = track_edge(g.clone());
    let mut seen = vec![vec![0; 5]; 5];
    for c in &contours {
        assert!(!c.is_empty());
        for p in c {
            assert!(g[p.x as usize][p.y as usize]);
            seen[p.x as usize][p.y as usize] += 1;
        }
    }
    for x in 0..5 {
        for y in 0..5 {
            assert_eq!(seen[x][y], if g[x][y] { 1 } else { 0 });
        }
    }
    // no set cell next to a region lies in another region
    for (ci, c) in contours.iter().enumerate() {
        for p in c {
            for (di, d) in contours.iter().enumerate() {
                if di != ci {
                    for q in d {
                        assert!((p.x - q.x).abs() > 1 || (p.y - q.y).abs() > 1);
                    }
                }
            }
        }
    }
}

#[test]
fn track_edge_grow_same_regions() {
    let g = bitmap(5, &[(0, 0), (1, 1), (2, 0), (4, 4), (3, 4), (4, 2), (0, 3), (0, 4)]);
    assert_eq!(track_edge_grow(g.clone()), track_edge(g));
    let g = bitmap(4, &[(1, 1), (1, 2), (1, 3), (2, 2), (3, 1), (3, 3), (2, 0)]);
    assert_eq!(
        track_edge_grow(g),
        vec![points(&[(1, 1), (1, 2), (2, 2), (2, 0), (1, 3), (3, 3), (3, 1)])]
    );
}

#[test]
fn track_edge_looks_at_first_column_length() {
    // the second column is longer than the first: its last cell is never looked at
    let g = vec![vec![true, false], vec![false, true, true]];
    assert_eq!(track_edge(g), vec![points(&[(0, 0), (1, 1)])]);
    // an empty first column: nothing is scanned
    assert_eq!(track_edge(vec![vec![], vec![true]]), Vec::<Vec<Point>>::new());
}
