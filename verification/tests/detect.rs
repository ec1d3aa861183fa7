use retina::detect::{edge_detect, edge_detect_draw, edge_detect_points};

/// A 4 x 3 image, row by row.
fn levels() -> Vec<u8> {
    vec![0, 50, 120, 200, 0, 60, 130, 210, 0, 0, 0, 0]
}

#[test]
fn edge_detect_single_threshold() {
    assert_eq!(edge_detect(4, &levels(), vec![40]), vec![0, 9, 12, 15, 18, 21]);
    assert_eq!(edge_detect(4, &levels(), vec![150]), vec![6, 9, 18, 21]);
}

#[test]
fn edge_detect_thresholds_in_turn() {
    assert_eq!(
        edge_detect(4, &levels(), vec![40, 150]),
        vec![0, 9, 12, 15, 18, 21, 6, 9, 18, 21]
    );
}

#[test]
fn edge_detect_thresholds_concatenate() {
    let lv = levels();
    let mut both = edge_detect(4, &lv, vec![40]);
    both.extend(edge_detect(4, &lv, vec![150, 250]));
    assert_eq!(edge_detect(4, &lv, vec![40, 150, 250]), both);
}

#[test]
fn edge_detect_no_edges() {
    assert_eq!(edge_detect(4, &levels(), vec![250]), Vec::<usize>::new());
    assert_eq!(edge_detect(4, &levels(), vec![]), Vec::<usize>::new());
    assert_eq!(edge_detect(4, &vec![], vec![10]), Vec::<usize>::new());
    // a uniform image has no edge, whatever the threshold
    assert_eq!(edge_detect(3, &vec![77; 9], vec![0, 77, 78, 255]), Vec::<usize>::new());
}

#[test]
fn edge_detect_right_neighbour_wraps_to_next_row() {
    // the pixel at the end of a row is compared with the first pixel of the next row
    let lv = vec![10, 200, 200, 10, 10, 200, 10, 10, 10];
    assert_eq!(edge_detect(3, &lv, vec![100]), vec![0, 3, 6, 12, 15]);
}

#[test]
fn edge_detect_bright_is_at_least_threshold() {
    // level 100 is bright for threshold 100, level 99 is not
    assert_eq!(edge_detect(2, &vec![100, 100, 100, 100, 100, 100], vec![100]), Vec::<usize>::new());
    assert_eq!(edge_detect(2, &vec![99, 100, 100, 100, 100, 100], vec![100]), vec![0]);
    assert_eq!(edge_detect(2, &vec![100, 99, 100, 100, 100, 100], vec![100]), vec![0, 3]);
}

#[test]
fn edge_detect_offsets_are_edge_pixels() {
    let lv = levels();
    let offsets = edge_detect(4, &lv, vec![40, 150]);
    for i in offsets {
        assert_eq!(i % 3, 0);
        assert!(i / 3 + 4 < lv.len());
    }
}

#[test]
fn edge_detect_points_bitmap() {
    let edges = edge_detect_points(4, 3, &levels(), vec![40, 150]);
    let expected = vec![
        vec![true, true, false],
        vec![false, true, false],
        vec![true, true, false],
        vec![true, true, false],
    ];
    assert_eq!(edges, expected);
}

#[test]
fn edge_detect_points_matches_offsets() {
    let lv = levels();
    let ts = vec![40u8];
    let offsets = edge_detect(4, &lv, ts.clone());
    let edges = edge_detect_points(4, 3, &lv, ts);
    for x in 0..4usize {
        for y in 0..3usize {
            assert_eq!(edges[x][y], offsets.contains(&(3 * (y * 4 + x))));
        }
    }
}

#[test]
fn edge_detect_points_empty_image() {
    assert_eq!(edge_detect_points(0, 0, &vec![], vec![1]), Vec::<Vec<bool>>::new());
    assert_eq!(edge_detect_points(2, 0, &vec![], vec![1]), vec![Vec::<bool>::new(), Vec::new()]);
}

#[test]
fn edge_detect_draw_paints_edge_pixels() {
    let mut out = vec![9u8; 36];
    edge_detect_draw(4, &levels(), &mut out, vec![150], &[255, 0, 7]);
    let expected = vec![
        9, 9, 9, 9, 9, 9, 255, 0, 7, 255, 0, 7, 9, 9, 9, 9, 9, 9, 255, 0, 7, 255, 0, 7, 9, 9, 9, 9, 9, 9, 9, 9,
        9, 9, 9, 9,
    ];
    assert_eq!(out, expected);
}

#[test]
fn edge_detect_draw_without_edges_keeps_buffer() {
    let mut out: Vec<u8> = (0..36).collect();
    edge_detect_draw(4, &levels(), &mut out, vec![250], &[1, 2, 3]);
    assert_eq!(out, (0..36).collect::<Vec<u8>>());
}
