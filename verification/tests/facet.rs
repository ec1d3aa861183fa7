use retina::facet::{color_diff, facet, facet_rect, facet_rect2};

/// A 3 x 2 image, three bytes per pixel, row by row.
fn image() -> Vec<u8> {
    vec![10, 10, 10, 12, 11, 10, 200, 0, 0, 11, 10, 12, 205, 3, 1, 0, 0, 250]
}

#[test]
fn color_diff_values() {
    assert_eq!(color_diff(0, 0, 0, 255, 255, 255), 195075);
    assert_eq!(color_diff(255, 255, 255, 0, 0, 0), 195075);
    assert_eq!(color_diff(10, 20, 30, 13, 16, 30), 25);
    assert_eq!(color_diff(7, 8, 9, 7, 8, 9), 0);
}

#[test]
fn color_diff_is_symmetric() {
    let cs = [(0u8, 0u8, 0u8), (255, 0, 128), (12, 200, 7), (255, 255, 255)];
    for a in cs {
        for b in cs {
            assert_eq!(color_diff(a.0, a.1, a.2, b.0, b.1, b.2), color_diff(b.0, b.1, b.2, a.0, a.1, a.2));
        }
        assert_eq!(color_diff(a.0, a.1, a.2, a.0, a.1, a.2), 0);
    }
}

#[test]
fn facet_rect_whole_image() {
    let mut out = vec![0u8; 18];
    facet_rect(3, 2, &image(), &mut out, &[0, 0, 3, 2], 900);
    assert_eq!(out, vec![11, 10, 10, 11, 10, 10, 202, 1, 0, 11, 10, 10, 202, 1, 0, 0, 0, 250]);
}

#[test]
fn facet_rect_touches_only_the_rectangle() {
    let mut out = vec![0u8; 18];
    facet_rect(3, 2, &image(), &mut out, &[1, 0, 2, 2], 900);
    assert_eq!(out, vec![0, 0, 0, 12, 11, 10, 202, 1, 0, 0, 0, 0, 202, 1, 0, 0, 0, 250]);
}

#[test]
fn facet_rect_small_distance_keeps_colours() {
    let mut out = vec![1u8; 18];
    facet_rect(3, 2, &image(), &mut out, &[0, 0, 3, 2], 5);
    assert_eq!(out, image());
}

#[test]
fn facet_rect_outside_image_changes_nothing() {
    let mut out = vec![4u8; 18];
    facet_rect(3, 2, &image(), &mut out, &[0, 2, 3, 2], 900);
    assert_eq!(out, vec![4u8; 18]);
}

#[test]
fn facet_rect_group_members_share_colour() {
    // pixels 0, 1 and 3 are within the distance of the first pixel, and so are 2 and 4
    let mut out = vec![0u8; 18];
    facet_rect(3, 2, &image(), &mut out, &[0, 0, 3, 2], 900);
    assert_eq!(out[0..3], out[3..6]);
    assert_eq!(out[0..3], out[9..12]);
    assert_eq!(out[6..9], out[12..15]);
    assert_ne!(out[0..3], out[6..9]);
}

#[test]
fn facet_whole_image() {
    let mut out = vec![0u8; 18];
    facet(3, 2, 4, &image(), &mut out);
    assert_eq!(out, vec![11, 10, 10, 11, 10, 10, 202, 1, 0, 11, 10, 10, 202, 1, 0, 0, 0, 250]);
    let mut out2 = vec![0u8; 18];
    retina::trash::facet(3, 2, 4, &image(), &mut out2);
    assert_eq!(out2, out);
}

#[test]
fn facet_rect2_reduces_palette() {
    let mut out = vec![0u8; 18];
    facet_rect2(3, 2, &image(), &mut out, &[0, 0, 3, 2], 900, 1);
    assert_eq!(out, vec![11, 10, 10, 11, 10, 10, 11, 10, 10, 11, 10, 10, 11, 10, 10, 11, 10, 10]);
    let mut out = vec![0u8; 18];
    facet_rect2(3, 2, &image(), &mut out, &[0, 0, 3, 2], 900, 2);
    assert_eq!(out, vec![11, 10, 10, 11, 10, 10, 202, 1, 0, 11, 10, 10, 202, 1, 0, 11, 10, 10]);
}

#[test]
fn facet_rect2_zero_or_many_colours() {
    let mut out = vec![0u8; 18];
    facet_rect2(3, 2, &image(), &mut out, &[0, 0, 3, 2], 900, 0);
    assert_eq!(out, vec![11, 10, 10, 11, 10, 10, 11, 10, 10, 11, 10, 10, 11, 10, 10, 11, 10, 10]);
    let mut out = vec![0u8; 18];
    facet_rect2(3, 2, &image(), &mut out, &[0, 0, 3, 2], 900, 5);
    assert_eq!(out, vec![11, 10, 10, 11, 10, 10, 202, 1, 0, 11, 10, 10, 202, 1, 0, 0, 0, 250]);
}

#[test]
fn facet_rect2_at_most_n_colours() {
    let mut out = vec![0u8; 18];
    facet_rect2(3, 2, &image(), &mut out, &[0, 0, 3, 2], 900, 2);
    let mut colours: Vec<&[u8]> = out.chunks(3).collect();
    colours.sort();
    colours.dedup();
    assert!(colours.len() <= 2);
}

#[test]
fn facet_rect_past_the_width_meets_next_row() {
    // a 2 x 2 image; the third column of the rectangle falls on the pixels of the next row
    let src = vec![10, 10, 10, 200, 0, 0, 12, 11, 10, 205, 3, 1];
    let mut out = vec![0u8; 12];
    facet_rect(2, 2, &src, &mut out, &[0, 0, 3, 2], 900);
    assert_eq!(out, vec![11, 10, 10, 202, 1, 0, 11, 10, 10, 202, 1, 0]);
    let mut out = vec![0u8; 12];
    facet_rect2(2, 1, &src, &mut out, &[1, 0, 3, 1], 900, 1);
    assert_eq!(out, vec![0, 0, 0, 202, 1, 0, 202, 1, 0, 202, 1, 0]);
}
