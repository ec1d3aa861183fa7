use retina::point::Point;
use retina::vectorize::{thinning_fits_check, try_vectorize, vectorize};

fn points(ps: &[(i16, i16)]) -> Vec<Point> {
    ps.iter().map(|&(x, y)| Point::new(x, y)).collect()
}

#[test]
fn vectorize_keeps_points_far_enough() {
    let contours = vec![points(&[(0, 0), (1, 0), (2, 0), (3, 0), (3, 3), (4, 4)])];
    assert_eq!(vectorize(&contours, 4), vec![points(&[(0, 0), (2, 0), (3, 3)])]);
}

#[test]
fn vectorize_zero_keeps_everything() {
    let contours = vec![points(&[(0, 0), (0, 0), (5, 5)]), points(&[(9, 9)])];
    assert_eq!(vectorize(&contours, 0), contours);
}

#[test]
fn vectorize_large_threshold_keeps_first_point() {
    let contours = vec![points(&[(3, 4), (5, 6), (1, 1)]), points(&[(2, 2), (2, 3)])];
    assert_eq!(vectorize(&contours, 32768), vec![points(&[(3, 4)]), points(&[(2, 2)])]);
    assert_eq!(vectorize(&vec![], 1), Vec::<Vec<Point>>::new());
}

#[test]
fn vectorize_kept_points_are_spaced() {
    let contour = points(&[(0, 0), (1, 1), (2, 1), (2, 3), (4, 3), (4, 4), (7, 4), (7, 5)]);
    let lines = vectorize(&vec![contour.clone()], 5);
    let line = &lines[0];
    assert_eq!(line[0], contour[0]);
    for k in 1..line.len() {
        let dx = (line[k].x - line[k - 1].x) as i32;
        let dy = (line[k].y - line[k - 1].y) as i32;
        assert!(dx * dx + dy * dy >= 5);
    }
    assert_eq!(*line, points(&[(0, 0), (2, 1), (4, 3), (7, 4)]));
}

#[test]
fn thinning_fits_check_cases() {
    assert!(thinning_fits_check(&points(&[(0, 0), (100, 100)]), 1));
    assert!(!thinning_fits_check(&points(&[(0, 0), (200, 0)]), 1));
    assert!(!thinning_fits_check(&vec![], 1));
    // with a large threshold the far point is measured from the first one
    assert!(!thinning_fits_check(&points(&[(0, 0), (100, 100), (150, 150)]), 30000));
    assert!(thinning_fits_check(&points(&[(0, 0), (100, 100), (150, 150)]), 1));
}

#[test]
fn try_vectorize_cases() {
    let contours = vec![points(&[(0, 0), (1, 0), (2, 0), (3, 0), (3, 3), (4, 4)])];
    assert_eq!(try_vectorize(&contours, 4), Some(vectorize(&contours, 4)));
    assert_eq!(try_vectorize(&vec![points(&[(0, 0)]), vec![]], 4), None);
    assert_eq!(try_vectorize(&vec![points(&[(0, 0), (200, 0)])], 4), None);
    assert_eq!(try_vectorize(&vec![], 4), Some(vec![]));
}
