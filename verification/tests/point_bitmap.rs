use retina::bitmap::EdgePoints;
use retina::point::Point;

#[test]
fn point_new_keeps_coordinates() {
    let p = Point::new(-3, 7);
    assert_eq!(p.x, -3);
    assert_eq!(p.y, 7);
}

#[test]
fn point_from_usize_keeps_low_bits() {
    assert_eq!(Point::from_usize(5, 32767), Point::new(5, 32767));
    assert_eq!(Point::from_usize(70000, 65535), Point::new(4464, -1));
}

#[test]
fn point_clone_is_equal() {
    let p = Point::new(1, 2);
    let q = p.clone();
    assert_eq!(p, q);
}

#[test]
fn bitmap_dimensions() {
    let g: Vec<Vec<bool>> = vec![vec![false; 3]; 2];
    assert_eq!(g.width(), 2);
    assert_eq!(g.height(), 3);
    assert_eq!(g.widthi(), 2);
    assert_eq!(g.heighti(), 3);
    let empty: Vec<Vec<bool>> = vec![];
    assert_eq!(empty.width(), 0);
    assert_eq!(empty.height(), 0);
    assert_eq!(empty.widthi(), 0);
    assert_eq!(empty.heighti(), 0);
}

#[test]
fn bitmap_widthi_keeps_low_bits() {
    let g: Vec<Vec<bool>> = vec![vec![]; 40000];
    assert_eq!(g.widthi(), -25536);
    assert_eq!(g.heighti(), 0);
}

#[test]
fn bitmap_at_reads_and_writes_one_cell() {
    let mut g: Vec<Vec<bool>> = vec![vec![false; 2]; 3];
    assert!(!*g.at(2, 1));
    *g.at(2, 1) = true;
    assert!(*g.atu(2, 1));
    *g.atu(0, 0) = true;
    assert_eq!(g, vec![vec![true, false], vec![false, false], vec![false, true]]);
}
