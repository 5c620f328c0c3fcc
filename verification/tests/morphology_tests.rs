use lau_computer_vision::morphology::StructuringElement;
use lau_computer_vision::Border;

#[test]
fn test_cross_structuring_element() {
    let se = StructuringElement::cross(5);
    // Center row all true
    for x in 0..5 {
        assert!(se.get(x, 2));
    }
    // Center col all true
    for y in 0..5 {
        assert!(se.get(2, y));
    }
    // Corner should be false
    assert!(!se.get(0, 0));
}

#[test]
fn square_is_all_set() {
    let se = StructuringElement::square(3);
    assert_eq!(se.width(), 3);
    assert_eq!(se.height(), 3);
    for y in 0..3 {
        for x in 0..3 {
            assert!(se.get(x, y));
        }
    }
    assert!(!se.get(3, 0));
    assert!(!se.get(0, 3));
}

#[test]
fn cross_of_even_size_uses_lower_middle() {
    let se = StructuringElement::cross(4);
    assert!(se.get(2, 0));
    assert!(se.get(0, 2));
    assert!(!se.get(1, 1));
    assert!(!se.get(3, 3));
}

#[test]
fn empty_elements() {
    let se = StructuringElement::square(0);
    assert_eq!(se.width(), 0);
    assert!(!se.get(0, 0));
    let se = StructuringElement::from_vec(vec![]);
    assert_eq!(se.width(), 0);
    assert_eq!(se.height(), 0);
    assert!(!se.get(0, 0));
}

#[test]
fn from_vec_keeps_cells_and_first_row_width() {
    let se = StructuringElement::from_vec(vec![vec![true, false, true], vec![false]]);
    assert_eq!(se.width(), 3);
    assert_eq!(se.height(), 2);
    assert!(se.get(0, 0));
    assert!(!se.get(1, 0));
    assert!(se.get(2, 0));
    assert!(!se.get(0, 1));
    assert!(!se.get(2, 1));
}

use lau_computer_vision::GrayImage;

fn square_image() -> GrayImage<i32> {
    let mut img: GrayImage<i32> = GrayImage::new(11, 11);
    for y in 3..8 {
        for x in 3..8 {
            img.set(x, y, 255).unwrap();
        }
    }
    img
}

#[test]
fn cells_grid_matches_get() {
    let se = StructuringElement::cross(3);
    let cells = se.cells();
    assert_eq!(cells, vec![vec![false, true, false], vec![true, true, true], vec![false, true, false]]);
}

#[test]
fn erosion_and_dilation_by_window_folds() {
    let img = square_image();
    let se = StructuringElement::square(3);
    let eroded = img.fold_windows(&se.cells(), Border::Constant(0), i32::MAX, |m, set, v| if set { m.min(v) } else { m });
    assert_eq!(eroded.get(3, 3).unwrap(), 0);
    assert_eq!(eroded.get(5, 5).unwrap(), 255);
    let dilated = img.fold_windows(&se.cells(), Border::Constant(0), i32::MIN, |m, set, v| if set { m.max(v) } else { m });
    assert_eq!(dilated.get(2, 5).unwrap(), 255);
    assert_eq!(dilated.get(0, 0).unwrap(), 0);
}
