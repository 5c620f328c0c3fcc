use lau_computer_vision::filter::{hysteresis, EdgeClass};
use lau_computer_vision::GrayImage;

fn classes(w: usize, h: usize, rows: &[&str]) -> GrayImage<EdgeClass> {
    let mut data = Vec::new();
    for row in rows {
        for ch in row.chars() {
            data.push(match ch {
                'S' => EdgeClass::Strong,
                'w' => EdgeClass::Weak,
                _ => EdgeClass::Suppressed,
            });
        }
    }
    GrayImage::from_vec(w, h, data).unwrap()
}

fn render(img: &GrayImage<bool>) -> Vec<String> {
    let mut rows = Vec::new();
    for y in 0..img.height() {
        let mut s = String::new();
        for x in 0..img.width() {
            s.push(if img.get(x, y).unwrap() { '#' } else { '.' });
        }
        rows.push(s);
    }
    rows
}

#[test]
fn weak_chain_connected_to_strong_is_kept() {
    let e = classes(7, 4, &[".......", ".Sww...", "....w..", "......."]);
    let out = hysteresis(&e);
    assert_eq!(render(&out), vec![".......", ".###...", "....#..", "......."]);
}

#[test]
fn isolated_weak_pixels_are_removed() {
    let e = classes(6, 4, &["......", ".w....", "....S.", "......"]);
    let out = hysteresis(&e);
    assert_eq!(render(&out), vec!["......", "......", "....#.", "......"]);
}

#[test]
fn border_weak_pixels_are_never_promoted() {
    let e = classes(4, 3, &["wwww", "wSww", "wwww"]);
    let out = hysteresis(&e);
    assert_eq!(render(&out), vec!["....", ".##.", "...."]);
}

#[test]
fn chain_reaching_back_against_scan_order() {
    // The strong pixel is at the bottom right; the weak chain runs up and to the left, so it
    // takes several sweeps to promote it entirely.
    let e = classes(6, 6, &["......", ".www..", ".w....", ".w.w..", ".wwwwS", "......"]);
    let out = hysteresis(&e);
    assert_eq!(render(&out), vec!["......", ".###..", ".#....", ".#.#..", ".#####", "......"]);
}

#[test]
fn strong_border_pixels_stay() {
    let e = classes(3, 3, &["S..", "...", "..S"]);
    let out = hysteresis(&e);
    assert_eq!(render(&out), vec!["#..", "...", "..#"]);
}

#[test]
fn weaker_classes_never_add_edges() {
    // The same scene classified with higher thresholds: one strong pixel drops to weak and one
    // weak pixel drops to suppressed.
    let low = classes(6, 4, &["......", ".Swww.", ".ww.w.", "......"]);
    let high = classes(6, 4, &["......", ".ww.w.", ".ww.w.", "......"]);
    assert_eq!(render(&hysteresis(&low)), vec!["......", ".####.", ".##.#.", "......"]);
    assert_eq!(render(&hysteresis(&high)), vec!["......", "......", "......", "......"]);
}
