use lau_computer_vision::segmentation::{connected_components, watershed, MarkerKind};
use lau_computer_vision::GrayImage;

fn mask_of(img: &GrayImage<f64>) -> GrayImage<bool> {
    img.map(|v| v != 0.0)
}

#[test]
fn test_connected_components_single_blob() {
    let mut img: GrayImage<f64> = GrayImage::new(10, 10);
    for y in 2..5 {
        for x in 2..5 {
            img.set(x, y, 255.0).unwrap();
        }
    }
    let components = connected_components(&mask_of(&img));
    assert_eq!(components.len(), 1);
    assert_eq!(components[0].area, 9);
}

#[test]
fn test_connected_components_two_blobs() {
    let mut img: GrayImage<f64> = GrayImage::new(20, 10);
    // Left blob
    for y in 2..5 {
        for x in 1..4 {
            img.set(x, y, 255.0).unwrap();
        }
    }
    // Right blob (separated)
    for y in 2..5 {
        for x in 10..13 {
            img.set(x, y, 255.0).unwrap();
        }
    }
    let components = connected_components(&mask_of(&img));
    assert_eq!(components.len(), 2);
}

#[test]
fn test_connected_components_centroid() {
    let mut img: GrayImage<f64> = GrayImage::new(10, 10);
    for y in 3..6 {
        for x in 3..6 {
            img.set(x, y, 255.0).unwrap();
        }
    }
    let components = connected_components(&mask_of(&img));
    assert_eq!(components.len(), 1);
    let c = &components[0];
    let cx = c.pixels.iter().map(|&(x, _)| x as f64).sum::<f64>() / c.area as f64;
    let cy = c.pixels.iter().map(|&(_, y)| y as f64).sum::<f64>() / c.area as f64;
    assert!((cx - 4.0).abs() < 0.1);
    assert!((cy - 4.0).abs() < 0.1);
}

#[test]
fn test_connected_components_bounding_box() {
    let mut img: GrayImage<f64> = GrayImage::new(10, 10);
    for y in 2..6 {
        for x in 3..7 {
            img.set(x, y, 255.0).unwrap();
        }
    }
    let components = connected_components(&mask_of(&img));
    assert_eq!(components[0].bounding_box, (3, 2, 6, 5));
}

#[test]
fn test_empty_connected_components() {
    let img: GrayImage<f64> = GrayImage::new(10, 10);
    let components = connected_components(&mask_of(&img));
    assert!(components.is_empty());
}

#[test]
fn test_watershed_simple() {
    // Create gradient image with a valley
    let mut gradient: GrayImage<f64> = GrayImage::new(10, 10);
    for y in 0..10 {
        for x in 0..10 {
            let dx = (x as f64 - 3.0).abs();
            let dy = (y as f64 - 3.0).abs();
            gradient.set(x, y, (dx + dy).min(5.0)).unwrap();
        }
    }

    let mut markers: GrayImage<f64> = GrayImage::new(10, 10);
    markers.set(3, 3, 1.0).unwrap(); // seed

    let kinds = markers.map(|v| {
        if v == 0.0 {
            MarkerKind::Zero
        } else if v > 0.0 {
            MarkerKind::Positive
        } else {
            MarkerKind::Other
        }
    });
    let passable: Vec<bool> = gradient.data().iter().map(|&g| g < f64::MAX).collect();
    let sources = watershed(&kinds, &passable);
    let result = sources.map(|s| markers.data()[s]);
    // The center should have the label
    assert!(result.get(3, 3).unwrap() > 0.0);
}

fn mask(w: usize, h: usize, rows: &[&str]) -> GrayImage<bool> {
    let mut data = Vec::new();
    for row in rows {
        for ch in row.chars() {
            data.push(ch == '#');
        }
    }
    GrayImage::from_vec(w, h, data).unwrap()
}

#[test]
fn components_follow_four_connectivity() {
    // Diagonal neighbours are separate components.
    let m = mask(3, 3, &["#..", ".#.", "..#"]);
    let comps = connected_components(&m);
    assert_eq!(comps.len(), 3);
    assert_eq!(comps[0].pixels, vec![(0, 0)]);
    assert_eq!(comps[1].pixels, vec![(1, 1)]);
    assert_eq!(comps[2].pixels, vec![(2, 2)]);
    assert_eq!(comps[2].label, 3);
}

#[test]
fn components_merge_u_shape_and_order_by_first_pixel() {
    // A U shape whose arms meet only at the bottom row is one component; the lone pixel at
    // (1, 0) sits between the arms and comes second in raster order.
    let m = mask(5, 3, &["#.#.#", "#.#.#", "###.#"]);
    let comps = connected_components(&m);
    assert_eq!(comps.len(), 2);
    assert_eq!(comps[0].label, 1);
    assert_eq!(
        comps[0].pixels,
        vec![(0, 0), (2, 0), (0, 1), (2, 1), (0, 2), (1, 2), (2, 2)]
    );
    assert_eq!(comps[0].area, 7);
    assert_eq!(comps[0].bounding_box, (0, 0, 2, 2));
    assert_eq!(comps[1].label, 2);
    assert_eq!(comps[1].pixels, vec![(4, 0), (4, 1), (4, 2)]);
    assert_eq!(comps[1].bounding_box, (4, 0, 4, 2));
}

#[test]
fn components_cover_every_foreground_pixel_once() {
    let m = mask(6, 4, &["##..##", "#....#", "..##..", "#.##.#"]);
    let comps = connected_components(&m);
    let total: usize = comps.iter().map(|c| c.area).sum();
    let fg = m.data().iter().filter(|&&b| b).count();
    assert_eq!(total, fg);
    let mut seen = std::collections::HashSet::new();
    for c in &comps {
        for p in &c.pixels {
            assert!(seen.insert(*p));
        }
    }
}

fn kinds_of(w: usize, h: usize, values: &[i32]) -> GrayImage<MarkerKind> {
    let k: Vec<MarkerKind> = values
        .iter()
        .map(|&v| if v == 0 { MarkerKind::Zero } else if v > 0 { MarkerKind::Positive } else { MarkerKind::Other })
        .collect();
    GrayImage::from_vec(w, h, k).unwrap()
}

#[test]
fn watershed_floods_interior_and_keeps_border() {
    let values = [
        0, 0, 0, 0, 0, //
        0, 2, 0, 0, 0, //
        0, 0, 0, 0, 0, //
        0, 0, 0, 0, 0, //
    ];
    let kinds = kinds_of(5, 4, &values);
    let out = watershed(&kinds, &vec![true; 20]);
    let labels: Vec<i32> = out.data().iter().map(|&s| values[s]).collect();
    assert_eq!(
        labels,
        vec![
            0, 0, 0, 0, 0, //
            0, 2, 2, 2, 0, //
            0, 2, 2, 2, 0, //
            0, 0, 0, 0, 0, //
        ]
    );
    // Every flooded pixel carries the seed at (1, 1).
    assert_eq!(out.get(3, 2).unwrap(), 6);
}

#[test]
fn watershed_prefers_left_then_right_then_up_then_down() {
    let values = [
        0, 0, 0, 0, 0, //
        0, 0, 3, 0, 0, //
        0, 4, 0, 5, 0, //
        0, 0, 6, 0, 0, //
        0, 0, 0, 0, 0, //
    ];
    let kinds = kinds_of(5, 5, &values);
    let out = watershed(&kinds, &vec![true; 25]);
    // (2, 2) has all four neighbours labelled; the left one wins.
    assert_eq!(values[out.get(2, 2).unwrap()], 4);
}

#[test]
fn watershed_respects_impassable_and_negative() {
    let values = [
        0, 0, 0, 0, 0, //
        0, 1, 0, -1, 0, //
        0, 0, 0, 0, 0, //
    ];
    let kinds = kinds_of(5, 3, &values);
    let mut passable = vec![true; 15];
    passable[7] = false; // pixel (2, 1)
    let out = watershed(&kinds, &passable);
    let labels: Vec<i32> = out.data().iter().map(|&s| values[s]).collect();
    // (2, 1) cannot be flooded; (3, 1) keeps its negative marker.
    assert_eq!(labels[7], 0);
    assert_eq!(labels[8], -1);
    assert_eq!(out.get(3, 1).unwrap(), 8);
}

#[test]
fn watershed_small_images_are_unchanged() {
    let values = [0, 1, 0, 0, 0, 0];
    let kinds = kinds_of(3, 2, &values);
    let out = watershed(&kinds, &vec![true; 6]);
    assert_eq!(out.data(), &[0, 1, 2, 3, 4, 5]);
}
