use lau_computer_vision::transform::{HoughAccumulator, HoughPeak};

#[test]
fn test_hough_no_lines() {
    let detector = HoughAccumulator::new(180, 100);
    let peaks = detector.peaks(10, 5);
    assert!(peaks.is_empty());
}

#[test]
fn test_hough_accumulator_access() {
    let detector = HoughAccumulator::new(90, 50);
    assert_eq!(detector.get(0, 0), 0);
}

fn acc_from(rows: &[&[usize]]) -> HoughAccumulator {
    let mut acc = HoughAccumulator::new(rows.len(), rows[0].len());
    for (t, row) in rows.iter().enumerate() {
        for (r, &v) in row.iter().enumerate() {
            for _ in 0..v {
                acc.vote(t, r as isize);
            }
        }
    }
    acc
}

#[test]
fn vote_ignores_out_of_range_rho() {
    let mut acc = HoughAccumulator::new(2, 3);
    acc.vote(1, -1);
    acc.vote(1, 3);
    acc.vote(1, 2);
    acc.vote(1, 2);
    assert_eq!(acc.get(1, 2), 2);
    assert_eq!(acc.get(0, 0), 0);
    assert_eq!(acc.get(1, 0), 0);
}

#[test]
fn peaks_are_local_maxima_over_threshold() {
    let acc = acc_from(&[&[1, 5, 1, 0, 0], &[0, 2, 0, 0, 7], &[0, 0, 0, 0, 0], &[3, 0, 0, 6, 1]]);
    let peaks = acc.peaks(3, 1);
    assert_eq!(
        peaks,
        vec![
            HoughPeak { theta_bin: 1, rho_bin: 4, votes: 7 },
            HoughPeak { theta_bin: 3, rho_bin: 3, votes: 6 },
            HoughPeak { theta_bin: 0, rho_bin: 1, votes: 5 },
        ]
    );
}

#[test]
fn peaks_ties_keep_raster_order_and_plateaus_all_count() {
    let acc = acc_from(&[&[4, 4, 0], &[0, 0, 0], &[0, 0, 4]]);
    let peaks = acc.peaks(1, 1);
    assert_eq!(
        peaks,
        vec![
            HoughPeak { theta_bin: 0, rho_bin: 0, votes: 4 },
            HoughPeak { theta_bin: 0, rho_bin: 1, votes: 4 },
            HoughPeak { theta_bin: 2, rho_bin: 2, votes: 4 },
        ]
    );
}

#[test]
fn larger_radius_suppresses_more() {
    let acc = acc_from(&[&[5, 0, 0, 6]]);
    assert_eq!(acc.peaks(1, 2).len(), 2);
    assert_eq!(acc.peaks(1, 3), vec![HoughPeak { theta_bin: 0, rho_bin: 3, votes: 6 }]);
}

#[test]
fn peaks_exclude_cells_at_the_threshold() {
    let acc = acc_from(&[&[1]]);
    assert!(acc.peaks(1, 0).is_empty());
    assert_eq!(acc.peaks(0, 0), vec![HoughPeak { theta_bin: 0, rho_bin: 0, votes: 1 }]);
    let empty = HoughAccumulator::new(2, 2);
    assert!(empty.peaks(0, 1).is_empty());
}
