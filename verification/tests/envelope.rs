use rupert_gui::envelope::{envelope_of, is_rectangular, peak_of, scan, scan_column};
use rupert_gui::sample::{NEG_INF, POS_INF};

fn encode(rows: &[&[f32]]) -> Vec<Vec<u32>> {
    rows.iter().map(|row| row.iter().map(|y| y.to_bits()).collect()).collect()
}

fn bits(values: &[f32]) -> Vec<u32> {
    values.iter().map(|y| y.to_bits()).collect()
}

#[test]
fn column_minimum_and_binding_curve() {
    let yss = encode(&[&[3.0, -1.0], &[2.0, 5.0], &[2.5, -4.0]]);
    let first = scan_column(&yss, 0);
    assert_eq!(first.min_y, 2.0f32.to_bits());
    assert_eq!(first.curve, Some(1));
    let second = scan_column(&yss, 1);
    assert_eq!(second.min_y, (-4.0f32).to_bits());
    assert_eq!(second.curve, Some(2));
}

#[test]
fn column_tie_goes_to_the_first_curve() {
    let yss = encode(&[&[7.0], &[1.5], &[1.5], &[9.0], &[1.5]]);
    let found = scan_column(&yss, 0);
    assert_eq!(found.min_y, 1.5f32.to_bits());
    assert_eq!(found.curve, Some(1));
}

#[test]
fn column_tie_between_the_zeros_goes_to_the_first() {
    let plus_first = scan_column(&encode(&[&[0.0], &[-0.0]]), 0);
    assert_eq!(plus_first.min_y, 0.0f32.to_bits());
    assert_eq!(plus_first.curve, Some(0));
    let minus_first = scan_column(&encode(&[&[-0.0], &[0.0]]), 0);
    assert_eq!(minus_first.min_y, (-0.0f32).to_bits());
    assert_eq!(minus_first.curve, Some(0));
}

#[test]
fn column_skips_nan() {
    let yss = encode(&[&[f32::NAN], &[4.0], &[f32::NAN], &[3.0], &[f32::NAN]]);
    let found = scan_column(&yss, 0);
    assert_eq!(found.min_y, 3.0f32.to_bits());
    assert_eq!(found.curve, Some(3));
}

#[test]
fn column_without_a_number_below_infinity_has_no_binding_curve() {
    let only_nan = scan_column(&encode(&[&[f32::NAN], &[f32::NAN]]), 0);
    assert_eq!(only_nan.min_y, POS_INF);
    assert_eq!(only_nan.curve, None);
    let only_inf = scan_column(&encode(&[&[f32::INFINITY], &[f32::NAN]]), 0);
    assert_eq!(only_inf.min_y, POS_INF);
    assert_eq!(only_inf.curve, None);
    let no_curves: Vec<Vec<u32>> = Vec::new();
    let empty = scan_column(&no_curves, 0);
    assert_eq!(empty.min_y, POS_INF);
    assert_eq!(empty.curve, None);
}

#[test]
fn column_with_negative_infinity() {
    let found = scan_column(&encode(&[&[1.0], &[f32::NEG_INFINITY], &[-5.0]]), 0);
    assert_eq!(found.min_y, NEG_INF);
    assert_eq!(found.curve, Some(1));
}

#[test]
fn scan_finds_envelope_peak_angle_and_curve() {
    let yss = encode(&[&[1.0, 4.0, 2.0, 0.5], &[3.0, 3.5, 6.0, 0.25], &[2.0, 5.0, 1.0, 8.0]]);
    let found = scan(&yss, 4);
    assert_eq!(found.min_ys, bits(&[1.0, 3.5, 1.0, 0.25]));
    assert_eq!(found.max_min_y, 3.5f32.to_bits());
    assert_eq!(found.angle, Some(1));
    assert_eq!(found.curve, Some(1));
}

#[test]
fn scan_tie_goes_to_the_smallest_angle() {
    let yss = encode(&[&[0.0, 2.0, 1.0, 2.0, 2.0], &[5.0, 2.0, 9.0, 3.0, 2.0]]);
    let found = scan(&yss, 5);
    assert_eq!(found.min_ys, bits(&[0.0, 2.0, 1.0, 2.0, 2.0]));
    assert_eq!(found.max_min_y, 2.0f32.to_bits());
    assert_eq!(found.angle, Some(1));
    assert_eq!(found.curve, Some(0));
}

#[test]
fn scan_of_negative_margins() {
    let yss = encode(&[&[-3.0, -1.0, -2.0], &[-4.0, -0.5, -7.0]]);
    let found = scan(&yss, 3);
    assert_eq!(found.min_ys, bits(&[-4.0, -1.0, -7.0]));
    assert_eq!(found.max_min_y, (-1.0f32).to_bits());
    assert_eq!(found.angle, Some(1));
    assert_eq!(found.curve, Some(0));
}

#[test]
fn scan_without_angles_finds_nothing() {
    let yss: Vec<Vec<u32>> = vec![Vec::new(), Vec::new()];
    let found = scan(&yss, 0);
    assert!(found.min_ys.is_empty());
    assert_eq!(found.max_min_y, NEG_INF);
    assert_eq!(found.angle, None);
    assert_eq!(found.curve, None);
}

#[test]
fn scan_without_curves_peaks_at_infinity_with_no_curve() {
    let yss: Vec<Vec<u32>> = Vec::new();
    let found = scan(&yss, 3);
    assert_eq!(found.min_ys, vec![POS_INF, POS_INF, POS_INF]);
    assert_eq!(found.max_min_y, POS_INF);
    assert_eq!(found.angle, Some(0));
    assert_eq!(found.curve, None);
}

#[test]
fn scan_where_every_angle_holds_negative_infinity() {
    let yss = encode(&[&[f32::NEG_INFINITY, 1.0], &[2.0, f32::NEG_INFINITY]]);
    let found = scan(&yss, 2);
    assert_eq!(found.min_ys, vec![NEG_INF, NEG_INF]);
    assert_eq!(found.max_min_y, NEG_INF);
    assert_eq!(found.angle, None);
    assert_eq!(found.curve, None);
}

#[test]
fn envelope_alone_is_the_envelope_of_the_scan() {
    let yss = encode(&[&[1.0, 4.0, 2.0, 0.5], &[3.0, 3.5, 6.0, 0.25], &[2.0, f32::NAN, 1.0, 8.0]]);
    let found = scan(&yss, 4);
    assert_eq!(envelope_of(&yss, 4), found.min_ys);
    assert_eq!(envelope_of(&yss, 4), bits(&[1.0, 3.5, 1.0, 0.25]));
}

#[test]
fn peak_of_a_sequence() {
    let found = peak_of(&bits(&[1.0, 3.5, 1.0, 3.5, 0.25]));
    assert_eq!(found.max_y, 3.5f32.to_bits());
    assert_eq!(found.angle, Some(1));
    let none = peak_of(&Vec::new());
    assert_eq!(none.max_y, NEG_INF);
    assert_eq!(none.angle, None);
    let skipped = peak_of(&bits(&[f32::NAN, -2.0, f32::NAN, -3.0]));
    assert_eq!(skipped.max_y, (-2.0f32).to_bits());
    assert_eq!(skipped.angle, Some(1));
}

#[test]
fn scan_agrees_with_a_second_look_at_its_envelope() {
    let yss = encode(&[
        &[0.3, -0.2, 0.9, 0.1, 0.9],
        &[0.4, 0.6, 1.2, -0.7, 1.0],
        &[0.5, 0.1, 0.95, 0.2, 0.9],
    ]);
    let found = scan(&yss, 5);
    let again = peak_of(&envelope_of(&yss, 5));
    assert_eq!(found.max_min_y, again.max_y);
    assert_eq!(found.angle, again.angle);
    let own = peak_of(&found.min_ys);
    assert_eq!(found.max_min_y, own.max_y);
    assert_eq!(found.angle, own.angle);
    let mut by_hand = f32::NEG_INFINITY;
    for k in 0..5 {
        let mut min = f32::INFINITY;
        for row in &yss {
            min = min.min(f32::from_bits(row[k]));
        }
        by_hand = by_hand.max(min);
    }
    assert_eq!(f32::from_bits(found.max_min_y), by_hand);
    assert_eq!(by_hand, 0.9);
}

#[test]
fn scan_is_the_same_every_time() {
    let yss = encode(&[&[0.3, -0.2, 0.9], &[0.4, 0.6, 1.2]]);
    let a = scan(&yss, 3);
    let b = scan(&yss, 3);
    assert_eq!(a.min_ys, b.min_ys);
    assert_eq!(a.max_min_y, b.max_min_y);
    assert_eq!(a.angle, b.angle);
    assert_eq!(a.curve, b.curve);
}

#[test]
fn rectangular_means_one_sample_per_angle() {
    assert!(is_rectangular(&encode(&[&[1.0, 2.0], &[3.0, 4.0]]), 2));
    assert!(!is_rectangular(&encode(&[&[1.0, 2.0], &[3.0]]), 2));
    assert!(!is_rectangular(&encode(&[&[1.0, 2.0], &[3.0, 4.0]]), 3));
    assert!(is_rectangular(&Vec::new(), 7));
    assert!(is_rectangular(&vec![Vec::new()], 0));
}
