use nvidia_wormhole::curve::calculate_target_speed;

#[test]
fn test_interpolation() {
    let curve = vec![(30, 0), (50, 40), (80, 100)];

    // Exact points
    assert_eq!(calculate_target_speed(30, &curve), 0);
    assert_eq!(calculate_target_speed(50, &curve), 40);
    assert_eq!(calculate_target_speed(80, &curve), 100);

    // Below min
    assert_eq!(calculate_target_speed(20, &curve), 0);

    // Above max
    assert_eq!(calculate_target_speed(90, &curve), 100);

    // Midpoint (Linear)
    // Between 30 (0%) and 50 (40%) at temp 40:
    // Range X=20, Y=40. Ratio = 2.
    // Diff = 10. Result = 0 + 10*2 = 20.
    assert_eq!(calculate_target_speed(40, &curve), 20);

    // Between 50 (40%) and 80 (100%) at temp 65:
    // Range X=30, Y=60. Ratio = 2.
    // Diff = 15. Result = 40 + 15*2 = 70.
    assert_eq!(calculate_target_speed(65, &curve), 70);
}

#[test]
fn empty_curve_is_zero() {
    let curve: Vec<(u32, u32)> = vec![];
    assert_eq!(calculate_target_speed(0, &curve), 0);
    assert_eq!(calculate_target_speed(55, &curve), 0);
    assert_eq!(calculate_target_speed(u32::MAX, &curve), 0);
}

#[test]
fn unsorted_input_is_sorted_first() {
    let curve = vec![(80, 100), (30, 0), (50, 40)];
    assert_eq!(calculate_target_speed(30, &curve), 0);
    assert_eq!(calculate_target_speed(40, &curve), 20);
    assert_eq!(calculate_target_speed(50, &curve), 40);
    assert_eq!(calculate_target_speed(90, &curve), 100);
}

#[test]
fn result_is_clamped_to_percent_range() {
    // outputs beyond 100 are clamped on every path
    let high = vec![(30, 150), (60, 200)];
    assert_eq!(calculate_target_speed(20, &high), 100);
    assert_eq!(calculate_target_speed(45, &high), 100);
    assert_eq!(calculate_target_speed(70, &high), 100);

    let mixed = vec![(30, 0), (40, 120)];
    for t in 20..=50 {
        assert!(calculate_target_speed(t, &mixed) <= 100);
    }
}

#[test]
fn single_point_curve_is_constant() {
    let curve = vec![(50, 35)];
    assert_eq!(calculate_target_speed(0, &curve), 35);
    assert_eq!(calculate_target_speed(50, &curve), 35);
    assert_eq!(calculate_target_speed(200, &curve), 35);
}

#[test]
fn monotone_curve_evaluates_monotone() {
    let curve = vec![(30, 0), (50, 30), (70, 60), (85, 100)];
    let mut prev = calculate_target_speed(0, &curve);
    for t in 1..=120 {
        let cur = calculate_target_speed(t, &curve);
        assert!(cur >= prev, "dip at {}: {} < {}", t, cur, prev);
        prev = cur;
    }
}

#[test]
fn decreasing_curve_evaluates_decreasing_segment() {
    // a negative slope is followed exactly, with truncation toward zero
    let curve = vec![(30, 80), (50, 20)];
    assert_eq!(calculate_target_speed(30, &curve), 80);
    assert_eq!(calculate_target_speed(40, &curve), 50);
    assert_eq!(calculate_target_speed(41, &curve), 47);
    assert_eq!(calculate_target_speed(50, &curve), 20);
}

#[test]
fn interpolation_truncates_toward_zero() {
    // between (0,0) and (3,2): at t=1 the exact value is 2/3
    let curve = vec![(0, 0), (3, 2)];
    assert_eq!(calculate_target_speed(1, &curve), 0);
    assert_eq!(calculate_target_speed(2, &curve), 1);
}

#[test]
fn duplicate_temperatures_are_tolerated() {
    let curve = vec![(30, 0), (50, 40), (50, 60), (80, 100)];
    assert_eq!(calculate_target_speed(20, &curve), 0);
    // the search skips the zero-width window; the later duplicate opens
    // the qualifying window at 50
    assert_eq!(calculate_target_speed(50, &curve), 60);
    assert_eq!(calculate_target_speed(90, &curve), 100);
}
