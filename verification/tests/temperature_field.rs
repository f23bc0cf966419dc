use ahc_subs::ahc022::temperature_field::TemperatureField;

fn sample_field() -> TemperatureField {
    TemperatureField {
        L: 5,
        landing_pos: vec![(1, 1), (2, 1), (2, 2), (3, 4), (4, 4)],
        field: vec![
            vec![0, 3, 2, 1, 3],
            vec![6, 4, 8, 9, 0],
            vec![3, 3, 4, 2, 1],
            vec![6, 7, 8, 8, 0],
            vec![1, 2, 7, 6, 0],
        ],
    }
}

#[test]
fn test_nearest_pattern() {
    let field = sample_field();

    assert_eq!(
        field.find_nearest_pattern(&vec![vec![0, 3, 2], vec![6, 4, 8], vec![3, 3, 4]]),
        0 // (1, 1)
    );

    assert_eq!(
        field.find_nearest_pattern(&vec![vec![8, 0, 6], vec![6, 0, 1], vec![1, 3, 0]]),
        4 // (4, 4)
    );

    assert_eq!(
        field.find_nearest_pattern(&vec![vec![4, 7, 8], vec![3, 3, 3], vec![8, 8, 8]]),
        2 // (2, 2)
    );

    assert_eq!(
        field.find_nearest_pattern(&vec![vec![3, 3, 3]]),
        1 // (2, 1)
    );

    assert_eq!(
        field.find_nearest_pattern(&vec![vec![1], vec![0], vec![0]]),
        3 // (3, 4)
    );
}

#[test]
fn flexible_pattern_ignores_unknown_entries() {
    let field = sample_field();
    // only the centre is known: 4 at (1, 1) and at (2, 2); the first wins
    let pattern = vec![
        vec![None, None, None],
        vec![None, Some(4), None],
        vec![None, None, None],
    ];
    assert_eq!(field.find_nearest_pattern_flexible(&pattern), 0);
    // with the full pattern it agrees with the plain search
    let full: Vec<Vec<Option<usize>>> = vec![
        vec![Some(8), Some(0), Some(6)],
        vec![Some(6), Some(0), Some(1)],
        vec![Some(1), Some(3), Some(0)],
    ];
    assert_eq!(field.find_nearest_pattern_flexible(&full), 4);
}

#[test]
fn no_landing_position_gives_zero() {
    let field = TemperatureField::new(3, vec![]);
    assert_eq!(field.find_nearest_pattern(&vec![vec![1]]), 0);
}

#[test]
fn new_field_is_zero() {
    let field = TemperatureField::new(3, vec![(0, 0)]);
    assert_eq!(field.field, vec![vec![0; 3]; 3]);
    assert_eq!(field.L, 3);
}

#[test]
fn random_field_stays_below_limit_and_is_reproducible() {
    let mut a = TemperatureField::new(4, vec![]);
    a.generate_random_field();
    let mut b = TemperatureField::new(4, vec![]);
    b.generate_random_field();
    assert_eq!(a.field, b.field);
    assert!(a.field.iter().all(|row| row.iter().all(|&v| v < 1000)));
}

#[test]
fn smoothing_the_field_uses_the_filters() {
    let mut f = TemperatureField::new(5, vec![]);
    f.field[2][2] = 16;
    f.smoothing3x3();
    assert_eq!(f.field[2][2], 4);
    assert_eq!(f.field[1][1], 1);
    let mut g = TemperatureField::new(5, vec![]);
    g.field[2][2] = 256;
    g.smoothing5x5();
    assert_eq!(g.field[0][0], 1);
    assert_eq!(g.field[2][2], 36);
}

#[test]
fn flexible_search_on_a_fully_known_pattern_agrees_with_the_plain_one() {
    let field = sample_field();
    let patterns = vec![
        vec![vec![0, 3, 2], vec![6, 4, 8], vec![3, 3, 4]],
        vec![vec![8, 0, 6], vec![6, 0, 1], vec![1, 3, 0]],
        vec![vec![4, 7, 8], vec![3, 3, 3], vec![8, 8, 8]],
        vec![vec![3, 3, 3]],
        vec![vec![1], vec![0], vec![0]],
        vec![vec![9, 9], vec![9, 9]],
    ];
    for pattern in &patterns {
        let known: Vec<Vec<Option<usize>>> =
            pattern.iter().map(|row| row.iter().map(|&v| Some(v)).collect()).collect();
        assert_eq!(field.find_nearest_pattern_flexible(&known), field.find_nearest_pattern(pattern));
    }
    let known: Vec<Vec<Option<usize>>> = vec![vec![Some(8), Some(0), Some(6)], vec![Some(6), Some(0), Some(1)], vec![Some(1), Some(3), Some(0)]];
    assert_eq!(field.find_nearest_pattern_flexible(&known), 4);
}
