use ahc_subs::ahc022::placement::{closest_label, filled_grid, median, place_labels};
use ahc_subs::ahc022::sub03;
use ahc_subs::ahc022::sub06;
use ahc_subs::ahc022::sub08;
use ahc_subs::ahc022::sub11;
use ahc_subs::ahc022::temperature_field::TemperatureField;

fn window(field: &Vec<Vec<usize>>, l: usize, pos: (usize, usize), rows: usize, cols: usize) -> Vec<Vec<usize>> {
    (0..rows)
        .map(|i| {
            (0..cols)
                .map(|j| field[(l - rows / 2 + pos.0 + i) % l][(l - cols / 2 + pos.1 + j) % l])
                .collect()
        })
        .collect()
}

#[test]
fn median_of_three() {
    assert_eq!(median([3, 1, 2]), 2);
    assert_eq!(median([5, 5, 1]), 5);
    assert_eq!(median([0, 9, 9]), 9);
}

#[test]
fn labels_and_closest_label() {
    let mut g = filled_grid(4, 7);
    assert_eq!(g, vec![vec![7; 4]; 4]);
    let pos = vec![(0, 0), (1, 2), (3, 3)];
    place_labels(&mut g, &pos);
    assert_eq!(g[0][0], 0);
    assert_eq!(g[1][2], 10);
    assert_eq!(g[3][3], 20);
    assert_eq!(g[2][2], 7);
    assert_eq!(closest_label(&g, &pos, 3, 14), 1);
    assert_eq!(closest_label(&g, &pos, 3, 16), 2);
    // a tie goes to the first label
    assert_eq!(closest_label(&g, &pos, 3, 15), 1);
}

#[test]
fn sub03_answers_by_the_closest_label() {
    let mut solver = sub03::Solver::new(3, 2, 1, vec![(0, 0), (1, 2)]);
    solver.create_temperature();
    assert_eq!(solver.temperature[0][0], 0);
    assert_eq!(solver.temperature[1][2], 10);
    assert_eq!(solver.temperature[2][2], 0);
    assert_eq!(solver.choose_exit([12, 9, 30]), 1);
    assert_eq!(solver.choose_exit([0, 0, 100]), 0);
}

#[test]
fn sub06_spreads_the_labels_with_the_ring() {
    let mut solver = sub06::Solver::new(5, 2, 1, vec![(0, 0), (2, 2)]);
    assert_eq!(solver.temperature, vec![vec![10; 5]; 5]);
    solver.create_temperature();
    assert_eq!(solver.temperature[0][0], 0);
    assert_eq!(solver.temperature[2][2], 10);
    // (0, 0) held 0 with weight 27 next to (0, 1): ceil((2560 - 270) / 256)
    assert_eq!(solver.temperature[0][1], 9);
    assert_eq!(solver.temperature[0][4], 9);
    // weight 18 at the diagonal: ceil((2560 - 180) / 256)
    assert_eq!(solver.temperature[1][1], 10);
    assert_eq!(solver.temperature[3][3], 10);
    assert_eq!(solver.choose_exit([10, 10, 10]), 1);
    assert_eq!(solver.choose_exit([0, 2, 1]), 0);
}

#[test]
fn sub08_locates_a_pattern_cut_from_the_field() {
    let mut solver = sub08::Solver::new(6, 3, 0, vec![(1, 1), (3, 4), (5, 0)]);
    solver.create_temperature();
    let field = solver.temperature.field.clone();
    for v in &field {
        assert_eq!(v.len(), 6);
        for &x in v {
            assert!(x < 1000);
        }
    }
    for (k, &pos) in [(1usize, 1usize), (3, 4), (5, 0)].iter().enumerate() {
        let pattern = window(&field, 6, pos, 3, 5);
        assert_eq!(solver.locate(&pattern), k);
    }
}

#[test]
fn sub11_locates_a_pattern_cut_from_the_field() {
    let mut solver = sub11::Solver::new(12, 2, 500, vec![(2, 2), (8, 9)]);
    solver.create_temperature();
    let field = solver.temperature.field.clone();
    // far from both exits the field holds the fill value
    assert_eq!(field[5][5], 500);
    for (k, &pos) in [(2usize, 2usize), (8, 9)].iter().enumerate() {
        let pattern = window(&field, 12, pos, 5, 5);
        assert_eq!(solver.locate(&pattern), k);
    }
}

#[test]
fn sub11_smooths_when_the_noise_is_low() {
    let mut solver = sub11::Solver::new(12, 1, 10, vec![(6, 6)]);
    solver.create_temperature();
    let field = solver.temperature.field.clone();
    // far away only fill values are averaged
    assert_eq!(field[0][0], 500);
    let pattern = window(&field, 12, (6, 6), 5, 5);
    assert_eq!(solver.locate(&pattern), 0);
}

#[test]
fn exact_window_scores_zero_in_the_sample_field() {
    let tf = TemperatureField {
        L: 5,
        landing_pos: vec![(1, 1), (2, 1), (2, 2), (3, 4), (4, 4)],
        field: vec![
            vec![0, 3, 2, 1, 3],
            vec![6, 4, 8, 9, 0],
            vec![3, 3, 4, 2, 1],
            vec![6, 7, 8, 8, 0],
            vec![1, 2, 7, 6, 0],
        ],
    };
    for (k, &pos) in tf.landing_pos.clone().iter().enumerate() {
        let pattern = window(&tf.field, 5, pos, 3, 3);
        assert_eq!(tf.find_nearest_pattern(&pattern), k);
    }
}

#[test]
fn sub11_median_of_readings() {
    assert_eq!(sub11::median(&vec![7]), 7);
    assert_eq!(sub11::median(&vec![30, 10, 20]), 20);
    assert_eq!(sub11::median(&vec![5, 5, 1]), 5);
    assert_eq!(sub11::median(&vec![1, 900, 1]), 1);
    // an even count takes the upper of the two middle readings
    assert_eq!(sub11::median(&vec![4, 1, 3, 2]), 3);
    assert_eq!(sub11::MEASURE_TIMES, 3);
}
