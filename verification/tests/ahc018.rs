use std::collections::BTreeSet;

use ahc_subs::ahc018::geometry::{nearest_index, tunnel_route, NotRock, Reply, State, UsizeTools, Vec2};
use ahc_subs::ahc018::sets::{nearest_member, set_min, set_of};
use ahc_subs::ahc018::shortest::{floyd_warshall, restore_path};
use ahc_subs::ahc018::sub01;
use ahc_subs::ahc018::sub06;
use ahc_subs::ahc018::sub15;
use ahc_subs::ahc018::sub20;
use ahc_subs::random::std_rng_from_seed;

type Pos = (usize, usize);

fn adjacent_or_same(a: Pos, b: Pos) -> bool {
    Vec2::dist(&a, &b) <= 1
}

fn is_chain(cells: &[Pos], a: Pos, b: Pos) -> bool {
    !cells.is_empty()
        && cells[0] == a
        && cells[cells.len() - 1] == b
        && cells.windows(2).all(|w| adjacent_or_same(w[0], w[1]))
}

#[test]
fn sqrt_is_the_integer_square_root() {
    assert_eq!(UsizeTools::sqrt(&0usize), 0);
    assert_eq!(UsizeTools::sqrt(&1usize), 1);
    assert_eq!(UsizeTools::sqrt(&15usize), 3);
    assert_eq!(UsizeTools::sqrt(&16usize), 4);
    assert_eq!(UsizeTools::sqrt(&1_000_000usize), 1000);
    assert_eq!(UsizeTools::sqrt(&999_999usize), 999);
}

#[test]
fn dist_is_manhattan() {
    assert_eq!(Vec2::dist(&(1usize, 5usize), &(4usize, 2usize)), 6);
    assert_eq!(Vec2::dist(&(7usize, 7usize), &(7usize, 7usize)), 0);
    assert_eq!(UsizeTools::abs_diff(&3usize, 8), 5);
    assert_eq!(UsizeTools::abs_diff(&8usize, 3), 5);
    assert_eq!(Vec2::sub(&(4usize, 5usize), &(1usize, 2usize)), (3, 3));
}

#[test]
fn tunnel_goes_down_the_column_then_along_the_row() {
    assert_eq!(tunnel_route((0, 0), (2, 1)), vec![(0, 0), (1, 0), (2, 0), (2, 0), (2, 1)]);
    assert_eq!(tunnel_route((2, 1), (0, 0)), vec![(2, 1), (1, 1), (0, 1), (0, 1), (0, 0)]);
    assert_eq!(tunnel_route((3, 3), (3, 3)), vec![(3, 3), (3, 3)]);
}

#[test]
fn tunnel_is_a_chain() {
    for &(a, b) in &[((0, 0), (5, 7)), ((9, 2), (1, 8)), ((4, 4), (4, 0))] {
        assert!(is_chain(&tunnel_route(a, b), a, b));
    }
}

#[test]
fn nearest_index_takes_the_first_of_the_nearest() {
    assert_eq!(nearest_index((3, 3), &vec![(0, 0), (3, 5), (5, 3)]), 1);
    assert_eq!(nearest_index((0, 0), &vec![(9, 9), (0, 1)]), 1);
    assert_eq!(nearest_index((0, 0), &vec![]), 0);
}

#[test]
fn sub01_damage_records_the_reply() {
    let mut field = sub01::Field::new(3, &vec![], &vec![]);
    assert_eq!(field.damage(1, 1, 50, 0), Ok(Reply::Standing));
    assert_eq!(field.state[1][1], State::Rock(50));
    assert_eq!(field.damage(1, 1, 30, 1), Ok(Reply::Broken));
    assert_eq!(field.state[1][1], State::Destroyed(80));
    assert_eq!(field.state[0][0], State::Rock(0));
    let rows = field.show();
    assert_eq!(rows[1], vec!['*', '.', '*']);
    assert_eq!(rows[0], vec!['*', '*', '*']);
}

#[test]
fn damage_of_a_broken_cell_is_refused() {
    let mut field = sub01::Field::new(2, &vec![], &vec![]);
    assert_eq!(field.damage(0, 1, 50, 1), Ok(Reply::Broken));
    assert_eq!(field.damage(0, 1, 50, 1), Err(NotRock));
    assert_eq!(field.damage(0, 1, 7, 0), Err(NotRock));
    assert_eq!(field.state[0][1], State::Destroyed(50));
    let mut field = sub06::Field::new(3, 10, &vec![(0, 0)], &vec![(2, 2)]);
    assert_eq!(field.damage((1, 2), 30, 1), Ok(Reply::Broken));
    assert_eq!(field.damage((1, 2), 30, 0), Err(NotRock));
    assert_eq!(field.state[1][2], State::Destroyed(30));
    let mut field = sub15::Field::new(3, 1, &vec![(0, 0)], &vec![(2, 2)]);
    assert_eq!(field.damage((2, 0), 20, 1), Ok(Reply::Broken));
    assert_eq!(field.damage((2, 0), 20, 1), Err(NotRock));
    assert_eq!(field.state[2][0], State::Destroyed(20));
    let mut field = sub20::Field::new(3, 1, &vec![(0, 0)], &vec![(2, 2)]);
    assert_eq!(field.damage((0, 2), 20, 1), Ok(Reply::Broken));
    assert_eq!(field.damage((0, 2), 5, 2), Err(NotRock));
    assert_eq!(field.state[0][2], State::Destroyed(20));
}

#[test]
fn sub01_damage_over_leaves_the_cell() {
    let mut field = sub01::Field::new(2, &vec![], &vec![]);
    assert_eq!(field.damage(0, 1, 50, -1), Ok(Reply::Over));
    assert_eq!(field.state[0][1], State::Rock(0));
    assert_eq!(field.damage(0, 1, 50, 2), Ok(Reply::Over));
    assert_eq!(field.state[0][1], State::Rock(0));
}

#[test]
fn sub01_plan_joins_each_house_to_its_nearest_source() {
    let sources = vec![(0, 0), (4, 4)];
    let houses = vec![(1, 0), (3, 4)];
    assert_eq!(
        sub01::plan(&sources, &houses),
        vec![(0, 0), (1, 0), (1, 0), (4, 4), (3, 4), (3, 4)]
    );
    assert_eq!(sub01::plan(&sources, &vec![]), vec![]);
}

#[test]
fn sub06_power_and_glyphs() {
    assert_eq!(sub06::power_for_cost(1), 50);
    assert_eq!(sub06::power_for_cost(25), 50);
    assert_eq!(sub06::power_for_cost(64), 128);
    assert_eq!(sub06::glyph(State::Rock(10)), ' ');
    assert_eq!(sub06::glyph(State::Destroyed(625)), '▁');
    assert_eq!(sub06::glyph(State::Destroyed(626)), '▂');
    assert_eq!(sub06::glyph(State::Destroyed(3150)), '▅');
    assert_eq!(sub06::glyph(State::Destroyed(3176)), '▆');
    assert_eq!(sub06::glyph(State::Destroyed(5000)), '█');
}

#[test]
fn sub06_pick_cheapest_takes_the_first_weakest_sample() {
    let mut field = sub06::Field::new(3, 1, &vec![(0, 0)], &vec![(2, 2)]);
    assert_eq!(field.damage((0, 1), 30, 1), Ok(Reply::Broken));
    assert_eq!(field.damage((1, 1), 10, 1), Ok(Reply::Broken));
    assert_eq!(field.damage((2, 2), 10, 1), Ok(Reply::Broken));
    assert_eq!(field.strength((0, 1)), 30);
    assert_eq!(field.destroy_step((0, 1)), None);
    assert_eq!(field.destroy_step((0, 0)), Some(50));
    let samples = vec![(0, 1), (1, 1), (2, 2)];
    assert_eq!(sub06::pick_cheapest(&field, (0, 0), &samples), (1, 1));
    assert_eq!(sub06::pick_cheapest(&field, (0, 0), &vec![]), (0, 0));
    assert_eq!(field.find_source((2, 2)), (0, 0));
}

#[test]
fn sub06_short_segment_is_dug_straight() {
    let mut rng = std_rng_from_seed(sub06::SEED);
    let mut plan = sub06::TunnelPlan::new((0, 0), (2, 2));
    let cells = plan.start_segment(5, &mut rng);
    assert_eq!(cells, vec![(0, 0), (1, 0), (2, 0), (2, 0), (2, 1), (2, 2)]);
    assert!(plan.pending.is_none());
    assert!(plan.stack.is_empty());
    assert_eq!(plan.start_segment(5, &mut rng), vec![]);
}

#[test]
fn sub06_long_segment_is_sampled_in_its_rectangle() {
    let mut rng = std_rng_from_seed(sub06::SEED);
    let mut plan = sub06::TunnelPlan::new((0, 0), (40, 45));
    let cells = plan.start_segment(50, &mut rng);
    // (40 / 20) * (45 / 20) = 4 samples
    assert_eq!(cells.len(), 4);
    for &(r, c) in &cells {
        assert!(r < 40 && c < 45);
    }
    assert!(cells.iter().any(|&p| p != (0, 0)));
    assert!(plan.pending.is_some());
}

#[test]
fn sets_min_and_nearest() {
    let s = set_of(&vec![(3, 1), (0, 5), (0, 2)]);
    assert_eq!(s.len(), 3);
    assert_eq!(set_min(&s), (0, 2));
    assert_eq!(nearest_member(&s, (1, 1)), (0, 2));
    assert_eq!(nearest_member(&s, (3, 3)), (3, 1));
    // ties go to the smallest cell
    let t = set_of(&vec![(2, 0), (0, 2)]);
    assert_eq!(nearest_member(&t, (1, 1)), (0, 2));
    assert_eq!(nearest_member(&BTreeSet::new(), (1, 1)), (1, 1));
}

#[test]
fn sub15_powers_by_cost() {
    assert_eq!(sub15::p_init(1), 20);
    assert_eq!(sub15::p_init(32), 64);
    assert_eq!(sub15::p_init(128), 256);
    assert_eq!(sub15::p_delta(2), 0);
    assert_eq!(sub15::p_delta(64), 50);
    assert_eq!(sub15::p_delta(128), 64);
}

#[test]
fn sub15_destroy_steps_grow() {
    let mut field = sub15::Field::new(4, 8, &vec![(0, 0)], &vec![(3, 3)]);
    assert_eq!(field.destroy_step((1, 1), 0), Some(40));
    assert_eq!(field.destroy_step((1, 1), 3), Some(70));
    assert_eq!(field.damage((1, 1), 40, 1), Ok(Reply::Broken));
    assert_eq!(field.destroy_step((1, 1), 1), None);
    assert_eq!(field.finish_destroy((1, 1)), 40);
    assert!(field.sources.contains(&(1, 1)));
}

#[test]
fn sub15_next_pair_by_predicted_cost() {
    let mut field = sub15::Field::new(5, 1, &vec![(0, 0)], &vec![(4, 4), (2, 0)]);
    let cells = field.nearest_pair_cells();
    assert_eq!(cells, vec![(1, 0), (0, 0), (0, 0), (2, 4), (0, 4), (0, 2)]);
    let snapshot = field.sources.clone();
    assert_eq!(field.damage((1, 0), 10, 1), Ok(Reply::Broken));
    assert_eq!(field.damage((0, 0), 10, 1), Ok(Reply::Broken));
    assert_eq!(field.damage((2, 4), 100, 1), Ok(Reply::Broken));
    assert_eq!(field.damage((0, 4), 100, 1), Ok(Reply::Broken));
    assert_eq!(field.damage((0, 2), 100, 1), Ok(Reply::Broken));
    assert_eq!(field.predict_dist((2, 0), (0, 0)), 60);
    assert_eq!(field.predict_dist((4, 4), (0, 0)), 2400);
    assert_eq!(field.get_nearest_pair(&snapshot), Some(((0, 0), (2, 0))));
    assert_eq!(field.houses.len(), 1);
    assert_eq!(field.get_nearest_pair(&snapshot), Some(((0, 0), (4, 4))));
    assert_eq!(field.get_nearest_pair(&snapshot), None);
}

#[test]
fn sub20_nearest_pairs_in_turn() {
    let mut field = sub20::Field::new(6, 1, &vec![(0, 0), (5, 5)], &vec![(1, 1), (4, 5)]);
    assert_eq!(field.get_nearest_pair(), Some(((5, 5), (4, 5))));
    assert_eq!(field.get_nearest_pair(), Some(((0, 0), (1, 1))));
    assert_eq!(field.get_nearest_pair(), None);
}

#[test]
fn sub20_find_source_and_mark() {
    let mut field = sub20::Field::new(6, 1, &vec![(0, 0)], &vec![(5, 5)]);
    assert_eq!(field.find_source((4, 4)), (0, 0));
    field.mark_source((4, 3));
    assert_eq!(field.find_source((4, 4)), (4, 3));
    assert_eq!(field.point_sources(&vec![(1, 0), (5, 5)]), vec![(0, 0), (4, 3)]);
}

#[test]
fn sub20_samples_lie_in_the_window() {
    let field = sub20::Field::new(50, 1, &vec![(0, 0)], &vec![(10, 30)]);
    let mut rng = std_rng_from_seed(sub20::SEED);
    let points = field.sample_points((0, 0), (10, 30), &mut rng);
    // 40 steps: two samples, then the end
    assert_eq!(points.len(), 3);
    assert_eq!(points[2], (10, 30));
    for &(r, c) in &points[..2] {
        assert!(r < 15 && c < 35);
    }
    // the generator does not keep handing out the low end of the window
    assert!(points[..2].iter().any(|&p| p != (0, 0)));
    let near = field.sample_points((3, 3), (3, 5), &mut rng);
    assert_eq!(near, vec![(3, 5)]);
}

#[test]
fn floyd_warshall_finds_the_detour() {
    let d = vec![vec![0, 5, 1], vec![5, 0, 1], vec![1, 1, 0]];
    let dp = floyd_warshall(&d);
    assert_eq!(dp, vec![vec![0, 2, 1], vec![2, 0, 1], vec![1, 1, 0]]);
    let points = vec![(0, 0), (9, 9), (5, 5)];
    assert_eq!(restore_path(&d, &dp, &points, 0, 1), vec![(5, 5), (9, 9)]);
    assert_eq!(restore_path(&d, &dp, &points, 1, 1), vec![]);
}

#[test]
fn floyd_warshall_satisfies_the_triangle_inequality() {
    let d = vec![
        vec![0, 7, 9, 30, 14],
        vec![7, 0, 10, 15, 40],
        vec![9, 10, 0, 11, 2],
        vec![30, 15, 11, 0, 6],
        vec![14, 40, 2, 6, 0],
    ];
    let dp = floyd_warshall(&d);
    for i in 0..5 {
        for j in 0..5 {
            assert!(dp[i][j] <= d[i][j]);
            for m in 0..5 {
                assert!(dp[i][j] <= dp[i][m] + dp[m][j]);
            }
        }
    }
    assert_eq!(dp[0][4], 11);
    assert_eq!(dp[1][4], 12);
}

#[test]
fn sub20_straight_route_is_a_chain() {
    let cells = sub20::route_cells(&vec![(0, 0), (4, 4)]);
    assert_eq!(
        cells,
        vec![
            (0, 0),
            (1, 0),
            (1, 0),
            (1, 1),
            (1, 1),
            (2, 1),
            (2, 1),
            (2, 2),
            (2, 2),
            (3, 2),
            (3, 2),
            (3, 3),
            (3, 3),
            (4, 3),
            (4, 3),
            (4, 4)
        ]
    );
    let path = vec![(0, 7), (5, 1), (9, 9), (9, 0)];
    let route = sub20::route_cells(&path);
    assert!(is_chain(&route, (0, 7), (9, 0)));
    assert_eq!(sub20::route_cells(&vec![]), vec![]);
    assert_eq!(sub20::route_cells(&vec![(2, 2)]), vec![]);
}

#[test]
fn sub20_shortest_path_starts_at_the_cheapest_point() {
    let mut field = sub20::Field::new(5, 1, &vec![(0, 0)], &vec![(0, 4)]);
    assert_eq!(field.damage((0, 2), 10, 1), Ok(Reply::Broken));
    assert_eq!(field.damage((0, 4), 20, 1), Ok(Reply::Broken));
    assert_eq!(field.damage((0, 0), 5, 1), Ok(Reply::Broken));
    let points = vec![(0, 2), (0, 4)];
    let srcs = field.point_sources(&points);
    assert_eq!(srcs, vec![(0, 0), (0, 0)]);
    let d = field.cost_matrix(&points, &srcs);
    assert_eq!(d, vec![vec![0, 40], vec![40, 0]]);
    let dp = floyd_warshall(&d);
    assert_eq!(field.pick_start(&points, &srcs, &dp), (1, true));
    assert_eq!(field.get_shortest_path((0, 0), &points, &srcs), vec![(0, 0), (0, 4), (0, 4)]);
}

#[test]
fn sub06_plan_digs_a_chain_from_start_to_end() {
    let start = (0, 0);
    let end = (50, 55);
    let mut field = sub06::Field::new(60, 1, &vec![start], &vec![end]);
    let mut rng = std_rng_from_seed(sub06::SEED);
    let mut plan = sub06::TunnelPlan::new(start, end);
    let mut straight: Vec<Pos> = Vec::new();
    let mut strength = 1;
    let mut dig = |field: &mut sub06::Field, cells: &Vec<Pos>| {
        for &p in cells {
            if field.destroy_step(p).is_some() {
                strength = strength % 97 + 13;
                assert_eq!(field.damage(p, strength, 1), Ok(Reply::Broken));
            }
        }
    };
    while !(plan.stack.is_empty() && plan.pending.is_none()) {
        let cells = plan.start_segment(60, &mut rng);
        dig(&mut field, &cells);
        if plan.pending.is_none() {
            straight.extend(cells);
        }
        while plan.pending.is_some() {
            if let Some(cells) = plan.finish_sampling(&field, &mut rng) {
                dig(&mut field, &cells);
                if plan.pending.is_none() {
                    straight.extend(cells);
                }
            }
        }
    }
    assert!(is_chain(&straight, start, end));
}

#[test]
fn sub15_pair_cells_come_by_house_then_source() {
    let field = sub15::Field::new(6, 1, &vec![(5, 0), (0, 0)], &vec![(4, 4), (2, 2)]);
    let cells = field.nearest_pair_cells();
    // houses (2, 2), (4, 4); sources (0, 0), (5, 0); three cells a pair
    assert_eq!(
        cells,
        vec![
            (1, 2), (0, 2), (0, 1),
            (3, 2), (5, 2), (5, 1),
            (2, 4), (0, 4), (0, 2),
            (4, 4), (5, 4), (5, 2),
        ]
    );
}
