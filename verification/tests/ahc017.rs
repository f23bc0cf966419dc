use ahc_subs::ahc017::sub01::{adjacency, plan, Node};
use ahc_subs::ahc017::sub02;
use ahc_subs::ahc017::sub04;

fn day_count(days: &[usize], d: usize) -> usize {
    days.iter().filter(|&&x| x == d).count()
}

#[test]
fn first_come_plan_builds_k_roads_a_day() {
    assert_eq!(plan(5, 2), vec![1, 1, 2, 2, 3]);
    assert_eq!(plan(3, 5), vec![1, 1, 1]);
    assert_eq!(plan(0, 1), vec![]);
}

#[test]
fn adjacency_lists_both_ends_in_road_order() {
    let g = adjacency(3, &vec![(1, 2, 5), (2, 3, 7)]);
    assert_eq!(g.len(), 3);
    let pairs = |v: &Vec<Node>| v.iter().map(|n| (n.nxt, n.wgt)).collect::<Vec<_>>();
    assert_eq!(pairs(&g[0]), vec![(1, 5)]);
    assert_eq!(pairs(&g[1]), vec![(0, 5), (2, 7)]);
    assert_eq!(pairs(&g[2]), vec![(1, 7)]);
}

#[test]
fn sub02_change_day_respects_the_cap() {
    let mut g = sub02::Graph::new(4, 3, 2);
    g.append_edge(0, 1, 10, 1);
    g.append_edge(1, 2, 20, 1);
    assert_eq!(g.cnt, vec![0, 2, 0, 0]);
    assert_eq!(g.M, 2);
    // day 1 is full
    assert!(!g.change_day(0, 1));
    assert!(g.change_day(0, 2));
    assert_eq!(g.cnt, vec![0, 1, 1, 0]);
    assert_eq!(g.days(), vec![2, 1]);
    assert!(g.change_day(1, 2));
    assert!(!g.change_day(0, 2));
    assert_eq!(g.cnt, vec![0, 0, 2, 0]);
}

#[test]
fn sub02_build_and_solve_keep_every_day_under_k() {
    let uvw = vec![(1, 2, 3), (2, 3, 4), (3, 4, 5), (4, 5, 6), (5, 6, 7)];
    let g = sub02::build(7, 4, 2, &uvw);
    assert_eq!(g.days(), vec![1, 1, 2, 2, 3]);
    assert_eq!(g.edges[2].u, 2);
    assert_eq!(g.edges[2].v, 3);
    assert_eq!(g.edges[2].w, 5);
    let days = sub02::solve(7, 4, 2, &uvw);
    assert_eq!(days.len(), 5);
    // the random moves did move some road
    assert_ne!(days, vec![1, 1, 2, 2, 3]);
    for (i, &d) in days.iter().enumerate() {
        assert!(d == i / 2 + 1 || (1 <= d && d <= 4));
    }
    for d in 0..10 {
        assert!(day_count(&days, d) <= 2);
    }
}

#[test]
fn sub04_change_day_moves_the_records() {
    let mut g = sub04::Graph::new(3, 2, 1);
    g.append_edge(0, 1, 5, 1);
    let e = sub04::Edge { i: 0, u: 0, v: 1, w: 5, day: 1 };
    assert_eq!(g.edges, vec![e]);
    assert_eq!(g.adjacent[1][0][1], Some(e));
    assert_eq!(g.adjacent[1][1][0], Some(e));
    assert_eq!(g.cnt, vec![0, 1, 0]);
    assert!(g.change_day(0, 2));
    let moved = sub04::Edge { day: 2, ..e };
    assert_eq!(g.edges, vec![moved]);
    assert_eq!(g.cnt, vec![0, 0, 1]);
    assert_eq!(g.adjacent[1][0][1], None);
    assert_eq!(g.adjacent[1][1][0], None);
    assert_eq!(g.adjacent[2][0][1], Some(moved));
    assert_eq!(g.adjacent[2][1][0], Some(moved));
    // the cap of one work a day refuses a second edge on day 2
    g.append_edge(1, 2, 9, 1);
    assert!(!g.change_day(1, 2));
    // day 1 is full again
    assert!(!g.change_day(0, 1));
    // moving on clears both records of day 2
    assert!(g.change_day(0, 0));
    let again = sub04::Edge { day: 0, ..e };
    assert_eq!(g.adjacent[2][0][1], None);
    assert_eq!(g.adjacent[2][1][0], None);
    assert_eq!(g.adjacent[0][0][1], Some(again));
    assert_eq!(g.adjacent[0][1][0], Some(again));
    assert_eq!(g.days(), vec![0, 1]);
    assert_eq!(g.cnt, vec![1, 1, 0]);
}

#[test]
fn sub04_new_has_a_counter_for_every_day() {
    // more days than vertices
    let mut g = sub04::Graph::new(2, 5, 3);
    assert_eq!(g.cnt, vec![0; 6]);
    assert_eq!(g.adjacent.len(), 6);
    g.append_edge(0, 1, 4, 5);
    assert_eq!(g.cnt, vec![0, 0, 0, 0, 0, 1]);
    assert!(g.change_day(0, 4));
    assert_eq!(g.cnt, vec![0, 0, 0, 0, 1, 0]);
    let mut h = sub02::Graph::new(2, 5, 3);
    assert_eq!(h.cnt, vec![0; 6]);
    h.append_edge(0, 1, 4, 5);
    assert!(h.change_day(0, 4));
    assert_eq!(h.cnt, vec![0, 0, 0, 0, 1, 0]);
}

#[test]
fn sub04_build_and_solve_keep_every_day_under_k() {
    let uvw = vec![(1, 2, 3), (2, 3, 4), (3, 4, 5), (4, 1, 6), (1, 3, 7), (2, 4, 8)];
    let g = sub04::build(8, 6, 2, &uvw);
    assert_eq!(g.days(), vec![1, 1, 2, 2, 3, 3]);
    assert_eq!(g.adjacent[2][3][0].map(|e| e.i), Some(3));
    assert_eq!(g.adjacent[2][0][3].map(|e| e.i), Some(3));
    assert_eq!(g.cnt, vec![0, 2, 2, 2, 0, 0, 0]);
    let days = sub04::solve(8, 6, 2, &uvw);
    assert_eq!(days.len(), 6);
    for (i, &d) in days.iter().enumerate() {
        assert!(d == i / 2 + 1 || (1 <= d && d <= 6));
    }
    for d in 0..10 {
        assert!(day_count(&days, d) <= 2);
    }
}

#[test]
fn sub04_spreading_moves_the_first_edge_of_a_crowded_day() {
    let mut g = sub04::Graph::new(4, 3, 2);
    g.append_edge(0, 1, 5, 1);
    g.append_edge(0, 2, 6, 1);
    g.append_edge(0, 3, 7, 2);
    let cnt_day = sub04::edges_around(&g, 0);
    assert_eq!(cnt_day, vec![vec![], vec![0, 1], vec![2], vec![]]);
    // day 2 already lists one edge around vertex 0: not two fewer than day 1
    assert!(!sub04::try_spread(&mut g, &cnt_day, 1, 2));
    assert_eq!(g.days(), vec![1, 1, 2]);
    assert!(sub04::try_spread(&mut g, &cnt_day, 1, 3));
    assert_eq!(g.days(), vec![3, 1, 2]);
    assert_eq!(g.cnt, vec![0, 1, 1, 1]);
}

#[test]
fn sub04_spread_round_takes_the_first_allowed_draw() {
    let mut g = sub04::Graph::new(4, 3, 2);
    g.append_edge(0, 1, 5, 1);
    g.append_edge(0, 2, 6, 1);
    g.append_edge(0, 3, 7, 2);
    // day 1 lists edges 0 and 1 around vertex 0; day 2 is refused, day 3 taken
    let tries = vec![vec![], vec![2, 3, 2], vec![1], vec![2]];
    sub04::spread_round(&mut g, 0, &tries);
    assert_eq!(g.days(), vec![3, 1, 2]);
    assert_eq!(g.cnt, vec![0, 1, 1, 1]);
    let moved = sub04::Edge { i: 0, u: 0, v: 1, w: 5, day: 3 };
    assert_eq!(g.adjacent[3][0][1], Some(moved));
    assert_eq!(g.adjacent[3][1][0], Some(moved));
    assert_eq!(g.adjacent[1][0][1], None);
}

#[test]
fn sub04_spread_round_tries_at_most_try_time_days() {
    let mut g = sub04::Graph::new(4, 3, 2);
    g.append_edge(0, 1, 5, 1);
    g.append_edge(0, 2, 6, 1);
    g.append_edge(0, 3, 7, 2);
    // the allowed day 3 comes after `TRY_TIME` refused draws
    let tries = vec![vec![], vec![2, 2, 2, 2, 2, 3], vec![], vec![]];
    sub04::spread_round(&mut g, 1, &tries);
    assert_eq!(g.days(), vec![1, 1, 2]);
    assert_eq!(g.cnt, vec![0, 2, 1, 0]);
}
