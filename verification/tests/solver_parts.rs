use rand::rngs::SmallRng;
use rand::SeedableRng;
use std::time::{Duration, Instant};
use vehicle_routing::algorithm::{route_dist, try_relocate, SaResult};
use vehicle_routing::alns::total_distance;
use vehicle_routing::construct::nn_construction;
use vehicle_routing::improve::{greedy_local_search, greedy_relocate};
use vehicle_routing::model::{Challenge, Solution};
use vehicle_routing::primal_viper::{destroy_random, greedy_place, is_time_feasible, remove_picked, repair_greedy, XorshiftRng};
use vehicle_routing::pv_ls::local_search_loop;
use vehicle_routing::pv_passes::{exchange_pass, segment_swap_pass};
use vehicle_routing::repair::{greedy_insert_step, regret_insert_step};
use vehicle_routing::pv_lns::{pv_lns_iteration, pv_neighbors, round_plan, DestroyKind};
use vehicle_routing::pv_regret::{regret_construction_step, regret_k_construction, regret_k_step, repair_regret_k};
use vehicle_routing::sharp_orbit::{
    chain_insert_tw_feasible, compute_route_demand, max_pairwise_distance, route_tw_feasible, solution_cost,
    trial_insert_tw_feasible,
};
use vehicle_routing::silver_nova::{build_locator, xorshift64, Ctx, Route, Sol};
use vehicle_routing::sn_lns::{random_destroy, remove_and_repair, shaw_destroy};
use vehicle_routing::sn_passes::{
    exchange_pass as sn_exchange_pass, is_two_opt_feasible, or_opt_pass as sn_or_opt_pass, relocate_pass,
    route_elim_pass, two_opt_intra_pass, two_opt_star_pass as sn_two_opt_star_pass, vnd,
};
use vehicle_routing::so_intra::run_local_search;
use vehicle_routing::so_lns::{destroy_and_repair, route_destroy_and_repair};
use vehicle_routing::so_passes::{or_opt_between_routes, two_opt_star_between_routes};

fn instance(positions: Vec<(i32, i32)>, demands: Vec<i32>, ready: Vec<i32>, due: Vec<i32>, cap: i32, fleet: usize, service: i32) -> Challenge {
    let n = positions.len();
    let dm: Vec<Vec<i32>> = positions
        .iter()
        .map(|&a| {
            positions
                .iter()
                .map(|&b| {
                    let dx = (a.0 - b.0) as f64;
                    let dy = (a.1 - b.1) as f64;
                    dx.hypot(dy).round() as i32
                })
                .collect()
        })
        .collect();
    Challenge {
        seed: [0u8; 32],
        num_nodes: n,
        demands,
        node_positions: positions,
        distance_matrix: dm,
        max_capacity: cap,
        fleet_size: fleet,
        service_time: service,
        ready_times: ready,
        due_times: due,
    }
}

/// A depot and eight customers on two rays, with wide time windows.
fn star() -> Challenge {
    instance(
        vec![(0, 0), (10, 0), (20, 0), (30, 0), (40, 0), (0, 10), (0, 20), (0, 30), (0, 40)],
        vec![0, 3, 3, 3, 3, 3, 3, 3, 3],
        vec![0; 9],
        vec![10_000; 9],
        20,
        4,
        1,
    )
}

fn customer_counts(routes: &[Vec<usize>], n: usize) -> Vec<usize> {
    let mut c = vec![0usize; n];
    for r in routes {
        for &x in r {
            if x != 0 {
                c[x] += 1;
            }
        }
    }
    c
}

fn each_customer_once(routes: &[Vec<usize>], n: usize) -> bool {
    let c = customer_counts(routes, n);
    (1..n).all(|x| c[x] == 1)
}

fn length(routes: &[Vec<usize>], dm: &[Vec<i32>]) -> i64 {
    routes.iter().map(|r| route_dist(r, dm) as i64).sum()
}

fn silver_routes(ctx: &Ctx, routes: &[Vec<u32>]) -> Sol {
    let mut rs = Vec::new();
    for r in routes {
        let mut route = Route { seq: r.clone(), arr: vec![], lat: vec![], demand_sum: 0, dist: 0 };
        route.recompute(ctx);
        rs.push(route);
    }
    let mut sol = Sol { routes: rs, total_dist: 0 };
    sol.recompute_total();
    sol
}

fn silver_nodes(sol: &Sol) -> Vec<Vec<usize>> {
    sol.routes.iter().map(|r| r.seq.iter().map(|&x| x as usize).collect()).collect()
}

#[test]
fn xorshift_step_values() {
    let mut s: u64 = 1;
    assert_eq!(xorshift64(&mut s), 1082269761);
    assert_eq!(s, 1082269761);
    let mut rng = XorshiftRng { state: 1 };
    assert_eq!(rng.next(), 1082269761);
}

#[test]
fn route_dist_and_totals() {
    let ch = star();
    let dm = &ch.distance_matrix;
    assert_eq!(route_dist(&vec![0, 1, 2, 0], dm), 40);
    let routes = vec![vec![0, 1, 2, 0], vec![0, 5, 0]];
    assert_eq!(total_distance(&routes, dm), 60);
    let sol = Solution { routes: routes.clone() };
    assert_eq!(solution_cost(&sol, dm), 60);
    assert_eq!(max_pairwise_distance(dm), 57);
}

#[test]
fn route_demands_exclude_depots() {
    let ch = star();
    let routes = vec![vec![0, 1, 2, 0], vec![0, 0], vec![0, 5, 6, 7, 0]];
    assert_eq!(compute_route_demand(&routes, &ch.demands), vec![6, 0, 9]);
}

#[test]
fn time_window_checks_agree() {
    let mut ch = star();
    ch.due_times[2] = 20;
    let dm = &ch.distance_matrix;
    assert!(route_tw_feasible(&[0, 2, 1, 0], dm, &ch.ready_times, &ch.due_times, 1));
    assert!(!route_tw_feasible(&[0, 1, 2, 0], dm, &ch.ready_times, &ch.due_times, 1));
    assert!(is_time_feasible(&[0, 2, 1, 0], dm, 1, &ch.ready_times, &ch.due_times));
    assert!(!is_time_feasible(&[0, 1, 2, 0], dm, 1, &ch.ready_times, &ch.due_times));
}

#[test]
fn chain_of_one_matches_trial_insertion() {
    let mut ch = star();
    ch.due_times[3] = 40;
    let route = vec![0usize, 1, 3, 0];
    for pos in 1..route.len() {
        for &node in &[2usize, 4, 5] {
            let a = chain_insert_tw_feasible(&route, pos, &[node], &ch.distance_matrix, &ch.ready_times, &ch.due_times, 1, false);
            let b = trial_insert_tw_feasible(&route, pos, node, &ch.distance_matrix, &ch.ready_times, &ch.due_times, 1);
            assert_eq!(a, b);
        }
    }
    assert!(trial_insert_tw_feasible(&route, 2, 2, &ch.distance_matrix, &ch.ready_times, &ch.due_times, 1));
    assert!(!trial_insert_tw_feasible(&route, 1, 4, &ch.distance_matrix, &ch.ready_times, &ch.due_times, 1));
}

#[test]
fn nearest_neighbour_serves_everyone_once() {
    let ch = star();
    let routes = nn_construction(&ch);
    assert!(each_customer_once(&routes, ch.num_nodes));
    for r in &routes {
        assert_eq!(r[0], 0);
        assert_eq!(*r.last().unwrap(), 0);
    }
}

#[test]
fn regret_construction_serves_everyone_once() {
    let ch = star();
    let sol = regret_k_construction(&ch, 3).unwrap();
    assert!(each_customer_once(&sol.routes, ch.num_nodes));
    for r in &sol.routes {
        let load: i32 = r.iter().map(|&x| ch.demands[x]).sum();
        assert!(load <= ch.max_capacity);
    }
}

#[test]
fn regret_repair_places_pending_customers() {
    let ch = star();
    let mut routes = vec![vec![0, 1, 2, 0], vec![0, 5, 0]];
    let mut rd = vec![6, 3];
    repair_regret_k(&mut routes, &mut rd, &ch, vec![3, 6], 2);
    let c = customer_counts(&routes, ch.num_nodes);
    for x in [1, 2, 3, 5, 6] {
        assert_eq!(c[x], 1);
    }
    assert_eq!(rd.len(), routes.len());
}

#[test]
fn primal_exchange_pass_never_lengthens() {
    let ch = star();
    let mut routes: Vec<Vec<usize>> = vec![vec![0, 1, 6, 0], vec![0, 5, 2, 0]];
    let mut rd = vec![6, 6];
    let before = length(&routes, &ch.distance_matrix);
    let found = exchange_pass(&mut routes, &mut rd, &ch, &Instant::now());
    let after = length(&routes, &ch.distance_matrix);
    assert!(after <= before);
    if found {
        assert!(after < before);
    }
    assert!(customer_counts(&routes, ch.num_nodes)[1..].iter().filter(|&&c| c == 1).count() == 4);
}

#[test]
fn sharp_tail_swap_and_segment_moves_shorten() {
    let ch = star();
    let dm = &ch.distance_matrix;
    let mut routes = vec![vec![0, 1, 6, 0], vec![0, 5, 2, 0]];
    let mut rd = compute_route_demand(&routes, &ch.demands);
    let before = length(&routes, dm);
    let budget = Duration::from_secs(30);
    let found = two_opt_star_between_routes(&mut routes, &mut rd, dm, &ch.ready_times, &ch.due_times, 1, &ch.demands, 20, &Instant::now(), &budget);
    assert!(length(&routes, dm) <= before);
    if found {
        assert!(length(&routes, dm) < before);
    }
    assert_eq!(rd, compute_route_demand(&routes, &ch.demands));
    let mut routes2 = vec![vec![0, 1, 5, 2, 0], vec![0, 6, 0]];
    let mut rd2 = compute_route_demand(&routes2, &ch.demands);
    let before2 = length(&routes2, dm);
    let moved = or_opt_between_routes(&mut routes2, &mut rd2, dm, &ch.ready_times, &ch.due_times, 1, &ch.demands, 20, &Instant::now(), &budget);
    assert!(length(&routes2, dm) <= before2);
    if moved {
        assert!(length(&routes2, dm) < before2);
    }
    let c = customer_counts(&routes2, ch.num_nodes);
    assert_eq!((c[1], c[2], c[5], c[6]), (1, 1, 1, 1));
}

#[test]
fn sharp_destroy_and_repair_keeps_customers() {
    let ch = star();
    let mut sol = Solution { routes: vec![vec![0, 1, 2, 3, 4, 0], vec![0, 5, 6, 7, 8, 0]] };
    let mut rd = compute_route_demand(&sol.routes, &ch.demands);
    let mut rng = SmallRng::seed_from_u64(7);
    destroy_and_repair(&mut sol, &mut rd, 4, &mut rng, &ch.distance_matrix, &ch.ready_times, &ch.due_times, 1, &ch.demands, 20);
    assert!(each_customer_once(&sol.routes, ch.num_nodes));
    assert_eq!(rd, compute_route_demand(&sol.routes, &ch.demands));
    route_destroy_and_repair(&mut sol, &mut rd, &mut rng, &ch.distance_matrix, &ch.ready_times, &ch.due_times, 1, &ch.demands, 20);
    assert!(each_customer_once(&sol.routes, ch.num_nodes));
    for (r, &d) in sol.routes.iter().zip(rd.iter()) {
        assert!(d <= 20);
        assert_eq!(r[0], 0);
    }
}

#[test]
fn silver_context_lists_nearest_customers() {
    let ch = star();
    let ctx = Ctx::build(&ch);
    assert_eq!(ctx.n, 9);
    assert_eq!(ctx.neighbors[0].len(), 7);
    assert_eq!(ctx.neighbors[1][0], 2);
    assert_eq!(ctx.neighbors[1][1], 5);
    assert!(!ctx.neighbors[1].contains(&1));
    assert!(!ctx.neighbors[1].contains(&0));
}

#[test]
fn silver_route_tables_and_insertion() {
    let mut ch = star();
    ch.due_times[2] = 25;
    let ctx = Ctx::build(&ch);
    let sol = silver_routes(&ctx, &[vec![0, 1, 2, 0]]);
    let r = &sol.routes[0];
    assert_eq!(r.arr, vec![0, 10, 21, 42]);
    assert_eq!(r.dist, 40);
    assert_eq!(r.demand_sum, 6);
    assert!(r.is_feasible(&ctx));
    assert_eq!(sol.total_dist, 40);
    assert_eq!(r.try_insert(&ctx, 5, 1), None);
    assert_eq!(r.try_insert(&ctx, 3, 3), Some(20));
    let late = silver_routes(&ctx, &[vec![0, 1, 5, 2, 0]]);
    assert!(!late.routes[0].is_feasible(&ctx));
}

#[test]
fn silver_relocation_and_exchange_shorten() {
    let ch = star();
    let ctx = Ctx::build(&ch);
    let mut sol = silver_routes(&ctx, &[vec![0, 1, 6, 0], vec![0, 5, 2, 0]]);
    let mut loc = build_locator(&ctx, &sol);
    let before = length(&silver_nodes(&sol), &ch.distance_matrix);
    assert!(relocate_pass(&ctx, &mut sol, &mut loc));
    let mid = length(&silver_nodes(&sol), &ch.distance_matrix);
    assert!(mid < before);
    let _ = sn_exchange_pass(&ctx, &mut sol, &mut loc);
    let after = length(&silver_nodes(&sol), &ch.distance_matrix);
    assert!(after <= mid);
    let c = customer_counts(&silver_nodes(&sol), ch.num_nodes);
    assert_eq!((c[1], c[2], c[5], c[6]), (1, 1, 1, 1));
}

#[test]
fn silver_two_opt_and_segment_passes() {
    let ch = star();
    let ctx = Ctx::build(&ch);
    let mut sol = silver_routes(&ctx, &[vec![0, 3, 1, 2, 4, 0]]);
    let before = length(&silver_nodes(&sol), &ch.distance_matrix);
    assert!(is_two_opt_feasible(&ctx, &sol.routes[0], 0, 2));
    assert!(two_opt_intra_pass(&ctx, &mut sol));
    assert!(length(&silver_nodes(&sol), &ch.distance_matrix) < before);
    let mut sol2 = silver_routes(&ctx, &[vec![0, 1, 6, 2, 0], vec![0, 5, 0]]);
    let mut loc2 = build_locator(&ctx, &sol2);
    let before2 = length(&silver_nodes(&sol2), &ch.distance_matrix);
    assert!(sn_or_opt_pass(&ctx, &mut sol2, &mut loc2));
    assert!(length(&silver_nodes(&sol2), &ch.distance_matrix) < before2);
    let mut sol3 = silver_routes(&ctx, &[vec![0, 1, 6, 0], vec![0, 5, 2, 0]]);
    let mut loc3 = build_locator(&ctx, &sol3);
    let before3 = length(&silver_nodes(&sol3), &ch.distance_matrix);
    assert!(sn_two_opt_star_pass(&ctx, &mut sol3, &mut loc3));
    assert!(length(&silver_nodes(&sol3), &ch.distance_matrix) < before3);
}

#[test]
fn silver_route_elimination_drops_a_route() {
    let ch = star();
    let ctx = Ctx::build(&ch);
    let mut sol = silver_routes(&ctx, &[vec![0, 1, 2, 0], vec![0, 3, 0]]);
    let mut loc = build_locator(&ctx, &sol);
    let before = sol.total_dist;
    assert!(route_elim_pass(&ctx, &mut sol, &mut loc));
    assert_eq!(sol.routes.len(), 1);
    assert!(sol.total_dist < before);
    assert_eq!(sol.total_dist, length(&silver_nodes(&sol), &ch.distance_matrix) as i32);
}

#[test]
fn silver_descent_keeps_customers_and_exact_total() {
    let ch = star();
    let ctx = Ctx::build(&ch);
    let mut sol = silver_routes(&ctx, &[vec![0, 1, 6, 3, 0], vec![0, 5, 2, 8, 0], vec![0, 7, 4, 0]]);
    let mut loc = build_locator(&ctx, &sol);
    let before = sol.total_dist;
    let mut rng: u64 = 12345;
    vnd(&ctx, &mut sol, &mut loc, &Instant::now(), &mut rng);
    assert!(sol.total_dist <= before);
    assert_eq!(sol.total_dist as i64, length(&silver_nodes(&sol), &ch.distance_matrix));
    assert!(each_customer_once(&silver_nodes(&sol), ch.num_nodes));
    for r in &sol.routes {
        assert!(r.seq.len() > 2);
    }
}

#[test]
fn silver_destroy_picks_distinct_customers() {
    let ch = star();
    let ctx = Ctx::build(&ch);
    let sol = silver_routes(&ctx, &[vec![0, 1, 2, 3, 4, 0], vec![0, 5, 6, 7, 8, 0]]);
    let loc = build_locator(&ctx, &sol);
    let mut rng: u64 = 99;
    let picked = random_destroy(&ctx, &loc, &mut rng, 4);
    assert!(picked.len() <= 4);
    let mut seen = vec![false; 9];
    for &u in &picked {
        assert!(u >= 1 && u < 9);
        assert!(!seen[u]);
        seen[u] = true;
    }
    let related = shaw_destroy(&ctx, &loc, &mut rng, 3);
    assert!(related.len() <= 3);
    let mut seen2 = vec![false; 9];
    for &u in &related {
        assert!(u >= 1 && u < 9);
        assert!(!seen2[u]);
        seen2[u] = true;
    }
}

#[test]
fn silver_remove_and_repair_puts_customers_back() {
    let ch = star();
    let ctx = Ctx::build(&ch);
    let mut sol = silver_routes(&ctx, &[vec![0, 1, 2, 3, 4, 0], vec![0, 5, 6, 7, 8, 0]]);
    let mut loc = build_locator(&ctx, &sol);
    remove_and_repair(&ctx, &mut sol, &mut loc, vec![2, 7, 4]);
    assert!(each_customer_once(&silver_nodes(&sol), ch.num_nodes));
    assert_eq!(sol.total_dist as i64, length(&silver_nodes(&sol), &ch.distance_matrix));
    let out = sol.to_solution();
    assert_eq!(out.routes.len(), sol.routes.len());
}

#[test]
fn silver_accepted_insertion_stays_on_time() {
    let mut ch = star();
    ch.due_times[2] = 40;
    ch.due_times[6] = 60;
    ch.ready_times[3] = 50;
    let ctx = Ctx::build(&ch);
    let sol = silver_routes(&ctx, &[vec![0, 1, 2, 6, 0]]);
    assert!(sol.routes[0].is_feasible(&ctx));
    let mut accepted = 0;
    for u in [3usize, 4, 5, 7, 8] {
        for p in 1..sol.routes[0].seq.len() {
            if sol.routes[0].try_insert(&ctx, u, p).is_some() {
                let mut r = Route {
                    seq: sol.routes[0].seq.clone(),
                    arr: vec![],
                    lat: vec![],
                    demand_sum: 0,
                    dist: 0,
                };
                r.insert_at(&ctx, u, p);
                assert!(r.is_feasible(&ctx));
                assert!(r.demand_sum <= ctx.cap);
                accepted += 1;
            }
        }
    }
    assert!(accepted > 0);
}

#[test]
fn silver_accepted_reversal_stays_on_time() {
    let mut ch = star();
    ch.due_times[4] = 90;
    let ctx = Ctx::build(&ch);
    let sol = silver_routes(&ctx, &[vec![0, 3, 1, 2, 4, 5, 0]]);
    assert!(sol.routes[0].is_feasible(&ctx));
    let len = sol.routes[0].seq.len();
    let mut accepted = 0;
    for i in 0..len - 2 {
        for j in i + 1..len - 1 {
            if is_two_opt_feasible(&ctx, &sol.routes[0], i, j) {
                let mut seq = sol.routes[0].seq.clone();
                seq[i + 1..=j].reverse();
                let r = silver_routes(&ctx, &[seq]);
                assert!(r.routes[0].is_feasible(&ctx));
                accepted += 1;
            }
        }
    }
    assert!(accepted > 0);
}

#[test]
fn primal_picked_places_are_removed() {
    let ch = star();
    let mut routes: Vec<Vec<usize>> = vec![vec![0, 1, 2, 3, 0], vec![0, 5, 6, 0]];
    let mut rd = vec![9, 6];
    let removed = remove_picked(&mut routes, &mut rd, &ch, &vec![(0, 1), (1, 2), (0, 3)]);
    assert_eq!(routes, vec![vec![0, 2, 0], vec![0, 5, 0]]);
    assert_eq!(rd, vec![3, 3]);
    assert_eq!(removed, vec![3, 1, 6]);
}

#[test]
fn greedy_search_shortens_and_keeps_customers() {
    let ch = star();
    let mut routes: Vec<Vec<usize>> = vec![vec![0, 1, 6, 0], vec![0, 5, 2, 0]];
    let before = length(&routes, &ch.distance_matrix);
    let mut once = routes.clone();
    assert!(greedy_relocate(&mut once, &ch));
    assert!(length(&once, &ch.distance_matrix) < before);
    let deadline = Instant::now() + Duration::from_secs(5);
    greedy_local_search(&mut routes, &ch, &deadline);
    assert!(length(&routes, &ch.distance_matrix) < before);
    let c = customer_counts(&routes, ch.num_nodes);
    assert_eq!((c[1], c[2], c[5], c[6]), (1, 1, 1, 1));
    let expired = Instant::now();
    let mut untouched: Vec<Vec<usize>> = vec![vec![0, 1, 6, 0], vec![0, 5, 2, 0]];
    greedy_local_search(&mut untouched, &ch, &expired);
    assert!(length(&untouched, &ch.distance_matrix) <= before);
}

fn nearest_lists(ch: &Challenge) -> Vec<Vec<usize>> {
    (0..ch.num_nodes)
        .map(|i| {
            let mut others: Vec<usize> = (1..ch.num_nodes).filter(|&j| j != i).collect();
            others.sort_by_key(|&j| ch.distance_matrix[i][j]);
            others
        })
        .collect()
}

#[test]
fn random_relocation_moves_one_customer() {
    let ch = star();
    let dm = &ch.distance_matrix;
    let routes: Vec<Vec<usize>> = vec![vec![0, 1, 2, 0], vec![0, 5, 6, 0]];
    let rd: Vec<i32> = routes.iter().map(|r| route_dist(r, dm)).collect();
    for seed in 1..20u64 {
        let mut rng = seed;
        match try_relocate(&routes, &rd, &ch, &mut rng, dm, 4, 1000) {
            SaResult::Delta { delta_pen, change } => {
                assert_ne!(change.r1, change.r2);
                assert_eq!(change.route1.len(), 3);
                assert_eq!(change.route2.len(), 5);
                let moved: Vec<usize> = routes[change.r1].iter().copied().filter(|x| !change.route1.contains(x)).collect();
                assert_eq!(moved.len(), 1);
                assert!(change.route2.contains(&moved[0]));
                assert_eq!(change.dist1, route_dist(&change.route1, dm));
                assert_eq!(change.dist2, route_dist(&change.route2, dm));
                assert_eq!(
                    delta_pen,
                    change.dist1 as i64 + change.dist2 as i64 - rd[change.r1] as i64 - rd[change.r2] as i64
                );
            }
            SaResult::Failed => {}
            SaResult::Full(_) => panic!("a relocation never rebuilds every route"),
        }
    }
}

#[test]
fn primal_destroy_then_repair_restores_customers() {
    let ch = star();
    let mut routes: Vec<Vec<usize>> = vec![vec![0, 1, 2, 3, 0], vec![0, 5, 6, 7, 0]];
    let mut rd = vec![9, 9];
    let mut rng = XorshiftRng { state: 12345 };
    let removed = destroy_random(&mut routes, &mut rd, &ch, &mut rng, 3);
    assert_eq!(removed.len(), 3);
    let c = customer_counts(&routes, ch.num_nodes);
    for &x in &removed {
        assert_eq!(c[x], 0);
    }
    assert_eq!(c.iter().sum::<usize>(), 3);
    for (r, &d) in routes.iter().zip(rd.iter()) {
        assert_eq!(d, r.iter().map(|&x| ch.demands[x]).sum::<i32>());
    }
    let all = destroy_random(&mut routes.clone(), &mut rd.clone(), &ch, &mut rng, 50);
    assert_eq!(all.len(), 3);
    repair_greedy(&mut routes, &mut rd, &ch, &mut rng, removed);
    let c = customer_counts(&routes, ch.num_nodes);
    for x in [1, 2, 3, 5, 6, 7] {
        assert_eq!(c[x], 1);
    }
    assert_eq!(rd.len(), routes.len());
    for (r, &d) in routes.iter().zip(rd.iter()) {
        assert_eq!(d, r.iter().map(|&x| ch.demands[x]).sum::<i32>());
        assert!(is_time_feasible(r, &ch.distance_matrix, ch.service_time, &ch.ready_times, &ch.due_times));
    }
}

#[test]
fn primal_segment_swap_and_local_search_never_lengthen() {
    let ch = star();
    let dm = &ch.distance_matrix;
    let mut routes: Vec<Vec<usize>> = vec![vec![0, 1, 6, 7, 0], vec![0, 5, 2, 3, 0]];
    let mut rd: Vec<i32> = vec![9, 9];
    let before = length(&routes, dm);
    let found = segment_swap_pass(&mut routes, &mut rd, &ch, &Instant::now());
    let after = length(&routes, dm);
    assert!(after <= before);
    if found {
        assert!(after < before);
    }
    let c = customer_counts(&routes, ch.num_nodes);
    assert_eq!((c[1], c[2], c[3], c[5], c[6], c[7]), (1, 1, 1, 1, 1, 1));
    let mut sol = Solution { routes: vec![vec![0, 1, 6, 7, 0], vec![0, 5, 2, 3, 0]] };
    let mut rd2: Vec<i32> = vec![9, 9];
    local_search_loop(&mut sol, &mut rd2, &ch, &nearest_lists(&ch), &Instant::now());
    assert!(length(&sol.routes, dm) < before);
    let c = customer_counts(&sol.routes, ch.num_nodes);
    assert_eq!((c[1], c[2], c[3], c[5], c[6], c[7]), (1, 1, 1, 1, 1, 1));
    for (r, &d) in sol.routes.iter().zip(rd2.iter()) {
        assert_eq!(d, r.iter().map(|&x| ch.demands[x]).sum::<i32>());
    }
}

#[test]
fn sharp_local_search_shortens_and_keeps_customers() {
    let ch = star();
    let dm = &ch.distance_matrix;
    let mut sol = Solution { routes: vec![vec![0, 1, 6, 7, 0], vec![0, 5, 2, 3, 0]] };
    let mut rd = compute_route_demand(&sol.routes, &ch.demands);
    let before = length(&sol.routes, dm);
    let budget = Duration::from_secs(30);
    run_local_search(&mut sol, &mut rd, dm, &ch.ready_times, &ch.due_times, 1, &ch.demands, 20, &Instant::now(), &budget);
    assert!(length(&sol.routes, dm) < before);
    assert_eq!(rd, compute_route_demand(&sol.routes, &ch.demands));
    let c = customer_counts(&sol.routes, ch.num_nodes);
    assert_eq!((c[1], c[2], c[3], c[5], c[6], c[7]), (1, 1, 1, 1, 1, 1));
}

#[test]
fn greedy_place_opens_a_route_only_when_nothing_fits() {
    let mut ch = star();
    ch.max_capacity = 6;
    let mut routes = vec![vec![0, 1, 2, 0]];
    let mut rd = vec![6];
    greedy_place(&mut routes, &mut rd, &ch, 3);
    assert_eq!(routes, vec![vec![0, 1, 2, 0], vec![0, 3, 0]]);
    assert_eq!(rd, vec![6, 3]);
    greedy_place(&mut routes, &mut rd, &ch, 4);
    assert_eq!(routes, vec![vec![0, 1, 2, 0], vec![0, 4, 3, 0]]);
    assert_eq!(rd, vec![6, 6]);
}

#[test]
fn regret_step_inserts_at_first_cheapest_slot() {
    let ch = star();
    let mut routes = vec![vec![0, 1, 0]];
    let mut rd = vec![3];
    let mut pending = vec![2];
    regret_k_step(&mut routes, &mut rd, &ch, &mut pending, 2);
    assert_eq!(routes, vec![vec![0, 2, 1, 0]]);
    assert_eq!(rd, vec![6]);
    assert!(pending.is_empty());
}

#[test]
fn greedy_insert_step_inserts_or_opens_when_full() {
    let mut ch = star();
    let nn = nearest_lists(&ch);
    let mut routes = vec![vec![0, 1, 0]];
    let mut loads = vec![3];
    let mut pending = vec![2];
    greedy_insert_step(&mut routes, &mut loads, &mut pending, &ch, &nn);
    assert_eq!(routes, vec![vec![0, 2, 1, 0]]);
    assert_eq!(loads, vec![6]);
    assert!(pending.is_empty());
    ch.max_capacity = 6;
    let mut pending = vec![3];
    greedy_insert_step(&mut routes, &mut loads, &mut pending, &ch, &nn);
    assert_eq!(routes, vec![vec![0, 2, 1, 0], vec![0, 3, 0]]);
    assert_eq!(loads, vec![6, 3]);
}

#[test]
fn regret_insert_step_opens_a_route_for_a_customer_that_fits_nowhere() {
    let mut ch = star();
    ch.max_capacity = 3;
    let nn = nearest_lists(&ch);
    let mut routes = vec![vec![0, 1, 0]];
    let mut loads = vec![3];
    let mut pending = vec![5];
    regret_insert_step(&mut routes, &mut loads, &mut pending, &ch, &nn);
    assert_eq!(routes, vec![vec![0, 1, 0], vec![0, 5, 0]]);
    assert_eq!(loads, vec![3, 3]);
    assert!(pending.is_empty());
}

#[test]
fn regret_construction_seeds_the_farthest_customer_first() {
    let ch = star();
    let mut routes: Vec<Vec<usize>> = Vec::new();
    let mut rd: Vec<i32> = Vec::new();
    let mut placed = vec![true, false, false, false, false, false, false, false, false];
    assert!(regret_construction_step(&mut routes, &mut rd, &mut placed, &ch, 2));
    assert_eq!(routes, vec![vec![0, 8, 0]]);
    assert_eq!(rd, vec![3]);
    assert!(placed[8]);
}

#[test]
fn primal_neighbour_lists_are_nearest_first() {
    let ch = star();
    let nb = pv_neighbors(&ch);
    assert_eq!(nb.len(), 9);
    assert!(nb[0].is_empty());
    assert_eq!(nb[1], vec![2, 5, 3, 6, 4, 7, 8]);
}

#[test]
fn primal_round_plans() {
    let p = round_plan(0, 12, 100);
    assert_eq!((p.num_remove, p.kind, p.use_regret), (20, DestroyKind::Random, true));
    let p = round_plan(5, 9, 30);
    assert_eq!((p.num_remove, p.kind, p.use_regret), (10, DestroyKind::Shaw, false));
    let p = round_plan(1, 0, 5);
    assert_eq!((p.num_remove, p.kind, p.use_regret), (5, DestroyKind::Worst, false));
}

#[test]
fn primal_lns_round_accepts_only_shorter() {
    let ch = star();
    let nb = pv_neighbors(&ch);
    let start = Instant::now();
    let mut rng = XorshiftRng { state: 7 };
    let mut best = Solution { routes: vec![vec![0, 1, 0], vec![0, 2, 0], vec![0, 5, 6, 0]] };
    let before = length(&best.routes, &ch.distance_matrix);
    assert_eq!(before, 100);
    let cand = Solution { routes: vec![vec![0, 1, 0], vec![0, 5, 6, 0]] };
    let improved = pv_lns_iteration(&mut best, cand, vec![3, 6], vec![2], false, &ch, &mut rng, &nb, &start);
    assert!(improved);
    assert!(length(&best.routes, &ch.distance_matrix) < before);
    let c = customer_counts(&best.routes, ch.num_nodes);
    for x in [1, 2, 5, 6] {
        assert_eq!(c[x], 1);
    }
    let cand = Solution { routes: vec![vec![0, 1, 0]] };
    let mut same = Solution { routes: vec![vec![0, 2, 1, 0]] };
    let improved = pv_lns_iteration(&mut same, cand, vec![3], vec![2], false, &ch, &mut rng, &nb, &start);
    assert!(!improved);
    assert_eq!(same.routes, vec![vec![0, 2, 1, 0]]);
}
