use vehicle_routing::algorithm::rand_index;
use vehicle_routing::destroy::{random_removal, shaw_removal};
use vehicle_routing::model::Challenge;
use vehicle_routing::pv_regret::regret_k_step;
use vehicle_routing::repair::regret_insert_step;
use vehicle_routing::sharp_orbit::compute_route_demand;
use vehicle_routing::silver_nova::{build_locator, Ctx, Route, Sol};
use vehicle_routing::sn_lns::remove_and_repair;
use vehicle_routing::sn_passes::{relocate_pass, vnd};
use vehicle_routing::so_lns::reinsert_nodes;

fn instance(positions: Vec<(i32, i32)>, demands: Vec<i32>, cap: i32) -> Challenge {
    let n = positions.len();
    let dm: Vec<Vec<i32>> = positions
        .iter()
        .map(|&a| {
            positions
                .iter()
                .map(|&b| {
                    let dx = (a.0 - b.0) as f64;
                    let dy = (a.1 - b.1) as f64;
                    dx.hypot(dy).round() as i32
                })
                .collect()
        })
        .collect();
    Challenge {
        seed: [0u8; 32],
        num_nodes: n,
        demands,
        node_positions: positions,
        distance_matrix: dm,
        max_capacity: cap,
        fleet_size: 4,
        service_time: 1,
        ready_times: vec![0; n],
        due_times: vec![10_000; n],
    }
}

/// A depot and customers on two rays: 1, 2, 3 along x, 5, 6 along y.
fn rays(cap: i32) -> Challenge {
    instance(
        vec![(0, 0), (10, 0), (20, 0), (30, 0), (40, 0), (0, 10), (0, 20), (0, 30), (0, 40)],
        vec![0, 3, 3, 3, 3, 3, 3, 3, 3],
        cap,
    )
}

fn silver_routes(ctx: &Ctx, routes: &[Vec<u32>]) -> Sol {
    let mut rs = Vec::new();
    for r in routes {
        let mut route = Route { seq: r.clone(), arr: vec![], lat: vec![], demand_sum: 0, dist: 0 };
        route.recompute(ctx);
        rs.push(route);
    }
    let mut sol = Sol { routes: rs, total_dist: 0 };
    sol.recompute_total();
    sol
}

fn silver_nodes(sol: &Sol) -> Vec<Vec<u32>> {
    sol.routes.iter().map(|r| r.seq.clone()).collect()
}

#[test]
fn regret_k_takes_the_largest_regret_not_the_cheapest() {
    // Customer 6 has the cheapest insertion (20, next to 5) but regret 8; customer
    // 3 costs 20 in the first route and 52 in the second, regret 32, so it goes first.
    let ch = rays(20);
    let mut routes = vec![vec![0, 1, 2, 0], vec![0, 5, 0]];
    let mut rd = vec![6, 3];
    let mut pending = vec![6, 3];
    regret_k_step(&mut routes, &mut rd, &ch, &mut pending, 2);
    assert_eq!(routes, vec![vec![0, 1, 3, 2, 0], vec![0, 5, 0]]);
    assert_eq!(rd, vec![9, 3]);
    assert_eq!(pending, vec![6]);
}

#[test]
fn regret_insertion_takes_the_largest_regret_first() {
    let ch = rays(20);
    let mut routes = vec![vec![0, 1, 2, 0], vec![0, 5, 0]];
    let mut loads = vec![6, 3];
    let mut pending = vec![6, 3];
    let mut nn: Vec<Vec<usize>> = vec![Vec::new(); ch.num_nodes];
    nn[3] = vec![1, 5];
    nn[6] = vec![1, 5];
    regret_insert_step(&mut routes, &mut loads, &mut pending, &ch, &nn);
    assert_eq!(routes, vec![vec![0, 1, 3, 2, 0], vec![0, 5, 0]]);
    assert_eq!(pending, vec![6]);
}

#[test]
fn silver_repair_puts_each_customer_at_its_cheapest_place() {
    let ch = rays(20);
    let ctx = Ctx::build(&ch);
    let mut sol = silver_routes(&ctx, &[vec![0, 1, 3, 2, 0], vec![0, 5, 6, 0]]);
    let mut loc = build_locator(&ctx, &sol);
    remove_and_repair(&ctx, &mut sol, &mut loc, vec![6, 3]);
    assert_eq!(silver_nodes(&sol), vec![vec![0, 1, 3, 2, 0], vec![0, 6, 5, 0]]);
    for r in &sol.routes {
        assert!(r.is_feasible(&ctx));
        assert!(r.demand_sum <= ctx.cap);
    }
}

#[test]
fn silver_relocation_keeps_routes_feasible() {
    let ch = rays(20);
    let ctx = Ctx::build(&ch);
    let mut sol = silver_routes(&ctx, &[vec![0, 1, 6, 0], vec![0, 5, 2, 0]]);
    for r in &sol.routes {
        assert!(r.is_feasible(&ctx));
    }
    let mut loc = build_locator(&ctx, &sol);
    assert!(relocate_pass(&ctx, &mut sol, &mut loc));
    for r in &sol.routes {
        assert!(r.is_feasible(&ctx));
        assert!(r.demand_sum <= ctx.cap);
    }
}

#[test]
fn shaw_takes_the_first_fresh_related_customer() {
    let routes = vec![vec![0, 1, 2, 3, 0], vec![0, 5, 6, 0]];
    let customers = [1usize, 2, 3, 5, 6];
    let mut nn: Vec<Vec<usize>> = vec![Vec::new(); 9];
    for &c in &customers {
        nn[c] = customers.iter().copied().filter(|&x| x != c).collect();
    }
    let mut rng: u64 = 12345;
    let out = shaw_removal(&routes, 3, &nn, &mut rng);
    let mut expect_rng: u64 = 12345;
    let seed = customers[rand_index(&mut expect_rng, 5)];
    let rest: Vec<usize> = customers.iter().copied().filter(|&x| x != seed).collect();
    let _ = rand_index(&mut expect_rng, 1);
    let _ = rand_index(&mut expect_rng, 2);
    assert_eq!(out, vec![seed, rest[0], rest[1]]);
    assert_eq!(rng, expect_rng);
}

#[test]
fn random_removal_follows_the_partial_shuffle() {
    let routes = vec![vec![0, 1, 2, 3, 0]];
    let mut rng: u64 = 99;
    let out = random_removal(&routes, 2, &mut rng);
    let mut custs = vec![1usize, 2, 3];
    let mut expect_rng: u64 = 99;
    let j0 = rand_index(&mut expect_rng, 3);
    custs.swap(0, j0);
    let j1 = 1 + rand_index(&mut expect_rng, 2);
    custs.swap(1, j1);
    assert_eq!(out, vec![custs[0], custs[1]]);
    assert_eq!(rng, expect_rng);
}

#[test]
fn reinsertion_goes_to_the_first_cheapest_place() {
    let ch = rays(20);
    let mut routes = vec![vec![0, 1, 2, 0], vec![0, 5, 0]];
    let mut rd = compute_route_demand(&routes, &ch.demands);
    reinsert_nodes(&mut routes, &mut rd, vec![3], &ch.distance_matrix, &ch.ready_times, &ch.due_times, 1, &ch.demands, 20);
    assert_eq!(routes, vec![vec![0, 1, 3, 2, 0], vec![0, 5, 0]]);
    assert_eq!(rd, vec![9, 3]);
}

#[test]
fn reinsertion_respects_the_capacity() {
    let ch = rays(7);
    let mut routes = vec![vec![0, 1, 2, 0], vec![0, 5, 0]];
    let mut rd = compute_route_demand(&routes, &ch.demands);
    reinsert_nodes(&mut routes, &mut rd, vec![3], &ch.distance_matrix, &ch.ready_times, &ch.due_times, 1, &ch.demands, 7);
    assert_eq!(routes, vec![vec![0, 1, 2, 0], vec![0, 3, 5, 0]]);
    let mut routes = vec![vec![0, 1, 2, 0], vec![0, 5, 0]];
    let mut rd = compute_route_demand(&routes, &ch.demands);
    reinsert_nodes(&mut routes, &mut rd, vec![3], &ch.distance_matrix, &ch.ready_times, &ch.due_times, 1, &ch.demands, 5);
    assert_eq!(routes, vec![vec![0, 1, 2, 0], vec![0, 5, 0], vec![0, 3, 0]]);
}

#[test]
fn silver_descent_keeps_routes_feasible() {
    let ch = rays(12);
    let ctx = Ctx::build(&ch);
    let mut sol = silver_routes(&ctx, &[vec![0, 1, 6, 3, 0], vec![0, 5, 2, 0], vec![0, 4, 7, 0]]);
    for r in &sol.routes {
        assert!(r.is_feasible(&ctx) && r.demand_sum <= ctx.cap);
    }
    let mut loc = build_locator(&ctx, &sol);
    let mut rng: u64 = 5;
    vnd(&ctx, &mut sol, &mut loc, &std::time::Instant::now(), &mut rng);
    for r in &sol.routes {
        assert!(r.is_feasible(&ctx));
        assert!(r.demand_sum <= ctx.cap);
    }
}
