use vehicle_routing::algorithm::{is_feasible, route_dist};
use vehicle_routing::model::Challenge;
use vehicle_routing::schedule::RouteMeta;

fn make_challenge(
    positions: Vec<(i32, i32)>,
    demands: Vec<i32>,
    ready: Vec<i32>,
    due: Vec<i32>,
    capacity: i32,
    fleet: usize,
    service: i32,
) -> Challenge {
    let n = positions.len();
    let dm: Vec<Vec<i32>> = positions
        .iter()
        .map(|&a| {
            positions
                .iter()
                .map(|&b| {
                    let dx = (a.0 - b.0) as f64;
                    let dy = (a.1 - b.1) as f64;
                    dx.hypot(dy).round() as i32
                })
                .collect()
        })
        .collect();
    Challenge {
        seed: [0u8; 32],
        num_nodes: n,
        demands,
        node_positions: positions,
        distance_matrix: dm,
        max_capacity: capacity,
        fleet_size: fleet,
        service_time: service,
        ready_times: ready,
        due_times: due,
    }
}

#[test]
fn route_meta_forward_matches_is_feasible() {
    let ch = make_challenge(
        vec![(0, 0), (10, 0), (20, 0), (30, 0)],
        vec![0, 5, 5, 5],
        vec![0, 0, 0, 0],
        vec![1000, 100, 200, 300],
        200,
        2,
        10,
    );
    let route = vec![0, 1, 2, 3, 0];
    assert!(is_feasible(&route, &ch));
    let meta = RouteMeta::compute(&route, &ch);
    assert_eq!(meta.load, 15);
    assert_eq!(meta.dist, route_dist(&route, &ch.distance_matrix));
    assert_eq!(meta.earliest_depart[0], 0);
    assert_eq!(meta.earliest_depart[1], 10 + 10); // arrive 10, ready 0, +service 10
}

#[test]
fn route_meta_removal_agrees_with_is_feasible() {
    let ch = make_challenge(
        vec![(0, 0), (10, 0), (20, 0), (30, 0), (15, 15)],
        vec![0, 5, 5, 5, 5],
        vec![0, 0, 0, 0, 0],
        vec![1000, 100, 200, 300, 200],
        200,
        2,
        10,
    );
    let route = vec![0, 1, 2, 3, 0];
    let meta = RouteMeta::compute(&route, &ch);
    let dm = &ch.distance_matrix;

    for pos in 1..route.len() - 1 {
        let fast = meta.check_removal_feasible(&route, pos, dm);
        let mut removed = route.clone();
        removed.remove(pos);
        let slow = removed.len() <= 2 || is_feasible(&removed, &ch);
        assert_eq!(fast, slow, "Removal mismatch at pos {} (cust {})", pos, route[pos]);
    }
}

#[test]
fn route_meta_insertion_agrees_with_is_feasible() {
    let ch = make_challenge(
        vec![(0, 0), (10, 0), (20, 0), (30, 0), (15, 15)],
        vec![0, 5, 5, 5, 5],
        vec![0, 0, 0, 0, 0],
        vec![1000, 100, 200, 300, 200],
        200,
        2,
        10,
    );
    let route = vec![0, 1, 3, 0]; // missing customer 2 and 4
    let meta = RouteMeta::compute(&route, &ch);

    for &cust in &[2usize, 4] {
        for ins in 1..route.len() {
            let fast = meta.check_insertion_feasible(&route, ins, cust, &ch);
            let mut inserted = route.clone();
            inserted.insert(ins, cust);
            let slow = is_feasible(&inserted, &ch);
            assert_eq!(
                fast, slow,
                "Insertion mismatch: cust {} at pos {} (fast={}, slow={})",
                cust, ins, fast, slow
            );
        }
    }
}

#[test]
fn route_meta_tight_time_windows() {
    let ch = make_challenge(
        vec![(0, 0), (10, 0), (20, 0), (30, 0)],
        vec![0, 3, 3, 3],
        vec![0, 8, 25, 45],   // tight ready times
        vec![500, 15, 35, 55], // tight due times
        100,
        2,
        10,
    );
    let route = vec![0, 1, 2, 3, 0];
    assert!(is_feasible(&route, &ch));
    let meta = RouteMeta::compute(&route, &ch);
    let dm = &ch.distance_matrix;

    for pos in 1..route.len() - 1 {
        let fast = meta.check_removal_feasible(&route, pos, dm);
        let mut removed = route.clone();
        removed.remove(pos);
        let slow = removed.len() <= 2 || is_feasible(&removed, &ch);
        assert_eq!(fast, slow, "Tight TW removal mismatch at pos {}", pos);
    }

    let base = vec![0, 1, 0];
    let meta_base = RouteMeta::compute(&base, &ch);
    for &cust in &[2usize, 3] {
        for ins in 1..base.len() {
            let fast = meta_base.check_insertion_feasible(&base, ins, cust, &ch);
            let mut inserted = base.clone();
            inserted.insert(ins, cust);
            let slow = is_feasible(&inserted, &ch);
            assert_eq!(fast, slow, "Tight TW insertion mismatch: cust {} at pos {}", cust, ins);
        }
    }
}

#[test]
fn route_meta_insertion_due_time_violation() {
    let ch = make_challenge(
        vec![(0, 0), (100, 0), (200, 0)],
        vec![0, 5, 5],
        vec![0, 0, 0],
        vec![500, 50, 300],
        100,
        2,
        10,
    );
    // Customer 1 has due_time=50 but is at distance 100 from depot → infeasible to insert
    let route = vec![0, 2, 0];
    let meta = RouteMeta::compute(&route, &ch);
    let fast = meta.check_insertion_feasible(&route, 1, 1, &ch);
    let mut test = route.clone();
    test.insert(1, 1);
    let slow = is_feasible(&test, &ch);
    assert_eq!(fast, slow);
    assert!(!fast); // distance 100 > due_time 50
}

#[test]
fn relocate_fast_distance_matches_full_recompute() {
    let ch = make_challenge(
        vec![(0, 0), (10, 0), (20, 0), (30, 0), (10, 10), (20, 10)],
        vec![0, 5, 5, 5, 5, 5],
        vec![0, 0, 0, 0, 0, 0],
        vec![1000, 200, 200, 200, 200, 200],
        100,
        2,
        10,
    );
    let dm = &ch.distance_matrix;
    let routes = vec![vec![0, 1, 2, 3, 0], vec![0, 4, 5, 0]];
    let rd: Vec<i32> = routes.iter().map(|r| route_dist(r, dm)).collect();
    let _metas: Vec<RouteMeta> = routes.iter().map(|r| RouteMeta::compute(r, &ch)).collect();

    // Manually relocate: move customer 2 from route 0 to route 1
    let src = 0;
    let pos = 2;
    let cust = 2;
    let dst = 1;
    let bi = 2; // insert between 4 and 5

    let prev_s = routes[src][pos - 1];
    let next_s = routes[src][pos + 1];
    let analytical_nsd = rd[src] - dm[prev_s][cust] - dm[cust][next_s] + dm[prev_s][next_s];
    let bc = dm[routes[dst][bi - 1]][cust] + dm[cust][routes[dst][bi]] - dm[routes[dst][bi - 1]][routes[dst][bi]];
    let analytical_ndd = rd[dst] + bc;

    let mut ns = routes[src].clone();
    ns.remove(pos);
    let mut nd = routes[dst].clone();
    nd.insert(bi, cust);
    let actual_nsd = route_dist(&ns, dm);
    let actual_ndd = route_dist(&nd, dm);

    assert_eq!(analytical_nsd, actual_nsd, "Source distance mismatch");
    assert_eq!(analytical_ndd, actual_ndd, "Dest distance mismatch");
}
