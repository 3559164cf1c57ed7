//! Route elimination for the time-window solver that keeps a demand per route:
//! a route goes when all its customers fit elsewhere for less than the route
//! costs.
use vstd::prelude::*;
use vstd::multiset::Multiset;
use std::time::Instant;
use crate::model::{
    all_custs, custs, cust1, rv, in_limit, route_len, total_len, nodes_below, Challenge, LEN_LIMIT, VALUE_LIMIT,
    lemma_custs_insert, lemma_all_custs_update, lemma_all_custs_remove, lemma_route_len_insert,
};
use crate::algorithm::{copy_route, copy_routes, ins_cost, route_dist, lemma_route_len_nonneg, lemma_route_len_upper, all_proper};
use crate::model::proper;
use crate::repair::lemma_insert_proper;
use crate::construct::{total_nodes, lemma_total_nodes};
use crate::improve::{elapsed_since, whole_millis, lemma_total_len_update};
use crate::primal_viper::{time_feasible, cheapest_time_insertion, tw_insert_ok, lemma_custs_nonzero};
use crate::pv_passes::{dsum, pv_state, demands_exact, lemma_dsum_concat, lemma_dsum_bounds, TIME_LIMIT_MS};
use crate::so_passes::lemma_total_len_remove;
use crate::so_lns::indices_by_size;

verus! {

/// The outcome of trying to place customers into routes: the routes and demands
/// after placing them, and the total cost of the insertions; `None` when one of
/// them fits nowhere.
pub open spec fn placed_ok(
    ch: Challenge,
    base: Seq<Seq<usize>>,
    base_d: Seq<i32>,
    placed: Seq<usize>,
    rs: Seq<Seq<usize>>,
    rd: Seq<i32>,
    cost: int,
) -> bool {
    &&& pv_state(ch, rs, rd)
    &&& demands_exact(ch, rs, rd)
    &&& all_proper(rs)
    &&& rs.len() == base.len()
    &&& all_custs(rs) == all_custs(base).add(placed.to_multiset())
    &&& total_len(ch.distance_matrix@, rs) == total_len(ch.distance_matrix@, base) + cost
    &&& forall|k: int| 0 <= k < rs.len() ==> #[trigger] rs[k] == base[k] && rd[k] == base_d[k]
        || time_feasible(ch.distance_matrix@, ch.service_time as int, ch.ready_times@, ch.due_times@, rs[k])
        && rd[k] <= ch.max_capacity
}

/// `(sr, pos)` is the first cheapest place for customer `c`, in route and
/// position order, among those with room and within the time windows.
pub open spec fn first_cheapest_place(ch: Challenge, rs: Seq<Seq<usize>>, rd: Seq<i32>, c: usize, sr: int, pos: int) -> bool {
    &&& tw_insert_ok(ch, rs, rd, c, sr, pos)
    &&& forall|r2: int, p2: int| #[trigger] tw_insert_ok(ch, rs, rd, c, r2, p2)
        ==> ins_cost(ch.distance_matrix@, rs[sr], pos, c) <= ins_cost(ch.distance_matrix@, rs[r2], p2, c)
    &&& forall|r2: int, p2: int| (r2 < sr || r2 == sr && p2 < pos) && #[trigger] tw_insert_ok(ch, rs, rd, c, r2, p2)
        ==> ins_cost(ch.distance_matrix@, rs[sr], pos, c) < ins_cost(ch.distance_matrix@, rs[r2], p2, c)
}

/// The routes and demands after placing the customers `cs` in order, each at
/// its first cheapest place; `None` when one of them has no place.
pub open spec fn greedy_placed(ch: Challenge, rs: Seq<Seq<usize>>, rd: Seq<i32>, cs: Seq<usize>) -> Option<(Seq<Seq<usize>>, Seq<i32>)>
    decreases cs.len(),
{
    if cs.len() == 0 {
        Some((rs, rd))
    } else {
        let c = cs[0];
        if exists|sr: int, pos: int| first_cheapest_place(ch, rs, rd, c, sr, pos) {
            let (sr, pos) = choose|sr: int, pos: int| first_cheapest_place(ch, rs, rd, c, sr, pos);
            greedy_placed(ch, rs.update(sr, rs[sr].insert(pos, c)), rd.update(sr, (rd[sr] + ch.demand(c)) as i32), cs.drop_first())
        } else {
            None
        }
    }
}

/// There is one first cheapest place.
proof fn lemma_first_cheapest_place(ch: Challenge, rs: Seq<Seq<usize>>, rd: Seq<i32>, c: usize, sr: int, pos: int)
    requires
        first_cheapest_place(ch, rs, rd, c, sr, pos),
    ensures
        (choose|a: int, b: int| first_cheapest_place(ch, rs, rd, c, a, b)) == (sr, pos),
{
    let (a, b) = choose|a: int, b: int| first_cheapest_place(ch, rs, rd, c, a, b);
    assert(first_cheapest_place(ch, rs, rd, c, a, b));
    assert(tw_insert_ok(ch, rs, rd, c, a, b));
    assert(tw_insert_ok(ch, rs, rd, c, sr, pos));
    if a < sr || a == sr && b < pos {
        assert(ins_cost(ch.distance_matrix@, rs[sr], pos, c) < ins_cost(ch.distance_matrix@, rs[a], b, c));
    } else if sr < a || sr == a && pos < b {
        assert(ins_cost(ch.distance_matrix@, rs[a], b, c) < ins_cost(ch.distance_matrix@, rs[sr], pos, c));
    }
}

/// Placing the first customer at its first cheapest place is the first step.
proof fn lemma_greedy_step(ch: Challenge, rs: Seq<Seq<usize>>, rd: Seq<i32>, cs: Seq<usize>, sr: int, pos: int)
    requires
        cs.len() > 0,
        first_cheapest_place(ch, rs, rd, cs[0], sr, pos),
    ensures
        greedy_placed(ch, rs, rd, cs) == greedy_placed(ch, rs.update(sr, rs[sr].insert(pos, cs[0])),
            rd.update(sr, (rd[sr] + ch.demand(cs[0])) as i32), cs.drop_first()),
{
    lemma_first_cheapest_place(ch, rs, rd, cs[0], sr, pos);
}

/// A first customer with no place leaves no placing.
proof fn lemma_greedy_stuck(ch: Challenge, rs: Seq<Seq<usize>>, rd: Seq<i32>, cs: Seq<usize>)
    requires
        cs.len() > 0,
        forall|r2: int, p2: int| !#[trigger] tw_insert_ok(ch, rs, rd, cs[0], r2, p2),
    ensures
        greedy_placed(ch, rs, rd, cs) is None,
{
    let c = cs[0];
    if exists|a: int, b: int| first_cheapest_place(ch, rs, rd, c, a, b) {
        let (a, b) = choose|a: int, b: int| first_cheapest_place(ch, rs, rd, c, a, b);
        assert(tw_insert_ok(ch, rs, rd, c, a, b));
    }
}

/// Places the customers one by one at their cheapest time-feasible insertion
/// (see `cheapest_time_insertion`), summing the insertion costs; gives up with
/// `None` as soon as one fits nowhere.
#[verifier::rlimit(80)]
#[verifier::spinoff_prover]
fn place_all(
    routes: Vec<Vec<usize>>,
    route_demand: Vec<i32>,
    customers: &Vec<usize>,
    ch: &Challenge,
) -> (res: Option<(Vec<Vec<usize>>, Vec<i32>, i32)>)
    requires
        pv_state(*ch, rv(routes@), route_demand@),
        demands_exact(*ch, rv(routes@), route_demand@),
        all_proper(rv(routes@)),
        total_nodes(rv(routes@)) + customers@.len() <= LEN_LIMIT,
        forall|q: int| 0 <= q < customers@.len() ==> 0 < #[trigger] customers@[q] < ch.num_nodes,
    ensures
        res matches Some((rs, rd, cost)) ==> placed_ok(*ch, rv(routes@), route_demand@, customers@, rv(rs@), rd@, cost as int),
        res is None <==> greedy_placed(*ch, rv(routes@), route_demand@, customers@) is None,
        res matches Some((rs, rd, cost)) ==> greedy_placed(*ch, rv(routes@), route_demand@, customers@) == Some((rv(rs@), rd@)),
{
    let ghost base = rv(routes@);
    let ghost base_d = route_demand@;
    let mut cur = routes;
    let mut cur_d = route_demand;
    let mut total: i32 = 0;
    let mut k: usize = 0;
    proof {
        assert(customers@.subrange(0, customers@.len() as int) =~= customers@);
        assert(customers@.subrange(0, 0).to_multiset() =~= Multiset::<usize>::empty()) by {
            vstd::seq_lib::to_multiset_len(customers@.subrange(0, 0));
            vstd::multiset::lemma_multiset_empty_len(customers@.subrange(0, 0).to_multiset());
        }
        assert(all_custs(base) =~= all_custs(base).add(customers@.subrange(0, 0).to_multiset())) by {
            broadcast use vstd::multiset::group_multiset_axioms;
        }
        if base.len() > 0 {
            lemma_total_nodes(base, 0, base[0]);
        }
    }
    while k < customers.len()
        invariant
            placed_ok(*ch, base, base_d, customers@.subrange(0, k as int), rv(cur@), cur_d@, total as int),
            total_nodes(rv(cur@)) == total_nodes(base) + k,
            total_nodes(base) + customers@.len() <= LEN_LIMIT,
            total_nodes(base) >= 0,
            forall|q: int| 0 <= q < customers@.len() ==> 0 < #[trigger] customers@[q] < ch.num_nodes,
            k <= customers@.len(),
            -100_000 * k <= total <= 200_000 * k,
            greedy_placed(*ch, rv(cur@), cur_d@, customers@.subrange(k as int, customers@.len() as int))
                == greedy_placed(*ch, base, base_d, customers@),
            base == rv(routes@),
            base_d == route_demand@,
        decreases customers.len() - k,
    {
        let c = customers[k];
        let ghost rs = rv(cur@);
        let ghost rdv = cur_d@;
        let ghost pre = customers@.subrange(0, k as int);
        let ghost rest = customers@.subrange(k as int, customers@.len() as int);
        assert(customers@.subrange(0, k + 1) =~= pre.push(c));
        assert(rest[0] == c);
        assert(rest.drop_first() =~= customers@.subrange(k + 1, customers@.len() as int));
        proof {
            vstd::seq_lib::to_multiset_build(pre, c);
            if rs.len() > 0 {
                lemma_total_nodes(rs, 0, rs[0]);
            }
            assert forall|i: int| 0 <= i < cur@.len() implies ch.route_ok(#[trigger] cur@[i]@) && cur@[i]@.len() < usize::MAX by {
                assert(rs[i] == cur@[i]@);
            }
            assert forall|i: int| 0 <= i < cur_d@.len() implies #[trigger] cur_d@[i] <= i32::MAX - VALUE_LIMIT by {
                lemma_dsum_bounds(*ch, rs[i]);
                assert(VALUE_LIMIT * rs[i].len() <= VALUE_LIMIT * LEN_LIMIT) by (nonlinear_arith)
                    requires
                        rs[i].len() <= LEN_LIMIT,
                ;
            }
            assert(in_limit(ch.demands@[c as int]));
        }
        match cheapest_time_insertion(&cur, &cur_d, ch, c) {
            Some((sr, pos)) => {
                let r = &cur[sr];
                assert(rs[sr as int] == r@);
                let a = r[pos - 1];
                let b = r[pos];
                proof {
                    assert(ch.route_ok(r@));
                    assert(in_limit(ch.distance_matrix@[a as int]@[c as int]));
                    assert(in_limit(ch.distance_matrix@[c as int]@[b as int]));
                    assert(in_limit(ch.distance_matrix@[a as int]@[b as int]));
                    assert(-100_000 * k - 100_000 == -100_000 * (k + 1));
                    assert(200_000 * k + 200_000 == 200_000 * (k + 1));
                    assert(200_000 * (k + 1) <= 2_000_000_000) by (nonlinear_arith)
                        requires
                            k + 1 <= LEN_LIMIT,
                    ;
                }
                let cost = ch.distance_matrix[a][c] + ch.distance_matrix[c][b] - ch.distance_matrix[a][b];
                let mut nr = copy_route(r);
                nr.insert(pos, c);
                proof {
                    lemma_route_len_insert(ch.distance_matrix@, rs[sr as int], pos as int, c);
                    lemma_total_len_update(ch.distance_matrix@, rs, sr as int, nr@);
                    lemma_all_custs_update(rs, sr as int, nr@);
                    lemma_custs_insert(rs[sr as int], pos as int, c);
                    assert(cust1(c) =~= Multiset::singleton(c));
                    lemma_total_nodes(rs, sr as int, nr@);
                    lemma_insert_proper(rs[sr as int], pos as int, c);
                    let s = rs[sr as int];
                    let p1 = s.subrange(0, pos as int);
                    let p2 = s.subrange(pos as int, s.len() as int);
                    assert(s =~= p1 + p2);
                    assert(nr@ =~= (p1 + seq![c]) + p2);
                    lemma_dsum_concat(*ch, p1, p2);
                    lemma_dsum_concat(*ch, p1 + seq![c], p2);
                    lemma_dsum_concat(*ch, p1, seq![c]);
                    assert(seq![c].drop_last() =~= Seq::<usize>::empty());
                    assert(seq![c].last() == c);
                    assert(dsum(*ch, Seq::<usize>::empty()) == 0);
                    assert forall|x: int| 0 <= x < nr@.len() implies (#[trigger] nr@[x] as int) < ch.num_nodes by {
                        if x < pos {
                            assert(nr@[x] == s[x]);
                        } else if x > pos {
                            assert(nr@[x] == s[x - 1]);
                        }
                    }
                }
                proof {
                    assert(first_cheapest_place(*ch, rs, rdv, rest[0], sr as int, pos as int));
                    lemma_greedy_step(*ch, rs, rdv, rest, sr as int, pos as int);
                }
                let d = cur_d[sr] + ch.demands[c];
                cur.set(sr, nr);
                cur_d.set(sr, d);
                total = total + cost;
                proof {
                    assert(rv(cur@) =~= rs.update(sr as int, rs[sr as int].insert(pos as int, c)));
                    assert(cur_d@ =~= rdv.update(sr as int, (rdv[sr as int] + ch.demand(c)) as i32));
                    assert(rv(cur@) =~= rs.update(sr as int, rv(cur@)[sr as int]));
                    assert(all_custs(rv(cur@)) =~= all_custs(base).add(customers@.subrange(0, k + 1).to_multiset())) by {
                        broadcast use vstd::multiset::group_multiset_axioms;
                        assert forall|x: usize| all_custs(rv(cur@)).count(x) == all_custs(base).add(customers@.subrange(0, k + 1).to_multiset()).count(x) by {
                            assert(all_custs(rv(cur@)).add(custs(rs[sr as int])).count(x) == all_custs(rs).add(custs(rv(cur@)[sr as int])).count(x));
                        }
                    }
                    assert forall|i: int| 0 <= i < rv(cur@).len() implies ch.route_ok(#[trigger] rv(cur@)[i]) && proper(rv(cur@)[i]) by {
                        if i != sr {
                            assert(rv(cur@)[i] == rs[i]);
                        }
                    }
                    assert forall|i: int| 0 <= i < rv(cur@).len() implies #[trigger] cur_d@[i] == dsum(*ch, rv(cur@)[i]) by {
                        if i != sr {
                            assert(rv(cur@)[i] == rs[i]);
                            assert(rdv[i] == dsum(*ch, rs[i]));
                        }
                    }
                    assert forall|i: int| 0 <= i < rv(cur@).len() implies #[trigger] rv(cur@)[i] == base[i] && cur_d@[i] == base_d[i]
                        || time_feasible(ch.distance_matrix@, ch.service_time as int, ch.ready_times@, ch.due_times@, rv(cur@)[i])
                        && cur_d@[i] <= ch.max_capacity by {
                        if i != sr {
                            assert(rv(cur@)[i] == rs[i]);
                            assert(rs[i] == base[i] && rdv[i] == base_d[i]
                                || time_feasible(ch.distance_matrix@, ch.service_time as int, ch.ready_times@, ch.due_times@, rs[i])
                                && rdv[i] <= ch.max_capacity);
                        }
                    }
                }
            },
            None => {
                proof {
                    lemma_greedy_stuck(*ch, rs, rdv, rest);
                    assert(greedy_placed(*ch, rs, rdv, rest) is None);
                    assert(greedy_placed(*ch, base, base_d, customers@) is None);
                }
                return None;
            },
        }
        k += 1;
    }
    assert(customers@.subrange(0, k as int) =~= customers@);
    assert(customers@.subrange(k as int, customers@.len() as int) =~= Seq::<usize>::empty());
    Some((cur, cur_d, total))
}

/// Every route of `rs` is a route of `old` or meets its time windows and the
/// capacity by its recorded demand.
pub open spec fn from_or_valid(ch: Challenge, old: Seq<Seq<usize>>, rs: Seq<Seq<usize>>, rd: Seq<i32>) -> bool {
    forall|k: int| 0 <= k < rs.len() ==> old.contains(#[trigger] rs[k])
        || time_feasible(ch.distance_matrix@, ch.service_time as int, ch.ready_times@, ch.due_times@, rs[k])
        && rd[k] <= ch.max_capacity
}

/// The customers of route `r` placed on the other routes, each at its first
/// cheapest place (`greedy_placed`), with the route dropped.
pub open spec fn elim_result(ch: Challenge, rs: Seq<Seq<usize>>, rd: Seq<i32>, r: int) -> Option<(Seq<Seq<usize>>, Seq<i32>)> {
    greedy_placed(ch, rs.remove(r), rd.remove(r), rs[r].subrange(1, rs[r].len() - 1))
}

/// Route `r` has customers, they all find a place on the other routes, and the
/// solution gets shorter.
pub open spec fn eliminable(ch: Challenge, rs: Seq<Seq<usize>>, rd: Seq<i32>, r: int) -> bool {
    &&& 0 <= r < rs.len()
    &&& rs[r].len() > 2
    &&& elim_result(ch, rs, rd, r) is Some
    &&& total_len(ch.distance_matrix@, elim_result(ch, rs, rd, r).unwrap().0) < total_len(ch.distance_matrix@, rs)
}

/// Tries to eliminate route `r`: its customers are placed on the other routes
/// (see `place_all`), and the result replaces the solution when it is shorter.
fn try_eliminate(routes: &mut Vec<Vec<usize>>, route_demand: &mut Vec<i32>, ch: &Challenge, r: usize) -> (res: bool)
    requires
        pv_state(*ch, rv(old(routes)@), old(route_demand)@),
        demands_exact(*ch, rv(old(routes)@), old(route_demand)@),
        all_proper(rv(old(routes)@)),
    ensures
        res == eliminable(*ch, rv(old(routes)@), old(route_demand)@, r as int),
        res ==> (rv(final(routes)@), final(route_demand)@) == elim_result(*ch, rv(old(routes)@), old(route_demand)@, r as int)->0,
        pv_state(*ch, rv(final(routes)@), final(route_demand)@),
        demands_exact(*ch, rv(final(routes)@), final(route_demand)@),
        all_proper(rv(final(routes)@)),
        all_custs(rv(final(routes)@)) == all_custs(rv(old(routes)@)),
        res ==> final(routes)@.len() == old(routes)@.len() - 1,
        res ==> total_len(ch.distance_matrix@, rv(final(routes)@)) < total_len(ch.distance_matrix@, rv(old(routes)@)),
        res ==> from_or_valid(*ch, rv(old(routes)@), rv(final(routes)@), final(route_demand)@),
        !res ==> rv(final(routes)@) == rv(old(routes)@) && final(route_demand)@ == old(route_demand)@,
{
    let ghost rs = rv(routes@);
    let ghost rdv = route_demand@;
    if r >= routes.len() || routes[r].len() <= 2 {
        return false;
    }
    assert(rs[r as int] == routes@[r as int]@);
    proof {
        lemma_total_nodes(rs, r as int, rs[r as int]);
        lemma_route_len_upper(ch.distance_matrix@, rs[r as int]);
        lemma_route_len_nonneg(ch.distance_matrix@, rs[r as int]);
        assert(VALUE_LIMIT * rs[r as int].len() <= VALUE_LIMIT * LEN_LIMIT) by (nonlinear_arith)
            requires
                rs[r as int].len() <= LEN_LIMIT,
        ;
    }
    let rdist = route_dist(&routes[r], &ch.distance_matrix);
    let rlen = routes[r].len();
    let customers = crate::algorithm::join_slices(&routes[r], 1, rlen - 1, &routes[r], 0, 0);
    let mut sim_routes = copy_routes(routes);
    let mut sim_demand = copy_demands(route_demand);
    sim_routes.remove(r);
    sim_demand.remove(r);
    let ghost base = rs.remove(r as int);
    proof {
        assert(rv(sim_routes@) =~= base);
        assert(sim_demand@ =~= rdv.remove(r as int));
        lemma_total_nodes(rs, r as int, rs[r as int]);
        assert forall|i: int| 0 <= i < base.len() implies ch.route_ok(#[trigger] base[i]) && sim_demand@[i] == dsum(*ch, base[i]) && proper(base[i]) by {
            if i < r {
                assert(base[i] == rs[i]);
            } else {
                assert(base[i] == rs[i + 1]);
            }
        }
        assert(customers@ =~= rs[r as int].subrange(1, rlen - 1));
        assert forall|q: int| 0 <= q < customers@.len() implies 0 < #[trigger] customers@[q] < ch.num_nodes by {
            assert(customers@[q] == rs[r as int][q + 1]);
            assert(ch.route_ok(rs[r as int]));
            assert(proper(rs[r as int]));
        }
    }
    match place_all(sim_routes, sim_demand, &customers, ch) {
        Some((nr, nd, cost)) => {
            if cost < rdist {
                proof {
                    lemma_total_len_remove(ch.distance_matrix@, rs, r as int);
                    lemma_all_custs_remove(rs, r as int);
                    let rr = rs[r as int];
                    assert(rr =~= (seq![rr[0]] + customers@) + seq![rr[rr.len() - 1]]);
                    crate::model::lemma_custs_concat(seq![rr[0]] + customers@, seq![rr[rr.len() - 1]]);
                    crate::model::lemma_custs_concat(seq![rr[0]], customers@);
                    crate::model::lemma_custs_single(rr[0]);
                    crate::model::lemma_custs_single(rr[rr.len() - 1]);
                    assert forall|q: int| 0 <= q < customers@.len() implies #[trigger] customers@[q] != 0 by {
                    }
                    lemma_custs_nonzero(customers@);
                    assert(custs(rr) =~= customers@.to_multiset()) by {
                        broadcast use vstd::multiset::group_multiset_axioms;
                    }
                    assert(all_custs(rv(nr@)) =~= all_custs(rs)) by {
                        broadcast use vstd::multiset::group_multiset_axioms;
                    }
                    assert forall|k: int| 0 <= k < rv(nr@).len() implies rs.contains(#[trigger] rv(nr@)[k])
                        || time_feasible(ch.distance_matrix@, ch.service_time as int, ch.ready_times@, ch.due_times@, rv(nr@)[k])
                        && nd@[k] <= ch.max_capacity by {
                        if rv(nr@)[k] == base[k] {
                            if k < r {
                                assert(base[k] == rs[k]);
                            } else {
                                assert(base[k] == rs[k + 1]);
                            }
                        }
                    }
                }
                *routes = nr;
                *route_demand = nd;
                return true;
            }
            proof {
                lemma_total_len_remove(ch.distance_matrix@, rs, r as int);
            }
            false
        },
        None => {
            false
        },
    }
}

/// Route elimination: tries the routes shortest first (by node count); the first
/// one whose customers all fit into the other routes, each at its cheapest
/// time-feasible insertion in turn, for less than the route's own length is
/// removed, its customers placed so, and the pass reports it. Before each route
/// it stops once the time budget since `start` is spent.
pub fn eliminate_routes_pass(routes: &mut Vec<Vec<usize>>, route_demand: &mut Vec<i32>, ch: &Challenge, start: &Instant) -> (res: bool)
    requires
        pv_state(*ch, rv(old(routes)@), old(route_demand)@),
        demands_exact(*ch, rv(old(routes)@), old(route_demand)@),
        all_proper(rv(old(routes)@)),
    ensures
        pv_state(*ch, rv(final(routes)@), final(route_demand)@),
        demands_exact(*ch, rv(final(routes)@), final(route_demand)@),
        all_proper(rv(final(routes)@)),
        all_custs(rv(final(routes)@)) == all_custs(rv(old(routes)@)),
        res ==> final(routes)@.len() == old(routes)@.len() - 1,
        res ==> total_len(ch.distance_matrix@, rv(final(routes)@)) < total_len(ch.distance_matrix@, rv(old(routes)@)),
        res ==> from_or_valid(*ch, rv(old(routes)@), rv(final(routes)@), final(route_demand)@),
        !res ==> rv(final(routes)@) == rv(old(routes)@) && final(route_demand)@ == old(route_demand)@,
        res ==> exists|r: int| #[trigger] eliminable(*ch, rv(old(routes)@), old(route_demand)@, r)
            && (rv(final(routes)@), final(route_demand)@) == elim_result(*ch, rv(old(routes)@), old(route_demand)@, r)->0,
{
    let ghost rs = rv(routes@);
    let ghost rdv = route_demand@;
    let order = indices_by_size(routes);
    let mut t: usize = 0;
    while t < order.len()
        invariant
            rs == rv(routes@),
            rdv == route_demand@,
            rs == rv(old(routes)@),
            rdv == old(route_demand)@,
            pv_state(*ch, rs, rdv),
            demands_exact(*ch, rs, rdv),
            all_proper(rs),
            forall|q: int| 0 <= q < order@.len() ==> (#[trigger] order@[q] as int) < routes@.len(),
            t <= order@.len(),
        decreases order.len() - t,
    {
        if whole_millis(&elapsed_since(start)) > TIME_LIMIT_MS {
            break;
        }
        let r = order[t];
        t += 1;
        if try_eliminate(routes, route_demand, ch, r) {
            return true;
        }
    }
    false
}

/// One route-elimination sweep, with no time limit: the routes by size, as
/// `eliminate_routes_pass` does between its time checks; the first route that
/// can be eliminated (see `try_eliminate`) is. When none is, no route can be.
pub fn eliminate_routes_sweep(routes: &mut Vec<Vec<usize>>, route_demand: &mut Vec<i32>, ch: &Challenge) -> (res: bool)
    requires
        pv_state(*ch, rv(old(routes)@), old(route_demand)@),
        demands_exact(*ch, rv(old(routes)@), old(route_demand)@),
        all_proper(rv(old(routes)@)),
    ensures
        pv_state(*ch, rv(final(routes)@), final(route_demand)@),
        demands_exact(*ch, rv(final(routes)@), final(route_demand)@),
        all_proper(rv(final(routes)@)),
        all_custs(rv(final(routes)@)) == all_custs(rv(old(routes)@)),
        res ==> final(routes)@.len() == old(routes)@.len() - 1,
        res ==> total_len(ch.distance_matrix@, rv(final(routes)@)) < total_len(ch.distance_matrix@, rv(old(routes)@)),
        res ==> from_or_valid(*ch, rv(old(routes)@), rv(final(routes)@), final(route_demand)@),
        !res ==> rv(final(routes)@) == rv(old(routes)@) && final(route_demand)@ == old(route_demand)@,
        res ==> exists|r: int| #[trigger] eliminable(*ch, rv(old(routes)@), old(route_demand)@, r)
            && (rv(final(routes)@), final(route_demand)@) == elim_result(*ch, rv(old(routes)@), old(route_demand)@, r)->0,
        !res ==> forall|r: int| !#[trigger] eliminable(*ch, rv(old(routes)@), old(route_demand)@, r),
{
    let ghost rs = rv(routes@);
    let ghost rdv = route_demand@;
    let order = indices_by_size(routes);
    let mut t: usize = 0;
    while t < order.len()
        invariant
            rs == rv(routes@),
            rdv == route_demand@,
            rs == rv(old(routes)@),
            rdv == old(route_demand)@,
            pv_state(*ch, rs, rdv),
            demands_exact(*ch, rs, rdv),
            all_proper(rs),
            forall|q: int| 0 <= q < order@.len() ==> (#[trigger] order@[q] as int) < routes@.len(),
            t <= order@.len(),
            order@.len() == routes@.len(),
            forall|x: int| 0 <= x < routes@.len() ==> #[trigger] order@.contains(x as usize),
            forall|q: int| 0 <= q < t ==> !#[trigger] eliminable(*ch, rs, rdv, order@[q] as int),
        decreases order.len() - t,
    {
        let r = order[t];
        t += 1;
        if try_eliminate(routes, route_demand, ch, r) {
            return true;
        }
    }
    proof {
        assert forall|r: int| !#[trigger] eliminable(*ch, rs, rdv, r) by {
            if 0 <= r < routes@.len() {
                assert(order@.contains(r as usize));
                let q = choose|q: int| 0 <= q < order@.len() && order@[q] == r as usize;
                assert(!eliminable(*ch, rs, rdv, order@[q] as int));
            }
        }
    }
    false
}

/// A copy of the recorded demands.
fn copy_demands(v: &Vec<i32>) -> (res: Vec<i32>)
    ensures
        res@ == v@,
{
    let mut out: Vec<i32> = Vec::new();
    let mut i: usize = 0;
    while i < v.len()
        invariant
            i <= v@.len(),
            out@ == v@.subrange(0, i as int),
        decreases v.len() - i,
    {
        out.push(v[i]);
        i += 1;
        assert(out@ =~= v@.subrange(0, i as int));
    }
    assert(v@.subrange(0, i as int) =~= v@);
    out
}

} // verus!
