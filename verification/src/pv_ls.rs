//! The local search of the time-window solver that keeps a demand per route:
//! intra-route 2-opt and or-opt, then or-opt, exchange, 2-opt* and route
//! elimination between routes, repeated while any of them improves.
use vstd::prelude::*;
use std::time::Instant;
use crate::model::{all_custs, custs, cust1, rv, proper, total_len, route_len, Challenge, Solution, lemma_custs_remove};
use crate::algorithm::{copy_route, all_proper};
use crate::construct::{total_nodes, lemma_total_nodes};
use crate::improve::{elapsed_since, whole_millis, lemma_total_len_update};
use crate::alns::lemma_total_len_nonneg_dm;
use crate::primal_viper::{symmetric, two_opt_route, lemma_ch_tw};
use crate::pv_passes::{dsum, pv_state, demands_exact, lemma_dsum_concat, two_opt_star_pass, exchange_pass, TIME_LIMIT_MS};
use crate::pv_passes::{ex_valid, tos_valid, two_opt_star_sweep, exchange_sweep};
use crate::pv_oropt::{or_opt_pass, neighbors_ok, or_opt_sweep, nb_move_ok, positions_ok, positions_full};
use crate::pv_elim::{eliminate_routes_pass, eliminate_routes_sweep, eliminable};
use crate::pv_intra::{intra_or_opt_route, seg_moves_done};
use crate::primal_viper::{improving_rev, rev_seg, time_feasible};

verus! {

/// Removing a node removes its demand.
proof fn lemma_dsum_remove(ch: Challenge, s: Seq<usize>, j: int)
    requires
        0 <= j < s.len(),
    ensures
        dsum(ch, s) == dsum(ch, s.remove(j)) + ch.demand(s[j]),
{
    let p = s.subrange(0, j);
    let q = s.subrange(j + 1, s.len() as int);
    assert(s =~= (p + seq![s[j]]) + q);
    assert(s.remove(j) =~= p + q);
    lemma_dsum_concat(ch, p + seq![s[j]], q);
    lemma_dsum_concat(ch, p, seq![s[j]]);
    lemma_dsum_concat(ch, p, q);
    assert(seq![s[j]].drop_last() =~= Seq::<usize>::empty());
    assert(seq![s[j]].last() == s[j]);
    assert(dsum(ch, Seq::<usize>::empty()) == 0);
}

/// Two routes with the same nodes have the same demand and customers.
pub proof fn lemma_perm_route(ch: Challenge, s: Seq<usize>, t: Seq<usize>)
    requires
        s.to_multiset() == t.to_multiset(),
    ensures
        dsum(ch, s) == dsum(ch, t),
        custs(s) == custs(t),
    decreases s.len(),
{
    broadcast use vstd::multiset::group_multiset_axioms;
    vstd::seq_lib::to_multiset_len(s);
    vstd::seq_lib::to_multiset_len(t);
    if s.len() == 0 {
        assert(t.len() == 0);
        assert(s =~= t);
    } else {
        let x = s.last();
        let s0 = s.drop_last();
        assert(s =~= s0.push(x));
        vstd::seq_lib::to_multiset_build(s0, x);
        vstd::seq_lib::to_multiset_contains(t, x);
        assert(t.to_multiset().count(x) > 0);
        let j = choose|j: int| 0 <= j < t.len() && t[j] == x;
        let t0 = t.remove(j);
        vstd::seq_lib::to_multiset_remove(t, j);
        assert(s0.to_multiset() =~= t0.to_multiset());
        lemma_perm_route(ch, s0, t0);
        lemma_dsum_remove(ch, t, j);
        lemma_custs_remove(t, j);
        assert(s0.push(x).drop_last() =~= s0);
        assert(custs(s) =~= custs(t));
    }
}

/// Replacing a route in normal form by one with the same nodes and the same end
/// nodes keeps it in normal form.
pub(crate) proof fn lemma_perm_proper(s: Seq<usize>, t: Seq<usize>)
    requires
        proper(s),
        s.to_multiset() == t.to_multiset(),
        t.len() == s.len(),
        t[0] == s[0],
        t[t.len() - 1] == s[s.len() - 1],
    ensures
        proper(t),
{
    assert forall|k: int| 0 < k < t.len() - 1 implies #[trigger] t[k] != 0 by {
        if t[k] == 0 {
            lemma_zero_count(s);
            lemma_two_zeros_plus(t, k);
        }
    }
}

/// In a route in normal form the depot occurs exactly twice.
proof fn lemma_zero_count(s: Seq<usize>)
    requires
        proper(s),
    ensures
        s.to_multiset().count(0) == 2,
{
    broadcast use vstd::multiset::group_multiset_axioms;
    let inner = s.subrange(1, s.len() - 1);
    assert(s =~= (seq![s[0]] + inner) + seq![s[s.len() - 1]]);
    vstd::seq_lib::lemma_multiset_commutative(seq![s[0]] + inner, seq![s[s.len() - 1]]);
    vstd::seq_lib::lemma_multiset_commutative(seq![s[0]], inner);
    vstd::seq_lib::to_multiset_contains(inner, 0);
    if inner.contains(0) {
        let w = choose|w: int| 0 <= w < inner.len() && inner[w] == 0;
        assert(s[w + 1] == 0);
    }
    assert(seq![s[0]].to_multiset() =~= vstd::multiset::Multiset::singleton(0usize)) by {
        vstd::seq_lib::to_multiset_build(Seq::<usize>::empty(), 0usize);
        assert(Seq::<usize>::empty().push(0usize) =~= seq![s[0]]);
        vstd::seq_lib::to_multiset_len(Seq::<usize>::empty());
        vstd::multiset::lemma_multiset_empty_len(Seq::<usize>::empty().to_multiset());
    }
    assert(seq![s[s.len() - 1]].to_multiset() =~= vstd::multiset::Multiset::singleton(0usize)) by {
        vstd::seq_lib::to_multiset_build(Seq::<usize>::empty(), 0usize);
        assert(Seq::<usize>::empty().push(0usize) =~= seq![s[s.len() - 1]]);
        vstd::seq_lib::to_multiset_len(Seq::<usize>::empty());
        vstd::multiset::lemma_multiset_empty_len(Seq::<usize>::empty().to_multiset());
    }
}

/// A route whose first, last and some inner node are the depot has it three
/// times.
proof fn lemma_two_zeros_plus(t: Seq<usize>, k: int)
    requires
        t.len() >= 2,
        t[0] == 0,
        t[t.len() - 1] == 0,
        0 < k < t.len() - 1,
        t[k] == 0,
    ensures
        t.to_multiset().count(0) >= 3,
{
    broadcast use vstd::multiset::group_multiset_axioms;
    let a = t.subrange(0, k);
    let b = t.subrange(k, t.len() - 1);
    let c = t.subrange(t.len() - 1, t.len() as int);
    assert(t =~= (a + b) + c);
    vstd::seq_lib::lemma_multiset_commutative(a + b, c);
    vstd::seq_lib::lemma_multiset_commutative(a, b);
    vstd::seq_lib::to_multiset_contains(a, 0);
    assert(a[0] == 0);
    assert(a.contains(0));
    vstd::seq_lib::to_multiset_contains(b, 0);
    assert(b[0] == 0);
    assert(b.contains(0));
    vstd::seq_lib::to_multiset_contains(c, 0);
    assert(c[0] == 0);
    assert(c.contains(0));
}

/// What the local search keeps: the pass state, exact demands, routes in
/// normal form, the customers, and a length no longer than at the start.
pub open spec fn ls_kept(ch: Challenge, ors: Seq<Seq<usize>>, rs: Seq<Seq<usize>>, rd: Seq<i32>) -> bool {
    &&& pv_state(ch, rs, rd)
    &&& demands_exact(ch, rs, rd)
    &&& all_proper(rs)
    &&& all_custs(rs) == all_custs(ors)
    &&& total_len(ch.distance_matrix@, rs) <= total_len(ch.distance_matrix@, ors)
}

/// Replacing route `r` by a route with the same nodes and end nodes, no longer,
/// keeps what the local search keeps.
proof fn lemma_replace_perm(ch: Challenge, ors: Seq<Seq<usize>>, rs: Seq<Seq<usize>>, rd: Seq<i32>, r: int, x: Seq<usize>)
    requires
        ls_kept(ch, ors, rs, rd),
        0 <= r < rs.len(),
        x.to_multiset() == rs[r].to_multiset(),
        x.len() == rs[r].len(),
        x[0] == rs[r][0],
        x[x.len() - 1] == rs[r][rs[r].len() - 1],
        route_len(ch.distance_matrix@, x) <= route_len(ch.distance_matrix@, rs[r]),
    ensures
        ls_kept(ch, ors, rs.update(r, x), rd),
        total_len(ch.distance_matrix@, rs.update(r, x)) <= total_len(ch.distance_matrix@, rs),
{
    broadcast use vstd::multiset::group_multiset_axioms;
    let u = rs.update(r, x);
    lemma_perm_route(ch, rs[r], x);
    assert(proper(rs[r]));
    lemma_perm_proper(rs[r], x);
    crate::model::lemma_all_custs_update(rs, r, x);
    assert forall|v: usize| #[trigger] all_custs(u).count(v) == all_custs(rs).count(v) by {
        assert(all_custs(u).add(custs(rs[r])).count(v) == all_custs(rs).add(custs(x)).count(v));
    }
    assert(all_custs(u) =~= all_custs(rs));
    lemma_total_len_update(ch.distance_matrix@, rs, r, x);
    lemma_total_nodes(rs, r, x);
    assert forall|z: int| 0 <= z < x.len() implies (#[trigger] x[z] as int) < ch.num_nodes by {
        vstd::seq_lib::to_multiset_contains(x, x[z]);
        assert(x.contains(x[z]));
        vstd::seq_lib::to_multiset_contains(rs[r], x[z]);
        let w = choose|w: int| 0 <= w < rs[r].len() && rs[r][w] == x[z];
        assert(ch.route_ok(rs[r]));
    }
    assert forall|k: int| 0 <= k < u.len() implies ch.route_ok(#[trigger] u[k]) && proper(u[k]) && rd[k] == dsum(ch, u[k]) by {
        if k != r {
            assert(u[k] == rs[k]);
        }
    }
}

/// The local search: repeats rounds while one improves and time remains; each
/// round runs intra-route 2-opt and or-opt on every route, or-opt between routes
/// for segments of 1 to 3 customers, then exchange, 2-opt* and route elimination
/// (see the passes). Before each round, route and segment length it stops once
/// the time budget since `start` is spent.
pub fn local_search_loop(
    solution: &mut Solution,
    route_demand: &mut Vec<i32>,
    challenge: &Challenge,
    neighbors: &Vec<Vec<usize>>,
    start: &Instant,
)
    requires
        pv_state(*challenge, rv(old(solution).routes@), old(route_demand)@),
        demands_exact(*challenge, rv(old(solution).routes@), old(route_demand)@),
        all_proper(rv(old(solution).routes@)),
        neighbors_ok(*challenge, neighbors@),
        symmetric(challenge.distance_matrix@),
    ensures
        ls_kept(*challenge, rv(old(solution).routes@), rv(final(solution).routes@), final(route_demand)@),
{
    let ch = challenge;
    let ghost ors = rv(solution.routes@);
    let ghost dmv = ch.distance_matrix@;
    proof {
        assert forall|k: int| 0 <= k < ors.len() implies crate::model::nodes_below(#[trigger] ors[k], dmv.len() as int) by {
            assert(ch.route_ok(ors[k]));
        }
        lemma_total_len_nonneg_dm(dmv, ors);
    }
    loop
        invariant
            ls_kept(*ch, ors, rv(solution.routes@), route_demand@),
            neighbors_ok(*ch, neighbors@),
            symmetric(dmv),
            dmv == ch.distance_matrix@,
            total_len(dmv, rv(solution.routes@)) >= 0,
        decreases total_len(dmv, rv(solution.routes@)),
    {
        if whole_millis(&elapsed_since(start)) > TIME_LIMIT_MS {
            break;
        }
        let ghost l0 = total_len(dmv, rv(solution.routes@));
        let mut improved = false;
        let mut r: usize = 0;
        while r < solution.routes.len()
            invariant
                ls_kept(*ch, ors, rv(solution.routes@), route_demand@),
                symmetric(dmv),
                dmv == ch.distance_matrix@,
                total_len(dmv, rv(solution.routes@)) <= l0,
                improved ==> total_len(dmv, rv(solution.routes@)) < l0,
            decreases solution.routes@.len() - r,
        {
            if whole_millis(&elapsed_since(start)) > TIME_LIMIT_MS {
                break;
            }
            let ghost rs = rv(solution.routes@);
            assert(rs[r as int] == solution.routes@[r as int]@);
            proof {
                lemma_ch_tw(*ch);
                assert(ch.route_ok(rs[r as int]));
                assert(proper(rs[r as int]));
            }
            let mut route = copy_route(&solution.routes[r]);
            let a = two_opt_route(&mut route, &ch.distance_matrix, ch.service_time, &ch.ready_times, &ch.due_times);
            let ghost mid = route@;
            let b = intra_or_opt_route(&mut route, &ch.distance_matrix, ch.service_time, &ch.ready_times, &ch.due_times);
            proof {
                lemma_replace_perm(*ch, ors, rs, route_demand@, r as int, route@);
                lemma_total_len_update(dmv, rs, r as int, route@);
            }
            solution.routes.set(r, route);
            assert(rv(solution.routes@) =~= rs.update(r as int, rv(solution.routes@)[r as int]));
            if a {
                improved = true;
            }
            if b {
                improved = true;
            }
            r += 1;
        }
        let mut seg_len: usize = 1;
        while seg_len <= 3
            invariant
                ls_kept(*ch, ors, rv(solution.routes@), route_demand@),
                neighbors_ok(*ch, neighbors@),
                symmetric(dmv),
                dmv == ch.distance_matrix@,
                1 <= seg_len <= 4,
                total_len(dmv, rv(solution.routes@)) <= l0,
                improved ==> total_len(dmv, rv(solution.routes@)) < l0,
            decreases 4 - seg_len,
        {
            if whole_millis(&elapsed_since(start)) > TIME_LIMIT_MS {
                break;
            }
            if or_opt_pass(&mut solution.routes, route_demand, ch, neighbors, start, seg_len) {
                improved = true;
            }
            seg_len += 1;
        }
        proof {
            assert forall|i: int| 0 <= i < solution.routes@.len() implies (#[trigger] solution.routes@[i]@).len() >= 2 by {
                assert(proper(rv(solution.routes@)[i]));
            }
        }
        if exchange_pass(&mut solution.routes, route_demand, ch, start) {
            improved = true;
        }
        if two_opt_star_pass(&mut solution.routes, route_demand, ch, start) {
            improved = true;
        }
        if eliminate_routes_pass(&mut solution.routes, route_demand, ch, start) {
            improved = true;
        }
        proof {
            assert forall|k: int| 0 <= k < rv(solution.routes@).len() implies crate::model::nodes_below(#[trigger] rv(solution.routes@)[k], dmv.len() as int) by {
                assert(ch.route_ok(rv(solution.routes@)[k]));
            }
            lemma_total_len_nonneg_dm(dmv, rv(solution.routes@));
        }
        if !improved {
            break;
        }
    }
}


/// No reversal of a stretch of route `r` (of at least five nodes) that would
/// shorten it keeps its time windows.
pub open spec fn two_opt_done(ch: Challenge, r: Seq<usize>) -> bool {
    r.len() >= 5 ==> forall|i: int, j: int| 1 <= i < j < r.len() - 1 && #[trigger] improving_rev(ch.distance_matrix@, r, i, j)
        ==> !time_feasible(ch.distance_matrix@, ch.service_time as int, ch.ready_times@, ch.due_times@, #[trigger] rev_seg(r, i, j))
}

/// No segment of `len` customers has a valid or-opt move next to a neighbour,
/// by some complete record of the customers' positions.
pub open spec fn or_opt_done(ch: Challenge, nbs: Seq<Vec<usize>>, rs: Seq<Seq<usize>>, rd: Seq<i32>, len: int) -> bool {
    exists|cp: Seq<Option<(usize, usize)>>| cp.len() == ch.num_nodes && positions_ok(rs, cp) && positions_full(rs, cp)
        && forall|r: int, p2: int, e: int, k: int, t: int, v: int| 0 <= r < rs.len() && 1 <= p2
            && p2 + len < rs[r].len() && 0 <= e < 2 && 0 <= t < 2 && 0 <= v < 2 ==>
            #[trigger] nb_move_ok(ch, rs, rd, nbs, cp, r, p2, len, None, e, k, t, v)
}

/// A solution no move of the local search improves: within each route no
/// 2-opt reversal or segment move, between routes no or-opt move of one to
/// three customers, exchange or 2-opt* tail swap, and no route can be
/// eliminated.
pub open spec fn pv_local_optimum(ch: Challenge, nbs: Seq<Vec<usize>>, rs: Seq<Seq<usize>>, rd: Seq<i32>) -> bool {
    &&& forall|k: int| 0 <= k < rs.len() ==> two_opt_done(ch, #[trigger] rs[k])
        && seg_moves_done(ch.distance_matrix@, ch.service_time as int, ch.ready_times@, ch.due_times@, rs[k])
    &&& forall|len: int| 1 <= len <= 3 ==> #[trigger] or_opt_done(ch, nbs, rs, rd, len)
    &&& forall|a: int, b: int, i: int, j: int| 0 <= a < b < rs.len() ==> !#[trigger] ex_valid(ch, rs[a], rs[b], rd[a] as int, rd[b] as int, i, j)
    &&& forall|a: int, b: int, i: int, j: int| 0 <= a < b < rs.len() ==> !#[trigger] tos_valid(ch, rs[a], rs[b], i, j)
    &&& forall|r: int| !#[trigger] eliminable(ch, rs, rd, r)
}

/// One round of the local search with no time limit, as `local_search_loop`
/// runs between its time checks: intra-route 2-opt and or-opt on every route,
/// or-opt sweeps for one to three customers, an exchange sweep, a 2-opt* sweep
/// and a route-elimination sweep. Reports whether any of them improved the
/// solution; when none did, the solution is a local optimum of all of them.
pub fn local_search_round(
    solution: &mut Solution,
    route_demand: &mut Vec<i32>,
    ch: &Challenge,
    neighbors: &Vec<Vec<usize>>,
) -> (improved: bool)
    requires
        pv_state(*ch, rv(old(solution).routes@), old(route_demand)@),
        demands_exact(*ch, rv(old(solution).routes@), old(route_demand)@),
        all_proper(rv(old(solution).routes@)),
        neighbors_ok(*ch, neighbors@),
        symmetric(ch.distance_matrix@),
    ensures
        ls_kept(*ch, rv(old(solution).routes@), rv(final(solution).routes@), final(route_demand)@),
        improved ==> total_len(ch.distance_matrix@, rv(final(solution).routes@)) < total_len(ch.distance_matrix@, rv(old(solution).routes@)),
        !improved ==> rv(final(solution).routes@) == rv(old(solution).routes@) && final(route_demand)@ == old(route_demand)@,
        !improved ==> pv_local_optimum(*ch, neighbors@, rv(old(solution).routes@), old(route_demand)@),
{
    let ghost ors = rv(solution.routes@);
    let ghost ord = route_demand@;
    let ghost dmv = ch.distance_matrix@;
    proof {
        assert forall|k: int| 0 <= k < ors.len() implies crate::model::nodes_below(#[trigger] ors[k], dmv.len() as int) by {
            assert(ch.route_ok(ors[k]));
        }
        lemma_total_len_nonneg_dm(dmv, ors);
    }
    let ghost l0 = total_len(dmv, rv(solution.routes@));
    let mut improved = false;
    let mut r: usize = 0;
    while r < solution.routes.len()
        invariant
            ls_kept(*ch, ors, rv(solution.routes@), route_demand@),
            symmetric(dmv),
            dmv == ch.distance_matrix@,
            l0 == total_len(dmv, ors),
            total_len(dmv, rv(solution.routes@)) <= l0,
            improved ==> total_len(dmv, rv(solution.routes@)) < l0,
            !improved ==> rv(solution.routes@) == ors && route_demand@ == ord,
            !improved ==> forall|k: int| 0 <= k < r ==> two_opt_done(*ch, #[trigger] ors[k])
                && seg_moves_done(dmv, ch.service_time as int, ch.ready_times@, ch.due_times@, ors[k]),
        decreases solution.routes@.len() - r,
    {
        let ghost rs = rv(solution.routes@);
        assert(rs[r as int] == solution.routes@[r as int]@);
        proof {
            lemma_ch_tw(*ch);
            assert(ch.route_ok(rs[r as int]));
            assert(proper(rs[r as int]));
        }
        let mut route = copy_route(&solution.routes[r]);
        let a = two_opt_route(&mut route, &ch.distance_matrix, ch.service_time, &ch.ready_times, &ch.due_times);
        let ghost mid = route@;
        let b = intra_or_opt_route(&mut route, &ch.distance_matrix, ch.service_time, &ch.ready_times, &ch.due_times);
        proof {
            lemma_replace_perm(*ch, ors, rs, route_demand@, r as int, route@);
            lemma_total_len_update(dmv, rs, r as int, route@);
        }
        solution.routes.set(r, route);
        assert(rv(solution.routes@) =~= rs.update(r as int, rv(solution.routes@)[r as int]));
        if a {
            improved = true;
        }
        if b {
            improved = true;
        }
        proof {
            if !improved {
                assert(rv(solution.routes@) =~= rs);
                assert forall|k: int| 0 <= k < r + 1 implies two_opt_done(*ch, #[trigger] ors[k])
                    && seg_moves_done(dmv, ch.service_time as int, ch.ready_times@, ch.due_times@, ors[k]) by {
                    if k == r {
                        assert(mid == rs[r as int]);
                        assert(route@ == mid);
                    }
                }
            }
        }
        r += 1;
    }
    let mut seg_len: usize = 1;
    while seg_len <= 3
        invariant
            ls_kept(*ch, ors, rv(solution.routes@), route_demand@),
            neighbors_ok(*ch, neighbors@),
            symmetric(dmv),
            dmv == ch.distance_matrix@,
            1 <= seg_len <= 4,
            l0 == total_len(dmv, ors),
            total_len(dmv, rv(solution.routes@)) <= l0,
            improved ==> total_len(dmv, rv(solution.routes@)) < l0,
            !improved ==> rv(solution.routes@) == ors && route_demand@ == ord,
            !improved ==> forall|k: int| 0 <= k < ors.len() ==> two_opt_done(*ch, #[trigger] ors[k])
                && seg_moves_done(dmv, ch.service_time as int, ch.ready_times@, ch.due_times@, ors[k]),
            !improved ==> forall|len: int| 1 <= len < seg_len ==> #[trigger] or_opt_done(*ch, neighbors@, ors, ord, len),
        decreases 4 - seg_len,
    {
        if or_opt_sweep(&mut solution.routes, route_demand, ch, neighbors, seg_len) {
            improved = true;
        }
        proof {
            if !improved {
                assert forall|len: int| 1 <= len < seg_len + 1 implies #[trigger] or_opt_done(*ch, neighbors@, ors, ord, len) by {
                    if len == seg_len {
                        assert(or_opt_done(*ch, neighbors@, ors, ord, seg_len as int));
                    }
                }
            }
        }
        seg_len += 1;
    }
    proof {
        assert forall|i: int| 0 <= i < solution.routes@.len() implies (#[trigger] solution.routes@[i]@).len() >= 2 by {
            assert(proper(rv(solution.routes@)[i]));
        }
    }
    if exchange_sweep(&mut solution.routes, route_demand, ch) {
        improved = true;
    }
    if two_opt_star_sweep(&mut solution.routes, route_demand, ch) {
        improved = true;
    }
    if eliminate_routes_sweep(&mut solution.routes, route_demand, ch) {
        improved = true;
    }
    proof {
        assert forall|k: int| 0 <= k < rv(solution.routes@).len() implies crate::model::nodes_below(#[trigger] rv(solution.routes@)[k], dmv.len() as int) by {
            assert(ch.route_ok(rv(solution.routes@)[k]));
        }
        lemma_total_len_nonneg_dm(dmv, rv(solution.routes@));
    }
    improved
}

/// The local search with no time limit: rounds (see `local_search_round`)
/// until one improves nothing. The result is a local optimum of every move.
pub fn local_search_to_optimum(
    solution: &mut Solution,
    route_demand: &mut Vec<i32>,
    ch: &Challenge,
    neighbors: &Vec<Vec<usize>>,
)
    requires
        pv_state(*ch, rv(old(solution).routes@), old(route_demand)@),
        demands_exact(*ch, rv(old(solution).routes@), old(route_demand)@),
        all_proper(rv(old(solution).routes@)),
        neighbors_ok(*ch, neighbors@),
        symmetric(ch.distance_matrix@),
    ensures
        ls_kept(*ch, rv(old(solution).routes@), rv(final(solution).routes@), final(route_demand)@),
        pv_local_optimum(*ch, neighbors@, rv(final(solution).routes@), final(route_demand)@),
{
    let ghost ors = rv(solution.routes@);
    let ghost dmv = ch.distance_matrix@;
    proof {
        assert forall|k: int| 0 <= k < ors.len() implies crate::model::nodes_below(#[trigger] ors[k], dmv.len() as int) by {
            assert(ch.route_ok(ors[k]));
        }
        lemma_total_len_nonneg_dm(dmv, ors);
    }
    loop
        invariant
            ls_kept(*ch, ors, rv(solution.routes@), route_demand@),
            neighbors_ok(*ch, neighbors@),
            symmetric(dmv),
            dmv == ch.distance_matrix@,
            total_len(dmv, rv(solution.routes@)) >= 0,
        ensures
            ls_kept(*ch, ors, rv(solution.routes@), route_demand@),
            pv_local_optimum(*ch, neighbors@, rv(solution.routes@), route_demand@),
        decreases total_len(dmv, rv(solution.routes@)),
    {
        let ghost rs = rv(solution.routes@);
        let ghost rdv = route_demand@;
        let improved = local_search_round(solution, route_demand, ch, neighbors);
        proof {
            assert forall|k: int| 0 <= k < rv(solution.routes@).len() implies crate::model::nodes_below(#[trigger] rv(solution.routes@)[k], dmv.len() as int) by {
                assert(ch.route_ok(rv(solution.routes@)[k]));
            }
            lemma_total_len_nonneg_dm(dmv, rv(solution.routes@));
        }
        if !improved {
            break;
        }
    }
}

} // verus!
