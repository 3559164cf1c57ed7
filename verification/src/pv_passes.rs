//! Inter-route improvement passes of the time-window solver that keeps a demand
//! per route: best-improvement 2-opt* and 2-2 segment swaps. Each pass keeps
//! the customers, never lengthens the solution, and leaves every route it
//! touches within its time windows and the capacity.
use vstd::prelude::*;
use std::time::Instant;
use crate::model::{
    all_custs, custs, rv, in_limit, route_len, total_len, dd, nodes_below, Challenge, LEN_LIMIT, VALUE_LIMIT,
    lemma_route_len_concat,
};
use crate::algorithm::{join_slices, copy_route, lemma_tails_custs, lemma_replace_two, all_proper};
use crate::model::proper;
use crate::construct::{total_nodes, lemma_total_nodes};
use crate::improve::{elapsed_since, whole_millis, tail_swap, lemma_tail_swap_len, lemma_total_len_update};
use crate::primal_viper::{time_feasible, is_time_feasible, ch_tw, lemma_ch_tw};

verus! {

/// The pass budget of the solver, in milliseconds since its start.
pub const TIME_LIMIT_MS: u128 = 27_000;

/// Total demand of all nodes of `s`, the entries of the depot included.
pub open spec fn dsum(ch: Challenge, s: Seq<usize>) -> int
    decreases s.len(),
{
    if s.len() == 0 {
        0
    } else {
        dsum(ch, s.drop_last()) + ch.demand(s.last())
    }
}

/// Demand is additive over concatenation.
pub proof fn lemma_dsum_concat(ch: Challenge, a: Seq<usize>, b: Seq<usize>)
    ensures
        dsum(ch, a + b) == dsum(ch, a) + dsum(ch, b),
    decreases b.len(),
{
    if b.len() == 0 {
        assert(a + b =~= a);
    } else {
        assert((a + b).drop_last() =~= a + b.drop_last());
        lemma_dsum_concat(ch, a, b.drop_last());
    }
}

/// The demand of a route of the instance lies between 0 and `VALUE_LIMIT` per node.
pub proof fn lemma_dsum_bounds(ch: Challenge, s: Seq<usize>)
    requires
        ch.wf(),
        ch.route_ok(s),
    ensures
        0 <= dsum(ch, s) <= VALUE_LIMIT * s.len(),
    decreases s.len(),
{
    if s.len() > 0 {
        assert(in_limit(ch.demands@[s.last() as int]));
        lemma_dsum_bounds(ch, s.drop_last());
    }
}

/// The routes that these passes work on: within the instance, with few enough
/// nodes overall for every sum of demands to fit, and one recorded demand per
/// route.
pub open spec fn pv_state(ch: Challenge, rs: Seq<Seq<usize>>, rd: Seq<i32>) -> bool {
    &&& ch.wf()
    &&& rd.len() == rs.len()
    &&& forall|i: int| 0 <= i < rs.len() ==> ch.route_ok(#[trigger] rs[i])
    &&& total_nodes(rs) <= LEN_LIMIT
}

/// The routes and recorded demands after a pass: route `k` and its demand are
/// unchanged, or the new route meets its time windows and the capacity and its
/// recorded demand is its demand.
pub open spec fn kept_or_valid(ch: Challenge, old_rs: Seq<Seq<usize>>, old_rd: Seq<i32>, rs: Seq<Seq<usize>>, rd: Seq<i32>, k: int) -> bool {
    ||| rs[k] == old_rs[k] && rd[k] == old_rd[k]
    ||| time_feasible(ch.distance_matrix@, ch.service_time as int, ch.ready_times@, ch.due_times@, rs[k])
        && dsum(ch, rs[k]) <= ch.max_capacity && rd[k] == dsum(ch, rs[k])
}

/// Prefix demands: entry `k` is the demand of the route's first `k + 1` nodes.
fn prefix_demands(route: &[usize], ch: &Challenge) -> (cum: Vec<i32>)
    requires
        ch.wf(),
        ch.route_ok(route@),
        route@.len() <= LEN_LIMIT,
    ensures
        cum@.len() == route@.len(),
        forall|k: int| 0 <= k < route@.len() ==> #[trigger] cum@[k] == dsum(*ch, route@.subrange(0, k + 1)),
{
    let mut cum: Vec<i32> = Vec::new();
    let mut s: i32 = 0;
    let mut k: usize = 0;
    assert(route@.subrange(0, 0).len() == 0);
    while k < route.len()
        invariant
            ch.wf(),
            ch.route_ok(route@),
            route@.len() <= LEN_LIMIT,
            k <= route@.len(),
            cum@.len() == k,
            s == dsum(*ch, route@.subrange(0, k as int)),
            forall|q: int| 0 <= q < k ==> #[trigger] cum@[q] == dsum(*ch, route@.subrange(0, q + 1)),
        decreases route.len() - k,
    {
        proof {
            assert(route@.subrange(0, k + 1).drop_last() =~= route@.subrange(0, k as int));
            lemma_dsum_bounds(*ch, route@.subrange(0, k + 1));
            assert(VALUE_LIMIT * (k + 1) <= VALUE_LIMIT * LEN_LIMIT) by (nonlinear_arith)
                requires
                    k + 1 <= LEN_LIMIT,
            ;
            assert(in_limit(ch.demands@[route@[k as int] as int]));
        }
        s = s + ch.demands[route[k]];
        cum.push(s);
        k += 1;
    }
    cum
}

/// Change of length of swapping the tails of `a` and `b` after positions `i` and `j`.
pub open spec fn tos_delta(dm: Seq<Vec<i32>>, a: Seq<usize>, b: Seq<usize>, i: int, j: int) -> int {
    dd(dm, a[i], b[j + 1]) + dd(dm, b[j], a[i + 1]) - dd(dm, a[i], a[i + 1]) - dd(dm, b[j], b[j + 1])
}

/// Swapping the tails of `a` and `b` after positions `i` and `j` shortens them and
/// gives two routes within the capacity and their time windows.
pub open spec fn tos_valid(ch: Challenge, a: Seq<usize>, b: Seq<usize>, i: int, j: int) -> bool {
    &&& 0 <= i < a.len() - 1
    &&& 0 <= j < b.len() - 1
    &&& tos_delta(ch.distance_matrix@, a, b, i, j) < 0
    &&& dsum(ch, tail_swap(a, b, i, j)) <= ch.max_capacity
    &&& dsum(ch, tail_swap(b, a, j, i)) <= ch.max_capacity
    &&& time_feasible(ch.distance_matrix@, ch.service_time as int, ch.ready_times@, ch.due_times@, tail_swap(a, b, i, j))
    &&& time_feasible(ch.distance_matrix@, ch.service_time as int, ch.ready_times@, ch.due_times@, tail_swap(b, a, j, i))
}

/// The best tail swap of routes `a` and `b`: valid, no longer than any other valid
/// one, and strictly shorter than every valid one before it (by `i`, then `j`).
/// Also gives the demands of the two new routes.
#[verifier::rlimit(40)]
pub fn best_tail_swap(a: &[usize], b: &[usize], ch: &Challenge) -> (res: Option<(usize, usize, i32, i32)>)
    requires
        ch.wf(),
        ch.route_ok(a@),
        ch.route_ok(b@),
        a@.len() + b@.len() <= LEN_LIMIT,
    ensures
        res matches Some((i, j, d1, d2)) ==> {
            &&& tos_valid(*ch, a@, b@, i as int, j as int)
            &&& d1 == dsum(*ch, tail_swap(a@, b@, i as int, j as int))
            &&& d2 == dsum(*ch, tail_swap(b@, a@, j as int, i as int))
            &&& forall|i2: int, j2: int| #[trigger] tos_valid(*ch, a@, b@, i2, j2)
                ==> tos_delta(ch.distance_matrix@, a@, b@, i as int, j as int) <= tos_delta(ch.distance_matrix@, a@, b@, i2, j2)
            &&& forall|i2: int, j2: int| (i2 < i || i2 == i && j2 < j) && #[trigger] tos_valid(*ch, a@, b@, i2, j2)
                ==> tos_delta(ch.distance_matrix@, a@, b@, i as int, j as int) < tos_delta(ch.distance_matrix@, a@, b@, i2, j2)
        },
        res is None ==> forall|i2: int, j2: int| !#[trigger] tos_valid(*ch, a@, b@, i2, j2),
{
    let l1 = a.len();
    let l2 = b.len();
    if l1 < 2 || l2 < 2 {
        return None;
    }
    let dm = &ch.distance_matrix;
    let ghost dmv = ch.distance_matrix@;
    let cum1 = prefix_demands(a, ch);
    let cum2 = prefix_demands(b, ch);
    let tot1 = cum1[l1 - 1];
    let tot2 = cum2[l2 - 1];
    assert(a@.subrange(0, l1 as int) =~= a@);
    assert(b@.subrange(0, l2 as int) =~= b@);
    proof {
        lemma_ch_tw(*ch);
    }
    let mut best: Option<(usize, usize, i32, i32, i32)> = None;
    let mut i: usize = 0;
    while i < l1 - 1
        invariant
            ch.wf(),
            ch_tw(*ch),
            ch.route_ok(a@),
            ch.route_ok(b@),
            a@.len() + b@.len() <= LEN_LIMIT,
            l1 == a@.len(),
            l2 == b@.len(),
            l1 >= 2,
            l2 >= 2,
            dm@ == dmv,
            dmv == ch.distance_matrix@,
            cum1@.len() == l1,
            cum2@.len() == l2,
            forall|k: int| 0 <= k < l1 ==> #[trigger] cum1@[k] == dsum(*ch, a@.subrange(0, k + 1)),
            forall|k: int| 0 <= k < l2 ==> #[trigger] cum2@[k] == dsum(*ch, b@.subrange(0, k + 1)),
            tot1 == dsum(*ch, a@),
            tot2 == dsum(*ch, b@),
            i <= l1 - 1,
            best matches Some(bb) ==> {
                &&& (bb.0 as int) < i
                &&& tos_valid(*ch, a@, b@, bb.0 as int, bb.1 as int)
                &&& bb.2 == tos_delta(dmv, a@, b@, bb.0 as int, bb.1 as int)
                &&& bb.3 == dsum(*ch, tail_swap(a@, b@, bb.0 as int, bb.1 as int))
                &&& bb.4 == dsum(*ch, tail_swap(b@, a@, bb.1 as int, bb.0 as int))
                &&& forall|i2: int, j2: int| i2 < i && #[trigger] tos_valid(*ch, a@, b@, i2, j2) ==> bb.2 <= tos_delta(dmv, a@, b@, i2, j2)
                &&& forall|i2: int, j2: int| (i2 < bb.0 || i2 == bb.0 && j2 < bb.1) && #[trigger] tos_valid(*ch, a@, b@, i2, j2)
                    ==> bb.2 < tos_delta(dmv, a@, b@, i2, j2)
            },
            best is None ==> forall|i2: int, j2: int| i2 < i ==> !#[trigger] tos_valid(*ch, a@, b@, i2, j2),
        decreases l1 - 1 - i,
    {
        let x = a[i];
        let x_next = a[i + 1];
        proof {
            assert(in_limit(dmv[x as int]@[x_next as int]));
        }
        let d_x = dm[x][x_next];
        let mut j: usize = 0;
        while j < l2 - 1
            invariant
                ch.wf(),
                ch_tw(*ch),
                ch.route_ok(a@),
                ch.route_ok(b@),
                a@.len() + b@.len() <= LEN_LIMIT,
                l1 == a@.len(),
                l2 == b@.len(),
                l1 >= 2,
                l2 >= 2,
                dm@ == dmv,
                dmv == ch.distance_matrix@,
                cum1@.len() == l1,
                cum2@.len() == l2,
                forall|k: int| 0 <= k < l1 ==> #[trigger] cum1@[k] == dsum(*ch, a@.subrange(0, k + 1)),
                forall|k: int| 0 <= k < l2 ==> #[trigger] cum2@[k] == dsum(*ch, b@.subrange(0, k + 1)),
                tot1 == dsum(*ch, a@),
                tot2 == dsum(*ch, b@),
                i < l1 - 1,
                x == a@[i as int],
                x_next == a@[i + 1],
                d_x == dd(dmv, x, x_next),
                j <= l2 - 1,
                best matches Some(bb) ==> {
                    &&& (bb.0 as int) <= i
                    &&& (bb.0 == i ==> bb.1 < j)
                    &&& tos_valid(*ch, a@, b@, bb.0 as int, bb.1 as int)
                    &&& bb.2 == tos_delta(dmv, a@, b@, bb.0 as int, bb.1 as int)
                    &&& bb.3 == dsum(*ch, tail_swap(a@, b@, bb.0 as int, bb.1 as int))
                    &&& bb.4 == dsum(*ch, tail_swap(b@, a@, bb.1 as int, bb.0 as int))
                    &&& forall|i2: int, j2: int| (i2 < i || i2 == i && j2 < j) && #[trigger] tos_valid(*ch, a@, b@, i2, j2)
                        ==> bb.2 <= tos_delta(dmv, a@, b@, i2, j2)
                    &&& forall|i2: int, j2: int| (i2 < bb.0 || i2 == bb.0 && j2 < bb.1) && #[trigger] tos_valid(*ch, a@, b@, i2, j2)
                        ==> bb.2 < tos_delta(dmv, a@, b@, i2, j2)
                },
                best is None ==> forall|i2: int, j2: int| (i2 < i || i2 == i && j2 < j) ==> !#[trigger] tos_valid(*ch, a@, b@, i2, j2),
            decreases l2 - 1 - j,
        {
            let y = b[j];
            let y_next = b[j + 1];
            proof {
                assert(in_limit(dmv[y as int]@[y_next as int]));
                assert(in_limit(dmv[x as int]@[y_next as int]));
                assert(in_limit(dmv[y as int]@[x_next as int]));
            }
            let old_edges = d_x + dm[y][y_next];
            let new_edges = dm[x][y_next] + dm[y][x_next];
            let delta = new_edges - old_edges;
            let ghost t1 = tail_swap(a@, b@, i as int, j as int);
            let ghost t2 = tail_swap(b@, a@, j as int, i as int);
            assert(delta == tos_delta(dmv, a@, b@, i as int, j as int));
            let worse = match best {
                None => false,
                Some(bb) => delta >= bb.2,
            };
            if delta < 0 && !worse {
                proof {
                    let a0 = a@.subrange(0, i + 1);
                    let a1 = a@.subrange(i + 1, l1 as int);
                    let b0 = b@.subrange(0, j + 1);
                    let b1 = b@.subrange(j + 1, l2 as int);
                    assert(a@ =~= a0 + a1);
                    assert(b@ =~= b0 + b1);
                    lemma_dsum_concat(*ch, a0, a1);
                    lemma_dsum_concat(*ch, b0, b1);
                    lemma_dsum_concat(*ch, a0, b1);
                    lemma_dsum_concat(*ch, b0, a1);
                    assert(cum1@[i as int] == dsum(*ch, a0));
                    assert(cum2@[j as int] == dsum(*ch, b0));
                    lemma_dsum_bounds(*ch, a0);
                    lemma_dsum_bounds(*ch, a1);
                    lemma_dsum_bounds(*ch, b0);
                    lemma_dsum_bounds(*ch, b1);
                    assert(VALUE_LIMIT * a0.len() + VALUE_LIMIT * b1.len() <= VALUE_LIMIT * LEN_LIMIT) by (nonlinear_arith)
                        requires
                            a0.len() + b1.len() <= LEN_LIMIT,
                    ;
                    assert(VALUE_LIMIT * b0.len() + VALUE_LIMIT * a1.len() <= VALUE_LIMIT * LEN_LIMIT) by (nonlinear_arith)
                        requires
                            b0.len() + a1.len() <= LEN_LIMIT,
                    ;
                }
                let new_d1 = cum1[i] + (tot2 - cum2[j]);
                let new_d2 = cum2[j] + (tot1 - cum1[i]);
                assert(new_d1 == dsum(*ch, t1));
                assert(new_d2 == dsum(*ch, t2));
                if new_d1 <= ch.max_capacity && new_d2 <= ch.max_capacity {
                    let nr1 = join_slices(a, 0, i + 1, b, j + 1, l2);
                    let nr2 = join_slices(b, 0, j + 1, a, i + 1, l1);
                    assert(nr1@ == t1);
                    assert(nr2@ == t2);
                    assert(nodes_below(nr1@, dmv.len() as int));
                    assert(nodes_below(nr2@, dmv.len() as int));
                    let f1 = is_time_feasible(&nr1, dm, ch.service_time, &ch.ready_times, &ch.due_times);
                    if f1 {
                        let f2 = is_time_feasible(&nr2, dm, ch.service_time, &ch.ready_times, &ch.due_times);
                        if f2 {
                            best = Some((i, j, delta, new_d1, new_d2));
                        }
                    }
                }
            }
            j += 1;
        }
        i += 1;
    }
    match best {
        Some(bb) => Some((bb.0, bb.1, bb.3, bb.4)),
        None => None,
    }
}

/// Swapping the tails of routes `r1` and `r2` by a valid swap keeps the pass
/// state and the customers, shortens the solution by the swap's change, and
/// records the demands of the two new routes.
proof fn lemma_apply_tail_swap(ch: Challenge, rs: Seq<Seq<usize>>, rd: Seq<i32>, r1: int, r2: int, i: int, j: int, d1: i32, d2: i32)
    requires
        pv_state(ch, rs, rd),
        0 <= r1 < r2 < rs.len(),
        tos_valid(ch, rs[r1], rs[r2], i, j),
        d1 == dsum(ch, tail_swap(rs[r1], rs[r2], i, j)),
        d2 == dsum(ch, tail_swap(rs[r2], rs[r1], j, i)),
    ensures
        ({
            let n1 = tail_swap(rs[r1], rs[r2], i, j);
            let n2 = tail_swap(rs[r2], rs[r1], j, i);
            let nrs = rs.update(r1, n1).update(r2, n2);
            &&& pv_state(ch, nrs, rd.update(r1, d1).update(r2, d2))
            &&& all_custs(nrs) == all_custs(rs)
            &&& total_len(ch.distance_matrix@, nrs) == total_len(ch.distance_matrix@, rs) + tos_delta(ch.distance_matrix@, rs[r1], rs[r2], i, j)
        }),
{
    let dm = ch.distance_matrix@;
    let a = rs[r1];
    let b = rs[r2];
    let n1 = tail_swap(a, b, i, j);
    let n2 = tail_swap(b, a, j, i);
    let u1 = rs.update(r1, n1);
    let nrs = u1.update(r2, n2);
    lemma_tails_custs(a, b, i, j);
    lemma_replace_two(rs, r1, r2, n1, n2);
    lemma_tail_swap_len(dm, a, b, i, j);
    lemma_total_len_update(dm, rs, r1, n1);
    lemma_total_len_update(dm, u1, r2, n2);
    assert(u1[r2] == b);
    lemma_total_nodes(rs, r1, n1);
    lemma_total_nodes(u1, r2, n2);
    assert(ch.route_ok(a) && ch.route_ok(b));
    assert(ch.route_ok(n1));
    assert(ch.route_ok(n2));
    assert forall|k: int| 0 <= k < nrs.len() implies ch.route_ok(#[trigger] nrs[k]) by {
        if k != r1 && k != r2 {
            assert(nrs[k] == rs[k]);
        }
    }
}

/// Best-improvement 2-opt* over all pairs of routes: for each pair `r1 < r2` in
/// order, applies the best tail swap of the two routes as they stand (see
/// `best_tail_swap`) and records their new demands. Reports whether it applied
/// any. Before each new first route it stops once the time budget since `start`
/// is spent.
/// The 2-opt* moves of route `r1` with each route after it in turn: the best
/// valid tail swap of the pair (see `best_tail_swap`) is applied. Reports
/// whether it applied any; when it did not, no route after `r1` admits a valid
/// tail swap with it.
fn tail_swap_row(routes: &mut Vec<Vec<usize>>, route_demand: &mut Vec<i32>, ch: &Challenge, r1: usize) -> (moved: bool)
    requires
        pv_state(*ch, rv(old(routes)@), old(route_demand)@),
        r1 < old(routes)@.len(),
    ensures
        pv_state(*ch, rv(final(routes)@), final(route_demand)@),
        all_proper(rv(old(routes)@)) ==> all_proper(rv(final(routes)@)),
        demands_exact(*ch, rv(old(routes)@), old(route_demand)@) ==> demands_exact(*ch, rv(final(routes)@), final(route_demand)@),
        final(routes)@.len() == old(routes)@.len(),
        all_custs(rv(final(routes)@)) == all_custs(rv(old(routes)@)),
        total_len(ch.distance_matrix@, rv(final(routes)@)) <= total_len(ch.distance_matrix@, rv(old(routes)@)),
        moved ==> total_len(ch.distance_matrix@, rv(final(routes)@)) < total_len(ch.distance_matrix@, rv(old(routes)@)),
        !moved ==> rv(final(routes)@) == rv(old(routes)@) && final(route_demand)@ == old(route_demand)@,
        forall|k: int| 0 <= k < final(routes)@.len() ==> #[trigger] kept_or_valid(
            *ch,
            rv(old(routes)@),
            old(route_demand)@,
            rv(final(routes)@),
            final(route_demand)@,
            k,
        ),
        !moved ==> forall|b: int, i: int, j: int| r1 < b < old(routes)@.len() ==>
            !#[trigger] tos_valid(*ch, rv(old(routes)@)[r1 as int], rv(old(routes)@)[b], i, j),
{
    let ghost ors = rv(routes@);
    let ghost ord = route_demand@;
    let ghost dmv = ch.distance_matrix@;
    let mut improved_any = false;
    let n = routes.len();
    let mut r2: usize = r1 + 1;
    while r2 < n
        invariant
            pv_state(*ch, rv(routes@), route_demand@),
            all_proper(ors) ==> all_proper(rv(routes@)),
            demands_exact(*ch, ors, ord) ==> demands_exact(*ch, rv(routes@), route_demand@),
            ors.len() == n,
            routes@.len() == n,
            r1 < r2,
            r1 < n,
            dmv == ch.distance_matrix@,
            all_custs(rv(routes@)) == all_custs(ors),
            total_len(dmv, rv(routes@)) <= total_len(dmv, ors),
            improved_any ==> total_len(dmv, rv(routes@)) < total_len(dmv, ors),
            !improved_any ==> rv(routes@) == ors && route_demand@ == ord,
            forall|k: int| 0 <= k < n ==> #[trigger] kept_or_valid(*ch, ors, ord, rv(routes@), route_demand@, k),
            !improved_any ==> forall|b: int, i: int, j: int| r1 < b < r2 ==> !#[trigger] tos_valid(*ch, ors[r1 as int], ors[b], i, j),
        decreases n - r2,
    {
        let ghost rs = rv(routes@);
        let ghost rdv = route_demand@;
        proof {
            lemma_total_nodes(rs, 0, rs[0]);
            assert(rs[r1 as int].len() + rs[r2 as int].len() <= total_nodes(rs));
            assert(rs[r1 as int] == routes@[r1 as int]@);
            assert(rs[r2 as int] == routes@[r2 as int]@);
        }
        match best_tail_swap(&routes[r1], &routes[r2], ch) {
            Some((i, j, d1, d2)) => {
                let nr1 = join_slices(&routes[r1], 0, i + 1, &routes[r2], j + 1, routes[r2].len());
                let nr2 = join_slices(&routes[r2], 0, j + 1, &routes[r1], i + 1, routes[r1].len());
                proof {
                    lemma_apply_tail_swap(*ch, rs, rdv, r1 as int, r2 as int, i as int, j as int, d1, d2);
                }
                routes.set(r1, nr1);
                routes.set(r2, nr2);
                route_demand.set(r1, d1);
                route_demand.set(r2, d2);
                improved_any = true;
                proof {
                    let n1 = tail_swap(rs[r1 as int], rs[r2 as int], i as int, j as int);
                    let n2 = tail_swap(rs[r2 as int], rs[r1 as int], j as int, i as int);
                    assert(rv(routes@) =~= rs.update(r1 as int, n1).update(r2 as int, n2));
                    assert(route_demand@ =~= rdv.update(r1 as int, d1).update(r2 as int, d2));
                    assert forall|k: int| 0 <= k < n implies #[trigger] kept_or_valid(*ch, ors, ord, rv(routes@), route_demand@, k) by {
                        if k != r1 && k != r2 {
                            assert(kept_or_valid(*ch, ors, ord, rs, rdv, k));
                        }
                    }
                    if all_proper(ors) {
                        assert(proper(rs[r1 as int]) && proper(rs[r2 as int]));
                        crate::so_passes::lemma_tail_swap_normal(rs[r1 as int], rs[r2 as int], i as int, j as int);
                        crate::so_passes::lemma_tail_swap_normal(rs[r2 as int], rs[r1 as int], j as int, i as int);
                        assert forall|k: int| 0 <= k < rv(routes@).len() implies proper(#[trigger] rv(routes@)[k]) by {
                            if k != r1 && k != r2 {
                                assert(rv(routes@)[k] == rs[k]);
                            }
                        }
                    }
                    if demands_exact(*ch, ors, ord) {
                        assert forall|k: int| 0 <= k < n implies #[trigger] route_demand@[k] == dsum(*ch, rv(routes@)[k]) by {
                            if k != r1 && k != r2 {
                                assert(rdv[k] == dsum(*ch, rs[k]));
                            }
                        }
                    }
                }
            },
            None => {},
        }
        r2 += 1;
    }
    improved_any
}

pub fn two_opt_star_pass(routes: &mut Vec<Vec<usize>>, route_demand: &mut Vec<i32>, ch: &Challenge, start: &Instant) -> (res: bool)
    requires
        pv_state(*ch, rv(old(routes)@), old(route_demand)@),
    ensures
        pv_state(*ch, rv(final(routes)@), final(route_demand)@),
        all_proper(rv(old(routes)@)) ==> all_proper(rv(final(routes)@)),
        demands_exact(*ch, rv(old(routes)@), old(route_demand)@) ==> demands_exact(*ch, rv(final(routes)@), final(route_demand)@),
        final(routes)@.len() == old(routes)@.len(),
        all_custs(rv(final(routes)@)) == all_custs(rv(old(routes)@)),
        total_len(ch.distance_matrix@, rv(final(routes)@)) <= total_len(ch.distance_matrix@, rv(old(routes)@)),
        res ==> total_len(ch.distance_matrix@, rv(final(routes)@)) < total_len(ch.distance_matrix@, rv(old(routes)@)),
        !res ==> rv(final(routes)@) == rv(old(routes)@) && final(route_demand)@ == old(route_demand)@,
        forall|k: int| 0 <= k < final(routes)@.len() ==> #[trigger] kept_or_valid(
            *ch,
            rv(old(routes)@),
            old(route_demand)@,
            rv(final(routes)@),
            final(route_demand)@,
            k,
        ),
{
    let ghost ors = rv(routes@);
    let ghost ord = route_demand@;
    let ghost dmv = ch.distance_matrix@;
    let mut improved_any = false;
    let n = routes.len();
    let mut r1: usize = 0;
    while r1 < n
        invariant
            pv_state(*ch, rv(routes@), route_demand@),
            all_proper(ors) ==> all_proper(rv(routes@)),
            demands_exact(*ch, ors, ord) ==> demands_exact(*ch, rv(routes@), route_demand@),
            ors.len() == n,
            routes@.len() == n,
            dmv == ch.distance_matrix@,
            all_custs(rv(routes@)) == all_custs(ors),
            total_len(dmv, rv(routes@)) <= total_len(dmv, ors),
            improved_any ==> total_len(dmv, rv(routes@)) < total_len(dmv, ors),
            !improved_any ==> rv(routes@) == ors && route_demand@ == ord,
            forall|k: int| 0 <= k < n ==> #[trigger] kept_or_valid(*ch, ors, ord, rv(routes@), route_demand@, k),
        decreases n - r1,
    {
        if whole_millis(&elapsed_since(start)) > TIME_LIMIT_MS {
            break;
        }
        let ghost rs = rv(routes@);
        let ghost rdv = route_demand@;
        let moved = tail_swap_row(routes, route_demand, ch, r1);
        if moved {
            improved_any = true;
        }
        proof {
            assert forall|k: int| 0 <= k < n implies #[trigger] kept_or_valid(*ch, ors, ord, rv(routes@), route_demand@, k) by {
                assert(kept_or_valid(*ch, ors, ord, rs, rdv, k));
                assert(kept_or_valid(*ch, rs, rdv, rv(routes@), route_demand@, k));
            }
        }
        r1 += 1;
    }
    improved_any
}

/// One 2-opt* sweep, with no time limit: each route with each route after it,
/// as `two_opt_star_pass` does between its time checks. Reports whether it
/// applied a swap; when it did not, no pair of routes admits a valid one.
pub fn two_opt_star_sweep(routes: &mut Vec<Vec<usize>>, route_demand: &mut Vec<i32>, ch: &Challenge) -> (moved: bool)
    requires
        pv_state(*ch, rv(old(routes)@), old(route_demand)@),
    ensures
        pv_state(*ch, rv(final(routes)@), final(route_demand)@),
        all_proper(rv(old(routes)@)) ==> all_proper(rv(final(routes)@)),
        demands_exact(*ch, rv(old(routes)@), old(route_demand)@) ==> demands_exact(*ch, rv(final(routes)@), final(route_demand)@),
        final(routes)@.len() == old(routes)@.len(),
        all_custs(rv(final(routes)@)) == all_custs(rv(old(routes)@)),
        total_len(ch.distance_matrix@, rv(final(routes)@)) <= total_len(ch.distance_matrix@, rv(old(routes)@)),
        moved ==> total_len(ch.distance_matrix@, rv(final(routes)@)) < total_len(ch.distance_matrix@, rv(old(routes)@)),
        !moved ==> rv(final(routes)@) == rv(old(routes)@) && final(route_demand)@ == old(route_demand)@,
        forall|k: int| 0 <= k < final(routes)@.len() ==> #[trigger] kept_or_valid(
            *ch,
            rv(old(routes)@),
            old(route_demand)@,
            rv(final(routes)@),
            final(route_demand)@,
            k,
        ),
        !moved ==> forall|a: int, b: int, i: int, j: int| 0 <= a < b < old(routes)@.len() ==>
            !#[trigger] tos_valid(*ch, rv(old(routes)@)[a], rv(old(routes)@)[b], i, j),
{
    let ghost ors = rv(routes@);
    let ghost ord = route_demand@;
    let ghost dmv = ch.distance_matrix@;
    let mut improved_any = false;
    let n = routes.len();
    let mut r1: usize = 0;
    while r1 < n
        invariant
            pv_state(*ch, rv(routes@), route_demand@),
            all_proper(ors) ==> all_proper(rv(routes@)),
            demands_exact(*ch, ors, ord) ==> demands_exact(*ch, rv(routes@), route_demand@),
            ors.len() == n,
            routes@.len() == n,
            dmv == ch.distance_matrix@,
            all_custs(rv(routes@)) == all_custs(ors),
            total_len(dmv, rv(routes@)) <= total_len(dmv, ors),
            improved_any ==> total_len(dmv, rv(routes@)) < total_len(dmv, ors),
            !improved_any ==> rv(routes@) == ors && route_demand@ == ord,
            forall|k: int| 0 <= k < n ==> #[trigger] kept_or_valid(*ch, ors, ord, rv(routes@), route_demand@, k),
            !improved_any ==> forall|a: int, b: int, i: int, j: int| 0 <= a < r1 && a < b < n ==> !#[trigger] tos_valid(*ch, ors[a], ors[b], i, j),
        decreases n - r1,
    {
        let ghost rs = rv(routes@);
        let ghost rdv = route_demand@;
        let moved = tail_swap_row(routes, route_demand, ch, r1);
        if moved {
            improved_any = true;
        }
        proof {
            if !improved_any {
                assert forall|a: int, b: int, i: int, j: int| 0 <= a < r1 + 1 && a < b < n implies !#[trigger] tos_valid(*ch, ors[a], ors[b], i, j) by {
                    if a == r1 {
                        assert(!tos_valid(*ch, rs[r1 as int], rs[b], i, j));
                    }
                }
            }
            assert forall|k: int| 0 <= k < n implies #[trigger] kept_or_valid(*ch, ors, ord, rv(routes@), route_demand@, k) by {
                assert(kept_or_valid(*ch, ors, ord, rs, rdv, k));
                assert(kept_or_valid(*ch, rs, rdv, rv(routes@), route_demand@, k));
            }
        }
        r1 += 1;
    }
    improved_any
}

/// The recorded demand of every route is its demand.
pub open spec fn demands_exact(ch: Challenge, rs: Seq<Seq<usize>>, rd: Seq<i32>) -> bool {
    &&& rd.len() == rs.len()
    &&& forall|i: int| 0 <= i < rs.len() ==> #[trigger] rd[i] == dsum(ch, rs[i])
}

/// Overwriting a node changes the demand by the difference of the two nodes.
pub proof fn lemma_dsum_update(ch: Challenge, a: Seq<usize>, k: int, x: usize)
    requires
        0 <= k < a.len(),
    ensures
        dsum(ch, a.update(k, x)) == dsum(ch, a) - ch.demand(a[k]) + ch.demand(x),
{
    let p = a.subrange(0, k);
    let s = a.subrange(k + 1, a.len() as int);
    assert(a =~= p + seq![a[k]] + s);
    assert(a.update(k, x) =~= p + seq![x] + s);
    lemma_dsum_concat(ch, p + seq![a[k]], s);
    lemma_dsum_concat(ch, p, seq![a[k]]);
    lemma_dsum_concat(ch, p + seq![x], s);
    lemma_dsum_concat(ch, p, seq![x]);
    assert(seq![a[k]].drop_last() =~= Seq::<usize>::empty());
    assert(seq![x].drop_last() =~= Seq::<usize>::empty());
    assert(seq![a[k]].last() == a[k]);
    assert(seq![x].last() == x);
    assert(dsum(ch, Seq::<usize>::empty()) == 0);
    assert(dsum(ch, seq![a[k]]) == ch.demand(a[k]));
    assert(dsum(ch, seq![x]) == ch.demand(x));
}

/// Route `a` with its nodes at `i` and `i + 1` replaced by those of `b` at `j`
/// and `j + 1`.
pub open spec fn pair_swap(a: Seq<usize>, b: Seq<usize>, i: int, j: int) -> Seq<usize> {
    a.update(i, b[j]).update(i + 1, b[j + 1])
}

/// Change of length of exchanging the pair of `a` at `i` with the pair of `b` at `j`.
pub open spec fn ss_delta(dm: Seq<Vec<i32>>, a: Seq<usize>, b: Seq<usize>, i: int, j: int) -> int {
    dd(dm, a[i - 1], b[j]) + dd(dm, b[j + 1], a[i + 2]) + dd(dm, b[j - 1], a[i]) + dd(dm, a[i + 1], b[j + 2])
        - dd(dm, a[i - 1], a[i]) - dd(dm, a[i + 1], a[i + 2]) - dd(dm, b[j - 1], b[j]) - dd(dm, b[j + 1], b[j + 2])
}

/// Exchanging the pair of consecutive inner nodes of `a` at `i` with that of `b`
/// at `j` shortens the routes and gives two routes within the capacity and their
/// time windows.
pub open spec fn ss_valid(ch: Challenge, a: Seq<usize>, b: Seq<usize>, i: int, j: int) -> bool {
    &&& 1 <= i <= a.len() - 3
    &&& 1 <= j <= b.len() - 3
    &&& ss_delta(ch.distance_matrix@, a, b, i, j) < 0
    &&& dsum(ch, pair_swap(a, b, i, j)) <= ch.max_capacity
    &&& dsum(ch, pair_swap(b, a, j, i)) <= ch.max_capacity
    &&& time_feasible(ch.distance_matrix@, ch.service_time as int, ch.ready_times@, ch.due_times@, pair_swap(a, b, i, j))
    &&& time_feasible(ch.distance_matrix@, ch.service_time as int, ch.ready_times@, ch.due_times@, pair_swap(b, a, j, i))
}

/// Replacing two consecutive inner nodes changes the length by the edges around them.
proof fn lemma_pair_len(dm: Seq<Vec<i32>>, a: Seq<usize>, i: int, x: usize, y: usize)
    requires
        1 <= i,
        i + 2 < a.len(),
    ensures
        route_len(dm, a.update(i, x).update(i + 1, y)) == route_len(dm, a) - dd(dm, a[i - 1], a[i]) - dd(dm, a[i], a[i + 1])
            - dd(dm, a[i + 1], a[i + 2]) + dd(dm, a[i - 1], x) + dd(dm, x, y) + dd(dm, y, a[i + 2]),
{
    let p = a.subrange(0, i);
    let m = a.subrange(i, i + 2);
    let s = a.subrange(i + 2, a.len() as int);
    let m2 = seq![x, y];
    assert(a =~= (p + m) + s);
    assert(a.update(i, x).update(i + 1, y) =~= (p + m2) + s);
    lemma_route_len_concat(dm, p + m, s);
    lemma_route_len_concat(dm, p, m);
    lemma_route_len_concat(dm, p + m2, s);
    lemma_route_len_concat(dm, p, m2);
    assert(m.drop_last().drop_last().len() == 0);
    assert(m2.drop_last().drop_last().len() == 0);
    assert(route_len(dm, m.drop_last()) == 0);
    assert(route_len(dm, m2.drop_last()) == 0);
    assert((p + m).last() == a[i + 1]);
    assert((p + m2).last() == y);
}

/// Exchanging two pairs of nodes keeps the customers of the two routes together.
proof fn lemma_pair_swap_custs(a: Seq<usize>, b: Seq<usize>, i: int, j: int)
    requires
        0 <= i,
        i + 1 < a.len(),
        0 <= j,
        j + 1 < b.len(),
    ensures
        custs(pair_swap(a, b, i, j)).add(custs(pair_swap(b, a, j, i))) == custs(a).add(custs(b)),
{
    broadcast use vstd::multiset::group_multiset_axioms;
    let a1 = a.update(i, b[j]);
    let b1 = b.update(j, a[i]);
    crate::model::lemma_custs_update(a, i, b[j]);
    crate::model::lemma_custs_update(a1, i + 1, b[j + 1]);
    crate::model::lemma_custs_update(b, j, a[i]);
    crate::model::lemma_custs_update(b1, j + 1, a[i + 1]);
    assert(a1[i + 1] == a[i + 1]);
    assert(b1[j + 1] == b[j + 1]);
    let a2 = pair_swap(a, b, i, j);
    let b2 = pair_swap(b, a, j, i);
    assert forall|v: usize| #[trigger] custs(a2).add(custs(b2)).count(v) == custs(a).add(custs(b)).count(v) by {
        assert(custs(a1).add(crate::model::cust1(a[i])).count(v) == custs(a).add(crate::model::cust1(b[j])).count(v));
        assert(custs(a2).add(crate::model::cust1(a[i + 1])).count(v) == custs(a1).add(crate::model::cust1(b[j + 1])).count(v));
        assert(custs(b1).add(crate::model::cust1(b[j])).count(v) == custs(b).add(crate::model::cust1(a[i])).count(v));
        assert(custs(b2).add(crate::model::cust1(b[j + 1])).count(v) == custs(b1).add(crate::model::cust1(a[i + 1])).count(v));
    }
    assert(custs(pair_swap(a, b, i, j)).add(custs(pair_swap(b, a, j, i))) =~= custs(a).add(custs(b)));
}

/// The best pair exchange of routes `a` and `b`, whose demands are `da` and `db`:
/// valid, no longer than any other valid one, and strictly shorter than every
/// valid one before it (by `i`, then `j`). Also gives the two new demands.
#[verifier::rlimit(40)]
pub fn best_pair_swap(a: &[usize], b: &[usize], da: i32, db: i32, ch: &Challenge) -> (res: Option<(usize, usize, i32, i32)>)
    requires
        ch.wf(),
        ch.route_ok(a@),
        ch.route_ok(b@),
        a@.len() + b@.len() <= LEN_LIMIT,
        da == dsum(*ch, a@),
        db == dsum(*ch, b@),
    ensures
        res matches Some((i, j, d1, d2)) ==> {
            &&& ss_valid(*ch, a@, b@, i as int, j as int)
            &&& d1 == dsum(*ch, pair_swap(a@, b@, i as int, j as int))
            &&& d2 == dsum(*ch, pair_swap(b@, a@, j as int, i as int))
            &&& forall|i2: int, j2: int| #[trigger] ss_valid(*ch, a@, b@, i2, j2)
                ==> ss_delta(ch.distance_matrix@, a@, b@, i as int, j as int) <= ss_delta(ch.distance_matrix@, a@, b@, i2, j2)
            &&& forall|i2: int, j2: int| (i2 < i || i2 == i && j2 < j) && #[trigger] ss_valid(*ch, a@, b@, i2, j2)
                ==> ss_delta(ch.distance_matrix@, a@, b@, i as int, j as int) < ss_delta(ch.distance_matrix@, a@, b@, i2, j2)
        },
        res is None ==> forall|i2: int, j2: int| !#[trigger] ss_valid(*ch, a@, b@, i2, j2),
{
    let l1 = a.len();
    let l2 = b.len();
    if l1 < 4 || l2 < 4 {
        return None;
    }
    let dm = &ch.distance_matrix;
    let ghost dmv = ch.distance_matrix@;
    proof {
        lemma_ch_tw(*ch);
        lemma_dsum_bounds(*ch, a@);
        lemma_dsum_bounds(*ch, b@);
        assert(VALUE_LIMIT * a@.len() <= VALUE_LIMIT * LEN_LIMIT) by (nonlinear_arith)
            requires
                a@.len() <= LEN_LIMIT,
        ;
        assert(VALUE_LIMIT * b@.len() <= VALUE_LIMIT * LEN_LIMIT) by (nonlinear_arith)
            requires
                b@.len() <= LEN_LIMIT,
        ;
    }
    let mut best: Option<(usize, usize, i32, i32, i32)> = None;
    let mut i: usize = 1;
    while i < l1 - 2
        invariant
            ch.wf(),
            ch_tw(*ch),
            ch.route_ok(a@),
            ch.route_ok(b@),
            l1 == a@.len(),
            l2 == b@.len(),
            l1 >= 4,
            l2 >= 4,
            dm@ == dmv,
            dmv == ch.distance_matrix@,
            da == dsum(*ch, a@),
            db == dsum(*ch, b@),
            0 <= da <= 1_000_000_000,
            0 <= db <= 1_000_000_000,
            1 <= i <= l1 - 2,
            best matches Some(bb) ==> {
                &&& (bb.0 as int) < i
                &&& ss_valid(*ch, a@, b@, bb.0 as int, bb.1 as int)
                &&& bb.2 == ss_delta(dmv, a@, b@, bb.0 as int, bb.1 as int)
                &&& bb.3 == dsum(*ch, pair_swap(a@, b@, bb.0 as int, bb.1 as int))
                &&& bb.4 == dsum(*ch, pair_swap(b@, a@, bb.1 as int, bb.0 as int))
                &&& forall|i2: int, j2: int| i2 < i && #[trigger] ss_valid(*ch, a@, b@, i2, j2) ==> bb.2 <= ss_delta(dmv, a@, b@, i2, j2)
                &&& forall|i2: int, j2: int| (i2 < bb.0 || i2 == bb.0 && j2 < bb.1) && #[trigger] ss_valid(*ch, a@, b@, i2, j2)
                    ==> bb.2 < ss_delta(dmv, a@, b@, i2, j2)
            },
            best is None ==> forall|i2: int, j2: int| i2 < i ==> !#[trigger] ss_valid(*ch, a@, b@, i2, j2),
        decreases l1 - 2 - i,
    {
        let s1a = a[i];
        let s1b = a[i + 1];
        let p1 = a[i - 1];
        let q1 = a[i + 2];
        proof {
            assert(in_limit(dmv[p1 as int]@[s1a as int]));
            assert(in_limit(dmv[s1b as int]@[q1 as int]));
            assert(in_limit(ch.demands@[s1a as int]));
            assert(in_limit(ch.demands@[s1b as int]));
        }
        let d_old_1 = dm[p1][s1a] + dm[s1b][q1];
        let d_s1 = ch.demands[s1a] + ch.demands[s1b];
        let mut j: usize = 1;
        while j < l2 - 2
            invariant
                ch.wf(),
                ch_tw(*ch),
                ch.route_ok(a@),
                ch.route_ok(b@),
                l1 == a@.len(),
                l2 == b@.len(),
                l1 >= 4,
                l2 >= 4,
                dm@ == dmv,
                dmv == ch.distance_matrix@,
                da == dsum(*ch, a@),
                db == dsum(*ch, b@),
                0 <= da <= 1_000_000_000,
                0 <= db <= 1_000_000_000,
                1 <= i < l1 - 2,
                s1a == a@[i as int],
                s1b == a@[i + 1],
                p1 == a@[i - 1],
                q1 == a@[i + 2],
                d_old_1 == dd(dmv, p1, s1a) + dd(dmv, s1b, q1),
                d_s1 == ch.demand(s1a) + ch.demand(s1b),
                0 <= d_s1 <= 2 * VALUE_LIMIT,
                1 <= j <= l2 - 2,
                best matches Some(bb) ==> {
                    &&& (bb.0 as int) <= i
                    &&& (bb.0 == i ==> bb.1 < j)
                    &&& ss_valid(*ch, a@, b@, bb.0 as int, bb.1 as int)
                    &&& bb.2 == ss_delta(dmv, a@, b@, bb.0 as int, bb.1 as int)
                    &&& bb.3 == dsum(*ch, pair_swap(a@, b@, bb.0 as int, bb.1 as int))
                    &&& bb.4 == dsum(*ch, pair_swap(b@, a@, bb.1 as int, bb.0 as int))
                    &&& forall|i2: int, j2: int| (i2 < i || i2 == i && j2 < j) && #[trigger] ss_valid(*ch, a@, b@, i2, j2)
                        ==> bb.2 <= ss_delta(dmv, a@, b@, i2, j2)
                    &&& forall|i2: int, j2: int| (i2 < bb.0 || i2 == bb.0 && j2 < bb.1) && #[trigger] ss_valid(*ch, a@, b@, i2, j2)
                        ==> bb.2 < ss_delta(dmv, a@, b@, i2, j2)
                },
                best is None ==> forall|i2: int, j2: int| (i2 < i || i2 == i && j2 < j) ==> !#[trigger] ss_valid(*ch, a@, b@, i2, j2),
            decreases l2 - 2 - j,
        {
            let s2a = b[j];
            let s2b = b[j + 1];
            let p2 = b[j - 1];
            let q2 = b[j + 2];
            proof {
                assert(in_limit(ch.demands@[s2a as int]));
                assert(in_limit(ch.demands@[s2b as int]));
                assert(in_limit(dmv[p2 as int]@[s2a as int]));
                assert(in_limit(dmv[s2b as int]@[q2 as int]));
                assert(in_limit(dmv[p1 as int]@[s2a as int]));
                assert(in_limit(dmv[s2b as int]@[q1 as int]));
                assert(in_limit(dmv[p2 as int]@[s1a as int]));
                assert(in_limit(dmv[s1b as int]@[q2 as int]));
                let t1 = pair_swap(a@, b@, i as int, j as int);
                let t2 = pair_swap(b@, a@, j as int, i as int);
                lemma_dsum_update(*ch, a@, i as int, s2a);
                lemma_dsum_update(*ch, a@.update(i as int, s2a), i + 1, s2b);
                lemma_dsum_update(*ch, b@, j as int, s1a);
                lemma_dsum_update(*ch, b@.update(j as int, s1a), j + 1, s1b);
            }
            let d_s2 = ch.demands[s2a] + ch.demands[s2b];
            let new_d1 = da - d_s1 + d_s2;
            let new_d2 = db - d_s2 + d_s1;
            assert(new_d1 == dsum(*ch, pair_swap(a@, b@, i as int, j as int)));
            assert(new_d2 == dsum(*ch, pair_swap(b@, a@, j as int, i as int)));
            if new_d1 <= ch.max_capacity && new_d2 <= ch.max_capacity {
                let d_old_2 = dm[p2][s2a] + dm[s2b][q2];
                let d_new_1 = dm[p1][s2a] + dm[s2b][q1];
                let d_new_2 = dm[p2][s1a] + dm[s1b][q2];
                let delta = (d_new_1 + d_new_2) - (d_old_1 + d_old_2);
                assert(delta == ss_delta(dmv, a@, b@, i as int, j as int));
                let worse = match best {
                    None => false,
                    Some(bb) => delta >= bb.2,
                };
                if delta < 0 && !worse {
                    let mut t1 = copy_route(a);
                    t1.set(i, s2a);
                    t1.set(i + 1, s2b);
                    let mut t2 = copy_route(b);
                    t2.set(j, s1a);
                    t2.set(j + 1, s1b);
                    assert(t1@ == pair_swap(a@, b@, i as int, j as int));
                    assert(t2@ == pair_swap(b@, a@, j as int, i as int));
                    assert(nodes_below(t1@, dmv.len() as int));
                    assert(nodes_below(t2@, dmv.len() as int));
                    let f1 = is_time_feasible(&t1, dm, ch.service_time, &ch.ready_times, &ch.due_times);
                    if f1 {
                        let f2 = is_time_feasible(&t2, dm, ch.service_time, &ch.ready_times, &ch.due_times);
                        if f2 {
                            best = Some((i, j, delta, new_d1, new_d2));
                        }
                    }
                }
            }
            j += 1;
        }
        i += 1;
    }
    match best {
        Some(bb) => Some((bb.0, bb.1, bb.3, bb.4)),
        None => None,
    }
}

/// Exchanging pairs of routes `r1` and `r2` by a valid exchange keeps the pass
/// state, exact demands and the customers, and changes the solution's length by
/// the exchange's change.
proof fn lemma_apply_pair_swap(ch: Challenge, rs: Seq<Seq<usize>>, rd: Seq<i32>, r1: int, r2: int, i: int, j: int, d1: i32, d2: i32)
    requires
        pv_state(ch, rs, rd),
        0 <= r1 < r2 < rs.len(),
        ss_valid(ch, rs[r1], rs[r2], i, j),
        d1 == dsum(ch, pair_swap(rs[r1], rs[r2], i, j)),
        d2 == dsum(ch, pair_swap(rs[r2], rs[r1], j, i)),
    ensures
        ({
            let n1 = pair_swap(rs[r1], rs[r2], i, j);
            let n2 = pair_swap(rs[r2], rs[r1], j, i);
            let nrs = rs.update(r1, n1).update(r2, n2);
            &&& pv_state(ch, nrs, rd.update(r1, d1).update(r2, d2))
            &&& all_custs(nrs) == all_custs(rs)
            &&& total_len(ch.distance_matrix@, nrs) == total_len(ch.distance_matrix@, rs) + ss_delta(ch.distance_matrix@, rs[r1], rs[r2], i, j)
        }),
{
    let dm = ch.distance_matrix@;
    let a = rs[r1];
    let b = rs[r2];
    let n1 = pair_swap(a, b, i, j);
    let n2 = pair_swap(b, a, j, i);
    let u1 = rs.update(r1, n1);
    let nrs = u1.update(r2, n2);
    lemma_pair_swap_custs(a, b, i, j);
    lemma_replace_two(rs, r1, r2, n1, n2);
    lemma_pair_len(dm, a, i, b[j], b[j + 1]);
    lemma_pair_len(dm, b, j, a[i], a[i + 1]);
    lemma_total_len_update(dm, rs, r1, n1);
    lemma_total_len_update(dm, u1, r2, n2);
    assert(u1[r2] == b);
    lemma_total_nodes(rs, r1, n1);
    lemma_total_nodes(u1, r2, n2);
    assert(ch.route_ok(a) && ch.route_ok(b));
    assert(ch.route_ok(n1));
    assert(ch.route_ok(n2));
    assert forall|k: int| 0 <= k < nrs.len() implies ch.route_ok(#[trigger] nrs[k]) by {
        if k != r1 && k != r2 {
            assert(nrs[k] == rs[k]);
        }
    }
}

/// Best-improvement 2-2 exchange over all pairs of routes: for each pair
/// `r1 < r2` in order, applies the best exchange of two consecutive inner nodes
/// of each route as they stand (see `best_pair_swap`) and records their new
/// demands. Reports whether it applied any. Before each new first route it stops
/// once the time budget since `start` is spent.
/// The segment swaps of route `r1` with each route after it in turn: the best
/// valid swap of two adjacent customers of each (see `best_pair_swap`) is
/// applied. Reports whether it applied any; when it did not, no route after
/// `r1` admits a valid swap with it.
fn pair_swap_row(routes: &mut Vec<Vec<usize>>, route_demand: &mut Vec<i32>, ch: &Challenge, r1: usize) -> (moved: bool)
    requires
        pv_state(*ch, rv(old(routes)@), old(route_demand)@),
        demands_exact(*ch, rv(old(routes)@), old(route_demand)@),
        r1 < old(routes)@.len(),
    ensures
        pv_state(*ch, rv(final(routes)@), final(route_demand)@),
        demands_exact(*ch, rv(final(routes)@), final(route_demand)@),
        final(routes)@.len() == old(routes)@.len(),
        forall|k: int| 0 <= k < final(routes)@.len() ==> (#[trigger] final(routes)@[k]@).len() == old(routes)@[k]@.len(),
        all_custs(rv(final(routes)@)) == all_custs(rv(old(routes)@)),
        total_len(ch.distance_matrix@, rv(final(routes)@)) <= total_len(ch.distance_matrix@, rv(old(routes)@)),
        moved ==> total_len(ch.distance_matrix@, rv(final(routes)@)) < total_len(ch.distance_matrix@, rv(old(routes)@)),
        !moved ==> rv(final(routes)@) == rv(old(routes)@) && final(route_demand)@ == old(route_demand)@,
        forall|k: int| 0 <= k < final(routes)@.len() ==> #[trigger] kept_or_valid(
            *ch,
            rv(old(routes)@),
            old(route_demand)@,
            rv(final(routes)@),
            final(route_demand)@,
            k,
        ),
        !moved ==> forall|b: int, i: int, j: int| r1 < b < old(routes)@.len() ==>
            !#[trigger] ss_valid(*ch, rv(old(routes)@)[r1 as int], rv(old(routes)@)[b], i, j),
{
    let ghost ors = rv(routes@);
    let ghost ord = route_demand@;
    let ghost dmv = ch.distance_matrix@;
    let mut improved_any = false;
    let n = routes.len();
    let mut r2: usize = r1 + 1;
    while r2 < n
        invariant
            pv_state(*ch, rv(routes@), route_demand@),
            demands_exact(*ch, rv(routes@), route_demand@),
            ors.len() == n,
            routes@.len() == n,
            forall|k: int| 0 <= k < routes@.len() ==> (#[trigger] routes@[k]@).len() == old(routes)@[k]@.len(),
            r1 < r2,
            r1 < n,
            dmv == ch.distance_matrix@,
            all_custs(rv(routes@)) == all_custs(ors),
            total_len(dmv, rv(routes@)) <= total_len(dmv, ors),
            improved_any ==> total_len(dmv, rv(routes@)) < total_len(dmv, ors),
            !improved_any ==> rv(routes@) == ors && route_demand@ == ord,
            forall|k: int| 0 <= k < n ==> #[trigger] kept_or_valid(*ch, ors, ord, rv(routes@), route_demand@, k),
            !improved_any ==> forall|b: int, i: int, j: int| r1 < b < r2 ==> !#[trigger] ss_valid(*ch, ors[r1 as int], ors[b], i, j),
        decreases n - r2,
    {
        let ghost rs = rv(routes@);
        let ghost rdv = route_demand@;
        proof {
            lemma_total_nodes(rs, 0, rs[0]);
            assert(rs[r1 as int].len() + rs[r2 as int].len() <= total_nodes(rs));
            assert(rs[r1 as int] == routes@[r1 as int]@);
            assert(rs[r2 as int] == routes@[r2 as int]@);
        }
        match best_pair_swap(&routes[r1], &routes[r2], route_demand[r1], route_demand[r2], ch) {
            Some((i, j, d1, d2)) => {
                let mut nr1 = copy_route(&routes[r1]);
                let mut nr2 = copy_route(&routes[r2]);
                let s1a = nr1[i];
                let s1b = nr1[i + 1];
                let s2a = nr2[j];
                let s2b = nr2[j + 1];
                nr1.set(i, s2a);
                nr1.set(i + 1, s2b);
                nr2.set(j, s1a);
                nr2.set(j + 1, s1b);
                proof {
                    lemma_apply_pair_swap(*ch, rs, rdv, r1 as int, r2 as int, i as int, j as int, d1, d2);
                    assert(nr1@ == pair_swap(rs[r1 as int], rs[r2 as int], i as int, j as int));
                    assert(nr2@ == pair_swap(rs[r2 as int], rs[r1 as int], j as int, i as int));
                }
                routes.set(r1, nr1);
                routes.set(r2, nr2);
                route_demand.set(r1, d1);
                route_demand.set(r2, d2);
                improved_any = true;
                proof {
                    let n1 = pair_swap(rs[r1 as int], rs[r2 as int], i as int, j as int);
                    let n2 = pair_swap(rs[r2 as int], rs[r1 as int], j as int, i as int);
                    assert(rv(routes@) =~= rs.update(r1 as int, n1).update(r2 as int, n2));
                    assert(route_demand@ =~= rdv.update(r1 as int, d1).update(r2 as int, d2));
                    assert forall|k: int| 0 <= k < n implies #[trigger] kept_or_valid(*ch, ors, ord, rv(routes@), route_demand@, k) by {
                        if k != r1 && k != r2 {
                            assert(kept_or_valid(*ch, ors, ord, rs, rdv, k));
                        }
                    }
                    assert forall|k: int| 0 <= k < n implies #[trigger] route_demand@[k] == dsum(*ch, rv(routes@)[k]) by {
                        if k != r1 && k != r2 {
                            assert(rdv[k] == dsum(*ch, rs[k]));
                        }
                    }
                }
            },
            None => {},
        }
        r2 += 1;
    }
    improved_any
}

pub fn segment_swap_pass(routes: &mut Vec<Vec<usize>>, route_demand: &mut Vec<i32>, ch: &Challenge, start: &Instant) -> (res: bool)
    requires
        pv_state(*ch, rv(old(routes)@), old(route_demand)@),
        demands_exact(*ch, rv(old(routes)@), old(route_demand)@),
    ensures
        pv_state(*ch, rv(final(routes)@), final(route_demand)@),
        demands_exact(*ch, rv(final(routes)@), final(route_demand)@),
        final(routes)@.len() == old(routes)@.len(),
        forall|k: int| 0 <= k < final(routes)@.len() ==> (#[trigger] final(routes)@[k]@).len() == old(routes)@[k]@.len(),
        all_custs(rv(final(routes)@)) == all_custs(rv(old(routes)@)),
        total_len(ch.distance_matrix@, rv(final(routes)@)) <= total_len(ch.distance_matrix@, rv(old(routes)@)),
        res ==> total_len(ch.distance_matrix@, rv(final(routes)@)) < total_len(ch.distance_matrix@, rv(old(routes)@)),
        !res ==> rv(final(routes)@) == rv(old(routes)@) && final(route_demand)@ == old(route_demand)@,
        forall|k: int| 0 <= k < final(routes)@.len() ==> #[trigger] kept_or_valid(
            *ch,
            rv(old(routes)@),
            old(route_demand)@,
            rv(final(routes)@),
            final(route_demand)@,
            k,
        ),
{
    let ghost ors = rv(routes@);
    let ghost ord = route_demand@;
    let ghost dmv = ch.distance_matrix@;
    let mut improved_any = false;
    let n = routes.len();
    let mut r1: usize = 0;
    while r1 < n
        invariant
            pv_state(*ch, rv(routes@), route_demand@),
            demands_exact(*ch, rv(routes@), route_demand@),
            ors.len() == n,
            routes@.len() == n,
            forall|k: int| 0 <= k < routes@.len() ==> (#[trigger] routes@[k]@).len() == old(routes)@[k]@.len(),
            dmv == ch.distance_matrix@,
            all_custs(rv(routes@)) == all_custs(ors),
            total_len(dmv, rv(routes@)) <= total_len(dmv, ors),
            improved_any ==> total_len(dmv, rv(routes@)) < total_len(dmv, ors),
            !improved_any ==> rv(routes@) == ors && route_demand@ == ord,
            forall|k: int| 0 <= k < n ==> #[trigger] kept_or_valid(*ch, ors, ord, rv(routes@), route_demand@, k),
        decreases n - r1,
    {
        if whole_millis(&elapsed_since(start)) > TIME_LIMIT_MS {
            break;
        }
        let ghost rs = rv(routes@);
        let ghost rdv = route_demand@;
        let moved = pair_swap_row(routes, route_demand, ch, r1);
        if moved {
            improved_any = true;
        }
        proof {
            assert forall|k: int| 0 <= k < n implies #[trigger] kept_or_valid(*ch, ors, ord, rv(routes@), route_demand@, k) by {
                assert(kept_or_valid(*ch, ors, ord, rs, rdv, k));
                assert(kept_or_valid(*ch, rs, rdv, rv(routes@), route_demand@, k));
            }
        }
        r1 += 1;
    }
    improved_any
}

/// One segment-swap sweep, with no time limit: each route with each route
/// after it, as `segment_swap_pass` does between its time checks. Reports
/// whether it applied a swap; when it did not, no pair of routes admits a valid
/// one.
pub fn segment_swap_sweep(routes: &mut Vec<Vec<usize>>, route_demand: &mut Vec<i32>, ch: &Challenge) -> (moved: bool)
    requires
        pv_state(*ch, rv(old(routes)@), old(route_demand)@),
        demands_exact(*ch, rv(old(routes)@), old(route_demand)@),
    ensures
        pv_state(*ch, rv(final(routes)@), final(route_demand)@),
        demands_exact(*ch, rv(final(routes)@), final(route_demand)@),
        final(routes)@.len() == old(routes)@.len(),
        forall|k: int| 0 <= k < final(routes)@.len() ==> (#[trigger] final(routes)@[k]@).len() == old(routes)@[k]@.len(),
        all_custs(rv(final(routes)@)) == all_custs(rv(old(routes)@)),
        total_len(ch.distance_matrix@, rv(final(routes)@)) <= total_len(ch.distance_matrix@, rv(old(routes)@)),
        moved ==> total_len(ch.distance_matrix@, rv(final(routes)@)) < total_len(ch.distance_matrix@, rv(old(routes)@)),
        !moved ==> rv(final(routes)@) == rv(old(routes)@) && final(route_demand)@ == old(route_demand)@,
        forall|k: int| 0 <= k < final(routes)@.len() ==> #[trigger] kept_or_valid(
            *ch,
            rv(old(routes)@),
            old(route_demand)@,
            rv(final(routes)@),
            final(route_demand)@,
            k,
        ),
        !moved ==> forall|a: int, b: int, i: int, j: int| 0 <= a < b < old(routes)@.len() ==>
            !#[trigger] ss_valid(*ch, rv(old(routes)@)[a], rv(old(routes)@)[b], i, j),
{
    let ghost ors = rv(routes@);
    let ghost ord = route_demand@;
    let ghost dmv = ch.distance_matrix@;
    let mut improved_any = false;
    let n = routes.len();
    let mut r1: usize = 0;
    while r1 < n
        invariant
            pv_state(*ch, rv(routes@), route_demand@),
            demands_exact(*ch, rv(routes@), route_demand@),
            ors.len() == n,
            routes@.len() == n,
            forall|k: int| 0 <= k < routes@.len() ==> (#[trigger] routes@[k]@).len() == old(routes)@[k]@.len(),
            dmv == ch.distance_matrix@,
            all_custs(rv(routes@)) == all_custs(ors),
            total_len(dmv, rv(routes@)) <= total_len(dmv, ors),
            improved_any ==> total_len(dmv, rv(routes@)) < total_len(dmv, ors),
            !improved_any ==> rv(routes@) == ors && route_demand@ == ord,
            forall|k: int| 0 <= k < n ==> #[trigger] kept_or_valid(*ch, ors, ord, rv(routes@), route_demand@, k),
            !improved_any ==> forall|a: int, b: int, i: int, j: int| 0 <= a < r1 && a < b < n ==> !#[trigger] ss_valid(*ch, ors[a], ors[b], i, j),
        decreases n - r1,
    {
        let ghost rs = rv(routes@);
        let ghost rdv = route_demand@;
        let moved = pair_swap_row(routes, route_demand, ch, r1);
        if moved {
            improved_any = true;
        }
        proof {
            if !improved_any {
                assert forall|a: int, b: int, i: int, j: int| 0 <= a < r1 + 1 && a < b < n implies !#[trigger] ss_valid(*ch, ors[a], ors[b], i, j) by {
                    if a == r1 {
                        assert(!ss_valid(*ch, rs[r1 as int], rs[b], i, j));
                    }
                }
            }
            assert forall|k: int| 0 <= k < n implies #[trigger] kept_or_valid(*ch, ors, ord, rv(routes@), route_demand@, k) by {
                assert(kept_or_valid(*ch, ors, ord, rs, rdv, k));
                assert(kept_or_valid(*ch, rs, rdv, rv(routes@), route_demand@, k));
            }
        }
        r1 += 1;
    }
    improved_any
}

/// Exchanging customer `p1` of route `a` with customer `p2` of route `b` shortens
/// them, keeps both within the capacity by their demands `da` and `db`, and
/// leaves both within their time windows.
pub open spec fn ex_valid(ch: Challenge, a: Seq<usize>, b: Seq<usize>, da: int, db: int, p1: int, p2: int) -> bool {
    &&& 1 <= p1 < a.len() - 1
    &&& 1 <= p2 < b.len() - 1
    &&& da - ch.demand(a[p1]) + ch.demand(b[p2]) <= ch.max_capacity
    &&& db - ch.demand(b[p2]) + ch.demand(a[p1]) <= ch.max_capacity
    &&& ex_delta(ch.distance_matrix@, a, b, p1, p2) < 0
    &&& time_feasible(ch.distance_matrix@, ch.service_time as int, ch.ready_times@, ch.due_times@, a.update(p1, b[p2]))
    &&& time_feasible(ch.distance_matrix@, ch.service_time as int, ch.ready_times@, ch.due_times@, b.update(p2, a[p1]))
}

/// Change of length of exchanging customer `p1` of `a` with customer `p2` of `b`.
pub open spec fn ex_delta(dm: Seq<Vec<i32>>, a: Seq<usize>, b: Seq<usize>, p1: int, p2: int) -> int {
    dd(dm, a[p1 - 1], b[p2]) + dd(dm, b[p2], a[p1 + 1]) + dd(dm, b[p2 - 1], a[p1]) + dd(dm, a[p1], b[p2 + 1])
        - dd(dm, a[p1 - 1], a[p1]) - dd(dm, a[p1], a[p1 + 1]) - dd(dm, b[p2 - 1], b[p2]) - dd(dm, b[p2], b[p2 + 1])
}

/// Overwriting an inner node changes the length by the edges around it.
pub(crate) proof fn lemma_update_len(dm: Seq<Vec<i32>>, a: Seq<usize>, i: int, x: usize)
    requires
        1 <= i < a.len() - 1,
    ensures
        route_len(dm, a.update(i, x)) == route_len(dm, a) - dd(dm, a[i - 1], a[i]) - dd(dm, a[i], a[i + 1])
            + dd(dm, a[i - 1], x) + dd(dm, x, a[i + 1]),
{
    crate::model::lemma_route_len_remove(dm, a, i);
    assert(a.update(i, x) =~= a.remove(i).insert(i, x));
    crate::model::lemma_route_len_insert(dm, a.remove(i), i, x);
    assert(a.remove(i)[i - 1] == a[i - 1]);
    assert(a.remove(i)[i] == a[i + 1]);
}

/// The best exchange partner in route `b` for customer `p1` of route `a`: valid,
/// strictly shorter than every valid one before it, and no longer than any.
fn best_exchange_partner(a: &Vec<usize>, b: &Vec<usize>, da: i32, db: i32, p1: usize, ch: &Challenge) -> (res: Option<usize>)
    requires
        ch.wf(),
        ch.route_ok(a@),
        ch.route_ok(b@),
        b@.len() >= 1,
        1 <= p1 < a@.len() - 1,
        0 <= da <= 1_000_000_000,
        0 <= db <= 1_000_000_000,
    ensures
        res matches Some(p2) ==> ex_valid(*ch, a@, b@, da as int, db as int, p1 as int, p2 as int)
            && (forall|q: int| #[trigger] ex_valid(*ch, a@, b@, da as int, db as int, p1 as int, q)
                ==> ex_delta(ch.distance_matrix@, a@, b@, p1 as int, p2 as int) <= ex_delta(ch.distance_matrix@, a@, b@, p1 as int, q))
            && (forall|q: int| q < p2 && #[trigger] ex_valid(*ch, a@, b@, da as int, db as int, p1 as int, q)
                ==> ex_delta(ch.distance_matrix@, a@, b@, p1 as int, p2 as int) < ex_delta(ch.distance_matrix@, a@, b@, p1 as int, q)),
        res is None ==> forall|q: int| !#[trigger] ex_valid(*ch, a@, b@, da as int, db as int, p1 as int, q),
{
    let dm = &ch.distance_matrix;
    let ghost dmv = ch.distance_matrix@;
    let alen = a.len();
    let c1 = a[p1];
    let a1 = a[p1 - 1];
    let b1 = a[p1 + 1];
    proof {
        lemma_ch_tw(*ch);
        assert(in_limit(ch.demands@[c1 as int]));
        assert(in_limit(dmv[a1 as int]@[c1 as int]));
        assert(in_limit(dmv[c1 as int]@[b1 as int]));
    }
    let mut best: Option<(usize, i32)> = None;
    let mut p2: usize = 1;
    while p2 < b.len() - 1
        invariant
            ch.wf(),
            ch_tw(*ch),
            dm@ == dmv,
            dmv == ch.distance_matrix@,
            ch.route_ok(a@),
            ch.route_ok(b@),
            b@.len() >= 1,
            1 <= p1 < a@.len() - 1,
            c1 == a@[p1 as int],
            a1 == a@[p1 - 1],
            b1 == a@[p1 + 1],
            0 <= da <= 1_000_000_000,
            0 <= db <= 1_000_000_000,
            1 <= p2,
            b@.len() >= 2 ==> p2 <= b@.len() - 1,
            best matches Some(bb) ==> bb.0 < p2 && ex_valid(*ch, a@, b@, da as int, db as int, p1 as int, bb.0 as int)
                && bb.1 == ex_delta(dmv, a@, b@, p1 as int, bb.0 as int)
                && (forall|q: int| q < p2 && #[trigger] ex_valid(*ch, a@, b@, da as int, db as int, p1 as int, q) ==> bb.1 <= ex_delta(dmv, a@, b@, p1 as int, q))
                && (forall|q: int| q < bb.0 && #[trigger] ex_valid(*ch, a@, b@, da as int, db as int, p1 as int, q) ==> bb.1 < ex_delta(dmv, a@, b@, p1 as int, q)),
            best is None ==> forall|q: int| q < p2 ==> !#[trigger] ex_valid(*ch, a@, b@, da as int, db as int, p1 as int, q),
        decreases b.len() - p2,
    {
        let c2 = b[p2];
        let a2 = b[p2 - 1];
        let b2 = b[p2 + 1];
        proof {
            assert(in_limit(ch.demands@[c2 as int]));
            assert(in_limit(dmv[a2 as int]@[c2 as int]));
            assert(in_limit(dmv[c2 as int]@[b2 as int]));
            assert(in_limit(dmv[a1 as int]@[c2 as int]));
            assert(in_limit(dmv[c2 as int]@[b1 as int]));
            assert(in_limit(dmv[a2 as int]@[c1 as int]));
            assert(in_limit(dmv[c1 as int]@[b2 as int]));
        }
        let new_d1 = da - ch.demands[c1] + ch.demands[c2];
        let new_d2 = db - ch.demands[c2] + ch.demands[c1];
        if new_d1 <= ch.max_capacity && new_d2 <= ch.max_capacity {
            let old_edges = dm[a1][c1] + dm[c1][b1] + dm[a2][c2] + dm[c2][b2];
            let new_edges = dm[a1][c2] + dm[c2][b1] + dm[a2][c1] + dm[c1][b2];
            let delta = new_edges - old_edges;
            assert(delta == ex_delta(dmv, a@, b@, p1 as int, p2 as int));
            let better = match best {
                None => true,
                Some(bb) => delta < bb.1,
            };
            if delta < 0 && better {
                let mut trial1 = copy_route(a);
                trial1.set(p1, c2);
                let mut trial2 = copy_route(b);
                trial2.set(p2, c1);
                assert(trial1@ == a@.update(p1 as int, c2));
                assert(trial2@ == b@.update(p2 as int, c1));
                assert(nodes_below(trial1@, dmv.len() as int));
                assert(nodes_below(trial2@, dmv.len() as int));
                if is_time_feasible(&trial1, dm, ch.service_time, &ch.ready_times, &ch.due_times)
                    && is_time_feasible(&trial2, dm, ch.service_time, &ch.ready_times, &ch.due_times) {
                    best = Some((p2, delta));
                }
            }
        }
        p2 += 1;
    }
    match best {
        Some(bb) => Some(bb.0),
        None => None,
    }
}

/// Best-improvement exchange over all pairs of routes: for each pair `r1 < r2` in
/// order and each customer of `r1` in turn, exchanges it with its best partner in
/// `r2` (see `best_exchange_partner`) and records the new demands. Before each new
/// first route it stops once the time budget since `start` is spent. Reports
/// whether it exchanged any pair.
/// The exchanges of route `r1` with each route after it in turn: each customer
/// of `r1` in order trades places with its best valid partner in the other
/// route (see `best_exchange_partner`). Reports whether it made any exchange;
/// when it did not, no route after `r1` admits a valid exchange with it.
fn exchange_row(routes: &mut Vec<Vec<usize>>, route_demand: &mut Vec<i32>, ch: &Challenge, r1: usize) -> (moved: bool)
    requires
        pv_state(*ch, rv(old(routes)@), old(route_demand)@),
        demands_exact(*ch, rv(old(routes)@), old(route_demand)@),
        forall|i: int| 0 <= i < old(routes)@.len() ==> (#[trigger] old(routes)@[i]@).len() >= 2,
        r1 < old(routes)@.len(),
    ensures
        pv_state(*ch, rv(final(routes)@), final(route_demand)@),
        all_proper(rv(old(routes)@)) ==> all_proper(rv(final(routes)@)),
        demands_exact(*ch, rv(final(routes)@), final(route_demand)@),
        final(routes)@.len() == old(routes)@.len(),
        forall|k: int| 0 <= k < final(routes)@.len() ==> (#[trigger] final(routes)@[k]@).len() == old(routes)@[k]@.len(),
        all_custs(rv(final(routes)@)) == all_custs(rv(old(routes)@)),
        total_len(ch.distance_matrix@, rv(final(routes)@)) <= total_len(ch.distance_matrix@, rv(old(routes)@)),
        moved ==> total_len(ch.distance_matrix@, rv(final(routes)@)) < total_len(ch.distance_matrix@, rv(old(routes)@)),
        !moved ==> rv(final(routes)@) == rv(old(routes)@) && final(route_demand)@ == old(route_demand)@,
        forall|k: int| 0 <= k < final(routes)@.len() ==> #[trigger] kept_or_valid(
            *ch,
            rv(old(routes)@),
            old(route_demand)@,
            rv(final(routes)@),
            final(route_demand)@,
            k,
        ),
        !moved ==> forall|b: int, i: int, j: int| r1 < b < old(routes)@.len() ==>
            !#[trigger] ex_valid(*ch, rv(old(routes)@)[r1 as int], rv(old(routes)@)[b], old(route_demand)@[r1 as int] as int, old(route_demand)@[b] as int, i, j),
{
    let ghost ors = rv(routes@);
    let ghost ord = route_demand@;
    let ghost dmv = ch.distance_matrix@;
    let mut improved_any = false;
    let n = routes.len();
    let mut r2: usize = r1 + 1;
    while r2 < n
        invariant
            pv_state(*ch, rv(routes@), route_demand@),
            demands_exact(*ch, rv(routes@), route_demand@),
            all_proper(ors) ==> all_proper(rv(routes@)),
            forall|i: int| 0 <= i < routes@.len() ==> (#[trigger] routes@[i]@).len() >= 2,
            ors.len() == n,
            routes@.len() == n,
            forall|k: int| 0 <= k < routes@.len() ==> (#[trigger] routes@[k]@).len() == old(routes)@[k]@.len(),
            r1 < r2,
            r1 < n,
            dmv == ch.distance_matrix@,
            all_custs(rv(routes@)) == all_custs(ors),
            total_len(dmv, rv(routes@)) <= total_len(dmv, ors),
            improved_any ==> total_len(dmv, rv(routes@)) < total_len(dmv, ors),
            !improved_any ==> rv(routes@) == ors && route_demand@ == ord,
            forall|k: int| 0 <= k < n ==> #[trigger] kept_or_valid(*ch, ors, ord, rv(routes@), route_demand@, k),
            !improved_any ==> forall|b: int, i: int, j: int| r1 < b < r2 ==> !#[trigger] ex_valid(*ch, ors[r1 as int], ors[b], ord[r1 as int] as int, ord[b] as int, i, j),
        decreases n - r2,
    {
        let ghost imp0 = improved_any;
        let mut p1: usize = 1;
        while p1 < routes[r1].len() - 1
            invariant
                pv_state(*ch, rv(routes@), route_demand@),
                demands_exact(*ch, rv(routes@), route_demand@),
                all_proper(ors) ==> all_proper(rv(routes@)),
                forall|i: int| 0 <= i < routes@.len() ==> (#[trigger] routes@[i]@).len() >= 2,
                ors.len() == n,
                routes@.len() == n,
                forall|k: int| 0 <= k < routes@.len() ==> (#[trigger] routes@[k]@).len() == old(routes)@[k]@.len(),
                r1 < r2 < n,
                1 <= p1 <= routes@[r1 as int]@.len(),
                dmv == ch.distance_matrix@,
                all_custs(rv(routes@)) == all_custs(ors),
                total_len(dmv, rv(routes@)) <= total_len(dmv, ors),
                improved_any ==> total_len(dmv, rv(routes@)) < total_len(dmv, ors),
                !improved_any ==> rv(routes@) == ors && route_demand@ == ord,
                forall|k: int| 0 <= k < n ==> #[trigger] kept_or_valid(*ch, ors, ord, rv(routes@), route_demand@, k),
                imp0 ==> improved_any,
                !improved_any ==> forall|i: int, j: int| i < p1 ==> !#[trigger] ex_valid(*ch, ors[r1 as int], ors[r2 as int], ord[r1 as int] as int, ord[r2 as int] as int, i, j),
            decreases routes@[r1 as int]@.len() - p1,
        {
            let ghost rs = rv(routes@);
            let ghost rdv = route_demand@;
            assert(rs[r1 as int] == routes@[r1 as int]@);
            assert(rs[r2 as int] == routes@[r2 as int]@);
            proof {
                lemma_total_nodes(rs, 0, rs[0]);
                lemma_dsum_bounds(*ch, rs[r1 as int]);
                lemma_dsum_bounds(*ch, rs[r2 as int]);
                assert(VALUE_LIMIT * rs[r1 as int].len() <= VALUE_LIMIT * LEN_LIMIT) by (nonlinear_arith)
                    requires
                        rs[r1 as int].len() <= LEN_LIMIT,
                ;
                assert(VALUE_LIMIT * rs[r2 as int].len() <= VALUE_LIMIT * LEN_LIMIT) by (nonlinear_arith)
                    requires
                        rs[r2 as int].len() <= LEN_LIMIT,
                ;
            }
            match best_exchange_partner(&routes[r1], &routes[r2], route_demand[r1], route_demand[r2], p1, ch) {
                Some(p2) => {
                    let c1 = routes[r1][p1];
                    let c2 = routes[r2][p2];
                    let ghost a = rs[r1 as int];
                    let ghost b = rs[r2 as int];
                    let ghost n1 = a.update(p1 as int, c2);
                    let ghost n2 = b.update(p2 as int, c1);
                    proof {
                        lemma_dsum_update(*ch, a, p1 as int, c2);
                        lemma_dsum_update(*ch, b, p2 as int, c1);
                        lemma_update_len(dmv, a, p1 as int, c2);
                        lemma_update_len(dmv, b, p2 as int, c1);
                        let u1 = rs.update(r1 as int, n1);
                        lemma_total_len_update(dmv, rs, r1 as int, n1);
                        lemma_total_len_update(dmv, u1, r2 as int, n2);
                        assert(u1[r2 as int] == b);
                        lemma_total_nodes(rs, r1 as int, n1);
                        lemma_total_nodes(u1, r2 as int, n2);
                        crate::model::lemma_custs_update(a, p1 as int, c2);
                        crate::model::lemma_custs_update(b, p2 as int, c1);
                        assert(custs(n1).add(custs(n2)) =~= custs(a).add(custs(b))) by {
                            broadcast use vstd::multiset::group_multiset_axioms;
                            assert forall|x: usize| custs(n1).add(custs(n2)).count(x) == custs(a).add(custs(b)).count(x) by {
                                assert(custs(n1).add(crate::model::cust1(a[p1 as int])).count(x) == custs(a).add(crate::model::cust1(c2)).count(x));
                                assert(custs(n2).add(crate::model::cust1(b[p2 as int])).count(x) == custs(b).add(crate::model::cust1(c1)).count(x));
                            }
                        }
                        lemma_replace_two(rs, r1 as int, r2 as int, n1, n2);
                        assert(ch.route_ok(a) && ch.route_ok(b));
                        assert(in_limit(ch.demands@[c1 as int]));
                        assert(in_limit(ch.demands@[c2 as int]));
                    }
                    let nd1 = route_demand[r1] - ch.demands[c1] + ch.demands[c2];
                    let nd2 = route_demand[r2] - ch.demands[c2] + ch.demands[c1];
                    let mut nr1 = copy_route(&routes[r1]);
                    nr1.set(p1, c2);
                    let mut nr2 = copy_route(&routes[r2]);
                    nr2.set(p2, c1);
                    routes.set(r1, nr1);
                    routes.set(r2, nr2);
                    route_demand.set(r1, nd1);
                    route_demand.set(r2, nd2);
                    improved_any = true;
                    proof {
                        assert(rv(routes@) =~= rs.update(r1 as int, n1).update(r2 as int, n2));
                        assert(route_demand@ =~= rdv.update(r1 as int, nd1).update(r2 as int, nd2));
                        assert forall|k: int| 0 <= k < rv(routes@).len() implies ch.route_ok(#[trigger] rv(routes@)[k]) by {
                            if k != r1 && k != r2 {
                                assert(rv(routes@)[k] == rs[k]);
                            }
                        }
                        if all_proper(ors) {
                            assert(proper(a) && proper(b));
                            assert forall|k: int| 0 <= k < rv(routes@).len() implies proper(#[trigger] rv(routes@)[k]) by {
                                if k == r1 {
                                    assert forall|q: int| 0 < q < n1.len() - 1 implies #[trigger] n1[q] != 0 by {
                                        if q != p1 {
                                            assert(n1[q] == a[q]);
                                        }
                                    }
                                } else if k == r2 {
                                    assert forall|q: int| 0 < q < n2.len() - 1 implies #[trigger] n2[q] != 0 by {
                                        if q != p2 {
                                            assert(n2[q] == b[q]);
                                        }
                                    }
                                } else {
                                    assert(rv(routes@)[k] == rs[k]);
                                }
                            }
                        }
                        assert forall|k: int| 0 <= k < n implies #[trigger] kept_or_valid(*ch, ors, ord, rv(routes@), route_demand@, k) by {
                            if k != r1 && k != r2 {
                                assert(kept_or_valid(*ch, ors, ord, rs, rdv, k));
                            }
                        }
                        assert forall|k: int| 0 <= k < n implies #[trigger] route_demand@[k] == dsum(*ch, rv(routes@)[k]) by {
                            if k != r1 && k != r2 {
                                assert(rdv[k] == dsum(*ch, rs[k]));
                            }
                        }
                        assert forall|i: int| 0 <= i < routes@.len() implies (#[trigger] routes@[i]@).len() >= 2 by {
                            assert(rv(routes@)[i] == routes@[i]@);
                            if i != r1 && i != r2 {
                                assert(rv(routes@)[i] == rs[i]);
                            }
                        }
                    }
                },
                None => {},
            }
            p1 += 1;
        }
        proof {
            if !improved_any {
                assert forall|b: int, i: int, j: int| r1 < b < r2 + 1 implies
                    !#[trigger] ex_valid(*ch, ors[r1 as int], ors[b], ord[r1 as int] as int, ord[b] as int, i, j) by {
                    if b == r2 {
                        assert(rv(routes@)[r1 as int] == routes@[r1 as int]@);
                        if i < p1 {
                            assert(!ex_valid(*ch, ors[r1 as int], ors[r2 as int], ord[r1 as int] as int, ord[r2 as int] as int, i, j));
                        }
                    }
                }
            }
        }
        r2 += 1;
    }
    improved_any
}

pub fn exchange_pass(routes: &mut Vec<Vec<usize>>, route_demand: &mut Vec<i32>, ch: &Challenge, start: &Instant) -> (res: bool)
    requires
        pv_state(*ch, rv(old(routes)@), old(route_demand)@),
        demands_exact(*ch, rv(old(routes)@), old(route_demand)@),
        forall|i: int| 0 <= i < old(routes)@.len() ==> (#[trigger] old(routes)@[i]@).len() >= 2,
    ensures
        pv_state(*ch, rv(final(routes)@), final(route_demand)@),
        all_proper(rv(old(routes)@)) ==> all_proper(rv(final(routes)@)),
        demands_exact(*ch, rv(final(routes)@), final(route_demand)@),
        final(routes)@.len() == old(routes)@.len(),
        forall|k: int| 0 <= k < final(routes)@.len() ==> (#[trigger] final(routes)@[k]@).len() == old(routes)@[k]@.len(),
        all_custs(rv(final(routes)@)) == all_custs(rv(old(routes)@)),
        total_len(ch.distance_matrix@, rv(final(routes)@)) <= total_len(ch.distance_matrix@, rv(old(routes)@)),
        res ==> total_len(ch.distance_matrix@, rv(final(routes)@)) < total_len(ch.distance_matrix@, rv(old(routes)@)),
        !res ==> rv(final(routes)@) == rv(old(routes)@) && final(route_demand)@ == old(route_demand)@,
        forall|k: int| 0 <= k < final(routes)@.len() ==> #[trigger] kept_or_valid(
            *ch,
            rv(old(routes)@),
            old(route_demand)@,
            rv(final(routes)@),
            final(route_demand)@,
            k,
        ),
{
    let ghost ors = rv(routes@);
    let ghost ord = route_demand@;
    let ghost dmv = ch.distance_matrix@;
    let mut improved_any = false;
    let n = routes.len();
    let mut r1: usize = 0;
    while r1 < n
        invariant
            pv_state(*ch, rv(routes@), route_demand@),
            demands_exact(*ch, rv(routes@), route_demand@),
            all_proper(ors) ==> all_proper(rv(routes@)),
            forall|i: int| 0 <= i < routes@.len() ==> (#[trigger] routes@[i]@).len() >= 2,
            ors.len() == n,
            routes@.len() == n,
            forall|k: int| 0 <= k < routes@.len() ==> (#[trigger] routes@[k]@).len() == old(routes)@[k]@.len(),
            dmv == ch.distance_matrix@,
            all_custs(rv(routes@)) == all_custs(ors),
            total_len(dmv, rv(routes@)) <= total_len(dmv, ors),
            improved_any ==> total_len(dmv, rv(routes@)) < total_len(dmv, ors),
            !improved_any ==> rv(routes@) == ors && route_demand@ == ord,
            forall|k: int| 0 <= k < n ==> #[trigger] kept_or_valid(*ch, ors, ord, rv(routes@), route_demand@, k),
        decreases n - r1,
    {
        if whole_millis(&elapsed_since(start)) > TIME_LIMIT_MS {
            break;
        }
        let ghost rs = rv(routes@);
        let ghost rdv = route_demand@;
        let moved = exchange_row(routes, route_demand, ch, r1);
        if moved {
            improved_any = true;
        }
        proof {
            assert forall|k: int| 0 <= k < n implies #[trigger] kept_or_valid(*ch, ors, ord, rv(routes@), route_demand@, k) by {
                assert(kept_or_valid(*ch, ors, ord, rs, rdv, k));
                assert(kept_or_valid(*ch, rs, rdv, rv(routes@), route_demand@, k));
            }
        }
        r1 += 1;
    }
    improved_any
}

/// One exchange sweep, with no time limit: each route with each route after
/// it, as `exchange_pass` does between its time checks. Reports whether it made
/// an exchange; when it did not, no pair of routes admits a valid one.
pub fn exchange_sweep(routes: &mut Vec<Vec<usize>>, route_demand: &mut Vec<i32>, ch: &Challenge) -> (moved: bool)
    requires
        pv_state(*ch, rv(old(routes)@), old(route_demand)@),
        demands_exact(*ch, rv(old(routes)@), old(route_demand)@),
        forall|i: int| 0 <= i < old(routes)@.len() ==> (#[trigger] old(routes)@[i]@).len() >= 2,
    ensures
        pv_state(*ch, rv(final(routes)@), final(route_demand)@),
        all_proper(rv(old(routes)@)) ==> all_proper(rv(final(routes)@)),
        demands_exact(*ch, rv(final(routes)@), final(route_demand)@),
        final(routes)@.len() == old(routes)@.len(),
        forall|k: int| 0 <= k < final(routes)@.len() ==> (#[trigger] final(routes)@[k]@).len() == old(routes)@[k]@.len(),
        all_custs(rv(final(routes)@)) == all_custs(rv(old(routes)@)),
        total_len(ch.distance_matrix@, rv(final(routes)@)) <= total_len(ch.distance_matrix@, rv(old(routes)@)),
        moved ==> total_len(ch.distance_matrix@, rv(final(routes)@)) < total_len(ch.distance_matrix@, rv(old(routes)@)),
        !moved ==> rv(final(routes)@) == rv(old(routes)@) && final(route_demand)@ == old(route_demand)@,
        forall|k: int| 0 <= k < final(routes)@.len() ==> #[trigger] kept_or_valid(
            *ch,
            rv(old(routes)@),
            old(route_demand)@,
            rv(final(routes)@),
            final(route_demand)@,
            k,
        ),
        !moved ==> forall|a: int, b: int, i: int, j: int| 0 <= a < b < old(routes)@.len() ==>
            !#[trigger] ex_valid(*ch, rv(old(routes)@)[a], rv(old(routes)@)[b], old(route_demand)@[a] as int, old(route_demand)@[b] as int, i, j),
{
    let ghost ors = rv(routes@);
    let ghost ord = route_demand@;
    let ghost dmv = ch.distance_matrix@;
    let mut improved_any = false;
    let n = routes.len();
    let mut r1: usize = 0;
    while r1 < n
        invariant
            pv_state(*ch, rv(routes@), route_demand@),
            demands_exact(*ch, rv(routes@), route_demand@),
            all_proper(ors) ==> all_proper(rv(routes@)),
            forall|i: int| 0 <= i < routes@.len() ==> (#[trigger] routes@[i]@).len() >= 2,
            ors.len() == n,
            routes@.len() == n,
            forall|k: int| 0 <= k < routes@.len() ==> (#[trigger] routes@[k]@).len() == old(routes)@[k]@.len(),
            dmv == ch.distance_matrix@,
            all_custs(rv(routes@)) == all_custs(ors),
            total_len(dmv, rv(routes@)) <= total_len(dmv, ors),
            improved_any ==> total_len(dmv, rv(routes@)) < total_len(dmv, ors),
            !improved_any ==> rv(routes@) == ors && route_demand@ == ord,
            forall|k: int| 0 <= k < n ==> #[trigger] kept_or_valid(*ch, ors, ord, rv(routes@), route_demand@, k),
            !improved_any ==> forall|a: int, b: int, i: int, j: int| 0 <= a < r1 && a < b < n ==> !#[trigger] ex_valid(*ch, ors[a], ors[b], ord[a] as int, ord[b] as int, i, j),
        decreases n - r1,
    {
        let ghost rs = rv(routes@);
        let ghost rdv = route_demand@;
        let moved = exchange_row(routes, route_demand, ch, r1);
        if moved {
            improved_any = true;
        }
        proof {
            if !improved_any {
                assert forall|a: int, b: int, i: int, j: int| 0 <= a < r1 + 1 && a < b < n implies !#[trigger] ex_valid(*ch, ors[a], ors[b], ord[a] as int, ord[b] as int, i, j) by {
                    if a == r1 {
                        assert(!ex_valid(*ch, rs[r1 as int], rs[b], rdv[r1 as int] as int, rdv[b] as int, i, j));
                    }
                }
            }
            assert forall|k: int| 0 <= k < n implies #[trigger] kept_or_valid(*ch, ors, ord, rv(routes@), route_demand@, k) by {
                assert(kept_or_valid(*ch, ors, ord, rs, rdv, k));
                assert(kept_or_valid(*ch, rs, rdv, rv(routes@), route_demand@, k));
            }
        }
        r1 += 1;
    }
    improved_any
}

} // verus!
