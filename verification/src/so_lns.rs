//! Destroy-and-repair moves of the solver that checks time windows with trial
//! insertions: removing chosen customers, dropping emptied routes, and
//! reinserting customers at their cheapest time-feasible place. The random
//! choices come from `rand`'s `SmallRng`.
use vstd::prelude::*;
use vstd::multiset::Multiset;
use rand::rngs::SmallRng;
use rand::seq::SliceRandom;
use rand::Rng;
use crate::model::{
    all_custs, custs, cust1, rv, proper, in_limit, nodes_below, table_ok, LEN_LIMIT, Solution,
    lemma_custs_insert, lemma_custs_remove, lemma_all_custs_update,
};
use crate::algorithm::{copy_route, keep_nonempty, keep_aligned, drop_empty_aligned, short_routes_empty, lemma_keep_nonempty_custs};
use crate::construct::{total_nodes, lemma_total_nodes};
use crate::primal_viper::tw_tables;
use crate::repair::{single_route, lemma_insert_proper};
use crate::sharp_orbit::{demand_sum, route_tw_ok, trial_insert_tw_feasible, chain_walk, tw_run, law_chain_insert_matches_route_check};
use crate::so_passes::{inner, so_state, lemma_demand_sum_concat, lemma_demand_sum_bounds, lemma_keep_aligned_pairs};
use crate::alns::lemma_keep_nonempty_members;

verus! {

#[verifier::external_type_specification]
#[verifier::external_body]
pub struct ExSmallRng(SmallRng);

/// `SliceRandom::shuffle` with a `SmallRng`: a random permutation of `v`. Stated:
/// the entries are permuted (rand swaps entries in place); which
/// permutation comes out is left open, as it depends on the generator's state.
#[verifier::external_body]
pub(crate) fn shuffle_vec<T>(v: &mut Vec<T>, rng: &mut SmallRng)
    ensures
        final(v)@.to_multiset() == old(v)@.to_multiset(),
        final(v)@.len() == old(v)@.len(),
{
    v.shuffle(rng);
}

/// `Rng::gen_range(0..n)` with a `SmallRng`: a number below `n`, which must be
/// positive (rand panics on an empty range). Which number is left open.
#[verifier::external_body]
pub(crate) fn gen_below(rng: &mut SmallRng, n: usize) -> (res: usize)
    requires
        n > 0,
    ensures
        res < n,
{
    rng.gen_range(0..n)
}

/// Removing an inner node of a route removes its demand from the route's inner
/// nodes.
proof fn lemma_inner_remove(demands: Seq<i32>, r: Seq<usize>, p: int)
    requires
        1 <= p < r.len() - 1,
    ensures
        demand_sum(demands, inner(r)) == demand_sum(demands, inner(r.remove(p))) + demands[r[p] as int],
{
    let a = r.subrange(1, p);
    let b = r.subrange(p + 1, r.len() - 1);
    assert(inner(r) =~= (a + seq![r[p]]) + b);
    assert(inner(r.remove(p)) =~= a + b);
    lemma_demand_sum_concat(demands, a + seq![r[p]], b);
    lemma_demand_sum_concat(demands, a, seq![r[p]]);
    lemma_demand_sum_concat(demands, a, b);
    assert(seq![r[p]].drop_last() =~= Seq::<usize>::empty());
    assert(seq![r[p]].last() == r[p]);
    assert(demand_sum(demands, Seq::<usize>::empty()) == 0);
}

/// Removes the given distinct inner positions from a route in normal form, the
/// largest first, lowering its recorded demand by each removed node's demand;
/// gives the removed nodes in that order.
pub fn remove_inner_positions(route: &mut Vec<usize>, rd: &mut i32, ps: Vec<usize>, demands: &[i32]) -> (removed: Vec<usize>)
    requires
        proper(old(route)@),
        nodes_below(old(route)@, demands@.len() as int),
        table_ok(demands@, demands@.len() as int),
        *old(rd) == demand_sum(demands@, inner(old(route)@)),
        old(route)@.len() <= LEN_LIMIT,
        forall|q: int| 0 <= q < ps@.len() ==> 1 <= #[trigger] ps@[q] < old(route)@.len() - 1,
        forall|a: int, b: int| 0 <= a < b < ps@.len() ==> #[trigger] ps@[a] != #[trigger] ps@[b],
    ensures
        proper(final(route)@),
        nodes_below(final(route)@, demands@.len() as int),
        final(route)@.len() == old(route)@.len() - ps@.len(),
        removed@.len() == ps@.len(),
        custs(final(route)@).add(removed@.to_multiset()) == custs(old(route)@),
        *final(rd) == demand_sum(demands@, inner(final(route)@)),
        forall|q: int| 0 <= q < removed@.len() ==> 0 < #[trigger] removed@[q] < demands@.len(),
{
    let ghost ps0 = ps@;
    let mut ps = ps;
    crate::primal_viper::sort_positions(&mut ps);
    let ghost r0 = route@;
    proof {
        assert forall|a: int, b: int| 0 <= a < b < ps@.len() implies #[trigger] ps@[a] < #[trigger] ps@[b] by {
            assert(ps@[a] <= ps@[b]);
            if ps@[a] == ps@[b] {
                assert(ps@.to_multiset().count(ps@[a]) >= 2) by {
                    let s = ps@;
                    assert(s =~= s.subrange(0, b) + s.subrange(b, s.len() as int));
                    vstd::seq_lib::lemma_multiset_commutative(s.subrange(0, b), s.subrange(b, s.len() as int));
                    vstd::seq_lib::to_multiset_contains(s.subrange(0, b), s[a]);
                    assert(s.subrange(0, b)[a] == s[a]);
                    assert(s.subrange(0, b).contains(s[a]));
                    vstd::seq_lib::to_multiset_contains(s.subrange(b, s.len() as int), s[b]);
                    assert(s.subrange(b, s.len() as int)[0] == s[b]);
                    assert(s.subrange(b, s.len() as int).contains(s[b]));
                    broadcast use vstd::multiset::group_multiset_axioms;
                }
                lemma_distinct_count(ps0, ps@[a]);
            }
        }
        assert forall|q: int| 0 <= q < ps@.len() implies 1 <= #[trigger] ps@[q] < r0.len() - 1 by {
            vstd::seq_lib::to_multiset_contains(ps@, ps@[q]);
            assert(ps@.contains(ps@[q]));
            vstd::seq_lib::to_multiset_contains(ps0, ps@[q]);
            let w = choose|w: int| 0 <= w < ps0.len() && ps0[w] == ps@[q];
        }
    }
    let mut removed: Vec<usize> = Vec::new();
    let mut k: usize = ps.len();
    proof {
        assert(removed@.to_multiset() =~= Multiset::<usize>::empty()) by {
            vstd::seq_lib::to_multiset_len(removed@);
            vstd::multiset::lemma_multiset_empty_len(removed@.to_multiset());
        }
        assert(custs(route@).add(removed@.to_multiset()) =~= custs(r0)) by {
            broadcast use vstd::multiset::group_multiset_axioms;
        }
    }
    while k > 0
        invariant
            proper(route@),
            nodes_below(route@, demands@.len() as int),
            table_ok(demands@, demands@.len() as int),
            *rd == demand_sum(demands@, inner(route@)),
            route@.len() <= LEN_LIMIT,
            k <= ps@.len(),
            route@.len() == r0.len() - (ps@.len() - k),
            removed@.len() == ps@.len() - k,
            forall|q: int| 0 <= q < ps@.len() ==> 1 <= #[trigger] ps@[q] < r0.len() - 1,
            forall|a: int, b: int| 0 <= a < b < ps@.len() ==> #[trigger] ps@[a] < #[trigger] ps@[b],
            forall|q: int| 0 <= q < k ==> #[trigger] ps@[q] < route@.len() - 1,
            custs(route@).add(removed@.to_multiset()) == custs(r0),
            forall|q: int| 0 <= q < removed@.len() ==> 0 < #[trigger] removed@[q] < demands@.len(),
            r0 == old(route)@,
        decreases k,
    {
        k -= 1;
        let p = ps[k];
        let ghost before = route@;
        proof {
            lemma_inner_remove(demands@, before, p as int);
            lemma_custs_remove(before, p as int);
            assert(before[p as int] != 0);
            lemma_demand_sum_bounds(demands@, inner(before.remove(p as int)));
            assert(in_limit(demands@[before[p as int] as int]));
        }
        let node = route.remove(p);
        *rd = *rd - demands[node];
        let ghost rm_before = removed@;
        removed.push(node);
        proof {
            assert(route@ == before.remove(p as int));
            assert forall|q: int| 0 < q < route@.len() - 1 implies #[trigger] route@[q] != 0 by {
                if q < p {
                    assert(route@[q] == before[q]);
                } else {
                    assert(route@[q] == before[q + 1]);
                }
            }
            assert forall|q: int| 0 <= q < route@.len() implies (#[trigger] route@[q] as int) < demands@.len() by {
                if q < p {
                    assert(route@[q] == before[q]);
                } else {
                    assert(route@[q] == before[q + 1]);
                }
            }
            assert(route@[0] == before[0]);
            assert(route@[route@.len() - 1] == before[before.len() - 1]);
            vstd::seq_lib::to_multiset_build(rm_before, node);
            assert(cust1(node) =~= Multiset::singleton(node));
            assert(custs(route@).add(removed@.to_multiset()) =~= custs(r0)) by {
                broadcast use vstd::multiset::group_multiset_axioms;
            }
            assert forall|q: int| 0 <= q < k implies #[trigger] ps@[q] < route@.len() - 1 by {
                assert(ps@[q] < ps@[k as int]);
            }
        }
    }
    removed
}

/// In a sequence of distinct entries every entry occurs once in its multiset.
proof fn lemma_distinct_count<A>(s: Seq<A>, x: A)
    requires
        forall|a: int, b: int| 0 <= a < b < s.len() ==> #[trigger] s[a] != #[trigger] s[b],
    ensures
        s.to_multiset().count(x) <= 1,
    decreases s.len(),
{
    broadcast use vstd::multiset::group_multiset_axioms;
    if s.len() > 0 {
        let t = s.drop_last();
        assert forall|a: int, b: int| 0 <= a < b < t.len() implies #[trigger] t[a] != #[trigger] t[b] by {
            assert(t[a] == s[a] && t[b] == s[b]);
        }
        lemma_distinct_count(t, x);
        assert(s =~= t.push(s.last()));
        vstd::seq_lib::to_multiset_build(t, s.last());
        if s.last() == x {
            vstd::seq_lib::to_multiset_contains(t, x);
            if t.contains(x) {
                let w = choose|w: int| 0 <= w < t.len() && t[w] == x;
                assert(s[w] == s[s.len() - 1]);
            }
        }
        assert(s.to_multiset() == t.push(s.last()).to_multiset());
    } else {
        vstd::seq_lib::to_multiset_len(s);
        vstd::multiset::lemma_multiset_empty_len(s.to_multiset());
    }
}

/// A route serving one customer serves that customer and is in normal form.
pub proof fn lemma_single_custs(c: usize)
    requires
        c != 0,
    ensures
        custs(single_route(c)) =~= Multiset::singleton(c),
        proper(single_route(c)),
{
    broadcast use vstd::multiset::group_multiset_axioms;
    let r = single_route(c);
    assert(r.drop_last() =~= seq![0usize, c]);
    let z = seq![0usize];
    assert(z.drop_last() =~= Seq::<usize>::empty());
    assert(z.last() == 0);
    assert(custs(Seq::<usize>::empty()) =~= Multiset::<usize>::empty());
    assert(cust1(0) =~= Multiset::<usize>::empty());
    assert(custs(z) =~= Multiset::<usize>::empty());
    let zc = seq![0usize, c];
    assert(zc.drop_last() =~= z);
    assert(zc.last() == c);
    assert(custs(zc) =~= Multiset::singleton(c));
    assert(r.last() == 0);
}

/// Inserting `node` at position `p` of route `ri` keeps the route's recorded
/// demand within `cap` and the route within its time windows.
pub open spec fn so_ins_ok(
    dm: Seq<Vec<i32>>,
    rt: Seq<i32>,
    dt: Seq<i32>,
    st: int,
    demands: Seq<i32>,
    cap: int,
    rs: Seq<Seq<usize>>,
    rd: Seq<i32>,
    node: usize,
    ri: int,
    p: int,
) -> bool {
    &&& 0 <= ri < rs.len()
    &&& rd[ri] + demands[node as int] <= cap
    &&& 1 <= p < rs[ri].len()
    &&& route_tw_ok(dm, rt, dt, st, rs[ri].insert(p, node))
}

/// The first cheapest insertion of `node` (by route, then position) among those
/// that keep the route within `cap` and its time windows.
pub fn cheapest_trial_insertion(
    routes: &Vec<Vec<usize>>,
    route_demand: &Vec<i32>,
    node: usize,
    dm: &[Vec<i32>],
    rt: &[i32],
    dt: &[i32],
    st: i32,
    demands: &[i32],
    cap: i32,
) -> (res: Option<(usize, usize)>)
    requires
        so_state(dm@, rt@, dt@, st, demands@, rv(routes@), route_demand@),
        0 < node < dm@.len(),
    ensures
        res matches Some((ri, p)) ==> so_ins_ok(dm@, rt@, dt@, st as int, demands@, cap as int, rv(routes@), route_demand@, node, ri as int, p as int)
            && (forall|r2: int, p2: int| #[trigger] so_ins_ok(dm@, rt@, dt@, st as int, demands@, cap as int, rv(routes@), route_demand@, node, r2, p2)
                ==> crate::algorithm::ins_cost(dm@, rv(routes@)[ri as int], p as int, node) <= crate::algorithm::ins_cost(dm@, rv(routes@)[r2], p2, node))
            && (forall|r2: int, p2: int| (r2 < ri || r2 == ri && p2 < p) && #[trigger] so_ins_ok(dm@, rt@, dt@, st as int, demands@, cap as int, rv(routes@), route_demand@, node, r2, p2)
                ==> crate::algorithm::ins_cost(dm@, rv(routes@)[ri as int], p as int, node) < crate::algorithm::ins_cost(dm@, rv(routes@)[r2], p2, node)),
        res is None ==> forall|r2: int, p2: int| !#[trigger] so_ins_ok(dm@, rt@, dt@, st as int, demands@, cap as int, rv(routes@), route_demand@, node, r2, p2),
{
    let ghost rs = rv(routes@);
    let ghost dmv = dm@;
    let d_node = demands[node];
    proof {
        assert(in_limit(demands@[node as int]));
    }
    let mut best: Option<(usize, usize, i32)> = None;
    let mut ri: usize = 0;
    while ri < routes.len()
        invariant
            rs == rv(routes@),
            dmv == dm@,
            so_state(dm@, rt@, dt@, st, demands@, rs, route_demand@),
            0 < node < dm@.len(),
            d_node == demands@[node as int],
            ri <= routes@.len(),
            best matches Some(b) ==> b.0 < ri && so_ins_ok(dmv, rt@, dt@, st as int, demands@, cap as int, rs, route_demand@, node, b.0 as int, b.1 as int)
                && b.2 == crate::algorithm::ins_cost(dmv, rs[b.0 as int], b.1 as int, node)
                && (forall|r2: int, p2: int| r2 < ri && #[trigger] so_ins_ok(dmv, rt@, dt@, st as int, demands@, cap as int, rs, route_demand@, node, r2, p2)
                    ==> b.2 <= crate::algorithm::ins_cost(dmv, rs[r2], p2, node))
                && (forall|r2: int, p2: int| (r2 < b.0 || r2 == b.0 && p2 < b.1) && #[trigger] so_ins_ok(dmv, rt@, dt@, st as int, demands@, cap as int, rs, route_demand@, node, r2, p2)
                    ==> b.2 < crate::algorithm::ins_cost(dmv, rs[r2], p2, node)),
            best is None ==> forall|r2: int, p2: int| r2 < ri ==> !#[trigger] so_ins_ok(dmv, rt@, dt@, st as int, demands@, cap as int, rs, route_demand@, node, r2, p2),
        decreases routes.len() - ri,
    {
        let r = &routes[ri];
        assert(rs[ri as int] == r@);
        proof {
            assert(proper(r@) && nodes_below(r@, dmv.len() as int));
            lemma_demand_sum_bounds(demands@, inner(r@));
            lemma_total_nodes(rs, 0, rs[0]);
            assert(r@.len() <= LEN_LIMIT);
            assert(100_000 * inner(r@).len() <= 100_000 * LEN_LIMIT) by (nonlinear_arith)
                requires
                    inner(r@).len() <= LEN_LIMIT,
            ;
        }
        if route_demand[ri] + d_node <= cap {
            let mut p: usize = 1;
            while p < r.len()
                invariant
                    rs == rv(routes@),
                    dmv == dm@,
                    so_state(dm@, rt@, dt@, st, demands@, rs, route_demand@),
                    0 < node < dm@.len(),
                    ri < routes@.len(),
                    r@ == rs[ri as int],
                    proper(r@),
                    nodes_below(r@, dmv.len() as int),
                    route_demand@[ri as int] + demands@[node as int] <= cap,
                    1 <= p <= r@.len(),
                    best matches Some(b) ==> b.0 <= ri && so_ins_ok(dmv, rt@, dt@, st as int, demands@, cap as int, rs, route_demand@, node, b.0 as int, b.1 as int)
                        && b.2 == crate::algorithm::ins_cost(dmv, rs[b.0 as int], b.1 as int, node)
                        && (b.0 == ri ==> b.1 < p)
                        && (forall|r2: int, p2: int| (r2 < ri || r2 == ri && p2 < p) && #[trigger] so_ins_ok(dmv, rt@, dt@, st as int, demands@, cap as int, rs, route_demand@, node, r2, p2)
                            ==> b.2 <= crate::algorithm::ins_cost(dmv, rs[r2], p2, node))
                        && (forall|r2: int, p2: int| (r2 < b.0 || r2 == b.0 && p2 < b.1) && #[trigger] so_ins_ok(dmv, rt@, dt@, st as int, demands@, cap as int, rs, route_demand@, node, r2, p2)
                            ==> b.2 < crate::algorithm::ins_cost(dmv, rs[r2], p2, node)),
                    best is None ==> forall|r2: int, p2: int| (r2 < ri || r2 == ri && p2 < p) ==> !#[trigger] so_ins_ok(dmv, rt@, dt@, st as int, demands@, cap as int, rs, route_demand@, node, r2, p2),
                decreases r.len() - p,
            {
                let a = r[p - 1];
                let b = r[p];
                proof {
                    assert(in_limit(dmv[a as int]@[node as int]));
                    assert(in_limit(dmv[node as int]@[b as int]));
                    assert(in_limit(dmv[a as int]@[b as int]));
                    law_chain_insert_matches_route_check(dmv, rt@, dt@, st as int, r@, p as int, seq![node]);
                    assert(r@.subrange(0, p as int) + seq![node] + r@.subrange(p as int, r@.len() as int) =~= r@.insert(p as int, node));
                }
                let cost = dm[a][node] + dm[node][b] - dm[a][b];
                let better = match best {
                    None => true,
                    Some(bb) => cost < bb.2,
                };
                if better {
                    if trial_insert_tw_feasible(r, p, node, dm, rt, dt, st) {
                        best = Some((ri, p, cost));
                    }
                }
                p += 1;
            }
        }
        ri += 1;
    }
    match best {
        Some(b) => Some((b.0, b.1)),
        None => None,
    }
}

/// What repairing keeps of the routes it started from: each old route is
/// unchanged or within its time windows and `cap`, and each new route serves one
/// customer or is within its time windows and `cap`.
pub open spec fn so_repaired(
    dm: Seq<Vec<i32>>,
    rt: Seq<i32>,
    dt: Seq<i32>,
    st: int,
    cap: int,
    ors: Seq<Seq<usize>>,
    rs: Seq<Seq<usize>>,
    rd: Seq<i32>,
) -> bool {
    &&& rs.len() >= ors.len()
    &&& forall|i: int| 0 <= i < ors.len() ==> #[trigger] rs[i] == ors[i] || route_tw_ok(dm, rt, dt, st, rs[i]) && rd[i] <= cap
    &&& forall|i: int| ors.len() <= i < rs.len() ==> (#[trigger] rs[i]).len() == 3 || route_tw_ok(dm, rt, dt, st, rs[i]) && rd[i] <= cap
}

/// `(ri, p)` is the first cheapest insertion of `node` (by route, then position)
/// that keeps its route within `cap` and its time windows.
pub open spec fn so_first_cheapest(
    dm: Seq<Vec<i32>>,
    rt: Seq<i32>,
    dt: Seq<i32>,
    st: int,
    demands: Seq<i32>,
    cap: int,
    rs: Seq<Seq<usize>>,
    rd: Seq<i32>,
    node: usize,
    ri: int,
    p: int,
) -> bool {
    &&& so_ins_ok(dm, rt, dt, st, demands, cap, rs, rd, node, ri, p)
    &&& forall|r2: int, p2: int| #[trigger] so_ins_ok(dm, rt, dt, st, demands, cap, rs, rd, node, r2, p2)
        ==> crate::algorithm::ins_cost(dm, rs[ri], p, node) <= crate::algorithm::ins_cost(dm, rs[r2], p2, node)
    &&& forall|r2: int, p2: int| (r2 < ri || r2 == ri && p2 < p) && #[trigger] so_ins_ok(dm, rt, dt, st, demands, cap, rs, rd, node, r2, p2)
        ==> crate::algorithm::ins_cost(dm, rs[ri], p, node) < crate::algorithm::ins_cost(dm, rs[r2], p2, node)
}

/// One reinsertion step, from routes `r0` (demands `d0`) to `r1`: `node` goes to
/// its first cheapest feasible insertion, or, only when there is none, to a
/// route of its own.
pub open spec fn reinsert_step(
    dm: Seq<Vec<i32>>,
    rt: Seq<i32>,
    dt: Seq<i32>,
    st: int,
    demands: Seq<i32>,
    cap: int,
    r0: Seq<Seq<usize>>,
    d0: Seq<i32>,
    node: usize,
    r1: Seq<Seq<usize>>,
) -> bool {
    ||| exists|ri: int, p: int| #[trigger] so_first_cheapest(dm, rt, dt, st, demands, cap, r0, d0, node, ri, p)
        && r1 == r0.update(ri, r0[ri].insert(p, node))
    ||| (forall|ri: int, p: int| !#[trigger] so_ins_ok(dm, rt, dt, st, demands, cap, r0, d0, node, ri, p))
        && r1 == r0.push(single_route(node))
}

/// `tr` holds the routes and demands before and after each of `nodes` is
/// reinserted, from `(r0, d0)` to routes `r_end`, every step by the rule.
pub open spec fn reinsert_trace(
    dm: Seq<Vec<i32>>,
    rt: Seq<i32>,
    dt: Seq<i32>,
    st: int,
    demands: Seq<i32>,
    cap: int,
    nodes: Seq<usize>,
    tr: Seq<(Seq<Seq<usize>>, Seq<i32>)>,
    r0: Seq<Seq<usize>>,
    d0: Seq<i32>,
    r_end: Seq<Seq<usize>>,
) -> bool {
    &&& tr.len() == nodes.len() + 1
    &&& tr[0] == (r0, d0)
    &&& tr.last().0 == r_end
    &&& forall|i: int| 0 <= i < nodes.len() ==> #[trigger] reinsert_step(dm, rt, dt, st, demands, cap, tr[i].0, tr[i].1, nodes[i], tr[i + 1].0)
}

/// Reinserting `nodes` in order into `(r0, d0)` by the rule ends in `r_end`.
pub open spec fn reinsert_run(
    dm: Seq<Vec<i32>>,
    rt: Seq<i32>,
    dt: Seq<i32>,
    st: int,
    demands: Seq<i32>,
    cap: int,
    nodes: Seq<usize>,
    r0: Seq<Seq<usize>>,
    d0: Seq<i32>,
    r_end: Seq<Seq<usize>>,
) -> bool {
    exists|tr: Seq<(Seq<Seq<usize>>, Seq<i32>)>| #[trigger] reinsert_trace(dm, rt, dt, st, demands, cap, nodes, tr, r0, d0, r_end)
}

/// Reinserts the nodes in order, each at its cheapest feasible insertion (see
/// `cheapest_trial_insertion`), or in a route of its own when there is none,
/// keeping the recorded demands up to date.
pub fn reinsert_nodes(
    routes: &mut Vec<Vec<usize>>,
    route_demand: &mut Vec<i32>,
    nodes: Vec<usize>,
    dm: &[Vec<i32>],
    rt: &[i32],
    dt: &[i32],
    st: i32,
    demands: &[i32],
    cap: i32,
)
    requires
        so_state(dm@, rt@, dt@, st, demands@, rv(old(routes)@), old(route_demand)@),
        forall|q: int| 0 <= q < nodes@.len() ==> 0 < #[trigger] nodes@[q] < dm@.len(),
        total_nodes(rv(old(routes)@)) + 3 * nodes@.len() <= LEN_LIMIT,
    ensures
        so_state(dm@, rt@, dt@, st, demands@, rv(final(routes)@), final(route_demand)@),
        all_custs(rv(final(routes)@)) == all_custs(rv(old(routes)@)).add(nodes@.to_multiset()),
        so_repaired(dm@, rt@, dt@, st as int, cap as int, rv(old(routes)@), rv(final(routes)@), final(route_demand)@),
        total_nodes(rv(final(routes)@)) <= total_nodes(rv(old(routes)@)) + 3 * nodes@.len(),
        reinsert_run(dm@, rt@, dt@, st as int, demands@, cap as int, nodes@, rv(old(routes)@), old(route_demand)@, rv(final(routes)@)),
{
    let ghost ors = rv(routes@);
    let ghost ord = route_demand@;
    let ghost mut tr: Seq<(Seq<Seq<usize>>, Seq<i32>)> = seq![(ors, ord)];
    let mut k: usize = 0;
    proof {
        assert(nodes@.subrange(0, 0).to_multiset() =~= Multiset::<usize>::empty()) by {
            vstd::seq_lib::to_multiset_len(nodes@.subrange(0, 0));
            vstd::multiset::lemma_multiset_empty_len(nodes@.subrange(0, 0).to_multiset());
        }
        assert(all_custs(rv(routes@)) =~= all_custs(ors).add(nodes@.subrange(0, 0).to_multiset())) by {
            broadcast use vstd::multiset::group_multiset_axioms;
        }
    }
    while k < nodes.len()
        invariant
            so_state(dm@, rt@, dt@, st, demands@, rv(routes@), route_demand@),
            forall|q: int| 0 <= q < nodes@.len() ==> 0 < #[trigger] nodes@[q] < dm@.len(),
            k <= nodes@.len(),
            total_nodes(ors) + 3 * nodes@.len() <= LEN_LIMIT,
            total_nodes(rv(routes@)) <= total_nodes(ors) + 3 * k,
            all_custs(rv(routes@)) == all_custs(ors).add(nodes@.subrange(0, k as int).to_multiset()),
            so_repaired(dm@, rt@, dt@, st as int, cap as int, ors, rv(routes@), route_demand@),
            tr.len() == k + 1,
            tr[0] == (ors, ord),
            tr.last() == (rv(routes@), route_demand@),
            forall|i: int| 0 <= i < k ==> #[trigger] reinsert_step(dm@, rt@, dt@, st as int, demands@, cap as int, tr[i].0, tr[i].1, nodes@[i], tr[i + 1].0),
        decreases nodes.len() - k,
    {
        let node = nodes[k];
        let ghost rs = rv(routes@);
        let ghost rdv = route_demand@;
        let ghost pre = nodes@.subrange(0, k as int);
        assert(nodes@.subrange(0, k + 1) =~= pre.push(node));
        proof {
            vstd::seq_lib::to_multiset_build(pre, node);
            assert(in_limit(demands@[node as int]));
        }
        match cheapest_trial_insertion(routes, route_demand, node, dm, rt, dt, st, demands, cap) {
            Some((ri, p)) => {
                let mut r = copy_route(&routes[ri]);
                assert(rs[ri as int] == routes@[ri as int]@);
                let ghost old_r = r@;
                r.insert(p, node);
                proof {
                    assert(proper(old_r) && nodes_below(old_r, dm@.len() as int));
                    lemma_all_custs_update(rs, ri as int, r@);
                    lemma_custs_insert(old_r, p as int, node);
                    lemma_insert_proper(old_r, p as int, node);
                    assert(cust1(node) =~= Multiset::singleton(node));
                    assert forall|x: int| 0 <= x < r@.len() implies (#[trigger] r@[x] as int) < dm@.len() by {
                        if x < p {
                            assert(r@[x] == old_r[x]);
                        } else if x > p {
                            assert(r@[x] == old_r[x - 1]);
                        }
                    }
                    let a = old_r.subrange(1, p as int);
                    let b = old_r.subrange(p as int, old_r.len() - 1);
                    assert(inner(old_r) =~= a + b);
                    assert(inner(r@) =~= (a + seq![node]) + b);
                    lemma_demand_sum_concat(demands@, a, b);
                    lemma_demand_sum_concat(demands@, a + seq![node], b);
                    lemma_demand_sum_concat(demands@, a, seq![node]);
                    assert(seq![node].drop_last() =~= Seq::<usize>::empty());
                    assert(seq![node].last() == node);
                    assert(demand_sum(demands@, Seq::<usize>::empty()) == 0);
                    lemma_total_nodes(rs, ri as int, r@);
                }
                let ghost prev = routes@;
                routes.set(ri, r);
                let d = route_demand[ri] + demands[node];
                route_demand.set(ri, d);
                proof {
                    assert(rv(routes@) =~= rs.update(ri as int, r@));
                    assert(all_custs(rv(routes@)) =~= all_custs(ors).add(nodes@.subrange(0, k + 1).to_multiset())) by {
                        broadcast use vstd::multiset::group_multiset_axioms;
                        assert forall|x: usize| all_custs(rv(routes@)).count(x) == all_custs(ors).add(nodes@.subrange(0, k + 1).to_multiset()).count(x) by {
                            assert(all_custs(rv(routes@)).add(custs(rs[ri as int])).count(x) == all_custs(rs).add(custs(r@)).count(x));
                        }
                    }
                    assert forall|i: int| 0 <= i < rv(routes@).len() implies proper(#[trigger] rv(routes@)[i]) && nodes_below(rv(routes@)[i], dm@.len() as int)
                        && route_demand@[i] == demand_sum(demands@, inner(rv(routes@)[i])) by {
                        if i != ri {
                            assert(rv(routes@)[i] == rs[i]);
                        }
                    }
                    assert forall|i: int| 0 <= i < ors.len() implies #[trigger] rv(routes@)[i] == ors[i] || route_tw_ok(dm@, rt@, dt@, st as int, rv(routes@)[i])
                        && route_demand@[i] <= cap by {
                        if i != ri {
                            assert(rv(routes@)[i] == rs[i]);
                        }
                    }
                    assert forall|i: int| ors.len() <= i < rv(routes@).len() implies (#[trigger] rv(routes@)[i]).len() == 3
                        || route_tw_ok(dm@, rt@, dt@, st as int, rv(routes@)[i]) && route_demand@[i] <= cap by {
                        if i != ri {
                            assert(rv(routes@)[i] == rs[i]);
                        }
                    }
                    assert(so_first_cheapest(dm@, rt@, dt@, st as int, demands@, cap as int, rs, rdv, node, ri as int, p as int));
                    assert(rv(routes@) == rs.update(ri as int, rs[ri as int].insert(p as int, node)));
                    assert(reinsert_step(dm@, rt@, dt@, st as int, demands@, cap as int, rs, rdv, node, rv(routes@)));
                }
            },
            None => {
                routes.push(vec![0, node, 0]);
                route_demand.push(demands[node]);
                proof {
                    lemma_single_custs(node);
                    assert(rv(routes@) =~= rs.push(single_route(node)));
                    assert(rv(routes@).drop_last() =~= rs);
                    assert(all_custs(rv(routes@)) =~= all_custs(ors).add(nodes@.subrange(0, k + 1).to_multiset())) by {
                        broadcast use vstd::multiset::group_multiset_axioms;
                    }
                    assert(inner(single_route(node)) =~= seq![node]);
                    assert(seq![node].drop_last() =~= Seq::<usize>::empty());
                    assert(seq![node].last() == node);
                    assert(demand_sum(demands@, Seq::<usize>::empty()) == 0);
                    assert(rs.push(single_route(node)).drop_last() =~= rs);
                    assert(total_nodes(rv(routes@)) == total_nodes(rs) + 3);
                    assert forall|i: int| 0 <= i < rv(routes@).len() implies proper(#[trigger] rv(routes@)[i]) && nodes_below(rv(routes@)[i], dm@.len() as int)
                        && route_demand@[i] == demand_sum(demands@, inner(rv(routes@)[i])) by {
                        if i < rs.len() {
                            assert(rv(routes@)[i] == rs[i]);
                        }
                    }
                    assert forall|i: int| 0 <= i < ors.len() implies #[trigger] rv(routes@)[i] == ors[i] || route_tw_ok(dm@, rt@, dt@, st as int, rv(routes@)[i])
                        && route_demand@[i] <= cap by {
                        assert(rv(routes@)[i] == rs[i]);
                    }
                    assert forall|i: int| ors.len() <= i < rv(routes@).len() implies (#[trigger] rv(routes@)[i]).len() == 3
                        || route_tw_ok(dm@, rt@, dt@, st as int, rv(routes@)[i]) && route_demand@[i] <= cap by {
                        if i < rs.len() {
                            assert(rv(routes@)[i] == rs[i]);
                        }
                    }
                    assert(reinsert_step(dm@, rt@, dt@, st as int, demands@, cap as int, rs, rdv, node, rv(routes@)));
                }
            },
        }
        proof {
            let tr0 = tr;
            tr = tr.push((rv(routes@), route_demand@));
            assert forall|i: int| 0 <= i < k + 1 implies #[trigger] reinsert_step(dm@, rt@, dt@, st as int, demands@, cap as int, tr[i].0, tr[i].1, nodes@[i], tr[i + 1].0) by {
                if i < k {
                    assert(tr[i] == tr0[i] && tr[i + 1] == tr0[i + 1]);
                } else {
                    assert(tr[i] == (rs, rdv));
                }
            }
        }
        k += 1;
    }
    proof {
        assert(nodes@.subrange(0, k as int) =~= nodes@);
        assert(reinsert_trace(dm@, rt@, dt@, st as int, demands@, cap as int, nodes@, tr, ors, ord, rv(routes@)));
    }
}

/// Two equal entries at different places occur twice in the multiset.
proof fn lemma_twice_count<A>(s: Seq<A>, a: int, b: int)
    requires
        0 <= a < b < s.len(),
        s[a] == s[b],
    ensures
        s.to_multiset().count(s[a]) >= 2,
{
    broadcast use vstd::multiset::group_multiset_axioms;
    let l = s.subrange(0, b);
    let r = s.subrange(b, s.len() as int);
    assert(s =~= l + r);
    vstd::seq_lib::lemma_multiset_commutative(l, r);
    vstd::seq_lib::to_multiset_contains(l, s[a]);
    assert(l[a] == s[a]);
    assert(l.contains(s[a]));
    vstd::seq_lib::to_multiset_contains(r, s[b]);
    assert(r[0] == s[b]);
    assert(r.contains(s[b]));
}

/// A sequence whose multiset equals that of a sequence of distinct entries has
/// distinct entries.
proof fn lemma_distinct_perm<A>(s: Seq<A>, t: Seq<A>)
    requires
        forall|a: int, b: int| 0 <= a < b < s.len() ==> #[trigger] s[a] != #[trigger] s[b],
        t.to_multiset() == s.to_multiset(),
    ensures
        forall|a: int, b: int| 0 <= a < b < t.len() ==> #[trigger] t[a] != #[trigger] t[b],
{
    assert forall|a: int, b: int| 0 <= a < b < t.len() implies #[trigger] t[a] != #[trigger] t[b] by {
        if t[a] == t[b] {
            lemma_twice_count(t, a, b);
            lemma_distinct_count(s, t[a]);
        }
    }
}

/// Routes in normal form within the node tables, with few enough nodes overall,
/// whose recorded demands are those of their inner nodes.
pub open spec fn so_routes(demands: Seq<i32>, rs: Seq<Seq<usize>>, rd: Seq<i32>) -> bool {
    &&& table_ok(demands, demands.len() as int)
    &&& rd.len() == rs.len()
    &&& forall|i: int| 0 <= i < rs.len() ==> proper(#[trigger] rs[i]) && nodes_below(rs[i], demands.len() as int)
        && rd[i] == demand_sum(demands, inner(rs[i]))
    &&& total_nodes(rs) <= LEN_LIMIT
}

/// A list of distinct inner positions of the routes.
pub open spec fn valid_positions(rs: Seq<Seq<usize>>, chosen: Seq<(usize, usize)>) -> bool {
    &&& forall|q: int| 0 <= q < chosen.len() ==> (#[trigger] chosen[q]).0 < rs.len() && 1 <= chosen[q].1 < rs[chosen[q].0 as int].len() - 1
    &&& forall|a: int, b: int| 0 <= a < b < chosen.len() ==> #[trigger] chosen[a] != #[trigger] chosen[b]
}

/// The positions of `chosen` that lie on route `ri`, in the order of `chosen`,
/// with the places in `chosen` they come from.
fn positions_of_route(chosen: &Vec<(usize, usize)>, ri: usize) -> (res: (Vec<usize>, Ghost<Seq<int>>))
    requires
        forall|a: int, b: int| 0 <= a < b < chosen@.len() ==> #[trigger] chosen@[a] != #[trigger] chosen@[b],
    ensures
        res.1@.len() == res.0@.len(),
        forall|k: int| 0 <= k < res.0@.len() ==> 0 <= #[trigger] res.1@[k] < chosen@.len() && chosen@[res.1@[k]] == (ri, res.0@[k]),
        forall|a: int, b: int| 0 <= a < b < res.0@.len() ==> #[trigger] res.0@[a] != #[trigger] res.0@[b],
{
    let mut ps: Vec<usize> = Vec::new();
    let ghost mut idx: Seq<int> = Seq::empty();
    let mut t: usize = 0;
    while t < chosen.len()
        invariant
            t <= chosen@.len(),
            idx.len() == ps@.len(),
            forall|k: int| 0 <= k < idx.len() ==> 0 <= #[trigger] idx[k] < t && chosen@[idx[k]] == (ri, ps@[k]),
            forall|a: int, b: int| 0 <= a < b < idx.len() ==> #[trigger] idx[a] < #[trigger] idx[b],
        decreases chosen.len() - t,
    {
        if chosen[t].0 == ri {
            ps.push(chosen[t].1);
            proof {
                idx = idx.push(t as int);
            }
        }
        t += 1;
    }
    proof {
        assert forall|a: int, b: int| 0 <= a < b < ps@.len() implies #[trigger] ps@[a] != #[trigger] ps@[b] by {
            if ps@[a] == ps@[b] {
                assert(idx[a] < idx[b]);
                assert(chosen@[idx[a]] == chosen@[idx[b]]);
            }
        }
    }
    (ps, Ghost(idx))
}

/// Removes the chosen inner positions: route by route, the largest position
/// first, lowering each route's recorded demand; gives the removed nodes in that
/// order.
pub fn remove_chosen(routes: &mut Vec<Vec<usize>>, route_demand: &mut Vec<i32>, chosen: &Vec<(usize, usize)>, demands: &[i32]) -> (removed: Vec<usize>)
    requires
        so_routes(demands@, rv(old(routes)@), old(route_demand)@),
        valid_positions(rv(old(routes)@), chosen@),
    ensures
        so_routes(demands@, rv(final(routes)@), final(route_demand)@),
        final(routes)@.len() == old(routes)@.len(),
        all_custs(rv(final(routes)@)).add(removed@.to_multiset()) == all_custs(rv(old(routes)@)),
        total_nodes(rv(final(routes)@)) + removed@.len() == total_nodes(rv(old(routes)@)),
        forall|q: int| 0 <= q < removed@.len() ==> 0 < #[trigger] removed@[q] < demands@.len(),
{
    let ghost ors = rv(routes@);
    let mut removed: Vec<usize> = Vec::new();
    let mut ri: usize = 0;
    proof {
        assert(removed@.to_multiset() =~= Multiset::<usize>::empty()) by {
            vstd::seq_lib::to_multiset_len(removed@);
            vstd::multiset::lemma_multiset_empty_len(removed@.to_multiset());
        }
        assert(all_custs(rv(routes@)).add(removed@.to_multiset()) =~= all_custs(ors)) by {
            broadcast use vstd::multiset::group_multiset_axioms;
        }
    }
    while ri < routes.len()
        invariant
            so_routes(demands@, rv(routes@), route_demand@),
            routes@.len() == ors.len(),
            valid_positions(ors, chosen@),
            ri <= routes@.len(),
            forall|k: int| ri <= k < routes@.len() ==> #[trigger] rv(routes@)[k] == ors[k],
            all_custs(rv(routes@)).add(removed@.to_multiset()) == all_custs(ors),
            total_nodes(rv(routes@)) + removed@.len() == total_nodes(ors),
            forall|q: int| 0 <= q < removed@.len() ==> 0 < #[trigger] removed@[q] < demands@.len(),
        decreases routes.len() - ri,
    {
        let ghost rs = rv(routes@);
        let ghost rdv = route_demand@;
        let (ps, Ghost(idx)) = positions_of_route(chosen, ri);
        assert(rs[ri as int] == ors[ri as int]);
        assert(rs[ri as int] == routes@[ri as int]@);
        proof {
            assert forall|q: int| 0 <= q < ps@.len() implies 1 <= #[trigger] ps@[q] < rs[ri as int].len() - 1 by {
                let w = idx[q];
                assert(chosen@[w] == (ri, ps@[q]));
            }
            lemma_total_nodes(rs, 0, rs[0]);
        }
        let mut r = copy_route(&routes[ri]);
        let mut d = route_demand[ri];
        let rem = remove_inner_positions(&mut r, &mut d, ps, demands);
        let ghost rem_before = removed@;
        let mut t: usize = 0;
        while t < rem.len()
            invariant
                t <= rem@.len(),
                removed@ == rem_before + rem@.subrange(0, t as int),
            decreases rem.len() - t,
        {
            removed.push(rem[t]);
            t += 1;
            assert(removed@ =~= rem_before + rem@.subrange(0, t as int));
        }
        assert(rem@.subrange(0, t as int) =~= rem@);
        proof {
            lemma_all_custs_update(rs, ri as int, r@);
            lemma_total_nodes(rs, ri as int, r@);
            vstd::seq_lib::lemma_multiset_commutative(rem_before, rem@);
        }
        routes.set(ri, r);
        route_demand.set(ri, d);
        proof {
            assert(rv(routes@) =~= rs.update(ri as int, rv(routes@)[ri as int]));
            assert(all_custs(rv(routes@)).add(removed@.to_multiset()) =~= all_custs(ors)) by {
                broadcast use vstd::multiset::group_multiset_axioms;
                assert forall|x: usize| all_custs(rv(routes@)).add(removed@.to_multiset()).count(x) == all_custs(ors).count(x) by {
                    assert(all_custs(rv(routes@)).add(custs(rs[ri as int])).count(x) == all_custs(rs).add(custs(rv(routes@)[ri as int])).count(x));
                }
            }
            assert forall|i: int| 0 <= i < rv(routes@).len() implies proper(#[trigger] rv(routes@)[i]) && nodes_below(rv(routes@)[i], demands@.len() as int)
                && route_demand@[i] == demand_sum(demands@, inner(rv(routes@)[i])) by {
                if i != ri {
                    assert(rv(routes@)[i] == rs[i]);
                }
            }
            assert forall|k: int| ri + 1 <= k < routes@.len() implies #[trigger] rv(routes@)[k] == ors[k] by {
                assert(rv(routes@)[k] == rs[k]);
            }
            assert forall|q: int| 0 <= q < removed@.len() implies 0 < #[trigger] removed@[q] < demands@.len() by {
                if q >= rem_before.len() {
                    assert(removed@[q] == rem@[q - rem_before.len()]);
                }
            }
        }
        ri += 1;
    }
    removed
}

/// The inner positions of all routes, route by route.
fn inner_position_list(routes: &Vec<Vec<usize>>) -> (res: Vec<(usize, usize)>)
    requires
        forall|i: int| 0 <= i < routes@.len() ==> (#[trigger] routes@[i]@).len() >= 2,
    ensures
        valid_positions(rv(routes@), res@),
        forall|r: int, p: int| 0 <= r < routes@.len() && 1 <= p < routes@[r]@.len() - 1 ==> #[trigger] res@.contains((r as usize, p as usize)),
        forall|a: int, b: int| 0 <= a < b < res@.len() ==> (#[trigger] res@[a]).0 < (#[trigger] res@[b]).0
            || res@[a].0 == res@[b].0 && res@[a].1 < res@[b].1,
{
    let ghost rs = rv(routes@);
    let mut out: Vec<(usize, usize)> = Vec::new();
    let mut ri: usize = 0;
    while ri < routes.len()
        invariant
            rs == rv(routes@),
            forall|i: int| 0 <= i < routes@.len() ==> (#[trigger] routes@[i]@).len() >= 2,
            ri <= routes@.len(),
            forall|q: int| 0 <= q < out@.len() ==> (#[trigger] out@[q]).0 < ri && 1 <= out@[q].1 < rs[out@[q].0 as int].len() - 1,
            forall|a: int, b: int| 0 <= a < b < out@.len() ==> (#[trigger] out@[a]).0 < (#[trigger] out@[b]).0
                || out@[a].0 == out@[b].0 && out@[a].1 < out@[b].1,
            forall|r: int, p: int| 0 <= r < ri && 1 <= p < routes@[r]@.len() - 1 ==> #[trigger] out@.contains((r as usize, p as usize)),
        decreases routes.len() - ri,
    {
        let len = routes[ri].len();
        assert(rs[ri as int] == routes@[ri as int]@);
        let mut pi: usize = 1;
        while pi < len - 1
            invariant
                rs == rv(routes@),
                ri < routes@.len(),
                len == rs[ri as int].len(),
                len >= 2,
                1 <= pi <= len - 1,
                forall|q: int| 0 <= q < out@.len() ==> (#[trigger] out@[q]).0 <= ri && 1 <= out@[q].1 < rs[out@[q].0 as int].len() - 1
                    && (out@[q].0 == ri ==> out@[q].1 < pi),
                forall|a: int, b: int| 0 <= a < b < out@.len() ==> (#[trigger] out@[a]).0 < (#[trigger] out@[b]).0
                    || out@[a].0 == out@[b].0 && out@[a].1 < out@[b].1,
                forall|r: int, p: int| (0 <= r < ri && 1 <= p < routes@[r]@.len() - 1 || r == ri && 1 <= p < pi)
                    ==> #[trigger] out@.contains((r as usize, p as usize)),
            decreases len - 1 - pi,
        {
            let ghost o0 = out@;
            out.push((ri, pi));
            proof {
                assert(out@[out@.len() - 1] == (ri, pi));
                assert forall|r: int, p: int| (0 <= r < ri && 1 <= p < routes@[r]@.len() - 1 || r == ri && 1 <= p < pi + 1)
                    implies #[trigger] out@.contains((r as usize, p as usize)) by {
                    if r == ri && p == pi {
                        assert(out@[out@.len() - 1] == (r as usize, p as usize));
                    } else {
                        assert(o0.contains((r as usize, p as usize)));
                        let w = choose|w: int| 0 <= w < o0.len() && o0[w] == (r as usize, p as usize);
                        assert(out@[w] == o0[w]);
                    }
                }
            }
            pi += 1;
        }
        proof {
            assert forall|r: int, p: int| 0 <= r < ri + 1 && 1 <= p < routes@[r]@.len() - 1
                implies #[trigger] out@.contains((r as usize, p as usize)) by {
                if r == ri {
                    assert(rs[ri as int] == routes@[ri as int]@);
                }
            }
        }
        ri += 1;
    }
    proof {
        assert forall|a: int, b: int| 0 <= a < b < out@.len() implies #[trigger] out@[a] != #[trigger] out@[b] by {
        }
    }
    out
}

/// The first `k` entries of `v`.
fn prefix_of(v: &Vec<(usize, usize)>, k: usize) -> (res: Vec<(usize, usize)>)
    requires
        k <= v@.len(),
    ensures
        res@ == v@.subrange(0, k as int),
{
    let mut out: Vec<(usize, usize)> = Vec::new();
    let mut i: usize = 0;
    while i < k
        invariant
            i <= k,
            k <= v@.len(),
            out@ == v@.subrange(0, i as int),
        decreases k - i,
    {
        out.push(v[i]);
        i += 1;
        assert(out@ =~= v@.subrange(0, i as int));
    }
    out
}

/// Removes the chosen positions, drops the routes left without customers,
/// shuffles the removed nodes in the given order and reinserts them.
fn remove_and_reinsert(
    routes: &mut Vec<Vec<usize>>,
    route_demand: &mut Vec<i32>,
    chosen: &Vec<(usize, usize)>,
    rng: &mut SmallRng,
    dm: &[Vec<i32>],
    rt: &[i32],
    dt: &[i32],
    st: i32,
    demands: &[i32],
    cap: i32,
)
    requires
        so_state(dm@, rt@, dt@, st, demands@, rv(old(routes)@), old(route_demand)@),
        3 * total_nodes(rv(old(routes)@)) <= LEN_LIMIT,
        valid_positions(rv(old(routes)@), chosen@),
    ensures
        so_state(dm@, rt@, dt@, st, demands@, rv(final(routes)@), final(route_demand)@),
        all_custs(rv(final(routes)@)) == all_custs(rv(old(routes)@)),
        exists|mid: Seq<Seq<usize>>, md: Seq<i32>, nodes: Seq<usize>|
            #[trigger] reinsert_run(dm@, rt@, dt@, st as int, demands@, cap as int, nodes, mid, md, rv(final(routes)@))
            && so_repaired(dm@, rt@, dt@, st as int, cap as int, mid, rv(final(routes)@), final(route_demand)@)
            && all_custs(mid).add(nodes.to_multiset()) == all_custs(rv(old(routes)@)),
{
    let ghost ors = rv(routes@);
    let mut removed = remove_chosen(routes, route_demand, chosen, demands);
    let ghost mid = rv(routes@);
    let ghost midd = route_demand@;
    drop_empty_aligned(routes, route_demand);
    proof {
        let p = |r: Seq<usize>, d: i32| proper(r) && nodes_below(r, demands@.len() as int) && d == demand_sum(demands@, inner(r));
        assert forall|k: int| 0 <= k < mid.len() implies #[trigger] p(mid[k], midd[k]) by {
        }
        lemma_keep_aligned_pairs(mid, midd, p);
        assert(short_routes_empty(mid)) by {
            assert forall|x: int, k: int| 0 <= x < mid.len() && mid[x].len() <= 2 && 0 <= k < mid[x].len() implies #[trigger] mid[x][k] == 0 by {
                assert(p(mid[x], midd[x]));
            }
        }
        lemma_keep_nonempty_custs(mid);
        let kn = keep_nonempty(mid);
        let ka = keep_aligned(mid, midd);
        assert forall|k: int| 0 <= k < kn.len() implies proper(#[trigger] kn[k]) && nodes_below(kn[k], dm@.len() as int)
            && ka[k] == demand_sum(demands@, inner(kn[k])) by {
            assert(p(kn[k], ka[k]));
        }
    }
    let ghost r0 = removed@;
    shuffle_vec(&mut removed, rng);
    proof {
        assert forall|q: int| 0 <= q < removed@.len() implies 0 < #[trigger] removed@[q] < dm@.len() by {
            vstd::seq_lib::to_multiset_contains(removed@, removed@[q]);
            assert(removed@.contains(removed@[q]));
            vstd::seq_lib::to_multiset_contains(r0, removed@[q]);
            let w = choose|w: int| 0 <= w < r0.len() && r0[w] == removed@[q];
        }
        if mid.len() > 0 {
            lemma_total_nodes(mid, 0, mid[0]);
        }
        assert(total_nodes(rv(routes@)) <= total_nodes(mid));
    }
    let ghost mid2 = rv(routes@);
    let ghost md2 = route_demand@;
    let ghost nodes = removed@;
    reinsert_nodes(routes, route_demand, removed, dm, rt, dt, st, demands, cap);
    proof {
        assert(reinsert_run(dm@, rt@, dt@, st as int, demands@, cap as int, nodes, mid2, md2, rv(routes@)));
    }
}

/// Random destroy and repair: shuffles the inner positions of all routes, removes
/// the first `destroy_count` of them (route by route, the largest position
/// first), drops the routes left without customers, and reinserts the removed
/// customers in random order, each at its cheapest feasible place or in a route
/// of its own.
pub fn destroy_and_repair(
    solution: &mut Solution,
    route_demand: &mut Vec<i32>,
    destroy_count: usize,
    rng: &mut SmallRng,
    dm: &[Vec<i32>],
    rt: &[i32],
    dt: &[i32],
    st: i32,
    demands: &[i32],
    cap: i32,
)
    requires
        so_state(dm@, rt@, dt@, st, demands@, rv(old(solution).routes@), old(route_demand)@),
        3 * total_nodes(rv(old(solution).routes@)) <= LEN_LIMIT,
    ensures
        so_state(dm@, rt@, dt@, st, demands@, rv(final(solution).routes@), final(route_demand)@),
        all_custs(rv(final(solution).routes@)) == all_custs(rv(old(solution).routes@)),
        exists|mid: Seq<Seq<usize>>, md: Seq<i32>, nodes: Seq<usize>|
            #[trigger] reinsert_run(dm@, rt@, dt@, st as int, demands@, cap as int, nodes, mid, md, rv(final(solution).routes@))
            && so_repaired(dm@, rt@, dt@, st as int, cap as int, mid, rv(final(solution).routes@), final(route_demand)@)
            && all_custs(mid).add(nodes.to_multiset()) == all_custs(rv(old(solution).routes@)),
{
    let ghost rs = rv(solution.routes@);
    proof {
        assert forall|i: int| 0 <= i < solution.routes@.len() implies (#[trigger] solution.routes@[i]@).len() >= 2 by {
            assert(proper(rs[i]));
        }
    }
    let mut all_cust = inner_position_list(&solution.routes);
    let ghost before = all_cust@;
    shuffle_vec(&mut all_cust, rng);
    proof {
        lemma_distinct_perm(before, all_cust@);
        assert forall|q: int| 0 <= q < all_cust@.len() implies (#[trigger] all_cust@[q]).0 < rs.len()
            && 1 <= all_cust@[q].1 < rs[all_cust@[q].0 as int].len() - 1 by {
            vstd::seq_lib::to_multiset_contains(all_cust@, all_cust@[q]);
            assert(all_cust@.contains(all_cust@[q]));
            vstd::seq_lib::to_multiset_contains(before, all_cust@[q]);
            let w = choose|w: int| 0 <= w < before.len() && before[w] == all_cust@[q];
            assert(before[w] == all_cust@[q]);
        }
    }
    let actual = if destroy_count < all_cust.len() { destroy_count } else { all_cust.len() };
    let chosen = prefix_of(&all_cust, actual);
    proof {
        assert forall|a: int, b: int| 0 <= a < b < chosen@.len() implies #[trigger] chosen@[a] != #[trigger] chosen@[b] by {
            assert(chosen@[a] == all_cust@[a] && chosen@[b] == all_cust@[b]);
        }
        assert forall|q: int| 0 <= q < chosen@.len() implies (#[trigger] chosen@[q]).0 < rs.len()
            && 1 <= chosen@[q].1 < rs[chosen@[q].0 as int].len() - 1 by {
            assert(chosen@[q] == all_cust@[q]);
        }
    }
    remove_and_reinsert(&mut solution.routes, route_demand, &chosen, rng, dm, rt, dt, st, demands, cap);
    proof {
        let (mid, md, nodes) = choose|mid: Seq<Seq<usize>>, md: Seq<i32>, nodes: Seq<usize>|
            #[trigger] reinsert_run(dm@, rt@, dt@, st as int, demands@, cap as int, nodes, mid, md, rv(solution.routes@))
            && so_repaired(dm@, rt@, dt@, st as int, cap as int, mid, rv(solution.routes@), route_demand@)
            && all_custs(mid).add(nodes.to_multiset()) == all_custs(rs);
        assert(reinsert_run(dm@, rt@, dt@, st as int, demands@, cap as int, nodes, mid, md, rv(solution.routes@)));
    }
}

/// The route indices ordered by route length (stable: equal lengths keep their
/// order).
pub(crate) fn indices_by_size(routes: &Vec<Vec<usize>>) -> (res: Vec<usize>)
    ensures
        res@.len() == routes@.len(),
        forall|q: int| 0 <= q < res@.len() ==> (#[trigger] res@[q] as int) < routes@.len(),
        forall|a: int, b: int| 0 <= a < b < res@.len() ==> routes@[#[trigger] res@[a] as int]@.len() <= routes@[#[trigger] res@[b] as int]@.len(),
        forall|x: int| 0 <= x < routes@.len() ==> #[trigger] res@.contains(x as usize),
{
    let mut v: Vec<usize> = Vec::new();
    let mut i: usize = 0;
    while i < routes.len()
        invariant
            i <= routes@.len(),
            v@.len() == i,
            forall|q: int| 0 <= q < v@.len() ==> (#[trigger] v@[q] as int) < i,
            v@ == Seq::new(i as nat, |q: int| q as usize),
        decreases routes.len() - i,
    {
        v.push(i);
        i += 1;
        assert(v@ =~= Seq::new(i as nat, |q: int| q as usize));
    }
    let ghost all = v@;
    let mut i: usize = 1;
    while i < v.len()
        invariant
            v@.len() == routes@.len(),
            forall|q: int| 0 <= q < v@.len() ==> (#[trigger] v@[q] as int) < routes@.len(),
            v@.len() == 0 || 1 <= i <= v@.len(),
            forall|a: int, b: int| 0 <= a < b < i && b < v@.len() ==> routes@[#[trigger] v@[a] as int]@.len() <= routes@[#[trigger] v@[b] as int]@.len(),
            v@.to_multiset() == all.to_multiset(),
            all == Seq::new(routes@.len(), |q: int| q as usize),
        decreases v.len() - i,
    {
        let mut j: usize = i;
        while j > 0 && routes[v[j - 1]].len() > routes[v[j]].len()
            invariant
                v@.len() == routes@.len(),
                forall|q: int| 0 <= q < v@.len() ==> (#[trigger] v@[q] as int) < routes@.len(),
                1 <= i < v@.len(),
                j <= i,
                forall|a: int, b: int| 0 <= a < b < j ==> routes@[#[trigger] v@[a] as int]@.len() <= routes@[#[trigger] v@[b] as int]@.len(),
                forall|a: int, b: int| j < a < b <= i ==> routes@[#[trigger] v@[a] as int]@.len() <= routes@[#[trigger] v@[b] as int]@.len(),
                forall|a: int, b: int| 0 <= a < j && j < b <= i ==> routes@[#[trigger] v@[a] as int]@.len() <= routes@[#[trigger] v@[b] as int]@.len(),
                forall|b: int| j < b <= i ==> routes@[v@[j as int] as int]@.len() < routes@[#[trigger] v@[b] as int]@.len(),
                v@.to_multiset() == all.to_multiset(),
            decreases j,
        {
            proof {
                crate::destroy::lemma_swap_multiset(v@, j - 1, j as int);
            }
            let x = v[j - 1];
            let y = v[j];
            v.set(j - 1, y);
            v.set(j, x);
            j -= 1;
        }
        i += 1;
    }
    proof {
        assert forall|x: int| 0 <= x < routes@.len() implies #[trigger] v@.contains(x as usize) by {
            assert(all[x] == x as usize);
            vstd::seq_lib::to_multiset_contains(all, x as usize);
            assert(all.contains(x as usize));
            vstd::seq_lib::to_multiset_contains(v@, x as usize);
        }
    }
    v
}

/// Route destroy and repair: with at least two routes, picks at random one of
/// the shortest third of the routes (at least the shortest), removes it, and
/// reinserts its customers in random order, each at its cheapest feasible place
/// or in a route of its own.
pub fn route_destroy_and_repair(
    solution: &mut Solution,
    route_demand: &mut Vec<i32>,
    rng: &mut SmallRng,
    dm: &[Vec<i32>],
    rt: &[i32],
    dt: &[i32],
    st: i32,
    demands: &[i32],
    cap: i32,
)
    requires
        so_state(dm@, rt@, dt@, st, demands@, rv(old(solution).routes@), old(route_demand)@),
        3 * total_nodes(rv(old(solution).routes@)) <= LEN_LIMIT,
    ensures
        so_state(dm@, rt@, dt@, st, demands@, rv(final(solution).routes@), final(route_demand)@),
        all_custs(rv(final(solution).routes@)) == all_custs(rv(old(solution).routes@)),
        old(solution).routes@.len() < 2 ==> rv(final(solution).routes@) == rv(old(solution).routes@),
{
    if solution.routes.len() < 2 {
        return;
    }
    let ghost rs = rv(solution.routes@);
    let idx_by_size = indices_by_size(&solution.routes);
    let third = idx_by_size.len() / 3;
    let pool = if third > 1 { third } else { 1 };
    let pick = gen_below(rng, pool);
    let ri = idx_by_size[pick];
    let len = solution.routes[ri].len();
    assert(rs[ri as int] == solution.routes@[ri as int]@);
    assert(proper(rs[ri as int]));
    let mut removed = crate::algorithm::join_slices(&solution.routes[ri], 1, len - 1, &solution.routes[ri], 0, 0);
    assert(removed@ =~= rs[ri as int].subrange(1, len - 1));
    proof {
        crate::model::lemma_all_custs_remove(rs, ri as int);
        lemma_total_nodes(rs, ri as int, rs[ri as int]);
        let r = rs[ri as int];
        assert(r =~= (seq![r[0]] + removed@) + seq![r[r.len() - 1]]);
        crate::model::lemma_custs_concat(seq![r[0]] + removed@, seq![r[r.len() - 1]]);
        crate::model::lemma_custs_concat(seq![r[0]], removed@);
        crate::model::lemma_custs_single(r[0]);
        crate::model::lemma_custs_single(r[r.len() - 1]);
        assert forall|k: int| 0 <= k < removed@.len() implies #[trigger] removed@[k] != 0 by {
            assert(removed@[k] == r[k + 1]);
        }
        crate::primal_viper::lemma_custs_nonzero(removed@);
        assert(custs(r) =~= removed@.to_multiset()) by {
            broadcast use vstd::multiset::group_multiset_axioms;
        }
        assert forall|k: int| 0 <= k < removed@.len() implies 0 < #[trigger] removed@[k] < dm@.len() by {
            assert(removed@[k] == r[k + 1]);
        }
    }
    let ghost r_removed = removed@;
    solution.routes.remove(ri);
    route_demand.remove(ri);
    proof {
        let w = rs.remove(ri as int);
        assert(rv(solution.routes@) =~= w);
        assert forall|k: int| 0 <= k < w.len() implies proper(#[trigger] w[k]) && nodes_below(w[k], dm@.len() as int)
            && route_demand@[k] == demand_sum(demands@, inner(w[k])) by {
            if k < ri {
                assert(w[k] == rs[k]);
            } else {
                assert(w[k] == rs[k + 1]);
            }
        }
    }
    shuffle_vec(&mut removed, rng);
    proof {
        assert forall|q: int| 0 <= q < removed@.len() implies 0 < #[trigger] removed@[q] < dm@.len() by {
            vstd::seq_lib::to_multiset_contains(removed@, removed@[q]);
            assert(removed@.contains(removed@[q]));
            vstd::seq_lib::to_multiset_contains(r_removed, removed@[q]);
            let w = choose|w: int| 0 <= w < r_removed.len() && r_removed[w] == removed@[q];
        }
    }
    reinsert_nodes(&mut solution.routes, route_demand, removed, dm, rt, dt, st, demands, cap);
    proof {
        assert(all_custs(rv(solution.routes@)) =~= all_custs(rs)) by {
            broadcast use vstd::multiset::group_multiset_axioms;
        }
    }
}

} // verus!
