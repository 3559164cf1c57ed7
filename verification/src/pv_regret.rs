//! Regret-k insertion for the time-window solver that keeps a demand per route:
//! the cheapest time-feasible insertion of a customer into each route, the
//! regret of a customer over its best routes, regret-k repair of removed
//! customers and regret-k construction of a whole solution.
use vstd::prelude::*;
use vstd::multiset::Multiset;
use crate::model::{
    all_custs, custs, cust1, rv, in_limit, proper, nodes_below, Challenge, LEN_LIMIT, VALUE_LIMIT, Solution,
    lemma_custs_insert, lemma_all_custs_update,
};
use crate::algorithm::{ins_cost, copy_route};
use crate::repair::{single_route, lemma_single_route, lemma_load_insert, embeds, lemma_embeds_refl, lemma_embeds_insert, lemma_embeds_trans};
use crate::primal_viper::{time_feasible, insertion_time_feasible, ch_tw, lemma_ch_tw, tw_insert_ok};
use crate::construct::{flagged, lemma_flagged_flip, lemma_flagged_all, lemma_flagged_depot, depot_flags};
use crate::destroy::{count_false, lemma_count_false_flip};
use crate::algorithm::all_proper;
use crate::repair::lemma_insert_proper;

verus! {

/// Sorts costs in increasing order.
pub fn sort_costs(v: &mut Vec<i32>)
    ensures
        forall|a: int, b: int| 0 <= a < b < final(v)@.len() ==> #[trigger] final(v)@[a] <= #[trigger] final(v)@[b],
        final(v)@.to_multiset() == old(v)@.to_multiset(),
        final(v)@.len() == old(v)@.len(),
{
    let mut i: usize = 1;
    let ghost m = v@.to_multiset();
    while i < v.len()
        invariant
            v@.to_multiset() == m,
            v@.len() == old(v)@.len(),
            m == old(v)@.to_multiset(),
            v@.len() == 0 || 1 <= i <= v@.len(),
            forall|a: int, b: int| 0 <= a < b < i && b < v@.len() ==> #[trigger] v@[a] <= #[trigger] v@[b],
        decreases v.len() - i,
    {
        let mut j: usize = i;
        while j > 0 && v[j - 1] > v[j]
            invariant
                v@.to_multiset() == m,
                v@.len() == old(v)@.len(),
                1 <= i < v@.len(),
                j <= i,
                forall|a: int, b: int| 0 <= a < b < j ==> #[trigger] v@[a] <= #[trigger] v@[b],
                forall|a: int, b: int| j < a < b <= i ==> #[trigger] v@[a] <= #[trigger] v@[b],
                forall|a: int, b: int| 0 <= a < j && j < b <= i ==> #[trigger] v@[a] <= #[trigger] v@[b],
                forall|b: int| j < b <= i ==> v@[j as int] < #[trigger] v@[b],
            decreases j,
        {
            let x = v[j - 1];
            let y = v[j];
            proof {
                crate::destroy::lemma_swap_multiset(v@, j - 1, j as int);
            }
            v.set(j - 1, y);
            v.set(j, x);
            j -= 1;
        }
        i += 1;
    }
}

/// Sum of the gaps between the first `m` costs and the first one.
pub open spec fn gap_sum(s: Seq<i32>, m: int) -> int
    decreases m,
{
    if m <= 1 {
        0
    } else {
        gap_sum(s, m - 1) + (s[m - 1] - s[0])
    }
}

/// The regret-k value of increasingly sorted costs: the gaps of the `k` cheapest
/// to the cheapest, plus one million for each of the `k` routes missing.
pub open spec fn regret_k(s: Seq<i32>, k: int) -> int {
    gap_sum(s, if k <= s.len() { k } else { s.len() as int }) + (if s.len() < k { 1_000_000 * (k - s.len()) } else { 0 })
}

/// The regret-k value of some costs, and the cheapest of them.
pub fn regret_k_value(costs: &Vec<i32>, k: usize) -> (res: (i64, i32))
    requires
        costs@.len() > 0,
        costs@.len() <= LEN_LIMIT,
        k <= 1_000_000_000,
        forall|q: int| 0 <= q < costs@.len() ==> -100_000 <= #[trigger] costs@[q] <= 200_000,
    ensures
        exists|s: Seq<i32>| #[trigger] sorted_of(s, costs@) && res.0 == regret_k(s, k as int) && res.1 == s[0],
        forall|q: int| 0 <= q < costs@.len() ==> res.1 <= #[trigger] costs@[q],
        costs@.contains(res.1),
        res.0 >= 0,
{
    let mut v = copy_route_i32(costs);
    sort_costs(&mut v);
    proof {
        assert forall|q: int| 0 <= q < v@.len() implies -100_000 <= #[trigger] v@[q] <= 200_000 by {
            vstd::seq_lib::to_multiset_contains(v@, v@[q]);
            assert(v@.contains(v@[q]));
            assert(costs@.to_multiset().count(v@[q]) > 0);
            vstd::seq_lib::to_multiset_contains(costs@, v@[q]);
        }
    }
    let c0 = v[0];
    let kk = if k < v.len() { k } else { v.len() };
    let mut regret: i64 = 0;
    let mut j: usize = 1;
    while j < kk
        invariant
            1 <= j,
            j <= kk || kk == 0,
            kk == 0 ==> j == 1,
            kk <= v@.len(),
            v@.len() <= LEN_LIMIT,
            c0 == v@[0],
            v@.len() > 0,
            forall|q: int| 0 <= q < v@.len() ==> -100_000 <= #[trigger] v@[q] <= 200_000,
            regret == gap_sum(v@, j as int),
            0 <= regret <= 300_000 * (j - 1),
            forall|a: int, b: int| 0 <= a < b < v@.len() ==> #[trigger] v@[a] <= #[trigger] v@[b],
        decreases kk - j,
    {
        proof {
            assert(v@[0] <= v@[j as int]);
            assert(300_000 * (j - 1) + 300_000 <= 300_000 * LEN_LIMIT) by (nonlinear_arith)
                requires
                    j <= LEN_LIMIT,
            ;
        }
        regret = regret + (v[j] - c0) as i64;
        j += 1;
    }
    proof {
        if kk >= 1 {
            assert(j == kk);
        } else {
            assert(gap_sum(v@, 0) == 0);
            assert(gap_sum(v@, 1) == 0);
            assert(j == 1);
        }
        assert(kk as int == (if k <= v@.len() { k as int } else { v@.len() as int }));
    }
    assert(regret == gap_sum(v@, if k <= v@.len() { k as int } else { v@.len() as int }));
    if v.len() < k {
        assert(1_000_000 * (k - v@.len()) <= 1_000_000 * 1_000_000_000) by (nonlinear_arith)
            requires
                k - v@.len() <= 1_000_000_000,
        ;
        regret = regret + 1_000_000 * ((k - v.len()) as i64);
    }
    proof {
        assert(regret == regret_k(v@, k as int));
        assert forall|q: int| 0 <= q < costs@.len() implies c0 <= #[trigger] costs@[q] by {
            vstd::seq_lib::to_multiset_contains(costs@, costs@[q]);
            assert(costs@.contains(costs@[q]));
            vstd::seq_lib::to_multiset_contains(v@, costs@[q]);
            let w = choose|w: int| 0 <= w < v@.len() && v@[w] == costs@[q];
            if w > 0 {
                assert(v@[0] <= v@[w]);
            }
        }
        assert(v@.contains(c0));
        vstd::seq_lib::to_multiset_contains(v@, c0);
        vstd::seq_lib::to_multiset_contains(costs@, c0);
        assert(sorted_of(v@, costs@));
    }
    (regret, c0)
}

/// A copy of a vector of costs.
fn copy_route_i32(v: &Vec<i32>) -> (res: Vec<i32>)
    ensures
        res@ == v@,
{
    let mut out: Vec<i32> = Vec::new();
    let mut i: usize = 0;
    while i < v.len()
        invariant
            i <= v@.len(),
            out@ == v@.subrange(0, i as int),
        decreases v.len() - i,
    {
        out.push(v[i]);
        i += 1;
        assert(out@ =~= v@.subrange(0, i as int));
    }
    assert(v@.subrange(0, i as int) =~= v@);
    out
}

/// The first cheapest time-feasible insertion of `c` into route `sr`, when its
/// recorded demand leaves room for `c`, with its cost.
pub fn route_best_pos(routes: &Vec<Vec<usize>>, route_demand: &Vec<i32>, sr: usize, ch: &Challenge, c: usize) -> (res: Option<(usize, i32)>)
    requires
        ch.wf(),
        forall|i: int| 0 <= i < routes@.len() ==> ch.route_ok(#[trigger] routes@[i]@) && routes@[i]@.len() < usize::MAX,
        route_demand@.len() == routes@.len(),
        forall|i: int| 0 <= i < route_demand@.len() ==> #[trigger] route_demand@[i] <= i32::MAX - VALUE_LIMIT,
        sr < routes@.len(),
        (c as int) < ch.num_nodes,
    ensures
        res matches Some((pos, cost)) ==> {
            &&& tw_insert_ok(*ch, rv(routes@), route_demand@, c, sr as int, pos as int)
            &&& cost == ins_cost(ch.distance_matrix@, rv(routes@)[sr as int], pos as int, c)
            &&& -100_000 <= cost <= 200_000
            &&& forall|p2: int| #[trigger] tw_insert_ok(*ch, rv(routes@), route_demand@, c, sr as int, p2)
                ==> cost <= ins_cost(ch.distance_matrix@, rv(routes@)[sr as int], p2, c)
            &&& forall|p2: int| p2 < pos && #[trigger] tw_insert_ok(*ch, rv(routes@), route_demand@, c, sr as int, p2)
                ==> cost < ins_cost(ch.distance_matrix@, rv(routes@)[sr as int], p2, c)
        },
        res is None ==> forall|p2: int| !#[trigger] tw_insert_ok(*ch, rv(routes@), route_demand@, c, sr as int, p2),
{
    let ghost rs = rv(routes@);
    let ghost dmv = ch.distance_matrix@;
    let r = &routes[sr];
    assert(rs[sr as int] == r@);
    proof {
        assert(in_limit(ch.demands@[c as int]));
        lemma_ch_tw(*ch);
    }
    if route_demand[sr] + ch.demands[c] > ch.max_capacity {
        return None;
    }
    let mut best: Option<(usize, i32)> = None;
    let mut pos: usize = 1;
    while pos < r.len()
        invariant
            rs == rv(routes@),
            dmv == ch.distance_matrix@,
            ch.wf(),
            ch_tw(*ch),
            sr < routes@.len(),
            r@ == rs[sr as int],
            ch.route_ok(r@),
            r@.len() < usize::MAX,
            route_demand@.len() == routes@.len(),
            route_demand@[sr as int] + ch.demand(c) <= ch.max_capacity,
            (c as int) < ch.num_nodes,
            1 <= pos,
            r@.len() == 0 || pos <= r@.len(),
            best matches Some(b) ==> {
                &&& b.0 < pos
                &&& tw_insert_ok(*ch, rs, route_demand@, c, sr as int, b.0 as int)
                &&& b.1 == ins_cost(dmv, rs[sr as int], b.0 as int, c)
                &&& -100_000 <= b.1 <= 200_000
                &&& forall|p2: int| p2 < pos && #[trigger] tw_insert_ok(*ch, rs, route_demand@, c, sr as int, p2) ==> b.1 <= ins_cost(dmv, rs[sr as int], p2, c)
                &&& forall|p2: int| p2 < b.0 && #[trigger] tw_insert_ok(*ch, rs, route_demand@, c, sr as int, p2) ==> b.1 < ins_cost(dmv, rs[sr as int], p2, c)
            },
            best is None ==> forall|p2: int| p2 < pos ==> !#[trigger] tw_insert_ok(*ch, rs, route_demand@, c, sr as int, p2),
        decreases r.len() - pos,
    {
        let a = r[pos - 1];
        let b = r[pos];
        proof {
            assert(in_limit(dmv[a as int]@[c as int]));
            assert(in_limit(dmv[c as int]@[b as int]));
            assert(in_limit(dmv[a as int]@[b as int]));
        }
        let cost = ch.distance_matrix[a][c] + ch.distance_matrix[c][b] - ch.distance_matrix[a][b];
        let better = match best {
            None => true,
            Some(bb) => cost < bb.1,
        };
        if better && insertion_time_feasible(r, pos, c, &ch.distance_matrix, ch.service_time, &ch.ready_times, &ch.due_times) {
            best = Some((pos, cost));
        }
        pos += 1;
    }
    best
}

/// The options of customer `c`: the cost of its first cheapest time-feasible
/// insertion into each route that takes it, in route order, and its first
/// cheapest time-feasible insertion over all routes (by route, then position).
pub fn customer_options(routes: &Vec<Vec<usize>>, route_demand: &Vec<i32>, ch: &Challenge, c: usize) -> (res: (Vec<i32>, Option<(usize, usize)>))
    requires
        ch.wf(),
        forall|i: int| 0 <= i < routes@.len() ==> ch.route_ok(#[trigger] routes@[i]@) && routes@[i]@.len() < usize::MAX,
        route_demand@.len() == routes@.len(),
        forall|i: int| 0 <= i < route_demand@.len() ==> #[trigger] route_demand@[i] <= i32::MAX - VALUE_LIMIT,
        (c as int) < ch.num_nodes,
    ensures
        res.0@.len() <= routes@.len(),
        res.1 is None <==> res.0@.len() == 0,
        forall|q: int| 0 <= q < res.0@.len() ==> -100_000 <= #[trigger] res.0@[q] <= 200_000,
        forall|q: int| 0 <= q < res.0@.len() ==> exists|r2: int, p2: int| #[trigger] tw_insert_ok(*ch, rv(routes@), route_demand@, c, r2, p2)
            && #[trigger] res.0@[q] == ins_cost(ch.distance_matrix@, rv(routes@)[r2], p2, c),
        res.1 matches Some((sr, pos)) ==> tw_insert_ok(*ch, rv(routes@), route_demand@, c, sr as int, pos as int)
            && (forall|r2: int, p2: int| #[trigger] tw_insert_ok(*ch, rv(routes@), route_demand@, c, r2, p2)
                ==> ins_cost(ch.distance_matrix@, rv(routes@)[sr as int], pos as int, c) <= ins_cost(ch.distance_matrix@, rv(routes@)[r2], p2, c))
            && (forall|r2: int, p2: int| (r2 < sr || r2 == sr && p2 < pos) && #[trigger] tw_insert_ok(*ch, rv(routes@), route_demand@, c, r2, p2)
                ==> ins_cost(ch.distance_matrix@, rv(routes@)[sr as int], pos as int, c) < ins_cost(ch.distance_matrix@, rv(routes@)[r2], p2, c)),
        res.1 is None ==> forall|r2: int, p2: int| !#[trigger] tw_insert_ok(*ch, rv(routes@), route_demand@, c, r2, p2),
        option_costs(*ch, rv(routes@), route_demand@, c, res.0@),
{
    let ghost rs = rv(routes@);
    let ghost dmv = ch.distance_matrix@;
    let ghost mut idx: Seq<int> = Seq::empty();
    let mut costs: Vec<i32> = Vec::new();
    let mut primary: Option<(usize, usize, i32)> = None;
    let mut r: usize = 0;
    while r < routes.len()
        invariant
            rs == rv(routes@),
            dmv == ch.distance_matrix@,
            ch.wf(),
            forall|i: int| 0 <= i < routes@.len() ==> ch.route_ok(#[trigger] routes@[i]@) && routes@[i]@.len() < usize::MAX,
            route_demand@.len() == routes@.len(),
            forall|i: int| 0 <= i < route_demand@.len() ==> #[trigger] route_demand@[i] <= i32::MAX - VALUE_LIMIT,
            (c as int) < ch.num_nodes,
            r <= routes@.len(),
            costs@.len() <= r,
            primary is None <==> costs@.len() == 0,
            forall|q: int| 0 <= q < costs@.len() ==> -100_000 <= #[trigger] costs@[q] <= 200_000,
            forall|q: int| 0 <= q < costs@.len() ==> exists|r2: int, p2: int| #[trigger] tw_insert_ok(*ch, rs, route_demand@, c, r2, p2)
                && #[trigger] costs@[q] == ins_cost(dmv, rs[r2], p2, c),
            primary matches Some(b) ==> b.0 < r && tw_insert_ok(*ch, rs, route_demand@, c, b.0 as int, b.1 as int)
                && b.2 == ins_cost(dmv, rs[b.0 as int], b.1 as int, c)
                && (forall|r2: int, p2: int| r2 < r && #[trigger] tw_insert_ok(*ch, rs, route_demand@, c, r2, p2) ==> b.2 <= ins_cost(dmv, rs[r2], p2, c))
                && (forall|r2: int, p2: int| (r2 < b.0 || r2 == b.0 && p2 < b.1) && #[trigger] tw_insert_ok(*ch, rs, route_demand@, c, r2, p2) ==> b.2 < ins_cost(dmv, rs[r2], p2, c)),
            primary is None ==> forall|r2: int, p2: int| r2 < r ==> !#[trigger] tw_insert_ok(*ch, rs, route_demand@, c, r2, p2),
            idx.len() == costs@.len(),
            forall|a: int, b: int| 0 <= a < b < idx.len() ==> #[trigger] idx[a] < #[trigger] idx[b],
            forall|j: int| 0 <= j < idx.len() ==> 0 <= #[trigger] idx[j] < r && route_min_cost(*ch, rs, route_demand@, c, idx[j], costs@[j] as int),
            forall|r2: int| 0 <= r2 < r && #[trigger] route_has_option(*ch, rs, route_demand@, c, r2) ==> exists|j: int| 0 <= j < idx.len() && #[trigger] idx[j] == r2,
        decreases routes.len() - r,
    {
        match route_best_pos(routes, route_demand, r, ch, c) {
            Some((pos, cost)) => {
                let ghost idx0 = idx;
                proof {
                    idx = idx.push(r as int);
                    assert(tw_insert_ok(*ch, rs, route_demand@, c, r as int, pos as int));
                    assert(route_min_cost(*ch, rs, route_demand@, c, r as int, cost as int));
                }
                costs.push(cost);
                proof {
                    assert forall|j: int| 0 <= j < idx.len() implies 0 <= #[trigger] idx[j] < r + 1 && route_min_cost(*ch, rs, route_demand@, c, idx[j], costs@[j] as int) by {
                        if j < idx0.len() {
                            assert(idx[j] == idx0[j]);
                        }
                    }
                    assert forall|r2: int| 0 <= r2 < r + 1 && #[trigger] route_has_option(*ch, rs, route_demand@, c, r2) implies exists|j: int| 0 <= j < idx.len() && #[trigger] idx[j] == r2 by {
                        if r2 < r {
                            let j = choose|j: int| 0 <= j < idx0.len() && #[trigger] idx0[j] == r2;
                            assert(idx[j] == r2);
                        } else {
                            assert(idx[idx.len() - 1] == r2);
                        }
                    }
                }
                let better = match primary {
                    None => true,
                    Some(b) => cost < b.2,
                };
                if better {
                    primary = Some((r, pos, cost));
                }
                proof {
                    assert forall|q: int| 0 <= q < costs@.len() implies exists|r2: int, p2: int| #[trigger] tw_insert_ok(*ch, rs, route_demand@, c, r2, p2)
                        && #[trigger] costs@[q] == ins_cost(dmv, rs[r2], p2, c) by {
                        if q == costs@.len() - 1 {
                            assert(tw_insert_ok(*ch, rs, route_demand@, c, r as int, pos as int));
                        }
                    }
                }
            },
            None => {
                proof {
                    assert forall|r2: int| 0 <= r2 < r + 1 && #[trigger] route_has_option(*ch, rs, route_demand@, c, r2) implies exists|j: int| 0 <= j < idx.len() && #[trigger] idx[j] == r2 by {
                        if r2 == r {
                            let p = choose|p: int| #[trigger] tw_insert_ok(*ch, rs, route_demand@, c, r2, p);
                            assert(!tw_insert_ok(*ch, rs, route_demand@, c, r as int, p));
                        }
                    }
                }
            },
        }
        r += 1;
    }
    proof {
        assert(option_routes(*ch, rs, route_demand@, c, costs@, idx));
    }
    match primary {
        Some(b) => (costs, Some((b.0, b.1))),
        None => (costs, None),
    }
}

/// `swap_remove` keeps all entries but the removed one.
pub proof fn lemma_swap_remove_multiset(s: Seq<usize>, i: int)
    requires
        0 <= i < s.len(),
    ensures
        s.update(i, s.last()).drop_last().to_multiset().insert(s[i]) == s.to_multiset(),
        s.update(i, s.last()).drop_last().len() == s.len() - 1,
        forall|k: int| 0 <= k < s.len() - 1 ==> s.contains(#[trigger] s.update(i, s.last()).drop_last()[k]),
{
    broadcast use vstd::multiset::group_multiset_axioms;
    let u = s.update(i, s.last());
    assert(u.drop_last().push(u.last()) =~= u);
    vstd::seq_lib::to_multiset_build(u.drop_last(), u.last());
    vstd::seq_lib::to_multiset_update(s, i, s.last());
    vstd::seq_lib::to_multiset_contains(s, s[i]);
    assert(s.contains(s[i]));
    assert(u.last() == s.last());
    assert forall|x: usize| #[trigger] u.drop_last().to_multiset().insert(s[i]).count(x) == s.to_multiset().count(x) by {
        assert(u.to_multiset().count(x) == u.drop_last().to_multiset().insert(u.last()).count(x));
        assert(u.to_multiset().count(x) == s.to_multiset().insert(s.last()).remove(s[i]).count(x));
    }
    assert(u.drop_last().to_multiset().insert(s[i]) =~= s.to_multiset());
    assert forall|k: int| 0 <= k < s.len() - 1 implies s.contains(#[trigger] u.drop_last()[k]) by {
        if k == i {
            assert(s[s.len() - 1] == u.drop_last()[k]);
        } else {
            assert(s[k] == u.drop_last()[k]);
        }
    }
}

/// Some time-feasible insertion of `c` exists in a route that has room for it.
pub open spec fn has_option(ch: Challenge, rs: Seq<Seq<usize>>, rd: Seq<i32>, c: usize) -> bool {
    exists|r2: int, p2: int| #[trigger] tw_insert_ok(ch, rs, rd, c, r2, p2)
}

/// `(sr, pos)` is the first cheapest time-feasible insertion of `c`, by route then
/// position, over the routes with room for it.
pub open spec fn first_cheapest(ch: Challenge, rs: Seq<Seq<usize>>, rd: Seq<i32>, c: usize, sr: int, pos: int) -> bool {
    &&& tw_insert_ok(ch, rs, rd, c, sr, pos)
    &&& forall|r2: int, p2: int| #[trigger] tw_insert_ok(ch, rs, rd, c, r2, p2)
        ==> ins_cost(ch.distance_matrix@, rs[sr], pos, c) <= ins_cost(ch.distance_matrix@, rs[r2], p2, c)
    &&& forall|r2: int, p2: int| (r2 < sr || r2 == sr && p2 < pos) && #[trigger] tw_insert_ok(ch, rs, rd, c, r2, p2)
        ==> ins_cost(ch.distance_matrix@, rs[sr], pos, c) < ins_cost(ch.distance_matrix@, rs[r2], p2, c)
}

/// Route `r` has room for `c` by its recorded demand and a time-feasible slot.
pub open spec fn route_has_option(ch: Challenge, rs: Seq<Seq<usize>>, rd: Seq<i32>, c: usize, r: int) -> bool {
    exists|p: int| #[trigger] tw_insert_ok(ch, rs, rd, c, r, p)
}

/// `v` is the cost of the cheapest time-feasible insertion of `c` into route `r`.
pub open spec fn route_min_cost(ch: Challenge, rs: Seq<Seq<usize>>, rd: Seq<i32>, c: usize, r: int, v: int) -> bool {
    &&& exists|p: int| #[trigger] tw_insert_ok(ch, rs, rd, c, r, p) && ins_cost(ch.distance_matrix@, rs[r], p, c) == v
    &&& forall|p: int| #[trigger] tw_insert_ok(ch, rs, rd, c, r, p) ==> v <= ins_cost(ch.distance_matrix@, rs[r], p, c)
}

/// `idx` lists, in increasing order, exactly the routes with an option for `c`,
/// and `costs[j]` is the cheapest insertion cost of `c` into route `idx[j]`.
pub open spec fn option_routes(ch: Challenge, rs: Seq<Seq<usize>>, rd: Seq<i32>, c: usize, costs: Seq<i32>, idx: Seq<int>) -> bool {
    &&& idx.len() == costs.len()
    &&& forall|a: int, b: int| 0 <= a < b < idx.len() ==> #[trigger] idx[a] < #[trigger] idx[b]
    &&& forall|j: int| 0 <= j < idx.len() ==> 0 <= #[trigger] idx[j] < rs.len() && route_min_cost(ch, rs, rd, c, idx[j], costs[j] as int)
    &&& forall|r: int| 0 <= r < rs.len() && #[trigger] route_has_option(ch, rs, rd, c, r) ==> exists|j: int| 0 <= j < idx.len() && #[trigger] idx[j] == r
}

/// `costs` are the cheapest insertion costs of `c` into the routes with an
/// option for it, one per such route, in route order.
pub open spec fn option_costs(ch: Challenge, rs: Seq<Seq<usize>>, rd: Seq<i32>, c: usize, costs: Seq<i32>) -> bool {
    exists|idx: Seq<int>| #[trigger] option_routes(ch, rs, rd, c, costs, idx)
}

/// `s` holds the costs `costs`, sorted increasingly, and is not empty.
pub open spec fn sorted_of(s: Seq<i32>, costs: Seq<i32>) -> bool {
    &&& s.to_multiset() == costs.to_multiset()
    &&& s.len() == costs.len()
    &&& s.len() > 0
    &&& forall|a: int, b: int| 0 <= a < b < s.len() ==> #[trigger] s[a] <= #[trigger] s[b]
}

/// `g` is the regret-k value of `c` and `c0` its cheapest insertion cost: the
/// regret-k value and the first of its per-route cheapest costs, sorted.
pub open spec fn regret_is(ch: Challenge, rs: Seq<Seq<usize>>, rd: Seq<i32>, c: usize, k: int, g: int, c0: int) -> bool {
    exists|costs: Seq<i32>, s: Seq<i32>| #![trigger option_costs(ch, rs, rd, c, costs), sorted_of(s, costs)]
        option_costs(ch, rs, rd, c, costs) && sorted_of(s, costs) && g == regret_k(s, k) && c0 == s[0]
}

/// `gs[q]` and `cs[q]` are the regret-k value and the cheapest insertion cost of
/// every pending customer `p[q]` that has an option.
pub open spec fn regret_table(ch: Challenge, rs: Seq<Seq<usize>>, rd: Seq<i32>, p: Seq<usize>, k: int, gs: Seq<int>, cs: Seq<int>) -> bool {
    &&& gs.len() == p.len()
    &&& cs.len() == p.len()
    &&& forall|q: int| 0 <= q < p.len() && #[trigger] has_option(ch, rs, rd, p[q]) ==> regret_is(ch, rs, rd, p[q], k, gs[q], cs[q])
}

/// By the table `gs`, `cs`, pending customer `idx` has the largest regret among
/// those with an option, the cheaper insertion on equal regret, and comes first
/// on a full tie.
pub open spec fn regret_top(ch: Challenge, rs: Seq<Seq<usize>>, rd: Seq<i32>, p: Seq<usize>, gs: Seq<int>, cs: Seq<int>, idx: int) -> bool {
    &&& forall|q: int| 0 <= q < p.len() && #[trigger] has_option(ch, rs, rd, p[q])
        ==> gs[q] < gs[idx] || (gs[q] == gs[idx] && cs[q] >= cs[idx])
    &&& forall|q: int| 0 <= q < idx && #[trigger] has_option(ch, rs, rd, p[q])
        ==> gs[q] < gs[idx] || (gs[q] == gs[idx] && cs[q] > cs[idx])
}

/// Pending customer `idx` is the regret-k choice: the largest regret-k value,
/// then the cheapest insertion, then the first index.
pub open spec fn regret_best(ch: Challenge, rs: Seq<Seq<usize>>, rd: Seq<i32>, p: Seq<usize>, k: int, idx: int) -> bool {
    exists|gs: Seq<int>, cs: Seq<int>| #[trigger] regret_table(ch, rs, rd, p, k, gs, cs) && regret_top(ch, rs, rd, p, gs, cs, idx)
}

/// The regret-k choice among the pending customers: the customer with the largest
/// regret (ties to the cheaper insertion, then to the first), placed at its first
/// cheapest insertion; when no pending customer fits anywhere, the first pending
/// customer, to be placed in a route of its own.
pub fn regret_k_pick(routes: &Vec<Vec<usize>>, route_demand: &Vec<i32>, ch: &Challenge, pending: &Vec<usize>, k: usize)
    -> (res: Option<(usize, Option<(usize, usize)>)>)
    requires
        ch.wf(),
        forall|i: int| 0 <= i < routes@.len() ==> ch.route_ok(#[trigger] routes@[i]@) && routes@[i]@.len() < usize::MAX,
        route_demand@.len() == routes@.len(),
        routes@.len() <= LEN_LIMIT,
        forall|i: int| 0 <= i < route_demand@.len() ==> #[trigger] route_demand@[i] <= i32::MAX - VALUE_LIMIT,
        forall|q: int| 0 <= q < pending@.len() ==> 0 < #[trigger] pending@[q] < ch.num_nodes,
        k <= 1_000_000_000,
    ensures
        pending@.len() > 0 <==> res is Some,
        res matches Some((idx, Some((sr, pos)))) ==> (idx as int) < pending@.len()
            && first_cheapest(*ch, rv(routes@), route_demand@, pending@[idx as int], sr as int, pos as int)
            && regret_best(*ch, rv(routes@), route_demand@, pending@, k as int, idx as int),
        res matches Some((idx, None)) ==> (idx as int) < pending@.len()
            && forall|q: int| 0 <= q < pending@.len() ==> !#[trigger] has_option(*ch, rv(routes@), route_demand@, pending@[q]),
{
    let ghost rs = rv(routes@);
    let ghost mut gs: Seq<int> = Seq::empty();
    let ghost mut cs: Seq<int> = Seq::empty();
    let mut best: Option<(usize, usize, usize)> = None;
    let mut best_regret: i64 = i64::MIN;
    let mut best_primary: i32 = i32::MAX;
    let mut forced: Option<usize> = None;
    let mut i: usize = 0;
    while i < pending.len()
        invariant
            rs == rv(routes@),
            ch.wf(),
            forall|j: int| 0 <= j < routes@.len() ==> ch.route_ok(#[trigger] routes@[j]@) && routes@[j]@.len() < usize::MAX,
            route_demand@.len() == routes@.len(),
            routes@.len() <= LEN_LIMIT,
            forall|j: int| 0 <= j < route_demand@.len() ==> #[trigger] route_demand@[j] <= i32::MAX - VALUE_LIMIT,
            forall|q: int| 0 <= q < pending@.len() ==> 0 < #[trigger] pending@[q] < ch.num_nodes,
            k <= 1_000_000_000,
            i <= pending@.len(),
            best matches Some(b) ==> (b.0 as int) < i && first_cheapest(*ch, rs, route_demand@, pending@[b.0 as int], b.1 as int, b.2 as int),
            best is None ==> forall|q: int| 0 <= q < i ==> !#[trigger] has_option(*ch, rs, route_demand@, pending@[q]),
            forced matches Some(f) ==> (f as int) < i,
            i > 0 && best is None ==> forced is Some,
            best is None ==> best_regret == i64::MIN,
            gs.len() == i,
            cs.len() == i,
            forall|q: int| 0 <= q < i && #[trigger] has_option(*ch, rs, route_demand@, pending@[q])
                ==> regret_is(*ch, rs, route_demand@, pending@[q], k as int, gs[q], cs[q]),
            best matches Some(b) ==> gs[b.0 as int] == best_regret && cs[b.0 as int] == best_primary
                && (forall|q: int| 0 <= q < i && #[trigger] has_option(*ch, rs, route_demand@, pending@[q])
                    ==> gs[q] < best_regret || (gs[q] == best_regret && cs[q] >= best_primary))
                && (forall|q: int| 0 <= q < b.0 && #[trigger] has_option(*ch, rs, route_demand@, pending@[q])
                    ==> gs[q] < best_regret || (gs[q] == best_regret && cs[q] > best_primary)),
        decreases pending.len() - i,
    {
        let c = pending[i];
        let ghost gs0 = gs;
        let ghost cs0 = cs;
        let (costs, primary) = customer_options(routes, route_demand, ch, c);
        if costs.len() == 0 {
            proof {
                assert(!has_option(*ch, rs, route_demand@, c)) by {
                    if has_option(*ch, rs, route_demand@, c) {
                        let (r2, p2) = choose|r2: int, p2: int| #[trigger] tw_insert_ok(*ch, rs, route_demand@, c, r2, p2);
                        assert(tw_insert_ok(*ch, rs, route_demand@, c, r2, p2));
                    }
                }
            }
            if forced.is_none() {
                forced = Some(i);
            }
            proof {
                gs = gs0.push(0);
                cs = cs0.push(0);
                assert forall|q: int| 0 <= q < i + 1 && #[trigger] has_option(*ch, rs, route_demand@, pending@[q])
                    implies regret_is(*ch, rs, route_demand@, pending@[q], k as int, gs[q], cs[q]) by {
                    assert(gs[q] == gs0[q] && cs[q] == cs0[q]);
                }
            }
        } else {
            let (regret, c0) = regret_k_value(&costs, k);
            proof {
                let sv = choose|sv: Seq<i32>| #[trigger] sorted_of(sv, costs@) && regret == regret_k(sv, k as int) && c0 == sv[0];
                assert(option_costs(*ch, rs, route_demand@, c, costs@) && sorted_of(sv, costs@));
                assert(regret_is(*ch, rs, route_demand@, c, k as int, regret as int, c0 as int));
                gs = gs0.push(regret as int);
                cs = cs0.push(c0 as int);
                let (r2, p2) = choose|r2: int, p2: int| #[trigger] tw_insert_ok(*ch, rs, route_demand@, c, r2, p2)
                    && ins_cost(ch.distance_matrix@, rs[r2], p2, c) == costs@[0];
                assert(has_option(*ch, rs, route_demand@, c));
                assert forall|q: int| 0 <= q < i + 1 && #[trigger] has_option(*ch, rs, route_demand@, pending@[q])
                    implies regret_is(*ch, rs, route_demand@, pending@[q], k as int, gs[q], cs[q]) by {
                    if q < i {
                        assert(gs[q] == gs0[q] && cs[q] == cs0[q]);
                    }
                }
            }
            let pick = regret > best_regret || (regret == best_regret && c0 < best_primary);
            if pick {
                best_regret = regret;
                best_primary = c0;
                match primary {
                    Some((r, pos)) => {
                        best = Some((i, r, pos));
                    },
                    None => {},
                }
            }
            proof {
                match best {
                    Some(b) => {
                        assert forall|q: int| 0 <= q < i + 1 && #[trigger] has_option(*ch, rs, route_demand@, pending@[q])
                            implies gs[q] < best_regret || (gs[q] == best_regret && cs[q] >= best_primary) by {
                            if q < i {
                                assert(gs[q] == gs0[q] && cs[q] == cs0[q]);
                            }
                        }
                        assert forall|q: int| 0 <= q < b.0 && #[trigger] has_option(*ch, rs, route_demand@, pending@[q])
                            implies gs[q] < best_regret || (gs[q] == best_regret && cs[q] > best_primary) by {
                            assert(gs[q] == gs0[q] && cs[q] == cs0[q]);
                        }
                    },
                    None => {},
                }
            }
        }
        i += 1;
    }
    proof {
        match best {
            Some(b) => {
                assert(regret_table(*ch, rs, route_demand@, pending@, k as int, gs, cs));
                assert(regret_top(*ch, rs, route_demand@, pending@, gs, cs, b.0 as int));
            },
            None => {},
        }
    }
    match best {
        Some(b) => Some((b.0, Some((b.1, b.2)))),
        None => match forced {
            Some(f) => Some((f, None)),
            None => None,
        },
    }
}

/// The rule of one regret-k repair step, from routes `r0` (recorded demands
/// `d0`) with customers `p0` pending to routes `r1` with `p1` pending: one
/// pending customer leaves; the regret-k choice goes to its first cheapest
/// time-feasible slot, or, only when no pending customer has one, a pending
/// customer goes to a route of its own.
pub open spec fn regret_step_law(ch: Challenge, k: int, r0: Seq<Seq<usize>>, d0: Seq<i32>, p0: Seq<usize>, r1: Seq<Seq<usize>>, p1: Seq<usize>) -> bool {
    &&& p1.len() == p0.len() - 1
    &&& r1.len() == r0.len() ==> exists|q: int, sr: int, pos: int|
        #![trigger first_cheapest(ch, r0, d0, p0[q], sr, pos)]
        0 <= q < p0.len() && first_cheapest(ch, r0, d0, p0[q], sr, pos) && r1 == r0.update(sr, r0[sr].insert(pos, p0[q]))
            && regret_best(ch, r0, d0, p0, k, q)
    &&& r1.len() != r0.len() ==> (forall|q: int| 0 <= q < p0.len() ==> !#[trigger] has_option(ch, r0, d0, p0[q]))
        && exists|q: int| 0 <= q < p0.len() && r1 == r0.push(single_route(#[trigger] p0[q]))
}

/// Step `i` of the run `tr` of (routes, recorded demands, pending customers)
/// follows the regret-k rule.
pub open spec fn regret_link(ch: Challenge, k: int, tr: Seq<(Seq<Seq<usize>>, Seq<i32>, Seq<usize>)>, i: int) -> bool {
    regret_step_law(ch, k, tr[i].0, tr[i].1, tr[i].2, tr[i + 1].0, tr[i + 1].2)
}

/// The regret-k repair from routes `r0` (demands `d0`) with `p0` pending ends in
/// routes `r_end`: there is a run of states from the first to the last with
/// nothing pending, each step by the regret-k rule.
pub open spec fn regret_run(ch: Challenge, k: int, r0: Seq<Seq<usize>>, d0: Seq<i32>, p0: Seq<usize>, r_end: Seq<Seq<usize>>) -> bool {
    exists|tr: Seq<(Seq<Seq<usize>>, Seq<i32>, Seq<usize>)>| #[trigger] regret_trace(ch, k, tr, r0, d0, p0, r_end)
}

/// `tr` is such a run.
pub open spec fn regret_trace(ch: Challenge, k: int, tr: Seq<(Seq<Seq<usize>>, Seq<i32>, Seq<usize>)>, r0: Seq<Seq<usize>>, d0: Seq<i32>, p0: Seq<usize>, r_end: Seq<Seq<usize>>) -> bool {
    &&& tr.len() >= 1
    &&& tr[0] == (r0, d0, p0)
    &&& tr.last().0 == r_end
    &&& tr.last().2.len() == 0
    &&& forall|i: int| 0 <= i < tr.len() - 1 ==> #[trigger] regret_link(ch, k, tr, i)
}

/// One placement of the regret-k repair: the customer chosen by `regret_k_pick`
/// leaves `pending` and goes to its first cheapest time-feasible insertion, or,
/// only when no pending customer fits anywhere, to a route of its own. The
/// recorded demands follow the loads.
pub fn regret_k_step(routes: &mut Vec<Vec<usize>>, route_demand: &mut Vec<i32>, ch: &Challenge, pending: &mut Vec<usize>, k: usize)
    requires
        ch.wf(),
        old(pending)@.len() > 0,
        forall|i: int| 0 <= i < old(routes)@.len() ==> ch.route_ok(#[trigger] old(routes)@[i]@) && old(routes)@[i]@.len() < usize::MAX,
        old(route_demand)@.len() == old(routes)@.len(),
        old(routes)@.len() < LEN_LIMIT,
        forall|i: int| 0 <= i < old(route_demand)@.len() ==> #[trigger] old(route_demand)@[i] <= i32::MAX - VALUE_LIMIT,
        forall|q: int| 0 <= q < old(pending)@.len() ==> 0 < #[trigger] old(pending)@[q] < ch.num_nodes,
        k <= 1_000_000_000,
    ensures
        final(pending)@.len() == old(pending)@.len() - 1,
        forall|q: int| 0 <= q < final(pending)@.len() ==> old(pending)@.contains(#[trigger] final(pending)@[q]),
        all_custs(rv(final(routes)@)).add(final(pending)@.to_multiset()) == all_custs(rv(old(routes)@)).add(old(pending)@.to_multiset()),
        final(route_demand)@.len() == final(routes)@.len(),
        forall|i: int| 0 <= i < final(routes)@.len() ==> ch.route_ok(#[trigger] final(routes)@[i]@),
        forall|i: int| 0 <= i < final(route_demand)@.len() ==> #[trigger] final(route_demand)@[i] <= i32::MAX - VALUE_LIMIT,
        forall|i: int| 0 <= i < old(routes)@.len() ==> #[trigger] final(route_demand)@[i] - old(route_demand)@[i] == ch.load_of(final(routes)@[i]@) - ch.load_of(old(routes)@[i]@),
        forall|i: int| 0 <= i < old(routes)@.len() ==> #[trigger] final(routes)@[i]@ == old(routes)@[i]@ || (
            final(routes)@[i]@.len() == old(routes)@[i]@.len() + 1
            && final(route_demand)@[i] <= ch.max_capacity
            && time_feasible(
                ch.distance_matrix@,
                ch.service_time as int,
                ch.ready_times@,
                ch.due_times@,
                final(routes)@[i]@,
            )),
        final(routes)@.len() == old(routes)@.len() ==> exists|q: int, sr: int, pos: int|
            #![trigger first_cheapest(*ch, rv(old(routes)@), old(route_demand)@, old(pending)@[q], sr, pos)]
            0 <= q < old(pending)@.len()
            && first_cheapest(*ch, rv(old(routes)@), old(route_demand)@, old(pending)@[q], sr, pos)
            && final(routes)@[sr]@ == old(routes)@[sr]@.insert(pos, old(pending)@[q])
            && regret_best(*ch, rv(old(routes)@), old(route_demand)@, old(pending)@, k as int, q),
        final(routes)@.len() != old(routes)@.len() ==> final(routes)@.len() == old(routes)@.len() + 1
            && (forall|q: int| 0 <= q < old(pending)@.len() ==> !#[trigger] has_option(*ch, rv(old(routes)@), old(route_demand)@, old(pending)@[q]))
            && old(pending)@.contains(final(routes)@.last()@[1])
            && final(routes)@.last()@ == single_route(final(routes)@.last()@[1])
            && final(route_demand)@.last() == ch.load_of(final(routes)@.last()@),
        regret_step_law(*ch, k as int, rv(old(routes)@), old(route_demand)@, old(pending)@, rv(final(routes)@), final(pending)@),
        forall|i: int| 0 <= i < old(routes)@.len() ==> embeds(#[trigger] old(routes)@[i]@, final(routes)@[i]@),
{
    let ghost rs = rv(routes@);
    let ghost pv = pending@;
    let ghost ov = routes@;
    let ghost od = route_demand@;
    let pick = regret_k_pick(routes, route_demand, ch, pending, k);
    match pick {
        Some((idx, Some((sr, pos)))) => {
            let c = pending.swap_remove(idx);
            proof {
                lemma_swap_remove_multiset(pv, idx as int);
                assert(in_limit(ch.demands@[c as int]));
            }
            let mut r = copy_route(&routes[sr]);
            assert(rs[sr as int] == routes@[sr as int]@);
            r.insert(pos, c);
            proof {
                lemma_all_custs_update(rs, sr as int, r@);
                lemma_custs_insert(rs[sr as int], pos as int, c);
                lemma_load_insert(*ch, rs[sr as int], pos as int, c);
                assert(cust1(c) =~= Multiset::singleton(c));
                assert forall|x: int| 0 <= x < r@.len() implies (#[trigger] r@[x] as int) < ch.num_nodes by {
                    if x < pos {
                        assert(r@[x] == rs[sr as int][x]);
                    } else if x > pos {
                        assert(r@[x] == rs[sr as int][x - 1]);
                    }
                }
            }
            routes.set(sr, r);
            let d = route_demand[sr] + ch.demands[c];
            route_demand.set(sr, d);
            proof {
                assert(rv(routes@) =~= rs.update(sr as int, r@));
                assert(all_custs(rv(routes@)).add(pending@.to_multiset()) =~= all_custs(rs).add(pv.to_multiset())) by {
                    broadcast use vstd::multiset::group_multiset_axioms;
                    assert forall|x: usize| all_custs(rv(routes@)).add(pending@.to_multiset()).count(x) == all_custs(rs).add(pv.to_multiset()).count(x) by {
                        assert(all_custs(rv(routes@)).add(custs(rs[sr as int])).count(x) == all_custs(rs).add(custs(r@)).count(x));
                    }
                }
                assert forall|i: int| 0 <= i < ov.len() implies #[trigger] routes@[i]@ == ov[i]@ || (
                    routes@[i]@.len() == ov[i]@.len() + 1
                    && route_demand@[i] <= ch.max_capacity
                    && time_feasible(
                        ch.distance_matrix@,
                        ch.service_time as int,
                        ch.ready_times@,
                        ch.due_times@,
                        routes@[i]@,
                    )) by {
                    if i != sr {
                        assert(routes@[i] == ov[i]);
                    }
                }
                assert forall|q: int| 0 <= q < pending@.len() implies pv.contains(#[trigger] pending@[q]) by {}
                assert(first_cheapest(*ch, rv(ov), od, pv[idx as int], sr as int, pos as int));
                assert(regret_best(*ch, rv(ov), od, pv, k as int, idx as int));
                assert(routes@[sr as int]@ == ov[sr as int]@.insert(pos as int, pv[idx as int]));
                assert(rv(routes@) == rs.update(sr as int, rs[sr as int].insert(pos as int, pv[idx as int])));
                assert forall|i: int| 0 <= i < ov.len() implies embeds(#[trigger] ov[i]@, routes@[i]@) by {
                    if i == sr as int {
                        lemma_embeds_refl(ov[i]@);
                        lemma_embeds_insert(ov[i]@, ov[i]@, pos as int, c);
                    } else {
                        assert(routes@[i] == ov[i]);
                        lemma_embeds_refl(ov[i]@);
                    }
                }
            }
        },
        Some((idx, None)) => {
            let c = pending.swap_remove(idx);
            proof {
                lemma_swap_remove_multiset(pv, idx as int);
                assert(in_limit(ch.demands@[c as int]));
            }
            routes.push(vec![0, c, 0]);
            route_demand.push(ch.demands[c]);
            proof {
                lemma_single_route(*ch, c);
                assert(rv(routes@) =~= rs.push(single_route(c)));
                assert(rv(routes@).drop_last() =~= rs);
                assert(all_custs(rv(routes@)).add(pending@.to_multiset()) =~= all_custs(rs).add(pv.to_multiset())) by {
                    broadcast use vstd::multiset::group_multiset_axioms;
                }
                assert(ch.route_ok(single_route(c)));
                assert forall|i: int| 0 <= i < ov.len() implies #[trigger] routes@[i]@ == ov[i]@ by {
                    assert(routes@[i] == ov[i]);
                }
                assert forall|q: int| 0 <= q < pending@.len() implies pv.contains(#[trigger] pending@[q]) by {}
                assert(routes@.last()@ =~= single_route(c));
                assert(pv[idx as int] == c);
                assert(pv.contains(c));
                assert(rv(routes@) == rs.push(single_route(pv[idx as int])));
                assert forall|i: int| 0 <= i < ov.len() implies embeds(#[trigger] ov[i]@, routes@[i]@) by {
                    assert(routes@[i] == ov[i]);
                    lemma_embeds_refl(ov[i]@);
                }
            }
        },
        None => {
            proof {
                assert(false);
            }
        },
    }
}

/// Regret-k repair: while customers are pending, places the regret-k choice (see
/// `regret_k_step`), keeping the recorded demands up to date.
pub fn repair_regret_k(routes: &mut Vec<Vec<usize>>, route_demand: &mut Vec<i32>, ch: &Challenge, pending: Vec<usize>, k: usize)
    requires
        ch.wf(),
        forall|i: int| 0 <= i < old(routes)@.len() ==> ch.route_ok(#[trigger] old(routes)@[i]@),
        forall|q: int| 0 <= q < pending@.len() ==> 0 < #[trigger] pending@[q] < ch.num_nodes,
        old(route_demand)@.len() == old(routes)@.len(),
        forall|i: int| 0 <= i < old(route_demand)@.len() ==> #[trigger] old(route_demand)@[i] <= i32::MAX - VALUE_LIMIT,
        old(routes)@.len() + pending@.len() <= LEN_LIMIT,
        forall|i: int| 0 <= i < old(routes)@.len() ==> (#[trigger] old(routes)@[i]@).len() + pending@.len() < usize::MAX,
        k <= 1_000_000_000,
    ensures
        all_custs(rv(final(routes)@)) == all_custs(rv(old(routes)@)).add(pending@.to_multiset()),
        final(routes)@.len() >= old(routes)@.len(),
        final(route_demand)@.len() == final(routes)@.len(),
        forall|i: int| 0 <= i < final(routes)@.len() ==> ch.route_ok(#[trigger] final(routes)@[i]@),
        forall|i: int| 0 <= i < old(routes)@.len() ==> #[trigger] final(routes)@[i]@ == old(routes)@[i]@ || time_feasible(
            ch.distance_matrix@,
            ch.service_time as int,
            ch.ready_times@,
            ch.due_times@,
            final(routes)@[i]@,
        ),
        forall|i: int| 0 <= i < old(routes)@.len() ==> #[trigger] final(route_demand)@[i] - old(route_demand)@[i] == ch.load_of(final(routes)@[i]@) - ch.load_of(old(routes)@[i]@),
        forall|i: int| old(routes)@.len() <= i < final(routes)@.len() ==> #[trigger] final(route_demand)@[i] == ch.load_of(final(routes)@[i]@),
        forall|i: int| old(routes)@.len() <= i < final(routes)@.len() ==> time_feasible(
            ch.distance_matrix@,
            ch.service_time as int,
            ch.ready_times@,
            ch.due_times@,
            #[trigger] final(routes)@[i]@,
        ) || final(routes)@[i]@.len() == 3,
        forall|i: int| 0 <= i < old(routes)@.len() ==> #[trigger] final(routes)@[i]@ == old(routes)@[i]@ || final(route_demand)@[i] <= ch.max_capacity,
        forall|i: int| old(routes)@.len() <= i < final(routes)@.len() ==> (#[trigger] final(routes)@[i]@).len() == 3 || final(route_demand)@[i] <= ch.max_capacity,
        forall|i: int| 0 <= i < old(routes)@.len() ==> embeds(#[trigger] old(routes)@[i]@, final(routes)@[i]@),
        regret_run(*ch, k as int, rv(old(routes)@), old(route_demand)@, pending@, rv(final(routes)@)),
{
    let ghost orig = rv(routes@);
    let ghost od = route_demand@;
    let ghost ov = routes@;
    let ghost p0 = pending@;
    let mut pending = pending;
    let ghost mut tr: Seq<(Seq<Seq<usize>>, Seq<i32>, Seq<usize>)> = seq![(rv(routes@), route_demand@, pending@)];
    proof {
        assert forall|i: int| 0 <= i < ov.len() implies embeds(#[trigger] ov[i]@, routes@[i]@) by {
            lemma_embeds_refl(ov[i]@);
        }
    }
    proof {
        assert(all_custs(rv(routes@)).add(pending@.to_multiset()) =~= all_custs(orig).add(p0.to_multiset()));
    }
    while pending.len() > 0
        invariant
            ch.wf(),
            orig == rv(ov),
            ov == old(routes)@,
            od == old(route_demand)@,
            p0.len() + ov.len() <= LEN_LIMIT,
            pending@.len() <= p0.len(),
            forall|q: int| 0 <= q < pending@.len() ==> 0 < #[trigger] pending@[q] < ch.num_nodes,
            k <= 1_000_000_000,
            forall|i: int| 0 <= i < ov.len() ==> (#[trigger] ov[i]@).len() + p0.len() < usize::MAX,
            routes@.len() >= ov.len(),
            routes@.len() + pending@.len() <= ov.len() + p0.len(),
            route_demand@.len() == routes@.len(),
            all_custs(rv(routes@)).add(pending@.to_multiset()) == all_custs(orig).add(p0.to_multiset()),
            forall|i: int| 0 <= i < routes@.len() ==> ch.route_ok(#[trigger] routes@[i]@),
            forall|i: int| 0 <= i < ov.len() ==> (#[trigger] routes@[i]@).len() + pending@.len() <= ov[i]@.len() + p0.len(),
            forall|i: int| ov.len() <= i < routes@.len() ==> (#[trigger] routes@[i]@).len() + pending@.len() <= 3 + p0.len(),
            forall|i: int| 0 <= i < route_demand@.len() ==> #[trigger] route_demand@[i] <= i32::MAX - VALUE_LIMIT,
            forall|i: int| 0 <= i < ov.len() ==> #[trigger] routes@[i]@ == ov[i]@ || time_feasible(
                ch.distance_matrix@,
                ch.service_time as int,
                ch.ready_times@,
                ch.due_times@,
                routes@[i]@,
            ),
            forall|i: int| 0 <= i < ov.len() ==> #[trigger] route_demand@[i] - od[i] == ch.load_of(routes@[i]@) - ch.load_of(ov[i]@),
            forall|i: int| ov.len() <= i < routes@.len() ==> #[trigger] route_demand@[i] == ch.load_of(routes@[i]@),
            forall|i: int| ov.len() <= i < routes@.len() ==> time_feasible(
                ch.distance_matrix@,
                ch.service_time as int,
                ch.ready_times@,
                ch.due_times@,
                #[trigger] routes@[i]@,
            ) || routes@[i]@.len() == 3,
            forall|i: int| 0 <= i < ov.len() ==> #[trigger] routes@[i]@ == ov[i]@ || route_demand@[i] <= ch.max_capacity,
            forall|i: int| 0 <= i < ov.len() ==> embeds(#[trigger] ov[i]@, routes@[i]@),
            tr.len() >= 1,
            tr[0] == (orig, od, p0),
            tr.last() == (rv(routes@), route_demand@, pending@),
            forall|i: int| 0 <= i < tr.len() - 1 ==> #[trigger] regret_link(*ch, k as int, tr, i),
            forall|i: int| ov.len() <= i < routes@.len() ==> (#[trigger] routes@[i]@).len() == 3 || route_demand@[i] <= ch.max_capacity,
        decreases pending.len(),
    {
        let ghost pv = pending@;
        proof {
            assert forall|i: int| 0 <= i < routes@.len() implies ch.route_ok(#[trigger] routes@[i]@) && routes@[i]@.len() < usize::MAX by {
                if i < ov.len() {
                    assert(routes@[i]@.len() + pending@.len() <= ov[i]@.len() + p0.len());
                }
            }
        }
        let ghost pre = routes@;
        let ghost pre_d = route_demand@;
        regret_k_step(routes, route_demand, ch, &mut pending, k);
        proof {
            let tr0 = tr;
            tr = tr.push((rv(routes@), route_demand@, pending@));
            assert forall|i: int| 0 <= i < tr.len() - 1 implies #[trigger] regret_link(*ch, k as int, tr, i) by {
                if i < tr0.len() - 1 {
                    assert(regret_link(*ch, k as int, tr0, i));
                    assert(tr[i] == tr0[i] && tr[i + 1] == tr0[i + 1]);
                } else {
                    assert(tr[i] == (rv(pre), pre_d, pv));
                }
            }
            assert forall|i: int| 0 <= i < ov.len() implies embeds(#[trigger] ov[i]@, routes@[i]@) by {
                lemma_embeds_trans(ov[i]@, pre[i]@, routes@[i]@);
            }
            assert forall|q: int| 0 <= q < pending@.len() implies 0 < #[trigger] pending@[q] < ch.num_nodes by {
                assert(pv.contains(pending@[q]));
            }
            assert forall|i: int| 0 <= i < routes@.len() && i != pre.len() implies #[trigger] routes@[i]@ == pre[i]@ || (
                routes@[i]@.len() == pre[i]@.len() + 1
                && route_demand@[i] <= ch.max_capacity
                && time_feasible(
                    ch.distance_matrix@,
                    ch.service_time as int,
                    ch.ready_times@,
                    ch.due_times@,
                    routes@[i]@,
                )) by {
                assert(i < pre.len());
            }
            assert forall|i: int| 0 <= i < ov.len() implies #[trigger] route_demand@[i] - od[i] == ch.load_of(routes@[i]@) - ch.load_of(ov[i]@) by {
                assert(route_demand@[i] - pre_d[i] == ch.load_of(routes@[i]@) - ch.load_of(pre[i]@));
            }
            assert forall|i: int| ov.len() <= i < routes@.len() implies #[trigger] route_demand@[i] == ch.load_of(routes@[i]@) by {
                if i < pre.len() {
                    assert(route_demand@[i] - pre_d[i] == ch.load_of(routes@[i]@) - ch.load_of(pre[i]@));
                }
            }
            assert forall|i: int| ov.len() <= i < routes@.len() implies time_feasible(
                ch.distance_matrix@,
                ch.service_time as int,
                ch.ready_times@,
                ch.due_times@,
                #[trigger] routes@[i]@,
            ) || routes@[i]@.len() == 3 by {
                if i < pre.len() {
                    assert(routes@[i]@ == pre[i]@ || time_feasible(
                        ch.distance_matrix@,
                        ch.service_time as int,
                        ch.ready_times@,
                        ch.due_times@,
                        routes@[i]@,
                    ));
                } else {
                    assert(routes@[i]@ == routes@.last()@);
                }
            }
            assert forall|i: int| ov.len() <= i < routes@.len() implies (#[trigger] routes@[i]@).len() == 3 || route_demand@[i] <= ch.max_capacity by {
                if i >= pre.len() {
                    assert(routes@[i]@ == routes@.last()@);
                }
            }
            assert forall|i: int| ov.len() <= i < routes@.len() implies (#[trigger] routes@[i]@).len() + pending@.len() <= 3 + p0.len() by {
                if i >= pre.len() {
                    assert(routes@[i]@ == routes@.last()@);
                }
            }
        }
    }
    proof {
        assert(tr[0] == (rv(old(routes)@), old(route_demand)@, p0));
        assert(regret_trace(*ch, k as int, tr, rv(old(routes)@), old(route_demand)@, p0, rv(routes@)));
        assert(pending@.to_multiset() =~= Multiset::<usize>::empty()) by {
            vstd::seq_lib::to_multiset_len(pending@);
            vstd::multiset::lemma_multiset_empty_len(pending@.to_multiset());
        }
        assert(all_custs(rv(routes@)) =~= all_custs(rv(routes@)).add(pending@.to_multiset())) by {
            broadcast use vstd::multiset::group_multiset_axioms;
        }
    }
}

/// `p` lists the customers that `placed` leaves unplaced, in increasing order.
pub open spec fn unplaced_list(placed: Seq<bool>, p: Seq<usize>) -> bool {
    &&& forall|q: int| 0 <= q < p.len() ==> 0 < #[trigger] p[q] < placed.len() && !placed[p[q] as int]
    &&& forall|u: int| 0 < u < placed.len() && !placed[u] ==> exists|q: int| 0 <= q < p.len() && #[trigger] p[q] == u
    &&& forall|a: int, b: int| 0 <= a < b < p.len() ==> #[trigger] p[a] < #[trigger] p[b]
}

/// The customers not yet placed, in increasing order.
fn unplaced(placed: &Vec<bool>) -> (res: Vec<usize>)
    ensures
        unplaced_list(placed@, res@),
        forall|q: int| 0 <= q < res@.len() ==> 0 < #[trigger] res@[q] < placed@.len() && !placed@[res@[q] as int],
        forall|u: int| 0 < u < placed@.len() && !placed@[u] ==> exists|q: int| 0 <= q < res@.len() && #[trigger] res@[q] == u,
        forall|a: int, b: int| 0 <= a < b < res@.len() ==> #[trigger] res@[a] < #[trigger] res@[b],
        res@.len() <= placed@.len(),
{
    let mut out: Vec<usize> = Vec::new();
    let mut u: usize = 1;
    while u < placed.len()
        invariant
            1 <= u,
            placed@.len() == 0 || u <= placed@.len(),
            out@.len() < u,
            out@.len() <= placed@.len(),
            forall|q: int| 0 <= q < out@.len() ==> 0 < #[trigger] out@[q] < u && out@[q] < placed@.len() && !placed@[out@[q] as int],
            forall|w: int| 0 < w < u && w < placed@.len() && !placed@[w] ==> exists|q: int| 0 <= q < out@.len() && #[trigger] out@[q] == w,
            forall|a: int, b: int| 0 <= a < b < out@.len() ==> #[trigger] out@[a] < #[trigger] out@[b],
        decreases placed.len() - u,
    {
        if !placed[u] {
            let ghost before = out@;
            out.push(u);
            proof {
                assert forall|w: int| 0 < w < u + 1 && w < placed@.len() && !placed@[w] implies exists|q: int| 0 <= q < out@.len() && #[trigger] out@[q] == w by {
                    if w == u {
                        assert(out@[out@.len() - 1] == w);
                    } else {
                        let q = choose|q: int| 0 <= q < before.len() && #[trigger] before[q] == w;
                        assert(out@[q] == w);
                    }
                }
            }
        }
        u += 1;
    }
    out
}

/// The unplaced customer farthest from the depot, the last one on ties.
fn farthest_unplaced(ch: &Challenge, placed: &Vec<bool>) -> (res: Option<usize>)
    requires
        ch.wf(),
        placed@.len() == ch.num_nodes,
    ensures
        res matches Some(s) ==> 0 < s < ch.num_nodes && !placed@[s as int]
            && (forall|u: int| 0 < u < ch.num_nodes && !placed@[u] ==> #[trigger] ch.d(0, u as usize) <= ch.d(0, s))
            && (forall|u: int| s < u < ch.num_nodes && !placed@[u] ==> #[trigger] ch.d(0, u as usize) < ch.d(0, s)),
        res is None ==> forall|u: int| 0 < u < ch.num_nodes ==> #[trigger] placed@[u],
{
    let mut best: Option<usize> = None;
    let mut u: usize = 1;
    while u < placed.len()
        invariant
            ch.wf(),
            placed@.len() == ch.num_nodes,
            1 <= u <= ch.num_nodes,
            best matches Some(s) ==> 0 < s < u && !placed@[s as int]
                && (forall|w: int| 0 < w < u && !placed@[w] ==> #[trigger] ch.d(0, w as usize) <= ch.d(0, s))
                && (forall|w: int| s < w < u && !placed@[w] ==> #[trigger] ch.d(0, w as usize) < ch.d(0, s)),
            best is None ==> forall|w: int| 0 < w < u ==> #[trigger] placed@[w],
        decreases placed.len() - u,
    {
        if !placed[u] {
            match best {
                None => {
                    best = Some(u);
                },
                Some(s) => {
                    if ch.distance_matrix[0][u] >= ch.distance_matrix[0][s] {
                        best = Some(u);
                    }
                },
            }
        }
        u += 1;
    }
    best
}

/// With only the depot flagged, every customer is unflagged.
proof fn lemma_count_false_depot(s: Seq<bool>)
    requires
        s.len() >= 1,
        s[0],
        forall|k: int| 1 <= k < s.len() ==> !#[trigger] s[k],
    ensures
        count_false(s) == s.len() - 1,
    decreases s.len(),
{
    if s.len() > 1 {
        assert forall|k: int| 1 <= k < s.drop_last().len() implies !#[trigger] s.drop_last()[k] by {
            assert(!s[k]);
        }
        assert(s.drop_last()[0] == s[0]);
        lemma_count_false_depot(s.drop_last());
        assert(!s[s.len() - 1]);
    } else {
        assert(s.drop_last().len() == 0);
        assert(s.last() == s[0]);
        assert(count_false(s.drop_last()) == 0);
    }
}

/// A route that serves one customer, or that meets its time windows and the
/// capacity.
pub open spec fn built_ok(ch: Challenge, r: Seq<usize>) -> bool {
    r.len() == 3 || time_feasible(ch.distance_matrix@, ch.service_time as int, ch.ready_times@, ch.due_times@, r)
        && ch.load_of(r) <= ch.max_capacity
}

/// A state of the regret-k construction: routes, recorded demands, placed flags.
pub type ConsStep = (Seq<Seq<usize>>, Seq<i32>, Seq<bool>);

/// The rule of one round of the regret-k construction, from `a` to `b`: the
/// regret-k choice among the unplaced customers, taken in increasing order, goes
/// to its first cheapest time-feasible slot, or, only when no unplaced customer
/// has one, a new route is opened.
pub open spec fn cons_step_law(ch: Challenge, k: int, a: ConsStep, b: ConsStep) -> bool {
    &&& b.0.len() == a.0.len() ==> exists|u: int, sr: int, pos: int|
        #![trigger first_cheapest(ch, a.0, a.1, u as usize, sr, pos)]
        0 < u < ch.num_nodes && !a.2[u] && first_cheapest(ch, a.0, a.1, u as usize, sr, pos)
            && b.0 == a.0.update(sr, a.0[sr].insert(pos, u as usize))
            && exists|p: Seq<usize>, q: int| #[trigger] regret_best(ch, a.0, a.1, p, k, q)
                && unplaced_list(a.2, p) && 0 <= q < p.len() && p[q] == u as usize
    &&& b.0.len() != a.0.len() ==> b.0.len() == a.0.len() + 1
        && forall|u: int| 0 < u < ch.num_nodes && !a.2[u] ==> !#[trigger] has_option(ch, a.0, a.1, u as usize)
}

/// Round `i` of the run `tr` follows the rule.
pub open spec fn cons_link(ch: Challenge, k: int, tr: Seq<ConsStep>, i: int) -> bool {
    cons_step_law(ch, k, tr[i], tr[i + 1])
}

/// `tr` is a run of the construction from one route serving a single customer
/// to the routes `r_end`, every round by the rule.
pub open spec fn cons_trace(ch: Challenge, k: int, tr: Seq<ConsStep>, r_end: Seq<Seq<usize>>) -> bool {
    &&& tr.len() >= 1
    &&& tr[0].0.len() == 1
    &&& tr[0].0[0] == single_route(tr[0].0[0][1])
    &&& tr.last().0 == r_end
    &&& forall|i: int| 0 <= i < tr.len() - 1 ==> #[trigger] cons_link(ch, k, tr, i)
}

/// The state the regret-k construction keeps between rounds: every placed
/// customer sits in exactly one route, and every route is proper, built
/// feasibly and has its load recorded.
pub open spec fn cons_state(ch: Challenge, routes: Seq<Vec<usize>>, route_demand: Seq<i32>, placed: Seq<bool>) -> bool {
    let n = ch.num_nodes;
    &&& placed.len() == n
    &&& placed[0]
    &&& all_custs(rv(routes)) == flagged(placed)
    &&& routes.len() <= n
    &&& route_demand.len() == routes.len()
    &&& forall|i: int| 0 <= i < routes.len() ==> ch.route_ok(#[trigger] routes[i]@) && proper(routes[i]@)
        && routes[i]@.len() <= n + 2 && built_ok(ch, routes[i]@) && route_demand[i] == ch.load_of(routes[i]@)
        && route_demand[i] <= VALUE_LIMIT
    &&& routes.len() + count_false(placed) <= n
    &&& forall|i: int| 0 <= i < routes.len() ==> (#[trigger] routes[i]@).len() + count_false(placed) <= n + 2
}

/// One round of the regret-k construction: the regret-k choice among the
/// unplaced customers goes to its first cheapest time-feasible insertion; only
/// when no unplaced customer fits anywhere is a new route seeded, with the
/// unplaced customer farthest from the depot. False, with nothing changed, once
/// every customer is placed.
pub fn regret_construction_step(routes: &mut Vec<Vec<usize>>, route_demand: &mut Vec<i32>, placed: &mut Vec<bool>, ch: &Challenge, k: usize) -> (progressed: bool)
    requires
        ch.wf(),
        2 <= ch.num_nodes <= LEN_LIMIT,
        k <= 1_000_000_000,
        cons_state(*ch, old(routes)@, old(route_demand)@, old(placed)@),
    ensures
        cons_state(*ch, final(routes)@, final(route_demand)@, final(placed)@),
        progressed ==> count_false(final(placed)@) < count_false(old(placed)@),
        !progressed ==> *final(routes) == *old(routes) && *final(route_demand) == *old(route_demand) && *final(placed) == *old(placed)
            && forall|j: int| 1 <= j < ch.num_nodes ==> #[trigger] final(placed)@[j],
        progressed && final(routes)@.len() == old(routes)@.len() ==> exists|u: int, sr: int, pos: int|
            #![trigger first_cheapest(*ch, rv(old(routes)@), old(route_demand)@, u as usize, sr, pos)]
            0 < u < ch.num_nodes && !old(placed)@[u]
            && first_cheapest(*ch, rv(old(routes)@), old(route_demand)@, u as usize, sr, pos)
            && final(routes)@[sr]@ == old(routes)@[sr]@.insert(pos, u as usize),
        progressed && final(routes)@.len() != old(routes)@.len() ==> final(routes)@.len() == old(routes)@.len() + 1
            && forall|u: int| 0 < u < ch.num_nodes && !old(placed)@[u] ==> !#[trigger] has_option(*ch, rv(old(routes)@), old(route_demand)@, u as usize),
        progressed ==> cons_step_law(*ch, k as int, (rv(old(routes)@), old(route_demand)@, old(placed)@), (rv(final(routes)@), final(route_demand)@, final(placed)@)),
{
    broadcast use vstd::multiset::group_multiset_axioms;
    let n = ch.num_nodes;
    let ghost rs = rv(routes@);
    let ghost orr = routes@;
    let ghost od = route_demand@;
    let ghost op = placed@;
    let pending = unplaced(&placed);
    proof {
        assert forall|i: int| 0 <= i < routes@.len() implies ch.route_ok(#[trigger] routes@[i]@) && routes@[i]@.len() < usize::MAX by {
        }
        assert forall|i: int| 0 <= i < route_demand@.len() implies #[trigger] route_demand@[i] <= i32::MAX - VALUE_LIMIT by {
            assert(ch.route_ok(routes@[i]@));
        }
        assert forall|q: int| 0 <= q < pending@.len() implies 0 < #[trigger] pending@[q] < ch.num_nodes by {
        }
    }
    let pick = regret_k_pick(&routes, &route_demand, ch, &pending, k);
    let mut inserted = false;
    match pick {
        Some((idx, Some((sr, pos)))) => {
            let u = pending[idx];
            proof {
                assert(in_limit(ch.demands@[u as int]));
                lemma_flagged_flip(placed@, u as int);
                lemma_count_false_flip(placed@, u as int);
            }
            let mut r = copy_route(&routes[sr]);
            assert(rs[sr as int] == routes@[sr as int]@);
            r.insert(pos, u);
            proof {
                lemma_all_custs_update(rs, sr as int, r@);
                lemma_custs_insert(rs[sr as int], pos as int, u);
                lemma_load_insert(*ch, rs[sr as int], pos as int, u);
                lemma_insert_proper(rs[sr as int], pos as int, u);
                assert(cust1(u) =~= Multiset::singleton(u));
                assert forall|x: int| 0 <= x < r@.len() implies (#[trigger] r@[x] as int) < ch.num_nodes by {
                    if x < pos {
                        assert(r@[x] == rs[sr as int][x]);
                    } else if x > pos {
                        assert(r@[x] == rs[sr as int][x - 1]);
                    }
                }
            }
            let ghost prev = routes@;
            routes.set(sr, r);
            let d = route_demand[sr] + ch.demands[u];
            route_demand.set(sr, d);
            placed.set(u, true);
            inserted = true;
            proof {
                assert(rv(routes@) =~= rs.update(sr as int, r@));
                assert(all_custs(rv(routes@)) =~= flagged(placed@)) by {
                    assert forall|x: usize| all_custs(rv(routes@)).count(x) == flagged(placed@).count(x) by {
                        assert(all_custs(rv(routes@)).add(custs(rs[sr as int])).count(x) == all_custs(rs).add(custs(r@)).count(x));
                    }
                }
                assert forall|i: int| 0 <= i < routes@.len() implies ch.route_ok(#[trigger] routes@[i]@) && proper(routes@[i]@)
                    && routes@[i]@.len() <= n + 2 && built_ok(*ch, routes@[i]@) && route_demand@[i] == ch.load_of(routes@[i]@)
                    && route_demand@[i] <= VALUE_LIMIT by {
                    if i != sr {
                        assert(routes@[i] == prev[i]);
                    }
                }
                assert forall|i: int| 0 <= i < routes@.len() implies (#[trigger] routes@[i]@).len() + count_false(placed@) <= n + 2 by {
                    if i != sr {
                        assert(routes@[i] == prev[i]);
                    }
                }
                assert(first_cheapest(*ch, rs, od, u, sr as int, pos as int));
                assert(routes@[sr as int]@ == orr[sr as int]@.insert(pos as int, u));
                assert(!op[u as int]);
                let ghost st: ConsStep = (rs, od, op);
                assert(rv(routes@) == st.0.update(sr as int, st.0[sr as int].insert(pos as int, u)));
                assert(first_cheapest(*ch, st.0, st.1, (u as int) as usize, sr as int, pos as int));
                assert(regret_best(*ch, st.0, st.1, pending@, k as int, idx as int) && unplaced_list(op, pending@));
                assert(cons_step_law(*ch, k as int, st, (rv(routes@), route_demand@, placed@)));
            }
        },
        _ => {},
    }
    if !inserted {
        proof {
            assert forall|u: int| 0 < u < n && !placed@[u] implies !#[trigger] has_option(*ch, rs, route_demand@, u as usize) by {
                let q = choose|q: int| 0 <= q < pending@.len() && #[trigger] pending@[q] == u;
                assert(!has_option(*ch, rs, route_demand@, pending@[q]));
            }
        }
        match farthest_unplaced(ch, &placed) {
            Some(s) => {
                proof {
                    lemma_flagged_flip(placed@, s as int);
                    lemma_count_false_flip(placed@, s as int);
                    lemma_single_route(*ch, s);
                    assert(in_limit(ch.demands@[s as int]));
                }
                let ghost prev = routes@;
                routes.push(vec![0, s, 0]);
                route_demand.push(ch.demands[s]);
                placed.set(s, true);
                proof {
                    assert(rv(routes@) =~= rs.push(single_route(s)));
                    assert(rv(routes@).drop_last() =~= rs);
                    assert(all_custs(rv(routes@)) =~= flagged(placed@));
                    assert(ch.route_ok(single_route(s)));
                    assert forall|i: int| 0 <= i < routes@.len() implies ch.route_ok(#[trigger] routes@[i]@) && proper(routes@[i]@)
                        && routes@[i]@.len() <= n + 2 && built_ok(*ch, routes@[i]@) && route_demand@[i] == ch.load_of(routes@[i]@)
                        && route_demand@[i] <= VALUE_LIMIT by {
                        if i < prev.len() {
                            assert(routes@[i] == prev[i]);
                        }
                    }
                    assert forall|i: int| 0 <= i < routes@.len() implies (#[trigger] routes@[i]@).len() + count_false(placed@) <= n + 2 by {
                        if i < prev.len() {
                            assert(routes@[i] == prev[i]);
                        }
                    }
                    let ghost st: ConsStep = (rs, od, op);
                    assert(cons_step_law(*ch, k as int, st, (rv(routes@), route_demand@, placed@)));
                }
            },
            None => {
                return false;
            },
        }
    }
    true
}

/// Regret-k construction: seeds a route with the customer farthest from the
/// depot, then repeatedly places the regret-k choice among the unplaced
/// customers (see `regret_k_pick`) at its first cheapest time-feasible insertion,
/// or, when none fits anywhere, seeds a new route with the unplaced customer
/// farthest from the depot (the last one on ties). Every customer ends up in
/// exactly one route.
#[verifier::spinoff_prover]
pub fn regret_k_construction(ch: &Challenge, k: usize) -> (res: Option<Solution>)
    requires
        ch.wf(),
        ch.num_nodes <= LEN_LIMIT,
        k <= 1_000_000_000,
    ensures
        res is Some,
        res matches Some(sol) ==> {
            &&& forall|c: usize| #[trigger] all_custs(rv(sol.routes@)).count(c) == if 1 <= c < ch.num_nodes { 1nat } else { 0nat }
            &&& all_proper(rv(sol.routes@))
            &&& forall|i: int| 0 <= i < sol.routes@.len() ==> ch.route_ok(#[trigger] sol.routes@[i]@) && built_ok(*ch, sol.routes@[i]@)
            &&& ch.num_nodes < 2 ==> sol.routes@.len() == 0
            &&& ch.num_nodes >= 2 ==> exists|tr: Seq<ConsStep>| #[trigger] cons_trace(*ch, k as int, tr, rv(sol.routes@))
        },
{
    broadcast use vstd::multiset::group_multiset_axioms;
    let n = ch.num_nodes;
    if n < 2 {
        let sol = Solution { routes: Vec::new() };
        proof {
            assert(rv(sol.routes@) =~= Seq::<Seq<usize>>::empty());
        }
        return Some(sol);
    }
    let mut routes: Vec<Vec<usize>> = Vec::new();
    let mut route_demand: Vec<i32> = Vec::new();
    let mut placed = depot_flags(n);
    proof {
        lemma_count_false_depot(placed@);
        lemma_flagged_depot(placed@);
        assert(rv(routes@) =~= Seq::<Seq<usize>>::empty());
        assert(all_custs(rv(routes@)) =~= Multiset::<usize>::empty());
    }
    match farthest_unplaced(ch, &placed) {
        Some(seed) => {
            proof {
                lemma_flagged_flip(placed@, seed as int);
                lemma_count_false_flip(placed@, seed as int);
                lemma_single_route(*ch, seed);
                assert(in_limit(ch.demands@[seed as int]));
            }
            routes.push(vec![0, seed, 0]);
            route_demand.push(ch.demands[seed]);
            placed.set(seed, true);
            proof {
                assert(rv(routes@) =~= seq![single_route(seed)]);
                assert(rv(routes@).drop_last() =~= Seq::<Seq<usize>>::empty());
                assert(all_custs(rv(routes@)) =~= flagged(placed@));
            }
        },
        None => {
            assert(!placed@[1]);
        },
    }
    let ghost mut tr: Seq<ConsStep> = seq![(rv(routes@), route_demand@, placed@)];
    proof {
        assert(routes@.len() == 1);
        assert(rv(routes@)[0] == single_route(rv(routes@)[0][1]));
    }
    loop
        invariant
            ch.wf(),
            n == ch.num_nodes,
            2 <= n <= LEN_LIMIT,
            k <= 1_000_000_000,
            cons_state(*ch, routes@, route_demand@, placed@),
            tr.len() >= 1,
            tr[0].0.len() == 1,
            tr[0].0[0] == single_route(tr[0].0[0][1]),
            tr.last() == (rv(routes@), route_demand@, placed@),
            forall|i: int| 0 <= i < tr.len() - 1 ==> #[trigger] cons_link(*ch, k as int, tr, i),
        ensures
            forall|j: int| 1 <= j < n ==> #[trigger] placed@[j],
            cons_state(*ch, routes@, route_demand@, placed@),
            cons_trace(*ch, k as int, tr, rv(routes@)),
        decreases count_false(placed@),
    {
        let ghost pre: ConsStep = (rv(routes@), route_demand@, placed@);
        if !regret_construction_step(&mut routes, &mut route_demand, &mut placed, ch, k) {
            proof {
                assert(rv(routes@) == pre.0);
            }
            break;
        }
        proof {
            let tr0 = tr;
            tr = tr.push((rv(routes@), route_demand@, placed@));
            assert forall|i: int| 0 <= i < tr.len() - 1 implies #[trigger] cons_link(*ch, k as int, tr, i) by {
                if i < tr0.len() - 1 {
                    assert(cons_link(*ch, k as int, tr0, i));
                    assert(tr[i] == tr0[i] && tr[i + 1] == tr0[i + 1]);
                } else {
                    assert(tr[i] == pre);
                }
            }
        }
    }
    let mut i: usize = 1;
    while i < n
        invariant
            1 <= i <= n,
            placed@.len() == n,
            forall|j: int| 1 <= j < n ==> #[trigger] placed@[j],
        decreases n - i,
    {
        if !placed[i] {
            return None;
        }
        i += 1;
    }
    proof {
        lemma_flagged_all(placed@);
        assert(cons_trace(*ch, k as int, tr, rv(routes@)));
    }
    let sol = Solution { routes };
    assert(cons_trace(*ch, k as int, tr, rv(sol.routes@)));
    Some(sol)
}

} // verus!
