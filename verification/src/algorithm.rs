//! The adaptive large neighbourhood search solver: route evaluation, schedule
//! tables for constant-time move checks, destroy and repair operators,
//! simulated-annealing moves, construction and greedy local search.
use vstd::prelude::*;
use crate::schedule::{
    law_insertion_check_exact, law_removal_check_exact, lemma_meta_load_bound, RouteMeta,
};
use crate::model::{
    dd, dm_ok, in_limit, lemma_load_concat, lemma_load_first, lemma_load_nonneg, max, min,
    nodes_below, proper, route_len, rv, all_custs, custs, cust1, lemma_all_custs_update,
    lemma_all_custs_remove, lemma_custs_update, dists_ok, Challenge, LEN_LIMIT, ROUTE_LIMIT,
    VALUE_LIMIT,
};

verus! {

/// Whether `route` satisfies the time windows and the capacity.
pub fn is_feasible(route: &[usize], ch: &Challenge) -> (res: bool)
    requires
        ch.wf(),
        ch.route_ok(route@),
    ensures
        res == ch.feasible(route@),
{
    let mut time: i32 = 0;
    let mut load: i32 = 0;
    let mut i: usize = 1;
    while i < route.len()
        invariant
            1 <= i,
            route@.len() == 0 || i <= route@.len(),
            ch.wf(),
            ch.route_ok(route@),
            0 <= time <= 2 * VALUE_LIMIT,
            0 <= load <= VALUE_LIMIT,
            route@.len() >= 1 ==> ch.feasible(route@) == ch.walk(
                route@[i - 1],
                route@.subrange(i as int, route@.len() as int),
                time as int,
                load as int,
            ),
        decreases route.len() - i,
    {
        let prev = route[i - 1];
        let curr = route[i];
        let travel = ch.distance_matrix[prev][curr];
        let ghost rest = route@.subrange(i as int, route@.len() as int);
        assert(rest[0] == curr);
        assert(rest.drop_first() =~= route@.subrange(i + 1, route@.len() as int));
        if curr == 0 {
            return time + travel <= ch.due_times[0];
        }
        time += travel;
        if time > ch.due_times[curr] {
            return false;
        }
        if time < ch.ready_times[curr] {
            time = ch.ready_times[curr];
        }
        time += ch.service_time;
        load += ch.demands[curr];
        if load > ch.max_capacity {
            return false;
        }
        i += 1;
    }
    proof {
        if route@.len() >= 1 {
            assert(route@.subrange(i as int, route@.len() as int).len() == 0);
        }
    }
    true
}

proof fn lemma_route_len_prefix(dm: Seq<Vec<i32>>, r: Seq<usize>, i: int)
    requires
        1 <= i < r.len(),
    ensures
        route_len(dm, r.subrange(0, i + 1)) == route_len(dm, r.subrange(0, i)) + dd(dm, r[i - 1], r[i]),
{
    assert(r.subrange(0, i + 1).drop_last() =~= r.subrange(0, i));
}

/// Lengths of prefixes never exceed the length of the whole route.
pub proof fn lemma_route_len_prefix_bound(dm: Seq<Vec<i32>>, r: Seq<usize>, i: int)
    requires
        dm_ok(dm, dm.len() as int),
        nodes_below(r, dm.len() as int),
        0 <= i <= r.len(),
    ensures
        0 <= route_len(dm, r.subrange(0, i)) <= route_len(dm, r),
    decreases r.len(),
{
    if i == r.len() {
        assert(r.subrange(0, i) =~= r);
        lemma_route_len_nonneg(dm, r);
    } else {
        let r2 = r.drop_last();
        assert(r2.subrange(0, i) =~= r.subrange(0, i));
        lemma_route_len_prefix_bound(dm, r2, i);
        lemma_route_len_nonneg(dm, r2);
        if r.len() >= 2 {
            assert(in_limit(dm[r[r.len() - 2] as int]@[r[r.len() - 1] as int]));
        }
    }
}

pub proof fn lemma_route_len_nonneg(dm: Seq<Vec<i32>>, r: Seq<usize>)
    requires
        dm_ok(dm, dm.len() as int),
        nodes_below(r, dm.len() as int),
    ensures
        route_len(dm, r) >= 0,
    decreases r.len(),
{
    if r.len() >= 2 {
        lemma_route_len_nonneg(dm, r.drop_last());
        assert(in_limit(dm[r[r.len() - 2] as int]@[r[r.len() - 1] as int]));
    }
}

/// Total travel distance of a route.
pub fn route_dist(route: &[usize], dm: &[Vec<i32>]) -> (res: i32)
    requires
        dm_ok(dm@, dm@.len() as int),
        nodes_below(route@, dm@.len() as int),
        route_len(dm@, route@) <= i32::MAX,
    ensures
        res == route_len(dm@, route@),
{
    let mut sum: i32 = 0;
    let mut i: usize = 1;
    if route.len() == 0 {
        return 0;
    }
    proof {
        assert(route@.subrange(0, 1).drop_last().len() == 0);
    }
    while i < route.len()
        invariant
            1 <= i <= route@.len(),
            dm_ok(dm@, dm@.len() as int),
            nodes_below(route@, dm@.len() as int),
            route_len(dm@, route@) <= i32::MAX,
            sum == route_len(dm@, route@.subrange(0, i as int)),
        decreases route.len() - i,
    {
        proof {
            lemma_route_len_prefix(dm@, route@, i as int);
            lemma_route_len_prefix_bound(dm@, route@, i + 1);
        }
        sum = sum + dm[route[i - 1]][route[i]];
        i += 1;
    }
    proof {
        assert(route@.subrange(0, i as int) =~= route@);
    }
    sum
}


/// A route's length is at most `VALUE_LIMIT` per edge.
pub proof fn lemma_route_len_upper(dm: Seq<Vec<i32>>, r: Seq<usize>)
    requires
        dm_ok(dm, dm.len() as int),
        nodes_below(r, dm.len() as int),
    ensures
        route_len(dm, r) <= VALUE_LIMIT * r.len(),
    decreases r.len(),
{
    if r.len() >= 2 {
        lemma_route_len_upper(dm, r.drop_last());
        assert(in_limit(dm[r[r.len() - 2] as int]@[r[r.len() - 1] as int]));
    }
}

/// One step of the linear congruential generator.
pub open spec fn lcg_next(state: u64) -> u64 {
    state.wrapping_mul(6364136223846793005).wrapping_add(1442695040888963407)
}

/// The index below `n` that the generator in state `s` draws next: the high
/// 31 bits of the next state, modulo `n`.
pub open spec fn lcg_pick(s: u64, n: int) -> int {
    ((lcg_next(s) >> 33u64) as int) % n
}

/// Advances the generator and returns the high 31 bits of the new state.
pub fn rand_lcg(state: &mut u64) -> (res: u64)
    ensures
        *final(state) == lcg_next(*old(state)),
        res == *final(state) >> 33,
        res < 0x8000_0000,
{
    *state = state.wrapping_mul(6364136223846793005).wrapping_add(1442695040888963407);
    let s = *state;
    assert(s >> 33 < 0x8000_0000) by (bit_vector);
    s >> 33
}

/// Total demand of the customers of `route`.
pub fn route_load(route: &[usize], ch: &Challenge) -> (res: i32)
    requires
        ch.wf(),
        ch.route_ok(route@),
        route@.len() <= LEN_LIMIT,
    ensures
        res == ch.load_of(route@),
        0 <= res <= VALUE_LIMIT * route@.len(),
{
    let mut sum: i32 = 0;
    let mut i: usize = 0;
    while i < route.len()
        invariant
            ch.wf(),
            ch.route_ok(route@),
            route@.len() <= LEN_LIMIT,
            i <= route@.len(),
            sum == ch.load_of(route@.subrange(0, i as int)),
            0 <= sum <= 100_000 * i,
        decreases route.len() - i,
    {
        assert(route@.subrange(0, i + 1).drop_last() =~= route@.subrange(0, i as int));
        assert(in_limit(ch.demands@[route@[i as int] as int]));
        if route[i] != 0 {
            sum += ch.demands[route[i]];
        }
        i += 1;
    }
    assert(route@.subrange(0, i as int) =~= route@);
    sum
}

/// A copy of a route.
pub fn copy_route(route: &[usize]) -> (res: Vec<usize>)
    ensures
        res@ == route@,
{
    let mut out: Vec<usize> = Vec::new();
    let mut i: usize = 0;
    while i < route.len()
        invariant
            i <= route@.len(),
            out@ == route@.subrange(0, i as int),
        decreases route.len() - i,
    {
        out.push(route[i]);
        i += 1;
        assert(out@ =~= route@.subrange(0, i as int));
    }
    assert(route@.subrange(0, i as int) =~= route@);
    out
}

/// The routes that still serve a customer, i.e. have more than two nodes.
pub open spec fn keep_nonempty(rs: Seq<Seq<usize>>) -> Seq<Seq<usize>>
    decreases rs.len(),
{
    if rs.len() == 0 {
        rs
    } else if rs.last().len() > 2 {
        keep_nonempty(rs.drop_last()).push(rs.last())
    } else {
        keep_nonempty(rs.drop_last())
    }
}

/// Two new routes proposed for two positions of the route list, with their
/// lengths; afterwards routes left without customers may be dropped.
pub struct RouteChange {
    pub r1: usize,
    pub route1: Vec<usize>,
    pub dist1: i32,
    pub r2: usize,
    pub route2: Vec<usize>,
    pub dist2: i32,
    pub drop_empty: bool,
}

impl RouteChange {
    /// The route list after the change.
    pub open spec fn result(&self, rs: Seq<Seq<usize>>) -> Seq<Seq<usize>> {
        let u = rs.update(self.r1 as int, self.route1@).update(self.r2 as int, self.route2@);
        if self.drop_empty { keep_nonempty(u) } else { u }
    }

    /// The distance table after the change.
    pub open spec fn result_dists(&self, rs: Seq<Seq<usize>>, ds: Seq<i32>) -> Seq<i32> {
        let u = ds.update(self.r1 as int, self.dist1).update(self.r2 as int, self.dist2);
        if self.drop_empty { keep_aligned(rs.update(self.r1 as int, self.route1@).update(self.r2 as int, self.route2@), u) } else { u }
    }
}

/// The entries of `ds` aligned with the routes that `keep_nonempty` keeps.
pub open spec fn keep_aligned(rs: Seq<Seq<usize>>, ds: Seq<i32>) -> Seq<i32>
    decreases rs.len(),
{
    if rs.len() == 0 || ds.len() == 0 {
        Seq::empty()
    } else if rs.last().len() > 2 {
        keep_aligned(rs.drop_last(), ds.drop_last()).push(ds.last())
    } else {
        keep_aligned(rs.drop_last(), ds.drop_last())
    }
}

/// Outcome of a simulated-annealing move: no move, a change of two routes with
/// its cost difference, or a complete new route list.
pub enum SaResult {
    Failed,
    Delta { delta_pen: i64, change: RouteChange },
    Full(Vec<Vec<usize>>),
}


/// Drops the routes without customers, together with their entries in `ds`.
pub fn drop_empty_aligned(rs: &mut Vec<Vec<usize>>, ds: &mut Vec<i32>)
    requires
        old(ds)@.len() == old(rs)@.len(),
    ensures
        rv(final(rs)@) == keep_nonempty(rv(old(rs)@)),
        final(ds)@ == keep_aligned(rv(old(rs)@), old(ds)@),
        final(ds)@.len() == final(rs)@.len(),
{
    let ghost u = rv(rs@);
    let ghost du = ds@;
    let ghost mut k: int = 0;
    let mut idx: usize = 0;
    proof {
        assert(u.subrange(0, 0) =~= Seq::<Seq<usize>>::empty());
        assert(rv(rs@).subrange(0, 0) =~= keep_nonempty(u.subrange(0, 0)));
        assert(ds@.subrange(0, 0) =~= keep_aligned(u.subrange(0, 0), du.subrange(0, 0)));
        assert(rv(rs@).subrange(0, rs@.len() as int) =~= u.subrange(0, u.len() as int));
    }
    while idx < rs.len()
        invariant
            u.len() == du.len(),
            0 <= k <= u.len(),
            idx <= rs@.len(),
            ds@.len() == rs@.len(),
            rs@.len() - idx == u.len() - k,
            rv(rs@).subrange(0, idx as int) == keep_nonempty(u.subrange(0, k)),
            ds@.subrange(0, idx as int) == keep_aligned(u.subrange(0, k), du.subrange(0, k)),
            rv(rs@).subrange(idx as int, rs@.len() as int) == u.subrange(k, u.len() as int),
            ds@.subrange(idx as int, ds@.len() as int) == du.subrange(k, du.len() as int),
        decreases rs.len() - idx,
    {
        let ghost prev_rs = rv(rs@);
        let ghost prev_ds = ds@;
        assert(prev_rs.subrange(idx as int, prev_rs.len() as int)[0] == u[k]);
        assert(u.subrange(0, k + 1).drop_last() =~= u.subrange(0, k));
        assert(du.subrange(0, k + 1).drop_last() =~= du.subrange(0, k));
        assert(u.subrange(0, k + 1).last() == u[k]);
        assert(du.subrange(0, k + 1).last() == du[k]);
        assert(prev_ds.subrange(idx as int, prev_ds.len() as int)[0] == du[k]);
        if rs[idx].len() <= 2 {
            rs.remove(idx);
            ds.remove(idx);
            proof {
                assert(rv(rs@).subrange(0, idx as int) =~= prev_rs.subrange(0, idx as int));
                assert(ds@.subrange(0, idx as int) =~= prev_ds.subrange(0, idx as int));
                assert forall|j: int| 0 <= j < rs@.len() - idx implies #[trigger] rv(rs@).subrange(idx as int, rs@.len() as int)[j]
                    == u.subrange(k + 1, u.len() as int)[j] by {
                    assert(rv(rs@)[idx + j] == prev_rs[idx + j + 1]);
                    assert(prev_rs.subrange(idx as int, prev_rs.len() as int)[j + 1] == u.subrange(k, u.len() as int)[j + 1]);
                }
                assert forall|j: int| 0 <= j < ds@.len() - idx implies #[trigger] ds@.subrange(idx as int, ds@.len() as int)[j]
                    == du.subrange(k + 1, du.len() as int)[j] by {
                    assert(ds@[idx + j] == prev_ds[idx + j + 1]);
                    assert(prev_ds.subrange(idx as int, prev_ds.len() as int)[j + 1] == du.subrange(k, du.len() as int)[j + 1]);
                }
                assert(rv(rs@).subrange(idx as int, rs@.len() as int) =~= u.subrange(k + 1, u.len() as int));
                assert(ds@.subrange(idx as int, ds@.len() as int) =~= du.subrange(k + 1, du.len() as int));
                k = k + 1;
            }
        } else {
            idx += 1;
            proof {
                assert(rv(rs@).subrange(0, idx as int) =~= prev_rs.subrange(0, idx - 1).push(u[k]));
                assert(ds@.subrange(0, idx as int) =~= prev_ds.subrange(0, idx - 1).push(du[k]));
                assert forall|j: int| 0 <= j < rs@.len() - idx implies #[trigger] rv(rs@).subrange(idx as int, rs@.len() as int)[j]
                    == u.subrange(k + 1, u.len() as int)[j] by {
                    assert(prev_rs.subrange(idx - 1, prev_rs.len() as int)[j + 1] == u.subrange(k, u.len() as int)[j + 1]);
                }
                assert forall|j: int| 0 <= j < ds@.len() - idx implies #[trigger] ds@.subrange(idx as int, ds@.len() as int)[j]
                    == du.subrange(k + 1, du.len() as int)[j] by {
                    assert(prev_ds.subrange(idx - 1, prev_ds.len() as int)[j + 1] == du.subrange(k, du.len() as int)[j + 1]);
                }
                assert(rv(rs@).subrange(idx as int, rs@.len() as int) =~= u.subrange(k + 1, u.len() as int));
                assert(ds@.subrange(idx as int, ds@.len() as int) =~= du.subrange(k + 1, du.len() as int));
                k = k + 1;
            }
        }
    }
    proof {
        assert(k == u.len());
        assert(u.subrange(0, k) =~= u);
        assert(du.subrange(0, k) =~= du);
        assert(rv(rs@).subrange(0, idx as int) =~= rv(rs@));
        assert(ds@.subrange(0, idx as int) =~= ds@);
    }
}

/// Applies a change to the route list and its distance table.
pub fn apply_change(rs: &mut Vec<Vec<usize>>, ds: &mut Vec<i32>, change: RouteChange)
    requires
        change.r1 < old(rs)@.len(),
        change.r2 < old(rs)@.len(),
        old(ds)@.len() == old(rs)@.len(),
    ensures
        rv(final(rs)@) == change.result(rv(old(rs)@)),
        final(ds)@ == change.result_dists(rv(old(rs)@), old(ds)@),
        final(ds)@.len() == final(rs)@.len(),
{
    let ghost old_rs = rv(rs@);
    let RouteChange { r1, route1, dist1, r2, route2, dist2, drop_empty } = change;
    let ghost v1 = route1@;
    let ghost v2 = route2@;
    rs.set(r1, route1);
    ds.set(r1, dist1);
    rs.set(r2, route2);
    ds.set(r2, dist2);
    assert(rv(rs@) =~= old_rs.update(r1 as int, v1).update(r2 as int, v2));
    if drop_empty {
        drop_empty_aligned(rs, ds);
    }
}


/// A uniformly drawn index below `n`.
pub fn rand_index(rng: &mut u64, n: usize) -> (res: usize)
    requires
        n > 0,
    ensures
        res < n,
        res == lcg_pick(*old(rng), n as int),
        *final(rng) == lcg_next(*old(rng)),
{
    let r = rand_lcg(rng);
    (r as usize) % n
}

/// The exchange move: the customers at inner positions of two different routes
/// trade places, both routes stay feasible, and `delta` is the change of total
/// length.
pub open spec fn exchange_move(ch: Challenge, rs: Seq<Seq<usize>>, rd: Seq<i32>, delta: i64, c: RouteChange) -> bool {
    let dm = ch.distance_matrix@;
    &&& !c.drop_empty
    &&& c.r1 != c.r2
    &&& c.r1 < rs.len()
    &&& c.r2 < rs.len()
    &&& exists|p1: int, p2: int|
        1 <= p1 < rs[c.r1 as int].len() - 1 && 1 <= p2 < rs[c.r2 as int].len() - 1
            && #[trigger] c.route1@ == rs[c.r1 as int].update(p1, rs[c.r2 as int][p2])
            && #[trigger] c.route2@ == rs[c.r2 as int].update(p2, rs[c.r1 as int][p1])
    &&& ch.feasible(c.route1@)
    &&& ch.feasible(c.route2@)
    &&& c.dist1 == route_len(dm, c.route1@)
    &&& c.dist2 == route_len(dm, c.route2@)
    &&& delta == c.dist1 + c.dist2 - rd[c.r1 as int] - rd[c.r2 as int]
}

/// Swapping two nodes between two routes keeps the customers of the route list.
pub proof fn lemma_swap_custs(rs: Seq<Seq<usize>>, r1: int, r2: int, p1: int, p2: int)
    requires
        0 <= r1 < rs.len(),
        0 <= r2 < rs.len(),
        r1 != r2,
        0 <= p1 < rs[r1].len(),
        0 <= p2 < rs[r2].len(),
    ensures
        all_custs(
            rs.update(r1, rs[r1].update(p1, rs[r2][p2])).update(r2, rs[r2].update(p2, rs[r1][p1])),
        ) == all_custs(rs),
{
    broadcast use vstd::multiset::group_multiset_axioms;
    let n1 = rs[r1].update(p1, rs[r2][p2]);
    let n2 = rs[r2].update(p2, rs[r1][p1]);
    let u1 = rs.update(r1, n1);
    lemma_all_custs_update(rs, r1, n1);
    lemma_all_custs_update(u1, r2, n2);
    lemma_custs_update(rs[r1], p1, rs[r2][p2]);
    lemma_custs_update(rs[r2], p2, rs[r1][p1]);
    assert(u1[r2] == rs[r2]);
    assert forall|x: usize| all_custs(u1.update(r2, n2)).count(x) == all_custs(rs).count(x) by {
        assert(all_custs(u1.update(r2, n2)).add(custs(rs[r2])).count(x) == all_custs(u1).add(custs(n2)).count(x));
        assert(all_custs(u1).add(custs(rs[r1])).count(x) == all_custs(rs).add(custs(n1)).count(x));
        assert(custs(n1).add(cust1(rs[r1][p1])).count(x) == custs(rs[r1]).add(cust1(rs[r2][p2])).count(x));
        assert(custs(n2).add(cust1(rs[r2][p2])).count(x) == custs(rs[r2]).add(cust1(rs[r1][p1])).count(x));
    }
    assert(all_custs(u1.update(r2, n2)) =~= all_custs(rs));
}

/// What the exchange proposal draws from generator state `s0` over routes `rs`
/// (two routes, then a place in each) and what comes of it: it fails when the
/// routes are equal or one has no customer (after two draws), or when a load
/// exceeds the capacity or a traded route is infeasible (after four draws);
/// otherwise it proposes the trade of those two places.
pub open spec fn exchange_drawn(ch: Challenge, rs: Seq<Seq<usize>>, s0: u64, s_end: u64, res: SaResult) -> bool {
    let n = rs.len() as int;
    let r1 = lcg_pick(s0, n);
    let s1 = lcg_next(s0);
    let r2 = lcg_pick(s1, n);
    let s2 = lcg_next(s1);
    if r1 == r2 || rs[r1].len() <= 2 || rs[r2].len() <= 2 {
        res is Failed && s_end == s2
    } else {
        let p1 = 1 + lcg_pick(s2, rs[r1].len() - 2);
        let s3 = lcg_next(s2);
        let p2 = 1 + lcg_pick(s3, rs[r2].len() - 2);
        let c1 = rs[r1][p1];
        let c2 = rs[r2][p2];
        let n1 = rs[r1].update(p1, c2);
        let n2 = rs[r2].update(p2, c1);
        &&& s_end == lcg_next(s3)
        &&& (res is Failed <==> !(ch.load_of(rs[r1]) - ch.demands@[c1 as int] + ch.demands@[c2 as int] <= ch.max_capacity
            && ch.load_of(rs[r2]) - ch.demands@[c2 as int] + ch.demands@[c1 as int] <= ch.max_capacity
            && ch.feasible(n1) && ch.feasible(n2)))
        &&& (res matches SaResult::Delta { change, .. } ==> change.r1 == r1 && change.r2 == r2
            && change.route1@ == n1 && change.route2@ == n2)
    }
}

/// Picks two routes and a customer in each at random and proposes to swap them.
pub fn try_exchange(routes: &[Vec<usize>], rd: &[i32], ch: &Challenge, rng: &mut u64, dm: &[Vec<i32>]) -> (res: SaResult)
    requires
        ch.wf(),
        dm@ == ch.distance_matrix@,
        dists_ok(*ch, rv(routes@), rd@),
    ensures
        match res {
            SaResult::Failed => true,
            SaResult::Delta { delta_pen, change } => exchange_move(*ch, rv(routes@), rd@, delta_pen, change)
                && all_custs(change.result(rv(routes@))) == all_custs(rv(routes@)),
            SaResult::Full(_) => false,
        },
        routes@.len() < 2 ==> res is Failed && *final(rng) == *old(rng),
        routes@.len() >= 2 ==> exchange_drawn(*ch, rv(routes@), *old(rng), *final(rng), res),
{
    let ghost rs = rv(routes@);
    if routes.len() < 2 {
        return SaResult::Failed;
    }
    let r1 = rand_index(rng, routes.len());
    let r2 = rand_index(rng, routes.len());
    assert(rs[r1 as int] == routes@[r1 as int]@);
    assert(rs[r2 as int] == routes@[r2 as int]@);
    if r1 == r2 || routes[r1].len() <= 2 || routes[r2].len() <= 2 {
        return SaResult::Failed;
    }
    let p1 = 1 + rand_index(rng, routes[r1].len() - 2);
    let p2 = 1 + rand_index(rng, routes[r2].len() - 2);
    let c1 = routes[r1][p1];
    let c2 = routes[r2][p2];
    proof {
        assert(dists_ok(*ch, rs, rd@));
        assert(ch.route_ok(rs[r1 as int]));
        assert(ch.route_ok(rs[r2 as int]));
        assert(in_limit(ch.demands@[c1 as int]));
        assert(in_limit(ch.demands@[c2 as int]));
    }
    let l1 = route_load(&routes[r1], ch) - ch.demands[c1] + ch.demands[c2];
    let l2 = route_load(&routes[r2], ch) - ch.demands[c2] + ch.demands[c1];
    if l1 > ch.max_capacity || l2 > ch.max_capacity {
        return SaResult::Failed;
    }
    let mut nr1 = copy_route(&routes[r1]);
    nr1.set(p1, c2);
    let mut nr2 = copy_route(&routes[r2]);
    nr2.set(p2, c1);
    proof {
        assert(ch.route_ok(nr1@));
        assert(ch.route_ok(nr2@));
    }
    if !is_feasible(&nr1, ch) || !is_feasible(&nr2, ch) {
        return SaResult::Failed;
    }
    proof {
        lemma_route_len_upper(dm@, nr1@);
        lemma_route_len_upper(dm@, nr2@);
        lemma_route_len_nonneg(dm@, nr1@);
        lemma_route_len_nonneg(dm@, nr2@);
        lemma_route_len_nonneg(dm@, rs[r1 as int]);
        lemma_route_len_nonneg(dm@, rs[r2 as int]);
        lemma_route_len_upper(dm@, rs[r1 as int]);
        lemma_route_len_upper(dm@, rs[r2 as int]);
    }
    let nd1 = route_dist(&nr1, dm);
    let nd2 = route_dist(&nr2, dm);
    let delta = (nd1 + nd2 - rd[r1] - rd[r2]) as i64;
    let change = RouteChange { r1, route1: nr1, dist1: nd1, r2, route2: nr2, dist2: nd2, drop_empty: false };
    proof {
        assert(change.route1@ == rs[r1 as int].update(p1 as int, rs[r2 as int][p2 as int]));
        assert(change.route2@ == rs[r2 as int].update(p2 as int, rs[r1 as int][p1 as int]));
        lemma_swap_custs(rs, r1 as int, r2 as int, p1 as int, p2 as int);
    }
    SaResult::Delta { delta_pen: delta, change }
}


/// Every route with at most two nodes serves no customer.
pub open spec fn short_routes_empty(rs: Seq<Seq<usize>>) -> bool {
    forall|i: int, k: int| 0 <= i < rs.len() && rs[i].len() <= 2 && 0 <= k < rs[i].len() ==> #[trigger] rs[i][k] == 0
}

/// Dropping routes without customers keeps the customers of the route list.
pub proof fn lemma_keep_nonempty_custs(rs: Seq<Seq<usize>>)
    requires
        short_routes_empty(rs),
    ensures
        all_custs(keep_nonempty(rs)) == all_custs(rs),
    decreases rs.len(),
{
    broadcast use vstd::multiset::group_multiset_axioms;
    if rs.len() > 0 {
        assert(short_routes_empty(rs.drop_last()));
        lemma_keep_nonempty_custs(rs.drop_last());
        if rs.last().len() <= 2 {
            crate::model::lemma_custs_depots(rs.last());
            assert(all_custs(rs) =~= all_custs(rs.drop_last()));
        } else {
            assert(keep_nonempty(rs).drop_last() == keep_nonempty(rs.drop_last()));
        }
    }
}

/// Every route of `rs` is in normal form.
pub open spec fn all_proper(rs: Seq<Seq<usize>>) -> bool {
    forall|i: int| 0 <= i < rs.len() ==> proper(#[trigger] rs[i])
}

/// Moving the node at `pos` of route `src` to position `ins` of route `dst` keeps
/// the customers of the route list.
pub proof fn lemma_move_custs(rs: Seq<Seq<usize>>, src: int, dst: int, pos: int, ins: int)
    requires
        0 <= src < rs.len(),
        0 <= dst < rs.len(),
        src != dst,
        0 <= pos < rs[src].len(),
        0 <= ins <= rs[dst].len(),
    ensures
        all_custs(
            rs.update(src, rs[src].remove(pos)).update(dst, rs[dst].insert(ins, rs[src][pos])),
        ) == all_custs(rs),
{
    broadcast use vstd::multiset::group_multiset_axioms;
    let n1 = rs[src].remove(pos);
    let n2 = rs[dst].insert(ins, rs[src][pos]);
    let u1 = rs.update(src, n1);
    lemma_all_custs_update(rs, src, n1);
    lemma_all_custs_update(u1, dst, n2);
    crate::model::lemma_custs_remove(rs[src], pos);
    crate::model::lemma_custs_insert(rs[dst], ins, rs[src][pos]);
    assert(u1[dst] == rs[dst]);
    assert forall|x: usize| all_custs(u1.update(dst, n2)).count(x) == all_custs(rs).count(x) by {
        assert(all_custs(u1.update(dst, n2)).add(custs(rs[dst])).count(x) == all_custs(u1).add(custs(n2)).count(x));
        assert(all_custs(u1).add(custs(rs[src])).count(x) == all_custs(rs).add(custs(n1)).count(x));
    }
    assert(all_custs(u1.update(dst, n2)) =~= all_custs(rs));
}

/// Cost of inserting `x` between positions `pos - 1` and `pos` of `r`.
pub open spec fn ins_cost(dm: Seq<Vec<i32>>, r: Seq<usize>, pos: int, x: usize) -> int {
    dd(dm, r[pos - 1], x) + dd(dm, x, r[pos]) - dd(dm, r[pos - 1], r[pos])
}

/// `bi` is the first position of `r` where inserting `x` is cheapest.
pub open spec fn cheapest_at(dm: Seq<Vec<i32>>, r: Seq<usize>, x: usize, bi: int) -> bool {
    &&& 1 <= bi < r.len()
    &&& forall|k: int| 1 <= k < r.len() ==> ins_cost(dm, r, bi, x) <= #[trigger] ins_cost(dm, r, k, x)
    &&& forall|k: int| 1 <= k < bi ==> ins_cost(dm, r, bi, x) < #[trigger] ins_cost(dm, r, k, x)
}

/// The first cheapest insertion position of `cust` in `route`, and its cost.
pub fn cheapest_insertion(route: &[usize], cust: usize, dm: &[Vec<i32>]) -> (res: (usize, i32))
    requires
        route@.len() >= 1,
        dm_ok(dm@, dm@.len() as int),
        nodes_below(route@, dm@.len() as int),
        (cust as int) < dm@.len(),
    ensures
        route@.len() >= 2 ==> cheapest_at(dm@, route@, cust, res.0 as int),
        route@.len() >= 2 ==> res.1 == ins_cost(dm@, route@, res.0 as int, cust),
        route@.len() == 1 ==> res.0 == 1,
{
    let mut bi: usize = 1;
    let mut bc: i32 = i32::MAX;
    let mut ins: usize = 1;
    if route.len() == 1 {
        return (bi, bc);
    }
    while ins < route.len()
        invariant
            1 <= ins <= route@.len(),
            route@.len() >= 2,
            dm_ok(dm@, dm@.len() as int),
            nodes_below(route@, dm@.len() as int),
            (cust as int) < dm@.len(),
            1 <= bi < route@.len(),
            ins == 1 ==> bc == i32::MAX,
            ins > 1 ==> bi < ins && bc == ins_cost(dm@, route@, bi as int, cust),
            forall|k: int| 1 <= k < ins ==> bc <= #[trigger] ins_cost(dm@, route@, k, cust),
            forall|k: int| 1 <= k < bi ==> bc < #[trigger] ins_cost(dm@, route@, k, cust),
        decreases route.len() - ins,
    {
        let a = route[ins - 1];
        let b = route[ins];
        proof {
            assert(in_limit(dm@[a as int]@[cust as int]));
            assert(in_limit(dm@[cust as int]@[b as int]));
            assert(in_limit(dm@[a as int]@[b as int]));
        }
        let c = dm[a][cust] + dm[cust][b] - dm[a][b];
        if c < bc {
            bc = c;
            bi = ins;
        }
        ins += 1;
    }
    (bi, bc)
}

/// The index below `n` other than `avoid` that `rand_index_except` draws from
/// generator state `s` with `fuel` spare draws, and the state after it.
#[verifier::opaque]
pub open spec fn except_draw(s: u64, n: int, avoid: int, fuel: nat) -> (int, u64)
    decreases fuel,
{
    let d = lcg_pick(s, n);
    let s1 = lcg_next(s);
    if d != avoid {
        (d, s1)
    } else if fuel == 0 {
        (if avoid + 1 < n { avoid + 1 } else { 0 }, s1)
    } else {
        except_draw(s1, n, avoid, (fuel - 1) as nat)
    }
}

/// A draw of an index below `n` other than `avoid`. Draws repeat until they
/// differ; the generator has full period, so the bound on the number of draws
/// is never reached in practice (past it, the next index is taken).
fn rand_index_except(rng: &mut u64, n: usize, avoid: usize) -> (res: usize)
    requires
        n >= 2,
        avoid < n,
    ensures
        res < n,
        res != avoid,
        (res as int, *final(rng)) == except_draw(*old(rng), n as int, avoid as int, u64::MAX as nat),
{
    let mut fuel: u64 = u64::MAX;
    loop
        invariant
            n >= 2,
            avoid < n,
            except_draw(*rng, n as int, avoid as int, fuel as nat) == except_draw(*old(rng), n as int, avoid as int, u64::MAX as nat),
        decreases fuel,
    {
        proof {
            reveal_with_fuel(except_draw, 2);
        }
        let d = rand_index(rng, n);
        if d != avoid {
            return d;
        }
        if fuel == 0 {
            return if avoid + 1 < n { avoid + 1 } else { 0 };
        }
        fuel -= 1;
    }
}

/// The relocate move: the customer at inner position `pos` of route `r1` moves to
/// its cheapest position in route `r2`; `delta` is the change of total length,
/// minus the fleet penalty when the source route empties while the fleet is
/// exceeded.
pub open spec fn relocate_move(
    ch: Challenge,
    rs: Seq<Seq<usize>>,
    rd: Seq<i32>,
    fleet: usize,
    fp: i64,
    delta: i64,
    c: RouteChange,
) -> bool {
    let dm = ch.distance_matrix@;
    &&& c.drop_empty
    &&& c.r1 != c.r2
    &&& c.r1 < rs.len()
    &&& c.r2 < rs.len()
    &&& exists|pos: int, bi: int|
        1 <= pos < rs[c.r1 as int].len() - 1 && (if rs[c.r2 as int].len() >= 2 {
            cheapest_at(dm, rs[c.r2 as int], rs[c.r1 as int][pos], bi)
        } else {
            bi == 1
        })
            && #[trigger] c.route1@ == rs[c.r1 as int].remove(pos)
            && #[trigger] c.route2@ == rs[c.r2 as int].insert(bi, rs[c.r1 as int][pos])
    &&& c.dist1 == (if rs[c.r1 as int].len() <= 3 { 0 } else { route_len(dm, c.route1@) })
    &&& c.dist2 == route_len(dm, c.route2@)
    &&& delta == c.dist1 + c.dist2 - rd[c.r1 as int] - rd[c.r2 as int] - (if rs[c.r1 as int].len() <= 3
        && rs.len() > fleet { fp } else { 0 })
}


proof fn lemma_relocate_result_custs(rs: Seq<Seq<usize>>, src: int, dst: int, pos: int, ins: int)
    requires
        all_proper(rs),
        0 <= src < rs.len(),
        0 <= dst < rs.len(),
        src != dst,
        1 <= pos < rs[src].len() - 1,
        1 <= ins < rs[dst].len(),
    ensures
        all_custs(keep_nonempty(rs.update(src, rs[src].remove(pos)).update(dst, rs[dst].insert(ins, rs[src][pos]))))
            == all_custs(rs),
{
    let u = rs.update(src, rs[src].remove(pos)).update(dst, rs[dst].insert(ins, rs[src][pos]));
    lemma_move_custs(rs, src, dst, pos, ins);
    assert forall|i: int, k: int| 0 <= i < u.len() && u[i].len() <= 2 && 0 <= k < u[i].len() implies #[trigger] u[i][k] == 0 by {
        assert(proper(rs[i]));
        if i == src {
            assert(proper(rs[src]));
            assert(u[i] == rs[src].remove(pos));
            assert(rs[src].len() == 3);
            assert(k == 0 ==> u[i][k] == rs[src][0]);
            assert(k == 1 ==> u[i][k] == rs[src][2]);
        }
    }
    lemma_keep_nonempty_custs(u);
}

/// What the constant-time checks of a relocation establish about the new routes.
proof fn lemma_relocate_checked_outcome(
    ch: Challenge,
    rs: Seq<Seq<usize>>,
    ms: RouteMeta,
    md: RouteMeta,
    src: int,
    dst: int,
    pos: int,
    bi: int,
)
    requires
        ch.wf(),
        0 <= src < rs.len(),
        0 <= dst < rs.len(),
        src != dst,
        ch.route_ok(rs[src]),
        ch.route_ok(rs[dst]),
        1 <= pos < rs[src].len() - 1,
        1 <= bi < rs[dst].len(),
        ms.describes(ch, rs[src]),
        md.describes(ch, rs[dst]),
        ms.removal_ok(rs[src], pos, ch.distance_matrix@),
        md.insertion_ok(rs[dst], bi, rs[src][pos], ch),
        md.load + ch.demand(rs[src][pos]) <= ch.max_capacity,
    ensures
        (proper(rs[src]) && ch.feasible(rs[src])) ==> (rs[src].remove(pos).len() <= 2 || ch.feasible(
            rs[src].remove(pos),
        )),
        (proper(rs[src]) && proper(rs[dst]) && ch.feasible(rs[dst])) ==> ch.feasible(
            rs[dst].insert(bi, rs[src][pos]),
        ),
        all_proper(rs) ==> all_custs(
            keep_nonempty(rs.update(src, rs[src].remove(pos)).update(dst, rs[dst].insert(bi, rs[src][pos]))),
        ) == all_custs(rs),
{
    if proper(rs[src]) && ch.feasible(rs[src]) {
        law_removal_check_exact(ms, ch, rs[src], pos);
    }
    if proper(rs[src]) && proper(rs[dst]) && ch.feasible(rs[dst]) {
        law_insertion_check_exact(md, ch, rs[dst], bi, rs[src][pos]);
    }
    if all_proper(rs) {
        lemma_relocate_result_custs(rs, src, dst, pos, bi);
    }
}

/// The draws of a relocation from generator state `s0` to `s_end`: a source
/// route, then (when it has a customer) a place in it and a target route other
/// than the source; a proposed move takes the customer at that place out of the
/// source into the target.
pub open spec fn relocate_drawn(rs: Seq<Seq<usize>>, s0: u64, s_end: u64, res: SaResult) -> bool {
    let n = rs.len() as int;
    let src = lcg_pick(s0, n);
    let s1 = lcg_next(s0);
    if rs[src].len() <= 2 {
        res is Failed && s_end == s1
    } else {
        let pos = 1 + lcg_pick(s1, rs[src].len() - 2);
        let s2 = lcg_next(s1);
        let d = except_draw(s2, n, src, u64::MAX as nat);
        &&& s_end == d.1
        &&& (res matches SaResult::Delta { change, .. } ==> change.r1 == src && change.r2 == d.0
            && change.route1@ == rs[src].remove(pos))
    }
}

/// Picks a random customer and moves it to its cheapest position in another
/// random route, deciding feasibility from the route tables in constant time.
#[verifier::rlimit(60)]
#[verifier::spinoff_prover]
pub fn try_relocate_fast(
    routes: &[Vec<usize>],
    rd: &[i32],
    metas: &[RouteMeta],
    ch: &Challenge,
    rng: &mut u64,
    dm: &[Vec<i32>],
    fleet: usize,
    fp: i64,
) -> (res: SaResult)
    requires
        ch.wf(),
        dm@ == ch.distance_matrix@,
        dists_ok(*ch, rv(routes@), rd@),
        forall|i: int| 0 <= i < routes@.len() ==> (#[trigger] routes@[i])@.len() >= 2,
        metas@.len() == routes@.len(),
        forall|i: int| 0 <= i < routes@.len() ==> #[trigger] metas@[i].describes(*ch, routes@[i]@) && metas@[i].bounded(),
        i32::MIN <= fp <= i32::MAX,
    ensures
        match res {
            SaResult::Failed => true,
            SaResult::Delta { delta_pen, change } => {
                &&& relocate_move(*ch, rv(routes@), rd@, fleet, fp, delta_pen, change)
                &&& (proper(routes@[change.r1 as int]@) && ch.feasible(routes@[change.r1 as int]@)) ==> (
                change.route1@.len() <= 2 || ch.feasible(change.route1@))
                &&& (proper(routes@[change.r1 as int]@) && proper(routes@[change.r2 as int]@) && ch.feasible(
                    routes@[change.r2 as int]@,
                )) ==> ch.feasible(change.route2@)
                &&& all_proper(rv(routes@)) ==> all_custs(change.result(rv(routes@))) == all_custs(rv(routes@))
            },
            SaResult::Full(_) => false,
        },
        routes@.len() < 2 ==> res is Failed && *final(rng) == *old(rng),
        routes@.len() >= 2 ==> relocate_drawn(rv(routes@), *old(rng), *final(rng), res),
{
    let ghost rs = rv(routes@);
    let ghost s0 = *rng;
    if routes.len() < 2 {
        return SaResult::Failed;
    }
    let src = rand_index(rng, routes.len());
    assert(rs[src as int] == routes@[src as int]@);
    if routes[src].len() <= 2 {
        return SaResult::Failed;
    }
    let pos = 1 + rand_index(rng, routes[src].len() - 2);
    let cust = routes[src][pos];
    let dst = rand_index_except(rng, routes.len(), src);
    assert(rs[dst as int] == routes@[dst as int]@);
    proof {
        assert(dists_ok(*ch, rs, rd@));
        assert(ch.route_ok(rs[src as int]));
        assert(ch.route_ok(rs[dst as int]));
        assert(metas@[dst as int].describes(*ch, routes@[dst as int]@));
        assert(metas@[src as int].describes(*ch, routes@[src as int]@));
        assert(in_limit(ch.demands@[cust as int]));
        lemma_meta_load_bound(*ch, rs[dst as int], metas@[dst as int]);
    }
    if metas[dst].load + ch.demands[cust] > ch.max_capacity {
        return SaResult::Failed;
    }
    let (bi, bc) = cheapest_insertion(&routes[dst], cust, dm);
    if !metas[src].check_removal_feasible(&routes[src], pos, dm) {
        return SaResult::Failed;
    }
    if !metas[dst].check_insertion_feasible(&routes[dst], bi, cust, ch) {
        return SaResult::Failed;
    }
    let prev_s = routes[src][pos - 1];
    let next_s = routes[src][pos + 1];
    proof {
        lemma_route_len_upper(dm@, rs[src as int]);
        lemma_route_len_upper(dm@, rs[dst as int]);
        lemma_route_len_nonneg(dm@, rs[src as int]);
        lemma_route_len_nonneg(dm@, rs[dst as int]);
        assert(in_limit(dm@[prev_s as int]@[cust as int]));
        assert(in_limit(dm@[cust as int]@[next_s as int]));
        assert(in_limit(dm@[prev_s as int]@[next_s as int]));
        crate::model::lemma_route_len_remove(dm@, rs[src as int], pos as int);
        crate::model::lemma_route_len_insert(dm@, rs[dst as int], bi as int, cust);
    }
    let nsd = if routes[src].len() <= 3 {
        0
    } else {
        rd[src] - dm[prev_s][cust] - dm[cust][next_s] + dm[prev_s][next_s]
    };
    let ndd = rd[dst] + bc;
    let mut dp: i64 = nsd as i64 + ndd as i64 - rd[src] as i64 - rd[dst] as i64;
    if routes[src].len() <= 3 && routes.len() > fleet {
        dp -= fp;
    }
    let mut ns = copy_route(&routes[src]);
    ns.remove(pos);
    let mut nd = copy_route(&routes[dst]);
    nd.insert(bi, cust);
    let change = RouteChange { r1: src, route1: ns, dist1: nsd, r2: dst, route2: nd, dist2: ndd, drop_empty: true };
    proof {
        assert(change.route1@ == rs[src as int].remove(pos as int));
        assert(change.route2@ == rs[dst as int].insert(bi as int, rs[src as int][pos as int]));
        lemma_relocate_checked_outcome(*ch, rs, metas@[src as int], metas@[dst as int], src as int, dst as int, pos as int, bi as int);
    }
    SaResult::Delta { delta_pen: dp, change }
}


/// Replacing two routes by two routes with the same customers in total keeps
/// the customers of the route list.
pub proof fn lemma_replace_two(rs: Seq<Seq<usize>>, a: int, b: int, na: Seq<usize>, nb: Seq<usize>)
    requires
        0 <= a < rs.len(),
        0 <= b < rs.len(),
        a != b,
        custs(na).add(custs(nb)) == custs(rs[a]).add(custs(rs[b])),
    ensures
        all_custs(rs.update(a, na).update(b, nb)) == all_custs(rs),
{
    broadcast use vstd::multiset::group_multiset_axioms;
    let u1 = rs.update(a, na);
    lemma_all_custs_update(rs, a, na);
    lemma_all_custs_update(u1, b, nb);
    assert(u1[b] == rs[b]);
    assert forall|x: usize| all_custs(u1.update(b, nb)).count(x) == all_custs(rs).count(x) by {
        assert(all_custs(u1.update(b, nb)).add(custs(rs[b])).count(x) == all_custs(u1).add(custs(nb)).count(x));
        assert(all_custs(u1).add(custs(rs[a])).count(x) == all_custs(rs).add(custs(na)).count(x));
        assert(custs(na).add(custs(nb)).count(x) == custs(rs[a]).add(custs(rs[b])).count(x));
        assert(custs(na).add(custs(nb)).count(x) == custs(na).count(x) + custs(nb).count(x));
        assert(custs(rs[a]).add(custs(rs[b])).count(x) == custs(rs[a]).count(x) + custs(rs[b]).count(x));
        assert(all_custs(u1.update(b, nb)).add(custs(rs[b])).count(x) == all_custs(u1.update(b, nb)).count(x)
            + custs(rs[b]).count(x));
        assert(all_custs(u1).add(custs(nb)).count(x) == all_custs(u1).count(x) + custs(nb).count(x));
        assert(all_custs(u1).add(custs(rs[a])).count(x) == all_custs(u1).count(x) + custs(rs[a]).count(x));
        assert(all_custs(rs).add(custs(na)).count(x) == all_custs(rs).count(x) + custs(na).count(x));
    }
    assert(all_custs(u1.update(b, nb)) =~= all_custs(rs));
}

/// A route list whose short routes are all depot pairs, with two routes replaced
/// by routes that are long or empty of customers.
pub proof fn lemma_short_after_replace(rs: Seq<Seq<usize>>, a: int, b: int, na: Seq<usize>, nb: Seq<usize>)
    requires
        all_proper(rs),
        0 <= a < rs.len(),
        0 <= b < rs.len(),
        na.len() <= 2 ==> forall|k: int| 0 <= k < na.len() ==> na[k] == 0,
        nb.len() <= 2 ==> forall|k: int| 0 <= k < nb.len() ==> nb[k] == 0,
    ensures
        short_routes_empty(rs.update(a, na).update(b, nb)),
{
    let u = rs.update(a, na).update(b, nb);
    assert forall|i: int, k: int| 0 <= i < u.len() && u[i].len() <= 2 && 0 <= k < u[i].len() implies #[trigger] u[i][k] == 0 by {
        if i != a && i != b {
            assert(proper(rs[i]));
        }
    }
}

/// Splitting a sequence at a position and joining the parts back.
pub proof fn lemma_custs_split(s: Seq<usize>, i: int)
    requires
        0 <= i <= s.len(),
    ensures
        custs(s) == custs(s.subrange(0, i)).add(custs(s.subrange(i, s.len() as int))),
{
    assert(s =~= s.subrange(0, i) + s.subrange(i, s.len() as int));
    crate::model::lemma_custs_concat(s.subrange(0, i), s.subrange(i, s.len() as int));
}

/// The 2-opt* move: routes `r1` and `r2` exchange their tails after inner
/// positions `i` and `j`; both new routes are feasible and `delta` is the change
/// of total length, minus the fleet penalty for each emptied route while the
/// fleet is exceeded.
pub open spec fn two_opt_star_move(
    ch: Challenge,
    rs: Seq<Seq<usize>>,
    rd: Seq<i32>,
    fleet: usize,
    fp: i64,
    delta: i64,
    c: RouteChange,
) -> bool {
    let dm = ch.distance_matrix@;
    let a = rs[c.r1 as int];
    let b = rs[c.r2 as int];
    &&& c.drop_empty
    &&& c.r1 != c.r2
    &&& c.r1 < rs.len()
    &&& c.r2 < rs.len()
    &&& exists|i: int, j: int|
        #![trigger a.subrange(0, i + 1), b.subrange(j + 1, b.len() as int)]
        1 <= i < a.len() - 1 && 1 <= j < b.len() - 1
            && c.route1@ == a.subrange(0, i + 1) + b.subrange(j + 1, b.len() as int)
            && c.route2@ == b.subrange(0, j + 1) + a.subrange(i + 1, a.len() as int)
    &&& ch.feasible(c.route1@)
    &&& ch.feasible(c.route2@)
    &&& c.dist1 == route_len(dm, c.route1@)
    &&& c.dist2 == route_len(dm, c.route2@)
    &&& delta == c.dist1 + c.dist2 - rd[c.r1 as int] - rd[c.r2 as int] - (if rs.len() > fleet {
        ((if c.route1@.len() <= 2 { 1int } else { 0 }) + (if c.route2@.len() <= 2 { 1int } else { 0 })) * fp
    } else { 0 })
}

/// Concatenates `a[lo1..hi1]` and `b[lo2..hi2]`.
pub fn join_slices(a: &[usize], lo1: usize, hi1: usize, b: &[usize], lo2: usize, hi2: usize) -> (res: Vec<usize>)
    requires
        lo1 <= hi1 <= a@.len(),
        lo2 <= hi2 <= b@.len(),
    ensures
        res@ == a@.subrange(lo1 as int, hi1 as int) + b@.subrange(lo2 as int, hi2 as int),
{
    let mut out: Vec<usize> = Vec::new();
    let mut i = lo1;
    while i < hi1
        invariant
            lo1 <= i <= hi1,
            hi1 <= a@.len(),
            out@ == a@.subrange(lo1 as int, i as int),
        decreases hi1 - i,
    {
        out.push(a[i]);
        i += 1;
        assert(out@ =~= a@.subrange(lo1 as int, i as int));
    }
    let mut j = lo2;
    while j < hi2
        invariant
            lo2 <= j <= hi2,
            hi2 <= b@.len(),
            out@ == a@.subrange(lo1 as int, hi1 as int) + b@.subrange(lo2 as int, j as int),
        decreases hi2 - j,
    {
        out.push(b[j]);
        j += 1;
        assert(out@ =~= a@.subrange(lo1 as int, hi1 as int) + b@.subrange(lo2 as int, j as int));
    }
    out
}

pub proof fn lemma_tails_custs(a: Seq<usize>, b: Seq<usize>, i: int, j: int)
    requires
        0 <= i < a.len(),
        0 <= j < b.len(),
    ensures
        custs(a.subrange(0, i + 1) + b.subrange(j + 1, b.len() as int)).add(
            custs(b.subrange(0, j + 1) + a.subrange(i + 1, a.len() as int)),
        ) == custs(a).add(custs(b)),
{
    broadcast use vstd::multiset::group_multiset_axioms;
    crate::model::lemma_custs_concat(a.subrange(0, i + 1), b.subrange(j + 1, b.len() as int));
    crate::model::lemma_custs_concat(b.subrange(0, j + 1), a.subrange(i + 1, a.len() as int));
    lemma_custs_split(a, i + 1);
    lemma_custs_split(b, j + 1);
    assert(custs(a.subrange(0, i + 1) + b.subrange(j + 1, b.len() as int)).add(
        custs(b.subrange(0, j + 1) + a.subrange(i + 1, a.len() as int))) =~= custs(a).add(custs(b)));
}

proof fn lemma_route_len_join_bound(dm: Seq<Vec<i32>>, r: Seq<usize>)
    requires
        dm_ok(dm, dm.len() as int),
        nodes_below(r, dm.len() as int),
        r.len() <= LEN_LIMIT,
    ensures
        0 <= route_len(dm, r) <= 1_000_000_000,
{
    lemma_route_len_upper(dm, r);
    lemma_route_len_nonneg(dm, r);
}

/// What the 2-opt* proposal draws from generator state `s0` over routes `rs`
/// (a route, another route, then a cut in each) and what comes of it: it fails
/// when one of the routes has no customer, or when a new route exceeds the
/// capacity or is infeasible; otherwise it proposes the two tail swaps.
pub open spec fn two_opt_star_drawn(ch: Challenge, rs: Seq<Seq<usize>>, s0: u64, s_end: u64, res: SaResult) -> bool {
    let n = rs.len() as int;
    let r1 = lcg_pick(s0, n);
    let (r2, s2) = except_draw(lcg_next(s0), n, r1, u64::MAX as nat);
    if rs[r1].len() <= 2 || rs[r2].len() <= 2 {
        res is Failed && s_end == s2
    } else {
        let a = rs[r1];
        let b = rs[r2];
        let i = 1 + lcg_pick(s2, a.len() - 2);
        let s3 = lcg_next(s2);
        let j = 1 + lcg_pick(s3, b.len() - 2);
        let n1 = a.subrange(0, i + 1) + b.subrange(j + 1, b.len() as int);
        let n2 = b.subrange(0, j + 1) + a.subrange(i + 1, a.len() as int);
        &&& s_end == lcg_next(s3)
        &&& (res is Failed <==> !(ch.load_of(n1) <= ch.max_capacity && ch.load_of(n2) <= ch.max_capacity
            && ch.feasible(n1) && ch.feasible(n2)))
        &&& (res matches SaResult::Delta { change, .. } ==> change.r1 == r1 && change.r2 == r2
            && change.route1@ == n1 && change.route2@ == n2)
    }
}

/// Picks two routes and a cut in each at random and proposes to swap their tails.
#[verifier::rlimit(60)]
#[verifier::spinoff_prover]
pub fn try_two_opt_star(
    routes: &[Vec<usize>],
    rd: &[i32],
    ch: &Challenge,
    rng: &mut u64,
    dm: &[Vec<i32>],
    fleet: usize,
    fp: i64,
) -> (res: SaResult)
    requires
        ch.wf(),
        dm@ == ch.distance_matrix@,
        dists_ok(*ch, rv(routes@), rd@),
        i32::MIN <= fp <= i32::MAX,
    ensures
        match res {
            SaResult::Failed => true,
            SaResult::Delta { delta_pen, change } => {
                &&& two_opt_star_move(*ch, rv(routes@), rd@, fleet, fp, delta_pen, change)
                &&& all_proper(rv(routes@)) ==> all_custs(change.result(rv(routes@))) == all_custs(rv(routes@))
            },
            SaResult::Full(_) => false,
        },
        routes@.len() < 2 ==> res is Failed && *final(rng) == *old(rng),
        routes@.len() >= 2 ==> two_opt_star_drawn(*ch, rv(routes@), *old(rng), *final(rng), res),
{
    let ghost rs = rv(routes@);
    if routes.len() < 2 {
        return SaResult::Failed;
    }
    let r1 = rand_index(rng, routes.len());
    let r2 = rand_index_except(rng, routes.len(), r1);
    assert(rs[r1 as int] == routes@[r1 as int]@);
    assert(rs[r2 as int] == routes@[r2 as int]@);
    if routes[r1].len() <= 2 || routes[r2].len() <= 2 {
        return SaResult::Failed;
    }
    let i = 1 + rand_index(rng, routes[r1].len() - 2);
    let j = 1 + rand_index(rng, routes[r2].len() - 2);
    let nr1 = join_slices(&routes[r1], 0, i + 1, &routes[r2], j + 1, routes[r2].len());
    let nr2 = join_slices(&routes[r2], 0, j + 1, &routes[r1], i + 1, routes[r1].len());
    proof {
        assert(dists_ok(*ch, rs, rd@));
        assert(ch.route_ok(rs[r1 as int]));
        assert(ch.route_ok(rs[r2 as int]));
        assert(ch.route_ok(nr1@));
        assert(ch.route_ok(nr2@));
    }
    let l1 = route_load(&nr1, ch);
    let l2 = route_load(&nr2, ch);
    if l1 > ch.max_capacity || l2 > ch.max_capacity {
        return SaResult::Failed;
    }
    if !is_feasible(&nr1, ch) || !is_feasible(&nr2, ch) {
        return SaResult::Failed;
    }
    proof {
        lemma_route_len_join_bound(dm@, nr1@);
        lemma_route_len_join_bound(dm@, nr2@);
        lemma_route_len_join_bound(dm@, rs[r1 as int]);
        lemma_route_len_join_bound(dm@, rs[r2 as int]);
    }
    let nd1 = route_dist(&nr1, dm);
    let nd2 = route_dist(&nr2, dm);
    let mut delta: i64 = nd1 as i64 + nd2 as i64 - rd[r1] as i64 - rd[r2] as i64;
    let empty: i64 = (if nr1.len() <= 2 { 1i64 } else { 0 }) + (if nr2.len() <= 2 { 1i64 } else { 0 });
    if routes.len() > fleet && empty > 0 {
        delta -= empty * fp;
    }
    let change = RouteChange { r1, route1: nr1, dist1: nd1, r2, route2: nr2, dist2: nd2, drop_empty: true };
    proof {
        let a = rs[r1 as int];
        let b = rs[r2 as int];
        assert(change.route1@ == a.subrange(0, i + 1) + b.subrange(j + 1, b.len() as int));
        assert(change.route2@ == b.subrange(0, j + 1) + a.subrange(i + 1, a.len() as int));
        if all_proper(rs) {
            lemma_tails_custs(a, b, i as int, j as int);
            lemma_replace_two(rs, r1 as int, r2 as int, nr1@, nr2@);
            lemma_short_after_replace(rs, r1 as int, r2 as int, nr1@, nr2@);
            lemma_keep_nonempty_custs(rs.update(r1 as int, nr1@).update(r2 as int, nr2@));
        }
    }
    SaResult::Delta { delta_pen: delta, change }
}


/// Picks a random customer and moves it to its cheapest position in another
/// random route, checking both new routes in full.
#[verifier::rlimit(60)]
#[verifier::spinoff_prover]
pub fn try_relocate(
    routes: &[Vec<usize>],
    rd: &[i32],
    ch: &Challenge,
    rng: &mut u64,
    dm: &[Vec<i32>],
    fleet: usize,
    fp: i64,
) -> (res: SaResult)
    requires
        ch.wf(),
        dm@ == ch.distance_matrix@,
        dists_ok(*ch, rv(routes@), rd@),
        forall|i: int| 0 <= i < routes@.len() ==> (#[trigger] routes@[i])@.len() >= 1,
        i32::MIN <= fp <= i32::MAX,
    ensures
        match res {
            SaResult::Failed => true,
            SaResult::Delta { delta_pen, change } => {
                &&& relocate_move(*ch, rv(routes@), rd@, fleet, fp, delta_pen, change)
                &&& change.route1@.len() <= 2 || ch.feasible(change.route1@)
                &&& ch.feasible(change.route2@)
                &&& (all_proper(rv(routes@)) ==> all_custs(change.result(rv(routes@))) == all_custs(rv(routes@)))
            },
            SaResult::Full(_) => false,
        },
        routes@.len() < 2 ==> res is Failed && *final(rng) == *old(rng),
        routes@.len() >= 2 ==> relocate_drawn(rv(routes@), *old(rng), *final(rng), res),
{
    let ghost rs = rv(routes@);
    let ghost s0 = *rng;
    if routes.len() < 2 {
        return SaResult::Failed;
    }
    let src = rand_index(rng, routes.len());
    assert(rs[src as int] == routes@[src as int]@);
    if routes[src].len() <= 2 {
        return SaResult::Failed;
    }
    let pos = 1 + rand_index(rng, routes[src].len() - 2);
    let cust = routes[src][pos];
    let dst = rand_index_except(rng, routes.len(), src);
    assert(rs[dst as int] == routes@[dst as int]@);
    proof {
        assert(dists_ok(*ch, rs, rd@));
        assert(ch.route_ok(rs[src as int]));
        assert(ch.route_ok(rs[dst as int]));
        assert(in_limit(ch.demands@[cust as int]));
    }
    let dl = route_load(&routes[dst], ch) + ch.demands[cust];
    if dl > ch.max_capacity {
        return SaResult::Failed;
    }
    let (bi, _bc) = cheapest_insertion(&routes[dst], cust, dm);
    let mut ns = copy_route(&routes[src]);
    ns.remove(pos);
    let mut nd = copy_route(&routes[dst]);
    nd.insert(bi, cust);
    proof {
        assert(ch.route_ok(ns@));
        assert(ch.route_ok(nd@));
    }
    if ns.len() > 2 && !is_feasible(&ns, ch) {
        return SaResult::Failed;
    }
    if !is_feasible(&nd, ch) {
        return SaResult::Failed;
    }
    proof {
        lemma_route_len_join_bound(dm@, ns@);
        lemma_route_len_join_bound(dm@, nd@);
        lemma_route_len_join_bound(dm@, rs[src as int]);
        lemma_route_len_join_bound(dm@, rs[dst as int]);
    }
    let nsd = if ns.len() > 2 { route_dist(&ns, dm) } else { 0 };
    let ndd = route_dist(&nd, dm);
    let mut dp: i64 = nsd as i64 + ndd as i64 - rd[src] as i64 - rd[dst] as i64;
    if ns.len() <= 2 && routes.len() > fleet {
        dp -= fp;
    }
    let change = RouteChange { r1: src, route1: ns, dist1: nsd, r2: dst, route2: nd, dist2: ndd, drop_empty: true };
    proof {
        assert(change.route1@ == rs[src as int].remove(pos as int));
        assert(change.route2@ == rs[dst as int].insert(bi as int, rs[src as int][pos as int]));
        if all_proper(rs) {
            lemma_relocate_result_custs(rs, src as int, dst as int, pos as int, bi as int);
        }
    }
    SaResult::Delta { delta_pen: dp, change }
}


/// A copy of a route list.
pub fn copy_routes(routes: &[Vec<usize>]) -> (res: Vec<Vec<usize>>)
    ensures
        rv(res@) == rv(routes@),
{
    let mut out: Vec<Vec<usize>> = Vec::new();
    let mut i: usize = 0;
    while i < routes.len()
        invariant
            i <= routes@.len(),
            out@.len() == i,
            rv(out@) == rv(routes@).subrange(0, i as int),
        decreases routes.len() - i,
    {
        let r = copy_route(&routes[i]);
        let ghost prev = out@;
        out.push(r);
        proof {
            assert(out@ == prev.push(r));
            assert(rv(routes@)[i as int] == routes@[i as int]@);
            assert(rv(out@).len() == i + 1);
            assert forall|k: int| 0 <= k < i + 1 implies #[trigger] rv(out@)[k] == rv(routes@).subrange(0, i + 1)[k] by {
                assert(rv(out@)[k] == out@[k]@);
                assert(rv(routes@)[k] == routes@[k]@);
                if k < i {
                    assert(out@[k] == prev[k]);
                    assert(rv(prev)[k] == prev[k]@);
                    assert(rv(prev)[k] == rv(routes@).subrange(0, i as int)[k]);
                }
            }
        }
        i += 1;
        assert(rv(out@) =~= rv(routes@).subrange(0, i as int));
    }
    assert(rv(routes@).subrange(0, i as int) =~= rv(routes@));
    out
}

/// Drops the routes without customers.
pub fn drop_empty(routes: &mut Vec<Vec<usize>>)
    ensures
        rv(final(routes)@) == keep_nonempty(rv(old(routes)@)),
{
    let mut ds: Vec<i32> = Vec::new();
    let mut i: usize = 0;
    while i < routes.len()
        invariant
            i <= routes@.len(),
            ds@.len() == i,
        decreases routes.len() - i,
    {
        ds.push(0);
        i += 1;
    }
    drop_empty_aligned(routes, &mut ds);
}

/// Total demand of all nodes of `s`, depot included.
pub open spec fn demand_total(ch: Challenge, s: Seq<usize>) -> int
    decreases s.len(),
{
    if s.len() == 0 {
        0
    } else {
        demand_total(ch, s.drop_last()) + ch.demand(s.last())
    }
}

/// Total demand of the nodes `route[lo..hi]` of a short segment.
fn segment_demand(route: &[usize], lo: usize, hi: usize, ch: &Challenge) -> (res: i32)
    requires
        ch.wf(),
        ch.route_ok(route@),
        lo <= hi <= route@.len(),
        hi - lo <= 3,
    ensures
        res == demand_total(*ch, route@.subrange(lo as int, hi as int)),
        0 <= res <= 300_000,
{
    let mut sum: i32 = 0;
    let mut i: usize = lo;
    while i < hi
        invariant
            ch.wf(),
            ch.route_ok(route@),
            lo <= i <= hi,
            hi <= route@.len(),
            hi - lo <= 3,
            sum == demand_total(*ch, route@.subrange(lo as int, i as int)),
            0 <= sum <= 100_000 * (i - lo),
        decreases hi - i,
    {
        assert(route@.subrange(lo as int, i + 1).drop_last() =~= route@.subrange(lo as int, i as int));
        assert(in_limit(ch.demands@[route@[i as int] as int]));
        sum += ch.demands[route[i]];
        i += 1;
    }
    sum
}

/// Whether route `dst` has room for the nodes `src[start..start + sl]`.
fn segment_fits(src: &[usize], start: usize, sl: usize, dst: &[usize], ch: &Challenge) -> (res: bool)
    requires
        ch.wf(),
        ch.route_ok(src@),
        ch.route_ok(dst@),
        dst@.len() <= ROUTE_LIMIT,
        src@.len() <= ROUTE_LIMIT,
        start + sl <= src@.len(),
        sl <= 3,
    ensures
        res == (ch.load_of(dst@) + demand_total(*ch, src@.subrange(start as int, start + sl)) <= ch.max_capacity),
{
    assert(start + sl <= src@.len());
    let hi: usize = start + sl;
    let sd = segment_demand(src, start, hi, ch);
    let dl = route_load(dst, ch) + sd;
    dl <= ch.max_capacity
}

/// The segment `r[start..start + sl]` inserted into `base` at position `ins`.
pub open spec fn with_segment(base: Seq<usize>, ins: int, r: Seq<usize>, start: int, sl: int) -> Seq<usize> {
    base.subrange(0, ins) + r.subrange(start, start + sl) + base.subrange(ins, base.len() as int)
}

/// The route `r` without its segment `r[start..start + sl]`.
pub open spec fn without_segment(r: Seq<usize>, start: int, sl: int) -> Seq<usize> {
    r.subrange(0, start) + r.subrange(start + sl, r.len() as int)
}

/// The or-opt move: a segment of one to three inner nodes of route `src` moves
/// to position `ins` of route `dst` (of the shortened route when they are the
/// same), the changed routes are feasible, and routes left without customers are
/// dropped.
pub open spec fn or_opt_move(ch: Challenge, rs: Seq<Seq<usize>>, out: Seq<Seq<usize>>) -> bool {
    exists|src: int, dst: int, start: int, sl: int, ins: int| #[trigger] or_opt_at(ch, rs, out, src, dst, start, sl, ins)
}

/// The or-opt move with its choices spelled out.
pub open spec fn or_opt_at(
    ch: Challenge,
    rs: Seq<Seq<usize>>,
    out: Seq<Seq<usize>>,
    src: int,
    dst: int,
    start: int,
    sl: int,
    ins: int,
) -> bool {
    let removed = without_segment(rs[src], start, sl);
    let base = if src == dst { removed } else { rs[dst] };
    let inserted = with_segment(base, ins, rs[src], start, sl);
    &&& 0 <= src < rs.len()
    &&& 0 <= dst < rs.len()
    &&& 1 <= sl <= 3
    &&& 1 <= start
    &&& start + sl <= rs[src].len() - 1
    &&& 1 <= ins < base.len()
    &&& out == keep_nonempty(rs.update(src, removed).update(dst, inserted))
    &&& ch.feasible(inserted)
    &&& (src != dst ==> removed.len() <= 2 || ch.feasible(removed))
}


proof fn lemma_segment_custs(r: Seq<usize>, base: Seq<usize>, start: int, sl: int, ins: int)
    requires
        0 <= start,
        start + sl <= r.len(),
        0 <= sl,
        0 <= ins <= base.len(),
    ensures
        custs(without_segment(r, start, sl)).add(custs(r.subrange(start, start + sl))) == custs(r),
        custs(with_segment(base, ins, r, start, sl)) == custs(base).add(custs(r.subrange(start, start + sl))),
{
    broadcast use vstd::multiset::group_multiset_axioms;
    let seg = r.subrange(start, start + sl);
    let a = r.subrange(0, start);
    let b = r.subrange(start + sl, r.len() as int);
    assert(r =~= a + seg + b);
    crate::model::lemma_custs_concat(a, b);
    crate::model::lemma_custs_concat(a + seg, b);
    crate::model::lemma_custs_concat(a, seg);
    assert(custs(without_segment(r, start, sl)).add(custs(seg)) =~= custs(r));
    let p = base.subrange(0, ins);
    let q = base.subrange(ins, base.len() as int);
    assert(base =~= p + q);
    crate::model::lemma_custs_concat(p, q);
    crate::model::lemma_custs_concat(p + seg, q);
    crate::model::lemma_custs_concat(p, seg);
    assert(custs(with_segment(base, ins, r, start, sl)) =~= custs(base).add(custs(seg)));
}

proof fn lemma_or_opt_custs(rs: Seq<Seq<usize>>, src: int, dst: int, start: int, sl: int, ins: int)
    requires
        all_proper(rs),
        0 <= src < rs.len(),
        0 <= dst < rs.len(),
        1 <= sl,
        1 <= start,
        start + sl <= rs[src].len() - 1,
        1 <= ins < (if src == dst { without_segment(rs[src], start, sl) } else { rs[dst] }).len(),
    ensures
        ({
            let removed = without_segment(rs[src], start, sl);
            let base = if src == dst { removed } else { rs[dst] };
            let inserted = with_segment(base, ins, rs[src], start, sl);
            all_custs(keep_nonempty(rs.update(src, removed).update(dst, inserted))) == all_custs(rs)
        }),
{
    broadcast use vstd::multiset::group_multiset_axioms;
    let r = rs[src];
    let removed = without_segment(r, start, sl);
    let base = if src == dst { removed } else { rs[dst] };
    let inserted = with_segment(base, ins, r, start, sl);
    let seg = r.subrange(start, start + sl);
    lemma_segment_custs(r, base, start, sl, ins);
    assert(proper(r));
    assert(removed[0] == 0);
    assert(removed[removed.len() - 1] == 0);
    if removed.len() <= 2 {
        assert forall|k: int| 0 <= k < removed.len() implies removed[k] == 0 by {
            assert(k == 0 || k == removed.len() - 1);
        }
    }
    if src == dst {
        assert(rs.update(src, removed).update(dst, inserted) =~= rs.update(src, inserted));
        lemma_all_custs_update(rs, src, inserted);
        assert(custs(inserted) =~= custs(r));
        assert forall|x: usize| all_custs(rs.update(src, inserted)).count(x) == all_custs(rs).count(x) by {
            assert(all_custs(rs.update(src, inserted)).add(custs(r)).count(x) == all_custs(rs).add(custs(inserted)).count(x));
        }
        assert(all_custs(rs.update(src, inserted)) =~= all_custs(rs));
        lemma_short_after_replace(rs, src, src, inserted, inserted);
        assert(rs.update(src, inserted).update(src, inserted) =~= rs.update(src, inserted));
        lemma_keep_nonempty_custs(rs.update(src, inserted));
    } else {
        assert(custs(removed).add(custs(inserted)) =~= custs(rs[src]).add(custs(rs[dst])));
        lemma_replace_two(rs, src, dst, removed, inserted);
        lemma_short_after_replace(rs, src, dst, removed, inserted);
        lemma_keep_nonempty_custs(rs.update(src, removed).update(dst, inserted));
    }
}

proof fn lemma_segment_nodes(r: Seq<usize>, other: Seq<usize>, start: int, sl: int, ins: int, same: bool, n: int)
    requires
        nodes_below(r, n),
        nodes_below(other, n),
        0 <= start,
        0 <= sl,
        start + sl <= r.len(),
        0 <= ins <= (if same { without_segment(r, start, sl) } else { other }).len(),
    ensures
        nodes_below(without_segment(r, start, sl), n),
        nodes_below(with_segment(if same { without_segment(r, start, sl) } else { other }, ins, r, start, sl), n),
{
    let removed = without_segment(r, start, sl);
    assert forall|k: int| 0 <= k < removed.len() implies (#[trigger] removed[k] as int) < n by {
        if k < start {
            assert(removed[k] == r[k]);
        } else {
            assert(removed[k] == r[k + sl]);
        }
    }
    let base = if same { removed } else { other };
    let w = with_segment(base, ins, r, start, sl);
    assert forall|k: int| 0 <= k < w.len() implies (#[trigger] w[k] as int) < n by {
        if k < ins {
            assert(w[k] == base[k]);
        } else if k < ins + sl {
            assert(w[k] == r[start + k - ins]);
        } else {
            assert(w[k] == base[k - sl]);
        }
    }
}

proof fn lemma_or_opt_outcome(
    ch: Challenge,
    rs: Seq<Seq<usize>>,
    out: Seq<Seq<usize>>,
    src: int,
    dst: int,
    start: int,
    sl: int,
    ins: int,
)
    requires
        0 <= src < rs.len(),
        0 <= dst < rs.len(),
        1 <= sl <= 3,
        1 <= start,
        start + sl <= rs[src].len() - 1,
        1 <= ins < (if src == dst { without_segment(rs[src], start, sl) } else { rs[dst] }).len(),
        out == keep_nonempty(
            rs.update(src, without_segment(rs[src], start, sl)).update(
                dst,
                with_segment(
                    if src == dst { without_segment(rs[src], start, sl) } else { rs[dst] },
                    ins,
                    rs[src],
                    start,
                    sl,
                ),
            ),
        ),
        ch.feasible(
            with_segment(
                if src == dst { without_segment(rs[src], start, sl) } else { rs[dst] },
                ins,
                rs[src],
                start,
                sl,
            ),
        ),
        src != dst ==> without_segment(rs[src], start, sl).len() <= 2 || ch.feasible(
            without_segment(rs[src], start, sl),
        ),
    ensures
        or_opt_move(ch, rs, out),
        or_opt_at(ch, rs, out, src, dst, start, sl, ins),
        all_proper(rs) ==> all_custs(out) == all_custs(rs),
{
    assert(or_opt_at(ch, rs, out, src, dst, start, sl, ins));
    if all_proper(rs) {
        lemma_or_opt_custs(rs, src, dst, start, sl, ins);
    }
}

/// The route list with the segment `routes[src][start..start + sl]` moved to
/// position `ins` of route `dst` (of the shortened route when it is the same).
fn build_or_opt(routes: &[Vec<usize>], src: usize, start: usize, sl: usize, dst: usize, ins: usize) -> (res: Vec<Vec<usize>>)
    requires
        src < routes@.len(),
        dst < routes@.len(),
        1 <= start,
        start + sl <= routes@[src as int]@.len(),
        start + sl <= usize::MAX,
        ins <= (if src == dst { routes@[src as int]@.len() - sl } else { routes@[dst as int]@.len() as int }),
    ensures
        rv(res@).len() == routes@.len(),
        ({
            let rs = rv(routes@);
            let removed = without_segment(rs[src as int], start as int, sl as int);
            let base = if src == dst { removed } else { rs[dst as int] };
            rv(res@) == rs.update(src as int, removed).update(dst as int, with_segment(base, ins as int, rs[src as int], start as int, sl as int))
        }),
{
    let ghost rs = rv(routes@);
    assert(rs[src as int] == routes@[src as int]@);
    assert(rs[dst as int] == routes@[dst as int]@);
    let seg = join_slices(&routes[src], start, start + sl, &routes[src], 0, 0);
    assert(seg@ =~= rs[src as int].subrange(start as int, start + sl));
    let mut nr = copy_routes(routes);
    assert(nr@.len() == rv(nr@).len());
    let removed = join_slices(&routes[src], 0, start, &routes[src], start + sl, routes[src].len());
    let ghost removed_v = removed@;
    nr.set(src, removed);
    assert(rv(nr@) =~= rs.update(src as int, removed_v));
    assert(nr@[dst as int]@ == rv(nr@)[dst as int]);
    let ghost base = nr@[dst as int]@;
    let dr0 = join_slices(&nr[dst], 0, ins, &seg, 0, seg.len());
    let dr = join_slices(&dr0, 0, dr0.len(), &nr[dst], ins, nr[dst].len());
    let ghost dr_v = dr@;
    proof {
        assert(dr0@.subrange(0, dr0@.len() as int) =~= dr0@);
        assert(seg@.subrange(0, seg@.len() as int) =~= seg@);
        assert(dr_v =~= with_segment(base, ins as int, rs[src as int], start as int, sl as int));
    }
    nr.set(dst, dr);
    assert(rv(nr@) =~= rs.update(src as int, removed_v).update(dst as int, dr_v));
    nr
}

/// What the or-opt proposal draws from generator state `s0` over routes `rs`
/// (a route, a segment length of one to three, its start, a target route, and
/// an insertion position) and what comes of it: it fails when the route has no
/// customer (after one draw), when the segment does not fit the target's
/// capacity or the target has no gap (after four draws), or when a changed
/// route is infeasible (after five); otherwise it proposes that move.
pub open spec fn or_opt_drawn(ch: Challenge, rs: Seq<Seq<usize>>, s0: u64, s_end: u64, res: SaResult) -> bool {
    let n = rs.len() as int;
    let src = lcg_pick(s0, n);
    let s1 = lcg_next(s0);
    if rs[src].len() <= 2 {
        res is Failed && s_end == s1
    } else {
        let cc = rs[src].len() - 2;
        let max_sl = if cc < 3 { cc } else { 3 };
        let sl = 1 + lcg_pick(s1, max_sl);
        let s2 = lcg_next(s1);
        let start = 1 + lcg_pick(s2, cc - sl + 1);
        let s3 = lcg_next(s2);
        let dst = lcg_pick(s3, n);
        let s4 = lcg_next(s3);
        let removed = without_segment(rs[src], start, sl);
        let ed_len = if src == dst { removed.len() as int } else { rs[dst].len() as int };
        if src != dst && !(ch.load_of(rs[dst]) + demand_total(ch, rs[src].subrange(start, start + sl)) <= ch.max_capacity) {
            res is Failed && s_end == s4
        } else if ed_len <= 1 {
            res is Failed && s_end == s4
        } else {
            let ins = 1 + lcg_pick(s4, ed_len - 1);
            let base = if src == dst { removed } else { rs[dst] };
            let dr = with_segment(base, ins, rs[src], start, sl);
            let sr = if src == dst { dr } else { removed };
            &&& s_end == lcg_next(s4)
            &&& (res is Failed <==> !((sr.len() <= 2 || ch.feasible(sr)) && ch.feasible(dr)))
            &&& (res matches SaResult::Full(nr) ==> or_opt_at(ch, rs, rv(nr@), src, dst, start, sl, ins))
        }
    }
}

/// Moves a random segment of one to three customers to a random position of a
/// random route (possibly the same one).
#[verifier::rlimit(60)]
#[verifier::spinoff_prover]
pub fn try_or_opt(routes: &[Vec<usize>], ch: &Challenge, rng: &mut u64) -> (res: SaResult)
    requires
        ch.wf(),
        forall|i: int| 0 <= i < routes@.len() ==> ch.route_ok(#[trigger] routes@[i]@) && routes@[i]@.len() <= ROUTE_LIMIT,
    ensures
        match res {
            SaResult::Failed => true,
            SaResult::Delta { .. } => false,
            SaResult::Full(nr) => {
                &&& or_opt_move(*ch, rv(routes@), rv(nr@))
                &&& all_proper(rv(routes@)) ==> all_custs(rv(nr@)) == all_custs(rv(routes@))
            },
        },
        routes@.len() == 0 ==> res is Failed && *final(rng) == *old(rng),
        routes@.len() > 0 ==> or_opt_drawn(*ch, rv(routes@), *old(rng), *final(rng), res),
{
    let ghost rs = rv(routes@);
    if routes.len() == 0 {
        return SaResult::Failed;
    }
    let src = rand_index(rng, routes.len());
    assert(rs[src as int] == routes@[src as int]@);
    if routes[src].len() <= 2 {
        return SaResult::Failed;
    }
    let cc = routes[src].len() - 2;
    let max_sl: usize = if cc < 3 { cc } else { 3 };
    let sl = 1 + rand_index(rng, max_sl);
    let ms = cc - sl;
    let start = 1 + rand_index(rng, ms + 1);
    let dst = rand_index(rng, routes.len());
    assert(rs[dst as int] == routes@[dst as int]@);
    proof {
        assert(ch.route_ok(rs[src as int]));
        assert(ch.route_ok(rs[dst as int]));
    }
    if src != dst && !segment_fits(&routes[src], start, sl, &routes[dst], ch) {
        return SaResult::Failed;
    }
    let ed = dst;
    let ed_len = if src == dst { routes[src].len() - sl } else { routes[dst].len() };
    if ed_len <= 1 {
        return SaResult::Failed;
    }
    let ins = 1 + rand_index(rng, ed_len - 1);
    let mut nr = build_or_opt(routes, src, start, sl, dst, ins);
    let ghost removed_v = without_segment(rs[src as int], start as int, sl as int);
    let ghost base = if src == dst { removed_v } else { rs[dst as int] };
    let ghost dr_v = with_segment(base, ins as int, rs[src as int], start as int, sl as int);
    assert(nr@[src as int]@ == rv(nr@)[src as int]);
    assert(nr@[ed as int]@ == rv(nr@)[ed as int]);
    assert(rv(nr@)[ed as int] == dr_v);
    proof {
        lemma_segment_nodes(rs[src as int], rs[dst as int], start as int, sl as int, ins as int, src == dst, ch.num_nodes as int);
        if src != dst {
            assert(rv(nr@)[src as int] == removed_v);
        }
    }
    if nr[src].len() > 2 && !is_feasible(&nr[src], ch) {
        return SaResult::Failed;
    }
    if !is_feasible(&nr[ed], ch) {
        return SaResult::Failed;
    }
    let ghost u = rv(nr@);
    drop_empty(&mut nr);
    proof {
        lemma_or_opt_outcome(*ch, rs, rv(nr@), src as int, dst as int, start as int, sl as int, ins as int);
    }
    SaResult::Full(nr)
}

} // verus!
