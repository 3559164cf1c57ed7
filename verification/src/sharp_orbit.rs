//! Building blocks of the alternative solver that checks time windows by
//! walking routes with a trial chain of customers in place: the walks, their
//! agreement with checking the built route, route demands and solution cost.
use vstd::prelude::*;
use crate::model::{dd, dm_ok, in_limit, nodes_below, table_ok, max, rv, route_len, total_len, Challenge, Solution};
use crate::primal_viper::{tw_tables, symmetric, rev_seg, improving_rev, reverse_segment, lemma_rev_seg_len, lemma_rev_seg_twice};

verus! {

/// Walking `body` from node `prev` left at time `t`: each node is reached by its
/// due time, then served from its ready time on; with `fin`, the walk ends by
/// travelling to node `fin` and arriving by the depot's due time.
pub open spec fn tw_run(
    dm: Seq<Vec<i32>>,
    ready: Seq<i32>,
    due: Seq<i32>,
    st: int,
    prev: usize,
    body: Seq<usize>,
    fin: Option<usize>,
    t: int,
) -> bool
    decreases body.len(),
{
    if body.len() == 0 {
        match fin {
            Some(l) => t + dd(dm, prev, l) <= due[0],
            None => true,
        }
    } else {
        let nx = body[0];
        let arr = t + dd(dm, prev, nx);
        arr <= due[nx as int] && tw_run(dm, ready, due, st, nx, body.drop_first(), fin, max(arr, ready[nx as int] as int) + st)
    }
}

/// A route with at least one customer meets its time windows: from the depot at
/// time 0 over its inner nodes and back to the depot.
pub open spec fn route_tw_ok(dm: Seq<Vec<i32>>, ready: Seq<i32>, due: Seq<i32>, st: int, r: Seq<usize>) -> bool {
    r.len() >= 3 && tw_run(dm, ready, due, st, 0, r.subrange(1, r.len() - 1), Some(0usize), 0)
}

/// Whether a route with at least one customer meets its time windows.
pub fn route_tw_feasible(route: &[usize], dm: &[Vec<i32>], rt: &[i32], dt: &[i32], st: i32) -> (res: bool)
    requires
        tw_tables(dm@, st, rt@, dt@),
        nodes_below(route@, dm@.len() as int),
    ensures
        res == route_tw_ok(dm@, rt@, dt@, st as int, route@),
{
    if route.len() < 3 {
        return false;
    }
    let ghost body = route@.subrange(1, route@.len() - 1);
    let mut t: i32 = 0;
    let mut prev: usize = 0;
    let mut k: usize = 1;
    let last = route.len() - 1;
    while k < last
        invariant
            tw_tables(dm@, st, rt@, dt@),
            nodes_below(route@, dm@.len() as int),
            route@.len() >= 3,
            last == route@.len() - 1,
            1 <= k <= last,
            (prev as int) < dm@.len(),
            0 <= t <= 300_000,
            body == route@.subrange(1, route@.len() - 1),
            route_tw_ok(dm@, rt@, dt@, st as int, route@) == tw_run(dm@, rt@, dt@, st as int, prev, route@.subrange(k as int, last as int), Some(0usize), t as int),
        decreases last - k,
    {
        let node = route[k];
        let ghost rest = route@.subrange(k as int, last as int);
        assert(rest[0] == node);
        assert(rest.drop_first() =~= route@.subrange(k + 1, last as int));
        proof {
            assert(in_limit(dm@[prev as int]@[node as int]));
            assert(in_limit(dt@[node as int]));
            assert(in_limit(rt@[node as int]));
        }
        t += dm[prev][node];
        if t > dt[node] {
            return false;
        }
        if t < rt[node] {
            t = rt[node];
        }
        t += st;
        prev = node;
        k += 1;
    }
    proof {
        assert(route@.subrange(k as int, last as int).len() == 0);
        assert(in_limit(dm@[prev as int]@[0]));
        assert(in_limit(dt@[0]));
    }
    t += dm[prev][0];
    if t > dt[0] {
        return false;
    }
    true
}

/// The chain in the order it is walked.
pub open spec fn oriented(chain: Seq<usize>, reverse: bool) -> Seq<usize> {
    if reverse { chain.reverse() } else { chain }
}

/// The nodes `chain_insert_tw_feasible` walks, and how the walk ends: the nodes of
/// the route before `pos` (after its first), the chain, and the route's nodes
/// from `pos` on up to its last, which the walk travels to at the end; when `pos`
/// is the route's length there is no final node.
pub open spec fn chain_walk(route: Seq<usize>, pos: int, chain: Seq<usize>) -> (Seq<usize>, Option<usize>) {
    let n = route.len();
    let pre = if pos >= 1 { route.subrange(1, pos) } else { Seq::empty() };
    if pos < n {
        (pre + chain + route.subrange(pos, n - 1), Some(route[n - 1]))
    } else {
        (pre + chain, None)
    }
}

/// Whether inserting `chain` (reversed when `reverse`) at position `pos` keeps the
/// route within its time windows, walking the route with the chain in place
/// without building it.
pub fn chain_insert_tw_feasible(
    route: &[usize],
    pos: usize,
    chain: &[usize],
    dm: &[Vec<i32>],
    rt: &[i32],
    dt: &[i32],
    st: i32,
    reverse: bool,
) -> (res: bool)
    requires
        tw_tables(dm@, st, rt@, dt@),
        nodes_below(route@, dm@.len() as int),
        nodes_below(chain@, dm@.len() as int),
        pos <= route@.len(),
    ensures
        res == tw_run(
            dm@,
            rt@,
            dt@,
            st as int,
            0,
            chain_walk(route@, pos as int, oriented(chain@, reverse)).0,
            chain_walk(route@, pos as int, oriented(chain@, reverse)).1,
            0,
        ),
{
    let ghost c = oriented(chain@, reverse);
    let ghost w = chain_walk(route@, pos as int, c);
    let ghost pre = if pos >= 1 { route@.subrange(1, pos as int) } else { Seq::<usize>::empty() };
    let ghost post = if pos < route@.len() { route@.subrange(pos as int, route@.len() - 1) } else { Seq::<usize>::empty() };
    assert(w.0 =~= pre + c + post);
    let n = route.len();
    let mut t: i32 = 0;
    let mut prev: usize = 0;
    let mut i: usize = 1;
    proof {
        if pos >= 1 {
            assert(route@.subrange(1, pos as int) =~= pre.subrange(0, pre.len() as int));
        }
    }
    while i < pos
        invariant
            tw_tables(dm@, st, rt@, dt@),
            nodes_below(route@, dm@.len() as int),
            nodes_below(chain@, dm@.len() as int),
            pos <= route@.len(),
            n == route@.len(),
            1 <= i,
            pos >= 1 ==> i <= pos,
            pre == (if pos >= 1 { route@.subrange(1, pos as int) } else { Seq::<usize>::empty() }),
            w == chain_walk(route@, pos as int, c),
            c == oriented(chain@, reverse),
            post == (if pos < route@.len() { route@.subrange(pos as int, route@.len() - 1) } else { Seq::<usize>::empty() }),
            (prev as int) < dm@.len(),
            0 <= t <= 300_000,
            tw_run(dm@, rt@, dt@, st as int, 0, w.0, w.1, 0) == tw_run(
                dm@,
                rt@,
                dt@,
                st as int,
                prev,
                (if pos >= 1 { route@.subrange(i as int, pos as int) } else { Seq::<usize>::empty() }) + c + post,
                w.1,
                t as int,
            ),
        decreases pos - i,
    {
        let cur = route[i];
        let ghost rest = route@.subrange(i as int, pos as int) + c + post;
        assert(rest[0] == cur);
        assert(rest.drop_first() =~= route@.subrange(i + 1, pos as int) + c + post);
        proof {
            assert(in_limit(dm@[prev as int]@[cur as int]));
            assert(in_limit(dt@[cur as int]));
            assert(in_limit(rt@[cur as int]));
        }
        t += dm[prev][cur];
        if t > dt[cur] {
            return false;
        }
        if t < rt[cur] {
            t = rt[cur];
        }
        t += st;
        prev = cur;
        i += 1;
    }
    proof {
        if pos >= 1 {
            assert(route@.subrange(i as int, pos as int).len() == 0);
        }
        assert((if pos >= 1 { route@.subrange(i as int, pos as int) } else { Seq::<usize>::empty() }) + c + post =~= c + post);
    }
    let chain_len = chain.len();
    let mut k: usize = 0;
    assert(c.subrange(0, chain_len as int) =~= c);
    while k < chain_len
        invariant
            tw_tables(dm@, st, rt@, dt@),
            nodes_below(chain@, dm@.len() as int),
            chain_len == chain@.len(),
            pos <= route@.len(),
            w == chain_walk(route@, pos as int, c),
            c == oriented(chain@, reverse),
            post == (if pos < route@.len() { route@.subrange(pos as int, route@.len() - 1) } else { Seq::<usize>::empty() }),
            c.len() == chain_len,
            k <= chain_len,
            (prev as int) < dm@.len(),
            0 <= t <= 300_000,
            tw_run(dm@, rt@, dt@, st as int, 0, w.0, w.1, 0) == tw_run(dm@, rt@, dt@, st as int, prev, c.subrange(k as int, chain_len as int) + post, w.1, t as int),
        decreases chain_len - k,
    {
        let cur = if reverse { chain[chain_len - 1 - k] } else { chain[k] };
        let ghost rest = c.subrange(k as int, chain_len as int) + post;
        assert(c[k as int] == cur);
        assert(rest[0] == cur);
        assert(rest.drop_first() =~= c.subrange(k + 1, chain_len as int) + post);
        proof {
            assert(in_limit(dm@[prev as int]@[cur as int]));
            assert(in_limit(dt@[cur as int]));
            assert(in_limit(rt@[cur as int]));
        }
        t += dm[prev][cur];
        if t > dt[cur] {
            return false;
        }
        if t < rt[cur] {
            t = rt[cur];
        }
        t += st;
        prev = cur;
        k += 1;
    }
    assert(c.subrange(k as int, chain_len as int) + post =~= post);
    let mut i: usize = pos;
    while i < n
        invariant
            tw_tables(dm@, st, rt@, dt@),
            nodes_below(route@, dm@.len() as int),
            pos <= i <= n,
            n == route@.len(),
            w == chain_walk(route@, pos as int, c),
            c == oriented(chain@, reverse),
            post == (if pos < route@.len() { route@.subrange(pos as int, route@.len() - 1) } else { Seq::<usize>::empty() }),
            w.1 == (if pos < n { Some(route@[n - 1]) } else { None }),
            (prev as int) < dm@.len(),
            0 <= t <= 300_000,
            i < n ==> tw_run(dm@, rt@, dt@, st as int, 0, w.0, w.1, 0) == tw_run(
                dm@,
                rt@,
                dt@,
                st as int,
                prev,
                route@.subrange(i as int, n - 1),
                w.1,
                t as int,
            ),
            i == n ==> tw_run(dm@, rt@, dt@, st as int, 0, w.0, w.1, 0) == (pos < n || tw_run(dm@, rt@, dt@, st as int, prev, post, w.1, t as int)),
        decreases n - i,
    {
        let cur = route[i];
        proof {
            assert(in_limit(dm@[prev as int]@[cur as int]));
            assert(in_limit(dt@[cur as int]));
            assert(in_limit(rt@[cur as int]));
            assert(in_limit(dt@[0]));
        }
        t += dm[prev][cur];
        if i == n - 1 {
            assert(route@.subrange(i as int, n - 1).len() == 0);
            if t > dt[0] {
                return false;
            }
        } else {
            let ghost rest = route@.subrange(i as int, n - 1);
            assert(rest[0] == cur);
            assert(rest.drop_first() =~= route@.subrange(i + 1, n - 1));
            if t > dt[cur] {
                return false;
            }
            if t < rt[cur] {
                t = rt[cur];
            }
            t += st;
        }
        prev = cur;
        i += 1;
    }
    true
}

/// Walking a route with a chain in place is checking the route with the chain
/// inserted, when the position lies between the route's first and last node and
/// the route ends at the depot.
pub proof fn law_chain_insert_matches_route_check(
    dm: Seq<Vec<i32>>,
    ready: Seq<i32>,
    due: Seq<i32>,
    st: int,
    route: Seq<usize>,
    pos: int,
    chain: Seq<usize>,
)
    requires
        route.len() >= 2,
        route[route.len() - 1] == 0,
        1 <= pos <= route.len() - 1,
        chain.len() >= 1,
    ensures
        tw_run(dm, ready, due, st, 0, chain_walk(route, pos, chain).0, chain_walk(route, pos, chain).1, 0) == route_tw_ok(
            dm,
            ready,
            due,
            st,
            route.subrange(0, pos) + chain + route.subrange(pos, route.len() as int),
        ),
{
    let r = route.subrange(0, pos) + chain + route.subrange(pos, route.len() as int);
    assert(r.subrange(1, r.len() - 1) =~= route.subrange(1, pos) + chain + route.subrange(pos, route.len() - 1));
}

/// Whether inserting `node` at position `pos` keeps the route within its time
/// windows.
pub fn trial_insert_tw_feasible(route: &[usize], pos: usize, node: usize, dm: &[Vec<i32>], rt: &[i32], dt: &[i32], st: i32) -> (res: bool)
    requires
        tw_tables(dm@, st, rt@, dt@),
        nodes_below(route@, dm@.len() as int),
        (node as int) < dm@.len(),
        pos <= route@.len(),
    ensures
        res == tw_run(dm@, rt@, dt@, st as int, 0, chain_walk(route@, pos as int, seq![node]).0, chain_walk(route@, pos as int, seq![node]).1, 0),
{
    let one = [node];
    assert(one@ =~= seq![node]);
    chain_insert_tw_feasible(route, pos, &one, dm, rt, dt, st, false)
}

/// Total demand of the nodes of `s`.
pub open spec fn demand_sum(demands: Seq<i32>, s: Seq<usize>) -> int
    decreases s.len(),
{
    if s.len() == 0 {
        0
    } else {
        demand_sum(demands, s.drop_last()) + demands[s.last() as int]
    }
}

/// The demand of every route: the total demand of its inner nodes.
pub fn compute_route_demand(routes: &[Vec<usize>], demands: &[i32]) -> (res: Vec<i32>)
    requires
        forall|i: int| 0 <= i < routes@.len() ==> 2 <= (#[trigger] routes@[i]@).len() <= crate::model::LEN_LIMIT
            && nodes_below(routes@[i]@, demands@.len() as int),
        table_ok(demands@, demands@.len() as int),
    ensures
        res@.len() == routes@.len(),
        forall|i: int| 0 <= i < routes@.len() ==> #[trigger] res@[i] == demand_sum(demands@, routes@[i]@.subrange(1, routes@[i]@.len() - 1)),
{
    let mut out: Vec<i32> = Vec::new();
    let mut i: usize = 0;
    while i < routes.len()
        invariant
            i <= routes@.len(),
            out@.len() == i,
            forall|j: int| 0 <= j < routes@.len() ==> 2 <= (#[trigger] routes@[j]@).len() <= crate::model::LEN_LIMIT
                && nodes_below(routes@[j]@, demands@.len() as int),
            table_ok(demands@, demands@.len() as int),
            forall|j: int| 0 <= j < i ==> #[trigger] out@[j] == demand_sum(demands@, routes@[j]@.subrange(1, routes@[j]@.len() - 1)),
        decreases routes.len() - i,
    {
        let r = &routes[i];
        assert(2 <= r@.len() <= crate::model::LEN_LIMIT);
        let last = r.len() - 1;
        let mut sum: i32 = 0;
        let mut k: usize = 1;
        while k < last
            invariant
                2 <= r@.len() <= crate::model::LEN_LIMIT,
                last == r@.len() - 1,
                nodes_below(r@, demands@.len() as int),
                table_ok(demands@, demands@.len() as int),
                1 <= k <= last,
                sum == demand_sum(demands@, r@.subrange(1, k as int)),
                0 <= sum <= 100_000 * (k - 1),
            decreases last - k,
        {
            assert(r@.subrange(1, k + 1).drop_last() =~= r@.subrange(1, k as int));
            assert(in_limit(demands@[r@[k as int] as int]));
            sum += demands[r[k]];
            k += 1;
        }
        out.push(sum);
        i += 1;
    }
    out
}

/// The length of a solution: the sum of its routes' lengths.
pub fn solution_cost(solution: &Solution, dm: &[Vec<i32>]) -> (res: i32)
    requires
        dm_ok(dm@, dm@.len() as int),
        forall|i: int| 0 <= i < solution.routes@.len() ==> nodes_below(#[trigger] solution.routes@[i]@, dm@.len() as int),
        total_len(dm@, rv(solution.routes@)) <= i32::MAX,
    ensures
        res == total_len(dm@, rv(solution.routes@)),
{
    crate::primal_viper::total_distance(&solution.routes, dm)
}

/// The largest entry of the distance matrix, or 0 when none is positive.
pub fn max_pairwise_distance(dm: &[Vec<i32>]) -> (res: i32)
    ensures
        res >= 0,
        forall|i: int, j: int| 0 <= i < dm@.len() && 0 <= j < dm@[i]@.len() ==> #[trigger] dm@[i]@[j] <= res,
        res == 0 || exists|i: int, j: int| 0 <= i < dm@.len() && 0 <= j < dm@[i]@.len() && #[trigger] dm@[i]@[j] == res,
{
    let mut m: i32 = 0;
    let mut i: usize = 0;
    while i < dm.len()
        invariant
            i <= dm@.len(),
            m >= 0,
            forall|a: int, b: int| 0 <= a < i && 0 <= b < dm@[a]@.len() ==> #[trigger] dm@[a]@[b] <= m,
            m == 0 || exists|a: int, b: int| 0 <= a < dm@.len() && 0 <= b < dm@[a]@.len() && #[trigger] dm@[a]@[b] == m,
        decreases dm.len() - i,
    {
        let row = &dm[i];
        let mut j: usize = 0;
        while j < row.len()
            invariant
                i < dm@.len(),
                row@ == dm@[i as int]@,
                j <= row@.len(),
                m >= 0,
                forall|a: int, b: int| 0 <= a < i && 0 <= b < dm@[a]@.len() ==> #[trigger] dm@[a]@[b] <= m,
                forall|b: int| 0 <= b < j ==> #[trigger] row@[b] <= m,
                m == 0 || exists|a: int, b: int| 0 <= a < dm@.len() && 0 <= b < dm@[a]@.len() && #[trigger] dm@[a]@[b] == m,
            decreases row.len() - j,
        {
            let v = row[j];
            if v > m {
                m = v;
                assert(dm@[i as int]@[j as int] == m);
            }
            j += 1;
        }
        i += 1;
    }
    m
}

/// Tries the reversal of positions `i..=j`: applies it when it shortens the
/// boundary edges and keeps the route within its time windows.
fn try_reversal(route: &mut Vec<usize>, i: usize, j: usize, dm: &[Vec<i32>], rt: &[i32], dt: &[i32], st: i32) -> (res: bool)
    requires
        tw_tables(dm@, st, rt@, dt@),
        symmetric(dm@),
        nodes_below(old(route)@, dm@.len() as int),
        1 <= i < j < old(route)@.len() - 1,
    ensures
        res == (improving_rev(dm@, old(route)@, i as int, j as int) && route_tw_ok(dm@, rt@, dt@, st as int, rev_seg(old(route)@, i as int, j as int))),
        res ==> final(route)@ == rev_seg(old(route)@, i as int, j as int),
        !res ==> final(route)@ == old(route)@,
        route_len(dm@, rev_seg(old(route)@, i as int, j as int)) == route_len(dm@, old(route)@) - dd(dm@, old(route)@[i - 1], old(route)@[i as int])
            - dd(dm@, old(route)@[j as int], old(route)@[j + 1]) + dd(dm@, old(route)@[i - 1], old(route)@[j as int]) + dd(dm@, old(route)@[i as int], old(route)@[j + 1]),
        rev_seg(old(route)@, i as int, j as int).len() == old(route)@.len(),
        rev_seg(old(route)@, i as int, j as int)[0] == old(route)@[0],
        rev_seg(old(route)@, i as int, j as int)[old(route)@.len() - 1] == old(route)@[old(route)@.len() - 1],
        nodes_below(rev_seg(old(route)@, i as int, j as int), dm@.len() as int),
        rev_seg(old(route)@, i as int, j as int).to_multiset() == old(route)@.to_multiset(),
{
    let ghost before = route@;
    proof {
        lemma_rev_seg_len(dm@, before, i as int, j as int);
    }
    let len = route.len();
    assert(j + 1 < len);
    let a = route[i - 1];
    let b = route[i];
    let c = route[j];
    let d = route[j + 1];
    proof {
        assert(in_limit(dm@[a as int]@[b as int]));
        assert(in_limit(dm@[c as int]@[d as int]));
        assert(in_limit(dm@[a as int]@[c as int]));
        assert(in_limit(dm@[b as int]@[d as int]));
    }
    let delta = dm[a][c] + dm[b][d] - dm[a][b] - dm[c][d];
    if delta < 0 {
        reverse_segment(route, i, j);
        if route_tw_feasible(route, dm, rt, dt, st) {
            return true;
        }
        reverse_segment(route, i, j);
        proof {
            lemma_rev_seg_twice(before, i as int, j as int);
        }
    }
    false
}

/// 2-opt within one route: sweeps all pairs `i < j` of inner positions, keeps each
/// reversal of `i..=j` that shortens the route's boundary edges and keeps the
/// route within its time windows, and repeats sweeps while one changed the route.
pub fn two_opt_route(route: &mut Vec<usize>, dm: &[Vec<i32>], rt: &[i32], dt: &[i32], st: i32) -> (res: bool)
    requires
        tw_tables(dm@, st, rt@, dt@),
        symmetric(dm@),
        nodes_below(old(route)@, dm@.len() as int),
    ensures
        final(route)@.len() == old(route)@.len(),
        final(route)@.to_multiset() == old(route)@.to_multiset(),
        nodes_below(final(route)@, dm@.len() as int),
        final(route)@.len() > 0 ==> final(route)@[0] == old(route)@[0] && final(route)@[final(route)@.len() - 1] == old(route)@[old(route)@.len() - 1],
        res ==> route_tw_ok(dm@, rt@, dt@, st as int, final(route)@) && route_len(dm@, final(route)@) < route_len(dm@, old(route)@),
        !res ==> final(route)@ == old(route)@,
        final(route)@.len() >= 5 ==> forall|i: int, j: int| 1 <= i < j < final(route)@.len() - 1 && #[trigger] improving_rev(dm@, final(route)@, i, j)
            ==> !route_tw_ok(dm@, rt@, dt@, st as int, #[trigger] rev_seg(final(route)@, i, j)),
{
    let n = route.len();
    if n < 5 {
        return false;
    }
    let ghost r0 = route@;
    let mut any_improved = false;
    let mut improved = true;
    proof {
        crate::algorithm::lemma_route_len_nonneg(dm@, route@);
    }
    while improved
        invariant
            tw_tables(dm@, st, rt@, dt@),
            symmetric(dm@),
            n == route@.len(),
            n >= 5,
            nodes_below(route@, dm@.len() as int),
            route@.to_multiset() == r0.to_multiset(),
            route@[0] == r0[0],
            route@[n - 1] == r0[n - 1],
            r0.len() == n,
            r0 == old(route)@,
            route_len(dm@, route@) >= 0,
            any_improved ==> route_tw_ok(dm@, rt@, dt@, st as int, route@) && route_len(dm@, route@) < route_len(dm@, r0),
            !any_improved ==> route@ == r0,
            !improved ==> forall|i: int, j: int| 1 <= i < j < n - 1 && #[trigger] improving_rev(dm@, route@, i, j)
                ==> !route_tw_ok(dm@, rt@, dt@, st as int, #[trigger] rev_seg(route@, i, j)),
        decreases route_len(dm@, route@) * 2 + (if improved { 1int } else { 0int }),
    {
        let ghost start = route@;
        improved = false;
        let mut i: usize = 1;
        while i < n - 2
            invariant
                tw_tables(dm@, st, rt@, dt@),
                symmetric(dm@),
                n == route@.len(),
                n >= 5,
                1 <= i <= n - 2,
                nodes_below(route@, dm@.len() as int),
                route@.to_multiset() == r0.to_multiset(),
                route@[0] == r0[0],
                route@[n - 1] == r0[n - 1],
                r0.len() == n,
                r0 == old(route)@,
                route_len(dm@, route@) >= 0,
                route_len(dm@, route@) <= route_len(dm@, start),
                improved ==> route_len(dm@, route@) < route_len(dm@, start),
                !improved ==> route@ == start,
                any_improved ==> route_tw_ok(dm@, rt@, dt@, st as int, route@) && route_len(dm@, route@) < route_len(dm@, r0),
                !any_improved ==> route@ == r0,
                !improved ==> forall|a: int, b: int| 1 <= a < i && a < b < n - 1 && #[trigger] improving_rev(dm@, route@, a, b)
                    ==> !route_tw_ok(dm@, rt@, dt@, st as int, #[trigger] rev_seg(route@, a, b)),
            decreases n - 2 - i,
        {
            let mut j: usize = i + 1;
            while j < n - 1
                invariant
                    tw_tables(dm@, st, rt@, dt@),
                    symmetric(dm@),
                    n == route@.len(),
                    n >= 5,
                    1 <= i < n - 2,
                    i + 1 <= j <= n - 1,
                    nodes_below(route@, dm@.len() as int),
                    route@.to_multiset() == r0.to_multiset(),
                    route@[0] == r0[0],
                    route@[n - 1] == r0[n - 1],
                    r0.len() == n,
                    r0 == old(route)@,
                    route_len(dm@, route@) >= 0,
                    route_len(dm@, route@) <= route_len(dm@, start),
                    improved ==> route_len(dm@, route@) < route_len(dm@, start),
                    !improved ==> route@ == start,
                    any_improved ==> route_tw_ok(dm@, rt@, dt@, st as int, route@) && route_len(dm@, route@) < route_len(dm@, r0),
                    !any_improved ==> route@ == r0,
                    !improved ==> forall|a: int, b: int| (1 <= a < i && a < b < n - 1 || a == i && i < b < j) && #[trigger] improving_rev(dm@, route@, a, b)
                        ==> !route_tw_ok(dm@, rt@, dt@, st as int, #[trigger] rev_seg(route@, a, b)),
                decreases n - 1 - j,
            {
                if try_reversal(route, i, j, dm, rt, dt, st) {
                    improved = true;
                    any_improved = true;
                }
                proof {
                    crate::algorithm::lemma_route_len_nonneg(dm@, route@);
                }
                j += 1;
            }
            i += 1;
        }
    }
    any_improved
}

} // verus!
