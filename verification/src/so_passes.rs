//! Inter-route passes of the solver that checks time windows by walking routes
//! with trial chains in place: first-improvement 2-opt* and or-opt between
//! routes, repeated while they improve and the time budget lasts. Every applied
//! move shortens the solution, which is also why the passes end.
use vstd::prelude::*;
use std::time::{Duration, Instant};
use crate::model::{
    all_custs, custs, rv, proper, in_limit, route_len, total_len, dd, dm_ok, nodes_below, table_ok, LEN_LIMIT,
    lemma_route_len_concat, lemma_custs_concat,
};
use crate::algorithm::{join_slices, lemma_tails_custs, lemma_replace_two, keep_nonempty, keep_aligned, drop_empty_aligned,
    lemma_keep_nonempty_custs, short_routes_empty, lemma_route_len_nonneg};
use crate::construct::{total_nodes, lemma_total_nodes};
use crate::improve::{elapsed_since, at_least, tail_swap, lemma_tail_swap_len, lemma_total_len_update};
use crate::alns::{lemma_keep_nonempty_members, lemma_total_len_nonneg_dm};
use crate::primal_viper::{tw_tables, symmetric, lemma_route_len_reverse};
use crate::pv_passes::tos_delta;
use crate::sharp_orbit::{demand_sum, route_tw_ok, route_tw_feasible};
use crate::repair::{embeds, embedding, lemma_embeds_refl, lemma_embeds_trans};

verus! {

/// The inner nodes of a route: all but its first and last.
pub open spec fn inner(r: Seq<usize>) -> Seq<usize> {
    r.subrange(1, r.len() - 1)
}

/// Routes these passes work on: in normal form, within the instance, with few
/// enough nodes overall for every demand to fit, and with the demand of each
/// route's inner nodes recorded.
pub open spec fn so_state(dm: Seq<Vec<i32>>, rt: Seq<i32>, dt: Seq<i32>, st: i32, demands: Seq<i32>, rs: Seq<Seq<usize>>, rd: Seq<i32>) -> bool {
    &&& tw_tables(dm, st, rt, dt)
    &&& table_ok(demands, dm.len() as int)
    &&& rd.len() == rs.len()
    &&& forall|i: int| 0 <= i < rs.len() ==> proper(#[trigger] rs[i]) && nodes_below(rs[i], dm.len() as int)
        && rd[i] == demand_sum(demands, inner(rs[i]))
    &&& total_nodes(rs) <= LEN_LIMIT
}

/// Demand is additive over concatenation.
pub proof fn lemma_demand_sum_concat(demands: Seq<i32>, a: Seq<usize>, b: Seq<usize>)
    ensures
        demand_sum(demands, a + b) == demand_sum(demands, a) + demand_sum(demands, b),
    decreases b.len(),
{
    if b.len() == 0 {
        assert(a + b =~= a);
    } else {
        assert((a + b).drop_last() =~= a + b.drop_last());
        lemma_demand_sum_concat(demands, a, b.drop_last());
    }
}

/// The demand of nodes of the instance lies between 0 and 100000 per node.
pub proof fn lemma_demand_sum_bounds(demands: Seq<i32>, s: Seq<usize>)
    requires
        table_ok(demands, demands.len() as int),
        nodes_below(s, demands.len() as int),
    ensures
        0 <= demand_sum(demands, s) <= 100_000 * s.len(),
    decreases s.len(),
{
    if s.len() > 0 {
        assert(in_limit(demands[s.last() as int]));
        lemma_demand_sum_bounds(demands, s.drop_last());
    }
}

/// Total demand of `route[lo..hi]`.
fn range_demand(route: &[usize], lo: usize, hi: usize, demands: &[i32]) -> (res: i32)
    requires
        lo <= hi <= route@.len(),
        hi - lo <= LEN_LIMIT,
        table_ok(demands@, demands@.len() as int),
        nodes_below(route@, demands@.len() as int),
    ensures
        res == demand_sum(demands@, route@.subrange(lo as int, hi as int)),
{
    let mut s: i32 = 0;
    let mut k = lo;
    assert(route@.subrange(lo as int, lo as int).len() == 0);
    while k < hi
        invariant
            lo <= k <= hi,
            hi <= route@.len(),
            hi - lo <= LEN_LIMIT,
            table_ok(demands@, demands@.len() as int),
            nodes_below(route@, demands@.len() as int),
            s == demand_sum(demands@, route@.subrange(lo as int, k as int)),
        decreases hi - k,
    {
        proof {
            assert(route@.subrange(lo as int, k + 1).drop_last() =~= route@.subrange(lo as int, k as int));
            lemma_demand_sum_bounds(demands@, route@.subrange(lo as int, k + 1));
            assert(100_000 * (k + 1 - lo) <= 100_000 * LEN_LIMIT) by (nonlinear_arith)
                requires
                    k + 1 - lo <= LEN_LIMIT,
            ;
            assert(in_limit(demands@[route@[k as int] as int]));
        }
        s = s + demands[route[k]];
        k += 1;
    }
    s
}

/// Swapping the tails of `a` and `b` after positions `i` and `j` shortens them,
/// keeps the demand of both within `cap`, leaves each either without customers
/// or within its time windows, and leaves customers in at least one of them.
pub open spec fn so_tos_valid(
    dm: Seq<Vec<i32>>,
    rt: Seq<i32>,
    dt: Seq<i32>,
    st: int,
    demands: Seq<i32>,
    cap: int,
    a: Seq<usize>,
    b: Seq<usize>,
    i: int,
    j: int,
) -> bool {
    let n1 = tail_swap(a, b, i, j);
    let n2 = tail_swap(b, a, j, i);
    &&& 0 <= i < a.len() - 1
    &&& 0 <= j < b.len() - 1
    &&& tos_delta(dm, a, b, i, j) < 0
    &&& demand_sum(demands, inner(n1)) <= cap
    &&& demand_sum(demands, inner(n2)) <= cap
    &&& n1.len() <= 2 || route_tw_ok(dm, rt, dt, st, n1)
    &&& n2.len() <= 2 || route_tw_ok(dm, rt, dt, st, n2)
    &&& !(n1.len() <= 2 && n2.len() <= 2)
}

/// Outcome of scanning two routes for a move.
pub enum PairScan {
    /// A move at these two positions, with the demands of the two new routes.
    Found(usize, usize, i32, i32),
    /// No move exists.
    NoMove,
    /// The time budget ran out during the scan.
    TimeUp,
}

/// A tail swap of routes in normal form is in normal form.
pub(crate) proof fn lemma_tail_swap_normal(a: Seq<usize>, b: Seq<usize>, i: int, j: int)
    requires
        proper(a),
        proper(b),
        0 <= i < a.len() - 1,
        0 <= j < b.len() - 1,
    ensures
        proper(tail_swap(a, b, i, j)),
        tail_swap(a, b, i, j).len() == i + b.len() - j,
        inner(tail_swap(a, b, i, j)) == a.subrange(1, i + 1) + b.subrange(j + 1, b.len() - 1),
{
    let s = tail_swap(a, b, i, j);
    assert forall|k: int| 0 < k < s.len() - 1 implies #[trigger] s[k] != 0 by {
        if k <= i {
            assert(s[k] == a[k]);
        } else {
            assert(s[k] == b[k - i + j]);
        }
    }
    assert(inner(s) =~= a.subrange(1, i + 1) + b.subrange(j + 1, b.len() - 1));
}

/// The first `j` for which the tail swap of routes `a` and `b` at `(i, j)` is
/// valid, with the demands of the two new routes.
#[verifier::rlimit(40)]
fn tail_swap_row(
    a: &[usize],
    b: &[usize],
    i: usize,
    dm: &[Vec<i32>],
    rt: &[i32],
    dt: &[i32],
    st: i32,
    demands: &[i32],
    cap: i32,
) -> (res: Option<(usize, i32, i32)>)
    requires
        tw_tables(dm@, st, rt@, dt@),
        table_ok(demands@, dm@.len() as int),
        proper(a@),
        proper(b@),
        nodes_below(a@, dm@.len() as int),
        nodes_below(b@, dm@.len() as int),
        a@.len() + b@.len() <= LEN_LIMIT,
        i < a@.len() - 1,
    ensures
        res matches Some((j, d1, d2)) ==> {
            &&& so_tos_valid(dm@, rt@, dt@, st as int, demands@, cap as int, a@, b@, i as int, j as int)
            &&& d1 == demand_sum(demands@, inner(tail_swap(a@, b@, i as int, j as int)))
            &&& d2 == demand_sum(demands@, inner(tail_swap(b@, a@, j as int, i as int)))
            &&& forall|j2: int| j2 < j ==> !#[trigger] so_tos_valid(dm@, rt@, dt@, st as int, demands@, cap as int, a@, b@, i as int, j2)
        },
        res is None ==> forall|j2: int| !#[trigger] so_tos_valid(dm@, rt@, dt@, st as int, demands@, cap as int, a@, b@, i as int, j2),
{
    let len1 = a.len();
    let len2 = b.len();
    let mut j: usize = 0;
    while j < len2 - 1
        invariant
            tw_tables(dm@, st, rt@, dt@),
            table_ok(demands@, dm@.len() as int),
            proper(a@),
            proper(b@),
            nodes_below(a@, dm@.len() as int),
            nodes_below(b@, dm@.len() as int),
            a@.len() + b@.len() <= LEN_LIMIT,
            len1 == a@.len(),
            len2 == b@.len(),
            i < len1 - 1,
            j <= len2 - 1,
            forall|j2: int| j2 < j ==> !#[trigger] so_tos_valid(dm@, rt@, dt@, st as int, demands@, cap as int, a@, b@, i as int, j2),
        decreases len2 - 1 - j,
    {
        let x = a[i];
        let y = a[i + 1];
        let c = b[j];
        let d = b[j + 1];
        proof {
            assert(in_limit(dm@[x as int]@[d as int]));
            assert(in_limit(dm@[c as int]@[y as int]));
            assert(in_limit(dm@[x as int]@[y as int]));
            assert(in_limit(dm@[c as int]@[d as int]));
        }
        let delta = dm[x][d] + dm[c][y] - dm[x][y] - dm[c][d];
        assert(delta == tos_delta(dm@, a@, b@, i as int, j as int));
        if delta < 0 {
            let ghost n1 = tail_swap(a@, b@, i as int, j as int);
            let ghost n2 = tail_swap(b@, a@, j as int, i as int);
            proof {
                lemma_tail_swap_normal(a@, b@, i as int, j as int);
                lemma_tail_swap_normal(b@, a@, j as int, i as int);
                lemma_demand_sum_concat(demands@, a@.subrange(1, i + 1), b@.subrange(j + 1, len2 - 1));
                lemma_demand_sum_concat(demands@, b@.subrange(1, j + 1), a@.subrange(i + 1, len1 - 1));
                lemma_demand_sum_bounds(demands@, a@.subrange(1, i + 1));
                lemma_demand_sum_bounds(demands@, b@.subrange(j + 1, len2 - 1));
                lemma_demand_sum_bounds(demands@, b@.subrange(1, j + 1));
                lemma_demand_sum_bounds(demands@, a@.subrange(i + 1, len1 - 1));
                assert(100_000 * i + 100_000 * (len2 - 2 - j) <= 100_000 * LEN_LIMIT) by (nonlinear_arith)
                    requires
                        i + (len2 - 2 - j) <= LEN_LIMIT,
                ;
                assert(100_000 * j + 100_000 * (len1 - 2 - i) <= 100_000 * LEN_LIMIT) by (nonlinear_arith)
                    requires
                        j + (len1 - 2 - i) <= LEN_LIMIT,
                ;
            }
            let d1 = range_demand(a, 1, i + 1, demands) + range_demand(b, j + 1, len2 - 1, demands);
            let d2 = range_demand(b, 1, j + 1, demands) + range_demand(a, i + 1, len1 - 1, demands);
            assert(d1 == demand_sum(demands@, inner(n1)));
            assert(d2 == demand_sum(demands@, inner(n2)));
            if d1 <= cap && d2 <= cap {
                let new_r1 = join_slices(a, 0, i + 1, b, j + 1, len2);
                let new_r2 = join_slices(b, 0, j + 1, a, i + 1, len1);
                assert(new_r1@ == n1);
                assert(new_r2@ == n2);
                assert(nodes_below(n1, dm@.len() as int));
                assert(nodes_below(n2, dm@.len() as int));
                let ok1 = new_r1.len() <= 2 || route_tw_feasible(&new_r1, dm, rt, dt, st);
                let ok2 = new_r2.len() <= 2 || route_tw_feasible(&new_r2, dm, rt, dt, st);
                if ok1 && ok2 && !(new_r1.len() <= 2 && new_r2.len() <= 2) {
                    return Some((j, d1, d2));
                }
            }
        }
        j += 1;
    }
    None
}

/// The first tail swap of routes `a` and `b`, by `i` then `j`, that is valid;
/// before each new `i` the scan stops once the time budget since `start` is spent.
fn first_tail_swap(
    a: &[usize],
    b: &[usize],
    dm: &[Vec<i32>],
    rt: &[i32],
    dt: &[i32],
    st: i32,
    demands: &[i32],
    cap: i32,
    start: &Instant,
    budget: &Duration,
) -> (res: PairScan)
    requires
        tw_tables(dm@, st, rt@, dt@),
        table_ok(demands@, dm@.len() as int),
        proper(a@),
        proper(b@),
        nodes_below(a@, dm@.len() as int),
        nodes_below(b@, dm@.len() as int),
        a@.len() + b@.len() <= LEN_LIMIT,
    ensures
        res matches PairScan::Found(i, j, d1, d2) ==> {
            &&& so_tos_valid(dm@, rt@, dt@, st as int, demands@, cap as int, a@, b@, i as int, j as int)
            &&& d1 == demand_sum(demands@, inner(tail_swap(a@, b@, i as int, j as int)))
            &&& d2 == demand_sum(demands@, inner(tail_swap(b@, a@, j as int, i as int)))
            &&& forall|i2: int, j2: int| (i2 < i || i2 == i && j2 < j)
                ==> !#[trigger] so_tos_valid(dm@, rt@, dt@, st as int, demands@, cap as int, a@, b@, i2, j2)
        },
        res is NoMove ==> forall|i2: int, j2: int| !#[trigger] so_tos_valid(dm@, rt@, dt@, st as int, demands@, cap as int, a@, b@, i2, j2),
{
    let len1 = a.len();
    let mut i: usize = 0;
    while i < len1 - 1
        invariant
            tw_tables(dm@, st, rt@, dt@),
            table_ok(demands@, dm@.len() as int),
            proper(a@),
            proper(b@),
            nodes_below(a@, dm@.len() as int),
            nodes_below(b@, dm@.len() as int),
            a@.len() + b@.len() <= LEN_LIMIT,
            len1 == a@.len(),
            i <= len1 - 1,
            forall|i2: int, j2: int| i2 < i ==> !#[trigger] so_tos_valid(dm@, rt@, dt@, st as int, demands@, cap as int, a@, b@, i2, j2),
        decreases len1 - 1 - i,
    {
        if at_least(&elapsed_since(start), budget) {
            return PairScan::TimeUp;
        }
        match tail_swap_row(a, b, i, dm, rt, dt, st, demands, cap) {
            Some((j, d1, d2)) => {
                return PairScan::Found(i, j, d1, d2);
            },
            None => {},
        }
        i += 1;
    }
    PairScan::NoMove
}

/// The first tail swap of routes `a` and `b`, by `i` then `j`, that is valid,
/// with the demands of the two new routes; scanned to the end, with no time
/// limit.
fn first_tail_swap_full(
    a: &[usize],
    b: &[usize],
    dm: &[Vec<i32>],
    rt: &[i32],
    dt: &[i32],
    st: i32,
    demands: &[i32],
    cap: i32,
) -> (res: Option<(usize, usize, i32, i32)>)
    requires
        tw_tables(dm@, st, rt@, dt@),
        table_ok(demands@, dm@.len() as int),
        proper(a@),
        proper(b@),
        nodes_below(a@, dm@.len() as int),
        nodes_below(b@, dm@.len() as int),
        a@.len() + b@.len() <= LEN_LIMIT,
    ensures
        res matches Some((i, j, d1, d2)) ==> {
            &&& so_tos_valid(dm@, rt@, dt@, st as int, demands@, cap as int, a@, b@, i as int, j as int)
            &&& d1 == demand_sum(demands@, inner(tail_swap(a@, b@, i as int, j as int)))
            &&& d2 == demand_sum(demands@, inner(tail_swap(b@, a@, j as int, i as int)))
        },
        res is None ==> forall|i2: int, j2: int| !#[trigger] so_tos_valid(dm@, rt@, dt@, st as int, demands@, cap as int, a@, b@, i2, j2),
{
    let len1 = a.len();
    let mut i: usize = 0;
    while i < len1 - 1
        invariant
            tw_tables(dm@, st, rt@, dt@),
            table_ok(demands@, dm@.len() as int),
            proper(a@),
            proper(b@),
            nodes_below(a@, dm@.len() as int),
            nodes_below(b@, dm@.len() as int),
            a@.len() + b@.len() <= LEN_LIMIT,
            len1 == a@.len(),
            i <= len1 - 1,
            forall|i2: int, j2: int| i2 < i ==> !#[trigger] so_tos_valid(dm@, rt@, dt@, st as int, demands@, cap as int, a@, b@, i2, j2),
        decreases len1 - 1 - i,
    {
        match tail_swap_row(a, b, i, dm, rt, dt, st, demands, cap) {
            Some((j, d1, d2)) => {
                return Some((i, j, d1, d2));
            },
            None => {},
        }
        i += 1;
    }
    None
}

/// Dropping the routes without customers keeps, for the routes that stay, the
/// entries recorded beside them, and keeps the nodes within the bound.
pub proof fn lemma_keep_aligned_pairs(rs: Seq<Seq<usize>>, ds: Seq<i32>, p: spec_fn(Seq<usize>, i32) -> bool)
    requires
        rs.len() == ds.len(),
        forall|k: int| 0 <= k < rs.len() ==> #[trigger] p(rs[k], ds[k]),
    ensures
        keep_aligned(rs, ds).len() == keep_nonempty(rs).len(),
        forall|k: int| 0 <= k < keep_nonempty(rs).len() ==> #[trigger] p(keep_nonempty(rs)[k], keep_aligned(rs, ds)[k]),
        total_nodes(keep_nonempty(rs)) <= total_nodes(rs),
    decreases rs.len(),
{
    if rs.len() > 0 {
        assert forall|k: int| 0 <= k < rs.drop_last().len() implies #[trigger] p(rs.drop_last()[k], ds.drop_last()[k]) by {
            assert(p(rs[k], ds[k]));
        }
        lemma_keep_aligned_pairs(rs.drop_last(), ds.drop_last(), p);
        assert(p(rs[rs.len() - 1], ds[ds.len() - 1]));
        let kn = keep_nonempty(rs);
        let ka = keep_aligned(rs, ds);
        let kn0 = keep_nonempty(rs.drop_last());
        let ka0 = keep_aligned(rs.drop_last(), ds.drop_last());
        if rs.last().len() > 2 {
            assert(kn.drop_last() == kn0);
            assert forall|k: int| 0 <= k < kn.len() implies #[trigger] p(kn[k], ka[k]) by {
                if k < kn0.len() {
                    assert(kn[k] == kn0[k] && ka[k] == ka0[k]);
                }
            }
        }
    }
}

/// Dropping routes never lengthens a solution.
pub(crate) proof fn lemma_keep_len(dm: Seq<Vec<i32>>, rs: Seq<Seq<usize>>)
    requires
        dm_ok(dm, dm.len() as int),
        forall|i: int| 0 <= i < rs.len() ==> nodes_below(#[trigger] rs[i], dm.len() as int),
    ensures
        total_len(dm, keep_nonempty(rs)) <= total_len(dm, rs),
    decreases rs.len(),
{
    if rs.len() > 0 {
        assert(nodes_below(rs[rs.len() - 1], dm.len() as int));
        lemma_route_len_nonneg(dm, rs.last());
        assert forall|i: int| 0 <= i < rs.drop_last().len() implies nodes_below(#[trigger] rs.drop_last()[i], dm.len() as int) by {
            assert(rs.drop_last()[i] == rs[i]);
        }
        lemma_keep_len(dm, rs.drop_last());
        if rs.last().len() > 2 {
            assert(keep_nonempty(rs).drop_last() == keep_nonempty(rs.drop_last()));
        }
    }
}

/// The state of a solution together with what the passes promise of it: its
/// customers and length against those of the solution they started from, and
/// that each route is one of its routes or meets its time windows.
pub open spec fn so_progress(
    dm: Seq<Vec<i32>>,
    rt: Seq<i32>,
    dt: Seq<i32>,
    st: i32,
    demands: Seq<i32>,
    cap: int,
    ors: Seq<Seq<usize>>,
    rs: Seq<Seq<usize>>,
    rd: Seq<i32>,
) -> bool {
    &&& so_state(dm, rt, dt, st, demands, rs, rd)
    &&& all_custs(rs) == all_custs(ors)
    &&& total_len(dm, rs) <= total_len(dm, ors)
    &&& forall|k: int| 0 <= k < rs.len() ==> ors.contains(#[trigger] rs[k])
        || route_tw_ok(dm, rt, dt, st as int, rs[k]) && rd[k] <= cap
}

/// Applying a valid tail swap of routes `r1` and `r2` and dropping the routes
/// left without customers keeps the state and the customers, shortens the
/// solution, and leaves only routes of the solution or routes within their time
/// windows, all with customers.
proof fn lemma_apply_so_tail_swap(
    dm: Seq<Vec<i32>>,
    rt: Seq<i32>,
    dt: Seq<i32>,
    st: i32,
    demands: Seq<i32>,
    cap: int,
    ors: Seq<Seq<usize>>,
    rs: Seq<Seq<usize>>,
    rd: Seq<i32>,
    r1: int,
    r2: int,
    i: int,
    j: int,
    d1: i32,
    d2: i32,
)
    requires
        so_progress(dm, rt, dt, st, demands, cap, ors, rs, rd),
        0 <= r1 < r2 < rs.len(),
        so_tos_valid(dm, rt, dt, st as int, demands, cap, rs[r1], rs[r2], i, j),
        d1 == demand_sum(demands, inner(tail_swap(rs[r1], rs[r2], i, j))),
        d2 == demand_sum(demands, inner(tail_swap(rs[r2], rs[r1], j, i))),
    ensures
        ({
            let u = rs.update(r1, tail_swap(rs[r1], rs[r2], i, j)).update(r2, tail_swap(rs[r2], rs[r1], j, i));
            let ud = rd.update(r1, d1).update(r2, d2);
            &&& so_progress(dm, rt, dt, st, demands, cap, ors, keep_nonempty(u), keep_aligned(u, ud))
            &&& total_len(dm, keep_nonempty(u)) < total_len(dm, rs)
            &&& forall|k: int| 0 <= k < keep_nonempty(u).len() ==> (#[trigger] keep_nonempty(u)[k]).len() > 2
        }),
{
    let a = rs[r1];
    let b = rs[r2];
    let n1 = tail_swap(a, b, i, j);
    let n2 = tail_swap(b, a, j, i);
    let u1 = rs.update(r1, n1);
    let u = u1.update(r2, n2);
    let ud = rd.update(r1, d1).update(r2, d2);
    lemma_tail_swap_normal(a, b, i, j);
    lemma_tail_swap_normal(b, a, j, i);
    lemma_tails_custs(a, b, i, j);
    lemma_replace_two(rs, r1, r2, n1, n2);
    lemma_tail_swap_len(dm, a, b, i, j);
    lemma_total_len_update(dm, rs, r1, n1);
    lemma_total_len_update(dm, u1, r2, n2);
    assert(u1[r2] == b);
    lemma_total_nodes(rs, r1, n1);
    lemma_total_nodes(u1, r2, n2);
    assert(nodes_below(a, dm.len() as int) && nodes_below(b, dm.len() as int));
    assert(nodes_below(n1, dm.len() as int));
    assert(nodes_below(n2, dm.len() as int));
    let p = |r: Seq<usize>, d: i32| proper(r) && nodes_below(r, dm.len() as int) && d == demand_sum(demands, inner(r))
        && (ors.contains(r) || route_tw_ok(dm, rt, dt, st as int, r) && d <= cap || r.len() <= 2);
    assert forall|k: int| 0 <= k < u.len() implies #[trigger] p(u[k], ud[k]) by {
        if k != r1 && k != r2 {
            assert(u[k] == rs[k]);
            assert(ud[k] == rd[k]);
        }
    }
    lemma_keep_aligned_pairs(u, ud, p);
    assert(short_routes_empty(u)) by {
        assert forall|x: int, k: int| 0 <= x < u.len() && u[x].len() <= 2 && 0 <= k < u[x].len() implies #[trigger] u[x][k] == 0 by {
            assert(p(u[x], ud[x]));
        }
    }
    lemma_keep_nonempty_custs(u);
    lemma_keep_nonempty_members(u);
    assert forall|k: int| 0 <= k < u.len() implies nodes_below(#[trigger] u[k], dm.len() as int) by {
        assert(p(u[k], ud[k]));
    }
    lemma_keep_len(dm, u);
    let kn = keep_nonempty(u);
    let ka = keep_aligned(u, ud);
    assert forall|k: int| 0 <= k < kn.len() implies proper(#[trigger] kn[k]) && nodes_below(kn[k], dm.len() as int)
        && ka[k] == demand_sum(demands, inner(kn[k])) by {
        assert(p(kn[k], ka[k]));
    }
    assert forall|k: int| 0 <= k < kn.len() implies ors.contains(#[trigger] kn[k]) || route_tw_ok(dm, rt, dt, st as int, kn[k]) && ka[k] <= cap by {
        assert(p(kn[k], ka[k]));
    }
}

/// First-improvement 2-opt* between routes: sweeps the pairs `r1 < r2`, applies
/// the first valid tail swap of a pair (see `first_tail_swap`), drops the routes
/// left without customers and moves on to the next `r1`; repeats sweeps while one
/// applied a swap. Stops once the time budget since `start` is spent, checked
/// before each sweep and during the scans. Reports whether it applied any swap.
pub fn two_opt_star_between_routes(
    routes: &mut Vec<Vec<usize>>,
    route_demand: &mut Vec<i32>,
    dm: &[Vec<i32>],
    rt: &[i32],
    dt: &[i32],
    st: i32,
    demands: &[i32],
    cap: i32,
    start: &Instant,
    budget: &Duration,
) -> (res: bool)
    requires
        so_state(dm@, rt@, dt@, st, demands@, rv(old(routes)@), old(route_demand)@),
    ensures
        so_progress(dm@, rt@, dt@, st, demands@, cap as int, rv(old(routes)@), rv(final(routes)@), final(route_demand)@),
        res ==> total_len(dm@, rv(final(routes)@)) < total_len(dm@, rv(old(routes)@)),
        res ==> forall|k: int| 0 <= k < final(routes)@.len() ==> (#[trigger] final(routes)@[k]@).len() > 2,
        !res ==> rv(final(routes)@) == rv(old(routes)@) && final(route_demand)@ == old(route_demand)@,
{
    let ghost ors = rv(routes@);
    let ghost ord = route_demand@;
    let mut any_improved = false;
    let mut improved = true;
    proof {
        assert forall|k: int| 0 <= k < ors.len() implies ors.contains(#[trigger] ors[k]) || route_tw_ok(dm@, rt@, dt@, st as int, ors[k]) by {
        }
        assert forall|k: int| 0 <= k < ors.len() implies nodes_below(#[trigger] ors[k], dm@.len() as int) by {
        }
        lemma_total_len_nonneg_dm(dm@, ors);
    }
    while improved
        invariant
            so_progress(dm@, rt@, dt@, st, demands@, cap as int, ors, rv(routes@), route_demand@),
            total_len(dm@, rv(routes@)) >= 0,
            any_improved ==> total_len(dm@, rv(routes@)) < total_len(dm@, ors),
            any_improved ==> forall|k: int| 0 <= k < routes@.len() ==> (#[trigger] routes@[k]@).len() > 2,
            !any_improved ==> rv(routes@) == ors && route_demand@ == ord,
        decreases total_len(dm@, rv(routes@)) + (if improved { 1int } else { 0int }),
    {
        let ghost l0 = total_len(dm@, rv(routes@));
        let ghost s0 = rv(routes@);
        improved = false;
        if at_least(&elapsed_since(start), budget) {
            break;
        }
        let nroutes = routes.len();
        let mut stop = false;
        let mut r1: usize = 0;
        while r1 < nroutes && !stop
            invariant
                so_progress(dm@, rt@, dt@, st, demands@, cap as int, ors, rv(routes@), route_demand@),
                total_len(dm@, rv(routes@)) >= 0,
                any_improved ==> total_len(dm@, rv(routes@)) < total_len(dm@, ors),
                any_improved ==> forall|k: int| 0 <= k < routes@.len() ==> (#[trigger] routes@[k]@).len() > 2,
                !any_improved ==> rv(routes@) == ors && route_demand@ == ord,
                improved ==> total_len(dm@, rv(routes@)) < l0,
                !improved ==> rv(routes@) == s0,
                improved ==> any_improved,
                l0 == total_len(dm@, s0),
            decreases nroutes - r1,
        {
            if r1 >= routes.len() {
                break;
            }
            let mut moved = false;
            let mut r2: usize = r1 + 1;
            while r2 < nroutes && !moved && !stop
                invariant
                    so_progress(dm@, rt@, dt@, st, demands@, cap as int, ors, rv(routes@), route_demand@),
                    r1 < routes@.len() || moved,
                    r1 < r2,
                    total_len(dm@, rv(routes@)) >= 0,
                    any_improved ==> total_len(dm@, rv(routes@)) < total_len(dm@, ors),
                    any_improved ==> forall|k: int| 0 <= k < routes@.len() ==> (#[trigger] routes@[k]@).len() > 2,
                    !any_improved ==> rv(routes@) == ors && route_demand@ == ord,
                    improved ==> total_len(dm@, rv(routes@)) < l0,
                    !improved ==> rv(routes@) == s0,
                    improved ==> any_improved,
                    l0 == total_len(dm@, s0),
                decreases nroutes - r2,
            {
                if r2 < routes.len() {
                    let ghost rs = rv(routes@);
                    let ghost rdv = route_demand@;
                    proof {
                        lemma_total_nodes(rs, 0, rs[0]);
                        assert(rs[r1 as int].len() + rs[r2 as int].len() <= total_nodes(rs));
                        assert(rs[r1 as int] == routes@[r1 as int]@);
                        assert(rs[r2 as int] == routes@[r2 as int]@);
                    }
                    match first_tail_swap(&routes[r1], &routes[r2], dm, rt, dt, st, demands, cap, start, budget) {
                        PairScan::Found(i, j, d1, d2) => {
                            let len2 = routes[r2].len();
                            let len1 = routes[r1].len();
                            let nr1 = join_slices(&routes[r1], 0, i + 1, &routes[r2], j + 1, len2);
                            let nr2 = join_slices(&routes[r2], 0, j + 1, &routes[r1], i + 1, len1);
                            proof {
                                lemma_apply_so_tail_swap(dm@, rt@, dt@, st, demands@, cap as int, ors, rs, rdv, r1 as int, r2 as int, i as int, j as int, d1, d2);
                                lemma_total_len_nonneg_dm(dm@, rs);
                            }
                            routes.set(r1, nr1);
                            routes.set(r2, nr2);
                            route_demand.set(r1, d1);
                            route_demand.set(r2, d2);
                            let ghost u = rs.update(r1 as int, tail_swap(rs[r1 as int], rs[r2 as int], i as int, j as int)).update(
                                r2 as int,
                                tail_swap(rs[r2 as int], rs[r1 as int], j as int, i as int),
                            );
                            assert(rv(routes@) =~= u);
                            assert(route_demand@ =~= rdv.update(r1 as int, d1).update(r2 as int, d2));
                            drop_empty_aligned(routes, route_demand);
                            proof {
                                let kn = keep_nonempty(u);
                                assert forall|k: int| 0 <= k < kn.len() implies nodes_below(#[trigger] kn[k], dm@.len() as int) by {
                                }
                                lemma_total_len_nonneg_dm(dm@, kn);
                                assert forall|k: int| 0 <= k < routes@.len() implies (#[trigger] routes@[k]@).len() > 2 by {
                                    assert(rv(routes@)[k] == routes@[k]@);
                                }
                            }
                            any_improved = true;
                            improved = true;
                            moved = true;
                        },
                        PairScan::NoMove => {},
                        PairScan::TimeUp => {
                            stop = true;
                        },
                    }
                }
                r2 += 1;
            }
            r1 += 1;
        }
    }
    any_improved
}

/// One 2-opt* sweep, with no time limit: the pairs `r1 < r2`, applying the
/// first valid tail swap of a pair (see `first_tail_swap_full`), dropping the
/// routes left without customers and moving on to the next `r1`. Reports whether
/// it applied a swap; when it did not, no pair of routes admits a valid one.
pub fn two_opt_star_sweep(
    routes: &mut Vec<Vec<usize>>,
    route_demand: &mut Vec<i32>,
    dm: &[Vec<i32>],
    rt: &[i32],
    dt: &[i32],
    st: i32,
    demands: &[i32],
    cap: i32,
) -> (moved: bool)
    requires
        so_state(dm@, rt@, dt@, st, demands@, rv(old(routes)@), old(route_demand)@),
    ensures
        so_progress(dm@, rt@, dt@, st, demands@, cap as int, rv(old(routes)@), rv(final(routes)@), final(route_demand)@),
        moved ==> total_len(dm@, rv(final(routes)@)) < total_len(dm@, rv(old(routes)@)),
        moved ==> forall|k: int| 0 <= k < final(routes)@.len() ==> (#[trigger] final(routes)@[k]@).len() > 2,
        !moved ==> rv(final(routes)@) == rv(old(routes)@) && final(route_demand)@ == old(route_demand)@,
        !moved ==> forall|r1: int, r2: int, i: int, j: int| 0 <= r1 < r2 < old(routes)@.len() ==>
            !#[trigger] so_tos_valid(dm@, rt@, dt@, st as int, demands@, cap as int, rv(old(routes)@)[r1], rv(old(routes)@)[r2], i, j),
{
    let ghost ors = rv(routes@);
    let ghost ord = route_demand@;
    let mut moved_any = false;
    proof {
        assert forall|k: int| 0 <= k < ors.len() implies ors.contains(#[trigger] ors[k]) || route_tw_ok(dm@, rt@, dt@, st as int, ors[k]) && ord[k] <= cap by {
        }
        assert forall|k: int| 0 <= k < ors.len() implies nodes_below(#[trigger] ors[k], dm@.len() as int) by {
        }
        lemma_total_len_nonneg_dm(dm@, ors);
    }
    let nroutes = routes.len();
    let mut r1: usize = 0;
    while r1 < nroutes
        invariant
            so_progress(dm@, rt@, dt@, st, demands@, cap as int, ors, rv(routes@), route_demand@),
            ors == rv(old(routes)@),
            ord == old(route_demand)@,
            nroutes == ors.len(),
            total_len(dm@, rv(routes@)) >= 0,
            moved_any ==> total_len(dm@, rv(routes@)) < total_len(dm@, ors),
            moved_any ==> forall|k: int| 0 <= k < routes@.len() ==> (#[trigger] routes@[k]@).len() > 2,
            !moved_any ==> rv(routes@) == ors && route_demand@ == ord,
            !moved_any ==> forall|a: int, b: int, i: int, j: int| 0 <= a < r1 && a < b < nroutes ==>
                !#[trigger] so_tos_valid(dm@, rt@, dt@, st as int, demands@, cap as int, ors[a], ors[b], i, j),
        ensures
            !moved_any ==> r1 >= nroutes,
            so_progress(dm@, rt@, dt@, st, demands@, cap as int, ors, rv(routes@), route_demand@),
            moved_any ==> total_len(dm@, rv(routes@)) < total_len(dm@, ors),
            moved_any ==> forall|k: int| 0 <= k < routes@.len() ==> (#[trigger] routes@[k]@).len() > 2,
            !moved_any ==> rv(routes@) == ors && route_demand@ == ord,
            !moved_any ==> forall|a: int, b: int, i: int, j: int| 0 <= a < r1 && a < b < nroutes ==>
                !#[trigger] so_tos_valid(dm@, rt@, dt@, st as int, demands@, cap as int, ors[a], ors[b], i, j),
        decreases nroutes - r1,
    {
        if r1 >= routes.len() {
            break;
        }
        let mut moved = false;
        let mut r2: usize = r1 + 1;
        while r2 < nroutes && !moved
            invariant
                so_progress(dm@, rt@, dt@, st, demands@, cap as int, ors, rv(routes@), route_demand@),
                ors == rv(old(routes)@),
                ord == old(route_demand)@,
                nroutes == ors.len(),
                r1 < routes@.len() || moved,
                r1 < r2,
                r1 < nroutes,
                moved ==> moved_any,
                total_len(dm@, rv(routes@)) >= 0,
                moved_any ==> total_len(dm@, rv(routes@)) < total_len(dm@, ors),
                moved_any ==> forall|k: int| 0 <= k < routes@.len() ==> (#[trigger] routes@[k]@).len() > 2,
                !moved_any ==> rv(routes@) == ors && route_demand@ == ord,
                !moved_any ==> forall|a: int, b: int, i: int, j: int| (0 <= a < r1 && a < b < nroutes || a == r1 && a < b < r2) ==>
                    !#[trigger] so_tos_valid(dm@, rt@, dt@, st as int, demands@, cap as int, ors[a], ors[b], i, j),
            decreases nroutes - r2,
        {
            if r2 < routes.len() {
                let ghost rs = rv(routes@);
                let ghost rdv = route_demand@;
                proof {
                    lemma_total_nodes(rs, 0, rs[0]);
                    assert(rs[r1 as int].len() + rs[r2 as int].len() <= total_nodes(rs));
                    assert(rs[r1 as int] == routes@[r1 as int]@);
                    assert(rs[r2 as int] == routes@[r2 as int]@);
                }
                match first_tail_swap_full(&routes[r1], &routes[r2], dm, rt, dt, st, demands, cap) {
                    Some((i, j, d1, d2)) => {
                        let len2 = routes[r2].len();
                        let len1 = routes[r1].len();
                        let nr1 = join_slices(&routes[r1], 0, i + 1, &routes[r2], j + 1, len2);
                        let nr2 = join_slices(&routes[r2], 0, j + 1, &routes[r1], i + 1, len1);
                        proof {
                            lemma_apply_so_tail_swap(dm@, rt@, dt@, st, demands@, cap as int, ors, rs, rdv, r1 as int, r2 as int, i as int, j as int, d1, d2);
                            lemma_total_len_nonneg_dm(dm@, rs);
                        }
                        routes.set(r1, nr1);
                        routes.set(r2, nr2);
                        route_demand.set(r1, d1);
                        route_demand.set(r2, d2);
                        let ghost u = rs.update(r1 as int, tail_swap(rs[r1 as int], rs[r2 as int], i as int, j as int)).update(
                            r2 as int,
                            tail_swap(rs[r2 as int], rs[r1 as int], j as int, i as int),
                        );
                        assert(rv(routes@) =~= u);
                        assert(route_demand@ =~= rdv.update(r1 as int, d1).update(r2 as int, d2));
                        drop_empty_aligned(routes, route_demand);
                        proof {
                            let kn = keep_nonempty(u);
                            assert forall|k: int| 0 <= k < kn.len() implies nodes_below(#[trigger] kn[k], dm@.len() as int) by {
                            }
                            lemma_total_len_nonneg_dm(dm@, kn);
                            assert forall|k: int| 0 <= k < routes@.len() implies (#[trigger] routes@[k]@).len() > 2 by {
                                assert(rv(routes@)[k] == routes@[k]@);
                            }
                        }
                        moved_any = true;
                        moved = true;
                    },
                    None => {},
                }
            } else {
                proof {
                    assert(moved_any);
                }
            }
            r2 += 1;
        }
        r1 += 1;
    }
    proof {
        if !moved_any {
            assert forall|a: int, b: int, i: int, j: int| 0 <= a < b < nroutes implies
                !#[trigger] so_tos_valid(dm@, rt@, dt@, st as int, demands@, cap as int, ors[a], ors[b], i, j) by {
                assert(a < r1);
            }
        }
    }
    moved_any
}

/// A route's customers do not depend on the direction it is walked.
pub proof fn lemma_custs_reverse(s: Seq<usize>)
    ensures
        custs(s.reverse()) == custs(s),
    decreases s.len(),
{
    if s.len() > 0 {
        let t = s.drop_last();
        let x = s.last();
        assert(s.reverse() =~= seq![x] + t.reverse());
        lemma_custs_reverse(t);
        crate::model::lemma_custs_concat(seq![x], t.reverse());
        assert(seq![x].drop_last() =~= Seq::<usize>::empty());
        assert(seq![x].last() == x);
        assert(custs(Seq::<usize>::empty()) =~= vstd::multiset::Multiset::empty());
        assert(custs(seq![x]) =~= crate::model::cust1(x)) by {
            broadcast use vstd::multiset::group_multiset_axioms;
        }
        assert(custs(s.reverse()) =~= custs(s)) by {
            broadcast use vstd::multiset::group_multiset_axioms;
        }
    }
}

/// A sequence's demand does not depend on the direction it is walked.
pub proof fn lemma_demand_sum_reverse(demands: Seq<i32>, s: Seq<usize>)
    ensures
        demand_sum(demands, s.reverse()) == demand_sum(demands, s),
    decreases s.len(),
{
    if s.len() > 0 {
        let t = s.drop_last();
        let x = s.last();
        assert(s.reverse() =~= seq![x] + t.reverse());
        lemma_demand_sum_reverse(demands, t);
        lemma_demand_sum_concat(demands, seq![x], t.reverse());
        assert(seq![x].drop_last() =~= Seq::<usize>::empty());
        assert(seq![x].last() == x);
        assert(demand_sum(demands, Seq::<usize>::empty()) == 0);
        assert(demand_sum(demands, seq![x]) == demands[x as int]);
    }
}

/// Removing a route removes its length.
pub proof fn lemma_total_len_remove(dm: Seq<Vec<i32>>, rs: Seq<Seq<usize>>, k: int)
    requires
        0 <= k < rs.len(),
    ensures
        total_len(dm, rs.remove(k)) == total_len(dm, rs) - route_len(dm, rs[k]),
    decreases rs.len(),
{
    if k == rs.len() - 1 {
        assert(rs.remove(k) =~= rs.drop_last());
    } else {
        assert(rs.remove(k).drop_last() =~= rs.drop_last().remove(k));
        lemma_total_len_remove(dm, rs.drop_last(), k);
    }
}

/// The routes and recorded demands satisfy the state of the passes, and keep the
/// customers and at most the length of the solution they started from.
pub open spec fn so_kept(
    dm: Seq<Vec<i32>>,
    rt: Seq<i32>,
    dt: Seq<i32>,
    st: i32,
    demands: Seq<i32>,
    ors: Seq<Seq<usize>>,
    rs: Seq<Seq<usize>>,
    rd: Seq<i32>,
) -> bool {
    &&& so_state(dm, rt, dt, st, demands, rs, rd)
    &&& all_custs(rs) == all_custs(ors)
    &&& total_len(dm, rs) <= total_len(dm, ors)
}

/// The `len` nodes of route `r` from position `i` on.
pub open spec fn seg_of(r: Seq<usize>, i: int, len: int) -> Seq<usize> {
    r.subrange(i, i + len)
}

/// What removing the segment of `len` nodes at `i` from route `sr` saves.
pub open spec fn removal_gain(dm: Seq<Vec<i32>>, sr: Seq<usize>, i: int, len: int) -> int {
    dd(dm, sr[i - 1], sr[i]) + dd(dm, sr[i + len - 1], sr[i + len]) - dd(dm, sr[i - 1], sr[i + len])
}

/// Change of length of moving that segment, reversed when `rev`, into route `dr`
/// before position `p`.
pub open spec fn move_delta(dm: Seq<Vec<i32>>, sr: Seq<usize>, i: int, len: int, dr: Seq<usize>, p: int, rev: bool) -> int {
    let s0 = sr[i];
    let s1 = sr[i + len - 1];
    let a = dr[p - 1];
    let b = dr[p];
    if rev {
        dd(dm, a, s1) + dd(dm, s0, b) - dd(dm, a, b) - removal_gain(dm, sr, i, len)
    } else {
        dd(dm, a, s0) + dd(dm, s1, b) - dd(dm, a, b) - removal_gain(dm, sr, i, len)
    }
}

/// Route `r` with `chain` inserted before position `p`.
pub open spec fn spliced(r: Seq<usize>, p: int, chain: Seq<usize>) -> Seq<usize> {
    r.subrange(0, p) + chain + r.subrange(p, r.len() as int)
}

/// Moving the segment of `len` nodes at `i` of route `src` into route `dst` before
/// `p`, reversed when `rev`, shortens the solution, keeps `dst` within `cap` by its
/// recorded demand and gives a `dst` within its time windows.
pub open spec fn move_valid(
    dm: Seq<Vec<i32>>,
    rt: Seq<i32>,
    dt: Seq<i32>,
    st: int,
    demands: Seq<i32>,
    cap: int,
    rs: Seq<Seq<usize>>,
    rd: Seq<i32>,
    src: int,
    i: int,
    len: int,
    dst: int,
    p: int,
    rev: bool,
) -> bool {
    &&& 0 <= dst < rs.len()
    &&& dst != src
    &&& rd[dst] + demand_sum(demands, seg_of(rs[src], i, len)) <= cap
    &&& 1 <= p < rs[dst].len()
    &&& (rev ==> len > 1)
    &&& move_delta(dm, rs[src], i, len, rs[dst], p, rev) < 0
    &&& route_tw_ok(dm, rt, dt, st, spliced(rs[dst], p, crate::sharp_orbit::oriented(seg_of(rs[src], i, len), rev)))
}

/// Candidate `(d2, p2, v2)` comes before `(d, p, v)`: by route, then position,
/// then the forward move before the reversed one.
pub open spec fn cand_before(d2: int, p2: int, v2: bool, d: int, p: int, v: bool) -> bool {
    d2 < d || d2 == d && (p2 < p || p2 == p && !v2 && v)
}

/// The best move of the segment of `seg_len` nodes at `i` of route `src` (whose
/// nodes are `chain` and demand `seg_demand`) into another route: valid, no
/// longer than any other valid one, and strictly shorter than every valid one
/// before it.
fn best_segment_move(
    routes: &Vec<Vec<usize>>,
    route_demand: &Vec<i32>,
    src: usize,
    i: usize,
    seg_len: usize,
    chain: &Vec<usize>,
    seg_demand: i32,
    dm: &[Vec<i32>],
    rt: &[i32],
    dt: &[i32],
    st: i32,
    demands: &[i32],
    cap: i32,
) -> (res: Option<(usize, usize, bool)>)
    requires
        so_state(dm@, rt@, dt@, st, demands@, rv(routes@), route_demand@),
        src < routes@.len(),
        1 <= seg_len <= 3,
        1 <= i,
        i + seg_len + 1 <= routes@[src as int]@.len(),
        chain@ == seg_of(routes@[src as int]@, i as int, seg_len as int),
        seg_demand == demand_sum(demands@, chain@),
        0 <= seg_demand <= 300_000,
    ensures
        res matches Some((d, p, v)) ==> {
            &&& move_valid(dm@, rt@, dt@, st as int, demands@, cap as int, rv(routes@), route_demand@, src as int, i as int, seg_len as int, d as int, p as int, v)
            &&& forall|d2: int, p2: int, v2: bool| #[trigger] move_valid(dm@, rt@, dt@, st as int, demands@, cap as int, rv(routes@), route_demand@, src as int, i as int, seg_len as int, d2, p2, v2)
                ==> move_delta(dm@, routes@[src as int]@, i as int, seg_len as int, routes@[d as int]@, p as int, v)
                    <= move_delta(dm@, routes@[src as int]@, i as int, seg_len as int, routes@[d2]@, p2, v2)
            &&& forall|d2: int, p2: int, v2: bool| cand_before(d2, p2, v2, d as int, p as int, v)
                && #[trigger] move_valid(dm@, rt@, dt@, st as int, demands@, cap as int, rv(routes@), route_demand@, src as int, i as int, seg_len as int, d2, p2, v2)
                ==> move_delta(dm@, routes@[src as int]@, i as int, seg_len as int, routes@[d as int]@, p as int, v)
                    < move_delta(dm@, routes@[src as int]@, i as int, seg_len as int, routes@[d2]@, p2, v2)
        },
        res is None ==> forall|d2: int, p2: int, v2: bool|
            !#[trigger] move_valid(dm@, rt@, dt@, st as int, demands@, cap as int, rv(routes@), route_demand@, src as int, i as int, seg_len as int, d2, p2, v2),
{
    let ghost rs = rv(routes@);
    let ghost sr = rs[src as int];
    let ghost dmv = dm@;
    let sroute = &routes[src];
    assert(rs[src as int] == routes@[src as int]@);
    assert(sroute@ == sr);
    assert(i + seg_len + 1 <= sroute@.len());
    let slen = sroute.len();
    let s0 = sroute[i];
    let s1 = sroute[i + seg_len - 1];
    let prev = sroute[i - 1];
    let next = sroute[i + seg_len];
    proof {
        assert(nodes_below(sr, dmv.len() as int));
        assert(in_limit(dmv[prev as int]@[s0 as int]));
        assert(in_limit(dmv[s1 as int]@[next as int]));
        assert(in_limit(dmv[prev as int]@[next as int]));
        assert(nodes_below(chain@, dmv.len() as int));
    }
    let remove_gain = dm[prev][s0] + dm[s1][next] - dm[prev][next];
    assert(remove_gain == removal_gain(dmv, sr, i as int, seg_len as int));
    let mut best: Option<(usize, usize, i32, bool)> = None;
    let mut dst: usize = 0;
    while dst < routes.len()
        invariant
            so_state(dm@, rt@, dt@, st, demands@, rs, route_demand@),
            rs == rv(routes@),
            dmv == dm@,
            src < routes@.len(),
            1 <= seg_len <= 3,
            1 <= i,
            i + seg_len + 1 <= sr.len(),
            sr == rs[src as int],
            s0 == sr[i as int],
            s1 == sr[i + seg_len - 1],
            chain@ == seg_of(sr, i as int, seg_len as int),
            nodes_below(chain@, dmv.len() as int),
            seg_demand == demand_sum(demands@, chain@),
            0 <= seg_demand <= 300_000,
            remove_gain == removal_gain(dmv, sr, i as int, seg_len as int),
            -200_000 <= remove_gain <= 200_000,
            dst <= routes@.len(),
            best matches Some(bb) ==> {
                &&& (bb.0 as int) < dst
                &&& move_valid(dmv, rt@, dt@, st as int, demands@, cap as int, rs, route_demand@, src as int, i as int, seg_len as int, bb.0 as int, bb.1 as int, bb.3)
                &&& bb.2 == move_delta(dmv, sr, i as int, seg_len as int, rs[bb.0 as int], bb.1 as int, bb.3)
                &&& forall|d2: int, p2: int, v2: bool| d2 < dst && #[trigger] move_valid(dmv, rt@, dt@, st as int, demands@, cap as int, rs, route_demand@, src as int, i as int, seg_len as int, d2, p2, v2)
                    ==> bb.2 <= move_delta(dmv, sr, i as int, seg_len as int, rs[d2], p2, v2)
                &&& forall|d2: int, p2: int, v2: bool| cand_before(d2, p2, v2, bb.0 as int, bb.1 as int, bb.3)
                    && #[trigger] move_valid(dmv, rt@, dt@, st as int, demands@, cap as int, rs, route_demand@, src as int, i as int, seg_len as int, d2, p2, v2)
                    ==> bb.2 < move_delta(dmv, sr, i as int, seg_len as int, rs[d2], p2, v2)
            },
            best is None ==> forall|d2: int, p2: int, v2: bool| d2 < dst
                ==> !#[trigger] move_valid(dmv, rt@, dt@, st as int, demands@, cap as int, rs, route_demand@, src as int, i as int, seg_len as int, d2, p2, v2),
        decreases routes.len() - dst,
    {
        if dst != src {
            let dr = &routes[dst];
            assert(dr@ == rs[dst as int]);
            proof {
                lemma_demand_sum_bounds(demands@, inner(dr@));
                lemma_total_nodes(rs, 0, rs[0]);
                assert(dr@.len() <= LEN_LIMIT);
                assert(100_000 * inner(dr@).len() <= 100_000 * LEN_LIMIT) by (nonlinear_arith)
                    requires
                        inner(dr@).len() <= LEN_LIMIT,
                ;
            }
            if route_demand[dst] + seg_demand <= cap {
                let dr_len = dr.len();
                let mut p: usize = 1;
                while p < dr_len
                    invariant
                        so_state(dm@, rt@, dt@, st, demands@, rs, route_demand@),
                        rs == rv(routes@),
                        dmv == dm@,
                        src < routes@.len(),
                        dst < routes@.len(),
                        dst != src,
                        dr@ == rs[dst as int],
                        dr_len == dr@.len(),
                        route_demand@[dst as int] + seg_demand <= cap,
                        1 <= seg_len <= 3,
                        1 <= i,
                        i + seg_len + 1 <= sr.len(),
                        sr == rs[src as int],
                        s0 == sr[i as int],
                        s1 == sr[i + seg_len - 1],
                        chain@ == seg_of(sr, i as int, seg_len as int),
                        nodes_below(chain@, dmv.len() as int),
                        seg_demand == demand_sum(demands@, chain@),
                        remove_gain == removal_gain(dmv, sr, i as int, seg_len as int),
                        -200_000 <= remove_gain <= 200_000,
                        1 <= p <= dr_len,
                        best matches Some(bb) ==> {
                            &&& (bb.0 as int) <= dst
                            &&& (bb.0 == dst ==> bb.1 < p)
                            &&& move_valid(dmv, rt@, dt@, st as int, demands@, cap as int, rs, route_demand@, src as int, i as int, seg_len as int, bb.0 as int, bb.1 as int, bb.3)
                            &&& bb.2 == move_delta(dmv, sr, i as int, seg_len as int, rs[bb.0 as int], bb.1 as int, bb.3)
                            &&& forall|d2: int, p2: int, v2: bool| (d2 < dst || d2 == dst && p2 < p)
                                && #[trigger] move_valid(dmv, rt@, dt@, st as int, demands@, cap as int, rs, route_demand@, src as int, i as int, seg_len as int, d2, p2, v2)
                                ==> bb.2 <= move_delta(dmv, sr, i as int, seg_len as int, rs[d2], p2, v2)
                            &&& forall|d2: int, p2: int, v2: bool| cand_before(d2, p2, v2, bb.0 as int, bb.1 as int, bb.3)
                                && #[trigger] move_valid(dmv, rt@, dt@, st as int, demands@, cap as int, rs, route_demand@, src as int, i as int, seg_len as int, d2, p2, v2)
                                ==> bb.2 < move_delta(dmv, sr, i as int, seg_len as int, rs[d2], p2, v2)
                        },
                        best is None ==> forall|d2: int, p2: int, v2: bool| (d2 < dst || d2 == dst && p2 < p)
                            ==> !#[trigger] move_valid(dmv, rt@, dt@, st as int, demands@, cap as int, rs, route_demand@, src as int, i as int, seg_len as int, d2, p2, v2),
                    decreases dr_len - p,
                {
                    let a = dr[p - 1];
                    let b = dr[p];
                    proof {
                        assert(nodes_below(dr@, dmv.len() as int));
                        assert(in_limit(dmv[a as int]@[b as int]));
                        assert(in_limit(dmv[a as int]@[s0 as int]));
                        assert(in_limit(dmv[s1 as int]@[b as int]));
                        assert(in_limit(dmv[a as int]@[s1 as int]));
                        assert(in_limit(dmv[s0 as int]@[b as int]));
                        crate::sharp_orbit::law_chain_insert_matches_route_check(dmv, rt@, dt@, st as int, dr@, p as int,
                            crate::sharp_orbit::oriented(chain@, false));
                        crate::sharp_orbit::law_chain_insert_matches_route_check(dmv, rt@, dt@, st as int, dr@, p as int,
                            crate::sharp_orbit::oriented(chain@, true));
                        assert(proper(dr@));
                    }
                    let old_edge = dm[a][b];
                    let add_fw = dm[a][s0] + dm[s1][b] - old_edge;
                    let d_fw = add_fw - remove_gain;
                    assert(d_fw == move_delta(dmv, sr, i as int, seg_len as int, dr@, p as int, false));
                    let better_fw = match best {
                        None => true,
                        Some(bb) => d_fw < bb.2,
                    };
                    if d_fw < 0 && better_fw {
                        if crate::sharp_orbit::chain_insert_tw_feasible(dr, p, chain, dm, rt, dt, st, false) {
                            best = Some((dst, p, d_fw, false));
                        }
                    }
                    if seg_len > 1 {
                        let add_rv = dm[a][s1] + dm[s0][b] - old_edge;
                        let d_rv = add_rv - remove_gain;
                        assert(d_rv == move_delta(dmv, sr, i as int, seg_len as int, dr@, p as int, true));
                        let better_rv = match best {
                            None => true,
                            Some(bb) => d_rv < bb.2,
                        };
                        if d_rv < 0 && better_rv {
                            if crate::sharp_orbit::chain_insert_tw_feasible(dr, p, chain, dm, rt, dt, st, true) {
                                best = Some((dst, p, d_rv, true));
                            }
                        }
                    }
                    p += 1;
                }
            }
        }
        dst += 1;
    }
    match best {
        Some(bb) => Some((bb.0, bb.1, bb.3)),
        None => None,
    }
}

/// Route `r` with `chain` inserted before position `p`.
pub(crate) fn splice_vec(r: &Vec<usize>, p: usize, chain: &Vec<usize>) -> (res: Vec<usize>)
    requires
        p <= r@.len(),
    ensures
        res@ == spliced(r@, p as int, chain@),
{
    let mut out: Vec<usize> = Vec::new();
    let mut k: usize = 0;
    while k < p
        invariant
            k <= p,
            p <= r@.len(),
            out@ == r@.subrange(0, k as int),
        decreases p - k,
    {
        out.push(r[k]);
        k += 1;
        assert(out@ =~= r@.subrange(0, k as int));
    }
    let mut q: usize = 0;
    while q < chain.len()
        invariant
            q <= chain@.len(),
            p <= r@.len(),
            out@ == r@.subrange(0, p as int) + chain@.subrange(0, q as int),
        decreases chain.len() - q,
    {
        out.push(chain[q]);
        q += 1;
        assert(out@ =~= r@.subrange(0, p as int) + chain@.subrange(0, q as int));
    }
    assert(chain@.subrange(0, q as int) =~= chain@);
    let mut k2: usize = p;
    while k2 < r.len()
        invariant
            p <= k2 <= r@.len(),
            out@ == r@.subrange(0, p as int) + chain@ + r@.subrange(p as int, k2 as int),
        decreases r.len() - k2,
    {
        out.push(r[k2]);
        k2 += 1;
        assert(out@ =~= r@.subrange(0, p as int) + chain@ + r@.subrange(p as int, k2 as int));
    }
    out
}

/// The nodes of `chain` in reverse order.
pub(crate) fn reversed_vec(chain: &Vec<usize>) -> (res: Vec<usize>)
    ensures
        res@ == chain@.reverse(),
{
    let mut out: Vec<usize> = Vec::new();
    let mut k: usize = chain.len();
    while k > 0
        invariant
            k <= chain@.len(),
            out@ == chain@.subrange(k as int, chain@.len() as int).reverse(),
        decreases k,
    {
        k -= 1;
        out.push(chain[k]);
        assert(out@ =~= chain@.subrange(k as int, chain@.len() as int).reverse());
    }
    assert(chain@.subrange(0, chain@.len() as int) =~= chain@);
    out
}

/// Route `sr` without its segment of `len` nodes at `i`.
pub open spec fn cut_out(sr: Seq<usize>, i: int, len: int) -> Seq<usize> {
    sr.subrange(0, i) + sr.subrange(i + len, sr.len() as int)
}

/// The length change of a segment move is its computed change (for a reversed
/// segment, because the distances are symmetric).
pub(crate) proof fn lemma_move_len(dm: Seq<Vec<i32>>, rs: Seq<Seq<usize>>, src: int, i: int, len: int, dst: int, p: int, rev: bool)
    requires
        symmetric(dm),
        0 <= src < rs.len(),
        0 <= dst < rs.len(),
        src != dst,
        1 <= len,
        1 <= i,
        i + len + 1 <= rs[src].len(),
        1 <= p < rs[dst].len(),
        nodes_below(rs[src], dm.len() as int),
    ensures
        total_len(dm, rs.update(src, cut_out(rs[src], i, len)).update(dst, spliced(rs[dst], p, crate::sharp_orbit::oriented(seg_of(rs[src], i, len), rev))))
            == total_len(dm, rs) + move_delta(dm, rs[src], i, len, rs[dst], p, rev),
{
    let sr = rs[src];
    let dr = rs[dst];
    let sg = seg_of(sr, i, len);
    let c = crate::sharp_orbit::oriented(sg, rev);
    let ns = cut_out(sr, i, len);
    let nd = spliced(dr, p, c);
    let u1 = rs.update(src, ns);
    let pp = sr.subrange(0, i);
    let qq = sr.subrange(i + len, sr.len() as int);
    let aa = dr.subrange(0, p);
    let bb = dr.subrange(p, dr.len() as int);
    assert(sr =~= (pp + sg) + qq);
    assert(dr =~= aa + bb);
    assert(ns =~= pp + qq);
    assert(nodes_below(sg, dm.len() as int));
    lemma_route_len_concat(dm, pp + sg, qq);
    lemma_route_len_concat(dm, pp, sg);
    lemma_route_len_concat(dm, pp, qq);
    lemma_route_len_concat(dm, aa, bb);
    lemma_route_len_concat(dm, aa + c, bb);
    lemma_route_len_concat(dm, aa, c);
    assert(nd =~= (aa + c) + bb);
    if rev {
        lemma_route_len_reverse(dm, sg);
        assert(c[0] == sr[i + len - 1]);
        assert(c.last() == sr[i]);
    } else {
        assert(c[0] == sr[i]);
        assert(c.last() == sr[i + len - 1]);
    }
    assert((pp + sg).last() == sr[i + len - 1]);
    assert((aa + c).last() == c.last());
    lemma_total_len_update(dm, rs, src, ns);
    lemma_total_len_update(dm, u1, dst, nd);
    assert(u1[dst] == dr);
}

/// A segment move keeps the customers of the two routes together.
pub(crate) proof fn lemma_move_custs(sr: Seq<usize>, dr: Seq<usize>, i: int, len: int, p: int, rev: bool)
    requires
        1 <= len,
        1 <= i,
        i + len + 1 <= sr.len(),
        1 <= p < dr.len(),
    ensures
        custs(cut_out(sr, i, len)).add(custs(spliced(dr, p, crate::sharp_orbit::oriented(seg_of(sr, i, len), rev))))
            == custs(sr).add(custs(dr)),
{
    let sg = seg_of(sr, i, len);
    let c = crate::sharp_orbit::oriented(sg, rev);
    let ns = cut_out(sr, i, len);
    let nd = spliced(dr, p, c);
    let pp = sr.subrange(0, i);
    let qq = sr.subrange(i + len, sr.len() as int);
    let aa = dr.subrange(0, p);
    let bb = dr.subrange(p, dr.len() as int);
    assert(sr =~= (pp + sg) + qq);
    assert(dr =~= aa + bb);
    assert(nd =~= (aa + c) + bb);
    lemma_custs_concat(pp + sg, qq);
    lemma_custs_concat(pp, sg);
    lemma_custs_concat(pp, qq);
    lemma_custs_concat(aa, bb);
    lemma_custs_concat(aa + c, bb);
    lemma_custs_concat(aa, c);
    if rev {
        lemma_custs_reverse(sg);
    }
    assert(custs(ns).add(custs(nd)) =~= custs(sr).add(custs(dr))) by {
        broadcast use vstd::multiset::group_multiset_axioms;
    }
}

/// A segment move moves the segment's demand from the inner nodes of the source
/// route to those of the destination route.
proof fn lemma_move_demands(demands: Seq<i32>, sr: Seq<usize>, dr: Seq<usize>, i: int, len: int, p: int, rev: bool)
    requires
        1 <= len,
        1 <= i,
        i + len + 1 <= sr.len(),
        1 <= p < dr.len(),
    ensures
        demand_sum(demands, inner(cut_out(sr, i, len))) == demand_sum(demands, inner(sr)) - demand_sum(demands, seg_of(sr, i, len)),
        demand_sum(demands, inner(spliced(dr, p, crate::sharp_orbit::oriented(seg_of(sr, i, len), rev))))
            == demand_sum(demands, inner(dr)) + demand_sum(demands, seg_of(sr, i, len)),
{
    let sg = seg_of(sr, i, len);
    let c = crate::sharp_orbit::oriented(sg, rev);
    let ns = cut_out(sr, i, len);
    let nd = spliced(dr, p, c);
    assert(inner(sr) =~= sr.subrange(1, i) + sg + sr.subrange(i + len, sr.len() - 1));
    assert(inner(ns) =~= sr.subrange(1, i) + sr.subrange(i + len, sr.len() - 1));
    lemma_demand_sum_concat(demands, sr.subrange(1, i) + sg, sr.subrange(i + len, sr.len() - 1));
    lemma_demand_sum_concat(demands, sr.subrange(1, i), sg);
    lemma_demand_sum_concat(demands, sr.subrange(1, i), sr.subrange(i + len, sr.len() - 1));
    assert(inner(dr) =~= dr.subrange(1, p) + dr.subrange(p, dr.len() - 1));
    assert(inner(nd) =~= (dr.subrange(1, p) + c) + dr.subrange(p, dr.len() - 1));
    lemma_demand_sum_concat(demands, dr.subrange(1, p), dr.subrange(p, dr.len() - 1));
    lemma_demand_sum_concat(demands, dr.subrange(1, p) + c, dr.subrange(p, dr.len() - 1));
    lemma_demand_sum_concat(demands, dr.subrange(1, p), c);
    if rev {
        lemma_demand_sum_reverse(demands, sg);
    }
}

/// A segment move between routes in normal form gives routes in normal form
/// within the instance.
pub(crate) proof fn lemma_move_normal(dm: Seq<Vec<i32>>, sr: Seq<usize>, dr: Seq<usize>, i: int, len: int, p: int, rev: bool)
    requires
        proper(sr),
        proper(dr),
        nodes_below(sr, dm.len() as int),
        nodes_below(dr, dm.len() as int),
        1 <= len,
        1 <= i,
        i + len + 1 <= sr.len(),
        1 <= p < dr.len(),
    ensures
        proper(cut_out(sr, i, len)),
        nodes_below(cut_out(sr, i, len), dm.len() as int),
        proper(spliced(dr, p, crate::sharp_orbit::oriented(seg_of(sr, i, len), rev))),
        nodes_below(spliced(dr, p, crate::sharp_orbit::oriented(seg_of(sr, i, len), rev)), dm.len() as int),
        cut_out(sr, i, len).len() == sr.len() - len,
        spliced(dr, p, crate::sharp_orbit::oriented(seg_of(sr, i, len), rev)).len() == dr.len() + len,
{
    let sg = seg_of(sr, i, len);
    let c = crate::sharp_orbit::oriented(sg, rev);
    let ns = cut_out(sr, i, len);
    let nd = spliced(dr, p, c);
    assert forall|k: int| 0 < k < ns.len() - 1 implies #[trigger] ns[k] != 0 by {
        if k < i {
            assert(ns[k] == sr[k]);
        } else {
            assert(ns[k] == sr[k + len]);
        }
    }
    assert forall|k: int| 0 <= k < ns.len() implies (#[trigger] ns[k] as int) < dm.len() by {
        if k < i {
            assert(ns[k] == sr[k]);
        } else {
            assert(ns[k] == sr[k + len]);
        }
    }
    assert forall|k: int| 0 <= k < nd.len() implies (#[trigger] nd[k] as int) < dm.len() && (0 < k < nd.len() - 1 ==> nd[k] != 0) by {
        if k < p {
            assert(nd[k] == dr[k]);
        } else if k < p + len {
            assert(c[k - p] == nd[k]);
            if rev {
                assert(c[k - p] == sg[len - 1 - (k - p)]);
                assert(sg[len - 1 - (k - p)] == sr[i + len - 1 - (k - p)]);
            } else {
                assert(c[k - p] == sr[i + (k - p)]);
            }
        } else {
            assert(nd[k] == dr[k - len]);
        }
    }
}

/// Moving a valid segment keeps the pass state, the customers and the recorded
/// demands exact, and shortens the solution; dropping a source route left
/// without customers keeps all of that.
proof fn lemma_apply_segment_move(
    dm: Seq<Vec<i32>>,
    rt: Seq<i32>,
    dt: Seq<i32>,
    st: i32,
    demands: Seq<i32>,
    cap: int,
    ors: Seq<Seq<usize>>,
    rs: Seq<Seq<usize>>,
    rd: Seq<i32>,
    src: int,
    i: int,
    len: int,
    dst: int,
    p: int,
    rev: bool,
)
    requires
        so_kept(dm, rt, dt, st, demands, ors, rs, rd),
        symmetric(dm),
        0 <= src < rs.len(),
        1 <= len <= 3,
        1 <= i,
        i + len + 1 <= rs[src].len(),
        move_valid(dm, rt, dt, st as int, demands, cap, rs, rd, src, i, len, dst, p, rev),
    ensures
        ({
            let sg = seg_of(rs[src], i, len);
            let sd = demand_sum(demands, sg);
            let ns = cut_out(rs[src], i, len);
            let nd = spliced(rs[dst], p, crate::sharp_orbit::oriented(sg, rev));
            let u = rs.update(src, ns).update(dst, nd);
            let ud = rd.update(src, (rd[src] - sd) as i32).update(dst, (rd[dst] + sd) as i32);
            &&& 0 <= sd <= 300_000
            &&& 0 <= rd[src] - sd
            &&& rd[dst] + sd <= 1_001_000_000
            &&& so_kept(dm, rt, dt, st, demands, ors, u, ud)
            &&& total_len(dm, u) < total_len(dm, rs)
            &&& ns.len() <= 2 ==> so_kept(dm, rt, dt, st, demands, ors, u.remove(src), ud.remove(src))
                && total_len(dm, u.remove(src)) <= total_len(dm, u)
        }),
{
    let sr = rs[src];
    let dr = rs[dst];
    let sg = seg_of(sr, i, len);
    let sd = demand_sum(demands, sg);
    let c = crate::sharp_orbit::oriented(sg, rev);
    let ns = cut_out(sr, i, len);
    let nd = spliced(dr, p, c);
    let u1 = rs.update(src, ns);
    let u = u1.update(dst, nd);
    let ud = rd.update(src, (rd[src] - sd) as i32).update(dst, (rd[dst] + sd) as i32);
    assert(proper(sr) && proper(dr));
    assert(nodes_below(sr, dm.len() as int) && nodes_below(dr, dm.len() as int));
    assert(nodes_below(sg, dm.len() as int));
    lemma_move_len(dm, rs, src, i, len, dst, p, rev);
    lemma_move_custs(sr, dr, i, len, p, rev);
    lemma_replace_two(rs, src, dst, ns, nd);
    lemma_total_nodes(rs, src, ns);
    lemma_total_nodes(u1, dst, nd);
    assert(u1[dst] == dr);
    lemma_demand_sum_bounds(demands, sg);
    lemma_move_demands(demands, sr, dr, i, len, p, rev);
    lemma_move_normal(dm, sr, dr, i, len, p, rev);
    lemma_demand_sum_bounds(demands, inner(ns));
    if src < dst {
        assert(rs[src].len() + rs[dst].len() <= total_nodes(rs));
    } else {
        assert(rs[dst].len() + rs[src].len() <= total_nodes(rs));
    }
    lemma_demand_sum_bounds(demands, inner(sr));
    lemma_demand_sum_bounds(demands, inner(dr));
    assert(100_000 * inner(dr).len() + 300_000 <= 100_000 * LEN_LIMIT) by (nonlinear_arith)
        requires
            inner(dr).len() + 3 <= LEN_LIMIT,
    ;
    assert(ud[src] == demand_sum(demands, inner(ns)));
    assert(ud[dst] == demand_sum(demands, inner(nd)));
    assert forall|k: int| 0 <= k < u.len() implies proper(#[trigger] u[k]) && nodes_below(u[k], dm.len() as int)
        && ud[k] == demand_sum(demands, inner(u[k])) by {
        if k != src && k != dst {
            assert(u[k] == rs[k]);
            assert(ud[k] == rd[k]);
        }
    }
    if ns.len() <= 2 {
        lemma_remove_empty_route(dm, rt, dt, st, demands, ors, u, ud, src);
    }
}

/// Dropping a route without customers keeps the pass state and the customers
/// and never lengthens the solution.
proof fn lemma_remove_empty_route(
    dm: Seq<Vec<i32>>,
    rt: Seq<i32>,
    dt: Seq<i32>,
    st: i32,
    demands: Seq<i32>,
    ors: Seq<Seq<usize>>,
    u: Seq<Seq<usize>>,
    ud: Seq<i32>,
    k0: int,
)
    requires
        so_kept(dm, rt, dt, st, demands, ors, u, ud),
        0 <= k0 < u.len(),
        u[k0].len() <= 2,
    ensures
        so_kept(dm, rt, dt, st, demands, ors, u.remove(k0), ud.remove(k0)),
        total_len(dm, u.remove(k0)) <= total_len(dm, u),
{
    let ns = u[k0];
    assert(proper(ns));
    assert forall|k: int| 0 <= k < ns.len() implies ns[k] == 0 by {
    }
    crate::model::lemma_custs_depots(ns);
    crate::model::lemma_all_custs_remove(u, k0);
    assert(all_custs(u.remove(k0)) =~= all_custs(u)) by {
        broadcast use vstd::multiset::group_multiset_axioms;
    }
    lemma_total_len_remove(dm, u, k0);
    assert(nodes_below(ns, dm.len() as int));
    lemma_route_len_nonneg(dm, ns);
    lemma_total_nodes(u, k0, ns);
    let w = u.remove(k0);
    let wd = ud.remove(k0);
    assert forall|k: int| 0 <= k < w.len() implies proper(#[trigger] w[k]) && nodes_below(w[k], dm.len() as int)
        && wd[k] == demand_sum(demands, inner(w[k])) by {
        if k < k0 {
            assert(w[k] == u[k] && wd[k] == ud[k]);
        } else {
            assert(w[k] == u[k + 1] && wd[k] == ud[k + 1]);
        }
    }
}

/// Route `r` comes from the routes `ors` by moves that check the receiving
/// route: it is a route of `ors`, or a route within its time windows and
/// within capacity `cap`, with possibly some customers taken out since.
pub open spec fn valid_origin(dm: Seq<Vec<i32>>, rt: Seq<i32>, dt: Seq<i32>, st: int, demands: Seq<i32>, cap: int,
    ors: Seq<Seq<usize>>, r: Seq<usize>) -> bool {
    exists|w: Seq<usize>| #[trigger] embeds(r, w)
        && (ors.contains(w) || (route_tw_ok(dm, rt, dt, st, w) && demand_sum(demands, inner(w)) <= cap))
}

/// A route with a segment cut out is a subsequence of it.
pub(crate) proof fn lemma_cut_out_embeds(r: Seq<usize>, i: int, len: int)
    requires
        0 <= i,
        0 <= len,
        i + len <= r.len(),
    ensures
        embeds(cut_out(r, i, len), r),
{
    reveal(embeds);
    let c = cut_out(r, i, len);
    let at = Seq::new(c.len(), |j: int| if j < i { j } else { j + len });
    assert(embedding(c, r, at));
}

/// Origins chain: a route that comes from routes `mid`, each of which comes from
/// `ors`, comes from `ors`.
proof fn lemma_origin_trans(dm: Seq<Vec<i32>>, rt: Seq<i32>, dt: Seq<i32>, st: int, demands: Seq<i32>, cap: int,
    ors: Seq<Seq<usize>>, mid: Seq<Seq<usize>>, r: Seq<usize>)
    requires
        valid_origin(dm, rt, dt, st, demands, cap, mid, r),
        forall|k: int| 0 <= k < mid.len() ==> valid_origin(dm, rt, dt, st, demands, cap, ors, #[trigger] mid[k]),
    ensures
        valid_origin(dm, rt, dt, st, demands, cap, ors, r),
{
    let w = choose|w: Seq<usize>| #[trigger] embeds(r, w)
        && (mid.contains(w) || (route_tw_ok(dm, rt, dt, st, w) && demand_sum(demands, inner(w)) <= cap));
    if mid.contains(w) {
        let k = choose|k: int| 0 <= k < mid.len() && mid[k] == w;
        assert(valid_origin(dm, rt, dt, st, demands, cap, ors, mid[k]));
        let w2 = choose|w2: Seq<usize>| #[trigger] embeds(w, w2)
            && (ors.contains(w2) || (route_tw_ok(dm, rt, dt, st, w2) && demand_sum(demands, inner(w2)) <= cap));
        lemma_embeds_trans(r, w, w2);
        assert(embeds(r, w2));
    } else {
        assert(embeds(r, w));
    }
}

/// Every route of `ors` comes from `ors`.
proof fn lemma_origin_refl(dm: Seq<Vec<i32>>, rt: Seq<i32>, dt: Seq<i32>, st: int, demands: Seq<i32>, cap: int, ors: Seq<Seq<usize>>)
    ensures
        forall|k: int| 0 <= k < ors.len() ==> valid_origin(dm, rt, dt, st, demands, cap, ors, #[trigger] ors[k]),
{
    assert forall|k: int| 0 <= k < ors.len() implies valid_origin(dm, rt, dt, st, demands, cap, ors, #[trigger] ors[k]) by {
        lemma_embeds_refl(ors[k]);
        assert(ors.contains(ors[k]));
        assert(embeds(ors[k], ors[k]));
    }
}

/// Applies a valid segment move: cuts the segment out of route `src`, splices it
/// (reversed when `rev`) into route `dst` before `p`, moves its demand along, and
/// drops route `src` when it was left without customers, which it reports.
fn apply_segment_move(
    routes: &mut Vec<Vec<usize>>,
    route_demand: &mut Vec<i32>,
    src: usize,
    i: usize,
    seg_len: usize,
    dst: usize,
    p: usize,
    rev: bool,
    chain: Vec<usize>,
    seg_demand: i32,
    dm: &[Vec<i32>],
    rt: &[i32],
    dt: &[i32],
    st: i32,
    demands: &[i32],
    cap: i32,
) -> (removed: bool)
    requires
        so_state(dm@, rt@, dt@, st, demands@, rv(old(routes)@), old(route_demand)@),
        symmetric(dm@),
        src < old(routes)@.len(),
        1 <= seg_len <= 3,
        1 <= i,
        i + seg_len + 1 <= old(routes)@[src as int]@.len(),
        chain@ == seg_of(old(routes)@[src as int]@, i as int, seg_len as int),
        seg_demand == demand_sum(demands@, chain@),
        move_valid(dm@, rt@, dt@, st as int, demands@, cap as int, rv(old(routes)@), old(route_demand)@, src as int, i as int, seg_len as int, dst as int, p as int, rev),
    ensures
        so_kept(dm@, rt@, dt@, st, demands@, rv(old(routes)@), rv(final(routes)@), final(route_demand)@),
        total_len(dm@, rv(final(routes)@)) < total_len(dm@, rv(old(routes)@)),
        removed ==> final(routes)@.len() == old(routes)@.len() - 1,
        !removed ==> final(routes)@.len() == old(routes)@.len(),
        forall|k: int| 0 <= k < final(routes)@.len() ==> (#[trigger] rv(final(routes)@)[k]).len() > 2
            || rv(old(routes)@).contains(rv(final(routes)@)[k]),
        forall|k: int| 0 <= k < final(routes)@.len() ==> valid_origin(dm@, rt@, dt@, st as int, demands@, cap as int, rv(old(routes)@), #[trigger] rv(final(routes)@)[k]),
{
    let ghost rs = rv(routes@);
    let ghost rdv = route_demand@;
    assert(rs[src as int] == routes@[src as int]@);
    proof {
        assert(so_kept(dm@, rt@, dt@, st, demands@, rs, rs, rdv));
        lemma_apply_segment_move(dm@, rt@, dt@, st, demands@, cap as int, rs, rs, rdv, src as int, i as int, seg_len as int, dst as int, p as int, rev);
    }
    let slen = routes[src].len();
    let ghost sg = seg_of(rs[src as int], i as int, seg_len as int);
    let to_insert = if rev { reversed_vec(&chain) } else { chain };
    assert(to_insert@ == crate::sharp_orbit::oriented(sg, rev));
    assert(rs[dst as int] == routes@[dst as int]@);
    let nd = splice_vec(&routes[dst], p, &to_insert);
    let ns = join_slices(&routes[src], 0, i, &routes[src], i + seg_len, slen);
    assert(ns@ == cut_out(rs[src as int], i as int, seg_len as int));
    let nsd = route_demand[src] - seg_demand;
    let ndd = route_demand[dst] + seg_demand;
    let nslen = ns.len();
    routes.set(src, ns);
    routes.set(dst, nd);
    route_demand.set(src, nsd);
    route_demand.set(dst, ndd);
    let ghost u = rs.update(src as int, cut_out(rs[src as int], i as int, seg_len as int)).update(
        dst as int,
        spliced(rs[dst as int], p as int, crate::sharp_orbit::oriented(sg, rev)),
    );
    assert(rv(routes@) =~= u);
    assert(route_demand@ =~= rdv.update(src as int, nsd).update(dst as int, ndd));
    proof {
        assert(so_kept(dm@, rt@, dt@, st, demands@, rs, u, route_demand@));
        assert forall|k: int| 0 <= k < u.len() implies valid_origin(dm@, rt@, dt@, st as int, demands@, cap as int, rs, #[trigger] u[k]) by {
            if k == dst as int {
                lemma_embeds_refl(u[k]);
                assert(embeds(u[k], u[k]));
                assert(route_demand@[k] == demand_sum(demands@, inner(u[k])));
            } else if k == src as int {
                lemma_cut_out_embeds(rs[k], i as int, seg_len as int);
                assert(rs.contains(rs[k]));
                assert(embeds(u[k], rs[k]));
            } else {
                lemma_embeds_refl(u[k]);
                assert(u[k] == rs[k]);
                assert(rs.contains(rs[k]));
                assert(embeds(u[k], rs[k]));
            }
        }
        assert(u[dst as int].len() == rs[dst as int].len() + seg_len);
        assert forall|k: int| 0 <= k < u.len() && k != src implies (#[trigger] u[k]).len() > 2 || rs.contains(u[k]) by {
            if k != dst {
                assert(u[k] == rs[k]);
            }
        }
    }
    if nslen <= 2 {
        routes.remove(src);
        route_demand.remove(src);
        assert(rv(routes@) =~= u.remove(src as int));
        proof {
            assert forall|k: int| 0 <= k < rv(routes@).len() implies (#[trigger] rv(routes@)[k]).len() > 2 || rs.contains(rv(routes@)[k]) by {
                if k < src {
                    assert(rv(routes@)[k] == u[k]);
                } else {
                    assert(rv(routes@)[k] == u[k + 1]);
                }
            }
            assert forall|k: int| 0 <= k < rv(routes@).len() implies valid_origin(dm@, rt@, dt@, st as int, demands@, cap as int, rs, #[trigger] rv(routes@)[k]) by {
                if k < src {
                    assert(rv(routes@)[k] == u[k]);
                } else {
                    assert(rv(routes@)[k] == u[k + 1]);
                }
            }
        }
        true
    } else {
        proof {
            assert forall|k: int| 0 <= k < rv(routes@).len() implies (#[trigger] rv(routes@)[k]).len() > 2 || rs.contains(rv(routes@)[k]) by {
                assert(rv(routes@)[k] == u[k]);
                if k == src {
                    assert(u[k].len() == nslen);
                }
            }
            assert forall|k: int| 0 <= k < rv(routes@).len() implies valid_origin(dm@, rt@, dt@, st as int, demands@, cap as int, rs, #[trigger] rv(routes@)[k]) by {
                assert(rv(routes@)[k] == u[k]);
            }
        }
        false
    }
}

/// Every route is longer than two nodes, or is one of the routes `ors`.
pub open spec fn emptied_dropped(ors: Seq<Seq<usize>>, rs: Seq<Seq<usize>>) -> bool {
    forall|k: int| 0 <= k < rs.len() ==> (#[trigger] rs[k]).len() > 2 || ors.contains(rs[k])
}

/// What the or-opt pass keeps while it runs: the pass state and the customers
/// against the starting solution, a length no longer than at the start of the
/// pass and of the current sweep, strictly shorter once a move was applied, and
/// nothing changed before that.
pub open spec fn or_progress(
    dm: Seq<Vec<i32>>,
    rt: Seq<i32>,
    dt: Seq<i32>,
    st: i32,
    demands: Seq<i32>,
    cap: int,
    ors: Seq<Seq<usize>>,
    ord: Seq<i32>,
    s0: Seq<Seq<usize>>,
    rs: Seq<Seq<usize>>,
    rd: Seq<i32>,
    any: bool,
    improved: bool,
) -> bool {
    &&& so_kept(dm, rt, dt, st, demands, ors, rs, rd)
    &&& emptied_dropped(ors, rs)
    &&& forall|k: int| 0 <= k < rs.len() ==> valid_origin(dm, rt, dt, st as int, demands, cap, ors, #[trigger] rs[k])
    &&& symmetric(dm)
    &&& total_len(dm, rs) >= 0
    &&& (any ==> total_len(dm, rs) < total_len(dm, ors))
    &&& (!any ==> rs == ors && rd == ord)
    &&& (improved ==> total_len(dm, rs) < total_len(dm, s0))
    &&& (!improved ==> rs == s0)
    &&& (improved ==> any)
}

/// Or-opt between routes: for each route in turn and each segment length 1 to 3,
/// scans the segments from the route's first inner node on; a segment whose
/// removal saves length moves by the best move into another route (see
/// `best_segment_move`), after which the pass goes on with the next segment
/// length, or, when the route was left without customers, drops it and starts
/// over on the route now at its place. Repeats while a sweep moved a segment.
/// Stops once the time budget since `start` is spent, checked before each sweep
/// and each segment. Reports whether it moved any segment.
pub fn or_opt_between_routes(
    routes: &mut Vec<Vec<usize>>,
    route_demand: &mut Vec<i32>,
    dm: &[Vec<i32>],
    rt: &[i32],
    dt: &[i32],
    st: i32,
    demands: &[i32],
    cap: i32,
    start: &Instant,
    budget: &Duration,
) -> (res: bool)
    requires
        so_state(dm@, rt@, dt@, st, demands@, rv(old(routes)@), old(route_demand)@),
        symmetric(dm@),
    ensures
        so_kept(dm@, rt@, dt@, st, demands@, rv(old(routes)@), rv(final(routes)@), final(route_demand)@),
        res ==> total_len(dm@, rv(final(routes)@)) < total_len(dm@, rv(old(routes)@)),
        !res ==> rv(final(routes)@) == rv(old(routes)@) && final(route_demand)@ == old(route_demand)@,
        emptied_dropped(rv(old(routes)@), rv(final(routes)@)),
        forall|k: int| 0 <= k < final(routes)@.len() ==> valid_origin(dm@, rt@, dt@, st as int, demands@, cap as int, rv(old(routes)@), #[trigger] rv(final(routes)@)[k]),
{
    let ghost ors = rv(routes@);
    let ghost ord = route_demand@;
    let mut any_improved = false;
    let mut improved = true;
    proof {
        assert forall|k: int| 0 <= k < ors.len() implies nodes_below(#[trigger] ors[k], dm@.len() as int) by {
        }
        lemma_total_len_nonneg_dm(dm@, ors);
        assert forall|k: int| 0 <= k < ors.len() implies (#[trigger] ors[k]).len() > 2 || ors.contains(ors[k]) by {
        }
        lemma_origin_refl(dm@, rt@, dt@, st as int, demands@, cap as int, ors);
    }
    while improved
        invariant
            or_progress(dm@, rt@, dt@, st, demands@, cap as int, ors, ord, rv(routes@), rv(routes@), route_demand@, any_improved, false),
        decreases total_len(dm@, rv(routes@)) + (if improved { 1int } else { 0int }),
    {
        let ghost s0 = rv(routes@);
        improved = false;
        if at_least(&elapsed_since(start), budget) {
            break;
        }
        let mut stop = false;
        let mut src: usize = 0;
        while src < routes.len() && !stop
            invariant
                or_progress(dm@, rt@, dt@, st, demands@, cap as int, ors, ord, s0, rv(routes@), route_demand@, any_improved, improved),
            decreases routes@.len() - src,
        {
            let ghost nb = routes@.len();
            let mut removed = false;
            let mut seg_len: usize = 1;
            while seg_len <= 3 && !stop && !removed
                invariant
                    or_progress(dm@, rt@, dt@, st, demands@, cap as int, ors, ord, s0, rv(routes@), route_demand@, any_improved, improved),
                    !removed ==> src < routes@.len(),
                    removed ==> routes@.len() == nb - 1,
                    !removed ==> routes@.len() == nb,
                    src < nb,
                    1 <= seg_len <= 4,
                decreases 4 - seg_len,
            {
                let mut i: usize = 1;
                assert(rv(routes@)[src as int] == routes@[src as int]@);
                loop
                    invariant_except_break
                        src < routes@.len(),
                        !removed,
                        i <= routes@[src as int]@.len(),
                    invariant
                        or_progress(dm@, rt@, dt@, st, demands@, cap as int, ors, ord, s0, rv(routes@), route_demand@, any_improved, improved),
                        !removed ==> src < routes@.len(),
                        removed ==> routes@.len() == nb - 1,
                        !removed ==> routes@.len() == nb,
                        src < nb,
                        1 <= seg_len <= 3,
                        1 <= i,
                    decreases routes@[src as int]@.len() - i,
                {
                    if at_least(&elapsed_since(start), budget) {
                        stop = true;
                        break;
                    }
                    let ghost rs = rv(routes@);
                    let ghost rdv = route_demand@;
                    assert(rs[src as int] == routes@[src as int]@);
                    let slen = routes[src].len();
                    if slen - i < seg_len + 1 {
                        break;
                    }
                    let s0n = routes[src][i];
                    let s1n = routes[src][i + seg_len - 1];
                    let prev = routes[src][i - 1];
                    let next = routes[src][i + seg_len];
                    proof {
                        assert(nodes_below(rs[src as int], dm@.len() as int));
                        assert(in_limit(dm@[prev as int]@[s0n as int]));
                        assert(in_limit(dm@[s1n as int]@[next as int]));
                        assert(in_limit(dm@[prev as int]@[next as int]));
                    }
                    let remove_gain = dm[prev][s0n] + dm[s1n][next] - dm[prev][next];
                    if remove_gain <= 0 {
                        i += 1;
                    } else {
                        let chain = join_slices(&routes[src], i, i + seg_len, &routes[src], 0, 0);
                        assert(chain@ =~= seg_of(rs[src as int], i as int, seg_len as int));
                        proof {
                            lemma_demand_sum_bounds(demands@, chain@);
                            lemma_total_nodes(rs, 0, rs[0]);
                        }
                        let seg_demand = range_demand(&routes[src], i, i + seg_len, demands);
                        match best_segment_move(routes, route_demand, src, i, seg_len, &chain, seg_demand, dm, rt, dt, st, demands, cap) {
                            Some((dst, p, rev)) => {
                                let was_removed = apply_segment_move(routes, route_demand, src, i, seg_len, dst, p, rev, chain, seg_demand, dm, rt, dt, st, demands, cap);
                                proof {
                                    assert forall|k: int| 0 <= k < rv(routes@).len() implies (#[trigger] rv(routes@)[k]).len() > 2
                                        || ors.contains(rv(routes@)[k]) by {
                                        if rv(routes@)[k].len() <= 2 {
                                            assert(rs.contains(rv(routes@)[k]));
                                            let w = choose|w: int| 0 <= w < rs.len() && rs[w] == rv(routes@)[k];
                                            assert(rs[w].len() > 2 || ors.contains(rs[w]));
                                        }
                                    }
                                    assert forall|k: int| 0 <= k < rv(routes@).len() implies nodes_below(#[trigger] rv(routes@)[k], dm@.len() as int) by {
                                    }
                                    lemma_total_len_nonneg_dm(dm@, rv(routes@));
                                    assert forall|k: int| 0 <= k < rv(routes@).len() implies valid_origin(dm@, rt@, dt@, st as int, demands@, cap as int, ors, #[trigger] rv(routes@)[k]) by {
                                        lemma_origin_trans(dm@, rt@, dt@, st as int, demands@, cap as int, ors, rs, rv(routes@)[k]);
                                    }
                                }
                                any_improved = true;
                                improved = true;
                                removed = was_removed;
                                break;
                            },
                            None => {
                                i += 1;
                            },
                        }
                    }
                }
                seg_len += 1;
            }
            if !removed {
                src += 1;
            }
        }
    }
    any_improved
}

/// Segment `i..i + len` of route `src` saves nothing when removed, or has no
/// valid move into another route.
pub open spec fn or_opt_none(
    dm: Seq<Vec<i32>>,
    rt: Seq<i32>,
    dt: Seq<i32>,
    st: int,
    demands: Seq<i32>,
    cap: int,
    rs: Seq<Seq<usize>>,
    rd: Seq<i32>,
    src: int,
    len: int,
    i: int,
) -> bool {
    removal_gain(dm, rs[src], i, len) > 0 ==> forall|d: int, p: int, v: bool|
        !#[trigger] move_valid(dm, rt, dt, st, demands, cap, rs, rd, src, i, len, d, p, v)
}

/// One or-opt sweep between routes, with no time limit: for each route and each
/// segment length 1 to 3, the segments from the route's first inner node on; a
/// segment whose removal saves length moves by the best move into another route
/// (see `best_segment_move`), after which the sweep goes on with the next
/// segment length, or, when the route was left without customers, drops it and
/// goes on with the route now at its place. Reports whether it moved a segment;
/// when it did not, no segment of one to three customers whose removal saves
/// length has a valid move.
pub fn or_opt_sweep(
    routes: &mut Vec<Vec<usize>>,
    route_demand: &mut Vec<i32>,
    dm: &[Vec<i32>],
    rt: &[i32],
    dt: &[i32],
    st: i32,
    demands: &[i32],
    cap: i32,
) -> (moved: bool)
    requires
        so_state(dm@, rt@, dt@, st, demands@, rv(old(routes)@), old(route_demand)@),
        symmetric(dm@),
    ensures
        so_kept(dm@, rt@, dt@, st, demands@, rv(old(routes)@), rv(final(routes)@), final(route_demand)@),
        emptied_dropped(rv(old(routes)@), rv(final(routes)@)),
        moved ==> total_len(dm@, rv(final(routes)@)) < total_len(dm@, rv(old(routes)@)),
        !moved ==> rv(final(routes)@) == rv(old(routes)@) && final(route_demand)@ == old(route_demand)@,
        !moved ==> forall|src: int, len: int, i: int| 0 <= src < old(routes)@.len() && 1 <= len <= 3 && 1 <= i
            && i + len + 1 <= old(routes)@[src]@.len() ==>
            #[trigger] or_opt_none(dm@, rt@, dt@, st as int, demands@, cap as int, rv(old(routes)@), old(route_demand)@, src, len, i),
        forall|k: int| 0 <= k < final(routes)@.len() ==> valid_origin(dm@, rt@, dt@, st as int, demands@, cap as int, rv(old(routes)@), #[trigger] rv(final(routes)@)[k]),
{
    let ghost ors = rv(routes@);
    let ghost ord = route_demand@;
    let mut moved = false;
    proof {
        assert forall|k: int| 0 <= k < ors.len() implies nodes_below(#[trigger] ors[k], dm@.len() as int) by {
        }
        lemma_total_len_nonneg_dm(dm@, ors);
        assert forall|k: int| 0 <= k < ors.len() implies (#[trigger] ors[k]).len() > 2 || ors.contains(ors[k]) by {
        }
        lemma_origin_refl(dm@, rt@, dt@, st as int, demands@, cap as int, ors);
    }
    let mut src: usize = 0;
    while src < routes.len()
        invariant
            or_progress(dm@, rt@, dt@, st, demands@, cap as int, ors, ord, ors, rv(routes@), route_demand@, moved, moved),
            ors == rv(old(routes)@),
            ord == old(route_demand)@,
            !moved ==> forall|s2: int, len: int, i: int| 0 <= s2 < src && 1 <= len <= 3 && 1 <= i && i + len + 1 <= ors[s2].len() ==>
                #[trigger] or_opt_none(dm@, rt@, dt@, st as int, demands@, cap as int, ors, ord, s2, len, i),
        decreases routes@.len() - src,
    {
        let ghost nb = routes@.len();
        let mut removed = false;
        let mut seg_len: usize = 1;
        while seg_len <= 3 && !removed
            invariant
                or_progress(dm@, rt@, dt@, st, demands@, cap as int, ors, ord, ors, rv(routes@), route_demand@, moved, moved),
                ors == rv(old(routes)@),
                ord == old(route_demand)@,
                !removed ==> src < routes@.len(),
                removed ==> routes@.len() == nb - 1,
                !removed ==> routes@.len() == nb,
                removed ==> moved,
                src < nb,
                1 <= seg_len <= 4,
                !moved ==> forall|s2: int, len: int, i: int| (0 <= s2 < src && 1 <= len <= 3 || s2 == src && 1 <= len < seg_len)
                    && 1 <= i && i + len + 1 <= ors[s2].len() ==>
                    #[trigger] or_opt_none(dm@, rt@, dt@, st as int, demands@, cap as int, ors, ord, s2, len, i),
            decreases 4 - seg_len,
        {
            let mut i: usize = 1;
            assert(rv(routes@)[src as int] == routes@[src as int]@);
            loop
                invariant_except_break
                    src < routes@.len(),
                    !removed,
                    i <= routes@[src as int]@.len(),
                invariant
                    or_progress(dm@, rt@, dt@, st, demands@, cap as int, ors, ord, ors, rv(routes@), route_demand@, moved, moved),
                    ors == rv(old(routes)@),
                    ord == old(route_demand)@,
                    !removed ==> src < routes@.len(),
                    removed ==> routes@.len() == nb - 1,
                    !removed ==> routes@.len() == nb,
                    removed ==> moved,
                    src < nb,
                    1 <= seg_len <= 3,
                    1 <= i,
                    !moved ==> forall|s2: int, len: int, i2: int| (0 <= s2 < src && 1 <= len <= 3 || s2 == src && 1 <= len < seg_len
                        || s2 == src && len == seg_len && i2 < i) && 1 <= i2 && i2 + len + 1 <= ors[s2].len() ==>
                        #[trigger] or_opt_none(dm@, rt@, dt@, st as int, demands@, cap as int, ors, ord, s2, len, i2),
                ensures
                    !moved ==> forall|i2: int| 1 <= i2 && i2 + seg_len + 1 <= ors[src as int].len() ==>
                        #[trigger] or_opt_none(dm@, rt@, dt@, st as int, demands@, cap as int, ors, ord, src as int, seg_len as int, i2),
                decreases routes@[src as int]@.len() - i,
            {
                let ghost rs = rv(routes@);
                let ghost rdv = route_demand@;
                assert(rs[src as int] == routes@[src as int]@);
                let slen = routes[src].len();
                if slen - i < seg_len + 1 {
                    break;
                }
                let s0n = routes[src][i];
                let s1n = routes[src][i + seg_len - 1];
                let prev = routes[src][i - 1];
                let next = routes[src][i + seg_len];
                proof {
                    assert(nodes_below(rs[src as int], dm@.len() as int));
                    assert(in_limit(dm@[prev as int]@[s0n as int]));
                    assert(in_limit(dm@[s1n as int]@[next as int]));
                    assert(in_limit(dm@[prev as int]@[next as int]));
                }
                let remove_gain = dm[prev][s0n] + dm[s1n][next] - dm[prev][next];
                if remove_gain <= 0 {
                    proof {
                        assert(or_opt_none(dm@, rt@, dt@, st as int, demands@, cap as int, rs, rdv, src as int, seg_len as int, i as int));
                    }
                    i += 1;
                } else {
                    let chain = join_slices(&routes[src], i, i + seg_len, &routes[src], 0, 0);
                    assert(chain@ =~= seg_of(rs[src as int], i as int, seg_len as int));
                    proof {
                        lemma_demand_sum_bounds(demands@, chain@);
                        lemma_total_nodes(rs, 0, rs[0]);
                    }
                    let seg_demand = range_demand(&routes[src], i, i + seg_len, demands);
                    match best_segment_move(routes, route_demand, src, i, seg_len, &chain, seg_demand, dm, rt, dt, st, demands, cap) {
                        Some((dst, p, rev)) => {
                            let was_removed = apply_segment_move(routes, route_demand, src, i, seg_len, dst, p, rev, chain, seg_demand, dm, rt, dt, st, demands, cap);
                            proof {
                                assert forall|k: int| 0 <= k < rv(routes@).len() implies (#[trigger] rv(routes@)[k]).len() > 2
                                    || ors.contains(rv(routes@)[k]) by {
                                    if rv(routes@)[k].len() <= 2 {
                                        assert(rs.contains(rv(routes@)[k]));
                                        let w = choose|w: int| 0 <= w < rs.len() && rs[w] == rv(routes@)[k];
                                        assert(rs[w].len() > 2 || ors.contains(rs[w]));
                                    }
                                }
                                assert forall|k: int| 0 <= k < rv(routes@).len() implies nodes_below(#[trigger] rv(routes@)[k], dm@.len() as int) by {
                                }
                                lemma_total_len_nonneg_dm(dm@, rv(routes@));
                                assert forall|k: int| 0 <= k < rv(routes@).len() implies valid_origin(dm@, rt@, dt@, st as int, demands@, cap as int, ors, #[trigger] rv(routes@)[k]) by {
                                    lemma_origin_trans(dm@, rt@, dt@, st as int, demands@, cap as int, ors, rs, rv(routes@)[k]);
                                }
                            }
                            moved = true;
                            removed = was_removed;
                            break;
                        },
                        None => {
                            proof {
                                assert(or_opt_none(dm@, rt@, dt@, st as int, demands@, cap as int, rs, rdv, src as int, seg_len as int, i as int));
                            }
                            i += 1;
                        },
                    }
                }
            }
            seg_len += 1;
        }
        if !removed {
            src += 1;
        }
    }
    proof {
        if !moved {
            assert forall|s2: int, len: int, i: int| 0 <= s2 < old(routes)@.len() && 1 <= len <= 3 && 1 <= i
                && i + len + 1 <= old(routes)@[s2]@.len() implies
                #[trigger] or_opt_none(dm@, rt@, dt@, st as int, demands@, cap as int, ors, ord, s2, len, i) by {
                assert(ors[s2] == old(routes)@[s2]@);
            }
        }
    }
    moved
}

/// Overwriting a node changes the demand by the difference of the two nodes.
proof fn lemma_demand_sum_update(demands: Seq<i32>, a: Seq<usize>, k: int, x: usize)
    requires
        0 <= k < a.len(),
    ensures
        demand_sum(demands, a.update(k, x)) == demand_sum(demands, a) - demands[a[k] as int] + demands[x as int],
{
    let p = a.subrange(0, k);
    let s = a.subrange(k + 1, a.len() as int);
    assert(a =~= p + seq![a[k]] + s);
    assert(a.update(k, x) =~= p + seq![x] + s);
    lemma_demand_sum_concat(demands, p + seq![a[k]], s);
    lemma_demand_sum_concat(demands, p, seq![a[k]]);
    lemma_demand_sum_concat(demands, p + seq![x], s);
    lemma_demand_sum_concat(demands, p, seq![x]);
    assert(seq![a[k]].drop_last() =~= Seq::<usize>::empty());
    assert(seq![x].drop_last() =~= Seq::<usize>::empty());
    assert(seq![a[k]].last() == a[k]);
    assert(seq![x].last() == x);
    assert(demand_sum(demands, Seq::<usize>::empty()) == 0);
}

/// Exchanging customer `i` of route `a` with customer `j` of route `b` shortens
/// them, keeps both within `cap` by their recorded demands `da` and `db`, and
/// leaves both within their time windows.
pub open spec fn so_ex_valid(
    dm: Seq<Vec<i32>>,
    rt: Seq<i32>,
    dt: Seq<i32>,
    st: int,
    demands: Seq<i32>,
    cap: int,
    a: Seq<usize>,
    b: Seq<usize>,
    da: int,
    db: int,
    i: int,
    j: int,
) -> bool {
    &&& 1 <= i < a.len() - 1
    &&& 1 <= j < b.len() - 1
    &&& da - demands[a[i] as int] + demands[b[j] as int] <= cap
    &&& db - demands[b[j] as int] + demands[a[i] as int] <= cap
    &&& crate::pv_passes::ex_delta(dm, a, b, i, j) < 0
    &&& route_tw_ok(dm, rt, dt, st, a.update(i, b[j]))
    &&& route_tw_ok(dm, rt, dt, st, b.update(j, a[i]))
}

/// The first partner in route `b`, by position, for customer `i` of route `a`
/// whose exchange is valid.
fn first_exchange_partner(
    a: &Vec<usize>,
    b: &Vec<usize>,
    da: i32,
    db: i32,
    i: usize,
    dm: &[Vec<i32>],
    rt: &[i32],
    dt: &[i32],
    st: i32,
    demands: &[i32],
    cap: i32,
) -> (res: Option<usize>)
    requires
        tw_tables(dm@, st, rt@, dt@),
        table_ok(demands@, dm@.len() as int),
        nodes_below(a@, dm@.len() as int),
        nodes_below(b@, dm@.len() as int),
        b@.len() >= 2,
        1 <= i < a@.len() - 1,
        0 <= da <= 1_000_000_000,
        0 <= db <= 1_000_000_000,
    ensures
        res matches Some(j) ==> so_ex_valid(dm@, rt@, dt@, st as int, demands@, cap as int, a@, b@, da as int, db as int, i as int, j as int)
            && forall|q: int| q < j ==> !#[trigger] so_ex_valid(dm@, rt@, dt@, st as int, demands@, cap as int, a@, b@, da as int, db as int, i as int, q),
        res is None ==> forall|q: int| !#[trigger] so_ex_valid(dm@, rt@, dt@, st as int, demands@, cap as int, a@, b@, da as int, db as int, i as int, q),
{
    let alen = a.len();
    let pa = a[i - 1];
    let x = a[i];
    let pb = a[i + 1];
    proof {
        assert(in_limit(demands@[x as int]));
        assert(in_limit(dm@[pa as int]@[x as int]));
        assert(in_limit(dm@[x as int]@[pb as int]));
    }
    let mut j: usize = 1;
    while j < b.len() - 1
        invariant
            tw_tables(dm@, st, rt@, dt@),
            table_ok(demands@, dm@.len() as int),
            nodes_below(a@, dm@.len() as int),
            nodes_below(b@, dm@.len() as int),
            b@.len() >= 2,
            1 <= i < a@.len() - 1,
            pa == a@[i - 1],
            x == a@[i as int],
            pb == a@[i + 1],
            0 <= da <= 1_000_000_000,
            0 <= db <= 1_000_000_000,
            1 <= j <= b@.len() - 1,
            forall|q: int| q < j ==> !#[trigger] so_ex_valid(dm@, rt@, dt@, st as int, demands@, cap as int, a@, b@, da as int, db as int, i as int, q),
        decreases b.len() - j,
    {
        let c = b[j - 1];
        let y = b[j];
        let d = b[j + 1];
        proof {
            assert(in_limit(demands@[y as int]));
            assert(in_limit(dm@[pa as int]@[y as int]));
            assert(in_limit(dm@[y as int]@[pb as int]));
            assert(in_limit(dm@[c as int]@[x as int]));
            assert(in_limit(dm@[x as int]@[d as int]));
            assert(in_limit(dm@[c as int]@[y as int]));
            assert(in_limit(dm@[y as int]@[d as int]));
        }
        let dx = demands[x];
        let dy = demands[y];
        if !(da - dx + dy > cap) && !(db - dy + dx > cap) {
            let delta = dm[pa][y] + dm[y][pb] + dm[c][x] + dm[x][d] - dm[pa][x] - dm[x][pb] - dm[c][y] - dm[y][d];
            assert(delta == crate::pv_passes::ex_delta(dm@, a@, b@, i as int, j as int));
            if delta < 0 {
                let mut t1 = crate::algorithm::copy_route(a);
                t1.set(i, y);
                let mut t2 = crate::algorithm::copy_route(b);
                t2.set(j, x);
                assert(t1@ == a@.update(i as int, y));
                assert(t2@ == b@.update(j as int, x));
                assert(nodes_below(t1@, dm@.len() as int));
                assert(nodes_below(t2@, dm@.len() as int));
                if route_tw_feasible(&t1, dm, rt, dt, st) && route_tw_feasible(&t2, dm, rt, dt, st) {
                    return Some(j);
                }
            }
        }
        j += 1;
    }
    None
}

/// Applies a valid exchange of customer `i` of route `r1` with customer `j` of
/// route `r2`, moving the demands along.
fn apply_so_exchange(
    routes: &mut Vec<Vec<usize>>,
    route_demand: &mut Vec<i32>,
    r1: usize,
    r2: usize,
    i: usize,
    j: usize,
    dm: &[Vec<i32>],
    rt: &[i32],
    dt: &[i32],
    st: i32,
    demands: &[i32],
    cap: i32,
)
    requires
        so_state(dm@, rt@, dt@, st, demands@, rv(old(routes)@), old(route_demand)@),
        r1 < r2 < old(routes)@.len(),
        so_ex_valid(dm@, rt@, dt@, st as int, demands@, cap as int, old(routes)@[r1 as int]@, old(routes)@[r2 as int]@,
            old(route_demand)@[r1 as int] as int, old(route_demand)@[r2 as int] as int, i as int, j as int),
    ensures
        so_state(dm@, rt@, dt@, st, demands@, rv(final(routes)@), final(route_demand)@),
        final(routes)@.len() == old(routes)@.len(),
        all_custs(rv(final(routes)@)) == all_custs(rv(old(routes)@)),
        total_len(dm@, rv(final(routes)@)) < total_len(dm@, rv(old(routes)@)),
        forall|k: int| 0 <= k < final(routes)@.len() ==> #[trigger] rv(final(routes)@)[k] == rv(old(routes)@)[k]
            && final(route_demand)@[k] == old(route_demand)@[k]
            || route_tw_ok(dm@, rt@, dt@, st as int, rv(final(routes)@)[k]) && final(route_demand)@[k] <= cap,
        forall|k: int| 0 <= k < final(routes)@.len() ==> (#[trigger] final(routes)@[k]@).len() == old(routes)@[k]@.len(),
{
    let ghost rs = rv(routes@);
    let ghost rdv = route_demand@;
    assert(rs[r1 as int] == routes@[r1 as int]@);
    assert(rs[r2 as int] == routes@[r2 as int]@);
    let x = routes[r1][i];
    let y = routes[r2][j];
    let ghost a = rs[r1 as int];
    let ghost b = rs[r2 as int];
    let ghost n1 = a.update(i as int, y);
    let ghost n2 = b.update(j as int, x);
    proof {
        crate::pv_passes::lemma_update_len(dm@, a, i as int, y);
        crate::pv_passes::lemma_update_len(dm@, b, j as int, x);
        let u1 = rs.update(r1 as int, n1);
        lemma_total_len_update(dm@, rs, r1 as int, n1);
        lemma_total_len_update(dm@, u1, r2 as int, n2);
        assert(u1[r2 as int] == b);
        lemma_total_nodes(rs, r1 as int, n1);
        lemma_total_nodes(u1, r2 as int, n2);
        crate::model::lemma_custs_update(a, i as int, y);
        crate::model::lemma_custs_update(b, j as int, x);
        assert(custs(n1).add(custs(n2)) =~= custs(a).add(custs(b))) by {
            broadcast use vstd::multiset::group_multiset_axioms;
            assert forall|v: usize| custs(n1).add(custs(n2)).count(v) == custs(a).add(custs(b)).count(v) by {
                assert(custs(n1).add(crate::model::cust1(x)).count(v) == custs(a).add(crate::model::cust1(y)).count(v));
                assert(custs(n2).add(crate::model::cust1(y)).count(v) == custs(b).add(crate::model::cust1(x)).count(v));
            }
        }
        lemma_replace_two(rs, r1 as int, r2 as int, n1, n2);
        assert(inner(n1) =~= inner(a).update(i - 1, y));
        assert(inner(n2) =~= inner(b).update(j - 1, x));
        lemma_demand_sum_update(demands@, inner(a), i - 1, y);
        lemma_demand_sum_update(demands@, inner(b), j - 1, x);
        assert(proper(a) && proper(b));
        assert(nodes_below(a, dm@.len() as int) && nodes_below(b, dm@.len() as int));
        assert forall|q: int| 0 < q < n1.len() - 1 implies #[trigger] n1[q] != 0 by {
            if q != i {
                assert(n1[q] == a[q]);
            }
        }
        assert forall|q: int| 0 < q < n2.len() - 1 implies #[trigger] n2[q] != 0 by {
            if q != j {
                assert(n2[q] == b[q]);
            }
        }
        assert(in_limit(demands@[x as int]));
        assert(in_limit(demands@[y as int]));
        lemma_demand_sum_bounds(demands@, inner(a));
        lemma_demand_sum_bounds(demands@, inner(b));
        lemma_total_nodes(rs, 0, rs[0]);
        assert(100_000 * inner(a).len() <= 100_000 * LEN_LIMIT) by (nonlinear_arith)
            requires
                inner(a).len() <= LEN_LIMIT,
        ;
        assert(100_000 * inner(b).len() <= 100_000 * LEN_LIMIT) by (nonlinear_arith)
            requires
                inner(b).len() <= LEN_LIMIT,
        ;
    }
    let dx = demands[x];
    let dy = demands[y];
    let nd1 = route_demand[r1] - dx + dy;
    let nd2 = route_demand[r2] - dy + dx;
    let mut nr1 = crate::algorithm::copy_route(&routes[r1]);
    nr1.set(i, y);
    let mut nr2 = crate::algorithm::copy_route(&routes[r2]);
    nr2.set(j, x);
    routes.set(r1, nr1);
    routes.set(r2, nr2);
    route_demand.set(r1, nd1);
    route_demand.set(r2, nd2);
    proof {
        assert(rv(routes@) =~= rs.update(r1 as int, n1).update(r2 as int, n2));
        assert(route_demand@ =~= rdv.update(r1 as int, nd1).update(r2 as int, nd2));
        assert forall|k: int| 0 <= k < rv(routes@).len() implies proper(#[trigger] rv(routes@)[k])
            && nodes_below(rv(routes@)[k], dm@.len() as int)
            && route_demand@[k] == demand_sum(demands@, inner(rv(routes@)[k])) by {
            if k != r1 && k != r2 {
                assert(rv(routes@)[k] == rs[k]);
            }
        }
        assert forall|k: int| 0 <= k < routes@.len() implies (#[trigger] routes@[k]@).len() == old(routes)@[k]@.len() by {
            assert(rv(routes@)[k] == routes@[k]@);
            assert(rs[k] == old(routes)@[k]@);
        }
    }
}

/// First-improvement exchange between routes: sweeps the pairs `r1 < r2` and the
/// customers of `r1` in order; each customer is exchanged with its first valid
/// partner in `r2` (see `first_exchange_partner`), if any, and the sweep goes on
/// with the next customer. Repeats sweeps while one exchanged a pair. Stops once
/// the time budget since `start` is spent, checked before each sweep and each
/// customer. Reports whether it exchanged any pair.
pub fn exchange_between_routes(
    routes: &mut Vec<Vec<usize>>,
    route_demand: &mut Vec<i32>,
    dm: &[Vec<i32>],
    rt: &[i32],
    dt: &[i32],
    st: i32,
    demands: &[i32],
    cap: i32,
    start: &Instant,
    budget: &Duration,
) -> (res: bool)
    requires
        so_state(dm@, rt@, dt@, st, demands@, rv(old(routes)@), old(route_demand)@),
    ensures
        so_progress(dm@, rt@, dt@, st, demands@, cap as int, rv(old(routes)@), rv(final(routes)@), final(route_demand)@),
        final(routes)@.len() == old(routes)@.len(),
        forall|k: int| 0 <= k < final(routes)@.len() ==> (#[trigger] final(routes)@[k]@).len() == old(routes)@[k]@.len(),
        res ==> total_len(dm@, rv(final(routes)@)) < total_len(dm@, rv(old(routes)@)),
        !res ==> rv(final(routes)@) == rv(old(routes)@) && final(route_demand)@ == old(route_demand)@,
{
    let ghost ors = rv(routes@);
    let ghost ord = route_demand@;
    let mut any_improved = false;
    let mut improved = true;
    proof {
        assert forall|k: int| 0 <= k < ors.len() implies ors.contains(#[trigger] ors[k]) || route_tw_ok(dm@, rt@, dt@, st as int, ors[k]) by {
        }
        assert forall|k: int| 0 <= k < ors.len() implies nodes_below(#[trigger] ors[k], dm@.len() as int) by {
        }
        lemma_total_len_nonneg_dm(dm@, ors);
    }
    let nroutes = routes.len();
    while improved
        invariant
            so_progress(dm@, rt@, dt@, st, demands@, cap as int, ors, rv(routes@), route_demand@),
            routes@.len() == nroutes,
            forall|k: int| 0 <= k < routes@.len() ==> (#[trigger] routes@[k]@).len() == old(routes)@[k]@.len(),
            total_len(dm@, rv(routes@)) >= 0,
            any_improved ==> total_len(dm@, rv(routes@)) < total_len(dm@, ors),
            !any_improved ==> rv(routes@) == ors && route_demand@ == ord,
        decreases total_len(dm@, rv(routes@)) + (if improved { 1int } else { 0int }),
    {
        let ghost s0 = rv(routes@);
        improved = false;
        if at_least(&elapsed_since(start), budget) {
            break;
        }
        let mut stop = false;
        let mut r1: usize = 0;
        while r1 < nroutes && !stop
            invariant
                so_progress(dm@, rt@, dt@, st, demands@, cap as int, ors, rv(routes@), route_demand@),
                routes@.len() == nroutes,
                forall|k: int| 0 <= k < routes@.len() ==> (#[trigger] routes@[k]@).len() == old(routes)@[k]@.len(),
                total_len(dm@, rv(routes@)) >= 0,
                any_improved ==> total_len(dm@, rv(routes@)) < total_len(dm@, ors),
                !any_improved ==> rv(routes@) == ors && route_demand@ == ord,
                improved ==> total_len(dm@, rv(routes@)) < total_len(dm@, s0),
                !improved ==> rv(routes@) == s0,
                improved ==> any_improved,
            decreases nroutes - r1,
        {
            let mut r2: usize = r1 + 1;
            while r2 < nroutes && !stop
                invariant
                    so_progress(dm@, rt@, dt@, st, demands@, cap as int, ors, rv(routes@), route_demand@),
                    routes@.len() == nroutes,
                    forall|k: int| 0 <= k < routes@.len() ==> (#[trigger] routes@[k]@).len() == old(routes)@[k]@.len(),
                    r1 < r2,
                    r1 < nroutes,
                    total_len(dm@, rv(routes@)) >= 0,
                    any_improved ==> total_len(dm@, rv(routes@)) < total_len(dm@, ors),
                    !any_improved ==> rv(routes@) == ors && route_demand@ == ord,
                    improved ==> total_len(dm@, rv(routes@)) < total_len(dm@, s0),
                    !improved ==> rv(routes@) == s0,
                    improved ==> any_improved,
                decreases nroutes - r2,
            {
                let mut i: usize = 1;
                assert(rv(routes@)[r1 as int] == routes@[r1 as int]@);
                while i < routes[r1].len() - 1 && !stop
                    invariant
                        so_progress(dm@, rt@, dt@, st, demands@, cap as int, ors, rv(routes@), route_demand@),
                        routes@.len() == nroutes,
                        forall|k: int| 0 <= k < routes@.len() ==> (#[trigger] routes@[k]@).len() == old(routes)@[k]@.len(),
                        r1 < r2 < nroutes,
                        1 <= i,
                        routes@[r1 as int]@.len() >= 2,
                        total_len(dm@, rv(routes@)) >= 0,
                        any_improved ==> total_len(dm@, rv(routes@)) < total_len(dm@, ors),
                        !any_improved ==> rv(routes@) == ors && route_demand@ == ord,
                        improved ==> total_len(dm@, rv(routes@)) < total_len(dm@, s0),
                        !improved ==> rv(routes@) == s0,
                        improved ==> any_improved,
                    decreases routes@[r1 as int]@.len() - i,
                {
                    if at_least(&elapsed_since(start), budget) {
                        stop = true;
                        break;
                    } else {
                        let ghost rs = rv(routes@);
                        let ghost rdv = route_demand@;
                        assert(rs[r1 as int] == routes@[r1 as int]@);
                        assert(rs[r2 as int] == routes@[r2 as int]@);
                        proof {
                            lemma_total_nodes(rs, 0, rs[0]);
                            lemma_demand_sum_bounds(demands@, inner(rs[r1 as int]));
                            lemma_demand_sum_bounds(demands@, inner(rs[r2 as int]));
                            assert(100_000 * inner(rs[r1 as int]).len() <= 100_000 * LEN_LIMIT) by (nonlinear_arith)
                                requires
                                    inner(rs[r1 as int]).len() <= LEN_LIMIT,
                            ;
                            assert(100_000 * inner(rs[r2 as int]).len() <= 100_000 * LEN_LIMIT) by (nonlinear_arith)
                                requires
                                    inner(rs[r2 as int]).len() <= LEN_LIMIT,
                            ;
                        }
                        match first_exchange_partner(&routes[r1], &routes[r2], route_demand[r1], route_demand[r2], i, dm, rt, dt, st, demands, cap) {
                            Some(j) => {
                                apply_so_exchange(routes, route_demand, r1, r2, i, j, dm, rt, dt, st, demands, cap);
                                any_improved = true;
                                improved = true;
                                proof {
                                    assert forall|k: int| 0 <= k < rv(routes@).len() implies ors.contains(#[trigger] rv(routes@)[k])
                                        || route_tw_ok(dm@, rt@, dt@, st as int, rv(routes@)[k]) && route_demand@[k] <= cap by {
                                        if rv(routes@)[k] == rs[k] && route_demand@[k] == rdv[k] {
                                            assert(ors.contains(rs[k]) || route_tw_ok(dm@, rt@, dt@, st as int, rs[k]) && rdv[k] <= cap);
                                        }
                                    }
                                    assert forall|k: int| 0 <= k < rv(routes@).len() implies nodes_below(#[trigger] rv(routes@)[k], dm@.len() as int) by {
                                    }
                                    lemma_total_len_nonneg_dm(dm@, rv(routes@));
                                    assert(rv(routes@)[r1 as int] == routes@[r1 as int]@);
                                }
                                i += 1;
                            },
                            None => {
                                i += 1;
                            },
                        }
                    }
                }
                r2 += 1;
            }
            r1 += 1;
        }
    }
    any_improved
}


/// One exchange sweep, with no time limit: the pairs `r1 < r2` and the
/// customers of `r1` in order, each customer exchanged with its first valid
/// partner in `r2` (see `first_exchange_partner`). Reports whether it exchanged
/// any pair; when it did not, no pair of routes admits a valid exchange.
#[verifier::rlimit(60)]
#[verifier::spinoff_prover]
pub fn exchange_sweep(
    routes: &mut Vec<Vec<usize>>,
    route_demand: &mut Vec<i32>,
    dm: &[Vec<i32>],
    rt: &[i32],
    dt: &[i32],
    st: i32,
    demands: &[i32],
    cap: i32,
) -> (moved: bool)
    requires
        so_state(dm@, rt@, dt@, st, demands@, rv(old(routes)@), old(route_demand)@),
    ensures
        so_progress(dm@, rt@, dt@, st, demands@, cap as int, rv(old(routes)@), rv(final(routes)@), final(route_demand)@),
        final(routes)@.len() == old(routes)@.len(),
        forall|k: int| 0 <= k < final(routes)@.len() ==> (#[trigger] final(routes)@[k]@).len() == old(routes)@[k]@.len(),
        moved ==> total_len(dm@, rv(final(routes)@)) < total_len(dm@, rv(old(routes)@)),
        !moved ==> rv(final(routes)@) == rv(old(routes)@) && final(route_demand)@ == old(route_demand)@,
        !moved ==> forall|r1: int, r2: int, i: int, j: int| 0 <= r1 < r2 < old(routes)@.len() ==>
            !#[trigger] so_ex_valid(dm@, rt@, dt@, st as int, demands@, cap as int, rv(old(routes)@)[r1], rv(old(routes)@)[r2],
                old(route_demand)@[r1] as int, old(route_demand)@[r2] as int, i, j),
{
    let ghost ors = rv(routes@);
    let ghost ord = route_demand@;
    let mut moved = false;
    proof {
        assert forall|k: int| 0 <= k < ors.len() implies ors.contains(#[trigger] ors[k]) || route_tw_ok(dm@, rt@, dt@, st as int, ors[k]) && ord[k] <= cap by {
        }
        assert forall|k: int| 0 <= k < ors.len() implies nodes_below(#[trigger] ors[k], dm@.len() as int) by {
        }
        lemma_total_len_nonneg_dm(dm@, ors);
    }
    let nroutes = routes.len();
    let mut r1: usize = 0;
    while r1 < nroutes
        invariant
            so_progress(dm@, rt@, dt@, st, demands@, cap as int, ors, rv(routes@), route_demand@),
            routes@.len() == nroutes,
            forall|k: int| 0 <= k < routes@.len() ==> (#[trigger] routes@[k]@).len() == old(routes)@[k]@.len(),
            ors == rv(old(routes)@),
            ord == old(route_demand)@,
            total_len(dm@, rv(routes@)) >= 0,
            moved ==> total_len(dm@, rv(routes@)) < total_len(dm@, ors),
            !moved ==> rv(routes@) == ors && route_demand@ == ord,
            !moved ==> forall|a: int, b: int, i: int, j: int| 0 <= a < r1 && a < b < nroutes ==>
                !#[trigger] so_ex_valid(dm@, rt@, dt@, st as int, demands@, cap as int, ors[a], ors[b], ord[a] as int, ord[b] as int, i, j),
        decreases nroutes - r1,
    {
        let mut r2: usize = r1 + 1;
        while r2 < nroutes
            invariant
                so_progress(dm@, rt@, dt@, st, demands@, cap as int, ors, rv(routes@), route_demand@),
                routes@.len() == nroutes,
                forall|k: int| 0 <= k < routes@.len() ==> (#[trigger] routes@[k]@).len() == old(routes)@[k]@.len(),
                ors == rv(old(routes)@),
                ord == old(route_demand)@,
                r1 < r2,
                r1 < nroutes,
                total_len(dm@, rv(routes@)) >= 0,
                moved ==> total_len(dm@, rv(routes@)) < total_len(dm@, ors),
                !moved ==> rv(routes@) == ors && route_demand@ == ord,
                !moved ==> forall|a: int, b: int, i: int, j: int| (0 <= a < r1 && a < b < nroutes || a == r1 && a < b < r2) ==>
                    !#[trigger] so_ex_valid(dm@, rt@, dt@, st as int, demands@, cap as int, ors[a], ors[b], ord[a] as int, ord[b] as int, i, j),
            decreases nroutes - r2,
        {
            let mut i: usize = 1;
            assert(rv(routes@)[r1 as int] == routes@[r1 as int]@);
            while i < routes[r1].len() - 1
                invariant
                    so_progress(dm@, rt@, dt@, st, demands@, cap as int, ors, rv(routes@), route_demand@),
                    routes@.len() == nroutes,
                    forall|k: int| 0 <= k < routes@.len() ==> (#[trigger] routes@[k]@).len() == old(routes)@[k]@.len(),
                    ors == rv(old(routes)@),
                    ord == old(route_demand)@,
                    r1 < r2 < nroutes,
                    1 <= i,
                    routes@[r1 as int]@.len() >= 2,
                    total_len(dm@, rv(routes@)) >= 0,
                    moved ==> total_len(dm@, rv(routes@)) < total_len(dm@, ors),
                    !moved ==> rv(routes@) == ors && route_demand@ == ord,
                    !moved ==> forall|a: int, b: int, i2: int, j: int| (0 <= a < r1 && a < b < nroutes || a == r1 && a < b < r2
                        || a == r1 && b == r2 && i2 < i) ==>
                        !#[trigger] so_ex_valid(dm@, rt@, dt@, st as int, demands@, cap as int, ors[a], ors[b], ord[a] as int, ord[b] as int, i2, j),
                decreases routes@[r1 as int]@.len() - i,
            {
                let ghost rs = rv(routes@);
                let ghost rdv = route_demand@;
                assert(rs[r1 as int] == routes@[r1 as int]@);
                assert(rs[r2 as int] == routes@[r2 as int]@);
                proof {
                    lemma_total_nodes(rs, 0, rs[0]);
                    lemma_demand_sum_bounds(demands@, inner(rs[r1 as int]));
                    lemma_demand_sum_bounds(demands@, inner(rs[r2 as int]));
                    assert(100_000 * inner(rs[r1 as int]).len() <= 100_000 * LEN_LIMIT) by (nonlinear_arith)
                        requires
                            inner(rs[r1 as int]).len() <= LEN_LIMIT,
                    ;
                    assert(100_000 * inner(rs[r2 as int]).len() <= 100_000 * LEN_LIMIT) by (nonlinear_arith)
                        requires
                            inner(rs[r2 as int]).len() <= LEN_LIMIT,
                    ;
                }
                match first_exchange_partner(&routes[r1], &routes[r2], route_demand[r1], route_demand[r2], i, dm, rt, dt, st, demands, cap) {
                    Some(j) => {
                        apply_so_exchange(routes, route_demand, r1, r2, i, j, dm, rt, dt, st, demands, cap);
                        moved = true;
                        proof {
                            assert forall|k: int| 0 <= k < rv(routes@).len() implies ors.contains(#[trigger] rv(routes@)[k])
                                || route_tw_ok(dm@, rt@, dt@, st as int, rv(routes@)[k]) && route_demand@[k] <= cap by {
                                if rv(routes@)[k] == rs[k] && route_demand@[k] == rdv[k] {
                                    assert(ors.contains(rs[k]) || route_tw_ok(dm@, rt@, dt@, st as int, rs[k]) && rdv[k] <= cap);
                                }
                            }
                            assert forall|k: int| 0 <= k < rv(routes@).len() implies nodes_below(#[trigger] rv(routes@)[k], dm@.len() as int) by {
                            }
                            lemma_total_len_nonneg_dm(dm@, rv(routes@));
                            assert(rv(routes@)[r1 as int] == routes@[r1 as int]@);
                        }
                        i += 1;
                    },
                    None => {
                        i += 1;
                    },
                }
            }
            r2 += 1;
        }
        r1 += 1;
    }
    moved
}

} // verus!
