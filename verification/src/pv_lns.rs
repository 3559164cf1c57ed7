//! The decisions of the primal-viper large-neighbourhood search: the nearest
//! customer lists its local search is guided by, how many customers each round
//! removes, which destroy and repair operators it uses, and when a candidate
//! replaces the best solution.

use vstd::prelude::*;
use std::time::Instant;
use crate::model::{Challenge, Solution, proper, nodes_below, rv, all_custs, total_len, route_len, dd, LEN_LIMIT, VALUE_LIMIT};
use crate::pv_oropt::neighbors_ok;
use crate::primal_viper::{symmetric, repair_greedy, XorshiftRng};
use crate::pv_regret::repair_regret_k;
use crate::pv_ls::local_search_loop;
use crate::pv_passes::{dsum, pv_state, demands_exact};
use crate::construct::total_nodes;
use crate::algorithm::{all_proper, drop_empty, keep_nonempty, lemma_keep_nonempty_custs};
use crate::alns::lemma_keep_nonempty_members;

verus! {

/// How many nearest customers each customer's list keeps.
pub const NEIGHBOR_COUNT: usize = 40;

/// Customer `a` comes before customer `b` in `c`'s nearest list: it is nearer
/// to `c`, or as near and of lower index.
pub open spec fn nearer(ch: Challenge, c: int, a: int, b: int) -> bool {
    let row = ch.distance_matrix@[c]@;
    row[a] < row[b] || (row[a] == row[b] && a < b)
}

/// A customer other than `c`.
pub open spec fn other_customer(ch: Challenge, c: int, o: int) -> bool {
    1 <= o < ch.num_nodes && o != c
}

/// `l` lists customers other than `c`, nearest first (ties to the lower index),
/// at most `NEIGHBOR_COUNT` of them; every customer left out is farther than all
/// listed ones, and one is left out only when the list is full.
pub open spec fn nearest_list(ch: Challenge, c: int, l: Seq<usize>) -> bool {
    &&& l.len() <= NEIGHBOR_COUNT
    &&& forall|k: int| 0 <= k < l.len() ==> other_customer(ch, c, #[trigger] l[k] as int)
    &&& forall|i: int, j: int| 0 <= i < j < l.len() ==> nearer(ch, c, #[trigger] l[i] as int, #[trigger] l[j] as int)
    &&& forall|o: int, k: int| other_customer(ch, c, o) && !l.contains(o as usize) && 0 <= k < l.len()
        ==> #[trigger] nearer(ch, c, l[k] as int, o)
    &&& l.len() < NEIGHBOR_COUNT ==> forall|o: int| other_customer(ch, c, o) ==> #[trigger] l.contains(o as usize)
}

/// Customer `o` comes after `last` in `c`'s order (any customer does, with no
/// `last`).
pub open spec fn after_last(ch: Challenge, c: int, last: Option<usize>, o: int) -> bool {
    match last {
        None => true,
        Some(l) => nearer(ch, c, l as int, o),
    }
}

/// The customer nearest to `c` that comes after `last` in `c`'s order (any,
/// with no `last`), if there is one.
fn next_nearest(ch: &Challenge, c: usize, last: Option<usize>) -> (res: Option<usize>)
    requires
        ch.wf(),
        1 <= c < ch.num_nodes,
        last matches Some(l) ==> (l as int) < ch.num_nodes,
    ensures
        res matches Some(b) ==> other_customer(*ch, c as int, b as int)
            && after_last(*ch, c as int, last, b as int)
            && forall|o: int| other_customer(*ch, c as int, o) && after_last(*ch, c as int, last, o) && o != b
                ==> #[trigger] nearer(*ch, c as int, b as int, o),
        res is None ==> forall|o: int| other_customer(*ch, c as int, o) ==> !#[trigger] after_last(*ch, c as int, last, o),
{
    let n = ch.num_nodes;
    let row = &ch.distance_matrix[c];
    let mut best: Option<usize> = None;
    let mut o: usize = 1;
    while o < n
        invariant
            ch.wf(),
            n == ch.num_nodes,
            1 <= c < n,
            1 <= o <= n,
            row@ == ch.distance_matrix@[c as int]@,
            row@.len() == n,
            last matches Some(l) ==> (l as int) < n,
            best matches Some(b) ==> other_customer(*ch, c as int, b as int) && b < o
                && after_last(*ch, c as int, last, b as int)
                && forall|q: int| 1 <= q < o && other_customer(*ch, c as int, q) && after_last(*ch, c as int, last, q) && q != b
                    ==> #[trigger] nearer(*ch, c as int, b as int, q),
            best is None ==> forall|q: int| 1 <= q < o && other_customer(*ch, c as int, q) ==> !#[trigger] after_last(*ch, c as int, last, q),
        decreases n - o,
    {
        if o != c {
            let after = match last {
                None => true,
                Some(l) => row[l] < row[o] || (row[l] == row[o] && l < o),
            };
            assert(after == after_last(*ch, c as int, last, o as int));
            if after {
                let better = match best {
                    None => true,
                    Some(b) => row[o] < row[b] || (row[o] == row[b] && o < b),
                };
                if better {
                    proof {
                        match best {
                            Some(b) => {
                                assert(nearer(*ch, c as int, o as int, b as int));
                                assert forall|q: int| 1 <= q < o + 1 && other_customer(*ch, c as int, q) && after_last(*ch, c as int, last, q) && q != o
                                    implies #[trigger] nearer(*ch, c as int, o as int, q) by {
                                    if q != b as int {
                                        assert(nearer(*ch, c as int, b as int, q));
                                    }
                                }
                            },
                            None => {
                                assert forall|q: int| 1 <= q < o + 1 && other_customer(*ch, c as int, q) && after_last(*ch, c as int, last, q) && q != o
                                    implies #[trigger] nearer(*ch, c as int, o as int, q) by {
                                    assert(!after_last(*ch, c as int, last, q));
                                }
                            },
                        }
                    }
                    best = Some(o);
                } else {
                    proof {
                        let b = best->0;
                        assert(nearer(*ch, c as int, b as int, o as int));
                    }
                }
            }
        }
        o += 1;
    }
    best
}

/// The nearest-customer list of customer `c`.
fn nearest_of(ch: &Challenge, c: usize) -> (l: Vec<usize>)
    requires
        ch.wf(),
        1 <= c < ch.num_nodes,
    ensures
        nearest_list(*ch, c as int, l@),
{
    let mut out: Vec<usize> = Vec::new();
    let mut last: Option<usize> = None;
    while out.len() < NEIGHBOR_COUNT
        invariant
            ch.wf(),
            1 <= c < ch.num_nodes,
            out@.len() <= NEIGHBOR_COUNT,
            last is None <==> out@.len() == 0,
            last matches Some(l) ==> l == out@.last(),
            forall|k: int| 0 <= k < out@.len() ==> other_customer(*ch, c as int, #[trigger] out@[k] as int),
            forall|i: int, j: int| 0 <= i < j < out@.len() ==> nearer(*ch, c as int, #[trigger] out@[i] as int, #[trigger] out@[j] as int),
            forall|o: int, k: int| other_customer(*ch, c as int, o) && !out@.contains(o as usize) && 0 <= k < out@.len()
                ==> #[trigger] nearer(*ch, c as int, out@[k] as int, o),
        ensures
            nearest_list(*ch, c as int, out@),
        decreases NEIGHBOR_COUNT - out@.len(),
    {
        match next_nearest(ch, c, last) {
            None => {
                proof {
                    assert forall|o: int| other_customer(*ch, c as int, o) implies #[trigger] out@.contains(o as usize) by {
                        if !out@.contains(o as usize) {
                            assert(after_last(*ch, c as int, last, o));
                            if out@.len() > 0 {
                                assert(nearer(*ch, c as int, out@[out@.len() - 1] as int, o));
                            }
                        }
                    }
                }
                break;
            },
            Some(b) => {
                let ghost prev = out@;
                proof {
                    assert forall|k: int| 0 <= k < prev.len() implies nearer(*ch, c as int, #[trigger] prev[k] as int, b as int) by {
                        if k < prev.len() - 1 {
                            assert(nearer(*ch, c as int, prev[k] as int, prev[prev.len() - 1] as int));
                        }
                    }
                    assert(!prev.contains(b)) by {
                        if prev.contains(b) {
                            let k = choose|k: int| 0 <= k < prev.len() && prev[k] == b;
                            assert(nearer(*ch, c as int, prev[k] as int, b as int));
                        }
                    }
                }
                out.push(b);
                last = Some(b);
                proof {
                    assert forall|o: int, k: int| other_customer(*ch, c as int, o) && !out@.contains(o as usize) && 0 <= k < out@.len()
                        implies #[trigger] nearer(*ch, c as int, out@[k] as int, o) by {
                        assert(!prev.contains(o as usize)) by {
                            if prev.contains(o as usize) {
                                let q = choose|q: int| 0 <= q < prev.len() && prev[q] == o as usize;
                                assert(out@[q] == o as usize);
                            }
                        }
                        assert(o != b as int) by {
                            if o == b as int {
                                assert(out@[prev.len() as int] == b);
                            }
                        }
                        if prev.len() > 0 {
                            assert(nearer(*ch, c as int, prev[prev.len() - 1] as int, o));
                        }
                        assert(nearer(*ch, c as int, b as int, o));
                        if k < prev.len() {
                            assert(out@[k] == prev[k]);
                        }
                    }
                    assert forall|i: int, j: int| 0 <= i < j < out@.len() implies nearer(*ch, c as int, #[trigger] out@[i] as int, #[trigger] out@[j] as int) by {
                        if j < prev.len() {
                            assert(out@[i] == prev[i] && out@[j] == prev[j]);
                        } else {
                            assert(out@[i] == prev[i]);
                        }
                    }
                }
            },
        }
    }
    out
}

/// The nearest-customer lists that guide the primal-viper local search: none for
/// the depot, and for each customer its `NEIGHBOR_COUNT` nearest other
/// customers, nearest first.
pub fn pv_neighbors(ch: &Challenge) -> (nb: Vec<Vec<usize>>)
    requires
        ch.wf(),
    ensures
        neighbors_ok(*ch, nb@),
        nb@[0]@.len() == 0,
        forall|c: int| 1 <= c < ch.num_nodes ==> nearest_list(*ch, c, #[trigger] nb@[c]@),
{
    let n = ch.num_nodes;
    let mut nb: Vec<Vec<usize>> = Vec::new();
    nb.push(Vec::new());
    let mut c: usize = 1;
    while c < n
        invariant
            ch.wf(),
            n == ch.num_nodes,
            1 <= c <= n,
            nb@.len() == c,
            nb@[0]@.len() == 0,
            forall|q: int| 1 <= q < c ==> nearest_list(*ch, q, #[trigger] nb@[q]@),
            forall|q: int| 0 <= q < c ==> nodes_below(#[trigger] nb@[q]@, n as int),
        decreases n - c,
    {
        let l = nearest_of(ch, c);
        let ghost prev = nb@;
        nb.push(l);
        proof {
            assert forall|q: int| 1 <= q < c + 1 implies nearest_list(*ch, q, #[trigger] nb@[q]@) by {
                if q < c {
                    assert(nb@[q] == prev[q]);
                }
            }
            assert forall|q: int| 0 <= q < c + 1 implies nodes_below(#[trigger] nb@[q]@, n as int) by {
                if q < c {
                    assert(nb@[q] == prev[q]);
                } else {
                    assert forall|k: int| 0 <= k < nb@[q]@.len() implies (#[trigger] nb@[q]@[k] as int) < n by {
                        assert(other_customer(*ch, c as int, l@[k] as int));
                    }
                }
            }
        }
        c += 1;
    }
    nb
}

/// The destroy operator of one round.
#[derive(Clone, Copy, PartialEq, Eq, Debug)]
pub enum DestroyKind {
    Random,
    Worst,
    Shaw,
}

/// What one round of the search does: how many customers it removes, with
/// which destroy operator, and whether it repairs by regret.
#[derive(Clone, Copy, PartialEq, Eq, Debug)]
pub struct RoundPlan {
    pub num_remove: usize,
    pub kind: DestroyKind,
    pub use_regret: bool,
}

/// The divisor of the removal size for a draw: an eighth for draws ending in
/// 0 or 1, a fifth for 2 to 7, a third otherwise.
pub open spec fn removal_divisor(draw: u64) -> int {
    let b = draw % 10;
    if b <= 1 { 8 } else if b <= 7 { 5 } else { 3 }
}

/// Round `iter`, with removal-size draw `draw`, on `num_customers` customers:
/// it removes the share of the customers that the draw picks, at least ten and
/// at most all of them; the destroy operator goes round random, worst, related;
/// every fourth round repairs by regret, the others greedily.
pub fn round_plan(iter: u32, draw: u64, num_customers: usize) -> (plan: RoundPlan)
    ensures
        plan.num_remove == vstd::math::min(vstd::math::max(num_customers as int / removal_divisor(draw), 10), num_customers as int),
        plan.kind == (if iter % 3 == 0 { DestroyKind::Random } else if iter % 3 == 1 { DestroyKind::Worst } else { DestroyKind::Shaw }),
        plan.use_regret == (iter % 4 == 0),
{
    let b = draw % 10;
    let d: usize = if b <= 1 { 8 } else if b <= 7 { 5 } else { 3 };
    let share = num_customers / d;
    let at_least = if share > 10 { share } else { 10 };
    let num_remove = if at_least < num_customers { at_least } else { num_customers };
    let kind = if iter % 3 == 0 { DestroyKind::Random } else if iter % 3 == 1 { DestroyKind::Worst } else { DestroyKind::Shaw };
    RoundPlan { num_remove, kind, use_regret: iter % 4 == 0 }
}

/// The length of the first `i + 1` routes is that of the first `i` plus route `i`.
proof fn lemma_total_len_step(dm: Seq<Vec<i32>>, rs: Seq<Seq<usize>>, i: int)
    requires
        0 <= i < rs.len(),
    ensures
        total_len(dm, rs.subrange(0, i + 1)) == total_len(dm, rs.subrange(0, i)) + route_len(dm, rs[i]),
{
    assert(rs.subrange(0, i + 1).drop_last() =~= rs.subrange(0, i));
}

/// The length of the first `k + 1` nodes of a route is that of the first `k`
/// plus the edge into node `k`.
proof fn lemma_route_len_step(dm: Seq<Vec<i32>>, r: Seq<usize>, k: int)
    requires
        1 <= k < r.len(),
    ensures
        route_len(dm, r.subrange(0, k + 1)) == route_len(dm, r.subrange(0, k)) + dd(dm, r[k - 1], r[k]),
{
    let s = r.subrange(0, k + 1);
    assert(s.drop_last() =~= r.subrange(0, k));
    assert(s[s.len() - 2] == r[k - 1]);
}

/// The demand of the first `k + 1` nodes is that of the first `k` plus node `k`.
proof fn lemma_dsum_step(ch: Challenge, r: Seq<usize>, k: int)
    requires
        0 <= k < r.len(),
    ensures
        dsum(ch, r.subrange(0, k + 1)) == dsum(ch, r.subrange(0, k)) + ch.demand(r[k]),
{
    assert(r.subrange(0, k + 1).drop_last() =~= r.subrange(0, k));
}

/// The node count of the first `i + 1` routes is that of the first `i` plus route `i`.
proof fn lemma_total_nodes_step(rs: Seq<Seq<usize>>, i: int)
    requires
        0 <= i < rs.len(),
    ensures
        total_nodes(rs.subrange(0, i + 1)) == total_nodes(rs.subrange(0, i)) + rs[i].len(),
{
    assert(rs.subrange(0, i + 1).drop_last() =~= rs.subrange(0, i));
}

/// The nodes of the first `j` routes are no more than those of all routes.
proof fn lemma_total_nodes_prefix_le(rs: Seq<Seq<usize>>, j: int)
    requires
        0 <= j <= rs.len(),
    ensures
        total_nodes(rs.subrange(0, j)) <= total_nodes(rs),
    decreases rs.len(),
{
    if j == rs.len() {
        assert(rs.subrange(0, j) =~= rs);
    } else {
        lemma_total_nodes_prefix_le(rs.drop_last(), j);
        assert(rs.drop_last().subrange(0, j) =~= rs.subrange(0, j));
    }
}

/// The total length of the routes, summed route by route and edge by edge in an
/// `i64`; `None` if a partial sum leaves its range.
pub fn total_len_checked(routes: &Vec<Vec<usize>>, ch: &Challenge) -> (res: Option<i64>)
    requires
        ch.wf(),
        forall|i: int| 0 <= i < routes@.len() ==> nodes_below(#[trigger] routes@[i]@, ch.num_nodes as int),
    ensures
        res matches Some(t) ==> t == total_len(ch.distance_matrix@, rv(routes@)),
{
    let ghost rs = rv(routes@);
    let ghost dm = ch.distance_matrix@;
    let mut t: i64 = 0;
    let mut i: usize = 0;
    assert(rs.subrange(0, 0) =~= Seq::<Seq<usize>>::empty());
    while i < routes.len()
        invariant
            ch.wf(),
            dm == ch.distance_matrix@,
            rs == rv(routes@),
            forall|j: int| 0 <= j < routes@.len() ==> nodes_below(#[trigger] routes@[j]@, ch.num_nodes as int),
            i <= routes@.len(),
            t == total_len(dm, rs.subrange(0, i as int)),
        decreases routes.len() - i,
    {
        let r = &routes[i];
        assert(rs[i as int] == r@);
        let mut s: i64 = 0;
        if r.len() >= 2 {
            let mut k: usize = 1;
            while k < r.len()
                invariant
                    ch.wf(),
                    dm == ch.distance_matrix@,
                    nodes_below(r@, ch.num_nodes as int),
                    1 <= k <= r@.len(),
                    s == route_len(dm, r@.subrange(0, k as int)),
                decreases r.len() - k,
            {
                proof {
                    lemma_route_len_step(dm, r@, k as int);
                }
                let d = ch.distance_matrix[r[k - 1]][r[k]] as i64;
                match s.checked_add(d) {
                    Some(v) => {
                        s = v;
                    },
                    None => {
                        return None;
                    },
                }
                k += 1;
            }
            assert(r@.subrange(0, r@.len() as int) =~= r@);
        }
        proof {
            lemma_total_len_step(dm, rs, i as int);
        }
        match t.checked_add(s) {
            Some(v) => {
                t = v;
            },
            None => {
                return None;
            },
        }
        i += 1;
    }
    assert(rs.subrange(0, i as int) =~= rs);
    Some(t)
}

/// Whether the routes are as the local search takes them: each runs from the
/// depot back to it through customers, each has its demand recorded, and all
/// together they have at most `LEN_LIMIT` nodes.
pub fn ls_ready(routes: &Vec<Vec<usize>>, rd: &Vec<i32>, ch: &Challenge) -> (ok: bool)
    requires
        ch.wf(),
        forall|i: int| 0 <= i < routes@.len() ==> ch.route_ok(#[trigger] routes@[i]@),
    ensures
        ok == (pv_state(*ch, rv(routes@), rd@) && demands_exact(*ch, rv(routes@), rd@) && all_proper(rv(routes@))),
{
    let ghost rs = rv(routes@);
    if rd.len() != routes.len() {
        return false;
    }
    let mut nodes: usize = 0;
    let mut i: usize = 0;
    assert(rs.subrange(0, 0) =~= Seq::<Seq<usize>>::empty());
    while i < routes.len()
        invariant
            ch.wf(),
            rs == rv(routes@),
            rd@.len() == routes@.len(),
            forall|j: int| 0 <= j < routes@.len() ==> ch.route_ok(#[trigger] routes@[j]@),
            i <= routes@.len(),
            nodes == total_nodes(rs.subrange(0, i as int)),
            nodes <= LEN_LIMIT,
            forall|j: int| 0 <= j < i ==> proper(#[trigger] rs[j]) && rd@[j] == dsum(*ch, rs[j]),
        decreases routes.len() - i,
    {
        let r = &routes[i];
        assert(rs[i as int] == r@);
        proof {
            lemma_total_nodes_step(rs, i as int);
        }
        if r.len() > LEN_LIMIT - nodes {
            proof {
                lemma_total_nodes_prefix_le(rs, i as int + 1);
            }
            return false;
        }
        nodes = nodes + r.len();
        if r.len() < 2 || r[0] != 0 || r[r.len() - 1] != 0 {
            return false;
        }
        let mut sum: i64 = 0;
        let mut k: usize = 0;
        assert(r@.subrange(0, 0) =~= Seq::<usize>::empty());
        while k < r.len()
            invariant
                ch.wf(),
                ch.route_ok(r@),
                rs == rv(routes@),
                (i as int) < rs.len(),
                rs[i as int] == r@,
                2 <= r@.len() <= LEN_LIMIT,
                k <= r@.len(),
                sum == dsum(*ch, r@.subrange(0, k as int)),
                0 <= sum <= VALUE_LIMIT * k,
                forall|q: int| 0 < q < k && q < r@.len() - 1 ==> #[trigger] r@[q] != 0,
            decreases r.len() - k,
        {
            if k > 0 && k < r.len() - 1 && r[k] == 0 {
                assert(!proper(rs[i as int]));
                assert(!all_proper(rs));
                return false;
            }
            proof {
                lemma_dsum_step(*ch, r@, k as int);
                assert(crate::model::in_limit(ch.demands@[r@[k as int] as int]));
            }
            sum = sum + ch.demands[r[k]] as i64;
            k += 1;
        }
        assert(r@.subrange(0, r@.len() as int) =~= r@);
        if sum != rd[i] as i64 {
            return false;
        }
        i += 1;
    }
    assert(rs.subrange(0, i as int) =~= rs);
    true
}
/// One round of the search on a destroyed copy of the best solution (no route
/// of it empty, `removed` its missing customers): the removed customers are put
/// back by regret or greedily, the local search runs on the repaired routes
/// (the round is given up if they are not as it takes them), routes left
/// without customers are dropped, and the result replaces the best solution
/// when it is shorter.
pub fn pv_lns_iteration(
    best: &mut Solution,
    candidate: Solution,
    cand_demand: Vec<i32>,
    removed: Vec<usize>,
    use_regret: bool,
    ch: &Challenge,
    rng: &mut XorshiftRng,
    neighbors: &Vec<Vec<usize>>,
    start: &Instant,
) -> (improved: bool)
    requires
        ch.wf(),
        neighbors_ok(*ch, neighbors@),
        symmetric(ch.distance_matrix@),
        forall|i: int| 0 <= i < old(best).routes@.len() ==> ch.route_ok(#[trigger] old(best).routes@[i]@),
        forall|i: int| 0 <= i < candidate.routes@.len() ==> ch.route_ok(#[trigger] candidate.routes@[i]@)
            && candidate.routes@[i]@.len() <= LEN_LIMIT,
        cand_demand@.len() == candidate.routes@.len(),
        forall|i: int| 0 <= i < cand_demand@.len() ==> #[trigger] cand_demand@[i] <= i32::MAX - VALUE_LIMIT,
        forall|k: int| 0 <= k < removed@.len() ==> 0 < #[trigger] removed@[k] < ch.num_nodes,
        candidate.routes@.len() + removed@.len() <= LEN_LIMIT,
        all_custs(rv(candidate.routes@)).add(removed@.to_multiset()) == all_custs(rv(old(best).routes@)),
    ensures
        all_custs(rv(final(best).routes@)) == all_custs(rv(old(best).routes@)),
        forall|i: int| 0 <= i < final(best).routes@.len() ==> ch.route_ok(#[trigger] final(best).routes@[i]@),
        improved <==> total_len(ch.distance_matrix@, rv(final(best).routes@)) < total_len(ch.distance_matrix@, rv(old(best).routes@)),
        !improved ==> *final(best) == *old(best),
{
    let mut routes = candidate.routes;
    let mut rd = cand_demand;
    if use_regret {
        repair_regret_k(&mut routes, &mut rd, ch, removed, 2);
    } else {
        repair_greedy(&mut routes, &mut rd, ch, rng, removed);
    }
    let mut sol = Solution { routes };
    if !ls_ready(&sol.routes, &rd, ch) {
        return false;
    }
    local_search_loop(&mut sol, &mut rd, ch, neighbors, start);
    let ghost before_drop = rv(sol.routes@);
    proof {
        assert forall|i: int| 0 <= i < before_drop.len() implies ch.route_ok(#[trigger] before_drop[i]) by {
            assert(before_drop[i] == sol.routes@[i]@);
        }
        assert forall|i: int, k: int| 0 <= i < before_drop.len() && before_drop[i].len() <= 2 && 0 <= k < before_drop[i].len()
            implies #[trigger] before_drop[i][k] == 0 by {
            assert(proper(before_drop[i]));
        }
    }
    drop_empty(&mut sol.routes);
    proof {
        lemma_keep_nonempty_custs(before_drop);
        lemma_keep_nonempty_members(before_drop);
        assert forall|i: int| 0 <= i < sol.routes@.len() implies ch.route_ok(#[trigger] sol.routes@[i]@) by {
            assert(rv(sol.routes@)[i] == sol.routes@[i]@);
            assert(before_drop.contains(rv(sol.routes@)[i]));
            let w = choose|w: int| 0 <= w < before_drop.len() && before_drop[w] == rv(sol.routes@)[i];
            assert(ch.route_ok(before_drop[w]));
        }
    }
    let cand_total = total_len_checked(&sol.routes, ch);
    let best_total = total_len_checked(&best.routes, ch);
    match (cand_total, best_total) {
        (Some(c), Some(b)) => {
            if c < b {
                *best = sol;
                return true;
            }
            false
        },
        _ => false,
    }
}
} // verus!
