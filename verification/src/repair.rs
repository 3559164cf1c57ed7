//! Repair operators of the large neighbourhood search: greedy and regret
//! insertion of the removed customers into the partial routes.
use vstd::prelude::*;
use vstd::multiset::Multiset;
use crate::model::{
    all_custs, custs, cust1, rv, proper, in_limit, dm_ok, nodes_below, Challenge, LEN_LIMIT, VALUE_LIMIT,
    lemma_all_custs_update, lemma_custs_insert, lemma_load_concat,
};
use crate::algorithm::{is_feasible, copy_route, copy_routes, route_load, ins_cost, all_proper};
use crate::alns::{pair_le, sorted_pairs, sort_pairs};

verus! {

/// The last route of `rs` that visits `c`, or -1.
pub open spec fn last_route(rs: Seq<Seq<usize>>, c: usize) -> int
    decreases rs.len(),
{
    if rs.len() == 0 {
        -1
    } else if rs.last().contains(c) {
        rs.len() - 1
    } else {
        last_route(rs.drop_last(), c)
    }
}

/// The route index recorded for node `c`: the last route visiting the customer,
/// `usize::MAX` for the depot and for nodes on no route.
pub open spec fn route_entry(rs: Seq<Seq<usize>>, c: usize) -> usize {
    if c == 0 || last_route(rs, c) < 0 {
        usize::MAX
    } else {
        last_route(rs, c) as usize
    }
}

/// For every node below `n`, the last route that visits it (`usize::MAX` for
/// none and for the depot).
pub fn customer_routes(routes: &[Vec<usize>], n: usize) -> (res: Vec<usize>)
    requires
        forall|i: int| 0 <= i < routes@.len() ==> nodes_below(#[trigger] routes@[i]@, n as int),
        routes@.len() < usize::MAX,
    ensures
        res@.len() == n,
        forall|c: int| 0 <= c < n ==> #[trigger] res@[c] == route_entry(rv(routes@), c as usize),
{
    let ghost rs = rv(routes@);
    let mut res: Vec<usize> = Vec::new();
    while res.len() < n
        invariant
            res@.len() <= n,
            forall|c: int| 0 <= c < res@.len() ==> #[trigger] res@[c] == usize::MAX,
        decreases n - res.len(),
    {
        res.push(usize::MAX);
    }
    let mut ri: usize = 0;
    proof {
        assert forall|c: int| 0 <= c < n implies #[trigger] res@[c] == route_entry(rs.subrange(0, 0), c as usize) by {
            assert(rs.subrange(0, 0).len() == 0);
        }
    }
    while ri < routes.len()
        invariant
            rs == rv(routes@),
            ri <= routes@.len(),
            routes@.len() < usize::MAX,
            res@.len() == n,
            forall|i: int| 0 <= i < routes@.len() ==> nodes_below(#[trigger] routes@[i]@, n as int),
            forall|c: int| 0 <= c < n ==> #[trigger] res@[c] == route_entry(rs.subrange(0, ri as int), c as usize),
        decreases routes.len() - ri,
    {
        let route = &routes[ri];
        assert(rs[ri as int] == route@);
        assert(nodes_below(route@, n as int));
        let ghost pre = rs.subrange(0, ri as int);
        let ghost post = rs.subrange(0, ri + 1);
        assert(post.drop_last() =~= pre);
        assert(post.last() == route@);
        let mut k: usize = 0;
        while k < route.len()
            invariant
                k <= route@.len(),
                nodes_below(route@, n as int),
                res@.len() == n,
                ri < usize::MAX,
                forall|c: int| 0 <= c < n ==> #[trigger] res@[c] == (if c != 0 && route@.subrange(0, k as int).contains(c as usize) {
                    ri
                } else {
                    route_entry(pre, c as usize)
                }),
            decreases route.len() - k,
        {
            let node = route[k];
            if node != 0 {
                res.set(node, ri);
            }
            proof {
                assert forall|c: int| 0 <= c < n implies #[trigger] res@[c] == (if c != 0 && route@.subrange(0, k + 1).contains(c as usize) {
                    ri
                } else {
                    route_entry(pre, c as usize)
                }) by {
                    let a = route@.subrange(0, k as int);
                    let b = route@.subrange(0, k + 1);
                    assert(b[k as int] == node);
                    if a.contains(c as usize) {
                        let w = choose|w: int| 0 <= w < a.len() && #[trigger] a[w] == c as usize;
                        assert(b[w] == c as usize);
                    }
                    if b.contains(c as usize) && c != node as int {
                        let w = choose|w: int| 0 <= w < b.len() && #[trigger] b[w] == c as usize;
                        assert(a[w] == c as usize);
                    }
                }
            }
            k += 1;
        }
        proof {
            assert(route@.subrange(0, k as int) =~= route@);
        }
        ri += 1;
    }
    proof {
        assert(rs.subrange(0, ri as int) =~= rs);
    }
    res
}

/// Whether `v` holds `x`.
fn holds(v: &[usize], x: usize) -> (res: bool)
    ensures
        res == v@.contains(x),
{
    let mut k: usize = 0;
    while k < v.len()
        invariant
            k <= v@.len(),
            forall|j: int| 0 <= j < k ==> v@[j] != x,
        decreases v.len() - k,
    {
        if v[k] == x {
            return true;
        }
        k += 1;
    }
    false
}

/// Route `r` (below `nroutes`) is recorded for one of the nodes `nbs`.
pub open spec fn related_route(cr: Seq<usize>, nbs: Seq<usize>, nroutes: int, r: usize) -> bool {
    &&& (r as int) < nroutes
    &&& exists|k: int| 0 <= k < nbs.len() && #[trigger] cr[nbs[k] as int] == r
}

/// The routes recorded in `cr` for the nodes `nbs`, each once, in order of
/// first appearance.
pub fn candidate_routes(cr: &[usize], nbs: &[usize], nroutes: usize) -> (cand: Vec<usize>)
    requires
        nodes_below(nbs@, cr@.len() as int),
    ensures
        forall|r: usize| cand@.contains(r) <==> #[trigger] related_route(cr@, nbs@, nroutes as int, r),
        forall|k: int| 0 <= k < cand@.len() ==> (#[trigger] cand@[k] as int) < nroutes,
{
    let mut cand: Vec<usize> = Vec::new();
    let mut t: usize = 0;
    while t < nbs.len()
        invariant
            t <= nbs@.len(),
            nodes_below(nbs@, cr@.len() as int),
            forall|k: int| 0 <= k < cand@.len() ==> (#[trigger] cand@[k] as int) < nroutes,
            forall|r: usize| cand@.contains(r) <==> (r as int) < nroutes && exists|k: int| 0 <= k < t && #[trigger] cr@[nbs@[k] as int] == r,
        decreases nbs.len() - t,
    {
        let r = cr[nbs[t]];
        let ghost before = cand@;
        if r < nroutes && !holds(&cand, r) {
            cand.push(r);
        }
        proof {
            assert forall|x: usize| cand@.contains(x) <==> (x as int) < nroutes && exists|k: int| 0 <= k < t + 1 && #[trigger] cr@[nbs@[k] as int] == x by {
                if cand@.contains(x) && x != r {
                    let w = choose|w: int| 0 <= w < cand@.len() && cand@[w] == x;
                    assert(before[w] == x);
                }
                if before.contains(x) {
                    let w = choose|w: int| 0 <= w < before.len() && before[w] == x;
                    assert(cand@[w] == x);
                }
                if (x as int) < nroutes && exists|k: int| 0 <= k < t + 1 && #[trigger] cr@[nbs@[k] as int] == x {
                    let k = choose|k: int| 0 <= k < t + 1 && #[trigger] cr@[nbs@[k] as int] == x;
                    if k == t {
                        if !before.contains(x) {
                            assert(cand@[cand@.len() - 1] == x);
                        }
                    }
                }
            }
        }
        t += 1;
    }
    cand
}

/// Inserting `cust` at position `pos` of `r` gives a feasible route.
pub open spec fn ins_feasible(ch: Challenge, r: Seq<usize>, pos: int, cust: usize) -> bool {
    1 <= pos < r.len() && ch.feasible(r.insert(pos, cust))
}

/// `p` is the first of the cheapest feasible insertion positions of `cust` in `r`.
pub open spec fn first_min_pos(ch: Challenge, r: Seq<usize>, cust: usize, p: int) -> bool {
    let dm = ch.distance_matrix@;
    &&& ins_feasible(ch, r, p, cust)
    &&& forall|q: int| #[trigger] ins_feasible(ch, r, q, cust) ==> ins_cost(dm, r, p, cust) <= ins_cost(dm, r, q, cust)
    &&& forall|q: int| 1 <= q < p && #[trigger] ins_feasible(ch, r, q, cust) ==> ins_cost(dm, r, q, cust) > ins_cost(dm, r, p, cust)
}

/// No position of `r` takes `cust` feasibly.
pub open spec fn no_feasible_pos(ch: Challenge, r: Seq<usize>, cust: usize) -> bool {
    forall|q: int| !#[trigger] ins_feasible(ch, r, q, cust)
}

/// The first cheapest feasible insertion of `cust` into `route`, with its cost.
pub fn best_position(route: &[usize], cust: usize, ch: &Challenge) -> (res: Option<(i32, usize)>)
    requires
        ch.wf(),
        ch.route_ok(route@),
        (cust as int) < ch.num_nodes,
    ensures
        res matches Some((c, p)) ==> first_min_pos(*ch, route@, cust, p as int) && c == ins_cost(
            ch.distance_matrix@,
            route@,
            p as int,
            cust,
        ),
        res is None ==> no_feasible_pos(*ch, route@, cust),
{
    let ghost dm = ch.distance_matrix@;
    let mut best: Option<(i32, usize)> = None;
    let mut pos: usize = 1;
    while pos < route.len()
        invariant
            ch.wf(),
            ch.route_ok(route@),
            (cust as int) < ch.num_nodes,
            dm == ch.distance_matrix@,
            1 <= pos,
            route@.len() == 0 || pos <= route@.len(),
            best is None ==> forall|q: int| 1 <= q < pos ==> !#[trigger] ins_feasible(*ch, route@, q, cust),
            best matches Some((c, p)) ==> {
                &&& 1 <= p < pos
                &&& ins_feasible(*ch, route@, p as int, cust)
                &&& c == ins_cost(dm, route@, p as int, cust)
                &&& forall|q: int| 1 <= q < pos && #[trigger] ins_feasible(*ch, route@, q, cust) ==> c <= ins_cost(dm, route@, q, cust)
                &&& forall|q: int| 1 <= q < p && #[trigger] ins_feasible(*ch, route@, q, cust) ==> ins_cost(dm, route@, q, cust) > c
            },
        decreases route.len() - pos,
    {
        let a = route[pos - 1];
        let b = route[pos];
        proof {
            assert(in_limit(dm[a as int]@[cust as int]));
            assert(in_limit(dm[cust as int]@[b as int]));
            assert(in_limit(dm[a as int]@[b as int]));
        }
        let cost = ch.distance_matrix[a][cust] + ch.distance_matrix[cust][b] - ch.distance_matrix[a][b];
        let better = match best {
            None => true,
            Some((c, _)) => cost < c,
        };
        if better {
            let mut test = copy_route(route);
            test.insert(pos, cust);
            proof {
                assert forall|k: int| 0 <= k < test@.len() implies (#[trigger] test@[k] as int) < ch.num_nodes by {
                    if k < pos {
                        assert(test@[k] == route@[k]);
                    } else if k > pos {
                        assert(test@[k] == route@[k - 1]);
                    }
                }
            }
            if is_feasible(&test, ch) {
                best = Some((cost, pos));
            }
        }
        pos += 1;
    }
    best
}

/// Which routes a scan may use: all (mode 0), the related ones (mode 1) or the
/// others (mode 2).
pub open spec fn route_allowed(mode: u8, cand: Seq<usize>, ri: usize) -> bool {
    mode == 0 || (mode == 1 && cand.contains(ri)) || (mode == 2 && !cand.contains(ri))
}

/// Route `ri` has room for `cust` by its recorded load.
pub open spec fn load_fits(ch: Challenge, loads: Seq<i32>, ri: int, cust: usize) -> bool {
    loads[ri] + ch.demand(cust) <= ch.max_capacity
}

/// Loads recorded per route, one per route, each the route's demand.
pub open spec fn loads_ok(ch: Challenge, rs: Seq<Seq<usize>>, loads: Seq<i32>) -> bool {
    &&& loads.len() == rs.len()
    &&& forall|i: int| 0 <= i < rs.len() ==> #[trigger] loads[i] == ch.load_of(rs[i]) && 0 <= loads[i] <= 1_000_000_000
}

/// For every allowed route with room for `cust` and a feasible position, in route
/// order: the cost and position of its first cheapest feasible insertion.
pub fn route_bests(routes: &[Vec<usize>], cust: usize, loads: &[i32], ch: &Challenge, cand: &[usize], mode: u8) -> (res: Vec<(i32, usize, usize)>)
    requires
        ch.wf(),
        forall|i: int| 0 <= i < routes@.len() ==> ch.route_ok(#[trigger] routes@[i]@),
        (cust as int) < ch.num_nodes,
        loads_ok(*ch, rv(routes@), loads@),
    ensures
        forall|k: int| 0 <= k < res@.len() ==> {
            let e = #[trigger] res@[k];
            &&& (e.1 as int) < routes@.len()
            &&& route_allowed(mode, cand@, e.1)
            &&& load_fits(*ch, loads@, e.1 as int, cust)
            &&& first_min_pos(*ch, routes@[e.1 as int]@, cust, e.2 as int)
            &&& e.0 == ins_cost(ch.distance_matrix@, routes@[e.1 as int]@, e.2 as int, cust)
        },
        forall|a: int, b: int| 0 <= a < b < res@.len() ==> (#[trigger] res@[a]).1 < (#[trigger] res@[b]).1,
        forall|ri: int| 0 <= ri < routes@.len() && route_allowed(mode, cand@, ri as usize) && load_fits(*ch, loads@, ri, cust)
            && !no_feasible_pos(*ch, #[trigger] routes@[ri]@, cust) ==> exists|k: int| 0 <= k < res@.len() && (#[trigger] res@[k]).1 == ri,
        bests_over(*ch, rv(routes@), loads@, cust, |ri: int| route_allowed(mode, cand@, ri as usize), res@),
{
    let mut res: Vec<(i32, usize, usize)> = Vec::new();
    let mut ri: usize = 0;
    while ri < routes.len()
        invariant
            ch.wf(),
            forall|i: int| 0 <= i < routes@.len() ==> ch.route_ok(#[trigger] routes@[i]@),
            (cust as int) < ch.num_nodes,
            loads_ok(*ch, rv(routes@), loads@),
            ri <= routes@.len(),
            forall|k: int| 0 <= k < res@.len() ==> {
                let e = #[trigger] res@[k];
                &&& (e.1 as int) < ri
                &&& route_allowed(mode, cand@, e.1)
                &&& load_fits(*ch, loads@, e.1 as int, cust)
                &&& first_min_pos(*ch, routes@[e.1 as int]@, cust, e.2 as int)
                &&& e.0 == ins_cost(ch.distance_matrix@, routes@[e.1 as int]@, e.2 as int, cust)
            },
            forall|a: int, b: int| 0 <= a < b < res@.len() ==> (#[trigger] res@[a]).1 < (#[trigger] res@[b]).1,
            forall|r: int| 0 <= r < ri && route_allowed(mode, cand@, r as usize) && load_fits(*ch, loads@, r, cust)
                && !no_feasible_pos(*ch, #[trigger] routes@[r]@, cust) ==> exists|k: int| 0 <= k < res@.len() && (#[trigger] res@[k]).1 == r,
        decreases routes.len() - ri,
    {
        let allowed = mode == 0 || (mode == 1 && holds(cand, ri)) || (mode == 2 && !holds(cand, ri));
        proof {
            assert(rv(routes@)[ri as int] == routes@[ri as int]@);
            assert(in_limit(ch.demands@[cust as int]));
        }
        if allowed && loads[ri] + ch.demands[cust] <= ch.max_capacity {
            match best_position(&routes[ri], cust, ch) {
                Some((c, p)) => {
                    let ghost before = res@;
                    res.push((c, ri, p));
                    proof {
                        assert forall|r: int| 0 <= r < ri + 1 && route_allowed(mode, cand@, r as usize) && load_fits(*ch, loads@, r, cust)
                            && !no_feasible_pos(*ch, #[trigger] routes@[r]@, cust) implies exists|k: int| 0 <= k < res@.len() && (#[trigger] res@[k]).1 == r by {
                            if r < ri {
                                let k = choose|k: int| 0 <= k < before.len() && (#[trigger] before[k]).1 == r;
                                assert(res@[k].1 == r);
                            } else {
                                assert(res@[res@.len() - 1].1 == r);
                            }
                        }
                    }
                }
                None => {}
            }
        }
        ri += 1;
    }
    proof {
        let rs = rv(routes@);
        let al = |r: int| route_allowed(mode, cand@, r as usize);
        assert forall|k: int| 0 <= k < res@.len() implies al((#[trigger] res@[k]).1 as int)
            && first_min_pos(*ch, rs[res@[k].1 as int], cust, res@[k].2 as int)
            && res@[k].0 == ins_cost(ch.distance_matrix@, rs[res@[k].1 as int], res@[k].2 as int, cust) by {
            assert(rs[res@[k].1 as int] == routes@[res@[k].1 as int]@);
        }
        assert forall|r: int| 0 <= r < rs.len() && al(r) && load_fits(*ch, loads@, r, cust)
            && !no_feasible_pos(*ch, #[trigger] rs[r], cust) implies exists|k: int| 0 <= k < res@.len() && (#[trigger] res@[k]).1 == r by {
            assert(rs[r] == routes@[r]@);
        }
    }
    res
}

/// Some route is related to `cust` through its related customers.
pub open spec fn has_related(cr: Seq<usize>, nn: Seq<Vec<usize>>, nroutes: int, cust: usize) -> bool {
    exists|r: usize| #[trigger] related_route(cr, nn[cust as int]@, nroutes, r)
}

/// The routes that the first scan of a customer uses: the related ones when there
/// are any, else all.
pub open spec fn scan_allowed(cr: Seq<usize>, nn: Seq<Vec<usize>>, nroutes: int, cust: usize, ri: int) -> bool {
    has_related(cr, nn, nroutes, cust) ==> related_route(cr, nn[cust as int]@, nroutes, ri as usize)
}

/// Inserting at `(ri, q)` costs at least `c`, wherever it is feasible.
pub open spec fn beaten_by(ch: Challenge, r: Seq<usize>, cust: usize, c: int) -> bool {
    forall|q: int| #[trigger] ins_feasible(ch, r, q, cust) ==> c <= ins_cost(ch.distance_matrix@, r, q, cust)
}

/// A chosen insertion: pending customer `ci` into route `ri` at its first
/// cheapest feasible position `p`, at cost `c`, with room by the recorded load.
pub open spec fn insertion_ok(ch: Challenge, rs: Seq<Seq<usize>>, pending: Seq<usize>, loads: Seq<i32>, c: int, ci: int, ri: int, p: int) -> bool {
    &&& 0 <= ci < pending.len()
    &&& 0 <= ri < rs.len()
    &&& load_fits(ch, loads, ri, pending[ci])
    &&& first_min_pos(ch, rs[ri], pending[ci], p)
    &&& c == ins_cost(ch.distance_matrix@, rs[ri], p, pending[ci])
}

/// Routes and tables that the repair operators work on.
pub open spec fn repair_inputs(ch: Challenge, rs: Seq<Seq<usize>>, pending: Seq<usize>, loads: Seq<i32>, nn: Seq<Vec<usize>>, cr: Seq<usize>) -> bool {
    &&& ch.wf()
    &&& forall|i: int| 0 <= i < rs.len() ==> ch.route_ok(#[trigger] rs[i])
    &&& forall|k: int| 0 <= k < pending.len() ==> 0 < #[trigger] pending[k] < ch.num_nodes
    &&& loads_ok(ch, rs, loads)
    &&& nn.len() == ch.num_nodes
    &&& forall|i: int| 0 <= i < nn.len() ==> nodes_below(#[trigger] nn[i]@, ch.num_nodes as int)
    &&& cr.len() == ch.num_nodes
}

/// Keeps the cheaper of the current best and the entries of `bests` (the first
/// one on ties), all for pending customer `ci`.
fn fold_bests(best: Option<(i32, usize, usize, usize)>, bests: &[(i32, usize, usize)], ci: usize) -> (res: Option<(i32, usize, usize, usize)>)
    ensures
        best is Some ==> res is Some,
        bests@.len() > 0 ==> res is Some,
        res matches Some(r) ==> (best == Some(r) || exists|k: int| 0 <= k < bests@.len() && #[trigger] bests@[k] == (r.0, r.2, r.3) && r.1 == ci),
        res matches Some(r) ==> forall|k: int| 0 <= k < bests@.len() ==> r.0 <= (#[trigger] bests@[k]).0,
        res matches Some(r) ==> (best matches Some(b) ==> r.0 <= b.0),
{
    let mut cur = best;
    let mut k: usize = 0;
    while k < bests.len()
        invariant
            k <= bests@.len(),
            best is Some ==> cur is Some,
            k > 0 ==> cur is Some,
            cur matches Some(r) ==> (best == Some(r) || exists|j: int| 0 <= j < bests@.len() && #[trigger] bests@[j] == (r.0, r.2, r.3) && r.1 == ci),
            cur matches Some(r) ==> forall|j: int| 0 <= j < k ==> r.0 <= (#[trigger] bests@[j]).0,
            cur matches Some(r) ==> (best matches Some(b) ==> r.0 <= b.0),
        decreases bests.len() - k,
    {
        let e = bests[k];
        let take = match cur {
            None => true,
            Some(b) => e.0 < b.0,
        };
        if take {
            cur = Some((e.0, ci, e.1, e.2));
        }
        k += 1;
    }
    cur
}

/// The greedy choice: over all pending customers, the cheapest feasible
/// insertion into a route with room, first scanning only each customer's
/// related routes (all routes when it has none), and scanning every route only
/// when that finds nothing. `None` when no pending customer fits anywhere.
pub fn greedy_choice(routes: &[Vec<usize>], pending: &[usize], loads: &[i32], ch: &Challenge, nn: &[Vec<usize>], cr: &[usize]) -> (res: Option<(i32, usize, usize, usize)>)
    requires
        repair_inputs(*ch, rv(routes@), pending@, loads@, nn@, cr@),
    ensures
        res matches Some((c, ci, ri, p)) ==> insertion_ok(*ch, rv(routes@), pending@, loads@, c as int, ci as int, ri as int, p as int),
        res is None ==> forall|ci: int, ri: int| 0 <= ci < pending@.len() && 0 <= ri < routes@.len() && load_fits(*ch, loads@, ri, pending@[ci])
            ==> no_feasible_pos(*ch, #[trigger] rv(routes@)[ri], #[trigger] pending@[ci]),
        res matches Some((c, ci, ri, p)) ==> forall|cj: int, rj: int| 0 <= cj < pending@.len() && 0 <= rj < routes@.len()
            && load_fits(*ch, loads@, rj, pending@[cj]) && scan_allowed(cr@, nn@, routes@.len() as int, pending@[cj], rj)
            ==> beaten_by(*ch, #[trigger] rv(routes@)[rj], #[trigger] pending@[cj], c as int),
{
    let ghost rs = rv(routes@);
    let mut best: Option<(i32, usize, usize, usize)> = None;
    let mut ci: usize = 0;
    while ci < pending.len()
        invariant
            rs == rv(routes@),
            repair_inputs(*ch, rs, pending@, loads@, nn@, cr@),
            ci <= pending@.len(),
            best matches Some(b) ==> insertion_ok(*ch, rs, pending@, loads@, b.0 as int, b.1 as int, b.2 as int, b.3 as int),
            best matches Some(b) ==> forall|cj: int, rj: int| 0 <= cj < ci && 0 <= rj < rs.len()
                && load_fits(*ch, loads@, rj, pending@[cj]) && scan_allowed(cr@, nn@, rs.len() as int, pending@[cj], rj)
                ==> beaten_by(*ch, #[trigger] rs[rj], #[trigger] pending@[cj], b.0 as int),
            best is None ==> forall|cj: int, rj: int| 0 <= cj < ci && 0 <= rj < rs.len()
                && load_fits(*ch, loads@, rj, pending@[cj]) && scan_allowed(cr@, nn@, rs.len() as int, pending@[cj], rj)
                ==> no_feasible_pos(*ch, #[trigger] rs[rj], #[trigger] pending@[cj]),
        decreases pending.len() - ci,
    {
        let cust = pending[ci];
        assert(nodes_below(nn@[cust as int]@, ch.num_nodes as int));
        let cand = candidate_routes(cr, &nn[cust], routes.len());
        let mode: u8 = if cand.len() > 0 { 1 } else { 0 };
        proof {
            assert forall|i: int| 0 <= i < routes@.len() implies ch.route_ok(#[trigger] routes@[i]@) by {
                assert(rs[i] == routes@[i]@);
            }
            if cand.len() > 0 {
                assert(cand@.contains(cand@[0]));
                assert(related_route(cr@, nn@[cust as int]@, rs.len() as int, cand@[0]));
            }
        }
        let bests = route_bests(routes, cust, loads, ch, &cand, mode);
        let ghost old_best = best;
        best = fold_bests(best, &bests, ci);
        proof {
            lemma_scan_step(*ch, rs, pending@, loads@, nn@, cr@, cand@, mode, bests@, old_best, best, ci as int);
        }
        ci += 1;
    }
    if best.is_none() {
        let none: Vec<usize> = Vec::new();
        let mut cj: usize = 0;
        while cj < pending.len()
            invariant
                rs == rv(routes@),
                repair_inputs(*ch, rs, pending@, loads@, nn@, cr@),
                cj <= pending@.len(),
                forall|ck: int, rk: int| 0 <= ck < pending@.len() && 0 <= rk < rs.len()
                    && load_fits(*ch, loads@, rk, pending@[ck]) && scan_allowed(cr@, nn@, rs.len() as int, pending@[ck], rk)
                    ==> no_feasible_pos(*ch, #[trigger] rs[rk], #[trigger] pending@[ck]),
                best matches Some(b) ==> insertion_ok(*ch, rs, pending@, loads@, b.0 as int, b.1 as int, b.2 as int, b.3 as int),
                best is None ==> forall|ck: int, rk: int| 0 <= ck < cj && 0 <= rk < rs.len() && load_fits(*ch, loads@, rk, pending@[ck])
                    ==> no_feasible_pos(*ch, #[trigger] rs[rk], #[trigger] pending@[ck]),
            decreases pending.len() - cj,
        {
            let cust = pending[cj];
            proof {
                assert forall|i: int| 0 <= i < routes@.len() implies ch.route_ok(#[trigger] routes@[i]@) by {
                    assert(rs[i] == routes@[i]@);
                }
            }
            let bests = route_bests(routes, cust, loads, ch, &none, 0);
            let ghost old_best = best;
            best = fold_bests(best, &bests, cj);
            proof {
                if let Some(b) = best {
                    if old_best != Some(b) {
                        let k = choose|k: int| 0 <= k < bests@.len() && #[trigger] bests@[k] == (b.0, b.2, b.3) && b.1 == cj;
                        assert(bests@[k].1 == b.2);
                    }
                } else {
                    assert forall|ck: int, rk: int| 0 <= ck < cj + 1 && 0 <= rk < rs.len() && load_fits(*ch, loads@, rk, pending@[ck])
                        implies no_feasible_pos(*ch, #[trigger] rs[rk], #[trigger] pending@[ck]) by {
                        if ck == cj && !no_feasible_pos(*ch, rs[rk], cust) {
                            assert(rs[rk] == routes@[rk]@);
                            assert(route_allowed(0, none@, rk as usize));
                            let k = choose|k: int| 0 <= k < bests@.len() && (#[trigger] bests@[k]).1 == rk;
                        }
                    }
                }
            }
            cj += 1;
        }
    }
    proof {
        if let Some(b) = best {
            assert forall|cj: int, rj: int| 0 <= cj < pending@.len() && 0 <= rj < routes@.len()
                && load_fits(*ch, loads@, rj, pending@[cj]) && scan_allowed(cr@, nn@, routes@.len() as int, pending@[cj], rj)
                implies beaten_by(*ch, #[trigger] rv(routes@)[rj], #[trigger] pending@[cj], b.0 as int) by {
                if no_feasible_pos(*ch, rs[rj], pending@[cj]) {
                    assert forall|q: int| #[trigger] ins_feasible(*ch, rs[rj], q, pending@[cj]) implies false by {}
                }
            }
        }
    }
    best
}

/// One customer's scan keeps the invariant of the greedy choice.
proof fn lemma_scan_step(
    ch: Challenge,
    rs: Seq<Seq<usize>>,
    pending: Seq<usize>,
    loads: Seq<i32>,
    nn: Seq<Vec<usize>>,
    cr: Seq<usize>,
    cand: Seq<usize>,
    mode: u8,
    bests: Seq<(i32, usize, usize)>,
    old_best: Option<(i32, usize, usize, usize)>,
    best: Option<(i32, usize, usize, usize)>,
    ci: int,
)
    requires
        repair_inputs(ch, rs, pending, loads, nn, cr),
        0 <= ci < pending.len(),
        forall|r: usize| cand.contains(r) <==> #[trigger] related_route(cr, nn[pending[ci] as int]@, rs.len() as int, r),
        mode == (if cand.len() > 0 { 1u8 } else { 0u8 }),
        forall|k: int| 0 <= k < bests.len() ==> {
            let e = #[trigger] bests[k];
            &&& (e.1 as int) < rs.len()
            &&& route_allowed(mode, cand, e.1)
            &&& load_fits(ch, loads, e.1 as int, pending[ci])
            &&& first_min_pos(ch, rs[e.1 as int], pending[ci], e.2 as int)
            &&& e.0 == ins_cost(ch.distance_matrix@, rs[e.1 as int], e.2 as int, pending[ci])
        },
        forall|ri: int| 0 <= ri < rs.len() && route_allowed(mode, cand, ri as usize) && load_fits(ch, loads, ri, pending[ci])
            && !no_feasible_pos(ch, #[trigger] rs[ri], pending[ci]) ==> exists|k: int| 0 <= k < bests.len() && (#[trigger] bests[k]).1 == ri,
        old_best is Some ==> best is Some,
        bests.len() > 0 ==> best is Some,
        best matches Some(r) ==> (old_best == Some(r) || exists|k: int| 0 <= k < bests.len() && #[trigger] bests[k] == (r.0, r.2, r.3) && r.1 == ci),
        best matches Some(r) ==> forall|k: int| 0 <= k < bests.len() ==> r.0 <= (#[trigger] bests[k]).0,
        best matches Some(r) ==> (old_best matches Some(b) ==> r.0 <= b.0),
        old_best matches Some(b) ==> insertion_ok(ch, rs, pending, loads, b.0 as int, b.1 as int, b.2 as int, b.3 as int),
        old_best matches Some(b) ==> forall|cj: int, rj: int| 0 <= cj < ci && 0 <= rj < rs.len()
            && load_fits(ch, loads, rj, pending[cj]) && scan_allowed(cr, nn, rs.len() as int, pending[cj], rj)
            ==> beaten_by(ch, #[trigger] rs[rj], #[trigger] pending[cj], b.0 as int),
        old_best is None ==> forall|cj: int, rj: int| 0 <= cj < ci && 0 <= rj < rs.len()
            && load_fits(ch, loads, rj, pending[cj]) && scan_allowed(cr, nn, rs.len() as int, pending[cj], rj)
            ==> no_feasible_pos(ch, #[trigger] rs[rj], #[trigger] pending[cj]),
    ensures
        best matches Some(b) ==> insertion_ok(ch, rs, pending, loads, b.0 as int, b.1 as int, b.2 as int, b.3 as int),
        best matches Some(b) ==> forall|cj: int, rj: int| 0 <= cj < ci + 1 && 0 <= rj < rs.len()
            && load_fits(ch, loads, rj, pending[cj]) && scan_allowed(cr, nn, rs.len() as int, pending[cj], rj)
            ==> beaten_by(ch, #[trigger] rs[rj], #[trigger] pending[cj], b.0 as int),
        best is None ==> forall|cj: int, rj: int| 0 <= cj < ci + 1 && 0 <= rj < rs.len()
            && load_fits(ch, loads, rj, pending[cj]) && scan_allowed(cr, nn, rs.len() as int, pending[cj], rj)
            ==> no_feasible_pos(ch, #[trigger] rs[rj], #[trigger] pending[cj]),
{
    let cust = pending[ci];
    // the scan of this customer covers exactly its scan_allowed routes
    assert forall|rj: int| 0 <= rj < rs.len() && scan_allowed(cr, nn, rs.len() as int, cust, rj) implies route_allowed(mode, cand, rj as usize) by {
        if cand.len() > 0 {
            assert(cand.contains(cand[0]));
            assert(related_route(cr, nn[cust as int]@, rs.len() as int, cand[0]));
            assert(has_related(cr, nn, rs.len() as int, cust));
        }
    }
    if let Some(b) = best {
        if old_best != Some(b) {
            let k = choose|k: int| 0 <= k < bests.len() && #[trigger] bests[k] == (b.0, b.2, b.3) && b.1 == ci;
            assert(bests[k].1 == b.2);
        }
        assert forall|cj: int, rj: int| 0 <= cj < ci + 1 && 0 <= rj < rs.len()
            && load_fits(ch, loads, rj, pending[cj]) && scan_allowed(cr, nn, rs.len() as int, pending[cj], rj)
            implies beaten_by(ch, #[trigger] rs[rj], #[trigger] pending[cj], b.0 as int) by {
            if cj < ci {
                if let Some(ob) = old_best {
                    assert(beaten_by(ch, rs[rj], pending[cj], ob.0 as int));
                } else {
                    assert(no_feasible_pos(ch, rs[rj], pending[cj]));
                }
            } else {
                if !no_feasible_pos(ch, rs[rj], cust) {
                    assert(route_allowed(mode, cand, rj as usize));
                    let k = choose|k: int| 0 <= k < bests.len() && (#[trigger] bests[k]).1 == rj;
                    assert(first_min_pos(ch, rs[rj], cust, bests[k].2 as int));
                    assert(b.0 <= bests[k].0);
                }
            }
        }
    } else {
        assert forall|cj: int, rj: int| 0 <= cj < ci + 1 && 0 <= rj < rs.len()
            && load_fits(ch, loads, rj, pending[cj]) && scan_allowed(cr, nn, rs.len() as int, pending[cj], rj)
            implies no_feasible_pos(ch, #[trigger] rs[rj], #[trigger] pending[cj]) by {
            if cj == ci {
                assert(route_allowed(mode, cand, rj as usize));
                if !no_feasible_pos(ch, rs[rj], cust) {
                    let k = choose|k: int| 0 <= k < bests.len() && (#[trigger] bests[k]).1 == rj;
                }
            }
        }
    }
}

/// Inserting a customer adds its demand to a route's load.
pub proof fn lemma_load_insert(ch: Challenge, r: Seq<usize>, pos: int, c: usize)
    requires
        0 <= pos <= r.len(),
        c != 0,
    ensures
        ch.load_of(r.insert(pos, c)) == ch.load_of(r) + ch.demand(c),
{
    let a = r.subrange(0, pos);
    let b = r.subrange(pos, r.len() as int);
    assert(r =~= a + b);
    assert(r.insert(pos, c) =~= (a + seq![c]) + b);
    lemma_load_concat(ch, a, b);
    lemma_load_concat(ch, a + seq![c], b);
    lemma_load_concat(ch, a, seq![c]);
    assert(seq![c].drop_last() =~= Seq::<usize>::empty());
    assert(seq![c].last() == c);
    assert(ch.load_of(Seq::<usize>::empty()) == 0);
    assert(ch.load_of(seq![c]) == ch.demand(c));
}

/// The route that serves only `c`.
pub open spec fn single_route(c: usize) -> Seq<usize> {
    seq![0usize, c, 0usize]
}

/// A route serving one customer carries its demand and that customer.
pub proof fn lemma_single_route(ch: Challenge, c: usize)
    requires
        c != 0,
    ensures
        ch.load_of(single_route(c)) == ch.demand(c),
        custs(single_route(c)) =~= Multiset::singleton(c),
        proper(single_route(c)),
{
    broadcast use vstd::multiset::group_multiset_axioms;
    let r = single_route(c);
    assert(r.drop_last() =~= seq![0usize, c]);
    assert(r.drop_last().drop_last() =~= seq![0usize]);
    let z = seq![0usize];
    assert(z.drop_last() =~= Seq::<usize>::empty());
    assert(z.last() == 0);
    assert(ch.load_of(Seq::<usize>::empty()) == 0);
    assert(custs(Seq::<usize>::empty()) =~= Multiset::<usize>::empty());
    assert(ch.load_of(z) == 0);
    assert(cust1(0) =~= Multiset::<usize>::empty());
    assert(custs(z) =~= Multiset::<usize>::empty());
    let zc = seq![0usize, c];
    assert(zc.drop_last() =~= z);
    assert(zc.last() == c);
    assert(ch.load_of(zc) == ch.demand(c));
    assert(custs(zc) =~= Multiset::singleton(c));
    assert(r.last() == 0);
}

/// Inserting a customer into a route in normal form keeps it in normal form.
pub proof fn lemma_insert_proper(r: Seq<usize>, pos: int, c: usize)
    requires
        proper(r),
        1 <= pos < r.len(),
        c != 0,
    ensures
        proper(r.insert(pos, c)),
{
    let s = r.insert(pos, c);
    assert forall|k: int| 0 < k < s.len() - 1 implies #[trigger] s[k] != 0 by {
        if k < pos {
            assert(s[k] == r[k]);
        } else if k > pos {
            assert(s[k] == r[k - 1]);
        }
    }
}

/// `at` places the entries of `a` at increasing positions of `b` that hold the
/// same nodes.
pub open spec fn embedding(a: Seq<usize>, b: Seq<usize>, at: Seq<int>) -> bool {
    &&& at.len() == a.len()
    &&& forall|i: int| 0 <= i < a.len() ==> 0 <= #[trigger] at[i] < b.len() && b[at[i]] == a[i]
    &&& forall|i: int, j: int| 0 <= i < j < a.len() ==> #[trigger] at[i] < #[trigger] at[j]
}

/// `a` is a subsequence of `b`: its nodes occur in `b`, in the same order.
#[verifier::opaque]
pub open spec fn embeds(a: Seq<usize>, b: Seq<usize>) -> bool {
    exists|at: Seq<int>| #[trigger] embedding(a, b, at)
}

/// Every sequence is a subsequence of itself.
pub proof fn lemma_embeds_refl(a: Seq<usize>)
    ensures
        embeds(a, a),
{
    reveal(embeds);
    let at = Seq::new(a.len(), |i: int| i);
    assert(embedding(a, a, at));
}

/// Inserting a node anywhere keeps every subsequence a subsequence.
pub proof fn lemma_embeds_insert(a: Seq<usize>, b: Seq<usize>, pos: int, c: usize)
    requires
        embeds(a, b),
        0 <= pos <= b.len(),
    ensures
        embeds(a, b.insert(pos, c)),
{
    reveal(embeds);
    let at = choose|at: Seq<int>| embedding(a, b, at);
    let moved = Seq::new(a.len(), |i: int| if at[i] < pos { at[i] } else { at[i] + 1 });
    let nb = b.insert(pos, c);
    assert forall|i: int| 0 <= i < a.len() implies 0 <= #[trigger] moved[i] < nb.len() && nb[moved[i]] == a[i] by {
        assert(0 <= at[i] < b.len() && b[at[i]] == a[i]);
        if at[i] < pos {
            assert(nb[at[i]] == b[at[i]]);
        } else {
            assert(nb[at[i] + 1] == b[at[i]]);
        }
    }
    assert forall|i: int, j: int| 0 <= i < j < a.len() implies #[trigger] moved[i] < #[trigger] moved[j] by {
        assert(at[i] < at[j]);
    }
    assert(embedding(a, nb, moved));
}

/// Subsequences chain.
pub proof fn lemma_embeds_trans(a: Seq<usize>, b: Seq<usize>, c: Seq<usize>)
    requires
        embeds(a, b),
        embeds(b, c),
    ensures
        embeds(a, c),
{
    reveal(embeds);
    let ab = choose|at: Seq<int>| embedding(a, b, at);
    let bc = choose|at: Seq<int>| embedding(b, c, at);
    assert(embedding(a, b, ab));
    assert(embedding(b, c, bc));
    let ac = Seq::new(a.len(), |i: int| bc[ab[i]]);
    assert forall|i: int| 0 <= i < a.len() implies 0 <= #[trigger] ac[i] < c.len() && c[ac[i]] == a[i] by {
        assert(0 <= ab[i] < b.len() && b[ab[i]] == a[i]);
        assert(0 <= bc[ab[i]] < c.len() && c[bc[ab[i]]] == b[ab[i]]);
    }
    assert forall|i: int, j: int| 0 <= i < j < a.len() implies #[trigger] ac[i] < #[trigger] ac[j] by {
        assert(ab[i] < ab[j]);
        assert(0 <= ab[i] < b.len() && 0 <= ab[j] < b.len());
        assert(bc[ab[i]] < bc[ab[j]]);
    }
    assert(embedding(a, c, ac));
}

/// What the repair operators keep while inserting: the customers of routes and
/// pending list together, the recorded loads, and for every route either its
/// starting form, a feasible form, or a fresh route serving one customer.
pub open spec fn repair_state(
    ch: Challenge,
    orig: Seq<Seq<usize>>,
    removed: Seq<usize>,
    rs: Seq<Seq<usize>>,
    pending: Seq<usize>,
    loads: Seq<i32>,
) -> bool {
    &&& all_custs(rs).add(pending.to_multiset()) == all_custs(orig).add(removed.to_multiset())
    &&& loads_ok(ch, rs, loads)
    &&& rs.len() >= orig.len()
    &&& rs.len() + pending.len() <= orig.len() + removed.len()
    &&& forall|i: int| 0 <= i < rs.len() ==> ch.route_ok(#[trigger] rs[i])
    &&& forall|k: int| 0 <= k < pending.len() ==> 0 < #[trigger] pending[k] < ch.num_nodes
    &&& forall|i: int| 0 <= i < orig.len() ==> #[trigger] rs[i] == orig[i] || ch.feasible(rs[i])
    &&& forall|i: int| orig.len() <= i < rs.len() ==> ch.feasible(#[trigger] rs[i]) || (rs[i] == single_route(rs[i][1]) && rs[i][1] != 0)
    &&& all_proper(orig) ==> all_proper(rs)
    &&& forall|i: int| 0 <= i < orig.len() ==> embeds(#[trigger] orig[i], rs[i])
}

/// Inserting pending customer `ci` at position `pos` of route `ri` keeps the
/// repair state.
proof fn lemma_insert_step(
    ch: Challenge,
    orig: Seq<Seq<usize>>,
    removed: Seq<usize>,
    rs: Seq<Seq<usize>>,
    pending: Seq<usize>,
    loads: Seq<i32>,
    ci: int,
    ri: int,
    pos: int,
)
    requires
        ch.wf(),
        repair_state(ch, orig, removed, rs, pending, loads),
        0 <= ci < pending.len(),
        0 <= ri < rs.len(),
        load_fits(ch, loads, ri, pending[ci]),
        ins_feasible(ch, rs[ri], pos, pending[ci]),
    ensures
        repair_state(
            ch,
            orig,
            removed,
            rs.update(ri, rs[ri].insert(pos, pending[ci])),
            pending.remove(ci),
            loads.update(ri, (loads[ri] + ch.demand(pending[ci])) as i32),
        ),
{
    broadcast use vstd::multiset::group_multiset_axioms;
    let c = pending[ci];
    let r = rs[ri];
    let nr = r.insert(pos, c);
    let nrs = rs.update(ri, nr);
    let np = pending.remove(ci);
    let nl = loads.update(ri, (loads[ri] + ch.demand(c)) as i32);
    lemma_all_custs_update(rs, ri, nr);
    lemma_custs_insert(r, pos, c);
    vstd::seq_lib::to_multiset_remove(pending, ci);
    vstd::seq_lib::to_multiset_contains(pending, c);
    assert(pending.contains(c));
    assert(cust1(c) =~= Multiset::singleton(c));
    assert forall|x: usize| all_custs(nrs).add(np.to_multiset()).count(x) == all_custs(rs).add(pending.to_multiset()).count(x) by {
        assert(all_custs(nrs).add(custs(r)).count(x) == all_custs(rs).add(custs(nr)).count(x));
    }
    assert(all_custs(nrs).add(np.to_multiset()) =~= all_custs(rs).add(pending.to_multiset()));
    lemma_load_insert(ch, r, pos, c);
    assert(in_limit(ch.demands@[c as int]));
    assert forall|i: int| 0 <= i < nrs.len() implies #[trigger] nl[i] == ch.load_of(nrs[i]) && 0 <= nl[i] <= 1_000_000_000 by {
        if i != ri {
            assert(nl[i] == loads[i]);
        }
    }
    assert forall|i: int| 0 <= i < nrs.len() implies ch.route_ok(#[trigger] nrs[i]) by {
        if i == ri {
            assert forall|k: int| 0 <= k < nr.len() implies (#[trigger] nr[k] as int) < ch.num_nodes by {
                if k < pos {
                    assert(nr[k] == r[k]);
                } else if k > pos {
                    assert(nr[k] == r[k - 1]);
                }
            }
        }
    }
    assert forall|k: int| 0 <= k < np.len() implies 0 < #[trigger] np[k] < ch.num_nodes by {
        if k < ci {
            assert(np[k] == pending[k]);
        } else {
            assert(np[k] == pending[k + 1]);
        }
    }
    if all_proper(orig) {
        assert(proper(r));
        lemma_insert_proper(r, pos, c);
    }
    assert forall|i: int| 0 <= i < orig.len() implies embeds(#[trigger] orig[i], nrs[i]) by {
        if i == ri {
            lemma_embeds_insert(orig[i], r, pos, c);
        }
    }
}

/// Opening a route for pending customer `ci` keeps the repair state.
proof fn lemma_open_step(
    ch: Challenge,
    orig: Seq<Seq<usize>>,
    removed: Seq<usize>,
    rs: Seq<Seq<usize>>,
    pending: Seq<usize>,
    loads: Seq<i32>,
    ci: int,
)
    requires
        ch.wf(),
        repair_state(ch, orig, removed, rs, pending, loads),
        0 <= ci < pending.len(),
    ensures
        repair_state(
            ch,
            orig,
            removed,
            rs.push(single_route(pending[ci])),
            pending.remove(ci),
            loads.push(ch.demands@[pending[ci] as int]),
        ),
{
    broadcast use vstd::multiset::group_multiset_axioms;
    let c = pending[ci];
    let nrs = rs.push(single_route(c));
    let np = pending.remove(ci);
    lemma_single_route(ch, c);
    vstd::seq_lib::to_multiset_remove(pending, ci);
    vstd::seq_lib::to_multiset_contains(pending, c);
    assert(pending.contains(c));
    assert(nrs.drop_last() =~= rs);
    assert(all_custs(nrs) == all_custs(rs).add(custs(single_route(c))));
    assert(all_custs(nrs).add(np.to_multiset()) =~= all_custs(rs).add(pending.to_multiset()));
    assert(in_limit(ch.demands@[c as int]));
    assert forall|k: int| 0 <= k < np.len() implies 0 < #[trigger] np[k] < ch.num_nodes by {
        if k < ci {
            assert(np[k] == pending[k]);
        } else {
            assert(np[k] == pending[k + 1]);
        }
    }
    assert(ch.route_ok(single_route(c)));
    let l = loads.push(ch.demands@[c as int]);
    assert forall|i: int| 0 <= i < nrs.len() implies #[trigger] l[i] == ch.load_of(nrs[i]) && 0 <= l[i] <= 1_000_000_000 by {
        if i < rs.len() {
            assert(l[i] == loads[i]);
        }
    }
    assert(nrs[rs.len() as int] == single_route(c));
    assert(single_route(c)[1] == c);
    assert forall|i: int| 0 <= i < orig.len() implies embeds(#[trigger] orig[i], nrs[i]) by {
        assert(nrs[i] == rs[i]);
    }
}

/// The routes as they stand are a repair state of themselves.
proof fn lemma_state_here(ch: Challenge, rs: Seq<Seq<usize>>, pending: Seq<usize>, loads: Seq<i32>)
    requires
        ch.wf(),
        loads_ok(ch, rs, loads),
        forall|i: int| 0 <= i < rs.len() ==> ch.route_ok(#[trigger] rs[i]),
        forall|k: int| 0 <= k < pending.len() ==> 0 < #[trigger] pending[k] < ch.num_nodes,
    ensures
        repair_state(ch, rs, pending, rs, pending, loads),
{
    assert forall|i: int| 0 <= i < rs.len() implies embeds(#[trigger] rs[i], rs[i]) by {
        lemma_embeds_refl(rs[i]);
    }
}

/// Two repair steps in a row make one.
proof fn lemma_state_trans(
    ch: Challenge,
    orig: Seq<Seq<usize>>,
    removed: Seq<usize>,
    a: Seq<Seq<usize>>,
    pa: Seq<usize>,
    la: Seq<i32>,
    b: Seq<Seq<usize>>,
    pb: Seq<usize>,
    lb: Seq<i32>,
)
    requires
        repair_state(ch, orig, removed, a, pa, la),
        repair_state(ch, a, pa, b, pb, lb),
    ensures
        repair_state(ch, orig, removed, b, pb, lb),
{
    assert forall|i: int| 0 <= i < orig.len() implies #[trigger] b[i] == orig[i] || ch.feasible(b[i]) by {
        assert(b[i] == a[i] || ch.feasible(b[i]));
        assert(a[i] == orig[i] || ch.feasible(a[i]));
    }
    assert forall|i: int| orig.len() <= i < b.len() implies ch.feasible(#[trigger] b[i]) || (b[i] == single_route(b[i][1]) && b[i][1] != 0) by {
        if i < a.len() {
            assert(b[i] == a[i] || ch.feasible(b[i]));
            assert(ch.feasible(a[i]) || (a[i] == single_route(a[i][1]) && a[i][1] != 0));
        }
    }
    assert forall|i: int| 0 <= i < orig.len() implies embeds(#[trigger] orig[i], b[i]) by {
        assert(embeds(orig[i], a[i]));
        assert(embeds(a[i], b[i]));
        lemma_embeds_trans(orig[i], a[i], b[i]);
    }
}

/// The recorded load of every route.
fn route_loads(routes: &[Vec<usize>], ch: &Challenge) -> (loads: Vec<i32>)
    requires
        ch.wf(),
        forall|i: int| 0 <= i < routes@.len() ==> ch.route_ok(#[trigger] routes@[i]@) && routes@[i]@.len() <= LEN_LIMIT,
    ensures
        loads_ok(*ch, rv(routes@), loads@),
{
    let mut loads: Vec<i32> = Vec::new();
    while loads.len() < routes.len()
        invariant
            ch.wf(),
            loads@.len() <= routes@.len(),
            forall|i: int| 0 <= i < routes@.len() ==> ch.route_ok(#[trigger] routes@[i]@) && routes@[i]@.len() <= LEN_LIMIT,
            forall|i: int| 0 <= i < loads@.len() ==> #[trigger] loads@[i] == ch.load_of(rv(routes@)[i]) && 0 <= loads@[i] <= 1_000_000_000,
        decreases routes.len() - loads.len(),
    {
        let i = loads.len();
        assert(rv(routes@)[i as int] == routes@[i as int]@);
        let l = route_load(&routes[i], ch);
        loads.push(l);
    }
    loads
}

/// The loads of the routes, as `route_loads` records them.
pub open spec fn route_loads_spec(ch: Challenge, rs: Seq<Seq<usize>>) -> Seq<i32> {
    Seq::new(rs.len(), |i: int| ch.load_of(rs[i]) as i32)
}

/// A state of an insertion repair: routes, pending customers, recorded loads.
pub type RepairStep = (Seq<Seq<usize>>, Seq<usize>, Seq<i32>);

/// The rule of one greedy insertion step from `a` to `b`: a pending customer
/// goes to its first cheapest feasible position in a route with room; only when
/// no pending customer fits anywhere does the first one get a route of its own.
pub open spec fn greedy_ins_law(ch: Challenge, a: RepairStep, b: RepairStep) -> bool {
    &&& b.1.len() == a.1.len() - 1
    &&& b.0.len() == a.0.len() ==> exists|c: int, ci: int, ri: int, p: int|
        #![trigger insertion_ok(ch, a.0, a.1, a.2, c, ci, ri, p)]
        insertion_ok(ch, a.0, a.1, a.2, c, ci, ri, p) && b.0 == a.0.update(ri, a.0[ri].insert(p, a.1[ci]))
    &&& b.0.len() != a.0.len() ==> b.0 == a.0.push(single_route(a.1[0]))
        && forall|ci: int| 0 <= ci < a.1.len() ==> #[trigger] fits_nowhere(ch, a.0, a.2, a.1[ci])
}

/// The route recorded for every node below `n` (see `route_entry`).
pub open spec fn route_table(rs: Seq<Seq<usize>>, n: int) -> Seq<usize> {
    Seq::new(n as nat, |c: int| route_entry(rs, c as usize))
}

/// The rule of one regret insertion step from `a` to `b`, with the related
/// customers `nn`: the pending customer with the largest regret (the first on
/// ties) goes to its first cheapest feasible position in a route with room, or,
/// only when it fits nowhere, to a route of its own.
pub open spec fn regret_ins_law(ch: Challenge, nn: Seq<Vec<usize>>, a: RepairStep, b: RepairStep) -> bool {
    &&& b.1.len() == a.1.len() - 1
    &&& b.0.len() == a.0.len() ==> exists|ci: int, ri: int, p: int|
        #![trigger a.0[ri].insert(p, a.1[ci])]
        0 <= ci < a.1.len() && 0 <= ri < a.0.len() && load_fits(ch, a.2, ri, a.1[ci])
            && first_min_pos(ch, a.0[ri], a.1[ci], p) && b.0 == a.0.update(ri, a.0[ri].insert(p, a.1[ci]))
            && regret_argmax(ch, a.0, a.2, nn, route_table(a.0, ch.num_nodes as int), a.1, ci)
    &&& b.0.len() != a.0.len() ==> exists|ci: int| 0 <= ci < a.1.len()
        && #[trigger] fits_nowhere(ch, a.0, a.2, a.1[ci]) && b.0 == a.0.push(single_route(a.1[ci]))
        && regret_argmax(ch, a.0, a.2, nn, route_table(a.0, ch.num_nodes as int), a.1, ci)
}

/// `tr` is a run of an insertion repair from routes `r0` with `p0` pending and
/// loads `l0` to routes `r_end` with nothing pending, each step by the greedy
/// rule (`regret` false) or the regret rule.
pub open spec fn ins_trace(ch: Challenge, nn: Seq<Vec<usize>>, regret: bool, tr: Seq<RepairStep>, r0: Seq<Seq<usize>>, p0: Seq<usize>, l0: Seq<i32>, r_end: Seq<Seq<usize>>) -> bool {
    &&& tr.len() >= 1
    &&& tr[0] == (r0, p0, l0)
    &&& tr.last().0 == r_end
    &&& tr.last().1.len() == 0
    &&& forall|i: int| 0 <= i < tr.len() - 1 ==> #[trigger] ins_link(ch, nn, regret, tr, i)
}

/// Step `i` of `tr` follows the rule.
pub open spec fn ins_link(ch: Challenge, nn: Seq<Vec<usize>>, regret: bool, tr: Seq<RepairStep>, i: int) -> bool {
    if regret { regret_ins_law(ch, nn, tr[i], tr[i + 1]) } else { greedy_ins_law(ch, tr[i], tr[i + 1]) }
}

/// The insertion repair from `r0` (`p0` pending, loads `l0`) ends in `r_end`,
/// every step by its rule.
pub open spec fn ins_run(ch: Challenge, nn: Seq<Vec<usize>>, regret: bool, r0: Seq<Seq<usize>>, p0: Seq<usize>, l0: Seq<i32>, r_end: Seq<Seq<usize>>) -> bool {
    exists|tr: Seq<RepairStep>| #[trigger] ins_trace(ch, nn, regret, tr, r0, p0, l0, r_end)
}

/// One step of greedy insertion: the cheapest feasible insertion of any pending
/// customer (see `greedy_choice`) is made; only when no pending customer fits
/// anywhere does the first one get a route of its own.
pub fn greedy_insert_step(routes: &mut Vec<Vec<usize>>, loads: &mut Vec<i32>, pending: &mut Vec<usize>, ch: &Challenge, shaw_nn: &[Vec<usize>])
    requires
        ch.wf(),
        shaw_nn@.len() == ch.num_nodes,
        forall|i: int| 0 <= i < shaw_nn@.len() ==> nodes_below(#[trigger] shaw_nn@[i]@, ch.num_nodes as int),
        old(pending)@.len() > 0,
        old(routes)@.len() + old(pending)@.len() < usize::MAX,
        loads_ok(*ch, rv(old(routes)@), old(loads)@),
        forall|i: int| 0 <= i < old(routes)@.len() ==> ch.route_ok(#[trigger] old(routes)@[i]@),
        forall|k: int| 0 <= k < old(pending)@.len() ==> 0 < #[trigger] old(pending)@[k] < ch.num_nodes,
    ensures
        final(pending)@.len() == old(pending)@.len() - 1,
        repair_state(*ch, rv(old(routes)@), old(pending)@, rv(final(routes)@), final(pending)@, final(loads)@),
        greedy_ins_law(*ch, (rv(old(routes)@), old(pending)@, old(loads)@), (rv(final(routes)@), final(pending)@, final(loads)@)),
{
    let ghost rs0 = rv(routes@);
    let ghost p0 = pending@;
    let ghost l0 = loads@;
    proof {
        assert forall|i: int| 0 <= i < rs0.len() implies ch.route_ok(#[trigger] rs0[i]) by {
            assert(rs0[i] == routes@[i]@);
        }
        lemma_state_here(*ch, rs0, p0, l0);
    }
    assert forall|i: int| 0 <= i < routes@.len() implies nodes_below(#[trigger] routes@[i]@, ch.num_nodes as int) by {
        assert(rv(routes@)[i] == routes@[i]@);
    }
    let cr = customer_routes(&routes, ch.num_nodes);
    match greedy_choice(&routes, &pending, &loads, ch, shaw_nn, &cr) {
        Some((c, ci, ri, pos)) => {
            proof {
                lemma_insert_step(*ch, rs0, p0, rs0, p0, l0, ci as int, ri as int, pos as int);
            }
            let cust = pending.remove(ci);
            let mut r = copy_route(&routes[ri]);
            r.insert(pos, cust);
            let ghost before = rv(routes@);
            routes.set(ri, r);
            assert(rv(routes@) =~= before.update(ri as int, before[ri as int].insert(pos as int, cust)));
            let l = loads[ri] + ch.demands[cust];
            loads.set(ri, l);
            proof {
                let ghost st: RepairStep = (rs0, p0, l0);
                assert(cust == p0[ci as int]);
                assert(rv(routes@) == st.0.update(ri as int, st.0[ri as int].insert(pos as int, st.1[ci as int])));
                assert(insertion_ok(*ch, st.0, st.1, st.2, c as int, ci as int, ri as int, pos as int));
                assert(greedy_ins_law(*ch, st, (rv(routes@), pending@, loads@)));
            }
        },
        None => {
            proof {
                lemma_open_step(*ch, rs0, p0, rs0, p0, l0, 0);
                assert forall|ci: int| 0 <= ci < p0.len() implies #[trigger] fits_nowhere(*ch, rs0, l0, p0[ci]) by {
                    assert forall|rj: int| 0 <= rj < rs0.len() && load_fits(*ch, l0, rj, p0[ci]) implies no_feasible_pos(*ch, #[trigger] rs0[rj], p0[ci]) by {
                        assert(no_feasible_pos(*ch, rv(routes@)[rj], pending@[ci]));
                    }
                }
            }
            let cust = pending.remove(0);
            let ghost before = rv(routes@);
            routes.push(vec![0, cust, 0]);
            assert(rv(routes@) =~= before.push(single_route(cust)));
            loads.push(ch.demands[cust]);
            proof {
                let ghost st: RepairStep = (rs0, p0, l0);
                assert(cust == p0[0]);
                assert(rv(routes@) == st.0.push(single_route(st.1[0])));
                assert(greedy_ins_law(*ch, st, (rv(routes@), pending@, loads@)));
            }
        },
    }
}

/// Greedy insertion: inserts the removed customers one at a time, always the
/// cheapest feasible insertion of any pending customer (see `greedy_choice`);
/// when none fits anywhere, the first pending customer gets a route of its own.
pub fn greedy_insertion(routes: Vec<Vec<usize>>, removed: &[usize], ch: &Challenge, shaw_nn: &[Vec<usize>]) -> (res: Vec<Vec<usize>>)
    requires
        ch.wf(),
        forall|i: int| 0 <= i < routes@.len() ==> ch.route_ok(#[trigger] routes@[i]@) && routes@[i]@.len() <= LEN_LIMIT,
        forall|k: int| 0 <= k < removed@.len() ==> 0 < #[trigger] removed@[k] < ch.num_nodes,
        shaw_nn@.len() == ch.num_nodes,
        forall|i: int| 0 <= i < shaw_nn@.len() ==> nodes_below(#[trigger] shaw_nn@[i]@, ch.num_nodes as int),
        routes@.len() + removed@.len() < usize::MAX,
    ensures
        all_custs(rv(res@)) == all_custs(rv(routes@)).add(removed@.to_multiset()),
        res@.len() >= routes@.len(),
        forall|i: int| 0 <= i < res@.len() ==> ch.route_ok(#[trigger] res@[i]@),
        forall|i: int| 0 <= i < routes@.len() ==> #[trigger] res@[i]@ == routes@[i]@ || ch.feasible(res@[i]@),
        forall|i: int| routes@.len() <= i < res@.len() ==> ch.feasible(#[trigger] res@[i]@) || (res@[i]@ == single_route(res@[i]@[1]) && res@[i]@[1] != 0),
        all_proper(rv(routes@)) ==> all_proper(rv(res@)),
        forall|i: int| 0 <= i < routes@.len() ==> embeds(#[trigger] routes@[i]@, res@[i]@),
        ins_run(*ch, shaw_nn@, false, rv(routes@), removed@, route_loads_spec(*ch, rv(routes@)), rv(res@)),
{
    let ghost orig = rv(routes@);
    let ghost old_routes = routes@;
    let mut loads = route_loads(&routes, ch);
    let mut routes = routes;
    let mut pending = copy_route(removed);
    let ghost l_start = loads@;
    let ghost mut tr: Seq<RepairStep> = seq![(orig, removed@, l_start)];
    proof {
        assert(l_start =~= route_loads_spec(*ch, orig));
    }
    proof {
        assert(all_custs(orig).add(pending@.to_multiset()) == all_custs(orig).add(removed@.to_multiset()));
        assert forall|i: int| 0 <= i < orig.len() implies embeds(#[trigger] orig[i], rv(routes@)[i]) by {
            lemma_embeds_refl(orig[i]);
        }
    }
    while pending.len() > 0
        invariant
            ch.wf(),
            shaw_nn@.len() == ch.num_nodes,
            forall|i: int| 0 <= i < shaw_nn@.len() ==> nodes_below(#[trigger] shaw_nn@[i]@, ch.num_nodes as int),
            orig.len() + removed@.len() < usize::MAX,
            repair_state(*ch, orig, removed@, rv(routes@), pending@, loads@),
            tr.len() >= 1,
            tr[0] == (orig, removed@, l_start),
            tr.last() == (rv(routes@), pending@, loads@),
            forall|i: int| 0 <= i < tr.len() - 1 ==> #[trigger] ins_link(*ch, shaw_nn@, false, tr, i),
        decreases pending.len(),
    {
        let ghost pre_rs = rv(routes@);
        let ghost pre_p = pending@;
        let ghost pre_l = loads@;
        proof {
            assert forall|i: int| 0 <= i < routes@.len() implies ch.route_ok(#[trigger] routes@[i]@) by {
                assert(rv(routes@)[i] == routes@[i]@);
            }
        }
        greedy_insert_step(&mut routes, &mut loads, &mut pending, ch, shaw_nn);
        proof {
            lemma_state_trans(*ch, orig, removed@, pre_rs, pre_p, pre_l, rv(routes@), pending@, loads@);
            let tr0 = tr;
            tr = tr.push((rv(routes@), pending@, loads@));
            assert forall|i: int| 0 <= i < tr.len() - 1 implies #[trigger] ins_link(*ch, shaw_nn@, false, tr, i) by {
                if i < tr0.len() - 1 {
                    assert(ins_link(*ch, shaw_nn@, false, tr0, i));
                    assert(tr[i] == tr0[i] && tr[i + 1] == tr0[i + 1]);
                } else {
                    assert(tr[i] == (pre_rs, pre_p, pre_l));
                }
            }
        }
    }
    proof {
        vstd::seq_lib::to_multiset_len(pending@);
        vstd::multiset::lemma_multiset_empty_len(pending@.to_multiset());
        assert(all_custs(rv(routes@)) =~= all_custs(rv(routes@)).add(pending@.to_multiset())) by {
            broadcast use vstd::multiset::group_multiset_axioms;
        }
        assert forall|i: int| 0 <= i < routes@.len() implies ch.route_ok(#[trigger] routes@[i]@) by {
            assert(rv(routes@)[i] == routes@[i]@);
        }
        assert forall|i: int| 0 <= i < routes@.len() implies #[trigger] routes@[i]@ == rv(routes@)[i] by {}
        assert forall|i: int| 0 <= i < orig.len() implies orig[i] == old_routes[i]@ by {}
        assert(ins_trace(*ch, shaw_nn@, false, tr, orig, removed@, l_start, rv(routes@)));
        assert forall|i: int| 0 <= i < orig.len() implies embeds(#[trigger] old_routes[i]@, routes@[i]@) by {
            assert(embeds(orig[i], rv(routes@)[i]));
        }
    }
    routes
}

/// The regret of a customer from its sorted insertion costs: the gaps of the
/// second and third cheapest to the cheapest, twice the gap with two, and the
/// cheapest cost's size plus 1000 with one.
pub open spec fn regret_value(s: Seq<(i64, usize)>) -> int {
    if s.len() >= 3 {
        (s[1].0 - s[0].0) + (s[2].0 - s[0].0)
    } else if s.len() == 2 {
        2 * (s[1].0 - s[0].0)
    } else if s[0].0 < 0 {
        -s[0].0 + 1000
    } else {
        s[0].0 + 1000
    }
}

/// With three or more scanned insertions, the regret is the gap of the second
/// cheapest to the cheapest plus the gap of the third cheapest to the cheapest.
pub proof fn law_regret_of_three(s: Seq<(i64, usize)>)
    requires
        sorted_pairs(s),
        s.len() >= 3,
    ensures
        regret_value(s) == (s[1].0 - s[0].0) + (s[2].0 - s[0].0),
        regret_value(s) >= 0,
{
    assert(pair_le(s[0], s[1]));
    assert(pair_le(s[0], s[2]));
}

/// With exactly two scanned insertions, the regret is twice their gap.
pub proof fn law_regret_of_two(s: Seq<(i64, usize)>)
    requires
        sorted_pairs(s),
        s.len() == 2,
    ensures
        regret_value(s) == 2 * (s[1].0 - s[0].0),
        regret_value(s) >= 0,
{
    assert(pair_le(s[0], s[1]));
}

/// The costs of scanned insertions keyed by their place in the scan.
pub open spec fn keyed_costs(bests: Seq<(i32, usize, usize)>) -> Seq<(i64, usize)> {
    Seq::new(bests.len(), |k: int| (bests[k].0 as i64, k as usize))
}

/// The regret of a customer's scanned insertions and the place of the first
/// cheapest of them.
pub fn regret_of(bests: &[(i32, usize, usize)]) -> (res: (i64, usize))
    requires
        bests@.len() > 0,
        forall|k: int| 0 <= k < bests@.len() ==> -100_000 <= (#[trigger] bests@[k]).0 <= 200_000,
    ensures
        (res.1 as int) < bests@.len(),
        forall|k: int| 0 <= k < bests@.len() ==> bests@[res.1 as int].0 <= (#[trigger] bests@[k]).0,
        forall|k: int| 0 <= k < res.1 ==> (#[trigger] bests@[k]).0 > bests@[res.1 as int].0,
        exists|s: Seq<(i64, usize)>| sorted_pairs(s) && s.to_multiset() == keyed_costs(bests@).to_multiset()
            && #[trigger] regret_value(s) == res.0,
        0 <= res.0 <= 1_000_000,
        bests@.len() >= 3 ==> exists|s: Seq<(i64, usize)>| #[trigger] sorted_pairs(s) && s.to_multiset() == keyed_costs(bests@).to_multiset()
            && res.0 == (s[1].0 - s[0].0) + (s[2].0 - s[0].0),
        bests@.len() == 2 ==> exists|s: Seq<(i64, usize)>| #[trigger] sorted_pairs(s) && s.to_multiset() == keyed_costs(bests@).to_multiset()
            && res.0 == 2 * (s[1].0 - s[0].0),
        bests@.len() == 1 ==> res.0 == (if bests@[0].0 < 0 { -bests@[0].0 } else { bests@[0].0 as int }) + 1000,
{
    let mut keyed: Vec<(i64, usize)> = Vec::new();
    let mut k: usize = 0;
    while k < bests.len()
        invariant
            k <= bests@.len(),
            keyed@ == keyed_costs(bests@).subrange(0, k as int),
        decreases bests.len() - k,
    {
        keyed.push((bests[k].0 as i64, k));
        k += 1;
        assert(keyed@ =~= keyed_costs(bests@).subrange(0, k as int));
    }
    assert(keyed@ =~= keyed_costs(bests@));
    let ghost kc = keyed@;
    sort_pairs(&mut keyed);
    proof {
        assert forall|j: int| 0 <= j < kc.len() implies pair_le(keyed@[0], #[trigger] kc[j]) by {
            vstd::seq_lib::to_multiset_contains(kc, kc[j]);
            vstd::seq_lib::to_multiset_contains(keyed@, kc[j]);
            assert(kc.contains(kc[j]));
            let p = choose|p: int| 0 <= p < keyed@.len() && keyed@[p] == kc[j];
            if p > 0 {
                assert(pair_le(keyed@[0], keyed@[p]));
            }
        }
        assert forall|j: int| 0 <= j < keyed@.len() implies -100_000 <= (#[trigger] keyed@[j]).0 <= 200_000
            && (keyed@[j].1 as int) < bests@.len() && keyed@[j].0 == bests@[keyed@[j].1 as int].0 by {
            vstd::seq_lib::to_multiset_contains(kc, keyed@[j]);
            vstd::seq_lib::to_multiset_contains(keyed@, keyed@[j]);
            assert(keyed@.contains(keyed@[j]));
            let p = choose|p: int| 0 <= p < kc.len() && kc[p] == keyed@[j];
        }
    }
    let c0 = keyed[0].0;
    let regret: i64 = if keyed.len() >= 3 {
        (keyed[1].0 - c0) + (keyed[2].0 - c0)
    } else if keyed.len() == 2 {
        2 * (keyed[1].0 - c0)
    } else if c0 < 0 {
        -c0 + 1000
    } else {
        c0 + 1000
    };
    proof {
        if keyed@.len() >= 2 {
            assert(pair_le(keyed@[0], keyed@[1]));
        }
        if keyed@.len() >= 3 {
            assert(pair_le(keyed@[0], keyed@[2]));
        }
        assert(regret_value(keyed@) == regret);
        assert(sorted_pairs(keyed@));
        if keyed@.len() == 1 {
            assert(keyed@[0] == kc[0]);
        }
        let i0 = keyed@[0].1 as int;
        assert forall|j: int| 0 <= j < bests@.len() implies bests@[i0].0 <= (#[trigger] bests@[j]).0 by {
            assert(pair_le(keyed@[0], kc[j]));
        }
        assert forall|j: int| 0 <= j < i0 implies (#[trigger] bests@[j]).0 > bests@[i0].0 by {
            assert(pair_le(keyed@[0], kc[j]));
        }
    }
    (regret, keyed[0].1)
}

/// The pending customer has no feasible insertion into any route with room.
pub open spec fn fits_nowhere(ch: Challenge, rs: Seq<Seq<usize>>, loads: Seq<i32>, cust: usize) -> bool {
    forall|rj: int| 0 <= rj < rs.len() && load_fits(ch, loads, rj, cust) ==> no_feasible_pos(ch, #[trigger] rs[rj], cust)
}

/// The insertion chosen for one customer: `Some((ri, pos))` is its cheapest
/// feasible insertion among the routes scanned for it (its related routes, or all
/// when it has none, then the remaining ones when those take it nowhere); `None`
/// when it fits nowhere.
pub open spec fn regret_pick_ok(
    ch: Challenge,
    rs: Seq<Seq<usize>>,
    loads: Seq<i32>,
    nn: Seq<Vec<usize>>,
    cr: Seq<usize>,
    cust: usize,
    pick: Option<(usize, usize)>,
) -> bool {
    match pick {
        Some((ri, pos)) => {
            let c = ins_cost(ch.distance_matrix@, rs[ri as int], pos as int, cust);
            &&& (ri as int) < rs.len()
            &&& load_fits(ch, loads, ri as int, cust)
            &&& first_min_pos(ch, rs[ri as int], cust, pos as int)
            &&& forall|rj: int| 0 <= rj < rs.len() && load_fits(ch, loads, rj, cust) && scan_allowed(cr, nn, rs.len() as int, cust, rj)
                ==> beaten_by(ch, #[trigger] rs[rj], cust, c)
            &&& (forall|rj: int| 0 <= rj < rs.len() && load_fits(ch, loads, rj, cust) && scan_allowed(cr, nn, rs.len() as int, cust, rj)
                ==> no_feasible_pos(ch, #[trigger] rs[rj], cust)) ==> forall|rj: int| 0 <= rj < rs.len() && load_fits(ch, loads, rj, cust)
                ==> beaten_by(ch, #[trigger] rs[rj], cust, c)
        },
        None => fits_nowhere(ch, rs, loads, cust),
    }
}

/// `bests` lists, in route order, for every route that `allowed` admits, has room
/// for `cust` by its recorded load and a feasible position: the cost, the route
/// and the first cheapest feasible position of inserting `cust` there.
pub open spec fn bests_over(ch: Challenge, rs: Seq<Seq<usize>>, loads: Seq<i32>, cust: usize, allowed: spec_fn(int) -> bool, bests: Seq<(i32, usize, usize)>) -> bool {
    &&& forall|k: int| 0 <= k < bests.len() ==> {
        let e = #[trigger] bests[k];
        &&& (e.1 as int) < rs.len()
        &&& allowed(e.1 as int)
        &&& load_fits(ch, loads, e.1 as int, cust)
        &&& first_min_pos(ch, rs[e.1 as int], cust, e.2 as int)
        &&& e.0 == ins_cost(ch.distance_matrix@, rs[e.1 as int], e.2 as int, cust)
    }
    &&& forall|a: int, b: int| 0 <= a < b < bests.len() ==> (#[trigger] bests[a]).1 < (#[trigger] bests[b]).1
    &&& forall|ri: int| 0 <= ri < rs.len() && allowed(ri) && load_fits(ch, loads, ri, cust)
        && !no_feasible_pos(ch, #[trigger] rs[ri], cust) ==> exists|k: int| 0 <= k < bests.len() && (#[trigger] bests[k]).1 == ri
}

/// No route that the first scan of `cust` uses takes it.
pub open spec fn first_scan_empty(ch: Challenge, rs: Seq<Seq<usize>>, loads: Seq<i32>, nn: Seq<Vec<usize>>, cr: Seq<usize>, cust: usize) -> bool {
    forall|ri: int| 0 <= ri < rs.len() && scan_allowed(cr, nn, rs.len() as int, cust, ri) && load_fits(ch, loads, ri, cust)
        ==> no_feasible_pos(ch, #[trigger] rs[ri], cust)
}

/// The insertions that the regret scan of `cust` weighs: those into its related
/// routes (into all routes when it has none), and, when those take it nowhere,
/// those into the remaining routes.
pub open spec fn scanned_bests(ch: Challenge, rs: Seq<Seq<usize>>, loads: Seq<i32>, nn: Seq<Vec<usize>>, cr: Seq<usize>, cust: usize, bests: Seq<(i32, usize, usize)>) -> bool {
    let nr = rs.len() as int;
    if first_scan_empty(ch, rs, loads, nn, cr, cust) && has_related(cr, nn, nr, cust) {
        bests_over(ch, rs, loads, cust, |ri: int| !related_route(cr, nn[cust as int]@, nr, ri as usize), bests)
    } else {
        bests_over(ch, rs, loads, cust, |ri: int| scan_allowed(cr, nn, nr, cust, ri), bests)
    }
}

/// `g` is the regret of `cust`: the regret value of its scanned insertion costs,
/// sorted by cost and then by place in the scan; `i64::MAX - 1` when the scan
/// finds no insertion at all.
pub open spec fn scan_regret(ch: Challenge, rs: Seq<Seq<usize>>, loads: Seq<i32>, nn: Seq<Vec<usize>>, cr: Seq<usize>, cust: usize, g: int) -> bool {
    exists|bests: Seq<(i32, usize, usize)>| #[trigger] scanned_bests(ch, rs, loads, nn, cr, cust, bests)
        && (bests.len() == 0 ==> g == i64::MAX - 1)
        && (bests.len() > 0 ==> exists|s: Seq<(i64, usize)>| sorted_pairs(s) && s.to_multiset() == keyed_costs(bests).to_multiset()
            && #[trigger] regret_value(s) == g)
}

/// `gs[q]` is the regret of pending customer `pending[q]`, for every `q`.
pub open spec fn regret_scores(ch: Challenge, rs: Seq<Seq<usize>>, loads: Seq<i32>, nn: Seq<Vec<usize>>, cr: Seq<usize>, pending: Seq<usize>, gs: Seq<int>) -> bool {
    &&& gs.len() == pending.len()
    &&& forall|q: int| 0 <= q < pending.len() ==> scan_regret(ch, rs, loads, nn, cr, #[trigger] pending[q], gs[q])
}

/// Pending customer `idx` has the largest regret, and no earlier pending
/// customer has as large a one.
pub open spec fn regret_argmax(ch: Challenge, rs: Seq<Seq<usize>>, loads: Seq<i32>, nn: Seq<Vec<usize>>, cr: Seq<usize>, pending: Seq<usize>, idx: int) -> bool {
    exists|gs: Seq<int>| #[trigger] regret_scores(ch, rs, loads, nn, cr, pending, gs)
        && (forall|q: int| 0 <= q < pending.len() ==> #[trigger] gs[q] <= gs[idx])
        && (forall|q: int| 0 <= q < idx ==> #[trigger] gs[q] < gs[idx])
}

/// Two ways of admitting routes that agree on every route give the same bests.
proof fn lemma_bests_over_same(ch: Challenge, rs: Seq<Seq<usize>>, loads: Seq<i32>, cust: usize, f: spec_fn(int) -> bool, g: spec_fn(int) -> bool, bests: Seq<(i32, usize, usize)>)
    requires
        bests_over(ch, rs, loads, cust, f, bests),
        forall|ri: int| 0 <= ri < rs.len() ==> #[trigger] f(ri) == g(ri),
    ensures
        bests_over(ch, rs, loads, cust, g, bests),
{
    assert forall|k: int| 0 <= k < bests.len() implies g((#[trigger] bests[k]).1 as int) by {
        assert(f(bests[k].1 as int));
    }
    assert forall|ri: int| 0 <= ri < rs.len() && g(ri) && load_fits(ch, loads, ri, cust)
        && !no_feasible_pos(ch, #[trigger] rs[ri], cust) implies exists|k: int| 0 <= k < bests.len() && (#[trigger] bests[k]).1 == ri by {
        assert(f(ri));
    }
}

/// The scan of one customer for the regret choice: its regret and its pick.
fn regret_scan(routes: &[Vec<usize>], cust: usize, loads: &[i32], ch: &Challenge, nn: &[Vec<usize>], cr: &[usize]) -> (res: (i64, Option<(usize, usize)>))
    requires
        repair_inputs(*ch, rv(routes@), seq![cust], loads@, nn@, cr@),
    ensures
        regret_pick_ok(*ch, rv(routes@), loads@, nn@, cr@, cust, res.1),
        res.1 is None <==> res.0 == i64::MAX - 1,
        res.1 is Some ==> 0 <= res.0 <= 1_000_000,
        scan_regret(*ch, rv(routes@), loads@, nn@, cr@, cust, res.0 as int),
{
    let ghost rs = rv(routes@);
    assert(0 < seq![cust][0] < ch.num_nodes);
    assert(nodes_below(nn@[cust as int]@, ch.num_nodes as int));
    proof {
        assert forall|i: int| 0 <= i < routes@.len() implies ch.route_ok(#[trigger] routes@[i]@) by {
            assert(rs[i] == routes@[i]@);
        }
    }
    let cand = candidate_routes(cr, &nn[cust], routes.len());
    let use_cand = cand.len() > 0;
    proof {
        if use_cand {
            assert(cand@.contains(cand@[0]));
            assert(related_route(cr@, nn@[cust as int]@, rs.len() as int, cand@[0]));
        }
        assert forall|rj: int| 0 <= rj < rs.len() && scan_allowed(cr@, nn@, rs.len() as int, cust, rj)
            implies route_allowed(if use_cand { 1u8 } else { 0u8 }, cand@, rj as usize) by {}
    }
    let mut bests = route_bests(routes, cust, loads, ch, &cand, if use_cand { 1 } else { 0 });
    let ghost first_empty = bests@.len() == 0;
    let ghost b1 = bests@;
    proof {
        let nr = rs.len() as int;
        let m1: u8 = if use_cand { 1u8 } else { 0u8 };
        assert(use_cand <==> has_related(cr@, nn@, nr, cust)) by {
            if has_related(cr@, nn@, nr, cust) {
                let r = choose|r: usize| #[trigger] related_route(cr@, nn@[cust as int]@, nr, r);
                assert(cand@.contains(r));
            }
        }
        assert forall|ri: int| 0 <= ri < nr implies #[trigger] route_allowed(m1, cand@, ri as usize) == scan_allowed(cr@, nn@, nr, cust, ri) by {
            if use_cand {
                assert(cand@.contains(ri as usize) <==> related_route(cr@, nn@[cust as int]@, nr, ri as usize));
            }
        }
        lemma_bests_over_same(*ch, rs, loads@, cust, |ri: int| route_allowed(m1, cand@, ri as usize), |ri: int| scan_allowed(cr@, nn@, nr, cust, ri), b1);
        assert(first_empty <==> first_scan_empty(*ch, rs, loads@, nn@, cr@, cust)) by {
            if !first_empty {
                let e = b1[0];
                assert(ins_feasible(*ch, rs[e.1 as int], e.2 as int, cust));
            }
        }
    }
    if bests.len() == 0 && use_cand {
        bests = route_bests(routes, cust, loads, ch, &cand, 2);
        proof {
            let nr = rs.len() as int;
            assert forall|ri: int| 0 <= ri < nr implies #[trigger] route_allowed(2u8, cand@, ri as usize) == !related_route(cr@, nn@[cust as int]@, nr, ri as usize) by {
                assert(cand@.contains(ri as usize) <==> related_route(cr@, nn@[cust as int]@, nr, ri as usize));
            }
            lemma_bests_over_same(*ch, rs, loads@, cust, |ri: int| route_allowed(2u8, cand@, ri as usize), |ri: int| !related_route(cr@, nn@[cust as int]@, nr, ri as usize), bests@);
        }
    }
    proof {
        assert(scanned_bests(*ch, rs, loads@, nn@, cr@, cust, bests@));
    }
    if bests.len() == 0 {
        proof {
            assert forall|rj: int| 0 <= rj < rs.len() && load_fits(*ch, loads@, rj, cust) implies no_feasible_pos(*ch, #[trigger] rs[rj], cust) by {
                assert(rs[rj] == routes@[rj]@);
            }
            assert(scan_regret(*ch, rs, loads@, nn@, cr@, cust, (i64::MAX - 1) as int));
        }
        return (i64::MAX - 1, None);
    }
    proof {
        assert forall|k: int| 0 <= k < bests@.len() implies -100_000 <= (#[trigger] bests@[k]).0 <= 200_000 by {
            let e = bests@[k];
            let r = routes@[e.1 as int]@;
            assert(ch.route_ok(r));
            assert(in_limit(ch.distance_matrix@[r[e.2 as int - 1] as int]@[cust as int]));
            assert(in_limit(ch.distance_matrix@[cust as int]@[r[e.2 as int] as int]));
            assert(in_limit(ch.distance_matrix@[r[e.2 as int - 1] as int]@[r[e.2 as int] as int]));
        }
    }
    let (regret, k0) = regret_of(&bests);
    let e = bests[k0];
    proof {
        let c = ins_cost(ch.distance_matrix@, rs[e.1 as int], e.2 as int, cust);
        assert(rs[e.1 as int] == routes@[e.1 as int]@);
        assert forall|rj: int| 0 <= rj < rs.len() && load_fits(*ch, loads@, rj, cust) && (first_empty || scan_allowed(cr@, nn@, rs.len() as int, cust, rj))
            implies beaten_by(*ch, #[trigger] rs[rj], cust, c) by {
            assert(rs[rj] == routes@[rj]@);
            if !no_feasible_pos(*ch, rs[rj], cust) {
                if first_empty {
                    if use_cand {
                        assert(scan_allowed(cr@, nn@, rs.len() as int, cust, rj) ==> route_allowed(1u8, cand@, rj as usize));
                        if !route_allowed(2u8, cand@, rj as usize) {
                            assert(route_allowed(1u8, cand@, rj as usize));
                        }
                    }
                }
                let k = choose|k: int| 0 <= k < bests@.len() && (#[trigger] bests@[k]).1 == rj;
                assert(first_min_pos(*ch, routes@[rj]@, cust, bests@[k].2 as int));
                assert(bests@[k0 as int].0 <= bests@[k].0);
            } else {
                assert forall|q: int| #[trigger] ins_feasible(*ch, rs[rj], q, cust) implies c <= ins_cost(ch.distance_matrix@, rs[rj], q, cust) by {}
            }
        }
        if !first_empty {
            let ee = bests@[0];
            let w = ee.1 as int;
            assert(route_allowed(if use_cand { 1u8 } else { 0u8 }, cand@, ee.1));
            assert(rs[w] == routes@[w]@);
            assert(ins_feasible(*ch, rs[w], ee.2 as int, cust));
            assert(!no_feasible_pos(*ch, rs[w], cust));
            assert(load_fits(*ch, loads@, w, cust));
            if use_cand {
                assert(cand@.contains(ee.1));
                assert(related_route(cr@, nn@[cust as int]@, rs.len() as int, ee.1));
            } else {
                assert(!has_related(cr@, nn@, rs.len() as int, cust)) by {
                    if has_related(cr@, nn@, rs.len() as int, cust) {
                        let r = choose|r: usize| #[trigger] related_route(cr@, nn@[cust as int]@, rs.len() as int, r);
                        assert(cand@.contains(r));
                    }
                }
            }
            assert(scan_allowed(cr@, nn@, rs.len() as int, cust, w));
        }
        let sv = choose|sv: Seq<(i64, usize)>| sorted_pairs(sv) && sv.to_multiset() == keyed_costs(bests@).to_multiset()
            && #[trigger] regret_value(sv) == regret;
        assert(scan_regret(*ch, rs, loads@, nn@, cr@, cust, regret as int));
    }
    (regret, Some((e.1, e.2)))
}

/// The regret choice: the pending customer with the largest regret (the first on
/// ties, see `regret_argmax`) and its pick. A customer that fits nowhere has the
/// largest regret of all, so the first such customer is chosen whenever there is
/// one, for a route of its own.
pub fn regret_choice(routes: &[Vec<usize>], pending: &[usize], loads: &[i32], ch: &Challenge, nn: &[Vec<usize>], cr: &[usize]) -> (res: (usize, Option<(usize, usize)>))
    requires
        repair_inputs(*ch, rv(routes@), pending@, loads@, nn@, cr@),
        pending@.len() > 0,
    ensures
        (res.0 as int) < pending@.len(),
        regret_pick_ok(*ch, rv(routes@), loads@, nn@, cr@, pending@[res.0 as int], res.1),
        (exists|cj: int| 0 <= cj < pending@.len() && #[trigger] fits_nowhere(*ch, rv(routes@), loads@, pending@[cj])) ==> res.1 is None
            && forall|cj: int| 0 <= cj < res.0 ==> !#[trigger] fits_nowhere(*ch, rv(routes@), loads@, pending@[cj]),
        regret_argmax(*ch, rv(routes@), loads@, nn@, cr@, pending@, res.0 as int),
{
    let ghost rs = rv(routes@);
    let ghost mut gs: Seq<int> = Seq::empty();
    let mut best: Option<(i64, usize, Option<(usize, usize)>)> = None;
    let mut ci: usize = 0;
    while ci < pending.len()
        invariant
            rs == rv(routes@),
            repair_inputs(*ch, rs, pending@, loads@, nn@, cr@),
            ci <= pending@.len(),
            ci > 0 ==> best is Some,
            best matches Some(b) ==> {
                &&& b.1 < ci
                &&& regret_pick_ok(*ch, rs, loads@, nn@, cr@, pending@[b.1 as int], b.2)
                &&& (b.2 is None <==> b.0 == i64::MAX - 1)
                &&& (b.2 is Some ==> b.0 <= 1_000_000)
                &&& (exists|cj: int| 0 <= cj < ci && #[trigger] fits_nowhere(*ch, rs, loads@, pending@[cj])) ==> b.2 is None
                    && forall|cj: int| 0 <= cj < b.1 ==> !#[trigger] fits_nowhere(*ch, rs, loads@, pending@[cj])
                &&& gs[b.1 as int] == b.0
                &&& forall|q: int| 0 <= q < ci ==> #[trigger] gs[q] <= b.0
                &&& forall|q: int| 0 <= q < b.1 ==> #[trigger] gs[q] < b.0
            },
            gs.len() == ci,
            forall|q: int| 0 <= q < ci ==> scan_regret(*ch, rs, loads@, nn@, cr@, #[trigger] pending@[q], gs[q]),
        decreases pending.len() - ci,
    {
        let cust = pending[ci];
        let (g, pick) = regret_scan(routes, cust, loads, ch, nn, cr);
        let ghost gs0 = gs;
        proof {
            gs = gs.push(g as int);
            assert forall|q: int| 0 <= q < ci + 1 implies scan_regret(*ch, rs, loads@, nn@, cr@, #[trigger] pending@[q], gs[q]) by {
                if q < ci {
                    assert(gs[q] == gs0[q]);
                }
            }
        }
        proof {
            match pick {
                Some((ri, pos)) => {
                    assert(ins_feasible(*ch, rs[ri as int], pos as int, cust));
                    assert(!fits_nowhere(*ch, rs, loads@, cust));
                },
                None => {},
            }
        }
        let take = match best {
            None => true,
            Some(b) => g > b.0,
        };
        let ghost old = best;
        if take {
            best = Some((g, ci, pick));
        }
        proof {
            if let Some(b) = best {
                if exists|cj: int| 0 <= cj < ci + 1 && #[trigger] fits_nowhere(*ch, rs, loads@, pending@[cj]) {
                    let cj = choose|cj: int| 0 <= cj < ci + 1 && #[trigger] fits_nowhere(*ch, rs, loads@, pending@[cj]);
                    if cj < ci {
                        assert(old is Some);
                    }
                }
                assert forall|q: int| 0 <= q < ci + 1 implies #[trigger] gs[q] <= b.0 by {
                    if q < ci {
                        assert(gs[q] == gs0[q]);
                    }
                }
                assert forall|q: int| 0 <= q < b.1 implies #[trigger] gs[q] < b.0 by {
                    assert(gs[q] == gs0[q]);
                }
            }
        }
        ci += 1;
    }
    proof {
        if let Some(b) = best {
            assert(regret_scores(*ch, rs, loads@, nn@, cr@, pending@, gs));
        }
    }
    match best {
        Some(b) => (b.1, b.2),
        None => (0, None),
    }
}

/// One step of regret insertion: the customer chosen by `regret_choice` leaves
/// `pending` for its cheapest feasible insertion, or, only when it fits nowhere,
/// for a route of its own.
pub fn regret_insert_step(routes: &mut Vec<Vec<usize>>, loads: &mut Vec<i32>, pending: &mut Vec<usize>, ch: &Challenge, shaw_nn: &[Vec<usize>])
    requires
        ch.wf(),
        shaw_nn@.len() == ch.num_nodes,
        forall|i: int| 0 <= i < shaw_nn@.len() ==> nodes_below(#[trigger] shaw_nn@[i]@, ch.num_nodes as int),
        old(pending)@.len() > 0,
        old(routes)@.len() + old(pending)@.len() < usize::MAX,
        loads_ok(*ch, rv(old(routes)@), old(loads)@),
        forall|i: int| 0 <= i < old(routes)@.len() ==> ch.route_ok(#[trigger] old(routes)@[i]@),
        forall|k: int| 0 <= k < old(pending)@.len() ==> 0 < #[trigger] old(pending)@[k] < ch.num_nodes,
    ensures
        final(pending)@.len() == old(pending)@.len() - 1,
        repair_state(*ch, rv(old(routes)@), old(pending)@, rv(final(routes)@), final(pending)@, final(loads)@),
        regret_ins_law(*ch, shaw_nn@, (rv(old(routes)@), old(pending)@, old(loads)@), (rv(final(routes)@), final(pending)@, final(loads)@)),
{
    let ghost rs0 = rv(routes@);
    let ghost p0 = pending@;
    let ghost l0 = loads@;
    proof {
        assert forall|i: int| 0 <= i < rs0.len() implies ch.route_ok(#[trigger] rs0[i]) by {
            assert(rs0[i] == routes@[i]@);
        }
        lemma_state_here(*ch, rs0, p0, l0);
    }
    assert forall|i: int| 0 <= i < routes@.len() implies nodes_below(#[trigger] routes@[i]@, ch.num_nodes as int) by {
        assert(rv(routes@)[i] == routes@[i]@);
    }
    let cr = customer_routes(&routes, ch.num_nodes);
    assert(cr@ =~= route_table(rs0, ch.num_nodes as int));
    let (ci, pick) = regret_choice(&routes, &pending, &loads, ch, shaw_nn, &cr);
    match pick {
        Some((ri, pos)) => {
            proof {
                lemma_insert_step(*ch, rs0, p0, rs0, p0, l0, ci as int, ri as int, pos as int);
            }
            let cust = pending.remove(ci);
            let mut r = copy_route(&routes[ri]);
            r.insert(pos, cust);
            let ghost before = rv(routes@);
            routes.set(ri, r);
            assert(rv(routes@) =~= before.update(ri as int, before[ri as int].insert(pos as int, cust)));
            let l = loads[ri] + ch.demands[cust];
            loads.set(ri, l);
            proof {
                let ghost st: RepairStep = (rs0, p0, l0);
                assert(first_min_pos(*ch, rs0[ri as int], p0[ci as int], pos as int));
                assert(rv(routes@) == rs0.update(ri as int, rs0[ri as int].insert(pos as int, p0[ci as int])));
                assert(rv(routes@) == st.0.update(ri as int, st.0[ri as int].insert(pos as int, st.1[ci as int])));
                assert(regret_ins_law(*ch, shaw_nn@, st, (rv(routes@), pending@, loads@)));
            }
        },
        None => {
            proof {
                lemma_open_step(*ch, rs0, p0, rs0, p0, l0, ci as int);
                assert(fits_nowhere(*ch, rs0, l0, p0[ci as int]));
            }
            let cust = pending.remove(ci);
            let ghost before = rv(routes@);
            routes.push(vec![0, cust, 0]);
            assert(rv(routes@) =~= before.push(single_route(cust)));
            loads.push(ch.demands[cust]);
            proof {
                let ghost st: RepairStep = (rs0, p0, l0);
                assert(cust == p0[ci as int]);
                assert(rv(routes@) == st.0.push(single_route(st.1[ci as int])));
                assert(fits_nowhere(*ch, st.0, st.2, st.1[ci as int]));
                assert(regret_ins_law(*ch, shaw_nn@, st, (rv(routes@), pending@, loads@)));
            }
        },
    }
}

/// Regret insertion: inserts the removed customers one at a time, always the
/// pending customer with the largest regret (see `regret_choice`) at its
/// cheapest feasible insertion, or in a route of its own when it fits nowhere.
pub fn regret_insertion(routes: Vec<Vec<usize>>, removed: &[usize], ch: &Challenge, shaw_nn: &[Vec<usize>]) -> (res: Vec<Vec<usize>>)
    requires
        ch.wf(),
        forall|i: int| 0 <= i < routes@.len() ==> ch.route_ok(#[trigger] routes@[i]@) && routes@[i]@.len() <= LEN_LIMIT,
        forall|k: int| 0 <= k < removed@.len() ==> 0 < #[trigger] removed@[k] < ch.num_nodes,
        shaw_nn@.len() == ch.num_nodes,
        forall|i: int| 0 <= i < shaw_nn@.len() ==> nodes_below(#[trigger] shaw_nn@[i]@, ch.num_nodes as int),
        routes@.len() + removed@.len() < usize::MAX,
    ensures
        all_custs(rv(res@)) == all_custs(rv(routes@)).add(removed@.to_multiset()),
        res@.len() >= routes@.len(),
        forall|i: int| 0 <= i < res@.len() ==> ch.route_ok(#[trigger] res@[i]@),
        forall|i: int| 0 <= i < routes@.len() ==> #[trigger] res@[i]@ == routes@[i]@ || ch.feasible(res@[i]@),
        forall|i: int| routes@.len() <= i < res@.len() ==> ch.feasible(#[trigger] res@[i]@) || (res@[i]@ == single_route(res@[i]@[1]) && res@[i]@[1] != 0),
        all_proper(rv(routes@)) ==> all_proper(rv(res@)),
        forall|i: int| 0 <= i < routes@.len() ==> embeds(#[trigger] routes@[i]@, res@[i]@),
        ins_run(*ch, shaw_nn@, true, rv(routes@), removed@, route_loads_spec(*ch, rv(routes@)), rv(res@)),
{
    let ghost orig = rv(routes@);
    let ghost old_routes = routes@;
    let mut loads = route_loads(&routes, ch);
    let mut routes = routes;
    let mut pending = copy_route(removed);
    let ghost l_start = loads@;
    let ghost mut tr: Seq<RepairStep> = seq![(orig, removed@, l_start)];
    proof {
        assert(l_start =~= route_loads_spec(*ch, orig));
    }
    proof {
        assert forall|i: int| 0 <= i < orig.len() implies embeds(#[trigger] orig[i], rv(routes@)[i]) by {
            lemma_embeds_refl(orig[i]);
        }
    }
    while pending.len() > 0
        invariant
            ch.wf(),
            shaw_nn@.len() == ch.num_nodes,
            forall|i: int| 0 <= i < shaw_nn@.len() ==> nodes_below(#[trigger] shaw_nn@[i]@, ch.num_nodes as int),
            orig.len() + removed@.len() < usize::MAX,
            repair_state(*ch, orig, removed@, rv(routes@), pending@, loads@),
            tr.len() >= 1,
            tr[0] == (orig, removed@, l_start),
            tr.last() == (rv(routes@), pending@, loads@),
            forall|i: int| 0 <= i < tr.len() - 1 ==> #[trigger] ins_link(*ch, shaw_nn@, true, tr, i),
        decreases pending.len(),
    {
        let ghost pre_rs = rv(routes@);
        let ghost pre_p = pending@;
        let ghost pre_l = loads@;
        proof {
            assert forall|i: int| 0 <= i < routes@.len() implies ch.route_ok(#[trigger] routes@[i]@) by {
                assert(rv(routes@)[i] == routes@[i]@);
            }
        }
        regret_insert_step(&mut routes, &mut loads, &mut pending, ch, shaw_nn);
        proof {
            lemma_state_trans(*ch, orig, removed@, pre_rs, pre_p, pre_l, rv(routes@), pending@, loads@);
            let tr0 = tr;
            tr = tr.push((rv(routes@), pending@, loads@));
            assert forall|i: int| 0 <= i < tr.len() - 1 implies #[trigger] ins_link(*ch, shaw_nn@, true, tr, i) by {
                if i < tr0.len() - 1 {
                    assert(ins_link(*ch, shaw_nn@, true, tr0, i));
                    assert(tr[i] == tr0[i] && tr[i + 1] == tr0[i + 1]);
                } else {
                    assert(tr[i] == (pre_rs, pre_p, pre_l));
                }
            }
        }
    }
    proof {
        vstd::seq_lib::to_multiset_len(pending@);
        vstd::multiset::lemma_multiset_empty_len(pending@.to_multiset());
        assert(all_custs(rv(routes@)) =~= all_custs(rv(routes@)).add(pending@.to_multiset())) by {
            broadcast use vstd::multiset::group_multiset_axioms;
        }
        assert forall|i: int| 0 <= i < routes@.len() implies ch.route_ok(#[trigger] routes@[i]@) by {
            assert(rv(routes@)[i] == routes@[i]@);
        }
        assert forall|i: int| 0 <= i < routes@.len() implies #[trigger] routes@[i]@ == rv(routes@)[i] by {}
        assert forall|i: int| 0 <= i < orig.len() implies orig[i] == old_routes[i]@ by {}
        assert(ins_trace(*ch, shaw_nn@, true, tr, orig, removed@, l_start, rv(routes@)));
        assert forall|i: int| 0 <= i < orig.len() implies embeds(#[trigger] old_routes[i]@, routes@[i]@) by {
            assert(embeds(orig[i], rv(routes@)[i]));
        }
    }
    routes
}

} // verus!
