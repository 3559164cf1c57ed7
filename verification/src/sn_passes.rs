//! Local-search passes of the schedule-table solver. Each pass keeps every
//! route's tables exact, its depot ends and the node locator pointing at real
//! places, serves the same customers, and never lengthens the solution.
use vstd::prelude::*;
use crate::model::{max, dd, route_len, total_len, custs, cust1, all_custs, LEN_LIMIT, lemma_custs_insert, lemma_custs_remove, lemma_all_custs_update, lemma_route_len_insert, lemma_route_len_remove};
use crate::construct::{total_nodes, lemma_total_nodes};
use crate::improve::lemma_total_len_update;
use crate::algorithm::lemma_move_custs;
use crate::silver_nova::{Ctx, Route, Sol, NodeLoc, nodes, seq_ok, occurs, refresh_route_loc, refreshed, rebuild_locator, locates, locatable, last_seen, seen};
use crate::improve::{tail_swap, lemma_tail_swap_len};
use crate::sharp_orbit::demand_sum;
use crate::primal_viper::{symmetric, rev_seg, lemma_rev_seg_len};
use crate::so_passes::{cut_out, spliced};
use crate::model::{lemma_route_len_concat, lemma_custs_concat};
use crate::silver_nova::{arrival, latest_at, dist_sum, kept_routes, fits_seq, before_place};
use crate::improve::{elapsed_since, whole_millis};
use crate::silver_nova::xorshift64;
use std::time::Instant;
use crate::algorithm::{keep_nonempty, lemma_keep_nonempty_custs, lemma_route_len_upper, lemma_route_len_nonneg};
use crate::sn_feasible::{sn_inst_ok, sn_feasible, route_feasible, lemma_insert_feasible, lemma_remove_feasible, lemma_same_seqs_feasible, lemma_demand_update, lemma_demand_rev_nodes};
use crate::sn_feasible::{lemma_demand_cut, lemma_demand_splice, lemma_demand_nonneg};

verus! {

/// The local search stops once this many milliseconds have passed.
pub const TIME_BUDGET_MS: u128 = 29_000;

/// The node sequences of a list of routes.
pub open spec fn sn_nodes(rs: Seq<Route>) -> Seq<Seq<usize>> {
    Seq::new(rs.len(), |i: int| nodes(rs[i].seq@))
}

/// A route the passes work on: exact tables, at least two nodes, the depot at
/// both ends and only customers in between.
pub open spec fn route_fit(ctx: Ctx, r: Route) -> bool {
    &&& r.tables_ok(ctx)
    &&& r.seq@.len() >= 2
    &&& r.seq@[0] == 0
    &&& r.seq@[r.seq@.len() - 1] == 0
    &&& forall|k: int| 0 < k < r.seq@.len() - 1 ==> #[trigger] r.seq@[k] != 0
}

/// The routes the passes work on: each fits, and all of them together hold at
/// most `LEN_LIMIT` nodes.
pub open spec fn sn_ok(ctx: Ctx, rs: Seq<Route>) -> bool {
    &&& rs.len() < u32::MAX
    &&& forall|r: int| 0 <= r < rs.len() ==> #[trigger] route_fit(ctx, rs[r])
    &&& total_nodes(sn_nodes(rs)) <= LEN_LIMIT
}

/// A locator entry of node `u` says nowhere, or names a place of `u`.
pub open spec fn points_at(rs: Seq<Route>, l: NodeLoc, u: int) -> bool {
    ||| l.route == u32::MAX
    ||| {
        &&& (l.route as int) < rs.len()
        &&& (l.pos as int) < rs[l.route as int].seq@.len()
        &&& rs[l.route as int].seq@[l.pos as int] as int == u
    }
}

/// A locator of `n` entries: the depot's entry says nowhere, and every
/// customer entry points at a real place.
pub open spec fn loc_ok(rs: Seq<Route>, loc: Seq<NodeLoc>, n: int) -> bool {
    &&& loc.len() == n
    &&& n >= 1
    &&& loc[0].route == u32::MAX
    &&& forall|u: int| 1 <= u < n ==> #[trigger] points_at(rs, loc[u], u)
}

/// A node occurs in a sequence exactly when the sequence contains it.
proof fn lemma_occurs_contains(s: Seq<u32>, u: int)
    requires
        0 <= u <= u32::MAX,
    ensures
        occurs(s, s.len() as int, u) <==> s.contains(u as u32),
{
    if occurs(s, s.len() as int, u) {
        let q = choose|q: int| 0 <= q < s.len() && #[trigger] s[q] as int == u;
        assert(s[q] == u as u32);
    }
    if s.contains(u as u32) {
        let q = choose|q: int| 0 <= q < s.len() && s[q] == u as u32;
        assert(s[q] as int == u);
    }
}

/// Nodes as numbers commute with removing and inserting.
proof fn lemma_nodes_edit(s: Seq<u32>, p: int, x: u32)
    ensures
        0 <= p < s.len() ==> nodes(s.remove(p)) == nodes(s).remove(p),
        0 <= p <= s.len() ==> nodes(s.insert(p, x)) == nodes(s).insert(p, x as usize),
        0 <= p < s.len() ==> nodes(s.update(p, x)) == nodes(s).update(p, x as usize),
{
    if 0 <= p < s.len() {
        assert(nodes(s.remove(p)) =~= nodes(s).remove(p));
        assert(nodes(s.update(p, x)) =~= nodes(s).update(p, x as usize));
    }
    if 0 <= p <= s.len() {
        assert(nodes(s.insert(p, x)) =~= nodes(s).insert(p, x as usize));
    }
}

/// Replacing route `a` (and `b`) keeps the other node sequences.
proof fn lemma_sn_nodes_update(rs: Seq<Route>, i: int, r: Route)
    requires
        0 <= i < rs.len(),
    ensures
        sn_nodes(rs.update(i, r)) == sn_nodes(rs).update(i, nodes(r.seq@)),
{
    assert(sn_nodes(rs.update(i, r)) =~= sn_nodes(rs).update(i, nodes(r.seq@)));
}

/// After routes `a` and `b` change without losing a node, refreshing their
/// locator entries keeps every entry pointing at a real place.
pub(crate) proof fn lemma_loc_after_refresh(
    old_rs: Seq<Route>,
    rs: Seq<Route>,
    l0: Seq<NodeLoc>,
    l1: Seq<NodeLoc>,
    l2: Seq<NodeLoc>,
    a: int,
    b: int,
    n: int,
)
    requires
        n <= u32::MAX + 1,
        loc_ok(old_rs, l0, n),
        rs.len() == old_rs.len(),
        0 <= a < rs.len(),
        0 <= b < rs.len(),
        forall|r: int| 0 <= r < rs.len() && r != a && r != b ==> (#[trigger] rs[r]).seq@ == old_rs[r].seq@,
        forall|u: u32|
            old_rs[a].seq@.contains(u) || old_rs[b].seq@.contains(u) ==> rs[a].seq@.contains(u) || rs[b].seq@.contains(u),
        l1.len() == n,
        l2.len() == n,
        l1[0] == l0[0],
        l2[0] == l1[0],
        refreshed(l0, l1, rs[a].seq@, a),
        refreshed(l1, l2, rs[b].seq@, b),
    ensures
        loc_ok(rs, l2, n),
{
    assert forall|u: int| 1 <= u < n implies #[trigger] points_at(rs, l2[u], u) by {
        lemma_occurs_contains(rs[a].seq@, u);
        lemma_occurs_contains(rs[b].seq@, u);
        lemma_occurs_contains(old_rs[a].seq@, u);
        lemma_occurs_contains(old_rs[b].seq@, u);
        let sa = rs[a].seq@;
        let sb = rs[b].seq@;
        if occurs(sb, sb.len() as int, u) {
            assert(l2[u].route == b);
        } else if occurs(sa, sa.len() as int, u) {
            assert(l2[u] == l1[u]);
            assert(l1[u].route == a);
        } else {
            assert(l2[u] == l1[u]);
            assert(l1[u] == l0[u]);
            assert(points_at(old_rs, l0[u], u));
            if l0[u].route != u32::MAX {
                let r = l0[u].route as int;
                let q = l0[u].pos as int;
                assert(old_rs[r].seq@[q] as int == u);
                if r == a || r == b {
                    assert(old_rs[r].seq@.contains(u as u32));
                    assert(false);
                } else {
                    assert(rs[r].seq@ == old_rs[r].seq@);
                }
            }
        }
    }
}

/// What removing the inner node at `p` saves.
pub open spec fn rem_gain(dm: Seq<Vec<i32>>, r: Seq<usize>, p: int) -> int {
    dd(dm, r[p - 1], r[p]) + dd(dm, r[p], r[p + 1]) - dd(dm, r[p - 1], r[p + 1])
}

/// What inserting `x` at position `p` costs.
pub open spec fn ins_gain(dm: Seq<Vec<i32>>, r: Seq<usize>, p: int, x: usize) -> int {
    dd(dm, r[p - 1], x) + dd(dm, x, r[p]) - dd(dm, r[p - 1], r[p])
}

/// Where the target position lands once the node at `sp` of the same route is
/// taken out.
pub open spec fn shifted(tp: int, sp: int) -> int {
    if tp > sp { tp - 1 } else { tp }
}

/// The routes after moving the node at place `(s, sp)` to position `tp` of
/// route `t`; within one route, `tp` counts places before the node is taken out.
pub open spec fn relocated(rs: Seq<Seq<usize>>, s: int, sp: int, t: int, tp: int) -> Seq<Seq<usize>> {
    if t == s {
        rs.update(s, rs[s].remove(sp).insert(shifted(tp, sp), rs[s][sp]))
    } else {
        rs.update(s, rs[s].remove(sp)).update(t, rs[t].insert(tp, rs[s][sp]))
    }
}

/// A relocation the pass may make: an inner node to an inner gap, not back to
/// its own place.
pub open spec fn reloc_ok(rs: Seq<Seq<usize>>, s: int, sp: int, t: int, tp: int) -> bool {
    &&& 0 <= s < rs.len()
    &&& 0 <= t < rs.len()
    &&& 1 <= sp < rs[s].len() - 1
    &&& 1 <= tp < rs[t].len()
    &&& t == s ==> tp != sp && tp != sp + 1
}

/// The change in total length of a relocation.
pub open spec fn reloc_delta(dm: Seq<Vec<i32>>, rs: Seq<Seq<usize>>, s: int, sp: int, t: int, tp: int) -> int {
    if t == s {
        ins_gain(dm, rs[s].remove(sp), shifted(tp, sp), rs[s][sp]) - rem_gain(dm, rs[s], sp)
    } else {
        ins_gain(dm, rs[t], tp, rs[s][sp]) - rem_gain(dm, rs[s], sp)
    }
}

/// A relocation changes the total length by its delta, and keeps the customers
/// and the number of nodes.
pub proof fn lemma_relocated(dm: Seq<Vec<i32>>, rs: Seq<Seq<usize>>, s: int, sp: int, t: int, tp: int)
    requires
        reloc_ok(rs, s, sp, t, tp),
    ensures
        total_len(dm, relocated(rs, s, sp, t, tp)) == total_len(dm, rs) + reloc_delta(dm, rs, s, sp, t, tp),
        all_custs(relocated(rs, s, sp, t, tp)) == all_custs(rs),
        total_nodes(relocated(rs, s, sp, t, tp)) == total_nodes(rs),
        relocated(rs, s, sp, t, tp).len() == rs.len(),
{
    let r = rs[s];
    let x = r[sp];
    let rem = r.remove(sp);
    lemma_route_len_remove(dm, r, sp);
    assert(rem[sp - 1] == r[sp - 1]);
    assert(rem[sp] == r[sp + 1]);
    if t == s {
        let adj = shifted(tp, sp);
        assert(1 <= adj < rem.len());
        lemma_route_len_insert(dm, rem, adj, x);
        lemma_total_len_update(dm, rs, s, rem.insert(adj, x));
        lemma_total_nodes(rs, s, rem.insert(adj, x));
        lemma_custs_remove(r, sp);
        lemma_custs_insert(rem, adj, x);
        lemma_all_custs_update(rs, s, rem.insert(adj, x));
        assert(custs(rem.insert(adj, x)) =~= custs(r)) by {
            broadcast use vstd::multiset::group_multiset_axioms;
        }
        assert(all_custs(rs.update(s, rem.insert(adj, x))) =~= all_custs(rs)) by {
            broadcast use vstd::multiset::group_multiset_axioms;
            assert forall|v: usize| all_custs(rs.update(s, rem.insert(adj, x))).count(v) == all_custs(rs).count(v) by {
                assert(all_custs(rs.update(s, rem.insert(adj, x))).add(custs(r)).count(v) == all_custs(rs).add(
                    custs(rem.insert(adj, x)),
                ).count(v));
            }
        }
    } else {
        let u1 = rs.update(s, rem);
        lemma_route_len_insert(dm, rs[t], tp, x);
        lemma_total_len_update(dm, rs, s, rem);
        assert(u1[t] == rs[t]);
        lemma_total_len_update(dm, u1, t, rs[t].insert(tp, x));
        lemma_total_nodes(rs, s, rem);
        lemma_total_nodes(u1, t, rs[t].insert(tp, x));
        lemma_move_custs(rs, s, t, sp, tp);
    }
}

/// The `t`-th place (before or after) next to the `k`-th listed neighbour of
/// customer `u`, which stands at `(src, sp)`: a relocation the pass prices that
/// the insertion check accepts and that shortens the solution.
pub open spec fn reloc_improves(ctx: Ctx, rs: Seq<Route>, loc: Seq<NodeLoc>, u: int, src: int, sp: int, k: int, t: int) -> bool {
    let v = ctx.neighbors@[u]@[k] as int;
    let vl = loc[v];
    let tri = vl.route as int;
    let p = vl.pos as int + t;
    &&& vl.route != u32::MAX
    &&& !(tri == src && (p == sp || p == sp + 1))
    &&& 1 <= p < rs[tri].seq@.len()
    &&& if tri == src {
        let s = rs[src].seq@.remove(sp);
        &&& 1 <= shifted(p, sp) < s.len()
        &&& fits_seq(ctx, s, u as usize, shifted(p, sp))
    } else {
        fits_seq(ctx, rs[tri].seq@, u as usize, p)
    }
    &&& reloc_delta(ctx.d@, sn_nodes(rs), src, sp, tri, p) < 0
}

/// The insertion check accepts customer `u`, taken from `(src, sp)`, at
/// position `p` of route `tri`: in the route without it when that is the source.
pub open spec fn reloc_fits(ctx: Ctx, rs: Seq<Route>, src: int, sp: int, tri: int, p: int, u: usize) -> bool {
    if tri == src {
        &&& 1 <= shifted(p, sp) < rs[src].seq@.len() - 1
        &&& fits_seq(ctx, rs[src].seq@.remove(sp), u, shifted(p, sp))
    } else {
        fits_seq(ctx, rs[tri].seq@, u, p)
    }
}

/// The best relocation of customer `u`, at place `(src_ri, src_p)`, next to one
/// of its listed neighbours: before or after the neighbour, checked against the
/// target route's tables. Returns the best saving (zero when none is
/// negative), and the target route (`usize::MAX` for none) and position.
fn best_relocation(ctx: &Ctx, sol: &Sol, loc: &Vec<NodeLoc>, u: usize, src_ri: usize, src_p: usize) -> (res: (i32, usize, usize))
    requires
        ctx.wf(),
        sn_ok(*ctx, sol.routes@),
        loc_ok(sol.routes@, loc@, ctx.n as int),
        1 <= u < ctx.n,
        src_ri < sol.routes@.len(),
        1 <= src_p < sol.routes@[src_ri as int].seq@.len() - 1,
        sol.routes@[src_ri as int].seq@[src_p as int] as int == u,
    ensures
        res.0 <= 0,
        res.1 != usize::MAX ==> {
            &&& res.0 < 0
            &&& reloc_ok(sn_nodes(sol.routes@), src_ri as int, src_p as int, res.1 as int, res.2 as int)
            &&& reloc_delta(ctx.d@, sn_nodes(sol.routes@), src_ri as int, src_p as int, res.1 as int, res.2 as int) == res.0
            &&& reloc_fits(*ctx, sol.routes@, src_ri as int, src_p as int, res.1 as int, res.2 as int, u)
        },
        res.1 == usize::MAX ==> forall|k: int, t: int| 0 <= k < ctx.neighbors@[u as int]@.len() && 0 <= t < 2
            ==> !#[trigger] reloc_improves(*ctx, sol.routes@, loc@, u as int, src_ri as int, src_p as int, k, t),
{
    let ghost rs = sn_nodes(sol.routes@);
    let ghost dm = ctx.d@;
    let r = &sol.routes[src_ri];
    proof {
        assert(route_fit(*ctx, sol.routes@[src_ri as int]));
        assert(rs[src_ri as int] == nodes(r.seq@));
    }
    let a = r.seq[src_p - 1] as usize;
    let b = r.seq[src_p + 1] as usize;
    proof {
        assert(seq_ok(*ctx, r.seq@));
        assert((r.seq@[src_p - 1] as int) < ctx.n);
        assert((r.seq@[src_p + 1] as int) < ctx.n);
        assert(crate::model::in_limit(ctx.d@[a as int]@[u as int]));
        assert(crate::model::in_limit(ctx.d@[u as int]@[b as int]));
        assert(crate::model::in_limit(ctx.d@[a as int]@[b as int]));
    }
    let remove_gain = ctx.d[a][u] + ctx.d[u][b] - ctx.d[a][b];
    assert(remove_gain == rem_gain(dm, rs[src_ri as int], src_p as int));
    let mut best_delta: i32 = 0;
    let mut best_tri: usize = usize::MAX;
    let mut best_tp: usize = 0;
    let nb = &ctx.neighbors[u];
    let mut k: usize = 0;
    while k < nb.len()
        invariant
            ctx.wf(),
            sn_ok(*ctx, sol.routes@),
            loc_ok(sol.routes@, loc@, ctx.n as int),
            rs == sn_nodes(sol.routes@),
            dm == ctx.d@,
            1 <= u < ctx.n,
            src_ri < sol.routes@.len(),
            1 <= src_p < sol.routes@[src_ri as int].seq@.len() - 1,
            sol.routes@[src_ri as int].seq@[src_p as int] as int == u,
            remove_gain == rem_gain(dm, rs[src_ri as int], src_p as int),
            -300_000 <= remove_gain <= 300_000,
            *nb == ctx.neighbors@[u as int],
            k <= nb@.len(),
            best_delta <= 0,
            best_tri != usize::MAX ==> {
                &&& best_delta < 0
                &&& reloc_ok(rs, src_ri as int, src_p as int, best_tri as int, best_tp as int)
                &&& reloc_delta(dm, rs, src_ri as int, src_p as int, best_tri as int, best_tp as int) == best_delta
                &&& reloc_fits(*ctx, sol.routes@, src_ri as int, src_p as int, best_tri as int, best_tp as int, u)
            },
            best_tri == usize::MAX ==> best_delta == 0,
            best_tri == usize::MAX ==> forall|k2: int, t2: int| 0 <= k2 < k && 0 <= t2 < 2
                ==> !#[trigger] reloc_improves(*ctx, sol.routes@, loc@, u as int, src_ri as int, src_p as int, k2, t2),
        decreases nb.len() - k,
    {
        let v = nb[k] as usize;
        assert((v as int) < ctx.n);
        let vl = loc[v];
        if vl.route != u32::MAX {
            proof {
                if v == 0 {
                    assert(false);
                }
                assert(points_at(sol.routes@, loc@[v as int], v as int));
            }
            let tri = vl.route as usize;
            let vp = vl.pos as usize;
            let mut t: usize = 0;
            while t < 2
                invariant
                    ctx.wf(),
                    sn_ok(*ctx, sol.routes@),
                    rs == sn_nodes(sol.routes@),
                    dm == ctx.d@,
                    1 <= u < ctx.n,
                    src_ri < sol.routes@.len(),
                    1 <= src_p < sol.routes@[src_ri as int].seq@.len() - 1,
                    sol.routes@[src_ri as int].seq@[src_p as int] as int == u,
                    remove_gain == rem_gain(dm, rs[src_ri as int], src_p as int),
                    -300_000 <= remove_gain <= 300_000,
                    tri < sol.routes@.len(),
                    vp < sol.routes@[tri as int].seq@.len(),
                    t <= 2,
                    best_delta <= 0,
                    best_tri != usize::MAX ==> {
                        &&& best_delta < 0
                        &&& reloc_ok(rs, src_ri as int, src_p as int, best_tri as int, best_tp as int)
                        &&& reloc_delta(dm, rs, src_ri as int, src_p as int, best_tri as int, best_tp as int) == best_delta
                        &&& reloc_fits(*ctx, sol.routes@, src_ri as int, src_p as int, best_tri as int, best_tp as int, u)
                    },
                    loc_ok(sol.routes@, loc@, ctx.n as int),
                    *nb == ctx.neighbors@[u as int],
                    k < nb@.len(),
                    v == nb@[k as int] as usize,
                    vl == loc@[v as int],
                    vl.route != u32::MAX,
                    tri == vl.route as usize,
                    vp == vl.pos as usize,
                    best_tri == usize::MAX ==> best_delta == 0,
                    best_tri == usize::MAX ==> forall|k2: int, t2: int| ((0 <= k2 < k && 0 <= t2 < 2) || (k2 == k && 0 <= t2 < t))
                        ==> !#[trigger] reloc_improves(*ctx, sol.routes@, loc@, u as int, src_ri as int, src_p as int, k2, t2),
                decreases 2 - t,
            {
                proof {
                    assert(route_fit(*ctx, sol.routes@[tri as int]));
                    assert(seq_ok(*ctx, sol.routes@[tri as int].seq@));
                }
                let p = vp + t;
                let target = &sol.routes[tri];
                proof {
                    assert(rs[tri as int] == nodes(target.seq@));
                    assert(rs[src_ri as int] == nodes(sol.routes@[src_ri as int].seq@));
                }
                if !(tri == src_ri && (p == src_p || p == src_p + 1)) && p >= 1 && p < target.len() {
                    if tri == src_ri {
                        let mut tmp = Route {
                            seq: target.seq.clone(),
                            arr: Vec::new(),
                            lat: Vec::new(),
                            demand_sum: 0,
                            dist: 0,
                        };
                        assert(tmp.seq@ =~= target.seq@);
                        let removed = tmp.remove_at(ctx, src_p);
                        let adj_p = if p > src_p { p - 1 } else { p };
                        if adj_p >= 1 && adj_p < tmp.len() {
                            proof {
                                lemma_nodes_edit(target.seq@, src_p as int, 0);
                                assert(removed == u);
                            }
                            match tmp.try_insert(ctx, removed, adj_p) {
                                Some(ins_delta) => {
                                    proof {
                                        assert(nodes(tmp.seq@) == rs[src_ri as int].remove(src_p as int));
                                        assert(rs[src_ri as int][src_p as int] == u);
                                        assert(ins_delta == ins_gain(dm, rs[src_ri as int].remove(src_p as int), adj_p as int, u));
                                        assert(adj_p == shifted(p as int, src_p as int));
                                        assert(tmp.seq@ == sol.routes@[src_ri as int].seq@.remove(src_p as int));
                                        assert(fits_seq(*ctx, tmp.seq@, u, adj_p as int));
                                    }
                                    let total = ins_delta - remove_gain;
                                    if total < best_delta {
                                        best_delta = total;
                                        best_tri = tri;
                                        best_tp = p;
                                    }
                                },
                                None => {},
                            }
                        }
                    } else {
                        match target.try_insert(ctx, u, p) {
                            Some(ins_delta) => {
                                proof {
                                    assert(rs[src_ri as int][src_p as int] == u);
                                    let ta = target.seq@[p - 1];
                                    let tb = target.seq@[p as int];
                                    assert((ta as int) < ctx.n && (tb as int) < ctx.n);
                                    assert(crate::model::in_limit(ctx.d@[ta as int]@[u as int]));
                                    assert(crate::model::in_limit(ctx.d@[u as int]@[tb as int]));
                                    assert(crate::model::in_limit(ctx.d@[ta as int]@[tb as int]));
                                    assert(ins_delta == ins_gain(dm, rs[tri as int], p as int, u));
                                }
                                let total = ins_delta - remove_gain;
                                if total < best_delta {
                                    best_delta = total;
                                    best_tri = tri;
                                    best_tp = p;
                                }
                            },
                            None => {},
                        }
                    }
                }
                proof {
                    if best_tri == usize::MAX {
                        assert(!reloc_improves(*ctx, sol.routes@, loc@, u as int, src_ri as int, src_p as int, k as int, t as int)) by {
                            lemma_nodes_edit(sol.routes@[src_ri as int].seq@, src_p as int, 0);
                        }
                    }
                }
                t += 1;
            }
        }
        proof {
            if best_tri == usize::MAX && vl.route == u32::MAX {
                assert forall|t2: int| 0 <= t2 < 2 implies !#[trigger] reloc_improves(*ctx, sol.routes@, loc@, u as int, src_ri as int, src_p as int, k as int, t2) by {}
            }
        }
        k += 1;
    }
    (best_delta, best_tri, best_tp)
}

/// Two pairs of sequences with the same nodes together: a node of the first
/// pair is a node of the second.
proof fn lemma_contains_kept(oa: Seq<u32>, ob: Seq<u32>, na: Seq<u32>, nb: Seq<u32>)
    requires
        oa.to_multiset().add(ob.to_multiset()) == na.to_multiset().add(nb.to_multiset()),
    ensures
        forall|x: u32| oa.contains(x) || ob.contains(x) ==> na.contains(x) || nb.contains(x),
{
    broadcast use vstd::multiset::group_multiset_axioms;
    assert forall|x: u32| oa.contains(x) || ob.contains(x) implies na.contains(x) || nb.contains(x) by {
        vstd::seq_lib::to_multiset_contains(oa, x);
        vstd::seq_lib::to_multiset_contains(ob, x);
        vstd::seq_lib::to_multiset_contains(na, x);
        vstd::seq_lib::to_multiset_contains(nb, x);
        assert(oa.to_multiset().add(ob.to_multiset()).count(x) > 0);
    }
}

/// Taking a node out and putting it back elsewhere keeps the nodes.
proof fn lemma_move_within(s: Seq<u32>, sp: int, adj: int)
    requires
        0 <= sp < s.len(),
        0 <= adj < s.len(),
    ensures
        s.remove(sp).insert(adj, s[sp]).to_multiset() == s.to_multiset(),
{
    broadcast use vstd::multiset::group_multiset_axioms;
    vstd::seq_lib::to_multiset_remove(s, sp);
    vstd::seq_lib::to_multiset_insert(s.remove(sp), adj, s[sp]);
    vstd::seq_lib::to_multiset_contains(s, s[sp]);
    assert(s.remove(sp).insert(adj, s[sp]).to_multiset() =~= s.to_multiset());
}

/// Route fitness after taking out an inner node.
proof fn lemma_fit_remove(ctx: Ctx, r: Route, nr: Route, p: int)
    requires
        route_fit(ctx, r),
        1 <= p < r.seq@.len() - 1,
        nr.seq@ == r.seq@.remove(p),
        nr.tables_ok(ctx),
    ensures
        route_fit(ctx, nr),
{
    assert(nr.seq@[0] == r.seq@[0]);
    assert(nr.seq@[nr.seq@.len() - 1] == r.seq@[r.seq@.len() - 1]);
    assert forall|k: int| 0 < k < nr.seq@.len() - 1 implies #[trigger] nr.seq@[k] != 0 by {
        if k < p {
            assert(nr.seq@[k] == r.seq@[k]);
        } else {
            assert(nr.seq@[k] == r.seq@[k + 1]);
        }
    }
}

/// Route fitness after inserting a customer into an inner gap.
pub(crate) proof fn lemma_fit_insert(ctx: Ctx, r: Route, nr: Route, p: int, x: u32)
    requires
        route_fit(ctx, r),
        1 <= p < r.seq@.len(),
        x != 0,
        nr.seq@ == r.seq@.insert(p, x),
        nr.tables_ok(ctx),
    ensures
        route_fit(ctx, nr),
{
    assert(nr.seq@[0] == r.seq@[0]);
    assert(nr.seq@[nr.seq@.len() - 1] == r.seq@[r.seq@.len() - 1]);
    assert forall|k: int| 0 < k < nr.seq@.len() - 1 implies #[trigger] nr.seq@[k] != 0 by {
        if k < p {
            assert(nr.seq@[k] == r.seq@[k]);
        } else if k > p {
            assert(nr.seq@[k] == r.seq@[k - 1]);
        }
    }
}

/// Moves the node at place `(src_ri, src_p)` to position `tp` of route `tri`
/// (of the route without it, shifted, when `tri == src_ri`), recomputing the
/// changed routes' tables and refreshing their locator entries.
/// A relocation that the insertion check accepts keeps feasible routes
/// feasible, on an instance where the feasibility laws apply.
proof fn lemma_reloc_feasible(ctx: Ctx, before: Seq<Route>, after: Seq<Route>, src: int, sp: int, tri: int, tp: int)
    requires
        ctx.wf(),
        sn_inst_ok(ctx),
        sn_feasible(ctx, before),
        forall|r: int| 0 <= r < before.len() ==> #[trigger] route_fit(ctx, before[r]),
        forall|r: int| 0 <= r < after.len() ==> #[trigger] route_fit(ctx, after[r]),
        after.len() == before.len(),
        0 <= src < before.len(),
        0 <= tri < before.len(),
        1 <= sp < before[src].seq@.len() - 1,
        1 <= tp < before[tri].seq@.len(),
        reloc_fits(ctx, before, src, sp, tri, tp, before[src].seq@[sp] as usize),
        forall|r: int| 0 <= r < after.len() && r != src && r != tri ==> #[trigger] after[r] == before[r],
        tri == src ==> after[src].seq@ == before[src].seq@.remove(sp).insert(shifted(tp, sp), before[src].seq@[sp]),
        tri != src ==> after[src].seq@ == before[src].seq@.remove(sp)
            && after[tri].seq@ == before[tri].seq@.insert(tp, before[src].seq@[sp]),
    ensures
        sn_feasible(ctx, after),
{
    let os = before[src].seq@;
    let x = os[sp] as usize;
    assert(route_fit(ctx, before[src]));
    assert(route_fit(ctx, before[tri]));
    assert(route_feasible(ctx, before[src]));
    assert(route_feasible(ctx, before[tri]));
    assert(seq_ok(ctx, os));
    assert(os[sp] != 0);
    assert(1 <= x < ctx.n);
    assert((x as u32) == os[sp]);
    lemma_remove_feasible(ctx, os, sp);
    let ms = os.remove(sp);
    if tri == src {
        assert(seq_ok(ctx, ms)) by {
            assert forall|k: int| 0 <= k < ms.len() implies (#[trigger] ms[k] as int) < ctx.n by {
                if k < sp {
                    assert(ms[k] == os[k]);
                } else {
                    assert(ms[k] == os[k + 1]);
                }
            }
        }
        assert(ms[ms.len() - 1] == 0);
        lemma_insert_feasible(ctx, ms, x, shifted(tp, sp));
    } else {
        let ot = before[tri].seq@;
        assert(seq_ok(ctx, ot));
        assert(ot[ot.len() - 1] == 0);
        lemma_insert_feasible(ctx, ot, x, tp);
    }
    assert forall|r: int| 0 <= r < after.len() implies #[trigger] route_feasible(ctx, after[r]) by {
        assert(route_fit(ctx, after[r]));
        if r != src && r != tri {
            assert(after[r] == before[r]);
            assert(route_feasible(ctx, before[r]));
        }
    }
}

fn apply_relocation(ctx: &Ctx, sol: &mut Sol, loc: &mut Vec<NodeLoc>, src_ri: usize, src_p: usize, tri: usize, tp: usize)
    requires
        ctx.wf(),
        sn_ok(*ctx, old(sol).routes@),
        loc_ok(old(sol).routes@, old(loc)@, ctx.n as int),
        reloc_ok(sn_nodes(old(sol).routes@), src_ri as int, src_p as int, tri as int, tp as int),
    ensures
        sn_ok(*ctx, final(sol).routes@),
        loc_ok(final(sol).routes@, final(loc)@, ctx.n as int),
        final(sol).total_dist == old(sol).total_dist,
        sn_nodes(final(sol).routes@) == relocated(sn_nodes(old(sol).routes@), src_ri as int, src_p as int, tri as int, tp as int),
        sn_inst_ok(*ctx) && sn_feasible(*ctx, old(sol).routes@)
            && reloc_fits(*ctx, old(sol).routes@, src_ri as int, src_p as int, tri as int, tp as int, old(sol).routes@[src_ri as int].seq@[src_p as int] as usize)
            ==> sn_feasible(*ctx, final(sol).routes@),
{
    let ghost dm = ctx.d@;
    let ghost before = sol.routes@;
    let ghost rs = sn_nodes(before);
    let ghost l0 = loc@;
    let ghost os = before[src_ri as int].seq@;
    let ghost ot = before[tri as int].seq@;
    proof {
        lemma_relocated(dm, rs, src_ri as int, src_p as int, tri as int, tp as int);
        assert(rs[src_ri as int] == nodes(os));
        assert(rs[tri as int] == nodes(ot));
        assert(route_fit(*ctx, before[tri as int]));
        assert(route_fit(*ctx, before[src_ri as int]));
        assert(seq_ok(*ctx, os));
        assert(os[src_p as int] != 0);
        lemma_nodes_edit(os, src_p as int, 0);
        lemma_total_nodes(rs, src_ri as int, rs[src_ri as int]);
    }
    if tri == src_ri {
        let removed = sol.routes[src_ri].remove_at(ctx, src_p);
        let adj_p = if tp > src_p { tp - 1 } else { tp };
        let ghost mid_r = sol.routes@[src_ri as int];
        proof {
            lemma_fit_remove(*ctx, before[src_ri as int], mid_r, src_p as int);
        }
        sol.routes[src_ri].insert_at(ctx, removed, adj_p);
        proof {
            lemma_fit_insert(*ctx, mid_r, sol.routes@[src_ri as int], adj_p as int, os[src_p as int]);
        }
        refresh_route_loc(loc, sol, src_ri);
        proof {
            let ns = sol.routes@[src_ri as int].seq@;
            assert(ns == os.remove(src_p as int).insert(adj_p as int, os[src_p as int]));
            lemma_nodes_edit(os.remove(src_p as int), adj_p as int, os[src_p as int]);
            lemma_sn_nodes_update(before, src_ri as int, sol.routes@[src_ri as int]);
            assert(sol.routes@ == before.update(src_ri as int, sol.routes@[src_ri as int]));
            assert(sn_nodes(sol.routes@) == relocated(rs, src_ri as int, src_p as int, tri as int, tp as int));
            lemma_move_within(os, src_p as int, adj_p as int);
            lemma_contains_kept(os, os, ns, ns);
            lemma_loc_after_refresh(before, sol.routes@, l0, loc@, loc@, src_ri as int, src_ri as int, ctx.n as int);
            assert forall|r: int| 0 <= r < sol.routes@.len() implies #[trigger] route_fit(*ctx, sol.routes@[r]) by {
                if r != src_ri {
                    assert(sol.routes@[r] == before[r]);
                }
            }
            if sn_inst_ok(*ctx) && sn_feasible(*ctx, before)
                && reloc_fits(*ctx, before, src_ri as int, src_p as int, tri as int, tp as int, os[src_p as int] as usize) {
                lemma_reloc_feasible(*ctx, before, sol.routes@, src_ri as int, src_p as int, tri as int, tp as int);
            }
        }
    } else {
        let removed = sol.routes[src_ri].remove_at(ctx, src_p);
        let ghost mid = sol.routes@;
        sol.routes[tri].insert_at(ctx, removed, tp);
        proof {
            lemma_fit_remove(*ctx, before[src_ri as int], sol.routes@[src_ri as int], src_p as int);
            lemma_fit_insert(*ctx, before[tri as int], sol.routes@[tri as int], tp as int, os[src_p as int]);
        }
        let ghost l1a = loc@;
        refresh_route_loc(loc, sol, src_ri);
        let ghost l1 = loc@;
        refresh_route_loc(loc, sol, tri);
        proof {
            let ns = sol.routes@[src_ri as int].seq@;
            let nt = sol.routes@[tri as int].seq@;
            assert(ns == os.remove(src_p as int));
            assert(nt == ot.insert(tp as int, os[src_p as int]));
            lemma_nodes_edit(ot, tp as int, os[src_p as int]);
            lemma_sn_nodes_update(before, src_ri as int, mid[src_ri as int]);
            lemma_sn_nodes_update(mid, tri as int, sol.routes@[tri as int]);
            assert(mid == before.update(src_ri as int, mid[src_ri as int]));
            assert(sol.routes@ == mid.update(tri as int, sol.routes@[tri as int]));
            assert(sn_nodes(sol.routes@) == relocated(rs, src_ri as int, src_p as int, tri as int, tp as int));
            assert(os.remove(src_p as int).to_multiset().add(ot.insert(tp as int, os[src_p as int]).to_multiset())
                == os.to_multiset().add(ot.to_multiset())) by {
                broadcast use vstd::multiset::group_multiset_axioms;
                vstd::seq_lib::to_multiset_remove(os, src_p as int);
                vstd::seq_lib::to_multiset_insert(ot, tp as int, os[src_p as int]);
                vstd::seq_lib::to_multiset_contains(os, os[src_p as int]);
                assert(os.remove(src_p as int).to_multiset().add(ot.insert(tp as int, os[src_p as int]).to_multiset())
                    =~= os.to_multiset().add(ot.to_multiset()));
            }
            lemma_contains_kept(os, ot, ns, nt);
            lemma_loc_after_refresh(before, sol.routes@, l0, l1, loc@, src_ri as int, tri as int, ctx.n as int);
            assert(ns[0] == os[0]);
            assert(ns[ns.len() - 1] == os[os.len() - 1]);
            assert(nt[0] == ot[0]);
            assert(nt[nt.len() - 1] == ot[ot.len() - 1]);
            assert forall|r: int| 0 <= r < sol.routes@.len() implies #[trigger] route_fit(*ctx, sol.routes@[r]) by {
                if r != src_ri && r != tri {
                    assert(sol.routes@[r] == before[r]);
                }
            }
            assert forall|r: int| 0 <= r < sol.routes@.len() && r != src_ri && r != tri implies #[trigger] sol.routes@[r] == before[r] by {}
            if sn_inst_ok(*ctx) && sn_feasible(*ctx, before)
                && reloc_fits(*ctx, before, src_ri as int, src_p as int, tri as int, tp as int, os[src_p as int] as usize) {
                lemma_reloc_feasible(*ctx, before, sol.routes@, src_ri as int, src_p as int, tri as int, tp as int);
            }
        }
    }
}

/// One relocation sweep over the customers in number order: a customer on a
/// route moves to the best place next to one of its listed neighbours when
/// that shortens the solution (`best_relocation`), and the locator entries of
/// the changed routes are refreshed.
pub fn relocate_pass(ctx: &Ctx, sol: &mut Sol, loc: &mut Vec<NodeLoc>) -> (improved: bool)
    requires
        ctx.wf(),
        sn_ok(*ctx, old(sol).routes@),
        loc_ok(old(sol).routes@, old(loc)@, ctx.n as int),
    ensures
        sn_ok(*ctx, final(sol).routes@),
        loc_ok(final(sol).routes@, final(loc)@, ctx.n as int),
        final(sol).routes@.len() == old(sol).routes@.len(),
        final(sol).total_dist == old(sol).total_dist,
        all_custs(sn_nodes(final(sol).routes@)) == all_custs(sn_nodes(old(sol).routes@)),
        total_len(ctx.d@, sn_nodes(final(sol).routes@)) <= total_len(ctx.d@, sn_nodes(old(sol).routes@)),
        improved ==> total_len(ctx.d@, sn_nodes(final(sol).routes@)) < total_len(ctx.d@, sn_nodes(old(sol).routes@)),
        !improved ==> sn_nodes(final(sol).routes@) == sn_nodes(old(sol).routes@),
        !improved ==> *final(sol) == *old(sol) && final(loc)@ == old(loc)@,
        !improved ==> forall|u: int, k: int, t: int|
            1 <= u < ctx.n && 0 <= k < ctx.neighbors@[u]@.len() && 0 <= t < 2 && final(loc)@[u].route != u32::MAX
                ==> !#[trigger] reloc_improves(*ctx, final(sol).routes@, final(loc)@, u, final(loc)@[u].route as int, final(loc)@[u].pos as int, k, t),
        sn_inst_ok(*ctx) && sn_feasible(*ctx, old(sol).routes@) ==> sn_feasible(*ctx, final(sol).routes@),
{
    let ghost rs0 = sn_nodes(sol.routes@);
    let ghost dm = ctx.d@;
    let mut improved = false;
    let mut u: usize = 1;
    while u < ctx.n
        invariant
            ctx.wf(),
            dm == ctx.d@,
            sn_ok(*ctx, sol.routes@),
            loc_ok(sol.routes@, loc@, ctx.n as int),
            sol.routes@.len() == old(sol).routes@.len(),
            sol.total_dist == old(sol).total_dist,
            1 <= u,
            rs0 == sn_nodes(old(sol).routes@),
            all_custs(sn_nodes(sol.routes@)) == all_custs(rs0),
            total_len(dm, sn_nodes(sol.routes@)) <= total_len(dm, rs0),
            improved ==> total_len(dm, sn_nodes(sol.routes@)) < total_len(dm, rs0),
            !improved ==> sn_nodes(sol.routes@) == rs0,
            !improved ==> *sol == *old(sol) && loc@ == old(loc)@,
            !improved ==> forall|w: int, k: int, t: int|
                1 <= w < u && w < ctx.n && 0 <= k < ctx.neighbors@[w]@.len() && 0 <= t < 2 && loc@[w].route != u32::MAX
                    ==> !#[trigger] reloc_improves(*ctx, sol.routes@, loc@, w, loc@[w].route as int, loc@[w].pos as int, k, t),
            sn_inst_ok(*ctx) && sn_feasible(*ctx, old(sol).routes@) ==> sn_feasible(*ctx, sol.routes@),
        decreases ctx.n - u,
    {
        let ul = loc[u];
        if ul.route != u32::MAX {
            let src_ri = ul.route as usize;
            let src_p = ul.pos as usize;
            proof {
                assert(points_at(sol.routes@, loc@[u as int], u as int));
                assert(route_fit(*ctx, sol.routes@[src_ri as int]));
            }
            let (best_delta, best_tri, best_tp) = best_relocation(ctx, sol, loc, u, src_ri, src_p);
            if best_tri != usize::MAX && best_delta < 0 {
                proof {
                    lemma_relocated(dm, sn_nodes(sol.routes@), src_ri as int, src_p as int, best_tri as int, best_tp as int);
                }
                apply_relocation(ctx, sol, loc, src_ri, src_p, best_tri, best_tp);
                improved = true;
            }
        }
        u += 1;
    }
    improved
}

/// The routes after customer `p1` of route `r1` and customer `p2` of route
/// `r2` trade places.
pub open spec fn swapped(rs: Seq<Seq<usize>>, r1: int, p1: int, r2: int, p2: int) -> Seq<Seq<usize>> {
    rs.update(r1, rs[r1].update(p1, rs[r2][p2])).update(r2, rs[r2].update(p2, rs[r1][p1]))
}

/// Every node after the first is reached by its due time, going by the
/// arrival times of the sequence itself.
pub open spec fn seq_on_time(ctx: Ctx, s: Seq<u32>) -> bool {
    forall|p: int| 1 <= p < s.len() ==> #[trigger] crate::silver_nova::arrival(ctx, s, p) <= ctx.due@[s[p] as int]
}

/// Trading two inner nodes of two routes changes the total length by
/// `ex_delta`, and keeps the customers and the number of nodes.
pub proof fn lemma_swapped(dm: Seq<Vec<i32>>, rs: Seq<Seq<usize>>, r1: int, p1: int, r2: int, p2: int)
    requires
        0 <= r1 < rs.len(),
        0 <= r2 < rs.len(),
        r1 != r2,
        1 <= p1 < rs[r1].len() - 1,
        1 <= p2 < rs[r2].len() - 1,
    ensures
        total_len(dm, swapped(rs, r1, p1, r2, p2)) == total_len(dm, rs) + crate::pv_passes::ex_delta(dm, rs[r1], rs[r2], p1, p2),
        all_custs(swapped(rs, r1, p1, r2, p2)) == all_custs(rs),
        total_nodes(swapped(rs, r1, p1, r2, p2)) == total_nodes(rs),
        swapped(rs, r1, p1, r2, p2).len() == rs.len(),
{
    let a = rs[r1];
    let b = rs[r2];
    let na = a.update(p1, b[p2]);
    let nb = b.update(p2, a[p1]);
    let u1 = rs.update(r1, na);
    crate::pv_passes::lemma_update_len(dm, a, p1, b[p2]);
    crate::pv_passes::lemma_update_len(dm, b, p2, a[p1]);
    lemma_total_len_update(dm, rs, r1, na);
    assert(u1[r2] == b);
    lemma_total_len_update(dm, u1, r2, nb);
    lemma_total_nodes(rs, r1, na);
    lemma_total_nodes(u1, r2, nb);
    crate::algorithm::lemma_swap_custs(rs, r1, r2, p1, p2);
}

/// The `k`-th listed neighbour of customer `u` (whose route is `r1`) stands on
/// another route, and trading the two fits both routes' capacities.
pub open spec fn ex_cand(ctx: Ctx, rs: Seq<Route>, loc: Seq<NodeLoc>, u: int, r1: int, k: int) -> bool {
    let v = ctx.neighbors@[u]@[k] as int;
    let vl = loc[v];
    let r2 = vl.route as int;
    let s1 = rs[r1].seq@;
    let s2 = rs[r2].seq@;
    &&& vl.route != u32::MAX
    &&& r2 != r1
    &&& demand_sum(ctx.demand@, nodes(s1).subrange(1, s1.len() as int)) - ctx.demand@[u] + ctx.demand@[v] <= ctx.cap
    &&& demand_sum(ctx.demand@, nodes(s2).subrange(1, s2.len() as int)) - ctx.demand@[v] + ctx.demand@[u] <= ctx.cap
}

/// The change of length of trading customer `u`, at `(r1, p1)`, with its
/// `k`-th listed neighbour.
pub open spec fn ex_gain(ctx: Ctx, rs: Seq<Route>, loc: Seq<NodeLoc>, u: int, r1: int, p1: int, k: int) -> int {
    let vl = loc[ctx.neighbors@[u]@[k] as int];
    crate::pv_passes::ex_delta(ctx.d@, nodes(rs[r1].seq@), nodes(rs[vl.route as int].seq@), p1, vl.pos as int)
}

/// No trade of customer `u` with a listed neighbour shortens the solution.
pub open spec fn ex_no_gain(ctx: Ctx, rs: Seq<Route>, loc: Seq<NodeLoc>, u: int, r1: int, p1: int) -> bool {
    forall|k: int| 0 <= k < ctx.neighbors@[u]@.len() && #[trigger] ex_cand(ctx, rs, loc, u, r1, k) ==> ex_gain(ctx, rs, loc, u, r1, p1, k) >= 0
}

/// The `kb`-th listed neighbour is the first of the trades of customer `u`
/// that shorten the solution most.
pub open spec fn ex_first_best(ctx: Ctx, rs: Seq<Route>, loc: Seq<NodeLoc>, u: int, r1: int, p1: int, kb: int) -> bool {
    let nb = ctx.neighbors@[u]@;
    &&& 0 <= kb < nb.len()
    &&& ex_cand(ctx, rs, loc, u, r1, kb)
    &&& ex_gain(ctx, rs, loc, u, r1, p1, kb) < 0
    &&& forall|k: int| 0 <= k < nb.len() && #[trigger] ex_cand(ctx, rs, loc, u, r1, k) ==> ex_gain(ctx, rs, loc, u, r1, p1, k) >= ex_gain(ctx, rs, loc, u, r1, p1, kb)
    &&& forall|k: int| 0 <= k < kb && #[trigger] ex_cand(ctx, rs, loc, u, r1, k) ==> ex_gain(ctx, rs, loc, u, r1, p1, k) > ex_gain(ctx, rs, loc, u, r1, p1, kb)
}

/// After trading customer `u`, at `(r1, p1)`, with its `kb`-th listed
/// neighbour, both routes are on time.
pub open spec fn ex_on_time(ctx: Ctx, rs: Seq<Route>, loc: Seq<NodeLoc>, u: int, r1: int, p1: int, kb: int) -> bool {
    let v = ctx.neighbors@[u]@[kb];
    let vl = loc[v as int];
    &&& seq_on_time(ctx, rs[r1].seq@.update(p1, v))
    &&& seq_on_time(ctx, rs[vl.route as int].seq@.update(vl.pos as int, u as u32))
}

/// The trade specs read the routes only through their node sequences.
proof fn lemma_ex_seqs(ctx: Ctx, a: Seq<Route>, b: Seq<Route>, loc: Seq<NodeLoc>, u: int, r1: int, p1: int)
    requires
        ctx.wf(),
        1 <= u < ctx.n,
        0 <= r1 < a.len(),
        a.len() == b.len(),
        forall|r: int| 0 <= r < a.len() ==> (#[trigger] a[r]).seq@ == b[r].seq@,
        loc_ok(a, loc, ctx.n as int),
    ensures
        ex_no_gain(ctx, a, loc, u, r1, p1) == ex_no_gain(ctx, b, loc, u, r1, p1),
        forall|kb: int| #[trigger] ex_first_best(ctx, a, loc, u, r1, p1, kb) == ex_first_best(ctx, b, loc, u, r1, p1, kb),
        forall|kb: int| #[trigger] ex_cand(ctx, a, loc, u, r1, kb) && 0 <= kb < ctx.neighbors@[u]@.len()
            ==> ex_on_time(ctx, a, loc, u, r1, p1, kb) == ex_on_time(ctx, b, loc, u, r1, p1, kb),
{
    let nb = ctx.neighbors@[u]@;
    assert(a[r1].seq@ == b[r1].seq@);
    assert forall|k: int| 0 <= k < nb.len() implies
        (#[trigger] ex_cand(ctx, a, loc, u, r1, k)) == ex_cand(ctx, b, loc, u, r1, k)
        && (ex_cand(ctx, a, loc, u, r1, k) ==> ex_gain(ctx, a, loc, u, r1, p1, k) == ex_gain(ctx, b, loc, u, r1, p1, k)
            && a[loc[nb[k] as int].route as int].seq@ == b[loc[nb[k] as int].route as int].seq@) by {
        let v = nb[k] as int;
        assert(v < ctx.n);
        if v != 0 {
            assert(points_at(a, loc[v], v));
        }
        if loc[v].route != u32::MAX {
            let r2 = loc[v].route as int;
            assert(a[r2].seq@ == b[r2].seq@);
        }
    }
    assert(ex_no_gain(ctx, a, loc, u, r1, p1) ==> ex_no_gain(ctx, b, loc, u, r1, p1)) by {
        if ex_no_gain(ctx, a, loc, u, r1, p1) {
            assert forall|k: int| 0 <= k < nb.len() && #[trigger] ex_cand(ctx, b, loc, u, r1, k) implies ex_gain(ctx, b, loc, u, r1, p1, k) >= 0 by {
                assert(ex_cand(ctx, a, loc, u, r1, k));
            }
        }
    }
    assert(ex_no_gain(ctx, b, loc, u, r1, p1) ==> ex_no_gain(ctx, a, loc, u, r1, p1)) by {
        if ex_no_gain(ctx, b, loc, u, r1, p1) {
            assert forall|k: int| 0 <= k < nb.len() && #[trigger] ex_cand(ctx, a, loc, u, r1, k) implies ex_gain(ctx, a, loc, u, r1, p1, k) >= 0 by {
                assert(ex_cand(ctx, b, loc, u, r1, k));
            }
        }
    }
    assert forall|kb: int| #[trigger] ex_first_best(ctx, a, loc, u, r1, p1, kb) == ex_first_best(ctx, b, loc, u, r1, p1, kb) by {
        if 0 <= kb < nb.len() && ex_cand(ctx, a, loc, u, r1, kb) {
            assert(ex_cand(ctx, b, loc, u, r1, kb));
            let ga = ex_gain(ctx, a, loc, u, r1, p1, kb);
            assert(ga == ex_gain(ctx, b, loc, u, r1, p1, kb));
            if ex_first_best(ctx, a, loc, u, r1, p1, kb) {
                assert forall|k: int| 0 <= k < nb.len() && #[trigger] ex_cand(ctx, b, loc, u, r1, k) implies ex_gain(ctx, b, loc, u, r1, p1, k) >= ga by {
                    assert(ex_cand(ctx, a, loc, u, r1, k));
                }
                assert forall|k: int| 0 <= k < kb && #[trigger] ex_cand(ctx, b, loc, u, r1, k) implies ex_gain(ctx, b, loc, u, r1, p1, k) > ga by {
                    assert(ex_cand(ctx, a, loc, u, r1, k));
                }
            }
            if ex_first_best(ctx, b, loc, u, r1, p1, kb) {
                assert forall|k: int| 0 <= k < nb.len() && #[trigger] ex_cand(ctx, a, loc, u, r1, k) implies ex_gain(ctx, a, loc, u, r1, p1, k) >= ga by {
                    assert(ex_cand(ctx, b, loc, u, r1, k));
                }
                assert forall|k: int| 0 <= k < kb && #[trigger] ex_cand(ctx, a, loc, u, r1, k) implies ex_gain(ctx, a, loc, u, r1, p1, k) > ga by {
                    assert(ex_cand(ctx, b, loc, u, r1, k));
                }
            }
        } else if 0 <= kb < nb.len() {
            assert(!ex_cand(ctx, b, loc, u, r1, kb));
        }
    }
}

/// The best exchange partner of customer `u`, at place `(r1i, p1)`, among its
/// listed neighbours on other routes whose trade fits both capacities:
/// the saving (zero when none is negative) and the partner (0 for none).
fn best_exchange(ctx: &Ctx, sol: &Sol, loc: &Vec<NodeLoc>, u: usize, r1i: usize, p1: usize) -> (res: (i32, u32))
    requires
        ctx.wf(),
        sn_ok(*ctx, sol.routes@),
        loc_ok(sol.routes@, loc@, ctx.n as int),
        1 <= u < ctx.n,
        r1i < sol.routes@.len(),
        1 <= p1 < sol.routes@[r1i as int].seq@.len() - 1,
        sol.routes@[r1i as int].seq@[p1 as int] as int == u,
    ensures
        res.0 <= 0,
        res.1 != 0 ==> {
            let l = loc@[res.1 as int];
            &&& res.0 < 0
            &&& (res.1 as int) < ctx.n
            &&& l.route != u32::MAX
            &&& l.route != r1i
            &&& (l.route as int) < sol.routes@.len()
            &&& 1 <= l.pos < sol.routes@[l.route as int].seq@.len() - 1
            &&& crate::pv_passes::ex_delta(ctx.d@, sn_nodes(sol.routes@)[r1i as int], sn_nodes(sol.routes@)[l.route as int], p1 as int, l.pos as int) == res.0
        },
        res.1 == 0 ==> ex_no_gain(*ctx, sol.routes@, loc@, u as int, r1i as int, p1 as int),
        res.1 != 0 ==> exists|kb: int| #[trigger] ex_first_best(*ctx, sol.routes@, loc@, u as int, r1i as int, p1 as int, kb)
            && ctx.neighbors@[u as int]@[kb] == res.1 && ex_gain(*ctx, sol.routes@, loc@, u as int, r1i as int, p1 as int, kb) == res.0,
{
    let ghost rs = sn_nodes(sol.routes@);
    let ghost dm = ctx.d@;
    let mut best_delta: i32 = 0;
    let mut best_v: u32 = 0;
    let nb = &ctx.neighbors[u];
    let r1 = &sol.routes[r1i];
    proof {
        assert(route_fit(*ctx, sol.routes@[r1i as int]));
        assert(seq_ok(*ctx, r1.seq@));
        crate::silver_nova::lemma_demand_sum_bounds(*ctx, nodes(r1.seq@).subrange(1, r1.seq@.len() as int));
        assert(rs[r1i as int] == nodes(r1.seq@));
    }
    let ghost mut kb: int = 0;
    let mut k: usize = 0;
    while k < nb.len()
        invariant
            ctx.wf(),
            sn_ok(*ctx, sol.routes@),
            loc_ok(sol.routes@, loc@, ctx.n as int),
            rs == sn_nodes(sol.routes@),
            dm == ctx.d@,
            1 <= u < ctx.n,
            r1i < sol.routes@.len(),
            *r1 == sol.routes@[r1i as int],
            route_fit(*ctx, *r1),
            rs[r1i as int] == nodes(r1.seq@),
            0 <= r1.demand_sum <= crate::model::VALUE_LIMIT * r1.seq@.len(),
            1 <= p1 < r1.seq@.len() - 1,
            r1.seq@[p1 as int] as int == u,
            *nb == ctx.neighbors@[u as int],
            k <= nb@.len(),
            best_delta <= 0,
            best_v != 0 ==> {
                let l = loc@[best_v as int];
                &&& best_delta < 0
                &&& (best_v as int) < ctx.n
                &&& l.route != u32::MAX
                &&& l.route != r1i
                &&& (l.route as int) < sol.routes@.len()
                &&& 1 <= l.pos < sol.routes@[l.route as int].seq@.len() - 1
                &&& crate::pv_passes::ex_delta(dm, rs[r1i as int], rs[l.route as int], p1 as int, l.pos as int) == best_delta
            },
            best_v == 0 ==> best_delta == 0,
            best_v == 0 ==> forall|k2: int| 0 <= k2 < k && #[trigger] ex_cand(*ctx, sol.routes@, loc@, u as int, r1i as int, k2)
                ==> ex_gain(*ctx, sol.routes@, loc@, u as int, r1i as int, p1 as int, k2) >= 0,
            best_v != 0 ==> {
                &&& 0 <= kb < k
                &&& ex_cand(*ctx, sol.routes@, loc@, u as int, r1i as int, kb)
                &&& nb@[kb] == best_v
                &&& ex_gain(*ctx, sol.routes@, loc@, u as int, r1i as int, p1 as int, kb) == best_delta
                &&& forall|k2: int| 0 <= k2 < k && #[trigger] ex_cand(*ctx, sol.routes@, loc@, u as int, r1i as int, k2)
                    ==> ex_gain(*ctx, sol.routes@, loc@, u as int, r1i as int, p1 as int, k2) >= best_delta
                &&& forall|k2: int| 0 <= k2 < kb && #[trigger] ex_cand(*ctx, sol.routes@, loc@, u as int, r1i as int, k2)
                    ==> ex_gain(*ctx, sol.routes@, loc@, u as int, r1i as int, p1 as int, k2) > best_delta
            },
        decreases nb.len() - k,
    {
        let v = nb[k];
        assert((v as int) < ctx.n);
        let vl = loc[v as usize];
        if vl.route != u32::MAX && vl.route as usize != r1i {
            let r2i = vl.route as usize;
            let p2 = vl.pos as usize;
            proof {
                if v == 0 {
                    assert(false);
                }
                assert(points_at(sol.routes@, loc@[v as int], v as int));
            }
            let r2 = &sol.routes[r2i];
            proof {
                assert(route_fit(*ctx, sol.routes@[r2i as int]));
                assert(seq_ok(*ctx, r2.seq@));
                crate::silver_nova::lemma_demand_sum_bounds(*ctx, nodes(r2.seq@).subrange(1, r2.seq@.len() as int));
                assert(rs[r2i as int] == nodes(r2.seq@));
                assert(crate::model::in_limit(ctx.demand@[u as int]));
                assert(crate::model::in_limit(ctx.demand@[v as int]));
            }
            if r1.demand_sum - ctx.demand[u] + ctx.demand[v as usize] <= ctx.cap
                && r2.demand_sum - ctx.demand[v as usize] + ctx.demand[u] <= ctx.cap {
                let a1 = r1.seq[p1 - 1] as usize;
                let b1 = r1.seq[p1 + 1] as usize;
                let a2 = r2.seq[p2 - 1] as usize;
                let b2 = r2.seq[p2 + 1] as usize;
                let vu = v as usize;
                proof {
                    assert((a1 as int) < ctx.n && (b1 as int) < ctx.n && (a2 as int) < ctx.n && (b2 as int) < ctx.n);
                    assert(crate::model::in_limit(ctx.d@[a1 as int]@[u as int]));
                    assert(crate::model::in_limit(ctx.d@[u as int]@[b1 as int]));
                    assert(crate::model::in_limit(ctx.d@[a2 as int]@[vu as int]));
                    assert(crate::model::in_limit(ctx.d@[vu as int]@[b2 as int]));
                    assert(crate::model::in_limit(ctx.d@[a1 as int]@[vu as int]));
                    assert(crate::model::in_limit(ctx.d@[vu as int]@[b1 as int]));
                    assert(crate::model::in_limit(ctx.d@[a2 as int]@[u as int]));
                    assert(crate::model::in_limit(ctx.d@[u as int]@[b2 as int]));
                    assert(rs[r2i as int][p2 as int] == vu);
                    assert(rs[r1i as int][p1 as int] == u);
                }
                let old_c = ctx.d[a1][u] + ctx.d[u][b1] + ctx.d[a2][vu] + ctx.d[vu][b2];
                let new_c = ctx.d[a1][vu] + ctx.d[vu][b1] + ctx.d[a2][u] + ctx.d[u][b2];
                proof {
                    assert(r1.demand_sum == demand_sum(ctx.demand@, nodes(r1.seq@).subrange(1, r1.seq@.len() as int)));
                    assert(r2.demand_sum == demand_sum(ctx.demand@, nodes(r2.seq@).subrange(1, r2.seq@.len() as int)));
                    assert(ex_cand(*ctx, sol.routes@, loc@, u as int, r1i as int, k as int));
                    assert(ex_gain(*ctx, sol.routes@, loc@, u as int, r1i as int, p1 as int, k as int) == new_c - old_c);
                }
                if new_c - old_c < best_delta {
                    best_delta = new_c - old_c;
                    best_v = v;
                    proof {
                        kb = k as int;
                    }
                }
            }
        }
        proof {
            assert(sol.routes@[r1i as int] == *r1);
            assert(r1.demand_sum == demand_sum(ctx.demand@, nodes(r1.seq@).subrange(1, r1.seq@.len() as int)));
            if vl.route != u32::MAX && vl.route as usize != r1i {
                assert(points_at(sol.routes@, loc@[v as int], v as int));
                assert(route_fit(*ctx, sol.routes@[vl.route as int]));
            }
        }
        k += 1;
    }
    proof {
        if best_v != 0 {
            assert(ex_first_best(*ctx, sol.routes@, loc@, u as int, r1i as int, p1 as int, kb));
        }
    }
    (best_delta, best_v)
}

/// With exact tables, a route is on time exactly when its nodes are.
pub(crate) proof fn lemma_on_time(ctx: Ctx, r: Route)
    requires
        r.tables_ok(ctx),
    ensures
        r.on_time(ctx) == seq_on_time(ctx, r.seq@),
{
    if r.on_time(ctx) {
        assert forall|p: int| 1 <= p < r.seq@.len() implies #[trigger] crate::silver_nova::arrival(ctx, r.seq@, p) <= ctx.due@[r.seq@[p] as int] by {
            assert(r.arr@[p] <= ctx.due@[r.seq@[p] as int]);
        }
    }
    if seq_on_time(ctx, r.seq@) {
        assert forall|p: int| 1 <= p < r.seq@.len() implies #[trigger] r.arr@[p] <= ctx.due@[r.seq@[p] as int] by {
            assert(crate::silver_nova::arrival(ctx, r.seq@, p) <= ctx.due@[r.seq@[p] as int]);
        }
    }
}

/// Route fitness after overwriting an inner node with a node of the instance.
proof fn lemma_fit_update(ctx: Ctx, r: Route, nr: Route, p: int, x: u32)
    requires
        ctx.wf(),
        route_fit(ctx, r),
        1 <= p < r.seq@.len() - 1,
        x != 0,
        nr.seq@ == r.seq@.update(p, x),
        nr.tables_ok(ctx),
    ensures
        route_fit(ctx, nr),
{
    assert(nr.seq@[0] == r.seq@[0]);
    assert(nr.seq@[nr.seq@.len() - 1] == r.seq@[r.seq@.len() - 1]);
    assert forall|k: int| 0 < k < nr.seq@.len() - 1 implies #[trigger] nr.seq@[k] != 0 by {
        if k != p {
            assert(nr.seq@[k] == r.seq@[k]);
        }
    }
}

/// Trades customer `u` at place `(r1i, p1)` with customer `v` at place
/// `(r2i, p2)`: builds both traded routes with their tables and keeps the trade
/// when both are on time (refreshing their locator entries); otherwise the
/// solution stays as it was.
fn apply_exchange(ctx: &Ctx, sol: &mut Sol, loc: &mut Vec<NodeLoc>, u: u32, r1i: usize, p1: usize, v: u32, r2i: usize, p2: usize) -> (ok: bool)
    requires
        ctx.wf(),
        sn_ok(*ctx, old(sol).routes@),
        loc_ok(old(sol).routes@, old(loc)@, ctx.n as int),
        r1i < old(sol).routes@.len(),
        r2i < old(sol).routes@.len(),
        r1i != r2i,
        1 <= p1 < old(sol).routes@[r1i as int].seq@.len() - 1,
        1 <= p2 < old(sol).routes@[r2i as int].seq@.len() - 1,
        old(sol).routes@[r1i as int].seq@[p1 as int] == u,
        old(sol).routes@[r2i as int].seq@[p2 as int] == v,
    ensures
        sn_ok(*ctx, final(sol).routes@),
        loc_ok(final(sol).routes@, final(loc)@, ctx.n as int),
        final(sol).routes@.len() == old(sol).routes@.len(),
        final(sol).total_dist == old(sol).total_dist,
        ok == (seq_on_time(*ctx, old(sol).routes@[r1i as int].seq@.update(p1 as int, v))
            && seq_on_time(*ctx, old(sol).routes@[r2i as int].seq@.update(p2 as int, u))),
        ok ==> sn_nodes(final(sol).routes@) == swapped(sn_nodes(old(sol).routes@), r1i as int, p1 as int, r2i as int, p2 as int),
        !ok ==> *final(sol) == *old(sol),
        !ok ==> sn_nodes(final(sol).routes@) == sn_nodes(old(sol).routes@),
        !ok ==> final(loc)@ == old(loc)@,
        !ok ==> forall|r: int| 0 <= r < final(sol).routes@.len() ==> (#[trigger] final(sol).routes@[r]).seq@ == old(sol).routes@[r].seq@,
        sn_feasible(*ctx, old(sol).routes@) && (ok ==> ex_fits(*ctx, old(sol).routes@, u, r1i as int, v, r2i as int))
            ==> sn_feasible(*ctx, final(sol).routes@),
{
    let ghost before = sol.routes@;
    let ghost rs = sn_nodes(before);
    let ghost os1 = before[r1i as int].seq@;
    let ghost os2 = before[r2i as int].seq@;
    let ghost l0 = loc@;
    proof {
        assert(route_fit(*ctx, before[r1i as int]));
        assert(route_fit(*ctx, before[r2i as int]));
        assert(seq_ok(*ctx, os1));
        assert(seq_ok(*ctx, os2));
        assert((u as int) < ctx.n && (v as int) < ctx.n);
        assert(u != 0 && v != 0);
    }
    let mut s1 = copy_range(&sol.routes[r1i].seq, 0, sol.routes[r1i].seq.len());
    let mut s2 = copy_range(&sol.routes[r2i].seq, 0, sol.routes[r2i].seq.len());
    proof {
        assert(s1@ =~= os1);
        assert(s2@ =~= os2);
    }
    s1.set(p1, v);
    s2.set(p2, u);
    proof {
        assert(s1@ == os1.update(p1 as int, v));
        assert(s2@ == os2.update(p2 as int, u));
        assert(seq_ok(*ctx, os1.update(p1 as int, v)));
        assert(seq_ok(*ctx, os2.update(p2 as int, u)));
    }
    let tr1 = route_of(ctx, s1);
    let tr2 = route_of(ctx, s2);
    let ok = tr1.is_feasible(ctx) && tr2.is_feasible(ctx);
    if !ok {
        proof {
            lemma_on_time(*ctx, tr1);
            lemma_on_time(*ctx, tr2);
        }
        return false;
    }
    sol.routes.set(r1i, tr1);
    sol.routes.set(r2i, tr2);
    let ghost mid = sol.routes@;
    proof {
        assert(mid[r1i as int].seq@ == os1.update(p1 as int, v));
        assert(mid[r2i as int].seq@ == os2.update(p2 as int, u));
        lemma_on_time(*ctx, mid[r1i as int]);
        lemma_on_time(*ctx, mid[r2i as int]);
        assert(mid[r1i as int].on_time(*ctx) == seq_on_time(*ctx, os1.update(p1 as int, v)));
        assert(mid[r2i as int].on_time(*ctx) == seq_on_time(*ctx, os2.update(p2 as int, u)));
        lemma_fit_update(*ctx, before[r1i as int], mid[r1i as int], p1 as int, v);
        lemma_fit_update(*ctx, before[r2i as int], mid[r2i as int], p2 as int, u);
        assert forall|r: int| 0 <= r < mid.len() && r != r1i && r != r2i implies #[trigger] mid[r] == before[r] by {}
        assert(sn_nodes(mid) =~= swapped(rs, r1i as int, p1 as int, r2i as int, p2 as int)) by {
            lemma_nodes_edit(os1, p1 as int, v);
            lemma_nodes_edit(os2, p2 as int, u);
            assert(rs[r1i as int] == nodes(os1));
            assert(rs[r2i as int] == nodes(os2));
            assert forall|r: int| 0 <= r < mid.len() implies #[trigger] sn_nodes(mid)[r] == swapped(rs, r1i as int, p1 as int, r2i as int, p2 as int)[r] by {
                if r != r1i && r != r2i {
                    assert(mid[r] == before[r]);
                }
            }
        }
        lemma_swapped(ctx.d@, rs, r1i as int, p1 as int, r2i as int, p2 as int);
    }
    let ghost l0b = loc@;
    refresh_route_loc(loc, sol, r1i);
    let ghost l1 = loc@;
    refresh_route_loc(loc, sol, r2i);
    proof {
        let n1 = os1.update(p1 as int, v);
        let n2 = os2.update(p2 as int, u);
        assert(n1.to_multiset().add(n2.to_multiset()) == os1.to_multiset().add(os2.to_multiset())) by {
            broadcast use vstd::multiset::group_multiset_axioms;
            vstd::seq_lib::to_multiset_update(os1, p1 as int, v);
            vstd::seq_lib::to_multiset_update(os2, p2 as int, u);
            vstd::seq_lib::to_multiset_contains(os1, u);
            vstd::seq_lib::to_multiset_contains(os2, v);
            assert(os1.contains(u));
            assert(os2.contains(v));
            assert(n1.to_multiset().add(n2.to_multiset()) =~= os1.to_multiset().add(os2.to_multiset()));
        }
        lemma_contains_kept(os1, os2, n1, n2);
        lemma_loc_after_refresh(before, mid, l0, l1, loc@, r1i as int, r2i as int, ctx.n as int);
        assert forall|r: int| 0 <= r < mid.len() implies #[trigger] route_fit(*ctx, mid[r]) by {
            if r != r1i && r != r2i {
                assert(mid[r] == before[r]);
            }
        }
        if sn_feasible(*ctx, before) && ex_fits(*ctx, before, u, r1i as int, v, r2i as int) {
            lemma_demand_update(*ctx, os1, p1 as int, v);
            lemma_demand_update(*ctx, os2, p2 as int, u);
            assert forall|r: int| 0 <= r < mid.len() implies #[trigger] route_feasible(*ctx, mid[r]) by {
                if r != r1i && r != r2i {
                    assert(mid[r] == before[r]);
                }
            }
        }
    }
    true
}

/// Trading customer `u` of route `r1` with customer `v` of route `r2` keeps
/// both routes within the capacity.
pub open spec fn ex_fits(ctx: Ctx, rs: Seq<Route>, u: u32, r1: int, v: u32, r2: int) -> bool {
    let s1 = rs[r1].seq@;
    let s2 = rs[r2].seq@;
    &&& demand_sum(ctx.demand@, nodes(s1).subrange(1, s1.len() as int)) - ctx.demand@[u as int] + ctx.demand@[v as int] <= ctx.cap
    &&& demand_sum(ctx.demand@, nodes(s2).subrange(1, s2.len() as int)) - ctx.demand@[v as int] + ctx.demand@[u as int] <= ctx.cap
}

/// One exchange sweep over the customers in number order: a customer on a
/// route trades places with its best listed neighbour on another route
/// (`best_exchange`) when that shortens the solution and both routes stay on
/// time (`apply_exchange`).
pub fn exchange_pass(ctx: &Ctx, sol: &mut Sol, loc: &mut Vec<NodeLoc>) -> (improved: bool)
    requires
        ctx.wf(),
        sn_ok(*ctx, old(sol).routes@),
        loc_ok(old(sol).routes@, old(loc)@, ctx.n as int),
    ensures
        sn_ok(*ctx, final(sol).routes@),
        loc_ok(final(sol).routes@, final(loc)@, ctx.n as int),
        final(sol).routes@.len() == old(sol).routes@.len(),
        final(sol).total_dist == old(sol).total_dist,
        all_custs(sn_nodes(final(sol).routes@)) == all_custs(sn_nodes(old(sol).routes@)),
        total_len(ctx.d@, sn_nodes(final(sol).routes@)) <= total_len(ctx.d@, sn_nodes(old(sol).routes@)),
        improved ==> total_len(ctx.d@, sn_nodes(final(sol).routes@)) < total_len(ctx.d@, sn_nodes(old(sol).routes@)),
        !improved ==> sn_nodes(final(sol).routes@) == sn_nodes(old(sol).routes@),
        !improved ==> *final(sol) == *old(sol) && final(loc)@ == old(loc)@,
        !improved ==> forall|u: int| 1 <= u < ctx.n && #[trigger] final(loc)@[u].route != u32::MAX ==> {
            let r1 = final(loc)@[u].route as int;
            let p1 = final(loc)@[u].pos as int;
            ex_no_gain(*ctx, final(sol).routes@, final(loc)@, u, r1, p1)
                || exists|kb: int| #[trigger] ex_first_best(*ctx, final(sol).routes@, final(loc)@, u, r1, p1, kb)
                    && !ex_on_time(*ctx, final(sol).routes@, final(loc)@, u, r1, p1, kb)
        },
        sn_feasible(*ctx, old(sol).routes@) ==> sn_feasible(*ctx, final(sol).routes@),
{
    let ghost rs0 = sn_nodes(sol.routes@);
    let ghost dm = ctx.d@;
    let mut improved = false;
    let mut u: usize = 1;
    while u < ctx.n
        invariant
            ctx.wf(),
            dm == ctx.d@,
            sn_ok(*ctx, sol.routes@),
            loc_ok(sol.routes@, loc@, ctx.n as int),
            sol.routes@.len() == old(sol).routes@.len(),
            sol.total_dist == old(sol).total_dist,
            1 <= u,
            rs0 == sn_nodes(old(sol).routes@),
            all_custs(sn_nodes(sol.routes@)) == all_custs(rs0),
            total_len(dm, sn_nodes(sol.routes@)) <= total_len(dm, rs0),
            improved ==> total_len(dm, sn_nodes(sol.routes@)) < total_len(dm, rs0),
            !improved ==> sn_nodes(sol.routes@) == rs0,
            !improved ==> loc@ == old(loc)@,
            !improved ==> *sol == *old(sol),
            !improved ==> forall|r: int| 0 <= r < sol.routes@.len() ==> (#[trigger] sol.routes@[r]).seq@ == old(sol).routes@[r].seq@,
            loc_ok(old(sol).routes@, old(loc)@, ctx.n as int),
            sn_feasible(*ctx, old(sol).routes@) ==> sn_feasible(*ctx, sol.routes@),
            !improved ==> forall|w: int| 1 <= w < u && w < ctx.n && #[trigger] loc@[w].route != u32::MAX ==> {
                let r1 = loc@[w].route as int;
                let p1 = loc@[w].pos as int;
                ex_no_gain(*ctx, old(sol).routes@, loc@, w, r1, p1)
                    || exists|kb: int| #[trigger] ex_first_best(*ctx, old(sol).routes@, loc@, w, r1, p1, kb)
                        && !ex_on_time(*ctx, old(sol).routes@, loc@, w, r1, p1, kb)
            },
        decreases ctx.n - u,
    {
        let ul = loc[u];
        if ul.route != u32::MAX {
            let r1i = ul.route as usize;
            let p1 = ul.pos as usize;
            proof {
                assert(points_at(sol.routes@, loc@[u as int], u as int));
                assert(route_fit(*ctx, sol.routes@[r1i as int]));
            }
            let (best_delta, best_v) = best_exchange(ctx, sol, loc, u, r1i, p1);
            if best_v != 0 && best_delta < 0 {
                let vl = loc[best_v as usize];
                let r2i = vl.route as usize;
                let p2 = vl.pos as usize;
                let ghost rs = sn_nodes(sol.routes@);
                proof {
                    assert(points_at(sol.routes@, loc@[best_v as int], best_v as int));
                    assert(rs[r1i as int] == nodes(sol.routes@[r1i as int].seq@));
                    assert(rs[r2i as int] == nodes(sol.routes@[r2i as int].seq@));
                    lemma_swapped(dm, rs, r1i as int, p1 as int, r2i as int, p2 as int);
                }
                let ghost before = sol.routes@;
                proof {
                    let kb = choose|kb: int| #[trigger] ex_first_best(*ctx, before, loc@, u as int, r1i as int, p1 as int, kb)
                        && ctx.neighbors@[u as int]@[kb] == best_v && ex_gain(*ctx, before, loc@, u as int, r1i as int, p1 as int, kb) == best_delta;
                    assert(ex_cand(*ctx, before, loc@, u as int, r1i as int, kb));
                    assert(ex_fits(*ctx, before, u as u32, r1i as int, best_v, r2i as int));
                }
                let ok = apply_exchange(ctx, sol, loc, u as u32, r1i, p1, best_v, r2i, p2);
                if ok {
                    improved = true;
                } else {
                    proof {
                        if !improved {
                            let kb = choose|kb: int| #[trigger] ex_first_best(*ctx, before, loc@, u as int, r1i as int, p1 as int, kb)
                                && ctx.neighbors@[u as int]@[kb] == best_v && ex_gain(*ctx, before, loc@, u as int, r1i as int, p1 as int, kb) == best_delta;
                            assert(!ex_on_time(*ctx, before, loc@, u as int, r1i as int, p1 as int, kb));
                            lemma_ex_seqs(*ctx, old(sol).routes@, before, loc@, u as int, r1i as int, p1 as int);
                            assert(ex_first_best(*ctx, old(sol).routes@, loc@, u as int, r1i as int, p1 as int, kb));
                            assert(!ex_on_time(*ctx, old(sol).routes@, loc@, u as int, r1i as int, p1 as int, kb));
                        }
                    }
                }
            } else {
                proof {
                    if !improved {
                        lemma_ex_seqs(*ctx, old(sol).routes@, sol.routes@, loc@, u as int, r1i as int, p1 as int);
                    }
                }
            }
        }
        proof {
            if !improved {
                assert forall|r: int| 0 <= r < sol.routes@.len() implies #[trigger] sol.routes@[r].seq@ == old(sol).routes@[r].seq@ by {}
            }
        }
        u += 1;
    }
    proof {
        if !improved {
            let a = old(sol).routes@;
            let b = sol.routes@;
            assert forall|w: int| 1 <= w < ctx.n && #[trigger] loc@[w].route != u32::MAX implies {
                let r1 = loc@[w].route as int;
                let p1 = loc@[w].pos as int;
                ex_no_gain(*ctx, b, loc@, w, r1, p1)
                    || exists|kb: int| #[trigger] ex_first_best(*ctx, b, loc@, w, r1, p1, kb)
                        && !ex_on_time(*ctx, b, loc@, w, r1, p1, kb)
            } by {
                let r1 = loc@[w].route as int;
                let p1 = loc@[w].pos as int;
                assert(points_at(a, loc@[w], w));
                lemma_ex_seqs(*ctx, a, b, loc@, w, r1, p1);
                if !ex_no_gain(*ctx, a, loc@, w, r1, p1) {
                    let kb = choose|kb: int| #[trigger] ex_first_best(*ctx, a, loc@, w, r1, p1, kb)
                        && !ex_on_time(*ctx, a, loc@, w, r1, p1, kb);
                    assert(ex_cand(*ctx, a, loc@, w, r1, kb));
                    assert(ex_first_best(*ctx, b, loc@, w, r1, p1, kb));
                }
            }
        }
    }
    improved
}

/// A rebuilt locator is a valid one.
pub(crate) proof fn lemma_rebuilt_ok(ctx: Ctx, rs: Seq<Route>, loc: Seq<NodeLoc>)
    requires
        ctx.n >= 1,
        loc.len() == ctx.n,
        forall|u: int| 0 <= u < loc.len() ==> #[trigger] locates(rs, u as usize, loc[u]),
    ensures
        loc_ok(rs, loc, ctx.n as int),
{
    let z: int = 0;
    assert(locates(rs, z as usize, loc[z]));
    assert forall|u: int| 1 <= u < ctx.n implies #[trigger] points_at(rs, loc[u], u) by {
        assert(locates(rs, u as usize, loc[u]));
        if u != 0 && seen(rs, rs.len() as int, 0, u as usize) {
            assert(last_seen(rs, rs.len() as int, 0, u as usize, loc[u].route as int, loc[u].pos as int));
        }
    }
}

/// The routes fit a locator of `ctx.n` entries.
pub(crate) proof fn lemma_sn_locatable(ctx: Ctx, rs: Seq<Route>)
    requires
        sn_ok(ctx, rs),
    ensures
        locatable(rs, ctx.n as int),
{
    assert forall|r: int| 0 <= r < rs.len() implies (#[trigger] rs[r]).seq@.len() < u32::MAX by {
        assert(route_fit(ctx, rs[r]));
    }
    assert forall|r: int, p: int| 0 <= r < rs.len() && 0 <= p < rs[r].seq@.len() implies (#[trigger] rs[r].seq@[p] as int) < ctx.n by {
        assert(route_fit(ctx, rs[r]));
        assert(seq_ok(ctx, rs[r].seq@));
    }
}

/// A route's nodes fit the capacity and are on time.
pub open spec fn route_ok_tw(ctx: Ctx, s: Seq<u32>) -> bool {
    &&& demand_sum(ctx.demand@, nodes(s).subrange(1, s.len() as int)) <= ctx.cap
    &&& seq_on_time(ctx, s)
}

/// The first `i` nodes of `a` followed by the nodes of `b` from `j` on.
fn join_parts(a: &Vec<u32>, i: usize, b: &Vec<u32>, j: usize) -> (res: Vec<u32>)
    requires
        i <= a@.len(),
        j <= b@.len(),
    ensures
        res@ == a@.subrange(0, i as int) + b@.subrange(j as int, b@.len() as int),
{
    let mut out: Vec<u32> = Vec::new();
    let mut k: usize = 0;
    while k < i
        invariant
            k <= i <= a@.len(),
            out@ == a@.subrange(0, k as int),
        decreases i - k,
    {
        out.push(a[k]);
        k += 1;
        assert(out@ =~= a@.subrange(0, k as int));
    }
    let mut m: usize = j;
    while m < b.len()
        invariant
            j <= m <= b@.len(),
            out@ == a@.subrange(0, i as int) + b@.subrange(j as int, m as int),
        decreases b.len() - m,
    {
        out.push(b[m]);
        m += 1;
        assert(out@ =~= a@.subrange(0, i as int) + b@.subrange(j as int, m as int));
    }
    out
}

/// The route with nodes `s`, tables computed.
pub(crate) fn route_of(ctx: &Ctx, s: Vec<u32>) -> (r: Route)
    requires
        ctx.wf(),
        seq_ok(*ctx, s@),
    ensures
        r.seq@ == s@,
        r.tables_ok(*ctx),
{
    let mut r = Route { seq: s, arr: Vec::new(), lat: Vec::new(), demand_sum: 0, dist: 0 };
    r.recompute(ctx);
    r
}

/// Nodes as numbers commute with cutting and joining.
proof fn lemma_nodes_join(a: Seq<u32>, i: int, b: Seq<u32>, j: int)
    requires
        0 <= i <= a.len(),
        0 <= j <= b.len(),
    ensures
        nodes(a.subrange(0, i) + b.subrange(j, b.len() as int)) == nodes(a).subrange(0, i) + nodes(b).subrange(j, b.len() as int),
{
    assert(nodes(a.subrange(0, i) + b.subrange(j, b.len() as int)) =~= nodes(a).subrange(0, i) + nodes(b).subrange(j, b.len() as int));
}

/// The routes after routes `r1` and `r2` swap their tails from positions `i`
/// and `j` on.
pub open spec fn tails_swapped(rs: Seq<Seq<usize>>, r1: int, i: int, r2: int, j: int) -> Seq<Seq<usize>> {
    rs.update(r1, tail_swap(rs[r1], rs[r2], i - 1, j - 1)).update(r2, tail_swap(rs[r2], rs[r1], j - 1, i - 1))
}

/// Swapping tails changes the total length by the change of the two cut
/// edges, and keeps the customers and the number of nodes.
pub proof fn lemma_tails_swapped(dm: Seq<Vec<i32>>, rs: Seq<Seq<usize>>, r1: int, i: int, r2: int, j: int)
    requires
        0 <= r1 < rs.len(),
        0 <= r2 < rs.len(),
        r1 != r2,
        1 <= i < rs[r1].len(),
        1 <= j < rs[r2].len(),
    ensures
        total_len(dm, tails_swapped(rs, r1, i, r2, j)) == total_len(dm, rs) - dd(dm, rs[r1][i - 1], rs[r1][i])
            - dd(dm, rs[r2][j - 1], rs[r2][j]) + dd(dm, rs[r1][i - 1], rs[r2][j]) + dd(dm, rs[r2][j - 1], rs[r1][i]),
        all_custs(tails_swapped(rs, r1, i, r2, j)) == all_custs(rs),
        total_nodes(tails_swapped(rs, r1, i, r2, j)) == total_nodes(rs),
        tails_swapped(rs, r1, i, r2, j).len() == rs.len(),
{
    let a = rs[r1];
    let b = rs[r2];
    let na = tail_swap(a, b, i - 1, j - 1);
    let nb = tail_swap(b, a, j - 1, i - 1);
    let u1 = rs.update(r1, na);
    lemma_tail_swap_len(dm, a, b, i - 1, j - 1);
    lemma_total_len_update(dm, rs, r1, na);
    assert(u1[r2] == b);
    lemma_total_len_update(dm, u1, r2, nb);
    lemma_total_nodes(rs, r1, na);
    lemma_total_nodes(u1, r2, nb);
    crate::algorithm::lemma_tails_custs(a, b, i - 1, j - 1);
    crate::algorithm::lemma_replace_two(rs, r1, r2, na, nb);
}

/// Builds the two routes that swapping the tails of routes `r1i` and `r2i` at
/// positions `i` and `j` gives, and puts them in place (rebuilding the
/// locator) when both fit the capacity and are on time.
fn apply_tail_swap(ctx: &Ctx, sol: &mut Sol, loc: &mut Vec<NodeLoc>, r1i: usize, i: usize, r2i: usize, j: usize) -> (ok: bool)
    requires
        ctx.wf(),
        sn_ok(*ctx, old(sol).routes@),
        loc_ok(old(sol).routes@, old(loc)@, ctx.n as int),
        r1i < old(sol).routes@.len(),
        r2i < old(sol).routes@.len(),
        r1i != r2i,
        1 <= i < old(sol).routes@[r1i as int].seq@.len(),
        1 <= j < old(sol).routes@[r2i as int].seq@.len(),
    ensures
        ok == ({
            let a = old(sol).routes@[r1i as int].seq@;
            let b = old(sol).routes@[r2i as int].seq@;
            route_ok_tw(*ctx, a.subrange(0, i as int) + b.subrange(j as int, b.len() as int))
                && route_ok_tw(*ctx, b.subrange(0, j as int) + a.subrange(i as int, a.len() as int))
        }),
        ok ==> sn_ok(*ctx, final(sol).routes@),
        ok ==> loc_ok(final(sol).routes@, final(loc)@, ctx.n as int),
        ok ==> sn_nodes(final(sol).routes@) == tails_swapped(sn_nodes(old(sol).routes@), r1i as int, i as int, r2i as int, j as int),
        ok ==> final(sol).total_dist == old(sol).total_dist,
        !ok ==> *final(sol) == *old(sol) && final(loc)@ == old(loc)@,
        sn_feasible(*ctx, old(sol).routes@) ==> sn_feasible(*ctx, final(sol).routes@),
{
    let ghost before = sol.routes@;
    let ghost rs = sn_nodes(before);
    let ghost a = before[r1i as int].seq@;
    let ghost b = before[r2i as int].seq@;
    proof {
        assert(route_fit(*ctx, before[r1i as int]));
        assert(route_fit(*ctx, before[r2i as int]));
        assert(seq_ok(*ctx, a));
        assert(seq_ok(*ctx, b));
        assert(rs[r1i as int] == nodes(a));
        assert(rs[r2i as int] == nodes(b));
        lemma_total_nodes(rs, 0, rs[0]);
        if r1i < r2i {
            assert(rs[r1i as int].len() + rs[r2i as int].len() <= total_nodes(rs));
        } else {
            assert(rs[r2i as int].len() + rs[r1i as int].len() <= total_nodes(rs));
        }
    }
    let nr1 = join_parts(&sol.routes[r1i].seq, i, &sol.routes[r2i].seq, j);
    let nr2 = join_parts(&sol.routes[r2i].seq, j, &sol.routes[r1i].seq, i);
    proof {
        assert forall|k: int| 0 <= k < nr1@.len() implies (#[trigger] nr1@[k] as int) < ctx.n by {
            if k < i {
                assert(nr1@[k] == a[k]);
            } else {
                assert(nr1@[k] == b[k - i + j]);
            }
        }
        assert forall|k: int| 0 <= k < nr2@.len() implies (#[trigger] nr2@[k] as int) < ctx.n by {
            if k < j {
                assert(nr2@[k] == b[k]);
            } else {
                assert(nr2@[k] == a[k - j + i]);
            }
        }
    }
    let tr1 = route_of(ctx, nr1);
    let tr2 = route_of(ctx, nr2);
    proof {
        lemma_on_time(*ctx, tr1);
        lemma_on_time(*ctx, tr2);
    }
    if tr1.demand_sum <= ctx.cap && tr2.demand_sum <= ctx.cap && tr1.is_feasible(ctx) && tr2.is_feasible(ctx) {
        let ghost s1 = tr1.seq@;
        let ghost s2 = tr2.seq@;
        sol.routes.set(r1i, tr1);
        sol.routes.set(r2i, tr2);
        proof {
            lemma_nodes_join(a, i as int, b, j as int);
            lemma_nodes_join(b, j as int, a, i as int);
            lemma_sn_nodes_update(before, r1i as int, sol.routes@[r1i as int]);
            lemma_sn_nodes_update(before.update(r1i as int, sol.routes@[r1i as int]), r2i as int, sol.routes@[r2i as int]);
            assert(sol.routes@ == before.update(r1i as int, sol.routes@[r1i as int]).update(r2i as int, sol.routes@[r2i as int]));
            assert(sn_nodes(sol.routes@) == tails_swapped(rs, r1i as int, i as int, r2i as int, j as int));
            lemma_tails_swapped(ctx.d@, rs, r1i as int, i as int, r2i as int, j as int);
            assert(s1[0] == a[0]);
            assert(s1[s1.len() - 1] == b[b.len() - 1]);
            assert(s2[0] == b[0]);
            assert(s2[s2.len() - 1] == a[a.len() - 1]);
            assert forall|r: int| 0 <= r < sol.routes@.len() implies #[trigger] route_fit(*ctx, sol.routes@[r]) by {
                if r != r1i && r != r2i {
                    assert(sol.routes@[r] == before[r]);
                }
            }
            lemma_sn_locatable(*ctx, sol.routes@);
            if sn_feasible(*ctx, before) {
                assert forall|r: int| 0 <= r < sol.routes@.len() implies #[trigger] route_feasible(*ctx, sol.routes@[r]) by {
                    if r != r1i && r != r2i {
                        assert(sol.routes@[r] == before[r]);
                    }
                }
            }
        }
        rebuild_locator(ctx, sol, loc);
        proof {
            lemma_rebuilt_ok(*ctx, sol.routes@, loc@);
        }
        true
    } else {
        false
    }
}

/// The candidate of customer `u`, its `k`-th listed neighbour on another route,
/// and the cuts `ti` and `tj` places after them: swapping the two routes' tails
/// there shortens the two cut edges, and both new routes fit the capacity and
/// are on time.
pub open spec fn tail_swap_improves(ctx: Ctx, rs: Seq<Route>, loc: Seq<NodeLoc>, u: int, k: int, ti: int, tj: int) -> bool {
    let ul = loc[u];
    let v = ctx.neighbors@[u]@[k] as int;
    let vl = loc[v];
    let r1 = ul.route as int;
    let r2 = vl.route as int;
    let i = ul.pos as int + ti;
    let j = vl.pos as int + tj;
    let a = rs[r1].seq@;
    let b = rs[r2].seq@;
    &&& ul.route != u32::MAX
    &&& vl.route != u32::MAX
    &&& r1 != r2
    &&& 1 <= i < a.len()
    &&& 1 <= j < b.len()
    &&& dd(ctx.d@, a[i - 1] as usize, b[j] as usize) + dd(ctx.d@, b[j - 1] as usize, a[i] as usize)
        < dd(ctx.d@, a[i - 1] as usize, a[i] as usize) + dd(ctx.d@, b[j - 1] as usize, b[j] as usize)
    &&& route_ok_tw(ctx, a.subrange(0, i) + b.subrange(j, b.len() as int))
    &&& route_ok_tw(ctx, b.subrange(0, j) + a.subrange(i, a.len() as int))
}

/// The first tail swap found, in customer order, then neighbour order, then
/// cut before or after each of the two: customer `u`'s route and a listed
/// neighbour's other route swap tails at those cuts when the two new cut edges
/// are shorter than the two old ones and both new routes fit the capacity and
/// are on time (`apply_tail_swap`). Returns whether one was made.
pub fn two_opt_star_pass(ctx: &Ctx, sol: &mut Sol, loc: &mut Vec<NodeLoc>) -> (found: bool)
    requires
        ctx.wf(),
        sn_ok(*ctx, old(sol).routes@),
        loc_ok(old(sol).routes@, old(loc)@, ctx.n as int),
    ensures
        sn_ok(*ctx, final(sol).routes@),
        loc_ok(final(sol).routes@, final(loc)@, ctx.n as int),
        final(sol).routes@.len() == old(sol).routes@.len(),
        final(sol).total_dist == old(sol).total_dist,
        all_custs(sn_nodes(final(sol).routes@)) == all_custs(sn_nodes(old(sol).routes@)),
        found ==> total_len(ctx.d@, sn_nodes(final(sol).routes@)) < total_len(ctx.d@, sn_nodes(old(sol).routes@)),
        !found ==> *final(sol) == *old(sol) && final(loc)@ == old(loc)@,
        !found ==> forall|u: int, k: int, ti: int, tj: int|
            1 <= u < ctx.n && 0 <= k < ctx.neighbors@[u]@.len() && 0 <= ti < 2 && 0 <= tj < 2
                ==> !#[trigger] tail_swap_improves(*ctx, final(sol).routes@, final(loc)@, u, k, ti, tj),
        sn_feasible(*ctx, old(sol).routes@) ==> sn_feasible(*ctx, final(sol).routes@),
{
    let ghost dm = ctx.d@;
    let ghost rs = sn_nodes(sol.routes@);
    let mut u: usize = 1;
    while u < ctx.n
        invariant
            ctx.wf(),
            dm == ctx.d@,
            sn_ok(*ctx, sol.routes@),
            loc_ok(sol.routes@, loc@, ctx.n as int),
            *sol == *old(sol),
            loc@ == old(loc)@,
            rs == sn_nodes(sol.routes@),
            1 <= u,
            forall|w: int, k2: int, a2: int, b2: int|
                1 <= w < u && w < ctx.n && 0 <= k2 < ctx.neighbors@[w]@.len() && 0 <= a2 < 2 && 0 <= b2 < 2
                    ==> !#[trigger] tail_swap_improves(*ctx, sol.routes@, loc@, w, k2, a2, b2),
        decreases ctx.n - u,
    {
        let ul = loc[u];
        if ul.route != u32::MAX {
            let r1i = ul.route as usize;
            let up = ul.pos as usize;
            proof {
                assert(points_at(sol.routes@, loc@[u as int], u as int));
                assert(route_fit(*ctx, sol.routes@[r1i as int]));
                assert(seq_ok(*ctx, sol.routes@[r1i as int].seq@));
            }
            let nb = &ctx.neighbors[u];
            let mut k: usize = 0;
            while k < nb.len()
                invariant
                    ctx.wf(),
                    dm == ctx.d@,
                    sn_ok(*ctx, sol.routes@),
                    loc_ok(sol.routes@, loc@, ctx.n as int),
                    *sol == *old(sol),
                    loc@ == old(loc)@,
                    rs == sn_nodes(sol.routes@),
                    1 <= u < ctx.n,
                    r1i < sol.routes@.len(),
                    up < sol.routes@[r1i as int].seq@.len() <= LEN_LIMIT,
                    *nb == ctx.neighbors@[u as int],
                    k <= nb@.len(),
                    ul == loc@[u as int],
                    ul.route != u32::MAX,
                    r1i == ul.route as usize,
                    up == ul.pos as usize,
                    forall|w: int, k2: int, a2: int, b2: int|
                        1 <= w < ctx.n && 0 <= k2 < ctx.neighbors@[w]@.len() && 0 <= a2 < 2 && 0 <= b2 < 2
                            && (w < u || (w == u && k2 < k))
                            ==> !#[trigger] tail_swap_improves(*ctx, sol.routes@, loc@, w, k2, a2, b2),
                decreases nb.len() - k,
            {
                let v = nb[k] as usize;
                assert((v as int) < ctx.n);
                let vl = loc[v];
                if vl.route != u32::MAX && vl.route as usize != r1i {
                    let r2i = vl.route as usize;
                    let vp = vl.pos as usize;
                    proof {
                        if v == 0 {
                            assert(false);
                        }
                        assert(points_at(sol.routes@, loc@[v as int], v as int));
                        assert(route_fit(*ctx, sol.routes@[r2i as int]));
                        assert(seq_ok(*ctx, sol.routes@[r2i as int].seq@));
                    }
                    let mut ti: usize = 0;
                    while ti < 2
                        invariant
                            ctx.wf(),
                            dm == ctx.d@,
                            sn_ok(*ctx, sol.routes@),
                            loc_ok(sol.routes@, loc@, ctx.n as int),
                            *sol == *old(sol),
                            loc@ == old(loc)@,
                            rs == sn_nodes(sol.routes@),
                            r1i < sol.routes@.len(),
                            r2i < sol.routes@.len(),
                            r1i != r2i,
                            up < sol.routes@[r1i as int].seq@.len() <= LEN_LIMIT,
                            vp < sol.routes@[r2i as int].seq@.len() <= LEN_LIMIT,
                            ti <= 2,
                            1 <= u < ctx.n,
                            *nb == ctx.neighbors@[u as int],
                            k < nb@.len(),
                            ul == loc@[u as int],
                            ul.route != u32::MAX,
                            r1i == ul.route as usize,
                            up == ul.pos as usize,
                            v == nb@[k as int] as usize,
                            vl == loc@[v as int],
                            vl.route != u32::MAX,
                            r2i == vl.route as usize,
                            vp == vl.pos as usize,
                            forall|w: int, k2: int, a2: int, b2: int|
                                1 <= w < ctx.n && 0 <= k2 < ctx.neighbors@[w]@.len() && 0 <= a2 < 2 && 0 <= b2 < 2
                                    && (w < u || (w == u && (k2 < k || (k2 == k && a2 < ti))))
                                    ==> !#[trigger] tail_swap_improves(*ctx, sol.routes@, loc@, w, k2, a2, b2),
                        decreases 2 - ti,
                    {
                        let i = up + ti;
                        if i >= 1 && i < sol.routes[r1i].len() {
                            let mut tj: usize = 0;
                            while tj < 2
                                invariant
                                    ctx.wf(),
                                    dm == ctx.d@,
                                    sn_ok(*ctx, sol.routes@),
                                    loc_ok(sol.routes@, loc@, ctx.n as int),
                                    *sol == *old(sol),
                                    loc@ == old(loc)@,
                                    rs == sn_nodes(sol.routes@),
                                    r1i < sol.routes@.len(),
                                    r2i < sol.routes@.len(),
                                    r1i != r2i,
                                    1 <= i < sol.routes@[r1i as int].seq@.len(),
                                    vp < sol.routes@[r2i as int].seq@.len() <= LEN_LIMIT,
                                    tj <= 2,
                                    ti < 2,
                                    i == up + ti,
                                    1 <= u < ctx.n,
                                    *nb == ctx.neighbors@[u as int],
                                    k < nb@.len(),
                                    ul == loc@[u as int],
                                    ul.route != u32::MAX,
                                    r1i == ul.route as usize,
                                    up == ul.pos as usize,
                                    v == nb@[k as int] as usize,
                                    vl == loc@[v as int],
                                    vl.route != u32::MAX,
                                    r2i == vl.route as usize,
                                    vp == vl.pos as usize,
                                    forall|w: int, k2: int, a2: int, b2: int|
                                        1 <= w < ctx.n && 0 <= k2 < ctx.neighbors@[w]@.len() && 0 <= a2 < 2 && 0 <= b2 < 2
                                            && (w < u || (w == u && (k2 < k || (k2 == k && (a2 < ti || (a2 == ti && b2 < tj))))))
                                            ==> !#[trigger] tail_swap_improves(*ctx, sol.routes@, loc@, w, k2, a2, b2),
                                decreases 2 - tj,
                            {
                                let j = vp + tj;
                                if j >= 1 && j < sol.routes[r2i].len() {
                                    let r1 = &sol.routes[r1i];
                                    let r2 = &sol.routes[r2i];
                                    let a1 = r1.seq[i - 1] as usize;
                                    let b1 = r1.seq[i] as usize;
                                    let a2 = r2.seq[j - 1] as usize;
                                    let b2 = r2.seq[j] as usize;
                                    proof {
                                        assert(route_fit(*ctx, sol.routes@[r1i as int]));
                                        assert(route_fit(*ctx, sol.routes@[r2i as int]));
                                        assert(seq_ok(*ctx, r1.seq@));
                                        assert(seq_ok(*ctx, r2.seq@));
                                        assert((a1 as int) < ctx.n && (b1 as int) < ctx.n && (a2 as int) < ctx.n && (b2 as int) < ctx.n);
                                        assert(crate::model::in_limit(ctx.d@[a1 as int]@[b2 as int]));
                                        assert(crate::model::in_limit(ctx.d@[a2 as int]@[b1 as int]));
                                        assert(crate::model::in_limit(ctx.d@[a1 as int]@[b1 as int]));
                                        assert(crate::model::in_limit(ctx.d@[a2 as int]@[b2 as int]));
                                    }
                                    if ctx.d[a1][b2] + ctx.d[a2][b1] < ctx.d[a1][b1] + ctx.d[a2][b2] {
                                        proof {
                                            assert(rs[r1i as int] == nodes(r1.seq@));
                                            assert(rs[r2i as int] == nodes(r2.seq@));
                                            lemma_tails_swapped(dm, rs, r1i as int, i as int, r2i as int, j as int);
                                        }
                                        if apply_tail_swap(ctx, sol, loc, r1i, i, r2i, j) {
                                            return true;
                                        }
                                    }
                                }
                                proof {
                                    assert(!tail_swap_improves(*ctx, sol.routes@, loc@, u as int, k as int, ti as int, tj as int));
                                }
                                tj += 1;
                            }
                        } else {
                            proof {
                                assert forall|b2: int| 0 <= b2 < 2 implies !#[trigger] tail_swap_improves(*ctx, sol.routes@, loc@, u as int, k as int, ti as int, b2) by {}
                            }
                        }
                        ti += 1;
                    }
                } else {
                    proof {
                        assert forall|a2: int, b2: int| 0 <= a2 < 2 && 0 <= b2 < 2 implies !#[trigger] tail_swap_improves(*ctx, sol.routes@, loc@, u as int, k as int, a2, b2) by {}
                    }
                }
                k += 1;
            }
        } else {
            proof {
                assert forall|k2: int, a2: int, b2: int| 0 <= k2 < ctx.neighbors@[u as int]@.len() && 0 <= a2 < 2 && 0 <= b2 < 2
                    implies !#[trigger] tail_swap_improves(*ctx, sol.routes@, loc@, u as int, k2, a2, b2) by {}
            }
        }
        u += 1;
    }
    false
}

/// The nodes of `s` with positions `lo..=hi` reversed.
pub open spec fn rev_nodes(s: Seq<u32>, lo: int, hi: int) -> Seq<u32> {
    s.subrange(0, lo) + s.subrange(lo, hi + 1).reverse() + s.subrange(hi + 1, s.len() as int)
}

/// Reversing positions `i + 1..=j` of `s` leaves every reversed node on time
/// and reaches position `j + 1` by its latest arrival time.
pub open spec fn two_opt_tw(ctx: Ctx, s: Seq<u32>, i: int, j: int) -> bool {
    let t = rev_nodes(s, i + 1, j);
    &&& forall|p: int| i < p <= j ==> #[trigger] arrival(ctx, t, p) <= ctx.due@[t[p] as int]
    &&& arrival(ctx, t, j + 1) <= latest_at(ctx, s, j + 1)
}

/// Where the nodes of a reversed range come from.
pub(crate) proof fn lemma_rev_nodes(s: Seq<u32>, lo: int, hi: int)
    requires
        0 <= lo <= hi < s.len(),
    ensures
        rev_nodes(s, lo, hi).len() == s.len(),
        forall|p: int| 0 <= p < lo ==> #[trigger] rev_nodes(s, lo, hi)[p] == s[p],
        forall|p: int| lo <= p <= hi ==> #[trigger] rev_nodes(s, lo, hi)[p] == s[lo + hi - p],
        forall|p: int| hi < p < s.len() ==> #[trigger] rev_nodes(s, lo, hi)[p] == s[p],
        nodes(rev_nodes(s, lo, hi)) == rev_seg(nodes(s), lo, hi),
{
    let t = rev_nodes(s, lo, hi);
    assert forall|p: int| lo <= p <= hi implies #[trigger] t[p] == s[lo + hi - p] by {
        assert(t[p] == s.subrange(lo, hi + 1).reverse()[p - lo]);
    }
    assert(nodes(t) =~= rev_seg(nodes(s), lo, hi)) by {
        assert forall|p: int| 0 <= p < t.len() implies #[trigger] nodes(t)[p] == rev_seg(nodes(s), lo, hi)[p] by {
            if lo <= p <= hi {
                assert(rev_seg(nodes(s), lo, hi)[p] == nodes(s).subrange(lo, hi + 1).reverse()[p - lo]);
            }
        }
    }
}

/// Arrival times depend only on the nodes up to their position.
proof fn lemma_arrival_prefix(ctx: Ctx, s: Seq<u32>, t: Seq<u32>, p: int)
    requires
        0 <= p < s.len(),
        p < t.len(),
        forall|k: int| 0 <= k <= p ==> #[trigger] s[k] == t[k],
    ensures
        arrival(ctx, s, p) == arrival(ctx, t, p),
    decreases p,
{
    if p > 0 {
        lemma_arrival_prefix(ctx, s, t, p - 1);
        assert(s[p - 1] == t[p - 1]);
        assert(s[p] == t[p]);
    }
}

/// Whether reversing positions `i + 1..=j` of route `r` keeps the reversed
/// nodes on time and reaches position `j + 1` by its latest arrival time,
/// walking the reversed range from the departure at position `i`.
pub fn is_two_opt_feasible(ctx: &Ctx, r: &Route, i: usize, j: usize) -> (res: bool)
    requires
        ctx.wf(),
        route_fit(*ctx, *r),
        i < j,
        j + 1 < r.seq@.len(),
    ensures
        res == two_opt_tw(*ctx, r.seq@, i as int, j as int),
{
    let ghost s = r.seq@;
    let ghost t = rev_nodes(s, i + 1, j as int);
    proof {
        lemma_rev_nodes(s, i + 1, j as int);
        assert(seq_ok(*ctx, s));
        assert forall|k: int| 0 <= k < t.len() implies (#[trigger] t[k] as int) < ctx.n by {
            if i + 1 <= k <= j {
                assert(t[k] == s[i + 1 + j - k]);
            } else {
                assert(t[k] == s[k]);
            }
        }
        assert(seq_ok(*ctx, t));
        lemma_arrival_prefix(*ctx, s, t, i as int);
        crate::silver_nova::lemma_arrival_bounds(*ctx, s, i as int);
    }
    let a = r.seq[i] as usize;
    proof {
        assert(crate::model::in_limit(ctx.ready@[a as int]));
    }
    let x = r.arr[i];
    let mut time: i32 = (if x > ctx.ready[a] { x } else { ctx.ready[a] }) + ctx.service_of(a);
    let mut cur: usize = a;
    let mut k: usize = j;
    while k > i
        invariant
            ctx.wf(),
            route_fit(*ctx, *r),
            s == r.seq@,
            t == rev_nodes(s, i + 1, j as int),
            seq_ok(*ctx, t),
            t.len() == s.len(),
            forall|p: int| i + 1 <= p <= j ==> #[trigger] t[p] == s[i + 1 + j - p],
            i < j,
            j + 1 < s.len(),
            i <= k <= j,
            cur == t[i + j - k] as usize,
            time == max(arrival(*ctx, t, i + j - k), ctx.ready@[cur as int] as int) + ctx.service(cur),
            forall|p: int| i < p < i + 1 + j - k ==> #[trigger] arrival(*ctx, t, p) <= ctx.due@[t[p] as int],
        decreases k - i,
    {
        let ghost q = i + 1 + j - k;
        let nxt = r.seq[k] as usize;
        proof {
            assert(t[q] == s[k as int]);
            assert(nxt != 0);
            crate::silver_nova::lemma_arrival_bounds(*ctx, t, q - 1);
            crate::silver_nova::lemma_arrival_bounds(*ctx, t, q);
            assert((nxt as int) < ctx.n);
            assert(crate::model::in_limit(ctx.d@[cur as int]@[nxt as int]));
            assert(crate::model::in_limit(ctx.ready@[nxt as int]));
            assert(crate::model::in_limit(ctx.due@[nxt as int]));
            assert(crate::model::in_limit(ctx.ready@[cur as int]));
            assert(arrival(*ctx, t, q) == time + ctx.d@[cur as int]@[nxt as int]);
        }
        time = time + ctx.d[cur][nxt];
        if time > ctx.due[nxt] {
            return false;
        }
        time = (if time > ctx.ready[nxt] { time } else { ctx.ready[nxt] }) + ctx.srv;
        cur = nxt;
        k = k - 1;
    }
    let last = r.seq[j + 1] as usize;
    proof {
        assert(t[j + 1] == s[j + 1]);
        assert(t[j as int] as usize == cur);
        crate::silver_nova::lemma_arrival_bounds(*ctx, t, j + 1);
        assert((last as int) < ctx.n);
        assert(crate::model::in_limit(ctx.d@[cur as int]@[last as int]));
        assert(arrival(*ctx, t, j + 1) == time + ctx.d@[cur as int]@[last as int]);
        crate::silver_nova::lemma_latest_bounds(*ctx, s, j + 1);
    }
    time = time + ctx.d[cur][last];
    time <= r.lat[j + 1]
}

/// Change of length of reversing positions `i + 1..=j` of a route (for a
/// symmetric matrix).
pub open spec fn rev_delta(dm: Seq<Vec<i32>>, r: Seq<usize>, i: int, j: int) -> int {
    dd(dm, r[i], r[j]) + dd(dm, r[i + 1], r[j + 1]) - dd(dm, r[i], r[i + 1]) - dd(dm, r[j], r[j + 1])
}

/// Reversing positions `i + 1..=j` (at least two nodes, inner ones) shortens a
/// route with nodes `s` (by `rev_delta`) and `is_two_opt_feasible` accepts it.
pub open spec fn rev_improves(ctx: Ctx, s: Seq<u32>, i: int, j: int) -> bool {
    &&& 0 <= i
    &&& i + 2 <= j
    &&& j + 1 < s.len()
    &&& rev_delta(ctx.d@, nodes(s), i, j) < 0
    &&& two_opt_tw(ctx, s, i, j)
}

/// A route of at least five nodes admits no such reversal.
pub open spec fn rev_optimal(ctx: Ctx, s: Seq<u32>) -> bool {
    s.len() >= 5 ==> forall|i: int, j: int| !#[trigger] rev_improves(ctx, s, i, j)
}

/// The best reversal inside route `r`, over `i` and then `j >= i + 2` up to the
/// node before the last: the most negative `rev_delta` among those that
/// `is_two_opt_feasible` accepts, the first of equals; zero saving when none.
fn best_two_opt(ctx: &Ctx, r: &Route) -> (res: (i32, usize, usize))
    requires
        ctx.wf(),
        route_fit(*ctx, *r),
        r.seq@.len() >= 5,
    ensures
        res.0 <= 0,
        res.0 < 0 ==> {
            &&& res.1 + 2 <= res.2
            &&& res.2 + 1 < r.seq@.len()
            &&& two_opt_tw(*ctx, r.seq@, res.1 as int, res.2 as int)
            &&& rev_delta(ctx.d@, nodes(r.seq@), res.1 as int, res.2 as int) == res.0
        },
        res.0 == 0 ==> forall|i: int, j: int| !#[trigger] rev_improves(*ctx, r.seq@, i, j),
{
    let len = r.seq.len();
    let mut best_delta: i32 = 0;
    let mut best_i: usize = 0;
    let mut best_j: usize = 0;
    let mut i: usize = 0;
    proof {
        assert(seq_ok(*ctx, r.seq@));
    }
    while i < len - 2
        invariant
            ctx.wf(),
            route_fit(*ctx, *r),
            seq_ok(*ctx, r.seq@),
            len == r.seq@.len(),
            len >= 5,
            best_delta <= 0,
            best_delta < 0 ==> {
                &&& best_i + 2 <= best_j
                &&& best_j + 1 < len
                &&& two_opt_tw(*ctx, r.seq@, best_i as int, best_j as int)
                &&& rev_delta(ctx.d@, nodes(r.seq@), best_i as int, best_j as int) == best_delta
            },
            i <= len - 2,
            best_delta == 0 ==> forall|i2: int, j2: int| i2 < i ==> !#[trigger] rev_improves(*ctx, r.seq@, i2, j2),
        decreases len - 2 - i,
    {
        let a = r.seq[i] as usize;
        let mut j: usize = i + 2;
        while j < len - 1
            invariant
                ctx.wf(),
                route_fit(*ctx, *r),
                seq_ok(*ctx, r.seq@),
                len == r.seq@.len(),
                len >= 5,
                i < len - 2,
                a == r.seq@[i as int] as usize,
                i + 2 <= j,
                best_delta <= 0,
                best_delta < 0 ==> {
                    &&& best_i + 2 <= best_j
                    &&& best_j + 1 < len
                    &&& two_opt_tw(*ctx, r.seq@, best_i as int, best_j as int)
                    &&& rev_delta(ctx.d@, nodes(r.seq@), best_i as int, best_j as int) == best_delta
                },
                j <= len - 1,
                best_delta == 0 ==> forall|i2: int, j2: int| (i2 < i || (i2 == i && j2 < j)) ==> !#[trigger] rev_improves(*ctx, r.seq@, i2, j2),
            decreases len - 1 - j,
        {
            let c = r.seq[j] as usize;
            let b = r.seq[i + 1] as usize;
            let dn = r.seq[j + 1] as usize;
            proof {
                assert((a as int) < ctx.n && (b as int) < ctx.n && (c as int) < ctx.n && (dn as int) < ctx.n);
                assert(crate::model::in_limit(ctx.d@[a as int]@[c as int]));
                assert(crate::model::in_limit(ctx.d@[b as int]@[dn as int]));
                assert(crate::model::in_limit(ctx.d@[a as int]@[b as int]));
                assert(crate::model::in_limit(ctx.d@[c as int]@[dn as int]));
            }
            let delta = ctx.d[a][c] + ctx.d[b][dn] - ctx.d[a][b] - ctx.d[c][dn];
            if delta < best_delta {
                if is_two_opt_feasible(ctx, r, i, j) {
                    best_delta = delta;
                    best_i = i;
                    best_j = j;
                }
            }
            j += 1;
        }
        i += 1;
    }
    (best_delta, best_i, best_j)
}

/// The nodes of `s` with positions `lo..=hi` reversed, as a new vector.
fn reversed_nodes(s: &Vec<u32>, lo: usize, hi: usize) -> (res: Vec<u32>)
    requires
        lo <= hi < s@.len(),
    ensures
        res@ == rev_nodes(s@, lo as int, hi as int),
{
    proof {
        lemma_rev_nodes(s@, lo as int, hi as int);
    }
    let mut out: Vec<u32> = Vec::new();
    let mut k: usize = 0;
    while k < s.len()
        invariant
            lo <= hi < s@.len(),
            k <= s@.len(),
            out@.len() == k,
            forall|p: int| 0 <= p < k ==> #[trigger] out@[p] == rev_nodes(s@, lo as int, hi as int)[p],
            forall|p: int| 0 <= p < lo ==> #[trigger] rev_nodes(s@, lo as int, hi as int)[p] == s@[p],
            forall|p: int| lo <= p <= hi ==> #[trigger] rev_nodes(s@, lo as int, hi as int)[p] == s@[lo + hi - p],
            forall|p: int| hi < p < s@.len() ==> #[trigger] rev_nodes(s@, lo as int, hi as int)[p] == s@[p],
        decreases s.len() - k,
    {
        if k < lo || k > hi {
            out.push(s[k]);
        } else {
            out.push(s[hi - (k - lo)]);
        }
        k += 1;
    }
    proof {
        lemma_rev_nodes(s@, lo as int, hi as int);
        assert(out@ =~= rev_nodes(s@, lo as int, hi as int));
    }
    out
}

/// Reversing an inner range of a fitting route gives a fitting route's nodes,
/// with the same customers, the length changed by `rev_delta` (for a
/// symmetric matrix).
proof fn lemma_reversed_fit(ctx: Ctx, r: Route, nr: Route, i: int, j: int)
    requires
        ctx.wf(),
        symmetric(ctx.d@),
        route_fit(ctx, r),
        0 <= i,
        i + 2 <= j,
        j + 1 < r.seq@.len(),
        nr.seq@ == rev_nodes(r.seq@, i + 1, j),
        nr.tables_ok(ctx),
    ensures
        route_fit(ctx, nr),
        custs(nodes(nr.seq@)) == custs(nodes(r.seq@)),
        route_len(ctx.d@, nodes(nr.seq@)) == route_len(ctx.d@, nodes(r.seq@)) + rev_delta(ctx.d@, nodes(r.seq@), i, j),
        nodes(nr.seq@).len() == nodes(r.seq@).len(),
{
    let s = r.seq@;
    let t = nr.seq@;
    lemma_rev_nodes(s, i + 1, j);
    assert(seq_ok(ctx, s));
    let ns = nodes(s);
    assert(crate::model::nodes_below(ns, ctx.d@.len() as int)) by {
        assert forall|k: int| 0 <= k < ns.len() implies (#[trigger] ns[k] as int) < ctx.d@.len() by {
            assert((s[k] as int) < ctx.n);
        }
    }
    lemma_rev_seg_len(ctx.d@, ns, i + 1, j);
    crate::so_intra::lemma_perm_custs(rev_seg(ns, i + 1, j), ns);
    assert forall|k: int| 0 < k < t.len() - 1 implies #[trigger] t[k] != 0 by {
        if i + 1 <= k <= j {
            assert(t[k] == s[i + 1 + j - k]);
        } else {
            assert(t[k] == s[k]);
        }
    }
    assert(t[0] == s[0]);
    assert(t[t.len() - 1] == s[s.len() - 1]);
}

/// Reverses ranges inside every route, in route order: while the best
/// accepted reversal of a route with at least five nodes (`best_two_opt`)
/// shortens it, it is made and the route searched again. For a symmetric
/// matrix each reversal shortens the route by its `rev_delta`.
pub fn two_opt_intra_pass(ctx: &Ctx, sol: &mut Sol) -> (improved: bool)
    requires
        ctx.wf(),
        symmetric(ctx.d@),
        sn_ok(*ctx, old(sol).routes@),
    ensures
        sn_ok(*ctx, final(sol).routes@),
        final(sol).routes@.len() == old(sol).routes@.len(),
        final(sol).total_dist == old(sol).total_dist,
        all_custs(sn_nodes(final(sol).routes@)) == all_custs(sn_nodes(old(sol).routes@)),
        total_len(ctx.d@, sn_nodes(final(sol).routes@)) <= total_len(ctx.d@, sn_nodes(old(sol).routes@)),
        improved ==> total_len(ctx.d@, sn_nodes(final(sol).routes@)) < total_len(ctx.d@, sn_nodes(old(sol).routes@)),
        !improved ==> sn_nodes(final(sol).routes@) == sn_nodes(old(sol).routes@),
        !improved ==> *final(sol) == *old(sol),
        forall|r: int| 0 <= r < final(sol).routes@.len() ==> #[trigger] rev_optimal(*ctx, final(sol).routes@[r].seq@),
        sn_feasible(*ctx, old(sol).routes@) ==> sn_feasible(*ctx, final(sol).routes@),
{
    let ghost rs0 = sn_nodes(sol.routes@);
    let ghost dm = ctx.d@;
    let mut improved = false;
    let mut ri: usize = 0;
    while ri < sol.routes.len()
        invariant
            ctx.wf(),
            symmetric(ctx.d@),
            dm == ctx.d@,
            sn_ok(*ctx, sol.routes@),
            sol.routes@.len() == old(sol).routes@.len(),
            sol.total_dist == old(sol).total_dist,
            rs0 == sn_nodes(old(sol).routes@),
            all_custs(sn_nodes(sol.routes@)) == all_custs(rs0),
            total_len(dm, sn_nodes(sol.routes@)) <= total_len(dm, rs0),
            improved ==> total_len(dm, sn_nodes(sol.routes@)) < total_len(dm, rs0),
            !improved ==> sn_nodes(sol.routes@) == rs0,
            !improved ==> *sol == *old(sol),
            ri <= sol.routes@.len(),
            forall|r: int| 0 <= r < ri ==> #[trigger] rev_optimal(*ctx, sol.routes@[r].seq@),
            sn_feasible(*ctx, old(sol).routes@) ==> sn_feasible(*ctx, sol.routes@),
        decreases sol.routes.len() - ri,
    {
        proof {
            assert(route_fit(*ctx, sol.routes@[ri as int]));
            assert(seq_ok(*ctx, sol.routes@[ri as int].seq@));
            crate::algorithm::lemma_route_len_nonneg(dm, nodes(sol.routes@[ri as int].seq@));
        }
        loop
            invariant
                ctx.wf(),
                symmetric(ctx.d@),
                dm == ctx.d@,
                sn_ok(*ctx, sol.routes@),
                ri < sol.routes@.len(),
                sol.routes@.len() == old(sol).routes@.len(),
                sol.total_dist == old(sol).total_dist,
                rs0 == sn_nodes(old(sol).routes@),
                all_custs(sn_nodes(sol.routes@)) == all_custs(rs0),
                total_len(dm, sn_nodes(sol.routes@)) <= total_len(dm, rs0),
                improved ==> total_len(dm, sn_nodes(sol.routes@)) < total_len(dm, rs0),
                !improved ==> sn_nodes(sol.routes@) == rs0,
                !improved ==> *sol == *old(sol),
                route_len(dm, nodes(sol.routes@[ri as int].seq@)) >= 0,
                forall|r: int| 0 <= r < ri ==> #[trigger] rev_optimal(*ctx, sol.routes@[r].seq@),
                sn_feasible(*ctx, old(sol).routes@) ==> sn_feasible(*ctx, sol.routes@),
            ensures
                sn_feasible(*ctx, old(sol).routes@) ==> sn_feasible(*ctx, sol.routes@),
                ri < sol.routes@.len(),
                rev_optimal(*ctx, sol.routes@[ri as int].seq@),
            decreases route_len(dm, nodes(sol.routes@[ri as int].seq@)),
        {
            let r = &sol.routes[ri];
            let len = r.len();
            proof {
                assert(route_fit(*ctx, sol.routes@[ri as int]));
            }
            if len < 5 {
                break;
            }
            let (best_delta, best_i, best_j) = best_two_opt(ctx, r);
            if best_delta < 0 {
                let ns = reversed_nodes(&r.seq, best_i + 1, best_j);
                let ghost before = sol.routes@;
                let ghost rs = sn_nodes(before);
                proof {
                    lemma_rev_nodes(r.seq@, best_i + 1, best_j as int);
                    assert(seq_ok(*ctx, r.seq@));
                    assert forall|k: int| 0 <= k < ns@.len() implies (#[trigger] ns@[k] as int) < ctx.n by {
                        if best_i + 1 <= k <= best_j {
                            assert(ns@[k] == r.seq@[best_i + 1 + best_j - k]);
                        } else {
                            assert(ns@[k] == r.seq@[k]);
                        }
                    }
                }
                let nr = route_of(ctx, ns);
                proof {
                    lemma_reversed_fit(*ctx, before[ri as int], nr, best_i as int, best_j as int);
                    assert(rs[ri as int] == nodes(before[ri as int].seq@));
                }
                sol.routes.set(ri, nr);
                proof {
                    lemma_sn_nodes_update(before, ri as int, nr);
                    lemma_total_len_update(dm, rs, ri as int, nodes(nr.seq@));
                    lemma_total_nodes(rs, ri as int, nodes(nr.seq@));
                    lemma_all_custs_update(rs, ri as int, nodes(nr.seq@));
                    assert(all_custs(sn_nodes(sol.routes@)) =~= all_custs(rs)) by {
                        broadcast use vstd::multiset::group_multiset_axioms;
                        assert forall|v: usize| all_custs(sn_nodes(sol.routes@)).count(v) == all_custs(rs).count(v) by {
                            assert(all_custs(rs.update(ri as int, nodes(nr.seq@))).add(custs(rs[ri as int])).count(v)
                                == all_custs(rs).add(custs(nodes(nr.seq@))).count(v));
                        }
                    }
                    assert forall|k: int| 0 <= k < sol.routes@.len() implies #[trigger] route_fit(*ctx, sol.routes@[k]) by {
                        if k != ri {
                            assert(sol.routes@[k] == before[k]);
                        }
                    }
                    assert forall|r: int| 0 <= r < ri implies #[trigger] rev_optimal(*ctx, sol.routes@[r].seq@) by {
                        assert(sol.routes@[r] == before[r]);
                    }
                    assert(seq_ok(*ctx, nr.seq@));
                    crate::algorithm::lemma_route_len_nonneg(dm, nodes(nr.seq@));
                    if sn_feasible(*ctx, old(sol).routes@) {
                        let r0 = before[ri as int];
                        assert(route_feasible(*ctx, r0));
                        lemma_on_time(*ctx, r0);
                        crate::sn_laws::law_accepted_reversal_on_time(*ctx, r0, best_i as int, best_j as int);
                        lemma_demand_rev_nodes(*ctx, r0.seq@, best_i + 1, best_j as int);
                        assert forall|k: int| 0 <= k < sol.routes@.len() implies #[trigger] route_feasible(*ctx, sol.routes@[k]) by {
                            if k != ri {
                                assert(sol.routes@[k] == before[k]);
                            }
                        }
                    }
                }
                improved = true;
            } else {
                break;
            }
        }
        ri += 1;
    }
    improved
}

/// Where the target position lands once the segment of `len` nodes at `sp` of
/// the same route is cut out.
pub open spec fn shift_seg(tp: int, sp: int, len: int) -> int {
    if tp > sp { tp - len } else { tp }
}

/// The routes after moving the `len` nodes at `sp` of route `s` to position
/// `tp` of route `t`, in their order; within one route, `tp` counts places
/// before the segment is cut out.
pub open spec fn seg_moved(rs: Seq<Seq<usize>>, s: int, sp: int, len: int, t: int, tp: int) -> Seq<Seq<usize>> {
    let seg = rs[s].subrange(sp, sp + len);
    if t == s {
        rs.update(s, spliced(cut_out(rs[s], sp, len), shift_seg(tp, sp, len), seg))
    } else {
        rs.update(s, cut_out(rs[s], sp, len)).update(t, spliced(rs[t], tp, seg))
    }
}

/// A segment move the pass may make: one to three inner nodes to an inner gap
/// outside the segment and its two borders.
pub open spec fn seg_move_ok(rs: Seq<Seq<usize>>, s: int, sp: int, len: int, t: int, tp: int) -> bool {
    &&& 0 <= s < rs.len()
    &&& 0 <= t < rs.len()
    &&& 1 <= len <= 3
    &&& 1 <= sp
    &&& sp + len + 1 <= rs[s].len()
    &&& 1 <= tp < rs[t].len()
    &&& t == s ==> tp < sp || tp > sp + len
}

/// The change of total length of a segment move: the cost of the new gap
/// minus the saving of the old one.
pub open spec fn seg_delta(dm: Seq<Vec<i32>>, rs: Seq<Seq<usize>>, s: int, sp: int, len: int, t: int, tp: int) -> int {
    let r = rs[s];
    let tr = rs[t];
    (dd(dm, tr[tp - 1], r[sp]) + dd(dm, r[sp + len - 1], tr[tp]) - dd(dm, tr[tp - 1], tr[tp]))
        - (dd(dm, r[sp - 1], r[sp]) + dd(dm, r[sp + len - 1], r[sp + len]) - dd(dm, r[sp - 1], r[sp + len]))
}

/// Cutting a segment out: the edges around it are replaced by one.
proof fn lemma_cut_len(dm: Seq<Vec<i32>>, r: Seq<usize>, i: int, len: int)
    requires
        1 <= i,
        1 <= len,
        i + len + 1 <= r.len(),
    ensures
        route_len(dm, cut_out(r, i, len)) == route_len(dm, r) - dd(dm, r[i - 1], r[i]) - route_len(dm, r.subrange(i, i + len))
            - dd(dm, r[i + len - 1], r[i + len]) + dd(dm, r[i - 1], r[i + len]),
{
    let pp = r.subrange(0, i);
    let sg = r.subrange(i, i + len);
    let qq = r.subrange(i + len, r.len() as int);
    assert(r =~= (pp + sg) + qq);
    assert(cut_out(r, i, len) =~= pp + qq);
    lemma_route_len_concat(dm, pp + sg, qq);
    lemma_route_len_concat(dm, pp, sg);
    lemma_route_len_concat(dm, pp, qq);
    assert((pp + sg).last() == r[i + len - 1]);
}

/// Splicing a chain into a gap: the gap's edge is replaced by the chain and
/// two edges.
proof fn lemma_splice_len(dm: Seq<Vec<i32>>, r: Seq<usize>, p: int, c: Seq<usize>)
    requires
        1 <= p < r.len(),
        c.len() >= 1,
    ensures
        route_len(dm, spliced(r, p, c)) == route_len(dm, r) - dd(dm, r[p - 1], r[p]) + dd(dm, r[p - 1], c[0]) + route_len(dm, c)
            + dd(dm, c[c.len() - 1], r[p]),
{
    let aa = r.subrange(0, p);
    let bb = r.subrange(p, r.len() as int);
    assert(r =~= aa + bb);
    assert(spliced(r, p, c) =~= (aa + c) + bb);
    lemma_route_len_concat(dm, aa, bb);
    lemma_route_len_concat(dm, aa + c, bb);
    lemma_route_len_concat(dm, aa, c);
    assert((aa + c).last() == c[c.len() - 1]);
}

/// Cutting a segment out and splicing it back somewhere keeps the customers.
proof fn lemma_cut_splice_custs(r: Seq<usize>, i: int, len: int, t: Seq<usize>, p: int)
    requires
        0 <= i,
        i + len <= r.len(),
        0 <= len,
        0 <= p <= t.len(),
    ensures
        custs(cut_out(r, i, len)).add(custs(spliced(t, p, r.subrange(i, i + len)))) == custs(r).add(custs(t)),
{
    broadcast use vstd::multiset::group_multiset_axioms;
    let pp = r.subrange(0, i);
    let sg = r.subrange(i, i + len);
    let qq = r.subrange(i + len, r.len() as int);
    let aa = t.subrange(0, p);
    let bb = t.subrange(p, t.len() as int);
    assert(r =~= (pp + sg) + qq);
    assert(t =~= aa + bb);
    assert(cut_out(r, i, len) =~= pp + qq);
    assert(spliced(t, p, sg) =~= (aa + sg) + bb);
    lemma_custs_concat(pp + sg, qq);
    lemma_custs_concat(pp, sg);
    lemma_custs_concat(pp, qq);
    lemma_custs_concat(aa, bb);
    lemma_custs_concat(aa + sg, bb);
    lemma_custs_concat(aa, sg);
    assert(custs(cut_out(r, i, len)).add(custs(spliced(t, p, sg))) =~= custs(r).add(custs(t)));
}

/// A segment move changes the total length by `seg_delta`, and keeps the
/// customers and the number of nodes.
pub proof fn lemma_seg_moved(dm: Seq<Vec<i32>>, rs: Seq<Seq<usize>>, s: int, sp: int, len: int, t: int, tp: int)
    requires
        seg_move_ok(rs, s, sp, len, t, tp),
    ensures
        total_len(dm, seg_moved(rs, s, sp, len, t, tp)) == total_len(dm, rs) + seg_delta(dm, rs, s, sp, len, t, tp),
        all_custs(seg_moved(rs, s, sp, len, t, tp)) == all_custs(rs),
        total_nodes(seg_moved(rs, s, sp, len, t, tp)) == total_nodes(rs),
        seg_moved(rs, s, sp, len, t, tp).len() == rs.len(),
{
    broadcast use vstd::multiset::group_multiset_axioms;
    let r = rs[s];
    let sg = r.subrange(sp, sp + len);
    let cr = cut_out(r, sp, len);
    lemma_cut_len(dm, r, sp, len);
    assert(sg[0] == r[sp]);
    assert(sg[sg.len() - 1] == r[sp + len - 1]);
    if t == s {
        let adj = shift_seg(tp, sp, len);
        assert(cr.len() == r.len() - len);
        assert(1 <= adj < cr.len());
        assert(cr[adj - 1] == r[tp - 1]);
        assert(cr[adj] == r[tp]);
        let nr = spliced(cr, adj, sg);
        lemma_splice_len(dm, cr, adj, sg);
        lemma_total_len_update(dm, rs, s, nr);
        lemma_total_nodes(rs, s, nr);
        lemma_cut_splice_custs(r, sp, len, cr, adj);
        assert(custs(cut_out(r, sp, len)).add(custs(nr)) == custs(r).add(custs(cr)));
        assert(custs(nr) =~= custs(r)) by {
            assert forall|v: usize| custs(nr).count(v) == custs(r).count(v) by {
                assert(custs(cr).add(custs(nr)).count(v) == custs(r).add(custs(cr)).count(v));
            }
        }
        lemma_all_custs_update(rs, s, nr);
        assert(all_custs(rs.update(s, nr)) =~= all_custs(rs)) by {
            assert forall|v: usize| all_custs(rs.update(s, nr)).count(v) == all_custs(rs).count(v) by {
                assert(all_custs(rs.update(s, nr)).add(custs(r)).count(v) == all_custs(rs).add(custs(nr)).count(v));
            }
        }
    } else {
        let tr = rs[t];
        let nt = spliced(tr, tp, sg);
        let u1 = rs.update(s, cr);
        lemma_splice_len(dm, tr, tp, sg);
        lemma_total_len_update(dm, rs, s, cr);
        assert(u1[t] == tr);
        lemma_total_len_update(dm, u1, t, nt);
        lemma_total_nodes(rs, s, cr);
        lemma_total_nodes(u1, t, nt);
        lemma_cut_splice_custs(r, sp, len, tr, tp);
        crate::algorithm::lemma_replace_two(rs, s, t, cr, nt);
    }
}

/// `s` without its `len` nodes at `i`.
pub open spec fn cut32(s: Seq<u32>, i: int, len: int) -> Seq<u32> {
    s.subrange(0, i) + s.subrange(i + len, s.len() as int)
}

/// `s` with the chain `c` put before position `p`.
pub open spec fn splice32(s: Seq<u32>, p: int, c: Seq<u32>) -> Seq<u32> {
    s.subrange(0, p) + c + s.subrange(p, s.len() as int)
}

/// The node sequences of the two routes a segment move changes: the source,
/// then the target (the same route when `t == s`).
pub open spec fn moved_seqs(os: Seq<u32>, ot: Seq<u32>, same: bool, sp: int, len: int, tp: int) -> (Seq<u32>, Seq<u32>) {
    let seg = os.subrange(sp, sp + len);
    let cut = cut32(os, sp, len);
    if same {
        (cut, splice32(cut, shift_seg(tp, sp, len), seg))
    } else {
        (cut, splice32(ot, tp, seg))
    }
}

/// Nodes as numbers commute with cutting and splicing.
proof fn lemma_nodes_cut_splice(s: Seq<u32>, i: int, len: int, t: Seq<u32>, p: int, c: Seq<u32>)
    requires
        0 <= i,
        0 <= len,
        i + len <= s.len(),
        0 <= p <= t.len(),
    ensures
        nodes(cut32(s, i, len)) == cut_out(nodes(s), i, len),
        nodes(splice32(t, p, c)) == spliced(nodes(t), p, nodes(c)),
        nodes(s.subrange(i, i + len)) == nodes(s).subrange(i, i + len),
{
    assert(nodes(cut32(s, i, len)) =~= cut_out(nodes(s), i, len));
    assert(nodes(splice32(t, p, c)) =~= spliced(nodes(t), p, nodes(c)));
    assert(nodes(s.subrange(i, i + len)) =~= nodes(s).subrange(i, i + len));
}

/// The nodes of `s` at positions `lo..hi`.
fn copy_range(s: &Vec<u32>, lo: usize, hi: usize) -> (res: Vec<u32>)
    requires
        lo <= hi <= s@.len(),
    ensures
        res@ == s@.subrange(lo as int, hi as int),
{
    let mut out: Vec<u32> = Vec::new();
    let mut k: usize = lo;
    while k < hi
        invariant
            lo <= k <= hi <= s@.len(),
            out@ == s@.subrange(lo as int, k as int),
        decreases hi - k,
    {
        out.push(s[k]);
        k += 1;
        assert(out@ =~= s@.subrange(lo as int, k as int));
    }
    out
}

/// `t` with the chain `c` put before position `p`.
fn splice_nodes(t: &Vec<u32>, p: usize, c: &Vec<u32>) -> (res: Vec<u32>)
    requires
        p <= t@.len(),
    ensures
        res@ == splice32(t@, p as int, c@),
{
    let mut out = copy_range(t, 0, p);
    let mut k: usize = 0;
    while k < c.len()
        invariant
            k <= c@.len(),
            out@ == t@.subrange(0, p as int) + c@.subrange(0, k as int),
        decreases c.len() - k,
    {
        out.push(c[k]);
        k += 1;
        assert(out@ =~= t@.subrange(0, p as int) + c@.subrange(0, k as int));
    }
    let mut m: usize = p;
    while m < t.len()
        invariant
            p <= m <= t@.len(),
            out@ == t@.subrange(0, p as int) + c@ + t@.subrange(p as int, m as int),
        decreases t.len() - m,
    {
        out.push(t[m]);
        m += 1;
        assert(out@ =~= t@.subrange(0, p as int) + c@ + t@.subrange(p as int, m as int));
    }
    assert(c@.subrange(0, c@.len() as int) =~= c@);
    out
}

/// The locator entry of the `k`-th listed neighbour of the first node of the
/// segment at `sp` of route `sri`.
pub open spec fn seg_loc(ctx: Ctx, rs: Seq<Route>, loc: Seq<NodeLoc>, sri: int, sp: int, k: int) -> NodeLoc {
    loc[ctx.neighbors@[rs[sri].seq@[sp] as int]@[k] as int]
}

/// Candidate `(k, t)` for the segment of `len` nodes at `sp` of route `sri`:
/// the gap `t` places after the `k`-th listed neighbour of its first node, on a
/// route, outside the segment and its borders, on a route with room for the
/// segment (any gap of the source route itself).
pub open spec fn seg_cand(ctx: Ctx, rs: Seq<Route>, loc: Seq<NodeLoc>, sri: int, sp: int, len: int, k: int, t: int) -> bool {
    let s = rs[sri].seq@;
    let vl = seg_loc(ctx, rs, loc, sri, sp, k);
    let tri = vl.route as int;
    let p = vl.pos + t;
    &&& 0 <= k < ctx.neighbors@[s[sp] as int]@.len()
    &&& 0 <= t < 2
    &&& vl.route != u32::MAX
    &&& !(tri == sri && sp <= p <= sp + len)
    &&& 1 <= p < rs[tri].seq@.len()
    &&& !(tri != sri && demand_sum(ctx.demand@, nodes(rs[tri].seq@).subrange(1, rs[tri].seq@.len() as int))
        + demand_sum(ctx.demand@, nodes(s).subrange(sp, sp + len)) > ctx.cap)
}

/// The change of total length of moving the segment to candidate gap `(k, t)`.
pub open spec fn seg_net(ctx: Ctx, rs: Seq<Route>, loc: Seq<NodeLoc>, sri: int, sp: int, len: int, k: int, t: int) -> int {
    let vl = seg_loc(ctx, rs, loc, sri, sp, k);
    seg_delta(ctx.d@, sn_nodes(rs), sri, sp, len, vl.route as int, vl.pos + t)
}

/// Candidate `(k2, t2)` comes before `(k, t)` in the scan order.
pub open spec fn seg_before(k2: int, t2: int, k: int, t: int) -> bool {
    k2 < k || k2 == k && t2 < t
}

/// No candidate gap shortens the solution.
pub open spec fn seg_none(ctx: Ctx, rs: Seq<Route>, loc: Seq<NodeLoc>, sri: int, sp: int, len: int) -> bool {
    forall|k: int, t: int| #[trigger] seg_cand(ctx, rs, loc, sri, sp, len, k, t) ==> seg_net(ctx, rs, loc, sri, sp, len, k, t) >= 0
}

/// `(kb, tb)` is the first candidate, in scan order, with the smallest change,
/// and that change is negative.
pub open spec fn seg_first_best(ctx: Ctx, rs: Seq<Route>, loc: Seq<NodeLoc>, sri: int, sp: int, len: int, kb: int, tb: int) -> bool {
    &&& seg_cand(ctx, rs, loc, sri, sp, len, kb, tb)
    &&& seg_net(ctx, rs, loc, sri, sp, len, kb, tb) < 0
    &&& forall|k: int, t: int| #[trigger] seg_cand(ctx, rs, loc, sri, sp, len, k, t) ==>
        seg_net(ctx, rs, loc, sri, sp, len, k, t) >= seg_net(ctx, rs, loc, sri, sp, len, kb, tb)
        && (seg_before(k, t, kb, tb) ==> seg_net(ctx, rs, loc, sri, sp, len, k, t) > seg_net(ctx, rs, loc, sri, sp, len, kb, tb))
}

/// The best gap found so far (`best_tri` `usize::MAX` for none) accounts for
/// candidate `(k, t)`.
pub open spec fn seg_covers(ctx: Ctx, rs: Seq<Route>, loc: Seq<NodeLoc>, sri: int, sp: int, len: int,
    best_tri: usize, best_delta: int, kb: int, tb: int, k: int, t: int) -> bool {
    seg_cand(ctx, rs, loc, sri, sp, len, k, t) ==> {
        &&& best_tri == usize::MAX ==> seg_net(ctx, rs, loc, sri, sp, len, k, t) >= 0
        &&& best_tri != usize::MAX ==> seg_net(ctx, rs, loc, sri, sp, len, k, t) >= best_delta
            && (seg_before(k, t, kb, tb) ==> seg_net(ctx, rs, loc, sri, sp, len, k, t) > best_delta)
    }
}

/// The best target for the `seg_len` nodes at `src_p` of route `src_ri`: a gap
/// before or after a listed neighbour of the segment's first node, outside
/// the segment and its borders, on a route that can take the segment's demand
/// (any gap of the source route itself). Returns the best change of length
/// (zero when none is negative), and the target route (`usize::MAX` for none)
/// and position.
fn best_segment_target(ctx: &Ctx, sol: &Sol, loc: &Vec<NodeLoc>, src_ri: usize, src_p: usize, seg_len: usize) -> (res: (i32, usize, usize))
    requires
        ctx.wf(),
        sn_ok(*ctx, sol.routes@),
        loc_ok(sol.routes@, loc@, ctx.n as int),
        src_ri < sol.routes@.len(),
        1 <= seg_len <= 3,
        1 <= src_p,
        src_p + seg_len + 1 <= sol.routes@[src_ri as int].seq@.len(),
    ensures
        res.0 <= 0,
        res.1 != usize::MAX ==> {
            &&& res.0 < 0
            &&& seg_move_ok(sn_nodes(sol.routes@), src_ri as int, src_p as int, seg_len as int, res.1 as int, res.2 as int)
            &&& seg_delta(ctx.d@, sn_nodes(sol.routes@), src_ri as int, src_p as int, seg_len as int, res.1 as int, res.2 as int) == res.0
        },
        res.1 == usize::MAX ==> seg_none(*ctx, sol.routes@, loc@, src_ri as int, src_p as int, seg_len as int),
        res.1 != usize::MAX ==> exists|kb: int, tb: int| #[trigger] seg_first_best(*ctx, sol.routes@, loc@, src_ri as int, src_p as int, seg_len as int, kb, tb)
            && seg_loc(*ctx, sol.routes@, loc@, src_ri as int, src_p as int, kb).route == res.1
            && seg_loc(*ctx, sol.routes@, loc@, src_ri as int, src_p as int, kb).pos + tb == res.2,
{
    let ghost rs = sn_nodes(sol.routes@);
    let ghost dm = ctx.d@;
    let r = &sol.routes[src_ri];
    proof {
        assert(route_fit(*ctx, sol.routes@[src_ri as int]));
        assert(seq_ok(*ctx, r.seq@));
        assert(rs[src_ri as int] == nodes(r.seq@));
    }
    let seg_front = r.seq[src_p] as usize;
    let seg_back = r.seq[src_p + seg_len - 1] as usize;
    let a = r.seq[src_p - 1] as usize;
    let b = r.seq[src_p + seg_len] as usize;
    proof {
        assert((seg_front as int) < ctx.n && (seg_back as int) < ctx.n && (a as int) < ctx.n && (b as int) < ctx.n);
        assert(crate::model::in_limit(ctx.d@[a as int]@[seg_front as int]));
        assert(crate::model::in_limit(ctx.d@[seg_back as int]@[b as int]));
        assert(crate::model::in_limit(ctx.d@[a as int]@[b as int]));
    }
    let remove_gain = ctx.d[a][seg_front] + ctx.d[seg_back][b] - ctx.d[a][b];
    let mut seg_demand: i32 = 0;
    let mut q: usize = src_p;
    while q < src_p + seg_len
        invariant
            ctx.wf(),
            seq_ok(*ctx, r.seq@),
            src_p <= q <= src_p + seg_len,
            src_p + seg_len + 1 <= r.seq@.len(),
            seg_len <= 3,
            0 <= seg_demand <= crate::model::VALUE_LIMIT * (q - src_p),
            seg_demand == demand_sum(ctx.demand@, nodes(r.seq@).subrange(src_p as int, q as int)),
        decreases src_p + seg_len - q,
    {
        assert(nodes(r.seq@).subrange(src_p as int, q + 1).drop_last() =~= nodes(r.seq@).subrange(src_p as int, q as int));
        proof {
            assert((r.seq@[q as int] as int) < ctx.n);
            assert(crate::model::in_limit(ctx.demand@[r.seq@[q as int] as int]));
        }
        seg_demand = seg_demand + ctx.demand[r.seq[q] as usize];
        q += 1;
    }
    let mut best_delta: i32 = 0;
    let mut best_tri: usize = usize::MAX;
    let mut best_tp: usize = 0;
    let ghost mut kb: int = 0;
    let ghost mut tb: int = 0;
    let nb = &ctx.neighbors[seg_front];
    let mut k: usize = 0;
    while k < nb.len()
        invariant
            ctx.wf(),
            sn_ok(*ctx, sol.routes@),
            loc_ok(sol.routes@, loc@, ctx.n as int),
            rs == sn_nodes(sol.routes@),
            dm == ctx.d@,
            src_ri < sol.routes@.len(),
            *r == sol.routes@[src_ri as int],
            rs[src_ri as int] == nodes(r.seq@),
            1 <= seg_len <= 3,
            1 <= src_p,
            src_p + seg_len + 1 <= r.seq@.len(),
            seg_front == r.seq@[src_p as int] as usize,
            seg_back == r.seq@[src_p + seg_len - 1] as usize,
            (seg_front as int) < ctx.n,
            (seg_back as int) < ctx.n,
            remove_gain == dd(dm, rs[src_ri as int][src_p - 1], rs[src_ri as int][src_p as int])
                + dd(dm, rs[src_ri as int][src_p + seg_len - 1], rs[src_ri as int][src_p + seg_len])
                - dd(dm, rs[src_ri as int][src_p - 1], rs[src_ri as int][src_p + seg_len]),
            -300_000 <= remove_gain <= 300_000,
            0 <= seg_demand <= 300_000,
            *nb == ctx.neighbors@[seg_front as int],
            k <= nb@.len(),
            best_delta <= 0,
            best_tri != usize::MAX ==> {
                &&& best_delta < 0
                &&& seg_move_ok(rs, src_ri as int, src_p as int, seg_len as int, best_tri as int, best_tp as int)
                &&& seg_delta(dm, rs, src_ri as int, src_p as int, seg_len as int, best_tri as int, best_tp as int) == best_delta
            },
            seg_demand == demand_sum(ctx.demand@, nodes(r.seq@).subrange(src_p as int, src_p + seg_len)),
            best_tri == usize::MAX ==> best_delta == 0,
            best_tri != usize::MAX ==> seg_cand(*ctx, sol.routes@, loc@, src_ri as int, src_p as int, seg_len as int, kb, tb) && seg_net(*ctx, sol.routes@, loc@, src_ri as int, src_p as int, seg_len as int, kb, tb) == best_delta
                && seg_loc(*ctx, sol.routes@, loc@, src_ri as int, src_p as int, kb).route == best_tri
                && seg_loc(*ctx, sol.routes@, loc@, src_ri as int, src_p as int, kb).pos + tb == best_tp,
            best_tri != usize::MAX ==> seg_before(kb, tb, k as int, 0),
            forall|k2: int, t2: int| seg_before(k2, t2, k as int, 0) ==> #[trigger] seg_covers(*ctx, sol.routes@, loc@, src_ri as int, src_p as int, seg_len as int, best_tri, best_delta as int, kb, tb, k2, t2),
        decreases nb.len() - k,
    {
        let v = nb[k] as usize;
        assert((v as int) < ctx.n);
        let vl = loc[v];
        if vl.route != u32::MAX {
            proof {
                if v == 0 {
                    assert(false);
                }
                assert(points_at(sol.routes@, loc@[v as int], v as int));
            }
            let tri = vl.route as usize;
            let vp = vl.pos as usize;
            let mut t: usize = 0;
            while t < 2
                invariant
                    ctx.wf(),
                    sn_ok(*ctx, sol.routes@),
                    rs == sn_nodes(sol.routes@),
                    dm == ctx.d@,
                    src_ri < sol.routes@.len(),
                    rs[src_ri as int] == nodes(r.seq@),
                    *r == sol.routes@[src_ri as int],
                    1 <= seg_len <= 3,
                    1 <= src_p,
                    src_p + seg_len + 1 <= r.seq@.len(),
                    seg_front == r.seq@[src_p as int] as usize,
                    seg_back == r.seq@[src_p + seg_len - 1] as usize,
                    (seg_front as int) < ctx.n,
                    (seg_back as int) < ctx.n,
                    remove_gain == dd(dm, rs[src_ri as int][src_p - 1], rs[src_ri as int][src_p as int])
                        + dd(dm, rs[src_ri as int][src_p + seg_len - 1], rs[src_ri as int][src_p + seg_len])
                        - dd(dm, rs[src_ri as int][src_p - 1], rs[src_ri as int][src_p + seg_len]),
                    -300_000 <= remove_gain <= 300_000,
                    0 <= seg_demand <= 300_000,
                    tri < sol.routes@.len(),
                    vp < sol.routes@[tri as int].seq@.len(),
                    t <= 2,
                    best_delta <= 0,
                    best_tri != usize::MAX ==> {
                        &&& best_delta < 0
                        &&& seg_move_ok(rs, src_ri as int, src_p as int, seg_len as int, best_tri as int, best_tp as int)
                        &&& seg_delta(dm, rs, src_ri as int, src_p as int, seg_len as int, best_tri as int, best_tp as int) == best_delta
                    },
                    seg_demand == demand_sum(ctx.demand@, nodes(r.seq@).subrange(src_p as int, src_p + seg_len)),
                    k < nb@.len(),
                    *nb == ctx.neighbors@[seg_front as int],
                    v == nb@[k as int] as usize,
                    vl == loc@[v as int],
                    vl.route != u32::MAX,
                    tri == vl.route as usize,
                    vp == vl.pos as usize,
                    best_tri == usize::MAX ==> best_delta == 0,
            best_tri != usize::MAX ==> seg_cand(*ctx, sol.routes@, loc@, src_ri as int, src_p as int, seg_len as int, kb, tb) && seg_net(*ctx, sol.routes@, loc@, src_ri as int, src_p as int, seg_len as int, kb, tb) == best_delta
                        && seg_loc(*ctx, sol.routes@, loc@, src_ri as int, src_p as int, kb).route == best_tri
                        && seg_loc(*ctx, sol.routes@, loc@, src_ri as int, src_p as int, kb).pos + tb == best_tp,
                    best_tri != usize::MAX ==> seg_before(kb, tb, k as int, t as int),
                    forall|k2: int, t2: int| seg_before(k2, t2, k as int, t as int) ==> #[trigger] seg_covers(*ctx, sol.routes@, loc@, src_ri as int, src_p as int, seg_len as int, best_tri, best_delta as int, kb, tb, k2, t2),
                decreases 2 - t,
            {
                let ghost bt0 = best_tri;
                let ghost bd0 = best_delta as int;
                let ghost kb0 = kb;
                let ghost tb0 = tb;
                proof {
                    assert(route_fit(*ctx, sol.routes@[tri as int]));
                    assert(seq_ok(*ctx, sol.routes@[tri as int].seq@));
                }
                let p = vp + t;
                let target = &sol.routes[tri];
                proof {
                    assert(rs[tri as int] == nodes(target.seq@));
                    crate::silver_nova::lemma_demand_sum_bounds(*ctx, nodes(target.seq@).subrange(1, target.seq@.len() as int));
                }
                if !(tri == src_ri && p >= src_p && p <= src_p + seg_len) && p >= 1 && p < target.len()
                    && !(tri != src_ri && target.demand_sum + seg_demand > ctx.cap) {
                    let ta = target.seq[p - 1] as usize;
                    let tb_n = target.seq[p] as usize;
                    proof {
                        assert((ta as int) < ctx.n && (tb_n as int) < ctx.n);
                        assert(crate::model::in_limit(ctx.d@[ta as int]@[seg_front as int]));
                        assert(crate::model::in_limit(ctx.d@[seg_back as int]@[tb_n as int]));
                        assert(crate::model::in_limit(ctx.d@[ta as int]@[tb_n as int]));
                    }
                    let ins_cost = ctx.d[ta][seg_front] + ctx.d[seg_back][tb_n] - ctx.d[ta][tb_n];
                    let net = ins_cost - remove_gain;
                    assert(seg_cand(*ctx, sol.routes@, loc@, src_ri as int, src_p as int, seg_len as int, k as int, t as int));
                    assert(net == seg_net(*ctx, sol.routes@, loc@, src_ri as int, src_p as int, seg_len as int, k as int, t as int));
                    if net < best_delta {
                        best_delta = net;
                        best_tri = tri;
                        best_tp = p;
                        proof {
                            kb = k as int;
                            tb = t as int;
                        }
                    }
                    proof {
                        assert forall|k2: int, t2: int| seg_before(k2, t2, k as int, t + 1) implies
                            #[trigger] seg_covers(*ctx, sol.routes@, loc@, src_ri as int, src_p as int, seg_len as int, best_tri, best_delta as int, kb, tb, k2, t2) by {
                            if seg_before(k2, t2, k as int, t as int) {
                                assert(seg_covers(*ctx, sol.routes@, loc@, src_ri as int, src_p as int, seg_len as int, bt0, bd0, kb0, tb0, k2, t2));
                            } else {
                                assert(k2 == k && t2 == t);
                                assert(seg_net(*ctx, sol.routes@, loc@, src_ri as int, src_p as int, seg_len as int, k2, t2) == net);
                            }
                        }
                    }
                } else {
                    assert(!seg_cand(*ctx, sol.routes@, loc@, src_ri as int, src_p as int, seg_len as int, k as int, t as int));
                    proof {
                        assert forall|k2: int, t2: int| seg_before(k2, t2, k as int, t + 1) implies
                            #[trigger] seg_covers(*ctx, sol.routes@, loc@, src_ri as int, src_p as int, seg_len as int, best_tri, best_delta as int, kb, tb, k2, t2) by {
                            if seg_before(k2, t2, k as int, t as int) {
                                assert(seg_covers(*ctx, sol.routes@, loc@, src_ri as int, src_p as int, seg_len as int, bt0, bd0, kb0, tb0, k2, t2));
                            } else {
                                assert(k2 == k && t2 == t);
                            }
                        }
                    }
                }
                t += 1;
            }
            proof {
                assert forall|k2: int, t2: int| seg_before(k2, t2, k + 1, 0) implies
                    #[trigger] seg_covers(*ctx, sol.routes@, loc@, src_ri as int, src_p as int, seg_len as int, best_tri, best_delta as int, kb, tb, k2, t2) by {
                    if k2 == k && !(0 <= t2 < 2) {
                        assert(!seg_cand(*ctx, sol.routes@, loc@, src_ri as int, src_p as int, seg_len as int, k2, t2));
                    }
                }
            }
        } else {
            proof {
                assert forall|k2: int, t2: int| seg_before(k2, t2, k + 1, 0) implies
                    #[trigger] seg_covers(*ctx, sol.routes@, loc@, src_ri as int, src_p as int, seg_len as int, best_tri, best_delta as int, kb, tb, k2, t2) by {
                    if k2 == k {
                        assert(!seg_cand(*ctx, sol.routes@, loc@, src_ri as int, src_p as int, seg_len as int, k2, t2));
                    }
                }
            }
        }
        k += 1;
    }
    proof {
        assert forall|k2: int, t2: int| #[trigger] seg_cand(*ctx, sol.routes@, loc@, src_ri as int, src_p as int, seg_len as int, k2, t2) implies seg_covers(*ctx, sol.routes@, loc@, src_ri as int, src_p as int, seg_len as int, best_tri, best_delta as int, kb, tb, k2, t2) by {
            assert(seg_before(k2, t2, k as int, 0));
        }
        if best_tri != usize::MAX {
            assert(seg_first_best(*ctx, sol.routes@, loc@, src_ri as int, src_p as int, seg_len as int, kb, tb));
        }
    }
    (best_delta, best_tri, best_tp)
}

/// The nodes of a route the passes work on: in the instance, at least two
/// and at most `LEN_LIMIT`, the depot at both ends and only customers between.
pub open spec fn shape_ok(ctx: Ctx, s: Seq<u32>) -> bool {
    &&& seq_ok(ctx, s)
    &&& s.len() >= 2
    &&& s[0] == 0
    &&& s[s.len() - 1] == 0
    &&& forall|k: int| 0 < k < s.len() - 1 ==> #[trigger] s[k] != 0
}

/// The two sequences of a segment move between fitting routes have the shape
/// of routes the passes work on (the target when the move stays in one route).
proof fn lemma_moved_shape(ctx: Ctx, rs: Route, rt: Route, same: bool, sp: int, len: int, tp: int)
    requires
        route_fit(ctx, rs),
        route_fit(ctx, rt),
        same ==> rs == rt,
        1 <= len,
        1 <= sp,
        sp + len + 1 <= rs.seq@.len(),
        1 <= tp < rt.seq@.len(),
        same ==> tp < sp || tp > sp + len,
        !same ==> rt.seq@.len() + len <= LEN_LIMIT,
    ensures
        shape_ok(ctx, moved_seqs(rs.seq@, rt.seq@, same, sp, len, tp).0),
        shape_ok(ctx, moved_seqs(rs.seq@, rt.seq@, same, sp, len, tp).1),
{
    let os = rs.seq@;
    let ot = rt.seq@;
    let seg = os.subrange(sp, sp + len);
    let cut = cut32(os, sp, len);
    assert(seq_ok(ctx, os));
    assert(seq_ok(ctx, ot));
    assert forall|k: int| 0 <= k < cut.len() implies (#[trigger] cut[k] as int) < ctx.n && (0 < k < cut.len() - 1 ==> cut[k] != 0) by {
        if k < sp {
            assert(cut[k] == os[k]);
        } else {
            assert(cut[k] == os[k + len]);
        }
    }
    assert(cut[0] == os[0]);
    assert(cut[cut.len() - 1] == os[os.len() - 1]);
    let base = if same { cut } else { ot };
    let bp = if same { shift_seg(tp, sp, len) } else { tp };
    let tn = splice32(base, bp, seg);
    assert(moved_seqs(os, ot, same, sp, len, tp).1 == tn);
    if same {
        assert(1 <= bp < base.len());
    }
    assert forall|k: int| 0 <= k < tn.len() implies (#[trigger] tn[k] as int) < ctx.n && (0 < k < tn.len() - 1 ==> tn[k] != 0) by {
        if k < bp {
            assert(tn[k] == base[k]);
        } else if k < bp + len {
            assert(tn[k] == seg[k - bp]);
            assert(seg[k - bp] == os[sp + k - bp]);
        } else {
            assert(tn[k] == base[k - len]);
        }
    }
    assert(tn[0] == base[0]);
    assert(tn[tn.len() - 1] == base[base.len() - 1]);
}

/// Moves the `seg_len` nodes at `src_p` of route `src_ri` to position `tp` of
/// route `tri`, and keeps the move when the target route is then on time, and
/// the source route too when it is another one; the locator is rebuilt
/// either way.
/// Moving the `len` nodes at `sp` of route `src` to another route `tri` keeps
/// the target within the capacity (within one route there is nothing to check).
pub open spec fn seg_fits(ctx: Ctx, rs: Seq<Route>, src: int, sp: int, len: int, tri: int) -> bool {
    tri != src ==> demand_sum(ctx.demand@, nodes(rs[tri].seq@).subrange(1, rs[tri].seq@.len() as int))
        + demand_sum(ctx.demand@, nodes(rs[src].seq@).subrange(sp, sp + len)) <= ctx.cap
}

/// A segment move whose new routes are on time and whose target keeps the
/// capacity keeps feasible routes feasible, on an instance where the
/// feasibility laws apply.
proof fn lemma_seg_feasible(ctx: Ctx, before: Seq<Route>, after: Seq<Route>, src: int, sp: int, len: int, tri: int, tp: int)
    requires
        ctx.wf(),
        sn_inst_ok(ctx),
        sn_feasible(ctx, before),
        forall|r: int| 0 <= r < before.len() ==> #[trigger] route_fit(ctx, before[r]),
        forall|r: int| 0 <= r < after.len() ==> #[trigger] route_fit(ctx, after[r]),
        after.len() == before.len(),
        seg_move_ok(sn_nodes(before), src, sp, len, tri, tp),
        seg_fits(ctx, before, src, sp, len, tri),
        ({
            let ms = moved_seqs(before[src].seq@, before[tri].seq@, tri == src, sp, len, tp);
            &&& seq_on_time(ctx, ms.1)
            &&& (tri == src || seq_on_time(ctx, ms.0))
            &&& (tri == src ==> after[src].seq@ == ms.1)
            &&& (tri != src ==> after[src].seq@ == ms.0 && after[tri].seq@ == ms.1)
        }),
        forall|r: int| 0 <= r < after.len() && r != src && r != tri ==> #[trigger] after[r] == before[r],
    ensures
        sn_feasible(ctx, after),
{
    let os = before[src].seq@;
    let ot = before[tri].seq@;
    let ms = moved_seqs(os, ot, tri == src, sp, len, tp);
    let seg = os.subrange(sp, sp + len);
    let cut = cut32(os, sp, len);
    assert(route_fit(ctx, before[src]));
    assert(route_fit(ctx, before[tri]));
    assert(route_feasible(ctx, before[src]));
    assert(route_feasible(ctx, before[tri]));
    assert(sn_nodes(before)[src] == nodes(os));
    assert(sn_nodes(before)[tri] == nodes(ot));
    assert(seq_ok(ctx, os));
    assert(nodes(seg) =~= nodes(os).subrange(sp, sp + len));
    lemma_demand_cut(ctx, os, sp, len);
    assert(route_fit(ctx, after[src]));
    assert(route_fit(ctx, after[tri]));
    let dsum = |x: Seq<u32>| demand_sum(ctx.demand@, nodes(x).subrange(1, x.len() as int));
    assert(dsum(os) <= ctx.cap);
    assert(dsum(cut) + demand_sum(ctx.demand@, nodes(seg)) == dsum(os));
    if tri == src {
        let p2 = shift_seg(tp, sp, len);
        assert(ms.1 == splice32(cut, p2, seg));
        lemma_demand_splice(ctx, cut, p2, seg);
        assert(ms.1.len() == cut.len() + seg.len());
        assert(dsum(ms.1) == dsum(cut) + demand_sum(ctx.demand@, nodes(seg)));
        assert(after[src].demand_sum == dsum(ms.1));
        assert(route_feasible(ctx, after[src]));
    } else {
        lemma_demand_nonneg(ctx, nodes(os).subrange(sp, sp + len));
        assert(ms.1 == splice32(ot, tp, seg));
        assert(ms.0 == cut);
        lemma_demand_splice(ctx, ot, tp, seg);
        assert(ms.1.len() == ot.len() + seg.len());
        assert(dsum(ms.1) == dsum(ot) + demand_sum(ctx.demand@, nodes(seg)));
        assert(after[src].demand_sum == dsum(ms.0));
        assert(after[tri].demand_sum == dsum(ms.1));
        assert(route_feasible(ctx, after[src]));
        assert(route_feasible(ctx, after[tri]));
    }
    assert forall|r: int| 0 <= r < after.len() implies #[trigger] route_feasible(ctx, after[r]) by {
        if r != src && r != tri {
            assert(after[r] == before[r]);
        }
    }
}

fn apply_segment_move(ctx: &Ctx, sol: &mut Sol, loc: &mut Vec<NodeLoc>, src_ri: usize, src_p: usize, seg_len: usize, tri: usize, tp: usize) -> (ok: bool)
    requires
        ctx.wf(),
        sn_ok(*ctx, old(sol).routes@),
        loc_ok(old(sol).routes@, old(loc)@, ctx.n as int),
        seg_move_ok(sn_nodes(old(sol).routes@), src_ri as int, src_p as int, seg_len as int, tri as int, tp as int),
    ensures
        sn_ok(*ctx, final(sol).routes@),
        loc_ok(final(sol).routes@, final(loc)@, ctx.n as int),
        final(sol).total_dist == old(sol).total_dist,
        final(sol).routes@.len() == old(sol).routes@.len(),
        ok == ({
            let ms = moved_seqs(old(sol).routes@[src_ri as int].seq@, old(sol).routes@[tri as int].seq@, tri == src_ri, src_p as int, seg_len as int, tp as int);
            seq_on_time(*ctx, ms.1) && (tri == src_ri || seq_on_time(*ctx, ms.0))
        }),
        ok ==> sn_nodes(final(sol).routes@) == seg_moved(sn_nodes(old(sol).routes@), src_ri as int, src_p as int, seg_len as int, tri as int, tp as int),
        !ok ==> sn_nodes(final(sol).routes@) == sn_nodes(old(sol).routes@),
        !ok ==> final(sol).routes@ == old(sol).routes@,
        loc_exact(final(sol).routes@, final(loc)@),
        sn_inst_ok(*ctx) && sn_feasible(*ctx, old(sol).routes@) && seg_fits(*ctx, old(sol).routes@, src_ri as int, src_p as int, seg_len as int, tri as int)
            ==> sn_feasible(*ctx, final(sol).routes@),
{
    let ghost before = sol.routes@;
    let ghost rs = sn_nodes(before);
    let ghost os = before[src_ri as int].seq@;
    let ghost ot = before[tri as int].seq@;
    let ghost ms = moved_seqs(os, ot, tri == src_ri, src_p as int, seg_len as int, tp as int);
    proof {
        assert(route_fit(*ctx, before[src_ri as int]));
        assert(route_fit(*ctx, before[tri as int]));
        assert(seq_ok(*ctx, os));
        assert(seq_ok(*ctx, ot));
        assert(rs[src_ri as int] == nodes(os));
        assert(rs[tri as int] == nodes(ot));
        lemma_seg_moved(ctx.d@, rs, src_ri as int, src_p as int, seg_len as int, tri as int, tp as int);
        lemma_total_nodes(rs, 0, rs[0]);
        if src_ri < tri {
            assert(rs[src_ri as int].len() + rs[tri as int].len() <= total_nodes(rs));
        } else if tri < src_ri {
            assert(rs[tri as int].len() + rs[src_ri as int].len() <= total_nodes(rs));
        }
        if tri == src_ri {
            assert(seg_moved(rs, src_ri as int, src_p as int, seg_len as int, tri as int, tp as int)[src_ri as int] == nodes(ms.1)) by {
                lemma_nodes_cut_splice(os, src_p as int, seg_len as int, cut32(os, src_p as int, seg_len as int), shift_seg(tp as int, src_p as int, seg_len as int), os.subrange(src_p as int, src_p + seg_len));
            }
        } else {
            lemma_nodes_cut_splice(os, src_p as int, seg_len as int, ot, tp as int, os.subrange(src_p as int, src_p + seg_len));
            assert(seg_moved(rs, src_ri as int, src_p as int, seg_len as int, tri as int, tp as int)[src_ri as int] == nodes(ms.0));
            assert(seg_moved(rs, src_ri as int, src_p as int, seg_len as int, tri as int, tp as int)[tri as int] == nodes(ms.1));
        }
    }
    let seg = copy_range(&sol.routes[src_ri].seq, src_p, src_p + seg_len);
    let cut = join_parts(&sol.routes[src_ri].seq, src_p, &sol.routes[src_ri].seq, src_p + seg_len);
    let adj_p = if tri == src_ri && tp > src_p { tp - seg_len } else { tp };
    let target_nodes = if tri == src_ri { splice_nodes(&cut, adj_p, &seg) } else { splice_nodes(&sol.routes[tri].seq, tp, &seg) };
    proof {
        assert(cut@ =~= ms.0);
        assert(target_nodes@ =~= ms.1);
        lemma_moved_shape(*ctx, before[src_ri as int], before[tri as int], tri == src_ri, src_p as int, seg_len as int, tp as int);
    }
    let new_t = route_of(ctx, target_nodes);
    let new_s = route_of(ctx, cut);
    proof {
        lemma_on_time(*ctx, new_t);
        lemma_on_time(*ctx, new_s);
    }
    let ok = new_t.is_feasible(ctx) && (tri == src_ri || new_s.is_feasible(ctx));
    if ok {
        if tri == src_ri {
            sol.routes.set(src_ri, new_t);
            proof {
                lemma_sn_nodes_update(before, src_ri as int, new_t);
            }
        } else {
            sol.routes.set(src_ri, new_s);
            let ghost mid = sol.routes@;
            sol.routes.set(tri, new_t);
            proof {
                lemma_sn_nodes_update(before, src_ri as int, new_s);
                lemma_sn_nodes_update(mid, tri as int, new_t);
            }
        }
        proof {
            assert(sn_nodes(sol.routes@) == seg_moved(rs, src_ri as int, src_p as int, seg_len as int, tri as int, tp as int));
            assert forall|r: int| 0 <= r < sol.routes@.len() implies #[trigger] route_fit(*ctx, sol.routes@[r]) by {
                if r != src_ri && r != tri {
                    assert(sol.routes@[r] == before[r]);
                }
            }
            lemma_sn_locatable(*ctx, sol.routes@);
            if sn_inst_ok(*ctx) && sn_feasible(*ctx, before) && seg_fits(*ctx, before, src_ri as int, src_p as int, seg_len as int, tri as int) {
                assert forall|r: int| 0 <= r < before.len() implies #[trigger] route_fit(*ctx, before[r]) by {}
                assert forall|r: int| 0 <= r < sol.routes@.len() && r != src_ri && r != tri implies #[trigger] sol.routes@[r] == before[r] by {}
                lemma_seg_feasible(*ctx, before, sol.routes@, src_ri as int, src_p as int, seg_len as int, tri as int, tp as int);
            }
        }
        rebuild_locator(ctx, sol, loc);
        proof {
            lemma_rebuilt_ok(*ctx, sol.routes@, loc@);
        }
        true
    } else {
        proof {
            lemma_sn_locatable(*ctx, sol.routes@);
        }
        rebuild_locator(ctx, sol, loc);
        proof {
            lemma_rebuilt_ok(*ctx, sol.routes@, loc@);
        }
        false
    }
}

/// Every entry of the locator is the one `rebuild_locator` gives.
pub open spec fn loc_exact(rs: Seq<Route>, loc: Seq<NodeLoc>) -> bool {
    forall|u: int| 0 <= u < loc.len() ==> #[trigger] locates(rs, u as usize, loc[u])
}

/// A locator entry is determined by the routes.
proof fn lemma_locates_unique(rs: Seq<Route>, u: usize, l1: NodeLoc, l2: NodeLoc)
    requires
        locates(rs, u, l1),
        locates(rs, u, l2),
    ensures
        l1 == l2,
{
    let n = rs.len() as int;
    if u != 0 && seen(rs, n, 0, u) {
        let (r1, q1) = (l1.route as int, l1.pos as int);
        let (r2, q2) = (l2.route as int, l2.pos as int);
        assert(last_seen(rs, n, 0, u, r1, q1));
        assert(last_seen(rs, n, 0, u, r2, q2));
        if r1 < r2 || r1 == r2 && q1 < q2 {
            assert(rs[r2].seq@[q2] as usize == u);
            assert(false);
        } else if r2 < r1 || r2 == r1 && q2 < q1 {
            assert(rs[r1].seq@[q1] as usize == u);
            assert(false);
        }
    }
}

/// Two exact locators of the same routes are equal.
proof fn lemma_loc_exact_unique(rs: Seq<Route>, a: Seq<NodeLoc>, b: Seq<NodeLoc>)
    requires
        loc_exact(rs, a),
        loc_exact(rs, b),
        a.len() == b.len(),
    ensures
        a == b,
{
    assert forall|u: int| 0 <= u < a.len() implies a[u] == b[u] by {
        assert(locates(rs, u as usize, a[u]));
        assert(locates(rs, u as usize, b[u]));
        lemma_locates_unique(rs, u as usize, a[u], b[u]);
    }
    assert(a =~= b);
}

/// After moving the segment to candidate `(kb, tb)`, the changed routes are on
/// time.
pub open spec fn seg_move_on_time(ctx: Ctx, rs: Seq<Route>, loc: Seq<NodeLoc>, sri: int, sp: int, len: int, kb: int, tb: int) -> bool {
    let vl = seg_loc(ctx, rs, loc, sri, sp, kb);
    let tri = vl.route as int;
    let ms = moved_seqs(rs[sri].seq@, rs[tri].seq@, tri == sri, sp, len, vl.pos + tb);
    seq_on_time(ctx, ms.1) && (tri == sri || seq_on_time(ctx, ms.0))
}

/// The segment of `len` nodes at `sp` of route `sri` has been tried: no gap
/// shortens the solution, or the best one leaves a changed route late.
pub open spec fn seg_done(ctx: Ctx, rs: Seq<Route>, loc: Seq<NodeLoc>, sri: int, sp: int, len: int) -> bool {
    seg_none(ctx, rs, loc, sri, sp, len)
        || exists|kb: int, tb: int| #[trigger] seg_first_best(ctx, rs, loc, sri, sp, len, kb, tb)
            && !seg_move_on_time(ctx, rs, loc, sri, sp, len, kb, tb)
}

/// One segment-move sweep over the customers in number order: for a
/// customer on a route, segments of one, two and three nodes starting at it
/// (while they end before the route's last node) are tried in turn; the best
/// target (`best_segment_target`) is taken when it shortens the solution and
/// the changed routes are on time (`apply_segment_move`), and then the
/// customer's turn ends.
pub fn or_opt_pass(ctx: &Ctx, sol: &mut Sol, loc: &mut Vec<NodeLoc>) -> (improved: bool)
    requires
        ctx.wf(),
        sn_ok(*ctx, old(sol).routes@),
        loc_ok(old(sol).routes@, old(loc)@, ctx.n as int),
    ensures
        sn_ok(*ctx, final(sol).routes@),
        loc_ok(final(sol).routes@, final(loc)@, ctx.n as int),
        final(sol).routes@.len() == old(sol).routes@.len(),
        final(sol).total_dist == old(sol).total_dist,
        all_custs(sn_nodes(final(sol).routes@)) == all_custs(sn_nodes(old(sol).routes@)),
        total_len(ctx.d@, sn_nodes(final(sol).routes@)) <= total_len(ctx.d@, sn_nodes(old(sol).routes@)),
        improved ==> total_len(ctx.d@, sn_nodes(final(sol).routes@)) < total_len(ctx.d@, sn_nodes(old(sol).routes@)),
        !improved ==> sn_nodes(final(sol).routes@) == sn_nodes(old(sol).routes@),
        !improved ==> final(sol).routes@ == old(sol).routes@,
        !improved && loc_exact(old(sol).routes@, old(loc)@) ==> final(loc)@ == old(loc)@
            && forall|w: int, len: int| 1 <= w < ctx.n && final(loc)@[w].route != u32::MAX && 1 <= len <= 3
                && final(loc)@[w].pos + len + 1 <= final(sol).routes@[final(loc)@[w].route as int].seq@.len() ==>
                #[trigger] seg_done(*ctx, final(sol).routes@, final(loc)@, final(loc)@[w].route as int, final(loc)@[w].pos as int, len),
        sn_inst_ok(*ctx) && sn_feasible(*ctx, old(sol).routes@) ==> sn_feasible(*ctx, final(sol).routes@),
{
    let ghost rs0 = sn_nodes(sol.routes@);
    let ghost dm = ctx.d@;
    let ghost ex0 = loc_exact(sol.routes@, loc@);
    let mut improved = false;
    let mut u: usize = 1;
    while u < ctx.n
        invariant
            ctx.wf(),
            dm == ctx.d@,
            sn_ok(*ctx, sol.routes@),
            loc_ok(sol.routes@, loc@, ctx.n as int),
            sol.routes@.len() == old(sol).routes@.len(),
            sol.total_dist == old(sol).total_dist,
            1 <= u,
            rs0 == sn_nodes(old(sol).routes@),
            all_custs(sn_nodes(sol.routes@)) == all_custs(rs0),
            total_len(dm, sn_nodes(sol.routes@)) <= total_len(dm, rs0),
            improved ==> total_len(dm, sn_nodes(sol.routes@)) < total_len(dm, rs0),
            !improved ==> sn_nodes(sol.routes@) == rs0,
            !improved ==> sol.routes@ == old(sol).routes@,
            ex0 == loc_exact(old(sol).routes@, old(loc)@),
            !improved && ex0 ==> loc@ == old(loc)@,
            loc@.len() == old(loc)@.len(),
            sn_inst_ok(*ctx) && sn_feasible(*ctx, old(sol).routes@) ==> sn_feasible(*ctx, sol.routes@),
            !improved && ex0 ==> forall|w: int, len: int| 1 <= w < u && w < ctx.n && loc@[w].route != u32::MAX && 1 <= len <= 3
                && loc@[w].pos + len + 1 <= sol.routes@[loc@[w].route as int].seq@.len() ==>
                #[trigger] seg_done(*ctx, sol.routes@, loc@, loc@[w].route as int, loc@[w].pos as int, len),
        decreases ctx.n - u,
    {
        let ul = loc[u];
        if ul.route != u32::MAX {
            let src_ri = ul.route as usize;
            let src_p = ul.pos as usize;
            proof {
                assert(points_at(sol.routes@, loc@[u as int], u as int));
                assert(route_fit(*ctx, sol.routes@[src_ri as int]));
            }
            proof {
                assert(seq_ok(*ctx, sol.routes@[src_ri as int].seq@));
            }
            let src_len = sol.routes[src_ri].len();
            let ghost rs_u = sn_nodes(sol.routes@);
            let mut seg_len: usize = 1;
            while seg_len <= 3
                invariant_except_break
                    sn_nodes(sol.routes@) == rs_u,
                    src_ri < sol.routes@.len(),
                    src_len == sol.routes@[src_ri as int].seq@.len(),
                invariant
                    ctx.wf(),
                    dm == ctx.d@,
                    sn_ok(*ctx, sol.routes@),
                    loc_ok(sol.routes@, loc@, ctx.n as int),
                    sol.routes@.len() == old(sol).routes@.len(),
                    sol.total_dist == old(sol).total_dist,
                    rs0 == sn_nodes(old(sol).routes@),
                    all_custs(sn_nodes(sol.routes@)) == all_custs(rs0),
                    total_len(dm, sn_nodes(sol.routes@)) <= total_len(dm, rs0),
                    improved ==> total_len(dm, sn_nodes(sol.routes@)) < total_len(dm, rs0),
                    !improved ==> sn_nodes(sol.routes@) == rs0,
                    1 <= seg_len <= 4,
                    1 <= src_p < LEN_LIMIT,
                    !improved ==> sol.routes@ == old(sol).routes@,
                    ex0 == loc_exact(old(sol).routes@, old(loc)@),
                    !improved && ex0 ==> loc@ == old(loc)@,
                    loc@.len() == old(loc)@.len(),
                    !improved && ex0 ==> forall|w: int, len: int| 1 <= w < u && w < ctx.n && loc@[w].route != u32::MAX && 1 <= len <= 3
                        && loc@[w].pos + len + 1 <= sol.routes@[loc@[w].route as int].seq@.len() ==>
                        #[trigger] seg_done(*ctx, sol.routes@, loc@, loc@[w].route as int, loc@[w].pos as int, len),
                    u < ctx.n,
                    !improved && ex0 ==> loc@[u as int].route as usize == src_ri && loc@[u as int].pos as usize == src_p,
                    !improved ==> src_len == sol.routes@[src_ri as int].seq@.len(),
                    !improved && ex0 ==> forall|len: int| 1 <= len < seg_len && src_p + len + 1 <= src_len ==>
                        #[trigger] seg_done(*ctx, sol.routes@, loc@, src_ri as int, src_p as int, len),
                    sn_inst_ok(*ctx) && sn_feasible(*ctx, old(sol).routes@) ==> sn_feasible(*ctx, sol.routes@),
                ensures
                    sn_inst_ok(*ctx) && sn_feasible(*ctx, old(sol).routes@) ==> sn_feasible(*ctx, sol.routes@),
                    !improved && ex0 ==> forall|len: int| 1 <= len <= 3 && src_p + len + 1 <= src_len ==>
                        #[trigger] seg_done(*ctx, sol.routes@, loc@, src_ri as int, src_p as int, len),
                    sn_ok(*ctx, sol.routes@),
                    loc_ok(sol.routes@, loc@, ctx.n as int),
                    sol.routes@.len() == old(sol).routes@.len(),
                    sol.total_dist == old(sol).total_dist,
                    all_custs(sn_nodes(sol.routes@)) == all_custs(rs0),
                    total_len(dm, sn_nodes(sol.routes@)) <= total_len(dm, rs0),
                    improved ==> total_len(dm, sn_nodes(sol.routes@)) < total_len(dm, rs0),
                    !improved ==> sn_nodes(sol.routes@) == rs0,
                    !improved ==> sol.routes@ == old(sol).routes@,
                    ex0 == loc_exact(old(sol).routes@, old(loc)@),
                    !improved && ex0 ==> loc@ == old(loc)@,
                    loc@.len() == old(loc)@.len(),
                    !improved && ex0 ==> forall|w: int, len: int| 1 <= w < u && w < ctx.n && loc@[w].route != u32::MAX && 1 <= len <= 3
                        && loc@[w].pos + len + 1 <= sol.routes@[loc@[w].route as int].seq@.len() ==>
                        #[trigger] seg_done(*ctx, sol.routes@, loc@, loc@[w].route as int, loc@[w].pos as int, len),
                decreases 4 - seg_len,
            {
                if src_p + seg_len + 1 > src_len {
                    break;
                }
                proof {
                    assert(sn_nodes(sol.routes@)[src_ri as int] == nodes(sol.routes@[src_ri as int].seq@));
                }
                let (best_delta, best_tri, best_tp) = best_segment_target(ctx, sol, loc, src_ri, src_p, seg_len);
                if best_tri != usize::MAX && best_delta < 0 {
                    proof {
                        lemma_seg_moved(dm, sn_nodes(sol.routes@), src_ri as int, src_p as int, seg_len as int, best_tri as int, best_tp as int);
                    }
                    let ghost rs_b = sol.routes@;
                    let ghost loc_b = loc@;
                    proof {
                        let (kb, tb) = choose|kb: int, tb: int| #[trigger] seg_first_best(*ctx, rs_b, loc_b, src_ri as int, src_p as int, seg_len as int, kb, tb)
                            && seg_loc(*ctx, rs_b, loc_b, src_ri as int, src_p as int, kb).route == best_tri
                            && seg_loc(*ctx, rs_b, loc_b, src_ri as int, src_p as int, kb).pos + tb == best_tp;
                        assert(seg_cand(*ctx, rs_b, loc_b, src_ri as int, src_p as int, seg_len as int, kb, tb));
                        assert(seg_fits(*ctx, rs_b, src_ri as int, src_p as int, seg_len as int, best_tri as int));
                    }
                    let ok = apply_segment_move(ctx, sol, loc, src_ri, src_p, seg_len, best_tri, best_tp);
                    if ok {
                        improved = true;
                        break;
                    }
                    proof {
                        if !improved && ex0 {
                            lemma_loc_exact_unique(sol.routes@, loc@, loc_b);
                            let (kb, tb) = choose|kb: int, tb: int| #[trigger] seg_first_best(*ctx, rs_b, loc_b, src_ri as int, src_p as int, seg_len as int, kb, tb)
                                && seg_loc(*ctx, rs_b, loc_b, src_ri as int, src_p as int, kb).route == best_tri
                                && seg_loc(*ctx, rs_b, loc_b, src_ri as int, src_p as int, kb).pos + tb == best_tp;
                            assert(!seg_move_on_time(*ctx, rs_b, loc_b, src_ri as int, src_p as int, seg_len as int, kb, tb));
                            assert(seg_done(*ctx, sol.routes@, loc@, src_ri as int, src_p as int, seg_len as int));
                        }
                    }
                    proof {
                        assert forall|r: int| 0 <= r < sol.routes@.len() implies #[trigger] sol.routes@[r].seq@.len() == sn_nodes(sol.routes@)[r].len() by {}
                        assert(sol.routes@[src_ri as int].seq@.len() == rs_u[src_ri as int].len());
                    }
                } else {
                    proof {
                        if !improved && ex0 {
                            assert(seg_done(*ctx, sol.routes@, loc@, src_ri as int, src_p as int, seg_len as int));
                        }
                    }
                }
                proof {
                    if !improved && ex0 {
                        assert forall|len: int| 1 <= len < seg_len + 1 && src_p + len + 1 <= src_len implies
                            #[trigger] seg_done(*ctx, sol.routes@, loc@, src_ri as int, src_p as int, len) by {
                        }
                    }
                }
                seg_len += 1;
            }
        }
        proof {
            if !improved && ex0 {
                assert forall|w: int, len: int| 1 <= w < u + 1 && w < ctx.n && loc@[w].route != u32::MAX && 1 <= len <= 3
                    && loc@[w].pos + len + 1 <= sol.routes@[loc@[w].route as int].seq@.len() implies
                    #[trigger] seg_done(*ctx, sol.routes@, loc@, loc@[w].route as int, loc@[w].pos as int, len) by {
                }
            }
        }
        u += 1;
    }
    improved
}

/// With exact tables, the recorded lengths add up to the total length, which
/// is at most `VALUE_LIMIT` per node.
pub(crate) proof fn lemma_dist_sum(ctx: Ctx, rs: Seq<Route>)
    requires
        ctx.wf(),
        forall|r: int| 0 <= r < rs.len() ==> #[trigger] route_fit(ctx, rs[r]),
    ensures
        dist_sum(rs) == total_len(ctx.d@, sn_nodes(rs)),
        0 <= dist_sum(rs) <= crate::model::VALUE_LIMIT * total_nodes(sn_nodes(rs)),
    decreases rs.len(),
{
    if rs.len() > 0 {
        let rest = rs.drop_last();
        assert forall|r: int| 0 <= r < rest.len() implies #[trigger] route_fit(ctx, rest[r]) by {
            assert(route_fit(ctx, rs[r]));
        }
        lemma_dist_sum(ctx, rest);
        assert(sn_nodes(rs).drop_last() =~= sn_nodes(rest));
        let last = rs.last();
        assert(route_fit(ctx, rs[rs.len() - 1]));
        assert(seq_ok(ctx, last.seq@));
        assert(sn_nodes(rs).last() == nodes(last.seq@));
        assert(crate::model::nodes_below(nodes(last.seq@), ctx.d@.len() as int));
        lemma_route_len_upper(ctx.d@, nodes(last.seq@));
        lemma_route_len_nonneg(ctx.d@, nodes(last.seq@));
    }
}

/// Every prefix of the recorded lengths fits in an `i32`.
pub(crate) proof fn lemma_dist_prefixes(ctx: Ctx, rs: Seq<Route>)
    requires
        ctx.wf(),
        sn_ok(ctx, rs),
    ensures
        forall|k: int| 0 <= k <= rs.len() ==> 0 <= #[trigger] dist_sum(rs.subrange(0, k)) <= i32::MAX,
{
    assert forall|k: int| 0 <= k <= rs.len() implies 0 <= #[trigger] dist_sum(rs.subrange(0, k)) <= i32::MAX by {
        let pre = rs.subrange(0, k);
        assert forall|r: int| 0 <= r < pre.len() implies #[trigger] route_fit(ctx, pre[r]) by {
            assert(route_fit(ctx, rs[r]));
        }
        lemma_dist_sum(ctx, pre);
        lemma_total_nodes_prefix(sn_nodes(rs), k);
        assert(sn_nodes(pre) =~= sn_nodes(rs).subrange(0, k));
    }
}

/// A prefix of a route list has at most as many nodes.
proof fn lemma_total_nodes_prefix(rs: Seq<Seq<usize>>, k: int)
    requires
        0 <= k <= rs.len(),
    ensures
        0 <= total_nodes(rs.subrange(0, k)) <= total_nodes(rs),
    decreases rs.len(),
{
    if k < rs.len() {
        assert(rs.drop_last().subrange(0, k) =~= rs.subrange(0, k));
        lemma_total_nodes_prefix(rs.drop_last(), k);
    } else {
        assert(rs.subrange(0, k) =~= rs);
        if rs.len() > 0 {
            lemma_total_nodes_prefix(rs.drop_last(), k - 1);
            assert(rs.drop_last().subrange(0, k - 1) =~= rs.drop_last());
        }
    }
}

/// Dropping the routes without customers keeps the others, fitting, with all
/// the customers and no more nodes.
pub(crate) proof fn lemma_kept(ctx: Ctx, rs: Seq<Route>)
    requires
        forall|r: int| 0 <= r < rs.len() ==> #[trigger] route_fit(ctx, rs[r]),
    ensures
        sn_nodes(kept_routes(rs)) == keep_nonempty(sn_nodes(rs)),
        forall|r: int| 0 <= r < kept_routes(rs).len() ==> #[trigger] route_fit(ctx, kept_routes(rs)[r]),
        forall|r: int| 0 <= r < kept_routes(rs).len() ==> (#[trigger] kept_routes(rs)[r]).seq@.len() > 2,
        kept_routes(rs).len() <= rs.len(),
        total_nodes(sn_nodes(kept_routes(rs))) <= total_nodes(sn_nodes(rs)),
        all_custs(sn_nodes(kept_routes(rs))) == all_custs(sn_nodes(rs)),
    decreases rs.len(),
{
    if rs.len() > 0 {
        let rest = rs.drop_last();
        assert forall|r: int| 0 <= r < rest.len() implies #[trigger] route_fit(ctx, rest[r]) by {
            assert(route_fit(ctx, rs[r]));
        }
        lemma_kept(ctx, rest);
        assert(sn_nodes(rs).drop_last() =~= sn_nodes(rest));
        assert(route_fit(ctx, rs[rs.len() - 1]));
        assert(sn_nodes(rs).last() == nodes(rs.last().seq@));
        if rs.last().seq@.len() > 2 {
            assert(sn_nodes(kept_routes(rs)) =~= sn_nodes(kept_routes(rest)).push(nodes(rs.last().seq@)));
            assert forall|r: int| 0 <= r < kept_routes(rs).len() implies #[trigger] route_fit(ctx, kept_routes(rs)[r]) && kept_routes(rs)[r].seq@.len() > 2 by {
                if r < kept_routes(rest).len() {
                    assert(kept_routes(rs)[r] == kept_routes(rest)[r]);
                }
            }
            assert(sn_nodes(kept_routes(rs)).drop_last() =~= sn_nodes(kept_routes(rest)));
        } else {
            assert(nodes(rs.last().seq@).len() <= 2);
        }
        assert(crate::algorithm::short_routes_empty(sn_nodes(rs))) by {
            assert forall|i: int, k: int| 0 <= i < sn_nodes(rs).len() && sn_nodes(rs)[i].len() <= 2 && 0 <= k < sn_nodes(rs)[i].len()
                implies #[trigger] sn_nodes(rs)[i][k] == 0 by {
                assert(route_fit(ctx, rs[i]));
            }
        }
        lemma_keep_nonempty_custs(sn_nodes(rs));
    }
}

/// A copy of a list of `i32` values.
fn copy_i32s(v: &Vec<i32>) -> (res: Vec<i32>)
    ensures
        res@ == v@,
{
    let mut out: Vec<i32> = Vec::new();
    let mut k: usize = 0;
    while k < v.len()
        invariant
            k <= v@.len(),
            out@ == v@.subrange(0, k as int),
        decreases v.len() - k,
    {
        out.push(v[k]);
        k += 1;
        assert(out@ =~= v@.subrange(0, k as int));
    }
    assert(v@.subrange(0, k as int) =~= v@);
    out
}

/// A copy of a route, tables included.
fn copy_route(r: &Route) -> (c: Route)
    ensures
        c.seq@ == r.seq@,
        c.arr@ == r.arr@,
        c.lat@ == r.lat@,
        c.demand_sum == r.demand_sum,
        c.dist == r.dist,
{
    let seq = copy_range(&r.seq, 0, r.seq.len());
    assert(r.seq@.subrange(0, r.seq@.len() as int) =~= r.seq@);
    Route { seq, arr: copy_i32s(&r.arr), lat: copy_i32s(&r.lat), demand_sum: r.demand_sum, dist: r.dist }
}

/// A copy of a solution.
pub(crate) fn copy_sol(sol: &Sol, ctx: &Ctx) -> (c: Sol)
    requires
        sn_ok(*ctx, sol.routes@),
    ensures
        sn_ok(*ctx, c.routes@),
        sn_nodes(c.routes@) == sn_nodes(sol.routes@),
        c.routes@.len() == sol.routes@.len(),
        forall|r: int| 0 <= r < c.routes@.len() ==> (#[trigger] c.routes@[r]).seq@ == sol.routes@[r].seq@,
        c.total_dist == sol.total_dist,
{
    let mut routes: Vec<Route> = Vec::new();
    let mut i: usize = 0;
    while i < sol.routes.len()
        invariant
            sn_ok(*ctx, sol.routes@),
            i <= sol.routes@.len(),
            routes@.len() == i,
            forall|r: int| 0 <= r < i ==> (#[trigger] routes@[r]).seq@ == sol.routes@[r].seq@,
            forall|r: int| 0 <= r < i ==> #[trigger] route_fit(*ctx, routes@[r]),
        decreases sol.routes.len() - i,
    {
        let c = copy_route(&sol.routes[i]);
        proof {
            assert(route_fit(*ctx, sol.routes@[i as int]));
        }
        routes.push(c);
        i += 1;
    }
    let c = Sol { routes, total_dist: sol.total_dist };
    assert(sn_nodes(c.routes@) =~= sn_nodes(sol.routes@));
    c
}

/// The node sequences of the routes.
pub open spec fn sn_seqs(rs: Seq<Route>) -> Seq<Seq<u32>> {
    Seq::new(rs.len(), |i: int| rs[i].seq@)
}

/// `u` may go at position `p` of route `r`, a route with customers: the demand
/// fits and every arrival stays on time.
pub open spec fn elim_slot(ctx: Ctx, ss: Seq<Seq<u32>>, u: usize, r: int, p: int) -> bool {
    &&& 0 <= r < ss.len()
    &&& ss[r].len() > 2
    &&& 1 <= p < ss[r].len()
    &&& fits_seq(ctx, ss[r], u, p)
}

/// The change of length when `u` goes at position `p` of route `r`.
pub open spec fn slot_cost(ctx: Ctx, ss: Seq<Seq<u32>>, u: usize, r: int, p: int) -> int {
    let a = ss[r][p - 1] as usize;
    let b = ss[r][p] as usize;
    dd(ctx.d@, a, u) + dd(ctx.d@, u, b) - dd(ctx.d@, a, b)
}

/// `(r, p)` is the first cheapest slot for `u`, by route then position.
pub open spec fn best_slot(ctx: Ctx, ss: Seq<Seq<u32>>, u: usize, r: int, p: int) -> bool {
    &&& elim_slot(ctx, ss, u, r, p)
    &&& forall|r2: int, p2: int| #[trigger] elim_slot(ctx, ss, u, r2, p2) ==> slot_cost(ctx, ss, u, r, p) <= slot_cost(ctx, ss, u, r2, p2)
    &&& forall|r2: int, p2: int| before_place(r, p, r2, p2) && #[trigger] elim_slot(ctx, ss, u, r2, p2)
        ==> slot_cost(ctx, ss, u, r, p) < slot_cost(ctx, ss, u, r2, p2)
}

/// The cheapest place for `u` over the routes with customers and their gaps,
/// as `try_insert` prices it, the first of equals: its cost, route
/// (`usize::MAX` for none) and position.
fn best_insertion(ctx: &Ctx, sol: &Sol, u: usize) -> (res: (i32, usize, usize))
    requires
        ctx.wf(),
        sn_ok(*ctx, sol.routes@),
        (u as int) < ctx.n,
    ensures
        res.1 != usize::MAX ==> {
            &&& res.1 < sol.routes@.len()
            &&& sol.routes@[res.1 as int].seq@.len() > 2
            &&& 1 <= res.2 < sol.routes@[res.1 as int].seq@.len()
            &&& best_slot(*ctx, sn_seqs(sol.routes@), u, res.1 as int, res.2 as int)
        },
        res.1 == usize::MAX ==> forall|r: int, p: int| !#[trigger] elim_slot(*ctx, sn_seqs(sol.routes@), u, r, p),
{
    let ghost ss = sn_seqs(sol.routes@);
    let mut bd: i32 = i32::MAX;
    let mut br: usize = usize::MAX;
    let mut bp: usize = 0;
    let mut r2i: usize = 0;
    while r2i < sol.routes.len()
        invariant
            ctx.wf(),
            sn_ok(*ctx, sol.routes@),
            ss == sn_seqs(sol.routes@),
            (u as int) < ctx.n,
            r2i <= sol.routes@.len(),
            br != usize::MAX ==> {
                &&& br < sol.routes@.len()
                &&& sol.routes@[br as int].seq@.len() > 2
                &&& 1 <= bp < sol.routes@[br as int].seq@.len()
                &&& elim_slot(*ctx, ss, u, br as int, bp as int)
                &&& bd == slot_cost(*ctx, ss, u, br as int, bp as int)
                &&& forall|r2: int, p2: int| r2 < r2i && #[trigger] elim_slot(*ctx, ss, u, r2, p2) ==> bd <= slot_cost(*ctx, ss, u, r2, p2)
                &&& forall|r2: int, p2: int| before_place(br as int, bp as int, r2, p2) && #[trigger] elim_slot(*ctx, ss, u, r2, p2)
                    ==> bd < slot_cost(*ctx, ss, u, r2, p2)
            },
            br == usize::MAX ==> bd == i32::MAX && forall|r2: int, p2: int| r2 < r2i ==> !#[trigger] elim_slot(*ctx, ss, u, r2, p2),
        decreases sol.routes.len() - r2i,
    {
        let r = &sol.routes[r2i];
        proof {
            assert(route_fit(*ctx, sol.routes@[r2i as int]));
            assert(ss[r2i as int] == r.seq@);
        }
        if r.num_customers() != 0 {
            let mut p: usize = 1;
            while p < r.len()
                invariant
                    ctx.wf(),
                    sn_ok(*ctx, sol.routes@),
                    ss == sn_seqs(sol.routes@),
                    (u as int) < ctx.n,
                    r2i < sol.routes@.len(),
                    *r == sol.routes@[r2i as int],
                    ss[r2i as int] == r.seq@,
                    route_fit(*ctx, *r),
                    r.seq@.len() > 2,
                    1 <= p <= r.seq@.len(),
                    br != usize::MAX ==> {
                        &&& br < sol.routes@.len()
                        &&& sol.routes@[br as int].seq@.len() > 2
                        &&& 1 <= bp < sol.routes@[br as int].seq@.len()
                        &&& elim_slot(*ctx, ss, u, br as int, bp as int)
                        &&& bd == slot_cost(*ctx, ss, u, br as int, bp as int)
                        &&& forall|r2: int, p2: int| before_place(r2i as int, p as int, r2, p2) && #[trigger] elim_slot(*ctx, ss, u, r2, p2)
                            ==> bd <= slot_cost(*ctx, ss, u, r2, p2)
                        &&& forall|r2: int, p2: int| before_place(br as int, bp as int, r2, p2) && #[trigger] elim_slot(*ctx, ss, u, r2, p2)
                            ==> bd < slot_cost(*ctx, ss, u, r2, p2)
                    },
                    br == usize::MAX ==> bd == i32::MAX && forall|r2: int, p2: int| before_place(r2i as int, p as int, r2, p2) ==> !#[trigger] elim_slot(*ctx, ss, u, r2, p2),
                decreases r.seq@.len() - p,
            {
                let t = r.try_insert(ctx, u, p);
                proof {
                    let a = r.seq@[p - 1] as usize;
                    let b = r.seq@[p as int] as usize;
                    assert(crate::model::in_limit(ctx.d@[a as int]@[u as int]));
                    assert(crate::model::in_limit(ctx.d@[u as int]@[b as int]));
                    assert(crate::model::in_limit(ctx.d@[a as int]@[b as int]));
                    assert(t is Some <==> elim_slot(*ctx, ss, u, r2i as int, p as int));
                }
                match t {
                    Some(d) => {
                        assert(d == slot_cost(*ctx, ss, u, r2i as int, p as int));
                        if d < bd {
                            bd = d;
                            br = r2i;
                            bp = p;
                        }
                    },
                    None => {},
                }
                p += 1;
            }
        } else {
            proof {
                assert forall|p2: int| !#[trigger] elim_slot(*ctx, ss, u, r2i as int, p2) by {}
            }
        }
        r2i += 1;
    }
    (bd, br, bp)
}

/// `u` stands at position `p` of route `r`.
pub open spec fn occurs_at(ss: Seq<Seq<u32>>, u: usize, r: int, p: int) -> bool {
    0 <= r < ss.len() && 0 <= p < ss[r].len() && ss[r][p] as usize == u
}

/// The routes with the node at position `p` of route `r` taken out.
pub open spec fn taken_out(ss: Seq<Seq<u32>>, r: int, p: int) -> Seq<Seq<u32>> {
    ss.update(r, ss[r].remove(p))
}

/// `u`, taken out of a place where it stands, goes to its first cheapest slot in
/// what is left, giving `out`.
pub open spec fn moved_to_best(ctx: Ctx, ss: Seq<Seq<u32>>, u: usize, out: Seq<Seq<u32>>) -> bool {
    exists|sr: int, sp: int, br: int, bp: int|
        #![trigger occurs_at(ss, u, sr, sp), best_slot(ctx, taken_out(ss, sr, sp), u, br, bp)]
        occurs_at(ss, u, sr, sp) && best_slot(ctx, taken_out(ss, sr, sp), u, br, bp)
            && out == taken_out(ss, sr, sp).update(br, taken_out(ss, sr, sp)[br].insert(bp, u as u32))
}

/// `u` cannot be put back: it stands nowhere, or, taken out of where it stands,
/// it has no slot left.
pub open spec fn stuck(ctx: Ctx, ss: Seq<Seq<u32>>, u: usize) -> bool {
    ||| forall|r: int, p: int| !#[trigger] occurs_at(ss, u, r, p)
    ||| exists|sr: int, sp: int| #[trigger] occurs_at(ss, u, sr, sp)
        && forall|r: int, p: int| !#[trigger] elim_slot(ctx, taken_out(ss, sr, sp), u, r, p)
}

/// Moving the customers `cs`, one after the other, each to its first cheapest
/// slot, from the routes `ss` ends in `out`: the last routes, or `None` as soon
/// as a customer is stuck.
pub open spec fn reinsert_chain(ctx: Ctx, ss: Seq<Seq<u32>>, cs: Seq<u32>, out: Option<Seq<Seq<u32>>>) -> bool
    decreases cs.len(),
{
    if cs.len() == 0 {
        out == Some(ss)
    } else {
        ||| stuck(ctx, ss, cs[0] as usize) && out is None
        ||| exists|mid: Seq<Seq<u32>>| #[trigger] moved_to_best(ctx, ss, cs[0] as usize, mid) && reinsert_chain(ctx, mid, cs.drop_first(), out)
    }
}

/// Takes each of `customers` in turn out of its place in `tmp` (found by the
/// locator) and puts it back at its cheapest place (`best_insertion`),
/// rebuilding the locator after each step. False as soon as a customer is on
/// no route or fits nowhere; then `tmp` is left part way.
fn reinsert_customers(ctx: &Ctx, tmp: &mut Sol, tmp_loc: &mut Vec<NodeLoc>, customers: &Vec<u32>) -> (ok: bool)
    requires
        ctx.wf(),
        sn_ok(*ctx, old(tmp).routes@),
        loc_ok(old(tmp).routes@, old(tmp_loc)@, ctx.n as int),
        forall|k: int| 0 <= k < customers@.len() ==> 0 < (#[trigger] customers@[k] as int) < ctx.n,
        loc_exact(old(tmp).routes@, old(tmp_loc)@),
    ensures
        sn_ok(*ctx, final(tmp).routes@),
        loc_ok(final(tmp).routes@, final(tmp_loc)@, ctx.n as int),
        final(tmp).total_dist == old(tmp).total_dist,
        final(tmp).routes@.len() == old(tmp).routes@.len(),
        ok ==> all_custs(sn_nodes(final(tmp).routes@)) == all_custs(sn_nodes(old(tmp).routes@)),
        ok ==> reinsert_chain(*ctx, sn_seqs(old(tmp).routes@), customers@, Some(sn_seqs(final(tmp).routes@))),
        !ok ==> reinsert_chain(*ctx, sn_seqs(old(tmp).routes@), customers@, None),
        sn_inst_ok(*ctx) && sn_feasible(*ctx, old(tmp).routes@) ==> sn_feasible(*ctx, final(tmp).routes@),
{
    let ghost feas0 = sn_inst_ok(*ctx) && sn_feasible(*ctx, tmp.routes@);
    let ghost rs0 = sn_nodes(tmp.routes@);
    let ghost ss0 = sn_seqs(tmp.routes@);
    let ghost cs = customers@;
    assert(cs.subrange(0, cs.len() as int) =~= cs);
    let mut k: usize = 0;
    while k < customers.len()
        invariant
            ctx.wf(),
            sn_ok(*ctx, tmp.routes@),
            loc_ok(tmp.routes@, tmp_loc@, ctx.n as int),
            tmp.total_dist == old(tmp).total_dist,
            tmp.routes@.len() == old(tmp).routes@.len(),
            rs0 == sn_nodes(old(tmp).routes@),
            all_custs(sn_nodes(tmp.routes@)) == all_custs(rs0),
            k <= customers@.len(),
            forall|q: int| 0 <= q < customers@.len() ==> 0 < (#[trigger] customers@[q] as int) < ctx.n,
            cs == customers@,
            ss0 == sn_seqs(old(tmp).routes@),
            loc_exact(tmp.routes@, tmp_loc@),
            forall|out: Option<Seq<Seq<u32>>>| #[trigger] reinsert_chain(*ctx, sn_seqs(tmp.routes@), cs.subrange(k as int, cs.len() as int), out)
                ==> reinsert_chain(*ctx, ss0, cs, out),
            feas0 == (sn_inst_ok(*ctx) && sn_feasible(*ctx, old(tmp).routes@)),
            feas0 ==> sn_inst_ok(*ctx) && sn_feasible(*ctx, tmp.routes@),
        decreases customers.len() - k,
    {
        let u = customers[k] as usize;
        assert((u as int) < ctx.n);
        let ghost ss = sn_seqs(tmp.routes@);
        let ghost rest = cs.subrange(k as int, cs.len() as int);
        assert(rest[0] as usize == u);
        assert(rest.drop_first() =~= cs.subrange(k + 1, cs.len() as int));
        let ul = tmp_loc[u];
        if ul.route == u32::MAX {
            proof {
                lemma_sn_locatable(*ctx, tmp.routes@);
                assert(locates(tmp.routes@, u, tmp_loc@[u as int]));
                assert(!seen(tmp.routes@, tmp.routes@.len() as int, 0, u));
                assert forall|r: int, p: int| !#[trigger] occurs_at(ss, u, r, p) by {
                    if occurs_at(ss, u, r, p) {
                        assert(before_place(tmp.routes@.len() as int, 0, r, p));
                        assert(tmp.routes@[r].seq@[p] as usize == u);
                    }
                }
                assert(stuck(*ctx, ss, u));
                assert(reinsert_chain(*ctx, ss, rest, None));
            }
            return false;
        }
        let sri = ul.route as usize;
        let sp = ul.pos as usize;
        let ghost before = tmp.routes@;
        let ghost rs = sn_nodes(before);
        proof {
            if u == 0 {
                assert(false);
            }
            assert(points_at(before, tmp_loc@[u as int], u as int));
            assert(route_fit(*ctx, before[sri as int]));
            assert(seq_ok(*ctx, before[sri as int].seq@));
            assert(rs[sri as int] == nodes(before[sri as int].seq@));
        }
        let removed = tmp.routes[sri].remove_at(ctx, sp);
        let ghost mid = tmp.routes@;
        let ghost rm = sn_nodes(mid);
        proof {
            assert(occurs_at(ss, u, sri as int, sp as int));
            assert(sn_seqs(mid) =~= taken_out(ss, sri as int, sp as int));
        }
        proof {
            lemma_fit_remove(*ctx, before[sri as int], mid[sri as int], sp as int);
            lemma_nodes_edit(before[sri as int].seq@, sp as int, 0);
            lemma_sn_nodes_update(before, sri as int, mid[sri as int]);
            assert(mid == before.update(sri as int, mid[sri as int]));
            lemma_total_nodes(rs, sri as int, rs[sri as int].remove(sp as int));
            assert forall|r: int| 0 <= r < mid.len() implies #[trigger] route_fit(*ctx, mid[r]) by {
                if r != sri {
                    assert(mid[r] == before[r]);
                }
            }
            lemma_sn_locatable(*ctx, mid);
            if feas0 {
                let os = before[sri as int].seq@;
                assert(os[sp as int] as usize == u);
                assert(os[0] == 0 && os[os.len() - 1] == 0);
                assert(route_feasible(*ctx, before[sri as int]));
                lemma_remove_feasible(*ctx, os, sp as int);
                assert forall|r: int| 0 <= r < mid.len() implies #[trigger] route_feasible(*ctx, mid[r]) by {
                    if r != sri {
                        assert(mid[r] == before[r]);
                    } else {
                        assert(mid[r].seq@ == os.remove(sp as int));
                    }
                }
            }
        }
        rebuild_locator(ctx, tmp, tmp_loc);
        proof {
            lemma_rebuilt_ok(*ctx, tmp.routes@, tmp_loc@);
        }
        let (bd, br, bp) = best_insertion(ctx, tmp, removed);
        if br == usize::MAX {
            proof {
                assert(removed == u);
                assert(stuck(*ctx, ss, u));
                assert(reinsert_chain(*ctx, ss, rest, None));
            }
            return false;
        }
        proof {
            assert(route_fit(*ctx, mid[br as int]));
            assert(rm[br as int] == nodes(mid[br as int].seq@));
            lemma_total_nodes(rm, br as int, rm[br as int]);
            lemma_nodes_edit(mid[br as int].seq@, bp as int, removed as u32);
        }
        tmp.routes[br].insert_at(ctx, removed, bp);
        proof {
            let fin = tmp.routes@;
            lemma_fit_insert(*ctx, mid[br as int], fin[br as int], bp as int, removed as u32);
            lemma_sn_nodes_update(mid, br as int, fin[br as int]);
            assert(fin == mid.update(br as int, fin[br as int]));
            lemma_total_nodes(rm, br as int, rm[br as int].insert(bp as int, removed));
            assert forall|r: int| 0 <= r < fin.len() implies #[trigger] route_fit(*ctx, fin[r]) by {
                if r != br {
                    assert(fin[r] == mid[r]);
                }
            }
            // the customer taken out is put back
            let x = rs[sri as int][sp as int];
            assert(x == removed);
            lemma_custs_remove(rs[sri as int], sp as int);
            lemma_custs_insert(rm[br as int], bp as int, removed);
            lemma_all_custs_update(rs, sri as int, rs[sri as int].remove(sp as int));
            lemma_all_custs_update(rm, br as int, rm[br as int].insert(bp as int, removed));
            assert(all_custs(sn_nodes(fin)) =~= all_custs(rs)) by {
                broadcast use vstd::multiset::group_multiset_axioms;
                assert forall|v: usize| all_custs(sn_nodes(fin)).count(v) == all_custs(rs).count(v) by {
                    assert(all_custs(rm).add(custs(rs[sri as int])).count(v) == all_custs(rs).add(custs(rm[sri as int])).count(v));
                    assert(all_custs(sn_nodes(fin)).add(custs(rm[br as int])).count(v) == all_custs(rm).add(custs(sn_nodes(fin)[br as int])).count(v));
                }
            }
            lemma_sn_locatable(*ctx, fin);
            let to = taken_out(ss, sri as int, sp as int);
            assert(sn_seqs(fin) =~= to.update(br as int, to[br as int].insert(bp as int, u as u32)));
            assert(best_slot(*ctx, to, u, br as int, bp as int));
            if feas0 {
                let ms = mid[br as int].seq@;
                assert(to[br as int] == ms);
                assert(elim_slot(*ctx, to, u, br as int, bp as int));
                assert(route_feasible(*ctx, mid[br as int]));
                assert(seq_ok(*ctx, ms));
                assert(ms[ms.len() - 1] == 0);
                lemma_insert_feasible(*ctx, ms, u, bp as int);
                assert forall|r: int| 0 <= r < fin.len() implies #[trigger] route_feasible(*ctx, fin[r]) by {
                    if r != br {
                        assert(fin[r] == mid[r]);
                    } else {
                        assert(fin[r].seq@ == ms.insert(bp as int, u as u32));
                    }
                }
            }
            assert(moved_to_best(*ctx, ss, u, sn_seqs(fin)));
            assert forall|out: Option<Seq<Seq<u32>>>| #[trigger] reinsert_chain(*ctx, sn_seqs(fin), cs.subrange(k + 1, cs.len() as int), out)
                implies reinsert_chain(*ctx, ss0, cs, out) by {
                assert(reinsert_chain(*ctx, ss, rest, out));
            }
        }
        rebuild_locator(ctx, tmp, tmp_loc);
        proof {
            lemma_rebuilt_ok(*ctx, tmp.routes@, tmp_loc@);
        }
        k += 1;
    }
    proof {
        assert(cs.subrange(k as int, cs.len() as int) =~= Seq::<u32>::empty());
        assert(reinsert_chain(*ctx, sn_seqs(tmp.routes@), cs.subrange(k as int, cs.len() as int), Some(sn_seqs(tmp.routes@))));
    }
    true
}

/// A copy of a locator.
fn copy_locs(v: &Vec<NodeLoc>) -> (res: Vec<NodeLoc>)
    ensures
        res@ == v@,
{
    let mut out: Vec<NodeLoc> = Vec::new();
    let mut k: usize = 0;
    while k < v.len()
        invariant
            k <= v@.len(),
            out@ == v@.subrange(0, k as int),
        decreases v.len() - k,
    {
        out.push(v[k]);
        k += 1;
        assert(out@ =~= v@.subrange(0, k as int));
    }
    assert(v@.subrange(0, k as int) =~= v@);
    out
}

/// Route `ri` is the first of the routes with customers that has the fewest.
pub open spec fn fewest_route(ss: Seq<Seq<u32>>, ri: int) -> bool {
    &&& 0 <= ri < ss.len()
    &&& ss[ri].len() > 2
    &&& forall|j: int| 0 <= j < ss.len() && ss[j].len() > 2 ==> ss[ri].len() <= #[trigger] ss[j].len()
    &&& forall|j: int| 0 <= j < ri && ss[j].len() > 2 ==> ss[ri].len() < #[trigger] ss[j].len()
}

/// The customers of route `ri`, in order.
pub open spec fn inner_nodes(ss: Seq<Seq<u32>>, ri: int) -> Seq<u32> {
    ss[ri].subrange(1, ss[ri].len() - 1)
}

/// The route elimination that turns `rs` into `out`: with at least two routes,
/// the first route with the fewest customers, at most eight of them, is emptied
/// by moving its customers in order to their first cheapest slots, and the
/// routes left without customers are dropped.
pub open spec fn elimination(ctx: Ctx, rs: Seq<Route>, out: Seq<Route>) -> bool {
    exists|ri: int, t: Seq<Route>|
        #![trigger fewest_route(sn_seqs(rs), ri), reinsert_chain(ctx, sn_seqs(rs), inner_nodes(sn_seqs(rs), ri), Some(sn_seqs(t)))]
        rs.len() >= 2 && fewest_route(sn_seqs(rs), ri) && sn_seqs(rs)[ri].len() <= 10
            && reinsert_chain(ctx, sn_seqs(rs), inner_nodes(sn_seqs(rs), ri), Some(sn_seqs(t))) && out == kept_routes(t)
}

/// Why no route of `rs` (of recorded length `total`) is eliminated: at most one
/// route, or none with customers, or the first with the fewest has more than
/// eight, or one of its customers gets stuck, or the result is not shorter.
pub open spec fn no_elimination(ctx: Ctx, rs: Seq<Route>, total: int) -> bool {
    ||| rs.len() <= 1
    ||| forall|j: int| 0 <= j < rs.len() ==> #[trigger] sn_seqs(rs)[j].len() <= 2
    ||| exists|ri: int| #[trigger] fewest_route(sn_seqs(rs), ri) && (sn_seqs(rs)[ri].len() > 10
        || reinsert_chain(ctx, sn_seqs(rs), inner_nodes(sn_seqs(rs), ri), None)
        || exists|t: Seq<Route>| #[trigger] reinsert_chain(ctx, sn_seqs(rs), inner_nodes(sn_seqs(rs), ri), Some(sn_seqs(t)))
            && total_len(ctx.d@, sn_nodes(kept_routes(t))) >= total)
}

/// Tries to empty the route with the fewest customers (the first of equals),
/// when there are at least two routes and it has at most eight: on a copy, each
/// of its customers moves to its cheapest place (`reinsert_customers`), routes
/// without customers are dropped and the total recomputed; the copy replaces
/// the solution when its total is below the recorded one.
pub fn route_elim_pass(ctx: &Ctx, sol: &mut Sol, loc: &mut Vec<NodeLoc>) -> (res: bool)
    requires
        ctx.wf(),
        sn_ok(*ctx, old(sol).routes@),
        loc_ok(old(sol).routes@, old(loc)@, ctx.n as int),
    ensures
        sn_ok(*ctx, final(sol).routes@),
        loc_ok(final(sol).routes@, final(loc)@, ctx.n as int),
        all_custs(sn_nodes(final(sol).routes@)) == all_custs(sn_nodes(old(sol).routes@)),
        res ==> final(sol).total_dist == total_len(ctx.d@, sn_nodes(final(sol).routes@)),
        res ==> final(sol).total_dist < old(sol).total_dist,
        !res ==> *final(sol) == *old(sol) && final(loc)@ == old(loc)@,
        res ==> elimination(*ctx, old(sol).routes@, final(sol).routes@),
        !res ==> no_elimination(*ctx, old(sol).routes@, old(sol).total_dist as int),
        sn_inst_ok(*ctx) && sn_feasible(*ctx, old(sol).routes@) ==> sn_feasible(*ctx, final(sol).routes@),
{
    let ghost ss = sn_seqs(sol.routes@);
    let ghost feas0 = sn_inst_ok(*ctx) && sn_feasible(*ctx, sol.routes@);
    if sol.routes.len() <= 1 {
        return false;
    }
    let mut ri: usize = usize::MAX;
    let mut best_nc: usize = 0;
    let mut i: usize = 0;
    while i < sol.routes.len()
        invariant
            i <= sol.routes@.len(),
            ri != usize::MAX ==> ri < sol.routes@.len() && best_nc == sol.routes@[ri as int].seq@.len() - 2 && best_nc > 0,
            sn_ok(*ctx, sol.routes@),
            ss == sn_seqs(sol.routes@),
            ri != usize::MAX ==> ri < i && fewest_route(ss.subrange(0, i as int), ri as int),
            ri == usize::MAX ==> forall|j: int| 0 <= j < i ==> #[trigger] ss[j].len() <= 2,
        decreases sol.routes.len() - i,
    {
        proof {
            assert(route_fit(*ctx, sol.routes@[i as int]));
        }
        let nc = sol.routes[i].num_customers();
        if nc > 0 && (ri == usize::MAX || nc < best_nc) {
            ri = i;
            best_nc = nc;
        }
        i += 1;
    }
    proof {
        assert(ss.subrange(0, i as int) =~= ss);
    }
    if ri == usize::MAX {
        return false;
    }
    if best_nc > 8 {
        assert(fewest_route(ss, ri as int));
        return false;
    }
    let customers = copy_range(&sol.routes[ri].seq, 1, sol.routes[ri].len() - 1);
    proof {
        assert(route_fit(*ctx, sol.routes@[ri as int]));
        assert(seq_ok(*ctx, sol.routes@[ri as int].seq@));
        assert forall|k: int| 0 <= k < customers@.len() implies 0 < (#[trigger] customers@[k] as int) < ctx.n by {
            assert(customers@[k] == sol.routes@[ri as int].seq@[k + 1]);
        }
    }
    let mut tmp = copy_sol(sol, ctx);
    let mut tmp_loc = copy_locs(loc);
    proof {
        lemma_sn_locatable(*ctx, tmp.routes@);
        if feas0 {
            lemma_same_seqs_feasible(*ctx, sol.routes@, tmp.routes@);
        }
    }
    rebuild_locator(ctx, &tmp, &mut tmp_loc);
    proof {
        assert(sn_seqs(tmp.routes@) =~= ss);
        assert(customers@ =~= inner_nodes(ss, ri as int));
        assert(fewest_route(ss, ri as int));
    }
    proof {
        lemma_rebuilt_ok(*ctx, tmp.routes@, tmp_loc@);
    }
    if !reinsert_customers(ctx, &mut tmp, &mut tmp_loc, &customers) {
        assert(reinsert_chain(*ctx, ss, inner_nodes(ss, ri as int), None));
        return false;
    }
    let ghost full = tmp.routes@;
    tmp.cleanup_empty();
    proof {
        assert forall|r: int| 0 <= r < full.len() implies #[trigger] route_fit(*ctx, full[r]) by {}
        lemma_kept(*ctx, full);
        assert(sn_ok(*ctx, tmp.routes@));
        lemma_dist_prefixes(*ctx, tmp.routes@);
        if feas0 {
            crate::sn_feasible::lemma_kept_feasible(*ctx, full);
        }
    }
    tmp.recompute_total();
    proof {
        lemma_dist_sum(*ctx, tmp.routes@);
    }
    proof {
        assert(reinsert_chain(*ctx, ss, inner_nodes(ss, ri as int), Some(sn_seqs(full))));
    }
    if tmp.total_dist < sol.total_dist {
        *sol = tmp;
        proof {
            lemma_sn_locatable(*ctx, sol.routes@);
        }
        rebuild_locator(ctx, sol, loc);
        proof {
            lemma_rebuilt_ok(*ctx, sol.routes@, loc@);
        }
        return true;
    }
    proof {
        assert(total_len(ctx.d@, sn_nodes(kept_routes(full))) >= sol.total_dist as int);
    }
    false
}

/// Routes with the same node sequences accept the same locators.
proof fn lemma_loc_same_nodes(a: Seq<Route>, b: Seq<Route>, loc: Seq<NodeLoc>, n: int)
    requires
        sn_nodes(a) == sn_nodes(b),
        a.len() == b.len(),
        loc_ok(a, loc, n),
    ensures
        loc_ok(b, loc, n),
        forall|r: int| 0 <= r < a.len() ==> (#[trigger] a[r]).seq@ == b[r].seq@,
{
    assert forall|r: int| 0 <= r < a.len() implies (#[trigger] a[r]).seq@ == b[r].seq@ by {
        assert(sn_nodes(a)[r] == sn_nodes(b)[r]);
        assert(nodes(a[r].seq@) == nodes(b[r].seq@));
        assert(a[r].seq@.len() == nodes(a[r].seq@).len());
        assert forall|k: int| 0 <= k < a[r].seq@.len() implies a[r].seq@[k] == b[r].seq@[k] by {
            assert(nodes(a[r].seq@)[k] == nodes(b[r].seq@)[k]);
        }
        assert(a[r].seq@ =~= b[r].seq@);
    }
    assert forall|u: int| 1 <= u < n implies #[trigger] points_at(b, loc[u], u) by {
        assert(points_at(a, loc[u], u));
        if loc[u].route != u32::MAX {
            assert(a[loc[u].route as int].seq@ == b[loc[u].route as int].seq@);
        }
    }
}

/// The no-move condition that pass `op` reports when it finds nothing on the
/// routes `rs` with locator `loc` and recorded total `total`: 0 relocation,
/// 1 or-opt, 2 exchange, 3 2-opt within a route, 4 2-opt*, 5 route elimination.
pub open spec fn pass_quiet(ctx: Ctx, rs: Seq<Route>, loc: Seq<NodeLoc>, total: int, op: u8) -> bool {
    if op == 0 {
        forall|u: int, k: int, t: int|
            1 <= u < ctx.n && 0 <= k < ctx.neighbors@[u]@.len() && 0 <= t < 2 && loc[u].route != u32::MAX
                ==> !#[trigger] reloc_improves(ctx, rs, loc, u, loc[u].route as int, loc[u].pos as int, k, t)
    } else if op == 1 {
        forall|w: int, len: int| 1 <= w < ctx.n && loc[w].route != u32::MAX && 1 <= len <= 3
            && loc[w].pos + len + 1 <= rs[loc[w].route as int].seq@.len() ==>
            #[trigger] seg_done(ctx, rs, loc, loc[w].route as int, loc[w].pos as int, len)
    } else if op == 2 {
        forall|u: int| 1 <= u < ctx.n && #[trigger] loc[u].route != u32::MAX ==> {
            let r1 = loc[u].route as int;
            let p1 = loc[u].pos as int;
            ex_no_gain(ctx, rs, loc, u, r1, p1)
                || exists|kb: int| #[trigger] ex_first_best(ctx, rs, loc, u, r1, p1, kb)
                    && !ex_on_time(ctx, rs, loc, u, r1, p1, kb)
        }
    } else if op == 3 {
        forall|r: int| 0 <= r < rs.len() ==> #[trigger] rev_optimal(ctx, rs[r].seq@)
    } else if op == 4 {
        forall|u: int, k: int, ti: int, tj: int|
            1 <= u < ctx.n && 0 <= k < ctx.neighbors@[u]@.len() && 0 <= ti < 2 && 0 <= tj < 2
                ==> !#[trigger] tail_swap_improves(ctx, rs, loc, u, k, ti, tj)
    } else {
        no_elimination(ctx, rs, total)
    }
}

/// None of the six passes of the descent finds a move on the routes `rs` (with
/// their exact locator `loc` and recorded total `total`): a local optimum of
/// every neighbourhood.
pub open spec fn sn_settled(ctx: Ctx, rs: Seq<Route>, loc: Seq<NodeLoc>, total: int) -> bool {
    &&& loc_exact(rs, loc)
    &&& pass_quiet(ctx, rs, loc, total, 0)
    &&& pass_quiet(ctx, rs, loc, total, 1)
    &&& pass_quiet(ctx, rs, loc, total, 2)
    &&& pass_quiet(ctx, rs, loc, total, 3)
    &&& pass_quiet(ctx, rs, loc, total, 4)
    &&& pass_quiet(ctx, rs, loc, total, 5)
}

/// Variable neighbourhood descent: while time is left and the last round
/// found a move, the locator is made exact, the six passes are shuffled with
/// the generator and run in that order until one finds a move (checking the
/// time before each). Then the routes without customers are dropped, the total
/// recomputed and the locator rebuilt. For a symmetric matrix every found move
/// shortens the solution or lowers the recorded total, so the rounds end.
/// Returns `true` when the rounds ended because a whole round found no move
/// (not because the time ran out): the result is then a local optimum of all
/// six passes, up to the dropped empty routes.
pub fn vnd(ctx: &Ctx, sol: &mut Sol, loc: &mut Vec<NodeLoc>, start: &Instant, rng: &mut u64) -> (settled: bool)
    requires
        ctx.wf(),
        symmetric(ctx.d@),
        sn_ok(*ctx, old(sol).routes@),
        loc_ok(old(sol).routes@, old(loc)@, ctx.n as int),
    ensures
        sn_ok(*ctx, final(sol).routes@),
        loc_ok(final(sol).routes@, final(loc)@, ctx.n as int),
        forall|u: int| 0 <= u < final(loc)@.len() ==> #[trigger] locates(final(sol).routes@, u as usize, final(loc)@[u]),
        forall|r: int| 0 <= r < final(sol).routes@.len() ==> (#[trigger] final(sol).routes@[r]).seq@.len() > 2,
        all_custs(sn_nodes(final(sol).routes@)) == all_custs(sn_nodes(old(sol).routes@)),
        final(sol).total_dist == total_len(ctx.d@, sn_nodes(final(sol).routes@)),
        old(sol).total_dist == total_len(ctx.d@, sn_nodes(old(sol).routes@)) ==> final(sol).total_dist <= old(sol).total_dist,
        sn_inst_ok(*ctx) && sn_feasible(*ctx, old(sol).routes@) ==> sn_feasible(*ctx, final(sol).routes@),
        settled ==> exists|pre: Seq<Route>, ploc: Seq<NodeLoc>, ptotal: int|
            #[trigger] sn_settled(*ctx, pre, ploc, ptotal) && final(sol).routes@ == kept_routes(pre),
{
    let ghost dm = ctx.d@;
    let ghost feas0 = sn_inst_ok(*ctx) && sn_feasible(*ctx, sol.routes@);
    let ghost rs0 = sn_nodes(sol.routes@);
    let ghost t0 = sol.total_dist as int;
    let ghost l0 = total_len(dm, rs0);
    let mut improved = true;
    let mut stopped = false;
    let ghost mut pre: Seq<Route> = sol.routes@;
    let ghost mut ploc: Seq<NodeLoc> = loc@;
    let ghost mut ptotal: int = 0;
    proof {
        lemma_dist_sum(*ctx, sol.routes@);
    }
    while improved
        invariant_except_break
            improved ==> !stopped,
        invariant
            !improved && !stopped ==> sn_settled(*ctx, pre, ploc, ptotal) && sol.routes@ == pre,
            ctx.wf(),
            symmetric(ctx.d@),
            dm == ctx.d@,
            sn_ok(*ctx, sol.routes@),
            loc_ok(sol.routes@, loc@, ctx.n as int),
            all_custs(sn_nodes(sol.routes@)) == all_custs(rs0),
            sol.total_dist <= t0,
            total_len(dm, sn_nodes(sol.routes@)) <= max(l0, t0),
            total_len(dm, sn_nodes(sol.routes@)) >= 0,
            feas0 ==> sn_inst_ok(*ctx) && sn_feasible(*ctx, sol.routes@),
        ensures
            !stopped ==> sn_settled(*ctx, pre, ploc, ptotal) && sol.routes@ == pre,
        decreases (sol.total_dist as int) - (i32::MIN as int), total_len(dm, sn_nodes(sol.routes@)), if improved { 1int } else { 0int },
    {
        if whole_millis(&elapsed_since(start)) > TIME_BUDGET_MS {
            stopped = true;
            break;
        }
        proof {
            lemma_sn_locatable(*ctx, sol.routes@);
        }
        rebuild_locator(ctx, sol, loc);
        proof {
            lemma_rebuilt_ok(*ctx, sol.routes@, loc@);
        }
        let ghost r0 = sol.routes@;
        let ghost lc0 = loc@;
        let ghost tot0 = sol.total_dist as int;
        let ghost td = sol.total_dist as int;
        let ghost tl = total_len(dm, sn_nodes(sol.routes@));
        improved = false;
        let mut ops: Vec<u8> = vec![0u8, 1u8, 2u8, 3u8, 4u8, 5u8];
        let mut i: usize = 5;
        proof {
            assert forall|v: u8| v < 6 implies ops@.contains(v) by {
                assert(ops@[v as int] == v);
            }
        }
        while i > 0
            invariant
                ops@.len() == 6,
                i <= 5,
                forall|v: u8| v < 6 ==> ops@.contains(v),
                forall|q: int| 0 <= q < 6 ==> #[trigger] ops@[q] < 6,
            decreases i,
        {
            let j = (xorshift64(rng) as usize) % (i + 1);
            let t = ops[i];
            let o = ops[j];
            let ghost ob = ops@;
            ops.set(i, o);
            ops.set(j, t);
            proof {
                assert forall|v: u8| v < 6 implies ops@.contains(v) by {
                    assert(ob.contains(v));
                    let q = choose|q: int| 0 <= q < 6 && ob[q] == v;
                    if q == i {
                        assert(ops@[j as int] == v);
                    } else if q == j {
                        assert(ops@[i as int] == v);
                    } else {
                        assert(ops@[q] == v);
                    }
                }
            }
            i -= 1;
        }
        let mut oi: usize = 0;
        while oi < 6
            invariant_except_break
                !stopped,
                !improved,
            invariant
                ctx.wf(),
                symmetric(ctx.d@),
                dm == ctx.d@,
                sn_ok(*ctx, sol.routes@),
                loc_ok(sol.routes@, loc@, ctx.n as int),
                all_custs(sn_nodes(sol.routes@)) == all_custs(rs0),
                sol.total_dist <= t0,
                total_len(dm, sn_nodes(sol.routes@)) <= max(l0, t0),
                total_len(dm, sn_nodes(sol.routes@)) >= 0,
                ops@.len() == 6,
                oi <= 6,
                feas0 ==> sn_inst_ok(*ctx) && sn_feasible(*ctx, sol.routes@),
                !improved ==> sol.total_dist == td && total_len(dm, sn_nodes(sol.routes@)) == tl,
                improved ==> sol.total_dist < td || (sol.total_dist == td && total_len(dm, sn_nodes(sol.routes@)) < tl),
                forall|q: int| 0 <= q < 6 ==> #[trigger] ops@[q] < 6,
                forall|v: u8| v < 6 ==> ops@.contains(v),
                loc_exact(r0, lc0),
                tot0 == td,
                !improved ==> sol.routes@ == r0 && loc@ == lc0,
                !improved ==> forall|q: int| 0 <= q < oi ==> pass_quiet(*ctx, r0, lc0, tot0, #[trigger] ops@[q]),
            ensures
                improved ==> !stopped,
                !improved && !stopped ==> sol.routes@ == r0 && loc@ == lc0
                    && forall|q: int| 0 <= q < 6 ==> pass_quiet(*ctx, r0, lc0, tot0, #[trigger] ops@[q]),
            decreases 6 - oi,
        {
            if whole_millis(&elapsed_since(start)) > TIME_BUDGET_MS {
                stopped = true;
                break;
            }
            let op = ops[oi];
            let ghost before = sol.routes@;
            let ghost lbefore = loc@;
            let found = if op == 0 {
                let f = relocate_pass(ctx, sol, loc);
                proof {
                    if !f {
                        assert(pass_quiet(*ctx, r0, lc0, tot0, op));
                    }
                }
                f
            } else if op == 1 {
                let f = or_opt_pass(ctx, sol, loc);
                proof {
                    if !f {
                        assert(pass_quiet(*ctx, r0, lc0, tot0, op));
                    }
                }
                f
            } else if op == 2 {
                let f = exchange_pass(ctx, sol, loc);
                proof {
                    if !f {
                        assert(pass_quiet(*ctx, r0, lc0, tot0, op));
                    }
                }
                f
            } else if op == 3 {
                let r = two_opt_intra_pass(ctx, sol);
                if r {
                    proof {
                        lemma_sn_locatable(*ctx, sol.routes@);
                    }
                    rebuild_locator(ctx, sol, loc);
                    proof {
                        lemma_rebuilt_ok(*ctx, sol.routes@, loc@);
                    }
                } else {
                    proof {
                        lemma_loc_same_nodes(before, sol.routes@, loc@, ctx.n as int);
                        assert(pass_quiet(*ctx, r0, lc0, tot0, op));
                    }
                }
                r
            } else if op == 4 {
                let f = two_opt_star_pass(ctx, sol, loc);
                proof {
                    if !f {
                        assert(pass_quiet(*ctx, r0, lc0, tot0, op));
                    }
                }
                f
            } else {
                let f = route_elim_pass(ctx, sol, loc);
                proof {
                    if !f {
                        assert(op == 5);
                        assert(pass_quiet(*ctx, r0, lc0, tot0, op));
                    }
                }
                f
            };
            proof {
                lemma_dist_sum(*ctx, sol.routes@);
            }
            if found {
                improved = true;
                break;
            }
            proof {
                assert(pass_quiet(*ctx, r0, lc0, tot0, op));
            }
            oi += 1;
        }
        proof {
            if !improved && !stopped {
                assert forall|v: u8| v < 6 implies pass_quiet(*ctx, r0, lc0, tot0, v) by {
                    assert(ops@.contains(v));
                    let q = choose|q: int| 0 <= q < 6 && ops@[q] == v;
                    assert(pass_quiet(*ctx, r0, lc0, tot0, ops@[q]));
                }
                assert(pass_quiet(*ctx, r0, lc0, tot0, 0u8));
                assert(pass_quiet(*ctx, r0, lc0, tot0, 1u8));
                assert(pass_quiet(*ctx, r0, lc0, tot0, 2u8));
                assert(pass_quiet(*ctx, r0, lc0, tot0, 3u8));
                assert(pass_quiet(*ctx, r0, lc0, tot0, 4u8));
                assert(pass_quiet(*ctx, r0, lc0, tot0, 5u8));
                pre = r0;
                ploc = lc0;
                ptotal = tot0;
            }
        }
    }
    let settled = !stopped;
    let ghost full = sol.routes@;
    sol.cleanup_empty();
    proof {
        lemma_kept(*ctx, full);
        if feas0 {
            crate::sn_feasible::lemma_kept_feasible(*ctx, full);
        }
        lemma_dist_prefixes(*ctx, sol.routes@);
        assert forall|i: int| 0 <= i < sn_nodes(full).len() implies crate::model::nodes_below(#[trigger] sn_nodes(full)[i], dm.len() as int) by {
            assert(route_fit(*ctx, full[i]));
            assert(seq_ok(*ctx, full[i].seq@));
        }
        crate::so_passes::lemma_keep_len(dm, sn_nodes(full));
    }
    sol.recompute_total();
    proof {
        lemma_dist_sum(*ctx, sol.routes@);
        lemma_sn_locatable(*ctx, sol.routes@);
    }
    rebuild_locator(ctx, sol, loc);
    proof {
        lemma_rebuilt_ok(*ctx, sol.routes@, loc@);
        if settled {
            assert(sn_settled(*ctx, pre, ploc, ptotal));
        }
    }
    settled
}

} // verus!
