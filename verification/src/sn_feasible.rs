//! Feasibility of the schedule-table solver's routes: every node reached by its
//! due time and the demand within the capacity. A place that the insertion
//! check accepts keeps a feasible route feasible; with travel times that obey
//! the triangle inequality, taking a customer out does too.
use vstd::prelude::*;
use crate::model::{dd, max, min};
use crate::silver_nova::{Ctx, Route, nodes, seq_ok, arrival, latest_at, fits_seq, kept_routes};
use crate::sn_lns::unmarked;
use crate::sharp_orbit::demand_sum;
use crate::so_passes::lemma_demand_sum_concat;
use crate::sn_passes::{seq_on_time, route_fit};

verus! {

/// Travel times obey the triangle inequality between the nodes of the instance.
pub open spec fn sn_triangle(ctx: Ctx) -> bool {
    forall|a: usize, b: usize, c: usize| a < ctx.n && b < ctx.n && c < ctx.n
        ==> #[trigger] dd(ctx.d@, a, c) <= dd(ctx.d@, a, b) + #[trigger] dd(ctx.d@, b, c)
}

/// The instance the feasibility laws speak of: the triangle inequality holds,
/// service takes no negative time, no demand is negative, the depot asks for
/// nothing, the capacity is not negative, and a route that serves nobody is
/// back at the depot in time.
pub open spec fn sn_inst_ok(ctx: Ctx) -> bool {
    &&& sn_triangle(ctx)
    &&& ctx.srv >= 0
    &&& forall|i: int| 0 <= i < ctx.n ==> #[trigger] ctx.demand@[i] >= 0
    &&& max(0, ctx.ready@[0] as int) + dd(ctx.d@, 0, 0) <= ctx.due@[0]
    &&& ctx.demand@[0] == 0
    &&& ctx.cap >= 0
}

/// A route meets every due time and the capacity.
pub open spec fn route_feasible(ctx: Ctx, r: Route) -> bool {
    &&& seq_on_time(ctx, r.seq@)
    &&& r.demand_sum <= ctx.cap
}

/// Every route meets every due time and the capacity.
pub open spec fn sn_feasible(ctx: Ctx, rs: Seq<Route>) -> bool {
    forall|r: int| 0 <= r < rs.len() ==> #[trigger] route_feasible(ctx, rs[r])
}

/// Arrival times depend only on the nodes up to their position.
proof fn lemma_arrival_same(ctx: Ctx, s: Seq<u32>, t: Seq<u32>, p: int)
    requires
        0 <= p < s.len(),
        p < t.len(),
        forall|k: int| 0 <= k <= p ==> #[trigger] s[k] == t[k],
    ensures
        arrival(ctx, s, p) == arrival(ctx, t, p),
    decreases p,
{
    if p > 0 {
        lemma_arrival_same(ctx, s, t, p - 1);
        assert(s[p - 1] == t[p - 1]);
        assert(s[p] == t[p]);
    }
}

/// After an insertion that the check accepts, each later node is reached no
/// later than before or no later than its latest arrival time.
proof fn lemma_insert_tail(ctx: Ctx, s: Seq<u32>, u: usize, p: int, q: int)
    requires
        ctx.wf(),
        seq_ok(ctx, s),
        1 <= p < s.len(),
        1 <= u < ctx.n,
        fits_seq(ctx, s, u, p),
        p <= q < s.len(),
    ensures
        arrival(ctx, s.insert(p, u as u32), q + 1) <= latest_at(ctx, s, q)
            || arrival(ctx, s.insert(p, u as u32), q + 1) <= arrival(ctx, s, q),
    decreases q - p,
{
    let t = s.insert(p, u as u32);
    if q == p {
        lemma_arrival_same(ctx, s, t, p - 1);
        assert(t[p - 1] == s[p - 1]);
        assert(t[p] == u as u32);
        assert(t[p + 1] == s[p]);
        let a = s[p - 1] as usize;
        let b = s[p] as usize;
        assert((t[p] as usize) == u);
        assert(arrival(ctx, t, p) == max(arrival(ctx, t, p - 1), ctx.ready@[a as int] as int) + ctx.service(a) + dd(ctx.d@, a, u));
        assert(arrival(ctx, t, p + 1) == max(arrival(ctx, t, p), ctx.ready@[u as int] as int) + ctx.service(u) + dd(ctx.d@, u, b));
    } else {
        lemma_insert_tail(ctx, s, u, p, q - 1);
        assert(t[q] == s[q - 1]);
        assert(t[q + 1] == s[q]);
        let c = s[q - 1] as usize;
        let nx = s[q] as usize;
        assert(arrival(ctx, t, q + 1) == max(arrival(ctx, t, q), ctx.ready@[c as int] as int) + ctx.service(c) + dd(ctx.d@, c, nx));
        assert(arrival(ctx, s, q) == max(arrival(ctx, s, q - 1), ctx.ready@[c as int] as int) + ctx.service(c) + dd(ctx.d@, c, nx));
        assert(latest_at(ctx, s, q - 1) == min(ctx.due@[c as int] as int, latest_at(ctx, s, q) - ctx.service(c) - dd(ctx.d@, c, nx)));
    }
}

/// An insertion that the check accepts keeps a route that meets its due times
/// on time, and within the capacity.
pub proof fn lemma_insert_feasible(ctx: Ctx, s: Seq<u32>, u: usize, p: int)
    requires
        ctx.wf(),
        seq_ok(ctx, s),
        s[s.len() - 1] == 0,
        seq_on_time(ctx, s),
        1 <= p < s.len(),
        1 <= u < ctx.n,
        fits_seq(ctx, s, u, p),
    ensures
        seq_on_time(ctx, s.insert(p, u as u32)),
        demand_sum(ctx.demand@, nodes(s.insert(p, u as u32)).subrange(1, s.len() as int + 1)) <= ctx.cap,
{
    let t = s.insert(p, u as u32);
    assert forall|q: int| 1 <= q < t.len() implies #[trigger] arrival(ctx, t, q) <= ctx.due@[t[q] as int] by {
        if q < p {
            lemma_arrival_same(ctx, s, t, q);
            assert(t[q] == s[q]);
            assert(arrival(ctx, s, q) <= ctx.due@[s[q] as int]);
        } else if q == p {
            lemma_arrival_same(ctx, s, t, p - 1);
            assert(t[p - 1] == s[p - 1]);
            assert(t[p] == u as u32);
        } else {
            lemma_insert_tail(ctx, s, u, p, q - 1);
            assert(t[q] == s[q - 1]);
            assert(arrival(ctx, s, q - 1) <= ctx.due@[s[q - 1] as int]);
        }
    }
    let ns = nodes(s);
    let a = ns.subrange(1, p);
    let b = ns.subrange(p, s.len() as int);
    assert(ns.subrange(1, s.len() as int) =~= a + b);
    assert(nodes(t).subrange(1, s.len() as int + 1) =~= (a + seq![u]) + b);
    lemma_demand_sum_concat(ctx.demand@, a, b);
    lemma_demand_sum_concat(ctx.demand@, a + seq![u], b);
    lemma_demand_sum_concat(ctx.demand@, a, seq![u]);
    assert(demand_sum(ctx.demand@, seq![u]) == ctx.demand@[u as int]) by {
        assert(seq![u].drop_last() =~= Seq::<usize>::empty());
        assert(demand_sum(ctx.demand@, Seq::<usize>::empty()) == 0);
    }
}

/// After a customer is taken out, each later node is reached no later than the
/// node after it was before.
proof fn lemma_remove_tail(ctx: Ctx, s: Seq<u32>, p: int, q: int)
    requires
        ctx.wf(),
        sn_inst_ok(ctx),
        seq_ok(ctx, s),
        1 <= p < s.len() - 1,
        p <= q < s.len() - 1,
    ensures
        arrival(ctx, s.remove(p), q) <= arrival(ctx, s, q + 1),
    decreases q - p,
{
    let t = s.remove(p);
    if q == p {
        lemma_arrival_same(ctx, s, t, p - 1);
        let a = s[p - 1];
        let x = s[p];
        let b = s[p + 1];
        assert(t[p - 1] == a && t[p] == b);
        assert((a as int) < ctx.n && (x as int) < ctx.n && (b as int) < ctx.n);
        let au = a as usize;
        let xu = x as usize;
        let bu = b as usize;
        assert(dd(ctx.d@, au, bu) <= dd(ctx.d@, au, xu) + dd(ctx.d@, xu, bu));
        assert(ctx.service(xu) >= 0);
        assert(arrival(ctx, t, p) == max(arrival(ctx, t, p - 1), ctx.ready@[a as int] as int) + ctx.service(au) + dd(ctx.d@, au, bu));
        assert(arrival(ctx, s, p) == max(arrival(ctx, s, p - 1), ctx.ready@[a as int] as int) + ctx.service(au) + dd(ctx.d@, au, xu));
        assert(arrival(ctx, s, p + 1) == max(arrival(ctx, s, p), ctx.ready@[x as int] as int) + ctx.service(xu) + dd(ctx.d@, xu, bu));
    } else {
        lemma_remove_tail(ctx, s, p, q - 1);
        assert(t[q - 1] == s[q]);
        assert(t[q] == s[q + 1]);
        let c = s[q] as usize;
        let nx = s[q + 1] as usize;
        assert(arrival(ctx, t, q) == max(arrival(ctx, t, q - 1), ctx.ready@[c as int] as int) + ctx.service(c) + dd(ctx.d@, c, nx));
        assert(arrival(ctx, s, q + 1) == max(arrival(ctx, s, q), ctx.ready@[c as int] as int) + ctx.service(c) + dd(ctx.d@, c, nx));
    }
}

/// Taking an inner customer out keeps a route that meets its due times on
/// time, and does not raise its demand.
pub proof fn lemma_remove_feasible(ctx: Ctx, s: Seq<u32>, p: int)
    requires
        ctx.wf(),
        sn_inst_ok(ctx),
        seq_ok(ctx, s),
        seq_on_time(ctx, s),
        1 <= p < s.len() - 1,
    ensures
        seq_on_time(ctx, s.remove(p)),
        demand_sum(ctx.demand@, nodes(s.remove(p)).subrange(1, s.len() - 1)) <= demand_sum(ctx.demand@, nodes(s).subrange(1, s.len() as int)),
{
    let t = s.remove(p);
    assert forall|q: int| 1 <= q < t.len() implies #[trigger] arrival(ctx, t, q) <= ctx.due@[t[q] as int] by {
        if q < p {
            lemma_arrival_same(ctx, s, t, q);
            assert(t[q] == s[q]);
            assert(arrival(ctx, s, q) <= ctx.due@[s[q] as int]);
        } else {
            lemma_remove_tail(ctx, s, p, q);
            assert(t[q] == s[q + 1]);
            assert(arrival(ctx, s, q + 1) <= ctx.due@[s[q + 1] as int]);
        }
    }
    let ns = nodes(s);
    let a = ns.subrange(1, p);
    let b = ns.subrange(p + 1, s.len() as int);
    assert(ns.subrange(1, s.len() as int) =~= (a + seq![ns[p]]) + b);
    assert(nodes(t).subrange(1, s.len() - 1) =~= a + b);
    lemma_demand_sum_concat(ctx.demand@, a, b);
    lemma_demand_sum_concat(ctx.demand@, a + seq![ns[p]], b);
    lemma_demand_sum_concat(ctx.demand@, a, seq![ns[p]]);
    assert(demand_sum(ctx.demand@, seq![ns[p]]) == ctx.demand@[ns[p] as int]) by {
        assert(seq![ns[p]].drop_last() =~= Seq::<usize>::empty());
        assert(demand_sum(ctx.demand@, Seq::<usize>::empty()) == 0);
    }
    assert((s[p] as int) < ctx.n);
    assert(ctx.demand@[ns[p] as int] >= 0);
}

/// Routes with the same nodes and exact tables are as feasible as the others.
pub proof fn lemma_same_seqs_feasible(ctx: Ctx, a: Seq<Route>, b: Seq<Route>)
    requires
        sn_feasible(ctx, a),
        a.len() == b.len(),
        forall|r: int| 0 <= r < a.len() ==> #[trigger] route_fit(ctx, a[r]),
        forall|r: int| 0 <= r < b.len() ==> #[trigger] route_fit(ctx, b[r]),
        forall|r: int| 0 <= r < b.len() ==> (#[trigger] b[r]).seq@ == a[r].seq@,
    ensures
        sn_feasible(ctx, b),
{
    assert forall|r: int| 0 <= r < b.len() implies #[trigger] route_feasible(ctx, b[r]) by {
        assert(route_fit(ctx, a[r]));
        assert(route_fit(ctx, b[r]));
        assert(route_feasible(ctx, a[r]));
        assert(b[r].seq@ == a[r].seq@);
    }
}

/// Putting `v` in place of the node at position `p` changes the demand by the
/// difference of the two.
pub proof fn lemma_demand_update(ctx: Ctx, s: Seq<u32>, p: int, v: u32)
    requires
        1 <= p < s.len(),
    ensures
        demand_sum(ctx.demand@, nodes(s.update(p, v)).subrange(1, s.len() as int))
            == demand_sum(ctx.demand@, nodes(s).subrange(1, s.len() as int)) - ctx.demand@[s[p] as int] + ctx.demand@[v as int],
{
    let ns = nodes(s);
    let a = ns.subrange(1, p);
    let b = ns.subrange(p + 1, s.len() as int);
    let x = ns[p];
    let y = v as usize;
    assert(ns.subrange(1, s.len() as int) =~= (a + seq![x]) + b);
    assert(nodes(s.update(p, v)).subrange(1, s.len() as int) =~= (a + seq![y]) + b);
    lemma_demand_sum_concat(ctx.demand@, a + seq![x], b);
    lemma_demand_sum_concat(ctx.demand@, a + seq![y], b);
    lemma_demand_sum_concat(ctx.demand@, a, seq![x]);
    lemma_demand_sum_concat(ctx.demand@, a, seq![y]);
    assert(demand_sum(ctx.demand@, seq![x]) == ctx.demand@[x as int]) by {
        assert(seq![x].drop_last() =~= Seq::<usize>::empty());
        assert(demand_sum(ctx.demand@, Seq::<usize>::empty()) == 0);
    }
    assert(demand_sum(ctx.demand@, seq![y]) == ctx.demand@[y as int]) by {
        assert(seq![y].drop_last() =~= Seq::<usize>::empty());
        assert(demand_sum(ctx.demand@, Seq::<usize>::empty()) == 0);
    }
}

/// Reversing a sequence keeps its demand.
proof fn lemma_demand_reverse(demands: Seq<i32>, b: Seq<usize>)
    ensures
        demand_sum(demands, b.reverse()) == demand_sum(demands, b),
    decreases b.len(),
{
    if b.len() > 0 {
        let x = b.last();
        let d = b.drop_last();
        lemma_demand_reverse(demands, d);
        assert(b.reverse() =~= seq![x] + d.reverse());
        lemma_demand_sum_concat(demands, seq![x], d.reverse());
        assert(seq![x].drop_last() =~= Seq::<usize>::empty());
        assert(demand_sum(demands, Seq::<usize>::empty()) == 0);
    }
}

/// Reversing inner positions `lo..=hi` of a route keeps its demand.
pub proof fn lemma_demand_rev_nodes(ctx: Ctx, s: Seq<u32>, lo: int, hi: int)
    requires
        1 <= lo <= hi < s.len() - 1,
    ensures
        demand_sum(ctx.demand@, nodes(crate::sn_passes::rev_nodes(s, lo, hi)).subrange(1, s.len() as int))
            == demand_sum(ctx.demand@, nodes(s).subrange(1, s.len() as int)),
{
    let t = crate::sn_passes::rev_nodes(s, lo, hi);
    let ns = nodes(s);
    let a = ns.subrange(1, lo);
    let b = ns.subrange(lo, hi + 1);
    let c = ns.subrange(hi + 1, s.len() as int);
    assert(t.len() == s.len());
    assert(ns.subrange(1, s.len() as int) =~= (a + b) + c);
    assert forall|k: int| 0 <= k < b.len() implies #[trigger] b.reverse()[k] == nodes(t)[lo + k] by {
        assert(t[lo + k] == s.subrange(lo, hi + 1).reverse()[k]);
    }
    assert(nodes(t).subrange(1, s.len() as int) =~= (a + b.reverse()) + c);
    lemma_demand_sum_concat(ctx.demand@, a + b, c);
    lemma_demand_sum_concat(ctx.demand@, a + b.reverse(), c);
    lemma_demand_sum_concat(ctx.demand@, a, b);
    lemma_demand_sum_concat(ctx.demand@, a, b.reverse());
    lemma_demand_reverse(ctx.demand@, b);
}

/// Demands of nodes of the instance sum to no less than zero.
pub proof fn lemma_demand_nonneg(ctx: Ctx, s: Seq<usize>)
    requires
        sn_inst_ok(ctx),
        forall|k: int| 0 <= k < s.len() ==> (#[trigger] s[k] as int) < ctx.n,
    ensures
        demand_sum(ctx.demand@, s) >= 0,
    decreases s.len(),
{
    if s.len() > 0 {
        lemma_demand_nonneg(ctx, s.drop_last());
        assert((s[s.len() - 1] as int) < ctx.n);
    }
}

/// Cutting the `len` nodes at `i` out of a route takes their demand off it.
pub proof fn lemma_demand_cut(ctx: Ctx, s: Seq<u32>, i: int, len: int)
    requires
        1 <= i,
        0 <= len,
        i + len + 1 <= s.len(),
    ensures
        demand_sum(ctx.demand@, nodes(crate::sn_passes::cut32(s, i, len)).subrange(1, s.len() - len))
            + demand_sum(ctx.demand@, nodes(s).subrange(i, i + len))
            == demand_sum(ctx.demand@, nodes(s).subrange(1, s.len() as int)),
{
    let ns = nodes(s);
    let a = ns.subrange(1, i);
    let b = ns.subrange(i, i + len);
    let c = ns.subrange(i + len, s.len() as int);
    assert(ns.subrange(1, s.len() as int) =~= (a + b) + c);
    assert(nodes(crate::sn_passes::cut32(s, i, len)).subrange(1, s.len() - len) =~= a + c);
    lemma_demand_sum_concat(ctx.demand@, a + b, c);
    lemma_demand_sum_concat(ctx.demand@, a, b);
    lemma_demand_sum_concat(ctx.demand@, a, c);
}

/// Splicing a chain into a route before position `p` adds its demand.
pub proof fn lemma_demand_splice(ctx: Ctx, t: Seq<u32>, p: int, c: Seq<u32>)
    requires
        1 <= p < t.len(),
    ensures
        demand_sum(ctx.demand@, nodes(crate::sn_passes::splice32(t, p, c)).subrange(1, (t.len() + c.len()) as int))
            == demand_sum(ctx.demand@, nodes(t).subrange(1, t.len() as int)) + demand_sum(ctx.demand@, nodes(c)),
{
    let nt = nodes(t);
    let a = nt.subrange(1, p);
    let b = nt.subrange(p, t.len() as int);
    assert(nt.subrange(1, t.len() as int) =~= a + b);
    assert(nodes(crate::sn_passes::splice32(t, p, c)).subrange(1, (t.len() + c.len()) as int) =~= (a + nodes(c)) + b);
    lemma_demand_sum_concat(ctx.demand@, a + nodes(c), b);
    lemma_demand_sum_concat(ctx.demand@, a, nodes(c));
    lemma_demand_sum_concat(ctx.demand@, a, b);
}

/// A marked node can be taken out first: filtering the rest gives the same.
proof fn lemma_unmarked_remove(s: Seq<u32>, m: Seq<bool>, p: int)
    requires
        s.len() == m.len(),
        0 <= p < s.len(),
        m[p],
    ensures
        unmarked(s, m) == unmarked(s.remove(p), m.remove(p)),
    decreases s.len(),
{
    if p == s.len() - 1 {
        assert(s.remove(p) =~= s.drop_last());
        assert(m.remove(p) =~= m.drop_last());
    } else {
        lemma_unmarked_remove(s.drop_last(), m.drop_last(), p);
        assert(s.remove(p).drop_last() =~= s.drop_last().remove(p));
        assert(m.remove(p).drop_last() =~= m.drop_last().remove(p));
        assert(s.remove(p).last() == s.last());
        assert(m.remove(p).last() == m.last());
    }
}

/// With nothing marked, filtering keeps everything.
proof fn lemma_unmarked_none(s: Seq<u32>, m: Seq<bool>)
    requires
        s.len() == m.len(),
        forall|k: int| 0 <= k < m.len() ==> !#[trigger] m[k],
    ensures
        unmarked(s, m) == s,
    decreases s.len(),
{
    if s.len() > 0 {
        lemma_unmarked_none(s.drop_last(), m.drop_last());
        assert(!m[m.len() - 1]);
        assert(s.drop_last().push(s.last()) =~= s);
    }
}

/// Taking marked inner customers out keeps a route that meets its due times
/// on time, and does not raise its demand.
pub proof fn lemma_unmarked_feasible(ctx: Ctx, s: Seq<u32>, m: Seq<bool>)
    requires
        ctx.wf(),
        sn_inst_ok(ctx),
        seq_ok(ctx, s),
        seq_on_time(ctx, s),
        s.len() >= 2,
        m.len() == s.len(),
        !m[0],
        !m[m.len() - 1],
    ensures
        seq_on_time(ctx, unmarked(s, m)),
        unmarked(s, m).len() >= 2,
        demand_sum(ctx.demand@, nodes(unmarked(s, m)).subrange(1, unmarked(s, m).len() as int))
            <= demand_sum(ctx.demand@, nodes(s).subrange(1, s.len() as int)),
    decreases s.len(),
{
    if exists|p: int| 0 <= p < m.len() && #[trigger] m[p] {
        let p = choose|p: int| 0 <= p < m.len() && #[trigger] m[p];
        assert(0 < p < s.len() - 1);
        lemma_remove_feasible(ctx, s, p);
        lemma_unmarked_remove(s, m, p);
        let s2 = s.remove(p);
        let m2 = m.remove(p);
        assert(seq_ok(ctx, s2)) by {
            assert forall|k: int| 0 <= k < s2.len() implies (#[trigger] s2[k] as int) < ctx.n by {
                if k < p {
                    assert(s2[k] == s[k]);
                } else {
                    assert(s2[k] == s[k + 1]);
                }
            }
        }
        assert(m2[0] == m[0]);
        assert(m2[m2.len() - 1] == m[m.len() - 1]);
        lemma_unmarked_feasible(ctx, s2, m2);
    } else {
        lemma_unmarked_none(s, m);
    }
}

/// Dropping the routes without customers keeps the rest feasible.
pub proof fn lemma_kept_feasible(ctx: Ctx, rs: Seq<Route>)
    requires
        sn_feasible(ctx, rs),
    ensures
        sn_feasible(ctx, kept_routes(rs)),
    decreases rs.len(),
{
    if rs.len() > 0 {
        assert forall|r: int| 0 <= r < rs.drop_last().len() implies #[trigger] route_feasible(ctx, rs.drop_last()[r]) by {
            assert(route_feasible(ctx, rs[r]));
        }
        lemma_kept_feasible(ctx, rs.drop_last());
        assert(route_feasible(ctx, rs[rs.len() - 1]));
    }
}

} // verus!
