//! Why the schedule tables' constant-time checks are sound: on a route that is
//! on time, arriving at a node by its latest arrival time keeps every later
//! node on time, so an insertion that `try_insert` accepts and a reversal that
//! `is_two_opt_feasible` accepts give routes that are on time.
use vstd::prelude::*;
use crate::model::{max, min, dd, in_limit};
use crate::silver_nova::{Ctx, Route, arrival, latest_at, seq_ok, nodes, fits_seq};
use crate::sn_passes::{route_fit, seq_on_time, two_opt_tw, rev_nodes};
use crate::sharp_orbit::demand_sum;

verus! {

/// On a route that is on time and ends at the depot, every node after the
/// first is reached by its latest arrival time.
pub proof fn lemma_on_time_within_latest(ctx: Ctx, s: Seq<u32>, k: int)
    requires
        ctx.wf(),
        seq_ok(ctx, s),
        s.len() >= 2,
        s[s.len() - 1] == 0,
        seq_on_time(ctx, s),
        1 <= k < s.len(),
    ensures
        arrival(ctx, s, k) <= latest_at(ctx, s, k),
    decreases s.len() - k,
{
    if k == s.len() - 1 {
        assert(arrival(ctx, s, k) <= ctx.due@[s[k] as int]);
    } else {
        lemma_on_time_within_latest(ctx, s, k + 1);
        assert(arrival(ctx, s, k) <= ctx.due@[s[k] as int]);
    }
}

/// A sequence whose nodes from `q` on are those of an on-time route from `k`
/// on, and which reaches position `q` by the route's latest arrival time at `k`,
/// is on time from `q` on.
pub proof fn lemma_suffix_on_time(ctx: Ctx, s: Seq<u32>, t: Seq<u32>, k: int, q: int)
    requires
        ctx.wf(),
        seq_ok(ctx, s),
        s.len() >= 2,
        s[s.len() - 1] == 0,
        seq_on_time(ctx, s),
        0 <= k < s.len(),
        1 <= q,
        t.len() - q == s.len() - k,
        forall|m: int| 0 <= m < s.len() - k ==> #[trigger] t[q + m] == s[k + m],
        arrival(ctx, t, q) <= latest_at(ctx, s, k),
    ensures
        forall|m: int| q <= m < t.len() ==> #[trigger] arrival(ctx, t, m) <= ctx.due@[t[m] as int],
    decreases s.len() - k,
{
    assert(t[q + 0] == s[k + 0]);
    assert(in_limit(ctx.due@[0]));
    if k == s.len() - 1 {
        assert(latest_at(ctx, s, k) == ctx.depot_due);
        assert forall|m: int| q <= m < t.len() implies #[trigger] arrival(ctx, t, m) <= ctx.due@[t[m] as int] by {
            assert(m == q);
        }
    } else {
        let cur = s[k] as usize;
        let nxt = s[k + 1] as usize;
        assert(t[q + 1] == s[k + 1]);
        lemma_on_time_within_latest(ctx, s, k + 1);
        assert(latest_at(ctx, s, k) <= latest_at(ctx, s, k + 1) - ctx.service(cur) - dd(ctx.d@, cur, nxt));
        assert(arrival(ctx, s, k + 1) >= ctx.ready@[cur as int] + ctx.service(cur) + dd(ctx.d@, cur, nxt));
        assert(arrival(ctx, t, q + 1) == max(arrival(ctx, t, q), ctx.ready@[cur as int] as int) + ctx.service(cur) + dd(ctx.d@, cur, nxt));
        assert(arrival(ctx, t, q + 1) <= latest_at(ctx, s, k + 1));
        assert forall|m: int| 0 <= m < s.len() - (k + 1) implies #[trigger] t[(q + 1) + m] == s[(k + 1) + m] by {
            assert(t[q + (m + 1)] == s[k + (m + 1)]);
        }
        lemma_suffix_on_time(ctx, s, t, k + 1, q + 1);
        assert forall|m: int| q <= m < t.len() implies #[trigger] arrival(ctx, t, m) <= ctx.due@[t[m] as int] by {
            if m > q {
            } else {
                assert(latest_at(ctx, s, k) <= ctx.due@[cur as int]);
            }
        }
    }
}

/// Arrival times depend only on the nodes up to their position.
proof fn lemma_same_prefix_arrival(ctx: Ctx, s: Seq<u32>, t: Seq<u32>, p: int)
    requires
        0 <= p < s.len(),
        p < t.len(),
        forall|k: int| 0 <= k <= p ==> #[trigger] s[k] == t[k],
    ensures
        arrival(ctx, s, p) == arrival(ctx, t, p),
    decreases p,
{
    if p > 0 {
        lemma_same_prefix_arrival(ctx, s, t, p - 1);
        assert(s[p - 1] == t[p - 1]);
        assert(s[p] == t[p]);
    }
}

/// An insertion that `try_insert` accepts into a fitting route that is on time
/// gives a route that is on time and within the capacity.
pub proof fn law_accepted_insertion_on_time(ctx: Ctx, r: Route, u: usize, p: int)
    requires
        ctx.wf(),
        route_fit(ctx, r),
        r.on_time(ctx),
        (u as int) < ctx.n,
        1 <= p < r.seq@.len(),
        fits_seq(ctx, r.seq@, u, p),
    ensures
        seq_on_time(ctx, r.seq@.insert(p, u as u32)),
        demand_sum(ctx.demand@, nodes(r.seq@.insert(p, u as u32)).subrange(1, r.seq@.len() + 1int)) <= ctx.cap,
{
    let s = r.seq@;
    let t = s.insert(p, u as u32);
    assert(seq_ok(ctx, s));
    assert(seq_on_time(ctx, s)) by {
        crate::sn_passes::lemma_on_time(ctx, r);
    }
    // the prefix is unchanged
    assert forall|k: int| 0 <= k <= p - 1 implies #[trigger] s[k] == t[k] by {}
    lemma_same_prefix_arrival(ctx, s, t, p - 1);
    let a = s[p - 1] as usize;
    assert(t[p - 1] == s[p - 1]);
    assert(t[p] == u as u32);
    assert(r.arr@[p - 1] == arrival(ctx, s, p - 1));
    assert(arrival(ctx, t, p) == max(arrival(ctx, t, p - 1), ctx.ready@[a as int] as int) + ctx.service(a) + dd(ctx.d@, a, u));
    assert(arrival(ctx, t, p) <= ctx.due@[u as int]);
    // the node after the inserted one is reached by its latest arrival time
    assert(t[p + 1] == s[p]);
    assert(r.lat@[p] == latest_at(ctx, s, p));
    assert forall|m: int| 0 <= m < s.len() - p implies #[trigger] t[(p + 1) + m] == s[p + m] by {}
    lemma_suffix_on_time(ctx, s, t, p, p + 1);
    assert forall|m: int| 1 <= m < t.len() implies #[trigger] arrival(ctx, t, m) <= ctx.due@[t[m] as int] by {
        if m < p {
            assert forall|k: int| 0 <= k <= m implies #[trigger] s[k] == t[k] by {}
            lemma_same_prefix_arrival(ctx, s, t, m);
            assert(arrival(ctx, s, m) <= ctx.due@[s[m] as int]);
        }
    }
    let ns = nodes(s);
    assert((u as u32) as usize == u);
    let aa = ns.subrange(1, p);
    let bb = ns.subrange(p, s.len() as int);
    assert(ns.subrange(1, s.len() as int) =~= aa + bb);
    assert(nodes(t).subrange(1, s.len() + 1int) =~= (aa + seq![u]) + bb);
    crate::so_passes::lemma_demand_sum_concat(ctx.demand@, aa, bb);
    crate::so_passes::lemma_demand_sum_concat(ctx.demand@, aa + seq![u], bb);
    crate::so_passes::lemma_demand_sum_concat(ctx.demand@, aa, seq![u]);
    assert(seq![u].drop_last() =~= Seq::<usize>::empty());
    assert(demand_sum(ctx.demand@, seq![u]) == ctx.demand@[u as int]) by {
        assert(demand_sum(ctx.demand@, Seq::<usize>::empty()) == 0);
        assert(seq![u].last() == u);
    }
    assert(r.demand_sum == demand_sum(ctx.demand@, ns.subrange(1, s.len() as int)));
}

/// A reversal that `is_two_opt_feasible` accepts on a fitting route that is on
/// time gives a route that is on time.
pub proof fn law_accepted_reversal_on_time(ctx: Ctx, r: Route, i: int, j: int)
    requires
        ctx.wf(),
        route_fit(ctx, r),
        r.on_time(ctx),
        0 <= i < j,
        j + 1 < r.seq@.len(),
        two_opt_tw(ctx, r.seq@, i, j),
    ensures
        seq_on_time(ctx, rev_nodes(r.seq@, i + 1, j)),
{
    let s = r.seq@;
    let t = rev_nodes(s, i + 1, j);
    crate::sn_passes::lemma_rev_nodes(s, i + 1, j);
    assert(seq_ok(ctx, s));
    crate::sn_passes::lemma_on_time(ctx, r);
    assert forall|m: int| 0 <= m < s.len() - (j + 1) implies #[trigger] t[(j + 1) + m] == s[(j + 1) + m] by {}
    lemma_suffix_on_time(ctx, s, t, j + 1, j + 1);
    assert forall|m: int| 1 <= m < t.len() implies #[trigger] arrival(ctx, t, m) <= ctx.due@[t[m] as int] by {
        if m <= i {
            assert forall|k: int| 0 <= k <= m implies #[trigger] s[k] == t[k] by {}
            lemma_same_prefix_arrival(ctx, s, t, m);
            assert(arrival(ctx, s, m) <= ctx.due@[s[m] as int]);
        }
    }
}

} // verus!
