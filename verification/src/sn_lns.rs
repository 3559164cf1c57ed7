//! Destroy and repair for the schedule-table solver: two ways of picking
//! customers to take out, and the removal with regret-based reinsertion.
use vstd::prelude::*;
use vstd::multiset::Multiset;
use crate::silver_nova::{Ctx, Route, Sol, NodeLoc, xorshift64, fits_seq, nodes, seq_ok, rebuild_locator, refresh_route_loc, locates};
use crate::sn_passes::{sn_nodes, sn_ok, route_fit, loc_ok, points_at};
use crate::model::{custs, cust1, all_custs, lemma_custs_update, lemma_all_custs_update, LEN_LIMIT, max, dd, total_len};
use crate::construct::total_nodes;
use crate::primal_viper::xorshift_step;
use crate::sn_feasible::{sn_inst_ok, sn_feasible, route_feasible, lemma_unmarked_feasible, lemma_kept_feasible, lemma_insert_feasible};

verus! {

/// `u` occurs in `s`.
fn contains_node(s: &Vec<usize>, u: usize) -> (res: bool)
    ensures
        res == s@.contains(u),
{
    let mut k: usize = 0;
    while k < s.len()
        invariant
            k <= s@.len(),
            forall|q: int| 0 <= q < k ==> s@[q] != u,
        decreases s.len() - k,
    {
        if s[k] == u {
            return true;
        }
        k += 1;
    }
    false
}

/// The node a draw names: one of `1..n`, from the generator's new state.
pub open spec fn drawn_node(state: u64, n: usize) -> usize {
    (1 + ((state as usize) % ((n - 1) as usize))) as usize
}

/// The picks of `random_destroy` after `chosen`, with `left` draws left, from
/// generator state `state`: each draw advances the state and keeps the node it
/// names when the locator places it on a route and it is not picked yet; the
/// picks and the final state.
pub open spec fn random_picks(n: usize, loc: Seq<NodeLoc>, count: nat, left: nat, state: u64, chosen: Seq<usize>) -> (Seq<usize>, u64)
    decreases left,
{
    if chosen.len() >= count || left == 0 {
        (chosen, state)
    } else {
        let s2 = xorshift_step(state);
        let u = drawn_node(s2, n);
        if loc[u as int].route != u32::MAX && !chosen.contains(u) {
            random_picks(n, loc, count, (left - 1) as nat, s2, chosen.push(u))
        } else {
            random_picks(n, loc, count, (left - 1) as nat, s2, chosen)
        }
    }
}

/// Picks up to `count` distinct customers on routes at random: each of at most
/// `20 * count` draws names a node other than the depot, kept when the locator
/// places it on a route and it is not picked yet (`random_picks`).
pub fn random_destroy(ctx: &Ctx, loc: &Vec<NodeLoc>, rng: &mut u64, count: usize) -> (chosen: Vec<usize>)
    requires
        ctx.n >= 2,
        loc@.len() == ctx.n,
        count * 20 <= usize::MAX,
    ensures
        (chosen@, *final(rng)) == random_picks(ctx.n, loc@, count as nat, (count * 20) as nat, *old(rng), Seq::empty()),
        chosen@.len() <= count,
        chosen@.no_duplicates(),
        forall|k: int| 0 <= k < chosen@.len() ==> 1 <= #[trigger] chosen@[k] < ctx.n && loc@[chosen@[k] as int].route != u32::MAX,
{
    let mut chosen: Vec<usize> = Vec::new();
    let mut attempts: usize = 0;
    while chosen.len() < count && attempts < count * 20
        invariant
            ctx.n >= 2,
            loc@.len() == ctx.n,
            count * 20 <= usize::MAX,
            chosen@.len() <= count,
            attempts <= count * 20,
            chosen@.no_duplicates(),
            forall|k: int| 0 <= k < chosen@.len() ==> 1 <= #[trigger] chosen@[k] < ctx.n && loc@[chosen@[k] as int].route != u32::MAX,
            random_picks(ctx.n, loc@, count as nat, (count * 20) as nat, *old(rng), Seq::empty())
                == random_picks(ctx.n, loc@, count as nat, (count * 20 - attempts) as nat, *rng, chosen@),
        decreases count * 20 - attempts,
    {
        attempts += 1;
        let x = xorshift64(rng);
        let u = 1 + (x as usize % (ctx.n - 1));
        assert(u == drawn_node(x, ctx.n));
        if loc[u].route != u32::MAX && !contains_node(&chosen, u) {
            chosen.push(u);
        }
    }
    chosen
}

/// The relatedness of neighbour `v` to `pivot`: their distance, the
/// difference of their ready times, an eighth of the difference of their due
/// times, and `noise`.
pub open spec fn shaw_score(ctx: Ctx, pivot: usize, v: usize, noise: int) -> int {
    let dr = ctx.ready@[pivot as int] - ctx.ready@[v as int];
    let dd = ctx.due@[pivot as int] - ctx.due@[v as int];
    ctx.d@[pivot as int]@[v as int] + (if dr < 0 { -dr } else { dr }) + (if dd < 0 { -dd } else { dd }) / 8 + noise
}

/// Scanning the listed neighbours of `pivot` from the `k`-th on: each one on a
/// route and not picked yet takes a draw for its noise (the draw's low five
/// bits) and becomes the best when it scores below the best so far. The best
/// (0 for none) and the final generator state.
pub open spec fn shaw_scan(ctx: Ctx, loc: Seq<NodeLoc>, chosen: Seq<usize>, pivot: usize, k: int, state: u64, best_u: usize, best_score: int) -> (usize, u64)
    decreases ctx.neighbors@[pivot as int]@.len() - k,
{
    let nb = ctx.neighbors@[pivot as int]@;
    if k < 0 || k >= nb.len() {
        (best_u, state)
    } else {
        let v = nb[k] as usize;
        if loc[v as int].route != u32::MAX && !chosen.contains(v) {
            let s2 = xorshift_step(state);
            let sc = shaw_score(ctx, pivot, v, (s2 & 0x1Fu64) as int);
            if sc < best_score {
                shaw_scan(ctx, loc, chosen, pivot, k + 1, s2, v, sc)
            } else {
                shaw_scan(ctx, loc, chosen, pivot, k + 1, s2, best_u, best_score)
            }
        } else {
            shaw_scan(ctx, loc, chosen, pivot, k + 1, state, best_u, best_score)
        }
    }
}

/// Growing the picks `chosen` to `count`: a draw chooses a picked pivot, and
/// the pivot's best neighbour (`shaw_scan`) is picked; stops when a pivot has
/// none. The picks and the final generator state.
pub open spec fn shaw_grow(ctx: Ctx, loc: Seq<NodeLoc>, count: int, chosen: Seq<usize>, state: u64) -> (Seq<usize>, u64)
    decreases count - chosen.len(),
{
    if chosen.len() >= count || chosen.len() == 0 {
        (chosen, state)
    } else {
        let s2 = xorshift_step(state);
        let pivot = chosen[((s2 as usize) % (chosen.len() as usize)) as int];
        let (b, s3) = shaw_scan(ctx, loc, chosen, pivot, 0, s2, 0, i32::MAX as int);
        if b == 0 {
            (chosen, s3)
        } else {
            shaw_grow(ctx, loc, count, chosen.push(b), s3)
        }
    }
}

/// The picks of `shaw_destroy` from generator state `state`: a draw names the
/// seed; nothing when it is on no route, otherwise the seed grown by
/// `shaw_grow`. The picks and the final generator state.
pub open spec fn shaw_picks(ctx: Ctx, loc: Seq<NodeLoc>, count: int, state: u64) -> (Seq<usize>, u64) {
    let s1 = xorshift_step(state);
    let seed = drawn_node(s1, ctx.n);
    if loc[seed as int].route == u32::MAX {
        (Seq::empty(), s1)
    } else {
        shaw_grow(ctx, loc, count, seq![seed], s1)
    }
}

/// Picks up to `count` related customers on routes (at least the seed): a
/// random seed customer, then, while fewer than `count` are picked, the
/// listed neighbour of a random picked pivot that is on a route, not picked
/// yet and of the lowest relatedness score with some random noise; stops when
/// a pivot has no such neighbour (`shaw_picks`). Nothing when the seed is on no
/// route.
pub fn shaw_destroy(ctx: &Ctx, loc: &Vec<NodeLoc>, rng: &mut u64, count: usize) -> (chosen: Vec<usize>)
    requires
        ctx.wf(),
        ctx.n >= 2,
        loc@.len() == ctx.n,
    ensures
        (chosen@, *final(rng)) == shaw_picks(*ctx, loc@, count as int, *old(rng)),
        chosen@.len() <= (if count >= 1 { count } else { 1 }),
        chosen@.no_duplicates(),
        forall|k: int| 0 <= k < chosen@.len() ==> 1 <= #[trigger] chosen@[k] < ctx.n && loc@[chosen@[k] as int].route != u32::MAX,
{
    let x0 = xorshift64(rng);
    let seed = 1 + (x0 as usize % (ctx.n - 1));
    assert(seed == drawn_node(x0, ctx.n));
    if loc[seed].route == u32::MAX {
        return Vec::new();
    }
    let mut chosen: Vec<usize> = Vec::new();
    chosen.push(seed);
    while chosen.len() < count
        invariant
            ctx.wf(),
            loc@.len() == ctx.n,
            1 <= chosen@.len() <= (if count >= 1 { count } else { 1 }),
            chosen@.no_duplicates(),
            forall|k: int| 0 <= k < chosen@.len() ==> 1 <= #[trigger] chosen@[k] < ctx.n && loc@[chosen@[k] as int].route != u32::MAX,
            shaw_picks(*ctx, loc@, count as int, *old(rng)) == shaw_grow(*ctx, loc@, count as int, chosen@, *rng),
        decreases count - chosen.len(),
    {
        let xp = xorshift64(rng);
        let pivot = chosen[(xp as usize) % chosen.len()];
        let ghost s2 = *rng;
        let mut best_u: usize = 0;
        let mut best_score: i32 = i32::MAX;
        let nb = &ctx.neighbors[pivot];
        let mut k: usize = 0;
        while k < nb.len()
            invariant
                ctx.wf(),
                loc@.len() == ctx.n,
                (pivot as int) < ctx.n,
                *nb == ctx.neighbors@[pivot as int],
                k <= nb@.len(),
                best_u != 0 ==> (best_u as int) < ctx.n && loc@[best_u as int].route != u32::MAX && !chosen@.contains(best_u),
                shaw_scan(*ctx, loc@, chosen@, pivot, 0, s2, 0, i32::MAX as int)
                    == shaw_scan(*ctx, loc@, chosen@, pivot, k as int, *rng, best_u, best_score as int),
            decreases nb.len() - k,
        {
            let vu = nb[k] as usize;
            assert((vu as int) < ctx.n);
            if loc[vu].route != u32::MAX && !contains_node(&chosen, vu) {
                proof {
                    assert(crate::model::in_limit(ctx.d@[pivot as int]@[vu as int]));
                    assert(crate::model::in_limit(ctx.ready@[pivot as int]));
                    assert(crate::model::in_limit(ctx.ready@[vu as int]));
                    assert(crate::model::in_limit(ctx.due@[pivot as int]));
                    assert(crate::model::in_limit(ctx.due@[vu as int]));
                }
                let dr = ctx.ready[pivot] - ctx.ready[vu];
                let dd = ctx.due[pivot] - ctx.due[vu];
                let ar = if dr < 0 { -dr } else { dr };
                let ad = if dd < 0 { -dd } else { dd };
                let x = xorshift64(rng);
                let m = x & 0x1Fu64;
                assert(m <= 31) by (bit_vector)
                    requires
                        m == x & 0x1Fu64,
                ;
                let noise = m as i32;
                let sc = ctx.d[pivot][vu] + ar + ad / 8 + noise;
                assert(sc == shaw_score(*ctx, pivot, vu, (x & 0x1Fu64) as int));
                if sc < best_score {
                    best_score = sc;
                    best_u = vu;
                }
            }
            k += 1;
        }
        if best_u == 0 {
            return chosen;
        }
        proof {
            assert forall|a: int, b: int| 0 <= a < b < chosen@.push(best_u).len() implies chosen@.push(best_u)[a] != chosen@.push(best_u)[b] by {
                if b == chosen@.len() {
                    assert(chosen@.contains(chosen@[a]));
                }
            }
        }
        chosen.push(best_u);
    }
    chosen
}

/// The elements of `s` at the positions that `m` leaves unmarked, in order.
pub open spec fn unmarked<A>(s: Seq<A>, m: Seq<bool>) -> Seq<A>
    decreases s.len(),
{
    if s.len() == 0 || m.len() == 0 {
        Seq::empty()
    } else if m[m.len() - 1] {
        unmarked(s.drop_last(), m.drop_last())
    } else {
        unmarked(s.drop_last(), m.drop_last()).push(s.last())
    }
}

/// Filtering commutes with numbering the nodes, and keeps only elements of
/// the sequence.
proof fn lemma_unmarked_nodes(s: Seq<u32>, m: Seq<bool>)
    requires
        s.len() == m.len(),
    ensures
        nodes(unmarked(s, m)) == unmarked(nodes(s), m),
        forall|x: u32| unmarked(s, m).contains(x) ==> s.contains(x),
        unmarked(s, m).len() <= s.len(),
    decreases s.len(),
{
    if s.len() > 0 {
        lemma_unmarked_nodes(s.drop_last(), m.drop_last());
        assert(nodes(s).drop_last() =~= nodes(s.drop_last()));
        assert forall|x: u32| unmarked(s, m).contains(x) implies s.contains(x) by {
            if unmarked(s.drop_last(), m.drop_last()).contains(x) {
                assert(s.drop_last().contains(x));
                let q = choose|q: int| 0 <= q < s.drop_last().len() && s.drop_last()[q] == x;
                assert(s[q] == x);
            } else {
                assert(x == s.last());
                assert(s[s.len() - 1] == x);
            }
        }
        if !m[m.len() - 1] {
            assert(nodes(unmarked(s, m)) =~= nodes(unmarked(s.drop_last(), m.drop_last())).push(s.last() as usize));
        }
    } else {
        assert(nodes(unmarked(s, m)) =~= unmarked(nodes(s), m));
    }
}

/// Filtering a concatenation filters both parts.
proof fn lemma_unmarked_concat<A>(a: Seq<A>, ma: Seq<bool>, b: Seq<A>, mb: Seq<bool>)
    requires
        a.len() == ma.len(),
        b.len() == mb.len(),
    ensures
        unmarked(a + b, ma + mb) == unmarked(a, ma) + unmarked(b, mb),
    decreases b.len(),
{
    if b.len() == 0 {
        assert(a + b =~= a);
        assert(ma + mb =~= ma);
        assert(unmarked(b, mb) =~= Seq::<A>::empty());
        assert(unmarked(a, ma) + unmarked(b, mb) =~= unmarked(a, ma));
    } else {
        assert((a + b).drop_last() =~= a + b.drop_last());
        assert((ma + mb).drop_last() =~= ma + mb.drop_last());
        lemma_unmarked_concat(a, ma, b.drop_last(), mb.drop_last());
        if !mb[mb.len() - 1] {
            assert(unmarked(a, ma) + unmarked(b, mb) =~= (unmarked(a, ma) + unmarked(b.drop_last(), mb.drop_last())).push(b.last()));
        }
    }
}

/// Filtering out positions that hold the depot keeps the customers; `n` and
/// `g` agree where `m` is unmarked.
proof fn lemma_unmarked_custs(n: Seq<usize>, g: Seq<usize>, m: Seq<bool>)
    requires
        n.len() == m.len(),
        g.len() == m.len(),
        forall|p: int| 0 <= p < m.len() ==> #[trigger] m[p] ==> g[p] == 0,
        forall|p: int| 0 <= p < m.len() ==> !#[trigger] m[p] ==> g[p] == n[p],
    ensures
        custs(unmarked(n, m)) == custs(g),
    decreases m.len(),
{
    broadcast use vstd::multiset::group_multiset_axioms;
    if m.len() > 0 {
        let k = m.len() - 1;
        assert(m[k] ==> g[k] == 0);
        lemma_unmarked_custs(n.drop_last(), g.drop_last(), m.drop_last());
        assert(custs(g) == custs(g.drop_last()).add(cust1(g.last())));
        let rest = unmarked(n.drop_last(), m.drop_last());
        if m[k] {
            assert(cust1(g.last()) =~= Multiset::<usize>::empty());
            assert(unmarked(n, m) == rest);
            assert(custs(g) =~= custs(g.drop_last()));
        } else {
            assert(g.last() == n.last());
            assert(unmarked(n, m) == rest.push(n.last()));
            assert(rest.push(n.last()).drop_last() =~= rest);
            assert(custs(rest.push(n.last())) == custs(rest).add(cust1(n.last())));
        }
    } else {
        assert(unmarked(n, m) =~= Seq::<usize>::empty());
        assert(custs(g) =~= Multiset::<usize>::empty());
    }
}

/// Filtering a route's inner positions keeps the depot at both ends and only
/// customers in between.
proof fn lemma_unmarked_shape(s: Seq<u32>, m: Seq<bool>)
    requires
        s.len() == m.len(),
        s.len() >= 2,
        !m[0],
        !m[m.len() - 1],
        forall|k: int| 0 < k < s.len() - 1 ==> #[trigger] s[k] != 0,
    ensures
        unmarked(s, m).len() >= 2,
        unmarked(s, m)[0] == s[0],
        unmarked(s, m)[unmarked(s, m).len() - 1] == s[s.len() - 1],
        forall|k: int| 0 < k < unmarked(s, m).len() - 1 ==> #[trigger] unmarked(s, m)[k] != 0,
{
    let l = s.len();
    let a = seq![s[0]];
    let ma = seq![m[0]];
    let mid = s.subrange(1, l - 1);
    let mm = m.subrange(1, l - 1);
    let b = seq![s[l - 1]];
    let mb = seq![m[l - 1]];
    assert(s =~= a + mid + b);
    assert(m =~= ma + mm + mb);
    lemma_unmarked_concat(a + mid, ma + mm, b, mb);
    lemma_unmarked_concat(a, ma, mid, mm);
    assert(unmarked(a, ma) =~= a) by {
        assert(a.drop_last() =~= Seq::<u32>::empty());
        assert(unmarked(a.drop_last(), ma.drop_last()) =~= Seq::<u32>::empty());
    }
    assert(unmarked(b, mb) =~= b) by {
        assert(b.drop_last() =~= Seq::<u32>::empty());
        assert(unmarked(b.drop_last(), mb.drop_last()) =~= Seq::<u32>::empty());
    }
    lemma_unmarked_nodes(mid, mm);
    let um = unmarked(mid, mm);
    let r = unmarked(s, m);
    assert(r =~= a + um + b);
    assert forall|k: int| 0 < k < r.len() - 1 implies #[trigger] r[k] != 0 by {
        assert(r[k] == um[k - 1]);
        assert(um.contains(um[k - 1]));
        assert(mid.contains(um[k - 1]));
        let q = choose|q: int| 0 <= q < mid.len() && mid[q] == um[k - 1];
        assert(mid[q] == s[q + 1]);
    }
}

/// The customers of the first `k` nodes of a route that starts at the depot
/// and has only customers after it: `k - 1` of them.
proof fn lemma_custs_len_prefix(s: Seq<usize>, k: int)
    requires
        1 <= k <= s.len(),
        s[0] == 0,
        forall|q: int| 0 < q < k ==> #[trigger] s[q] != 0,
    ensures
        custs(s.subrange(0, k)).len() == k - 1,
    decreases k,
{
    broadcast use vstd::multiset::group_multiset_axioms;
    let t = s.subrange(0, k);
    if k == 1 {
        assert(t.drop_last() =~= Seq::<usize>::empty());
        assert(custs(t.drop_last()) =~= Multiset::<usize>::empty());
        assert(t.last() == 0);
    } else {
        lemma_custs_len_prefix(s, k - 1);
        assert(t.drop_last() =~= s.subrange(0, k - 1));
        assert(t.last() == s[k - 1]);
        assert(s[k - 1] != 0);
    }
}

/// A fitting route's nodes hold two fewer customers than nodes.
proof fn lemma_custs_len_route(s: Seq<usize>)
    requires
        s.len() >= 2,
        s[0] == 0,
        s[s.len() - 1] == 0,
        forall|q: int| 0 < q < s.len() - 1 ==> #[trigger] s[q] != 0,
    ensures
        custs(s).len() == s.len() - 2,
{
    broadcast use vstd::multiset::group_multiset_axioms;
    lemma_custs_len_prefix(s, s.len() - 1);
    assert(s.drop_last() =~= s.subrange(0, s.len() - 1));
    assert(s.last() == 0);
}

/// Fitting routes hold as many nodes as customers plus two depot visits each.
pub proof fn lemma_fit_count(ctx: Ctx, rs: Seq<Route>)
    requires
        forall|r: int| 0 <= r < rs.len() ==> #[trigger] route_fit(ctx, rs[r]),
    ensures
        total_nodes(sn_nodes(rs)) == all_custs(sn_nodes(rs)).len() + 2 * rs.len(),
    decreases rs.len(),
{
    broadcast use vstd::multiset::group_multiset_axioms;
    if rs.len() > 0 {
        let rest = rs.drop_last();
        assert forall|r: int| 0 <= r < rest.len() implies #[trigger] route_fit(ctx, rest[r]) by {
            assert(route_fit(ctx, rs[r]));
        }
        lemma_fit_count(ctx, rest);
        assert(sn_nodes(rs).drop_last() =~= sn_nodes(rest));
        assert(route_fit(ctx, rs[rs.len() - 1]));
        let l = nodes(rs.last().seq@);
        assert(sn_nodes(rs).last() == l);
        lemma_custs_len_route(l);
    } else {
        assert(all_custs(sn_nodes(rs)) =~= Multiset::<usize>::empty());
    }
}

/// Lists of routes whose routes have the same customers one by one have the
/// same customers.
proof fn lemma_all_custs_rowwise(a: Seq<Seq<usize>>, b: Seq<Seq<usize>>)
    requires
        a.len() == b.len(),
        forall|r: int| 0 <= r < a.len() ==> custs(#[trigger] a[r]) == custs(b[r]),
    ensures
        all_custs(a) == all_custs(b),
    decreases a.len(),
{
    if a.len() > 0 {
        lemma_all_custs_rowwise(a.drop_last(), b.drop_last());
        assert(custs(a[a.len() - 1]) == custs(b[b.len() - 1]));
    }
}

/// The elements of `s` at positions not marked in `m`.
fn keep_unmarked(s: &Vec<u32>, m: &Vec<bool>) -> (res: Vec<u32>)
    requires
        s@.len() == m@.len(),
    ensures
        res@ == unmarked(s@, m@),
{
    let mut out: Vec<u32> = Vec::new();
    let mut p: usize = 0;
    proof {
        assert(unmarked(s@.subrange(0, 0), m@.subrange(0, 0)) =~= Seq::<u32>::empty());
    }
    while p < s.len()
        invariant
            s@.len() == m@.len(),
            p <= s@.len(),
            out@ == unmarked(s@.subrange(0, p as int), m@.subrange(0, p as int)),
        decreases s.len() - p,
    {
        assert(s@.subrange(0, p + 1).drop_last() =~= s@.subrange(0, p as int));
        assert(m@.subrange(0, p + 1).drop_last() =~= m@.subrange(0, p as int));
        if !m[p] {
            out.push(s[p]);
        }
        p += 1;
    }
    assert(s@.subrange(0, p as int) =~= s@);
    assert(m@.subrange(0, p as int) =~= m@);
    out
}

/// Takes every customer of `to_remove` out of the place the locator gives for
/// it (a route's places all at once, so that the others do not shift), drops
/// the routes left without customers and rebuilds the locator.
fn remove_listed(ctx: &Ctx, sol: &mut Sol, loc: &mut Vec<NodeLoc>, to_remove: &Vec<usize>)
    requires
        ctx.wf(),
        sn_ok(*ctx, old(sol).routes@),
        loc_ok(old(sol).routes@, old(loc)@, ctx.n as int),
        to_remove@.no_duplicates(),
        forall|k: int| 0 <= k < to_remove@.len() ==> 1 <= #[trigger] to_remove@[k] < ctx.n && old(loc)@[to_remove@[k] as int].route != u32::MAX,
    ensures
        sn_ok(*ctx, final(sol).routes@),
        loc_ok(final(sol).routes@, final(loc)@, ctx.n as int),
        final(sol).total_dist == old(sol).total_dist,
        final(sol).routes@.len() <= old(sol).routes@.len(),
        all_custs(sn_nodes(final(sol).routes@)).add(to_remove@.to_multiset()) == all_custs(sn_nodes(old(sol).routes@)),
        sn_inst_ok(*ctx) && sn_feasible(*ctx, old(sol).routes@) ==> sn_feasible(*ctx, final(sol).routes@),
{
    let ghost nn = sn_nodes(sol.routes@);
    let nr = sol.routes.len();
    let mut marks: Vec<Vec<bool>> = Vec::new();
    let mut r: usize = 0;
    while r < nr
        invariant
            nr == sol.routes@.len(),
            nn == sn_nodes(sol.routes@),
            r <= nr,
            marks@.len() == r,
            forall|x: int| 0 <= x < r ==> (#[trigger] marks@[x])@.len() == nn[x].len(),
            forall|x: int, p: int| 0 <= x < r && 0 <= p < nn[x].len() ==> !(#[trigger] marks@[x]@[p]),
        decreases nr - r,
    {
        let len = sol.routes[r].seq.len();
        let mut m: Vec<bool> = Vec::new();
        while m.len() < len
            invariant
                m@.len() <= len,
                forall|p: int| 0 <= p < m@.len() ==> !#[trigger] m@[p],
            decreases len - m.len(),
        {
            m.push(false);
        }
        marks.push(m);
        r += 1;
    }
    let ghost mut g = nn;
    let mut k: usize = 0;
    proof {
        assert(to_remove@.subrange(0, 0).to_multiset() =~= Multiset::<usize>::empty()) by {
            vstd::seq_lib::to_multiset_len(to_remove@.subrange(0, 0));
            vstd::multiset::lemma_multiset_empty_len(to_remove@.subrange(0, 0).to_multiset());
        }
        assert(all_custs(g).add(to_remove@.subrange(0, 0).to_multiset()) =~= all_custs(nn)) by {
            broadcast use vstd::multiset::group_multiset_axioms;
        }
    }
    while k < to_remove.len()
        invariant
            ctx.wf(),
            sn_ok(*ctx, sol.routes@),
            loc_ok(sol.routes@, loc@, ctx.n as int),
            nn == sn_nodes(sol.routes@),
            to_remove@.no_duplicates(),
            forall|q: int| 0 <= q < to_remove@.len() ==> 1 <= #[trigger] to_remove@[q] < ctx.n && loc@[to_remove@[q] as int].route != u32::MAX,
            k <= to_remove@.len(),
            marks@.len() == nn.len(),
            g.len() == nn.len(),
            forall|x: int| 0 <= x < nn.len() ==> (#[trigger] marks@[x])@.len() == nn[x].len() && g[x].len() == nn[x].len(),
            forall|x: int, p: int| 0 <= x < nn.len() && 0 <= p < nn[x].len() ==> #[trigger] g[x][p] == (if marks@[x]@[p] { 0 } else { nn[x][p] }),
            forall|x: int, p: int| 0 <= x < nn.len() && 0 <= p < nn[x].len() && #[trigger] marks@[x]@[p] ==> 0 < p < nn[x].len() - 1
                && to_remove@.subrange(0, k as int).contains(nn[x][p]),
            all_custs(g).add(to_remove@.subrange(0, k as int).to_multiset()) == all_custs(nn),
        decreases to_remove.len() - k,
    {
        let u = to_remove[k];
        let l = loc[u];
        let ri = l.route as usize;
        let p = l.pos as usize;
        proof {
            assert(points_at(sol.routes@, loc@[u as int], u as int));
            assert(route_fit(*ctx, sol.routes@[ri as int]));
            assert(nn[ri as int] == nodes(sol.routes@[ri as int].seq@));
            assert(nn[ri as int][p as int] == u);
            assert(0 < p < nn[ri as int].len() - 1);
            if marks@[ri as int]@[p as int] {
                assert(to_remove@.subrange(0, k as int).contains(u));
                let q = choose|q: int| 0 <= q < k && to_remove@.subrange(0, k as int)[q] == u;
                assert(to_remove@[q] == to_remove@[k as int]);
                assert(false);
            }
        }
        let ghost gold = g;
        let ghost mold = marks@;
        marks[ri].set(p, true);
        proof {
            g = g.update(ri as int, g[ri as int].update(p as int, 0));
            assert forall|x: int| 0 <= x < nn.len() implies (#[trigger] marks@[x])@.len() == nn[x].len() && g[x].len() == nn[x].len() by {
                if x != ri {
                    assert(marks@[x] == mold[x]);
                    assert(g[x] == gold[x]);
                }
            }
            assert forall|x: int, q: int| 0 <= x < nn.len() && 0 <= q < nn[x].len() implies #[trigger] g[x][q] == (if marks@[x]@[q] { 0 } else { nn[x][q] }) by {
                if x != ri {
                    assert(marks@[x] == mold[x]);
                    assert(g[x] == gold[x]);
                } else if q != p {
                    assert(marks@[x]@[q] == mold[x]@[q]);
                    assert(g[x][q] == gold[x][q]);
                }
            }
            lemma_custs_update(gold[ri as int], p as int, 0);
            lemma_all_custs_update(gold, ri as int, gold[ri as int].update(p as int, 0));
            let pre = to_remove@.subrange(0, k as int);
            let pre1 = to_remove@.subrange(0, k + 1);
            assert(pre1 =~= pre.push(u));
            vstd::seq_lib::to_multiset_build(pre, u);
            assert(all_custs(g).add(pre1.to_multiset()) =~= all_custs(nn)) by {
                broadcast use vstd::multiset::group_multiset_axioms;
                assert(gold[ri as int][p as int] == u);
                assert(cust1(u) =~= Multiset::singleton(u));
                assert(cust1(0) =~= Multiset::<usize>::empty());
                assert forall|v: usize| all_custs(g).add(pre1.to_multiset()).count(v) == all_custs(nn).count(v) by {
                    assert(all_custs(g).add(custs(gold[ri as int])).count(v) == all_custs(gold).add(custs(g[ri as int])).count(v));
                    assert(custs(g[ri as int]).add(cust1(u)).count(v) == custs(gold[ri as int]).add(cust1(0)).count(v));
                    assert(all_custs(gold).add(pre.to_multiset()).count(v) == all_custs(nn).count(v));
                }
            }
            assert forall|x: int, q: int| 0 <= x < nn.len() && 0 <= q < nn[x].len() && #[trigger] marks@[x]@[q] implies 0 < q < nn[x].len() - 1
                && to_remove@.subrange(0, k + 1).contains(nn[x][q]) by {
                if x == ri && q == p {
                    assert(to_remove@.subrange(0, k + 1)[k as int] == u);
                } else {
                    assert(marks@[x]@[q] == mold[x]@[q]);
                    assert(to_remove@.subrange(0, k as int).contains(nn[x][q]));
                    let w = choose|w: int| 0 <= w < k && to_remove@.subrange(0, k as int)[w] == nn[x][q];
                    assert(to_remove@.subrange(0, k + 1)[w] == nn[x][q]);
                }
            }
        }
        k += 1;
    }
    let mut new_routes: Vec<Route> = Vec::new();
    let mut r2: usize = 0;
    while r2 < nr
        invariant
            ctx.wf(),
            sn_ok(*ctx, sol.routes@),
            nn == sn_nodes(sol.routes@),
            nr == sol.routes@.len(),
            marks@.len() == nn.len(),
            g.len() == nn.len(),
            forall|x: int| 0 <= x < nn.len() ==> (#[trigger] marks@[x])@.len() == nn[x].len() && g[x].len() == nn[x].len(),
            forall|x: int, p: int| 0 <= x < nn.len() && 0 <= p < nn[x].len() ==> #[trigger] g[x][p] == (if marks@[x]@[p] { 0 } else { nn[x][p] }),
            forall|x: int, p: int| 0 <= x < nn.len() && 0 <= p < nn[x].len() && #[trigger] marks@[x]@[p] ==> 0 < p < nn[x].len() - 1,
            r2 <= nr,
            new_routes@.len() == r2,
            forall|x: int| 0 <= x < r2 ==> #[trigger] route_fit(*ctx, new_routes@[x]),
            forall|x: int| 0 <= x < r2 ==> #[trigger] custs(nodes(new_routes@[x].seq@)) == custs(g[x]),
            sn_inst_ok(*ctx) && sn_feasible(*ctx, sol.routes@) ==> forall|x: int| 0 <= x < r2 ==> #[trigger] route_feasible(*ctx, new_routes@[x]),
        decreases nr - r2,
    {
        let s = &sol.routes[r2].seq;
        let m = &marks[r2];
        proof {
            assert(route_fit(*ctx, sol.routes@[r2 as int]));
            assert(nn[r2 as int] == nodes(s@));
        }
        let kept = keep_unmarked(s, m);
        proof {
            lemma_unmarked_nodes(s@, m@);
            lemma_unmarked_shape(s@, m@);
            lemma_unmarked_custs(nn[r2 as int], g[r2 as int], m@);
            assert(seq_ok(*ctx, s@));
            assert forall|q: int| 0 <= q < kept@.len() implies (#[trigger] kept@[q] as int) < ctx.n by {
                assert(kept@.contains(kept@[q]));
                assert(s@.contains(kept@[q]));
                let w = choose|w: int| 0 <= w < s@.len() && s@[w] == kept@[q];
            }
        }
        let nroute = crate::sn_passes::route_of(ctx, kept);
        proof {
            if sn_inst_ok(*ctx) && sn_feasible(*ctx, sol.routes@) {
                assert(route_feasible(*ctx, sol.routes@[r2 as int]));
                assert(!m@[0]);
                assert(!m@[m@.len() - 1]);
                lemma_unmarked_feasible(*ctx, s@, m@);
                assert(route_feasible(*ctx, nroute));
            }
        }
        let ghost before_push = new_routes@;
        new_routes.push(nroute);
        proof {
            if sn_inst_ok(*ctx) && sn_feasible(*ctx, sol.routes@) {
                assert forall|x: int| 0 <= x < r2 + 1 implies #[trigger] route_feasible(*ctx, new_routes@[x]) by {
                    if x < r2 {
                        assert(new_routes@[x] == before_push[x]);
                    }
                }
            }
        }
        r2 += 1;
    }
    let ghost feas0 = sn_inst_ok(*ctx) && sn_feasible(*ctx, sol.routes@);
    proof {
        assert forall|x: int| 0 <= x < nn.len() implies custs(#[trigger] sn_nodes(new_routes@)[x]) == custs(g[x]) by {
            assert(sn_nodes(new_routes@)[x] == nodes(new_routes@[x].seq@));
        }
        lemma_all_custs_rowwise(sn_nodes(new_routes@), g);
        lemma_fit_count(*ctx, new_routes@);
        lemma_fit_count(*ctx, sol.routes@);
        vstd::seq_lib::to_multiset_len(to_remove@);
        assert(to_remove@.subrange(0, to_remove@.len() as int) =~= to_remove@);
    }
    sol.routes = new_routes;
    let ghost full = sol.routes@;
    sol.cleanup_empty();
    proof {
        crate::sn_passes::lemma_kept(*ctx, full);
        crate::sn_passes::lemma_sn_locatable(*ctx, sol.routes@);
        if feas0 {
            lemma_kept_feasible(*ctx, full);
        }
    }
    rebuild_locator(ctx, sol, loc);
    proof {
        crate::sn_passes::lemma_rebuilt_ok(*ctx, sol.routes@, loc@);
    }
}

/// The added length of putting `u` between positions `p - 1` and `p` of `s`.
pub open spec fn gap_cost(ctx: Ctx, s: Seq<u32>, u: usize, p: int) -> int {
    dd(ctx.d@, s[p - 1] as usize, u) + dd(ctx.d@, u, s[p] as usize) - dd(ctx.d@, s[p - 1] as usize, s[p] as usize)
}

/// `u` fits at position `p` of route `r`.
pub open spec fn place_ok(ctx: Ctx, rs: Seq<Route>, u: usize, r: int, p: int) -> bool {
    &&& 0 <= r < rs.len()
    &&& 1 <= p < rs[r].seq@.len()
    &&& fits_seq(ctx, rs[r].seq@, u, p)
}

/// Place `(r, p)` comes before `(r2, p2)`: an earlier route, or an earlier
/// position in the same route.
pub open spec fn place_before(r: int, p: int, r2: int, p2: int) -> bool {
    r < r2 || (r == r2 && p < p2)
}

/// `(r1, p1)` is the first cheapest place for `u` over all routes.
pub open spec fn first_place(ctx: Ctx, rs: Seq<Route>, u: usize, r1: int, p1: int) -> bool {
    &&& place_ok(ctx, rs, u, r1, p1)
    &&& forall|r: int, p: int| #[trigger] place_ok(ctx, rs, u, r, p) ==> gap_cost(ctx, rs[r1].seq@, u, p1) <= gap_cost(ctx, rs[r].seq@, u, p)
    &&& forall|r: int, p: int| place_before(r, p, r1, p1) && #[trigger] place_ok(ctx, rs, u, r, p)
        ==> gap_cost(ctx, rs[r1].seq@, u, p1) < gap_cost(ctx, rs[r].seq@, u, p)
}

/// `v2` is the cheapest cost of `u` over its places other than `(r1, p1)`, or
/// `cap` when it has no other.
pub open spec fn second_cost(ctx: Ctx, rs: Seq<Route>, u: usize, r1: int, p1: int, v2: int, cap: int) -> bool {
    ||| (exists|r: int, p: int| #[trigger] place_ok(ctx, rs, u, r, p) && (r != r1 || p != p1) && gap_cost(ctx, rs[r].seq@, u, p) == v2)
        && (forall|r: int, p: int| #[trigger] place_ok(ctx, rs, u, r, p) && (r != r1 || p != p1) ==> v2 <= gap_cost(ctx, rs[r].seq@, u, p))
    ||| v2 == cap && (forall|r: int, p: int| #[trigger] place_ok(ctx, rs, u, r, p) ==> r == r1 && p == p1)
}

/// `u` fits somewhere.
pub open spec fn has_place(ctx: Ctx, rs: Seq<Route>, u: usize) -> bool {
    exists|r: int, p: int| #[trigger] place_ok(ctx, rs, u, r, p)
}

/// `g` is the regret of `u` and `c1` its cheapest cost: the second cheapest cost
/// (`cap` when it fits once) minus the cheapest.
pub open spec fn place_regret(ctx: Ctx, rs: Seq<Route>, u: usize, cap: int, g: int, c1: int) -> bool {
    exists|r1: int, p1: int, v2: int| #[trigger] second_cost(ctx, rs, u, r1, p1, v2, cap) && first_place(ctx, rs, u, r1, p1)
        && c1 == gap_cost(ctx, rs[r1].seq@, u, p1) && g == v2 - c1
}

/// `gs[k]` and `cs[k]` are the regret and cheapest cost of every customer
/// `removed[k]` that fits somewhere.
pub open spec fn place_regret_table(ctx: Ctx, rs: Seq<Route>, removed: Seq<usize>, cap: int, gs: Seq<int>, cs: Seq<int>) -> bool {
    &&& gs.len() == removed.len()
    &&& cs.len() == removed.len()
    &&& forall|k: int| 0 <= k < removed.len() && #[trigger] has_place(ctx, rs, removed[k]) ==> place_regret(ctx, rs, removed[k], cap, gs[k], cs[k])
}

/// Customer `removed[idx]` is the regret choice: the largest regret among the
/// customers that fit somewhere, the lower cheapest cost on equal regret, the
/// first on a full tie.
pub open spec fn place_regret_best(ctx: Ctx, rs: Seq<Route>, removed: Seq<usize>, cap: int, idx: int) -> bool {
    exists|gs: Seq<int>, cs: Seq<int>| #[trigger] place_regret_table(ctx, rs, removed, cap, gs, cs)
        && (forall|k: int| 0 <= k < removed.len() && #[trigger] has_place(ctx, rs, removed[k])
            ==> gs[k] < gs[idx] || (gs[k] == gs[idx] && cs[k] >= cs[idx]))
        && (forall|k: int| 0 <= k < idx && #[trigger] has_place(ctx, rs, removed[k])
            ==> gs[k] < gs[idx] || (gs[k] == gs[idx] && cs[k] > cs[idx]))
}

/// A place's cost is small.
proof fn lemma_gap_cost_bounds(ctx: Ctx, rs: Seq<Route>, u: usize, r: int, p: int)
    requires
        ctx.wf(),
        sn_ok(ctx, rs),
        (u as int) < ctx.n,
        0 <= r < rs.len(),
        1 <= p < rs[r].seq@.len(),
    ensures
        -400_000 <= gap_cost(ctx, rs[r].seq@, u, p) <= 400_000,
{
    assert(route_fit(ctx, rs[r]));
    let s = rs[r].seq@;
    assert(seq_ok(ctx, s));
    let a = s[p - 1];
    let b = s[p];
    assert((a as int) < ctx.n && (b as int) < ctx.n);
    assert(crate::model::in_limit(ctx.d@[a as int]@[u as int]));
    assert(crate::model::in_limit(ctx.d@[u as int]@[b as int]));
    assert(crate::model::in_limit(ctx.d@[a as int]@[b as int]));
}

/// The customer to put back next and where: for each customer of `removed`, its
/// cheapest and second cheapest fitting places over all routes and gaps; the
/// customer with the largest regret (second cheapest minus cheapest, or a large
/// constant minus the cheapest when it fits once), lower cheapest cost on
/// ties, then the first; placed at its cheapest place (the first of equals).
/// `usize::MAX` when no customer fits anywhere.
fn regret_pick(ctx: &Ctx, sol: &Sol, removed: &Vec<usize>) -> (res: (usize, usize, usize))
    requires
        ctx.wf(),
        sn_ok(*ctx, sol.routes@),
        forall|k: int| 0 <= k < removed@.len() ==> (#[trigger] removed@[k] as int) < ctx.n,
    ensures
        res.0 != usize::MAX ==> {
            &&& res.0 < removed@.len()
            &&& res.1 < sol.routes@.len()
            &&& 1 <= res.2 < sol.routes@[res.1 as int].seq@.len()
            &&& fits_seq(*ctx, sol.routes@[res.1 as int].seq@, removed@[res.0 as int], res.2 as int)
        },
        res.0 == usize::MAX ==> forall|k: int, r: int, p: int|
            0 <= k < removed@.len() && 0 <= r < sol.routes@.len() && 1 <= p < sol.routes@[r].seq@.len()
                ==> !#[trigger] fits_seq(*ctx, sol.routes@[r].seq@, removed@[k], p),
        res.0 != usize::MAX ==> first_place(*ctx, sol.routes@, removed@[res.0 as int], res.1 as int, res.2 as int)
            && place_regret_best(*ctx, sol.routes@, removed@, (i32::MAX / 4) as int, res.0 as int),
{
    let ghost rs = sol.routes@;
    let ghost mut gs: Seq<int> = Seq::empty();
    let ghost mut cs: Seq<int> = Seq::empty();
    let big: i32 = i32::MAX / 4;
    let mut pick: usize = usize::MAX;
    let mut pick_r: usize = 0;
    let mut pick_p: usize = 0;
    let mut best_regret: i64 = i64::MIN;
    let mut pick_delta: i32 = 0;
    let mut idx: usize = 0;
    while idx < removed.len()
        invariant
            ctx.wf(),
            sn_ok(*ctx, sol.routes@),
            forall|k: int| 0 <= k < removed@.len() ==> (#[trigger] removed@[k] as int) < ctx.n,
            big == i32::MAX / 4,
            idx <= removed@.len(),
            pick != usize::MAX ==> {
                &&& pick < removed@.len()
                &&& pick_r < sol.routes@.len()
                &&& 1 <= pick_p < sol.routes@[pick_r as int].seq@.len()
                &&& fits_seq(*ctx, sol.routes@[pick_r as int].seq@, removed@[pick as int], pick_p as int)
            },
            pick == usize::MAX ==> forall|k: int, r: int, p: int|
                0 <= k < idx && 0 <= r < sol.routes@.len() && 1 <= p < sol.routes@[r].seq@.len()
                    ==> !#[trigger] fits_seq(*ctx, sol.routes@[r].seq@, removed@[k], p),
            pick == usize::MAX ==> best_regret == i64::MIN,
            rs == sol.routes@,
            gs.len() == idx,
            cs.len() == idx,
            pick != usize::MAX ==> pick < idx,
            forall|k: int| 0 <= k < idx && #[trigger] has_place(*ctx, rs, removed@[k]) ==> place_regret(*ctx, rs, removed@[k], big as int, gs[k], cs[k]),
            pick != usize::MAX ==> first_place(*ctx, rs, removed@[pick as int], pick_r as int, pick_p as int)
                && gs[pick as int] == best_regret && cs[pick as int] == pick_delta
                && (forall|k: int| 0 <= k < idx && #[trigger] has_place(*ctx, rs, removed@[k])
                    ==> gs[k] < best_regret || (gs[k] == best_regret && cs[k] >= pick_delta))
                && (forall|k: int| 0 <= k < pick && #[trigger] has_place(*ctx, rs, removed@[k])
                    ==> gs[k] < best_regret || (gs[k] == best_regret && cs[k] > pick_delta)),
        decreases removed.len() - idx,
    {
        let u = removed[idx];
        let mut b1: i32 = big;
        let mut b1_r: usize = 0;
        let mut b1_p: usize = 0;
        let mut b2: i32 = big;
        let mut ri: usize = 0;
        while ri < sol.routes.len()
            invariant
                ctx.wf(),
                sn_ok(*ctx, sol.routes@),
                (u as int) < ctx.n,
                big == i32::MAX / 4,
                ri <= sol.routes@.len(),
                -400_000 <= b1 <= big,
                -400_000 <= b2 <= big,
                b1 <= b2,
                b1 < big ==> {
                    &&& b1_r < sol.routes@.len()
                    &&& 1 <= b1_p < sol.routes@[b1_r as int].seq@.len()
                    &&& fits_seq(*ctx, sol.routes@[b1_r as int].seq@, u, b1_p as int)
                },
                b1 >= big ==> forall|r: int, p: int| 0 <= r < ri && 1 <= p < sol.routes@[r].seq@.len()
                    ==> !#[trigger] fits_seq(*ctx, sol.routes@[r].seq@, u, p),
                rs == sol.routes@,
                b1 < big ==> (b1_r as int) < ri,
                b1 < big ==> b1 == gap_cost(*ctx, rs[b1_r as int].seq@, u, b1_p as int)
                    && (forall|r2: int, p2: int| r2 < ri && #[trigger] place_ok(*ctx, rs, u, r2, p2) ==> b1 <= gap_cost(*ctx, rs[r2].seq@, u, p2))
                    && (forall|r2: int, p2: int| place_before(r2, p2, b1_r as int, b1_p as int) && #[trigger] place_ok(*ctx, rs, u, r2, p2)
                        ==> b1 < gap_cost(*ctx, rs[r2].seq@, u, p2)),
                b2 < big ==> exists|r2: int, p2: int| r2 < ri && #[trigger] place_ok(*ctx, rs, u, r2, p2)
                    && (r2 != b1_r || p2 != b1_p) && gap_cost(*ctx, rs[r2].seq@, u, p2) == b2,
                forall|r2: int, p2: int| r2 < ri && #[trigger] place_ok(*ctx, rs, u, r2, p2) && (r2 != b1_r || p2 != b1_p)
                    ==> b2 <= gap_cost(*ctx, rs[r2].seq@, u, p2),
            decreases sol.routes.len() - ri,
        {
            let r = &sol.routes[ri];
            proof {
                assert(crate::sn_passes::route_fit(*ctx, sol.routes@[ri as int]));
            }
            let mut p: usize = 1;
            while p < r.len()
                invariant
                    ctx.wf(),
                    sn_ok(*ctx, sol.routes@),
                    (u as int) < ctx.n,
                    big == i32::MAX / 4,
                    ri < sol.routes@.len(),
                    *r == sol.routes@[ri as int],
                    route_fit(*ctx, *r),
                    1 <= p,
                    -400_000 <= b1 <= big,
                    -400_000 <= b2 <= big,
                    b1 <= b2,
                    b1 < big ==> {
                        &&& b1_r < sol.routes@.len()
                        &&& 1 <= b1_p < sol.routes@[b1_r as int].seq@.len()
                        &&& fits_seq(*ctx, sol.routes@[b1_r as int].seq@, u, b1_p as int)
                    },
                    b1 >= big ==> forall|r2: int, p2: int| 0 <= r2 < ri && 1 <= p2 < sol.routes@[r2].seq@.len()
                        ==> !#[trigger] fits_seq(*ctx, sol.routes@[r2].seq@, u, p2),
                    b1 >= big ==> forall|p2: int| 1 <= p2 < p && p2 < r.seq@.len() ==> !#[trigger] fits_seq(*ctx, r.seq@, u, p2),
                    rs == sol.routes@,
                    b1 < big ==> b1 == gap_cost(*ctx, rs[b1_r as int].seq@, u, b1_p as int)
                        && place_before(b1_r as int, b1_p as int, ri as int, p as int)
                        && (forall|r2: int, p2: int| place_before(r2, p2, ri as int, p as int) && #[trigger] place_ok(*ctx, rs, u, r2, p2) ==> b1 <= gap_cost(*ctx, rs[r2].seq@, u, p2))
                        && (forall|r2: int, p2: int| place_before(r2, p2, b1_r as int, b1_p as int) && #[trigger] place_ok(*ctx, rs, u, r2, p2)
                            ==> b1 < gap_cost(*ctx, rs[r2].seq@, u, p2)),
                    b2 < big ==> exists|r2: int, p2: int| place_before(r2, p2, ri as int, p as int) && #[trigger] place_ok(*ctx, rs, u, r2, p2)
                        && (r2 != b1_r || p2 != b1_p) && gap_cost(*ctx, rs[r2].seq@, u, p2) == b2,
                    forall|r2: int, p2: int| place_before(r2, p2, ri as int, p as int) && #[trigger] place_ok(*ctx, rs, u, r2, p2) && (r2 != b1_r || p2 != b1_p)
                        ==> b2 <= gap_cost(*ctx, rs[r2].seq@, u, p2),
                decreases r.seq@.len() - p,
            {
                proof {
                    assert(seq_ok(*ctx, r.seq@));
                    let a = r.seq@[p - 1];
                    let b = r.seq@[p as int];
                    assert((a as int) < ctx.n && (b as int) < ctx.n);
                    assert(crate::model::in_limit(ctx.d@[a as int]@[u as int]));
                    assert(crate::model::in_limit(ctx.d@[u as int]@[b as int]));
                    assert(crate::model::in_limit(ctx.d@[a as int]@[b as int]));
                }
                let ghost ob1 = b1;
                let ghost ob1_r = b1_r;
                let ghost ob1_p = b1_p;
                let ghost ob2 = b2;
                match r.try_insert(ctx, u, p) {
                    Some(delta) => {
                        proof {
                            assert(delta == gap_cost(*ctx, rs[ri as int].seq@, u, p as int));
                            assert(place_ok(*ctx, rs, u, ri as int, p as int));
                        }
                        if delta < b1 {
                            b2 = b1;
                            b1 = delta;
                            b1_r = ri;
                            b1_p = p;
                        } else if delta < b2 {
                            b2 = delta;
                        }
                        proof {
                            if delta < ob1 && ob1 < big {
                                assert(place_ok(*ctx, rs, u, ob1_r as int, ob1_p as int));
                            }
                        }
                    },
                    None => {
                        proof {
                            assert(!place_ok(*ctx, rs, u, ri as int, p as int));
                        }
                    },
                }
                p += 1;
            }
            ri += 1;
        }
        proof {
            if b1 >= big {
                assert forall|r: int, p: int| 0 <= r < sol.routes@.len() && 1 <= p < sol.routes@[r].seq@.len()
                    implies !#[trigger] fits_seq(*ctx, sol.routes@[r].seq@, removed@[idx as int], p) by {
                    assert(removed@[idx as int] == u);
                }
            }
        }
        let ghost gs0 = gs;
        let ghost cs0 = cs;
        if b1 < big {
            let regret: i64 = if b2 >= big { big as i64 - b1 as i64 } else { (b2 - b1) as i64 };
            proof {
                assert(first_place(*ctx, rs, u, b1_r as int, b1_p as int));
                if b2 >= big {
                    assert forall|r2: int, p2: int| #[trigger] place_ok(*ctx, rs, u, r2, p2) implies r2 == b1_r && p2 == b1_p by {
                        lemma_gap_cost_bounds(*ctx, rs, u, r2, p2);
                    }
                    assert(second_cost(*ctx, rs, u, b1_r as int, b1_p as int, big as int, big as int));
                    assert(place_regret(*ctx, rs, u, big as int, regret as int, b1 as int));
                } else {
                    assert(second_cost(*ctx, rs, u, b1_r as int, b1_p as int, b2 as int, big as int));
                    assert(place_regret(*ctx, rs, u, big as int, regret as int, b1 as int));
                }
                gs = gs0.push(regret as int);
                cs = cs0.push(b1 as int);
                assert(has_place(*ctx, rs, u));
                assert forall|k: int| 0 <= k < idx + 1 && #[trigger] has_place(*ctx, rs, removed@[k]) implies place_regret(*ctx, rs, removed@[k], big as int, gs[k], cs[k]) by {
                    if k < idx {
                        assert(gs[k] == gs0[k] && cs[k] == cs0[k]);
                    }
                }
            }
            if regret > best_regret || (regret == best_regret && b1 < pick_delta) {
                best_regret = regret;
                pick = idx;
                pick_r = b1_r;
                pick_p = b1_p;
                pick_delta = b1;
            }
        } else {
            proof {
                gs = gs0.push(0);
                cs = cs0.push(0);
                assert(!has_place(*ctx, rs, u)) by {
                    if has_place(*ctx, rs, u) {
                        let (r2, p2) = choose|r2: int, p2: int| #[trigger] place_ok(*ctx, rs, u, r2, p2);
                        assert(place_ok(*ctx, rs, u, r2, p2));
                    }
                }
                assert forall|k: int| 0 <= k < idx + 1 && #[trigger] has_place(*ctx, rs, removed@[k]) implies place_regret(*ctx, rs, removed@[k], big as int, gs[k], cs[k]) by {
                    assert(gs[k] == gs0[k] && cs[k] == cs0[k]);
                }
            }
        }
        proof {
            if pick != usize::MAX {
                if pick < idx {
                    assert(gs[pick as int] == gs0[pick as int] && cs[pick as int] == cs0[pick as int]);
                }
                assert forall|k: int| 0 <= k < idx + 1 && #[trigger] has_place(*ctx, rs, removed@[k])
                    implies gs[k] < best_regret || (gs[k] == best_regret && cs[k] >= pick_delta) by {
                    if k < idx {
                        assert(gs[k] == gs0[k] && cs[k] == cs0[k]);
                    }
                }
                assert forall|k: int| 0 <= k < pick && #[trigger] has_place(*ctx, rs, removed@[k])
                    implies gs[k] < best_regret || (gs[k] == best_regret && cs[k] > pick_delta) by {
                    assert(gs[k] == gs0[k] && cs[k] == cs0[k]);
                }
            }
        }
        idx += 1;
    }
    proof {
        if pick != usize::MAX {
            assert(place_regret_table(*ctx, rs, removed@, big as int, gs, cs));
        }
    }
    (pick, pick_r, pick_p)
}

/// A route from the depot straight back to it is feasible.
proof fn lemma_depots_feasible(ctx: Ctx, e: Route)
    requires
        ctx.wf(),
        sn_inst_ok(ctx),
        e.tables_ok(ctx),
        e.seq@ =~= seq![0u32, 0u32],
    ensures
        route_feasible(ctx, e),
{
    let s = e.seq@;
    assert(crate::silver_nova::arrival(ctx, s, 0) == 0);
    assert(ctx.service(0) == 0);
    assert(crate::silver_nova::arrival(ctx, s, 1) == max(0, ctx.ready@[0] as int) + dd(ctx.d@, 0, 0));
    assert(nodes(s).subrange(1, 2) =~= seq![0usize]);
    assert(seq![0usize].drop_last() =~= Seq::<usize>::empty());
    assert(crate::sharp_orbit::demand_sum(ctx.demand@, Seq::<usize>::empty()) == 0);
}

/// Adding a route keeps a locator valid.
proof fn lemma_loc_push(rs: Seq<Route>, r: Route, loc: Seq<NodeLoc>, n: int)
    requires
        loc_ok(rs, loc, n),
    ensures
        loc_ok(rs.push(r), loc, n),
{
    assert forall|u: int| 1 <= u < n implies #[trigger] points_at(rs.push(r), loc[u], u) by {
        assert(points_at(rs, loc[u], u));
        if loc[u].route != u32::MAX {
            assert(rs.push(r)[loc[u].route as int] == rs[loc[u].route as int]);
        }
    }
}

/// Takes the customers of `to_remove` out of their places (`remove_listed`),
/// then puts them back one at a time, the one with the largest regret first
/// (`regret_pick`); when none fits anywhere, an empty route is added while the
/// fleet allows; when the fleet is full, the removal is undone and the routes
/// go back to what they were, so that every customer stays served. Finally the
/// routes without customers are dropped, the total recomputed and the locator
/// rebuilt.
pub fn remove_and_repair(ctx: &Ctx, sol: &mut Sol, loc: &mut Vec<NodeLoc>, to_remove: Vec<usize>)
    requires
        ctx.wf(),
        sn_ok(*ctx, old(sol).routes@),
        loc_ok(old(sol).routes@, old(loc)@, ctx.n as int),
        to_remove@.no_duplicates(),
        forall|k: int| 0 <= k < to_remove@.len() ==> 1 <= #[trigger] to_remove@[k] < ctx.n && old(loc)@[to_remove@[k] as int].route != u32::MAX,
        total_nodes(sn_nodes(old(sol).routes@)) + 2 * ctx.fleet <= LEN_LIMIT,
    ensures
        sn_ok(*ctx, final(sol).routes@),
        loc_ok(final(sol).routes@, final(loc)@, ctx.n as int),
        forall|u: int| 0 <= u < final(loc)@.len() ==> #[trigger] locates(final(sol).routes@, u as usize, final(loc)@[u]),
        forall|r: int| 0 <= r < final(sol).routes@.len() ==> (#[trigger] final(sol).routes@[r]).seq@.len() > 2,
        final(sol).total_dist == total_len(ctx.d@, sn_nodes(final(sol).routes@)),
        all_custs(sn_nodes(final(sol).routes@)) == all_custs(sn_nodes(old(sol).routes@)),
        sn_inst_ok(*ctx) && sn_feasible(*ctx, old(sol).routes@) ==> sn_feasible(*ctx, final(sol).routes@),
{
    let ghost c0 = all_custs(sn_nodes(sol.routes@));
    let ghost len0 = sol.routes@.len();
    let ghost feas = sn_inst_ok(*ctx) && sn_feasible(*ctx, sol.routes@);
    let saved = crate::sn_passes::copy_sol(sol, ctx);
    proof {
        lemma_fit_count(*ctx, sol.routes@);
        if feas {
            crate::sn_feasible::lemma_same_seqs_feasible(*ctx, sol.routes@, saved.routes@);
        }
    }
    remove_listed(ctx, sol, loc, &to_remove);
    let ghost tr = to_remove@;
    let mut removed = to_remove;
    proof {
        lemma_fit_count(*ctx, sol.routes@);
        assert(removed@.to_multiset().subset_of(tr.to_multiset()));
    }
    while removed.len() > 0
        invariant
            ctx.wf(),
            sn_ok(*ctx, sol.routes@),
            loc_ok(sol.routes@, loc@, ctx.n as int),
            all_custs(sn_nodes(sol.routes@)).add(removed@.to_multiset()) == c0,
            removed@.to_multiset().subset_of(tr.to_multiset()),
            forall|k: int| 0 <= k < removed@.len() ==> 1 <= #[trigger] removed@[k] < ctx.n,
            sn_ok(*ctx, saved.routes@),
            all_custs(sn_nodes(saved.routes@)) == c0,
            saved.routes@.len() == len0,
            c0.len() + 2 * len0 + 2 * ctx.fleet <= LEN_LIMIT,
            sol.routes@.len() <= len0 || sol.routes@.len() <= ctx.fleet,
            feas ==> sn_feasible(*ctx, sol.routes@) && sn_feasible(*ctx, saved.routes@),
            feas ==> sn_inst_ok(*ctx),
        decreases removed.len(), if sol.routes@.len() < ctx.fleet { ctx.fleet - sol.routes@.len() } else { 0 },
    {
        proof {
            assert forall|k: int| 0 <= k < removed@.len() implies (#[trigger] removed@[k] as int) < ctx.n by {}
        }
        let (pick, pick_r, pick_p) = regret_pick(ctx, sol, &removed);
        if pick == usize::MAX {
            if sol.routes.len() < ctx.fleet {
                let mut depots: Vec<u32> = Vec::new();
                depots.push(0);
                depots.push(0);
                let ghost before = sol.routes@;
                proof {
                    assert(seq_ok(*ctx, depots@));
                }
                let e = crate::sn_passes::route_of(ctx, depots);
                sol.routes.push(e);
                proof {
                    assert(sn_nodes(sol.routes@) =~= sn_nodes(before).push(nodes(e.seq@)));
                    assert(custs(nodes(e.seq@)) =~= Multiset::<usize>::empty()) by {
                        crate::model::lemma_custs_depots(nodes(e.seq@));
                    }
                    assert(all_custs(sn_nodes(sol.routes@)) =~= all_custs(sn_nodes(before))) by {
                        broadcast use vstd::multiset::group_multiset_axioms;
                        assert(sn_nodes(sol.routes@).drop_last() =~= sn_nodes(before));
                    }
                    assert forall|r: int| 0 <= r < sol.routes@.len() implies #[trigger] route_fit(*ctx, sol.routes@[r]) by {
                        if r < before.len() {
                            assert(sol.routes@[r] == before[r]);
                        }
                    }
                    lemma_fit_count(*ctx, sol.routes@);
                    lemma_fit_count(*ctx, before);
                    vstd::seq_lib::to_multiset_len(removed@);
                    assert(c0.len() == all_custs(sn_nodes(before)).len() + removed@.len()) by {
                        broadcast use vstd::multiset::group_multiset_axioms;
                    }
                    lemma_loc_push(before, e, loc@, ctx.n as int);
                    if feas {
                        lemma_depots_feasible(*ctx, e);
                        assert forall|r: int| 0 <= r < sol.routes@.len() implies #[trigger] route_feasible(*ctx, sol.routes@[r]) by {
                            if r < before.len() {
                                assert(sol.routes@[r] == before[r]);
                            }
                        }
                    }
                }
                continue;
            }
            *sol = crate::sn_passes::copy_sol(&saved, ctx);
            removed = Vec::new();
            proof {
                crate::sn_passes::lemma_sn_locatable(*ctx, sol.routes@);
                if feas {
                    crate::sn_feasible::lemma_same_seqs_feasible(*ctx, saved.routes@, sol.routes@);
                }
            }
            rebuild_locator(ctx, sol, loc);
            proof {
                crate::sn_passes::lemma_rebuilt_ok(*ctx, sol.routes@, loc@);
            }
            proof {
                assert(removed@.to_multiset() =~= Multiset::<usize>::empty()) by {
                    vstd::seq_lib::to_multiset_len(removed@);
                    vstd::multiset::lemma_multiset_empty_len(removed@.to_multiset());
                }
                assert(all_custs(sn_nodes(sol.routes@)).add(removed@.to_multiset()) =~= c0) by {
                    broadcast use vstd::multiset::group_multiset_axioms;
                }
            }
            continue;
        }
        let ghost before = sol.routes@;
        let ghost rs = sn_nodes(before);
        let ghost l0 = loc@;
        let ghost rm = removed@;
        let u = removed.remove(pick);
        proof {
            assert(u == rm[pick as int]);
            assert(route_fit(*ctx, before[pick_r as int]));
            lemma_fit_count(*ctx, before);
            vstd::seq_lib::to_multiset_len(rm);
            assert(c0.len() == all_custs(rs).len() + rm.len()) by {
                broadcast use vstd::multiset::group_multiset_axioms;
            }
            crate::construct::lemma_total_nodes(rs, pick_r as int, rs[pick_r as int]);
            assert(rs[pick_r as int] == nodes(before[pick_r as int].seq@));
            assert(seq_ok(*ctx, before[pick_r as int].seq@));
        }
        sol.routes[pick_r].insert_at(ctx, u, pick_p);
        refresh_route_loc(loc, sol, pick_r);
        proof {
            let os = before[pick_r as int].seq@;
            let ns = sol.routes@[pick_r as int].seq@;
            assert(ns == os.insert(pick_p as int, u as u32));
            crate::sn_passes::lemma_fit_insert(*ctx, before[pick_r as int], sol.routes@[pick_r as int], pick_p as int, u as u32);
            assert(sol.routes@ == before.update(pick_r as int, sol.routes@[pick_r as int]));
            if feas {
                assert(route_feasible(*ctx, before[pick_r as int]));
                assert(place_ok(*ctx, before, rm[pick as int], pick_r as int, pick_p as int));
                assert(os[os.len() - 1] == 0);
                lemma_insert_feasible(*ctx, os, u, pick_p as int);
                assert forall|r: int| 0 <= r < sol.routes@.len() implies #[trigger] route_feasible(*ctx, sol.routes@[r]) by {
                    if r != pick_r {
                        assert(sol.routes@[r] == before[r]);
                    }
                }
            }
            assert forall|r: int| 0 <= r < sol.routes@.len() implies #[trigger] route_fit(*ctx, sol.routes@[r]) by {
                if r != pick_r {
                    assert(sol.routes@[r] == before[r]);
                }
            }
            assert(nodes(ns) =~= nodes(os).insert(pick_p as int, u));
            assert forall|r: int| 0 <= r < rs.len() implies #[trigger] sn_nodes(sol.routes@)[r] == rs.update(pick_r as int, rs[pick_r as int].insert(pick_p as int, u))[r] by {
                if r != pick_r {
                    assert(sol.routes@[r] == before[r]);
                }
            }
            assert(sn_nodes(sol.routes@) =~= rs.update(pick_r as int, rs[pick_r as int].insert(pick_p as int, u)));
            crate::model::lemma_custs_insert(rs[pick_r as int], pick_p as int, u);
            lemma_all_custs_update(rs, pick_r as int, rs[pick_r as int].insert(pick_p as int, u));
            vstd::seq_lib::to_multiset_remove(rm, pick as int);
            assert(removed@ == rm.remove(pick as int));
            assert(all_custs(sn_nodes(sol.routes@)).add(removed@.to_multiset()) =~= c0) by {
                broadcast use vstd::multiset::group_multiset_axioms;
                assert(cust1(u) =~= Multiset::singleton(u));
                vstd::seq_lib::to_multiset_contains(rm, u);
                assert forall|v: usize| all_custs(sn_nodes(sol.routes@)).add(removed@.to_multiset()).count(v) == c0.count(v) by {
                    assert(all_custs(sn_nodes(sol.routes@)).add(custs(rs[pick_r as int])).count(v)
                        == all_custs(rs).add(custs(rs[pick_r as int].insert(pick_p as int, u))).count(v));
                }
            }
            assert(removed@.to_multiset().subset_of(tr.to_multiset())) by {
                broadcast use vstd::multiset::group_multiset_axioms;
            }
            assert forall|x: u32| os.contains(x) || os.contains(x) implies ns.contains(x) || ns.contains(x) by {
                let q = choose|q: int| 0 <= q < os.len() && os[q] == x;
                if q < pick_p {
                    assert(ns[q] == x);
                } else {
                    assert(ns[q + 1] == x);
                }
            }
            crate::sn_passes::lemma_loc_after_refresh(before, sol.routes@, l0, loc@, loc@, pick_r as int, pick_r as int, ctx.n as int);
            lemma_fit_count(*ctx, sol.routes@);
            assert forall|k: int| 0 <= k < removed@.len() implies 1 <= #[trigger] removed@[k] < ctx.n by {
                if k < pick {
                    assert(removed@[k] == rm[k]);
                } else {
                    assert(removed@[k] == rm[k + 1]);
                }
            }
        }
    }
    let ghost full = sol.routes@;
    let ghost left = removed@.to_multiset();
    sol.cleanup_empty();
    proof {
        crate::sn_passes::lemma_kept(*ctx, full);
        crate::sn_passes::lemma_dist_prefixes(*ctx, sol.routes@);
        if feas {
            lemma_kept_feasible(*ctx, full);
        }
    }
    sol.recompute_total();
    proof {
        crate::sn_passes::lemma_dist_sum(*ctx, sol.routes@);
        crate::sn_passes::lemma_sn_locatable(*ctx, sol.routes@);
    }
    rebuild_locator(ctx, sol, loc);
    proof {
        crate::sn_passes::lemma_rebuilt_ok(*ctx, sol.routes@, loc@);
        assert(all_custs(sn_nodes(sol.routes@)).add(left) == c0);
        vstd::seq_lib::to_multiset_len(removed@);
        vstd::multiset::lemma_multiset_empty_len(removed@.to_multiset());
        assert(left =~= Multiset::<usize>::empty());
        assert(all_custs(sn_nodes(sol.routes@)) =~= all_custs(sn_nodes(sol.routes@)).add(left)) by {
            broadcast use vstd::multiset::group_multiset_axioms;
        }
    }
}

} // verus!
