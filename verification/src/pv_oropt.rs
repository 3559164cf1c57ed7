//! Or-opt between routes for the time-window solver that keeps a demand per
//! route: moves a segment of consecutive customers, possibly reversed, next to a
//! spatial neighbour of one of its ends in another route.
use vstd::prelude::*;
use std::time::Instant;
use crate::model::{all_custs, custs, rv, in_limit, total_len, nodes_below, Challenge, LEN_LIMIT, VALUE_LIMIT};
use crate::algorithm::{join_slices, lemma_replace_two, all_proper};
use crate::model::proper;
use crate::construct::{total_nodes, lemma_total_nodes};
use crate::improve::{elapsed_since, whole_millis};
use crate::primal_viper::{time_feasible, is_time_feasible, symmetric, lemma_ch_tw};
use crate::pv_passes::{dsum, pv_state, demands_exact, lemma_dsum_concat, lemma_dsum_bounds, TIME_LIMIT_MS};
use crate::so_passes::{seg_of, removal_gain, move_delta, spliced, cut_out, splice_vec, reversed_vec, lemma_move_len, lemma_move_custs, lemma_cut_out_embeds};
use crate::repair::{embeds, lemma_embeds_refl, lemma_embeds_trans};
use crate::sharp_orbit::oriented;

verus! {

/// Where each customer stands: `Some((r, p))` means that position `p`, an inner
/// position of route `r`, holds the customer.
pub open spec fn positions_ok(rs: Seq<Seq<usize>>, cp: Seq<Option<(usize, usize)>>) -> bool {
    forall|c: int| 0 <= c < cp.len() ==> (#[trigger] cp[c] matches Some((r, p)) ==> (r as int) < rs.len()
        && 1 <= p < rs[r as int].len() - 1 && rs[r as int][p as int] == c)
}

/// Every inner node of the routes has a recorded position.
pub open spec fn positions_full(rs: Seq<Seq<usize>>, cp: Seq<Option<(usize, usize)>>) -> bool {
    forall|r: int, p: int| 0 <= r < rs.len() && 1 <= p < rs[r].len() - 1 ==> (#[trigger] cp[rs[r][p] as int]) is Some
}

/// The position of every customer in the routes, the last one when a customer
/// stands in several places.
pub fn build_cust_pos(routes: &Vec<Vec<usize>>, n: usize) -> (cp: Vec<Option<(usize, usize)>>)
    requires
        forall|i: int| 0 <= i < routes@.len() ==> nodes_below(#[trigger] routes@[i]@, n as int),
    ensures
        cp@.len() == n,
        positions_ok(rv(routes@), cp@),
        positions_full(rv(routes@), cp@),
{
    let ghost rs = rv(routes@);
    let mut cp: Vec<Option<(usize, usize)>> = Vec::new();
    let mut c: usize = 0;
    while c < n
        invariant
            c <= n,
            cp@.len() == c,
            forall|k: int| 0 <= k < c ==> #[trigger] cp@[k] is None,
        decreases n - c,
    {
        cp.push(None);
        c += 1;
    }
    let mut r: usize = 0;
    while r < routes.len()
        invariant
            rs == rv(routes@),
            forall|i: int| 0 <= i < routes@.len() ==> nodes_below(#[trigger] routes@[i]@, n as int),
            cp@.len() == n,
            r <= routes@.len(),
            positions_ok(rs, cp@),
            forall|r2: int, p2: int| 0 <= r2 < r && 1 <= p2 < rs[r2].len() - 1 ==> (#[trigger] cp@[rs[r2][p2] as int]) is Some,
        decreases routes.len() - r,
    {
        let route = &routes[r];
        assert(rs[r as int] == route@);
        if route.len() >= 2 {
            let mut p: usize = 1;
            while p + 1 < route.len()
                invariant
                    rs == rv(routes@),
                    r < routes@.len(),
                    route@ == rs[r as int],
                    nodes_below(route@, n as int),
                    route@.len() >= 2,
                    cp@.len() == n,
                    1 <= p <= route@.len() - 1,
                    positions_ok(rs, cp@),
                    forall|i: int| 0 <= i < routes@.len() ==> nodes_below(#[trigger] routes@[i]@, n as int),
                    forall|r2: int, p2: int| (0 <= r2 < r && 1 <= p2 < rs[r2].len() - 1 || r2 == r && 1 <= p2 < p)
                        ==> (#[trigger] cp@[rs[r2][p2] as int]) is Some,
                decreases route.len() - p,
            {
                let c = route[p];
                let ghost cp0 = cp@;
                cp.set(c, Some((r, p)));
                proof {
                    assert forall|r2: int, p2: int| (0 <= r2 < r && 1 <= p2 < rs[r2].len() - 1 || r2 == r && 1 <= p2 < p + 1)
                        implies (#[trigger] cp@[rs[r2][p2] as int]) is Some by {
                        assert(rs[r2] == routes@[r2]@);
                        assert(nodes_below(routes@[r2]@, n as int));
                        assert((rs[r2][p2] as int) < n);
                        if rs[r2][p2] != c {
                            assert(cp0[rs[r2][p2] as int] is Some);
                        }
                    }
                }
                p += 1;
            }
        }
        r += 1;
    }
    cp
}

/// Total demand of `route[lo..hi]`.
fn segment_demand(route: &Vec<usize>, lo: usize, hi: usize, ch: &Challenge) -> (res: i32)
    requires
        ch.wf(),
        ch.route_ok(route@),
        lo <= hi <= route@.len(),
        hi - lo <= LEN_LIMIT,
    ensures
        res == dsum(*ch, route@.subrange(lo as int, hi as int)),
{
    let mut s: i32 = 0;
    let mut k = lo;
    assert(route@.subrange(lo as int, lo as int).len() == 0);
    while k < hi
        invariant
            ch.wf(),
            ch.route_ok(route@),
            lo <= k <= hi,
            hi <= route@.len(),
            hi - lo <= LEN_LIMIT,
            s == dsum(*ch, route@.subrange(lo as int, k as int)),
        decreases hi - k,
    {
        proof {
            assert(route@.subrange(lo as int, k + 1).drop_last() =~= route@.subrange(lo as int, k as int));
            lemma_dsum_bounds(*ch, route@.subrange(lo as int, k + 1));
            assert(VALUE_LIMIT * (k + 1 - lo) <= VALUE_LIMIT * LEN_LIMIT) by (nonlinear_arith)
                requires
                    k + 1 - lo <= LEN_LIMIT,
            ;
            assert(in_limit(ch.demands@[route@[k as int] as int]));
        }
        s = s + ch.demands[route[k]];
        k += 1;
    }
    s
}

/// Moving the segment of `len` nodes at `i` of route `src` into route `dst` before
/// `p`, reversed when `rev`, shortens the solution by its computed change, keeps
/// `dst` within the capacity by its recorded demand and gives a `dst` within its
/// time windows.
pub open spec fn pv_move_valid(ch: Challenge, rs: Seq<Seq<usize>>, rd: Seq<i32>, src: int, i: int, len: int, dst: int, p: int, rev: bool) -> bool {
    &&& 0 <= dst < rs.len()
    &&& dst != src
    &&& rd[dst] + dsum(ch, seg_of(rs[src], i, len)) <= ch.max_capacity
    &&& 1 <= p < rs[dst].len()
    &&& (rev ==> len > 1)
    &&& move_delta(ch.distance_matrix@, rs[src], i, len, rs[dst], p, rev) < 0
    &&& time_feasible(ch.distance_matrix@, ch.service_time as int, ch.ready_times@, ch.due_times@, spliced(rs[dst], p, oriented(seg_of(rs[src], i, len), rev)))
}

/// The neighbour lists: one per node, each of nodes of the instance.
pub open spec fn neighbors_ok(ch: Challenge, nb: Seq<Vec<usize>>) -> bool {
    &&& nb.len() == ch.num_nodes
    &&& forall|i: int| 0 <= i < nb.len() ==> nodes_below(#[trigger] nb[i]@, ch.num_nodes as int)
}

/// The candidate move number `(e, k, t, v)` of the segment of `len` nodes at
/// `pos` of route `from_r` (next to the `k`-th neighbour of its first (`e` 0)
/// or last end, `t` places after that neighbour, reversed when `v` is 1), if
/// valid, changes the length by no less than `bd`; with no `bd`, it is not valid.
pub open spec fn nb_move_ok(ch: Challenge, rs: Seq<Seq<usize>>, rd: Seq<i32>, nbs: Seq<Vec<usize>>, cp: Seq<Option<(usize, usize)>>,
    from_r: int, pos: int, len: int, bd: Option<int>, e: int, k: int, t: int, v: int) -> bool {
    let sr = rs[from_r];
    let endpoint = if e == 0 { sr[pos] } else { sr[pos + len - 1] };
    let nl = nbs[endpoint as int]@;
    (0 <= k < nl.len() && cp[nl[k] as int] is Some) ==> {
        let place = cp[nl[k] as int]->0;
        let to_r = place.0 as int;
        let p = place.1 + t;
        pv_move_valid(ch, rs, rd, from_r, pos, len, to_r, p, v == 1)
            ==> (bd matches Some(d) && move_delta(ch.distance_matrix@, sr, pos, len, rs[to_r], p, v == 1) >= d)
    }
}

/// The change of length recorded with a best move found so far.
pub open spec fn found_delta(best: Option<(usize, usize, i32, bool)>) -> Option<int> {
    match best {
        Some(b) => Some(b.2 as int),
        None => None,
    }
}

/// A smaller recorded change still bounds every candidate the larger one did.
proof fn lemma_nb_move_ok_mono(ch: Challenge, rs: Seq<Seq<usize>>, rd: Seq<i32>, nbs: Seq<Vec<usize>>, cp: Seq<Option<(usize, usize)>>,
    from_r: int, pos: int, len: int, b0: Option<int>, b1: Option<int>, e: int, k: int, t: int, v: int)
    requires
        nb_move_ok(ch, rs, rd, nbs, cp, from_r, pos, len, b0, e, k, t, v),
        b1 is Some,
        b0 matches Some(d0) ==> b1->0 <= d0,
    ensures
        nb_move_ok(ch, rs, rd, nbs, cp, from_r, pos, len, b1, e, k, t, v),
{
}

/// The best move of the segment of `seg_len` nodes at `pos` of route `from_r`
/// among the insertions next to a neighbour of one of its ends that stands in
/// another route: before or after the neighbour, forward or (for longer segments)
/// reversed; the first strictly cheapest valid one in that scan order.
#[verifier::rlimit(40)]
fn best_neighbor_move(
    routes: &Vec<Vec<usize>>,
    route_demand: &Vec<i32>,
    ch: &Challenge,
    neighbors: &Vec<Vec<usize>>,
    cust_pos: &Vec<Option<(usize, usize)>>,
    from_r: usize,
    pos: usize,
    seg_len: usize,
    chain: &Vec<usize>,
    rchain: &Vec<usize>,
    seg_demand: i32,
    gain: i32,
) -> (res: Option<(usize, usize, bool)>)
    requires
        pv_state(*ch, rv(routes@), route_demand@),
        demands_exact(*ch, rv(routes@), route_demand@),
        neighbors_ok(*ch, neighbors@),
        cust_pos@.len() == ch.num_nodes,
        positions_ok(rv(routes@), cust_pos@),
        from_r < routes@.len(),
        1 <= seg_len,
        1 <= pos,
        pos + seg_len < routes@[from_r as int]@.len(),
        chain@ == seg_of(routes@[from_r as int]@, pos as int, seg_len as int),
        rchain@ == chain@.reverse(),
        seg_demand == dsum(*ch, chain@),
        gain == removal_gain(ch.distance_matrix@, routes@[from_r as int]@, pos as int, seg_len as int),
    ensures
        res matches Some((d, p, v)) ==> pv_move_valid(*ch, rv(routes@), route_demand@, from_r as int, pos as int, seg_len as int, d as int, p as int, v),
        res is None ==> forall|e: int, k: int, t: int, v: int| 0 <= e < 2 && 0 <= t < 2 && 0 <= v < 2 ==>
            #[trigger] nb_move_ok(*ch, rv(routes@), route_demand@, neighbors@, cust_pos@, from_r as int, pos as int, seg_len as int, None, e, k, t, v),
        res matches Some((d, p, rev)) ==> forall|e: int, k: int, t: int, v: int| 0 <= e < 2 && 0 <= t < 2 && 0 <= v < 2 ==>
            #[trigger] nb_move_ok(*ch, rv(routes@), route_demand@, neighbors@, cust_pos@, from_r as int, pos as int, seg_len as int,
                Some(move_delta(ch.distance_matrix@, routes@[from_r as int]@, pos as int, seg_len as int, routes@[d as int]@, p as int, rev)), e, k, t, v),
{
    let ghost rs = rv(routes@);
    let ghost dmv = ch.distance_matrix@;
    let ghost sr = rs[from_r as int];
    assert(sr == routes@[from_r as int]@);
    let sroute = &routes[from_r];
    let slen = sroute.len();
    assert(pos + seg_len < slen);
    let seg_first = sroute[pos];
    let seg_last = sroute[pos + seg_len - 1];
    proof {
        lemma_ch_tw(*ch);
        assert(ch.route_ok(sr));
        assert(nodes_below(chain@, ch.num_nodes as int));
        assert(nodes_below(rchain@, ch.num_nodes as int));
        lemma_dsum_bounds(*ch, sr);
        lemma_total_nodes(rs, 0, rs[0]);
        assert(in_limit(dmv[sr[pos - 1] as int]@[seg_first as int]));
        assert(in_limit(dmv[seg_last as int]@[sr[pos + seg_len] as int]));
        assert(in_limit(dmv[sr[pos - 1] as int]@[sr[pos + seg_len] as int]));
        assert(chain@ =~= sr.subrange(pos as int, pos + seg_len));
        lemma_dsum_bounds(*ch, chain@);
        assert(VALUE_LIMIT * chain@.len() <= VALUE_LIMIT * LEN_LIMIT) by (nonlinear_arith)
            requires
                chain@.len() <= LEN_LIMIT,
        ;
    }
    let mut best: Option<(usize, usize, i32, bool)> = None;
    let mut e: usize = 0;
    while e < 2
        invariant
            rs == rv(routes@),
            dmv == ch.distance_matrix@,
            pv_state(*ch, rs, route_demand@),
            demands_exact(*ch, rs, route_demand@),
            neighbors_ok(*ch, neighbors@),
            cust_pos@.len() == ch.num_nodes,
            positions_ok(rs, cust_pos@),
            crate::primal_viper::ch_tw(*ch),
            from_r < routes@.len(),
            sr == rs[from_r as int],
            1 <= seg_len,
            1 <= pos,
            pos + seg_len < sr.len(),
            seg_first == sr[pos as int],
            seg_last == sr[pos + seg_len - 1],
            (seg_first as int) < ch.num_nodes,
            (seg_last as int) < ch.num_nodes,
            chain@ == seg_of(sr, pos as int, seg_len as int),
            rchain@ == chain@.reverse(),
            nodes_below(chain@, ch.num_nodes as int),
            nodes_below(rchain@, ch.num_nodes as int),
            seg_demand == dsum(*ch, chain@),
            0 <= seg_demand <= VALUE_LIMIT * LEN_LIMIT,
            gain == removal_gain(dmv, sr, pos as int, seg_len as int),
            -100_000 <= gain <= 200_000,
            e <= 2,
            best matches Some(b) ==> pv_move_valid(*ch, rs, route_demand@, from_r as int, pos as int, seg_len as int, b.0 as int, b.1 as int, b.3)
                && b.2 == move_delta(dmv, sr, pos as int, seg_len as int, rs[b.0 as int], b.1 as int, b.3),
            forall|e2: int, k2: int, t2: int, v2: int| 0 <= e2 < e && 0 <= t2 < 2 && 0 <= v2 < 2 ==>
                #[trigger] nb_move_ok(*ch, rs, route_demand@, neighbors@, cust_pos@, from_r as int, pos as int, seg_len as int, found_delta(best), e2, k2, t2, v2),
        decreases 2 - e,
    {
        let endpoint = if e == 0 { seg_first } else { seg_last };
        let nl = &neighbors[endpoint];
        assert(nodes_below(nl@, ch.num_nodes as int));
        let mut k: usize = 0;
        while k < nl.len()
            invariant
                rs == rv(routes@),
                dmv == ch.distance_matrix@,
                pv_state(*ch, rs, route_demand@),
                demands_exact(*ch, rs, route_demand@),
                cust_pos@.len() == ch.num_nodes,
                positions_ok(rs, cust_pos@),
                crate::primal_viper::ch_tw(*ch),
                from_r < routes@.len(),
                sr == rs[from_r as int],
                1 <= seg_len,
                1 <= pos,
                pos + seg_len < sr.len(),
                seg_first == sr[pos as int],
                seg_last == sr[pos + seg_len - 1],
                chain@ == seg_of(sr, pos as int, seg_len as int),
                rchain@ == chain@.reverse(),
                nodes_below(chain@, ch.num_nodes as int),
                nodes_below(rchain@, ch.num_nodes as int),
                nodes_below(nl@, ch.num_nodes as int),
                seg_demand == dsum(*ch, chain@),
                0 <= seg_demand <= VALUE_LIMIT * LEN_LIMIT,
                gain == removal_gain(dmv, sr, pos as int, seg_len as int),
                -100_000 <= gain <= 200_000,
                k <= nl@.len(),
                best matches Some(b) ==> pv_move_valid(*ch, rs, route_demand@, from_r as int, pos as int, seg_len as int, b.0 as int, b.1 as int, b.3)
                    && b.2 == move_delta(dmv, sr, pos as int, seg_len as int, rs[b.0 as int], b.1 as int, b.3),
                e < 2,
                endpoint == (if e == 0 { seg_first } else { seg_last }),
                *nl == neighbors@[endpoint as int],
                neighbors_ok(*ch, neighbors@),
                forall|e2: int, k2: int, t2: int, v2: int| (0 <= e2 < e || e2 == e && k2 < k) && 0 <= t2 < 2 && 0 <= v2 < 2 ==>
                    #[trigger] nb_move_ok(*ch, rs, route_demand@, neighbors@, cust_pos@, from_r as int, pos as int, seg_len as int, found_delta(best), e2, k2, t2, v2),
            decreases nl.len() - k,
        {
            let ghost best_k = best;
            let nbr = nl[k];
            match cust_pos[nbr] {
                None => {},
                Some((to_r, n_pos)) => {
                    assert(cust_pos@[nbr as int] == Some((to_r, n_pos)));
                    if to_r != from_r {
                        let dr = &routes[to_r];
                        assert(rs[to_r as int] == dr@);
                        proof {
                            lemma_dsum_bounds(*ch, dr@);
                            lemma_total_nodes(rs, 0, rs[0]);
                            assert(dr@.len() <= LEN_LIMIT);
                            assert(VALUE_LIMIT * dr@.len() <= VALUE_LIMIT * LEN_LIMIT) by (nonlinear_arith)
                                requires
                                    dr@.len() <= LEN_LIMIT,
                            ;
                            assert(route_demand@[to_r as int] == dsum(*ch, rs[to_r as int]));
                        }
                        if route_demand[to_r] + seg_demand <= ch.max_capacity {
                            let to_len = dr.len();
                            let mut t: usize = 0;
                            while t < 2
                                invariant
                                    rs == rv(routes@),
                                    dmv == ch.distance_matrix@,
                                    pv_state(*ch, rs, route_demand@),
                                    crate::primal_viper::ch_tw(*ch),
                                    from_r < routes@.len(),
                                    (to_r as int) < rs.len(),
                                    to_r != from_r,
                                    dr@ == rs[to_r as int],
                                    to_len == dr@.len(),
                                    route_demand@[to_r as int] + seg_demand <= ch.max_capacity,
                                    1 <= n_pos < dr@.len() - 1,
                                    sr == rs[from_r as int],
                                    1 <= seg_len,
                                    1 <= pos,
                                    pos + seg_len < sr.len(),
                                    seg_first == sr[pos as int],
                                    seg_last == sr[pos + seg_len - 1],
                                    chain@ == seg_of(sr, pos as int, seg_len as int),
                                    rchain@ == chain@.reverse(),
                                    nodes_below(chain@, ch.num_nodes as int),
                                    nodes_below(rchain@, ch.num_nodes as int),
                                    seg_demand == dsum(*ch, chain@),
                                    gain == removal_gain(dmv, sr, pos as int, seg_len as int),
                                    -100_000 <= gain <= 200_000,
                                    t <= 2,
                                    best matches Some(b) ==> pv_move_valid(*ch, rs, route_demand@, from_r as int, pos as int, seg_len as int, b.0 as int, b.1 as int, b.3)
                                        && b.2 == move_delta(dmv, sr, pos as int, seg_len as int, rs[b.0 as int], b.1 as int, b.3),
                                    e < 2,
                                    endpoint == (if e == 0 { seg_first } else { seg_last }),
                                    *nl == neighbors@[endpoint as int],
                                    k < nl@.len(),
                                    cust_pos@[nl@[k as int] as int] == Some((to_r, n_pos)),
                                    best == best_k || (found_delta(best) is Some && (found_delta(best_k) matches Some(d0) ==> found_delta(best)->0 <= d0)),
                                    seg_demand == dsum(*ch, seg_of(sr, pos as int, seg_len as int)),
                                    forall|e2: int, k2: int, t2: int, v2: int| (0 <= e2 < e || e2 == e && k2 < k || e2 == e && k2 == k && 0 <= t2 < t)
                                        && 0 <= t2 < 2 && 0 <= v2 < 2 ==>
                                        #[trigger] nb_move_ok(*ch, rs, route_demand@, neighbors@, cust_pos@, from_r as int, pos as int, seg_len as int, found_delta(best), e2, k2, t2, v2),
                                decreases 2 - t,
                            {
                                let ghost best_t = best;
                                let ins = n_pos + t;
                                if ins != 0 && ins < to_len {
                                    let a = dr[ins - 1];
                                    let b = dr[ins];
                                    proof {
                                        assert(ch.route_ok(dr@));
                                        assert(in_limit(dmv[a as int]@[b as int]));
                                        assert(in_limit(dmv[a as int]@[seg_first as int]));
                                        assert(in_limit(dmv[seg_last as int]@[b as int]));
                                        assert(in_limit(dmv[a as int]@[seg_last as int]));
                                        assert(in_limit(dmv[seg_first as int]@[b as int]));
                                    }
                                    let mut v: usize = 0;
                                    while v < 2
                                        invariant
                                            rs == rv(routes@),
                                            dmv == ch.distance_matrix@,
                                            pv_state(*ch, rs, route_demand@),
                                            crate::primal_viper::ch_tw(*ch),
                                            from_r < routes@.len(),
                                            (to_r as int) < rs.len(),
                                            to_r != from_r,
                                            dr@ == rs[to_r as int],
                                            to_len == dr@.len(),
                                            route_demand@[to_r as int] + seg_demand <= ch.max_capacity,
                                            1 <= ins < to_len,
                                            a == dr@[ins - 1],
                                            b == dr@[ins as int],
                                            sr == rs[from_r as int],
                                            1 <= seg_len,
                                            1 <= pos,
                                            pos + seg_len < sr.len(),
                                            seg_first == sr[pos as int],
                                            seg_last == sr[pos + seg_len - 1],
                                            chain@ == seg_of(sr, pos as int, seg_len as int),
                                            rchain@ == chain@.reverse(),
                                            nodes_below(chain@, ch.num_nodes as int),
                                            nodes_below(rchain@, ch.num_nodes as int),
                                            seg_demand == dsum(*ch, chain@),
                                            gain == removal_gain(dmv, sr, pos as int, seg_len as int),
                                            -100_000 <= gain <= 200_000,
                                            in_limit(dmv[a as int]@[b as int]),
                                            in_limit(dmv[a as int]@[seg_first as int]),
                                            in_limit(dmv[seg_last as int]@[b as int]),
                                            in_limit(dmv[a as int]@[seg_last as int]),
                                            in_limit(dmv[seg_first as int]@[b as int]),
                                            v <= 2,
                                            best matches Some(bb) ==> pv_move_valid(*ch, rs, route_demand@, from_r as int, pos as int, seg_len as int, bb.0 as int, bb.1 as int, bb.3)
                                                && bb.2 == move_delta(dmv, sr, pos as int, seg_len as int, rs[bb.0 as int], bb.1 as int, bb.3),
                                            e < 2,
                                            t < 2,
                                            ins == n_pos + t,
                                            endpoint == (if e == 0 { seg_first } else { seg_last }),
                                            *nl == neighbors@[endpoint as int],
                                            k < nl@.len(),
                                            cust_pos@[nl@[k as int] as int] == Some((to_r, n_pos)),
                                            best == best_k || (found_delta(best) is Some && (found_delta(best_k) matches Some(d0) ==> found_delta(best)->0 <= d0)),
                                            seg_demand == dsum(*ch, seg_of(sr, pos as int, seg_len as int)),
                                            forall|e2: int, k2: int, t2: int, v2: int| (0 <= e2 < e || e2 == e && k2 < k || e2 == e && k2 == k && 0 <= t2 < t
                                                || e2 == e && k2 == k && t2 == t && 0 <= v2 < v) && 0 <= t2 < 2 && 0 <= v2 < 2 ==>
                                                #[trigger] nb_move_ok(*ch, rs, route_demand@, neighbors@, cust_pos@, from_r as int, pos as int, seg_len as int, found_delta(best), e2, k2, t2, v2),
                                        decreases 2 - v,
                                    {
                                        let ghost best_v = best;
                                        let reversed = v == 1;
                                        if !(seg_len == 1 && reversed) {
                                            let (head, tail) = if reversed { (seg_last, seg_first) } else { (seg_first, seg_last) };
                                            let ins_cost = ch.distance_matrix[a][head] + ch.distance_matrix[tail][b] - ch.distance_matrix[a][b];
                                            let delta = ins_cost - gain;
                                            assert(delta == move_delta(dmv, sr, pos as int, seg_len as int, dr@, ins as int, reversed));
                                            let better = match best {
                                                None => true,
                                                Some(bb) => delta < bb.2,
                                            };
                                            if delta < 0 && better {
                                                let trial = if reversed { splice_vec(dr, ins, rchain) } else { splice_vec(dr, ins, chain) };
                                                assert(trial@ == spliced(dr@, ins as int, oriented(chain@, reversed)));
                                                proof {
                                                    assert forall|x: int| 0 <= x < trial@.len() implies (#[trigger] trial@[x] as int) < dmv.len() by {
                                                        let o = oriented(chain@, reversed);
                                                        if x < ins {
                                                            assert(trial@[x] == dr@[x]);
                                                        } else if x < ins + o.len() {
                                                            assert(trial@[x] == o[x - ins]);
                                                        } else {
                                                            assert(trial@[x] == dr@[x - o.len()]);
                                                        }
                                                    }
                                                }
                                                if is_time_feasible(&trial, &ch.distance_matrix, ch.service_time, &ch.ready_times, &ch.due_times) {
                                                    best = Some((to_r, ins, delta, reversed));
                                                }
                                            }
                                        }
                                        proof {
                                            assert forall|e2: int, k2: int, t2: int, v2: int| (0 <= e2 < e || e2 == e && k2 < k || e2 == e && k2 == k && 0 <= t2 < t
                                                || e2 == e && k2 == k && t2 == t && 0 <= v2 < v + 1) && 0 <= t2 < 2 && 0 <= v2 < 2 implies
                                                #[trigger] nb_move_ok(*ch, rs, route_demand@, neighbors@, cust_pos@, from_r as int, pos as int, seg_len as int, found_delta(best), e2, k2, t2, v2) by {
                                                if !(e2 == e && k2 == k && t2 == t && v2 == v) {
                                                    assert(nb_move_ok(*ch, rs, route_demand@, neighbors@, cust_pos@, from_r as int, pos as int, seg_len as int, found_delta(best_v), e2, k2, t2, v2));
                                                    if best != best_v {
                                                        lemma_nb_move_ok_mono(*ch, rs, route_demand@, neighbors@, cust_pos@, from_r as int, pos as int, seg_len as int, found_delta(best_v), found_delta(best), e2, k2, t2, v2);
                                                    }
                                                }
                                            }
                                        }
                                        v += 1;
                                    }
                                } else {
                                    proof {
                                        assert forall|e2: int, k2: int, t2: int, v2: int| (0 <= e2 < e || e2 == e && k2 < k || e2 == e && k2 == k && 0 <= t2 < t + 1)
                                            && 0 <= t2 < 2 && 0 <= v2 < 2 implies
                                            #[trigger] nb_move_ok(*ch, rs, route_demand@, neighbors@, cust_pos@, from_r as int, pos as int, seg_len as int, found_delta(best), e2, k2, t2, v2) by {
                                        }
                                    }
                                }
                                t += 1;
                            }
                        }
                    }
                },
            }
            proof {
                assert forall|e2: int, k2: int, t2: int, v2: int| (0 <= e2 < e || e2 == e && k2 < k + 1) && 0 <= t2 < 2 && 0 <= v2 < 2 implies
                    #[trigger] nb_move_ok(*ch, rs, route_demand@, neighbors@, cust_pos@, from_r as int, pos as int, seg_len as int, found_delta(best), e2, k2, t2, v2) by {
                    if !(e2 == e && k2 == k) {
                        assert(nb_move_ok(*ch, rs, route_demand@, neighbors@, cust_pos@, from_r as int, pos as int, seg_len as int, found_delta(best_k), e2, k2, t2, v2));
                        if best != best_k {
                            lemma_nb_move_ok_mono(*ch, rs, route_demand@, neighbors@, cust_pos@, from_r as int, pos as int, seg_len as int, found_delta(best_k), found_delta(best), e2, k2, t2, v2);
                        }
                    }
                }
            }
            k += 1;
        }
        e += 1;
    }
    match best {
        Some(b) => Some((b.0, b.1, b.3)),
        None => None,
    }
}

/// A sequence's demand does not depend on the direction it is walked.
proof fn lemma_dsum_reverse(ch: Challenge, s: Seq<usize>)
    ensures
        dsum(ch, s.reverse()) == dsum(ch, s),
    decreases s.len(),
{
    if s.len() > 0 {
        let t = s.drop_last();
        let x = s.last();
        assert(s.reverse() =~= seq![x] + t.reverse());
        lemma_dsum_reverse(ch, t);
        lemma_dsum_concat(ch, seq![x], t.reverse());
        assert(seq![x].drop_last() =~= Seq::<usize>::empty());
        assert(seq![x].last() == x);
        assert(dsum(ch, Seq::<usize>::empty()) == 0);
    }
}

/// Route `r` comes from the routes `ors` by moves that check the receiving
/// route: it is a route of `ors`, or a route within its time windows and the
/// capacity, with possibly some customers taken out since.
pub open spec fn pv_origin(ch: Challenge, ors: Seq<Seq<usize>>, r: Seq<usize>) -> bool {
    exists|w: Seq<usize>| #[trigger] embeds(r, w) && (ors.contains(w)
        || (time_feasible(ch.distance_matrix@, ch.service_time as int, ch.ready_times@, ch.due_times@, w) && dsum(ch, w) <= ch.max_capacity))
}

/// Origins chain: a route that comes from routes `mid`, each of which comes from
/// `ors`, comes from `ors`.
proof fn lemma_pv_origin_trans(ch: Challenge, ors: Seq<Seq<usize>>, mid: Seq<Seq<usize>>, r: Seq<usize>)
    requires
        pv_origin(ch, mid, r),
        forall|k: int| 0 <= k < mid.len() ==> pv_origin(ch, ors, #[trigger] mid[k]),
    ensures
        pv_origin(ch, ors, r),
{
    let w = choose|w: Seq<usize>| #[trigger] embeds(r, w) && (mid.contains(w)
        || (time_feasible(ch.distance_matrix@, ch.service_time as int, ch.ready_times@, ch.due_times@, w) && dsum(ch, w) <= ch.max_capacity));
    if mid.contains(w) {
        let k = choose|k: int| 0 <= k < mid.len() && mid[k] == w;
        assert(pv_origin(ch, ors, mid[k]));
        let w2 = choose|w2: Seq<usize>| #[trigger] embeds(w, w2) && (ors.contains(w2)
            || (time_feasible(ch.distance_matrix@, ch.service_time as int, ch.ready_times@, ch.due_times@, w2) && dsum(ch, w2) <= ch.max_capacity));
        lemma_embeds_trans(r, w, w2);
        assert(embeds(r, w2));
    } else {
        assert(embeds(r, w));
    }
}

/// Every route of `ors` comes from `ors`.
proof fn lemma_pv_origin_refl(ch: Challenge, ors: Seq<Seq<usize>>)
    ensures
        forall|k: int| 0 <= k < ors.len() ==> pv_origin(ch, ors, #[trigger] ors[k]),
{
    assert forall|k: int| 0 <= k < ors.len() implies pv_origin(ch, ors, #[trigger] ors[k]) by {
        lemma_embeds_refl(ors[k]);
        assert(ors.contains(ors[k]));
        assert(embeds(ors[k], ors[k]));
    }
}

/// Applies a valid segment move: splices the segment (reversed when `rev`) into
/// route `to_r` before `ins`, cuts it out of route `from_r`, and moves its demand
/// along.
fn apply_pv_move(
    routes: &mut Vec<Vec<usize>>,
    route_demand: &mut Vec<i32>,
    ch: &Challenge,
    from_r: usize,
    pos: usize,
    seg_len: usize,
    to_r: usize,
    ins: usize,
    rev: bool,
    chain: &Vec<usize>,
    rchain: &Vec<usize>,
    seg_demand: i32,
)
    requires
        pv_state(*ch, rv(old(routes)@), old(route_demand)@),
        demands_exact(*ch, rv(old(routes)@), old(route_demand)@),
        from_r < old(routes)@.len(),
        1 <= seg_len,
        1 <= pos,
        pos + seg_len < old(routes)@[from_r as int]@.len(),
        chain@ == seg_of(old(routes)@[from_r as int]@, pos as int, seg_len as int),
        rchain@ == chain@.reverse(),
        seg_demand == dsum(*ch, chain@),
        pv_move_valid(*ch, rv(old(routes)@), old(route_demand)@, from_r as int, pos as int, seg_len as int, to_r as int, ins as int, rev),
    ensures
        pv_state(*ch, rv(final(routes)@), final(route_demand)@),
        demands_exact(*ch, rv(final(routes)@), final(route_demand)@),
        final(routes)@.len() == old(routes)@.len(),
        all_proper(rv(old(routes)@)) ==> all_proper(rv(final(routes)@)),
        final(routes)@[from_r as int]@.len() == old(routes)@[from_r as int]@.len() - seg_len,
        all_custs(rv(final(routes)@)) == all_custs(rv(old(routes)@)),
        symmetric(ch.distance_matrix@) ==> total_len(ch.distance_matrix@, rv(final(routes)@)) < total_len(ch.distance_matrix@, rv(old(routes)@)),
        final(route_demand)@[to_r as int] <= ch.max_capacity,
        final(route_demand)@[from_r as int] <= old(route_demand)@[from_r as int],
        time_feasible(ch.distance_matrix@, ch.service_time as int, ch.ready_times@, ch.due_times@, final(routes)@[to_r as int]@),
        forall|k: int| 0 <= k < final(routes)@.len() && k != from_r && k != to_r ==> #[trigger] final(routes)@[k]@ == old(routes)@[k]@
            && final(route_demand)@[k] == old(route_demand)@[k],
        forall|k: int| 0 <= k < final(routes)@.len() ==> pv_origin(*ch, rv(old(routes)@), #[trigger] rv(final(routes)@)[k]),
{
    let ghost rs = rv(routes@);
    let ghost rdv = route_demand@;
    let ghost sr = rs[from_r as int];
    let ghost dr = rs[to_r as int];
    assert(sr == routes@[from_r as int]@);
    assert(dr == routes@[to_r as int]@);
    let ghost sg = seg_of(sr, pos as int, seg_len as int);
    let ghost c = oriented(sg, rev);
    let ghost ns = cut_out(sr, pos as int, seg_len as int);
    let ghost nd = spliced(dr, ins as int, c);
    proof {
        lemma_move_custs(sr, dr, pos as int, seg_len as int, ins as int, rev);
        lemma_replace_two(rs, from_r as int, to_r as int, ns, nd);
        if symmetric(ch.distance_matrix@) {
            assert(ch.route_ok(sr));
            lemma_move_len(ch.distance_matrix@, rs, from_r as int, pos as int, seg_len as int, to_r as int, ins as int, rev);
        }
        let u1 = rs.update(from_r as int, ns);
        lemma_total_nodes(rs, from_r as int, ns);
        lemma_total_nodes(u1, to_r as int, nd);
        assert(u1[to_r as int] == dr);
        // demands
        let pp = sr.subrange(0, pos as int);
        let qq = sr.subrange(pos + seg_len, sr.len() as int);
        assert(sr =~= (pp + sg) + qq);
        assert(ns =~= pp + qq);
        lemma_dsum_concat(*ch, pp + sg, qq);
        lemma_dsum_concat(*ch, pp, sg);
        lemma_dsum_concat(*ch, pp, qq);
        let aa = dr.subrange(0, ins as int);
        let bb = dr.subrange(ins as int, dr.len() as int);
        assert(dr =~= aa + bb);
        assert(nd =~= (aa + c) + bb);
        lemma_dsum_concat(*ch, aa, bb);
        lemma_dsum_concat(*ch, aa + c, bb);
        lemma_dsum_concat(*ch, aa, c);
        if rev {
            lemma_dsum_reverse(*ch, sg);
        }
        assert(ch.route_ok(sr) && ch.route_ok(dr));
        lemma_dsum_bounds(*ch, pp);
        lemma_dsum_bounds(*ch, qq);
        lemma_dsum_bounds(*ch, sg);
        assert(ch.route_ok(ns));
        assert forall|x: int| 0 <= x < nd.len() implies (#[trigger] nd[x] as int) < ch.num_nodes by {
            if x < ins {
                assert(nd[x] == dr[x]);
            } else if x < ins + seg_len {
                assert(c[x - ins] == nd[x]);
                if rev {
                    assert(c[x - ins] == sg[seg_len - 1 - (x - ins)]);
                }
            } else {
                assert(nd[x] == dr[x - seg_len]);
            }
        }
    }
    let slen = routes[from_r].len();
    let nd_v = if rev { splice_vec(&routes[to_r], ins, rchain) } else { splice_vec(&routes[to_r], ins, chain) };
    let ns_v = join_slices(&routes[from_r], 0, pos, &routes[from_r], pos + seg_len, slen);
    assert(ns_v@ == ns);
    assert(nd_v@ == nd);
    let dfrom = route_demand[from_r] - seg_demand;
    let dto = route_demand[to_r] + seg_demand;
    routes.set(to_r, nd_v);
    routes.set(from_r, ns_v);
    route_demand.set(to_r, dto);
    route_demand.set(from_r, dfrom);
    proof {
        assert(rv(routes@) =~= rs.update(from_r as int, ns).update(to_r as int, nd));
        assert(route_demand@ =~= rdv.update(from_r as int, dfrom).update(to_r as int, dto));
        assert(routes@[from_r as int]@ == ns);
        assert(routes@[to_r as int]@ == rv(routes@)[to_r as int]);
        assert(rv(routes@)[to_r as int] == nd);
        assert forall|k: int| 0 <= k < routes@.len() && k != from_r && k != to_r implies #[trigger] routes@[k]@ == old(routes)@[k]@ by {
            assert(rv(routes@)[k] == rs[k]);
        }
        assert forall|k: int| 0 <= k < rv(routes@).len() implies ch.route_ok(#[trigger] rv(routes@)[k]) by {
            if k != from_r && k != to_r {
                assert(rv(routes@)[k] == rs[k]);
            }
        }
        if all_proper(rs) {
            assert(proper(sr) && proper(dr));
            crate::so_passes::lemma_move_normal(ch.distance_matrix@, sr, dr, pos as int, seg_len as int, ins as int, rev);
            assert forall|k: int| 0 <= k < rv(routes@).len() implies proper(#[trigger] rv(routes@)[k]) by {
                if k != from_r && k != to_r {
                    assert(rv(routes@)[k] == rs[k]);
                }
            }
        }
        assert forall|k: int| 0 <= k < rv(routes@).len() implies #[trigger] route_demand@[k] == dsum(*ch, rv(routes@)[k]) by {
            if k != from_r && k != to_r {
                assert(rv(routes@)[k] == rs[k]);
                assert(rdv[k] == dsum(*ch, rs[k]));
            }
        }
        assert(time_feasible(ch.distance_matrix@, ch.service_time as int, ch.ready_times@, ch.due_times@, nd));
        assert forall|k: int| 0 <= k < rv(routes@).len() implies pv_origin(*ch, rs, #[trigger] rv(routes@)[k]) by {
            if k == to_r as int {
                lemma_embeds_refl(nd);
                assert(embeds(rv(routes@)[k], nd));
                assert(route_demand@[k] == dsum(*ch, rv(routes@)[k]));
            } else if k == from_r as int {
                lemma_cut_out_embeds(sr, pos as int, seg_len as int);
                assert(rs.contains(sr));
                assert(embeds(rv(routes@)[k], sr));
            } else {
                assert(rv(routes@)[k] == rs[k]);
                lemma_embeds_refl(rs[k]);
                assert(rs.contains(rs[k]));
                assert(embeds(rv(routes@)[k], rs[k]));
            }
        }
    }
}

/// The or-opt moves of the segments of `seg_len` customers of route `from_r`:
/// its segments from the first inner node on, each moved by the best move next
/// to a spatial neighbour of one of its ends (see `best_neighbor_move`), after
/// which the same position is scanned again. Reports whether it moved any
/// segment; when it did not, no segment of the route has a valid move by the
/// recorded positions `cust_pos`.
fn or_opt_row(
    routes: &mut Vec<Vec<usize>>,
    route_demand: &mut Vec<i32>,
    ch: &Challenge,
    neighbors: &Vec<Vec<usize>>,
    cust_pos: &mut Vec<Option<(usize, usize)>>,
    from_r: usize,
    seg_len: usize,
) -> (moved: bool)
    requires
        pv_state(*ch, rv(old(routes)@), old(route_demand)@),
        demands_exact(*ch, rv(old(routes)@), old(route_demand)@),
        neighbors_ok(*ch, neighbors@),
        1 <= seg_len <= LEN_LIMIT,
        from_r < old(routes)@.len(),
        old(cust_pos)@.len() == ch.num_nodes,
        positions_ok(rv(old(routes)@), old(cust_pos)@),
    ensures
        pv_state(*ch, rv(final(routes)@), final(route_demand)@),
        all_proper(rv(old(routes)@)) ==> all_proper(rv(final(routes)@)),
        demands_exact(*ch, rv(final(routes)@), final(route_demand)@),
        final(routes)@.len() == old(routes)@.len(),
        all_custs(rv(final(routes)@)) == all_custs(rv(old(routes)@)),
        symmetric(ch.distance_matrix@) ==> total_len(ch.distance_matrix@, rv(final(routes)@)) <= total_len(ch.distance_matrix@, rv(old(routes)@)),
        symmetric(ch.distance_matrix@) && moved ==> total_len(ch.distance_matrix@, rv(final(routes)@)) < total_len(ch.distance_matrix@, rv(old(routes)@)),
        !moved ==> rv(final(routes)@) == rv(old(routes)@) && final(route_demand)@ == old(route_demand)@,
        forall|k: int| 0 <= k < final(routes)@.len() ==> #[trigger] final(route_demand)@[k] <= ch.max_capacity
            || final(route_demand)@[k] <= old(route_demand)@[k],
        forall|k: int| 0 <= k < final(routes)@.len() ==> pv_origin(*ch, rv(old(routes)@), #[trigger] rv(final(routes)@)[k]),
        final(cust_pos)@.len() == ch.num_nodes,
        positions_ok(rv(final(routes)@), final(cust_pos)@),
        !moved ==> final(cust_pos)@ == old(cust_pos)@,
        !moved ==> forall|p2: int, e: int, k: int, t: int, v: int| 1 <= p2 && p2 + seg_len < old(routes)@[from_r as int]@.len()
            && 0 <= e < 2 && 0 <= t < 2 && 0 <= v < 2 ==>
            #[trigger] nb_move_ok(*ch, rv(old(routes)@), old(route_demand)@, neighbors@, old(cust_pos)@, from_r as int, p2, seg_len as int, None, e, k, t, v),
{
    let ghost ors = rv(routes@);
    proof {
        lemma_pv_origin_refl(*ch, ors);
    }
    let ghost ord = route_demand@;
    let ghost dmv = ch.distance_matrix@;
    let ghost cp0 = cust_pos@;
    let n_nodes = ch.num_nodes;
    let mut improved_any = false;
    let nroutes = routes.len();
    let mut pos: usize = 1;
    proof {
        lemma_total_nodes(rv(routes@), 0, rv(routes@)[0]);
        assert(rv(routes@)[from_r as int] == routes@[from_r as int]@);
    }
    while pos + seg_len < routes[from_r].len()
        invariant
            pv_state(*ch, rv(routes@), route_demand@),
            demands_exact(*ch, rv(routes@), route_demand@),
            all_proper(ors) ==> all_proper(rv(routes@)),
            neighbors_ok(*ch, neighbors@),
            1 <= seg_len <= LEN_LIMIT,
            1 <= pos <= LEN_LIMIT,
            n_nodes == ch.num_nodes,
            dmv == ch.distance_matrix@,
            routes@.len() == nroutes,
            from_r < nroutes,
            ors.len() == nroutes,
            cust_pos@.len() == n_nodes,
            positions_ok(rv(routes@), cust_pos@),
            all_custs(rv(routes@)) == all_custs(ors),
            symmetric(dmv) ==> total_len(dmv, rv(routes@)) <= total_len(dmv, ors),
            symmetric(dmv) && improved_any ==> total_len(dmv, rv(routes@)) < total_len(dmv, ors),
            !improved_any ==> rv(routes@) == ors && route_demand@ == ord,
            ord.len() == nroutes,
            forall|k: int| 0 <= k < nroutes ==> #[trigger] route_demand@[k] <= ch.max_capacity || route_demand@[k] <= ord[k],
            forall|k: int| 0 <= k < nroutes ==> pv_origin(*ch, ors, #[trigger] rv(routes@)[k]),
            !improved_any ==> cust_pos@ == cp0,
            !improved_any ==> forall|p2: int, e: int, k: int, t: int, v: int| 1 <= p2 < pos && 0 <= e < 2 && 0 <= t < 2 && 0 <= v < 2 ==>
                #[trigger] nb_move_ok(*ch, ors, ord, neighbors@, cust_pos@, from_r as int, p2, seg_len as int, None, e, k, t, v),
        decreases routes@[from_r as int]@.len() - pos,
    {
        let ghost rs = rv(routes@);
        assert(rs[from_r as int] == routes@[from_r as int]@);
        let seg_end = pos + seg_len - 1;
        let prev = routes[from_r][pos - 1];
        let next = routes[from_r][seg_end + 1];
        let seg_first = routes[from_r][pos];
        let seg_last = routes[from_r][seg_end];
        proof {
            lemma_total_nodes(rs, 0, rs[0]);
            assert(ch.route_ok(rs[from_r as int]));
            assert(in_limit(dmv[prev as int]@[seg_first as int]));
            assert(in_limit(dmv[seg_last as int]@[next as int]));
            assert(in_limit(dmv[prev as int]@[next as int]));
        }
        let seg_demand = segment_demand(&routes[from_r], pos, pos + seg_len, ch);
        let gain = ch.distance_matrix[prev][seg_first] + ch.distance_matrix[seg_last][next] - ch.distance_matrix[prev][next];
        let chain = join_slices(&routes[from_r], pos, pos + seg_len, &routes[from_r], 0, 0);
        assert(chain@ =~= seg_of(rs[from_r as int], pos as int, seg_len as int));
        let rchain = reversed_vec(&chain);
        match best_neighbor_move(routes, route_demand, ch, neighbors, &cust_pos, from_r, pos, seg_len, &chain, &rchain, seg_demand, gain) {
            Some((to_r, ins, rev)) => {
                let ghost rdv = route_demand@;
                apply_pv_move(routes, route_demand, ch, from_r, pos, seg_len, to_r, ins, rev, &chain, &rchain, seg_demand);
                improved_any = true;
                proof {
                    assert forall|k: int| 0 <= k < nroutes implies #[trigger] route_demand@[k] <= ch.max_capacity || route_demand@[k] <= ord[k] by {
                        assert(rdv[k] <= ch.max_capacity || rdv[k] <= ord[k]);
                    }
                    assert forall|k: int| 0 <= k < nroutes implies pv_origin(*ch, ors, #[trigger] rv(routes@)[k]) by {
                        lemma_pv_origin_trans(*ch, ors, rs, rv(routes@)[k]);
                    }
                    assert forall|i: int| 0 <= i < routes@.len() implies nodes_below(#[trigger] routes@[i]@, n_nodes as int) by {
                        assert(rv(routes@)[i] == routes@[i]@);
                        assert(ch.route_ok(rv(routes@)[i]));
                    }
                    lemma_total_nodes(rv(routes@), 0, rv(routes@)[0]);
                    assert(rv(routes@)[from_r as int] == routes@[from_r as int]@);
                }
                *cust_pos = build_cust_pos(routes, n_nodes);
            },
            None => {
                proof {
                    if !improved_any {
                        assert forall|p2: int, e: int, k: int, t: int, v: int| 1 <= p2 < pos + 1 && 0 <= e < 2 && 0 <= t < 2 && 0 <= v < 2 implies
                            #[trigger] nb_move_ok(*ch, ors, ord, neighbors@, cust_pos@, from_r as int, p2, seg_len as int, None, e, k, t, v) by {
                            if p2 == pos {
                                assert(nb_move_ok(*ch, rs, route_demand@, neighbors@, cust_pos@, from_r as int, pos as int, seg_len as int, None, e, k, t, v));
                            }
                        }
                    }
                }
                pos += 1;
            },
        }
    }
    proof {
        if !improved_any {
            assert(rv(routes@)[from_r as int] == routes@[from_r as int]@);
        }
    }
    improved_any
}

/// Or-opt between routes for segments of `seg_len` customers: for each route in
/// turn, scans its segments from the first inner node on; each segment moves by
/// the best move next to a spatial neighbour of one of its ends (see
/// `best_neighbor_move`), after which the same position is scanned again, or the
/// scan goes on with the next position. Before each route it stops once the time
/// budget since `start` is spent. Reports whether it moved any segment.
pub fn or_opt_pass(
    routes: &mut Vec<Vec<usize>>,
    route_demand: &mut Vec<i32>,
    ch: &Challenge,
    neighbors: &Vec<Vec<usize>>,
    start: &Instant,
    seg_len: usize,
) -> (res: bool)
    requires
        pv_state(*ch, rv(old(routes)@), old(route_demand)@),
        demands_exact(*ch, rv(old(routes)@), old(route_demand)@),
        neighbors_ok(*ch, neighbors@),
        1 <= seg_len <= LEN_LIMIT,
    ensures
        pv_state(*ch, rv(final(routes)@), final(route_demand)@),
        all_proper(rv(old(routes)@)) ==> all_proper(rv(final(routes)@)),
        demands_exact(*ch, rv(final(routes)@), final(route_demand)@),
        final(routes)@.len() == old(routes)@.len(),
        all_custs(rv(final(routes)@)) == all_custs(rv(old(routes)@)),
        symmetric(ch.distance_matrix@) ==> total_len(ch.distance_matrix@, rv(final(routes)@)) <= total_len(ch.distance_matrix@, rv(old(routes)@)),
        symmetric(ch.distance_matrix@) && res ==> total_len(ch.distance_matrix@, rv(final(routes)@)) < total_len(ch.distance_matrix@, rv(old(routes)@)),
        !res ==> rv(final(routes)@) == rv(old(routes)@) && final(route_demand)@ == old(route_demand)@,
        forall|k: int| 0 <= k < final(routes)@.len() ==> #[trigger] final(route_demand)@[k] <= ch.max_capacity
            || final(route_demand)@[k] <= old(route_demand)@[k],
        forall|k: int| 0 <= k < final(routes)@.len() ==> pv_origin(*ch, rv(old(routes)@), #[trigger] rv(final(routes)@)[k]),
{
    let ghost ors = rv(routes@);
    proof {
        lemma_pv_origin_refl(*ch, ors);
    }
    let ghost ord = route_demand@;
    let ghost dmv = ch.distance_matrix@;
    let n_nodes = ch.num_nodes;
    let mut improved_any = false;
    proof {
        assert forall|i: int| 0 <= i < routes@.len() implies nodes_below(#[trigger] routes@[i]@, n_nodes as int) by {
            assert(ors[i] == routes@[i]@);
            assert(ch.route_ok(ors[i]));
        }
    }
    let mut cust_pos = build_cust_pos(routes, n_nodes);
    let nroutes = routes.len();
    let mut from_r: usize = 0;
    while from_r < nroutes
        invariant
            pv_state(*ch, rv(routes@), route_demand@),
            demands_exact(*ch, rv(routes@), route_demand@),
            all_proper(ors) ==> all_proper(rv(routes@)),
            neighbors_ok(*ch, neighbors@),
            1 <= seg_len <= LEN_LIMIT,
            n_nodes == ch.num_nodes,
            dmv == ch.distance_matrix@,
            routes@.len() == nroutes,
            ors.len() == nroutes,
            cust_pos@.len() == n_nodes,
            positions_ok(rv(routes@), cust_pos@),
            all_custs(rv(routes@)) == all_custs(ors),
            symmetric(dmv) ==> total_len(dmv, rv(routes@)) <= total_len(dmv, ors),
            symmetric(dmv) && improved_any ==> total_len(dmv, rv(routes@)) < total_len(dmv, ors),
            !improved_any ==> rv(routes@) == ors && route_demand@ == ord,
            ord.len() == nroutes,
            forall|k: int| 0 <= k < nroutes ==> #[trigger] route_demand@[k] <= ch.max_capacity || route_demand@[k] <= ord[k],
            forall|k: int| 0 <= k < nroutes ==> pv_origin(*ch, ors, #[trigger] rv(routes@)[k]),
        decreases nroutes - from_r,
    {
        if whole_millis(&elapsed_since(start)) > TIME_LIMIT_MS {
            break;
        }
        let ghost rs = rv(routes@);
        let ghost rdv = route_demand@;
        let moved = or_opt_row(routes, route_demand, ch, neighbors, &mut cust_pos, from_r, seg_len);
        if moved {
            improved_any = true;
        }
        proof {
            assert forall|k: int| 0 <= k < nroutes implies #[trigger] route_demand@[k] <= ch.max_capacity || route_demand@[k] <= ord[k] by {
                assert(rdv[k] <= ch.max_capacity || rdv[k] <= ord[k]);
            }
            assert forall|k: int| 0 <= k < nroutes implies pv_origin(*ch, ors, #[trigger] rv(routes@)[k]) by {
                lemma_pv_origin_trans(*ch, ors, rs, rv(routes@)[k]);
            }
        }
        from_r += 1;
    }
    improved_any
}

/// One or-opt sweep for segments of `seg_len` customers, with no time limit:
/// every route in turn, as `or_opt_pass` does between its time checks. Reports
/// whether it moved a segment; when it did not, no segment has a valid move by
/// the positions it recorded for the customers.
pub fn or_opt_sweep(
    routes: &mut Vec<Vec<usize>>,
    route_demand: &mut Vec<i32>,
    ch: &Challenge,
    neighbors: &Vec<Vec<usize>>,
    seg_len: usize,
) -> (moved: bool)
    requires
        pv_state(*ch, rv(old(routes)@), old(route_demand)@),
        demands_exact(*ch, rv(old(routes)@), old(route_demand)@),
        neighbors_ok(*ch, neighbors@),
        1 <= seg_len <= LEN_LIMIT,
    ensures
        pv_state(*ch, rv(final(routes)@), final(route_demand)@),
        all_proper(rv(old(routes)@)) ==> all_proper(rv(final(routes)@)),
        demands_exact(*ch, rv(final(routes)@), final(route_demand)@),
        final(routes)@.len() == old(routes)@.len(),
        all_custs(rv(final(routes)@)) == all_custs(rv(old(routes)@)),
        symmetric(ch.distance_matrix@) ==> total_len(ch.distance_matrix@, rv(final(routes)@)) <= total_len(ch.distance_matrix@, rv(old(routes)@)),
        symmetric(ch.distance_matrix@) && moved ==> total_len(ch.distance_matrix@, rv(final(routes)@)) < total_len(ch.distance_matrix@, rv(old(routes)@)),
        !moved ==> rv(final(routes)@) == rv(old(routes)@) && final(route_demand)@ == old(route_demand)@,
        forall|k: int| 0 <= k < final(routes)@.len() ==> #[trigger] final(route_demand)@[k] <= ch.max_capacity
            || final(route_demand)@[k] <= old(route_demand)@[k],
        forall|k: int| 0 <= k < final(routes)@.len() ==> pv_origin(*ch, rv(old(routes)@), #[trigger] rv(final(routes)@)[k]),
        !moved ==> exists|cp: Seq<Option<(usize, usize)>>| cp.len() == ch.num_nodes && positions_ok(rv(old(routes)@), cp)
            && positions_full(rv(old(routes)@), cp)
            && forall|r: int, p2: int, e: int, k: int, t: int, v: int| 0 <= r < old(routes)@.len() && 1 <= p2
                && p2 + seg_len < old(routes)@[r]@.len() && 0 <= e < 2 && 0 <= t < 2 && 0 <= v < 2 ==>
                #[trigger] nb_move_ok(*ch, rv(old(routes)@), old(route_demand)@, neighbors@, cp, r, p2, seg_len as int, None, e, k, t, v),
{
    let ghost ors = rv(routes@);
    proof {
        lemma_pv_origin_refl(*ch, ors);
    }
    let ghost ord = route_demand@;
    let ghost dmv = ch.distance_matrix@;
    let n_nodes = ch.num_nodes;
    let mut improved_any = false;
    proof {
        assert forall|i: int| 0 <= i < routes@.len() implies nodes_below(#[trigger] routes@[i]@, n_nodes as int) by {
            assert(ors[i] == routes@[i]@);
            assert(ch.route_ok(ors[i]));
        }
    }
    let mut cust_pos = build_cust_pos(routes, n_nodes);
    let ghost cp0 = cust_pos@;
    let nroutes = routes.len();
    let mut from_r: usize = 0;
    while from_r < nroutes
        invariant
            pv_state(*ch, rv(routes@), route_demand@),
            demands_exact(*ch, rv(routes@), route_demand@),
            all_proper(ors) ==> all_proper(rv(routes@)),
            neighbors_ok(*ch, neighbors@),
            1 <= seg_len <= LEN_LIMIT,
            n_nodes == ch.num_nodes,
            dmv == ch.distance_matrix@,
            routes@.len() == nroutes,
            ors.len() == nroutes,
            cust_pos@.len() == n_nodes,
            cp0.len() == n_nodes,
            positions_ok(ors, cp0),
            positions_full(ors, cp0),
            !improved_any ==> cust_pos@ == cp0,
            !improved_any ==> forall|r: int, p2: int, e: int, k: int, t: int, v: int| 0 <= r < from_r && 1 <= p2
                && p2 + seg_len < ors[r].len() && 0 <= e < 2 && 0 <= t < 2 && 0 <= v < 2 ==>
                #[trigger] nb_move_ok(*ch, ors, ord, neighbors@, cp0, r, p2, seg_len as int, None, e, k, t, v),
            positions_ok(rv(routes@), cust_pos@),
            all_custs(rv(routes@)) == all_custs(ors),
            symmetric(dmv) ==> total_len(dmv, rv(routes@)) <= total_len(dmv, ors),
            symmetric(dmv) && improved_any ==> total_len(dmv, rv(routes@)) < total_len(dmv, ors),
            !improved_any ==> rv(routes@) == ors && route_demand@ == ord,
            ord.len() == nroutes,
            forall|k: int| 0 <= k < nroutes ==> #[trigger] route_demand@[k] <= ch.max_capacity || route_demand@[k] <= ord[k],
            forall|k: int| 0 <= k < nroutes ==> pv_origin(*ch, ors, #[trigger] rv(routes@)[k]),
        decreases nroutes - from_r,
    {
        let ghost rs = rv(routes@);
        let ghost rdv = route_demand@;
        let moved = or_opt_row(routes, route_demand, ch, neighbors, &mut cust_pos, from_r, seg_len);
        if moved {
            improved_any = true;
        }
        proof {
            if !improved_any {
                assert forall|r: int, p2: int, e: int, k: int, t: int, v: int| 0 <= r < from_r + 1 && 1 <= p2
                    && p2 + seg_len < ors[r].len() && 0 <= e < 2 && 0 <= t < 2 && 0 <= v < 2 implies
                    #[trigger] nb_move_ok(*ch, ors, ord, neighbors@, cp0, r, p2, seg_len as int, None, e, k, t, v) by {
                    if r == from_r {
                        assert(ors[r] == routes@[r]@);
                    }
                }
            }
            assert forall|k: int| 0 <= k < nroutes implies #[trigger] route_demand@[k] <= ch.max_capacity || route_demand@[k] <= ord[k] by {
                assert(rdv[k] <= ch.max_capacity || rdv[k] <= ord[k]);
            }
            assert forall|k: int| 0 <= k < nroutes implies pv_origin(*ch, ors, #[trigger] rv(routes@)[k]) by {
                lemma_pv_origin_trans(*ch, ors, rs, rv(routes@)[k]);
            }
        }
        from_r += 1;
    }
    proof {
        if !improved_any {
            assert forall|r: int, p2: int, e: int, k: int, t: int, v: int| 0 <= r < old(routes)@.len() && 1 <= p2
                && p2 + seg_len < old(routes)@[r]@.len() && 0 <= e < 2 && 0 <= t < 2 && 0 <= v < 2 implies
                #[trigger] nb_move_ok(*ch, ors, ord, neighbors@, cp0, r, p2, seg_len as int, None, e, k, t, v) by {
                assert(ors[r] == old(routes)@[r]@);
            }
        }
    }
    improved_any
}

} // verus!
