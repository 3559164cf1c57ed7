//! Or-opt within one route for the solver that checks time windows by walking
//! routes: moves a segment of one to three customers, possibly reversed,
//! elsewhere in its route, and the local search that runs all passes of that
//! solver.
use vstd::prelude::*;
use std::time::{Duration, Instant};
use crate::model::{dd, in_limit, route_len, nodes_below, rv, total_len, all_custs, custs, proper, Solution, lemma_route_len_concat};
use crate::algorithm::{join_slices, copy_route, lemma_route_len_nonneg};
use crate::primal_viper::{tw_tables, symmetric, lemma_route_len_reverse};
use crate::sharp_orbit::{route_tw_ok, route_tw_feasible, oriented};
use crate::so_passes::{seg_of, cut_out, spliced, removal_gain, splice_vec, reversed_vec, inner, so_state, lemma_demand_sum_concat};
use crate::sharp_orbit::demand_sum;
use crate::so_passes::{so_kept, or_opt_between_routes, exchange_between_routes, two_opt_star_between_routes};
use crate::so_passes::{or_opt_sweep, exchange_sweep, two_opt_star_sweep, or_opt_none, so_ex_valid, so_tos_valid};
use crate::primal_viper::{improving_rev, rev_seg};
use crate::improve::{elapsed_since, at_least};

verus! {

/// Route `r` with its segment of `len` nodes at `i` moved, reversed when `rev`,
/// before position `jp` of the route without the segment.
pub open spec fn intra_moved(r: Seq<usize>, i: int, len: int, jp: int, rev: bool) -> Seq<usize> {
    spliced(cut_out(r, i, len), jp, oriented(seg_of(r, i, len), rev))
}

/// Change of length of that move as the edges around it give it.
pub open spec fn intra_delta(dm: Seq<Vec<i32>>, r: Seq<usize>, i: int, len: int, jp: int, rev: bool) -> int {
    let rem = cut_out(r, i, len);
    let a = rem[jp - 1];
    let b = rem[jp];
    let s0 = r[i];
    let s1 = r[i + len - 1];
    if rev {
        dd(dm, a, s1) + dd(dm, s0, b) - dd(dm, a, b) - removal_gain(dm, r, i, len)
    } else {
        dd(dm, a, s0) + dd(dm, s1, b) - dd(dm, a, b) - removal_gain(dm, r, i, len)
    }
}

/// The move changes the length by its computed change (for a reversed segment,
/// because the distances are symmetric), and keeps the nodes and end nodes.
proof fn lemma_intra_moved(dm: Seq<Vec<i32>>, r: Seq<usize>, i: int, len: int, jp: int, rev: bool)
    requires
        symmetric(dm),
        nodes_below(r, dm.len() as int),
        1 <= len,
        1 <= i,
        i + len <= r.len() - 1,
        1 <= jp < r.len() - len,
    ensures
        route_len(dm, intra_moved(r, i, len, jp, rev)) == route_len(dm, r) + intra_delta(dm, r, i, len, jp, rev),
        intra_moved(r, i, len, jp, rev).to_multiset() == r.to_multiset(),
        intra_moved(r, i, len, jp, rev).len() == r.len(),
        intra_moved(r, i, len, jp, rev)[0] == r[0],
        intra_moved(r, i, len, jp, rev)[r.len() - 1] == r[r.len() - 1],
{
    let pp = r.subrange(0, i);
    let sg = seg_of(r, i, len);
    let qq = r.subrange(i + len, r.len() as int);
    let rem = cut_out(r, i, len);
    let c = oriented(sg, rev);
    let a = rem.subrange(0, jp);
    let b = rem.subrange(jp, rem.len() as int);
    let res = intra_moved(r, i, len, jp, rev);
    assert(r =~= (pp + sg) + qq);
    assert(rem =~= pp + qq);
    assert(rem =~= a + b);
    assert(res =~= (a + c) + b);
    assert(nodes_below(sg, dm.len() as int));
    lemma_route_len_concat(dm, pp + sg, qq);
    lemma_route_len_concat(dm, pp, sg);
    lemma_route_len_concat(dm, pp, qq);
    lemma_route_len_concat(dm, a, b);
    lemma_route_len_concat(dm, a + c, b);
    lemma_route_len_concat(dm, a, c);
    if rev {
        lemma_route_len_reverse(dm, sg);
        assert(c[0] == r[i + len - 1]);
        assert(c.last() == r[i]);
    } else {
        assert(c[0] == r[i]);
        assert(c.last() == r[i + len - 1]);
    }
    assert((pp + sg).last() == r[i + len - 1]);
    assert((a + c).last() == c.last());
    assert(a.last() == rem[jp - 1]);
    assert(b[0] == rem[jp]);
    vstd::seq_lib::lemma_multiset_commutative(pp + sg, qq);
    vstd::seq_lib::lemma_multiset_commutative(pp, sg);
    vstd::seq_lib::lemma_multiset_commutative(pp, qq);
    vstd::seq_lib::lemma_multiset_commutative(a, b);
    vstd::seq_lib::lemma_multiset_commutative(a + c, b);
    vstd::seq_lib::lemma_multiset_commutative(a, c);
    if rev {
        crate::primal_viper::lemma_reverse_multiset(sg);
    }
    assert forall|x: usize| #[trigger] res.to_multiset().count(x) == r.to_multiset().count(x) by {
        broadcast use vstd::multiset::group_multiset_axioms;
        assert(res.to_multiset().count(x) == a.to_multiset().count(x) + c.to_multiset().count(x) + b.to_multiset().count(x));
        assert(r.to_multiset().count(x) == pp.to_multiset().count(x) + sg.to_multiset().count(x) + qq.to_multiset().count(x));
        assert(rem.to_multiset().count(x) == a.to_multiset().count(x) + b.to_multiset().count(x));
        assert(rem.to_multiset().count(x) == pp.to_multiset().count(x) + qq.to_multiset().count(x));
    }
    assert(res.to_multiset() =~= r.to_multiset());
    assert(res[0] == r[0]);
    assert(res[r.len() - 1] == r[r.len() - 1]);
}

/// Moving the segment of `len` nodes at `i` to position `jp` of the route
/// without it (reversed when `rev`) is a move the intra-route or-opt weighs.
pub open spec fn intra_cand(r: Seq<usize>, i: int, len: int, jp: int, rev: bool) -> bool {
    1 <= jp < r.len() - len && jp != i && (rev ==> len > 1)
}

/// Place `(jp2, rev2)` comes before `(jp, rev)` in the scan order: by position,
/// forward before reversed.
pub open spec fn intra_before(jp2: int, rev2: bool, jp: int, rev: bool) -> bool {
    jp2 < jp || (jp2 == jp && !rev2 && rev)
}

/// No place of the segment of `len` nodes at `i` shortens the route.
pub open spec fn intra_none(dm: Seq<Vec<i32>>, r: Seq<usize>, i: int, len: int) -> bool {
    forall|jp: int, rev: bool| #[trigger] intra_cand(r, i, len, jp, rev) ==> intra_delta(dm, r, i, len, jp, rev) >= 0
}

/// `(jp, rev)` is the first place, in scan order, with the smallest change, and
/// that change is negative.
pub open spec fn intra_first_best(dm: Seq<Vec<i32>>, r: Seq<usize>, i: int, len: int, jp: int, rev: bool) -> bool {
    &&& intra_cand(r, i, len, jp, rev)
    &&& intra_delta(dm, r, i, len, jp, rev) < 0
    &&& forall|jp2: int, rev2: bool| #[trigger] intra_cand(r, i, len, jp2, rev2) ==> intra_delta(dm, r, i, len, jp2, rev2) >= intra_delta(dm, r, i, len, jp, rev)
        && (intra_before(jp2, rev2, jp, rev) ==> intra_delta(dm, r, i, len, jp2, rev2) > intra_delta(dm, r, i, len, jp, rev))
}

/// The best place found so far, `best` (place, change, reversed), accounts for
/// place `(jp2, rev2)`: no shortening when there is none, else no smaller
/// change, and a larger one when the place comes first.
pub open spec fn best_covers(dm: Seq<Vec<i32>>, r: Seq<usize>, i: int, len: int, best: Option<(usize, i32, bool)>, jp2: int, rev2: bool) -> bool {
    &&& best is None ==> intra_delta(dm, r, i, len, jp2, rev2) >= 0
    &&& best matches Some(bb) ==> intra_delta(dm, r, i, len, jp2, rev2) >= bb.1
        && (intra_before(jp2, rev2, bb.0 as int, bb.2) ==> intra_delta(dm, r, i, len, jp2, rev2) > bb.1)
}

/// The segment of `len` nodes at `i` has been tried: its removal saves nothing,
/// or no place shortens the route, or the best place breaks a time window.
pub open spec fn intra_step_done(dm: Seq<Vec<i32>>, rt: Seq<i32>, dt: Seq<i32>, st: int, r: Seq<usize>, len: int, i: int) -> bool {
    removal_gain(dm, r, i, len) > 0 ==> intra_none(dm, r, i, len)
        || exists|jp: int, rev: bool| #[trigger] intra_first_best(dm, r, i, len, jp, rev)
            && !route_tw_ok(dm, rt, dt, st, intra_moved(r, i, len, jp, rev))
}

/// No segment of one to three nodes of a route of at least five nodes has a
/// move that the intra-route or-opt would make.
pub open spec fn intra_done(dm: Seq<Vec<i32>>, rt: Seq<i32>, dt: Seq<i32>, st: int, r: Seq<usize>) -> bool {
    r.len() >= 5 ==> forall|len: int, i: int| 1 <= len <= 3 && r.len() >= len + 3 && 1 <= i < r.len() - len
        ==> #[trigger] intra_step_done(dm, rt, dt, st, r, len, i)
}

/// The best place for the segment of `seg_len` nodes at `i`: over the positions
/// `jp` of the route without it (but its own), forward and then (for longer
/// segments) reversed, the first with the smallest negative change.
fn best_intra_place(route: &Vec<usize>, i: usize, seg_len: usize, remove_gain: i32, dm: &[Vec<i32>]) -> (res: Option<(usize, bool)>)
    requires
        crate::model::dm_ok(dm@, dm@.len() as int),
        nodes_below(route@, dm@.len() as int),
        1 <= seg_len <= 3,
        1 <= i,
        i + seg_len <= route@.len() - 1,
        remove_gain == removal_gain(dm@, route@, i as int, seg_len as int),
        -100_000 <= remove_gain <= 200_000,
    ensures
        res matches Some((jp, rev)) ==> 1 <= jp < route@.len() - seg_len && jp != i && (rev ==> seg_len > 1)
            && intra_delta(dm@, route@, i as int, seg_len as int, jp as int, rev) < 0,
        res matches Some((jp, rev)) ==> intra_first_best(dm@, route@, i as int, seg_len as int, jp as int, rev),
        res is None ==> intra_none(dm@, route@, i as int, seg_len as int),
{
    let n = route.len();
    let n_prime = n - seg_len;
    let s0 = route[i];
    let s1 = route[i + seg_len - 1];
    let mut best: Option<(usize, i32, bool)> = None;
    let mut jp: usize = 1;
    while jp < n_prime
        invariant
            crate::model::dm_ok(dm@, dm@.len() as int),
            nodes_below(route@, dm@.len() as int),
            n == route@.len(),
            n_prime == n - seg_len,
            1 <= seg_len <= 3,
            1 <= i,
            i + seg_len <= n - 1,
            s0 == route@[i as int],
            s1 == route@[i + seg_len - 1],
            remove_gain == removal_gain(dm@, route@, i as int, seg_len as int),
            -100_000 <= remove_gain <= 200_000,
            1 <= jp <= n_prime,
            best matches Some(bb) ==> bb.0 < jp,
            best matches Some(bb) ==> 1 <= bb.0 < n_prime && bb.0 != i && (bb.2 ==> seg_len > 1)
                && bb.1 == intra_delta(dm@, route@, i as int, seg_len as int, bb.0 as int, bb.2) && bb.1 < 0,
            forall|jp2: int, rev2: bool| #[trigger] intra_cand(route@, i as int, seg_len as int, jp2, rev2) && jp2 < jp ==>
                best_covers(dm@, route@, i as int, seg_len as int, best, jp2, rev2),
        decreases n_prime - jp,
    {
        let ghost best0 = best;
        if jp != i {
            let ghost rem = cut_out(route@, i as int, seg_len as int);
            let a = if jp - 1 < i { route[jp - 1] } else { route[jp - 1 + seg_len] };
            let b = if jp < i { route[jp] } else { route[jp + seg_len] };
            assert(a == rem[jp - 1]);
            assert(b == rem[jp as int]);
            proof {
                assert(in_limit(dm@[a as int]@[b as int]));
                assert(in_limit(dm@[a as int]@[s0 as int]));
                assert(in_limit(dm@[s1 as int]@[b as int]));
                assert(in_limit(dm@[a as int]@[s1 as int]));
                assert(in_limit(dm@[s0 as int]@[b as int]));
            }
            let old_edge = dm[a][b];
            let add_fw = dm[a][s0] + dm[s1][b] - old_edge;
            let d_fw = add_fw - remove_gain;
            assert(d_fw == intra_delta(dm@, route@, i as int, seg_len as int, jp as int, false));
            let better_fw = match best {
                None => true,
                Some(bb) => d_fw < bb.1,
            };
            if d_fw < 0 && better_fw {
                best = Some((jp, d_fw, false));
            }
            proof {
                assert forall|jp2: int, rev2: bool| #[trigger] intra_cand(route@, i as int, seg_len as int, jp2, rev2)
                    && intra_before(jp2, rev2, jp as int, true) implies best_covers(dm@, route@, i as int, seg_len as int, best, jp2, rev2) by {
                    if jp2 < jp {
                        assert(best_covers(dm@, route@, i as int, seg_len as int, best0, jp2, rev2));
                    }
                }
            }
            let ghost best1 = best;
            if seg_len > 1 {
                proof {
                    assert(intra_cand(route@, i as int, seg_len as int, jp as int, true));
                }
                let add_rv = dm[a][s1] + dm[s0][b] - old_edge;
                let d_rv = add_rv - remove_gain;
                assert(d_rv == intra_delta(dm@, route@, i as int, seg_len as int, jp as int, true));
                let better_rv = match best {
                    None => true,
                    Some(bb) => d_rv < bb.1,
                };
                if d_rv < 0 && better_rv {
                    best = Some((jp, d_rv, true));
                }
                proof {
                    assert forall|jp2: int, rev2: bool| #[trigger] intra_cand(route@, i as int, seg_len as int, jp2, rev2)
                        && jp2 <= jp implies best_covers(dm@, route@, i as int, seg_len as int, best, jp2, rev2) by {
                        if intra_before(jp2, rev2, jp as int, true) {
                            assert(best_covers(dm@, route@, i as int, seg_len as int, best1, jp2, rev2));
                        }
                    }
                }
            } else {
                proof {
                    assert forall|jp2: int, rev2: bool| #[trigger] intra_cand(route@, i as int, seg_len as int, jp2, rev2)
                        && jp2 <= jp implies best_covers(dm@, route@, i as int, seg_len as int, best, jp2, rev2) by {
                        if jp2 == jp {
                            assert(!rev2);
                        }
                    }
                }
            }
        }
        proof {
            assert forall|jp2: int, rev2: bool| #[trigger] intra_cand(route@, i as int, seg_len as int, jp2, rev2)
                && jp2 < jp + 1 implies best_covers(dm@, route@, i as int, seg_len as int, best, jp2, rev2) by {
                if jp2 < jp {
                    assert(best_covers(dm@, route@, i as int, seg_len as int, best0, jp2, rev2));
                }
            }
        }
        jp += 1;
    }
    match best {
        Some(bb) => {
            assert forall|jp2: int, rev2: bool| #[trigger] intra_cand(route@, i as int, seg_len as int, jp2, rev2) implies
                best_covers(dm@, route@, i as int, seg_len as int, best, jp2, rev2) by {}
            assert(intra_first_best(dm@, route@, i as int, seg_len as int, bb.0 as int, bb.2));
            Some((bb.0, bb.2))
        },
        None => {
            assert forall|jp2: int, rev2: bool| #[trigger] intra_cand(route@, i as int, seg_len as int, jp2, rev2) implies
                intra_delta(dm@, route@, i as int, seg_len as int, jp2, rev2) >= 0 by {
                assert(best_covers(dm@, route@, i as int, seg_len as int, best, jp2, rev2));
            }
            None
        },
    }
}

/// Intra-route or-opt: for segment lengths 1 to 3 and their positions in turn,
/// a segment whose removal saves length moves to its best place (see
/// `best_intra_place`) when the route stays within its time windows, and the
/// search starts over; ends when no such move remains. Reports whether it moved
/// any segment.
pub fn or_opt_intra_route(route: &mut Vec<usize>, dm: &[Vec<i32>], rt: &[i32], dt: &[i32], st: i32) -> (res: bool)
    requires
        tw_tables(dm@, st, rt@, dt@),
        symmetric(dm@),
        nodes_below(old(route)@, dm@.len() as int),
    ensures
        final(route)@.len() == old(route)@.len(),
        final(route)@.to_multiset() == old(route)@.to_multiset(),
        nodes_below(final(route)@, dm@.len() as int),
        final(route)@.len() > 0 ==> final(route)@[0] == old(route)@[0]
            && final(route)@[final(route)@.len() - 1] == old(route)@[old(route)@.len() - 1],
        res ==> route_tw_ok(dm@, rt@, dt@, st as int, final(route)@) && route_len(dm@, final(route)@) < route_len(dm@, old(route)@),
        !res ==> final(route)@ == old(route)@,
        intra_done(dm@, rt@, dt@, st as int, final(route)@),
{
    let ghost r0 = route@;
    let mut any_improved = false;
    let mut improved = true;
    proof {
        lemma_route_len_nonneg(dm@, route@);
    }
    while improved
        invariant
            tw_tables(dm@, st, rt@, dt@),
            symmetric(dm@),
            nodes_below(route@, dm@.len() as int),
            route@.len() == r0.len(),
            route@.to_multiset() == r0.to_multiset(),
            r0 == old(route)@,
            route@.len() > 0 ==> route@[0] == r0[0] && route@[route@.len() - 1] == r0[r0.len() - 1],
            route_len(dm@, route@) >= 0,
            any_improved ==> route_tw_ok(dm@, rt@, dt@, st as int, route@) && route_len(dm@, route@) < route_len(dm@, r0),
            !any_improved ==> route@ == r0,
            !improved ==> intra_done(dm@, rt@, dt@, st as int, route@),
        ensures
            !improved,
        decreases route_len(dm@, route@) * 2 + (if improved { 1int } else { 0int }),
    {
        let ghost l0 = route_len(dm@, route@);
        improved = false;
        let ghost r_sw = route@;
        let n = route.len();
        if n < 5 {
            break;
        }
        let mut seg_len: usize = 1;
        while seg_len <= 3 && !improved
            invariant
                tw_tables(dm@, st, rt@, dt@),
                symmetric(dm@),
                nodes_below(route@, dm@.len() as int),
                route@.len() == r0.len(),
                n == route@.len(),
                n >= 5,
                route@.to_multiset() == r0.to_multiset(),
                r0 == old(route)@,
                route@.len() > 0 ==> route@[0] == r0[0] && route@[route@.len() - 1] == r0[r0.len() - 1],
                route_len(dm@, route@) >= 0,
                any_improved ==> route_tw_ok(dm@, rt@, dt@, st as int, route@) && route_len(dm@, route@) < route_len(dm@, r0),
                !any_improved ==> route@ == r0,
                1 <= seg_len <= 4,
                improved ==> route_len(dm@, route@) < l0,
                !improved ==> route_len(dm@, route@) == l0,
                !improved ==> route@ == r_sw,
                !improved ==> forall|len: int, i: int| 1 <= len < seg_len && route@.len() >= len + 3 && 1 <= i < route@.len() - len
                    ==> #[trigger] intra_step_done(dm@, rt@, dt@, st as int, route@, len, i),
            decreases 4 - seg_len,
        {
            if n >= seg_len + 3 {
                let mut i: usize = 1;
                while i < n - seg_len
                    invariant_except_break
                        !improved,
                    invariant
                        tw_tables(dm@, st, rt@, dt@),
                        symmetric(dm@),
                        nodes_below(route@, dm@.len() as int),
                        route@.len() == r0.len(),
                        n == route@.len(),
                        n >= seg_len + 3,
                        route@.to_multiset() == r0.to_multiset(),
                        r0 == old(route)@,
                        route@.len() > 0 ==> route@[0] == r0[0] && route@[route@.len() - 1] == r0[r0.len() - 1],
                        route_len(dm@, route@) >= 0,
                        any_improved ==> route_tw_ok(dm@, rt@, dt@, st as int, route@) && route_len(dm@, route@) < route_len(dm@, r0),
                        !any_improved ==> route@ == r0,
                        1 <= seg_len <= 3,
                        1 <= i,
                        improved ==> route_len(dm@, route@) < l0,
                        !improved ==> route_len(dm@, route@) == l0,
                        !improved ==> route@ == r_sw,
                        !improved ==> forall|len: int, i2: int| 1 <= len < seg_len && route@.len() >= len + 3 && 1 <= i2 < route@.len() - len
                            ==> #[trigger] intra_step_done(dm@, rt@, dt@, st as int, route@, len, i2),
                        !improved ==> forall|i2: int| 1 <= i2 < i ==> #[trigger] intra_step_done(dm@, rt@, dt@, st as int, route@, seg_len as int, i2),
                    ensures
                        !improved ==> i >= n - seg_len,
                    decreases n - seg_len - i,
                {
                    let prev = route[i - 1];
                    let s0 = route[i];
                    let s1 = route[i + seg_len - 1];
                    let nxt = route[i + seg_len];
                    proof {
                        assert(in_limit(dm@[prev as int]@[s0 as int]));
                        assert(in_limit(dm@[s1 as int]@[nxt as int]));
                        assert(in_limit(dm@[prev as int]@[nxt as int]));
                    }
                    let remove_gain = dm[prev][s0] + dm[s1][nxt] - dm[prev][nxt];
                    if remove_gain > 0 {
                        match best_intra_place(route, i, seg_len, remove_gain, dm) {
                            Some((jp, rev)) => {
                                let ghost before = route@;
                                let seg = join_slices(route, i, i + seg_len, route, 0, 0);
                                assert(seg@ =~= seg_of(before, i as int, seg_len as int));
                                let rem = join_slices(route, 0, i, route, i + seg_len, n);
                                assert(rem@ == cut_out(before, i as int, seg_len as int));
                                let to_insert = if rev { reversed_vec(&seg) } else { seg };
                                let candidate = splice_vec(&rem, jp, &to_insert);
                                assert(candidate@ == intra_moved(before, i as int, seg_len as int, jp as int, rev));
                                proof {
                                    lemma_intra_moved(dm@, before, i as int, seg_len as int, jp as int, rev);
                                    assert forall|x: int| 0 <= x < candidate@.len() implies (#[trigger] candidate@[x] as int) < dm@.len() by {
                                        vstd::seq_lib::to_multiset_contains(candidate@, candidate@[x]);
                                        assert(candidate@.contains(candidate@[x]));
                                        vstd::seq_lib::to_multiset_contains(before, candidate@[x]);
                                        let w = choose|w: int| 0 <= w < before.len() && before[w] == candidate@[x];
                                    }
                                    lemma_route_len_nonneg(dm@, candidate@);
                                }
                                if route_tw_feasible(&candidate, dm, rt, dt, st) {
                                    *route = candidate;
                                    improved = true;
                                    any_improved = true;
                                    break;
                                }
                                proof {
                                    assert(intra_first_best(dm@, route@, i as int, seg_len as int, jp as int, rev));
                                    assert(intra_step_done(dm@, rt@, dt@, st as int, route@, seg_len as int, i as int));
                                }
                            },
                            None => {},
                        }
                    }
                    proof {
                        assert(intra_step_done(dm@, rt@, dt@, st as int, route@, seg_len as int, i as int));
                    }
                    i += 1;
                }
            }
            proof {
                if !improved {
                    assert forall|len: int, i: int| 1 <= len < seg_len + 1 && route@.len() >= len + 3 && 1 <= i < route@.len() - len
                        implies #[trigger] intra_step_done(dm@, rt@, dt@, st as int, route@, len, i) by {
                        if len == seg_len {
                            assert(intra_step_done(dm@, rt@, dt@, st as int, route@, seg_len as int, i));
                        }
                    }
                }
            }
            seg_len += 1;
        }
        proof {
            if !improved {
                assert forall|len: int, i: int| 1 <= len <= 3 && route@.len() >= len + 3 && 1 <= i < route@.len() - len
                    implies #[trigger] intra_step_done(dm@, rt@, dt@, st as int, route@, len, i) by {
                    assert(len < seg_len);
                }
            }
        }
    }
    any_improved
}

/// Removing a node removes its demand.
proof fn lemma_demand_sum_remove(demands: Seq<i32>, s: Seq<usize>, j: int)
    requires
        0 <= j < s.len(),
    ensures
        demand_sum(demands, s) == demand_sum(demands, s.remove(j)) + demands[s[j] as int],
{
    let p = s.subrange(0, j);
    let q = s.subrange(j + 1, s.len() as int);
    assert(s =~= (p + seq![s[j]]) + q);
    assert(s.remove(j) =~= p + q);
    lemma_demand_sum_concat(demands, p + seq![s[j]], q);
    lemma_demand_sum_concat(demands, p, seq![s[j]]);
    lemma_demand_sum_concat(demands, p, q);
    assert(seq![s[j]].drop_last() =~= Seq::<usize>::empty());
    assert(seq![s[j]].last() == s[j]);
    assert(demand_sum(demands, Seq::<usize>::empty()) == 0);
}

/// Sequences with the same nodes have the same demand.
proof fn lemma_demand_sum_perm(demands: Seq<i32>, s: Seq<usize>, t: Seq<usize>)
    requires
        s.to_multiset() == t.to_multiset(),
    ensures
        demand_sum(demands, s) == demand_sum(demands, t),
    decreases s.len(),
{
    broadcast use vstd::multiset::group_multiset_axioms;
    vstd::seq_lib::to_multiset_len(s);
    vstd::seq_lib::to_multiset_len(t);
    if s.len() == 0 {
        assert(s =~= t);
    } else {
        let x = s.last();
        let s0 = s.drop_last();
        assert(s =~= s0.push(x));
        vstd::seq_lib::to_multiset_build(s0, x);
        vstd::seq_lib::to_multiset_contains(t, x);
        let j = choose|j: int| 0 <= j < t.len() && t[j] == x;
        let t0 = t.remove(j);
        vstd::seq_lib::to_multiset_remove(t, j);
        assert(s0.to_multiset() =~= t0.to_multiset());
        lemma_demand_sum_perm(demands, s0, t0);
        lemma_demand_sum_remove(demands, t, j);
    }
}

/// Replacing a route by one with the same nodes and end nodes, no longer, keeps
/// the state of the passes and the customers.
proof fn lemma_so_replace_perm(
    dm: Seq<Vec<i32>>,
    rt: Seq<i32>,
    dt: Seq<i32>,
    st: i32,
    demands: Seq<i32>,
    rs: Seq<Seq<usize>>,
    rd: Seq<i32>,
    r: int,
    x: Seq<usize>,
)
    requires
        so_state(dm, rt, dt, st, demands, rs, rd),
        0 <= r < rs.len(),
        x.to_multiset() == rs[r].to_multiset(),
        x.len() == rs[r].len(),
        x[0] == rs[r][0],
        x[x.len() - 1] == rs[r][rs[r].len() - 1],
        nodes_below(x, dm.len() as int),
    ensures
        so_state(dm, rt, dt, st, demands, rs.update(r, x), rd),
        all_custs(rs.update(r, x)) == all_custs(rs),
        total_len(dm, rs.update(r, x)) == total_len(dm, rs) - route_len(dm, rs[r]) + route_len(dm, x),
{
    broadcast use vstd::multiset::group_multiset_axioms;
    let u = rs.update(r, x);
    let s = rs[r];
    assert(proper(s));
    crate::pv_ls::lemma_perm_proper(s, x);
    // the inner nodes have the same multiset
    let si = inner(s);
    let xi = inner(x);
    assert(s =~= (seq![s[0]] + si) + seq![s[s.len() - 1]]);
    assert(x =~= (seq![x[0]] + xi) + seq![x[x.len() - 1]]);
    vstd::seq_lib::lemma_multiset_commutative(seq![s[0]] + si, seq![s[s.len() - 1]]);
    vstd::seq_lib::lemma_multiset_commutative(seq![s[0]], si);
    vstd::seq_lib::lemma_multiset_commutative(seq![x[0]] + xi, seq![x[x.len() - 1]]);
    vstd::seq_lib::lemma_multiset_commutative(seq![x[0]], xi);
    assert forall|v: usize| #[trigger] si.to_multiset().count(v) == xi.to_multiset().count(v) by {
        assert(s.to_multiset().count(v) == x.to_multiset().count(v));
        assert(seq![s[0]] =~= seq![x[0]]);
        assert(seq![s[s.len() - 1]] =~= seq![x[x.len() - 1]]);
    }
    assert(si.to_multiset() =~= xi.to_multiset());
    lemma_demand_sum_perm(demands, si, xi);
    lemma_perm_custs(s, x);
    crate::model::lemma_all_custs_update(rs, r, x);
    assert forall|v: usize| #[trigger] all_custs(u).count(v) == all_custs(rs).count(v) by {
        assert(all_custs(u).add(custs(rs[r])).count(v) == all_custs(rs).add(custs(x)).count(v));
    }
    assert(all_custs(u) =~= all_custs(rs));
    crate::improve::lemma_total_len_update(dm, rs, r, x);
    crate::construct::lemma_total_nodes(rs, r, x);
    assert forall|k: int| 0 <= k < u.len() implies proper(#[trigger] u[k]) && nodes_below(u[k], dm.len() as int)
        && rd[k] == demand_sum(demands, inner(u[k])) by {
        if k != r {
            assert(u[k] == rs[k]);
        }
    }
}

/// Two sequences with the same nodes have the same customers.
pub(crate) proof fn lemma_perm_custs(s: Seq<usize>, t: Seq<usize>)
    requires
        s.to_multiset() == t.to_multiset(),
    ensures
        custs(s) == custs(t),
    decreases s.len(),
{
    broadcast use vstd::multiset::group_multiset_axioms;
    vstd::seq_lib::to_multiset_len(s);
    vstd::seq_lib::to_multiset_len(t);
    if s.len() == 0 {
        assert(s =~= t);
    } else {
        let x = s.last();
        let s0 = s.drop_last();
        assert(s =~= s0.push(x));
        vstd::seq_lib::to_multiset_build(s0, x);
        vstd::seq_lib::to_multiset_contains(t, x);
        let j = choose|j: int| 0 <= j < t.len() && t[j] == x;
        let t0 = t.remove(j);
        vstd::seq_lib::to_multiset_remove(t, j);
        assert(s0.to_multiset() =~= t0.to_multiset());
        lemma_perm_custs(s0, t0);
        crate::model::lemma_custs_remove(t, j);
        assert(s0.push(x).drop_last() =~= s0);
        assert(custs(s) =~= custs(t));
    }
}

/// No reversal of a stretch of route `r` (of at least five nodes) that would
/// shorten it keeps its time windows.
pub open spec fn so_two_opt_done(dm: Seq<Vec<i32>>, rt: Seq<i32>, dt: Seq<i32>, st: int, r: Seq<usize>) -> bool {
    r.len() >= 5 ==> forall|i: int, j: int| 1 <= i < j < r.len() - 1 && #[trigger] improving_rev(dm, r, i, j)
        ==> !route_tw_ok(dm, rt, dt, st, #[trigger] rev_seg(r, i, j))
}

/// Runs intra-route 2-opt and or-opt on route `r`, keeping the pass state and
/// the customers; reports whether either shortened it.
fn improve_route(
    routes: &mut Vec<Vec<usize>>,
    route_demand: &Vec<i32>,
    r: usize,
    dm: &[Vec<i32>],
    rt: &[i32],
    dt: &[i32],
    st: i32,
    demands: &[i32],
) -> (res: bool)
    requires
        so_state(dm@, rt@, dt@, st, demands@, rv(old(routes)@), route_demand@),
        symmetric(dm@),
        r < old(routes)@.len(),
    ensures
        so_state(dm@, rt@, dt@, st, demands@, rv(final(routes)@), route_demand@),
        final(routes)@.len() == old(routes)@.len(),
        all_custs(rv(final(routes)@)) == all_custs(rv(old(routes)@)),
        total_len(dm@, rv(final(routes)@)) <= total_len(dm@, rv(old(routes)@)),
        res ==> total_len(dm@, rv(final(routes)@)) < total_len(dm@, rv(old(routes)@)),
        !res ==> rv(final(routes)@) == rv(old(routes)@),
        forall|k: int| 0 <= k < old(routes)@.len() && k != r ==> #[trigger] final(routes)@[k]@ == old(routes)@[k]@,
        intra_done(dm@, rt@, dt@, st as int, final(routes)@[r as int]@),
        !res ==> so_two_opt_done(dm@, rt@, dt@, st as int, final(routes)@[r as int]@),
{
    let ghost rs = rv(routes@);
    assert(rs[r as int] == routes@[r as int]@);
    let mut route = copy_route(&routes[r]);
    let a = crate::sharp_orbit::two_opt_route(&mut route, dm, rt, dt, st);
    let b = or_opt_intra_route(&mut route, dm, rt, dt, st);
    proof {
        assert(proper(rs[r as int]));
        lemma_so_replace_perm(dm@, rt@, dt@, st, demands@, rs, route_demand@, r as int, route@);
    }
    routes.set(r, route);
    assert(rv(routes@) =~= rs.update(r as int, rv(routes@)[r as int]));
    proof {
        if !a && !b {
            assert(rv(routes@) =~= rs);
        }
    }
    a || b
}

/// The local search: intra-route 2-opt and or-opt on every route, then rounds
/// of or-opt, exchange and 2-opt* between routes followed by the intra-route
/// passes again, while a round improves. Returns as soon as the time budget since
/// `start` is spent, checked before each route and each round.
pub fn run_local_search(
    solution: &mut Solution,
    route_demand: &mut Vec<i32>,
    dm: &[Vec<i32>],
    rt: &[i32],
    dt: &[i32],
    st: i32,
    demands: &[i32],
    cap: i32,
    start: &Instant,
    budget: &Duration,
)
    requires
        so_state(dm@, rt@, dt@, st, demands@, rv(old(solution).routes@), old(route_demand)@),
        symmetric(dm@),
    ensures
        so_kept(dm@, rt@, dt@, st, demands@, rv(old(solution).routes@), rv(final(solution).routes@), final(route_demand)@),
{
    let ghost ors = rv(solution.routes@);
    let mut r: usize = 0;
    while r < solution.routes.len()
        invariant
            so_kept(dm@, rt@, dt@, st, demands@, ors, rv(solution.routes@), route_demand@),
            symmetric(dm@),
            ors == rv(old(solution).routes@),
        decreases solution.routes@.len() - r,
    {
        if at_least(&elapsed_since(start), budget) {
            return;
        }
        improve_route(&mut solution.routes, route_demand, r, dm, rt, dt, st, demands);
        r += 1;
    }
    proof {
        assert forall|k: int| 0 <= k < rv(solution.routes@).len() implies nodes_below(#[trigger] rv(solution.routes@)[k], dm@.len() as int) by {
        }
        crate::alns::lemma_total_len_nonneg_dm(dm@, rv(solution.routes@));
    }
    loop
        invariant
            so_kept(dm@, rt@, dt@, st, demands@, ors, rv(solution.routes@), route_demand@),
            symmetric(dm@),
            ors == rv(old(solution).routes@),
            total_len(dm@, rv(solution.routes@)) >= 0,
        decreases total_len(dm@, rv(solution.routes@)),
    {
        if at_least(&elapsed_since(start), budget) {
            return;
        }
        let ghost l0 = total_len(dm@, rv(solution.routes@));
        let moved = or_opt_between_routes(&mut solution.routes, route_demand, dm, rt, dt, st, demands, cap, start, budget);
        let swapped = exchange_between_routes(&mut solution.routes, route_demand, dm, rt, dt, st, demands, cap, start, budget);
        let tail_swapped = two_opt_star_between_routes(&mut solution.routes, route_demand, dm, rt, dt, st, demands, cap, start, budget);
        let mut any_intra = false;
        let mut r: usize = 0;
        while r < solution.routes.len()
            invariant
                so_kept(dm@, rt@, dt@, st, demands@, ors, rv(solution.routes@), route_demand@),
                symmetric(dm@),
                ors == rv(old(solution).routes@),
                total_len(dm@, rv(solution.routes@)) <= l0,
                (moved || swapped || tail_swapped || any_intra) ==> total_len(dm@, rv(solution.routes@)) < l0,
            decreases solution.routes@.len() - r,
        {
            if at_least(&elapsed_since(start), budget) {
                return;
            }
            if improve_route(&mut solution.routes, route_demand, r, dm, rt, dt, st, demands) {
                any_intra = true;
            }
            r += 1;
        }
        proof {
            assert forall|k: int| 0 <= k < rv(solution.routes@).len() implies nodes_below(#[trigger] rv(solution.routes@)[k], dm@.len() as int) by {
            }
            crate::alns::lemma_total_len_nonneg_dm(dm@, rv(solution.routes@));
        }
        if !moved && !swapped && !tail_swapped && !any_intra {
            break;
        }
    }
}


/// A solution no move of the local search improves: within each route no
/// 2-opt reversal or segment move, and between routes no or-opt move of one to
/// three customers whose removal saves length, no exchange and no tail swap.
pub open spec fn so_local_optimum(dm: Seq<Vec<i32>>, rt: Seq<i32>, dt: Seq<i32>, st: i32, demands: Seq<i32>, cap: int,
    rs: Seq<Seq<usize>>, rd: Seq<i32>) -> bool {
    &&& forall|k: int| 0 <= k < rs.len() ==> intra_done(dm, rt, dt, st as int, #[trigger] rs[k])
        && so_two_opt_done(dm, rt, dt, st as int, rs[k])
    &&& forall|src: int, len: int, i: int| 0 <= src < rs.len() && 1 <= len <= 3 && 1 <= i && i + len + 1 <= rs[src].len() ==>
        #[trigger] or_opt_none(dm, rt, dt, st as int, demands, cap, rs, rd, src, len, i)
    &&& forall|a: int, b: int, i: int, j: int| 0 <= a < b < rs.len() ==>
        !#[trigger] so_ex_valid(dm, rt, dt, st as int, demands, cap, rs[a], rs[b], rd[a] as int, rd[b] as int, i, j)
    &&& forall|a: int, b: int, i: int, j: int| 0 <= a < b < rs.len() ==>
        !#[trigger] so_tos_valid(dm, rt, dt, st as int, demands, cap, rs[a], rs[b], i, j)
}

/// One round of the local search with no time limit: an or-opt sweep, an
/// exchange sweep and a 2-opt* sweep between routes, then intra-route 2-opt and
/// or-opt on every route. Reports whether any of them improved the solution;
/// when none did, the solution is a local optimum of all of them.
pub fn so_local_search_round(
    solution: &mut Solution,
    route_demand: &mut Vec<i32>,
    dm: &[Vec<i32>],
    rt: &[i32],
    dt: &[i32],
    st: i32,
    demands: &[i32],
    cap: i32,
) -> (improved: bool)
    requires
        so_state(dm@, rt@, dt@, st, demands@, rv(old(solution).routes@), old(route_demand)@),
        symmetric(dm@),
    ensures
        so_kept(dm@, rt@, dt@, st, demands@, rv(old(solution).routes@), rv(final(solution).routes@), final(route_demand)@),
        improved ==> total_len(dm@, rv(final(solution).routes@)) < total_len(dm@, rv(old(solution).routes@)),
        !improved ==> rv(final(solution).routes@) == rv(old(solution).routes@) && final(route_demand)@ == old(route_demand)@,
        !improved ==> so_local_optimum(dm@, rt@, dt@, st, demands@, cap as int, rv(old(solution).routes@), old(route_demand)@),
{
    let ghost ors = rv(solution.routes@);
    let ghost ord = route_demand@;
    let moved = or_opt_sweep(&mut solution.routes, route_demand, dm, rt, dt, st, demands, cap);
    let swapped = exchange_sweep(&mut solution.routes, route_demand, dm, rt, dt, st, demands, cap);
    let tail_swapped = two_opt_star_sweep(&mut solution.routes, route_demand, dm, rt, dt, st, demands, cap);
    let ghost l0 = total_len(dm@, ors);
    let mut any_intra = false;
    let mut r: usize = 0;
    while r < solution.routes.len()
        invariant
            so_kept(dm@, rt@, dt@, st, demands@, ors, rv(solution.routes@), route_demand@),
            symmetric(dm@),
            l0 == total_len(dm@, ors),
            (moved || swapped || tail_swapped || any_intra) ==> total_len(dm@, rv(solution.routes@)) < l0,
            !(moved || swapped || tail_swapped || any_intra) ==> rv(solution.routes@) == ors && route_demand@ == ord,
            !(moved || swapped || tail_swapped || any_intra) ==> forall|k: int| 0 <= k < r ==>
                intra_done(dm@, rt@, dt@, st as int, #[trigger] ors[k]) && so_two_opt_done(dm@, rt@, dt@, st as int, ors[k]),
            !(moved || swapped || tail_swapped) ==> so_local_optimum_between(dm@, rt@, dt@, st, demands@, cap as int, ors, ord),
        decreases solution.routes@.len() - r,
    {
        let ghost rs = rv(solution.routes@);
        if improve_route(&mut solution.routes, route_demand, r, dm, rt, dt, st, demands) {
            any_intra = true;
        }
        proof {
            if !(moved || swapped || tail_swapped || any_intra) {
                assert forall|k: int| 0 <= k < r + 1 implies
                    intra_done(dm@, rt@, dt@, st as int, #[trigger] ors[k]) && so_two_opt_done(dm@, rt@, dt@, st as int, ors[k]) by {
                    if k == r {
                        assert(rv(solution.routes@)[k] == solution.routes@[k]@);
                    }
                }
            }
        }
        r += 1;
    }
    moved || swapped || tail_swapped || any_intra
}

/// The moves between routes of `so_local_optimum`.
pub open spec fn so_local_optimum_between(dm: Seq<Vec<i32>>, rt: Seq<i32>, dt: Seq<i32>, st: i32, demands: Seq<i32>, cap: int,
    rs: Seq<Seq<usize>>, rd: Seq<i32>) -> bool {
    &&& forall|src: int, len: int, i: int| 0 <= src < rs.len() && 1 <= len <= 3 && 1 <= i && i + len + 1 <= rs[src].len() ==>
        #[trigger] or_opt_none(dm, rt, dt, st as int, demands, cap, rs, rd, src, len, i)
    &&& forall|a: int, b: int, i: int, j: int| 0 <= a < b < rs.len() ==>
        !#[trigger] so_ex_valid(dm, rt, dt, st as int, demands, cap, rs[a], rs[b], rd[a] as int, rd[b] as int, i, j)
    &&& forall|a: int, b: int, i: int, j: int| 0 <= a < b < rs.len() ==>
        !#[trigger] so_tos_valid(dm, rt, dt, st as int, demands, cap, rs[a], rs[b], i, j)
}

/// The local search with no time limit: rounds (see `so_local_search_round`)
/// until one improves nothing. The result is a local optimum of every move.
pub fn so_local_search_to_optimum(
    solution: &mut Solution,
    route_demand: &mut Vec<i32>,
    dm: &[Vec<i32>],
    rt: &[i32],
    dt: &[i32],
    st: i32,
    demands: &[i32],
    cap: i32,
)
    requires
        so_state(dm@, rt@, dt@, st, demands@, rv(old(solution).routes@), old(route_demand)@),
        symmetric(dm@),
    ensures
        so_kept(dm@, rt@, dt@, st, demands@, rv(old(solution).routes@), rv(final(solution).routes@), final(route_demand)@),
        so_local_optimum(dm@, rt@, dt@, st, demands@, cap as int, rv(final(solution).routes@), final(route_demand)@),
{
    let ghost ors = rv(solution.routes@);
    proof {
        assert forall|k: int| 0 <= k < ors.len() implies nodes_below(#[trigger] ors[k], dm@.len() as int) by {
        }
        crate::alns::lemma_total_len_nonneg_dm(dm@, ors);
    }
    loop
        invariant
            so_kept(dm@, rt@, dt@, st, demands@, ors, rv(solution.routes@), route_demand@),
            symmetric(dm@),
            total_len(dm@, rv(solution.routes@)) >= 0,
        ensures
            so_kept(dm@, rt@, dt@, st, demands@, ors, rv(solution.routes@), route_demand@),
            so_local_optimum(dm@, rt@, dt@, st, demands@, cap as int, rv(solution.routes@), route_demand@),
        decreases total_len(dm@, rv(solution.routes@)),
    {
        let improved = so_local_search_round(solution, route_demand, dm, rt, dt, st, demands, cap);
        proof {
            assert forall|k: int| 0 <= k < rv(solution.routes@).len() implies nodes_below(#[trigger] rv(solution.routes@)[k], dm@.len() as int) by {
            }
            crate::alns::lemma_total_len_nonneg_dm(dm@, rv(solution.routes@));
        }
        if !improved {
            break;
        }
    }
}

} // verus!
