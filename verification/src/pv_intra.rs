//! Or-opt within one route for the time-window solver: moves a segment of one to
//! three consecutive customers elsewhere in its route while that shortens the
//! route and keeps it within its time windows.
use vstd::prelude::*;
use crate::model::{dd, in_limit, route_len, nodes_below, lemma_route_len_concat};
use crate::algorithm::{join_slices, lemma_route_len_nonneg};
use crate::primal_viper::{time_feasible, is_time_feasible, tw_tables};
use crate::so_passes::splice_vec;

verus! {

/// Route `r` with its segment of `len` nodes at `s` moved before position `ins`
/// of the route (counted in `r`, outside the segment).
pub open spec fn seg_moved(r: Seq<usize>, s: int, len: int, ins: int) -> Seq<usize> {
    let rem = r.subrange(0, s) + r.subrange(s + len, r.len() as int);
    let at = if ins < s { ins } else { ins - len };
    rem.subrange(0, at) + r.subrange(s, s + len) + rem.subrange(at, rem.len() as int)
}

/// What moving the segment of `len` nodes at `s` before position `ins` saves.
pub open spec fn move_gain(dm: Seq<Vec<i32>>, r: Seq<usize>, s: int, len: int, ins: int) -> int {
    let e = s + len - 1;
    (dd(dm, r[s - 1], r[s]) + dd(dm, r[e], r[e + 1]) - dd(dm, r[s - 1], r[e + 1]))
        - (dd(dm, r[ins - 1], r[s]) + dd(dm, r[e], r[ins]) - dd(dm, r[ins - 1], r[ins]))
}

/// The length of a route after a segment move is its length less the gain; the
/// nodes and the end nodes stay.
proof fn lemma_seg_moved(dm: Seq<Vec<i32>>, r: Seq<usize>, s: int, len: int, ins: int)
    requires
        1 <= len,
        1 <= s,
        s + len <= r.len() - 1,
        1 <= ins < r.len(),
        ins < s || ins > s + len,
    ensures
        route_len(dm, seg_moved(r, s, len, ins)) == route_len(dm, r) - move_gain(dm, r, s, len, ins),
        seg_moved(r, s, len, ins).to_multiset() == r.to_multiset(),
        seg_moved(r, s, len, ins).len() == r.len(),
        seg_moved(r, s, len, ins)[0] == r[0],
        seg_moved(r, s, len, ins)[r.len() - 1] == r[r.len() - 1],
        forall|x: int| 0 <= x < r.len() ==> r.contains(#[trigger] seg_moved(r, s, len, ins)[x]),
{
    let pp = r.subrange(0, s);
    let sg = r.subrange(s, s + len);
    let qq = r.subrange(s + len, r.len() as int);
    let rem = pp + qq;
    let at = if ins < s { ins } else { ins - len };
    let a = rem.subrange(0, at);
    let b = rem.subrange(at, rem.len() as int);
    let res = seg_moved(r, s, len, ins);
    assert(res == a + sg + b);
    assert(r =~= (pp + sg) + qq);
    assert(rem =~= a + b);
    lemma_route_len_concat(dm, pp + sg, qq);
    lemma_route_len_concat(dm, pp, sg);
    lemma_route_len_concat(dm, pp, qq);
    lemma_route_len_concat(dm, a, b);
    lemma_route_len_concat(dm, a + sg, b);
    lemma_route_len_concat(dm, a, sg);
    assert((pp + sg).last() == r[s + len - 1]);
    assert((a + sg).last() == r[s + len - 1]);
    if ins < s {
        assert(a.last() == r[ins - 1]);
        assert(b[0] == r[ins]);
    } else {
        assert(a.last() == r[ins - 1]);
        assert(b[0] == r[ins]);
    }
    // multiset
    vstd::seq_lib::lemma_multiset_commutative(pp + sg, qq);
    vstd::seq_lib::lemma_multiset_commutative(pp, sg);
    vstd::seq_lib::lemma_multiset_commutative(pp, qq);
    vstd::seq_lib::lemma_multiset_commutative(a, b);
    vstd::seq_lib::lemma_multiset_commutative(a + sg, b);
    vstd::seq_lib::lemma_multiset_commutative(a, sg);
    assert(rem.to_multiset() == (a + b).to_multiset());
    assert(r.to_multiset() == ((pp + sg) + qq).to_multiset());
    assert(res.to_multiset() =~= r.to_multiset()) by {
        broadcast use vstd::multiset::group_multiset_axioms;
        assert forall|x: usize| #[trigger] res.to_multiset().count(x) == r.to_multiset().count(x) by {
            assert(res.to_multiset().count(x) == a.to_multiset().count(x) + sg.to_multiset().count(x) + b.to_multiset().count(x));
            assert(r.to_multiset().count(x) == pp.to_multiset().count(x) + sg.to_multiset().count(x) + qq.to_multiset().count(x));
            assert(rem.to_multiset().count(x) == a.to_multiset().count(x) + b.to_multiset().count(x));
            assert(rem.to_multiset().count(x) == pp.to_multiset().count(x) + qq.to_multiset().count(x));
        }
    }
    assert(res[0] == r[0]);
    assert(res[r.len() - 1] == r[r.len() - 1]);
    assert forall|x: int| 0 <= x < r.len() implies r.contains(#[trigger] res[x]) by {
        vstd::seq_lib::to_multiset_contains(res, res[x]);
        assert(res.contains(res[x]));
        vstd::seq_lib::to_multiset_contains(r, res[x]);
    }
}

/// The route with the segment of `seg_len` nodes at `s` moved before `ins`.
fn build_seg_moved(route: &Vec<usize>, s: usize, seg_len: usize, ins: usize) -> (res: Vec<usize>)
    requires
        1 <= seg_len,
        1 <= s,
        s + seg_len <= route@.len() - 1,
        1 <= ins < route@.len(),
        ins < s || ins > s + seg_len,
    ensures
        res@ == seg_moved(route@, s as int, seg_len as int, ins as int),
{
    let n = route.len();
    let rem = join_slices(route, 0, s, route, s + seg_len, n);
    let seg = join_slices(route, s, s + seg_len, route, 0, 0);
    assert(seg@ =~= route@.subrange(s as int, s + seg_len));
    let at = if ins < s { ins } else { ins - seg_len };
    let out = splice_vec(&rem, at, &seg);
    assert(out@ =~= seg_moved(route@, s as int, seg_len as int, ins as int));
    out
}

/// Moving the segment of `len` nodes at `s` before position `ins` of route `r`
/// is not worth making: `ins` is no other gap, or the move saves nothing or
/// breaks a time window.
pub open spec fn seg_move_ruled_out(dm: Seq<Vec<i32>>, st: int, ready: Seq<i32>, due: Seq<i32>, r: Seq<usize>, len: int, s: int, ins: int) -> bool {
    (1 <= ins < r.len() && !(s <= ins <= s + len) && !(r[ins - 1] == r[s - 1] && r[ins] == r[s + len]))
        ==> move_gain(dm, r, s, len, ins) <= 0 || !time_feasible(dm, st, ready, due, seg_moved(r, s, len, ins))
}

/// No move of the segment of `len` nodes at `s` is worth making.
pub open spec fn seg_step_done(dm: Seq<Vec<i32>>, st: int, ready: Seq<i32>, due: Seq<i32>, r: Seq<usize>, len: int, s: int) -> bool {
    forall|ins: int| #[trigger] seg_move_ruled_out(dm, st, ready, due, r, len, s, ins)
}

/// No segment of one to three nodes of route `r` has a move within the route
/// that saves length and keeps the time windows.
pub open spec fn seg_moves_done(dm: Seq<Vec<i32>>, st: int, ready: Seq<i32>, due: Seq<i32>, r: Seq<usize>) -> bool {
    forall|len: int, s: int| 1 <= len <= 3 && r.len() >= len + 3 && 1 <= s < r.len() - len
        ==> #[trigger] seg_step_done(dm, st, ready, due, r, len, s)
}

/// Intra-route or-opt: for segment lengths 1 to 3 and their start positions in
/// turn, moves the segment to its best position elsewhere in the route (the
/// first one with the largest saving that keeps the route within its time
/// windows) when that saves length, then starts over; ends when no segment move
/// saves length. Reports whether it moved any segment.
pub fn intra_or_opt_route(route: &mut Vec<usize>, dm: &[Vec<i32>], service_time: i32, ready: &[i32], due: &[i32]) -> (res: bool)
    requires
        tw_tables(dm@, service_time, ready@, due@),
        nodes_below(old(route)@, dm@.len() as int),
    ensures
        final(route)@.len() == old(route)@.len(),
        final(route)@.to_multiset() == old(route)@.to_multiset(),
        nodes_below(final(route)@, dm@.len() as int),
        final(route)@.len() > 0 ==> final(route)@[0] == old(route)@[0]
            && final(route)@[final(route)@.len() - 1] == old(route)@[old(route)@.len() - 1],
        res ==> time_feasible(dm@, service_time as int, ready@, due@, final(route)@) && route_len(dm@, final(route)@) < route_len(dm@, old(route)@),
        !res ==> final(route)@ == old(route)@,
        seg_moves_done(dm@, service_time as int, ready@, due@, final(route)@),
{
    let ghost r0 = route@;
    let mut improved_any = false;
    let mut changed = true;
    proof {
        lemma_route_len_nonneg(dm@, route@);
    }
    while changed
        invariant
            tw_tables(dm@, service_time, ready@, due@),
            nodes_below(route@, dm@.len() as int),
            route@.len() == r0.len(),
            route@.to_multiset() == r0.to_multiset(),
            r0 == old(route)@,
            route@.len() > 0 ==> route@[0] == r0[0] && route@[route@.len() - 1] == r0[r0.len() - 1],
            route_len(dm@, route@) >= 0,
            improved_any ==> time_feasible(dm@, service_time as int, ready@, due@, route@) && route_len(dm@, route@) < route_len(dm@, r0),
            !improved_any ==> route@ == r0,
            !changed ==> seg_moves_done(dm@, service_time as int, ready@, due@, route@),
        decreases route_len(dm@, route@) * 2 + (if changed { 1int } else { 0int }),
    {
        let ghost start_len = route_len(dm@, route@);
        changed = false;
        let ghost r_sw = route@;
        let mut seg_len: usize = 1;
        while seg_len <= 3 && !changed
            invariant
                tw_tables(dm@, service_time, ready@, due@),
                nodes_below(route@, dm@.len() as int),
                route@.len() == r0.len(),
                route@.to_multiset() == r0.to_multiset(),
                r0 == old(route)@,
                route@.len() > 0 ==> route@[0] == r0[0] && route@[route@.len() - 1] == r0[r0.len() - 1],
                route_len(dm@, route@) >= 0,
                improved_any ==> time_feasible(dm@, service_time as int, ready@, due@, route@) && route_len(dm@, route@) < route_len(dm@, r0),
                !improved_any ==> route@ == r0,
                1 <= seg_len <= 4,
                changed ==> route_len(dm@, route@) < start_len,
                !changed ==> route_len(dm@, route@) == start_len,
                !changed ==> route@ == r_sw,
                !changed ==> forall|len: int, s2: int| 1 <= len < seg_len && route@.len() >= len + 3 && 1 <= s2 < route@.len() - len
                    ==> #[trigger] seg_step_done(dm@, service_time as int, ready@, due@, route@, len, s2),
            decreases 4 - seg_len,
        {
            let n = route.len();
            if n >= seg_len + 3 {
                let mut s: usize = 1;
                while s < n - seg_len
                    invariant
                        tw_tables(dm@, service_time, ready@, due@),
                        nodes_below(route@, dm@.len() as int),
                        route@.len() == r0.len(),
                        n == route@.len(),
                        n >= seg_len + 3,
                        route@.to_multiset() == r0.to_multiset(),
                        r0 == old(route)@,
                        route@.len() > 0 ==> route@[0] == r0[0] && route@[route@.len() - 1] == r0[r0.len() - 1],
                        route_len(dm@, route@) >= 0,
                        improved_any ==> time_feasible(dm@, service_time as int, ready@, due@, route@) && route_len(dm@, route@) < route_len(dm@, r0),
                        !improved_any ==> route@ == r0,
                        1 <= seg_len <= 3,
                        1 <= s,
                        changed ==> route_len(dm@, route@) < start_len,
                        !changed ==> route_len(dm@, route@) == start_len,
                        !changed ==> route@ == r_sw,
                        !changed ==> forall|len: int, s2: int| 1 <= len < seg_len && route@.len() >= len + 3 && 1 <= s2 < route@.len() - len
                            ==> #[trigger] seg_step_done(dm@, service_time as int, ready@, due@, route@, len, s2),
                        !changed ==> forall|s2: int| 1 <= s2 < s ==> #[trigger] seg_step_done(dm@, service_time as int, ready@, due@, route@, seg_len as int, s2),
                    ensures
                        !changed ==> s >= n - seg_len,
                    decreases n - s,
                {
                    let e = s + seg_len - 1;
                    let prev = route[s - 1];
                    let first = route[s];
                    let last = route[e];
                    let next = route[e + 1];
                    proof {
                        assert(in_limit(dm@[prev as int]@[first as int]));
                        assert(in_limit(dm@[last as int]@[next as int]));
                        assert(in_limit(dm@[prev as int]@[next as int]));
                    }
                    let removed_saving = dm[prev][first] + dm[last][next] - dm[prev][next];
                    let mut best_gain: i32 = 0;
                    let mut best_ins: Option<usize> = None;
                    let mut ins: usize = 1;
                    while ins < n
                        invariant
                            tw_tables(dm@, service_time, ready@, due@),
                            nodes_below(route@, dm@.len() as int),
                            n == route@.len(),
                            n >= seg_len + 3,
                            1 <= seg_len <= 3,
                            1 <= s,
                            s + seg_len <= n - 1,
                            e == s + seg_len - 1,
                            prev == route@[s - 1],
                            first == route@[s as int],
                            last == route@[e as int],
                            next == route@[e + 1],
                            removed_saving == dd(dm@, prev, first) + dd(dm@, last, next) - dd(dm@, prev, next),
                            -100_000 <= removed_saving <= 200_000,
                            1 <= ins <= n,
                            best_gain >= 0,
                            best_ins matches Some(bi) ==> 1 <= bi < n && (bi < s || bi > s + seg_len)
                                && best_gain == move_gain(dm@, route@, s as int, seg_len as int, bi as int)
                                && best_gain > 0
                                && time_feasible(dm@, service_time as int, ready@, due@, seg_moved(route@, s as int, seg_len as int, bi as int)),
                            best_ins is None ==> best_gain == 0,
                            best_ins is None ==> forall|i2: int| i2 < ins ==> #[trigger] seg_move_ruled_out(dm@, service_time as int, ready@, due@, route@, seg_len as int, s as int, i2),
                        decreases n - ins,
                    {
                        if !(ins >= s && ins <= e + 1) {
                            let a = route[ins - 1];
                            let b = route[ins];
                            if !(a == prev && b == next) {
                                proof {
                                    assert(in_limit(dm@[a as int]@[first as int]));
                                    assert(in_limit(dm@[last as int]@[b as int]));
                                    assert(in_limit(dm@[a as int]@[b as int]));
                                }
                                let added_cost = dm[a][first] + dm[last][b] - dm[a][b];
                                let gain = removed_saving - added_cost;
                                assert(gain == move_gain(dm@, route@, s as int, seg_len as int, ins as int));
                                if gain > best_gain {
                                    let trial = build_seg_moved(route, s, seg_len, ins);
                                    proof {
                                        lemma_seg_moved(dm@, route@, s as int, seg_len as int, ins as int);
                                        assert forall|x: int| 0 <= x < trial@.len() implies (#[trigger] trial@[x] as int) < dm@.len() by {
                                            let w = choose|w: int| 0 <= w < route@.len() && route@[w] == trial@[x];
                                        }
                                    }
                                    if is_time_feasible(&trial, dm, service_time, ready, due) {
                                        best_gain = gain;
                                        best_ins = Some(ins);
                                    }
                                }
                            }
                        }
                        ins += 1;
                    }
                    match best_ins {
                        Some(bi) => {
                            let moved = build_seg_moved(route, s, seg_len, bi);
                            proof {
                                lemma_seg_moved(dm@, route@, s as int, seg_len as int, bi as int);
                                assert forall|x: int| 0 <= x < moved@.len() implies (#[trigger] moved@[x] as int) < dm@.len() by {
                                    let w = choose|w: int| 0 <= w < route@.len() && route@[w] == moved@[x];
                                }
                                lemma_route_len_nonneg(dm@, moved@);
                            }
                            *route = moved;
                            improved_any = true;
                            changed = true;
                            break;
                        },
                        None => {
                            proof {
                                assert forall|i2: int| #[trigger] seg_move_ruled_out(dm@, service_time as int, ready@, due@, route@, seg_len as int, s as int, i2) by {
                                    if i2 < ins {
                                    }
                                }
                                assert(seg_step_done(dm@, service_time as int, ready@, due@, route@, seg_len as int, s as int));
                            }
                            s += 1;
                        },
                    }
                }
            }
            proof {
                if !changed {
                    assert forall|len: int, s2: int| 1 <= len < seg_len + 1 && route@.len() >= len + 3 && 1 <= s2 < route@.len() - len
                        implies #[trigger] seg_step_done(dm@, service_time as int, ready@, due@, route@, len, s2) by {
                        if len == seg_len {
                            assert(seg_step_done(dm@, service_time as int, ready@, due@, route@, seg_len as int, s2));
                        }
                    }
                }
            }
            seg_len += 1;
        }
        proof {
            if !changed {
                assert forall|len: int, s2: int| 1 <= len <= 3 && route@.len() >= len + 3 && 1 <= s2 < route@.len() - len
                    implies #[trigger] seg_step_done(dm@, service_time as int, ready@, due@, route@, len, s2) by {
                    assert(len < seg_len);
                }
            }
        }
    }
    improved_any
}

} // verus!
