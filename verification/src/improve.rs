//! Greedy local search: first-improvement 2-opt* and relocate passes, repeated
//! while they improve and time remains. Every applied move shortens the
//! solution, which is also why the search ends.
use vstd::prelude::*;
use std::time::{Duration, Instant};
use crate::model::{
    all_custs, custs, rv, proper, in_limit, route_len, total_len, dd, dm_ok, nodes_below, Challenge, LEN_LIMIT,
    lemma_route_len_concat, lemma_route_len_insert, lemma_route_len_remove,
};
use crate::algorithm::{
    all_proper, is_feasible, route_load, copy_route, drop_empty, keep_nonempty, join_slices, ins_cost,
    lemma_route_len_nonneg, lemma_tails_custs, lemma_replace_two, lemma_short_after_replace, lemma_keep_nonempty_custs,
};
use crate::construct::{total_nodes, lemma_total_nodes};
use crate::alns::{lemma_keep_nonempty_members, lemma_remove_proper};
use crate::destroy::detour;
use crate::repair::lemma_insert_proper;
use crate::algorithm::lemma_move_custs;

verus! {

/// Routes that the local search works on: in normal form, within the instance,
/// with few enough nodes overall for every route's load to fit.
pub open spec fn ls_state(ch: Challenge, rs: Seq<Seq<usize>>) -> bool {
    &&& ch.wf()
    &&& all_proper(rs)
    &&& forall|i: int| 0 <= i < rs.len() ==> ch.route_ok(#[trigger] rs[i])
    &&& total_nodes(rs) <= LEN_LIMIT
}

/// Route `a` up to position `i` followed by route `b` after position `j`.
pub open spec fn tail_swap(a: Seq<usize>, b: Seq<usize>, i: int, j: int) -> Seq<usize> {
    a.subrange(0, i + 1) + b.subrange(j + 1, b.len() as int)
}

/// Swapping the tails of routes `r1` and `r2` after inner positions `i` and `j`
/// shortens them, keeps both within the capacity and leaves both feasible.
pub open spec fn improving_2opt(ch: Challenge, rs: Seq<Seq<usize>>, r1: int, r2: int, i: int, j: int) -> bool {
    let a = rs[r1];
    let b = rs[r2];
    &&& a.len() > 2
    &&& b.len() > 2
    &&& 1 <= i < a.len() - 1
    &&& 1 <= j < b.len() - 1
    &&& ch.d(a[i], b[j + 1]) + ch.d(b[j], a[i + 1]) < ch.d(a[i], a[i + 1]) + ch.d(b[j], b[j + 1])
    &&& ch.load_of(tail_swap(a, b, i, j)) <= ch.max_capacity
    &&& ch.load_of(tail_swap(b, a, j, i)) <= ch.max_capacity
    &&& ch.feasible(tail_swap(a, b, i, j))
    &&& ch.feasible(tail_swap(b, a, j, i))
}

/// The first improving tail swap of routes `r1` and `r2`, in order of `i`, then `j`.
fn two_opt_star_pair(routes: &[Vec<usize>], r1: usize, r2: usize, ch: &Challenge) -> (res: Option<(usize, usize)>)
    requires
        ls_state(*ch, rv(routes@)),
        r1 < routes@.len(),
        r2 < routes@.len(),
        r1 != r2,
    ensures
        res matches Some((i, j)) ==> improving_2opt(*ch, rv(routes@), r1 as int, r2 as int, i as int, j as int),
        res is None ==> forall|i: int, j: int| !#[trigger] improving_2opt(*ch, rv(routes@), r1 as int, r2 as int, i, j),
{
    let ghost rs = rv(routes@);
    let a = &routes[r1];
    let b = &routes[r2];
    assert(rs[r1 as int] == a@ && rs[r2 as int] == b@);
    if a.len() <= 2 || b.len() <= 2 {
        return None;
    }
    proof {
        lemma_total_nodes(rs, 0, rs[0]);
        if r1 < r2 {
            assert(a@.len() + b@.len() <= LEN_LIMIT);
        } else {
            assert(b@.len() + a@.len() <= LEN_LIMIT);
        }
    }
    let dm = &ch.distance_matrix;
    let mut i: usize = 1;
    while i < a.len() - 1
        invariant
            rs == rv(routes@),
            ls_state(*ch, rs),
            a@ == rs[r1 as int],
            b@ == rs[r2 as int],
            (r1 as int) < rs.len(),
            (r2 as int) < rs.len(),
            a@.len() > 2,
            b@.len() > 2,
            a@.len() + b@.len() <= LEN_LIMIT,
            dm@ == ch.distance_matrix@,
            1 <= i <= a@.len() - 1,
            forall|i2: int, j2: int| i2 < i ==> !#[trigger] improving_2opt(*ch, rs, r1 as int, r2 as int, i2, j2),
        decreases a.len() - i,
    {
        let mut j: usize = 1;
        while j < b.len() - 1
            invariant
                rs == rv(routes@),
                ls_state(*ch, rs),
                a@ == rs[r1 as int],
                b@ == rs[r2 as int],
                (r1 as int) < rs.len(),
                (r2 as int) < rs.len(),
                a@.len() > 2,
                b@.len() > 2,
                a@.len() + b@.len() <= LEN_LIMIT,
                dm@ == ch.distance_matrix@,
                1 <= i < a@.len() - 1,
                1 <= j <= b@.len() - 1,
                forall|i2: int, j2: int| i2 < i ==> !#[trigger] improving_2opt(*ch, rs, r1 as int, r2 as int, i2, j2),
                forall|j2: int| j2 < j ==> !#[trigger] improving_2opt(*ch, rs, r1 as int, r2 as int, i as int, j2),
            decreases b.len() - j,
        {
            proof {
                assert(ch.route_ok(a@) && ch.route_ok(b@));
                assert(in_limit(dm@[a@[i as int] as int]@[a@[i + 1] as int]));
                assert(in_limit(dm@[b@[j as int] as int]@[b@[j + 1] as int]));
                assert(in_limit(dm@[a@[i as int] as int]@[b@[j + 1] as int]));
                assert(in_limit(dm@[b@[j as int] as int]@[a@[i + 1] as int]));
            }
            let old_cost = dm[a[i]][a[i + 1]] + dm[b[j]][b[j + 1]];
            let new_cost = dm[a[i]][b[j + 1]] + dm[b[j]][a[i + 1]];
            if new_cost < old_cost {
                let nr1 = join_slices(a, 0, i + 1, b, j + 1, b.len());
                let nr2 = join_slices(b, 0, j + 1, a, i + 1, a.len());
                proof {
                    assert(nr1@ == tail_swap(a@, b@, i as int, j as int));
                    assert(nr2@ == tail_swap(b@, a@, j as int, i as int));
                    assert(ch.route_ok(nr1@));
                    assert(ch.route_ok(nr2@));
                }
                let l1 = route_load(&nr1, ch);
                let l2 = route_load(&nr2, ch);
                if l1 <= ch.max_capacity && l2 <= ch.max_capacity && is_feasible(&nr1, ch) && is_feasible(&nr2, ch) {
                    return Some((i, j));
                }
            }
            j += 1;
        }
        i += 1;
    }
    None
}

/// Replacing a route changes the total length by the difference of lengths.
pub proof fn lemma_total_len_update(dm: Seq<Vec<i32>>, rs: Seq<Seq<usize>>, i: int, x: Seq<usize>)
    requires
        0 <= i < rs.len(),
    ensures
        total_len(dm, rs.update(i, x)) == total_len(dm, rs) - route_len(dm, rs[i]) + route_len(dm, x),
    decreases rs.len(),
{
    if i == rs.len() - 1 {
        assert(rs.update(i, x).drop_last() =~= rs.drop_last());
    } else {
        assert(rs.update(i, x).drop_last() =~= rs.drop_last().update(i, x));
        lemma_total_len_update(dm, rs.drop_last(), i, x);
    }
}

/// Dropping routes never lengthens a solution, and a solution has non-negative
/// length.
pub proof fn lemma_total_len_keep(ch: Challenge, rs: Seq<Seq<usize>>)
    requires
        ch.wf(),
        forall|i: int| 0 <= i < rs.len() ==> ch.route_ok(#[trigger] rs[i]),
    ensures
        0 <= total_len(ch.distance_matrix@, keep_nonempty(rs)) <= total_len(ch.distance_matrix@, rs),
        total_nodes(keep_nonempty(rs)) <= total_nodes(rs),
    decreases rs.len(),
{
    if rs.len() > 0 {
        assert(ch.route_ok(rs[rs.len() - 1]));
        lemma_route_len_nonneg(ch.distance_matrix@, rs.last());
        lemma_total_len_keep(ch, rs.drop_last());
        if rs.last().len() > 2 {
            assert(keep_nonempty(rs).drop_last() == keep_nonempty(rs.drop_last()));
        }
    }
}

/// Swapping tails changes the total length of the two routes by the change of
/// the two edges at the cuts.
pub proof fn lemma_tail_swap_len(dm: Seq<Vec<i32>>, a: Seq<usize>, b: Seq<usize>, i: int, j: int)
    requires
        0 <= i < a.len() - 1,
        0 <= j < b.len() - 1,
    ensures
        route_len(dm, tail_swap(a, b, i, j)) + route_len(dm, tail_swap(b, a, j, i)) == route_len(dm, a) + route_len(dm, b)
            - dd(dm, a[i], a[i + 1]) - dd(dm, b[j], b[j + 1]) + dd(dm, a[i], b[j + 1]) + dd(dm, b[j], a[i + 1]),
{
    let a0 = a.subrange(0, i + 1);
    let a1 = a.subrange(i + 1, a.len() as int);
    let b0 = b.subrange(0, j + 1);
    let b1 = b.subrange(j + 1, b.len() as int);
    assert(a =~= a0 + a1);
    assert(b =~= b0 + b1);
    lemma_route_len_concat(dm, a0, a1);
    lemma_route_len_concat(dm, b0, b1);
    lemma_route_len_concat(dm, a0, b1);
    lemma_route_len_concat(dm, b0, a1);
    assert(a0.last() == a[i] && a1[0] == a[i + 1]);
    assert(b0.last() == b[j] && b1[0] == b[j + 1]);
}

/// A tail swap of two routes in normal form is in normal form.
proof fn lemma_tail_swap_proper(a: Seq<usize>, b: Seq<usize>, i: int, j: int)
    requires
        proper(a),
        proper(b),
        1 <= i < a.len() - 1,
        1 <= j < b.len() - 1,
    ensures
        proper(tail_swap(a, b, i, j)),
{
    let s = tail_swap(a, b, i, j);
    assert forall|k: int| 0 < k < s.len() - 1 implies #[trigger] s[k] != 0 by {
        if k <= i {
            assert(s[k] == a[k]);
        } else {
            assert(s[k] == b[k - i + j]);
        }
    }
}

/// What applying the tail swap of routes `r1`, `r2` at `i`, `j` and dropping
/// emptied routes gives.
pub open spec fn after_2opt(rs: Seq<Seq<usize>>, r1: int, r2: int, i: int, j: int) -> Seq<Seq<usize>> {
    keep_nonempty(rs.update(r1, tail_swap(rs[r1], rs[r2], i, j)).update(r2, tail_swap(rs[r2], rs[r1], j, i)))
}

/// Applying an improving tail swap keeps the local-search state and the
/// customers, strictly shortens the solution, and leaves only feasible routes
/// and routes of the old solution.
pub proof fn lemma_apply_2opt(ch: Challenge, rs: Seq<Seq<usize>>, r1: int, r2: int, i: int, j: int)
    requires
        ls_state(ch, rs),
        0 <= r1 < rs.len(),
        0 <= r2 < rs.len(),
        r1 != r2,
        improving_2opt(ch, rs, r1, r2, i, j),
    ensures
        ls_state(ch, after_2opt(rs, r1, r2, i, j)),
        all_custs(after_2opt(rs, r1, r2, i, j)) == all_custs(rs),
        total_len(ch.distance_matrix@, after_2opt(rs, r1, r2, i, j)) < total_len(ch.distance_matrix@, rs),
        forall|k: int| 0 <= k < after_2opt(rs, r1, r2, i, j).len() ==> ch.feasible(#[trigger] after_2opt(rs, r1, r2, i, j)[k])
            || rs.contains(after_2opt(rs, r1, r2, i, j)[k]),
{
    let dm = ch.distance_matrix@;
    let a = rs[r1];
    let b = rs[r2];
    let n1 = tail_swap(a, b, i, j);
    let n2 = tail_swap(b, a, j, i);
    let u1 = rs.update(r1, n1);
    let u = u1.update(r2, n2);
    let res = keep_nonempty(u);
    assert(proper(a) && proper(b));
    lemma_tail_swap_proper(a, b, i, j);
    lemma_tail_swap_proper(b, a, j, i);
    lemma_tails_custs(a, b, i, j);
    lemma_replace_two(rs, r1, r2, n1, n2);
    lemma_short_after_replace(rs, r1, r2, n1, n2);
    lemma_keep_nonempty_custs(u);
    lemma_tail_swap_len(dm, a, b, i, j);
    lemma_total_len_update(dm, rs, r1, n1);
    lemma_total_len_update(dm, u1, r2, n2);
    assert(u1[r2] == b);
    lemma_total_nodes(rs, r1, n1);
    lemma_total_nodes(u1, r2, n2);
    assert forall|k: int| 0 <= k < u.len() implies proper(#[trigger] u[k]) && ch.route_ok(u[k]) && (ch.feasible(u[k]) || rs.contains(u[k])) by {
        if k != r1 && k != r2 {
            assert(u[k] == rs[k]);
            assert(rs.contains(rs[k]));
        }
    }
    lemma_total_len_keep(ch, u);
    lemma_keep_nonempty_members(u);
    assert forall|k: int| 0 <= k < res.len() implies proper(#[trigger] res[k]) && ch.route_ok(res[k]) && (ch.feasible(res[k]) || rs.contains(res[k])) by {
        let w = choose|w: int| 0 <= w < u.len() && u[w] == res[k];
    }
}

/// One first-improvement 2-opt* pass: applies the first improving tail swap of
/// two routes (pairs in order, then cut positions in order), drops emptied
/// routes and reports whether it found one.
pub fn two_opt_star_pass(routes: &mut Vec<Vec<usize>>, ch: &Challenge) -> (res: bool)
    requires
        ls_state(*ch, rv(old(routes)@)),
    ensures
        ls_state(*ch, rv(final(routes)@)),
        all_custs(rv(final(routes)@)) == all_custs(rv(old(routes)@)),
        res ==> total_len(ch.distance_matrix@, rv(final(routes)@)) < total_len(ch.distance_matrix@, rv(old(routes)@)),
        res ==> exists|r1: int, r2: int, i: int, j: int| 0 <= r1 < r2 < old(routes)@.len() && #[trigger] improving_2opt(*ch, rv(old(routes)@), r1, r2, i, j)
            && rv(final(routes)@) == after_2opt(rv(old(routes)@), r1, r2, i, j)
            && forall|a: int, b: int, i2: int, j2: int| (0 <= a < r1 && a < b < old(routes)@.len() || a == r1 && r1 < b < r2)
                ==> !#[trigger] improving_2opt(*ch, rv(old(routes)@), a, b, i2, j2),
        !res ==> final(routes)@ == old(routes)@,
        !res ==> forall|r1: int, r2: int, i: int, j: int| 0 <= r1 < r2 < old(routes)@.len() ==> !#[trigger] improving_2opt(*ch, rv(old(routes)@), r1, r2, i, j),
        forall|k: int| 0 <= k < final(routes)@.len() ==> ch.feasible(#[trigger] final(routes)@[k]@) || rv(old(routes)@).contains(final(routes)@[k]@),
{
    let ghost rs = rv(routes@);
    let nr = routes.len();
    if nr < 2 {
        proof {
            assert forall|k: int| 0 <= k < routes@.len() implies ch.feasible(#[trigger] routes@[k]@) || rs.contains(routes@[k]@) by {
                assert(rs[k] == routes@[k]@);
            }
        }
        return false;
    }
    let mut r1: usize = 0;
    while r1 < nr
        invariant
            rs == rv(routes@),
            routes@ == old(routes)@,
            nr == routes@.len(),
            ls_state(*ch, rs),
            r1 <= nr,
            forall|a: int, b: int, i: int, j: int| 0 <= a < r1 && a < b < nr ==> !#[trigger] improving_2opt(*ch, rs, a, b, i, j),
        decreases nr - r1,
    {
        let mut r2: usize = r1 + 1;
        while r2 < nr
            invariant
                rs == rv(routes@),
                routes@ == old(routes)@,
                nr == routes@.len(),
                ls_state(*ch, rs),
                r1 < nr,
                r1 + 1 <= r2 <= nr,
                forall|a: int, b: int, i: int, j: int| (0 <= a < r1 && a < b < nr || a == r1 && r1 < b < r2) ==> !#[trigger] improving_2opt(*ch, rs, a, b, i, j),
            decreases nr - r2,
        {
            match two_opt_star_pair(routes, r1, r2, ch) {
                Some((i, j)) => {
                    proof {
                        lemma_apply_2opt(*ch, rs, r1 as int, r2 as int, i as int, j as int);
                        assert(rs[r1 as int] == routes@[r1 as int]@);
                        assert(rs[r2 as int] == routes@[r2 as int]@);
                    }
                    let len1 = routes[r1].len();
                    let len2 = routes[r2].len();
                    assert(i < len1 && j < len2);
                    let nr1 = join_slices(&routes[r1], 0, i + 1, &routes[r2], j + 1, routes[r2].len());
                    let nr2 = join_slices(&routes[r2], 0, j + 1, &routes[r1], i + 1, routes[r1].len());
                    routes.set(r1, nr1);
                    routes.set(r2, nr2);
                    proof {
                        assert(rv(routes@) =~= rs.update(r1 as int, tail_swap(rs[r1 as int], rs[r2 as int], i as int, j as int)).update(
                            r2 as int,
                            tail_swap(rs[r2 as int], rs[r1 as int], j as int, i as int),
                        ));
                    }
                    drop_empty(routes);
                    proof {
                        assert(rv(routes@) == after_2opt(rs, r1 as int, r2 as int, i as int, j as int));
                        assert(improving_2opt(*ch, rs, r1 as int, r2 as int, i as int, j as int));
                        assert forall|k: int| 0 <= k < routes@.len() implies ch.feasible(#[trigger] routes@[k]@) || rs.contains(routes@[k]@) by {
                            assert(rv(routes@)[k] == routes@[k]@);
                        }
                    }
                    return true;
                },
                None => {},
            }
            r2 += 1;
        }
        r1 += 1;
    }
    proof {
        assert forall|k: int| 0 <= k < routes@.len() implies ch.feasible(#[trigger] routes@[k]@) || rs.contains(routes@[k]@) by {
            assert(rs[k] == routes@[k]@);
        }
    }
    false
}

/// Moving the customer at inner position `pos` of route `src` (which keeps at
/// least one other customer) to position `ins` of another route `dst` costs
/// less than its detour, fits `dst`'s capacity and leaves both routes feasible.
pub open spec fn improving_relocate(ch: Challenge, rs: Seq<Seq<usize>>, src: int, pos: int, dst: int, ins: int) -> bool {
    let dm = ch.distance_matrix@;
    let r = rs[src];
    let t = rs[dst];
    let c = r[pos];
    &&& 0 <= src < rs.len()
    &&& r.len() > 3
    &&& 1 <= pos < r.len() - 1
    &&& 0 <= dst < rs.len()
    &&& dst != src
    &&& ch.load_of(t) + ch.demand(c) <= ch.max_capacity
    &&& 1 <= ins < t.len()
    &&& ins_cost(dm, t, ins, c) < detour(dm, r, pos)
    &&& ch.feasible(r.remove(pos))
    &&& ch.feasible(t.insert(ins, c))
}

/// What applying a relocation and dropping emptied routes gives.
pub open spec fn after_relocate(rs: Seq<Seq<usize>>, src: int, pos: int, dst: int, ins: int) -> Seq<Seq<usize>> {
    keep_nonempty(rs.update(src, rs[src].remove(pos)).update(dst, rs[dst].insert(ins, rs[src][pos])))
}

/// Applying an improving relocation keeps the local-search state and the
/// customers, strictly shortens the solution, and leaves only feasible routes
/// and routes of the old solution.
pub proof fn lemma_apply_relocate(ch: Challenge, rs: Seq<Seq<usize>>, src: int, pos: int, dst: int, ins: int)
    requires
        ls_state(ch, rs),
        improving_relocate(ch, rs, src, pos, dst, ins),
    ensures
        ls_state(ch, after_relocate(rs, src, pos, dst, ins)),
        all_custs(after_relocate(rs, src, pos, dst, ins)) == all_custs(rs),
        total_len(ch.distance_matrix@, after_relocate(rs, src, pos, dst, ins)) < total_len(ch.distance_matrix@, rs),
        forall|k: int| 0 <= k < after_relocate(rs, src, pos, dst, ins).len() ==> ch.feasible(
            #[trigger] after_relocate(rs, src, pos, dst, ins)[k],
        ) || rs.contains(after_relocate(rs, src, pos, dst, ins)[k]),
{
    let dm = ch.distance_matrix@;
    let r = rs[src];
    let t = rs[dst];
    let c = r[pos];
    let n1 = r.remove(pos);
    let n2 = t.insert(ins, c);
    let u1 = rs.update(src, n1);
    let u = u1.update(dst, n2);
    let res = keep_nonempty(u);
    assert(proper(r) && proper(t));
    assert(c != 0);
    lemma_remove_proper(r, pos);
    lemma_insert_proper(t, ins, c);
    lemma_move_custs(rs, src, dst, pos, ins);
    lemma_short_after_replace(rs, src, dst, n1, n2);
    lemma_keep_nonempty_custs(u);
    lemma_route_len_remove(dm, r, pos);
    lemma_route_len_insert(dm, t, ins, c);
    lemma_total_len_update(dm, rs, src, n1);
    lemma_total_len_update(dm, u1, dst, n2);
    assert(u1[dst] == t);
    lemma_total_nodes(rs, src, n1);
    lemma_total_nodes(u1, dst, n2);
    assert forall|k: int| 0 <= k < n2.len() implies (#[trigger] n2[k] as int) < ch.num_nodes by {
        assert(ch.route_ok(t) && ch.route_ok(r));
        if k < ins {
            assert(n2[k] == t[k]);
        } else if k > ins {
            assert(n2[k] == t[k - 1]);
        }
    }
    assert forall|k: int| 0 <= k < n1.len() implies (#[trigger] n1[k] as int) < ch.num_nodes by {
        assert(ch.route_ok(r));
        if k < pos {
            assert(n1[k] == r[k]);
        } else {
            assert(n1[k] == r[k + 1]);
        }
    }
    assert forall|k: int| 0 <= k < u.len() implies proper(#[trigger] u[k]) && ch.route_ok(u[k]) && (ch.feasible(u[k]) || rs.contains(u[k])) by {
        if k != src && k != dst {
            assert(u[k] == rs[k]);
            assert(rs.contains(rs[k]));
        }
    }
    lemma_total_len_keep(ch, u);
    lemma_keep_nonempty_members(u);
    assert forall|k: int| 0 <= k < res.len() implies proper(#[trigger] res[k]) && ch.route_ok(res[k]) && (ch.feasible(res[k]) || rs.contains(res[k])) by {
        let w = choose|w: int| 0 <= w < u.len() && u[w] == res[k];
    }
}

/// The first improving target (route, then position) for the customer at
/// inner position `pos` of route `src`.
fn relocate_target(routes: &[Vec<usize>], src: usize, pos: usize, ch: &Challenge) -> (res: Option<(usize, usize)>)
    requires
        ls_state(*ch, rv(routes@)),
        src < routes@.len(),
        routes@[src as int]@.len() > 3,
        1 <= pos < routes@[src as int]@.len() - 1,
    ensures
        res matches Some((dst, ins)) ==> improving_relocate(*ch, rv(routes@), src as int, pos as int, dst as int, ins as int),
        res is None ==> forall|dst: int, ins: int| !#[trigger] improving_relocate(*ch, rv(routes@), src as int, pos as int, dst, ins),
{
    let ghost rs = rv(routes@);
    let dm = &ch.distance_matrix;
    let r = &routes[src];
    assert(rs[src as int] == r@);
    assert(ch.route_ok(r@));
    let cust = r[pos];
    proof {
        assert(in_limit(dm@[r@[pos - 1] as int]@[cust as int]));
        assert(in_limit(dm@[cust as int]@[r@[pos + 1] as int]));
        assert(in_limit(dm@[r@[pos - 1] as int]@[r@[pos + 1] as int]));
        assert(in_limit(ch.demands@[cust as int]));
        lemma_total_nodes(rs, 0, rs[0]);
    }
    let rg = dm[r[pos - 1]][cust] + dm[cust][r[pos + 1]] - dm[r[pos - 1]][r[pos + 1]];
    let mut ns = copy_route(r);
    ns.remove(pos);
    proof {
        assert forall|k: int| 0 <= k < ns@.len() implies (#[trigger] ns@[k] as int) < ch.num_nodes by {
            if k < pos {
                assert(ns@[k] == r@[k]);
            } else {
                assert(ns@[k] == r@[k + 1]);
            }
        }
    }
    let src_ok = is_feasible(&ns, ch);
    let mut dst: usize = 0;
    while dst < routes.len()
        invariant
            rs == rv(routes@),
            ls_state(*ch, rs),
            dm@ == ch.distance_matrix@,
            (src as int) < rs.len(),
            r@ == rs[src as int],
            r@.len() > 3,
            1 <= pos < r@.len() - 1,
            cust == r@[pos as int],
            rg == detour(dm@, r@, pos as int),
            src_ok == ch.feasible(r@.remove(pos as int)),
            dst <= routes@.len(),
            forall|d2: int, i2: int| d2 < dst ==> !#[trigger] improving_relocate(*ch, rs, src as int, pos as int, d2, i2),
        decreases routes.len() - dst,
    {
        if dst != src {
            let t = &routes[dst];
            assert(rs[dst as int] == t@);
            assert(ch.route_ok(t@));
            proof {
                lemma_total_nodes(rs, 0, rs[0]);
                assert(rs[dst as int].len() <= total_nodes(rs));
            }
            let dl = route_load(t, ch) + ch.demands[cust];
            if dl <= ch.max_capacity {
                let mut ins: usize = 1;
                while ins < t.len()
                    invariant
                        rs == rv(routes@),
                        ls_state(*ch, rs),
                        dm@ == ch.distance_matrix@,
                        (src as int) < rs.len(),
                        (dst as int) < rs.len(),
                        dst != src,
                        r@ == rs[src as int],
                        t@ == rs[dst as int],
                        r@.len() > 3,
                        1 <= pos < r@.len() - 1,
                        cust == r@[pos as int],
                        rg == detour(dm@, r@, pos as int),
                        src_ok == ch.feasible(r@.remove(pos as int)),
                        ch.load_of(t@) + ch.demand(cust) <= ch.max_capacity,
                        1 <= ins,
                        t@.len() == 0 || ins <= t@.len(),
                        forall|d2: int, i2: int| d2 < dst ==> !#[trigger] improving_relocate(*ch, rs, src as int, pos as int, d2, i2),
                        forall|i2: int| i2 < ins ==> !#[trigger] improving_relocate(*ch, rs, src as int, pos as int, dst as int, i2),
                    decreases t.len() - ins,
                {
                    proof {
                        assert(ch.route_ok(t@));
                        assert(in_limit(dm@[t@[ins - 1] as int]@[cust as int]));
                        assert(in_limit(dm@[cust as int]@[t@[ins as int] as int]));
                        assert(in_limit(dm@[t@[ins - 1] as int]@[t@[ins as int] as int]));
                    }
                    let ic = dm[t[ins - 1]][cust] + dm[cust][t[ins]] - dm[t[ins - 1]][t[ins]];
                    if ic < rg {
                        let mut nd = copy_route(t);
                        nd.insert(ins, cust);
                        proof {
                            assert forall|k: int| 0 <= k < nd@.len() implies (#[trigger] nd@[k] as int) < ch.num_nodes by {
                                if k < ins {
                                    assert(nd@[k] == t@[k]);
                                } else if k > ins {
                                    assert(nd@[k] == t@[k - 1]);
                                }
                            }
                        }
                        if src_ok && is_feasible(&nd, ch) {
                            return Some((dst, ins));
                        }
                    }
                    ins += 1;
                }
            }
        }
        dst += 1;
    }
    None
}

/// One first-improvement relocate pass: applies the first improving relocation
/// (source route, position, target route, position, in order), drops emptied
/// routes and reports whether it found one.
pub fn greedy_relocate(routes: &mut Vec<Vec<usize>>, ch: &Challenge) -> (res: bool)
    requires
        ls_state(*ch, rv(old(routes)@)),
    ensures
        ls_state(*ch, rv(final(routes)@)),
        all_custs(rv(final(routes)@)) == all_custs(rv(old(routes)@)),
        res ==> total_len(ch.distance_matrix@, rv(final(routes)@)) < total_len(ch.distance_matrix@, rv(old(routes)@)),
        res ==> exists|src: int, pos: int, dst: int, ins: int| #[trigger] improving_relocate(*ch, rv(old(routes)@), src, pos, dst, ins)
            && rv(final(routes)@) == after_relocate(rv(old(routes)@), src, pos, dst, ins)
            && forall|s2: int, p2: int, d2: int, i2: int| (s2 < src || s2 == src && p2 < pos)
                ==> !#[trigger] improving_relocate(*ch, rv(old(routes)@), s2, p2, d2, i2),
        !res ==> final(routes)@ == old(routes)@,
        !res ==> forall|src: int, pos: int, dst: int, ins: int| !#[trigger] improving_relocate(*ch, rv(old(routes)@), src, pos, dst, ins),
        forall|k: int| 0 <= k < final(routes)@.len() ==> ch.feasible(#[trigger] final(routes)@[k]@) || rv(old(routes)@).contains(final(routes)@[k]@),
{
    let ghost rs = rv(routes@);
    let mut src: usize = 0;
    while src < routes.len()
        invariant
            rs == rv(routes@),
            routes@ == old(routes)@,
            ls_state(*ch, rs),
            src <= routes@.len(),
            forall|s2: int, p2: int, d2: int, i2: int| s2 < src ==> !#[trigger] improving_relocate(*ch, rs, s2, p2, d2, i2),
        decreases routes.len() - src,
    {
        assert(rs[src as int] == routes@[src as int]@);
        let len = routes[src].len();
        if len > 3 {
            let mut pos: usize = 1;
            while pos < len - 1
                invariant
                    rs == rv(routes@),
                    routes@ == old(routes)@,
                    ls_state(*ch, rs),
                    src < routes@.len(),
                    len == rs[src as int].len(),
                    len > 3,
                    1 <= pos <= len - 1,
                    forall|s2: int, p2: int, d2: int, i2: int| s2 < src ==> !#[trigger] improving_relocate(*ch, rs, s2, p2, d2, i2),
                    forall|p2: int, d2: int, i2: int| p2 < pos ==> !#[trigger] improving_relocate(*ch, rs, src as int, p2, d2, i2),
                decreases len - 1 - pos,
            {
                assert(rs[src as int] == routes@[src as int]@);
                match relocate_target(routes, src, pos, ch) {
                    Some((dst, ins)) => {
                        proof {
                            lemma_apply_relocate(*ch, rs, src as int, pos as int, dst as int, ins as int);
                            assert(rs[dst as int] == routes@[dst as int]@);
                        }
                        let cust = routes[src][pos];
                        let mut ns = copy_route(&routes[src]);
                        ns.remove(pos);
                        let mut nd = copy_route(&routes[dst]);
                        nd.insert(ins, cust);
                        routes.set(src, ns);
                        routes.set(dst, nd);
                        proof {
                            assert(rv(routes@) =~= rs.update(src as int, rs[src as int].remove(pos as int)).update(
                                dst as int,
                                rs[dst as int].insert(ins as int, rs[src as int][pos as int]),
                            ));
                        }
                        drop_empty(routes);
                        proof {
                            assert(rv(routes@) == after_relocate(rs, src as int, pos as int, dst as int, ins as int));
                            assert forall|k: int| 0 <= k < routes@.len() implies ch.feasible(#[trigger] routes@[k]@) || rs.contains(routes@[k]@) by {
                                assert(rv(routes@)[k] == routes@[k]@);
                            }
                        }
                        return true;
                    },
                    None => {},
                }
                pos += 1;
            }
        }
        src += 1;
    }
    proof {
        assert forall|k: int| 0 <= k < routes@.len() implies ch.feasible(#[trigger] routes@[k]@) || rs.contains(routes@[k]@) by {
            assert(rs[k] == routes@[k]@);
        }
    }
    false
}

#[verifier::external_type_specification]
#[verifier::external_body]
pub struct ExInstant(std::time::Instant);

/// `Instant::now`: the current time. Nothing is stated of it.
#[verifier::external_body]
fn clock_now() -> Instant {
    Instant::now()
}

/// `Instant >= Instant`: whether `now` is at or past `deadline`. Nothing is
/// stated of it: it reads the clock's values.
#[verifier::external_body]
fn at_or_past(now: &Instant, deadline: &Instant) -> bool {
    *now >= *deadline
}

/// `Instant::elapsed`: the time since `start`. Nothing is stated of it: it
/// reads the clock.
#[verifier::external_body]
pub(crate) fn elapsed_since(start: &Instant) -> Duration {
    start.elapsed()
}

/// `Duration >= Duration`: whether `d` is at least `budget`. Nothing is stated
/// of it: the two values are opaque here.
#[verifier::external_body]
pub(crate) fn at_least(d: &Duration, budget: &Duration) -> bool {
    *d >= *budget
}

/// `Duration::as_millis`: the whole milliseconds of `d`. Nothing is stated of it:
/// the value is opaque here.
#[verifier::external_body]
pub(crate) fn whole_millis(d: &Duration) -> u128 {
    d.as_millis()
}

/// A solution's length is not negative.
pub proof fn lemma_total_len_nonneg(ch: Challenge, rs: Seq<Seq<usize>>)
    requires
        ch.wf(),
        forall|i: int| 0 <= i < rs.len() ==> ch.route_ok(#[trigger] rs[i]),
    ensures
        total_len(ch.distance_matrix@, rs) >= 0,
    decreases rs.len(),
{
    if rs.len() > 0 {
        assert(ch.route_ok(rs[rs.len() - 1]));
        lemma_route_len_nonneg(ch.distance_matrix@, rs.last());
        lemma_total_len_nonneg(ch, rs.drop_last());
    }
}

/// Greedy local search: alternates a 2-opt* pass and a relocate pass until
/// neither improves or the deadline passes. Every applied move shortens the
/// solution, so the search ends even without a deadline. Returns `true` when it
/// stopped because neither pass found a move: the routes are then a local optimum
/// for both neighbourhoods. It returns `false` only when the deadline stopped it.
pub fn greedy_local_search(routes: &mut Vec<Vec<usize>>, ch: &Challenge, deadline: &Instant) -> (settled: bool)
    requires
        ls_state(*ch, rv(old(routes)@)),
    ensures
        settled ==> forall|r1: int, r2: int, i: int, j: int|
            0 <= r1 < r2 < final(routes)@.len() ==> !#[trigger] improving_2opt(*ch, rv(final(routes)@), r1, r2, i, j),
        settled ==> forall|src: int, pos: int, dst: int, ins: int|
            !#[trigger] improving_relocate(*ch, rv(final(routes)@), src, pos, dst, ins),
        ls_state(*ch, rv(final(routes)@)),
        all_custs(rv(final(routes)@)) == all_custs(rv(old(routes)@)),
        total_len(ch.distance_matrix@, rv(final(routes)@)) <= total_len(ch.distance_matrix@, rv(old(routes)@)),
        forall|k: int| 0 <= k < final(routes)@.len() ==> ch.feasible(#[trigger] final(routes)@[k]@) || rv(old(routes)@).contains(final(routes)@[k]@),
{
    let ghost orig = rv(routes@);
    proof {
        assert forall|k: int| 0 <= k < routes@.len() implies ch.feasible(#[trigger] routes@[k]@) || orig.contains(routes@[k]@) by {
            assert(orig[k] == routes@[k]@);
        }
    }
    let mut settled = false;
    loop
        invariant_except_break
            !settled,
        invariant
            orig == rv(old(routes)@),
            ls_state(*ch, rv(routes@)),
            all_custs(rv(routes@)) == all_custs(orig),
            total_len(ch.distance_matrix@, rv(routes@)) <= total_len(ch.distance_matrix@, orig),
            forall|k: int| 0 <= k < routes@.len() ==> ch.feasible(#[trigger] routes@[k]@) || orig.contains(routes@[k]@),
        ensures
            ls_state(*ch, rv(routes@)),
            all_custs(rv(routes@)) == all_custs(orig),
            total_len(ch.distance_matrix@, rv(routes@)) <= total_len(ch.distance_matrix@, orig),
            forall|k: int| 0 <= k < routes@.len() ==> ch.feasible(#[trigger] routes@[k]@) || orig.contains(routes@[k]@),
            settled ==> forall|r1: int, r2: int, i: int, j: int|
                0 <= r1 < r2 < routes@.len() ==> !#[trigger] improving_2opt(*ch, rv(routes@), r1, r2, i, j),
            settled ==> forall|src: int, pos: int, dst: int, ins: int|
                !#[trigger] improving_relocate(*ch, rv(routes@), src, pos, dst, ins),
        decreases total_len(ch.distance_matrix@, rv(routes@)),
    {
        proof {
            lemma_total_len_nonneg(*ch, rv(routes@));
        }
        let ghost before = routes@;
        let ghost len0 = total_len(ch.distance_matrix@, rv(routes@));
        if at_or_past(&clock_now(), deadline) {
            break;
        }
        let mut any = false;
        if two_opt_star_pass(routes, ch) {
            any = true;
        }
        proof {
            lemma_chain_origin(*ch, orig, rv(before), before, routes@);
        }
        let ghost mid = routes@;
        if at_or_past(&clock_now(), deadline) {
            return false;
        }
        if greedy_relocate(routes, ch) {
            any = true;
        }
        proof {
            lemma_chain_origin(*ch, orig, rv(mid), mid, routes@);
        }
        if !any {
            assert(routes@ == before);
            settled = true;
            break;
        }
        assert(total_len(ch.distance_matrix@, rv(routes@)) < len0);
        proof {
            lemma_total_len_nonneg(*ch, rv(routes@));
        }
    }
    settled
}

/// Routes that are feasible or come from an earlier solution whose routes are
/// feasible or unchanged are feasible or unchanged.
proof fn lemma_chain_origin(ch: Challenge, orig: Seq<Seq<usize>>, prev: Seq<Seq<usize>>, pv: Seq<Vec<usize>>, cur: Seq<Vec<usize>>)
    requires
        prev == rv(pv),
        forall|k: int| 0 <= k < pv.len() ==> ch.feasible(#[trigger] pv[k]@) || orig.contains(pv[k]@),
        forall|k: int| 0 <= k < cur.len() ==> ch.feasible(#[trigger] cur[k]@) || prev.contains(cur[k]@),
    ensures
        forall|k: int| 0 <= k < cur.len() ==> ch.feasible(#[trigger] cur[k]@) || orig.contains(cur[k]@),
{
    assert forall|k: int| 0 <= k < cur.len() implies ch.feasible(#[trigger] cur[k]@) || orig.contains(cur[k]@) by {
        if !ch.feasible(cur[k]@) {
            let w = choose|w: int| 0 <= w < prev.len() && prev[w] == cur[k]@;
            assert(prev[w] == pv[w]@);
        }
    }
}

} // verus!
