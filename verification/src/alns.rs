//! Steps of the adaptive large neighbourhood search that sit between its
//! operators: taking the destroyed customers out of the routes, the related
//! customer lists of the Shaw operators, and the penalised cost.
use vstd::prelude::*;
use vstd::multiset::Multiset;
use crate::model::{
    all_custs, custs, cust1, rv, proper, lemma_all_custs_update, lemma_custs_remove, Challenge, in_limit, max, min,
};
use crate::algorithm::{copy_route, copy_routes, drop_empty, keep_nonempty, all_proper, route_dist, lemma_route_len_nonneg};
use crate::model::{route_len, total_len, dm_ok, nodes_below};

verus! {

/// Every route that `keep_nonempty` keeps is a route of the list with more than
/// two nodes.
pub proof fn lemma_keep_nonempty_members(rs: Seq<Seq<usize>>)
    ensures
        forall|i: int| 0 <= i < keep_nonempty(rs).len() ==> rs.contains(#[trigger] keep_nonempty(rs)[i]) && keep_nonempty(rs)[i].len() > 2,
    decreases rs.len(),
{
    if rs.len() > 0 {
        lemma_keep_nonempty_members(rs.drop_last());
        let k = keep_nonempty(rs);
        let k0 = keep_nonempty(rs.drop_last());
        assert forall|i: int| 0 <= i < k.len() implies rs.contains(#[trigger] k[i]) && k[i].len() > 2 by {
            if i < k0.len() {
                assert(k[i] == k0[i]);
                let w = choose|w: int| 0 <= w < rs.drop_last().len() && rs.drop_last()[w] == k0[i];
                assert(rs[w] == k0[i]);
            } else {
                assert(k[i] == rs.last());
                assert(rs[rs.len() - 1] == rs.last());
            }
        }
    }
}

/// A customer counted among the customers of a route list is on one of its routes.
pub proof fn lemma_all_custs_member(rs: Seq<Seq<usize>>, c: usize)
    requires
        all_custs(rs).count(c) > 0,
    ensures
        exists|i: int| 0 <= i < rs.len() && (#[trigger] rs[i]).contains(c),
    decreases rs.len(),
{
    broadcast use vstd::multiset::group_multiset_axioms;
    if custs(rs.last()).count(c) > 0 {
        lemma_custs_member(rs.last(), c);
        assert(rs[rs.len() - 1] == rs.last());
    } else {
        lemma_all_custs_member(rs.drop_last(), c);
        let i = choose|i: int| 0 <= i < rs.drop_last().len() && (#[trigger] rs.drop_last()[i]).contains(c);
        assert(rs[i] == rs.drop_last()[i]);
    }
}

proof fn lemma_custs_member(r: Seq<usize>, c: usize)
    requires
        custs(r).count(c) > 0,
    ensures
        r.contains(c),
    decreases r.len(),
{
    broadcast use vstd::multiset::group_multiset_axioms;
    if cust1(r.last()).count(c) > 0 {
        assert(r[r.len() - 1] == c);
    } else {
        lemma_custs_member(r.drop_last(), c);
        let w = choose|w: int| 0 <= w < r.drop_last().len() && r.drop_last()[w] == c;
        assert(r[w] == c);
    }
}

/// The first position of `c` in `r`.
fn position_of(r: &[usize], c: usize) -> (res: Option<usize>)
    ensures
        res matches Some(p) ==> p < r@.len() && r@[p as int] == c,
        res is None ==> !r@.contains(c),
{
    let mut k: usize = 0;
    while k < r.len()
        invariant
            k <= r@.len(),
            forall|j: int| 0 <= j < k ==> r@[j] != c,
        decreases r.len() - k,
    {
        if r[k] == c {
            return Some(k);
        }
        k += 1;
    }
    None
}

/// Removing a customer from one route of the list removes it from the customers.
proof fn lemma_take_out(rs: Seq<Seq<usize>>, i: int, pos: int)
    requires
        0 <= i < rs.len(),
        0 <= pos < rs[i].len(),
        rs[i][pos] != 0,
    ensures
        all_custs(rs.update(i, rs[i].remove(pos))).insert(rs[i][pos]) == all_custs(rs),
{
    broadcast use vstd::multiset::group_multiset_axioms;
    let r = rs[i];
    lemma_all_custs_update(rs, i, r.remove(pos));
    lemma_custs_remove(r, pos);
    assert(cust1(r[pos]) =~= Multiset::singleton(r[pos]));
    let a = all_custs(rs.update(i, r.remove(pos)));
    assert forall|x: usize| a.insert(r[pos]).count(x) == all_custs(rs).count(x) by {
        assert(a.add(custs(r)).count(x) == all_custs(rs).add(custs(r.remove(pos))).count(x));
        assert(custs(r.remove(pos)).add(cust1(r[pos])).count(x) == custs(r).count(x));
    }
    assert(a.insert(r[pos]) =~= all_custs(rs));
}

/// Removing an inner customer keeps a route in normal form.
pub proof fn lemma_remove_proper(r: Seq<usize>, pos: int)
    requires
        proper(r),
        0 <= pos < r.len(),
        r[pos] != 0,
    ensures
        proper(r.remove(pos)),
{
    assert(0 < pos < r.len() - 1);
    let s = r.remove(pos);
    assert forall|k: int| 0 < k < s.len() - 1 implies #[trigger] s[k] != 0 by {
        if k < pos {
            assert(s[k] == r[k]);
        } else {
            assert(s[k] == r[k + 1]);
        }
    }
}

/// Routes in normal form with at most two nodes serve no customer.
pub proof fn lemma_proper_short_empty(rs: Seq<Seq<usize>>)
    requires
        all_proper(rs),
    ensures
        crate::algorithm::short_routes_empty(rs),
{
    assert forall|i: int, k: int| 0 <= i < rs.len() && rs[i].len() <= 2 && 0 <= k < rs[i].len() implies #[trigger] rs[i][k] == 0 by {
        assert(proper(rs[i]));
    }
}

/// Takes the destroyed customers out of the routes: each leaves the first route
/// that serves it, at its first position there, and routes left without
/// customers are dropped.
pub fn remove_customers(routes: &[Vec<usize>], removed: &[usize]) -> (res: Vec<Vec<usize>>)
    requires
        forall|k: int| 0 <= k < removed@.len() ==> #[trigger] removed@[k] != 0,
    ensures
        all_proper(rv(routes@)) && removed@.to_multiset().subset_of(all_custs(rv(routes@))) ==> all_custs(rv(res@)).add(
            removed@.to_multiset(),
        ) == all_custs(rv(routes@)),
        forall|i: int| 0 <= i < res@.len() ==> (#[trigger] res@[i]@).len() > 2,
        all_proper(rv(routes@)) ==> all_proper(rv(res@)),
{
    let ghost orig = all_custs(rv(routes@));
    let ghost hyp = removed@.to_multiset().subset_of(orig);
    let mut partial = copy_routes(routes);
    let mut k: usize = 0;
    proof {
        assert(removed@.subrange(0, 0) =~= Seq::<usize>::empty());
        vstd::seq_lib::to_multiset_len(removed@.subrange(0, 0));
        vstd::multiset::lemma_multiset_empty_len(removed@.subrange(0, 0).to_multiset());
        assert(all_custs(rv(partial@)).add(removed@.subrange(0, 0).to_multiset()) =~= orig);
    }
    while k < removed.len()
        invariant
            k <= removed@.len(),
            forall|j: int| 0 <= j < removed@.len() ==> #[trigger] removed@[j] != 0,
            hyp == removed@.to_multiset().subset_of(orig),
            orig == all_custs(rv(routes@)),
            hyp ==> all_custs(rv(partial@)).add(removed@.subrange(0, k as int).to_multiset()) == orig,
            all_proper(rv(routes@)) ==> all_proper(rv(partial@)),
        decreases removed.len() - k,
    {
        let c = removed[k];
        let ghost cur = rv(partial@);
        let mut ri: usize = 0;
        while ri < partial.len()
            invariant_except_break
                cur == rv(partial@),
            invariant
                ri <= partial@.len(),
                c != 0,
                cur.len() == partial@.len(),
                forall|j: int| 0 <= j < ri ==> !(#[trigger] cur[j]).contains(c),
                all_proper(rv(routes@)) ==> all_proper(rv(partial@)),
                all_proper(rv(routes@)) ==> all_proper(cur),
                hyp ==> all_custs(cur).add(removed@.subrange(0, k as int).to_multiset()) == orig,
            ensures
                ri < partial@.len() ==> all_custs(rv(partial@)).insert(c) == all_custs(cur),
                ri == partial@.len() ==> rv(partial@) == cur && forall|j: int| 0 <= j < cur.len() ==> !(#[trigger] cur[j]).contains(c),
                all_proper(rv(routes@)) ==> all_proper(rv(partial@)),
            decreases partial.len() - ri,
        {
            assert(cur[ri as int] == partial@[ri as int]@);
            match position_of(&partial[ri], c) {
                Some(pos) => {
                    let mut r = copy_route(&partial[ri]);
                    r.remove(pos);
                    proof {
                        lemma_take_out(cur, ri as int, pos as int);
                        if all_proper(rv(routes@)) {
                            assert(proper(cur[ri as int]));
                            lemma_remove_proper(cur[ri as int], pos as int);
                        }
                    }
                    partial.set(ri, r);
                    proof {
                        assert(rv(partial@) =~= cur.update(ri as int, cur[ri as int].remove(pos as int)));
                    }
                    break;
                }
                None => {}
            }
            ri += 1;
        }
        proof {
            let pre = removed@.subrange(0, k as int);
            assert(removed@.subrange(0, k + 1) =~= pre.push(c));
            vstd::seq_lib::to_multiset_build(pre, c);
            if hyp {
                assert(all_custs(cur).add(pre.to_multiset()) == orig);
                if ri == partial@.len() {
                    assert(all_custs(cur).count(c) == 0) by {
                        if all_custs(cur).count(c) > 0 {
                            lemma_all_custs_member(cur, c);
                        }
                    }
                    assert(orig.count(c) == pre.to_multiset().count(c)) by {
                        broadcast use vstd::multiset::group_multiset_axioms;
                    }
                    assert(removed@.to_multiset().count(c) > pre.to_multiset().count(c)) by {
                        broadcast use vstd::multiset::group_multiset_axioms;
                        let rest = removed@.subrange(k as int, removed@.len() as int);
                        assert(removed@ =~= pre + rest);
                        vstd::seq_lib::lemma_multiset_commutative(pre, rest);
                        assert(rest[0] == c);
                        vstd::seq_lib::to_multiset_contains(rest, c);
                        assert(rest.contains(c));
                    }
                    assert(false);
                } else {
                    assert(all_custs(rv(partial@)).add(removed@.subrange(0, k + 1).to_multiset()) =~= orig) by {
                        broadcast use vstd::multiset::group_multiset_axioms;
                    }
                }
            }
        }
        k += 1;
    }
    let ghost before = rv(partial@);
    drop_empty(&mut partial);
    proof {
        assert(removed@.subrange(0, k as int) =~= removed@);
        lemma_keep_nonempty_members(before);
        let kept = rv(partial@);
        if all_proper(rv(routes@)) {
            lemma_proper_short_empty(before);
            crate::algorithm::lemma_keep_nonempty_custs(before);
            assert forall|i: int| 0 <= i < kept.len() implies proper(#[trigger] kept[i]) by {
                let w = choose|w: int| 0 <= w < before.len() && before[w] == kept[i];
            }
        }
        assert forall|i: int| 0 <= i < partial@.len() implies (#[trigger] partial@[i]@).len() > 2 by {
            assert(kept[i] == partial@[i]@);
        }
    }
    partial
}

/// The relatedness of customers `i` and `j` (lower is more related): twice their
/// distance minus the overlap of their time windows.
pub open spec fn shaw_score(ch: Challenge, i: usize, j: usize) -> int {
    2 * ch.d(i, j) - max(0, min(ch.due(i), ch.due(j)) - max(ch.ready(i), ch.ready(j)))
}

/// Some pair of `s` carries node `j`.
pub open spec fn lists_node(s: Seq<(i64, usize)>, j: usize) -> bool {
    exists|k: int| 0 <= k < s.len() && (#[trigger] s[k]).1 == j
}

/// Lexicographic order on (key, node) pairs.
pub open spec fn pair_le(a: (i64, usize), b: (i64, usize)) -> bool {
    a.0 < b.0 || (a.0 == b.0 && a.1 <= b.1)
}

pub open spec fn sorted_pairs(s: Seq<(i64, usize)>) -> bool {
    forall|a: int, b: int| 0 <= a < b < s.len() ==> pair_le(#[trigger] s[a], #[trigger] s[b])
}

/// Sorts (key, node) pairs in lexicographic order.
pub fn sort_pairs(v: &mut Vec<(i64, usize)>)
    ensures
        sorted_pairs(final(v)@),
        final(v)@.to_multiset() == old(v)@.to_multiset(),
        final(v)@.len() == old(v)@.len(),
{
    let mut i: usize = 1;
    let ghost m = v@.to_multiset();
    while i < v.len()
        invariant
            v@.to_multiset() == m,
            v@.len() == old(v)@.len(),
            m == old(v)@.to_multiset(),
            v@.len() == 0 || 1 <= i <= v@.len(),
            forall|a: int, b: int| 0 <= a < b < i && b < v@.len() ==> pair_le(#[trigger] v@[a], #[trigger] v@[b]),
        decreases v.len() - i,
    {
        let mut j: usize = i;
        while j > 0 && (v[j - 1].0 > v[j].0 || (v[j - 1].0 == v[j].0 && v[j - 1].1 > v[j].1))
            invariant
                v@.to_multiset() == m,
                v@.len() == old(v)@.len(),
                1 <= i < v@.len(),
                j <= i,
                forall|a: int, b: int| 0 <= a < b < j ==> pair_le(#[trigger] v@[a], #[trigger] v@[b]),
                forall|a: int, b: int| j < a < b <= i ==> pair_le(#[trigger] v@[a], #[trigger] v@[b]),
                forall|a: int, b: int| 0 <= a < j && j < b <= i ==> pair_le(#[trigger] v@[a], #[trigger] v@[b]),
                forall|b: int| j < b <= i ==> !pair_le(#[trigger] v@[b], v@[j as int]),
            decreases j,
        {
            let x = v[j - 1];
            let y = v[j];
            proof {
                crate::destroy::lemma_swap_multiset(v@, j - 1, j as int);
            }
            v.set(j - 1, y);
            v.set(j, x);
            j -= 1;
        }
        i += 1;
    }
}

/// The relatedness of `i` to every other customer, as (score, customer) pairs
/// in customer order.
fn shaw_candidates(ch: &Challenge, i: usize) -> (res: Vec<(i64, usize)>)
    requires
        ch.wf(),
        1 <= i < ch.num_nodes,
    ensures
        res@.len() == ch.num_nodes - 2,
        forall|k: int| 0 <= k < res@.len() ==> 1 <= (#[trigger] res@[k]).1 < ch.num_nodes && res@[k].1 != i
            && res@[k].0 == shaw_score(*ch, i, res@[k].1),
        forall|a: int, b: int| 0 <= a < b < res@.len() ==> (#[trigger] res@[a]).1 < (#[trigger] res@[b]).1,
        forall|j: usize| 1 <= j < ch.num_nodes && j != i ==> #[trigger] lists_node(res@, j),
{
    let n = ch.num_nodes;
    let mut out: Vec<(i64, usize)> = Vec::new();
    let mut j: usize = 1;
    while j < n
        invariant
            ch.wf(),
            n == ch.num_nodes,
            1 <= i < n,
            1 <= j <= n,
            out@.len() == if j <= i { j - 1 } else { j - 2 },
            forall|k: int| 0 <= k < out@.len() ==> 1 <= (#[trigger] out@[k]).1 < j && out@[k].1 != i
                && out@[k].0 == shaw_score(*ch, i, out@[k].1),
            forall|a: int, b: int| 0 <= a < b < out@.len() ==> (#[trigger] out@[a]).1 < (#[trigger] out@[b]).1,
            forall|x: usize| 1 <= x < j && x != i ==> #[trigger] lists_node(out@, x),
        decreases n - j,
    {
        if j != i {
            proof {
                assert(in_limit(ch.distance_matrix@[i as int]@[j as int]));
                assert(in_limit(ch.due_times@[i as int]) && in_limit(ch.due_times@[j as int]));
                assert(in_limit(ch.ready_times@[i as int]) && in_limit(ch.ready_times@[j as int]));
            }
            let dist_rel = ch.distance_matrix[i][j] as i64;
            let di = ch.due_times[i] as i64;
            let dj = ch.due_times[j] as i64;
            let ri = ch.ready_times[i] as i64;
            let rj = ch.ready_times[j] as i64;
            let lo = if di < dj { di } else { dj };
            let hi = if ri > rj { ri } else { rj };
            let overlap = if lo - hi > 0 { lo - hi } else { 0 };
            let ghost before = out@;
            out.push((dist_rel * 2 - overlap, j));
            proof {
                assert forall|x: usize| 1 <= x < j + 1 && x != i implies #[trigger] lists_node(out@, x) by {
                    if x < j {
                        assert(lists_node(before, x));
                        let k = choose|k: int| 0 <= k < before.len() && (#[trigger] before[k]).1 == x;
                        assert(out@[k].1 == x);
                    } else {
                        assert(out@[out@.len() - 1].1 == x);
                    }
                }
            }
        }
        j += 1;
    }
    out
}

/// The related customers of every customer `i`: the customers other than `i`
/// with the lowest `(shaw_score, customer)` pairs, at most `min(30, n - 1)` of
/// them, most related first. The depot gets no list.
pub fn build_shaw_neighbors(ch: &Challenge) -> (nn: Vec<Vec<usize>>)
    requires
        ch.wf(),
    ensures
        nn@.len() == ch.num_nodes,
        nn@[0]@.len() == 0,
        forall|i: int| 1 <= i < ch.num_nodes ==> #[trigger] neighbor_list_ok(*ch, i as usize, nn@[i]@),
{
    let n = ch.num_nodes;
    let max_nn: usize = if 30 < n - 1 { 30 } else { n - 1 };
    let mut nn: Vec<Vec<usize>> = Vec::new();
    nn.push(Vec::new());
    let mut i: usize = 1;
    while i < n
        invariant
            ch.wf(),
            n == ch.num_nodes,
            max_nn == min(30, n - 1),
            1 <= i <= n,
            nn@.len() == i,
            nn@[0]@.len() == 0,
            forall|x: int| 1 <= x < i ==> #[trigger] neighbor_list_ok(*ch, x as usize, nn@[x]@),
        decreases n - i,
    {
        let list = neighbor_list(ch, i, max_nn);
        nn.push(list);
        i += 1;
    }
    proof {
        assert forall|x: int| 1 <= x < n implies #[trigger] neighbor_list_ok(*ch, x as usize, nn@[x]@) by {}
    }
    nn
}

/// The list of `i` is as described at `build_shaw_neighbors`.
pub open spec fn neighbor_list_ok(ch: Challenge, i: usize, l: Seq<usize>) -> bool {
    let n = ch.num_nodes as int;
    &&& l.len() == min(min(30, n - 1), n - 2)
    &&& forall|k: int| 0 <= k < l.len() ==> 1 <= #[trigger] l[k] < n && l[k] != i
    &&& l.no_duplicates()
    &&& forall|a: int, b: int| 0 <= a < b < l.len() ==> pair_le(
        (shaw_score(ch, i, #[trigger] l[a]) as i64, l[a]),
        (shaw_score(ch, i, #[trigger] l[b]) as i64, l[b]),
    )
    &&& forall|j: usize, k: int| #![trigger l.contains(j), l[k]] 1 <= j < n && j != i && !l.contains(j) && 0 <= k < l.len() ==> pair_le(
        (shaw_score(ch, i, l[k]) as i64, l[k]),
        (shaw_score(ch, i, j) as i64, j),
    )
}

fn neighbor_list(ch: &Challenge, i: usize, max_nn: usize) -> (res: Vec<usize>)
    requires
        ch.wf(),
        1 <= i < ch.num_nodes,
        max_nn == min(30, ch.num_nodes - 1),
    ensures
        neighbor_list_ok(*ch, i, res@),
{
    let mut scored = shaw_candidates(ch, i);
    let ghost cands = scored@;
    sort_pairs(&mut scored);
    proof {
        lemma_sorted_candidates(*ch, i, cands, scored@);
    }
    let take: usize = if max_nn < scored.len() { max_nn } else { scored.len() };
    let mut out: Vec<usize> = Vec::new();
    let mut t: usize = 0;
    while t < take
        invariant
            t <= take <= scored@.len(),
            out@ == scored@.subrange(0, t as int).map_values(|p: (i64, usize)| p.1),
        decreases take - t,
    {
        out.push(scored[t].1);
        t += 1;
        assert(out@ =~= scored@.subrange(0, t as int).map_values(|p: (i64, usize)| p.1));
    }
    proof {
        let n = ch.num_nodes as int;
        assert forall|k: int| 0 <= k < out@.len() implies out@[k] == (#[trigger] scored@[k]).1 by {}
        assert forall|a: int, b: int| 0 <= a < out@.len() && 0 <= b < out@.len() && a != b implies out@[a] != out@[b] by {
            assert(scored@[a].1 != scored@[b].1);
        }
        assert forall|a: int, b: int| 0 <= a < b < out@.len() implies pair_le(
            (shaw_score(*ch, i, #[trigger] out@[a]) as i64, out@[a]),
            (shaw_score(*ch, i, #[trigger] out@[b]) as i64, out@[b]),
        ) by {
            assert(scored@[a] == (shaw_score(*ch, i, out@[a]) as i64, out@[a]));
            assert(scored@[b] == (shaw_score(*ch, i, out@[b]) as i64, out@[b]));
        }
        assert forall|j: usize, k: int| #![trigger out@.contains(j), out@[k]] 1 <= j < n && j != i && !out@.contains(j) && 0 <= k < out@.len() implies pair_le(
            (shaw_score(*ch, i, out@[k]) as i64, out@[k]),
            (shaw_score(*ch, i, j) as i64, j),
        ) by {
            assert(lists_node(scored@, j));
            let p = choose|p: int| 0 <= p < scored@.len() && (#[trigger] scored@[p]).1 == j;
            if p < take {
                assert(out@[p] == j);
            }
            assert(scored@[k] == (shaw_score(*ch, i, out@[k]) as i64, out@[k]));
            assert(scored@[p] == (shaw_score(*ch, i, j) as i64, j));
        }
    }
    out
}

/// What sorting the candidates of `i` gives: every candidate once, each with its
/// score.
proof fn lemma_sorted_candidates(ch: Challenge, i: usize, cands: Seq<(i64, usize)>, s: Seq<(i64, usize)>)
    requires
        s.to_multiset() == cands.to_multiset(),
        forall|k: int| 0 <= k < cands.len() ==> 1 <= (#[trigger] cands[k]).1 < ch.num_nodes && cands[k].1 != i
            && cands[k].0 == shaw_score(ch, i, cands[k].1),
        forall|a: int, b: int| 0 <= a < b < cands.len() ==> (#[trigger] cands[a]).1 < (#[trigger] cands[b]).1,
        forall|j: usize| 1 <= j < ch.num_nodes && j != i ==> #[trigger] lists_node(cands, j),
    ensures
        forall|k: int| 0 <= k < s.len() ==> 1 <= (#[trigger] s[k]).1 < ch.num_nodes && s[k].1 != i
            && s[k] == (shaw_score(ch, i, s[k].1) as i64, s[k].1),
        forall|a: int, b: int| 0 <= a < s.len() && 0 <= b < s.len() && a != b ==> (#[trigger] s[a]).1 != (#[trigger] s[b]).1,
        forall|j: usize| 1 <= j < ch.num_nodes && j != i ==> #[trigger] lists_node(s, j),
{
    assert(cands.no_duplicates()) by {
        assert forall|a: int, b: int| 0 <= a < cands.len() && 0 <= b < cands.len() && a != b implies cands[a] != cands[b] by {
            if a < b {
                assert(cands[a].1 < cands[b].1);
            } else {
                assert(cands[b].1 < cands[a].1);
            }
        }
    }
    cands.lemma_multiset_has_no_duplicates();
    s.lemma_multiset_has_no_duplicates_conv();
    assert forall|k: int| 0 <= k < s.len() implies 1 <= (#[trigger] s[k]).1 < ch.num_nodes && s[k].1 != i
        && s[k] == (shaw_score(ch, i, s[k].1) as i64, s[k].1) by {
        vstd::seq_lib::to_multiset_contains(s, s[k]);
        vstd::seq_lib::to_multiset_contains(cands, s[k]);
        assert(s.contains(s[k]));
        let w = choose|w: int| 0 <= w < cands.len() && cands[w] == s[k];
        assert(cands[w].0 == shaw_score(ch, i, cands[w].1));
    }
    assert forall|a: int, b: int| 0 <= a < s.len() && 0 <= b < s.len() && a != b implies (#[trigger] s[a]).1 != (#[trigger] s[b]).1 by {
        assert(s[a] == (shaw_score(ch, i, s[a].1) as i64, s[a].1));
        assert(s[b] == (shaw_score(ch, i, s[b].1) as i64, s[b].1));
        assert(s[a] != s[b]);
    }
    assert forall|j: usize| 1 <= j < ch.num_nodes && j != i implies #[trigger] lists_node(s, j) by {
        assert(lists_node(cands, j));
        let k = choose|k: int| 0 <= k < cands.len() && (#[trigger] cands[k]).1 == j;
        vstd::seq_lib::to_multiset_contains(cands, cands[k]);
        vstd::seq_lib::to_multiset_contains(s, cands[k]);
        assert(cands.contains(cands[k]));
        let p = choose|p: int| 0 <= p < s.len() && s[p] == cands[k];
        assert(s[p].1 == j);
    }
}

/// Sum of the lengths of all routes.
pub fn total_distance(routes: &[Vec<usize>], dm: &[Vec<i32>]) -> (res: i64)
    requires
        dm_ok(dm@, dm@.len() as int),
        forall|i: int| 0 <= i < routes@.len() ==> nodes_below(#[trigger] routes@[i]@, dm@.len() as int)
            && route_len(dm@, routes@[i]@) <= i32::MAX,
        forall|k: int| 0 <= k <= routes@.len() ==> #[trigger] total_len(dm@, rv(routes@).subrange(0, k)) <= i64::MAX,
    ensures
        res == total_len(dm@, rv(routes@)),
{
    let ghost rs = rv(routes@);
    let mut sum: i64 = 0;
    let mut i: usize = 0;
    assert(total_len(dm@, rs.subrange(0, 0)) == 0);
    while i < routes.len()
        invariant
            rs == rv(routes@),
            i <= routes@.len(),
            dm_ok(dm@, dm@.len() as int),
            forall|j: int| 0 <= j < routes@.len() ==> nodes_below(#[trigger] routes@[j]@, dm@.len() as int)
                && route_len(dm@, routes@[j]@) <= i32::MAX,
            forall|k: int| 0 <= k <= routes@.len() ==> #[trigger] total_len(dm@, rs.subrange(0, k)) <= i64::MAX,
            sum == total_len(dm@, rs.subrange(0, i as int)),
        decreases routes.len() - i,
    {
        assert(rs[i as int] == routes@[i as int]@);
        proof {
            lemma_route_len_nonneg(dm@, routes@[i as int]@);
            assert(rs.subrange(0, i + 1).drop_last() =~= rs.subrange(0, i as int));
            assert(rs.subrange(0, i + 1).last() == rs[i as int]);
            assert(total_len(dm@, rs.subrange(0, i + 1)) <= i64::MAX);
        }
        let d = route_dist(&routes[i], dm);
        sum = sum + d as i64;
        i += 1;
    }
    assert(rs.subrange(0, i as int) =~= rs);
    sum
}

/// A solution's length is not negative.
pub proof fn lemma_total_len_nonneg_dm(dm: Seq<Vec<i32>>, rs: Seq<Seq<usize>>)
    requires
        dm_ok(dm, dm.len() as int),
        forall|i: int| 0 <= i < rs.len() ==> nodes_below(#[trigger] rs[i], dm.len() as int),
    ensures
        total_len(dm, rs) >= 0,
    decreases rs.len(),
{
    if rs.len() > 0 {
        assert(nodes_below(rs[rs.len() - 1], dm.len() as int));
        lemma_route_len_nonneg(dm, rs.last());
        lemma_total_len_nonneg_dm(dm, rs.drop_last());
    }
}

/// Routes beyond the fleet size.
pub open spec fn excess(n_routes: int, fleet: int) -> int {
    if n_routes > fleet { n_routes - fleet } else { 0 }
}

/// The cost the search minimises: the total length plus `fp` for every route
/// beyond the fleet size.
pub fn penalized_cost(routes: &[Vec<usize>], dm: &[Vec<i32>], fleet: usize, fp: i64) -> (res: i64)
    requires
        dm_ok(dm@, dm@.len() as int),
        forall|i: int| 0 <= i < routes@.len() ==> nodes_below(#[trigger] routes@[i]@, dm@.len() as int)
            && route_len(dm@, routes@[i]@) <= i32::MAX,
        forall|k: int| 0 <= k <= routes@.len() ==> #[trigger] total_len(dm@, rv(routes@).subrange(0, k)) <= i64::MAX,
        0 <= fp,
        excess(routes@.len() as int, fleet as int) <= i64::MAX,
        total_len(dm@, rv(routes@)) + excess(routes@.len() as int, fleet as int) * fp <= i64::MAX,
    ensures
        res == total_len(dm@, rv(routes@)) + excess(routes@.len() as int, fleet as int) * fp,
{
    let dist = total_distance(routes, dm);
    let ex: i64 = if routes.len() > fleet {
        (routes.len() - fleet) as i64
    } else {
        0
    };
    proof {
        assert(ex == excess(routes@.len() as int, fleet as int));
        assert(0 <= ex * fp) by (nonlinear_arith)
            requires
                0 <= ex,
                0 <= fp,
        ;
        assert forall|i: int| 0 <= i < rv(routes@).len() implies nodes_below(#[trigger] rv(routes@)[i], dm@.len() as int) by {
            assert(rv(routes@)[i] == routes@[i]@);
        }
        lemma_total_len_nonneg_dm(dm@, rv(routes@));
    }
    dist + ex * fp
}

/// Number of inner nodes over all routes (nodes beyond the two depot visits).
pub open spec fn inner_count(rs: Seq<Seq<usize>>) -> int
    decreases rs.len(),
{
    if rs.len() == 0 {
        0
    } else {
        inner_count(rs.drop_last()) + if rs.last().len() >= 2 { rs.last().len() - 2 } else { 0 }
    }
}

/// The number of customers the routes serve, counted as inner nodes.
pub fn count_customers(routes: &[Vec<usize>]) -> (res: usize)
    requires
        forall|k: int| 0 <= k <= routes@.len() ==> #[trigger] inner_count(rv(routes@).subrange(0, k)) <= usize::MAX,
    ensures
        res == inner_count(rv(routes@)),
{
    let ghost rs = rv(routes@);
    let mut sum: usize = 0;
    let mut i: usize = 0;
    assert(inner_count(rs.subrange(0, 0)) == 0);
    while i < routes.len()
        invariant
            rs == rv(routes@),
            i <= routes@.len(),
            forall|k: int| 0 <= k <= routes@.len() ==> #[trigger] inner_count(rs.subrange(0, k)) <= usize::MAX,
            sum == inner_count(rs.subrange(0, i as int)),
        decreases routes.len() - i,
    {
        assert(rs[i as int] == routes@[i as int]@);
        proof {
            assert(rs.subrange(0, i + 1).drop_last() =~= rs.subrange(0, i as int));
            assert(rs.subrange(0, i + 1).last() == rs[i as int]);
            assert(inner_count(rs.subrange(0, i + 1)) <= usize::MAX);
        }
        let l = routes[i].len();
        sum = sum + if l >= 2 { l - 2 } else { 0 };
        i += 1;
    }
    assert(rs.subrange(0, i as int) =~= rs);
    sum
}

/// The range `[min, max)` of the number of customers a destroy step removes:
/// a tenth of the customers, at least 3, up to three tenths, above the minimum.
pub fn destroy_range(total_custs: usize) -> (res: (usize, usize))
    requires
        total_custs <= usize::MAX / 3,
    ensures
        res.0 == if total_custs / 10 > 3 { total_custs / 10 } else { 3 },
        res.1 == if total_custs * 3 / 10 > res.0 + 1 { total_custs * 3 / 10 } else { res.0 + 1 },
        res.0 < res.1,
{
    let min_d = if total_custs / 10 > 3 { total_custs / 10 } else { 3 };
    let max_d = if total_custs * 3 / 10 > min_d + 1 { total_custs * 3 / 10 } else { min_d + 1 };
    (min_d, max_d)
}

} // verus!
