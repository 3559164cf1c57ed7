//! Building blocks of the alternative solver that works with time windows only
//! (capacity is tracked per route): its random generator, its time-window
//! checks, and its solution length.
use vstd::prelude::*;
use crate::model::{dd, dm_ok, in_limit, nodes_below, table_ok, max, rv, route_len, total_len, lemma_route_len_concat};
use crate::algorithm::{lemma_route_len_nonneg, ins_cost, copy_route};
use crate::model::{Challenge, all_custs, custs, cust1, proper, lemma_all_custs_update, lemma_custs_insert, lemma_custs_remove, lemma_load_concat, VALUE_LIMIT};
use crate::repair::{single_route, lemma_single_route, lemma_load_insert, embeds, lemma_embeds_refl, lemma_embeds_insert, lemma_embeds_trans};
use vstd::multiset::Multiset;
use crate::pv_regret::{first_cheapest, has_option};

verus! {

/// One xorshift step.
pub open spec fn xorshift_step(x: u64) -> u64 {
    let a = x ^ (x << 13u64);
    let b = a ^ (a >> 7u64);
    b ^ (b << 17u64)
}

/// A xorshift random generator.
pub struct XorshiftRng {
    pub state: u64,
}

impl XorshiftRng {
    /// Advances the state by one xorshift step and returns the new state.
    pub fn next(&mut self) -> (res: u64)
        ensures
            final(self).state == xorshift_step(old(self).state),
            res == final(self).state,
    {
        let mut x = self.state;
        x ^= x << 13u64;
        x ^= x >> 7u64;
        x ^= x << 17u64;
        self.state = x;
        x
    }

    /// A draw below `n`: the next value modulo `n`.
    pub fn range(&mut self, n: usize) -> (res: usize)
        requires
            n > 0,
        ensures
            final(self).state == xorshift_step(old(self).state),
            res < n,
            res as int == final(self).state as int % n as int,
    {
        let v = self.next();
        let m = n as u64;
        let r = v % m;
        assert(r < m);
        r as usize
    }
}

/// Walking `rest` from node `prev` left at time `t`: each node is reached by its
/// due time, then served from its ready time on (the depot included).
pub open spec fn tw_walk(dm: Seq<Vec<i32>>, ready: Seq<i32>, due: Seq<i32>, st: int, prev: usize, rest: Seq<usize>, t: int) -> bool
    decreases rest.len(),
{
    if rest.len() == 0 {
        true
    } else {
        let next = rest[0];
        let arr = t + dd(dm, prev, next);
        arr <= due[next as int] && tw_walk(dm, ready, due, st, next, rest.drop_first(), max(arr, ready[next as int] as int) + st)
    }
}

/// The instance tables that the time-window checks read.
pub open spec fn tw_tables(dm: Seq<Vec<i32>>, st: i32, ready: Seq<i32>, due: Seq<i32>) -> bool {
    let n = dm.len() as int;
    &&& n >= 1
    &&& dm_ok(dm, n)
    &&& table_ok(ready, n)
    &&& table_ok(due, n)
    &&& in_limit(st)
}

/// A route meets its time windows: the walk from the depot at time 0 over its
/// nodes after the first.
pub open spec fn time_feasible(dm: Seq<Vec<i32>>, st: int, ready: Seq<i32>, due: Seq<i32>, route: Seq<usize>) -> bool {
    route.len() <= 1 || tw_walk(dm, ready, due, st, 0, route.subrange(1, route.len() as int), 0)
}

/// Whether the route meets its time windows.
pub fn is_time_feasible(route: &[usize], dm: &[Vec<i32>], service_time: i32, ready: &[i32], due: &[i32]) -> (res: bool)
    requires
        tw_tables(dm@, service_time, ready@, due@),
        nodes_below(route@, dm@.len() as int),
    ensures
        res == time_feasible(dm@, service_time as int, ready@, due@, route@),
{
    let mut curr_time: i32 = 0;
    let mut curr_node: usize = 0;
    let mut pos: usize = 1;
    while pos < route.len()
        invariant
            tw_tables(dm@, service_time, ready@, due@),
            nodes_below(route@, dm@.len() as int),
            1 <= pos,
            route@.len() >= 1 ==> pos <= route@.len(),
            (curr_node as int) < dm@.len(),
            0 <= curr_time <= 300_000,
            route@.len() >= 1 ==> time_feasible(dm@, service_time as int, ready@, due@, route@) == tw_walk(
                dm@,
                ready@,
                due@,
                service_time as int,
                curr_node,
                route@.subrange(pos as int, route@.len() as int),
                curr_time as int,
            ),
        decreases route.len() - pos,
    {
        let next = route[pos];
        let ghost rest = route@.subrange(pos as int, route@.len() as int);
        assert(rest[0] == next);
        assert(rest.drop_first() =~= route@.subrange(pos + 1, route@.len() as int));
        proof {
            assert(in_limit(dm@[curr_node as int]@[next as int]));
            assert(in_limit(due@[next as int]));
            assert(in_limit(ready@[next as int]));
        }
        curr_time += dm[curr_node][next];
        if curr_time > due[next] {
            return false;
        }
        curr_time = (if curr_time > ready[next] { curr_time } else { ready[next] }) + service_time;
        curr_node = next;
        pos += 1;
    }
    proof {
        if route@.len() >= 1 {
            assert(route@.subrange(pos as int, route@.len() as int).len() == 0);
        }
    }
    true
}

/// Whether inserting `u` at position `ins` keeps the route within its time
/// windows, walking the route with `u` in place without building it.
pub fn insertion_time_feasible(route: &[usize], ins: usize, u: usize, dm: &[Vec<i32>], service_time: i32, ready: &[i32], due: &[i32]) -> (res: bool)
    requires
        tw_tables(dm@, service_time, ready@, due@),
        nodes_below(route@, dm@.len() as int),
        (u as int) < dm@.len(),
        1 <= ins <= route@.len(),
        route@.len() < usize::MAX,
    ensures
        res == time_feasible(dm@, service_time as int, ready@, due@, route@.insert(ins as int, u)),
{
    let ghost full = route@.insert(ins as int, u);
    let new_len = route.len() + 1;
    let mut curr_time: i32 = 0;
    let mut curr_node: usize = 0;
    let mut new_pos: usize = 1;
    while new_pos < new_len
        invariant
            tw_tables(dm@, service_time, ready@, due@),
            nodes_below(route@, dm@.len() as int),
            (u as int) < dm@.len(),
            1 <= ins <= route@.len(),
            new_len == route@.len() + 1,
            full == route@.insert(ins as int, u),
            1 <= new_pos <= new_len,
            (curr_node as int) < dm@.len(),
            0 <= curr_time <= 300_000,
            time_feasible(dm@, service_time as int, ready@, due@, full) == tw_walk(
                dm@,
                ready@,
                due@,
                service_time as int,
                curr_node,
                full.subrange(new_pos as int, full.len() as int),
                curr_time as int,
            ),
        decreases new_len - new_pos,
    {
        let next = if new_pos == ins {
            u
        } else if new_pos < ins {
            route[new_pos]
        } else {
            route[new_pos - 1]
        };
        let ghost rest = full.subrange(new_pos as int, full.len() as int);
        assert(full[new_pos as int] == next);
        assert(rest[0] == next);
        assert(rest.drop_first() =~= full.subrange(new_pos + 1, full.len() as int));
        proof {
            assert(in_limit(dm@[curr_node as int]@[next as int]));
            assert(in_limit(due@[next as int]));
            assert(in_limit(ready@[next as int]));
        }
        curr_time += dm[curr_node][next];
        if curr_time > due[next] {
            return false;
        }
        curr_time = (if curr_time > ready[next] { curr_time } else { ready[next] }) + service_time;
        curr_node = next;
        new_pos += 1;
    }
    assert(full.subrange(new_pos as int, full.len() as int).len() == 0);
    true
}

/// The insertion check walks the route's nodes before the position, the new
/// customer, then the route's nodes from the position on: the same walk as the
/// full check of the route with the customer inserted.
pub proof fn law_insertion_time_check(dm: Seq<Vec<i32>>, st: int, ready: Seq<i32>, due: Seq<i32>, route: Seq<usize>, ins: int, u: usize)
    requires
        1 <= ins <= route.len(),
    ensures
        time_feasible(dm, st, ready, due, route.insert(ins, u)) == tw_walk(
            dm,
            ready,
            due,
            st,
            0,
            route.subrange(1, ins).push(u) + route.subrange(ins, route.len() as int),
            0,
        ),
{
    let full = route.insert(ins, u);
    assert(full.subrange(1, full.len() as int) =~= route.subrange(1, ins).push(u) + route.subrange(ins, route.len() as int));
}

/// Sum of the lengths of all routes.
pub fn total_distance(routes: &[Vec<usize>], dm: &[Vec<i32>]) -> (res: i32)
    requires
        dm_ok(dm@, dm@.len() as int),
        forall|i: int| 0 <= i < routes@.len() ==> nodes_below(#[trigger] routes@[i]@, dm@.len() as int),
        total_len(dm@, rv(routes@)) <= i32::MAX,
    ensures
        res == total_len(dm@, rv(routes@)),
{
    let ghost rs = rv(routes@);
    let mut t: i32 = 0;
    let mut i: usize = 0;
    proof {
        lemma_total_len_prefix(dm@, rs);
    }
    while i < routes.len()
        invariant
            rs == rv(routes@),
            i <= routes@.len(),
            dm_ok(dm@, dm@.len() as int),
            forall|j: int| 0 <= j < routes@.len() ==> nodes_below(#[trigger] routes@[j]@, dm@.len() as int),
            total_len(dm@, rs) <= i32::MAX,
            forall|k: int| 0 <= k <= rs.len() ==> #[trigger] total_len(dm@, rs.subrange(0, k)) <= total_len(dm@, rs),
            t == total_len(dm@, rs.subrange(0, i as int)),
        decreases routes.len() - i,
    {
        let route = &routes[i];
        assert(rs[i as int] == route@);
        assert(rs.subrange(0, i + 1).drop_last() =~= rs.subrange(0, i as int));
        assert(rs.subrange(0, i + 1).last() == route@);
        assert(total_len(dm@, rs.subrange(0, i + 1)) <= total_len(dm@, rs));
        let ghost base = t as int;
        let mut w: usize = 1;
        proof {
            lemma_route_len_nonneg(dm@, route@);
            assert forall|j: int| 0 <= j < rs.subrange(0, i as int).len() implies nodes_below(#[trigger] rs.subrange(0, i as int)[j], dm@.len() as int) by {
                assert(rs.subrange(0, i as int)[j] == routes@[j]@);
            }
            crate::alns::lemma_total_len_nonneg_dm(dm@, rs.subrange(0, i as int));
        }
        if route.len() >= 1 {
            assert(route@.subrange(0, 1).drop_last().len() == 0);
            while w < route.len()
                invariant
                    dm_ok(dm@, dm@.len() as int),
                    nodes_below(route@, dm@.len() as int),
                    1 <= w <= route@.len(),
                    base + route_len(dm@, route@) <= i32::MAX,
                    t == base + route_len(dm@, route@.subrange(0, w as int)),
                    0 <= base,
                decreases route.len() - w,
            {
                proof {
                    lemma_prefix_len_bound(dm@, route@, w as int);
                    assert(route@.subrange(0, w + 1).drop_last() =~= route@.subrange(0, w as int));
                    assert(in_limit(dm@[route@[w - 1] as int]@[route@[w as int] as int]));
                }
                t += dm[route[w - 1]][route[w]];
                w += 1;
            }
            assert(route@.subrange(0, w as int) =~= route@);
        }
        i += 1;
    }
    assert(rs.subrange(0, i as int) =~= rs);
    t
}

/// A prefix of a route is no longer than the route, and one edge more stays
/// within the route's length.
proof fn lemma_prefix_len_bound(dm: Seq<Vec<i32>>, r: Seq<usize>, w: int)
    requires
        dm_ok(dm, dm.len() as int),
        nodes_below(r, dm.len() as int),
        1 <= w < r.len(),
    ensures
        route_len(dm, r.subrange(0, w + 1)) <= route_len(dm, r),
        route_len(dm, r.subrange(0, w + 1)) == route_len(dm, r.subrange(0, w as int)) + dd(dm, r[w - 1], r[w]),
{
    crate::algorithm::lemma_route_len_prefix_bound(dm, r, w + 1);
    assert(r.subrange(0, w + 1).drop_last() =~= r.subrange(0, w as int));
}

/// Prefixes of a route list with routes of non-negative length are no longer
/// than the whole list.
proof fn lemma_total_len_prefix(dm: Seq<Vec<i32>>, rs: Seq<Seq<usize>>)
    requires
        dm_ok(dm, dm.len() as int),
        forall|i: int| 0 <= i < rs.len() ==> nodes_below(#[trigger] rs[i], dm.len() as int),
    ensures
        forall|k: int| 0 <= k <= rs.len() ==> #[trigger] total_len(dm, rs.subrange(0, k)) <= total_len(dm, rs),
    decreases rs.len(),
{
    if rs.len() > 0 {
        assert(nodes_below(rs[rs.len() - 1], dm.len() as int));
        lemma_route_len_nonneg(dm, rs.last());
        lemma_total_len_prefix(dm, rs.drop_last());
        assert forall|k: int| 0 <= k <= rs.len() implies #[trigger] total_len(dm, rs.subrange(0, k)) <= total_len(dm, rs) by {
            if k < rs.len() {
                assert(rs.subrange(0, k) =~= rs.drop_last().subrange(0, k));
            } else {
                assert(rs.subrange(0, k) =~= rs);
            }
        }
    }
}

/// The distance matrix reads the same both ways.
pub open spec fn symmetric(dm: Seq<Vec<i32>>) -> bool {
    forall|a: int, b: int| 0 <= a < dm.len() && 0 <= b < dm.len() ==> #[trigger] dm[a]@[b] == #[trigger] dm[b]@[a]
}

/// Route `r` with its nodes `i..=j` in reverse order.
pub open spec fn rev_seg(r: Seq<usize>, i: int, j: int) -> Seq<usize> {
    r.subrange(0, i) + r.subrange(i, j + 1).reverse() + r.subrange(j + 1, r.len() as int)
}

/// Reversing positions `i..=j` shortens the route by the change of its two
/// boundary edges (for a symmetric matrix).
pub open spec fn improving_rev(dm: Seq<Vec<i32>>, r: Seq<usize>, i: int, j: int) -> bool {
    dd(dm, r[i - 1], r[j]) + dd(dm, r[i], r[j + 1]) < dd(dm, r[i - 1], r[i]) + dd(dm, r[j], r[j + 1])
}

/// With a symmetric matrix a route is as long backwards as forwards.
pub proof fn lemma_route_len_reverse(dm: Seq<Vec<i32>>, s: Seq<usize>)
    requires
        symmetric(dm),
        nodes_below(s, dm.len() as int),
    ensures
        route_len(dm, s.reverse()) == route_len(dm, s),
    decreases s.len(),
{
    if s.len() >= 2 {
        let t = s.drop_last();
        let x = s.last();
        assert(nodes_below(t, dm.len() as int));
        lemma_route_len_reverse(dm, t);
        assert(s.reverse() =~= seq![x] + t.reverse());
        lemma_route_len_concat(dm, seq![x], t.reverse());
        assert(seq![x].drop_last().len() == 0);
        assert(t.reverse()[0] == t.last());
        assert(t.last() == s[s.len() - 2]);
        assert(dm[x as int]@[t.last() as int] == dm[t.last() as int]@[x as int]);
    } else if s.len() == 1 {
        assert(s.reverse() =~= s);
    } else {
        assert(s.reverse() =~= s);
    }
}

/// Reversing positions `i..=j` changes the route's length by the change of its
/// two boundary edges.
pub proof fn lemma_rev_seg_len(dm: Seq<Vec<i32>>, r: Seq<usize>, i: int, j: int)
    requires
        symmetric(dm),
        nodes_below(r, dm.len() as int),
        1 <= i < j < r.len() - 1,
    ensures
        route_len(dm, rev_seg(r, i, j)) == route_len(dm, r) - dd(dm, r[i - 1], r[i]) - dd(dm, r[j], r[j + 1])
            + dd(dm, r[i - 1], r[j]) + dd(dm, r[i], r[j + 1]),
        rev_seg(r, i, j).len() == r.len(),
        rev_seg(r, i, j)[0] == r[0],
        rev_seg(r, i, j)[r.len() - 1] == r[r.len() - 1],
        nodes_below(rev_seg(r, i, j), dm.len() as int),
        rev_seg(r, i, j).to_multiset() == r.to_multiset(),
{
    let a = r.subrange(0, i);
    let m = r.subrange(i, j + 1);
    let b = r.subrange(j + 1, r.len() as int);
    let mr = m.reverse();
    assert(r =~= a + m + b);
    assert(nodes_below(m, dm.len() as int));
    lemma_route_len_reverse(dm, m);
    lemma_route_len_concat(dm, a, m);
    lemma_route_len_concat(dm, a + m, b);
    lemma_route_len_concat(dm, a, mr);
    lemma_route_len_concat(dm, a + mr, b);
    assert((a + m).last() == r[j]);
    assert((a + mr).last() == r[i]);
    assert(mr[0] == r[j]);
    let rs = rev_seg(r, i, j);
    assert(rs == a + mr + b);
    assert forall|k: int| 0 <= k < rs.len() implies (#[trigger] rs[k] as int) < dm.len() by {
        if k < i {
            assert(rs[k] == r[k]);
        } else if k <= j {
            assert(rs[k] == m[j - k]);
        } else {
            assert(rs[k] == r[k]);
        }
    }
    vstd::seq_lib::lemma_multiset_commutative(a + m, b);
    vstd::seq_lib::lemma_multiset_commutative(a, m);
    vstd::seq_lib::lemma_multiset_commutative(a + mr, b);
    vstd::seq_lib::lemma_multiset_commutative(a, mr);
    lemma_reverse_multiset(m);
}

/// Reversing keeps the multiset.
pub proof fn lemma_reverse_multiset<A>(s: Seq<A>)
    ensures
        s.reverse().to_multiset() == s.to_multiset(),
    decreases s.len(),
{
    if s.len() > 0 {
        let t = s.drop_last();
        lemma_reverse_multiset(t);
        assert(s.reverse() =~= seq![s.last()] + t.reverse());
        assert(s =~= t + seq![s.last()]);
        vstd::seq_lib::lemma_multiset_commutative(seq![s.last()], t.reverse());
        vstd::seq_lib::lemma_multiset_commutative(t, seq![s.last()]);
        assert(s.reverse().to_multiset() =~= s.to_multiset()) by {
            broadcast use vstd::multiset::group_multiset_axioms;
        }
    } else {
        assert(s.reverse() =~= s);
    }
}

/// Reverses positions `i..=j` of the route in place.
pub fn reverse_segment(route: &mut Vec<usize>, i: usize, j: usize)
    requires
        i <= j < old(route)@.len(),
    ensures
        final(route)@ == rev_seg(old(route)@, i as int, j as int),
{
    let ghost r0 = route@;
    let mut lo = i;
    let mut hi = j;
    while lo < hi
        invariant
            i <= lo,
            hi <= j,
            lo <= hi + 1,
            j < r0.len(),
            lo + hi == i + j,
            route@.len() == r0.len(),
            forall|k: int| 0 <= k < route@.len() ==> #[trigger] route@[k] == if lo <= k <= hi || k < i || k > j {
                r0[k]
            } else {
                r0[i + j - k]
            },
        decreases hi + 1 - lo,
    {
        let x = route[lo];
        let y = route[hi];
        route.set(lo, y);
        route.set(hi, x);
        lo += 1;
        hi -= 1;
    }
    assert(route@ =~= rev_seg(r0, i as int, j as int)) by {
        let rs = rev_seg(r0, i as int, j as int);
        assert forall|k: int| 0 <= k < route@.len() implies route@[k] == rs[k] by {
            if k < i {
            } else if k <= j {
                assert(rs[k] == r0.subrange(i as int, j + 1).reverse()[k - i]);
            } else {
            }
        }
    }
}

/// 2-opt within one route: sweeps all pairs `i < j` of inner positions, keeps each
/// reversal of `i..=j` that shortens the route's boundary edges and keeps the
/// route time-feasible, and repeats sweeps while one changed the route.
pub fn two_opt_route(route: &mut Vec<usize>, dm: &[Vec<i32>], service_time: i32, ready: &[i32], due: &[i32]) -> (res: bool)
    requires
        tw_tables(dm@, service_time, ready@, due@),
        symmetric(dm@),
        nodes_below(old(route)@, dm@.len() as int),
    ensures
        final(route)@.len() == old(route)@.len(),
        final(route)@.to_multiset() == old(route)@.to_multiset(),
        nodes_below(final(route)@, dm@.len() as int),
        final(route)@.len() > 0 ==> final(route)@[0] == old(route)@[0] && final(route)@[final(route)@.len() - 1] == old(route)@[old(route)@.len() - 1],
        res ==> time_feasible(dm@, service_time as int, ready@, due@, final(route)@) && route_len(dm@, final(route)@) < route_len(dm@, old(route)@),
        !res ==> final(route)@ == old(route)@,
        final(route)@.len() >= 5 ==> forall|i: int, j: int| 1 <= i < j < final(route)@.len() - 1 && #[trigger] improving_rev(dm@, final(route)@, i, j)
            ==> !time_feasible(dm@, service_time as int, ready@, due@, #[trigger] rev_seg(final(route)@, i, j)),
{
    let n = route.len();
    if n < 5 {
        return false;
    }
    let ghost r0 = route@;
    let mut improved_any = false;
    let mut changed = true;
    proof {
        crate::algorithm::lemma_route_len_nonneg(dm@, route@);
    }
    while changed
        invariant
            tw_tables(dm@, service_time, ready@, due@),
            symmetric(dm@),
            n == route@.len(),
            n >= 5,
            nodes_below(route@, dm@.len() as int),
            route@.to_multiset() == r0.to_multiset(),
            route@[0] == r0[0],
            route@[n - 1] == r0[n - 1],
            r0.len() == n,
            r0 == old(route)@,
            route_len(dm@, route@) >= 0,
            improved_any ==> time_feasible(dm@, service_time as int, ready@, due@, route@) && route_len(dm@, route@) < route_len(dm@, r0),
            !improved_any ==> route@ == r0,
            !changed ==> forall|i: int, j: int| 1 <= i < j < n - 1 && #[trigger] improving_rev(dm@, route@, i, j)
                ==> !time_feasible(dm@, service_time as int, ready@, due@, #[trigger] rev_seg(route@, i, j)),
        decreases route_len(dm@, route@) * 2 + (if changed { 1int } else { 0int }),
    {
        let ghost start = route@;
        changed = false;
        let mut i: usize = 1;
        while i < n - 2
            invariant
                tw_tables(dm@, service_time, ready@, due@),
                symmetric(dm@),
                n == route@.len(),
                n >= 5,
                1 <= i <= n - 2,
                nodes_below(route@, dm@.len() as int),
                route@.to_multiset() == r0.to_multiset(),
                route@[0] == r0[0],
                route@[n - 1] == r0[n - 1],
                r0.len() == n,
                r0 == old(route)@,
                route_len(dm@, route@) >= 0,
                route_len(dm@, route@) <= route_len(dm@, start),
                changed ==> route_len(dm@, route@) < route_len(dm@, start),
                !changed ==> route@ == start,
                improved_any ==> time_feasible(dm@, service_time as int, ready@, due@, route@) && route_len(dm@, route@) < route_len(dm@, r0),
                !improved_any ==> route@ == r0,
                !changed ==> forall|a: int, b: int| 1 <= a < i && a < b < n - 1 && #[trigger] improving_rev(dm@, route@, a, b)
                    ==> !time_feasible(dm@, service_time as int, ready@, due@, #[trigger] rev_seg(route@, a, b)),
            decreases n - 2 - i,
        {
            let mut j: usize = i + 1;
            while j < n - 1
                invariant
                    tw_tables(dm@, service_time, ready@, due@),
                    symmetric(dm@),
                    n == route@.len(),
                    n >= 5,
                    1 <= i < n - 2,
                    i + 1 <= j <= n - 1,
                    nodes_below(route@, dm@.len() as int),
                    route@.to_multiset() == r0.to_multiset(),
                    route@[0] == r0[0],
                    route@[n - 1] == r0[n - 1],
                    r0.len() == n,
                    r0 == old(route)@,
                    route_len(dm@, route@) >= 0,
                    route_len(dm@, route@) <= route_len(dm@, start),
                    changed ==> route_len(dm@, route@) < route_len(dm@, start),
                    !changed ==> route@ == start,
                    improved_any ==> time_feasible(dm@, service_time as int, ready@, due@, route@) && route_len(dm@, route@) < route_len(dm@, r0),
                    !improved_any ==> route@ == r0,
                    !changed ==> forall|a: int, b: int| (1 <= a < i && a < b < n - 1 || a == i && i < b < j) && #[trigger] improving_rev(dm@, route@, a, b)
                        ==> !time_feasible(dm@, service_time as int, ready@, due@, #[trigger] rev_seg(route@, a, b)),
                decreases n - 1 - j,
            {
                let ghost before = route@;
                if try_reversal(route, i, j, dm, service_time, ready, due) {
                    changed = true;
                    improved_any = true;
                }
                proof {
                    crate::algorithm::lemma_route_len_nonneg(dm@, route@);
                }
                j += 1;
            }
            i += 1;
        }
    }
    improved_any
}

/// Tries the reversal of positions `i..=j`: applies it when it shortens the
/// boundary edges and keeps the route time-feasible.
fn try_reversal(route: &mut Vec<usize>, i: usize, j: usize, dm: &[Vec<i32>], service_time: i32, ready: &[i32], due: &[i32]) -> (res: bool)
    requires
        tw_tables(dm@, service_time, ready@, due@),
        symmetric(dm@),
        nodes_below(old(route)@, dm@.len() as int),
        1 <= i < j < old(route)@.len() - 1,
    ensures
        res == (improving_rev(dm@, old(route)@, i as int, j as int) && time_feasible(
            dm@,
            service_time as int,
            ready@,
            due@,
            rev_seg(old(route)@, i as int, j as int),
        )),
        res ==> final(route)@ == rev_seg(old(route)@, i as int, j as int),
        !res ==> final(route)@ == old(route)@,
        route_len(dm@, rev_seg(old(route)@, i as int, j as int)) == route_len(dm@, old(route)@) - dd(dm@, old(route)@[i - 1], old(route)@[i as int])
            - dd(dm@, old(route)@[j as int], old(route)@[j + 1]) + dd(dm@, old(route)@[i - 1], old(route)@[j as int]) + dd(dm@, old(route)@[i as int], old(route)@[j + 1]),
        rev_seg(old(route)@, i as int, j as int).len() == old(route)@.len(),
        rev_seg(old(route)@, i as int, j as int)[0] == old(route)@[0],
        rev_seg(old(route)@, i as int, j as int)[old(route)@.len() - 1] == old(route)@[old(route)@.len() - 1],
        nodes_below(rev_seg(old(route)@, i as int, j as int), dm@.len() as int),
        rev_seg(old(route)@, i as int, j as int).to_multiset() == old(route)@.to_multiset(),
{
    let ghost before = route@;
    proof {
        lemma_rev_seg_len(dm@, before, i as int, j as int);
    }
    let len = route.len();
    assert(j + 1 < len);
    let a = route[i - 1];
    let b = route[i];
    let c = route[j];
    let d = route[j + 1];
    proof {
        assert(in_limit(dm@[a as int]@[b as int]));
        assert(in_limit(dm@[c as int]@[d as int]));
        assert(in_limit(dm@[a as int]@[c as int]));
        assert(in_limit(dm@[b as int]@[d as int]));
    }
    let old_edges = dm[a][b] + dm[c][d];
    let new_edges = dm[a][c] + dm[b][d];
    if new_edges < old_edges {
        reverse_segment(route, i, j);
        if is_time_feasible(route, dm, service_time, ready, due) {
            return true;
        }
        reverse_segment(route, i, j);
        proof {
            lemma_rev_seg_twice(before, i as int, j as int);
        }
    }
    false
}

/// Reversing the same segment twice gives the route back.
pub proof fn lemma_rev_seg_twice(r: Seq<usize>, i: int, j: int)
    requires
        0 <= i <= j < r.len(),
    ensures
        rev_seg(rev_seg(r, i, j), i, j) == r,
{
    let s = rev_seg(r, i, j);
    assert(s.len() == r.len());
    let t = rev_seg(s, i, j);
    assert forall|k: int| 0 <= k < r.len() implies t[k] == r[k] by {
        if i <= k <= j {
            assert(t[k] == s.subrange(i, j + 1).reverse()[k - i]);
            assert(s[i + j - k] == r.subrange(i, j + 1).reverse()[j - k]);
        }
    }
    assert(t =~= r);
}

/// The first `i` entries of `s` shuffled from the back (Fisher-Yates) with
/// draws from generator state `st`: entry `i - 1` trades places with the entry
/// at the next draw modulo `i`, and so on down to the second entry. Gives the
/// shuffled sequence and the final state.
pub open spec fn fy_shuffle<T>(s: Seq<T>, i: nat, st: u64) -> (Seq<T>, u64)
    decreases i,
{
    if i <= 1 {
        (s, st)
    } else {
        let k = (i - 1) as int;
        let st1 = xorshift_step(st);
        let j = st1 as int % i as int;
        fy_shuffle(s.update(k, s[j]).update(j, s[k]), (i - 1) as nat, st1)
    }
}

/// Shuffles `v` in place (Fisher-Yates, from the back, with draws from `rng`).
pub fn shuffle<T: Copy>(v: &mut Vec<T>, rng: &mut XorshiftRng)
    ensures
        final(v)@.to_multiset() == old(v)@.to_multiset(),
        final(v)@.len() == old(v)@.len(),
        (final(v)@, final(rng).state) == fy_shuffle(old(v)@, old(v)@.len(), old(rng).state),
{
    let mut i: usize = v.len();
    while i > 1
        invariant
            i <= v@.len(),
            v@.len() == old(v)@.len(),
            v@.to_multiset() == old(v)@.to_multiset(),
            fy_shuffle(v@, i as nat, rng.state) == fy_shuffle(old(v)@, old(v)@.len(), old(rng).state),
        decreases i,
    {
        i -= 1;
        let j = rng.range(i + 1);
        let a = v[i];
        let b = v[j];
        proof {
            crate::destroy::lemma_swap_multiset(v@, i as int, j as int);
        }
        v.set(i, b);
        v.set(j, a);
    }
}

/// The instance's tables as the time-window checks read them.
pub open spec fn ch_tw(ch: Challenge) -> bool {
    tw_tables(ch.distance_matrix@, ch.service_time, ch.ready_times@, ch.due_times@)
}

/// A well-formed instance gives well-formed tables.
pub proof fn lemma_ch_tw(ch: Challenge)
    requires
        ch.wf(),
    ensures
        ch_tw(ch),
{
}

/// Inserting `c` at position `pos` of route `sr` respects the recorded demand and
/// the time windows.
pub open spec fn tw_insert_ok(ch: Challenge, rs: Seq<Seq<usize>>, demand: Seq<i32>, c: usize, sr: int, pos: int) -> bool {
    &&& 0 <= sr < rs.len()
    &&& demand[sr] + ch.demand(c) <= ch.max_capacity
    &&& 1 <= pos < rs[sr].len()
    &&& time_feasible(ch.distance_matrix@, ch.service_time as int, ch.ready_times@, ch.due_times@, rs[sr].insert(pos, c))
}

/// The cheapest insertion of `c` over all routes with room (by the recorded
/// demand) that respects the time windows; the first one, in route and position
/// order, on ties.
pub fn cheapest_time_insertion(routes: &[Vec<usize>], route_demand: &[i32], ch: &Challenge, c: usize) -> (res: Option<(usize, usize)>)
    requires
        ch.wf(),
        forall|i: int| 0 <= i < routes@.len() ==> ch.route_ok(#[trigger] routes@[i]@) && routes@[i]@.len() < usize::MAX,
        route_demand@.len() == routes@.len(),
        forall|i: int| 0 <= i < route_demand@.len() ==> #[trigger] route_demand@[i] <= i32::MAX - VALUE_LIMIT,
        (c as int) < ch.num_nodes,
    ensures
        res matches Some((sr, pos)) ==> tw_insert_ok(*ch, rv(routes@), route_demand@, c, sr as int, pos as int)
            && (forall|r2: int, p2: int| #[trigger] tw_insert_ok(*ch, rv(routes@), route_demand@, c, r2, p2)
                ==> ins_cost(ch.distance_matrix@, rv(routes@)[sr as int], pos as int, c) <= ins_cost(ch.distance_matrix@, rv(routes@)[r2], p2, c))
            && (forall|r2: int, p2: int| (r2 < sr || r2 == sr && p2 < pos) && #[trigger] tw_insert_ok(*ch, rv(routes@), route_demand@, c, r2, p2)
                ==> ins_cost(ch.distance_matrix@, rv(routes@)[sr as int], pos as int, c) < ins_cost(ch.distance_matrix@, rv(routes@)[r2], p2, c)),
        res is None ==> forall|r2: int, p2: int| !#[trigger] tw_insert_ok(*ch, rv(routes@), route_demand@, c, r2, p2),
{
    let ghost rs = rv(routes@);
    let ghost dmv = ch.distance_matrix@;
    let mut best: Option<(usize, usize, i32)> = None;
    let mut sr: usize = 0;
    while sr < routes.len()
        invariant
            rs == rv(routes@),
            dmv == ch.distance_matrix@,
            ch.wf(),
            forall|i: int| 0 <= i < routes@.len() ==> ch.route_ok(#[trigger] routes@[i]@) && routes@[i]@.len() < usize::MAX,
            route_demand@.len() == routes@.len(),
            forall|i: int| 0 <= i < route_demand@.len() ==> #[trigger] route_demand@[i] <= i32::MAX - VALUE_LIMIT,
            (c as int) < ch.num_nodes,
            sr <= routes@.len(),
            best matches Some(b) ==> b.0 < sr && tw_insert_ok(*ch, rs, route_demand@, c, b.0 as int, b.1 as int)
                && b.2 == ins_cost(dmv, rs[b.0 as int], b.1 as int, c)
                && (forall|r2: int, p2: int| r2 < sr && #[trigger] tw_insert_ok(*ch, rs, route_demand@, c, r2, p2) ==> b.2 <= ins_cost(dmv, rs[r2], p2, c))
                && (forall|r2: int, p2: int| (r2 < b.0 || r2 == b.0 && p2 < b.1) && #[trigger] tw_insert_ok(*ch, rs, route_demand@, c, r2, p2) ==> b.2 < ins_cost(dmv, rs[r2], p2, c)),
            best is None ==> forall|r2: int, p2: int| r2 < sr ==> !#[trigger] tw_insert_ok(*ch, rs, route_demand@, c, r2, p2),
        decreases routes.len() - sr,
    {
        let r = &routes[sr];
        assert(rs[sr as int] == r@);
        proof {
            assert(in_limit(ch.demands@[c as int]));
            lemma_ch_tw(*ch);
        }
        if route_demand[sr] + ch.demands[c] <= ch.max_capacity {
            let mut pos: usize = 1;
            while pos < r.len()
                invariant
                    rs == rv(routes@),
                    dmv == ch.distance_matrix@,
                    ch.wf(),
                    ch_tw(*ch),
                    sr < routes@.len(),
                    r@ == rs[sr as int],
                    ch.route_ok(r@),
                    r@.len() < usize::MAX,
                    route_demand@.len() == routes@.len(),
                    route_demand@[sr as int] + ch.demand(c) <= ch.max_capacity,
                    (c as int) < ch.num_nodes,
                    1 <= pos,
                    r@.len() == 0 || pos <= r@.len(),
                    best matches Some(b) ==> b.0 <= sr && tw_insert_ok(*ch, rs, route_demand@, c, b.0 as int, b.1 as int)
                        && b.2 == ins_cost(dmv, rs[b.0 as int], b.1 as int, c)
                        && (b.0 == sr ==> b.1 < pos)
                        && (forall|r2: int, p2: int| (r2 < sr || r2 == sr && p2 < pos) && #[trigger] tw_insert_ok(*ch, rs, route_demand@, c, r2, p2) ==> b.2 <= ins_cost(dmv, rs[r2], p2, c))
                        && (forall|r2: int, p2: int| (r2 < b.0 || r2 == b.0 && p2 < b.1) && #[trigger] tw_insert_ok(*ch, rs, route_demand@, c, r2, p2) ==> b.2 < ins_cost(dmv, rs[r2], p2, c)),
                    best is None ==> forall|r2: int, p2: int| (r2 < sr || r2 == sr && p2 < pos) ==> !#[trigger] tw_insert_ok(*ch, rs, route_demand@, c, r2, p2),
                decreases r.len() - pos,
            {
                let a = r[pos - 1];
                let b = r[pos];
                proof {
                    assert(in_limit(dmv[a as int]@[c as int]));
                    assert(in_limit(dmv[c as int]@[b as int]));
                    assert(in_limit(dmv[a as int]@[b as int]));
                }
                let cost = ch.distance_matrix[a][c] + ch.distance_matrix[c][b] - ch.distance_matrix[a][b];
                let better = match best {
                    None => true,
                    Some(bb) => cost < bb.2,
                };
                if better && insertion_time_feasible(r, pos, c, &ch.distance_matrix, ch.service_time, &ch.ready_times, &ch.due_times) {
                    best = Some((sr, pos, cost));
                }
                pos += 1;
            }
        }
        sr += 1;
    }
    match best {
        Some(b) => Some((b.0, b.1)),
        None => None,
    }
}

/// The rule of one greedy repair step, from routes `r0` (recorded demands `d0`)
/// to `r1`, placing `c`: at its first cheapest time-feasible slot, or, only when
/// it has none, in a route of its own.
pub open spec fn greedy_step_law(ch: Challenge, r0: Seq<Seq<usize>>, d0: Seq<i32>, c: usize, r1: Seq<Seq<usize>>) -> bool {
    &&& r1.len() == r0.len() ==> exists|sr: int, pos: int|
        #![trigger first_cheapest(ch, r0, d0, c, sr, pos)]
        first_cheapest(ch, r0, d0, c, sr, pos) && r1 == r0.update(sr, r0[sr].insert(pos, c))
    &&& r1.len() != r0.len() ==> !has_option(ch, r0, d0, c) && r1 == r0.push(single_route(c))
}

/// Step `i` of the run `tr` of (routes, recorded demands) places `order[i]` by
/// the greedy rule.
pub open spec fn greedy_link(ch: Challenge, tr: Seq<(Seq<Seq<usize>>, Seq<i32>)>, order: Seq<usize>, i: int) -> bool {
    greedy_step_law(ch, tr[i].0, tr[i].1, order[i], tr[i + 1].0)
}

/// `tr` is a run of the greedy repair from routes `r0` (demands `d0`) to `r_end`,
/// placing the customers of `order` one after the other.
pub open spec fn greedy_trace(ch: Challenge, tr: Seq<(Seq<Seq<usize>>, Seq<i32>)>, order: Seq<usize>, r0: Seq<Seq<usize>>, d0: Seq<i32>, r_end: Seq<Seq<usize>>) -> bool {
    &&& tr.len() == order.len() + 1
    &&& tr[0] == (r0, d0)
    &&& tr.last().0 == r_end
    &&& forall|i: int| 0 <= i < order.len() ==> #[trigger] greedy_link(ch, tr, order, i)
}

/// The greedy repair from routes `r0` (demands `d0`) ends in `r_end`, placing
/// the customers of `order` by the greedy rule, one after the other.
pub open spec fn greedy_run(ch: Challenge, r0: Seq<Seq<usize>>, d0: Seq<i32>, order: Seq<usize>, r_end: Seq<Seq<usize>>) -> bool {
    exists|tr: Seq<(Seq<Seq<usize>>, Seq<i32>)>| #[trigger] greedy_trace(ch, tr, order, r0, d0, r_end)
}

/// One placement of the greedy repair: `c` goes to its first cheapest
/// time-feasible insertion over the routes with room for it, or, only when it
/// fits nowhere, to a route of its own. The recorded demands follow the loads.
pub fn greedy_place(routes: &mut Vec<Vec<usize>>, route_demand: &mut Vec<i32>, ch: &Challenge, c: usize)
    requires
        ch.wf(),
        0 < c < ch.num_nodes,
        forall|i: int| 0 <= i < old(routes)@.len() ==> ch.route_ok(#[trigger] old(routes)@[i]@) && old(routes)@[i]@.len() < usize::MAX,
        old(route_demand)@.len() == old(routes)@.len(),
        forall|i: int| 0 <= i < old(route_demand)@.len() ==> #[trigger] old(route_demand)@[i] <= i32::MAX - VALUE_LIMIT,
    ensures
        all_custs(rv(final(routes)@)) == all_custs(rv(old(routes)@)).insert(c),
        final(route_demand)@.len() == final(routes)@.len(),
        forall|i: int| 0 <= i < final(routes)@.len() ==> ch.route_ok(#[trigger] final(routes)@[i]@),
        forall|i: int| 0 <= i < final(route_demand)@.len() ==> #[trigger] final(route_demand)@[i] <= i32::MAX - VALUE_LIMIT,
        forall|i: int| 0 <= i < old(routes)@.len() ==> #[trigger] final(route_demand)@[i] - old(route_demand)@[i] == ch.load_of(final(routes)@[i]@) - ch.load_of(old(routes)@[i]@),
        forall|i: int| 0 <= i < old(routes)@.len() ==> #[trigger] final(routes)@[i]@ == old(routes)@[i]@ || (
            final(routes)@[i]@.len() == old(routes)@[i]@.len() + 1
            && final(route_demand)@[i] <= ch.max_capacity
            && time_feasible(
                ch.distance_matrix@,
                ch.service_time as int,
                ch.ready_times@,
                ch.due_times@,
                final(routes)@[i]@,
            )),
        final(routes)@.len() == old(routes)@.len() ==> exists|sr: int, pos: int|
            #![trigger first_cheapest(*ch, rv(old(routes)@), old(route_demand)@, c, sr, pos)]
            first_cheapest(*ch, rv(old(routes)@), old(route_demand)@, c, sr, pos)
            && final(routes)@[sr]@ == old(routes)@[sr]@.insert(pos, c),
        final(routes)@.len() != old(routes)@.len() ==> final(routes)@.len() == old(routes)@.len() + 1
            && !has_option(*ch, rv(old(routes)@), old(route_demand)@, c)
            && final(routes)@.last()@ == single_route(c)
            && final(route_demand)@.last() == ch.load_of(final(routes)@.last()@),
        greedy_step_law(*ch, rv(old(routes)@), old(route_demand)@, c, rv(final(routes)@)),
        forall|i: int| 0 <= i < old(routes)@.len() ==> embeds(#[trigger] old(routes)@[i]@, final(routes)@[i]@),
{
    let ghost rs = rv(routes@);
    let ghost ov = routes@;
    let ghost od = route_demand@;
    proof {
        assert(in_limit(ch.demands@[c as int]));
    }
    match cheapest_time_insertion(routes, route_demand, ch, c) {
        Some((sr, pos)) => {
            let mut r = copy_route(&routes[sr]);
            assert(rs[sr as int] == routes@[sr as int]@);
            r.insert(pos, c);
            proof {
                lemma_all_custs_update(rs, sr as int, r@);
                lemma_custs_insert(rs[sr as int], pos as int, c);
                lemma_load_insert(*ch, rs[sr as int], pos as int, c);
                assert(cust1(c) =~= Multiset::singleton(c));
                assert forall|x: int| 0 <= x < r@.len() implies (#[trigger] r@[x] as int) < ch.num_nodes by {
                    if x < pos {
                        assert(r@[x] == rs[sr as int][x]);
                    } else if x > pos {
                        assert(r@[x] == rs[sr as int][x - 1]);
                    }
                }
            }
            routes.set(sr, r);
            let d = route_demand[sr] + ch.demands[c];
            route_demand.set(sr, d);
            proof {
                assert(rv(routes@) =~= rs.update(sr as int, r@));
                assert(all_custs(rv(routes@)) =~= all_custs(rs).insert(c)) by {
                    broadcast use vstd::multiset::group_multiset_axioms;
                    assert forall|x: usize| all_custs(rv(routes@)).count(x) == all_custs(rs).insert(c).count(x) by {
                        assert(all_custs(rv(routes@)).add(custs(rs[sr as int])).count(x) == all_custs(rs).add(custs(r@)).count(x));
                    }
                }
                assert forall|i: int| 0 <= i < ov.len() implies #[trigger] routes@[i]@ == ov[i]@ || (
                    routes@[i]@.len() == ov[i]@.len() + 1
                    && route_demand@[i] <= ch.max_capacity
                    && time_feasible(
                        ch.distance_matrix@,
                        ch.service_time as int,
                        ch.ready_times@,
                        ch.due_times@,
                        routes@[i]@,
                    )) by {
                    if i != sr {
                        assert(routes@[i] == ov[i]);
                    }
                }
                assert(first_cheapest(*ch, rv(ov), od, c, sr as int, pos as int));
                assert(routes@[sr as int]@ == ov[sr as int]@.insert(pos as int, c));
                assert(rv(routes@) == rs.update(sr as int, rs[sr as int].insert(pos as int, c)));
                assert forall|i: int| 0 <= i < ov.len() implies embeds(#[trigger] ov[i]@, routes@[i]@) by {
                    if i == sr as int {
                        lemma_embeds_refl(ov[i]@);
                        lemma_embeds_insert(ov[i]@, ov[i]@, pos as int, c);
                    } else {
                        assert(routes@[i] == ov[i]);
                        lemma_embeds_refl(ov[i]@);
                    }
                }
            }
        },
        None => {
            routes.push(vec![0, c, 0]);
            route_demand.push(ch.demands[c]);
            proof {
                lemma_single_route(*ch, c);
                assert(rv(routes@) =~= rs.push(single_route(c)));
                assert(rv(routes@).drop_last() =~= rs);
                assert(all_custs(rv(routes@)) =~= all_custs(rs).insert(c)) by {
                    broadcast use vstd::multiset::group_multiset_axioms;
                }
                assert(ch.route_ok(single_route(c)));
                assert forall|i: int| 0 <= i < ov.len() implies #[trigger] routes@[i]@ == ov[i]@ by {
                    assert(routes@[i] == ov[i]);
                }
                assert(routes@.last()@ =~= single_route(c));
                assert(rv(routes@) == rs.push(single_route(c)));
                assert forall|i: int| 0 <= i < ov.len() implies embeds(#[trigger] ov[i]@, routes@[i]@) by {
                    assert(routes@[i] == ov[i]);
                    lemma_embeds_refl(ov[i]@);
                }
            }
        },
    }
}

/// Greedy repair: shuffles the removed customers, then inserts each at its
/// cheapest time-feasible position over all routes with room (see
/// `cheapest_time_insertion`), or in a route of its own when there is none.
pub fn repair_greedy(routes: &mut Vec<Vec<usize>>, route_demand: &mut Vec<i32>, ch: &Challenge, rng: &mut XorshiftRng, removed: Vec<usize>)
    requires
        ch.wf(),
        forall|i: int| 0 <= i < old(routes)@.len() ==> ch.route_ok(#[trigger] old(routes)@[i]@),
        forall|k: int| 0 <= k < removed@.len() ==> 0 < #[trigger] removed@[k] < ch.num_nodes,
        old(route_demand)@.len() == old(routes)@.len(),
        forall|i: int| 0 <= i < old(route_demand)@.len() ==> #[trigger] old(route_demand)@[i] <= i32::MAX - VALUE_LIMIT,
        old(routes)@.len() + removed@.len() < usize::MAX,
        removed@.len() + 3 < usize::MAX,
        forall|i: int| 0 <= i < old(routes)@.len() ==> (#[trigger] old(routes)@[i]@).len() + removed@.len() < usize::MAX,
    ensures
        all_custs(rv(final(routes)@)) == all_custs(rv(old(routes)@)).add(removed@.to_multiset()),
        final(routes)@.len() >= old(routes)@.len(),
        final(route_demand)@.len() == final(routes)@.len(),
        forall|i: int| 0 <= i < final(routes)@.len() ==> ch.route_ok(#[trigger] final(routes)@[i]@),
        forall|i: int| 0 <= i < old(routes)@.len() ==> #[trigger] final(routes)@[i]@ == old(routes)@[i]@ || time_feasible(
            ch.distance_matrix@,
            ch.service_time as int,
            ch.ready_times@,
            ch.due_times@,
            final(routes)@[i]@,
        ),
        forall|i: int| 0 <= i < old(routes)@.len() ==> #[trigger] final(route_demand)@[i] - old(route_demand)@[i] == ch.load_of(final(routes)@[i]@) - ch.load_of(old(routes)@[i]@),
        forall|i: int| old(routes)@.len() <= i < final(routes)@.len() ==> #[trigger] final(route_demand)@[i] == ch.load_of(final(routes)@[i]@),
        forall|i: int| 0 <= i < old(routes)@.len() ==> #[trigger] final(routes)@[i]@ == old(routes)@[i]@ || final(route_demand)@[i] <= ch.max_capacity,
        forall|i: int| old(routes)@.len() <= i < final(routes)@.len() ==> (#[trigger] final(routes)@[i]@).len() == 3 || final(route_demand)@[i] <= ch.max_capacity,
        forall|i: int| 0 <= i < old(routes)@.len() ==> embeds(#[trigger] old(routes)@[i]@, final(routes)@[i]@),
        exists|order: Seq<usize>| order.to_multiset() == removed@.to_multiset()
            && #[trigger] greedy_run(*ch, rv(old(routes)@), old(route_demand)@, order, rv(final(routes)@)),
{
    let mut pending = removed;
    shuffle(&mut pending, rng);
    let ghost orig = rv(routes@);
    let ghost od = route_demand@;
    let ghost ov = routes@;
    let mut k: usize = 0;
    let ghost mut tr: Seq<(Seq<Seq<usize>>, Seq<i32>)> = seq![(rv(routes@), route_demand@)];
    proof {
        assert forall|i: int| 0 <= i < ov.len() implies embeds(#[trigger] ov[i]@, routes@[i]@) by {
            lemma_embeds_refl(ov[i]@);
        }
    }
    proof {
        assert(pending@.subrange(0, 0).to_multiset() =~= Multiset::<usize>::empty()) by {
            vstd::seq_lib::to_multiset_len(pending@.subrange(0, 0));
            vstd::multiset::lemma_multiset_empty_len(pending@.subrange(0, 0).to_multiset());
        }
        assert(all_custs(rv(routes@)) =~= all_custs(orig).add(pending@.subrange(0, 0).to_multiset())) by {
            broadcast use vstd::multiset::group_multiset_axioms;
        }
        assert forall|k2: int| 0 <= k2 < pending@.len() implies 0 < #[trigger] pending@[k2] < ch.num_nodes by {
            vstd::seq_lib::to_multiset_contains(pending@, pending@[k2]);
            vstd::seq_lib::to_multiset_contains(removed@, pending@[k2]);
            assert(pending@.contains(pending@[k2]));
            let w = choose|w: int| 0 <= w < removed@.len() && removed@[w] == pending@[k2];
        }
    }
    while k < pending.len()
        invariant
            ch.wf(),
            k <= pending@.len(),
            pending@.to_multiset() == removed@.to_multiset(),
            pending@.len() == removed@.len(),
            forall|k2: int| 0 <= k2 < pending@.len() ==> 0 < #[trigger] pending@[k2] < ch.num_nodes,
            orig == rv(ov),
            ov == old(routes)@,
            od == old(route_demand)@,
            ov.len() + pending@.len() < usize::MAX,
            pending@.len() + 3 < usize::MAX,
            forall|i: int| 0 <= i < ov.len() ==> (#[trigger] ov[i]@).len() + pending@.len() < usize::MAX,
            routes@.len() >= ov.len(),
            routes@.len() <= ov.len() + k,
            route_demand@.len() == routes@.len(),
            all_custs(rv(routes@)) == all_custs(orig).add(pending@.subrange(0, k as int).to_multiset()),
            forall|i: int| 0 <= i < routes@.len() ==> ch.route_ok(#[trigger] routes@[i]@),
            forall|i: int| 0 <= i < ov.len() ==> (#[trigger] routes@[i]@).len() <= ov[i]@.len() + k,
            forall|i: int| ov.len() <= i < routes@.len() ==> (#[trigger] routes@[i]@).len() <= 3 + k,
            forall|i: int| 0 <= i < route_demand@.len() ==> #[trigger] route_demand@[i] <= i32::MAX - VALUE_LIMIT,
            forall|i: int| 0 <= i < ov.len() ==> #[trigger] routes@[i]@ == ov[i]@ || time_feasible(
                ch.distance_matrix@,
                ch.service_time as int,
                ch.ready_times@,
                ch.due_times@,
                routes@[i]@,
            ),
            forall|i: int| 0 <= i < ov.len() ==> #[trigger] route_demand@[i] - od[i] == ch.load_of(routes@[i]@) - ch.load_of(ov[i]@),
            forall|i: int| ov.len() <= i < routes@.len() ==> #[trigger] route_demand@[i] == ch.load_of(routes@[i]@),
            forall|i: int| 0 <= i < ov.len() ==> #[trigger] routes@[i]@ == ov[i]@ || route_demand@[i] <= ch.max_capacity,
            forall|i: int| 0 <= i < ov.len() ==> embeds(#[trigger] ov[i]@, routes@[i]@),
            tr.len() == k + 1,
            tr[0] == (orig, od),
            tr.last() == (rv(routes@), route_demand@),
            forall|i: int| 0 <= i < k ==> #[trigger] greedy_link(*ch, tr, pending@, i),
            forall|i: int| ov.len() <= i < routes@.len() ==> (#[trigger] routes@[i]@).len() == 3 || route_demand@[i] <= ch.max_capacity,
        decreases pending.len() - k,
    {
        let c = pending[k];
        proof {
            assert forall|i: int| 0 <= i < routes@.len() implies ch.route_ok(#[trigger] routes@[i]@) && routes@[i]@.len() < usize::MAX by {
                if i < ov.len() {
                    assert(routes@[i]@.len() <= ov[i]@.len() + k);
                }
            }
            assert(in_limit(ch.demands@[c as int]));
        }
        let ghost pre = pending@.subrange(0, k as int);
        assert(pending@.subrange(0, k + 1) =~= pre.push(c));
        proof {
            vstd::seq_lib::to_multiset_build(pre, c);
        }
        let ghost pre_r = routes@;
        let ghost pre_d = route_demand@;
        greedy_place(routes, route_demand, ch, c);
        proof {
            let tr0 = tr;
            tr = tr.push((rv(routes@), route_demand@));
            assert forall|i: int| 0 <= i < k + 1 implies #[trigger] greedy_link(*ch, tr, pending@, i) by {
                if i < k {
                    assert(greedy_link(*ch, tr0, pending@, i));
                    assert(tr[i] == tr0[i] && tr[i + 1] == tr0[i + 1]);
                } else {
                    assert(tr[i] == (rv(pre_r), pre_d));
                }
            }
            assert forall|i: int| 0 <= i < ov.len() implies embeds(#[trigger] ov[i]@, routes@[i]@) by {
                lemma_embeds_trans(ov[i]@, pre_r[i]@, routes@[i]@);
            }
            assert(all_custs(rv(routes@)) =~= all_custs(orig).add(pending@.subrange(0, k + 1).to_multiset())) by {
                broadcast use vstd::multiset::group_multiset_axioms;
            }
            assert forall|i: int| 0 <= i < routes@.len() && i != pre_r.len() implies #[trigger] routes@[i]@ == pre_r[i]@ || (
                routes@[i]@.len() == pre_r[i]@.len() + 1
                && route_demand@[i] <= ch.max_capacity
                && time_feasible(
                    ch.distance_matrix@,
                    ch.service_time as int,
                    ch.ready_times@,
                    ch.due_times@,
                    routes@[i]@,
                )) by {
                assert(i < pre_r.len());
            }
            assert forall|i: int| 0 <= i < ov.len() implies #[trigger] route_demand@[i] - od[i] == ch.load_of(routes@[i]@) - ch.load_of(ov[i]@) by {
                assert(route_demand@[i] - pre_d[i] == ch.load_of(routes@[i]@) - ch.load_of(pre_r[i]@));
            }
            assert forall|i: int| ov.len() <= i < routes@.len() implies #[trigger] route_demand@[i] == ch.load_of(routes@[i]@) by {
                if i < pre_r.len() {
                    assert(route_demand@[i] - pre_d[i] == ch.load_of(routes@[i]@) - ch.load_of(pre_r[i]@));
                }
            }
            assert forall|i: int| ov.len() <= i < routes@.len() implies (#[trigger] routes@[i]@).len() == 3 || route_demand@[i] <= ch.max_capacity by {
                if i >= pre_r.len() {
                    assert(routes@[i]@ == routes@.last()@);
                }
            }
            assert forall|i: int| ov.len() <= i < routes@.len() implies (#[trigger] routes@[i]@).len() <= 3 + (k + 1) by {
                if i >= pre_r.len() {
                    assert(routes@[i]@ == routes@.last()@);
                }
            }
        }
        k += 1;
    }
    proof {
        assert(pending@.subrange(0, k as int) =~= pending@);
        assert(greedy_trace(*ch, tr, pending@, rv(old(routes)@), old(route_demand)@, rv(routes@)));
        assert(greedy_run(*ch, rv(old(routes)@), old(route_demand)@, pending@, rv(routes@)));
    }
}

/// Number of entries of `s` whose route is below `r`.
pub open spec fn count_below(s: Seq<(usize, usize)>, r: int) -> nat
    decreases s.len(),
{
    if s.len() == 0 {
        0
    } else {
        count_below(s.drop_last(), r) + if (s.last().0 as int) < r { 1nat } else { 0nat }
    }
}

/// The positions of the entries of `s` on route `r`, in order.
pub open spec fn positions_on(s: Seq<(usize, usize)>, r: usize) -> Seq<usize>
    decreases s.len(),
{
    if s.len() == 0 {
        Seq::empty()
    } else if s.last().0 == r {
        positions_on(s.drop_last(), r).push(s.last().1)
    } else {
        positions_on(s.drop_last(), r)
    }
}

proof fn lemma_count_below_step(s: Seq<(usize, usize)>, r: usize)
    ensures
        count_below(s, r + 1) == count_below(s, r as int) + positions_on(s, r).len(),
    decreases s.len(),
{
    if s.len() > 0 {
        lemma_count_below_step(s.drop_last(), r);
    }
}

proof fn lemma_count_below_all(s: Seq<(usize, usize)>, r: int)
    requires
        forall|k: int| 0 <= k < s.len() ==> (#[trigger] s[k].0 as int) < r,
    ensures
        count_below(s, r) == s.len(),
    decreases s.len(),
{
    if s.len() > 0 {
        assert(s.last() == s[s.len() - 1]);
        lemma_count_below_all(s.drop_last(), r);
    }
}

/// The positions on route `r` of entries without duplicates are distinct, and
/// lie in the range the entries' positions lie in.
proof fn lemma_positions_on(s: Seq<(usize, usize)>, r: usize)
    requires
        s.no_duplicates(),
    ensures
        positions_on(s, r).no_duplicates(),
        forall|k: int| 0 <= k < positions_on(s, r).len() ==> s.contains((r, #[trigger] positions_on(s, r)[k])),
    decreases s.len(),
{
    if s.len() > 0 {
        let t = s.drop_last();
        assert(t.no_duplicates());
        lemma_positions_on(t, r);
        let pt = positions_on(t, r);
        if s.last().0 == r {
            assert forall|a: int, b: int| 0 <= a < pt.len() + 1 && 0 <= b < pt.len() + 1 && a != b implies positions_on(s, r)[a] != positions_on(s, r)[b] by {
                if a < pt.len() && b < pt.len() {
                } else if a < pt.len() {
                    assert(t.contains((r, pt[a])));
                    let w = choose|w: int| 0 <= w < t.len() && t[w] == (r, pt[a]);
                    assert(s[w] == t[w]);
                    assert(s[s.len() - 1] == s.last());
                } else {
                    assert(t.contains((r, pt[b])));
                    let w = choose|w: int| 0 <= w < t.len() && t[w] == (r, pt[b]);
                    assert(s[w] == t[w]);
                    assert(s[s.len() - 1] == s.last());
                }
            }
        }
        assert forall|k: int| 0 <= k < positions_on(s, r).len() implies s.contains((r, #[trigger] positions_on(s, r)[k])) by {
            if k < pt.len() {
                let w = choose|w: int| 0 <= w < t.len() && t[w] == (r, pt[k]);
                assert(s[w] == t[w]);
            } else {
                assert(s[s.len() - 1] == s.last());
            }
        }
    }
}

/// Sorts positions in increasing order.
pub fn sort_positions(v: &mut Vec<usize>)
    ensures
        forall|a: int, b: int| 0 <= a < b < final(v)@.len() ==> #[trigger] final(v)@[a] <= #[trigger] final(v)@[b],
        final(v)@.to_multiset() == old(v)@.to_multiset(),
        final(v)@.len() == old(v)@.len(),
{
    let mut i: usize = 1;
    let ghost m = v@.to_multiset();
    while i < v.len()
        invariant
            v@.to_multiset() == m,
            v@.len() == old(v)@.len(),
            m == old(v)@.to_multiset(),
            v@.len() == 0 || 1 <= i <= v@.len(),
            forall|a: int, b: int| 0 <= a < b < i && b < v@.len() ==> #[trigger] v@[a] <= #[trigger] v@[b],
        decreases v.len() - i,
    {
        let mut j: usize = i;
        while j > 0 && v[j - 1] > v[j]
            invariant
                v@.to_multiset() == m,
                v@.len() == old(v)@.len(),
                1 <= i < v@.len(),
                j <= i,
                forall|a: int, b: int| 0 <= a < b < j ==> #[trigger] v@[a] <= #[trigger] v@[b],
                forall|a: int, b: int| j < a < b <= i ==> #[trigger] v@[a] <= #[trigger] v@[b],
                forall|a: int, b: int| 0 <= a < j && j < b <= i ==> #[trigger] v@[a] <= #[trigger] v@[b],
                forall|b: int| j < b <= i ==> v@[j as int] < #[trigger] v@[b],
            decreases j,
        {
            let x = v[j - 1];
            let y = v[j];
            proof {
                crate::destroy::lemma_swap_multiset(v@, j - 1, j as int);
            }
            v.set(j - 1, y);
            v.set(j, x);
            j -= 1;
        }
        i += 1;
    }
}

/// Strictly increasing.
pub open spec fn increasing(s: Seq<usize>) -> bool {
    forall|a: int, b: int| 0 <= a < b < s.len() ==> #[trigger] s[a] < #[trigger] s[b]
}

/// Removing a node takes its demand off the load.
proof fn lemma_load_remove(ch: Challenge, r: Seq<usize>, pos: int)
    requires
        0 <= pos < r.len(),
    ensures
        ch.load_of(r.remove(pos)) + ch.load_of(seq![r[pos]]) == ch.load_of(r),
{
    let a = r.subrange(0, pos);
    let b = r.subrange(pos + 1, r.len() as int);
    assert(r =~= a + seq![r[pos]] + b);
    assert(r.remove(pos) =~= a + b);
    lemma_load_concat(ch, a, b);
    lemma_load_concat(ch, a + seq![r[pos]], b);
    lemma_load_concat(ch, a, seq![r[pos]]);
}

/// Removes the nodes at positions `ps` (increasing, all inner) from `route`,
/// the last position first; returns the shortened route, the removed nodes in
/// removal order, and the demand they took.
pub fn remove_positions(route: &[usize], ps: &[usize], ch: &Challenge) -> (res: (Vec<usize>, Vec<usize>, i32))
    requires
        ch.wf(),
        ch.route_ok(route@),
        route@.len() <= crate::model::LEN_LIMIT,
        increasing(ps@),
        forall|k: int| 0 <= k < ps@.len() ==> 1 <= #[trigger] ps@[k] && ps@[k] + 2 <= route@.len(),
    ensures
        res.0@.len() + ps@.len() == route@.len(),
        res.1@.len() == ps@.len(),
        ch.route_ok(res.0@),
        custs(res.0@).add(custs(res.1@)) == custs(route@),
        ch.load_of(res.0@) + ch.load_of(res.1@) == ch.load_of(route@),
        proper(route@) ==> proper(res.0@) && forall|k: int| 0 <= k < res.1@.len() ==> #[trigger] res.1@[k] != 0,
        0 <= res.2 <= VALUE_LIMIT * ps@.len(),
        proper(route@) ==> res.2 == ch.load_of(res.1@),
{
    broadcast use vstd::multiset::group_multiset_axioms;
    let mut cur = copy_route(route);
    let mut taken: Vec<usize> = Vec::new();
    let mut dem: i32 = 0;
    let len0 = route.len();
    let l = ps.len();
    let mut t: usize = l;
    proof {
        assert(custs(taken@) =~= Multiset::<usize>::empty());
        assert(ch.load_of(taken@) == 0);
    }
    while t > 0
        invariant
            ch.wf(),
            ch.route_ok(route@),
            len0 == route@.len(),
            len0 <= crate::model::LEN_LIMIT,
            l == ps@.len(),
            increasing(ps@),
            forall|k: int| 0 <= k < ps@.len() ==> 1 <= #[trigger] ps@[k] && ps@[k] + 2 <= route@.len(),
            t <= l,
            cur@.len() == len0 - (l - t),
            taken@.len() == l - t,
            ch.route_ok(cur@),
            custs(cur@).add(custs(taken@)) == custs(route@),
            ch.load_of(cur@) + ch.load_of(taken@) == ch.load_of(route@),
            proper(route@) ==> proper(cur@) && forall|k: int| 0 <= k < taken@.len() ==> #[trigger] taken@[k] != 0,
            0 <= dem <= VALUE_LIMIT * (l - t),
            proper(route@) ==> dem == ch.load_of(taken@),
        decreases t,
    {
        let p = ps[t - 1];
        proof {
            assert forall|q: int| 0 <= q < l implies #[trigger] ps@[q] + (l - 1 - q) <= ps@[l - 1] by {
                lemma_increasing_gap(ps@, q);
            }
            assert(ps@[t - 1] + (l - t) <= ps@[l - 1]);
        }
        let ghost before = cur@;
        let ghost tb = taken@;
        let c = cur.remove(p);
        taken.push(c);
        proof {
            assert(c == before[p as int]);
            lemma_custs_remove(before, p as int);
            lemma_load_remove(*ch, before, p as int);
            assert(taken@ =~= tb + seq![c]);
            crate::model::lemma_custs_concat(tb, seq![c]);
            crate::model::lemma_custs_single(c);
            lemma_load_concat(*ch, tb, seq![c]);
            assert(ch.load_of(seq![c]) == ch.load_of(Seq::<usize>::empty()) + (if c == 0 { 0 } else { ch.demand(c) })) by {
                assert(seq![c].drop_last() =~= Seq::<usize>::empty());
            }
            assert(in_limit(ch.demands@[c as int]));
            assert forall|k: int| 0 <= k < cur@.len() implies (#[trigger] cur@[k] as int) < ch.num_nodes by {
                if k < p {
                    assert(cur@[k] == before[k]);
                } else {
                    assert(cur@[k] == before[k + 1]);
                }
            }
            if proper(route@) {
                assert(proper(before));
                crate::alns::lemma_remove_proper(before, p as int);
                assert(c != 0);
            }
        }
        dem = dem + ch.demands[c];
        t -= 1;
    }
    (cur, taken, dem)
}

/// In an increasing sequence each entry is at most the last minus its distance
/// from the end.
proof fn lemma_increasing_gap(s: Seq<usize>, q: int)
    requires
        increasing(s),
        0 <= q < s.len(),
    ensures
        s[q] + (s.len() - 1 - q) <= s[s.len() - 1],
    decreases s.len() - q,
{
    if q < s.len() - 1 {
        lemma_increasing_gap(s, q + 1);
        assert(s[q] < s[q + 1]);
    }
}

/// The inner positions of all routes, route by route, each in increasing order.
fn inner_positions(routes: &[Vec<usize>]) -> (res: Vec<(usize, usize)>)
    ensures
        res@.no_duplicates(),
        forall|k: int| 0 <= k < res@.len() ==> (#[trigger] res@[k]).0 < routes@.len() && 1 <= res@[k].1 && res@[k].1 + 2
            <= routes@[res@[k].0 as int]@.len(),
        res@.len() == crate::alns::inner_count(rv(routes@)),
{
    let ghost rs = rv(routes@);
    let mut out: Vec<(usize, usize)> = Vec::new();
    let mut r: usize = 0;
    assert(crate::alns::inner_count(rs.subrange(0, 0)) == 0);
    while r < routes.len()
        invariant
            rs == rv(routes@),
            r <= routes@.len(),
            forall|k: int| 0 <= k < out@.len() ==> (#[trigger] out@[k]).0 < r && 1 <= out@[k].1 && out@[k].1 + 2
                <= routes@[out@[k].0 as int]@.len(),
            forall|a: int, b: int| 0 <= a < b < out@.len() ==> (#[trigger] out@[a]).0 < (#[trigger] out@[b]).0
                || (out@[a].0 == out@[b].0 && out@[a].1 < out@[b].1),
            out@.len() == crate::alns::inner_count(rs.subrange(0, r as int)),
        decreases routes.len() - r,
    {
        let len = routes[r].len();
        assert(rs[r as int] == routes@[r as int]@);
        let ghost base = out@;
        let mut p: usize = 1;
        let last: usize = if len >= 2 { len - 1 } else { 1 };
        while p < last
            invariant
                r < routes@.len(),
                len == routes@[r as int]@.len(),
                last == (if len >= 2 { len - 1 } else { 1 }),
                1 <= p <= last,
                out@.len() == base.len() + (p - 1),
                forall|k: int| 0 <= k < base.len() ==> out@[k] == #[trigger] base[k],
                forall|k: int| base.len() <= k < out@.len() ==> (#[trigger] out@[k]).0 == r && out@[k].1 == k - base.len() + 1,
                forall|k: int| 0 <= k < base.len() ==> (#[trigger] base[k]).0 < r && 1 <= base[k].1 && base[k].1 + 2
                    <= routes@[base[k].0 as int]@.len(),
                forall|a: int, b: int| 0 <= a < b < base.len() ==> (#[trigger] base[a]).0 < (#[trigger] base[b]).0
                    || (base[a].0 == base[b].0 && base[a].1 < base[b].1),
            decreases len - p,
        {
            out.push((r, p));
            p += 1;
        }
        proof {
            assert(rs.subrange(0, r + 1).drop_last() =~= rs.subrange(0, r as int));
            assert(rs.subrange(0, r + 1).last() == rs[r as int]);
            assert forall|k: int| 0 <= k < out@.len() implies (#[trigger] out@[k]).0 < r + 1 && 1 <= out@[k].1 && out@[k].1 + 2
                <= routes@[out@[k].0 as int]@.len() by {
                if k < base.len() {
                    assert(out@[k] == base[k]);
                } else {
                    assert(out@[k].1 == k - base.len() + 1);
                    assert(k - base.len() + 1 <= p - 1);
                    assert(p == last);
                    assert(out@[k].0 == r);
                }
            }
            assert forall|a: int, b: int| 0 <= a < b < out@.len() implies (#[trigger] out@[a]).0 < (#[trigger] out@[b]).0
                || (out@[a].0 == out@[b].0 && out@[a].1 < out@[b].1) by {
                if b < base.len() {
                    assert(out@[a] == base[a] && out@[b] == base[b]);
                } else if a < base.len() {
                    assert(out@[a] == base[a]);
                }
            }
        }
        r += 1;
    }
    proof {
        assert(rs.subrange(0, r as int) =~= rs);
        assert forall|a: int, b: int| 0 <= a < out@.len() && 0 <= b < out@.len() && a != b implies out@[a] != out@[b] by {
            if a < b {
                assert(out@[a].0 < out@[b].0 || (out@[a].0 == out@[b].0 && out@[a].1 < out@[b].1));
            } else {
                assert(out@[b].0 < out@[a].0 || (out@[b].0 == out@[a].0 && out@[b].1 < out@[a].1));
            }
        }
    }
    out
}

/// The positions on route `r` among `s`, in order.
fn positions_on_route(s: &[(usize, usize)], r: usize) -> (res: Vec<usize>)
    ensures
        res@ == positions_on(s@, r),
{
    let mut out: Vec<usize> = Vec::new();
    let mut k: usize = 0;
    while k < s.len()
        invariant
            k <= s@.len(),
            out@ == positions_on(s@.subrange(0, k as int), r),
        decreases s.len() - k,
    {
        assert(s@.subrange(0, k + 1).drop_last() =~= s@.subrange(0, k as int));
        assert(s@.subrange(0, k + 1).last() == s@[k as int]);
        if s[k].0 == r {
            out.push(s[k].1);
        }
        k += 1;
    }
    assert(s@.subrange(0, k as int) =~= s@);
    out
}

/// Random removal: shuffles all inner positions of all routes, takes the first
/// `num_remove` of them (all when there are fewer), and removes those customers,
/// route by route, the last position of a route first.
pub fn destroy_random(routes: &mut Vec<Vec<usize>>, route_demand: &mut Vec<i32>, ch: &Challenge, rng: &mut XorshiftRng, num_remove: usize) -> (removed: Vec<usize>)
    requires
        ch.wf(),
        forall|i: int| 0 <= i < old(routes)@.len() ==> ch.route_ok(#[trigger] old(routes)@[i]@) && old(routes)@[i]@.len() <= crate::model::LEN_LIMIT,
        old(route_demand)@.len() == old(routes)@.len(),
        forall|i: int| 0 <= i < old(route_demand)@.len() ==> #[trigger] old(route_demand)@[i] >= i32::MIN + VALUE_LIMIT * old(routes)@[i]@.len(),
    ensures
        removed@.len() == if num_remove < crate::alns::inner_count(rv(old(routes)@)) { num_remove as int } else { crate::alns::inner_count(rv(old(routes)@)) },
        final(routes)@.len() == old(routes)@.len(),
        final(route_demand)@.len() == old(route_demand)@.len(),
        forall|i: int| 0 <= i < final(routes)@.len() ==> ch.route_ok(#[trigger] final(routes)@[i]@),
        crate::algorithm::all_proper(rv(old(routes)@)) ==> crate::algorithm::all_proper(rv(final(routes)@)) && all_custs(rv(final(routes)@)).add(removed@.to_multiset())
            == all_custs(rv(old(routes)@)),
        crate::algorithm::all_proper(rv(old(routes)@)) ==> forall|i: int| 0 <= i < final(routes)@.len() ==> #[trigger] final(route_demand)@[i] - old(route_demand)@[i]
            == ch.load_of(final(routes)@[i]@) - ch.load_of(old(routes)@[i]@),
{
    let mut positions = inner_positions(routes);
    if positions.len() == 0 {
        proof {
            vstd::seq_lib::to_multiset_len(Seq::<usize>::empty());
            vstd::multiset::lemma_multiset_empty_len(Seq::<usize>::empty().to_multiset());
            assert(all_custs(rv(routes@)).add(Seq::<usize>::empty().to_multiset()) =~= all_custs(rv(routes@))) by {
                broadcast use vstd::multiset::group_multiset_axioms;
            }
        }
        return Vec::new();
    }
    let ghost before_shuffle = positions@;
    shuffle(&mut positions, rng);
    proof {
        before_shuffle.lemma_multiset_has_no_duplicates();
        positions@.lemma_multiset_has_no_duplicates_conv();
        assert forall|k: int| 0 <= k < positions@.len() implies (#[trigger] positions@[k]).0 < routes@.len() && 1 <= positions@[k].1
            && positions@[k].1 + 2 <= routes@[positions@[k].0 as int]@.len() by {
            vstd::seq_lib::to_multiset_contains(positions@, positions@[k]);
            vstd::seq_lib::to_multiset_contains(before_shuffle, positions@[k]);
            assert(positions@.contains(positions@[k]));
            let w = choose|w: int| 0 <= w < before_shuffle.len() && before_shuffle[w] == positions@[k];
        }
    }
    let k = if num_remove < positions.len() { num_remove } else { positions.len() };
    positions.truncate(k);
    proof {
        assert forall|a: int, b: int| 0 <= a < positions@.len() && 0 <= b < positions@.len() && a != b implies positions@[a] != positions@[b] by {
        }
    }
    proof {
        assert(positions@.no_duplicates());
    }
    remove_picked(routes, route_demand, ch, &positions)
}

/// Removes the nodes at the picked places (distinct inner places `(route,
/// position)`), route by route, the last position of a route first, lowering
/// each route's recorded demand by what it loses; returns the removed nodes in
/// removal order.
pub fn remove_picked(routes: &mut Vec<Vec<usize>>, route_demand: &mut Vec<i32>, ch: &Challenge, positions: &Vec<(usize, usize)>) -> (removed: Vec<usize>)
    requires
        ch.wf(),
        forall|i: int| 0 <= i < old(routes)@.len() ==> ch.route_ok(#[trigger] old(routes)@[i]@) && old(routes)@[i]@.len() <= crate::model::LEN_LIMIT,
        old(route_demand)@.len() == old(routes)@.len(),
        forall|i: int| 0 <= i < old(route_demand)@.len() ==> #[trigger] old(route_demand)@[i] >= i32::MIN + VALUE_LIMIT * old(routes)@[i]@.len(),
        positions@.no_duplicates(),
        forall|q: int| 0 <= q < positions@.len() ==> (#[trigger] positions@[q]).0 < old(routes)@.len() && 1 <= positions@[q].1
            && positions@[q].1 + 2 <= old(routes)@[positions@[q].0 as int]@.len(),
    ensures
        removed@.len() == positions@.len(),
        final(routes)@.len() == old(routes)@.len(),
        final(route_demand)@.len() == old(route_demand)@.len(),
        forall|i: int| 0 <= i < final(routes)@.len() ==> ch.route_ok(#[trigger] final(routes)@[i]@),
        crate::algorithm::all_proper(rv(old(routes)@)) ==> crate::algorithm::all_proper(rv(final(routes)@)) && all_custs(rv(final(routes)@)).add(removed@.to_multiset())
            == all_custs(rv(old(routes)@)),
        crate::algorithm::all_proper(rv(old(routes)@)) ==> forall|i: int| 0 <= i < final(routes)@.len() ==> #[trigger] final(route_demand)@[i] - old(route_demand)@[i]
            == ch.load_of(final(routes)@[i]@) - ch.load_of(old(routes)@[i]@),
{
    let ghost orig = rv(routes@);
    let ghost ov = routes@;
    let ghost od = route_demand@;
    let mut removed: Vec<usize> = Vec::new();
    let mut r: usize = 0;
    proof {
        vstd::seq_lib::to_multiset_len(removed@);
        vstd::multiset::lemma_multiset_empty_len(removed@.to_multiset());
        assert(all_custs(rv(routes@)).add(removed@.to_multiset()) =~= all_custs(orig)) by {
            broadcast use vstd::multiset::group_multiset_axioms;
        }
        assert(count_below(positions@, 0) == 0) by {
            lemma_count_below_zero(positions@);
        }
    }
    while r < routes.len()
        invariant
            ch.wf(),
            ov == old(routes)@,
            od == old(route_demand)@,
            od.len() == ov.len(),
            orig == rv(ov),
            routes@.len() == ov.len(),
            route_demand@.len() == ov.len(),
            r <= routes@.len(),
            positions@.no_duplicates(),
            forall|q: int| 0 <= q < positions@.len() ==> (#[trigger] positions@[q]).0 < ov.len() && 1 <= positions@[q].1
                && positions@[q].1 + 2 <= ov[positions@[q].0 as int]@.len(),
            forall|i: int| 0 <= i < ov.len() ==> ch.route_ok(#[trigger] ov[i]@) && ov[i]@.len() <= crate::model::LEN_LIMIT,
            forall|i: int| 0 <= i < od.len() ==> #[trigger] od[i] >= i32::MIN + VALUE_LIMIT * ov[i]@.len(),
            forall|i: int| r <= i < routes@.len() ==> #[trigger] routes@[i] == ov[i] && route_demand@[i] == od[i],
            forall|i: int| 0 <= i < routes@.len() ==> ch.route_ok(#[trigger] routes@[i]@),
            removed@.len() == count_below(positions@, r as int),
            crate::algorithm::all_proper(orig) ==> all_custs(rv(routes@)).add(removed@.to_multiset()) == all_custs(orig),
            crate::algorithm::all_proper(orig) ==> crate::algorithm::all_proper(rv(routes@)),
            crate::algorithm::all_proper(orig) ==> forall|i: int| 0 <= i < r ==> #[trigger] route_demand@[i] - od[i] == ch.load_of(routes@[i]@) - ch.load_of(ov[i]@),
        decreases routes.len() - r,
    {
        let mut ps = positions_on_route(&positions, r);
        proof {
            lemma_positions_on(positions@, r);
            lemma_count_below_step(positions@, r);
        }
        let ghost ps0 = ps@;
        sort_positions(&mut ps);
        proof {
            ps0.lemma_multiset_has_no_duplicates();
            ps@.lemma_multiset_has_no_duplicates_conv();
            assert forall|q: int| 0 <= q < ps@.len() implies 1 <= #[trigger] ps@[q] && ps@[q] + 2 <= ov[r as int]@.len() by {
                vstd::seq_lib::to_multiset_contains(ps@, ps@[q]);
                vstd::seq_lib::to_multiset_contains(ps0, ps@[q]);
                assert(ps@.contains(ps@[q]));
                let w = choose|w: int| 0 <= w < ps0.len() && ps0[w] == ps@[q];
                assert(positions@.contains((r, ps0[w])));
                let w2 = choose|w2: int| 0 <= w2 < positions@.len() && positions@[w2] == (r, ps0[w]);
            }
            assert forall|a: int, b: int| 0 <= a < b < ps@.len() implies #[trigger] ps@[a] < #[trigger] ps@[b] by {
                assert(ps@[a] <= ps@[b]);
                assert(ps@[a] != ps@[b]);
            }
            assert(routes@[r as int] == ov[r as int]);
        }
        let (nr, taken, dem) = remove_positions(&routes[r], &ps, ch);
        let ghost rs = rv(routes@);
        let ghost prev_removed = removed@;
        let mut q: usize = 0;
        while q < taken.len()
            invariant
                q <= taken@.len(),
                removed@ == prev_removed + taken@.subrange(0, q as int),
            decreases taken.len() - q,
        {
            removed.push(taken[q]);
            q += 1;
            assert(removed@ =~= prev_removed + taken@.subrange(0, q as int));
        }
        assert(taken@.subrange(0, q as int) =~= taken@);
        proof {
            assert(ps@.len() <= ov[r as int]@.len());
            assert(VALUE_LIMIT * ps@.len() <= VALUE_LIMIT * ov[r as int]@.len()) by (nonlinear_arith)
                requires
                    ps@.len() <= ov[r as int]@.len(),
            ;
        }
        assert(routes@[r as int] == ov[r as int]);
        assert(route_demand@[r as int] == od[r as int]);
        assert(dem <= VALUE_LIMIT * ov[r as int]@.len());
        assert(od[r as int] >= i32::MIN + VALUE_LIMIT * ov[r as int]@.len());
        assert(route_demand@[r as int] - dem >= i32::MIN);
        let d = route_demand[r] - dem;
        let ghost prev = routes@;
        routes.set(r, nr);
        route_demand.set(r, d);
        proof {
            assert(rs[r as int] == ov[r as int]@);
            assert(rv(routes@) =~= rs.update(r as int, nr@));
            vstd::seq_lib::lemma_multiset_commutative(prev_removed, taken@);
            if crate::algorithm::all_proper(orig) {
                assert(crate::algorithm::all_proper(rs));
                assert(proper(ov[r as int]@));
                lemma_custs_nonzero(taken@);
                lemma_all_custs_update(rs, r as int, nr@);
                assert(all_custs(rv(routes@)).add(removed@.to_multiset()) =~= all_custs(orig)) by {
                    broadcast use vstd::multiset::group_multiset_axioms;
                    assert forall|x: usize| all_custs(rv(routes@)).add(removed@.to_multiset()).count(x) == all_custs(orig).count(x) by {
                        assert(all_custs(rv(routes@)).add(custs(ov[r as int]@)).count(x) == all_custs(rs).add(custs(nr@)).count(x));
                        assert(custs(nr@).add(custs(taken@)).count(x) == custs(ov[r as int]@).count(x));
                    }
                }
                assert forall|i: int| 0 <= i < rv(routes@).len() implies proper(#[trigger] rv(routes@)[i]) by {
                    if i != r {
                        assert(rv(routes@)[i] == rs[i]);
                    }
                }
                assert forall|i: int| 0 <= i < r + 1 implies #[trigger] route_demand@[i] - od[i] == ch.load_of(routes@[i]@) - ch.load_of(ov[i]@) by {
                    if i < r {
                        assert(routes@[i] == prev[i]);
                    }
                }
            }
            assert forall|i: int| 0 <= i < routes@.len() implies ch.route_ok(#[trigger] routes@[i]@) by {
                if i != r {
                    assert(routes@[i] == prev[i]);
                }
            }
            assert forall|i: int| r + 1 <= i < routes@.len() implies #[trigger] routes@[i] == ov[i] && route_demand@[i] == od[i] by {
                assert(routes@[i] == prev[i]);
                assert(prev[i] == ov[i]);
            }
        }
        r += 1;
    }
    proof {
        lemma_count_below_all(positions@, routes@.len() as int);
    }
    removed
}

proof fn lemma_count_below_zero(s: Seq<(usize, usize)>)
    ensures
        count_below(s, 0) == 0,
    decreases s.len(),
{
    if s.len() > 0 {
        lemma_count_below_zero(s.drop_last());
    }
}

/// A sequence of customers is its own customer multiset.
pub proof fn lemma_custs_nonzero(s: Seq<usize>)
    requires
        forall|k: int| 0 <= k < s.len() ==> #[trigger] s[k] != 0,
    ensures
        custs(s) == s.to_multiset(),
    decreases s.len(),
{
    broadcast use vstd::multiset::group_multiset_axioms;
    if s.len() > 0 {
        lemma_custs_nonzero(s.drop_last());
        assert(s =~= s.drop_last().push(s.last()));
        vstd::seq_lib::to_multiset_build(s.drop_last(), s.last());
        assert(s.last() == s[s.len() - 1]);
        assert(cust1(s.last()) =~= Multiset::singleton(s.last()));
        assert(custs(s) =~= s.to_multiset());
    } else {
        vstd::seq_lib::to_multiset_len(s);
        vstd::multiset::lemma_multiset_empty_len(s.to_multiset());
    }
}

} // verus!
