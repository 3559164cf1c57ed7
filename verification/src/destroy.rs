//! Destroy operators of the large neighbourhood search: each picks customers to
//! take out of the current routes.
use vstd::prelude::*;
use vstd::multiset::Multiset;
use crate::model::{all_custs, custs, cust1, rv, nodes_below, dd, dm_ok, in_limit};
use crate::algorithm::{rand_lcg, lcg_next, lcg_pick, rand_index};
use crate::construct::nonzero;

verus! {

/// The customers of all routes, route after route, each in route order.
pub open spec fn customer_list(rs: Seq<Seq<usize>>) -> Seq<usize>
    decreases rs.len(),
{
    if rs.len() == 0 {
        Seq::empty()
    } else {
        customer_list(rs.drop_last()) + nonzero(rs.last())
    }
}

/// The customers (non-depot nodes) of all routes, in route order.
pub fn collect_customers(routes: &[Vec<usize>]) -> (res: Vec<usize>)
    ensures
        res@.to_multiset() == all_custs(rv(routes@)),
        forall|k: int| 0 <= k < res@.len() ==> #[trigger] res@[k] != 0,
        res@ == customer_list(rv(routes@)),
{
    broadcast use vstd::multiset::group_multiset_axioms;
    broadcast use vstd::seq_lib::to_multiset_build;
    let ghost rs = rv(routes@);
    let mut out: Vec<usize> = Vec::new();
    let mut ri: usize = 0;
    proof {
        assert(rs.subrange(0, 0).len() == 0);
        vstd::seq_lib::to_multiset_len(out@);
        vstd::multiset::lemma_multiset_empty_len(out@.to_multiset());
        assert(out@.to_multiset() =~= Multiset::<usize>::empty());
    }
    while ri < routes.len()
        invariant
            rs == rv(routes@),
            ri <= routes@.len(),
            out@.to_multiset() == all_custs(rs.subrange(0, ri as int)),
            forall|k: int| 0 <= k < out@.len() ==> #[trigger] out@[k] != 0,
            out@ == customer_list(rs.subrange(0, ri as int)),
        decreases routes.len() - ri,
    {
        let route = &routes[ri];
        assert(rs[ri as int] == route@);
        let mut k: usize = 0;
        proof {
            assert(route@.subrange(0, 0).len() == 0);
            assert(custs(route@.subrange(0, 0)) =~= Multiset::<usize>::empty());
        }
        while k < route.len()
            invariant
                rs == rv(routes@),
                ri < routes@.len(),
                route@ == rs[ri as int],
                k <= route@.len(),
                out@.to_multiset() == all_custs(rs.subrange(0, ri as int)).add(custs(route@.subrange(0, k as int))),
                forall|j: int| 0 <= j < out@.len() ==> #[trigger] out@[j] != 0,
                out@ == customer_list(rs.subrange(0, ri as int)) + nonzero(route@.subrange(0, k as int)),
            decreases route.len() - k,
        {
            let x = route[k];
            assert(route@.subrange(0, k + 1).drop_last() =~= route@.subrange(0, k as int));
            assert(route@.subrange(0, k + 1).last() == x);
            let ghost before = out@;
            if x != 0 {
                out.push(x);
                proof {
                    assert(out@ == before.push(x));
                    vstd::seq_lib::to_multiset_build(before, x);
                    assert(out@ =~= customer_list(rs.subrange(0, ri as int)) + nonzero(route@.subrange(0, k + 1)));
                }
            } else {
                assert(cust1(x) =~= Multiset::<usize>::empty());
                assert(out@ =~= customer_list(rs.subrange(0, ri as int)) + nonzero(route@.subrange(0, k + 1)));
            }
            k += 1;
            assert(out@.to_multiset() =~= all_custs(rs.subrange(0, ri as int)).add(custs(route@.subrange(0, k as int))));
        }
        assert(route@.subrange(0, k as int) =~= route@);
        assert(rs.subrange(0, ri + 1).drop_last() =~= rs.subrange(0, ri as int));
        assert(rs.subrange(0, ri + 1).last() == rs[ri as int]);
        assert(out@ == customer_list(rs.subrange(0, ri + 1)));
        ri += 1;
    }
    assert(rs.subrange(0, ri as int) =~= rs);
    out
}

/// Swapping two entries keeps the multiset of a sequence.
pub proof fn lemma_swap_multiset<A>(s: Seq<A>, i: int, j: int)
    requires
        0 <= i < s.len(),
        0 <= j < s.len(),
    ensures
        s.update(i, s[j]).update(j, s[i]).to_multiset() == s.to_multiset(),
{
    broadcast use vstd::multiset::group_multiset_axioms;
    let u = s.update(i, s[j]);
    if i == j {
        assert(u.update(j, s[i]) =~= s);
    } else {
        vstd::seq_lib::to_multiset_update(s, i, s[j]);
        vstd::seq_lib::to_multiset_update(u, j, s[i]);
        assert(u[j] == s[j]);
        let m = s.to_multiset();
        assert(m.count(s[i]) >= 1) by {
            vstd::seq_lib::to_multiset_contains(s, s[i]);
            assert(s.contains(s[i]));
        }
        assert(u.update(j, s[i]).to_multiset() =~= m);
    }
}

/// Steps `i` to `lim` of a partial Fisher-Yates shuffle of `s` from generator
/// state `st`: entry `i` trades places with entry `i + j`, `j` drawn below the
/// number of entries from `i` on. The shuffled entries and the final state.
pub open spec fn partial_shuffle(s: Seq<usize>, i: nat, lim: nat, st: u64) -> (Seq<usize>, u64)
    decreases lim - i,
{
    if i >= lim || i >= s.len() {
        (s, st)
    } else {
        let j = i + lcg_pick(st, s.len() - i);
        partial_shuffle(s.update(i as int, s[j]).update(j, s[i as int]), i + 1, lim, lcg_next(st))
    }
}

/// Removes up to `count` customers chosen uniformly at random (a partial
/// Fisher-Yates shuffle of all customers).
pub fn random_removal(routes: &[Vec<usize>], count: usize, rng: &mut u64) -> (out: Vec<usize>)
    ensures
        out@.len() == if count <= all_custs(rv(routes@)).len() { count as int } else { all_custs(rv(routes@)).len() as int },
        out@.to_multiset().subset_of(all_custs(rv(routes@))),
        forall|k: int| 0 <= k < out@.len() ==> #[trigger] out@[k] != 0,
        ({
            let res = partial_shuffle(customer_list(rv(routes@)), 0, count as nat, *old(rng));
            out@ == res.0.subrange(0, out@.len() as int) && *final(rng) == res.1
        }),
{
    let ghost st0 = *rng;
    broadcast use vstd::multiset::group_multiset_axioms;
    broadcast use vstd::seq_lib::to_multiset_len;
    let mut custs = collect_customers(routes);
    let ghost m = custs@.to_multiset();
    let mut out: Vec<usize> = Vec::new();
    let lim = if count < custs.len() { count } else { custs.len() };
    let mut i: usize = 0;
    while i < lim
        invariant
            lim <= custs@.len(),
            i <= lim,
            custs@.to_multiset() == m,
            m == all_custs(rv(routes@)),
            out@ == custs@.subrange(0, i as int),
            forall|k: int| 0 <= k < custs@.len() ==> #[trigger] custs@[k] != 0,
            lim == (if count <= custs@.len() { count } else { custs@.len() as usize }),
            partial_shuffle(custs@, i as nat, count as nat, *rng) == partial_shuffle(customer_list(rv(routes@)), 0, count as nat, st0),
        decreases lim - i,
    {
        let ghost pre = custs@;
        let ghost sti = *rng;
        let j = i + (rand_lcg(rng) as usize) % (custs.len() - i);
        let a = custs[i];
        let b = custs[j];
        proof {
            lemma_swap_multiset(custs@, i as int, j as int);
        }
        custs.set(i, b);
        custs.set(j, a);
        proof {
            assert(j == i + lcg_pick(sti, pre.len() - i));
            assert(custs@ =~= pre.update(i as int, pre[j as int]).update(j as int, pre[i as int]));
            assert(partial_shuffle(pre, i as nat, count as nat, sti) == partial_shuffle(custs@, (i + 1) as nat, count as nat, *rng));
        }
        out.push(custs[i]);
        i += 1;
        assert(out@ =~= custs@.subrange(0, i as int));
    }
    proof {
        assert(partial_shuffle(custs@, i as nat, count as nat, *rng) == (custs@, *rng));
    }
    proof {
        let rest = custs@.subrange(i as int, custs@.len() as int);
        assert(custs@ =~= out@ + rest);
        vstd::seq_lib::lemma_multiset_commutative(out@, rest);
        assert(out@.to_multiset().subset_of(m));
        assert(m.len() == custs@.len());
    }
    out
}


/// The customers of the routes flagged in `used`.
pub open spec fn picked(rs: Seq<Seq<usize>>, used: Seq<bool>) -> Multiset<usize>
    decreases rs.len(),
{
    if rs.len() == 0 || used.len() == 0 {
        Multiset::empty()
    } else {
        picked(rs.drop_last(), used.drop_last()).add(
            if used.last() { custs(rs.last()) } else { Multiset::empty() },
        )
    }
}

/// Number of `false` entries.
pub open spec fn count_false(s: Seq<bool>) -> nat
    decreases s.len(),
{
    if s.len() == 0 {
        0
    } else {
        count_false(s.drop_last()) + if s.last() { 0nat } else { 1nat }
    }
}

/// Setting a `false` flag lowers the number of `false` entries by one.
pub proof fn lemma_count_false_flip(s: Seq<bool>, i: int)
    requires
        0 <= i < s.len(),
        !s[i],
    ensures
        count_false(s.update(i, true)) + 1 == count_false(s),
    decreases s.len(),
{
    if i == s.len() - 1 {
        assert(s.update(i, true).drop_last() =~= s.drop_last());
    } else {
        assert(s.update(i, true).drop_last() =~= s.drop_last().update(i, true));
        lemma_count_false_flip(s.drop_last(), i);
    }
}

/// Flagging one more route adds its customers.
pub proof fn lemma_picked_flag(rs: Seq<Seq<usize>>, used: Seq<bool>, i: int)
    requires
        used.len() == rs.len(),
        0 <= i < rs.len(),
        !used[i],
    ensures
        picked(rs, used.update(i, true)) == picked(rs, used).add(custs(rs[i])),
    decreases rs.len(),
{
    broadcast use vstd::multiset::group_multiset_axioms;
    if i == rs.len() - 1 {
        assert(used.update(i, true).drop_last() =~= used.drop_last());
    } else {
        assert(used.update(i, true).drop_last() =~= used.drop_last().update(i, true));
        assert(rs.drop_last()[i] == rs[i]);
        lemma_picked_flag(rs.drop_last(), used.drop_last(), i);
    }
}

/// The flagged customers lie among all customers; no flag picks none, all flags
/// pick all.
pub proof fn lemma_picked_bounds(rs: Seq<Seq<usize>>, used: Seq<bool>)
    requires
        used.len() == rs.len(),
    ensures
        picked(rs, used).subset_of(all_custs(rs)),
        (forall|k: int| 0 <= k < used.len() ==> !#[trigger] used[k]) ==> picked(rs, used) =~= Multiset::<usize>::empty(),
        (forall|k: int| 0 <= k < used.len() ==> #[trigger] used[k]) ==> picked(rs, used) == all_custs(rs),
    decreases rs.len(),
{
    broadcast use vstd::multiset::group_multiset_axioms;
    if rs.len() > 0 {
        lemma_picked_bounds(rs.drop_last(), used.drop_last());
        if forall|k: int| 0 <= k < used.len() ==> !#[trigger] used[k] {
            assert(!used.last());
            assert forall|k: int| 0 <= k < used.drop_last().len() implies !#[trigger] used.drop_last()[k] by {
                assert(!used[k]);
            }
        }
        if forall|k: int| 0 <= k < used.len() ==> #[trigger] used[k] {
            assert(used.last());
            assert forall|k: int| 0 <= k < used.drop_last().len() implies #[trigger] used.drop_last()[k] by {
                assert(used[k]);
            }
        }
    }
}

/// Appends the customers of `route` to `out`, in route order.
fn append_customers(out: &mut Vec<usize>, route: &[usize])
    ensures
        final(out)@.to_multiset() == old(out)@.to_multiset().add(custs(route@)),
        final(out)@.subrange(0, old(out)@.len() as int) == old(out)@,
        final(out)@.len() >= old(out)@.len(),
        forall|k: int| old(out)@.len() <= k < final(out)@.len() ==> #[trigger] final(out)@[k] != 0,
        final(out)@ == old(out)@ + nonzero(route@),
{
    broadcast use vstd::multiset::group_multiset_axioms;
    let ghost start = out@;
    assert(route@.subrange(0, 0) =~= Seq::<usize>::empty());
    assert(out@ =~= start + nonzero(route@.subrange(0, 0)));
    let mut k: usize = 0;
    proof {
        assert(custs(route@.subrange(0, 0)) =~= Multiset::<usize>::empty());
        assert(out@.subrange(0, start.len() as int) =~= start);
    }
    while k < route.len()
        invariant
            k <= route@.len(),
            out@.len() >= start.len(),
            out@.subrange(0, start.len() as int) == start,
            out@.to_multiset() == start.to_multiset().add(custs(route@.subrange(0, k as int))),
            forall|j: int| start.len() <= j < out@.len() ==> #[trigger] out@[j] != 0,
            out@ == start + nonzero(route@.subrange(0, k as int)),
        decreases route.len() - k,
    {
        let x = route[k];
        assert(route@.subrange(0, k + 1).drop_last() =~= route@.subrange(0, k as int));
        assert(route@.subrange(0, k + 1).last() == x);
        let ghost before = out@;
        if x != 0 {
            out.push(x);
            proof {
                assert(out@ =~= start + nonzero(route@.subrange(0, k + 1)));
                vstd::seq_lib::to_multiset_build(before, x);
                assert(out@.subrange(0, start.len() as int) =~= before.subrange(0, start.len() as int));
            }
        } else {
            assert(cust1(x) =~= Multiset::<usize>::empty());
            assert(out@ =~= start + nonzero(route@.subrange(0, k + 1)));
        }
        k += 1;
        assert(out@.to_multiset() =~= start.to_multiset().add(custs(route@.subrange(0, k as int))));
    }
    assert(route@.subrange(0, k as int) =~= route@);
}

/// The indices whose flag is not set.
fn unset_indices(flags: &[bool]) -> (res: Vec<usize>)
    ensures
        forall|k: int| 0 <= k < res@.len() ==> (#[trigger] res@[k] as int) < flags@.len() && !flags@[res@[k] as int],
        forall|j: int| 0 <= j < flags@.len() && !flags@[j] ==> res@.contains(j as usize),
{
    let mut out: Vec<usize> = Vec::new();
    let mut i: usize = 0;
    while i < flags.len()
        invariant
            i <= flags@.len(),
            forall|k: int| 0 <= k < out@.len() ==> (#[trigger] out@[k] as int) < flags@.len() && !flags@[out@[k] as int],
            forall|j: int| 0 <= j < i && !flags@[j] ==> out@.contains(j as usize),
        decreases flags.len() - i,
    {
        if !flags[i] {
            let ghost before = out@;
            out.push(i);
            proof {
                assert forall|j: int| 0 <= j < i + 1 && !flags@[j] implies out@.contains(j as usize) by {
                    if j < i {
                        let w = choose|w: int| 0 <= w < before.len() && before[w] == j as usize;
                        assert(out@[w] == j as usize);
                    } else {
                        assert(out@[out@.len() - 1] == i);
                    }
                }
            }
        }
        i += 1;
    }
    out
}

/// Flags route `ri` and appends its customers.
fn take_route(out: &mut Vec<usize>, used: &mut Vec<bool>, routes: &[Vec<usize>], ri: usize)
    requires
        old(used)@.len() == routes@.len(),
        ri < routes@.len(),
        !old(used)@[ri as int],
        old(out)@.to_multiset() == picked(rv(routes@), old(used)@),
        forall|k: int| 0 <= k < old(out)@.len() ==> #[trigger] old(out)@[k] != 0,
    ensures
        final(used)@ == old(used)@.update(ri as int, true),
        final(out)@.to_multiset() == picked(rv(routes@), final(used)@),
        forall|k: int| 0 <= k < final(out)@.len() ==> #[trigger] final(out)@[k] != 0,
        count_false(final(used)@) < count_false(old(used)@),
        final(out)@ == old(out)@ + nonzero(routes@[ri as int]@),
{
    proof {
        lemma_picked_flag(rv(routes@), used@, ri as int);
        lemma_count_false_flip(used@, ri as int);
        assert(rv(routes@)[ri as int] == routes@[ri as int]@);
    }
    used.set(ri, true);
    let ghost before = out@;
    append_customers(out, &routes[ri]);
    assert forall|k: int| 0 <= k < out@.len() implies #[trigger] out@[k] != 0 by {
        if k < before.len() {
            assert(out@.subrange(0, before.len() as int)[k] == before[k]);
        }
    }
}

/// The customers of the routes that `order` picks, route after route, each in
/// route order.
pub open spec fn flat_custs(rs: Seq<Seq<usize>>, order: Seq<usize>) -> Seq<usize>
    decreases order.len(),
{
    if order.len() == 0 {
        Seq::empty()
    } else {
        flat_custs(rs, order.drop_last()) + nonzero(rs[order.last() as int])
    }
}

/// Removes whole routes, drawn at random, until at least `target_count`
/// customers are out or every route is taken.
pub fn route_removal(routes: &[Vec<usize>], target_count: usize, rng: &mut u64) -> (out: Vec<usize>)
    ensures
        out@.to_multiset().subset_of(all_custs(rv(routes@))),
        out@.len() < target_count ==> out@.to_multiset() == all_custs(rv(routes@)),
        forall|k: int| 0 <= k < out@.len() ==> #[trigger] out@[k] != 0,
        exists|taken: Seq<bool>| taken.len() == routes@.len() && #[trigger] picked(rv(routes@), taken) == out@.to_multiset()
            && (out@.len() < target_count ==> forall|k: int| 0 <= k < taken.len() ==> #[trigger] taken[k]),
        exists|order: Seq<usize>| #[trigger] flat_custs(rv(routes@), order) == out@ && order.no_duplicates()
            && (forall|j: int| 0 <= j < order.len() ==> (#[trigger] order[j] as int) < routes@.len())
            && (out@.len() < target_count ==> forall|r: int| 0 <= r < routes@.len() ==> #[trigger] order.contains(r as usize)),
{
    let ghost rs = rv(routes@);
    let mut out: Vec<usize> = Vec::new();
    proof {
        vstd::seq_lib::to_multiset_len(out@);
        vstd::multiset::lemma_multiset_empty_len(out@.to_multiset());
    }
    if routes.len() == 0 {
        assert(all_custs(rs) =~= Multiset::<usize>::empty());
        assert(out@.to_multiset().subset_of(all_custs(rs))) by {
            broadcast use vstd::multiset::group_multiset_axioms;
        }
        assert(picked(rs, Seq::<bool>::empty()) == out@.to_multiset());
        assert(flat_custs(rs, Seq::<usize>::empty()) =~= out@);
        return out;
    }
    let mut used: Vec<bool> = Vec::new();
    while used.len() < routes.len()
        invariant
            used@.len() <= routes@.len(),
            forall|k: int| 0 <= k < used@.len() ==> !#[trigger] used@[k],
        decreases routes.len() - used.len(),
    {
        used.push(false);
    }
    let ghost mut order: Seq<usize> = Seq::empty();
    proof {
        lemma_picked_bounds(rs, used@);
        assert(flat_custs(rs, order) =~= out@);
    }
    while out.len() < target_count
        invariant
            rs == rv(routes@),
            used@.len() == routes@.len(),
            out@.to_multiset() == picked(rs, used@),
            forall|k: int| 0 <= k < out@.len() ==> #[trigger] out@[k] != 0,
            flat_custs(rs, order) == out@,
            order.no_duplicates(),
            forall|j: int| 0 <= j < order.len() ==> (#[trigger] order[j] as int) < used@.len() && used@[order[j] as int],
            forall|r: int| 0 <= r < used@.len() && used@[r] ==> #[trigger] order.contains(r as usize),
        ensures
            flat_custs(rs, order) == out@,
            order.no_duplicates(),
            forall|j: int| 0 <= j < order.len() ==> (#[trigger] order[j] as int) < used@.len(),
            forall|r: int| 0 <= r < used@.len() && used@[r] ==> #[trigger] order.contains(r as usize),
            out@.to_multiset() == picked(rs, used@),
            forall|k: int| 0 <= k < out@.len() ==> #[trigger] out@[k] != 0,
            used@.len() == routes@.len(),
            out@.len() < target_count ==> forall|k: int| 0 <= k < used@.len() ==> #[trigger] used@[k],
        decreases count_false(used@),
    {
        let avail = unset_indices(&used);
        if avail.len() == 0 {
            assert forall|k: int| 0 <= k < used@.len() implies #[trigger] used@[k] by {
                if !used@[k] {
                    assert(avail@.contains(k as usize));
                }
            }
            break;
        }
        let ri = avail[rand_index(rng, avail.len())];
        let ghost out0 = out@;
        let ghost used0 = used@;
        take_route(&mut out, &mut used, routes, ri);
        proof {
            let o0 = order;
            order = order.push(ri);
            assert(order.drop_last() =~= o0);
            assert(rs[ri as int] == routes@[ri as int]@);
            assert(flat_custs(rs, order) =~= out@);
            assert(!o0.contains(ri)) by {
                if o0.contains(ri) {
                    let j = choose|j: int| 0 <= j < o0.len() && o0[j] == ri;
                    assert(used0[o0[j] as int]);
                }
            }
            assert forall|j: int| 0 <= j < order.len() implies (#[trigger] order[j] as int) < used@.len() && used@[order[j] as int] by {
                if j < o0.len() {
                    assert(order[j] == o0[j]);
                }
            }
            assert forall|r: int| 0 <= r < used@.len() && used@[r] implies #[trigger] order.contains(r as usize) by {
                if r == ri as int {
                    assert(order[o0.len() as int] == ri);
                } else {
                    assert(used0[r]);
                    assert(o0.contains(r as usize));
                    let j = choose|j: int| 0 <= j < o0.len() && o0[j] == r as usize;
                    assert(order[j] == o0[j]);
                    assert(order.contains(r as usize));
                }
            }
            assert forall|a: int, b: int| 0 <= a < b < order.len() implies order[a] != order[b] by {
                if b == o0.len() {
                    assert(order[a] == o0[a]);
                    assert(o0.contains(o0[a]));
                } else {
                    assert(order[a] == o0[a] && order[b] == o0[b]);
                }
            }
        }
    }
    proof {
        lemma_picked_bounds(rs, used@);
        assert(picked(rv(routes@), used@) == out@.to_multiset());
        assert(flat_custs(rv(routes@), order) == out@);
    }
    out
}

/// Every customer of a route list whose nodes lie below `b` lies below `b`.
pub proof fn lemma_all_custs_below(rs: Seq<Seq<usize>>, b: int)
    requires
        forall|i: int| 0 <= i < rs.len() ==> nodes_below(#[trigger] rs[i], b),
    ensures
        forall|x: usize| all_custs(rs).count(x) > 0 ==> (x as int) < b,
    decreases rs.len(),
{
    broadcast use vstd::multiset::group_multiset_axioms;
    if rs.len() > 0 {
        lemma_all_custs_below(rs.drop_last(), b);
        lemma_custs_below(rs.last(), b);
        assert forall|x: usize| all_custs(rs).count(x) > 0 implies (x as int) < b by {
            assert(all_custs(rs).count(x) == all_custs(rs.drop_last()).count(x) + custs(rs.last()).count(x));
        }
    }
}

proof fn lemma_custs_below(r: Seq<usize>, b: int)
    requires
        nodes_below(r, b),
    ensures
        forall|x: usize| custs(r).count(x) > 0 ==> (x as int) < b,
    decreases r.len(),
{
    broadcast use vstd::multiset::group_multiset_axioms;
    if r.len() > 0 {
        assert(nodes_below(r.drop_last(), b));
        lemma_custs_below(r.drop_last(), b);
        assert(r.last() == r[r.len() - 1]);
        assert forall|x: usize| custs(r).count(x) > 0 implies (x as int) < b by {
            assert(custs(r).count(x) == custs(r.drop_last()).count(x) + cust1(r.last()).count(x));
            if cust1(r.last()).count(x) > 0 {
                assert(x == r.last());
            }
        }
    }
}

/// Flags of the nodes below `n` that occur in `s`.
fn occurrence_flags(s: &[usize], n: usize) -> (flags: Vec<bool>)
    requires
        nodes_below(s@, n as int),
    ensures
        flags@.len() == n,
        forall|c: int| 0 <= c < n ==> (#[trigger] flags@[c] <==> s@.contains(c as usize)),
{
    let mut flags: Vec<bool> = Vec::new();
    while flags.len() < n
        invariant
            flags@.len() <= n,
            forall|c: int| 0 <= c < flags@.len() ==> !#[trigger] flags@[c],
        decreases n - flags.len(),
    {
        flags.push(false);
    }
    let mut i: usize = 0;
    while i < s.len()
        invariant
            i <= s@.len(),
            nodes_below(s@, n as int),
            flags@.len() == n,
            forall|c: int| 0 <= c < n ==> (#[trigger] flags@[c] <==> s@.subrange(0, i as int).contains(c as usize)),
        decreases s.len() - i,
    {
        let x = s[i];
        flags.set(x, true);
        proof {
            assert forall|c: int| 0 <= c < n implies (#[trigger] flags@[c] <==> s@.subrange(0, i + 1).contains(c as usize)) by {
                let a = s@.subrange(0, i as int);
                let b = s@.subrange(0, i + 1);
                if a.contains(c as usize) {
                    let w = choose|w: int| 0 <= w < a.len() && #[trigger] a[w] == c as usize;
                    assert(b[w] == c as usize);
                }
                if b.contains(c as usize) {
                    let w = choose|w: int| 0 <= w < b.len() && #[trigger] b[w] == c as usize;
                    if w < i {
                        assert(a[w] == c as usize);
                    }
                }
                if c == x as int {
                    assert(s@.subrange(0, i + 1)[i as int] == x);
                }
            }
        }
        i += 1;
    }
    assert(s@.subrange(0, i as int) =~= s@);
    flags
}

/// The entries of `s` that do not occur in `out`, in order.
pub open spec fn not_in(s: Seq<usize>, out: Seq<usize>) -> Seq<usize>
    decreases s.len(),
{
    if s.len() == 0 {
        s
    } else if out.contains(s.last()) {
        not_in(s.drop_last(), out)
    } else {
        not_in(s.drop_last(), out).push(s.last())
    }
}

/// The entries of `s` whose flag is not set, in order.
pub open spec fn unflagged_of(s: Seq<usize>, flags: Seq<bool>) -> Seq<usize>
    decreases s.len(),
{
    if s.len() == 0 {
        s
    } else if flags[s.last() as int] {
        unflagged_of(s.drop_last(), flags)
    } else {
        unflagged_of(s.drop_last(), flags).push(s.last())
    }
}

/// With the flags of the nodes of `out`, the unflagged entries are those not in `out`.
proof fn lemma_unflagged_not_in(s: Seq<usize>, out: Seq<usize>, flags: Seq<bool>)
    requires
        taken_state(out, flags),
        nodes_below(s, flags.len() as int),
    ensures
        unflagged_of(s, flags) == not_in(s, out),
    decreases s.len(),
{
    if s.len() > 0 {
        assert(nodes_below(s.drop_last(), flags.len() as int));
        lemma_unflagged_not_in(s.drop_last(), out, flags);
        assert((s.last() as int) < flags.len());
    }
}

/// The entries of `not_in(s, out)` are entries of `s` missing from `out`, and
/// every such entry is there.
proof fn lemma_not_in(s: Seq<usize>, out: Seq<usize>)
    ensures
        forall|k: int| 0 <= k < not_in(s, out).len() ==> s.contains(#[trigger] not_in(s, out)[k]) && !out.contains(not_in(s, out)[k]),
        forall|k: int| 0 <= k < s.len() && !out.contains(#[trigger] s[k]) ==> not_in(s, out).contains(s[k]),
    decreases s.len(),
{
    if s.len() > 0 {
        let d = s.drop_last();
        lemma_not_in(d, out);
        let r = not_in(s, out);
        assert forall|k: int| 0 <= k < r.len() implies s.contains(#[trigger] r[k]) && !out.contains(r[k]) by {
            if k < not_in(d, out).len() {
                assert(r[k] == not_in(d, out)[k]);
                let w = choose|w: int| 0 <= w < d.len() && d[w] == r[k];
                assert(s[w] == r[k]);
            } else {
                assert(r[k] == s.last());
                assert(s[s.len() - 1] == r[k]);
            }
        }
        assert forall|k: int| 0 <= k < s.len() && !out.contains(#[trigger] s[k]) implies r.contains(s[k]) by {
            if k < d.len() {
                assert(d[k] == s[k]);
                assert(not_in(d, out).contains(d[k]));
                let w = choose|w: int| 0 <= w < not_in(d, out).len() && not_in(d, out)[w] == d[k];
                assert(r[w] == s[k]);
            } else {
                assert(r[r.len() - 1] == s[k]);
            }
        }
    }
}

/// The entries of `s` whose flag is not set, in order.
fn unflagged(s: &[usize], flags: &[bool]) -> (res: Vec<usize>)
    requires
        nodes_below(s@, flags@.len() as int),
    ensures
        res@ == unflagged_of(s@, flags@),
{
    let mut out: Vec<usize> = Vec::new();
    let mut i: usize = 0;
    while i < s.len()
        invariant
            i <= s@.len(),
            nodes_below(s@, flags@.len() as int),
            out@ == unflagged_of(s@.subrange(0, i as int), flags@),
        decreases s.len() - i,
    {
        let x = s[i];
        assert(s@.subrange(0, i + 1).drop_last() =~= s@.subrange(0, i as int));
        assert(s@.subrange(0, i + 1).last() == x);
        if !flags[x] {
            out.push(x);
        }
        i += 1;
    }
    assert(s@.subrange(0, i as int) =~= s@);
    out
}

/// The first entry of `nbs` that is flagged in `present` and not in `taken`.
fn first_fresh(nbs: &[usize], taken: &[bool], present: &[bool]) -> (res: Option<usize>)
    requires
        taken@.len() == present@.len(),
        nodes_below(nbs@, taken@.len() as int),
    ensures
        res matches Some(c) ==> nbs@.contains(c) && (c as int) < taken@.len() && !taken@[c as int] && present@[c as int],
        res matches Some(c) ==> exists|t: int| 0 <= t < nbs@.len() && nbs@[t] == c
            && forall|k: int| 0 <= k < t ==> taken@[#[trigger] nbs@[k] as int] || !present@[nbs@[k] as int],
        res is None ==> forall|k: int| 0 <= k < nbs@.len() ==> taken@[#[trigger] nbs@[k] as int] || !present@[nbs@[k] as int],
{
    let mut t: usize = 0;
    while t < nbs.len()
        invariant
            t <= nbs@.len(),
            taken@.len() == present@.len(),
            nodes_below(nbs@, taken@.len() as int),
            forall|k: int| 0 <= k < t ==> taken@[#[trigger] nbs@[k] as int] || !present@[nbs@[k] as int],
        decreases nbs.len() - t,
    {
        let nb = nbs[t];
        if !taken[nb] && present[nb] {
            assert(nbs@[t as int] == nb);
            return Some(nb);
        }
        t += 1;
    }
    None
}

/// `out` lists distinct nodes, exactly those flagged in `taken`.
pub open spec fn taken_state(out: Seq<usize>, taken: Seq<bool>) -> bool {
    &&& forall|c: usize| (c as int) < taken.len() ==> (#[trigger] taken[c as int] <==> out.contains(c))
    &&& nodes_below(out, taken.len() as int)
    &&& out.no_duplicates()
}

/// Takes node `c`: appends it and sets its flag.
fn take_node(out: &mut Vec<usize>, taken: &mut Vec<bool>, c: usize)
    requires
        taken_state(old(out)@, old(taken)@),
        (c as int) < old(taken)@.len(),
        !old(taken)@[c as int],
    ensures
        final(out)@ == old(out)@.push(c),
        final(taken)@ == old(taken)@.update(c as int, true),
        taken_state(final(out)@, final(taken)@),
        count_false(final(taken)@) < count_false(old(taken)@),
{
    proof {
        lemma_count_false_flip(taken@, c as int);
    }
    let ghost o = out@;
    out.push(c);
    taken.set(c, true);
    proof {
        assert(!o.contains(c));
        assert forall|x: usize| (x as int) < taken@.len() implies (#[trigger] taken@[x as int] <==> out@.contains(x)) by {
            if o.contains(x) {
                let w = choose|w: int| 0 <= w < o.len() && o[w] == x;
                assert(out@[w] == x);
            }
            if out@.contains(x) {
                let w = choose|w: int| 0 <= w < out@.len() && out@[w] == x;
                if w < o.len() {
                    assert(o[w] == x);
                }
            }
            if x == c {
                assert(out@[o.len() as int] == c);
            } else {
                assert(taken@[x as int] == old(taken)@[x as int]);
            }
        }
        assert forall|i: int, j: int| 0 <= i < out@.len() && 0 <= j < out@.len() && i != j implies out@[i] != out@[j] by {
            if i < o.len() && j < o.len() {
                assert(o[i] != o[j]);
            } else if i < o.len() {
                assert(o.contains(o[i]));
            } else if j < o.len() {
                assert(o.contains(o[j]));
            }
        }
    }
}

/// `nbs[t]` is the first entry of `nbs` that is a customer of `cl` not yet in `out`.
pub open spec fn first_fresh_at(cl: Seq<usize>, out: Seq<usize>, nbs: Seq<usize>, t: int) -> bool {
    &&& 0 <= t < nbs.len()
    &&& cl.contains(nbs[t])
    &&& !out.contains(nbs[t])
    &&& forall|k: int| 0 <= k < t ==> !cl.contains(#[trigger] nbs[k]) || out.contains(nbs[k])
}

/// The taken customer that the generator in state `st` draws as reference.
pub open spec fn shaw_ref(out: Seq<usize>, st: u64) -> usize {
    out[lcg_pick(st, out.len() as int)]
}

/// One step of Shaw removal over the customer list `cl`, from `a` (customers
/// taken, generator state) to `b`: the generator draws a reference among the
/// taken customers; the first customer among its related ones (`nn`) not yet
/// taken is taken; when there is none, the generator draws one of the customers
/// not yet taken (in list order).
#[verifier::opaque]
pub open spec fn shaw_step(cl: Seq<usize>, nn: Seq<Vec<usize>>, a: (Seq<usize>, u64), b: (Seq<usize>, u64)) -> bool {
    let nbs = nn[shaw_ref(a.0, a.1) as int]@;
    let s1 = lcg_next(a.1);
    if exists|t: int| #[trigger] first_fresh_at(cl, a.0, nbs, t) {
        exists|t: int| #[trigger] first_fresh_at(cl, a.0, nbs, t) && b == (a.0.push(nbs[t]), s1)
    } else {
        let un = not_in(cl, a.0);
        un.len() > 0 && b == (a.0.push(un[lcg_pick(s1, un.len() as int)]), lcg_next(s1))
    }
}

/// A run extended by one step is still a run.
proof fn lemma_shaw_push(cl: Seq<usize>, nn: Seq<Vec<usize>>, count: int, tr: Seq<(Seq<usize>, u64)>, next: (Seq<usize>, u64))
    requires
        tr.len() >= 1,
        forall|i: int| 0 <= i < tr.len() - 1 ==> #[trigger] shaw_link(cl, nn, count, tr, i),
        tr.last().0.len() < count,
        shaw_step(cl, nn, tr.last(), next),
    ensures
        forall|i: int| 0 <= i < tr.push(next).len() - 1 ==> #[trigger] shaw_link(cl, nn, count, tr.push(next), i),
        tr.push(next)[0] == tr[0],
        tr.push(next).last() == next,
{
    let t2 = tr.push(next);
    assert forall|i: int| 0 <= i < t2.len() - 1 implies #[trigger] shaw_link(cl, nn, count, t2, i) by {
        if i < tr.len() - 1 {
            assert(shaw_link(cl, nn, count, tr, i));
            assert(t2[i] == tr[i] && t2[i + 1] == tr[i + 1]);
        } else {
            assert(t2[i] == tr.last());
        }
    }
}

/// Taking the first fresh related customer of the drawn reference is a step.
proof fn lemma_shaw_fresh(cl: Seq<usize>, nn: Seq<Vec<usize>>, pre: (Seq<usize>, u64), t: int)
    requires
        first_fresh_at(cl, pre.0, nn[shaw_ref(pre.0, pre.1) as int]@, t),
    ensures
        shaw_step(cl, nn, pre, (pre.0.push(nn[shaw_ref(pre.0, pre.1) as int]@[t]), lcg_next(pre.1))),
{
    reveal(shaw_step);
}

/// With no fresh related customer, taking a drawn customer not yet taken is a step.
proof fn lemma_shaw_draw(cl: Seq<usize>, nn: Seq<Vec<usize>>, pre: (Seq<usize>, u64))
    requires
        forall|t: int| !#[trigger] first_fresh_at(cl, pre.0, nn[shaw_ref(pre.0, pre.1) as int]@, t),
        not_in(cl, pre.0).len() > 0,
    ensures
        shaw_step(cl, nn, pre, (pre.0.push(not_in(cl, pre.0)[lcg_pick(lcg_next(pre.1), not_in(cl, pre.0).len() as int)]), lcg_next(lcg_next(pre.1)))),
{
    reveal(shaw_step);
}

/// Shaw removal stops at `a`: the drawn reference has no related customer left
/// to take, and every customer is taken.
pub open spec fn shaw_stuck(cl: Seq<usize>, nn: Seq<Vec<usize>>, a: (Seq<usize>, u64)) -> bool {
    &&& forall|t: int| !#[trigger] first_fresh_at(cl, a.0, nn[shaw_ref(a.0, a.1) as int]@, t)
    &&& not_in(cl, a.0).len() == 0
}

/// Step `i` of the run `tr` is taken, with fewer than `count` customers taken.
pub open spec fn shaw_link(cl: Seq<usize>, nn: Seq<Vec<usize>>, count: int, tr: Seq<(Seq<usize>, u64)>, i: int) -> bool {
    tr[i].0.len() < count && shaw_step(cl, nn, tr[i], tr[i + 1])
}

/// `tr` is a run of Shaw removal over the (non-empty) customer list `cl` from
/// generator state `st0`: it starts with the customer the generator draws from
/// `cl`, goes step by step, and ends with `out` taken and the generator in state
/// `st_end`, either with `count` customers taken or stuck.
pub open spec fn shaw_trace(cl: Seq<usize>, nn: Seq<Vec<usize>>, count: int, st0: u64, tr: Seq<(Seq<usize>, u64)>, out: Seq<usize>, st_end: u64) -> bool {
    &&& tr.len() >= 1
    &&& tr[0] == (seq![cl[lcg_pick(st0, cl.len() as int)]], lcg_next(st0))
    &&& forall|i: int| 0 <= i < tr.len() - 1 ==> #[trigger] shaw_link(cl, nn, count, tr, i)
    &&& tr.last().0 == out
    &&& (tr.last().0.len() >= count && st_end == tr.last().1)
        || (tr.last().0.len() < count && shaw_stuck(cl, nn, tr.last()) && st_end == lcg_next(tr.last().1))
}

/// One round of Shaw removal: the generator draws a reference among the taken
/// customers `out`; its first related customer not yet taken is taken, else one
/// drawn among the customers not yet taken. False, with nothing taken, when
/// there is no customer left to take.
fn shaw_grow(custs: &Vec<usize>, in_routes: &Vec<bool>, nn: &[Vec<usize>], out: &mut Vec<usize>, taken: &mut Vec<bool>, rng: &mut u64) -> (grew: bool)
    requires
        forall|i: int| 0 <= i < nn@.len() ==> nodes_below(#[trigger] nn@[i]@, nn@.len() as int),
        nodes_below(custs@, nn@.len() as int),
        in_routes@.len() == nn@.len(),
        forall|c: int| 0 <= c < nn@.len() ==> (#[trigger] in_routes@[c] <==> custs@.contains(c as usize)),
        old(taken)@.len() == nn@.len(),
        taken_state(old(out)@, old(taken)@),
        old(out)@.len() >= 1,
        forall|k: int| 0 <= k < old(out)@.len() ==> custs@.contains(#[trigger] old(out)@[k]),
    ensures
        final(taken)@.len() == nn@.len(),
        taken_state(final(out)@, final(taken)@),
        forall|k: int| 0 <= k < final(out)@.len() ==> custs@.contains(#[trigger] final(out)@[k]),
        grew ==> shaw_step(custs@, nn@, (old(out)@, *old(rng)), (final(out)@, *final(rng)))
            && final(out)@.len() == old(out)@.len() + 1
            && count_false(final(taken)@) < count_false(old(taken)@),
        !grew ==> shaw_stuck(custs@, nn@, (old(out)@, *old(rng))) && *final(rng) == lcg_next(*old(rng))
            && final(out)@ == old(out)@ && final(taken)@ == old(taken)@
            && forall|k: int| 0 <= k < custs@.len() ==> final(taken)@[#[trigger] custs@[k] as int],
{
    let ghost cl = custs@;
    let n = nn.len();
    let ghost pre = (out@, *rng);
    let ghost o = out@;
    let ref_c = out[rand_index(rng, out.len())];
    assert(ref_c == shaw_ref(pre.0, pre.1));
    assert(nodes_below(nn@[ref_c as int]@, n as int));
    let ghost nbs = nn@[ref_c as int]@;
    proof {
        assert forall|k: int| 0 <= k < nbs.len() implies (#[trigger] taken@[nbs[k] as int] || !in_routes@[nbs[k] as int])
            == (!cl.contains(nbs[k]) || o.contains(nbs[k])) by {
            assert((nbs[k] as int) < n);
        }
    }
    match first_fresh(&nn[ref_c], &taken, &in_routes) {
        Some(nb) => {
            proof {
                let t = choose|t: int| 0 <= t < nbs.len() && nbs[t] == nb
                    && forall|k: int| 0 <= k < t ==> taken@[#[trigger] nbs[k] as int] || !in_routes@[nbs[k] as int];
                assert(first_fresh_at(cl, o, nbs, t));
                lemma_shaw_fresh(cl, nn@, pre, t);
            }
            take_node(out, taken, nb);
            proof {
                assert forall|k: int| 0 <= k < out@.len() implies custs@.contains(#[trigger] out@[k]) by {
                    if k < o.len() {
                        assert(out@[k] == o[k]);
                    }
                }
            }
            true
        }
        None => {
            proof {
                assert forall|t: int| !#[trigger] first_fresh_at(cl, o, nbs, t) by {
                    if 0 <= t < nbs.len() {
                        assert(taken@[nbs[t] as int] || !in_routes@[nbs[t] as int]);
                    }
                }
            }
            let unrem = unflagged(custs, taken);
            proof {
                lemma_unflagged_not_in(custs@, out@, taken@);
                lemma_not_in(cl, o);
            }
            if unrem.len() == 0 {
                proof {
                    assert(shaw_stuck(cl, nn@, pre));
                    assert forall|k: int| 0 <= k < cl.len() implies taken@[#[trigger] cl[k] as int] by {
                        if !o.contains(cl[k]) {
                            assert(unrem@.contains(cl[k]));
                        }
                        assert((cl[k] as int) < n);
                    }
                }
                return false;
            }
            let c = unrem[rand_index(rng, unrem.len())];
            proof {
                assert(unrem@.contains(c));
                lemma_shaw_draw(cl, nn@, pre);
            }
            take_node(out, taken, c);
            proof {
                assert forall|k: int| 0 <= k < out@.len() implies custs@.contains(#[trigger] out@[k]) by {
                    if k < o.len() {
                        assert(out@[k] == o[k]);
                    }
                }
            }
            true
        }
    }
}

/// Shaw removal: starting from a random customer, repeatedly takes the first
/// not yet taken customer among the related customers (`nn`) of a random taken
/// one, or a random remaining customer when none is left there; stops at
/// `count` customers (one at least) or when every customer is taken.
pub fn shaw_removal(routes: &[Vec<usize>], count: usize, nn: &[Vec<usize>], rng: &mut u64) -> (out: Vec<usize>)
    requires
        forall|i: int| 0 <= i < routes@.len() ==> nodes_below(#[trigger] routes@[i]@, nn@.len() as int),
        forall|i: int| 0 <= i < nn@.len() ==> nodes_below(#[trigger] nn@[i]@, nn@.len() as int),
    ensures
        forall|k: int| 0 <= k < out@.len() ==> all_custs(rv(routes@)).count(#[trigger] out@[k]) > 0,
        forall|k: int| 0 <= k < out@.len() ==> #[trigger] out@[k] != 0,
        out@.no_duplicates(),
        out@.len() == 0 <==> all_custs(rv(routes@)).len() == 0,
        out@.len() <= count || out@.len() == 1,
        out@.len() < count ==> forall|c: usize| all_custs(rv(routes@)).count(c) > 0 ==> out@.contains(c),
        customer_list(rv(routes@)).len() == 0 ==> *final(rng) == *old(rng),
        customer_list(rv(routes@)).len() > 0 ==> exists|tr: Seq<(Seq<usize>, u64)>|
            #[trigger] shaw_trace(customer_list(rv(routes@)), nn@, count as int, *old(rng), tr, out@, *final(rng)),
{
    let ghost m = all_custs(rv(routes@));
    let ghost st0 = *rng;
    let custs = collect_customers(routes);
    let ghost cl = custs@;
    proof {
        vstd::seq_lib::to_multiset_len(custs@);
        assert forall|i: int| 0 <= i < rv(routes@).len() implies nodes_below(#[trigger] rv(routes@)[i], nn@.len() as int) by {
            assert(rv(routes@)[i] == routes@[i]@);
        }
        lemma_all_custs_below(rv(routes@), nn@.len() as int);
        assert forall|k: int| 0 <= k < custs@.len() implies (#[trigger] custs@[k] as int) < nn@.len() by {
            vstd::seq_lib::to_multiset_contains(custs@, custs@[k]);
            assert(custs@.contains(custs@[k]));
        }
    }
    if custs.len() == 0 {
        return Vec::new();
    }
    let n = nn.len();
    let in_routes = occurrence_flags(&custs, n);
    let seed = custs[rand_index(rng, custs.len())];
    let mut out: Vec<usize> = Vec::new();
    let mut taken: Vec<bool> = Vec::new();
    while taken.len() < n
        invariant
            taken@.len() <= n,
            forall|c: int| 0 <= c < taken@.len() ==> !#[trigger] taken@[c],
        decreases n - taken.len(),
    {
        taken.push(false);
    }
    proof {
        assert(taken_state(out@, taken@));
    }
    take_node(&mut out, &mut taken, seed);
    let ghost mut tr: Seq<(Seq<usize>, u64)> = seq![(out@, *rng)];
    assert(out@ =~= seq![cl[lcg_pick(st0, cl.len() as int)]]);
    while out.len() < count
        invariant_except_break
            tr.last().1 == *rng,
        invariant
            cl == custs@,
            cl.len() > 0,
            tr.len() >= 1,
            tr[0] == (seq![cl[lcg_pick(st0, cl.len() as int)]], lcg_next(st0)),
            forall|i: int| 0 <= i < tr.len() - 1 ==> #[trigger] shaw_link(cl, nn@, count as int, tr, i),
            tr.last().0 == out@,
            n == nn@.len(),
            forall|i: int| 0 <= i < nn@.len() ==> nodes_below(#[trigger] nn@[i]@, nn@.len() as int),
            nodes_below(custs@, n as int),
            in_routes@.len() == n,
            forall|c: int| 0 <= c < n ==> (#[trigger] in_routes@[c] <==> custs@.contains(c as usize)),
            taken@.len() == n,
            taken_state(out@, taken@),
            out@.len() >= 1,
            out@.len() <= count || out@.len() == 1,
            forall|k: int| 0 <= k < out@.len() ==> custs@.contains(#[trigger] out@[k]),
        ensures
            taken@.len() == n,
            taken_state(out@, taken@),
            out@.len() >= 1,
            out@.len() <= count || out@.len() == 1,
            forall|k: int| 0 <= k < out@.len() ==> custs@.contains(#[trigger] out@[k]),
            out@.len() < count ==> forall|k: int| 0 <= k < custs@.len() ==> taken@[#[trigger] custs@[k] as int],
            tr.len() >= 1,
            tr[0] == (seq![cl[lcg_pick(st0, cl.len() as int)]], lcg_next(st0)),
            forall|i: int| 0 <= i < tr.len() - 1 ==> #[trigger] shaw_link(cl, nn@, count as int, tr, i),
            tr.last().0 == out@,
            (out@.len() >= count && tr.last().1 == *rng)
                || (out@.len() < count && shaw_stuck(cl, nn@, tr.last()) && *rng == lcg_next(tr.last().1)),
        decreases count_false(taken@),
    {
        let ghost pre = (out@, *rng);
        let grew = shaw_grow(&custs, &in_routes, nn, &mut out, &mut taken, rng);
        if !grew {
            break;
        }
        proof {
            lemma_shaw_push(cl, nn@, count as int, tr, (out@, *rng));
            tr = tr.push((out@, *rng));
        }
    }
    assert(shaw_trace(cl, nn@, count as int, st0, tr, out@, *rng));
    proof {
        assert forall|k: int| 0 <= k < out@.len() implies m.count(#[trigger] out@[k]) > 0 && out@[k] != 0 by {
            vstd::seq_lib::to_multiset_contains(custs@, out@[k]);
            let w = choose|w: int| 0 <= w < custs@.len() && custs@[w] == out@[k];
            assert(custs@[w] != 0);
        }
        if out@.len() < count {
            assert forall|c: usize| m.count(c) > 0 implies out@.contains(c) by {
                vstd::seq_lib::to_multiset_contains(custs@, c);
                let w = choose|w: int| 0 <= w < custs@.len() && custs@[w] == c;
                assert(taken@[custs@[w] as int]);
            }
        }
    }
    out
}

/// The detour of the node at inner position `i` of `r`: what its removal saves.
pub open spec fn detour(dm: Seq<Vec<i32>>, r: Seq<usize>, i: int) -> int {
    dd(dm, r[i - 1], r[i]) + dd(dm, r[i], r[i + 1]) - dd(dm, r[i - 1], r[i + 1])
}

/// The inner nodes of `r` with their detours, in route order.
pub open spec fn route_detours(dm: Seq<Vec<i32>>, r: Seq<usize>) -> Seq<(i64, usize)> {
    if r.len() < 2 {
        Seq::empty()
    } else {
        Seq::new((r.len() - 2) as nat, |k: int| (detour(dm, r, k + 1) as i64, r[k + 1]))
    }
}

/// The detours of all inner nodes of all routes, route after route.
pub open spec fn all_detours(dm: Seq<Vec<i32>>, rs: Seq<Seq<usize>>) -> Seq<(i64, usize)>
    decreases rs.len(),
{
    if rs.len() == 0 {
        Seq::empty()
    } else {
        all_detours(dm, rs.drop_last()) + route_detours(dm, rs.last())
    }
}

/// Sorted by the first component, largest first.
pub open spec fn sorted_desc(s: Seq<(i64, usize)>) -> bool {
    forall|a: int, b: int| 0 <= a < b < s.len() ==> #[trigger] s[a].0 >= #[trigger] s[b].0
}

/// Sorts by the first component, largest first; equal keys keep their order.
pub fn sort_desc(v: &mut Vec<(i64, usize)>)
    ensures
        sorted_desc(final(v)@),
        final(v)@.to_multiset() == old(v)@.to_multiset(),
        final(v)@.len() == old(v)@.len(),
{
    let mut i: usize = 1;
    let ghost m = v@.to_multiset();
    while i < v.len()
        invariant
            v@.to_multiset() == m,
            v@.len() == old(v)@.len(),
            m == old(v)@.to_multiset(),
            v@.len() == 0 || 1 <= i <= v@.len(),
            forall|a: int, b: int| 0 <= a < b < i && b < v@.len() ==> #[trigger] v@[a].0 >= #[trigger] v@[b].0,
        decreases v.len() - i,
    {
        let mut j: usize = i;
        while j > 0 && v[j - 1].0 < v[j].0
            invariant
                v@.to_multiset() == m,
                v@.len() == old(v)@.len(),
                1 <= i < v@.len(),
                j <= i,
                forall|a: int, b: int| 0 <= a < b < j ==> #[trigger] v@[a].0 >= #[trigger] v@[b].0,
                forall|a: int, b: int| j < a < b <= i ==> #[trigger] v@[a].0 >= #[trigger] v@[b].0,
                forall|a: int, b: int| 0 <= a < j && j < b <= i ==> #[trigger] v@[a].0 >= #[trigger] v@[b].0,
                forall|b: int| j < b <= i ==> v@[j as int].0 > #[trigger] v@[b].0,
            decreases j,
        {
            let x = v[j - 1];
            let y = v[j];
            proof {
                lemma_swap_multiset(v@, j - 1, j as int);
            }
            v.set(j - 1, y);
            v.set(j, x);
            j -= 1;
        }
        i += 1;
    }
}

/// Every inner node of every route, with its detour, largest detour first.
pub fn removal_costs(routes: &[Vec<usize>], dm: &[Vec<i32>]) -> (res: Vec<(i64, usize)>)
    requires
        dm_ok(dm@, dm@.len() as int),
        forall|i: int| 0 <= i < routes@.len() ==> nodes_below(#[trigger] routes@[i]@, dm@.len() as int),
        forall|i: int| 0 <= i < routes@.len() ==> (#[trigger] routes@[i]@).len() >= 1,
    ensures
        sorted_desc(res@),
        res@.to_multiset() == all_detours(dm@, rv(routes@)).to_multiset(),
{
    let ghost rs = rv(routes@);
    let mut costs: Vec<(i64, usize)> = Vec::new();
    let mut ri: usize = 0;
    while ri < routes.len()
        invariant
            rs == rv(routes@),
            ri <= routes@.len(),
            dm_ok(dm@, dm@.len() as int),
            forall|i: int| 0 <= i < routes@.len() ==> nodes_below(#[trigger] routes@[i]@, dm@.len() as int),
            forall|i: int| 0 <= i < routes@.len() ==> (#[trigger] routes@[i]@).len() >= 1,
            costs@ == all_detours(dm@, rs.subrange(0, ri as int)),
        decreases routes.len() - ri,
    {
        let route = &routes[ri];
        assert(rs[ri as int] == route@);
        assert(nodes_below(route@, dm@.len() as int));
        let ghost base = costs@;
        let mut i: usize = 1;
        let last = route.len() - 1;
        while i < last
            invariant
                1 <= i,
                route@.len() >= 1,
                last == route@.len() - 1,
                i <= route@.len(),
                route@.len() >= 2 ==> i <= last,
                dm_ok(dm@, dm@.len() as int),
                nodes_below(route@, dm@.len() as int),
                route@.len() >= 2 ==> costs@ == base + route_detours(dm@, route@).subrange(0, i - 1),
                route@.len() < 2 ==> costs@ == base,
            decreases route.len() - i,
        {
            let prev = route[i - 1];
            let c = route[i];
            let next = route[i + 1];
            proof {
                assert(in_limit(dm@[prev as int]@[c as int]));
                assert(in_limit(dm@[c as int]@[next as int]));
                assert(in_limit(dm@[prev as int]@[next as int]));
            }
            let d: i64 = dm[prev][c] as i64 + dm[c][next] as i64 - dm[prev][next] as i64;
            costs.push((d, c));
            i += 1;
            assert(costs@ =~= base + route_detours(dm@, route@).subrange(0, i - 1));
        }
        proof {
            if route@.len() >= 2 {
                assert(route_detours(dm@, route@).subrange(0, i - 1) =~= route_detours(dm@, route@));
            } else {
                assert(route_detours(dm@, route@) =~= Seq::<(i64, usize)>::empty());
            }
            assert(rs.subrange(0, ri + 1).drop_last() =~= rs.subrange(0, ri as int));
            assert(rs.subrange(0, ri + 1).last() == route@);
            assert(costs@ =~= all_detours(dm@, rs.subrange(0, ri + 1)));
        }
        ri += 1;
    }
    assert(rs.subrange(0, ri as int) =~= rs);
    sort_desc(&mut costs);
    costs
}

/// The list of not yet picked positions and the picked ones after `t` rounds of
/// swap-removing position `ranks[round]` from `rem0`.
pub open spec fn swap_remove_run(rem0: Seq<usize>, ranks: Seq<usize>, t: nat) -> (Seq<usize>, Seq<usize>)
    decreases t,
{
    if t == 0 {
        (rem0, Seq::empty())
    } else {
        let prev = swap_remove_run(rem0, ranks, (t - 1) as nat);
        let r = ranks[t - 1] as int;
        (prev.0.update(r, prev.0.last()).drop_last(), prev.1.push(prev.0[r]))
    }
}

/// Ranks fit the shrinking list: the `t`-th rank is below `len - t`.
pub open spec fn ranks_fit(ranks: Seq<usize>, len: int) -> bool {
    &&& ranks.len() <= len
    &&& forall|t: int| 0 <= t < ranks.len() ==> (#[trigger] ranks[t] as int) < len - t
}

/// The positions `0..n`.
pub open spec fn positions(n: nat) -> Seq<usize> {
    Seq::new(n, |k: int| k as usize)
}

/// Swap-removing by ranks from the positions `0..n` picks `t` distinct positions
/// below `n`, the first of them position `ranks[0]`; the positions left are the
/// others, each once.
pub proof fn law_swap_remove_picks(n: nat, ranks: Seq<usize>, t: nat)
    requires
        ranks_fit(ranks, n as int),
        t <= ranks.len(),
        n <= usize::MAX,
    ensures
        swap_remove_run(positions(n), ranks, t).1.len() == t,
        swap_remove_run(positions(n), ranks, t).1.no_duplicates(),
        forall|j: int| 0 <= j < t ==> (#[trigger] swap_remove_run(positions(n), ranks, t).1[j] as int) < n,
        t >= 1 ==> swap_remove_run(positions(n), ranks, t).1[0] == ranks[0],
        swap_remove_run(positions(n), ranks, t).0.len() == n - t,
        swap_remove_run(positions(n), ranks, t).0.no_duplicates(),
        forall|k: int| 0 <= k < n - t ==> (#[trigger] swap_remove_run(positions(n), ranks, t).0[k] as int) < n,
        forall|k: int, j: int| 0 <= k < n - t && 0 <= j < t
            ==> #[trigger] swap_remove_run(positions(n), ranks, t).0[k] != #[trigger] swap_remove_run(positions(n), ranks, t).1[j],
    decreases t,
{
    let rem0 = positions(n);
    if t > 0 {
        law_swap_remove_picks(n, ranks, (t - 1) as nat);
        let p = swap_remove_run(rem0, ranks, (t - 1) as nat);
        let q = swap_remove_run(rem0, ranks, t);
        let r = ranks[t - 1] as int;
        let before = p.0;
        assert(r < n - (t - 1));
        assert(q == (p.0.update(r, p.0.last()).drop_last(), p.1.push(p.0[r])));
        assert forall|k: int| 0 <= k < n - t implies (#[trigger] q.0[k] as int) < n by {
            assert(q.0[k] == before.update(r, before.last())[k]);
        }
        assert forall|k: int, j: int| 0 <= k < n - t && 0 <= j < t implies #[trigger] q.0[k] != #[trigger] q.1[j] by {
            let bk: int = if k == r { before.len() - 1 } else { k };
            assert(q.0[k] == before[bk]);
            if j < t - 1 {
                assert(q.1[j] == p.1[j]);
            } else {
                assert(q.1[j] == before[r]);
            }
        }
        assert forall|a: int, b: int| 0 <= a < b < q.0.len() implies q.0[a] != q.0[b] by {
            let ba: int = if a == r { before.len() - 1 } else { a };
            let bb: int = if b == r { before.len() - 1 } else { b };
            assert(q.0[a] == before[ba]);
            assert(q.0[b] == before[bb]);
        }
        assert forall|a: int, b: int| 0 <= a < b < q.1.len() implies q.1[a] != q.1[b] by {
            assert(q.1[a] == p.1[a]);
            if b == t - 1 {
                assert(q.1[b] == before[r]);
            } else {
                assert(q.1[b] == p.1[b]);
            }
        }
        assert forall|j: int| 0 <= j < t implies (#[trigger] q.1[j] as int) < n by {
            if j < t - 1 {
                assert(q.1[j] == p.1[j]);
            }
        }
        if t == 1 {
            assert(before == rem0);
        } else {
            assert(q.1[0] == p.1[0]);
        }
    } else {
        let z = swap_remove_run(rem0, ranks, 0);
        assert(z.0 == rem0);
        assert forall|a: int, b: int| 0 <= a < b < z.0.len() implies z.0[a] != z.0[b] by {}
    }
}

/// With the costs sorted largest detour first, rank 0 as the first draw picks a
/// customer whose detour is at least every detour in the list.
pub proof fn law_rank_zero_largest(costs: Seq<(i64, usize)>, ranks: Seq<usize>)
    requires
        sorted_desc(costs),
        ranks_fit(ranks, costs.len() as int),
        ranks.len() > 0,
        ranks[0] == 0,
        costs.len() <= usize::MAX,
    ensures
        forall|j: int| 0 <= j < costs.len() ==>
            #[trigger] costs[j].0 <= costs[swap_remove_run(positions(costs.len()), ranks, ranks.len()).1[0] as int].0,
{
    law_swap_remove_picks(costs.len(), ranks, ranks.len());
    assert forall|j: int| 0 <= j < costs.len() implies
        #[trigger] costs[j].0 <= costs[swap_remove_run(positions(costs.len()), ranks, ranks.len()).1[0] as int].0 by {
        if j > 0 {
            assert(costs[0].0 >= costs[j].0);
        }
    }
}

/// The customers picked from the ranked cost list: the `t`-th pick swap-removes
/// position `ranks[t]` from the list of not yet picked positions.
pub fn pick_by_ranks(costs: &[(i64, usize)], ranks: &[usize]) -> (out: Vec<usize>)
    requires
        ranks_fit(ranks@, costs@.len() as int),
    ensures
        out@ == swap_remove_run(positions(costs@.len()), ranks@, ranks@.len()).1.map_values(
            |i: usize| costs@[i as int].1,
        ),
        out@.len() == ranks@.len(),
        ranks@.len() > 0 ==> out@[0] == costs@[ranks@[0] as int].1,
        ranks@.len() > 1 ==> out@[1] == costs@[if ranks@[1] == ranks@[0] { costs@.len() - 1 } else { ranks@[1] as int }].1,
        exists|p: Seq<usize>|
            #![trigger p.no_duplicates()]
            {
                &&& p.no_duplicates()
                &&& p.len() == out@.len()
                &&& forall|t: int| 0 <= t < p.len() ==> (#[trigger] p[t] as int) < costs@.len() && out@[t] == costs@[p[t] as int].1
            },
        ranks@.len() > 0 && ranks@[0] == 0 && sorted_desc(costs@) ==> forall|j: int|
            0 <= j < costs@.len() ==> #[trigger] costs@[j].0 <= costs@[0].0 && out@[0] == costs@[0].1,
{
    let mut remaining: Vec<usize> = Vec::new();
    while remaining.len() < costs.len()
        invariant
            remaining@.len() <= costs@.len(),
            forall|k: int| 0 <= k < remaining@.len() ==> #[trigger] remaining@[k] == k as usize,
        decreases costs.len() - remaining.len(),
    {
        remaining.push(remaining.len());
    }
    let ghost rem0 = positions(costs@.len());
    assert(remaining@ =~= rem0);
    let mut out: Vec<usize> = Vec::new();
    let mut t: usize = 0;
    assert(out@ =~= swap_remove_run(rem0, ranks@, 0).1.map_values(|i: usize| costs@[i as int].1));
    while t < ranks.len()
        invariant
            ranks_fit(ranks@, costs@.len() as int),
            t <= ranks@.len(),
            remaining@.len() == costs@.len() - t,
            forall|k: int| 0 <= k < remaining@.len() ==> (#[trigger] remaining@[k] as int) < costs@.len(),
            remaining@ == swap_remove_run(rem0, ranks@, t as nat).0,
            out@ == swap_remove_run(rem0, ranks@, t as nat).1.map_values(|i: usize| costs@[i as int].1),
            rem0 == positions(costs@.len()),
            remaining@.no_duplicates(),
            swap_remove_run(rem0, ranks@, t as nat).1.no_duplicates(),
            swap_remove_run(rem0, ranks@, t as nat).1.len() == t,
            forall|j: int| 0 <= j < t ==> (#[trigger] swap_remove_run(rem0, ranks@, t as nat).1[j] as int) < costs@.len(),
            forall|k: int, j: int| 0 <= k < remaining@.len() && 0 <= j < t ==> #[trigger] remaining@[k] != #[trigger] swap_remove_run(rem0, ranks@, t as nat).1[j],
            t >= 1 ==> out@[0] == costs@[ranks@[0] as int].1,
            t >= 2 ==> out@[1] == costs@[if ranks@[1] == ranks@[0] { costs@.len() - 1 } else { ranks@[1] as int }].1,
        decreases ranks.len() - t,
    {
        let r = ranks[t];
        let ghost before = remaining@;
        let ghost prev_out = out@;
        let chosen = remaining.swap_remove(r);
        out.push(costs[chosen].1);
        t += 1;
        proof {
            let p = swap_remove_run(rem0, ranks@, (t - 1) as nat);
            let q = swap_remove_run(rem0, ranks@, t as nat);
            assert(q == (p.0.update(r as int, p.0.last()).drop_last(), p.1.push(p.0[r as int])));
            assert(chosen == before[r as int]);
            assert forall|k: int| 0 <= k < remaining@.len() implies (#[trigger] remaining@[k] as int) < costs@.len() by {
                assert(remaining@[k] == before.update(r as int, before.last())[k]);
            }
            assert forall|k: int, j: int| 0 <= k < remaining@.len() && 0 <= j < t implies #[trigger] remaining@[k] != #[trigger] q.1[j] by {
                let bk: int = if k == r as int { before.len() - 1 } else { k };
                assert(remaining@[k] == before[bk]);
                assert(bk != r as int);
                if j < t - 1 {
                    assert(q.1[j] == p.1[j]);
                } else {
                    assert(q.1[j] == before[r as int]);
                }
            }
            assert forall|a: int, b: int| 0 <= a < b < remaining@.len() implies remaining@[a] != remaining@[b] by {
                let ba: int = if a == r as int { before.len() - 1 } else { a };
                let bb: int = if b == r as int { before.len() - 1 } else { b };
                assert(remaining@[a] == before[ba]);
                assert(remaining@[b] == before[bb]);
            }
            assert forall|a: int, b: int| 0 <= a < b < q.1.len() implies q.1[a] != q.1[b] by {
                if b == t - 1 {
                    assert(q.1[b] == before[r as int]);
                    assert(q.1[a] == p.1[a]);
                } else {
                    assert(q.1[a] == p.1[a]);
                    assert(q.1[b] == p.1[b]);
                }
            }
            assert forall|j: int| 0 <= j < t implies (#[trigger] q.1[j] as int) < costs@.len() by {
                if j < t - 1 {
                    assert(q.1[j] == p.1[j]);
                }
            }
            if t == 1 {
                assert(before == rem0);
                assert(chosen == ranks@[0]);
            } else {
                assert(out@[0] == prev_out[0]);
                if t == 2 {
                    let z = swap_remove_run(rem0, ranks@, 0);
                    assert(z.0 == rem0);
                    assert(before == rem0.update(ranks@[0] as int, rem0.last()).drop_last());
                    assert(chosen == before[ranks@[1] as int]);
                } else {
                    assert(out@[1] == prev_out[1]);
                }
            }
            assert(out@ =~= q.1.map_values(|i: usize| costs@[i as int].1));
        }
    }
    proof {
        let pp = swap_remove_run(rem0, ranks@, t as nat).1;
        assert(pp.no_duplicates());
        assert forall|u: int| 0 <= u < pp.len() implies (#[trigger] pp[u] as int) < costs@.len() && out@[u] == costs@[pp[u] as int].1 by {}
        if ranks@.len() > 0 && ranks@[0] == 0 && sorted_desc(costs@) {
            assert forall|j: int| 0 <= j < costs@.len() implies #[trigger] costs@[j].0 <= costs@[0].0 && out@[0] == costs@[0].1 by {
                if j > 0 {
                    assert(costs@[0].0 >= costs@[j].0);
                }
            }
        }
    }
    out
}

} // verus!
