//! Construction of a first solution: nearest-neighbour routes, then merging
//! routes until the fleet suffices.
use vstd::prelude::*;
use vstd::multiset::Multiset;
use crate::model::{
    all_custs, custs, cust1, rv, proper, in_limit, route_len, dm_ok, nodes_below, Challenge, VALUE_LIMIT, LEN_LIMIT,
    lemma_custs_concat, lemma_custs_insert, lemma_all_custs_update, lemma_all_custs_remove,
};
use crate::algorithm::{all_proper, is_feasible, route_dist, route_load, copy_route, lemma_route_len_upper, lemma_route_len_nonneg};
use crate::repair::{best_position, first_min_pos, no_feasible_pos, ins_feasible, lemma_insert_proper};
use crate::destroy::{count_false, lemma_count_false_flip};

verus! {

/// The customers flagged in `s`, each once (the depot is never counted).
pub open spec fn flagged(s: Seq<bool>) -> Multiset<usize>
    decreases s.len(),
{
    if s.len() == 0 {
        Multiset::empty()
    } else {
        flagged(s.drop_last()).add(
            if s.last() && s.len() > 1 { Multiset::singleton((s.len() - 1) as usize) } else { Multiset::empty() },
        )
    }
}

/// Flagging customer `i` adds it.
pub proof fn lemma_flagged_flip(s: Seq<bool>, i: int)
    requires
        1 <= i < s.len(),
        !s[i],
        s.len() <= usize::MAX,
    ensures
        flagged(s.update(i, true)) == flagged(s).insert(i as usize),
    decreases s.len(),
{
    broadcast use vstd::multiset::group_multiset_axioms;
    if i == s.len() - 1 {
        assert(s.update(i, true).drop_last() =~= s.drop_last());
    } else {
        assert(s.update(i, true).drop_last() =~= s.drop_last().update(i, true));
        lemma_flagged_flip(s.drop_last(), i);
    }
}

/// With every flag set, each customer `1..len` is flagged once.
pub proof fn lemma_flagged_all(s: Seq<bool>)
    requires
        forall|k: int| 0 <= k < s.len() ==> #[trigger] s[k],
        s.len() <= usize::MAX,
    ensures
        forall|c: usize| #[trigger] flagged(s).count(c) == if 1 <= c < s.len() { 1nat } else { 0nat },
    decreases s.len(),
{
    broadcast use vstd::multiset::group_multiset_axioms;
    if s.len() > 0 {
        assert forall|k: int| 0 <= k < s.drop_last().len() implies #[trigger] s.drop_last()[k] by {
            assert(s[k]);
        }
        lemma_flagged_all(s.drop_last());
        assert(s.last());
        assert forall|c: usize| #[trigger] flagged(s).count(c) == if 1 <= c < s.len() { 1nat } else { 0nat } by {
            assert(flagged(s).count(c) == flagged(s.drop_last()).count(c) + (if s.len() > 1 {
                Multiset::singleton((s.len() - 1) as usize)
            } else {
                Multiset::empty()
            }).count(c));
        }
    }
}

/// Only the depot flag set: nothing flagged.
pub proof fn lemma_flagged_depot(s: Seq<bool>)
    requires
        forall|k: int| 1 <= k < s.len() ==> !#[trigger] s[k],
    ensures
        flagged(s) =~= Multiset::<usize>::empty(),
    decreases s.len(),
{
    broadcast use vstd::multiset::group_multiset_axioms;
    if s.len() > 0 {
        assert forall|k: int| 1 <= k < s.drop_last().len() implies !#[trigger] s.drop_last()[k] by {
            assert(!s[k]);
        }
        lemma_flagged_depot(s.drop_last());
    }
}

/// The first unvisited customer with the earliest due time.
fn earliest_unvisited(ch: &Challenge, visited: &[bool]) -> (res: Option<usize>)
    requires
        ch.wf(),
        visited@.len() == ch.num_nodes,
    ensures
        res matches Some(s) ==> 1 <= s < ch.num_nodes && !visited@[s as int]
            && (forall|j: int| 1 <= j < ch.num_nodes && !visited@[j] ==> ch.due(s) <= #[trigger] ch.due(j as usize))
            && (forall|j: int| 1 <= j < s && !visited@[j] ==> ch.due(s) < #[trigger] ch.due(j as usize)),
        res is None ==> forall|j: int| 1 <= j < ch.num_nodes ==> #[trigger] visited@[j],
{
    let n = ch.num_nodes;
    let mut best: Option<usize> = None;
    let mut i: usize = 1;
    while i < n
        invariant
            ch.wf(),
            n == ch.num_nodes,
            visited@.len() == n,
            1 <= i <= n,
            best matches Some(s) ==> 1 <= s < i && !visited@[s as int]
                && (forall|j: int| 1 <= j < i && !visited@[j] ==> ch.due(s) <= #[trigger] ch.due(j as usize))
                && (forall|j: int| 1 <= j < s && !visited@[j] ==> ch.due(s) < #[trigger] ch.due(j as usize)),
            best is None ==> forall|j: int| 1 <= j < i ==> #[trigger] visited@[j],
        decreases n - i,
    {
        if !visited[i] {
            match best {
                None => {
                    best = Some(i);
                },
                Some(s) => {
                    if ch.due_times[i] < ch.due_times[s] {
                        best = Some(i);
                    }
                },
            }
        }
        i += 1;
    }
    best
}

/// Customer `j` can follow `cur`, left at `time` with `load` delivered: it is
/// unvisited, has room, is reached by its due time and still lets the vehicle
/// return to the depot in time.
pub open spec fn can_follow(ch: Challenge, visited: Seq<bool>, cur: usize, time: int, load: int, j: int) -> bool {
    let arr = time + ch.d(cur, j as usize);
    &&& 1 <= j < ch.num_nodes
    &&& !visited[j]
    &&& load + ch.demand(j as usize) <= ch.max_capacity
    &&& arr <= ch.due(j as usize)
    &&& crate::model::max(arr, ch.ready(j as usize)) + ch.service_time + ch.d(j as usize, 0) <= ch.due(0)
}

/// The nearest customer that can follow `cur` (the first one on ties).
fn nearest_follower(ch: &Challenge, visited: &[bool], cur: usize, time: i32, load: i32) -> (res: Option<usize>)
    requires
        ch.wf(),
        visited@.len() == ch.num_nodes,
        (cur as int) < ch.num_nodes,
        0 <= time <= 3 * VALUE_LIMIT,
        0 <= load <= VALUE_LIMIT,
    ensures
        res matches Some(j) ==> can_follow(*ch, visited@, cur, time as int, load as int, j as int)
            && (forall|k: int| #[trigger] can_follow(*ch, visited@, cur, time as int, load as int, k) ==> ch.d(cur, j) <= ch.d(cur, k as usize))
            && (forall|k: int| k < j && #[trigger] can_follow(*ch, visited@, cur, time as int, load as int, k) ==> ch.d(cur, j) < ch.d(cur, k as usize)),
        res is None ==> forall|k: int| !#[trigger] can_follow(*ch, visited@, cur, time as int, load as int, k),
{
    let n = ch.num_nodes;
    let mut best: Option<usize> = None;
    let mut j: usize = 1;
    while j < n
        invariant
            ch.wf(),
            n == ch.num_nodes,
            visited@.len() == n,
            (cur as int) < n,
            0 <= time <= 3 * VALUE_LIMIT,
            0 <= load <= VALUE_LIMIT,
            1 <= j <= n,
            best matches Some(b) ==> b < j && can_follow(*ch, visited@, cur, time as int, load as int, b as int)
                && (forall|k: int| k < j && #[trigger] can_follow(*ch, visited@, cur, time as int, load as int, k) ==> ch.d(cur, b) <= ch.d(cur, k as usize))
                && (forall|k: int| k < b && #[trigger] can_follow(*ch, visited@, cur, time as int, load as int, k) ==> ch.d(cur, b) < ch.d(cur, k as usize)),
            best is None ==> forall|k: int| k < j ==> !#[trigger] can_follow(*ch, visited@, cur, time as int, load as int, k),
        decreases n - j,
    {
        proof {
            assert(in_limit(ch.demands@[j as int]));
            assert(in_limit(ch.distance_matrix@[cur as int]@[j as int]));
            assert(in_limit(ch.distance_matrix@[j as int]@[0]));
            assert(in_limit(ch.due_times@[j as int]));
            assert(in_limit(ch.ready_times@[j as int]));
            assert(in_limit(ch.due_times@[0]));
        }
        if !visited[j] && load + ch.demands[j] <= ch.max_capacity {
            let arr = time + ch.distance_matrix[cur][j];
            if arr <= ch.due_times[j] {
                let dep = (if arr > ch.ready_times[j] { arr } else { ch.ready_times[j] }) + ch.service_time;
                if dep + ch.distance_matrix[j][0] <= ch.due_times[0] {
                    let closer = match best {
                        None => true,
                        Some(b) => ch.distance_matrix[cur][j] < ch.distance_matrix[cur][b],
                    };
                    if closer {
                        best = Some(j);
                    }
                }
            }
        }
        j += 1;
    }
    best
}

/// Flags of the nodes: only the depot set.
pub(crate) fn depot_flags(n: usize) -> (v: Vec<bool>)
    requires
        n >= 1,
    ensures
        v@.len() == n,
        v@[0],
        forall|k: int| 1 <= k < n ==> !#[trigger] v@[k],
{
    let mut v: Vec<bool> = Vec::new();
    v.push(true);
    while v.len() < n
        invariant
            1 <= v@.len() <= n,
            v@[0],
            forall|k: int| 1 <= k < v@.len() ==> !#[trigger] v@[k],
        decreases n - v.len(),
    {
        v.push(false);
    }
    v
}

/// The seed `s` can be reached on time from the depot and fits the capacity.
pub open spec fn seed_ok(ch: Challenge, s: usize) -> bool {
    ch.d(0, s) <= ch.due(s) && ch.demand(s) <= ch.max_capacity
}

/// The nodes visited once the routes `prev` are done and the route being built
/// has reached `p`: the depot and every customer of either.
pub open spec fn nn_visited(n: nat, prev: Seq<Seq<usize>>, p: Seq<usize>) -> Seq<bool> {
    Seq::new(n, |c: int| c == 0 || all_custs(prev).add(custs(p)).count(c as usize) > 0)
}

/// The time at which a vehicle that left the depot at time 0 and drove along
/// `r` leaves its `k`-th node: arrive, wait for the ready time, serve.
pub open spec fn nn_time(ch: Challenge, r: Seq<usize>, k: int) -> int
    decreases k,
{
    if k <= 0 {
        0
    } else {
        crate::model::max(nn_time(ch, r, k - 1) + ch.d(r[k - 1], r[k]), ch.ready(r[k])) + ch.service_time
    }
}

/// The `k+1`-th node of `r` is the nearest customer that can follow its `k`-th
/// node (the first on ties), with the nodes visited, the time and the load at
/// that point.
pub open spec fn nn_step(ch: Challenge, prev: Seq<Seq<usize>>, r: Seq<usize>, k: int) -> bool {
    let p = r.subrange(0, k + 1);
    let vis = nn_visited(ch.num_nodes as nat, prev, p);
    let t = nn_time(ch, r, k);
    let l = ch.load_of(p);
    &&& can_follow(ch, vis, r[k], t, l, r[k + 1] as int)
    &&& forall|j: int| #[trigger] can_follow(ch, vis, r[k], t, l, j) ==> ch.d(r[k], r[k + 1]) <= ch.d(r[k], j as usize)
    &&& forall|j: int| j < r[k + 1] && #[trigger] can_follow(ch, vis, r[k], t, l, j) ==> ch.d(r[k], r[k + 1]) < ch.d(r[k], j as usize)
}

/// No customer can follow the `k`-th node of `r`, with the nodes visited, the
/// time and the load at that point.
pub open spec fn nn_stuck(ch: Challenge, prev: Seq<Seq<usize>>, r: Seq<usize>, k: int) -> bool {
    let p = r.subrange(0, k + 1);
    forall|j: int| !#[trigger] can_follow(ch, nn_visited(ch.num_nodes as nat, prev, p), r[k], nn_time(ch, r, k), ch.load_of(p), j)
}

/// A nearest-neighbour route built after the routes `prev`: it starts at the
/// unvisited customer with the earliest due time (the first on ties), every
/// step goes to the nearest customer that can follow, and the route returns to
/// the depot only when no customer can follow its last one.
pub open spec fn nn_route(ch: Challenge, prev: Seq<Seq<usize>>, r: Seq<usize>) -> bool {
    let vis0 = nn_visited(ch.num_nodes as nat, prev, r.subrange(0, 1));
    &&& r.len() >= 3
    &&& !vis0[r[1] as int]
    &&& forall|u: int| 1 <= u < ch.num_nodes && !#[trigger] vis0[u] ==> ch.due(r[1]) <= ch.due(u as usize)
    &&& forall|u: int| 1 <= u < r[1] && !#[trigger] vis0[u] ==> ch.due(r[1]) < ch.due(u as usize)
    &&& forall|k: int| 1 <= k < r.len() - 2 ==> #[trigger] nn_step(ch, prev, r, k)
    &&& nn_stuck(ch, prev, r, r.len() - 2)
}

/// Each flag from position 1 on is counted once by `flagged`.
proof fn lemma_flagged_count(s: Seq<bool>)
    requires
        s.len() <= usize::MAX,
    ensures
        forall|c: usize| #[trigger] flagged(s).count(c) == if 1 <= c < s.len() && s[c as int] { 1nat } else { 0nat },
    decreases s.len(),
{
    broadcast use vstd::multiset::group_multiset_axioms;
    if s.len() > 0 {
        lemma_flagged_count(s.drop_last());
        assert forall|c: usize| #[trigger] flagged(s).count(c) == if 1 <= c < s.len() && s[c as int] { 1nat } else { 0nat } by {
            assert(flagged(s).count(c) == flagged(s.drop_last()).count(c) + (if s.last() && s.len() > 1 {
                Multiset::singleton((s.len() - 1) as usize)
            } else {
                Multiset::empty()
            }).count(c));
            if (c as int) < s.len() - 1 {
                assert(s.drop_last()[c as int] == s[c as int]);
            }
        }
    }
}

/// The flags kept by the construction are the visited nodes.
proof fn lemma_flags_visited(n: nat, visited: Seq<bool>, prev: Seq<Seq<usize>>, p: Seq<usize>)
    requires
        visited.len() == n,
        n <= usize::MAX,
        visited[0],
        all_custs(prev).add(custs(p)) == flagged(visited),
    ensures
        visited == nn_visited(n, prev, p),
{
    lemma_flagged_count(visited);
    assert forall|c: int| 0 <= c < n implies visited[c] == #[trigger] nn_visited(n, prev, p)[c] by {
        assert(flagged(visited).count(c as usize) == if 1 <= c < n && visited[c] { 1nat } else { 0nat });
    }
    assert(visited =~= nn_visited(n, prev, p));
}

/// The departure time at a node depends only on the route up to it.
proof fn lemma_nn_time_push(ch: Challenge, r: Seq<usize>, x: usize, k: int)
    requires
        0 <= k < r.len(),
    ensures
        nn_time(ch, r.push(x), k) == nn_time(ch, r, k),
    decreases k,
{
    if k > 0 {
        lemma_nn_time_push(ch, r, x, k - 1);
    }
}

/// A step of a route stays what it was when a node is appended.
proof fn lemma_nn_step_push(ch: Challenge, prev: Seq<Seq<usize>>, r: Seq<usize>, x: usize, k: int)
    requires
        0 <= k,
        k + 1 < r.len(),
    ensures
        nn_step(ch, prev, r.push(x), k) == nn_step(ch, prev, r, k),
{
    lemma_nn_time_push(ch, r, x, k);
    assert(r.push(x).subrange(0, k + 1) =~= r.subrange(0, k + 1));
    assert(r.push(x)[k] == r[k]);
    assert(r.push(x)[k + 1] == r[k + 1]);
}

/// Nearest-neighbour construction: each route starts at the unvisited customer
/// with the earliest due time and then repeatedly moves on to the nearest
/// customer that can follow; every customer is served exactly once.
pub fn nn_construction(ch: &Challenge) -> (routes: Vec<Vec<usize>>)
    requires
        ch.wf(),
    ensures
        forall|c: usize| #[trigger] all_custs(rv(routes@)).count(c) == if 1 <= c < ch.num_nodes { 1nat } else { 0nat },
        all_proper(rv(routes@)),
        forall|i: int| 0 <= i < routes@.len() ==> ch.route_ok(#[trigger] routes@[i]@),
        forall|i: int| 0 <= i < routes@.len() ==> (#[trigger] routes@[i]@).len() >= 3,
        forall|i: int, j: int| #![trigger routes@[i], routes@[j]] 0 <= i < j < routes@.len() ==> ch.due(routes@[i]@[1]) <= ch.due(routes@[j]@[1]),
        forall|i: int| 0 <= i < routes@.len() ==> ch.feasible(seq![0usize, routes@[i]@[1], 0usize]) ==> ch.feasible(#[trigger] routes@[i]@),
        forall|i: int| 0 <= i < routes@.len() ==> nn_route(*ch, rv(routes@).subrange(0, i), #[trigger] routes@[i]@),
{
    broadcast use vstd::multiset::group_multiset_axioms;
    let n = ch.num_nodes;
    let mut visited = depot_flags(n);
    let mut routes: Vec<Vec<usize>> = Vec::new();
    proof {
        lemma_flagged_depot(visited@);
        assert(all_custs(rv(routes@)) =~= Multiset::<usize>::empty());
    }
    loop
        invariant
            ch.wf(),
            n == ch.num_nodes,
            visited@.len() == n,
            visited@[0],
            all_custs(rv(routes@)) == flagged(visited@),
            all_proper(rv(routes@)),
            forall|i: int| 0 <= i < routes@.len() ==> ch.route_ok(#[trigger] routes@[i]@),
            forall|i: int| 0 <= i < routes@.len() ==> (#[trigger] routes@[i]@).len() >= 3,
            forall|i: int, j: int| #![trigger routes@[i], routes@[j]] 0 <= i < j < routes@.len() ==> ch.due(routes@[i]@[1]) <= ch.due(routes@[j]@[1]),
            forall|i: int, u: int| #![trigger routes@[i], visited@[u]] 0 <= i < routes@.len() && 1 <= u < n && !visited@[u] ==> ch.due(routes@[i]@[1]) <= ch.due(u as usize),
            forall|i: int| 0 <= i < routes@.len() ==> ch.feasible(seq![0usize, routes@[i]@[1], 0usize]) ==> ch.feasible(#[trigger] routes@[i]@),
            forall|i: int| 0 <= i < routes@.len() ==> nn_route(*ch, rv(routes@).subrange(0, i), #[trigger] routes@[i]@),
        ensures
            forall|i: int| 0 <= i < routes@.len() ==> nn_route(*ch, rv(routes@).subrange(0, i), #[trigger] routes@[i]@),
            forall|j: int| 1 <= j < n ==> #[trigger] visited@[j],
            visited@.len() == n,
            all_custs(rv(routes@)) == flagged(visited@),
            all_proper(rv(routes@)),
            forall|i: int| 0 <= i < routes@.len() ==> ch.route_ok(#[trigger] routes@[i]@),
            forall|i: int| 0 <= i < routes@.len() ==> (#[trigger] routes@[i]@).len() >= 3,
            forall|i: int, j: int| #![trigger routes@[i], routes@[j]] 0 <= i < j < routes@.len() ==> ch.due(routes@[i]@[1]) <= ch.due(routes@[j]@[1]),
            forall|i: int| 0 <= i < routes@.len() ==> ch.feasible(seq![0usize, routes@[i]@[1], 0usize]) ==> ch.feasible(#[trigger] routes@[i]@),
        decreases count_false(visited@),
    {
        let seed = match earliest_unvisited(ch, &visited) {
            None => break,
            Some(s) => s,
        };
        let ghost vf0 = count_false(visited@);
        let ghost vis_seed = visited@;
        proof {
            crate::model::lemma_custs_single(0);
            assert(custs(seq![0usize]) =~= Multiset::<usize>::empty());
            assert(all_custs(rv(routes@)).add(custs(seq![0usize])) =~= all_custs(rv(routes@)));
            lemma_flags_visited(n as nat, visited@, rv(routes@), seq![0usize]);
        }
        proof {
            assert forall|i: int| 0 <= i < routes@.len() implies ch.due(#[trigger] routes@[i]@[1]) <= ch.due(seed) by {
                assert(!visited@[seed as int]);
            }
            lemma_flagged_flip(visited@, seed as int);
            lemma_count_false_flip(visited@, seed as int);
        }
        visited.set(seed, true);
        let mut route: Vec<usize> = Vec::new();
        route.push(0);
        route.push(seed);
        proof {
            assert(in_limit(ch.demands@[seed as int]));
            assert(in_limit(ch.distance_matrix@[0]@[seed as int]));
            assert(in_limit(ch.ready_times@[seed as int]));
            assert(route@.drop_last() =~= seq![0usize]);
            assert(seq![0usize].drop_last() =~= Seq::<usize>::empty());
            crate::model::lemma_custs_single(0);
            assert(custs(seq![0usize]) =~= Multiset::<usize>::empty());
            assert(route@.last() == seed);
            assert(custs(route@) =~= Multiset::singleton(seed));
        }
        let mut load: i32 = ch.demands[seed];
        let d0 = ch.distance_matrix[0][seed];
        let mut time: i32 = (if d0 > ch.ready_times[seed] { d0 } else { ch.ready_times[seed] }) + ch.service_time;
        let mut cur: usize = seed;
        let ghost prev = rv(routes@);
        proof {
            assert(route@[0] == 0 && route@[1] == seed);
            assert(nn_time(*ch, route@, 0) == 0);
            assert(nn_time(*ch, route@, 1) == crate::model::max(ch.d(0, seed), ch.ready(seed)) + ch.service_time);
            assert(ch.load_of(Seq::<usize>::empty()) == 0);
            assert(seq![0usize].drop_last() =~= Seq::<usize>::empty());
            assert(ch.load_of(seq![0usize]) == 0);
            assert(ch.load_of(route@) == ch.demand(seed));
            assert forall|tail: Seq<usize>| seed_ok(*ch, seed) && #[trigger] ch.walk(cur, tail, time as int, load as int)
                implies ch.walk(0, route@.subrange(1, route@.len() as int) + tail, 0, 0) by {
                let s2 = route@.subrange(1, route@.len() as int) + tail;
                assert(s2[0] == seed);
                assert(s2.drop_first() =~= tail);
            }
        }
        loop
            invariant
                ch.wf(),
                n == ch.num_nodes,
                visited@.len() == n,
                visited@[0],
                all_custs(rv(routes@)).add(custs(route@)) == flagged(visited@),
                route@.len() >= 2,
                route@[0] == 0,
                forall|k: int| 1 <= k < route@.len() ==> #[trigger] route@[k] != 0,
                ch.route_ok(route@),
                (cur as int) < n,
                0 <= time <= 3 * VALUE_LIMIT,
                0 <= load <= VALUE_LIMIT,
                count_false(visited@) < vf0,
                route@[1] == seed,
                forall|i: int| 0 <= i < routes@.len() ==> ch.due(#[trigger] routes@[i]@[1]) <= ch.due(seed),
                forall|u: int| 1 <= u < n && !#[trigger] visited@[u] ==> ch.due(seed) <= ch.due(u as usize),
                forall|i: int| 0 <= i < routes@.len() ==> (#[trigger] routes@[i]@).len() >= 3,
                forall|i: int, j: int| #![trigger routes@[i], routes@[j]] 0 <= i < j < routes@.len() ==> ch.due(routes@[i]@[1]) <= ch.due(routes@[j]@[1]),
                forall|i: int, u: int| #![trigger routes@[i], visited@[u]] 0 <= i < routes@.len() && 1 <= u < n && !visited@[u] ==> ch.due(routes@[i]@[1]) <= ch.due(u as usize),
                forall|i: int| 0 <= i < routes@.len() ==> ch.feasible(seq![0usize, routes@[i]@[1], 0usize]) ==> ch.feasible(#[trigger] routes@[i]@),
                seed_ok(*ch, seed) ==> forall|tail: Seq<usize>| #[trigger] ch.walk(cur, tail, time as int, load as int)
                    ==> ch.walk(0, route@.subrange(1, route@.len() as int) + tail, 0, 0),
                route@.len() > 2 ==> time + ch.d(cur, 0) <= ch.due(0),
                route@.len() == 2 ==> cur == seed && time == crate::model::max(ch.d(0, seed), ch.ready(seed)) + ch.service_time
                    && load == ch.demand(seed),
                prev == rv(routes@),
                cur == route@[route@.len() - 1],
                time as int == nn_time(*ch, route@, route@.len() - 1),
                load as int == ch.load_of(route@),
                forall|k: int| 1 <= k < route@.len() - 1 ==> #[trigger] nn_step(*ch, prev, route@, k),
            ensures
                forall|j: int| !#[trigger] can_follow(*ch, nn_visited(n as nat, prev, route@), cur, time as int, load as int, j),
            decreases count_false(visited@),
        {
            proof {
                lemma_flags_visited(n as nat, visited@, prev, route@);
            }
            let next = match nearest_follower(ch, &visited, cur, time, load) {
                None => break,
                Some(j) => j,
            };
            let ghost vis_b = visited@;
            proof {
                lemma_flagged_flip(visited@, next as int);
                lemma_count_false_flip(visited@, next as int);
                assert(in_limit(ch.demands@[next as int]));
                assert(in_limit(ch.ready_times@[next as int]));
                assert(in_limit(ch.due_times@[next as int]));
                assert(in_limit(ch.distance_matrix@[cur as int]@[next as int]));
            }
            visited.set(next, true);
            let ghost before = route@;
            let ghost cur_b = cur;
            let ghost time_b = time as int;
            let ghost load_b = load as int;
            route.push(next);
            proof {
                assert(route@.drop_last() =~= before);
                assert(cust1(next) =~= Multiset::singleton(next));
            }
            load += ch.demands[next];
            let arr = time + ch.distance_matrix[cur][next];
            time = (if arr > ch.ready_times[next] { arr } else { ch.ready_times[next] }) + ch.service_time;
            cur = next;
            proof {
                let m = before.len() as int;
                assert(route@ == before.push(next));
                assert(route@.drop_last() =~= before);
                assert(ch.load_of(route@) == ch.load_of(before) + ch.demand(next));
                lemma_nn_time_push(*ch, before, next, m - 1);
                assert(nn_time(*ch, route@, m) == crate::model::max(nn_time(*ch, route@, m - 1) + ch.d(cur_b, next), ch.ready(next)) + ch.service_time);
                assert forall|k: int| 1 <= k < route@.len() - 1 implies #[trigger] nn_step(*ch, prev, route@, k) by {
                    if k < m - 1 {
                        lemma_nn_step_push(*ch, prev, before, next, k);
                    } else {
                        assert(route@.subrange(0, k + 1) =~= before);
                        assert(route@[k] == cur_b);
                        assert(route@[k + 1] == next);
                    }
                }
                assert forall|tail: Seq<usize>| seed_ok(*ch, seed) && #[trigger] ch.walk(cur, tail, time as int, load as int)
                    implies ch.walk(0, route@.subrange(1, route@.len() as int) + tail, 0, 0) by {
                    let t2 = seq![next] + tail;
                    assert(t2[0] == next);
                    assert(t2.drop_first() =~= tail);
                    assert(ch.walk(cur_b, t2, time_b, load_b));
                    assert(route@.subrange(1, route@.len() as int) + tail =~= before.subrange(1, before.len() as int) + t2);
                }
            }
        }
        let ghost before = route@;
        route.push(0);
        proof {
            let k = before.len() - 1;
            assert forall|q: int| 1 <= q < route@.len() - 2 implies #[trigger] nn_step(*ch, prev, route@, q) by {
                lemma_nn_step_push(*ch, prev, before, 0usize, q);
            }
            lemma_nn_time_push(*ch, before, 0usize, k);
            assert(route@.subrange(0, k + 1) =~= before);
            assert(route@[k] == cur);
            assert(nn_stuck(*ch, prev, route@, route@.len() - 2));
            assert(route@.subrange(0, 1) =~= seq![0usize]);
            assert(route@[1] == seed);
            assert(nn_route(*ch, prev, route@));
            assert(route@.drop_last() =~= before);
            assert(custs(route@) =~= custs(before));
            assert(proper(route@));
            if ch.feasible(seq![0usize, seed, 0usize]) {
                let z = seq![0usize, seed, 0usize];
                assert(z.subrange(1, 3) =~= seq![seed, 0usize]);
                let w = seq![seed, 0usize];
                assert(w.drop_first() =~= seq![0usize]);
                assert(seed_ok(*ch, seed));
                let zero = seq![0usize];
                assert(zero.drop_first() =~= Seq::<usize>::empty());
                assert(ch.walk(cur, zero, time as int, load as int));
                assert(route@.subrange(1, route@.len() as int) =~= before.subrange(1, before.len() as int) + zero);
                assert(ch.walk(0, route@.subrange(1, route@.len() as int), 0, 0));
            }
        }
        let ghost rs0 = rv(routes@);
        let ghost old_routes_here = routes@;
        let ghost pushed = route@;
        routes.push(route);
        proof {
            assert(rv(routes@) =~= rs0.push(pushed));
            assert forall|i: int| 0 <= i < routes@.len() implies nn_route(*ch, rv(routes@).subrange(0, i), #[trigger] routes@[i]@) by {
                assert(rv(routes@).subrange(0, i) =~= rs0.subrange(0, i));
                if i < routes@.len() - 1 {
                    assert(routes@[i] == old_routes_here[i]);
                } else {
                    assert(rs0.subrange(0, i) =~= rs0);
                }
            }
            assert(rv(routes@).drop_last() =~= rs0);
            assert(routes@.last()@[1] == seed);
            assert forall|i: int, u: int| #![trigger routes@[i], visited@[u]] 0 <= i < routes@.len() && 1 <= u < n && !visited@[u] implies ch.due(routes@[i]@[1]) <= ch.due(u as usize) by {
                if i < routes@.len() - 1 {
                    assert(routes@[i] == old_routes_here[i]);
                }
            }
            assert forall|i: int| 0 <= i < routes@.len() implies ch.feasible(seq![0usize, routes@[i]@[1], 0usize]) ==> ch.feasible(#[trigger] routes@[i]@) by {
                if i < routes@.len() - 1 {
                    assert(routes@[i] == old_routes_here[i]);
                }
            }
            assert forall|i: int, j: int| #![trigger routes@[i], routes@[j]] 0 <= i < j < routes@.len() implies ch.due(routes@[i]@[1]) <= ch.due(routes@[j]@[1]) by {
                assert(routes@[i] == old_routes_here[i]);
                if j < routes@.len() - 1 {
                    assert(routes@[j] == old_routes_here[j]);
                }
            }
        }
    }
    proof {
        lemma_flagged_all(visited@);
    }
    routes
}

/// Route `a` followed by route `b`, without the depot visits between them.
pub open spec fn joined(a: Seq<usize>, b: Seq<usize>) -> Seq<usize> {
    a.subrange(0, a.len() - 1) + b.subrange(1, b.len() as int)
}

/// The customers of `s` in order.
pub open spec fn nonzero(s: Seq<usize>) -> Seq<usize>
    decreases s.len(),
{
    if s.len() == 0 {
        s
    } else if s.last() == 0 {
        nonzero(s.drop_last())
    } else {
        nonzero(s.drop_last()).push(s.last())
    }
}

/// Inserting the customers `jc` one after the other, each at its first cheapest
/// feasible position; `None` as soon as one has no feasible position.
pub open spec fn insert_all(ch: Challenge, cand: Seq<usize>, jc: Seq<usize>) -> Option<Seq<usize>>
    decreases jc.len(),
{
    if jc.len() == 0 {
        Some(cand)
    } else if exists|p: int| #[trigger] first_min_pos(ch, cand, jc[0], p) {
        let p = choose|p: int| #[trigger] first_min_pos(ch, cand, jc[0], p);
        insert_all(ch, cand.insert(p, jc[0]), jc.drop_first())
    } else {
        None
    }
}

/// There is only one first cheapest feasible position.
pub proof fn lemma_first_min_unique(ch: Challenge, r: Seq<usize>, c: usize, p: int, q: int)
    requires
        first_min_pos(ch, r, c, p),
        first_min_pos(ch, r, c, q),
    ensures
        p == q,
{
    if p < q {
        assert(ins_feasible(ch, r, p, c));
    } else if q < p {
        assert(ins_feasible(ch, r, q, c));
    }
}

/// The customers of a route, in order.
fn customers_of(r: &[usize]) -> (res: Vec<usize>)
    ensures
        res@ == nonzero(r@),
{
    let mut out: Vec<usize> = Vec::new();
    let mut k: usize = 0;
    while k < r.len()
        invariant
            k <= r@.len(),
            out@ == nonzero(r@.subrange(0, k as int)),
        decreases r.len() - k,
    {
        assert(r@.subrange(0, k + 1).drop_last() =~= r@.subrange(0, k as int));
        assert(r@.subrange(0, k + 1).last() == r@[k as int]);
        if r[k] != 0 {
            out.push(r[k]);
        }
        k += 1;
    }
    assert(r@.subrange(0, k as int) =~= r@);
    out
}

/// Merges route `rj` into route `ri` by inserting its customers one after the
/// other at their first cheapest feasible positions.
pub fn insertion_merge(ri: &[usize], rj: &[usize], ch: &Challenge) -> (res: Option<Vec<usize>>)
    requires
        ch.wf(),
        ch.route_ok(ri@),
        ch.route_ok(rj@),
    ensures
        res matches Some(v) ==> insert_all(*ch, ri@, nonzero(rj@)) == Some(v@),
        res is None ==> insert_all(*ch, ri@, nonzero(rj@)) is None,
{
    let jc = customers_of(rj);
    proof {
        lemma_nonzero_nodes(rj@, ch.num_nodes as int);
    }
    let mut cand = copy_route(ri);
    let mut k: usize = 0;
    assert(jc@.subrange(0, jc@.len() as int) =~= jc@);
    while k < jc.len()
        invariant
            ch.wf(),
            ch.route_ok(cand@),
            nodes_below(jc@, ch.num_nodes as int),
            jc@ == nonzero(rj@),
            k <= jc@.len(),
            insert_all(*ch, cand@, jc@.subrange(k as int, jc@.len() as int)) == insert_all(*ch, ri@, jc@),
        decreases jc.len() - k,
    {
        let c = jc[k];
        let ghost rest = jc@.subrange(k as int, jc@.len() as int);
        assert(rest[0] == c);
        assert(rest.drop_first() =~= jc@.subrange(k + 1, jc@.len() as int));
        match best_position(&cand, c, ch) {
            Some((_, p)) => {
                proof {
                    assert(first_min_pos(*ch, cand@, c, p as int));
                    let q = choose|q: int| #[trigger] first_min_pos(*ch, cand@, c, q);
                    lemma_first_min_unique(*ch, cand@, c, p as int, q);
                    assert forall|x: int| 0 <= x < cand@.insert(p as int, c).len() implies (#[trigger] cand@.insert(p as int, c)[x] as int) < ch.num_nodes by {
                        if x < p {
                            assert(cand@.insert(p as int, c)[x] == cand@[x]);
                        } else if x > p {
                            assert(cand@.insert(p as int, c)[x] == cand@[x - 1]);
                        }
                    }
                }
                cand.insert(p, c);
            },
            None => {
                proof {
                    assert(!exists|p: int| #[trigger] first_min_pos(*ch, cand@, rest[0], p)) by {
                        if exists|p: int| #[trigger] first_min_pos(*ch, cand@, rest[0], p) {
                            let p = choose|p: int| #[trigger] first_min_pos(*ch, cand@, rest[0], p);
                            assert(ins_feasible(*ch, cand@, p, c));
                        }
                    }
                    assert(insert_all(*ch, cand@, rest) is None);
                }
                return None;
            },
        }
        k += 1;
    }
    proof {
        assert(jc@.subrange(k as int, jc@.len() as int).len() == 0);
    }
    Some(cand)
}

/// The customers of a sequence lie below `n` when its nodes do.
proof fn lemma_nonzero_nodes(s: Seq<usize>, n: int)
    requires
        nodes_below(s, n),
    ensures
        nodes_below(nonzero(s), n),
        forall|k: int| 0 <= k < nonzero(s).len() ==> #[trigger] nonzero(s)[k] != 0,
        nonzero(s).len() <= s.len(),
    decreases s.len(),
{
    if s.len() > 0 {
        lemma_nonzero_nodes(s.drop_last(), n);
        assert(s.last() == s[s.len() - 1]);
    }
}

/// The customers of `s` in order are its customers.
proof fn lemma_nonzero_custs(s: Seq<usize>)
    ensures
        custs(nonzero(s)) =~= custs(s),
    decreases s.len(),
{
    broadcast use vstd::multiset::group_multiset_axioms;
    if s.len() > 0 {
        lemma_nonzero_custs(s.drop_last());
        if s.last() != 0 {
            assert(nonzero(s).drop_last() =~= nonzero(s.drop_last()));
        }
    }
}

/// Inserting all of `jc` keeps the node range and normal form, adds the
/// customers of `jc`, and leaves a feasible route when `jc` is not empty.
proof fn lemma_insert_all(ch: Challenge, cand: Seq<usize>, jc: Seq<usize>)
    requires
        ch.wf(),
        ch.route_ok(cand),
        nodes_below(jc, ch.num_nodes as int),
        forall|k: int| 0 <= k < jc.len() ==> #[trigger] jc[k] != 0,
        insert_all(ch, cand, jc) is Some,
    ensures
        ({
            let v = insert_all(ch, cand, jc)->0;
            &&& ch.route_ok(v)
            &&& custs(v) =~= custs(cand).add(custs(jc))
            &&& v.len() == cand.len() + jc.len()
            &&& proper(cand) ==> proper(v)
            &&& jc.len() > 0 ==> ch.feasible(v)
        }),
    decreases jc.len(),
{
    broadcast use vstd::multiset::group_multiset_axioms;
    if jc.len() == 0 {
        assert(custs(jc) =~= Multiset::<usize>::empty());
    } else {
        let p = choose|p: int| #[trigger] first_min_pos(ch, cand, jc[0], p);
        let nc = cand.insert(p, jc[0]);
        assert forall|x: int| 0 <= x < nc.len() implies (#[trigger] nc[x] as int) < ch.num_nodes by {
            if x < p {
                assert(nc[x] == cand[x]);
            } else if x > p {
                assert(nc[x] == cand[x - 1]);
            }
        }
        assert(nodes_below(jc.drop_first(), ch.num_nodes as int));
        lemma_insert_all(ch, nc, jc.drop_first());
        lemma_custs_insert(cand, p, jc[0]);
        assert(jc =~= seq![jc[0]] + jc.drop_first());
        lemma_custs_concat(seq![jc[0]], jc.drop_first());
        crate::model::lemma_custs_single(jc[0]);
        if proper(cand) {
            lemma_insert_proper(cand, p, jc[0]);
        }
        if jc.len() == 1 {
            assert(jc.drop_first().len() == 0);
        }
    }
}

/// Joining two routes in normal form gives one in normal form with the
/// customers of both.
proof fn lemma_joined(a: Seq<usize>, b: Seq<usize>, n: int)
    requires
        proper(a),
        proper(b),
        nodes_below(a, n),
        nodes_below(b, n),
    ensures
        proper(joined(a, b)),
        custs(joined(a, b)) =~= custs(a).add(custs(b)),
        nodes_below(joined(a, b), n),
        joined(a, b).len() == a.len() + b.len() - 2,
{
    broadcast use vstd::multiset::group_multiset_axioms;
    let a0 = a.subrange(0, a.len() - 1);
    let b1 = b.subrange(1, b.len() as int);
    let j = joined(a, b);
    assert(a =~= a0 + seq![0usize]);
    assert(b =~= seq![0usize] + b1);
    lemma_custs_concat(a0, seq![0usize]);
    lemma_custs_concat(seq![0usize], b1);
    lemma_custs_concat(a0, b1);
    crate::model::lemma_custs_single(0);
    assert forall|k: int| 0 < k < j.len() - 1 implies #[trigger] j[k] != 0 by {
        if k < a0.len() {
            assert(j[k] == a[k]);
        } else {
            assert(j[k] == b[k - a0.len() + 1]);
        }
    }
    assert forall|k: int| 0 <= k < j.len() implies (#[trigger] j[k] as int) < n by {
        if k < a0.len() {
            assert(j[k] == a[k]);
        } else {
            assert(j[k] == b[k - a0.len() + 1]);
        }
    }
}

/// Number of nodes over all routes.
pub open spec fn total_nodes(rs: Seq<Seq<usize>>) -> int
    decreases rs.len(),
{
    if rs.len() == 0 {
        0
    } else {
        total_nodes(rs.drop_last()) + rs.last().len()
    }
}

pub proof fn lemma_total_nodes(rs: Seq<Seq<usize>>, i: int, x: Seq<usize>)
    requires
        0 <= i < rs.len(),
    ensures
        total_nodes(rs.update(i, x)) == total_nodes(rs) - rs[i].len() + x.len(),
        total_nodes(rs.remove(i)) == total_nodes(rs) - rs[i].len(),
        forall|k: int| 0 <= k < rs.len() ==> (#[trigger] rs[k]).len() <= total_nodes(rs),
        forall|k: int, l: int| 0 <= k < l < rs.len() ==> (#[trigger] rs[k]).len() + (#[trigger] rs[l]).len() <= total_nodes(rs),
        total_nodes(rs) >= 0,
    decreases rs.len(),
{
    if i == rs.len() - 1 {
        assert(rs.update(i, x).drop_last() =~= rs.drop_last());
        assert(rs.remove(i) =~= rs.drop_last());
        if rs.len() > 1 {
            lemma_total_nodes(rs.drop_last(), 0, x);
        }
    } else {
        assert(rs.update(i, x).drop_last() =~= rs.drop_last().update(i, x));
        assert(rs.remove(i).drop_last() =~= rs.drop_last().remove(i));
        lemma_total_nodes(rs.drop_last(), i, x);
    }
    assert forall|k: int, l: int| 0 <= k < l < rs.len() implies (#[trigger] rs[k]).len() + (#[trigger] rs[l]).len() <= total_nodes(rs) by {
        if l < rs.len() - 1 {
            assert(rs[k] == rs.drop_last()[k]);
            assert(rs[l] == rs.drop_last()[l]);
        } else {
            assert(rs[k] == rs.drop_last()[k]);
        }
    }
}

/// Routes that the merge step works on: in normal form, within the instance,
/// with few enough nodes overall for every merged route's length to fit.
pub open spec fn merge_state(ch: Challenge, rs: Seq<Seq<usize>>) -> bool {
    &&& ch.wf()
    &&& all_proper(rs)
    &&& forall|i: int| 0 <= i < rs.len() ==> ch.route_ok(#[trigger] rs[i])
    &&& total_nodes(rs) <= LEN_LIMIT
}

/// Routes `i` and `j` together stay within the capacity.
pub open spec fn merge_fits(ch: Challenge, rs: Seq<Seq<usize>>, i: int, j: int) -> bool {
    ch.load_of(rs[i]) + ch.load_of(rs[j]) <= ch.max_capacity
}

/// Change of total length when routes `a` and `b` are replaced by `m`.
pub open spec fn merge_delta(ch: Challenge, m: Seq<usize>, a: Seq<usize>, b: Seq<usize>) -> int {
    route_len(ch.distance_matrix@, m) - route_len(ch.distance_matrix@, a) - route_len(ch.distance_matrix@, b)
}

/// Every merge of routes `i` and `j` changes the length by at least `d`.
pub open spec fn merge_beaten(ch: Challenge, rs: Seq<Seq<usize>>, i: int, j: int, d: int) -> bool {
    &&& ch.feasible(joined(rs[i], rs[j])) ==> d <= merge_delta(ch, joined(rs[i], rs[j]), rs[i], rs[j])
    &&& insert_all(ch, rs[i], nonzero(rs[j])) is Some ==> d <= merge_delta(
        ch,
        insert_all(ch, rs[i], nonzero(rs[j]))->0,
        rs[i],
        rs[j],
    )
}

/// Routes `i` and `j` cannot be merged: joined they are infeasible, and some
/// customer of `j` has no feasible position when inserted into `i`.
pub open spec fn no_merge(ch: Challenge, rs: Seq<Seq<usize>>, i: int, j: int) -> bool {
    !ch.feasible(joined(rs[i], rs[j])) && insert_all(ch, rs[i], nonzero(rs[j])) is None
}

/// `m` merges routes `i < j`: their joined route when feasible, or route `j`'s
/// customers inserted into route `i`.
pub open spec fn merge_ok(ch: Challenge, rs: Seq<Seq<usize>>, i: int, j: int, m: Seq<usize>) -> bool {
    &&& 0 <= i < j < rs.len()
    &&& merge_fits(ch, rs, i, j)
    &&& (m == joined(rs[i], rs[j]) && ch.feasible(m)) || insert_all(ch, rs[i], nonzero(rs[j])) == Some(m)
}

/// Route `a` followed by route `b`, without the depot visits between them.
fn join_routes(a: &[usize], b: &[usize]) -> (res: Vec<usize>)
    requires
        a@.len() >= 1,
        b@.len() >= 1,
    ensures
        res@ == joined(a@, b@),
{
    let mut out: Vec<usize> = Vec::new();
    let mut k: usize = 0;
    let last = a.len() - 1;
    while k < last
        invariant
            a@.len() >= 1,
            last == a@.len() - 1,
            k <= a@.len() - 1,
            out@ == a@.subrange(0, k as int),
        decreases a.len() - k,
    {
        out.push(a[k]);
        k += 1;
        assert(out@ =~= a@.subrange(0, k as int));
    }
    let mut t: usize = 1;
    while t < b.len()
        invariant
            a@.len() >= 1,
            b@.len() >= 1,
            1 <= t <= b@.len(),
            out@ == a@.subrange(0, a@.len() - 1) + b@.subrange(1, t as int),
        decreases b.len() - t,
    {
        out.push(b[t]);
        t += 1;
        assert(out@ =~= a@.subrange(0, a@.len() - 1) + b@.subrange(1, t as int));
    }
    out
}

/// Considers merging routes `i < j` against the best merge so far.
fn consider_pair(
    routes: &[Vec<usize>],
    i: usize,
    j: usize,
    ch: &Challenge,
    best: Option<(i64, usize, usize, Vec<usize>)>,
) -> (res: Option<(i64, usize, usize, Vec<usize>)>)
    requires
        merge_state(*ch, rv(routes@)),
        i < j < routes@.len(),
        best matches Some(b) ==> merge_ok(*ch, rv(routes@), b.1 as int, b.2 as int, b.3@) && b.0 == merge_delta(
            *ch,
            b.3@,
            rv(routes@)[b.1 as int],
            rv(routes@)[b.2 as int],
        ),
    ensures
        res matches Some(r) ==> merge_ok(*ch, rv(routes@), r.1 as int, r.2 as int, r.3@) && r.0 == merge_delta(
            *ch,
            r.3@,
            rv(routes@)[r.1 as int],
            rv(routes@)[r.2 as int],
        ),
        best is Some ==> res is Some,
        res matches Some(r) ==> (best matches Some(b) ==> r.0 <= b.0),
        res matches Some(r) ==> (merge_fits(*ch, rv(routes@), i as int, j as int) ==> merge_beaten(*ch, rv(routes@), i as int, j as int, r.0 as int)),
        res is None ==> (merge_fits(*ch, rv(routes@), i as int, j as int) ==> no_merge(*ch, rv(routes@), i as int, j as int)),
        res matches Some(r) ==> (best == Some(r) || (r.1 == i && r.2 == j)),
{
    let ghost rs = rv(routes@);
    let ri = &routes[i];
    let rj = &routes[j];
    assert(rs[i as int] == ri@ && rs[j as int] == rj@);
    proof {
        lemma_total_nodes(rs, 0, rs[0]);
        assert(ri@.len() + rj@.len() <= LEN_LIMIT);
        assert(proper(ri@) && proper(rj@));
        lemma_route_len_upper(ch.distance_matrix@, ri@);
        lemma_route_len_upper(ch.distance_matrix@, rj@);
        lemma_route_len_nonneg(ch.distance_matrix@, ri@);
        lemma_route_len_nonneg(ch.distance_matrix@, rj@);
    }
    let li = route_load(ri, ch);
    let lj = route_load(rj, ch);
    if li + lj > ch.max_capacity {
        return best;
    }
    let mut cur = best;
    let di = route_dist(ri, &ch.distance_matrix);
    let dj = route_dist(rj, &ch.distance_matrix);
    let m = join_routes(ri, rj);
    proof {
        lemma_joined(ri@, rj@, ch.num_nodes as int);
        lemma_route_len_upper(ch.distance_matrix@, m@);
        lemma_route_len_nonneg(ch.distance_matrix@, m@);
    }
    if is_feasible(&m, ch) {
        let dm_ = route_dist(&m, &ch.distance_matrix);
        let d = dm_ as i64 - di as i64 - dj as i64;
        let take = match cur {
            None => true,
            Some(ref b) => d < b.0,
        };
        if take {
            cur = Some((d, i, j, m));
        }
    }
    let ghost after_join = cur;
    match insertion_merge(ri, rj, ch) {
        Some(c) => {
            proof {
                lemma_nonzero_nodes(rj@, ch.num_nodes as int);
                lemma_insert_all(*ch, ri@, nonzero(rj@));
                lemma_route_len_upper(ch.distance_matrix@, c@);
                lemma_route_len_nonneg(ch.distance_matrix@, c@);
            }
            let dc = route_dist(&c, &ch.distance_matrix);
            let orig = di + dj;
            let d = dc as i64 - orig as i64;
            let take = match cur {
                None => true,
                Some(ref b) => d < b.0,
            };
            if take {
                cur = Some((d, i, j, c));
            }
        },
        None => {},
    }
    cur
}

/// The best merge of two routes: among all pairs `i < j` that fit together, the
/// joined route or the insertion merge with the smallest change of total length
/// (the first in scan order on ties, the joined route before the insertion
/// merge of the same pair); `None` when no pair can be merged.
pub fn best_merge(routes: &[Vec<usize>], ch: &Challenge) -> (res: Option<(usize, usize, Vec<usize>)>)
    requires
        merge_state(*ch, rv(routes@)),
    ensures
        res matches Some((i, j, m)) ==> merge_ok(*ch, rv(routes@), i as int, j as int, m@) && forall|i2: int, j2: int|
            0 <= i2 < j2 < routes@.len() && #[trigger] merge_fits(*ch, rv(routes@), i2, j2) ==> #[trigger] merge_beaten(
                *ch,
                rv(routes@),
                i2,
                j2,
                merge_delta(*ch, m@, rv(routes@)[i as int], rv(routes@)[j as int]),
            ),
        res is None ==> forall|i2: int, j2: int| 0 <= i2 < j2 < routes@.len() && #[trigger] merge_fits(*ch, rv(routes@), i2, j2)
            ==> #[trigger] no_merge(*ch, rv(routes@), i2, j2),
{
    let ghost rs = rv(routes@);
    let mut best: Option<(i64, usize, usize, Vec<usize>)> = None;
    let mut i: usize = 0;
    while i < routes.len()
        invariant
            rs == rv(routes@),
            merge_state(*ch, rs),
            i <= routes@.len(),
            best matches Some(b) ==> merge_ok(*ch, rs, b.1 as int, b.2 as int, b.3@) && b.0 == merge_delta(*ch, b.3@, rs[b.1 as int], rs[b.2 as int]),
            best matches Some(b) ==> forall|i2: int, j2: int| 0 <= i2 < i && i2 < j2 < rs.len() && #[trigger] merge_fits(*ch, rs, i2, j2)
                ==> #[trigger] merge_beaten(*ch, rs, i2, j2, b.0 as int),
            best is None ==> forall|i2: int, j2: int| 0 <= i2 < i && i2 < j2 < rs.len() && #[trigger] merge_fits(*ch, rs, i2, j2)
                ==> #[trigger] no_merge(*ch, rs, i2, j2),
        decreases routes.len() - i,
    {
        let mut j: usize = i + 1;
        while j < routes.len()
            invariant
                rs == rv(routes@),
                merge_state(*ch, rs),
                i < routes@.len(),
                i + 1 <= j <= routes@.len(),
                best matches Some(b) ==> merge_ok(*ch, rs, b.1 as int, b.2 as int, b.3@) && b.0 == merge_delta(*ch, b.3@, rs[b.1 as int], rs[b.2 as int]),
                best matches Some(b) ==> forall|i2: int, j2: int| (0 <= i2 < i && i2 < j2 < rs.len() || i2 == i && i < j2 < j)
                    && #[trigger] merge_fits(*ch, rs, i2, j2) ==> #[trigger] merge_beaten(*ch, rs, i2, j2, b.0 as int),
                best is None ==> forall|i2: int, j2: int| (0 <= i2 < i && i2 < j2 < rs.len() || i2 == i && i < j2 < j)
                    && #[trigger] merge_fits(*ch, rs, i2, j2) ==> #[trigger] no_merge(*ch, rs, i2, j2),
            decreases routes.len() - j,
        {
            let ghost old_best = best;
            best = consider_pair(routes, i, j, ch, best);
            let ghost gb = best;
            proof {
                if let Some(b) = gb {
                    assert forall|i2: int, j2: int| (0 <= i2 < i && i2 < j2 < rs.len() || i2 == i && i < j2 < j + 1)
                        && #[trigger] merge_fits(*ch, rs, i2, j2) implies #[trigger] merge_beaten(*ch, rs, i2, j2, b.0 as int) by {
                        if !(i2 == i && j2 == j) {
                            if let Some(ob) = old_best {
                                assert(merge_beaten(*ch, rs, i2, j2, ob.0 as int));
                            } else {
                                assert(no_merge(*ch, rs, i2, j2));
                            }
                        }
                    }
                }
            }
            j += 1;
        }
        i += 1;
    }
    match best {
        Some(b) => Some((b.1, b.2, b.3)),
        None => None,
    }
}

/// Merging routes `i < j` into `m` keeps the customers and the merge state.
proof fn lemma_merge_step(ch: Challenge, rs: Seq<Seq<usize>>, i: int, j: int, m: Seq<usize>)
    requires
        merge_state(ch, rs),
        merge_ok(ch, rs, i, j, m),
    ensures
        merge_state(ch, rs.update(i, m).remove(j)),
        all_custs(rs.update(i, m).remove(j)) == all_custs(rs),
        ch.feasible(m) || m == rs[i],
{
    broadcast use vstd::multiset::group_multiset_axioms;
    let a = rs[i];
    let b = rs[j];
    assert(proper(a) && proper(b));
    lemma_joined(a, b, ch.num_nodes as int);
    lemma_nonzero_nodes(b, ch.num_nodes as int);
    lemma_nonzero_custs(b);
    if !(m == joined(a, b) && ch.feasible(m)) {
        lemma_insert_all(ch, a, nonzero(b));
        if nonzero(b).len() == 0 {
            assert(insert_all(ch, a, nonzero(b)) == Some(a));
        }
    }
    assert(custs(m) =~= custs(a).add(custs(b)));
    assert(proper(m));
    assert(ch.route_ok(m));
    let u = rs.update(i, m);
    let v = u.remove(j);
    lemma_total_nodes(rs, i, m);
    lemma_total_nodes(u, j, m);
    assert(u[j] == b);
    lemma_all_custs_update(rs, i, m);
    lemma_all_custs_remove(u, j);
    assert(all_custs(v) =~= all_custs(rs)) by {
        assert forall|x: usize| all_custs(v).count(x) == all_custs(rs).count(x) by {
            assert(all_custs(v).add(custs(b)).count(x) == all_custs(u).count(x));
            assert(all_custs(u).add(custs(a)).count(x) == all_custs(rs).add(custs(m)).count(x));
        }
    }
    assert forall|k: int| 0 <= k < v.len() implies proper(#[trigger] v[k]) && ch.route_ok(v[k]) by {
        if k < j {
            assert(v[k] == u[k]);
        } else {
            assert(v[k] == u[k + 1]);
        }
    }
    if m != joined(a, b) || !ch.feasible(m) {
        if nonzero(b).len() > 0 {
            assert(ch.feasible(m));
        }
    }
}

/// Merges routes, best merge first (see `best_merge`), while there are more
/// routes than vehicles and some pair can be merged.
pub fn merge_to_fleet(routes: &mut Vec<Vec<usize>>, ch: &Challenge)
    requires
        merge_state(*ch, rv(old(routes)@)),
    ensures
        merge_state(*ch, rv(final(routes)@)),
        all_custs(rv(final(routes)@)) == all_custs(rv(old(routes)@)),
        final(routes)@.len() <= old(routes)@.len(),
        final(routes)@.len() > ch.fleet_size ==> forall|i: int, j: int| 0 <= i < j < final(routes)@.len()
            && #[trigger] merge_fits(*ch, rv(final(routes)@), i, j) ==> #[trigger] no_merge(*ch, rv(final(routes)@), i, j),
        forall|k: int| 0 <= k < final(routes)@.len() ==> ch.feasible(#[trigger] final(routes)@[k]@) || rv(old(routes)@).contains(final(routes)@[k]@),
        old(routes)@.len() <= ch.fleet_size ==> final(routes)@ == old(routes)@,
{
    let ghost orig = rv(routes@);
    proof {
        assert forall|k: int| 0 <= k < routes@.len() implies ch.feasible(#[trigger] routes@[k]@) || orig.contains(routes@[k]@) by {
            assert(orig[k] == routes@[k]@);
        }
    }
    while routes.len() > ch.fleet_size
        invariant
            merge_state(*ch, rv(routes@)),
            all_custs(rv(routes@)) == all_custs(orig),
            routes@.len() <= orig.len(),
            forall|k: int| 0 <= k < routes@.len() ==> ch.feasible(#[trigger] routes@[k]@) || orig.contains(routes@[k]@),
            orig.len() == old(routes)@.len(),
            old(routes)@.len() <= ch.fleet_size ==> routes@ == old(routes)@,
        ensures
            old(routes)@.len() <= ch.fleet_size ==> routes@ == old(routes)@,
            merge_state(*ch, rv(routes@)),
            all_custs(rv(routes@)) == all_custs(orig),
            routes@.len() <= orig.len(),
            forall|k: int| 0 <= k < routes@.len() ==> ch.feasible(#[trigger] routes@[k]@) || orig.contains(routes@[k]@),
            routes@.len() > ch.fleet_size ==> forall|i: int, j: int| 0 <= i < j < routes@.len()
                && #[trigger] merge_fits(*ch, rv(routes@), i, j) ==> #[trigger] no_merge(*ch, rv(routes@), i, j),
        decreases routes.len(),
    {
        match best_merge(routes, ch) {
            Some((i, j, m)) => {
                let ghost rs = rv(routes@);
                let ghost prev = routes@;
                proof {
                    lemma_merge_step(*ch, rs, i as int, j as int, m@);
                }
                let ghost mv = m@;
                routes.set(i, m);
                routes.remove(j);
                proof {
                    assert(rv(routes@) =~= rs.update(i as int, mv).remove(j as int));
                    assert forall|k: int| 0 <= k < routes@.len() implies ch.feasible(#[trigger] routes@[k]@) || orig.contains(routes@[k]@) by {
                        let src = if k < j { k } else { k + 1 };
                        if src == i {
                            assert(routes@[k]@ == mv);
                            if !ch.feasible(mv) {
                                assert(mv == rs[i as int]);
                                assert(rs[i as int] == prev[i as int]@);
                            }
                        } else {
                            assert(routes@[k] == prev[src]);
                        }
                    }
                }
            },
            None => {
                break;
            },
        }
    }
}

} // verus!
