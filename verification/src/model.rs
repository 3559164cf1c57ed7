//! The problem instance, the solution type, and the mathematical model of
//! routes (distance, time-window and capacity feasibility, customer multisets).
use vstd::prelude::*;
use vstd::multiset::Multiset;

verus! {

/// Upper bound on every distance, demand, time, service time and capacity of an
/// instance. Together with `LEN_LIMIT` it keeps every `i32` computation on a
/// route free of overflow.
pub const VALUE_LIMIT: i32 = 100_000;

/// Upper bound on the length of a route whose schedule is tabulated.
pub const LEN_LIMIT: usize = 10_000;

/// Upper bound on the length of the routes that the improvement moves take;
/// joining two such routes stays within `LEN_LIMIT`.
pub const ROUTE_LIMIT: usize = 5_000;

/// A VRPTW instance. Node 0 is the depot, nodes `1..num_nodes` are customers.
pub struct Challenge {
    pub seed: [u8; 32],
    pub num_nodes: usize,
    pub demands: Vec<i32>,
    pub node_positions: Vec<(i32, i32)>,
    pub distance_matrix: Vec<Vec<i32>>,
    pub max_capacity: i32,
    pub fleet_size: usize,
    pub service_time: i32,
    pub ready_times: Vec<i32>,
    pub due_times: Vec<i32>,
}

/// A set of routes; each route starts and ends at the depot.
pub struct Solution {
    pub routes: Vec<Vec<usize>>,
}

/// Parameters of the solver; the solver takes none.
pub struct Hyperparameters {}

pub open spec fn in_limit(x: i32) -> bool {
    0 <= x <= VALUE_LIMIT
}

/// A square, non-negative distance matrix over `n` nodes with bounded entries.
pub open spec fn dm_ok(dm: Seq<Vec<i32>>, n: int) -> bool {
    &&& dm.len() == n
    &&& forall|i: int| 0 <= i < n ==> #[trigger] dm[i]@.len() == n
    &&& forall|i: int, j: int| 0 <= i < n && 0 <= j < n ==> in_limit(#[trigger] dm[i]@[j])
}

/// A per-node table of `n` bounded non-negative values.
pub open spec fn table_ok(t: Seq<i32>, n: int) -> bool {
    &&& t.len() == n
    &&& forall|i: int| 0 <= i < n ==> in_limit(#[trigger] t[i])
}

pub open spec fn dd(dm: Seq<Vec<i32>>, a: usize, b: usize) -> int {
    dm[a as int]@[b as int] as int
}

pub open spec fn nodes_below(r: Seq<usize>, n: int) -> bool {
    forall|k: int| 0 <= k < r.len() ==> (#[trigger] r[k] as int) < n
}

pub open spec fn max(a: int, b: int) -> int {
    if a >= b { a } else { b }
}

pub open spec fn min(a: int, b: int) -> int {
    if a <= b { a } else { b }
}

impl Challenge {
    /// Well-formedness: a depot exists, every table has one entry per node and
    /// every value lies in `0..=VALUE_LIMIT`.
    pub open spec fn wf(&self) -> bool {
        let n = self.num_nodes as int;
        &&& n >= 1
        &&& dm_ok(self.distance_matrix@, n)
        &&& table_ok(self.demands@, n)
        &&& table_ok(self.ready_times@, n)
        &&& table_ok(self.due_times@, n)
        &&& in_limit(self.service_time)
        &&& in_limit(self.max_capacity)
    }

    pub open spec fn d(&self, a: usize, b: usize) -> int {
        dd(self.distance_matrix@, a, b)
    }

    pub open spec fn due(&self, a: usize) -> int {
        self.due_times@[a as int] as int
    }

    pub open spec fn ready(&self, a: usize) -> int {
        self.ready_times@[a as int] as int
    }

    pub open spec fn demand(&self, a: usize) -> int {
        self.demands@[a as int] as int
    }

    /// Every node of `r` is a node of the instance.
    pub open spec fn route_ok(&self, r: Seq<usize>) -> bool {
        nodes_below(r, self.num_nodes as int)
    }

    /// Walk over the nodes `rest`, coming from node `prev` which was left at
    /// `time` with `load` already delivered: each customer must be reached by its
    /// due time (waiting until its ready time, then serving it), the load may never
    /// exceed the capacity, and the walk ends at the first return to the depot,
    /// which must be on time.
    pub open spec fn walk(&self, prev: usize, rest: Seq<usize>, time: int, load: int) -> bool
        decreases rest.len(),
    {
        if rest.len() == 0 {
            true
        } else {
            let curr = rest[0];
            let t = time + self.d(prev, curr);
            if curr == 0 {
                t <= self.due(0)
            } else if t > self.due(curr) {
                false
            } else if load + self.demand(curr) > self.max_capacity {
                false
            } else {
                self.walk(
                    curr,
                    rest.drop_first(),
                    max(t, self.ready(curr)) + self.service_time,
                    load + self.demand(curr),
                )
            }
        }
    }

    /// A route is feasible when its walk from its first node at time 0 succeeds.
    pub open spec fn feasible(&self, r: Seq<usize>) -> bool {
        r.len() <= 1 || self.walk(r[0], r.subrange(1, r.len() as int), 0, 0)
    }

    /// Total demand of the customers of `s`.
    pub open spec fn load_of(&self, s: Seq<usize>) -> int
        decreases s.len(),
    {
        if s.len() == 0 {
            0
        } else {
            self.load_of(s.drop_last()) + if s.last() == 0 { 0 } else { self.demand(s.last()) }
        }
    }
}

/// A route in normal form: it starts and ends at the depot and visits only
/// customers in between.
pub open spec fn proper(r: Seq<usize>) -> bool {
    &&& r.len() >= 2
    &&& r[0] == 0
    &&& r[r.len() - 1] == 0
    &&& forall|k: int| 0 < k < r.len() - 1 ==> #[trigger] r[k] != 0
}

/// Total length of the edges of a route.
pub open spec fn route_len(dm: Seq<Vec<i32>>, r: Seq<usize>) -> int
    decreases r.len(),
{
    if r.len() < 2 {
        0
    } else {
        route_len(dm, r.drop_last()) + dd(dm, r[r.len() - 2], r[r.len() - 1])
    }
}

/// A node as a multiset of customers: empty for the depot.
pub open spec fn cust1(x: usize) -> Multiset<usize> {
    if x == 0 { Multiset::empty() } else { Multiset::singleton(x) }
}

/// The customers (non-depot nodes) of a route, as a multiset.
pub open spec fn custs(r: Seq<usize>) -> Multiset<usize>
    decreases r.len(),
{
    if r.len() == 0 {
        Multiset::empty()
    } else {
        custs(r.drop_last()).add(cust1(r.last()))
    }
}

/// The view of a vector of routes as a sequence of sequences.
pub open spec fn rv(routes: Seq<Vec<usize>>) -> Seq<Seq<usize>> {
    routes.map_values(|r: Vec<usize>| r@)
}

/// All customers served by a set of routes, as a multiset.
pub open spec fn all_custs(rs: Seq<Seq<usize>>) -> Multiset<usize>
    decreases rs.len(),
{
    if rs.len() == 0 {
        Multiset::empty()
    } else {
        all_custs(rs.drop_last()).add(custs(rs.last()))
    }
}

/// Sum of the lengths of all routes.
pub open spec fn total_len(dm: Seq<Vec<i32>>, rs: Seq<Seq<usize>>) -> int
    decreases rs.len(),
{
    if rs.len() == 0 {
        0
    } else {
        total_len(dm, rs.drop_last()) + route_len(dm, rs.last())
    }
}


/// The load of a concatenation is the sum of the loads.
pub proof fn lemma_load_concat(ch: Challenge, a: Seq<usize>, b: Seq<usize>)
    ensures
        ch.load_of(a + b) == ch.load_of(a) + ch.load_of(b),
    decreases b.len(),
{
    if b.len() == 0 {
        assert(a + b =~= a);
    } else {
        assert((a + b).drop_last() =~= a + b.drop_last());
        lemma_load_concat(ch, a, b.drop_last());
    }
}

/// The load of a sequence, split at its first element.
pub proof fn lemma_load_first(ch: Challenge, s: Seq<usize>)
    requires
        s.len() >= 1,
    ensures
        ch.load_of(s) == (if s[0] == 0 { 0 } else { ch.demand(s[0]) }) + ch.load_of(s.drop_first()),
{
    assert(s =~= seq![s[0]] + s.drop_first());
    lemma_load_concat(ch, seq![s[0]], s.drop_first());
    let one = seq![s[0]];
    assert(one.drop_last() =~= Seq::<usize>::empty());
    assert(ch.load_of(one.drop_last()) == 0);
    assert(ch.load_of(one) == (if s[0] == 0 { 0 } else { ch.demand(s[0]) }));
}

pub proof fn lemma_load_nonneg(ch: Challenge, s: Seq<usize>)
    requires
        ch.wf(),
        ch.route_ok(s),
    ensures
        ch.load_of(s) >= 0,
    decreases s.len(),
{
    if s.len() > 0 {
        lemma_load_nonneg(ch, s.drop_last());
        assert(in_limit(ch.demands@[s.last() as int]));
    }
}


/// The customers of a concatenation are those of its parts.
pub proof fn lemma_custs_concat(a: Seq<usize>, b: Seq<usize>)
    ensures
        custs(a + b) =~= custs(a).add(custs(b)),
    decreases b.len(),
{
    broadcast use vstd::multiset::group_multiset_axioms;
    if b.len() == 0 {
        assert(a + b =~= a);
    } else {
        assert((a + b).drop_last() =~= a + b.drop_last());
        lemma_custs_concat(a, b.drop_last());
    }
}

pub proof fn lemma_custs_single(x: usize)
    ensures
        custs(seq![x]) =~= cust1(x),
{
    broadcast use vstd::multiset::group_multiset_axioms;
    assert(seq![x].drop_last() =~= Seq::<usize>::empty());
    assert(custs(Seq::<usize>::empty()) =~= Multiset::<usize>::empty());
    assert(seq![x].last() == x);
}

/// Inserting a node adds it to the customers (unless it is the depot).
pub proof fn lemma_custs_insert(s: Seq<usize>, i: int, x: usize)
    requires
        0 <= i <= s.len(),
    ensures
        custs(s.insert(i, x)) =~= custs(s).add(cust1(x)),
{
    broadcast use vstd::multiset::group_multiset_axioms;
    let a = s.subrange(0, i);
    let b = s.subrange(i, s.len() as int);
    assert(s =~= a + b);
    assert(s.insert(i, x) =~= a + (seq![x] + b));
    lemma_custs_concat(a, seq![x] + b);
    lemma_custs_concat(seq![x], b);
    lemma_custs_concat(a, b);
    lemma_custs_single(x);
}

/// Removing a node removes it from the customers (unless it is the depot).
pub proof fn lemma_custs_remove(s: Seq<usize>, i: int)
    requires
        0 <= i < s.len(),
    ensures
        custs(s.remove(i)).add(cust1(s[i])) =~= custs(s),
{
    assert(s.remove(i).insert(i, s[i]) =~= s);
    lemma_custs_insert(s.remove(i), i, s[i]);
}

/// Replacing a route changes the customers of all routes accordingly.
pub proof fn lemma_all_custs_update(rs: Seq<Seq<usize>>, i: int, r: Seq<usize>)
    requires
        0 <= i < rs.len(),
    ensures
        all_custs(rs.update(i, r)).add(custs(rs[i])) =~= all_custs(rs).add(custs(r)),
    decreases rs.len(),
{
    broadcast use vstd::multiset::group_multiset_axioms;
    if i == rs.len() - 1 {
        assert(rs.update(i, r).drop_last() =~= rs.drop_last());
        assert(rs.update(i, r).last() == r);
    } else {
        assert(rs.update(i, r).drop_last() =~= rs.drop_last().update(i, r));
        assert(rs.update(i, r).last() == rs.last());
        assert(rs.drop_last()[i] == rs[i]);
        lemma_all_custs_update(rs.drop_last(), i, r);
        let lhs = all_custs(rs.update(i, r)).add(custs(rs[i]));
        let rhs = all_custs(rs).add(custs(r));
        assert(all_custs(rs.update(i, r)) == all_custs(rs.drop_last().update(i, r)).add(custs(rs.last())));
        assert(all_custs(rs) == all_custs(rs.drop_last()).add(custs(rs.last())));
        assert forall|x: usize| lhs.count(x) == rhs.count(x) by {
            assert(all_custs(rs.drop_last().update(i, r)).add(custs(rs[i])).count(x) == all_custs(
                rs.drop_last(),
            ).add(custs(r)).count(x));
        }
    }
}

/// Removing a route removes its customers.
pub proof fn lemma_all_custs_remove(rs: Seq<Seq<usize>>, i: int)
    requires
        0 <= i < rs.len(),
    ensures
        all_custs(rs.remove(i)).add(custs(rs[i])) =~= all_custs(rs),
    decreases rs.len(),
{
    broadcast use vstd::multiset::group_multiset_axioms;
    if i == rs.len() - 1 {
        assert(rs.remove(i) =~= rs.drop_last());
    } else {
        assert(rs.remove(i).drop_last() =~= rs.drop_last().remove(i));
        lemma_all_custs_remove(rs.drop_last(), i);
    }
}

/// A route without customers contributes nothing.
pub proof fn lemma_custs_depots(s: Seq<usize>)
    requires
        forall|k: int| 0 <= k < s.len() ==> s[k] == 0,
    ensures
        custs(s) =~= Multiset::<usize>::empty(),
    decreases s.len(),
{
    broadcast use vstd::multiset::group_multiset_axioms;
    if s.len() > 0 {
        lemma_custs_depots(s.drop_last());
    }
}

/// The length of a concatenation: both parts plus the joining edge.
pub proof fn lemma_route_len_concat(dm: Seq<Vec<i32>>, a: Seq<usize>, b: Seq<usize>)
    requires
        a.len() >= 1,
        b.len() >= 1,
    ensures
        route_len(dm, a + b) == route_len(dm, a) + dd(dm, a.last(), b[0]) + route_len(dm, b),
    decreases b.len(),
{
    if b.len() == 1 {
        assert((a + b).drop_last() =~= a);
        assert(route_len(dm, b) == 0);
    } else {
        assert((a + b).drop_last() =~= a + b.drop_last());
        lemma_route_len_concat(dm, a, b.drop_last());
    }
}

/// Inserting a node into a route adds its detour.
pub proof fn lemma_route_len_insert(dm: Seq<Vec<i32>>, r: Seq<usize>, pos: int, x: usize)
    requires
        1 <= pos < r.len(),
    ensures
        route_len(dm, r.insert(pos, x)) == route_len(dm, r) + dd(dm, r[pos - 1], x) + dd(dm, x, r[pos])
            - dd(dm, r[pos - 1], r[pos]),
{
    let a = r.subrange(0, pos);
    let b = r.subrange(pos, r.len() as int);
    assert(r =~= a + b);
    lemma_route_len_concat(dm, a, b);
    assert(r.insert(pos, x) =~= (a + seq![x]) + b);
    lemma_route_len_concat(dm, a + seq![x], b);
    lemma_route_len_concat(dm, a, seq![x]);
    assert(seq![x].drop_last().len() == 0);
    assert((a + seq![x]).last() == x);
}

/// Removing an inner node from a route saves its detour.
pub proof fn lemma_route_len_remove(dm: Seq<Vec<i32>>, r: Seq<usize>, pos: int)
    requires
        1 <= pos < r.len() - 1,
    ensures
        route_len(dm, r.remove(pos)) == route_len(dm, r) - dd(dm, r[pos - 1], r[pos]) - dd(dm, r[pos], r[pos + 1])
            + dd(dm, r[pos - 1], r[pos + 1]),
{
    let s = r.remove(pos);
    assert(s.insert(pos, r[pos]) =~= r);
    lemma_route_len_insert(dm, s, pos, r[pos]);
}


/// Overwriting a node replaces it among the customers.
pub proof fn lemma_custs_update(s: Seq<usize>, i: int, x: usize)
    requires
        0 <= i < s.len(),
    ensures
        custs(s.update(i, x)).add(cust1(s[i])) =~= custs(s).add(cust1(x)),
{
    broadcast use vstd::multiset::group_multiset_axioms;
    assert(s.update(i, x) =~= s.remove(i).insert(i, x));
    lemma_custs_insert(s.remove(i), i, x);
    lemma_custs_remove(s, i);
}

/// The routes fit the instance and are short enough for the moves, and `rd`
/// holds their lengths.
pub open spec fn dists_ok(ch: Challenge, rs: Seq<Seq<usize>>, rd: Seq<i32>) -> bool {
    &&& rd.len() == rs.len()
    &&& forall|i: int|
        0 <= i < rs.len() ==> {
            &&& ch.route_ok(#[trigger] rs[i])
            &&& rs[i].len() <= ROUTE_LIMIT
            &&& rd[i] == route_len(ch.distance_matrix@, rs[i])
        }
}

} // verus!
