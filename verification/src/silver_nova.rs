//! Building blocks of the alternative solver that keeps per-route schedule
//! tables for constant-time insertion checks: its random generator, its copy
//! of the instance with nearest-neighbour lists, routes with arrival and
//! latest-arrival tables, solutions and the node locator.
use vstd::prelude::*;
use crate::primal_viper::xorshift_step;
use crate::model::{Challenge, Solution, rv, dd, dm_ok, table_ok, in_limit, nodes_below, max, min, route_len, VALUE_LIMIT, LEN_LIMIT};
use crate::sharp_orbit::demand_sum;
use crate::alns::{pair_le, sorted_pairs, sort_pairs, lists_node};

verus! {

/// Advances the xorshift state by one step and returns the new state.
pub fn xorshift64(s: &mut u64) -> (res: u64)
    ensures
        *final(s) == xorshift_step(*old(s)),
        res == *final(s),
{
    let mut x = *s;
    x ^= x << 13u64;
    x ^= x >> 7u64;
    x ^= x << 17u64;
    *s = x;
    x
}

/// A copy of a table.
fn copy_table(v: &[i32]) -> (res: Vec<i32>)
    ensures
        res@ == v@,
{
    let mut out: Vec<i32> = Vec::new();
    let mut i: usize = 0;
    while i < v.len()
        invariant
            i <= v@.len(),
            out@ == v@.subrange(0, i as int),
        decreases v.len() - i,
    {
        out.push(v[i]);
        i += 1;
        assert(out@ =~= v@.subrange(0, i as int));
    }
    assert(v@.subrange(0, i as int) =~= v@);
    out
}

/// Two matrices hold the same rows.
pub open spec fn same_rows(a: Seq<Vec<i32>>, b: Seq<Vec<i32>>) -> bool {
    a.len() == b.len() && forall|i: int| 0 <= i < a.len() ==> (#[trigger] a[i])@ == b[i]@
}

/// A copy of a matrix.
fn copy_matrix(m: &[Vec<i32>]) -> (res: Vec<Vec<i32>>)
    ensures
        same_rows(res@, m@),
{
    let mut out: Vec<Vec<i32>> = Vec::new();
    let mut i: usize = 0;
    while i < m.len()
        invariant
            i <= m@.len(),
            out@.len() == i,
            forall|k: int| 0 <= k < i ==> (#[trigger] out@[k])@ == m@[k]@,
        decreases m.len() - i,
    {
        let row = copy_table(&m[i]);
        out.push(row);
        i += 1;
    }
    out
}

/// The instance as this solver reads it, with each node's nearest customers.
pub struct Ctx {
    pub n: usize,
    pub d: Vec<Vec<i32>>,
    pub demand: Vec<i32>,
    pub ready: Vec<i32>,
    pub due: Vec<i32>,
    pub srv: i32,
    pub cap: i32,
    pub fleet: usize,
    pub neighbors: Vec<Vec<u32>>,
    pub depot_due: i32,
}

/// Lists of at most this many nearest customers are kept.
pub const K_NEIGHBORS: usize = 40;

impl Ctx {
    /// Well-formedness: tables of `n` bounded entries, the depot's due time
    /// copied, and neighbour lists of nodes.
    pub open spec fn wf(&self) -> bool {
        let n = self.n as int;
        &&& 1 <= n <= u32::MAX
        &&& dm_ok(self.d@, n)
        &&& table_ok(self.demand@, n)
        &&& table_ok(self.ready@, n)
        &&& table_ok(self.due@, n)
        &&& in_limit(self.srv)
        &&& in_limit(self.cap)
        &&& self.depot_due == self.due@[0]
        &&& self.neighbors@.len() == n
        &&& forall|i: int, k: int| 0 <= i < n && 0 <= k < self.neighbors@[i]@.len() ==> (#[trigger] self.neighbors@[i]@[k] as int) < n
    }

    /// Service time at a node: none at the depot.
    pub open spec fn service(&self, node: usize) -> int {
        if node == 0 { 0 } else { self.srv as int }
    }

    /// The service time at `node`: none at the depot.
    pub fn service_of(&self, node: usize) -> (res: i32)
        ensures
            res == self.service(node),
    {
        if node == 0 { 0 } else { self.srv }
    }

    /// Copies the instance and lists, for every node `i`, the `min(40, n - 2)`
    /// customers other than `i` nearest to it, nearest first and lower numbers
    /// first on ties.
    pub fn build(ch: &Challenge) -> (ctx: Self)
        requires
            ch.wf(),
            ch.num_nodes <= u32::MAX,
        ensures
            ctx.wf(),
            ctx.n == ch.num_nodes,
            same_rows(ctx.d@, ch.distance_matrix@),
            ctx.demand@ == ch.demands@,
            ctx.ready@ == ch.ready_times@,
            ctx.due@ == ch.due_times@,
            ctx.srv == ch.service_time,
            ctx.cap == ch.max_capacity,
            ctx.fleet == ch.fleet_size,
            forall|i: int| 0 <= i < ch.num_nodes ==> #[trigger] nearest_ok(*ch, i as usize, ctx.neighbors@[i]@),
    {
        let n = ch.num_nodes;
        let k = if n >= 2 { if K_NEIGHBORS < n - 2 { K_NEIGHBORS } else { n - 2 } } else { 0 };
        let mut neighbors: Vec<Vec<u32>> = Vec::new();
        let mut i: usize = 0;
        while i < n
            invariant
                ch.wf(),
                n == ch.num_nodes,
                n <= u32::MAX,
                k == (if n >= 2 { min(K_NEIGHBORS as int, n - 2) } else { 0 }),
                i <= n,
                neighbors@.len() == i,
                forall|x: int| 0 <= x < i ==> #[trigger] nearest_ok(*ch, x as usize, neighbors@[x]@),
            decreases n - i,
        {
            let list = nearest_list(ch, i, k);
            neighbors.push(list);
            i += 1;
        }
        let d = copy_matrix(&ch.distance_matrix);
        let ctx = Ctx {
            n,
            d,
            demand: copy_table(&ch.demands),
            ready: copy_table(&ch.ready_times),
            due: copy_table(&ch.due_times),
            srv: ch.service_time,
            cap: ch.max_capacity,
            fleet: ch.fleet_size,
            neighbors,
            depot_due: ch.due_times[0],
        };
        proof {
            assert forall|a: int| 0 <= a < n implies #[trigger] ctx.d@[a]@.len() == n by {
                assert(ctx.d@[a]@ == ch.distance_matrix@[a]@);
            }
            assert forall|a: int, b: int| 0 <= a < n && 0 <= b < n implies in_limit(#[trigger] ctx.d@[a]@[b]) by {
                assert(ctx.d@[a]@ == ch.distance_matrix@[a]@);
            }
            assert forall|a: int, b: int| 0 <= a < n && 0 <= b < ctx.neighbors@[a]@.len() implies (#[trigger] ctx.neighbors@[a]@[b] as int) < n by {
                assert(nearest_ok(*ch, a as usize, ctx.neighbors@[a]@));
            }
        }
        ctx
    }
}

/// The list of node `i` holds the `min(40, n - 2)` customers other than `i`
/// nearest to it, by `(distance, number)`, in that order.
pub open spec fn nearest_ok(ch: Challenge, i: usize, l: Seq<u32>) -> bool {
    let n = ch.num_nodes as int;
    &&& l.len() == (if n >= 2 { min(K_NEIGHBORS as int, n - 2) } else { 0 })
    &&& forall|k: int| 0 <= k < l.len() ==> 1 <= #[trigger] l[k] < n && l[k] as int != i as int
    &&& l.no_duplicates()
    &&& forall|a: int, b: int| 0 <= a < b < l.len() ==> pair_le(
        (ch.d(i, #[trigger] l[a] as usize) as i64, l[a] as usize),
        (ch.d(i, #[trigger] l[b] as usize) as i64, l[b] as usize),
    )
    &&& forall|j: usize, k: int| #![trigger l.contains(j as u32), l[k]] 1 <= j < n && j != i && !l.contains(j as u32) && 0 <= k < l.len() ==> pair_le(
        (ch.d(i, l[k] as usize) as i64, l[k] as usize),
        (ch.d(i, j) as i64, j),
    )
}

fn nearest_list(ch: &Challenge, i: usize, k: usize) -> (res: Vec<u32>)
    requires
        ch.wf(),
        ch.num_nodes <= u32::MAX,
        i < ch.num_nodes,
        k == (if ch.num_nodes >= 2 { min(K_NEIGHBORS as int, ch.num_nodes - 2) } else { 0 }),
    ensures
        nearest_ok(*ch, i, res@),
{
    let n = ch.num_nodes;
    let mut buf: Vec<(i64, usize)> = Vec::new();
    let mut j: usize = 1;
    while j < n
        invariant
            ch.wf(),
            n == ch.num_nodes,
            i < n,
            1 <= j <= n,
            buf@.len() == if j <= i || i == 0 { j - 1 } else { j - 2 },
            forall|q: int| 0 <= q < buf@.len() ==> 1 <= (#[trigger] buf@[q]).1 < j && buf@[q].1 != i && buf@[q].0 == ch.d(i, buf@[q].1),
            forall|a: int, b: int| 0 <= a < b < buf@.len() ==> (#[trigger] buf@[a]).1 < (#[trigger] buf@[b]).1,
            forall|x: usize| 1 <= x < j && x != i ==> #[trigger] lists_node(buf@, x),
        decreases n - j,
    {
        if j != i {
            assert(in_limit(ch.distance_matrix@[i as int]@[j as int]));
            let ghost before = buf@;
            buf.push((ch.distance_matrix[i][j] as i64, j));
            proof {
                assert forall|x: usize| 1 <= x < j + 1 && x != i implies #[trigger] lists_node(buf@, x) by {
                    if x < j {
                        assert(lists_node(before, x));
                        let q = choose|q: int| 0 <= q < before.len() && (#[trigger] before[q]).1 == x;
                        assert(buf@[q].1 == x);
                    } else {
                        assert(buf@[buf@.len() - 1].1 == x);
                    }
                }
            }
        }
        j += 1;
    }
    let ghost cands = buf@;
    sort_pairs(&mut buf);
    proof {
        lemma_sorted_nearest(*ch, i, cands, buf@);
    }
    let take: usize = if k < buf.len() { k } else { buf.len() };
    assert(buf@.len() >= k);
    let mut out: Vec<u32> = Vec::new();
    let mut t: usize = 0;
    while t < take
        invariant
            t <= take <= buf@.len(),
            n == ch.num_nodes,
            n <= u32::MAX,
            forall|q: int| 0 <= q < buf@.len() ==> (#[trigger] buf@[q]).1 < n,
            out@.len() == t,
            forall|q: int| 0 <= q < t ==> #[trigger] out@[q] as usize == buf@[q].1,
        decreases take - t,
    {
        out.push(buf[t].1 as u32);
        t += 1;
    }
    proof {
        assert forall|a: int, b: int| 0 <= a < out@.len() && 0 <= b < out@.len() && a != b implies out@[a] != out@[b] by {
            assert(buf@[a].1 != buf@[b].1);
        }
        assert forall|a: int, b: int| 0 <= a < b < out@.len() implies pair_le(
            (ch.d(i, #[trigger] out@[a] as usize) as i64, out@[a] as usize),
            (ch.d(i, #[trigger] out@[b] as usize) as i64, out@[b] as usize),
        ) by {
            assert(buf@[a] == (ch.d(i, buf@[a].1) as i64, buf@[a].1));
            assert(buf@[b] == (ch.d(i, buf@[b].1) as i64, buf@[b].1));
        }
        assert forall|jj: usize, q: int| #![trigger out@.contains(jj as u32), out@[q]] 1 <= jj < n && jj != i && !out@.contains(jj as u32) && 0 <= q < out@.len() implies pair_le(
            (ch.d(i, out@[q] as usize) as i64, out@[q] as usize),
            (ch.d(i, jj) as i64, jj),
        ) by {
            assert(lists_node(buf@, jj));
            let p = choose|p: int| 0 <= p < buf@.len() && (#[trigger] buf@[p]).1 == jj;
            if p < take {
                assert(out@[p] as usize == jj);
                assert(out@[p] == jj as u32);
            }
            assert(buf@[q] == (ch.d(i, out@[q] as usize) as i64, out@[q] as usize));
            assert(buf@[p] == (ch.d(i, jj) as i64, jj));
        }
    }
    out
}

/// What sorting node `i`'s candidates gives: every other customer once, each
/// with its distance.
proof fn lemma_sorted_nearest(ch: Challenge, i: usize, cands: Seq<(i64, usize)>, s: Seq<(i64, usize)>)
    requires
        s.to_multiset() == cands.to_multiset(),
        forall|k: int| 0 <= k < cands.len() ==> 1 <= (#[trigger] cands[k]).1 < ch.num_nodes && cands[k].1 != i
            && cands[k].0 == ch.d(i, cands[k].1),
        forall|a: int, b: int| 0 <= a < b < cands.len() ==> (#[trigger] cands[a]).1 < (#[trigger] cands[b]).1,
        forall|j: usize| 1 <= j < ch.num_nodes && j != i ==> #[trigger] lists_node(cands, j),
    ensures
        forall|k: int| 0 <= k < s.len() ==> 1 <= (#[trigger] s[k]).1 < ch.num_nodes && s[k].1 != i
            && s[k] == (ch.d(i, s[k].1) as i64, s[k].1),
        forall|a: int, b: int| 0 <= a < s.len() && 0 <= b < s.len() && a != b ==> (#[trigger] s[a]).1 != (#[trigger] s[b]).1,
        forall|j: usize| 1 <= j < ch.num_nodes && j != i ==> #[trigger] lists_node(s, j),
        s.len() == cands.len(),
{
    assert(cands.no_duplicates()) by {
        assert forall|a: int, b: int| 0 <= a < cands.len() && 0 <= b < cands.len() && a != b implies cands[a] != cands[b] by {
            if a < b {
                assert(cands[a].1 < cands[b].1);
            } else {
                assert(cands[b].1 < cands[a].1);
            }
        }
    }
    cands.lemma_multiset_has_no_duplicates();
    s.lemma_multiset_has_no_duplicates_conv();
    vstd::seq_lib::to_multiset_len(s);
    vstd::seq_lib::to_multiset_len(cands);
    assert forall|k: int| 0 <= k < s.len() implies 1 <= (#[trigger] s[k]).1 < ch.num_nodes && s[k].1 != i
        && s[k] == (ch.d(i, s[k].1) as i64, s[k].1) by {
        vstd::seq_lib::to_multiset_contains(s, s[k]);
        vstd::seq_lib::to_multiset_contains(cands, s[k]);
        assert(s.contains(s[k]));
        let w = choose|w: int| 0 <= w < cands.len() && cands[w] == s[k];
    }
    assert forall|a: int, b: int| 0 <= a < s.len() && 0 <= b < s.len() && a != b implies (#[trigger] s[a]).1 != (#[trigger] s[b]).1 by {
        assert(s[a] == (ch.d(i, s[a].1) as i64, s[a].1));
        assert(s[b] == (ch.d(i, s[b].1) as i64, s[b].1));
        assert(s[a] != s[b]);
    }
    assert forall|j: usize| 1 <= j < ch.num_nodes && j != i implies #[trigger] lists_node(s, j) by {
        assert(lists_node(cands, j));
        let k = choose|k: int| 0 <= k < cands.len() && (#[trigger] cands[k]).1 == j;
        vstd::seq_lib::to_multiset_contains(cands, cands[k]);
        vstd::seq_lib::to_multiset_contains(s, cands[k]);
        assert(cands.contains(cands[k]));
        let p = choose|p: int| 0 <= p < s.len() && s[p] == cands[k];
        assert(s[p].1 == j);
    }
}

/// The nodes of a route as node numbers.
pub open spec fn nodes(s: Seq<u32>) -> Seq<usize> {
    s.map_values(|x: u32| x as usize)
}

/// Arrival time at position `p`: leaving the start at time 0, waiting for ready
/// times and serving every node but the depot.
pub open spec fn arrival(ctx: Ctx, s: Seq<u32>, p: int) -> int
    decreases p,
{
    if p <= 0 {
        0
    } else {
        let prev = s[p - 1] as usize;
        let cur = s[p] as usize;
        max(arrival(ctx, s, p - 1), ctx.ready@[prev as int] as int) + ctx.service(prev) + dd(ctx.d@, prev, cur)
    }
}

/// Latest arrival time at position `p` that still meets every later due time;
/// the depot's due time at the last position.
pub open spec fn latest_at(ctx: Ctx, s: Seq<u32>, p: int) -> int
    decreases s.len() - p,
{
    if p >= s.len() - 1 {
        ctx.depot_due as int
    } else {
        let cur = s[p] as usize;
        let nxt = s[p + 1] as usize;
        min(ctx.due@[cur as int] as int, latest_at(ctx, s, p + 1) - ctx.service(cur) - dd(ctx.d@, cur, nxt))
    }
}

/// `u` fits at position `p` of a route with nodes `s`: within the capacity,
/// reached by its due time, and the next node reached by its latest arrival
/// time.
pub open spec fn fits_seq(ctx: Ctx, s: Seq<u32>, u: usize, p: int) -> bool {
    let a = s[p - 1] as usize;
    let b = s[p] as usize;
    let arr_u = max(arrival(ctx, s, p - 1), ctx.ready@[a as int] as int) + ctx.service(a) + dd(ctx.d@, a, u);
    let arr_b = max(arr_u, ctx.ready@[u as int] as int) + ctx.srv + dd(ctx.d@, u, b);
    &&& demand_sum(ctx.demand@, nodes(s).subrange(1, s.len() as int)) + ctx.demand@[u as int] <= ctx.cap
    &&& arr_u <= ctx.due@[u as int]
    &&& arr_b <= latest_at(ctx, s, p)
}

/// A route: its nodes, arrival and latest-arrival tables, demand and length.
pub struct Route {
    pub seq: Vec<u32>,
    pub arr: Vec<i32>,
    pub lat: Vec<i32>,
    pub demand_sum: i32,
    pub dist: i32,
}

/// The nodes of a route lie in the instance, with at least one and at most
/// `LEN_LIMIT` of them.
pub open spec fn seq_ok(ctx: Ctx, s: Seq<u32>) -> bool {
    &&& 1 <= s.len() <= LEN_LIMIT
    &&& forall|k: int| 0 <= k < s.len() ==> (#[trigger] s[k] as int) < ctx.n
}

/// Arrival times stay in a range where the checks cannot overflow.
pub proof fn lemma_arrival_bounds(ctx: Ctx, s: Seq<u32>, p: int)
    requires
        ctx.wf(),
        seq_ok(ctx, s),
        0 <= p < s.len(),
    ensures
        0 <= arrival(ctx, s, p) <= 100_000 + 200_000 * p,
    decreases p,
{
    if p > 0 {
        lemma_arrival_bounds(ctx, s, p - 1);
        let prev = s[p - 1] as usize;
        let cur = s[p] as usize;
        assert(in_limit(ctx.ready@[prev as int]));
        assert(in_limit(ctx.d@[prev as int]@[cur as int]));
    }
}

/// Latest arrival times stay in a range where the checks cannot overflow.
pub proof fn lemma_latest_bounds(ctx: Ctx, s: Seq<u32>, p: int)
    requires
        ctx.wf(),
        seq_ok(ctx, s),
        0 <= p < s.len(),
    ensures
        -200_000 * (s.len() - 1 - p) <= latest_at(ctx, s, p) <= 100_000,
    decreases s.len() - p,
{
    assert(in_limit(ctx.due@[0]));
    if p < s.len() - 1 {
        lemma_latest_bounds(ctx, s, p + 1);
        let cur = s[p] as usize;
        let nxt = s[p + 1] as usize;
        assert(in_limit(ctx.due@[cur as int]));
        assert(in_limit(ctx.d@[cur as int]@[nxt as int]));
    }
}

impl Route {
    /// The tables hold the arrival and latest-arrival times, the demand of all
    /// nodes after the first, and the length of the route.
    pub open spec fn tables_ok(&self, ctx: Ctx) -> bool {
        let s = self.seq@;
        &&& seq_ok(ctx, s)
        &&& self.arr@.len() == s.len()
        &&& self.lat@.len() == s.len()
        &&& forall|p: int| 0 <= p < s.len() ==> #[trigger] self.arr@[p] == arrival(ctx, s, p)
        &&& forall|p: int| 0 <= p < s.len() ==> #[trigger] self.lat@[p] == latest_at(ctx, s, p)
        &&& self.demand_sum == demand_sum(ctx.demand@, nodes(s).subrange(1, s.len() as int))
        &&& self.dist == route_len(ctx.d@, nodes(s))
    }

    /// Every node after the first is reached by its due time.
    pub open spec fn on_time(&self, ctx: Ctx) -> bool {
        forall|p: int| 1 <= p < self.seq@.len() ==> #[trigger] self.arr@[p] <= ctx.due@[self.seq@[p] as int]
    }

    /// A route from the depot back to the depot, with its tables as the solver
    /// starts them.
    pub fn empty(ctx: &Ctx) -> (r: Self)
        ensures
            r.seq@ == seq![0u32, 0u32],
            r.arr@ == seq![0i32, 0i32],
            r.lat@ == seq![ctx.depot_due, ctx.depot_due],
            r.demand_sum == 0,
            r.dist == 0,
    {
        Route { seq: vec![0, 0], arr: vec![0, 0], lat: vec![ctx.depot_due, ctx.depot_due], demand_sum: 0, dist: 0 }
    }

    /// Number of nodes.
    pub fn len(&self) -> (res: usize)
        ensures
            res == self.seq@.len(),
    {
        self.seq.len()
    }

    /// Number of nodes besides the two depot visits.
    pub fn num_customers(&self) -> (res: usize)
        ensures
            res == if self.seq@.len() >= 2 { self.seq@.len() - 2 } else { 0 },
    {
        if self.seq.len() >= 2 { self.seq.len() - 2 } else { 0 }
    }

    /// Recomputes the tables from the nodes.
    pub fn recompute(&mut self, ctx: &Ctx)
        requires
            ctx.wf(),
            seq_ok(*ctx, old(self).seq@),
        ensures
            final(self).seq@ == old(self).seq@,
            final(self).tables_ok(*ctx),
    {
        let ghost s = self.seq@;
        let n = self.seq.len();
        let mut arr: Vec<i32> = Vec::new();
        arr.push(0);
        let mut dsum: i32 = 0;
        let mut demsum: i32 = 0;
        let mut p: usize = 1;
        proof {
            assert(nodes(s).subrange(0, 1).drop_last().len() == 0);
            assert(nodes(s).subrange(1, 1).len() == 0);
        }
        while p < n
            invariant
                ctx.wf(),
                s == self.seq@,
                seq_ok(*ctx, s),
                n == s.len(),
                1 <= p <= n,
                arr@.len() == p,
                forall|q: int| 0 <= q < p ==> #[trigger] arr@[q] == arrival(*ctx, s, q),
                dsum == route_len(ctx.d@, nodes(s).subrange(0, p as int)),
                0 <= dsum <= VALUE_LIMIT * (p - 1),
                demsum == demand_sum(ctx.demand@, nodes(s).subrange(1, p as int)),
                0 <= demsum <= VALUE_LIMIT * (p - 1),
            decreases n - p,
        {
            let prev = self.seq[p - 1] as usize;
            let cur = self.seq[p] as usize;
            proof {
                lemma_arrival_bounds(*ctx, s, p - 1);
                lemma_arrival_bounds(*ctx, s, p as int);
                assert(in_limit(ctx.ready@[prev as int]));
                assert(in_limit(ctx.d@[prev as int]@[cur as int]));
                assert(in_limit(ctx.demand@[cur as int]));
                assert(nodes(s).subrange(0, p + 1).drop_last() =~= nodes(s).subrange(0, p as int));
                assert(nodes(s).subrange(1, p + 1).drop_last() =~= nodes(s).subrange(1, p as int));
            }
            let a = arr[p - 1];
            let dep = (if a > ctx.ready[prev] { a } else { ctx.ready[prev] }) + ctx.service_of(prev);
            arr.push(dep + ctx.d[prev][cur]);
            dsum += ctx.d[prev][cur];
            demsum += ctx.demand[cur];
            p += 1;
        }
        let mut lat: Vec<i32> = Vec::new();
        while lat.len() < n
            invariant
                lat@.len() <= n,
            decreases n - lat.len(),
        {
            lat.push(0);
        }
        proof {
            assert(in_limit(ctx.due@[0]));
        }
        lat.set(n - 1, ctx.depot_due);
        let mut q: usize = n - 1;
        while q > 0
            invariant
                ctx.wf(),
                s == self.seq@,
                seq_ok(*ctx, s),
                n == s.len(),
                q <= n - 1,
                lat@.len() == n,
                forall|x: int| q <= x < n ==> #[trigger] lat@[x] == latest_at(*ctx, s, x),
            decreases q,
        {
            let p2 = q - 1;
            let cur = self.seq[p2] as usize;
            let nxt = self.seq[p2 + 1] as usize;
            proof {
                lemma_latest_bounds(*ctx, s, p2 + 1);
                lemma_latest_bounds(*ctx, s, p2 as int);
                assert(in_limit(ctx.due@[cur as int]));
                assert(in_limit(ctx.d@[cur as int]@[nxt as int]));
            }
            let bound = lat[p2 + 1] - ctx.service_of(cur) - ctx.d[cur][nxt];
            let v = if ctx.due[cur] < bound { ctx.due[cur] } else { bound };
            lat.set(p2, v);
            q = p2;
        }
        proof {
            assert(nodes(s).subrange(0, n as int) =~= nodes(s));
        }
        self.arr = arr;
        self.lat = lat;
        self.dist = dsum;
        self.demand_sum = demsum;
    }

    /// The cost of inserting `u` at position `p` when the demand fits, `u` is
    /// reached by its due time and the next node by its latest arrival time.
    pub fn try_insert(&self, ctx: &Ctx, u: usize, p: usize) -> (res: Option<i32>)
        requires
            ctx.wf(),
            self.tables_ok(*ctx),
            (u as int) < ctx.n,
            1 <= p < self.seq@.len(),
        ensures
            ({
                let s = self.seq@;
                let a = s[p - 1] as usize;
                let b = s[p as int] as usize;
                let arr_u = max(self.arr@[p - 1] as int, ctx.ready@[a as int] as int) + ctx.service(a) + dd(ctx.d@, a, u);
                let arr_b = max(arr_u, ctx.ready@[u as int] as int) + ctx.srv + dd(ctx.d@, u, b);
                let ok = self.demand_sum + ctx.demand@[u as int] <= ctx.cap && arr_u <= ctx.due@[u as int] && arr_b <= self.lat@[p as int];
                &&& ok ==> res == Some((dd(ctx.d@, a, u) + dd(ctx.d@, u, b) - dd(ctx.d@, a, b)) as i32)
                &&& !ok ==> res is None
            }),
            res is Some <==> fits_seq(*ctx, self.seq@, u, p as int),
    {
        let ghost s = self.seq@;
        proof {
            lemma_arrival_bounds(*ctx, s, p - 1);
            lemma_latest_bounds(*ctx, s, p as int);
            assert(in_limit(ctx.demand@[u as int]));
            assert(0 <= self.demand_sum <= VALUE_LIMIT * s.len()) by {
                lemma_demand_sum_bounds(*ctx, nodes(s).subrange(1, s.len() as int));
            }
        }
        if self.demand_sum + ctx.demand[u] > ctx.cap {
            return None;
        }
        let a = self.seq[p - 1] as usize;
        let b = self.seq[p] as usize;
        proof {
            assert(in_limit(ctx.ready@[a as int]));
            assert(in_limit(ctx.ready@[u as int]));
            assert(in_limit(ctx.due@[u as int]));
            assert(in_limit(ctx.d@[a as int]@[u as int]));
            assert(in_limit(ctx.d@[u as int]@[b as int]));
            assert(in_limit(ctx.d@[a as int]@[b as int]));
        }
        let x = self.arr[p - 1];
        let dep_a = (if x > ctx.ready[a] { x } else { ctx.ready[a] }) + ctx.service_of(a);
        let arr_u = dep_a + ctx.d[a][u];
        if arr_u > ctx.due[u] {
            return None;
        }
        let dep_u = (if arr_u > ctx.ready[u] { arr_u } else { ctx.ready[u] }) + ctx.srv;
        let arr_b = dep_u + ctx.d[u][b];
        if arr_b > self.lat[p] {
            return None;
        }
        Some(ctx.d[a][u] + ctx.d[u][b] - ctx.d[a][b])
    }

    /// Inserts `u` at position `p` and recomputes the tables.
    pub fn insert_at(&mut self, ctx: &Ctx, u: usize, p: usize)
        requires
            ctx.wf(),
            seq_ok(*ctx, old(self).seq@),
            old(self).seq@.len() < LEN_LIMIT,
            (u as int) < ctx.n,
            p <= old(self).seq@.len(),
        ensures
            final(self).seq@ == old(self).seq@.insert(p as int, u as u32),
            final(self).tables_ok(*ctx),
    {
        self.seq.insert(p, u as u32);
        proof {
            let s = self.seq@;
            assert forall|k: int| 0 <= k < s.len() implies (#[trigger] s[k] as int) < ctx.n by {
                if k < p {
                    assert(s[k] == old(self).seq@[k]);
                } else if k > p {
                    assert(s[k] == old(self).seq@[k - 1]);
                }
            }
        }
        self.recompute(ctx);
    }

    /// Removes the node at position `p`, recomputes the tables and returns the node.
    pub fn remove_at(&mut self, ctx: &Ctx, p: usize) -> (node: usize)
        requires
            ctx.wf(),
            seq_ok(*ctx, old(self).seq@),
            old(self).seq@.len() >= 2,
            p < old(self).seq@.len(),
        ensures
            node == old(self).seq@[p as int] as usize,
            final(self).seq@ == old(self).seq@.remove(p as int),
            final(self).tables_ok(*ctx),
    {
        let node = self.seq.remove(p) as usize;
        proof {
            let s = self.seq@;
            assert forall|k: int| 0 <= k < s.len() implies (#[trigger] s[k] as int) < ctx.n by {
                if k < p {
                    assert(s[k] == old(self).seq@[k]);
                } else {
                    assert(s[k] == old(self).seq@[k + 1]);
                }
            }
        }
        self.recompute(ctx);
        node
    }

    /// Whether every node after the first is reached by its due time.
    pub fn is_feasible(&self, ctx: &Ctx) -> (res: bool)
        requires
            ctx.wf(),
            self.tables_ok(*ctx),
        ensures
            res == self.on_time(*ctx),
    {
        let n = self.seq.len();
        let mut p: usize = 1;
        while p < n
            invariant
                ctx.wf(),
                self.tables_ok(*ctx),
                n == self.seq@.len(),
                1 <= p,
                n >= 1 ==> p <= n,
                forall|q: int| 1 <= q < p ==> #[trigger] self.arr@[q] <= ctx.due@[self.seq@[q] as int],
            decreases n - p,
        {
            if self.arr[p] > ctx.due[self.seq[p] as usize] {
                return false;
            }
            p += 1;
        }
        true
    }
}

/// The demand of nodes of the instance is at most `VALUE_LIMIT` each.
pub proof fn lemma_demand_sum_bounds(ctx: Ctx, s: Seq<usize>)
    requires
        ctx.wf(),
        forall|k: int| 0 <= k < s.len() ==> (#[trigger] s[k] as int) < ctx.n,
    ensures
        0 <= demand_sum(ctx.demand@, s) <= VALUE_LIMIT * s.len(),
    decreases s.len(),
{
    if s.len() > 0 {
        assert(s.last() == s[s.len() - 1]);
        lemma_demand_sum_bounds(ctx, s.drop_last());
        assert(in_limit(ctx.demand@[s.last() as int]));
    }
}

/// A solution: its routes and their total length.
pub struct Sol {
    pub routes: Vec<Route>,
    pub total_dist: i32,
}

/// Sum of the recorded lengths of the routes.
pub open spec fn dist_sum(rs: Seq<Route>) -> int
    decreases rs.len(),
{
    if rs.len() == 0 {
        0
    } else {
        dist_sum(rs.drop_last()) + rs.last().dist
    }
}

/// The routes with at least one customer.
pub open spec fn kept_routes(rs: Seq<Route>) -> Seq<Route>
    decreases rs.len(),
{
    if rs.len() == 0 {
        rs
    } else if rs.last().seq@.len() > 2 {
        kept_routes(rs.drop_last()).push(rs.last())
    } else {
        kept_routes(rs.drop_last())
    }
}

/// The node sequences of the routes with at least one customer.
pub open spec fn kept_nodes(rs: Seq<Route>) -> Seq<Seq<usize>>
    decreases rs.len(),
{
    if rs.len() == 0 {
        Seq::empty()
    } else if rs.last().seq@.len() > 2 {
        kept_nodes(rs.drop_last()).push(nodes(rs.last().seq@))
    } else {
        kept_nodes(rs.drop_last())
    }
}

impl Sol {
    /// Sets the total length to the sum of the routes' lengths.
    pub fn recompute_total(&mut self)
        requires
            forall|k: int| 0 <= k <= old(self).routes@.len() ==> 0 <= #[trigger] dist_sum(old(self).routes@.subrange(0, k)) <= i32::MAX,
        ensures
            final(self).routes@ == old(self).routes@,
            final(self).total_dist == dist_sum(old(self).routes@),
    {
        let mut t: i32 = 0;
        let mut i: usize = 0;
        assert(dist_sum(self.routes@.subrange(0, 0)) == 0);
        while i < self.routes.len()
            invariant
                i <= self.routes@.len(),
                self.routes@ == old(self).routes@,
                forall|k: int| 0 <= k <= self.routes@.len() ==> 0 <= #[trigger] dist_sum(self.routes@.subrange(0, k)) <= i32::MAX,
                t == dist_sum(self.routes@.subrange(0, i as int)),
            decreases self.routes.len() - i,
        {
            assert(self.routes@.subrange(0, i + 1).drop_last() =~= self.routes@.subrange(0, i as int));
            assert(dist_sum(self.routes@.subrange(0, i + 1)) <= i32::MAX);
            t = t + self.routes[i].dist;
            i += 1;
        }
        assert(self.routes@.subrange(0, i as int) =~= self.routes@);
        self.total_dist = t;
    }

    /// The routes with at least one customer, as a solution.
    pub fn to_solution(&self) -> (res: Solution)
        ensures
            rv(res.routes@) == kept_nodes(self.routes@),
    {
        let mut out: Vec<Vec<usize>> = Vec::new();
        let mut i: usize = 0;
        while i < self.routes.len()
            invariant
                i <= self.routes@.len(),
                rv(out@) == kept_nodes(self.routes@.subrange(0, i as int)),
            decreases self.routes.len() - i,
        {
            assert(self.routes@.subrange(0, i + 1).drop_last() =~= self.routes@.subrange(0, i as int));
            if self.routes[i].seq.len() > 2 {
                let r = &self.routes[i];
                let mut v: Vec<usize> = Vec::new();
                let mut k: usize = 0;
                while k < r.seq.len()
                    invariant
                        k <= r.seq@.len(),
                        v@ == nodes(r.seq@).subrange(0, k as int),
                    decreases r.seq.len() - k,
                {
                    v.push(r.seq[k] as usize);
                    k += 1;
                    assert(v@ =~= nodes(r.seq@).subrange(0, k as int));
                }
                assert(nodes(r.seq@).subrange(0, k as int) =~= nodes(r.seq@));
                let ghost prev = out@;
                out.push(v);
                assert(rv(out@) =~= rv(prev).push(v@));
            }
            i += 1;
        }
        assert(self.routes@.subrange(0, i as int) =~= self.routes@);
        Solution { routes: out }
    }

    /// Drops the routes without customers.
    pub fn cleanup_empty(&mut self)
        ensures
            final(self).routes@ == kept_routes(old(self).routes@),
            final(self).total_dist == old(self).total_dist,
    {
        let mut rest: Vec<Route> = Vec::new();
        std::mem::swap(&mut rest, &mut self.routes);
        let ghost all = rest@;
        let mut k: usize = 0;
        assert(all.len() == rest.len());
        assert(all.subrange(0, 0) =~= Seq::<Route>::empty());
        assert(self.routes@ =~= kept_routes(all.subrange(0, 0)));
        while rest.len() > 0
            invariant
                k <= all.len(),
                all.len() <= usize::MAX,
                rest@ == all.subrange(k as int, all.len() as int),
                self.routes@ == kept_routes(all.subrange(0, k as int)),
                self.total_dist == old(self).total_dist,
                all == old(self).routes@,
            decreases rest.len(),
        {
            let r = rest.remove(0);
            assert(r == all[k as int]);
            assert(all.subrange(0, k + 1).drop_last() =~= all.subrange(0, k as int));
            if r.seq.len() > 2 {
                self.routes.push(r);
            }
            k += 1;
            assert(rest@ =~= all.subrange(k as int, all.len() as int));
        }
        assert(all.subrange(0, k as int) =~= all);
    }
}

/// Where a node stands: its route and position (`u32::MAX` twice for nowhere).
#[derive(Clone, Copy)]
pub struct NodeLoc {
    pub route: u32,
    pub pos: u32,
}

/// Place `(r2, p2)` comes before place `(ri, p)` in route order, then position
/// order.
pub open spec fn before_place(ri: int, p: int, r2: int, p2: int) -> bool {
    r2 < ri || (r2 == ri && p2 < p)
}

/// Node `u` stands at a place before `(ri, p)`.
pub open spec fn seen(rs: Seq<Route>, ri: int, p: int, u: usize) -> bool {
    exists|r2: int, p2: int|
        0 <= r2 < rs.len() && 0 <= p2 < rs[r2].seq@.len() && before_place(ri, p, r2, p2) && #[trigger] rs[r2].seq@[p2] as usize == u
}

/// `(r, q)` is the last place before `(ri, p)` where node `u` stands.
pub open spec fn last_seen(rs: Seq<Route>, ri: int, p: int, u: usize, r: int, q: int) -> bool {
    &&& 0 <= r < rs.len()
    &&& 0 <= q < rs[r].seq@.len()
    &&& before_place(ri, p, r, q)
    &&& rs[r].seq@[q] as usize == u
    &&& forall|r2: int, p2: int|
        0 <= r2 < rs.len() && 0 <= p2 < rs[r2].seq@.len() && before_place(ri, p, r2, p2) && before_place(r2, p2, r, q)
            ==> #[trigger] rs[r2].seq@[p2] as usize != u
}

/// The locator entry of node `u` after scanning the places before `(ri, p)`: the
/// last place of a customer seen there, nowhere otherwise.
pub open spec fn locates_upto(rs: Seq<Route>, ri: int, p: int, u: usize, l: NodeLoc) -> bool {
    if u != 0 && seen(rs, ri, p, u) {
        last_seen(rs, ri, p, u, l.route as int, l.pos as int)
    } else {
        l.route == u32::MAX && l.pos == u32::MAX
    }
}

/// The locator entry of node `u`: the last place of a customer in the routes,
/// nowhere for the depot and for nodes on no route.
pub open spec fn locates(rs: Seq<Route>, u: usize, l: NodeLoc) -> bool {
    locates_upto(rs, rs.len() as int, 0, u, l)
}

/// The routes fit a locator of `n` entries.
pub open spec fn locatable(rs: Seq<Route>, n: int) -> bool {
    &&& rs.len() < u32::MAX
    &&& forall|r: int| 0 <= r < rs.len() ==> (#[trigger] rs[r]).seq@.len() < u32::MAX
    &&& forall|r: int, p: int| 0 <= r < rs.len() && 0 <= p < rs[r].seq@.len() ==> (#[trigger] rs[r].seq@[p] as int) < n
}

/// Scanning one more place keeps the locator exact.
proof fn lemma_locate_step(rs: Seq<Route>, ri: int, p: int, old_l: NodeLoc, new_l: NodeLoc, u: usize)
    requires
        0 <= ri < rs.len(),
        0 <= p < rs[ri].seq@.len(),
        locates_upto(rs, ri, p, u, old_l),
        new_l == (if rs[ri].seq@[p] as usize == u && u != 0 { NodeLoc { route: ri as u32, pos: p as u32 } } else { old_l }),
        ri < u32::MAX,
        p < u32::MAX,
    ensures
        locates_upto(rs, ri, p + 1, u, new_l),
{
    let x = rs[ri].seq@[p] as usize;
    if x == u && u != 0 {
        assert(rs[ri].seq@[p] as usize == u);
        assert(before_place(ri, p + 1, ri, p));
        assert(seen(rs, ri, p + 1, u));
        assert forall|r2: int, p2: int|
            0 <= r2 < rs.len() && 0 <= p2 < rs[r2].seq@.len() && before_place(ri, p + 1, r2, p2) && before_place(r2, p2, ri, p)
                implies #[trigger] rs[r2].seq@[p2] as usize != u by {
            assert(false);
        }
        assert(last_seen(rs, ri, p + 1, u, ri, p));
    } else {
        if seen(rs, ri, p + 1, u) {
            let (r2, p2) = choose|r2: int, p2: int|
                0 <= r2 < rs.len() && 0 <= p2 < rs[r2].seq@.len() && before_place(ri, p + 1, r2, p2) && #[trigger] rs[r2].seq@[p2] as usize == u;
            if r2 == ri && p2 == p {
                assert(x == u);
            } else {
                assert(before_place(ri, p, r2, p2));
                assert(rs[r2].seq@[p2] as usize == u);
                assert(seen(rs, ri, p, u));
            }
        }
        if seen(rs, ri, p, u) && u != 0 {
            assert(seen(rs, ri, p + 1, u)) by {
                let (r2, p2) = choose|r2: int, p2: int|
                    0 <= r2 < rs.len() && 0 <= p2 < rs[r2].seq@.len() && before_place(ri, p, r2, p2) && #[trigger] rs[r2].seq@[p2] as usize == u;
                assert(before_place(ri, p + 1, r2, p2));
            }
            assert(last_seen(rs, ri, p + 1, u, old_l.route as int, old_l.pos as int)) by {
                assert forall|r2: int, p2: int|
                    0 <= r2 < rs.len() && 0 <= p2 < rs[r2].seq@.len() && before_place(ri, p + 1, r2, p2) && before_place(r2, p2, old_l.route as int, old_l.pos as int)
                        implies #[trigger] rs[r2].seq@[p2] as usize != u by {
                    if !(r2 == ri && p2 == p) {
                        assert(before_place(ri, p, r2, p2));
                    }
                }
            }
        }
    }
}

/// Finishing a route's places is starting the next route's.
proof fn lemma_locate_next_route(rs: Seq<Route>, ri: int, u: usize, l: NodeLoc)
    requires
        0 <= ri < rs.len(),
        locates_upto(rs, ri, rs[ri].seq@.len() as int, u, l),
    ensures
        locates_upto(rs, ri + 1, 0, u, l),
{
    let len = rs[ri].seq@.len() as int;
    assert forall|r2: int, p2: int| 0 <= r2 < rs.len() && 0 <= p2 < rs[r2].seq@.len() implies before_place(ri, len, r2, p2) == before_place(ri + 1, 0, r2, p2) by {}
    if seen(rs, ri + 1, 0, u) {
        let (r2, p2) = choose|r2: int, p2: int|
            0 <= r2 < rs.len() && 0 <= p2 < rs[r2].seq@.len() && before_place(ri + 1, 0, r2, p2) && #[trigger] rs[r2].seq@[p2] as usize == u;
        assert(before_place(ri, len, r2, p2));
        assert(seen(rs, ri, len, u));
    }
    if seen(rs, ri, len, u) {
        let (r2, p2) = choose|r2: int, p2: int|
            0 <= r2 < rs.len() && 0 <= p2 < rs[r2].seq@.len() && before_place(ri, len, r2, p2) && #[trigger] rs[r2].seq@[p2] as usize == u;
        assert(before_place(ri + 1, 0, r2, p2));
        assert(seen(rs, ri + 1, 0, u));
    }
}

/// Fills `loc`, all of whose entries say nowhere, with the places of the
/// customers of `rs`.
fn fill_locator(rs: &[Route], loc: &mut Vec<NodeLoc>)
    requires
        locatable(rs@, old(loc)@.len() as int),
        forall|u: int| 0 <= u < old(loc)@.len() ==> (#[trigger] old(loc)@[u]).route == u32::MAX && old(loc)@[u].pos == u32::MAX,
    ensures
        final(loc)@.len() == old(loc)@.len(),
        forall|u: int| 0 <= u < final(loc)@.len() ==> #[trigger] locates(rs@, u as usize, final(loc)@[u]),
{
    let n = loc.len();
    let mut ri: usize = 0;
    proof {
        assert forall|u: int| 0 <= u < n implies #[trigger] locates_upto(rs@, 0, 0, u as usize, loc@[u]) by {
            if seen(rs@, 0, 0, u as usize) {
                let (r2, p2) = choose|r2: int, p2: int|
                    0 <= r2 < rs@.len() && 0 <= p2 < rs@[r2].seq@.len() && before_place(0, 0, r2, p2) && #[trigger] rs@[r2].seq@[p2] as usize == u as usize;
            }
        }
    }
    while ri < rs.len()
        invariant
            locatable(rs@, n as int),
            loc@.len() == n,
            ri <= rs@.len(),
            forall|u: int| 0 <= u < n ==> #[trigger] locates_upto(rs@, ri as int, 0, u as usize, loc@[u]),
        decreases rs.len() - ri,
    {
        let r = &rs[ri];
        let mut p: usize = 0;
        while p < r.seq.len()
            invariant
                locatable(rs@, n as int),
                loc@.len() == n,
                ri < rs@.len(),
                *r == rs@[ri as int],
                p <= r.seq@.len(),
                forall|u: int| 0 <= u < n ==> #[trigger] locates_upto(rs@, ri as int, p as int, u as usize, loc@[u]),
            decreases r.seq.len() - p,
        {
            let u = r.seq[p];
            let ghost before = loc@;
            assert((u as int) < n);
            if u != 0 {
                loc.set(u as usize, NodeLoc { route: ri as u32, pos: p as u32 });
            }
            proof {
                assert forall|v: int| 0 <= v < n implies #[trigger] locates_upto(rs@, ri as int, p + 1, v as usize, loc@[v]) by {
                    lemma_locate_step(rs@, ri as int, p as int, before[v], loc@[v], v as usize);
                }
            }
            p += 1;
        }
        proof {
            assert forall|v: int| 0 <= v < n implies #[trigger] locates_upto(rs@, ri + 1, 0, v as usize, loc@[v]) by {
                lemma_locate_next_route(rs@, ri as int, v as usize, loc@[v]);
            }
        }
        ri += 1;
    }
}

/// A locator of `ctx.n` entries: for every customer its last place in the
/// solution's routes, nowhere for the depot and for absent nodes.
pub fn build_locator(ctx: &Ctx, sol: &Sol) -> (loc: Vec<NodeLoc>)
    requires
        locatable(sol.routes@, ctx.n as int),
    ensures
        loc@.len() == ctx.n,
        forall|u: int| 0 <= u < ctx.n ==> #[trigger] locates(sol.routes@, u as usize, loc@[u]),
{
    let mut loc: Vec<NodeLoc> = Vec::new();
    while loc.len() < ctx.n
        invariant
            loc@.len() <= ctx.n,
            forall|u: int| 0 <= u < loc@.len() ==> (#[trigger] loc@[u]).route == u32::MAX && loc@[u].pos == u32::MAX,
        decreases ctx.n - loc.len(),
    {
        loc.push(NodeLoc { route: u32::MAX, pos: u32::MAX });
    }
    fill_locator(&sol.routes, &mut loc);
    loc
}

/// Rebuilds `loc` in place: every entry is reset, then set as `build_locator`
/// sets it.
pub fn rebuild_locator(ctx: &Ctx, sol: &Sol, loc: &mut Vec<NodeLoc>)
    requires
        locatable(sol.routes@, old(loc)@.len() as int),
    ensures
        final(loc)@.len() == old(loc)@.len(),
        forall|u: int| 0 <= u < final(loc)@.len() ==> #[trigger] locates(sol.routes@, u as usize, final(loc)@[u]),
{
    let mut i: usize = 0;
    while i < loc.len()
        invariant
            i <= loc@.len(),
            loc@.len() == old(loc)@.len(),
            forall|u: int| 0 <= u < i ==> (#[trigger] loc@[u]).route == u32::MAX && loc@[u].pos == u32::MAX,
        decreases loc.len() - i,
    {
        loc.set(i, NodeLoc { route: u32::MAX, pos: u32::MAX });
        i += 1;
    }
    fill_locator(&sol.routes, loc);
}

/// Node `v` occurs among the first `p` nodes of `s`.
pub open spec fn occurs(s: Seq<u32>, p: int, v: int) -> bool {
    exists|q: int| 0 <= q < p && #[trigger] s[q] as int == v
}

/// `after` is `before` with the entry of every customer of route `ri`, whose
/// nodes are `s`, set to its last place there.
pub open spec fn refreshed(before: Seq<NodeLoc>, after: Seq<NodeLoc>, s: Seq<u32>, ri: int) -> bool {
    forall|u: int| 0 <= u < after.len() ==> if u != 0 && occurs(s, s.len() as int, u) {
        (#[trigger] after[u]).route == ri && (after[u].pos as int) < s.len() && s[after[u].pos as int] as int == u
            && forall|q: int| after[u].pos < q < s.len() ==> s[q] as int != u
    } else {
        after[u] == before[u]
    }
}

/// Sets the locator entry of every customer of route `ri` to its last place in
/// that route; other entries stay.
pub fn refresh_route_loc(loc: &mut [NodeLoc], sol: &Sol, ri: usize)
    requires
        ri < sol.routes@.len(),
        ri < u32::MAX,
        sol.routes@[ri as int].seq@.len() < u32::MAX,
        forall|p: int| 0 <= p < sol.routes@[ri as int].seq@.len() ==> (#[trigger] sol.routes@[ri as int].seq@[p] as int) < old(loc)@.len(),
    ensures
        final(loc)@.len() == old(loc)@.len(),
        refreshed(old(loc)@, final(loc)@, sol.routes@[ri as int].seq@, ri as int),
{
    let r = &sol.routes[ri];
    let ghost s = r.seq@;
    let mut p: usize = 0;
    while p < r.seq.len()
        invariant
            ri < sol.routes@.len(),
            ri < u32::MAX,
            *r == sol.routes@[ri as int],
            s == r.seq@,
            s.len() < u32::MAX,
            forall|q: int| 0 <= q < s.len() ==> (#[trigger] s[q] as int) < loc@.len(),
            loc@.len() == old(loc)@.len(),
            p <= s.len(),
            forall|u: int| 0 <= u < loc@.len() ==> if u != 0 && occurs(s, p as int, u) {
                (#[trigger] loc@[u]).route == ri && (loc@[u].pos as int) < p && s[loc@[u].pos as int] as int == u
                    && forall|q: int| loc@[u].pos < q < p ==> s[q] as int != u
            } else {
                loc@[u] == old(loc)@[u]
            },
        decreases s.len() - p,
    {
        let u = r.seq[p];
        let ghost before = loc@;
        if u != 0 {
            loc[u as usize] = NodeLoc { route: ri as u32, pos: p as u32 };
        }
        proof {
            assert forall|v: int| 0 <= v < loc@.len() implies if v != 0 && occurs(s, p + 1, v) {
                (#[trigger] loc@[v]).route == ri && (loc@[v].pos as int) < p + 1 && s[loc@[v].pos as int] as int == v
                    && forall|q: int| loc@[v].pos < q < p + 1 ==> s[q] as int != v
            } else {
                loc@[v] == old(loc)@[v]
            } by {
                assert(s[p as int] == u);
                if v == u as int && u != 0 {
                    assert(occurs(s, p + 1, v));
                } else {
                    assert(loc@[v] == before[v]);
                    if v != 0 && occurs(s, p + 1, v) {
                        let w = choose|w: int| 0 <= w < p + 1 && #[trigger] s[w] as int == v;
                        assert(w != p);
                        assert(occurs(s, p as int, v));
                    }
                    if v != 0 && occurs(s, p as int, v) {
                        let w = choose|w: int| 0 <= w < p && #[trigger] s[w] as int == v;
                        assert(occurs(s, p + 1, v));
                    }
                }
            }
        }
        p += 1;
    }
}

} // verus!
