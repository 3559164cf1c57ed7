//! Schedule tables of a route (earliest departures, latest arrivals) and the
//! laws that make their constant-time removal and insertion checks exact.
use vstd::prelude::*;
use crate::model::{
    dd, dm_ok, in_limit, lemma_load_concat, lemma_load_first, lemma_load_nonneg, max, min,
    nodes_below, proper, route_len, Challenge, LEN_LIMIT, VALUE_LIMIT,
};
use crate::algorithm::{lemma_route_len_upper, route_dist};

verus! {

/// Earliest departure time from position `i` of a route, leaving the start at
/// time 0, waiting for ready times and serving each customer; at a depot the
/// arrival time.
pub open spec fn depart(ch: Challenge, r: Seq<usize>, i: int) -> int
    decreases i,
{
    if i <= 0 {
        0
    } else {
        let arrive = depart(ch, r, i - 1) + ch.d(r[i - 1], r[i]);
        if r[i] == 0 {
            arrive
        } else {
            max(arrive, ch.ready(r[i])) + ch.service_time
        }
    }
}

/// Latest arrival time at position `i` from which the rest of the route still
/// meets every due time, ignoring ready times; at the last position the depot's
/// due time.
pub open spec fn latest(ch: Challenge, r: Seq<usize>, i: int) -> int
    decreases r.len() - i,
{
    if i >= r.len() - 1 {
        ch.due(0)
    } else {
        min(latest(ch, r, i + 1) - ch.service_time - ch.d(r[i], r[i + 1]), ch.due(r[i]))
    }
}

proof fn lemma_depart_bounds(ch: Challenge, r: Seq<usize>, i: int)
    requires
        ch.wf(),
        ch.route_ok(r),
        0 <= i < r.len(),
    ensures
        0 <= depart(ch, r, i) <= 200_000 * i,
    decreases i,
{
    if i > 0 {
        lemma_depart_bounds(ch, r, i - 1);
        assert(in_limit(ch.distance_matrix@[r[i - 1] as int]@[r[i] as int]));
        assert(in_limit(ch.ready_times@[r[i] as int]));
    }
}

proof fn lemma_latest_bounds(ch: Challenge, r: Seq<usize>, i: int)
    requires
        ch.wf(),
        ch.route_ok(r),
        0 <= i < r.len(),
    ensures
        -200_000 * (r.len() - 1 - i) <= latest(ch, r, i) <= VALUE_LIMIT,
    decreases r.len() - i,
{
    assert(in_limit(ch.due_times@[0]));
    if i < r.len() - 1 {
        lemma_latest_bounds(ch, r, i + 1);
        assert(in_limit(ch.distance_matrix@[r[i] as int]@[r[i + 1] as int]));
        assert(in_limit(ch.due_times@[r[i] as int]));
    }
}

pub proof fn lemma_load_prefix(ch: Challenge, r: Seq<usize>, i: int)
    requires
        ch.wf(),
        ch.route_ok(r),
        0 <= i <= r.len(),
    ensures
        0 <= ch.load_of(r.subrange(0, i)) <= 100_000 * i,
    decreases i,
{
    if i > 0 {
        assert(r.subrange(0, i).drop_last() =~= r.subrange(0, i - 1));
        lemma_load_prefix(ch, r, i - 1);
        assert(in_limit(ch.demands@[r[i - 1] as int]));
    }
}

/// Per-route tables for constant-time evaluation of removals and insertions.
pub struct RouteMeta {
    pub load: i32,
    pub dist: i32,
    pub earliest_depart: Vec<i32>,
    pub latest_arrive: Vec<i32>,
}

impl RouteMeta {
    /// The tables hold the load, length, earliest departures and latest arrivals
    /// of route `r`.
    pub open spec fn describes(&self, ch: Challenge, r: Seq<usize>) -> bool {
        &&& self.load == (if r.len() == 0 { 0 } else { ch.load_of(r.subrange(1, r.len() as int)) })
        &&& self.dist == route_len(ch.distance_matrix@, r)
        &&& self.earliest_depart@.len() == r.len()
        &&& self.latest_arrive@.len() == r.len()
        &&& forall|i: int| 0 <= i < r.len() ==> #[trigger] self.earliest_depart@[i] == depart(ch, r, i)
        &&& forall|i: int| 1 <= i < r.len() ==> #[trigger] self.latest_arrive@[i] == latest(ch, r, i)
    }

    /// Every tabulated time lies in a range where the constant-time checks cannot
    /// overflow.
    pub open spec fn bounded(&self) -> bool {
        &&& forall|i: int| 0 <= i < self.earliest_depart@.len() ==> 0 <= #[trigger] self.earliest_depart@[i] <= 2_000_000_000
        &&& forall|i: int| 0 <= i < self.latest_arrive@.len() ==> -2_000_000_000 <= #[trigger] self.latest_arrive@[i]
    }

    /// Builds the tables of `route`.
    pub fn compute(route: &[usize], ch: &Challenge) -> (meta: Self)
        requires
            ch.wf(),
            ch.route_ok(route@),
            route@.len() <= LEN_LIMIT,
        ensures
            meta.describes(*ch, route@),
            meta.bounded(),
            route@.len() == 1 ==> meta.latest_arrive@[0] == ch.due(0),
            route@.len() >= 2 ==> meta.latest_arrive@[0] == i32::MAX,
    {
        let n = route.len();
        let mut load: i32 = 0;
        proof {
            lemma_route_len_upper(ch.distance_matrix@, route@);
        }
        let dist = route_dist(route, &ch.distance_matrix);

        let mut earliest_depart: Vec<i32> = vec![0i32; n];
        let mut i: usize = 1;
        proof {
            if n >= 1 {
                assert(route@.subrange(1, 1).len() == 0);
            }
        }
        while i < n
            invariant
                ch.wf(),
                ch.route_ok(route@),
                n == route@.len(),
                n <= LEN_LIMIT,
                1 <= i,
                n == 0 || i <= n,
                earliest_depart@.len() == n,
                forall|j: int| 0 <= j < i && j < n ==> #[trigger] earliest_depart@[j] == depart(*ch, route@, j),
                n >= 1 ==> load == ch.load_of(route@.subrange(1, i as int)),
                n == 0 ==> load == 0,
            decreases n - i,
        {
            let prev = route[i - 1];
            let curr = route[i];
            proof {
                lemma_depart_bounds(*ch, route@, i - 1);
                lemma_depart_bounds(*ch, route@, i as int);
                lemma_load_prefix(*ch, route@.subrange(1, n as int), i as int);
                assert(route@.subrange(1, n as int).subrange(0, i as int) =~= route@.subrange(1, i + 1));
                assert(route@.subrange(1, i + 1).drop_last() =~= route@.subrange(1, i as int));
            }
            let arrive = earliest_depart[i - 1] + ch.distance_matrix[prev][curr];
            if curr == 0 {
                earliest_depart[i] = arrive;
            } else {
                let waited = if arrive < ch.ready_times[curr] { ch.ready_times[curr] } else { arrive };
                earliest_depart[i] = waited + ch.service_time;
                load += ch.demands[curr];
            }
            i += 1;
        }
        proof {
            if n == 0 {
                assert(route@.len() == 0);
            } else {
                assert(i == n);
                assert(load == ch.load_of(route@.subrange(1, n as int)));
            }
        }

        let mut latest_arrive: Vec<i32> = vec![i32::MAX; n];
        if n > 0 {
            latest_arrive[n - 1] = ch.due_times[0];
        }
        let mut k: usize = if n > 0 { n - 1 } else { 0 };
        while k > 1
            invariant
                ch.wf(),
                ch.route_ok(route@),
                n == route@.len(),
                n <= LEN_LIMIT,
                k < n || n == 0,
                n == 0 ==> k == 0,
                n >= 2 ==> k >= 1,
                earliest_depart@.len() == n,
                forall|j: int| 0 <= j < n ==> #[trigger] earliest_depart@[j] == depart(*ch, route@, j),
                load == (if n == 0 { 0 } else { ch.load_of(route@.subrange(1, n as int)) }),
                dist == route_len(ch.distance_matrix@, route@),
                latest_arrive@.len() == n,
                forall|j: int| k <= j < n && j >= 1 ==> #[trigger] latest_arrive@[j] == latest(*ch, route@, j),
                forall|j: int| 0 <= j < k && j < n - 1 ==> #[trigger] latest_arrive@[j] == i32::MAX,
                n >= 1 ==> latest_arrive@[n - 1] == ch.due(0),
            decreases k,
        {
            let i = k - 1;
            let curr = route[i];
            let next = route[i + 1];
            proof {
                lemma_latest_bounds(*ch, route@, i + 1);
                lemma_latest_bounds(*ch, route@, i as int);
            }
            let from_downstream = latest_arrive[i + 1] - ch.service_time - ch.distance_matrix[curr][next];
            latest_arrive[i] = if from_downstream <= ch.due_times[curr] { from_downstream } else { ch.due_times[curr] };
            k = i;
        }
        proof {
            assert forall|j: int| 0 <= j < n implies 0 <= #[trigger] earliest_depart@[j] <= 2_000_000_000 by {
                lemma_depart_bounds(*ch, route@, j);
            }
            assert forall|j: int| 0 <= j < n implies -2_000_000_000 <= #[trigger] latest_arrive@[j] by {
                if j >= 1 {
                    lemma_latest_bounds(*ch, route@, j);
                }
            }
        }
        RouteMeta { load, dist, earliest_depart, latest_arrive }
    }

    /// What the removal check decides: removing the customer at `pos` leaves at
    /// most a depot pair, or its predecessor can reach its successor in time.
    pub open spec fn removal_ok(&self, r: Seq<usize>, pos: int, dm: Seq<Vec<i32>>) -> bool {
        r.len() <= 3 || self.earliest_depart@[pos - 1] + dd(dm, r[pos - 1], r[pos + 1])
            <= self.latest_arrive@[pos + 1]
    }

    /// What the insertion check decides: `cust` is reached by its due time after
    /// the node at `pos - 1`, and the node at `pos` is still reached in time.
    pub open spec fn insertion_ok(&self, r: Seq<usize>, pos: int, cust: usize, ch: Challenge) -> bool {
        let arrive = self.earliest_depart@[pos - 1] + ch.d(r[pos - 1], cust);
        &&& arrive <= ch.due(cust)
        &&& max(arrive, ch.ready(cust)) + ch.service_time + ch.d(cust, r[pos]) <= self.latest_arrive@[pos]
    }

    /// Constant-time check that removing the customer at `pos` keeps the route on
    /// time (exact for feasible routes, see `law_removal_check_exact`).
    pub fn check_removal_feasible(&self, route: &[usize], pos: usize, dm: &[Vec<i32>]) -> (res: bool)
        requires
            1 <= pos,
            pos + 1 < route@.len(),
            dm_ok(dm@, dm@.len() as int),
            nodes_below(route@, dm@.len() as int),
            self.earliest_depart@.len() == route@.len(),
            self.latest_arrive@.len() == route@.len(),
            self.bounded(),
        ensures
            res == self.removal_ok(route@, pos as int, dm@),
    {
        if route.len() <= 3 {
            return true;
        }
        let prev = route[pos - 1];
        let next = route[pos + 1];
        proof {
            assert(in_limit(dm@[prev as int]@[next as int]));
        }
        self.earliest_depart[pos - 1] + dm[prev][next] <= self.latest_arrive[pos + 1]
    }

    /// Constant-time check that inserting `cust` at `ins_pos` keeps the route on
    /// time (exact for feasible routes within capacity, see
    /// `law_insertion_check_exact`).
    pub fn check_insertion_feasible(&self, route: &[usize], ins_pos: usize, cust: usize, ch: &Challenge) -> (res: bool)
        requires
            ch.wf(),
            ch.route_ok(route@),
            (cust as int) < ch.num_nodes,
            1 <= ins_pos < route@.len(),
            self.earliest_depart@.len() == route@.len(),
            self.latest_arrive@.len() == route@.len(),
            self.bounded(),
        ensures
            res == self.insertion_ok(route@, ins_pos as int, cust, *ch),
    {
        let prev = route[ins_pos - 1];
        proof {
            assert(in_limit(ch.distance_matrix@[prev as int]@[cust as int]));
            assert(in_limit(ch.distance_matrix@[cust as int]@[route@[ins_pos as int] as int]));
            assert(in_limit(ch.ready_times@[cust as int]));
            assert(in_limit(ch.due_times@[cust as int]));
        }
        let arrive_cust = self.earliest_depart[ins_pos - 1] + ch.distance_matrix[prev][cust];
        if arrive_cust > ch.due_times[cust] {
            return false;
        }
        let waited = if arrive_cust < ch.ready_times[cust] { ch.ready_times[cust] } else { arrive_cust };
        let depart_cust = waited + ch.service_time;
        let new_arrive_next = depart_cust + ch.distance_matrix[cust][route[ins_pos]];
        new_arrive_next <= self.latest_arrive[ins_pos]
    }
}


/// Load delivered up to and including position `k` (the start is not counted).
pub open spec fn load_upto(ch: Challenge, r: Seq<usize>, k: int) -> int {
    ch.load_of(r.subrange(1, k + 1))
}

/// Every customer can be served from its ready time and still let the rest of
/// the route meet its latest arrival times.
pub open spec fn slack_from(ch: Challenge, r: Seq<usize>, j: int) -> bool {
    forall|i: int|
        j <= i < r.len() - 1 ==> ch.ready(#[trigger] r[i]) + ch.service_time + ch.d(r[i], r[i + 1])
            <= latest(ch, r, i + 1)
}

/// Walking a sequence that shares its first `k + 1` nodes with a feasible route
/// reaches position `k` in the same state as the route does.
proof fn lemma_walk_prefix(ch: Challenge, r: Seq<usize>, s: Seq<usize>, k: int)
    requires
        ch.wf(),
        ch.route_ok(r),
        proper(r),
        ch.feasible(r),
        0 <= k <= r.len() - 2,
        k < s.len(),
        forall|j: int| 0 <= j <= k ==> s[j] == r[j],
    ensures
        ch.walk(s[0], s.subrange(1, s.len() as int), 0, 0) == ch.walk(
            s[k],
            s.subrange(k + 1, s.len() as int),
            depart(ch, r, k),
            load_upto(ch, r, k),
        ),
        ch.walk(r[k], r.subrange(k + 1, r.len() as int), depart(ch, r, k), load_upto(ch, r, k)),
    decreases k,
{
    if k == 0 {
        assert(r.subrange(1, 1).len() == 0);
    } else {
        lemma_walk_prefix(ch, r, s, k - 1);
        let rest_s = s.subrange(k, s.len() as int);
        let rest_r = r.subrange(k, r.len() as int);
        assert(rest_s[0] == r[k]);
        assert(rest_r[0] == r[k]);
        assert(rest_s.drop_first() =~= s.subrange(k + 1, s.len() as int));
        assert(rest_r.drop_first() =~= r.subrange(k + 1, r.len() as int));
        assert(r[k] != 0);
        assert(r.subrange(1, k + 1).drop_last() =~= r.subrange(1, k));
    }
}

/// A walk that succeeds from position `j` of a proper route never exceeds the
/// capacity with the rest of the route.
proof fn lemma_walk_load(ch: Challenge, r: Seq<usize>, j: int, p: usize, tau: int, l: int)
    requires
        ch.wf(),
        ch.route_ok(r),
        proper(r),
        1 <= j <= r.len() - 1,
        l <= ch.max_capacity,
        ch.walk(p, r.subrange(j, r.len() as int), tau, l),
    ensures
        l + ch.load_of(r.subrange(j, r.len() as int)) <= ch.max_capacity,
    decreases r.len() - j,
{
    let rest = r.subrange(j, r.len() as int);
    lemma_load_first(ch, rest);
    assert(rest.drop_first() =~= r.subrange(j + 1, r.len() as int));
    if j == r.len() - 1 {
        assert(rest.drop_first().len() == 0);
    } else {
        let t = tau + ch.d(p, r[j]);
        lemma_walk_load(ch, r, j + 1, r[j], max(t, ch.ready(r[j])) + ch.service_time, l + ch.demand(r[j]));
    }
}

/// From position `j` of a proper route with slack, a walk succeeds exactly when
/// the node at `j` is reached by its latest arrival time.
proof fn lemma_walk_suffix(ch: Challenge, r: Seq<usize>, j: int, p: usize, tau: int, l: int)
    requires
        ch.wf(),
        ch.route_ok(r),
        proper(r),
        1 <= j <= r.len() - 1,
        slack_from(ch, r, j),
        0 <= l,
        l + ch.load_of(r.subrange(j, r.len() as int)) <= ch.max_capacity,
    ensures
        ch.walk(p, r.subrange(j, r.len() as int), tau, l) == (tau + ch.d(p, r[j]) <= latest(ch, r, j)),
    decreases r.len() - j,
{
    let rest = r.subrange(j, r.len() as int);
    assert(rest[0] == r[j]);
    assert(rest.drop_first() =~= r.subrange(j + 1, r.len() as int));
    if j < r.len() - 1 {
        lemma_load_first(ch, rest);
        lemma_load_nonneg(ch, rest.drop_first());
        let t = tau + ch.d(p, r[j]);
        lemma_walk_suffix(ch, r, j + 1, r[j], max(t, ch.ready(r[j])) + ch.service_time, l + ch.demand(r[j]));
        assert(ch.ready(r[j]) + ch.service_time + ch.d(r[j], r[j + 1]) <= latest(ch, r, j + 1));
    }
}

/// A walk that succeeds from position `j` of a proper route shows that every
/// later customer has slack.
proof fn lemma_walk_slack(ch: Challenge, r: Seq<usize>, j: int, p: usize, tau: int, l: int)
    requires
        ch.wf(),
        ch.route_ok(r),
        proper(r),
        1 <= j <= r.len() - 1,
        0 <= l <= ch.max_capacity,
        ch.walk(p, r.subrange(j, r.len() as int), tau, l),
    ensures
        slack_from(ch, r, j),
    decreases r.len() - j,
{
    let rest = r.subrange(j, r.len() as int);
    assert(rest[0] == r[j]);
    assert(rest.drop_first() =~= r.subrange(j + 1, r.len() as int));
    if j < r.len() - 1 {
        let t = tau + ch.d(p, r[j]);
        let tau2 = max(t, ch.ready(r[j])) + ch.service_time;
        let l2 = l + ch.demand(r[j]);
        assert(in_limit(ch.demands@[r[j] as int]));
        lemma_walk_slack(ch, r, j + 1, r[j], tau2, l2);
        lemma_walk_load(ch, r, j + 1, r[j], tau2, l2);
        lemma_walk_suffix(ch, r, j + 1, r[j], tau2, l2);
        assert forall|i: int| j <= i < r.len() - 1 implies ch.ready(#[trigger] r[i]) + ch.service_time
            + ch.d(r[i], r[i + 1]) <= latest(ch, r, i + 1) by {
            if i > j {
                assert(slack_from(ch, r, j + 1));
            }
        }
    }
}

/// Splits the load of a route around position `pos`.
proof fn lemma_load_split(ch: Challenge, r: Seq<usize>, pos: int)
    requires
        1 <= pos < r.len(),
    ensures
        ch.load_of(r.subrange(1, r.len() as int)) == load_upto(ch, r, pos - 1) + ch.load_of(
            r.subrange(pos, r.len() as int),
        ),
{
    assert(r.subrange(1, r.len() as int) =~= r.subrange(1, pos) + r.subrange(pos, r.len() as int));
    lemma_load_concat(ch, r.subrange(1, pos), r.subrange(pos, r.len() as int));
}

/// For a feasible route, the constant-time removal check is exact: it accepts
/// removing the customer at `pos` exactly when the shortened route is feasible
/// (or no customer is left).
pub proof fn law_removal_check_exact(meta: RouteMeta, ch: Challenge, r: Seq<usize>, pos: int)
    requires
        ch.wf(),
        ch.route_ok(r),
        proper(r),
        ch.feasible(r),
        meta.describes(ch, r),
        1 <= pos < r.len() - 1,
    ensures
        meta.removal_ok(r, pos, ch.distance_matrix@) <==> (r.remove(pos).len() <= 2 || ch.feasible(
            r.remove(pos),
        )),
{
    let s = r.remove(pos);
    if r.len() > 3 {
        lemma_walk_prefix(ch, r, s, pos - 1);
        assert(s.subrange(pos, s.len() as int) =~= r.subrange(pos + 1, r.len() as int));
        assert(r.subrange(1, r.len() as int)[0] == r[1]);
        lemma_walk_slack(ch, r, 1, r[0], 0, 0);
        lemma_walk_load(ch, r, 1, r[0], 0, 0);
        lemma_load_split(ch, r, pos + 1);
        lemma_load_split(ch, r, pos);
        let mid = r.subrange(pos, r.len() as int);
        lemma_load_first(ch, mid);
        assert(mid.drop_first() =~= r.subrange(pos + 1, r.len() as int));
        assert(r.subrange(1, pos + 1).drop_last() =~= r.subrange(1, pos));
        assert(in_limit(ch.demands@[r[pos] as int]));
        lemma_load_nonneg(ch, r.subrange(1, pos));
        lemma_walk_suffix(ch, r, pos + 1, r[pos - 1], depart(ch, r, pos - 1), load_upto(ch, r, pos - 1));
    }
}

/// For a feasible route that has room for `cust`, the constant-time insertion
/// check is exact: it accepts inserting `cust` at `pos` exactly when the
/// lengthened route is feasible.
pub proof fn law_insertion_check_exact(meta: RouteMeta, ch: Challenge, r: Seq<usize>, pos: int, cust: usize)
    requires
        ch.wf(),
        ch.route_ok(r),
        proper(r),
        ch.feasible(r),
        meta.describes(ch, r),
        1 <= pos < r.len(),
        cust != 0,
        (cust as int) < ch.num_nodes,
        meta.load + ch.demand(cust) <= ch.max_capacity,
    ensures
        meta.insertion_ok(r, pos, cust, ch) <==> ch.feasible(r.insert(pos, cust)),
{
    let s = r.insert(pos, cust);
    lemma_walk_prefix(ch, r, s, pos - 1);
    let rest = s.subrange(pos, s.len() as int);
    assert(rest[0] == cust);
    assert(rest.drop_first() =~= r.subrange(pos, r.len() as int));
    lemma_walk_slack(ch, r, 1, r[0], 0, 0);
    lemma_load_split(ch, r, pos);
    lemma_load_nonneg(ch, r.subrange(1, pos));
    lemma_load_nonneg(ch, r.subrange(pos, r.len() as int));
    assert(in_limit(ch.demands@[cust as int]));
    let t = depart(ch, r, pos - 1) + ch.d(r[pos - 1], cust);
    lemma_walk_suffix(
        ch,
        r,
        pos,
        cust,
        max(t, ch.ready(cust)) + ch.service_time,
        load_upto(ch, r, pos - 1) + ch.demand(cust),
    );
}


pub proof fn lemma_meta_load_bound(ch: Challenge, r: Seq<usize>, meta: RouteMeta)
    requires
        ch.wf(),
        ch.route_ok(r),
        r.len() >= 2,
        meta.describes(ch, r),
    ensures
        0 <= meta.load <= 100_000 * r.len(),
{
    let t = r.subrange(1, r.len() as int);
    crate::model::lemma_load_nonneg(ch, t);
    lemma_load_prefix(ch, t, r.len() - 1);
    assert(t.subrange(0, r.len() - 1) =~= t);
}

} // verus!
