//! A* routing over the connection graph.
use vstd::prelude::*;

use crate::dataset::{has_edge, waypoint_wf, Dataset, Waypoint};
use crate::geohash::GeoError;

verus! {

/// `p` walks the routing graph from `s` to `g`, one recorded edge per step.
pub open spec fn is_route(ws: Seq<Waypoint>, p: Seq<usize>, s: usize, g: usize) -> bool {
    &&& p.len() > 0
    &&& p[0] == s
    &&& p.last() == g
    &&& forall|i: int| 0 <= i < p.len() - 1 ==> #[trigger] has_edge(ws, p[i], p[i + 1])
}

/// Some route leads from `s` to `g`.
pub open spec fn reachable(ws: Seq<Waypoint>, s: usize, g: usize) -> bool {
    exists|p: Seq<usize>| is_route(ws, p, s, g)
}

/// An entry of the open set: a waypoint with its estimated total cost.
#[derive(Clone, Copy)]
struct AStarNode {
    f_score: u64,
    waypoint_index: usize,
}

spec fn in_open(open: Seq<AStarNode>, v: usize) -> bool {
    exists|i: int| 0 <= i < open.len() && (#[trigger] open[i]).waypoint_index == v
}

/// The weight of a score for the termination measure: unknown weighs most.
spec fn score_weight(s: Option<u64>) -> nat {
    match s {
        Some(x) => x as nat,
        None => u64::MAX as nat + 1,
    }
}

/// Sum of the weights of all scores: each improvement lowers it.
spec fn score_sum(g: Seq<Option<u64>>) -> nat
    decreases g.len(),
{
    if g.len() == 0 {
        0
    } else {
        score_sum(g.drop_last()) + score_weight(g.last())
    }
}

proof fn lemma_score_sum_update(g: Seq<Option<u64>>, i: int, s: Option<u64>)
    requires
        0 <= i < g.len(),
    ensures
        score_sum(g.update(i, s)) + score_weight(g[i]) == score_sum(g) + score_weight(s),
    decreases g.len(),
{
    let h = g.update(i, s);
    if i == g.len() - 1 {
        assert(h.drop_last() =~= g.drop_last());
    } else {
        lemma_score_sum_update(g.drop_last(), i, s);
        assert(h.drop_last() =~= g.drop_last().update(i, s));
    }
}

/// Every node whose score is known has been expanded, and expansion reaches
/// only scored nodes: then each step of a route from `start` is scored.
proof fn lemma_route_scored(
    ws: Seq<Waypoint>,
    g: Seq<Option<u64>>,
    done: Seq<bool>,
    p: Seq<usize>,
    start: usize,
    goal: usize,
    i: int,
)
    requires
        g.len() == ws.len(),
        done.len() == ws.len(),
        start < ws.len(),
        g[start as int] is Some,
        is_route(ws, p, start, goal),
        0 <= i < p.len(),
        forall|v: int| 0 <= v < ws.len() && (#[trigger] g[v]) is Some ==> done[v],
        forall|v: usize, x: usize| #[trigger] has_edge(ws, v, x) && done[v as int]
            ==> x < ws.len() && g[x as int] is Some,
    ensures
        p[i] < ws.len(),
        g[p[i] as int] is Some,
    decreases i,
{
    if i > 0 {
        lemma_route_scored(ws, g, done, p, start, goal, i - 1);
        assert(has_edge(ws, p[i - 1], p[(i - 1) + 1]));
    }
}

/// When every scored node has been expanded and `goal` never was, no route
/// leads from `start` to `goal`.
proof fn lemma_closed_unreachable(
    ws: Seq<Waypoint>,
    g: Seq<Option<u64>>,
    done: Seq<bool>,
    start: usize,
    goal: usize,
)
    requires
        g.len() == ws.len(),
        done.len() == ws.len(),
        start < ws.len(),
        g[start as int] is Some,
        forall|v: int| 0 <= v < ws.len() && (#[trigger] g[v]) is Some ==> done[v],
        forall|v: int| 0 <= v < ws.len() && #[trigger] done[v] ==> v != goal,
        forall|v: usize, x: usize| #[trigger] has_edge(ws, v, x) && done[v as int]
            ==> x < ws.len() && g[x as int] is Some,
    ensures
        !reachable(ws, start, goal),
{
    if reachable(ws, start, goal) {
        let p = choose|p: Seq<usize>| is_route(ws, p, start, goal);
        lemma_route_scored(ws, g, done, p, start, goal, p.len() - 1);
        assert(done[goal as int]);
    }
}

/// The distance of the connection that step `i` of the walk `(p, e)` takes.
pub open spec fn step_cost(ws: Seq<Waypoint>, p: Seq<usize>, e: Seq<int>, i: int) -> int {
    ws[p[i] as int].connections@[e[i]].distance as int
}

/// The summed distance of steps `a` up to, not including, `b` of a walk.
pub open spec fn cost_between(ws: Seq<Waypoint>, p: Seq<usize>, e: Seq<int>, a: int, b: int) -> int
    decreases b - a,
{
    if b <= a {
        0
    } else {
        cost_between(ws, p, e, a, b - 1) + step_cost(ws, p, e, b - 1)
    }
}

/// `p` visits waypoints in order, and `e[i]` is the index of the connection
/// of `p[i]` that leads to `p[i + 1]`.
pub open spec fn is_walk(ws: Seq<Waypoint>, p: Seq<usize>, e: Seq<int>) -> bool {
    &&& p.len() > 0
    &&& e.len() == p.len() - 1
    &&& forall|i: int|
        #![trigger e[i]]
        0 <= i < e.len() ==> p[i] < ws.len() && 0 <= e[i] < ws[p[i] as int].connections@.len()
            && ws[p[i] as int].connections@[e[i]].waypoint_index == p[i + 1]
}

/// The total distance of a walk.
pub open spec fn walk_cost(ws: Seq<Waypoint>, p: Seq<usize>, e: Seq<int>) -> int {
    cost_between(ws, p, e, 0, e.len() as int)
}

/// `h` never overestimates: every walk to `goal` costs at least the
/// estimate of the waypoint it starts from.
pub open spec fn admissible(ws: Seq<Waypoint>, h: Seq<u64>, goal: usize) -> bool {
    forall|p: Seq<usize>, e: Seq<int>|
        #[trigger] is_walk(ws, p, e) && p.last() == goal ==> h[p[0] as int] <= walk_cost(ws, p, e)
}

/// `p` is a route from `s` to `g` along some choice of connections that
/// costs no more than any walk from `s` to `g` whose total stays below
/// `u64::MAX`.
pub open spec fn is_shortest_route(ws: Seq<Waypoint>, p: Seq<usize>, s: usize, g: usize) -> bool {
    exists|e: Seq<int>|
        is_walk(ws, p, e) && forall|p2: Seq<usize>, e2: Seq<int>|
            #[trigger] is_walk(ws, p2, e2) && p2[0] == s && p2.last() == g && walk_cost(ws, p2, e2)
                < u64::MAX ==> walk_cost(ws, p, e) <= walk_cost(ws, p2, e2)
}

proof fn lemma_cost_split(ws: Seq<Waypoint>, p: Seq<usize>, e: Seq<int>, a: int, b: int, c: int)
    requires
        a <= b <= c,
    ensures
        cost_between(ws, p, e, a, b) + cost_between(ws, p, e, b, c) == cost_between(ws, p, e, a, c),
    decreases c - b,
{
    if c > b {
        lemma_cost_split(ws, p, e, a, b, c - 1);
    }
}

proof fn lemma_cost_skip(ws: Seq<Waypoint>, p: Seq<usize>, e: Seq<int>, j: int, k: int)
    requires
        0 <= j,
        0 <= k,
        j + k <= e.len(),
        e.len() == p.len() - 1,
    ensures
        cost_between(ws, p.skip(j), e.skip(j), 0, k) == cost_between(ws, p, e, j, j + k),
    decreases k,
{
    if k > 0 {
        lemma_cost_skip(ws, p, e, j, k - 1);
        assert(p.skip(j)[k - 1] == p[j + k - 1]);
        assert(e.skip(j)[k - 1] == e[j + k - 1]);
    }
}

/// The first waypoint of a walk from `start` that is not yet expanded has an
/// open entry whose estimate is at most the walk's cost; so the cheapest
/// open estimate `fmin` is at most that cost.
proof fn lemma_walk_bound(
    ws: Seq<Waypoint>,
    g: Seq<Option<u64>>,
    done: Seq<bool>,
    open: Seq<AStarNode>,
    h: Seq<u64>,
    goal: usize,
    p: Seq<usize>,
    e: Seq<int>,
    fmin: u64,
    j: int,
)
    requires
        g.len() == ws.len(),
        done.len() == ws.len(),
        h.len() == ws.len(),
        goal < ws.len(),
        is_walk(ws, p, e),
        p.last() == goal,
        admissible(ws, h, goal),
        0 <= j < p.len(),
        p[j] < ws.len(),
        g[p[j] as int] is Some,
        g[p[j] as int]->Some_0 <= cost_between(ws, p, e, 0, j),
        forall|q: int| 0 <= q < open.len() ==> fmin <= (#[trigger] open[q]).f_score,
        forall|v: int|
            0 <= v < ws.len() && (#[trigger] g[v]) is Some && !done[v] ==> has_entry(
                open,
                v as usize,
                g[v]->Some_0 + h[v],
            ),
        forall|v: int| 0 <= v < ws.len() && #[trigger] done[v] ==> done_ok(ws, g, v as usize, goal),
    ensures
        fmin <= walk_cost(ws, p, e),
    decreases p.len() - j,
{
    let m = e.len() as int;
    lemma_cost_split(ws, p, e, 0, j, m);
    if !done[p[j] as int] {
        let v = p[j] as int;
        let i = choose|i: int|
            0 <= i < open.len() && (#[trigger] open[i]).waypoint_index == v as usize
                && open[i].f_score <= g[v]->Some_0 + h[v];
        assert(fmin <= open[i].f_score);
        let ps = p.skip(j);
        let es = e.skip(j);
        assert(ps.len() == p.len() - j && es.len() == e.len() - j);
        assert forall|q: int| #![trigger es[q]] #![trigger ps[q]] 0 <= q < es.len()
            implies ps[q] < ws.len() && 0 <= es[q]
            < ws[ps[q] as int].connections@.len()
                && ws[ps[q] as int].connections@[es[q]].waypoint_index
            == ps[q + 1] by {
            assert(es[q] == e[j + q]);
            assert(ps[q] == p[j + q]);
            assert(ps[q + 1] == p[j + q + 1]);
            assert(0 <= j + q < e.len());
            assert(p[j + q] < ws.len());
        }
        assert(ps.len() > 0);
        assert(es.len() == ps.len() - 1);
        assert(is_walk(ws, ps, es));
        assert(ps.last() == goal);
        assert(ps[0] == p[j]);
        lemma_cost_skip(ws, p, e, j, m - j);
        assert(h[v] <= walk_cost(ws, ps, es));
    } else {
        let v = p[j] as int;
        assert(done_ok(ws, g, v as usize, goal));
        assert(j < m);
        assert(0 <= e[j] < ws[v].connections@.len());
        let t = ws[v].connections@[e[j]].waypoint_index;
        assert(t == p[j + 1]);
        assert(g[t as int] is Some
            && g[t as int]->Some_0 <= g[v]->Some_0 + ws[v].connections@[e[j]].distance);
        lemma_walk_bound(ws, g, done, open, h, goal, p, e, fmin, j + 1);
    }
}

/// An expanded waypoint is not the goal, has a score, and each of its
/// connections leads to a scored waypoint no dearer than through it.
spec fn done_ok(ws: Seq<Waypoint>, g: Seq<Option<u64>>, v: usize, goal: usize) -> bool {
    &&& v != goal
    &&& g[v as int] is Some
    &&& forall|c: int|
        0 <= c < ws[v as int].connections@.len() ==> {
            let t = (#[trigger] ws[v as int].connections@[c]).waypoint_index;
            &&& t < ws.len()
            &&& g[t as int] is Some
            &&& g[t as int]->Some_0 <= g[v as int]->Some_0 + ws[v as int].connections@[c].distance
        }
}

/// The open set holds an entry for `v` whose estimate is at most `bound`.
spec fn has_entry(open: Seq<AStarNode>, v: usize, bound: int) -> bool {
    exists|i: int|
        0 <= i < open.len() && (#[trigger] open[i]).waypoint_index == v && open[i].f_score <= bound
}

/// The link from `v` back to its predecessor: a real connection, a score no
/// higher at the predecessor (set earlier when equal), and a score at `v`
/// that covers the predecessor's plus the connection unless it saturated.
spec fn link_ok(
    ws: Seq<Waypoint>,
    g: Seq<Option<u64>>,
    came: Seq<Option<usize>>,
    link: Seq<int>,
    stamp: Seq<nat>,
    v: int,
) -> bool {
    let u = came[v]->Some_0;
    &&& u < ws.len()
    &&& g[v] is Some
    &&& g[u as int] is Some
    &&& 0 <= link[v] < ws[u as int].connections@.len()
    &&& ws[u as int].connections@[link[v]].waypoint_index == v
    &&& (g[u as int]->Some_0 < g[v]->Some_0 || (g[u as int]->Some_0 == g[v]->Some_0
        && stamp[u as int]
        < stamp[v]))
    &&& (g[v]->Some_0 == u64::MAX
        || g[u as int]->Some_0 + ws[u as int].connections@[link[v]].distance
        <= g[v]->Some_0)
}

impl Dataset {
    /// The A* search for a route from waypoint `start` to waypoint `goal`
    /// along the recorded connections. `heuristic` holds, by waypoint, the
    /// estimated remaining distance to `goal`; the open set is served lowest
    /// estimated total first. Returns the waypoints of the route in order,
    /// both ends included, or `None` when no route exists. When the estimate
    /// never overestimates, the route is a shortest one.
    pub fn get_shortest_route(&self, start: usize, goal: usize, heuristic: &Vec<u64>) -> (r: Result<
        Option<Vec<usize>>,
        GeoError,
    >)
        requires
            self.wf(),
            heuristic@.len() == self.len(),
        ensures
            start >= self.len() || goal >= self.len() ==> r == Err::<Option<Vec<usize>>, GeoError>(
                GeoError::WaypointNotFound,
            ),
            start < self.len() && goal < self.len() ==> r is Ok && match r->Ok_0 {
                Some(p) => is_route(self.waypoints@, p@, start, goal),
                None => !reachable(self.waypoints@, start, goal),
            },
            start == goal && goal < self.len() ==> r is Ok && r->Ok_0 is Some && r->Ok_0->Some_0@
                == seq![start],
            start < self.len() && goal < self.len() && !reachable(self.waypoints@, start, goal)
                ==> r
                == Ok::<Option<Vec<usize>>, GeoError>(None),
            start < self.len() && goal < self.len() && admissible(self.waypoints@, heuristic@, goal)
                && r->Ok_0 is Some
                    ==> is_shortest_route(self.waypoints@, r->Ok_0->Some_0@, start, goal),
    {
        let n = self.waypoints.len();
        if start >= n || goal >= n {
            return Err(GeoError::WaypointNotFound);
        }
        let ghost ws = self.waypoints@;
        let ghost h = heuristic@;
        let mut g_scores: Vec<Option<u64>> = Vec::new();
        let mut came_from: Vec<Option<usize>> = Vec::new();
        let mut j: usize = 0;
        while j < n
            invariant
                j <= n,
                g_scores@.len() == j,
                came_from@.len() == j,
                forall|q: int|
                    0 <= q < j ==> g_scores@[q] == (if q == start {
                        Some(0u64)
                    } else {
                        None::<u64>
                    }),
                forall|q: int| 0 <= q < j ==> came_from@[q] is None,
            decreases n - j,
        {
            g_scores.push(if j == start { Some(0u64) } else { None });
            came_from.push(None);
            j = j + 1;
        }
        let ghost mut stamp: Seq<nat> = Seq::new(n as nat, |q: int| 0nat);
        let ghost mut clock: nat = 1;
        let ghost mut done: Seq<bool> = Seq::new(n as nat, |q: int| false);
        let ghost mut link: Seq<int> = Seq::new(n as nat, |q: int| 0int);
        let mut open_set: Vec<AStarNode> = Vec::new();
        open_set.push(AStarNode { f_score: 0, waypoint_index: start });
        assert(open_set@[0].waypoint_index == start);
        assert(has_entry(open_set@, start, g_scores@[start as int]->Some_0 + h[start as int]));
        while open_set.len() > 0
            invariant
                self.wf(),
                ws == self.waypoints@,
                h == heuristic@,
                n == ws.len(),
                heuristic@.len() == n,
                start < n,
                goal < n,
                g_scores@.len() == n,
                came_from@.len() == n,
                stamp.len() == n,
                done.len() == n,
                link.len() == n,
                g_scores@[start as int] == Some(0u64),
                came_from@[start as int] is None,
                forall|q: int|
                    0 <= q < open_set@.len() ==> (#[trigger] open_set@[q]).waypoint_index < n
                        && g_scores@[open_set@[q].waypoint_index as int] is Some
                        && g_scores@[open_set@[q].waypoint_index as int]->Some_0 <=
                            open_set@[q].f_score,
                forall|v: int| 0 <= v < n ==> stamp[v] < clock,
                forall|v: int|
                    0 <= v < n && v != start && (#[trigger] g_scores@[v]) is Some
                        ==> came_from@[v] is Some,
                forall|v: int|
                    #![trigger came_from@[v]]
                    0 <= v < n && came_from@[v] is Some
                        ==> link_ok(ws, g_scores@, came_from@, link, stamp, v),
                forall|v: int|
                    0 <= v < n && (#[trigger] g_scores@[v]) is Some && !done[v] ==> has_entry(
                        open_set@,
                        v as usize,
                        g_scores@[v]->Some_0 + h[v],
                    ),
                forall|v: int| 0 <= v < n && #[trigger] done[v]
                    ==> done_ok(ws, g_scores@, v as usize, goal),
            decreases 2 * score_sum(g_scores@) + open_set@.len(),
        {
            let ghost measure = 2 * score_sum(g_scores@) + open_set@.len();
            // take the entry with the lowest estimated total
            let mut best: usize = 0;
            let mut q: usize = 1;
            while q < open_set.len()
                invariant
                    1 <= q <= open_set@.len(),
                    best < open_set@.len(),
                    forall|i: int| 0 <= i < q
                        ==> open_set@[best as int].f_score <= (#[trigger] open_set@[i]).f_score,
                decreases open_set@.len() - q,
            {
                if open_set[q].f_score < open_set[best].f_score {
                    best = q;
                }
                q = q + 1;
            }
            let ghost open_before = open_set@;
            let node = open_set.remove(best);
            let current = node.waypoint_index;
            assert(open_before[best as int] == node);
            proof {
                assert forall|v: int|
                    0 <= v < n && v != current && (#[trigger] g_scores@[v]) is Some && !done[v]
                        implies has_entry(
                    open_set@,
                    v as usize,
                    g_scores@[v]->Some_0 + h[v],
                ) by {
                    let i = choose|i: int|
                        0 <= i < open_before.len()
                            && (#[trigger] open_before[i]).waypoint_index == v as usize
                            && open_before[i].f_score <= g_scores@[v]->Some_0 + h[v];
                    if i < best {
                        assert(open_set@[i] == open_before[i]);
                    } else {
                        assert(open_set@[i - 1] == open_before[i]);
                    }
                }
                assert forall|q: int| 0 <= q < open_set@.len()
                    implies (#[trigger] open_set@[q]).waypoint_index < n
                    && g_scores@[open_set@[q].waypoint_index as int] is Some
                    && g_scores@[open_set@[q].waypoint_index as int]->Some_0 <=
                        open_set@[q].f_score by {
                    if q < best {
                        assert(open_set@[q] == open_before[q]);
                    } else {
                        assert(open_set@[q] == open_before[q + 1]);
                    }
                }
            }
            if current == goal {
                let (path, Ghost(edges)) = self.reconstruct(&g_scores, &came_from, start, goal,
                    Ghost(stamp), Ghost(link));
                proof {
                    if admissible(ws, h, goal) {
                        assert forall|p2: Seq<usize>, e2: Seq<int>|
                            #[trigger] is_walk(ws, p2, e2) && p2[0] == start && p2.last() == goal
                                && walk_cost(ws, p2, e2) < u64::MAX
                                    implies walk_cost(ws, path@, edges)
                            <= walk_cost(ws, p2, e2) by {
                            assert(cost_between(ws, p2, e2, 0, 0) == 0);
                            lemma_walk_bound(ws, g_scores@, done, open_before, h, goal, p2, e2,
                                node.f_score, 0);
                        }
                        assert(is_shortest_route(ws, path@, start, goal));
                    }
                }
                return Ok(Some(path));
            }
            let g_current = match g_scores[current] {
                Some(s) => s,
                None => 0,
            };
            let connections = &self.waypoints[current].connections;
            assert(waypoint_wf(ws[current as int], n as nat));
            let mut ci: usize = 0;
            while ci < connections.len()
                invariant
                    self.wf(),
                    ws == self.waypoints@,
                    h == heuristic@,
                    n == ws.len(),
                    heuristic@.len() == n,
                    start < n,
                    goal < n,
                    current < n,
                    current != goal,
                    connections == self.waypoints@[current as int].connections,
                    ci <= connections@.len(),
                    g_scores@.len() == n,
                    came_from@.len() == n,
                    stamp.len() == n,
                    done.len() == n,
                    link.len() == n,
                    g_scores@[start as int] == Some(0u64),
                    came_from@[start as int] is None,
                    g_scores@[current as int] == Some(g_current),
                    forall|q: int|
                        0 <= q < open_set@.len() ==> (#[trigger] open_set@[q]).waypoint_index < n
                            && g_scores@[open_set@[q].waypoint_index as int] is Some
                            && g_scores@[open_set@[q].waypoint_index as int]->Some_0 <=
                                open_set@[q].f_score,
                    forall|v: int| 0 <= v < n ==> stamp[v] < clock,
                    forall|v: int|
                        0 <= v < n && v != start && (#[trigger] g_scores@[v]) is Some
                            ==> came_from@[v] is Some,
                    forall|v: int|
                        #![trigger came_from@[v]]
                        0 <= v < n && came_from@[v] is Some
                            ==> link_ok(ws, g_scores@, came_from@, link, stamp, v),
                    forall|v: int|
                        0 <= v < n && v != current && (#[trigger] g_scores@[v]) is Some && !done[v]
                            ==> has_entry(
                            open_set@,
                            v as usize,
                            g_scores@[v]->Some_0 + h[v],
                        ),
                    forall|v: int| 0 <= v < n && #[trigger] done[v]
                        ==> done_ok(ws, g_scores@, v as usize, goal),
                    forall|c: int|
                        0 <= c < ci ==> {
                            let t = (#[trigger] connections@[c]).waypoint_index;
                            &&& g_scores@[t as int] is Some
                            &&& g_scores@[t as int]->Some_0 <= g_current + connections@[c].distance
                        },
                    2 * score_sum(g_scores@) + open_set@.len() < measure,
                decreases connections@.len() - ci,
            {
                let neighbor = connections[ci].waypoint_index;
                let tentative = g_current.saturating_add(connections[ci].distance);
                assert(ws[current as int].connections@[ci as int].waypoint_index == neighbor);
                assert(neighbor < n);
                let better = match g_scores[neighbor] {
                    None => true,
                    Some(old_score) => tentative < old_score,
                };
                if better {
                    let ghost g_before = g_scores@;
                    let ghost came_before = came_from@;
                    let ghost open_prev = open_set@;
                    let ghost stamp_before = stamp;
                    let ghost link_before = link;
                    let ghost done_before = done;
                    assert(neighbor != current);
                    came_from.set(neighbor, Some(current));
                    g_scores.set(neighbor, Some(tentative));
                    proof {
                        lemma_score_sum_update(g_before, neighbor as int, Some(tentative));
                        assert(g_scores@ == g_before.update(neighbor as int, Some(tentative)));
                        stamp = stamp.update(neighbor as int, clock);
                        link = link.update(neighbor as int, ci as int);
                        done = done.update(neighbor as int, false);
                        clock = clock + 1;
                    }
                    open_set.push(AStarNode {
                        f_score: tentative.saturating_add(heuristic[neighbor]),
                        waypoint_index: neighbor,
                    });
                    proof {
                        assert(open_set@[open_prev.len() as int].waypoint_index == neighbor);
                        assert forall|v: int|
                            0 <= v < n && v != current && (#[trigger] g_scores@[v]) is Some
                                && !done[v] implies has_entry(
                            open_set@,
                            v as usize,
                            g_scores@[v]->Some_0 + h[v],
                        ) by {
                            if v == neighbor {
                                assert(open_set@[open_prev.len() as int].f_score <=
                                    g_scores@[v]->Some_0 + h[v]);
                            } else {
                                let i = choose|i: int|
                                    0 <= i < open_prev.len()
                                        && (#[trigger] open_prev[i]).waypoint_index == v as usize
                                        && open_prev[i].f_score <= g_before[v]->Some_0 + h[v];
                                assert(open_set@[i] == open_prev[i]);
                            }
                        }
                        assert forall|q: int| 0 <= q < open_set@.len()
                            implies (#[trigger] open_set@[q]).waypoint_index < n
                            && g_scores@[open_set@[q].waypoint_index as int] is Some
                            && g_scores@[open_set@[q].waypoint_index as int]->Some_0 <=
                                open_set@[q].f_score by {
                            if q < open_prev.len() {
                                assert(open_set@[q] == open_prev[q]);
                            }
                        }
                        assert forall|v: int|
                            #![trigger came_from@[v]]
                            0 <= v < n && came_from@[v] is Some
                                implies link_ok(ws, g_scores@, came_from@, link, stamp, v) by {
                            if v != neighbor {
                                assert(link_ok(ws, g_before, came_before, link_before,
                                    stamp_before, v));
                            }
                        }
                        assert forall|v: int| 0 <= v < n && #[trigger] done[v]
                            implies done_ok(ws, g_scores@, v as usize, goal) by {
                            assert(done_ok(ws, g_before, v as usize, goal));
                            assert forall|c: int| 0 <= c < ws[v].connections@.len() implies {
                                let t = (#[trigger] ws[v].connections@[c]).waypoint_index;
                                &&& t < ws.len()
                                &&& g_scores@[t as int] is Some
                                &&& g_scores@[t as int]->Some_0 <= g_scores@[v]->Some_0 +
                                    ws[v].connections@[c].distance
                            } by {
                                let t = ws[v].connections@[c].waypoint_index;
                                assert(g_before[t as int] is Some);
                            }
                        }
                    }
                }
                ci = ci + 1;
            }
            proof {
                done = done.update(current as int, true);
                assert forall|v: int| 0 <= v < n && #[trigger] done[v]
                    implies done_ok(ws, g_scores@, v as usize, goal) by {
                    if v == current {
                        assert forall|c: int| 0 <= c < ws[v].connections@.len() implies {
                            let t = (#[trigger] ws[v].connections@[c]).waypoint_index;
                            &&& t < ws.len()
                            &&& g_scores@[t as int] is Some
                            &&& g_scores@[t as int]->Some_0 <= g_scores@[v]->Some_0 +
                                ws[v].connections@[c].distance
                        } by {
                            assert(connections@[c] == ws[v].connections@[c]);
                        }
                    }
                }
            }
        }
        proof {
            assert forall|v: int| 0 <= v < n && (#[trigger] g_scores@[v]) is Some
                implies done[v] by {
                if !done[v] {
                    assert(has_entry(open_set@, v as usize, g_scores@[v]->Some_0 + h[v]));
                }
            }
            assert forall|v: int| 0 <= v < n && #[trigger] done[v] implies v != goal by {
                assert(done_ok(ws, g_scores@, v as usize, goal));
            }
            assert forall|v: usize, x: usize| #[trigger] has_edge(ws, v, x) && done[v as int]
                implies x < n
                && g_scores@[x as int] is Some by {
                assert(done_ok(ws, g_scores@, v, goal));
                let c = choose|c: int|
                    0 <= c < ws[v as int].connections@.len()
                        && (#[trigger] ws[v as int].connections@[c]).waypoint_index == x;
            }
            lemma_closed_unreachable(ws, g_scores@, done, start, goal);
        }
        Ok(None)
    }

    /// Follows the predecessor links back from `goal` to `start` and returns
    /// the route in travel order, with the connection each step takes. Along a
    /// link the predecessor's score is lower, or equal and set earlier, so the
    /// walk ends; and the route costs no more than the goal's score.
    fn reconstruct(
        &self,
        g_scores: &Vec<Option<u64>>,
        came_from: &Vec<Option<usize>>,
        start: usize,
        goal: usize,
        Ghost(stamp): Ghost<Seq<nat>>,
        Ghost(link): Ghost<Seq<int>>,
    ) -> (r: (Vec<usize>, Ghost<Seq<int>>))
        requires
            start < self.len(),
            goal < self.len(),
            g_scores@.len() == self.len(),
            came_from@.len() == self.len(),
            stamp.len() == self.len(),
            link.len() == self.len(),
            came_from@[start as int] is None,
            g_scores@[start as int] == Some(0u64),
            g_scores@[goal as int] is Some,
            forall|v: int|
                0 <= v < self.len() && v != start && (#[trigger] g_scores@[v]) is Some
                    ==> came_from@[v] is Some,
            forall|v: int|
                #![trigger came_from@[v]]
                0 <= v < self.len() && came_from@[v] is Some
                    ==> link_ok(self.waypoints@, g_scores@, came_from@, link, stamp, v),
        ensures
            is_route(self.waypoints@, r.0@, start, goal),
            is_walk(self.waypoints@, r.0@, r.1@),
            g_scores@[goal as int]->Some_0 < u64::MAX ==> walk_cost(self.waypoints@, r.0@, r.1@)
                <= g_scores@[goal as int]->Some_0,
            start == goal ==> r.0@ == seq![start],
    {
        let ghost ws = self.waypoints@;
        let mut back: Vec<usize> = Vec::new();
        back.push(goal);
        let mut v = goal;
        while came_from[v].is_some()
            invariant
                ws == self.waypoints@,
                v < self.len(),
                g_scores@.len() == self.len(),
                came_from@.len() == self.len(),
                stamp.len() == self.len(),
                link.len() == self.len(),
                g_scores@[v as int] is Some,
                back@.len() > 0,
                back@[0] == goal,
                back@.last() == v,
                start == goal ==> back@.len() == 1,
                came_from@[start as int] is None,
                forall|i: int| 0 <= i < back@.len() ==> #[trigger] back@[i] < self.len(),
                forall|i: int|
                    0 <= i < back@.len() - 1
                        ==> came_from@[#[trigger] back@[i] as int] == Some(back@[i + 1]),
                forall|v: int|
                    #![trigger came_from@[v]]
                    0 <= v < self.len() && came_from@[v] is Some
                        ==> link_ok(ws, g_scores@, came_from@, link, stamp, v),
            decreases g_scores@[v as int]->Some_0, stamp[v as int],
        {
            let u = came_from[v].unwrap();
            assert(came_from@[v as int] is Some);
            assert(link_ok(ws, g_scores@, came_from@, link, stamp, v as int));
            let ghost prev = back@;
            back.push(u);
            proof {
                assert forall|i: int| 0 <= i < back@.len() - 1
                    implies came_from@[#[trigger] back@[i] as int]
                    == Some(back@[i + 1]) by {
                    if i < prev.len() - 1 {
                        assert(back@[i + 1] == prev[i + 1]);
                    }
                }
            }
            v = u;
        }
        assert(v == start);
        let len = back.len();
        let mut path: Vec<usize> = Vec::new();
        let mut i: usize = len;
        while i > 0
            invariant
                len == back@.len(),
                i <= len,
                path@.len() == len - i,
                forall|q: int| 0 <= q < path@.len() ==> path@[q] == back@[len - 1 - q],
            decreases i,
        {
            i = i - 1;
            path.push(back[i]);
        }
        let ghost p = path@;
        let ghost m = (len - 1) as int;
        let ghost edges = Seq::new(m as nat, |q: int| link[p[q + 1] as int]);
        proof {
            assert forall|q: int| 0 <= q < m implies came_from@[p[q + 1] as int] == Some(p[q]) by {
                let b = len - 2 - q;
                assert(came_from@[back@[b] as int] == Some(back@[b + 1]));
            }
            assert forall|q: int| #![trigger edges[q]] 0 <= q < edges.len() implies p[q] < ws.len()
                && 0 <= edges[q]
                < ws[p[q] as int].connections@.len()
                    && ws[p[q] as int].connections@[edges[q]].waypoint_index
                == p[q + 1] by {
                assert(came_from@[p[q + 1] as int] == Some(p[q]));
                assert(link_ok(ws, g_scores@, came_from@, link, stamp, p[q + 1] as int));
            }
            assert forall|q: int| 0 <= q < p.len() - 1
                implies #[trigger] has_edge(ws, p[q], p[q + 1]) by {
                assert(came_from@[p[q + 1] as int] == Some(p[q]));
                assert(link_ok(ws, g_scores@, came_from@, link, stamp, p[q + 1] as int));
                assert(ws[p[q] as int].connections@[edges[q]].waypoint_index == p[q + 1]);
            }
            if g_scores@[goal as int]->Some_0 < u64::MAX {
                lemma_chain_cost(ws, g_scores@, came_from@, link, stamp, p, edges, m);
            }
            if start == goal {
                assert(p =~= seq![start]);
            }
        }
        (path, Ghost(edges))
    }
}

/// Along a chain of predecessor links the cost of the first `k` steps is at
/// most the rise in score, as long as the last score did not saturate.
proof fn lemma_chain_cost(
    ws: Seq<Waypoint>,
    g: Seq<Option<u64>>,
    came: Seq<Option<usize>>,
    link: Seq<int>,
    stamp: Seq<nat>,
    p: Seq<usize>,
    e: Seq<int>,
    k: int,
)
    requires
        p.len() > 0,
        e.len() == p.len() - 1,
        0 <= k < p.len(),
        forall|q: int| #![trigger e[q]] 0 <= q < e.len() ==> e[q] == link[p[q + 1] as int],
        forall|q: int| 0 <= q < e.len() ==> came[#[trigger] p[q + 1] as int] == Some(p[q]),
        forall|q: int| 0 <= q < p.len() ==> 0 <= #[trigger] p[q] < g.len(),
        g.len() == came.len(),
        forall|v: int| #![trigger came[v]] 0 <= v < g.len() && came[v] is Some
            ==> link_ok(ws, g, came, link, stamp, v),
        g[p.last() as int] is Some,
        g[p.last() as int]->Some_0 < u64::MAX,
        g[p[0] as int] is Some,
    ensures
        g[p[k] as int] is Some,
        g[p[k] as int]->Some_0 <= g[p.last() as int]->Some_0,
        cost_between(ws, p, e, 0, k) + g[p[0] as int]->Some_0 <= g[p[k] as int]->Some_0,
    decreases k,
{
    let m = e.len() as int;
    if k < m {
        lemma_chain_cost_up(ws, g, came, link, stamp, p, e, k);
    }
    if k > 0 {
        lemma_chain_cost(ws, g, came, link, stamp, p, e, k - 1);
        assert(came[p[(k - 1) + 1] as int] == Some(p[k - 1]));
        assert(link_ok(ws, g, came, link, stamp, p[k] as int));
        assert(e[k - 1] == link[p[k] as int]);
        lemma_chain_cost_up(ws, g, came, link, stamp, p, e, k);
    }
}

/// Scores never fall along a chain of predecessor links.
proof fn lemma_chain_cost_up(
    ws: Seq<Waypoint>,
    g: Seq<Option<u64>>,
    came: Seq<Option<usize>>,
    link: Seq<int>,
    stamp: Seq<nat>,
    p: Seq<usize>,
    e: Seq<int>,
    k: int,
)
    requires
        p.len() > 0,
        e.len() == p.len() - 1,
        0 <= k < p.len(),
        forall|q: int| 0 <= q < e.len() ==> came[#[trigger] p[q + 1] as int] == Some(p[q]),
        forall|q: int| 0 <= q < p.len() ==> 0 <= #[trigger] p[q] < g.len(),
        g.len() == came.len(),
        forall|v: int| #![trigger came[v]] 0 <= v < g.len() && came[v] is Some
            ==> link_ok(ws, g, came, link, stamp, v),
        g[p.last() as int] is Some,
    ensures
        g[p[k] as int] is Some,
        g[p[k] as int]->Some_0 <= g[p.last() as int]->Some_0,
    decreases p.len() - k,
{
    if k < p.len() - 1 {
        lemma_chain_cost_up(ws, g, came, link, stamp, p, e, k + 1);
        assert(came[p[k + 1] as int] == Some(p[k]));
        assert(link_ok(ws, g, came, link, stamp, p[k + 1] as int));
    }
}

} // verus!
