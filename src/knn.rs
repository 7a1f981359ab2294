//! Nearest-neighbour search: ranking candidates by distance, the full scan,
//! and the expanding-ring search through the geohash index.
use vstd::prelude::*;

use crate::dataset::{Connection, Dataset, GEOHASH_PRECISION, waypoint_wf};
use crate::geohash::{
    get_surrounding_cells, is_base32, is_geohash, lemma_geohash_of_is_geohash, GeoError,
};
use crate::trie::{has_prefix, indices_with_prefix};
use vstd::string::*;

verus! {

/// The targets of a list of connections, in order.
pub open spec fn targets(r: Seq<Connection>) -> Seq<usize> {
    r.map_values(|c: Connection| c.waypoint_index)
}

/// Distances never decrease along the list.
pub open spec fn sorted_by_distance(r: Seq<Connection>) -> bool {
    forall|i: int, j: int| 0 <= i < j < r.len() ==> r[i].distance <= r[j].distance
}

pub open spec fn min_nat(a: nat, b: nat) -> nat {
    if a <= b {
        a
    } else {
        b
    }
}

/// `r` lists the `k` candidates nearest by `dist` (all of them when there
/// are fewer), closest first: each once, with its distance, and no candidate
/// left out is closer than one taken.
pub open spec fn nearest_among(r: Seq<Connection>, cands: Seq<usize>, k: nat,
    dist: Seq<u64>) -> bool {
    &&& r.len() == min_nat(k, cands.len())
    &&& sorted_by_distance(r)
    &&& targets(r).no_duplicates()
    &&& forall|i: int|
        0 <= i < r.len() ==> cands.contains(#[trigger] r[i].waypoint_index) && r[i].waypoint_index
            < dist.len() && r[i].distance == dist[r[i].waypoint_index as int]
    &&& forall|c: usize|
        #[trigger] cands.contains(c) && !targets(r).contains(c) ==> forall|i: int|
            0 <= i < r.len() ==> r[i].distance <= dist[c as int]
}

/// The `k` candidates nearest by `distances` (indexed by waypoint), closest
/// first; among equal distances, candidates keep their order.
pub fn select_nearest(candidates: &Vec<usize>, k: usize, distances: &Vec<u64>) -> (r: Vec<
    Connection,
>)
    requires
        candidates@.no_duplicates(),
        forall|i: int| 0 <= i < candidates@.len() ==> #[trigger] candidates@[i] < distances@.len(),
    ensures
        nearest_among(r@, candidates@, k as nat, distances@),
{
    let mut best: Vec<Connection> = Vec::new();
    let mut m: usize = 0;
    while m < candidates.len()
        invariant
            m <= candidates@.len(),
            candidates@.no_duplicates(),
            forall|i: int| 0 <= i < candidates@.len()
                ==> #[trigger] candidates@[i] < distances@.len(),
            best@.len() == min_nat(k as nat, m as nat),
            sorted_by_distance(best@),
            targets(best@).no_duplicates(),
            forall|i: int|
                0 <= i < best@.len() ==> candidates@.take(m as int).contains(
                    #[trigger] best@[i].waypoint_index,
                ) && best@[i].waypoint_index < distances@.len() && best@[i].distance
                    == distances@[best@[i].waypoint_index as int],
            forall|c: usize|
                #[trigger] candidates@.take(m as int).contains(c) && !targets(best@).contains(c)
                    ==> best@.len() == k && forall|i: int|
                    0 <= i < best@.len() ==> best@[i].distance <= distances@[c as int],
        decreases candidates@.len() - m,
    {
        let j = candidates[m];
        let d = distances[j];
        let mut p: usize = 0;
        while p < best.len() && best[p].distance <= d
            invariant
                p <= best@.len(),
                forall|i: int| 0 <= i < p ==> best@[i].distance <= d,
            decreases best@.len() - p,
        {
            p = p + 1;
        }
        let ghost old_best = best@;
        let ghost seen = candidates@.take(m as int);
        let ghost seen2 = candidates@.take(m + 1);
        assert(seen2 == seen.push(j));
        assert(!seen.contains(j)) by {
            if seen.contains(j) {
                let q = choose|q: int| 0 <= q < seen.len() && seen[q] == j;
                assert(candidates@[q] == candidates@[m as int]);
            }
        }
        assert(forall|i: int| 0 <= i < old_best.len()
            ==> targets(old_best)[i] == old_best[i].waypoint_index);
        if p < k {
            let e = Connection { distance: d, waypoint_index: j };
            best.insert(p, e);
            let ghost inserted = best@;
            assert(inserted == old_best.insert(p as int, e));
            if best.len() > k {
                best.pop();
            }
            proof {
                assert(forall|i: int| 0 <= i < best@.len() ==> best@[i] == inserted[i]);
                assert(forall|i: int| 0 <= i < best@.len()
                    ==> targets(best@)[i] == best@[i].waypoint_index);
                assert forall|i: int, q: int| 0 <= i < q < best@.len()
                    implies best@[i].distance <= best@[q].distance by {
                    if q < p {
                    } else if q == p {
                    } else if i < p {
                        assert(best@[q] == old_best[q - 1]);
                    } else if i == p {
                        assert(best@[q] == old_best[q - 1]);
                        assert(!(old_best[p as int].distance <= d));
                        assert(old_best[p as int].distance <= old_best[q - 1].distance);
                    } else {
                        assert(best@[q] == old_best[q - 1]);
                        assert(best@[i] == old_best[i - 1]);
                    }
                }
                assert forall|i: int, q: int| 0 <= i < q < best@.len()
                    implies targets(best@)[i] != targets(best@)[q] by {
                    if i == p {
                        assert(old_best.contains(best@[q]));
                        assert(targets(old_best).contains(best@[q].waypoint_index)) by {
                            assert(targets(old_best)[q - 1] == best@[q].waypoint_index);
                        }
                        assert(seen.contains(best@[q].waypoint_index));
                    } else if q == p {
                        assert(targets(old_best)[i] == best@[i].waypoint_index);
                        assert(seen.contains(best@[i].waypoint_index));
                    } else {
                        let i0 = if i < p { i } else { i - 1 };
                        let q0 = if q < p { q } else { q - 1 };
                        assert(targets(old_best)[i0] != targets(old_best)[q0]);
                    }
                }
                assert forall|i: int| 0 <= i < best@.len()
                    implies seen2.contains(#[trigger] best@[i].waypoint_index)
                    && best@[i].waypoint_index < distances@.len()
                    && best@[i].distance == distances@[best@[i].waypoint_index as int] by {
                    if i == p {
                        assert(seen2[m as int] == j);
                    } else {
                        let i0 = if i < p { i } else { i - 1 };
                        assert(best@[i] == old_best[i0]);
                        assert(seen.contains(old_best[i0].waypoint_index));
                        let q = choose|q: int| 0 <= q < seen.len()
                            && seen[q] == old_best[i0].waypoint_index;
                        assert(seen2[q] == seen[q]);
                    }
                }
                assert forall|c: usize| #[trigger] seen2.contains(c) && !targets(best@).contains(c)
                    implies best@.len() == k && forall|i: int| 0 <= i < best@.len()
                    ==> best@[i].distance <= distances@[c as int] by {
                    if c == j {
                        if (p as int) < best@.len() {
                            assert(targets(best@)[p as int] == j);
                        }
                        assert(best@.len() < inserted.len());
                        assert(p == k);
                        assert forall|i: int| 0 <= i < best@.len()
                            implies best@[i].distance <= distances@[c as int] by {
                            assert(best@[i] == old_best[i]);
                        }
                    } else {
                        let q = choose|q: int| 0 <= q < seen2.len() && seen2[q] == c;
                        assert(seen.contains(c)) by { assert(seen[q] == c); }
                        if targets(old_best).contains(c) {
                            let i0 = choose|i0: int| 0 <= i0 < targets(old_best).len()
                                && targets(old_best)[i0] == c;
                            // c was taken and is no longer: it was the element dropped
                            let ii = if i0 < p { i0 } else { i0 + 1 };
                            assert(inserted[ii].waypoint_index == c);
                            if ii < best@.len() {
                                assert(targets(best@)[ii] == c);
                            }
                            assert(best@.len() < inserted.len());
                            assert(ii == k);
                            assert forall|i: int| 0 <= i < best@.len()
                                implies best@[i].distance <= distances@[c as int] by {
                                assert(inserted[i].distance <= inserted[ii].distance);
                            }
                        } else {
                            assert(old_best.len() == k);
                            assert(old_best[p as int].distance <= distances@[c as int]);
                            assert forall|i: int| 0 <= i < best@.len()
                                implies best@[i].distance <= distances@[c as int] by {
                                if i < p {
                                    assert(best@[i] == old_best[i]);
                                } else if i > p {
                                    assert(best@[i] == old_best[i - 1]);
                                }
                            }
                        }
                    }
                }
            }
        } else {
            proof {
                assert(p == best@.len());
                assert forall|c: usize| #[trigger] seen2.contains(c) && !targets(best@).contains(c)
                    implies best@.len() == k && forall|i: int| 0 <= i < best@.len()
                    ==> best@[i].distance <= distances@[c as int] by {
                    assert(best@.len() == k);
                    if c != j {
                        let q = choose|q: int| 0 <= q < seen2.len() && seen2[q] == c;
                        assert(seen[q] == c);
                        assert(seen.contains(c));
                    } else {
                        assert forall|i: int| 0 <= i < best@.len()
                            implies best@[i].distance <= distances@[c as int] by {
                            assert(i < p);
                        }
                    }
                }
                assert forall|i: int| 0 <= i < best@.len()
                    implies seen2.contains(#[trigger] best@[i].waypoint_index) by {
                    let q = choose|q: int| 0 <= q < seen.len()
                        && seen[q] == best@[i].waypoint_index;
                    assert(seen2[q] == seen[q]);
                }
            }
        }
        m = m + 1;
    }
    assert(candidates@.take(m as int) =~= candidates@);
    best
}

/// The indices `0..n` without `w`, in increasing order.
pub open spec fn all_but(n: nat, w: usize) -> Seq<usize> {
    Seq::new(
        (n - 1) as nat,
        |i: int|
            if i < w {
                i as usize
            } else {
                (i + 1) as usize
            },
    )
}

impl Dataset {
    /// The `k` waypoints nearest to waypoint `target` by `distances` (its
    /// distance to each waypoint, by index), from a scan of the whole dataset.
    pub fn get_knn_naive(&self, target: usize, k: usize, distances: &Vec<u64>) -> (r: Result<
        Vec<Connection>,
        GeoError,
    >)
        requires
            distances@.len() == self.len(),
        ensures
            target >= self.len()
                ==> r == Err::<Vec<Connection>, GeoError>(GeoError::WaypointNotFound),
            target < self.len() ==> r is Ok && nearest_among(
                r->Ok_0@,
                all_but(self.len(), target),
                k as nat,
                distances@,
            ),
    {
        let n = self.waypoints.len();
        if target >= n {
            return Err(GeoError::WaypointNotFound);
        }
        let mut others: Vec<usize> = Vec::new();
        let mut j: usize = 0;
        while j < n
            invariant
                n == self.len(),
                target < n,
                j <= n,
                others@.len() == if j <= target { j as int } else { j - 1 },
                forall|i: int| 0 <= i < others@.len()
                    ==> others@[i] == all_but(n as nat, target)[i],
            decreases n - j,
        {
            if j != target {
                others.push(j);
            }
            j = j + 1;
        }
        assert(others@ =~= all_but(n as nat, target));
        assert(others@.no_duplicates());
        Ok(select_nearest(&others, k, distances))
    }
}

/// `visited` marks exactly `target` and the collected candidates, which are
/// distinct indices below `n` other than `target`.
pub open spec fn candidates_ok(cands: Seq<usize>, n: nat, target: usize) -> bool {
    &&& cands.no_duplicates()
    &&& forall|i: int| 0 <= i < cands.len() ==> #[trigger] cands[i] < n && cands[i] != target
}

spec fn visited_ok(visited: Seq<bool>, cands: Seq<usize>, n: nat, target: usize) -> bool {
    &&& visited.len() == n
    &&& target < n
    &&& candidates_ok(cands, n, target)
    &&& forall|j: int| 0 <= j < n ==> (#[trigger] visited[j] <==> (j == target
        || cands.contains(j as usize)))
}

proof fn lemma_all_but_contains(n: nat, w: usize, j: usize)
    requires
        n <= usize::MAX,
        j < n,
        j != w,
        w < n,
    ensures
        all_but(n, w).contains(j),
{
    let i = if j < w { j as int } else { j - 1 };
    assert(all_but(n, w)[i] == j);
}

proof fn lemma_all_but_ok(n: nat, w: usize)
    requires
        n <= usize::MAX,
        w < n,
    ensures
        candidates_ok(all_but(n, w), n, w),
{
    let s = all_but(n, w);
    assert forall|a: int, b: int| 0 <= a < s.len() && 0 <= b < s.len() && a != b
        implies s[a] != s[b] by {}
}

/// Adds to `candidates` each index of `found` below `n` not yet visited.
fn add_unvisited(found: &Vec<usize>, visited: &mut Vec<bool>, candidates: &mut Vec<usize>,
    n: usize, target: usize)
    requires
        visited_ok(old(visited)@, old(candidates)@, n as nat, target),
    ensures
        visited_ok(final(visited)@, final(candidates)@, n as nat, target),
        final(candidates)@.len() >= old(candidates)@.len(),
        forall|x: usize| #[trigger] old(candidates)@.contains(x) ==> final(candidates)@.contains(x),
        forall|x: usize| #[trigger] found@.contains(x) && x < n && x != target
            ==> final(candidates)@.contains(x),
{
    let mut i: usize = 0;
    while i < found.len()
        invariant
            i <= found@.len(),
            visited_ok(visited@, candidates@, n as nat, target),
            candidates@.len() >= old(candidates)@.len(),
            forall|x: usize| #[trigger] old(candidates)@.contains(x) ==> candidates@.contains(x),
            forall|q: int| 0 <= q < i ==> (#[trigger] found@[q] < n && found@[q] != target)
                ==> candidates@.contains(found@[q]),
        decreases found@.len() - i,
    {
        let idx = found[i];
        if idx < n && !visited[idx] {
            let ghost before = candidates@;
            visited.set(idx, true);
            candidates.push(idx);
            proof {
                assert(candidates@[before.len() as int] == idx);
                assert forall|x: usize| #[trigger] before.contains(x)
                    implies candidates@.contains(x) by {
                    let q = choose|q: int| 0 <= q < before.len() && before[q] == x;
                    assert(candidates@[q] == x);
                }
                assert forall|j: int| 0 <= j < n implies (#[trigger] visited@[j] <==> (j == target
                    || candidates@.contains(j as usize))) by {
                    if candidates@.contains(j as usize) && j != idx {
                        let q = choose|q: int| 0 <= q < candidates@.len()
                            && candidates@[q] == j as usize;
                        assert(before[q] == j as usize);
                    }
                }
                assert forall|a: int, b: int| 0 <= a < b < candidates@.len()
                    implies candidates@[a] != candidates@[b] by {
                    if b == before.len() {
                        assert(before.contains(candidates@[a]));
                    }
                }
            }
        }
        i = i + 1;
    }
    proof {
        assert forall|x: usize| #[trigger] found@.contains(x) && x < n && x != target
            implies candidates@.contains(x) by {
            let q = choose|q: int| 0 <= q < found@.len() && found@[q] == x;
        }
    }
}

/// What the geohash search guarantees of its result `r` for waypoint
/// `target` with geohash `key`, in a dataset of `n` waypoints indexed by
/// `index`: it is the exact top `k` of some candidate set that holds every
/// indexed waypoint of the parent cell of `key`, and it has `k` entries
/// unless it is the top `k` of the whole dataset.
pub open spec fn knn_geohash_ok(
    index: Map<Seq<char>, usize>,
    n: nat,
    key: Seq<char>,
    target: usize,
    k: nat,
    dist: Seq<u64>,
    r: Seq<Connection>,
) -> bool {
    &&& exists|c: Seq<usize>|
        candidates_ok(c, n, target) && nearest_among(r, c, k, dist) && (k > 0 ==> forall|j: usize|
            #[trigger] indices_with_prefix(index, key.drop_last()).contains(j) && j != target
                ==> c.contains(j))
    &&& (r.len() == k || nearest_among(r, all_but(n, target), k, dist))
}

impl Dataset {
    /// The `k` waypoints nearest to waypoint `target` by `distances`, searched
    /// through the geohash index. The search widens the query's cell one
    /// character at a time until it holds `k` other waypoints, then adds the
    /// eight cells around the last one, and ranks what it found; if even the
    /// whole globe holds fewer than `k`, it falls back to a full scan.
    ///
    /// This is an approximation: a nearer waypoint outside the searched cells
    /// is missed. What is guaranteed is that the result is the exact top `k`
    /// of a candidate set that holds every indexed waypoint of the query's
    /// parent cell, and that it has `k` entries unless it is the full scan's.
    pub fn get_knn_geohash(&self, target: usize, k: usize, distances: &Vec<u64>) -> (r: Result<
        Vec<Connection>,
        GeoError,
    >)
        requires
            self.wf(),
            distances@.len() == self.len(),
        ensures
            target >= self.len()
                ==> r == Err::<Vec<Connection>, GeoError>(GeoError::WaypointNotFound),
            target < self.len() ==> r is Ok && knn_geohash_ok(
                self.geohash_index.view(),
                self.len(),
                self.waypoints@[target as int].geohash@,
                target,
                k as nat,
                distances@,
                r->Ok_0@,
            ),
    {
        let n = self.waypoints.len();
        if target >= n {
            return Err(GeoError::WaypointNotFound);
        }
        let ghost gh = self.waypoints@[target as int].geohash@;
        let ghost parent_cell = indices_with_prefix(self.geohash_index.view(), gh.drop_last());
        proof {
            assert(waypoint_wf(self.waypoints@[target as int], self.len()));
            lemma_geohash_of_is_geohash(
                self.waypoints@[target as int].lat as int,
                self.waypoints@[target as int].lon as int,
                GEOHASH_PRECISION as nat,
            );
        }
        let mut visited: Vec<bool> = Vec::new();
        let mut j: usize = 0;
        while j < n
            invariant
                j <= n,
                visited@.len() == j,
                forall|q: int| 0 <= q < j ==> visited@[q] == (q == target),
            decreases n - j,
        {
            visited.push(j == target);
            j = j + 1;
        }
        let mut candidates: Vec<usize> = Vec::new();
        let mut key = String::from_str(self.waypoints[target].geohash.as_str());
        assert(gh.subrange(0, gh.len() as int) =~= gh);
        while candidates.len() < k && key.unicode_len() > 0
            invariant
                self.wf(),
                n == self.len(),
                target < n,
                gh == self.waypoints@[target as int].geohash@,
                gh.len() == GEOHASH_PRECISION,
                is_geohash(gh),
                parent_cell == indices_with_prefix(self.geohash_index.view(), gh.drop_last()),
                visited_ok(visited@, candidates@, n as nat, target),
                key@.len() <= gh.len(),
                key@ == gh.subrange(0, key@.len() as int),
                key@.len() == gh.len() ==> candidates@.len() == 0,
                key@.len() < gh.len() ==> forall|x: usize| #[trigger] parent_cell.contains(x)
                    && x != target ==> candidates@.contains(x),
            decreases key@.len(),
        {
            let len = key.unicode_len();
            key = String::from_str(key.as_str().substring_char(0, len - 1));
            let found = self.geohash_index.get_all_with_prefix(key.as_str());
            let ghost before = candidates@;
            add_unvisited(&found, &mut visited, &mut candidates, n, target);
            proof {
                assert(key@ =~= gh.subrange(0, key@.len() as int));
                assert forall|x: usize| #[trigger] parent_cell.contains(x) && x != target
                    implies candidates@.contains(x) by {
                    if len == gh.len() {
                        assert(key@.len() == gh.len() - 1);
                        assert(gh.drop_last() =~= key@);
                        assert(key@ == gh.drop_last());
                        assert(indices_with_prefix(self.geohash_index.view(), key@) == parent_cell);
                        assert(found@.to_set().contains(x));
                        assert(found@.contains(x));
                    } else {
                        assert(before.contains(x));
                    }
                }
            }
        }
        if candidates.len() < k {
            let r = self.get_knn_naive(target, k, distances);
            proof {
                let c = all_but(n as nat, target);
                lemma_all_but_ok(n as nat, target);
                assert forall|x: usize| #[trigger] parent_cell.contains(x) && x != target
                    implies c.contains(x) by {
                    assert(parent_cell.contains(x));
                    let kk = choose|kk: Seq<char>| self.geohash_index.view().contains_key(kk)
                        && has_prefix(kk, gh.drop_last()) && self.geohash_index.view()[kk] == x;
                    lemma_all_but_contains(n as nat, target, x);
                }
            }
            return r;
        }
        proof {
            assert(is_geohash(key@)) by {
                assert forall|q: int| 0 <= q < key@.len() implies is_base32(#[trigger] key@[q]) by {
                    assert(key@[q] == gh[q]);
                }
            }
        }
        let cells = get_surrounding_cells(key.as_str());
        let mut c: usize = 0;
        while c < cells.len()
            invariant
                self.wf(),
                n == self.len(),
                target < n,
                cells@.len() == 8,
                visited_ok(visited@, candidates@, n as nat, target),
                candidates@.len() >= k,
                k > 0 ==> forall|x: usize| #[trigger] parent_cell.contains(x) && x != target
                    ==> candidates@.contains(x),
            decreases cells@.len() - c,
        {
            let found = self.geohash_index.get_all_with_prefix(cells[c].as_str());
            add_unvisited(&found, &mut visited, &mut candidates, n, target);
            c = c + 1;
        }
        let r = select_nearest(&candidates, k, distances);
        assert(candidates_ok(candidates@, n as nat, target));
        Ok(r)
    }
}

/// The full-scan search returns at most `k` connections, none to the query
/// waypoint itself and all inside the dataset, each target once, ordered by
/// distance: strictly ascending when no two other waypoints are equally far.
pub proof fn lemma_knn_naive_shape(r: Seq<Connection>, n: nat, w: usize, k: nat, dist: Seq<u64>)
    requires
        w < n,
        n <= usize::MAX,
        nearest_among(r, all_but(n, w), k, dist),
    ensures
        r.len() <= k,
        r.len() == min_nat(k, (n - 1) as nat),
        sorted_by_distance(r),
        targets(r).no_duplicates(),
        forall|i: int| 0 <= i < r.len() ==> (#[trigger] r[i]).waypoint_index != w
            && r[i].waypoint_index < n,
        (forall|a: int, b: int| 0 <= a < n && 0 <= b < n && a != b && a != w && b != w
            ==> dist[a] != dist[b])
            ==> forall|i: int, j: int| 0 <= i < j < r.len() ==> r[i].distance < r[j].distance,
{
    assert forall|i: int| 0 <= i < r.len() implies (#[trigger] r[i]).waypoint_index != w
        && r[i].waypoint_index < n by {
        let c = r[i].waypoint_index;
        assert(all_but(n, w).contains(c));
    }
    if forall|a: int, b: int| 0 <= a < n && 0 <= b < n && a != b && a != w && b != w
        ==> dist[a] != dist[b] {
        assert forall|i: int, j: int| 0 <= i < j < r.len()
            implies r[i].distance < r[j].distance by {
            assert(targets(r)[i] != targets(r)[j]);
            assert(r[i].waypoint_index != w && r[j].waypoint_index != w);
        }
    }
}

/// When `k` reaches every other waypoint, the geohash search and the full
/// scan return the same targets: all waypoints but the query one.
pub proof fn lemma_knn_agree_when_k_covers(
    index: Map<Seq<char>, usize>,
    n: nat,
    key: Seq<char>,
    w: usize,
    k: nat,
    dist: Seq<u64>,
    by_geohash: Seq<Connection>,
    by_scan: Seq<Connection>,
)
    requires
        w < n,
        n <= usize::MAX,
        k + 1 >= n,
        knn_geohash_ok(index, n, key, w, k, dist, by_geohash),
        nearest_among(by_scan, all_but(n, w), k, dist),
    ensures
        targets(by_geohash).to_set() == targets(by_scan).to_set(),
        targets(by_scan).to_set() == all_but(n, w).to_set(),
{
    let all = all_but(n, w);
    lemma_all_but_ok(n, w);
    lemma_covering_targets(by_scan, all, n, w, k, dist);
    if by_geohash.len() == k {
        let c = choose|c: Seq<usize>| candidates_ok(c, n, w)
            && nearest_among(by_geohash, c, k, dist) && (k > 0 ==> forall|j: usize|
            #[trigger] indices_with_prefix(index, key.drop_last()).contains(j) && j != w
                ==> c.contains(j));
        lemma_candidates_bound(c, n, w);
        lemma_covering_targets(by_geohash, c, n, w, k, dist);
        lemma_candidates_bound(targets(by_geohash), n, w);
        assert(targets(by_geohash).len() == n - 1);
        lemma_full_targets(targets(by_geohash), n, w);
    } else {
        lemma_covering_targets(by_geohash, all, n, w, k, dist);
    }
}

/// A list of distinct indices below `n` other than `w` has at most `n - 1`
/// entries.
proof fn lemma_candidates_bound(c: Seq<usize>, n: nat, w: usize)
    requires
        w < n,
        n <= usize::MAX,
        candidates_ok(c, n, w),
    ensures
        c.len() <= n - 1,
        c.to_set().subset_of(all_but(n, w).to_set()),
        all_but(n, w).to_set().len() == n - 1,
{
    let all = all_but(n, w);
    lemma_all_but_ok(n, w);
    all.unique_seq_to_set();
    c.unique_seq_to_set();
    assert forall|x: usize| c.to_set().contains(x) implies all.to_set().contains(x) by {
        let q = choose|q: int| 0 <= q < c.len() && c[q] == x;
        assert(c[q] < n && c[q] != w);
        lemma_all_but_contains(n, w, x);
    }
    vstd::set_lib::lemma_len_subset(c.to_set(), all.to_set());
}

/// Distinct indices below `n` other than `w`, `n - 1` of them, are all of them.
proof fn lemma_full_targets(t: Seq<usize>, n: nat, w: usize)
    requires
        w < n,
        n <= usize::MAX,
        candidates_ok(t, n, w),
        t.len() == n - 1,
    ensures
        t.to_set() == all_but(n, w).to_set(),
{
    lemma_candidates_bound(t, n, w);
    t.unique_seq_to_set();
    vstd::set_lib::lemma_subset_equality(t.to_set(), all_but(n, w).to_set());
}

/// The targets of a top-`k` list are distinct candidates.
proof fn lemma_covering_targets(r: Seq<Connection>, c: Seq<usize>, n: nat, w: usize, k: nat,
    dist: Seq<u64>)
    requires
        w < n,
        n <= usize::MAX,
        k + 1 >= n,
        candidates_ok(c, n, w),
        nearest_among(r, c, k, dist),
    ensures
        candidates_ok(targets(r), n, w),
        c.len() == n - 1 ==> targets(r).to_set() == all_but(n, w).to_set(),
{
    let t = targets(r);
    assert forall|i: int| 0 <= i < t.len() implies #[trigger] t[i] < n && t[i] != w by {
        assert(c.contains(r[i].waypoint_index));
        let q = choose|q: int| 0 <= q < c.len() && c[q] == r[i].waypoint_index;
        assert(c[q] < n && c[q] != w);
    }
    if c.len() == n - 1 {
        lemma_candidates_bound(c, n, w);
        assert(r.len() == n - 1);
        lemma_full_targets(t, n, w);
    }
}

} // verus!
