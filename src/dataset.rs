//! The waypoint dataset: the waypoint array, the geohash index over it, and
//! the connection graph stored on the waypoints.
//!
//! Coordinates are fixed-point (10^-7 degree) and distances are whole
//! metres. Great-circle distances are computed by the caller and handed in,
//! one table per query point.
use vstd::prelude::*;

use crate::geohash::{
    encode, geohash_of, valid_coordinate, GeoError, LAT_SPAN, LON_SPAN, MAX_LAT, MAX_LON,
};
use crate::knn::{all_but, candidates_ok, knn_geohash_ok, nearest_among, targets};
use crate::label::label_of;
use crate::pseudo_random::{xorshift, xorshift_n, XorShiftRng};
use crate::trie::{indices_with_prefix, Trie};

verus! {

/// A directed edge of the routing graph: the target waypoint and its distance.
#[derive(Clone, Copy, Debug)]
pub struct Connection {
    /// Distance to the target, in metres.
    pub distance: u64,
    /// Index of the target in the dataset's waypoint array.
    pub waypoint_index: usize,
}

/// Number of characters in a waypoint's geohash.
pub const GEOHASH_PRECISION: usize = 8;

/// A point of the dataset.
#[derive(Debug)]
pub struct Waypoint {
    /// Latitude, in units of 10^-7 degree.
    pub lat: i64,
    /// Longitude, in units of 10^-7 degree.
    pub lon: i64,
    /// Display name, unique within a dataset.
    pub label: String,
    /// The geohash of the coordinates at `GEOHASH_PRECISION` characters.
    pub geohash: String,
    /// Outgoing edges of the routing graph.
    pub connections: Vec<Connection>,
}

/// The waypoint array together with the geohash index over it.
pub struct Dataset {
    pub waypoints: Vec<Waypoint>,
    pub geohash_index: Trie,
}

/// Coordinates in range, a geohash that matches them, and edges that stay
/// inside a dataset of `n` waypoints.
pub open spec fn waypoint_wf(w: Waypoint, n: nat) -> bool {
    &&& valid_coordinate(w.lat as int, w.lon as int)
    &&& w.geohash@ == geohash_of(w.lat as int, w.lon as int, GEOHASH_PRECISION as nat)
    &&& forall|c: int| 0 <= c < w.connections@.len()
        ==> (#[trigger] w.connections@[c]).waypoint_index < n
}

/// The edge from `u` to `v` of the routing graph, if `u` has one.
pub open spec fn has_edge(ds: Seq<Waypoint>, u: usize, v: usize) -> bool {
    0 <= u < ds.len() && exists|c: int|
        0 <= c < ds[u as int].connections@.len()
            && (#[trigger] ds[u as int].connections@[c]).waypoint_index == v
}

impl Dataset {
    pub open spec fn len(&self) -> nat {
        self.waypoints@.len()
    }

    /// Every waypoint is well formed, and the index maps each key it holds to
    /// a waypoint with that geohash.
    pub open spec fn wf(&self) -> bool {
        &&& self.geohash_index.wf()
        &&& forall|i: int| 0 <= i < self.waypoints@.len()
            ==> waypoint_wf(#[trigger] self.waypoints@[i], self.len())
        &&& forall|k: Seq<char>|
            #[trigger] self.geohash_index.view().contains_key(k) ==> self.geohash_index.view()[k]
                < self.len() && self.waypoints@[self.geohash_index.view()[k] as int].geohash@ == k
    }

    /// An empty dataset.
    pub fn new() -> (r: Self)
        ensures
            r.wf(),
            r.len() == 0,
            r.geohash_index.view() == Map::<Seq<char>, usize>::empty(),
    {
        Dataset { waypoints: Vec::new(), geohash_index: Trie::new() }
    }
}

/// `after` is `before` with only its connections extended by `extra`.
pub open spec fn extended_by(before: Waypoint, after: Waypoint, extra: Seq<Connection>) -> bool {
    &&& after.lat == before.lat
    &&& after.lon == before.lon
    &&& after.label@ == before.label@
    &&& after.geohash@ == before.geohash@
    &&& after.connections@ == before.connections@ + extra
}

/// The connections of `after` beyond those of `before`.
pub open spec fn added(before: Waypoint, after: Waypoint) -> Seq<Connection> {
    after.connections@.skip(before.connections@.len() as int)
}

impl Dataset {
    /// Appends `connections` to the edges of waypoint `i`.
    fn extend_connections(&mut self, i: usize, connections: &Vec<Connection>)
        requires
            old(self).wf(),
            i < old(self).len(),
            forall|c: int| 0 <= c < connections@.len()
                ==> (#[trigger] connections@[c]).waypoint_index < old(self).len(),
        ensures
            final(self).wf(),
            final(self).len() == old(self).len(),
            final(self).geohash_index == old(self).geohash_index,
            extended_by(old(self).waypoints@[i as int], final(self).waypoints@[i as int],
                connections@),
            forall|j: int| 0 <= j < final(self).len() && j != i
                ==> final(self).waypoints@[j] == old(self).waypoints@[j],
    {
        let mut c: usize = 0;
        while c < connections.len()
            invariant
                self.wf(),
                i < self.len(),
                self.len() == old(self).len(),
                self.geohash_index == old(self).geohash_index,
                c <= connections@.len(),
                forall|q: int| 0 <= q < connections@.len()
                    ==> (#[trigger] connections@[q]).waypoint_index < old(self).len(),
                extended_by(old(self).waypoints@[i as int], self.waypoints@[i as int],
                    connections@.take(c as int)),
                forall|j: int| 0 <= j < self.len() && j != i
                    ==> self.waypoints@[j] == old(self).waypoints@[j],
            decreases connections@.len() - c,
        {
            let ghost before = self.waypoints@;
            self.waypoints[i].connections.push(connections[c]);
            proof {
                assert(connections@.take(c + 1) =~= connections@.take(c as int).push(connections@[c
                    as int]));
                assert forall|j: int| 0 <= j < self.waypoints@.len()
                    implies waypoint_wf(#[trigger] self.waypoints@[j], self.len()) by {
                    if j != i {
                        assert(self.waypoints@[j] == before[j]);
                    } else {
                        assert(waypoint_wf(before[j], self.len()));
                        let w = self.waypoints@[j];
                        assert forall|q: int| 0 <= q < w.connections@.len()
                            implies (#[trigger] w.connections@[q]).waypoint_index < self.len() by {
                            if q < before[j].connections@.len() {
                                assert(w.connections@[q] == before[j].connections@[q]);
                            }
                        }
                    }
                }
            }
            c = c + 1;
        }
        assert(connections@.take(c as int) =~= connections@);
    }

    /// Gives every waypoint, in index order, edges to its `amt` nearest
    /// neighbours found by the geohash search. `distances[i]` holds waypoint
    /// `i`'s distance to each waypoint. Edges are directed: a waypoint need
    /// not be among its neighbours' neighbours.
    pub fn assign_all_connections_geohash(&mut self, amt: usize, distances: &Vec<Vec<u64>>)
        requires
            old(self).wf(),
            distances@.len() == old(self).len(),
            forall|i: int| 0 <= i < distances@.len()
                ==> (#[trigger] distances@[i])@.len() == old(self).len(),
        ensures
            final(self).wf(),
            final(self).len() == old(self).len(),
            final(self).geohash_index == old(self).geohash_index,
            forall|i: int|
                0 <= i < old(self).len() ==> extended_by(
                    old(self).waypoints@[i], #[trigger] final(self).waypoints@[i],
                        added(old(self).waypoints@[i], final(self).waypoints@[i]))
                        && knn_geohash_ok(
                        old(self).geohash_index.view(),
                        old(self).len(),
                        old(self).waypoints@[i].geohash@,
                        i as usize,
                        amt as nat,
                        distances@[i]@,
                        added(old(self).waypoints@[i], final(self).waypoints@[i]),
                    ),
    {
        let n = self.waypoints.len();
        let mut i: usize = 0;
        while i < n
            invariant
                self.wf(),
                n == self.len(),
                n == old(self).len(),
                i <= n,
                self.geohash_index == old(self).geohash_index,
                distances@.len() == n,
                forall|q: int| 0 <= q < distances@.len() ==> (#[trigger] distances@[q])@.len() == n,
                forall|j: int| i <= j < n ==> self.waypoints@[j] == old(self).waypoints@[j],
                forall|j: int|
                    0 <= j < i ==> extended_by(
                        old(self).waypoints@[j], #[trigger] self.waypoints@[j],
                            added(old(self).waypoints@[j], self.waypoints@[j])) && knn_geohash_ok(
                            old(self).geohash_index.view(),
                            n as nat,
                            old(self).waypoints@[j].geohash@,
                            j as usize,
                            amt as nat,
                            distances@[j]@,
                            added(old(self).waypoints@[j], self.waypoints@[j]),
                        ),
            decreases n - i,
        {
            let found = self.get_knn_geohash(i, amt, &distances[i]);
            let connections = match found {
                Ok(c) => c,
                Err(_) => Vec::new(),
            };
            proof {
                let r = connections@;
                let c = choose|c: Seq<usize>| candidates_ok(c, n as nat, i)
                    && nearest_among(r, c, amt as nat, distances@[i as int]@) && (amt > 0
                    ==> forall|j: usize|
                    #[trigger] indices_with_prefix(self.geohash_index.view(),
                        self.waypoints@[i as int].geohash@.drop_last()).contains(j) && j != i
                        ==> c.contains(j));
                assert forall|q: int| 0 <= q < r.len()
                    implies (#[trigger] r[q]).waypoint_index < n by {
                    assert(c.contains(r[q].waypoint_index));
                }
            }
            let ghost before = self.waypoints@;
            self.extend_connections(i, &connections);
            proof {
                assert forall|j: int| 0 <= j < i + 1 implies extended_by(
                    old(self).waypoints@[j], #[trigger] self.waypoints@[j],
                        added(old(self).waypoints@[j], self.waypoints@[j])) && knn_geohash_ok(
                        old(self).geohash_index.view(),
                        n as nat,
                        old(self).waypoints@[j].geohash@,
                        j as usize,
                        amt as nat,
                        distances@[j]@,
                        added(old(self).waypoints@[j], self.waypoints@[j]),
                    ) by {
                    if j < i {
                        assert(self.waypoints@[j] == before[j]);
                    } else {
                        assert(extended_by(old(self).waypoints@[j], self.waypoints@[j],
                            connections@));
                        assert(added(old(self).waypoints@[j], self.waypoints@[j]) =~= connections@);
                    }
                }
            }
            i = i + 1;
        }
    }

    /// Gives every waypoint, in index order, edges to its `amt` nearest
    /// neighbours found by a scan of the whole dataset. `distances[i]` holds
    /// waypoint `i`'s distance to each waypoint.
    pub fn assign_all_connections_naive(&mut self, amt: usize, distances: &Vec<Vec<u64>>)
        requires
            old(self).wf(),
            distances@.len() == old(self).len(),
            forall|i: int| 0 <= i < distances@.len()
                ==> (#[trigger] distances@[i])@.len() == old(self).len(),
        ensures
            final(self).wf(),
            final(self).len() == old(self).len(),
            final(self).geohash_index == old(self).geohash_index,
            forall|i: int|
                0 <= i < old(self).len() ==> extended_by(
                    old(self).waypoints@[i], #[trigger] final(self).waypoints@[i],
                        added(old(self).waypoints@[i], final(self).waypoints@[i])) && nearest_among(
                        added(old(self).waypoints@[i], final(self).waypoints@[i]),
                        all_but(old(self).len(), i as usize),
                        amt as nat,
                        distances@[i]@,
                    ),
    {
        let n = self.waypoints.len();
        let mut i: usize = 0;
        while i < n
            invariant
                self.wf(),
                n == self.len(),
                n == old(self).len(),
                i <= n,
                self.geohash_index == old(self).geohash_index,
                distances@.len() == n,
                forall|q: int| 0 <= q < distances@.len() ==> (#[trigger] distances@[q])@.len() == n,
                forall|j: int| i <= j < n ==> self.waypoints@[j] == old(self).waypoints@[j],
                forall|j: int|
                    0 <= j < i ==> extended_by(
                        old(self).waypoints@[j], #[trigger] self.waypoints@[j],
                            added(old(self).waypoints@[j], self.waypoints@[j])) && nearest_among(
                            added(old(self).waypoints@[j], self.waypoints@[j]),
                            all_but(n as nat, j as usize),
                            amt as nat,
                            distances@[j]@,
                        ),
            decreases n - i,
        {
            let found = self.get_knn_naive(i, amt, &distances[i]);
            let connections = match found {
                Ok(c) => c,
                Err(_) => Vec::new(),
            };
            proof {
                let r = connections@;
                assert forall|q: int| 0 <= q < r.len()
                    implies (#[trigger] r[q]).waypoint_index < n by {
                    assert(all_but(n as nat, i).contains(r[q].waypoint_index));
                }
            }
            let ghost before = self.waypoints@;
            self.extend_connections(i, &connections);
            proof {
                assert forall|j: int| 0 <= j < i + 1 implies extended_by(
                    old(self).waypoints@[j], #[trigger] self.waypoints@[j],
                        added(old(self).waypoints@[j], self.waypoints@[j])) && nearest_among(
                        added(old(self).waypoints@[j], self.waypoints@[j]),
                        all_but(n as nat, j as usize),
                        amt as nat,
                        distances@[j]@,
                    ) by {
                    if j < i {
                        assert(self.waypoints@[j] == before[j]);
                    } else {
                        assert(extended_by(old(self).waypoints@[j], self.waypoints@[j],
                            connections@));
                        assert(added(old(self).waypoints@[j], self.waypoints@[j]) =~= connections@);
                    }
                }
            }
            i = i + 1;
        }
    }
}

impl Dataset {
    /// Appends a waypoint with no connections at the given coordinates and
    /// indexes it under its geohash.
    fn push_waypoint(&mut self, lat: i64, lon: i64, label: String) -> (index: usize)
        requires
            old(self).wf(),
            valid_coordinate(lat as int, lon as int),
            old(self).len() < usize::MAX,
        ensures
            final(self).wf(),
            index == old(self).len(),
            final(self).len() == old(self).len() + 1,
            final(self).waypoints@.take(index as int) == old(self).waypoints@,
            final(self).waypoints@[index as int].lat == lat,
            final(self).waypoints@[index as int].lon == lon,
            final(self).waypoints@[index as int].label@ == label@,
            final(self).waypoints@[index as int].geohash@ == geohash_of(lat as int, lon as int,
                GEOHASH_PRECISION as nat),
            final(self).waypoints@[index as int].connections@.len() == 0,
            final(self).geohash_index.view() == old(self).geohash_index.view().insert(
                geohash_of(lat as int, lon as int, GEOHASH_PRECISION as nat),
                index,
            ),
    {
        let geohash = match encode(lat, lon, GEOHASH_PRECISION) {
            Ok(g) => g,
            Err(_) => String::new(),
        };
        let index = self.waypoints.len();
        self.geohash_index.insert(geohash.as_str(), index);
        let waypoint = Waypoint { lat, lon, label, geohash, connections: Vec::new() };
        let ghost before = self.waypoints@;
        self.waypoints.push(waypoint);
        proof {
            assert(self.waypoints@.take(index as int) =~= before);
            assert forall|j: int| 0 <= j < self.waypoints@.len()
                implies waypoint_wf(#[trigger] self.waypoints@[j], self.len()) by {
                if j < index {
                    assert(self.waypoints@[j] == before[j]);
                    assert(waypoint_wf(before[j], before.len()));
                    let w = before[j];
                    assert forall|q: int| 0 <= q < w.connections@.len()
                        implies (#[trigger] w.connections@[q]).waypoint_index < self.len() by {
                    }
                }
            }
            assert forall|k: Seq<char>| #[trigger] self.geohash_index.view().contains_key(k)
                implies self.geohash_index.view()[k]
                < self.len()
                    && self.waypoints@[self.geohash_index.view()[k] as int].geohash@ == k by {
                if k != geohash@ {
                    assert(old(self).geohash_index.view().contains_key(k));
                    assert(self.waypoints@[self.geohash_index.view()[k] as int] ==
                        before[self.geohash_index.view()[k] as int]);
                }
            }
        }
        index
    }

    /// Adds a waypoint at the given coordinates (units of 10^-7 degree) and
    /// returns its index. If the dataset already has connections (waypoint 0
    /// has `k > 0` of them), the new waypoint is wired both ways to its `k`
    /// nearest neighbours by the geohash search: it gets an edge to each, and
    /// each gets an edge back at the same distance. `distances` holds the new
    /// waypoint's distance to each waypoint, itself last.
    pub fn add_new_waypoint(&mut self, lat: i64, lon: i64,
        distances: &Vec<u64>) -> (r: Result<usize, GeoError>)
        requires
            old(self).wf(),
            old(self).len() < usize::MAX,
            distances@.len() == old(self).len() + 1,
        ensures
            final(self).wf(),
            !valid_coordinate(lat as int, lon as int)
                ==> r == Err::<usize, GeoError>(GeoError::InvalidCoordinate)
                && *final(self) == *old(self),
            valid_coordinate(lat as int, lon as int)
                ==> r == Ok::<usize, GeoError>(old(self).len() as usize) && ({
                let idx = old(self).len() as int;
                let gh = geohash_of(lat as int, lon as int, GEOHASH_PRECISION as nat);
                let k: nat = if old(self).len() > 0 { old(self).waypoints@[0].connections@.len() }
                    else { 0 };
                let new_edges = final(self).waypoints@[idx].connections@;
                &&& final(self).len() == idx + 1
                &&& final(self).waypoints@[idx].lat == lat
                &&& final(self).waypoints@[idx].lon == lon
                &&& final(self).waypoints@[idx].label@ == label_of(idx as nat, (idx + 1) as nat)
                &&& final(self).waypoints@[idx].geohash@ == gh
                &&& final(self).geohash_index.view() == old(self).geohash_index.view().insert(gh,
                    idx as usize)
                &&& (k == 0 ==> new_edges.len() == 0)
                &&& (k > 0 ==> knn_geohash_ok(
                    final(self).geohash_index.view(),
                    (idx + 1) as nat,
                    gh,
                    idx as usize,
                    k,
                    distances@,
                    new_edges,
                ))
                &&& forall|i: int| 0 <= i < idx ==> extended_by(
                    old(self).waypoints@[i],
                    #[trigger] final(self).waypoints@[i],
                    if targets(new_edges).contains(i as usize) {
                        seq![Connection { distance: distances@[i], waypoint_index: idx as usize }]
                    } else {
                        Seq::empty()
                    },
                )
            }),
    {
        if lat < -MAX_LAT || lat > MAX_LAT || lon < -MAX_LON || lon > MAX_LON {
            return Err(GeoError::InvalidCoordinate);
        }
        let index = self.waypoints.len();
        let label = Waypoint::generate_label(index, index + 1);
        self.push_waypoint(lat, lon, label);
        let ghost pushed = *self;
        let k = self.waypoints[0].connections.len();
        if k > 0 {
            assert(index > 0);
            let found = self.get_knn_geohash(index, k, distances);
            let new_edges = match found {
                Ok(c) => c,
                Err(_) => Vec::new(),
            };
            let ghost c = choose|c: Seq<usize>| candidates_ok(c, (index + 1) as nat, index)
                && nearest_among(new_edges@, c, k as nat, distances@) && (k > 0 ==> forall|j: usize|
                #[trigger] indices_with_prefix(self.geohash_index.view(),
                    self.waypoints@[index as int].geohash@.drop_last()).contains(j) && j != index
                    ==> c.contains(j));
            proof {
                assert forall|q: int| 0 <= q < new_edges@.len()
                    implies (#[trigger] new_edges@[q]).waypoint_index < index
                    && new_edges@[q].distance == distances@[new_edges@[q].waypoint_index as int] by
                    {
                    assert(c.contains(new_edges@[q].waypoint_index));
                }
                assert(forall|q: int| 0 <= q < new_edges@.len()
                    ==> targets(new_edges@)[q] == new_edges@[q].waypoint_index);
            }
            let mut e: usize = 0;
            while e < new_edges.len()
                invariant
                    self.wf(),
                    self.len() == index + 1,
                    pushed.len() == index + 1,
                    distances@.len() == index + 1,
                    e <= new_edges@.len(),
                    self.geohash_index == pushed.geohash_index,
                    self.waypoints@[index as int] == pushed.waypoints@[index as int],
                    targets(new_edges@).no_duplicates(),
                    forall|q: int| 0 <= q < new_edges@.len()
                        ==> (#[trigger] new_edges@[q]).waypoint_index < index
                        && new_edges@[q].distance == distances@[new_edges@[q].waypoint_index as
                        int],
                    forall|q: int| 0 <= q < new_edges@.len()
                        ==> targets(new_edges@)[q] == new_edges@[q].waypoint_index,
                    forall|i: int| 0 <= i < index ==> extended_by(
                        pushed.waypoints@[i],
                        #[trigger] self.waypoints@[i],
                        if targets(new_edges@.take(e as int)).contains(i as usize) {
                            seq![Connection { distance: distances@[i], waypoint_index: index }]
                        } else {
                            Seq::empty()
                        },
                    ),
                decreases new_edges@.len() - e,
            {
                let target = new_edges[e].waypoint_index;
                let mut back: Vec<Connection> = Vec::new();
                back.push(Connection { distance: new_edges[e].distance, waypoint_index: index });
                let ghost before = *self;
                self.extend_connections(target, &back);
                proof {
                    let t2 = targets(new_edges@.take(e + 1));
                    let t1 = targets(new_edges@.take(e as int));
                    assert(t2 =~= t1.push(target));
                    assert(!t1.contains(target)) by {
                        if t1.contains(target) {
                            let q = choose|q: int| 0 <= q < t1.len() && t1[q] == target;
                            assert(targets(new_edges@)[q] == targets(new_edges@)[e as int]);
                        }
                    }
                    assert forall|i: int| 0 <= i < index implies extended_by(
                        pushed.waypoints@[i],
                        #[trigger] self.waypoints@[i],
                        if t2.contains(i as usize) {
                            seq![Connection { distance: distances@[i], waypoint_index: index }]
                        } else {
                            Seq::empty()
                        },
                    ) by {
                        if i == target {
                            assert(before.waypoints@[i].connections@ ==
                                pushed.waypoints@[i].connections@ + Seq::<Connection>::empty());
                            assert(pushed.waypoints@[i].connections@ + Seq::<Connection>::empty()
                                =~= pushed.waypoints@[i].connections@);
                            assert(t2.contains(i as usize)) by { assert(t2[e as int] == target); }
                            assert(back@ =~= seq![Connection { distance: distances@[i],
                                waypoint_index: index }]);
                        } else {
                            assert(self.waypoints@[i] == before.waypoints@[i]);
                            if t2.contains(i as usize) {
                                let q = choose|q: int| 0 <= q < t2.len() && t2[q] == i as usize;
                                assert(q < t1.len());
                                assert(t1[q] == i as usize);
                            }
                            if t1.contains(i as usize) {
                                let q = choose|q: int| 0 <= q < t1.len() && t1[q] == i as usize;
                                assert(t2[q] == i as usize);
                            }
                        }
                    }
                }
                e = e + 1;
            }
            assert(new_edges@.take(e as int) =~= new_edges@);
            self.extend_connections(index, &new_edges);
            proof {
                assert(pushed.waypoints@[index as int].connections@ + new_edges@ =~= new_edges@);
            }
        }
        proof {
            assert forall|i: int| 0 <= i < index
                implies #[trigger] self.waypoints@[i].lat == old(self).waypoints@[i].lat by {
                assert(pushed.waypoints@.take(index as int)[i] == pushed.waypoints@[i]);
            }
            assert(forall|i: int| 0 <= i < index
                ==> pushed.waypoints@[i] == old(self).waypoints@[i]) by {
                assert forall|i: int| 0 <= i < index
                    implies pushed.waypoints@[i] == old(self).waypoints@[i] by {
                    assert(pushed.waypoints@.take(index as int)[i] == pushed.waypoints@[i]);
                }
            }
            if k == 0 {
                assert forall|i: int| 0 <= i < index implies extended_by(
                    old(self).waypoints@[i],
                    #[trigger] self.waypoints@[i],
                    Seq::empty(),
                ) by {
                    assert(self.waypoints@[i].connections@ =~= old(self).waypoints@[i].connections@
                        + Seq::<Connection>::empty());
                }
            }
        }
        Ok(index)
    }

    /// Appends `amt` waypoints at coordinates drawn from `rng`, labelled by
    /// position among all the dataset's waypoints, with no connections. Each
    /// waypoint takes two draws, latitude first, each reduced into its range.
    pub fn generate_waypoints(&mut self, amt: usize, rng: &mut XorShiftRng)
        requires
            old(self).wf(),
            old(self).len() + amt < usize::MAX,
        ensures
            final(self).wf(),
            final(self).len() == old(self).len() + amt,
            final(self).waypoints@.take(old(self).len() as int) == old(self).waypoints@,
            forall|i: int|
                old(self).len() <= i < final(self).len()
                    ==> (#[trigger] final(self).waypoints@[i]).label@
                    == label_of(i as nat, final(self).len())
                        && final(self).waypoints@[i].connections@.len() == 0
                    && final(self).geohash_index.view().contains_key(final(self).waypoints@[i].geohash@),
            forall|k: Seq<char>| #[trigger] old(self).geohash_index.view().contains_key(k)
                ==> final(self).geohash_index.view().contains_key(k),
            final(rng).state() == xorshift_n(old(rng).state(), 2 * amt as nat),
            forall|i: int|
                0 <= i < amt ==> (#[trigger] final(self).waypoints@[old(self).len() + i]).lat
                    == xorshift_n(old(rng).state(),
                        (2 * i + 1) as nat) as int % (LAT_SPAN as int + 1) - MAX_LAT as int
                    && final(self).waypoints@[old(self).len() + i].lon == xorshift_n(
                    old(rng).state(),
                    (2 * i + 2) as nat,
                ) as int % (LON_SPAN as int + 1) - MAX_LON as int,
    {
        let start = self.waypoints.len();
        let total = start + amt;
        let mut i: usize = 0;
        while i < amt
            invariant
                self.wf(),
                i <= amt,
                total == start + amt,
                start == old(self).len(),
                total < usize::MAX,
                self.len() == start + i,
                self.waypoints@.take(start as int) == old(self).waypoints@,
                forall|j: int|
                    start <= j < self.len()
                        ==> (#[trigger] self.waypoints@[j]).label@ == label_of(j as nat,
                        total as nat)
                        && self.waypoints@[j].connections@.len() == 0
                        && self.geohash_index.view().contains_key(self.waypoints@[j].geohash@),
                forall|k: Seq<char>| #[trigger] old(self).geohash_index.view().contains_key(k)
                    ==> self.geohash_index.view().contains_key(k),
                rng.state() == xorshift_n(old(rng).state(), 2 * i as nat),
                forall|q: int|
                    0 <= q < i ==> (#[trigger] self.waypoints@[start + q]).lat == xorshift_n(
                        old(rng).state(),
                        (2 * q + 1) as nat,
                    ) as int % (LAT_SPAN as int + 1) - MAX_LAT as int
                        && self.waypoints@[start + q].lon == xorshift_n(
                        old(rng).state(),
                        (2 * q + 2) as nat,
                    ) as int % (LON_SPAN as int + 1) - MAX_LON as int,
            decreases amt - i,
        {
            let lat = (rng.next_u32() % (LAT_SPAN + 1)) as i64 - MAX_LAT;
            let lon = (rng.next_u32() % (LON_SPAN + 1)) as i64 - MAX_LON;
            assert(xorshift_n(old(rng).state(), (2 * i + 2) as nat) == xorshift(
                xorshift_n(old(rng).state(), (2 * i + 1) as nat),
            ));
            let label = Waypoint::generate_label(start + i, total);
            let ghost before = *self;
            self.push_waypoint(lat, lon, label);
            proof {
                assert(self.waypoints@.take(start as int) =~= before.waypoints@.take(start as int));
                assert forall|j: int| start <= j < self.len()
                    implies (#[trigger] self.waypoints@[j]).label@ == label_of(j as nat,
                    total as nat)
                    && self.waypoints@[j].connections@.len() == 0
                    && self.geohash_index.view().contains_key(self.waypoints@[j].geohash@) by {
                    if j < start + i {
                        assert(self.waypoints@.take((start + i) as int)[j] == self.waypoints@[j]);
                    }
                }
                assert forall|q: int| 0 <= q < i + 1
                    implies (#[trigger] self.waypoints@[start + q]).lat
                    == xorshift_n(old(rng).state(),
                        (2 * q + 1) as nat) as int % (LAT_SPAN as int + 1) - MAX_LAT as int
                    && self.waypoints@[start + q].lon == xorshift_n(old(rng).state(),
                        (2 * q + 2) as nat)
                    as int % (LON_SPAN as int + 1) - MAX_LON as int by {
                    if q < i {
                        assert(self.waypoints@.take((start + i) as int)[start + q]
                            == self.waypoints@[start + q]);
                    }
                }
            }
            i = i + 1;
        }
    }
}

impl Dataset {
    /// The index of the first waypoint labelled `label`, if any.
    pub fn get_waypoint_index(&self, label: &str) -> (r: Option<usize>)
        ensures
            match r {
                Some(i) => i < self.len() && self.waypoints@[i as int].label@ == label@
                    && forall|j: int|
                    0 <= j < i ==> (#[trigger] self.waypoints@[j]).label@ != label@,
                None => forall|j: int| 0 <= j < self.len()
                    ==> (#[trigger] self.waypoints@[j]).label@ != label@,
            },
    {
        let wanted = String::from_str(label);
        let mut i: usize = 0;
        while i < self.waypoints.len()
            invariant
                i <= self.len(),
                wanted@ == label@,
                forall|j: int| 0 <= j < i ==> (#[trigger] self.waypoints@[j]).label@ != label@,
            decreases self.len() - i,
        {
            if self.waypoints[i].label == wanted {
                return Some(i);
            }
            i = i + 1;
        }
        None
    }

    /// The indices of the indexed waypoints whose geohash starts with
    /// `prefix`, in no particular order.
    pub fn search_geohash(&self, prefix: &str) -> (r: Vec<usize>)
        requires
            self.wf(),
        ensures
            r@.to_set() == indices_with_prefix(self.geohash_index.view(), prefix@),
    {
        self.geohash_index.get_all_with_prefix(prefix)
    }
}

} // verus!
