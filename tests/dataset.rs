use std::collections::HashSet;

use zpath::select_nearest;
use zpath::{Connection, Dataset, GeoError, Trie, Waypoint, XorShiftRng};

fn haversine_m(a: (i64, i64), b: (i64, i64)) -> u64 {
    let r = 6378.137_f64;
    let (la1, lo1) = ((a.0 as f64 / 1e7).to_radians(), (a.1 as f64 / 1e7).to_radians());
    let (la2, lo2) = ((b.0 as f64 / 1e7).to_radians(), (b.1 as f64 / 1e7).to_radians());
    let h = ((la2 - la1) / 2.0).sin().powi(2)
        + ((lo2 - lo1) / 2.0).sin().powi(2) * la1.cos() * la2.cos();
    (r * 2.0 * h.sqrt().asin() * 1000.0) as u64
}

fn coords(ds: &Dataset) -> Vec<(i64, i64)> {
    ds.waypoints.iter().map(|w| (w.lat, w.lon)).collect()
}

fn row(ds: &Dataset, from: usize) -> Vec<u64> {
    let c = coords(ds);
    c.iter().map(|&p| haversine_m(c[from], p)).collect()
}

fn add(ds: &mut Dataset, lat: i64, lon: i64) -> usize {
    let mut c = coords(ds);
    c.push((lat, lon));
    let d: Vec<u64> = c.iter().map(|&p| haversine_m((lat, lon), p)).collect();
    ds.add_new_waypoint(lat, lon, &d).unwrap()
}

fn grid() -> Dataset {
    let mut ds = Dataset::new();
    for i in 0..6i64 {
        for j in 0..6i64 {
            add(&mut ds, 100_000_000 + 130_000 * i + 7_000 * j, 100_000_000 + 110_000 * j + 3_000 * i);
        }
    }
    ds
}

fn target_set(r: &[Connection]) -> HashSet<usize> {
    r.iter().map(|c| c.waypoint_index).collect()
}

fn edge(ds: &mut Dataset, from: usize, to: usize, distance: u64) {
    ds.waypoints[from].connections.push(Connection { distance, waypoint_index: to });
}

#[test]
fn labels_for_ten_are_single_letters() {
    let got: Vec<String> = (0..10).map(|i| Waypoint::generate_label(i, 10)).collect();
    assert_eq!(got, vec!["A", "B", "C", "D", "E", "F", "G", "H", "I", "J"]);
}

#[test]
fn labels_for_thirty_have_two_letters_and_are_unique() {
    let got: Vec<String> = (0..30).map(|i| Waypoint::generate_label(i, 30)).collect();
    assert!(got.iter().all(|l| l.len() == 2));
    let set: HashSet<&String> = got.iter().collect();
    assert_eq!(set.len(), 30);
    assert_eq!(got[0], "AA");
    assert_eq!(got[25], "AZ");
    assert_eq!(got[27], "BB");
}

#[test]
fn label_lengths_grow_with_total() {
    assert_eq!(Waypoint::generate_label(25, 26), "Z");
    assert_eq!(Waypoint::generate_label(675, 676), "ZZ");
    assert_eq!(Waypoint::generate_label(676, 677), "BAA");
}

#[test]
fn trie_prefix_queries() {
    let mut t = Trie::new();
    t.insert("9q8yyk8y", 0);
    t.insert("9q8yyk9n", 1);
    t.insert("u4pruydq", 2);
    let mut a = t.get_all_with_prefix("9q8yyk");
    a.sort();
    assert_eq!(a, vec![0, 1]);
    assert_eq!(t.get_all_with_prefix("u"), vec![2]);
    assert!(t.get_all_with_prefix("zz").is_empty());
    let mut all = t.get_all_with_prefix("");
    all.sort();
    assert_eq!(all, vec![0, 1, 2]);
    t.insert("9q8yyk8y", 7);
    let mut b = t.get_all_with_prefix("9q8yyk8y");
    b.sort();
    assert_eq!(b, vec![7]);
}

#[test]
fn select_nearest_ranks_and_truncates() {
    let d = vec![50, 10, 30, 10, 99];
    let r = select_nearest(&vec![0, 1, 2, 3, 4], 3, &d);
    let got: Vec<(usize, u64)> = r.iter().map(|c| (c.waypoint_index, c.distance)).collect();
    assert_eq!(got, vec![(1, 10), (3, 10), (2, 30)]);
    assert!(select_nearest(&vec![0, 1], 0, &d).is_empty());
    assert_eq!(select_nearest(&vec![4, 0], 5, &d).len(), 2);
}

#[test]
fn knn_naive_is_sorted_and_excludes_query() {
    let ds = grid();
    let d = row(&ds, 14);
    let r = ds.get_knn_naive(14, 5, &d).unwrap();
    assert_eq!(r.len(), 5);
    assert!(r.iter().all(|c| c.waypoint_index != 14));
    assert!(r.windows(2).all(|w| w[0].distance <= w[1].distance));
    assert!(r.iter().all(|c| c.distance == d[c.waypoint_index]));
    let mut others: Vec<u64> = (0..36).filter(|&j| j != 14).map(|j| d[j]).collect();
    others.sort();
    assert_eq!(r.iter().map(|c| c.distance).collect::<Vec<_>>(), others[..5].to_vec());
}

#[test]
fn knn_naive_with_k_beyond_dataset() {
    let ds = grid();
    let d = row(&ds, 0);
    assert_eq!(ds.get_knn_naive(0, 100, &d).unwrap().len(), 35);
}

#[test]
fn knn_geohash_matches_naive_on_grid() {
    let ds = grid();
    for (w, k) in [(0, 2), (0, 4), (7, 3), (14, 2), (14, 4), (21, 3), (28, 4), (35, 2)] {
        let d = row(&ds, w);
        let a = ds.get_knn_geohash(w, k, &d).unwrap();
        let b = ds.get_knn_naive(w, k, &d).unwrap();
        assert_eq!(a.len(), k);
        assert_eq!(target_set(&a), target_set(&b), "query {} k {}", w, k);
    }
}

#[test]
fn knn_geohash_falls_back_when_too_few() {
    let ds = grid();
    let d = row(&ds, 3);
    let a = ds.get_knn_geohash(3, 50, &d).unwrap();
    let b = ds.get_knn_naive(3, 50, &d).unwrap();
    assert_eq!(a.len(), 35);
    assert_eq!(target_set(&a), target_set(&b));
}

#[test]
fn knn_on_single_waypoint_is_empty() {
    let mut ds = Dataset::new();
    add(&mut ds, 0, 0);
    let d = row(&ds, 0);
    assert!(ds.get_knn_geohash(0, 3, &d).unwrap().is_empty());
    assert!(ds.get_knn_naive(0, 3, &d).unwrap().is_empty());
}

#[test]
fn knn_unknown_waypoint() {
    let ds = grid();
    let d = row(&ds, 0);
    assert!(matches!(ds.get_knn_naive(36, 2, &d), Err(GeoError::WaypointNotFound)));
    assert!(matches!(ds.get_knn_geohash(99, 2, &d), Err(GeoError::WaypointNotFound)));
}

#[test]
fn add_waypoint_sets_geohash_label_and_index() {
    let mut ds = Dataset::new();
    let i = add(&mut ds, 377_749_000, -1_224_194_000);
    assert_eq!(i, 0);
    assert_eq!(ds.waypoints[0].geohash, "9q8yyk8y");
    assert_eq!(ds.waypoints[0].label, "A");
    assert_eq!(ds.search_geohash("9q8"), vec![0]);
    assert_eq!(ds.get_waypoint_index("A"), Some(0));
    assert_eq!(ds.get_waypoint_index("B"), None);
}

#[test]
fn add_waypoint_rejects_bad_coordinates() {
    let mut ds = Dataset::new();
    assert!(matches!(ds.add_new_waypoint(950_000_000, 0, &vec![0]), Err(GeoError::InvalidCoordinate)));
    assert!(ds.waypoints.is_empty());
}

#[test]
fn add_waypoint_wires_both_ways() {
    let mut ds = grid();
    let all: Vec<Vec<u64>> = (0..ds.waypoints.len()).map(|i| row(&ds, i)).collect();
    ds.assign_all_connections_naive(3, &all);
    let before: Vec<usize> = ds.waypoints.iter().map(|w| w.connections.len()).collect();
    let idx = add(&mut ds, 100_260_000, 100_220_000);
    assert_eq!(idx, 36);
    let new_edges = ds.waypoints[idx].connections.clone();
    assert_eq!(new_edges.len(), 3);
    for c in &new_edges {
        let back = ds.waypoints[c.waypoint_index].connections.last().unwrap();
        assert_eq!(back.waypoint_index, idx);
        assert_eq!(back.distance, c.distance);
        assert_eq!(ds.waypoints[c.waypoint_index].connections.len(), before[c.waypoint_index] + 1);
    }
}

#[test]
fn add_waypoint_without_connections_stays_unwired() {
    let mut ds = grid();
    let idx = add(&mut ds, 100_260_000, 100_220_000);
    assert!(ds.waypoints[idx].connections.is_empty());
    assert!(ds.waypoints.iter().all(|w| w.connections.is_empty()));
}

#[test]
fn assign_all_connections_both_ways() {
    let mut a = grid();
    let mut b = grid();
    let all: Vec<Vec<u64>> = (0..36).map(|i| row(&a, i)).collect();
    a.assign_all_connections_geohash(2, &all);
    b.assign_all_connections_naive(2, &all);
    for i in 0..36 {
        assert_eq!(a.waypoints[i].connections.len(), 2);
        assert_eq!(b.waypoints[i].connections.len(), 2);
        assert!(b.waypoints[i].connections.iter().all(|c| c.waypoint_index != i));
    }
}

#[test]
fn generate_waypoints_labels_and_index() {
    let mut ds = Dataset::new();
    let mut rng = XorShiftRng::new(7);
    ds.generate_waypoints(30, &mut rng);
    assert_eq!(ds.waypoints.len(), 30);
    let labels: HashSet<&String> = ds.waypoints.iter().map(|w| &w.label).collect();
    assert_eq!(labels.len(), 30);
    assert!(ds.waypoints.iter().all(|w| w.label.len() == 2 && w.geohash.len() == 8));
    assert!(ds.waypoints.iter().all(|w| w.lat.abs() <= 900_000_000 && w.lon.abs() <= 1_800_000_000));
    assert_eq!(ds.search_geohash("").len(), 30);
}

fn small_graph() -> Dataset {
    let mut ds = Dataset::new();
    for k in 0..5i64 {
        add(&mut ds, 10_000 * k, 10_000 * k);
    }
    edge(&mut ds, 0, 1, 5);
    edge(&mut ds, 1, 3, 5);
    edge(&mut ds, 0, 2, 3);
    edge(&mut ds, 2, 3, 10);
    edge(&mut ds, 0, 3, 20);
    ds
}

#[test]
fn route_is_the_cheapest_path() {
    let ds = small_graph();
    let route = ds.get_shortest_route(0, 3, &vec![0; 5]).unwrap().unwrap();
    assert_eq!(route, vec![0, 1, 3]);
    let cost: u64 = route
        .windows(2)
        .map(|w| {
            ds.waypoints[w[0]].connections.iter().filter(|c| c.waypoint_index == w[1]).map(|c| c.distance).min().unwrap()
        })
        .sum();
    assert_eq!(cost, 10);
    let with_estimate = ds.get_shortest_route(0, 3, &vec![10, 5, 10, 0, 0]).unwrap().unwrap();
    assert_eq!(with_estimate, vec![0, 1, 3]);
}

#[test]
fn route_to_itself_is_one_waypoint() {
    let ds = small_graph();
    assert_eq!(ds.get_shortest_route(2, 2, &vec![0; 5]).unwrap(), Some(vec![2]));
}

#[test]
fn route_to_unreachable_goal_is_none() {
    let ds = small_graph();
    assert_eq!(ds.get_shortest_route(0, 4, &vec![0; 5]).unwrap(), None);
    assert_eq!(ds.get_shortest_route(3, 0, &vec![0; 5]).unwrap(), None);
}

#[test]
fn route_with_unknown_waypoint() {
    let ds = small_graph();
    assert!(matches!(ds.get_shortest_route(0, 9, &vec![0; 5]), Err(GeoError::WaypointNotFound)));
}

#[test]
fn route_over_generated_graph_is_connected_walk() {
    let mut ds = grid();
    let all: Vec<Vec<u64>> = (0..36).map(|i| row(&ds, i)).collect();
    ds.assign_all_connections_geohash(4, &all);
    let h = row(&ds, 35);
    if let Some(route) = ds.get_shortest_route(0, 35, &h).unwrap() {
        assert_eq!(route[0], 0);
        assert_eq!(*route.last().unwrap(), 35);
        for w in route.windows(2) {
            assert!(ds.waypoints[w[0]].connections.iter().any(|c| c.waypoint_index == w[1]));
        }
    } else {
        panic!("the grid graph connects its corners");
    }
}

#[test]
fn labels_stay_unique_after_insertions() {
    let mut ds = Dataset::new();
    let mut rng = XorShiftRng::new(11);
    ds.generate_waypoints(26, &mut rng);
    add(&mut ds, 1_000_000, 2_000_000);
    add(&mut ds, 3_000_000, 4_000_000);
    let labels: HashSet<&String> = ds.waypoints.iter().map(|w| &w.label).collect();
    assert_eq!(labels.len(), 28);
    assert_eq!(ds.waypoints[25].label, "Z");
    assert_eq!(ds.waypoints[26].label, "BA");
    assert_eq!(ds.waypoints[27].label, "BB");
}

fn dijkstra(ds: &Dataset, start: usize, goal: usize) -> Option<u64> {
    let n = ds.waypoints.len();
    let mut best: Vec<Option<u64>> = vec![None; n];
    let mut fixed = vec![false; n];
    best[start] = Some(0);
    loop {
        let mut pick: Option<usize> = None;
        for v in 0..n {
            if !fixed[v] && best[v].is_some() && pick.map_or(true, |p| best[v] < best[p]) {
                pick = Some(v);
            }
        }
        let u = pick?;
        if u == goal {
            return best[u];
        }
        fixed[u] = true;
        for c in &ds.waypoints[u].connections {
            let d = best[u].unwrap() + c.distance;
            if best[c.waypoint_index].map_or(true, |b| d < b) {
                best[c.waypoint_index] = Some(d);
            }
        }
    }
}

#[test]
fn route_cost_matches_dijkstra() {
    let mut ds = grid();
    let all: Vec<Vec<u64>> = (0..36).map(|i| row(&ds, i)).collect();
    ds.assign_all_connections_naive(3, &all);
    for (s, g) in [(0, 35), (5, 30), (12, 23), (35, 0)] {
        let zero = vec![0; 36];
        let route = ds.get_shortest_route(s, g, &zero).unwrap();
        match (route, dijkstra(&ds, s, g)) {
            (Some(r), Some(expected)) => {
                let cost: u64 = r
                    .windows(2)
                    .map(|w| {
                        ds.waypoints[w[0]]
                            .connections
                            .iter()
                            .filter(|c| c.waypoint_index == w[1])
                            .map(|c| c.distance)
                            .min()
                            .unwrap()
                    })
                    .sum();
                assert_eq!(cost, expected, "route {} -> {}", s, g);
            }
            (None, None) => {}
            (a, b) => panic!("route {} -> {} disagrees: {:?} vs {:?}", s, g, a, b),
        }
    }
}

#[test]
fn generated_coordinates_follow_the_generator() {
    let mut ds = Dataset::new();
    let mut rng = XorShiftRng::new(1);
    ds.generate_waypoints(1, &mut rng);
    assert_eq!(ds.waypoints[0].lat, 16_787_457 - 900_000_000);
    assert_eq!(ds.waypoints[0].lon, (281_475_182_231_555u64 % 3_600_000_001) as i64 - 1_800_000_000);
    assert_eq!(ds.waypoints[0].label, "A");
    assert_eq!(rng.next_u32(), 2883782236988975201);
}
