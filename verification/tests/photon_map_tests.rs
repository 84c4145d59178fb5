use photon_map::Photon;
use photon_map::PhotonMap;
use photon_map::Vector4;

fn photon(x: i32, y: i32, z: i32, t: i32) -> Photon {
    Photon {
        position: Vector4::new(x, y, z, t),
        direction: Vector4::new(x + 1, y + 2, z + 3, t + 4),
    }
}

fn dist(a: Vector4, b: Vector4) -> i128 {
    a.distance_squared(b)
}

// The k smallest qualifying squared distances by exhaustive linear scan,
// ascending.
fn brute_force_distances(records: &[Photon], query: Vector4, k: usize, maxd: i128) -> Vec<i128> {
    let mut ds: Vec<i128> = Vec::new();
    for r in records {
        let d = dist(query, r.position);
        if d <= maxd {
            ds.push(d);
        }
    }
    ds.sort();
    ds.truncate(k);
    ds
}

#[test]
fn two_nearest_of_four() {
    let records = vec![
        photon(0, 0, 0, 0),
        photon(1, 0, 0, 0),
        photon(0, 2, 0, 0),
        photon(5, 5, 5, 5),
    ];
    let map = PhotonMap::build(records);
    let results = map.nearest_k(Vector4::new(0, 0, 0, 0), 2, 100);
    assert_eq!(results.len(), 2);
    assert_eq!(results[0].0.position, Vector4::new(0, 0, 0, 0));
    assert_eq!(results[0].1, 0);
    assert_eq!(results[1].0.position, Vector4::new(1, 0, 0, 0));
    assert_eq!(results[1].1, 1);
}

#[test]
fn k_zero_returns_empty() {
    let records = vec![photon(1, 2, 3, 4), photon(5, 6, 7, 8)];
    let map = PhotonMap::build(records);
    let results = map.nearest_k(Vector4::new(1, 2, 3, 4), 0, 1000);
    assert!(results.is_empty());
}

#[test]
fn empty_index_returns_empty() {
    let map = PhotonMap::build(Vec::new());
    assert_eq!(map.count(), 0);
    let results = map.nearest_k(Vector4::new(0, 0, 0, 0), 5, 1000);
    assert!(results.is_empty());
}

#[test]
fn zero_max_distance_keeps_only_exact_matches() {
    let records = vec![photon(0, 0, 0, 0), photon(1, 0, 0, 0), photon(0, 0, 0, 1)];
    let map = PhotonMap::build(records);
    let results = map.nearest_k(Vector4::new(0, 0, 0, 0), 3, 0);
    assert_eq!(results.len(), 1);
    assert_eq!(results[0].0.position, Vector4::new(0, 0, 0, 0));
    assert_eq!(results[0].1, 0);
}

#[test]
fn repeated_queries_are_identical() {
    let records = vec![
        photon(3, 1, 4, 1),
        photon(5, 9, 2, 6),
        photon(-5, 3, 5, -8),
        photon(9, 7, 9, 3),
        photon(2, 3, 8, 4),
        photon(6, 2, 6, 4),
    ];
    let map = PhotonMap::build(records);
    let query = Vector4::new(1, 2, 3, 4);
    let first = map.nearest_k(query, 4, 500);
    let second = map.nearest_k(query, 4, 500);
    assert_eq!(first, second);
}

#[test]
fn ascending_distances_of_three() {
    // Three records at distinct distances come back smallest-first,
    // whatever order they were indexed in.
    let records = vec![photon(3, 0, 0, 0), photon(1, 0, 0, 0), photon(2, 0, 0, 0)];
    let map = PhotonMap::build(records);
    let results = map.nearest_k(Vector4::new(0, 0, 0, 0), 3, 100);
    let ds: Vec<i128> = results.iter().map(|e| e.1).collect();
    assert_eq!(ds, vec![1, 4, 9]);
}

#[test]
fn matches_linear_scan() {
    let mut records = Vec::new();
    // A deterministic scatter of positions, including duplicates.
    let mut v: i32 = 7;
    for i in 0..40 {
        v = (v * 31 + 17) % 23 - 11;
        let w = (v * 7 + i) % 19 - 9;
        records.push(photon(v, w, (v + w) % 13, (v - w) % 11));
    }
    records.push(photon(0, 0, 0, 0));
    records.push(photon(0, 0, 0, 0));
    let map = PhotonMap::build(records.clone());
    assert_eq!(map.count(), records.len());
    let queries = [
        Vector4::new(0, 0, 0, 0),
        Vector4::new(-4, 3, 2, -1),
        Vector4::new(10, 10, 10, 10),
    ];
    for &query in queries.iter() {
        for &k in [0usize, 1, 3, 7, 100].iter() {
            for &maxd in [0i128, 5, 50, 10_000].iter() {
                let results = map.nearest_k(query, k, maxd);
                let expected = brute_force_distances(&records, query, k, maxd);
                let got: Vec<i128> = results.iter().map(|e| e.1).collect();
                assert_eq!(got, expected);
                for e in results.iter() {
                    assert_eq!(e.1, dist(query, e.0.position));
                    assert!(e.1 <= maxd);
                }
            }
        }
    }
}

#[test]
fn all_positions_identical() {
    // Degenerate input: every position equal.  Construction must still
    // terminate and queries must return the duplicates.
    let records: Vec<Photon> = (0..9).map(|_| photon(2, 2, 2, 2)).collect();
    let map = PhotonMap::build(records);
    assert_eq!(map.count(), 9);
    let results = map.nearest_k(Vector4::new(2, 2, 2, 2), 4, 0);
    assert_eq!(results.len(), 4);
    for e in results.iter() {
        assert_eq!(e.1, 0);
        assert_eq!(e.0.position, Vector4::new(2, 2, 2, 2));
    }
}

#[test]
fn fewer_qualifying_than_k() {
    let records = vec![photon(0, 0, 0, 0), photon(1, 0, 0, 0), photon(10, 0, 0, 0)];
    let map = PhotonMap::build(records);
    let results = map.nearest_k(Vector4::new(0, 0, 0, 0), 5, 2);
    let ds: Vec<i128> = results.iter().map(|e| e.1).collect();
    assert_eq!(ds, vec![0, 1]);
}

#[test]
fn negative_max_distance_excludes_everything() {
    let records = vec![photon(0, 0, 0, 0), photon(1, 1, 1, 1)];
    let map = PhotonMap::build(records);
    let results = map.nearest_k(Vector4::new(0, 0, 0, 0), 2, -1);
    assert!(results.is_empty());
}

#[test]
fn matches_linear_scan_on_larger_set() {
    let mut records = Vec::new();
    let mut v: i64 = 1;
    for _ in 0..200 {
        v = (v * 48271) % 0x7fff_ffff;
        let a = (v % 201 - 100) as i32;
        let b = (v / 201 % 201 - 100) as i32;
        let c = (v / 7 % 201 - 100) as i32;
        let d = (v / 11 % 201 - 100) as i32;
        records.push(photon(a, b, c, d));
    }
    let map = PhotonMap::build(records.clone());
    let query = Vector4::new(13, -40, 77, 0);
    for &k in [1usize, 5, 20, 200].iter() {
        let results = map.nearest_k(query, k, 1_000_000);
        let expected = brute_force_distances(&records, query, k, 1_000_000);
        let got: Vec<i128> = results.iter().map(|e| e.1).collect();
        assert_eq!(got, expected);
    }
}

#[test]
fn directions_are_returned_with_their_records() {
    let records = vec![
        Photon { position: Vector4::new(1, 0, 0, 0), direction: Vector4::new(9, 8, 7, 6) },
        Photon { position: Vector4::new(4, 0, 0, 0), direction: Vector4::new(-1, -2, -3, -4) },
    ];
    let map = PhotonMap::build(records);
    let results = map.nearest_k(Vector4::new(0, 0, 0, 0), 1, 1000);
    assert_eq!(results.len(), 1);
    assert_eq!(results[0].0.direction, Vector4::new(9, 8, 7, 6));
}
