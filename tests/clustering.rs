use photos::clusters::{collect, group, lookup_plan, resolve_labels, Label};
use photos::dbscan::{dbscan, geo_distances, time_distances, within, ClusterError, ClusterParams};
use photos::geo::Coord;
use photos::photo::Photo;
use photos::win::Win;

fn point(lat: f64, lon: f64) -> Coord {
    let (la, lo) = (lat.to_radians(), lon.to_radians());
    Coord {
        lat_e7: (lat * 1e7).round() as i32,
        lon_e7: (lon * 1e7).round() as i32,
        x: (la.cos() * lo.cos() * 1e9).round() as i32,
        y: (la.cos() * lo.sin() * 1e9).round() as i32,
        z: (la.sin() * 1e9).round() as i32,
    }
}

fn located(path: &str, lat: f64, lon: f64) -> Photo {
    let mut p = Photo::new(path.to_string(), Some(0));
    p.location = Some(point(lat, lon));
    p
}

#[test]
fn spatial_example_two_close_one_far() {
    let pts = vec![point(0.0, 0.0), point(0.0, 0.001), point(50.0, 50.0)];
    let d = geo_distances(&pts);
    let p = dbscan(&d, 1000, 2).unwrap();
    assert_eq!(p.labels, vec![Some(0), Some(0), None]);
    assert_eq!(p.clusters, 1);
}

#[test]
fn temporal_example_two_close_one_far() {
    let t: i64 = 1_491_801_919;
    let d = time_distances(&vec![t, t + 100, t + 5000]);
    let p = dbscan(&d, 600, 2).unwrap();
    assert_eq!(p.labels, vec![Some(0), Some(0), None]);
    assert_eq!(p.clusters, 1);
}

#[test]
fn session_time_pass_on_example() {
    let t: i64 = 1_491_801_919;
    let mut win = Win::new();
    win.load_photos(vec![
        Photo::new("a".to_string(), Some(t)),
        Photo::new("none".to_string(), None),
        Photo::new("b".to_string(), Some(t + 100)),
        Photo::new("c".to_string(), Some(t + 5000)),
    ]);
    let params = ClusterParams { epsilon: 600, min_neighbors: 2 };
    let cl = win.cluster_time(&params).unwrap();
    assert_eq!(cl.members, vec![vec![0, 2]]);
    assert_eq!(cl.noise, vec![3]);
}

#[test]
fn session_location_pass_on_example() {
    let mut win = Win::new();
    win.load_photos(vec![
        located("a", 0.0, 0.0),
        Photo::new("none".to_string(), Some(5)),
        located("b", 0.0, 0.001),
        located("c", 50.0, 50.0),
    ]);
    let params = ClusterParams { epsilon: 1000, min_neighbors: 2 };
    let cl = win.cluster_location(&params).unwrap();
    assert_eq!(cl.members, vec![vec![0, 2]]);
    assert_eq!(cl.noise, vec![3]);
}

#[test]
fn every_item_has_one_outcome() {
    let d = time_distances(&vec![0, 10, 20, 1000, 1010, 5000, 30]);
    let p = dbscan(&d, 15, 3).unwrap();
    assert_eq!(p.labels.len(), 7);
    assert_eq!(p.labels, vec![Some(0), Some(0), Some(0), None, None, None, Some(0)]);
}

#[test]
fn border_item_joins_cluster() {
    // 10 and 20 are core items; 0 and 28 are border items, each within reach of one of them.
    let d = time_distances(&vec![28, 0, 10, 20]);
    let p = dbscan(&d, 10, 3).unwrap();
    assert_eq!(p.labels, vec![Some(0), Some(0), Some(0), Some(0)]);
}

#[test]
fn separate_clusters_get_separate_ids() {
    let d = time_distances(&vec![0, 1, 2, 100, 101, 102]);
    let p = dbscan(&d, 2, 3).unwrap();
    assert_eq!(p.labels, vec![Some(0), Some(0), Some(0), Some(1), Some(1), Some(1)]);
    assert_eq!(p.clusters, 2);
}

#[test]
fn all_noise_when_threshold_too_high() {
    let d = time_distances(&vec![0, 1, 2]);
    let p = dbscan(&d, 10, 4).unwrap();
    assert_eq!(p.labels, vec![None, None, None]);
    assert_eq!(p.clusters, 0);
}

#[test]
fn empty_input_has_no_clusters() {
    let p = dbscan(&Vec::new(), 10, 2).unwrap();
    assert!(p.labels.is_empty());
    assert_eq!(p.clusters, 0);
}

#[test]
fn zero_epsilon_is_refused() {
    let d = time_distances(&vec![0, 1]);
    assert_eq!(dbscan(&d, 0, 2).unwrap_err(), ClusterError::NonPositiveEpsilon);
}

#[test]
fn ragged_matrix_is_refused() {
    let d = vec![vec![0, 1], vec![1]];
    assert_eq!(dbscan(&d, 5, 2).unwrap_err(), ClusterError::NotSquare);
}

#[test]
fn asymmetric_matrix_is_refused() {
    let d = vec![vec![0, 1], vec![2, 0]];
    assert_eq!(dbscan(&d, 5, 2).unwrap_err(), ClusterError::NotSymmetric);
}

#[test]
fn larger_epsilon_example() {
    let d = time_distances(&vec![0, 5, 10, 40, 45]);
    let small = dbscan(&d, 5, 2).unwrap();
    let large = dbscan(&d, 30, 2).unwrap();
    assert_eq!(small.labels, vec![Some(0), Some(0), Some(0), Some(1), Some(1)]);
    assert_eq!(large.labels, vec![Some(0), Some(0), Some(0), Some(0), Some(0)]);
}

#[test]
fn default_parameters() {
    let s = ClusterParams::spatial();
    assert_eq!((s.epsilon, s.min_neighbors), (1000, 3));
    let t = ClusterParams::temporal();
    assert_eq!((t.epsilon, t.min_neighbors), (600, 10));
}

#[test]
fn within_lists_neighbors_in_order() {
    assert_eq!(within(&vec![5, 0, 9, 3], 5), vec![0, 1, 3]);
}

#[test]
fn grouping_by_labels() {
    let labels = vec![Some(1), None, Some(0), Some(1)];
    let items = vec![3, 5, 7, 9];
    assert_eq!(collect(&labels, &items, Some(1)), vec![3, 9]);
    let cl = group(&labels, 2, &items);
    assert_eq!(cl.members, vec![vec![7], vec![3, 9]]);
    assert_eq!(cl.noise, vec![5]);
}

#[test]
fn one_lookup_per_cluster() {
    let photos = vec![located("a", 1.0, 1.0), located("b", 1.0, 1.0), located("c", 1.0, 1.0), located("d", 5.0, 5.0)];
    let clusters = vec![vec![0, 1, 2], vec![3]];
    assert_eq!(lookup_plan(&photos, &clusters), vec![Some(0), Some(3)]);
}

#[test]
fn named_member_needs_no_lookup() {
    let mut photos = vec![located("a", 1.0, 1.0), located("b", 1.0, 1.0), located("c", 1.0, 1.0)];
    photos[1].location_name = Some("Paris, FR".to_string());
    photos[2].location_name = Some("Lyon, FR".to_string());
    let clusters = vec![vec![0, 1, 2]];
    assert_eq!(lookup_plan(&photos, &clusters), vec![None]);
    let labels = resolve_labels(&mut photos, &clusters, &vec![Some("ignored".to_string())]);
    assert_eq!(labels, vec![Label::Named(1)]);
    assert_eq!(photos[0].location_name, None);
}

#[test]
fn lookup_answer_is_stored_on_the_photo() {
    let mut photos = vec![located("a", 1.0, 1.0), located("b", 1.0, 1.0), located("c", 9.0, 9.0), located("d", 9.0, 9.0)];
    let clusters = vec![vec![0, 1], vec![2, 3]];
    let answers = vec![Some("Kumasi, GH".to_string()), None];
    let labels = resolve_labels(&mut photos, &clusters, &answers);
    assert_eq!(labels, vec![Label::Named(0), Label::Coordinates(2)]);
    assert_eq!(photos[0].location_name, Some("Kumasi, GH".to_string()));
    assert_eq!(photos[1].location_name, None);
    assert_eq!(photos[2].location_name, None);
    assert_eq!(photos[0].path, "a");
}

#[test]
fn cluster_without_coordinate_is_unresolved() {
    let mut photos = vec![Photo::new("a".to_string(), Some(1)), Photo::new("b".to_string(), Some(2))];
    let clusters = vec![vec![0, 1], vec![]];
    assert_eq!(lookup_plan(&photos, &clusters), vec![None, None]);
    let labels = resolve_labels(&mut photos, &clusters, &vec![None, None]);
    assert_eq!(labels, vec![Label::Unresolved, Label::Unresolved]);
}
