use photos::geo::{distance_m, int_sqrt, time_distance, Coord};
use photos::location::{filter_outliers, find_closest, LocationFix, OutlierLimits};
use photos::photo::{match_photo, Photo};
use photos::win::{LogError, MenuMsg, Msg, Win};

fn point(lat: f64, lon: f64) -> Coord {
    let (la, lo) = (lat.to_radians(), lon.to_radians());
    Coord {
        lat_e7: (lat * 1e7).round() as i32,
        lon_e7: (lon * 1e7).round() as i32,
        x: (la.cos() * lo.cos() * 1e9).round() as i32,
        y: (la.cos() * lo.sin() * 1e9).round() as i32,
        z: (la.sin() * 1e9).round() as i32,
    }
}

fn fix(timestamp: i64, lat: f64, lon: f64) -> LocationFix {
    LocationFix { timestamp, coord: point(lat, lon), accuracy: 10 }
}

fn limits() -> OutlierLimits {
    OutlierLimits { max_speed_kmh: 300, max_accuracy_m: 100 }
}

#[test]
fn int_sqrt_exact_values() {
    assert_eq!(int_sqrt(0), 0);
    assert_eq!(int_sqrt(1), 1);
    assert_eq!(int_sqrt(15), 3);
    assert_eq!(int_sqrt(16), 4);
    assert_eq!(int_sqrt(2_000_000_000_000_000_000), 1_414_213_562);
}

#[test]
fn distance_between_quarter_circle_points() {
    let a = Coord { lat_e7: 0, lon_e7: 0, x: 1_000_000_000, y: 0, z: 0 };
    let b = Coord { lat_e7: 0, lon_e7: 900_000_000, x: 0, y: 1_000_000_000, z: 0 };
    assert_eq!(distance_m(&a, &b), 9_009_954);
    assert_eq!(distance_m(&a, &a), 0);
}

#[test]
fn distance_of_a_thousandth_degree_at_the_equator() {
    assert_eq!(distance_m(&point(0.0, 0.0), &point(0.0, 0.001)), 111);
}

#[test]
fn time_distance_is_absolute() {
    assert_eq!(time_distance(100, 40), 60);
    assert_eq!(time_distance(40, 100), 60);
    assert_eq!(time_distance(i64::MIN, i64::MAX), u64::MAX);
}

#[test]
fn closest_fix_is_nearest_in_time() {
    let log = vec![fix(100, 0.0, 0.0), fix(200, 0.0, 0.0), fix(400, 0.0, 0.0)];
    assert_eq!(find_closest(&log, 210), Some(1));
    assert_eq!(find_closest(&log, 350), Some(2));
    assert_eq!(find_closest(&log, 200), Some(1));
}

#[test]
fn closest_fix_outside_the_log() {
    let log = vec![fix(100, 0.0, 0.0), fix(200, 0.0, 0.0)];
    assert_eq!(find_closest(&log, -5000), Some(0));
    assert_eq!(find_closest(&log, 90_000), Some(1));
}

#[test]
fn closest_fix_ties_go_to_the_earliest() {
    let log = vec![fix(100, 0.0, 0.0), fix(200, 0.0, 0.0)];
    assert_eq!(find_closest(&log, 150), Some(0));
    let dup = vec![fix(100, 0.0, 0.0), fix(100, 1.0, 1.0), fix(100, 2.0, 2.0), fix(300, 0.0, 0.0)];
    assert_eq!(find_closest(&dup, 150), Some(0));
    assert_eq!(find_closest(&dup, 250), Some(3));
}

#[test]
fn closest_fix_in_empty_log() {
    assert_eq!(find_closest(&Vec::new(), 10), None);
}

#[test]
fn filter_drops_too_fast_fix() {
    let log = vec![fix(0, 0.0, 0.0), fix(60, 50.0, 50.0), fix(120, 0.0, 0.001)];
    let out = filter_outliers(log, &limits());
    assert_eq!(out, vec![fix(0, 0.0, 0.0), fix(120, 0.0, 0.001)]);
}

#[test]
fn filter_drops_inaccurate_fix() {
    let mut bad = fix(60, 0.0, 0.0);
    bad.accuracy = 5000;
    let log = vec![fix(0, 0.0, 0.0), bad, fix(120, 0.0, 0.0)];
    let out = filter_outliers(log, &limits());
    assert_eq!(out, vec![fix(0, 0.0, 0.0), fix(120, 0.0, 0.0)]);
}

#[test]
fn filter_leaves_short_logs() {
    let mut bad = fix(60, 0.0, 0.0);
    bad.accuracy = 5000;
    assert_eq!(filter_outliers(vec![bad], &limits()), vec![bad]);
    assert_eq!(filter_outliers(Vec::new(), &limits()), Vec::new());
}

#[test]
fn filter_same_timestamp_compares_distance() {
    let log = vec![fix(0, 0.0, 0.0), fix(0, 0.0, 0.001), fix(0, 10.0, 10.0)];
    let out = filter_outliers(log, &limits());
    assert_eq!(out, vec![fix(0, 0.0, 0.0), fix(0, 0.0, 0.001)]);
}

#[test]
fn filter_is_idempotent_on_example() {
    let log = vec![fix(0, 0.0, 0.0), fix(60, 50.0, 50.0), fix(120, 0.0, 0.001), fix(130, 3.0, 3.0), fix(9000, 0.1, 0.1)];
    let once = filter_outliers(log, &limits());
    let twice = filter_outliers(once.clone(), &limits());
    assert_eq!(once, twice);
    assert_eq!(once.len(), 3);
}

#[test]
fn match_photo_takes_nearest_fix() {
    let log = vec![fix(100, 1.0, 1.0), fix(200, 2.0, 2.0)];
    let mut p = Photo::new("a.jpg".to_string(), Some(190));
    match_photo(&mut p, &log, None);
    assert_eq!(p.location, Some(point(2.0, 2.0)));
}

#[test]
fn match_photo_respects_gap() {
    let log = vec![fix(100, 1.0, 1.0)];
    let mut p = Photo::new("a.jpg".to_string(), Some(10_000));
    match_photo(&mut p, &log, Some(600));
    assert_eq!(p.location, None);
    match_photo(&mut p, &log, None);
    assert_eq!(p.location, Some(point(1.0, 1.0)));
}

#[test]
fn match_photo_without_time_is_skipped() {
    let log = vec![fix(100, 1.0, 1.0)];
    let mut p = Photo::new("a.jpg".to_string(), None);
    match_photo(&mut p, &log, None);
    assert_eq!(p.location, None);
}

#[test]
fn located_photo_is_never_rematched() {
    let log = vec![fix(100, 1.0, 1.0), fix(200, 2.0, 2.0)];
    let mut p = Photo::new("a.jpg".to_string(), Some(100));
    p.location = Some(point(40.0, 40.0));
    match_photo(&mut p, &log, None);
    assert_eq!(p.location, Some(point(40.0, 40.0)));
    assert_eq!(p.path, "a.jpg");
}

#[test]
fn session_matches_loaded_photos() {
    let mut win = Win::new();
    let mut fixed = Photo::new("fixed.jpg".to_string(), Some(100));
    fixed.location = Some(point(40.0, 40.0));
    win.load_photos(vec![Photo::new("a.jpg".to_string(), Some(150)), fixed, Photo::new("b.jpg".to_string(), None)]);
    assert!(win.model.photos.iter().all(|p| p.location != Some(point(1.0, 1.0))));
    let log = vec![fix(100, 1.0, 1.0), fix(200, 1.0, 1.001)];
    assert_eq!(win.load_locations(log, &limits()), Ok(()));
    assert_eq!(win.model.locations.len(), 2);
    assert_eq!(win.model.photos[0].location, Some(point(1.0, 1.0)));
    assert_eq!(win.model.photos[1].location, Some(point(40.0, 40.0)));
    assert_eq!(win.model.photos[2].location, None);
}

#[test]
fn session_refuses_unsorted_log() {
    let mut win = Win::new();
    win.load_photos(vec![Photo::new("a.jpg".to_string(), Some(150))]);
    let log = vec![fix(200, 1.0, 1.0), fix(100, 2.0, 2.0)];
    assert_eq!(win.load_locations(log, &limits()), Err(LogError::Unsorted));
    assert!(win.model.locations.is_empty());
    assert_eq!(win.model.photos[0].location, None);
}

#[test]
fn update_locations_in_place() {
    let mut win = Win::new();
    win.model.locations = vec![fix(100, 1.0, 1.0)];
    win.model.photos = vec![Photo::new("a.jpg".to_string(), Some(0))];
    win.update_locations();
    assert_eq!(win.model.photos[0].location, Some(point(1.0, 1.0)));
}

#[test]
fn menu_entries_map_to_requests() {
    assert_eq!(MenuMsg::SelectFile.to_msg(), Msg::JsonDialog);
    assert_eq!(MenuMsg::SelectFolder.to_msg(), Msg::FolderDialog);
    assert_eq!(MenuMsg::MenuAbout.to_msg(), Msg::AboutDialog);
    assert_eq!(MenuMsg::MenuQuit.to_msg(), Msg::Quit);
}
