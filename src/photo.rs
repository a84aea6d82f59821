//! Photos and their matching to the location log.
use crate::geo::{time_dist, Coord};
use crate::location::{find_closest, is_closest, sorted_by_time, LocationFix};
use vstd::prelude::*;

verus! {

/// A photo found by a scan, identified by its path.
#[derive(Debug)]
pub struct Photo {
    pub path: String,
    /// Capture time in seconds, when the file records one.
    pub time: Option<i64>,
    pub location: Option<Coord>,
    pub location_name: Option<String>,
}

impl Photo {
    /// A photo with no coordinate and no place name yet.
    pub fn new(path: String, time: Option<i64>) -> (r: Photo)
        ensures
            r.path == path,
            r.time == time,
            r.location is None,
            r.location_name is None,
    {
        Photo { path, time, location: None, location_name: None }
    }

    /// Gives the photo the coordinate of `fix`.
    pub fn set_location(&mut self, fix: &LocationFix)
        ensures
            final(self).location == Some(fix.coord),
            final(self).path == old(self).path,
            final(self).time == old(self).time,
            final(self).location_name == old(self).location_name,
    {
        self.location = Some(fix.coord);
    }
}

/// The coordinate that matching gives a photo taken at `time`: that of the
/// fix nearest in time, if the log has one and, when `max_gap` is set, it
/// lies no further than `max_gap` seconds away.
pub open spec fn matched_coord(
    log: Seq<LocationFix>,
    time: i64,
    max_gap: Option<u64>,
    c: Option<Coord>,
) -> bool {
    match c {
        None => log.len() == 0 || exists|i: int| #[trigger]
            is_closest(log, time, i) && !within_gap(max_gap, time_dist(log[i].timestamp, time)),
        Some(p) => exists|i: int| #[trigger]
            is_closest(log, time, i) && log[i].coord == p && within_gap(
                max_gap,
                time_dist(log[i].timestamp, time),
            ),
    }
}

/// A time difference is acceptable for matching: no bound is set, or it is within it.
pub open spec fn within_gap(max_gap: Option<u64>, d: nat) -> bool {
    match max_gap {
        None => true,
        Some(g) => d <= g,
    }
}

/// The photo after matching: one that has a coordinate, or has no capture
/// time, is left as it was; any other gets the coordinate of the nearest fix
/// (see `matched_coord`), or stays without one.
pub open spec fn matched(before: Photo, after: Photo, log: Seq<LocationFix>, max_gap: Option<u64>) -> bool {
    &&& after.path == before.path
    &&& after.time == before.time
    &&& after.location_name == before.location_name
    &&& if before.location is Some || before.time is None {
        after.location == before.location
    } else {
        matched_coord(log, before.time.unwrap(), max_gap, after.location)
    }
}

/// Matching never alters a photo that already has a coordinate, whatever
/// the log holds.
pub proof fn lemma_located_photo_unchanged(
    before: Photo,
    after: Photo,
    log: Seq<LocationFix>,
    max_gap: Option<u64>,
)
    requires
        matched(before, after, log, max_gap),
        before.location is Some,
    ensures
        after == before,
{
}

/// Matches one photo against a log sorted by timestamp (see `matched`).
pub fn match_photo(photo: &mut Photo, log: &Vec<LocationFix>, max_gap: Option<u64>)
    requires
        sorted_by_time(log@),
    ensures
        matched(*old(photo), *final(photo), log@, max_gap),
{
    if photo.location.is_some() {
        return;
    }
    match photo.time {
        None => {},
        Some(time) => {
            match find_closest(log, time) {
                None => {},
                Some(i) => {
                    let gap = crate::geo::time_distance(log[i].timestamp, time);
                    let close_enough = match max_gap {
                        None => true,
                        Some(g) => gap <= g,
                    };
                    if close_enough {
                        photo.set_location(&log[i]);
                    }
                    proof {
                        assert(is_closest(log@, time, i as int));
                    }
                },
            }
        },
    }
}

} // verus!
