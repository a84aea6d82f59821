//! The session: the location log and the photos of a run, and the phases
//! that work on them.
use crate::clusters::{
    disjoint, gather, group, increasing, labelled_item, lemma_gather_from, members_in_range, Clusters,
};
use crate::dbscan::{
    dbscan, geo_distances, is_matrix_of, is_partition, time_distances, ClusterError, ClusterParams,
};
use crate::geo::{geo_dist, time_dist, Coord};
use crate::location::{filter_outliers, sorted_by_time, without_outliers, LocationFix, OutlierLimits};
use crate::photo::{match_photo, matched, Photo};
use vstd::prelude::*;

verus! {

/// What the menu offers.
#[derive(Clone, Copy, Debug, PartialEq, Eq)]
pub enum MenuMsg {
    SelectFile,
    SelectFolder,
    MenuAbout,
    MenuQuit,
}

/// What the session is asked to do.
#[derive(Clone, Copy, Debug, PartialEq, Eq)]
pub enum Msg {
    JsonDialog,
    FolderDialog,
    AboutDialog,
    Quit,
}

impl MenuMsg {
    /// The request that a menu entry makes.
    pub fn to_msg(self) -> (r: Msg)
        ensures
            self == MenuMsg::SelectFile ==> r == Msg::JsonDialog,
            self == MenuMsg::SelectFolder ==> r == Msg::FolderDialog,
            self == MenuMsg::MenuAbout ==> r == Msg::AboutDialog,
            self == MenuMsg::MenuQuit ==> r == Msg::Quit,
    {
        match self {
            MenuMsg::SelectFile => Msg::JsonDialog,
            MenuMsg::SelectFolder => Msg::FolderDialog,
            MenuMsg::MenuAbout => Msg::AboutDialog,
            MenuMsg::MenuQuit => Msg::Quit,
        }
    }
}

/// Why a location log was refused.
#[derive(Clone, Copy, Debug, PartialEq, Eq)]
pub enum LogError {
    /// Some fix comes before an earlier one.
    Unsorted,
}

/// The data of a run.
#[derive(Debug)]
pub struct Model {
    /// Fixes sorted by timestamp.
    pub locations: Vec<LocationFix>,
    pub photos: Vec<Photo>,
    /// The largest time difference, in seconds, at which a fix may be matched
    /// to a photo; `None` for no bound.
    pub max_gap: Option<u64>,
}

/// A run over a set of photos and a location log.
#[derive(Debug)]
pub struct Win {
    pub model: Model,
}

/// `items` lists, in increasing order, exactly the indices below `n` that
/// satisfy `keep`.
pub open spec fn lists_exactly(items: Seq<usize>, n: nat, keep: spec_fn(int) -> bool) -> bool {
    &&& increasing(items)
    &&& forall|t: int| 0 <= t < items.len() ==> (#[trigger] items[t]) < n && keep(items[t] as int)
    &&& forall|x: int| 0 <= x < n && #[trigger] keep(x) ==> exists|t: int| 0 <= t < items.len() && #[trigger] items[t] == x
}

/// `items` lists the photos that have a coordinate.
pub open spec fn located_items(photos: Seq<Photo>, items: Seq<usize>) -> bool {
    lists_exactly(items, photos.len(), |x: int| photos[x].location is Some)
}

/// `items` lists the photos that have a capture time.
pub open spec fn timed_items(photos: Seq<Photo>, items: Seq<usize>) -> bool {
    lists_exactly(items, photos.len(), |x: int| photos[x].time is Some)
}

/// `d` holds the distances in meters between the photos listed in `items`.
pub open spec fn geo_matrix(photos: Seq<Photo>, items: Seq<usize>, d: Seq<Vec<u64>>) -> bool {
    is_matrix_of(
        d,
        items.len(),
        |i: int, j: int| geo_dist(photos[items[i] as int].location.unwrap(), photos[items[j] as int].location.unwrap()),
    )
}

/// `d` holds the differences in seconds between the capture times of the
/// photos listed in `items`.
pub open spec fn time_matrix(photos: Seq<Photo>, items: Seq<usize>, d: Seq<Vec<u64>>) -> bool {
    is_matrix_of(
        d,
        items.len(),
        |i: int, j: int| time_dist(photos[items[i] as int].time.unwrap(), photos[items[j] as int].time.unwrap()),
    )
}

/// `cl` groups `items` by a DBSCAN partition of the distance matrix `d`.
pub open spec fn clusters_of(d: Seq<Vec<u64>>, items: Seq<usize>, params: ClusterParams, cl: Clusters) -> bool {
    exists|labels: Seq<Option<usize>>, count: nat|
        #[trigger] is_partition(d, params.epsilon, params.min_neighbors, labels, count)
            && cl.members@.len() == count
            && (forall|c: int| 0 <= c < count ==> (#[trigger] cl.members@[c])@ == gather(labels, items, Some(c as usize)))
            && cl.noise@ == gather(labels, items, None)
}

/// Photos with a coordinate: their indices, increasing, and their coordinates.
fn located(photos: &Vec<Photo>) -> (r: (Vec<usize>, Vec<Coord>))
    ensures
        lists_exactly(r.0@, photos@.len(), |x: int| photos@[x].location is Some),
        r.1@.len() == r.0@.len(),
        forall|t: int| 0 <= t < r.0@.len() ==> Some(#[trigger] r.1@[t]) == photos@[r.0@[t] as int].location,
{
    let mut items: Vec<usize> = Vec::new();
    let mut points: Vec<Coord> = Vec::new();
    let mut x: usize = 0;
    while x < photos.len()
        invariant
            x <= photos@.len(),
            points@.len() == items@.len(),
            increasing(items@),
            forall|t: int| 0 <= t < items@.len() ==> (#[trigger] items@[t]) < x && photos@[items@[t] as int].location is Some,
            forall|y: int| 0 <= y < x && photos@[y].location is Some ==> exists|t: int| 0 <= t < items@.len() && #[trigger] items@[t] == y,
            forall|t: int| 0 <= t < items@.len() ==> Some(#[trigger] points@[t]) == photos@[items@[t] as int].location,
        decreases photos@.len() - x,
    {
        match photos[x].location {
            Some(p) => {
                let ghost i0 = items@;
                items.push(x);
                points.push(p);
                assert forall|y: int| 0 <= y < x + 1 && photos@[y].location is Some implies exists|t: int| 0 <= t < items@.len() && #[trigger] items@[t] == y by {
                    if y < x {
                        let t = choose|t: int| 0 <= t < i0.len() && #[trigger] i0[t] == y;
                        assert(items@[t] == y);
                    } else {
                        assert(items@[items@.len() - 1] == y);
                    }
                }
            },
            None => {},
        }
        x = x + 1;
    }
    (items, points)
}

/// Photos with a capture time: their indices, increasing, and their times.
fn timed(photos: &Vec<Photo>) -> (r: (Vec<usize>, Vec<i64>))
    ensures
        lists_exactly(r.0@, photos@.len(), |x: int| photos@[x].time is Some),
        r.1@.len() == r.0@.len(),
        forall|t: int| 0 <= t < r.0@.len() ==> Some(#[trigger] r.1@[t]) == photos@[r.0@[t] as int].time,
{
    let mut items: Vec<usize> = Vec::new();
    let mut times: Vec<i64> = Vec::new();
    let mut x: usize = 0;
    while x < photos.len()
        invariant
            x <= photos@.len(),
            times@.len() == items@.len(),
            increasing(items@),
            forall|t: int| 0 <= t < items@.len() ==> (#[trigger] items@[t]) < x && photos@[items@[t] as int].time is Some,
            forall|y: int| 0 <= y < x && photos@[y].time is Some ==> exists|t: int| 0 <= t < items@.len() && #[trigger] items@[t] == y,
            forall|t: int| 0 <= t < items@.len() ==> Some(#[trigger] times@[t]) == photos@[items@[t] as int].time,
        decreases photos@.len() - x,
    {
        match photos[x].time {
            Some(p) => {
                let ghost i0 = items@;
                items.push(x);
                times.push(p);
                assert forall|y: int| 0 <= y < x + 1 && photos@[y].time is Some implies exists|t: int| 0 <= t < items@.len() && #[trigger] items@[t] == y by {
                    if y < x {
                        let t = choose|t: int| 0 <= t < i0.len() && #[trigger] i0[t] == y;
                        assert(items@[t] == y);
                    } else {
                        assert(items@[items@.len() - 1] == y);
                    }
                }
            },
            None => {},
        }
        x = x + 1;
    }
    (items, times)
}

/// Clusters `items` by the matrix `d` and groups them.
fn cluster_items(d: &Vec<Vec<u64>>, items: &Vec<usize>, params: &ClusterParams, Ghost(n): Ghost<nat>) -> (r: Result<Clusters, ClusterError>)
    requires
        forall|t: int| 0 <= t < items@.len() ==> #[trigger] items@[t] < n,
        d@.len() == items@.len(),
        forall|i: int| 0 <= i < d@.len() ==> (#[trigger] d@[i])@.len() == d@.len(),
        crate::dbscan::is_symmetric(d@),
    ensures
        params.epsilon == 0 <==> r is Err,
        r matches Err(e) ==> e == ClusterError::NonPositiveEpsilon,
        r matches Ok(cl) ==> clusters_of(d@, items@, *params, cl) && (increasing(items@) ==> disjoint(cl.members@)),
        r matches Ok(cl) ==> members_in_range(n, cl.members@),
{
    match dbscan(d, params.epsilon, params.min_neighbors) {
        Err(e) => Err(e),
        Ok(p) => {
            let cl = group(&p.labels, p.clusters, items);
            assert(is_partition(d@, params.epsilon, params.min_neighbors, p.labels@, p.clusters as nat));
            proof {
                assert forall|c: int, t: int| 0 <= c < cl.members@.len() && 0 <= t < cl.members@[c]@.len() implies #[trigger] cl.members@[c]@[t] < n by {
                    lemma_gather_from(p.labels@, items@, Some(c as usize));
                    let g = gather(p.labels@, items@, Some(c as usize));
                    assert(cl.members@[c]@ == g);
                    assert(labelled_item(p.labels@, items@, Some(c as usize), g[t]));
                }
            }
            Ok(cl)
        },
    }
}

impl Win {
    /// The log is sorted by timestamp.
    pub open spec fn wf(&self) -> bool {
        sorted_by_time(self.model.locations@)
    }

    /// A run with no photos, an empty log and no bound on matching.
    pub fn new() -> (r: Win)
        ensures
            r.wf(),
            r.model.locations@.len() == 0,
            r.model.photos@.len() == 0,
            r.model.max_gap is None,
    {
        Win { model: Model { locations: Vec::new(), photos: Vec::new(), max_gap: None } }
    }

    /// Matches every photo against the log (see `matched`): photos that
    /// already have a coordinate are left as they are.
    pub fn update_locations(&mut self)
        requires
            old(self).wf(),
        ensures
            final(self).model.locations == old(self).model.locations,
            final(self).model.max_gap == old(self).model.max_gap,
            final(self).model.photos@.len() == old(self).model.photos@.len(),
            forall|k: int|
                0 <= k < old(self).model.photos@.len() ==> matched(
                    #[trigger] old(self).model.photos@[k],
                    final(self).model.photos@[k],
                    old(self).model.locations@,
                    old(self).model.max_gap,
                ),
    {
        let ghost before = self.model.photos@;
        let mut k: usize = 0;
        while k < self.model.photos.len()
            invariant
                sorted_by_time(self.model.locations@),
                self.model.locations == old(self).model.locations,
                self.model.max_gap == old(self).model.max_gap,
                before == old(self).model.photos@,
                k <= self.model.photos@.len(),
                self.model.photos@.len() == before.len(),
                forall|j: int| 0 <= j < k ==> matched(#[trigger] before[j], self.model.photos@[j], self.model.locations@, self.model.max_gap),
                forall|j: int| k <= j < before.len() ==> #[trigger] self.model.photos@[j] == before[j],
            decreases before.len() - k,
        {
            match_photo(&mut self.model.photos[k], &self.model.locations, self.model.max_gap);
            k = k + 1;
        }
    }

    /// Replaces the log by `log` with its outliers removed, then matches the
    /// photos against it. An unsorted log is refused and the run left as it was.
    pub fn load_locations(&mut self, log: Vec<LocationFix>, lim: &OutlierLimits) -> (r: Result<(), LogError>)
        requires
            old(self).wf(),
        ensures
            final(self).wf(),
            r is Ok <==> sorted_by_time(log@),
            r is Err ==> *final(self) == *old(self),
            r is Ok ==> final(self).model.locations@ == without_outliers(log@, *lim),
            final(self).model.max_gap == old(self).model.max_gap,
            final(self).model.photos@.len() == old(self).model.photos@.len(),
            r is Ok ==> forall|k: int|
                0 <= k < old(self).model.photos@.len() ==> matched(
                    #[trigger] old(self).model.photos@[k],
                    final(self).model.photos@[k],
                    without_outliers(log@, *lim),
                    old(self).model.max_gap,
                ),
    {
        let mut i: usize = 1;
        while i < log.len()
            invariant
                1 <= i,
                i <= log@.len() || log@.len() == 0,
                forall|a: int, b: int| 0 <= a <= b < i && b < log@.len() ==> log@[a].timestamp <= log@[b].timestamp,
                *self == *old(self),
                old(self).wf(),
            decreases log@.len() - i,
        {
            if log[i - 1].timestamp > log[i].timestamp {
                return Err(LogError::Unsorted);
            }
            i = i + 1;
        }
        self.model.locations = filter_outliers(log, lim);
        self.update_locations();
        Ok(())
    }

    /// Replaces the photos by `photos`, then matches them against the log.
    pub fn load_photos(&mut self, photos: Vec<Photo>)
        requires
            old(self).wf(),
        ensures
            final(self).wf(),
            final(self).model.locations == old(self).model.locations,
            final(self).model.max_gap == old(self).model.max_gap,
            final(self).model.photos@.len() == photos@.len(),
            forall|k: int|
                0 <= k < photos@.len() ==> matched(
                    #[trigger] photos@[k],
                    final(self).model.photos@[k],
                    old(self).model.locations@,
                    old(self).model.max_gap,
                ),
    {
        self.model.photos = photos;
        self.update_locations();
    }

    /// Clusters the photos that have a coordinate by distance in meters.
    /// The result lists photo indices; clusters do not share photos.
    pub fn cluster_location(&self, params: &ClusterParams) -> (r: Result<Clusters, ClusterError>)
        ensures
            params.epsilon == 0 <==> r is Err,
            r matches Err(e) ==> e == ClusterError::NonPositiveEpsilon,
            r matches Ok(cl) ==> exists|items: Seq<usize>, d: Seq<Vec<u64>>| #[trigger]
                located_items(self.model.photos@, items) && #[trigger] geo_matrix(self.model.photos@, items, d)
                    && clusters_of(d, items, *params, cl),
            r matches Ok(cl) ==> disjoint(cl.members@) && members_in_range(self.model.photos@.len(), cl.members@),
    {
        let (items, points) = located(&self.model.photos);
        let d = geo_distances(&points);
        let r = cluster_items(&d, &items, params, Ghost(self.model.photos@.len()));
        proof {
            let ps = self.model.photos@;
            assert forall|i: int, j: int| 0 <= i < items@.len() && 0 <= j < items@.len() implies #[trigger] crate::dbscan::dist(d@, i, j)
                == geo_dist(ps[items@[i] as int].location.unwrap(), ps[items@[j] as int].location.unwrap()) by {
                assert(Some(points@[i]) == ps[items@[i] as int].location);
                assert(Some(points@[j]) == ps[items@[j] as int].location);
            }
            assert(located_items(ps, items@));
            assert(geo_matrix(ps, items@, d@));
        }
        r
    }

    /// Clusters the photos that have a capture time by time difference in
    /// seconds. The result lists photo indices; clusters do not share photos.
    pub fn cluster_time(&self, params: &ClusterParams) -> (r: Result<Clusters, ClusterError>)
        ensures
            params.epsilon == 0 <==> r is Err,
            r matches Err(e) ==> e == ClusterError::NonPositiveEpsilon,
            r matches Ok(cl) ==> exists|items: Seq<usize>, d: Seq<Vec<u64>>| #[trigger]
                timed_items(self.model.photos@, items) && #[trigger] time_matrix(self.model.photos@, items, d)
                    && clusters_of(d, items, *params, cl),
            r matches Ok(cl) ==> disjoint(cl.members@) && members_in_range(self.model.photos@.len(), cl.members@),
    {
        let (items, times) = timed(&self.model.photos);
        let d = time_distances(&times);
        let r = cluster_items(&d, &items, params, Ghost(self.model.photos@.len()));
        proof {
            let ps = self.model.photos@;
            assert forall|i: int, j: int| 0 <= i < items@.len() && 0 <= j < items@.len() implies #[trigger] crate::dbscan::dist(d@, i, j)
                == time_dist(ps[items@[i] as int].time.unwrap(), ps[items@[j] as int].time.unwrap()) by {
                assert(Some(times@[i]) == ps[items@[i] as int].time);
                assert(Some(times@[j]) == ps[items@[j] as int].time);
            }
            assert(timed_items(ps, items@));
            assert(time_matrix(ps, items@, d@));
        }
        r
    }
}

} // verus!
