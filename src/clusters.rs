//! Turning a partition into clusters of photos, each with its label.
use crate::photo::Photo;
use vstd::prelude::*;

verus! {

/// The items whose label is `lab`, in input order.
pub open spec fn gather(labels: Seq<Option<usize>>, items: Seq<usize>, lab: Option<usize>) -> Seq<usize>
    decreases labels.len(),
{
    if labels.len() == 0 {
        Seq::empty()
    } else {
        let r = gather(labels.drop_last(), items, lab);
        if labels.last() == lab {
            r.push(items[labels.len() - 1])
        } else {
            r
        }
    }
}

/// No item is in two of the lists.
pub open spec fn disjoint(groups: Seq<Vec<usize>>) -> bool {
    forall|a: int, b: int, s: int, t: int|
        0 <= a < groups.len() && 0 <= b < groups.len() && a != b && 0 <= s < groups[a]@.len() && 0
            <= t < groups[b]@.len() ==> #[trigger] groups[a]@[s] != #[trigger] groups[b]@[t]
}

/// Items given in strictly increasing order.
pub open spec fn increasing(items: Seq<usize>) -> bool {
    forall|s: int, t: int| 0 <= s < t < items.len() ==> items[s] < items[t]
}

/// `x` is the item at some position labelled `lab`.
pub open spec fn labelled_item(labels: Seq<Option<usize>>, items: Seq<usize>, lab: Option<usize>, x: usize) -> bool {
    exists|t: int| 0 <= t < labels.len() && labels[t] == lab && #[trigger] items[t] == x
}

pub proof fn lemma_gather_from(labels: Seq<Option<usize>>, items: Seq<usize>, lab: Option<usize>)
    requires
        labels.len() <= items.len(),
    ensures
        forall|k: int|
            0 <= k < gather(labels, items, lab).len() ==> labelled_item(
                labels,
                items,
                lab,
                #[trigger] gather(labels, items, lab)[k],
            ),
    decreases labels.len(),
{
    if labels.len() > 0 {
        let r = gather(labels.drop_last(), items, lab);
        lemma_gather_from(labels.drop_last(), items, lab);
        assert forall|k: int| 0 <= k < gather(labels, items, lab).len() implies labelled_item(
            labels,
            items,
            lab,
            #[trigger] gather(labels, items, lab)[k],
        ) by {
            if k < r.len() {
                assert(gather(labels, items, lab)[k] == r[k]);
                assert(labelled_item(labels.drop_last(), items, lab, r[k]));
                let t = choose|t: int|
                    0 <= t < labels.drop_last().len() && labels.drop_last()[t] == lab && #[trigger] items[t]
                        == r[k];
                assert(labels[t] == lab);
            } else {
                let t = labels.len() - 1;
                assert(labels[t] == lab);
                assert(gather(labels, items, lab)[k] == items[t]);
            }
        }
    }
}

/// Clusters of photos from one pass: the photo indices of each cluster, and
/// those of the photos left out as noise, each list in input order.
#[derive(Debug)]
pub struct Clusters {
    pub members: Vec<Vec<usize>>,
    pub noise: Vec<usize>,
}

/// The items whose label is `lab`, in input order (see `gather`).
pub fn collect(labels: &Vec<Option<usize>>, items: &Vec<usize>, lab: Option<usize>) -> (r: Vec<usize>)
    requires
        labels@.len() == items@.len(),
    ensures
        r@ == gather(labels@, items@, lab),
{
    let mut r: Vec<usize> = Vec::new();
    let mut t: usize = 0;
    while t < labels.len()
        invariant
            t <= labels@.len(),
            labels@.len() == items@.len(),
            r@ == gather(labels@.take(t as int), items@, lab),
        decreases labels@.len() - t,
    {
        assert(labels@.take(t as int + 1).drop_last() == labels@.take(t as int));
        if labels[t] == lab {
            r.push(items[t]);
        }
        t = t + 1;
    }
    assert(labels@.take(labels@.len() as int) == labels@);
    r
}

/// Groups items by their labels from a partition into `count` clusters.
pub fn group(labels: &Vec<Option<usize>>, count: usize, items: &Vec<usize>) -> (r: Clusters)
    requires
        labels@.len() == items@.len(),
    ensures
        r.members@.len() == count,
        forall|c: int| 0 <= c < count ==> (#[trigger] r.members@[c])@ == gather(labels@, items@, Some(c as usize)),
        r.noise@ == gather(labels@, items@, None),
        increasing(items@) ==> disjoint(r.members@),
{
    let mut members: Vec<Vec<usize>> = Vec::new();
    let mut c: usize = 0;
    while c < count
        invariant
            c <= count,
            members@.len() == c,
            labels@.len() == items@.len(),
            forall|k: int| 0 <= k < c ==> (#[trigger] members@[k])@ == gather(labels@, items@, Some(k as usize)),
        decreases count - c,
    {
        let m = collect(labels, items, Some(c));
        let ghost before = members@;
        members.push(m);
        assert forall|k: int| 0 <= k < c + 1 implies (#[trigger] members@[k])@ == gather(labels@, items@, Some(k as usize)) by {
            if k < c {
                assert(members@[k] == before[k]);
            }
        }
        c = c + 1;
    }
    let noise = collect(labels, items, None);
    proof {
        if increasing(items@) {
            assert forall|a: int, b: int, s: int, t: int|
                0 <= a < members@.len() && 0 <= b < members@.len() && a != b && 0 <= s < members@[a]@.len() && 0
                    <= t < members@[b]@.len() implies #[trigger] members@[a]@[s] != #[trigger] members@[b]@[t] by {
                lemma_gather_from(labels@, items@, Some(a as usize));
                lemma_gather_from(labels@, items@, Some(b as usize));
                let ga = gather(labels@, items@, Some(a as usize));
                let gb = gather(labels@, items@, Some(b as usize));
                assert(members@[a]@ == ga);
                assert(members@[b]@ == gb);
                assert(labelled_item(labels@, items@, Some(a as usize), ga[s]));
                assert(labelled_item(labels@, items@, Some(b as usize), gb[t]));
                let ta = choose|x: int| 0 <= x < labels@.len() && labels@[x] == Some(a as usize) && #[trigger] items@[x] == ga[s];
                let tb = choose|x: int| 0 <= x < labels@.len() && labels@[x] == Some(b as usize) && #[trigger] items@[x] == gb[t];
                if ta < tb {
                    assert(items@[ta] < items@[tb]);
                } else if tb < ta {
                    assert(items@[tb] < items@[ta]);
                }
            }
        }
    }
    Clusters { members, noise }
}

/// What a cluster is shown as.
#[derive(Clone, Copy, Debug, PartialEq, Eq)]
pub enum Label {
    /// The place name carried by this photo.
    Named(usize),
    /// The coordinate of this photo, as no place name was found for it.
    Coordinates(usize),
    /// No member has a place name or a coordinate to show.
    Unresolved,
}

/// Every member index names a photo.
pub open spec fn members_in_range(n: nat, groups: Seq<Vec<usize>>) -> bool {
    forall|c: int, t: int| 0 <= c < groups.len() && 0 <= t < groups[c]@.len() ==> #[trigger] groups[c]@[t] < n
}

/// Some member already carries a place name.
pub open spec fn has_named(photos: Seq<Photo>, m: Seq<usize>) -> bool {
    exists|t: int| 0 <= t < m.len() && (#[trigger] photos[m[t] as int]).location_name is Some
}

/// `i` is the first member, in order, that carries a place name.
pub open spec fn first_named(photos: Seq<Photo>, m: Seq<usize>, i: usize) -> bool {
    exists|t: int|
        0 <= t < m.len() && #[trigger] m[t] == i && photos[i as int].location_name is Some && forall|s: int|
            0 <= s < t ==> (#[trigger] photos[m[s] as int]).location_name is None
}

/// The photo whose coordinate is looked up for a cluster with members `m`:
/// its first member, when no member carries a place name and the first has
/// a coordinate; otherwise none.
pub open spec fn planned_lookup(photos: Seq<Photo>, m: Seq<usize>) -> Option<usize> {
    if has_named(photos, m) || m.len() == 0 || photos[m[0] as int].location is None {
        None
    } else {
        Some(m[0])
    }
}

/// The label of a cluster with members `m`, given the answer of its lookup.
pub open spec fn label_of(photos: Seq<Photo>, m: Seq<usize>, answer: Option<String>, label: Label) -> bool {
    if has_named(photos, m) {
        label matches Label::Named(i) && first_named(photos, m, i)
    } else {
        match planned_lookup(photos, m) {
            Some(i) => if answer is Some {
                label == Label::Named(i)
            } else {
                label == Label::Coordinates(i)
            },
            None => label == Label::Unresolved,
        }
    }
}

/// The first member that carries a place name.
fn find_named(photos: &Vec<Photo>, m: &Vec<usize>) -> (r: Option<usize>)
    requires
        forall|t: int| 0 <= t < m@.len() ==> #[trigger] m@[t] < photos@.len(),
    ensures
        r is None <==> !has_named(photos@, m@),
        r matches Some(i) ==> first_named(photos@, m@, i),
{
    let mut t: usize = 0;
    while t < m.len()
        invariant
            t <= m@.len(),
            forall|u: int| 0 <= u < m@.len() ==> #[trigger] m@[u] < photos@.len(),
            forall|s: int| 0 <= s < t ==> (#[trigger] photos@[m@[s] as int]).location_name is None,
        decreases m@.len() - t,
    {
        if photos[m[t]].location_name.is_some() {
            assert(m@[t as int] == m[t as int]);
            return Some(m[t]);
        }
        t = t + 1;
    }
    None
}

/// For each cluster, the photo whose coordinate is to be looked up, if any
/// (see `planned_lookup`): at most one lookup per cluster.
pub fn lookup_plan(photos: &Vec<Photo>, clusters: &Vec<Vec<usize>>) -> (r: Vec<Option<usize>>)
    requires
        members_in_range(photos@.len(), clusters@),
    ensures
        r@.len() == clusters@.len(),
        forall|c: int| 0 <= c < clusters@.len() ==> #[trigger] r@[c] == planned_lookup(photos@, clusters@[c]@),
{
    let mut r: Vec<Option<usize>> = Vec::new();
    let mut c: usize = 0;
    while c < clusters.len()
        invariant
            c <= clusters@.len(),
            r@.len() == c,
            members_in_range(photos@.len(), clusters@),
            forall|k: int| 0 <= k < c ==> #[trigger] r@[k] == planned_lookup(photos@, clusters@[k]@),
        decreases clusters@.len() - c,
    {
        let m = &clusters[c];
        assert(forall|t: int| 0 <= t < m@.len() ==> #[trigger] m@[t] < photos@.len());
        let named = find_named(photos, m);
        let p: Option<usize> = if named.is_some() || m.len() == 0 {
            None
        } else if photos[m[0]].location.is_none() {
            None
        } else {
            Some(m[0])
        };
        r.push(p);
        c = c + 1;
    }
    r
}

/// Photo `x` is the lookup of some cluster whose answer named a place.
pub open spec fn written(photos: Seq<Photo>, clusters: Seq<Vec<usize>>, answers: Seq<Option<String>>, x: int, upto: int) -> bool {
    exists|c: int| 0 <= c < upto && #[trigger] planned_lookup(photos, clusters[c]@) == Some(x as usize) && answers[c] is Some
}

/// `after` is `before` with each place name found by a lookup stored on the
/// photo that was looked up, for the clusters before `upto`.
pub open spec fn names_cached(
    before: Seq<Photo>,
    after: Seq<Photo>,
    clusters: Seq<Vec<usize>>,
    answers: Seq<Option<String>>,
    upto: int,
) -> bool {
    &&& after.len() == before.len()
    &&& forall|c: int|
        0 <= c < upto && (#[trigger] planned_lookup(before, clusters[c]@)) is Some && answers[c] is Some ==> {
            let x = planned_lookup(before, clusters[c]@).unwrap() as int;
            &&& after[x].location_name == answers[c]
            &&& after[x].path == before[x].path
            &&& after[x].time == before[x].time
            &&& after[x].location == before[x].location
        }
    &&& forall|x: int| 0 <= x < before.len() && !written(before, clusters, answers, x, upto) ==> #[trigger] after[x] == before[x]
}

proof fn lemma_same_on_members(xs: Seq<Photo>, ys: Seq<Photo>, m: Seq<usize>)
    requires
        xs.len() == ys.len(),
        forall|t: int| 0 <= t < m.len() ==> #[trigger] m[t] < xs.len() && xs[m[t] as int] == ys[m[t] as int],
    ensures
        has_named(xs, m) == has_named(ys, m),
        planned_lookup(xs, m) == planned_lookup(ys, m),
        forall|i: usize| first_named(xs, m, i) == #[trigger] first_named(ys, m, i),
{
    if has_named(xs, m) {
        let t = choose|t: int| 0 <= t < m.len() && (#[trigger] xs[m[t] as int]).location_name is Some;
        assert(ys[m[t] as int] == xs[m[t] as int]);
    }
    if has_named(ys, m) {
        let t = choose|t: int| 0 <= t < m.len() && (#[trigger] ys[m[t] as int]).location_name is Some;
        assert(ys[m[t] as int] == xs[m[t] as int]);
    }
    if m.len() > 0 {
        assert(xs[m[0] as int] == ys[m[0] as int]);
    }
    assert forall|i: usize| first_named(xs, m, i) == #[trigger] first_named(ys, m, i) by {
        if first_named(xs, m, i) {
            let t = choose|t: int|
                0 <= t < m.len() && #[trigger] m[t] == i && xs[i as int].location_name is Some && forall|s: int|
                    0 <= s < t ==> (#[trigger] xs[m[s] as int]).location_name is None;
            assert forall|s: int| 0 <= s < t implies (#[trigger] ys[m[s] as int]).location_name is None by {
                assert(xs[m[s] as int] == ys[m[s] as int]);
            }
            assert(xs[m[t] as int] == ys[m[t] as int]);
        }
        if first_named(ys, m, i) {
            let t = choose|t: int|
                0 <= t < m.len() && #[trigger] m[t] == i && ys[i as int].location_name is Some && forall|s: int|
                    0 <= s < t ==> (#[trigger] ys[m[s] as int]).location_name is None;
            assert forall|s: int| 0 <= s < t implies (#[trigger] xs[m[s] as int]).location_name is None by {
                assert(xs[m[s] as int] == ys[m[s] as int]);
            }
            assert(xs[m[t] as int] == ys[m[t] as int]);
        }
    }
}

/// Stores a place name on photo `i`.
fn store_name(photos: &mut Vec<Photo>, i: usize, name: String)
    requires
        i < old(photos)@.len(),
    ensures
        final(photos)@.len() == old(photos)@.len(),
        final(photos)@[i as int].location_name == Some(name),
        final(photos)@[i as int].path == old(photos)@[i as int].path,
        final(photos)@[i as int].time == old(photos)@[i as int].time,
        final(photos)@[i as int].location == old(photos)@[i as int].location,
        forall|x: int| 0 <= x < old(photos)@.len() && x != i ==> #[trigger] final(photos)@[x] == old(photos)@[x],
{
    photos[i].location_name = Some(name);
}

/// Labels each cluster (see `label_of`): by the first place name that a
/// member carries; else by the answer to the cluster's lookup, which is then
/// stored on the photo looked up; else by that photo's coordinate; and
/// `Unresolved` when there is nothing to show. `answers` holds, for each
/// cluster, the place name its lookup found; it is read only for clusters
/// with a planned lookup (see `lookup_plan`).
pub fn resolve_labels(photos: &mut Vec<Photo>, clusters: &Vec<Vec<usize>>, answers: &Vec<Option<String>>) -> (r: Vec<Label>)
    requires
        members_in_range(old(photos)@.len(), clusters@),
        disjoint(clusters@),
        answers@.len() == clusters@.len(),
    ensures
        r@.len() == clusters@.len(),
        forall|c: int| 0 <= c < clusters@.len() ==> label_of(old(photos)@, clusters@[c]@, answers@[c], #[trigger] r@[c]),
        names_cached(old(photos)@, final(photos)@, clusters@, answers@, clusters@.len() as int),
{
    let ghost before = photos@;
    let mut r: Vec<Label> = Vec::new();
    let mut c: usize = 0;
    while c < clusters.len()
        invariant
            c <= clusters@.len(),
            r@.len() == c,
            members_in_range(before.len(), clusters@),
            disjoint(clusters@),
            answers@.len() == clusters@.len(),
            names_cached(before, photos@, clusters@, answers@, c as int),
            forall|k: int| 0 <= k < c ==> label_of(before, clusters@[k]@, answers@[k], #[trigger] r@[k]),
        decreases clusters@.len() - c,
    {
        let m = &clusters[c];
        proof {
            assert forall|t: int| 0 <= t < m@.len() implies #[trigger] m@[t] < before.len() && before[m@[t] as int] == photos@[m@[t] as int] by {
                let x = m@[t] as int;
                assert(clusters@[c as int]@[t] < before.len());
                if written(before, clusters@, answers@, x, c as int) {
                    let c2 = choose|c2: int| 0 <= c2 < c && #[trigger] planned_lookup(before, clusters@[c2]@) == Some(x as usize) && answers@[c2] is Some;
                    assert(clusters@[c2]@.len() > 0);
                    assert(clusters@[c2]@[0] == x);
                    assert(clusters@[c2]@[0] != clusters@[c as int]@[t]);
                }
            }
            lemma_same_on_members(before, photos@, m@);
        }
        let named = find_named(photos, m);
        let label = match named {
            Some(i) => Label::Named(i),
            None => {
                if m.len() == 0 {
                    Label::Unresolved
                } else if photos[m[0]].location.is_none() {
                    Label::Unresolved
                } else {
                    let i = m[0];
                    match &answers[c] {
                        Some(s) => {
                            let ghost current = photos@;
                            store_name(photos, i, s.clone());
                            proof {
                                assert forall|x: int| 0 <= x < before.len() && !written(before, clusters@, answers@, x, c + 1)
                                    implies #[trigger] photos@[x] == before[x] by {
                                    assert(!written(before, clusters@, answers@, x, c as int));
                                    assert(current[x] == before[x]);
                                    if x == i {
                                        assert(planned_lookup(before, clusters@[c as int]@) == Some(i));
                                    }
                                }
                                assert forall|k: int| 0 <= k < c + 1 && (#[trigger] planned_lookup(before, clusters@[k]@)) is Some && answers@[k] is Some implies {
                                    let x = planned_lookup(before, clusters@[k]@).unwrap() as int;
                                    &&& photos@[x].location_name == answers@[k]
                                    &&& photos@[x].path == before[x].path
                                    &&& photos@[x].time == before[x].time
                                    &&& photos@[x].location == before[x].location
                                } by {
                                    if k < c {
                                        let x = planned_lookup(before, clusters@[k]@).unwrap() as int;
                                        assert(clusters@[k]@[0] == x);
                                        assert(m@[0] == i);
                                        assert(clusters@[k]@[0] != clusters@[c as int]@[0]);
                                    }
                                }
                            }
                            Label::Named(i)
                        },
                        None => Label::Coordinates(i),
                    }
                }
            },
        };
        proof {
            if !(answers@[c as int] is Some && planned_lookup(before, m@) is Some) {
                assert forall|x: int| 0 <= x < before.len() && !written(before, clusters@, answers@, x, c + 1)
                    implies #[trigger] photos@[x] == before[x] by {
                    assert(!written(before, clusters@, answers@, x, c as int));
                }
            }
        }
        r.push(label);
        assert forall|k: int| 0 <= k < c + 1 implies label_of(before, clusters@[k]@, answers@[k], #[trigger] r@[k]) by {
            if k == c {
                assert(r@[k] == label);
            }
        }
        c = c + 1;
    }
    r
}

} // verus!
