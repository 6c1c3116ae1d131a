//! Clusters of foreground points and the people that are followed from scan to scan.
//!
//! A cluster that was once taken for a human stays one for as long as some cluster keeps appearing
//! near the place where it was last seen.

use crate::calibration::lemma_filter_multiset;
use crate::double::{Double, Point, ZERO};
use vstd::prelude::*;

verus! {

/// What the classifier looks at in a cluster.
#[derive(Clone, Copy, Debug, PartialEq, Eq, Structural)]
pub struct Features {
    pub width: Double,
    pub depth: Double,
    pub curvature: Double,
    pub point_count: Double,
}

/// A group of neighbouring foreground points.
#[derive(Debug, PartialEq, Eq)]
pub struct Cluster {
    pub centroid: Point,
    pub is_human: bool,
    pub features: Features,
    pub points: Vec<Point>,
}

/// A cluster marked as human.
pub open spec fn human() -> spec_fn(Cluster) -> bool {
    |c: Cluster| c.is_human
}

/// The last known place of a human and for how many scans in a row nothing was seen there.
#[derive(Clone, Copy, Debug, PartialEq, Eq, Structural)]
pub struct HumanTrack {
    pub centroid: Point,
    pub missed: u32,
}

/// The bits of 0.40: how far, in metres, a human may move between two scans.
pub const TRACK_MATCH: u64 = 0x3fd9_9999_9999_999a;

/// For how many scans in a row a human may go unseen.
pub const TRACK_TTL_SCANS: u32 = 30;

/// A distance that a human can have moved between two scans.
pub open spec fn in_reach(d: Double) -> bool {
    d.le(Double { bits: TRACK_MATCH })
}

/// Track `t` can be matched: it is not yet, and its distance is in reach.
pub open spec fn candidate(row: Seq<Double>, matched: Seq<bool>, t: int) -> bool {
    0 <= t < matched.len() && !matched[t] && in_reach(row[t])
}

/// The nearest of the first `n` tracks that can be matched, and of equally near ones the first.
/// `row[t]` is the distance of track `t`.
pub open spec fn nearest(row: Seq<Double>, matched: Seq<bool>, n: int) -> Option<int>
    decreases n,
{
    if n <= 0 {
        None
    } else {
        match nearest(row, matched, n - 1) {
            Some(best) => if candidate(row, matched, n - 1) && row[n - 1].lt(row[best]) {
                Some(n - 1)
            } else {
                Some(best)
            },
            None => if candidate(row, matched, n - 1) {
                Some(n - 1)
            } else {
                None
            },
        }
    }
}

/// The tracks, which of them were matched in this scan, and the clusters.
pub struct Matching {
    pub tracks: Seq<HumanTrack>,
    pub matched: Seq<bool>,
    pub clusters: Seq<Cluster>,
}

/// A track of something just seen at `centroid`.
pub open spec fn seen_at(centroid: Point) -> HumanTrack {
    HumanTrack { centroid, missed: 0 }
}

/// What cluster `k` does to a matching: it takes the nearest track in reach and is a human from
/// then on; if there is none, it starts a track of its own if it is a human.
pub open spec fn match_cluster(m: Matching, row: Seq<Double>, k: int) -> Matching {
    let c = m.clusters[k];
    match nearest(row, m.matched, m.matched.len() as int) {
        Some(t) => Matching {
            tracks: m.tracks.update(t, seen_at(c.centroid)),
            matched: m.matched.update(t, true),
            clusters: m.clusters.update(k, Cluster { is_human: true, ..c }),
        },
        None => if c.is_human {
            Matching {
                tracks: m.tracks.push(seen_at(c.centroid)),
                matched: m.matched.push(true),
                clusters: m.clusters,
            }
        } else {
            m
        },
    }
}

/// The matching after the first `k` clusters have been served in turn. `distance[c][t]` is the
/// distance between cluster `c` and track `t` before the scan.
pub open spec fn matching(
    tracks: Seq<HumanTrack>,
    clusters: Seq<Cluster>,
    distance: Seq<Vec<Double>>,
    k: int,
) -> Matching
    decreases k,
{
    if k <= 0 {
        Matching { tracks, matched: Seq::new(tracks.len(), |t: int| false), clusters }
    } else {
        match_cluster(
            matching(tracks, clusters, distance, k - 1),
            distance[k - 1]@,
            k - 1,
        )
    }
}

/// A track after a scan in which it was matched or not.
pub open spec fn aged(t: HumanTrack, matched: bool) -> HumanTrack {
    if matched {
        t
    } else {
        HumanTrack { missed: (t.missed + 1) as u32, ..t }
    }
}

/// `s` with its last element in the place of element `i`.
pub open spec fn swap_removed<A>(s: Seq<A>, i: int) -> Seq<A> {
    s.update(i, s.last()).drop_last()
}

/// The tracks from `i` on aged, those unseen for too long taken out. The last track takes the
/// place of one that is taken out.
pub open spec fn expire(tracks: Seq<HumanTrack>, matched: Seq<bool>, i: int) -> Seq<HumanTrack>
    decreases tracks.len() - i,
{
    if i < 0 || i >= tracks.len() {
        tracks
    } else {
        let t = aged(tracks[i], matched[i]);
        if t.missed > TRACK_TTL_SCANS {
            expire(swap_removed(tracks.update(i, t), i), swap_removed(matched, i), i)
        } else {
            expire(tracks.update(i, t), matched, i + 1)
        }
    }
}

/// The tracks after a scan.
pub open spec fn tracks_after(
    tracks: Seq<HumanTrack>,
    clusters: Seq<Cluster>,
    distance: Seq<Vec<Double>>,
) -> Seq<HumanTrack> {
    let m = matching(tracks, clusters, distance, clusters.len() as int);
    expire(m.tracks, m.matched, 0)
}

/// The clusters of a scan, with those that were matched marked as human.
pub open spec fn clusters_after(
    tracks: Seq<HumanTrack>,
    clusters: Seq<Cluster>,
    distance: Seq<Vec<Double>>,
) -> Seq<Cluster> {
    matching(tracks, clusters, distance, clusters.len() as int).clusters
}

/// No track has been unseen for as long as can be counted.
pub open spec fn countable(tracks: Seq<HumanTrack>) -> bool {
    forall|t: int| 0 <= t < tracks.len() ==> (#[trigger] tracks[t]).missed < u32::MAX
}

/// Finds the nearest track in reach for one cluster.
fn find_nearest(row: &Vec<Double>, matched: &Vec<bool>) -> (best: Option<usize>)
    requires
        forall|t: int| row@.len() <= t < matched@.len() ==> matched@[t],
    ensures
        match nearest(row@, matched@, matched@.len() as int) {
            Some(t) => best matches Some(b) && b == t && t < matched@.len() && t < row@.len(),
            None => best is None,
        },
{
    let limit: Double = Double { bits: TRACK_MATCH };
    let mut best: Option<usize> = None;
    let mut ti: usize = 0;
    while ti < matched.len()
        invariant
            ti <= matched@.len(),
            limit == (Double { bits: TRACK_MATCH }),
            forall|t: int| row@.len() <= t < matched@.len() ==> matched@[t],
            match nearest(row@, matched@, ti as int) {
                Some(t) => best matches Some(b) && b == t && t < ti && t < row@.len(),
                None => best is None,
            },
        decreases matched@.len() - ti,
    {
        if !matched[ti] {
            let d: Double = row[ti];
            let nearer: bool = match best {
                Some(b) => d.less_than(row[b]),
                None => true,
            };
            if d.at_most(limit) && nearer {
                best = Some(ti);
            }
        }
        ti += 1;
    }
    best
}

/// Every matching has one flag per track and as many clusters as there were.
proof fn lemma_matching_shape(
    tracks: Seq<HumanTrack>,
    clusters: Seq<Cluster>,
    distance: Seq<Vec<Double>>,
    k: int,
)
    requires
        0 <= k <= clusters.len(),
        countable(tracks),
    ensures
        ({
            let m = matching(tracks, clusters, distance, k);
            &&& m.matched.len() == m.tracks.len()
            &&& m.tracks.len() >= tracks.len()
            &&& m.clusters.len() == clusters.len()
            &&& countable(m.tracks)
            &&& forall|t: int| tracks.len() <= t < m.matched.len() ==> #[trigger] m.matched[t]
        }),
    decreases k,
{
    if k > 0 {
        lemma_matching_shape(tracks, clusters, distance, k - 1);
        let m = matching(tracks, clusters, distance, k - 1);
        lemma_nearest_range(distance[k - 1]@, m.matched, m.matched.len() as int);
    }
}

/// What `nearest` finds is one of the tracks asked about, and can be matched.
proof fn lemma_nearest_range(row: Seq<Double>, matched: Seq<bool>, n: int)
    requires
        n <= matched.len(),
    ensures
        nearest(row, matched, n) matches Some(t) ==> 0 <= t < n && candidate(row, matched, t),
    decreases n,
{
    if n > 0 {
        lemma_nearest_range(row, matched, n - 1);
    }
}

/// Matches the clusters of a scan with the tracks, marks those that were matched as human, starts
/// a track for every other human, and drops the tracks that have been unseen for too long.
///
/// `distance[c][t]` is the distance between the centroids of cluster `c` and track `t`.
pub fn update_tracks(
    tracks: &mut Vec<HumanTrack>,
    clusters: &mut Vec<Cluster>,
    distance: &Vec<Vec<Double>>,
)
    requires
        distance@.len() == old(clusters)@.len(),
        forall|c: int|
            0 <= c < distance@.len() ==> (#[trigger] distance@[c])@.len() == old(tracks)@.len(),
        countable(old(tracks)@),
    ensures
        final(tracks)@ == tracks_after(old(tracks)@, old(clusters)@, distance@),
        final(clusters)@ == clusters_after(old(tracks)@, old(clusters)@, distance@),
{
    let known: usize = tracks.len();
    let mut matched: Vec<bool> = Vec::new();
    while matched.len() < known
        invariant
            matched@.len() <= known,
            forall|t: int| 0 <= t < matched@.len() ==> !(#[trigger] matched@[t]),
        decreases known - matched@.len(),
    {
        matched.push(false);
    }
    assert(matched@ =~= matching(tracks@, clusters@, distance@, 0).matched);
    let mut ci: usize = 0;
    while ci < clusters.len()
        invariant
            ci <= clusters@.len(),
            clusters@.len() == old(clusters)@.len(),
            distance@.len() == old(clusters)@.len(),
            forall|c: int|
                0 <= c < distance@.len() ==> (#[trigger] distance@[c])@.len()
                    == old(tracks)@.len(),
            countable(old(tracks)@),
            tracks@ == matching(
                old(tracks)@,
                old(clusters)@,
                distance@,
                ci as int,
            ).tracks,
            matched@ == matching(
                old(tracks)@,
                old(clusters)@,
                distance@,
                ci as int,
            ).matched,
            clusters@ == matching(
                old(tracks)@,
                old(clusters)@,
                distance@,
                ci as int,
            ).clusters,
        decreases clusters@.len() - ci,
    {
        proof {
            lemma_matching_shape(old(tracks)@, old(clusters)@, distance@, ci as int);
        }
        let ghost m = matching(old(tracks)@, old(clusters)@, distance@, ci as int);
        let ghost next = matching(old(tracks)@, old(clusters)@, distance@, ci + 1);
        assert(next == match_cluster(m, distance@[ci as int]@, ci as int));
        let centroid: Point = clusters[ci].centroid;
        match find_nearest(&distance[ci], &matched) {
            Some(ti) => {
                matched.set(ti, true);
                tracks.set(ti, HumanTrack { centroid, missed: 0 });
                clusters[ci].is_human = true;
                assert(clusters@ =~= next.clusters);
            },
            None => {
                if clusters[ci].is_human {
                    tracks.push(HumanTrack { centroid, missed: 0 });
                    matched.push(true);
                }
            },
        }
        ci += 1;
    }
    proof {
        lemma_matching_shape(old(tracks)@, old(clusters)@, distance@, ci as int);
    }
    let ghost m = matching(old(tracks)@, old(clusters)@, distance@, ci as int);
    let mut i: usize = 0;
    while i < tracks.len()
        invariant
            i <= tracks@.len(),
            matched@.len() == tracks@.len(),
            forall|t: int| i <= t < tracks@.len() ==> (#[trigger] tracks@[t]).missed < u32::MAX,
            expire(m.tracks, m.matched, 0) == expire(tracks@, matched@, i as int),
        decreases tracks@.len() - i,
    {
        let ghost all = tracks@;
        let ghost flags = matched@;
        if !matched[i] {
            tracks[i].missed += 1;
        }
        assert(tracks@ =~= all.update(i as int, aged(all[i as int], flags[i as int])));
        if tracks[i].missed > TRACK_TTL_SCANS {
            let ghost older = tracks@;
            tracks.swap_remove(i);
            matched.swap_remove(i);
            assert(tracks@ == swap_removed(older, i as int));
            assert(matched@ == swap_removed(flags, i as int));
        } else {
            i += 1;
        }
    }
}

/// `nearest` finds a track whenever one can be matched. It finds one that can, no other that can
/// is nearer, and every earlier one that can is further away.
pub proof fn lemma_nearest_is_first_minimum(row: Seq<Double>, matched: Seq<bool>, n: int)
    requires
        0 <= n <= matched.len(),
    ensures
        match nearest(row, matched, n) {
            Some(t) => {
                &&& 0 <= t < n
                &&& candidate(row, matched, t)
                &&& forall|u: int|
                    0 <= u < n && #[trigger] candidate(row, matched, u) ==> row[t].le(row[u])
                &&& forall|u: int|
                    0 <= u < t && #[trigger] candidate(row, matched, u) ==> row[t].lt(row[u])
            },
            None => forall|u: int| 0 <= u < n ==> !#[trigger] candidate(row, matched, u),
        },
    decreases n,
{
    if n > 0 {
        lemma_nearest_is_first_minimum(row, matched, n - 1);
    }
}

/// Serving further clusters keeps every match that was made: a matched track is not matched again
/// and stays where it was seen. Clusters that have not been served are as they were.
proof fn lemma_matches_last(
    tracks: Seq<HumanTrack>,
    clusters: Seq<Cluster>,
    distance: Seq<Vec<Double>>,
    j: int,
    k: int,
)
    requires
        0 <= j <= k <= clusters.len(),
        countable(tracks),
    ensures
        ({
            let m = matching(tracks, clusters, distance, j);
            let n = matching(tracks, clusters, distance, k);
            &&& m.tracks.len() <= n.tracks.len()
            &&& forall|t: int|
                0 <= t < m.matched.len() && m.matched[t] ==> (#[trigger] n.matched[t])
                    && n.tracks[t] == m.tracks[t]
            &&& forall|c: int| 0 <= c < j || k <= c < clusters.len() ==> #[trigger] n.clusters[c]
                == m.clusters[c]
        }),
    decreases k,
{
    if j < k {
        lemma_matches_last(tracks, clusters, distance, j, k - 1);
        lemma_matching_shape(tracks, clusters, distance, j);
        lemma_matching_shape(tracks, clusters, distance, k - 1);
        let n = matching(tracks, clusters, distance, k - 1);
        lemma_nearest_range(distance[k - 1]@, n.matched, n.matched.len() as int);
    }
}

/// A track is matched by one cluster of a scan at most: the track that cluster `j` takes is not
/// taken by a later cluster `k`.
pub proof fn lemma_track_taken_once(
    tracks: Seq<HumanTrack>,
    clusters: Seq<Cluster>,
    distance: Seq<Vec<Double>>,
    j: int,
    k: int,
)
    requires
        0 <= j < k < clusters.len(),
        countable(tracks),
    ensures
        ({
            let m = matching(tracks, clusters, distance, j);
            let n = matching(tracks, clusters, distance, k);
            let first = nearest(distance[j]@, m.matched, m.matched.len() as int);
            let second = nearest(distance[k]@, n.matched, n.matched.len() as int);
            first is Some ==> first != second
        }),
{
    let m = matching(tracks, clusters, distance, j);
    let n = matching(tracks, clusters, distance, k);
    lemma_matching_shape(tracks, clusters, distance, j);
    lemma_nearest_range(distance[j]@, m.matched, m.matched.len() as int);
    lemma_nearest_range(distance[k]@, n.matched, n.matched.len() as int);
    lemma_matches_last(tracks, clusters, distance, j + 1, k);
}

/// A scan changes nothing in a cluster but the human mark, and never takes a mark away. Cluster
/// `k` is marked afterwards exactly if it was before or a track can be matched when its turn comes.
pub proof fn lemma_human_marks(
    tracks: Seq<HumanTrack>,
    clusters: Seq<Cluster>,
    distance: Seq<Vec<Double>>,
    k: int,
)
    requires
        0 <= k < clusters.len(),
        countable(tracks),
    ensures
        clusters_after(tracks, clusters, distance).len() == clusters.len(),
        ({
            let before = clusters[k];
            let after = clusters_after(tracks, clusters, distance)[k];
            let matched = matching(tracks, clusters, distance, k).matched;
            &&& after == Cluster { is_human: after.is_human, ..before }
            &&& after.is_human == (before.is_human || exists|t: int| #[trigger]
                candidate(distance[k]@, matched, t))
        }),
{
    let all = clusters.len() as int;
    let m = matching(tracks, clusters, distance, k);
    lemma_matching_shape(tracks, clusters, distance, k);
    lemma_matching_shape(tracks, clusters, distance, all);
    lemma_matches_last(tracks, clusters, distance, 0, k);
    lemma_matches_last(tracks, clusters, distance, k + 1, all);
    lemma_nearest_is_first_minimum(distance[k]@, m.matched, m.matched.len() as int);
    assert(matching(tracks, clusters, distance, 0).clusters[k] == clusters[k]);
}

/// There are as many clusters after a scan as before.
pub proof fn lemma_clusters_len(
    tracks: Seq<HumanTrack>,
    clusters: Seq<Cluster>,
    distance: Seq<Vec<Double>>,
)
    requires
        countable(tracks),
    ensures
        clusters_after(tracks, clusters, distance).len() == clusters.len(),
{
    lemma_matching_shape(tracks, clusters, distance, clusters.len() as int);
}

/// A track that no earlier cluster can take is not matched when the turn of cluster `k` comes.
proof fn lemma_out_of_reach_stays_unmatched(
    tracks: Seq<HumanTrack>,
    clusters: Seq<Cluster>,
    distance: Seq<Vec<Double>>,
    k: int,
    t: int,
)
    requires
        0 <= k <= clusters.len(),
        0 <= t < tracks.len(),
        countable(tracks),
        forall|c: int| 0 <= c < k ==> !in_reach((#[trigger] distance[c])@[t]),
    ensures
        !matching(tracks, clusters, distance, k).matched[t],
    decreases k,
{
    if k > 0 {
        lemma_out_of_reach_stays_unmatched(tracks, clusters, distance, k - 1, t);
        lemma_matching_shape(tracks, clusters, distance, k - 1);
        let m = matching(tracks, clusters, distance, k - 1);
        lemma_nearest_range(distance[k - 1]@, m.matched, m.matched.len() as int);
        assert(!in_reach(distance[k - 1]@[t]));
    }
}

/// Once a human, always a human, while something keeps appearing nearby: the first cluster of a
/// scan that is in reach of a track is marked as human.
pub proof fn lemma_human_stays_human(
    tracks: Seq<HumanTrack>,
    clusters: Seq<Cluster>,
    distance: Seq<Vec<Double>>,
    k: int,
    t: int,
)
    requires
        0 <= k < clusters.len(),
        0 <= t < tracks.len(),
        countable(tracks),
        in_reach(distance[k]@[t]),
        forall|c: int| 0 <= c < k ==> !in_reach((#[trigger] distance[c])@[t]),
    ensures
        clusters_after(tracks, clusters, distance)[k].is_human,
{
    lemma_human_marks(tracks, clusters, distance, k);
    lemma_out_of_reach_stays_unmatched(tracks, clusters, distance, k, t);
    lemma_matching_shape(tracks, clusters, distance, k);
    let matched = matching(tracks, clusters, distance, k).matched;
    assert(candidate(distance[k]@, matched, t));
}

/// The tracks of a scan, each aged by whether it was matched.
pub open spec fn all_aged(tracks: Seq<HumanTrack>, matched: Seq<bool>) -> Seq<HumanTrack> {
    Seq::new(tracks.len(), |t: int| aged(tracks[t], matched[t]))
}

/// The tracks that have not been unseen for too long.
pub open spec fn kept() -> spec_fn(HumanTrack) -> bool {
    |t: HumanTrack| t.missed <= TRACK_TTL_SCANS
}

/// Putting the last element of a sequence in the place of one that is taken out leaves the rest,
/// in another order.
proof fn lemma_swap_removed_rest<A>(s: Seq<A>, i: int)
    requires
        0 <= i < s.len(),
    ensures
        swap_removed(s, i).skip(i).to_multiset() == s.skip(i + 1).to_multiset(),
        swap_removed(s, i).take(i) == s.take(i),
{
    let rest = s.skip(i + 1);
    let got = swap_removed(s, i).skip(i);
    assert(swap_removed(s, i).take(i) =~= s.take(i));
    if i == s.len() - 1 {
        assert(got =~= rest);
    } else {
        assert(got =~= seq![rest.last()] + rest.drop_last());
        assert(rest =~= rest.drop_last() + seq![rest.last()]);
        vstd::seq_lib::lemma_multiset_commutative(seq![rest.last()], rest.drop_last());
        vstd::seq_lib::lemma_multiset_commutative(rest.drop_last(), seq![rest.last()]);
        assert(got.to_multiset() =~= rest.to_multiset());
    }
}

proof fn lemma_expire_from(tracks: Seq<HumanTrack>, matched: Seq<bool>, i: int)
    requires
        0 <= i <= tracks.len(),
        matched.len() == tracks.len(),
    ensures
        expire(tracks, matched, i).to_multiset() == tracks.take(i).to_multiset().add(
            all_aged(tracks, matched).skip(i).to_multiset().filter(kept()),
        ),
    decreases tracks.len() - i,
{
    broadcast use {
        vstd::multiset::group_multiset_axioms,
        vstd::seq_lib::group_to_multiset_ensures,
    };

    let rest = all_aged(tracks, matched).skip(i);
    if i == tracks.len() {
        assert(tracks.take(i) =~= tracks);
        assert(rest =~= Seq::empty());
        assert(rest.to_multiset().filter(kept()) =~= vstd::multiset::Multiset::empty());
        assert(expire(tracks, matched, i).to_multiset() =~= tracks.take(i).to_multiset().add(
            rest.to_multiset().filter(kept()),
        ));
    } else {
        let t = aged(tracks[i], matched[i]);
        let next = all_aged(tracks, matched).skip(i + 1);
        assert(rest =~= seq![t] + next);
        vstd::seq_lib::lemma_multiset_commutative(seq![t], next);
        assert(seq![t] =~= Seq::empty().push(t));
        assert(rest.to_multiset() =~= next.to_multiset().insert(t));
        let older = tracks.update(i, t);
        if t.missed > TRACK_TTL_SCANS {
            let tracks2 = swap_removed(older, i);
            let matched2 = swap_removed(matched, i);
            lemma_expire_from(tracks2, matched2, i);
            let s = Seq::new(
                tracks.len(),
                |k: int|
                    if k == i {
                        t
                    } else {
                        aged(tracks[k], matched[k])
                    },
            );
            assert(all_aged(tracks2, matched2).skip(i) =~= swap_removed(s, i).skip(i));
            lemma_swap_removed_rest(s, i);
            assert(s.skip(i + 1) =~= next);
            lemma_swap_removed_rest(older, i);
            assert(older.take(i) =~= tracks.take(i));
            assert(rest.to_multiset().filter(kept()) =~= next.to_multiset().filter(kept()));
        } else {
            lemma_expire_from(older, matched, i + 1);
            assert(all_aged(older, matched).skip(i + 1) =~= next);
            assert(older.take(i + 1) =~= tracks.take(i).push(t));
            assert(rest.to_multiset().filter(kept()) =~= next.to_multiset().filter(kept()).insert(
                t,
            ));
            assert(expire(tracks, matched, i).to_multiset() =~= tracks.take(i).to_multiset().add(
                rest.to_multiset().filter(kept()),
            ));
        }
    }
}

/// The tracks that are left after a scan are, in some order, those of the matching, aged, that
/// have not been unseen for more than `TRACK_TTL_SCANS` scans.
pub proof fn lemma_survivors(tracks: Seq<HumanTrack>, matched: Seq<bool>)
    requires
        matched.len() == tracks.len(),
    ensures
        expire(tracks, matched, 0).to_multiset() == all_aged(tracks, matched).to_multiset().filter(
            kept(),
        ),
{
    broadcast use {
        vstd::multiset::group_multiset_axioms,
        vstd::seq_lib::group_to_multiset_ensures,
    };

    lemma_expire_from(tracks, matched, 0);
    assert(all_aged(tracks, matched).skip(0) =~= all_aged(tracks, matched));
    assert(tracks.take(0) =~= Seq::empty());
    assert(expire(tracks, matched, 0).to_multiset() =~= all_aged(
        tracks,
        matched,
    ).to_multiset().filter(kept()));
}

/// A track is left after a scan exactly if it is an aged track of the matching that has not been
/// unseen for too long.
proof fn lemma_survivor(tracks: Seq<HumanTrack>, matched: Seq<bool>, t: HumanTrack)
    requires
        matched.len() == tracks.len(),
    ensures
        expire(tracks, matched, 0).contains(t) <==> t.missed <= TRACK_TTL_SCANS && all_aged(
            tracks,
            matched,
        ).contains(t),
{
    broadcast use {
        vstd::multiset::group_multiset_axioms,
        vstd::seq_lib::group_to_multiset_ensures,
    };

    lemma_survivors(tracks, matched);
    let left = expire(tracks, matched, 0);
    assert(left.contains(t) <==> left.to_multiset().count(t) > 0);
    assert(all_aged(tracks, matched).contains(t) <==> all_aged(
        tracks,
        matched,
    ).to_multiset().count(t) > 0);
    assert(left.to_multiset().count(t) == all_aged(tracks, matched).to_multiset().filter(
        kept(),
    ).count(t));
}

/// No track that is left after a scan has been unseen for more than `TRACK_TTL_SCANS` scans.
pub proof fn lemma_tracks_stay_fresh(
    tracks: Seq<HumanTrack>,
    clusters: Seq<Cluster>,
    distance: Seq<Vec<Double>>,
)
    requires
        countable(tracks),
    ensures
        forall|t: int|
            0 <= t < tracks_after(tracks, clusters, distance).len() ==> (
            #[trigger] tracks_after(tracks, clusters, distance)[t]).missed <= TRACK_TTL_SCANS,
        countable(tracks_after(tracks, clusters, distance)),
{
    let m = matching(tracks, clusters, distance, clusters.len() as int);
    let after = tracks_after(tracks, clusters, distance);
    lemma_matching_shape(tracks, clusters, distance, clusters.len() as int);
    assert forall|t: int| 0 <= t < after.len() implies (#[trigger] after[t]).missed
        <= TRACK_TTL_SCANS by {
        lemma_survivor(m.tracks, m.matched, after[t]);
        assert(after.contains(after[t]));
    }
}

/// The track of cluster `k` once it has been served and is a human: the one it took or started.
proof fn lemma_served(m: Matching, row: Seq<Double>, k: int) -> (t: int)
    requires
        m.matched.len() == m.tracks.len(),
        0 <= k < m.clusters.len(),
        match_cluster(m, row, k).clusters[k].is_human,
    ensures
        0 <= t < match_cluster(m, row, k).tracks.len(),
        match_cluster(m, row, k).matched[t],
        match_cluster(m, row, k).tracks[t] == seen_at(m.clusters[k].centroid),
{
    lemma_nearest_range(row, m.matched, m.matched.len() as int);
    match nearest(row, m.matched, m.matched.len() as int) {
        Some(t) => t,
        None => m.tracks.len() as int,
    }
}

/// Every human of a scan is followed: there is a track that has just been seen where it is.
#[verifier::spinoff_prover]
pub proof fn lemma_humans_are_tracked(
    tracks: Seq<HumanTrack>,
    clusters: Seq<Cluster>,
    distance: Seq<Vec<Double>>,
    k: int,
)
    requires
        0 <= k < clusters.len(),
        countable(tracks),
        clusters_after(tracks, clusters, distance)[k].is_human,
    ensures
        tracks_after(tracks, clusters, distance).contains(seen_at(clusters[k].centroid)),
{
    let all = clusters.len() as int;
    let seen = seen_at(clusters[k].centroid);
    let m = matching(tracks, clusters, distance, k);
    let next = matching(tracks, clusters, distance, k + 1);
    let end = matching(tracks, clusters, distance, all);
    lemma_matching_shape(tracks, clusters, distance, k);
    lemma_matching_shape(tracks, clusters, distance, k + 1);
    lemma_matching_shape(tracks, clusters, distance, all);
    assert(m.clusters[k] == clusters[k]) by {
        lemma_matches_last(tracks, clusters, distance, 0, k);
        assert(matching(tracks, clusters, distance, 0).clusters[k] == clusters[k]);
    }
    lemma_matches_last(tracks, clusters, distance, k + 1, all);
    assert(end.clusters[k] == next.clusters[k]);
    assert(next == match_cluster(m, distance[k]@, k));
    let t = lemma_served(m, distance[k]@, k);
    assert(0 <= t < next.matched.len() && next.matched[t] && next.tracks[t] == seen);
    assert(end.matched[t]);
    assert(end.tracks[t] == seen);
    assert(all_aged(end.tracks, end.matched)[t] == seen);
    lemma_survivor(end.tracks, end.matched, seen);
}

/// A track that was seen in the last scan.
pub open spec fn just_seen() -> spec_fn(HumanTrack) -> bool {
    |t: HumanTrack| t.missed == 0
}

/// The tracks of humans just seen: one for each of `clusters` that is a human, where it is.
pub open spec fn tracks_of_humans(clusters: Seq<Cluster>) -> Seq<HumanTrack> {
    clusters.filter(human()).map_values(|c: Cluster| seen_at(c.centroid))
}

/// One more cluster has one more track if it is a human, and none otherwise.
proof fn lemma_tracks_of_humans_push(clusters: Seq<Cluster>, c: Cluster)
    ensures
        tracks_of_humans(clusters.push(c)) == if c.is_human {
            tracks_of_humans(clusters).push(seen_at(c.centroid))
        } else {
            tracks_of_humans(clusters)
        },
{
    clusters.lemma_filter_push(c, human());
    assert(tracks_of_humans(clusters.push(c)) =~= if c.is_human {
        tracks_of_humans(clusters).push(seen_at(c.centroid))
    } else {
        tracks_of_humans(clusters)
    });
}

/// Serving a cluster adds a track just seen for it if it is a human then, and keeps the others.
#[verifier::spinoff_prover]
proof fn lemma_served_counts(m: Matching, row: Seq<Double>, k: int)
    requires
        m.matched.len() == m.tracks.len(),
        0 <= k < m.clusters.len(),
        countable(m.tracks),
    ensures
        ({
            let next = match_cluster(m, row, k);
            let before = all_aged(m.tracks, m.matched).to_multiset().filter(just_seen());
            let after = all_aged(next.tracks, next.matched).to_multiset().filter(just_seen());
            after == if next.clusters[k].is_human {
                before.insert(seen_at(m.clusters[k].centroid))
            } else {
                before
            }
        }),
{
    broadcast use {
        vstd::multiset::group_multiset_axioms,
        vstd::seq_lib::group_to_multiset_ensures,
    };

    let next = match_cluster(m, row, k);
    let old = all_aged(m.tracks, m.matched);
    let new = all_aged(next.tracks, next.matched);
    let seen = seen_at(m.clusters[k].centroid);
    lemma_nearest_range(row, m.matched, m.matched.len() as int);
    match nearest(row, m.matched, m.matched.len() as int) {
        Some(t) => {
            assert(new =~= old.update(t, seen));
            vstd::seq_lib::to_multiset_update(old, t, seen);
            assert(m.tracks[t].missed < u32::MAX);
            assert(!just_seen()(old[t]));
            assert(new.to_multiset().filter(just_seen()) =~= old.to_multiset().filter(
                just_seen(),
            ).insert(seen));
        },
        None => {
            if m.clusters[k].is_human {
                assert(new =~= old.push(seen));
                assert(new.to_multiset().filter(just_seen()) =~= old.to_multiset().filter(
                    just_seen(),
                ).insert(seen));
            }
        },
    }
}

/// After the first `k` clusters have been served, the tracks just seen are those of the humans
/// among them.
proof fn lemma_matched_are_humans(
    tracks: Seq<HumanTrack>,
    clusters: Seq<Cluster>,
    distance: Seq<Vec<Double>>,
    k: int,
)
    requires
        0 <= k <= clusters.len(),
        countable(tracks),
    ensures
        ({
            let m = matching(tracks, clusters, distance, k);
            all_aged(m.tracks, m.matched).to_multiset().filter(just_seen()) == tracks_of_humans(
                m.clusters.take(k),
            ).to_multiset()
        }),
    decreases k,
{
    broadcast use {
        vstd::multiset::group_multiset_axioms,
        vstd::seq_lib::group_to_multiset_ensures,
    };

    let m = matching(tracks, clusters, distance, k);
    let old = all_aged(m.tracks, m.matched);
    if k == 0 {
        assert forall|t: HumanTrack| #[trigger]
            old.to_multiset().filter(just_seen()).count(t) == 0 by {
            if old.contains(t) {
                let u = choose|u: int| 0 <= u < old.len() && old[u] == t;
                assert(tracks[u].missed < u32::MAX);
            }
        }
        assert(m.clusters.take(0) =~= Seq::empty());
        assert(Seq::<Cluster>::empty().filter(human()) =~= Seq::empty());
        assert(tracks_of_humans(m.clusters.take(0)) =~= Seq::empty());
        assert(old.to_multiset().filter(just_seen()) =~= tracks_of_humans(
            m.clusters.take(0),
        ).to_multiset());
    } else {
        let before = matching(tracks, clusters, distance, k - 1);
        lemma_matched_are_humans(tracks, clusters, distance, k - 1);
        lemma_matching_shape(tracks, clusters, distance, k - 1);
        lemma_served_counts(before, distance[k - 1]@, k - 1);
        let c = m.clusters[k - 1];
        assert(m.clusters.take(k) =~= before.clusters.take(k - 1).push(c));
        assert(c.centroid == before.clusters[k - 1].centroid);
        lemma_tracks_of_humans_push(before.clusters.take(k - 1), c);
    }
}

/// Humans and tracks just seen correspond: after a scan there is exactly one track that has just
/// been seen for each cluster that is marked as human, at the same centroid, and no other.
pub proof fn lemma_one_track_per_human(
    tracks: Seq<HumanTrack>,
    clusters: Seq<Cluster>,
    distance: Seq<Vec<Double>>,
)
    requires
        countable(tracks),
    ensures
        tracks_after(tracks, clusters, distance).filter(just_seen()).to_multiset()
            == tracks_of_humans(clusters_after(tracks, clusters, distance)).to_multiset(),
        tracks_after(tracks, clusters, distance).filter(just_seen()).len() == clusters_after(
            tracks,
            clusters,
            distance,
        ).filter(human()).len(),
{
    broadcast use vstd::multiset::group_multiset_axioms;

    let all = clusters.len() as int;
    let m = matching(tracks, clusters, distance, all);
    let old = all_aged(m.tracks, m.matched).to_multiset();
    let after = tracks_after(tracks, clusters, distance);
    let humans = tracks_of_humans(clusters_after(tracks, clusters, distance));
    lemma_matching_shape(tracks, clusters, distance, all);
    lemma_matched_are_humans(tracks, clusters, distance, all);
    assert(m.clusters.take(all) =~= m.clusters);
    lemma_survivors(m.tracks, m.matched);
    assert(old.filter(kept()).filter(just_seen()) =~= old.filter(just_seen()));
    lemma_filter_multiset(after, just_seen());
    vstd::seq_lib::to_multiset_len(after.filter(just_seen()));
    vstd::seq_lib::to_multiset_len(humans);
}

/// A track that was not matched is as it was before the scan.
proof fn lemma_unmatched_is_unchanged(
    tracks: Seq<HumanTrack>,
    clusters: Seq<Cluster>,
    distance: Seq<Vec<Double>>,
    k: int,
    t: int,
)
    requires
        0 <= k <= clusters.len(),
        0 <= t < tracks.len(),
        countable(tracks),
        !matching(tracks, clusters, distance, k).matched[t],
    ensures
        matching(tracks, clusters, distance, k).tracks[t] == tracks[t],
    decreases k,
{
    if k > 0 {
        lemma_matching_shape(tracks, clusters, distance, k - 1);
        let m = matching(tracks, clusters, distance, k - 1);
        lemma_nearest_range(distance[k - 1]@, m.matched, m.matched.len() as int);
        lemma_unmatched_is_unchanged(tracks, clusters, distance, k - 1, t);
    }
}

/// A human that nothing is near goes unseen for one more scan and stays where it was, until that
/// has been the case for too long.
pub proof fn lemma_unseen_human_is_remembered(
    tracks: Seq<HumanTrack>,
    clusters: Seq<Cluster>,
    distance: Seq<Vec<Double>>,
    t: int,
)
    requires
        0 <= t < tracks.len(),
        countable(tracks),
        tracks[t].missed < TRACK_TTL_SCANS,
        forall|c: int| 0 <= c < clusters.len() ==> !in_reach((#[trigger] distance[c])@[t]),
    ensures
        tracks_after(tracks, clusters, distance).contains(aged(tracks[t], false)),
{
    let all = clusters.len() as int;
    let end = matching(tracks, clusters, distance, all);
    lemma_matching_shape(tracks, clusters, distance, all);
    lemma_out_of_reach_stays_unmatched(tracks, clusters, distance, all, t);
    lemma_unmatched_is_unchanged(tracks, clusters, distance, all, t);
    assert(all_aged(end.tracks, end.matched)[t] == aged(tracks[t], false));
    lemma_survivor(end.tracks, end.matched, aged(tracks[t], false));
}

/// The tracks after `n` scans in which nothing was seen.
pub open spec fn after_empty_scans(tracks: Seq<HumanTrack>, n: nat) -> Seq<HumanTrack>
    decreases n,
{
    if n == 0 {
        tracks
    } else {
        tracks_after(after_empty_scans(tracks, (n - 1) as nat), Seq::empty(), Seq::empty())
    }
}

proof fn lemma_unseen_count(tracks: Seq<HumanTrack>, n: nat)
    requires
        countable(tracks),
    ensures
        countable(after_empty_scans(tracks, n)),
        forall|t: int|
            0 <= t < after_empty_scans(tracks, n).len() ==> (#[trigger] after_empty_scans(
                tracks,
                n,
            )[t]).missed >= n,
        n > 0 ==> forall|t: int|
            0 <= t < after_empty_scans(tracks, n).len() ==> (#[trigger] after_empty_scans(
                tracks,
                n,
            )[t]).missed <= TRACK_TTL_SCANS,
    decreases n,
{
    if n > 0 {
        let before = after_empty_scans(tracks, (n - 1) as nat);
        let after = after_empty_scans(tracks, n);
        lemma_unseen_count(tracks, (n - 1) as nat);
        lemma_tracks_stay_fresh(before, Seq::empty(), Seq::empty());
        let m = matching(before, Seq::empty(), Seq::empty(), 0);
        assert forall|t: int| 0 <= t < after.len() implies (#[trigger] after[t]).missed >= n by {
            lemma_survivor(m.tracks, m.matched, after[t]);
            assert(after.contains(after[t]));
            let old = all_aged(m.tracks, m.matched);
            let u = choose|u: int| 0 <= u < old.len() && old[u] == after[t];
            assert(before[u].missed >= n - 1);
        }
    }
}

/// A human that is not seen again is forgotten: after one more than `TRACK_TTL_SCANS` scans
/// without a cluster no track is left.
pub proof fn lemma_unseen_humans_are_forgotten(tracks: Seq<HumanTrack>)
    requires
        countable(tracks),
    ensures
        after_empty_scans(tracks, (TRACK_TTL_SCANS + 1) as nat).len() == 0,
{
    let after = after_empty_scans(tracks, (TRACK_TTL_SCANS + 1) as nat);
    lemma_unseen_count(tracks, (TRACK_TTL_SCANS + 1) as nat);
    if after.len() > 0 {
        assert(after[0].missed <= TRACK_TTL_SCANS);
    }
}

/// The bits of 180.
pub const HALF_TURN: u64 = 0x4066_8000_0000_0000;

/// A human that is not behind the sensor.
pub open spec fn faced(c: Cluster) -> bool {
    c.is_human && (Double { bits: ZERO }).le(c.centroid.y)
}

/// The nearest of the first `n` clusters that is a human the sensor faces, and of equally near
/// ones the first. `ranges[k]` is how far cluster `k` is away. A range that is not a number is
/// neither nearer nor further than any other.
pub open spec fn closest(clusters: Seq<Cluster>, ranges: Seq<Double>, n: int) -> Option<int>
    decreases n,
{
    if n <= 0 {
        None
    } else {
        match closest(clusters, ranges, n - 1) {
            Some(best) => if faced(clusters[n - 1]) && ranges[n - 1].lt(ranges[best]) {
                Some(n - 1)
            } else {
                Some(best)
            },
            None => if faced(clusters[n - 1]) {
                Some(n - 1)
            } else {
                None
            },
        }
    }
}

/// `angle`, in degrees, moved into the half turn from 0 to 180.
pub open spec fn within_half_turn(angle: Double) -> Double {
    if angle.lt(Double { bits: ZERO }) {
        Double { bits: ZERO }
    } else if (Double { bits: HALF_TURN }).lt(angle) {
        Double { bits: HALF_TURN }
    } else {
        angle
    }
}

/// The direction, in degrees from 0 to 180, of the closest human that the sensor faces.
///
/// `ranges[k]` and `angles[k]` are the polar coordinates of the centroid of cluster `k`, the
/// angle in degrees.
pub fn closest_human_angle(
    clusters: &Vec<Cluster>,
    ranges: &Vec<Double>,
    angles: &Vec<Double>,
) -> (angle: Option<Double>)
    requires
        ranges@.len() == clusters@.len(),
        angles@.len() == clusters@.len(),
    ensures
        match closest(clusters@, ranges@, clusters@.len() as int) {
            Some(k) => angle == Some(within_half_turn(angles@[k])),
            None => angle is None,
        },
{
    let zero: Double = Double { bits: ZERO };
    let half_turn: Double = Double { bits: HALF_TURN };
    let mut best: Option<usize> = None;
    let mut i: usize = 0;
    while i < clusters.len()
        invariant
            i <= clusters@.len(),
            ranges@.len() == clusters@.len(),
            zero == (Double { bits: ZERO }),
            match closest(clusters@, ranges@, i as int) {
                Some(k) => best matches Some(b) && b == k && k < i,
                None => best is None,
            },
        decreases clusters@.len() - i,
    {
        if clusters[i].is_human && zero.at_most(clusters[i].centroid.y) {
            let nearer: bool = match best {
                Some(b) => ranges[i].less_than(ranges[b]),
                None => true,
            };
            if nearer {
                best = Some(i);
            }
        }
        i += 1;
    }
    match best {
        Some(b) => {
            let angle: Double = angles[b];
            if angle.less_than(zero) {
                Some(zero)
            } else if half_turn.less_than(angle) {
                Some(half_turn)
            } else {
                Some(angle)
            }
        },
        None => None,
    }
}

/// Where every range is a number, `closest` finds a human exactly if the sensor faces one, no
/// other human that it faces is nearer, and every earlier one is further away.
pub proof fn lemma_closest_is_first_minimum(clusters: Seq<Cluster>, ranges: Seq<Double>, n: int)
    requires
        0 <= n <= clusters.len(),
        ranges.len() == clusters.len(),
        forall|k: int| 0 <= k < ranges.len() ==> !(#[trigger] ranges[k]).nan(),
    ensures
        match closest(clusters, ranges, n) {
            Some(k) => {
                &&& 0 <= k < n
                &&& faced(clusters[k])
                &&& forall|j: int|
                    0 <= j < n && faced(#[trigger] clusters[j]) ==> ranges[k].le(ranges[j])
                &&& forall|j: int|
                    0 <= j < k && faced(#[trigger] clusters[j]) ==> ranges[k].lt(ranges[j])
            },
            None => forall|j: int| 0 <= j < n ==> !faced(#[trigger] clusters[j]),
        },
    decreases n,
{
    if n > 0 {
        lemma_closest_is_first_minimum(clusters, ranges, n - 1);
    }
}

/// The direction of a human is a number from 0 to 180 wherever the angle is a number.
pub proof fn lemma_direction_in_half_turn(angle: Double)
    requires
        !angle.nan(),
    ensures
        (Double { bits: ZERO }).le(within_half_turn(angle)),
        within_half_turn(angle).le(Double { bits: HALF_TURN }),
{
}

/// A track can be matched exactly if it is not yet and is no further away than 0.40 metres.
pub proof fn lemma_reach_is_forty_centimetres(row: Seq<Double>, matched: Seq<bool>, t: int)
    ensures
        candidate(row, matched, t) <==> 0 <= t < matched.len() && !matched[t] && row[t].le(
            Double { bits: 0x3fd9_9999_9999_999a },
        ),
{
}

/// `took[k]` is the track that cluster `k` took. None of the first `k` clusters took track `t`.
pub open spec fn untaken(took: Seq<Option<int>>, k: int, t: int) -> bool {
    forall|j: int| 0 <= j < k ==> #[trigger] took[j] != Some(t)
}

/// The places of the humans among the first `n` clusters that took no track, in order.
pub open spec fn newcomers(clusters: Seq<Cluster>, took: Seq<Option<int>>, n: int) -> Seq<Point>
    decreases n,
{
    if n <= 0 {
        Seq::empty()
    } else if clusters[n - 1].is_human && took[n - 1] is None {
        newcomers(clusters, took, n - 1).push(clusters[n - 1].centroid)
    } else {
        newcomers(clusters, took, n - 1)
    }
}

/// The track that each cluster takes.
spec fn choices(
    tracks: Seq<HumanTrack>,
    clusters: Seq<Cluster>,
    distance: Seq<Vec<Double>>,
) -> Seq<Option<int>> {
    Seq::new(
        clusters.len(),
        |k: int|
            {
                let m = matching(tracks, clusters, distance, k);
                nearest(distance[k]@, m.matched, m.matched.len() as int)
            },
    )
}

/// The matching after `k` clusters, by what they took.
proof fn lemma_matching_by_choice(
    tracks: Seq<HumanTrack>,
    clusters: Seq<Cluster>,
    distance: Seq<Vec<Double>>,
    k: int,
)
    requires
        0 <= k <= clusters.len(),
        countable(tracks),
    ensures
        ({
            let m = matching(tracks, clusters, distance, k);
            let took = choices(tracks, clusters, distance);
            let n = tracks.len();
            &&& m.tracks.len() == n + newcomers(clusters, took, k).len()
            &&& m.matched.len() == m.tracks.len()
            &&& m.clusters.len() == clusters.len()
            &&& forall|t: int| 0 <= t < n ==> (#[trigger] m.matched[t] <==> !untaken(took, k, t))
            &&& forall|t: int|
                0 <= t < n && untaken(took, k, t) ==> #[trigger] m.tracks[t] == tracks[t]
            &&& forall|j: int|
                0 <= j < k ==> (#[trigger] took[j] matches Some(t) ==> 0 <= t < n && m.tracks[t]
                    == seen_at(clusters[j].centroid))
            &&& forall|i: int|
                n <= i < m.tracks.len() ==> #[trigger] m.tracks[i] == seen_at(
                    newcomers(clusters, took, k)[i - n],
                ) && m.matched[i]
            &&& forall|j: int| k <= j < clusters.len() ==> #[trigger] m.clusters[j] == clusters[j]
            &&& forall|j: int|
                0 <= j < k ==> #[trigger] m.clusters[j] == (Cluster {
                    is_human: clusters[j].is_human || took[j] is Some,
                    ..clusters[j]
                })
        }),
    decreases k,
{
    let took = choices(tracks, clusters, distance);
    let n = tracks.len();
    if k > 0 {
        lemma_matching_by_choice(tracks, clusters, distance, k - 1);
        let m = matching(tracks, clusters, distance, k - 1);
        let next = matching(tracks, clusters, distance, k);
        lemma_matching_shape(tracks, clusters, distance, k - 1);
        lemma_nearest_range(distance[k - 1]@, m.matched, m.matched.len() as int);
        assert(took[k - 1] == nearest(distance[k - 1]@, m.matched, m.matched.len() as int));
        assert forall|t: int| 0 <= t < n implies (untaken(took, k, t) <==> untaken(took, k - 1, t)
            && took[k - 1] != Some(t)) by {
            if untaken(took, k - 1, t) && took[k - 1] != Some(t) {
                assert forall|j: int| 0 <= j < k implies #[trigger] took[j] != Some(t) by {}
            }
            if untaken(took, k, t) {
                assert(took[k - 1] != Some(t));
                assert forall|j: int| 0 <= j < k - 1 implies #[trigger] took[j] != Some(t) by {}
            }
        }
        assert forall|t: int| 0 <= t < n implies (#[trigger] next.matched[t] <==> !untaken(
            took,
            k,
            t,
        )) by {
            assert(m.matched[t] <==> !untaken(took, k - 1, t));
        }
        assert forall|t: int| 0 <= t < n && untaken(took, k, t) implies #[trigger] next.tracks[t]
            == tracks[t] by {
            assert(m.tracks[t] == tracks[t]);
        }
        assert forall|j: int| 0 <= j < k implies (#[trigger] took[j] matches Some(t) ==> 0 <= t < n
            && next.tracks[t] == seen_at(clusters[j].centroid)) by {
            if let Some(t) = took[j] {
                if j < k - 1 {
                    assert(!untaken(took, k - 1, t));
                    assert(m.matched[t]);
                    assert(m.tracks[t] == seen_at(clusters[j].centroid));
                } else {
                    assert(!m.matched[t]);
                    assert(m.clusters[k - 1] == clusters[k - 1]);
                }
            }
        }
        assert forall|i: int| n <= i < next.tracks.len() implies #[trigger] next.tracks[i]
            == seen_at(newcomers(clusters, took, k)[i - n]) && next.matched[i] by {
            if i < m.tracks.len() {
                assert(m.tracks[i] == seen_at(newcomers(clusters, took, k - 1)[i - n]));
            }
            assert(m.clusters[k - 1] == clusters[k - 1]);
        }
        assert forall|j: int| 0 <= j < k implies #[trigger] next.clusters[j] == (Cluster {
            is_human: clusters[j].is_human || took[j] is Some,
            ..clusters[j]
        }) by {
            if j == k - 1 {
                assert(m.clusters[k - 1] == clusters[k - 1]);
            } else {
                assert(m.clusters[j] == m.clusters[j]);
            }
        }
        assert forall|j: int| k <= j < clusters.len() implies #[trigger] next.clusters[j]
            == clusters[j] by {
            assert(m.clusters[j] == clusters[j]);
        }
        assert(m.clusters[k - 1] == clusters[k - 1]);
    } else {
        let m = matching(tracks, clusters, distance, 0);
        assert forall|t: int| 0 <= t < n implies (#[trigger] m.matched[t] <==> !untaken(
            took,
            0,
            t,
        )) by {
            assert(untaken(took, 0, t));
        }
    }
}

/// Tracks as they stand after a scan, before those unseen for too long are taken out.
///
/// Clusters are served in order. Each takes, of the tracks that are no further away than 0.40 and
/// that no earlier cluster took, the nearest one, and the first of equally near ones; it takes none
/// only if there is none. What took a track is a human from then on, and nothing else about a
/// cluster changes. A track that was taken is where the cluster is and has just been seen; any
/// other is where it was, unseen for exactly one scan more. Behind them comes one new track for
/// each human that took none, in order.
pub proof fn lemma_clusters_take_the_nearest(
    tracks: Seq<HumanTrack>,
    clusters: Seq<Cluster>,
    distance: Seq<Vec<Double>>,
) -> (r: (Seq<Option<int>>, Seq<HumanTrack>))
    requires
        countable(tracks),
    ensures
        ({
            let (took, all) = r;
            let reach = Double { bits: 0x3fd9_9999_9999_999a };
            let n = tracks.len() as int;
            let new = newcomers(clusters, took, clusters.len() as int);
            let after = clusters_after(tracks, clusters, distance);
            &&& took.len() == clusters.len()
            &&& forall|k: int|
                0 <= k < took.len() ==> match #[trigger] took[k] {
                    Some(t) => {
                        &&& 0 <= t < n
                        &&& untaken(took, k, t)
                        &&& distance[k]@[t].le(reach)
                        &&& forall|u: int|
                            0 <= u < n && #[trigger] untaken(took, k, u)
                                && distance[k]@[u].le(reach) ==> {
                                &&& distance[k]@[t].le(distance[k]@[u])
                                &&& u < t ==> distance[k]@[t].lt(distance[k]@[u])
                            }
                    },
                    None => forall|u: int|
                        0 <= u < n && #[trigger] untaken(took, k, u) ==> !distance[k]@[u].le(reach),
                }
            &&& after.len() == clusters.len()
            &&& forall|k: int|
                0 <= k < clusters.len() ==> #[trigger] after[k] == (Cluster {
                    is_human: clusters[k].is_human || took[k] is Some,
                    ..clusters[k]
                })
            &&& all.len() == n + new.len()
            &&& forall|k: int|
                0 <= k < took.len() ==> (#[trigger] took[k] matches Some(t) ==> all[t] == (
                HumanTrack { centroid: clusters[k].centroid, missed: 0 }))
            &&& forall|t: int|
                0 <= t < n && untaken(took, clusters.len() as int, t) ==> {
                    &&& (#[trigger] all[t]).centroid == tracks[t].centroid
                    &&& all[t].missed == tracks[t].missed + 1
                }
            &&& forall|i: int|
                0 <= i < new.len() ==> all[n + i] == (HumanTrack {
                    centroid: #[trigger] new[i],
                    missed: 0,
                })
            &&& tracks_after(tracks, clusters, distance) == compacted(all, 0)
        }),
{
    let took = choices(tracks, clusters, distance);
    let n = tracks.len() as int;
    let end = clusters.len() as int;
    let m = matching(tracks, clusters, distance, end);
    let all = all_aged(m.tracks, m.matched);
    let reach = Double { bits: 0x3fd9_9999_9999_999a };
    lemma_matching_by_choice(tracks, clusters, distance, end);
    assert forall|k: int| 0 <= k < took.len() implies match #[trigger] took[k] {
        Some(t) => {
            &&& 0 <= t < n
            &&& untaken(took, k, t)
            &&& distance[k]@[t].le(reach)
            &&& forall|u: int|
                0 <= u < n && #[trigger] untaken(took, k, u) && distance[k]@[u].le(reach)
                    ==> distance[k]@[t].le(distance[k]@[u]) && (u < t ==> distance[k]@[t].lt(
                    distance[k]@[u],
                ))
        },
        None => forall|u: int|
            0 <= u < n && #[trigger] untaken(took, k, u) ==> !distance[k]@[u].le(reach),
    } by {
        let mk = matching(tracks, clusters, distance, k);
        lemma_matching_by_choice(tracks, clusters, distance, k);
        lemma_matching_shape(tracks, clusters, distance, k);
        lemma_nearest_is_first_minimum(distance[k]@, mk.matched, mk.matched.len() as int);
        assert forall|u: int|
            0 <= u < n && #[trigger] untaken(took, k, u) && distance[k]@[u].le(
                reach,
            ) implies candidate(distance[k]@, mk.matched, u) by {
            assert(mk.matched[u] <==> !untaken(took, k, u));
        }
        if let Some(t) = took[k] {
            assert(!mk.matched[t]);
            assert(mk.matched[t] <==> !untaken(took, k, t));
        }
    }
    assert forall|k: int| 0 <= k < took.len() implies (#[trigger] took[k] matches Some(t) ==> all[t]
        == (HumanTrack { centroid: clusters[k].centroid, missed: 0 })) by {
        if let Some(t) = took[k] {
            assert(!untaken(took, end, t));
            assert(m.matched[t]);
        }
    }
    assert forall|t: int| 0 <= t < n && untaken(took, end, t) implies {
        &&& (#[trigger] all[t]).centroid == tracks[t].centroid
        &&& all[t].missed == tracks[t].missed + 1
    } by {
        assert(!m.matched[t]);
        assert(m.tracks[t] == tracks[t]);
        assert(tracks[t].missed < u32::MAX);
    }
    let new = newcomers(clusters, took, end);
    assert forall|i: int| 0 <= i < new.len() implies all[n + i] == (HumanTrack {
        centroid: #[trigger] new[i],
        missed: 0,
    }) by {
        let p = n + i;
        assert(m.tracks[p] == seen_at(new[p - n]));
        assert(m.matched[p]);
    }
    lemma_expire_compacts(m.tracks, m.matched, 0);
    assert(m.tracks.take(0) + all.skip(0) =~= all);
    (took, all)
}

/// `s` from position `i` on without the tracks unseen for too long: the last one takes the place
/// of one that is taken out.
pub open spec fn compacted(s: Seq<HumanTrack>, i: int) -> Seq<HumanTrack>
    decreases s.len() - i,
{
    if i < 0 || i >= s.len() {
        s
    } else if s[i].missed > 30 {
        compacted(swap_removed(s, i), i)
    } else {
        compacted(s, i + 1)
    }
}

/// Ageing tracks one by one while taking them out is ageing all of them first.
proof fn lemma_expire_compacts(tracks: Seq<HumanTrack>, matched: Seq<bool>, i: int)
    requires
        0 <= i <= tracks.len(),
        matched.len() == tracks.len(),
    ensures
        expire(tracks, matched, i) == compacted(
            tracks.take(i) + all_aged(tracks, matched).skip(i),
            i,
        ),
    decreases tracks.len() - i,
{
    let s = tracks.take(i) + all_aged(tracks, matched).skip(i);
    if i == tracks.len() {
        assert(s =~= tracks);
    } else {
        let t = aged(tracks[i], matched[i]);
        let older = tracks.update(i, t);
        assert(s[i] == t);
        if t.missed > TRACK_TTL_SCANS {
            let tracks2 = swap_removed(older, i);
            let matched2 = swap_removed(matched, i);
            lemma_expire_compacts(tracks2, matched2, i);
            assert(tracks2.take(i) + all_aged(tracks2, matched2).skip(i) =~= swap_removed(s, i));
        } else {
            lemma_expire_compacts(older, matched, i + 1);
            assert(older.take(i + 1) + all_aged(older, matched).skip(i + 1) =~= s);
        }
    }
}

proof fn lemma_compacted_from(s: Seq<HumanTrack>, i: int) -> (from: Seq<int>)
    requires
        0 <= i <= s.len(),
        forall|p: int| 0 <= p < i ==> (#[trigger] s[p]).missed <= 30,
    ensures
        moved_up(s, compacted(s, i), from),
        i <= from.len(),
    decreases s.len() - i,
{
    if i == s.len() {
        let from = Seq::new(s.len(), |p: int| p);
        assert forall|q: int| 0 <= q < s.len() && (
        #[trigger] s[q]).missed <= 30 implies from.contains(q) by {
            assert(from[q] == q);
        }
        from
    } else if s[i].missed > 30 {
        let end = s.len() - 1;
        let s2 = swap_removed(s, i);
        let from2 = lemma_compacted_from(s2, i);
        let r = compacted(s, i);
        let from = Seq::new(
            from2.len(),
            |p: int|
                if from2[p] == i {
                    end
                } else {
                    from2[p]
                },
        );
        assert forall|p: int| 0 <= p < r.len() implies {
            &&& 0 <= #[trigger] from[p] < s.len()
            &&& r[p] == s[from[p]]
            &&& r[p].missed <= 30
            &&& s[p].missed <= 30 ==> from[p] == p
            &&& s[p].missed > 30 ==> from[p] >= r.len()
        } by {
            assert(0 <= from2[p] < s2.len());
        }
        assert forall|p: int, q: int|
            0 <= p < q < r.len() && s[p].missed > 30 && s[q].missed > 30 implies #[trigger] from[p]
            > #[trigger] from[q] by {
            assert(0 <= from2[p] < s2.len());
            assert(0 <= from2[q] < s2.len());
            if s2[p].missed > 30 && s2[q].missed > 30 {
                assert(from2[p] > from2[q]);
            }
        }
        assert forall|q: int| 0 <= q < s.len() && (
        #[trigger] s[q]).missed <= 30 implies from.contains(q) by {
            let q2 = if q == end {
                i
            } else {
                q
            };
            assert(s2[q2] == s[q]);
            assert(from2.contains(q2));
            let p = choose|p: int| 0 <= p < from2.len() && from2[p] == q2;
            assert(from[p] == q);
        }
        from
    } else {
        lemma_compacted_from(s, i + 1)
    }
}

/// `r` is `s` without the tracks unseen for more than 30 scans: `from[p]` is where the one at `p`
/// was. All others are there. What can stay where it was does, and the gaps are filled from the
/// front by those furthest back.
pub open spec fn moved_up(s: Seq<HumanTrack>, r: Seq<HumanTrack>, from: Seq<int>) -> bool {
    &&& from.len() == r.len()
    &&& r.len() <= s.len()
    &&& forall|p: int|
        0 <= p < r.len() ==> {
            &&& 0 <= #[trigger] from[p] < s.len()
            &&& r[p] == s[from[p]]
            &&& r[p].missed <= 30
            &&& s[p].missed <= 30 ==> from[p] == p
            &&& s[p].missed > 30 ==> from[p] >= r.len()
        }
    &&& forall|p: int, q: int|
        0 <= p < q < r.len() && s[p].missed > 30 && s[q].missed > 30 ==> #[trigger] from[p]
            > #[trigger] from[q]
    &&& forall|q: int| 0 <= q < s.len() && (#[trigger] s[q]).missed <= 30 ==> from.contains(q)
}

/// What `compacted` leaves and where.
pub proof fn lemma_forgotten_tracks_leave_gaps(all: Seq<HumanTrack>) -> (from: Seq<int>)
    ensures
        moved_up(all, compacted(all, 0), from),
{
    lemma_compacted_from(all, 0)
}

/// One scan: the clusters, and the distance of each from each track.
pub struct Sight {
    pub clusters: Seq<Cluster>,
    pub distance: Seq<Vec<Double>>,
}

/// The tracks after a run of scans.
pub open spec fn after_scans(tracks: Seq<HumanTrack>, scans: Seq<Sight>) -> Seq<HumanTrack>
    decreases scans.len(),
{
    if scans.len() == 0 {
        tracks
    } else {
        let before = after_scans(tracks, scans.drop_last());
        tracks_after(before, scans.last().clusters, scans.last().distance)
    }
}

/// In a scan no cluster is within 0.40 of a track at `centroid`.
pub open spec fn hidden(tracks: Seq<HumanTrack>, scan: Sight, centroid: Point) -> bool {
    forall|c: int, t: int|
        0 <= c < scan.clusters.len() && 0 <= t < tracks.len() && tracks[t].centroid == centroid
            ==> !(#[trigger] scan.distance[c]@[t]).le(Double { bits: 0x3fd9_9999_9999_999a })
}

/// A human that is hidden for `n` scans in a row is remembered: if that makes no more than 30, it
/// is still followed, at the same place, and unseen for exactly `n` scans more.
pub proof fn lemma_hidden_human_is_remembered(
    tracks: Seq<HumanTrack>,
    scans: Seq<Sight>,
    human: HumanTrack,
)
    requires
        countable(tracks),
        tracks.contains(human),
        human.missed + scans.len() <= 30,
        forall|i: int|
            0 <= i < scans.len() ==> hidden(
                after_scans(tracks, #[trigger] scans.take(i)),
                scans[i],
                human.centroid,
            ),
    ensures
        countable(after_scans(tracks, scans)),
        exists|t: int|
            0 <= t < after_scans(tracks, scans).len() && {
                &&& (#[trigger] after_scans(tracks, scans)[t]).centroid == human.centroid
                &&& after_scans(tracks, scans)[t].missed == human.missed + scans.len()
            },
    decreases scans.len(),
{
    if scans.len() == 0 {
        let t = choose|t: int| 0 <= t < tracks.len() && tracks[t] == human;
        assert(after_scans(tracks, scans)[t] == human);
    } else {
        let fewer = scans.drop_last();
        let n = fewer.len() as int;
        assert forall|i: int| 0 <= i < fewer.len() implies hidden(
            after_scans(tracks, #[trigger] fewer.take(i)),
            fewer[i],
            human.centroid,
        ) by {
            assert(fewer.take(i) =~= scans.take(i));
            assert(hidden(after_scans(tracks, scans.take(i)), scans[i], human.centroid));
        }
        lemma_hidden_human_is_remembered(tracks, fewer, human);
        assert(scans.take(n) =~= fewer);
        let before = after_scans(tracks, fewer);
        let scan = scans.last();
        assert(hidden(before, scan, human.centroid));
        let t = choose|t: int|
            0 <= t < before.len() && (#[trigger] before[t]).centroid == human.centroid
                && before[t].missed == human.missed + fewer.len();
        assert forall|c: int| 0 <= c < scan.clusters.len() implies !in_reach(
            (#[trigger] scan.distance[c])@[t],
        ) by {
            assert(!scan.distance[c]@[t].le(Double { bits: 0x3fd9_9999_9999_999a }));
        }
        lemma_unseen_human_is_remembered(before, scan.clusters, scan.distance, t);
        lemma_tracks_stay_fresh(before, scan.clusters, scan.distance);
        let after = after_scans(tracks, scans);
        let older = aged(before[t], false);
        let u = choose|u: int| 0 <= u < after.len() && after[u] == older;
        assert(after[u].centroid == human.centroid);
    }
}

/// And when something appears near the place where it was last seen, it is taken for that human:
/// the first cluster that is within 0.40 of every track there is marked as human.
pub proof fn lemma_hidden_human_is_recognised(
    tracks: Seq<HumanTrack>,
    scans: Seq<Sight>,
    human: HumanTrack,
    scan: Sight,
    k: int,
)
    requires
        countable(tracks),
        tracks.contains(human),
        human.missed + scans.len() <= 30,
        forall|i: int|
            0 <= i < scans.len() ==> hidden(
                after_scans(tracks, #[trigger] scans.take(i)),
                scans[i],
                human.centroid,
            ),
        0 <= k < scan.clusters.len(),
        forall|t: int|
            0 <= t < after_scans(tracks, scans).len() && (#[trigger] after_scans(
                tracks,
                scans,
            )[t]).centroid == human.centroid ==> scan.distance[k]@[t].le(
                Double { bits: 0x3fd9_9999_9999_999a },
            ),
        hidden(
            after_scans(tracks, scans),
            (Sight { clusters: scan.clusters.take(k), distance: scan.distance }),
            human.centroid,
        ),
    ensures
        clusters_after(after_scans(tracks, scans), scan.clusters, scan.distance)[k].is_human,
{
    lemma_hidden_human_is_remembered(tracks, scans, human);
    let before = after_scans(tracks, scans);
    let t = choose|t: int|
        0 <= t < before.len() && (#[trigger] before[t]).centroid == human.centroid
            && before[t].missed == human.missed + scans.len();
    assert forall|c: int| 0 <= c < k implies !in_reach((#[trigger] scan.distance[c])@[t]) by {
        let earlier = Sight { clusters: scan.clusters.take(k), distance: scan.distance };
        assert(!earlier.distance[c]@[t].le(Double { bits: 0x3fd9_9999_9999_999a }));
    }
    lemma_human_stays_human(before, scan.clusters, scan.distance, k, t);
}

/// The sensor faces a human that is not behind it.
pub proof fn lemma_faced_is_in_front(c: Cluster)
    ensures
        faced(c) <==> c.is_human && (Double { bits: 0 }).le(c.centroid.y),
{
}

/// The closest human is one that the sensor faces, and there is one whenever it faces any. No
/// other has a smaller range, and of equal ones it is the first. A range that is no number is
/// passed over, unless it is that of the first human that the sensor faces: then that one stays.
pub proof fn lemma_closest_is_nearest(clusters: Seq<Cluster>, ranges: Seq<Double>, n: int)
    requires
        0 <= n <= clusters.len(),
    ensures
        match closest(clusters, ranges, n) {
            Some(k) => {
                &&& 0 <= k < n
                &&& clusters[k].is_human
                &&& (Double { bits: 0 }).le(clusters[k].centroid.y)
                &&& forall|j: int|
                    0 <= j < n && (#[trigger] clusters[j]).is_human && (Double { bits: 0 }).le(
                        clusters[j].centroid.y,
                    ) ==> !ranges[j].lt(ranges[k]) && (j < k && !ranges[j].nan()
                        ==> ranges[k].lt(ranges[j]))
                &&& ranges[k].nan() ==> forall|j: int|
                    0 <= j < k && (#[trigger] clusters[j]).is_human ==> !(Double { bits: 0 }).le(
                        clusters[j].centroid.y,
                    )
                &&& !ranges[k].nan() ==> forall|j: int|
                    0 <= j < k && (#[trigger] clusters[j]).is_human && (Double { bits: 0 }).le(
                        clusters[j].centroid.y,
                    ) && ranges[j].nan() ==> exists|i: int|
                        0 <= i < j && (#[trigger] clusters[i]).is_human && (Double { bits: 0 }).le(
                            clusters[i].centroid.y,
                        ) && !ranges[i].nan()
            },
            None => forall|j: int|
                0 <= j < n && (#[trigger] clusters[j]).is_human ==> !(Double { bits: 0 }).le(
                    clusters[j].centroid.y,
                ),
        },
    decreases n,
{
    if n > 0 {
        lemma_closest_is_nearest(clusters, ranges, n - 1);
        assert(faced(clusters[n - 1]) <==> clusters[n - 1].is_human && (Double { bits: 0 }).le(
            clusters[n - 1].centroid.y,
        ));
        if let Some(best) = closest(clusters, ranges, n - 1) {
            if let Some(k) = closest(clusters, ranges, n) {
                if k == n - 1 {
                    assert forall|j: int|
                        0 <= j < k && (#[trigger] clusters[j]).is_human && (Double { bits: 0 }).le(
                            clusters[j].centroid.y,
                        ) && ranges[j].nan() implies exists|i: int|
                        0 <= i < j && (#[trigger] clusters[i]).is_human && (Double { bits: 0 }).le(
                            clusters[i].centroid.y,
                        ) && !ranges[i].nan() by {
                        assert(clusters[best].is_human);
                    }
                }
            }
        }
    }
}

/// A direction from 0 to 180 degrees is reported as it is, one below as 0, one above as 180.
pub proof fn lemma_direction_is_kept(angle: Double)
    ensures
        (Double { bits: 0 }).le(angle) && angle.le(Double { bits: 0x4066_8000_0000_0000 })
            ==> within_half_turn(angle) == angle,
        angle.lt(Double { bits: 0 }) ==> within_half_turn(angle) == (Double { bits: 0 }),
        (Double { bits: 0x4066_8000_0000_0000 }).lt(angle) ==> within_half_turn(angle) == (Double {
            bits: 0x4066_8000_0000_0000,
        }),
        angle.nan() ==> within_half_turn(angle) == angle,
{
}

} // verus!
