//! Training: the reduction of a density classification to clusters.
//!
//! A density-based clustering run tags every point of a corpus as noise, or
//! as a core or edge point of some cluster. Training keeps the clusters and
//! drops the noise: each cluster becomes one group of corpus positions, and
//! each group later becomes one centroid, the mean of its members.

use vstd::prelude::*;
use crate::centroids::CentroidSet;
use crate::centroids::ShapeError;
use crate::centroids::matrix;
use crate::centroids::ragged_error;
use crate::centroids::uniform;

verus! {

/// How density-based clustering classified one point.
#[derive(Clone, Copy, Debug, PartialEq, Eq, Structural)]
pub enum ClassificationTag {
    /// The point belongs to no cluster.
    Noise,
    /// The point has enough neighbours to be a core point of the cluster.
    Core(usize),
    /// The point is within reach of a core point of the cluster, without
    /// being one itself.
    Edge(usize),
}

impl ClassificationTag {
    /// The cluster that the point belongs to, if any.
    pub open spec fn cluster_of(self) -> Option<usize> {
        match self {
            ClassificationTag::Noise => None,
            ClassificationTag::Core(id) => Some(id),
            ClassificationTag::Edge(id) => Some(id),
        }
    }

    /// The cluster that the point belongs to, if any.
    #[verifier::when_used_as_spec(cluster_of)]
    pub fn cluster(self) -> (id: Option<usize>)
        ensures
            id == self.cluster_of(),
    {
        match self {
            ClassificationTag::Noise => None,
            ClassificationTag::Core(id) => Some(id),
            ClassificationTag::Edge(id) => Some(id),
        }
    }
}

/// Why training produced no centroids.
#[derive(Clone, Copy, Debug, PartialEq, Eq, Structural)]
pub enum TrainError {
    /// The corpus was not empty, yet every point of it is noise.
    NoClustersFound,
}

/// The number of noise points in a classification.
pub open spec fn noise_count(tags: Seq<ClassificationTag>) -> nat
    decreases tags.len(),
{
    if tags.len() == 0 {
        0
    } else {
        noise_count(tags.drop_last()) + if tags.last() is Noise {
            1nat
        } else {
            0nat
        }
    }
}

/// Whether some point of the classification belongs to cluster `id`.
pub open spec fn has_cluster(tags: Seq<ClassificationTag>, id: usize) -> bool {
    exists|i: int| 0 <= i < tags.len() && (#[trigger] tags[i]).cluster_of() == Some(id)
}

/// Whether every point of the classification is noise.
pub open spec fn all_noise(tags: Seq<ClassificationTag>) -> bool {
    forall|i: int| 0 <= i < tags.len() ==> #[trigger] tags[i] is Noise
}

/// Whether a sequence rises strictly from each element to the next.
pub open spec fn ascending(s: Seq<usize>) -> bool {
    forall|a: int, b: int| 0 <= a < b < s.len() ==> s[a] < s[b]
}

/// Whether `group` lists, in ascending order, exactly the positions of the
/// points that belong to cluster `id`.
pub open spec fn is_membership(group: Seq<usize>, tags: Seq<ClassificationTag>, id: usize) -> bool {
    &&& ascending(group)
    &&& forall|a: int|
        0 <= a < group.len() ==> (#[trigger] group[a]) < tags.len() && tags[group[a] as int].cluster_of()
            == Some(id)
    &&& forall|i: int|
        0 <= i < tags.len() && (#[trigger] tags[i]).cluster_of() == Some(id) ==> group.contains(
            i as usize,
        )
}

/// The clusters of a corpus, as contracts see them.
pub struct Clusters {
    /// The identifiers of the clusters.
    pub ids: Seq<usize>,
    /// For each cluster, the corpus positions of its points.
    pub groups: Seq<Seq<usize>>,
    /// The number of points that belong to no cluster.
    pub noise: nat,
}

impl Clusters {
    /// Whether these are the clusters of `tags`: one group for each cluster
    /// that occurs, in ascending order of identifier, each holding exactly
    /// the positions of its cluster's points, ascending; and the count of
    /// the noise points.
    pub open spec fn reduces(self, tags: Seq<ClassificationTag>) -> bool {
        &&& self.groups.len() == self.ids.len()
        &&& ascending(self.ids)
        &&& forall|id: usize| #[trigger] self.ids.contains(id) <==> has_cluster(tags, id)
        &&& forall|g: int|
            0 <= g < self.ids.len() ==> is_membership(#[trigger] self.groups[g], tags, self.ids[g])
        &&& self.noise == noise_count(tags)
    }

    /// There is at least one cluster, and no cluster is without points.
    pub open spec fn inhabited(self) -> bool {
        &&& self.groups.len() == self.ids.len()
        &&& self.groups.len() > 0
        &&& forall|g: int| 0 <= g < self.groups.len() ==> (#[trigger] self.groups[g]).len() > 0
    }
}

/// The clusters of a corpus: which points form each of them, and how many
/// points are left over as noise. There is always at least one cluster.
#[derive(Debug)]
pub struct Clustering {
    ids: Vec<usize>,
    groups: Vec<Vec<usize>>,
    noise: usize,
}

impl View for Clustering {
    type V = Clusters;

    closed spec fn view(&self) -> Clusters {
        Clusters { ids: self.ids@, groups: matrix(self.groups@), noise: self.noise as nat }
    }
}

impl Clustering {
    #[verifier::type_invariant]
    spec fn inv(&self) -> bool {
        self@.inhabited()
    }

    /// The identifiers of the clusters, ascending. The cluster at position
    /// `g` here becomes the centroid in row `g`.
    pub fn ids(&self) -> (ids: &Vec<usize>)
        ensures
            ids@ == self@.ids,
    {
        &self.ids
    }

    /// For each cluster, the corpus positions of its points, ascending.
    pub fn groups(&self) -> (groups: &Vec<Vec<usize>>)
        ensures
            matrix(groups@) == self@.groups,
            self@.inhabited(),
    {
        proof {
            use_type_invariant(self);
        }
        &self.groups
    }

    /// The number of points that belong to no cluster.
    pub fn noise(&self) -> (noise: usize)
        ensures
            noise == self@.noise,
    {
        self.noise
    }

    /// The number of clusters, which is the number of centroids to come.
    pub fn cluster_count(&self) -> (n: usize)
        ensures
            n == self@.groups.len(),
            n >= 1,
    {
        proof {
            use_type_invariant(self);
        }
        self.groups.len()
    }

    /// Builds the centroid set of this clustering from the mean of each
    /// group, given in the order of the groups. The means must be one per
    /// group, and all of dimension `dim`; otherwise nothing is built. What
    /// is built has at least one row, and every row has dimension `dim`.
    pub fn assemble<T>(&self, dim: usize, means: Vec<Vec<T>>) -> (result: Result<
        CentroidSet<T>,
        ShapeError,
    >)
        ensures
            result is Ok <==> means@.len() == self@.groups.len() && uniform(
                matrix(means@),
                dim as nat,
            ),
            result matches Ok(set) ==> {
                &&& set@ == matrix(means@)
                &&& set.dimension() == dim
                &&& set@.len() == self@.groups.len()
                &&& set@.len() >= 1
                &&& uniform(set@, dim as nat)
            },
            means@.len() != self@.groups.len() ==> result == Err::<CentroidSet<T>, ShapeError>(
                ShapeError::RowCount {
                    expected: self@.groups.len() as usize,
                    found: means@.len() as usize,
                },
            ),
            means@.len() == self@.groups.len() ==> (result matches Err(e) ==> ragged_error(
                matrix(means@),
                dim as nat,
                e,
            )),
    {
        proof {
            use_type_invariant(self);
        }
        if means.len() != self.groups.len() {
            return Err(
                ShapeError::RowCount { expected: self.groups.len(), found: means.len() },
            );
        }
        CentroidSet::from_rows(dim, means)
    }
}

/// The first position of the ascending `ids` whose value is not below `id`,
/// or their length if there is none.
fn lower_bound(ids: &Vec<usize>, id: usize) -> (p: usize)
    requires
        ascending(ids@),
    ensures
        p <= ids@.len(),
        forall|j: int| 0 <= j < p ==> ids@[j] < id,
        forall|j: int| p <= j < ids@.len() ==> ids@[j] >= id,
{
    let mut lo: usize = 0;
    let mut hi: usize = ids.len();
    while lo < hi
        invariant
            lo <= hi <= ids@.len(),
            ascending(ids@),
            forall|j: int| 0 <= j < lo ==> ids@[j] < id,
            forall|j: int| hi <= j < ids@.len() ==> ids@[j] >= id,
        decreases hi - lo,
    {
        let mid: usize = lo + (hi - lo) / 2;
        if ids[mid] < id {
            lo = mid + 1;
        } else {
            hi = mid;
        }
    }
    lo
}

/// Taking one more point into account: how the noise count and the clusters
/// that occur change.
proof fn lemma_take_next(tags: Seq<ClassificationTag>, i: int)
    requires
        0 <= i < tags.len(),
    ensures
        noise_count(tags.take(i + 1)) == noise_count(tags.take(i)) + if tags[i] is Noise {
            1nat
        } else {
            0nat
        },
        forall|id: usize|
            has_cluster(tags.take(i + 1), id) <==> has_cluster(tags.take(i), id) || tags[i].cluster_of()
                == Some(id),
{
    let next = tags.take(i + 1);
    let prev = tags.take(i);
    assert(next.drop_last() =~= prev);
    assert(next.last() == tags[i]);
    assert forall|id: usize|
        has_cluster(next, id) <==> has_cluster(prev, id) || tags[i].cluster_of() == Some(id) by {
        if has_cluster(next, id) {
            let k = choose|k: int| 0 <= k < next.len() && (#[trigger] next[k]).cluster_of() == Some(id);
            if k < i {
                assert(prev[k].cluster_of() == Some(id));
            }
        }
        if has_cluster(prev, id) {
            let k = choose|k: int| 0 <= k < prev.len() && (#[trigger] prev[k]).cluster_of() == Some(id);
            assert(next[k].cluster_of() == Some(id));
        }
        if tags[i].cluster_of() == Some(id) {
            assert(next[i].cluster_of() == Some(id));
        }
    }
}

/// A group stays the membership of its cluster when the next point belongs
/// elsewhere, and takes the next position when the point belongs to it.
proof fn lemma_membership_next(
    group: Seq<usize>,
    tags: Seq<ClassificationTag>,
    id: usize,
    i: int,
)
    requires
        0 <= i < tags.len(),
        i <= usize::MAX,
        is_membership(group, tags.take(i), id),
    ensures
        tags[i].cluster_of() != Some(id) ==> is_membership(group, tags.take(i + 1), id),
        tags[i].cluster_of() == Some(id) ==> is_membership(
            group.push(i as usize),
            tags.take(i + 1),
            id,
        ),
{
    let prev = tags.take(i);
    let next = tags.take(i + 1);
    assert forall|a: int| 0 <= a < group.len() implies (#[trigger] group[a]) < i && next[group[a] as int]
        == prev[group[a] as int] by {}
    if tags[i].cluster_of() == Some(id) {
        let grown = group.push(i as usize);
        assert forall|k: int| 0 <= k < next.len() && (#[trigger] next[k]).cluster_of() == Some(
            id,
        ) implies grown.contains(k as usize) by {
            if k < i {
                assert(prev[k].cluster_of() == Some(id));
                let a = choose|a: int| 0 <= a < group.len() && group[a] == k as usize;
                assert(grown[a] == k as usize);
            } else {
                assert(grown[group.len() as int] == i as usize);
            }
        }
        assert(is_membership(grown, next, id));
    } else {
        assert forall|k: int| 0 <= k < next.len() && (#[trigger] next[k]).cluster_of() == Some(
            id,
        ) implies group.contains(k as usize) by {
            assert(prev[k].cluster_of() == Some(id));
        }
        assert(is_membership(group, next, id));
    }
}

/// Reduces a density classification to its clusters.
///
/// An empty corpus gives nothing, and is no error. A corpus whose points are
/// all noise is refused. Otherwise every cluster that occurs becomes one
/// group, in ascending order of cluster identifier, holding the positions of
/// its core and edge points in corpus order; noise points are counted and
/// left out.
pub fn train(tags: &Vec<ClassificationTag>) -> (result: Result<Option<Clustering>, TrainError>)
    ensures
        tags@.len() == 0 ==> result == Ok::<Option<Clustering>, TrainError>(None),
        tags@.len() > 0 && all_noise(tags@) ==> result == Err::<Option<Clustering>, TrainError>(
            TrainError::NoClustersFound,
        ),
        tags@.len() > 0 && !all_noise(tags@) ==> (result matches Ok(Some(clustering))
            && clustering@.reduces(tags@) && clustering@.inhabited()),
{
    if tags.len() == 0 {
        return Ok(None);
    }
    let mut ids: Vec<usize> = Vec::new();
    let mut groups: Vec<Vec<usize>> = Vec::new();
    let mut noise: usize = 0;
    let mut i: usize = 0;
    while i < tags.len()
        invariant
            i <= tags@.len(),
            noise <= i,
            noise == noise_count(tags@.take(i as int)),
            groups@.len() == ids@.len(),
            ascending(ids@),
            forall|id: usize| #[trigger] ids@.contains(id) <==> has_cluster(tags@.take(i as int), id),
            forall|g: int|
                0 <= g < ids@.len() ==> is_membership(
                    (#[trigger] groups@[g])@,
                    tags@.take(i as int),
                    ids@[g],
                ),
        decreases tags@.len() - i,
    {
        let ghost old_ids = ids@;
        let ghost old_groups = groups@;
        proof {
            lemma_take_next(tags@, i as int);
            assert forall|g: int|
                0 <= g < old_ids.len() && tags@[i as int].cluster_of() != Some(
                    old_ids[g],
                ) implies is_membership((#[trigger] old_groups[g])@, tags@.take(i + 1), old_ids[g]) by {
                lemma_membership_next(old_groups[g]@, tags@, old_ids[g], i as int);
            }
        }
        match tags[i].cluster() {
            None => {
                noise = noise + 1;
                proof {
                    assert forall|g: int| 0 <= g < ids@.len() implies is_membership(
                        (#[trigger] groups@[g])@,
                        tags@.take(i + 1),
                        ids@[g],
                    ) by {}
                }
            },
            Some(id) => {
                let p = lower_bound(&ids, id);
                if p < ids.len() && ids[p] == id {
                    proof {
                        lemma_membership_next(old_groups[p as int]@, tags@, id, i as int);
                    }
                    groups[p].push(i);
                    proof {
                        assert(groups@[p as int]@ == old_groups[p as int]@.push(i));
                        assert forall|g: int| 0 <= g < ids@.len() implies is_membership(
                            (#[trigger] groups@[g])@,
                            tags@.take(i + 1),
                            ids@[g],
                        ) by {
                            if g != p {
                                assert(groups@[g] == old_groups[g]);
                                assert(ids@[g] != id);
                            }
                        }
                        assert(old_ids.contains(id));
                    }
                } else {
                    let mut fresh: Vec<usize> = Vec::new();
                    fresh.push(i);
                    ids.insert(p, id);
                    groups.insert(p, fresh);
                    proof {
                        assert(!old_ids.contains(id)) by {
                            if old_ids.contains(id) {
                                let k = choose|k: int| 0 <= k < old_ids.len() && old_ids[k] == id;
                                assert(k < p || k >= p);
                            }
                        }
                        assert(!has_cluster(tags@.take(i as int), id));
                        assert(is_membership(seq![i], tags@.take(i + 1), id)) by {
                            let next = tags@.take(i + 1);
                            assert forall|k: int| 0 <= k < next.len() && (#[trigger] next[k]).cluster_of()
                                == Some(id) implies seq![i].contains(k as usize) by {
                                if k < i {
                                    assert(tags@.take(i as int)[k].cluster_of() == Some(id));
                                }
                                assert(seq![i][0] == i);
                            }
                        }
                        assert(fresh@ =~= seq![i]);
                        assert(ascending(ids@));
                        assert forall|g: int| 0 <= g < ids@.len() implies is_membership(
                            (#[trigger] groups@[g])@,
                            tags@.take(i + 1),
                            ids@[g],
                        ) by {
                            if g < p {
                                assert(groups@[g] == old_groups[g]);
                                assert(ids@[g] == old_ids[g]);
                            } else if g > p {
                                assert(groups@[g] == old_groups[g - 1]);
                                assert(ids@[g] == old_ids[g - 1]);
                            }
                        }
                        assert forall|c: usize| #[trigger] ids@.contains(c) <==> (old_ids.contains(c) || c
                            == id) by {
                            if old_ids.contains(c) {
                                let k = choose|k: int| 0 <= k < old_ids.len() && old_ids[k] == c;
                                if k < p {
                                    assert(ids@[k] == c);
                                } else {
                                    assert(ids@[k + 1] == c);
                                }
                            }
                            if c == id {
                                assert(ids@[p as int] == c);
                            }
                            if ids@.contains(c) {
                                let k = choose|k: int| 0 <= k < ids@.len() && ids@[k] == c;
                                if k < p {
                                    assert(old_ids[k] == c);
                                } else if k > p {
                                    assert(old_ids[k - 1] == c);
                                }
                            }
                        }
                    }
                }
            },
        }
        i = i + 1;
    }
    proof {
        assert(tags@.take(tags@.len() as int) =~= tags@);
        if ids@.len() == 0 {
            assert forall|k: int| 0 <= k < tags@.len() implies #[trigger] tags@[k] is Noise by {
                if !(tags@[k] is Noise) {
                    let id = tags@[k].cluster_of()->0;
                    assert(has_cluster(tags@, id));
                    assert(ids@.contains(id));
                }
            }
        } else {
            assert(ids@.contains(ids@[0]));
            assert(has_cluster(tags@, ids@[0]));
            assert forall|g: int| 0 <= g < groups@.len() implies (#[trigger] matrix(
                groups@,
            )[g]).len() > 0 by {
                assert(ids@.contains(ids@[g]));
                let k = choose|k: int|
                    0 <= k < tags@.len() && (#[trigger] tags@[k]).cluster_of() == Some(ids@[g]);
                assert(is_membership(groups@[g]@, tags@, ids@[g]));
                assert(groups@[g]@.contains(k as usize));
            }
            assert forall|g: int| 0 <= g < ids@.len() implies is_membership(
                #[trigger] matrix(groups@)[g],
                tags@,
                ids@[g],
            ) by {
                assert(is_membership(groups@[g]@, tags@, ids@[g]));
            }
        }
    }
    if ids.len() == 0 {
        Err(TrainError::NoClustersFound)
    } else {
        Ok(Some(Clustering { ids, groups, noise }))
    }
}

/// Every point is placed once. In the clusters of a classification, a point
/// of some cluster stands in the group of that cluster and in no other, and
/// a noise point stands in no group.
pub proof fn law_each_point_once(clusters: Clusters, tags: Seq<ClassificationTag>, i: usize)
    requires
        clusters.reduces(tags),
        i < tags.len(),
    ensures
        tags[i as int] is Noise ==> forall|g: int|
            0 <= g < clusters.groups.len() ==> !(#[trigger] clusters.groups[g]).contains(i),
        tags[i as int].cluster_of() matches Some(id) ==> exists|g: int|
            0 <= g < clusters.groups.len() && clusters.ids[g] == id && (
            #[trigger] clusters.groups[g]).contains(i),
        forall|g: int, h: int|
            0 <= g < clusters.groups.len() && 0 <= h < clusters.groups.len() && (
            #[trigger] clusters.groups[g]).contains(i) && (
            #[trigger] clusters.groups[h]).contains(i) ==> g == h,
{
    assert forall|g: int|
        0 <= g < clusters.groups.len() && (#[trigger] clusters.groups[g]).contains(
            i,
        ) implies tags[i as int].cluster_of() == Some(clusters.ids[g]) by {
        let group = clusters.groups[g];
        assert(is_membership(group, tags, clusters.ids[g]));
        let a = choose|a: int| 0 <= a < group.len() && group[a] == i;
        assert(tags[group[a] as int].cluster_of() == Some(clusters.ids[g]));
    }
    if tags[i as int].cluster_of() is Some {
        let id = tags[i as int].cluster_of()->0;
        assert(has_cluster(tags, id));
        assert(clusters.ids.contains(id));
        let g = choose|g: int| 0 <= g < clusters.ids.len() && clusters.ids[g] == id;
        assert(is_membership(clusters.groups[g], tags, clusters.ids[g]));
        assert(clusters.groups[g].contains(i));
    }
    assert forall|g: int, h: int|
        0 <= g < clusters.groups.len() && 0 <= h < clusters.groups.len() && (
        #[trigger] clusters.groups[g]).contains(i) && (
        #[trigger] clusters.groups[h]).contains(i) implies g == h by {
        assert(clusters.ids[g] == clusters.ids[h]);
        if g < h {
            assert(clusters.ids[g] < clusters.ids[h]);
        }
        if h < g {
            assert(clusters.ids[h] < clusters.ids[g]);
        }
    }
}

} // verus!
