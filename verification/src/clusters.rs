//! Turning the clusters that DBSCAN finds, given as indices into the list of
//! points, into lists of point identifiers.
use vstd::prelude::*;

verus! {

/// The identifiers of the points at the given indices, in the same order.
pub open spec fn ids_at(ids: Seq<i64>, indices: Seq<usize>) -> Seq<i64> {
    indices.map_values(|j: usize| ids[j as int])
}

/// Every index of every list is an index of `ids`.
pub open spec fn indices_in_range(ids: Seq<i64>, lists: Seq<Vec<usize>>) -> bool {
    forall|i: int, k: int|
        0 <= i < lists.len() && 0 <= k < lists[i]@.len() ==> #[trigger] lists[i]@[k] < ids.len()
}

/// What the labelled clusters hold: each cluster as identifiers, in order,
/// followed by one single-point cluster for every noise point.
pub open spec fn labelled(ids: Seq<i64>, clusters: Seq<Vec<usize>>, noise: Seq<usize>) -> Seq<Seq<i64>> {
    clusters.map_values(|c: Vec<usize>| ids_at(ids, c@)) + noise.map_values(|j: usize| seq![ids[j as int]])
}

fn ids_of(ids: &Vec<i64>, indices: &Vec<usize>) -> (r: Vec<i64>)
    requires
        forall|k: int| 0 <= k < indices@.len() ==> #[trigger] indices@[k] < ids@.len(),
    ensures
        r@ == ids_at(ids@, indices@),
{
    let mut r: Vec<i64> = Vec::new();
    let mut k: usize = 0;
    while k < indices.len()
        invariant
            k <= indices@.len(),
            forall|m: int| 0 <= m < indices@.len() ==> #[trigger] indices@[m] < ids@.len(),
            r@ == ids_at(ids@, indices@.take(k as int)),
        decreases indices@.len() - k,
    {
        let j = indices[k];
        r.push(ids[j]);
        assert(indices@.take(k + 1) == indices@.take(k as int).push(j));
        k = k + 1;
    }
    assert(indices@.take(k as int) == indices@);
    r
}

/// Labels the clusters found over a list of points with the points'
/// identifiers: every cluster becomes the list of identifiers of its points,
/// and every noise point becomes a cluster of its own, after all the others.
pub fn label_clusters(ids: &Vec<i64>, clusters: &Vec<Vec<usize>>, noise: &Vec<usize>) -> (r: Vec<
    Vec<i64>,
>)
    requires
        indices_in_range(ids@, clusters@),
        forall|k: int| 0 <= k < noise@.len() ==> #[trigger] noise@[k] < ids@.len(),
    ensures
        r@.map_values(|c: Vec<i64>| c@) == labelled(ids@, clusters@, noise@),
{
    let mut r: Vec<Vec<i64>> = Vec::new();
    let mut i: usize = 0;
    while i < clusters.len()
        invariant
            i <= clusters@.len(),
            indices_in_range(ids@, clusters@),
            r@.len() == i,
            forall|m: int| 0 <= m < i ==> #[trigger] r@[m]@ == ids_at(ids@, clusters@[m]@),
        decreases clusters@.len() - i,
    {
        let c = &clusters[i];
        assert forall|k: int| 0 <= k < c@.len() implies #[trigger] c@[k] < ids@.len() by {
            assert(clusters@[i as int]@[k] < ids@.len());
        }
        let labelled_cluster = ids_of(ids, c);
        r.push(labelled_cluster);
        i = i + 1;
    }
    let mut k: usize = 0;
    while k < noise.len()
        invariant
            k <= noise@.len(),
            forall|m: int| 0 <= m < noise@.len() ==> #[trigger] noise@[m] < ids@.len(),
            r@.len() == clusters@.len() + k,
            forall|m: int| 0 <= m < clusters@.len() ==> #[trigger] r@[m]@ == ids_at(ids@, clusters@[m]@),
            forall|m: int|
                0 <= m < k ==> #[trigger] r@[clusters@.len() + m]@ == seq![ids@[noise@[m] as int]],
        decreases noise@.len() - k,
    {
        let j = noise[k];
        let mut single: Vec<i64> = Vec::new();
        single.push(ids[j]);
        r.push(single);
        assert(r@[clusters@.len() + k]@ == seq![ids@[noise@[k as int] as int]]);
        k = k + 1;
    }
    let ghost lhs = r@.map_values(|c: Vec<i64>| c@);
    let ghost rhs = labelled(ids@, clusters@, noise@);
    assert forall|m: int| 0 <= m < lhs.len() implies lhs[m] == rhs[m] by {
        if m < clusters@.len() {
            assert(rhs[m] == ids_at(ids@, clusters@[m]@));
        } else {
            let q = m - clusters@.len();
            assert(r@[clusters@.len() + q]@ == seq![ids@[noise@[q] as int]]);
            assert(rhs[m] == seq![ids@[noise@[q] as int]]);
        }
    }
    assert(lhs =~= rhs);
    r
}

/// The number of identifiers in a list of clusters.
pub open spec fn total_size(lists: Seq<Seq<i64>>) -> int
    decreases lists.len(),
{
    if lists.len() == 0 {
        0
    } else {
        total_size(lists.drop_last()) + lists.last().len()
    }
}

/// The number of indices in a list of index lists.
pub open spec fn total_indices(lists: Seq<Vec<usize>>) -> int
    decreases lists.len(),
{
    if lists.len() == 0 {
        0
    } else {
        total_indices(lists.drop_last()) + lists.last()@.len()
    }
}

proof fn lemma_total_size_append(a: Seq<Seq<i64>>, b: Seq<Seq<i64>>)
    ensures
        total_size(a + b) == total_size(a) + total_size(b),
    decreases b.len(),
{
    if b.len() > 0 {
        lemma_total_size_append(a, b.drop_last());
        assert((a + b).drop_last() =~= a + b.drop_last());
    } else {
        assert(a + b =~= a);
    }
}

proof fn lemma_cluster_sizes(ids: Seq<i64>, clusters: Seq<Vec<usize>>)
    ensures
        total_size(clusters.map_values(|c: Vec<usize>| ids_at(ids, c@))) == total_indices(clusters),
    decreases clusters.len(),
{
    if clusters.len() > 0 {
        lemma_cluster_sizes(ids, clusters.drop_last());
        assert(clusters.map_values(|c: Vec<usize>| ids_at(ids, c@)).drop_last()
            =~= clusters.drop_last().map_values(|c: Vec<usize>| ids_at(ids, c@)));
    }
}

proof fn lemma_noise_sizes(ids: Seq<i64>, noise: Seq<usize>)
    ensures
        total_size(noise.map_values(|j: usize| seq![ids[j as int]])) == noise.len(),
    decreases noise.len(),
{
    if noise.len() > 0 {
        lemma_noise_sizes(ids, noise.drop_last());
        assert(noise.map_values(|j: usize| seq![ids[j as int]]).drop_last()
            =~= noise.drop_last().map_values(|j: usize| seq![ids[j as int]]));
    }
}

/// Labelling loses and invents no point: the labelled clusters hold as many
/// identifiers as the clusters and the noise hold indices, and there is one
/// labelled cluster for every cluster and every noise point.
pub proof fn law_labelling_keeps_every_point(
    ids: Seq<i64>,
    clusters: Seq<Vec<usize>>,
    noise: Seq<usize>,
)
    ensures
        labelled(ids, clusters, noise).len() == clusters.len() + noise.len(),
        total_size(labelled(ids, clusters, noise)) == total_indices(clusters) + noise.len(),
{
    lemma_total_size_append(
        clusters.map_values(|c: Vec<usize>| ids_at(ids, c@)),
        noise.map_values(|j: usize| seq![ids[j as int]]),
    );
    lemma_cluster_sizes(ids, clusters);
    lemma_noise_sizes(ids, noise);
}

/// Labelling puts, position by position, the identifier of each index where
/// the index stood: the `k`-th entry of the `i`-th labelled cluster is the
/// identifier of the `k`-th index of the `i`-th cluster, and the labelled
/// cluster for the `q`-th noise point holds just that point's identifier.
pub proof fn law_labels_are_identifiers_at_indices(
    ids: Seq<i64>,
    clusters: Seq<Vec<usize>>,
    noise: Seq<usize>,
)
    requires
        indices_in_range(ids, clusters),
        forall|q: int| 0 <= q < noise.len() ==> #[trigger] noise[q] < ids.len(),
    ensures
        forall|i: int, k: int|
            0 <= i < clusters.len() && 0 <= k < clusters[i]@.len() ==> labelled(
                ids,
                clusters,
                noise,
            )[i].len() == clusters[i]@.len() && #[trigger] labelled(ids, clusters, noise)[i][k]
                == ids[clusters[i]@[k] as int],
        forall|q: int|
            0 <= q < noise.len() ==> #[trigger] labelled(ids, clusters, noise)[clusters.len() + q]
                =~= seq![ids[noise[q] as int]],
{
    let l = labelled(ids, clusters, noise);
    assert forall|i: int, k: int|
        0 <= i < clusters.len() && 0 <= k < clusters[i]@.len() implies l[i].len()
        == clusters[i]@.len() && #[trigger] l[i][k] == ids[clusters[i]@[k] as int] by {
        assert(l[i] == ids_at(ids, clusters[i]@));
    }
    assert forall|q: int| 0 <= q < noise.len() implies #[trigger] l[clusters.len() + q]
        =~= seq![ids[noise[q] as int]] by {
        assert(l[clusters.len() + q] == noise.map_values(|j: usize| seq![ids[j as int]])[q]);
    }
}

} // verus!
