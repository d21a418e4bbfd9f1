//! Building an IVF index from the records of a flat index: sampling, k-means training
//! of the centroids, assignment of every record to its nearest centroid, and the
//! grouping of the records list by list.
use vstd::prelude::*;

use crate::index::{spec_records_bytes, spec_squared_distance, squared_distance};
use crate::ivf::{
    ivf_magic_v1, ivf_magic_v2, lemma_partition_key_bound, offsets_are_valid, partition_key,
    spec_ivf_centroids_at, spec_ivf_count, spec_ivf_load_error, spec_ivf_nlist, spec_ivf_offsets,
    spec_ivf_partition_bits, spec_ivf_partition_count, spec_ivf_partitions, spec_ivf_records_at,
    spec_ivf_v2, spec_ivf_end, spec_ivf_header_bytes, spec_ivf_offsets_at, V2_HEADER_BYTES,
    spec_partition_key, spec_partition_meta_at, spec_pow2, IvfPartitionMeta, VERSION,
};
use crate::knn::{is_top_k, lemma_top_k_empty, lemma_top_k_insert, lemma_top_k_is, lemma_top_k_skip, top_k, insert_at};
use crate::index::{lemma_records_bytes_len, lemma_records_bytes_split};
use crate::layout::{
    lemma_record_roundtrip, lemma_u32_roundtrip, lemma_vector_roundtrip, push_record, push_u32_le,
    push_vector, record_at, spec_le_u32, spec_record_bytes, spec_u32_bytes, spec_vector_at,
    spec_vector_bytes, PackedRecord, RECORD_BYTES, VECTOR_BYTES,
};
use crate::vectorize::DIMENSIONS;

verus! {

// ---------------------------------------------------------------------------
// Offsets

/// Sum of the first `n` counts.
pub open spec fn spec_prefix_sum(counts: Seq<u32>, n: int) -> int
    decreases n,
{
    if n <= 0 {
        0
    } else {
        spec_prefix_sum(counts, n - 1) + counts[n - 1]
    }
}

proof fn lemma_prefix_sum_monotone(counts: Seq<u32>, m: int, n: int)
    requires
        0 <= m <= n,
    ensures
        spec_prefix_sum(counts, m) <= spec_prefix_sum(counts, n),
    decreases n - m,
{
    if m < n {
        lemma_prefix_sum_monotone(counts, m, n - 1);
    }
}

/// Where each list starts: the running sums of the list sizes, from 0 to their total.
fn build_offsets(counts: &[u32]) -> (offsets: Vec<u32>)
    requires
        spec_prefix_sum(counts@, counts@.len() as int) <= u32::MAX,
    ensures
        offsets@.len() == counts@.len() + 1,
        forall|l: int| 0 <= l <= counts@.len() ==> #[trigger] offsets@[l] == spec_prefix_sum(counts@, l),
{
    let mut offsets: Vec<u32> = Vec::new();
    offsets.push(0);
    let mut index: usize = 0;
    while index < counts.len()
        invariant
            index <= counts@.len(),
            spec_prefix_sum(counts@, counts@.len() as int) <= u32::MAX,
            offsets@.len() == index + 1,
            forall|l: int| 0 <= l <= index ==> #[trigger] offsets@[l] == spec_prefix_sum(counts@, l),
        decreases counts@.len() - index,
    {
        proof {
            lemma_prefix_sum_monotone(counts@, index + 1, counts@.len() as int);
        }
        let next = offsets[index] + counts[index];
        offsets.push(next);
        index = index + 1;
    }
    offsets
}

// ---------------------------------------------------------------------------
// Sampling

/// The step between sampled records: `len / parts`, at least 1.
pub open spec fn spec_stride(len: int, parts: int) -> int {
    if len / parts < 1 {
        1
    } else {
        len / parts
    }
}

/// Which record the `m`-th sample takes: every `stride`-th record while they last,
/// then records taken round-robin from the start.
pub open spec fn spec_sample_index(len: int, sample_size: int, m: int) -> int {
    let stride = spec_stride(len, sample_size);
    if m * stride < len {
        m * stride
    } else {
        m % len
    }
}

/// The vectors of a sample.
pub open spec fn spec_vector_views(vectors: Seq<[i16; DIMENSIONS]>) -> Seq<Seq<i16>> {
    Seq::new(vectors.len(), |i: int| vectors[i]@)
}

proof fn lemma_stride_bounds(len: int, parts: int)
    requires
        len > 0,
        parts > 0,
    ensures
        1 <= spec_stride(len, parts) <= len,
        len >= parts ==> parts * spec_stride(len, parts) <= len,
        len < parts ==> spec_stride(len, parts) == 1,
{
    assert(len / parts <= len) by (nonlinear_arith)
        requires
            len > 0,
            parts > 0,
    ;
    if len >= parts {
        assert(len / parts >= 1) by (nonlinear_arith)
            requires
                len >= parts,
                parts > 0,
        ;
        assert(parts * (len / parts) <= len) by (nonlinear_arith)
            requires
                len > 0,
                parts > 0,
        ;
    } else {
        assert(len / parts == 0) by (nonlinear_arith)
            requires
                0 < len < parts,
        ;
    }
}

/// `sample_size` vectors spread over the records: every `stride`-th record, then, when
/// the records run out, records from the start again.
fn sample_records(records: &[PackedRecord], sample_size: usize) -> (sample: Vec<
    [i16; DIMENSIONS],
>)
    requires
        records@.len() > 0,
        sample_size > 0,
        records@.len() <= usize::MAX / 2,
    ensures
        sample@.len() == sample_size,
        forall|m: int|
            0 <= m < sample_size ==> #[trigger] sample@[m] == records@[spec_sample_index(
                records@.len() as int,
                sample_size as int,
                m,
            )].vector,
{
    let len = records.len();
    let stride = if len / sample_size < 1 {
        1
    } else {
        len / sample_size
    };
    proof {
        lemma_stride_bounds(len as int, sample_size as int);
    }
    let mut sample: Vec<[i16; DIMENSIONS]> = Vec::new();
    let mut index: usize = 0;
    while index < len && sample.len() < sample_size
        invariant
            len == records@.len(),
            len <= usize::MAX / 2,
            stride == spec_stride(len as int, sample_size as int),
            1 <= stride <= len,
            sample@.len() <= sample_size,
            index == sample@.len() * stride,
            index <= 2 * len,
            forall|m: int|
                0 <= m < sample@.len() ==> #[trigger] sample@[m] == records@[spec_sample_index(
                    len as int,
                    sample_size as int,
                    m,
                )].vector,
        decreases sample_size - sample@.len(),
    {
        assert(spec_sample_index(len as int, sample_size as int, sample@.len() as int) == index);
        sample.push(records[index].vector);
        proof {
            assert((sample@.len() as int) * stride == (sample@.len() - 1) * stride + stride) by (nonlinear_arith);
        }
        index = index + stride;
    }
    while sample.len() < sample_size
        invariant
            len == records@.len(),
            len > 0,
            stride == spec_stride(len as int, sample_size as int),
            1 <= stride,
            sample@.len() <= sample_size,
            sample@.len() < sample_size ==> sample@.len() * stride >= len,
            forall|m: int|
                0 <= m < sample@.len() ==> #[trigger] sample@[m] == records@[spec_sample_index(
                    len as int,
                    sample_size as int,
                    m,
                )].vector,
        decreases sample_size - sample@.len(),
    {
        let m = sample.len();
        proof {
            assert(m * stride >= len);
        }
        sample.push(records[m % len].vector);
        proof {
            assert((m + 1) * stride >= len) by (nonlinear_arith)
                requires
                    m * stride >= len,
                    stride >= 1,
            ;
        }
    }
    sample
}

/// `sample_size` vectors (at least one, at most one per record) spread over the records
/// of one partition, given by their indices.
fn sample_partition_records(
    records: &[PackedRecord],
    indices: &[usize],
    sample_size: usize,
) -> (sample: Vec<[i16; DIMENSIONS]>)
    requires
        indices@.len() > 0,
        indices@.len() <= usize::MAX / 2,
        forall|i: int| 0 <= i < indices@.len() ==> #[trigger] indices@[i] < records@.len(),
    ensures
        sample@.len() == spec_partition_sample_size(sample_size as int, indices@.len() as int),
        forall|m: int|
            0 <= m < sample@.len() ==> #[trigger] sample@[m] == records@[indices@[spec_sample_index(
                indices@.len() as int,
                spec_partition_sample_size(sample_size as int, indices@.len() as int),
                m,
            )] as int].vector,
{
    let len = indices.len();
    let sample_size = if sample_size < len {
        sample_size
    } else {
        len
    };
    let sample_size = if sample_size < 1 {
        1
    } else {
        sample_size
    };
    let stride = if len / sample_size < 1 {
        1
    } else {
        len / sample_size
    };
    proof {
        lemma_stride_bounds(len as int, sample_size as int);
    }
    let mut sample: Vec<[i16; DIMENSIONS]> = Vec::new();
    let mut index: usize = 0;
    while index < len && sample.len() < sample_size
        invariant
            len == indices@.len(),
            len <= usize::MAX / 2,
            forall|i: int| 0 <= i < indices@.len() ==> #[trigger] indices@[i] < records@.len(),
            stride == spec_stride(len as int, sample_size as int),
            1 <= stride <= len,
            sample@.len() <= sample_size,
            index == sample@.len() * stride,
            index <= 2 * len,
            forall|m: int|
                0 <= m < sample@.len() ==> #[trigger] sample@[m] == records@[indices@[spec_sample_index(
                    len as int,
                    sample_size as int,
                    m,
                )] as int].vector,
        decreases sample_size - sample@.len(),
    {
        assert(spec_sample_index(len as int, sample_size as int, sample@.len() as int) == index);
        sample.push(records[indices[index]].vector);
        proof {
            assert((sample@.len() as int) * stride == (sample@.len() - 1) * stride + stride) by (nonlinear_arith);
        }
        index = index + stride;
    }
    while sample.len() < sample_size
        invariant
            len == indices@.len(),
            len > 0,
            forall|i: int| 0 <= i < indices@.len() ==> #[trigger] indices@[i] < records@.len(),
            stride == spec_stride(len as int, sample_size as int),
            1 <= stride,
            sample@.len() <= sample_size,
            sample@.len() < sample_size ==> sample@.len() * stride >= len,
            forall|m: int|
                0 <= m < sample@.len() ==> #[trigger] sample@[m] == records@[indices@[spec_sample_index(
                    len as int,
                    sample_size as int,
                    m,
                )] as int].vector,
        decreases sample_size - sample@.len(),
    {
        let m = sample.len();
        sample.push(records[indices[m % len]].vector);
        proof {
            assert((m + 1) * stride >= len) by (nonlinear_arith)
                requires
                    m * stride >= len,
                    stride >= 1,
            ;
        }
    }
    sample
}

/// The sample size of a partition: the one asked for, at most one per record and at
/// least one.
pub open spec fn spec_partition_sample_size(sample_size: int, len: int) -> int {
    let capped = if sample_size < len {
        sample_size
    } else {
        len
    };
    if capped < 1 {
        1
    } else {
        capped
    }
}

// ---------------------------------------------------------------------------
// Centroids

/// The first centroids: `nlist` sample vectors taken every `stride` vectors, round
/// robin.
pub open spec fn spec_initial_centroids(sample: Seq<Seq<i16>>, nlist: int) -> Seq<Seq<i16>> {
    let stride = spec_stride(sample.len() as int, nlist);
    Seq::new(nlist as nat, |i: int| sample[(i * stride) % (sample.len() as int)])
}

fn initial_centroids(sample: &[[i16; DIMENSIONS]], nlist: usize) -> (centroids: Vec<
    [i16; DIMENSIONS],
>)
    requires
        sample@.len() > 0,
        nlist > 0,
    ensures
        spec_vector_views(centroids@) == spec_initial_centroids(
            spec_vector_views(sample@),
            nlist as int,
        ),
        centroids@.len() == nlist,
{
    let len = sample.len();
    let stride = if len / nlist < 1 {
        1
    } else {
        len / nlist
    };
    proof {
        lemma_stride_bounds(len as int, nlist as int);
    }
    let mut centroids: Vec<[i16; DIMENSIONS]> = Vec::new();
    let mut index: usize = 0;
    while centroids.len() < nlist
        invariant
            len == sample@.len(),
            len > 0,
            stride == spec_stride(len as int, nlist as int),
            1 <= stride <= len,
            len >= nlist ==> nlist * stride <= len,
            len < nlist ==> stride == 1,
            centroids@.len() <= nlist,
            index == centroids@.len() * stride,
            index <= if len >= nlist {
                len
            } else {
                nlist
            },
            forall|i: int|
                0 <= i < centroids@.len() ==> #[trigger] centroids@[i] == sample@[(i * stride) % (
                len as int)],
        decreases nlist - centroids@.len(),
    {
        centroids.push(sample[index % len]);
        proof {
            let c = centroids@.len() as int;
            assert(c * stride == (c - 1) * stride + stride) by (nonlinear_arith);
            if len >= nlist {
                assert(c * stride <= nlist * stride) by (nonlinear_arith)
                    requires
                        c <= nlist,
                        stride >= 1,
                ;
            }
        }
        index = index + stride;
    }
    assert(spec_vector_views(centroids@) =~= spec_initial_centroids(
        spec_vector_views(sample@),
        nlist as int,
    ));
    centroids
}

/// The squared distance from `v` to each centroid.
pub open spec fn spec_centroid_distances(v: Seq<i16>, centroids: Seq<Seq<i16>>) -> Seq<int> {
    Seq::new(centroids.len(), |i: int| spec_squared_distance(v, centroids[i]))
}

/// The nearest centroid to `v`, the first one among equally near ones (0 when there is
/// none).
pub open spec fn spec_nearest(v: Seq<i16>, centroids: Seq<Seq<i16>>) -> int {
    if centroids.len() == 0 {
        0
    } else {
        top_k(spec_centroid_distances(v, centroids), 1)[0]
    }
}

proof fn lemma_nearest_bounds(v: Seq<i16>, centroids: Seq<Seq<i16>>)
    requires
        centroids.len() > 0,
        exists|chosen: Seq<int>| is_top_k(spec_centroid_distances(v, centroids), 1, chosen),
    ensures
        0 <= spec_nearest(v, centroids) < centroids.len(),
{
    let keys = spec_centroid_distances(v, centroids);
    let chosen = choose|chosen: Seq<int>| is_top_k(keys, 1, chosen);
    lemma_top_k_is(keys, 1, chosen);
}

/// The index of the centroid nearest to `vector`: the first of the nearest ones, and 0
/// when there are no centroids.
fn nearest_centroid(vector: &[i16; DIMENSIONS], centroids: &[[i16; DIMENSIONS]]) -> (nearest: usize)
    ensures
        nearest == spec_nearest(vector@, spec_vector_views(centroids@)),
        centroids@.len() > 0 ==> nearest < centroids@.len(),
{
    let ghost views = spec_vector_views(centroids@);
    let ghost keys = spec_centroid_distances(vector@, views);
    let mut best_index: usize = 0;
    let mut best_distance: i64 = i64::MAX;
    let mut index: usize = 0;
    proof {
        lemma_top_k_empty(keys, 1);
    }
    while index < centroids.len()
        invariant
            index <= centroids@.len(),
            views == spec_vector_views(centroids@),
            keys == spec_centroid_distances(vector@, views),
            index == 0 ==> best_distance == i64::MAX && best_index == 0,
            index > 0 ==> best_index < index && best_distance == keys[best_index as int]
                && is_top_k(keys.take(index as int), 1, seq![best_index as int]),
        decreases centroids@.len() - index,
    {
        let distance = squared_distance(vector, &centroids[index]);
        proof {
            assert(keys[index as int] == distance);
            if index == 0 {
                lemma_top_k_insert(keys, 1, Seq::empty(), 0, 0);
                assert(insert_at(Seq::<int>::empty(), 0, 0, 1) =~= seq![0int]);
            } else if distance < best_distance {
                lemma_top_k_insert(keys, 1, seq![best_index as int], index as int, 0);
                assert(insert_at(seq![best_index as int], 0, index as int, 1) =~= seq![index as int]);
            } else {
                lemma_top_k_skip(keys, 1, seq![best_index as int], index as int);
            }
        }
        if distance < best_distance {
            best_distance = distance;
            best_index = index;
        }
        index = index + 1;
    }
    proof {
        if centroids@.len() > 0 {
            assert(keys.take(centroids@.len() as int) =~= keys);
            lemma_top_k_is(keys, 1, seq![best_index as int]);
        }
    }
    best_index
}

// ---------------------------------------------------------------------------
// Training

/// The centroid the `i`-th sample vector is nearest to.
pub open spec fn spec_assigned(sample: Seq<Seq<i16>>, centroids: Seq<Seq<i16>>, i: int) -> int {
    spec_nearest(sample[i], centroids)
}

/// How many of the first `n` sample vectors are nearest to centroid `c`.
pub open spec fn spec_cluster_size(
    sample: Seq<Seq<i16>>,
    centroids: Seq<Seq<i16>>,
    c: int,
    n: int,
) -> int
    decreases n,
{
    if n <= 0 {
        0
    } else {
        spec_cluster_size(sample, centroids, c, n - 1) + if spec_assigned(sample, centroids, n - 1)
            == c {
            1int
        } else {
            0int
        }
    }
}

/// Sum of component `d` over the first `n` sample vectors nearest to centroid `c`.
pub open spec fn spec_cluster_sum(
    sample: Seq<Seq<i16>>,
    centroids: Seq<Seq<i16>>,
    c: int,
    d: int,
    n: int,
) -> int
    decreases n,
{
    if n <= 0 {
        0
    } else {
        spec_cluster_sum(sample, centroids, c, d, n - 1) + if spec_assigned(
            sample,
            centroids,
            n - 1,
        ) == c {
            sample[n - 1][d] as int
        } else {
            0int
        }
    }
}

/// Division rounding toward zero.
pub open spec fn spec_trunc_div(a: int, b: int) -> int {
    if a >= 0 {
        a / b
    } else {
        -((-a) / b)
    }
}

/// One round of k-means: each centroid moves to the mean (rounded toward zero) of the
/// sample vectors nearest to it; a centroid that no vector is nearest to is replaced by
/// the sample vector at its index, round robin.
pub open spec fn spec_kmeans_step(sample: Seq<Seq<i16>>, centroids: Seq<Seq<i16>>) -> Seq<
    Seq<i16>,
> {
    Seq::new(
        centroids.len(),
        |c: int|
            {
                let size = spec_cluster_size(sample, centroids, c, sample.len() as int);
                if size == 0 {
                    sample[c % (sample.len() as int)]
                } else {
                    Seq::new(
                        DIMENSIONS as nat,
                        |d: int|
                            spec_trunc_div(
                                spec_cluster_sum(sample, centroids, c, d, sample.len() as int),
                                size,
                            ) as i16,
                    )
                }
            },
    )
}

/// `iterations` rounds of k-means from the given centroids.
pub open spec fn spec_train(sample: Seq<Seq<i16>>, centroids: Seq<Seq<i16>>, iterations: nat) -> Seq<
    Seq<i16>,
>
    decreases iterations,
{
    if iterations == 0 {
        centroids
    } else {
        spec_kmeans_step(sample, spec_train(sample, centroids, (iterations - 1) as nat))
    }
}

/// The centroids trained on a sample: `nlist` initial ones, then `iterations` rounds.
pub open spec fn spec_trained_centroids(sample: Seq<Seq<i16>>, nlist: int, iterations: int) -> Seq<
    Seq<i16>,
> {
    spec_train(sample, spec_initial_centroids(sample, nlist), iterations as nat)
}

/// Every vector of the sequence has `DIMENSIONS` components.
pub open spec fn all_full_vectors(vectors: Seq<Seq<i16>>) -> bool {
    forall|i: int| 0 <= i < vectors.len() ==> (#[trigger] vectors[i]).len() == DIMENSIONS
}

fn kmeans_iteration(sample: &[[i16; DIMENSIONS]], centroids: &mut Vec<[i16; DIMENSIONS]>)
    requires
        sample@.len() > 0,
        sample@.len() <= u32::MAX,
        old(centroids)@.len() > 0,
    ensures
        spec_vector_views(final(centroids)@) == spec_kmeans_step(
            spec_vector_views(sample@),
            spec_vector_views(old(centroids)@),
        ),
{
    let nlist = centroids.len();
    let ghost sv = spec_vector_views(sample@);
    let ghost cv = spec_vector_views(centroids@);
    let mut sums: Vec<[i64; DIMENSIONS]> = Vec::new();
    let mut counts: Vec<u32> = Vec::new();
    let mut c: usize = 0;
    while c < nlist
        invariant
            c <= nlist,
            sums@.len() == c,
            counts@.len() == c,
            forall|e: int| 0 <= e < c ==> #[trigger] counts@[e] == 0,
            forall|e: int, d: int| 0 <= e < c && 0 <= d < DIMENSIONS ==> #[trigger] sums@[e][d] == 0,
        decreases nlist - c,
    {
        sums.push([0i64; 14]);
        counts.push(0);
        c = c + 1;
    }
    let mut i: usize = 0;
    while i < sample.len()
        invariant
            i <= sample@.len(),
            sample@.len() <= u32::MAX,
            nlist == centroids@.len(),
            nlist > 0,
            sv == spec_vector_views(sample@),
            cv == spec_vector_views(centroids@),
            sums@.len() == nlist,
            counts@.len() == nlist,
            forall|e: int|
                0 <= e < nlist ==> #[trigger] counts@[e] == spec_cluster_size(sv, cv, e, i as int),
            forall|e: int, d: int|
                0 <= e < nlist && 0 <= d < DIMENSIONS ==> #[trigger] sums@[e][d]
                    == spec_cluster_sum(sv, cv, e, d, i as int),
            forall|e: int| 0 <= e < nlist ==> 0 <= #[trigger] spec_cluster_size(sv, cv, e, i as int) <= i,
            forall|e: int, d: int|
                0 <= e < nlist && 0 <= d < DIMENSIONS ==> -32768 * spec_cluster_size(
                    sv,
                    cv,
                    e,
                    i as int,
                ) <= #[trigger] spec_cluster_sum(sv, cv, e, d, i as int) <= 32767
                    * spec_cluster_size(sv, cv, e, i as int),
        decreases sample@.len() - i,
    {
        let centroid = nearest_centroid(&sample[i], centroids.as_slice());
        assert(centroid == spec_assigned(sv, cv, i as int));
        let mut row = sums[centroid];
        let mut d: usize = 0;
        while d < DIMENSIONS
            invariant
                d <= DIMENSIONS,
                i < sample@.len(),
                centroid < nlist,
                sums@.len() == nlist,
                forall|e: int|
                    0 <= e < DIMENSIONS ==> (#[trigger] row[e]) == spec_cluster_sum(
                        sv,
                        cv,
                        centroid as int,
                        e,
                        i as int,
                    ) + if e < d {
                        sample@[i as int][e] as int
                    } else {
                        0int
                    },
                forall|e: int, f: int|
                    0 <= e < nlist && 0 <= f < DIMENSIONS ==> -32768 * spec_cluster_size(
                        sv,
                        cv,
                        e,
                        i as int,
                    ) <= #[trigger] spec_cluster_sum(sv, cv, e, f, i as int) <= 32767
                        * spec_cluster_size(sv, cv, e, i as int),
                forall|e: int| 0 <= e < nlist ==> 0 <= #[trigger] spec_cluster_size(sv, cv, e, i as int) <= i,
                i <= u32::MAX,
                sv == spec_vector_views(sample@),
            decreases DIMENSIONS - d,
        {
            proof {
                assert(-32768 * i <= spec_cluster_sum(sv, cv, centroid as int, d as int, i as int)
                    <= 32767 * i) by (nonlinear_arith)
                    requires
                        -32768 * spec_cluster_size(sv, cv, centroid as int, i as int)
                            <= spec_cluster_sum(sv, cv, centroid as int, d as int, i as int)
                            <= 32767 * spec_cluster_size(sv, cv, centroid as int, i as int),
                        0 <= spec_cluster_size(sv, cv, centroid as int, i as int) <= i,
                ;
            }
            row[d] = row[d] + sample[i][d] as i64;
            d = d + 1;
        }
        sums.set(centroid, row);
        counts.set(centroid, counts[centroid] + 1);
        proof {
            assert forall|e: int| 0 <= e < nlist implies #[trigger] counts@[e] == spec_cluster_size(
                sv,
                cv,
                e,
                i + 1,
            ) by {}
            assert forall|e: int, f: int| 0 <= e < nlist && 0 <= f < DIMENSIONS implies #[trigger] sums@[e][f] == spec_cluster_sum(sv, cv, e, f, i + 1) by {
                assert(sv[i as int] == sample@[i as int]@);
            }
            assert forall|e: int| 0 <= e < nlist implies 0 <= #[trigger] spec_cluster_size(sv, cv, e, i + 1)
                <= i + 1 by {
                assert(0 <= spec_cluster_size(sv, cv, e, i as int) <= i);
            }
            assert forall|e: int, f: int| 0 <= e < nlist && 0 <= f < DIMENSIONS implies -32768
                * spec_cluster_size(sv, cv, e, i + 1) <= #[trigger] spec_cluster_sum(
                sv,
                cv,
                e,
                f,
                i + 1,
            ) <= 32767 * spec_cluster_size(sv, cv, e, i + 1) by {
                assert(sv[i as int] == sample@[i as int]@);
                assert(spec_cluster_sum(sv, cv, e, f, i as int) <= 32767 * spec_cluster_size(
                    sv,
                    cv,
                    e,
                    i as int,
                ));
            }
        }
        i = i + 1;
    }
    let ghost step = spec_kmeans_step(sv, cv);
    let mut centroid_index: usize = 0;
    while centroid_index < nlist
        invariant
            centroid_index <= nlist,
            nlist == centroids@.len(),
            sample@.len() > 0,
            sv == spec_vector_views(sample@),
            step == spec_kmeans_step(sv, cv),
            cv.len() == nlist,
            sums@.len() == nlist,
            counts@.len() == nlist,
            forall|e: int|
                0 <= e < nlist ==> #[trigger] counts@[e] == spec_cluster_size(
                    sv,
                    cv,
                    e,
                    sample@.len() as int,
                ),
            forall|e: int, d: int|
                0 <= e < nlist && 0 <= d < DIMENSIONS ==> #[trigger] sums@[e][d]
                    == spec_cluster_sum(sv, cv, e, d, sample@.len() as int),
            forall|e: int, d: int|
                0 <= e < nlist && 0 <= d < DIMENSIONS ==> -32768 * spec_cluster_size(
                    sv,
                    cv,
                    e,
                    sample@.len() as int,
                ) <= #[trigger] spec_cluster_sum(sv, cv, e, d, sample@.len() as int) <= 32767
                    * spec_cluster_size(sv, cv, e, sample@.len() as int),
            forall|e: int| 0 <= e < centroid_index ==> #[trigger] centroids@[e]@ == step[e],
        decreases nlist - centroid_index,
    {
        if counts[centroid_index] == 0 {
            let replacement = sample[centroid_index % sample.len()];
            centroids.set(centroid_index, replacement);
        } else {
            let count = counts[centroid_index] as i64;
            let sums_row = sums[centroid_index];
            let mut updated = centroids[centroid_index];
            let mut d: usize = 0;
            while d < DIMENSIONS
                invariant
                    d <= DIMENSIONS,
                    count >= 1,
                    count <= u32::MAX,
                    forall|f: int|
                        0 <= f < DIMENSIONS ==> -32768 * count <= #[trigger] sums_row[f] <= 32767
                            * count,
                    forall|f: int|
                        0 <= f < d ==> #[trigger] updated[f] == spec_trunc_div(
                            sums_row[f] as int,
                            count as int,
                        ) as i16,
                decreases DIMENSIONS - d,
            {
                let total = sums_row[d];
                let mean = if total >= 0 {
                    total / count
                } else {
                    -((-total) / count)
                };
                proof {
                    assert(-32768 <= spec_trunc_div(total as int, count as int) <= 32767) by (
                    nonlinear_arith)
                        requires
                            -32768 * count <= total <= 32767 * count,
                            count >= 1,
                    ;
                }
                updated[d] = mean as i16;
                d = d + 1;
            }
            centroids.set(centroid_index, updated);
            proof {
                assert(centroids@[centroid_index as int]@ =~= step[centroid_index as int]);
            }
        }
        centroid_index = centroid_index + 1;
    }
    assert(spec_vector_views(centroids@) =~= step);
}

/// Centroids trained by k-means on the sample: `nlist` initial ones, then `iterations`
/// rounds.
fn train_centroids(sample: &[[i16; DIMENSIONS]], nlist: usize, iterations: usize) -> (centroids:
    Vec<[i16; DIMENSIONS]>)
    requires
        sample@.len() > 0,
        sample@.len() <= u32::MAX,
        nlist > 0,
    ensures
        spec_vector_views(centroids@) == spec_trained_centroids(
            spec_vector_views(sample@),
            nlist as int,
            iterations as int,
        ),
        centroids@.len() == nlist,
{
    let mut centroids = initial_centroids(sample, nlist);
    let ghost sv = spec_vector_views(sample@);
    let ghost init = spec_initial_centroids(sv, nlist as int);
    let mut iteration: usize = 0;
    while iteration < iterations
        invariant
            iteration <= iterations,
            sample@.len() > 0,
            sample@.len() <= u32::MAX,
            sv == spec_vector_views(sample@),
            centroids@.len() == nlist,
            nlist > 0,
            spec_vector_views(centroids@) == spec_train(sv, init, iteration as nat),
        decreases iterations - iteration,
    {
        kmeans_iteration(sample, &mut centroids);
        proof {
            assert(spec_vector_views(centroids@).len() == nlist);
        }
        iteration = iteration + 1;
    }
    centroids
}

// ---------------------------------------------------------------------------
// Grouping the records list by list

/// The records among the first `n` assigned to list `l`, in record order.
pub open spec fn spec_list_members(
    records: Seq<PackedRecord>,
    assignment: Seq<usize>,
    l: int,
    n: int,
) -> Seq<PackedRecord>
    decreases n,
{
    if n <= 0 {
        Seq::empty()
    } else {
        let before = spec_list_members(records, assignment, l, n - 1);
        if assignment[n - 1] == l {
            before.push(records[n - 1])
        } else {
            before
        }
    }
}

/// The records of lists `0..m`, list after list.
pub open spec fn spec_grouped(records: Seq<PackedRecord>, assignment: Seq<usize>, m: int) -> Seq<
    PackedRecord,
>
    decreases m,
{
    if m <= 0 {
        Seq::empty()
    } else {
        spec_grouped(records, assignment, m - 1) + spec_list_members(
            records,
            assignment,
            m - 1,
            records.len() as int,
        )
    }
}

/// Where each of the `nlist` lists starts in the grouped records, and where the last
/// one ends.
pub open spec fn spec_group_offsets(records: Seq<PackedRecord>, assignment: Seq<usize>, nlist: int) -> Seq<
    u32,
> {
    Seq::new((nlist + 1) as nat, |l: int| spec_grouped(records, assignment, l).len() as u32)
}

/// Sum over lists `0..m` of how many of the first `n` records each holds.
pub open spec fn spec_members_total(
    records: Seq<PackedRecord>,
    assignment: Seq<usize>,
    m: int,
    n: int,
) -> int
    decreases m,
{
    if m <= 0 {
        0
    } else {
        spec_members_total(records, assignment, m - 1, n) + spec_list_members(
            records,
            assignment,
            m - 1,
            n,
        ).len()
    }
}

proof fn lemma_members_total_step(
    records: Seq<PackedRecord>,
    assignment: Seq<usize>,
    m: int,
    n: int,
)
    requires
        0 <= m,
        0 < n,
    ensures
        spec_members_total(records, assignment, m, n) == spec_members_total(
            records,
            assignment,
            m,
            n - 1,
        ) + if assignment[n - 1] < m {
            1int
        } else {
            0int
        },
    decreases m,
{
    if m > 0 {
        lemma_members_total_step(records, assignment, m - 1, n);
    }
}

/// Every record lies in exactly one of the lists below `nlist`.
proof fn lemma_members_total(records: Seq<PackedRecord>, assignment: Seq<usize>, nlist: int, n: int)
    requires
        0 <= n <= assignment.len(),
        0 <= nlist,
        forall|i: int| 0 <= i < n ==> #[trigger] assignment[i] < nlist,
    ensures
        spec_members_total(records, assignment, nlist, n) == n,
    decreases n,
{
    if n > 0 {
        lemma_members_total(records, assignment, nlist, n - 1);
        lemma_members_total_step(records, assignment, nlist, n);
    } else {
        lemma_members_total_zero(records, assignment, nlist);
    }
}

proof fn lemma_members_total_zero(records: Seq<PackedRecord>, assignment: Seq<usize>, m: int)
    requires
        0 <= m,
    ensures
        spec_members_total(records, assignment, m, 0) == 0,
    decreases m,
{
    if m > 0 {
        lemma_members_total_zero(records, assignment, m - 1);
    }
}

proof fn lemma_grouped_len(records: Seq<PackedRecord>, assignment: Seq<usize>, m: int)
    requires
        0 <= m,
    ensures
        spec_grouped(records, assignment, m).len() == spec_members_total(
            records,
            assignment,
            m,
            records.len() as int,
        ),
    decreases m,
{
    if m > 0 {
        lemma_grouped_len(records, assignment, m - 1);
    }
}

proof fn lemma_members_len_monotone(
    records: Seq<PackedRecord>,
    assignment: Seq<usize>,
    l: int,
    n: int,
    m: int,
)
    requires
        0 <= n <= m,
    ensures
        spec_list_members(records, assignment, l, n).len() <= spec_list_members(
            records,
            assignment,
            l,
            m,
        ).len(),
        spec_list_members(records, assignment, l, n).len() <= n,
    decreases m,
{
    if n < m {
        lemma_members_len_monotone(records, assignment, l, n, m - 1);
    } else if n > 0 {
        lemma_members_len_monotone(records, assignment, l, n - 1, n - 1);
    }
}

proof fn lemma_members_prefix(
    records: Seq<PackedRecord>,
    assignment: Seq<usize>,
    l: int,
    n: int,
    m: int,
)
    requires
        0 <= n <= m,
    ensures
        forall|t: int|
            0 <= t < spec_list_members(records, assignment, l, n).len() ==> #[trigger] spec_list_members(
                records,
                assignment,
                l,
                m,
            )[t] == spec_list_members(records, assignment, l, n)[t],
    decreases m,
{
    if n < m {
        lemma_members_prefix(records, assignment, l, n, m - 1);
        lemma_members_len_monotone(records, assignment, l, n, m - 1);
    }
}

/// Groups the records by their list: the lists one after another, each in record
/// order, and where each list starts.
fn group_records(records: &[PackedRecord], assignment: &[usize], nlist: usize) -> (grouped: (
    Vec<u32>,
    Vec<PackedRecord>,
))
    requires
        records@.len() == assignment@.len(),
        records@.len() <= u32::MAX,
        forall|i: int| 0 <= i < assignment@.len() ==> #[trigger] assignment@[i] < nlist,
    ensures
        grouped.0@ == spec_group_offsets(records@, assignment@, nlist as int),
        grouped.1@ == spec_grouped(records@, assignment@, nlist as int),
        grouped.0@[nlist as int] == records@.len(),
{
    let ghost rs = records@;
    let ghost asg = assignment@;
    let count = records.len();
    let mut counts: Vec<u32> = Vec::new();
    let mut l: usize = 0;
    while l < nlist
        invariant
            l <= nlist,
            counts@.len() == l,
            forall|e: int| 0 <= e < l ==> #[trigger] counts@[e] == 0,
        decreases nlist - l,
    {
        counts.push(0);
        l = l + 1;
    }
    let mut i: usize = 0;
    while i < count
        invariant
            i <= count,
            count == rs.len(),
            rs == records@,
            asg == assignment@,
            rs.len() == asg.len(),
            count <= u32::MAX,
            forall|e: int| 0 <= e < asg.len() ==> #[trigger] asg[e] < nlist,
            counts@.len() == nlist,
            forall|e: int|
                0 <= e < nlist ==> #[trigger] counts@[e] == spec_list_members(rs, asg, e, i as int).len(),
        decreases count - i,
    {
        let list = assignment[i];
        proof {
            lemma_members_len_monotone(rs, asg, list as int, i as int, i as int);
        }
        counts.set(list, counts[list] + 1);
        i = i + 1;
    }
    proof {
        assert forall|m: int| 0 <= m <= nlist implies spec_prefix_sum(counts@, m)
            == spec_grouped(rs, asg, m).len() by {
            lemma_prefix_sum_grouped(rs, asg, counts@, m);
        }
        lemma_grouped_len(rs, asg, nlist as int);
        lemma_members_total(rs, asg, nlist as int, count as int);
    }
    let offsets = build_offsets(counts.as_slice());
    let zero = PackedRecord { vector: [0i16; 14], label: 0, _padding: 0 };
    let mut grouped_records: Vec<PackedRecord> = Vec::new();
    let mut k: usize = 0;
    while k < count
        invariant
            k <= count,
            grouped_records@.len() == k,
        decreases count - k,
    {
        grouped_records.push(zero);
        k = k + 1;
    }
    let mut positions: Vec<u32> = Vec::new();
    let mut l: usize = 0;
    while l < nlist
        invariant
            l <= nlist,
            offsets@.len() == nlist + 1,
            positions@.len() == l,
            forall|e: int| 0 <= e < l ==> #[trigger] positions@[e] == offsets@[e],
        decreases nlist - l,
    {
        positions.push(offsets[l]);
        l = l + 1;
    }
    let mut i: usize = 0;
    while i < count
        invariant
            i <= count,
            count == rs.len(),
            rs == records@,
            asg == assignment@,
            rs.len() == asg.len(),
            forall|e: int| 0 <= e < asg.len() ==> #[trigger] asg[e] < nlist,
            grouped_records@.len() == count,
            positions@.len() == nlist,
            offsets@.len() == nlist + 1,
            forall|e: int|
                0 <= e <= nlist ==> #[trigger] offsets@[e] == spec_grouped(rs, asg, e).len(),
            forall|e: int|
                0 <= e < nlist ==> #[trigger] positions@[e] == offsets@[e] + spec_list_members(
                    rs,
                    asg,
                    e,
                    i as int,
                ).len(),
            forall|e: int, t: int|
                0 <= e < nlist && 0 <= t < spec_list_members(rs, asg, e, i as int).len()
                    ==> grouped_records@[offsets@[e] + t] == #[trigger] spec_list_members(
                    rs,
                    asg,
                    e,
                    i as int,
                )[t],
            offsets@[nlist as int] == count,
        decreases count - i,
    {
        let list = assignment[i];
        let position = positions[list] as usize;
        proof {
            lemma_members_len_monotone(rs, asg, list as int, i + 1, count as int);
            assert(spec_grouped(rs, asg, list + 1) == spec_grouped(rs, asg, list as int)
                + spec_list_members(rs, asg, list as int, count as int));
            lemma_grouped_monotone(rs, asg, list + 1, nlist as int);
            assert(position < offsets@[list + 1]);
        }
        let ghost before = grouped_records@;
        grouped_records.set(position, records[i]);
        positions.set(list, positions[list] + 1);
        proof {
            assert forall|e: int, t: int|
                0 <= e < nlist && 0 <= t < spec_list_members(rs, asg, e, i + 1).len()
                    implies grouped_records@[offsets@[e] + t] == #[trigger] spec_list_members(
                    rs,
                    asg,
                    e,
                    i + 1,
                )[t] by {
                if e == list as int {
                    if t < spec_list_members(rs, asg, e, i as int).len() {
                        assert(offsets@[e] + t != position);
                        assert(before[offsets@[e] + t] == spec_list_members(rs, asg, e, i as int)[t]);
                    } else {
                        assert(offsets@[e] + t == position);
                        assert(spec_list_members(rs, asg, e, i + 1) == spec_list_members(rs, asg, e, i as int).push(rs[i as int]));
                        assert(grouped_records@[position as int] == rs[i as int]);
                    }
                } else {
                    assert(spec_list_members(rs, asg, e, i + 1) == spec_list_members(rs, asg, e, i as int));
                    lemma_members_len_monotone(rs, asg, e, i as int, count as int);
                    assert(spec_grouped(rs, asg, e + 1) == spec_grouped(rs, asg, e)
                        + spec_list_members(rs, asg, e, count as int));
                    if e < list {
                        lemma_grouped_monotone(rs, asg, e + 1, list as int);
                    } else {
                        lemma_grouped_monotone(rs, asg, list + 1, e);
                    }
                    assert(offsets@[e] + t < offsets@[e + 1]);
                    lemma_grouped_monotone(rs, asg, e + 1, nlist as int);
                    assert(offsets@[e] + t != position);
                    assert(before[offsets@[e] + t] == spec_list_members(rs, asg, e, i as int)[t]);
                }
            }
        }
        i = i + 1;
    }
    proof {
        lemma_grouped_matches(rs, asg, grouped_records@, offsets@, nlist as int, nlist as int);
        assert(grouped_records@.subrange(0, offsets@[nlist as int] as int) =~= grouped_records@);
        assert(offsets@ =~= spec_group_offsets(rs, asg, nlist as int));
    }
    (offsets, grouped_records)
}

proof fn lemma_prefix_sum_grouped(
    records: Seq<PackedRecord>,
    assignment: Seq<usize>,
    counts: Seq<u32>,
    m: int,
)
    requires
        0 <= m <= counts.len(),
        forall|e: int|
            0 <= e < counts.len() ==> #[trigger] counts[e] == spec_list_members(
                records,
                assignment,
                e,
                records.len() as int,
            ).len(),
    ensures
        spec_prefix_sum(counts, m) == spec_grouped(records, assignment, m).len(),
    decreases m,
{
    if m > 0 {
        lemma_prefix_sum_grouped(records, assignment, counts, m - 1);
    }
}

proof fn lemma_grouped_monotone(records: Seq<PackedRecord>, assignment: Seq<usize>, m: int, n: int)
    requires
        0 <= m <= n,
    ensures
        spec_grouped(records, assignment, m).len() <= spec_grouped(records, assignment, n).len(),
    decreases n,
{
    if m < n {
        lemma_grouped_monotone(records, assignment, m, n - 1);
    }
}

proof fn lemma_grouped_matches(
    records: Seq<PackedRecord>,
    assignment: Seq<usize>,
    grouped: Seq<PackedRecord>,
    offsets: Seq<u32>,
    nlist: int,
    m: int,
)
    requires
        0 <= m <= nlist,
        offsets.len() == nlist + 1,
        forall|e: int|
            0 <= e <= nlist ==> #[trigger] offsets[e] == spec_grouped(records, assignment, e).len(),
        forall|e: int, t: int|
            0 <= e < nlist && 0 <= t < spec_list_members(
                records,
                assignment,
                e,
                records.len() as int,
            ).len() ==> grouped[offsets[e] + t] == #[trigger] spec_list_members(
                records,
                assignment,
                e,
                records.len() as int,
            )[t],
        offsets[nlist] <= grouped.len(),
    ensures
        grouped.subrange(0, offsets[m] as int) == spec_grouped(records, assignment, m),
    decreases m,
{
    lemma_grouped_monotone(records, assignment, m, nlist);
    if m > 0 {
        lemma_grouped_matches(records, assignment, grouped, offsets, nlist, m - 1);
        let members = spec_list_members(records, assignment, m - 1, records.len() as int);
        assert(grouped.subrange(0, offsets[m] as int) =~= grouped.subrange(
            0,
            offsets[m - 1] as int,
        ) + members);
    } else {
        assert(grouped.subrange(0, offsets[m] as int) =~= Seq::<PackedRecord>::empty());
    }
}

// ---------------------------------------------------------------------------
// Writing an index

/// The bytes of vectors, one after another.
pub open spec fn spec_vectors_bytes(vectors: Seq<Seq<i16>>) -> Seq<u8>
    decreases vectors.len(),
{
    if vectors.len() == 0 {
        Seq::empty()
    } else {
        spec_vectors_bytes(vectors.drop_last()) + spec_vector_bytes(vectors.last())
    }
}

/// The bytes of 32-bit words, one after another.
pub open spec fn spec_words_bytes(words: Seq<u32>) -> Seq<u8>
    decreases words.len(),
{
    if words.len() == 0 {
        Seq::empty()
    } else {
        spec_words_bytes(words.drop_last()) + spec_u32_bytes(words.last())
    }
}

/// The bytes of one partition entry.
pub open spec fn spec_partition_meta_bytes(meta: IvfPartitionMeta) -> Seq<u8> {
    spec_u32_bytes(meta.centroid_start) + spec_u32_bytes(meta.centroid_count) + spec_u32_bytes(
        meta.record_start,
    ) + spec_u32_bytes(meta.record_count)
}

/// The bytes of partition entries, one after another.
pub open spec fn spec_partitions_bytes(metas: Seq<IvfPartitionMeta>) -> Seq<u8>
    decreases metas.len(),
{
    if metas.len() == 0 {
        Seq::empty()
    } else {
        spec_partitions_bytes(metas.drop_last()) + spec_partition_meta_bytes(metas.last())
    }
}

/// A version 1 IVF file.
pub open spec fn spec_standard_ivf_bytes(
    count: int,
    centroids: Seq<Seq<i16>>,
    offsets: Seq<u32>,
    grouped: Seq<PackedRecord>,
) -> Seq<u8> {
    ivf_magic_v1() + spec_u32_bytes(VERSION) + spec_u32_bytes(count as u32) + spec_u32_bytes(
        centroids.len() as u32,
    ) + spec_vectors_bytes(centroids) + spec_words_bytes(offsets) + spec_records_bytes(grouped)
}

/// A version 2 IVF file.
pub open spec fn spec_partitioned_ivf_bytes(
    count: int,
    partition_bits: int,
    partitions: Seq<IvfPartitionMeta>,
    centroids: Seq<Seq<i16>>,
    offsets: Seq<u32>,
    grouped: Seq<PackedRecord>,
) -> Seq<u8> {
    ivf_magic_v2() + spec_u32_bytes(VERSION) + spec_u32_bytes(count as u32) + spec_u32_bytes(
        centroids.len() as u32,
    ) + spec_u32_bytes(partition_bits as u32) + spec_u32_bytes(partitions.len() as u32)
        + spec_partitions_bytes(partitions) + spec_vectors_bytes(centroids) + spec_words_bytes(
        offsets,
    ) + spec_records_bytes(grouped)
}

fn push_magic(out: &mut Vec<u8>, last: u8)
    ensures
        final(out)@ == old(out)@ + seq![82u8, 50u8, 54u8, 73u8, 86u8, 70u8, 48u8, last],
{
    out.push(82u8);
    out.push(50u8);
    out.push(54u8);
    out.push(73u8);
    out.push(86u8);
    out.push(70u8);
    out.push(48u8);
    out.push(last);
    assert(out@ =~= old(out)@ + seq![82u8, 50u8, 54u8, 73u8, 86u8, 70u8, 48u8, last]);
}

fn push_vectors(out: &mut Vec<u8>, vectors: &[[i16; DIMENSIONS]])
    ensures
        final(out)@ == old(out)@ + spec_vectors_bytes(spec_vector_views(vectors@)),
{
    let mut i: usize = 0;
    while i < vectors.len()
        invariant
            i <= vectors@.len(),
            out@ == old(out)@ + spec_vectors_bytes(spec_vector_views(vectors@.take(i as int))),
        decreases vectors@.len() - i,
    {
        push_vector(out, &vectors[i]);
        proof {
            assert(spec_vector_views(vectors@.take(i + 1)).drop_last() =~= spec_vector_views(
                vectors@.take(i as int),
            ));
        }
        i = i + 1;
    }
    assert(vectors@.take(vectors@.len() as int) =~= vectors@);
}

fn push_words(out: &mut Vec<u8>, words: &[u32])
    ensures
        final(out)@ == old(out)@ + spec_words_bytes(words@),
{
    let mut i: usize = 0;
    while i < words.len()
        invariant
            i <= words@.len(),
            out@ == old(out)@ + spec_words_bytes(words@.take(i as int)),
        decreases words@.len() - i,
    {
        push_u32_le(out, words[i]);
        proof {
            assert(words@.take(i + 1).drop_last() =~= words@.take(i as int));
        }
        i = i + 1;
    }
    assert(words@.take(words@.len() as int) =~= words@);
}

fn push_partitions(out: &mut Vec<u8>, metas: &[IvfPartitionMeta])
    ensures
        final(out)@ == old(out)@ + spec_partitions_bytes(metas@),
{
    let mut i: usize = 0;
    while i < metas.len()
        invariant
            i <= metas@.len(),
            out@ == old(out)@ + spec_partitions_bytes(metas@.take(i as int)),
        decreases metas@.len() - i,
    {
        let meta = metas[i];
        push_u32_le(out, meta.centroid_start);
        push_u32_le(out, meta.centroid_count);
        push_u32_le(out, meta.record_start);
        push_u32_le(out, meta.record_count);
        proof {
            assert(metas@.take(i + 1).drop_last() =~= metas@.take(i as int));
            assert(out@ =~= old(out)@ + spec_partitions_bytes(metas@.take(i + 1)));
        }
        i = i + 1;
    }
    assert(metas@.take(metas@.len() as int) =~= metas@);
}

fn push_records(out: &mut Vec<u8>, records: &[PackedRecord])
    ensures
        final(out)@ == old(out)@ + spec_records_bytes(records@),
{
    let mut i: usize = 0;
    while i < records.len()
        invariant
            i <= records@.len(),
            out@ == old(out)@ + spec_records_bytes(records@.take(i as int)),
        decreases records@.len() - i,
    {
        push_record(out, &records[i]);
        proof {
            assert(records@.take(i + 1).drop_last() =~= records@.take(i as int));
        }
        i = i + 1;
    }
    assert(records@.take(records@.len() as int) =~= records@);
}

/// The version 1 IVF file of the given centroids, list offsets and grouped records.
fn write_standard_ivf(
    count: usize,
    centroids: &[[i16; DIMENSIONS]],
    offsets: &[u32],
    grouped_records: &[PackedRecord],
) -> (bytes: Vec<u8>)
    ensures
        bytes@ == spec_standard_ivf_bytes(
            count as int,
            spec_vector_views(centroids@),
            offsets@,
            grouped_records@,
        ),
{
    let mut bytes: Vec<u8> = Vec::new();
    push_magic(&mut bytes, 49u8);
    push_u32_le(&mut bytes, VERSION);
    push_u32_le(&mut bytes, count as u32);
    push_u32_le(&mut bytes, centroids.len() as u32);
    push_vectors(&mut bytes, centroids);
    push_words(&mut bytes, offsets);
    push_records(&mut bytes, grouped_records);
    assert(bytes@ =~= spec_standard_ivf_bytes(
        count as int,
        spec_vector_views(centroids@),
        offsets@,
        grouped_records@,
    ));
    bytes
}

/// The version 2 IVF file of the given partitions, centroids, list offsets and grouped
/// records.
fn write_partitioned_ivf(
    count: usize,
    partition_bits: usize,
    partition_meta: &[IvfPartitionMeta],
    centroids: &[[i16; DIMENSIONS]],
    offsets: &[u32],
    grouped_records: &[PackedRecord],
) -> (bytes: Vec<u8>)
    ensures
        bytes@ == spec_partitioned_ivf_bytes(
            count as int,
            partition_bits as int,
            partition_meta@,
            spec_vector_views(centroids@),
            offsets@,
            grouped_records@,
        ),
{
    let mut bytes: Vec<u8> = Vec::new();
    push_magic(&mut bytes, 50u8);
    push_u32_le(&mut bytes, VERSION);
    push_u32_le(&mut bytes, count as u32);
    push_u32_le(&mut bytes, centroids.len() as u32);
    push_u32_le(&mut bytes, partition_bits as u32);
    push_u32_le(&mut bytes, partition_meta.len() as u32);
    push_partitions(&mut bytes, partition_meta);
    push_vectors(&mut bytes, centroids);
    push_words(&mut bytes, offsets);
    push_records(&mut bytes, grouped_records);
    assert(bytes@ =~= spec_partitioned_ivf_bytes(
        count as int,
        partition_bits as int,
        partition_meta@,
        spec_vector_views(centroids@),
        offsets@,
        grouped_records@,
    ));
    bytes
}

// ---------------------------------------------------------------------------
// Building

/// How an IVF index is built from a flat one.
pub struct IvfBuildConfig {
    /// Number of lists (centroids).
    pub nlist: usize,
    /// Number of records the centroids are trained on.
    pub sample_size: usize,
    /// Rounds of k-means.
    pub iterations: usize,
    /// Number of partition features (0 for no partitions, at most 4).
    pub partition_bits: usize,
}

/// The sample vectors, `sample_size` of them spread over the records.
pub open spec fn spec_sample(records: Seq<PackedRecord>, sample_size: int) -> Seq<Seq<i16>> {
    Seq::new(
        sample_size as nat,
        |m: int| records[spec_sample_index(records.len() as int, sample_size, m)].vector@,
    )
}

/// The list of each record: its nearest centroid.
pub open spec fn spec_nearest_assignment(records: Seq<PackedRecord>, centroids: Seq<Seq<i16>>) -> Seq<
    usize,
> {
    Seq::new(records.len(), |i: int| spec_nearest(records[i].vector@, centroids) as usize)
}

/// The sample size of an index without partitions: the one asked for, at least one per
/// list and at most one per record.
pub open spec fn spec_standard_sample_size(config: IvfBuildConfig, count: int) -> int {
    let wanted = if config.sample_size < config.nlist {
        config.nlist as int
    } else {
        config.sample_size as int
    };
    if wanted <= count {
        wanted
    } else {
        count
    }
}

/// The centroids of an index without partitions.
pub open spec fn spec_standard_centroids(records: Seq<PackedRecord>, config: IvfBuildConfig) -> Seq<
    Seq<i16>,
> {
    spec_trained_centroids(
        spec_sample(records, spec_standard_sample_size(config, records.len() as int)),
        config.nlist as int,
        config.iterations as int,
    )
}

/// The file of an index without partitions, built from `records`.
pub open spec fn spec_standard_ivf(records: Seq<PackedRecord>, config: IvfBuildConfig) -> Seq<u8> {
    let centroids = spec_standard_centroids(records, config);
    let assignment = spec_nearest_assignment(records, centroids);
    spec_standard_ivf_bytes(
        records.len() as int,
        centroids,
        spec_group_offsets(records, assignment, config.nlist as int),
        spec_grouped(records, assignment, config.nlist as int),
    )
}

/// Whether the records fit what a build needs: at least one, labels no matter, and few
/// enough for the 32-bit header.
pub open spec fn buildable_records(records: Seq<PackedRecord>) -> bool {
    &&& 0 < records.len() <= u32::MAX
    &&& records.len() <= usize::MAX / 2
}

fn nearest_assignment(records: &[PackedRecord], centroids: &[[i16; DIMENSIONS]]) -> (assignment:
    Vec<usize>)
    requires
        centroids@.len() > 0,
    ensures
        assignment@ == spec_nearest_assignment(records@, spec_vector_views(centroids@)),
        forall|i: int| 0 <= i < assignment@.len() ==> #[trigger] assignment@[i] < centroids@.len(),
{
    let mut assignment: Vec<usize> = Vec::new();
    let mut i: usize = 0;
    while i < records.len()
        invariant
            i <= records@.len(),
            centroids@.len() > 0,
            assignment@.len() == i,
            forall|e: int|
                0 <= e < i ==> #[trigger] assignment@[e] == spec_nearest(
                    records@[e].vector@,
                    spec_vector_views(centroids@),
                ) as usize,
            forall|e: int| 0 <= e < i ==> #[trigger] assignment@[e] < centroids@.len(),
        decreases records@.len() - i,
    {
        assignment.push(nearest_centroid(&records[i].vector, centroids));
        i = i + 1;
    }
    assert(assignment@ =~= spec_nearest_assignment(records@, spec_vector_views(centroids@)));
    assignment
}

/// Builds an index without partitions: centroids trained on a sample, every record in
/// the list of its nearest centroid.
fn build_standard_ivf(records: &[PackedRecord], config: &IvfBuildConfig) -> (bytes: Vec<u8>)
    requires
        buildable_records(records@),
        config.nlist > 0,
    ensures
        bytes@ == spec_standard_ivf(records@, *config),
{
    let count = records.len();
    let wanted = if config.sample_size < config.nlist {
        config.nlist
    } else {
        config.sample_size
    };
    let sample_size = if wanted <= count {
        wanted
    } else {
        count
    };
    let sample = sample_records(records, sample_size);
    proof {
        assert(spec_vector_views(sample@) =~= spec_sample(records@, sample_size as int));
    }
    let centroids = train_centroids(sample.as_slice(), config.nlist, config.iterations);
    let assignment = nearest_assignment(records, centroids.as_slice());
    let (offsets, grouped_records) = group_records(records, assignment.as_slice(), config.nlist);
    write_standard_ivf(
        records.len(),
        centroids.as_slice(),
        offsets.as_slice(),
        grouped_records.as_slice(),
    )
}

// ---------------------------------------------------------------------------
// Sharing lists and samples among partitions

/// Sum of the first `n` sizes.
pub open spec fn spec_sum(sizes: Seq<usize>, n: int) -> int
    decreases n,
{
    if n <= 0 {
        0
    } else {
        spec_sum(sizes, n - 1) + sizes[n - 1]
    }
}

/// Number of non-zero sizes among the first `n`.
pub open spec fn spec_non_empty(sizes: Seq<usize>, n: int) -> int
    decreases n,
{
    if n <= 0 {
        0
    } else {
        spec_non_empty(sizes, n - 1) + if sizes[n - 1] > 0 {
            1int
        } else {
            0int
        }
    }
}

proof fn lemma_sum_nonneg(sizes: Seq<usize>, n: int)
    ensures
        0 <= spec_sum(sizes, n),
    decreases n,
{
    if n > 0 {
        lemma_sum_nonneg(sizes, n - 1);
    }
}

proof fn lemma_sum_bounds(sizes: Seq<usize>, m: int, n: int)
    requires
        0 <= m <= n <= sizes.len(),
    ensures
        spec_sum(sizes, m) <= spec_sum(sizes, n),
        m < n ==> sizes[m] <= spec_sum(sizes, n),
        0 <= spec_sum(sizes, m),
    decreases n - m,
{
    lemma_sum_nonneg(sizes, m);
    if m < n {
        lemma_sum_bounds(sizes, m, n - 1);
        if m < n - 1 {
            lemma_sum_bounds(sizes, m, n - 1);
        } else {
            lemma_sum_nonneg(sizes, m);
        }
    }
}

proof fn lemma_non_empty_bounds(sizes: Seq<usize>, n: int)
    requires
        0 <= n <= sizes.len(),
    ensures
        0 <= spec_non_empty(sizes, n) <= n,
        spec_sum(sizes, n) == 0 ==> spec_non_empty(sizes, n) == 0,
    decreases n,
{
    if n > 0 {
        lemma_non_empty_bounds(sizes, n - 1);
        lemma_sum_bounds(sizes, n - 1, n);
    }
}

/// The sample size of each partition: its share of `total_sample_size` in proportion
/// to its size, at least one and at most one per record; none for an empty partition.
pub open spec fn spec_partition_samples(sizes: Seq<usize>, total_sample_size: int) -> Seq<usize> {
    let total = if spec_sum(sizes, sizes.len() as int) < 1 {
        1
    } else {
        spec_sum(sizes, sizes.len() as int)
    };
    Seq::new(
        sizes.len(),
        |i: int|
            if sizes[i] == 0 {
                0usize
            } else {
                let proportional = if sizes[i] * total_sample_size / total < 1 {
                    1
                } else {
                    sizes[i] * total_sample_size / total
                };
                (if sizes[i] <= proportional {
                    sizes[i] as int
                } else {
                    proportional
                }) as usize
            },
    )
}

/// The sample size of each partition, in proportion to its size.
fn allocate_partition_samples(partition_sizes: &[usize], total_sample_size: usize) -> (allocation:
    Vec<usize>)
    requires
        spec_sum(partition_sizes@, partition_sizes@.len() as int) <= usize::MAX,
    ensures
        allocation@ == spec_partition_samples(partition_sizes@, total_sample_size as int),
{
    let ghost sizes = partition_sizes@;
    let mut sum: usize = 0;
    let mut i: usize = 0;
    while i < partition_sizes.len()
        invariant
            i <= sizes.len(),
            sizes == partition_sizes@,
            spec_sum(sizes, sizes.len() as int) <= usize::MAX,
            sum == spec_sum(sizes, i as int),
        decreases sizes.len() - i,
    {
        proof {
            lemma_sum_bounds(sizes, i + 1, sizes.len() as int);
        }
        sum = sum + partition_sizes[i];
        i = i + 1;
    }
    let total_records = if sum < 1 {
        1
    } else {
        sum
    };
    let mut allocation: Vec<usize> = Vec::new();
    let mut i: usize = 0;
    while i < partition_sizes.len()
        invariant
            i <= sizes.len(),
            sizes == partition_sizes@,
            total_records >= 1,
            total_records == if spec_sum(sizes, sizes.len() as int) < 1 {
                1
            } else {
                spec_sum(sizes, sizes.len() as int)
            },
            allocation@.len() == i,
            forall|e: int|
                0 <= e < i ==> #[trigger] allocation@[e] == spec_partition_samples(
                    sizes,
                    total_sample_size as int,
                )[e],
        decreases sizes.len() - i,
    {
        let size = partition_sizes[i];
        if size == 0 {
            allocation.push(0);
        } else {
            assert((size as u128) * (total_sample_size as u128) <= 0xffff_ffff_ffff_ffffu128
                * 0xffff_ffff_ffff_ffffu128) by (nonlinear_arith)
                requires
                    size <= 0xffff_ffff_ffff_ffffu128,
                    total_sample_size <= 0xffff_ffff_ffff_ffffu128,
            ;
            let product: u128 = (size as u128) * (total_sample_size as u128);
            let share: u128 = product / (total_records as u128);
            let proportional: u128 = if share < 1 {
                1
            } else {
                share
            };
            let chosen = if (size as u128) <= proportional {
                size
            } else {
                proportional as usize
            };
            allocation.push(chosen);
        }
        i = i + 1;
    }
    assert(allocation@ =~= spec_partition_samples(sizes, total_sample_size as int));
    allocation
}

/// Why lists could not be shared among partitions.
#[derive(Debug, Clone, Copy, PartialEq, Eq, Structural)]
pub enum NlistAllocationError {
    /// Every partition is empty.
    EmptyPartitions,
    /// Fewer lists than non-empty partitions.
    TooFewLists { nlist: usize, non_empty: usize },
}

/// The lists each partition gets beyond its first one, rounded down, out of the
/// `remaining` to share: its share in proportion to its size.
pub open spec fn spec_proportional_extra(size: int, remaining: int, total: int) -> int {
    size * remaining / total
}

/// What each partition gets before the leftovers are handed out: one list, plus its
/// proportional extra, for a non-empty one; nothing for an empty one.
pub open spec fn spec_base_allocation(sizes: Seq<usize>, remaining: int, total: int) -> Seq<int> {
    Seq::new(
        sizes.len(),
        |i: int|
            if sizes[i] > 0 {
                1 + spec_proportional_extra(sizes[i] as int, remaining, total)
            } else {
                0
            },
    )
}

/// Sum of the first `n` values.
pub open spec fn spec_int_sum(values: Seq<int>, n: int) -> int
    decreases n,
{
    if n <= 0 {
        0
    } else {
        spec_int_sum(values, n - 1) + values[n - 1]
    }
}

/// How the leftovers are ranked: by the fraction the rounding dropped, largest first
/// (so by `total` minus the dropped remainder, smallest first), an empty partition as
/// one that dropped nothing.
pub open spec fn spec_leftover_keys(sizes: Seq<usize>, remaining: int, total: int) -> Seq<int> {
    Seq::new(
        sizes.len(),
        |i: int|
            if sizes[i] > 0 {
                total - (sizes[i] * remaining) % total
            } else {
                total
            },
    )
}

/// Lists per partition, in proportion to the partition sizes: every non-empty partition
/// gets one, the rest are shared by size with the largest remainders rounded up (ties to
/// the lower partition), and an empty partition gets none.
pub open spec fn spec_allocate_partition_nlists(sizes: Seq<usize>, total_nlist: int) -> Result<
    Seq<usize>,
    NlistAllocationError,
> {
    let total = spec_sum(sizes, sizes.len() as int);
    let non_empty = spec_non_empty(sizes, sizes.len() as int);
    if total == 0 {
        Err(NlistAllocationError::EmptyPartitions)
    } else if total_nlist < non_empty {
        Err(
            NlistAllocationError::TooFewLists {
                nlist: total_nlist as usize,
                non_empty: non_empty as usize,
            },
        )
    } else if total_nlist == non_empty {
        Ok(Seq::new(sizes.len(), |i: int| if sizes[i] > 0 { 1usize } else { 0usize }))
    } else {
        let remaining = total_nlist - non_empty;
        let base = spec_base_allocation(sizes, remaining, total);
        let assigned = spec_int_sum(base, base.len() as int);
        let leftovers = if total_nlist > assigned {
            total_nlist - assigned
        } else {
            0
        };
        let k = if leftovers < sizes.len() {
            leftovers
        } else {
            sizes.len() as int
        };
        let chosen = top_k(spec_leftover_keys(sizes, remaining, total), k as nat);
        Ok(
            Seq::new(
                sizes.len(),
                |i: int|
                    (base[i] + if sizes[i] > 0 && chosen.contains(i) {
                        1int
                    } else {
                        0int
                    }) as usize,
            ),
        )
    }
}

proof fn lemma_int_sum_bounds(values: Seq<int>, i: int, n: int)
    requires
        0 <= i < n <= values.len(),
        forall|e: int| 0 <= e < n ==> #[trigger] values[e] >= 0,
    ensures
        values[i] <= spec_int_sum(values, n),
        0 <= spec_int_sum(values, n),
    decreases n,
{
    if i < n - 1 {
        lemma_int_sum_bounds(values, i, n - 1);
    } else if n - 1 > 0 {
        lemma_int_sum_bounds(values, 0, n - 1);
    }
}

/// Leftover keys lie between 1 and `usize::MAX`; ranked as `i64` they are moved down by
/// this amount, which keeps their order.
const LEFTOVER_KEY_SHIFT: i128 = 0x8000_0000_0000_0001;

fn leftover_ranking(keys: &Vec<i64>, k: usize) -> (best: Vec<(i64, usize)>)
    requires
        0 < k <= keys@.len(),
        forall|i: int| 0 <= i < keys@.len() ==> #[trigger] keys@[i] < i64::MAX,
    ensures
        best@.len() == k,
        forall|a: int|
            0 <= a < k ==> (#[trigger] best@[a]).1 == top_k(
                Seq::new(keys@.len(), |i: int| keys@[i] as int),
                k as nat,
            )[a],
        forall|a: int| 0 <= a < k ==> (#[trigger] best@[a]).1 < keys@.len(),
{
    let ghost ks = Seq::new(keys@.len(), |i: int| keys@[i] as int);
    let ghost items = Seq::new(keys@.len(), |i: int| i as usize);
    let mut best = crate::knn::empty_ranking(k, 0usize, Ghost(ks), Ghost(items));
    let ghost mut chosen: Seq<int> = Seq::empty();
    let mut i: usize = 0;
    while i < keys.len()
        invariant
            i <= keys@.len(),
            0 < k <= keys@.len(),
            ks == Seq::new(keys@.len(), |i: int| keys@[i] as int),
            items == Seq::new(keys@.len(), |i: int| i as usize),
            forall|e: int| 0 <= e < ks.len() ==> i64::MIN <= #[trigger] ks[e] < i64::MAX,
            crate::knn::tracks(best@, ks, items, chosen, k as nat, 0usize),
            is_top_k(ks.take(i as int), k as nat, chosen),
        decreases keys@.len() - i,
    {
        let next = crate::knn::offer(
            &mut best,
            keys[i],
            i,
            Ghost(ks),
            Ghost(items),
            Ghost(i as int),
            Ghost(chosen),
            Ghost(k as nat),
            Ghost(0usize),
        );
        proof {
            chosen = next@;
        }
        i = i + 1;
    }
    proof {
        assert(ks.take(keys@.len() as int) =~= ks);
        lemma_top_k_is(ks, k as nat, chosen);
        assert forall|a: int| 0 <= a < k implies (#[trigger] best@[a]).1 < keys@.len() by {
            assert(0 <= chosen[a] < ks.len());
        }
    }
    best
}

/// Shares `total_nlist` lists among partitions in proportion to their sizes.
pub fn allocate_partition_nlists(partition_sizes: &[usize], total_nlist: usize) -> (result: Result<
    Vec<usize>,
    NlistAllocationError,
>)
    requires
        spec_sum(partition_sizes@, partition_sizes@.len() as int) <= usize::MAX,
    ensures
        match spec_allocate_partition_nlists(partition_sizes@, total_nlist as int) {
            Ok(allocation) => result matches Ok(a) && a@ == allocation,
            Err(e) => result == Err::<Vec<usize>, NlistAllocationError>(e),
        },
        result matches Ok(a) ==> a@.len() == partition_sizes@.len() && (forall|i: int|
            0 <= i < partition_sizes@.len() && partition_sizes@[i] > 0 ==> #[trigger] a@[i] >= 1),
{
    let ghost sizes = partition_sizes@;
    let n = partition_sizes.len();
    let mut total_records: usize = 0;
    let mut non_empty: usize = 0;
    let mut i: usize = 0;
    while i < n
        invariant
            i <= n,
            n == sizes.len(),
            sizes == partition_sizes@,
            spec_sum(sizes, n as int) <= usize::MAX,
            total_records == spec_sum(sizes, i as int),
            non_empty == spec_non_empty(sizes, i as int),
        decreases n - i,
    {
        proof {
            lemma_sum_bounds(sizes, i + 1, n as int);
            lemma_non_empty_bounds(sizes, i + 1);
        }
        total_records = total_records + partition_sizes[i];
        if partition_sizes[i] > 0 {
            non_empty = non_empty + 1;
        }
        i = i + 1;
    }
    if total_records == 0 {
        return Err(NlistAllocationError::EmptyPartitions);
    }
    if total_nlist < non_empty {
        return Err(NlistAllocationError::TooFewLists { nlist: total_nlist, non_empty });
    }
    let mut allocation: Vec<usize> = Vec::new();
    let mut remaining = total_nlist;
    let mut i: usize = 0;
    while i < n
        invariant
            i <= n,
            n == sizes.len(),
            sizes == partition_sizes@,
            non_empty == spec_non_empty(sizes, n as int),
            non_empty <= total_nlist,
            allocation@.len() == i,
            remaining == total_nlist - spec_non_empty(sizes, i as int),
            forall|e: int|
                0 <= e < i ==> #[trigger] allocation@[e] == if sizes[e] > 0 {
                    1usize
                } else {
                    0usize
                },
        decreases n - i,
    {
        proof {
            lemma_non_empty_bounds(sizes, i + 1);
            lemma_non_empty_monotone(sizes, i + 1, n as int);
        }
        if partition_sizes[i] > 0 {
            allocation.push(1);
            remaining = remaining - 1;
        } else {
            allocation.push(0);
        }
        i = i + 1;
    }
    if remaining == 0 {
        assert(allocation@ =~= Seq::new(
            sizes.len(),
            |i: int|
                if sizes[i] > 0 {
                    1usize
                } else {
                    0usize
                },
        ));
        return Ok(allocation);
    }
    let ghost base = spec_base_allocation(sizes, remaining as int, total_records as int);
    proof {
        lemma_non_empty_positive(sizes, n as int);
        assert forall|e: int| 0 <= e < n implies 0 <= #[trigger] base[e] <= remaining + 1 by {
            lemma_sum_bounds(sizes, e, n as int);
            assert((sizes[e] as int) * (remaining as int) / (total_records as int) <= remaining)
                by (nonlinear_arith)
                requires
                    0 <= sizes[e] <= total_records,
                    total_records > 0,
                    remaining > 0,
            ;
            assert(0 <= (sizes[e] as int) * (remaining as int) / (total_records as int))
                by (nonlinear_arith)
                requires
                    0 <= sizes[e],
                    total_records > 0,
                    remaining > 0,
            ;
        }
    }
    let mut keys: Vec<i64> = Vec::new();
    let mut assigned: u128 = 0;
    let mut i: usize = 0;
    while i < n
        invariant
            i <= n,
            n == sizes.len(),
            sizes == partition_sizes@,
            0 < total_records <= usize::MAX,
            total_records == spec_sum(sizes, n as int),
            remaining == total_nlist - non_empty,
            remaining > 0,
            base == spec_base_allocation(sizes, remaining as int, total_records as int),
            allocation@.len() == n,
            keys@.len() == i,
            forall|e: int| 0 <= e < i ==> #[trigger] allocation@[e] == base[e],
            forall|e: int|
                i <= e < n ==> #[trigger] allocation@[e] == if sizes[e] > 0 {
                    1usize
                } else {
                    0usize
                },
            forall|e: int|
                0 <= e < i ==> #[trigger] keys@[e] == spec_leftover_keys(
                    sizes,
                    remaining as int,
                    total_records as int,
                )[e] - LEFTOVER_KEY_SHIFT,
            forall|e: int| 0 <= e < i ==> #[trigger] keys@[e] < i64::MAX,
            assigned == spec_int_sum(base, i as int),
            assigned <= i * 0x1_0000_0000_0000_0000,
            forall|e: int| 0 <= e < n ==> 0 <= #[trigger] base[e] <= remaining + 1,
            non_empty >= 1,
            remaining + 1 <= usize::MAX,
        decreases n - i,
    {
        let size = partition_sizes[i];
        proof {
            lemma_sum_bounds(sizes, i as int, n as int);
        }
        if size == 0 {
            keys.push(((total_records as i128) - LEFTOVER_KEY_SHIFT) as i64);
        } else {
            assert((size as u128) * (remaining as u128) <= 0xffff_ffff_ffff_ffffu128
                * 0xffff_ffff_ffff_ffffu128) by (nonlinear_arith)
                requires
                    size <= 0xffff_ffff_ffff_ffffu128,
                    remaining <= 0xffff_ffff_ffff_ffffu128,
            ;
            let product: u128 = (size as u128) * (remaining as u128);
            let extra = product / (total_records as u128);
            let dropped = product % (total_records as u128);
            proof {
                assert(extra <= remaining) by (nonlinear_arith)
                    requires
                        extra == product / (total_records as u128),
                        product == size * remaining,
                        0 < size <= total_records,
                ;
            }
            allocation.set(i, 1 + extra as usize);
            keys.push((((total_records as u128 - dropped) as i128) - LEFTOVER_KEY_SHIFT) as i64);
        }
        proof {
            assert(base[i as int] <= 0xffff_ffff_ffff_ffff + 1);
        }
        assigned = assigned + allocation[i] as u128;
        i = i + 1;
    }
    let leftovers: u128 = if (total_nlist as u128) > assigned {
        total_nlist as u128 - assigned
    } else {
        0
    };
    let k: usize = if leftovers < n as u128 {
        leftovers as usize
    } else {
        n
    };
    let ghost chosen = top_k(
        spec_leftover_keys(sizes, remaining as int, total_records as int),
        k as nat,
    );
    proof {
        lemma_top_k_is_len(spec_leftover_keys(sizes, remaining as int, total_records as int), k as nat);
    }
    if k > 0 {
        let ranking = leftover_ranking(&keys, k);
        proof {
            let shifted = Seq::new(keys@.len(), |i: int| keys@[i] as int);
            crate::knn::lemma_top_k_shift(
                spec_leftover_keys(sizes, remaining as int, total_records as int),
                shifted,
                LEFTOVER_KEY_SHIFT as int,
                k as nat,
            );
        }
        let mut a: usize = 0;
        while a < k
            invariant
                a <= k,
                k <= n,
                n == sizes.len(),
                sizes == partition_sizes@,
                allocation@.len() == n,
                ranking@.len() == k,
                forall|b: int| 0 <= b < k ==> (#[trigger] ranking@[b]).1 == chosen[b],
                forall|b: int| 0 <= b < k ==> (#[trigger] ranking@[b]).1 < n,
                is_top_k(
                    spec_leftover_keys(sizes, remaining as int, total_records as int),
                    k as nat,
                    chosen,
                ),
                forall|e: int|
                    0 <= e < n ==> #[trigger] allocation@[e] == base[e] + if sizes[e] > 0
                        && chosen.take(a as int).contains(e) {
                        1int
                    } else {
                        0int
                    },
                forall|e: int| 0 <= e < n ==> 0 <= #[trigger] base[e] <= remaining + 1,
                (assigned as int) < total_nlist,
                assigned == spec_int_sum(base, n as int),
                base == spec_base_allocation(sizes, remaining as int, total_records as int),
            decreases k - a,
        {
            let index = ranking[a].1;
            proof {
                assert forall|b: int, c: int| 0 <= b < c < chosen.len() implies chosen[b] != chosen[c]
                    by {
                    assert(crate::knn::ranks_before(
                        spec_leftover_keys(sizes, remaining as int, total_records as int),
                        chosen[b],
                        chosen[c],
                    ));
                }
                assert(!chosen.take(a as int).contains(index as int)) by {
                    if chosen.take(a as int).contains(index as int) {
                        let p = choose|p: int| 0 <= p < a && #[trigger] chosen.take(a as int)[p] == index;
                        assert(chosen[p] == chosen[a as int]);
                    }
                }
                lemma_int_sum_bounds(base, index as int, n as int);
            }
            let ghost before = allocation@;
            if partition_sizes[index] > 0 {
                allocation.set(index, allocation[index] + 1);
            }
            proof {
                assert forall|e: int| 0 <= e < n implies #[trigger] allocation@[e] == base[e] + if sizes[e] > 0
                    && chosen.take(a + 1).contains(e) {
                    1int
                } else {
                    0int
                } by {
                    if e != index {
                        if chosen.take(a + 1).contains(e) {
                            let p = choose|p: int| 0 <= p < a + 1 && #[trigger] chosen.take(a + 1)[p] == e;
                            assert(p != a);
                            assert(chosen.take(a as int)[p] == e);
                        }
                        if chosen.take(a as int).contains(e) {
                            let p = choose|p: int| 0 <= p < a && #[trigger] chosen.take(a as int)[p] == e;
                            assert(chosen.take(a + 1)[p] == e);
                        }
                        assert(allocation@[e] == before[e]);
                    } else {
                        assert(chosen.take(a + 1)[a as int] == e);
                    }
                }
            }
            a = a + 1;
        }
        proof {
            assert(chosen.take(k as int) =~= chosen);
        }
    } else {
        proof {
            assert forall|e: int| 0 <= e < n implies !(#[trigger] chosen.contains(e)) by {
                lemma_top_k_is_len(
                    spec_leftover_keys(sizes, remaining as int, total_records as int),
                    k as nat,
                );
            }
        }
    }
    proof {
        let expected = match spec_allocate_partition_nlists(sizes, total_nlist as int) {
            Ok(a) => a,
            Err(_) => Seq::empty(),
        };
        assert(allocation@ =~= expected);
    }
    Ok(allocation)
}

proof fn lemma_non_empty_positive(sizes: Seq<usize>, n: int)
    requires
        0 <= n <= sizes.len(),
        spec_sum(sizes, n) > 0,
    ensures
        spec_non_empty(sizes, n) >= 1,
    decreases n,
{
    if n > 0 {
        if sizes[n - 1] == 0 {
            lemma_non_empty_positive(sizes, n - 1);
        } else {
            lemma_non_empty_bounds(sizes, n - 1);
        }
    }
}

proof fn lemma_non_empty_monotone(sizes: Seq<usize>, m: int, n: int)
    requires
        0 <= m <= n <= sizes.len(),
    ensures
        spec_non_empty(sizes, m) <= spec_non_empty(sizes, n),
    decreases n - m,
{
    if m < n {
        lemma_non_empty_monotone(sizes, m, n - 1);
    }
}

/// `top_k` lists exactly `min(k, keys.len())` candidates.
pub proof fn lemma_top_k_is_len(keys: Seq<int>, k: nat)
    ensures
        top_k(keys, k).len() == crate::knn::min_nat(k, keys.len()),
        forall|a: int| 0 <= a < top_k(keys, k).len() ==> 0 <= #[trigger] top_k(keys, k)[a] < keys.len(),
        is_top_k(keys, k, top_k(keys, k)),
{
    crate::knn::lemma_top_k_exists(keys, k);
}

// ---------------------------------------------------------------------------
// Building an index with partitions

/// Why an IVF index could not be built.
#[derive(Debug, Clone, Copy, PartialEq, Eq, Structural)]
pub enum IvfBuildError {
    /// `nlist` is 0.
    ZeroNlist,
    /// `iterations` is 0.
    ZeroIterations,
    /// `partition_bits` is above 4.
    PartitionBitsOutOfRange,
    /// The flat index was refused.
    FlatIndex(crate::index::IndexLoadError),
    /// The flat index holds no record.
    EmptyFlatIndex,
    /// Lists could not be shared among the partitions.
    Allocation(NlistAllocationError),
    /// The partitions' centroids do not add up to `nlist`.
    CentroidCountMismatch { expected: usize, got: usize },
}

/// The indices of the first `n` records that fall in partition `p`, in order.
pub open spec fn spec_partition_members(
    records: Seq<PackedRecord>,
    partition_bits: int,
    p: int,
    n: int,
) -> Seq<usize>
    decreases n,
{
    if n <= 0 {
        Seq::empty()
    } else {
        let before = spec_partition_members(records, partition_bits, p, n - 1);
        if spec_partition_key(records[n - 1].vector@, partition_bits) == p {
            before.push((n - 1) as usize)
        } else {
            before
        }
    }
}

/// The number of records in each partition.
pub open spec fn spec_partition_sizes(records: Seq<PackedRecord>, partition_bits: int) -> Seq<usize> {
    Seq::new(
        spec_pow2(partition_bits as nat),
        |p: int| spec_partition_members(records, partition_bits, p, records.len() as int).len() as usize,
    )
}

/// The centroids trained for partition `p`, given the lists and sample sizes shared
/// out: none for an empty partition.
pub open spec fn spec_partition_centroids(
    records: Seq<PackedRecord>,
    config: IvfBuildConfig,
    nlists: Seq<usize>,
    samples: Seq<usize>,
    p: int,
) -> Seq<Seq<i16>> {
    let indices = spec_partition_members(
        records,
        config.partition_bits as int,
        p,
        records.len() as int,
    );
    if indices.len() == 0 {
        Seq::empty()
    } else {
        let wanted = if samples[p] < nlists[p] {
            nlists[p] as int
        } else {
            samples[p] as int
        };
        let size = spec_partition_sample_size(wanted, indices.len() as int);
        let sample = Seq::new(
            size as nat,
            |m: int| records[indices[spec_sample_index(indices.len() as int, size, m)] as int].vector@,
        );
        spec_trained_centroids(sample, nlists[p] as int, config.iterations as int)
    }
}

/// The centroids of partitions `0..m`, partition after partition.
pub open spec fn spec_all_centroids(
    records: Seq<PackedRecord>,
    config: IvfBuildConfig,
    nlists: Seq<usize>,
    samples: Seq<usize>,
    m: int,
) -> Seq<Seq<i16>>
    decreases m,
{
    if m <= 0 {
        Seq::empty()
    } else {
        spec_all_centroids(records, config, nlists, samples, m - 1) + spec_partition_centroids(
            records,
            config,
            nlists,
            samples,
            m - 1,
        )
    }
}

/// The list of each record: its partition's first centroid plus its nearest centroid
/// within the partition.
pub open spec fn spec_partitioned_assignment(
    records: Seq<PackedRecord>,
    config: IvfBuildConfig,
    nlists: Seq<usize>,
    samples: Seq<usize>,
) -> Seq<usize> {
    Seq::new(
        records.len(),
        |i: int|
            {
                let p = spec_partition_key(records[i].vector@, config.partition_bits as int);
                (spec_all_centroids(records, config, nlists, samples, p).len() + spec_nearest(
                    records[i].vector@,
                    spec_partition_centroids(records, config, nlists, samples, p),
                )) as usize
            },
    )
}

/// The entry of partition `p`: its centroids and the records of their lists.
pub open spec fn spec_partition_meta(
    records: Seq<PackedRecord>,
    config: IvfBuildConfig,
    nlists: Seq<usize>,
    samples: Seq<usize>,
    offsets: Seq<u32>,
    p: int,
) -> IvfPartitionMeta {
    let start = spec_all_centroids(records, config, nlists, samples, p).len() as int;
    let count = spec_partition_centroids(records, config, nlists, samples, p).len() as int;
    let record_start = if count > 0 {
        offsets[start] as int
    } else {
        0
    };
    let record_end = if count > 0 {
        offsets[start + count] as int
    } else {
        record_start
    };
    IvfPartitionMeta {
        centroid_start: start as u32,
        centroid_count: count as u32,
        record_start: record_start as u32,
        record_count: (record_end - record_start) as u32,
    }
}

/// What building an index with partitions gives.
pub open spec fn spec_partitioned_ivf(records: Seq<PackedRecord>, config: IvfBuildConfig) -> Result<
    Seq<u8>,
    IvfBuildError,
> {
    let bits = config.partition_bits as int;
    let partitions = spec_pow2(bits as nat) as int;
    let sizes = spec_partition_sizes(records, bits);
    match spec_allocate_partition_nlists(sizes, config.nlist as int) {
        Err(e) => Err(IvfBuildError::Allocation(e)),
        Ok(nlists) => {
            let samples = spec_partition_samples(sizes, config.sample_size as int);
            let centroids = spec_all_centroids(records, config, nlists, samples, partitions);
            if centroids.len() != config.nlist {
                Err(
                    IvfBuildError::CentroidCountMismatch {
                        expected: config.nlist,
                        got: centroids.len() as usize,
                    },
                )
            } else {
                let assignment = spec_partitioned_assignment(records, config, nlists, samples);
                let offsets = spec_group_offsets(records, assignment, centroids.len() as int);
                Ok(
                    spec_partitioned_ivf_bytes(
                        records.len() as int,
                        bits,
                        Seq::new(
                            partitions as nat,
                            |p: int| spec_partition_meta(records, config, nlists, samples, offsets, p),
                        ),
                        centroids,
                        offsets,
                        spec_grouped(records, assignment, centroids.len() as int),
                    ),
                )
            }
        },
    }
}

fn partition_count_for(partition_bits: usize) -> (count: usize)
    requires
        1 <= partition_bits <= 4,
    ensures
        count == spec_pow2(partition_bits as nat),
        2 <= count <= 16,
{
    reveal_with_fuel(spec_pow2, 5);
    match partition_bits {
        1 => 2,
        2 => 4,
        3 => 8,
        _ => 16,
    }
}

proof fn lemma_partition_members_facts(records: Seq<PackedRecord>, bits: int, p: int, n: int)
    requires
        0 <= n <= records.len(),
        records.len() <= usize::MAX,
    ensures
        spec_partition_members(records, bits, p, n).len() <= n,
        forall|t: int|
            0 <= t < spec_partition_members(records, bits, p, n).len() ==> #[trigger] spec_partition_members(
                records,
                bits,
                p,
                n,
            )[t] < n,
        forall|t: int|
            0 <= t < spec_partition_members(records, bits, p, n).len() ==> spec_partition_key(
                records[spec_partition_members(records, bits, p, n)[t] as int].vector@,
                bits,
            ) == p,
        forall|i: int|
            0 <= i < n && spec_partition_key(records[i].vector@, bits) == p ==> spec_partition_members(
                records,
                bits,
                p,
                n,
            ).contains(i as usize),
    decreases n,
{
    if n > 0 {
        lemma_partition_members_facts(records, bits, p, n - 1);
        let before = spec_partition_members(records, bits, p, n - 1);
        let after = spec_partition_members(records, bits, p, n);
        assert forall|t: int| 0 <= t < after.len() implies spec_partition_key(
            records[after[t] as int].vector@,
            bits,
        ) == p && #[trigger] after[t] < n by {
            if t < before.len() {
                assert(after[t] == before[t]);
            }
        }
        assert forall|i: int|
            0 <= i < n && spec_partition_key(records[i].vector@, bits) == p implies after.contains(
            i as usize,
        ) by {
            if i < n - 1 {
                let t = choose|t: int| 0 <= t < before.len() && #[trigger] before[t] == i as usize;
                assert(after[t] == i as usize);
            } else {
                assert(after[after.len() - 1] == i as usize);
            }
        }
    }
}

fn partition_members(keys: &Vec<usize>, p: usize, Ghost(records): Ghost<Seq<PackedRecord>>, Ghost(bits): Ghost<int>) -> (indices: Vec<usize>)
    requires
        keys@.len() == records.len(),
        forall|i: int|
            0 <= i < keys@.len() ==> #[trigger] keys@[i] == spec_partition_key(
                records[i].vector@,
                bits,
            ),
    ensures
        indices@ == spec_partition_members(records, bits, p as int, records.len() as int),
{
    let mut indices: Vec<usize> = Vec::new();
    let mut i: usize = 0;
    while i < keys.len()
        invariant
            i <= keys@.len(),
            keys@.len() == records.len(),
            forall|e: int|
                0 <= e < keys@.len() ==> #[trigger] keys@[e] == spec_partition_key(
                    records[e].vector@,
                    bits,
                ),
            indices@ == spec_partition_members(records, bits, p as int, i as int),
        decreases keys@.len() - i,
    {
        if keys[i] == p {
            indices.push(i);
        }
        i = i + 1;
    }
    indices
}

proof fn lemma_all_centroids_len(
    records: Seq<PackedRecord>,
    config: IvfBuildConfig,
    nlists: Seq<usize>,
    samples: Seq<usize>,
    m: int,
    n: int,
)
    requires
        0 <= m <= n,
    ensures
        spec_all_centroids(records, config, nlists, samples, m).len() + spec_partition_centroids(
            records,
            config,
            nlists,
            samples,
            m,
        ).len() <= spec_all_centroids(records, config, nlists, samples, n + 1).len(),
        spec_all_centroids(records, config, nlists, samples, m).len() <= spec_all_centroids(
            records,
            config,
            nlists,
            samples,
            n,
        ).len(),
    decreases n - m,
{
    if m < n {
        lemma_all_centroids_len(records, config, nlists, samples, m, n - 1);
    }
}

/// Builds an index with partitions: the records split by partition key, the lists
/// shared among partitions by size, centroids trained per partition, every record in
/// the list of its nearest centroid within its partition.
fn build_partitioned_ivf(records: &[PackedRecord], config: &IvfBuildConfig) -> (result: Result<
    Vec<u8>,
    IvfBuildError,
>)
    requires
        buildable_records(records@),
        1 <= config.partition_bits <= 4,
        config.nlist > 0,
    ensures
        match spec_partitioned_ivf(records@, *config) {
            Ok(bytes) => result matches Ok(b) && b@ == bytes,
            Err(e) => result == Err::<Vec<u8>, IvfBuildError>(e),
        },
{
    let ghost rs = records@;
    let ghost bits = config.partition_bits as int;
    let partition_count = partition_count_for(config.partition_bits);
    let mut keys: Vec<usize> = Vec::new();
    let mut i: usize = 0;
    while i < records.len()
        invariant
            i <= rs.len(),
            rs == records@,
            bits == config.partition_bits,
            1 <= bits <= 4,
            partition_count == spec_pow2(bits as nat),
            keys@.len() == i,
            forall|e: int|
                0 <= e < i ==> #[trigger] keys@[e] == spec_partition_key(rs[e].vector@, bits),
            forall|e: int| 0 <= e < i ==> #[trigger] keys@[e] < partition_count,
        decreases rs.len() - i,
    {
        proof {
            lemma_partition_key_bound(rs[i as int].vector@, bits);
        }
        keys.push(partition_key(&records[i].vector, config.partition_bits));
        i = i + 1;
    }
    let mut partition_indices: Vec<Vec<usize>> = Vec::new();
    let mut partition_sizes: Vec<usize> = Vec::new();
    let mut p: usize = 0;
    while p < partition_count
        invariant
            p <= partition_count,
            rs == records@,
            keys@.len() == rs.len(),
            forall|e: int|
                0 <= e < rs.len() ==> #[trigger] keys@[e] == spec_partition_key(rs[e].vector@, bits),
            partition_indices@.len() == p,
            partition_sizes@.len() == p,
            forall|q: int|
                0 <= q < p ==> (#[trigger] partition_indices@[q])@ == spec_partition_members(
                    rs,
                    bits,
                    q,
                    rs.len() as int,
                ),
            forall|q: int|
                0 <= q < p ==> #[trigger] partition_sizes@[q] == spec_partition_members(
                    rs,
                    bits,
                    q,
                    rs.len() as int,
                ).len(),
        decreases partition_count - p,
    {
        let indices = partition_members(&keys, p, Ghost(rs), Ghost(bits));
        partition_sizes.push(indices.len());
        partition_indices.push(indices);
        p = p + 1;
    }
    let ghost sizes = spec_partition_sizes(rs, bits);
    assert(partition_sizes@ =~= sizes);
    proof {
        lemma_partition_sizes_sum(rs, bits, partition_count as int);
    }
    let nlists_per_partition = match allocate_partition_nlists(partition_sizes.as_slice(), config.nlist) {
        Ok(allocation) => allocation,
        Err(e) => return Err(IvfBuildError::Allocation(e)),
    };
    let ghost nlists = nlists_per_partition@;
    let sample_sizes = allocate_partition_samples(partition_sizes.as_slice(), config.sample_size);
    let ghost samples = sample_sizes@;
    let mut partition_centroids: Vec<Vec<[i16; DIMENSIONS]>> = Vec::new();
    let mut centroid_starts: Vec<usize> = Vec::new();
    let mut all_centroids: Vec<[i16; DIMENSIONS]> = Vec::new();
    let mut p: usize = 0;
    while p < partition_count
        invariant
            p <= partition_count,
            partition_count == spec_pow2(bits as nat),
            rs == records@,
            buildable_records(rs),
            bits == config.partition_bits,
            partition_indices@.len() == partition_count,
            forall|q: int|
                0 <= q < partition_count ==> (#[trigger] partition_indices@[q])@
                    == spec_partition_members(rs, bits, q, rs.len() as int),
            nlists == nlists_per_partition@,
            nlists.len() == partition_count,
            samples == sample_sizes@,
            samples.len() == partition_count,
            sizes == spec_partition_sizes(rs, bits),
            forall|q: int| 0 <= q < partition_count && sizes[q] > 0 ==> #[trigger] nlists[q] >= 1,
            partition_centroids@.len() == p,
            centroid_starts@.len() == p,
            forall|q: int|
                0 <= q < p ==> spec_vector_views((#[trigger] partition_centroids@[q])@)
                    == spec_partition_centroids(rs, *config, nlists, samples, q),
            forall|q: int|
                0 <= q < p ==> #[trigger] centroid_starts@[q] == spec_all_centroids(
                    rs,
                    *config,
                    nlists,
                    samples,
                    q,
                ).len(),
            spec_vector_views(all_centroids@) == spec_all_centroids(
                rs,
                *config,
                nlists,
                samples,
                p as int,
            ),
        decreases partition_count - p,
    {
        let indices = &partition_indices[p];
        let ghost expected = spec_partition_centroids(rs, *config, nlists, samples, p as int);
        proof {
            lemma_partition_members_facts(rs, bits, p as int, rs.len() as int);
        }
        centroid_starts.push(all_centroids.len());
        if indices.len() == 0 {
            partition_centroids.push(Vec::new());
            proof {
                assert(spec_vector_views(Seq::<[i16; DIMENSIONS]>::empty()) =~= expected);
                assert(spec_vector_views(all_centroids@) =~= spec_all_centroids(
                    rs,
                    *config,
                    nlists,
                    samples,
                    p + 1,
                ));
            }
        } else {
            let assigned_nlist = nlists_per_partition[p];
            let sample_size = if sample_sizes[p] < assigned_nlist {
                assigned_nlist
            } else {
                sample_sizes[p]
            };
            let sample = sample_partition_records(records, indices.as_slice(), sample_size);
            proof {
                assert(sizes[p as int] > 0);
            }
            let centroids = train_centroids(sample.as_slice(), assigned_nlist, config.iterations);
            proof {
                assert(spec_vector_views(sample@) =~= Seq::new(
                    spec_partition_sample_size(sample_size as int, indices@.len() as int) as nat,
                    |m: int|
                        rs[indices@[spec_sample_index(
                            indices@.len() as int,
                            spec_partition_sample_size(sample_size as int, indices@.len() as int),
                            m,
                        )] as int].vector@,
                ));
                assert(spec_vector_views(centroids@) == expected);
            }
            let ghost before = all_centroids@;
            let mut c: usize = 0;
            while c < centroids.len()
                invariant
                    c <= centroids@.len(),
                    all_centroids@ == before + centroids@.take(c as int),
                decreases centroids@.len() - c,
            {
                all_centroids.push(centroids[c]);
                proof {
                    assert(centroids@.take(c + 1) =~= centroids@.take(c as int).push(centroids@[c as int]));
                }
                c = c + 1;
            }
            proof {
                assert(centroids@.take(centroids@.len() as int) =~= centroids@);
                assert(spec_vector_views(all_centroids@) =~= spec_vector_views(before)
                    + spec_vector_views(centroids@));
            }
            partition_centroids.push(centroids);
        }
        p = p + 1;
    }
    let total_nlist = all_centroids.len();
    if total_nlist != config.nlist {
        return Err(
            IvfBuildError::CentroidCountMismatch { expected: config.nlist, got: total_nlist },
        );
    }
    let ghost all = spec_all_centroids(rs, *config, nlists, samples, partition_count as int);
    let mut assignment: Vec<usize> = Vec::new();
    let mut i: usize = 0;
    while i < records.len()
        invariant
            i <= rs.len(),
            rs == records@,
            keys@.len() == rs.len(),
            forall|e: int|
                0 <= e < rs.len() ==> #[trigger] keys@[e] == spec_partition_key(rs[e].vector@, bits),
            forall|e: int| 0 <= e < rs.len() ==> #[trigger] keys@[e] < partition_count,
            partition_centroids@.len() == partition_count,
            centroid_starts@.len() == partition_count,
            forall|q: int|
                0 <= q < partition_count ==> spec_vector_views((#[trigger] partition_centroids@[q])@)
                    == spec_partition_centroids(rs, *config, nlists, samples, q),
            forall|q: int|
                0 <= q < partition_count ==> #[trigger] centroid_starts@[q] == spec_all_centroids(
                    rs,
                    *config,
                    nlists,
                    samples,
                    q,
                ).len(),
            all.len() == total_nlist,
            all == spec_all_centroids(rs, *config, nlists, samples, partition_count as int),
            sizes == spec_partition_sizes(rs, bits),
            forall|q: int| 0 <= q < partition_count && sizes[q] > 0 ==> #[trigger] nlists[q] >= 1,
            assignment@.len() == i,
            forall|e: int|
                0 <= e < i ==> #[trigger] assignment@[e] == spec_partitioned_assignment(
                    rs,
                    *config,
                    nlists,
                    samples,
                )[e],
            forall|e: int| 0 <= e < i ==> #[trigger] assignment@[e] < total_nlist,
            partition_count == spec_pow2(bits as nat),
            bits == config.partition_bits,
            buildable_records(rs),
        decreases rs.len() - i,
    {
        let key = keys[i];
        proof {
            lemma_partition_members_facts(rs, bits, key as int, rs.len() as int);
            assert(spec_partition_key(rs[i as int].vector@, bits) == key);
            let members = spec_partition_members(rs, bits, key as int, rs.len() as int);
            assert(members.contains(i as usize));
            assert(members.len() > 0) by {
                let t = choose|t: int| 0 <= t < members.len() && #[trigger] members[t] == i as usize;
            }
            assert(sizes[key as int] == members.len() as usize);
            assert(sizes[key as int] > 0);
            lemma_partition_centroids_len(rs, *config, nlists, samples, key as int);
            lemma_all_centroids_len(rs, *config, nlists, samples, key as int, partition_count - 1);
        }
        let local = nearest_centroid(&records[i].vector, partition_centroids[key].as_slice());
        assignment.push(centroid_starts[key] + local);
        i = i + 1;
    }
    assert(assignment@ =~= spec_partitioned_assignment(rs, *config, nlists, samples));
    let (offsets, grouped_records) = group_records(records, assignment.as_slice(), total_nlist);
    let ghost offs = offsets@;
    proof {
        lemma_group_offsets_monotone(rs, assignment@, total_nlist as int);
    }
    let mut partition_meta: Vec<IvfPartitionMeta> = Vec::new();
    let mut p: usize = 0;
    while p < partition_count
        invariant
            p <= partition_count,
            offs == offsets@,
            offs.len() == total_nlist + 1,
            forall|a: int, b: int| 0 <= a <= b <= total_nlist ==> #[trigger] offs[a] <= #[trigger] offs[b],
            partition_centroids@.len() == partition_count,
            centroid_starts@.len() == partition_count,
            forall|q: int|
                0 <= q < partition_count ==> spec_vector_views((#[trigger] partition_centroids@[q])@)
                    == spec_partition_centroids(rs, *config, nlists, samples, q),
            forall|q: int|
                0 <= q < partition_count ==> #[trigger] centroid_starts@[q] == spec_all_centroids(
                    rs,
                    *config,
                    nlists,
                    samples,
                    q,
                ).len(),
            all.len() == total_nlist,
            all == spec_all_centroids(rs, *config, nlists, samples, partition_count as int),
            partition_meta@.len() == p,
            forall|q: int|
                0 <= q < p ==> #[trigger] partition_meta@[q] == spec_partition_meta(
                    rs,
                    *config,
                    nlists,
                    samples,
                    offs,
                    q,
                ),
        decreases partition_count - p,
    {
        proof {
            lemma_all_centroids_len(rs, *config, nlists, samples, p as int, partition_count - 1);
        }
        let start = centroid_starts[p];
        let count = partition_centroids[p].len();
        let record_start: usize = if count > 0 {
            offsets[start] as usize
        } else {
            0
        };
        let record_end: usize = if count > 0 {
            offsets[start + count] as usize
        } else {
            record_start
        };
        partition_meta.push(
            IvfPartitionMeta {
                centroid_start: start as u32,
                centroid_count: count as u32,
                record_start: record_start as u32,
                record_count: (record_end - record_start) as u32,
            },
        );
        p = p + 1;
    }
    assert(partition_meta@ =~= Seq::new(
        partition_count as nat,
        |p: int| spec_partition_meta(rs, *config, nlists, samples, offs, p),
    ));
    Ok(
        write_partitioned_ivf(
            records.len(),
            config.partition_bits,
            partition_meta.as_slice(),
            all_centroids.as_slice(),
            offsets.as_slice(),
            grouped_records.as_slice(),
        ),
    )
}

proof fn lemma_partition_centroids_len(
    records: Seq<PackedRecord>,
    config: IvfBuildConfig,
    nlists: Seq<usize>,
    samples: Seq<usize>,
    p: int,
)
    requires
        spec_partition_members(records, config.partition_bits as int, p, records.len() as int).len() > 0,
    ensures
        spec_partition_centroids(records, config, nlists, samples, p).len() == nlists[p],
{
    lemma_train_len(
        Seq::new(
            spec_partition_sample_size(
                if samples[p] < nlists[p] {
                    nlists[p] as int
                } else {
                    samples[p] as int
                },
                spec_partition_members(records, config.partition_bits as int, p, records.len() as int).len() as int,
            ) as nat,
            |m: int|
                records[spec_partition_members(
                    records,
                    config.partition_bits as int,
                    p,
                    records.len() as int,
                )[spec_sample_index(
                    spec_partition_members(records, config.partition_bits as int, p, records.len() as int).len() as int,
                    spec_partition_sample_size(
                        if samples[p] < nlists[p] {
                            nlists[p] as int
                        } else {
                            samples[p] as int
                        },
                        spec_partition_members(records, config.partition_bits as int, p, records.len() as int).len() as int,
                    ),
                    m,
                )] as int].vector@,
        ),
        nlists[p] as int,
        config.iterations as nat,
    );
}

proof fn lemma_train_len(sample: Seq<Seq<i16>>, nlist: int, iterations: nat)
    requires
        nlist >= 0,
    ensures
        spec_train(sample, spec_initial_centroids(sample, nlist), iterations).len() == nlist,
    decreases iterations,
{
    if iterations > 0 {
        lemma_train_len(sample, nlist, (iterations - 1) as nat);
    }
}

proof fn lemma_group_offsets_monotone(records: Seq<PackedRecord>, assignment: Seq<usize>, nlist: int)
    requires
        0 <= nlist,
        records.len() <= u32::MAX,
        forall|i: int| 0 <= i < assignment.len() ==> #[trigger] assignment[i] < nlist,
        assignment.len() == records.len(),
    ensures
        forall|a: int, b: int|
            0 <= a <= b <= nlist ==> #[trigger] spec_group_offsets(records, assignment, nlist)[a]
                <= #[trigger] spec_group_offsets(records, assignment, nlist)[b],
{
    assert forall|a: int, b: int| 0 <= a <= b <= nlist implies #[trigger] spec_group_offsets(
        records,
        assignment,
        nlist,
    )[a] <= #[trigger] spec_group_offsets(records, assignment, nlist)[b] by {
        lemma_grouped_monotone(records, assignment, a, b);
        lemma_grouped_monotone(records, assignment, b, nlist);
        lemma_grouped_len(records, assignment, nlist);
        lemma_members_total(records, assignment, nlist, records.len() as int);
    }
}

proof fn lemma_members_total_bound(records: Seq<PackedRecord>, assignment: Seq<usize>, m: int)
    requires
        0 <= m,
    ensures
        spec_members_total(records, assignment, m, records.len() as int) <= m * records.len(),
    decreases m,
{
    if m > 0 {
        lemma_members_total_bound(records, assignment, m - 1);
        lemma_members_len_monotone(records, assignment, m - 1, records.len() as int, records.len() as int);
        assert((m - 1) * records.len() + records.len() == m * records.len()) by (nonlinear_arith);
    }
}

proof fn lemma_partition_sizes_sum(records: Seq<PackedRecord>, bits: int, partitions: int)
    requires
        records.len() <= usize::MAX,
        0 <= bits,
        partitions == spec_pow2(bits as nat),
    ensures
        spec_sum(spec_partition_sizes(records, bits), partitions) == records.len(),
{
    lemma_partition_sizes_sum_prefix(records, bits, partitions, records.len() as int);
    lemma_partition_count_total_is_sum(records, bits, partitions);
}

proof fn lemma_partition_sizes_sum_prefix(records: Seq<PackedRecord>, bits: int, partitions: int, n: int)
    requires
        records.len() <= usize::MAX,
        0 <= bits,
        partitions == spec_pow2(bits as nat),
        0 <= n <= records.len(),
    ensures
        spec_partition_count_total(records, bits, partitions, n) == n,
    decreases n,
{
    if n > 0 {
        lemma_partition_sizes_sum_prefix(records, bits, partitions, n - 1);
        lemma_partition_key_bound(records[n - 1].vector@, bits);
        lemma_partition_count_total_step(records, bits, partitions, n);
    } else {
        lemma_partition_count_total_zero(records, bits, partitions);
    }
}

/// Sum over partitions `0..m` of how many of the first `n` records each holds.
pub open spec fn spec_partition_count_total(records: Seq<PackedRecord>, bits: int, m: int, n: int) -> int
    decreases m,
{
    if m <= 0 {
        0
    } else {
        spec_partition_count_total(records, bits, m - 1, n) + spec_partition_members(
            records,
            bits,
            m - 1,
            n,
        ).len()
    }
}

proof fn lemma_partition_count_total_step(records: Seq<PackedRecord>, bits: int, m: int, n: int)
    requires
        0 <= m,
        0 < n,
    ensures
        spec_partition_count_total(records, bits, m, n) == spec_partition_count_total(
            records,
            bits,
            m,
            n - 1,
        ) + if spec_partition_key(records[n - 1].vector@, bits) < m {
            1int
        } else {
            0int
        },
    decreases m,
{
    if m > 0 {
        lemma_partition_count_total_step(records, bits, m - 1, n);
    }
}

proof fn lemma_partition_count_total_zero(records: Seq<PackedRecord>, bits: int, m: int)
    requires
        0 <= m,
    ensures
        spec_partition_count_total(records, bits, m, 0) == 0,
    decreases m,
{
    if m > 0 {
        lemma_partition_count_total_zero(records, bits, m - 1);
    }
}

proof fn lemma_partition_count_total_is_sum(records: Seq<PackedRecord>, bits: int, partitions: int)
    requires
        records.len() <= usize::MAX,
        0 <= bits,
        partitions == spec_pow2(bits as nat),
    ensures
        spec_sum(spec_partition_sizes(records, bits), partitions) == spec_partition_count_total(
            records,
            bits,
            partitions,
            records.len() as int,
        ),
{
    lemma_partition_count_total_is_sum_prefix(records, bits, partitions, partitions);
}

proof fn lemma_partition_count_total_is_sum_prefix(records: Seq<PackedRecord>, bits: int, partitions: int, m: int)
    requires
        records.len() <= usize::MAX,
        0 <= bits,
        partitions == spec_pow2(bits as nat),
        0 <= m <= partitions,
    ensures
        spec_sum(spec_partition_sizes(records, bits), m) == spec_partition_count_total(
            records,
            bits,
            m,
            records.len() as int,
        ),
    decreases m,
{
    if m > 0 {
        lemma_partition_count_total_is_sum_prefix(records, bits, partitions, m - 1);
        lemma_partition_members_facts(records, bits, m - 1, records.len() as int);
    }
}

// ---------------------------------------------------------------------------
// From a flat index to an IVF one

/// The records a flat index file holds (meaningful when the file is accepted).
pub open spec fn spec_flat_file_records(flat_index: Seq<u8>) -> Seq<PackedRecord> {
    choose|records: Seq<PackedRecord>| crate::index::flat_records(flat_index, records)
}

/// What building an IVF index from a flat index file gives.
pub open spec fn spec_build_ivf_from_flat(flat_index: Seq<u8>, config: IvfBuildConfig) -> Result<
    Seq<u8>,
    IvfBuildError,
> {
    if config.nlist == 0 {
        Err(IvfBuildError::ZeroNlist)
    } else if config.iterations == 0 {
        Err(IvfBuildError::ZeroIterations)
    } else if config.partition_bits > 4 {
        Err(IvfBuildError::PartitionBitsOutOfRange)
    } else {
        match crate::index::spec_flat_load_error(flat_index) {
            Some(e) => Err(IvfBuildError::FlatIndex(e)),
            None => {
                let records = spec_flat_file_records(flat_index);
                if records.len() == 0 {
                    Err(IvfBuildError::EmptyFlatIndex)
                } else if config.partition_bits == 0 {
                    Ok(spec_standard_ivf(records, config))
                } else {
                    spec_partitioned_ivf(records, config)
                }
            },
        }
    }
}

/// The error a build configuration gives, if any.
pub open spec fn spec_build_config_error(config: IvfBuildConfig) -> Option<IvfBuildError> {
    if config.nlist == 0 {
        Some(IvfBuildError::ZeroNlist)
    } else if config.iterations == 0 {
        Some(IvfBuildError::ZeroIterations)
    } else if config.partition_bits > 4 {
        Some(IvfBuildError::PartitionBitsOutOfRange)
    } else {
        None
    }
}

/// Checks a build configuration: at least one list and one round, at most four
/// partition bits.
pub fn check_build_config(config: &IvfBuildConfig) -> (result: Result<(), IvfBuildError>)
    ensures
        match spec_build_config_error(*config) {
            Some(e) => result == Err::<(), IvfBuildError>(e),
            None => result is Ok,
        },
{
    if config.nlist == 0 {
        return Err(IvfBuildError::ZeroNlist);
    }
    if config.iterations == 0 {
        return Err(IvfBuildError::ZeroIterations);
    }
    if config.partition_bits > 4 {
        return Err(IvfBuildError::PartitionBitsOutOfRange);
    }
    Ok(())
}

/// Builds the file of an IVF index from the file of a flat index.
pub fn build_ivf_from_flat(flat_index: &[u8], config: &IvfBuildConfig) -> (result: Result<
    Vec<u8>,
    IvfBuildError,
>)
    ensures
        match spec_build_ivf_from_flat(flat_index@, *config) {
            Ok(bytes) => result matches Ok(b) && b@ == bytes,
            Err(e) => result == Err::<Vec<u8>, IvfBuildError>(e),
        },
{
    if let Err(e) = check_build_config(config) {
        return Err(e);
    }
    let flat = match crate::index::QuantizedIndex::load(flat_index) {
        Ok(index) => index,
        Err(e) => return Err(IvfBuildError::FlatIndex(e)),
    };
    let records = flat.records_for_build();
    proof {
        crate::index::lemma_flat_records_unique(
            flat_index@,
            records@,
            spec_flat_file_records(flat_index@),
        );
    }
    if records.len() == 0 {
        return Err(IvfBuildError::EmptyFlatIndex);
    }
    if config.partition_bits == 0 {
        return Ok(build_standard_ivf(records, config));
    }
    build_partitioned_ivf(records, config)
}

// ---------------------------------------------------------------------------
// What the sharing of lists keeps

/// Sum of the first `n` entries of an allocation.
pub open spec fn spec_allocation_sum(allocation: Seq<usize>, n: int) -> int
    decreases n,
{
    if n <= 0 {
        0
    } else {
        spec_allocation_sum(allocation, n - 1) + allocation[n - 1]
    }
}

/// What the share of partition `i` leaves over, in units of `1 / total` lists.
pub open spec fn spec_remainder(sizes: Seq<usize>, remaining: int, total: int, i: int) -> int {
    (sizes[i] * remaining) % total
}

/// The whole lists of the share of partition `i`.
pub open spec fn spec_quotient(sizes: Seq<usize>, remaining: int, total: int, i: int) -> int {
    (sizes[i] * remaining) / total
}

spec fn sum_quotients(sizes: Seq<usize>, remaining: int, total: int, n: int) -> int
    decreases n,
{
    if n <= 0 {
        0
    } else {
        sum_quotients(sizes, remaining, total, n - 1) + spec_quotient(sizes, remaining, total, n - 1)
    }
}

spec fn sum_remainders(sizes: Seq<usize>, remaining: int, total: int, n: int) -> int
    decreases n,
{
    if n <= 0 {
        0
    } else {
        sum_remainders(sizes, remaining, total, n - 1) + spec_remainder(sizes, remaining, total, n - 1)
    }
}

spec fn count_positive_remainders(sizes: Seq<usize>, remaining: int, total: int, n: int) -> int
    decreases n,
{
    if n <= 0 {
        0
    } else {
        count_positive_remainders(sizes, remaining, total, n - 1) + if spec_remainder(
            sizes,
            remaining,
            total,
            n - 1,
        ) > 0 {
            1int
        } else {
            0int
        }
    }
}

spec fn bonus_sum(sizes: Seq<usize>, chosen: Seq<int>, n: int) -> int
    decreases n,
{
    if n <= 0 {
        0
    } else {
        bonus_sum(sizes, chosen, n - 1) + if sizes[n - 1] > 0 && chosen.contains(n - 1) {
            1int
        } else {
            0int
        }
    }
}

proof fn lemma_division_sums(sizes: Seq<usize>, remaining: int, total: int, n: int)
    requires
        0 <= n <= sizes.len(),
        total > 0,
        remaining > 0,
    ensures
        total * sum_quotients(sizes, remaining, total, n) + sum_remainders(sizes, remaining, total, n)
            == remaining * spec_sum(sizes, n),
        0 <= sum_remainders(sizes, remaining, total, n) <= (total - 1)
            * count_positive_remainders(sizes, remaining, total, n),
        0 <= count_positive_remainders(sizes, remaining, total, n) <= n,
        spec_int_sum(spec_base_allocation(sizes, remaining, total), n) == spec_non_empty(sizes, n)
            + sum_quotients(sizes, remaining, total, n),
    decreases n,
{
    if n > 0 {
        lemma_division_sums(sizes, remaining, total, n - 1);
        let x = sizes[n - 1] as int;
        let q = spec_quotient(sizes, remaining, total, n - 1);
        let r = spec_remainder(sizes, remaining, total, n - 1);
        assert(x * remaining == total * q + r && 0 <= r < total) by (nonlinear_arith)
            requires
                q == (x * remaining) / total,
                r == (x * remaining) % total,
                total > 0,
        ;
        assert(total * sum_quotients(sizes, remaining, total, n - 1) + total * q == total * (
        sum_quotients(sizes, remaining, total, n - 1) + q)) by (nonlinear_arith);
        assert(remaining * spec_sum(sizes, n - 1) + x * remaining == remaining * (spec_sum(
            sizes,
            n - 1,
        ) + x)) by (nonlinear_arith);
        if x == 0 {
            assert(q == 0 && r == 0) by (nonlinear_arith)
                requires
                    x == 0,
                    q == (x * remaining) / total,
                    r == (x * remaining) % total,
                    total > 0,
            ;
        }
        let c = count_positive_remainders(sizes, remaining, total, n - 1);
        if r > 0 {
            assert((total - 1) * c + r <= (total - 1) * (c + 1)) by (nonlinear_arith)
                requires
                    r <= total - 1,
            ;
        }
    }
}

proof fn lemma_bonus_sum_drop_last(sizes: Seq<usize>, chosen: Seq<int>, m: int)
    requires
        chosen.len() > 0,
        0 <= m,
        !chosen.drop_last().contains(chosen.last()),
    ensures
        bonus_sum(sizes, chosen, m) == bonus_sum(sizes, chosen.drop_last(), m) + if chosen.last()
            < m && 0 <= chosen.last() && sizes[chosen.last()] > 0 {
            1int
        } else {
            0int
        },
    decreases m,
{
    if m > 0 {
        lemma_bonus_sum_drop_last(sizes, chosen, m - 1);
        let front = chosen.drop_last();
        let i = m - 1;
        assert(chosen.contains(i) <==> (front.contains(i) || chosen.last() == i)) by {
            if chosen.contains(i) {
                let p = choose|p: int| 0 <= p < chosen.len() && chosen[p] == i;
                if p < chosen.len() - 1 {
                    assert(front[p] == i);
                }
            }
            if front.contains(i) {
                let p = choose|p: int| 0 <= p < front.len() && front[p] == i;
                assert(chosen[p] == i);
            }
        }
    }
}

proof fn lemma_bonus_sum_counts(sizes: Seq<usize>, chosen: Seq<int>, n: int)
    requires
        0 <= n <= sizes.len(),
        chosen.no_duplicates(),
        forall|a: int| 0 <= a < chosen.len() ==> 0 <= #[trigger] chosen[a] < n,
        forall|a: int| 0 <= a < chosen.len() ==> sizes[#[trigger] chosen[a]] > 0,
    ensures
        bonus_sum(sizes, chosen, n) == chosen.len(),
    decreases chosen.len(),
{
    if chosen.len() == 0 {
        lemma_bonus_sum_empty(sizes, chosen, n);
    } else {
        let front = chosen.drop_last();
        assert(!front.contains(chosen.last())) by {
            if front.contains(chosen.last()) {
                let p = choose|p: int| 0 <= p < front.len() && front[p] == chosen.last();
                assert(chosen[p] == chosen[chosen.len() - 1]);
            }
        }
        lemma_bonus_sum_drop_last(sizes, chosen, n);
        assert forall|a: int, b: int| 0 <= a < front.len() && 0 <= b < front.len() && a != b
            implies front[a] != front[b] by {
            assert(chosen[a] != chosen[b]);
        }
        lemma_bonus_sum_counts(sizes, front, n);
    }
}

proof fn lemma_bonus_sum_empty(sizes: Seq<usize>, chosen: Seq<int>, n: int)
    requires
        chosen.len() == 0,
    ensures
        bonus_sum(sizes, chosen, n) == 0,
    decreases n,
{
    if n > 0 {
        lemma_bonus_sum_empty(sizes, chosen, n - 1);
    }
}

proof fn lemma_allocation_sum_split(
    sizes: Seq<usize>,
    base: Seq<int>,
    chosen: Seq<int>,
    allocation: Seq<usize>,
    n: int,
)
    requires
        0 <= n <= sizes.len(),
        base.len() == sizes.len(),
        allocation.len() == sizes.len(),
        forall|i: int|
            0 <= i < sizes.len() ==> #[trigger] allocation[i] == base[i] + if sizes[i] > 0
                && chosen.contains(i) {
                1int
            } else {
                0int
            },
    ensures
        spec_allocation_sum(allocation, n) == spec_int_sum(base, n) + bonus_sum(sizes, chosen, n),
    decreases n,
{
    if n > 0 {
        lemma_allocation_sum_split(sizes, base, chosen, allocation, n - 1);
    }
}

proof fn lemma_positive_remainder_set(sizes: Seq<usize>, remaining: int, total: int, n: int)
    requires
        0 <= n,
    ensures
        Set::new(|i: int| 0 <= i < n && spec_remainder(sizes, remaining, total, i) > 0).finite(),
        Set::new(|i: int| 0 <= i < n && spec_remainder(sizes, remaining, total, i) > 0).len()
            == count_positive_remainders(sizes, remaining, total, n),
    decreases n,
{
    let here = Set::new(|i: int| 0 <= i < n && spec_remainder(sizes, remaining, total, i) > 0);
    if n == 0 {
        assert(here =~= Set::empty());
    } else {
        lemma_positive_remainder_set(sizes, remaining, total, n - 1);
        let before = Set::new(
            |i: int| 0 <= i < n - 1 && spec_remainder(sizes, remaining, total, i) > 0,
        );
        if spec_remainder(sizes, remaining, total, n - 1) > 0 {
            assert(here =~= before.insert(n - 1));
        } else {
            assert(here =~= before);
        }
    }
}

/// Where lists are left over after every non-empty partition got one: each partition
/// gets its base share, plus one when it is among the `k` with the largest remainders,
/// where `k` is what the base shares leave of `total_nlist`, and every one of those
/// dropped a positive remainder.
proof fn lemma_allocation_entries(sizes: Seq<usize>, total_nlist: int)
    requires
        spec_allocate_partition_nlists(sizes, total_nlist) is Ok,
        total_nlist <= usize::MAX,
        total_nlist != spec_non_empty(sizes, sizes.len() as int),
    ensures
        ({
            let n = sizes.len() as int;
            let total = spec_sum(sizes, n);
            let remaining = total_nlist - spec_non_empty(sizes, n);
            let base = spec_base_allocation(sizes, remaining, total);
            let keys = spec_leftover_keys(sizes, remaining, total);
            let allocation = spec_allocate_partition_nlists(sizes, total_nlist)->Ok_0;
            let leftovers = total_nlist - spec_int_sum(base, n);
            let chosen = top_k(keys, leftovers as nat);
            &&& total > 0
            &&& remaining > 0
            &&& leftovers >= 0
            &&& is_top_k(keys, leftovers as nat, chosen)
            &&& chosen.len() == leftovers
            &&& chosen.no_duplicates()
            &&& forall|a: int| 0 <= a < chosen.len() ==> sizes[#[trigger] chosen[a]] > 0
            &&& forall|a: int| 0 <= a < chosen.len() ==> spec_remainder(sizes, remaining, total, #[trigger] chosen[a]) > 0
            &&& allocation.len() == n
            &&& forall|i: int|
                0 <= i < n ==> #[trigger] allocation[i] == base[i] + if sizes[i] > 0
                    && chosen.contains(i) {
                    1int
                } else {
                    0int
                }
            &&& forall|i: int| 0 <= i < n ==> #[trigger] base[i] == if sizes[i] > 0 {
                1 + spec_quotient(sizes, remaining, total, i)
            } else {
                0
            }
        }),
{
    let n = sizes.len() as int;
    let total = spec_sum(sizes, n);
    let non_empty = spec_non_empty(sizes, n);
    let allocation = spec_allocate_partition_nlists(sizes, total_nlist)->Ok_0;
    lemma_non_empty_bounds(sizes, n);
    let remaining = total_nlist - non_empty;
    let base = spec_base_allocation(sizes, remaining, total);
    let keys = spec_leftover_keys(sizes, remaining, total);
    lemma_sum_nonneg(sizes, n);
    lemma_division_sums(sizes, remaining, total, n);
    let assigned = spec_int_sum(base, n);
    let sum_q = sum_quotients(sizes, remaining, total, n);
    let sum_r = sum_remainders(sizes, remaining, total, n);
    let positives = count_positive_remainders(sizes, remaining, total, n);
    assert(sum_r == (remaining - sum_q) * total) by (nonlinear_arith)
        requires
            total * sum_q + sum_r == remaining * total,
    ;
    let leftovers = remaining - sum_q;
    assert(leftovers >= 0) by (nonlinear_arith)
        requires
            sum_r == leftovers * total,
            sum_r >= 0,
            total > 0,
    ;
    assert(leftovers <= positives) by (nonlinear_arith)
        requires
            sum_r == leftovers * total,
            sum_r <= (total - 1) * positives,
            total > 0,
            positives >= 0,
    ;
    assert(assigned == total_nlist - leftovers);
    let k = leftovers;
    lemma_top_k_is_len(keys, k as nat);
    let chosen = top_k(keys, k as nat);
    assert(chosen.len() == k);
    assert forall|a: int| 0 <= a < chosen.len() implies spec_remainder(
        sizes,
        remaining,
        total,
        #[trigger] chosen[a],
    ) > 0 by {
        lemma_positive_outside(sizes, remaining, total, keys, chosen, chosen[a]);
    }
    assert forall|a: int| 0 <= a < chosen.len() implies sizes[#[trigger] chosen[a]] > 0 by {
        let j = chosen[a];
        assert(spec_remainder(sizes, remaining, total, j) > 0);
        if sizes[j] == 0 {
            assert((sizes[j] * remaining) % total == 0) by (nonlinear_arith)
                requires
                    sizes[j] == 0,
                    total > 0,
            ;
        }
    }
    assert(chosen.no_duplicates()) by {
        assert forall|a: int, b: int| 0 <= a < chosen.len() && 0 <= b < chosen.len() && a != b
            implies chosen[a] != chosen[b] by {
            if a < b {
                assert(crate::knn::ranks_before(keys, chosen[a], chosen[b]));
            } else {
                assert(crate::knn::ranks_before(keys, chosen[b], chosen[a]));
            }
        }
    }
    assert forall|i: int| 0 <= i < n implies 0 <= #[trigger] base[i] <= assigned by {
        assert(0 <= (sizes[i] as int) * remaining / total) by (nonlinear_arith)
            requires
                sizes[i] >= 0,
                remaining > 0,
                total > 0,
        ;
        lemma_int_sum_bounds(base, i, n);
    }
    assert forall|i: int| 0 <= i < n implies #[trigger] allocation[i] == base[i] + if sizes[i]
        > 0 && chosen.contains(i) {
        1int
    } else {
        0int
    } by {
        if sizes[i] > 0 && chosen.contains(i) {
            assert(leftovers > 0);
        }
    }
}

/// Sharing lists among partitions hands out exactly `total_nlist` lists, at least one
/// to every non-empty partition and none to an empty one.
pub proof fn lemma_allocation_preserves_total(sizes: Seq<usize>, total_nlist: int)
    requires
        spec_allocate_partition_nlists(sizes, total_nlist) is Ok,
        total_nlist <= usize::MAX,
    ensures
        ({
            let allocation = spec_allocate_partition_nlists(sizes, total_nlist)->Ok_0;
            &&& allocation.len() == sizes.len()
            &&& spec_allocation_sum(allocation, sizes.len() as int) == total_nlist
            &&& forall|i: int| 0 <= i < sizes.len() && sizes[i] > 0 ==> #[trigger] allocation[i] >= 1
            &&& forall|i: int| 0 <= i < sizes.len() && sizes[i] == 0 ==> #[trigger] allocation[i] == 0
        }),
{
    let n = sizes.len() as int;
    let total = spec_sum(sizes, n);
    let non_empty = spec_non_empty(sizes, n);
    let allocation = spec_allocate_partition_nlists(sizes, total_nlist)->Ok_0;
    lemma_non_empty_bounds(sizes, n);
    if total_nlist == non_empty {
        let indicator = Seq::new(sizes.len(), |i: int| if sizes[i] > 0 { 1usize } else { 0usize });
        assert(allocation == indicator);
        lemma_indicator_sum(sizes, n);
    } else {
        lemma_allocation_entries(sizes, total_nlist);
        let remaining = total_nlist - non_empty;
        let base = spec_base_allocation(sizes, remaining, total);
        let leftovers = total_nlist - spec_int_sum(base, n);
        let chosen = top_k(spec_leftover_keys(sizes, remaining, total), leftovers as nat);
        lemma_division_sums(sizes, remaining, total, n);
        lemma_bonus_sum_counts(sizes, chosen, n);
        lemma_allocation_sum_split(sizes, base, chosen, allocation, n);
        assert forall|i: int| 0 <= i < n && sizes[i] > 0 implies #[trigger] allocation[i] >= 1 by {
            assert(0 <= (sizes[i] as int) * remaining / total) by (nonlinear_arith)
                requires
                    sizes[i] >= 0,
                    remaining > 0,
                    total > 0,
            ;
        }
    }
}

/// A larger partition gets at least as many lists as a smaller one.
pub proof fn lemma_allocation_monotone(sizes: Seq<usize>, total_nlist: int, a: int, b: int)
    requires
        spec_allocate_partition_nlists(sizes, total_nlist) is Ok,
        total_nlist <= usize::MAX,
        0 <= a < sizes.len(),
        0 <= b < sizes.len(),
        sizes[a] > sizes[b],
    ensures
        spec_allocate_partition_nlists(sizes, total_nlist)->Ok_0[a]
            >= spec_allocate_partition_nlists(sizes, total_nlist)->Ok_0[b],
{
    let n = sizes.len() as int;
    let non_empty = spec_non_empty(sizes, n);
    let allocation = spec_allocate_partition_nlists(sizes, total_nlist)->Ok_0;
    lemma_allocation_preserves_total(sizes, total_nlist);
    if total_nlist != non_empty {
        lemma_allocation_entries(sizes, total_nlist);
        let total = spec_sum(sizes, n);
        let remaining = total_nlist - non_empty;
        let base = spec_base_allocation(sizes, remaining, total);
        let keys = spec_leftover_keys(sizes, remaining, total);
        let leftovers = total_nlist - spec_int_sum(base, n);
        let chosen = top_k(keys, leftovers as nat);
        let xa = sizes[a] * remaining;
        let xb = sizes[b] * remaining;
        let qa = spec_quotient(sizes, remaining, total, a);
        let qb = spec_quotient(sizes, remaining, total, b);
        let ra = spec_remainder(sizes, remaining, total, a);
        let rb = spec_remainder(sizes, remaining, total, b);
        assert(xa > xb) by (nonlinear_arith)
            requires
                xa == sizes[a] * remaining,
                xb == sizes[b] * remaining,
                sizes[a] > sizes[b],
                remaining > 0,
        ;
        assert(qa > qb || (qa == qb && ra > rb)) by (nonlinear_arith)
            requires
                xa > xb >= 0,
                qa == xa / total,
                qb == xb / total,
                ra == xa % total,
                rb == xb % total,
                total > 0,
        ;
        if qa == qb && sizes[b] > 0 && chosen.contains(b) && !chosen.contains(a) {
            let p = choose|p: int| 0 <= p < chosen.len() && chosen[p] == b;
            assert(crate::knn::ranks_before(keys, chosen[p], a));
        }
    }
}

proof fn lemma_indicator_sum(sizes: Seq<usize>, n: int)
    requires
        0 <= n <= sizes.len(),
    ensures
        spec_allocation_sum(
            Seq::new(sizes.len(), |i: int| if sizes[i] > 0 { 1usize } else { 0usize }),
            n,
        ) == spec_non_empty(sizes, n),
    decreases n,
{
    if n > 0 {
        lemma_indicator_sum(sizes, n - 1);
    }
}

/// When no more partitions are chosen than dropped a remainder, every chosen one
/// dropped a remainder: one that dropped nothing ranks after all that did, so choosing
/// it would leave out one that ranks before it.
proof fn lemma_positive_outside(
    sizes: Seq<usize>,
    remaining: int,
    total: int,
    keys: Seq<int>,
    chosen: Seq<int>,
    j: int,
)
    requires
        total > 0,
        remaining > 0,
        keys == spec_leftover_keys(sizes, remaining, total),
        is_top_k(keys, chosen.len() as nat, chosen),
        chosen.len() <= count_positive_remainders(sizes, remaining, total, sizes.len() as int),
        chosen.contains(j),
    ensures
        spec_remainder(sizes, remaining, total, j) > 0,
{
    if spec_remainder(sizes, remaining, total, j) > 0 {
        return;
    }
    let n = sizes.len() as int;
    lemma_positive_remainder_set(sizes, remaining, total, n);
    let positive = Set::new(|i: int| 0 <= i < n && spec_remainder(sizes, remaining, total, i) > 0);
    assert(chosen.no_duplicates()) by {
        assert forall|a: int, b: int| 0 <= a < chosen.len() && 0 <= b < chosen.len() && a != b
            implies chosen[a] != chosen[b] by {
            if a < b {
                assert(crate::knn::ranks_before(keys, chosen[a], chosen[b]));
            } else {
                assert(crate::knn::ranks_before(keys, chosen[b], chosen[a]));
            }
        }
    }
    chosen.unique_seq_to_set();
    let members = chosen.to_set();
    if positive.subset_of(members) {
        assert(positive.subset_of(members.remove(j)));
        vstd::set_lib::lemma_len_subset(positive, members.remove(j));
    } else {
        let i = choose|i: int| positive.contains(i) && !members.contains(i);
        let p = choose|p: int| 0 <= p < chosen.len() && chosen[p] == j;
        // chosen[p] == j ranks before i, yet j's key is total and i's is below it
        assert(0 <= j < n);
        assert(sizes[i] > 0) by {
            if sizes[i] == 0 {
                assert((sizes[i] * remaining) % total == 0) by (nonlinear_arith)
                    requires
                        sizes[i] == 0,
                        total > 0,
                ;
            }
        }
        assert(spec_remainder(sizes, remaining, total, j) == 0) by (nonlinear_arith)
            requires
                spec_remainder(sizes, remaining, total, j) <= 0,
                spec_remainder(sizes, remaining, total, j) == (sizes[j] * remaining) % total,
                total > 0,
        ;
        assert(keys[j] == total);
        assert(keys[i] < total);
        assert(!chosen.contains(i));
        assert(crate::knn::ranks_before(keys, chosen[p], i));
    }
}

// ---------------------------------------------------------------------------
// Reading back a written IVF index

proof fn lemma_vectors_bytes_split(vectors: Seq<Seq<i16>>, c: int)
    requires
        0 <= c <= vectors.len(),
        all_full_vectors(vectors),
    ensures
        spec_vectors_bytes(vectors) == spec_vectors_bytes(vectors.take(c)) + spec_vectors_bytes(
            vectors.skip(c),
        ),
        spec_vectors_bytes(vectors).len() == VECTOR_BYTES * vectors.len(),
        spec_vectors_bytes(vectors.take(c)).len() == VECTOR_BYTES * c,
    decreases vectors.len(),
{
    if vectors.len() == 0 {
        assert(vectors.take(c) =~= vectors);
        assert(vectors.skip(c) =~= vectors);
    } else if c == vectors.len() {
        assert(vectors.take(c) =~= vectors);
        assert(vectors.skip(c) =~= Seq::<Seq<i16>>::empty());
        lemma_vectors_bytes_split(vectors.drop_last(), c - 1);
        lemma_vector_roundtrip(Seq::empty(), vectors.last(), Seq::empty());
        assert(vectors.drop_last().take(c - 1) =~= vectors.drop_last());
        assert(spec_vectors_bytes(vectors) + Seq::<u8>::empty() =~= spec_vectors_bytes(vectors));
    } else {
        let front = vectors.drop_last();
        lemma_vectors_bytes_split(front, c);
        lemma_vector_roundtrip(Seq::empty(), vectors.last(), Seq::empty());
        assert(front.take(c) =~= vectors.take(c));
        assert(vectors.skip(c).drop_last() =~= front.skip(c));
        assert(vectors.skip(c).last() == vectors.last());
        assert(spec_vectors_bytes(vectors) =~= spec_vectors_bytes(vectors.take(c))
            + spec_vectors_bytes(vectors.skip(c)));
    }
}

proof fn lemma_vectors_bytes_read(prefix: Seq<u8>, vectors: Seq<Seq<i16>>, suffix: Seq<u8>, c: int)
    requires
        0 <= c < vectors.len(),
        all_full_vectors(vectors),
    ensures
        spec_vector_at(prefix + spec_vectors_bytes(vectors) + suffix, prefix.len() + VECTOR_BYTES * c)
            == vectors[c],
{
    lemma_vectors_bytes_split(vectors, c);
    let rest = vectors.skip(c);
    lemma_vectors_bytes_split(rest, 1);
    assert(rest.take(1) =~= seq![vectors[c]]);
    assert(seq![vectors[c]].drop_last() =~= Seq::<Seq<i16>>::empty());
    assert(seq![vectors[c]].last() == vectors[c]);
    assert(spec_vectors_bytes(seq![vectors[c]].drop_last()) =~= Seq::<u8>::empty());
    assert(spec_vectors_bytes(seq![vectors[c]]) =~= spec_vector_bytes(vectors[c]));
    let before = prefix + spec_vectors_bytes(vectors.take(c));
    let after = spec_vectors_bytes(rest.skip(1)) + suffix;
    assert(prefix + spec_vectors_bytes(vectors) + suffix =~= before + spec_vector_bytes(vectors[c])
        + after);
    lemma_vector_roundtrip(before, vectors[c], after);
}

proof fn lemma_words_bytes_split(words: Seq<u32>, c: int)
    requires
        0 <= c <= words.len(),
    ensures
        spec_words_bytes(words) == spec_words_bytes(words.take(c)) + spec_words_bytes(words.skip(c)),
        spec_words_bytes(words).len() == 4 * words.len(),
        spec_words_bytes(words.take(c)).len() == 4 * c,
    decreases words.len(),
{
    if words.len() == 0 {
        assert(words.take(c) =~= words);
        assert(words.skip(c) =~= words);
    } else if c == words.len() {
        assert(words.take(c) =~= words);
        assert(words.skip(c) =~= Seq::<u32>::empty());
        lemma_words_bytes_split(words.drop_last(), c - 1);
        assert(words.drop_last().take(c - 1) =~= words.drop_last());
        assert(spec_words_bytes(words) + Seq::<u8>::empty() =~= spec_words_bytes(words));
    } else {
        let front = words.drop_last();
        lemma_words_bytes_split(front, c);
        assert(front.take(c) =~= words.take(c));
        assert(words.skip(c).drop_last() =~= front.skip(c));
        assert(words.skip(c).last() == words.last());
        assert(spec_words_bytes(words) =~= spec_words_bytes(words.take(c)) + spec_words_bytes(
            words.skip(c),
        ));
    }
}

proof fn lemma_words_bytes_read(prefix: Seq<u8>, words: Seq<u32>, suffix: Seq<u8>, l: int)
    requires
        0 <= l < words.len(),
    ensures
        spec_le_u32(prefix + spec_words_bytes(words) + suffix, prefix.len() + 4 * l) == words[l],
{
    lemma_words_bytes_split(words, l);
    let rest = words.skip(l);
    lemma_words_bytes_split(rest, 1);
    assert(rest.take(1) =~= seq![words[l]]);
    assert(seq![words[l]].drop_last() =~= Seq::<u32>::empty());
    assert(spec_words_bytes(seq![words[l]]) =~= spec_u32_bytes(words[l]));
    let before = prefix + spec_words_bytes(words.take(l));
    let after = spec_words_bytes(rest.skip(1)) + suffix;
    assert(prefix + spec_words_bytes(words) + suffix =~= before + spec_u32_bytes(words[l]) + after);
    lemma_u32_roundtrip(before, words[l], after);
}

proof fn lemma_partitions_bytes_split(metas: Seq<IvfPartitionMeta>, c: int)
    requires
        0 <= c <= metas.len(),
    ensures
        spec_partitions_bytes(metas) == spec_partitions_bytes(metas.take(c)) + spec_partitions_bytes(
            metas.skip(c),
        ),
        spec_partitions_bytes(metas).len() == 16 * metas.len(),
        spec_partitions_bytes(metas.take(c)).len() == 16 * c,
    decreases metas.len(),
{
    if metas.len() == 0 {
        assert(metas.take(c) =~= metas);
        assert(metas.skip(c) =~= metas);
    } else if c == metas.len() {
        assert(metas.take(c) =~= metas);
        assert(metas.skip(c) =~= Seq::<IvfPartitionMeta>::empty());
        lemma_partitions_bytes_split(metas.drop_last(), c - 1);
        assert(metas.drop_last().take(c - 1) =~= metas.drop_last());
        assert(spec_partitions_bytes(metas) + Seq::<u8>::empty() =~= spec_partitions_bytes(metas));
    } else {
        let front = metas.drop_last();
        lemma_partitions_bytes_split(front, c);
        assert(front.take(c) =~= metas.take(c));
        assert(metas.skip(c).drop_last() =~= front.skip(c));
        assert(metas.skip(c).last() == metas.last());
        assert(spec_partitions_bytes(metas) =~= spec_partitions_bytes(metas.take(c))
            + spec_partitions_bytes(metas.skip(c)));
    }
}

proof fn lemma_partition_meta_read(before: Seq<u8>, m: IvfPartitionMeta, after: Seq<u8>)
    ensures
        spec_partition_meta_at(before + spec_partition_meta_bytes(m) + after, before.len() as int)
            == m,
{
    let words = seq![m.centroid_start, m.centroid_count, m.record_start, m.record_count];
    lemma_header_words(words);
    assert(spec_partition_meta_bytes(m) =~= spec_words_bytes(words));
    lemma_words_bytes_read(before, words, after, 0);
    lemma_words_bytes_read(before, words, after, 1);
    lemma_words_bytes_read(before, words, after, 2);
    lemma_words_bytes_read(before, words, after, 3);
}

proof fn lemma_partitions_bytes_read(
    prefix: Seq<u8>,
    metas: Seq<IvfPartitionMeta>,
    suffix: Seq<u8>,
    p: int,
)
    requires
        0 <= p < metas.len(),
    ensures
        spec_partition_meta_at(prefix + spec_partitions_bytes(metas) + suffix, prefix.len() + 16 * p)
            == metas[p],
{
    lemma_partitions_bytes_split(metas, p);
    let rest = metas.skip(p);
    lemma_partitions_bytes_split(rest, 1);
    assert(rest.take(1) =~= seq![metas[p]]);
    assert(seq![metas[p]].drop_last() =~= Seq::<IvfPartitionMeta>::empty());
    let m = metas[p];
    assert(spec_partitions_bytes(seq![m]) =~= spec_partition_meta_bytes(m));
    let before = prefix + spec_partitions_bytes(metas.take(p));
    let after = spec_partitions_bytes(rest.skip(1)) + suffix;
    assert(prefix + spec_partitions_bytes(metas) + suffix =~= before + spec_partition_meta_bytes(m)
        + after);
    lemma_partition_meta_read(before, m, after);
}

proof fn lemma_records_bytes_read(prefix: Seq<u8>, records: Seq<PackedRecord>, suffix: Seq<u8>, i: int)
    requires
        0 <= i < records.len(),
    ensures
        record_at(prefix + spec_records_bytes(records) + suffix, prefix.len() + RECORD_BYTES * i, records[i]),
{
    lemma_records_bytes_split(records, i);
    lemma_records_bytes_len(records.take(i));
    let before = prefix + spec_records_bytes(records.take(i));
    let after = spec_records_bytes(records.skip(i + 1)) + suffix;
    assert(prefix + spec_records_bytes(records) + suffix =~= before + spec_record_bytes(records[i])
        + after);
    lemma_record_roundtrip(before, records[i], after);
}

/// What a written IVF file holds, read back: the regions after a header of
/// `header_len` bytes and partition entries of `partitions_len` bytes.
proof fn lemma_ivf_regions_read(
    header: Seq<u8>,
    centroids: Seq<Seq<i16>>,
    offsets: Seq<u32>,
    grouped: Seq<PackedRecord>,
)
    requires
        all_full_vectors(centroids),
    ensures
        ({
            let b = header + spec_vectors_bytes(centroids) + spec_words_bytes(offsets)
                + spec_records_bytes(grouped);
            let centroids_at = header.len() as int;
            let offsets_at = centroids_at + VECTOR_BYTES * centroids.len();
            let records_at = offsets_at + 4 * offsets.len();
            &&& b.len() == records_at + RECORD_BYTES * grouped.len()
            &&& forall|c: int|
                0 <= c < centroids.len() ==> #[trigger] spec_vector_at(b, centroids_at + VECTOR_BYTES * c)
                    == centroids[c]
            &&& forall|l: int|
                0 <= l < offsets.len() ==> #[trigger] spec_le_u32(b, offsets_at + 4 * l) == offsets[l]
            &&& forall|i: int|
                0 <= i < grouped.len() ==> record_at(b, records_at + RECORD_BYTES * i, #[trigger] grouped[i])
            &&& b.take(header.len() as int) == header
        }),
{
    let vb = spec_vectors_bytes(centroids);
    let wb = spec_words_bytes(offsets);
    let rb = spec_records_bytes(grouped);
    let b = header + vb + wb + rb;
    lemma_vectors_bytes_split(centroids, 0);
    lemma_words_bytes_split(offsets, 0);
    lemma_records_bytes_len(grouped);
    assert forall|c: int| 0 <= c < centroids.len() implies #[trigger] spec_vector_at(
        b,
        header.len() + VECTOR_BYTES * c,
    ) == centroids[c] by {
        assert(b =~= header + vb + (wb + rb));
        lemma_vectors_bytes_read(header, centroids, wb + rb, c);
    }
    assert forall|l: int| 0 <= l < offsets.len() implies #[trigger] spec_le_u32(
        b,
        header.len() + VECTOR_BYTES * centroids.len() + 4 * l,
    ) == offsets[l] by {
        assert(b =~= (header + vb) + wb + rb);
        lemma_words_bytes_read(header + vb, offsets, rb, l);
    }
    assert forall|i: int| 0 <= i < grouped.len() implies record_at(
        b,
        header.len() + VECTOR_BYTES * centroids.len() + 4 * offsets.len() + RECORD_BYTES * i,
        #[trigger] grouped[i],
    ) by {
        assert(b =~= (header + vb + wb) + rb + Seq::<u8>::empty());
        lemma_records_bytes_read(header + vb + wb, grouped, Seq::empty(), i);
    }
    assert(b.take(header.len() as int) =~= header);
}

proof fn lemma_header_words(words: Seq<u32>)
    requires
        words.len() <= 5,
    ensures
        spec_words_bytes(words) == if words.len() == 0 {
            Seq::<u8>::empty()
        } else if words.len() == 1 {
            spec_u32_bytes(words[0])
        } else if words.len() == 2 {
            spec_u32_bytes(words[0]) + spec_u32_bytes(words[1])
        } else if words.len() == 3 {
            spec_u32_bytes(words[0]) + spec_u32_bytes(words[1]) + spec_u32_bytes(words[2])
        } else if words.len() == 4 {
            spec_u32_bytes(words[0]) + spec_u32_bytes(words[1]) + spec_u32_bytes(words[2])
                + spec_u32_bytes(words[3])
        } else {
            spec_u32_bytes(words[0]) + spec_u32_bytes(words[1]) + spec_u32_bytes(words[2])
                + spec_u32_bytes(words[3]) + spec_u32_bytes(words[4])
        },
    decreases words.len(),
{
    if words.len() > 0 {
        lemma_header_words(words.drop_last());
        let front = words.drop_last();
        assert(spec_words_bytes(words) == spec_words_bytes(front) + spec_u32_bytes(words.last()));
        if words.len() == 1 {
            assert(spec_words_bytes(front) =~= Seq::<u8>::empty());
            assert(spec_words_bytes(words) =~= spec_u32_bytes(words[0]));
        } else if words.len() == 2 {
            assert(spec_words_bytes(words) =~= spec_u32_bytes(words[0]) + spec_u32_bytes(words[1]));
        } else if words.len() == 3 {
            assert(spec_words_bytes(words) =~= spec_u32_bytes(words[0]) + spec_u32_bytes(words[1])
                + spec_u32_bytes(words[2]));
        } else if words.len() == 4 {
            assert(spec_words_bytes(words) =~= spec_u32_bytes(words[0]) + spec_u32_bytes(words[1])
                + spec_u32_bytes(words[2]) + spec_u32_bytes(words[3]));
        } else {
            assert(spec_words_bytes(words) =~= spec_u32_bytes(words[0]) + spec_u32_bytes(words[1])
                + spec_u32_bytes(words[2]) + spec_u32_bytes(words[3]) + spec_u32_bytes(words[4]));
        }
    }
}

/// A file whose header is sound and whose size is what the header announces is
/// accepted, and its offsets read back as written.
#[verifier::rlimit(30)]
proof fn lemma_ivf_accepted(b: Seq<u8>, offsets: Seq<u32>, grouped: Seq<PackedRecord>)
    requires
        b.take(8) == ivf_magic_v1() || b.take(8) == ivf_magic_v2(),
        b.len() >= spec_ivf_header_bytes(b),
        spec_le_u32(b, 8) == VERSION,
        spec_ivf_v2(b) ==> 1 <= spec_ivf_partition_bits(b) < 32 && spec_ivf_partition_count(b)
            == spec_pow2(spec_ivf_partition_bits(b) as nat),
        spec_ivf_count(b) == grouped.len(),
        b.len() == spec_ivf_end(b),
        offsets.len() == spec_ivf_nlist(b) + 1,
        forall|l: int|
            0 <= l < offsets.len() ==> #[trigger] spec_le_u32(b, spec_ivf_offsets_at(b) + 4 * l)
                == offsets[l],
        forall|i: int|
            0 <= i < grouped.len() ==> record_at(
                b,
                spec_ivf_records_at(b) + RECORD_BYTES * i,
                #[trigger] grouped[i],
            ),
    ensures
        spec_ivf_load_error(b) is None,
        spec_ivf_offsets(b) == offsets,
{
    assert(spec_ivf_offsets(b) =~= offsets);
}

/// The header and regions of a written version 1 IVF file, read back.
#[verifier::rlimit(40)]
proof fn lemma_standard_layout_read(
    count: int,
    centroids: Seq<Seq<i16>>,
    offsets: Seq<u32>,
    grouped: Seq<PackedRecord>,
)
    requires
        all_full_vectors(centroids),
        0 <= centroids.len() <= u32::MAX,
        count == grouped.len() <= u32::MAX,
        offsets.len() == centroids.len() + 1,
    ensures
        ({
            let b = spec_standard_ivf_bytes(count, centroids, offsets, grouped);
            &&& b.take(8) == ivf_magic_v1()
            &&& !spec_ivf_v2(b)
            &&& b.len() >= spec_ivf_header_bytes(b)
            &&& spec_le_u32(b, 8) == VERSION
            &&& spec_ivf_count(b) == count
            &&& spec_ivf_nlist(b) == centroids.len()
            &&& spec_ivf_partition_count(b) == 0
            &&& b.len() == spec_ivf_end(b)
            &&& forall|c: int|
                0 <= c < centroids.len() ==> #[trigger] spec_vector_at(
                    b,
                    spec_ivf_centroids_at(b) + VECTOR_BYTES * c,
                ) == centroids[c]
            &&& forall|l: int|
                0 <= l < offsets.len() ==> #[trigger] spec_le_u32(b, spec_ivf_offsets_at(b) + 4 * l)
                    == offsets[l]
            &&& forall|i: int|
                0 <= i < count ==> record_at(
                    b,
                    spec_ivf_records_at(b) + RECORD_BYTES * i,
                    #[trigger] grouped[i],
                )
        }),
{
    let n = centroids.len() as int;
    let magic = ivf_magic_v1();
    let words = seq![VERSION, count as u32, n as u32];
    lemma_header_words(words);
    let header = magic + spec_words_bytes(words);
    let rest = spec_vectors_bytes(centroids) + spec_words_bytes(offsets) + spec_records_bytes(grouped);
    let b = spec_standard_ivf_bytes(count, centroids, offsets, grouped);
    assert(b =~= header + spec_vectors_bytes(centroids) + spec_words_bytes(offsets)
        + spec_records_bytes(grouped));
    lemma_ivf_regions_read(header, centroids, offsets, grouped);
    assert(b =~= magic + spec_words_bytes(words) + rest);
    lemma_words_bytes_read(magic, words, rest, 0);
    lemma_words_bytes_read(magic, words, rest, 1);
    lemma_words_bytes_read(magic, words, rest, 2);
    assert(b.take(8) =~= magic);
    assert(b.take(8)[7] != ivf_magic_v2()[7]);
}

/// Reading back a written version 1 IVF file: the file of any centroids, one more list
/// offset than centroids, and any records is accepted, and holds exactly those
/// centroids, offsets and records.
pub proof fn lemma_standard_ivf_roundtrip(
    count: int,
    centroids: Seq<Seq<i16>>,
    offsets: Seq<u32>,
    grouped: Seq<PackedRecord>,
)
    requires
        all_full_vectors(centroids),
        centroids.len() <= u32::MAX,
        count == grouped.len() <= u32::MAX,
        offsets.len() == centroids.len() + 1,
    ensures
        ({
            let b = spec_standard_ivf_bytes(count, centroids, offsets, grouped);
            &&& spec_ivf_load_error(b) is None
            &&& !spec_ivf_v2(b)
            &&& spec_ivf_nlist(b) == centroids.len()
            &&& spec_ivf_count(b) == count
            &&& spec_ivf_partition_bits(b) == 0
            &&& spec_ivf_offsets(b) == offsets
            &&& forall|c: int|
                0 <= c < centroids.len() ==> #[trigger] spec_vector_at(
                    b,
                    spec_ivf_centroids_at(b) + VECTOR_BYTES * c,
                ) == centroids[c]
            &&& forall|i: int|
                0 <= i < count ==> record_at(
                    b,
                    spec_ivf_records_at(b) + RECORD_BYTES * i,
                    #[trigger] grouped[i],
                )
        }),
{
    lemma_standard_layout_read(count, centroids, offsets, grouped);
    let b = spec_standard_ivf_bytes(count, centroids, offsets, grouped);
    assert(spec_ivf_partitions(b) =~= Seq::<IvfPartitionMeta>::empty());
    lemma_ivf_accepted(b, offsets, grouped);
}

/// The words written after the eight magic bytes, read back.
proof fn lemma_words_after_magic(b: Seq<u8>, magic: Seq<u8>, words: Seq<u32>, tail: Seq<u8>)
    requires
        magic.len() == 8,
        b == magic + spec_words_bytes(words) + tail,
    ensures
        b.take(8) == magic,
        forall|l: int| 0 <= l < words.len() ==> #[trigger] spec_le_u32(b, 8 + 4 * l) == words[l],
{
    assert(b.take(8) =~= magic);
    assert forall|l: int| 0 <= l < words.len() implies #[trigger] spec_le_u32(b, 8 + 4 * l)
        == words[l] by {
        lemma_words_bytes_read(magic, words, tail, l);
    }
}

/// Partition entries written after `prefix`, read back.
proof fn lemma_partitions_after(
    b: Seq<u8>,
    prefix: Seq<u8>,
    partitions: Seq<IvfPartitionMeta>,
    tail: Seq<u8>,
)
    requires
        b == prefix + spec_partitions_bytes(partitions) + tail,
    ensures
        forall|p: int|
            0 <= p < partitions.len() ==> #[trigger] spec_partition_meta_at(b, prefix.len() + 16 * p)
                == partitions[p],
{
    assert forall|p: int| 0 <= p < partitions.len() implies #[trigger] spec_partition_meta_at(
        b,
        prefix.len() + 16 * p,
    ) == partitions[p] by {
        lemma_partitions_bytes_read(prefix, partitions, tail, p);
    }
}

/// The header words of a written version 2 IVF file, read back.
#[verifier::rlimit(40)]
proof fn lemma_partitioned_words_read(
    count: int,
    partition_bits: int,
    partitions: Seq<IvfPartitionMeta>,
    centroids: Seq<Seq<i16>>,
    offsets: Seq<u32>,
    grouped: Seq<PackedRecord>,
)
    requires
        0 <= centroids.len() <= u32::MAX,
        0 <= count <= u32::MAX,
        0 <= partition_bits <= u32::MAX,
        partitions.len() <= u32::MAX,
    ensures
        ({
            let b = spec_partitioned_ivf_bytes(count, partition_bits, partitions, centroids, offsets, grouped);
            &&& spec_ivf_v2(b)
            &&& b.len() >= V2_HEADER_BYTES
            &&& spec_le_u32(b, 8) == VERSION
            &&& spec_ivf_count(b) == count
            &&& spec_ivf_nlist(b) == centroids.len()
            &&& spec_ivf_partition_bits(b) == partition_bits
            &&& spec_ivf_partition_count(b) == partitions.len()
        }),
{
    let n = centroids.len() as int;
    let magic = ivf_magic_v2();
    let words = seq![VERSION, count as u32, n as u32, partition_bits as u32, partitions.len() as u32];
    lemma_header_words(words);
    let wb = spec_words_bytes(words);
    let pb = spec_partitions_bytes(partitions);
    let rest = spec_vectors_bytes(centroids) + spec_words_bytes(offsets) + spec_records_bytes(grouped);
    let b = spec_partitioned_ivf_bytes(count, partition_bits, partitions, centroids, offsets, grouped);
    assert(b =~= magic + wb + (pb + rest));
    lemma_words_after_magic(b, magic, words, pb + rest);
    assert(spec_le_u32(b, 8 + 4 * 0int) == words[0]);
    assert(spec_le_u32(b, 8 + 4 * 1int) == words[1]);
    assert(spec_le_u32(b, 8 + 4 * 2int) == words[2]);
    assert(spec_le_u32(b, 8 + 4 * 3int) == words[3]);
    assert(spec_le_u32(b, 8 + 4 * 4int) == words[4]);
}

/// The header and partition entries of a written version 2 IVF file, read back.
#[verifier::rlimit(40)]
proof fn lemma_partitioned_header_read(
    count: int,
    partition_bits: int,
    partitions: Seq<IvfPartitionMeta>,
    centroids: Seq<Seq<i16>>,
    offsets: Seq<u32>,
    grouped: Seq<PackedRecord>,
)
    requires
        0 <= centroids.len() <= u32::MAX,
        0 <= count <= u32::MAX,
        0 <= partition_bits <= u32::MAX,
        partitions.len() <= u32::MAX,
    ensures
        ({
            let b = spec_partitioned_ivf_bytes(count, partition_bits, partitions, centroids, offsets, grouped);
            &&& spec_ivf_v2(b)
            &&& b.len() >= V2_HEADER_BYTES
            &&& spec_le_u32(b, 8) == VERSION
            &&& spec_ivf_count(b) == count
            &&& spec_ivf_nlist(b) == centroids.len()
            &&& spec_ivf_partition_bits(b) == partition_bits
            &&& spec_ivf_partition_count(b) == partitions.len()
            &&& spec_ivf_partitions(b) == partitions
        }),
{
    lemma_partitioned_words_read(count, partition_bits, partitions, centroids, offsets, grouped);
    let n = centroids.len() as int;
    let magic = ivf_magic_v2();
    let words = seq![VERSION, count as u32, n as u32, partition_bits as u32, partitions.len() as u32];
    lemma_header_words(words);
    let wb = spec_words_bytes(words);
    let pb = spec_partitions_bytes(partitions);
    let rest = spec_vectors_bytes(centroids) + spec_words_bytes(offsets) + spec_records_bytes(grouped);
    let b = spec_partitioned_ivf_bytes(count, partition_bits, partitions, centroids, offsets, grouped);
    assert(b =~= (magic + wb) + pb + rest);
    lemma_partitions_after(b, magic + wb, partitions, rest);
    assert((magic + wb).len() == V2_HEADER_BYTES);
    assert forall|p: int| 0 <= p < partitions.len() implies #[trigger] spec_ivf_partitions(b)[p]
        == partitions[p] by {
        assert(spec_partition_meta_at(b, (magic + wb).len() + 16 * p) == partitions[p]);
    }
    assert(spec_ivf_partitions(b) =~= partitions);
}

/// The regions of a written version 2 IVF file, read back.
#[verifier::rlimit(40)]
proof fn lemma_partitioned_regions_read(
    count: int,
    partition_bits: int,
    partitions: Seq<IvfPartitionMeta>,
    centroids: Seq<Seq<i16>>,
    offsets: Seq<u32>,
    grouped: Seq<PackedRecord>,
)
    requires
        all_full_vectors(centroids),
        0 <= centroids.len() <= u32::MAX,
        count == grouped.len() <= u32::MAX,
        offsets.len() == centroids.len() + 1,
        0 <= partition_bits <= u32::MAX,
        partitions.len() <= u32::MAX,
    ensures
        ({
            let b = spec_partitioned_ivf_bytes(count, partition_bits, partitions, centroids, offsets, grouped);
            &&& b.len() == spec_ivf_end(b)
            &&& forall|c: int|
                0 <= c < centroids.len() ==> #[trigger] spec_vector_at(
                    b,
                    spec_ivf_centroids_at(b) + VECTOR_BYTES * c,
                ) == centroids[c]
            &&& forall|l: int|
                0 <= l < offsets.len() ==> #[trigger] spec_le_u32(b, spec_ivf_offsets_at(b) + 4 * l)
                    == offsets[l]
            &&& forall|i: int|
                0 <= i < count ==> record_at(
                    b,
                    spec_ivf_records_at(b) + RECORD_BYTES * i,
                    #[trigger] grouped[i],
                )
        }),
{
    lemma_partitioned_header_read(count, partition_bits, partitions, centroids, offsets, grouped);
    let n = centroids.len() as int;
    let words = seq![VERSION, count as u32, n as u32, partition_bits as u32, partitions.len() as u32];
    lemma_header_words(words);
    let pb = spec_partitions_bytes(partitions);
    lemma_partitions_bytes_split(partitions, 0);
    let header = ivf_magic_v2() + spec_words_bytes(words) + pb;
    let b = spec_partitioned_ivf_bytes(count, partition_bits, partitions, centroids, offsets, grouped);
    assert(b =~= header + spec_vectors_bytes(centroids) + spec_words_bytes(offsets)
        + spec_records_bytes(grouped));
    lemma_ivf_regions_read(header, centroids, offsets, grouped);
    assert(header.len() == V2_HEADER_BYTES + 16 * partitions.len());
    assert(spec_ivf_centroids_at(b) == header.len());
}

/// Reading back a written version 2 IVF file: as for version 1, with partition bits
/// between 1 and 31 and one partition entry per key; the partition entries read back as
/// written.
#[verifier::rlimit(50)]
pub proof fn lemma_partitioned_ivf_roundtrip(
    count: int,
    partition_bits: int,
    partitions: Seq<IvfPartitionMeta>,
    centroids: Seq<Seq<i16>>,
    offsets: Seq<u32>,
    grouped: Seq<PackedRecord>,
)
    requires
        all_full_vectors(centroids),
        centroids.len() <= u32::MAX,
        count == grouped.len() <= u32::MAX,
        offsets.len() == centroids.len() + 1,
        1 <= partition_bits < 32,
        partitions.len() == spec_pow2(partition_bits as nat),
    ensures
        ({
            let b = spec_partitioned_ivf_bytes(count, partition_bits, partitions, centroids, offsets, grouped);
            &&& spec_ivf_load_error(b) is None
            &&& spec_ivf_v2(b)
            &&& spec_ivf_nlist(b) == centroids.len()
            &&& spec_ivf_count(b) == count
            &&& spec_ivf_partition_bits(b) == partition_bits
            &&& spec_ivf_partitions(b) == partitions
            &&& spec_ivf_offsets(b) == offsets
            &&& forall|c: int|
                0 <= c < centroids.len() ==> #[trigger] spec_vector_at(
                    b,
                    spec_ivf_centroids_at(b) + VECTOR_BYTES * c,
                ) == centroids[c]
            &&& forall|i: int|
                0 <= i < count ==> record_at(
                    b,
                    spec_ivf_records_at(b) + RECORD_BYTES * i,
                    #[trigger] grouped[i],
                )
        }),
{
    crate::ivf::lemma_pow2_at_least(31, partition_bits as nat);
    assert(spec_pow2(31) == 0x8000_0000) by {
        reveal_with_fuel(spec_pow2, 32);
    }
    lemma_partitioned_header_read(count, partition_bits, partitions, centroids, offsets, grouped);
    lemma_partitioned_regions_read(count, partition_bits, partitions, centroids, offsets, grouped);
    let b = spec_partitioned_ivf_bytes(count, partition_bits, partitions, centroids, offsets, grouped);
    lemma_ivf_accepted(b, offsets, grouped);
}

// ---------------------------------------------------------------------------
// What a build writes is what a load accepts

proof fn lemma_train_full(sample: Seq<Seq<i16>>, nlist: int, iterations: nat)
    requires
        all_full_vectors(sample),
        sample.len() > 0,
        nlist >= 0,
    ensures
        all_full_vectors(spec_train(sample, spec_initial_centroids(sample, nlist), iterations)),
    decreases iterations,
{
    let len = sample.len() as int;
    if iterations == 0 {
        let init = spec_initial_centroids(sample, nlist);
        let stride = spec_stride(len, nlist);
        assert forall|i: int| 0 <= i < init.len() implies (#[trigger] init[i]).len() == DIMENSIONS by {
            let j = (i * stride) % len;
            assert(0 <= j < len) by (nonlinear_arith)
                requires
                    j == (i * stride) % len,
                    len > 0,
            ;
        }
    } else {
        lemma_train_full(sample, nlist, (iterations - 1) as nat);
        let before = spec_train(sample, spec_initial_centroids(sample, nlist), (iterations - 1) as nat);
        let after = spec_kmeans_step(sample, before);
        assert forall|c: int| 0 <= c < after.len() implies (#[trigger] after[c]).len() == DIMENSIONS by {
            let j = c % len;
            assert(0 <= j < len) by (nonlinear_arith)
                requires
                    j == c % len,
                    len > 0,
            ;
        }
    }
}

proof fn lemma_nearest_assignment_bound(records: Seq<PackedRecord>, centroids: Seq<Seq<i16>>)
    requires
        centroids.len() > 0,
        centroids.len() <= usize::MAX,
    ensures
        forall|i: int|
            0 <= i < records.len() ==> #[trigger] spec_nearest_assignment(records, centroids)[i]
                < centroids.len(),
{
    assert forall|i: int| 0 <= i < records.len() implies #[trigger] spec_nearest_assignment(
        records,
        centroids,
    )[i] < centroids.len() by {
        let v = records[i].vector@;
        crate::knn::lemma_top_k_exists(spec_centroid_distances(v, centroids), 1);
        lemma_nearest_bounds(v, centroids);
    }
}

/// The lists of records assigned below `nlist`, grouped: their offsets are valid, and
/// every record lies in one of them.
proof fn lemma_grouping_valid(records: Seq<PackedRecord>, assignment: Seq<usize>, nlist: int)
    requires
        0 <= nlist,
        records.len() <= u32::MAX,
        assignment.len() == records.len(),
        forall|i: int| 0 <= i < assignment.len() ==> #[trigger] assignment[i] < nlist,
    ensures
        offsets_are_valid(
            spec_group_offsets(records, assignment, nlist),
            nlist,
            records.len() as int,
        ),
        spec_grouped(records, assignment, nlist).len() == records.len(),
{
    lemma_group_offsets_monotone(records, assignment, nlist);
    lemma_grouped_len(records, assignment, nlist);
    lemma_members_total(records, assignment, nlist, records.len() as int);
    let offsets = spec_group_offsets(records, assignment, nlist);
    assert(offsets[nlist] == records.len());
    assert forall|l: int| 0 <= l <= nlist implies #[trigger] offsets[l] <= records.len() by {
        assert(offsets[l] <= offsets[nlist]);
    }
    assert forall|l: int| 0 <= l < nlist implies #[trigger] offsets[l] <= offsets[l + 1] by {
        assert(offsets[l] <= offsets[l + 1]);
    }
}

/// An index built without partitions is accepted when read back, with the lists asked
/// for and every record, and its lists delimit the records in order.
pub proof fn lemma_standard_build_loads(records: Seq<PackedRecord>, config: IvfBuildConfig)
    requires
        buildable_records(records),
        0 < config.nlist <= u32::MAX,
    ensures
        ({
            let b = spec_standard_ivf(records, config);
            &&& spec_ivf_load_error(b) is None
            &&& spec_ivf_nlist(b) == config.nlist
            &&& spec_ivf_count(b) == records.len()
            &&& offsets_are_valid(spec_ivf_offsets(b), spec_ivf_nlist(b), spec_ivf_count(b))
        }),
{
    let sample = spec_sample(records, spec_standard_sample_size(config, records.len() as int));
    let nlist = config.nlist as int;
    assert(all_full_vectors(sample));
    lemma_train_len(sample, nlist, config.iterations as nat);
    lemma_train_full(sample, nlist, config.iterations as nat);
    let centroids = spec_standard_centroids(records, config);
    let assignment = spec_nearest_assignment(records, centroids);
    lemma_nearest_assignment_bound(records, centroids);
    lemma_grouping_valid(records, assignment, nlist);
    lemma_standard_ivf_roundtrip(
        records.len() as int,
        centroids,
        spec_group_offsets(records, assignment, nlist),
        spec_grouped(records, assignment, nlist),
    );
}

proof fn lemma_partition_centroids_full(
    records: Seq<PackedRecord>,
    config: IvfBuildConfig,
    nlists: Seq<usize>,
    samples: Seq<usize>,
    p: int,
)
    ensures
        all_full_vectors(spec_partition_centroids(records, config, nlists, samples, p)),
        spec_partition_members(records, config.partition_bits as int, p, records.len() as int).len()
            > 0 ==> spec_partition_centroids(records, config, nlists, samples, p).len() == nlists[p],
{
    let indices = spec_partition_members(records, config.partition_bits as int, p, records.len() as int);
    if indices.len() > 0 {
        let wanted = if samples[p] < nlists[p] {
            nlists[p] as int
        } else {
            samples[p] as int
        };
        let size = spec_partition_sample_size(wanted, indices.len() as int);
        let sample = Seq::new(
            size as nat,
            |m: int| records[indices[spec_sample_index(indices.len() as int, size, m)] as int].vector@,
        );
        assert(all_full_vectors(sample));
        lemma_train_full(sample, nlists[p] as int, config.iterations as nat);
        lemma_train_len(sample, nlists[p] as int, config.iterations as nat);
    }
}

proof fn lemma_all_centroids_full(
    records: Seq<PackedRecord>,
    config: IvfBuildConfig,
    nlists: Seq<usize>,
    samples: Seq<usize>,
    m: int,
)
    ensures
        all_full_vectors(spec_all_centroids(records, config, nlists, samples, m)),
    decreases m,
{
    if m > 0 {
        lemma_all_centroids_full(records, config, nlists, samples, m - 1);
        lemma_partition_centroids_full(records, config, nlists, samples, m - 1);
        let front = spec_all_centroids(records, config, nlists, samples, m - 1);
        let back = spec_partition_centroids(records, config, nlists, samples, m - 1);
        assert forall|i: int| 0 <= i < (front + back).len() implies (#[trigger] (front + back)[i]).len()
            == DIMENSIONS by {
            if i >= front.len() {
                assert((front + back)[i] == back[i - front.len()]);
            }
        }
    }
}

/// An index built with partitions, when the build succeeds, is accepted when read back,
/// with the lists and partition bits asked for and every record; its lists delimit the
/// records in order and every partition's centroids lie among the lists.
#[verifier::rlimit(40)]
pub proof fn lemma_partitioned_build_loads(records: Seq<PackedRecord>, config: IvfBuildConfig)
    requires
        buildable_records(records),
        1 <= config.partition_bits <= 4,
        0 < config.nlist <= u32::MAX,
        spec_partitioned_ivf(records, config) is Ok,
    ensures
        ({
            let b = spec_partitioned_ivf(records, config)->Ok_0;
            &&& spec_ivf_load_error(b) is None
            &&& spec_ivf_nlist(b) == config.nlist
            &&& spec_ivf_count(b) == records.len()
            &&& spec_ivf_partition_bits(b) == config.partition_bits
            &&& offsets_are_valid(spec_ivf_offsets(b), spec_ivf_nlist(b), spec_ivf_count(b))
            &&& crate::ivf::partitions_fit(spec_ivf_partitions(b), spec_ivf_nlist(b))
        }),
{
    let bits = config.partition_bits as int;
    reveal_with_fuel(spec_pow2, 5);
    let partitions = spec_pow2(bits as nat) as int;
    assert(2 <= partitions <= 16);
    let n = records.len() as int;
    let nlist = config.nlist as int;
    let sizes = spec_partition_sizes(records, bits);
    lemma_allocation_preserves_total(sizes, nlist);
    let nlists = spec_allocate_partition_nlists(sizes, nlist)->Ok_0;
    let samples = spec_partition_samples(sizes, config.sample_size as int);
    let centroids = spec_all_centroids(records, config, nlists, samples, partitions);
    assert(centroids.len() == nlist);
    lemma_all_centroids_full(records, config, nlists, samples, partitions);
    let assignment = spec_partitioned_assignment(records, config, nlists, samples);
    assert forall|i: int| 0 <= i < assignment.len() implies #[trigger] assignment[i] < nlist by {
        let v = records[i].vector@;
        let p = spec_partition_key(v, bits);
        lemma_partition_key_bound(v, bits);
        lemma_partition_members_facts(records, bits, p, n);
        let members = spec_partition_members(records, bits, p, n);
        assert(members.contains(i as usize));
        assert(sizes[p] == members.len() as usize);
        assert(sizes[p] > 0);
        lemma_partition_centroids_full(records, config, nlists, samples, p);
        let own = spec_partition_centroids(records, config, nlists, samples, p);
        assert(own.len() >= 1);
        crate::knn::lemma_top_k_exists(spec_centroid_distances(v, own), 1);
        lemma_nearest_bounds(v, own);
        lemma_all_centroids_len(records, config, nlists, samples, p, partitions - 1);
    }
    lemma_grouping_valid(records, assignment, nlist);
    let offsets = spec_group_offsets(records, assignment, nlist);
    let metas = Seq::new(
        partitions as nat,
        |p: int| spec_partition_meta(records, config, nlists, samples, offsets, p),
    );
    assert forall|p: int| 0 <= p < metas.len() implies (#[trigger] metas[p]).centroid_start
        + metas[p].centroid_count <= nlist by {
        lemma_all_centroids_len(records, config, nlists, samples, p, partitions - 1);
    }
    lemma_partitioned_ivf_roundtrip(
        n,
        bits,
        metas,
        centroids,
        offsets,
        spec_grouped(records, assignment, nlist),
    );
}

/// What building an IVF index from a flat index file writes is accepted when read back,
/// with the lists asked for and every record of the flat index; its lists delimit the
/// records in order and every partition's centroids lie among the lists.
#[verifier::rlimit(30)]
pub proof fn lemma_built_index_loads(flat_index: Seq<u8>, config: IvfBuildConfig)
    requires
        flat_index.len() <= usize::MAX,
        config.nlist <= u32::MAX,
        spec_build_ivf_from_flat(flat_index, config) is Ok,
    ensures
        ({
            let b = spec_build_ivf_from_flat(flat_index, config)->Ok_0;
            &&& spec_ivf_load_error(b) is None
            &&& spec_ivf_nlist(b) == config.nlist
            &&& spec_ivf_count(b) == spec_le_u32(flat_index, 12)
            &&& spec_ivf_partition_bits(b) == config.partition_bits
            &&& offsets_are_valid(spec_ivf_offsets(b), spec_ivf_nlist(b), spec_ivf_count(b))
            &&& crate::ivf::partitions_fit(spec_ivf_partitions(b), spec_ivf_nlist(b))
        }),
{
    lemma_flat_file_records(flat_index);
    let records = spec_flat_file_records(flat_index);
    if config.partition_bits == 0 {
        lemma_standard_build_loads(records, config);
        let b = spec_build_ivf_from_flat(flat_index, config)->Ok_0;
        assert(spec_ivf_partitions(b) =~= Seq::<IvfPartitionMeta>::empty());
    } else {
        lemma_partitioned_build_loads(records, config);
    }
}

// ---------------------------------------------------------------------------
// What a partitioned build puts in each partition

/// How many of the first `n` records are assigned a list in `lo..hi`.
pub open spec fn spec_assigned_between(assignment: Seq<usize>, lo: int, hi: int, n: int) -> int
    decreases n,
{
    if n <= 0 {
        0
    } else {
        spec_assigned_between(assignment, lo, hi, n - 1) + if lo <= assignment[n - 1] < hi {
            1int
        } else {
            0int
        }
    }
}

proof fn lemma_members_total_between(
    records: Seq<PackedRecord>,
    assignment: Seq<usize>,
    lo: int,
    hi: int,
    n: int,
)
    requires
        0 <= lo <= hi,
        0 <= n,
    ensures
        spec_members_total(records, assignment, hi, n) - spec_members_total(
            records,
            assignment,
            lo,
            n,
        ) == spec_assigned_between(assignment, lo, hi, n),
    decreases n,
{
    if n > 0 {
        lemma_members_total_between(records, assignment, lo, hi, n - 1);
        lemma_members_total_step(records, assignment, hi, n);
        lemma_members_total_step(records, assignment, lo, n);
    } else {
        lemma_members_total_zero(records, assignment, hi);
        lemma_members_total_zero(records, assignment, lo);
    }
}

proof fn lemma_assigned_between_is_partition(
    records: Seq<PackedRecord>,
    assignment: Seq<usize>,
    bits: int,
    p: int,
    lo: int,
    hi: int,
    n: int,
)
    requires
        0 <= n <= records.len(),
        forall|i: int|
            0 <= i < n ==> (lo <= #[trigger] assignment[i] < hi <==> spec_partition_key(
                records[i].vector@,
                bits,
            ) == p),
    ensures
        spec_assigned_between(assignment, lo, hi, n) == spec_partition_members(
            records,
            bits,
            p,
            n,
        ).len(),
    decreases n,
{
    if n > 0 {
        lemma_assigned_between_is_partition(records, assignment, bits, p, lo, hi, n - 1);
        assert(lo <= assignment[n - 1] < hi <==> spec_partition_key(records[n - 1].vector@, bits)
            == p);
    }
}

proof fn lemma_member_origin(
    records: Seq<PackedRecord>,
    assignment: Seq<usize>,
    l: int,
    n: int,
    t: int,
)
    requires
        0 <= n <= records.len(),
        0 <= t < spec_list_members(records, assignment, l, n).len(),
    ensures
        exists|i: int|
            0 <= i < n && assignment[i] == l && #[trigger] records[i] == spec_list_members(
                records,
                assignment,
                l,
                n,
            )[t],
    decreases n,
{
    let before = spec_list_members(records, assignment, l, n - 1);
    if t < before.len() {
        lemma_member_origin(records, assignment, l, n - 1, t);
        let i = choose|i: int|
            0 <= i < n - 1 && assignment[i] == l && #[trigger] records[i] == before[t];
        assert(records[i] == spec_list_members(records, assignment, l, n)[t]);
    } else {
        assert(records[n - 1] == spec_list_members(records, assignment, l, n)[t]);
    }
}

/// The records the grouping puts between the ends of lists `a` and `b` come from records
/// assigned a list in `a..b`.
proof fn lemma_grouped_origin(
    records: Seq<PackedRecord>,
    assignment: Seq<usize>,
    a: int,
    b: int,
    m: int,
    t: int,
)
    requires
        0 <= a <= b <= m,
        spec_grouped(records, assignment, a).len() <= t < spec_grouped(records, assignment, b).len(),
    ensures
        exists|i: int|
            0 <= i < records.len() && a <= assignment[i] < b && #[trigger] records[i]
                == spec_grouped(records, assignment, m)[t],
    decreases m,
{
    lemma_grouped_monotone(records, assignment, b, m);
    lemma_grouped_monotone(records, assignment, a, b);
    let front = spec_grouped(records, assignment, m - 1);
    let members = spec_list_members(records, assignment, m - 1, records.len() as int);
    if b < m {
        lemma_grouped_monotone(records, assignment, b, m - 1);
        lemma_grouped_origin(records, assignment, a, b, m - 1, t);
        assert(spec_grouped(records, assignment, m)[t] == front[t]);
    } else if t < front.len() {
        assert(a <= m - 1);
        lemma_grouped_origin(records, assignment, a, m - 1, m - 1, t);
        assert(spec_grouped(records, assignment, m)[t] == front[t]);
    } else {
        assert(a <= m - 1);
        lemma_member_origin(records, assignment, m - 1, records.len() as int, t - front.len());
        assert(spec_grouped(records, assignment, m)[t] == members[t - front.len()]);
    }
}

/// Lists handed to partitions so that every non-empty one has one at least.
spec fn lists_cover_partitions(records: Seq<PackedRecord>, bits: int, nlists: Seq<usize>) -> bool {
    &&& nlists.len() == spec_pow2(bits as nat)
    &&& forall|p: int|
        0 <= p < nlists.len() && spec_partition_members(records, bits, p, records.len() as int).len()
            > 0 ==> #[trigger] nlists[p] >= 1
}

/// The list a record is assigned lies among its own partition's lists.
proof fn lemma_partitioned_assignment_range(
    records: Seq<PackedRecord>,
    config: IvfBuildConfig,
    nlists: Seq<usize>,
    samples: Seq<usize>,
    i: int,
)
    requires
        buildable_records(records),
        1 <= config.partition_bits <= 4,
        lists_cover_partitions(records, config.partition_bits as int, nlists),
        spec_all_centroids(records, config, nlists, samples, nlists.len() as int).len()
            <= usize::MAX,
        0 <= i < records.len(),
    ensures
        ({
            let key = spec_partition_key(records[i].vector@, config.partition_bits as int);
            let start = spec_all_centroids(records, config, nlists, samples, key).len();
            let count = spec_partition_centroids(records, config, nlists, samples, key).len();
            &&& 0 <= key < nlists.len()
            &&& count >= 1
            &&& start <= spec_partitioned_assignment(records, config, nlists, samples)[i] < start
                + count
        }),
{
    let bits = config.partition_bits as int;
    let n = records.len() as int;
    let v = records[i].vector@;
    let p = spec_partition_key(v, bits);
    lemma_partition_key_bound(v, bits);
    lemma_partition_members_facts(records, bits, p, n);
    let members = spec_partition_members(records, bits, p, n);
    assert(members.contains(i as usize));
    assert(nlists[p] >= 1);
    lemma_partition_centroids_full(records, config, nlists, samples, p);
    let own = spec_partition_centroids(records, config, nlists, samples, p);
    crate::knn::lemma_top_k_exists(spec_centroid_distances(v, own), 1);
    lemma_nearest_bounds(v, own);
    let start = spec_all_centroids(records, config, nlists, samples, p).len();
    lemma_all_centroids_len(records, config, nlists, samples, p, nlists.len() - 1);
}

/// Partitions' lists follow one another: those of a lower partition end before those of
/// a higher one start.
proof fn lemma_partition_lists_ordered(
    records: Seq<PackedRecord>,
    config: IvfBuildConfig,
    nlists: Seq<usize>,
    samples: Seq<usize>,
    p: int,
    q: int,
)
    requires
        0 <= p < q,
    ensures
        spec_all_centroids(records, config, nlists, samples, p).len() + spec_partition_centroids(
            records,
            config,
            nlists,
            samples,
            p,
        ).len() <= spec_all_centroids(records, config, nlists, samples, q).len(),
{
    lemma_all_centroids_len(records, config, nlists, samples, p + 1, q);
}

/// The record stored at place `j` of file `b` is one of `records`, of partition `p`, and
/// assigned list `l`.
pub open spec fn stores_partition_record(
    b: Seq<u8>,
    records: Seq<PackedRecord>,
    assignment: Seq<usize>,
    bits: int,
    p: int,
    l: int,
    j: int,
) -> bool {
    exists|i: int|
        0 <= i < records.len() && spec_partition_key(records[i].vector@, bits) == p
            && assignment[i] == l && record_at(
            b,
            spec_ivf_records_at(b) + RECORD_BYTES * j,
            #[trigger] records[i],
        )
}

/// The lists assigned by a partitioned build: each record's partition's first list
/// plus the list of its nearest centroid within the partition.
pub open spec fn spec_built_assignment(records: Seq<PackedRecord>, config: IvfBuildConfig) -> Seq<
    usize,
> {
    let sizes = spec_partition_sizes(records, config.partition_bits as int);
    spec_partitioned_assignment(
        records,
        config,
        spec_allocate_partition_nlists(sizes, config.nlist as int)->Ok_0,
        spec_partition_samples(sizes, config.sample_size as int),
    )
}

/// Which records a partition's lists take: exactly those of the partition.
proof fn lemma_assignment_in_partition(
    records: Seq<PackedRecord>,
    config: IvfBuildConfig,
    nlists: Seq<usize>,
    samples: Seq<usize>,
    p: int,
    i: int,
)
    requires
        buildable_records(records),
        1 <= config.partition_bits <= 4,
        lists_cover_partitions(records, config.partition_bits as int, nlists),
        spec_all_centroids(records, config, nlists, samples, nlists.len() as int).len()
            <= usize::MAX,
        0 <= p,
        0 <= i < records.len(),
    ensures
        ({
            let start = spec_all_centroids(records, config, nlists, samples, p).len();
            let count = spec_partition_centroids(records, config, nlists, samples, p).len();
            let a = spec_partitioned_assignment(records, config, nlists, samples)[i];
            (start <= a < start + count) == (spec_partition_key(
                records[i].vector@,
                config.partition_bits as int,
            ) == p)
        }),
{
    lemma_partitioned_assignment_range(records, config, nlists, samples, i);
    let q = spec_partition_key(records[i].vector@, config.partition_bits as int);
    if q < p {
        lemma_partition_lists_ordered(records, config, nlists, samples, q, p);
    } else if q > p {
        lemma_partition_lists_ordered(records, config, nlists, samples, p, q);
    }
}

/// Every record is assigned one of the lists.
proof fn lemma_assignment_below_lists(
    records: Seq<PackedRecord>,
    config: IvfBuildConfig,
    nlists: Seq<usize>,
    samples: Seq<usize>,
)
    requires
        buildable_records(records),
        1 <= config.partition_bits <= 4,
        lists_cover_partitions(records, config.partition_bits as int, nlists),
        spec_all_centroids(records, config, nlists, samples, nlists.len() as int).len()
            <= usize::MAX,
    ensures
        forall|i: int|
            0 <= i < records.len() ==> #[trigger] spec_partitioned_assignment(
                records,
                config,
                nlists,
                samples,
            )[i] < spec_all_centroids(records, config, nlists, samples, nlists.len() as int).len(),
{
    assert forall|i: int| 0 <= i < records.len() implies #[trigger] spec_partitioned_assignment(
        records,
        config,
        nlists,
        samples,
    )[i] < spec_all_centroids(records, config, nlists, samples, nlists.len() as int).len() by {
        lemma_partitioned_assignment_range(records, config, nlists, samples, i);
        let key = spec_partition_key(records[i].vector@, config.partition_bits as int);
        lemma_all_centroids_len(records, config, nlists, samples, key, nlists.len() - 1);
    }
}

/// A partition's lists hold as many records as the partition, and it has the lists it
/// was handed when it holds records, none otherwise.
#[verifier::rlimit(40)]
proof fn lemma_partition_record_count(
    records: Seq<PackedRecord>,
    config: IvfBuildConfig,
    nlists: Seq<usize>,
    samples: Seq<usize>,
    p: int,
)
    requires
        buildable_records(records),
        1 <= config.partition_bits <= 4,
        lists_cover_partitions(records, config.partition_bits as int, nlists),
        spec_all_centroids(records, config, nlists, samples, nlists.len() as int).len()
            <= u32::MAX,
        0 <= p < nlists.len(),
    ensures
        ({
            let bits = config.partition_bits as int;
            let nlist = spec_all_centroids(records, config, nlists, samples, nlists.len() as int).len() as int;
            let assignment = spec_partitioned_assignment(records, config, nlists, samples);
            let offsets = spec_group_offsets(records, assignment, nlist);
            let start = spec_all_centroids(records, config, nlists, samples, p).len() as int;
            let count = spec_partition_centroids(records, config, nlists, samples, p).len() as int;
            let size = spec_partition_members(records, bits, p, records.len() as int).len();
            &&& start + count <= nlist
            &&& count == if size > 0 {
                nlists[p] as int
            } else {
                0
            }
            &&& count > 0 ==> offsets[start + count] - offsets[start] == size
        }),
{
    let bits = config.partition_bits as int;
    let n = records.len() as int;
    let nlist = spec_all_centroids(records, config, nlists, samples, nlists.len() as int).len() as int;
    let assignment = spec_partitioned_assignment(records, config, nlists, samples);
    let start = spec_all_centroids(records, config, nlists, samples, p).len() as int;
    let count = spec_partition_centroids(records, config, nlists, samples, p).len() as int;
    lemma_all_centroids_len(records, config, nlists, samples, p, nlists.len() - 1);
    lemma_partition_centroids_full(records, config, nlists, samples, p);
    if count > 0 {
        lemma_assignment_below_lists(records, config, nlists, samples);
        lemma_grouped_monotone(records, assignment, start, start + count);
        lemma_grouped_monotone(records, assignment, start + count, nlist);
        lemma_grouped_len(records, assignment, start);
        lemma_grouped_len(records, assignment, start + count);
        lemma_grouped_len(records, assignment, nlist);
        lemma_members_total(records, assignment, nlist, n);
        lemma_members_total_between(records, assignment, start, start + count, n);
        assert forall|i: int| 0 <= i < n implies (start <= #[trigger] assignment[i] < start
            + count <==> spec_partition_key(records[i].vector@, bits) == p) by {
            lemma_assignment_in_partition(records, config, nlists, samples, p, i);
        }
        lemma_assigned_between_is_partition(records, assignment, bits, p, start, start + count, n);
    }
}

/// Each record a partition's list holds in the grouping is one of the partition's
/// records, assigned that list.
proof fn lemma_partition_list_member(
    records: Seq<PackedRecord>,
    config: IvfBuildConfig,
    nlists: Seq<usize>,
    samples: Seq<usize>,
    p: int,
    l: int,
    j: int,
)
    requires
        buildable_records(records),
        1 <= config.partition_bits <= 4,
        lists_cover_partitions(records, config.partition_bits as int, nlists),
        spec_all_centroids(records, config, nlists, samples, nlists.len() as int).len()
            <= u32::MAX,
        0 <= p < nlists.len(),
        ({
            let nlist = spec_all_centroids(records, config, nlists, samples, nlists.len() as int).len() as int;
            let assignment = spec_partitioned_assignment(records, config, nlists, samples);
            let start = spec_all_centroids(records, config, nlists, samples, p).len() as int;
            let count = spec_partition_centroids(records, config, nlists, samples, p).len() as int;
            &&& start <= l < start + count
            &&& spec_grouped(records, assignment, l).len() <= j < spec_grouped(
                records,
                assignment,
                l + 1,
            ).len()
        }),
    ensures
        ({
            let nlist = spec_all_centroids(records, config, nlists, samples, nlists.len() as int).len() as int;
            let assignment = spec_partitioned_assignment(records, config, nlists, samples);
            exists|i: int|
                0 <= i < records.len() && spec_partition_key(
                    records[i].vector@,
                    config.partition_bits as int,
                ) == p && assignment[i] == l && #[trigger] records[i] == spec_grouped(
                    records,
                    assignment,
                    nlist,
                )[j]
        }),
{
    let nlist = spec_all_centroids(records, config, nlists, samples, nlists.len() as int).len() as int;
    let assignment = spec_partitioned_assignment(records, config, nlists, samples);
    lemma_all_centroids_len(records, config, nlists, samples, p, nlists.len() - 1);
    lemma_grouped_origin(records, assignment, l, l + 1, nlist, j);
    let i = choose|i: int|
        0 <= i < records.len() && l <= assignment[i] < l + 1 && #[trigger] records[i]
            == spec_grouped(records, assignment, nlist)[j];
    lemma_assignment_in_partition(records, config, nlists, samples, p, i);
}

/// What a partitioned build puts in each partition: as many lists as sharing the lists
/// by partition size hands it (none for an empty partition), as many records as the
/// partition holds (none for an empty one), and in each of its lists only records of the
/// partition that are assigned that list, the one of their nearest centroid.
#[verifier::rlimit(40)]
pub proof fn lemma_partitioned_build_partitions(records: Seq<PackedRecord>, config: IvfBuildConfig)
    requires
        buildable_records(records),
        1 <= config.partition_bits <= 4,
        0 < config.nlist <= u32::MAX,
        spec_partitioned_ivf(records, config) is Ok,
    ensures
        ({
            let b = spec_partitioned_ivf(records, config)->Ok_0;
            let bits = config.partition_bits as int;
            let sizes = spec_partition_sizes(records, bits);
            let allocation = spec_allocate_partition_nlists(sizes, config.nlist as int)->Ok_0;
            let parts = spec_ivf_partitions(b);
            let offsets = spec_ivf_offsets(b);
            let assignment = spec_built_assignment(records, config);
            &&& parts.len() == sizes.len()
            &&& forall|p: int|
                0 <= p < parts.len() ==> (#[trigger] parts[p]).centroid_count == allocation[p]
                    && parts[p].record_count == sizes[p]
            &&& forall|p: int|
                0 <= p < parts.len() && sizes[p] == 0 ==> (#[trigger] parts[p]).centroid_count
                    == 0 && parts[p].record_count == 0
            &&& forall|p: int, l: int, j: int|
                0 <= p < parts.len() && parts[p].centroid_start <= l < parts[p].centroid_start
                    + parts[p].centroid_count && offsets[l] <= j < offsets[l + 1]
                    ==> #[trigger] stores_partition_record(b, records, assignment, bits, p, l, j)
        }),
{
    let bits = config.partition_bits as int;
    reveal_with_fuel(spec_pow2, 5);
    let partitions = spec_pow2(bits as nat) as int;
    let n = records.len() as int;
    let nlist = config.nlist as int;
    let sizes = spec_partition_sizes(records, bits);
    lemma_allocation_preserves_total(sizes, nlist);
    let nlists = spec_allocate_partition_nlists(sizes, nlist)->Ok_0;
    let samples = spec_partition_samples(sizes, config.sample_size as int);
    let centroids = spec_all_centroids(records, config, nlists, samples, partitions);
    assert(centroids.len() == nlist);
    assert(lists_cover_partitions(records, bits, nlists)) by {
        assert forall|p: int|
            0 <= p < nlists.len() && spec_partition_members(records, bits, p, n).len() > 0
            implies #[trigger] nlists[p] >= 1 by {
            assert(sizes[p] == spec_partition_members(records, bits, p, n).len() as usize);
            lemma_partition_members_facts(records, bits, p, n);
        }
    }
    lemma_all_centroids_full(records, config, nlists, samples, partitions);
    let assignment = spec_partitioned_assignment(records, config, nlists, samples);
    lemma_assignment_below_lists(records, config, nlists, samples);
    lemma_grouping_valid(records, assignment, nlist);
    let offsets = spec_group_offsets(records, assignment, nlist);
    let grouped = spec_grouped(records, assignment, nlist);
    let metas = Seq::new(
        partitions as nat,
        |p: int| spec_partition_meta(records, config, nlists, samples, offsets, p),
    );
    lemma_partitioned_ivf_roundtrip(n, bits, metas, centroids, offsets, grouped);
    let b = spec_partitioned_ivf(records, config)->Ok_0;
    assert forall|p: int| 0 <= p < partitions implies (#[trigger] metas[p]).centroid_count
        == nlists[p] && metas[p].record_count == sizes[p] by {
        lemma_partition_record_count(records, config, nlists, samples, p);
        lemma_partition_members_facts(records, bits, p, n);
    }
    assert forall|p: int, l: int, j: int|
        0 <= p < partitions && metas[p].centroid_start <= l < metas[p].centroid_start
            + metas[p].centroid_count && offsets[l] <= j < offsets[l + 1] implies #[trigger] stores_partition_record(
        b,
        records,
        assignment,
        bits,
        p,
        l,
        j,
    ) by {
        lemma_partition_record_count(records, config, nlists, samples, p);
        lemma_grouped_monotone(records, assignment, l + 1, nlist);
        lemma_partition_list_member(records, config, nlists, samples, p, l, j);
        let i = choose|i: int|
            0 <= i < records.len() && spec_partition_key(records[i].vector@, bits) == p
                && assignment[i] == l && #[trigger] records[i] == grouped[j];
        assert(record_at(b, spec_ivf_records_at(b) + RECORD_BYTES * j, grouped[j]));
    }
}

/// The records of an accepted flat index file are there to be read, as many as its
/// header says.
proof fn lemma_flat_file_records(flat_index: Seq<u8>)
    requires
        crate::index::spec_flat_load_error(flat_index) is None,
    ensures
        crate::index::flat_records(flat_index, spec_flat_file_records(flat_index)),
        flat_index.len() == 16 + 30 * spec_flat_file_records(flat_index).len(),
{
    let n = spec_le_u32(flat_index, 12);
    let read = Seq::new(
        n as nat,
        |i: int| crate::layout::spec_record_at(flat_index, 16 + RECORD_BYTES * i),
    );
    assert forall|i: int| 0 <= i < n implies record_at(
        flat_index,
        16 + RECORD_BYTES * i,
        #[trigger] read[i],
    ) by {
        crate::layout::lemma_spec_record_at(flat_index, 16 + RECORD_BYTES * i);
    }
    assert(crate::index::flat_records(flat_index, read));
    assert(flat_index.len() == 16 + 30 * n) by (nonlinear_arith)
        requires
            (flat_index.len() - 16) % 30 == 0,
            (flat_index.len() - 16) / 30 == n,
            flat_index.len() >= 16,
    ;
}

/// What building a partitioned IVF index from a flat index file puts in each partition,
/// of the flat index's records: as `lemma_partitioned_build_partitions` says.
pub proof fn lemma_built_partitions(flat_index: Seq<u8>, config: IvfBuildConfig)
    requires
        flat_index.len() <= usize::MAX,
        config.nlist <= u32::MAX,
        config.partition_bits > 0,
        spec_build_ivf_from_flat(flat_index, config) is Ok,
    ensures
        ({
            let records = spec_flat_file_records(flat_index);
            let b = spec_build_ivf_from_flat(flat_index, config)->Ok_0;
            let bits = config.partition_bits as int;
            let sizes = spec_partition_sizes(records, bits);
            let allocation = spec_allocate_partition_nlists(sizes, config.nlist as int)->Ok_0;
            let parts = spec_ivf_partitions(b);
            let offsets = spec_ivf_offsets(b);
            let assignment = spec_built_assignment(records, config);
            &&& crate::index::flat_records(flat_index, records)
            &&& parts.len() == sizes.len()
            &&& forall|p: int|
                0 <= p < parts.len() ==> (#[trigger] parts[p]).centroid_count == allocation[p]
                    && parts[p].record_count == sizes[p]
            &&& forall|p: int|
                0 <= p < parts.len() && sizes[p] == 0 ==> (#[trigger] parts[p]).centroid_count
                    == 0 && parts[p].record_count == 0
            &&& forall|p: int, l: int, j: int|
                0 <= p < parts.len() && parts[p].centroid_start <= l < parts[p].centroid_start
                    + parts[p].centroid_count && offsets[l] <= j < offsets[l + 1]
                    ==> #[trigger] stores_partition_record(b, records, assignment, bits, p, l, j)
        }),
{
    lemma_flat_file_records(flat_index);
    lemma_partitioned_build_partitions(spec_flat_file_records(flat_index), config);
}

/// An IVF index built without partitions from a flat index file, read back, and probed
/// with every list, gives the answer of the exhaustive search over the flat index's
/// records, wherever the fifth nearest of them stands strictly nearer than the others.
#[verifier::rlimit(40)]
pub proof fn lemma_built_index_is_exact(
    flat_index: Seq<u8>,
    config: IvfBuildConfig,
    index: crate::ivf::IvfIndex,
    query: Seq<i16>,
    nprobe: int,
)
    requires
        flat_index.len() <= usize::MAX,
        config.nlist <= u32::MAX,
        config.partition_bits == 0,
        spec_build_ivf_from_flat(flat_index, config) is Ok,
        crate::ivf::ivf_read_from(spec_build_ivf_from_flat(flat_index, config)->Ok_0, index),
        query.len() == DIMENSIONS,
        nprobe >= config.nlist,
        crate::exact::fifth_stands_apart(query, spec_flat_file_records(flat_index)),
    ensures
        crate::index::flat_records(flat_index, spec_flat_file_records(flat_index)),
        index.spec_fraud_count_top5(query, nprobe) == crate::index::spec_fraud_count(
            query,
            spec_flat_file_records(flat_index),
        ),
{
    lemma_flat_file_records(flat_index);
    let records = spec_flat_file_records(flat_index);
    let n = records.len() as int;
    let nlist = config.nlist as int;
    assert(buildable_records(records));
    let sample = spec_sample(records, spec_standard_sample_size(config, n));
    assert(all_full_vectors(sample));
    lemma_train_len(sample, nlist, config.iterations as nat);
    lemma_train_full(sample, nlist, config.iterations as nat);
    let centroids = spec_standard_centroids(records, config);
    let assignment = spec_nearest_assignment(records, centroids);
    lemma_nearest_assignment_bound(records, centroids);
    lemma_grouping_valid(records, assignment, nlist);
    let offsets = spec_group_offsets(records, assignment, nlist);
    let grouped = spec_grouped(records, assignment, nlist);
    lemma_standard_ivf_roundtrip(n, centroids, offsets, grouped);
    let b = spec_build_ivf_from_flat(flat_index, config)->Ok_0;
    assert(b == spec_standard_ivf(records, config));
    assert(index.spec_records() =~= grouped) by {
        assert forall|i: int| 0 <= i < n implies index.spec_records()[i] == grouped[i] by {
            assert(record_at(b, spec_ivf_records_at(b) + RECORD_BYTES * i, grouped[i]));
            assert(record_at(b, spec_ivf_records_at(b) + RECORD_BYTES * i, index.spec_records()[i]));
            assert(index.spec_records()[i].vector =~= grouped[i].vector);
        }
    }
    assert(spec_grouped(records, assignment, 0) =~= Seq::<PackedRecord>::empty());
    assert(crate::exact::lists_partition_records(index));
    let cands = crate::ivf::spec_list_candidates(
        index.spec_records(),
        index.spec_offsets(),
        index.spec_probed_lists(query, nprobe),
    );
    assert forall|counting: bool, t: int| #[trigger] crate::exact::weight_within(
        query,
        cands,
        counting,
        t,
    ) == crate::exact::weight_within(query, records, counting, t) by {
        crate::exact::lemma_every_list_weight(index, query, nprobe, counting, t);
        crate::exact::lemma_grouping_keeps_weights(query, records, assignment, nlist, counting, t);
    }
    crate::exact::lemma_same_weights_same_count(query, cands, records);
}

/// The centroids of the first `m` partitions number as many as the lists shared out to
/// them, where every empty partition was given none.
proof fn lemma_all_centroids_count(
    records: Seq<PackedRecord>,
    config: IvfBuildConfig,
    nlists: Seq<usize>,
    samples: Seq<usize>,
    m: int,
)
    requires
        0 <= m <= nlists.len(),
        records.len() <= usize::MAX,
        forall|p: int|
            0 <= p < m && spec_partition_members(
                records,
                config.partition_bits as int,
                p,
                records.len() as int,
            ).len() == 0 ==> #[trigger] nlists[p] == 0,
    ensures
        spec_all_centroids(records, config, nlists, samples, m).len() == spec_allocation_sum(
            nlists,
            m,
        ),
    decreases m,
{
    if m > 0 {
        lemma_all_centroids_count(records, config, nlists, samples, m - 1);
        let p = m - 1;
        if spec_partition_members(records, config.partition_bits as int, p, records.len() as int).len()
            > 0 {
            lemma_partition_centroids_len(records, config, nlists, samples, p);
        } else {
            assert(nlists[p] == 0);
        }
    }
}

/// Once the configuration and the flat index file are accepted and the file holds a
/// record, sharing the lists out among the partitions is the only step of a build that
/// can fail: where it succeeds, the partitions' centroids number exactly the lists asked
/// for, and the build gives an index.
pub proof fn lemma_list_sharing_decides_the_build(flat_index: Seq<u8>, config: IvfBuildConfig)
    requires
        flat_index.len() <= usize::MAX,
        spec_build_config_error(config) is None,
        crate::index::spec_flat_load_error(flat_index) is None,
        spec_flat_file_records(flat_index).len() > 0,
        config.partition_bits > 0 ==> spec_allocate_partition_nlists(
            spec_partition_sizes(spec_flat_file_records(flat_index), config.partition_bits as int),
            config.nlist as int,
        ) is Ok,
    ensures
        spec_build_ivf_from_flat(flat_index, config) is Ok,
{
    lemma_flat_file_records(flat_index);
    let records = spec_flat_file_records(flat_index);
    if config.partition_bits > 0 {
        let bits = config.partition_bits as int;
        let partitions = spec_pow2(bits as nat) as int;
        let sizes = spec_partition_sizes(records, bits);
        let nlists = spec_allocate_partition_nlists(sizes, config.nlist as int)->Ok_0;
        let samples = spec_partition_samples(sizes, config.sample_size as int);
        lemma_allocation_preserves_total(sizes, config.nlist as int);
        assert(sizes.len() == partitions);
        assert forall|p: int|
            0 <= p < partitions && spec_partition_members(records, bits, p, records.len() as int).len()
                == 0 implies #[trigger] nlists[p] == 0 by {
            assert(sizes[p] == 0);
        }
        lemma_all_centroids_count(records, config, nlists, samples, partitions);
        assert(spec_all_centroids(records, config, nlists, samples, partitions).len()
            == config.nlist);
    }
}

/// A partitioned index searches, for a query, the lists of the query's own partition,
/// keyed as the build keyed the records: where the flat index holds a record of the
/// query's partition, the centroid range searched for the query is not empty, and every
/// record its lists hold has the query's partition key.
#[verifier::rlimit(40)]
pub proof fn lemma_probe_range_holds_the_query_partition(
    flat_index: Seq<u8>,
    config: IvfBuildConfig,
    index: crate::ivf::IvfIndex,
    query: Seq<i16>,
)
    requires
        flat_index.len() <= usize::MAX,
        config.nlist <= u32::MAX,
        config.partition_bits > 0,
        spec_build_ivf_from_flat(flat_index, config) is Ok,
        crate::ivf::ivf_read_from(spec_build_ivf_from_flat(flat_index, config)->Ok_0, index),
        exists|i: int|
            0 <= i < spec_flat_file_records(flat_index).len() && #[trigger] spec_partition_key(
                spec_flat_file_records(flat_index)[i].vector@,
                config.partition_bits as int,
            ) == spec_partition_key(query, config.partition_bits as int),
    ensures
        ({
            let (start, count) = index.spec_probe_range(query);
            let bits = config.partition_bits as int;
            &&& count > 0
            &&& forall|l: int, j: int|
                #![trigger index.spec_offsets()[l], index.spec_records()[j]]
                start <= l < start + count && index.spec_offsets()[l] <= j < index.spec_offsets()[l
                    + 1] ==> 0 <= j < index.spec_records().len() && spec_partition_key(
                    index.spec_records()[j].vector@,
                    bits,
                ) == spec_partition_key(query, bits)
        }),
{
    lemma_flat_file_records(flat_index);
    lemma_built_index_loads(flat_index, config);
    lemma_built_partitions(flat_index, config);
    let records = spec_flat_file_records(flat_index);
    let b = spec_build_ivf_from_flat(flat_index, config)->Ok_0;
    let bits = config.partition_bits as int;
    let sizes = spec_partition_sizes(records, bits);
    let allocation = spec_allocate_partition_nlists(sizes, config.nlist as int)->Ok_0;
    let parts = spec_ivf_partitions(b);
    let offsets = spec_ivf_offsets(b);
    let assignment = spec_built_assignment(records, config);
    let n = records.len() as int;
    let p = spec_partition_key(query, bits);
    lemma_partition_key_bound(query, bits);
    assert(parts.len() == spec_pow2(bits as nat));
    let w = choose|i: int|
        0 <= i < n && #[trigger] spec_partition_key(records[i].vector@, bits) == p;
    lemma_partition_members_facts(records, bits, p, n);
    assert(spec_partition_members(records, bits, p, n).len() > 0);
    assert(sizes[p] > 0);
    assert(spec_partitioned_ivf(records, config) is Ok);
    assert(spec_allocate_partition_nlists(sizes, config.nlist as int) is Ok);
    lemma_allocation_preserves_total(sizes, config.nlist as int);
    assert(allocation[p] >= 1);
    let part = parts[p];
    assert(part.centroid_count == allocation[p]);
    assert(part.record_count == sizes[p]);
    assert(part.centroid_start + part.centroid_count <= spec_ivf_nlist(b));
    assert(index.spec_partitions()[p] == part);
    assert(index.spec_probe_range(query) == (part.centroid_start as int, part.centroid_count as int));
    assert forall|l: int, j: int|
        #![trigger index.spec_offsets()[l], index.spec_records()[j]]
        part.centroid_start <= l < part.centroid_start + part.centroid_count
            && index.spec_offsets()[l] <= j < index.spec_offsets()[l + 1] implies 0 <= j
        < index.spec_records().len() && spec_partition_key(
        index.spec_records()[j].vector@,
        bits,
    ) == p by {
        assert(stores_partition_record(b, records, assignment, bits, p, l, j));
        let i = choose|i: int|
            0 <= i < records.len() && spec_partition_key(records[i].vector@, bits) == p
                && assignment[i] == l && record_at(
                b,
                spec_ivf_records_at(b) + RECORD_BYTES * j,
                #[trigger] records[i],
            );
        assert(offsets[l + 1] <= spec_ivf_count(b));
        assert(0 <= offsets[l]);
        assert(record_at(b, spec_ivf_records_at(b) + RECORD_BYTES * j, index.spec_records()[j]));
        assert(index.spec_records()[j].vector@ == records[i].vector@);
    }
}

} // verus!
