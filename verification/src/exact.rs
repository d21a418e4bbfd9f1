//! When an IVF search probes every list, it searches every reference: where the fifth
//! nearest reference stands strictly nearer than all the others, it then gives the
//! answer of the exhaustive search.
use vstd::prelude::*;

use crate::index::{
    lemma_squared_distance_bounds, spec_fraud_count, spec_record_keys, spec_record_labels,
    MAX_SQUARED_DISTANCE,
};
use crate::vectorize::DIMENSIONS;
use crate::ivf::{
    offsets_are_valid, spec_best_lists, spec_centroid_keys, spec_list_bounds, spec_list_candidates,
    spec_probe_count, IvfIndex,
};
use crate::knn::{is_top_k, label_sum, lemma_top_k_exists, ranks_before, top_k, KNN_K};
use crate::ivf_build::{spec_grouped, spec_list_members};
use crate::layout::PackedRecord;

verus! {

/// Sum of `vals[i]` over the `i < n` that `keep` keeps.
pub open spec fn sum_if(vals: Seq<int>, keep: spec_fn(int) -> bool, n: int) -> int
    decreases n,
{
    if n <= 0 {
        0
    } else {
        sum_if(vals, keep, n - 1) + if keep(n - 1) {
            vals[n - 1]
        } else {
            0
        }
    }
}

/// Sum of `vals[s[a]]` over the entries of `s`.
pub open spec fn sum_over(vals: Seq<int>, s: Seq<int>) -> int
    decreases s.len(),
{
    if s.len() == 0 {
        0
    } else {
        sum_over(vals, s.drop_last()) + vals[s.last()]
    }
}

/// Two predicates that agree below `n` keep sums equal.
proof fn lemma_sum_if_same(vals: Seq<int>, p: spec_fn(int) -> bool, q: spec_fn(int) -> bool, n: int)
    requires
        forall|i: int| 0 <= i < n ==> #[trigger] p(i) == q(i),
    ensures
        sum_if(vals, p, n) == sum_if(vals, q, n),
    decreases n,
{
    if n > 0 {
        lemma_sum_if_same(vals, p, q, n - 1);
    }
}

/// Keeping more of nonnegative values gives no less; keeping one more positive value
/// below `n` gives at least that value more.
proof fn lemma_sum_if_more(
    vals: Seq<int>,
    p: spec_fn(int) -> bool,
    q: spec_fn(int) -> bool,
    n: int,
    x: int,
)
    requires
        forall|i: int| 0 <= i < n ==> vals[i] >= 0,
        forall|i: int| 0 <= i < n && #[trigger] p(i) ==> q(i),
    ensures
        sum_if(vals, p, n) <= sum_if(vals, q, n),
        0 <= x < n && q(x) && !p(x) ==> sum_if(vals, p, n) + vals[x] <= sum_if(vals, q, n),
    decreases n,
{
    if n > 0 {
        lemma_sum_if_more(vals, p, q, n - 1, x);
        assert(p(n - 1) ==> q(n - 1));
    }
}

/// The entries of a list of distinct indices below `n` sum as the indices it contains.
proof fn lemma_sum_over_distinct(vals: Seq<int>, s: Seq<int>, n: int)
    requires
        forall|a: int, b: int| 0 <= a < b < s.len() ==> s[a] != s[b],
        forall|a: int| 0 <= a < s.len() ==> 0 <= #[trigger] s[a] < n,
    ensures
        sum_over(vals, s) == sum_if(vals, |i: int| s.contains(i), n),
    decreases s.len(),
{
    if s.len() == 0 {
        lemma_sum_if_zero(vals, |i: int| s.contains(i), n);
    } else {
        let front = s.drop_last();
        let x = s.last();
        lemma_sum_over_distinct(vals, front, n);
        assert(!front.contains(x)) by {
            if front.contains(x) {
                let a = choose|a: int| 0 <= a < front.len() && front[a] == x;
                assert(s[a] == s[s.len() - 1]);
            }
        }
        assert forall|i: int| #![auto] s.contains(i) == (front.contains(i) || i == x) by {
            if s.contains(i) && i != x {
                let a = choose|a: int| 0 <= a < s.len() && s[a] == i;
                assert(front[a] == i);
            }
            if front.contains(i) {
                let a = choose|a: int| 0 <= a < front.len() && front[a] == i;
                assert(s[a] == i);
            }
            if i == x {
                assert(s[s.len() - 1] == i);
            }
        }
        lemma_sum_if_add(vals, |i: int| front.contains(i), |i: int| s.contains(i), x, n);
    }
}

proof fn lemma_sum_if_zero(vals: Seq<int>, p: spec_fn(int) -> bool, n: int)
    requires
        forall|i: int| 0 <= i < n ==> !#[trigger] p(i),
    ensures
        sum_if(vals, p, n) == 0,
    decreases n,
{
    if n > 0 {
        lemma_sum_if_zero(vals, p, n - 1);
    }
}

/// Keeping one index more, `x`, adds its value.
proof fn lemma_sum_if_add(
    vals: Seq<int>,
    p: spec_fn(int) -> bool,
    q: spec_fn(int) -> bool,
    x: int,
    n: int,
)
    requires
        0 <= x < n,
        !p(x),
        forall|i: int| #[trigger] q(i) == (p(i) || i == x),
    ensures
        sum_if(vals, q, n) == sum_if(vals, p, n) + vals[x],
    decreases n,
{
    if n - 1 > x {
        lemma_sum_if_add(vals, p, q, x, n - 1);
    } else {
        lemma_sum_if_same(vals, p, q, n - 1);
    }
}

/// A sum over concatenated values, keeping by concatenated keys, splits in two.
proof fn lemma_sum_below_concat(
    vals1: Seq<int>,
    keys1: Seq<int>,
    vals2: Seq<int>,
    keys2: Seq<int>,
    t: int,
    m: int,
)
    requires
        vals1.len() == keys1.len(),
        vals2.len() == keys2.len(),
        0 <= m <= vals2.len(),
    ensures
        sum_if(vals1 + vals2, |i: int| (keys1 + keys2)[i] <= t, vals1.len() + m) == sum_if(
            vals1,
            |i: int| keys1[i] <= t,
            vals1.len() as int,
        ) + sum_if(vals2, |i: int| keys2[i] <= t, m),
    decreases m,
{
    if m > 0 {
        lemma_sum_below_concat(vals1, keys1, vals2, keys2, t, m - 1);
    } else {
        lemma_sum_if_same(
            vals1 + vals2,
            |i: int| (keys1 + keys2)[i] <= t,
            |i: int| keys1[i] <= t,
            vals1.len() as int,
        );
        assert forall|i: int| 0 <= i < vals1.len() implies (vals1 + vals2)[i] == vals1[i] by {}
        lemma_sum_if_vals(vals1 + vals2, vals1, |i: int| keys1[i] <= t, vals1.len() as int);
    }
}

/// Values that agree below `n` give equal sums.
proof fn lemma_sum_if_vals(v: Seq<int>, w: Seq<int>, p: spec_fn(int) -> bool, n: int)
    requires
        forall|i: int| 0 <= i < n ==> v[i] == w[i],
    ensures
        sum_if(v, p, n) == sum_if(w, p, n),
    decreases n,
{
    if n > 0 {
        lemma_sum_if_vals(v, w, p, n - 1);
    }
}

/// The value of each record: 1 when counting, its label otherwise.
pub open spec fn record_values(records: Seq<PackedRecord>, counting: bool) -> Seq<int> {
    Seq::new(
        records.len(),
        |i: int|
            if counting {
                1int
            } else {
                records[i].label as int
            },
    )
}

/// Sum of the values of the records within squared distance `t` of `query`.
pub open spec fn weight_within(
    query: Seq<i16>,
    records: Seq<PackedRecord>,
    counting: bool,
    t: int,
) -> int {
    sum_if(
        record_values(records, counting),
        |i: int| spec_record_keys(query, records)[i] <= t,
        records.len() as int,
    )
}

proof fn lemma_weight_within_concat(
    query: Seq<i16>,
    first: Seq<PackedRecord>,
    second: Seq<PackedRecord>,
    counting: bool,
    t: int,
)
    ensures
        weight_within(query, first + second, counting, t) == weight_within(
            query,
            first,
            counting,
            t,
        ) + weight_within(query, second, counting, t),
{
    let both = first + second;
    let v1 = record_values(first, counting);
    let v2 = record_values(second, counting);
    let k1 = spec_record_keys(query, first);
    let k2 = spec_record_keys(query, second);
    assert(record_values(both, counting) =~= v1 + v2);
    assert(spec_record_keys(query, both) =~= k1 + k2);
    lemma_sum_below_concat(v1, k1, v2, k2, t, second.len() as int);
    lemma_sum_if_same(
        v1 + v2,
        |i: int| spec_record_keys(query, both)[i] <= t,
        |i: int| (k1 + k2)[i] <= t,
        both.len() as int,
    );
}

/// Label sums are sums of label values.
proof fn lemma_label_sum_over(labels: Seq<u8>, vals: Seq<int>, s: Seq<int>)
    requires
        forall|a: int| 0 <= a < s.len() ==> 0 <= #[trigger] s[a] < labels.len(),
        vals.len() == labels.len(),
        forall|i: int| 0 <= i < labels.len() ==> vals[i] == labels[i] as int,
    ensures
        label_sum(labels, s) == sum_over(vals, s),
    decreases s.len(),
{
    if s.len() > 0 {
        lemma_label_sum_over(labels, vals, s.drop_last());
        assert(0 <= s[s.len() - 1] < labels.len());
    }
}

proof fn lemma_sum_of_ones(vals: Seq<int>, n: int)
    requires
        0 <= n <= vals.len(),
        forall|i: int| 0 <= i < n ==> vals[i] == 1,
    ensures
        sum_if(vals, |i: int| true, n) == n,
    decreases n,
{
    if n > 0 {
        lemma_sum_of_ones(vals, n - 1);
    }
}

proof fn lemma_sum_over_ones(vals: Seq<int>, s: Seq<int>)
    requires
        forall|a: int| 0 <= a < s.len() ==> 0 <= #[trigger] s[a] < vals.len(),
        forall|i: int| 0 <= i < vals.len() ==> vals[i] == 1,
    ensures
        sum_over(vals, s) == s.len(),
    decreases s.len(),
{
    if s.len() > 0 {
        lemma_sum_over_ones(vals, s.drop_last());
        assert(0 <= s[s.len() - 1] < vals.len());
    }
}

/// The `k` first-ranked candidates are distinct indices of candidates.
proof fn lemma_top_k_distinct(keys: Seq<int>, k: nat)
    ensures
        forall|a: int, b: int|
            0 <= a < b < top_k(keys, k).len() ==> top_k(keys, k)[a] != top_k(keys, k)[b],
        forall|a: int| 0 <= a < top_k(keys, k).len() ==> 0 <= #[trigger] top_k(keys, k)[a] < keys.len(),
        top_k(keys, k).len() == if k <= keys.len() {
            k as int
        } else {
            keys.len() as int
        },
{
    lemma_top_k_exists(keys, k);
    let chosen = top_k(keys, k);
    assert forall|a: int, b: int| 0 <= a < b < chosen.len() implies chosen[a] != chosen[b] by {
        assert(ranks_before(keys, chosen[a], chosen[b]));
    }
}

/// When as many candidates lie within `t` as are chosen, the chosen are exactly those
/// within `t`.
proof fn lemma_top_k_within(keys: Seq<int>, k: nat, t: int)
    requires
        sum_if(Seq::new(keys.len(), |i: int| 1int), |i: int| keys[i] <= t, keys.len() as int)
            == top_k(keys, k).len(),
    ensures
        forall|i: int| 0 <= i < keys.len() ==> (#[trigger] top_k(keys, k).contains(i) <==> keys[i] <= t),
{
    let n = keys.len() as int;
    let ones = Seq::new(keys.len(), |i: int| 1int);
    lemma_top_k_exists(keys, k);
    lemma_top_k_distinct(keys, k);
    let chosen = top_k(keys, k);
    lemma_sum_over_distinct(ones, chosen, n);
    lemma_sum_over_ones(ones, chosen);
    let within = |i: int| keys[i] <= t;
    let picked = |i: int| chosen.contains(i);
    assert forall|i: int| 0 <= i < n && keys[i] <= t implies chosen.contains(i) by {
        if !chosen.contains(i) {
            assert forall|j: int| 0 <= j < n && #[trigger] picked(j) implies within(j) by {
                let a = choose|a: int| 0 <= a < chosen.len() && chosen[a] == j;
                assert(ranks_before(keys, chosen[a], i));
            }
            lemma_sum_if_more(ones, picked, within, n, i);
        }
    }
    assert forall|i: int| 0 <= i < n && chosen.contains(i) implies keys[i] <= t by {
        if keys[i] > t {
            assert forall|j: int| 0 <= j < n && #[trigger] within(j) implies picked(j) by {}
            lemma_sum_if_more(ones, within, picked, n, i);
        }
    }
}

/// The weight within `t` of each of `nlist` lists.
pub open spec fn list_weights(
    query: Seq<i16>,
    records: Seq<PackedRecord>,
    offsets: Seq<u32>,
    nlist: int,
    counting: bool,
    t: int,
) -> Seq<int> {
    Seq::new(
        nlist as nat,
        |l: int|
            {
                let bounds = spec_list_bounds(records.len() as int, offsets, l);
                weight_within(query, records.subrange(bounds.0, bounds.1), counting, t)
            },
    )
}

/// The lists' indices.
pub open spec fn list_indices(lists: Seq<(i64, usize)>) -> Seq<int> {
    Seq::new(lists.len(), |a: int| lists[a].1 as int)
}

proof fn lemma_candidates_weight(
    query: Seq<i16>,
    records: Seq<PackedRecord>,
    offsets: Seq<u32>,
    nlist: int,
    lists: Seq<(i64, usize)>,
    counting: bool,
    t: int,
)
    requires
        forall|a: int| 0 <= a < lists.len() ==> (#[trigger] lists[a]).1 < nlist,
    ensures
        weight_within(query, spec_list_candidates(records, offsets, lists), counting, t)
            == sum_over(list_weights(query, records, offsets, nlist, counting, t), list_indices(lists)),
    decreases lists.len(),
{
    if lists.len() == 0 {
        assert(sum_if(
            record_values(Seq::<PackedRecord>::empty(), counting),
            |i: int| spec_record_keys(query, Seq::<PackedRecord>::empty())[i] <= t,
            0,
        ) == 0);
    } else {
        let front = lists.drop_last();
        lemma_candidates_weight(query, records, offsets, nlist, front, counting, t);
        let bounds = spec_list_bounds(records.len() as int, offsets, lists.last().1 as int);
        lemma_weight_within_concat(
            query,
            spec_list_candidates(records, offsets, front),
            records.subrange(bounds.0, bounds.1),
            counting,
            t,
        );
        assert(list_indices(lists).drop_last() =~= list_indices(front));
        assert(lists[lists.len() - 1].1 < nlist);
    }
}

/// Lists `0..m` of offsets that start at 0 and never decrease hold the records up to the
/// end of list `m - 1`, in order.
proof fn lemma_lists_in_order(
    records: Seq<PackedRecord>,
    offsets: Seq<u32>,
    nlist: int,
    m: int,
)
    requires
        offsets_are_valid(offsets, nlist, records.len() as int),
        offsets[0] == 0,
        0 <= m <= nlist <= usize::MAX,
    ensures
        spec_list_candidates(
            records,
            offsets,
            Seq::new(m as nat, |l: int| (0i64, l as usize)),
        ) == records.subrange(0, offsets[m] as int),
    decreases m,
{
    let lists = Seq::new(m as nat, |l: int| (0i64, l as usize));
    if m == 0 {
        assert(records.subrange(0, 0) =~= Seq::<PackedRecord>::empty());
    } else {
        lemma_lists_in_order(records, offsets, nlist, m - 1);
        assert(lists.drop_last() =~= Seq::new((m - 1) as nat, |l: int| (0i64, l as usize)));
        assert(offsets[m - 1] <= offsets[m] <= records.len());
        assert(lists.last().1 as int == m - 1);
        assert(spec_list_bounds(records.len() as int, offsets, m - 1) == (
            offsets[m - 1] as int,
            offsets[m] as int,
        ));
        assert(spec_list_candidates(records, offsets, lists) == spec_list_candidates(
            records,
            offsets,
            lists.drop_last(),
        ) + records.subrange(offsets[m - 1] as int, offsets[m] as int));
        assert(records.subrange(0, offsets[m] as int) =~= records.subrange(
            0,
            offsets[m - 1] as int,
        ) + records.subrange(offsets[m - 1] as int, offsets[m] as int));
    }
}

/// Every list once, in any order, weighs as every list in order.
proof fn lemma_every_list_once(vals: Seq<int>, order: Seq<int>, n: int)
    requires
        order.len() == n,
        forall|a: int, b: int| 0 <= a < b < order.len() ==> order[a] != order[b],
        forall|a: int| 0 <= a < order.len() ==> 0 <= #[trigger] order[a] < n,
    ensures
        sum_over(vals, order) == sum_if(vals, |i: int| true, n),
{
    let ones = Seq::new(n as nat, |i: int| 1int);
    lemma_sum_over_distinct(vals, order, n);
    lemma_sum_over_distinct(ones, order, n);
    lemma_sum_over_ones(ones, order);
    lemma_sum_of_ones(ones, n);
    let picked = |i: int| order.contains(i);
    let all = |i: int| true;
    assert forall|i: int| 0 <= i < n implies #[trigger] picked(i) == all(i) by {
        if !order.contains(i) {
            assert forall|j: int| 0 <= j < n && #[trigger] picked(j) implies all(j) by {}
            lemma_sum_if_more(ones, picked, all, n, i);
        }
    }
    lemma_sum_if_same(vals, picked, all, n);
}

/// The lists of an index partition its records in order: they start at the first, end
/// at the last, and never go back.
pub open spec fn lists_partition_records(index: IvfIndex) -> bool {
    &&& offsets_are_valid(index.spec_offsets(), index.spec_nlist(), index.spec_records().len() as int)
    &&& index.spec_offsets()[0] == 0
    &&& index.spec_offsets()[index.spec_nlist()] == index.spec_records().len()
}

/// Every reference outside the five nearest to `query` lies strictly farther than each
/// of the five.
pub open spec fn fifth_stands_apart(query: Seq<i16>, records: Seq<PackedRecord>) -> bool {
    let keys = spec_record_keys(query, records);
    let chosen = top_k(keys, KNN_K as nat);
    forall|a: int, j: int|
        0 <= a < chosen.len() && 0 <= j < keys.len() && !chosen.contains(j) ==> keys[#[trigger] chosen[a]]
            < #[trigger] keys[j]
}

/// Probing every list of an index without partitions, in whatever order, weighs the
/// references as they are.
pub(crate) proof fn lemma_every_list_weight(
    index: IvfIndex,
    query: Seq<i16>,
    nprobe: int,
    counting: bool,
    t: int,
)
    requires
        index.spec_partition_bits() == 0,
        1 <= index.spec_nlist() <= nprobe,
        index.spec_nlist() <= usize::MAX,
        lists_partition_records(index),
    ensures
        weight_within(
            query,
            spec_list_candidates(
                index.spec_records(),
                index.spec_offsets(),
                index.spec_probed_lists(query, nprobe),
            ),
            counting,
            t,
        ) == weight_within(query, index.spec_records(), counting, t),
{
    let records = index.spec_records();
    let offsets = index.spec_offsets();
    let nlist = index.spec_nlist();
    let lists = index.spec_probed_lists(query, nprobe);
    let keys = spec_centroid_keys(query, index.spec_centroids(), 0, nlist);
    assert(spec_probe_count(nprobe, nlist) == nlist);
    lemma_top_k_distinct(keys, nlist as nat);
    let chosen = top_k(keys, nlist as nat);
    assert(lists == spec_best_lists(query, index.spec_centroids(), nprobe, 0, nlist));
    assert(list_indices(lists) =~= chosen);
    let weights = list_weights(query, records, offsets, nlist, counting, t);
    lemma_candidates_weight(query, records, offsets, nlist, lists, counting, t);
    lemma_every_list_once(weights, chosen, nlist);
    let in_order = Seq::new(nlist as nat, |l: int| (0i64, l as usize));
    lemma_lists_in_order(records, offsets, nlist, nlist);
    assert(records.subrange(0, offsets[nlist] as int) =~= records);
    lemma_candidates_weight(query, records, offsets, nlist, in_order, counting, t);
    lemma_every_list_once(weights, list_indices(in_order), nlist);
}

/// Two sequences of references that weigh alike at every distance give the same fraud
/// count, wherever the fifth nearest of the second stands strictly nearer than the
/// others.
#[verifier::rlimit(40)]
pub proof fn lemma_same_weights_same_count(
    query: Seq<i16>,
    cands: Seq<PackedRecord>,
    records: Seq<PackedRecord>,
)
    requires
        query.len() == DIMENSIONS,
        fifth_stands_apart(query, records),
        forall|counting: bool, t: int|
            #[trigger] weight_within(query, cands, counting, t) == weight_within(
                query,
                records,
                counting,
                t,
            ),
    ensures
        spec_fraud_count(query, cands) == spec_fraud_count(query, records),
{
    let n = records.len() as int;
    let m = cands.len() as int;
    let k_r = spec_record_keys(query, records);
    let k_c = spec_record_keys(query, cands);
    lemma_top_k_distinct(k_r, KNN_K as nat);
    lemma_top_k_distinct(k_c, KNN_K as nat);
    let ch_r = top_k(k_r, KNN_K as nat);
    let ch_c = top_k(k_c, KNN_K as nat);
    let big = MAX_SQUARED_DISTANCE as int;
    assert forall|i: int| 0 <= i < n implies #[trigger] k_r[i] <= big by {
        lemma_squared_distance_bounds(query, records[i].vector@);
    }
    assert forall|i: int| 0 <= i < m implies #[trigger] k_c[i] <= big by {
        lemma_squared_distance_bounds(query, cands[i].vector@);
    }
    assert(weight_within(query, cands, true, big) == weight_within(query, records, true, big));
    lemma_sum_if_same(record_values(records, true), |i: int| k_r[i] <= big, |i: int| true, n);
    lemma_sum_if_same(record_values(cands, true), |i: int| k_c[i] <= big, |i: int| true, m);
    lemma_sum_of_ones(record_values(records, true), n);
    lemma_sum_of_ones(record_values(cands, true), m);
    assert(m == n);
    assert(ch_c.len() == ch_r.len());
    let t = if ch_r.len() == 0 {
        -1
    } else {
        k_r[ch_r[ch_r.len() - 1]]
    };
    lemma_top_k_exists(k_r, KNN_K as nat);
    assert forall|i: int| 0 <= i < n implies (#[trigger] ch_r.contains(i) <==> k_r[i] <= t) by {
        if ch_r.contains(i) {
            let a = choose|a: int| 0 <= a < ch_r.len() && ch_r[a] == i;
            if a < ch_r.len() - 1 {
                assert(ranks_before(k_r, ch_r[a], ch_r[ch_r.len() - 1]));
            }
        } else {
            assert(ch_r.len() > 0);
            assert(k_r[ch_r[ch_r.len() - 1]] < k_r[i]);
        }
    }
    let ones_r = record_values(records, true);
    lemma_sum_over_distinct(ones_r, ch_r, n);
    lemma_sum_over_ones(ones_r, ch_r);
    lemma_sum_if_same(ones_r, |i: int| ch_r.contains(i), |i: int| k_r[i] <= t, n);
    assert(weight_within(query, cands, true, t) == weight_within(query, records, true, t));
    assert(Seq::new(k_c.len(), |i: int| 1int) =~= record_values(cands, true));
    lemma_top_k_within(k_c, KNN_K as nat, t);
    let vals_r = record_values(records, false);
    let vals_c = record_values(cands, false);
    lemma_label_sum_over(spec_record_labels(records), vals_r, ch_r);
    lemma_label_sum_over(spec_record_labels(cands), vals_c, ch_c);
    lemma_sum_over_distinct(vals_r, ch_r, n);
    lemma_sum_over_distinct(vals_c, ch_c, m);
    lemma_sum_if_same(vals_r, |i: int| ch_r.contains(i), |i: int| k_r[i] <= t, n);
    lemma_sum_if_same(vals_c, |i: int| ch_c.contains(i), |i: int| k_c[i] <= t, m);
    assert(weight_within(query, cands, false, t) == weight_within(query, records, false, t));
}

/// Probing every list of an index without partitions gives the answer of the exhaustive
/// search over its references, wherever the fifth nearest reference stands strictly
/// nearer than all the others.
pub proof fn lemma_probing_every_list_is_exact(index: IvfIndex, query: Seq<i16>, nprobe: int)
    requires
        query.len() == DIMENSIONS,
        index.spec_partition_bits() == 0,
        1 <= index.spec_nlist() <= nprobe,
        index.spec_nlist() <= usize::MAX,
        lists_partition_records(index),
        fifth_stands_apart(query, index.spec_records()),
    ensures
        index.spec_fraud_count_top5(query, nprobe) == spec_fraud_count(query, index.spec_records()),
{
    let cands = spec_list_candidates(
        index.spec_records(),
        index.spec_offsets(),
        index.spec_probed_lists(query, nprobe),
    );
    assert forall|counting: bool, t: int| #[trigger] weight_within(query, cands, counting, t)
        == weight_within(query, index.spec_records(), counting, t) by {
        lemma_every_list_weight(index, query, nprobe, counting, t);
    }
    lemma_same_weights_same_count(query, cands, index.spec_records());
}

/// Raising one value by `c` raises the sum of all of them by `c`.
proof fn lemma_sum_if_raise(v: Seq<int>, w: Seq<int>, x: int, c: int, n: int)
    requires
        0 <= x < n,
        forall|i: int| 0 <= i < n ==> #[trigger] w[i] == v[i] + if i == x {
            c
        } else {
            0
        },
    ensures
        sum_if(w, |i: int| true, n) == sum_if(v, |i: int| true, n) + c,
    decreases n,
{
    if n - 1 > x {
        lemma_sum_if_raise(v, w, x, c, n - 1);
    } else {
        lemma_sum_if_vals(w, v, |i: int| true, n - 1);
    }
}

/// The weight of each list's members among the first `n` records.
pub open spec fn member_weights(
    query: Seq<i16>,
    records: Seq<PackedRecord>,
    assignment: Seq<usize>,
    nlist: int,
    n: int,
    counting: bool,
    t: int,
) -> Seq<int> {
    Seq::new(
        nlist as nat,
        |l: int| weight_within(query, spec_list_members(records, assignment, l, n), counting, t),
    )
}

proof fn lemma_weight_empty(query: Seq<i16>, counting: bool, t: int)
    ensures
        weight_within(query, Seq::<PackedRecord>::empty(), counting, t) == 0,
{
}

/// The lists' members among the first `n` records weigh as those records.
proof fn lemma_members_weight(
    query: Seq<i16>,
    records: Seq<PackedRecord>,
    assignment: Seq<usize>,
    nlist: int,
    n: int,
    counting: bool,
    t: int,
)
    requires
        0 <= n <= records.len(),
        0 < nlist,
        forall|i: int| 0 <= i < n ==> #[trigger] assignment[i] < nlist,
    ensures
        sum_if(member_weights(query, records, assignment, nlist, n, counting, t), |i: int| true, nlist)
            == weight_within(query, records.take(n), counting, t),
    decreases n,
{
    if n == 0 {
        let w = member_weights(query, records, assignment, nlist, n, counting, t);
        assert forall|l: int| 0 <= l < nlist implies w[l] == 0 by {
            assert(spec_list_members(records, assignment, l, 0) =~= Seq::<PackedRecord>::empty());
            lemma_weight_empty(query, counting, t);
        }
        lemma_sum_if_zero_vals(w, nlist);
        assert(records.take(0) =~= Seq::<PackedRecord>::empty());
        lemma_weight_empty(query, counting, t);
    } else {
        lemma_members_weight(query, records, assignment, nlist, n - 1, counting, t);
        let last = records[n - 1];
        let x = assignment[n - 1] as int;
        let gain = weight_within(query, seq![last], counting, t);
        let before = member_weights(query, records, assignment, nlist, n - 1, counting, t);
        let after = member_weights(query, records, assignment, nlist, n, counting, t);
        assert forall|l: int| 0 <= l < nlist implies #[trigger] after[l] == before[l] + if l
            == x {
            gain
        } else {
            0
        } by {
            let old_members = spec_list_members(records, assignment, l, n - 1);
            if l == x {
                assert(spec_list_members(records, assignment, l, n) =~= old_members + seq![last]);
                lemma_weight_within_concat(query, old_members, seq![last], counting, t);
            }
        }
        lemma_sum_if_raise(before, after, x, gain, nlist);
        assert(records.take(n) =~= records.take(n - 1) + seq![last]);
        lemma_weight_within_concat(query, records.take(n - 1), seq![last], counting, t);
    }
}

proof fn lemma_sum_if_zero_vals(v: Seq<int>, n: int)
    requires
        forall|i: int| 0 <= i < n ==> v[i] == 0,
    ensures
        sum_if(v, |i: int| true, n) == 0,
    decreases n,
{
    if n > 0 {
        lemma_sum_if_zero_vals(v, n - 1);
    }
}

/// The records grouped into lists `0..m` weigh as the members of those lists.
proof fn lemma_grouped_weight(
    query: Seq<i16>,
    records: Seq<PackedRecord>,
    assignment: Seq<usize>,
    nlist: int,
    m: int,
    counting: bool,
    t: int,
)
    requires
        0 <= m <= nlist,
    ensures
        weight_within(query, spec_grouped(records, assignment, m), counting, t) == sum_if(
            member_weights(query, records, assignment, nlist, records.len() as int, counting, t),
            |i: int| true,
            m,
        ),
    decreases m,
{
    if m == 0 {
        lemma_weight_empty(query, counting, t);
        assert(spec_grouped(records, assignment, 0) =~= Seq::<PackedRecord>::empty());
    } else {
        lemma_grouped_weight(query, records, assignment, nlist, m - 1, counting, t);
        lemma_weight_within_concat(
            query,
            spec_grouped(records, assignment, m - 1),
            spec_list_members(records, assignment, m - 1, records.len() as int),
            counting,
            t,
        );
    }
}

/// Grouping records into lists keeps their weight at every distance.
pub proof fn lemma_grouping_keeps_weights(
    query: Seq<i16>,
    records: Seq<PackedRecord>,
    assignment: Seq<usize>,
    nlist: int,
    counting: bool,
    t: int,
)
    requires
        0 < nlist,
        assignment.len() == records.len(),
        forall|i: int| 0 <= i < records.len() ==> #[trigger] assignment[i] < nlist,
    ensures
        weight_within(query, spec_grouped(records, assignment, nlist), counting, t)
            == weight_within(query, records, counting, t),
{
    lemma_grouped_weight(query, records, assignment, nlist, nlist, counting, t);
    lemma_members_weight(query, records, assignment, nlist, records.len() as int, counting, t);
    assert(records.take(records.len() as int) =~= records);
}

} // verus!
