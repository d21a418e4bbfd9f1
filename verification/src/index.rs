//! The flat index: every reference record in one region, searched exhaustively.
//!
//! File layout (little endian): the magic `R26IDX01`, the version (1) and the record
//! count as 32-bit words, then the records, 30 bytes each.
use vstd::prelude::*;
use vstd::string::StringSliceAdditionalSpecFns;

use crate::knn::{
    empty_ranking, is_top_k, label_sum, lemma_top_k_is, offer, sum_labels, top_k, tracks, KNN_K,
};
use crate::layout::{
    bytes_equal, lemma_record_roundtrip, lemma_u32_roundtrip, push_record, push_u32_le, read_record,
    read_u32_le, record_at, spec_le_u32, spec_record_bytes, spec_u32_bytes, PackedRecord,
    RECORD_BYTES,
};
use crate::vectorize::DIMENSIONS;

verus! {

/// Bytes of the flat index header.
pub const HEADER_BYTES: usize = 16;

/// The only flat index version there is.
pub const VERSION: u32 = 1;

/// Largest squared distance between two vectors: every component differs by at most
/// 65535.
pub const MAX_SQUARED_DISTANCE: i64 = 60_127_707_150;

/// The magic bytes `R26IDX01`.
pub open spec fn flat_magic() -> Seq<u8> {
    seq![82u8, 50u8, 54u8, 73u8, 68u8, 88u8, 48u8, 49u8]
}

// ---------------------------------------------------------------------------
// Distances

/// The squared difference of two vectors in dimension `d`.
pub open spec fn spec_sq_term(l: Seq<i16>, r: Seq<i16>, d: int) -> int {
    (l[d] - r[d]) * (l[d] - r[d])
}

/// Sum of the squared component differences over the first `n` dimensions.
pub open spec fn spec_sq_dist_prefix(l: Seq<i16>, r: Seq<i16>, n: int) -> int
    decreases n,
{
    if n <= 0 {
        0
    } else {
        spec_sq_dist_prefix(l, r, n - 1) + spec_sq_term(l, r, n - 1)
    }
}

/// Squared Euclidean distance between two vectors.
pub open spec fn spec_squared_distance(l: Seq<i16>, r: Seq<i16>) -> int {
    spec_sq_dist_prefix(l, r, DIMENSIONS as int)
}

/// The order in which the pruned distance visits dimensions: those that most often
/// tell references apart come first.
pub open spec fn spec_search_dim(step: int) -> int {
    if step == 0 {
        5
    } else if step == 1 {
        6
    } else if step == 2 {
        2
    } else if step == 3 {
        7
    } else if step == 4 {
        0
    } else if step == 5 {
        8
    } else if step == 6 {
        11
    } else if step == 7 {
        12
    } else if step == 8 {
        1
    } else if step == 9 {
        13
    } else if step == 10 {
        3
    } else if step == 11 {
        4
    } else if step == 12 {
        9
    } else {
        10
    }
}

/// Sum of the squared differences over the first `s` dimensions in search order.
pub open spec fn spec_pruned_prefix(l: Seq<i16>, r: Seq<i16>, s: int) -> int
    decreases s,
{
    if s <= 0 {
        0
    } else {
        spec_pruned_prefix(l, r, s - 1) + spec_sq_term(l, r, spec_search_dim(s - 1))
    }
}

/// The running sum in search order, stopped at the first step where it reaches `limit`.
pub open spec fn spec_pruned_scan(l: Seq<i16>, r: Seq<i16>, limit: int, s: int) -> int
    decreases DIMENSIONS - s,
{
    if s >= DIMENSIONS - 1 || spec_pruned_prefix(l, r, s + 1) >= limit {
        spec_pruned_prefix(l, r, s + 1)
    } else {
        spec_pruned_scan(l, r, limit, s + 1)
    }
}

/// The pruned distance: the squared distance, summed in search order, cut short as soon
/// as it reaches `limit`.
pub open spec fn spec_squared_distance_pruned(l: Seq<i16>, r: Seq<i16>, limit: int) -> int {
    spec_pruned_scan(l, r, limit, 0)
}

proof fn lemma_sq_term_bounds(l: Seq<i16>, r: Seq<i16>, d: int)
    requires
        0 <= d < l.len(),
        0 <= d < r.len(),
    ensures
        0 <= spec_sq_term(l, r, d) <= 4_294_836_225,
{
    let x = l[d] - r[d];
    assert(-65535 <= x <= 65535);
    assert(0 <= x * x <= 4_294_836_225) by (nonlinear_arith)
        requires
            -65535 <= x <= 65535,
    ;
}

proof fn lemma_sq_dist_prefix_bounds(l: Seq<i16>, r: Seq<i16>, n: int)
    requires
        l.len() == DIMENSIONS,
        r.len() == DIMENSIONS,
        0 <= n <= DIMENSIONS,
    ensures
        0 <= spec_sq_dist_prefix(l, r, n) <= n * 4_294_836_225,
    decreases n,
{
    if n > 0 {
        lemma_sq_dist_prefix_bounds(l, r, n - 1);
        lemma_sq_term_bounds(l, r, n - 1);
    }
}

/// A squared distance lies between 0 and `MAX_SQUARED_DISTANCE`.
pub proof fn lemma_squared_distance_bounds(l: Seq<i16>, r: Seq<i16>)
    requires
        l.len() == DIMENSIONS,
        r.len() == DIMENSIONS,
    ensures
        0 <= spec_squared_distance(l, r) <= MAX_SQUARED_DISTANCE,
{
    lemma_sq_dist_prefix_bounds(l, r, DIMENSIONS as int);
}

proof fn lemma_pruned_prefix_monotone(l: Seq<i16>, r: Seq<i16>, s: int, t: int)
    requires
        l.len() == DIMENSIONS,
        r.len() == DIMENSIONS,
        0 <= s <= t <= DIMENSIONS,
    ensures
        spec_pruned_prefix(l, r, s) <= spec_pruned_prefix(l, r, t),
    decreases t - s,
{
    if s < t {
        lemma_pruned_prefix_monotone(l, r, s, t - 1);
        assert(0 <= spec_search_dim(t - 1) < DIMENSIONS);
        lemma_sq_term_bounds(l, r, spec_search_dim(t - 1));
    }
}

/// Summed in search order, the squared differences give the squared distance.
pub proof fn lemma_search_order_is_permutation(l: Seq<i16>, r: Seq<i16>)
    ensures
        spec_pruned_prefix(l, r, DIMENSIONS as int) == spec_squared_distance(l, r),
{
    reveal_with_fuel(spec_pruned_prefix, 15);
    reveal_with_fuel(spec_sq_dist_prefix, 15);
}

proof fn lemma_pruned_scan(l: Seq<i16>, r: Seq<i16>, limit: int, s: int)
    requires
        l.len() == DIMENSIONS,
        r.len() == DIMENSIONS,
        0 <= s < DIMENSIONS,
    ensures
        spec_pruned_scan(l, r, limit, s) <= spec_squared_distance(l, r),
        spec_pruned_scan(l, r, limit, s) == spec_squared_distance(l, r) || limit
            <= spec_pruned_scan(l, r, limit, s),
        spec_pruned_prefix(l, r, s) <= spec_pruned_scan(l, r, limit, s),
    decreases DIMENSIONS - s,
{
    lemma_search_order_is_permutation(l, r);
    lemma_pruned_prefix_monotone(l, r, s + 1, DIMENSIONS as int);
    lemma_pruned_prefix_monotone(l, r, s, s + 1);
    if !(s >= DIMENSIONS - 1 || spec_pruned_prefix(l, r, s + 1) >= limit) {
        lemma_pruned_scan(l, r, limit, s + 1);
    }
}

/// What the pruned distance gives: the squared distance itself, or a partial sum that
/// already reaches `limit` and does not exceed the squared distance.
pub proof fn lemma_pruned_distance(l: Seq<i16>, r: Seq<i16>, limit: int)
    requires
        l.len() == DIMENSIONS,
        r.len() == DIMENSIONS,
    ensures
        spec_squared_distance_pruned(l, r, limit) == spec_squared_distance(l, r) || limit
            <= spec_squared_distance_pruned(l, r, limit) <= spec_squared_distance(l, r),
        spec_squared_distance(l, r) < limit ==> spec_squared_distance_pruned(l, r, limit)
            == spec_squared_distance(l, r),
{
    lemma_pruned_scan(l, r, limit, 0);
}

proof fn lemma_sq_dist_prefix_agree_at(l: Seq<i16>, r: Seq<i16>, d: int, n: int)
    requires
        l.len() == DIMENSIONS,
        r.len() == DIMENSIONS,
        0 <= d < DIMENSIONS,
        0 <= n <= DIMENSIONS,
    ensures
        spec_sq_dist_prefix(l, r, n) == spec_sq_dist_prefix(l.update(d, r[d]), r, n) + if d < n {
            (l[d] - r[d]) * (l[d] - r[d])
        } else {
            0
        },
    decreases n,
{
    if n > 0 {
        lemma_sq_dist_prefix_agree_at(l, r, d, n - 1);
        let moved = l.update(d, r[d]);
        if n - 1 == d {
            assert(moved[d] == r[d]);
        } else {
            assert(moved[n - 1] == l[n - 1]);
        }
    }
}

/// The squared distance counts every dimension, each by the square of the difference
/// there: making `l` agree with `r` in any one dimension `d` lowers it by exactly
/// `(l[d] - r[d])²`.
pub proof fn lemma_squared_distance_per_dimension(l: Seq<i16>, r: Seq<i16>, d: int)
    requires
        l.len() == DIMENSIONS,
        r.len() == DIMENSIONS,
        0 <= d < DIMENSIONS,
    ensures
        spec_squared_distance(l, r) == spec_squared_distance(l.update(d, r[d]), r) + (l[d] - r[d])
            * (l[d] - r[d]),
{
    lemma_sq_dist_prefix_agree_at(l, r, d, DIMENSIONS as int);
}

/// A vector lies at squared distance 0 from itself.
pub proof fn lemma_squared_distance_to_itself(v: Seq<i16>)
    requires
        v.len() == DIMENSIONS,
    ensures
        spec_squared_distance(v, v) == 0,
{
    reveal_with_fuel(spec_sq_dist_prefix, 15);
}

/// Two vectors that differ in one dimension only lie at the square of that difference.
pub proof fn lemma_squared_distance_of_one_difference(l: Seq<i16>, r: Seq<i16>, d: int)
    requires
        l.len() == DIMENSIONS,
        r.len() == DIMENSIONS,
        0 <= d < DIMENSIONS,
        forall|e: int| 0 <= e < DIMENSIONS && e != d ==> l[e] == r[e],
    ensures
        spec_squared_distance(l, r) == (l[d] - r[d]) * (l[d] - r[d]),
{
    lemma_squared_distance_per_dimension(l, r, d);
    assert(l.update(d, r[d]) =~= r);
    lemma_squared_distance_to_itself(r);
}

pub(crate) fn squared_distance(left: &[i16; DIMENSIONS], right: &[i16; DIMENSIONS]) -> (distance: i64)
    ensures
        distance == spec_squared_distance(left@, right@),
        0 <= distance <= MAX_SQUARED_DISTANCE,
{
    let mut sum: i64 = 0;
    let mut index: usize = 0;
    while index < DIMENSIONS
        invariant
            index <= DIMENSIONS,
            left@.len() == DIMENSIONS,
            right@.len() == DIMENSIONS,
            sum == spec_sq_dist_prefix(left@, right@, index as int),
        decreases DIMENSIONS - index,
    {
        proof {
            lemma_sq_dist_prefix_bounds(left@, right@, index as int);
            lemma_sq_term_bounds(left@, right@, index as int);
        }
        let diff: i64 = (left[index] as i64) - (right[index] as i64);
        sum = sum + diff * diff;
        index = index + 1;
    }
    proof {
        lemma_squared_distance_bounds(left@, right@);
    }
    sum
}

fn search_dimension(step: usize) -> (dim: usize)
    requires
        step < DIMENSIONS,
    ensures
        dim == spec_search_dim(step as int),
        dim < DIMENSIONS,
{
    match step {
        0 => 5,
        1 => 6,
        2 => 2,
        3 => 7,
        4 => 0,
        5 => 8,
        6 => 11,
        7 => 12,
        8 => 1,
        9 => 13,
        10 => 3,
        11 => 4,
        12 => 9,
        _ => 10,
    }
}

/// Squared distance summed in search order, returned as soon as the running sum
/// reaches `limit`: below `limit` the result is the squared distance itself.
pub fn squared_distance_pruned(
    left: &[i16; DIMENSIONS],
    right: &[i16; DIMENSIONS],
    limit: i64,
) -> (distance: i64)
    ensures
        distance == spec_squared_distance_pruned(left@, right@, limit as int),
        distance == spec_squared_distance(left@, right@) || limit <= distance
            <= spec_squared_distance(left@, right@),
        spec_squared_distance(left@, right@) < limit ==> distance == spec_squared_distance(
            left@,
            right@,
        ),
        0 <= distance <= MAX_SQUARED_DISTANCE,
{
    proof {
        lemma_pruned_distance(left@, right@, limit as int);
        lemma_squared_distance_bounds(left@, right@);
        lemma_search_order_is_permutation(left@, right@);
    }
    let mut sum: i64 = 0;
    let mut step: usize = 0;
    while step < DIMENSIONS
        invariant
            step <= DIMENSIONS,
            left@.len() == DIMENSIONS,
            right@.len() == DIMENSIONS,
            sum == spec_pruned_prefix(left@, right@, step as int),
            step < DIMENSIONS ==> spec_squared_distance_pruned(left@, right@, limit as int)
                == spec_pruned_scan(left@, right@, limit as int, step as int),
            step == DIMENSIONS ==> spec_squared_distance_pruned(left@, right@, limit as int)
                == sum,
            spec_pruned_prefix(left@, right@, DIMENSIONS as int) == spec_squared_distance(
                left@,
                right@,
            ),
            spec_squared_distance(left@, right@) <= MAX_SQUARED_DISTANCE,
        decreases DIMENSIONS - step,
    {
        let index = search_dimension(step);
        proof {
            lemma_sq_term_bounds(left@, right@, index as int);
            lemma_pruned_prefix_monotone(left@, right@, step + 1, DIMENSIONS as int);
            lemma_pruned_prefix_monotone(left@, right@, 0, step + 1);
        }
        let diff: i64 = (left[index] as i64) - (right[index] as i64);
        sum = sum + diff * diff;
        assert(sum == spec_pruned_prefix(left@, right@, step + 1));
        if sum >= limit {
            return sum;
        }
        step = step + 1;
    }
    sum
}

// ---------------------------------------------------------------------------
// The index

/// The squared distance from `query` to each record, in record order.
pub open spec fn spec_record_keys(query: Seq<i16>, records: Seq<PackedRecord>) -> Seq<int> {
    Seq::new(records.len(), |i: int| spec_squared_distance(query, records[i].vector@))
}

/// The label of each record, in record order.
pub open spec fn spec_record_labels(records: Seq<PackedRecord>) -> Seq<u8> {
    Seq::new(records.len(), |i: int| records[i].label)
}

/// Number of frauds among the five references nearest to `query` (ties go to the
/// reference stored first): the sum of their labels, taken as a byte (modulo 256).
pub open spec fn spec_fraud_count(query: Seq<i16>, records: Seq<PackedRecord>) -> int {
    label_sum(spec_record_labels(records), top_k(spec_record_keys(query, records), KNN_K as nat))
        % 256
}

/// Every record is labelled legit (0) or fraud (1).
pub open spec fn labels_are_binary(records: Seq<PackedRecord>) -> bool {
    forall|i: int| 0 <= i < records.len() ==> (#[trigger] records[i]).label <= 1
}

/// Among records labelled 0 or 1, the fraud count is the number of frauds among the
/// nearest five: at most five, and no byte wraps.
pub proof fn lemma_binary_fraud_count(query: Seq<i16>, records: Seq<PackedRecord>)
    requires
        labels_are_binary(records),
    ensures
        spec_fraud_count(query, records) == label_sum(
            spec_record_labels(records),
            top_k(spec_record_keys(query, records), KNN_K as nat),
        ),
        0 <= spec_fraud_count(query, records) <= KNN_K,
{
    let keys = spec_record_keys(query, records);
    let labels = spec_record_labels(records);
    crate::knn::lemma_top_k_exists(keys, KNN_K as nat);
    let chosen = top_k(keys, KNN_K as nat);
    assert forall|a: int| 0 <= a < chosen.len() implies labels[#[trigger] chosen[a]] <= 1 by {
        assert(0 <= chosen[a] < keys.len());
        assert(records[chosen[a]].label <= 1);
    }
    crate::knn::lemma_label_sum_bound(labels, chosen);
}

/// Why a flat index was refused.
#[derive(Debug, Clone, Copy, PartialEq, Eq, Structural)]
pub enum IndexLoadError {
    /// Shorter than the header.
    TooSmall,
    /// The file does not start with `R26IDX01`.
    InvalidMagic,
    /// A version other than 1.
    UnsupportedVersion(u32),
    /// The bytes after the header are no whole number of records.
    CorruptRecordRegion,
    /// The header's count differs from the number of records present.
    CountMismatch { header: u32, computed: usize },
}

/// The error a flat index file gives, if any.
pub open spec fn spec_flat_load_error(b: Seq<u8>) -> Option<IndexLoadError> {
    if b.len() < HEADER_BYTES {
        Some(IndexLoadError::TooSmall)
    } else if b.take(8) != flat_magic() {
        Some(IndexLoadError::InvalidMagic)
    } else if spec_le_u32(b, 8) != VERSION {
        Some(IndexLoadError::UnsupportedVersion(spec_le_u32(b, 8) as u32))
    } else if (b.len() - HEADER_BYTES) % (RECORD_BYTES as int) != 0 {
        Some(IndexLoadError::CorruptRecordRegion)
    } else if (b.len() - HEADER_BYTES) / (RECORD_BYTES as int) != spec_le_u32(b, 12) {
        Some(
            IndexLoadError::CountMismatch {
                header: spec_le_u32(b, 12) as u32,
                computed: ((b.len() - HEADER_BYTES) / (RECORD_BYTES as int)) as usize,
            },
        )
    } else {
        None
    }
}

/// `records` are the records a flat index file holds.
pub open spec fn flat_records(b: Seq<u8>, records: Seq<PackedRecord>) -> bool {
    &&& records.len() == spec_le_u32(b, 12)
    &&& forall|i: int|
        0 <= i < records.len() ==> record_at(b, HEADER_BYTES + RECORD_BYTES * i, #[trigger] records[i])
}

/// The reference records, held in memory.
pub struct QuantizedIndex {
    records: Vec<PackedRecord>,
}

impl View for QuantizedIndex {
    type V = Seq<PackedRecord>;

    closed spec fn view(&self) -> Seq<PackedRecord> {
        self.records@
    }
}

impl QuantizedIndex {
    #[verifier::type_invariant]
    closed spec fn well_formed(&self) -> bool {
        &&& self.records.len() <= u32::MAX
        &&& self.records.len() <= usize::MAX / RECORD_BYTES
    }

    /// Reads a flat index from the bytes of its file.
    pub fn load(bytes: &[u8]) -> (result: Result<QuantizedIndex, IndexLoadError>)
        ensures
            match spec_flat_load_error(bytes@) {
                Some(e) => result == Err::<QuantizedIndex, IndexLoadError>(e),
                None => result matches Ok(index) && flat_records(bytes@, index@),
            },
            result matches Ok(index) ==> index@.len() <= u32::MAX
                && index@.len() <= usize::MAX / RECORD_BYTES,
    {
        if bytes.len() < HEADER_BYTES {
            return Err(IndexLoadError::TooSmall);
        }
        if !has_flat_magic(bytes) {
            return Err(IndexLoadError::InvalidMagic);
        }
        let version = read_u32_le(bytes, 8);
        if version != VERSION {
            return Err(IndexLoadError::UnsupportedVersion(version));
        }
        let region = bytes.len() - HEADER_BYTES;
        if region % RECORD_BYTES != 0 {
            return Err(IndexLoadError::CorruptRecordRegion);
        }
        let count = region / RECORD_BYTES;
        let header_count = read_u32_le(bytes, 12);
        if count != header_count as usize {
            return Err(IndexLoadError::CountMismatch { header: header_count, computed: count });
        }
        let mut records: Vec<PackedRecord> = Vec::new();
        let mut i: usize = 0;
        while i < count
            invariant
                i <= count,
                count == header_count,
                count == spec_le_u32(bytes@, 12),
                bytes.len() == HEADER_BYTES + RECORD_BYTES * count,
                bytes@.take(8) == flat_magic(),
                spec_le_u32(bytes@, 8) == VERSION,
                (bytes@.len() - HEADER_BYTES) % (RECORD_BYTES as int) == 0,
                (bytes@.len() - HEADER_BYTES) / (RECORD_BYTES as int) == count,
                records.len() == i,
                forall|j: int|
                    0 <= j < i ==> record_at(
                        bytes@,
                        HEADER_BYTES + RECORD_BYTES * j,
                        #[trigger] records@[j],
                    ),
            decreases count - i,
        {
            let at = HEADER_BYTES + RECORD_BYTES * i;
            let record = read_record(bytes, at);
            records.push(record);
            i = i + 1;
        }
        Ok(QuantizedIndex { records })
    }

    /// Number of reference records.
    pub fn len(&self) -> (n: usize)
        ensures
            n == self@.len(),
    {
        self.records.len()
    }

    /// The records, for building another index from them.
    pub fn records_for_build(&self) -> (records: &[PackedRecord])
        ensures
            records@ == self@,
            records@.len() <= u32::MAX,
            records@.len() <= usize::MAX / RECORD_BYTES,
    {
        proof {
            use_type_invariant(self);
        }
        self.records.as_slice()
    }

    /// Number of frauds among the five references nearest to `query`, by an exhaustive
    /// scan.
    pub fn fraud_count_top5_flat(&self, query: &[i16; DIMENSIONS]) -> (count: u8)
        ensures
            count == spec_fraud_count(query@, self@),
            labels_are_binary(self@) ==> count <= KNN_K,
    {
        self.fraud_count_top5(query, false)
    }

    /// Number of frauds among the five references nearest to `query`; a reference is
    /// given up on as soon as its partial distance reaches the fifth best so far.
    pub fn fraud_count_top5_pruned(&self, query: &[i16; DIMENSIONS]) -> (count: u8)
        ensures
            count == spec_fraud_count(query@, self@),
            labels_are_binary(self@) ==> count <= KNN_K,
    {
        self.fraud_count_top5(query, true)
    }

    fn fraud_count_top5(&self, query: &[i16; DIMENSIONS], pruned: bool) -> (count: u8)
        ensures
            count == spec_fraud_count(query@, self@),
            labels_are_binary(self@) ==> count <= KNN_K,
    {
        proof {
            use_type_invariant(self);
        }
        let ghost records = self.records@;
        let ghost keys = spec_record_keys(query@, records);
        let ghost labels = spec_record_labels(records);
        proof {
            assert forall|i: int| 0 <= i < keys.len() implies 0 <= #[trigger] keys[i]
                <= MAX_SQUARED_DISTANCE by {
                lemma_squared_distance_bounds(query@, records[i].vector@);
            }
        }
        let mut best = empty_ranking(KNN_K, 0u8, Ghost(keys), Ghost(labels));
        let ghost mut chosen: Seq<int> = Seq::empty();
        let mut i: usize = 0;
        while i < self.records.len()
            invariant
                i <= records.len(),
                records == self.records@,
                keys == spec_record_keys(query@, records),
                labels == spec_record_labels(records),
                forall|j: int| 0 <= j < keys.len() ==> 0 <= #[trigger] keys[j]
                    <= MAX_SQUARED_DISTANCE,
                tracks(best@, keys, labels, chosen, KNN_K as nat, 0u8),
                is_top_k(keys.take(i as int), KNN_K as nat, chosen),
            decreases records.len() - i,
        {
            let record = &self.records[i];
            let distance = if pruned {
                squared_distance_pruned(query, &record.vector, best[KNN_K - 1].0)
            } else {
                squared_distance(query, &record.vector)
            };
            let next = offer(
                &mut best,
                distance,
                record.label,
                Ghost(keys),
                Ghost(labels),
                Ghost(i as int),
                Ghost(chosen),
                Ghost(KNN_K as nat),
                Ghost(0u8),
            );
            proof {
                chosen = next@;
            }
            i = i + 1;
        }
        proof {
            assert(keys.take(records.len() as int) =~= keys);
            lemma_top_k_is(keys, KNN_K as nat, chosen);
        }
        let count = sum_labels(&best, Ghost(keys), Ghost(labels), Ghost(chosen));
        proof {
            if labels_are_binary(records) {
                lemma_binary_fraud_count(query@, records);
            }
        }
        count
    }
}

fn has_flat_magic(bytes: &[u8]) -> (ok: bool)
    requires
        bytes.len() >= 8,
    ensures
        ok == (bytes@.take(8) == flat_magic()),
{
    let ok = bytes[0] == 82u8 && bytes[1] == 50u8 && bytes[2] == 54u8 && bytes[3] == 73u8
        && bytes[4] == 68u8 && bytes[5] == 88u8 && bytes[6] == 48u8 && bytes[7] == 49u8;
    proof {
        if ok {
            assert(bytes@.take(8) =~= flat_magic());
        } else {
            if bytes@.take(8) == flat_magic() {
                assert(bytes@.take(8)[0] == 82u8);
            }
        }
    }
    ok
}

// ---------------------------------------------------------------------------
// Writing an index

/// The header of a flat index that holds `count` records.
pub open spec fn spec_index_header_bytes(count: u32) -> Seq<u8> {
    flat_magic() + spec_u32_bytes(VERSION) + spec_u32_bytes(count)
}

/// The records one after another.
pub open spec fn spec_records_bytes(records: Seq<PackedRecord>) -> Seq<u8>
    decreases records.len(),
{
    if records.len() == 0 {
        Seq::empty()
    } else {
        spec_records_bytes(records.drop_last()) + spec_record_bytes(records.last())
    }
}

/// The whole flat index file for `records`.
pub open spec fn spec_index_bytes(records: Seq<PackedRecord>) -> Seq<u8> {
    spec_index_header_bytes(records.len() as u32) + spec_records_bytes(records)
}

/// The header of a flat index that holds `count` records.
pub fn encode_index_header(count: u32) -> (bytes: Vec<u8>)
    ensures
        bytes@ == spec_index_header_bytes(count),
{
    let mut bytes: Vec<u8> = Vec::new();
    bytes.push(82u8);
    bytes.push(50u8);
    bytes.push(54u8);
    bytes.push(73u8);
    bytes.push(68u8);
    bytes.push(88u8);
    bytes.push(48u8);
    bytes.push(49u8);
    assert(bytes@ =~= flat_magic());
    push_u32_le(&mut bytes, VERSION);
    push_u32_le(&mut bytes, count);
    bytes
}

/// The bytes of one record, as a flat or IVF index stores it.
pub fn encode_record(record: &PackedRecord) -> (bytes: Vec<u8>)
    ensures
        bytes@ == spec_record_bytes(*record),
{
    let mut bytes: Vec<u8> = Vec::new();
    push_record(&mut bytes, record);
    assert(bytes@ =~= spec_record_bytes(*record));
    bytes
}

/// The whole flat index file for `records`.
pub fn encode_index(records: &[PackedRecord]) -> (bytes: Vec<u8>)
    requires
        records@.len() <= u32::MAX,
    ensures
        bytes@ == spec_index_bytes(records@),
{
    let mut bytes = encode_index_header(records.len() as u32);
    let mut i: usize = 0;
    while i < records.len()
        invariant
            i <= records@.len(),
            bytes@ == spec_index_header_bytes(records@.len() as u32) + spec_records_bytes(
                records@.take(i as int),
            ),
        decreases records@.len() - i,
    {
        push_record(&mut bytes, &records[i]);
        proof {
            assert(records@.take(i + 1).drop_last() =~= records@.take(i as int));
        }
        i = i + 1;
    }
    assert(records@.take(records@.len() as int) =~= records@);
    bytes
}

/// Records take 30 bytes each.
pub proof fn lemma_records_bytes_len(records: Seq<PackedRecord>)
    ensures
        spec_records_bytes(records).len() == RECORD_BYTES * records.len(),
    decreases records.len(),
{
    if records.len() > 0 {
        lemma_records_bytes_len(records.drop_last());
        lemma_record_roundtrip(Seq::empty(), records.last(), Seq::empty());
    }
}

/// The bytes of records split around the `i`-th one.
pub proof fn lemma_records_bytes_split(records: Seq<PackedRecord>, i: int)
    requires
        0 <= i < records.len(),
    ensures
        spec_records_bytes(records) == spec_records_bytes(records.take(i)) + spec_record_bytes(
            records[i],
        ) + spec_records_bytes(records.skip(i + 1)),
    decreases records.len(),
{
    if i == records.len() - 1 {
        assert(records.drop_last() =~= records.take(i));
        assert(records.skip(i + 1) =~= Seq::<PackedRecord>::empty());
        assert(spec_records_bytes(records.take(i)) + spec_record_bytes(records[i])
            + Seq::<u8>::empty() =~= spec_records_bytes(records.take(i)) + spec_record_bytes(
            records[i],
        ));
    } else {
        let front = records.drop_last();
        lemma_records_bytes_split(front, i);
        assert(front.take(i) =~= records.take(i));
        assert(front[i] == records[i]);
        let rest = records.skip(i + 1);
        assert(rest.drop_last() =~= front.skip(i + 1));
        assert(rest.last() == records.last());
        assert(rest.len() > 0);
        assert(spec_records_bytes(rest) == spec_records_bytes(front.skip(i + 1))
            + spec_record_bytes(records.last()));
        assert(spec_records_bytes(records) =~= spec_records_bytes(records.take(i))
            + spec_record_bytes(records[i]) + spec_records_bytes(records.skip(i + 1)));
    }
}

/// Two record lists read from the same flat index bytes are the same list.
pub proof fn lemma_flat_records_unique(b: Seq<u8>, r1: Seq<PackedRecord>, r2: Seq<PackedRecord>)
    requires
        flat_records(b, r1),
        flat_records(b, r2),
    ensures
        r1 == r2,
{
    assert forall|i: int| 0 <= i < r1.len() implies r1[i] == r2[i] by {
        assert(record_at(b, HEADER_BYTES + RECORD_BYTES * i, r1[i]));
        assert(record_at(b, HEADER_BYTES + RECORD_BYTES * i, r2[i]));
        assert(r1[i].vector =~= r2[i].vector);
    }
    assert(r1 =~= r2);
}

/// Reading back a written flat index: the file of any records, at most `u32::MAX` of
/// them, is accepted and holds exactly those records.
pub proof fn lemma_flat_index_roundtrip(records: Seq<PackedRecord>)
    requires
        records.len() <= u32::MAX,
    ensures
        spec_flat_load_error(spec_index_bytes(records)) is None,
        flat_records(spec_index_bytes(records), records),
        forall|read: Seq<PackedRecord>|
            flat_records(spec_index_bytes(records), read) ==> read == records,
{
    let b = spec_index_bytes(records);
    let n = records.len() as int;
    let body = spec_records_bytes(records);
    lemma_records_bytes_len(records);
    assert(b.len() == HEADER_BYTES + RECORD_BYTES * n);
    assert(b.take(8) =~= flat_magic());
    lemma_u32_roundtrip(flat_magic(), VERSION, spec_u32_bytes(n as u32) + body);
    assert(b =~= flat_magic() + spec_u32_bytes(VERSION) + (spec_u32_bytes(n as u32) + body));
    lemma_u32_roundtrip(flat_magic() + spec_u32_bytes(VERSION), n as u32, body);
    assert(spec_le_u32(b, 12) == n);
    assert(spec_le_u32(b, 8) == VERSION);
    assert((b.len() - HEADER_BYTES) % (RECORD_BYTES as int) == 0);
    assert((b.len() - HEADER_BYTES) / (RECORD_BYTES as int) == n);
    let header = spec_index_header_bytes(n as u32);
    assert forall|i: int| 0 <= i < n implies record_at(
        b,
        HEADER_BYTES + RECORD_BYTES * i,
        #[trigger] records[i],
    ) by {
        lemma_records_bytes_split(records, i);
        lemma_records_bytes_len(records.take(i));
        let prefix = header + spec_records_bytes(records.take(i));
        let suffix = spec_records_bytes(records.skip(i + 1));
        assert(b =~= prefix + spec_record_bytes(records[i]) + suffix);
        lemma_record_roundtrip(prefix, records[i], suffix);
    }
    assert forall|read: Seq<PackedRecord>| flat_records(b, read) implies read == records by {
        lemma_flat_records_unique(b, read, records);
    }
}

/// A flat index file may be written piece by piece: its header for `records.len()`
/// records, then the bytes of each record in turn. Such a file is the one
/// `encode_index` gives for `records`, is accepted when read, and holds `records`.
pub proof fn lemma_index_written_record_by_record(records: Seq<PackedRecord>, file: Seq<u8>)
    requires
        records.len() <= u32::MAX,
        file.len() == HEADER_BYTES + RECORD_BYTES * records.len(),
        file.take(HEADER_BYTES as int) == spec_index_header_bytes(records.len() as u32),
        forall|i: int|
            0 <= i < records.len() ==> #[trigger] file.subrange(
                HEADER_BYTES + RECORD_BYTES * i,
                HEADER_BYTES + RECORD_BYTES * (i + 1),
            ) == spec_record_bytes(records[i]),
    ensures
        file == spec_index_bytes(records),
        spec_flat_load_error(file) is None,
        flat_records(file, records),
{
    let n = records.len() as int;
    let header = spec_index_header_bytes(n as u32);
    let body = spec_records_bytes(records);
    lemma_records_bytes_len(records);
    assert(header.len() == HEADER_BYTES);
    assert forall|k: int| 0 <= k < file.len() implies file[k] == (header + body)[k] by {
        if k < HEADER_BYTES {
            assert(file[k] == file.take(HEADER_BYTES as int)[k]);
        } else {
            let j = k - HEADER_BYTES;
            let i = j / (RECORD_BYTES as int);
            let r = j % (RECORD_BYTES as int);
            assert(0 <= i < n) by (nonlinear_arith)
                requires
                    0 <= j < RECORD_BYTES * n,
                    i == j / (RECORD_BYTES as int),
            ;
            assert(j == RECORD_BYTES * i + r) by (nonlinear_arith)
                requires
                    i == j / (RECORD_BYTES as int),
                    r == j % (RECORD_BYTES as int),
            ;
            let chunk = file.subrange(HEADER_BYTES + RECORD_BYTES * i, HEADER_BYTES + RECORD_BYTES * (
            i + 1));
            assert(chunk == spec_record_bytes(records[i]));
            assert(file[k] == chunk[r]);
            lemma_records_bytes_split(records, i);
            lemma_records_bytes_len(records.take(i));
            lemma_records_bytes_len(seq![records[i]]);
            assert(seq![records[i]].drop_last() =~= Seq::<PackedRecord>::empty());
            assert(spec_records_bytes(seq![records[i]]) =~= spec_record_bytes(records[i]));
            assert(body[j] == spec_record_bytes(records[i])[r]);
        }
    }
    assert(file =~= header + body);
    lemma_flat_index_roundtrip(records);
}

// ---------------------------------------------------------------------------
// Labels of the reference file

/// `legit`, in ASCII.
pub open spec fn legit_label_bytes() -> Seq<u8> {
    seq![108u8, 101u8, 103u8, 105u8, 116u8]
}

/// `fraud`, in ASCII.
pub open spec fn fraud_label_bytes() -> Seq<u8> {
    seq![102u8, 114u8, 97u8, 117u8, 100u8]
}

/// The stored label of a reference labelled `label` in the reference file: 0 for
/// `legit`, 1 for `fraud`, and nothing for any other label.
pub open spec fn spec_reference_label(label: Seq<u8>) -> Option<u8> {
    if label == legit_label_bytes() {
        Some(0u8)
    } else if label == fraud_label_bytes() {
        Some(1u8)
    } else {
        None
    }
}

/// Reads the label of a reference: `legit` is stored as 0, `fraud` as 1; any other
/// label is refused.
pub fn reference_label(label: &str) -> (code: Option<u8>)
    ensures
        code == spec_reference_label(label.spec_bytes()),
{
    let bytes = label.as_bytes();
    let legit: [u8; 5] = [108u8, 101u8, 103u8, 105u8, 116u8];
    let fraud: [u8; 5] = [102u8, 114u8, 97u8, 117u8, 100u8];
    assert(legit@ =~= legit_label_bytes());
    assert(fraud@ =~= fraud_label_bytes());
    if bytes_equal(bytes, legit.as_slice()) {
        Some(0)
    } else if bytes_equal(bytes, fraud.as_slice()) {
        Some(1)
    } else {
        None
    }
}

// ---------------------------------------------------------------------------
// The file on disk

/// Why an index path was refused.
#[derive(Debug, Clone, Copy, PartialEq, Eq, Structural)]
pub enum IndexPathError {
    /// No file at the path.
    NotFound,
}

/// Calls `std::path::Path::exists` on the path. Nothing is claimed of the answer: it is
/// what the file system holds at the moment of the call.
#[verifier::external_body]
fn path_exists(path: &str) -> bool {
    std::path::Path::new(path).exists()
}

/// What an index path is found to be, given whether a file is there.
pub fn index_path_status(found: bool) -> (result: Result<(), IndexPathError>)
    ensures
        result is Ok <==> found,
        !found ==> result == Err::<(), IndexPathError>(IndexPathError::NotFound),
{
    if !found {
        return Err(IndexPathError::NotFound);
    }
    Ok(())
}

/// Checks that a file is present at `path` before an index is read from it.
pub fn validate_index_path(path: &str) -> (result: Result<(), IndexPathError>)
    ensures
        result is Err ==> result == Err::<(), IndexPathError>(IndexPathError::NotFound),
{
    index_path_status(path_exists(path))
}

} // verus!
