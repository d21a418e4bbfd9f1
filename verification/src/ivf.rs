//! The IVF index: references grouped into lists around centroids, optionally split
//! first into partitions by four binary features of the query.
//!
//! File layout (little endian). Version 1 (`R26IVF01`): magic, version, record count
//! and list count (`nlist`) as 32-bit words; then `nlist` centroids of 28 bytes,
//! `nlist + 1` list offsets of 4 bytes and the records, 30 bytes each, grouped by
//! list. Version 2 (`R26IVF02`) adds the partition bits and the partition count to the
//! header, and one 16-byte entry per partition (first centroid, centroid count, first
//! record, record count) before the centroids.
use vstd::prelude::*;

use crate::index::{
    lemma_squared_distance_bounds, spec_fraud_count, spec_record_keys, spec_record_labels,
    spec_squared_distance, squared_distance, squared_distance_pruned, MAX_SQUARED_DISTANCE,
};
use crate::knn::{empty_ranking, is_top_k, lemma_top_k_is, offer, sum_labels, top_k, tracks, KNN_K};
use crate::layout::{
    read_record, read_u32_le, read_vector, record_at, spec_le_u32, spec_vector_at, PackedRecord,
    RECORD_BYTES, VECTOR_BYTES,
};
use crate::vectorize::{DIMENSIONS, SENTINEL_MISSING};

pub use crate::ivf_build::{
    allocate_partition_nlists, build_ivf_from_flat, check_build_config, IvfBuildConfig, IvfBuildError,
    NlistAllocationError,
};

verus! {

/// The only IVF version there is (both layouts carry it).
pub const VERSION: u32 = 1;

/// Every record of the list is legit.
pub const LIST_PURITY_ALL_LEGIT: u8 = 0;

/// Every record of the list is a fraud.
pub const LIST_PURITY_ALL_FRAUD: u8 = 1;

/// The list is empty or holds both labels.
pub const LIST_PURITY_MIXED: u8 = 2;

pub const V1_HEADER_BYTES: usize = 20;

pub const V2_HEADER_BYTES: usize = 28;

pub const PARTITION_META_BYTES: usize = 16;

/// Partition bit 0: the last transaction is missing.
pub const PARTITION_LAST_TX_MISSING: usize = 0;

/// Partition bit 1: the purchase is online.
pub const PARTITION_IS_ONLINE: usize = 1;

/// Partition bit 2: the card is present.
pub const PARTITION_CARD_PRESENT: usize = 2;

/// Partition bit 3: the merchant is unknown to the customer.
pub const PARTITION_UNKNOWN_MERCHANT: usize = 3;

/// Where one partition's centroids and records lie.
#[derive(Debug, Clone, Copy, PartialEq, Eq, Structural)]
pub struct IvfPartitionMeta {
    pub centroid_start: u32,
    pub centroid_count: u32,
    pub record_start: u32,
    pub record_count: u32,
}

/// The magic bytes `R26IVF01`.
pub open spec fn ivf_magic_v1() -> Seq<u8> {
    seq![82u8, 50u8, 54u8, 73u8, 86u8, 70u8, 48u8, 49u8]
}

/// The magic bytes `R26IVF02`.
pub open spec fn ivf_magic_v2() -> Seq<u8> {
    seq![82u8, 50u8, 54u8, 73u8, 86u8, 70u8, 48u8, 50u8]
}

/// `2^n`.
pub open spec fn spec_pow2(n: nat) -> nat
    decreases n,
{
    if n == 0 {
        1
    } else {
        2 * spec_pow2((n - 1) as nat)
    }
}

// ---------------------------------------------------------------------------
// Partitions

/// The partition of a vector: one bit per feature, for the first `partition_bits`
/// features of the partition order.
pub open spec fn spec_partition_key(v: Seq<i16>, partition_bits: int) -> int {
    (if partition_bits > 0 && v[5] == SENTINEL_MISSING {
        1int
    } else {
        0int
    }) + (if partition_bits > 1 && v[9] > 0 {
        2int
    } else {
        0int
    }) + (if partition_bits > 2 && v[10] > 0 {
        4int
    } else {
        0int
    }) + (if partition_bits > 3 && v[11] > 0 {
        8int
    } else {
        0int
    })
}

/// `2^n` is positive and grows with `n`.
pub proof fn lemma_pow2_at_least(n: nat, m: nat)
    requires
        m <= n,
    ensures
        spec_pow2(m) <= spec_pow2(n),
        spec_pow2(n) >= 1,
    decreases n,
{
    if n > 0 {
        if m < n {
            lemma_pow2_at_least((n - 1) as nat, m);
        } else {
            lemma_pow2_at_least((n - 1) as nat, (n - 1) as nat);
        }
    }
}

/// A partition key lies below `2^partition_bits`.
pub proof fn lemma_partition_key_bound(v: Seq<i16>, partition_bits: int)
    requires
        partition_bits >= 0,
    ensures
        0 <= spec_partition_key(v, partition_bits) < spec_pow2(partition_bits as nat),
{
    reveal_with_fuel(spec_pow2, 5);
    if partition_bits >= 4 {
        lemma_pow2_at_least(partition_bits as nat, 4);
    }
}

/// The partition of a vector: bit 0 when the last transaction is missing, bit 1 when
/// online, bit 2 when the card is present, bit 3 when the merchant is unknown; only the
/// first `partition_bits` of these count.
pub fn partition_key(vector: &[i16; DIMENSIONS], partition_bits: usize) -> (key: usize)
    ensures
        key == spec_partition_key(vector@, partition_bits as int),
        key < 16,
{
    let mut key: usize = 0;
    if partition_bits > PARTITION_LAST_TX_MISSING && vector[5] == SENTINEL_MISSING {
        key = key + 1;
    }
    if partition_bits > PARTITION_IS_ONLINE && vector[9] > 0 {
        key = key + 2;
    }
    if partition_bits > PARTITION_CARD_PRESENT && vector[10] > 0 {
        key = key + 4;
    }
    if partition_bits > PARTITION_UNKNOWN_MERCHANT && vector[11] > 0 {
        key = key + 8;
    }
    key
}

// ---------------------------------------------------------------------------
// List purity

/// Whether the records of a list all carry one label, and which.
pub open spec fn spec_list_purity(records: Seq<PackedRecord>, start: int, end: int) -> u8 {
    if start >= end {
        LIST_PURITY_MIXED
    } else if forall|i: int| start <= i < end ==> (#[trigger] records[i]).label == records[start].label {
        if records[start].label == 0 {
            LIST_PURITY_ALL_LEGIT
        } else {
            LIST_PURITY_ALL_FRAUD
        }
    } else {
        LIST_PURITY_MIXED
    }
}

/// The offsets delimit `nlist` lists inside `count` records: they never decrease and
/// never pass `count`.
pub open spec fn offsets_are_valid(offsets: Seq<u32>, nlist: int, count: int) -> bool {
    &&& offsets.len() == nlist + 1
    &&& forall|l: int| 0 <= l <= nlist ==> #[trigger] offsets[l] <= count
    &&& forall|l: int| 0 <= l < nlist ==> #[trigger] offsets[l] <= offsets[l + 1]
}

fn list_bounds(offsets: &[u32], count: usize, l: usize) -> (bounds: (usize, usize))
    ensures
        bounds.0 == spec_list_bounds(count as int, offsets@, l as int).0,
        bounds.1 == spec_list_bounds(count as int, offsets@, l as int).1,
        bounds.0 <= bounds.1 <= count,
{
    if l < offsets.len() && offsets.len() - l > 1 && offsets[l] <= offsets[l + 1]
        && offsets[l + 1] as usize <= count {
        (offsets[l] as usize, offsets[l + 1] as usize)
    } else {
        (0, 0)
    }
}

/// The records of list `l` among `count` records: from `offsets[l]` to
/// `offsets[l + 1]`, when the list exists and these lie in order within the records; no
/// record otherwise.
pub open spec fn spec_list_bounds(count: int, offsets: Seq<u32>, l: int) -> (int, int) {
    if 0 <= l && l + 1 < offsets.len() && offsets[l] <= offsets[l + 1] && offsets[l + 1]
        <= count {
        (offsets[l] as int, offsets[l + 1] as int)
    } else {
        (0, 0)
    }
}

fn build_list_purity_from_slices(nlist: usize, offsets: &[u32], records: &[PackedRecord]) -> (purity:
    Vec<u8>)
    requires
        offsets@.len() == nlist + 1,
    ensures
        purity@ == spec_purity_of(records@, offsets@, nlist as int),
{
    let mut purity: Vec<u8> = Vec::new();
    let mut list_index: usize = 0;
    while list_index < nlist
        invariant
            list_index <= nlist,
            offsets@.len() == nlist + 1,
            purity@.len() == list_index,
            forall|l: int|
                0 <= l < list_index ==> #[trigger] purity@[l] == spec_purity_of(
                    records@,
                    offsets@,
                    nlist as int,
                )[l],
        decreases nlist - list_index,
    {
        let (start, end) = list_bounds(offsets, records.len(), list_index);
        if start >= end {
            purity.push(LIST_PURITY_MIXED);
        } else {
            let first_label = records[start].label;
            let mut only_one_label = true;
            let mut record_index = start + 1;
            while record_index < end
                invariant
                    start < end <= records@.len(),
                    start + 1 <= record_index <= end,
                    first_label == records@[start as int].label,
                    only_one_label ==> forall|i: int|
                        start <= i < record_index ==> (#[trigger] records@[i]).label
                            == first_label,
                    !only_one_label ==> exists|i: int|
                        start <= i < end && (#[trigger] records@[i]).label != first_label,
                ensures
                    only_one_label ==> forall|i: int|
                        start <= i < end ==> (#[trigger] records@[i]).label == first_label,
                    !only_one_label ==> exists|i: int|
                        start <= i < end && (#[trigger] records@[i]).label != first_label,
                decreases end - record_index,
            {
                if records[record_index].label != first_label {
                    only_one_label = false;
                    break;
                }
                record_index = record_index + 1;
            }
            let ghost expected = spec_list_purity(records@, start as int, end as int);
            if only_one_label {
                assert(expected == (if first_label == 0 {
                    LIST_PURITY_ALL_LEGIT
                } else {
                    LIST_PURITY_ALL_FRAUD
                }));
                purity.push(
                    if first_label == 0 {
                        LIST_PURITY_ALL_LEGIT
                    } else {
                        LIST_PURITY_ALL_FRAUD
                    },
                );
            } else {
                assert(expected == LIST_PURITY_MIXED);
                purity.push(LIST_PURITY_MIXED);
            }
        }
        list_index = list_index + 1;
    }
    assert(purity@ =~= spec_purity_of(records@, offsets@, nlist as int));
    purity
}

// ---------------------------------------------------------------------------
// Reading an index file

/// The file is of the partitioned layout.
pub open spec fn spec_ivf_v2(b: Seq<u8>) -> bool {
    b.take(8) == ivf_magic_v2()
}

/// Bytes of the file's header, by its layout.
pub open spec fn spec_ivf_header_bytes(b: Seq<u8>) -> int {
    if spec_ivf_v2(b) {
        V2_HEADER_BYTES as int
    } else {
        V1_HEADER_BYTES as int
    }
}

/// The record count the header gives.
pub open spec fn spec_ivf_count(b: Seq<u8>) -> int {
    spec_le_u32(b, 12)
}

/// The list count the header gives.
pub open spec fn spec_ivf_nlist(b: Seq<u8>) -> int {
    spec_le_u32(b, 16)
}

/// The partition bits the header gives (none for version 1).
pub open spec fn spec_ivf_partition_bits(b: Seq<u8>) -> int {
    if spec_ivf_v2(b) {
        spec_le_u32(b, 20)
    } else {
        0
    }
}

/// The partition count the header gives (none for version 1).
pub open spec fn spec_ivf_partition_count(b: Seq<u8>) -> int {
    if spec_ivf_v2(b) {
        spec_le_u32(b, 24)
    } else {
        0
    }
}

/// Where the centroids start.
pub open spec fn spec_ivf_centroids_at(b: Seq<u8>) -> int {
    spec_ivf_header_bytes(b) + PARTITION_META_BYTES * spec_ivf_partition_count(b)
}

/// Where the list offsets start.
pub open spec fn spec_ivf_offsets_at(b: Seq<u8>) -> int {
    spec_ivf_centroids_at(b) + VECTOR_BYTES * spec_ivf_nlist(b)
}

/// Where the records start.
pub open spec fn spec_ivf_records_at(b: Seq<u8>) -> int {
    spec_ivf_offsets_at(b) + 4 * (spec_ivf_nlist(b) + 1)
}

/// Where the file ends, by its header.
pub open spec fn spec_ivf_end(b: Seq<u8>) -> int {
    spec_ivf_records_at(b) + RECORD_BYTES * spec_ivf_count(b)
}

/// The partition entry at `at`.
pub open spec fn spec_partition_meta_at(b: Seq<u8>, at: int) -> IvfPartitionMeta {
    IvfPartitionMeta {
        centroid_start: spec_le_u32(b, at) as u32,
        centroid_count: spec_le_u32(b, at + 4) as u32,
        record_start: spec_le_u32(b, at + 8) as u32,
        record_count: spec_le_u32(b, at + 12) as u32,
    }
}

/// The partition entries of the file.
pub open spec fn spec_ivf_partitions(b: Seq<u8>) -> Seq<IvfPartitionMeta> {
    Seq::new(
        spec_ivf_partition_count(b) as nat,
        |p: int| spec_partition_meta_at(b, spec_ivf_header_bytes(b) + PARTITION_META_BYTES * p),
    )
}

/// The list offsets of the file.
pub open spec fn spec_ivf_offsets(b: Seq<u8>) -> Seq<u32> {
    Seq::new(
        (spec_ivf_nlist(b) + 1) as nat,
        |l: int| spec_le_u32(b, spec_ivf_offsets_at(b) + 4 * l) as u32,
    )
}

/// Every partition's centroids lie among the `nlist` centroids.
pub open spec fn partitions_fit(partitions: Seq<IvfPartitionMeta>, nlist: int) -> bool {
    forall|p: int|
        0 <= p < partitions.len() ==> (#[trigger] partitions[p]).centroid_start
            + partitions[p].centroid_count <= nlist
}

/// Why an IVF index was refused.
#[derive(Debug, Clone, Copy, PartialEq, Eq, Structural)]
pub enum IvfLoadError {
    /// Shorter than its header.
    TooSmall,
    /// Neither `R26IVF01` nor `R26IVF02`.
    InvalidMagic,
    /// A version other than 1.
    UnsupportedVersion(u32),
    /// Partition bits of 0 or above 31, or a partition count other than `2^bits`.
    InvalidPartitionMetadata,
    /// A version 1 file shorter than its header announces.
    CorruptLayout,
    /// A version 2 file shorter than its header announces.
    CorruptPartitionedLayout,
}

/// The error an IVF index file gives, if any.
pub open spec fn spec_ivf_load_error(b: Seq<u8>) -> Option<IvfLoadError> {
    if b.len() < V1_HEADER_BYTES {
        Some(IvfLoadError::TooSmall)
    } else if b.take(8) != ivf_magic_v1() && b.take(8) != ivf_magic_v2() {
        Some(IvfLoadError::InvalidMagic)
    } else if spec_ivf_v2(b) && b.len() < V2_HEADER_BYTES {
        Some(IvfLoadError::TooSmall)
    } else if spec_le_u32(b, 8) != VERSION {
        Some(IvfLoadError::UnsupportedVersion(spec_le_u32(b, 8) as u32))
    } else if spec_ivf_v2(b) && !(1 <= spec_ivf_partition_bits(b) < 32
        && spec_ivf_partition_count(b) == spec_pow2(spec_ivf_partition_bits(b) as nat)) {
        Some(IvfLoadError::InvalidPartitionMetadata)
    } else if b.len() < spec_ivf_end(b) {
        if spec_ivf_v2(b) {
            Some(IvfLoadError::CorruptPartitionedLayout)
        } else {
            Some(IvfLoadError::CorruptLayout)
        }
    } else {
        None
    }
}

/// An IVF index, held in memory.
pub struct IvfIndex {
    count: usize,
    nlist: usize,
    partition_bits: usize,
    partitions: Vec<IvfPartitionMeta>,
    centroids: Vec<[i16; DIMENSIONS]>,
    offsets: Vec<u32>,
    records: Vec<PackedRecord>,
    list_purity: Vec<u8>,
}

/// `index` holds what the IVF index file `b` holds.
pub open spec fn ivf_read_from(b: Seq<u8>, index: IvfIndex) -> bool {
    &&& index.spec_nlist() == spec_ivf_nlist(b)
    &&& index.spec_partition_bits() == spec_ivf_partition_bits(b)
    &&& index.spec_partitions() == spec_ivf_partitions(b)
    &&& index.spec_offsets() == spec_ivf_offsets(b)
    &&& index.spec_centroids().len() == spec_ivf_nlist(b)
    &&& forall|c: int|
        0 <= c < spec_ivf_nlist(b) ==> (#[trigger] index.spec_centroids()[c])@ == spec_vector_at(
            b,
            spec_ivf_centroids_at(b) + VECTOR_BYTES * c,
        )
    &&& index.spec_records().len() == spec_ivf_count(b)
    &&& forall|i: int|
        0 <= i < spec_ivf_count(b) ==> record_at(
            b,
            spec_ivf_records_at(b) + RECORD_BYTES * i,
            #[trigger] index.spec_records()[i],
        )
    &&& index.spec_purity() == spec_purity_of(
        index.spec_records(),
        index.spec_offsets(),
        index.spec_nlist(),
    )
}

/// The purity of every list of an index.
pub open spec fn spec_purity_of(records: Seq<PackedRecord>, offsets: Seq<u32>, nlist: int) -> Seq<
    u8,
> {
    Seq::new(
        nlist as nat,
        |l: int|
            spec_list_purity(
                records,
                spec_list_bounds(records.len() as int, offsets, l).0,
                spec_list_bounds(records.len() as int, offsets, l).1,
            ),
    )
}

impl IvfIndex {
    pub closed spec fn spec_nlist(&self) -> int {
        self.nlist as int
    }

    pub closed spec fn spec_partition_bits(&self) -> int {
        self.partition_bits as int
    }

    pub closed spec fn spec_partitions(&self) -> Seq<IvfPartitionMeta> {
        self.partitions@
    }

    pub closed spec fn spec_centroids(&self) -> Seq<[i16; DIMENSIONS]> {
        self.centroids@
    }

    pub closed spec fn spec_offsets(&self) -> Seq<u32> {
        self.offsets@
    }

    pub closed spec fn spec_records(&self) -> Seq<PackedRecord> {
        self.records@
    }

    pub closed spec fn spec_purity(&self) -> Seq<u8> {
        self.list_purity@
    }

    #[verifier::type_invariant]
    closed spec fn well_formed(&self) -> bool {
        &&& self.count == self.records.len()
        &&& self.records.len() <= u32::MAX
        &&& self.nlist <= u32::MAX
        &&& self.centroids.len() == self.nlist
        &&& self.offsets.len() == self.nlist + 1
        &&& self.list_purity@ == spec_purity_of(self.records@, self.offsets@, self.nlist as int)
        &&& self.partition_bits == 0 ==> self.partitions.len() == 0
        &&& self.partition_bits > 0 ==> self.partition_bits < 32 && self.partitions.len()
            == spec_pow2(self.partition_bits as nat)
    }

    /// Reads an IVF index from the bytes of its file.
    pub fn load(bytes: &[u8]) -> (result: Result<IvfIndex, IvfLoadError>)
        ensures
            match spec_ivf_load_error(bytes@) {
                Some(e) => result == Err::<IvfIndex, IvfLoadError>(e),
                None => result matches Ok(index) && ivf_read_from(bytes@, index),
            },
    {
        if bytes.len() < V1_HEADER_BYTES {
            return Err(IvfLoadError::TooSmall);
        }
        let is_v1 = has_ivf_magic(bytes, 49u8);
        let is_v2 = has_ivf_magic(bytes, 50u8);
        if !is_v1 && !is_v2 {
            return Err(IvfLoadError::InvalidMagic);
        }
        proof {
            if is_v1 {
                assert(bytes@.take(8)[7] == 49u8);
            }
        }
        if is_v2 {
            Self::load_v2(bytes)
        } else {
            Self::load_v1(bytes)
        }
    }

    fn load_v1(bytes: &[u8]) -> (result: Result<IvfIndex, IvfLoadError>)
        requires
            bytes.len() >= V1_HEADER_BYTES,
            bytes@.take(8) == ivf_magic_v1(),
        ensures
            match spec_ivf_load_error(bytes@) {
                Some(e) => result == Err::<IvfIndex, IvfLoadError>(e),
                None => result matches Ok(index) && ivf_read_from(bytes@, index),
            },
    {
        proof {
            assert(bytes@.take(8)[7] != ivf_magic_v2()[7]);
        }
        let version = read_u32_le(bytes, 8);
        if version != VERSION {
            return Err(IvfLoadError::UnsupportedVersion(version));
        }
        let count = read_u32_le(bytes, 12);
        let nlist = read_u32_le(bytes, 16);
        let partition_offset: u64 = 20u64;
        let centroids_offset = partition_offset;
        let offsets_offset = centroids_offset + (nlist as u64) * 28u64;
        let records_offset = offsets_offset + ((nlist as u64) + 1) * 4;
        let end = records_offset + (count as u64) * 30u64;
        if (bytes.len() as u64) < end {
            return Err(IvfLoadError::CorruptLayout);
        }
        Self::assemble(
            bytes,
            count as usize,
            nlist as usize,
            0,
            0,
            partition_offset as usize,
            centroids_offset as usize,
            offsets_offset as usize,
            records_offset as usize,
        )
    }

    fn load_v2(bytes: &[u8]) -> (result: Result<IvfIndex, IvfLoadError>)
        requires
            bytes.len() >= V1_HEADER_BYTES,
            bytes@.take(8) == ivf_magic_v2(),
        ensures
            match spec_ivf_load_error(bytes@) {
                Some(e) => result == Err::<IvfIndex, IvfLoadError>(e),
                None => result matches Ok(index) && ivf_read_from(bytes@, index),
            },
    {
        proof {
            assert(bytes@.take(8)[7] != ivf_magic_v1()[7]);
        }
        if bytes.len() < V2_HEADER_BYTES {
            return Err(IvfLoadError::TooSmall);
        }
        let version = read_u32_le(bytes, 8);
        if version != VERSION {
            return Err(IvfLoadError::UnsupportedVersion(version));
        }
        let count = read_u32_le(bytes, 12);
        let nlist = read_u32_le(bytes, 16);
        let partition_bits = read_u32_le(bytes, 20);
        let partition_count = read_u32_le(bytes, 24);
        if partition_bits == 0 || partition_bits >= 32 {
            return Err(IvfLoadError::InvalidPartitionMetadata);
        }
        let expected_partition_count = pow2_u64(partition_bits);
        if partition_count as u64 != expected_partition_count {
            return Err(IvfLoadError::InvalidPartitionMetadata);
        }
        let partition_offset: u64 = 28u64;
        let centroids_offset = partition_offset + (partition_count as u64) * 16u64;
        let offsets_offset = centroids_offset + (nlist as u64) * 28u64;
        let records_offset = offsets_offset + ((nlist as u64) + 1) * 4;
        let end = records_offset + (count as u64) * 30u64;
        if (bytes.len() as u64) < end {
            return Err(IvfLoadError::CorruptPartitionedLayout);
        }
        Self::assemble(
            bytes,
            count as usize,
            nlist as usize,
            partition_bits as usize,
            partition_count as usize,
            partition_offset as usize,
            centroids_offset as usize,
            offsets_offset as usize,
            records_offset as usize,
        )
    }

    /// Reads the regions of a file whose header and size were found sound.
    #[verifier::rlimit(60)]
    fn assemble(
        bytes: &[u8],
        count: usize,
        nlist: usize,
        partition_bits: usize,
        partition_count: usize,
        partition_offset: usize,
        centroids_offset: usize,
        offsets_offset: usize,
        records_offset: usize,
    ) -> (result: Result<IvfIndex, IvfLoadError>)
        requires
            bytes.len() >= spec_ivf_header_bytes(bytes@),
            bytes@.take(8) == ivf_magic_v1() || bytes@.take(8) == ivf_magic_v2(),
            spec_le_u32(bytes@, 8) == VERSION,
            spec_ivf_v2(bytes@) ==> 1 <= spec_ivf_partition_bits(bytes@) < 32
                && spec_ivf_partition_count(bytes@) == spec_pow2(
                spec_ivf_partition_bits(bytes@) as nat,
            ),
            bytes.len() >= spec_ivf_end(bytes@),
            count == spec_ivf_count(bytes@),
            nlist == spec_ivf_nlist(bytes@),
            partition_bits == spec_ivf_partition_bits(bytes@),
            partition_count == spec_ivf_partition_count(bytes@),
            partition_offset == spec_ivf_header_bytes(bytes@),
            centroids_offset == spec_ivf_centroids_at(bytes@),
            offsets_offset == spec_ivf_offsets_at(bytes@),
            records_offset == spec_ivf_records_at(bytes@),
        ensures
            result matches Ok(index) && ivf_read_from(bytes@, index),
    {
        let offsets = read_offsets(bytes, offsets_offset, nlist + 1);
        assert(offsets@ =~= spec_ivf_offsets(bytes@));
        let records = read_records(bytes, records_offset, count);
        let partitions = read_partitions(bytes, partition_offset, partition_count);
        assert(partitions@ =~= spec_ivf_partitions(bytes@));
        let centroids = read_centroids(bytes, centroids_offset, nlist);
        let list_purity = build_list_purity_from_slices(
            nlist,
            offsets.as_slice(),
            records.as_slice(),
        );
        assert(list_purity@ =~= spec_purity_of(records@, offsets@, nlist as int));
        Ok(
            IvfIndex {
                count,
                nlist,
                partition_bits,
                partitions,
                centroids,
                offsets,
                records,
                list_purity,
            },
        )
    }

    /// Number of reference records.
    pub fn len(&self) -> (n: usize)
        ensures
            n == self.spec_records().len(),
    {
        proof {
            use_type_invariant(self);
        }
        self.count
    }
}

fn has_ivf_magic(bytes: &[u8], last: u8) -> (ok: bool)
    requires
        bytes.len() >= 8,
        last == 49u8 || last == 50u8,
    ensures
        last == 49u8 ==> ok == (bytes@.take(8) == ivf_magic_v1()),
        last == 50u8 ==> ok == (bytes@.take(8) == ivf_magic_v2()),
{
    let ok = bytes[0] == 82u8 && bytes[1] == 50u8 && bytes[2] == 54u8 && bytes[3] == 73u8
        && bytes[4] == 86u8 && bytes[5] == 70u8 && bytes[6] == 48u8 && bytes[7] == last;
    proof {
        if ok {
            if last == 49u8 {
                assert(bytes@.take(8) =~= ivf_magic_v1());
            } else {
                assert(bytes@.take(8) =~= ivf_magic_v2());
            }
        } else {
            if bytes@.take(8) == ivf_magic_v1() {
                assert(bytes@.take(8)[0] == 82u8);
            }
            if bytes@.take(8) == ivf_magic_v2() {
                assert(bytes@.take(8)[0] == 82u8);
            }
        }
    }
    ok
}

fn pow2_u64(n: u32) -> (p: u64)
    requires
        n < 32,
    ensures
        p == spec_pow2(n as nat),
{
    let mut p: u64 = 1;
    let mut i: u32 = 0;
    while i < n
        invariant
            i <= n < 32,
            p == spec_pow2(i as nat),
            p <= 0x1_0000_0000,
        decreases n - i,
    {
        proof {
            lemma_pow2_at_least(31, i as nat);
            reveal_with_fuel(spec_pow2, 32);
            assert(spec_pow2(31) == 0x8000_0000);
        }
        p = p * 2;
        i = i + 1;
    }
    p
}

fn read_offsets(bytes: &[u8], at: usize, n: usize) -> (offsets: Vec<u32>)
    requires
        at + 4 * n <= bytes.len(),
    ensures
        offsets@ == Seq::new(n as nat, |l: int| spec_le_u32(bytes@, at + 4 * l) as u32),
{
    let mut offsets: Vec<u32> = Vec::new();
    let mut l: usize = 0;
    while l < n
        invariant
            l <= n,
            at + 4 * n <= bytes.len(),
            offsets@.len() == l,
            forall|e: int| 0 <= e < l ==> #[trigger] offsets@[e] == spec_le_u32(bytes@, at + 4 * e),
        decreases n - l,
    {
        offsets.push(read_u32_le(bytes, at + 4 * l));
        l = l + 1;
    }
    assert(offsets@ =~= Seq::new(n as nat, |l: int| spec_le_u32(bytes@, at + 4 * l) as u32));
    offsets
}

fn read_partitions(bytes: &[u8], at: usize, n: usize) -> (partitions: Vec<IvfPartitionMeta>)
    requires
        at + PARTITION_META_BYTES * n <= bytes.len(),
    ensures
        partitions@ == Seq::new(
            n as nat,
            |p: int| spec_partition_meta_at(bytes@, at + PARTITION_META_BYTES * p),
        ),
{
    let mut partitions: Vec<IvfPartitionMeta> = Vec::new();
    let mut p: usize = 0;
    while p < n
        invariant
            p <= n,
            at + PARTITION_META_BYTES * n <= bytes.len(),
            partitions@.len() == p,
            forall|e: int|
                0 <= e < p ==> #[trigger] partitions@[e] == spec_partition_meta_at(
                    bytes@,
                    at + PARTITION_META_BYTES * e,
                ),
        decreases n - p,
    {
        let base = at + PARTITION_META_BYTES * p;
        partitions.push(
            IvfPartitionMeta {
                centroid_start: read_u32_le(bytes, base),
                centroid_count: read_u32_le(bytes, base + 4),
                record_start: read_u32_le(bytes, base + 8),
                record_count: read_u32_le(bytes, base + 12),
            },
        );
        p = p + 1;
    }
    assert(partitions@ =~= Seq::new(
        n as nat,
        |p: int| spec_partition_meta_at(bytes@, at + PARTITION_META_BYTES * p),
    ));
    partitions
}

fn read_centroids(bytes: &[u8], at: usize, n: usize) -> (centroids: Vec<[i16; DIMENSIONS]>)
    requires
        at + VECTOR_BYTES * n <= bytes.len(),
    ensures
        centroids@.len() == n,
        forall|c: int|
            0 <= c < n ==> (#[trigger] centroids@[c])@ == spec_vector_at(
                bytes@,
                at + VECTOR_BYTES * c,
            ),
{
    let mut centroids: Vec<[i16; DIMENSIONS]> = Vec::new();
    let mut c: usize = 0;
    while c < n
        invariant
            c <= n,
            at + VECTOR_BYTES * n <= bytes.len(),
            centroids@.len() == c,
            forall|e: int|
                0 <= e < c ==> (#[trigger] centroids@[e])@ == spec_vector_at(
                    bytes@,
                    at + VECTOR_BYTES * e,
                ),
        decreases n - c,
    {
        centroids.push(read_vector(bytes, at + VECTOR_BYTES * c));
        c = c + 1;
    }
    centroids
}

fn read_records(bytes: &[u8], at: usize, n: usize) -> (records: Vec<PackedRecord>)
    requires
        at + RECORD_BYTES * n <= bytes.len(),
    ensures
        records@.len() == n,
        forall|i: int| 0 <= i < n ==> record_at(bytes@, at + RECORD_BYTES * i, #[trigger] records@[i]),
{
    let mut records: Vec<PackedRecord> = Vec::new();
    let mut i: usize = 0;
    while i < n
        invariant
            i <= n,
            at + RECORD_BYTES * n <= bytes.len(),
            records@.len() == i,
            forall|e: int|
                0 <= e < i ==> record_at(bytes@, at + RECORD_BYTES * e, #[trigger] records@[e]),
        decreases n - i,
    {
        records.push(read_record(bytes, at + RECORD_BYTES * i));
        i = i + 1;
    }
    records
}

// ---------------------------------------------------------------------------
// Searching

/// How many lists a search probes: `nprobe`, at least one, and no more than there are
/// lists in the range (at least one).
pub open spec fn spec_probe_count(nprobe: int, count: int) -> int {
    let wanted = if nprobe < 1 {
        1
    } else {
        nprobe
    };
    let available = if count < 1 {
        1
    } else {
        count
    };
    if wanted <= available {
        wanted
    } else {
        available
    }
}

/// The squared distance from `query` to each centroid of the range, in order.
pub open spec fn spec_centroid_keys(
    query: Seq<i16>,
    centroids: Seq<[i16; DIMENSIONS]>,
    start: int,
    count: int,
) -> Seq<int> {
    Seq::new(count as nat, |i: int| spec_squared_distance(query, centroids[start + i]@))
}

/// The lists to probe, nearest centroid first (ties to the lower list), each with its
/// centroid's squared distance; a range with no centroid gives its start as the one
/// list, at a distance no centroid reaches.
pub open spec fn spec_best_lists(
    query: Seq<i16>,
    centroids: Seq<[i16; DIMENSIONS]>,
    nprobe: int,
    start: int,
    count: int,
) -> Seq<(i64, usize)> {
    let k = spec_probe_count(nprobe, count);
    let keys = spec_centroid_keys(query, centroids, start, count);
    let chosen = top_k(keys, k as nat);
    Seq::new(
        k as nat,
        |a: int|
            if a < chosen.len() {
                (keys[chosen[a]] as i64, (start + chosen[a]) as usize)
            } else {
                (i64::MAX, start as usize)
            },
    )
}

/// The records of the given lists, list after list.
pub open spec fn spec_list_candidates(
    records: Seq<PackedRecord>,
    offsets: Seq<u32>,
    lists: Seq<(i64, usize)>,
) -> Seq<PackedRecord>
    decreases lists.len(),
{
    if lists.len() == 0 {
        Seq::empty()
    } else {
        let bounds = spec_list_bounds(records.len() as int, offsets, lists.last().1 as int);
        spec_list_candidates(records, offsets, lists.drop_last()) + records.subrange(
            bounds.0,
            bounds.1,
        )
    }
}

/// The first of two best lists' distances and the second, as the margin test takes
/// them: the second distance, and the first one but at least 1.
pub open spec fn spec_margin_args(lists: Seq<(i64, usize)>) -> (i64, i64) {
    (
        lists[1].0,
        if lists[0].0 < 1 {
            1i64
        } else {
            lists[0].0
        },
    )
}

proof fn lemma_candidates_prefix(
    records: Seq<PackedRecord>,
    offsets: Seq<u32>,
    lists: Seq<(i64, usize)>,
    li: int,
)
    requires
        0 <= li <= lists.len(),
    ensures
        spec_list_candidates(records, offsets, lists.take(li)).len() <= spec_list_candidates(
            records,
            offsets,
            lists,
        ).len(),
        forall|p: int|
            0 <= p < spec_list_candidates(records, offsets, lists.take(li)).len() ==> (
            #[trigger] spec_list_candidates(records, offsets, lists)[p]) == spec_list_candidates(
                records,
                offsets,
                lists.take(li),
            )[p],
    decreases lists.len() - li,
{
    if li < lists.len() {
        lemma_candidates_prefix(records, offsets, lists, li + 1);
        assert(lists.take(li + 1).drop_last() =~= lists.take(li));
    } else {
        assert(lists.take(li) =~= lists);
    }
}

/// The records of any lists are labelled 0 or 1 when all records are.
pub proof fn lemma_candidates_binary(
    records: Seq<PackedRecord>,
    offsets: Seq<u32>,
    lists: Seq<(i64, usize)>,
)
    requires
        crate::index::labels_are_binary(records),
    ensures
        crate::index::labels_are_binary(spec_list_candidates(records, offsets, lists)),
    decreases lists.len(),
{
    if lists.len() > 0 {
        lemma_candidates_binary(records, offsets, lists.drop_last());
        let front = spec_list_candidates(records, offsets, lists.drop_last());
        let bounds = spec_list_bounds(records.len() as int, offsets, lists.last().1 as int);
        let back = records.subrange(bounds.0, bounds.1);
        assert forall|i: int| 0 <= i < (front + back).len() implies (#[trigger] (front
            + back)[i]).label <= 1 by {
            if i >= front.len() {
                assert((front + back)[i] == records[bounds.0 + i - front.len()]);
            }
        }
    }
}

impl IvfIndex {
    /// The centroid range a query searches: its partition's, cut short at the last list,
    /// unless the index has no partitions or that partition holds no centroid or no
    /// record.
    pub open spec fn spec_probe_range(&self, query: Seq<i16>) -> (int, int) {
        if self.spec_partition_bits() == 0 {
            (0, self.spec_nlist())
        } else {
            let p = self.spec_partitions()[spec_partition_key(query, self.spec_partition_bits())];
            if p.record_count == 0 || p.centroid_count == 0 {
                (0, self.spec_nlist())
            } else if p.centroid_start >= self.spec_nlist() {
                (p.centroid_start as int, 0)
            } else if p.centroid_count <= self.spec_nlist() - p.centroid_start {
                (p.centroid_start as int, p.centroid_count as int)
            } else {
                (p.centroid_start as int, self.spec_nlist() - p.centroid_start)
            }
        }
    }

    /// The lists probed for `query` within its centroid range.
    pub open spec fn spec_probed_lists(&self, query: Seq<i16>, nprobe: int) -> Seq<(i64, usize)> {
        let (start, count) = self.spec_probe_range(query);
        spec_best_lists(query, self.spec_centroids(), nprobe, start, count)
    }

    /// Frauds among the five records nearest to `query` within the given lists.
    pub open spec fn spec_score(&self, query: Seq<i16>, lists: Seq<(i64, usize)>) -> int {
        spec_fraud_count(
            query,
            spec_list_candidates(self.spec_records(), self.spec_offsets(), lists),
        )
    }

    /// What `fraud_count_top5` gives.
    pub open spec fn spec_fraud_count_top5(&self, query: Seq<i16>, nprobe: int) -> int {
        self.spec_score(query, self.spec_probed_lists(query, nprobe))
    }

    /// The lists the adaptive search ranks: as many as `high_nprobe` asks.
    pub open spec fn spec_adaptive_lists(&self, query: Seq<i16>, high_nprobe: int) -> Seq<
        (i64, usize),
    > {
        let (start, count) = self.spec_probe_range(query);
        spec_best_lists(
            query,
            self.spec_centroids(),
            spec_probe_count(high_nprobe, count),
            start,
            count,
        )
    }

    /// What `fraud_count_top5_adaptive` gives when the margin test answers `wide`: the
    /// search keeps `low_nprobe` lists when the margin is wide (or fewer than two lists
    /// were ranked), `high_nprobe` lists otherwise.
    pub open spec fn spec_fraud_count_top5_adaptive(
        &self,
        query: Seq<i16>,
        low_nprobe: int,
        high_nprobe: int,
        wide: bool,
    ) -> int {
        let (start, count) = self.spec_probe_range(query);
        let high = spec_probe_count(high_nprobe, count);
        let low = if low_nprobe < 1 {
            if 1 <= high {
                1
            } else {
                high
            }
        } else if low_nprobe <= high {
            low_nprobe
        } else {
            high
        };
        let lists = self.spec_adaptive_lists(query, high_nprobe);
        let kept = if lists.len() >= 2 && !wide {
            high
        } else {
            low
        };
        self.spec_score(query, lists.take(kept))
    }

    /// What `fraud_count_top5_pure_gate` gives when the margin test answers `wide`: with
    /// a wide margin and a nearest list of one label only, that label decides (0 or 5);
    /// otherwise the records of the probed lists vote.
    pub open spec fn spec_fraud_count_top5_pure_gate(
        &self,
        query: Seq<i16>,
        nprobe: int,
        wide: bool,
    ) -> int {
        let lists = self.spec_probed_lists(query, nprobe);
        if lists.len() >= 2 && wide && self.spec_purity()[lists[0].1 as int]
            == LIST_PURITY_ALL_LEGIT {
            0
        } else if lists.len() >= 2 && wide && self.spec_purity()[lists[0].1 as int]
            == LIST_PURITY_ALL_FRAUD {
            KNN_K as int
        } else {
            self.spec_score(query, lists)
        }
    }

    /// Number of frauds among the five references nearest to `query` within the
    /// `nprobe` lists whose centroids lie nearest to it (within its partition, where the
    /// index has partitions).
    pub fn fraud_count_top5(&self, query: &[i16; DIMENSIONS], nprobe: usize) -> (count: u8)
        ensures
            count == self.spec_fraud_count_top5(query@, nprobe as int),
            crate::index::labels_are_binary(self.spec_records()) ==> count <= KNN_K,
    {
        let (start, centroid_count) = self.probe_range(query);
        let best_lists = self.select_best_lists(query, nprobe, start, centroid_count);
        self.score_records(query, best_lists.as_slice())
    }

    /// Like `fraud_count_top5`, but ranks `high_nprobe` lists and keeps only the first
    /// `low_nprobe` of them when `margin_is_wide(second, first)` says the second-best
    /// centroid distance stands far enough from the best one (at least 1).
    pub fn fraud_count_top5_adaptive<F: Fn(i64, i64) -> bool>(
        &self,
        query: &[i16; DIMENSIONS],
        low_nprobe: usize,
        high_nprobe: usize,
        margin_is_wide: &F,
    ) -> (count: u8)
        requires
            forall|second: i64, first: i64| margin_is_wide.requires((second, first)),
        ensures
            exists|wide: bool|
                {
                    &&& self.spec_adaptive_lists(query@, high_nprobe as int).len() >= 2
                        ==> margin_is_wide.ensures(
                        spec_margin_args(self.spec_adaptive_lists(query@, high_nprobe as int)),
                        wide,
                    )
                    &&& count == self.spec_fraud_count_top5_adaptive(
                        query@,
                        low_nprobe as int,
                        high_nprobe as int,
                        wide,
                    )
                },
            crate::index::labels_are_binary(self.spec_records()) ==> count <= KNN_K,
    {
        let (start, centroid_count) = self.probe_range(query);
        let high = probe_count(high_nprobe, centroid_count);
        let low = if low_nprobe < 1 {
            if 1 <= high {
                1
            } else {
                high
            }
        } else if low_nprobe <= high {
            low_nprobe
        } else {
            high
        };
        let best_lists = self.select_best_lists(query, high, start, centroid_count);
        assert(best_lists@ == self.spec_adaptive_lists(query@, high_nprobe as int));
        let mut wide = true;
        let selected_len = if best_lists.len() >= 2 {
            let first = if best_lists[0].0 < 1 {
                1
            } else {
                best_lists[0].0
            };
            wide = margin_is_wide(best_lists[1].0, first);
            if wide {
                low
            } else {
                high
            }
        } else {
            low
        };
        let kept = slice_prefix(best_lists.as_slice(), selected_len);
        let count = self.score_records(query, kept);
        proof {
            assert(self.spec_adaptive_lists(query@, high_nprobe as int).len() >= 2
                ==> margin_is_wide.ensures(
                spec_margin_args(self.spec_adaptive_lists(query@, high_nprobe as int)),
                wide,
            ));
            assert(count == self.spec_fraud_count_top5_adaptive(
                query@,
                low_nprobe as int,
                high_nprobe as int,
                wide,
            ));
        }
        count
    }

    /// Like `fraud_count_top5`, but when `margin_is_wide(second, first)` says the
    /// second-best centroid distance stands far enough from the best one (at least 1),
    /// and the nearest list holds one label only, answers with that label alone.
    pub fn fraud_count_top5_pure_gate<F: Fn(i64, i64) -> bool>(
        &self,
        query: &[i16; DIMENSIONS],
        nprobe: usize,
        margin_is_wide: &F,
    ) -> (count: u8)
        requires
            forall|second: i64, first: i64| margin_is_wide.requires((second, first)),
        ensures
            exists|wide: bool|
                {
                    &&& self.spec_probed_lists(query@, nprobe as int).len() >= 2
                        ==> margin_is_wide.ensures(
                        spec_margin_args(self.spec_probed_lists(query@, nprobe as int)),
                        wide,
                    )
                    &&& count == self.spec_fraud_count_top5_pure_gate(
                        query@,
                        nprobe as int,
                        wide,
                    )
                },
            crate::index::labels_are_binary(self.spec_records()) ==> count <= KNN_K,
    {
        proof {
            use_type_invariant(self);
        }
        let (start, centroid_count) = self.probe_range(query);
        let best_lists = self.select_best_lists(query, nprobe, start, centroid_count);
        let mut wide = true;
        if best_lists.len() >= 2 {
            let top_list_index = best_lists[0].1;
            let top_purity = self.list_purity[top_list_index];
            let first = if best_lists[0].0 < 1 {
                1
            } else {
                best_lists[0].0
            };
            wide = margin_is_wide(best_lists[1].0, first);
            assert(margin_is_wide.ensures(spec_margin_args(best_lists@), wide));
            assert(top_purity == self.spec_purity()[best_lists@[0].1 as int]);
            if wide {
                if top_purity == LIST_PURITY_ALL_LEGIT {
                    assert(0 == self.spec_fraud_count_top5_pure_gate(query@, nprobe as int, wide));
                    return 0;
                }
                if top_purity == LIST_PURITY_ALL_FRAUD {
                    assert(5 == self.spec_fraud_count_top5_pure_gate(query@, nprobe as int, wide));
                    return 5;
                }
            }
        }
        let count = self.score_records(query, best_lists.as_slice());
        assert(count == self.spec_fraud_count_top5_pure_gate(query@, nprobe as int, wide));
        count
    }

    fn probe_range(&self, query: &[i16; DIMENSIONS]) -> (range: (usize, usize))
        ensures
            range.0 == self.spec_probe_range(query@).0,
            range.1 == self.spec_probe_range(query@).1,
            range.1 == 0 || range.0 + range.1 <= self.spec_nlist(),
    {
        proof {
            use_type_invariant(self);
        }
        if self.partition_bits == 0 {
            return (0, self.nlist);
        }
        let key = partition_key(query, self.partition_bits);
        proof {
            lemma_partition_key_bound(query@, self.partition_bits as int);
        }
        let partition = self.partitions[key];
        if partition.record_count == 0 || partition.centroid_count == 0 {
            return (0, self.nlist);
        }
        let start = partition.centroid_start as usize;
        if start >= self.nlist {
            (start, 0)
        } else if partition.centroid_count as usize <= self.nlist - start {
            (start, partition.centroid_count as usize)
        } else {
            (start, self.nlist - start)
        }
    }

    fn select_best_lists(
        &self,
        query: &[i16; DIMENSIONS],
        nprobe: usize,
        centroid_start: usize,
        centroid_count: usize,
    ) -> (best_lists: Vec<(i64, usize)>)
        requires
            centroid_count == 0 || centroid_start + centroid_count <= self.spec_nlist(),
        ensures
            best_lists@ == spec_best_lists(
                query@,
                self.spec_centroids(),
                nprobe as int,
                centroid_start as int,
                centroid_count as int,
            ),
            centroid_count >= 1 ==> forall|a: int|
                0 <= a < best_lists@.len() ==> (#[trigger] best_lists@[a]).1 < self.spec_nlist(),
    {
        proof {
            use_type_invariant(self);
        }
        let centroid_end = centroid_start + centroid_count;
        let nprobe = probe_count(nprobe, centroid_count);
        let ghost centroids = self.centroids@;
        let ghost keys = spec_centroid_keys(
            query@,
            centroids,
            centroid_start as int,
            centroid_count as int,
        );
        let ghost items = Seq::new(
            centroid_count as nat,
            |i: int| (centroid_start + i) as usize,
        );
        proof {
            assert forall|i: int| 0 <= i < keys.len() implies 0 <= #[trigger] keys[i]
                <= MAX_SQUARED_DISTANCE by {
                lemma_squared_distance_bounds(query@, centroids[centroid_start + i]@);
            }
        }
        let mut best_lists = empty_ranking(nprobe, centroid_start, Ghost(keys), Ghost(items));
        let ghost mut chosen: Seq<int> = Seq::empty();
        let mut centroid_index = centroid_start;
        while centroid_index < centroid_end
            invariant
                centroid_start <= centroid_index <= centroid_end,
                centroid_end == centroid_start + centroid_count,
                centroid_count == 0 || centroid_end <= centroids.len(),
                centroids == self.centroids@,
                nprobe > 0,
                keys == spec_centroid_keys(
                    query@,
                    centroids,
                    centroid_start as int,
                    centroid_count as int,
                ),
                items == Seq::new(centroid_count as nat, |i: int| (centroid_start + i) as usize),
                forall|i: int| 0 <= i < keys.len() ==> 0 <= #[trigger] keys[i]
                    <= MAX_SQUARED_DISTANCE,
                tracks(best_lists@, keys, items, chosen, nprobe as nat, centroid_start),
                is_top_k(keys.take(centroid_index - centroid_start), nprobe as nat, chosen),
            decreases centroid_end - centroid_index,
        {
            let distance = squared_distance_i16(query, &self.centroids[centroid_index]);
            let next = offer(
                &mut best_lists,
                distance,
                centroid_index,
                Ghost(keys),
                Ghost(items),
                Ghost(centroid_index - centroid_start),
                Ghost(chosen),
                Ghost(nprobe as nat),
                Ghost(centroid_start),
            );
            proof {
                chosen = next@;
            }
            centroid_index = centroid_index + 1;
        }
        proof {
            assert(keys.take(centroid_count as int) =~= keys);
            lemma_top_k_is(keys, nprobe as nat, chosen);
            assert(best_lists@ =~= spec_best_lists(
                query@,
                centroids,
                nprobe as int,
                centroid_start as int,
                centroid_count as int,
            ));
            if centroid_count >= 1 {
                assert forall|a: int| 0 <= a < best_lists@.len() implies (
                #[trigger] best_lists@[a]).1 < self.nlist by {
                    assert(a < chosen.len());
                    assert(0 <= chosen[a] < centroid_count);
                }
            }
        }
        best_lists
    }

    /// Offers the records `start..end` to the ranked list; they follow the candidates
    /// `before` within `candidates`.
    fn scan_list(
        &self,
        query: &[i16; DIMENSIONS],
        start: usize,
        end: usize,
        best: &mut Vec<(i64, u8)>,
        Ghost(candidates): Ghost<Seq<PackedRecord>>,
        Ghost(before): Ghost<Seq<PackedRecord>>,
        Ghost(chosen): Ghost<Seq<int>>,
    ) -> (next: Ghost<Seq<int>>)
        requires
            start <= end <= self.spec_records().len(),
            before.len() + (end - start) <= candidates.len(),
            forall|p: int|
                0 <= p < before.len() + (end - start) ==> #[trigger] candidates[p] == (before
                    + self.spec_records().subrange(start as int, end as int))[p],
            forall|i: int|
                0 <= i < candidates.len() ==> 0 <= #[trigger] spec_record_keys(query@, candidates)[i]
                    <= MAX_SQUARED_DISTANCE,
            tracks(
                old(best)@,
                spec_record_keys(query@, candidates),
                spec_record_labels(candidates),
                chosen,
                KNN_K as nat,
                0u8,
            ),
            is_top_k(
                spec_record_keys(query@, candidates).take(before.len() as int),
                KNN_K as nat,
                chosen,
            ),
        ensures
            tracks(
                final(best)@,
                spec_record_keys(query@, candidates),
                spec_record_labels(candidates),
                next@,
                KNN_K as nat,
                0u8,
            ),
            is_top_k(
                spec_record_keys(query@, candidates).take(before.len() + (end - start)),
                KNN_K as nat,
                next@,
            ),
    {
        proof {
            use_type_invariant(self);
        }
        let ghost records = self.records@;
        let ghost keys = spec_record_keys(query@, candidates);
        let ghost labels = spec_record_labels(candidates);
        let ghost after = before + records.subrange(start as int, end as int);
        let ghost mut chosen = chosen;
        let ghost mut n: int = before.len() as int;
        let mut j = start;
        while j < end
            invariant
                start <= j <= end <= records.len(),
                records == self.records@,
                after == before + records.subrange(start as int, end as int),
                before.len() + (end - start) <= candidates.len(),
                forall|p: int| 0 <= p < after.len() ==> #[trigger] candidates[p] == after[p],
                keys == spec_record_keys(query@, candidates),
                labels == spec_record_labels(candidates),
                forall|i: int| 0 <= i < keys.len() ==> 0 <= #[trigger] keys[i]
                    <= MAX_SQUARED_DISTANCE,
                n == before.len() + (j - start),
                tracks(best@, keys, labels, chosen, KNN_K as nat, 0u8),
                is_top_k(keys.take(n), KNN_K as nat, chosen),
            decreases end - j,
        {
            let record = &self.records[j];
            proof {
                assert(candidates[n] == after[n]);
                assert(after[n] == records[j as int]);
            }
            let limit = best[KNN_K - 1].0;
            let distance = squared_distance_pruned(query, &record.vector, limit);
            let next = offer(
                best,
                distance,
                record.label,
                Ghost(keys),
                Ghost(labels),
                Ghost(n),
                Ghost(chosen),
                Ghost(KNN_K as nat),
                Ghost(0u8),
            );
            proof {
                chosen = next@;
                n = n + 1;
            }
            j = j + 1;
        }
        Ghost(chosen)
    }

    #[verifier::rlimit(40)]
    fn score_records(&self, query: &[i16; DIMENSIONS], best_lists: &[(i64, usize)]) -> (count: u8)
        ensures
            count == self.spec_score(query@, best_lists@),
            crate::index::labels_are_binary(self.spec_records()) ==> count <= KNN_K,
    {
        proof {
            use_type_invariant(self);
        }
        let ghost records = self.records@;
        let ghost offsets = self.offsets@;
        let ghost lists = best_lists@;
        let ghost candidates = spec_list_candidates(records, offsets, lists);
        let ghost keys = spec_record_keys(query@, candidates);
        let ghost labels = spec_record_labels(candidates);
        proof {
            assert forall|i: int| 0 <= i < keys.len() implies 0 <= #[trigger] keys[i]
                <= MAX_SQUARED_DISTANCE by {
                lemma_squared_distance_bounds(query@, candidates[i].vector@);
            }
        }
        let mut best = empty_ranking(KNN_K, 0u8, Ghost(keys), Ghost(labels));
        let ghost mut chosen: Seq<int> = Seq::empty();
        let ghost mut n: int = 0;
        let mut li: usize = 0;
        while li < best_lists.len()
            invariant
                li <= lists.len(),
                lists == best_lists@,
                records == self.records@,
                offsets == self.offsets@,
                candidates == spec_list_candidates(records, offsets, lists),
                keys == spec_record_keys(query@, candidates),
                labels == spec_record_labels(candidates),
                forall|i: int| 0 <= i < keys.len() ==> 0 <= #[trigger] keys[i]
                    <= MAX_SQUARED_DISTANCE,
                n == spec_list_candidates(records, offsets, lists.take(li as int)).len(),
                n <= keys.len(),
                tracks(best@, keys, labels, chosen, KNN_K as nat, 0u8),
                is_top_k(keys.take(n), KNN_K as nat, chosen),
            decreases lists.len() - li,
        {
            let list_index = best_lists[li].1;
            let (start, end) = list_bounds(self.offsets.as_slice(), self.records.len(), list_index);
            let ghost before = spec_list_candidates(records, offsets, lists.take(li as int));
            let ghost after = spec_list_candidates(records, offsets, lists.take(li + 1));
            proof {
                lemma_candidates_prefix(records, offsets, lists, li + 1);
                assert(lists.take(li + 1).drop_last() =~= lists.take(li as int));
                assert(after == before + records.subrange(start as int, end as int));
                assert(after.len() == before.len() + (end - start));
                assert forall|p: int| 0 <= p < before.len() + (end - start) implies #[trigger] candidates[p] == (before
                    + self.records@.subrange(start as int, end as int))[p] by {
                    assert(candidates[p] == after[p]);
                }
            }
            let next = self.scan_list(
                query,
                start,
                end,
                &mut best,
                Ghost(candidates),
                Ghost(before),
                Ghost(chosen),
            );
            proof {
                chosen = next@;
                n = n + (end - start);
            }
            li = li + 1;
        }
        proof {
            assert(lists.take(lists.len() as int) =~= lists);
            assert(keys.take(n) =~= keys);
            lemma_top_k_is(keys, KNN_K as nat, chosen);
        }
        let count = sum_labels(&best, Ghost(keys), Ghost(labels), Ghost(chosen));
        proof {
            if crate::index::labels_are_binary(records) {
                lemma_candidates_binary(records, offsets, lists);
                crate::index::lemma_binary_fraud_count(query@, candidates);
            }
        }
        count
    }
}

fn probe_count(nprobe: usize, count: usize) -> (k: usize)
    ensures
        k == spec_probe_count(nprobe as int, count as int),
        k >= 1,
{
    let wanted = if nprobe < 1 {
        1
    } else {
        nprobe
    };
    let available = if count < 1 {
        1
    } else {
        count
    };
    if wanted <= available {
        wanted
    } else {
        available
    }
}

fn slice_prefix(lists: &[(i64, usize)], n: usize) -> (prefix: &[(i64, usize)])
    requires
        n <= lists@.len(),
    ensures
        prefix@ == lists@.take(n as int),
{
    let (front, _) = lists.split_at(n);
    front
}

fn squared_distance_i16(left: &[i16; DIMENSIONS], right: &[i16; DIMENSIONS]) -> (distance: i64)
    ensures
        distance == spec_squared_distance(left@, right@),
        0 <= distance <= MAX_SQUARED_DISTANCE,
{
    squared_distance(left, right)
}

// ---------------------------------------------------------------------------
// How the searches relate

/// Where two lists or more are ranked, the first two are the two centroids of the range
/// nearest to the query (ties to the lower list), each with its squared distance; and
/// the margin test is handed the distance of the second nearest, then that of the
/// nearest (at least 1).
pub proof fn lemma_margin_of_two_nearest_centroids(
    query: Seq<i16>,
    centroids: Seq<[i16; DIMENSIONS]>,
    nprobe: int,
    start: int,
    count: int,
)
    requires
        query.len() == DIMENSIONS,
        0 <= start,
        start + count <= centroids.len(),
        spec_best_lists(query, centroids, nprobe, start, count).len() >= 2,
    ensures
        exists|a: int, b: int|
            #![trigger centroids[a], centroids[b]]
            {
                let lists = spec_best_lists(query, centroids, nprobe, start, count);
                let da = spec_squared_distance(query, centroids[a]@);
                let db = spec_squared_distance(query, centroids[b]@);
                &&& start <= a < start + count
                &&& start <= b < start + count
                &&& a != b
                &&& lists[0] == (da as i64, a as usize)
                &&& lists[1] == (db as i64, b as usize)
                &&& forall|c: int|
                    start <= c < start + count ==> da <= #[trigger] spec_squared_distance(
                        query,
                        centroids[c]@,
                    )
                &&& forall|c: int|
                    start <= c < start + count && c != a ==> db <= #[trigger] spec_squared_distance(
                        query,
                        centroids[c]@,
                    )
                &&& spec_margin_args(lists) == (
                    db as i64,
                    if da < 1 {
                        1i64
                    } else {
                        da as i64
                    },
                )
            },
{
    let lists = spec_best_lists(query, centroids, nprobe, start, count);
    let k = spec_probe_count(nprobe, count);
    let keys = spec_centroid_keys(query, centroids, start, count);
    crate::knn::lemma_top_k_exists(keys, k as nat);
    let chosen = top_k(keys, k as nat);
    assert(k >= 2);
    assert(count >= 2);
    assert(chosen.len() == k);
    let a = start + chosen[0];
    let b = start + chosen[1];
    assert(crate::knn::ranks_before(keys, chosen[0], chosen[1]));
    assert(chosen[0] != chosen[1]);
    crate::index::lemma_squared_distance_bounds(query, centroids[a]@);
    crate::index::lemma_squared_distance_bounds(query, centroids[b]@);
    assert(keys[chosen[0]] == spec_squared_distance(query, centroids[a]@));
    assert(keys[chosen[1]] == spec_squared_distance(query, centroids[b]@));
    assert(lists[0] == (keys[chosen[0]] as i64, a as usize));
    assert(lists[1] == (keys[chosen[1]] as i64, b as usize));
    assert forall|c: int| start <= c < start + count implies keys[chosen[0]]
        <= #[trigger] spec_squared_distance(query, centroids[c]@) && (c != a ==> keys[chosen[1]]
        <= spec_squared_distance(query, centroids[c]@)) by {
        let i = c - start;
        assert(keys[i] == spec_squared_distance(query, centroids[c]@));
        if chosen.contains(i) {
            let t = choose|t: int| 0 <= t < chosen.len() && chosen[t] == i;
            if t >= 1 {
                assert(crate::knn::ranks_before(keys, chosen[0], chosen[t]));
            }
            if t >= 2 {
                assert(crate::knn::ranks_before(keys, chosen[1], chosen[t]));
            }
        } else {
            assert(crate::knn::ranks_before(keys, chosen[0], i));
            assert(crate::knn::ranks_before(keys, chosen[1], i));
        }
    }
}

/// The `n1` nearest lists are the first `n1` of the `n2` nearest lists.
proof fn lemma_best_lists_prefix(
    query: Seq<i16>,
    centroids: Seq<[i16; DIMENSIONS]>,
    n1: int,
    n2: int,
    start: int,
    count: int,
)
    requires
        0 <= count,
        1 <= n1 <= n2,
        n2 <= count || n2 == 1,
    ensures
        spec_best_lists(query, centroids, n1, start, count) == spec_best_lists(
            query,
            centroids,
            n2,
            start,
            count,
        ).take(n1),
{
    let keys = spec_centroid_keys(query, centroids, start, count);
    crate::knn::lemma_top_k_exists(keys, n1 as nat);
    crate::knn::lemma_top_k_exists(keys, n2 as nat);
    crate::knn::lemma_top_k_prefix(keys, n1 as nat, n2 as nat);
    let few = spec_best_lists(query, centroids, n1, start, count);
    let many = spec_best_lists(query, centroids, n2, start, count);
    assert(few =~= many.take(n1));
}

/// The adaptive search gives what the plain search gives with the lists it keeps:
/// `high_nprobe` of them when the margin is narrow, else `low_nprobe` of them (at least
/// one, at most `high_nprobe`).
pub proof fn lemma_adaptive_is_plain_search(
    index: IvfIndex,
    query: Seq<i16>,
    low_nprobe: int,
    high_nprobe: int,
    wide: bool,
)
    ensures
        ({
            let narrow = index.spec_adaptive_lists(query, high_nprobe).len() >= 2 && !wide;
            let low = if low_nprobe < 1 {
                1
            } else {
                low_nprobe
            };
            let high = if high_nprobe < 1 {
                1
            } else {
                high_nprobe
            };
            index.spec_fraud_count_top5_adaptive(query, low_nprobe, high_nprobe, wide)
                == index.spec_fraud_count_top5(
                query,
                if narrow {
                    high_nprobe
                } else if low <= high {
                    low
                } else {
                    high
                },
            )
        }),
{
    let (start, count) = index.spec_probe_range(query);
    let high = spec_probe_count(high_nprobe, count);
    let lists = index.spec_adaptive_lists(query, high_nprobe);
    assert(lists == spec_best_lists(query, index.spec_centroids(), high_nprobe, start, count));
    assert(lists.len() == high);
    let low = if low_nprobe < 1 {
        if 1 <= high {
            1
        } else {
            high
        }
    } else if low_nprobe <= high {
        low_nprobe
    } else {
        high
    };
    if lists.len() >= 2 && !wide {
        assert(lists.take(high) =~= lists);
    } else {
        lemma_best_lists_prefix(query, index.spec_centroids(), low, high, start, count);
    }
}

/// Where the nearest list does not decide alone (a narrow margin, fewer than two lists,
/// or a nearest list not marked as holding one label only), the pure-list search is the
/// plain search.
pub proof fn lemma_pure_gate_is_plain_search(
    index: IvfIndex,
    query: Seq<i16>,
    nprobe: int,
    wide: bool,
)
    ensures
        ({
            let lists = index.spec_probed_lists(query, nprobe);
            let decided = lists.len() >= 2 && wide && index.spec_purity()[lists[0].1 as int]
                != LIST_PURITY_MIXED;
            !decided ==> index.spec_fraud_count_top5_pure_gate(query, nprobe, wide)
                == index.spec_fraud_count_top5(query, nprobe)
        }),
{
}

/// Two or more probed lists all lie among the index's lists; the nearest one is the
/// first.
proof fn lemma_probed_lists_in_range(index: IvfIndex, query: Seq<i16>, nprobe: int)
    requires
        index.spec_probed_lists(query, nprobe).len() >= 2,
    ensures
        0 <= index.spec_probed_lists(query, nprobe)[0].1 < index.spec_nlist(),
{
    let (start, count) = index.spec_probe_range(query);
    let keys = spec_centroid_keys(query, index.spec_centroids(), start, count);
    let k = spec_probe_count(nprobe, count);
    crate::knn::lemma_top_k_exists(keys, k as nat);
    let chosen = top_k(keys, k as nat);
    assert(count >= 2);
    assert(chosen.len() == k);
    assert(0 <= chosen[0] < count);
}

/// With the purity of its lists as read, an index answers a wide margin whose nearest
/// list holds records of one label `b` (0 or 1) only with `5 * b`, whatever the
/// records' distances.
pub proof fn lemma_pure_list_decides(index: IvfIndex, query: Seq<i16>, nprobe: int, label: u8)
    requires
        index.spec_purity() == spec_purity_of(
            index.spec_records(),
            index.spec_offsets(),
            index.spec_nlist(),
        ),
        label <= 1,
        index.spec_probed_lists(query, nprobe).len() >= 2,
        ({
            let bounds = spec_list_bounds(
                index.spec_records().len() as int,
                index.spec_offsets(),
                index.spec_probed_lists(query, nprobe)[0].1 as int,
            );
            &&& bounds.0 < bounds.1
            &&& forall|i: int|
                bounds.0 <= i < bounds.1 ==> (#[trigger] index.spec_records()[i]).label == label
        }),
    ensures
        index.spec_fraud_count_top5_pure_gate(query, nprobe, true) == KNN_K * label,
{
    lemma_probed_lists_in_range(index, query, nprobe);
    let l = index.spec_probed_lists(query, nprobe)[0].1 as int;
    let bounds = spec_list_bounds(index.spec_records().len() as int, index.spec_offsets(), l);
    assert(index.spec_records()[bounds.0].label == label);
    assert(index.spec_purity()[l] == spec_list_purity(index.spec_records(), bounds.0, bounds.1));
}

/// With the purity of its lists as read, an index whose nearest probed list is empty or
/// holds both labels answers the pure-list search as the plain search.
pub proof fn lemma_mixed_list_is_plain_search(
    index: IvfIndex,
    query: Seq<i16>,
    nprobe: int,
    wide: bool,
)
    requires
        index.spec_purity() == spec_purity_of(
            index.spec_records(),
            index.spec_offsets(),
            index.spec_nlist(),
        ),
        index.spec_probed_lists(query, nprobe).len() >= 2,
        ({
            let bounds = spec_list_bounds(
                index.spec_records().len() as int,
                index.spec_offsets(),
                index.spec_probed_lists(query, nprobe)[0].1 as int,
            );
            bounds.0 >= bounds.1 || exists|i: int, j: int|
                bounds.0 <= i < bounds.1 && bounds.0 <= j < bounds.1
                    && #[trigger] index.spec_records()[i].label
                    != #[trigger] index.spec_records()[j].label
        }),
    ensures
        index.spec_fraud_count_top5_pure_gate(query, nprobe, wide) == index.spec_fraud_count_top5(
            query,
            nprobe,
        ),
{
    lemma_probed_lists_in_range(index, query, nprobe);
    let records = index.spec_records();
    let l = index.spec_probed_lists(query, nprobe)[0].1 as int;
    let bounds = spec_list_bounds(records.len() as int, index.spec_offsets(), l);
    assert(index.spec_purity()[l] == spec_list_purity(records, bounds.0, bounds.1));
    if bounds.0 < bounds.1 {
        let (i, j) = choose|i: int, j: int|
            bounds.0 <= i < bounds.1 && bounds.0 <= j < bounds.1 && #[trigger] records[i].label
                != #[trigger] records[j].label;
        assert(records[i].label != records[bounds.0].label || records[j].label
            != records[bounds.0].label);
    }
    assert(index.spec_purity()[l] == LIST_PURITY_MIXED);
}

} // verus!
