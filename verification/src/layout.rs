//! Little-endian fields of the index files: unsigned 32-bit words, signed 16-bit
//! vector components, and the 30-byte reference record.
use vstd::prelude::*;

use crate::vectorize::DIMENSIONS;

verus! {

/// Bytes of one vector: `DIMENSIONS` components of two bytes each.
pub const VECTOR_BYTES: usize = 28;

/// Bytes of one reference record: the vector, the label and a padding byte.
pub const RECORD_BYTES: usize = 30;

/// A reference vector with its label (0 legit, 1 fraud), as stored in the index files.
#[derive(Debug, Clone, Copy, PartialEq, Eq)]
pub struct PackedRecord {
    pub vector: [i16; DIMENSIONS],
    pub label: u8,
    pub _padding: u8,
}

/// The unsigned 16-bit word at `at`, low byte first.
pub open spec fn spec_le_u16(b: Seq<u8>, at: int) -> int {
    b[at] + 256 * b[at + 1]
}

/// The signed 16-bit word at `at`, low byte first, in two's complement.
pub open spec fn spec_le_i16(b: Seq<u8>, at: int) -> int {
    let u = spec_le_u16(b, at);
    if u < 32768 {
        u
    } else {
        u - 65536
    }
}

/// The unsigned 32-bit word at `at`, low byte first.
pub open spec fn spec_le_u32(b: Seq<u8>, at: int) -> int {
    b[at] + 256 * b[at + 1] + 65536 * b[at + 2] + 16777216 * b[at + 3]
}

/// The vector whose components are stored from byte `at` on.
pub open spec fn spec_vector_at(b: Seq<u8>, at: int) -> Seq<i16> {
    Seq::new(DIMENSIONS as nat, |d: int| spec_le_i16(b, at + 2 * d) as i16)
}

/// `record` is what the 30 bytes from `at` on hold.
pub open spec fn record_at(b: Seq<u8>, at: int, record: PackedRecord) -> bool {
    &&& record.vector@ == spec_vector_at(b, at)
    &&& record.label == b[at + 28]
    &&& record._padding == b[at + 29]
}

/// The two bytes of a component, low byte first.
pub open spec fn spec_i16_bytes(v: i16) -> Seq<u8> {
    let u = if v >= 0 {
        v as int
    } else {
        v + 65536
    };
    seq![(u % 256) as u8, (u / 256) as u8]
}

/// The four bytes of a word, low byte first.
pub open spec fn spec_u32_bytes(v: u32) -> Seq<u8> {
    seq![
        (v % 256) as u8,
        ((v / 256) % 256) as u8,
        ((v / 65536) % 256) as u8,
        (v / 16777216) as u8,
    ]
}

/// The bytes of the first `n` components of `v`.
pub open spec fn spec_vector_bytes_from(v: Seq<i16>, n: int) -> Seq<u8>
    decreases n,
{
    if n <= 0 {
        Seq::empty()
    } else {
        spec_vector_bytes_from(v, n - 1) + spec_i16_bytes(v[n - 1])
    }
}

/// The bytes of a vector, component by component.
pub open spec fn spec_vector_bytes(v: Seq<i16>) -> Seq<u8> {
    spec_vector_bytes_from(v, DIMENSIONS as int)
}

/// The bytes of a record.
pub open spec fn spec_record_bytes(r: PackedRecord) -> Seq<u8> {
    spec_vector_bytes(r.vector@) + seq![r.label, r._padding]
}

/// Reads the 32-bit word at `at`.
pub fn read_u32_le(bytes: &[u8], at: usize) -> (v: u32)
    requires
        at + 4 <= bytes.len(),
    ensures
        v == spec_le_u32(bytes@, at as int),
{
    (bytes[at] as u32) + (bytes[at + 1] as u32) * 256 + (bytes[at + 2] as u32) * 65536 + (bytes[at
        + 3] as u32) * 16777216
}

/// Reads the 16-bit component at `at`.
pub fn read_i16_le(bytes: &[u8], at: usize) -> (v: i16)
    requires
        at + 2 <= bytes.len(),
    ensures
        v == spec_le_i16(bytes@, at as int),
{
    let u: u32 = (bytes[at] as u32) + (bytes[at + 1] as u32) * 256;
    if u < 32768 {
        u as i16
    } else {
        ((u as i32) - 65536) as i16
    }
}

/// Reads the vector stored from byte `at` on.
pub fn read_vector(bytes: &[u8], at: usize) -> (v: [i16; DIMENSIONS])
    requires
        at + VECTOR_BYTES <= bytes.len(),
    ensures
        v@ == spec_vector_at(bytes@, at as int),
{
    let mut v = [0i16; 14];
    let mut d: usize = 0;
    while d < DIMENSIONS
        invariant
            d <= DIMENSIONS,
            at + VECTOR_BYTES <= bytes.len(),
            v@.len() == DIMENSIONS,
            forall|e: int| 0 <= e < d ==> v@[e] == spec_le_i16(bytes@, at + 2 * e),
        decreases DIMENSIONS - d,
    {
        v[d] = read_i16_le(bytes, at + 2 * d);
        d = d + 1;
    }
    assert(v@ =~= spec_vector_at(bytes@, at as int));
    v
}

/// Reads the record stored from byte `at` on.
pub fn read_record(bytes: &[u8], at: usize) -> (r: PackedRecord)
    requires
        at + RECORD_BYTES <= bytes.len(),
    ensures
        record_at(bytes@, at as int, r),
{
    PackedRecord {
        vector: read_vector(bytes, at),
        label: bytes[at + 28],
        _padding: bytes[at + 29],
    }
}

/// Appends a 32-bit word, low byte first.
pub fn push_u32_le(out: &mut Vec<u8>, v: u32)
    ensures
        final(out)@ == old(out)@ + spec_u32_bytes(v),
{
    out.push((v % 256) as u8);
    out.push(((v / 256) % 256) as u8);
    out.push(((v / 65536) % 256) as u8);
    out.push((v / 16777216) as u8);
    assert(out@ =~= old(out)@ + spec_u32_bytes(v));
}

/// Appends a 16-bit component, low byte first.
pub fn push_i16_le(out: &mut Vec<u8>, v: i16)
    ensures
        final(out)@ == old(out)@ + spec_i16_bytes(v),
{
    let u: u32 = if v >= 0 {
        v as u32
    } else {
        ((v as i32) + 65536) as u32
    };
    out.push((u % 256) as u8);
    out.push((u / 256) as u8);
    assert(out@ =~= old(out)@ + spec_i16_bytes(v));
}

/// Appends the components of a vector.
pub fn push_vector(out: &mut Vec<u8>, v: &[i16; DIMENSIONS])
    ensures
        final(out)@ == old(out)@ + spec_vector_bytes(v@),
{
    let mut d: usize = 0;
    while d < DIMENSIONS
        invariant
            d <= DIMENSIONS,
            v@.len() == DIMENSIONS,
            out@ == old(out)@ + spec_vector_bytes_from(v@, d as int),
        decreases DIMENSIONS - d,
    {
        push_i16_le(out, v[d]);
        assert(out@ =~= old(out)@ + spec_vector_bytes_from(v@, d + 1));
        d = d + 1;
    }
}

/// Appends a record: its vector, its label and its padding byte.
pub fn push_record(out: &mut Vec<u8>, r: &PackedRecord)
    ensures
        final(out)@ == old(out)@ + spec_record_bytes(*r),
{
    push_vector(out, &r.vector);
    out.push(r.label);
    out.push(r._padding);
    assert(out@ =~= old(out)@ + spec_record_bytes(*r));
}

// ---------------------------------------------------------------------------
// What a read gives back of a write

/// A word appended is the word read back where it was appended.
pub proof fn lemma_u32_roundtrip(prefix: Seq<u8>, v: u32, suffix: Seq<u8>)
    ensures
        spec_le_u32(prefix + spec_u32_bytes(v) + suffix, prefix.len() as int) == v,
{
    let b = prefix + spec_u32_bytes(v) + suffix;
    let p = prefix.len() as int;
    assert(b[p] == v % 256);
    assert(b[p + 1] == (v / 256) % 256);
    assert(b[p + 2] == (v / 65536) % 256);
    assert(b[p + 3] == v / 16777216);
    assert(v % 256 + 256 * ((v / 256) % 256) + 65536 * ((v / 65536) % 256) + 16777216 * (v
        / 16777216) == v) by (nonlinear_arith);
}

/// A component appended is the component read back where it was appended.
pub proof fn lemma_i16_roundtrip(prefix: Seq<u8>, v: i16, suffix: Seq<u8>)
    ensures
        spec_le_i16(prefix + spec_i16_bytes(v) + suffix, prefix.len() as int) == v,
{
    let b = prefix + spec_i16_bytes(v) + suffix;
    let p = prefix.len() as int;
    let u = if v >= 0 {
        v as int
    } else {
        v + 65536
    };
    assert(b[p] == u % 256);
    assert(b[p + 1] == u / 256);
    assert(u % 256 + 256 * (u / 256) == u) by (nonlinear_arith);
}

proof fn lemma_vector_bytes_len(v: Seq<i16>, n: int)
    requires
        0 <= n,
    ensures
        spec_vector_bytes_from(v, n).len() == 2 * n,
    decreases n,
{
    if n > 0 {
        lemma_vector_bytes_len(v, n - 1);
    }
}

proof fn lemma_vector_bytes_from_read(prefix: Seq<u8>, v: Seq<i16>, n: int, suffix: Seq<u8>, d: int)
    requires
        0 <= d < n,
    ensures
        spec_le_i16(prefix + spec_vector_bytes_from(v, n) + suffix, prefix.len() + 2 * d) == v[d],
    decreases n,
{
    lemma_vector_bytes_len(v, n);
    lemma_vector_bytes_len(v, n - 1);
    let inner = spec_vector_bytes_from(v, n - 1);
    let last = spec_i16_bytes(v[n - 1]);
    if d == n - 1 {
        assert(prefix + spec_vector_bytes_from(v, n) + suffix =~= (prefix + inner) + last + suffix);
        lemma_i16_roundtrip(prefix + inner, v[n - 1], suffix);
    } else {
        assert(prefix + spec_vector_bytes_from(v, n) + suffix =~= prefix + inner + (last + suffix));
        lemma_vector_bytes_from_read(prefix, v, n - 1, last + suffix, d);
    }
}

/// The bytes of a vector read back as that vector.
pub proof fn lemma_vector_roundtrip(prefix: Seq<u8>, v: Seq<i16>, suffix: Seq<u8>)
    requires
        v.len() == DIMENSIONS,
    ensures
        spec_vector_bytes(v).len() == VECTOR_BYTES,
        spec_vector_at(prefix + spec_vector_bytes(v) + suffix, prefix.len() as int) == v,
{
    lemma_vector_bytes_len(v, DIMENSIONS as int);
    let b = prefix + spec_vector_bytes(v) + suffix;
    assert forall|d: int| 0 <= d < DIMENSIONS implies #[trigger] spec_vector_at(
        b,
        prefix.len() as int,
    )[d] == v[d] by {
        lemma_vector_bytes_from_read(prefix, v, DIMENSIONS as int, suffix, d);
    }
    assert(spec_vector_at(b, prefix.len() as int) =~= v);
}

/// The bytes of a record read back as that record.
pub proof fn lemma_record_roundtrip(prefix: Seq<u8>, r: PackedRecord, suffix: Seq<u8>)
    ensures
        spec_record_bytes(r).len() == RECORD_BYTES,
        record_at(prefix + spec_record_bytes(r) + suffix, prefix.len() as int, r),
{
    let tail = seq![r.label, r._padding] + suffix;
    lemma_vector_roundtrip(prefix, r.vector@, tail);
    assert(prefix + spec_record_bytes(r) + suffix =~= prefix + spec_vector_bytes(r.vector@) + tail);
}

/// The record the 30 bytes from `at` on hold.
pub open spec fn spec_record_at(b: Seq<u8>, at: int) -> PackedRecord {
    let v = spec_vector_at(b, at);
    PackedRecord {
        vector: [
            v[0],
            v[1],
            v[2],
            v[3],
            v[4],
            v[5],
            v[6],
            v[7],
            v[8],
            v[9],
            v[10],
            v[11],
            v[12],
            v[13],
        ],
        label: b[at + 28],
        _padding: b[at + 29],
    }
}

/// Any 30 bytes hold a record.
pub proof fn lemma_spec_record_at(b: Seq<u8>, at: int)
    ensures
        record_at(b, at, spec_record_at(b, at)),
{
    assert(spec_record_at(b, at).vector@ =~= spec_vector_at(b, at));
}

/// Whether two byte strings are the same.
pub fn bytes_equal(left: &[u8], right: &[u8]) -> (same: bool)
    ensures
        same == (left@ == right@),
{
    if left.len() != right.len() {
        return false;
    }
    let mut i: usize = 0;
    while i < left.len()
        invariant
            i <= left@.len(),
            left@.len() == right@.len(),
            forall|j: int| 0 <= j < i ==> left@[j] == right@[j],
        decreases left@.len() - i,
    {
        if left[i] != right[i] {
            return false;
        }
        i = i + 1;
    }
    assert(left@ =~= right@);
    true
}

} // verus!
