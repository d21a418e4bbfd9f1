//! The searches a detector can run, by the names its configuration gives them.
use vstd::prelude::*;
use vstd::string::StringSliceAdditionalSpecFns;

use crate::layout::bytes_equal;

verus! {

/// A search over the reference records.
#[derive(Debug, Clone, Copy, PartialEq, Eq, Structural)]
pub enum SearchKind {
    /// Every record of the flat index (`flat`).
    Flat,
    /// Every record of the flat index, each distance cut short once it cannot rank
    /// (`flat-pruned`).
    FlatPruned,
    /// The nearest lists of the IVF index (`ivf`).
    Ivf,
    /// Few or many lists of the IVF index, by how clearly the nearest list stands out
    /// (`ivf-adaptive`).
    IvfAdaptive,
    /// The nearest lists of the IVF index, answered by the nearest list alone when it
    /// stands out and holds one label (`ivf-pure-gate`).
    IvfPureGate,
}

/// `flat`, in ASCII.
pub open spec fn flat_name() -> Seq<u8> {
    seq![102u8, 108u8, 97u8, 116u8]
}

/// `flat-pruned`, in ASCII.
pub open spec fn flat_pruned_name() -> Seq<u8> {
    seq![102u8, 108u8, 97u8, 116u8, 45u8, 112u8, 114u8, 117u8, 110u8, 101u8, 100u8]
}

/// `ivf`, in ASCII.
pub open spec fn ivf_name() -> Seq<u8> {
    seq![105u8, 118u8, 102u8]
}

/// `ivf-adaptive`, in ASCII.
pub open spec fn ivf_adaptive_name() -> Seq<u8> {
    seq![105u8, 118u8, 102u8, 45u8, 97u8, 100u8, 97u8, 112u8, 116u8, 105u8, 118u8, 101u8]
}

/// `ivf-pure-gate`, in ASCII.
pub open spec fn ivf_pure_gate_name() -> Seq<u8> {
    seq![105u8, 118u8, 102u8, 45u8, 112u8, 117u8, 114u8, 101u8, 45u8, 103u8, 97u8, 116u8, 101u8]
}

/// The search a name stands for, if any.
pub open spec fn spec_search_kind(name: Seq<u8>) -> Option<SearchKind> {
    if name == flat_name() {
        Some(SearchKind::Flat)
    } else if name == flat_pruned_name() {
        Some(SearchKind::FlatPruned)
    } else if name == ivf_name() {
        Some(SearchKind::Ivf)
    } else if name == ivf_adaptive_name() {
        Some(SearchKind::IvfAdaptive)
    } else if name == ivf_pure_gate_name() {
        Some(SearchKind::IvfPureGate)
    } else {
        None
    }
}

/// The search named `name`, or nothing for a name no search has.
pub fn search_kind(name: &str) -> (kind: Option<SearchKind>)
    ensures
        kind == spec_search_kind(name.spec_bytes()),
{
    let bytes = name.as_bytes();
    let flat: [u8; 4] = [102u8, 108u8, 97u8, 116u8];
    let flat_pruned: [u8; 11] = [
        102u8,
        108u8,
        97u8,
        116u8,
        45u8,
        112u8,
        114u8,
        117u8,
        110u8,
        101u8,
        100u8,
    ];
    let ivf: [u8; 3] = [105u8, 118u8, 102u8];
    let ivf_adaptive: [u8; 12] = [
        105u8,
        118u8,
        102u8,
        45u8,
        97u8,
        100u8,
        97u8,
        112u8,
        116u8,
        105u8,
        118u8,
        101u8,
    ];
    let ivf_pure_gate: [u8; 13] = [
        105u8,
        118u8,
        102u8,
        45u8,
        112u8,
        117u8,
        114u8,
        101u8,
        45u8,
        103u8,
        97u8,
        116u8,
        101u8,
    ];
    assert(flat@ =~= flat_name());
    assert(flat_pruned@ =~= flat_pruned_name());
    assert(ivf@ =~= ivf_name());
    assert(ivf_adaptive@ =~= ivf_adaptive_name());
    assert(ivf_pure_gate@ =~= ivf_pure_gate_name());
    if bytes_equal(bytes, flat.as_slice()) {
        Some(SearchKind::Flat)
    } else if bytes_equal(bytes, flat_pruned.as_slice()) {
        Some(SearchKind::FlatPruned)
    } else if bytes_equal(bytes, ivf.as_slice()) {
        Some(SearchKind::Ivf)
    } else if bytes_equal(bytes, ivf_adaptive.as_slice()) {
        Some(SearchKind::IvfAdaptive)
    } else if bytes_equal(bytes, ivf_pure_gate.as_slice()) {
        Some(SearchKind::IvfPureGate)
    } else {
        None
    }
}

} // verus!
