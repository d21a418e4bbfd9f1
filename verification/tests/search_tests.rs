use rinha_backend_2026_luckstai_rust::index::reference_label;
use rinha_backend_2026_luckstai_rust::search::{search_kind, SearchKind};

#[test]
fn search_names_select_searches() {
    assert_eq!(search_kind("flat"), Some(SearchKind::Flat));
    assert_eq!(search_kind("flat-pruned"), Some(SearchKind::FlatPruned));
    assert_eq!(search_kind("ivf"), Some(SearchKind::Ivf));
    assert_eq!(search_kind("ivf-adaptive"), Some(SearchKind::IvfAdaptive));
    assert_eq!(search_kind("ivf-pure-gate"), Some(SearchKind::IvfPureGate));
}

#[test]
fn unknown_search_names_are_refused() {
    assert_eq!(search_kind(""), None);
    assert_eq!(search_kind("IVF"), None);
    assert_eq!(search_kind("ivf "), None);
    assert_eq!(search_kind("hnsw"), None);
    assert_eq!(search_kind("flat-prune"), None);
}

#[test]
fn reference_labels_are_legit_or_fraud() {
    assert_eq!(reference_label("legit"), Some(0));
    assert_eq!(reference_label("fraud"), Some(1));
    assert_eq!(reference_label("Fraud"), None);
    assert_eq!(reference_label("legitimate"), None);
    assert_eq!(reference_label(""), None);
}
