use phinetwork::labels::label_for_index;
use phinetwork::phinetwork::{variable_name, PhiTerm};
use phinetwork::sparse_phi::{
    format_index_list, parse_index_list, remap_sparse_snapshot_states, remap_term_key,
    SparseSnapshotState,
};

fn strings(items: &[&str]) -> Vec<String> {
    items.iter().map(|item| item.to_string()).collect()
}

#[test]
fn index_lists_round_trip() {
    assert_eq!(format_index_list(&[3, 0, 12]), "3,0,12");
    assert_eq!(parse_index_list("3,0,12"), Some(vec![3, 0, 12]));
    assert_eq!(format_index_list(&[]), "");
    assert_eq!(parse_index_list(""), Some(vec![]));
    assert_eq!(parse_index_list("1,,2"), None);
    assert_eq!(parse_index_list("1,x"), None);
}

#[test]
fn remaps_term_keys_between_vocabularies() {
    let stored = strings(&["msg:a", "msg:b", "msg:c"]);
    let current = strings(&["msg:b", "msg:c", "msg:d"]);
    assert_eq!(remap_term_key(&[1, 2], &stored, &current), Some(vec![0, 1]));
    assert_eq!(remap_term_key(&[0], &stored, &current), None);
    assert_eq!(remap_term_key(&[5], &stored, &current), None);
    assert_eq!(remap_term_key(&[], &stored, &current), Some(vec![]));
}

#[test]
fn names_variables_and_terms() {
    assert_eq!(variable_name(0), "a");
    assert_eq!(variable_name(25), "z");
    assert_eq!(variable_name(26), "x26");
    assert_eq!(label_for_index('s', 30), "s30");
    let term = PhiTerm {
        input_indices: vec![0, 1, 27],
    };
    assert_eq!(term.name(), "phi(abx27)");
}

#[test]
fn remaps_stored_states_onto_current_responses() {
    let stored_vocabulary = strings(&["msg:a", "msg:b"]);
    let stored_responses = strings(&["Pizza", "Rust"]);
    let current_vocabulary = strings(&["msg:0", "msg:a", "msg:b"]);
    let current_responses = strings(&["Hello", "Pizza", "Rust"]);
    let states = vec![
        SparseSnapshotState {
            weights: vec![(vec![0], 0.5), (vec![0, 1], 0.25)],
            curves: vec![(vec![1], vec![0.0, 1.0])],
        },
        SparseSnapshotState {
            weights: vec![(vec![1], -1.0)],
            curves: Vec::new(),
        },
    ];
    let remapped = remap_sparse_snapshot_states(
        states,
        &stored_vocabulary,
        &stored_responses,
        &current_vocabulary,
        &current_responses,
    )
    .expect("remappable");

    assert_eq!(remapped.len(), 3);
    assert!(remapped[0].weights.is_empty());
    assert_eq!(remapped[1].weights, vec![(vec![1], 0.5), (vec![1, 2], 0.25)]);
    assert_eq!(remapped[1].curves, vec![(vec![2], vec![0.0, 1.0])]);
    assert_eq!(remapped[2].weights, vec![(vec![2], -1.0)]);
}

#[test]
fn remapping_fails_for_unknown_responses_or_features() {
    let vocabulary = strings(&["msg:a"]);
    let state = || SparseSnapshotState::<f64, Vec<f64>> {
        weights: vec![(vec![0], 1.0)],
        curves: Vec::new(),
    };
    assert!(remap_sparse_snapshot_states(
        vec![state()],
        &vocabulary,
        &strings(&["Gone"]),
        &vocabulary,
        &strings(&["Here"]),
    )
    .is_none());
    assert!(remap_sparse_snapshot_states(
        vec![state()],
        &vocabulary,
        &strings(&["Here"]),
        &strings(&["msg:b"]),
        &strings(&["Here"]),
    )
    .is_none());
}
