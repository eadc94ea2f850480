use rustymill::biclique_action::ActionError;

#[test]
fn test_message_candidate_index_out_of_range() {
    let e = ActionError::CandidateIndexOutOfRange { index: 7, count: 3 };
    assert_eq!(e.message(), "candidate_index 7 out of range for 3 candidates");
}

#[test]
fn test_message_mask_length_mismatch() {
    let e = ActionError::MaskLengthMismatch { left: false, expected: 12, got: 0 };
    assert_eq!(e.message(), "right mask length mismatch: expected 12, got 0");
}

#[test]
fn test_message_empty_side() {
    assert_eq!(ActionError::EmptySide { left: true }.message(), "left side cannot be empty");
}

#[test]
fn test_message_def_index_out_of_range() {
    let e = ActionError::DefIndexOutOfRange { index: 105, count: 100 };
    assert_eq!(e.message(), "def_index 105 out of range for 100 definitions");
}

#[test]
fn test_message_missing_edge() {
    let e = ActionError::MissingEdge { left_id: 3, right_id: 14 };
    assert_eq!(e.message(), "candidate biclique rectangle is missing edge (3, 14)");
}

#[test]
fn test_message_tensor_ids_mismatch() {
    let e = ActionError::TensorIdsMismatch { expected_left: 5, expected_right: 6, got_left: 0, got_right: 1 };
    assert_eq!(e.message(), "rewrite tensor ids mismatch: expected (5, 6), got (0, 1)");
}

#[test]
fn test_message_edge_and_node_bounds() {
    let e = ActionError::EdgeNodeOutOfBounds { left: true, id: 9, count: 2 };
    assert_eq!(e.message(), "candidate graph edge left_id 9 out of bounds for 2 left nodes");
    let e = ActionError::BicliqueNodeOutOfBounds { left: false, id: 4, count: 1 };
    assert_eq!(e.message(), "candidate biclique right node id 4 out of bounds for 1 right nodes");
    let e = ActionError::EdgeTermOutOfBounds { term: 10, count: 4 };
    assert_eq!(e.message(), "candidate graph references term 10 but definition has only 4 terms");
}

#[test]
fn test_message_template_and_interface() {
    assert_eq!(
        ActionError::TemplateMismatch { index: 0 }.message(),
        "candidate template 0 no longer matches its hidden candidate"
    );
    assert_eq!(
        ActionError::InconsistentInterface.message(),
        "candidate biclique rectangle has inconsistent contracted interface"
    );
    assert_eq!(
        ActionError::SideAlignment { left: true, ids: 2, coeffs: 1 }.message(),
        "left node ids and coeffs length mismatch: 2 vs 1"
    );
    assert_eq!(ActionError::CandidateSideEmpty { left: false }.message(), "candidate biclique right side is empty");
    assert_eq!(
        ActionError::ExtMaskOutOfBounds { left: true }.message(),
        "left_ext mask references external indices out of bounds"
    );
}
