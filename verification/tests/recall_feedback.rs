use biturbo::error::BiError;
use biturbo::recall::{
    candidate_count, check_recalled, feedback_weight_sum, hash_query, matched_terms,
    new_recall_id, normalized_terms, recall_not_found, validate_feedback, Feedback,
};

#[test]
fn terms_are_trimmed_lowercased_and_filtered() {
    assert_eq!(
        normalized_terms("Turbo, wastegate! a (Calibration)"),
        vec!["turbo".to_string(), "wastegate".to_string(), "calibration".to_string()]
    );
    let terms = normalized_terms("turbo wastegate calibration");
    assert_eq!(matched_terms("calibrate the TURBO wastegate actuator", &terms), vec!["turbo".to_string(), "wastegate".to_string()]);
}

#[test]
fn feedback_is_checked() {
    assert_eq!(validate_feedback(2, "explicit"), Err(BiError::Invalid("feedback value must be -1 or 1".into())));
    assert_eq!(
        validate_feedback(1, "guess"),
        Err(BiError::Invalid("feedback source must be explicit or implicit".into()))
    );
    assert_eq!(validate_feedback(-1, "implicit"), Ok(()));
    let uids = vec!["u1".to_string(), "u2".to_string()];
    assert_eq!(check_recalled(&uids, "u2"), Ok(()));
    assert_eq!(
        check_recalled(&uids, "u3"),
        Err(BiError::Invalid("memory was not part of this recall result".into()))
    );
    assert_eq!(recall_not_found("r1"), BiError::NotFound("recall r1".into()));
}

#[test]
fn explicit_feedback_weighs_four_and_reverses() {
    let up = Feedback { value: 1, explicit: true };
    let down = Feedback { value: -1, explicit: true };
    let soft = Feedback { value: 1, explicit: false };
    assert_eq!(feedback_weight_sum(&vec![up]), 4);
    assert_eq!(feedback_weight_sum(&vec![Feedback { value: 1, explicit: true }, down]), 0);
    assert_eq!(feedback_weight_sum(&vec![soft, Feedback { value: 1, explicit: true }]), 5);
}

#[test]
fn recall_ids_and_sizes() {
    let id = new_recall_id();
    assert!(id.starts_with("recall-"));
    assert_eq!(id.len(), 43);
    assert_ne!(new_recall_id(), id);
    assert_eq!(candidate_count(5), 30);
    assert_eq!(candidate_count(50), 150);
    assert_eq!(candidate_count(500), 300);
    assert_eq!(hash_query("  abc "), hash_query("abc"));
    assert_eq!(hash_query("abc"), "ba7816bf8f01cfea414140de5dae2223b00361a396177a9cb410ff61f20015ad");
}
