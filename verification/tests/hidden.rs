use tbd_mud::hidden::{Hidden, PlayerId, DEFAULT_INSPECT_RANGE};

#[test]
fn reveal_to_returns_true_only_first_time() {
    let mut hidden = Hidden::new(15);
    let p1 = PlayerId(1);
    assert!(hidden.reveal_to(p1));
    assert!(!hidden.reveal_to(p1));
    assert!(hidden.is_detected_by(p1));
}

#[test]
fn per_player_detection_is_isolated() {
    let mut hidden = Hidden::new(15);
    let p1 = PlayerId(1);
    let p2 = PlayerId(2);
    hidden.reveal_to(p1);
    assert!(hidden.is_detected_by(p1));
    assert!(!hidden.is_detected_by(p2));
}

#[test]
fn new_hidden_object_is_unseen_and_keeps_its_dc() {
    let hidden = Hidden::new(12);
    assert_eq!(hidden.dc, 12);
    assert!(!hidden.is_detected_by(PlayerId(0)));
    assert_eq!(DEFAULT_INSPECT_RANGE, 3);
}
