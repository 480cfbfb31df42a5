use tbd_mud::hidden::PlayerId;
use tbd_mud::hide_action::{hidden_by, hide_attempt, spot_dc, HideAttempt, HIDE_THRESHOLD_DC};

#[test]
fn object_without_can_hide_cannot_be_hidden() {
    assert_eq!(hide_attempt(None, false, 5), HideAttempt::CannotHide);
    assert_eq!(hide_attempt(None, true, 0), HideAttempt::CannotHide);
}

#[test]
fn already_hidden_object_is_not_hidden_again() {
    assert_eq!(hide_attempt(Some(2), true, 5), HideAttempt::AlreadyHidden);
}

#[test]
fn zero_thievery_ranks_cannot_hide() {
    assert_eq!(hide_attempt(Some(2), false, 0), HideAttempt::Untrained);
}

#[test]
fn trained_actor_rolls_with_sneakiness() {
    assert_eq!(hide_attempt(Some(3), false, 1), HideAttempt::Roll { situational_bonus: 3 });
    assert_eq!(HIDE_THRESHOLD_DC, 10);
}

#[test]
fn spot_dc_is_half_the_total_never_negative() {
    assert_eq!(spot_dc(17), 8);
    assert_eq!(spot_dc(1), 0);
    assert_eq!(spot_dc(-7), 0);
    let h = hidden_by(PlayerId(9), 23);
    assert_eq!(h.dc, 11);
    assert!(h.is_detected_by(PlayerId(9)));
    assert!(!h.is_detected_by(PlayerId(8)));
}
