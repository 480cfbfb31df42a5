//! The rules of hiding a nearby object: whether an attempt gets as far as a
//! Thievery check, and what a successful check leaves behind.

use vstd::prelude::*;

use crate::hidden::{Hidden, PlayerId};

verus! {

/// The DC a Thievery check must beat for a hide attempt to take effect.
pub const HIDE_THRESHOLD_DC: i32 = 10;

/// How a hide attempt on an adjacent object goes before any dice are rolled.
#[derive(Clone, Copy, Debug, PartialEq, Eq, Structural)]
pub enum HideAttempt {
    /// The object's definition does not allow hiding it.
    CannotHide,
    /// The object is hidden already.
    AlreadyHidden,
    /// The actor has no rank in Thievery.
    Untrained,
    /// Roll Thievery against `HIDE_THRESHOLD_DC` with the object's
    /// sneakiness as the situational bonus.
    Roll { situational_bonus: i32 },
}

/// The first rule that stops the attempt, in the order: the object must be
/// hideable, not yet hidden, and the actor trained in Thievery.
pub open spec fn hide_attempt_spec(can_hide_sneakiness: Option<i32>, already_hidden: bool, thievery_rank: u32) -> HideAttempt {
    match can_hide_sneakiness {
        None => HideAttempt::CannotHide,
        Some(s) => if already_hidden {
            HideAttempt::AlreadyHidden
        } else if thievery_rank == 0 {
            HideAttempt::Untrained
        } else {
            HideAttempt::Roll { situational_bonus: s }
        },
    }
}

/// Decides a hide attempt (see `hide_attempt_spec`): `can_hide_sneakiness`
/// is the sneakiness of a hideable object's definition, `None` when the
/// object cannot be hidden.
pub fn hide_attempt(can_hide_sneakiness: Option<i32>, already_hidden: bool, thievery_rank: u32) -> (a: HideAttempt)
    ensures
        a == hide_attempt_spec(can_hide_sneakiness, already_hidden, thievery_rank),
{
    match can_hide_sneakiness {
        None => HideAttempt::CannotHide,
        Some(s) => {
            if already_hidden {
                HideAttempt::AlreadyHidden
            } else if thievery_rank == 0 {
                HideAttempt::Untrained
            } else {
                HideAttempt::Roll { situational_bonus: s }
            }
        },
    }
}

/// The DC to spot an object hidden with a check total of `total`: half the
/// total, rounded toward zero, and never below zero.
pub open spec fn spot_dc_spec(total: i32) -> u32 {
    if total >= 0 {
        (total / 2) as u32
    } else {
        0
    }
}

/// The DC to spot an object hidden with check total `total`.
pub fn spot_dc(total: i32) -> (dc: u32)
    ensures
        dc == spot_dc_spec(total),
{
    let half = total / 2;
    if half > 0 {
        half as u32
    } else {
        0
    }
}

/// The hidden state of an object that `placer` hid with check total
/// `total`: spotted by the placer alone, so they keep seeing it.
pub fn hidden_by(placer: PlayerId, total: i32) -> (h: Hidden)
    ensures
        h.dc == spot_dc_spec(total),
        h.detected() == Set::<u64>::empty().insert(placer.0),
{
    let mut h = Hidden::new(spot_dc(total));
    h.reveal_to(placer);
    h
}

} // verus!
