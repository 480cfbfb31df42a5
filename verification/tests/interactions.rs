use tbd_mud::interactions::{
    cascade_continues, interact_outcome, mirror_state, resolve_target_id, transition_changes, InteractOutcome,
    MAX_CASCADE_DEPTH,
};

fn props(pairs: &[(&str, &str)]) -> Vec<(String, String)> {
    pairs.iter().map(|(k, v)| (k.to_string(), v.to_string())).collect()
}

#[test]
fn literal_targets_parse_as_ids() {
    assert_eq!(resolve_target_id("42", None), Some(42));
    assert_eq!(resolve_target_id("+7", None), Some(7));
    assert_eq!(resolve_target_id("18446744073709551615", None), Some(u64::MAX));
    assert_eq!(resolve_target_id("18446744073709551616", None), None);
    assert_eq!(resolve_target_id("-1", None), None);
    assert_eq!(resolve_target_id(" 5", None), None);
    assert_eq!(resolve_target_id("", None), None);
    assert_eq!(resolve_target_id("cellar_door", None), None);
}

#[test]
fn property_templates_read_the_source_properties() {
    let p = props(&[("target", "17"), ("label", "door")]);
    assert_eq!(resolve_target_id("{properties.target}", Some(&p)), Some(17));
    assert_eq!(resolve_target_id("{properties.label}", Some(&p)), None);
    assert_eq!(resolve_target_id("{properties.missing}", Some(&p)), None);
    assert_eq!(resolve_target_id("{properties.target}", None), None);
    assert_eq!(resolve_target_id("{properties.target", Some(&p)), None);
    let empty_key = props(&[("", "3")]);
    assert_eq!(resolve_target_id("{properties.}", Some(&empty_key)), Some(3));
}

#[test]
fn gates_run_tool_then_key_then_skill() {
    assert_eq!(interact_outcome(false, Some(false), Some((None, false)), Some((Some(12), true))), InteractOutcome::ToolMissing);
    assert_eq!(interact_outcome(true, Some(false), None, None), InteractOutcome::Transition { skill_dc: None });
    assert_eq!(interact_outcome(false, Some(true), Some((None, true)), None), InteractOutcome::NoKeyAccepted);
    assert_eq!(interact_outcome(false, None, Some((Some(7), false)), Some((Some(12), true))), InteractOutcome::KeyMissing);
    assert_eq!(interact_outcome(false, None, Some((Some(7), true)), None), InteractOutcome::Transition { skill_dc: None });
    assert_eq!(interact_outcome(false, None, None, Some((None, true))), InteractOutcome::NoDifficulty);
    assert_eq!(interact_outcome(false, None, None, Some((Some(15), false))), InteractOutcome::SkillFailed { dc: 15 });
    assert_eq!(interact_outcome(false, None, None, Some((Some(15), true))), InteractOutcome::Transition { skill_dc: Some(15) });
}

#[test]
fn cascades_stop_past_the_depth_bound() {
    assert_eq!(MAX_CASCADE_DEPTH, 4);
    assert!(cascade_continues(0));
    assert!(cascade_continues(4));
    assert!(!cascade_continues(5));
}

#[test]
fn state_is_mirrored_into_properties() {
    let mut p = props(&[("label", "door"), ("state", "closed")]);
    mirror_state(&mut p, "open");
    assert_eq!(p, props(&[("label", "door"), ("state", "open")]));
    let mut q = props(&[("label", "door")]);
    mirror_state(&mut q, "open");
    assert_eq!(q, props(&[("label", "door"), ("state", "open")]));
    assert!(transition_changes("closed", "open"));
    assert!(!transition_changes("open", "open"));
}
