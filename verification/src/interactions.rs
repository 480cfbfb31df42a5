//! Player-driven state transitions on stateful world objects (doors,
//! levers, torches, …): the gates an interaction passes before its
//! transition, mirroring the new state into the object's properties, the
//! cascade depth of side effects, and the targets of side effects — a
//! runtime object id, written out or taken from a property of the source
//! object with a `{properties.<key>}` template.

use vstd::prelude::*;

use crate::map_layout::props_view;
use crate::text::{chars_of, chars_start_with};
use crate::wiring::{decimal, decimal_digit, first_index, prop_keys};

verus! {

/// The value of a string of decimal digits.
pub open spec fn digits_value(d: Seq<char>) -> int
    decreases d.len(),
{
    if d.len() == 0 {
        0
    } else {
        digits_value(d.drop_last()) * 10 + (d.last() as int - 48)
    }
}

/// Every character is an ASCII decimal digit.
pub open spec fn all_digits(d: Seq<char>) -> bool {
    forall|i: int| 0 <= i < d.len() ==> '0' <= #[trigger] d[i] <= '9'
}

/// `str::parse::<u64>`: an optional `+` followed by at least one decimal
/// digit, whose value fits in a `u64`; anything else is an error.
pub open spec fn parse_u64_spec(s: Seq<char>) -> Option<u64> {
    let d = if s.len() > 0 && s[0] == '+' { s.drop_first() } else { s };
    if d.len() > 0 && all_digits(d) && digits_value(d) <= u64::MAX {
        Some(digits_value(d) as u64)
    } else {
        None
    }
}

/// `str::parse::<u64>`, as its documentation states the accepted form (an
/// optional `+` sign followed by only digits, in range), the error mapped
/// to `None`.
#[verifier::external_body]
fn parse_u64(s: &str) -> (r: Option<u64>)
    ensures
        r == parse_u64_spec(s@),
{
    s.parse::<u64>().ok()
}

/// `{properties.`
pub open spec fn property_prefix() -> Seq<char> {
    seq!['{', 'p', 'r', 'o', 'p', 'e', 'r', 't', 'i', 'e', 's', '.']
}

/// `t` is `{properties.<key>}`.
pub open spec fn is_property_template(t: Seq<char>) -> bool {
    &&& t.len() >= 13
    &&& property_prefix().is_prefix_of(t)
    &&& t.last() == '}'
}

/// The text a target template stands for: the named property of the source
/// object for a property template (none when the source has no properties
/// or not that one), else the template itself.
pub open spec fn target_text(template: Seq<char>, props: Option<Seq<(Seq<char>, Seq<char>)>>) -> Option<Seq<char>> {
    if is_property_template(template) {
        let key = template.subrange(12, template.len() - 1);
        match props {
            None => None,
            Some(p) => match first_index(prop_keys(p), key) {
                Some(i) => Some(p[i].1),
                None => None,
            },
        }
    } else {
        Some(template)
    }
}

/// Resolves a side-effect target against the source object's properties
/// (`None` when the source has none): the template's text, parsed as a
/// runtime id.
pub fn resolve_target_id(target_template: &str, properties: Option<&Vec<(String, String)>>) -> (id: Option<u64>)
    ensures
        id == match target_text(target_template@, match properties { Some(p) => Some(props_view(p@)), None => None }) {
            Some(text) => parse_u64_spec(text),
            None => None,
        },
{
    let v = chars_of(target_template);
    let prefix = vec!['{', 'p', 'r', 'o', 'p', 'e', 'r', 't', 'i', 'e', 's', '.'];
    assert(prefix@ == property_prefix());
    let templated = v.len() >= 13 && chars_start_with(&v, &prefix) && v[v.len() - 1] == '}';
    if !templated {
        return parse_u64(target_template);
    }
    let props = match properties {
        Some(p) => p,
        None => {
            return None;
        },
    };
    let key = target_template.substring_char(12, v.len() - 1);
    assert(is_property_template(target_template@));
    assert(key@ == target_template@.subrange(12, target_template@.len() - 1));
    let mut i: usize = 0;
    while i < props.len()
        invariant
            is_property_template(target_template@),
            key@ == target_template@.subrange(12, target_template@.len() - 1),
            properties == Some(props),
            i <= props@.len(),
            forall|j: int| 0 <= j < i ==> (#[trigger] props@[j]).0@ != key@,
        decreases props@.len() - i,
    {
        if crate::text::str_eq(props[i].0.as_str(), key) {
            proof {
                let keys = prop_keys(props_view(props@));
                assert(keys[i as int] == key@);
                assert forall|j: int| 0 <= j < i implies keys[j] != key@ by {
                    assert(keys[j] == props@[j].0@);
                }
                crate::wiring::lemma_first_index_unique(keys, key@, i as int);
                assert(props_view(props@)[i as int].1 == props@[i as int].1@);
            }
            return parse_u64(props[i].1.as_str());
        }
        i = i + 1;
    }
    proof {
        let keys = prop_keys(props_view(props@));
        assert forall|k: int| !#[trigger] crate::wiring::is_first_index(keys, key@, k) by {
            if 0 <= k < keys.len() {
                assert(keys[k] == props@[k].0@);
            }
        }
    }
    None
}

/// The digit character for `k` is a digit of value `k`.
proof fn lemma_digit_char(k: int)
    requires
        0 <= k < 10,
    ensures
        '0' <= decimal_digit(k) <= '9',
        decimal_digit(k) as int - 48 == k,
{
    assert(k == 0 || k == 1 || k == 2 || k == 3 || k == 4 || k == 5 || k == 6 || k == 7 || k == 8 || k == 9);
}

/// A decimal representation consists of digits and has the value it
/// represents.
proof fn lemma_decimal_value(n: nat)
    ensures
        decimal(n).len() > 0,
        all_digits(decimal(n)),
        digits_value(decimal(n)) == n,
    decreases n,
{
    lemma_digit_char((n % 10) as int);
    if n >= 10 {
        lemma_decimal_value((n / 10) as nat);
        let d = decimal(n);
        assert(d.drop_last() == decimal((n / 10) as nat));
        assert(d.last() == decimal_digit((n % 10) as int));
        assert(digits_value(d) == digits_value(d.drop_last()) * 10 + (d.last() as int - 48));
        assert((n / 10) * 10 + n % 10 == n);
        assert forall|i: int| 0 <= i < d.len() implies '0' <= #[trigger] d[i] <= '9' by {
            if i < d.len() - 1 {
                assert(d[i] == decimal((n / 10) as nat)[i]);
            }
        }
    } else {
        let d = decimal(n);
        assert(d.drop_last() == Seq::<char>::empty());
        assert(d.last() == decimal_digit(n as int));
        assert(digits_value(d) == digits_value(d.drop_last()) * 10 + (d.last() as int - 48));
    }
}

/// A runtime id written out in decimal, as the wiring pass writes it into
/// a property, parses back to the same id.
pub proof fn lemma_decimal_parses_back(n: u64)
    ensures
        parse_u64_spec(decimal(n as nat)) == Some(n),
{
    lemma_decimal_value(n as nat);
    assert(decimal(n as nat)[0] != '+');
}


/// Bound on the depth of side-effect cascades (lever → door → …).
pub const MAX_CASCADE_DEPTH: usize = 4;

/// What an interaction whose gates have been looked at comes to.
#[derive(Clone, Copy, Debug, PartialEq, Eq, Structural)]
pub enum InteractOutcome {
    /// The interaction needs a tool the actor does not carry.
    ToolMissing,
    /// The key gate names no key id (a `FromLock` gate on an object
    /// without a lock).
    NoKeyAccepted,
    /// The actor carries no key with the required id.
    KeyMissing,
    /// The skill gate has no difficulty (a lock DC on an object without a
    /// lock); the interaction is skipped.
    NoDifficulty,
    /// The skill check against `dc` failed.
    SkillFailed { dc: i32 },
    /// The transition applies; `skill_dc` is the difficulty of a passed
    /// skill check, if the interaction has a skill gate.
    Transition { skill_dc: Option<i32> },
}

/// The gates in order: the tool gate first (unless the tool was already
/// checked by the use-item path), then the key gate, then the skill gate.
/// `has_tool` is `None` without a tool gate, else whether the actor
/// carries the tool; `key_gate` is the required key id, if one resolves,
/// and whether the actor carries it; `skill` is the difficulty, if one
/// resolves, and whether the check succeeded.
pub open spec fn interact_outcome_spec(
    bypass_tool_gate: bool,
    has_tool: Option<bool>,
    key_gate: Option<(Option<u64>, bool)>,
    skill: Option<(Option<i32>, bool)>,
) -> InteractOutcome {
    if !bypass_tool_gate && has_tool == Some(false) {
        InteractOutcome::ToolMissing
    } else {
        match key_gate {
            Some((None, _)) => InteractOutcome::NoKeyAccepted,
            Some((Some(_), false)) => InteractOutcome::KeyMissing,
            _ => match skill {
                None => InteractOutcome::Transition { skill_dc: None },
                Some((None, _)) => InteractOutcome::NoDifficulty,
                Some((Some(dc), false)) => InteractOutcome::SkillFailed { dc },
                Some((Some(dc), true)) => InteractOutcome::Transition { skill_dc: Some(dc) },
            },
        }
    }
}

/// Decides an interaction from its gates (see `interact_outcome_spec`).
pub fn interact_outcome(
    bypass_tool_gate: bool,
    has_tool: Option<bool>,
    key_gate: Option<(Option<u64>, bool)>,
    skill: Option<(Option<i32>, bool)>,
) -> (o: InteractOutcome)
    ensures
        o == interact_outcome_spec(bypass_tool_gate, has_tool, key_gate, skill),
{
    if !bypass_tool_gate {
        if let Some(false) = has_tool {
            return InteractOutcome::ToolMissing;
        }
    }
    match key_gate {
        Some((None, _)) => {
            return InteractOutcome::NoKeyAccepted;
        },
        Some((Some(_), false)) => {
            return InteractOutcome::KeyMissing;
        },
        _ => {},
    }
    match skill {
        None => InteractOutcome::Transition { skill_dc: None },
        Some((None, _)) => InteractOutcome::NoDifficulty,
        Some((Some(dc), false)) => InteractOutcome::SkillFailed { dc },
        Some((Some(dc), true)) => InteractOutcome::Transition { skill_dc: Some(dc) },
    }
}

/// Whether side effects run at cascade depth `depth` (the player's own
/// interaction runs its side effects at depth 0, each cascaded transition
/// one deeper).
pub fn cascade_continues(depth: usize) -> (b: bool)
    ensures
        b == (depth <= MAX_CASCADE_DEPTH),
{
    depth <= MAX_CASCADE_DEPTH
}

/// Levels of side effects a chain of cascades runs from depth `depth`.
pub open spec fn cascade_levels(depth: int) -> int
    decreases MAX_CASCADE_DEPTH + 1 - depth,
{
    if depth > MAX_CASCADE_DEPTH || depth < 0 {
        0
    } else {
        1 + cascade_levels(depth + 1)
    }
}

/// A cascade started by a player's interaction runs at most
/// `MAX_CASCADE_DEPTH + 1` levels of side effects, however the objects are
/// wired (a cycle of levers included).
pub proof fn lemma_cascade_bounded()
    ensures
        cascade_levels(0) == MAX_CASCADE_DEPTH + 1,
{
    reveal_with_fuel(cascade_levels, 6);
}

/// Whether moving an object in state `current` to `new_state` changes it
/// (a transition to the state it is in does nothing).
pub fn transition_changes(current: &str, new_state: &str) -> (b: bool)
    ensures
        b == (current@ != new_state@),
{
    !crate::text::str_eq(current, new_state)
}

/// `state`
pub open spec fn state_key() -> Seq<char> {
    seq!['s', 't', 'a', 't', 'e']
}

/// Properties after the object's state is mirrored into them: the `state`
/// property set to `new_state`, in place when present, else appended.
pub open spec fn with_state(props: Seq<(Seq<char>, Seq<char>)>, new_state: Seq<char>) -> Seq<(Seq<char>, Seq<char>)> {
    match first_index(prop_keys(props), state_key()) {
        Some(i) => props.update(i, (state_key(), new_state)),
        None => props.push((state_key(), new_state)),
    }
}

/// Mirrors a new object state into the object's properties (see
/// `with_state`), so that persisting the properties keeps the state.
pub fn mirror_state(props: &mut Vec<(String, String)>, new_state: &str)
    ensures
        props_view(final(props)@) == with_state(props_view(old(props)@), new_state@),
{
    let key = "state".to_string();
    proof {
        reveal_strlit("state");
    }
    assert(key@ == state_key());
    let mut i: usize = 0;
    let ghost keys = prop_keys(props_view(props@));
    while i < props.len()
        invariant
            keys == prop_keys(props_view(props@)),
            props@ == old(props)@,
            key@ == state_key(),
            i <= props@.len(),
            forall|j: int| 0 <= j < i ==> keys[j] != state_key(),
        decreases props@.len() - i,
    {
        assert(keys[i as int] == props@[i as int].0@);
        if crate::text::str_eq(props[i].0.as_str(), key.as_str()) {
            proof {
                crate::wiring::lemma_first_index_unique(keys, state_key(), i as int);
            }
            let v = new_state.to_string();
            props.set(i, (key, v));
            assert(props_view(props@) =~= with_state(props_view(old(props)@), new_state@));
            return;
        }
        i = i + 1;
    }
    proof {
        assert forall|k: int| !#[trigger] crate::wiring::is_first_index(keys, state_key(), k) by {}
    }
    let v = new_state.to_string();
    props.push((key, v));
    assert(props_view(props@) =~= with_state(props_view(old(props)@), new_state@));
}

} // verus!
