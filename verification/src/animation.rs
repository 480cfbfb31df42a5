//! Animation clip naming: facing-suffixed clip keys and walk-clip detection.

use vstd::prelude::*;

use crate::direction::Direction;
use crate::text::chars_of;

verus! {

/// The clip-name suffix of a facing (`"_n"`, `"_s"`, `"_e"`, `"_w"`).
pub open spec fn facing_suffix_spec(facing: Direction) -> Seq<char> {
    match facing {
        Direction::North => seq!['_', 'n'],
        Direction::South => seq!['_', 's'],
        Direction::East => seq!['_', 'e'],
        Direction::West => seq!['_', 'w'],
    }
}

/// The clip-name suffix of a facing, appended to a base clip name to get its
/// per-direction variant (`"walk"` facing north is `"walk_n"`).
pub fn facing_suffix(facing: Direction) -> (s: &'static str)
    ensures
        s@ == facing_suffix_spec(facing),
{
    proof {
        reveal_strlit("_n");
        reveal_strlit("_s");
        reveal_strlit("_e");
        reveal_strlit("_w");
    }
    match facing {
        Direction::North => "_n",
        Direction::South => "_s",
        Direction::East => "_e",
        Direction::West => "_w",
    }
}

/// A walk clip: `"walk"` itself or any `"walk_"`-prefixed variant.
pub open spec fn is_walk_clip_spec(name: Seq<char>) -> bool {
    name == seq!['w', 'a', 'l', 'k'] || seq!['w', 'a', 'l', 'k', '_'].is_prefix_of(name)
}

/// Whether `name` is some variant of the walk clip (`walk`, `walk_n`, ...).
pub fn is_walk_clip(name: &str) -> (r: bool)
    ensures
        r == is_walk_clip_spec(name@),
{
    let v = chars_of(name);
    if v.len() < 4 || v[0] != 'w' || v[1] != 'a' || v[2] != 'l' || v[3] != 'k' {
        proof {
            if seq!['w', 'a', 'l', 'k', '_'].is_prefix_of(name@) {
                assert(name@[0] == 'w' && name@[1] == 'a' && name@[2] == 'l' && name@[3] == 'k');
            }
        }
        return false;
    }
    if v.len() == 4 {
        assert(name@ == seq!['w', 'a', 'l', 'k']);
        return true;
    }
    let r = v[4] == '_';
    proof {
        assert(name@ != seq!['w', 'a', 'l', 'k']);
        if r {
            assert(seq!['w', 'a', 'l', 'k', '_'] == name@.subrange(0, 5));
        }
    }
    r
}

} // verus!
