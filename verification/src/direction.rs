//! Cardinal facing directions.

use vstd::prelude::*;

use crate::text::chars_of;

verus! {

/// Cardinal direction; `North` is `+y`.
#[derive(Clone, Copy, Debug, PartialEq, Eq, Hash, Structural)]
pub enum Direction {
    North,
    South,
    East,
    West,
}

/// The unit step of a direction.
pub open spec fn delta_spec(d: Direction) -> (int, int) {
    match d {
        Direction::North => (0, 1),
        Direction::South => (0, -1),
        Direction::East => (1, 0),
        Direction::West => (-1, 0),
    }
}

/// Dominant direction of a move: horizontal when `|dx| > |dy|`, vertical
/// otherwise; none for a zero move.
pub open spec fn from_delta_spec(dx: int, dy: int) -> Option<Direction> {
    let adx = if dx < 0 { -dx } else { dx };
    let ady = if dy < 0 { -dy } else { dy };
    if dx == 0 && dy == 0 {
        None
    } else if adx > ady {
        Some(if dx > 0 { Direction::East } else { Direction::West })
    } else {
        Some(if dy > 0 { Direction::North } else { Direction::South })
    }
}

/// Unicode `White_Space` (what `char::is_whitespace` tests).
pub open spec fn is_whitespace_spec(c: char) -> bool {
    ('\u{9}' <= c <= '\u{d}') || c == ' ' || c == '\u{85}' || c == '\u{a0}' || c == '\u{1680}'
        || ('\u{2000}' <= c <= '\u{200a}') || c == '\u{2028}' || c == '\u{2029}' || c == '\u{202f}'
        || c == '\u{205f}' || c == '\u{3000}'
}

/// `s` without leading and trailing whitespace.
pub open spec fn trim_spec(s: Seq<char>) -> Seq<char>
    decreases s.len(),
{
    if s.len() > 0 && is_whitespace_spec(s[0]) {
        trim_spec(s.drop_first())
    } else if s.len() > 0 && is_whitespace_spec(s.last()) {
        trim_spec(s.drop_last())
    } else {
        s
    }
}

/// ASCII upper-case letters lowered; everything else unchanged.
pub open spec fn ascii_lower_char(c: char) -> char {
    if 'A' <= c <= 'Z' { ((c as u32) + 32) as char } else { c }
}

pub open spec fn ascii_lower_spec(s: Seq<char>) -> Seq<char> {
    s.map_values(|c: char| ascii_lower_char(c))
}

/// Direction named by an authored word (case-insensitive, surrounding
/// whitespace ignored): `north|n|up`, `south|s|down`, `east|e|right`,
/// `west|w|left`.
pub open spec fn from_yaml_spec(s: Seq<char>) -> Option<Direction> {
    let w = ascii_lower_spec(trim_spec(s));
    if w == seq!['n', 'o', 'r', 't', 'h'] || w == seq!['n'] || w == seq!['u', 'p'] {
        Some(Direction::North)
    } else if w == seq!['s', 'o', 'u', 't', 'h'] || w == seq!['s'] || w == seq!['d', 'o', 'w', 'n'] {
        Some(Direction::South)
    } else if w == seq!['e', 'a', 's', 't'] || w == seq!['e'] || w == seq!['r', 'i', 'g', 'h', 't'] {
        Some(Direction::East)
    } else if w == seq!['w', 'e', 's', 't'] || w == seq!['w'] || w == seq!['l', 'e', 'f', 't'] {
        Some(Direction::West)
    } else {
        None
    }
}

pub fn is_whitespace(c: char) -> (b: bool)
    ensures
        b == is_whitespace_spec(c),
{
    ('\u{9}' <= c && c <= '\u{d}') || c == ' ' || c == '\u{85}' || c == '\u{a0}' || c == '\u{1680}'
        || ('\u{2000}' <= c && c <= '\u{200a}') || c == '\u{2028}' || c == '\u{2029}' || c == '\u{202f}'
        || c == '\u{205f}' || c == '\u{3000}'
}

/// Whether `v` spells exactly `word`.
fn word_eq(v: &Vec<char>, word: &[char]) -> (b: bool)
    ensures
        b == (v@ == word@),
{
    if v.len() != word.len() {
        return false;
    }
    let mut i: usize = 0;
    while i < v.len()
        invariant
            v@.len() == word@.len(),
            i <= v@.len(),
            forall|j: int| 0 <= j < i ==> v@[j] == word@[j],
        decreases v@.len() - i,
    {
        if v[i] != word[i] {
            return false;
        }
        i = i + 1;
    }
    assert(v@ == word@);
    true
}

impl Direction {
    /// Dominant direction of a move (see `from_delta_spec`).
    pub fn from_delta(dx: i32, dy: i32) -> (d: Option<Direction>)
        requires
            dx != i32::MIN,
            dy != i32::MIN,
        ensures
            d == from_delta_spec(dx as int, dy as int),
    {
        if dx == 0 && dy == 0 {
            return None;
        }
        let adx = if dx < 0 { -dx } else { dx };
        let ady = if dy < 0 { -dy } else { dy };
        if adx > ady {
            Some(if dx > 0 { Direction::East } else { Direction::West })
        } else {
            Some(if dy > 0 { Direction::North } else { Direction::South })
        }
    }

    /// The unit step of this direction.
    pub fn to_delta(self) -> (d: (i32, i32))
        ensures
            (d.0 as int, d.1 as int) == delta_spec(self),
    {
        match self {
            Direction::North => (0, 1),
            Direction::South => (0, -1),
            Direction::East => (1, 0),
            Direction::West => (-1, 0),
        }
    }

    /// Parses an authored direction word (see `from_yaml_spec`).
    pub fn from_yaml(s: &str) -> (d: Option<Direction>)
        ensures
            d == from_yaml_spec(s@),
    {
        let chars = chars_of(s);
        let mut lo: usize = 0;
        let mut hi: usize = chars.len();
        assert(chars@.subrange(0, chars@.len() as int) == chars@);
        while lo < hi && is_whitespace(chars[lo])
            invariant
                lo <= hi == chars@.len(),
                trim_spec(chars@.subrange(lo as int, hi as int)) == trim_spec(chars@),
            decreases hi - lo,
        {
            assert(chars@.subrange(lo as int, hi as int).drop_first() == chars@.subrange(lo + 1, hi as int));
            lo = lo + 1;
        }
        while lo < hi && is_whitespace(chars[hi - 1])
            invariant
                lo <= hi <= chars@.len(),
                lo < hi ==> !is_whitespace_spec(chars@[lo as int]),
                trim_spec(chars@.subrange(lo as int, hi as int)) == trim_spec(chars@),
            decreases hi - lo,
        {
            assert(chars@.subrange(lo as int, hi as int).drop_last() == chars@.subrange(lo as int, hi - 1));
            hi = hi - 1;
        }
        let mut word: Vec<char> = Vec::new();
        let mut i = lo;
        while i < hi
            invariant
                lo <= i <= hi <= chars@.len(),
                word@ == ascii_lower_spec(chars@.subrange(lo as int, i as int)),
            decreases hi - i,
        {
            let c = chars[i];
            let l = if 'A' <= c && c <= 'Z' { ((c as u8) + 32) as char } else { c };
            word.push(l);
            assert(chars@.subrange(lo as int, i + 1) == chars@.subrange(lo as int, i as int).push(c));
            i = i + 1;
        }
        assert(trim_spec(chars@.subrange(lo as int, hi as int)) == chars@.subrange(lo as int, hi as int));
        assert(word@ == ascii_lower_spec(trim_spec(s@)));
        let w_north: [char; 5] = ['n', 'o', 'r', 't', 'h'];
        assert(w_north@ == seq!['n', 'o', 'r', 't', 'h']);
        let w_n: [char; 1] = ['n'];
        assert(w_n@ == seq!['n']);
        let w_up: [char; 2] = ['u', 'p'];
        assert(w_up@ == seq!['u', 'p']);
        let w_south: [char; 5] = ['s', 'o', 'u', 't', 'h'];
        assert(w_south@ == seq!['s', 'o', 'u', 't', 'h']);
        let w_s: [char; 1] = ['s'];
        assert(w_s@ == seq!['s']);
        let w_down: [char; 4] = ['d', 'o', 'w', 'n'];
        assert(w_down@ == seq!['d', 'o', 'w', 'n']);
        let w_east: [char; 4] = ['e', 'a', 's', 't'];
        assert(w_east@ == seq!['e', 'a', 's', 't']);
        let w_e: [char; 1] = ['e'];
        assert(w_e@ == seq!['e']);
        let w_right: [char; 5] = ['r', 'i', 'g', 'h', 't'];
        assert(w_right@ == seq!['r', 'i', 'g', 'h', 't']);
        let w_west: [char; 4] = ['w', 'e', 's', 't'];
        assert(w_west@ == seq!['w', 'e', 's', 't']);
        let w_w: [char; 1] = ['w'];
        assert(w_w@ == seq!['w']);
        let w_left: [char; 4] = ['l', 'e', 'f', 't'];
        assert(w_left@ == seq!['l', 'e', 'f', 't']);
        if word_eq(&word, &w_north) || word_eq(&word, &w_n) || word_eq(&word, &w_up) {
            Some(Direction::North)
        } else if word_eq(&word, &w_south) || word_eq(&word, &w_s) || word_eq(&word, &w_down) {
            Some(Direction::South)
        } else if word_eq(&word, &w_east) || word_eq(&word, &w_e) || word_eq(&word, &w_right) {
            Some(Direction::East)
        } else if word_eq(&word, &w_west) || word_eq(&word, &w_w) || word_eq(&word, &w_left) {
            Some(Direction::West)
        } else {
            None
        }
    }
}

/// Stepping one unit in a direction and reading the move back gives the
/// same direction.
pub proof fn lemma_delta_roundtrip(d: Direction)
    ensures
        from_delta_spec(delta_spec(d).0, delta_spec(d).1) == Some(d),
{
}

} // verus!
