//! Object wiring: property values that name another object of the same
//! space by its authored id are rewritten to that object's runtime id.

use vstd::prelude::*;

use crate::map_layout::{names_view, props_view, SpaceDefinition};

verus! {

/// The decimal digit `d` (`0 <= d < 10`).
pub open spec fn decimal_digit(d: int) -> char {
    seq!['0', '1', '2', '3', '4', '5', '6', '7', '8', '9'][d]
}

/// The decimal representation of `n`, without sign or leading zeros.
pub open spec fn decimal(n: nat) -> Seq<char>
    decreases n,
{
    if n < 10 {
        seq![decimal_digit(n as int)]
    } else {
        decimal((n / 10) as nat).push(decimal_digit((n % 10) as int))
    }
}

/// `ToString::to_string` on a `u64`: the number written in decimal, as its
/// `Display` implementation documents for unsigned integers.
#[verifier::external_body]
fn u64_to_decimal(n: u64) -> (s: String)
    ensures
        s@ == decimal(n as nat),
{
    n.to_string()
}

/// `i` is the first position of `keys` that holds `key`.
pub open spec fn is_first_index(keys: Seq<Seq<char>>, key: Seq<char>, i: int) -> bool {
    &&& 0 <= i < keys.len()
    &&& keys[i] == key
    &&& forall|j: int| 0 <= j < i ==> keys[j] != key
}

/// The first position of `key` in `keys`, as a map lookup finds it when
/// keys are unique.
pub open spec fn first_index(keys: Seq<Seq<char>>, key: Seq<char>) -> Option<int> {
    if exists|i: int| #[trigger] is_first_index(keys, key, i) {
        Some(choose|i: int| #[trigger] is_first_index(keys, key, i))
    } else {
        None
    }
}

/// A key has one first position.
pub proof fn lemma_first_index_unique(keys: Seq<Seq<char>>, key: Seq<char>, i: int)
    requires
        is_first_index(keys, key, i),
    ensures
        first_index(keys, key) == Some(i),
{
    let c = choose|k: int| #[trigger] is_first_index(keys, key, k);
    assert(is_first_index(keys, key, c));
    if c < i {
        assert(keys[c] != key);
    } else if i < c {
        assert(keys[i] != key);
    }
}

/// The keys of a keyed list.
pub open spec fn keys_of<V>(t: Seq<(String, V)>) -> Seq<Seq<char>> {
    t.map_values(|e: (String, V)| e.0@)
}

/// The keys of a property list.
pub open spec fn prop_keys(p: Seq<(Seq<char>, Seq<char>)>) -> Seq<Seq<char>> {
    p.map_values(|e: (Seq<char>, Seq<char>)| e.0)
}

/// The names of a name table.
pub open spec fn table_names(t: Seq<(Seq<char>, u64)>) -> Seq<Seq<char>> {
    t.map_values(|e: (Seq<char>, u64)| e.0)
}

/// The first position of `key` among the keys of `t`.
fn find_key<V>(t: &Vec<(String, V)>, key: &String) -> (r: Option<usize>)
    ensures
        match r {
            Some(i) => first_index(keys_of(t@), key@) == Some(i as int),
            None => first_index(keys_of(t@), key@) is None,
        },
{
    let ghost keys = keys_of(t@);
    let mut i: usize = 0;
    while i < t.len()
        invariant
            keys == keys_of(t@),
            i <= t@.len(),
            forall|j: int| 0 <= j < i ==> keys[j] != key@,
        decreases t@.len() - i,
    {
        if t[i].0 == *key {
            proof {
                lemma_first_index_unique(keys, key@, i as int);
            }
            return Some(i);
        }
        i = i + 1;
    }
    proof {
        assert forall|k: int| !#[trigger] is_first_index(keys, key@, k) by {}
    }
    None
}

/// Rewrites, key by key, each property named in `keys` whose value is the
/// name of an entry of `names` to that entry's id in decimal. A property
/// whose value names nothing stops the rewrite with that key and value.
pub open spec fn wire(
    props: Seq<(Seq<char>, Seq<char>)>,
    keys: Seq<Seq<char>>,
    names: Seq<(Seq<char>, u64)>,
) -> Result<Seq<(Seq<char>, Seq<char>)>, (Seq<char>, Seq<char>)>
    decreases keys.len(),
{
    if keys.len() == 0 {
        Ok(props)
    } else {
        let k = keys[0];
        match first_index(prop_keys(props), k) {
            None => wire(props, keys.drop_first(), names),
            Some(i) => match first_index(table_names(names), props[i].1) {
                None => Err((k, props[i].1)),
                Some(j) => wire(props.update(i, (k, decimal(names[j].1 as nat))), keys.drop_first(), names),
            },
        }
    }
}

/// Wiring one key whose property names an entry of the name table rewrites
/// that property, and nothing else, to the entry's id in decimal. After
/// `SpaceDefinition::resolve_objects` the name table holds each authored
/// id with the runtime id resolution gave its object.
pub proof fn lemma_wire_rewrites_named_property(
    props: Seq<(Seq<char>, Seq<char>)>,
    key: Seq<char>,
    names: Seq<(Seq<char>, u64)>,
    i: int,
    j: int,
)
    requires
        first_index(prop_keys(props), key) == Some(i),
        first_index(table_names(names), props[i].1) == Some(j),
    ensures
        wire(props, seq![key], names) == Ok::<Seq<(Seq<char>, Seq<char>)>, (Seq<char>, Seq<char>)>(
            props.update(i, (key, decimal(names[j].1 as nat)))),
{
    let ks = seq![key];
    assert(ks[0] == key);
    assert(ks.drop_first() == Seq::<Seq<char>>::empty());
    let updated = props.update(i, (key, decimal(names[j].1 as nat)));
    assert(wire(updated, Seq::<Seq<char>>::empty(), names) == Ok::<Seq<(Seq<char>, Seq<char>)>, (Seq<char>, Seq<char>)>(updated));
    assert(wire(props, ks, names) == wire(updated, ks.drop_first(), names));
}

/// The rule table: per object type, the property keys that hold the
/// authored id of another object.
pub open spec fn rules_view(rules: Seq<(String, Vec<String>)>) -> Seq<(Seq<char>, Seq<Seq<char>>)> {
    rules.map_values(|e: (String, Vec<String>)| (e.0@, e.1@.map_values(|s: String| s@)))
}

/// Wiring of one object of type `type_id` with properties `props`: the
/// first rule for its type applies; an object of a type without rules
/// keeps its properties.
pub open spec fn wire_object(
    type_id: Seq<char>,
    props: Seq<(Seq<char>, Seq<char>)>,
    rules: Seq<(Seq<char>, Seq<Seq<char>>)>,
    names: Seq<(Seq<char>, u64)>,
) -> Result<Seq<(Seq<char>, Seq<char>)>, (Seq<char>, Seq<char>)> {
    match first_index(rules.map_values(|e: (Seq<char>, Seq<Seq<char>>)| e.0), type_id) {
        None => Ok(props),
        Some(r) => wire(props, rules[r].1, names),
    }
}

/// A property whose value names no object of the space.
pub struct WiringProblem {
    pub type_id: String,
    pub key: String,
    pub target: String,
}

/// Wires one property list along `keys`.
fn wire_props(props: &Vec<(String, String)>, keys: &Vec<String>, names: &Vec<(String, u64)>) -> (r: Result<Vec<(String, String)>, (String, String)>)
    ensures
        match r {
            Ok(p) => wire(props_view(props@), keys@.map_values(|s: String| s@), names_view(names@)) == Ok::<Seq<(Seq<char>, Seq<char>)>, (Seq<char>, Seq<char>)>(props_view(p@)),
            Err(e) => wire(props_view(props@), keys@.map_values(|s: String| s@), names_view(names@)) == Err::<Seq<(Seq<char>, Seq<char>)>, (Seq<char>, Seq<char>)>((e.0@, e.1@)),
        },
{
    let ghost kv = keys@.map_values(|s: String| s@);
    let ghost table = names_view(names@);
    let mut cur: Vec<(String, String)> = crate::map_layout::clone_properties(props);
    let mut ki: usize = 0;
    assert(kv.skip(0) == kv);
    while ki < keys.len()
        invariant
            kv == keys@.map_values(|s: String| s@),
            table == names_view(names@),
            ki <= keys@.len(),
            wire(props_view(props@), kv, table) == wire(props_view(cur@), kv.skip(ki as int), table),
        decreases keys@.len() - ki,
    {
        let ghost pv = props_view(cur@);
        let ghost rest = kv.skip(ki as int);
        assert(rest[0] == kv[ki as int]);
        assert(rest.drop_first() == kv.skip(ki + 1));
        assert(keys_of(cur@) == prop_keys(pv));
        assert(keys_of(names@) == table_names(table));
        let key = &keys[ki];
        match find_key(&cur, key) {
            None => {},
            Some(i) => {
                let target = &cur[i].1;
                match find_key(names, target) {
                    None => {
                        return Err((key.clone(), target.clone()));
                    },
                    Some(j) => {
                        let id_text = u64_to_decimal(names[j].1);
                        let k = key.clone();
                        cur.set(i, (k, id_text));
                        assert(props_view(cur@) == pv.update(i as int, (kv[ki as int], decimal(table[j as int].1 as nat))));
                    },
                }
            },
        }
        ki = ki + 1;
    }
    assert(kv.skip(ki as int).len() == 0);
    Ok(cur)
}

impl SpaceDefinition {
    /// Every resolved object wires without a dangling reference.
    pub open spec fn wiring_ok(&self, rules: Seq<(Seq<char>, Seq<Seq<char>>)>) -> bool {
        forall|i: int| 0 <= i < self.resolved_objects@.len() ==> (#[trigger] wire_object(
            self.resolved_objects@[i].type_id@,
            props_view(self.resolved_objects@[i].properties@),
            rules,
            names_view(self.authored_id_lookup@),
        )) is Ok
    }

    /// The first resolved object whose wiring meets a property value that
    /// names no object of this space, with that property.
    pub fn wiring_problem(&self, rules: &Vec<(String, Vec<String>)>) -> (p: Option<WiringProblem>)
        ensures
            p is None <==> self.wiring_ok(rules_view(rules@)),
            p matches Some(q) ==> exists|i: int| 0 <= i < self.resolved_objects@.len()
                && self.resolved_objects@[i].type_id@ == q.type_id@
                && (forall|j: int| 0 <= j < i ==> (#[trigger] wire_object(
                    self.resolved_objects@[j].type_id@,
                    props_view(self.resolved_objects@[j].properties@),
                    rules_view(rules@),
                    names_view(self.authored_id_lookup@),
                )) is Ok)
                && wire_object(
                    self.resolved_objects@[i].type_id@,
                    props_view(self.resolved_objects@[i].properties@),
                    rules_view(rules@),
                    names_view(self.authored_id_lookup@),
                ) == Err::<Seq<(Seq<char>, Seq<char>)>, (Seq<char>, Seq<char>)>((q.key@, q.target@)),
    {
        let ghost rv = rules_view(rules@);
        let mut i: usize = 0;
        while i < self.resolved_objects.len()
            invariant
                rv == rules_view(rules@),
                i <= self.resolved_objects@.len(),
                forall|j: int| 0 <= j < i ==> (#[trigger] wire_object(
                    self.resolved_objects@[j].type_id@,
                    props_view(self.resolved_objects@[j].properties@),
                    rv,
                    names_view(self.authored_id_lookup@),
                )) is Ok,
            decreases self.resolved_objects@.len() - i,
        {
            let o = &self.resolved_objects[i];
            assert(keys_of(rules@) == rv.map_values(|e: (Seq<char>, Seq<Seq<char>>)| e.0));
            match find_key(rules, &o.type_id) {
                None => {},
                Some(r) => {
                    assert(rules@[r as int].1@.map_values(|s: String| s@) == rv[r as int].1);
                    match wire_props(&o.properties, &rules[r].1, &self.authored_id_lookup) {
                        Ok(_) => {},
                        Err(e) => {
                            assert(wire_object(
                                self.resolved_objects@[i as int].type_id@,
                                props_view(self.resolved_objects@[i as int].properties@),
                                rv,
                                names_view(self.authored_id_lookup@),
                            ) is Err);
                            return Some(WiringProblem { type_id: o.type_id.clone(), key: e.0, target: e.1 });
                        },
                    }
                },
            }
            i = i + 1;
        }
        None
    }

    /// Rewrites the wired properties of every resolved object (see
    /// `wire_object`) to runtime ids in decimal; nothing else changes.
    pub fn resolve_wiring(&mut self, rules: &Vec<(String, Vec<String>)>)
        requires
            old(self).wiring_ok(rules_view(rules@)),
        ensures
            final(self).resolved_objects@.len() == old(self).resolved_objects@.len(),
            forall|i: int| 0 <= i < old(self).resolved_objects@.len() ==> {
                let o = #[trigger] old(self).resolved_objects@[i];
                let n = final(self).resolved_objects@[i];
                &&& n.id == o.id
                &&& n.type_id@ == o.type_id@
                &&& n.placement == o.placement
                &&& n.contents@ == o.contents@
                &&& n.behavior == o.behavior
                &&& n.facing == o.facing
                &&& wire_object(o.type_id@, props_view(o.properties@), rules_view(rules@), names_view(old(self).authored_id_lookup@))
                    == Ok::<Seq<(Seq<char>, Seq<char>)>, (Seq<char>, Seq<char>)>(props_view(n.properties@))
            },
            final(self).authored_id == old(self).authored_id,
            final(self).width == old(self).width,
            final(self).height == old(self).height,
            final(self).fill_floor_type == old(self).fill_floor_type,
            final(self).permanence == old(self).permanence,
            final(self).portals == old(self).portals,
            final(self).objects == old(self).objects,
            final(self).floors == old(self).floors,
            final(self).legend == old(self).legend,
            final(self).tiles == old(self).tiles,
            final(self).object_indices == old(self).object_indices,
            final(self).authored_id_lookup == old(self).authored_id_lookup,
    {
        let ghost rv = rules_view(rules@);
        let ghost names = names_view(self.authored_id_lookup@);
        let ghost before = self.resolved_objects@;
        let mut i: usize = 0;
        while i < self.resolved_objects.len()
            invariant
                rv == rules_view(rules@),
                names == names_view(self.authored_id_lookup@),
                i <= self.resolved_objects@.len(),
                self.resolved_objects@.len() == before.len(),
                forall|j: int| 0 <= j < before.len() ==> (#[trigger] wire_object(
                    before[j].type_id@,
                    props_view(before[j].properties@),
                    rv,
                    names,
                )) is Ok,
                forall|j: int| i <= j < before.len() ==> #[trigger] self.resolved_objects@[j] == before[j],
                forall|j: int| 0 <= j < i ==> {
                    let o = #[trigger] before[j];
                    let n = self.resolved_objects@[j];
                    &&& n.id == o.id
                    &&& n.type_id@ == o.type_id@
                    &&& n.placement == o.placement
                    &&& n.contents@ == o.contents@
                    &&& n.behavior == o.behavior
                    &&& n.facing == o.facing
                    &&& wire_object(o.type_id@, props_view(o.properties@), rv, names)
                        == Ok::<Seq<(Seq<char>, Seq<char>)>, (Seq<char>, Seq<char>)>(props_view(n.properties@))
                },
                self.authored_id == old(self).authored_id,
                self.width == old(self).width,
                self.height == old(self).height,
                self.fill_floor_type == old(self).fill_floor_type,
                self.permanence == old(self).permanence,
                self.portals == old(self).portals,
                self.objects == old(self).objects,
                self.floors == old(self).floors,
                self.legend == old(self).legend,
                self.tiles == old(self).tiles,
                self.object_indices == old(self).object_indices,
                self.authored_id_lookup == old(self).authored_id_lookup,
            decreases before.len() - i,
        {
            assert(keys_of(rules@) == rv.map_values(|e: (Seq<char>, Seq<Seq<char>>)| e.0));
            assert(self.resolved_objects@[i as int] == before[i as int]);
            let found = find_key(rules, &self.resolved_objects[i].type_id);
            match found {
                None => {},
                Some(r) => {
                    assert(rules@[r as int].1@.map_values(|s: String| s@) == rv[r as int].1);
                    let wired = wire_props(&self.resolved_objects[i].properties, &rules[r].1, &self.authored_id_lookup);
                    match wired {
                        Ok(p) => {
                            self.resolved_objects[i].properties = p;
                        },
                        Err(_) => {
                            assert(wire_object(before[i as int].type_id@, props_view(before[i as int].properties@), rv, names) is Ok);
                        },
                    }
                },
            }
            i = i + 1;
        }
    }
}

} // verus!
