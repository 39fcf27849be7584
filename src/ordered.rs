//! An insertion-ordered map from package names to counters, kept in an
//! `indexmap::IndexMap`. The map's contents are named by `counter_entries`;
//! each wrapper below states what the indexmap source shows over that name.
use indexmap::IndexMap;
use vstd::prelude::*;

verus! {

#[verifier::external_type_specification]
#[verifier::external_body]
#[verifier::reject_recursive_types(K)]
#[verifier::reject_recursive_types(V)]
#[verifier::reject_recursive_types(S)]
pub struct ExIndexMap<K, V, S>(IndexMap<K, V, S>);

/// The (key, value) pairs that a map holds, in the map's order.
pub uninterp spec fn counter_entries(m: IndexMap<String, usize>) -> Seq<(Seq<char>, usize)>;

/// No key appears twice.
pub open spec fn keys_unique(e: Seq<(Seq<char>, usize)>) -> bool {
    forall|i: int, j: int| 0 <= i < e.len() && 0 <= j < e.len() && i != j ==> e[i].0 != e[j].0
}

/// Relies on `IndexMap::new`: the new map is empty.
#[verifier::external_body]
pub fn counter_map_new() -> (m: IndexMap<String, usize>)
    ensures
        counter_entries(m) == Seq::<(Seq<char>, usize)>::empty(),
{
    IndexMap::new()
}

/// Relies on `IndexMap::len`: the number of entries.
#[verifier::external_body]
pub fn counter_map_len(m: &IndexMap<String, usize>) -> (r: usize)
    ensures
        r == counter_entries(*m).len(),
{
    m.len()
}

/// Relies on `IndexMap::insert`: a key already present keeps its place and
/// takes the new value (the old one is returned); a new key goes last.
#[verifier::external_body]
pub fn counter_map_insert(m: &mut IndexMap<String, usize>, key: String, value: usize) -> (r: Option<
    usize,
>)
    requires
        keys_unique(counter_entries(*old(m))),
    ensures
        keys_unique(counter_entries(*final(m))),
        forall|i: int|
            0 <= i < counter_entries(*old(m)).len() && counter_entries(*old(m))[i].0 == key@
                ==> counter_entries(*final(m)) == counter_entries(*old(m)).update(i, (key@, value))
                && r == Some(counter_entries(*old(m))[i].1),
        (forall|i: int|
            0 <= i < counter_entries(*old(m)).len() ==> counter_entries(*old(m))[i].0 != key@)
            ==> counter_entries(*final(m)) == counter_entries(*old(m)).push((key@, value))
            && r is None,
{
    m.insert(key, value)
}

/// Relies on `IndexMap::get_index_of`: the position of the key, if present.
#[verifier::external_body]
pub fn counter_map_index_of(m: &IndexMap<String, usize>, key: &String) -> (r: Option<usize>)
    ensures
        match r {
            Some(i) => i < counter_entries(*m).len() && counter_entries(*m)[i as int].0 == key@,
            None => forall|i: int|
                0 <= i < counter_entries(*m).len() ==> counter_entries(*m)[i].0 != key@,
        },
{
    m.get_index_of(key)
}

/// Relies on `IndexMap::get_index`: the entry at a position, if in range.
#[verifier::external_body]
pub fn counter_map_get_index(m: &IndexMap<String, usize>, index: usize) -> (r: Option<
    (&String, &usize),
>)
    ensures
        match r {
            Some((k, v)) => index < counter_entries(*m).len() && k@ == counter_entries(
                *m,
            )[index as int].0 && *v == counter_entries(*m)[index as int].1,
            None => index >= counter_entries(*m).len(),
        },
{
    m.get_index(index)
}

/// Relies on `IndexMut<usize>` for `IndexMap`: the value at an in-range
/// position is replaced; keys and order stay.
#[verifier::external_body]
pub fn counter_map_set_at(m: &mut IndexMap<String, usize>, index: usize, value: usize)
    requires
        index < counter_entries(*old(m)).len(),
        keys_unique(counter_entries(*old(m))),
    ensures
        counter_entries(*final(m)) == counter_entries(*old(m)).update(
            index as int,
            (counter_entries(*old(m))[index as int].0, value),
        ),
        keys_unique(counter_entries(*final(m))),
{
    m[index] = value;
}

} // verus!
