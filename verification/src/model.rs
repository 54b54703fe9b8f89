//! The index as a map from keys to values, and what the four operations
//! do to that map.

use vstd::prelude::*;

verus! {

/// What an index holds: keys with their values.
pub type Model = Map<Seq<char>, Seq<char>>;

/// What a search of `key` returns.
pub open spec fn search_of(m: Model, key: Seq<char>) -> Option<Seq<char>> {
    if m.contains_key(key) {
        Some(m[key])
    } else {
        None
    }
}

/// What an insert that is carried out leaves and returns: the key is
/// added, and `true` returned, if the index did not hold it; else nothing
/// changes and `false` is returned.
pub open spec fn insert_of(m: Model, key: Seq<char>, val: Seq<char>) -> (Model, bool) {
    if m.contains_key(key) {
        (m, false)
    } else {
        (m.insert(key, val), true)
    }
}

/// What an update that is carried out leaves and returns: the key gets
/// the new value, and `true` is returned, if the index held it; else
/// nothing changes and `false` is returned.
pub open spec fn update_of(m: Model, key: Seq<char>, val: Seq<char>) -> (Model, bool) {
    if m.contains_key(key) {
        (m.insert(key, val), true)
    } else {
        (m, false)
    }
}

/// What a delete leaves and returns: the key is gone; `true` is returned
/// if the index held it.
pub open spec fn delete_of(m: Model, key: Seq<char>) -> (Model, bool) {
    (m.remove(key), m.contains_key(key))
}

} // verus!
