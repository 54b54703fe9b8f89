//! What holds of the index: of the map it stands for under the four
//! operations, and of its directory, slots and records between
//! operations.

use vstd::prelude::*;
use crate::facts::{lemma_authoritative, lemma_entry, lemma_own_table, lemma_referenced_once};
use crate::hash::fingerprint;
use crate::mempool::{placed, slot_ok, table_depth, table_ok, table_suffix, MemPool};
use crate::model::{delete_of, insert_of, search_of, update_of, Model};
use crate::utils::key_suffix;
use crate::word::low_bits;

verus! {

/// A key that was inserted is found with its value.
pub proof fn law_round_trip(m: Model, key: Seq<char>, val: Seq<char>)
    requires
        insert_of(m, key, val).1,
    ensures
        search_of(insert_of(m, key, val).0, key) == Some(val),
{
}

/// A key that is held is deleted once: the first delete reports it, a
/// second finds nothing.
pub proof fn law_delete_twice(m: Model, key: Seq<char>)
    requires
        m.contains_key(key),
    ensures
        delete_of(m, key).1,
        !delete_of(delete_of(m, key).0, key).1,
        search_of(delete_of(m, key).0, key) is None,
{
}

/// An update after an insert overrides the value.
pub proof fn law_update_overrides(m: Model, key: Seq<char>, v1: Seq<char>, v2: Seq<char>)
    requires
        insert_of(m, key, v1).1,
    ensures
        update_of(insert_of(m, key, v1).0, key, v2).1,
        search_of(update_of(insert_of(m, key, v1).0, key, v2).0, key) == Some(v2),
{
}

/// Of two inserts of a key that the index does not hold, whatever their
/// values, the first adds the key and the second finds it there: the
/// value of the first stays.
pub proof fn law_exists_guard(m: Model, key: Seq<char>, v1: Seq<char>, v2: Seq<char>)
    requires
        !m.contains_key(key),
    ensures
        insert_of(m, key, v1).1,
        !insert_of(insert_of(m, key, v1).0, key, v2).1,
        search_of(insert_of(insert_of(m, key, v1).0, key, v2).0, key) == Some(v1),
{
}

/// An operation on one key leaves every other key as it was.
pub proof fn law_other_keys(m: Model, key: Seq<char>, val: Seq<char>, other: Seq<char>)
    requires
        other != key,
    ensures
        search_of(insert_of(m, key, val).0, other) == search_of(m, other),
        search_of(update_of(m, key, val).0, other) == search_of(m, other),
        search_of(delete_of(m, key).0, other) == search_of(m, other),
{
}

/// Every live directory entry points to a subtable that is no deeper
/// than the entry says, and whose suffix is the low bits of the entry's
/// index at the subtable's depth.
pub proof fn law_directory_by_suffix(pool: &MemPool, i: int)
    requires
        pool.wf(),
        0 <= i < pool.size(),
    ensures
        pool.subtables@.contains_key(pool.ptr_at(i)),
        table_depth(pool.table_at(i)) <= pool.depth_at(i) <= pool.depth(),
        low_bits(i as u64, table_depth(pool.table_at(i))) == table_suffix(pool.table_at(i)),
{
    lemma_entry(pool, i);
}

/// Every slot in use of a live subtable holds a key that belongs to its
/// bucket and to its subtable: the bucket is bucket 0 of the key's first
/// group, bucket 2 of its second, or the overflow bucket of either; and the
/// key has the suffix that the subtable's header advertises, so that the
/// key's own directory entry points to this subtable.
pub proof fn law_slot_placement(pool: &MemPool, i: int, g: int, b: int, s: int, p: u64)
    requires
        pool.wf(),
        pool.refers(i, g, b, s, p),
    ensures
        pool.kvs@.contains_key(p),
        placed(pool.kvs@[p].key@, g, b),
        key_suffix(pool.kvs@[p].key@, table_depth(pool.table_at(i))) == table_suffix(
            pool.table_at(i),
        ),
        pool.index_of(pool.kvs@[p].key@) < pool.size(),
        pool.ptr_at(pool.index_of(pool.kvs@[p].key@)) == pool.ptr_at(i),
{
    assert(table_ok(pool.table_at(i), pool.kvs@));
    assert(slot_ok(pool.table_at(i), pool.kvs@, g, b, s));
    lemma_entry(pool, i);
    lemma_own_table(pool, pool.kvs@[p].key@);
    lemma_authoritative(pool, pool.ptr_at(i), pool.kvs@[p].key@);
}

/// Every record that a slot in use points to carries the checksum of its
/// key and value; the slot carries the record's length and the key's
/// fingerprint.
pub proof fn law_records_intact(pool: &MemPool, i: int, g: int, b: int, s: int, p: u64)
    requires
        pool.wf(),
        pool.refers(i, g, b, s, p),
    ensures
        pool.kvs@.contains_key(p),
        pool.kvs@[p].crc64 == crate::kvblock::record_crc(pool.kvs@[p].key@, pool.kvs@[p].value@),
        pool.table_at(i).slot_at(g, b, s).len() == pool.kvs@[p].total_len(),
        pool.table_at(i).slot_at(g, b, s).fp() == fingerprint(pool.kvs@[p].key@),
{
    assert(table_ok(pool.table_at(i), pool.kvs@));
    assert(slot_ok(pool.table_at(i), pool.kvs@, g, b, s));
}

/// No record is pointed to by two slots.
pub proof fn law_single_reference(
    pool: &MemPool,
    p: u64,
    i: int,
    g: int,
    b: int,
    s: int,
    j: int,
    g2: int,
    b2: int,
    s2: int,
)
    requires
        pool.wf(),
        pool.refers(i, g, b, s, p),
        pool.refers(j, g2, b2, s2, p),
    ensures
        pool.ptr_at(i) == pool.ptr_at(j),
        g == g2 && b == b2 && s == s2,
{
    lemma_referenced_once(pool, p, i, g, b, s, j, g2, b2, s2);
}

} // verus!
