//! What follows from the invariant of the storage side.

use vstd::prelude::*;
use crate::config::{BUCKET_GROUP_NUM, BUCKET_NUM, MAX_DEPTH, SLOT_NUM};
use crate::hash::{dir_hash, fingerprint, group_hash_1, group_hash_2};
use crate::kvblock::KVBlockMem;
use crate::mempool::{
    placed, slot_ok, slots_differ, stored_at, table_depth, table_has, table_ok, table_suffix,
    table_value, MemPool,
};
use crate::subtable::{
    header_word, pos_ok, same_except, slot_written, CombinedBucket, Subtable,
};
use crate::utils::key_suffix;
use crate::word::{low56, low_bits, top_byte, with_top_byte};

verus! {

/// The fields of a header word built from a local depth and a suffix
/// that fits the suffix field.
pub proof fn lemma_header_word(local_depth: u8, suffix: u64)
    requires
        suffix < 0x100_0000_0000_0000,
    ensures
        top_byte(header_word(local_depth, suffix)) == local_depth,
        low56(header_word(local_depth, suffix)) == suffix,
{
    crate::word::lemma_with_top_byte(0, local_depth);
    crate::word::lemma_with_low56(with_top_byte(0, local_depth), suffix);
}

/// A live directory entry, its index, and the header of its subtable.
pub proof fn lemma_entry(pool: &MemPool, i: int)
    requires
        pool.shape_ok(),
        pool.dir_ok(),
        0 <= i < pool.size(),
    ensures
        0 <= i < 65536,
        pool.subtables@.contains_key(pool.ptr_at(i)),
        pool.table_at(i).wf(),
        1 <= pool.depth_at(i) <= pool.depth() <= MAX_DEPTH,
        table_depth(pool.table_at(i)) == pool.depth_at(i),
        table_suffix(pool.table_at(i)) == low_bits(i as u64, pool.depth_at(i)),
        pool.table_at(i).one_header(),
        pool.is_live(pool.ptr_at(i)),
{
    crate::bits::lemma_size_bound(pool.depth());
    assert(pool.entry_ok(i));
    let ld = pool.depth_at(i);
    crate::bits::lemma_size_bound(ld);
    let suf = low_bits(i as u64, ld);
    lemma_header_word(ld, suf);
    let t = pool.table_at(i);
    assert(t.bucket_at(0, 0).header.data == header_word(ld, suf));
    assert forall|g: int, b: int|
        0 <= g < BUCKET_GROUP_NUM && 0 <= b < BUCKET_NUM implies (#[trigger] t.bucket_at(
        g,
        b,
    )).header == t.bucket_at(0, 0).header by {
        assert(t.bucket_at(g, b).header.data == header_word(ld, suf));
    }
}

/// A key's directory index is live, and the key belongs to the subtable
/// that its index selects.
pub proof fn lemma_own_table(pool: &MemPool, key: Seq<char>)
    requires
        pool.shape_ok(),
        pool.dir_ok(),
    ensures
        0 <= pool.index_of(key) < pool.size(),
        key_suffix(key, table_depth(pool.table_of(key))) == table_suffix(pool.table_of(key)),
{
    crate::bits::lemma_size_bound(pool.depth());
    let i = pool.index_of(key);
    lemma_entry(pool, i);
    crate::bits::lemma_low_bits_nested(dir_hash(key) as u64, pool.depth(), pool.depth_at(i));
}

/// A live subtable whose header matches a key is the subtable that the
/// key's directory index selects.
pub proof fn lemma_authoritative(pool: &MemPool, t: u64, key: Seq<char>)
    requires
        pool.shape_ok(),
        pool.dir_ok(),
        pool.is_live(t),
        key_suffix(key, table_depth(pool.subtables@[t])) == table_suffix(pool.subtables@[t]),
    ensures
        pool.ptr_at(pool.index_of(key)) == t,
{
    let j = choose|j: int| 0 <= j < pool.size() && #[trigger] pool.ptr_at(j) == t;
    lemma_entry(pool, j);
    lemma_own_table(pool, key);
    let i = pool.index_of(key);
    let ld = pool.depth_at(j);
    crate::bits::lemma_low_bits_nested(dir_hash(key) as u64, pool.depth(), ld);
    assert(pool.entries_agree(j, i));
}

/// A live subtable meets the table invariant.
pub proof fn lemma_live_table(pool: &MemPool, t: u64)
    requires
        pool.shape_ok(),
        pool.dir_ok(),
        pool.tables_ok(),
        pool.is_live(t),
    ensures
        pool.subtables@.contains_key(t),
        pool.subtables@[t].wf(),
        table_ok(pool.subtables@[t], pool.kvs@),
        1 <= table_depth(pool.subtables@[t]) <= pool.depth() <= MAX_DEPTH,
        pool.subtables@[t].one_header(),
{
    let j = choose|j: int| 0 <= j < pool.size() && #[trigger] pool.ptr_at(j) == t;
    lemma_entry(pool, j);
    assert(table_ok(pool.table_at(j), pool.kvs@));
}

/// Where a key is stored, there its value is.
pub proof fn lemma_table_value(
    t: Subtable,
    kvs: Map<u64, KVBlockMem>,
    key: Seq<char>,
    g: int,
    b: int,
    s: int,
)
    requires
        table_ok(t, kvs),
        stored_at(t, kvs, key, g, b, s),
    ensures
        table_has(t, kvs, key),
        table_value(t, kvs, key) == kvs[t.slot_at(g, b, s).ptr()].value@,
{
    let (g2, b2, s2) = choose|g2: int, b2: int, s2: int| #[trigger]
        stored_at(t, kvs, key, g2, b2, s2);
    assert(slots_differ(t, kvs, g, b, s, g2, b2, s2));
}

/// A slot that holds a key lies in one of the key's four buckets and
/// carries the key's fingerprint.
pub proof fn lemma_stored_where(
    t: Subtable,
    kvs: Map<u64, KVBlockMem>,
    key: Seq<char>,
    g: int,
    b: int,
    s: int,
)
    requires
        table_ok(t, kvs),
        stored_at(t, kvs, key, g, b, s),
    ensures
        placed(key, g, b),
        t.slot_at(g, b, s).matches(kvs, key, fingerprint(key) as u8),
        key_suffix(key, table_depth(t)) == table_suffix(t),
{
    assert(slot_ok(t, kvs, g, b, s));
}

/// The two snapshots of a key's buckets are taken from table `t`.
pub open spec fn snapshots_of(t: Subtable, key: Seq<char>, cbs: [CombinedBucket; 2]) -> bool {
    &&& cbs@[0].bucket_group == group_hash_1(key)
    &&& cbs@[0].main_bucket == t.bucket_at(group_hash_1(key) as int, 0)
    &&& cbs@[0].overflow_bucket == t.bucket_at(group_hash_1(key) as int, 1)
    &&& cbs@[1].bucket_group == group_hash_2(key)
    &&& cbs@[1].main_bucket == t.bucket_at(group_hash_2(key) as int, 2)
    &&& cbs@[1].overflow_bucket == t.bucket_at(group_hash_2(key) as int, 1)
}

/// A key that neither snapshot shows is not in the table.
pub proof fn lemma_miss(t: Subtable, kvs: Map<u64, KVBlockMem>, key: Seq<char>,
    cbs: [CombinedBucket; 2])
    requires
        table_ok(t, kvs),
        snapshots_of(t, key, cbs),
        cbs@[0].misses(kvs, key),
        cbs@[1].misses(kvs, key),
    ensures
        !table_has(t, kvs, key),
{
    if table_has(t, kvs, key) {
        let (g, b, s) = choose|g: int, b: int, s: int| #[trigger] stored_at(t, kvs, key, g, b, s);
        lemma_stored_where(t, kvs, key, g, b, s);
        let fp = fingerprint(key) as u8;
        assert(t.slot_at(g, b, s) == t.bucket_at(g, b).slots@[s]);
        if b == 0 {
            assert(cbs@[0].main_bucket.slots@[s].matches(kvs, key, fp));
        } else if b == 2 {
            assert(cbs@[1].main_bucket.slots@[s].matches(kvs, key, fp));
        } else if g == group_hash_1(key) {
            assert(cbs@[0].overflow_bucket.slots@[s].matches(kvs, key, fp));
        } else {
            assert(cbs@[1].overflow_bucket.slots@[s].matches(kvs, key, fp));
        }
        assert(false);
    }
}

/// The position in the table of the slot that a snapshot shows: side
/// `which` (0 or 1), main or overflow bucket, slot `k`.
pub open spec fn shown_bucket(which: int, in_overflow: bool) -> int {
    if in_overflow {
        1
    } else {
        2 * which
    }
}

/// A key that a snapshot shows is in the table, with the value of the
/// record that the slot points to.
pub proof fn lemma_hit(
    t: Subtable,
    kvs: Map<u64, KVBlockMem>,
    key: Seq<char>,
    cbs: [CombinedBucket; 2],
    which: int,
    in_overflow: bool,
    k: int,
)
    requires
        table_ok(t, kvs),
        snapshots_of(t, key, cbs),
        0 <= which < 2,
        cbs@[which].hit(kvs, key, in_overflow, k),
    ensures
        0 <= k < SLOT_NUM,
        stored_at(
            t,
            kvs,
            key,
            cbs@[which].bucket_group as int,
            shown_bucket(which, in_overflow),
            k,
        ),
        t.slot_at(cbs@[which].bucket_group as int, shown_bucket(which, in_overflow), k)
            == cbs@[which].slot(in_overflow, k),
        table_has(t, kvs, key),
        table_value(t, kvs, key) == kvs[cbs@[which].slot(in_overflow, k).ptr()].value@,
        key_suffix(key, table_depth(t)) == table_suffix(t),
{
    crate::hash::lemma_hash_below(crate::hash::key_bytes(key), 31, BUCKET_GROUP_NUM as nat);
    crate::hash::lemma_hash_below(crate::hash::key_bytes(key), 131, BUCKET_GROUP_NUM as nat);
    let g = cbs@[which].bucket_group as int;
    let b = shown_bucket(which, in_overflow);
    assert(t.slot_at(g, b, k) == t.bucket_at(g, b).slots@[k]);
    lemma_table_value(t, kvs, key, g, b, k);
    lemma_stored_where(t, kvs, key, g, b, k);
}

/// The keys of a table with their values.
pub open spec fn table_map(t: Subtable, kvs: Map<u64, KVBlockMem>) -> Map<Seq<char>, Seq<char>> {
    Map::new(|k: Seq<char>| table_has(t, kvs, k), |k: Seq<char>| table_value(t, kvs, k))
}

/// The records that the slots of `t` point to are the same in both
/// stores.
pub open spec fn same_records(t: Subtable, kvs0: Map<u64, KVBlockMem>, kvs1: Map<u64,
    KVBlockMem>) -> bool {
    forall|g: int, b: int, s: int|
        pos_ok(g, b, s) && !(#[trigger] t.slot_at(g, b, s)).is_empty() ==> kvs1.contains_key(
            t.slot_at(g, b, s).ptr(),
        ) && kvs1[t.slot_at(g, b, s).ptr()] == kvs0[t.slot_at(g, b, s).ptr()]
}

/// A table is untouched by a change of records that it does not point
/// to.
pub proof fn lemma_table_frame(t: Subtable, kvs0: Map<u64, KVBlockMem>, kvs1: Map<u64, KVBlockMem>)
    requires
        table_ok(t, kvs0),
        same_records(t, kvs0, kvs1),
    ensures
        table_ok(t, kvs1),
        table_map(t, kvs1) == table_map(t, kvs0),
{
    assert forall|g: int, b: int, s: int| pos_ok(g, b, s) implies #[trigger] slot_ok(
        t,
        kvs1,
        g,
        b,
        s,
    ) by {
        assert(slot_ok(t, kvs0, g, b, s));
        if !t.slot_at(g, b, s).is_empty() {
            assert(kvs1[t.slot_at(g, b, s).ptr()] == kvs0[t.slot_at(g, b, s).ptr()]);
        }
    }
    assert forall|g1: int, b1: int, s1: int, g2: int, b2: int, s2: int|
        pos_ok(g1, b1, s1) && pos_ok(g2, b2, s2) implies #[trigger] slots_differ(
        t,
        kvs1,
        g1,
        b1,
        s1,
        g2,
        b2,
        s2,
    ) by {
        assert(slots_differ(t, kvs0, g1, b1, s1, g2, b2, s2));
        if !t.slot_at(g1, b1, s1).is_empty() && !t.slot_at(g2, b2, s2).is_empty() {
            assert(kvs1[t.slot_at(g1, b1, s1).ptr()] == kvs0[t.slot_at(g1, b1, s1).ptr()]);
            assert(kvs1[t.slot_at(g2, b2, s2).ptr()] == kvs0[t.slot_at(g2, b2, s2).ptr()]);
        }
    }
    assert forall|k: Seq<char>| table_has(t, kvs1, k) == table_has(t, kvs0, k) && (table_has(
        t,
        kvs0,
        k,
    ) ==> table_value(t, kvs1, k) == table_value(t, kvs0, k)) by {
        if table_has(t, kvs0, k) {
            let (g, b, s) = choose|g: int, b: int, s: int| #[trigger]
                stored_at(t, kvs0, k, g, b, s);
            assert(slot_ok(t, kvs0, g, b, s));
            assert(kvs1[t.slot_at(g, b, s).ptr()] == kvs0[t.slot_at(g, b, s).ptr()]);
            assert(stored_at(t, kvs1, k, g, b, s));
            lemma_table_value(t, kvs0, k, g, b, s);
            lemma_table_value(t, kvs1, k, g, b, s);
        }
        if table_has(t, kvs1, k) {
            let (g, b, s) = choose|g: int, b: int, s: int| #[trigger]
                stored_at(t, kvs1, k, g, b, s);
            assert(kvs1[t.slot_at(g, b, s).ptr()] == kvs0[t.slot_at(g, b, s).ptr()]);
            assert(slot_ok(t, kvs0, g, b, s));
            assert(stored_at(t, kvs0, k, g, b, s));
        }
    }
    assert(table_map(t, kvs1) =~= table_map(t, kvs0));
}

/// What a slot word for the record of `key` at `ptr` must hold.
pub open spec fn word_for(
    kvs: Map<u64, KVBlockMem>,
    word: u64,
    key: Seq<char>,
    val: Seq<char>,
    ptr: u64,
) -> bool {
    &&& crate::word::low48(word) == ptr
    &&& crate::word::second_byte(word) != 0
    &&& crate::word::second_byte(word) == kvs[ptr].total_len()
    &&& crate::word::top_byte(word) == fingerprint(key)
    &&& kvs.contains_key(ptr)
    &&& kvs[ptr].key@ == key
    &&& kvs[ptr].value@ == val
    &&& kvs[ptr].intact()
}

/// Writing the word of a new key into an empty slot of one of the key's
/// buckets adds the key to the table.
pub proof fn lemma_table_filled(
    t0: Subtable,
    t1: Subtable,
    kvs: Map<u64, KVBlockMem>,
    g: int,
    b: int,
    s: int,
    word: u64,
    key: Seq<char>,
    val: Seq<char>,
    ptr: u64,
)
    requires
        table_ok(t0, kvs),
        pos_ok(g, b, s),
        slot_written(t0, t1, g, b, s, word),
        t0.slot_at(g, b, s).is_empty(),
        word_for(kvs, word, key, val, ptr),
        key_suffix(key, table_depth(t0)) == table_suffix(t0),
        placed(key, g, b),
        !table_has(t0, kvs, key),
    ensures
        table_ok(t1, kvs),
        table_map(t1, kvs) == table_map(t0, kvs).insert(key, val),
{
    assert(t1.slot_at(g, b, s).data == word);
    assert(t1.bucket_at(0, 0).header == t0.bucket_at(0, 0).header);
    assert forall|g2: int, b2: int, s2: int| pos_ok(g2, b2, s2) implies #[trigger] slot_ok(
        t1,
        kvs,
        g2,
        b2,
        s2,
    ) by {
        assert(slot_ok(t0, kvs, g2, b2, s2));
        if !(g2 == g && b2 == b && s2 == s) {
            assert(t1.slot_at(g2, b2, s2) == t0.slot_at(g2, b2, s2));
        }
    }
    assert forall|g1: int, b1: int, s1: int, g2: int, b2: int, s2: int|
        pos_ok(g1, b1, s1) && pos_ok(g2, b2, s2) implies #[trigger] slots_differ(
        t1,
        kvs,
        g1,
        b1,
        s1,
        g2,
        b2,
        s2,
    ) by {
        assert(slots_differ(t0, kvs, g1, b1, s1, g2, b2, s2));
        let at1 = g1 == g && b1 == b && s1 == s;
        let at2 = g2 == g && b2 == b && s2 == s;
        assert(t1.slot_at(g1, b1, s1)
            == if at1 { crate::subtable::Slot { data: word } } else { t0.slot_at(g1, b1, s1) });
        assert(t1.slot_at(g2, b2, s2)
            == if at2 { crate::subtable::Slot { data: word } } else { t0.slot_at(g2, b2, s2) });
        if at1 && !at2 && !t0.slot_at(g2, b2, s2).is_empty() {
            assert(slot_ok(t0, kvs, g2, b2, s2));
            if kvs[t0.slot_at(g2, b2, s2).ptr()].key@ == key {
                assert(stored_at(t0, kvs, key, g2, b2, s2));
            }
        }
        if at2 && !at1 && !t0.slot_at(g1, b1, s1).is_empty() {
            assert(slot_ok(t0, kvs, g1, b1, s1));
            if kvs[t0.slot_at(g1, b1, s1).ptr()].key@ == key {
                assert(stored_at(t0, kvs, key, g1, b1, s1));
            }
        }
    }
    assert(stored_at(t1, kvs, key, g, b, s));
    lemma_table_value(t1, kvs, key, g, b, s);
    assert forall|k: Seq<char>| k != key implies table_has(t1, kvs, k) == table_has(t0, kvs, k)
        && (table_has(t0, kvs, k) ==> table_value(t1, kvs, k) == table_value(t0, kvs, k)) by {
        if table_has(t0, kvs, k) {
            let (g2, b2, s2) = choose|g2: int, b2: int, s2: int| #[trigger]
                stored_at(t0, kvs, k, g2, b2, s2);
            assert(t1.slot_at(g2, b2, s2) == t0.slot_at(g2, b2, s2));
            assert(stored_at(t1, kvs, k, g2, b2, s2));
            lemma_table_value(t0, kvs, k, g2, b2, s2);
            lemma_table_value(t1, kvs, k, g2, b2, s2);
        }
        if table_has(t1, kvs, k) {
            let (g2, b2, s2) = choose|g2: int, b2: int, s2: int| #[trigger]
                stored_at(t1, kvs, k, g2, b2, s2);
            assert(t1.slot_at(g2, b2, s2) == t0.slot_at(g2, b2, s2));
            assert(stored_at(t0, kvs, k, g2, b2, s2));
        }
    }
    assert(table_map(t1, kvs) =~= table_map(t0, kvs).insert(key, val));
}

/// Clearing the slot that holds a key removes the key from the table,
/// and no slot of the table points to the key's record any more.
pub proof fn lemma_table_cleared(
    t0: Subtable,
    t1: Subtable,
    kvs: Map<u64, KVBlockMem>,
    g: int,
    b: int,
    s: int,
    key: Seq<char>,
)
    requires
        table_ok(t0, kvs),
        slot_written(t0, t1, g, b, s, 0),
        stored_at(t0, kvs, key, g, b, s),
    ensures
        table_ok(t1, kvs),
        table_map(t1, kvs) == table_map(t0, kvs).remove(key),
        forall|g2: int, b2: int, s2: int|
            pos_ok(g2, b2, s2) && !(#[trigger] t1.slot_at(g2, b2, s2)).is_empty() ==> t1.slot_at(
                g2,
                b2,
                s2,
            ).ptr() != t0.slot_at(g, b, s).ptr(),
{
    crate::word::lemma_zero_word();
    assert(t1.slot_at(g, b, s).data == 0);
    assert(t1.bucket_at(0, 0).header == t0.bucket_at(0, 0).header);
    assert forall|g2: int, b2: int, s2: int| pos_ok(g2, b2, s2) implies #[trigger] slot_ok(
        t1,
        kvs,
        g2,
        b2,
        s2,
    ) by {
        assert(slot_ok(t0, kvs, g2, b2, s2));
        if !(g2 == g && b2 == b && s2 == s) {
            assert(t1.slot_at(g2, b2, s2) == t0.slot_at(g2, b2, s2));
        }
    }
    assert forall|g1: int, b1: int, s1: int, g2: int, b2: int, s2: int|
        pos_ok(g1, b1, s1) && pos_ok(g2, b2, s2) implies #[trigger] slots_differ(
        t1,
        kvs,
        g1,
        b1,
        s1,
        g2,
        b2,
        s2,
    ) by {
        assert(slots_differ(t0, kvs, g1, b1, s1, g2, b2, s2));
        let at1 = g1 == g && b1 == b && s1 == s;
        let at2 = g2 == g && b2 == b && s2 == s;
        assert(t1.slot_at(g1, b1, s1)
            == if at1 { crate::subtable::Slot { data: 0 } } else { t0.slot_at(g1, b1, s1) });
        assert(t1.slot_at(g2, b2, s2)
            == if at2 { crate::subtable::Slot { data: 0 } } else { t0.slot_at(g2, b2, s2) });
    }
    assert forall|g2: int, b2: int, s2: int|
        pos_ok(g2, b2, s2) && !(#[trigger] t1.slot_at(g2, b2, s2)).is_empty() implies t1.slot_at(
        g2,
        b2,
        s2,
    ).ptr() != t0.slot_at(g, b, s).ptr() by {
        assert(!(g2 == g && b2 == b && s2 == s));
        assert(t1.slot_at(g2, b2, s2) == t0.slot_at(g2, b2, s2));
        assert(slots_differ(t0, kvs, g, b, s, g2, b2, s2));
    }
    assert forall|k: Seq<char>| table_has(t1, kvs, k) == (k != key && table_has(t0, kvs, k)) && (
    table_has(t1, kvs, k) ==> table_value(t1, kvs, k) == table_value(t0, kvs, k)) by {
        if k != key && table_has(t0, kvs, k) {
            let (g2, b2, s2) = choose|g2: int, b2: int, s2: int| #[trigger]
                stored_at(t0, kvs, k, g2, b2, s2);
            assert(t1.slot_at(g2, b2, s2) == t0.slot_at(g2, b2, s2));
            assert(stored_at(t1, kvs, k, g2, b2, s2));
            lemma_table_value(t0, kvs, k, g2, b2, s2);
            lemma_table_value(t1, kvs, k, g2, b2, s2);
        }
        if table_has(t1, kvs, k) {
            let (g2, b2, s2) = choose|g2: int, b2: int, s2: int| #[trigger]
                stored_at(t1, kvs, k, g2, b2, s2);
            assert(!(g2 == g && b2 == b && s2 == s));
            assert(t1.slot_at(g2, b2, s2) == t0.slot_at(g2, b2, s2));
            assert(stored_at(t0, kvs, k, g2, b2, s2));
            assert(slots_differ(t0, kvs, g, b, s, g2, b2, s2));
        }
    }
    assert(table_map(t1, kvs) =~= table_map(t0, kvs).remove(key));
}

/// Replacing the word of the slot that holds a key by the word of a new
/// record of the same key gives the key the new value, and no slot of the
/// table points to the old record any more.
pub proof fn lemma_table_replaced(
    t0: Subtable,
    t1: Subtable,
    kvs: Map<u64, KVBlockMem>,
    g: int,
    b: int,
    s: int,
    word: u64,
    key: Seq<char>,
    val: Seq<char>,
    ptr: u64,
)
    requires
        table_ok(t0, kvs),
        slot_written(t0, t1, g, b, s, word),
        stored_at(t0, kvs, key, g, b, s),
        word_for(kvs, word, key, val, ptr),
        ptr != t0.slot_at(g, b, s).ptr(),
    ensures
        table_ok(t1, kvs),
        table_map(t1, kvs) == table_map(t0, kvs).insert(key, val),
        forall|g2: int, b2: int, s2: int|
            pos_ok(g2, b2, s2) && !(#[trigger] t1.slot_at(g2, b2, s2)).is_empty() ==> t1.slot_at(
                g2,
                b2,
                s2,
            ).ptr() != t0.slot_at(g, b, s).ptr(),
{
    assert(t1.slot_at(g, b, s).data == word);
    assert(t1.bucket_at(0, 0).header == t0.bucket_at(0, 0).header);
    assert(slot_ok(t0, kvs, g, b, s));
    assert forall|g2: int, b2: int, s2: int| pos_ok(g2, b2, s2) implies #[trigger] slot_ok(
        t1,
        kvs,
        g2,
        b2,
        s2,
    ) by {
        assert(slot_ok(t0, kvs, g2, b2, s2));
        if !(g2 == g && b2 == b && s2 == s) {
            assert(t1.slot_at(g2, b2, s2) == t0.slot_at(g2, b2, s2));
        }
    }
    assert forall|g1: int, b1: int, s1: int, g2: int, b2: int, s2: int|
        pos_ok(g1, b1, s1) && pos_ok(g2, b2, s2) implies #[trigger] slots_differ(
        t1,
        kvs,
        g1,
        b1,
        s1,
        g2,
        b2,
        s2,
    ) by {
        assert(slots_differ(t0, kvs, g1, b1, s1, g2, b2, s2));
        let at1 = g1 == g && b1 == b && s1 == s;
        let at2 = g2 == g && b2 == b && s2 == s;
        assert(t1.slot_at(g1, b1, s1)
            == if at1 { crate::subtable::Slot { data: word } } else { t0.slot_at(g1, b1, s1) });
        assert(t1.slot_at(g2, b2, s2)
            == if at2 { crate::subtable::Slot { data: word } } else { t0.slot_at(g2, b2, s2) });
        if at1 && !at2 {
            assert(slots_differ(t0, kvs, g, b, s, g2, b2, s2));
        }
        if at2 && !at1 {
            assert(slots_differ(t0, kvs, g1, b1, s1, g, b, s));
        }
    }
    assert forall|g2: int, b2: int, s2: int|
        pos_ok(g2, b2, s2) && !(#[trigger] t1.slot_at(g2, b2, s2)).is_empty() implies t1.slot_at(
        g2,
        b2,
        s2,
    ).ptr() != t0.slot_at(g, b, s).ptr() by {
        if !(g2 == g && b2 == b && s2 == s) {
            assert(t1.slot_at(g2, b2, s2) == t0.slot_at(g2, b2, s2));
            assert(slots_differ(t0, kvs, g, b, s, g2, b2, s2));
        }
    }
    assert(stored_at(t1, kvs, key, g, b, s));
    lemma_table_value(t1, kvs, key, g, b, s);
    lemma_table_value(t0, kvs, key, g, b, s);
    assert forall|k: Seq<char>| k != key implies table_has(t1, kvs, k) == table_has(t0, kvs, k)
        && (table_has(t0, kvs, k) ==> table_value(t1, kvs, k) == table_value(t0, kvs, k)) by {
        if table_has(t0, kvs, k) {
            let (g2, b2, s2) = choose|g2: int, b2: int, s2: int| #[trigger]
                stored_at(t0, kvs, k, g2, b2, s2);
            assert(t1.slot_at(g2, b2, s2) == t0.slot_at(g2, b2, s2));
            assert(stored_at(t1, kvs, k, g2, b2, s2));
            lemma_table_value(t0, kvs, k, g2, b2, s2);
            lemma_table_value(t1, kvs, k, g2, b2, s2);
        }
        if table_has(t1, kvs, k) {
            let (g2, b2, s2) = choose|g2: int, b2: int, s2: int| #[trigger]
                stored_at(t1, kvs, k, g2, b2, s2);
            assert(t1.slot_at(g2, b2, s2) == t0.slot_at(g2, b2, s2));
            assert(stored_at(t0, kvs, k, g2, b2, s2));
        }
    }
    assert(table_map(t1, kvs) =~= table_map(t0, kvs).insert(key, val));
}

/// A record is pointed to by one slot at most.
pub proof fn lemma_referenced_once(
    pool: &MemPool,
    p: u64,
    i: int,
    g: int,
    b: int,
    s: int,
    j: int,
    g2: int,
    b2: int,
    s2: int,
)
    requires
        pool.shape_ok(),
        pool.dir_ok(),
        pool.tables_ok(),
        pool.refers(i, g, b, s, p),
        pool.refers(j, g2, b2, s2, p),
    ensures
        pool.ptr_at(i) == pool.ptr_at(j),
        g == g2 && b == b2 && s == s2,
{
    let key = pool.kvs@[p].key@;
    lemma_entry(pool, i);
    lemma_entry(pool, j);
    assert(table_ok(pool.table_at(i), pool.kvs@));
    assert(table_ok(pool.table_at(j), pool.kvs@));
    assert(slot_ok(pool.table_at(i), pool.kvs@, g, b, s));
    assert(slot_ok(pool.table_at(j), pool.kvs@, g2, b2, s2));
    lemma_authoritative(pool, pool.ptr_at(i), key);
    lemma_authoritative(pool, pool.ptr_at(j), key);
    assert(slots_differ(pool.table_at(i), pool.kvs@, g, b, s, g2, b2, s2));
}

/// Every record that a live slot points to is in the store.
pub proof fn lemma_referenced_stored(pool: &MemPool, p: u64)
    requires
        pool.tables_ok(),
        pool.referenced(p),
    ensures
        pool.kvs@.contains_key(p),
{
    let (i, g, b, s) = choose|i: int, g: int, b: int, s: int| #[trigger] pool.refers(i, g, b, s, p);
    assert(table_ok(pool.table_at(i), pool.kvs@));
    assert(slot_ok(pool.table_at(i), pool.kvs@, g, b, s));
}

/// The index is untouched by a change of records that no live slot
/// points to.
pub proof fn lemma_blocks_frame(q0: &MemPool, q1: &MemPool)
    requires
        q0.shape_ok(),
        q0.dir_ok(),
        q0.tables_ok(),
        q1.shape_ok(),
        q1.store_ok(),
        q1.same_index(q0),
        forall|p: u64|
            q0.referenced(p) ==> #[trigger] q1.kvs@.contains_key(p) && q1.kvs@[p] == q0.kvs@[p],
    ensures
        q1.wf_core(),
        q1@ == q0@,
        q1.unlocked() == q0.unlocked(),
        q1.extends(q0),
        forall|p: u64| q1.referenced(p) == q0.referenced(p),
{
    assert forall|i: int, g: int, b: int, s: int, p: u64|
        q1.refers(i, g, b, s, p) == q0.refers(i, g, b, s, p) by {}
    assert forall|p: u64| q1.referenced(p) == q0.referenced(p) by {
        if q0.referenced(p) {
            let (i, g, b, s) = choose|i: int, g: int, b: int, s: int| #[trigger]
                q0.refers(i, g, b, s, p);
            assert(q1.refers(i, g, b, s, p));
        }
        if q1.referenced(p) {
            let (i, g, b, s) = choose|i: int, g: int, b: int, s: int| #[trigger]
                q1.refers(i, g, b, s, p);
            assert(q0.refers(i, g, b, s, p));
        }
    }
    assert forall|i: int| 0 <= i < q1.size() implies #[trigger] q1.entry_ok(i) by {
        assert(q0.entry_ok(i));
    }
    assert forall|i: int, j: int| 0 <= i < q1.size() && 0 <= j < q1.size() implies #[trigger]
        q1.entries_agree(i, j) by {
        assert(q0.entries_agree(i, j));
    }
    assert forall|i: int| 0 <= i < q1.size() implies table_ok(
        #[trigger] q1.table_at(i),
        q1.kvs@,
    ) && table_map(q1.table_at(i), q1.kvs@) == table_map(q0.table_at(i), q0.kvs@) by {
        let t = q0.table_at(i);
        assert(table_ok(t, q0.kvs@));
        assert forall|g: int, b: int, s: int|
            pos_ok(g, b, s) && !(#[trigger] t.slot_at(g, b, s)).is_empty()
            implies q1.kvs@.contains_key(t.slot_at(g, b, s).ptr()) && q1.kvs@[t.slot_at(
            g,
            b,
            s,
        ).ptr()] == q0.kvs@[t.slot_at(g, b, s).ptr()] by {
            assert(q0.refers(i, g, b, s, t.slot_at(g, b, s).ptr()));
        }
        lemma_table_frame(t, q0.kvs@, q1.kvs@);
    }
    assert forall|k: Seq<char>| q1.contains(k) == q0.contains(k) && (q0.contains(k) ==> q1.value(
        k,
    ) == q0.value(k)) by {
        lemma_own_table(q0, k);
        let i = q0.index_of(k);
        assert(table_map(q1.table_at(i), q1.kvs@) == table_map(q0.table_at(i), q0.kvs@));
        assert(table_map(q1.table_at(i), q1.kvs@).contains_key(k) == q1.contains(k));
        assert(table_map(q0.table_at(i), q0.kvs@).contains_key(k) == q0.contains(k));
        if q0.contains(k) {
            assert(table_map(q1.table_at(i), q1.kvs@)[k] == q1.value(k));
            assert(table_map(q0.table_at(i), q0.kvs@)[k] == q0.value(k));
        }
    }
    assert(q1@ =~= q0@);
    assert forall|t: u64| q0.is_live(t) implies q1.is_live(t) by {
        let i = choose|i: int| 0 <= i < q0.size() && #[trigger] q0.ptr_at(i) == t;
        assert(q1.ptr_at(i) == t);
    }
}

/// The pool `q1` is `q0` with one live subtable changed: the table
/// stored at `tptr` kept its headers and meets the table invariant; the
/// directory and the records are the same.
pub open spec fn table_changed(q0: &MemPool, q1: &MemPool, tptr: u64) -> bool {
    &&& q1.dir == q0.dir
    &&& q1.kvs@ == q0.kvs@
    &&& q1.memory_manager == q0.memory_manager
    &&& same_except(q0.subtables@, q1.subtables@, tptr)
    &&& q0.subtables@.contains_key(tptr)
    &&& q1.subtables@[tptr].wf()
    &&& q1.subtables@[tptr].same_headers(&q0.subtables@[tptr])
    &&& table_ok(q1.subtables@[tptr], q1.kvs@)
}

/// A change of one subtable that keeps its headers and the table
/// invariant keeps the invariant of the storage side, and changes nothing
/// for the keys of other subtables.
pub proof fn lemma_table_step(q0: &MemPool, q1: &MemPool, tptr: u64)
    requires
        q0.wf_core(),
        table_changed(q0, q1, tptr),
    ensures
        q1.wf_core(),
        q1.unlocked() == q0.unlocked(),
        q1.extends(q0),
        forall|k: Seq<char>|
            q0.ptr_at(q0.index_of(k)) != tptr ==> #[trigger] q1.contains(k) == q0.contains(k)
                && q1.value(k) == q0.value(k),
        forall|i: int, g: int, b: int, s: int, p: u64|
            q0.ptr_at(i) != tptr ==> #[trigger] q1.refers(i, g, b, s, p)
                == q0.refers(i, g, b, s, p),
{
    assert(q1.shape_ok()) by {
        assert forall|t: u64| #[trigger] q1.subtables@.contains_key(t) implies q1.subtables@[t].wf() by {
            if t != tptr {
                assert(q0.subtables@.contains_key(t));
            }
        }
    }
    assert(q1.store_ok()) by {
        assert forall|t: u64| #[trigger] q1.subtables@.contains_key(t) implies {
            &&& t < crate::config::ADDRESS_LIMIT
            &&& q1.memory_manager.allocated().contains_key(t as int)
            &&& q1.memory_manager.allocated()[t as int] == crate::config::SUBTABLE_SIZE
        } by {
            assert(q0.subtables@.contains_key(t));
        }
        assert forall|p: u64| #[trigger] q1.kvs@.contains_key(p) implies {
            &&& p < crate::config::ADDRESS_LIMIT
            &&& q1.kvs@[p].wf()
            &&& q1.kvs@[p].total_len() <= crate::config::MAX_KV_SIZE
            &&& q1.memory_manager.allocated().contains_key(p as int)
            &&& q1.memory_manager.allocated()[p as int] == crate::mm::round_up(
                q1.kvs@[p].total_len(),
            )
        } by {
            assert(q0.kvs@.contains_key(p));
        }
    }
    assert forall|i: int| 0 <= i < q1.size() implies #[trigger] q1.entry_ok(i) by {
        assert(q0.entry_ok(i));
        let t0 = q0.table_at(i);
        let t1 = q1.table_at(i);
        let h = header_word(q0.depth_at(i), low_bits(i as u64, q0.depth_at(i)));
        if q0.ptr_at(i) == tptr {
            assert forall|g: int, b: int|
                0 <= g < BUCKET_GROUP_NUM && 0 <= b < BUCKET_NUM implies (#[trigger] t1.bucket_at(
                g,
                b,
            )).header.data == h by {
                assert(t1.bucket_at(g, b).header == t0.bucket_at(g, b).header);
                assert(t0.bucket_at(g, b).header.data == h);
            }
        } else {
            assert(q0.subtables@.contains_key(q0.ptr_at(i)));
            assert(t1 == t0);
        }
    }
    assert forall|i: int, j: int| 0 <= i < q1.size() && 0 <= j < q1.size() implies #[trigger]
        q1.entries_agree(i, j) by {
        assert(q0.entries_agree(i, j));
    }
    assert forall|i: int| 0 <= i < q1.size() implies table_ok(
        #[trigger] q1.table_at(i),
        q1.kvs@,
    ) by {
        assert(q0.entry_ok(i));
        if q0.ptr_at(i) != tptr {
            assert(q1.table_at(i) == q0.table_at(i));
            assert(table_ok(q0.table_at(i), q0.kvs@));
        }
    }
    assert forall|k: Seq<char>| q0.ptr_at(q0.index_of(k)) != tptr implies #[trigger] q1.contains(
        k,
    ) == q0.contains(k) && q1.value(k) == q0.value(k) by {
        lemma_own_table(q0, k);
        assert(q0.entry_ok(q0.index_of(k)));
        assert(q1.table_of(k) == q0.table_of(k));
    }
    assert forall|t: u64| q0.is_live(t) implies q1.is_live(t) by {
        let i = choose|i: int| 0 <= i < q0.size() && #[trigger] q0.ptr_at(i) == t;
        assert(q1.ptr_at(i) == t);
    }
    assert forall|i: int, g: int, b: int, s: int, p: u64|
        q0.ptr_at(i) != tptr implies #[trigger] q1.refers(i, g, b, s, p) == q0.refers(
        i,
        g,
        b,
        s,
        p,
    ) by {
        if 0 <= i < q0.size() {
            assert(q0.entry_ok(i));
            assert(q1.table_at(i) == q0.table_at(i));
        }
    }
}

/// The pool `q1` is `q0` with the word `word` in slot `(g, b, s)` of the
/// subtable stored at `tptr`.
pub open spec fn slot_changed(
    q0: &MemPool,
    q1: &MemPool,
    tptr: u64,
    g: int,
    b: int,
    s: int,
    word: u64,
) -> bool {
    &&& q1.dir == q0.dir
    &&& q1.kvs@ == q0.kvs@
    &&& q1.memory_manager == q0.memory_manager
    &&& same_except(q0.subtables@, q1.subtables@, tptr)
    &&& q0.subtables@.contains_key(tptr)
    &&& slot_written(q0.subtables@[tptr], q1.subtables@[tptr], g, b, s, word)
}

/// An insert's write: the word of a new key goes into an empty slot of
/// one of the key's buckets in the key's subtable.
pub proof fn lemma_slot_filled(
    q0: &MemPool,
    q1: &MemPool,
    g: int,
    b: int,
    s: int,
    word: u64,
    key: Seq<char>,
    val: Seq<char>,
    ptr: u64,
)
    requires
        q0.wf_core(),
        slot_changed(q0, q1, q0.ptr_at(q0.index_of(key)), g, b, s, word),
        pos_ok(g, b, s),
        q0.table_of(key).slot_at(g, b, s).is_empty(),
        word_for(q0.kvs@, word, key, val, ptr),
        placed(key, g, b),
        !q0.contains(key),
    ensures
        q1.wf_core(),
        q1@ == q0@.insert(key, val),
        q1.unlocked() == q0.unlocked(),
        q1.extends(q0),
{
    let tptr = q0.ptr_at(q0.index_of(key));
    let t0 = q0.subtables@[tptr];
    let t1 = q1.subtables@[tptr];
    lemma_own_table(q0, key);
    lemma_entry(q0, q0.index_of(key));
    assert(table_ok(q0.table_at(q0.index_of(key)), q0.kvs@));
    lemma_table_filled(t0, t1, q0.kvs@, g, b, s, word, key, val, ptr);
    lemma_table_step(q0, q1, tptr);
    assert forall|k: Seq<char>| q1.contains(k) == (k == key || q0.contains(k)) && (q1.contains(k)
        ==> q1.value(k) == if k == key {
        val
    } else {
        q0.value(k)
    }) by {
        if q0.ptr_at(q0.index_of(k)) == tptr {
            assert(q1.table_of(k) == t1);
            assert(q0.table_of(k) == t0);
            assert(table_map(t1, q0.kvs@).contains_key(k) == q1.contains(k));
            assert(table_map(t0, q0.kvs@).contains_key(k) == q0.contains(k));
            if q1.contains(k) {
                assert(table_map(t1, q0.kvs@)[k] == q1.value(k));
                if k != key {
                    assert(table_map(t0, q0.kvs@)[k] == q0.value(k));
                }
            }
        }
    }
    assert(q1@ =~= q0@.insert(key, val));
}

/// A delete's write: the slot that holds the key is cleared.
pub proof fn lemma_slot_cleared(
    q0: &MemPool,
    q1: &MemPool,
    g: int,
    b: int,
    s: int,
    key: Seq<char>,
)
    requires
        q0.wf_core(),
        slot_changed(q0, q1, q0.ptr_at(q0.index_of(key)), g, b, s, 0),
        stored_at(q0.table_of(key), q0.kvs@, key, g, b, s),
    ensures
        q1.wf_core(),
        q1@ == q0@.remove(key),
        q1.unlocked() == q0.unlocked(),
        q1.extends(q0),
        !q1.referenced(q0.table_of(key).slot_at(g, b, s).ptr()),
{
    let i0 = q0.index_of(key);
    let tptr = q0.ptr_at(i0);
    let t0 = q0.subtables@[tptr];
    let t1 = q1.subtables@[tptr];
    let p = t0.slot_at(g, b, s).ptr();
    lemma_own_table(q0, key);
    lemma_entry(q0, i0);
    assert(table_ok(q0.table_at(i0), q0.kvs@));
    lemma_table_cleared(t0, t1, q0.kvs@, g, b, s, key);
    lemma_table_step(q0, q1, tptr);
    assert forall|k: Seq<char>| q1.contains(k) == (k != key && q0.contains(k)) && (q1.contains(k)
        ==> q1.value(k) == q0.value(k)) by {
        if q0.ptr_at(q0.index_of(k)) == tptr {
            assert(q1.table_of(k) == t1);
            assert(q0.table_of(k) == t0);
            assert(table_map(t1, q0.kvs@).contains_key(k) == q1.contains(k));
            assert(table_map(t0, q0.kvs@).contains_key(k) == q0.contains(k));
            if q1.contains(k) {
                assert(table_map(t1, q0.kvs@)[k] == q1.value(k));
                assert(table_map(t0, q0.kvs@)[k] == q0.value(k));
            }
        }
    }
    assert(q1@ =~= q0@.remove(key));
    if q1.referenced(p) {
        let (i, g2, b2, s2) = choose|i: int, g2: int, b2: int, s2: int| #[trigger]
            q1.refers(i, g2, b2, s2, p);
        assert(q0.refers(i0, g, b, s, p));
        if q0.ptr_at(i) != tptr {
            assert(q0.refers(i, g2, b2, s2, p));
            lemma_referenced_once(q0, p, i, g2, b2, s2, i0, g, b, s);
        } else {
            assert(q1.table_at(i) == t1);
        }
        assert(false);
    }
}

/// An update's write: the slot that holds the key gets the word of a new
/// record of the key.
pub proof fn lemma_slot_replaced(
    q0: &MemPool,
    q1: &MemPool,
    g: int,
    b: int,
    s: int,
    word: u64,
    key: Seq<char>,
    val: Seq<char>,
    ptr: u64,
)
    requires
        q0.wf_core(),
        slot_changed(q0, q1, q0.ptr_at(q0.index_of(key)), g, b, s, word),
        stored_at(q0.table_of(key), q0.kvs@, key, g, b, s),
        word_for(q0.kvs@, word, key, val, ptr),
        !q0.referenced(ptr),
    ensures
        q1.wf_core(),
        q1@ == q0@.insert(key, val),
        q1.unlocked() == q0.unlocked(),
        q1.extends(q0),
        !q1.referenced(q0.table_of(key).slot_at(g, b, s).ptr()),
{
    let i0 = q0.index_of(key);
    let tptr = q0.ptr_at(i0);
    let t0 = q0.subtables@[tptr];
    let t1 = q1.subtables@[tptr];
    let p = t0.slot_at(g, b, s).ptr();
    lemma_own_table(q0, key);
    lemma_entry(q0, i0);
    assert(table_ok(q0.table_at(i0), q0.kvs@));
    assert(q0.refers(i0, g, b, s, p));
    lemma_table_replaced(t0, t1, q0.kvs@, g, b, s, word, key, val, ptr);
    lemma_table_step(q0, q1, tptr);
    assert forall|k: Seq<char>| q1.contains(k) == (k == key || q0.contains(k)) && (q1.contains(k)
        ==> q1.value(k) == if k == key {
        val
    } else {
        q0.value(k)
    }) by {
        if q0.ptr_at(q0.index_of(k)) == tptr {
            assert(q1.table_of(k) == t1);
            assert(q0.table_of(k) == t0);
            assert(table_map(t1, q0.kvs@).contains_key(k) == q1.contains(k));
            assert(table_map(t0, q0.kvs@).contains_key(k) == q0.contains(k));
            if q1.contains(k) {
                assert(table_map(t1, q0.kvs@)[k] == q1.value(k));
                if k != key {
                    assert(table_map(t0, q0.kvs@)[k] == q0.value(k));
                }
            }
        }
    }
    assert(q1@ =~= q0@.insert(key, val));
    if q1.referenced(p) {
        let (i, g2, b2, s2) = choose|i: int, g2: int, b2: int, s2: int| #[trigger]
            q1.refers(i, g2, b2, s2, p);
        if q0.ptr_at(i) != tptr {
            assert(q0.refers(i, g2, b2, s2, p));
            lemma_referenced_once(q0, p, i, g2, b2, s2, i0, g, b, s);
        } else {
            assert(q1.table_at(i) == t1);
        }
        assert(false);
    }
}

/// A client that could use its cached directory against a pool can use
/// it against any pool that keeps that pool's subtables live.
pub proof fn lemma_client_extends(c: &crate::client::Client, q0: &MemPool, q1: &MemPool)
    requires
        c.wf(q0),
        q1.extends(q0),
    ensures
        c.wf(q1),
{
    assert forall|i: int| 0 <= i < c.size() implies crate::directory::entry_lock(
        (#[trigger] c.directory.entries@[i]).data,
    ) == 0 && q1.is_live(crate::directory::entry_ptr(c.word(i))) by {
        assert(q0.is_live(crate::directory::entry_ptr(c.word(i))));
    }
    assert forall|i: int| c.size() <= i < crate::config::MAX_ENTRY_NUM implies (
    #[trigger] c.directory.entries@[i]).data == 0 by {}
}

/// The pool `q1` has the subtables, records and allocator of `q0`.
pub open spec fn same_store(q0: &MemPool, q1: &MemPool) -> bool {
    &&& q1.subtables@ == q0.subtables@
    &&& q1.kvs@ == q0.kvs@
    &&& q1.memory_manager == q0.memory_manager
    &&& q1.dir.entries@.len() == q0.dir.entries@.len()
}

/// The directory of `q1` is that of `q0` at one more bit of depth: each
/// entry of the upper half points where its counterpart in the lower half
/// points, at the same local depth.
pub open spec fn doubled(q0: &MemPool, q1: &MemPool) -> bool {
    &&& same_store(q0, q1)
    &&& q1.dir.global_depth == q0.dir.global_depth + 1
    &&& forall|j: int|
        0 <= j < q1.size() ==> #[trigger] q1.ptr_at(j) == q0.ptr_at(
            low_bits(j as u64, q0.depth()) as int,
        ) && q1.depth_at(j) == q0.depth_at(low_bits(j as u64, q0.depth()) as int)
    &&& forall|j: int|
        q1.size() <= j < crate::config::MAX_ENTRY_NUM ==> (#[trigger] q1.dir.entries@[j]).data == 0
}

/// The directory of `q1` is that of `q0` up to lock bytes.
pub open spec fn relocked(q0: &MemPool, q1: &MemPool) -> bool {
    &&& same_store(q0, q1)
    &&& q1.dir.global_depth == q0.dir.global_depth
    &&& forall|j: int|
        0 <= j < q0.size() ==> #[trigger] q1.ptr_at(j) == q0.ptr_at(j) && q1.depth_at(j)
            == q0.depth_at(j)
    &&& forall|j: int|
        q0.size() <= j < crate::config::MAX_ENTRY_NUM ==> (#[trigger] q1.dir.entries@[j]).data == 0
}

/// Lock bytes do not matter to the invariant nor to what the index
/// holds.
pub proof fn lemma_relocked(q0: &MemPool, q1: &MemPool)
    requires
        q0.wf_core(),
        relocked(q0, q1),
    ensures
        q1.wf_core(),
        q1@ == q0@,
        q1.extends(q0),
        q0.extends(q1),
        forall|p: u64| q1.referenced(p) == q0.referenced(p),
{
    assert(q1.size() == q0.size());
    assert forall|j: int| 0 <= j < q0.size() implies q1.table_at(j) == q0.table_at(j) by {
        assert(q1.ptr_at(j) == q0.ptr_at(j));
    }
    assert forall|i: int| 0 <= i < q1.size() implies #[trigger] q1.entry_ok(i) by {
        assert(q0.entry_ok(i));
        assert(q1.ptr_at(i) == q0.ptr_at(i));
    }
    assert forall|i: int, j: int| 0 <= i < q1.size() && 0 <= j < q1.size() implies #[trigger]
        q1.entries_agree(i, j) by {
        assert(q0.entries_agree(i, j));
        assert(q1.ptr_at(i) == q0.ptr_at(i));
        assert(q1.ptr_at(j) == q0.ptr_at(j));
    }
    assert forall|i: int| 0 <= i < q1.size() implies table_ok(
        #[trigger] q1.table_at(i),
        q1.kvs@,
    ) by {
        assert(q1.table_at(i) == q0.table_at(i));
        assert(table_ok(q0.table_at(i), q0.kvs@));
    }
    assert forall|k: Seq<char>| q1.contains(k) == q0.contains(k) && q1.value(k) == q0.value(k) by {
        lemma_own_table(q0, k);
        assert(q1.table_at(q0.index_of(k)) == q0.table_at(q0.index_of(k)));
    }
    assert(q1@ =~= q0@);
    assert forall|t: u64| q0.is_live(t) == q1.is_live(t) by {
        if q0.is_live(t) {
            let i = choose|i: int| 0 <= i < q0.size() && #[trigger] q0.ptr_at(i) == t;
            assert(q1.ptr_at(i) == t);
        }
        if q1.is_live(t) {
            let i = choose|i: int| 0 <= i < q1.size() && #[trigger] q1.ptr_at(i) == t;
            assert(q1.ptr_at(i) == q0.ptr_at(i));
        }
    }
    assert forall|p: u64| q1.referenced(p) == q0.referenced(p) by {
        if q0.referenced(p) {
            let (i, g, b, s) = choose|i: int, g: int, b: int, s: int| #[trigger]
                q0.refers(i, g, b, s, p);
            assert(q1.table_at(i) == q0.table_at(i));
            assert(q1.refers(i, g, b, s, p));
        }
        if q1.referenced(p) {
            let (i, g, b, s) = choose|i: int, g: int, b: int, s: int| #[trigger]
                q1.refers(i, g, b, s, p);
            assert(q1.table_at(i) == q0.table_at(i));
            assert(q0.refers(i, g, b, s, p));
        }
    }
}

/// Doubling the directory keeps the invariant and what the index holds.
pub proof fn lemma_doubled(q0: &MemPool, q1: &MemPool)
    requires
        q0.wf_core(),
        q0.depth() < MAX_DEPTH,
        doubled(q0, q1),
    ensures
        q1.wf_core(),
        q1@ == q0@,
        q1.extends(q0),
        forall|p: u64| q1.referenced(p) == q0.referenced(p),
{
    let d = q0.depth();
    crate::bits::lemma_size_bound(d);
    crate::bits::lemma_size_bound((d + 1) as u8);
    assert(q1.depth() == d + 1);
    assert forall|j: int| 0 <= j < q1.size() implies 0 <= #[trigger] low_bits(j as u64, d)
        < q0.size() && (j < q0.size() ==> low_bits(j as u64, d) == j) by {
        crate::bits::lemma_double(j as u64, d);
    }
    assert forall|j: int| 0 <= j < q1.size() implies q1.table_at(j) == q0.table_at(
        low_bits(j as u64, d) as int,
    ) by {
        assert(q1.ptr_at(j) == q0.ptr_at(low_bits(j as u64, d) as int));
    }
    assert forall|i: int| 0 <= i < q1.size() implies #[trigger] q1.entry_ok(i) by {
        let i0 = low_bits(i as u64, d) as int;
        assert(0 <= low_bits(i as u64, d) < q0.size());
        assert(q1.ptr_at(i) == q0.ptr_at(i0));
        assert(q0.entry_ok(i0));
        crate::bits::lemma_low_bits_nested(i as u64, d, q0.depth_at(i0));
    }
    assert forall|i: int, j: int| 0 <= i < q1.size() && 0 <= j < q1.size() implies #[trigger]
        q1.entries_agree(i, j) by {
        let i0 = low_bits(i as u64, d) as int;
        let j0 = low_bits(j as u64, d) as int;
        assert(0 <= low_bits(i as u64, d) < q0.size());
        assert(0 <= low_bits(j as u64, d) < q0.size());
        assert(q1.ptr_at(i) == q0.ptr_at(i0));
        assert(q1.ptr_at(j) == q0.ptr_at(j0));
        assert(q0.entry_ok(i0));
        assert(q0.entries_agree(i0, j0));
        crate::bits::lemma_low_bits_nested(i as u64, d, q0.depth_at(i0));
        crate::bits::lemma_low_bits_nested(j as u64, d, q0.depth_at(i0));
    }
    assert forall|i: int| 0 <= i < q1.size() implies table_ok(
        #[trigger] q1.table_at(i),
        q1.kvs@,
    ) by {
        let i0 = low_bits(i as u64, d) as int;
        assert(0 <= low_bits(i as u64, d) < q0.size());
        assert(q1.ptr_at(i) == q0.ptr_at(i0));
        assert(table_ok(q0.table_at(i0), q0.kvs@));
    }
    assert forall|k: Seq<char>| q1.contains(k) == q0.contains(k) && q1.value(k) == q0.value(k) by {
        lemma_own_table(q0, k);
        let j = q1.index_of(k);
        assert(0 <= low_bits(crate::hash::dir_hash(k) as u64, (d + 1) as u8) < q1.size());
        crate::bits::lemma_low_bits_nested(crate::hash::dir_hash(k) as u64, (d + 1) as u8, d);
        assert(q1.ptr_at(j) == q0.ptr_at(low_bits(j as u64, d) as int));
        assert(q1.table_at(j) == q0.table_at(q0.index_of(k)));
    }
    assert(q1@ =~= q0@);
    assert forall|t: u64| q0.is_live(t) implies q1.is_live(t) by {
        let i = choose|i: int| 0 <= i < q0.size() && #[trigger] q0.ptr_at(i) == t;
        crate::bits::lemma_size_monotone(d, (d + 1) as u8);
        assert(low_bits(i as u64, d) == i);
        assert(q1.ptr_at(i) == t);
    }
    assert forall|p: u64| q1.referenced(p) == q0.referenced(p) by {
        if q0.referenced(p) {
            let (i, g, b, s) = choose|i: int, g: int, b: int, s: int| #[trigger]
                q0.refers(i, g, b, s, p);
            crate::bits::lemma_size_monotone(d, (d + 1) as u8);
            assert(low_bits(i as u64, d) == i);
            assert(q1.ptr_at(i) == q0.ptr_at(i));
            assert(q1.refers(i, g, b, s, p));
        }
        if q1.referenced(p) {
            let (i, g, b, s) = choose|i: int, g: int, b: int, s: int| #[trigger]
                q1.refers(i, g, b, s, p);
            let i0 = low_bits(i as u64, d) as int;
            assert(0 <= low_bits(i as u64, d) < q0.size());
            assert(q1.ptr_at(i) == q0.ptr_at(i0));
            assert(q0.refers(i0, g, b, s, p));
        }
    }
}

} // verus!
