//! The split of a subtable: what the storage side looks like when one is
//! done, and why nothing is lost by it.

use vstd::prelude::*;
use crate::config::{BUCKET_GROUP_NUM, BUCKET_NUM, MAX_DEPTH, MAX_ENTRY_NUM};
use crate::facts::{lemma_entry, lemma_header_word, lemma_own_table, lemma_table_value};
use crate::hash::dir_hash;
use crate::kvblock::KVBlockMem;
use crate::mempool::{
    slot_ok, slots_differ, stored_at, table_depth, table_has, table_ok, table_suffix, MemPool,
};
use crate::subtable::{header_word, pos_ok, Slot, Subtable};
use crate::utils::key_suffix;
use crate::word::low_bits;

verus! {

/// Whether index `i` has the low `depth` bits `suffix`.
pub open spec fn has_suffix(i: int, suffix: int, depth: u8) -> bool {
    low_bits(i as u64, depth) == suffix
}

/// Whether the slot at `(g, b, s)` of `t0` holds a key that a split to
/// `depth` bits sends to the subtable of suffix `new`.
pub open spec fn moves(
    t0: Subtable,
    kvs: Map<u64, KVBlockMem>,
    g: int,
    b: int,
    s: int,
    depth: u8,
    new: int,
) -> bool {
    !t0.slot_at(g, b, s).is_empty() && key_suffix(kvs[t0.slot_at(g, b, s).ptr()].key@, depth)
        == new
}

/// The order in which a migration visits the slots.
pub open spec fn before(g2: int, b2: int, s2: int, g: int, b: int, s: int) -> bool {
    g2 < g || (g2 == g && (b2 < b || (b2 == b && s2 < s)))
}

/// The tables `t1` and `n1` are what a migration has made of `t0` and an
/// empty table when it has handled every slot before `(g, b, s)`: a slot
/// that moves is cleared in `t1` and holds its old word in `n1`.
pub open spec fn migrated(
    t0: Subtable,
    t1: Subtable,
    n1: Subtable,
    kvs: Map<u64, KVBlockMem>,
    depth: u8,
    new: int,
    g: int,
    b: int,
    s: int,
) -> bool {
    &&& t1.wf()
    &&& n1.wf()
    &&& forall|g2: int, b2: int, s2: int|
        pos_ok(g2, b2, s2) ==> #[trigger] t1.slot_at(g2, b2, s2) == if before(g2, b2, s2, g, b, s)
            && moves(t0, kvs, g2, b2, s2, depth, new) {
            Slot { data: 0 }
        } else {
            t0.slot_at(g2, b2, s2)
        }
    &&& forall|g2: int, b2: int, s2: int|
        pos_ok(g2, b2, s2) ==> #[trigger] n1.slot_at(g2, b2, s2) == if before(g2, b2, s2, g, b, s)
            && moves(t0, kvs, g2, b2, s2, depth, new) {
            t0.slot_at(g2, b2, s2)
        } else {
            Slot { data: 0 }
        }
}

/// Every slot of `t` is zero or points to a record of the store whose
/// checksum is right.
pub open spec fn readable(t: Subtable, kvs: Map<u64, KVBlockMem>) -> bool {
    forall|g: int, b: int, s: int|
        pos_ok(g, b, s) ==> if (#[trigger] t.slot_at(g, b, s)).is_empty() {
            t.slot_at(g, b, s).data == 0
        } else {
            kvs.contains_key(t.slot_at(g, b, s).ptr()) && kvs[t.slot_at(g, b, s).ptr()].intact()
        }
}

/// `after` stores the same tables as `before`, except perhaps at `a`
/// and at `b`.
pub open spec fn same_except_two(
    before: Map<u64, Subtable>,
    after: Map<u64, Subtable>,
    a: u64,
    b: u64,
) -> bool {
    &&& forall|t: u64| before.contains_key(t) <==> after.contains_key(t)
    &&& forall|t: u64| before.contains_key(t) && t != a && t != b ==> after[t] == before[t]
}

/// The pool `q1` is `q0` with changes to the slots of the subtables at
/// `a` and `b` at most.
pub open spec fn slots_changed(q0: &MemPool, q1: &MemPool, a: u64, b: u64) -> bool {
    &&& q1.shape_ok()
    &&& q1.dir == q0.dir
    &&& q1.kvs@ == q0.kvs@
    &&& q1.memory_manager == q0.memory_manager
    &&& same_except_two(q0.subtables@, q1.subtables@, a, b)
    &&& q1.subtables@[a].same_headers(&q0.subtables@[a])
    &&& q1.subtables@[b].same_headers(&q0.subtables@[b])
}

/// A migration starts with the old table as it is and the new table
/// empty.
pub proof fn lemma_migrate_start(t0: Subtable, n0: Subtable, kvs: Map<u64, KVBlockMem>, depth: u8,
    new: int)
    requires
        t0.wf(),
        n0.wf(),
        n0.all_empty(),
    ensures
        migrated(t0, t0, n0, kvs, depth, new, 0, 0, 0),
{
}

/// What one step of a migration does to its progress.
pub proof fn lemma_migrate_step(
    t0: Subtable,
    t1: Subtable,
    n1: Subtable,
    t2: Subtable,
    n2: Subtable,
    kvs: Map<u64, KVBlockMem>,
    depth: u8,
    new: int,
    g: int,
    b: int,
    s: int,
)
    requires
        pos_ok(g, b, s),
        migrated(t0, t1, n1, kvs, depth, new, g, b, s),
        t2.wf(),
        n2.wf(),
        forall|g2: int, b2: int, s2: int|
            pos_ok(g2, b2, s2) ==> #[trigger] t2.slot_at(g2, b2, s2) == if g2 == g && b2 == b && s2
                == s && moves(t1, kvs, g2, b2, s2, depth, new) {
                Slot { data: 0 }
            } else {
                t1.slot_at(g2, b2, s2)
            },
        forall|g2: int, b2: int, s2: int|
            pos_ok(g2, b2, s2) ==> #[trigger] n2.slot_at(g2, b2, s2) == if g2 == g && b2 == b && s2
                == s && moves(t1, kvs, g2, b2, s2, depth, new) {
                t1.slot_at(g2, b2, s2)
            } else {
                n1.slot_at(g2, b2, s2)
            },
    ensures
        migrated(t0, t2, n2, kvs, depth, new, g, b, s + 1),
{
    assert forall|g2: int, b2: int, s2: int| pos_ok(g2, b2, s2) implies #[trigger] t2.slot_at(
        g2,
        b2,
        s2,
    ) == if before(g2, b2, s2, g, b, s + 1) && moves(t0, kvs, g2, b2, s2, depth, new) {
        Slot { data: 0 }
    } else {
        t0.slot_at(g2, b2, s2)
    } by {
        assert(t1.slot_at(g2, b2, s2) == if before(g2, b2, s2, g, b, s) && moves(
            t0,
            kvs,
            g2,
            b2,
            s2,
            depth,
            new,
        ) {
            Slot { data: 0 }
        } else {
            t0.slot_at(g2, b2, s2)
        });
    }
    assert forall|g2: int, b2: int, s2: int| pos_ok(g2, b2, s2) implies #[trigger] n2.slot_at(
        g2,
        b2,
        s2,
    ) == if before(g2, b2, s2, g, b, s + 1) && moves(t0, kvs, g2, b2, s2, depth, new) {
        t0.slot_at(g2, b2, s2)
    } else {
        Slot { data: 0 }
    } by {
        assert(t1.slot_at(g2, b2, s2) == if before(g2, b2, s2, g, b, s) && moves(
            t0,
            kvs,
            g2,
            b2,
            s2,
            depth,
            new,
        ) {
            Slot { data: 0 }
        } else {
            t0.slot_at(g2, b2, s2)
        });
        assert(n1.slot_at(g2, b2, s2) == if before(g2, b2, s2, g, b, s) && moves(
            t0,
            kvs,
            g2,
            b2,
            s2,
            depth,
            new,
        ) {
            t0.slot_at(g2, b2, s2)
        } else {
            Slot { data: 0 }
        });
    }
}

/// The end of a bucket is the start of the next, and the end of a bucket
/// group the start of the next.
pub proof fn lemma_migrate_next(
    t0: Subtable,
    t1: Subtable,
    n1: Subtable,
    kvs: Map<u64, KVBlockMem>,
    depth: u8,
    new: int,
    g: int,
    b: int,
)
    requires
        0 <= g < BUCKET_GROUP_NUM,
        0 <= b <= BUCKET_NUM,
    ensures
        b < BUCKET_NUM
            && migrated(t0, t1, n1, kvs, depth, new, g, b, crate::config::SLOT_NUM as int)
            ==> migrated(t0, t1, n1, kvs, depth, new, g, b + 1, 0),
        migrated(t0, t1, n1, kvs, depth, new, g, BUCKET_NUM as int, 0) ==> migrated(
            t0,
            t1,
            n1,
            kvs,
            depth,
            new,
            g + 1,
            0,
            0,
        ),
{
    if b < BUCKET_NUM
        && migrated(t0, t1, n1, kvs, depth, new, g, b, crate::config::SLOT_NUM as int) {
        assert forall|g2: int, b2: int, s2: int| pos_ok(g2, b2, s2) implies before(
            g2,
            b2,
            s2,
            g,
            b,
            crate::config::SLOT_NUM as int,
        ) == before(g2, b2, s2, g, b + 1, 0) by {}
    }
    if migrated(t0, t1, n1, kvs, depth, new, g, BUCKET_NUM as int, 0) {
        assert forall|g2: int, b2: int, s2: int| pos_ok(g2, b2, s2) implies before(
            g2,
            b2,
            s2,
            g,
            BUCKET_NUM as int,
            0,
        ) == before(g2, b2, s2, g + 1, 0, 0) by {}
    }
}

/// While a migration goes on, every slot of the old table is zero or
/// points to a record whose checksum is right, and the slots of the new
/// table that are still to come are zero.
pub proof fn lemma_migrate_readable(
    t0: Subtable,
    t1: Subtable,
    n1: Subtable,
    kvs: Map<u64, KVBlockMem>,
    depth: u8,
    new: int,
    g: int,
    b: int,
    s: int,
)
    requires
        readable(t0, kvs),
        migrated(t0, t1, n1, kvs, depth, new, g, b, s),
    ensures
        readable(t1, kvs),
        pos_ok(g, b, s) ==> n1.slot_at(g, b, s).data == 0 && t1.slot_at(g, b, s) == t0.slot_at(
            g,
            b,
            s,
        ),
{
    crate::word::lemma_zero_word();
    assert forall|g2: int, b2: int, s2: int| pos_ok(g2, b2, s2) implies if (#[trigger] t1.slot_at(
        g2,
        b2,
        s2,
    )).is_empty() {
        t1.slot_at(g2, b2, s2).data == 0
    } else {
        kvs.contains_key(t1.slot_at(g2, b2, s2).ptr()) && kvs[t1.slot_at(g2, b2, s2).ptr()].intact()
    } by {
        let x = t0.slot_at(g2, b2, s2);
        assert(if x.is_empty() {
            x.data == 0
        } else {
            kvs.contains_key(x.ptr()) && kvs[x.ptr()].intact()
        });
    }
    if pos_ok(g, b, s) {
        assert(!before(g, b, s, g, b, s));
        let x = n1.slot_at(g, b, s);
        let y = t1.slot_at(g, b, s);
    }
}

/// The suffix that a split of the subtable of entry `old` gives to the
/// new subtable.
pub open spec fn split_suffix(q0: &MemPool, old: int) -> int {
    old + (1u64 << (q0.depth_at(old) as u64))
}

/// The pool `q1` is `q0` after the subtable of entry `old` was split and
/// its records with the new suffix were moved to a new subtable at
/// `nptr`.
pub open spec fn split_done(q0: &MemPool, q1: &MemPool, old: int, nptr: u64) -> bool {
    let ld = q0.depth_at(old);
    let depth = (ld + 1) as u8;
    let tptr = q0.ptr_at(old);
    let new = split_suffix(q0, old);
    &&& 0 <= old < q0.size()
    &&& has_suffix(old, old, ld)
    &&& ld < q0.depth()
    &&& !q0.subtables@.contains_key(nptr)
    &&& q1.dir.global_depth == q0.dir.global_depth
    &&& q1.dir.entries@.len() == q0.dir.entries@.len()
    &&& q1.kvs@ == q0.kvs@
    &&& q1.shape_ok()
    &&& q1.store_ok()
    &&& forall|t: u64| #[trigger]
        q1.subtables@.contains_key(t) <==> (q0.subtables@.contains_key(t) || t == nptr)
    &&& forall|t: u64|
        q0.subtables@.contains_key(t) && t != tptr ==> #[trigger] q1.subtables@[t]
            == q0.subtables@[t]
    &&& forall|j: int|
        0 <= j < q0.size() ==> #[trigger] q1.ptr_at(j) == (if has_suffix(j, old, ld) {
            if has_suffix(j, new, depth) {
                nptr
            } else {
                tptr
            }
        } else {
            q0.ptr_at(j)
        }) && q1.depth_at(j) == (if has_suffix(j, old, ld) {
            depth
        } else {
            q0.depth_at(j)
        })
    &&& forall|j: int| q0.size() <= j < MAX_ENTRY_NUM ==> (#[trigger] q1.dir.entries@[j]).data == 0
    &&& q1.subtables@[tptr].uniform_header(header_word(depth, old as u64))
    &&& q1.subtables@[nptr].uniform_header(header_word(depth, new as u64))
    &&& migrated(
        q0.subtables@[tptr],
        q1.subtables@[tptr],
        q1.subtables@[nptr],
        q0.kvs@,
        depth,
        new,
        BUCKET_GROUP_NUM as int,
        0,
        0,
    )
}

/// The entries that point to the subtable of a normalized entry `old`
/// are those that have its low bits at its local depth; they carry its
/// local depth.
pub proof fn lemma_old_set(q0: &MemPool, old: int, j: int)
    requires
        q0.shape_ok(),
        q0.dir_ok(),
        0 <= old < q0.size(),
        0 <= j < q0.size(),
        has_suffix(old, old, q0.depth_at(old)),
    ensures
        q0.ptr_at(j) == q0.ptr_at(old) <==> has_suffix(j, old, q0.depth_at(old)),
        q0.ptr_at(j) == q0.ptr_at(old) ==> q0.depth_at(j) == q0.depth_at(old),
{
    lemma_entry(q0, old);
    lemma_entry(q0, j);
    assert(q0.entries_agree(old, j));
}

/// How the low bits at the old depth and at the new depth go together.
pub proof fn lemma_split_bits(x: u64, old: int, ld: u8)
    requires
        ld < MAX_DEPTH,
        0 <= old < 65536,
        has_suffix(old, old, ld),
    ensures
        1 <= (1u64 << (ld as u64)) <= 32768,
        old < (1u64 << (ld as u64)),
        has_suffix(old, old, (ld + 1) as u8),
        has_suffix(old + (1u64 << (ld as u64)), old + (1u64 << (ld as u64)), (ld + 1) as u8),
        low_bits(x, ld) == old <==> (low_bits(x, (ld + 1) as u8) == old || low_bits(
            x,
            (ld + 1) as u8,
        ) == old + (1u64 << (ld as u64))),
{
    crate::bits::lemma_next_bit(x, ld);
    crate::bits::lemma_next_bit(old as u64, ld);
    crate::bits::lemma_low_bits_nested(x, (ld + 1) as u8, ld);
    crate::bits::lemma_stride(old as u64, old as u64, ld);
    crate::bits::lemma_size_monotone(ld, 15);
    assert((1u64 << 15u64) == 32768) by (bit_vector);
    let new = (old + (1u64 << (ld as u64))) as u64;
    crate::bits::lemma_low_bits_nested(new, (ld + 1) as u8, ld);
    // the low bits of `new` at the old depth are `old`
    assert(low_bits(new, ld) == old);
    // `new` is its own low bits at the new depth
    assert(low_bits((low_bits(old as u64, ld) | (1u64 << (ld as u64))) as u64, (ld + 1) as u8)
        == new);
    assert((low_bits(old as u64, ld) | (1u64 << (ld as u64))) == new);
    crate::bits::lemma_size_monotone(ld, (ld + 1) as u8);
    crate::bits::lemma_low_bits_small(old as u64, (ld + 1) as u8);
    if low_bits(x, (ld + 1) as u8) == new {
        assert(low_bits(low_bits(x, (ld + 1) as u8), ld) == low_bits(x, ld));
    }
}

/// The two tables that a finished migration leaves meet the table
/// invariant at the new depth, and between them hold what the old table
/// held: each key in the table of its suffix.
pub proof fn lemma_split_tables(
    t0: Subtable,
    t1: Subtable,
    n1: Subtable,
    kvs: Map<u64, KVBlockMem>,
    ld: u8,
    old: int,
)
    requires
        table_ok(t0, kvs),
        table_depth(t0) == ld,
        table_suffix(t0) == old,
        ld < MAX_DEPTH,
        0 <= old < 65536,
        has_suffix(old, old, ld),
        t1.uniform_header(header_word((ld + 1) as u8, old as u64)),
        n1.uniform_header(header_word((ld + 1) as u8, (old + (1u64 << (ld as u64))) as u64)),
        migrated(
            t0,
            t1,
            n1,
            kvs,
            (ld + 1) as u8,
            old + (1u64 << (ld as u64)),
            BUCKET_GROUP_NUM as int,
            0,
            0,
        ),
    ensures
        table_ok(t1, kvs),
        table_ok(n1, kvs),
        table_depth(t1) == ld + 1,
        table_depth(n1) == ld + 1,
        table_suffix(t1) == old,
        table_suffix(n1) == old + (1u64 << (ld as u64)),
        forall|k: Seq<char>|
            key_suffix(k, (ld + 1) as u8) == old ==> #[trigger] table_has(t1, kvs, k) == table_has(
                t0,
                kvs,
                k,
            ) && (table_has(t0, kvs, k) ==> crate::mempool::table_value(t1, kvs, k)
                == crate::mempool::table_value(t0, kvs, k)),
        forall|k: Seq<char>|
            key_suffix(k, (ld + 1) as u8) == old + (1u64 << (ld as u64)) ==> #[trigger] table_has(
                n1,
                kvs,
                k,
            ) == table_has(t0, kvs, k) && (table_has(t0, kvs, k) ==> crate::mempool::table_value(
                n1,
                kvs,
                k,
            ) == crate::mempool::table_value(t0, kvs, k)),
{
    let depth = (ld + 1) as u8;
    let new = old + (1u64 << (ld as u64));
    lemma_split_bits(0, old, ld);
    lemma_header_word(depth, old as u64);
    lemma_header_word(depth, new as u64);
    assert(t1.bucket_at(0, 0).header.data == header_word(depth, old as u64));
    assert(n1.bucket_at(0, 0).header.data == header_word(depth, new as u64));
    crate::word::lemma_zero_word();
    assert forall|g: int, b: int, s: int| pos_ok(g, b, s) implies before(
        g,
        b,
        s,
        BUCKET_GROUP_NUM as int,
        0,
        0,
    ) by {}
    assert forall|g: int, b: int, s: int| pos_ok(g, b, s) implies #[trigger] slot_ok(
        t1,
        kvs,
        g,
        b,
        s,
    ) by {
        assert(slot_ok(t0, kvs, g, b, s));
        let x = t0.slot_at(g, b, s);
        assert(t1.slot_at(g, b, s) == if moves(t0, kvs, g, b, s, depth, new) {
            Slot { data: 0 }
        } else {
            x
        });
        if !x.is_empty() {
            lemma_split_bits(dir_hash(kvs[x.ptr()].key@) as u64, old, ld);
        }
    }
    assert forall|g: int, b: int, s: int| pos_ok(g, b, s) implies #[trigger] slot_ok(
        n1,
        kvs,
        g,
        b,
        s,
    ) by {
        assert(slot_ok(t0, kvs, g, b, s));
        let x = t0.slot_at(g, b, s);
        assert(n1.slot_at(g, b, s) == if moves(t0, kvs, g, b, s, depth, new) {
            x
        } else {
            Slot { data: 0 }
        });
        if !x.is_empty() {
            lemma_split_bits(dir_hash(kvs[x.ptr()].key@) as u64, old, ld);
        }
    }
    assert forall|g1: int, b1: int, s1: int, g2: int, b2: int, s2: int|
        pos_ok(g1, b1, s1) && pos_ok(g2, b2, s2) implies #[trigger] slots_differ(
        t1,
        kvs,
        g1,
        b1,
        s1,
        g2,
        b2,
        s2,
    ) by {
        assert(slots_differ(t0, kvs, g1, b1, s1, g2, b2, s2));
        assert(t1.slot_at(g1, b1, s1) == if moves(t0, kvs, g1, b1, s1, depth, new) {
            Slot { data: 0 }
        } else {
            t0.slot_at(g1, b1, s1)
        });
        assert(t1.slot_at(g2, b2, s2) == if moves(t0, kvs, g2, b2, s2, depth, new) {
            Slot { data: 0 }
        } else {
            t0.slot_at(g2, b2, s2)
        });
    }
    assert forall|g1: int, b1: int, s1: int, g2: int, b2: int, s2: int|
        pos_ok(g1, b1, s1) && pos_ok(g2, b2, s2) implies #[trigger] slots_differ(
        n1,
        kvs,
        g1,
        b1,
        s1,
        g2,
        b2,
        s2,
    ) by {
        assert(slots_differ(t0, kvs, g1, b1, s1, g2, b2, s2));
        assert(n1.slot_at(g1, b1, s1) == if moves(t0, kvs, g1, b1, s1, depth, new) {
            t0.slot_at(g1, b1, s1)
        } else {
            Slot { data: 0 }
        });
        assert(n1.slot_at(g2, b2, s2) == if moves(t0, kvs, g2, b2, s2, depth, new) {
            t0.slot_at(g2, b2, s2)
        } else {
            Slot { data: 0 }
        });
    }
    assert(table_ok(t1, kvs));
    assert(table_ok(n1, kvs));
    assert forall|k: Seq<char>| key_suffix(k, depth) == old implies #[trigger] table_has(
        t1,
        kvs,
        k,
    ) == table_has(t0, kvs, k) && (table_has(t0, kvs, k) ==> crate::mempool::table_value(
        t1,
        kvs,
        k,
    ) == crate::mempool::table_value(t0, kvs, k)) by {
        if table_has(t0, kvs, k) {
            let (g, b, s) = choose|g: int, b: int, s: int| #[trigger]
                stored_at(t0, kvs, k, g, b, s);
            assert(t1.slot_at(g, b, s) == t0.slot_at(g, b, s));
            assert(stored_at(t1, kvs, k, g, b, s));
            lemma_table_value(t0, kvs, k, g, b, s);
            lemma_table_value(t1, kvs, k, g, b, s);
        }
        if table_has(t1, kvs, k) {
            let (g, b, s) = choose|g: int, b: int, s: int| #[trigger]
                stored_at(t1, kvs, k, g, b, s);
            assert(t1.slot_at(g, b, s) == if moves(t0, kvs, g, b, s, depth, new) {
                Slot { data: 0 }
            } else {
                t0.slot_at(g, b, s)
            });
            assert(stored_at(t0, kvs, k, g, b, s));
        }
    }
    assert forall|k: Seq<char>| key_suffix(k, depth) == new implies #[trigger] table_has(
        n1,
        kvs,
        k,
    ) == table_has(t0, kvs, k) && (table_has(t0, kvs, k) ==> crate::mempool::table_value(
        n1,
        kvs,
        k,
    ) == crate::mempool::table_value(t0, kvs, k)) by {
        if table_has(t0, kvs, k) {
            let (g, b, s) = choose|g: int, b: int, s: int| #[trigger]
                stored_at(t0, kvs, k, g, b, s);
            assert(moves(t0, kvs, g, b, s, depth, new));
            assert(n1.slot_at(g, b, s) == t0.slot_at(g, b, s));
            assert(stored_at(n1, kvs, k, g, b, s));
            lemma_table_value(t0, kvs, k, g, b, s);
            lemma_table_value(n1, kvs, k, g, b, s);
        }
        if table_has(n1, kvs, k) {
            let (g, b, s) = choose|g: int, b: int, s: int| #[trigger]
                stored_at(n1, kvs, k, g, b, s);
            assert(n1.slot_at(g, b, s) == if moves(t0, kvs, g, b, s, depth, new) {
                t0.slot_at(g, b, s)
            } else {
                Slot { data: 0 }
            });
            assert(stored_at(t0, kvs, k, g, b, s));
        }
    }
}

/// A finished split keeps the invariant of the storage side and what
/// the index holds; the subtables that were live stay live; the keys of
/// the split subtable now belong to subtables one bit deeper.
pub proof fn lemma_split_done(q0: &MemPool, q1: &MemPool, old: int, nptr: u64)
    requires
        q0.wf_core(),
        split_done(q0, q1, old, nptr),
    ensures
        q1.wf_core(),
        q1@ == q0@,
        q1.extends(q0),
        forall|p: u64| q1.referenced(p) ==> q0.referenced(p),
        forall|k: Seq<char>|
            table_depth(#[trigger] q1.table_of(k)) == if q0.ptr_at(q0.index_of(k)) == q0.ptr_at(
                old,
            ) {
                table_depth(q0.table_of(k)) + 1
            } else {
                table_depth(q0.table_of(k)) as int
            },
{
    let ld = q0.depth_at(old);
    let depth = (ld + 1) as u8;
    let tptr = q0.ptr_at(old);
    let new = split_suffix(q0, old);
    let t0 = q0.subtables@[tptr];
    let t1 = q1.subtables@[tptr];
    let n1 = q1.subtables@[nptr];
    let kvs = q0.kvs@;
    crate::bits::lemma_size_bound(q0.depth());
    lemma_entry(q0, old);
    lemma_split_bits(0, old, ld);
    assert(table_ok(q0.table_at(old), kvs));
    lemma_split_tables(t0, t1, n1, kvs, ld, old);
    assert(q1.size() == q0.size());
    // where each live entry points after the split
    assert forall|j: int| 0 <= j < q0.size() implies {
        &&& has_suffix(j, old, ld) <==> q0.ptr_at(j) == tptr
        &&& !has_suffix(j, old, ld) ==> (#[trigger] q1.table_at(j)) == q0.table_at(j)
            && q1.depth_at(j) == q0.depth_at(j) && q1.ptr_at(j) == q0.ptr_at(j) && q1.ptr_at(j)
            != tptr && q1.ptr_at(j) != nptr
        &&& has_suffix(j, old, ld) ==> q1.depth_at(j) == depth && (has_suffix(j, new, depth)
            || has_suffix(j, old, depth)) && q1.table_at(j) == (if has_suffix(j, new, depth) {
            n1
        } else {
            t1
        })
    } by {
        lemma_old_set(q0, old, j);
        lemma_entry(q0, j);
        lemma_split_bits(j as u64, old, ld);
        assert(q1.ptr_at(j) == (if has_suffix(j, old, ld) {
            if has_suffix(j, new, depth) {
                nptr
            } else {
                tptr
            }
        } else {
            q0.ptr_at(j)
        }));
        if !has_suffix(j, old, ld) {
            assert(q0.subtables@.contains_key(q0.ptr_at(j)));
            assert(q1.subtables@[q0.ptr_at(j)] == q0.subtables@[q0.ptr_at(j)]);
        }
    }
    assert forall|i: int| 0 <= i < q1.size() implies #[trigger] q1.entry_ok(i) by {
        assert(q0.entry_ok(i));
        lemma_entry(q0, i);
        let t = q1.table_at(i);
        assert(q1.subtables@.contains_key(q1.ptr_at(i)));
        if has_suffix(i, old, ld) {
            assert(q1.depth_at(i) == depth);
        } else {
            assert(t == q0.table_at(i));
        }
    }
    assert forall|i: int, j: int| 0 <= i < q1.size() && 0 <= j < q1.size() implies #[trigger]
        q1.entries_agree(i, j) by {
        assert(q0.entries_agree(i, j));
        let ti = q1.table_at(i);
        let tj = q1.table_at(j);
        lemma_entry(q0, i);
        lemma_entry(q0, j);
        if has_suffix(i, old, ld) {
            if low_bits(j as u64, depth) == low_bits(i as u64, depth) {
                lemma_split_bits(j as u64, old, ld);
                lemma_split_bits(i as u64, old, ld);
                let pi = q1.ptr_at(i);
                let pj = q1.ptr_at(j);
                assert(has_suffix(j, old, ld));
            }
        } else {
            if low_bits(j as u64, q0.depth_at(i)) == low_bits(i as u64, q0.depth_at(i)) {
                assert(q0.ptr_at(j) == q0.ptr_at(i));
                assert(!has_suffix(j, old, ld));
            }
        }
    }
    assert forall|i: int| 0 <= i < q1.size() implies table_ok(
        #[trigger] q1.table_at(i),
        q1.kvs@,
    ) by {
        let t = q1.table_at(i);
        if !has_suffix(i, old, ld) {
            assert(t == q0.table_at(i));
            assert(table_ok(q0.table_at(i), kvs));
        }
    }
    assert(q1.dir_ok());
    assert(q1.wf_core());
    assert forall|k: Seq<char>| q1.contains(k) == q0.contains(k) && (q0.contains(k) ==> q1.value(k)
        == q0.value(k)) && table_depth(#[trigger] q1.table_of(k)) == (if q0.ptr_at(
        q0.index_of(k),
    ) == tptr {
        table_depth(q0.table_of(k)) + 1
    } else {
        table_depth(q0.table_of(k)) as int
    }) by {
        lemma_own_table(q0, k);
        let i = q0.index_of(k);
        assert(q1.index_of(k) == i);
        let t = q1.table_at(i);
        lemma_entry(q0, i);
        if has_suffix(i, old, ld) {
            assert(q0.table_at(i) == t0);
            crate::bits::lemma_low_bits_nested(dir_hash(k) as u64, q0.depth(), depth);
            assert(key_suffix(k, depth) == low_bits(i as u64, depth));
            if has_suffix(i, new, depth) {
                assert(t == n1);
                assert(table_has(n1, kvs, k) == table_has(t0, kvs, k));
            } else {
                assert(t == t1);
                assert(table_has(t1, kvs, k) == table_has(t0, kvs, k));
            }
        } else {
            assert(t == q0.table_at(i));
        }
    }
    assert(q1@ =~= q0@);
    assert forall|t: u64| q0.is_live(t) implies q1.is_live(t) by {
        let i = choose|i: int| 0 <= i < q0.size() && #[trigger] q0.ptr_at(i) == t;
        let ti = q1.table_at(i);
        if t == tptr {
            let to = q1.table_at(old);
            assert(has_suffix(old, old, ld));
            assert(!has_suffix(old, new, depth));
            assert(q1.ptr_at(old) == tptr);
        } else {
            assert(q1.ptr_at(i) == t);
        }
    }
    assert forall|p: u64| q1.referenced(p) implies q0.referenced(p) by {
        let (i, g, b, s) = choose|i: int, g: int, b: int, s: int| #[trigger]
            q1.refers(i, g, b, s, p);
        let t = q1.table_at(i);
        if has_suffix(i, old, ld) {
            assert(before(g, b, s, BUCKET_GROUP_NUM as int, 0, 0));
            if has_suffix(i, new, depth) {
                assert(n1.slot_at(g, b, s) == if moves(t0, kvs, g, b, s, depth, new) {
                    t0.slot_at(g, b, s)
                } else {
                    Slot { data: 0 }
                });
            } else {
                assert(t1.slot_at(g, b, s) == if moves(t0, kvs, g, b, s, depth, new) {
                    Slot { data: 0 }
                } else {
                    t0.slot_at(g, b, s)
                });
            }
            crate::word::lemma_zero_word();
            assert(q0.refers(old, g, b, s, p));
        } else {
            assert(q0.refers(i, g, b, s, p));
        }
    }
}

/// The directory of `q1` is what a split of the subtable of entry
/// `index` makes of the directory of `q0`: it is one bit deeper if the
/// subtable was as deep as the directory; the entries that pointed to the
/// subtable are one bit deeper; those among them that have the new suffix
/// point to one new subtable, and every other entry points where its
/// counterpart pointed.
pub open spec fn split_directory(q0: &MemPool, q1: &MemPool, index: int) -> bool {
    let ld = q0.depth_at(index);
    let old = low_bits(index as u64, ld) as int;
    let new = old + (1u64 << (ld as u64));
    &&& q1.dir.global_depth == if ld == q0.depth() {
        q0.depth() + 1
    } else {
        q0.depth() as int
    }
    &&& forall|j: int|
        0 <= j < q1.size() ==> {
            let j0 = low_bits(j as u64, q0.depth()) as int;
            &&& #[trigger] q1.depth_at(j) == if has_suffix(j, old, ld) {
                ld + 1
            } else {
                q0.depth_at(j0) as int
            }
            &&& has_suffix(j, new, (ld + 1) as u8) ==> !q0.subtables@.contains_key(q1.ptr_at(j))
                && q1.ptr_at(j) == q1.ptr_at(new)
            &&& !has_suffix(j, new, (ld + 1) as u8) ==> q1.ptr_at(j) == q0.ptr_at(j0)
        }
}

/// What a split, with or without a doubling of the directory before it,
/// does to the directory.
pub proof fn lemma_split_directory(
    q0: &MemPool,
    pb: &MemPool,
    q1: &MemPool,
    index: int,
    nptr: u64,
)
    requires
        q0.wf_core(),
        pb.wf_core(),
        0 <= index < q0.size(),
        pb.subtables@ == q0.subtables@,
        pb.depth() == if q0.depth_at(index) == q0.depth() {
            q0.depth() + 1
        } else {
            q0.depth() as int
        },
        forall|i: int|
            0 <= i < q0.size() ==> (#[trigger] pb.dir.entries@[i]).data == q0.dir.entries@[i].data,
        split_done(pb, q1, low_bits(index as u64, q0.depth_at(index)) as int, nptr),
    ensures
        split_directory(q0, q1, index),
{
    let ld = q0.depth_at(index);
    let old = low_bits(index as u64, ld) as int;
    let new = old + (1u64 << (ld as u64));
    let d0 = q0.depth();
    crate::bits::lemma_size_bound(d0);
    crate::bits::lemma_size_bound(pb.depth());
    crate::bits::lemma_size_monotone(d0, pb.depth());
    lemma_entry(q0, index);
    crate::bits::lemma_stride(index as u64, index as u64, ld);
    crate::bits::lemma_low_bits_nested(index as u64, ld, ld);
    assert(q0.entries_agree(index, old));
    lemma_entry(q0, old);
    assert(pb.dir.entries@[old].data == q0.dir.entries@[old].data);
    assert(pb.depth_at(old) == ld);
    lemma_split_bits(0, old, ld);
    assert forall|j: int| 0 <= j < q1.size() implies {
        let j0 = low_bits(j as u64, q0.depth()) as int;
        &&& #[trigger] q1.depth_at(j) == if has_suffix(j, old, ld) {
            ld + 1
        } else {
            q0.depth_at(j0) as int
        }
        &&& has_suffix(j, new, (ld + 1) as u8) ==> !q0.subtables@.contains_key(q1.ptr_at(j))
            && q1.ptr_at(j) == q1.ptr_at(new)
        &&& !has_suffix(j, new, (ld + 1) as u8) ==> q1.ptr_at(j) == q0.ptr_at(j0)
    } by {
        let j0 = low_bits(j as u64, d0) as int;
        assert(0 <= low_bits(j as u64, d0) < q0.size());
        assert(pb.dir.entries@[j0].data == q0.dir.entries@[j0].data);
        lemma_entry(pb, j);
        lemma_entry(pb, j0);
        lemma_entry(q0, j0);
        crate::bits::lemma_low_bits_nested(j as u64, d0, pb.depth_at(j0));
        assert(pb.entries_agree(j0, j));
        assert(pb.ptr_at(j) == q0.ptr_at(j0));
        assert(pb.depth_at(j) == q0.depth_at(j0));
        lemma_split_bits(j as u64, old, ld);
        lemma_split_bits(new as u64, old, ld);
        assert(new < pb.size()) by {
            crate::bits::lemma_size_monotone((ld + 1) as u8, pb.depth());
            crate::bits::lemma_size_monotone(ld, (ld + 1) as u8);
        }
        assert(q1.size() == pb.size());
        lemma_old_set(pb, old, j);
        let tptr = pb.ptr_at(old);
        assert(q1.ptr_at(j) == (if has_suffix(j, old, ld) {
            if has_suffix(j, new, (ld + 1) as u8) {
                nptr
            } else {
                tptr
            }
        } else {
            pb.ptr_at(j)
        }));
        assert(q1.ptr_at(new) == nptr);
        assert(q1.depth_at(j) == (if has_suffix(j, old, ld) {
            (ld + 1) as u8
        } else {
            pb.depth_at(j)
        }));
    }
}

} // verus!
