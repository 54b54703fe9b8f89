//! A first-fit slab allocator over an address space of fixed-size pages.
//!
//! The allocator hands out address ranges; what is stored at an address is
//! the business of its caller. Each page keeps the ranges that are free,
//! sorted by address; a freed range is inserted in order and merged with
//! the free ranges that touch it.

use vstd::prelude::*;
use crate::config::{ADDRESS_LIMIT, ALIGN_BYTES, PAGE_SIZE};

verus! {

/// A free range of a page.
#[derive(Clone, Copy)]
pub struct Free {
    pub ptr: u64,
    pub size: u64,
}

impl Free {
    /// The address one past the range.
    pub open spec fn end(&self) -> int {
        self.ptr + self.size
    }

    /// Whether address `a` lies in the range.
    pub open spec fn contains(&self, a: int) -> bool {
        self.ptr <= a < self.end()
    }
}

/// A contiguous run of address space with its free ranges.
pub struct Page {
    pub used_size: u64,
    pub tot_size: u64,
    pub start_ptr: u64,
    pub free_list: Vec<Free>,
}

/// `n` rounded up to the allocation alignment.
pub open spec fn round_up(n: nat) -> nat {
    if n % 8 == 0 {
        n
    } else {
        (n - n % 8 + 8) as nat
    }
}

/// Number of pages that a new allocation of `n` bytes asks for.
pub open spec fn pages_for(n: nat) -> nat {
    if n % (PAGE_SIZE as nat) == 0 {
        n / (PAGE_SIZE as nat)
    } else {
        n / (PAGE_SIZE as nat) + 1
    }
}

/// Two address ranges share no address.
pub open spec fn disjoint(a: int, n: int, b: int, m: int) -> bool {
    a + n <= b || b + m <= a
}

/// Sum of the sizes of a list of free ranges.
pub open spec fn free_sum(fl: Seq<Free>) -> nat
    decreases fl.len(),
{
    if fl.len() == 0 {
        0
    } else {
        free_sum(fl.drop_last()) + fl.last().size as nat
    }
}

/// The ranges are aligned, non-empty, lie in `[lo, hi)`, and are sorted by
/// address without overlap.
pub open spec fn blocks_ok(fl: Seq<Free>, lo: int, hi: int) -> bool {
    &&& forall|j: int|
        0 <= j < fl.len() ==> {
            &&& (#[trigger] fl[j]).ptr % 8 == 0
            &&& fl[j].size % 8 == 0
            &&& fl[j].size > 0
            &&& lo <= fl[j].ptr
            &&& fl[j].end() <= hi
        }
    &&& forall|j: int, k: int|
        0 <= j < k < fl.len() ==> (#[trigger] fl[j]).end() <= (#[trigger] fl[k]).ptr
}

/// Address `a` lies in one of the ranges.
pub open spec fn covered(fl: Seq<Free>, a: int) -> bool {
    exists|j: int| 0 <= j < fl.len() && (#[trigger] fl[j]).contains(a)
}

/// No two neighbours in the list touch.
pub open spec fn coalesced(fl: Seq<Free>) -> bool {
    forall|j: int| 0 <= j < fl.len() - 1 ==> (#[trigger] fl[j]).end() != fl[j + 1].ptr
}

/// Removing a range takes its size off the sum.
pub proof fn lemma_free_sum_remove(fl: Seq<Free>, j: int)
    requires
        0 <= j < fl.len(),
    ensures
        free_sum(fl.remove(j)) + fl[j].size == free_sum(fl),
    decreases fl.len(),
{
    if j == fl.len() - 1 {
        assert(fl.remove(j) =~= fl.drop_last());
    } else {
        assert(fl.remove(j).drop_last() =~= fl.drop_last().remove(j));
        assert(fl.remove(j).last() == fl.last());
        lemma_free_sum_remove(fl.drop_last(), j);
    }
}

/// Inserting a range adds its size to the sum.
pub proof fn lemma_free_sum_insert(fl: Seq<Free>, j: int, b: Free)
    requires
        0 <= j <= fl.len(),
    ensures
        free_sum(fl.insert(j, b)) == free_sum(fl) + b.size,
{
    assert(fl.insert(j, b).remove(j) =~= fl);
    lemma_free_sum_remove(fl.insert(j, b), j);
}

/// Replacing a range changes the sum by the difference of the sizes.
pub proof fn lemma_free_sum_update(fl: Seq<Free>, j: int, b: Free)
    requires
        0 <= j < fl.len(),
    ensures
        free_sum(fl.update(j, b)) + fl[j].size == free_sum(fl) + b.size,
{
    assert(fl.update(j, b).remove(j) =~= fl.remove(j));
    lemma_free_sum_remove(fl.update(j, b), j);
    lemma_free_sum_remove(fl, j);
}

/// Ranges that are sorted without overlap inside `[lo, hi)` cannot add up
/// to more than `hi - lo`.
pub proof fn lemma_free_sum_bounded(fl: Seq<Free>, lo: int, hi: int)
    requires
        blocks_ok(fl, lo, hi),
        lo <= hi,
    ensures
        free_sum(fl) <= hi - lo,
    decreases fl.len(),
{
    if fl.len() > 0 {
        let last = fl.last();
        let rest = fl.drop_last();
        assert(fl[fl.len() - 1] == last);
        assert forall|j: int| 0 <= j < rest.len() implies (#[trigger] rest[j]).end()
            <= last.ptr by {
            assert(rest[j] == fl[j]);
        }
        assert(blocks_ok(rest, lo, last.ptr as int)) by {
            assert forall|j: int, k: int| 0 <= j < k < rest.len() implies (#[trigger] rest[j]).end()
                <= (#[trigger] rest[k]).ptr by {
                assert(rest[j] == fl[j] && rest[k] == fl[k]);
            }
            assert forall|j: int| 0 <= j < rest.len() implies {
                &&& (#[trigger] rest[j]).ptr % 8 == 0
                &&& rest[j].size % 8 == 0
                &&& rest[j].size > 0
                &&& lo <= rest[j].ptr
                &&& rest[j].end() <= last.ptr
            } by {
                assert(rest[j] == fl[j]);
            }
        }
        lemma_free_sum_bounded(rest, lo, last.ptr as int);
    }
}

/// No single range is larger than the sum of all.
pub proof fn lemma_free_sum_covers(fl: Seq<Free>, j: int)
    requires
        0 <= j < fl.len(),
    ensures
        fl[j].size <= free_sum(fl),
{
    lemma_free_sum_remove(fl, j);
}

impl Page {
    /// The address one past the page.
    pub open spec fn end(&self) -> int {
        self.start_ptr + self.tot_size
    }

    /// The page is aligned and below the address limit, its free ranges
    /// are in order inside it, and `used_size` counts what is not free.
    pub open spec fn wf(&self) -> bool {
        &&& self.start_ptr % 8 == 0
        &&& self.tot_size % 8 == 0
        &&& self.tot_size > 0
        &&& self.end() <= ADDRESS_LIMIT
        &&& self.used_size + free_sum(self.free_list@) == self.tot_size
        &&& blocks_ok(self.free_list@, self.start_ptr as int, self.end())
    }

    /// Whether the range of `n` bytes at `p` lies in the page.
    pub open spec fn holds(&self, p: int, n: int) -> bool {
        self.start_ptr <= p && p + n <= self.end()
    }

    /// Whether one of the page's free ranges has at least `n` bytes.
    pub open spec fn fits(&self, n: int) -> bool {
        exists|j: int| 0 <= j < self.free_list@.len() && (#[trigger] self.free_list@[j]).size >= n
    }
}

/// Rounds a size up to the allocation alignment.
pub fn align_size(size: u64) -> (r: u64)
    requires
        size <= ADDRESS_LIMIT,
    ensures
        r == round_up(size as nat),
        r >= size,
        r % 8 == 0,
        r < size + 8,
{
    if size % (ALIGN_BYTES as u64) == 0 {
        size
    } else {
        size - size % (ALIGN_BYTES as u64) + ALIGN_BYTES as u64
    }
}

/// The allocator: its pages, the address where the next page will start,
/// and the ranges that are handed out at present with their sizes.
pub struct MemoryManager {
    pub pages: Vec<Page>,
    pub next_page: u64,
    pub live: Ghost<Map<int, nat>>,
}

/// The list after free ranges `j` and `j + 1`, which touch, became one.
pub open spec fn merged_at(fl: Seq<Free>, j: int) -> Seq<Free> {
    fl.update(j, Free { ptr: fl[j].ptr, size: (fl[j].size + fl[j + 1].size) as u64 }).remove(j + 1)
}

/// Joining two free ranges that touch keeps the list in order, its sum
/// and the addresses it covers.
pub proof fn lemma_merge_step(fl: Seq<Free>, j: int, lo: int, hi: int)
    requires
        blocks_ok(fl, lo, hi),
        hi <= ADDRESS_LIMIT,
        0 <= j < fl.len() - 1,
        fl[j].end() == fl[j + 1].ptr,
    ensures
        blocks_ok(merged_at(fl, j), lo, hi),
        free_sum(merged_at(fl, j)) == free_sum(fl),
        forall|a: int| covered(merged_at(fl, j), a) == covered(fl, a),
        merged_at(fl, j).len() == fl.len() - 1,
        forall|k: int| 0 <= k < j ==> merged_at(fl, j)[k] == fl[k],
        merged_at(fl, j)[j].ptr == fl[j].ptr,
{
    let m = Free { ptr: fl[j].ptr, size: (fl[j].size + fl[j + 1].size) as u64 };
    let mid = fl.update(j, m);
    let nfl = merged_at(fl, j);
    assert(fl[j + 1].end() <= hi);
    lemma_free_sum_update(fl, j, m);
    lemma_free_sum_remove(mid, j + 1);
    assert forall|k: int| 0 <= k < nfl.len() implies {
        &&& (#[trigger] nfl[k]).ptr % 8 == 0
        &&& nfl[k].size % 8 == 0
        &&& nfl[k].size > 0
        &&& lo <= nfl[k].ptr
        &&& nfl[k].end() <= hi
    } by {
        if k < j {
            assert(nfl[k] == fl[k]);
        } else if k == j {
            assert(nfl[k] == m);
        } else {
            assert(nfl[k] == fl[k + 1]);
        }
    }
    assert forall|k: int, l: int| 0 <= k < l < nfl.len() implies (#[trigger] nfl[k]).end() <= (
    #[trigger] nfl[l]).ptr by {
        let k1 = if k <= j { k } else { k + 1 };
        let l1 = if l <= j { l } else { l + 1 };
        assert(fl[k1].end() <= fl[l1].ptr);
        if k == j {
            assert(fl[j + 1].end() <= fl[l1].ptr);
        }
    }
    assert forall|a: int| covered(nfl, a) == covered(fl, a) by {
        if covered(fl, a) {
            let k = choose|k: int| 0 <= k < fl.len() && (#[trigger] fl[k]).contains(a);
            let k1 = if k <= j { k } else { k - 1 };
            assert(nfl[k1].contains(a));
        }
        if covered(nfl, a) {
            let k = choose|k: int| 0 <= k < nfl.len() && (#[trigger] nfl[k]).contains(a);
            if k < j {
                assert(fl[k].contains(a));
            } else if k == j {
                if a < fl[j].end() {
                    assert(fl[j].contains(a));
                } else {
                    assert(fl[j + 1].contains(a));
                }
            } else {
                assert(nfl[k] == fl[k + 1]);
                assert(fl[k + 1].contains(a));
            }
        }
    }
}

/// How the allocator changes when the range of `n` bytes at `p` goes back
/// into page `i0` as free range number `j0`, before any merging.
pub open spec fn returned_to(
    before: MemoryManager,
    after: MemoryManager,
    i0: int,
    j0: int,
    p: u64,
    n: u64,
) -> bool {
    let page = before.pages@[i0];
    &&& 0 <= i0 < before.pages@.len()
    &&& 0 <= j0 <= page.free_list@.len()
    &&& after.pages@.len() == before.pages@.len()
    &&& after.next_page == before.next_page
    &&& forall|i: int| 0 <= i < before.pages@.len() && i != i0 ==> after.pages@[i]
        == before.pages@[i]
    &&& after.pages@[i0].start_ptr == page.start_ptr
    &&& after.pages@[i0].tot_size == page.tot_size
    &&& after.pages@[i0].used_size == page.used_size - n
    &&& after.pages@[i0].free_list@ == page.free_list@.insert(j0, Free { ptr: p, size: n })
    &&& after.live@ == before.live@.remove(p as int)
}

/// Where a range that is handed out goes in the free list of its page.
pub open spec fn insertion_point(before: MemoryManager, i0: int, j0: int, p: u64) -> bool {
    let page = before.pages@[i0];
    &&& 0 <= i0 < before.pages@.len()
    &&& page.start_ptr <= p < page.end()
    &&& 0 <= j0 <= page.free_list@.len()
    &&& forall|j: int| 0 <= j < j0 ==> (#[trigger] page.free_list@[j]).ptr < p
    &&& j0 < page.free_list@.len() ==> page.free_list@[j0].ptr >= p
}

/// A range that is handed out fits between its neighbours in the free
/// list, and the page's count of used bytes covers it.
pub proof fn lemma_insertion_point(before: MemoryManager, i0: int, j0: int, p: u64, n: u64)
    requires
        before.wf(),
        before.live@.contains_key(p as int),
        before.live@[p as int] == n,
        insertion_point(before, i0, j0, p),
    ensures
        blocks_ok(
            before.pages@[i0].free_list@.insert(j0, Free { ptr: p, size: n }),
            before.pages@[i0].start_ptr as int,
            before.pages@[i0].end(),
        ),
        before.pages@[i0].used_size >= n,
{
    let page = before.pages@[i0];
    let fl = page.free_list@;
    let blk = Free { ptr: p, size: n };
    let nfl = fl.insert(j0, blk);
    assert(page.wf());
    // the range lies in this page and in no other
    let k = choose|k: int|
        0 <= k < before.pages@.len() && (#[trigger] before.pages@[k]).holds(p as int, n as int);
    if k < i0 {
        assert(before.pages@[k].end() <= before.pages@[i0].start_ptr);
    } else if k > i0 {
        assert(before.pages@[i0].end() <= before.pages@[k].start_ptr);
    }
    assert(k == i0);
    assert forall|j: int| 0 <= j < fl.len() implies disjoint(
        p as int,
        n as int,
        (#[trigger] fl[j]).ptr as int,
        fl[j].size as int,
    ) by {
        assert(fl[j] == before.pages@[i0].free_list@[j]);
    }
    assert forall|j: int| j0 <= j < fl.len() implies (#[trigger] fl[j]).ptr >= p by {
        if j > j0 {
            assert(fl[j0].end() <= fl[j].ptr);
        }
    }
    assert forall|j: int| 0 <= j < nfl.len() implies {
        &&& (#[trigger] nfl[j]).ptr % 8 == 0
        &&& nfl[j].size % 8 == 0
        &&& nfl[j].size > 0
        &&& page.start_ptr <= nfl[j].ptr
        &&& nfl[j].end() <= page.end()
    } by {
        if j < j0 {
            assert(nfl[j] == fl[j]);
        } else if j > j0 {
            assert(nfl[j] == fl[j - 1]);
        }
    }
    assert forall|j: int, l: int| 0 <= j < l < nfl.len() implies (#[trigger] nfl[j]).end() <= (
    #[trigger] nfl[l]).ptr by {
        let j1 = if j < j0 { j } else { j - 1 };
        let l1 = if l < j0 { l } else { l - 1 };
        if j == j0 {
            assert(nfl[l] == fl[l1]);
            assert(disjoint(p as int, n as int, fl[l1].ptr as int, fl[l1].size as int));
        } else if l == j0 {
            assert(nfl[j] == fl[j1]);
            assert(disjoint(p as int, n as int, fl[j1].ptr as int, fl[j1].size as int));
        } else {
            assert(nfl[j] == fl[j1] && nfl[l] == fl[l1]);
            assert(fl[j1].end() <= fl[l1].ptr);
        }
    }
    lemma_free_sum_insert(fl, j0, blk);
    lemma_free_sum_bounded(nfl, page.start_ptr as int, page.end());
}

/// Giving a range back keeps the allocator's invariant.
pub proof fn lemma_returned_to(
    before: MemoryManager,
    after: MemoryManager,
    i0: int,
    j0: int,
    p: u64,
    n: u64,
)
    requires
        before.wf(),
        before.live@.contains_key(p as int),
        before.live@[p as int] == n,
        insertion_point(before, i0, j0, p),
        returned_to(before, after, i0, j0, p, n),
    ensures
        after.wf(),
{
    let page = before.pages@[i0];
    let fl = page.free_list@;
    let blk = Free { ptr: p, size: n };
    let nfl = fl.insert(j0, blk);
    lemma_insertion_point(before, i0, j0, p, n);
    lemma_free_sum_insert(fl, j0, blk);
    assert(page.wf());
    assert(after.pages@[i0].wf());
    assert(after.pages_ok()) by {
        assert forall|i: int| 0 <= i < after.pages@.len() implies {
            &&& (#[trigger] after.pages@[i]).wf()
            &&& PAGE_SIZE <= after.pages@[i].start_ptr
            &&& after.pages@[i].end() <= after.next_page
        } by {
            if i != i0 {
                assert(after.pages@[i] == before.pages@[i]);
            }
        }
        assert forall|i: int, k: int| 0 <= i < k < after.pages@.len() implies (
        #[trigger] after.pages@[i]).end() <= (#[trigger] after.pages@[k]).start_ptr by {
            assert(before.pages@[i].end() <= before.pages@[k].start_ptr);
            assert(after.pages@[i].end() == before.pages@[i].end());
            assert(after.pages@[k].start_ptr == before.pages@[k].start_ptr);
        }
    }
    assert(after.live_ok()) by {
        assert forall|q: int| #[trigger] after.live@.contains_key(q) implies {
            &&& q % 8 == 0
            &&& after.live@[q] > 0
            &&& after.live@[q] % 8 == 0
            &&& after.in_some_page(q, after.live@[q] as int)
        } by {
            assert(before.live@.contains_key(q));
            let i = choose|i: int|
                0 <= i < before.pages@.len() && (#[trigger] before.pages@[i]).holds(
                    q,
                    before.live@[q] as int,
                );
            assert(after.pages@[i].holds(q, after.live@[q] as int));
        }
        assert forall|q: int, i: int, j: int|
            #![trigger after.live@.contains_key(q), after.pages@[i].free_list@[j]]
            after.live@.contains_key(q) && 0 <= i < after.pages@.len() && 0 <= j
                < after.pages@[i].free_list@.len() implies disjoint(
            q,
            after.live@[q] as int,
            after.pages@[i].free_list@[j].ptr as int,
            after.pages@[i].free_list@[j].size as int,
        ) by {
            assert(before.live@.contains_key(q) && q != p);
            if i != i0 {
                assert(after.pages@[i] == before.pages@[i]);
                assert(disjoint(
                    q,
                    before.live@[q] as int,
                    before.pages@[i].free_list@[j].ptr as int,
                    before.pages@[i].free_list@[j].size as int,
                ));
            } else if j < j0 {
                assert(nfl[j] == before.pages@[i].free_list@[j]);
            } else if j > j0 {
                assert(nfl[j] == before.pages@[i].free_list@[j - 1]);
            } else {
                assert(before.live@.contains_key(p as int));
                assert(disjoint(q, before.live@[q] as int, p as int,
                    before.live@[p as int] as int));
            }
        }
        assert forall|q: int, r: int|
            #![trigger after.live@.contains_key(q), after.live@.contains_key(r)]
            after.live@.contains_key(q) && after.live@.contains_key(r) && q != r implies disjoint(
            q,
            after.live@[q] as int,
            r,
            after.live@[r] as int,
        ) by {
            assert(before.live@.contains_key(q) && before.live@.contains_key(r));
        }
    }
}

/// How the allocator changes when the free ranges of page `i0` are merged:
/// the same addresses are free, in fewer ranges.
pub open spec fn merged_in(before: MemoryManager, after: MemoryManager, i0: int) -> bool {
    let page = before.pages@[i0];
    &&& 0 <= i0 < before.pages@.len()
    &&& after.pages@.len() == before.pages@.len()
    &&& after.next_page == before.next_page
    &&& forall|i: int| 0 <= i < before.pages@.len() && i != i0 ==> after.pages@[i]
        == before.pages@[i]
    &&& after.pages@[i0].start_ptr == page.start_ptr
    &&& after.pages@[i0].tot_size == page.tot_size
    &&& after.pages@[i0].used_size == page.used_size
    &&& after.pages@[i0].wf()
    &&& forall|a: int| covered(after.pages@[i0].free_list@, a) == covered(page.free_list@, a)
    &&& after.live@ == before.live@
}

/// Merging the free ranges of a page keeps the allocator's invariant.
pub proof fn lemma_merged_in(before: MemoryManager, after: MemoryManager, i0: int)
    requires
        before.wf(),
        merged_in(before, after, i0),
    ensures
        after.wf(),
{
    assert(after.pages_ok()) by {
        assert forall|i: int| 0 <= i < after.pages@.len() implies {
            &&& (#[trigger] after.pages@[i]).wf()
            &&& PAGE_SIZE <= after.pages@[i].start_ptr
            &&& after.pages@[i].end() <= after.next_page
        } by {
            assert(before.pages@[i].wf());
            if i != i0 {
                assert(after.pages@[i] == before.pages@[i]);
            }
        }
        assert forall|i: int, k: int| 0 <= i < k < after.pages@.len() implies (
        #[trigger] after.pages@[i]).end() <= (#[trigger] after.pages@[k]).start_ptr by {
            assert(before.pages@[i].end() <= before.pages@[k].start_ptr);
            assert(after.pages@[i].end() == before.pages@[i].end());
            assert(after.pages@[k].start_ptr == before.pages@[k].start_ptr);
        }
    }
    assert(after.live_ok()) by {
        assert forall|q: int| #[trigger] after.live@.contains_key(q) implies {
            &&& q % 8 == 0
            &&& after.live@[q] > 0
            &&& after.live@[q] % 8 == 0
            &&& after.in_some_page(q, after.live@[q] as int)
        } by {
            assert(before.live@.contains_key(q));
            let i = choose|i: int|
                0 <= i < before.pages@.len() && (#[trigger] before.pages@[i]).holds(
                    q,
                    before.live@[q] as int,
                );
            assert(after.pages@[i].holds(q, after.live@[q] as int));
        }
        assert forall|q: int, i: int, j: int|
            #![trigger after.live@.contains_key(q), after.pages@[i].free_list@[j]]
            after.live@.contains_key(q) && 0 <= i < after.pages@.len() && 0 <= j
                < after.pages@[i].free_list@.len() implies disjoint(
            q,
            after.live@[q] as int,
            after.pages@[i].free_list@[j].ptr as int,
            after.pages@[i].free_list@[j].size as int,
        ) by {
            assert(before.live@.contains_key(q));
            let b = after.pages@[i].free_list@[j];
            if i != i0 {
                assert(after.pages@[i] == before.pages@[i]);
                assert(disjoint(
                    q,
                    before.live@[q] as int,
                    before.pages@[i].free_list@[j].ptr as int,
                    before.pages@[i].free_list@[j].size as int,
                ));
            } else if !disjoint(q, after.live@[q] as int, b.ptr as int, b.size as int) {
                let a = if q >= b.ptr { q } else { b.ptr as int };
                assert(b.contains(a));
                assert(covered(after.pages@[i0].free_list@, a));
                assert(covered(before.pages@[i0].free_list@, a));
                let j1 = choose|j1: int|
                    0 <= j1 < before.pages@[i0].free_list@.len() && (
                    #[trigger] before.pages@[i0].free_list@[j1]).contains(a);
                assert(disjoint(
                    q,
                    before.live@[q] as int,
                    before.pages@[i0].free_list@[j1].ptr as int,
                    before.pages@[i0].free_list@[j1].size as int,
                ));
                assert(false);
            }
        }
        assert forall|q: int, r: int|
            #![trigger after.live@.contains_key(q), after.live@.contains_key(r)]
            after.live@.contains_key(q) && after.live@.contains_key(r) && q != r implies disjoint(
            q,
            after.live@[q] as int,
            r,
            after.live@[r] as int,
        ) by {
            assert(before.live@.contains_key(q) && before.live@.contains_key(r));
        }
    }
}

/// How the allocator changes when `n` bytes are taken from the front of
/// free range `j0` of page `i0`.
pub open spec fn taken_from(
    before: MemoryManager,
    after: MemoryManager,
    i0: int,
    j0: int,
    n: u64,
) -> bool {
    let page = before.pages@[i0];
    let blk = page.free_list@[j0];
    &&& 0 <= i0 < before.pages@.len()
    &&& 0 <= j0 < page.free_list@.len()
    &&& 0 < n <= blk.size
    &&& n % 8 == 0
    &&& after.pages@.len() == before.pages@.len()
    &&& after.next_page == before.next_page
    &&& forall|i: int| 0 <= i < before.pages@.len() && i != i0 ==> after.pages@[i]
        == before.pages@[i]
    &&& after.pages@[i0].start_ptr == page.start_ptr
    &&& after.pages@[i0].tot_size == page.tot_size
    &&& after.pages@[i0].used_size == page.used_size + n
    &&& after.pages@[i0].free_list@ == if blk.size == n {
        page.free_list@.remove(j0)
    } else {
        page.free_list@.update(j0, Free { ptr: (blk.ptr + n) as u64, size: (blk.size - n) as u64 })
    }
    &&& after.live@ == before.live@.insert(blk.ptr as int, n as nat)
}

/// Taking a request from the front of a free range keeps the
/// allocator's invariant; the address taken was not handed out before.
pub proof fn lemma_taken_from(
    before: MemoryManager,
    after: MemoryManager,
    i0: int,
    j0: int,
    n: u64,
)
    requires
        before.wf(),
        taken_from(before, after, i0, j0, n),
    ensures
        after.wf(),
        !before.live@.contains_key(before.pages@[i0].free_list@[j0].ptr as int),
        before.pages@[i0].free_list@[j0].ptr >= PAGE_SIZE,
        before.pages@[i0].free_list@[j0].ptr + n <= ADDRESS_LIMIT,
{
    let page = before.pages@[i0];
    let fl = page.free_list@;
    let blk = fl[j0];
    let npage = after.pages@[i0];
    let nfl = npage.free_list@;
    let bp = blk.ptr as int;
    assert(page.wf());
    // the range taken was free, so nothing handed out starts in it
    if before.live@.contains_key(bp) {
        assert(disjoint(bp, before.live@[bp] as int, blk.ptr as int, blk.size as int));
        assert(false);
    }
    // the page that the range was taken from
    if blk.size == n {
        lemma_free_sum_remove(fl, j0);
        assert forall|j: int| 0 <= j < nfl.len() implies {
            &&& (#[trigger] nfl[j]).ptr % 8 == 0
            &&& nfl[j].size % 8 == 0
            &&& nfl[j].size > 0
            &&& page.start_ptr <= nfl[j].ptr
            &&& nfl[j].end() <= page.end()
        } by {
            if j < j0 {
                assert(nfl[j] == fl[j]);
            } else {
                assert(nfl[j] == fl[j + 1]);
            }
        }
        assert forall|j: int, k: int| 0 <= j < k < nfl.len() implies (#[trigger] nfl[j]).end()
            <= (#[trigger] nfl[k]).ptr by {
            let j1 = if j < j0 { j } else { j + 1 };
            let k1 = if k < j0 { k } else { k + 1 };
            assert(nfl[j] == fl[j1] && nfl[k] == fl[k1]);
        }
    } else {
        let nb = Free { ptr: (blk.ptr + n) as u64, size: (blk.size - n) as u64 };
        lemma_free_sum_update(fl, j0, nb);
        assert forall|j: int| 0 <= j < nfl.len() implies {
            &&& (#[trigger] nfl[j]).ptr % 8 == 0
            &&& nfl[j].size % 8 == 0
            &&& nfl[j].size > 0
            &&& page.start_ptr <= nfl[j].ptr
            &&& nfl[j].end() <= page.end()
        } by {
            if j != j0 {
                assert(nfl[j] == fl[j]);
            }
        }
        assert forall|j: int, k: int| 0 <= j < k < nfl.len() implies (#[trigger] nfl[j]).end()
            <= (#[trigger] nfl[k]).ptr by {
            assert(fl[j].end() <= fl[k].ptr);
        }
    }
    assert(npage.wf());
    assert(after.pages_ok()) by {
        assert forall|i: int| 0 <= i < after.pages@.len() implies {
            &&& (#[trigger] after.pages@[i]).wf()
            &&& PAGE_SIZE <= after.pages@[i].start_ptr
            &&& after.pages@[i].end() <= after.next_page
        } by {
            if i != i0 {
                assert(after.pages@[i] == before.pages@[i]);
            }
        }
        assert forall|i: int, k: int| 0 <= i < k < after.pages@.len() implies (
        #[trigger] after.pages@[i]).end() <= (#[trigger] after.pages@[k]).start_ptr by {
            assert(before.pages@[i].end() <= before.pages@[k].start_ptr);
            assert(after.pages@[i].end() == before.pages@[i].end());
            assert(after.pages@[k].start_ptr == before.pages@[k].start_ptr);
        }
    }
    // every free range after the step lies inside a free range before it
    assert forall|i: int, j: int|
        0 <= i < after.pages@.len() && 0 <= j < after.pages@[i].free_list@.len() implies exists|
        j1: int,
    |
        0 <= j1 < before.pages@[i].free_list@.len() && before.pages@[i].free_list@[j1].ptr <= (
        #[trigger] after.pages@[i].free_list@[j]).ptr && after.pages@[i].free_list@[j].end()
            <= before.pages@[i].free_list@[j1].end() && (i == i0 && j1 == j0 ==> bp + n
            <= after.pages@[i].free_list@[j].ptr) by {
        if i != i0 {
            assert(after.pages@[i] == before.pages@[i]);
            assert(before.pages@[i].free_list@[j].ptr <= after.pages@[i].free_list@[j].ptr);
        } else if blk.size == n {
            let j1 = if j < j0 { j } else { j + 1 };
            assert(nfl[j] == fl[j1]);
            assert(before.pages@[i].free_list@[j1].ptr <= after.pages@[i].free_list@[j].ptr);
        } else {
            if j != j0 {
                assert(nfl[j] == fl[j]);
            }
            assert(before.pages@[i].free_list@[j].ptr <= after.pages@[i].free_list@[j].ptr);
        }
    }
    assert(after.live_ok()) by {
        assert forall|p: int| #[trigger] after.live@.contains_key(p) implies {
            &&& p % 8 == 0
            &&& after.live@[p] > 0
            &&& after.live@[p] % 8 == 0
            &&& after.in_some_page(p, after.live@[p] as int)
        } by {
            if p == bp {
                assert(after.pages@[i0].holds(p, n as int));
            } else {
                assert(before.live@.contains_key(p));
                let i = choose|i: int|
                    0 <= i < before.pages@.len() && (#[trigger] before.pages@[i]).holds(
                        p,
                        before.live@[p] as int,
                    );
                assert(after.pages@[i].holds(p, after.live@[p] as int));
            }
        }
        assert forall|p: int, i: int, j: int|
            #![trigger after.live@.contains_key(p), after.pages@[i].free_list@[j]]
            after.live@.contains_key(p) && 0 <= i < after.pages@.len() && 0 <= j
                < after.pages@[i].free_list@.len() implies disjoint(
            p,
            after.live@[p] as int,
            after.pages@[i].free_list@[j].ptr as int,
            after.pages@[i].free_list@[j].size as int,
        ) by {
            let b = after.pages@[i].free_list@[j];
            let j1 = choose|j1: int|
                0 <= j1 < before.pages@[i].free_list@.len() && before.pages@[i].free_list@[j1].ptr
                    <= b.ptr && b.end() <= before.pages@[i].free_list@[j1].end() && (i == i0 && j1
                    == j0 ==> bp + n <= b.ptr);
            let b1 = before.pages@[i].free_list@[j1];
            if p != bp {
                assert(before.live@.contains_key(p));
                assert(disjoint(p, before.live@[p] as int, b1.ptr as int, b1.size as int));
            } else if i != i0 {
                assert(before.pages@[i].wf());
                if i < i0 {
                    assert(before.pages@[i].end() <= before.pages@[i0].start_ptr);
                } else {
                    assert(before.pages@[i0].end() <= before.pages@[i].start_ptr);
                }
            } else if j1 != j0 {
                if j1 < j0 {
                    assert(fl[j1].end() <= fl[j0].ptr);
                } else {
                    assert(fl[j0].end() <= fl[j1].ptr);
                }
            }
        }
        assert forall|p: int, q: int|
            #![trigger after.live@.contains_key(p), after.live@.contains_key(q)]
            after.live@.contains_key(p) && after.live@.contains_key(q) && p != q implies disjoint(
            p,
            after.live@[p] as int,
            q,
            after.live@[q] as int,
        ) by {
            if p == bp {
                assert(before.live@.contains_key(q));
                assert(disjoint(q, before.live@[q] as int, blk.ptr as int, blk.size as int));
            } else if q == bp {
                assert(before.live@.contains_key(p));
                assert(disjoint(p, before.live@[p] as int, blk.ptr as int, blk.size as int));
            } else {
                assert(before.live@.contains_key(p) && before.live@.contains_key(q));
            }
        }
    }
}

impl MemoryManager {
    /// The ranges handed out and not yet freed: start address to size.
    pub open spec fn allocated(&self) -> Map<int, nat> {
        self.live@
    }

    /// The pages are well formed, in address order, and below `next_page`.
    pub open spec fn pages_ok(&self) -> bool {
        &&& self.next_page % 8 == 0
        &&& PAGE_SIZE <= self.next_page <= ADDRESS_LIMIT
        &&& forall|i: int|
            0 <= i < self.pages@.len() ==> {
                &&& (#[trigger] self.pages@[i]).wf()
                &&& PAGE_SIZE <= self.pages@[i].start_ptr
                &&& self.pages@[i].end() <= self.next_page
            }
        &&& forall|i: int, k: int|
            0 <= i < k < self.pages@.len() ==> (#[trigger] self.pages@[i]).end()
                <= (#[trigger] self.pages@[k]).start_ptr
    }

    /// Whether the range of `n` bytes at `p` lies in one page.
    pub open spec fn in_some_page(&self, p: int, n: int) -> bool {
        exists|i: int| 0 <= i < self.pages@.len() && (#[trigger] self.pages@[i]).holds(p, n)
    }

    /// Every range handed out is aligned, non-empty and inside one page;
    /// it meets no free range and no other range handed out.
    pub open spec fn live_ok(&self) -> bool {
        &&& forall|p: int| #[trigger]
            self.live@.contains_key(p) ==> {
                &&& p % 8 == 0
                &&& self.live@[p] > 0
                &&& self.live@[p] % 8 == 0
                &&& self.in_some_page(p, self.live@[p] as int)
            }
        &&& forall|p: int, i: int, j: int|
            #![trigger self.live@.contains_key(p), self.pages@[i].free_list@[j]]
            self.live@.contains_key(p) && 0 <= i < self.pages@.len() && 0 <= j
                < self.pages@[i].free_list@.len() ==> disjoint(
                p,
                self.live@[p] as int,
                self.pages@[i].free_list@[j].ptr as int,
                self.pages@[i].free_list@[j].size as int,
            )
        &&& forall|p: int, q: int|
            #![trigger self.live@.contains_key(p), self.live@.contains_key(q)]
            self.live@.contains_key(p) && self.live@.contains_key(q) && p != q ==> disjoint(
                p,
                self.live@[p] as int,
                q,
                self.live@[q] as int,
            )
    }

    /// The allocator's invariant.
    pub open spec fn wf(&self) -> bool {
        self.pages_ok() && self.live_ok()
    }

    /// Whether some free range of some page has at least `n` bytes.
    pub open spec fn fits_existing(&self, n: int) -> bool {
        exists|i: int| 0 <= i < self.pages@.len() && (#[trigger] self.pages@[i]).fits(n)
    }

    /// Free range `j` of page `i` is the first, in the order of pages and
    /// of addresses within a page, that has at least `n` bytes.
    pub open spec fn first_fit(&self, n: int, i: int, j: int) -> bool {
        &&& 0 <= i < self.pages@.len()
        &&& 0 <= j < self.pages@[i].free_list@.len()
        &&& self.pages@[i].free_list@[j].size >= n
        &&& forall|i2: int| 0 <= i2 < i ==> !(#[trigger] self.pages@[i2]).fits(n)
        &&& forall|j2: int| 0 <= j2 < j ==> (#[trigger] self.pages@[i].free_list@[j2]).size < n
    }

    /// Whether a request for `size` bytes can be met: from a free range
    /// that is large enough, or from new pages below the address limit.
    pub open spec fn can_allocate(&self, size: nat) -> bool {
        &&& 0 < size <= ADDRESS_LIMIT
        &&& (self.fits_existing(round_up(size) as int) || self.next_page + pages_for(size)
            * PAGE_SIZE <= ADDRESS_LIMIT)
    }

    /// What giving back the range of `n` bytes at `p` does to the pages:
    /// in the page that holds `p`, the range is free besides what was free,
    /// and no two neighbouring free ranges are left touching; the other
    /// pages are as before.
    pub open spec fn freed_from(&self, before: &MemoryManager, p: u64, n: nat) -> bool {
        exists|i: int|
            {
                &&& 0 <= i < before.pages@.len()
                &&& (#[trigger] before.pages@[i]).start_ptr <= p < before.pages@[i].end()
                &&& forall|k: int|
                    0 <= k < before.pages@.len() && k != i ==> self.pages@[k] == before.pages@[k]
                &&& self.pages@[i].start_ptr == before.pages@[i].start_ptr
                &&& self.pages@[i].tot_size == before.pages@[i].tot_size
                &&& self.pages@[i].used_size == before.pages@[i].used_size - n
                &&& forall|a: int|
                    covered(self.pages@[i].free_list@, a) == (covered(
                        before.pages@[i].free_list@,
                        a,
                    ) || p <= a < p + n)
                &&& coalesced(self.pages@[i].free_list@)
            }
    }

    /// What a successful allocation of `n` bytes at `p` leaves behind.
    pub open spec fn allocated_from(&self, before: &MemoryManager, p: u64, n: nat) -> bool {
        &&& !before.allocated().contains_key(p as int)
        &&& self.allocated() == before.allocated().insert(p as int, n)
        &&& p % 8 == 0
        &&& p >= PAGE_SIZE
        &&& p + n <= ADDRESS_LIMIT
    }

    /// An allocator without pages.
    pub fn new() -> (m: MemoryManager)
        ensures
            m.wf(),
            m.allocated() == Map::<int, nat>::empty(),
            m.pages@.len() == 0,
            m.next_page == PAGE_SIZE,
    {
        MemoryManager { pages: Vec::new(), next_page: PAGE_SIZE as u64, live: Ghost(Map::empty()) }
    }

    /// Appends a page of `num` page sizes at the next free address, as one
    /// free range. Fails, and changes nothing, when the page would pass the
    /// address limit.
    pub fn alloc_new_page(&mut self, num: usize) -> (ok: bool)
        requires
            old(self).wf(),
            0 < num <= 0x10_0000_0000,
        ensures
            final(self).wf(),
            final(self).allocated() == old(self).allocated(),
            ok == (old(self).next_page + num * PAGE_SIZE <= ADDRESS_LIMIT),
            !ok ==> *final(self) == *old(self),
            ok ==> {
                &&& final(self).next_page == old(self).next_page + num * PAGE_SIZE
                &&& final(self).pages@.len() == old(self).pages@.len() + 1
                &&& forall|i: int|
                    0 <= i < old(self).pages@.len() ==> final(self).pages@[i] == old(self).pages@[i]
                &&& final(self).pages@.last().start_ptr == old(self).next_page
                &&& final(self).pages@.last().tot_size == num * PAGE_SIZE
                &&& final(self).pages@.last().used_size == 0
                &&& final(self).pages@.last().free_list@ == seq![
                    Free { ptr: old(self).next_page, size: (num * PAGE_SIZE) as u64 },
                ]
            },
    {
        let bytes = (num as u64) * (PAGE_SIZE as u64);
        if bytes > ADDRESS_LIMIT - self.next_page {
            return false;
        }
        let start = self.next_page;
        let mut free_list: Vec<Free> = Vec::new();
        free_list.push(Free { ptr: start, size: bytes });
        let page = Page { used_size: 0, tot_size: bytes, start_ptr: start, free_list };
        proof {
            let fl = page.free_list@;
            assert(fl.drop_last() =~= Seq::<Free>::empty());
            assert(free_sum(fl.drop_last()) == 0);
            assert(free_sum(fl) == bytes);
            assert(page.wf());
        }
        let ghost before = *self;
        self.pages.push(page);
        self.next_page = start + bytes;
        proof {
            assert(self.pages_ok()) by {
                assert forall|i: int| 0 <= i < self.pages@.len() implies {
                    &&& (#[trigger] self.pages@[i]).wf()
                    &&& PAGE_SIZE <= self.pages@[i].start_ptr
                    &&& self.pages@[i].end() <= self.next_page
                } by {
                    if i < before.pages@.len() {
                        assert(self.pages@[i] == before.pages@[i]);
                    }
                }
                assert forall|i: int, k: int| 0 <= i < k < self.pages@.len() implies (
                #[trigger] self.pages@[i]).end() <= (#[trigger] self.pages@[k]).start_ptr by {
                    assert(self.pages@[i] == before.pages@[i]);
                    if k < before.pages@.len() {
                        assert(self.pages@[k] == before.pages@[k]);
                    }
                }
            }
            assert(self.live_ok()) by {
                assert forall|q: int| #[trigger] self.live@.contains_key(q) implies {
                    &&& q % 8 == 0
                    &&& self.live@[q] > 0
                    &&& self.live@[q] % 8 == 0
                    &&& self.in_some_page(q, self.live@[q] as int)
                } by {
                    assert(before.live@.contains_key(q));
                    let i = choose|i: int|
                        0 <= i < before.pages@.len() && (#[trigger] before.pages@[i]).holds(
                            q,
                            before.live@[q] as int,
                        );
                    assert(self.pages@[i] == before.pages@[i]);
                    assert(self.pages@[i].holds(q, self.live@[q] as int));
                }
                assert forall|q: int, i: int, j: int|
                    #![trigger self.live@.contains_key(q), self.pages@[i].free_list@[j]]
                    self.live@.contains_key(q) && 0 <= i < self.pages@.len() && 0 <= j
                        < self.pages@[i].free_list@.len() implies disjoint(
                    q,
                    self.live@[q] as int,
                    self.pages@[i].free_list@[j].ptr as int,
                    self.pages@[i].free_list@[j].size as int,
                ) by {
                    assert(before.live@.contains_key(q));
                    if i < before.pages@.len() {
                        assert(self.pages@[i] == before.pages@[i]);
                        assert(disjoint(
                            q,
                            before.live@[q] as int,
                            before.pages@[i].free_list@[j].ptr as int,
                            before.pages@[i].free_list@[j].size as int,
                        ));
                    } else {
                        let k = choose|k: int|
                            0 <= k < before.pages@.len() && (#[trigger] before.pages@[k]).holds(
                                q,
                                before.live@[q] as int,
                            );
                        assert(before.pages@[k].end() <= before.next_page);
                    }
                }
            }
        }
        true
    }

    /// First fit: scans the pages for a free range of at least `size`
    /// bytes, rounded up, and takes the request from its front.
    pub fn find_from_alloced_pages(&mut self, size: usize) -> (r: Option<u64>)
        requires
            old(self).wf(),
            0 < size <= ADDRESS_LIMIT,
        ensures
            final(self).wf(),
            final(self).next_page == old(self).next_page,
            r is Some <==> old(self).fits_existing(round_up(size as nat) as int),
            r matches Some(p) ==> final(self).allocated_from(old(self), p, round_up(size as nat)),
            r matches Some(p) ==> exists|i: int, j: int|
                #![trigger old(self).pages@[i].free_list@[j]]
                old(self).first_fit(round_up(size as nat) as int, i, j) && p
                    == old(self).pages@[i].free_list@[j].ptr && taken_from(
                    *old(self),
                    *final(self),
                    i,
                    j,
                    round_up(size as nat) as u64,
                ),
            r is None ==> *final(self) == *old(self),
    {
        let rs = align_size(size as u64);
        let n_pages = self.pages.len();
        let mut i: usize = 0;
        while i < n_pages
            invariant
                i <= n_pages,
                n_pages == self.pages@.len(),
                *self == *old(self),
                self.wf(),
                rs == round_up(size as nat),
                rs > 0,
                forall|i2: int| 0 <= i2 < i ==> !(#[trigger] self.pages@[i2]).fits(rs as int),
            decreases n_pages - i,
        {
            assert(self.pages@[i as int].wf());
            if self.pages[i].tot_size - self.pages[i].used_size >= rs {
                let n = self.pages[i].free_list.len();
                let mut j: usize = 0;
                while j < n && self.pages[i].free_list[j].size < rs
                    invariant
                        j <= n,
                        i < self.pages@.len(),
                        n == self.pages@[i as int].free_list@.len(),
                        forall|j2: int|
                            0 <= j2 < j ==> (#[trigger] self.pages@[i as int].free_list@[j2]).size
                                < rs,
                    decreases n - j,
                {
                    j += 1;
                }
                if j < n {
                    let blk = self.pages[i].free_list[j];
                    let ghost before = *self;
                    proof {
                        lemma_free_sum_covers(self.pages@[i as int].free_list@, j as int);
                        assert(self.pages@[i as int].fits(rs as int));
                    }
                    if blk.size == rs {
                        self.pages[i].free_list.remove(j);
                    } else {
                        self.pages[i].free_list[j] = Free { ptr: blk.ptr
                            + rs, size: blk.size - rs };
                    }
                    self.pages[i].used_size = self.pages[i].used_size + rs;
                    self.live = Ghost(self.live@.insert(blk.ptr as int, rs as nat));
                    proof {
                        lemma_taken_from(before, *self, i as int, j as int, rs);
                        assert(before.first_fit(rs as int, i as int, j as int));
                        assert(blk.ptr == before.pages@[i as int].free_list@[j as int].ptr);
                    }
                    return Some(blk.ptr);
                }
            } else {
                proof {
                    let fl = self.pages@[i as int].free_list@;
                    assert forall|j2: int| 0 <= j2 < fl.len() implies (#[trigger] fl[j2]).size
                        < rs by {
                        lemma_free_sum_covers(fl, j2);
                    }
                }
            }
            i += 1;
        }
        None
    }

    /// Merges every pair of neighbouring free ranges of `page` that touch.
    pub fn merge(page: &mut Page)
        requires
            old(page).wf(),
        ensures
            final(page).wf(),
            final(page).start_ptr == old(page).start_ptr,
            final(page).tot_size == old(page).tot_size,
            final(page).used_size == old(page).used_size,
            forall|a: int|
                covered(final(page).free_list@, a) == covered(old(page).free_list@, a),
            coalesced(final(page).free_list@),
    {
        let mut j: usize = 0;
        while page.free_list.len() > 0 && j < page.free_list.len() - 1
            invariant
                j <= page.free_list@.len(),
                page.wf(),
                page.start_ptr == old(page).start_ptr,
                page.tot_size == old(page).tot_size,
                page.used_size == old(page).used_size,
                forall|a: int| covered(page.free_list@, a) == covered(old(page).free_list@, a),
                forall|k: int|
                    0 <= k < j && k < page.free_list@.len() - 1 ==> (
                    #[trigger] page.free_list@[k]).end() != page.free_list@[k + 1].ptr,
            decreases page.free_list@.len() - j,
        {
            let a = page.free_list[j];
            let b = page.free_list[j + 1];
            if a.ptr + a.size == b.ptr {
                proof {
                    lemma_merge_step(
                        page.free_list@,
                        j as int,
                        page.start_ptr as int,
                        page.end(),
                    );
                }
                let ghost fl = page.free_list@;
                page.free_list[j] = Free { ptr: a.ptr, size: a.size + b.size };
                page.free_list.remove(j + 1);
                assert(page.free_list@ == merged_at(fl, j as int));
            } else {
                j += 1;
            }
        }
    }

    /// Gives the range of `size` bytes at `ptr` back: it goes into the
    /// free list of its page, in address order, and is merged with the free
    /// ranges it touches.
    pub fn insert(&mut self, ptr: u64, size: usize)
        requires
            old(self).wf(),
            size <= ADDRESS_LIMIT,
            old(self).allocated().contains_key(ptr as int),
            old(self).allocated()[ptr as int] == round_up(size as nat),
        ensures
            final(self).wf(),
            final(self).allocated() == old(self).allocated().remove(ptr as int),
            final(self).next_page == old(self).next_page,
            final(self).pages@.len() == old(self).pages@.len(),
            final(self).freed_from(old(self), ptr, round_up(size as nat)),
    {
        let rs = align_size(size as u64);
        let n_pages = self.pages.len();
        let mut i: usize = 0;
        while i < n_pages
            invariant
                i <= n_pages,
                n_pages == self.pages@.len(),
                *self == *old(self),
                self.wf(),
                rs == round_up(size as nat),
                self.live@.contains_key(ptr as int),
                self.live@[ptr as int] == rs,
                forall|i2: int|
                    0 <= i2 < i ==> !((#[trigger] self.pages@[i2]).start_ptr <= ptr
                        < self.pages@[i2].end()),
            decreases n_pages - i,
        {
            assert(self.pages@[i as int].wf());
            if self.pages[i].start_ptr <= ptr && ptr < self.pages[i].start_ptr
                + self.pages[i].tot_size {
                let n = self.pages[i].free_list.len();
                let mut j: usize = 0;
                while j < n && self.pages[i].free_list[j].ptr < ptr
                    invariant
                        j <= n,
                        i < self.pages@.len(),
                        n == self.pages@[i as int].free_list@.len(),
                        forall|j2: int|
                            0 <= j2 < j ==> (#[trigger] self.pages@[i as int].free_list@[j2]).ptr
                                < ptr,
                    decreases n - j,
                {
                    j += 1;
                }
                let ghost before = *self;
                proof {
                    lemma_insertion_point(before, i as int, j as int, ptr, rs);
                }
                self.pages[i].free_list.insert(j, Free { ptr, size: rs });
                self.pages[i].used_size = self.pages[i].used_size - rs;
                self.live = Ghost(self.live@.remove(ptr as int));
                let ghost mid = *self;
                proof {
                    lemma_returned_to(before, mid, i as int, j as int, ptr, rs);
                }
                MemoryManager::merge(&mut self.pages[i]);
                proof {
                    lemma_merged_in(mid, *self, i as int);
                    let fl = before.pages@[i as int].free_list@;
                    let blk = Free { ptr, size: rs };
                    let nfl = fl.insert(j as int, blk);
                    assert forall|a: int| covered(nfl, a) == (covered(fl, a) || ptr <= a < ptr
                        + rs) by {
                        if covered(fl, a) {
                            let k = choose|k: int| 0 <= k < fl.len()
                                && (#[trigger] fl[k]).contains(a);
                            let k1 = if k < j { k } else { k + 1 };
                            assert(nfl[k1].contains(a));
                        }
                        if ptr <= a < ptr + rs {
                            assert(nfl[j as int].contains(a));
                        }
                        if covered(nfl, a) {
                            let k = choose|k: int|
                                0 <= k < nfl.len() && (#[trigger] nfl[k]).contains(a);
                            if k < j {
                                assert(fl[k].contains(a));
                            } else if k > j {
                                assert(nfl[k] == fl[k - 1]);
                                assert(fl[k - 1].contains(a));
                            }
                        }
                    }
                    assert(before.pages@[i as int].start_ptr
                        <= ptr < before.pages@[i as int].end());
                }
                return ;
            }
            i += 1;
        }
        proof {
            let k = choose|k: int|
                0 <= k < self.pages@.len() && (#[trigger] self.pages@[k]).holds(
                    ptr as int,
                    rs as int,
                );
            assert(self.pages@[k].start_ptr <= ptr < self.pages@[k].end());
            assert(false);
        }
    }

    /// Hands out a range of at least `size` bytes, rounded up to the
    /// alignment: from the first free range that is large enough, else from
    /// new pages. Returns `None`, and changes nothing, when `size` is zero
    /// or the address space cannot hold the new pages.
    pub fn malloc(&mut self, size: usize) -> (r: Option<u64>)
        requires
            old(self).wf(),
        ensures
            final(self).wf(),
            r is Some <==> old(self).can_allocate(size as nat),
            r matches Some(p) ==> final(self).allocated_from(old(self), p, round_up(size as nat)),
            old(self).next_page <= final(self).next_page <= old(self).next_page + pages_for(
                size as nat,
            ) * PAGE_SIZE,
            r matches Some(p) ==> if old(self).fits_existing(round_up(size as nat) as int) {
                final(self).next_page == old(self).next_page && final(self).pages@.len()
                    == old(self).pages@.len()
            } else {
                p == old(self).next_page && final(self).next_page == old(self).next_page
                    + pages_for(size as nat) * PAGE_SIZE && final(self).pages@.len()
                        == old(self).pages@.len() + 1
            },
            r matches Some(p) ==> (old(self).fits_existing(round_up(size as nat) as int)
                ==> exists|i: int, j: int|
                #![trigger old(self).pages@[i].free_list@[j]]
                old(self).first_fit(round_up(size as nat) as int, i, j) && p
                    == old(self).pages@[i].free_list@[j].ptr && taken_from(
                    *old(self),
                    *final(self),
                    i,
                    j,
                    round_up(size as nat) as u64,
                )),
            r is None ==> *final(self) == *old(self),
    {
        if size == 0 || size as u64 > ADDRESS_LIMIT {
            return None;
        }
        let found = self.find_from_alloced_pages(size);
        if found.is_some() {
            return found;
        }
        let num = if size % PAGE_SIZE > 0 {
            size / PAGE_SIZE + 1
        } else {
            size / PAGE_SIZE
        };
        assert(num == pages_for(size as nat));
        assert(0 < num <= 0x10_0000_0000);
        assert(size <= num * PAGE_SIZE);
        let ghost rs = round_up(size as nat);
        assert(rs <= num * PAGE_SIZE);
        if !self.alloc_new_page(num) {
            return None;
        }
        proof {
            let last = self.pages@.len() - 1;
            let blk = self.pages@[last].free_list@[0];
            assert(blk.size >= rs);
            assert(self.pages@[last].fits(rs as int));
            assert(self.fits_existing(rs as int));
        }
        self.find_from_alloced_pages(size)
    }

    /// Gives back the range that `malloc` handed out for `size` bytes at
    /// `ptr`.
    pub fn free(&mut self, ptr: u64, size: usize)
        requires
            old(self).wf(),
            size <= ADDRESS_LIMIT,
            old(self).allocated().contains_key(ptr as int),
            old(self).allocated()[ptr as int] == round_up(size as nat),
        ensures
            final(self).wf(),
            final(self).allocated() == old(self).allocated().remove(ptr as int),
            final(self).next_page == old(self).next_page,
            final(self).pages@.len() == old(self).pages@.len(),
            final(self).freed_from(old(self), ptr, round_up(size as nat)),
    {
        self.insert(ptr, size);
    }
}

} // verus!
