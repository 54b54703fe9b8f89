use race_hash::mm::{align_size, Free, MemoryManager, Page};

#[test]
fn sizes_round_up_to_eight() {
    assert_eq!(align_size(0), 0);
    assert_eq!(align_size(1), 8);
    assert_eq!(align_size(8), 8);
    assert_eq!(align_size(9), 16);
    assert_eq!(align_size(4095), 4096);
}

#[test]
fn first_allocation_opens_a_page() {
    let mut mm = MemoryManager::new();
    assert_eq!(mm.pages.len(), 0);
    let p = mm.malloc(16);
    assert_eq!(p, Some(4096));
    assert_eq!(mm.pages.len(), 1);
    assert_eq!(mm.pages[0].start_ptr, 4096);
    assert_eq!(mm.pages[0].tot_size, 4096);
    assert_eq!(mm.pages[0].used_size, 16);
    assert_eq!(mm.pages[0].free_list.len(), 1);
    assert_eq!(mm.pages[0].free_list[0].ptr, 4096 + 16);
    assert_eq!(mm.pages[0].free_list[0].size, 4096 - 16);
}

#[test]
fn allocations_are_aligned_and_in_order() {
    let mut mm = MemoryManager::new();
    assert_eq!(mm.malloc(1), Some(4096));
    assert_eq!(mm.malloc(9), Some(4104));
    assert_eq!(mm.malloc(8), Some(4120));
    assert_eq!(mm.pages[0].used_size, 8 + 16 + 8);
}

#[test]
fn zero_bytes_are_not_allocated() {
    let mut mm = MemoryManager::new();
    assert_eq!(mm.malloc(0), None);
    assert_eq!(mm.pages.len(), 0);
}

#[test]
fn large_request_gets_pages_of_its_own() {
    let mut mm = MemoryManager::new();
    assert_eq!(mm.malloc(16), Some(4096));
    // does not fit the rest of the first page
    assert_eq!(mm.malloc(4096 * 2 + 1), Some(8192));
    assert_eq!(mm.pages.len(), 2);
    assert_eq!(mm.pages[1].tot_size, 4096 * 3);
    assert_eq!(mm.pages[1].used_size, 4096 * 2 + 8);
    // the first page still serves small requests: first fit
    assert_eq!(mm.malloc(16), Some(4112));
}

#[test]
fn exact_fit_removes_the_free_range() {
    let mut mm = MemoryManager::new();
    assert_eq!(mm.malloc(4096), Some(4096));
    assert_eq!(mm.pages[0].free_list.len(), 0);
    assert_eq!(mm.pages[0].used_size, 4096);
    // nothing free: the next request opens a page
    assert_eq!(mm.malloc(8), Some(8192));
}

#[test]
fn freed_range_is_reused_first_fit() {
    let mut mm = MemoryManager::new();
    let a = mm.malloc(16).unwrap();
    let b = mm.malloc(16).unwrap();
    let c = mm.malloc(16).unwrap();
    assert_eq!((a, b, c), (4096, 4112, 4128));
    mm.free(b, 16);
    assert_eq!(mm.pages[0].free_list.len(), 2);
    assert_eq!(mm.pages[0].free_list[0].ptr, 4112);
    assert_eq!(mm.pages[0].free_list[0].size, 16);
    assert_eq!(mm.pages[0].used_size, 32);
    // too large for the hole: taken from the tail
    assert_eq!(mm.malloc(24), Some(4144));
    // fits the hole
    assert_eq!(mm.malloc(10), Some(4112));
    assert_eq!(mm.pages[0].free_list.len(), 1);
}

#[test]
fn neighbouring_free_ranges_are_merged() {
    let mut mm = MemoryManager::new();
    let a = mm.malloc(16).unwrap();
    let b = mm.malloc(16).unwrap();
    let c = mm.malloc(16).unwrap();
    mm.free(a, 16);
    mm.free(c, 16);
    // c touches the tail of the page: merged with it
    assert_eq!(mm.pages[0].free_list.len(), 2);
    assert_eq!(mm.pages[0].free_list[0].ptr, 4096);
    assert_eq!(mm.pages[0].free_list[0].size, 16);
    assert_eq!(mm.pages[0].free_list[1].ptr, 4128);
    assert_eq!(mm.pages[0].free_list[1].size, 4096 - 32);
    mm.free(b, 16);
    // everything is one free range again
    assert_eq!(mm.pages[0].free_list.len(), 1);
    assert_eq!(mm.pages[0].free_list[0].ptr, 4096);
    assert_eq!(mm.pages[0].free_list[0].size, 4096);
    assert_eq!(mm.pages[0].used_size, 0);
}

#[test]
fn merge_joins_touching_ranges_of_a_page() {
    let mut page = Page {
        used_size: 4096 - 48,
        tot_size: 4096,
        start_ptr: 4096,
        free_list: vec![
            Free { ptr: 4096, size: 16 },
            Free { ptr: 4112, size: 16 },
            Free { ptr: 4200, size: 16 },
        ],
    };
    MemoryManager::merge(&mut page);
    assert_eq!(page.free_list.len(), 2);
    assert_eq!(page.free_list[0].ptr, 4096);
    assert_eq!(page.free_list[0].size, 32);
    assert_eq!(page.free_list[1].ptr, 4200);
}

#[test]
fn address_space_runs_out() {
    let mut mm = MemoryManager::new();
    let half: usize = 1 << 47;
    assert_eq!(mm.malloc(half), Some(4096));
    // a second half does not fit below the address limit
    assert_eq!(mm.malloc(half), None);
    assert_eq!(mm.pages.len(), 1);
    // smaller requests still do
    assert_eq!(mm.malloc(4096), Some(4096 + (1u64 << 47)));
    assert_eq!(mm.malloc((1usize << 48) + 1), None);
}

#[test]
fn many_allocations_and_frees() {
    let mut mm = MemoryManager::new();
    let mut ptrs: Vec<u64> = Vec::new();
    for _ in 0..256 {
        ptrs.push(mm.malloc(16).unwrap());
    }
    // 256 * 16 bytes fill one page
    assert_eq!(mm.pages.len(), 1);
    assert_eq!(mm.pages[0].used_size, 4096);
    for i in 0..128 {
        let at = (i * 31) % ptrs.len();
        let p = ptrs[at];
        mm.free(p, 16);
        ptrs.remove(at);
    }
    assert_eq!(mm.pages[0].used_size, 2048);
    for _ in 0..128 {
        ptrs.push(mm.malloc(16).unwrap());
    }
    assert_eq!(mm.pages.len(), 1);
    assert_eq!(mm.pages[0].used_size, 4096);
    let mut sorted = ptrs.clone();
    sorted.sort();
    sorted.dedup();
    assert_eq!(sorted.len(), 256);
    for p in ptrs.iter() {
        mm.free(*p, 16);
    }
    assert_eq!(mm.pages[0].used_size, 0);
    assert_eq!(mm.pages[0].free_list.len(), 1);
    assert_eq!(mm.malloc(4096), Some(4096));
}
