use marksweep::gc::{AllocError, GcStats, Memory, ShowFlags, OBJECT_HEADER_SLOTS};

fn live(mem: &Memory) -> Vec<usize> {
    let mut walk = mem.live_objects();
    let mut found = Vec::new();
    while let Some(addr) = walk.next() {
        found.push(addr);
    }
    found
}

#[test]
fn new_heap_is_one_free_block() {
    let mem = Memory::initialze_memory(128);
    assert_eq!(mem.capacity(), 128);
    assert_eq!(mem.element_size(0), 127);
    assert_eq!(mem.free_list(), vec![(1, 126)]);
    assert_eq!(live(&mem), Vec::<usize>::new());
    assert_eq!(
        mem.stats(),
        GcStats {
            cycles: 0,
            allocations: 0,
            last_cycle_live_slots: 0,
            last_cycle_free_slots: 0,
            last_cycle_duration_ms: 0,
            lifetime_duration_ms: 0,
        }
    );
}

#[test]
fn odd_capacity_uses_every_slot_behind_slot_zero() {
    let mem = Memory::initialze_memory(129);
    assert_eq!(mem.free_list(), vec![(1, 128)]);
    assert_eq!(mem.heap_map().len(), 128);
}

#[test]
fn smallest_heap_holds_one_block_of_two_slots() {
    let mut mem = Memory::initialze_memory(3);
    assert_eq!(mem.free_list(), vec![(1, 2)]);
    assert_eq!(mem.allocate_object_nocompress(0), 0);
    assert_eq!(mem.allocate_object(0), Err(AllocError::OutOfMemory));
    assert_eq!(mem.free_list(), vec![(1, 2)]);
}

#[test]
fn allocate_returns_object_of_requested_size() {
    let mut mem = Memory::initialze_memory(128);
    let addr = mem.allocate_object(2).unwrap();
    assert_ne!(addr, 0);
    assert_eq!(addr, 123);
    // Two payload slots and the header make three; the block is rounded up to four.
    assert_eq!(mem.element_size(addr), 3);
    assert!(mem.element_size(addr) >= 2);
    assert_eq!(mem.free_list(), vec![(1, 122)]);
    assert_eq!(live(&mem), vec![123]);
}

#[test]
fn block_sizes_are_rounded_up_to_even() {
    let expected = [(0usize, 1usize), (1, 1), (2, 3), (3, 3), (4, 5), (5, 5), (8, 9)];
    for (request, payload) in expected {
        let mut mem = Memory::initialze_memory(64);
        let addr = mem.allocate_object(request).unwrap();
        assert_eq!(mem.element_size(addr), payload);
        assert_eq!(mem.element_size(addr) + OBJECT_HEADER_SLOTS, 62 - mem.free_list()[0].1);
    }
}

#[test]
fn objects_are_carved_from_the_high_end() {
    let mut mem = Memory::initialze_memory(32);
    let a = mem.allocate_object(3).unwrap();
    let b = mem.allocate_object(3).unwrap();
    let c = mem.allocate_object(5).unwrap();
    assert_eq!((a, b, c), (27, 23, 17));
    assert_eq!(mem.free_list(), vec![(1, 16)]);
    assert_eq!(live(&mem), vec![17, 23, 27]);
}

#[test]
fn new_objects_are_zero_filled() {
    let mut mem = Memory::initialze_memory(32);
    let a = mem.allocate_object(4).unwrap();
    mem.add_root(a);
    for i in 0..mem.element_size(a) {
        mem.at_put(a, i, a);
    }
    mem.remove_root(a);
    mem.gc();
    let b = mem.allocate_object(4).unwrap();
    assert_eq!(b, a);
    for i in 0..mem.element_size(b) {
        assert_eq!(mem.at(b, i), 0);
    }
}

#[test]
fn at_put_then_at_reads_the_value_back() {
    let mut mem = Memory::initialze_memory(64);
    let a = mem.allocate_object(3).unwrap();
    let b = mem.allocate_object(1).unwrap();
    mem.at_put(a, 0, b);
    mem.at_put(a, 2, a);
    assert_eq!(mem.at(a, 0), b);
    assert_eq!(mem.at(a, 1), 0);
    assert_eq!(mem.at(a, 2), a);
    assert_eq!(mem.at(b, 0), 0);
    assert_eq!(mem.element_size(a), 3);
    assert_eq!(mem.element_size(b), 1);
}

#[test]
fn a_block_of_exactly_the_needed_size_is_not_taken() {
    // One free block of six slots; five payload slots need six.
    let mut mem = Memory::initialze_memory(7);
    assert_eq!(mem.free_list(), vec![(1, 6)]);
    assert_eq!(mem.allocate_object_nocompress(5), 0);
    assert_eq!(mem.free_list(), vec![(1, 6)]);
    assert_eq!(mem.allocate_object(5), Err(AllocError::OutOfMemory));
    // Three payload slots need four, which leaves a block of two.
    assert_eq!(mem.allocate_object_nocompress(3), 3);
    assert_eq!(mem.free_list(), vec![(1, 2)]);
}

#[test]
fn failed_direct_allocation_changes_nothing() {
    let mut mem = Memory::initialze_memory(16);
    let a = mem.allocate_object_nocompress(8);
    assert_eq!(a, 5);
    let before = (mem.free_list(), live(&mem), mem.stats());
    assert_eq!(mem.allocate_object_nocompress(8), 0);
    assert_eq!((mem.free_list(), live(&mem), mem.stats()), before);
    assert_eq!(mem.stats().allocations, 0);
}

#[test]
fn oversized_requests_fail_without_overflow() {
    let mut mem = Memory::initialze_memory(16);
    assert_eq!(mem.allocate_object_nocompress(usize::MAX), 0);
    assert_eq!(mem.allocate_object_nocompress(usize::MAX - 1), 0);
    assert_eq!(mem.allocate_object_nocompress(15), 0);
    assert_eq!(mem.allocate_object(usize::MAX), Err(AllocError::OutOfMemory));
    assert_eq!(mem.free_list(), vec![(1, 14)]);
}

#[test]
fn unrooted_objects_are_reclaimed_by_collection() {
    let mut mem = Memory::initialze_memory(128);
    let a = mem.allocate_object(2).unwrap();
    let b = mem.allocate_object(7).unwrap();
    assert_eq!(live(&mem), vec![b, a]);
    mem.gc();
    assert_eq!(live(&mem).len(), 0);
    assert_eq!(mem.free_list(), vec![(1, 126)]);
    let stats = mem.stats();
    assert_eq!(stats.cycles, 1);
    assert_eq!(stats.last_cycle_live_slots, 0);
    assert_eq!(stats.last_cycle_free_slots, 126);
}

#[test]
fn a_rooted_cycle_survives_collection() {
    let mut mem = Memory::initialze_memory(128);
    let a = mem.allocate_object(1).unwrap();
    let b = mem.allocate_object(1).unwrap();
    let c = mem.allocate_object(1).unwrap();
    mem.at_put(a, 0, b);
    mem.at_put(b, 0, c);
    mem.at_put(c, 0, a);
    mem.add_root(a);
    mem.gc();
    assert_eq!(live(&mem), vec![c, b, a]);
    assert_eq!(mem.at(a, 0), b);
    assert_eq!(mem.at(b, 0), c);
    assert_eq!(mem.at(c, 0), a);
    assert_eq!(mem.stats().last_cycle_live_slots, 6);
    assert_eq!(mem.stats().last_cycle_free_slots, 120);
}

#[test]
fn an_unrooted_cycle_is_reclaimed() {
    let mut mem = Memory::initialze_memory(128);
    let a = mem.allocate_object(1).unwrap();
    let b = mem.allocate_object(1).unwrap();
    let c = mem.allocate_object(1).unwrap();
    mem.at_put(a, 0, b);
    mem.at_put(b, 0, c);
    mem.at_put(c, 0, a);
    mem.add_root(a);
    mem.gc();
    assert_eq!(live(&mem).len(), 3);
    mem.remove_root(a);
    mem.gc();
    assert_eq!(live(&mem).len(), 0);
    assert_eq!(mem.free_list(), vec![(1, 126)]);
}

#[test]
fn an_object_that_points_to_itself_is_traced_once() {
    let mut mem = Memory::initialze_memory(32);
    let a = mem.allocate_object(3).unwrap();
    mem.at_put(a, 0, a);
    mem.at_put(a, 1, a);
    mem.at_put(a, 2, a);
    mem.add_root(a);
    mem.add_root(a);
    mem.add_root(0);
    mem.gc();
    assert_eq!(live(&mem), vec![a]);
    assert_eq!(mem.stats().last_cycle_live_slots, 4);
}

#[test]
fn an_object_reached_on_two_ways_is_kept_once() {
    let mut mem = Memory::initialze_memory(64);
    let a = mem.allocate_object(2).unwrap();
    let b = mem.allocate_object(1).unwrap();
    let c = mem.allocate_object(1).unwrap();
    let d = mem.allocate_object(1).unwrap();
    let lost = mem.allocate_object(1).unwrap();
    mem.at_put(a, 0, b);
    mem.at_put(a, 1, c);
    mem.at_put(b, 0, d);
    mem.at_put(c, 0, d);
    mem.at_put(lost, 0, d);
    mem.add_root(a);
    mem.add_root(d);
    mem.gc();
    assert_eq!(live(&mem), vec![d, c, b, a]);
    assert_eq!(mem.stats().last_cycle_live_slots, 10);
    assert_eq!(mem.stats().last_cycle_free_slots, 52);
    assert_eq!(mem.at(b, 0), d);
    assert_eq!(mem.at(c, 0), d);
}

#[test]
fn what_only_garbage_refers_to_is_garbage() {
    let mut mem = Memory::initialze_memory(64);
    let kept = mem.allocate_object(1).unwrap();
    let held = mem.allocate_object(1).unwrap();
    let holder = mem.allocate_object(1).unwrap();
    mem.at_put(holder, 0, held);
    mem.add_root(kept);
    mem.gc();
    assert_eq!(live(&mem), vec![kept]);
    assert_eq!(mem.free_list(), vec![(1, 60)]);
}

#[test]
fn allocation_collects_when_the_free_list_is_exhausted() {
    let mut mem = Memory::initialze_memory(16);
    for round in 0..100usize {
        let addr = mem.allocate_object(8).unwrap();
        assert_eq!(addr, 5);
        assert_eq!(mem.stats().allocations, round + 1);
        assert_eq!(mem.stats().cycles, round);
    }
}

#[test]
fn allocation_fails_when_collection_frees_too_little() {
    let mut mem = Memory::initialze_memory(16);
    let kept = mem.allocate_object(8).unwrap();
    mem.add_root(kept);
    assert_eq!(mem.allocate_object(8), Err(AllocError::OutOfMemory));
    let stats = mem.stats();
    assert_eq!(stats.allocations, 2);
    assert_eq!(stats.cycles, 1);
    assert_eq!(stats.last_cycle_live_slots, 10);
    assert_eq!(stats.last_cycle_free_slots, 4);
    assert_eq!(live(&mem), vec![kept]);
    assert_eq!(mem.free_list(), vec![(1, 4)]);
    // A smaller object still fits.
    assert_eq!(mem.allocate_object(1), Ok(3));
}

#[test]
fn blocks_too_small_for_a_request_leave_the_free_list() {
    let mut mem = Memory::initialze_memory(64);
    let a = mem.allocate_object(39).unwrap();
    let b = mem.allocate_object(17).unwrap();
    assert_eq!((a, b), (23, 5));
    mem.add_root(b);
    mem.gc();
    assert_eq!(mem.free_list(), vec![(1, 4), (23, 40)]);
    // Five payload slots need six: the first block is passed over and dropped.
    let c = mem.allocate_object_nocompress(5);
    assert_eq!(c, 57);
    assert_eq!(mem.free_list(), vec![(23, 34)]);
    assert_eq!(live(&mem), vec![1, 5, 57]);
    assert_eq!(mem.element_size(1), 3);
    // The next collection takes the dropped block back.
    mem.gc();
    assert_eq!(mem.free_list(), vec![(1, 4), (23, 40)]);
    assert_eq!(live(&mem), vec![5]);
}

#[test]
fn neighbouring_free_blocks_are_merged() {
    let mut mem = Memory::initialze_memory(64);
    let a = mem.allocate_object(3).unwrap();
    let b = mem.allocate_object(3).unwrap();
    let c = mem.allocate_object(3).unwrap();
    let d = mem.allocate_object(3).unwrap();
    let e = mem.allocate_object(3).unwrap();
    assert_eq!((a, b, c, d, e), (59, 55, 51, 47, 43));
    mem.add_root(a);
    mem.add_root(d);
    mem.gc();
    // e merges into the block before it; b and c merge into one block.
    assert_eq!(mem.free_list(), vec![(1, 46), (51, 8)]);
    assert_eq!(live(&mem), vec![d, a]);
    let list = mem.free_list();
    for pair in list.windows(2) {
        assert!(pair[0].0 + pair[0].1 < pair[1].0);
    }
}

#[test]
fn live_and_free_slots_fill_the_heap_after_a_sweep() {
    for capacity in [16usize, 17, 64, 129] {
        let mut mem = Memory::initialze_memory(capacity);
        let limit = if capacity % 2 == 0 { capacity - 1 } else { capacity };
        let a = mem.allocate_object(2).unwrap();
        let _b = mem.allocate_object(1).unwrap();
        let c = mem.allocate_object(3).unwrap();
        mem.at_put(a, 0, c);
        mem.add_root(a);
        mem.gc();
        let stats = mem.stats();
        assert_eq!(stats.last_cycle_live_slots, 8);
        assert_eq!(stats.last_cycle_live_slots + stats.last_cycle_free_slots, limit - 1);
    }
}

#[test]
fn blocks_tile_the_heap_without_gap_or_overlap() {
    let mut mem = Memory::initialze_memory(64);
    let a = mem.allocate_object(39).unwrap();
    let b = mem.allocate_object(17).unwrap();
    mem.add_root(b);
    mem.gc();
    let _c = mem.allocate_object_nocompress(5);
    let _ = a;
    let mut blocks: Vec<(usize, usize)> = mem.free_list();
    for addr in live(&mem) {
        blocks.push((addr, mem.element_size(addr) + OBJECT_HEADER_SLOTS));
    }
    blocks.sort();
    let mut next = 1;
    for (addr, size) in blocks {
        assert_eq!(addr, next);
        assert!(size >= 2 && size % 2 == 0);
        next = addr + size;
    }
    assert_eq!(next, 63);
}

#[test]
fn collecting_twice_gives_the_same_tallies() {
    let mut mem = Memory::initialze_memory(128);
    let a = mem.allocate_object(4).unwrap();
    let b = mem.allocate_object(2).unwrap();
    let _c = mem.allocate_object(6).unwrap();
    mem.at_put(a, 1, b);
    mem.add_root(a);
    mem.gc();
    let first = mem.stats();
    let shape = (mem.free_list(), live(&mem));
    mem.gc();
    let second = mem.stats();
    assert_eq!(first.last_cycle_live_slots, 10);
    assert_eq!(second.last_cycle_live_slots, first.last_cycle_live_slots);
    assert_eq!(second.last_cycle_free_slots, first.last_cycle_free_slots);
    assert_eq!(second.cycles, 2);
    assert_eq!((mem.free_list(), live(&mem)), shape);
}

#[test]
fn removing_every_root_leaves_nothing_live() {
    let mut mem = Memory::initialze_memory(128);
    let mut kept = Vec::new();
    for n in 0..6usize {
        let addr = mem.allocate_object(n).unwrap();
        mem.add_root(addr);
        kept.push(addr);
    }
    mem.gc();
    assert_eq!(live(&mem).len(), 6);
    for addr in kept {
        mem.remove_root(addr);
    }
    mem.gc();
    assert_eq!(live(&mem).len(), 0);
    assert_eq!(mem.stats().last_cycle_live_slots, 0);
    assert_eq!(mem.stats().last_cycle_free_slots, 126);
}

#[test]
fn remove_root_takes_out_the_first_occurrence_only() {
    let mut mem = Memory::initialze_memory(32);
    let a = mem.allocate_object(1).unwrap();
    mem.add_root(a);
    mem.add_root(a);
    mem.remove_root(a);
    mem.gc();
    assert_eq!(live(&mem), vec![a]);
    mem.remove_root(a);
    mem.gc();
    assert_eq!(live(&mem).len(), 0);
}

#[test]
fn remove_root_of_an_absent_address_changes_nothing() {
    let mut mem = Memory::initialze_memory(32);
    let a = mem.allocate_object(1).unwrap();
    mem.add_root(a);
    mem.remove_root(a + 2);
    mem.remove_root(0);
    mem.gc();
    assert_eq!(live(&mem), vec![a]);
}

#[test]
fn a_long_chain_is_traced_to_its_end() {
    let mut mem = Memory::initialze_memory(4096);
    let head = mem.allocate_object(1).unwrap();
    mem.add_root(head);
    let mut last = head;
    for _ in 0..1000 {
        let next = mem.allocate_object(1).unwrap();
        mem.at_put(last, 0, next);
        last = next;
    }
    mem.gc();
    assert_eq!(live(&mem).len(), 1001);
    assert_eq!(mem.stats().last_cycle_live_slots, 2002);
    assert_eq!(mem.stats().last_cycle_free_slots, 4094 - 2002);
}

#[test]
fn heap_map_marks_each_slot() {
    let mut mem = Memory::initialze_memory(16);
    let a = mem.allocate_object(3).unwrap();
    let b = mem.allocate_object(1).unwrap();
    assert_eq!((a, b), (11, 9));
    let map: String = mem.heap_map().into_iter().collect();
    assert_eq!(map, "xxxxxxxx......");
    mem.add_root(a);
    mem.gc();
    let map: String = mem.heap_map().into_iter().collect();
    assert_eq!(map, "xxxxxxxxxx....");
}

#[test]
fn the_walk_stays_at_its_end() {
    let mut mem = Memory::initialze_memory(16);
    let a = mem.allocate_object(1).unwrap();
    let mut walk = mem.live_objects();
    assert_eq!(walk.next(), Some(a));
    assert_eq!(walk.next(), None);
    assert_eq!(walk.next(), None);
    let mut again = mem.live_objects();
    assert_eq!(again.next(), Some(a));
}

#[test]
fn counters_follow_allocations_and_cycles() {
    let mut mem = Memory::initialze_memory(64);
    let _ = mem.allocate_object(1);
    let _ = mem.allocate_object(1);
    mem.gc();
    mem.gc();
    mem.gc();
    let stats = mem.stats();
    assert_eq!(stats.allocations, 2);
    assert_eq!(stats.cycles, 3);
    assert!(stats.lifetime_duration_ms >= stats.last_cycle_duration_ms);
}

#[test]
fn recorded_durations_add_up_and_saturate() {
    let mut mem = Memory::initialze_memory(16);
    mem.record_gc_time(Some(7));
    mem.record_gc_time(Some(5));
    assert_eq!(mem.stats().last_cycle_duration_ms, 5);
    assert_eq!(mem.stats().lifetime_duration_ms, 12);
    mem.record_gc_time(None);
    assert_eq!(mem.stats().last_cycle_duration_ms, 5);
    assert_eq!(mem.stats().lifetime_duration_ms, 12);
    mem.record_gc_time(Some(u128::MAX));
    assert_eq!(mem.stats().last_cycle_duration_ms, u128::MAX);
    assert_eq!(mem.stats().lifetime_duration_ms, u128::MAX);
}

#[test]
fn diagnostics_are_switched_one_by_one() {
    let mut mem = Memory::initialze_memory(16);
    let off = ShowFlags { gc: false, allocates: false, heap_map: false, free_list: false };
    assert_eq!(mem.show_flags(), off);
    mem.enable_show_gc(true);
    assert_eq!(mem.show_flags(), ShowFlags { gc: true, ..off });
    mem.enable_show_allocates(true);
    mem.enable_show_heap_map(true);
    mem.enable_show_freelist(true);
    assert_eq!(
        mem.show_flags(),
        ShowFlags { gc: true, allocates: true, heap_map: true, free_list: true }
    );
    mem.enable_show_gc(false);
    mem.enable_show_heap_map(false);
    assert_eq!(
        mem.show_flags(),
        ShowFlags { gc: false, allocates: true, heap_map: false, free_list: true }
    );
}
