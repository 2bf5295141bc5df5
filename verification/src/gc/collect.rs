//! A full collection cycle, and allocation that falls back on it.

use super::{GcStats, Memory};
use crate::model::{is_sweep_of, no_adjacent_free, tiles};
use std::time::SystemTime;
use vstd::prelude::*;

verus! {

/// Why an allocation request failed.
#[derive(Clone, Copy, Debug, PartialEq, Eq)]
pub enum AllocError {
    /// No free block is large enough, even after a collection.
    OutOfMemory,
}

/// A counter one step on; it stays at the largest value once there.
pub open spec fn bumped(n: usize) -> usize {
    if n < usize::MAX {
        (n + 1) as usize
    } else {
        n
    }
}

/// The counters after a cycle was timed: a duration read from the clock
/// becomes the duration of the last cycle and is added to the lifetime
/// total, which stops at the largest value; without a reading nothing changes.
pub open spec fn with_duration(stats: GcStats, elapsed: Option<u128>) -> GcStats {
    match elapsed {
        Some(ms) => GcStats {
            last_cycle_duration_ms: ms,
            lifetime_duration_ms: if stats.lifetime_duration_ms + ms > u128::MAX {
                u128::MAX
            } else {
                (stats.lifetime_duration_ms + ms) as u128
            },
            ..stats
        },
        None => stats,
    }
}

/// `after` is `before` with the time of one cycle recorded, whatever the
/// clock said.
pub open spec fn clocked(before: GcStats, after: GcStats) -> bool {
    exists|elapsed: Option<u128>| after == #[trigger] with_duration(before, elapsed)
}

impl Memory {
    /// Records how long the last cycle took, if the clock could tell.
    pub fn record_gc_time(&mut self, elapsed: Option<u128>)
        requires
            old(self).wf(),
        ensures
            final(self).wf(),
            final(self)@ == old(self)@,
            final(self).flags_view() == old(self).flags_view(),
            final(self).stats_view() == with_duration(old(self).stats_view(), elapsed),
    {
        match elapsed {
            Some(ms) => {
                self.last_gc_ms = ms;
                self.total_gc_ms = self.total_gc_ms.saturating_add(ms);
            },
            None => {},
        }
    }

    /// Runs one collection cycle: marks what can be reached from the roots,
    /// then sweeps. The reachable objects stay as they are; everything else
    /// becomes free space, merged into maximal free blocks that make up the
    /// new free list.
    pub fn gc(&mut self)
        requires
            old(self).wf(),
        ensures
            final(self).wf(),
            final(self)@ == old(self)@.collected(),
            final(self).flags_view() == old(self).flags_view(),
            clocked(
                GcStats {
                    cycles: bumped(old(self).stats_view().cycles),
                    last_cycle_live_slots: final(self)@.live_slots() as usize,
                    last_cycle_free_slots: final(self)@.free_slots() as usize,
                    ..old(self).stats_view()
                },
                final(self).stats_view(),
            ),
            final(self).stats_view().last_cycle_live_slots == final(self)@.live_slots(),
            final(self).stats_view().last_cycle_free_slots == final(self)@.free_slots(),
            final(self).stats_view().last_cycle_live_slots + final(self).stats_view().last_cycle_free_slots
                == final(self)@.limit() - 1,
            tiles(final(self)@.blocks, 1, final(self)@.limit()),
            final(self).walk_from(1) == final(self)@.limit(),
            is_sweep_of(final(self)@.blocks, old(self)@.blocks, old(self)@.live_set()),
            no_adjacent_free(final(self)@.blocks),
    {
        let start = SystemTime::now();
        self.mark_roots();
        proof {
            self.lemma_marked_blocks();
        }
        self.sweep();
        self.gc_count = self.gc_count.saturating_add(1);
        let ghost counted = self.stats_view();
        let elapsed: Option<u128> = match start.elapsed() {
            Ok(duration) => Some(duration.as_millis()),
            Err(_) => None,
        };
        self.record_gc_time(elapsed);
        proof {
            assert(self.stats_view() == with_duration(counted, elapsed));
            self.lemma_walk_ends_at_limit();
        }
    }

    /// Allocates an object of `unrounded_size` payload slots, zero-filled,
    /// and returns its address. Where no free block is large enough, runs a
    /// collection and tries once more; fails if that does not help either.
    pub fn allocate_object(&mut self, unrounded_size: usize) -> (r: Result<usize, AllocError>)
        requires
            old(self).wf(),
        ensures
            final(self).wf(),
            final(self).flags_view() == old(self).flags_view(),
            r is Ok <==> old(self)@.served_from(unrounded_size as int).can_allocate(
                unrounded_size as int,
            ),
            r matches Ok(addr) ==> addr != 0 && addr == old(self)@.served_from(
                unrounded_size as int,
            ).allocated_addr(unrounded_size as int) && final(self)@ == old(self)@.served_from(
                unrounded_size as int,
            ).allocated(unrounded_size as int),
            r matches Err(e) ==> e == AllocError::OutOfMemory && final(self)@
                == old(self)@.collected(),
            final(self).stats_view().allocations == bumped(old(self).stats_view().allocations),
            old(self)@.can_allocate(unrounded_size as int) ==> final(self).stats_view()
                == (GcStats {
                allocations: bumped(old(self).stats_view().allocations),
                ..old(self).stats_view()
            }),
            !old(self)@.can_allocate(unrounded_size as int) ==> final(self).stats_view().last_cycle_live_slots
                == old(self)@.collected().live_slots()
                && final(self).stats_view().last_cycle_free_slots
                == old(self)@.collected().free_slots(),
            !old(self)@.can_allocate(unrounded_size as int) ==> clocked(
                GcStats {
                    allocations: bumped(old(self).stats_view().allocations),
                    cycles: bumped(old(self).stats_view().cycles),
                    last_cycle_live_slots: old(self)@.collected().live_slots() as usize,
                    last_cycle_free_slots: old(self)@.collected().free_slots() as usize,
                    ..old(self).stats_view()
                },
                final(self).stats_view(),
            ),
    {
        self.allocates = self.allocates.saturating_add(1);
        let mut result: usize = self.allocate_object_nocompress(unrounded_size);
        if result == 0 {
            self.gc();
            result = self.allocate_object_nocompress(unrounded_size);
            if result == 0 {
                return Err(AllocError::OutOfMemory);
            }
        }
        Ok(result)
    }
}

} // verus!
