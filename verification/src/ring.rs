//! The backup-ring shifting algorithm.
//!
//! For one watched file `F`, backups live at `F.0 .. F.(capacity-1)`.  Index 0
//! is the oldest surviving backup; newly evicted chunks are appended above the
//! survivors.  The ring's state is never cached: each rotation receives the
//! list of indices that currently exist on disk and plans from that alone.
//!
//! A rotation evicts `floor(file_size / buf_size)` chunks from the head of the
//! live file.  When the ring cannot hold them all, the overflow beyond
//! `capacity` is discarded outright and only the newest `capacity` chunks are
//! preserved.  To make room, the oldest (lowest-indexed) backups are deleted,
//! the survivors are renumbered into a contiguous run from index 0, and the
//! new chunks are written at the first free indices above them.

use vstd::prelude::*;

verus! {

/// How many full chunks of overflow the live file holds.
pub open spec fn chunk_count(file_size: u64, buf_size: usize) -> int {
    file_size as int / buf_size as int
}

/// How many of those chunks the ring preserves: all of them, clamped to its
/// capacity.
pub open spec fn preserved_count(file_size: u64, buf_size: usize, capacity: usize) -> int {
    if chunk_count(file_size, buf_size) > capacity as int {
        capacity as int
    } else {
        chunk_count(file_size, buf_size)
    }
}

/// How many chunks are dropped outright because the ring cannot hold them.
pub open spec fn discarded_count(file_size: u64, buf_size: usize, capacity: usize) -> int {
    if chunk_count(file_size, buf_size) > capacity as int {
        chunk_count(file_size, buf_size) - capacity as int
    } else {
        0
    }
}

/// How many existing backups must be deleted so that the survivors and the
/// `preserved` new chunks fit in `capacity` slots.  When the ring is full this
/// is exactly `preserved`; when there is room for everything it is zero.
pub open spec fn removal_count(n_existing: int, preserved: int, capacity: int) -> int {
    if n_existing + preserved > capacity {
        n_existing + preserved - capacity
    } else {
        0
    }
}

/// A well-formed enumeration of the backup indices present on disk: strictly
/// ascending, each within the ring's index range.  Gaps are allowed — a
/// partially populated ring, e.g. after a prior crash, is tolerated.
pub open spec fn valid_ring_listing(existing: Seq<u64>, capacity: usize) -> bool {
    &&& forall|i: int, j: int| 0 <= i < j < existing.len() ==> existing[i] < existing[j]
    &&& forall|i: int| 0 <= i < existing.len() ==> (existing[i] as int) < capacity as int
}

/// The renames that compact the survivors `existing[rm..]` into a contiguous
/// run from index 0, in execution order (lowest target first), skipping a
/// rename whose source and destination already coincide.
pub open spec fn rename_pairs(existing: Seq<u64>, rm: int, j: int) -> Seq<(u64, u64)>
    decreases existing.len() - j,
{
    if j < rm || j >= existing.len() {
        Seq::empty()
    } else {
        let rest = rename_pairs(existing, rm, j + 1);
        if existing[j] == (j - rm) as u64 {
            rest
        } else {
            seq![(existing[j], (j - rm) as u64)] + rest
        }
    }
}

/// The filesystem actions of one rotation, in execution order: delete the
/// backups in `remove`, apply `renames` first to last, then write the
/// `preserved_chunks` evicted chunks to indices `start_index`,
/// `start_index + 1`, ….  `discarded_chunks` chunks are collapsed out of the
/// live file's head first, without being preserved anywhere.
pub struct ShiftPlan {
    /// Backup indices to delete, ascending: the oldest survivors make room.
    pub remove: Vec<u64>,
    /// Renames `(from, to)` that renumber the survivors, safe in this order.
    pub renames: Vec<(u64, u64)>,
    /// First free index at which newly evicted chunks are written.
    pub start_index: u64,
    /// Chunks of overflow dropped outright for want of capacity.
    pub discarded_chunks: usize,
    /// Chunks of overflow written out to backup files.
    pub preserved_chunks: usize,
}

/// What a correct plan says, given the policy and the ring found on disk.
pub open spec fn plan_matches(
    plan: ShiftPlan,
    existing: Seq<u64>,
    file_size: u64,
    buf_size: usize,
    capacity: usize,
) -> bool {
    let c = preserved_count(file_size, buf_size, capacity);
    let rm = removal_count(existing.len() as int, c, capacity as int);
    &&& plan.preserved_chunks as int == c
    &&& plan.discarded_chunks as int == discarded_count(file_size, buf_size, capacity)
    &&& plan.remove@ == existing.take(rm)
    &&& plan.renames@ == rename_pairs(existing, rm, rm)
    &&& plan.start_index as int == existing.len() - rm
}

/// In a strictly ascending listing every index is at least its position.
pub proof fn lemma_ascending_at_least_index(existing: Seq<u64>, i: int)
    requires
        forall|a: int, b: int| 0 <= a < b < existing.len() ==> existing[a] < existing[b],
        0 <= i < existing.len(),
    ensures
        existing[i] as int >= i,
    decreases i,
{
    if i > 0 {
        lemma_ascending_at_least_index(existing, i - 1);
    }
}

/// A valid listing has every index at least its position, and therefore no
/// more entries than the ring has slots.
pub proof fn lemma_listing_len(existing: Seq<u64>, capacity: usize)
    requires
        valid_ring_listing(existing, capacity),
    ensures
        forall|i: int| 0 <= i < existing.len() ==> existing[i] as int >= i,
        existing.len() <= capacity as int,
{
    assert forall|i: int| 0 <= i < existing.len() implies existing[i] as int >= i by {
        lemma_ascending_at_least_index(existing, i);
    }
    if existing.len() > 0 {
        assert(existing[existing.len() - 1] as int >= existing.len() - 1);
    }
}

/// The ring-shifting policy: how many backup slots one watched file may use.
pub struct OldLogState {
    num_old_logs: usize,
}

impl OldLogState {
    /// The number of backup slots.
    pub closed spec fn capacity(&self) -> usize {
        self.num_old_logs
    }

    /// The policy invariant: at least one slot, and few enough that interim
    /// sums of slot counts cannot overflow.
    pub closed spec fn wf(&self) -> bool {
        1 <= self.num_old_logs <= usize::MAX / 2
    }

    /// A policy preserving `num_old_logs` backups per watched file.
    pub fn new(num_old_logs: usize) -> (r: Self)
        requires
            1 <= num_old_logs <= usize::MAX / 2,
        ensures
            r.capacity() == num_old_logs,
            r.wf(),
    {
        OldLogState { num_old_logs }
    }

    /// Plans one rotation: given the backup indices present on disk and the
    /// live file's size, decides how many chunks are evicted, how many of
    /// those are discarded for want of capacity, which backups to delete,
    /// how the survivors are renumbered, and where the new chunks go.
    pub fn shift_logs(&self, existing: &Vec<u64>, file_size: u64, buf_size: usize) -> (r: ShiftPlan)
        requires
            self.wf(),
            buf_size >= 1,
            valid_ring_listing(existing@, self.capacity()),
            chunk_count(file_size, buf_size) <= usize::MAX as int,
        ensures
            plan_matches(r, existing@, file_size, buf_size, self.capacity()),
    {
        let total: u64 = file_size / (buf_size as u64);
        let (preserved, discarded): (usize, usize) = if total > self.num_old_logs as u64 {
            (self.num_old_logs, (total - self.num_old_logs as u64) as usize)
        } else {
            (total as usize, 0)
        };
        let n = existing.len();
        proof {
            lemma_listing_len(existing@, self.num_old_logs);
        }
        let rm: usize = if n + preserved > self.num_old_logs {
            n + preserved - self.num_old_logs
        } else {
            0
        };

        let mut remove: Vec<u64> = Vec::new();
        let mut i: usize = 0;
        while i < rm
            invariant
                i <= rm,
                rm <= n,
                n == existing@.len(),
                remove@ == existing@.take(i as int),
            decreases rm - i,
        {
            remove.push(existing[i]);
            proof {
                assert(existing@.take(i as int + 1) =~= existing@.take(i as int).push(
                    existing@[i as int],
                ));
            }
            i += 1;
        }

        let ghost rm_int = rm as int;
        let mut renames: Vec<(u64, u64)> = Vec::new();
        let mut j: usize = rm;
        while j < n
            invariant
                rm <= j <= n,
                n == existing@.len(),
                rm_int == rm as int,
                renames@ + rename_pairs(existing@, rm_int, j as int) == rename_pairs(
                    existing@,
                    rm_int,
                    rm_int,
                ),
            decreases n - j,
        {
            let target: u64 = (j - rm) as u64;
            if existing[j] != target {
                proof {
                    assert(renames@.push((existing@[j as int], target)) + rename_pairs(
                        existing@,
                        rm_int,
                        j as int + 1,
                    ) =~= renames@ + rename_pairs(existing@, rm_int, j as int));
                }
                renames.push((existing[j], target));
            }
            j += 1;
        }
        proof {
            assert(renames@ + rename_pairs(existing@, rm_int, n as int) =~= renames@);
        }

        ShiftPlan {
            remove,
            renames,
            start_index: (n - rm) as u64,
            discarded_chunks: discarded,
            preserved_chunks: preserved,
        }
    }
}

} // verus!
