//! The rotation engine: the stateful coordinator that owns the registry of
//! watched paths and their open descriptors, one ring policy shared by every
//! watched file, and the size-check → rotate decision.
//!
//! The engine decides; the caller acts.  On each change notification the
//! caller looks the path up ([`LogState::is_registered`]), opens and maps the
//! file on first sight ([`LogState::register`]), reads the file's current
//! size, enumerates which backups exist, and asks [`LogState::handle_plan`]
//! what to do.  A `None` answer means the size is within the threshold and
//! nothing at all is to be done; a plan is executed as
//! [`crate::model::rotation_run`] describes.

use vstd::prelude::*;
use crate::ring::OldLogState;
use crate::ring::ShiftPlan;
use crate::ring::chunk_count;
use crate::ring::plan_matches;
use crate::ring::valid_ring_listing;

verus! {

/// Default number of backup slots per watched file.
pub const DEFAULT_NUM_OLD_LOGS: usize = 5;

/// Default chunk size in bytes, one page.
pub const DEFAULT_LOG_SIZE: usize = 4096;

/// Chunk sizes must be a multiple of this, or hole-punching on the live file
/// cannot succeed.
pub const LOG_SIZE_STEP: usize = 4096;

/// Rounds a requested chunk size up to the next multiple of
/// [`LOG_SIZE_STEP`]; a size that is already a multiple is kept.
pub fn normalize_log_size(size: usize) -> (r: usize)
    requires
        1 <= size <= usize::MAX - 4096,
    ensures
        r % 4096 == 0,
        size <= r < size + 4096,
{
    if size % 4096 != 0 {
        size - size % 4096 + 4096
    } else {
        size
    }
}

/// How rotation is performed for a watched input.
#[derive(Clone, Copy, Debug, PartialEq, Eq, Structural)]
pub enum RotationMode {
    /// Truncate the watched file in place, preserving overflow in the ring.
    InPlace,
    /// Rotation of piped / streamed input: a recognized mode with
    /// deliberately no behavior.
    Piped,
    /// Rotation delegated to an external log manager: a recognized mode with
    /// deliberately no behavior.
    Managed,
}

impl RotationMode {
    /// True for the modes that are declared but intentionally unimplemented:
    /// handling an event in such a mode does nothing at all.
    pub fn is_no_op(&self) -> (r: bool)
        ensures
            r == !(self is InPlace),
    {
        match self {
            RotationMode::InPlace => false,
            RotationMode::Piped => true,
            RotationMode::Managed => true,
        }
    }
}

/// The registry a sequence of path/descriptor entries denotes: later entries
/// would win, though the engine never keeps two entries for one path.
pub open spec fn registry_of(entries: Seq<(String, i32)>) -> Map<Seq<char>, int>
    decreases entries.len(),
{
    if entries.len() == 0 {
        Map::empty()
    } else {
        registry_of(entries.drop_last()).insert(entries.last().0@, entries.last().1 as int)
    }
}

proof fn lemma_registry_contains(entries: Seq<(String, i32)>, p: Seq<char>)
    ensures
        registry_of(entries).dom().contains(p) <==> exists|i: int|
            0 <= i < entries.len() && (#[trigger] entries[i]).0@ == p,
    decreases entries.len(),
{
    if entries.len() > 0 {
        let prefix = entries.drop_last();
        lemma_registry_contains(prefix, p);
        if registry_of(entries).dom().contains(p) {
            if entries.last().0@ == p {
                assert((entries[entries.len() - 1]).0@ == p);
            } else {
                let i = choose|i: int| 0 <= i < prefix.len() && (#[trigger] prefix[i]).0@ == p;
                assert((entries[i]).0@ == p);
            }
        }
        if exists|i: int| 0 <= i < entries.len() && (#[trigger] entries[i]).0@ == p {
            let i = choose|i: int| 0 <= i < entries.len() && (#[trigger] entries[i]).0@ == p;
            if i < entries.len() - 1 {
                assert((prefix[i]).0@ == p);
            }
        }
    }
}

proof fn lemma_registry_value(entries: Seq<(String, i32)>, i: int)
    requires
        0 <= i < entries.len(),
        forall|a: int, b: int|
            0 <= a < b < entries.len() ==> (#[trigger] entries[a]).0@ != (
            #[trigger] entries[b]).0@,
    ensures
        registry_of(entries).dom().contains(entries[i].0@),
        registry_of(entries)[entries[i].0@] == entries[i].1 as int,
    decreases entries.len(),
{
    let prefix = entries.drop_last();
    if i == entries.len() - 1 {
    } else {
        assert forall|a: int, b: int|
            0 <= a < b < prefix.len() implies (#[trigger] prefix[a]).0@ != (
        #[trigger] prefix[b]).0@ by {
            assert(prefix[a] == entries[a] && prefix[b] == entries[b]);
        }
        lemma_registry_value(prefix, i);
        assert((entries[i]).0@ != (entries[entries.len() - 1]).0@);
        assert(prefix[i] == entries[i]);
    }
}

/// The rotation engine for one process: the registry of watched paths with
/// their open descriptors, and the shared ring policy.
pub struct LogState {
    mmaps: Vec<(String, i32)>,
    old_logs: OldLogState,
    buf_size: usize,
}

impl LogState {
    /// The registry: which paths are open, and under which descriptor.
    pub closed spec fn registry(&self) -> Map<Seq<char>, int> {
        registry_of(self.mmaps@)
    }

    /// The ring capacity shared by every watched file.
    pub closed spec fn capacity(&self) -> usize {
        self.old_logs.capacity()
    }

    /// The chunk size: both the rotation threshold and the unit of eviction.
    pub closed spec fn buf_size(&self) -> usize {
        self.buf_size
    }

    /// The engine's invariant: a valid policy, and no path registered twice.
    pub closed spec fn wf(&self) -> bool {
        &&& self.old_logs.wf()
        &&& self.buf_size >= 1
        &&& forall|a: int, b: int|
            0 <= a < b < self.mmaps@.len() ==> (#[trigger] self.mmaps@[a]).0@ != (
            #[trigger] self.mmaps@[b]).0@
    }

    /// An engine preserving `old_log_num` backups per watched file, rotating
    /// in `buf_size`-byte chunks, with nothing watched yet.
    pub fn new(old_log_num: usize, buf_size: usize) -> (r: Self)
        requires
            1 <= old_log_num <= usize::MAX / 2,
            buf_size >= 1,
        ensures
            r.wf(),
            r.capacity() == old_log_num,
            r.buf_size() == buf_size,
            r.registry() == Map::<Seq<char>, int>::empty(),
    {
        LogState { old_logs: OldLogState::new(old_log_num), mmaps: Vec::new(), buf_size }
    }

    /// Whether a watched path already has an open descriptor and mapping.
    pub fn is_registered(&self, path: &str) -> (r: bool)
        requires
            self.wf(),
        ensures
            r == self.registry().dom().contains(path@),
    {
        let needle: String = path.to_owned();
        let mut i: usize = 0;
        while i < self.mmaps.len()
            invariant
                i <= self.mmaps@.len(),
                needle@ == path@,
                forall|t: int| 0 <= t < i ==> (#[trigger] self.mmaps@[t]).0@ != path@,
            decreases self.mmaps@.len() - i,
        {
            if self.mmaps[i].0 == needle {
                proof {
                    lemma_registry_contains(self.mmaps@, path@);
                }
                return true;
            }
            i += 1;
        }
        proof {
            lemma_registry_contains(self.mmaps@, path@);
            if self.registry().dom().contains(path@) {
                let t = choose|t: int|
                    0 <= t < self.mmaps@.len() && (#[trigger] self.mmaps@[t]).0@ == path@;
                assert(false);
            }
        }
        false
    }

    /// The open descriptor registered for a path, if any.
    pub fn fd_of(&self, path: &str) -> (r: Option<i32>)
        requires
            self.wf(),
        ensures
            match r {
                Some(fd) => self.registry().dom().contains(path@) && self.registry()[path@]
                    == fd as int,
                None => !self.registry().dom().contains(path@),
            },
    {
        let needle: String = path.to_owned();
        let mut i: usize = 0;
        while i < self.mmaps.len()
            invariant
                i <= self.mmaps@.len(),
                needle@ == path@,
                self.wf(),
                forall|t: int| 0 <= t < i ==> (#[trigger] self.mmaps@[t]).0@ != path@,
            decreases self.mmaps@.len() - i,
        {
            if self.mmaps[i].0 == needle {
                let fd = self.mmaps[i].1;
                proof {
                    lemma_registry_value(self.mmaps@, i as int);
                }
                return Some(fd);
            }
            i += 1;
        }
        proof {
            lemma_registry_contains(self.mmaps@, path@);
            if self.registry().dom().contains(path@) {
                let t = choose|t: int|
                    0 <= t < self.mmaps@.len() && (#[trigger] self.mmaps@[t]).0@ == path@;
                assert(false);
            }
        }
        None
    }

    /// Registers a newly opened path with its descriptor.  The caller opens
    /// the file read-write and maps its head before registering; a path is
    /// registered at most once.
    pub fn register(&mut self, path: &str, fd: i32)
        requires
            old(self).wf(),
            !old(self).registry().dom().contains(path@),
        ensures
            final(self).wf(),
            final(self).registry() == old(self).registry().insert(path@, fd as int),
            final(self).capacity() == old(self).capacity(),
            final(self).buf_size() == old(self).buf_size(),
    {
        let owned: String = path.to_owned();
        proof {
            lemma_registry_contains(self.mmaps@, path@);
        }
        self.mmaps.push((owned, fd));
        proof {
            assert(self.mmaps@.drop_last() =~= old(self).mmaps@);
            assert forall|a: int, b: int|
                0 <= a < b < self.mmaps@.len() implies (#[trigger] self.mmaps@[a]).0@ != (
            #[trigger] self.mmaps@[b]).0@ by {
                if b == self.mmaps@.len() - 1 {
                    assert(self.mmaps@[a] == old(self).mmaps@[a]);
                }
            }
        }
    }

    /// Tears the registry down, handing every path/descriptor pair back so
    /// that the caller can close each descriptor and release each mapping
    /// exactly once.  Afterwards nothing is registered.
    pub fn close_all(&mut self) -> (r: Vec<(String, i32)>)
        requires
            old(self).wf(),
        ensures
            final(self).wf(),
            final(self).registry() == Map::<Seq<char>, int>::empty(),
            registry_of(r@) == old(self).registry(),
            final(self).capacity() == old(self).capacity(),
            final(self).buf_size() == old(self).buf_size(),
    {
        let mut out: Vec<(String, i32)> = Vec::new();
        core::mem::swap(&mut self.mmaps, &mut out);
        out
    }

    /// Plans one rotation for a watched file, from the policy, the file's
    /// current size and the backup indices present on disk.
    pub fn logrotate(&self, current_size: u64, existing: &Vec<u64>) -> (r: ShiftPlan)
        requires
            self.wf(),
            valid_ring_listing(existing@, self.capacity()),
            chunk_count(current_size, self.buf_size()) <= usize::MAX as int,
        ensures
            plan_matches(r, existing@, current_size, self.buf_size(), self.capacity()),
    {
        self.old_logs.shift_logs(existing, current_size, self.buf_size)
    }

    /// The size-check → rotate decision for one change notification.  While
    /// the file's data is within one chunk nothing at all is to be done; past
    /// the threshold, the returned plan says how the ring is shifted and the
    /// file truncated.
    pub fn handle_plan(&self, current_size: u64, existing: &Vec<u64>) -> (r: Option<ShiftPlan>)
        requires
            self.wf(),
            valid_ring_listing(existing@, self.capacity()),
            chunk_count(current_size, self.buf_size()) <= usize::MAX as int,
        ensures
            (r is None) <==> current_size <= self.buf_size(),
            r matches Some(plan) ==> plan_matches(
                plan,
                existing@,
                current_size,
                self.buf_size(),
                self.capacity(),
            ),
    {
        if current_size > self.buf_size as u64 {
            Some(self.logrotate(current_size, existing))
        } else {
            None
        }
    }
}

} // verus!
