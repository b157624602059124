//! A model of one watched file's on-disk state — the live file's bytes and the
//! ring of backup files — and the laws that executing a [`crate::ring::ShiftPlan`]
//! obeys on it.
//!
//! The model mirrors the caller's execution order exactly: the deletions first,
//! then the renames first to last, then one extent collapse that drops the
//! discarded chunks from the live file's head, then the write/collapse loop
//! that moves one `buf_size`-byte head window at a time into a backup file.

use vstd::prelude::*;
use crate::ring::ShiftPlan;
use crate::ring::chunk_count;
use crate::ring::preserved_count;
use crate::ring::discarded_count;
use crate::ring::removal_count;
use crate::ring::valid_ring_listing;
use crate::ring::rename_pairs;
use crate::ring::plan_matches;
use crate::ring::lemma_listing_len;
use crate::ring::lemma_ascending_at_least_index;
use vstd::set_lib::set_int_range;
use vstd::arithmetic::div_mod::lemma_fundamental_div_mod;
use vstd::arithmetic::div_mod::lemma_mod_bound;

verus! {

/// The set of indices a listing names.
pub open spec fn listing_set(existing: Seq<u64>) -> Set<int> {
    Set::new(|k: int| exists|i: int| 0 <= i < existing.len() && existing[i] as int == k)
}

/// Deleting the named backup files, one at a time.
pub open spec fn ring_remove(ring: Map<int, Seq<u8>>, remove: Seq<u64>) -> Map<int, Seq<u8>>
    decreases remove.len(),
{
    if remove.len() == 0 {
        ring
    } else {
        ring_remove(ring.remove(remove[0] as int), remove.skip(1))
    }
}

/// Renaming backup files pair by pair, in order.  A rename whose source does
/// not exist is skipped, as the caller skips a failed rename.
pub open spec fn ring_rename(ring: Map<int, Seq<u8>>, pairs: Seq<(u64, u64)>) -> Map<
    int,
    Seq<u8>,
>
    decreases pairs.len(),
{
    if pairs.len() == 0 {
        ring
    } else {
        let from = pairs[0].0 as int;
        let to = pairs[0].1 as int;
        let next = if ring.dom().contains(from) {
            ring.remove(from).insert(to, ring[from])
        } else {
            ring
        };
        ring_rename(next, pairs.skip(1))
    }
}

/// Writing the given contents to consecutive backup indices from `start`.
pub open spec fn ring_write(ring: Map<int, Seq<u8>>, start: int, contents: Seq<Seq<u8>>) -> Map<
    int,
    Seq<u8>,
>
    decreases contents.len(),
{
    if contents.len() == 0 {
        ring
    } else {
        ring_write(ring.insert(start, contents[0]), start + 1, contents.skip(1))
    }
}

/// The `k`-th `buf_size`-byte window of the live file, counted from its head.
pub open spec fn chunk_window(live: Seq<u8>, buf_size: usize, k: int) -> Seq<u8> {
    live.subrange(buf_size as int * k, buf_size as int * (k + 1))
}

/// The write/collapse loop: `k` times, write the live file's head window to
/// the next backup index and collapse that window out of the file.
pub open spec fn strip_run(
    live: Seq<u8>,
    ring: Map<int, Seq<u8>>,
    buf_size: usize,
    idx: int,
    k: nat,
) -> (Seq<u8>, Map<int, Seq<u8>>)
    decreases k,
{
    if k == 0 {
        (live, ring)
    } else {
        strip_run(
            live.skip(buf_size as int),
            ring.insert(idx, live.take(buf_size as int)),
            buf_size,
            idx + 1,
            (k - 1) as nat,
        )
    }
}

/// The whole filesystem effect of executing a plan: deletions, renames, the
/// collapse of the discarded chunks, then the write/collapse loop for the
/// preserved ones.  Returns the live file's remaining bytes and the final
/// ring.
pub open spec fn rotation_run(
    live: Seq<u8>,
    ring: Map<int, Seq<u8>>,
    buf_size: usize,
    plan: ShiftPlan,
) -> (Seq<u8>, Map<int, Seq<u8>>) {
    let shifted = ring_rename(ring_remove(ring, plan.remove@), plan.renames@);
    let live1 = live.skip(buf_size as int * plan.discarded_chunks as int);
    strip_run(live1, shifted, buf_size, plan.start_index as int, plan.preserved_chunks as nat)
}

proof fn lemma_ring_remove_props(ring: Map<int, Seq<u8>>, remove: Seq<u64>)
    ensures
        ring_remove(ring, remove).dom() == ring.dom().difference(listing_set(remove)),
        forall|k: int| #[trigger] ring_remove(ring, remove).dom().contains(k) ==> ring_remove(
            ring,
            remove,
        )[k] == ring[k],
    decreases remove.len(),
{
    if remove.len() == 0 {
        assert(ring_remove(ring, remove).dom() =~= ring.dom().difference(listing_set(remove)));
    } else {
        let r0 = remove[0] as int;
        let rest = remove.skip(1);
        lemma_ring_remove_props(ring.remove(r0), rest);
        assert(listing_set(remove) =~= listing_set(rest).insert(r0)) by {
            assert forall|k: int| listing_set(remove).contains(k) implies listing_set(
                rest,
            ).insert(r0).contains(k) by {
                let i = choose|i: int| 0 <= i < remove.len() && remove[i] as int == k;
                if i != 0 {
                    assert(rest[i - 1] as int == k);
                }
            }
            assert forall|k: int| listing_set(rest).insert(r0).contains(k) implies listing_set(
                remove,
            ).contains(k) by {
                if k == r0 {
                    assert(remove[0] as int == k);
                } else {
                    let i = choose|i: int| 0 <= i < rest.len() && rest[i] as int == k;
                    assert(remove[i + 1] as int == k);
                }
            }
        }
        assert(ring_remove(ring, remove).dom() =~= ring.dom().difference(listing_set(remove)));
    }
}

proof fn lemma_ring_write_props(ring: Map<int, Seq<u8>>, start: int, contents: Seq<Seq<u8>>)
    ensures
        ring_write(ring, start, contents).dom() == ring.dom().union(
            set_int_range(start, start + contents.len()),
        ),
        forall|k: int| 0 <= k < contents.len() ==> ring_write(ring, start, contents)[start + k]
            == #[trigger] contents[k],
        forall|k: int|
            ring.dom().contains(k) && !(start <= k < start + contents.len())
                ==> #[trigger] ring_write(ring, start, contents)[k] == ring[k],
    decreases contents.len(),
{
    if contents.len() == 0 {
        assert(ring_write(ring, start, contents).dom() =~= ring.dom().union(
            set_int_range(start, start + contents.len()),
        ));
    } else {
        let ring1 = ring.insert(start, contents[0]);
        let rest = contents.skip(1);
        lemma_ring_write_props(ring1, start + 1, rest);
        assert(ring_write(ring, start, contents).dom() =~= ring.dom().union(
            set_int_range(start, start + contents.len()),
        ));
        assert forall|k: int| 0 <= k < contents.len() implies ring_write(
            ring,
            start,
            contents,
        )[start + k] == #[trigger] contents[k] by {
            if k == 0 {
                assert(ring1.dom().contains(start));
                assert(ring_write(ring1, start + 1, rest)[start] == ring1[start]);
            } else {
                assert(rest[k - 1] == contents[k]);
                assert(ring_write(ring1, start + 1, rest)[(start + 1) + (k - 1)] == rest[k - 1]);
            }
        }
    }
}

/// Renames in execution order that never miss their source and never target an
/// index that is still occupied.
pub open spec fn renames_clobber_free(ring: Map<int, Seq<u8>>, pairs: Seq<(u64, u64)>) -> bool
    decreases pairs.len(),
{
    if pairs.len() == 0 {
        true
    } else {
        let from = pairs[0].0 as int;
        let to = pairs[0].1 as int;
        &&& ring.dom().contains(from)
        &&& !ring.dom().contains(to)
        &&& renames_clobber_free(ring.remove(from).insert(to, ring[from]), pairs.skip(1))
    }
}

/// Survivor at position `m` of the listing already sits at its final index
/// `m - rm`, holding its original content.
spec fn settled_at(
    ring: Map<int, Seq<u8>>,
    orig: Map<int, Seq<u8>>,
    existing: Seq<u64>,
    rm: int,
    m: int,
) -> bool {
    &&& ring.dom().contains(m - rm)
    &&& ring[m - rm] == orig[existing[m] as int]
}

/// Survivor at position `m` of the listing still sits at its original index,
/// holding its original content.
spec fn unsettled_at(
    ring: Map<int, Seq<u8>>,
    orig: Map<int, Seq<u8>>,
    existing: Seq<u64>,
    m: int,
) -> bool {
    &&& ring.dom().contains(existing[m] as int)
    &&& ring[existing[m] as int] == orig[existing[m] as int]
}

/// The ring's shape while the survivors at positions `[rm, j)` of the listing
/// have already been compacted: they sit at their final indices `0 .. j - rm`
/// with their original contents, the survivors at positions `[j, len)` still
/// sit at their original indices, and nothing else exists.
spec fn rename_mid(
    ring: Map<int, Seq<u8>>,
    orig: Map<int, Seq<u8>>,
    existing: Seq<u64>,
    rm: int,
    j: int,
) -> bool {
    &&& forall|m: int| rm <= m < j ==> #[trigger] settled_at(ring, orig, existing, rm, m)
    &&& forall|m: int|
        j <= m < existing.len() ==> #[trigger] unsettled_at(ring, orig, existing, m)
    &&& forall|k: int| #[trigger] ring.dom().contains(k) ==> 0 <= k && (k < j - rm || exists|m: int|
            j <= m < existing.len() && (#[trigger] existing[m]) as int == k)
}

proof fn lemma_mid_dom(
    ring: Map<int, Seq<u8>>,
    orig: Map<int, Seq<u8>>,
    existing: Seq<u64>,
    rm: int,
    j: int,
    k: int,
) -> (m: int)
    requires
        0 <= rm <= j <= existing.len(),
        rename_mid(ring, orig, existing, rm, j),
        ring.dom().contains(k),
        !(k < j - rm),
    ensures
        j <= m < existing.len(),
        existing[m] as int == k,
{
    choose|m: int| j <= m < existing.len() && (#[trigger] existing[m]) as int == k
}

proof fn lemma_ring_rename_run(
    ring: Map<int, Seq<u8>>,
    orig: Map<int, Seq<u8>>,
    existing: Seq<u64>,
    rm: int,
    j: int,
)
    requires
        0 <= rm <= j <= existing.len(),
        existing.len() <= u64::MAX,
        forall|a: int, b: int| 0 <= a < b < existing.len() ==> existing[a] < existing[b],
        rename_mid(ring, orig, existing, rm, j),
    ensures
        rename_mid(
            ring_rename(ring, rename_pairs(existing, rm, j)),
            orig,
            existing,
            rm,
            existing.len() as int,
        ),
        renames_clobber_free(ring, rename_pairs(existing, rm, j)),
    decreases existing.len() - j,
{
    let n = existing.len() as int;
    if j < n {
        let from = existing[j] as int;
        let to = j - rm;
        lemma_ascending_at_least_index(existing, j);
        assert(unsettled_at(ring, orig, existing, j));
        let pairs = rename_pairs(existing, rm, j);
        if existing[j] == to as u64 {
            // already in place: nothing moves, the survivor is simply
            // reinterpreted as settled
            assert(rename_mid(ring, orig, existing, rm, j + 1)) by {
                assert forall|m: int| rm <= m < j + 1 implies #[trigger] settled_at(
                    ring,
                    orig,
                    existing,
                    rm,
                    m,
                ) by {
                    if m == j {
                        assert(existing[j] as int == j - rm);
                    }
                }
                assert forall|k: int| #[trigger] ring.dom().contains(k) implies 0 <= k && (k < j
                    + 1 - rm || exists|m: int|
                    j + 1 <= m < existing.len() && (#[trigger] existing[m]) as int == k) by {
                    if !(k < j - rm) {
                        let m = lemma_mid_dom(ring, orig, existing, rm, j, k);
                        if m > j {
                            assert(j + 1 <= m < existing.len() && existing[m] as int == k);
                        } else {
                            assert(k == existing[j] as int == j - rm);
                        }
                    }
                }
            }
            lemma_ring_rename_run(ring, orig, existing, rm, j + 1);
        } else {
            assert(from > to);
            assert(ring.dom().contains(from));
            // the target index is free: survivors settled so far sit below it,
            // unsettled ones sit above it
            assert(!ring.dom().contains(to)) by {
                if ring.dom().contains(to) {
                    let m = lemma_mid_dom(ring, orig, existing, rm, j, to);
                    lemma_ascending_at_least_index(existing, m);
                    assert(existing[m] as int >= m && m >= j && j >= to);
                }
            }
            let next = ring.remove(from).insert(to, ring[from]);
            assert(pairs.skip(1) =~= rename_pairs(existing, rm, j + 1));
            assert(rename_mid(next, orig, existing, rm, j + 1)) by {
                assert forall|m: int| rm <= m < j + 1 implies #[trigger] settled_at(
                    next,
                    orig,
                    existing,
                    rm,
                    m,
                ) by {
                    if m < j {
                        assert(settled_at(ring, orig, existing, rm, m));
                        assert(m - rm < to && m - rm < from);
                    } else {
                        assert(next[to] == ring[from]);
                        assert(ring[from] == orig[existing[j] as int]);
                    }
                }
                assert forall|m: int| j + 1 <= m < existing.len() implies #[trigger] unsettled_at(
                    next,
                    orig,
                    existing,
                    m,
                ) by {
                    assert(unsettled_at(ring, orig, existing, m));
                    lemma_ascending_at_least_index(existing, m);
                    assert(existing[j] < existing[m]);
                    assert(existing[m] as int >= m > j >= to);
                }
                assert forall|k: int| #[trigger] next.dom().contains(k) implies 0 <= k && (k < j
                    + 1 - rm || exists|m: int|
                    j + 1 <= m < existing.len() && (#[trigger] existing[m]) as int == k) by {
                    if k != to {
                        assert(ring.dom().contains(k));
                        if !(k < j - rm) {
                            let m = lemma_mid_dom(ring, orig, existing, rm, j, k);
                            assert(m != j);
                            assert(j + 1 <= m < existing.len() && existing[m] as int == k);
                        }
                    }
                }
            }
            lemma_ring_rename_run(next, orig, existing, rm, j + 1);
            assert(ring_rename(ring, pairs) == ring_rename(
                next,
                rename_pairs(existing, rm, j + 1),
            ));
        }
    }
}

proof fn lemma_strip_run_props(
    live: Seq<u8>,
    ring: Map<int, Seq<u8>>,
    buf_size: usize,
    idx: int,
    k: nat,
)
    requires
        buf_size >= 1,
        live.len() >= buf_size as int * k,
    ensures
        strip_run(live, ring, buf_size, idx, k).0 == live.skip(buf_size as int * k),
        strip_run(live, ring, buf_size, idx, k).1 == ring_write(
            ring,
            idx,
            Seq::new(k, |m: int| chunk_window(live, buf_size, m)),
        ),
    decreases k,
{
    let b = buf_size as int;
    let windows = Seq::new(k, |m: int| chunk_window(live, buf_size, m));
    if k == 0 {
        assert(b * k == 0) by (nonlinear_arith)
            requires
                k == 0,
        ;
        assert(live.skip(0) =~= live);
    } else {
        assert(b * k == b + b * (k - 1)) by (nonlinear_arith);
        let live1 = live.skip(b);
        let ring1 = ring.insert(idx, live.take(b));
        lemma_strip_run_props(live1, ring1, buf_size, idx + 1, (k - 1) as nat);
        assert(strip_run(live, ring, buf_size, idx, k) == strip_run(
            live1,
            ring1,
            buf_size,
            idx + 1,
            (k - 1) as nat,
        ));
        // the remaining live bytes agree
        assert(live1.skip(b * ((k - 1) as nat)) =~= live.skip(b * k));
        // the window sequences agree
        let windows1 = Seq::new((k - 1) as nat, |m: int| chunk_window(live1, buf_size, m));
        assert forall|m: int| 0 <= m < k - 1 implies windows1[m] == windows.skip(1)[m] by {
            assert(b * (m + 1) == b * m + b && b * (m + 2) == b * (m + 1) + b)
                by (nonlinear_arith);
            assert(b * (m + 2) <= b * k) by (nonlinear_arith)
                requires
                    1 <= b,
                    m + 2 <= k,
            ;
            assert(chunk_window(live1, buf_size, m) =~= chunk_window(live, buf_size, m + 1));
        }
        assert(windows1 =~= windows.skip(1));
        assert(windows[0] =~= live.take(b));
        assert(strip_run(live, ring, buf_size, idx, k).1 == ring_write(ring, idx, windows));
    }
}

/// The master theorem about one rotation: executing the plan that
/// [`crate::ring::OldLogState::shift_logs`] computes, on the ring it was
/// computed from, deletes only backups that are verified present, never lets
/// a rename miss its source or clobber an occupied index, leaves the ring
/// compact and contiguous from index 0 — survivors first, in age order and
/// with their contents intact, the newly preserved chunks above them — and
/// leaves the live file holding exactly the bytes beyond the evicted chunks.
pub proof fn lemma_rotation_effects(
    live: Seq<u8>,
    ring: Map<int, Seq<u8>>,
    existing: Seq<u64>,
    plan: ShiftPlan,
    file_size: u64,
    buf_size: usize,
    capacity: usize,
)
    requires
        buf_size >= 1,
        valid_ring_listing(existing, capacity),
        ring.dom() == listing_set(existing),
        plan_matches(plan, existing, file_size, buf_size, capacity),
        live.len() == file_size,
    ensures
        rotation_run(live, ring, buf_size, plan).0 == live.skip(
            buf_size as int * (plan.discarded_chunks + plan.preserved_chunks),
        ),
        rotation_run(live, ring, buf_size, plan).1.dom() == set_int_range(
            0,
            plan.start_index as int + plan.preserved_chunks as int,
        ),
        forall|m: int|
            plan.remove@.len() <= m < existing.len() ==> rotation_run(live, ring, buf_size, plan).1[
                m - plan.remove@.len()
            ] == ring[(#[trigger] existing[m]) as int],
        forall|k: int|
            0 <= k < plan.preserved_chunks ==> #[trigger] rotation_run(live, ring, buf_size, plan).1[
                plan.start_index as int + k
            ] == chunk_window(live, buf_size, plan.discarded_chunks as int + k),
        forall|i: int|
            0 <= i < plan.remove@.len() ==> ring.dom().contains(
                (#[trigger] plan.remove@[i]) as int,
            ),
        renames_clobber_free(ring_remove(ring, plan.remove@), plan.renames@),
        // every preserved window is a full chunk of the live file's bytes:
        // before each preserved write the fixed-length head mapping is still
        // backed by at least one whole chunk
        forall|k: int|
            0 <= k < plan.preserved_chunks ==> (#[trigger] chunk_window(
                live,
                buf_size,
                plan.discarded_chunks as int + k,
            )).len() == buf_size,
{
    let b = buf_size as int;
    let n = existing.len() as int;
    let c = preserved_count(file_size, buf_size, capacity);
    let d = discarded_count(file_size, buf_size, capacity);
    let rm = removal_count(n, c, capacity as int);
    lemma_listing_len(existing, capacity);
    assert(plan.remove@ == existing.take(rm));
    assert(plan.remove@.len() == rm);
    assert forall|i: int|
        0 <= i < plan.remove@.len() implies ring.dom().contains(
        (#[trigger] plan.remove@[i]) as int,
    ) by {
        assert(plan.remove@[i] == existing[i]);
        assert(listing_set(existing).contains(existing[i] as int));
    }

    // deletions leave exactly the surviving listing entries in place
    lemma_ring_remove_props(ring, plan.remove@);
    let ring1 = ring_remove(ring, plan.remove@);
    assert(rename_mid(ring1, ring, existing, rm, rm)) by {
        assert forall|m: int| rm <= m < n implies #[trigger] unsettled_at(
            ring1,
            ring,
            existing,
            m,
        ) by {
            let key = existing[m] as int;
            assert(listing_set(existing).contains(key));
            if listing_set(plan.remove@).contains(key) {
                let i = choose|i: int|
                    0 <= i < plan.remove@.len() && (#[trigger] plan.remove@[i]) as int == key;
                assert(plan.remove@[i] == existing[i]);
                assert(existing[i] < existing[m]);
                assert(false);
            }
            assert(ring1.dom().contains(key));
        }
        assert forall|k: int| #[trigger] ring1.dom().contains(k) implies 0 <= k && (k < rm - rm
            || exists|m: int|
            rm <= m < existing.len() && (#[trigger] existing[m]) as int == k) by {
            assert(ring.dom().contains(k));
            let i = choose|i: int|
                0 <= i < existing.len() && (#[trigger] existing[i]) as int == k;
            if i < rm {
                assert(plan.remove@[i] as int == k);
                assert(listing_set(plan.remove@).contains(k));
                assert(false);
            }
            assert(rm <= i < existing.len() && existing[i] as int == k);
        }
    }
    lemma_ring_rename_run(ring1, ring, existing, rm, rm);
    let shifted = ring_rename(ring1, plan.renames@);
    assert(shifted == ring_rename(ring1, rename_pairs(existing, rm, rm)));

    // the compacted ring occupies exactly the indices below `start_index`
    assert(shifted.dom() =~= set_int_range(0, n - rm)) by {
        assert forall|k: int| #[trigger] shifted.dom().contains(k) implies 0 <= k && k < n
            - rm by {
            if !(k < n - rm) {
                let m = lemma_mid_dom(shifted, ring, existing, rm, n, k);
                assert(false);
            }
        }
        assert forall|k: int| 0 <= k < n - rm implies shifted.dom().contains(k) by {
            assert(settled_at(shifted, ring, existing, rm, k + rm));
        }
    }

    // the evicted chunks all fit inside the live file
    lemma_fundamental_div_mod(file_size as int, b);
    lemma_mod_bound(file_size as int, b);
    assert(d + c == chunk_count(file_size, buf_size));
    assert(b * chunk_count(file_size, buf_size) <= file_size as int);
    assert(b * (d + c) == b * d + b * c) by (nonlinear_arith);
    assert(b * d >= 0 && b * c >= 0) by (nonlinear_arith)
        requires
            b >= 1,
            d >= 0,
            c >= 0,
    ;
    let live1 = live.skip(b * d);
    assert(live1.len() >= b * c);
    lemma_strip_run_props(live1, shifted, buf_size, n - rm, c as nat);
    let windows1 = Seq::new(c as nat, |m: int| chunk_window(live1, buf_size, m));
    lemma_ring_write_props(shifted, n - rm, windows1);
    let final_ring = rotation_run(live, ring, buf_size, plan).1;
    assert(final_ring == ring_write(shifted, n - rm, windows1));
    assert(final_ring.dom() =~= set_int_range(0, n - rm + c));

    // the live file keeps exactly the bytes beyond the evicted chunks
    assert(live1.skip(b * (c as nat)) =~= live.skip(b * (d + c)));

    // each preserved chunk lands at its planned index, byte for byte
    assert forall|k: int|
        0 <= k < plan.preserved_chunks implies #[trigger] final_ring[plan.start_index as int + k]
        == chunk_window(live, buf_size, plan.discarded_chunks as int + k) by {
        assert(final_ring[(n - rm) + k] == windows1[k]);
        assert(b * (k + 1) <= b * c) by (nonlinear_arith)
            requires
                b >= 1,
                k + 1 <= c,
        ;
        assert(b * (d + k) == b * d + b * k && b * (d + k + 1) == b * d + b * (k + 1)
            && b * (k + 1) == b * k + b) by (nonlinear_arith);
        assert(chunk_window(live1, buf_size, k) =~= chunk_window(live, buf_size, d + k));
    }

    assert forall|k: int|
        0 <= k < plan.preserved_chunks implies (#[trigger] chunk_window(
        live,
        buf_size,
        plan.discarded_chunks as int + k,
    )).len() == buf_size by {
        assert(b * (d + k + 1) <= b * (d + c) && b * (d + k) >= 0 && b * (d + k + 1) == b * (d
            + k) + b) by (nonlinear_arith)
            requires
                b >= 1,
                k + 1 <= c,
                d >= 0,
                0 <= k,
        ;
    }

    // the survivors keep their contents, renumbered from index 0
    assert forall|m: int|
        plan.remove@.len() <= m < existing.len() implies final_ring[m - plan.remove@.len()]
        == ring[(#[trigger] existing[m]) as int] by {
        assert(settled_at(shifted, ring, existing, rm, m));
        assert(shifted.dom().contains(m - rm));
        assert(!(n - rm <= m - rm < n - rm + c));
        assert(final_ring[m - rm] == shifted[m - rm]);
    }
}

/// Law: rotating a full ring removes exactly as many backups as chunks are
/// evicted — the oldest ones — and the remaining `capacity - chunks` backups
/// survive, renumbered contiguously from index 0 with their contents and
/// relative age order intact, leaving the ring full again.
pub proof fn lemma_full_ring_rotation(
    live: Seq<u8>,
    ring: Map<int, Seq<u8>>,
    existing: Seq<u64>,
    plan: ShiftPlan,
    file_size: u64,
    buf_size: usize,
    capacity: usize,
)
    requires
        buf_size >= 1,
        valid_ring_listing(existing, capacity),
        ring.dom() == listing_set(existing),
        plan_matches(plan, existing, file_size, buf_size, capacity),
        live.len() == file_size,
        existing.len() == capacity,
        chunk_count(file_size, buf_size) <= capacity as int,
    ensures
        plan.remove@.len() == chunk_count(file_size, buf_size),
        plan.remove@ == existing.take(chunk_count(file_size, buf_size)),
        plan.discarded_chunks == 0,
        rotation_run(live, ring, buf_size, plan).1.dom() == set_int_range(0, capacity as int),
        forall|m: int|
            chunk_count(file_size, buf_size) <= m < capacity as int ==> rotation_run(
                live,
                ring,
                buf_size,
                plan,
            ).1[m - chunk_count(file_size, buf_size)] == ring[(#[trigger] existing[m]) as int],
{
    lemma_rotation_effects(live, ring, existing, plan, file_size, buf_size, capacity);
}

/// Law: when more chunks are evicted than the ring can hold, exactly the
/// overflow beyond `capacity` is discarded, exactly `capacity` backup files
/// exist afterwards, and every one of them holds one of the newest `capacity`
/// evicted chunks — none is older than `capacity` chunks ago.
pub proof fn lemma_overflow_rotation(
    live: Seq<u8>,
    ring: Map<int, Seq<u8>>,
    existing: Seq<u64>,
    plan: ShiftPlan,
    file_size: u64,
    buf_size: usize,
    capacity: usize,
)
    requires
        buf_size >= 1,
        valid_ring_listing(existing, capacity),
        ring.dom() == listing_set(existing),
        plan_matches(plan, existing, file_size, buf_size, capacity),
        live.len() == file_size,
        chunk_count(file_size, buf_size) > capacity as int,
    ensures
        plan.discarded_chunks as int == chunk_count(file_size, buf_size) - capacity as int,
        plan.preserved_chunks == capacity,
        rotation_run(live, ring, buf_size, plan).1.dom() == set_int_range(0, capacity as int),
        forall|k: int|
            0 <= k < capacity as int ==> #[trigger] rotation_run(live, ring, buf_size, plan).1[k]
                == chunk_window(live, buf_size, plan.discarded_chunks as int + k),
{
    lemma_rotation_effects(live, ring, existing, plan, file_size, buf_size, capacity);
    lemma_listing_len(existing, capacity);
    assert(plan.start_index as int == 0);
    assert forall|k: int| 0 <= k < capacity as int implies #[trigger] rotation_run(
        live,
        ring,
        buf_size,
        plan,
    ).1[k] == chunk_window(live, buf_size, plan.discarded_chunks as int + k) by {
        assert(rotation_run(live, ring, buf_size, plan).1[plan.start_index as int + k]
            == chunk_window(live, buf_size, plan.discarded_chunks as int + k));
    }
}

/// Law: a rotation evicts every full chunk, so the live file ends up back
/// under the size threshold: exactly `file_size % buf_size` bytes remain.
pub proof fn lemma_rotation_restores_threshold(
    live: Seq<u8>,
    ring: Map<int, Seq<u8>>,
    existing: Seq<u64>,
    plan: ShiftPlan,
    file_size: u64,
    buf_size: usize,
    capacity: usize,
)
    requires
        buf_size >= 1,
        valid_ring_listing(existing, capacity),
        ring.dom() == listing_set(existing),
        plan_matches(plan, existing, file_size, buf_size, capacity),
        live.len() == file_size,
    ensures
        rotation_run(live, ring, buf_size, plan).0.len() == file_size as int % (buf_size as int),
        rotation_run(live, ring, buf_size, plan).0.len() < buf_size,
{
    let b = buf_size as int;
    lemma_rotation_effects(live, ring, existing, plan, file_size, buf_size, capacity);
    lemma_fundamental_div_mod(file_size as int, b);
    lemma_mod_bound(file_size as int, b);
    assert(plan.discarded_chunks + plan.preserved_chunks == file_size as int / b);
    assert(rotation_run(live, ring, buf_size, plan).0 == live.skip(
        b * (plan.discarded_chunks + plan.preserved_chunks),
    ));
}

/// Law (round trip): the content of a chunk that is preserved — not discarded
/// — is byte-identical to the content found in the resulting backup file at
/// its new index.
pub proof fn lemma_preserved_chunk_round_trip(
    live: Seq<u8>,
    ring: Map<int, Seq<u8>>,
    existing: Seq<u64>,
    plan: ShiftPlan,
    file_size: u64,
    buf_size: usize,
    capacity: usize,
    k: int,
)
    requires
        buf_size >= 1,
        valid_ring_listing(existing, capacity),
        ring.dom() == listing_set(existing),
        plan_matches(plan, existing, file_size, buf_size, capacity),
        live.len() == file_size,
        0 <= k < plan.preserved_chunks,
    ensures
        rotation_run(live, ring, buf_size, plan).1[plan.start_index as int + k] == chunk_window(
            live,
            buf_size,
            plan.discarded_chunks as int + k,
        ),
{
    lemma_rotation_effects(live, ring, existing, plan, file_size, buf_size, capacity);
}

} // verus!

