//! The archive locator: maps a global byte position (an offset within the
//! logical concatenation of all archive blobs in index order) to the blob
//! that holds it and the position relative to that blob's start.
//!
//! The owning blob is the one with the greatest cumulative start not beyond
//! the position; the lookup fails only when there is no blob at all.

use vstd::prelude::*;

verus! {

/// One hosted archive blob: its ordering index (parsed from the asset
/// name), its download URL, and its size in bytes.
#[derive(Debug, Clone)]
pub struct ArchiveInfo {
    pub index: u32,
    pub url: String,
    pub size: u64,
}

/// The cumulative size of the first `i` blobs: blob `i`'s start offset in
/// the logical concatenation.
pub open spec fn prefix_size(blobs: Seq<ArchiveInfo>, i: int) -> int
    decreases i,
{
    if i <= 0 {
        0
    } else {
        prefix_size(blobs, i - 1) + blobs[i - 1].size
    }
}

/// The index of the blob owning `pos`: the greatest `i` with
/// `prefix_size(blobs, i) <= pos`, or `-1` when there is no blob.
pub open spec fn located_index(blobs: Seq<ArchiveInfo>, pos: int) -> int
    decreases blobs.len(),
{
    if blobs.len() == 0 {
        -1
    } else if prefix_size(blobs, blobs.len() - 1) <= pos {
        blobs.len() - 1
    } else {
        located_index(blobs.drop_last(), pos)
    }
}

/// The first `i` blobs of a prefix of `blobs` cover the same bytes as the
/// first `i` blobs of `blobs` itself.
pub proof fn lemma_prefix_size_subrange(blobs: Seq<ArchiveInfo>, m: int, i: int)
    requires
        0 <= i <= m <= blobs.len(),
    ensures
        prefix_size(blobs.subrange(0, m), i) == prefix_size(blobs, i),
    decreases i,
{
    if i > 0 {
        lemma_prefix_size_subrange(blobs, m, i - 1);
    }
}

/// Cumulative sizes never decrease.
pub proof fn lemma_prefix_size_monotone(blobs: Seq<ArchiveInfo>, i: int, j: int)
    requires
        i <= j,
    ensures
        prefix_size(blobs, i) <= prefix_size(blobs, j),
    decreases j - i,
{
    if i < j {
        lemma_prefix_size_monotone(blobs, i, j - 1);
    }
}

/// With at least one blob and a nonnegative position, `located_index` is a
/// real index whose start is not beyond the position, and every later blob
/// starts beyond it.
pub proof fn lemma_located_index_props(blobs: Seq<ArchiveInfo>, pos: int)
    requires
        blobs.len() > 0,
        pos >= 0,
    ensures
        0 <= located_index(blobs, pos) < blobs.len(),
        prefix_size(blobs, located_index(blobs, pos)) <= pos,
        forall|j: int|
            located_index(blobs, pos) < j < blobs.len() ==> prefix_size(blobs, j) > pos,
    decreases blobs.len(),
{
    let li = located_index(blobs, pos);
    if prefix_size(blobs, blobs.len() - 1) <= pos {
    } else {
        if blobs.len() == 1 {
            // prefix_size(blobs, 0) == 0 <= pos, so this branch cannot happen.
            assert(false);
        } else {
            lemma_located_index_props(blobs.drop_last(), pos);
            let li0 = located_index(blobs.drop_last(), pos);
            assert forall|i: int| 0 <= i <= blobs.len() - 1 implies prefix_size(
                blobs.drop_last(),
                i,
            ) == prefix_size(blobs, i) by {
                assert(blobs.drop_last() =~= blobs.subrange(0, blobs.len() - 1));
                lemma_prefix_size_subrange(blobs, blobs.len() - 1, i);
            }
            assert(prefix_size(blobs, li0) <= pos);
            assert forall|j: int| li < j < blobs.len() implies prefix_size(blobs, j) > pos by {
                if j < blobs.len() - 1 {
                    assert(prefix_size(blobs.drop_last(), j) > pos);
                }
            }
        }
    }
}

/// Any index whose start is not beyond `pos`, with every later blob
/// starting beyond `pos`, is `located_index`.
pub proof fn lemma_located_index_unique(blobs: Seq<ArchiveInfo>, pos: int, i: int)
    requires
        0 <= i < blobs.len(),
        pos >= 0,
        prefix_size(blobs, i) <= pos,
        forall|j: int| i < j < blobs.len() ==> prefix_size(blobs, j) > pos,
    ensures
        located_index(blobs, pos) == i,
{
    lemma_located_index_props(blobs, pos);
    let li = located_index(blobs, pos);
    if li < i {
        assert(prefix_size(blobs, i) > pos);
    } else if li > i {
        assert(prefix_size(blobs, li) > pos);
    }
}

/// A global position exactly equal to a blob's cumulative start resolves
/// to that blob, not to the one before it. (A zero-sized blob that is not
/// the last would share its start with its successor and lose it to the
/// later blob, so it is left out.)
pub proof fn lemma_locator_boundary(blobs: Seq<ArchiveInfo>, k: int)
    requires
        0 <= k < blobs.len(),
        k == blobs.len() - 1 || blobs[k].size > 0,
    ensures
        located_index(blobs, prefix_size(blobs, k)) == k,
{
    let pos = prefix_size(blobs, k);
    lemma_prefix_size_monotone(blobs, 0, k);
    assert forall|j: int| k < j < blobs.len() implies prefix_size(blobs, j) > pos by {
        assert(prefix_size(blobs, k + 1) == pos + blobs[k].size);
        lemma_prefix_size_monotone(blobs, k + 1, j);
    }
    lemma_located_index_unique(blobs, pos, k);
}

/// Resolves a global byte position to `(blob index, offset within blob)`.
///
/// Returns `None` exactly when no blob covers the position: when there is
/// no blob at all, or when the position lies at or past the end of the
/// concatenation. Otherwise the owning blob is the one whose half-open
/// cumulative range `[start, end)` holds the position — a blob/manifest
/// mismatch the caller must treat as fatal, never as a lookup to retry.
pub fn locate(blobs: &Vec<ArchiveInfo>, position: u64) -> (r: Option<(usize, u64)>)
    requires
        prefix_size(blobs@, blobs@.len() as int) <= u64::MAX,
    ensures
        r is None <==> (blobs@.len() == 0 || position >= prefix_size(
            blobs@,
            blobs@.len() as int,
        )),
        match r {
            Some((i, off)) => {
                &&& i == located_index(blobs@, position as int)
                &&& 0 <= i < blobs@.len()
                &&& prefix_size(blobs@, i as int) <= position
                &&& position < prefix_size(blobs@, i as int + 1)
                &&& off == position - prefix_size(blobs@, i as int)
                &&& forall|j: int|
                    i < j < blobs@.len() ==> prefix_size(blobs@, j) > position
            },
            None => true,
        },
{
    let n = blobs.len();
    if n == 0 {
        return None;
    }
    let mut sum: u64 = 0;
    let mut best: usize = 0;
    let mut best_off: u64 = position;
    let mut i: usize = 0;
    while i < n
        invariant
            n == blobs@.len(),
            0 <= i <= n,
            prefix_size(blobs@, n as int) <= u64::MAX,
            sum == prefix_size(blobs@, i as int),
            i > 0 ==> {
                &&& best == located_index(blobs@.subrange(0, i as int), position as int)
                &&& 0 <= best < i
                &&& prefix_size(blobs@, best as int) <= position
                &&& best_off == position - prefix_size(blobs@, best as int)
            },
        decreases n - i,
    {
        proof {
            lemma_prefix_size_subrange(blobs@, i as int + 1, i as int);
            assert(blobs@.subrange(0, i as int + 1).drop_last() =~= blobs@.subrange(0, i as int));
            lemma_prefix_size_monotone(blobs@, i as int + 1, n as int);
        }
        if sum <= position {
            best = i;
            best_off = position - sum;
        } else {
            proof {
                // The new blob starts beyond the position, so the located
                // index of the extended prefix is unchanged.
                assert(located_index(blobs@.subrange(0, i as int + 1), position as int)
                    == located_index(blobs@.subrange(0, i as int), position as int));
            }
        }
        sum = sum + blobs[i].size;
        i += 1;
    }
    if position >= sum {
        // The position lies at or past the end of the last blob: no blob
        // covers it.
        return None;
    }
    proof {
        assert(blobs@.subrange(0, n as int) =~= blobs@);
        lemma_located_index_props(blobs@, position as int);
        if best as int + 1 < n as int {
            assert(prefix_size(blobs@, best as int + 1) > position);
        }
    }
    Some((best, best_off))
}

/// The blobs are ordered by their declared index.
pub open spec fn sorted_by_index(blobs: Seq<ArchiveInfo>) -> bool {
    forall|i: int, j: int| 0 <= i < j < blobs.len() ==> blobs[i].index <= blobs[j].index
}

/// Sorts the blobs by their declared index (selection sort), keeping
/// exactly the given blobs.
pub fn sort_blobs_by_index(blobs: &mut Vec<ArchiveInfo>)
    ensures
        sorted_by_index(final(blobs)@),
        final(blobs)@.to_multiset() == old(blobs)@.to_multiset(),
        final(blobs)@.len() == old(blobs)@.len(),
{
    broadcast use vstd::seq_lib::group_to_multiset_ensures;

    let mut rest: Vec<ArchiveInfo> = Vec::new();
    core::mem::swap(blobs, &mut rest);
    let ghost orig = rest@;
    let mut out: Vec<ArchiveInfo> = Vec::new();
    while rest.len() > 0
        invariant
            out@.to_multiset().add(rest@.to_multiset()) == orig.to_multiset(),
            sorted_by_index(out@),
            forall|i: int, j: int|
                0 <= i < out@.len() && 0 <= j < rest@.len() ==> out@[i].index <= rest@[j].index,
        decreases rest.len(),
    {
        // Find the position of a minimal remaining index.
        let mut m: usize = 0;
        let mut k: usize = 1;
        while k < rest.len()
            invariant
                0 <= m < rest@.len(),
                0 <= k <= rest@.len(),
                forall|t: int| 0 <= t < k ==> rest@[m as int].index <= rest@[t].index,
            decreases rest.len() - k,
        {
            if rest[k].index < rest[m].index {
                m = k;
            }
            k += 1;
        }
        let ghost rest0 = rest@;
        let x = rest.remove(m);
        proof {
            broadcast use vstd::multiset::group_multiset_axioms;

            let mi = m as int;
            vstd::seq_lib::to_multiset_remove(rest0, mi);
            vstd::seq_lib::to_multiset_contains(rest0, x);
            vstd::seq_lib::to_multiset_build(out@, x);
            assert(rest0.contains(x));
            assert(rest0.to_multiset().count(x) > 0);
            assert(out@.push(x).to_multiset() == out@.to_multiset().insert(x));
            assert(out@.push(x).to_multiset().add(rest@.to_multiset()) =~= out@.to_multiset().add(
                rest0.to_multiset(),
            ));
            assert forall|j: int| 0 <= j < rest@.len() implies x.index <= rest@[j].index by {
                // Every remaining blob sat at `j` or `j + 1` before removal.
                if j < m as int {
                    assert(rest@[j] == rest0[j]);
                } else {
                    assert(rest@[j] == rest0[j + 1]);
                }
            }
        }
        out.push(x);
    }
    proof {
        broadcast use vstd::multiset::group_multiset_axioms;

        assert forall|e: ArchiveInfo| out@.to_multiset().count(e) == orig.to_multiset().count(
            e,
        ) by {
            vstd::seq_lib::to_multiset_contains(rest@, e);
        }
        assert(out@.to_multiset() =~= orig.to_multiset());
        vstd::seq_lib::to_multiset_len(out@);
        vstd::seq_lib::to_multiset_len(orig);
    }
    core::mem::swap(blobs, &mut out);
}

} // verus!
