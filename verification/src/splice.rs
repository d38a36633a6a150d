//! The chunk splicer: routes an incoming body stream across the
//! destination boundaries of one optimized download, without buffering
//! the body.
//!
//! The splicer is a pure state machine over `(current destination index,
//! bytes written so far)`: each incoming chunk is turned into a list of
//! writes, one per destination it touches, and nothing is held back — the
//! caller performs the writes and feeds the next chunk.

use vstd::prelude::*;

verus! {

/// The splicer's state between chunks: the destination currently being
/// written and how many body bytes have been consumed.
#[derive(Debug, Clone, Copy, PartialEq, Eq, Structural)]
pub struct SpliceState {
    pub dest_index: usize,
    pub written: u64,
}

/// One write to perform: append `bytes` to the destination at
/// `dest_index`. A destination index appearing for the first time means
/// that file is opened (created) before the append.
#[derive(Debug, Clone)]
pub struct WriteOp {
    pub dest_index: usize,
    pub bytes: Vec<u8>,
}

/// The relative offsets at which each destination's bytes begin, as laid
/// out by the optimizer: starting at zero and nondecreasing.
pub open spec fn wf_offsets(offs: Seq<u64>) -> bool {
    &&& offs.len() >= 1
    &&& offs[0] == 0
    &&& forall|j: int, k: int| 0 <= j < k < offs.len() ==> offs[j] <= offs[k]
}

/// A legal state: some destination is current, the bytes consumed so far
/// have reached it, and the next boundary has not been passed.
pub open spec fn wf_state(offs: Seq<u64>, st: SpliceState) -> bool {
    &&& 0 <= st.dest_index < offs.len()
    &&& offs[st.dest_index as int] <= st.written
    &&& st.dest_index as int + 1 < offs.len() ==> st.written < offs[st.dest_index as int + 1]
}

/// The exclusive upper boundary of destination `j`'s byte window in the
/// whole body: the next destination's offset, or no bound for the last.
pub open spec fn window_end(offs: Seq<u64>, j: int, len: int) -> int {
    if j + 1 < offs.len() {
        if offs[j + 1] <= len {
            offs[j + 1] as int
        } else {
            len
        }
    } else {
        len
    }
}

/// The clamp of `x` into `[lo, hi]`.
pub open spec fn clamp(x: int, lo: int, hi: int) -> int {
    if x < lo {
        lo
    } else if x > hi {
        hi
    } else {
        x
    }
}

/// The slice of a chunk that belongs to destination `j`, when the chunk's
/// first byte sits at body offset `base`: the part of the chunk between
/// `j`'s boundaries.
pub open spec fn chunk_segment(offs: Seq<u64>, base: int, chunk: Seq<u8>, j: int) -> Seq<u8> {
    let lo = clamp(offs[j] - base, 0, chunk.len() as int);
    let hi = if j + 1 < offs.len() {
        clamp(offs[j + 1] - base, 0, chunk.len() as int)
    } else {
        chunk.len() as int
    };
    if lo <= hi {
        chunk.subrange(lo, hi)
    } else {
        Seq::empty()
    }
}

/// The greatest destination whose offset has been reached after `w`
/// bytes.
pub open spec fn dest_at(offs: Seq<u64>, w: int) -> int
    decreases offs.len(),
{
    if offs.len() <= 1 {
        0
    } else if offs[offs.len() - 1] <= w {
        offs.len() - 1
    } else {
        dest_at(offs.drop_last(), w)
    }
}

/// `dest_at` names a real destination, its offset is reached, and the
/// next one is not.
pub proof fn lemma_dest_at_props(offs: Seq<u64>, w: int)
    requires
        offs.len() >= 1,
        offs[0] == 0,
        w >= 0,
    ensures
        0 <= dest_at(offs, w) < offs.len(),
        offs[dest_at(offs, w)] <= w,
        dest_at(offs, w) + 1 < offs.len() ==> w < offs[dest_at(offs, w) + 1],
        forall|j: int| dest_at(offs, w) < j < offs.len() ==> offs[j] > w,
    decreases offs.len(),
{
    if offs.len() > 1 && offs[offs.len() - 1] > w {
        lemma_dest_at_props(offs.drop_last(), w);
        let d = dest_at(offs.drop_last(), w);
        assert forall|j: int| dest_at(offs, w) < j < offs.len() implies offs[j] > w by {
            if j < offs.len() - 1 {
                assert(offs.drop_last()[j] == offs[j]);
            }
        }
        if d + 1 < offs.len() - 1 {
            assert(offs.drop_last()[d + 1] == offs[d + 1]);
        }
    }
}

/// Splices one chunk of the body across the destination boundaries.
///
/// Returns the new state and the writes to perform, in order: one write
/// per destination from the current one through the destination owning
/// the chunk's last byte. Each write carries exactly the part of the
/// chunk between that destination's boundaries, so concatenating all
/// writes re-yields the chunk, and every destination receives exactly the
/// body bytes of its own window.
pub fn splice_chunk(dests: &Vec<(String, u64)>, state: SpliceState, chunk: &Vec<u8>) -> (r: (
    SpliceState,
    Vec<WriteOp>,
))
    requires
        wf_offsets(dests@.map_values(|p: (String, u64)| p.1)),
        wf_state(dests@.map_values(|p: (String, u64)| p.1), state),
        state.written + chunk@.len() <= u64::MAX,
    ensures
        ({
            let offs = dests@.map_values(|p: (String, u64)| p.1);
            let base = state.written as int;
            &&& wf_state(offs, r.0)
            &&& r.0.written == state.written + chunk@.len()
            &&& r.0.dest_index as int == dest_at(offs, r.0.written as int)
            &&& r.0.dest_index >= state.dest_index
            &&& r.1@.len() == r.0.dest_index - state.dest_index + 1
            &&& forall|t: int|
                0 <= t < r.1@.len() ==> (#[trigger] r.1@[t]).dest_index == state.dest_index + t
            &&& forall|t: int|
                0 <= t < r.1@.len() ==> (#[trigger] r.1@[t]).bytes@ == chunk_segment(
                    offs,
                    base,
                    chunk@,
                    state.dest_index + t,
                )
        }),
{
    let ghost offs = dests@.map_values(|p: (String, u64)| p.1);
    let n = dests.len();
    let total: u64 = state.written + chunk.len() as u64;
    let mut ops: Vec<WriteOp> = Vec::new();
    let mut idx: usize = state.dest_index;
    let mut taken: usize = 0;

    // Advance destination by destination while the chunk crosses the next
    // boundary.
    while idx + 1 < n && dests[idx + 1].1 <= total
        invariant
            offs == dests@.map_values(|p: (String, u64)| p.1),
            n == dests@.len(),
            wf_offsets(offs),
            wf_state(offs, state),
            total == state.written + chunk@.len(),
            chunk@.len() <= usize::MAX,
            state.dest_index <= idx < n,
            offs[idx as int] <= total,
            idx > state.dest_index ==> offs[idx as int] >= state.written,
            taken == offs[idx as int] - state.written || (idx == state.dest_index && taken == 0),
            taken <= chunk@.len(),
            ops@.len() == idx - state.dest_index,
            forall|t: int|
                0 <= t < ops@.len() ==> (#[trigger] ops@[t]).dest_index == state.dest_index + t,
            forall|t: int|
                0 <= t < ops@.len() ==> (#[trigger] ops@[t]).bytes@ == chunk_segment(
                    offs,
                    state.written as int,
                    chunk@,
                    state.dest_index + t,
                ),
        decreases n - idx,
    {
        let boundary: u64 = dests[idx + 1].1;
        proof {
            assert(offs[idx as int + 1] == boundary);
            if idx == state.dest_index {
                assert(state.written < offs[state.dest_index as int + 1]);
            } else {
                assert(offs[idx as int] >= state.written);
                assert(offs[idx as int] <= offs[idx as int + 1]);
            }
            assert(state.written <= boundary <= total);
            assert(boundary - state.written <= chunk@.len());
            assert(taken <= boundary - state.written);
        }
        // The part of the chunk up to the next boundary belongs to the
        // current destination.
        let cut: usize = (boundary - state.written) as usize;
        let mut part: Vec<u8> = Vec::new();
        let mut b: usize = taken;
        while b < cut
            invariant
                taken <= b <= cut,
                cut <= chunk@.len(),
                part@ == chunk@.subrange(taken as int, b as int),
            decreases cut - b,
        {
            part.push(chunk[b]);
            proof {
                assert(part@ =~= chunk@.subrange(taken as int, b as int + 1));
            }
            b += 1;
        }
        proof {
            let lo = clamp(offs[idx as int] - state.written, 0, chunk@.len() as int);
            let hi = clamp(offs[idx as int + 1] - state.written, 0, chunk@.len() as int);
            assert(lo == taken);
            assert(hi == cut);
            assert(part@ =~= chunk_segment(offs, state.written as int, chunk@, idx as int));
        }
        ops.push(WriteOp { dest_index: idx, bytes: part });
        taken = cut;
        idx += 1;
    }
    // The rest of the chunk stays with the current destination.
    let mut part: Vec<u8> = Vec::new();
    let clen = chunk.len();
    let mut b: usize = taken;
    while b < clen
        invariant
            taken <= b <= clen,
            clen == chunk@.len(),
            part@ == chunk@.subrange(taken as int, b as int),
        decreases clen - b,
    {
        part.push(chunk[b]);
        proof {
            assert(part@ =~= chunk@.subrange(taken as int, b as int + 1));
        }
        b += 1;
    }
    proof {
        let lo = clamp(offs[idx as int] - state.written, 0, chunk@.len() as int);
        assert(lo == taken);
        if idx as int + 1 < offs.len() {
            assert(offs[idx as int + 1] > total);
            assert(clamp(offs[idx as int + 1] - state.written, 0, chunk@.len() as int)
                == chunk@.len());
        }
        assert(part@ =~= chunk_segment(offs, state.written as int, chunk@, idx as int));
    }
    ops.push(WriteOp { dest_index: idx, bytes: part });
    let new_state = SpliceState { dest_index: idx, written: total };
    proof {
        lemma_dest_at_props(offs, total as int);
        // The final destination is the greatest one whose offset is
        // reached.
        assert forall|j: int| idx < j < offs.len() implies offs[j] > total by {}
        assert(idx as int == dest_at(offs, total as int)) by {
            lemma_dest_at_unique(offs, total as int, idx as int);
        }
        assert(wf_state(offs, new_state));
    }
    (new_state, ops)
}

/// Any destination whose offset is reached, while the next one's is not,
/// is `dest_at`.
pub proof fn lemma_dest_at_unique(offs: Seq<u64>, w: int, j: int)
    requires
        offs.len() >= 1,
        offs[0] == 0,
        w >= 0,
        0 <= j < offs.len(),
        offs[j] <= w,
        forall|t: int| j < t < offs.len() ==> offs[t] > w,
    ensures
        dest_at(offs, w) == j,
{
    lemma_dest_at_props(offs, w);
    let d = dest_at(offs, w);
    if d < j {
        assert(offs[j] > w);
    } else if d > j {
        assert(offs[d] > w);
    }
}


/// The inclusive byte bounds of an HTTP `Range` header for a request
/// range: `bytes=<first>-<last>`.
pub fn range_header_bounds(range: crate::plan::DownloadRange) -> (r: (u64, u64))
    requires
        range.size >= 1,
        range.start + range.size <= u64::MAX,
    ensures
        r.0 == range.start,
        r.1 == range.start + range.size - 1,
{
    (range.start, range.start + range.size - 1)
}

/// Whether an HTTP status code reports success, partial content
/// included.
pub fn status_is_success(status: u16) -> (r: bool)
    ensures
        r <==> 200 <= status < 300,
{
    200 <= status && status < 300
}


/// The lower boundary of destination `j`'s byte window, clamped to the
/// body seen so far.
pub open spec fn window_lo(offs: Seq<u64>, j: int, len: int) -> int {
    if offs[j] <= len {
        offs[j] as int
    } else {
        len
    }
}

/// The bytes of the body that belong to destination `j`: the part between
/// its offset and the next destination's, clamped to the body.
pub open spec fn window(offs: Seq<u64>, body: Seq<u8>, j: int) -> Seq<u8> {
    body.subrange(window_lo(offs, j, body.len() as int), window_end(offs, j, body.len() as int))
}

/// What destination `j` has received after the chunks were spliced in
/// order: the concatenation of its segment of each chunk.
pub open spec fn received(offs: Seq<u64>, chunks: Seq<Seq<u8>>, j: int) -> Seq<u8>
    decreases chunks.len(),
{
    if chunks.len() == 0 {
        Seq::empty()
    } else {
        received(offs, chunks.drop_last(), j) + chunk_segment(
            offs,
            chunks.drop_last().flatten().len() as int,
            chunks.last(),
            j,
        )
    }
}

/// Extending the body by one chunk extends destination `j`'s window by
/// exactly that chunk's segment for `j`.
proof fn lemma_window_extend(offs: Seq<u64>, prev: Seq<u8>, c: Seq<u8>, j: int)
    requires
        wf_offsets(offs),
        0 <= j < offs.len(),
    ensures
        window(offs, prev + c, j) == window(offs, prev, j) + chunk_segment(
            offs,
            prev.len() as int,
            c,
            j,
        ),
{
    let body = prev + c;
    let base = prev.len() as int;
    if j + 1 < offs.len() {
        assert(offs[j] <= offs[j + 1]);
    }
    assert(window(offs, body, j) =~= window(offs, prev, j) + chunk_segment(offs, base, c, j));
}

/// Splicing the chunks of a body hands destination `j` exactly its own
/// window of that body.
pub proof fn lemma_splice_session(offs: Seq<u64>, chunks: Seq<Seq<u8>>, j: int)
    requires
        wf_offsets(offs),
        0 <= j < offs.len(),
    ensures
        received(offs, chunks, j) == window(offs, chunks.flatten(), j),
    decreases chunks.len(),
{
    if chunks.len() == 0 {
        assert(chunks.flatten() == Seq::<u8>::empty());
        assert(received(offs, chunks, j) =~= window(offs, chunks.flatten(), j));
    } else {
        let pre = chunks.drop_last();
        let c = chunks.last();
        lemma_splice_session(offs, pre, j);
        assert(chunks =~= pre.push(c));
        pre.lemma_flatten_push(c);
        assert(chunks.flatten() == pre.flatten() + c);
        lemma_window_extend(offs, pre.flatten(), c, j);
    }
}


/// Coalescing correctness, end to end: when the fetched body of a
/// well-formed ranged group arrives in any sequence of chunks, splicing
/// hands destination `j` exactly the object's bytes of the original
/// specification that destination came from.
pub proof fn lemma_splice_reproduces_atoms(
    g: crate::optimize::GroupModel,
    chunks: Seq<Seq<u8>>,
    object: Seq<u8>,
    j: int,
)
    requires
        crate::optimize::wf_group(g),
        g.range is Some,
        0 <= j < g.dest.len(),
        object.len() >= g.range->0.start + g.range->0.size,
        chunks.flatten() == object.subrange(
            g.range->0.start as int,
            g.range->0.start + g.range->0.size,
        ),
    ensures
        ({
            let offs = g.dest.map_values(|p: (Seq<char>, u64)| p.1);
            let a = crate::optimize::atom(g, j).range->0;
            received(offs, chunks, j) == object.subrange(a.start as int, a.start + a.size)
        }),
{
    let offs = g.dest.map_values(|p: (Seq<char>, u64)| p.1);
    let r = g.range->0;
    let body = chunks.flatten();
    assert forall|t: int| 0 <= t < offs.len() implies offs[t] == g.dest[t].1 by {}
    assert(wf_offsets(offs));
    lemma_splice_session(offs, chunks, j);
    assert(body.len() == r.size);
    assert(g.dest[j].1 <= r.size);
    if j + 1 < g.dest.len() {
        assert(g.dest[j + 1].1 <= r.size);
    }
    assert(window_lo(offs, j, body.len() as int) == g.dest[j].1);
    assert(window_end(offs, j, body.len() as int) == crate::optimize::atom_end(g, j));
    crate::optimize::lemma_coalescing_bytes(g, object, j);
}

} // verus!
