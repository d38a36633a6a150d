//! The deployer's planning and decompression core: inverts the scheduled
//! `path -> hash` associations into per-hash groups, decompresses each
//! hash's blob once, and fans the content out to every path sharing it.
//!
//! Only the first path of a group is written from the decompressor; every
//! further path is a copy of the first, so identical content is never
//! decompressed twice.

use vstd::prelude::*;

use crate::manifest::{FileEntry, FileMap, lemma_file_map_of_contains, lemma_file_map_of_get};
use crate::plan::contains_string;

verus! {

/// One group of the deployment: all scheduled logical paths sharing one
/// content hash, in the file map's order.
#[derive(Debug, Clone)]
pub struct HashGroup {
    pub hash: String,
    pub paths: Vec<String>,
}

/// One deployment step. `Decompress` streams a downloaded blob's
/// decompressed bytes into a path; `Copy` duplicates an already-deployed
/// path's bytes into another path.
#[derive(Debug, Clone)]
pub enum DeployOp {
    Decompress { from: String, to: String },
    Copy { from: String, to: String },
}

/// Decompression failed for a hash's blob.
#[derive(Debug, Clone)]
pub enum DeployError {
    Decompress { hash: String },
}

/// An entry is deployed when its path is scheduled for download.
pub open spec fn entry_scheduled(dl: Seq<Seq<char>>, e: FileEntry) -> bool {
    dl.contains(e.path@)
}

/// The scheduled paths carrying hash `h`, in the file map's entry order.
pub open spec fn group_paths(entries: Seq<FileEntry>, dl: Seq<Seq<char>>, h: Seq<char>) -> Seq<
    Seq<char>,
>
    decreases entries.len(),
{
    if entries.len() == 0 {
        Seq::empty()
    } else {
        let front = group_paths(entries.drop_last(), dl, h);
        if entry_scheduled(dl, entries.last()) && entries.last().hash@ == h {
            front.push(entries.last().path@)
        } else {
            front
        }
    }
}

/// The distinct hashes of the scheduled entries, in first-occurrence
/// order.
pub open spec fn scheduled_hashes(entries: Seq<FileEntry>, dl: Seq<Seq<char>>) -> Seq<Seq<char>>
    decreases entries.len(),
{
    if entries.len() == 0 {
        Seq::empty()
    } else {
        let front = scheduled_hashes(entries.drop_last(), dl);
        if entry_scheduled(dl, entries.last()) && !front.contains(entries.last().hash@) {
            front.push(entries.last().hash@)
        } else {
            front
        }
    }
}

/// Two positions of the scheduled-hash list hold distinct hashes.
pub proof fn lemma_scheduled_hashes_nodup(
    entries: Seq<FileEntry>,
    dl: Seq<Seq<char>>,
    k: int,
    l: int,
)
    requires
        0 <= k < l < scheduled_hashes(entries, dl).len(),
    ensures
        scheduled_hashes(entries, dl)[k] != scheduled_hashes(entries, dl)[l],
    decreases entries.len(),
{
    let hs = scheduled_hashes(entries, dl);
    let front = scheduled_hashes(entries.drop_last(), dl);
    if l < front.len() {
        lemma_scheduled_hashes_nodup(entries.drop_last(), dl, k, l);
    } else {
        assert(!front.contains(hs[l]));
        assert(front[k] == hs[k]);
    }
}

/// A scheduled entry's hash is listed.
pub proof fn lemma_scheduled_hashes_complete(entries: Seq<FileEntry>, dl: Seq<Seq<char>>, i: int)
    requires
        0 <= i < entries.len(),
        entry_scheduled(dl, entries[i]),
    ensures
        scheduled_hashes(entries, dl).contains(entries[i].hash@),
    decreases entries.len(),
{
    let hs = scheduled_hashes(entries, dl);
    let front = scheduled_hashes(entries.drop_last(), dl);
    if i < entries.len() - 1 {
        assert(entries.drop_last()[i] == entries[i]);
        lemma_scheduled_hashes_complete(entries.drop_last(), dl, i);
        let j = choose|j: int| 0 <= j < front.len() && front[j] == entries[i].hash@;
        assert(hs[j] == entries[i].hash@);
    } else {
        if front.contains(entries.last().hash@) {
            let j = choose|j: int| 0 <= j < front.len() && front[j] == entries.last().hash@;
            assert(hs[j] == entries[i].hash@);
        } else {
            assert(hs.last() == entries[i].hash@);
        }
    }
}

/// A scheduled entry's path is in its hash's group.
pub proof fn lemma_group_paths_complete(entries: Seq<FileEntry>, dl: Seq<Seq<char>>, i: int)
    requires
        0 <= i < entries.len(),
        entry_scheduled(dl, entries[i]),
    ensures
        group_paths(entries, dl, entries[i].hash@).contains(entries[i].path@),
    decreases entries.len(),
{
    let h = entries[i].hash@;
    let gp = group_paths(entries, dl, h);
    let front = group_paths(entries.drop_last(), dl, h);
    if i < entries.len() - 1 {
        assert(entries.drop_last()[i] == entries[i]);
        lemma_group_paths_complete(entries.drop_last(), dl, i);
        let j = choose|j: int| 0 <= j < front.len() && front[j] == entries[i].path@;
        assert(gp[j] == entries[i].path@);
    } else {
        assert(gp.last() == entries[i].path@);
    }
}

/// Inverts the scheduled associations into per-hash groups: one group per
/// distinct hash among the scheduled paths, holding all scheduled paths
/// that share it, so each hash is deployed once and fanned out.
pub fn hash_to_files(files_to_download: &Vec<String>, files: &FileMap) -> (r: Vec<HashGroup>)
    requires
        files.wf(),
    ensures
        ({
            let dl = files_to_download@.map_values(|s: String| s@);
            let hs = scheduled_hashes(files.entries@, dl);
            &&& r@.len() == hs.len()
            &&& forall|k: int|
                0 <= k < hs.len() ==> (#[trigger] r@[k]).hash@ == hs[k] && r@[k].paths@.map_values(
                    |s: String| s@,
                ) == group_paths(files.entries@, dl, hs[k])
            &&& forall|k: int, l: int| 0 <= k < l < hs.len() ==> hs[k] != hs[l]
        }),
{
    let ghost dl = files_to_download@.map_values(|s: String| s@);
    let mut hashes: Vec<String> = Vec::new();
    let n = files.entries.len();
    let mut i: usize = 0;
    while i < n
        invariant
            files.wf(),
            dl == files_to_download@.map_values(|s: String| s@),
            n == files.entries@.len(),
            0 <= i <= n,
            hashes@.map_values(|s: String| s@) == scheduled_hashes(
                files.entries@.subrange(0, i as int),
                dl,
            ),
        decreases n - i,
    {
        proof {
            assert(files.entries@.subrange(0, i as int + 1).drop_last() =~= files.entries@.subrange(
                0,
                i as int,
            ));
            assert(files.entries@.subrange(0, i as int + 1).last() == files.entries@[i as int]);
        }
        let scheduled = contains_string(files_to_download, &files.entries[i].path);
        if scheduled && !contains_string(&hashes, &files.entries[i].hash) {
            hashes.push(files.entries[i].hash.clone());
            proof {
                assert(hashes@.map_values(|s: String| s@) =~= scheduled_hashes(
                    files.entries@.subrange(0, i as int + 1),
                    dl,
                ));
            }
        } else {
            proof {
                assert(hashes@.map_values(|s: String| s@) =~= scheduled_hashes(
                    files.entries@.subrange(0, i as int + 1),
                    dl,
                ));
            }
        }
        i += 1;
    }
    proof {
        assert(files.entries@.subrange(0, n as int) =~= files.entries@);
    }

    let mut groups: Vec<HashGroup> = Vec::new();
    let nh = hashes.len();
    let mut k: usize = 0;
    while k < nh
        invariant
            files.wf(),
            dl == files_to_download@.map_values(|s: String| s@),
            nh == hashes@.len(),
            hashes@.map_values(|s: String| s@) == scheduled_hashes(files.entries@, dl),
            0 <= k <= nh,
            groups@.len() == k,
            forall|t: int|
                0 <= t < k ==> (#[trigger] groups@[t]).hash@ == hashes@.map_values(|s: String| s@)[
                    t
                ] && groups@[t].paths@.map_values(|s: String| s@) == group_paths(
                    files.entries@,
                    dl,
                    hashes@.map_values(|s: String| s@)[t],
                ),
        decreases nh - k,
    {
        let mut paths: Vec<String> = Vec::new();
        let m = files.entries.len();
        let mut i2: usize = 0;
        while i2 < m
            invariant
                files.wf(),
                dl == files_to_download@.map_values(|s: String| s@),
                m == files.entries@.len(),
                0 <= i2 <= m,
                0 <= k < nh == hashes@.len(),
                paths@.map_values(|s: String| s@) == group_paths(
                    files.entries@.subrange(0, i2 as int),
                    dl,
                    hashes@[k as int]@,
                ),
            decreases m - i2,
        {
            proof {
                assert(files.entries@.subrange(0, i2 as int + 1).drop_last()
                    =~= files.entries@.subrange(0, i2 as int));
                assert(files.entries@.subrange(0, i2 as int + 1).last() == files.entries@[
                    i2 as int]);
            }
            let scheduled = contains_string(files_to_download, &files.entries[i2].path);
            if scheduled && files.entries[i2].hash == hashes[k] {
                paths.push(files.entries[i2].path.clone());
            }
            proof {
                assert(paths@.map_values(|s: String| s@) =~= group_paths(
                    files.entries@.subrange(0, i2 as int + 1),
                    dl,
                    hashes@[k as int]@,
                ));
            }
            i2 += 1;
        }
        proof {
            assert(files.entries@.subrange(0, m as int) =~= files.entries@);
            assert(hashes@[k as int]@ == hashes@.map_values(|s: String| s@)[k as int]);
        }
        groups.push(HashGroup { hash: hashes[k].clone(), paths });
        k += 1;
    }
    proof {
        let hs = scheduled_hashes(files.entries@, dl);
        assert forall|a: int, b: int| 0 <= a < b < hs.len() implies hs[a] != hs[b] by {
            lemma_scheduled_hashes_nodup(files.entries@, dl, a, b);
        }
    }
    groups
}

/// The deployment steps for one hash group: decompress the downloaded
/// blob into the first path's location, then copy the first path's bytes
/// to every further path.
pub fn deploy_ops(blob_path: &String, paths: &Vec<String>) -> (r: Vec<DeployOp>)
    requires
        paths@.len() >= 1,
    ensures
        r@.len() == paths@.len(),
        (r@[0] matches DeployOp::Decompress { from, to } && from@ == blob_path@ && to@ == paths@[
            0
        ]@),
        forall|k: int|
            1 <= k < r@.len() ==> (#[trigger] r@[k] matches DeployOp::Copy { from, to } && from@
                == paths@[0]@ && to@ == paths@[k]@),
{
    let mut ops: Vec<DeployOp> = Vec::new();
    ops.push(DeployOp::Decompress { from: blob_path.clone(), to: paths[0].clone() });
    let n = paths.len();
    let mut k: usize = 1;
    while k < n
        invariant
            n == paths@.len(),
            1 <= k <= n,
            ops@.len() == k,
            (ops@[0] matches DeployOp::Decompress { from, to } && from@ == blob_path@ && to@
                == paths@[0]@),
            forall|t: int|
                1 <= t < k ==> (#[trigger] ops@[t] matches DeployOp::Copy { from, to } && from@
                    == paths@[0]@ && to@ == paths@[t]@),
        decreases n - k,
    {
        ops.push(DeployOp::Copy { from: paths[0].clone(), to: paths[k].clone() });
        k += 1;
    }
    ops
}

/// What LZMA decompression yields for a given compressed byte sequence.
pub uninterp spec fn decompressed_of(bytes: Seq<u8>) -> Seq<u8>;

/// Whether a byte sequence is a well-formed LZMA stream, so that decoding
/// it succeeds.
pub uninterp spec fn lzma_ok(bytes: Seq<u8>) -> bool;

#[verifier::external_type_specification]
#[verifier::external_body]
pub struct ExLzmaError(lzma::LzmaError);

/// Relies on `lzma::decompress`: decoding a byte buffer in one call.
/// Both the outcome and the decoded bytes are functions of the buffer's
/// bytes alone: the decoder runs over the in-memory slice with its memory
/// limit disabled, and fails exactly on streams the format rejects.
#[verifier::external_body]
fn lzma_decompress(bytes: &Vec<u8>) -> (r: Result<Vec<u8>, lzma::LzmaError>)
    ensures
        r is Ok <==> lzma_ok(bytes@),
        r matches Ok(v) ==> v@ == decompressed_of(bytes@),
{
    lzma::decompress(bytes.as_slice())
}

/// Decompresses one downloaded blob's bytes: succeeds exactly on
/// well-formed streams; a failure names the hash whose blob was bad, and
/// siblings are unaffected.
pub fn decompress_blob(bytes: &Vec<u8>, hash: &String) -> (r: Result<Vec<u8>, DeployError>)
    ensures
        r is Ok <==> lzma_ok(bytes@),
        (r matches Ok(v) ==> v@ == decompressed_of(bytes@)),
        (r matches Err(e) ==> e matches DeployError::Decompress { hash: h } && h@ == hash@),
{
    match lzma_decompress(bytes) {
        Ok(v) => Ok(v),
        Err(_) => Err(DeployError::Decompress { hash: hash.clone() }),
    }
}

/// Fan-out: two scheduled paths that share one content hash fall into the
/// same single deployment group of that hash — the hash appears exactly
/// once among the scheduled hashes, and both paths are in its group. With
/// `deploy_ops`, the group is served by one decompression, and every path
/// after the first receives its bytes by a copy of the first.
pub proof fn lemma_fan_out(files: &FileMap, dl: Seq<Seq<char>>, p1: Seq<char>, p2: Seq<char>)
    requires
        files.wf(),
        dl.contains(p1),
        dl.contains(p2),
        p1 != p2,
        files@.contains_key(p1),
        files@.contains_key(p2),
        files@[p1] == files@[p2],
    ensures
        ({
            let h = files@[p1];
            let hs = scheduled_hashes(files.entries@, dl);
            &&& hs.contains(h)
            &&& forall|k: int, l: int| 0 <= k < l < hs.len() ==> hs[k] != hs[l]
            &&& group_paths(files.entries@, dl, h).contains(p1)
            &&& group_paths(files.entries@, dl, h).contains(p2)
        }),
{
    let h = files@[p1];
    lemma_file_map_of_contains(files.entries@, p1);
    lemma_file_map_of_contains(files.entries@, p2);
    let i1 = choose|i: int| 0 <= i < files.entries@.len() && files.entries@[i].path@ == p1;
    let i2 = choose|i: int| 0 <= i < files.entries@.len() && files.entries@[i].path@ == p2;
    lemma_file_map_of_get(files.entries@, p1, i1);
    lemma_file_map_of_get(files.entries@, p2, i2);
    lemma_scheduled_hashes_complete(files.entries@, dl, i1);
    lemma_group_paths_complete(files.entries@, dl, i1);
    lemma_group_paths_complete(files.entries@, dl, i2);
    let hs = scheduled_hashes(files.entries@, dl);
    assert forall|k: int, l: int| 0 <= k < l < hs.len() implies hs[k] != hs[l] by {
        lemma_scheduled_hashes_nodup(files.entries@, dl, k, l);
    }
}

} // verus!
