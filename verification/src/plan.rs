//! The download planner: for each distinct content hash needed, emits one
//! ranged download specification against the blob that holds its bytes,
//! pointing at one per-hash temporary destination file.
//!
//! Two logical paths sharing a hash are planned as a single transfer; the
//! destination name is derived from the hash alone, so no two hashes ever
//! collide on a destination.

use vstd::prelude::*;

use crate::locate::{ArchiveInfo, locate, located_index, prefix_size};
use crate::manifest::{FileMap, HashInfo, HashInfoMap};

verus! {

/// A byte range of a blob: `start` is an offset within the blob's own byte
/// stream, `size` the number of bytes.
#[derive(Debug, Clone, Copy, PartialEq, Eq, Hash, Structural)]
pub struct DownloadRange {
    pub start: u64,
    pub size: u64,
}

/// One logical download: a URL, a destination path, and optionally the
/// byte range of the object to fetch (a missing range means the whole
/// object).
#[derive(Debug, Clone)]
pub struct DownloadSpecification {
    pub url: String,
    pub dest: String,
    pub range: Option<DownloadRange>,
}

/// The mathematical content of one download specification: the URL and
/// destination as character sequences, and the requested range.
pub struct SpecModel {
    pub url: Seq<char>,
    pub dest: Seq<char>,
    pub range: Option<DownloadRange>,
}

impl View for DownloadSpecification {
    type V = SpecModel;

    open spec fn view(&self) -> SpecModel {
        SpecModel { url: self.url@, dest: self.dest@, range: self.range }
    }
}

/// Why a plan cannot be built. Each case names the offending key; all are
/// release-integrity faults that are reported and never retried.
#[derive(Debug, Clone)]
pub enum PlanError {
    /// A scheduled path has no hash in the release's file map.
    MissingHash { path: String },
    /// A needed hash has no archive-position entry.
    MissingHashInfo { hash: String },
    /// There is no archive blob to resolve a hash's position against.
    NoArchive { hash: String },
    /// A needed hash's global position lies in no blob's cumulative
    /// `[start, end)` range: the blobs and the manifest do not match.
    PositionNotCovered { hash: String },
}

/// The temporary destination for a hash's compressed bytes, under the
/// download root.
pub open spec fn dest_path_spec(root: Seq<char>, hash: Seq<char>) -> Seq<char> {
    root + "/"@ + hash + ".lzma"@
}

/// Builds the temporary destination path for one hash.
pub fn dest_path(root: &String, hash: &String) -> (r: String)
    ensures
        r@ == dest_path_spec(root@, hash@),
{
    let mut s = root.clone();
    s.append("/");
    s.append(hash.as_str());
    s.append(".lzma");
    s
}

/// Destinations built from distinct hashes are distinct.
pub proof fn lemma_dest_path_injective(root: Seq<char>, h1: Seq<char>, h2: Seq<char>)
    requires
        dest_path_spec(root, h1) == dest_path_spec(root, h2),
    ensures
        h1 == h2,
{
    let d1 = dest_path_spec(root, h1);
    let d2 = dest_path_spec(root, h2);
    assert(d1.len() == root.len() + "/"@.len() + h1.len() + ".lzma"@.len());
    assert(d2.len() == root.len() + "/"@.len() + h2.len() + ".lzma"@.len());
    let base = root.len() + "/"@.len();
    assert forall|t: int| 0 <= t < h1.len() implies h1[t] == h2[t] by {
        assert(d1[base + t] == h1[t]);
        assert(d2[base + t] == h2[t]);
    }
    assert(h1 =~= h2);
}

/// Every scheduled path resolves to a hash, and every such hash has
/// archive-position information.
pub open spec fn all_resolvable(
    files: Map<Seq<char>, Seq<char>>,
    infos: Map<Seq<char>, HashInfo>,
    paths: Seq<Seq<char>>,
) -> bool {
    forall|i: int|
        0 <= i < paths.len() ==> #[trigger] files.contains_key(paths[i]) && infos.contains_key(
            files[paths[i]],
        )
}

/// Every scheduled path's global position falls inside the blobs'
/// concatenation, so some blob's `[start, end)` range covers it.
pub open spec fn all_covered(
    files: Map<Seq<char>, Seq<char>>,
    infos: Map<Seq<char>, HashInfo>,
    blobs: Seq<ArchiveInfo>,
    paths: Seq<Seq<char>>,
) -> bool {
    forall|i: int|
        0 <= i < paths.len() && #[trigger] files.contains_key(paths[i]) && infos.contains_key(
            files[paths[i]],
        ) ==> infos[files[paths[i]]].position < prefix_size(blobs, blobs.len() as int)
}

/// The distinct hashes of the scheduled paths, in first-occurrence order.
/// A path the file map lacks contributes nothing.
pub open spec fn distinct_hashes(
    files: Map<Seq<char>, Seq<char>>,
    paths: Seq<Seq<char>>,
) -> Seq<Seq<char>>
    decreases paths.len(),
{
    if paths.len() == 0 {
        Seq::empty()
    } else {
        let front = distinct_hashes(files, paths.drop_last());
        if files.contains_key(paths.last()) && !front.contains(files[paths.last()]) {
            front.push(files[paths.last()])
        } else {
            front
        }
    }
}

/// Two positions of the distinct-hash list hold distinct hashes.
pub proof fn lemma_distinct_hashes_nodup(
    files: Map<Seq<char>, Seq<char>>,
    paths: Seq<Seq<char>>,
    k: int,
    l: int,
)
    requires
        0 <= k < l < distinct_hashes(files, paths).len(),
    ensures
        distinct_hashes(files, paths)[k] != distinct_hashes(files, paths)[l],
    decreases paths.len(),
{
    let hs = distinct_hashes(files, paths);
    let front = distinct_hashes(files, paths.drop_last());
    if l < front.len() {
        lemma_distinct_hashes_nodup(files, paths.drop_last(), k, l);
    } else {
        // hs ends with a hash that the front does not contain.
        assert(!front.contains(hs[l]));
        assert(front[k] == hs[k]);
    }
}

/// The hash of every scheduled path the file map knows is listed.
pub proof fn lemma_distinct_hashes_complete(
    files: Map<Seq<char>, Seq<char>>,
    paths: Seq<Seq<char>>,
    i: int,
)
    requires
        0 <= i < paths.len(),
        files.contains_key(paths[i]),
    ensures
        distinct_hashes(files, paths).contains(files[paths[i]]),
    decreases paths.len(),
{
    let hs = distinct_hashes(files, paths);
    let front = distinct_hashes(files, paths.drop_last());
    if i < paths.len() - 1 {
        assert(paths.drop_last()[i] == paths[i]);
        lemma_distinct_hashes_complete(files, paths.drop_last(), i);
        let j = choose|j: int| 0 <= j < front.len() && front[j] == files[paths[i]];
        assert(hs[j] == files[paths[i]]);
    } else {
        if front.contains(files[paths.last()]) {
        } else {
            assert(hs.last() == files[paths[i]]);
        }
    }
}


/// One network transfer per content: two scheduled paths sharing one
/// content hash contribute a single planned download, because the shared
/// hash is listed exactly once among the distinct hashes the planner
/// turns into specifications.
pub proof fn lemma_single_transfer_per_hash(
    files: Map<Seq<char>, Seq<char>>,
    paths: Seq<Seq<char>>,
    i: int,
    j: int,
)
    requires
        0 <= i < paths.len(),
        0 <= j < paths.len(),
        files.contains_key(paths[i]),
        files.contains_key(paths[j]),
        files[paths[i]] == files[paths[j]],
    ensures
        distinct_hashes(files, paths).contains(files[paths[i]]),
        distinct_hashes(files, paths).contains(files[paths[j]]),
        forall|k: int, l: int|
            0 <= k < l < distinct_hashes(files, paths).len() ==> distinct_hashes(files, paths)[k]
                != distinct_hashes(files, paths)[l],
{
    lemma_distinct_hashes_complete(files, paths, i);
    lemma_distinct_hashes_complete(files, paths, j);
    assert forall|k: int, l: int|
        0 <= k < l < distinct_hashes(files, paths).len() implies distinct_hashes(files, paths)[k]
        != distinct_hashes(files, paths)[l] by {
        lemma_distinct_hashes_nodup(files, paths, k, l);
    }
}

/// One planned download matches one needed hash: it points at the blob
/// owning the hash's global position, asks for exactly its compressed
/// bytes at its offset within that blob, and lands in the hash's own
/// temporary destination.
pub open spec fn spec_matches_hash(
    s: DownloadSpecification,
    h: Seq<char>,
    infos: Map<Seq<char>, HashInfo>,
    blobs: Seq<ArchiveInfo>,
    root: Seq<char>,
) -> bool {
    let info = infos[h];
    let li = located_index(blobs, info.position as int);
    &&& infos.contains_key(h)
    &&& info.position < prefix_size(blobs, blobs.len() as int)
    &&& 0 <= li < blobs.len()
    &&& s.url@ == blobs[li].url@
    &&& s.dest@ == dest_path_spec(root, h)
    &&& match s.range {
        Some(r) => r.start == info.position - prefix_size(blobs, li) && r.size
            == info.compressed_size,
        None => false,
    }
}

/// Whether some listed string views equal to `x` exists.
pub(crate) fn contains_string(v: &Vec<String>, x: &String) -> (r: bool)
    ensures
        r == v@.map_values(|s: String| s@).contains(x@),
{
    let n = v.len();
    let mut i: usize = 0;
    while i < n
        invariant
            n == v@.len(),
            0 <= i <= n,
            forall|k: int| 0 <= k < i ==> (#[trigger] v@[k])@ != x@,
        decreases n - i,
    {
        if v[i] == *x {
            proof {
                assert(v@.map_values(|s: String| s@)[i as int] == x@);
            }
            return true;
        }
        i += 1;
    }
    proof {
        let vv = v@.map_values(|s: String| s@);
        if vv.contains(x@) {
            let k = choose|k: int| 0 <= k < vv.len() && vv[k] == x@;
            assert(v@[k]@ == x@);
        }
    }
    false
}

/// Plans the downloads for the scheduled paths.
///
/// Each distinct content hash among the scheduled paths yields exactly one
/// ranged specification: the blob owning its global position, the range
/// `[position - blob start, position - blob start + compressed size)`, and
/// the hash's temporary destination under `download_root`. The second list
/// pairs each hash with that destination. Fails, naming the offending key,
/// when a path has no hash, a hash has no position entry, or there is no
/// blob at all; nothing is planned in that case.
pub fn plan_downloads(
    files_to_download: &Vec<String>,
    files: &FileMap,
    hash_info: &HashInfoMap,
    blobs: &Vec<ArchiveInfo>,
    download_root: &String,
) -> (r: Result<(Vec<DownloadSpecification>, Vec<(String, String)>), PlanError>)
    requires
        files.wf(),
        hash_info.wf(),
        prefix_size(blobs@, blobs@.len() as int) <= u64::MAX,
    ensures
        ({
            let paths = files_to_download@.map_values(|s: String| s@);
            let hs = distinct_hashes(files@, paths);
            match r {
                Ok((specs, hash_dest)) => {
                    &&& all_resolvable(files@, hash_info@, paths)
                    &&& specs@.len() == hs.len()
                    &&& hash_dest@.len() == hs.len()
                    &&& forall|k: int|
                        0 <= k < hs.len() ==> spec_matches_hash(
                            #[trigger] specs@[k],
                            hs[k],
                            hash_info@,
                            blobs@,
                            download_root@,
                        )
                    &&& forall|k: int|
                        0 <= k < hs.len() ==> (#[trigger] hash_dest@[k]).0@ == hs[k]
                            && hash_dest@[k].1@ == dest_path_spec(download_root@, hs[k])
                    &&& forall|k: int, l: int| 0 <= k < l < hs.len() ==> hs[k] != hs[l]
                    &&& forall|k: int, l: int|
                        0 <= k < l < specs@.len() ==> (#[trigger] specs@[k]).dest@ != (
                        #[trigger] specs@[l]).dest@
                    &&& paths.len() == 0 || blobs@.len() > 0
                    &&& all_covered(files@, hash_info@, blobs@, paths)
                },
                Err(PlanError::MissingHash { path }) => {
                    &&& !files@.contains_key(path@)
                    &&& exists|i: int| 0 <= i < paths.len() && paths[i] == path@
                },
                Err(PlanError::MissingHashInfo { hash }) => {
                    &&& !hash_info@.contains_key(hash@)
                    &&& exists|i: int|
                        0 <= i < paths.len() && #[trigger] files@.contains_key(paths[i])
                            && files@[paths[i]] == hash@
                },
                Err(PlanError::NoArchive { hash }) => {
                    &&& blobs@.len() == 0
                    &&& exists|i: int|
                        0 <= i < paths.len() && #[trigger] files@.contains_key(paths[i])
                            && files@[paths[i]] == hash@
                },
                Err(PlanError::PositionNotCovered { hash }) => {
                    &&& blobs@.len() > 0
                    &&& hash_info@.contains_key(hash@)
                    &&& hash_info@[hash@].position >= prefix_size(blobs@, blobs@.len() as int)
                    &&& exists|i: int|
                        0 <= i < paths.len() && #[trigger] files@.contains_key(paths[i])
                            && files@[paths[i]] == hash@
                },
            }
        }),
        r is Ok <==> ({
            let paths = files_to_download@.map_values(|s: String| s@);
            &&& all_resolvable(files@, hash_info@, paths)
            &&& paths.len() == 0 || blobs@.len() > 0
            &&& all_covered(files@, hash_info@, blobs@, paths)
        }),
{
    let ghost paths = files_to_download@.map_values(|s: String| s@);
    let mut specs: Vec<DownloadSpecification> = Vec::new();
    let mut hash_dest: Vec<(String, String)> = Vec::new();
    let mut seen: Vec<String> = Vec::new();

    let n = files_to_download.len();
    let mut i: usize = 0;
    while i < n
        invariant
            files.wf(),
            hash_info.wf(),
            prefix_size(blobs@, blobs@.len() as int) <= u64::MAX,
            n == files_to_download@.len(),
            paths == files_to_download@.map_values(|s: String| s@),
            0 <= i <= n,
            seen@.map_values(|s: String| s@) == distinct_hashes(
                files@,
                paths.subrange(0, i as int),
            ),
            specs@.len() == seen@.len(),
            hash_dest@.len() == seen@.len(),
            forall|k: int|
                0 <= k < seen@.len() ==> spec_matches_hash(
                    #[trigger] specs@[k],
                    seen@.map_values(|s: String| s@)[k],
                    hash_info@,
                    blobs@,
                    download_root@,
                ),
            forall|k: int|
                0 <= k < seen@.len() ==> (#[trigger] hash_dest@[k]).0@ == seen@.map_values(
                    |s: String| s@,
                )[k] && hash_dest@[k].1@ == dest_path_spec(
                    download_root@,
                    seen@.map_values(|s: String| s@)[k],
                ),
            forall|j: int|
                0 <= j < i ==> #[trigger] files@.contains_key(paths[j])
                    && hash_info@.contains_key(files@[paths[j]])
                    && hash_info@[files@[paths[j]]].position < prefix_size(
                    blobs@,
                    blobs@.len() as int,
                ),
            i > 0 && seen@.len() > 0 ==> blobs@.len() > 0,
        decreases n - i,
    {
        proof {
            assert(paths.subrange(0, i as int + 1).drop_last() =~= paths.subrange(0, i as int));
            assert(paths.subrange(0, i as int + 1).last() == paths[i as int]);
            assert(paths[i as int] == files_to_download@[i as int]@);
        }
        let path = &files_to_download[i];
        let hash = match files.get(path) {
            Some(h) => h.clone(),
            None => {
                return Err(PlanError::MissingHash { path: path.clone() });
            },
        };
        if !contains_string(&seen, &hash) {
            let info = match hash_info.get(&hash) {
                Some(info) => info,
                None => {
                    return Err(PlanError::MissingHashInfo { hash });
                },
            };
            let (blob_index, offset) = match locate(blobs, info.position) {
                Some(found) => found,
                None => {
                    if blobs.len() == 0 {
                        return Err(PlanError::NoArchive { hash });
                    }
                    return Err(PlanError::PositionNotCovered { hash });
                },
            };
            proof {
                // The owning blob's end bounds the position, so the whole
                // concatenation does too.
                crate::locate::lemma_prefix_size_monotone(
                    blobs@,
                    blob_index as int + 1,
                    blobs@.len() as int,
                );
            }
            let dest = dest_path(download_root, &hash);
            let url = blobs[blob_index].url.clone();
            proof {
                let seen1 = seen@.push(hash).map_values(|s: String| s@);
                assert(seen1 =~= seen@.map_values(|s: String| s@).push(hash@));
                assert(seen1 =~= distinct_hashes(files@, paths.subrange(0, i as int + 1)));
            }
            specs.push(
                DownloadSpecification {
                    url,
                    dest: dest.clone(),
                    range: Some(DownloadRange { start: offset, size: info.compressed_size }),
                },
            );
            hash_dest.push((hash.clone(), dest));
            seen.push(hash);
        } else {
            proof {
                assert(distinct_hashes(files@, paths.subrange(0, i as int + 1))
                    == distinct_hashes(files@, paths.subrange(0, i as int)));
                // The hash was planned before, so its position entry was
                // already checked.
                let sv = seen@.map_values(|s: String| s@);
                let k = choose|k: int| 0 <= k < sv.len() && sv[k] == hash@;
                assert(spec_matches_hash(
                    specs@[k],
                    sv[k],
                    hash_info@,
                    blobs@,
                    download_root@,
                ));
                assert(hash_info@.contains_key(hash@));
            }
        }
        i += 1;
    }
    proof {
        assert(paths.subrange(0, n as int) =~= paths);
        let hs = distinct_hashes(files@, paths);
        let sv = seen@.map_values(|s: String| s@);
        assert forall|k: int, l: int| 0 <= k < l < hs.len() implies hs[k] != hs[l] by {
            lemma_distinct_hashes_nodup(files@, paths, k, l);
        }
        assert forall|k: int, l: int| 0 <= k < l < specs@.len() implies (
        #[trigger] specs@[k]).dest@ != (#[trigger] specs@[l]).dest@ by {
            lemma_distinct_hashes_nodup(files@, paths, k, l);
            if specs@[k].dest@ == specs@[l].dest@ {
                lemma_dest_path_injective(download_root@, hs[k], hs[l]);
            }
        }
    }
    Ok((specs, hash_dest))
}

/// The total compressed size of the scheduled paths' content, counting a
/// path once per occurrence; a path without hash or position information
/// contributes nothing.
pub open spec fn sum_compressed(
    files: Map<Seq<char>, Seq<char>>,
    infos: Map<Seq<char>, HashInfo>,
    paths: Seq<Seq<char>>,
) -> int
    decreases paths.len(),
{
    if paths.len() == 0 {
        0
    } else {
        sum_compressed(files, infos, paths.drop_last()) + {
            if files.contains_key(paths.last()) && infos.contains_key(files[paths.last()]) {
                infos[files[paths.last()]].compressed_size as int
            } else {
                0
            }
        }
    }
}

/// The total decompressed size, under the same convention.
pub open spec fn sum_decompressed(
    files: Map<Seq<char>, Seq<char>>,
    infos: Map<Seq<char>, HashInfo>,
    paths: Seq<Seq<char>>,
) -> int
    decreases paths.len(),
{
    if paths.len() == 0 {
        0
    } else {
        sum_decompressed(files, infos, paths.drop_last()) + {
            if files.contains_key(paths.last()) && infos.contains_key(files[paths.last()]) {
                infos[files[paths.last()]].decompressed_size as int
            } else {
                0
            }
        }
    }
}

/// Partial sums are nonnegative and never exceed the total.
pub proof fn lemma_sum_prefix_le(
    files: Map<Seq<char>, Seq<char>>,
    infos: Map<Seq<char>, HashInfo>,
    paths: Seq<Seq<char>>,
    i: int,
)
    requires
        0 <= i <= paths.len(),
    ensures
        0 <= sum_compressed(files, infos, paths.subrange(0, i)) <= sum_compressed(
            files,
            infos,
            paths,
        ),
        0 <= sum_decompressed(files, infos, paths.subrange(0, i)) <= sum_decompressed(
            files,
            infos,
            paths,
        ),
    decreases paths.len() - i,
{
    if i == paths.len() {
        assert(paths.subrange(0, i) =~= paths);
        lemma_sum_nonneg(files, infos, paths);
    } else {
        lemma_sum_prefix_le(files, infos, paths, i + 1);
        assert(paths.subrange(0, i + 1).drop_last() =~= paths.subrange(0, i));
        lemma_sum_nonneg(files, infos, paths.subrange(0, i));
    }
}

/// Sums of sizes are nonnegative.
pub proof fn lemma_sum_nonneg(
    files: Map<Seq<char>, Seq<char>>,
    infos: Map<Seq<char>, HashInfo>,
    paths: Seq<Seq<char>>,
)
    ensures
        sum_compressed(files, infos, paths) >= 0,
        sum_decompressed(files, infos, paths) >= 0,
    decreases paths.len(),
{
    if paths.len() > 0 {
        lemma_sum_nonneg(files, infos, paths.drop_last());
    }
}

/// Sums the compressed and decompressed sizes of the scheduled paths'
/// content: `(download volume, disk usage after decompression)`.
///
/// A path occurring twice is counted twice, as it is scheduled twice.
/// Fails, naming the offending key, when a path has no hash or a hash has
/// no position entry.
pub fn sum_download_size(
    files_to_download: &Vec<String>,
    files: &FileMap,
    hash_info: &HashInfoMap,
) -> (r: Result<(u64, u64), PlanError>)
    requires
        files.wf(),
        hash_info.wf(),
        sum_compressed(
            files@,
            hash_info@,
            files_to_download@.map_values(|s: String| s@),
        ) <= u64::MAX,
        sum_decompressed(
            files@,
            hash_info@,
            files_to_download@.map_values(|s: String| s@),
        ) <= u64::MAX,
    ensures
        ({
            let paths = files_to_download@.map_values(|s: String| s@);
            match r {
                Ok((c, d)) => {
                    &&& all_resolvable(files@, hash_info@, paths)
                    &&& c == sum_compressed(files@, hash_info@, paths)
                    &&& d == sum_decompressed(files@, hash_info@, paths)
                },
                Err(PlanError::MissingHash { path }) => {
                    &&& !files@.contains_key(path@)
                    &&& exists|i: int| 0 <= i < paths.len() && paths[i] == path@
                },
                Err(PlanError::MissingHashInfo { hash }) => {
                    &&& !hash_info@.contains_key(hash@)
                    &&& exists|i: int|
                        0 <= i < paths.len() && #[trigger] files@.contains_key(paths[i])
                            && files@[paths[i]] == hash@
                },
                Err(PlanError::NoArchive { .. }) => false,
                Err(PlanError::PositionNotCovered { .. }) => false,
            }
        }),
        r is Ok <==> all_resolvable(
            files@,
            hash_info@,
            files_to_download@.map_values(|s: String| s@),
        ),
{
    let ghost paths = files_to_download@.map_values(|s: String| s@);
    let mut compressed: u64 = 0;
    let mut decompressed: u64 = 0;
    let n = files_to_download.len();
    let mut i: usize = 0;
    while i < n
        invariant
            files.wf(),
            hash_info.wf(),
            n == files_to_download@.len(),
            paths == files_to_download@.map_values(|s: String| s@),
            sum_compressed(files@, hash_info@, paths) <= u64::MAX,
            sum_decompressed(files@, hash_info@, paths) <= u64::MAX,
            0 <= i <= n,
            compressed == sum_compressed(files@, hash_info@, paths.subrange(0, i as int)),
            decompressed == sum_decompressed(files@, hash_info@, paths.subrange(0, i as int)),
            forall|j: int|
                0 <= j < i ==> #[trigger] files@.contains_key(paths[j])
                    && hash_info@.contains_key(files@[paths[j]]),
        decreases n - i,
    {
        proof {
            assert(paths.subrange(0, i as int + 1).drop_last() =~= paths.subrange(0, i as int));
            assert(paths.subrange(0, i as int + 1).last() == paths[i as int]);
            assert(paths[i as int] == files_to_download@[i as int]@);
            lemma_sum_prefix_le(files@, hash_info@, paths, i as int + 1);
        }
        let path = &files_to_download[i];
        let hash = match files.get(path) {
            Some(h) => h,
            None => {
                return Err(PlanError::MissingHash { path: path.clone() });
            },
        };
        let info = match hash_info.get(hash) {
            Some(info) => info,
            None => {
                return Err(PlanError::MissingHashInfo { hash: hash.clone() });
            },
        };
        proof {
            assert(files@.contains_key(paths[i as int]));
            assert(hash_info@.contains_key(files@[paths[i as int]]));
            assert forall|j: int|
                0 <= j < i + 1 implies #[trigger] files@.contains_key(paths[j])
                && hash_info@.contains_key(files@[paths[j]]) by {
                if j < i {
                    assert(files@.contains_key(paths[j]));
                }
            }
        }
        compressed = compressed + info.compressed_size;
        decompressed = decompressed + info.decompressed_size;
        i += 1;
    }
    proof {
        assert(paths.subrange(0, n as int) =~= paths);
    }
    Ok((compressed, decompressed))
}


impl PartialEq for DownloadSpecification {
    fn eq(&self, other: &Self) -> (r: bool) {
        let range_eq = match (self.range, other.range) {
            (None, None) => true,
            (Some(a), Some(b)) => a == b,
            _ => false,
        };
        self.url == other.url && self.dest == other.dest && range_eq
    }
}

impl vstd::std_specs::cmp::PartialEqSpecImpl for DownloadSpecification {
    open spec fn obeys_eq_spec() -> bool {
        true
    }

    open spec fn eq_spec(&self, other: &Self) -> bool {
        self.url@ == other.url@ && self.dest@ == other.dest@ && self.range == other.range
    }
}

} // verus!
