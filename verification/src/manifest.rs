//! The manifest model: logical files, content hashes, and the position of
//! each hash's compressed bytes inside the concatenated archive blobs.
//!
//! Hashes and logical paths are plain strings; a map is held as a vector of
//! entries with pairwise-distinct keys, viewed in specifications as a
//! mathematical `Map`.

use vstd::prelude::*;

verus! {

/// Position and size of one content hash's data: `position` is the byte
/// offset within the logical concatenation of all archive blobs in index
/// order, `compressed_size` the length of its compressed bytes there, and
/// `decompressed_size` the length after decompression.
#[derive(Debug, Clone, Copy, PartialEq, Eq, Structural)]
pub struct HashInfo {
    pub position: u64,
    pub compressed_size: u64,
    pub decompressed_size: u64,
}

/// One `logical path -> content hash` association.
#[derive(Debug, Clone)]
pub struct FileEntry {
    pub path: String,
    pub hash: String,
}

/// The `logical path -> content hash` map of a release or of the local
/// install state, as a vector of entries with pairwise-distinct paths.
#[derive(Debug, Clone)]
pub struct FileMap {
    pub entries: Vec<FileEntry>,
}

/// One `content hash -> HashInfo` association.
#[derive(Debug, Clone)]
pub struct HashInfoEntry {
    pub hash: String,
    pub info: HashInfo,
}

/// The `content hash -> HashInfo` map of a release, as a vector of entries
/// with pairwise-distinct hashes.
#[derive(Debug, Clone)]
pub struct HashInfoMap {
    pub entries: Vec<HashInfoEntry>,
}

/// The map described by a sequence of file entries; a later entry for the
/// same path would win, but well-formed maps have distinct paths.
pub open spec fn file_map_of(s: Seq<FileEntry>) -> Map<Seq<char>, Seq<char>>
    decreases s.len(),
{
    if s.len() == 0 {
        Map::empty()
    } else {
        file_map_of(s.drop_last()).insert(s.last().path@, s.last().hash@)
    }
}

/// The map described by a sequence of hash-info entries.
pub open spec fn hash_info_map_of(s: Seq<HashInfoEntry>) -> Map<Seq<char>, HashInfo>
    decreases s.len(),
{
    if s.len() == 0 {
        Map::empty()
    } else {
        hash_info_map_of(s.drop_last()).insert(s.last().hash@, s.last().info)
    }
}

impl View for FileMap {
    type V = Map<Seq<char>, Seq<char>>;

    open spec fn view(&self) -> Map<Seq<char>, Seq<char>> {
        file_map_of(self.entries@)
    }
}

impl View for HashInfoMap {
    type V = Map<Seq<char>, HashInfo>;

    open spec fn view(&self) -> Map<Seq<char>, HashInfo> {
        hash_info_map_of(self.entries@)
    }
}

impl FileMap {
    /// The entry paths are pairwise distinct, so each path has one hash.
    pub open spec fn wf(&self) -> bool {
        forall|i: int, j: int|
            0 <= i < j < self.entries@.len() ==> self.entries@[i].path@ != self.entries@[j].path@
    }

    pub fn new() -> (r: FileMap)
        ensures
            r.wf(),
            r@ == Map::<Seq<char>, Seq<char>>::empty(),
            r.entries@.len() == 0,
    {
        FileMap { entries: Vec::new() }
    }

    /// Appends an association; the path must be new.
    pub fn push(&mut self, path: String, hash: String)
        requires
            old(self).wf(),
            !old(self)@.contains_key(path@),
        ensures
            final(self).wf(),
            final(self)@ == old(self)@.insert(path@, hash@),
            final(self).entries@ == old(self).entries@.push(
                FileEntry { path: path, hash: hash },
            ),
    {
        proof {
            lemma_file_map_of_contains(self.entries@, path@);
        }
        self.entries.push(FileEntry { path, hash });
        proof {
            assert(self.entries@.drop_last() == old(self).entries@);
        }
    }

    /// Looks a path up, returning its hash if the path is present.
    pub fn get(&self, path: &String) -> (r: Option<&String>)
        requires
            self.wf(),
        ensures
            match r {
                Some(h) => self@.contains_key(path@) && self@[path@] == h@,
                None => !self@.contains_key(path@),
            },
    {
        let n = self.entries.len();
        let mut i: usize = 0;
        while i < n
            invariant
                self.wf(),
                n == self.entries@.len(),
                0 <= i <= n,
                forall|k: int| 0 <= k < i ==> self.entries@[k].path@ != path@,
            decreases n - i,
        {
            if self.entries[i].path == *path {
                proof {
                    lemma_file_map_of_get(self.entries@, path@, i as int);
                }
                return Some(&self.entries[i].hash);
            }
            i += 1;
        }
        proof {
            lemma_file_map_of_contains(self.entries@, path@);
        }
        None
    }

    /// Whether a path is present.
    pub fn contains(&self, path: &String) -> (r: bool)
        requires
            self.wf(),
        ensures
            r == self@.contains_key(path@),
    {
        self.get(path).is_some()
    }

    pub fn len(&self) -> (r: usize)
        ensures
            r == self.entries@.len(),
    {
        self.entries.len()
    }
}

impl HashInfoMap {
    /// The entry hashes are pairwise distinct.
    pub open spec fn wf(&self) -> bool {
        forall|i: int, j: int|
            0 <= i < j < self.entries@.len() ==> self.entries@[i].hash@ != self.entries@[j].hash@
    }

    pub fn new() -> (r: HashInfoMap)
        ensures
            r.wf(),
            r@ == Map::<Seq<char>, HashInfo>::empty(),
    {
        HashInfoMap { entries: Vec::new() }
    }

    /// Appends an association; the hash must be new.
    pub fn push(&mut self, hash: String, info: HashInfo)
        requires
            old(self).wf(),
            !old(self)@.contains_key(hash@),
        ensures
            final(self).wf(),
            final(self)@ == old(self)@.insert(hash@, info),
    {
        proof {
            lemma_hash_info_map_of_contains(self.entries@, hash@);
        }
        self.entries.push(HashInfoEntry { hash, info });
        proof {
            assert(self.entries@.drop_last() == old(self).entries@);
        }
    }

    /// Looks a hash up, returning its archive position information.
    pub fn get(&self, hash: &String) -> (r: Option<HashInfo>)
        requires
            self.wf(),
        ensures
            match r {
                Some(info) => self@.contains_key(hash@) && self@[hash@] == info,
                None => !self@.contains_key(hash@),
            },
    {
        let n = self.entries.len();
        let mut i: usize = 0;
        while i < n
            invariant
                self.wf(),
                n == self.entries@.len(),
                0 <= i <= n,
                forall|k: int| 0 <= k < i ==> self.entries@[k].hash@ != hash@,
            decreases n - i,
        {
            if self.entries[i].hash == *hash {
                proof {
                    lemma_hash_info_map_of_get(self.entries@, hash@, i as int);
                }
                return Some(self.entries[i].info);
            }
            i += 1;
        }
        proof {
            lemma_hash_info_map_of_contains(self.entries@, hash@);
        }
        None
    }
}

/// A path is in the map of `s` exactly when some entry carries it.
pub proof fn lemma_file_map_of_contains(s: Seq<FileEntry>, p: Seq<char>)
    ensures
        file_map_of(s).contains_key(p) <==> exists|i: int| 0 <= i < s.len() && s[i].path@ == p,
    decreases s.len(),
{
    if s.len() > 0 {
        lemma_file_map_of_contains(s.drop_last(), p);
        if s.last().path@ == p {
            assert(s[s.len() - 1].path@ == p);
        } else if file_map_of(s).contains_key(p) {
            let i = choose|i: int| 0 <= i < s.drop_last().len() && s.drop_last()[i].path@ == p;
            assert(s[i].path@ == p);
        } else {
            assert forall|i: int| 0 <= i < s.len() implies s[i].path@ != p by {
                if i < s.len() - 1 {
                    assert(s.drop_last()[i].path@ == s[i].path@);
                }
            }
        }
    }
}

/// With distinct paths, the map of `s` sends an entry's path to its hash.
pub proof fn lemma_file_map_of_get(s: Seq<FileEntry>, p: Seq<char>, i: int)
    requires
        forall|k: int, l: int| 0 <= k < l < s.len() ==> s[k].path@ != s[l].path@,
        0 <= i < s.len(),
        s[i].path@ == p,
    ensures
        file_map_of(s).contains_key(p),
        file_map_of(s)[p] == s[i].hash@,
    decreases s.len(),
{
    if i == s.len() - 1 {
    } else {
        assert(s.drop_last()[i] == s[i]);
        lemma_file_map_of_get(s.drop_last(), p, i);
        assert(s.last().path@ != p);
    }
}

/// A hash is in the map of `s` exactly when some entry carries it.
pub proof fn lemma_hash_info_map_of_contains(s: Seq<HashInfoEntry>, h: Seq<char>)
    ensures
        hash_info_map_of(s).contains_key(h) <==> exists|i: int|
            0 <= i < s.len() && s[i].hash@ == h,
    decreases s.len(),
{
    if s.len() > 0 {
        lemma_hash_info_map_of_contains(s.drop_last(), h);
        if s.last().hash@ == h {
            assert(s[s.len() - 1].hash@ == h);
        } else if hash_info_map_of(s).contains_key(h) {
            let i = choose|i: int| 0 <= i < s.drop_last().len() && s.drop_last()[i].hash@ == h;
            assert(s[i].hash@ == h);
        } else {
            assert forall|i: int| 0 <= i < s.len() implies s[i].hash@ != h by {
                if i < s.len() - 1 {
                    assert(s.drop_last()[i].hash@ == s[i].hash@);
                }
            }
        }
    }
}

/// With distinct hashes, the map of `s` sends an entry's hash to its info.
pub proof fn lemma_hash_info_map_of_get(s: Seq<HashInfoEntry>, h: Seq<char>, i: int)
    requires
        forall|k: int, l: int| 0 <= k < l < s.len() ==> s[k].hash@ != s[l].hash@,
        0 <= i < s.len(),
        s[i].hash@ == h,
    ensures
        hash_info_map_of(s).contains_key(h),
        hash_info_map_of(s)[h] == s[i].info,
    decreases s.len(),
{
    if i == s.len() - 1 {
    } else {
        assert(s.drop_last()[i] == s[i]);
        lemma_hash_info_map_of_get(s.drop_last(), h, i);
        assert(s.last().hash@ != h);
    }
}


/// A release: its version, target device, `path -> hash` map, and
/// `hash -> position` map.
#[derive(Debug)]
pub struct ReleaseManifest {
    pub version: String,
    pub device: crate::device::Device,
    pub files: FileMap,
    pub hash_info: HashInfoMap,
}

impl ReleaseManifest {
    /// The release invariant: every hash a file refers to has archive
    /// position information. Its absence is a fatal inconsistency.
    pub open spec fn consistent(&self) -> bool {
        forall|i: int|
            0 <= i < self.files.entries@.len() ==> self.hash_info@.contains_key(
                (#[trigger] self.files.entries@[i]).hash@,
            )
    }

    /// Checks the release invariant.
    pub fn check_consistent(&self) -> (r: bool)
        requires
            self.hash_info.wf(),
        ensures
            r == self.consistent(),
    {
        let n = self.files.entries.len();
        let mut i: usize = 0;
        while i < n
            invariant
                self.hash_info.wf(),
                n == self.files.entries@.len(),
                0 <= i <= n,
                forall|k: int|
                    0 <= k < i ==> self.hash_info@.contains_key(
                        (#[trigger] self.files.entries@[k]).hash@,
                    ),
            decreases n - i,
        {
            if self.hash_info.get(&self.files.entries[i].hash).is_none() {
                return false;
            }
            i += 1;
        }
        true
    }
}

} // verus!
