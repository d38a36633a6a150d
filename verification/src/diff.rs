//! The diff engine: compares the previous installation's `path -> hash` map
//! against the new release's map and produces the set of paths to download
//! and the set of paths to remove.
//!
//! A path is downloaded when it is new or its hash changed; a path is
//! removed when the new release no longer carries it. Hash equality is the
//! sole identity test.

use vstd::prelude::*;

use crate::manifest::{FileEntry, FileMap, lemma_file_map_of_contains, lemma_file_map_of_get};

verus! {

/// A path must be downloaded: the new release carries it, and the previous
/// installation either lacks it or holds different content for it.
pub open spec fn needs_download(
    previous: Map<Seq<char>, Seq<char>>,
    latest: Map<Seq<char>, Seq<char>>,
    path: Seq<char>,
) -> bool {
    latest.contains_key(path) && (!previous.contains_key(path) || previous[path] != latest[path])
}

/// A path must be removed: the previous installation carries it but the new
/// release does not.
pub open spec fn needs_removal(
    previous: Map<Seq<char>, Seq<char>>,
    latest: Map<Seq<char>, Seq<char>>,
    path: Seq<char>,
) -> bool {
    previous.contains_key(path) && !latest.contains_key(path)
}

/// `needs_download` phrased on one entry of the new map.
pub open spec fn entry_needs_download(previous: Map<Seq<char>, Seq<char>>, e: FileEntry) -> bool {
    !previous.contains_key(e.path@) || previous[e.path@] != e.hash@
}

/// The download list: the paths of the new map's entries whose content is
/// new or changed, in entry order.
pub open spec fn download_paths(
    previous: Map<Seq<char>, Seq<char>>,
    latest_entries: Seq<FileEntry>,
) -> Seq<Seq<char>>
    decreases latest_entries.len(),
{
    if latest_entries.len() == 0 {
        Seq::empty()
    } else {
        let front = download_paths(previous, latest_entries.drop_last());
        if entry_needs_download(previous, latest_entries.last()) {
            front.push(latest_entries.last().path@)
        } else {
            front
        }
    }
}

/// The removal list: the paths of the previous map's entries that the new
/// map lacks, in entry order.
pub open spec fn removal_paths(
    latest: Map<Seq<char>, Seq<char>>,
    previous_entries: Seq<FileEntry>,
) -> Seq<Seq<char>>
    decreases previous_entries.len(),
{
    if previous_entries.len() == 0 {
        Seq::empty()
    } else {
        let front = removal_paths(latest, previous_entries.drop_last());
        if !latest.contains_key(previous_entries.last().path@) {
            front.push(previous_entries.last().path@)
        } else {
            front
        }
    }
}

/// The download at index `i` comes from a qualifying entry of `s`.
proof fn lemma_download_path_at(previous: Map<Seq<char>, Seq<char>>, s: Seq<FileEntry>, i: int)
    requires
        0 <= i < download_paths(previous, s).len(),
    ensures
        exists|j: int|
            #![trigger s[j].path@]
            0 <= j < s.len() && s[j].path@ == download_paths(previous, s)[i]
                && entry_needs_download(previous, s[j]),
    decreases s.len(),
{
    let dp = download_paths(previous, s);
    let front = download_paths(previous, s.drop_last());
    if i < front.len() {
        lemma_download_path_at(previous, s.drop_last(), i);
        let j = choose|j: int|
            #![trigger s.drop_last()[j].path@]
            0 <= j < s.drop_last().len() && s.drop_last()[j].path@ == download_paths(
                previous,
                s.drop_last(),
            )[i] && entry_needs_download(previous, s.drop_last()[j]);
        assert(s[j] == s.drop_last()[j]);
        assert(s[j].path@ == dp[i] && entry_needs_download(previous, s[j]));
    } else {
        assert(s[s.len() - 1].path@ == dp[i] && entry_needs_download(previous, s[s.len() - 1]));
    }
}

/// The removal at index `i` comes from a qualifying entry of `s`.
proof fn lemma_removal_path_at(latest: Map<Seq<char>, Seq<char>>, s: Seq<FileEntry>, i: int)
    requires
        0 <= i < removal_paths(latest, s).len(),
    ensures
        exists|j: int|
            #![trigger s[j].path@]
            0 <= j < s.len() && s[j].path@ == removal_paths(latest, s)[i] && !latest.contains_key(
                s[j].path@,
            ),
    decreases s.len(),
{
    let rp = removal_paths(latest, s);
    let front = removal_paths(latest, s.drop_last());
    if i < front.len() {
        lemma_removal_path_at(latest, s.drop_last(), i);
        let j = choose|j: int|
            #![trigger s.drop_last()[j].path@]
            0 <= j < s.drop_last().len() && s.drop_last()[j].path@ == removal_paths(
                latest,
                s.drop_last(),
            )[i] && !latest.contains_key(s.drop_last()[j].path@);
        assert(s[j] == s.drop_last()[j]);
        assert(s[j].path@ == rp[i] && !latest.contains_key(s[j].path@));
    } else {
        assert(s[s.len() - 1].path@ == rp[i] && !latest.contains_key(s[s.len() - 1].path@));
    }
}

/// A qualifying entry of `s` is listed for download.
proof fn lemma_download_path_complete(previous: Map<Seq<char>, Seq<char>>, s: Seq<FileEntry>, j: int)
    requires
        0 <= j < s.len(),
        entry_needs_download(previous, s[j]),
    ensures
        download_paths(previous, s).contains(s[j].path@),
    decreases s.len(),
{
    let dp = download_paths(previous, s);
    let front = download_paths(previous, s.drop_last());
    if j < s.len() - 1 {
        assert(s.drop_last()[j] == s[j]);
        lemma_download_path_complete(previous, s.drop_last(), j);
        let i = choose|i: int| 0 <= i < front.len() && front[i] == s[j].path@;
        assert(dp[i] == s[j].path@);
    } else {
        assert(dp.last() == s[j].path@);
    }
}

/// An entry of `s` that the new map lacks is listed for removal.
proof fn lemma_removal_path_complete(latest: Map<Seq<char>, Seq<char>>, s: Seq<FileEntry>, j: int)
    requires
        0 <= j < s.len(),
        !latest.contains_key(s[j].path@),
    ensures
        removal_paths(latest, s).contains(s[j].path@),
    decreases s.len(),
{
    let rp = removal_paths(latest, s);
    let front = removal_paths(latest, s.drop_last());
    if j < s.len() - 1 {
        assert(s.drop_last()[j] == s[j]);
        lemma_removal_path_complete(latest, s.drop_last(), j);
        let i = choose|i: int| 0 <= i < front.len() && front[i] == s[j].path@;
        assert(rp[i] == s[j].path@);
    } else {
        assert(rp.last() == s[j].path@);
    }
}

/// With pairwise-distinct entry paths, two distinct download indices hold
/// distinct paths.
proof fn lemma_download_paths_distinct_at(
    previous: Map<Seq<char>, Seq<char>>,
    s: Seq<FileEntry>,
    i: int,
    j: int,
)
    requires
        forall|k: int, l: int| 0 <= k < l < s.len() ==> s[k].path@ != s[l].path@,
        0 <= i < j < download_paths(previous, s).len(),
    ensures
        download_paths(previous, s)[i] != download_paths(previous, s)[j],
    decreases s.len(),
{
    let dp = download_paths(previous, s);
    let front = download_paths(previous, s.drop_last());
    if j < front.len() {
        lemma_download_paths_distinct_at(previous, s.drop_last(), i, j);
    } else {
        // dp[j] is the last entry's path; dp[i] comes from an earlier entry.
        lemma_download_path_at(previous, s.drop_last(), i);
        let k = choose|k: int|
            #![trigger s.drop_last()[k].path@]
            0 <= k < s.drop_last().len() && s.drop_last()[k].path@ == download_paths(
                previous,
                s.drop_last(),
            )[i] && entry_needs_download(previous, s.drop_last()[k]);
        assert(s[k] == s.drop_last()[k]);
        assert(s[k].path@ == dp[i]);
        assert(s[k].path@ != s[s.len() - 1].path@);
    }
}

/// With pairwise-distinct entry paths, two distinct removal indices hold
/// distinct paths.
proof fn lemma_removal_paths_distinct_at(
    latest: Map<Seq<char>, Seq<char>>,
    s: Seq<FileEntry>,
    i: int,
    j: int,
)
    requires
        forall|k: int, l: int| 0 <= k < l < s.len() ==> s[k].path@ != s[l].path@,
        0 <= i < j < removal_paths(latest, s).len(),
    ensures
        removal_paths(latest, s)[i] != removal_paths(latest, s)[j],
    decreases s.len(),
{
    let rp = removal_paths(latest, s);
    let front = removal_paths(latest, s.drop_last());
    if j < front.len() {
        lemma_removal_paths_distinct_at(latest, s.drop_last(), i, j);
    } else {
        lemma_removal_path_at(latest, s.drop_last(), i);
        let k = choose|k: int|
            #![trigger s.drop_last()[k].path@]
            0 <= k < s.drop_last().len() && s.drop_last()[k].path@ == removal_paths(
                latest,
                s.drop_last(),
            )[i] && !latest.contains_key(s.drop_last()[k].path@);
        assert(s[k] == s.drop_last()[k]);
        assert(s[k].path@ == rp[i]);
        assert(s[k].path@ != s[s.len() - 1].path@);
    }
}

/// Compares the previous and the new `path -> hash` maps.
///
/// Returns `(paths to download, paths to remove)`. Identical maps yield two
/// empty lists, so an up-to-date installation is left untouched.
pub fn diff_destination(previous: &FileMap, latest: &FileMap) -> (r: (Vec<String>, Vec<String>))
    requires
        previous.wf(),
        latest.wf(),
    ensures
        r.0@.map_values(|s: String| s@) == download_paths(previous@, latest.entries@),
        r.1@.map_values(|s: String| s@) == removal_paths(latest@, previous.entries@),
        forall|i: int|
            0 <= i < r.0@.len() ==> needs_download(previous@, latest@, #[trigger] r.0@[i]@),
        forall|i: int|
            0 <= i < r.1@.len() ==> needs_removal(previous@, latest@, #[trigger] r.1@[i]@),
        forall|p: Seq<char>|
            #[trigger] needs_download(previous@, latest@, p) ==> exists|i: int|
                0 <= i < r.0@.len() && r.0@[i]@ == p,
        forall|p: Seq<char>|
            #[trigger] needs_removal(previous@, latest@, p) ==> exists|i: int|
                0 <= i < r.1@.len() && r.1@[i]@ == p,
        forall|i: int, j: int| 0 <= i < j < r.0@.len() ==> r.0@[i]@ != r.0@[j]@,
        forall|i: int, j: int| 0 <= i < j < r.1@.len() ==> r.1@[i]@ != r.1@[j]@,
        previous@ == latest@ ==> r.0@.len() == 0 && r.1@.len() == 0,
{
    let mut downloads: Vec<String> = Vec::new();
    let mut removals: Vec<String> = Vec::new();

    let n = latest.entries.len();
    let mut i: usize = 0;
    while i < n
        invariant
            previous.wf(),
            latest.wf(),
            n == latest.entries@.len(),
            0 <= i <= n,
            downloads@.map_values(|s: String| s@) == download_paths(
                previous@,
                latest.entries@.subrange(0, i as int),
            ),
        decreases n - i,
    {
        let e = &latest.entries[i];
        let take = match previous.get(&e.path) {
            Some(h) => !(*h == e.hash),
            None => true,
        };
        proof {
            let prefix1 = latest.entries@.subrange(0, i as int + 1);
            assert(prefix1.drop_last() =~= latest.entries@.subrange(0, i as int));
            assert(prefix1.last() == latest.entries@[i as int]);
            assert(take == entry_needs_download(previous@, latest.entries@[i as int]));
        }
        if take {
            downloads.push(e.path.clone());
        }
        proof {
            assert(downloads@.map_values(|s: String| s@) =~= download_paths(
                previous@,
                latest.entries@.subrange(0, i as int + 1),
            ));
        }
        i += 1;
    }

    let m = previous.entries.len();
    let mut j: usize = 0;
    while j < m
        invariant
            previous.wf(),
            latest.wf(),
            m == previous.entries@.len(),
            0 <= j <= m,
            removals@.map_values(|s: String| s@) == removal_paths(
                latest@,
                previous.entries@.subrange(0, j as int),
            ),
        decreases m - j,
    {
        let e = &previous.entries[j];
        let stale = !latest.contains(&e.path);
        proof {
            let prefix1 = previous.entries@.subrange(0, j as int + 1);
            assert(prefix1.drop_last() =~= previous.entries@.subrange(0, j as int));
            assert(prefix1.last() == previous.entries@[j as int]);
        }
        if stale {
            removals.push(e.path.clone());
        }
        proof {
            assert(removals@.map_values(|s: String| s@) =~= removal_paths(
                latest@,
                previous.entries@.subrange(0, j as int + 1),
            ));
        }
        j += 1;
    }

    proof {
        assert(latest.entries@.subrange(0, n as int) =~= latest.entries@);
        assert(previous.entries@.subrange(0, m as int) =~= previous.entries@);
        lemma_diff_lists(previous, latest, downloads@, removals@);
    }
    (downloads, removals)
}

/// From the list characterisations, derives the membership, completeness,
/// distinctness and idempotence clauses of `diff_destination`.
proof fn lemma_diff_lists(
    previous: &FileMap,
    latest: &FileMap,
    downloads: Seq<String>,
    removals: Seq<String>,
)
    requires
        previous.wf(),
        latest.wf(),
        downloads.map_values(|s: String| s@) == download_paths(previous@, latest.entries@),
        removals.map_values(|s: String| s@) == removal_paths(latest@, previous.entries@),
    ensures
        forall|i: int|
            0 <= i < downloads.len() ==> needs_download(
                previous@,
                latest@,
                #[trigger] downloads[i]@,
            ),
        forall|i: int|
            0 <= i < removals.len() ==> needs_removal(previous@, latest@, #[trigger] removals[i]@),
        forall|p: Seq<char>|
            #[trigger] needs_download(previous@, latest@, p) ==> exists|i: int|
                0 <= i < downloads.len() && downloads[i]@ == p,
        forall|p: Seq<char>|
            #[trigger] needs_removal(previous@, latest@, p) ==> exists|i: int|
                0 <= i < removals.len() && removals[i]@ == p,
        forall|i: int, j: int| 0 <= i < j < downloads.len() ==> downloads[i]@ != downloads[j]@,
        forall|i: int, j: int| 0 <= i < j < removals.len() ==> removals[i]@ != removals[j]@,
        previous@ == latest@ ==> downloads.len() == 0 && removals.len() == 0,
{
    let dp = download_paths(previous@, latest.entries@);
    let rp = removal_paths(latest@, previous.entries@);

    // Each listed path satisfies its predicate on the whole maps.
    assert forall|i: int| 0 <= i < downloads.len() implies needs_download(
        previous@,
        latest@,
        #[trigger] downloads[i]@,
    ) by {
        assert(downloads[i]@ == dp[i]);
        lemma_download_path_at(previous@, latest.entries@, i);
        let j = choose|j: int|
            #![trigger latest.entries@[j].path@]
            0 <= j < latest.entries@.len() && latest.entries@[j].path@ == download_paths(
                previous@,
                latest.entries@,
            )[i] && entry_needs_download(previous@, latest.entries@[j]);
        lemma_file_map_of_get(latest.entries@, latest.entries@[j].path@, j);
    }
    assert forall|i: int| 0 <= i < removals.len() implies needs_removal(
        previous@,
        latest@,
        #[trigger] removals[i]@,
    ) by {
        assert(removals[i]@ == rp[i]);
        lemma_removal_path_at(latest@, previous.entries@, i);
        let j = choose|j: int|
            #![trigger previous.entries@[j].path@]
            0 <= j < previous.entries@.len() && previous.entries@[j].path@ == removal_paths(
                latest@,
                previous.entries@,
            )[i] && !latest@.contains_key(previous.entries@[j].path@);
        lemma_file_map_of_get(previous.entries@, previous.entries@[j].path@, j);
    }

    // Every path the maps mark is listed.
    assert forall|p: Seq<char>| #[trigger] needs_download(previous@, latest@, p) implies exists|
        i: int,
    | 0 <= i < downloads.len() && downloads[i]@ == p by {
        lemma_file_map_of_contains(latest.entries@, p);
        let j = choose|j: int| 0 <= j < latest.entries@.len() && latest.entries@[j].path@ == p;
        lemma_file_map_of_get(latest.entries@, p, j);
        assert(entry_needs_download(previous@, latest.entries@[j]));
        lemma_download_path_complete(previous@, latest.entries@, j);
        assert(dp.contains(p));
        let i = choose|i: int| 0 <= i < dp.len() && dp[i] == p;
        assert(downloads[i]@ == p);
    }
    assert forall|p: Seq<char>| #[trigger] needs_removal(previous@, latest@, p) implies exists|
        i: int,
    | 0 <= i < removals.len() && removals[i]@ == p by {
        lemma_file_map_of_contains(previous.entries@, p);
        let j = choose|j: int| 0 <= j < previous.entries@.len() && previous.entries@[j].path@ == p;
        lemma_removal_path_complete(latest@, previous.entries@, j);
        assert(rp.contains(p));
        let i = choose|i: int| 0 <= i < rp.len() && rp[i] == p;
        assert(removals[i]@ == p);
    }

    // Distinctness, via the lists' own distinctness.
    assert forall|i: int, j: int| 0 <= i < j < downloads.len() implies downloads[i]@
        != downloads[j]@ by {
        lemma_download_paths_distinct_at(previous@, latest.entries@, i, j);
        assert(downloads[i]@ == dp[i] && downloads[j]@ == dp[j]);
    }
    assert forall|i: int, j: int| 0 <= i < j < removals.len() implies removals[i]@
        != removals[j]@ by {
        lemma_removal_paths_distinct_at(latest@, previous.entries@, i, j);
        assert(removals[i]@ == rp[i] && removals[j]@ == rp[j]);
    }

    // Identical maps mark nothing, so both lists are empty.
    if previous@ == latest@ {
        if downloads.len() > 0 {
            assert(needs_download(previous@, latest@, downloads[0]@));
        }
        if removals.len() > 0 {
            assert(needs_removal(previous@, latest@, removals[0]@));
        }
    }
}

} // verus!
