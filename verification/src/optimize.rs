//! The specification optimizer: groups download specifications by URL and
//! merges byte-contiguous ranges, so that as few physical HTTP requests as
//! possible fetch exactly the requested bytes.
//!
//! Each merged group carries an ordered list of `(destination, relative
//! offset)` pairs; cutting the merged range at those offsets reproduces the
//! original per-specification ranges byte for byte.

use vstd::prelude::*;
use vstd::multiset::Multiset;

use crate::plan::{DownloadRange, DownloadSpecification, SpecModel};

verus! {

/// One physical HTTP request: a URL, the ordered destinations with their
/// relative byte offsets within the fetched body, and optionally the byte
/// range to request (a missing range means the whole object).
#[derive(Debug, Clone)]
pub struct OptimizedDownloadSpecification {
    pub url: String,
    pub dest: Vec<(String, u64)>,
    pub range: Option<DownloadRange>,
}

/// The mathematical content of one optimized specification.
pub struct GroupModel {
    pub url: Seq<char>,
    pub dest: Seq<(Seq<char>, u64)>,
    pub range: Option<DownloadRange>,
}

impl View for OptimizedDownloadSpecification {
    type V = GroupModel;

    open spec fn view(&self) -> GroupModel {
        GroupModel {
            url: self.url@,
            dest: self.dest@.map_values(|p: (String, u64)| (p.0@, p.1)),
            range: self.range,
        }
    }
}

/// The models of a list of download specifications.
pub open spec fn sviews(s: Seq<DownloadSpecification>) -> Seq<SpecModel> {
    s.map_values(|x: DownloadSpecification| x@)
}

/// The models of a list of optimized specifications.
pub open spec fn gviews(s: Seq<OptimizedDownloadSpecification>) -> Seq<GroupModel> {
    s.map_values(|x: OptimizedDownloadSpecification| x@)
}

/// A well-formed group: at least one destination, the first at relative
/// offset zero, offsets in nondecreasing order. A ranged group's offsets
/// stay within its size and the range stays within the 64-bit address
/// space; a group without a range is a single whole-object fetch.
pub open spec fn wf_group(g: GroupModel) -> bool {
    &&& g.dest.len() >= 1
    &&& g.dest[0].1 == 0
    &&& forall|j: int, k: int| 0 <= j < k < g.dest.len() ==> g.dest[j].1 <= g.dest[k].1
    &&& match g.range {
        Some(r) => {
            &&& forall|j: int| 0 <= j < g.dest.len() ==> (#[trigger] g.dest[j]).1 <= r.size
            &&& r.start + r.size <= u64::MAX
        },
        None => g.dest.len() == 1,
    }
}

/// The end of destination `j`'s byte window within a group's body: the
/// next destination's offset, or the group's total size for the last one.
pub open spec fn atom_end(g: GroupModel, j: int) -> int {
    if j + 1 < g.dest.len() {
        g.dest[j + 1].1 as int
    } else {
        match g.range {
            Some(r) => r.size as int,
            None => g.dest[j].1 as int,
        }
    }
}

/// The original specification reproduced by destination `j` of a group:
/// same URL, that destination's path, and the slice of the group's range
/// between its offset and the next.
pub open spec fn atom(g: GroupModel, j: int) -> SpecModel {
    match g.range {
        Some(r) => SpecModel {
            url: g.url,
            dest: g.dest[j].0,
            range: Some(
                DownloadRange {
                    start: (r.start + g.dest[j].1) as u64,
                    size: (atom_end(g, j) - g.dest[j].1) as u64,
                },
            ),
        },
        None => SpecModel { url: g.url, dest: g.dest[j].0, range: None },
    }
}

/// The original specifications a group stands for, in offset order.
pub open spec fn group_atoms(g: GroupModel) -> Seq<SpecModel> {
    Seq::new(g.dest.len(), |j: int| atom(g, j))
}

/// The original specifications a list of groups stands for.
pub open spec fn groups_atoms(gs: Seq<GroupModel>) -> Seq<SpecModel>
    decreases gs.len(),
{
    if gs.len() == 0 {
        Seq::empty()
    } else {
        groups_atoms(gs.drop_last()) + group_atoms(gs.last())
    }
}

/// Every ranged specification's range fits the 64-bit address space.
pub open spec fn ranges_bounded(s: Seq<DownloadSpecification>) -> bool {
    forall|i: int|
        0 <= i < s.len() ==> match (#[trigger] s[i]).range {
            Some(r) => r.start + r.size <= u64::MAX,
            None => true,
        }
}

/// Ranged specifications sharing a URL never share a range start: the
/// planner's per-hash deduplication rules this out, and a release in
/// which it occurs anyway is a defect for the caller to surface, not an
/// input to coalesce silently.
pub open spec fn distinct_starts(s: Seq<DownloadSpecification>) -> bool {
    forall|i: int, j: int|
        0 <= i < j < s.len() && (#[trigger] s[i]).url@ == (#[trigger] s[j]).url@
            && s[i].range is Some && s[j].range is Some ==> s[i].range->0.start
            != s[j].range->0.start
}

/// Consecutive destinations of a well-formed ranged group are
/// byte-adjacent: each reproduced range starts exactly where the previous
/// one ends. A gap between two ranges therefore never hides inside one
/// physical request.
pub proof fn lemma_no_merge_on_gap(g: GroupModel, j: int)
    requires
        wf_group(g),
        g.range is Some,
        0 <= j < g.dest.len() - 1,
    ensures
        atom(g, j + 1).range->0.start == atom(g, j).range->0.start + atom(g, j).range->0.size,
{
    let r = g.range->0;
    assert(g.dest[j].1 <= g.dest[j + 1].1);
    assert(g.dest[j + 1].1 <= r.size);
}

/// Cutting the fetched body of a well-formed ranged group at destination
/// `j`'s window reproduces, byte for byte, the object's bytes of the
/// specification that destination came from.
pub proof fn lemma_coalescing_bytes(g: GroupModel, object: Seq<u8>, j: int)
    requires
        wf_group(g),
        g.range is Some,
        0 <= j < g.dest.len(),
        object.len() >= g.range->0.start + g.range->0.size,
    ensures
        ({
            let r = g.range->0;
            let body = object.subrange(r.start as int, r.start + r.size);
            let a = atom(g, j).range->0;
            body.subrange(g.dest[j].1 as int, atom_end(g, j)) == object.subrange(
                a.start as int,
                a.start + a.size,
            )
        }),
{
    let r = g.range->0;
    let body = object.subrange(r.start as int, r.start + r.size);
    let a = atom(g, j).range->0;
    assert(g.dest[j].1 <= r.size);
    if j + 1 < g.dest.len() {
        assert(g.dest[j + 1].1 <= r.size);
        assert(g.dest[j].1 <= g.dest[j + 1].1);
    }
    assert(body.subrange(g.dest[j].1 as int, atom_end(g, j)) =~= object.subrange(
        a.start as int,
        a.start + a.size,
    ));
}

/// Merges byte-contiguous runs of ranged specifications on one URL into
/// single physical requests.
///
/// The output's reproduced specifications are exactly the input, in order:
/// a specification is appended to the open group precisely when its range
/// starts where the group ends, and each destination is tagged with the
/// group-relative offset where its bytes begin. The groups come out in
/// ascending start order, and consecutive ones are never byte-adjacent,
/// so no merge opportunity between neighbours is missed.
#[verifier::rlimit(100)]
pub fn merge_ranged(specs: &Vec<DownloadSpecification>, url: &String) -> (r: Vec<
    OptimizedDownloadSpecification,
>)
    requires
        forall|i: int| 0 <= i < specs@.len() ==> (#[trigger] specs@[i]).range is Some,
        forall|i: int| 0 <= i < specs@.len() ==> (#[trigger] specs@[i]).url@ == url@,
        ranges_bounded(specs@),
        sorted_by_start(sviews(specs@)),
    ensures
        forall|k: int|
            0 <= k < r@.len() ==> wf_group(#[trigger] r@[k]@) && r@[k]@.url == url@
                && r@[k]@.range is Some,
        groups_atoms(gviews(r@)) == sviews(specs@),
        forall|k: int|
            1 <= k < r@.len() ==> (#[trigger] r@[k]@).range->0.start != r@[k - 1]@.range->0.start
                + r@[k - 1]@.range->0.size,
        forall|k: int, l: int|
            0 <= k < l < r@.len() ==> (#[trigger] r@[k]@).range->0.start <= (
            #[trigger] r@[l]@).range->0.start,
{
    let n = specs.len();
    let mut out: Vec<OptimizedDownloadSpecification> = Vec::new();
    let mut i: usize = 0;
    while i < n
        invariant
            n == specs@.len(),
            0 <= i <= n,
            forall|t: int| 0 <= t < specs@.len() ==> (#[trigger] specs@[t]).range is Some,
            forall|t: int| 0 <= t < specs@.len() ==> (#[trigger] specs@[t]).url@ == url@,
            ranges_bounded(specs@),
            sorted_by_start(sviews(specs@)),
            forall|k: int|
                0 <= k < out@.len() ==> wf_group(#[trigger] out@[k]@) && out@[k]@.url == url@
                    && out@[k]@.range is Some,
            groups_atoms(gviews(out@)) == sviews(specs@).subrange(0, i as int),
            forall|k: int, l: int|
                0 <= k < l < out@.len() ==> (#[trigger] out@[k]@).range->0.start <= (
                #[trigger] out@[l]@).range->0.start,
            forall|a: int, j: int|
                #![trigger out@[a], specs@[j]]
                0 <= a < out@.len() && i <= j < n ==> out@[a]@.range->0.start
                    <= specs@[j].range->0.start,
            forall|k: int|
                1 <= k < out@.len() ==> (#[trigger] out@[k]@).range->0.start != out@[k
                    - 1]@.range->0.start + out@[k - 1]@.range->0.size,
            out@.len() > 0 && i < n ==> specs@[i as int].range->0.start != out@.last()@.range->0.start
                + out@.last()@.range->0.size,
        decreases n - i,
    {
        let ghost i0 = i as int;
        proof {
            // Every group closed so far starts no later than the new
            // anchor, and the sorted input keeps that true of every
            // specification still to come.
            assert forall|a: int, j: int|
                #![trigger out@[a], specs@[j]]
                0 <= a < out@.len() && i0 <= j < n implies out@[a]@.range->0.start <= specs@[
                j
            ].range->0.start by {
                assert(out@[a]@.range->0.start <= specs@[i0].range->0.start);
                assert(start_of(sviews(specs@)[i0]) <= start_of(sviews(specs@)[j]));
                assert(sviews(specs@)[i0].range == specs@[i0].range);
                assert(sviews(specs@)[j].range == specs@[j].range);
            }
        }
        let r0 = specs[i].range.unwrap();
        let mut dest: Vec<(String, u64)> = Vec::new();
        dest.push((specs[i].dest.clone(), 0));
        let mut size: u64 = r0.size;
        i += 1;
        proof {
            let g = GroupModel {
                url: url@,
                dest: dest@.map_values(|p: (String, u64)| (p.0@, p.1)),
                range: Some(DownloadRange { start: r0.start, size: size }),
            };
            assert(group_atoms(g) =~= sviews(specs@).subrange(i0, i as int));
        }
        let mut extending: bool = true;
        while extending && i < n
            invariant
                n == specs@.len(),
                forall|t: int| 0 <= t < specs@.len() ==> (#[trigger] specs@[t]).range is Some,
                forall|t: int| 0 <= t < specs@.len() ==> (#[trigger] specs@[t]).url@ == url@,
                ranges_bounded(specs@),
                sorted_by_start(sviews(specs@)),
                0 <= i0 < i <= n,
                specs@[i0].range == Some(r0),
                dest@.len() == i - i0,
                dest@[0].1 == 0,
                forall|j: int, k: int| 0 <= j < k < dest@.len() ==> dest@[j].1 <= dest@[k].1,
                forall|j: int| 0 <= j < dest@.len() ==> (#[trigger] dest@[j]).1 <= size,
                r0.start + size <= u64::MAX,
                r0.start + size == specs@[i as int - 1].range->0.start + specs@[i as int
                    - 1].range->0.size,
                group_atoms(
                    GroupModel {
                        url: url@,
                        dest: dest@.map_values(|p: (String, u64)| (p.0@, p.1)),
                        range: Some(DownloadRange { start: r0.start, size: size }),
                    },
                ) == sviews(specs@).subrange(i0, i as int),
                !extending ==> i < n && specs@[i as int].range->0.start != r0.start + size,
            decreases n - i, (if extending {
                1int
            } else {
                0int
            }),
        {
            let rn = specs[i].range.unwrap();
            if rn.start == r0.start + size {
                let ghost old_dest = dest@;
                let ghost old_size = size;
                dest.push((specs[i].dest.clone(), size));
                size = size + rn.size;
                proof {
                    let dv = dest@.map_values(|p: (String, u64)| (p.0@, p.1));
                    let g_new = GroupModel {
                        url: url@,
                        dest: dv,
                        range: Some(DownloadRange { start: r0.start, size: size }),
                    };
                    let g_old = GroupModel {
                        url: url@,
                        dest: old_dest.map_values(|p: (String, u64)| (p.0@, p.1)),
                        range: Some(DownloadRange { start: r0.start, size: old_size }),
                    };
                    assert(dv =~= old_dest.map_values(|p: (String, u64)| (p.0@, p.1)).push(
                        (specs@[i as int].dest@, old_size),
                    ));
                    assert(atom(g_new, i - i0) == sviews(specs@)[i as int]);
                    assert forall|j: int| 0 <= j < i - i0 implies atom(g_new, j) == atom(
                        g_old,
                        j,
                    ) by {
                        assert(atom_end(g_new, j) == atom_end(g_old, j));
                    }
                    assert(group_atoms(g_new) =~= group_atoms(g_old).push(
                        sviews(specs@)[i as int],
                    ));
                    assert(sviews(specs@).subrange(i0, i as int + 1) =~= sviews(
                        specs@,
                    ).subrange(i0, i as int).push(sviews(specs@)[i as int]));
                }
                i += 1;
            } else {
                extending = false;
            }
        }
        let ghost old_out = out@;
        out.push(
            OptimizedDownloadSpecification {
                url: url.clone(),
                dest,
                range: Some(DownloadRange { start: r0.start, size }),
            },
        );
        proof {
            let g = out@.last()@;
            assert(gviews(out@).drop_last() =~= gviews(old_out));
            assert(gviews(out@).last() == g);
            assert(groups_atoms(gviews(out@)) == groups_atoms(gviews(old_out)) + group_atoms(g));
            assert(sviews(specs@).subrange(0, i0) + sviews(specs@).subrange(i0, i as int)
                =~= sviews(specs@).subrange(0, i as int));
            assert(wf_group(g));
            // The new group starts at its anchor, so every specification
            // still to come starts no earlier than any closed group.
            assert forall|a: int, j: int|
                #![trigger out@[a], specs@[j]]
                0 <= a < out@.len() && i <= j < n implies out@[a]@.range->0.start <= specs@[
                j
            ].range->0.start by {
                assert(start_of(sviews(specs@)[i0]) <= start_of(sviews(specs@)[j]));
                assert(sviews(specs@)[i0].range == specs@[i0].range);
                assert(sviews(specs@)[j].range == specs@[j].range);
                if a < old_out.len() {
                    assert(out@[a] == old_out[a]);
                } else {
                    assert(out@[a]@.range->0.start == r0.start);
                    assert(r0.start == specs@[i0].range->0.start);
                }
            }
        }
    }
    proof {
        assert(sviews(specs@).subrange(0, n as int) =~= sviews(specs@));
    }
    out
}


/// The distinct URLs of the specifications, in first-occurrence order.
pub open spec fn distinct_urls(s: Seq<SpecModel>) -> Seq<Seq<char>>
    decreases s.len(),
{
    if s.len() == 0 {
        Seq::empty()
    } else {
        let front = distinct_urls(s.drop_last());
        if front.contains(s.last().url) {
            front
        } else {
            front.push(s.last().url)
        }
    }
}

/// The specifications on one URL, in input order.
pub open spec fn url_filter(s: Seq<SpecModel>, u: Seq<char>) -> Seq<SpecModel>
    decreases s.len(),
{
    if s.len() == 0 {
        Seq::empty()
    } else {
        let front = url_filter(s.drop_last(), u);
        if s.last().url == u {
            front.push(s.last())
        } else {
            front
        }
    }
}

/// The specifications without a range, in input order.
pub open spec fn unranged_of(s: Seq<SpecModel>) -> Seq<SpecModel>
    decreases s.len(),
{
    if s.len() == 0 {
        Seq::empty()
    } else {
        let front = unranged_of(s.drop_last());
        if s.last().range is None {
            front.push(s.last())
        } else {
            front
        }
    }
}

/// The specifications with a range, in input order.
pub open spec fn ranged_of(s: Seq<SpecModel>) -> Seq<SpecModel>
    decreases s.len(),
{
    if s.len() == 0 {
        Seq::empty()
    } else {
        let front = ranged_of(s.drop_last());
        if s.last().range is Some {
            front.push(s.last())
        } else {
            front
        }
    }
}

/// The sort key for coalescing: a specification's range start, with a
/// whole-object fetch sorting first.
pub open spec fn start_of(m: SpecModel) -> int {
    match m.range {
        Some(r) => r.start as int,
        None => 0,
    }
}

/// The specifications are in ascending order of range start.
pub open spec fn sorted_by_start(s: Seq<SpecModel>) -> bool {
    forall|i: int, j: int| 0 <= i < j < s.len() ==> start_of(s[i]) <= start_of(s[j])
}

/// Two positions of the distinct-URL list hold distinct URLs.
pub proof fn lemma_distinct_urls_nodup(s: Seq<SpecModel>, k: int, l: int)
    requires
        0 <= k < l < distinct_urls(s).len(),
    ensures
        distinct_urls(s)[k] != distinct_urls(s)[l],
    decreases s.len(),
{
    let us = distinct_urls(s);
    let front = distinct_urls(s.drop_last());
    if l < front.len() {
        lemma_distinct_urls_nodup(s.drop_last(), k, l);
    } else {
        assert(!front.contains(us[l]));
        assert(front[k] == us[k]);
    }
}

/// Every specification's URL is listed.
pub proof fn lemma_distinct_urls_complete(s: Seq<SpecModel>, i: int)
    requires
        0 <= i < s.len(),
    ensures
        distinct_urls(s).contains(s[i].url),
    decreases s.len(),
{
    let us = distinct_urls(s);
    let front = distinct_urls(s.drop_last());
    if i < s.len() - 1 {
        assert(s.drop_last()[i] == s[i]);
        lemma_distinct_urls_complete(s.drop_last(), i);
        let j = choose|j: int| 0 <= j < front.len() && front[j] == s[i].url;
        assert(us[j] == s[i].url);
    } else {
        if front.contains(s.last().url) {
            let j = choose|j: int| 0 <= j < front.len() && front[j] == s.last().url;
            assert(us[j] == s[i].url);
        } else {
            assert(us.last() == s[i].url);
        }
    }
}

/// An empty sequence holds the empty multiset.
proof fn lemma_to_multiset_empty<A>(s: Seq<A>)
    requires
        s.len() == 0,
    ensures
        s.to_multiset() == Multiset::<A>::empty(),
{
    broadcast use vstd::multiset::group_multiset_axioms;

    vstd::seq_lib::to_multiset_len(s);
    vstd::multiset::lemma_multiset_empty_len(s.to_multiset());
    assert(s.to_multiset() =~= Multiset::<A>::empty());
}

/// A one-URL slice splits into its unranged and its ranged parts: together
/// they hold exactly its specifications.
pub proof fn lemma_split_multiset(s: Seq<SpecModel>)
    ensures
        unranged_of(s).to_multiset().add(ranged_of(s).to_multiset()) == s.to_multiset(),
    decreases s.len(),
{
    broadcast use vstd::multiset::group_multiset_axioms;

    if s.len() == 0 {
        lemma_to_multiset_empty(unranged_of(s));
        lemma_to_multiset_empty(ranged_of(s));
        lemma_to_multiset_empty(s);
        assert(unranged_of(s).to_multiset().add(ranged_of(s).to_multiset())
            =~= s.to_multiset());
    } else {
        lemma_split_multiset(s.drop_last());
        vstd::seq_lib::to_multiset_build(unranged_of(s.drop_last()), s.last());
        vstd::seq_lib::to_multiset_build(ranged_of(s.drop_last()), s.last());
        vstd::seq_lib::to_multiset_build(s.drop_last(), s.last());
        assert(s =~= s.drop_last().push(s.last()));
        assert(unranged_of(s).to_multiset().add(ranged_of(s).to_multiset())
            =~= s.to_multiset());
    }
}

/// The specifications of the first `k` URL slices, as a multiset.
pub open spec fn filters_ms(s: Seq<SpecModel>, urls: Seq<Seq<char>>, k: int) -> Multiset<
    SpecModel,
>
    decreases k,
{
    if k <= 0 {
        Multiset::empty()
    } else {
        filters_ms(s, urls, k - 1).add(url_filter(s, urls[k - 1]).to_multiset())
    }
}

/// With no specifications there is nothing in any slice.
pub proof fn lemma_filters_ms_empty(s: Seq<SpecModel>, urls: Seq<Seq<char>>, k: int)
    requires
        s.len() == 0,
    ensures
        filters_ms(s, urls, k) == Multiset::<SpecModel>::empty(),
    decreases k,
{
    broadcast use vstd::multiset::group_multiset_axioms;

    if k > 0 {
        lemma_filters_ms_empty(s, urls, k - 1);
        lemma_to_multiset_empty(url_filter(s, urls[k - 1]));
        assert(filters_ms(s, urls, k) =~= Multiset::<SpecModel>::empty());
    }
}

/// Appending one specification adds it to exactly the slice of its URL:
/// the first `k` slices gain it exactly when its URL is among the first
/// `k` URLs.
pub proof fn lemma_filters_ms_step(s0: Seq<SpecModel>, x: SpecModel, urls: Seq<Seq<char>>, k: int)
    requires
        forall|a: int, b: int| 0 <= a < b < urls.len() ==> urls[a] != urls[b],
        0 <= k <= urls.len(),
    ensures
        filters_ms(s0.push(x), urls, k) == if exists|t: int| 0 <= t < k && urls[t] == x.url {
            filters_ms(s0, urls, k).insert(x)
        } else {
            filters_ms(s0, urls, k)
        },
    decreases k,
{
    broadcast use vstd::multiset::group_multiset_axioms;

    if k > 0 {
        lemma_filters_ms_step(s0, x, urls, k - 1);
        let u = urls[k - 1];
        assert(s0.push(x).drop_last() =~= s0);
        if u == x.url {
            // This slice gains x; distinct URLs keep the earlier slices as
            // they were.
            assert(url_filter(s0.push(x), u) == url_filter(s0, u).push(x));
            vstd::seq_lib::to_multiset_build(url_filter(s0, u), x);
            assert(forall|t: int| 0 <= t < k - 1 ==> urls[t] != x.url);
            assert(filters_ms(s0.push(x), urls, k - 1) == filters_ms(s0, urls, k - 1));
            assert(filters_ms(s0.push(x), urls, k) =~= filters_ms(s0, urls, k).insert(x));
            assert(exists|t: int| 0 <= t < k && urls[t] == x.url);
        } else {
            assert(url_filter(s0.push(x), u) == url_filter(s0, u));
            if exists|t: int| 0 <= t < k - 1 && urls[t] == x.url {
                assert(filters_ms(s0.push(x), urls, k) =~= filters_ms(s0, urls, k).insert(x));
                assert(exists|t: int| 0 <= t < k && urls[t] == x.url);
            } else {
                assert(forall|t: int| 0 <= t < k && urls[t] == x.url ==> false);
                assert(filters_ms(s0.push(x), urls, k) =~= filters_ms(s0, urls, k));
            }
        }
    }
}

/// With pairwise-distinct URLs covering every specification, the URL
/// slices together hold exactly the specifications.
pub proof fn lemma_filters_ms_cover(s: Seq<SpecModel>, urls: Seq<Seq<char>>)
    requires
        forall|a: int, b: int| 0 <= a < b < urls.len() ==> urls[a] != urls[b],
        forall|i: int| 0 <= i < s.len() ==> urls.contains((#[trigger] s[i]).url),
    ensures
        filters_ms(s, urls, urls.len() as int) == s.to_multiset(),
    decreases s.len(),
{
    broadcast use vstd::multiset::group_multiset_axioms;

    if s.len() == 0 {
        lemma_filters_ms_empty(s, urls, urls.len() as int);
        lemma_to_multiset_empty(s);
        assert(filters_ms(s, urls, urls.len() as int) =~= s.to_multiset());
    } else {
        let s0 = s.drop_last();
        let x = s.last();
        assert forall|i: int| 0 <= i < s0.len() implies urls.contains((#[trigger] s0[i]).url) by {
            assert(s0[i] == s[i]);
        }
        lemma_filters_ms_cover(s0, urls);
        assert(s0.push(x) =~= s);
        assert(urls.contains(x.url));
        let t = choose|t: int| 0 <= t < urls.len() && urls[t] == x.url;
        lemma_filters_ms_step(s0, x, urls, urls.len() as int);
        vstd::seq_lib::to_multiset_build(s0, x);
    }
}

/// Collects the distinct URLs of the specifications, in first-occurrence
/// order.
fn collect_urls(specs: &Vec<DownloadSpecification>) -> (r: Vec<String>)
    ensures
        r@.map_values(|s: String| s@) == distinct_urls(sviews(specs@)),
{
    let mut urls: Vec<String> = Vec::new();
    let n = specs.len();
    let mut i: usize = 0;
    while i < n
        invariant
            n == specs@.len(),
            0 <= i <= n,
            urls@.map_values(|s: String| s@) == distinct_urls(sviews(specs@).subrange(0, i as int)),
        decreases n - i,
    {
        proof {
            assert(sviews(specs@).subrange(0, i as int + 1).drop_last() =~= sviews(
                specs@,
            ).subrange(0, i as int));
            assert(sviews(specs@).subrange(0, i as int + 1).last() == sviews(specs@)[i as int]);
        }
        if !crate::plan::contains_string(&urls, &specs[i].url) {
            urls.push(specs[i].url.clone());
            proof {
                assert(urls@.map_values(|s: String| s@) =~= distinct_urls(
                    sviews(specs@).subrange(0, i as int + 1),
                ));
            }
        }
        i += 1;
    }
    proof {
        assert(sviews(specs@).subrange(0, n as int) =~= sviews(specs@));
    }
    urls
}

/// Copies the specifications on one URL, in input order.
fn filter_by_url(specs: &Vec<DownloadSpecification>, url: &String) -> (r: Vec<
    DownloadSpecification,
>)
    ensures
        sviews(r@) == url_filter(sviews(specs@), url@),
{
    let mut out: Vec<DownloadSpecification> = Vec::new();
    let n = specs.len();
    let mut i: usize = 0;
    while i < n
        invariant
            n == specs@.len(),
            0 <= i <= n,
            sviews(out@) == url_filter(sviews(specs@).subrange(0, i as int), url@),
        decreases n - i,
    {
        proof {
            assert(sviews(specs@).subrange(0, i as int + 1).drop_last() =~= sviews(
                specs@,
            ).subrange(0, i as int));
            assert(sviews(specs@).subrange(0, i as int + 1).last() == sviews(specs@)[i as int]);
        }
        if specs[i].url == *url {
            out.push(
                DownloadSpecification {
                    url: specs[i].url.clone(),
                    dest: specs[i].dest.clone(),
                    range: specs[i].range,
                },
            );
            proof {
                assert(sviews(out@) =~= url_filter(
                    sviews(specs@).subrange(0, i as int + 1),
                    url@,
                ));
            }
        } else {
            proof {
                assert(sviews(out@) =~= url_filter(
                    sviews(specs@).subrange(0, i as int + 1),
                    url@,
                ));
            }
        }
        i += 1;
    }
    proof {
        assert(sviews(specs@).subrange(0, n as int) =~= sviews(specs@));
    }
    out
}

/// Splits a slice into `(whole-object fetches, ranged fetches)`, each in
/// input order.
fn split_ranged(specs: &Vec<DownloadSpecification>) -> (r: (
    Vec<DownloadSpecification>,
    Vec<DownloadSpecification>,
))
    ensures
        sviews(r.0@) == unranged_of(sviews(specs@)),
        sviews(r.1@) == ranged_of(sviews(specs@)),
{
    let mut unranged: Vec<DownloadSpecification> = Vec::new();
    let mut ranged: Vec<DownloadSpecification> = Vec::new();
    let n = specs.len();
    let mut i: usize = 0;
    while i < n
        invariant
            n == specs@.len(),
            0 <= i <= n,
            sviews(unranged@) == unranged_of(sviews(specs@).subrange(0, i as int)),
            sviews(ranged@) == ranged_of(sviews(specs@).subrange(0, i as int)),
        decreases n - i,
    {
        proof {
            assert(sviews(specs@).subrange(0, i as int + 1).drop_last() =~= sviews(
                specs@,
            ).subrange(0, i as int));
            assert(sviews(specs@).subrange(0, i as int + 1).last() == sviews(specs@)[i as int]);
        }
        let copy = DownloadSpecification {
            url: specs[i].url.clone(),
            dest: specs[i].dest.clone(),
            range: specs[i].range,
        };
        if copy.range.is_some() {
            ranged.push(copy);
        } else {
            unranged.push(copy);
        }
        proof {
            assert(sviews(unranged@) =~= unranged_of(
                sviews(specs@).subrange(0, i as int + 1),
            ));
            assert(sviews(ranged@) =~= ranged_of(sviews(specs@).subrange(0, i as int + 1)));
        }
        i += 1;
    }
    proof {
        assert(sviews(specs@).subrange(0, n as int) =~= sviews(specs@));
    }
    (unranged, ranged)
}

/// Sorts specifications ascending by range start (selection sort), keeping
/// exactly the given specifications.
fn sort_by_start(specs: Vec<DownloadSpecification>) -> (r: Vec<DownloadSpecification>)
    ensures
        sviews(r@).to_multiset() == sviews(specs@).to_multiset(),
        sorted_by_start(sviews(r@)),
        forall|k: int| 0 <= k < r@.len() ==> sviews(specs@).contains(#[trigger] r@[k]@),
{
    let ghost orig = sviews(specs@);
    let mut rest = specs;
    let mut out: Vec<DownloadSpecification> = Vec::new();
    proof {
        broadcast use vstd::multiset::group_multiset_axioms;

        lemma_to_multiset_empty(sviews(out@));
        assert(sviews(out@).to_multiset().add(sviews(rest@).to_multiset())
            =~= orig.to_multiset());
    }
    while rest.len() > 0
        invariant
            sviews(out@).to_multiset().add(sviews(rest@).to_multiset()) == orig.to_multiset(),
            sorted_by_start(sviews(out@)),
            forall|a: int, b: int|
                0 <= a < out@.len() && 0 <= b < rest@.len() ==> start_of(sviews(out@)[a])
                    <= start_of(sviews(rest@)[b]),
        decreases rest.len(),
    {
        let mut m: usize = 0;
        let mut k: usize = 1;
        let mut m_start: u64 = match rest[0].range {
            Some(rg) => rg.start,
            None => 0,
        };
        while k < rest.len()
            invariant
                0 <= m < rest@.len(),
                0 <= k <= rest@.len(),
                m_start == start_of(sviews(rest@)[m as int]),
                forall|t: int|
                    0 <= t < k ==> start_of(sviews(rest@)[m as int]) <= start_of(
                        sviews(rest@)[t],
                    ),
            decreases rest.len() - k,
        {
            let k_start: u64 = match rest[k].range {
                Some(rg) => rg.start,
                None => 0,
            };
            if k_start < m_start {
                m = k;
                m_start = k_start;
            }
            k += 1;
        }
        let ghost rest0 = sviews(rest@);
        let x = rest.remove(m);
        proof {
            broadcast use vstd::multiset::group_multiset_axioms;

            let mi = m as int;
            assert(sviews(rest@) =~= rest0.remove(mi));
            vstd::seq_lib::to_multiset_remove(rest0, mi);
            vstd::seq_lib::to_multiset_contains(rest0, x@);
            vstd::seq_lib::to_multiset_build(sviews(out@), x@);
            assert(rest0.contains(x@));
            assert(sviews(out@.push(x)) =~= sviews(out@).push(x@));
            assert(sviews(out@.push(x)).to_multiset().add(sviews(rest@).to_multiset())
                =~= sviews(out@).to_multiset().add(rest0.to_multiset()));
            assert forall|b: int| 0 <= b < sviews(rest@).len() implies start_of(x@) <= start_of(
                sviews(rest@)[b],
            ) by {
                if b < mi {
                    assert(sviews(rest@)[b] == rest0[b]);
                } else {
                    assert(sviews(rest@)[b] == rest0[b + 1]);
                }
            }
        }
        out.push(x);
    }
    proof {
        broadcast use vstd::multiset::group_multiset_axioms;

        assert forall|e: SpecModel| sviews(out@).to_multiset().count(e)
            == orig.to_multiset().count(e) by {
            vstd::seq_lib::to_multiset_contains(sviews(rest@), e);
        }
        assert(sviews(out@).to_multiset() =~= orig.to_multiset());
        assert forall|k: int| 0 <= k < out@.len() implies orig.contains(
            #[trigger] out@[k]@,
        ) by {
            assert(sviews(out@)[k] == out@[k]@);
            assert(sviews(out@).contains(out@[k]@));
            vstd::seq_lib::to_multiset_contains(sviews(out@), out@[k]@);
            vstd::seq_lib::to_multiset_contains(orig, out@[k]@);
        }
    }
    out
}

/// Every specification of a URL slice is on that URL and comes from the
/// input.
pub proof fn lemma_url_filter_at(s: Seq<SpecModel>, u: Seq<char>, i: int)
    requires
        0 <= i < url_filter(s, u).len(),
    ensures
        url_filter(s, u)[i].url == u,
        s.contains(url_filter(s, u)[i]),
    decreases s.len(),
{
    let f = url_filter(s, u);
    let front = url_filter(s.drop_last(), u);
    if i < front.len() {
        lemma_url_filter_at(s.drop_last(), u, i);
        let j = choose|j: int| 0 <= j < s.drop_last().len() && s.drop_last()[j] == front[i];
        assert(s[j] == f[i]);
    } else {
        assert(f[i] == s.last());
        assert(s[s.len() - 1] == f[i]);
    }
}

/// Every ranged-part specification has a range and comes from the input.
pub proof fn lemma_ranged_of_at(s: Seq<SpecModel>, i: int)
    requires
        0 <= i < ranged_of(s).len(),
    ensures
        ranged_of(s)[i].range is Some,
        s.contains(ranged_of(s)[i]),
    decreases s.len(),
{
    let f = ranged_of(s);
    let front = ranged_of(s.drop_last());
    if i < front.len() {
        lemma_ranged_of_at(s.drop_last(), i);
        let j = choose|j: int| 0 <= j < s.drop_last().len() && s.drop_last()[j] == front[i];
        assert(s[j] == f[i]);
    } else {
        assert(f[i] == s.last());
        assert(s[s.len() - 1] == f[i]);
    }
}

/// Every unranged-part specification has no range and comes from the
/// input.
pub proof fn lemma_unranged_of_at(s: Seq<SpecModel>, i: int)
    requires
        0 <= i < unranged_of(s).len(),
    ensures
        unranged_of(s)[i].range is None,
        s.contains(unranged_of(s)[i]),
    decreases s.len(),
{
    let f = unranged_of(s);
    let front = unranged_of(s.drop_last());
    if i < front.len() {
        lemma_unranged_of_at(s.drop_last(), i);
        let j = choose|j: int| 0 <= j < s.drop_last().len() && s.drop_last()[j] == front[i];
        assert(s[j] == f[i]);
    } else {
        assert(f[i] == s.last());
        assert(s[s.len() - 1] == f[i]);
    }
}

/// Facts about one URL's slice: its ranged members carry bounded ranges
/// and its URL; its unranged members carry its URL.
proof fn lemma_slice_member_facts(
    specs: Seq<DownloadSpecification>,
    sv: Seq<SpecModel>,
    u: Seq<char>,
    fv: Seq<SpecModel>,
    rangedv: Seq<SpecModel>,
    unrangedv: Seq<SpecModel>,
)
    requires
        sv == sviews(specs),
        ranges_bounded(specs),
        fv == url_filter(sv, u),
        rangedv == ranged_of(fv),
        unrangedv == unranged_of(fv),
    ensures
        forall|t: int|
            0 <= t < rangedv.len() ==> {
                &&& (#[trigger] rangedv[t]).range is Some
                &&& rangedv[t].url == u
                &&& rangedv[t].range->0.start + rangedv[t].range->0.size <= u64::MAX
            },
        forall|t: int|
            0 <= t < unrangedv.len() ==> {
                &&& (#[trigger] unrangedv[t]).range is None
                &&& unrangedv[t].url == u
            },
{
    assert forall|t: int| 0 <= t < rangedv.len() implies {
        &&& (#[trigger] rangedv[t]).range is Some
        &&& rangedv[t].url == u
        &&& rangedv[t].range->0.start + rangedv[t].range->0.size <= u64::MAX
    } by {
        lemma_ranged_of_at(fv, t);
        let a = choose|a: int| 0 <= a < fv.len() && fv[a] == rangedv[t];
        lemma_url_filter_at(sv, u, a);
        let b = choose|b: int| 0 <= b < sv.len() && sv[b] == fv[a];
        assert(specs[b]@ == sv[b]);
    }
    assert forall|t: int| 0 <= t < unrangedv.len() implies {
        &&& (#[trigger] unrangedv[t]).range is None
        &&& unrangedv[t].url == u
    } by {
        lemma_unranged_of_at(fv, t);
        let a = choose|a: int| 0 <= a < fv.len() && fv[a] == unrangedv[t];
        lemma_url_filter_at(sv, u, a);
    }
}

/// Facts about the sorted ranged slice, carried over from the unsorted
/// one element by element.
proof fn lemma_sorted_member_facts(
    sorted: Seq<DownloadSpecification>,
    rangedv: Seq<SpecModel>,
    u: Seq<char>,
)
    requires
        forall|t: int| 0 <= t < sorted.len() ==> rangedv.contains((#[trigger] sorted[t])@),
        forall|t: int|
            0 <= t < rangedv.len() ==> {
                &&& (#[trigger] rangedv[t]).range is Some
                &&& rangedv[t].url == u
                &&& rangedv[t].range->0.start + rangedv[t].range->0.size <= u64::MAX
            },
    ensures
        forall|t: int| 0 <= t < sorted.len() ==> (#[trigger] sorted[t]).range is Some,
        forall|t: int| 0 <= t < sorted.len() ==> (#[trigger] sorted[t]).url@ == u,
        ranges_bounded(sorted),
{
    assert forall|t: int| 0 <= t < sorted.len() implies {
        &&& (#[trigger] sorted[t]).range is Some
        &&& sorted[t].url@ == u
        &&& match sorted[t].range {
            Some(rg) => rg.start + rg.size <= u64::MAX,
            None => true,
        }
    } by {
        let a = choose|a: int| 0 <= a < rangedv.len() && rangedv[a] == sorted[t]@;
    }
}

/// Sums up one URL round: appending this URL's unranged singles and its
/// merged ranged groups extends the processed multiset by exactly this
/// URL's slice, and keeps every group property.
proof fn lemma_round_summary(
    sv: Seq<SpecModel>,
    uv: Seq<Seq<char>>,
    k: int,
    base1: Seq<OptimizedDownloadSpecification>,
    base2: Seq<OptimizedDownloadSpecification>,
    out: Seq<OptimizedDownloadSpecification>,
    merged0: Seq<OptimizedDownloadSpecification>,
    fv: Seq<SpecModel>,
    unrangedv: Seq<SpecModel>,
    sortv: Seq<SpecModel>,
)
    requires
        uv == distinct_urls(sv),
        0 <= k < uv.len(),
        fv == url_filter(sv, uv[k]),
        unrangedv == unranged_of(fv),
        sortv.to_multiset() == ranged_of(fv).to_multiset(),
        groups_atoms(gviews(base1)).to_multiset() == filters_ms(sv, uv, k),
        groups_atoms(gviews(base2)) == groups_atoms(gviews(base1)) + unrangedv,
        groups_atoms(gviews(merged0)) == sortv,
        groups_atoms(gviews(out)) == groups_atoms(gviews(base2)) + groups_atoms(
            gviews(merged0),
        ),
        base1.len() <= base2.len() <= out.len(),
        out.len() == base2.len() + merged0.len(),
        forall|a: int| 0 <= a < base2.len() ==> out[a] == base2[a],
        forall|a: int| base2.len() <= a < out.len() ==> out[a] == merged0[a - base2.len()],
        forall|a: int| 0 <= a < base1.len() ==> base2[a] == base1[a],
        forall|a: int|
            base1.len() <= a < base2.len() ==> ((#[trigger] base2[a])@).url == uv[k]
                && base2[a]@.range is None && wf_group(base2[a]@),
        forall|a: int| 0 <= a < base1.len() ==> wf_group((#[trigger] base1[a])@),
        forall|a: int|
            0 <= a < base1.len() ==> uv.subrange(0, k).contains((#[trigger] base1[a]@).url),
        forall|a: int|
            1 <= a < base1.len() && ((#[trigger] base1[a])@).url == base1[a - 1]@.url && base1[a]@.range is Some && base1[a - 1]@.range is Some ==> base1[a]@.range->0.start != base1[
                a - 1
            ]@.range->0.start + base1[a - 1]@.range->0.size,
        forall|a: int|
            0 <= a < merged0.len() ==> wf_group((#[trigger] merged0[a])@) && merged0[a]@.url
                == uv[k] && merged0[a]@.range is Some,
        forall|a: int|
            1 <= a < merged0.len() ==> ((#[trigger] merged0[a])@).range->0.start != merged0[a
                - 1]@.range->0.start + merged0[a - 1]@.range->0.size,
        forall|a: int, b: int|
            0 <= a < b < merged0.len() ==> ((#[trigger] merged0[a])@).range->0.start <= ((
            #[trigger] merged0[b])@).range->0.start,
        forall|a: int, b: int, c: int|
            #![trigger base1[a], base1[b], base1[c]]
            0 <= a < b < c < base1.len() && base1[a]@.url == base1[c]@.url ==> base1[b]@.url
                == base1[a]@.url,
        forall|a: int, b: int|
            0 <= a < b < base1.len() && ((#[trigger] base1[a])@).url == ((
            #[trigger] base1[b])@).url && base1[a]@.range is Some && base1[b]@.range is Some
                ==> base1[a]@.range->0.start <= base1[b]@.range->0.start,
    ensures
        groups_atoms(gviews(out)).to_multiset() == filters_ms(sv, uv, k + 1),
        forall|a: int| 0 <= a < out.len() ==> wf_group((#[trigger] out[a])@),
        forall|a: int|
            0 <= a < out.len() ==> uv.subrange(0, k + 1).contains((#[trigger] out[a]@).url),
        forall|a: int|
            1 <= a < out.len() && ((#[trigger] out[a])@).url == out[a - 1]@.url && out[a]@.range is Some && out[a - 1]@.range is Some ==> out[a]@.range->0.start != out[a
                - 1]@.range->0.start + out[a - 1]@.range->0.size,
        forall|a: int, b: int, c: int|
            #![trigger out[a], out[b], out[c]]
            0 <= a < b < c < out.len() && out[a]@.url == out[c]@.url ==> out[b]@.url
                == out[a]@.url,
        forall|a: int, b: int|
            0 <= a < b < out.len() && ((#[trigger] out[a])@).url == ((#[trigger] out[b])@).url
                && out[a]@.range is Some && out[b]@.range is Some ==> out[a]@.range->0.start
                <= out[b]@.range->0.start,
{
    broadcast use vstd::multiset::group_multiset_axioms;

    // The multiset of reproduced specifications grows by this URL's slice.
    vstd::seq_lib::lemma_multiset_commutative(groups_atoms(gviews(base1)), unrangedv);
    vstd::seq_lib::lemma_multiset_commutative(
        groups_atoms(gviews(base2)),
        groups_atoms(gviews(merged0)),
    );
    lemma_split_multiset(fv);
    assert(groups_atoms(gviews(out)).to_multiset() =~= filters_ms(sv, uv, k).add(
        fv.to_multiset(),
    ));
    assert(groups_atoms(gviews(out)).to_multiset() == filters_ms(sv, uv, k + 1));

    // Well-formedness, URL membership, and non-adjacency carry over to
    // the extended list.
    assert forall|a: int| 0 <= a < out.len() implies wf_group((#[trigger] out[a])@) by {
        if a >= base2.len() {
            assert(out[a] == merged0[a - base2.len()]);
        } else if a >= base1.len() {
            assert(out[a] == base2[a]);
        } else {
            assert(out[a] == base1[a]);
        }
    }
    assert forall|a: int| 0 <= a < out.len() implies uv.subrange(0, k + 1).contains(
        (#[trigger] out[a]@).url,
    ) by {
        if a < base1.len() {
            assert(uv.subrange(0, k).contains(base1[a]@.url));
            let w = choose|w: int| 0 <= w < k && uv.subrange(0, k)[w] == base1[a]@.url;
            assert(uv.subrange(0, k + 1)[w] == out[a]@.url);
        } else {
            assert(out[a]@.url == uv[k]);
            assert(uv.subrange(0, k + 1)[k] == uv[k]);
        }
    }
    assert forall|a: int|
        1 <= a < out.len() && ((#[trigger] out[a])@).url == out[a - 1]@.url && out[a]@.range is Some && out[a - 1]@.range is Some implies out[a]@.range->0.start != out[a
        - 1]@.range->0.start + out[a - 1]@.range->0.size by {
        if a < base1.len() {
            assert(out[a] == base1[a] && out[a - 1] == base1[a - 1]);
        } else if a - 1 >= base2.len() {
            assert(out[a] == merged0[a - base2.len()]);
            assert(out[a - 1] == merged0[a - 1 - base2.len()]);
        } else if a - 1 >= base1.len() {
            assert(out[a - 1] == base2[a - 1]);
            assert(base2[a - 1]@.range is None);
        } else {
            // The earlier group belongs to an earlier URL, so the URLs
            // differ and the claim is vacuous.
            assert(out[a - 1] == base1[a - 1]);
            assert(uv.subrange(0, k).contains(base1[a - 1]@.url));
            let w = choose|w: int| 0 <= w < k && uv.subrange(0, k)[w] == base1[a - 1]@.url;
            assert(uv[w] == out[a - 1]@.url);
            assert(out[a]@.url == uv[k]);
            lemma_distinct_urls_nodup(sv, w, k);
        }
    }
    // Groups of one URL stay contiguous: an old group can never share its
    // URL with one of this round's groups.
    assert forall|a: int, b: int, c: int|
        #![trigger out[a], out[b], out[c]]
        0 <= a < b < c < out.len() && out[a]@.url == out[c]@.url implies out[b]@.url
        == out[a]@.url by {
        if c < base1.len() {
            assert(out[a] == base1[a] && out[b] == base1[b] && out[c] == base1[c]);
        } else {
            assert(out[c]@.url == uv[k]);
            if a >= base1.len() {
                assert(out[b]@.url == uv[k]);
            } else {
                assert(out[a] == base1[a]);
                assert(uv.subrange(0, k).contains(base1[a]@.url));
                let w = choose|w: int| 0 <= w < k && uv.subrange(0, k)[w] == base1[a]@.url;
                lemma_distinct_urls_nodup(sv, w, k);
            }
        }
    }
    // Within a URL, the ranged groups appear in ascending start order.
    assert forall|a: int, b: int|
        0 <= a < b < out.len() && ((#[trigger] out[a])@).url == ((#[trigger] out[b])@).url
            && out[a]@.range is Some && out[b]@.range is Some implies out[a]@.range->0.start
        <= out[b]@.range->0.start by {
        if b < base1.len() {
            assert(out[a] == base1[a] && out[b] == base1[b]);
        } else if a >= base2.len() {
            assert(out[a] == merged0[a - base2.len()]);
            assert(out[b] == merged0[b - base2.len()]);
        } else if a >= base1.len() {
            // A whole-object single of this round carries no range.
            assert(out[a] == base2[a]);
            assert(base2[a]@.range is None);
        } else {
            // An old group shares no URL with this round's groups.
            assert(out[a] == base1[a]);
            assert(out[b]@.url == uv[k]);
            assert(uv.subrange(0, k).contains(base1[a]@.url));
            let w = choose|w: int| 0 <= w < k && uv.subrange(0, k)[w] == base1[a]@.url;
            lemma_distinct_urls_nodup(sv, w, k);
        }
    }
}

/// Groups the download specifications by URL and coalesces contiguous
/// ranges into single physical requests.
///
/// URLs are processed in first-occurrence order; within a URL, the
/// whole-object fetches come first as single-destination groups, then the
/// ranged fetches, sorted by start and merged wherever one range begins
/// exactly where the previous one ends. Every group is well formed, the
/// groups together reproduce exactly the input specifications, one URL's
/// groups stay contiguous with their ranged ones in ascending start
/// order, and two consecutive groups on one URL are never byte-adjacent —
/// together this leaves no merge unmade.
pub fn optimize_specs(specs: &Vec<DownloadSpecification>) -> (r: Vec<
    OptimizedDownloadSpecification,
>)
    requires
        ranges_bounded(specs@),
        distinct_starts(specs@),
    ensures
        forall|k: int| 0 <= k < r@.len() ==> wf_group(#[trigger] r@[k]@),
        groups_atoms(gviews(r@)).to_multiset() == sviews(specs@).to_multiset(),
        forall|k: int|
            1 <= k < r@.len() && (#[trigger] r@[k]@).url == r@[k - 1]@.url && r@[k]@.range is Some
                && r@[k - 1]@.range is Some ==> r@[k]@.range->0.start != r@[k - 1]@.range->0.start
                + r@[k - 1]@.range->0.size,
        forall|a: int, b: int, c: int|
            #![trigger r@[a], r@[b], r@[c]]
            0 <= a < b < c < r@.len() && r@[a]@.url == r@[c]@.url ==> r@[b]@.url == r@[a]@.url,
        forall|a: int, b: int|
            0 <= a < b < r@.len() && ((#[trigger] r@[a])@).url == ((#[trigger] r@[b])@).url
                && r@[a]@.range is Some && r@[b]@.range is Some ==> r@[a]@.range->0.start
                <= r@[b]@.range->0.start,
{
    let ghost sv = sviews(specs@);
    let urls = collect_urls(specs);
    let ghost uv = urls@.map_values(|s: String| s@);
    let mut out: Vec<OptimizedDownloadSpecification> = Vec::new();
    proof {
        lemma_to_multiset_empty(groups_atoms(gviews(out@)));
    }
    let nu = urls.len();
    let mut k: usize = 0;
    while k < nu
        invariant
            ranges_bounded(specs@),
            sv == sviews(specs@),
            nu == urls@.len(),
            uv == urls@.map_values(|s: String| s@),
            uv == distinct_urls(sv),
            0 <= k <= nu,
            forall|t: int| 0 <= t < out@.len() ==> wf_group(#[trigger] out@[t]@),
            groups_atoms(gviews(out@)).to_multiset() == filters_ms(sv, uv, k as int),
            forall|t: int|
                1 <= t < out@.len() && (#[trigger] out@[t]@).url == out@[t - 1]@.url
                    && out@[t]@.range is Some && out@[t - 1]@.range is Some ==> out@[
                t]@.range->0.start != out@[t - 1]@.range->0.start + out@[t - 1]@.range->0.size,
            forall|t: int|
                0 <= t < out@.len() ==> uv.subrange(0, k as int).contains(
                    (#[trigger] out@[t]@).url,
                ),
            forall|a: int, b: int, c: int|
                #![trigger out@[a], out@[b], out@[c]]
                0 <= a < b < c < out@.len() && out@[a]@.url == out@[c]@.url ==> out@[b]@.url
                    == out@[a]@.url,
            forall|a: int, b: int|
                0 <= a < b < out@.len() && ((#[trigger] out@[a])@).url == ((
                #[trigger] out@[b])@).url && out@[a]@.range is Some && out@[b]@.range is Some
                    ==> out@[a]@.range->0.start <= out@[b]@.range->0.start,
        decreases nu - k,
    {
        let group = filter_by_url(specs, &urls[k]);
        let (unranged, ranged) = split_ranged(&group);
        let ghost fv = url_filter(sv, uv[k as int]);
        proof {
            assert(urls@[k as int]@ == uv[k as int]);
            lemma_slice_member_facts(
                specs@,
                sv,
                uv[k as int],
                fv,
                sviews(ranged@),
                sviews(unranged@),
            );
        }
        let sorted = sort_by_start(ranged);
        proof {
            assert forall|t: int| 0 <= t < sorted@.len() implies sviews(ranged@).contains(
                (#[trigger] sorted@[t])@,
            ) by {}
            lemma_sorted_member_facts(sorted@, sviews(ranged@), uv[k as int]);
        }
        let merged = merge_ranged(&sorted, &urls[k]);

        let ghost base1 = out@;
        let n_unr = unranged.len();
        let mut t: usize = 0;
        while t < n_unr
            invariant
                n_unr == unranged@.len(),
                0 <= t <= n_unr,
                nu == urls@.len(),
                uv == urls@.map_values(|s: String| s@),
                0 <= k < nu,
                forall|tt: int|
                    0 <= tt < sviews(unranged@).len() ==> {
                        &&& (#[trigger] sviews(unranged@)[tt]).range is None
                        &&& sviews(unranged@)[tt].url == uv[k as int]
                    },
                out@.len() == base1.len() + t,
                forall|a: int| 0 <= a < base1.len() ==> out@[a] == base1[a],
                forall|a: int|
                    base1.len() <= a < out@.len() ==> (#[trigger] out@[a]@).url == uv[k as int]
                        && out@[a]@.range is None && wf_group(out@[a]@),
                groups_atoms(gviews(out@)) == groups_atoms(gviews(base1)) + sviews(
                    unranged@,
                ).subrange(0, t as int),
            decreases n_unr - t,
        {
            let mut d: Vec<(String, u64)> = Vec::new();
            d.push((unranged[t].dest.clone(), 0));
            let ghost out_before = out@;
            out.push(
                OptimizedDownloadSpecification { url: urls[k].clone(), dest: d, range: None },
            );
            proof {
                let g = out@.last()@;
                assert(g.dest =~= seq![(unranged@[t as int].dest@, 0u64)]);
                assert(atom(g, 0) == sviews(unranged@)[t as int]);
                assert(group_atoms(g) =~= seq![sviews(unranged@)[t as int]]);
                assert(gviews(out@).drop_last() =~= gviews(out_before));
                assert(groups_atoms(gviews(out@)) == groups_atoms(gviews(out_before))
                    + group_atoms(g));
                assert(groups_atoms(gviews(base1)) + sviews(unranged@).subrange(0, t as int)
                    + seq![sviews(unranged@)[t as int]] =~= groups_atoms(gviews(base1)) + sviews(
                    unranged@,
                ).subrange(0, t as int + 1));
                assert(wf_group(g));
            }
            t += 1;
        }
        proof {
            assert(sviews(unranged@).subrange(0, n_unr as int) =~= sviews(unranged@));
        }

        let ghost base2 = out@;
        let ghost merged0 = merged@;
        let mut rest = merged;
        while rest.len() > 0
            invariant
                forall|a: int|
                    0 <= a < merged0.len() ==> wf_group((#[trigger] merged0[a])@),
                rest@.len() <= merged0.len(),
                rest@ == merged0.subrange(
                    merged0.len() - rest@.len(),
                    merged0.len() as int,
                ),
                out@.len() == base2.len() + merged0.len() - rest@.len(),
                forall|a: int| 0 <= a < base2.len() ==> out@[a] == base2[a],
                forall|a: int|
                    base2.len() <= a < out@.len() ==> out@[a] == merged0[a - base2.len()],
                groups_atoms(gviews(out@)) == groups_atoms(gviews(base2)) + groups_atoms(
                    gviews(merged0.subrange(0, merged0.len() - rest@.len())),
                ),
            decreases rest.len(),
        {
            let ghost consumed = merged0.len() - rest@.len();
            let g = rest.remove(0);
            let ghost out_before = out@;
            out.push(g);
            proof {
                assert(g == merged0[consumed]);
                assert(rest@ =~= merged0.subrange(consumed + 1, merged0.len() as int));
                assert(gviews(out@).drop_last() =~= gviews(out_before));
                assert(groups_atoms(gviews(out@)) == groups_atoms(gviews(out_before))
                    + group_atoms(g@));
                let pre = merged0.subrange(0, consumed);
                let pre1 = merged0.subrange(0, consumed + 1);
                assert(gviews(pre1).drop_last() =~= gviews(pre));
                assert(gviews(pre1).last() == merged0[consumed]@);
                assert(groups_atoms(gviews(pre1)) == groups_atoms(gviews(pre)) + group_atoms(
                    g@,
                ));
                assert(groups_atoms(gviews(base2)) + groups_atoms(gviews(pre)) + group_atoms(g@)
                    =~= groups_atoms(gviews(base2)) + groups_atoms(gviews(pre1)));
            }
        }
        proof {
            assert(merged0.subrange(0, merged0.len() as int) =~= merged0);
            lemma_round_summary(
                sv,
                uv,
                k as int,
                base1,
                base2,
                out@,
                merged0,
                fv,
                sviews(unranged@),
                sviews(sorted@),
            );
            assert(uv.subrange(0, k as int + 1) =~= uv.subrange(0, (k + 1) as int));
        }
        k += 1;
    }
    proof {
        assert forall|i: int| 0 <= i < sv.len() implies uv.contains((#[trigger] sv[i]).url) by {
            lemma_distinct_urls_complete(sv, i);
        }
        assert forall|a: int, b: int| 0 <= a < b < uv.len() implies uv[a] != uv[b] by {
            lemma_distinct_urls_nodup(sv, a, b);
        }
        lemma_filters_ms_cover(sv, uv);
    }
    out
}


/// Whether two destination lists carry the same paths and offsets.
fn dests_eq(a: &Vec<(String, u64)>, b: &Vec<(String, u64)>) -> (r: bool)
    ensures
        r == (a@.map_values(|p: (String, u64)| (p.0@, p.1)) == b@.map_values(
            |p: (String, u64)| (p.0@, p.1),
        )),
{
    let ghost av = a@.map_values(|p: (String, u64)| (p.0@, p.1));
    let ghost bv = b@.map_values(|p: (String, u64)| (p.0@, p.1));
    if a.len() != b.len() {
        proof {
            assert(av.len() != bv.len());
        }
        return false;
    }
    let n = a.len();
    let mut i: usize = 0;
    while i < n
        invariant
            av == a@.map_values(|p: (String, u64)| (p.0@, p.1)),
            bv == b@.map_values(|p: (String, u64)| (p.0@, p.1)),
            n == a@.len() == b@.len(),
            0 <= i <= n,
            forall|k: int| 0 <= k < i ==> av[k] == bv[k],
        decreases n - i,
    {
        if !(a[i].0 == b[i].0) || a[i].1 != b[i].1 {
            proof {
                assert(av[i as int] != bv[i as int]);
            }
            return false;
        }
        i += 1;
    }
    proof {
        assert(av =~= bv);
    }
    true
}

impl PartialEq for OptimizedDownloadSpecification {
    fn eq(&self, other: &Self) -> (r: bool) {
        let range_eq = match (self.range, other.range) {
            (None, None) => true,
            (Some(a), Some(b)) => a == b,
            _ => false,
        };
        self.url == other.url && dests_eq(&self.dest, &other.dest) && range_eq
    }
}

impl vstd::std_specs::cmp::PartialEqSpecImpl for OptimizedDownloadSpecification {
    open spec fn obeys_eq_spec() -> bool {
        true
    }

    open spec fn eq_spec(&self, other: &Self) -> bool {
        self.url@ == other.url@ && self.dest@.map_values(|p: (String, u64)| (p.0@, p.1))
            == other.dest@.map_values(|p: (String, u64)| (p.0@, p.1)) && self.range == other.range
    }
}

} // verus!
