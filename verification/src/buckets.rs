//! Size buckets: the regular files of a walk, sorted by exact size.

use crate::options::Options;
use crate::seqs::lemma_filter_take_step;
use crate::types::{views_of, Error, FileInfo, FileInfoView};
use std::collections::HashMap;
use vstd::prelude::*;
use vstd::std_specs::iter::IteratorSpec;

verus! {

broadcast use vstd::std_specs::hash::group_hash_axioms;

/// What the metadata of a regular file says of it.
#[derive(Debug)]
pub struct FileStat {
    /// Length of the file in bytes.
    pub size: u64,
    /// Last modification time in nanoseconds since the Unix epoch, if known.
    pub mtime: Option<i128>,
}

/// One entry produced by the directory walk.
#[derive(Debug)]
pub struct WalkEntry {
    /// Traversal depth of the entry below its root.
    pub depth: usize,
    /// Path of the entry.
    pub path: String,
    /// Metadata of the entry if it is a regular file, `None` for anything
    /// else (directories, sockets, devices).
    pub stat: Option<FileStat>,
}

/// Whether the entry is a regular file.
pub open spec fn is_regular(entry: WalkEntry) -> bool {
    entry.stat is Some
}

/// Whether the entry is a regular file of at least `min_size` bytes.
pub open spec fn is_candidate(entry: WalkEntry, min_size: u64) -> bool {
    entry.stat matches Some(stat) && stat.size >= min_size
}

/// The record kept of a regular file.
pub open spec fn record_of(entry: WalkEntry) -> FileInfoView {
    FileInfoView {
        depth: entry.depth as nat,
        mtime: match entry.stat->0.mtime {
            Some(t) => Some(t as int),
            None => None,
        },
        path: entry.path@,
    }
}

/// The records of the candidates among `entries` whose size is exactly
/// `size`, in walk order.
pub open spec fn members_of_size(entries: Seq<WalkEntry>, size: u64, min_size: u64) -> Seq<
    FileInfoView,
> {
    entries.filter(|e: WalkEntry| is_candidate(e, min_size) && e.stat->0.size == size).map_values(
        |e: WalkEntry| record_of(e),
    )
}

/// The members of the bucket for `size`; empty where the table has none.
pub open spec fn bucket(table: Map<u64, Vec<FileInfo>>, size: u64) -> Seq<FileInfoView> {
    if table.contains_key(size) {
        views_of(table[size]@)
    } else {
        Seq::empty()
    }
}

/// `after` is `before` with every candidate among `entries` appended to the
/// bucket of its size, and with no other change.
pub open spec fn bucketed(
    before: Map<u64, Vec<FileInfo>>,
    after: Map<u64, Vec<FileInfo>>,
    entries: Seq<WalkEntry>,
    min_size: u64,
) -> bool {
    &&& forall|size: u64| #[trigger]
        bucket(after, size) == bucket(before, size) + members_of_size(entries, size, min_size)
    &&& forall|size: u64| #[trigger]
        after.contains_key(size) <==> before.contains_key(size) || members_of_size(
            entries,
            size,
            min_size,
        ).len() > 0
}

/// The entries of a walk that produced no failure.
pub open spec fn entries_of(items: Seq<Result<WalkEntry, Error>>) -> Seq<WalkEntry> {
    items.map_values(|item: Result<WalkEntry, Error>| item->Ok_0)
}

proof fn lemma_members_step(entries: Seq<WalkEntry>, k: int, size: u64, min_size: u64)
    requires
        0 <= k < entries.len(),
    ensures
        members_of_size(entries.take(k + 1), size, min_size) == if is_candidate(
            entries[k],
            min_size,
        ) && entries[k].stat->0.size == size {
            members_of_size(entries.take(k), size, min_size).push(record_of(entries[k]))
        } else {
            members_of_size(entries.take(k), size, min_size)
        },
{
    reveal(Seq::filter);
    assert(entries.take(k + 1).drop_last() =~= entries.take(k));
    let pred = |e: WalkEntry| is_candidate(e, min_size) && e.stat->0.size == size;
    let earlier = entries.take(k).filter(pred);
    if pred(entries[k]) {
        assert(entries.take(k + 1).filter(pred) == earlier.push(entries[k]));
        assert(earlier.push(entries[k]).map_values(|e: WalkEntry| record_of(e))
            =~= earlier.map_values(|e: WalkEntry| record_of(e)).push(record_of(entries[k])));
    }
}

/// The boundary of the minimum size: no bucket holds a file smaller than
/// the minimum size, and every regular file of at least the minimum size,
/// one of exactly that size too, is in the bucket of its size.
pub proof fn lemma_min_size_boundary(entries: Seq<WalkEntry>, min_size: u64)
    ensures
        forall|size: u64|
            size < min_size ==> (#[trigger] members_of_size(entries, size, min_size)).len() == 0,
        forall|k: int|
            0 <= k < entries.len() && is_regular(#[trigger] entries[k]) && entries[k].stat->0.size
                >= min_size ==> members_of_size(
                entries,
                entries[k].stat->0.size,
                min_size,
            ).contains(record_of(entries[k])),
{
    assert forall|size: u64| size < min_size implies (#[trigger] members_of_size(
        entries,
        size,
        min_size,
    )).len() == 0 by {
        let pred = |e: WalkEntry| is_candidate(e, min_size) && e.stat->0.size == size;
        entries.lemma_all_neg_filter_empty(pred);
    }
    assert forall|k: int|
        0 <= k < entries.len() && is_regular(#[trigger] entries[k]) && entries[k].stat->0.size
            >= min_size implies members_of_size(
        entries,
        entries[k].stat->0.size,
        min_size,
    ).contains(record_of(entries[k])) by {
        let size = entries[k].stat->0.size;
        let pred = |e: WalkEntry| is_candidate(e, min_size) && e.stat->0.size == size;
        entries.lemma_filter_contains(pred, k);
        let kept = entries.filter(pred);
        let at = choose|at: int| 0 <= at < kept.len() && kept[at] == entries[k];
        assert(members_of_size(entries, size, min_size)[at] == record_of(entries[k]));
    }
}

/// Sorts the regular files of one walk into buckets by exact size.
///
/// `paths` is what the walk produced, in order: an entry, or the failure
/// that ended it. Every entry up to the first failure is counted; a regular
/// file of at least `options.min_size` bytes is appended to the bucket of
/// its size and a smaller one is counted as skipped. Other entries are
/// ignored. Without a failure the result is the number of entries seen, of
/// regular files, and of files skipped. The first failure is returned as it
/// is, and the table then holds what was bucketed before it.
pub fn find_same_sized_files(
    paths: Vec<Result<WalkEntry, Error>>,
    table: &mut HashMap<u64, Vec<FileInfo>>,
    options: &Options,
) -> (outcome: Result<(usize, usize, usize), Error>)
    ensures
        match outcome {
            Ok((seen, files, skipped)) => {
                &&& forall|i: int| 0 <= i < paths@.len() ==> paths@[i] is Ok
                &&& seen == paths@.len()
                &&& files == entries_of(paths@).filter(|e: WalkEntry| is_regular(e)).len()
                &&& skipped == entries_of(paths@).filter(
                    |e: WalkEntry| is_regular(e) && !is_candidate(e, options.min_size),
                ).len()
                &&& bucketed(old(table)@, final(table)@, entries_of(paths@), options.min_size)
            },
            Err(e) => exists|n: int|
                {
                    &&& 0 <= n < paths@.len()
                    &&& #[trigger] paths@[n] == Err::<WalkEntry, Error>(e)
                    &&& forall|i: int| 0 <= i < n ==> paths@[i] is Ok
                    &&& bucketed(
                        old(table)@,
                        final(table)@,
                        entries_of(paths@.take(n)),
                        options.min_size,
                    )
                },
        },
{
    let min_size = options.min_size;
    let ghost items = paths@;
    let total: usize = paths.len();
    let ghost entries = entries_of(items);
    let ghost before = table@;
    let mut files: usize = 0;
    let mut seen: usize = 0;
    let mut skipped: usize = 0;
    assert(entries.take(0) =~= Seq::empty());
    assert forall|size: u64| #[trigger]
        members_of_size(entries.take(0), size, min_size) =~= Seq::empty() by {
        reveal(Seq::filter);
    }
    proof {
        reveal(Seq::filter);
    }
    for item in it: paths
        invariant
            items == it.seq(),
            items == paths@,
            items.len() == total,
            before == old(table)@,
            entries == entries_of(items),
            seen == it.index(),
            skipped <= files <= seen,
            forall|i: int| 0 <= i < it.index() ==> items[i] is Ok,
            files == entries.take(it.index()).filter(|e: WalkEntry| is_regular(e)).len(),
            skipped == entries.take(it.index()).filter(
                |e: WalkEntry| is_regular(e) && !is_candidate(e, min_size),
            ).len(),
            min_size == options.min_size,
            bucketed(before, table@, entries.take(it.index()), min_size),
    {
        let ghost k = it.index();
        assert(item == items[k]);
        match item {
            Err(e) => {
                proof {
                    assert(entries_of(items.take(k)) =~= entries.take(k));
                    assert(paths@[k] == Err::<WalkEntry, Error>(e));
                }
                return Err(e);
            },
            Ok(entry) => {
                proof {
                    assert(entries[k] == entry);
                    lemma_filter_take_step(entries, k, |e: WalkEntry| is_regular(e));
                    lemma_filter_take_step(
                        entries,
                        k,
                        |e: WalkEntry| is_regular(e) && !is_candidate(e, min_size),
                    );
                    assert forall|size: u64|
                        members_of_size(entries.take(k + 1), size, min_size) == if is_candidate(
                            entries[k],
                            min_size,
                        ) && entries[k].stat->0.size == size {
                            members_of_size(entries.take(k), size, min_size).push(
                                record_of(entries[k]),
                            )
                        } else {
                            members_of_size(entries.take(k), size, min_size)
                        } by {
                        lemma_members_step(entries, k, size, min_size);
                    }
                }
                seen += 1;
                if let Some(stat) = entry.stat {
                    files += 1;
                    if stat.size >= min_size {
                        let f = FileInfo { depth: entry.depth, mtime: stat.mtime, path: entry.path };
                        assert(f@ == record_of(entries[k]));
                        let ghost prior = table@;
                        let mut members = match table.remove(&stat.size) {
                            Some(existing) => existing,
                            None => Vec::new(),
                        };
                        let ghost earlier = views_of(members@);
                        assert(earlier == bucket(prior, stat.size));
                        members.push(f);
                        assert(views_of(members@) =~= earlier.push(f@));
                        table.insert(stat.size, members);
                        assert forall|size: u64| size != stat.size implies bucket(table@, size)
                            == bucket(prior, size) by {}
                        assert(bucket(table@, stat.size) == earlier.push(f@));
                        assert forall|size: u64| #[trigger]
                            bucket(table@, size) == bucket(before, size) + members_of_size(
                                entries.take(k + 1),
                                size,
                                min_size,
                            ) by {
                            assert(bucket(prior, size) == bucket(before, size) + members_of_size(
                                entries.take(k),
                                size,
                                min_size,
                            ));
                            if size == stat.size {
                                assert(bucket(table@, size) =~= bucket(before, size)
                                    + members_of_size(entries.take(k + 1), size, min_size));
                            }
                        }
                    } else {
                        skipped += 1;
                    }
                }
            },
        }
    }
    assert(entries.take(items.len() as int) =~= entries);
    Ok((seen, files, skipped))
}

/// `<[u64]>::sort_unstable`: puts the numbers in ascending order and
/// neither adds nor drops one.
#[verifier::external_body]
fn sort_sizes(sizes: &mut Vec<u64>)
    ensures
        final(sizes)@.to_multiset() == old(sizes)@.to_multiset(),
        forall|i: int, j: int| 0 <= i < j < final(sizes)@.len() ==> final(sizes)@[i] <= final(sizes)@[j],
{
    sizes.sort_unstable();
}

/// The sizes whose buckets can hold duplicates, smallest first: those of
/// the buckets with two or more files. A bucket with a single file is never
/// among them.
pub fn candidate_sizes(table: &HashMap<u64, Vec<FileInfo>>) -> (sizes: Vec<u64>)
    ensures
        forall|i: int, j: int| 0 <= i < j < sizes@.len() ==> sizes@[i] < sizes@[j],
        forall|size: u64| sizes@.contains(size) <==> bucket(table@, size).len() >= 2,
{
    let mut sizes: Vec<u64> = Vec::new();
    let keys = table.keys();
    let ghost all = keys.remaining().unref();
    proof {
        vstd::std_specs::hash::axiom_spec_keys_iter(table);
        assert(all.to_set() == table@.dom());
        assert(all.no_duplicates()) by {
            assert forall|i: int, j: int| 0 <= i < all.len() && 0 <= j < all.len() && i != j implies all[i] != all[j] by {
                assert(keys.remaining()[i] != keys.remaining()[j]);
            }
        }
    }
    for size in it: keys
        invariant
            all == it.seq().unref(),
            all.to_set() == table@.dom(),
            all.no_duplicates(),
            sizes@.no_duplicates(),
            forall|s: u64|
                sizes@.contains(s) <==> (exists|k: int|
                    0 <= k < it.index() && all[k] == s && bucket(table@, s).len() >= 2),
    {
        let ghost k = it.index();
        let ghost chosen = sizes@;
        assert(all[k] == *size);
        assert(all.to_set().contains(*size));
        let members = table.get(size);
        match members {
            Some(files) => {
                if files.len() >= 2 {
                    assert(!chosen.contains(*size)) by {
                        if chosen.contains(*size) {
                            let j = choose|j: int| 0 <= j < k && all[j] == *size;
                            assert(all[j] == all[k]);
                        }
                    }
                    sizes.push(*size);
                    assert forall|s: u64| sizes@.contains(s) <==> (exists|j: int|
                        0 <= j < k + 1 && all[j] == s && bucket(table@, s).len() >= 2) by {
                        if sizes@.contains(s) {
                            let p = choose|p: int| 0 <= p < sizes@.len() && sizes@[p] == s;
                            if p < chosen.len() {
                                assert(chosen[p] == s);
                                assert(chosen.contains(s));
                            } else {
                                assert(all[k] == s);
                            }
                        }
                        if exists|j: int| 0 <= j < k + 1 && all[j] == s && bucket(table@, s).len() >= 2 {
                            let j = choose|j: int| 0 <= j < k + 1 && all[j] == s && bucket(table@, s).len() >= 2;
                            if j < k {
                                assert(chosen.contains(s));
                                let p = choose|p: int| 0 <= p < chosen.len() && chosen[p] == s;
                                assert(sizes@[p] == s);
                            } else {
                                assert(sizes@[chosen.len() as int] == s);
                            }
                        }
                    }
                }
            },
            None => {},
        }
    }
    let ghost found = sizes@;
    proof {
        assert forall|s: u64| found.contains(s) <==> bucket(table@, s).len() >= 2 by {
            if bucket(table@, s).len() >= 2 {
                assert(table@.dom().contains(s));
                assert(all.to_set().contains(s));
                assert(all.contains(s));
                let j = choose|j: int| 0 <= j < all.len() && all[j] == s;
                assert(0 <= j < all.len() && all[j] == s && bucket(table@, s).len() >= 2);
            }
        }
        found.lemma_multiset_has_no_duplicates();
    }
    sort_sizes(&mut sizes);
    proof {
        let sorted = sizes@;
        sorted.to_multiset_ensures();
        found.to_multiset_ensures();
        assert forall|s: u64| sorted.contains(s) <==> found.contains(s) by {
            assert(sorted.to_multiset().count(s) == found.to_multiset().count(s));
        }
        sorted.lemma_multiset_has_no_duplicates_conv();
    }
    sizes
}

/// Takes the buckets that can hold duplicates out of the table, smallest
/// size first: those with two or more files, each with its size. The other
/// buckets stay in the table.
pub fn take_candidates(table: &mut HashMap<u64, Vec<FileInfo>>) -> (taken: Vec<
    (u64, Vec<FileInfo>),
>)
    ensures
        forall|i: int, j: int| 0 <= i < j < taken@.len() ==> taken@[i].0 < taken@[j].0,
        forall|i: int|
            0 <= i < taken@.len() ==> old(table)@.contains_key((#[trigger] taken@[i]).0)
                && taken@[i].1 == old(table)@[taken@[i].0] && taken@[i].1@.len() >= 2,
        forall|size: u64|
            bucket(old(table)@, size).len() >= 2 ==> exists|i: int|
                0 <= i < taken@.len() && (#[trigger] taken@[i]).0 == size,
        forall|size: u64| #[trigger]
            final(table)@.contains_key(size) <==> old(table)@.contains_key(size) && bucket(
                old(table)@,
                size,
            ).len() < 2,
        forall|size: u64| #[trigger]
            final(table)@.contains_key(size) ==> final(table)@[size] == old(table)@[size],
{
    let sizes = candidate_sizes(table);
    let ghost before = table@;
    let mut taken: Vec<(u64, Vec<FileInfo>)> = Vec::new();
    let mut i: usize = 0;
    while i < sizes.len()
        invariant
            i <= sizes@.len(),
            before == old(table)@,
            forall|p: int, q: int| 0 <= p < q < sizes@.len() ==> sizes@[p] < sizes@[q],
            forall|size: u64| sizes@.contains(size) <==> bucket(before, size).len() >= 2,
            taken@.len() == i,
            forall|k: int|
                0 <= k < i ==> (#[trigger] taken@[k]).0 == sizes@[k] && before.contains_key(
                    sizes@[k],
                ) && taken@[k].1 == before[sizes@[k]],
            forall|size: u64| #[trigger]
                table@.contains_key(size) <==> before.contains_key(size) && !(exists|k: int|
                    0 <= k < i && sizes@[k] == size),
            forall|size: u64| #[trigger] table@.contains_key(size) ==> table@[size] == before[size],
        decreases sizes@.len() - i,
    {
        let size = sizes[i];
        let ghost held = table@;
        assert(sizes@.contains(size));
        assert(before.contains_key(size));
        assert(held.contains_key(size)) by {
            if exists|k: int| 0 <= k < i && sizes@[k] == size {
                let k = choose|k: int| 0 <= k < i && sizes@[k] == size;
                assert(sizes@[k] < sizes@[i as int]);
            }
        }
        let ghost so_far = taken@;
        let removed = table.remove(&size);
        assert(removed == Some(held[size]) && table@ == held.remove(size));
        if let Some(files) = removed {
            taken.push((size, files));
        }
        assert forall|k: int| 0 <= k < i + 1 implies (#[trigger] taken@[k]).0 == sizes@[k]
            && before.contains_key(sizes@[k]) && taken@[k].1 == before[sizes@[k]] by {
            if k < i {
                assert(taken@[k] == so_far[k]);
            }
        }
        assert forall|s: u64| #[trigger]
            table@.contains_key(s) <==> before.contains_key(s) && !(exists|k: int|
                0 <= k < i + 1 && sizes@[k] == s) by {
            if s == size {
                assert(sizes@[i as int] == s);
            } else if held.contains_key(s) {
                if exists|k: int| 0 <= k < i + 1 && sizes@[k] == s {
                    let k = choose|k: int| 0 <= k < i + 1 && sizes@[k] == s;
                    assert(k < i);
                }
            } else if before.contains_key(s) {
                let k = choose|k: int| 0 <= k < i && sizes@[k] == s;
                assert(0 <= k < i + 1 && sizes@[k] == s);
            }
        }
        i += 1;
    }
    proof {
        assert forall|k: int| 0 <= k < taken@.len() implies before.contains_key(
            (#[trigger] taken@[k]).0,
        ) && taken@[k].1 == before[taken@[k].0] && taken@[k].1@.len() >= 2 by {
            assert(sizes@.contains(sizes@[k]));
            assert(bucket(before, sizes@[k]).len() >= 2);
        }
        assert forall|size: u64| bucket(before, size).len() >= 2 implies exists|k: int|
            0 <= k < taken@.len() && (#[trigger] taken@[k]).0 == size by {
            assert(sizes@.contains(size));
            let k = choose|k: int| 0 <= k < sizes@.len() && sizes@[k] == size;
            assert(taken@[k].0 == size);
        }
        assert forall|size: u64| #[trigger]
            table@.contains_key(size) <==> before.contains_key(size) && bucket(before, size).len()
                < 2 by {
            if before.contains_key(size) && bucket(before, size).len() >= 2 {
                assert(sizes@.contains(size));
                let k = choose|k: int| 0 <= k < sizes@.len() && sizes@[k] == size;
                assert(0 <= k < i && sizes@[k] == size);
            }
            if exists|k: int| 0 <= k < i && sizes@[k] == size {
                let k = choose|k: int| 0 <= k < i && sizes@[k] == size;
                assert(sizes@.contains(sizes@[k]));
            }
        }
    }
    taken
}

} // verus!
