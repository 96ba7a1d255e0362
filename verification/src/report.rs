//! The counters of a run, and what is done with one bucket: finding,
//! ordering and counting its duplicate groups.

use crate::hashing::{
    duplicate_groups, find_duplicates, group_views, hashed_count, lemma_all_hashed, pairs_of,
    ContentHash,
};
use crate::sort::{lemma_sorted_group, sorted_group};
use crate::sorting::{SortBy, SortOptions};
use crate::types::{views_of, Error, FileInfo, FileInfoView};
use vstd::prelude::*;

verus! {

/// The counters of one run. A counter that reaches the largest number it
/// can hold stays there.
#[derive(Debug, Clone, Copy, PartialEq, Eq, Structural)]
pub struct RunCounters {
    /// Entries that the walk produced.
    pub files_seen: usize,
    /// Regular files among them.
    pub regular_files: usize,
    /// Regular files left out for being smaller than the minimum size.
    pub skipped_by_min_size: usize,
    /// Files whose content was hashed.
    pub candidates_hashed: usize,
    /// Buckets given up because a file in them could not be hashed.
    pub hash_errors: usize,
    /// Files that are in a duplicate group.
    pub duplicate_file_count: usize,
    /// Duplicate groups.
    pub duplicate_group_count: usize,
    /// Bytes taken up by all files of a group but one, over all groups.
    pub wasted_bytes: u64,
}

/// `n`, or the largest count where `n` is beyond it.
pub open spec fn capped(n: int) -> usize {
    if n > usize::MAX {
        usize::MAX
    } else {
        n as usize
    }
}

/// `n`, or the largest number of bytes where `n` is beyond it.
pub open spec fn capped_bytes(n: int) -> u64 {
    if n > u64::MAX {
        u64::MAX
    } else {
        n as u64
    }
}

/// The bytes that a group of `members` files of `size` bytes each wastes:
/// the size of all of them but one.
pub open spec fn wasted_by(size: u64, members: nat) -> int {
    if members == 0 {
        0
    } else {
        size * (members - 1)
    }
}

/// The number of files in `groups`.
pub open spec fn total_members(groups: Seq<Seq<FileInfoView>>) -> int
    decreases groups.len(),
{
    if groups.len() == 0 {
        0
    } else {
        total_members(groups.drop_last()) + groups.last().len()
    }
}

/// The bytes that `groups` of files of `size` bytes each waste.
pub open spec fn total_wasted(size: u64, groups: Seq<Seq<FileInfoView>>) -> int
    decreases groups.len(),
{
    if groups.len() == 0 {
        0
    } else {
        total_wasted(size, groups.drop_last()) + wasted_by(size, groups.last().len())
    }
}

/// The counters after a walk that saw `seen` entries, `files` regular
/// files among them, and skipped `skipped` of those.
pub open spec fn after_walk(before: RunCounters, seen: usize, files: usize, skipped: usize) -> RunCounters {
    RunCounters {
        files_seen: capped(before.files_seen + seen),
        regular_files: capped(before.regular_files + files),
        skipped_by_min_size: capped(before.skipped_by_min_size + skipped),
        ..before
    }
}

/// The counters after the contents of `hashed` files were hashed.
pub open spec fn after_hashing(before: RunCounters, hashed: nat) -> RunCounters {
    RunCounters { candidates_hashed: capped(before.candidates_hashed + hashed), ..before }
}

/// The counters after a bucket was given up.
pub open spec fn after_failure(before: RunCounters) -> RunCounters {
    RunCounters { hash_errors: capped(before.hash_errors + 1), ..before }
}

/// The counters after the duplicate groups `groups` of files of `size`
/// bytes were found.
pub open spec fn after_groups(before: RunCounters, size: u64, groups: Seq<Seq<FileInfoView>>) -> RunCounters {
    RunCounters {
        duplicate_file_count: capped(before.duplicate_file_count + total_members(groups)),
        duplicate_group_count: capped(before.duplicate_group_count + groups.len()),
        wasted_bytes: capped_bytes(before.wasted_bytes + total_wasted(size, groups)),
        ..before
    }
}

proof fn lemma_totals_nonnegative(size: u64, groups: Seq<Seq<FileInfoView>>)
    ensures
        total_members(groups) >= 0,
        total_wasted(size, groups) >= 0,
    decreases groups.len(),
{
    if groups.len() > 0 {
        lemma_totals_nonnegative(size, groups.drop_last());
        let n = groups.last().len();
        if n > 0 {
            assert(size * (n - 1) >= 0) by (nonlinear_arith)
                requires
                    size >= 0,
                    n - 1 >= 0,
            ;
        }
    }
}

impl RunCounters {
    /// Counters that have counted nothing.
    pub fn new() -> (counters: RunCounters)
        ensures
            counters == (RunCounters {
                files_seen: 0,
                regular_files: 0,
                skipped_by_min_size: 0,
                candidates_hashed: 0,
                hash_errors: 0,
                duplicate_file_count: 0,
                duplicate_group_count: 0,
                wasted_bytes: 0,
            }),
    {
        RunCounters {
            files_seen: 0,
            regular_files: 0,
            skipped_by_min_size: 0,
            candidates_hashed: 0,
            hash_errors: 0,
            duplicate_file_count: 0,
            duplicate_group_count: 0,
            wasted_bytes: 0,
        }
    }

    /// Counts what one walk saw.
    pub fn record_walk(&mut self, seen: usize, files: usize, skipped: usize)
        ensures
            *final(self) == after_walk(*old(self), seen, files, skipped),
    {
        self.files_seen = self.files_seen.saturating_add(seen);
        self.regular_files = self.regular_files.saturating_add(files);
        self.skipped_by_min_size = self.skipped_by_min_size.saturating_add(skipped);
    }

    /// Counts the files whose content was hashed.
    pub fn record_hashed(&mut self, hashed: usize)
        ensures
            *final(self) == after_hashing(*old(self), hashed as nat),
    {
        self.candidates_hashed = self.candidates_hashed.saturating_add(hashed);
    }

    /// Counts a bucket that was given up.
    pub fn record_failure(&mut self)
        ensures
            *final(self) == after_failure(*old(self)),
    {
        self.hash_errors = self.hash_errors.saturating_add(1);
    }

    /// Counts one duplicate group of `members` files of `size` bytes each.
    pub fn record_group(&mut self, size: u64, members: usize)
        ensures
            *final(self) == (RunCounters {
                duplicate_file_count: capped(old(self).duplicate_file_count + members),
                duplicate_group_count: capped(old(self).duplicate_group_count + 1),
                wasted_bytes: capped_bytes(old(self).wasted_bytes + wasted_by(size, members as nat)),
                ..*old(self)
            }),
    {
        let spare: u64 = if members == 0 {
            0
        } else {
            (members - 1) as u64
        };
        let wasted: u64 = match size.checked_mul(spare) {
            Some(bytes) => bytes,
            None => u64::MAX,
        };
        assert(size * spare >= 0) by (nonlinear_arith)
            requires
                size >= 0,
                spare >= 0,
        ;
        self.duplicate_file_count = self.duplicate_file_count.saturating_add(members);
        self.duplicate_group_count = self.duplicate_group_count.saturating_add(1);
        self.wasted_bytes = self.wasted_bytes.saturating_add(wasted);
    }

    /// Adds what another set of counters has counted.
    pub fn merge(&mut self, other: &RunCounters)
        ensures
            *final(self) == (RunCounters {
                files_seen: capped(old(self).files_seen + other.files_seen),
                regular_files: capped(old(self).regular_files + other.regular_files),
                skipped_by_min_size: capped(
                    old(self).skipped_by_min_size + other.skipped_by_min_size,
                ),
                candidates_hashed: capped(old(self).candidates_hashed + other.candidates_hashed),
                hash_errors: capped(old(self).hash_errors + other.hash_errors),
                duplicate_file_count: capped(
                    old(self).duplicate_file_count + other.duplicate_file_count,
                ),
                duplicate_group_count: capped(
                    old(self).duplicate_group_count + other.duplicate_group_count,
                ),
                wasted_bytes: capped_bytes(old(self).wasted_bytes + other.wasted_bytes),
            }),
    {
        self.files_seen = self.files_seen.saturating_add(other.files_seen);
        self.regular_files = self.regular_files.saturating_add(other.regular_files);
        self.skipped_by_min_size = self.skipped_by_min_size.saturating_add(
            other.skipped_by_min_size,
        );
        self.candidates_hashed = self.candidates_hashed.saturating_add(other.candidates_hashed);
        self.hash_errors = self.hash_errors.saturating_add(other.hash_errors);
        self.duplicate_file_count = self.duplicate_file_count.saturating_add(
            other.duplicate_file_count,
        );
        self.duplicate_group_count = self.duplicate_group_count.saturating_add(
            other.duplicate_group_count,
        );
        self.wasted_bytes = self.wasted_bytes.saturating_add(other.wasted_bytes);
    }
}

/// Each of `groups` in the order of the group.
pub open spec fn ordered_groups(
    prefer: Option<Seq<char>>,
    keys: Seq<SortBy>,
    groups: Seq<Seq<FileInfoView>>,
) -> Seq<Seq<FileInfoView>> {
    groups.map_values(|g: Seq<FileInfoView>| sorted_group(prefer, keys, g))
}

/// Finds, orders and counts the duplicate groups of one bucket.
///
/// `size` is the size of the files of the bucket and `hashed` holds, for
/// each of them in order, its hash and record or the failure to hash it. A
/// bucket of fewer than two files has no duplicates: nothing is reported
/// and nothing is counted. Otherwise the files that were hashed are counted
/// as such, not those that failed. If any file failed, the bucket is given
/// up: the first failure is returned and counted. If none failed, the
/// duplicate groups are returned, each in its order, and their files and
/// wasted bytes are counted.
pub fn process_bucket(
    size: u64,
    hashed: Vec<Result<(ContentHash, FileInfo), Error>>,
    options: &SortOptions,
    counters: &mut RunCounters,
) -> (outcome: Result<Vec<Vec<FileInfo>>, Error>)
    ensures
        hashed@.len() < 2 ==> (outcome matches Ok(groups) && groups@.len() == 0),
        hashed@.len() < 2 ==> *final(counters) == *old(counters),
        hashed@.len() >= 2 ==> match outcome {
            Ok(groups) => {
                &&& forall|i: int| 0 <= i < hashed@.len() ==> hashed@[i] is Ok
                &&& group_views(groups@) == ordered_groups(
                    options.prefer(),
                    options.sort_by@,
                    duplicate_groups(pairs_of(hashed@)),
                )
                &&& *final(counters) == after_groups(
                    after_hashing(*old(counters), hashed@.len()),
                    size,
                    duplicate_groups(pairs_of(hashed@)),
                )
            },
            Err(e) => {
                &&& exists|n: int|
                    {
                        &&& 0 <= n < hashed@.len()
                        &&& #[trigger] hashed@[n] == Err::<(ContentHash, FileInfo), Error>(e)
                        &&& forall|i: int| 0 <= i < n ==> hashed@[i] is Ok
                    }
                &&& *final(counters) == after_failure(
                    after_hashing(*old(counters), hashed_count(hashed@)),
                )
            },
        },
{
    if hashed.len() < 2 {
        return Ok(Vec::new());
    }
    let ghost prefer = options.prefer();
    let ghost keys = options.sort_by@;
    let ghost wanted = duplicate_groups(pairs_of(hashed@));
    let ghost given = hashed@;
    let mut hash_count: usize = 0;
    let found = find_duplicates(hashed, &mut hash_count);
    proof {
        if found is Ok {
            lemma_all_hashed(given);
        }
    }
    counters.record_hashed(hash_count);
    let ghost base = *counters;
    match found {
        Err(e) => {
            counters.record_failure();
            Err(e)
        },
        Ok(groups) => {
            let mut ordered: Vec<Vec<FileInfo>> = Vec::new();
            proof {
                assert(wanted.take(0) =~= Seq::<Seq<FileInfoView>>::empty());
                assert(group_views(ordered@) =~= ordered_groups(prefer, keys, wanted.take(0)));
            }
            for members in it: groups
                invariant
                    prefer == options.prefer(),
                    keys == options.sort_by@,
                    wanted == group_views(it.seq()),
                    group_views(ordered@) == ordered_groups(prefer, keys, wanted.take(it.index())),
                    *counters == after_groups(base, size, wanted.take(it.index())),
            {
                let ghost k = it.index();
                let ghost so_far = group_views(ordered@);
                proof {
                    assert(wanted.take(k + 1).drop_last() =~= wanted.take(k));
                    assert(wanted.take(k + 1).last() == views_of(members@));
                    lemma_totals_nonnegative(size, wanted.take(k));
                    lemma_sorted_group(prefer, keys, views_of(members@));
                }
                counters.record_group(size, members.len());
                let sorted = options.sort_group(members);
                ordered.push(sorted);
                proof {
                    assert(group_views(ordered@) =~= so_far.push(views_of(sorted@)));
                    assert(ordered_groups(prefer, keys, wanted.take(k + 1)) =~= ordered_groups(
                        prefer,
                        keys,
                        wanted.take(k),
                    ).push(sorted_group(prefer, keys, wanted[k])));
                    assert(wasted_by(size, members@.len()) >= 0) by {
                        if members@.len() > 0 {
                            assert(size * (members@.len() - 1) >= 0) by (nonlinear_arith)
                                requires
                                    size >= 0,
                                    members@.len() - 1 >= 0,
                            ;
                        }
                    }
                }
            }
            assert(wanted.take(wanted.len() as int) =~= wanted);
            Ok(ordered)
        },
    }
}

} // verus!
