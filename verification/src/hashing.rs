//! Content hashes, and the grouping of the files of a bucket by equal hash.

use crate::seqs::{lemma_filter_empty, lemma_filter_take_step};
use crate::types::{views_of, Error, FileInfo, FileInfoView};
use std::collections::HashMap;
use vstd::prelude::*;

verus! {

broadcast use vstd::std_specs::hash::group_hash_axioms;

/// A content hash: the 32 bytes of a BLAKE3 digest.
pub type ContentHash = [u8; 32];

/// The BLAKE3 digest of `content`, as `blake3::hash` computes it.
pub uninterp spec fn blake3_digest(content: Seq<u8>) -> Seq<u8>;

/// `blake3::hash`: the 32-byte BLAKE3 digest of the input, a function of
/// the input bytes alone.
#[verifier::external_body]
fn blake3_hash(content: &[u8]) -> (digest: ContentHash)
    ensures
        digest@ == blake3_digest(content@),
{
    *blake3::hash(content).as_bytes()
}

/// Pairs a file with the hash of its content, or with the failure to read
/// it.
pub fn hash_record(file: FileInfo, content: Result<Vec<u8>, std::io::Error>) -> (hashed: Result<
    (ContentHash, FileInfo),
    Error,
>)
    ensures
        match content {
            Ok(bytes) => hashed matches Ok((digest, f)) && digest@ == blake3_digest(bytes@) && f
                == file,
            Err(cause) => hashed matches Err(e) && e == Error::IOError(cause),
        },
{
    match content {
        Ok(bytes) => Ok((blake3_hash(bytes.as_slice()), file)),
        Err(cause) => Err(Error::IOError(cause)),
    }
}

/// Whether two hashes are the same.
pub fn same_hash(left: &ContentHash, right: &ContentHash) -> (same: bool)
    ensures
        same == (left@ == right@),
{
    let mut i: usize = 0;
    while i < 32
        invariant
            i <= 32,
            forall|k: int| 0 <= k < i ==> left@[k] == right@[k],
        decreases 32 - i,
    {
        if left[i] != right[i] {
            return false;
        }
        i += 1;
    }
    assert(left@ =~= right@);
    true
}

/// A hashed file: the digest of its content and its record.
pub type Hashed = (Seq<u8>, FileInfoView);

/// The hashes of `hashes` without repetition, each at the place of its
/// first occurrence.
pub open spec fn distinct_hashes(hashes: Seq<Seq<u8>>) -> Seq<Seq<u8>>
    decreases hashes.len(),
{
    if hashes.len() == 0 {
        Seq::empty()
    } else {
        let earlier = distinct_hashes(hashes.drop_last());
        if earlier.contains(hashes.last()) {
            earlier
        } else {
            earlier.push(hashes.last())
        }
    }
}

/// The test whether a hashed file has the hash `hash`.
pub open spec fn with_hash(hash: Seq<u8>) -> spec_fn(Hashed) -> bool {
    |p: Hashed| p.0 == hash
}

/// The records among `pairs` whose hash is `hash`, in their order.
pub open spec fn members_with(pairs: Seq<Hashed>, hash: Seq<u8>) -> Seq<FileInfoView> {
    pairs.filter(with_hash(hash)).map_values(|p: Hashed| p.1)
}

/// The hashes of `pairs`, in their order.
pub open spec fn hashes_of(pairs: Seq<Hashed>) -> Seq<Seq<u8>> {
    pairs.map_values(|p: Hashed| p.0)
}

/// The duplicate groups among `pairs`: for every hash that two or more
/// records share, the records with that hash in their order; the groups
/// stand in the order in which their hashes first occur.
pub open spec fn duplicate_groups(pairs: Seq<Hashed>) -> Seq<Seq<FileInfoView>> {
    distinct_hashes(hashes_of(pairs)).map_values(|h: Seq<u8>| members_with(pairs, h)).filter(
        |g: Seq<FileInfoView>| g.len() >= 2,
    )
}

/// The hashed files of a bucket in which every file was hashed.
pub open spec fn pairs_of(hashed: Seq<Result<(ContentHash, FileInfo), Error>>) -> Seq<Hashed> {
    hashed.map_values(|r: Result<(ContentHash, FileInfo), Error>| (r->Ok_0.0@, r->Ok_0.1@))
}

/// The values of a sequence of groups.
pub open spec fn group_views(groups: Seq<Vec<FileInfo>>) -> Seq<Seq<FileInfoView>> {
    groups.map_values(|g: Vec<FileInfo>| views_of(g@))
}

/// The values of a sequence of hashes.
pub open spec fn hash_views(hashes: Seq<ContentHash>) -> Seq<Seq<u8>> {
    hashes.map_values(|h: ContentHash| h@)
}

/// A hash is among the distinct hashes exactly if it occurs at all.
pub proof fn lemma_distinct_hashes_contains(hashes: Seq<Seq<u8>>, hash: Seq<u8>)
    ensures
        distinct_hashes(hashes).contains(hash) <==> hashes.contains(hash),
        distinct_hashes(hashes).no_duplicates(),
    decreases hashes.len(),
{
    if hashes.len() > 0 {
        let earlier = hashes.drop_last();
        let last = hashes.last();
        lemma_distinct_hashes_contains(earlier, hash);
        lemma_distinct_hashes_contains(earlier, last);
        let d = distinct_hashes(earlier);
        let result = distinct_hashes(hashes);
        if hashes.contains(hash) {
            let i = choose|i: int| 0 <= i < hashes.len() && hashes[i] == hash;
            if i < hashes.len() - 1 {
                assert(earlier[i] == hash);
                assert(d.contains(hash));
                let j = choose|j: int| 0 <= j < d.len() && d[j] == hash;
                assert(result[j] == hash);
            } else if !d.contains(last) {
                assert(result[d.len() as int] == last);
            }
            assert(result.contains(hash));
        }
        if result.contains(hash) {
            let j = choose|j: int| 0 <= j < result.len() && result[j] == hash;
            if j < d.len() {
                assert(d[j] == hash);
                assert(earlier.contains(hash));
                let i = choose|i: int| 0 <= i < earlier.len() && earlier[i] == hash;
                assert(hashes[i] == hash);
            } else {
                assert(hashes[hashes.len() - 1] == hash);
            }
        }
    }
}

/// No record carries a hash that does not occur.
pub proof fn lemma_members_absent(pairs: Seq<Hashed>, hash: Seq<u8>)
    requires
        !hashes_of(pairs).contains(hash),
    ensures
        members_with(pairs, hash) == Seq::<FileInfoView>::empty(),
    decreases pairs.len(),
{
    reveal(Seq::filter);
    if pairs.len() > 0 {
        let earlier = pairs.drop_last();
        assert forall|i: int| 0 <= i < earlier.len() implies hashes_of(earlier)[i] != hash by {
            assert(hashes_of(pairs)[i] == earlier[i].0);
        }
        lemma_members_absent(earlier, hash);
        assert(hashes_of(pairs)[pairs.len() - 1] == pairs.last().0);
        assert(members_with(pairs, hash) =~= Seq::<FileInfoView>::empty());
    } else {
        assert(members_with(pairs, hash) =~= Seq::<FileInfoView>::empty());
    }
}

proof fn lemma_group_step(pairs: Seq<Hashed>, k: int, hash: Seq<u8>)
    requires
        0 <= k < pairs.len(),
    ensures
        members_with(pairs.take(k + 1), hash) == if pairs[k].0 == hash {
            members_with(pairs.take(k), hash).push(pairs[k].1)
        } else {
            members_with(pairs.take(k), hash)
        },
        distinct_hashes(hashes_of(pairs.take(k + 1))) == if distinct_hashes(
            hashes_of(pairs.take(k)),
        ).contains(pairs[k].0) {
            distinct_hashes(hashes_of(pairs.take(k)))
        } else {
            distinct_hashes(hashes_of(pairs.take(k))).push(pairs[k].0)
        },
{
    reveal(Seq::filter);
    let pred = with_hash(hash);
    let earlier = pairs.take(k).filter(pred);
    assert(pairs.take(k + 1).drop_last() =~= pairs.take(k));
    if pred(pairs[k]) {
        assert(pairs.take(k + 1).filter(pred) == earlier.push(pairs[k]));
        assert(earlier.push(pairs[k]).map_values(|p: Hashed| p.1) =~= earlier.map_values(
            |p: Hashed| p.1,
        ).push(pairs[k].1));
    }
    assert(hashes_of(pairs.take(k + 1)).drop_last() =~= hashes_of(pairs.take(k)));
    assert(hashes_of(pairs.take(k + 1)).last() == pairs[k].0);
}

/// The hashes that two or more of `pairs` share, each at the place of its
/// first occurrence.
pub open spec fn duplicated_hashes(pairs: Seq<Hashed>) -> Seq<Seq<u8>> {
    distinct_hashes(hashes_of(pairs)).filter(|h: Seq<u8>| members_with(pairs, h).len() >= 2)
}

proof fn lemma_filter_then_map<A, B>(s: Seq<A>, f: spec_fn(A) -> B, keep: spec_fn(B) -> bool)
    ensures
        s.map_values(f).filter(keep) == s.filter(|a: A| keep(f(a))).map_values(f),
    decreases s.len(),
{
    reveal(Seq::filter);
    let pred = |a: A| keep(f(a));
    if s.len() > 0 {
        lemma_filter_then_map(s.drop_last(), f, keep);
        assert(s.map_values(f).drop_last() =~= s.drop_last().map_values(f));
        assert(s.map_values(f).last() == f(s.last()));
        if pred(s.last()) {
            assert(s.drop_last().filter(pred).push(s.last()).map_values(f) =~= s.drop_last().filter(
                pred,
            ).map_values(f).push(f(s.last())));
        }
    } else {
        assert(s.map_values(f) =~= Seq::<B>::empty());
        assert(s.filter(pred).map_values(f) =~= Seq::<B>::empty());
    }
}

proof fn lemma_filter_two<A>(s: Seq<A>, pred: spec_fn(A) -> bool, i: int, j: int)
    requires
        0 <= i < j < s.len(),
        pred(s[i]),
        pred(s[j]),
    ensures
        s.filter(pred).len() >= 2,
    decreases s.len(),
{
    reveal(Seq::filter);
    let earlier = s.drop_last();
    if j < s.len() - 1 {
        lemma_filter_two(earlier, pred, i, j);
    } else {
        assert(earlier[i] == s[i]);
        earlier.lemma_filter_contains(pred, i);
        assert(earlier.filter(pred).len() >= 1);
    }
}

proof fn lemma_members_count(pairs: Seq<Hashed>, hash: Seq<u8>, i: int, j: int)
    requires
        0 <= i < j < pairs.len(),
        pairs[i].0 == hash,
        pairs[j].0 == hash,
    ensures
        members_with(pairs, hash).len() >= 2,
{
    lemma_filter_two(pairs, with_hash(hash), i, j);
}

/// Exactness of grouping: there is one group for each hash that two or
/// more files share and for no other hash, no hash has two groups, and the
/// group of a hash holds exactly the files with that hash.
pub proof fn lemma_one_group_per_shared_hash(pairs: Seq<Hashed>)
    ensures
        duplicate_groups(pairs) == duplicated_hashes(pairs).map_values(
            |h: Seq<u8>| members_with(pairs, h),
        ),
        duplicated_hashes(pairs).no_duplicates(),
        forall|h: Seq<u8>| #[trigger]
            duplicated_hashes(pairs).contains(h) <==> members_with(pairs, h).len() >= 2,
        forall|g: int|
            0 <= g < duplicate_groups(pairs).len() ==> (#[trigger] duplicate_groups(pairs)[g]).len()
                >= 2,
{
    let distinct = distinct_hashes(hashes_of(pairs));
    let members = |h: Seq<u8>| members_with(pairs, h);
    let keep = |g: Seq<FileInfoView>| g.len() >= 2;
    let shared = |h: Seq<u8>| members_with(pairs, h).len() >= 2;
    lemma_filter_then_map(distinct, members, keep);
    assert(distinct.filter(|h: Seq<u8>| keep(members(h))) =~= distinct.filter(shared)) by {
        assert((|h: Seq<u8>| keep(members(h))) =~= shared);
    }
    assert forall|h: Seq<u8>| #[trigger]
        duplicated_hashes(pairs).contains(h) <==> members_with(pairs, h).len() >= 2 by {
        lemma_distinct_hashes_contains(hashes_of(pairs), h);
        if duplicated_hashes(pairs).contains(h) {
            let i = choose|i: int|
                0 <= i < distinct.filter(shared).len() && distinct.filter(shared)[i] == h;
            distinct.lemma_filter_pred(shared, i);
        }
        if members_with(pairs, h).len() >= 2 {
            if !hashes_of(pairs).contains(h) {
                lemma_members_absent(pairs, h);
            }
            let k = choose|k: int| 0 <= k < distinct.len() && distinct[k] == h;
            distinct.lemma_filter_contains(shared, k);
        }
    }
    lemma_distinct_hashes_contains(hashes_of(pairs), Seq::empty());
    lemma_filter_keeps_distinct(distinct, shared);
    assert forall|g: int| 0 <= g < duplicate_groups(pairs).len() implies (
    #[trigger] duplicate_groups(pairs)[g]).len() >= 2 by {
        distinct.map_values(members).lemma_filter_pred(keep, g);
    }
}

proof fn lemma_filter_keeps_distinct<A>(s: Seq<A>, pred: spec_fn(A) -> bool)
    requires
        s.no_duplicates(),
    ensures
        s.filter(pred).no_duplicates(),
    decreases s.len(),
{
    reveal(Seq::filter);
    if s.len() > 0 {
        let earlier = s.drop_last();
        lemma_filter_keeps_distinct(earlier, pred);
        if pred(s.last()) {
            let kept = earlier.filter(pred);
            assert forall|i: int| 0 <= i < kept.len() implies kept[i] != s.last() by {
                assert(kept.contains(kept[i]));
                earlier.lemma_filter_contains_rev(pred, kept[i]);
                let k = choose|k: int| 0 <= k < earlier.len() && earlier[k] == kept[i];
                assert(s[k] == kept[i]);
            }
        }
    }
}

/// Two different files of a bucket are reported in one group exactly if
/// their contents are the same, as long as no two different contents among
/// the files of the bucket have the same digest.
pub proof fn lemma_duplicates_iff_same_content(
    pairs: Seq<Hashed>,
    contents: Seq<Seq<u8>>,
    i: int,
    j: int,
)
    requires
        contents.len() == pairs.len(),
        forall|k: int| 0 <= k < pairs.len() ==> (#[trigger] pairs[k]).0 == blake3_digest(contents[k]),
        forall|a: int, b: int|
            0 <= a < contents.len() && 0 <= b < contents.len() && blake3_digest(
                #[trigger] contents[a],
            ) == blake3_digest(#[trigger] contents[b]) ==> contents[a] == contents[b],
        0 <= i < pairs.len(),
        0 <= j < pairs.len(),
        i != j,
    ensures
        (duplicated_hashes(pairs).contains(pairs[i].0) && pairs[i].0 == pairs[j].0) <==> contents[i]
            == contents[j],
{
    lemma_one_group_per_shared_hash(pairs);
    if contents[i] == contents[j] {
        assert(pairs[i].0 == pairs[j].0);
        if i < j {
            lemma_members_count(pairs, pairs[i].0, i, j);
        } else {
            lemma_members_count(pairs, pairs[i].0, j, i);
        }
    }
}

/// A short number drawn from the first bytes of a hash, by which hashes
/// are looked up.
pub open spec fn short_of(hash: Seq<u8>) -> u64 {
    (hash[0] + 0x100 * hash[1] + 0x1_0000 * hash[2] + 0x100_0000 * hash[3] + 0x1_0000_0000
        * hash[4] + 0x100_0000_0000 * hash[5] + 0x1_0000_0000_0000 * hash[6]
        + 0x100_0000_0000_0000 * hash[7]) as u64
}

/// The short number of a hash.
fn shorten(hash: &ContentHash) -> (short: u64)
    ensures
        short == short_of(hash@),
{
    hash[0] as u64 + 0x100 * (hash[1] as u64) + 0x1_0000 * (hash[2] as u64) + 0x100_0000 * (
    hash[3] as u64) + 0x1_0000_0000 * (hash[4] as u64) + 0x100_0000_0000 * (hash[5] as u64)
        + 0x1_0000_0000_0000 * (hash[6] as u64) + 0x100_0000_0000_0000 * (hash[7] as u64)
}

/// The distinct hashes met so far, in the order in which they were met,
/// with a table to find one of them quickly.
struct HashIndex {
    keys: Vec<ContentHash>,
    slots: HashMap<u64, Vec<usize>>,
}

impl HashIndex {
    /// The hashes met so far.
    spec fn known(&self) -> Seq<Seq<u8>> {
        hash_views(self.keys@)
    }

    /// Every hash is listed under its short number, and nothing is listed
    /// that is not the place of a hash.
    spec fn wf(&self) -> bool {
        &&& forall|j: int|
            0 <= j < self.keys@.len() ==> self.slots@.contains_key(
                short_of(#[trigger] self.keys@[j]@),
            ) && self.slots@[short_of(self.keys@[j]@)]@.contains(j as usize)
        &&& forall|short: u64, t: int|
            self.slots@.contains_key(short) && 0 <= t < self.slots@[short]@.len() ==> (
            #[trigger] self.slots@[short]@[t]) < self.keys@.len()
    }

    fn new() -> (index: HashIndex)
        ensures
            index.wf(),
            index.known() == Seq::<Seq<u8>>::empty(),
    {
        let index = HashIndex { keys: Vec::new(), slots: HashMap::new() };
        assert(index.known() =~= Seq::<Seq<u8>>::empty());
        index
    }

    /// The place of `hash` among the hashes met so far, if it is there.
    fn find(&self, hash: &ContentHash) -> (found: Option<usize>)
        requires
            self.wf(),
        ensures
            match found {
                Some(j) => j < self.known().len() && self.known()[j as int] == hash@,
                None => !self.known().contains(hash@),
            },
    {
        let short = shorten(hash);
        let n = self.keys.len();
        match self.slots.get(&short) {
            None => {
                assert forall|j: int| 0 <= j < self.keys@.len() implies self.known()[j]
                    != hash@ by {
                    assert(self.slots@.contains_key(short_of(self.keys@[j]@)));
                }
                None
            },
            Some(places) => {
                let mut t: usize = 0;
                while t < places.len()
                    invariant
                        self.wf(),
                        n == self.keys@.len(),
                        self.slots@.contains_key(short),
                        *places == self.slots@[short],
                        t <= places@.len(),
                        forall|u: int| 0 <= u < t ==> self.keys@[places@[u] as int]@ != hash@,
                    decreases places@.len() - t,
                {
                    let j = places[t];
                    if same_hash(&self.keys[j], hash) {
                        return Some(j);
                    }
                    t += 1;
                }
                assert forall|j: int| 0 <= j < self.keys@.len() implies self.known()[j]
                    != hash@ by {
                    if self.keys@[j]@ == hash@ {
                        assert(j < n);
                        assert(self.slots@[short_of(self.keys@[j]@)]@.contains(j as usize));
                        let u = choose|u: int| 0 <= u < places@.len() && places@[u] == j as usize;
                        assert(places@[u] as int == j);
                        assert(self.keys@[places@[u] as int]@ != hash@);
                    }
                }
                None
            },
        }
    }

    /// Puts a hash that was not met before behind the hashes met so far.
    fn add(&mut self, hash: ContentHash)
        requires
            old(self).wf(),
        ensures
            final(self).wf(),
            final(self).known() == old(self).known().push(hash@),
    {
        let short = shorten(&hash);
        let place = self.keys.len();
        let ghost held = self.slots@;
        let ghost before = self.keys@;
        self.keys.push(hash);
        let mut places = match self.slots.remove(&short) {
            Some(places) => places,
            None => Vec::new(),
        };
        let ghost earlier = places@;
        places.push(place);
        self.slots.insert(short, places);
        proof {
            assert(self.known() =~= hash_views(before).push(hash@));
            assert forall|j: int| 0 <= j < self.keys@.len() implies self.slots@.contains_key(
                short_of(#[trigger] self.keys@[j]@),
            ) && self.slots@[short_of(self.keys@[j]@)]@.contains(j as usize) by {
                if j < before.len() {
                    assert(self.keys@[j] == before[j]);
                    let s = short_of(before[j]@);
                    assert(held.contains_key(s) && held[s]@.contains(j as usize));
                    if s == short {
                        let u = choose|u: int| 0 <= u < earlier.len() && earlier[u] == j as usize;
                        assert(self.slots@[short]@[u] == j as usize);
                    }
                } else {
                    assert(self.slots@[short]@[earlier.len() as int] == place);
                }
            }
            assert forall|s: u64, t: int|
                self.slots@.contains_key(s) && 0 <= t < self.slots@[s]@.len() implies (
            #[trigger] self.slots@[s]@[t]) < self.keys@.len() by {
                if s == short {
                    if t < earlier.len() {
                        assert(held.contains_key(short));
                        assert(self.slots@[s]@[t] == held[short]@[t]);
                    }
                } else {
                    assert(self.slots@[s]@[t] == held[s]@[t]);
                }
            }
        }
    }
}

/// The test whether the content of a file was hashed.
pub open spec fn was_hashed() -> spec_fn(Result<(ContentHash, FileInfo), Error>) -> bool {
    |r: Result<(ContentHash, FileInfo), Error>| r is Ok
}

/// The number of files whose content was hashed: those for which a hash
/// stands, not the failure to get one.
pub open spec fn hashed_count(hashed: Seq<Result<(ContentHash, FileInfo), Error>>) -> nat {
    hashed.filter(was_hashed()).len()
}

/// Where no file failed, every file was hashed.
pub proof fn lemma_all_hashed(hashed: Seq<Result<(ContentHash, FileInfo), Error>>)
    requires
        forall|i: int| 0 <= i < hashed.len() ==> hashed[i] is Ok,
    ensures
        hashed_count(hashed) == hashed.len(),
    decreases hashed.len(),
{
    reveal(Seq::filter);
    if hashed.len() > 0 {
        let earlier = hashed.drop_last();
        assert forall|i: int| 0 <= i < earlier.len() implies earlier[i] is Ok by {
            assert(earlier[i] == hashed[i]);
        }
        lemma_all_hashed(earlier);
        assert(hashed.last() == hashed[hashed.len() - 1]);
    }
}

/// Counts the files whose content was hashed.
fn count_hashed(hashed: &Vec<Result<(ContentHash, FileInfo), Error>>) -> (count: usize)
    ensures
        count == hashed_count(hashed@),
{
    let mut count: usize = 0;
    let mut i: usize = 0;
    proof {
        lemma_filter_empty(was_hashed());
        assert(hashed@.take(0) =~= Seq::<Result<(ContentHash, FileInfo), Error>>::empty());
    }
    while i < hashed.len()
        invariant
            i <= hashed@.len(),
            count <= i,
            count == hashed@.take(i as int).filter(was_hashed()).len(),
        decreases hashed@.len() - i,
    {
        proof {
            lemma_filter_take_step(hashed@, i as int, was_hashed());
        }
        if hashed[i].is_ok() {
            count += 1;
        }
        i += 1;
    }
    assert(hashed@.take(i as int) =~= hashed@);
    count
}

/// Groups the hashed files of one bucket by equal hash and keeps the groups
/// of two or more.
///
/// `hashed` holds, for each file of the bucket in order, its hash and
/// record, or the failure to hash it. `hash_count` is set to the number of
/// files that were hashed, whatever it held before and whether or not
/// another file failed. If any file failed, the first failure is returned
/// and no group is reported. Otherwise the result is `duplicate_groups` of
/// the hashed files.
pub fn find_duplicates(
    hashed: Vec<Result<(ContentHash, FileInfo), Error>>,
    hash_count: &mut usize,
) -> (outcome: Result<Vec<Vec<FileInfo>>, Error>)
    ensures
        *final(hash_count) == hashed_count(hashed@),
        match outcome {
            Ok(groups) => {
                &&& forall|i: int| 0 <= i < hashed@.len() ==> hashed@[i] is Ok
                &&& group_views(groups@) == duplicate_groups(pairs_of(hashed@))
            },
            Err(e) => exists|n: int|
                {
                    &&& 0 <= n < hashed@.len()
                    &&& #[trigger] hashed@[n] == Err::<(ContentHash, FileInfo), Error>(e)
                    &&& forall|i: int| 0 <= i < n ==> hashed@[i] is Ok
                },
        },
{
    *hash_count = count_hashed(&hashed);
    let ghost items = hashed@;
    let ghost pairs = pairs_of(items);
    let mut index = HashIndex::new();
    let mut buckets: Vec<Vec<FileInfo>> = Vec::new();
    proof {
        assert(pairs.take(0) =~= Seq::<Hashed>::empty());
        assert(hashes_of(pairs.take(0)) =~= Seq::<Seq<u8>>::empty());
    }
    for item in it: hashed
        invariant
            items == it.seq(),
            items == hashed@,
            pairs == pairs_of(items),
            *hash_count == hashed_count(items),
            forall|i: int| 0 <= i < it.index() ==> items[i] is Ok,
            index.wf(),
            index.known() == distinct_hashes(hashes_of(pairs.take(it.index()))),
            buckets@.len() == index.known().len(),
            forall|j: int|
                0 <= j < buckets@.len() ==> views_of(#[trigger] buckets@[j]@) == members_with(
                    pairs.take(it.index()),
                    index.known()[j],
                ),
    {
        let ghost k = it.index();
        assert(item == items[k]);
        match item {
            Err(e) => {
                assert(hashed@[k] == Err::<(ContentHash, FileInfo), Error>(e));
                return Err(e);
            },
            Ok((hash, file)) => {
                let ghost known = index.known();
                proof {
                    assert(pairs[k] == (hash@, file@));
                    lemma_distinct_hashes_contains(hashes_of(pairs.take(k)), hash@);
                    assert forall|j: int| 0 <= j < known.len() implies members_with(
                        pairs.take(k + 1),
                        known[j],
                    ) == if known[j] == hash@ {
                        members_with(pairs.take(k), known[j]).push(file@)
                    } else {
                        members_with(pairs.take(k), known[j])
                    } by {
                        lemma_group_step(pairs, k, known[j]);
                    }
                    lemma_group_step(pairs, k, hash@);
                }
                match index.find(&hash) {
                    Some(j) => {
                        assert(known.contains(hash@));
                        let ghost earlier = views_of(buckets@[j as int]@);
                        buckets[j].push(file);
                        assert(views_of(buckets@[j as int]@) =~= earlier.push(file@));
                    },
                    None => {
                        proof {
                            lemma_members_absent(pairs.take(k), hash@);
                        }
                        index.add(hash);
                        let mut fresh: Vec<FileInfo> = Vec::new();
                        fresh.push(file);
                        assert(views_of(fresh@) =~= Seq::<FileInfoView>::empty().push(file@));
                        buckets.push(fresh);
                    },
                }
            },
        }
    }
    let ghost all = group_views(buckets@);
    let ghost keep = |g: Seq<FileInfoView>| g.len() >= 2;
    proof {
        assert(pairs.take(items.len() as int) =~= pairs);
        assert(all =~= distinct_hashes(hashes_of(pairs)).map_values(
            |h: Seq<u8>| members_with(pairs, h),
        )) by {
            assert forall|j: int| 0 <= j < buckets@.len() implies all[j] == members_with(
                pairs,
                distinct_hashes(hashes_of(pairs))[j],
            ) by {}
        }
        lemma_filter_empty(keep);
        assert(all.take(0) =~= Seq::<Seq<FileInfoView>>::empty());
    }
    let mut groups: Vec<Vec<FileInfo>> = Vec::new();
    for members in it: buckets
        invariant
            all == group_views(it.seq()),
            keep == |g: Seq<FileInfoView>| g.len() >= 2,
            group_views(groups@) == all.take(it.index()).filter(keep),
    {
        let ghost k = it.index();
        proof {
            lemma_filter_take_step(all, k, keep);
            assert(all[k] == views_of(members@));
        }
        if members.len() >= 2 {
            let ghost kept = group_views(groups@);
            groups.push(members);
            assert(group_views(groups@) =~= kept.push(all[k]));
        }
    }
    assert(all.take(all.len() as int) =~= all);
    Ok(groups)
}

} // verus!
