//! The order of a duplicate group: a stable sort by the comparison of
//! [`crate::sorting`], with what it guarantees.

use crate::seqs::{lemma_filter_insert, lemma_filter_none, lemma_insert_to_multiset};
use crate::sorting::{
    is_after, is_preferred, lemma_is_after_laws, lemma_preferred_is_less, SortBy, SortOptions,
};
use crate::types::{views_of, FileInfo, FileInfoView};
use vstd::prelude::*;

verus! {

/// `sorted` with `x` put in after every file that need not stand after it.
pub open spec fn placed(
    prefer: Option<Seq<char>>,
    keys: Seq<SortBy>,
    sorted: Seq<FileInfoView>,
    x: FileInfoView,
) -> Seq<FileInfoView>
    decreases sorted.len(),
{
    if sorted.len() == 0 {
        seq![x]
    } else if is_after(prefer, keys, sorted[0], x) {
        seq![x] + sorted
    } else {
        seq![sorted[0]] + placed(prefer, keys, sorted.skip(1), x)
    }
}

/// The files of `group` in the order of the group: each file is put in, in
/// turn, behind the files that need not stand after it, so that files which
/// tie keep the order in which they came.
pub open spec fn sorted_group(
    prefer: Option<Seq<char>>,
    keys: Seq<SortBy>,
    group: Seq<FileInfoView>,
) -> Seq<FileInfoView>
    decreases group.len(),
{
    if group.len() == 0 {
        Seq::empty()
    } else {
        placed(prefer, keys, sorted_group(prefer, keys, group.drop_last()), group.last())
    }
}

/// No file of `s` stands before one that it must stand after.
pub open spec fn is_sorted(prefer: Option<Seq<char>>, keys: Seq<SortBy>, s: Seq<FileInfoView>) -> bool {
    forall|i: int, j: int| 0 <= i < j < s.len() ==> !is_after(prefer, keys, s[i], s[j])
}

/// Where `x` goes into `sorted`: `at` is the place if no file before it
/// must stand after `x` and the file at it, if there is one, must.
pub proof fn lemma_placed_at(
    prefer: Option<Seq<char>>,
    keys: Seq<SortBy>,
    sorted: Seq<FileInfoView>,
    x: FileInfoView,
    at: int,
)
    requires
        0 <= at <= sorted.len(),
        forall|j: int| 0 <= j < at ==> !is_after(prefer, keys, sorted[j], x),
        at < sorted.len() ==> is_after(prefer, keys, sorted[at], x),
    ensures
        placed(prefer, keys, sorted, x) == sorted.insert(at, x),
    decreases sorted.len(),
{
    if sorted.len() == 0 {
        assert(sorted.insert(at, x) =~= seq![x]);
    } else if at == 0 {
        assert(sorted.insert(0, x) =~= seq![x] + sorted);
    } else {
        let rest = sorted.skip(1);
        assert forall|j: int| 0 <= j < at - 1 implies !is_after(prefer, keys, rest[j], x) by {
            assert(rest[j] == sorted[j + 1]);
        }
        lemma_placed_at(prefer, keys, rest, x, at - 1);
        assert(sorted.insert(at, x) =~= seq![sorted[0]] + rest.insert(at - 1, x));
    }
}

/// The place at which `placed` puts `x` into `sorted`.
pub open spec fn place_of(
    prefer: Option<Seq<char>>,
    keys: Seq<SortBy>,
    sorted: Seq<FileInfoView>,
    x: FileInfoView,
) -> int
    decreases sorted.len(),
{
    if sorted.len() == 0 || is_after(prefer, keys, sorted[0], x) {
        0
    } else {
        1 + place_of(prefer, keys, sorted.skip(1), x)
    }
}

proof fn lemma_place_of(
    prefer: Option<Seq<char>>,
    keys: Seq<SortBy>,
    sorted: Seq<FileInfoView>,
    x: FileInfoView,
)
    ensures
        0 <= place_of(prefer, keys, sorted, x) <= sorted.len(),
        forall|j: int|
            0 <= j < place_of(prefer, keys, sorted, x) ==> !is_after(prefer, keys, sorted[j], x),
        place_of(prefer, keys, sorted, x) < sorted.len() ==> is_after(
            prefer,
            keys,
            sorted[place_of(prefer, keys, sorted, x)],
            x,
        ),
        placed(prefer, keys, sorted, x) == sorted.insert(place_of(prefer, keys, sorted, x), x),
    decreases sorted.len(),
{
    if sorted.len() > 0 && !is_after(prefer, keys, sorted[0], x) {
        let rest = sorted.skip(1);
        lemma_place_of(prefer, keys, rest, x);
        let at = place_of(prefer, keys, sorted, x);
        assert forall|j: int| 0 <= j < at implies !is_after(prefer, keys, sorted[j], x) by {
            if j > 0 {
                assert(rest[j - 1] == sorted[j]);
            }
        }
        if at < sorted.len() {
            assert(rest[at - 1] == sorted[at]);
        }
    }
    lemma_placed_at(prefer, keys, sorted, x, place_of(prefer, keys, sorted, x));
}

/// Putting a file into a sorted sequence leaves it sorted and adds that
/// file and nothing else.
pub proof fn lemma_placed_sorted(
    prefer: Option<Seq<char>>,
    keys: Seq<SortBy>,
    sorted: Seq<FileInfoView>,
    x: FileInfoView,
)
    requires
        is_sorted(prefer, keys, sorted),
    ensures
        is_sorted(prefer, keys, placed(prefer, keys, sorted, x)),
        placed(prefer, keys, sorted, x).to_multiset() == sorted.to_multiset().insert(x),
        placed(prefer, keys, sorted, x).len() == sorted.len() + 1,
{
    lemma_place_of(prefer, keys, sorted, x);
    let at = place_of(prefer, keys, sorted, x);
    let out = sorted.insert(at, x);
    lemma_insert_to_multiset(sorted, at, x);
    assert forall|i: int, j: int| 0 <= i < j < out.len() implies !is_after(
        prefer,
        keys,
        out[i],
        out[j],
    ) by {
        if j < at {
            assert(out[i] == sorted[i] && out[j] == sorted[j]);
        } else if j == at {
            assert(out[i] == sorted[i] && out[j] == x);
        } else if i == at {
            assert(out[i] == x && out[j] == sorted[j - 1]);
            lemma_is_after_laws(prefer, keys, sorted[at], x, x);
            lemma_is_after_laws(prefer, keys, sorted[at], sorted[at], x);
            lemma_is_after_laws(prefer, keys, x, sorted[at], sorted[j - 1]);
        } else if i < at {
            assert(out[i] == sorted[i] && out[j] == sorted[j - 1]);
        } else {
            assert(out[i] == sorted[i - 1] && out[j] == sorted[j - 1]);
        }
    }
}

/// The order of a group is sorted and holds the files of the group, each
/// as often as the group does.
pub proof fn lemma_sorted_group(
    prefer: Option<Seq<char>>,
    keys: Seq<SortBy>,
    group: Seq<FileInfoView>,
)
    ensures
        is_sorted(prefer, keys, sorted_group(prefer, keys, group)),
        sorted_group(prefer, keys, group).to_multiset() == group.to_multiset(),
        sorted_group(prefer, keys, group).len() == group.len(),
    decreases group.len(),
{
    if group.len() > 0 {
        let earlier = group.drop_last();
        lemma_sorted_group(prefer, keys, earlier);
        lemma_placed_sorted(prefer, keys, sorted_group(prefer, keys, earlier), group.last());
        assert(earlier.push(group.last()) =~= group);
        earlier.to_multiset_ensures();
    } else {
        assert(group =~= Seq::<FileInfoView>::empty());
    }
}

/// A group that is sorted already keeps its order.
pub proof fn lemma_sorted_group_unchanged(
    prefer: Option<Seq<char>>,
    keys: Seq<SortBy>,
    group: Seq<FileInfoView>,
)
    requires
        is_sorted(prefer, keys, group),
    ensures
        sorted_group(prefer, keys, group) == group,
    decreases group.len(),
{
    if group.len() > 0 {
        let earlier = group.drop_last();
        assert(is_sorted(prefer, keys, earlier)) by {
            assert forall|i: int, j: int| 0 <= i < j < earlier.len() implies !is_after(
                prefer,
                keys,
                earlier[i],
                earlier[j],
            ) by {
                assert(earlier[i] == group[i] && earlier[j] == group[j]);
            }
        }
        lemma_sorted_group_unchanged(prefer, keys, earlier);
        assert forall|j: int| 0 <= j < earlier.len() implies !is_after(
            prefer,
            keys,
            earlier[j],
            group.last(),
        ) by {
            assert(earlier[j] == group[j]);
        }
        lemma_placed_at(prefer, keys, earlier, group.last(), earlier.len() as int);
        assert(earlier.insert(earlier.len() as int, group.last()) =~= group);
    } else {
        assert(group =~= Seq::<FileInfoView>::empty());
    }
}

/// The test whether a file ties with `x`: neither must stand after the
/// other.
pub open spec fn ties_with(
    prefer: Option<Seq<char>>,
    keys: Seq<SortBy>,
    x: FileInfoView,
) -> spec_fn(FileInfoView) -> bool {
    |y: FileInfoView| !is_after(prefer, keys, x, y) && !is_after(prefer, keys, y, x)
}

/// The order of a group is stable: the files that tie with one another
/// stand in it in the order in which they came.
pub proof fn lemma_sort_is_stable(
    prefer: Option<Seq<char>>,
    keys: Seq<SortBy>,
    group: Seq<FileInfoView>,
    x: FileInfoView,
)
    ensures
        sorted_group(prefer, keys, group).filter(ties_with(prefer, keys, x)) == group.filter(
            ties_with(prefer, keys, x),
        ),
    decreases group.len(),
{
    reveal(Seq::filter);
    if group.len() > 0 {
        let ties = ties_with(prefer, keys, x);
        let earlier = group.drop_last();
        let e = group.last();
        let s = sorted_group(prefer, keys, earlier);
        lemma_sort_is_stable(prefer, keys, earlier, x);
        lemma_sorted_group(prefer, keys, earlier);
        lemma_place_of(prefer, keys, s, e);
        let at = place_of(prefer, keys, s, e);
        lemma_filter_insert(s, at, e, ties);
        if ties(e) {
            let behind = s.skip(at);
            assert forall|k: int| 0 <= k < behind.len() implies !ties(behind[k]) by {
                let y = behind[k];
                assert(y == s[at + k]);
                // what stands at the place must stand after `e`, and so
                // must all that stands behind it
                lemma_is_after_laws(prefer, keys, s[at], y, e);
                // a file that ties with `x`, as `e` does, ties with `e`
                lemma_is_after_laws(prefer, keys, y, x, e);
            }
            lemma_filter_none(behind, ties);
            assert(s.insert(at, e).filter(ties) =~= s.filter(ties).push(e));
        } else {
            assert(s.insert(at, e).filter(ties) =~= s.filter(ties));
        }
    }
}

/// Sorting a group twice gives what sorting it once gives.
pub proof fn lemma_sorting_is_idempotent(
    prefer: Option<Seq<char>>,
    keys: Seq<SortBy>,
    group: Seq<FileInfoView>,
)
    ensures
        sorted_group(prefer, keys, sorted_group(prefer, keys, group)) == sorted_group(
            prefer,
            keys,
            group,
        ),
{
    lemma_sorted_group(prefer, keys, group);
    lemma_sorted_group_unchanged(prefer, keys, sorted_group(prefer, keys, group));
}

/// In the order of a group every file within the preferred location stands
/// before every file outside it, whatever the sort keys are.
pub proof fn lemma_preferred_first(
    prefer: Option<Seq<char>>,
    keys: Seq<SortBy>,
    group: Seq<FileInfoView>,
    i: int,
    j: int,
)
    requires
        0 <= i < sorted_group(prefer, keys, group).len(),
        0 <= j < sorted_group(prefer, keys, group).len(),
        is_preferred(prefer, sorted_group(prefer, keys, group)[i]),
        !is_preferred(prefer, sorted_group(prefer, keys, group)[j]),
    ensures
        i < j,
{
    lemma_sorted_group(prefer, keys, group);
    let sorted = sorted_group(prefer, keys, group);
    lemma_preferred_is_less(prefer, keys, sorted[i], sorted[j]);
    if j < i {
        assert(!is_after(prefer, keys, sorted[j], sorted[i]));
    }
}

impl SortOptions {
    /// Puts the files of a duplicate group in order. Files that tie keep
    /// the order in which they came.
    pub fn sort_group(&self, group: Vec<FileInfo>) -> (sorted: Vec<FileInfo>)
        ensures
            views_of(sorted@) == sorted_group(self.prefer(), self.sort_by@, views_of(group@)),
    {
        let ghost prefer = self.prefer();
        let ghost keys = self.sort_by@;
        let ghost all = views_of(group@);
        let mut sorted: Vec<FileInfo> = Vec::new();
        assert(all.take(0) =~= Seq::<FileInfoView>::empty());
        for file in it: group
            invariant
                prefer == self.prefer(),
                keys == self.sort_by@,
                all == views_of(it.seq()),
                views_of(sorted@) == sorted_group(prefer, keys, all.take(it.index())),
        {
            let ghost n = it.index();
            let ghost before = views_of(sorted@);
            proof {
                assert(all.take(n + 1).drop_last() =~= all.take(n));
                assert(all.take(n + 1).last() == file@);
                lemma_sorted_group(prefer, keys, all.take(n));
            }
            let mut lo: usize = 0;
            let mut hi: usize = sorted.len();
            while lo < hi
                invariant
                    prefer == self.prefer(),
                    keys == self.sort_by@,
                    before == views_of(sorted@),
                    is_sorted(prefer, keys, before),
                    lo <= hi <= sorted@.len(),
                    forall|j: int| 0 <= j < lo ==> !is_after(prefer, keys, before[j], file@),
                    forall|j: int| hi <= j < before.len() ==> is_after(prefer, keys, before[j], file@),
                decreases hi - lo,
            {
                let mid = lo + (hi - lo) / 2;
                if self.comes_after(&sorted[mid], &file) {
                    assert forall|j: int| mid <= j < before.len() implies is_after(
                        prefer,
                        keys,
                        before[j],
                        file@,
                    ) by {
                        lemma_is_after_laws(prefer, keys, before[mid as int], before[j], file@);
                        lemma_is_after_laws(prefer, keys, before[mid as int], before[mid as int], file@);
                    }
                    hi = mid;
                } else {
                    assert forall|j: int| 0 <= j < mid + 1 implies !is_after(
                        prefer,
                        keys,
                        before[j],
                        file@,
                    ) by {
                        lemma_is_after_laws(prefer, keys, before[j], before[mid as int], file@);
                        lemma_is_after_laws(prefer, keys, before[mid as int], before[mid as int], file@);
                    }
                    lo = mid + 1;
                }
            }
            proof {
                lemma_placed_at(prefer, keys, before, file@, lo as int);
            }
            sorted.insert(lo, file);
            assert(views_of(sorted@) =~= before.insert(lo as int, file@));
        }
        assert(all.take(all.len() as int) =~= all);
        sorted
    }
}

} // verus!
