//! Sort criteria, lists of them, and the comparison of two files of a
//! duplicate group.

use crate::order::{
    bytes_order, component_order, components_order,
    kind_rank, lemma_path_parts_order_laws, mtime_order, nat_order, obeys_order_laws,
    optional_bytes_order, optional_components_order, path_parts_order, tie_break,
};
use crate::paths::{
    component_views, components_within, extension, file_name, file_stem, parent, path_components,
    split_path, ComponentView, PathComponent,
};
use crate::types::{Error, FileInfo, FileInfoView};
use std::cmp::Ordering;
use vstd::prelude::*;
use vstd::string::{StrSliceExecFns, StringExecFns};

verus! {

/// A criterion by which the files of a duplicate group are ordered.
#[derive(Debug, Clone, Copy, Hash, PartialEq, Eq, Structural)]
pub enum SortBy {
    /// Traversal depth, shallow first.
    Depth,
    /// Modification time, old first; files without one come last.
    ModificationTime,
    /// Parent directory, then file stem, then file extension.
    PathParts,
}

/// The criterion that the word `name` stands for.
pub open spec fn key_named(name: Seq<char>) -> Option<SortBy> {
    if name == "depth"@ {
        Some(SortBy::Depth)
    } else if name == "mtime"@ {
        Some(SortBy::ModificationTime)
    } else if name == "path"@ {
        Some(SortBy::PathParts)
    } else {
        None
    }
}

/// `keys` if it lacks `key`, nothing otherwise.
pub open spec fn missing(keys: Seq<SortBy>, key: SortBy) -> Seq<SortBy> {
    if keys.contains(key) {
        Seq::empty()
    } else {
        seq![key]
    }
}

/// `keys` followed by the criteria it lacks, in the order modification
/// time, path parts, depth.
pub open spec fn completed(keys: Seq<SortBy>) -> Seq<SortBy> {
    keys + missing(keys, SortBy::ModificationTime) + missing(keys, SortBy::PathParts) + missing(
        keys,
        SortBy::Depth,
    )
}

impl SortBy {
    /// Reads a criterion from its word: `depth`, `mtime` or `path`.
    pub fn from_str(s: &str) -> (parsed: Result<SortBy, Error>)
        ensures
            match key_named(s@) {
                Some(key) => parsed == Ok::<SortBy, Error>(key),
                None => parsed matches Err(Error::InvalidSortKey(word)) && word@ == s@,
            },
    {
        let word = String::from_str(s);
        if word == String::from_str("depth") {
            Ok(SortBy::Depth)
        } else if word == String::from_str("mtime") {
            Ok(SortBy::ModificationTime)
        } else if word == String::from_str("path") {
            Ok(SortBy::PathParts)
        } else {
            Err(Error::InvalidSortKey(word))
        }
    }
}

impl std::str::FromStr for SortBy {
    type Err = Error;

    /// Reads a criterion from its word, as [`SortBy::from_str`] does.
    fn from_str(s: &str) -> (parsed: Result<SortBy, Error>)
        ensures
            match key_named(s@) {
                Some(key) => parsed == Ok::<SortBy, Error>(key),
                None => parsed matches Err(Error::InvalidSortKey(word)) && word@ == s@,
            },
    {
        SortBy::from_str(s)
    }
}

/// An ordered list of the three sort criteria, each exactly once.
#[derive(Debug, Clone)]
pub struct SortKeys {
    keys: Vec<SortBy>,
}

impl View for SortKeys {
    type V = Seq<SortBy>;

    closed spec fn view(&self) -> Seq<SortBy> {
        self.keys@
    }
}

/// A list of criteria is complete if it holds each of the three exactly
/// once.
pub open spec fn is_complete(keys: Seq<SortBy>) -> bool {
    &&& keys.len() == 3
    &&& keys.no_duplicates()
    &&& keys.contains(SortBy::Depth)
    &&& keys.contains(SortBy::ModificationTime)
    &&& keys.contains(SortBy::PathParts)
}

impl SortKeys {
    /// Every list of sort keys is complete.
    pub open spec fn wf(&self) -> bool {
        is_complete(self@)
    }

    /// The criteria of this list, most significant first.
    pub fn keys(&self) -> (keys: &[SortBy])
        ensures
            keys@ == self@,
    {
        self.keys.as_slice()
    }

    /// The default list: modification time, then path parts, then depth.
    pub open spec fn default_keys() -> Seq<SortBy> {
        seq![SortBy::ModificationTime, SortBy::PathParts, SortBy::Depth]
    }

    /// Makes a list of sort keys from the criteria given, most significant
    /// first. Criteria that are not given follow them in the default order.
    /// A list that names a criterion twice is refused.
    pub fn new(keys: Vec<SortBy>) -> (made: Option<SortKeys>)
        ensures
            made is Some <==> keys@.no_duplicates(),
            made matches Some(list) ==> list@ == completed(keys@) && list.wf(),
    {
        let mut seen_depth = false;
        let mut seen_mtime = false;
        let mut seen_path = false;
        let mut i: usize = 0;
        while i < keys.len()
            invariant
                i <= keys@.len(),
                forall|p: int, q: int| 0 <= p < q < i ==> keys@[p] != keys@[q],
                seen_depth <==> exists|j: int| 0 <= j < i && keys@[j] == SortBy::Depth,
                seen_mtime <==> exists|j: int| 0 <= j < i && keys@[j] == SortBy::ModificationTime,
                seen_path <==> exists|j: int| 0 <= j < i && keys@[j] == SortBy::PathParts,
                i == (if seen_depth { 1int } else { 0int }) + (if seen_mtime { 1int } else { 0int })
                    + (if seen_path { 1int } else { 0int }),
            decreases keys@.len() - i,
        {
            let twice = match keys[i] {
                SortBy::Depth => seen_depth,
                SortBy::ModificationTime => seen_mtime,
                SortBy::PathParts => seen_path,
            };
            if twice {
                proof {
                    let j = choose|j: int| 0 <= j < i && keys@[j] == keys@[i as int];
                    assert(keys@[j] == keys@[i as int] && j != i);
                }
                return None;
            }
            match keys[i] {
                SortBy::Depth => {
                    seen_depth = true;
                },
                SortBy::ModificationTime => {
                    seen_mtime = true;
                },
                SortBy::PathParts => {
                    seen_path = true;
                },
            }
            i += 1;
        }
        let ghost given = keys@;
        assert(given.contains(SortBy::Depth) == seen_depth);
        assert(given.contains(SortBy::ModificationTime) == seen_mtime);
        assert(given.contains(SortBy::PathParts) == seen_path);
        let mut keys = keys;
        if !seen_mtime {
            keys.push(SortBy::ModificationTime);
        }
        if !seen_path {
            keys.push(SortBy::PathParts);
        }
        if !seen_depth {
            keys.push(SortBy::Depth);
        }
        proof {
            let all = keys@;
            assert(all =~= completed(given));
            assert(all.len() == 3);
            assert forall|k: SortBy| all.contains(k) by {
                if given.contains(k) {
                    let j = choose|j: int| 0 <= j < given.len() && given[j] == k;
                    assert(all[j] == k);
                } else {
                    assert(all[0] == k || all[1] == k || all[2] == k);
                }
            }
            assert forall|p: int, q: int| 0 <= p < q < all.len() implies all[p] != all[q] by {
                if q < given.len() {
                    assert(given[p] == all[p] && given[q] == all[q]);
                } else if p < given.len() {
                    assert(given[p] == all[p]);
                    assert(given.contains(all[p]));
                }
            }
        }
        Some(SortKeys { keys })
    }
}

impl Default for SortKeys {
    /// The default list: modification time, then path parts, then depth.
    fn default() -> (list: SortKeys)
        ensures
            list@ == SortKeys::default_keys(),
            list.wf(),
    {
        let mut keys: Vec<SortBy> = Vec::new();
        keys.push(SortBy::ModificationTime);
        keys.push(SortBy::PathParts);
        keys.push(SortBy::Depth);
        proof {
            let all = keys@;
            assert(all =~= seq![SortBy::ModificationTime, SortBy::PathParts, SortBy::Depth]);
            assert(all[0] == SortBy::ModificationTime);
            assert(all[1] == SortBy::PathParts);
            assert(all[2] == SortBy::Depth);
        }
        SortKeys { keys }
    }
}

/// The place of the first comma in `s`; the length of `s` if it has none.
pub open spec fn first_comma(s: Seq<char>) -> int
    decreases s.len(),
{
    if s.len() == 0 || s[0] == ',' {
        0
    } else {
        1 + first_comma(s.skip(1))
    }
}

/// The fields of `s` between its commas, in order. A text without a comma
/// is one field, and so is the empty text.
pub open spec fn split_commas(s: Seq<char>) -> Seq<Seq<char>>
    decreases s.len(),
{
    let at = first_comma(s);
    if 0 <= at < s.len() {
        seq![s.take(at)] + split_commas(s.skip(at + 1))
    } else {
        seq![s]
    }
}

/// The criteria that a sequence of words stands for, where each word
/// stands for one.
pub open spec fn named_keys(words: Seq<Seq<char>>) -> Seq<SortBy> {
    words.map_values(|w: Seq<char>| key_named(w)->0)
}

/// The texts of a sequence of strings.
pub open spec fn texts_of(strings: Seq<String>) -> Seq<Seq<char>> {
    strings.map_values(|t: String| t@)
}

proof fn lemma_first_comma(s: Seq<char>, at: int)
    requires
        0 <= at <= s.len(),
        forall|k: int| 0 <= k < at ==> s[k] != ',',
        at < s.len() ==> s[at] == ',',
    ensures
        first_comma(s) == at,
    decreases s.len(),
{
    if at > 0 {
        let rest = s.skip(1);
        assert forall|k: int| 0 <= k < at - 1 implies rest[k] != ',' by {
            assert(rest[k] == s[k + 1]);
        }
        lemma_first_comma(rest, at - 1);
    }
}

/// Splits a text at its commas.
pub fn split_at_commas(s: &str) -> (fields: Vec<String>)
    ensures
        texts_of(fields@) == split_commas(s@),
{
    let n = s.unicode_len();
    let mut fields: Vec<String> = Vec::new();
    let mut start: usize = 0;
    let mut i: usize = 0;
    assert(s@.skip(0) =~= s@);
    assert(texts_of(fields@) =~= Seq::<Seq<char>>::empty());
    while i < n
        invariant
            n == s@.len(),
            start <= i <= n,
            forall|k: int| start <= k < i ==> s@[k] != ',',
            split_commas(s@) == texts_of(fields@) + split_commas(s@.skip(start as int)),
        decreases n - i,
    {
        if s.get_char(i) == ',' {
            let ghost rest = s@.skip(start as int);
            let ghost done = texts_of(fields@);
            proof {
                assert forall|k: int| 0 <= k < i - start implies rest[k] != ',' by {
                    assert(rest[k] == s@[start + k]);
                }
                lemma_first_comma(rest, i - start);
                assert(rest.take(i - start) =~= s@.subrange(start as int, i as int));
                assert(rest.skip(i - start + 1) =~= s@.skip(i + 1));
            }
            fields.push(String::from_str(s.substring_char(start, i)));
            assert(texts_of(fields@) =~= done.push(s@.subrange(start as int, i as int)));
            start = i + 1;
        }
        i += 1;
    }
    let ghost rest = s@.skip(start as int);
    let ghost done = texts_of(fields@);
    proof {
        assert forall|k: int| 0 <= k < rest.len() implies rest[k] != ',' by {
            assert(rest[k] == s@[start + k]);
        }
        lemma_first_comma(rest, rest.len() as int);
        assert(rest =~= s@.subrange(start as int, n as int));
    }
    fields.push(String::from_str(s.substring_char(start, n)));
    assert(texts_of(fields@) =~= done.push(rest));
    fields
}

/// What reading the text `text` as a list of sort keys gives. The text is
/// split at its commas. If every word names a criterion and none is named
/// twice, the list is the criteria named, completed. Otherwise the failure
/// is the first word that names no criterion or, if there is no such word,
/// that a criterion is named twice.
pub open spec fn reads_as(text: Seq<char>, parsed: Result<SortKeys, Error>) -> bool {
    let words = split_commas(text);
    match parsed {
        Ok(list) => {
            &&& forall|i: int| 0 <= i < words.len() ==> key_named(#[trigger] words[i]) is Some
            &&& named_keys(words).no_duplicates()
            &&& list@ == completed(named_keys(words))
            &&& list.wf()
        },
        Err(Error::InvalidSortKey(word)) => exists|n: int|
            {
                &&& 0 <= n < words.len()
                &&& #[trigger] words[n] == word@
                &&& key_named(word@) is None
                &&& forall|i: int| 0 <= i < n ==> key_named(#[trigger] words[i]) is Some
            },
        Err(Error::DuplicateSortKeys) => {
            &&& forall|i: int| 0 <= i < words.len() ==> key_named(#[trigger] words[i]) is Some
            &&& !named_keys(words).no_duplicates()
        },
        Err(_) => false,
    }
}

impl SortKeys {
    /// Reads a list of sort keys from words separated by commas, most
    /// significant first. The first word that names no criterion is
    /// reported; failing that, a criterion named twice is.
    pub fn from_str(s: &str) -> (parsed: Result<SortKeys, Error>)
        ensures
            reads_as(s@, parsed),
    {
        let fields = split_at_commas(s);
        let ghost words = split_commas(s@);
        let mut keys: Vec<SortBy> = Vec::new();
        let mut i: usize = 0;
        while i < fields.len()
            invariant
                words == texts_of(fields@),
                words == split_commas(s@),
                i <= fields@.len(),
                forall|j: int| 0 <= j < i ==> key_named(#[trigger] words[j]) is Some,
                keys@ == named_keys(words.take(i as int)),
            decreases fields@.len() - i,
        {
            assert(words[i as int] == fields@[i as int]@);
            match SortBy::from_str(fields[i].as_str()) {
                Ok(key) => {
                    keys.push(key);
                    assert(keys@ =~= named_keys(words.take(i + 1)));
                },
                Err(e) => {
                    return Err(e);
                },
            }
            i += 1;
        }
        assert(words.take(i as int) =~= words);
        match SortKeys::new(keys) {
            Some(list) => Ok(list),
            None => Err(Error::DuplicateSortKeys),
        }
    }
}

impl std::str::FromStr for SortKeys {
    type Err = Error;

    /// Reads a list of sort keys, as [`SortKeys::from_str`] does.
    fn from_str(s: &str) -> (parsed: Result<SortKeys, Error>)
        ensures
            reads_as(s@, parsed),
    {
        SortKeys::from_str(s)
    }
}

/// The order of two files by one criterion.
pub open spec fn key_order(key: SortBy, a: FileInfoView, b: FileInfoView) -> Ordering {
    match key {
        SortBy::Depth => nat_order(a.depth, b.depth),
        SortBy::ModificationTime => mtime_order(a.mtime, b.mtime),
        SortBy::PathParts => path_parts_order(path_components(a.path), path_components(b.path)),
    }
}

/// The order of two files by a list of criteria: by the first criterion
/// that tells them apart.
pub open spec fn keys_order(keys: Seq<SortBy>, a: FileInfoView, b: FileInfoView) -> Ordering
    decreases keys.len(),
{
    if keys.len() == 0 {
        Ordering::Equal
    } else {
        tie_break(key_order(keys[0], a, b), keys_order(keys.skip(1), a, b))
    }
}

/// Whether a file lies within the preferred location, if there is one.
pub open spec fn is_preferred(prefer: Option<Seq<char>>, a: FileInfoView) -> bool {
    prefer matches Some(dir) && path_components(dir).is_prefix_of(path_components(a.path))
}

/// The order of two files within a duplicate group: a file within the
/// preferred location before one outside it, and otherwise by the list of
/// criteria.
pub open spec fn group_order(
    prefer: Option<Seq<char>>,
    keys: Seq<SortBy>,
    a: FileInfoView,
    b: FileInfoView,
) -> Ordering {
    if is_preferred(prefer, a) && !is_preferred(prefer, b) {
        Ordering::Less
    } else if !is_preferred(prefer, a) && is_preferred(prefer, b) {
        Ordering::Greater
    } else {
        keys_order(keys, a, b)
    }
}

/// The bytes of an optional byte string.
pub open spec fn optional_bytes(a: Option<&[u8]>) -> Option<Seq<u8>> {
    match a {
        Some(bytes) => Some(bytes@),
        None => None,
    }
}

/// The components of an optional component sequence.
pub open spec fn optional_components(a: Option<&[PathComponent]>) -> Option<Seq<ComponentView>> {
    match a {
        Some(parts) => Some(component_views(parts@)),
        None => None,
    }
}

/// Compares two byte strings.
pub fn compare_bytes(a: &[u8], b: &[u8]) -> (o: Ordering)
    ensures
        o == bytes_order(a@, b@),
{
    let mut i: usize = 0;
    let ghost mut k: int = 0;
    assert(a@.skip(0) =~= a@ && b@.skip(0) =~= b@);
    while i < a.len() && i < b.len()
        invariant
            k == i,
            k <= a@.len(),
            k <= b@.len(),
            bytes_order(a@, b@) == bytes_order(a@.skip(k), b@.skip(k)),
        decreases a@.len() - k,
    {
        proof {
            assert(a@.skip(k)[0] == a@[k]);
            assert(b@.skip(k)[0] == b@[k]);
            assert(a@.skip(k).skip(1) =~= a@.skip(k + 1));
            assert(b@.skip(k).skip(1) =~= b@.skip(k + 1));
        }
        if a[i] < b[i] {
            return Ordering::Less;
        }
        if a[i] > b[i] {
            return Ordering::Greater;
        }
        i += 1;
        proof {
            k = k + 1;
        }
    }
    if i < b.len() {
        Ordering::Less
    } else if i < a.len() {
        Ordering::Greater
    } else {
        Ordering::Equal
    }
}

/// The place of a component's kind among the kinds.
fn rank_of(c: &PathComponent) -> (rank: u8)
    ensures
        rank == kind_rank(c@),
{
    match c {
        PathComponent::Prefix(_) => 0,
        PathComponent::RootDir => 1,
        PathComponent::CurDir => 2,
        PathComponent::ParentDir => 3,
        PathComponent::Normal(_) => 4,
    }
}

/// Compares two components.
pub fn compare_component(a: &PathComponent, b: &PathComponent) -> (o: Ordering)
    ensures
        o == component_order(a@, b@),
{
    let ra = rank_of(a);
    let rb = rank_of(b);
    if ra < rb {
        Ordering::Less
    } else if ra > rb {
        Ordering::Greater
    } else {
        match (a, b) {
            (PathComponent::Prefix(x), PathComponent::Prefix(y)) => compare_bytes(
                x.as_slice(),
                y.as_slice(),
            ),
            (PathComponent::Normal(x), PathComponent::Normal(y)) => compare_bytes(
                x.as_slice(),
                y.as_slice(),
            ),
            _ => Ordering::Equal,
        }
    }
}

/// Compares two component sequences.
pub fn compare_components(a: &[PathComponent], b: &[PathComponent]) -> (o: Ordering)
    ensures
        o == components_order(component_views(a@), component_views(b@)),
{
    let ghost va = component_views(a@);
    let ghost vb = component_views(b@);
    let mut i: usize = 0;
    let ghost mut k: int = 0;
    assert(va.skip(0) =~= va && vb.skip(0) =~= vb);
    while i < a.len() && i < b.len()
        invariant
            k == i,
            k <= a@.len(),
            k <= b@.len(),
            va == component_views(a@),
            vb == component_views(b@),
            components_order(va, vb) == components_order(va.skip(k), vb.skip(k)),
        decreases a@.len() - k,
    {
        proof {
            assert(va.skip(k)[0] == a@[k]@);
            assert(vb.skip(k)[0] == b@[k]@);
            assert(va.skip(k).skip(1) =~= va.skip(k + 1));
            assert(vb.skip(k).skip(1) =~= vb.skip(k + 1));
        }
        match compare_component(&a[i], &b[i]) {
            Ordering::Less => {
                return Ordering::Less;
            },
            Ordering::Greater => {
                return Ordering::Greater;
            },
            Ordering::Equal => {},
        }
        i += 1;
        proof {
            k = k + 1;
        }
    }
    if i < b.len() {
        Ordering::Less
    } else if i < a.len() {
        Ordering::Greater
    } else {
        Ordering::Equal
    }
}

/// Compares two optional byte strings.
pub fn compare_optional_bytes(a: Option<&[u8]>, b: Option<&[u8]>) -> (o: Ordering)
    ensures
        o == optional_bytes_order(optional_bytes(a), optional_bytes(b)),
{
    match (a, b) {
        (Some(x), Some(y)) => compare_bytes(x, y),
        (Some(_), None) => Ordering::Greater,
        (None, Some(_)) => Ordering::Less,
        (None, None) => Ordering::Equal,
    }
}

/// Compares two optional component sequences.
pub fn compare_optional_components(
    a: Option<&[PathComponent]>,
    b: Option<&[PathComponent]>,
) -> (o: Ordering)
    ensures
        o == optional_components_order(optional_components(a), optional_components(b)),
{
    match (a, b) {
        (Some(x), Some(y)) => compare_components(x, y),
        (Some(_), None) => Ordering::Greater,
        (None, Some(_)) => Ordering::Less,
        (None, None) => Ordering::Equal,
    }
}

/// Compares two paths, given by their components, by parent directory,
/// then file stem, then file extension.
pub fn compare_path_parts(left: &Vec<PathComponent>, right: &Vec<PathComponent>) -> (o: Ordering)
    ensures
        o == path_parts_order(component_views(left@), component_views(right@)),
{
    match compare_optional_components(parent(left), parent(right)) {
        Ordering::Less => {
            return Ordering::Less;
        },
        Ordering::Greater => {
            return Ordering::Greater;
        },
        Ordering::Equal => {},
    }
    let left_name = file_name(left);
    let right_name = file_name(right);
    let left_stem = match left_name {
        Some(name) => Some(file_stem(name)),
        None => None,
    };
    let right_stem = match right_name {
        Some(name) => Some(file_stem(name)),
        None => None,
    };
    match compare_optional_bytes(left_stem, right_stem) {
        Ordering::Less => {
            return Ordering::Less;
        },
        Ordering::Greater => {
            return Ordering::Greater;
        },
        Ordering::Equal => {},
    }
    let left_extension = match left_name {
        Some(name) => extension(name),
        None => None,
    };
    let right_extension = match right_name {
        Some(name) => extension(name),
        None => None,
    };
    compare_optional_bytes(left_extension, right_extension)
}

impl SortBy {
    /// Compares two files by this criterion.
    pub fn cmp_for_fileinfos(&self, left: &FileInfo, right: &FileInfo) -> (o: Ordering)
        ensures
            o == key_order(*self, left@, right@),
    {
        match self {
            SortBy::Depth => {
                if left.depth < right.depth {
                    Ordering::Less
                } else if left.depth > right.depth {
                    Ordering::Greater
                } else {
                    Ordering::Equal
                }
            },
            SortBy::ModificationTime => match (left.mtime, right.mtime) {
                (Some(l), Some(r)) => {
                    if l < r {
                        Ordering::Less
                    } else if l > r {
                        Ordering::Greater
                    } else {
                        Ordering::Equal
                    }
                },
                (Some(_), None) => Ordering::Less,
                (None, Some(_)) => Ordering::Greater,
                (None, None) => Ordering::Equal,
            },
            SortBy::PathParts => {
                let left_parts = split_path(left.path.as_str());
                let right_parts = split_path(right.path.as_str());
                compare_path_parts(&left_parts, &right_parts)
            },
        }
    }
}

impl SortKeys {
    /// Compares two files by the criteria of this list, the first one that
    /// tells them apart deciding.
    pub fn cmp_for_fileinfos(&self, left: &FileInfo, right: &FileInfo) -> (o: Ordering)
        ensures
            o == keys_order(self@, left@, right@),
    {
        let ghost keys = self.keys@;
        let mut i: usize = 0;
        let ghost mut k: int = 0;
        assert(keys.skip(0) =~= keys);
        while i < self.keys.len()
            invariant
                k == i,
                k <= keys.len(),
                keys == self.keys@,
                keys_order(keys, left@, right@) == keys_order(keys.skip(k), left@, right@),
            decreases keys.len() - k,
        {
            proof {
                assert(keys.skip(k)[0] == keys[k]);
                assert(keys.skip(k).skip(1) =~= keys.skip(k + 1));
            }
            let key = self.keys[i];
            match key.cmp_for_fileinfos(left, right) {
                Ordering::Less => {
                    return Ordering::Less;
                },
                Ordering::Greater => {
                    return Ordering::Greater;
                },
                Ordering::Equal => {},
            }
            i += 1;
            proof {
                k = k + 1;
            }
        }
        Ordering::Equal
    }
}

/// How the files of a duplicate group are ordered.
#[derive(Debug, Clone)]
pub struct SortOptions {
    /// A directory whose files come first in every group.
    pub prefer_location: Option<String>,
    /// The criteria that order the files otherwise.
    pub sort_by: SortKeys,
}

impl SortOptions {
    /// The preferred location as a value.
    pub open spec fn prefer(&self) -> Option<Seq<char>> {
        match self.prefer_location {
            Some(dir) => Some(dir@),
            None => None,
        }
    }

    /// Compares two files of a duplicate group: a file within the
    /// preferred location comes before one outside it, whatever the sort
    /// keys say; otherwise the sort keys decide.
    pub fn cmp_for_fileinfos(&self, left: &FileInfo, right: &FileInfo) -> (o: Ordering)
        ensures
            o == group_order(self.prefer(), self.sort_by@, left@, right@),
    {
        if let Some(path) = &self.prefer_location {
            let dir = split_path(path.as_str());
            let l = components_within(split_path(left.path.as_str()), &dir);
            let r = components_within(split_path(right.path.as_str()), &dir);
            if l && !r {
                return Ordering::Less;
            }
            if !l && r {
                return Ordering::Greater;
            }
        }
        self.sort_by.cmp_for_fileinfos(left, right)
    }
}

/// The order by one criterion is a total order up to ties.
pub proof fn lemma_key_order_laws(key: SortBy, a: FileInfoView, b: FileInfoView, c: FileInfoView)
    ensures
        obeys_order_laws(|x: FileInfoView, y: FileInfoView| key_order(key, x, y), a, b, c),
{
    lemma_path_parts_order_laws(
        path_components(a.path),
        path_components(b.path),
        path_components(c.path),
    );
}

/// The order by any list of criteria is a total order up to ties: every two
/// files are comparable, comparing them the other way round gives the
/// opposite answer, and the order carries over from `a`, `b` and `b`, `c`
/// to `a`, `c`.
pub proof fn lemma_keys_order_laws(
    keys: Seq<SortBy>,
    a: FileInfoView,
    b: FileInfoView,
    c: FileInfoView,
)
    ensures
        obeys_order_laws(|x: FileInfoView, y: FileInfoView| keys_order(keys, x, y), a, b, c),
    decreases keys.len(),
{
    if keys.len() > 0 {
        lemma_key_order_laws(keys[0], a, b, c);
        lemma_keys_order_laws(keys.skip(1), a, b, c);
    }
}

/// The order within a duplicate group is a total order up to ties,
/// whatever the preferred location and the sort keys are.
pub proof fn lemma_group_order_laws(
    prefer: Option<Seq<char>>,
    keys: Seq<SortBy>,
    a: FileInfoView,
    b: FileInfoView,
    c: FileInfoView,
)
    ensures
        obeys_order_laws(
            |x: FileInfoView, y: FileInfoView| group_order(prefer, keys, x, y),
            a,
            b,
            c,
        ),
{
    lemma_keys_order_laws(keys, a, b, c);
}

/// A file within the preferred location is ordered before every file
/// outside it, whatever the sort keys are.
pub proof fn lemma_preferred_is_less(
    prefer: Option<Seq<char>>,
    keys: Seq<SortBy>,
    a: FileInfoView,
    b: FileInfoView,
)
    requires
        is_preferred(prefer, a),
        !is_preferred(prefer, b),
    ensures
        group_order(prefer, keys, a, b) == Ordering::Less,
        group_order(prefer, keys, b, a) == Ordering::Greater,
{
}

/// Whether `a` must stand after `b` in a duplicate group.
pub open spec fn is_after(
    prefer: Option<Seq<char>>,
    keys: Seq<SortBy>,
    a: FileInfoView,
    b: FileInfoView,
) -> bool {
    group_order(prefer, keys, a, b) == Ordering::Greater
}

/// What the order within a duplicate group means for standing after: no
/// file stands after itself, of two files at most one stands after the
/// other, and if `a` need not stand after `b` nor `b` after `c`, then `a`
/// need not stand after `c`.
pub proof fn lemma_is_after_laws(
    prefer: Option<Seq<char>>,
    keys: Seq<SortBy>,
    a: FileInfoView,
    b: FileInfoView,
    c: FileInfoView,
)
    ensures
        !is_after(prefer, keys, a, a),
        is_after(prefer, keys, a, b) ==> !is_after(prefer, keys, b, a),
        !is_after(prefer, keys, a, b) && !is_after(prefer, keys, b, c) ==> !is_after(
            prefer,
            keys,
            a,
            c,
        ),
{
    lemma_group_order_laws(prefer, keys, a, b, c);
    lemma_group_order_laws(prefer, keys, c, b, a);
    lemma_group_order_laws(prefer, keys, b, a, c);
}

impl SortOptions {
    /// Whether `left` must stand after `right` in a duplicate group.
    pub fn comes_after(&self, left: &FileInfo, right: &FileInfo) -> (after: bool)
        ensures
            after == is_after(self.prefer(), self.sort_by@, left@, right@),
    {
        match self.cmp_for_fileinfos(left, right) {
            Ordering::Greater => true,
            _ => false,
        }
    }
}

} // verus!
