//! Paths as sequences of components: common prefixes, containment, and
//! the parent, stem and extension of a path.

use vstd::prelude::*;
use vstd::slice::slice_subrange;

verus! {

/// One component of a path.
#[derive(Debug, PartialEq, Eq)]
pub enum PathComponent {
    /// A volume or drive prefix, on platforms that have them.
    Prefix(Vec<u8>),
    /// The root directory.
    RootDir,
    /// A reference to the current directory, `.`.
    CurDir,
    /// A reference to the parent directory, `..`.
    ParentDir,
    /// A directory or file name.
    Normal(Vec<u8>),
}

/// The mathematical value of a [`PathComponent`].
pub enum ComponentView {
    Prefix(Seq<u8>),
    RootDir,
    CurDir,
    ParentDir,
    Normal(Seq<u8>),
}

impl View for PathComponent {
    type V = ComponentView;

    open spec fn view(&self) -> ComponentView {
        match self {
            PathComponent::Prefix(raw) => ComponentView::Prefix(raw@),
            PathComponent::RootDir => ComponentView::RootDir,
            PathComponent::CurDir => ComponentView::CurDir,
            PathComponent::ParentDir => ComponentView::ParentDir,
            PathComponent::Normal(name) => ComponentView::Normal(name@),
        }
    }
}

/// The values of a sequence of components.
pub open spec fn component_views(parts: Seq<PathComponent>) -> Seq<ComponentView> {
    parts.map_values(|c: PathComponent| c@)
}

/// The components of the path `path`, as `std::path::Path::components`
/// yields them on the platform that the library is built for.
pub uninterp spec fn path_components(path: Seq<char>) -> Seq<ComponentView>;

/// `std::path::Path::components`: the components of the path in order,
/// each with the bytes of its name. They depend on the text of the path
/// alone.
#[verifier::external_body]
pub(crate) fn split_path(path: &str) -> (parts: Vec<PathComponent>)
    ensures
        component_views(parts@) == path_components(path@),
{
    let mut parts = Vec::new();
    for c in std::path::Path::new(path).components() {
        let name = c.as_os_str().as_encoded_bytes().to_vec();
        parts.push(
            match c {
                std::path::Component::Prefix(_) => PathComponent::Prefix(name),
                std::path::Component::RootDir => PathComponent::RootDir,
                std::path::Component::CurDir => PathComponent::CurDir,
                std::path::Component::ParentDir => PathComponent::ParentDir,
                std::path::Component::Normal(_) => PathComponent::Normal(name),
            },
        );
    }
    parts
}

/// Whether two byte strings are the same.
pub fn same_bytes(left: &[u8], right: &[u8]) -> (same: bool)
    ensures
        same == (left@ == right@),
{
    if left.len() != right.len() {
        return false;
    }
    let mut i: usize = 0;
    while i < left.len()
        invariant
            left@.len() == right@.len(),
            i <= left@.len(),
            forall|k: int| 0 <= k < i ==> left@[k] == right@[k],
        decreases left@.len() - i,
    {
        if left[i] != right[i] {
            return false;
        }
        i += 1;
    }
    assert(left@ =~= right@);
    true
}

/// Whether two components are the same.
pub fn same_component(left: &PathComponent, right: &PathComponent) -> (same: bool)
    ensures
        same == (left@ == right@),
{
    match (left, right) {
        (PathComponent::Prefix(a), PathComponent::Prefix(b)) => same_bytes(
            a.as_slice(),
            b.as_slice(),
        ),
        (PathComponent::RootDir, PathComponent::RootDir) => true,
        (PathComponent::CurDir, PathComponent::CurDir) => true,
        (PathComponent::ParentDir, PathComponent::ParentDir) => true,
        (PathComponent::Normal(a), PathComponent::Normal(b)) => same_bytes(
            a.as_slice(),
            b.as_slice(),
        ),
        _ => false,
    }
}

/// `prefix` is the longest sequence with which both `left` and `right`
/// begin.
pub open spec fn is_longest_common_prefix<A>(prefix: Seq<A>, left: Seq<A>, right: Seq<A>) -> bool {
    &&& prefix.is_prefix_of(left)
    &&& prefix.is_prefix_of(right)
    &&& prefix.len() < left.len() && prefix.len() < right.len() ==> left[prefix.len() as int]
        != right[prefix.len() as int]
}

/// The leading components that two component sequences have in common.
pub fn common_components(left: Vec<PathComponent>, right: &Vec<PathComponent>) -> (common: Vec<
    PathComponent,
>)
    ensures
        is_longest_common_prefix(
            component_views(common@),
            component_views(left@),
            component_views(right@),
        ),
{
    let mut n: usize = 0;
    while n < left.len() && n < right.len() && same_component(&left[n], &right[n])
        invariant
            n <= left@.len(),
            n <= right@.len(),
            forall|k: int| 0 <= k < n ==> left@[k]@ == right@[k]@,
        decreases left@.len() - n,
    {
        n += 1;
    }
    let mut common = left;
    common.truncate(n);
    proof {
        let c = component_views(common@);
        let l = component_views(left@);
        let r = component_views(right@);
        assert(c =~= l.subrange(0, c.len() as int));
        assert(c =~= r.subrange(0, c.len() as int));
    }
    common
}

/// The leading part that two paths have in common, component by component.
pub fn common_path(left: &str, right: &str) -> (common: Vec<PathComponent>)
    ensures
        is_longest_common_prefix(
            component_views(common@),
            path_components(left@),
            path_components(right@),
        ),
{
    let right_parts = split_path(right);
    common_components(split_path(left), &right_parts)
}

/// Whether the component sequence `target` begins with all of `is_within`.
pub fn components_within(target: Vec<PathComponent>, is_within: &Vec<PathComponent>) -> (within:
    bool)
    ensures
        within == component_views(is_within@).is_prefix_of(component_views(target@)),
{
    let ghost t = component_views(target@);
    let ghost d = component_views(is_within@);
    let common = common_components(target, is_within);
    proof {
        let c = component_views(common@);
        if c.len() == d.len() {
            assert(c =~= d);
        } else if d.is_prefix_of(t) {
            assert(d[c.len() as int] == t[c.len() as int]);
        }
    }
    common.len() == is_within.len()
}

/// Whether the path `target` lies in the directory `is_within` or is that
/// directory: whether the components of `target` begin with those of
/// `is_within`.
pub fn is_within_dir(target: &str, is_within: &str) -> (within: bool)
    ensures
        within == path_components(is_within@).is_prefix_of(path_components(target@)),
{
    let dir_parts = split_path(is_within);
    components_within(split_path(target), &dir_parts)
}

/// The components of the parent of a path with components `parts`: all but
/// the last. There is none for the empty path and for a path that ends in a
/// root or prefix.
pub open spec fn parent_of(parts: Seq<ComponentView>) -> Option<Seq<ComponentView>> {
    if parts.len() == 0 {
        None
    } else {
        match parts.last() {
            ComponentView::RootDir | ComponentView::Prefix(_) => None,
            _ => Some(parts.drop_last()),
        }
    }
}

/// The file name of a path with components `parts`: its last component, if
/// that is a name.
pub open spec fn file_name_of(parts: Seq<ComponentView>) -> Option<Seq<u8>> {
    if parts.len() == 0 {
        None
    } else {
        match parts.last() {
            ComponentView::Normal(name) => Some(name),
            _ => None,
        }
    }
}

/// The byte `.`.
pub const DOT: u8 = 46;

/// Where a file name divides into stem and extension: the place of its last
/// `.`, unless the name has no `.`, has its only `.` in front, or is `..`.
pub open spec fn split_point(name: Seq<u8>) -> Option<int> {
    if name =~= seq![DOT, DOT] {
        None
    } else if exists|d: int| 0 < d < name.len() && name[d] == DOT {
        Some(choose|d: int| 0 < d < name.len() && name[d] == DOT && forall|k: int| d < k < name.len() ==> name[k] != DOT)
    } else {
        None
    }
}

/// The stem of a file name: the part before the split point, or all of it.
pub open spec fn stem_of(name: Seq<u8>) -> Seq<u8> {
    match split_point(name) {
        Some(d) => name.take(d),
        None => name,
    }
}

/// The extension of a file name: the part after the split point.
pub open spec fn extension_of(name: Seq<u8>) -> Option<Seq<u8>> {
    match split_point(name) {
        Some(d) => Some(name.skip(d + 1)),
        None => None,
    }
}

/// The split point of a name is the one place that meets its description.
pub proof fn lemma_split_point(name: Seq<u8>, d: int)
    requires
        name != seq![DOT, DOT],
        0 < d < name.len(),
        name[d] == DOT,
        forall|k: int| d < k < name.len() ==> name[k] != DOT,
    ensures
        split_point(name) == Some(d),
{
    let e = choose|e: int| 0 < e < name.len() && name[e] == DOT && forall|k: int| e < k < name.len() ==> name[k] != DOT;
    assert(0 < e < name.len() && name[e] == DOT && forall|k: int| e < k < name.len() ==> name[k] != DOT);
    if e < d {
        assert(name[d] != DOT);
    }
    if d < e {
        assert(name[e] != DOT);
    }
}

/// The components of the parent, if there is a parent.
pub fn parent(parts: &Vec<PathComponent>) -> (up: Option<&[PathComponent]>)
    ensures
        match parent_of(component_views(parts@)) {
            Some(p) => up matches Some(found) && component_views(found@) == p,
            None => up is None,
        },
{
    if parts.len() == 0 {
        return None;
    }
    let last = parts.len() - 1;
    assert(component_views(parts@).last() == parts@[last as int]@);
    match &parts[last] {
        PathComponent::RootDir => None,
        PathComponent::Prefix(_) => None,
        _ => {
            let found = slice_subrange(parts.as_slice(), 0, last);
            assert(component_views(found@) =~= component_views(parts@).drop_last());
            Some(found)
        },
    }
}

/// The file name among the components, if there is one.
pub fn file_name(parts: &Vec<PathComponent>) -> (name: Option<&[u8]>)
    ensures
        match file_name_of(component_views(parts@)) {
            Some(n) => name matches Some(found) && found@ == n,
            None => name is None,
        },
{
    if parts.len() == 0 {
        return None;
    }
    assert(component_views(parts@).last() == parts@[parts@.len() - 1]@);
    match &parts[parts.len() - 1] {
        PathComponent::Normal(name) => Some(name.as_slice()),
        _ => None,
    }
}

/// Where a file name divides into stem and extension.
pub fn find_split_point(name: &[u8]) -> (at: Option<usize>)
    ensures
        at matches Some(d) ==> split_point(name@) == Some(d as int) && 0 < d < name@.len(),
        at is None ==> split_point(name@) is None,
{
    if name.len() == 2 && name[0] == DOT && name[1] == DOT {
        assert(name@ =~= seq![DOT, DOT]);
        return None;
    }
    assert(name@ != seq![DOT, DOT]) by {
        if name@ == seq![DOT, DOT] {
            assert(seq![DOT, DOT].len() == 2);
            assert(seq![DOT, DOT][0] == DOT);
            assert(seq![DOT, DOT][1] == DOT);
        }
    }
    let mut d: usize = name.len();
    while d > 1
        invariant
            d <= name@.len(),
            name@ != seq![DOT, DOT],
            forall|k: int| d <= k < name@.len() ==> name@[k] != DOT,
        decreases d,
    {
        d -= 1;
        if name[d] == DOT {
            proof {
                lemma_split_point(name@, d as int);
            }
            return Some(d);
        }
    }
    None
}

/// The stem of a file name.
pub fn file_stem(name: &[u8]) -> (stem: &[u8])
    ensures
        stem@ == stem_of(name@),
{
    match find_split_point(name) {
        Some(d) => {
            assert(name@.take(d as int) =~= name@.subrange(0, d as int));
            slice_subrange(name, 0, d)
        },
        None => name,
    }
}

/// The extension of a file name.
pub fn extension(name: &[u8]) -> (ext: Option<&[u8]>)
    ensures
        match extension_of(name@) {
            Some(e) => ext matches Some(found) && found@ == e,
            None => ext is None,
        },
{
    match find_split_point(name) {
        Some(d) => {
            let end = name.len();
            assert(name@.skip(d + 1) =~= name@.subrange(d + 1, end as int));
            Some(slice_subrange(name, d + 1, end))
        },
        None => None,
    }
}

} // verus!
