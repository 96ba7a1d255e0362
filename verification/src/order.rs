//! The orders that the sort criteria are made of, and the proof that each
//! is a total order.

use crate::paths::{extension_of, file_name_of, parent_of, stem_of, ComponentView};
use std::cmp::Ordering;
use vstd::prelude::*;

verus! {

/// The ordering seen from the other side.
pub open spec fn flipped(o: Ordering) -> Ordering {
    match o {
        Ordering::Less => Ordering::Greater,
        Ordering::Equal => Ordering::Equal,
        Ordering::Greater => Ordering::Less,
    }
}

/// `first`, with `second` deciding where `first` sees no difference.
pub open spec fn tie_break(first: Ordering, second: Ordering) -> Ordering {
    if first == Ordering::Equal {
        second
    } else {
        first
    }
}

/// What makes a comparison a total order up to ties, stated of three
/// values: a value ties with itself; swapping the sides flips the result;
/// values that tie compare alike with any third; and "less" carries over.
pub open spec fn obeys_order_laws<T>(f: spec_fn(T, T) -> Ordering, a: T, b: T, c: T) -> bool {
    &&& f(a, a) == Ordering::Equal
    &&& f(b, a) == flipped(f(a, b))
    &&& (f(a, b) == Ordering::Equal ==> f(a, c) == f(b, c))
    &&& (f(b, c) == Ordering::Equal ==> f(a, b) == f(a, c))
    &&& (f(a, b) == Ordering::Less && f(b, c) == Ordering::Less ==> f(a, c) == Ordering::Less)
}

/// The order of two integers.
pub open spec fn int_order(a: int, b: int) -> Ordering {
    if a < b {
        Ordering::Less
    } else if a > b {
        Ordering::Greater
    } else {
        Ordering::Equal
    }
}

/// The order of two natural numbers.
pub open spec fn nat_order(a: nat, b: nat) -> Ordering {
    if a < b {
        Ordering::Less
    } else if a > b {
        Ordering::Greater
    } else {
        Ordering::Equal
    }
}

/// The order of two bytes.
pub open spec fn byte_order(a: u8, b: u8) -> Ordering {
    if a < b {
        Ordering::Less
    } else if a > b {
        Ordering::Greater
    } else {
        Ordering::Equal
    }
}

/// The order of two optional timestamps: by time, and a missing time after
/// every time.
pub open spec fn mtime_order(a: Option<int>, b: Option<int>) -> Ordering {
    match (a, b) {
        (Some(x), Some(y)) => int_order(x, y),
        (Some(_), None) => Ordering::Less,
        (None, Some(_)) => Ordering::Greater,
        (None, None) => Ordering::Equal,
    }
}

/// The order of two byte strings: by the first byte in which they differ,
/// and a string before its extensions.
pub open spec fn bytes_order(a: Seq<u8>, b: Seq<u8>) -> Ordering
    decreases a.len(),
{
    if a.len() == 0 {
        if b.len() == 0 {
            Ordering::Equal
        } else {
            Ordering::Less
        }
    } else if b.len() == 0 {
        Ordering::Greater
    } else {
        tie_break(byte_order(a[0], b[0]), bytes_order(a.skip(1), b.skip(1)))
    }
}

/// The place of a component's kind among the kinds.
pub open spec fn kind_rank(c: ComponentView) -> int {
    match c {
        ComponentView::Prefix(_) => 0,
        ComponentView::RootDir => 1,
        ComponentView::CurDir => 2,
        ComponentView::ParentDir => 3,
        ComponentView::Normal(_) => 4,
    }
}

/// The bytes that a component carries.
pub open spec fn component_bytes(c: ComponentView) -> Seq<u8> {
    match c {
        ComponentView::Prefix(raw) => raw,
        ComponentView::Normal(name) => name,
        _ => Seq::empty(),
    }
}

/// The order of two components: by kind (prefix, root, `.`, `..`, name),
/// then by their bytes.
pub open spec fn component_order(a: ComponentView, b: ComponentView) -> Ordering {
    tie_break(
        int_order(kind_rank(a), kind_rank(b)),
        bytes_order(component_bytes(a), component_bytes(b)),
    )
}

/// The order of two component sequences: by the first component in which
/// they differ, and a sequence before its extensions.
pub open spec fn components_order(a: Seq<ComponentView>, b: Seq<ComponentView>) -> Ordering
    decreases a.len(),
{
    if a.len() == 0 {
        if b.len() == 0 {
            Ordering::Equal
        } else {
            Ordering::Less
        }
    } else if b.len() == 0 {
        Ordering::Greater
    } else {
        tie_break(component_order(a[0], b[0]), components_order(a.skip(1), b.skip(1)))
    }
}

/// The order of two optional byte strings: nothing before anything.
pub open spec fn optional_bytes_order(a: Option<Seq<u8>>, b: Option<Seq<u8>>) -> Ordering {
    match (a, b) {
        (Some(x), Some(y)) => bytes_order(x, y),
        (Some(_), None) => Ordering::Greater,
        (None, Some(_)) => Ordering::Less,
        (None, None) => Ordering::Equal,
    }
}

/// The order of two optional component sequences: nothing before anything.
pub open spec fn optional_components_order(
    a: Option<Seq<ComponentView>>,
    b: Option<Seq<ComponentView>>,
) -> Ordering {
    match (a, b) {
        (Some(x), Some(y)) => components_order(x, y),
        (Some(_), None) => Ordering::Greater,
        (None, Some(_)) => Ordering::Less,
        (None, None) => Ordering::Equal,
    }
}

/// The stem of the file name of a path with components `parts`.
pub open spec fn stem_part(parts: Seq<ComponentView>) -> Option<Seq<u8>> {
    match file_name_of(parts) {
        Some(name) => Some(stem_of(name)),
        None => None,
    }
}

/// The extension of the file name of a path with components `parts`.
pub open spec fn extension_part(parts: Seq<ComponentView>) -> Option<Seq<u8>> {
    match file_name_of(parts) {
        Some(name) => extension_of(name),
        None => None,
    }
}

/// The order of two paths by their parts: by parent directory, then by
/// file stem, then by file extension.
pub open spec fn path_parts_order(a: Seq<ComponentView>, b: Seq<ComponentView>) -> Ordering {
    tie_break(
        optional_components_order(parent_of(a), parent_of(b)),
        tie_break(
            optional_bytes_order(stem_part(a), stem_part(b)),
            optional_bytes_order(extension_part(a), extension_part(b)),
        ),
    )
}

/// The order of byte strings is a total order.
pub proof fn lemma_bytes_order_laws(a: Seq<u8>, b: Seq<u8>, c: Seq<u8>)
    ensures
        obeys_order_laws(|x: Seq<u8>, y: Seq<u8>| bytes_order(x, y), a, b, c),
    decreases a.len() + b.len() + c.len(),
{
    if a.len() > 0 && b.len() > 0 && c.len() > 0 {
        lemma_bytes_order_laws(a.skip(1), b.skip(1), c.skip(1));
    } else if a.len() > 0 && b.len() > 0 {
        lemma_bytes_order_laws(a.skip(1), b.skip(1), c);
    } else if a.len() > 0 && c.len() > 0 {
        lemma_bytes_order_laws(a.skip(1), b, c.skip(1));
    } else if b.len() > 0 && c.len() > 0 {
        lemma_bytes_order_laws(a, b.skip(1), c.skip(1));
    } else if a.len() > 0 {
        lemma_bytes_order_laws(a.skip(1), b, c);
    } else if b.len() > 0 {
        lemma_bytes_order_laws(a, b.skip(1), c);
    }
}

/// The order of components is a total order.
pub proof fn lemma_component_order_laws(a: ComponentView, b: ComponentView, c: ComponentView)
    ensures
        obeys_order_laws(|x: ComponentView, y: ComponentView| component_order(x, y), a, b, c),
{
    lemma_bytes_order_laws(component_bytes(a), component_bytes(b), component_bytes(c));
}

/// The order of component sequences is a total order.
pub proof fn lemma_components_order_laws(
    a: Seq<ComponentView>,
    b: Seq<ComponentView>,
    c: Seq<ComponentView>,
)
    ensures
        obeys_order_laws(
            |x: Seq<ComponentView>, y: Seq<ComponentView>| components_order(x, y),
            a,
            b,
            c,
        ),
    decreases a.len() + b.len() + c.len(),
{
    if a.len() > 0 && b.len() > 0 && c.len() > 0 {
        lemma_component_order_laws(a[0], b[0], c[0]);
        lemma_components_order_laws(a.skip(1), b.skip(1), c.skip(1));
    } else if a.len() > 0 && b.len() > 0 {
        lemma_component_order_laws(a[0], b[0], b[0]);
        lemma_components_order_laws(a.skip(1), b.skip(1), c);
    } else if a.len() > 0 && c.len() > 0 {
        lemma_component_order_laws(a[0], a[0], c[0]);
        lemma_components_order_laws(a.skip(1), b, c.skip(1));
    } else if b.len() > 0 && c.len() > 0 {
        lemma_component_order_laws(b[0], b[0], c[0]);
        lemma_components_order_laws(a, b.skip(1), c.skip(1));
    } else if a.len() > 0 {
        lemma_component_order_laws(a[0], a[0], a[0]);
        lemma_components_order_laws(a.skip(1), b, c);
    } else if b.len() > 0 {
        lemma_component_order_laws(b[0], b[0], b[0]);
        lemma_components_order_laws(a, b.skip(1), c);
    }
}

/// The order of paths by their parts is a total order up to ties: two
/// paths tie if they have the same parent, stem and extension.
pub proof fn lemma_path_parts_order_laws(
    a: Seq<ComponentView>,
    b: Seq<ComponentView>,
    c: Seq<ComponentView>,
)
    ensures
        obeys_order_laws(
            |x: Seq<ComponentView>, y: Seq<ComponentView>| path_parts_order(x, y),
            a,
            b,
            c,
        ),
{
    let pa = match parent_of(a) { Some(p) => p, None => Seq::empty() };
    let pb = match parent_of(b) { Some(p) => p, None => Seq::empty() };
    let pc = match parent_of(c) { Some(p) => p, None => Seq::empty() };
    lemma_components_order_laws(pa, pb, pc);
    let sa = match stem_part(a) { Some(s) => s, None => Seq::empty() };
    let sb = match stem_part(b) { Some(s) => s, None => Seq::empty() };
    let sc = match stem_part(c) { Some(s) => s, None => Seq::empty() };
    lemma_bytes_order_laws(sa, sb, sc);
    let ea = match extension_part(a) { Some(s) => s, None => Seq::empty() };
    let eb = match extension_part(b) { Some(s) => s, None => Seq::empty() };
    let ec = match extension_part(c) { Some(s) => s, None => Seq::empty() };
    lemma_bytes_order_laws(ea, eb, ec);
}

} // verus!
