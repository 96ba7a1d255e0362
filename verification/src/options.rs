//! What a run is asked to do.

use crate::sorting::{SortKeys, SortOptions};
use vstd::prelude::*;

verus! {

/// What a run is asked to do.
#[derive(Debug, Clone)]
pub struct Options {
    /// Whether the walk descends below the direct children of a root.
    pub recurse: bool,
    /// Whether the walk follows symbolic links to directories.
    pub follow_symlinks: bool,
    /// Files smaller than this many bytes are left out.
    pub min_size: u64,
    /// How many levels the walk descends below the direct children of a
    /// root, if that is limited.
    pub max_depth: Option<u64>,
    /// How the files of a duplicate group are ordered.
    pub sort_options: SortOptions,
}

/// The depth at which a walk stops, counted from the root itself at depth
/// zero: one more than the levels to descend, and as deep as the machine
/// can count where that is beyond it. Without recursion the walk stops at
/// the direct children of the root.
pub open spec fn walk_depth_of(recurse: bool, max_depth: Option<u64>) -> Option<usize> {
    if !recurse {
        Some(1usize)
    } else {
        match max_depth {
            Some(levels) => Some(
                if levels + 1 > usize::MAX {
                    usize::MAX
                } else {
                    (levels + 1) as usize
                },
            ),
            None => None,
        }
    }
}

impl Options {
    /// The options that the arguments of a run ask for. A limit on the
    /// depth implies recursion, the minimum size is one byte unless given,
    /// and the sort keys are the default ones unless given.
    pub fn from_arguments(
        recursive: bool,
        follow_symlinks: bool,
        min_size: Option<u64>,
        max_depth: Option<u64>,
        prefer_within: Option<String>,
        sort_by: Option<SortKeys>,
    ) -> (options: Options)
        ensures
            options.recurse == (recursive || max_depth is Some),
            options.follow_symlinks == follow_symlinks,
            options.min_size == (match min_size {
                Some(bytes) => bytes,
                None => 1,
            }),
            options.max_depth == max_depth,
            options.sort_options.prefer_location == prefer_within,
            match sort_by {
                Some(keys) => options.sort_options.sort_by == keys,
                None => options.sort_options.sort_by@ == SortKeys::default_keys(),
            },
    {
        Options {
            recurse: recursive || max_depth.is_some(),
            follow_symlinks,
            min_size: match min_size {
                Some(bytes) => bytes,
                None => 1,
            },
            max_depth,
            sort_options: SortOptions {
                prefer_location: prefer_within,
                sort_by: match sort_by {
                    Some(keys) => keys,
                    None => SortKeys::default(),
                },
            },
        }
    }

    /// The depth at which the walk of a root stops, if it is limited.
    pub fn walk_depth(&self) -> (limit: Option<usize>)
        ensures
            limit == walk_depth_of(self.recurse, self.max_depth),
    {
        if !self.recurse {
            return Some(1);
        }
        match self.max_depth {
            Some(levels) => {
                if levels >= usize::MAX as u64 {
                    Some(usize::MAX)
                } else {
                    Some(levels as usize + 1)
                }
            },
            None => None,
        }
    }
}

} // verus!
