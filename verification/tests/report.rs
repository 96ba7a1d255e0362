use dupes::buckets::{
    candidate_sizes, find_same_sized_files, take_candidates, FileStat, WalkEntry,
};
use dupes::hashing::{hash_record, ContentHash};
use dupes::options::Options;
use dupes::render::{render_group, to_decimal};
use dupes::report::{process_bucket, RunCounters};
use dupes::sorting::{SortBy, SortKeys, SortOptions};
use dupes::types::{Error, FileInfo};
use std::collections::HashMap;

fn plain() -> SortOptions {
    SortOptions { prefer_location: None, sort_by: SortKeys::default() }
}

fn at(path: &str, depth: usize) -> FileInfo {
    FileInfo { depth, mtime: None, path: String::from(path) }
}

fn ok(path: &str, depth: usize, content: &[u8]) -> Result<(ContentHash, FileInfo), Error> {
    hash_record(at(path, depth), Ok(content.to_vec()))
}

fn gone(path: &str) -> Result<(ContentHash, FileInfo), Error> {
    hash_record(at(path, 0), Err(std::io::Error::new(std::io::ErrorKind::NotFound, "deleted")))
}

fn zero() -> RunCounters {
    RunCounters {
        files_seen: 0,
        regular_files: 0,
        skipped_by_min_size: 0,
        candidates_hashed: 0,
        hash_errors: 0,
        duplicate_file_count: 0,
        duplicate_group_count: 0,
        wasted_bytes: 0,
    }
}

/// A tree in memory: path, depth, content; `None` for a file that cannot be read.
type Tree = Vec<(&'static str, usize, Option<&'static [u8]>)>;

/// Runs the whole detection over a tree in memory, as the program does over a disk.
fn detect(tree: &Tree, options: &Options) -> (Vec<(u64, Vec<String>)>, Vec<u64>, RunCounters) {
    let mut table = HashMap::new();
    let mut counters = RunCounters::new();
    let mut walk = Vec::new();
    for (path, depth, content) in tree {
        let size = content.map_or(3, |c| c.len() as u64);
        walk.push(Ok(WalkEntry {
            depth: *depth,
            path: String::from(*path),
            stat: Some(FileStat { size, mtime: None }),
        }));
    }
    let (seen, files, skipped) = find_same_sized_files(walk, &mut table, options).unwrap();
    counters.record_walk(seen, files, skipped);
    let mut groups = Vec::new();
    let mut failed = Vec::new();
    for (size, bucket) in take_candidates(&mut table) {
        let hashed = bucket
            .into_iter()
            .map(|file| {
                let content = tree.iter().find(|(p, _, _)| *p == file.path).unwrap().2;
                let read = match content {
                    Some(bytes) => Ok(bytes.to_vec()),
                    None => Err(std::io::Error::new(std::io::ErrorKind::NotFound, "deleted")),
                };
                hash_record(file, read)
            })
            .collect();
        match process_bucket(size, hashed, &options.sort_options, &mut counters) {
            Ok(found) => {
                for group in found {
                    groups.push((size, group.into_iter().map(|f| f.path).collect()));
                }
            },
            Err(_) => failed.push(size),
        }
    }
    (groups, failed, counters)
}

fn recursive() -> Options {
    Options::from_arguments(true, false, None, None, None, None)
}

#[test]
fn three_files_two_alike() {
    let a: &'static [u8] = &[7u8; 100];
    let c: &'static [u8] = &[9u8; 100];
    let tree: Tree = vec![("root/a", 0, Some(a)), ("root/sub/b", 1, Some(a)), ("root/c", 0, Some(c))];
    let (groups, failed, counters) = detect(&tree, &recursive());
    assert_eq!(groups, vec![(100, vec![String::from("root/a"), String::from("root/sub/b")])]);
    assert!(failed.is_empty());
    assert_eq!(counters.wasted_bytes, 100);
    assert_eq!(counters.duplicate_group_count, 1);
    assert_eq!(counters.duplicate_file_count, 2);
    assert_eq!(counters.candidates_hashed, 3);
    assert_eq!(counters.hash_errors, 0);
    assert_eq!(counters.files_seen, 3);
    assert_eq!(counters.regular_files, 3);
    assert_eq!(counters.skipped_by_min_size, 0);
}

#[test]
fn empty_root_reports_nothing() {
    let tree: Tree = vec![];
    let mut table: HashMap<u64, Vec<FileInfo>> = HashMap::new();
    let mut counters = RunCounters::new();
    let (seen, files, skipped) = find_same_sized_files(vec![], &mut table, &recursive()).unwrap();
    counters.record_walk(seen, files, skipped);
    assert!(candidate_sizes(&table).is_empty());
    assert_eq!(counters, zero());
    let (groups, failed, counted) = detect(&tree, &recursive());
    assert!(groups.is_empty());
    assert!(failed.is_empty());
    assert_eq!(counted, zero());
}

#[test]
fn a_deleted_file_fails_only_its_bucket() {
    let tree: Tree = vec![
        ("root/a", 0, Some(b"abc")),
        ("root/vanished", 0, None),
        ("root/b", 0, Some(b"abc")),
        ("root/x", 0, Some(b"12345")),
        ("root/y", 0, Some(b"12345")),
    ];
    let (groups, failed, counters) = detect(&tree, &recursive());
    assert_eq!(failed, vec![3]);
    assert_eq!(groups, vec![(5, vec![String::from("root/x"), String::from("root/y")])]);
    assert_eq!(counters.hash_errors, 1);
    assert_eq!(counters.candidates_hashed, 4);
    assert_eq!(counters.duplicate_group_count, 1);
    assert_eq!(counters.duplicate_file_count, 2);
    assert_eq!(counters.wasted_bytes, 5);
}

#[test]
fn detecting_twice_gives_the_same() {
    let tree: Tree = vec![
        ("root/b/2", 1, Some(b"xx")),
        ("root/a/1", 1, Some(b"xx")),
        ("root/c", 0, Some(b"xx")),
        ("root/d", 0, Some(b"yy")),
        ("root/e", 0, Some(b"yy")),
        ("root/big1", 0, Some(b"0123456789")),
        ("root/big2", 0, Some(b"0123456789")),
        ("root/big3", 0, Some(b"0123456780")),
    ];
    let options = Options::from_arguments(
        true,
        false,
        None,
        None,
        Some(String::from("root/b")),
        SortKeys::new(vec![SortBy::Depth]),
    );
    let first = detect(&tree, &options);
    let second = detect(&tree, &options);
    assert_eq!(first, second);
    assert_eq!(
        first.0,
        vec![
            (2, vec![String::from("root/b/2"), String::from("root/c"), String::from("root/a/1")]),
            (2, vec![String::from("root/d"), String::from("root/e")]),
            (10, vec![String::from("root/big1"), String::from("root/big2")]),
        ]
    );
    assert_eq!(first.2.wasted_bytes, 2 * 2 + 2 + 10);
    assert_eq!(first.2.duplicate_file_count, 7);
    assert_eq!(first.2.duplicate_group_count, 3);
}

#[test]
fn files_below_min_size_are_no_candidates() {
    let tree: Tree = vec![
        ("root/s1", 0, Some(b"ab")),
        ("root/s2", 0, Some(b"ab")),
        ("root/l1", 0, Some(b"abc")),
        ("root/l2", 0, Some(b"abc")),
    ];
    let options = Options::from_arguments(true, false, Some(3), None, None, None);
    let (groups, _, counters) = detect(&tree, &options);
    assert_eq!(groups, vec![(3, vec![String::from("root/l1"), String::from("root/l2")])]);
    assert_eq!(counters.skipped_by_min_size, 2);
    assert_eq!(counters.candidates_hashed, 2);
}

#[test]
fn a_bucket_of_one_is_neither_hashed_nor_counted() {
    let mut counters = RunCounters::new();
    let groups = process_bucket(10, vec![ok("only", 0, b"0123456789")], &plain(), &mut counters);
    assert!(groups.unwrap().is_empty());
    assert_eq!(counters, zero());
    let none = process_bucket(10, vec![], &plain(), &mut counters);
    assert!(none.unwrap().is_empty());
    assert_eq!(counters, zero());
    let failed_alone = process_bucket(10, vec![gone("only")], &plain(), &mut counters);
    assert!(failed_alone.unwrap().is_empty());
    assert_eq!(counters, zero());
}

#[test]
fn process_bucket_counts_and_orders() {
    let mut counters = RunCounters { candidates_hashed: 10, wasted_bytes: 1, ..zero() };
    let groups = process_bucket(
        4,
        vec![
            ok("z/deep/file", 2, b"aaaa"),
            ok("y", 0, b"bbbb"),
            ok("a/file", 1, b"aaaa"),
            ok("file", 0, b"aaaa"),
            ok("x", 0, b"bbbb"),
            ok("single", 0, b"cccc"),
        ],
        &SortOptions { prefer_location: None, sort_by: SortKeys::new(vec![SortBy::Depth]).unwrap() },
        &mut counters,
    )
    .unwrap();
    assert_eq!(
        groups,
        vec![
            vec![at("file", 0), at("a/file", 1), at("z/deep/file", 2)],
            vec![at("x", 0), at("y", 0)],
        ]
    );
    assert_eq!(
        counters,
        RunCounters {
            candidates_hashed: 16,
            duplicate_file_count: 5,
            duplicate_group_count: 2,
            wasted_bytes: 1 + 4 * 2 + 4,
            ..zero()
        }
    );
}

#[test]
fn process_bucket_counts_a_failure_once() {
    let mut counters = zero();
    let outcome = process_bucket(
        4,
        vec![ok("a", 0, b"aaaa"), gone("b"), ok("c", 0, b"aaaa"), gone("d")],
        &plain(),
        &mut counters,
    );
    assert!(matches!(outcome, Err(Error::IOError(_))));
    assert_eq!(counters, RunCounters { candidates_hashed: 2, hash_errors: 1, ..zero() });
}

#[test]
fn counters_start_at_zero_and_add_up() {
    let mut counters = RunCounters::new();
    assert_eq!(counters, zero());
    counters.record_walk(10, 7, 2);
    counters.record_walk(5, 5, 0);
    counters.record_hashed(4);
    counters.record_failure();
    counters.record_group(1000, 3);
    counters.record_group(7, 2);
    assert_eq!(
        counters,
        RunCounters {
            files_seen: 15,
            regular_files: 12,
            skipped_by_min_size: 2,
            candidates_hashed: 4,
            hash_errors: 1,
            duplicate_file_count: 5,
            duplicate_group_count: 2,
            wasted_bytes: 2007,
        }
    );
    let mut total = RunCounters { files_seen: 1, wasted_bytes: 3, ..zero() };
    total.merge(&counters);
    total.merge(&counters);
    assert_eq!(
        total,
        RunCounters {
            files_seen: 31,
            regular_files: 24,
            skipped_by_min_size: 4,
            candidates_hashed: 8,
            hash_errors: 2,
            duplicate_file_count: 10,
            duplicate_group_count: 4,
            wasted_bytes: 4017,
        }
    );
}

#[test]
fn counters_stop_at_the_largest_number() {
    let mut counters = RunCounters { files_seen: usize::MAX - 1, wasted_bytes: 5, ..zero() };
    counters.record_walk(5, 0, 0);
    assert_eq!(counters.files_seen, usize::MAX);
    counters.record_group(u64::MAX, 3);
    assert_eq!(counters.wasted_bytes, u64::MAX);
    let mut exact = zero();
    exact.record_group(u64::MAX, 2);
    assert_eq!(exact.wasted_bytes, u64::MAX);
    let mut none = zero();
    none.record_group(u64::MAX, 1);
    none.record_group(u64::MAX, 0);
    assert_eq!(none.wasted_bytes, 0);
    assert_eq!(none.duplicate_file_count, 1);
    assert_eq!(none.duplicate_group_count, 2);
}

#[test]
fn to_decimal_writes_numbers() {
    assert_eq!(to_decimal(0), "0");
    assert_eq!(to_decimal(7), "7");
    assert_eq!(to_decimal(10), "10");
    assert_eq!(to_decimal(1234567890), "1234567890");
    assert_eq!(to_decimal(u64::MAX), "18446744073709551615");
    for n in [9u64, 99, 100, 101, 1000, 4096, 999999] {
        assert_eq!(to_decimal(n), n.to_string());
    }
}

#[test]
fn render_group_draws_the_block() {
    let group = vec![at("/a/one", 0), at("/b/two", 0), at("/c/three", 0)];
    assert_eq!(
        render_group(100, &group),
        "\u{250C} 100 bytes\n\u{251C} /a/one\n\u{251C} /b/two\n\u{2514} /c/three\n\n"
    );
    let pair = vec![at("x", 0), at("y z", 0)];
    assert_eq!(render_group(0, &pair), "\u{250C} 0 bytes\n\u{251C} x\n\u{2514} y z\n\n");
    assert_eq!(render_group(5, &vec![at("alone", 0)]), "\u{250C} 5 bytes\n\u{2514} alone\n\n");
    assert_eq!(render_group(5, &vec![]), "\u{250C} 5 bytes\n");
}

#[test]
fn a_bucket_with_one_read_and_one_failure_counts_one() {
    let mut counters = zero();
    let outcome = process_bucket(4, vec![ok("a", 0, b"aaaa"), gone("b")], &plain(), &mut counters);
    assert!(outcome.is_err());
    assert_eq!(counters, RunCounters { candidates_hashed: 1, hash_errors: 1, ..zero() });
}
