use dupes::hashing::{find_duplicates, hash_record, same_hash, ContentHash};
use dupes::types::{Error, FileInfo};

fn rec(path: &str) -> FileInfo {
    FileInfo { depth: 0, mtime: None, path: String::from(path) }
}

fn hashed(path: &str, content: &[u8]) -> Result<(ContentHash, FileInfo), Error> {
    hash_record(rec(path), Ok(content.to_vec()))
}

fn with_hash(path: &str, byte: u8) -> Result<(ContentHash, FileInfo), Error> {
    Ok(([byte; 32], rec(path)))
}

fn unreadable(text: &str) -> Result<(ContentHash, FileInfo), Error> {
    hash_record(rec("gone"), Err(std::io::Error::new(std::io::ErrorKind::NotFound, text)))
}

fn names(groups: &[Vec<FileInfo>]) -> Vec<Vec<&str>> {
    groups.iter().map(|g| g.iter().map(|f| f.path.as_str()).collect()).collect()
}

fn hex(digest: &ContentHash) -> String {
    digest.iter().map(|b| format!("{:02x}", b)).collect()
}

#[test]
fn hash_record_gives_the_blake3_digest() {
    let (empty, file) = hashed("e", b"").unwrap();
    assert_eq!(hex(&empty), "af1349b9f5f9a1a6a0404dea36dcc9499bcb25c9adc112b7cc9a93cae41f3262");
    assert_eq!(file, rec("e"));
    let (abc, _) = hashed("abc", b"abc").unwrap();
    assert_eq!(hex(&abc), "6437b3ac38465133ffb63b75273a8db548c558465d79db03fd359c6cd5bd9d85");
    let (big, _) = hashed("big", &vec![0u8; 100_000]).unwrap();
    let (big_again, _) = hashed("big2", &vec![0u8; 100_000]).unwrap();
    let (other, _) = hashed("other", &vec![1u8; 100_000]).unwrap();
    assert_eq!(big, big_again);
    assert_ne!(big, other);
    assert_eq!(blake3::hash(&vec![0u8; 100_000]).as_bytes(), &big);
}

#[test]
fn hash_record_passes_a_read_failure_on() {
    match unreadable("no such file") {
        Err(Error::IOError(e)) => {
            assert_eq!(e.kind(), std::io::ErrorKind::NotFound);
            assert_eq!(e.to_string(), "no such file");
        },
        other => panic!("{:?}", other),
    }
}

#[test]
fn same_hash_compares_all_bytes() {
    let a = [3u8; 32];
    let mut b = [3u8; 32];
    assert!(same_hash(&a, &b));
    b[31] = 4;
    assert!(!same_hash(&a, &b));
    b[31] = 3;
    b[0] = 0;
    assert!(!same_hash(&a, &b));
}

#[test]
fn equal_content_makes_a_group() {
    let mut count = 99;
    let groups = find_duplicates(
        vec![hashed("a", b"same"), hashed("c", b"different"), hashed("b", b"same")],
        &mut count,
    )
    .unwrap();
    assert_eq!(count, 3);
    assert_eq!(names(&groups), vec![vec!["a", "b"]]);
}

#[test]
fn groups_come_in_order_of_first_occurrence() {
    let mut count = 0;
    let groups = find_duplicates(
        vec![
            with_hash("x1", 9),
            with_hash("y1", 1),
            with_hash("lonely", 5),
            with_hash("y2", 1),
            with_hash("x2", 9),
            with_hash("z1", 7),
            with_hash("y3", 1),
            with_hash("z2", 7),
        ],
        &mut count,
    )
    .unwrap();
    assert_eq!(count, 8);
    assert_eq!(names(&groups), vec![vec!["x1", "x2"], vec!["y1", "y2", "y3"], vec!["z1", "z2"]]);
}

#[test]
fn different_contents_make_no_group() {
    let mut count = 0;
    let groups =
        find_duplicates(vec![hashed("a", b"1"), hashed("b", b"2"), hashed("c", b"3")], &mut count)
            .unwrap();
    assert_eq!(count, 3);
    assert!(groups.is_empty());
}

#[test]
fn nothing_and_one_file_make_no_group() {
    let mut count = 5;
    assert!(find_duplicates(vec![], &mut count).unwrap().is_empty());
    assert_eq!(count, 0);
    assert!(find_duplicates(vec![hashed("a", b"1")], &mut count).unwrap().is_empty());
    assert_eq!(count, 1);
}

#[test]
fn a_failure_gives_up_the_bucket() {
    let mut count = 0;
    let outcome = find_duplicates(
        vec![hashed("a", b"same"), hashed("b", b"same"), unreadable("first"), unreadable("second")],
        &mut count,
    );
    assert_eq!(count, 2);
    match outcome {
        Err(Error::IOError(e)) => assert_eq!(e.to_string(), "first"),
        other => panic!("{:?}", other),
    }
}

#[test]
fn only_files_that_were_hashed_are_counted() {
    let mut count = 50;
    let outcome = find_duplicates(vec![hashed("a", b"x"), unreadable("lost")], &mut count);
    assert!(outcome.is_err());
    assert_eq!(count, 1);
    let outcome = find_duplicates(
        vec![unreadable("lost"), hashed("a", b"x"), hashed("b", b"x"), hashed("c", b"y")],
        &mut count,
    );
    assert!(outcome.is_err());
    assert_eq!(count, 3);
    let outcome = find_duplicates(vec![unreadable("one"), unreadable("two")], &mut count);
    assert!(outcome.is_err());
    assert_eq!(count, 0);
    let outcome = find_duplicates(vec![hashed("a", b"x"), hashed("b", b"x")], &mut count);
    assert_eq!(outcome.unwrap().len(), 1);
    assert_eq!(count, 2);
}

#[test]
fn files_share_a_group_exactly_if_contents_are_equal() {
    let contents: Vec<&[u8]> = vec![b"a", b"b", b"a", b"", b"c", b"", b"a", b"d"];
    let mut count = 0;
    let items = contents.iter().enumerate().map(|(i, c)| hashed(&i.to_string(), c)).collect();
    let groups = find_duplicates(items, &mut count).unwrap();
    let place = |i: usize| groups.iter().position(|g| g.iter().any(|f| f.path == i.to_string()));
    for i in 0..contents.len() {
        for j in 0..contents.len() {
            if i != j {
                let together = place(i).is_some() && place(i) == place(j);
                assert_eq!(together, contents[i] == contents[j], "{} and {}", i, j);
            }
        }
    }
    assert_eq!(names(&groups), vec![vec!["0", "2", "6"], vec!["3", "5"]]);
}
