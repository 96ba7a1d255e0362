use dupes::paths::{
    common_components, common_path, components_within, extension, file_name, file_stem,
    find_split_point, is_within_dir, parent, same_bytes, same_component, PathComponent,
};
use std::path::Path;

fn normal(name: &str) -> PathComponent {
    PathComponent::Normal(name.as_bytes().to_vec())
}

#[test]
fn test_is_within_dir() {
    let trailing = String::from("/Users/myuser/Documents/");
    let notrail = String::from("/Users/myuser/Documents");
    let file = String::from("/Users/myuser/Documents/PDFs/Draft.pdf");
    assert!(is_within_dir(&file, &trailing));
    assert!(is_within_dir(&file, &notrail));
}

#[test]
fn within_dir_needs_whole_components() {
    assert!(!is_within_dir("/Users/myuser/Documents2/a.txt", "/Users/myuser/Documents"));
    assert!(!is_within_dir("/Users/myuser", "/Users/myuser/Documents"));
    assert!(!is_within_dir("Users/myuser/Documents/a", "/Users/myuser/Documents"));
    assert!(is_within_dir("/Users/myuser/Documents", "/Users/myuser/Documents"));
    assert!(is_within_dir("/a//b/./c", "/a/b"));
    assert!(is_within_dir("anything/at/all", ""));
}

#[test]
fn within_dir_agrees_with_starts_with() {
    let paths = [
        "", "/", ".", "..", "a", "a/", "a/b", "/a", "/a/b", "/a/b/", "a//b", "./a", "../a",
        "/a/./b", "/a/../b", "a/b/c.txt", "/a/b/c.txt", "/ab",
    ];
    for target in paths {
        for dir in paths {
            assert_eq!(
                is_within_dir(target, dir),
                Path::new(target).starts_with(dir),
                "{:?} within {:?}",
                target,
                dir
            );
        }
    }
}

#[test]
fn common_path_is_the_shared_start() {
    assert_eq!(
        common_path("/a/b/c", "/a/b/d/e"),
        vec![PathComponent::RootDir, normal("a"), normal("b")]
    );
    assert_eq!(common_path("a/b", "c/d"), Vec::<PathComponent>::new());
    assert_eq!(common_path("./x", "./x/"), vec![PathComponent::CurDir, normal("x")]);
    assert_eq!(common_path("../x", "../y"), vec![PathComponent::ParentDir]);
    assert_eq!(common_path("/a/b", "/a/b"), vec![PathComponent::RootDir, normal("a"), normal("b")]);
}

#[test]
fn common_components_of_given_sequences() {
    let left = vec![normal("a"), normal("b"), normal("c")];
    let right = vec![normal("a"), normal("b"), normal("x"), normal("c")];
    assert_eq!(common_components(left, &right), vec![normal("a"), normal("b")]);
    assert_eq!(common_components(Vec::new(), &right), Vec::<PathComponent>::new());
    let kinds = vec![PathComponent::CurDir];
    assert_eq!(common_components(vec![PathComponent::ParentDir], &kinds), Vec::<PathComponent>::new());
}

#[test]
fn components_within_of_given_sequences() {
    let dir = vec![PathComponent::RootDir, normal("a")];
    assert!(components_within(vec![PathComponent::RootDir, normal("a"), normal("b")], &dir));
    assert!(components_within(vec![PathComponent::RootDir, normal("a")], &dir));
    assert!(!components_within(vec![PathComponent::RootDir], &dir));
    assert!(!components_within(vec![PathComponent::RootDir, normal("ab")], &dir));
    assert!(components_within(vec![normal("x")], &Vec::new()));
}

#[test]
fn same_bytes_and_components() {
    assert!(same_bytes(b"abc", b"abc"));
    assert!(!same_bytes(b"abc", b"abd"));
    assert!(!same_bytes(b"abc", b"ab"));
    assert!(same_bytes(b"", b""));
    assert!(same_component(&normal("a"), &normal("a")));
    assert!(!same_component(&normal("a"), &normal("b")));
    assert!(!same_component(&PathComponent::CurDir, &PathComponent::ParentDir));
    assert!(!same_component(&PathComponent::Prefix(b"a".to_vec()), &normal("a")));
    assert!(same_component(&PathComponent::RootDir, &PathComponent::RootDir));
}

#[test]
fn parent_drops_the_last_component() {
    let parts = vec![PathComponent::RootDir, normal("a"), normal("b")];
    assert_eq!(parent(&parts), Some(&[PathComponent::RootDir, normal("a")][..]));
    let one = vec![normal("a")];
    assert_eq!(parent(&one), Some(&[][..]));
    assert_eq!(parent(&vec![PathComponent::RootDir]), None);
    assert_eq!(parent(&Vec::new()), None);
    assert_eq!(parent(&vec![PathComponent::Prefix(b"C:".to_vec())]), None);
    let up = vec![normal("a"), PathComponent::ParentDir];
    assert_eq!(parent(&up), Some(&[normal("a")][..]));
}

#[test]
fn file_name_is_the_last_name() {
    let parts = vec![PathComponent::RootDir, normal("a"), normal("b.txt")];
    assert_eq!(file_name(&parts), Some(&b"b.txt"[..]));
    assert_eq!(file_name(&vec![normal("a"), PathComponent::ParentDir]), None);
    assert_eq!(file_name(&vec![PathComponent::RootDir]), None);
    assert_eq!(file_name(&vec![PathComponent::CurDir]), None);
    assert_eq!(file_name(&Vec::new()), None);
}

#[test]
fn stem_and_extension_of_names() {
    assert_eq!(file_stem(b"photo.jpg"), b"photo");
    assert_eq!(extension(b"photo.jpg"), Some(&b"jpg"[..]));
    assert_eq!(file_stem(b"archive.tar.gz"), b"archive.tar");
    assert_eq!(extension(b"archive.tar.gz"), Some(&b"gz"[..]));
    assert_eq!(file_stem(b"README"), b"README");
    assert_eq!(extension(b"README"), None);
    assert_eq!(file_stem(b".bashrc"), b".bashrc");
    assert_eq!(extension(b".bashrc"), None);
    assert_eq!(file_stem(b"name."), b"name");
    assert_eq!(extension(b"name."), Some(&b""[..]));
    assert_eq!(file_stem(b".."), b"..");
    assert_eq!(extension(b".."), None);
    assert_eq!(file_stem(b"..a"), b".");
    assert_eq!(extension(b"..a"), Some(&b"a"[..]));
    assert_eq!(file_stem(b""), b"");
    assert_eq!(extension(b""), None);
    assert_eq!(find_split_point(b"a.b.c"), Some(3));
    assert_eq!(find_split_point(b".a"), None);
    assert_eq!(find_split_point(b"."), None);
}

#[test]
fn stem_and_extension_agree_with_std() {
    let names = [
        "a", "a.b", ".a", ".a.b", "a.", "a..", "..a", "...", "a.b.c", "photo (1).jpg", ".", "x.y.",
        "long-name_without-dots", ".hidden.tar.gz",
    ];
    for name in names {
        if name == "." {
            continue;
        }
        let path = Path::new(name);
        let stem = path.file_stem().map(|s| s.as_encoded_bytes().to_vec());
        let ext = path.extension().map(|s| s.as_encoded_bytes().to_vec());
        assert_eq!(Some(file_stem(name.as_bytes()).to_vec()), stem, "stem of {:?}", name);
        assert_eq!(extension(name.as_bytes()).map(|e| e.to_vec()), ext, "extension of {:?}", name);
    }
}
