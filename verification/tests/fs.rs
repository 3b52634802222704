use harvest::fs::GetFileError;
use harvest::fs::PathComponent;
use harvest::fs::PathFault;
use harvest::fs::RawDir;
use harvest::fs::RawEntry;
use harvest::fs::SetFileError;
use harvest::fs::parse;
use harvest::fs::resolve;
use std::path::Component;
use std::path::Path;
use std::path::PathBuf;

fn dir(entries: Vec<(&str, RawEntry)>) -> RawEntry {
    RawEntry::Dir(RawDir::from_entries(
        entries
            .into_iter()
            .map(|(name, entry)| (name.to_owned(), entry))
            .collect(),
    ))
}

fn file(contents: &[u8]) -> RawEntry {
    RawEntry::File(contents.into())
}

fn tree() -> RawDir {
    let RawEntry::Dir(tree) = dir(vec![
        (
            "dir1",
            dir(vec![
                ("dir2", dir(vec![("file2.txt", file(b"B"))])),
                ("file3.txt", file(b"C")),
            ]),
        ),
        ("file1.txt", file(b"A")),
    ]) else {
        unreachable!()
    };
    tree
}

#[test]
fn files_recursive() {
    let dir = tree();
    let listed: Vec<(PathBuf, &[u8])> = dir
        .files_recursive()
        .into_iter()
        .map(|(path, contents)| (path.iter().collect(), contents.as_slice()))
        .collect();
    assert_eq!(
        listed,
        [
            (PathBuf::from("dir1/dir2/file2.txt"), b"B".as_slice()),
            (PathBuf::from("dir1/file3.txt"), b"C".as_slice()),
            (PathBuf::from("file1.txt"), b"A".as_slice())
        ]
    );
}

#[test]
fn set_file() {
    let mut root = RawDir::default();
    assert!(root.set_file("file1.txt", b"A".into()).is_ok());
    assert!(root.set_file("dir1/dir2/file2.txt", b"B".into()).is_ok());
    assert!(root.set_file("dir1/file3.txt", b"C".into()).is_ok());
    assert_eq!(
        root.set_file("/etc/passwd", b"D".into()),
        Err(SetFileError::AbsolutePath)
    );
    assert_eq!(
        root.set_file("dir1/file3.txt", b"E".into()),
        Err(SetFileError::AlreadyExists)
    );
    assert_eq!(
        root.set_file(".", b"F".into()),
        Err(SetFileError::Directory)
    );
    assert_eq!(
        root.set_file("dir1/dir2/..", b"G".into()),
        Err(SetFileError::Directory)
    );
    assert_eq!(
        root.set_file("", b"H".into()),
        Err(SetFileError::EmptyFileName)
    );
    assert_eq!(
        root.set_file("../", b"I".into()),
        Err(SetFileError::OutsideDir)
    );
    assert_eq!(
        root.set_file("dir1/../../", b"J".into()),
        Err(SetFileError::OutsideDir)
    );
    assert_eq!(
        root.set_file("file1.txt/file4.txt", b"K".into()),
        Err(SetFileError::UnderFile)
    );
    assert_eq!(root, tree());
}

#[test]
fn get_file() {
    let root = tree();
    assert_eq!(root.get_file("file1.txt"), Ok(&b"A".to_vec()));
    assert_eq!(root.get_file("dir1/dir2/file2.txt"), Ok(&b"B".to_vec()));
    assert_eq!(root.get_file("dir1/dir2/../file3.txt"), Ok(&b"C".to_vec()));
    assert_eq!(root.get_file("./dir1/file3.txt"), Ok(&b"C".to_vec()));
    assert_eq!(root.get_file("nothing/../file1.txt"), Ok(&b"A".to_vec()));
    assert_eq!(
        root.get_file("/etc/passwd"),
        Err(GetFileError::AbsolutePath)
    );
    assert_eq!(root.get_file("dir1"), Err(GetFileError::Directory));
    assert_eq!(root.get_file("."), Err(GetFileError::Directory));
    assert_eq!(root.get_file("dir1/.."), Err(GetFileError::Directory));
    assert_eq!(root.get_file("../file1.txt"), Err(GetFileError::OutsideDir));
    assert_eq!(
        root.get_file("file1.txt/below"),
        Err(GetFileError::UnderFile)
    );
    assert_eq!(root.get_file(""), Err(GetFileError::DoesNotExist));
    assert_eq!(root.get_file("missing"), Err(GetFileError::DoesNotExist));
    assert_eq!(
        root.get_file("missing/file.txt"),
        Err(GetFileError::DoesNotExist)
    );
    assert_eq!(
        root.get_file("dir1/missing.txt"),
        Err(GetFileError::DoesNotExist)
    );
}

#[test]
fn a_failed_set_file_changes_nothing() {
    let mut root = tree();
    assert_eq!(
        root.set_file("dir1/file3.txt/new/deeper.txt", b"X".into()),
        Err(SetFileError::UnderFile)
    );
    assert_eq!(
        root.set_file("dir1/dir2", b"X".into()),
        Err(SetFileError::AlreadyExists)
    );
    assert_eq!(root, tree());
    assert!(root.set_file("new1/new2/file.txt", b"N".into()).is_ok());
    assert_eq!(root.get_file("new1/new2/file.txt"), Ok(&b"N".to_vec()));
    assert_eq!(root.get_file("dir1/file3.txt"), Ok(&b"C".to_vec()));
}

#[test]
fn steps_are_read_without_looking_at_any_directory() {
    let normal = |name: &str| PathComponent::Normal(name.to_owned());
    assert_eq!(
        resolve(&vec![normal("a"), normal("b"), normal("c.txt")]),
        Ok((vec!["a".to_owned(), "b".to_owned()], "c.txt".to_owned()))
    );
    assert_eq!(
        resolve(&vec![
            PathComponent::CurDir,
            normal("a"),
            PathComponent::ParentDir,
            normal("b")
        ]),
        Ok((vec![], "b".to_owned()))
    );
    assert_eq!(resolve(&vec![]), Err(PathFault::NoName));
    assert_eq!(resolve(&vec![normal("")]), Err(PathFault::NoName));
    assert_eq!(
        resolve(&vec![normal("a"), PathComponent::CurDir]),
        Err(PathFault::Directory)
    );
    assert_eq!(
        resolve(&vec![normal("a"), PathComponent::ParentDir]),
        Err(PathFault::Directory)
    );
    assert_eq!(
        resolve(&vec![PathComponent::ParentDir, normal("a")]),
        Err(PathFault::OutsideDir)
    );
    assert_eq!(
        resolve(&vec![PathComponent::RootDir, normal("a")]),
        Err(PathFault::AbsolutePath)
    );
    assert_eq!(
        resolve(&vec![PathComponent::Prefix, PathComponent::ParentDir]),
        Err(PathFault::AbsolutePath)
    );
    // The first fault on the way is the one that is reported.
    assert_eq!(
        resolve(&vec![PathComponent::ParentDir, PathComponent::RootDir]),
        Err(PathFault::OutsideDir)
    );
}

#[test]
fn a_path_is_split_at_its_separators() {
    // A path given as text names what its steps name.
    let mut by_text = RawDir::default();
    let mut by_steps = RawDir::default();
    assert!(by_text.set_file("a//b/./c.txt", b"1".into()).is_ok());
    assert!(by_steps
        .set_file_at(
            &vec![
                PathComponent::Normal("a".to_owned()),
                PathComponent::Normal("b".to_owned()),
                PathComponent::Normal("c.txt".to_owned())
            ],
            b"1".into()
        )
        .is_ok());
    assert_eq!(by_text, by_steps);
    assert_eq!(by_text.get_file("a/b/c.txt"), Ok(&b"1".to_vec()));
    assert_eq!(
        by_text.get_file("a/b/c.txta/b/c.txt"),
        Err(GetFileError::DoesNotExist)
    );
}

#[test]
fn a_tree_is_shown_with_directories_first() {
    let shown = tree().display(0);
    assert_eq!(
        shown,
        "dir1\n  dir2\n  file2.txt (1B)\n  file3.txt (1B)\nfile1.txt (1B)\n"
    );
    let mut root = RawDir::default();
    assert_eq!(root.display(3), "");
    root.set_file("big.bin", vec![0; 1234]).unwrap();
    root.set_file("empty", vec![]).unwrap();
    assert_eq!(root.display(2), "    big.bin (1234B)\n    empty (0B)\n");
}

#[test]
fn entries_stand_in_the_order_of_their_names() {
    let RawEntry::Dir(root) = dir(vec![
        ("b", file(b"2")),
        ("a", file(b"1")),
        ("c", RawEntry::Dir(RawDir::default())),
        ("a", file(b"3")),
    ]) else {
        unreachable!()
    };
    assert_eq!(root.len(), 3);
    let names: Vec<&str> = (0..root.len()).map(|at| root.entry_at(at).0.as_str()).collect();
    assert_eq!(names, ["a", "b", "c"]);
    // Of two entries with one name the later one stays.
    assert_eq!(root.get("a"), Some(&file(b"3")));
    assert_eq!(root.get("a").and_then(RawEntry::file), Some(&b"3".to_vec()));
    assert_eq!(root.get("a").and_then(RawEntry::dir), None);
    assert_eq!(root.get("c").and_then(RawEntry::dir), Some(&RawDir::default()));
    assert_eq!(root.get("d"), None);
    let mut root = root;
    assert_eq!(root.insert("b".to_owned(), file(b"4")), Some(file(b"2")));
    assert_eq!(root.insert("0".to_owned(), file(b"5")), None);
    assert_eq!(root.entry_at(0).0, "0");
    assert!(root.files_recursive().iter().all(|(path, _)| path.len() == 1));
}

/// The steps of `path` as the standard library reads them on this platform.
fn std_steps(path: &str) -> Vec<PathComponent> {
    Path::new(path)
        .components()
        .map(|component| match component {
            Component::Prefix(_) => PathComponent::Prefix,
            Component::RootDir => PathComponent::RootDir,
            Component::CurDir => PathComponent::CurDir,
            Component::ParentDir => PathComponent::ParentDir,
            Component::Normal(name) => PathComponent::Normal(name.to_str().unwrap().to_owned()),
        })
        .collect()
}

#[test]
fn paths_are_split_into_steps() {
    let normal = |name: &str| PathComponent::Normal(name.to_owned());
    assert_eq!(parse(""), vec![]);
    assert_eq!(parse("a"), vec![normal("a")]);
    assert_eq!(parse("a/b.txt"), vec![normal("a"), normal("b.txt")]);
    assert_eq!(parse("/"), vec![PathComponent::RootDir]);
    assert_eq!(parse("/etc/passwd"), vec![PathComponent::RootDir, normal("etc"), normal("passwd")]);
    assert_eq!(parse("."), vec![PathComponent::CurDir]);
    assert_eq!(parse("./a"), vec![PathComponent::CurDir, normal("a")]);
    assert_eq!(parse("a/./b/."), vec![normal("a"), normal("b")]);
    assert_eq!(parse(".."), vec![PathComponent::ParentDir]);
    assert_eq!(
        parse("a/../..b/..."),
        vec![normal("a"), PathComponent::ParentDir, normal("..b"), normal("...")]
    );
    assert_eq!(parse("a//b///"), vec![normal("a"), normal("b")]);
    assert_eq!(parse("é/ü"), vec![normal("é"), normal("ü")]);
}

#[test]
fn paths_are_split_as_the_standard_library_splits_them() {
    let pieces = ["", "a", ".", "..", "...", ".a", "a.", "b c", "é"];
    let mut paths: Vec<String> = vec![];
    for first in pieces {
        for second in pieces {
            for third in pieces {
                for lead in ["", "/", "//", "./", "../"] {
                    for sep in ["/", "//", "/./"] {
                        for tail in ["", "/", "/.", "/.."] {
                            paths.push(format!("{lead}{first}{sep}{second}{sep}{third}{tail}"));
                        }
                    }
                }
            }
        }
    }
    paths.extend(pieces.iter().map(|p| (*p).to_owned()));
    paths.extend(pieces.iter().map(|p| format!("/{p}")));
    paths.extend(pieces.iter().map(|p| format!("{p}/")));
    for path in paths {
        assert_eq!(parse(&path), std_steps(&path), "{path:?}");
    }
}

#[test]
fn the_directories_and_files_of_a_tree_are_counted() {
    assert_eq!(RawDir::default().census(), Some((0, 0)));
    assert_eq!(tree().census(), Some((2, 3)));
    let RawEntry::Dir(deep) = dir(vec![
        ("a", dir(vec![("b", dir(vec![("c", dir(vec![]))]))])),
        ("d", dir(vec![])),
        ("e", file(b"")),
        ("f", dir(vec![("g", file(b"1")), ("h", file(b"2"))])),
    ]) else {
        unreachable!()
    };
    assert_eq!(deep.census(), Some((5, 3)));
}
