use harvest::frozen::Consulted;
use harvest::frozen::Dir;
use harvest::frozen::DirEntry;
use harvest::frozen::File;
use harvest::frozen::FreezeError;
use harvest::frozen::Freezer;
use harvest::frozen::GetError;
use harvest::frozen::GetError::FilesystemLoop;
use harvest::frozen::GetError::LeavesDir;
use harvest::frozen::GetError::NotADirectory;
use harvest::frozen::GetError::NotFound;
use harvest::frozen::GetNofollowError;
use harvest::frozen::ResolvedEntry;
use harvest::frozen::Symlink;
use harvest::fs::PathComponent;
use harvest::name_map::NameMap;
use std::collections::BTreeMap;
use std::collections::HashSet;

/// What stands under a name while a directory is being built.
enum Node {
    Dir(BTreeMap<String, Node>),
    File,
    Symlink(String),
}

/// Utility to easily build up a Dir with the given contents. The contents of the files are
/// kept beside the Dir, by the paths of the files.
struct DirBuilder {
    root: BTreeMap<String, Node>,
    contents: BTreeMap<String, String>,
}

impl DirBuilder {
    pub fn new() -> DirBuilder {
        DirBuilder {
            root: BTreeMap::new(),
            contents: BTreeMap::new(),
        }
    }

    fn add(mut self, path: &str, node: Node) -> DirBuilder {
        let mut names: Vec<&str> = path.split('/').collect();
        let last = names.pop().unwrap();
        let mut dir = &mut self.root;
        for name in names {
            let Some(Node::Dir(inner)) = dir.get_mut(name) else {
                panic!("{name} is no directory");
            };
            dir = inner;
        }
        dir.insert(last.to_owned(), node);
        self
    }

    pub fn add_dir(self, path: &str) -> DirBuilder {
        self.add(path, Node::Dir(BTreeMap::new()))
    }

    pub fn add_file(mut self, path: &str, contents: &str) -> DirBuilder {
        self.contents.insert(path.to_owned(), contents.to_owned());
        self.add(path, Node::File)
    }

    pub fn add_symlink(self, path: &str, target: &str) -> DirBuilder {
        self.add(path, Node::Symlink(target.to_owned()))
    }

    fn freeze(prefix: &str, nodes: &BTreeMap<String, Node>) -> Dir {
        let mut contents = NameMap::new();
        for (name, node) in nodes {
            let path = match prefix {
                "" => name.clone(),
                prefix => format!("{prefix}/{name}"),
            };
            let entry = match node {
                Node::Dir(inner) => DirEntry::Dir(DirBuilder::freeze(&path, inner)),
                Node::File => DirEntry::File(File::new(path)),
                Node::Symlink(target) => DirEntry::Symlink(Symlink::new(target.clone())),
            };
            contents.insert(name.clone(), entry);
        }
        Dir::new(contents)
    }

    pub fn build(self) -> (Dir, BTreeMap<String, String>) {
        (DirBuilder::freeze("", &self.root), self.contents)
    }
}

/// Panics if `dir` is not a directory with the given entry names.
fn assert_dir_contains<const N: usize>(dir: Result<ResolvedEntry, GetError>, contents: [&str; N]) {
    assert_eq!(
        HashSet::<String>::from_iter(
            dir.expect("not ok")
                .dir()
                .expect("not a dir")
                .entries()
                .into_iter()
                .map(|(p, _)| p)
        ),
        HashSet::from_iter(contents.map(From::from)),
    );
}

/// Panics if `file` is not a file with the given contents.
fn assert_file_contains(
    files: &BTreeMap<String, String>,
    file: Result<ResolvedEntry, GetError>,
    contents: &str,
) {
    assert_eq!(
        files[file.expect("not ok").file().expect("not a file").path()],
        contents
    );
}

/// Basic tests for [Dir::get].
#[test]
fn get_basic() {
    let (dir, files) = DirBuilder::new()
        .add_dir("subdir1")
        .add_file("subdir1/a.txt", "a")
        .add_file("b.txt", "b")
        .add_symlink("symlink", "b.txt")
        .add_symlink("absolute_link", "/home/user")
        .add_dir("subdir2")
        .add_symlink("subdir2/original_dir", "..")
        .add_symlink("trivial_circular", "trivial_circular")
        .add_symlink(
            "complex_circular",
            "subdir2/original_dir/complex_circular/b.txt",
        )
        .build();
    let root_names = [
        "subdir1",
        "b.txt",
        "symlink",
        "absolute_link",
        "subdir2",
        "trivial_circular",
        "complex_circular",
    ];
    assert_dir_contains(dir.get(""), root_names);
    assert_dir_contains(dir.get("subdir1"), ["a.txt"]);
    assert_file_contains(&files, dir.get("subdir1/a.txt"), "a");
    assert_dir_contains(dir.get("subdir1/.."), root_names);
    assert_dir_contains(dir.get("subdir2/original_dir"), root_names);
    assert_dir_contains(dir.get("subdir2/original_dir/subdir1"), ["a.txt"]);
    assert_file_contains(&files, dir.get("b.txt"), "b");
    assert_file_contains(&files, dir.get("subdir2/original_dir/subdir1/../b.txt"), "b");
    assert_file_contains(&files, dir.get("./subdir1/./a.txt"), "a");
    assert_eq!(dir.get("nonexistent").err(), Some(NotFound));
    assert_eq!(dir.get("subdir1/../../b.txt").err(), Some(LeavesDir));
    assert_eq!(dir.get("b.txt/subdir1").err(), Some(NotADirectory));
    assert_eq!(dir.get("absolute_link/Documents").err(), Some(LeavesDir));
    assert_eq!(dir.get("trivial_circular").err(), Some(FilesystemLoop));
    assert_eq!(dir.get("complex_circular").err(), Some(FilesystemLoop));
}

/// Tests [Dir::get] with a symlink pattern for which the naive lookup algorithm exhibits
/// exponential growth.
#[test]
fn get_exponential() {
    let (dir, files) = DirBuilder::new()
        .add_file("file", "contents")
        .add_symlink("a", ".")
        .add_symlink("b", "a/a/a/a/a/a/a/a/a/a/a/a/a/a/a/a/a/a/a/a/a/a/a/a/a/a/a")
        .add_symlink("c", "b/b/b/b/b/b/b/b/b/b/b/b/b/b/b/b/b/b/b/b/b/b/b/b/b/b/b")
        .add_symlink("d", "c/c/c/c/c/c/c/c/c/c/c/c/c/c/c/c/c/c/c/c/c/c/c/c/c/c/c")
        .add_symlink("e", "d/d/d/d/d/d/d/d/d/d/d/d/d/d/d/d/d/d/d/d/d/d/d/d/d/d/d")
        .add_symlink("f", "e/e/e/e/e/e/e/e/e/e/e/e/e/e/e/e/e/e/e/e/e/e/e/e/e/e/e")
        .add_symlink("g", "f/f/f/f/f/f/f/f/f/f/f/f/f/f/f/f/f/f/f/f/f/f/f/f/f/f/f")
        .add_symlink("h", "g/g/g/g/g/g/g/g/g/g/g/g/g/g/g/g/g/g/g/g/g/g/g/g/g/g/g")
        .add_symlink("i", "h/h/h/h/h/h/h/h/h/h/h/h/h/h/h/h/h/h/h/h/h/h/h/h/h/h/h")
        .add_symlink("j", "i/i/i/i/i/i/i/i/i/i/i/i/i/i/i/i/i/i/i/i/i/i/i/i/i/i/i")
        .add_symlink("k", "j/j/j/j/j/j/j/j/j/j/j/j/j/j/j/j/j/j/j/j/j/j/j/j/j/j/j")
        .build();
    assert_dir_contains(
        dir.get("k"),
        [
            "file", "a", "b", "c", "d", "e", "f", "g", "h", "i", "j", "k",
        ],
    );
    assert_file_contains(&files, dir.get("k/file"), "contents");

    // And a variant that is a loop
    let (dir, _) = DirBuilder::new()
        .add_file("file", "contents")
        .add_symlink("a", ".")
        .add_symlink("b", "a/a/a/a/a/a/a/a/a/a/a/a/a/a/a/a/a/a/a/a/a/a/a/a/a/a/a")
        .add_symlink("c", "b/b/b/b/b/b/b/b/b/b/b/b/b/b/b/b/b/b/b/b/b/b/b/b/b/b/b")
        .add_symlink("d", "c/c/c/c/c/c/c/c/c/c/c/c/c/c/c/c/c/c/c/c/c/c/c/c/c/c/c")
        .add_symlink("e", "d/d/d/d/d/d/d/d/d/d/d/d/d/d/d/d/d/d/d/d/d/d/d/d/d/d/d")
        .add_symlink("f", "e/e/e/e/e/e/e/e/e/e/e/e/e/e/e/e/e/e/e/e/e/e/e/e/e/e/e")
        .add_symlink("g", "f/f/f/f/f/f/f/f/f/f/f/f/f/f/f/f/f/f/f/f/f/f/f/f/f/f/f")
        .add_symlink("h", "g/g/g/g/g/g/g/g/g/g/g/g/g/g/g/g/g/g/g/g/g/g/g/g/g/g/g")
        .add_symlink("i", "h/h/h/h/h/h/h/h/h/h/h/h/h/h/h/h/h/h/h/h/h/h/h/h/h/h/h")
        .add_symlink("j", "i/i/i/i/i/i/i/i/i/i/i/i/i/i/i/i/i/i/i/i/i/i/i/i/i/i/i")
        .add_symlink("k", "j/j/j/j/j/j/j/j/j/j/j/j/j/j/j/j/j/j/j/j/j/j/j/j/j/j/k")
        .build();
    assert_eq!(dir.get("k").err(), Some(FilesystemLoop));
}

/// The same subdirectory below two symlinks, met by one way and then by the other.
#[test]
fn get_diamond() {
    let (dir, files) = DirBuilder::new()
        .add_file("file.txt", "d")
        .add_dir("dir1")
        .add_file("dir1/file.txt", "b")
        .add_dir("dir1/subdir")
        .add_file("dir1/subdir/file.txt", "a1")
        .add_symlink("dir1/subdir/symlink", "../subdir/..")
        .add_dir("dir2")
        .add_file("dir2/file.txt", "c")
        .add_dir("dir2/subdir")
        .add_file("dir2/subdir/file.txt", "a2")
        .add_symlink("dir2/subdir/symlink", "../subdir/..")
        .build();
    assert_file_contains(
        &files,
        dir.get("dir1/subdir/symlink/subdir/file.txt"),
        "a1",
    );
    assert_file_contains(&files, dir.get("dir1/subdir/symlink/file.txt"), "b");
    assert_file_contains(&files, dir.get("dir2/subdir/symlink/file.txt"), "c");
    assert_file_contains(&files, dir.get("dir1/subdir/symlink/../file.txt"), "d");
    // This one puts one path for accessing the symlink into the cache, then accesses it
    // through the other path.
    assert_file_contains(
        &files,
        dir.get("dir1/subdir/symlink/../dir2/subdir/symlink/file.txt"),
        "c",
    );
    // The same symlink met twice on one way leads to the same place both times.
    assert_file_contains(
        &files,
        dir.get("dir1/subdir/symlink/subdir/symlink/file.txt"),
        "b",
    );
}

#[test]
fn a_file_ends_the_lookup() {
    let (dir, files) = DirBuilder::new()
        .add_file("file", "f")
        .add_symlink("to_file", "file")
        .add_symlink("through_file", "file/below")
        .build();
    assert_file_contains(&files, dir.get("to_file"), "f");
    assert_eq!(dir.get("to_file/more").err(), Some(NotADirectory));
    assert_eq!(dir.get("through_file").err(), Some(NotADirectory));
    assert_eq!(dir.get("/file").err(), Some(LeavesDir));
    assert_eq!(dir.get("..").err(), Some(LeavesDir));
    assert_eq!(dir.count_links(), 2);
}

#[test]
fn lookups_by_steps() {
    let (dir, files) = DirBuilder::new()
        .add_dir("sub")
        .add_file("sub/file", "f")
        .build();
    let normal = |name: &str| PathComponent::Normal(name.to_owned());
    assert_file_contains(
        &files,
        dir.get_inner(&vec![
            normal("sub"),
            PathComponent::CurDir,
            PathComponent::ParentDir,
            normal("sub"),
            normal("file"),
        ]),
        "f",
    );
    assert_eq!(
        dir.get_inner(&vec![PathComponent::Prefix]).err(),
        Some(LeavesDir)
    );
    assert_eq!(
        dir.get_inner(&vec![normal("sub"), normal("nothing"), PathComponent::ParentDir])
            .err(),
        Some(NotFound)
    );
    assert_eq!(
        dir.get_nofollow_inner(&vec![normal("sub"), normal("file")]),
        Ok(DirEntry::File(File::new("sub/file".to_owned())))
    );
}

#[test]
fn get_nofollow() {
    let (dir, _) = DirBuilder::new()
        .add_dir("sub")
        .add_file("sub/file", "f")
        .add_symlink("sub/link", "file")
        .add_symlink("to_sub", "sub")
        .build();
    assert_eq!(dir.get_nofollow("").unwrap(), DirEntry::Dir(dir.clone()));
    assert_eq!(
        dir.get_nofollow("sub/file"),
        Ok(DirEntry::File(File::new("sub/file".to_owned())))
    );
    let Ok(DirEntry::Symlink(link)) = dir.get_nofollow("sub/link") else {
        panic!("not a symlink");
    };
    assert_eq!(link.contents(), "file");
    assert_eq!(
        link,
        Symlink::with_steps(
            "file".to_owned(),
            vec![PathComponent::Normal("file".to_owned())]
        )
    );
    assert_eq!(link.clone(), link);
    assert_eq!(
        link.steps(),
        &vec![PathComponent::Normal("file".to_owned())]
    );
    assert_eq!(
        dir.get_nofollow("to_sub/file"),
        Err(GetNofollowError::NotADirectory)
    );
    assert_eq!(
        dir.get_nofollow("sub/file/below"),
        Err(GetNofollowError::NotADirectory)
    );
    assert_eq!(
        dir.get_nofollow("sub/.."),
        Err(GetNofollowError::NotADirectory)
    );
    assert_eq!(
        dir.get_nofollow("./sub"),
        Err(GetNofollowError::NotADirectory)
    );
    assert_eq!(dir.get_nofollow("/sub"), Err(GetNofollowError::LeavesDir));
    assert_eq!(
        dir.get_nofollow("sub/missing"),
        Err(GetNofollowError::NotFound)
    );
    assert_eq!(dir.get_nofollow("missing/x"), Err(GetNofollowError::NotFound));
    assert!(matches!(dir.get_entry("sub"), Some(DirEntry::Dir(_))));
    assert!(matches!(dir.get_entry("to_sub"), Some(DirEntry::Symlink(_))));
    assert!(dir.get_entry("file").is_none());
    assert_eq!(dir.len(), 2);
}

#[test]
fn the_freezer_answers_from_what_is_frozen() {
    let (sub, _) = DirBuilder::new()
        .add_file("file", "f")
        .add_dir("inner")
        .build();
    let normal = |name: &str| PathComponent::Normal(name.to_owned());
    let path = |names: &[&str]| -> Vec<PathComponent> { names.iter().map(|n| normal(n)).collect() };
    let key = |names: &[&str]| -> Vec<String> { names.iter().map(|n| (*n).to_owned()).collect() };
    let mut freezer = Freezer::new();
    assert_eq!(freezer.consult(&path(&["a", "sub"]), 0), Consulted::Unknown);
    assert_eq!(freezer.consult(&path(&["a", "sub"]), 1), Consulted::Unknown);
    freezer.remember(key(&["a", "sub"]), DirEntry::Dir(sub.clone()));
    freezer.remember(key(&["a", "note"]), DirEntry::File(File::new("a/note".to_owned())));
    assert_eq!(freezer.consult(&path(&["a", "sub", "file"]), 0), Consulted::Unknown);
    assert_eq!(
        freezer.consult(&path(&["a", "sub", "file"]), 1),
        Consulted::Settled(Ok(DirEntry::File(File::new("file".to_owned()))))
    );
    assert_eq!(
        freezer.consult(&path(&["a", "sub"]), 1),
        Consulted::Settled(Ok(DirEntry::Dir(sub.clone())))
    );
    assert_eq!(
        freezer.consult(&path(&["a", "sub", "missing"]), 1),
        Consulted::Settled(Err(FreezeError::NotFound))
    );
    assert_eq!(
        freezer.consult(&path(&["a", "sub", "file", "below"]), 1),
        Consulted::Settled(Err(FreezeError::NotADirectory))
    );
    assert_eq!(
        freezer.consult(&path(&["a", "note", "below"]), 1),
        Consulted::Settled(Err(FreezeError::NotADirectory))
    );
    assert_eq!(
        freezer.consult(&path(&["a", "note"]), 1),
        Consulted::Settled(Ok(DirEntry::File(File::new("a/note".to_owned()))))
    );
    assert_eq!(
        freezer.consult(&vec![normal("a"), PathComponent::ParentDir], 1),
        Consulted::Settled(Err(FreezeError::InvalidInput))
    );
    assert_eq!(
        freezer.consult(&vec![normal("a"), normal("sub"), PathComponent::RootDir], 1),
        Consulted::Settled(Err(FreezeError::InvalidInput))
    );
    assert_eq!(
        freezer.consult(&vec![normal("a"), normal("sub"), PathComponent::CurDir], 1),
        Consulted::Settled(Err(FreezeError::NotADirectory))
    );
    // What a directory holds is taken out of the notes when the directory is frozen.
    assert_eq!(
        freezer.take(&key(&["a", "note"])),
        Some(DirEntry::File(File::new("a/note".to_owned())))
    );
    assert_eq!(freezer.take(&key(&["a", "note"])), None);
    assert_eq!(freezer.consult(&path(&["a", "note"]), 1), Consulted::Unknown);
    freezer.remember(key(&["a", "sub"]), DirEntry::File(File::new("a/sub".to_owned())));
    assert_eq!(
        freezer.consult(&path(&["a", "sub"]), 1),
        Consulted::Settled(Ok(DirEntry::File(File::new("a/sub".to_owned()))))
    );
}

#[test]
fn entries_are_made_from_what_they_hold() {
    let file = || File::new("dir/file".to_owned());
    let link = || Symlink::new("../b".to_owned());
    let dir = || Dir::new(NameMap::new());
    assert_eq!(DirEntry::from(file()), DirEntry::File(file()));
    assert_eq!(DirEntry::from(link()), DirEntry::Symlink(link()));
    assert_eq!(DirEntry::from(dir()), DirEntry::Dir(dir()));
    assert_eq!(
        DirEntry::from(ResolvedEntry::File(file())),
        DirEntry::File(file())
    );
    assert_eq!(
        DirEntry::from(ResolvedEntry::Dir(dir())),
        DirEntry::Dir(dir())
    );
    assert_eq!(ResolvedEntry::from(file()), ResolvedEntry::File(file()));
    assert_eq!(ResolvedEntry::from(dir()), ResolvedEntry::Dir(dir()));
    let entry: DirEntry = file().into();
    assert_eq!(entry, DirEntry::File(file()));
}
