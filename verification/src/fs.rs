//! Directory trees in memory: the files of a source project, of a Cargo project, and the
//! like.

use crate::name_map::NameMap;
use crate::text::decimal;
use crate::text::decimal_digits;
use vstd::prelude::*;
use vstd::string::StringExecFns;

verus! {

/// What stands under a name in a directory.
#[derive(Debug, PartialEq, Eq)]
pub enum RawEntry {
    /// A directory.
    Dir(RawDir),
    /// A file, with its contents.
    File(Vec<u8>),
}

/// A directory tree. Its model is the map from the names in the directory to what stands
/// under them.
#[derive(Debug, PartialEq, Eq)]
pub struct RawDir {
    entries: NameMap<RawEntry>,
}

/// One step of a path.
#[derive(Debug, PartialEq, Eq)]
pub enum PathComponent {
    /// A prefix such as a drive letter.
    Prefix,
    /// The root directory: the path is absolute.
    RootDir,
    /// The directory that the path has come to: `.`.
    CurDir,
    /// The directory above: `..`.
    ParentDir,
    /// The name of a file or a directory.
    Normal(String),
}

/// One step of a path, as a value of the model.
pub enum Step {
    /// A prefix such as a drive letter.
    Prefix,
    /// The root directory.
    RootDir,
    /// The directory that the path has come to.
    CurDir,
    /// The directory above.
    ParentDir,
    /// The name of a file or a directory.
    Normal(Seq<char>),
}

impl View for PathComponent {
    type V = Step;

    open spec fn view(&self) -> Step {
        match self {
            PathComponent::Prefix => Step::Prefix,
            PathComponent::RootDir => Step::RootDir,
            PathComponent::CurDir => Step::CurDir,
            PathComponent::ParentDir => Step::ParentDir,
            PathComponent::Normal(name) => Step::Normal(name@),
        }
    }
}

/// The steps that `components` stand for.
pub open spec fn steps_of(components: Seq<PathComponent>) -> Seq<Step> {
    components.map_values(|component: PathComponent| component@)
}

/// Why [`RawDir::set_file`] did not make the file.
#[derive(Debug, Eq, Hash, PartialEq, Structural)]
pub enum SetFileError {
    /// The path is absolute.
    AbsolutePath,
    /// There is a file or a directory at the path already.
    AlreadyExists,
    /// The path names a directory, as `.` and `a/..` do.
    Directory,
    /// The name of the file is empty.
    EmptyFileName,
    /// The path leads out of this directory.
    OutsideDir,
    /// The path leads through a file.
    UnderFile,
}

/// Why [`RawDir::get_file`] did not find the file.
#[derive(Debug, Eq, Hash, PartialEq, Structural)]
pub enum GetFileError {
    /// The path is absolute.
    AbsolutePath,
    /// The path names a directory.
    Directory,
    /// The path leads out of this directory.
    OutsideDir,
    /// The path leads through a file.
    UnderFile,
    /// There is nothing at the path.
    DoesNotExist,
}

/// Why a path does not name a place for a file.
#[derive(Debug, Eq, PartialEq, Structural)]
pub enum PathFault {
    /// The path is absolute.
    AbsolutePath,
    /// The path leads out of the directory that it starts in.
    OutsideDir,
    /// The path names a directory.
    Directory,
    /// The path holds no name, or its last name is empty.
    NoName,
}

/// Where the name ends that begins at the place `from` of `path`: at the next slash, or at
/// the end of the path.
pub open spec fn name_end(path: Seq<char>, from: int) -> int
    decreases path.len() - from,
{
    if from >= path.len() || path[from] == '/' {
        from
    } else {
        name_end(path, from + 1)
    }
}

/// A name ends at or after the place where it begins, and before the end of the path or at
/// it. Before the end it ends at a slash, and it holds no slash.
pub proof fn lemma_name_end(path: Seq<char>, from: int)
    requires
        0 <= from <= path.len(),
    ensures
        from <= name_end(path, from) <= path.len(),
        name_end(path, from) < path.len() ==> path[name_end(path, from)] == '/',
        forall|i: int| from <= i < name_end(path, from) ==> path[i] != '/',
    decreases path.len() - from,
{
    if from < path.len() && path[from] != '/' {
        lemma_name_end(path, from + 1);
    }
}

/// The step that the name `name` between two slashes stands for, if it stands for one. An
/// empty name stands for nothing, `..` for the directory above, and `.` for the directory
/// that the path has come to, which is a step only at the start of a path.
pub open spec fn step_of(name: Seq<char>, leading: bool) -> Seq<Step> {
    if name.len() == 0 {
        Seq::empty()
    } else if name =~= seq!['.'] {
        if leading {
            seq![Step::CurDir]
        } else {
            Seq::empty()
        }
    } else if name =~= seq!['.', '.'] {
        seq![Step::ParentDir]
    } else {
        seq![Step::Normal(name)]
    }
}

/// The steps of the part of `path` that begins at the place `from`, where a name begins.
/// `leading` tells that this is the start of a path that is not absolute.
pub open spec fn parsed_from(path: Seq<char>, from: int, leading: bool) -> Seq<Step>
    decreases path.len() - from,
{
    if from < 0 || from >= path.len() {
        Seq::empty()
    } else {
        let end = name_end(path, from);
        if end >= path.len() {
            step_of(path.subrange(from, end), leading)
        } else {
            proof {
                lemma_name_end(path, from);
            }
            step_of(path.subrange(from, end), leading) + parsed_from(path, end + 1, false)
        }
    }
}

/// The steps of the path `path`. Its names stand between slashes. A slash at the start makes
/// the path absolute. Slashes that follow each other count as one, and a slash at the end
/// counts for nothing.
pub open spec fn parsed(path: Seq<char>) -> Seq<Step> {
    if path.len() > 0 && path[0] == '/' {
        seq![Step::RootDir] + parsed_from(path, 1, false)
    } else {
        parsed_from(path, 0, true)
    }
}

/// Splits `path` into its steps.
pub fn parse(path: &str) -> (out: Vec<PathComponent>)
    ensures
        steps_of(out@) == parsed(path@),
{
    let text = crate::text::chars(path);
    let mut out: Vec<PathComponent> = Vec::new();
    let mut from: usize = 0;
    let mut leading = true;
    if text.len() > 0 && text[0] == '/' {
        out.push(PathComponent::RootDir);
        from = 1;
        leading = false;
    }
    let ghost head = steps_of(out@);
    proof {
        assert(head =~= if text@.len() > 0 && text@[0] == '/' {
            seq![Step::RootDir]
        } else {
            Seq::<Step>::empty()
        });
        assert(head + parsed_from(text@, from as int, leading) =~= parsed(path@));
    }
    while from < text.len()
        invariant
            text@ == path@,
            from <= text@.len(),
            steps_of(out@) + parsed_from(text@, from as int, leading) == parsed(path@),
        decreases text.len() - from,
    {
        let ghost before = steps_of(out@);
        let mut end: usize = from;
        proof {
            lemma_name_end(text@, from as int);
        }
        let mut name = String::new();
        assert(name@ =~= text@.subrange(from as int, end as int));
        while end < text.len() && text[end] != '/'
            invariant
                from <= end <= text@.len(),
                name_end(text@, from as int) == name_end(text@, end as int),
                name@ == text@.subrange(from as int, end as int),
            decreases text.len() - end,
        {
            name.push(text[end]);
            end = end + 1;
            assert(name@ =~= text@.subrange(from as int, end as int));
        }
        assert(end == name_end(text@, from as int));
        let length = end - from;
        let single = length == 1 && text[from] == '.';
        let double = length == 2 && text[from] == '.' && text[from + 1] == '.';
        proof {
            if length >= 1 {
                assert(name@[0] == text@[from as int]);
            }
            if length >= 2 {
                assert(name@[1] == text@[from + 1]);
            }
            assert(single == (name@ =~= seq!['.']));
            assert(double == (name@ =~= seq!['.', '.']));
        }
        if length == 0 {
            // Nothing stands between two separators: no step.
        } else if single {
            if leading {
                out.push(PathComponent::CurDir);
                assert(steps_of(out@) =~= before.push(Step::CurDir));
            }
        } else if double {
            out.push(PathComponent::ParentDir);
            assert(steps_of(out@) =~= before.push(Step::ParentDir));
        } else {
            out.push(PathComponent::Normal(name));
            assert(steps_of(out@) =~= before.push(Step::Normal(name@)));
        }
        proof {
            let step = step_of(text@.subrange(from as int, end as int), leading);
            assert(steps_of(out@) =~= before + step);
            if end < text@.len() {
                assert(steps_of(out@) + parsed_from(text@, end + 1, false) =~= before + (step
                    + parsed_from(text@, end + 1, false)));
            } else {
                assert(steps_of(out@) + parsed_from(text@, end as int, false) =~= before + step);
            }
        }
        if end < text.len() {
            from = end + 1;
        } else {
            from = end;
        }
        leading = false;
    }
    proof {
        assert(steps_of(out@) + Seq::<Step>::empty() =~= steps_of(out@));
    }
    out
}

/// The names of `path`, in its order.
pub open spec fn names_of(path: Seq<String>) -> Seq<Seq<char>> {
    path.map_values(|name: String| name@)
}

/// Where the steps `components` lead, read from left to right without looking at any
/// directory: the names of the directories gone into and not left again, and whether the last
/// step was a name. `..` takes back the name before it.
pub open spec fn walked(components: Seq<Step>) -> Result<(Seq<Seq<char>>, bool), PathFault>
    decreases components.len(),
{
    if components.len() == 0 {
        Ok((Seq::empty(), true))
    } else {
        match walked(components.drop_last()) {
            Err(fault) => Err(fault),
            Ok((names, _)) => match components.last() {
                Step::Prefix | Step::RootDir => Err(PathFault::AbsolutePath),
                Step::CurDir => Ok((names, false)),
                Step::ParentDir => if names.len() == 0 {
                    Err(PathFault::OutsideDir)
                } else {
                    Ok((names.drop_last(), false))
                },
                Step::Normal(name) => Ok((names.push(name), true)),
            },
        }
    }
}

/// The place for a file that the steps `components` name: the names of the directories on
/// the way, and the name of the file.
pub open spec fn target(components: Seq<Step>) -> Result<
    (Seq<Seq<char>>, Seq<char>),
    PathFault,
> {
    match walked(components) {
        Err(fault) => Err(fault),
        Ok((names, named)) => if !named {
            Err(PathFault::Directory)
        } else if names.len() == 0 || names.last().len() == 0 {
            Err(PathFault::NoName)
        } else {
            Ok((names.drop_last(), names.last()))
        },
    }
}

/// Finds the place for a file that `components` name.
pub fn resolve(components: &Vec<PathComponent>) -> (out: Result<(Vec<String>, String), PathFault>)
    ensures
        match out {
            Ok((dirs, name)) => target(steps_of(components@)) == Ok::<
                (Seq<Seq<char>>, Seq<char>),
                PathFault,
            >((names_of(dirs@), name@)),
            Err(fault) => target(steps_of(components@)) == Err::<
                (Seq<Seq<char>>, Seq<char>),
                PathFault,
            >(fault),
        },
{
    let mut names: Vec<String> = Vec::new();
    let mut named = true;
    let mut i: usize = 0;
    let ghost steps = steps_of(components@);
    assert(steps.take(0) =~= Seq::<Step>::empty());
    assert(names_of(names@) =~= Seq::<Seq<char>>::empty());
    while i < components.len()
        invariant
            i <= components.len(),
            steps == steps_of(components@),
            walked(steps.take(i as int)) == Ok::<(Seq<Seq<char>>, bool), PathFault>(
                (names_of(names@), named),
            ),
        decreases components.len() - i,
    {
        let ghost before = names@;
        proof {
            assert(steps.take(i + 1).drop_last() =~= steps.take(i as int));
            assert(steps.take(i + 1).last() == components@[i as int]@);
            lemma_walk_fault(steps, i + 1);
        }
        match &components[i] {
            PathComponent::Prefix => {
                return Err(PathFault::AbsolutePath);
            },
            PathComponent::RootDir => {
                return Err(PathFault::AbsolutePath);
            },
            PathComponent::CurDir => {
                named = false;
            },
            PathComponent::ParentDir => {
                if names.len() == 0 {
                    return Err(PathFault::OutsideDir);
                }
                names.pop();
                named = false;
                assert(names_of(names@) =~= names_of(before).drop_last());
            },
            PathComponent::Normal(name) => {
                names.push(name.clone());
                named = true;
                assert(names_of(names@) =~= names_of(before).push(name@));
            },
        }
        i = i + 1;
    }
    assert(steps.take(steps.len() as int) =~= steps);
    if !named {
        return Err(PathFault::Directory);
    }
    let ghost all = names@;
    match names.pop() {
        None => Err(PathFault::NoName),
        Some(name) => {
            if name.as_str().unicode_len() == 0 {
                Err(PathFault::NoName)
            } else {
                assert(names_of(names@) =~= names_of(all).drop_last());
                Ok((names, name))
            }
        },
    }
}

/// A fault on the way is the fault of the whole path.
proof fn lemma_walk_fault(components: Seq<Step>, upto: int)
    requires
        0 <= upto <= components.len(),
    ensures
        walked(components.take(upto)) matches Err(fault) ==> walked(components) == Err::<
            (Seq<Seq<char>>, bool),
            PathFault,
        >(fault),
    decreases components.len() - upto,
{
    if upto < components.len() {
        assert(components.take(upto + 1).drop_last() =~= components.take(upto));
        lemma_walk_fault(components, upto + 1);
    } else {
        assert(components.take(upto) =~= components);
    }
}

/// What [`RawDir::get_file`] finds in a directory that holds `dir`, at the file `name` in the
/// directory that the names `dirs` lead to.
pub open spec fn file_at(dir: Map<Seq<char>, RawEntry>, dirs: Seq<Seq<char>>, name: Seq<char>)
    -> Result<Vec<u8>, GetFileError>
    decreases dirs.len(),
{
    if dirs.len() == 0 {
        if !dir.contains_key(name) {
            Err(GetFileError::DoesNotExist)
        } else {
            match dir[name] {
                RawEntry::File(contents) => Ok(contents),
                RawEntry::Dir(_) => Err(GetFileError::Directory),
            }
        }
    } else if !dir.contains_key(dirs[0]) {
        Err(GetFileError::DoesNotExist)
    } else {
        match dir[dirs[0]] {
            RawEntry::Dir(below) => file_at(below@, dirs.drop_first(), name),
            RawEntry::File(_) => Err(GetFileError::UnderFile),
        }
    }
}

/// What [`RawDir::get_file`] answers to a path with the steps `components`.
pub open spec fn found(dir: Map<Seq<char>, RawEntry>, components: Seq<Step>) -> Result<
    Vec<u8>,
    GetFileError,
> {
    match target(components) {
        Err(PathFault::AbsolutePath) => Err(GetFileError::AbsolutePath),
        Err(PathFault::OutsideDir) => Err(GetFileError::OutsideDir),
        Err(PathFault::Directory) => Err(GetFileError::Directory),
        Err(PathFault::NoName) => Err(GetFileError::DoesNotExist),
        Ok((dirs, name)) => file_at(dir, dirs, name),
    }
}

/// What stands in the way of a new file `name` in the directory that the names `dirs` lead
/// to, in a directory that holds `dir`, if anything does. A directory on the way that does
/// not exist yet is no fault: it is made.
pub open spec fn set_fault_at(dir: Map<Seq<char>, RawEntry>, dirs: Seq<Seq<char>>, name: Seq<char>)
    -> Option<SetFileError>
    decreases dirs.len(),
{
    if dirs.len() == 0 {
        if dir.contains_key(name) {
            Some(SetFileError::AlreadyExists)
        } else {
            None
        }
    } else if !dir.contains_key(dirs[0]) {
        None
    } else {
        match dir[dirs[0]] {
            RawEntry::Dir(below) => set_fault_at(below@, dirs.drop_first(), name),
            RawEntry::File(_) => Some(SetFileError::UnderFile),
        }
    }
}

/// What a directory holds below the name `name`: the contents of the directory of that name,
/// or nothing if there is no such directory.
pub open spec fn below(dir: Map<Seq<char>, RawEntry>, name: Seq<char>) -> Map<Seq<char>, RawEntry> {
    if dir.contains_key(name) && dir[name] is Dir {
        dir[name]->Dir_0@
    } else {
        Map::empty()
    }
}

/// A directory that held `before` holds `after` once the file `name` with the contents
/// `contents` has been made in the directory that the names `dirs` lead to: the directories
/// on the way exist, the file stands in the last of them, and everything else is as it was.
pub open spec fn file_set(
    before: Map<Seq<char>, RawEntry>,
    after: Map<Seq<char>, RawEntry>,
    dirs: Seq<Seq<char>>,
    name: Seq<char>,
    contents: Seq<u8>,
) -> bool
    decreases dirs.len(),
{
    if dirs.len() == 0 {
        &&& after.dom() == before.dom().insert(name)
        &&& after[name] matches RawEntry::File(written) && written@ == contents
        &&& forall|other: Seq<char>|
            before.contains_key(other) && other != name ==> after[other] == before[other]
    } else {
        &&& after.dom() == before.dom().insert(dirs[0])
        &&& after[dirs[0]] matches RawEntry::Dir(made) && file_set(
            below(before, dirs[0]),
            made@,
            dirs.drop_first(),
            name,
            contents,
        )
        &&& forall|other: Seq<char>|
            before.contains_key(other) && other != dirs[0] ==> after[other] == before[other]
    }
}

/// Why [`RawDir::set_file`] refuses a path with the steps `components`, if it does.
pub open spec fn set_fault(dir: Map<Seq<char>, RawEntry>, components: Seq<Step>)
    -> Option<SetFileError> {
    match target(components) {
        Err(PathFault::AbsolutePath) => Some(SetFileError::AbsolutePath),
        Err(PathFault::OutsideDir) => Some(SetFileError::OutsideDir),
        Err(PathFault::Directory) => Some(SetFileError::Directory),
        Err(PathFault::NoName) => Some(SetFileError::EmptyFileName),
        Ok((dirs, name)) => set_fault_at(dir, dirs, name),
    }
}

/// What [`RawDir::set_file`] does to a directory when it is given a path with the steps
/// `components`: on success the file is made where the path says, and on failure the
/// directory stays as it was.
pub open spec fn sets(
    before: Map<Seq<char>, RawEntry>,
    after: Map<Seq<char>, RawEntry>,
    components: Seq<Step>,
    contents: Seq<u8>,
    out: Result<(), SetFileError>,
) -> bool {
    match out {
        Ok(_) => {
            &&& set_fault(before, components) is None
            &&& target(components) matches Ok((dirs, name)) && file_set(
                before,
                after,
                dirs,
                name,
                contents,
            )
        },
        Err(error) => set_fault(before, components) == Some(error) && after == before,
    }
}

/// The directory `dir` holds a file with the contents `contents` at the path with the names
/// `path`.
pub open spec fn holds_file(dir: Map<Seq<char>, RawEntry>, path: Seq<Seq<char>>, contents: Vec<u8>)
    -> bool {
    path.len() > 0 && file_at(dir, path.drop_last(), path.last()) == Ok::<Vec<u8>, GetFileError>(
        contents,
    )
}

/// The path `a` comes before the path `b`: at the first place where the two differ, `a` has
/// the name that comes first, or `a` ends there and `b` does not.
pub open spec fn path_precedes(a: Seq<Seq<char>>, b: Seq<Seq<char>>) -> bool
    decreases a.len(),
{
    if b.len() == 0 {
        false
    } else if a.len() == 0 {
        true
    } else if a[0] != b[0] {
        crate::text::precedes(a[0], b[0])
    } else {
        path_precedes(a.drop_first(), b.drop_first())
    }
}

/// `listed` are the files below `prefix` that stand for the files of `dir`: each entry is a
/// file of `dir` with `prefix` before its path, every file of `dir` has its entry, and the
/// entries stand in the order of their paths.
pub open spec fn lists_files(
    dir: Map<Seq<char>, RawEntry>,
    prefix: Seq<Seq<char>>,
    listed: Seq<(Vec<String>, &Vec<u8>)>,
) -> bool {
    &&& forall|i: int|
        0 <= i < listed.len() ==> {
            let path = names_of((#[trigger] listed[i]).0@);
            &&& path.len() > prefix.len()
            &&& path.take(prefix.len() as int) == prefix
            &&& holds_file(dir, path.skip(prefix.len() as int), *listed[i].1)
        }
    &&& forall|path: Seq<Seq<char>>, contents: Vec<u8>|
        #[trigger] holds_file(dir, path, contents) ==> exists|i: int|
            0 <= i < listed.len() && names_of((#[trigger] listed[i]).0@) == prefix + path
    &&& forall|i: int, j: int|
        0 <= i < j < listed.len() ==> path_precedes(
            names_of((#[trigger] listed[i]).0@),
            names_of((#[trigger] listed[j]).0@),
        )
}

/// A file at a path of one name is the file under that name, and a file at a longer path is
/// a file in the directory under the path's first name.
pub proof fn lemma_holds_file_step(
    dir: Map<Seq<char>, RawEntry>,
    path: Seq<Seq<char>>,
    contents: Vec<u8>,
)
    requires
        path.len() > 0,
    ensures
        holds_file(dir, path, contents) <==> dir.contains_key(path[0]) && if path.len() == 1 {
            dir[path[0]] == RawEntry::File(contents)
        } else {
            dir[path[0]] matches RawEntry::Dir(inner) && holds_file(
                inner@,
                path.drop_first(),
                contents,
            )
        },
{
    if path.len() > 1 {
        assert(path.drop_last()[0] == path[0]);
        assert(path.drop_last().drop_first() =~= path.drop_first().drop_last());
    }
}

/// Paths that begin alike stand to each other as their ends do.
pub proof fn lemma_path_precedes_prefix(
    prefix: Seq<Seq<char>>,
    a: Seq<Seq<char>>,
    b: Seq<Seq<char>>,
)
    ensures
        path_precedes(prefix + a, prefix + b) == path_precedes(a, b),
    decreases prefix.len(),
{
    if prefix.len() == 0 {
        assert(prefix + a =~= a);
        assert(prefix + b =~= b);
    } else {
        assert((prefix + a).drop_first() =~= prefix.drop_first() + a);
        assert((prefix + b).drop_first() =~= prefix.drop_first() + b);
        lemma_path_precedes_prefix(prefix.drop_first(), a, b);
    }
}

/// `listed` are the files of `dir` below the first `upto` of the names `names`, with `prefix`
/// before their paths, in the order of the paths.
pub open spec fn gathered(
    dir: Map<Seq<char>, RawEntry>,
    prefix: Seq<Seq<char>>,
    names: Seq<Seq<char>>,
    upto: int,
    listed: Seq<(Vec<String>, &Vec<u8>)>,
) -> bool {
    &&& forall|i: int|
        0 <= i < listed.len() ==> {
            let path = names_of((#[trigger] listed[i]).0@);
            &&& path.len() > prefix.len()
            &&& path.take(prefix.len() as int) == prefix
            &&& holds_file(dir, path.skip(prefix.len() as int), *listed[i].1)
            &&& exists|j: int| 0 <= j < upto && #[trigger] names[j] == path[prefix.len() as int]
        }
    &&& forall|path: Seq<Seq<char>>, contents: Vec<u8>|
        #[trigger] holds_file(dir, path, contents) && (exists|j: int|
            0 <= j < upto && #[trigger] names[j] == path[0]) ==> exists|i: int|
            0 <= i < listed.len() && names_of((#[trigger] listed[i]).0@) == prefix + path
    &&& forall|i: int, j: int|
        0 <= i < j < listed.len() ==> path_precedes(
            names_of((#[trigger] listed[i]).0@),
            names_of((#[trigger] listed[j]).0@),
        )
}

/// `added` is what the entry `entry` under the name `name` adds to a list of files: the file
/// itself, or the files of the directory.
pub open spec fn adds(
    prefix: Seq<Seq<char>>,
    name: Seq<char>,
    entry: RawEntry,
    added: Seq<(Vec<String>, &Vec<u8>)>,
) -> bool {
    match entry {
        RawEntry::File(contents) => added.len() == 1 && names_of(added[0].0@) == prefix.push(name)
            && *added[0].1 == contents,
        RawEntry::Dir(inner) => lists_files(inner@, prefix.push(name), added),
    }
}

/// Each entry that [`gathered`] speaks of belongs to the directory.
proof fn lemma_gather_step_belongs(
    dir: Map<Seq<char>, RawEntry>,
    prefix: Seq<Seq<char>>,
    name: Seq<char>,
    entry: RawEntry,
    added: Seq<(Vec<String>, &Vec<u8>)>,
    i: int,
)
    requires
        dir.contains_key(name),
        dir[name] == entry,
        adds(prefix, name, entry, added),
        0 <= i < added.len(),
    ensures
        ({
            let path = names_of(added[i].0@);
            &&& path.len() > prefix.len()
            &&& path.take(prefix.len() as int) == prefix
            &&& path[prefix.len() as int] == name
            &&& holds_file(dir, path.skip(prefix.len() as int), *added[i].1)
        }),
{
    let path = names_of(added[i].0@);
    let longer = prefix.push(name);
    match entry {
        RawEntry::File(contents) => {
            assert(path == longer);
            assert(path.skip(prefix.len() as int) =~= seq![name]);
            assert(path.take(prefix.len() as int) =~= prefix);
            lemma_holds_file_step(dir, seq![name], contents);
        },
        RawEntry::Dir(inner) => {
            assert(path.take(longer.len() as int) == longer);
            let rest = path.skip(longer.len() as int);
            assert(holds_file(inner@, rest, *added[i].1));
            assert(path.take(prefix.len() as int) =~= prefix) by {
                assert(path.take(longer.len() as int).take(prefix.len() as int) =~= path.take(
                    prefix.len() as int,
                ));
                assert(longer.take(prefix.len() as int) =~= prefix);
            }
            assert(path[prefix.len() as int] == name) by {
                assert(path.take(longer.len() as int)[prefix.len() as int] == path[prefix.len() as int]);
            }
            let tail = path.skip(prefix.len() as int);
            assert(tail[0] == name);
            assert(tail.drop_first() =~= rest);
            lemma_holds_file_step(dir, tail, *added[i].1);
        },
    }
}

/// Every file of the directory below the name `name` is among what the entry under that
/// name adds.
proof fn lemma_gather_step_covers(
    dir: Map<Seq<char>, RawEntry>,
    prefix: Seq<Seq<char>>,
    name: Seq<char>,
    entry: RawEntry,
    added: Seq<(Vec<String>, &Vec<u8>)>,
    path: Seq<Seq<char>>,
    contents: Vec<u8>,
)
    requires
        dir.contains_key(name),
        dir[name] == entry,
        adds(prefix, name, entry, added),
        holds_file(dir, path, contents),
        path[0] == name,
    ensures
        exists|i: int| 0 <= i < added.len() && names_of((#[trigger] added[i]).0@) == prefix + path,
{
    let longer = prefix.push(name);
    lemma_holds_file_step(dir, path, contents);
    match entry {
        RawEntry::File(held) => {
            assert(path =~= seq![name]);
            assert(prefix + path =~= longer);
            assert(names_of(added[0].0@) == prefix + path);
        },
        RawEntry::Dir(inner) => {
            assert(holds_file(inner@, path.drop_first(), contents));
            let a = choose|a: int|
                0 <= a < added.len() && names_of((#[trigger] added[a]).0@) == longer
                    + path.drop_first();
            assert(longer + path.drop_first() =~= prefix + path);
            assert(names_of(added[a].0@) == prefix + path);
        },
    }
}

/// What stands below an earlier name comes before what stands below a later one.
proof fn lemma_gather_step_order(
    prefix: Seq<Seq<char>>,
    a: Seq<Seq<char>>,
    b: Seq<Seq<char>>,
)
    requires
        a.len() > prefix.len(),
        b.len() > prefix.len(),
        a.take(prefix.len() as int) == prefix,
        b.take(prefix.len() as int) == prefix,
        crate::text::precedes(a[prefix.len() as int], b[prefix.len() as int]),
    ensures
        path_precedes(a, b),
{
    let ta = a.skip(prefix.len() as int);
    let tb = b.skip(prefix.len() as int);
    crate::text::lemma_precedes_irreflexive(ta[0]);
    assert(ta[0] == a[prefix.len() as int]);
    assert(tb[0] == b[prefix.len() as int]);
    assert(path_precedes(ta, tb));
    assert(a =~= prefix + ta) by {
        assert(a.take(prefix.len() as int) + ta =~= a);
    }
    assert(b =~= prefix + tb) by {
        assert(b.take(prefix.len() as int) + tb =~= b);
    }
    lemma_path_precedes_prefix(prefix, ta, tb);
}

/// The files below one more name join the list.
#[verifier::rlimit(50)]
proof fn lemma_gather_step(
    dir: Map<Seq<char>, RawEntry>,
    prefix: Seq<Seq<char>>,
    names: Seq<Seq<char>>,
    k: int,
    listed: Seq<(Vec<String>, &Vec<u8>)>,
    entry: RawEntry,
    added: Seq<(Vec<String>, &Vec<u8>)>,
)
    requires
        0 <= k < names.len(),
        forall|i: int, j: int|
            0 <= i < j < names.len() ==> crate::text::precedes(
                #[trigger] names[i],
                #[trigger] names[j],
            ),
        dir.contains_key(names[k]),
        dir[names[k]] == entry,
        gathered(dir, prefix, names, k, listed),
        adds(prefix, names[k], entry, added),
    ensures
        gathered(dir, prefix, names, k + 1, listed + added),
{
    let all = listed + added;
    let name = names[k];
    assert forall|i: int| 0 <= i < all.len() implies {
        let path = names_of((#[trigger] all[i]).0@);
        &&& path.len() > prefix.len()
        &&& path.take(prefix.len() as int) == prefix
        &&& holds_file(dir, path.skip(prefix.len() as int), *all[i].1)
        &&& exists|j: int| 0 <= j < k + 1 && #[trigger] names[j] == path[prefix.len() as int]
    } by {
        let path = names_of(all[i].0@);
        if i < listed.len() {
            assert(all[i] == listed[i]);
            let j = choose|j: int|
                0 <= j < k && #[trigger] names[j] == path[prefix.len() as int];
            assert(names[j] == path[prefix.len() as int]);
        } else {
            assert(all[i] == added[i - listed.len()]);
            lemma_gather_step_belongs(dir, prefix, name, entry, added, i - listed.len());
            assert(names[k] == path[prefix.len() as int]);
        }
    }
    assert forall|path: Seq<Seq<char>>, contents: Vec<u8>|
        #[trigger] holds_file(dir, path, contents) && (exists|j: int|
            0 <= j < k + 1 && #[trigger] names[j] == path[0]) implies exists|i: int|
        0 <= i < all.len() && names_of((#[trigger] all[i]).0@) == prefix + path by {
        let j = choose|j: int| 0 <= j < k + 1 && #[trigger] names[j] == path[0];
        if j < k {
            assert(names[j] == path[0]);
            let i = choose|i: int|
                0 <= i < listed.len() && names_of((#[trigger] listed[i]).0@) == prefix + path;
            assert(all[i] == listed[i]);
        } else {
            lemma_gather_step_covers(dir, prefix, name, entry, added, path, contents);
            let a = choose|a: int|
                0 <= a < added.len() && names_of((#[trigger] added[a]).0@) == prefix + path;
            assert(all[a + listed.len()] == added[a]);
        }
    }
    assert forall|i: int, j: int| 0 <= i < j < all.len() implies path_precedes(
        names_of((#[trigger] all[i]).0@),
        names_of((#[trigger] all[j]).0@),
    ) by {
        let a = names_of(all[i].0@);
        let b = names_of(all[j].0@);
        if j < listed.len() {
            assert(all[i] == listed[i] && all[j] == listed[j]);
        } else if i < listed.len() {
            assert(all[i] == listed[i]);
            assert(all[j] == added[j - listed.len()]);
            lemma_gather_step_belongs(dir, prefix, name, entry, added, j - listed.len());
            let seen = choose|s: int|
                0 <= s < k && #[trigger] names[s] == a[prefix.len() as int];
            assert(crate::text::precedes(names[seen], names[k]));
            lemma_gather_step_order(prefix, a, b);
        } else {
            assert(all[i] == added[i - listed.len()]);
            assert(all[j] == added[j - listed.len()]);
            match entry {
                RawEntry::File(_) => {},
                RawEntry::Dir(inner) => {},
            }
        }
    }
}

/// When the files below all names are in the list, the list holds the files of the directory.
proof fn lemma_gather_done(
    dir: Map<Seq<char>, RawEntry>,
    prefix: Seq<Seq<char>>,
    names: Seq<Seq<char>>,
    listed: Seq<(Vec<String>, &Vec<u8>)>,
)
    requires
        forall|name: Seq<char>| dir.contains_key(name) <==> names.contains(name),
        gathered(dir, prefix, names, names.len() as int, listed),
    ensures
        lists_files(dir, prefix, listed),
{
    assert forall|path: Seq<Seq<char>>, contents: Vec<u8>| #[trigger]
        holds_file(dir, path, contents) implies exists|i: int|
        0 <= i < listed.len() && names_of((#[trigger] listed[i]).0@) == prefix + path by {
        lemma_holds_file_step(dir, path, contents);
        assert(names.contains(path[0]));
        let j = choose|j: int| 0 <= j < names.len() && names[j] == path[0];
        assert(names[j] == path[0]);
    }
}

/// The blanks that stand before a line at the depth `level`: two for each level.
pub open spec fn padding(level: nat) -> Seq<char> {
    Seq::new(2 * level, |i: int| ' ')
}

/// The line that shows the file `name` of `size` bytes at the depth `level`.
pub open spec fn file_line(level: nat, name: Seq<char>, size: nat) -> Seq<char> {
    padding(level) + name + " ("@ + decimal_digits(size) + "B)\n"@
}

/// The line that shows the directory `name` at the depth `level`.
pub open spec fn dir_line(level: nat, name: Seq<char>) -> Seq<char> {
    padding(level) + name + "\n"@
}

/// The lines that show the files among the first `upto` entries of `dir`, in the order of
/// the names.
pub open spec fn file_lines(dir: RawDir, level: nat, upto: nat) -> Seq<char>
    decreases upto,
{
    if upto == 0 || upto > dir.names().len() {
        Seq::empty()
    } else {
        let name = dir.names()[upto - 1];
        file_lines(dir, level, (upto - 1) as nat) + match dir@[name] {
            RawEntry::File(contents) => file_line(level, name, contents@.len()),
            RawEntry::Dir(_) => Seq::empty(),
        }
    }
}

/// The lines that show the directories among the first `upto` entries of `dir`, in the order
/// of the names. After the line of each directory come the lines that show what is in it,
/// one level deep whatever the depth of the directory.
pub open spec fn dir_lines(dir: RawDir, level: nat, upto: nat) -> Seq<char>
    decreases dir, upto,
{
    if upto == 0 || upto > dir.names().len() {
        Seq::empty()
    } else {
        let name = dir.names()[upto - 1];
        dir_lines(dir, level, (upto - 1) as nat) + match dir@[name] {
            RawEntry::Dir(inner) => {
                proof {
                    dir.lemma_entry_smaller(upto - 1);
                }
                dir_line(level, name) + dir_lines(inner, 1, inner.names().len()) + file_lines(
                    inner,
                    1,
                    inner.names().len(),
                )
            },
            RawEntry::File(_) => Seq::empty(),
        }
    }
}

/// The text that shows `dir` at the depth `level`: its directories first, each followed by
/// what is in it, then its files.
pub open spec fn shown(dir: RawDir, level: nat) -> Seq<char> {
    dir_lines(dir, level, dir.names().len()) + file_lines(dir, level, dir.names().len())
}

/// How many directories there are among the first `upto` entries of `dir` and below them,
/// at any depth.
pub open spec fn dirs_among(dir: RawDir, upto: nat) -> nat
    decreases dir, upto,
{
    if upto == 0 || upto > dir.names().len() {
        0
    } else {
        let name = dir.names()[upto - 1];
        dirs_among(dir, (upto - 1) as nat) + match dir@[name] {
            RawEntry::Dir(inner) => {
                proof {
                    dir.lemma_entry_smaller(upto - 1);
                }
                1 + dirs_among(inner, inner.names().len())
            },
            RawEntry::File(_) => 0,
        }
    }
}

/// How many files there are among the first `upto` entries of `dir` and below them, at any
/// depth.
pub open spec fn files_among(dir: RawDir, upto: nat) -> nat
    decreases dir, upto,
{
    if upto == 0 || upto > dir.names().len() {
        0
    } else {
        let name = dir.names()[upto - 1];
        files_among(dir, (upto - 1) as nat) + match dir@[name] {
            RawEntry::Dir(inner) => {
                proof {
                    dir.lemma_entry_smaller(upto - 1);
                }
                files_among(inner, inner.names().len())
            },
            RawEntry::File(_) => 1,
        }
    }
}

/// How many directories there are below `dir`, at any depth.
pub open spec fn dirs_in(dir: RawDir) -> nat {
    dirs_among(dir, dir.names().len())
}

/// How many files there are in `dir` and below it, at any depth.
pub open spec fn files_in(dir: RawDir) -> nat {
    files_among(dir, dir.names().len())
}

/// More entries hold no fewer directories and files.
proof fn lemma_counts_grow(dir: RawDir, fewer: nat, more: nat)
    requires
        fewer <= more <= dir.names().len(),
    ensures
        dirs_among(dir, fewer) <= dirs_among(dir, more),
        files_among(dir, fewer) <= files_among(dir, more),
    decreases more,
{
    if fewer < more {
        lemma_counts_grow(dir, fewer, (more - 1) as nat);
    }
}

impl View for RawDir {
    type V = Map<Seq<char>, RawEntry>;

    closed spec fn view(&self) -> Map<Seq<char>, RawEntry> {
        self.entries@
    }
}

impl Default for RawDir {
    fn default() -> (out: Self)
        ensures
            out@ == Map::<Seq<char>, RawEntry>::empty(),
    {
        RawDir { entries: NameMap::new() }
    }
}

/// The map that comes of putting the entries `entries` into `dir` one after the other, each
/// in place of an earlier one of the same name.
pub open spec fn with_entries(dir: Map<Seq<char>, RawEntry>, entries: Seq<(String, RawEntry)>)
    -> Map<Seq<char>, RawEntry>
    decreases entries.len(),
{
    if entries.len() == 0 {
        dir
    } else {
        with_entries(dir, entries.drop_last()).insert(entries.last().0@, entries.last().1)
    }
}

impl RawEntry {
    /// The directory, if this is one.
    pub fn dir(&self) -> (out: Option<&RawDir>)
        ensures
            match out {
                Some(dir) => *self == RawEntry::Dir(*dir),
                None => self is File,
            },
    {
        match self {
            RawEntry::Dir(raw_dir) => Some(raw_dir),
            _ => None,
        }
    }

    /// The contents of the file, if this is one.
    pub fn file(&self) -> (out: Option<&Vec<u8>>)
        ensures
            match out {
                Some(contents) => *self == RawEntry::File(*contents),
                None => self is Dir,
            },
    {
        match self {
            RawEntry::File(file) => Some(file),
            _ => None,
        }
    }
}

impl RawDir {
    /// The directory that holds `entries`. Of two entries with the same name it holds the
    /// later one.
    pub fn from_entries(entries: Vec<(String, RawEntry)>) -> (out: RawDir)
        ensures
            out@ == with_entries(Map::empty(), entries@),
    {
        let mut entries = entries;
        let ghost all = entries@;
        let mut reversed: Vec<(String, RawEntry)> = Vec::new();
        while entries.len() > 0
            invariant
                entries@.len() + reversed@.len() == all.len(),
                entries@ == all.take(entries@.len() as int),
                forall|i: int|
                    0 <= i < reversed@.len() ==> #[trigger] reversed@[i] == all[all.len() - 1 - i],
            decreases entries.len(),
        {
            let ghost before = entries@;
            let last = entries.pop().unwrap();
            reversed.push(last);
            assert(entries@ =~= all.take(entries@.len() as int));
        }
        let mut out = RawDir::default();
        assert(all.take(0) =~= Seq::<(String, RawEntry)>::empty());
        while reversed.len() > 0
            invariant
                reversed@.len() <= all.len(),
                forall|i: int|
                    0 <= i < reversed@.len() ==> #[trigger] reversed@[i] == all[all.len() - 1 - i],
                out@ == with_entries(Map::empty(), all.take(all.len() - reversed@.len())),
            decreases reversed.len(),
        {
            let ghost done = all.len() - reversed@.len();
            let (name, entry) = reversed.pop().unwrap();
            proof {
                assert(all.take(done + 1).drop_last() =~= all.take(done));
                assert(all.take(done + 1).last() == (name, entry));
            }
            out.insert(name, entry);
        }
        assert(all.take(all.len() as int) =~= all);
        out
    }

    /// Puts `entry` under `name`. Returns what stood there, if anything did.
    pub fn insert(&mut self, name: String, entry: RawEntry) -> (out: Option<RawEntry>)
        ensures
            final(self)@ == old(self)@.insert(name@, entry),
            match out {
                Some(replaced) => old(self)@.contains_key(name@) && replaced == old(self)@[name@],
                None => !old(self)@.contains_key(name@),
            },
    {
        let mut taken = RawDir::default();
        std::mem::swap(self, &mut taken);
        let mut entries = taken.entries;
        let out = entries.insert(name, entry);
        *self = RawDir { entries };
        out
    }

    /// What stands under `name`, if anything does.
    pub fn get(&self, name: &str) -> (out: Option<&RawEntry>)
        ensures
            match out {
                Some(entry) => self@.contains_key(name@) && *entry == self@[name@],
                None => !self@.contains_key(name@),
            },
    {
        self.entries.get(name)
    }

    /// How many entries the directory has.
    pub fn len(&self) -> (out: usize)
        ensures
            out == self.names().len(),
    {
        self.entries.len()
    }

    /// The entry number `at` in the order of the names: the name, and what stands under it.
    /// The names are the names that the directory holds, and each comes before the next.
    pub fn entry_at(&self, at: usize) -> (out: (&String, &RawEntry))
        requires
            at < self.names().len(),
        ensures
            out.0@ == self.names()[at as int],
            self@.contains_key(out.0@),
            *out.1 == self@[out.0@],
            forall|i: int, j: int|
                0 <= i < j < self.names().len() ==> crate::text::precedes(
                    #[trigger] self.names()[i],
                    #[trigger] self.names()[j],
                ),
            forall|name: Seq<char>| self@.contains_key(name) <==> self.names().contains(name),
    {
        self.entries.entry_at(at)
    }

    /// The names in the directory, in ascending order.
    pub closed spec fn names(&self) -> Seq<Seq<char>> {
        self.entries.names()
    }

    /// The names of the directory are the names under which something stands in it.
    pub proof fn lemma_names_cover(&self)
        ensures
            forall|name: Seq<char>| self@.contains_key(name) <==> self.names().contains(name),
    {
        self.entries.lemma_names_cover();
    }

    /// What stands under a name of the directory is smaller than the directory.
    pub proof fn lemma_entry_smaller(&self, at: int)
        requires
            0 <= at < self.names().len(),
        ensures
            self@.contains_key(self.names()[at]),
            decreases_to!(self => self@[self.names()[at]]),
    {
        self.entries.lemma_names_cover();
        assert(self.entries.names().contains(self.names()[at]));
        self.entries.lemma_value_smaller(self.names()[at]);
    }

    /// Shows the directory as text, one line for each directory and each file: the
    /// directories first, each followed by what is in it, then the files with their sizes in
    /// bytes. A line at the depth `level` begins with two blanks for each level.
    pub fn display(&self, level: usize) -> (out: String)
        ensures
            out@ == shown(*self, level as nat),
        decreases self,
    {
        let pad = blanks(level);
        let count = self.entries.len();
        let mut out = String::new();
        let mut k: usize = 0;
        while k < count
            invariant
                k <= count,
                count == self.names().len(),
                pad@ == padding(level as nat),
                out@ == dir_lines(*self, level as nat, k as nat),
            decreases count - k,
        {
            let (name, entry) = self.entries.entry_at(k);
            proof {
                self.lemma_entry_smaller(k as int);
            }
            match entry {
                RawEntry::Dir(inner) => {
                    out.append(pad.as_str());
                    out.append(name.as_str());
                    out.append("\n");
                    out.append(inner.display(1).as_str());
                    proof {
                        assert(out@ =~= dir_lines(*self, level as nat, k as nat) + (dir_line(
                            level as nat,
                            name@,
                        ) + dir_lines(*inner, 1, inner.names().len()) + file_lines(
                            *inner,
                            1,
                            inner.names().len(),
                        )));
                    }
                },
                RawEntry::File(_) => {
                    assert(out@ =~= dir_lines(*self, level as nat, k as nat) + Seq::empty());
                },
            }
            k = k + 1;
        }
        let ghost dirs = out@;
        let mut k: usize = 0;
        assert(out@ =~= dirs + file_lines(*self, level as nat, 0));
        while k < count
            invariant
                k <= count,
                count == self.names().len(),
                pad@ == padding(level as nat),
                out@ == dirs + file_lines(*self, level as nat, k as nat),
            decreases count - k,
        {
            let (name, entry) = self.entries.entry_at(k);
            match entry {
                RawEntry::File(contents) => {
                    out.append(pad.as_str());
                    out.append(name.as_str());
                    out.append(" (");
                    out.append(decimal(contents.len() as u64).as_str());
                    out.append("B)\n");
                    proof {
                        assert(out@ =~= dirs + (file_lines(*self, level as nat, k as nat)
                            + file_line(level as nat, name@, contents@.len())));
                    }
                },
                RawEntry::Dir(_) => {
                    assert(out@ =~= dirs + (file_lines(*self, level as nat, k as nat)
                        + Seq::empty()));
                },
            }
            k = k + 1;
        }
        out
    }

    /// The contents of the file at `path`, which must be a relative path to a file that
    /// exists. `..` takes back the step before it, whatever that step was.
    pub fn get_file(&self, path: &str) -> (out: Result<&Vec<u8>, GetFileError>)
        ensures
            match (out, found(self@, parsed(path@))) {
                (Ok(contents), Ok(expected)) => *contents == expected,
                (Err(error), Err(expected)) => error == expected,
                _ => false,
            },
    {
        let components = parse(path);
        self.get_file_at(&components)
    }

    /// The contents of the file at the path with the steps `components`.
    pub fn get_file_at(&self, components: &Vec<PathComponent>) -> (out: Result<
        &Vec<u8>,
        GetFileError,
    >)
        ensures
            match (out, found(self@, steps_of(components@))) {
                (Ok(contents), Ok(expected)) => *contents == expected,
                (Err(error), Err(expected)) => error == expected,
                _ => false,
            },
    {
        let (dirs, name) = match resolve(components) {
            Ok(place) => place,
            Err(PathFault::AbsolutePath) => {
                return Err(GetFileError::AbsolutePath);
            },
            Err(PathFault::OutsideDir) => {
                return Err(GetFileError::OutsideDir);
            },
            Err(PathFault::Directory) => {
                return Err(GetFileError::Directory);
            },
            Err(PathFault::NoName) => {
                return Err(GetFileError::DoesNotExist);
            },
        };
        let mut cur_dir: &RawDir = self;
        let mut i: usize = 0;
        assert(names_of(dirs@).skip(0) =~= names_of(dirs@));
        while i < dirs.len()
            invariant
                i <= dirs.len(),
                found(self@, steps_of(components@)) == file_at(self@, names_of(dirs@), name@),
                file_at(self@, names_of(dirs@), name@) == file_at(
                    cur_dir@,
                    names_of(dirs@).skip(i as int),
                    name@,
                ),
            decreases dirs.len() - i,
        {
            proof {
                let rest = names_of(dirs@).skip(i as int);
                assert(rest[0] == dirs@[i as int]@);
                assert(rest.drop_first() =~= names_of(dirs@).skip(i + 1));
            }
            match cur_dir.entries.get(dirs[i].as_str()) {
                None => {
                    return Err(GetFileError::DoesNotExist);
                },
                Some(RawEntry::Dir(below)) => {
                    cur_dir = below;
                },
                Some(RawEntry::File(_)) => {
                    return Err(GetFileError::UnderFile);
                },
            }
            i = i + 1;
        }
        match cur_dir.entries.get(name.as_str()) {
            None => Err(GetFileError::DoesNotExist),
            Some(RawEntry::File(contents)) => Ok(contents),
            Some(RawEntry::Dir(_)) => Err(GetFileError::Directory),
        }
    }
    /// Makes a file with the contents `contents` at `path`, which must be a relative path to
    /// a place where nothing is yet. The directories on the way are made where they are
    /// missing. `..` takes back the step before it, whatever that step was.
    pub fn set_file(&mut self, path: &str, contents: Vec<u8>) -> (out: Result<(), SetFileError>)
        ensures
            sets(old(self)@, final(self)@, parsed(path@), contents@, out),
    {
        let components = parse(path);
        self.set_file_at(&components, contents)
    }

    /// Makes a file with the contents `contents` at the path with the steps `components`.
    pub fn set_file_at(&mut self, components: &Vec<PathComponent>, contents: Vec<u8>) -> (out:
        Result<(), SetFileError>)
        ensures
            sets(old(self)@, final(self)@, steps_of(components@), contents@, out),
    {
        let (dirs, name) = match resolve(components) {
            Ok(place) => place,
            Err(PathFault::AbsolutePath) => {
                return Err(SetFileError::AbsolutePath);
            },
            Err(PathFault::OutsideDir) => {
                return Err(SetFileError::OutsideDir);
            },
            Err(PathFault::Directory) => {
                return Err(SetFileError::Directory);
            },
            Err(PathFault::NoName) => {
                return Err(SetFileError::EmptyFileName);
            },
        };
        if let Some(error) = self.check_settable(&dirs, name.as_str()) {
            return Err(error);
        }
        let mut taken = RawDir::default();
        std::mem::swap(self, &mut taken);
        proof {
            assert(names_of(dirs@).skip(0) =~= names_of(dirs@));
        }
        let placed = taken.place(&dirs, 0, name, contents);
        *self = placed;
        Ok(())
    }

    /// Tells what stands in the way of a new file `name` in the directory that `dirs` lead
    /// to.
    fn check_settable(&self, dirs: &Vec<String>, name: &str) -> (out: Option<SetFileError>)
        ensures
            out == set_fault_at(self@, names_of(dirs@), name@),
    {
        let mut cur_dir: &RawDir = self;
        let mut i: usize = 0;
        assert(names_of(dirs@).skip(0) =~= names_of(dirs@));
        while i < dirs.len()
            invariant
                i <= dirs.len(),
                set_fault_at(self@, names_of(dirs@), name@) == set_fault_at(
                    cur_dir@,
                    names_of(dirs@).skip(i as int),
                    name@,
                ),
            decreases dirs.len() - i,
        {
            proof {
                let rest = names_of(dirs@).skip(i as int);
                assert(rest[0] == dirs@[i as int]@);
                assert(rest.drop_first() =~= names_of(dirs@).skip(i + 1));
            }
            match cur_dir.entries.get(dirs[i].as_str()) {
                None => {
                    return None;
                },
                Some(RawEntry::Dir(below)) => {
                    cur_dir = below;
                },
                Some(RawEntry::File(_)) => {
                    return Some(SetFileError::UnderFile);
                },
            }
            i = i + 1;
        }
        if cur_dir.entries.contains(name) {
            Some(SetFileError::AlreadyExists)
        } else {
            None
        }
    }

    /// This directory with the file `name` made in the directory that the names of `dirs`
    /// from the place `from` on lead to.
    fn place(self, dirs: &Vec<String>, from: usize, name: String, contents: Vec<u8>) -> (out:
        RawDir)
        requires
            from <= dirs@.len(),
            set_fault_at(self@, names_of(dirs@).skip(from as int), name@) is None,
        ensures
            file_set(self@, out@, names_of(dirs@).skip(from as int), name@, contents@),
        decreases dirs@.len() - from,
    {
        let mut entries = self.entries;
        if from == dirs.len() {
            entries.insert(name, RawEntry::File(contents));
            let out = RawDir { entries };
            proof {
                assert(out@.dom() =~= self@.dom().insert(name@));
            }
            out
        } else {
            let ghost rest = names_of(dirs@).skip(from as int);
            proof {
                assert(rest[0] == dirs@[from as int]@);
                assert(rest.drop_first() =~= names_of(dirs@).skip(from + 1));
            }
            let inner = match entries.remove(dirs[from].as_str()) {
                Some(RawEntry::Dir(inner)) => inner,
                _ => RawDir::default(),
            };
            assert(inner@ == below(self@, rest[0]));
            let made = inner.place(dirs, from + 1, name, contents);
            entries.insert(dirs[from].clone(), RawEntry::Dir(made));
            let out = RawDir { entries };
            proof {
                assert(out@.dom() =~= self@.dom().insert(rest[0]));
            }
            out
        }
    }

    /// Counts the directories below this directory and the files in it and below it, at any
    /// depth. Returns the two counts, or `None` if one of them does not fit in a `usize`.
    pub fn census(&self) -> (out: Option<(usize, usize)>)
        ensures
            match out {
                Some((directories, files)) => directories == dirs_in(*self) && files == files_in(
                    *self,
                ),
                None => dirs_in(*self) > usize::MAX || files_in(*self) > usize::MAX,
            },
        decreases self,
    {
        let count = self.entries.len();
        let mut directories: usize = 0;
        let mut files: usize = 0;
        let mut k: usize = 0;
        while k < count
            invariant
                k <= count,
                count == self.names().len(),
                directories == dirs_among(*self, k as nat),
                files == files_among(*self, k as nat),
            decreases count - k,
        {
            let (_, entry) = self.entries.entry_at(k);
            proof {
                self.lemma_entry_smaller(k as int);
                lemma_counts_grow(*self, (k + 1) as nat, count as nat);
            }
            match entry {
                RawEntry::Dir(inner) => {
                    let (below, files_below) = match inner.census() {
                        Some(counts) => counts,
                        None => {
                            return None;
                        },
                    };
                    if below >= usize::MAX - directories || files_below > usize::MAX - files {
                        return None;
                    }
                    directories = directories + below + 1;
                    files = files + files_below;
                },
                RawEntry::File(_) => {
                    if files == usize::MAX {
                        return None;
                    }
                    files = files + 1;
                },
            }
            k = k + 1;
        }
        Some((directories, files))
    }

    /// The files in this directory and in the directories below it, each with the names on
    /// its path from this directory, in the order of the paths.
    pub fn files_recursive(&self) -> (out: Vec<(Vec<String>, &Vec<u8>)>)
        ensures
            lists_files(self@, Seq::empty(), out@),
    {
        let mut out: Vec<(Vec<String>, &Vec<u8>)> = Vec::new();
        let prefix: Vec<String> = Vec::new();
        assert(names_of(prefix@) =~= Seq::<Seq<char>>::empty());
        self.gather(&prefix, &mut out);
        assert(out@.skip(0) =~= out@);
        out
    }

    /// Adds to `out` the files in this directory and below it, with `prefix` before their
    /// paths.
    #[verifier::rlimit(40)]
    fn gather<'a>(&'a self, prefix: &Vec<String>, out: &mut Vec<(Vec<String>, &'a Vec<u8>)>)
        ensures
            final(out)@.len() >= old(out)@.len(),
            final(out)@.take(old(out)@.len() as int) == old(out)@,
            lists_files(self@, names_of(prefix@), final(out)@.skip(old(out)@.len() as int)),
        decreases self,
    {
        let ghost start = out@;
        let ghost base = names_of(prefix@);
        let count = self.entries.len();
        let mut k: usize = 0;
        proof {
            assert(out@.take(start.len() as int) =~= start);
            assert(out@.skip(start.len() as int) =~= Seq::empty());
        }
        while k < count
            invariant
                k <= count,
                count == self.entries.names().len(),
                base == names_of(prefix@),
                out@.len() >= start.len(),
                out@.take(start.len() as int) == start,
                gathered(
                    self@,
                    base,
                    self.entries.names(),
                    k as int,
                    out@.skip(start.len() as int),
                ),
            decreases count - k,
        {
            let (name, entry) = self.entries.entry_at(k);
            let ghost before = out@;
            let ghost names = self.entries.names();
            let mut path = copy_names(prefix);
            path.push(name.clone());
            proof {
                assert(names_of(path@) =~= base.push(name@));
            }
            match entry {
                RawEntry::File(contents) => {
                    out.push((path, contents));
                    proof {
                        assert(out@.skip(before.len() as int) =~= seq![(path, contents)]);
                    }
                },
                RawEntry::Dir(inner) => {
                    inner.gather(&path, out);
                },
            }
            proof {
                let listed = before.skip(start.len() as int);
                let added = out@.skip(before.len() as int);
                assert(out@.take(before.len() as int) == before);
                assert(out@.take(start.len() as int) =~= start) by {
                    assert(before.take(start.len() as int) == start);
                }
                assert(out@.skip(start.len() as int) =~= listed + added) by {
                    assert(out@ =~= out@.take(before.len() as int) + added);
                }
                lemma_gather_step(self@, base, names, k as int, listed, *entry, added);
            }
            k = k + 1;
        }
        proof {
            self.entries.lemma_names_cover();
            lemma_gather_done(
                self@,
                base,
                self.entries.names(),
                out@.skip(start.len() as int),
            );
        }
    }
}

/// Two blanks for each of `level` levels.
fn blanks(level: usize) -> (out: String)
    ensures
        out@ == padding(level as nat),
{
    let mut out = String::new();
    let mut done: usize = 0;
    assert(out@ =~= padding(0));
    while done < level
        invariant
            done <= level,
            out@ == padding(done as nat),
        decreases level - done,
    {
        out.push(' ');
        out.push(' ');
        done = done + 1;
        assert(out@ =~= padding(done as nat));
    }
    out
}

/// A copy of `names`.
pub fn copy_names(names: &Vec<String>) -> (out: Vec<String>)
    ensures
        names_of(out@) == names_of(names@),
{
    let mut out: Vec<String> = Vec::new();
    let mut i: usize = 0;
    while i < names.len()
        invariant
            i <= names.len(),
            names_of(out@) == names_of(names@).take(i as int),
        decreases names.len() - i,
    {
        let ghost before = out@;
        out.push(names[i].clone());
        assert(names_of(out@) =~= names_of(before).push(names@[i as int]@));
        assert(names_of(names@).take(i + 1) =~= names_of(names@).take(i as int).push(
            names@[i as int]@,
        ));
        i = i + 1;
    }
    assert(names_of(names@).take(names@.len() as int) =~= names_of(names@));
    out
}

} // verus!
