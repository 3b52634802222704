//! Directory trees that are frozen: read-only copies of what stands in the diagnostics
//! directory.
//!
//! A lookup works in one directory as if nothing were around it. It knows neither the
//! directory above nor where the directory stands in the file system, so it cannot follow a
//! symlink that is absolute or that leads out of the directory.

use crate::edit::share;
use crate::fs::copy_names;
use crate::fs::names_of;
use crate::fs::parse;
use crate::fs::parsed;
use crate::fs::steps_of;
use crate::fs::Step;
use crate::fs::PathComponent;
use crate::name_map::NameMap;
use crate::text::same;
use std::sync::Arc;
use vstd::prelude::*;
use vstd::std_specs::convert::FromSpecImpl;

verus! {

/// A frozen file. It is known by its path below the diagnostics directory, where its contents
/// stand.
#[derive(Debug, PartialEq, Eq)]
pub struct File {
    path: String,
}

impl View for File {
    type V = Seq<char>;

    closed spec fn view(&self) -> Seq<char> {
        self.path@
    }
}

impl Clone for File {
    fn clone(&self) -> (out: Self)
        ensures
            out == *self,
    {
        File { path: self.path.clone() }
    }
}

impl File {
    /// The file at `path`, a path below the diagnostics directory.
    pub fn new(path: String) -> (out: File)
        ensures
            out@ == path@,
    {
        File { path }
    }

    /// The path of the file below the diagnostics directory.
    pub fn path(&self) -> (out: &str)
        ensures
            out@ == self@,
    {
        self.path.as_str()
    }
}

/// A frozen symlink. What it points to is not frozen: it may not exist, or lie outside the
/// diagnostics directory.
#[derive(Debug, PartialEq, Eq)]
pub struct Symlink {
    contents: String,
    steps: Vec<PathComponent>,
}

impl Clone for Symlink {
    fn clone(&self) -> (out: Self)
        ensures
            out.text() == self.text(),
            out.target() == self.target(),
    {
        Symlink { contents: self.contents.clone(), steps: copy_steps(&self.steps) }
    }
}

impl Symlink {
    /// The path that the symlink holds.
    pub closed spec fn text(&self) -> Seq<char> {
        self.contents@
    }

    /// The steps of the path that the symlink holds.
    pub closed spec fn target(&self) -> Seq<Step> {
        steps_of(self.steps@)
    }

    /// The symlink that holds the path `contents`.
    pub fn new(contents: String) -> (out: Symlink)
        ensures
            out.text() == contents@,
            out.target() == parsed(contents@),
    {
        let steps = parse(contents.as_str());
        Symlink { contents, steps }
    }

    /// The symlink that holds the path `contents`, which has the steps `steps`: for a path
    /// that something else than this crate has split into its steps.
    pub fn with_steps(contents: String, steps: Vec<PathComponent>) -> (out: Symlink)
        ensures
            out.text() == contents@,
            out.target() == steps_of(steps@),
    {
        Symlink { contents, steps }
    }

    /// The path that the symlink holds.
    pub fn contents(&self) -> (out: &str)
        ensures
            out@ == self.text(),
    {
        self.contents.as_str()
    }

    /// The steps of the path that the symlink holds.
    pub fn steps(&self) -> (out: &Vec<PathComponent>)
        ensures
            steps_of(out@) == self.target(),
    {
        &self.steps
    }
}

/// A copy of `steps`.
pub fn copy_steps(steps: &Vec<PathComponent>) -> (out: Vec<PathComponent>)
    ensures
        out@ == steps@,
{
    let mut out: Vec<PathComponent> = Vec::new();
    let mut i: usize = 0;
    while i < steps.len()
        invariant
            i <= steps.len(),
            out@ == steps@.take(i as int),
        decreases steps.len() - i,
    {
        let step = match &steps[i] {
            PathComponent::Prefix => PathComponent::Prefix,
            PathComponent::RootDir => PathComponent::RootDir,
            PathComponent::CurDir => PathComponent::CurDir,
            PathComponent::ParentDir => PathComponent::ParentDir,
            PathComponent::Normal(name) => PathComponent::Normal(name.clone()),
        };
        out.push(step);
        assert(out@ =~= steps@.take(i + 1));
        i = i + 1;
    }
    assert(steps@.take(steps@.len() as int) =~= steps@);
    out
}

/// What stands under a name in a frozen directory.
#[derive(Debug, PartialEq, Eq)]
pub enum DirEntry {
    /// A directory.
    Dir(Dir),
    /// A file.
    File(File),
    /// A symlink.
    Symlink(Symlink),
}

/// A frozen directory. Its model is the map from the names in the directory to what stands
/// under them. A copy shares the contents with the directory that it was made from.
#[derive(Debug, PartialEq, Eq)]
pub struct Dir {
    contents: Arc<NameMap<DirEntry>>,
}

/// What a path leads to when all symlinks on the way have been followed.
#[derive(Debug, PartialEq, Eq)]
pub enum ResolvedEntry {
    /// A directory.
    Dir(Dir),
    /// A file.
    File(File),
}

impl From<Dir> for DirEntry {
    fn from(dir: Dir) -> (out: DirEntry) {
        DirEntry::Dir(dir)
    }
}

impl FromSpecImpl<Dir> for DirEntry {
    open spec fn obeys_from_spec() -> bool {
        true
    }

    open spec fn from_spec(dir: Dir) -> DirEntry {
        DirEntry::Dir(dir)
    }
}

impl From<File> for DirEntry {
    fn from(file: File) -> (out: DirEntry) {
        DirEntry::File(file)
    }
}

impl FromSpecImpl<File> for DirEntry {
    open spec fn obeys_from_spec() -> bool {
        true
    }

    open spec fn from_spec(file: File) -> DirEntry {
        DirEntry::File(file)
    }
}

impl From<Symlink> for DirEntry {
    fn from(symlink: Symlink) -> (out: DirEntry) {
        DirEntry::Symlink(symlink)
    }
}

impl FromSpecImpl<Symlink> for DirEntry {
    open spec fn obeys_from_spec() -> bool {
        true
    }

    open spec fn from_spec(symlink: Symlink) -> DirEntry {
        DirEntry::Symlink(symlink)
    }
}

impl From<ResolvedEntry> for DirEntry {
    fn from(resolved: ResolvedEntry) -> (out: DirEntry) {
        match resolved {
            ResolvedEntry::Dir(dir) => DirEntry::Dir(dir),
            ResolvedEntry::File(file) => DirEntry::File(file),
        }
    }
}

impl FromSpecImpl<ResolvedEntry> for DirEntry {
    open spec fn obeys_from_spec() -> bool {
        true
    }

    open spec fn from_spec(resolved: ResolvedEntry) -> DirEntry {
        match resolved {
            ResolvedEntry::Dir(dir) => DirEntry::Dir(dir),
            ResolvedEntry::File(file) => DirEntry::File(file),
        }
    }
}

impl From<Dir> for ResolvedEntry {
    fn from(dir: Dir) -> (out: ResolvedEntry) {
        ResolvedEntry::Dir(dir)
    }
}

impl FromSpecImpl<Dir> for ResolvedEntry {
    open spec fn obeys_from_spec() -> bool {
        true
    }

    open spec fn from_spec(dir: Dir) -> ResolvedEntry {
        ResolvedEntry::Dir(dir)
    }
}

impl From<File> for ResolvedEntry {
    fn from(file: File) -> (out: ResolvedEntry) {
        ResolvedEntry::File(file)
    }
}

impl FromSpecImpl<File> for ResolvedEntry {
    open spec fn obeys_from_spec() -> bool {
        true
    }

    open spec fn from_spec(file: File) -> ResolvedEntry {
        ResolvedEntry::File(file)
    }
}

/// Why [`Dir::get`] found nothing.
#[derive(Debug, Hash, Eq, PartialEq, Structural)]
pub enum GetError {
    /// The symlinks on the way lead round in a circle.
    FilesystemLoop,
    /// The path leads out of the directory.
    LeavesDir,
    /// The path leads through a file.
    NotADirectory,
    /// There is nothing at the path.
    NotFound,
}

/// Why [`Dir::get_nofollow`] found nothing.
#[derive(Debug, Hash, Eq, PartialEq, Structural)]
pub enum GetNofollowError {
    /// The path is absolute.
    LeavesDir,
    /// The path leads through something that is no directory: a file, a symlink, `.` or `..`.
    NotADirectory,
    /// There is nothing at the path.
    NotFound,
}

/// The way from the directory of a lookup to the directory that the lookup has come to: each
/// directory gone into, with its name.
pub type Trail = Seq<(Dir, Seq<char>)>;

/// What a lookup has still to do.
pub enum Pending {
    /// Take this step of a path.
    Component(Step),
    /// Note that the symlink at this path leads to where the lookup has come to.
    Save(Seq<Seq<char>>),
}

/// A lookup under way.
pub struct Lookup {
    /// The way to where the lookup has come to.
    pub current: Trail,
    /// What is still to do, the next thing last.
    pub remaining: Seq<Pending>,
    /// The symlinks met so far, each by its path from the directory of the lookup, with
    /// where it leads to, or with `None` while the lookup is still finding that out.
    pub cache: Map<Seq<Seq<char>>, Option<Trail>>,
    /// How many symlinks the lookup may still follow for the first time.
    pub budget: nat,
}

/// A lookup is under way, or it is over.
pub enum Progress {
    /// The lookup goes on from here.
    Going(Lookup),
    /// The lookup has ended with this.
    Done(Result<ResolvedEntry, GetError>),
}

/// The directory that a lookup in `root` has come to by the way `current`.
pub open spec fn here(root: Dir, current: Trail) -> Dir {
    if current.len() == 0 {
        root
    } else {
        current.last().0
    }
}

/// The names on the way `current`.
pub open spec fn trail_names(current: Trail) -> Seq<Seq<char>> {
    current.map_values(|gone: (Dir, Seq<char>)| gone.1)
}

/// A step of a path is still to be taken.
pub open spec fn awaits_step(remaining: Seq<Pending>) -> bool {
    exists|i: int| 0 <= i < remaining.len() && (#[trigger] remaining[i]) is Component
}

/// The steps `steps` as things to do, the first step last.
pub open spec fn pending_steps(steps: Seq<Step>) -> Seq<Pending> {
    Seq::new(steps.len(), |i: int| Pending::Component(steps[steps.len() - 1 - i]))
}

/// How many symlinks stand under the first `upto` names of `dir` and in the directories
/// under them.
pub open spec fn links_among(dir: Dir, upto: nat) -> nat
    decreases dir, upto,
{
    if upto == 0 || upto > dir.names().len() {
        0
    } else {
        let name = dir.names()[upto - 1];
        links_among(dir, (upto - 1) as nat) + match dir@[name] {
            DirEntry::Dir(inner) => {
                proof {
                    dir.lemma_entry_smaller(upto - 1);
                }
                links_among(inner, inner.names().len())
            },
            DirEntry::File(_) => 0,
            DirEntry::Symlink(_) => 1,
        }
    }
}

/// How many symlinks a lookup in `root` may follow for the first time: as many as stand in
/// `root` and in the directories below it. No lookup needs more, for it follows each symlink
/// once and remembers where it leads.
pub open spec fn link_budget(root: Dir) -> nat {
    if links_among(root, root.names().len()) <= usize::MAX {
        links_among(root, root.names().len())
    } else {
        usize::MAX as nat
    }
}

/// What a lookup in `root` does next.
///
/// It takes the next step of the path. `.` stays, `..` goes back one directory, and a name
/// leads to what stands under it in the directory that the lookup has come to. A directory
/// is gone into. A file ends the lookup: it is what was looked for if no step is left, and
/// otherwise the path leads through a file. A symlink that is met for the first time is
/// followed: its steps are taken next, from the directory that holds it, and where they lead
/// to is noted. A symlink that was followed before leads to where it led then. A symlink that
/// is met while the lookup is following it leads round in a circle.
pub open spec fn advance(root: Dir, s: Lookup) -> Progress {
    if s.remaining.len() == 0 {
        Progress::Done(Ok(ResolvedEntry::Dir(here(root, s.current))))
    } else {
        let rest = s.remaining.drop_last();
        match s.remaining.last() {
            Pending::Save(link) => Progress::Going(
                Lookup { remaining: rest, cache: s.cache.insert(link, Some(s.current)), ..s },
            ),
            Pending::Component(Step::Prefix) => Progress::Done(Err(GetError::LeavesDir)),
            Pending::Component(Step::RootDir) => Progress::Done(Err(GetError::LeavesDir)),
            Pending::Component(Step::CurDir) => Progress::Going(Lookup { remaining: rest, ..s }),
            Pending::Component(Step::ParentDir) => if s.current.len() == 0 {
                Progress::Done(Err(GetError::LeavesDir))
            } else {
                Progress::Going(Lookup { current: s.current.drop_last(), remaining: rest, ..s })
            },
            Pending::Component(Step::Normal(name)) => {
                let dir = here(root, s.current);
                if !dir@.contains_key(name) {
                    Progress::Done(Err(GetError::NotFound))
                } else {
                    match dir@[name] {
                        DirEntry::Dir(inner) => Progress::Going(
                            Lookup {
                                current: s.current.push((inner, name)),
                                remaining: rest,
                                ..s
                            },
                        ),
                        DirEntry::File(file) => if awaits_step(rest) {
                            Progress::Done(Err(GetError::NotADirectory))
                        } else {
                            Progress::Done(Ok(ResolvedEntry::File(file)))
                        },
                        DirEntry::Symlink(symlink) => {
                            let link = trail_names(s.current).push(name);
                            if s.cache.contains_key(link) {
                                match s.cache[link] {
                                    None => Progress::Done(Err(GetError::FilesystemLoop)),
                                    Some(target) => Progress::Going(
                                        Lookup { current: target, remaining: rest, ..s },
                                    ),
                                }
                            } else if s.budget == 0 {
                                Progress::Done(Err(GetError::FilesystemLoop))
                            } else {
                                Progress::Going(
                                    Lookup {
                                        remaining: rest.push(Pending::Save(link)) + pending_steps(
                                            symlink.target(),
                                        ),
                                        cache: s.cache.insert(link, None),
                                        budget: (s.budget - 1) as nat,
                                        ..s
                                    },
                                )
                            }
                        },
                    }
                }
            },
        }
    }
}

/// Where a lookup in `root` that is at `s` stands after `steps` further steps.
pub open spec fn run(root: Dir, s: Lookup, steps: nat) -> Progress
    decreases steps,
{
    if steps == 0 {
        Progress::Going(s)
    } else {
        match advance(root, s) {
            Progress::Going(next) => run(root, next, (steps - 1) as nat),
            Progress::Done(out) => Progress::Done(out),
        }
    }
}

/// The lookup of the path with the steps `components` in `root`, before its first step.
pub open spec fn start(root: Dir, components: Seq<Step>) -> Lookup {
    Lookup {
        current: Seq::empty(),
        remaining: pending_steps(components),
        cache: Map::empty(),
        budget: link_budget(root),
    }
}

/// The lookup of the path with the steps `components` in `root` ends with `out`.
pub open spec fn resolved(
    root: Dir,
    components: Seq<Step>,
    out: Result<ResolvedEntry, GetError>,
) -> bool {
    exists|steps: nat| #[trigger] run(root, start(root, components), steps) == Progress::Done(out)
}

/// A lookup that has gone on for some steps and then takes one more has gone on for one step
/// more.
pub proof fn lemma_run_one_more(root: Dir, s: Lookup, steps: nat, at: Lookup)
    requires
        run(root, s, steps) == Progress::Going(at),
    ensures
        run(root, s, steps + 1) == match advance(root, at) {
            Progress::Going(next) => Progress::Going(next),
            Progress::Done(out) => Progress::Done(out),
        },
    decreases steps,
{
    reveal_with_fuel(run, 2);
    if steps > 0 {
        match advance(root, s) {
            Progress::Going(next) => {
                lemma_run_one_more(root, next, (steps - 1) as nat, at);
                assert(run(root, s, steps + 1) == run(root, next, steps));
            },
            Progress::Done(_) => {},
        }
    } else {
        assert(at == s);
    }
}

/// A lookup has one end: however many steps it is given, it ends with the same.
pub proof fn lemma_one_end(
    root: Dir,
    s: Lookup,
    a: nat,
    b: nat,
    first: Result<ResolvedEntry, GetError>,
    second: Result<ResolvedEntry, GetError>,
)
    requires
        run(root, s, a) == Progress::Done(first),
        run(root, s, b) == Progress::Done(second),
    ensures
        first == second,
    decreases a,
{
    if a > 0 && b > 0 {
        match advance(root, s) {
            Progress::Going(next) => {
                lemma_one_end(root, next, (a - 1) as nat, (b - 1) as nat, first, second);
            },
            Progress::Done(_) => {},
        }
    }
}

/// One directory on the way of a lookup, with its name.
struct Gone<'d> {
    dir: &'d Dir,
    name: String,
}

/// What a lookup has still to do.
enum Todo {
    Component(PathComponent),
    Save(Vec<String>),
}

/// What a lookup knows of a symlink that it has met: where the symlink stands, and where it
/// leads to, once that is found out.
struct Known<'d> {
    link: Vec<String>,
    target: Option<Vec<Gone<'d>>>,
}

/// The way that `gone` stands for.
spec fn trail_of(gone: Seq<Gone>) -> Trail {
    gone.map_values(|g: Gone| (*g.dir, g.name@))
}

/// What `todo` stands for.
spec fn pending_of(todo: Todo) -> Pending {
    match todo {
        Todo::Component(component) => Pending::Component(component@),
        Todo::Save(link) => Pending::Save(names_of(link@)),
    }
}

/// What `todos` stand for.
spec fn pendings_of(todos: Seq<Todo>) -> Seq<Pending> {
    todos.map_values(|todo: Todo| pending_of(todo))
}

/// Where a symlink leads to as far as `known` tells.
spec fn target_of(known: Known) -> Option<Trail> {
    match known.target {
        Some(gone) => Some(trail_of(gone@)),
        None => None,
    }
}

/// No symlink stands twice in `known`.
spec fn links_differ(known: Seq<Known>) -> bool {
    forall|i: int, j: int|
        0 <= i < j < known.len() ==> names_of((#[trigger] known[i]).link@) != names_of(
            (#[trigger] known[j]).link@,
        )
}

/// A place in `known` where the symlink at `link` stands, if it stands anywhere.
spec fn known_at(known: Seq<Known>, link: Seq<Seq<char>>) -> int {
    choose|i: int| 0 <= i < known.len() && names_of((#[trigger] known[i]).link@) == link
}

/// What `known` stands for.
spec fn cache_of(known: Seq<Known>) -> Map<Seq<Seq<char>>, Option<Trail>> {
    Map::new(
        |link: Seq<Seq<char>>|
            exists|i: int| 0 <= i < known.len() && names_of((#[trigger] known[i]).link@) == link,
        |link: Seq<Seq<char>>| target_of(known[known_at(known, link)]),
    )
}

/// Where no symlink stands twice, each stands for what is known of it.
proof fn lemma_cache_at(known: Seq<Known>, at: int)
    requires
        links_differ(known),
        0 <= at < known.len(),
    ensures
        cache_of(known).contains_key(names_of(known[at].link@)),
        cache_of(known)[names_of(known[at].link@)] == target_of(known[at]),
{
    let link = names_of(known[at].link@);
    let found = known_at(known, link);
    if found < at {
        assert(names_of(known[found].link@) != names_of(known[at].link@));
    } else if at < found {
        assert(names_of(known[at].link@) != names_of(known[found].link@));
    }
}

/// What is known after one more symlink has been met.
proof fn lemma_cache_push(known: Seq<Known>, more: Known)
    requires
        links_differ(known),
        !cache_of(known).contains_key(names_of(more.link@)),
    ensures
        links_differ(known.push(more)),
        cache_of(known.push(more)) == cache_of(known).insert(
            names_of(more.link@),
            target_of(more),
        ),
{
    let after = known.push(more);
    assert forall|i: int, j: int| 0 <= i < j < after.len() implies names_of(
        (#[trigger] after[i]).link@,
    ) != names_of((#[trigger] after[j]).link@) by {
        if j == known.len() {
            assert(after[i] == known[i]);
            if names_of(known[i].link@) == names_of(more.link@) {
                assert(cache_of(known).contains_key(names_of(more.link@)));
            }
        } else {
            assert(after[i] == known[i] && after[j] == known[j]);
        }
    }
    assert forall|link: Seq<Seq<char>>| cache_of(after).contains_key(link) <==> cache_of(
        known,
    ).insert(names_of(more.link@), target_of(more)).contains_key(link) by {
        if cache_of(after).contains_key(link) {
            let i = choose|i: int|
                0 <= i < after.len() && names_of((#[trigger] after[i]).link@) == link;
            if i < known.len() {
                assert(names_of(known[i].link@) == link);
            }
        }
        if link == names_of(more.link@) {
            assert(names_of(after[known.len() as int].link@) == link);
        } else if cache_of(known).contains_key(link) {
            let i = choose|i: int|
                0 <= i < known.len() && names_of((#[trigger] known[i]).link@) == link;
            assert(names_of(after[i].link@) == link);
        }
    }
    assert forall|link: Seq<Seq<char>>| cache_of(after).contains_key(link) implies cache_of(
        after,
    )[link] == cache_of(known).insert(names_of(more.link@), target_of(more))[link] by {
        let i = choose|i: int|
            0 <= i < after.len() && names_of((#[trigger] after[i]).link@) == link;
        lemma_cache_at(after, i);
        if i < known.len() {
            assert(after[i] == known[i]);
            lemma_cache_at(known, i);
        }
    }
    assert(cache_of(after) =~= cache_of(known).insert(names_of(more.link@), target_of(more)));
}

/// What is known after it has been found out where a symlink leads to.
proof fn lemma_cache_update(known: Seq<Known>, at: int, more: Known)
    requires
        links_differ(known),
        0 <= at < known.len(),
        names_of(more.link@) == names_of(known[at].link@),
    ensures
        links_differ(known.update(at, more)),
        cache_of(known.update(at, more)) == cache_of(known).insert(
            names_of(more.link@),
            target_of(more),
        ),
{
    let after = known.update(at, more);
    assert forall|i: int, j: int| 0 <= i < j < after.len() implies names_of(
        (#[trigger] after[i]).link@,
    ) != names_of((#[trigger] after[j]).link@) by {
        assert(names_of(known[i].link@) != names_of(known[j].link@));
    }
    assert forall|link: Seq<Seq<char>>| cache_of(after).contains_key(link) <==> cache_of(
        known,
    ).insert(names_of(more.link@), target_of(more)).contains_key(link) by {
        if cache_of(after).contains_key(link) {
            let i = choose|i: int|
                0 <= i < after.len() && names_of((#[trigger] after[i]).link@) == link;
            assert(names_of(known[i].link@) == link);
        }
        if link == names_of(more.link@) {
            assert(names_of(after[at].link@) == link);
        } else if cache_of(known).contains_key(link) {
            let i = choose|i: int|
                0 <= i < known.len() && names_of((#[trigger] known[i]).link@) == link;
            assert(names_of(after[i].link@) == link);
        }
    }
    assert forall|link: Seq<Seq<char>>| cache_of(after).contains_key(link) implies cache_of(
        after,
    )[link] == cache_of(known).insert(names_of(more.link@), target_of(more))[link] by {
        let i = choose|i: int|
            0 <= i < after.len() && names_of((#[trigger] after[i]).link@) == link;
        lemma_cache_at(after, i);
        if i != at {
            assert(after[i] == known[i]);
            lemma_cache_at(known, i);
        }
    }
    assert(cache_of(after) =~= cache_of(known).insert(names_of(more.link@), target_of(more)));
}

/// Tells whether two paths have the same names.
fn same_path(a: &Vec<String>, b: &Vec<String>) -> (out: bool)
    ensures
        out == (names_of(a@) == names_of(b@)),
{
    if a.len() != b.len() {
        return false;
    }
    let mut i: usize = 0;
    while i < a.len()
        invariant
            i <= a@.len(),
            a@.len() == b@.len(),
            forall|j: int| 0 <= j < i ==> a@[j]@ == b@[j]@,
        decreases a.len() - i,
    {
        if !same(a[i].as_str(), b[i].as_str()) {
            assert(names_of(a@)[i as int] != names_of(b@)[i as int]);
            return false;
        }
        i = i + 1;
    }
    assert(names_of(a@) =~= names_of(b@));
    true
}

/// Where the symlink at `link` stands in `known`, if it stands anywhere.
fn find_known(known: &Vec<Known>, link: &Vec<String>) -> (out: Option<usize>)
    ensures
        match out {
            Some(at) => at < known@.len() && names_of(known@[at as int].link@) == names_of(link@),
            None => !cache_of(known@).contains_key(names_of(link@)),
        },
{
    let mut i: usize = 0;
    while i < known.len()
        invariant
            i <= known@.len(),
            forall|j: int| 0 <= j < i ==> names_of((#[trigger] known@[j]).link@) != names_of(link@),
        decreases known.len() - i,
    {
        if same_path(&known[i].link, link) {
            return Some(i);
        }
        i = i + 1;
    }
    None
}

/// A copy of the way `trail`.
fn copy_trail<'d>(trail: &Vec<Gone<'d>>) -> (out: Vec<Gone<'d>>)
    ensures
        trail_of(out@) == trail_of(trail@),
{
    let mut out: Vec<Gone<'d>> = Vec::new();
    let mut i: usize = 0;
    while i < trail.len()
        invariant
            i <= trail@.len(),
            trail_of(out@) == trail_of(trail@).take(i as int),
        decreases trail.len() - i,
    {
        let ghost before = out@;
        out.push(Gone { dir: trail[i].dir, name: trail[i].name.clone() });
        proof {
            assert(trail_of(out@) =~= trail_of(before).push(
                (*trail@[i as int].dir, trail@[i as int].name@),
            ));
            assert(trail_of(trail@).take(i + 1) =~= trail_of(trail@).take(i as int).push(
                (*trail@[i as int].dir, trail@[i as int].name@),
            ));
        }
        i = i + 1;
    }
    assert(trail_of(trail@).take(trail@.len() as int) =~= trail_of(trail@));
    out
}

/// The path of what stands under `name` at the end of the way `trail`.
fn link_of(trail: &Vec<Gone>, name: &String) -> (out: Vec<String>)
    ensures
        names_of(out@) == trail_names(trail_of(trail@)).push(name@),
{
    let mut out: Vec<String> = Vec::new();
    let mut i: usize = 0;
    while i < trail.len()
        invariant
            i <= trail@.len(),
            names_of(out@) == trail_names(trail_of(trail@)).take(i as int),
        decreases trail.len() - i,
    {
        let ghost before = out@;
        out.push(trail[i].name.clone());
        proof {
            assert(names_of(out@) =~= names_of(before).push(trail@[i as int].name@));
            assert(trail_names(trail_of(trail@)).take(i + 1) =~= trail_names(
                trail_of(trail@),
            ).take(i as int).push(trail@[i as int].name@));
        }
        i = i + 1;
    }
    let ghost before = out@;
    out.push(name.clone());
    proof {
        assert(trail_names(trail_of(trail@)).take(trail@.len() as int) =~= trail_names(
            trail_of(trail@),
        ));
        assert(names_of(out@) =~= names_of(before).push(name@));
    }
    out
}

/// Tells whether a step of a path is among `todos`.
fn any_step(todos: &Vec<Todo>) -> (out: bool)
    ensures
        out == awaits_step(pendings_of(todos@)),
{
    let mut i: usize = 0;
    while i < todos.len()
        invariant
            i <= todos@.len(),
            forall|j: int| 0 <= j < i ==> !((#[trigger] pendings_of(todos@)[j]) is Component),
        decreases todos.len() - i,
    {
        match &todos[i] {
            Todo::Component(_) => {
                assert(pendings_of(todos@)[i as int] is Component);
                return true;
            },
            Todo::Save(_) => {},
        }
        i = i + 1;
    }
    false
}

/// A copy of `step`.
fn copy_step(step: &PathComponent) -> (out: PathComponent)
    ensures
        out == *step,
{
    match step {
        PathComponent::Prefix => PathComponent::Prefix,
        PathComponent::RootDir => PathComponent::RootDir,
        PathComponent::CurDir => PathComponent::CurDir,
        PathComponent::ParentDir => PathComponent::ParentDir,
        PathComponent::Normal(name) => PathComponent::Normal(name.clone()),
    }
}

/// Puts the steps `steps` on `todos`, so that the first step is taken next.
fn push_steps(todos: &mut Vec<Todo>, steps: &Vec<PathComponent>)
    ensures
        pendings_of(final(todos)@) == pendings_of(old(todos)@) + pending_steps(steps_of(steps@)),
{
    let ghost all = pending_steps(steps_of(steps@));
    let mut left: usize = steps.len();
    assert(pendings_of(todos@) =~= pendings_of(old(todos)@) + all.take(0));
    while left > 0
        invariant
            left <= steps@.len(),
            all == pending_steps(steps_of(steps@)),
            pendings_of(todos@) == pendings_of(old(todos)@) + all.take(steps@.len() - left),
        decreases left,
    {
        left = left - 1;
        let ghost before = todos@;
        todos.push(Todo::Component(copy_step(&steps[left])));
        proof {
            let done = steps@.len() - left - 1;
            assert(all[done] == Pending::Component(steps@[left as int]@));
            assert(pendings_of(todos@) =~= pendings_of(before).push(
                Pending::Component(steps@[left as int]@),
            ));
            assert(all.take(done + 1) =~= all.take(done).push(all[done]));
        }
    }
    assert(all.take(steps@.len() as int) =~= all);
}

impl View for Dir {
    type V = Map<Seq<char>, DirEntry>;

    closed spec fn view(&self) -> Map<Seq<char>, DirEntry> {
        (*self.contents)@
    }
}

impl Clone for Dir {
    fn clone(&self) -> (out: Self)
        ensures
            out == *self,
    {
        Dir { contents: share(&self.contents) }
    }
}

impl Clone for DirEntry {
    fn clone(&self) -> (out: Self)
        ensures
            same_entry(*self, out),
    {
        match self {
            DirEntry::Dir(dir) => DirEntry::Dir(dir.clone()),
            DirEntry::File(file) => DirEntry::File(file.clone()),
            DirEntry::Symlink(symlink) => DirEntry::Symlink(symlink.clone()),
        }
    }
}

/// `b` is a copy of `a`: the same directory or the same file, or a symlink that holds the
/// same path.
pub open spec fn same_entry(a: DirEntry, b: DirEntry) -> bool {
    match a {
        DirEntry::Dir(dir) => b == DirEntry::Dir(dir),
        DirEntry::File(file) => b == DirEntry::File(file),
        DirEntry::Symlink(symlink) => b matches DirEntry::Symlink(copy) && copy.text()
            == symlink.text() && copy.target() == symlink.target(),
    }
}

/// What [`Dir::get_nofollow`] finds in `dir` at the path with the steps `components`.
pub open spec fn nofollow(dir: Dir, components: Seq<Step>) -> Result<DirEntry, GetNofollowError>
    decreases components.len(),
{
    if components.len() == 0 {
        Ok(DirEntry::Dir(dir))
    } else {
        match components[0] {
            Step::Prefix | Step::RootDir => Err(GetNofollowError::LeavesDir),
            Step::CurDir | Step::ParentDir => Err(GetNofollowError::NotADirectory),
            Step::Normal(name) => if !dir@.contains_key(name) {
                Err(GetNofollowError::NotFound)
            } else {
                match dir@[name] {
                    DirEntry::Dir(inner) => nofollow(inner, components.drop_first()),
                    entry => if components.len() == 1 {
                        Ok(entry)
                    } else {
                        Err(GetNofollowError::NotADirectory)
                    },
                }
            },
        }
    }
}

/// `out` is what [`nofollow`] says, or a copy of it.
pub open spec fn is_nofollow(
    dir: Dir,
    components: Seq<Step>,
    out: Result<DirEntry, GetNofollowError>,
) -> bool {
    match (nofollow(dir, components), out) {
        (Ok(entry), Ok(copy)) => same_entry(entry, copy),
        (Err(expected), Err(error)) => error == expected,
        _ => false,
    }
}

impl Dir {
    /// The directory with the contents `contents`.
    pub fn new(contents: NameMap<DirEntry>) -> (out: Dir)
        ensures
            out@ == contents@,
    {
        Dir { contents: Arc::new(contents) }
    }

    /// How many entries the directory has.
    pub fn len(&self) -> (out: usize)
        ensures
            out == self.names().len(),
    {
        self.contents.len()
    }

    /// The names in the directory, in ascending order.
    pub closed spec fn names(&self) -> Seq<Seq<char>> {
        (*self.contents).names()
    }

    /// What stands under a name of the directory is smaller than the directory.
    pub proof fn lemma_entry_smaller(&self, at: int)
        requires
            0 <= at < self.names().len(),
        ensures
            self@.contains_key(self.names()[at]),
            decreases_to!(self => self@[self.names()[at]]),
    {
        (*self.contents).lemma_names_cover();
        assert((*self.contents).names().contains(self.names()[at]));
        (*self.contents).lemma_value_smaller(self.names()[at]);
    }

    /// Counts the symlinks in this directory and in the directories below it, up to the
    /// greatest number that can be counted.
    pub fn count_links(&self) -> (out: usize)
        ensures
            out == link_budget(*self),
        decreases self,
    {
        let count = self.contents.len();
        let mut out: usize = 0;
        let mut k: usize = 0;
        while k < count
            invariant
                k <= count,
                count == self.names().len(),
                out == if links_among(*self, k as nat) <= usize::MAX {
                    links_among(*self, k as nat)
                } else {
                    usize::MAX as nat
                },
            decreases count - k,
        {
            let (_, entry) = self.contents.entry_at(k);
            proof {
                self.lemma_entry_smaller(k as int);
            }
            let more: usize = match entry {
                DirEntry::Dir(inner) => inner.count_links(),
                DirEntry::File(_) => 0,
                DirEntry::Symlink(_) => 1,
            };
            out = if more > usize::MAX - out {
                usize::MAX
            } else {
                out + more
            };
            k = k + 1;
        }
        out
    }

    /// The contents of the directory: each name with a copy of what stands under it, in the
    /// order of the names.
    pub fn entries(&self) -> (out: Vec<(String, DirEntry)>)
        ensures
            out@.len() == self.names().len(),
            forall|i: int|
                0 <= i < out@.len() ==> (#[trigger] out@[i]).0@ == self.names()[i]
                    && self@.contains_key(out@[i].0@) && same_entry(
                    self@[out@[i].0@],
                    out@[i].1,
                ),
            forall|i: int, j: int|
                0 <= i < j < out@.len() ==> crate::text::precedes(
                    (#[trigger] out@[i]).0@,
                    (#[trigger] out@[j]).0@,
                ),
            forall|name: Seq<char>|
                self@.contains_key(name) <==> exists|i: int|
                    0 <= i < out@.len() && (#[trigger] out@[i]).0@ == name,
    {
        let count = self.contents.len();
        let mut out: Vec<(String, DirEntry)> = Vec::new();
        let mut k: usize = 0;
        while k < count
            invariant
                k <= count,
                count == self.names().len(),
                out@.len() == k,
                forall|i: int|
                    0 <= i < out@.len() ==> (#[trigger] out@[i]).0@ == self.names()[i]
                        && self@.contains_key(out@[i].0@) && same_entry(
                        self@[out@[i].0@],
                        out@[i].1,
                    ),
                k > 0 ==> forall|i: int, j: int|
                    0 <= i < j < self.names().len() ==> crate::text::precedes(
                        #[trigger] self.names()[i],
                        #[trigger] self.names()[j],
                    ),
                k > 0 ==> forall|name: Seq<char>|
                    self@.contains_key(name) <==> self.names().contains(name),
            decreases count - k,
        {
            let (name, entry) = self.contents.entry_at(k);
            out.push((name.clone(), entry.clone()));
            k = k + 1;
        }
        proof {
            if count == 0 {
                (*self.contents).lemma_names_cover();
            }
            assert forall|name: Seq<char>| self@.contains_key(name) <==> exists|i: int|
                0 <= i < out@.len() && (#[trigger] out@[i]).0@ == name by {
                if self@.contains_key(name) {
                    assert(self.names().contains(name));
                    let i = choose|i: int| 0 <= i < self.names().len() && self.names()[i] == name;
                    assert(out@[i].0@ == name);
                }
            }
        }
        out
    }

    /// A copy of what stands under `name` in this directory, if anything does. This looks at
    /// the directory itself only: to go into the directories below, use [`Dir::get`].
    pub fn get_entry(&self, name: &str) -> (out: Option<DirEntry>)
        ensures
            match out {
                Some(entry) => self@.contains_key(name@) && same_entry(self@[name@], entry),
                None => !self@.contains_key(name@),
            },
    {
        match self.contents.get(name) {
            Some(entry) => Some(entry.clone()),
            None => None,
        }
    }

    /// A copy of what stands at `path` below this directory, with the symlinks on the way
    /// followed. A symlink is followed only if it is relative and does not lead out of this
    /// directory.
    pub fn get(&self, path: &str) -> (out: Result<ResolvedEntry, GetError>)
        ensures
            resolved(*self, parsed(path@), out),
    {
        let components = parse(path);
        self.get_inner(&components)
    }

    /// A copy of what stands at the path with the steps `components` below this directory,
    /// found as [`Dir::get`] finds it.
    pub fn get_inner(&self, components: &Vec<PathComponent>) -> (out: Result<
        ResolvedEntry,
        GetError,
    >)
        ensures
            resolved(*self, steps_of(components@), out),
    {
        let mut current: Vec<Gone> = Vec::new();
        let mut remaining: Vec<Todo> = Vec::new();
        push_steps(&mut remaining, components);
        let mut known: Vec<Known> = Vec::new();
        let mut budget: usize = self.count_links();
        let mut outcome: Option<Result<ResolvedEntry, GetError>> = None;
        let ghost mut steps: nat = 0;
        proof {
            assert(trail_of(current@) =~= Seq::empty());
            assert(pendings_of(remaining@) =~= pending_steps(steps_of(components@)));
            assert(cache_of(known@) =~= Map::empty());
        }
        while outcome.is_none()
            invariant
                links_differ(known@),
                match outcome {
                    None => run(*self, start(*self, steps_of(components@)), steps) == Progress::Going(
                        Lookup {
                            current: trail_of(current@),
                            remaining: pendings_of(remaining@),
                            cache: cache_of(known@),
                            budget: budget as nat,
                        },
                    ),
                    Some(end) => resolved(*self, steps_of(components@), end),
                },
            decreases
                    (if outcome is None {
                        1int
                    } else {
                        0int
                    }),
                    budget,
                    remaining@.len(),
        {
            let ghost at = Lookup {
                current: trail_of(current@),
                remaining: pendings_of(remaining@),
                cache: cache_of(known@),
                budget: budget as nat,
            };
            let ghost todos_before = remaining@;
            proof {
                lemma_run_one_more(*self, start(*self, steps_of(components@)), steps, at);
                if remaining@.len() > 0 {
                    assert(pendings_of(remaining@).drop_last() =~= pendings_of(
                        remaining@.drop_last(),
                    ));
                    assert(pendings_of(remaining@).last() == pending_of(remaining@.last()));
                }
            }
            let cur_dir: &Dir = if current.len() == 0 {
                self
            } else {
                current[current.len() - 1].dir
            };
            assert(*cur_dir == here(*self, at.current));
            match remaining.pop() {
                None => {
                    outcome = Some(Ok(ResolvedEntry::Dir(cur_dir.clone())));
                },
                Some(Todo::Save(link)) => {
                    let target = copy_trail(&current);
                    let more = Known { link, target: Some(target) };
                    match find_known(&known, &more.link) {
                        Some(place) => {
                            proof {
                                lemma_cache_update(known@, place as int, more);
                            }
                            known[place] = more;
                        },
                        None => {
                            proof {
                                lemma_cache_push(known@, more);
                            }
                            known.push(more);
                        },
                    }
                },
                Some(Todo::Component(PathComponent::Prefix)) => {
                    outcome = Some(Err(GetError::LeavesDir));
                },
                Some(Todo::Component(PathComponent::RootDir)) => {
                    outcome = Some(Err(GetError::LeavesDir));
                },
                Some(Todo::Component(PathComponent::CurDir)) => {},
                Some(Todo::Component(PathComponent::ParentDir)) => {
                    let ghost before = current@;
                    match current.pop() {
                        None => {
                            outcome = Some(Err(GetError::LeavesDir));
                        },
                        Some(_) => {
                            assert(trail_of(current@) =~= trail_of(before).drop_last());
                        },
                    }
                },
                Some(Todo::Component(PathComponent::Normal(name))) => {
                    match cur_dir.contents.get(name.as_str()) {
                        None => {
                            outcome = Some(Err(GetError::NotFound));
                        },
                        Some(DirEntry::Dir(dir)) => {
                            let ghost before = current@;
                            current.push(Gone { dir, name });
                            assert(trail_of(current@) =~= trail_of(before).push((*dir, name@)));
                        },
                        Some(DirEntry::File(file)) => {
                            outcome = if any_step(&remaining) {
                                Some(Err(GetError::NotADirectory))
                            } else {
                                Some(Ok(ResolvedEntry::File(file.clone())))
                            };
                        },
                        Some(DirEntry::Symlink(symlink)) => {
                            let link_path = link_of(&current, &name);
                            match find_known(&known, &link_path) {
                                Some(place) => {
                                    proof {
                                        lemma_cache_at(known@, place as int);
                                    }
                                    match &known[place].target {
                                        None => {
                                            outcome = Some(Err(GetError::FilesystemLoop));
                                        },
                                        Some(target) => {
                                            current = copy_trail(target);
                                        },
                                    }
                                },
                                None => {
                                    if budget == 0 {
                                        outcome = Some(Err(GetError::FilesystemLoop));
                                    } else {
                                        budget = budget - 1;
                                        let ghost rest = remaining@;
                                        let ghost link = names_of(link_path@);
                                        let more = Known { link: copy_names(&link_path), target: None };
                                        proof {
                                            lemma_cache_push(known@, more);
                                        }
                                        known.push(more);
                                        remaining.push(Todo::Save(link_path));
                                        proof {
                                            assert(pendings_of(remaining@) =~= pendings_of(
                                                rest,
                                            ).push(Pending::Save(link)));
                                        }
                                        push_steps(&mut remaining, symlink.steps());
                                    }
                                },
                            }
                        },
                    }
                },
            }
            proof {
                if outcome is None {
                    steps = steps + 1;
                } else {
                    assert(run(*self, start(*self, steps_of(components@)), steps + 1) == Progress::Done(
                        outcome->0,
                    ));
                }
            }
        }
        outcome.unwrap()
    }

    /// A copy of what stands at `path` below this directory, found without following any
    /// symlink and without accepting `.` or `..`. A path that leads through a symlink is an
    /// error.
    pub fn get_nofollow(&self, path: &str) -> (out: Result<DirEntry, GetNofollowError>)
        ensures
            is_nofollow(*self, parsed(path@), out),
    {
        let components = parse(path);
        self.get_nofollow_inner(&components)
    }

    /// A copy of what stands at the path with the steps `components` below this directory,
    /// found as [`Dir::get_nofollow`] finds it.
    pub fn get_nofollow_inner(&self, components: &Vec<PathComponent>) -> (out: Result<
        DirEntry,
        GetNofollowError,
    >)
        ensures
            is_nofollow(*self, steps_of(components@), out),
    {
        let mut cur_dir: &Dir = self;
        let mut i: usize = 0;
        let ghost steps = steps_of(components@);
        assert(steps.skip(0) =~= steps);
        while i < components.len()
            invariant
                i <= components.len(),
                steps == steps_of(components@),
                nofollow(*self, steps) == nofollow(*cur_dir, steps.skip(i as int)),
            decreases components.len() - i,
        {
            proof {
                let rest = steps.skip(i as int);
                assert(rest[0] == components@[i as int]@);
                assert(rest.drop_first() =~= steps.skip(i + 1));
            }
            let name = match &components[i] {
                PathComponent::Prefix => {
                    return Err(GetNofollowError::LeavesDir);
                },
                PathComponent::RootDir => {
                    return Err(GetNofollowError::LeavesDir);
                },
                PathComponent::CurDir => {
                    return Err(GetNofollowError::NotADirectory);
                },
                PathComponent::ParentDir => {
                    return Err(GetNofollowError::NotADirectory);
                },
                PathComponent::Normal(name) => name,
            };
            match cur_dir.contents.get(name.as_str()) {
                None => {
                    return Err(GetNofollowError::NotFound);
                },
                Some(DirEntry::Dir(new_dir)) => {
                    cur_dir = new_dir;
                },
                Some(entry) => {
                    if i + 1 == components.len() {
                        return Ok(entry.clone());
                    } else {
                        return Err(GetNofollowError::NotADirectory);
                    }
                },
            }
            i = i + 1;
        }
        Ok(DirEntry::Dir(cur_dir.clone()))
    }
}

/// Why [`Freezer::consult`] refuses a path.
#[derive(Debug, Hash, Eq, PartialEq, Structural)]
pub enum FreezeError {
    /// The path holds a step that is no name: it is absolute, or it holds `.` or `..`.
    InvalidInput,
    /// The path leads through something that is no directory.
    NotADirectory,
    /// There is nothing at the path.
    NotFound,
}

/// What the freezer knows of a path.
#[derive(Debug, PartialEq, Eq)]
pub enum Consulted {
    /// The question is settled: this is what freezing the path yields.
    Settled(Result<DirEntry, FreezeError>),
    /// Nothing is frozen at the first steps of the path that were asked about: the file
    /// system has to be looked at.
    Unknown,
}

/// The names of the steps `components`, all of which are names.
pub open spec fn step_names(components: Seq<Step>) -> Seq<Seq<char>> {
    components.map_values(
        |component: Step|
            match component {
                Step::Normal(name) => name,
                _ => Seq::empty(),
            },
    )
}

/// What a freezer that has frozen `frozen` knows of the path with the steps `components`
/// when it looks at the first `upto + 1` of them: that the path is invalid if the last of
/// them is no name; what stands at the path if something is frozen at those steps; and nothing
/// otherwise. Below a frozen directory the path is looked up without following symlinks, and
/// below anything else that is frozen there is nothing.
pub open spec fn consulted(
    frozen: Map<Seq<Seq<char>>, DirEntry>,
    components: Seq<Step>,
    upto: int,
) -> Option<Result<DirEntry, FreezeError>> {
    if !(components[upto] is Normal) {
        Some(Err(FreezeError::InvalidInput))
    } else {
        let relative = step_names(components.take(upto + 1));
        if !frozen.contains_key(relative) {
            None
        } else {
            match frozen[relative] {
                DirEntry::Dir(dir) => match nofollow(dir, components.skip(upto + 1)) {
                    Ok(entry) => Some(Ok(entry)),
                    Err(GetNofollowError::LeavesDir) => Some(Err(FreezeError::InvalidInput)),
                    Err(GetNofollowError::NotADirectory) => Some(Err(FreezeError::NotADirectory)),
                    Err(GetNofollowError::NotFound) => Some(Err(FreezeError::NotFound)),
                },
                entry => if upto + 1 == components.len() {
                    Some(Ok(entry))
                } else {
                    Some(Err(FreezeError::NotADirectory))
                },
            }
        }
    }
}

/// What has been frozen so far, by path below the diagnostics directory. Its model is the
/// map from the names of a path to what is frozen there.
pub struct Freezer {
    frozen: Vec<(Vec<String>, DirEntry)>,
}

/// A place in `frozen` where the path `path` stands, if it stands anywhere.
pub open spec fn frozen_at(frozen: Seq<(Vec<String>, DirEntry)>, path: Seq<Seq<char>>) -> int {
    choose|i: int| 0 <= i < frozen.len() && names_of((#[trigger] frozen[i]).0@) == path
}

/// The map that `frozen` spells out.
pub open spec fn frozen_map(frozen: Seq<(Vec<String>, DirEntry)>) -> Map<Seq<Seq<char>>, DirEntry> {
    Map::new(
        |path: Seq<Seq<char>>|
            exists|i: int| 0 <= i < frozen.len() && names_of((#[trigger] frozen[i]).0@) == path,
        |path: Seq<Seq<char>>| frozen[frozen_at(frozen, path)].1,
    )
}

/// No path stands twice in `frozen`.
pub open spec fn paths_differ(frozen: Seq<(Vec<String>, DirEntry)>) -> bool {
    forall|i: int, j: int|
        0 <= i < j < frozen.len() ==> names_of((#[trigger] frozen[i]).0@) != names_of(
            (#[trigger] frozen[j]).0@,
        )
}

/// Where no path stands twice, each stands for what is frozen at it.
proof fn lemma_frozen_at(frozen: Seq<(Vec<String>, DirEntry)>, at: int)
    requires
        paths_differ(frozen),
        0 <= at < frozen.len(),
    ensures
        frozen_map(frozen).contains_key(names_of(frozen[at].0@)),
        frozen_map(frozen)[names_of(frozen[at].0@)] == frozen[at].1,
{
    let path = names_of(frozen[at].0@);
    let found = frozen_at(frozen, path);
    if found < at {
        assert(names_of(frozen[found].0@) != names_of(frozen[at].0@));
    } else if at < found {
        assert(names_of(frozen[at].0@) != names_of(frozen[found].0@));
    }
}

impl View for Freezer {
    type V = Map<Seq<Seq<char>>, DirEntry>;

    closed spec fn view(&self) -> Map<Seq<Seq<char>>, DirEntry> {
        frozen_map(self.frozen@)
    }
}

impl Freezer {
    #[verifier::type_invariant]
    spec fn no_path_twice(&self) -> bool {
        paths_differ(self.frozen@)
    }

    /// A freezer that has frozen nothing.
    pub fn new() -> (out: Freezer)
        ensures
            out@ == Map::<Seq<Seq<char>>, DirEntry>::empty(),
    {
        let out = Freezer { frozen: Vec::new() };
        assert(out@ =~= Map::<Seq<Seq<char>>, DirEntry>::empty());
        out
    }

    /// Where `path` stands among what is frozen, if it stands there.
    fn find(&self, path: &Vec<String>) -> (out: Option<usize>)
        ensures
            match out {
                Some(at) => at < self.frozen@.len() && names_of(self.frozen@[at as int].0@)
                    == names_of(path@) && self@.contains_key(names_of(path@)) && self@[names_of(
                    path@,
                )] == self.frozen@[at as int].1,
                None => !self@.contains_key(names_of(path@)),
            },
    {
        proof {
            use_type_invariant(self);
        }
        let mut i: usize = 0;
        while i < self.frozen.len()
            invariant
                i <= self.frozen@.len(),
                paths_differ(self.frozen@),
                forall|j: int|
                    0 <= j < i ==> names_of((#[trigger] self.frozen@[j]).0@) != names_of(path@),
            decreases self.frozen.len() - i,
        {
            if same_path(&self.frozen[i].0, path) {
                proof {
                    lemma_frozen_at(self.frozen@, i as int);
                }
                return Some(i);
            }
            i = i + 1;
        }
        None
    }

    /// Tells what is known of the path with the steps `components`, from its first
    /// `upto + 1` steps. The steps before the last of them must be names.
    pub fn consult(&self, components: &Vec<PathComponent>, upto: usize) -> (out: Consulted)
        requires
            upto < components@.len(),
            forall|i: int| 0 <= i < upto ==> (#[trigger] components@[i]) is Normal,
        ensures
            match (out, consulted(self@, steps_of(components@), upto as int)) {
                (Consulted::Unknown, None) => true,
                (Consulted::Settled(Ok(entry)), Some(Ok(expected))) => same_entry(expected, entry),
                (Consulted::Settled(Err(error)), Some(Err(expected))) => error == expected,
                _ => false,
            },
    {
        match &components[upto] {
            PathComponent::Normal(_) => {},
            _ => {
                return Consulted::Settled(Err(FreezeError::InvalidInput));
            },
        }
        let count = components.len();
        let mut relative: Vec<String> = Vec::new();
        let mut i: usize = 0;
        let ghost steps = steps_of(components@);
        assert(names_of(relative@) =~= step_names(steps.take(0)));
        while i <= upto
            invariant
                i <= upto + 1,
                upto < components@.len(),
                upto < usize::MAX,
                forall|j: int| 0 <= j <= upto ==> (#[trigger] components@[j]) is Normal,
                steps == steps_of(components@),
                names_of(relative@) == step_names(steps.take(i as int)),
            decreases upto + 1 - i,
        {
            let ghost before = relative@;
            match &components[i] {
                PathComponent::Normal(name) => {
                    relative.push(name.clone());
                    proof {
                        assert(names_of(relative@) =~= names_of(before).push(name@));
                        assert(steps[i as int] == Step::Normal(name@));
                        assert(step_names(steps.take(i + 1)) =~= step_names(
                            steps.take(i as int),
                        ).push(name@));
                    }
                },
                _ => {},
            }
            i = i + 1;
        }
        match self.find(&relative) {
            None => Consulted::Unknown,
            Some(at) => match &self.frozen[at].1 {
                DirEntry::Dir(dir) => {
                    let mut rest: Vec<PathComponent> = Vec::new();
                    let mut j: usize = upto + 1;
                    assert(steps_of(rest@) =~= steps.skip(upto + 1).take(0));
                    while j < components.len()
                        invariant
                            upto + 1 <= j <= components@.len(),
                            steps == steps_of(components@),
                            steps_of(rest@) == steps.skip(upto + 1).take(j - upto - 1),
                        decreases components.len() - j,
                    {
                        let ghost before = rest@;
                        rest.push(copy_step(&components[j]));
                        assert(steps_of(rest@) =~= steps_of(before).push(components@[j as int]@));
                        j = j + 1;
                        assert(steps.skip(upto + 1).take(j - upto - 1) =~= steps.skip(
                            upto + 1,
                        ).take(j - upto - 2).push(steps[j - 1]));
                    }
                    assert(steps_of(rest@) =~= steps.skip(upto + 1));
                    match dir.get_nofollow_inner(&rest) {
                        Ok(entry) => Consulted::Settled(Ok(entry)),
                        Err(GetNofollowError::LeavesDir) => Consulted::Settled(
                            Err(FreezeError::InvalidInput),
                        ),
                        Err(GetNofollowError::NotADirectory) => Consulted::Settled(
                            Err(FreezeError::NotADirectory),
                        ),
                        Err(GetNofollowError::NotFound) => Consulted::Settled(
                            Err(FreezeError::NotFound),
                        ),
                    }
                },
                entry => {
                    if upto + 1 == components.len() {
                        Consulted::Settled(Ok(entry.clone()))
                    } else {
                        Consulted::Settled(Err(FreezeError::NotADirectory))
                    }
                },
            },
        }
    }

    /// Notes that `entry` is frozen at `path`, in place of what was noted there before.
    pub fn remember(&mut self, path: Vec<String>, entry: DirEntry)
        ensures
            final(self)@ == old(self)@.insert(names_of(path@), entry),
    {
        proof {
            use_type_invariant(&*self);
        }
        let found = self.find(&path);
        let mut frozen: Vec<(Vec<String>, DirEntry)> = Vec::new();
        std::mem::swap(&mut self.frozen, &mut frozen);
        let ghost before = frozen@;
        match found {
            Some(at) => {
                frozen[at] = (path, entry);
            },
            None => {
                frozen.push((path, entry));
            },
        }
        proof {
            lemma_frozen_put(before, frozen@, names_of(path@), entry);
        }
        self.frozen = frozen;
    }

    /// Takes what is frozen at `path` out of the freezer's notes, if anything is frozen
    /// there: a directory that holds it is about to be frozen as a whole.
    pub fn take(&mut self, path: &Vec<String>) -> (out: Option<DirEntry>)
        ensures
            final(self)@ == old(self)@.remove(names_of(path@)),
            match out {
                Some(entry) => old(self)@.contains_key(names_of(path@)) && entry == old(
                    self,
                )@[names_of(path@)],
                None => !old(self)@.contains_key(names_of(path@)),
            },
    {
        proof {
            use_type_invariant(&*self);
        }
        match self.find(path) {
            None => {
                assert(self@ =~= old(self)@.remove(names_of(path@)));
                None
            },
            Some(at) => {
                let mut frozen: Vec<(Vec<String>, DirEntry)> = Vec::new();
                std::mem::swap(&mut self.frozen, &mut frozen);
                let ghost before = frozen@;
                let (_, entry) = frozen.remove(at);
                proof {
                    lemma_frozen_taken(before, at as int);
                }
                self.frozen = frozen;
                Some(entry)
            },
        }
    }
}

/// What is noted after an entry has been put at a path.
proof fn lemma_frozen_put(
    before: Seq<(Vec<String>, DirEntry)>,
    after: Seq<(Vec<String>, DirEntry)>,
    path: Seq<Seq<char>>,
    entry: DirEntry,
)
    requires
        paths_differ(before),
        if frozen_map(before).contains_key(path) {
            exists|at: int|
                0 <= at < before.len() && names_of((#[trigger] before[at]).0@) == path
                    && after.len() == before.len() && names_of(after[at].0@) == path && after[at].1
                    == entry && forall|i: int|
                    0 <= i < before.len() && i != at ==> #[trigger] after[i] == before[i]
        } else {
            after.len() == before.len() + 1 && names_of(after.last().0@) == path && after.last().1
                == entry && forall|i: int| 0 <= i < before.len() ==> #[trigger] after[i] == before[i]
        },
    ensures
        paths_differ(after),
        frozen_map(after) == frozen_map(before).insert(path, entry),
{
    if frozen_map(before).contains_key(path) {
        let at = choose|at: int|
            0 <= at < before.len() && names_of((#[trigger] before[at]).0@) == path && after.len()
                == before.len() && names_of(after[at].0@) == path && after[at].1 == entry
                && forall|i: int|
                0 <= i < before.len() && i != at ==> #[trigger] after[i] == before[i];
        assert forall|i: int, j: int| 0 <= i < j < after.len() implies names_of(
            (#[trigger] after[i]).0@,
        ) != names_of((#[trigger] after[j]).0@) by {
            assert(names_of(before[i].0@) != names_of(before[j].0@));
            if i != at {
                assert(after[i] == before[i]);
            }
            if j != at {
                assert(after[j] == before[j]);
            }
        }
        assert forall|p: Seq<Seq<char>>| frozen_map(after).contains_key(p) <==> frozen_map(
            before,
        ).insert(path, entry).contains_key(p) by {
            if frozen_map(after).contains_key(p) {
                let i = choose|i: int|
                    0 <= i < after.len() && names_of((#[trigger] after[i]).0@) == p;
                if i != at {
                    assert(after[i] == before[i]);
                    assert(names_of(before[i].0@) == p);
                }
            }
            if p == path {
                assert(names_of(after[at].0@) == p);
            } else if frozen_map(before).contains_key(p) {
                let i = choose|i: int|
                    0 <= i < before.len() && names_of((#[trigger] before[i]).0@) == p;
                assert(after[i] == before[i]);
                assert(names_of(after[i].0@) == p);
            }
        }
        assert forall|p: Seq<Seq<char>>| frozen_map(after).contains_key(p) implies frozen_map(
            after,
        )[p] == frozen_map(before).insert(path, entry)[p] by {
            let i = choose|i: int| 0 <= i < after.len() && names_of((#[trigger] after[i]).0@) == p;
            lemma_frozen_at(after, i);
            if i != at {
                assert(after[i] == before[i]);
                lemma_frozen_at(before, i);
            }
        }
    } else {
        assert forall|i: int, j: int| 0 <= i < j < after.len() implies names_of(
            (#[trigger] after[i]).0@,
        ) != names_of((#[trigger] after[j]).0@) by {
            assert(after[i] == before[i]);
            if j < before.len() {
                assert(after[j] == before[j]);
            } else {
                assert(after[j] == after.last());
                if names_of(before[i].0@) == path {
                    assert(frozen_map(before).contains_key(path));
                }
            }
        }
        assert forall|p: Seq<Seq<char>>| frozen_map(after).contains_key(p) <==> frozen_map(
            before,
        ).insert(path, entry).contains_key(p) by {
            if frozen_map(after).contains_key(p) {
                let i = choose|i: int|
                    0 <= i < after.len() && names_of((#[trigger] after[i]).0@) == p;
                if i < before.len() {
                    assert(after[i] == before[i]);
                    assert(names_of(before[i].0@) == p);
                } else {
                    assert(after[i] == after.last());
                }
            }
            if p == path {
                assert(names_of(after[before.len() as int].0@) == p);
            } else if frozen_map(before).contains_key(p) {
                let i = choose|i: int|
                    0 <= i < before.len() && names_of((#[trigger] before[i]).0@) == p;
                assert(after[i] == before[i]);
                assert(names_of(after[i].0@) == p);
            }
        }
        assert forall|p: Seq<Seq<char>>| frozen_map(after).contains_key(p) implies frozen_map(
            after,
        )[p] == frozen_map(before).insert(path, entry)[p] by {
            let i = choose|i: int| 0 <= i < after.len() && names_of((#[trigger] after[i]).0@) == p;
            lemma_frozen_at(after, i);
            if i < before.len() {
                assert(after[i] == before[i]);
                lemma_frozen_at(before, i);
            } else {
                assert(after[i] == after.last());
            }
        }
    }
    assert(frozen_map(after) =~= frozen_map(before).insert(path, entry));
}

/// What is noted after an entry has been taken out.
proof fn lemma_frozen_taken(before: Seq<(Vec<String>, DirEntry)>, at: int)
    requires
        paths_differ(before),
        0 <= at < before.len(),
    ensures
        paths_differ(before.remove(at)),
        frozen_map(before.remove(at)) == frozen_map(before).remove(names_of(before[at].0@)),
{
    let after = before.remove(at);
    let path = names_of(before[at].0@);
    assert forall|i: int, j: int| 0 <= i < j < after.len() implies names_of(
        (#[trigger] after[i]).0@,
    ) != names_of((#[trigger] after[j]).0@) by {
        let oi = if i < at { i } else { i + 1 };
        let oj = if j < at { j } else { j + 1 };
        assert(names_of(before[oi].0@) != names_of(before[oj].0@));
    }
    assert forall|p: Seq<Seq<char>>| frozen_map(after).contains_key(p) <==> frozen_map(
        before,
    ).remove(path).contains_key(p) by {
        if frozen_map(after).contains_key(p) {
            let i = choose|i: int| 0 <= i < after.len() && names_of((#[trigger] after[i]).0@) == p;
            let oi = if i < at { i } else { i + 1 };
            assert(names_of(before[oi].0@) == p);
            if oi < at {
                assert(names_of(before[oi].0@) != names_of(before[at].0@));
            } else {
                assert(names_of(before[at].0@) != names_of(before[oi].0@));
            }
        }
        if p != path && frozen_map(before).contains_key(p) {
            let i = choose|i: int|
                0 <= i < before.len() && names_of((#[trigger] before[i]).0@) == p;
            let ni = if i < at { i } else { i - 1 };
            assert(names_of(after[ni].0@) == p);
        }
    }
    assert forall|p: Seq<Seq<char>>| frozen_map(after).contains_key(p) implies frozen_map(
        after,
    )[p] == frozen_map(before).remove(path)[p] by {
        let i = choose|i: int| 0 <= i < after.len() && names_of((#[trigger] after[i]).0@) == p;
        lemma_frozen_at(after, i);
        let oi = if i < at { i } else { i + 1 };
        assert(before[oi] == after[i]);
        lemma_frozen_at(before, oi);
    }
    assert(frozen_map(after) =~= frozen_map(before).remove(path));
}

impl ResolvedEntry {
    /// The directory, if this is one.
    pub fn dir(&self) -> (out: Option<Dir>)
        ensures
            match out {
                Some(dir) => *self == ResolvedEntry::Dir(dir),
                None => self is File,
            },
    {
        match self {
            ResolvedEntry::Dir(dir) => Some(dir.clone()),
            _ => None,
        }
    }

    /// The file, if this is one.
    pub fn file(&self) -> (out: Option<File>)
        ensures
            match out {
                Some(file) => *self == ResolvedEntry::File(file),
                None => self is Dir,
            },
    {
        match self {
            ResolvedEntry::File(file) => Some(file.clone()),
            _ => None,
        }
    }
}

} // verus!
