//! Telling whether a C project builds a library or an executable.

use crate::full_source::RawSource;
use crate::fs::found;
use crate::fs::steps_of;
use crate::fs::PathComponent;
use crate::fs::Step;
use crate::edit::Edit;
use crate::id_set::IdSet;
use crate::ir::HarvestIR;
use crate::edit::Pending;
use crate::ir::part_of;
use crate::ir::sorted_ids;
use crate::ir::Holds;
use crate::ir::Representation;
use crate::tools::MightWriteContext;
use crate::tools::MightWriteOutcome;
use crate::tools::RunContext;
use crate::tools::Tool;
use vstd::prelude::*;
use vstd::string::StringExecFns;
use vstd::utf8::encode_utf8;

verus! {

/// What a project builds.
#[derive(Clone, Copy, Debug, PartialEq, Eq, Structural)]
pub enum ProjectKind {
    /// A library.
    Library,
    /// An executable.
    Executable,
}

impl Representation for ProjectKind {
    open spec fn name_spec(&self) -> Seq<char> {
        "KindAndName"@
    }

    open spec fn text_spec(&self) -> Seq<char> {
        match self {
            ProjectKind::Library => "Library"@,
            ProjectKind::Executable => "Executable"@,
        }
    }

    fn name(&self) -> (out: &'static str) {
        "KindAndName"
    }

    fn render(&self) -> (out: String) {
        match self {
            ProjectKind::Library => String::from_str("Library"),
            ProjectKind::Executable => String::from_str("Executable"),
        }
    }
}

/// The name of the file that tells what a project builds.
pub const CMAKELISTS: &'static str = "CMakeLists.txt";

/// A line begins at the place `at` of `text`: at the start of the text, or after a line feed.
pub open spec fn line_begins(text: Seq<u8>, at: int) -> bool {
    0 <= at <= text.len() && (at == 0 || text[at - 1] == 10u8)
}

/// Some line of `text` starts with `mark`.
pub open spec fn has_line_with(text: Seq<u8>, mark: Seq<u8>) -> bool {
    exists|at: int|
        #[trigger] line_begins(text, at) && at + mark.len() <= text.len() && text.subrange(
            at,
            at + mark.len(),
        ) == mark
}

/// What the project with the build description `cmakelists` builds: an executable if a line
/// starts with `add_executable(`, else a library if a line starts with `add_library(`. Where
/// neither is so, the description does not tell.
pub open spec fn kind_of(cmakelists: Seq<u8>) -> Option<ProjectKind> {
    if has_line_with(cmakelists, encode_utf8("add_executable("@)) {
        Some(ProjectKind::Executable)
    } else if has_line_with(cmakelists, encode_utf8("add_library("@)) {
        Some(ProjectKind::Library)
    } else {
        None
    }
}

/// Tells whether some line of `text` starts with `mark`.
pub fn any_line_starts_with(text: &[u8], mark: &[u8]) -> (out: bool)
    ensures
        out == has_line_with(text@, mark@),
{
    if mark.len() > text.len() {
        assert(!has_line_with(text@, mark@));
        return false;
    }
    if mark.len() == 0 {
        proof {
            assert(line_begins(text@, 0));
            assert(text@.subrange(0, 0) =~= mark@);
        }
        return true;
    }
    let last = text.len() - mark.len();
    let mut at: usize = 0;
    while at <= last
        invariant
            mark@.len() > 0,
            text@.len() <= usize::MAX,
            last == text@.len() - mark@.len(),
            at <= last + 1,
            forall|earlier: int|
                0 <= earlier < at ==> !(#[trigger] line_begins(text@, earlier) && text@.subrange(
                    earlier,
                    earlier + mark@.len(),
                ) == mark@),
        decreases last + 1 - at,
    {
        if at == 0 || text[at - 1] == 10 {
            let mut matched: usize = 0;
            while matched < mark.len() && text[at + matched] == mark[matched]
                invariant
                    at <= last,
                    text@.len() <= usize::MAX,
                    last == text@.len() - mark@.len(),
                    matched <= mark@.len(),
                    forall|i: int| 0 <= i < matched ==> text@[at + i] == mark@[i],
                decreases mark.len() - matched,
            {
                matched = matched + 1;
            }
            if matched == mark.len() {
                proof {
                    assert(text@.subrange(at as int, at + mark@.len()) =~= mark@);
                    assert(line_begins(text@, at as int));
                }
                return true;
            }
            proof {
                assert(text@.subrange(at as int, at + mark@.len())[matched as int] != mark@[matched as int]);
            }
        }
        at = at + 1;
    }
    proof {
        assert(!has_line_with(text@, mark@)) by {
            if has_line_with(text@, mark@) {
                let w = choose|w: int|
                    #[trigger] line_begins(text@, w) && w + mark@.len() <= text@.len()
                        && text@.subrange(w, w + mark@.len()) == mark@;
                assert(0 <= w < at);
            }
        }
    }
    false
}

impl ProjectKind {
    /// Tells what the project with the build description `cmakelists` builds, if the
    /// description tells.
    pub fn detect(cmakelists: &[u8]) -> (out: Option<ProjectKind>)
        ensures
            out == kind_of(cmakelists@),
    {
        if any_line_starts_with(cmakelists, "add_executable(".as_bytes()) {
            Some(ProjectKind::Executable)
        } else if any_line_starts_with(cmakelists, "add_library(".as_bytes()) {
            Some(ProjectKind::Library)
        } else {
            None
        }
    }
}

/// The steps of the path to the build description in a project.
pub fn cmakelists_path() -> (out: Vec<PathComponent>)
    ensures
        steps_of(out@) == seq![Step::Normal(CMAKELISTS@)],
{
    let mut out: Vec<PathComponent> = Vec::new();
    out.push(PathComponent::Normal(String::from_str(CMAKELISTS)));
    assert(steps_of(out@) =~= seq![Step::Normal(CMAKELISTS@)]);
    out
}

/// What the project `source` builds, if it has a build description that tells: what the
/// file [`CMAKELISTS`] at the top of the project says.
pub open spec fn identified(source: RawSource) -> Option<ProjectKind> {
    match found(source.dir@, seq![Step::Normal(CMAKELISTS@)]) {
        Ok(cmakelists) => kind_of(cmakelists@),
        Err(_) => None,
    }
}

/// What the tool finds out from the first `upto` of the representations of `ir` with the
/// identifiers `ids`: for each raw source among them whose build description tells what the
/// project builds, what that is.
pub open spec fn kinds_among<R: Holds<RawSource>>(ir: Map<u64, R>, ids: Seq<u64>, upto: int)
    -> Seq<ProjectKind>
    decreases upto,
{
    if upto <= 0 {
        Seq::empty()
    } else {
        kinds_among(ir, ids, upto - 1) + match Holds::<RawSource>::held(&ir[ids[upto - 1]]) {
            Some(source) => match identified(source) {
                Some(kind) => seq![kind],
                None => Seq::empty(),
            },
            None => Seq::empty(),
        }
    }
}

/// What the tool finds out from `ir`, going through the representations in ascending order
/// of their identifiers.
pub open spec fn kinds_of<R: Holds<RawSource>>(ir: Map<u64, R>) -> Seq<ProjectKind> {
    kinds_among(ir, sorted_ids(ir), sorted_ids(ir).len() as int)
}

/// The pending writes that come of `before` when the first `upto` of the representations
/// `writes` are set to be written, each under its identifier, one after the other.
pub open spec fn written<R>(before: Pending<R>, writes: Seq<(u64, R)>, upto: int) -> Pending<R>
    decreases upto,
{
    if upto <= 0 {
        before
    } else {
        written(before, writes, upto - 1).insert(writes[upto - 1].0, Some(writes[upto - 1].1))
    }
}

/// The tool has set `writes` to be written, which turned the pending writes `before` into
/// `after`: one representation for each of the first kinds of `kinds`, and for all of them if
/// `done` is set.
pub open spec fn adds_kinds<R: Holds<ProjectKind>>(
    before: Pending<R>,
    after: Pending<R>,
    kinds: Seq<ProjectKind>,
    writes: Seq<(u64, R)>,
    done: bool,
) -> bool {
    &&& writes.len() <= kinds.len()
    &&& done == (writes.len() == kinds.len())
    &&& forall|i: int| 0 <= i < writes.len() ==> (#[trigger] writes[i]).1.held() == Some(kinds[i])
    &&& after == written(before, writes, writes.len() as int)
}

/// What the project `source` builds, if it has a build description that tells.
pub fn identify(source: &RawSource) -> (out: Option<ProjectKind>)
    ensures
        out == identified(*source),
{
    let path = cmakelists_path();
    match source.dir.get_file_at(&path) {
        Ok(cmakelists) => ProjectKind::detect(cmakelists.as_slice()),
        Err(_) => None,
    }
}

/// The tool that tells what each project in the IR builds.
pub struct IdentifyProjectKind;

/// `out` is the tool's answer on `ir`: it can run as soon as a raw source is there, writes no
/// identifier that is there, and is to be asked again as long as there is no raw source.
pub open spec fn ready_on<R: Holds<RawSource>>(ir: Map<u64, R>, out: MightWriteOutcome) -> bool {
    match out {
        MightWriteOutcome::TryAgain => forall|k: u64|
            ir.contains_key(k) ==> Holds::<RawSource>::held(&ir[k]) is None,
        MightWriteOutcome::Runnable(ids) => ids@ == Set::<u64>::empty() && exists|k: u64|
            ir.contains_key(k) && Holds::<RawSource>::held(&ir[k]) is Some,
        MightWriteOutcome::NotRunnable => false,
    }
}

/// A run of the tool on `snapshot` has turned the edit `before` into `after` and ended with
/// `out`: it has added what each raw source builds, in ascending order of the identifiers of
/// the raw sources, all of them if `out` is `Ok`, and the first of them if no identifier was
/// left for the next.
pub open spec fn identifies<R: Holds<RawSource> + Holds<ProjectKind>>(
    snapshot: Map<u64, R>,
    before: Edit<R>,
    after: Edit<R>,
    out: Result<(), String>,
) -> bool {
    &&& after.organizer() == before.organizer()
    &&& exists|writes: Seq<(u64, R)>| #[trigger]
        adds_kinds(before@, after@, kinds_of(snapshot), writes, out is Ok)
}

impl IdentifyProjectKind {
    /// Tells whether the tool can run on `ir`: it needs a raw source to be there, and writes
    /// no identifier that is there.
    pub fn ready<R: Holds<RawSource>>(ir: &HarvestIR<R>) -> (out: MightWriteOutcome)
        ensures
            ready_on(ir@, out),
    {
        let sources = ir.get_parts::<RawSource>();
        if sources.len() == 0 {
            proof {
                assert forall|k: u64| ir@.contains_key(k) implies Holds::<RawSource>::held(
                    &ir@[k],
                ) is None by {
                    let listed = crate::ir::numbers(
                        sources@.map_values(|e: (crate::id::Id, &RawSource)| e.0),
                    );
                    assert(!listed.contains(k));
                }
            }
            MightWriteOutcome::TryAgain
        } else {
            proof {
                assert(ir@.contains_key(sources@[0].0@));
            }
            MightWriteOutcome::Runnable(IdSet::new())
        }
    }

    /// Adds to `edit`, for each raw source in `snapshot` whose build description tells what
    /// the project builds, what that is, in ascending order of the identifiers of the raw
    /// sources. Each addition takes a new identifier. The work ends with an error when no
    /// identifier is left, and what was added up to then stays in the edit.
    pub fn identify_all<R: Holds<RawSource> + Holds<ProjectKind>>(
        snapshot: &HarvestIR<R>,
        edit: &mut Edit<R>,
    ) -> (out: Result<(), String>)
        ensures
            identifies(snapshot@, *old(edit), *final(edit), out),
    {
        let all = snapshot.iter();
        let ghost ids = crate::ir::numbers(all@.map_values(|e: (crate::id::Id, &R)| e.0));
        let ghost kinds = kinds_of(snapshot@);
        let ghost mut writes: Seq<(u64, R)> = Seq::empty();
        let mut failed = false;
        let mut i: usize = 0;
        proof {
            crate::ir::lemma_sorted_ids(snapshot@, ids);
        }
        while i < all.len() && !failed
            invariant
                i <= all.len(),
                crate::ir::lists(all@, snapshot@),
                ids == crate::ir::numbers(all@.map_values(|e: (crate::id::Id, &R)| e.0)),
                kinds == kinds_among(snapshot@, ids, ids.len() as int),
                edit.organizer() == old(edit).organizer(),
                edit@ == written(old(edit)@, writes, writes.len() as int),
                forall|j: int|
                    0 <= j < writes.len() ==> Holds::<ProjectKind>::held(
                        &(#[trigger] writes[j]).1,
                    ) == Some(kinds_among(snapshot@, ids, ids.len() as int)[j]),
                writes.len() <= kinds_among(snapshot@, ids, i as int).len(),
                !failed ==> writes.len() == kinds_among(snapshot@, ids, i as int).len(),
                failed ==> writes.len() < kinds_among(snapshot@, ids, i as int).len(),
                kinds_among(snapshot@, ids, i as int) == kinds_among(
                    snapshot@,
                    ids,
                    ids.len() as int,
                ).take(kinds_among(snapshot@, ids, i as int).len() as int),
            decreases all.len() - i + if failed { 0int } else { 1int },
        {
            proof {
                assert(ids[i as int] == all@[i as int].0@);
                assert(*all@[i as int].1 == snapshot@[ids[i as int]]);
                lemma_kinds_grow(snapshot@, ids, i + 1, ids.len() as int);
                lemma_kinds_grow(snapshot@, ids, i as int, i + 1);
            }
            let found = match part_of::<R, RawSource>(all[i].1) {
                Some(source) => identify(source),
                None => None,
            };
            match found {
                Some(kind) => {
                    let representation = R::wrap(kind);
                    match edit.add_representation(representation) {
                        Some(id) => {
                            proof {
                                let before = writes;
                                writes = writes.push((id@, representation));
                                assert(writes.drop_last() =~= before);
                                assert(written(old(edit)@, writes, writes.len() - 1) == written(
                                    old(edit)@,
                                    before,
                                    before.len() as int,
                                )) by {
                                    lemma_written_prefix(old(edit)@, before, writes, before.len() as int);
                                }
                                let now = kinds_among(snapshot@, ids, i + 1);
                                assert(now.last() == kind);
                                assert(kinds_among(snapshot@, ids, ids.len() as int)[now.len() - 1]
                                    == now[now.len() - 1]);
                            }
                            i = i + 1;
                        },
                        None => {
                            failed = true;
                            i = i + 1;
                        },
                    }
                },
                None => {
                    i = i + 1;
                },
            }
        }
        proof {
            if !failed {
                assert(kinds_among(snapshot@, ids, i as int) == kinds);
            } else {
                lemma_kinds_grow(snapshot@, ids, i as int, ids.len() as int);
            }
        }
        let out = if failed {
            Err(String::from_str("no identifier is left"))
        } else {
            Ok(())
        };
        proof {
            assert(adds_kinds(old(edit)@, edit@, kinds_of(snapshot@), writes, out is Ok));
        }
        out
    }
}

/// What is found out from more representations begins with what is found out from fewer.
proof fn lemma_kinds_grow<R: Holds<RawSource>>(ir: Map<u64, R>, ids: Seq<u64>, fewer: int, more: int)
    requires
        0 <= fewer <= more,
    ensures
        kinds_among(ir, ids, fewer).len() <= kinds_among(ir, ids, more).len(),
        kinds_among(ir, ids, fewer) == kinds_among(ir, ids, more).take(
            kinds_among(ir, ids, fewer).len() as int,
        ),
    decreases more - fewer,
{
    if fewer < more {
        lemma_kinds_grow(ir, ids, fewer, more - 1);
        assert(kinds_among(ir, ids, fewer) =~= kinds_among(ir, ids, more).take(
            kinds_among(ir, ids, fewer).len() as int,
        ));
    } else {
        assert(kinds_among(ir, ids, fewer) =~= kinds_among(ir, ids, more).take(
            kinds_among(ir, ids, fewer).len() as int,
        ));
    }
}

/// The first writes of a longer list do what they do in a shorter one.
proof fn lemma_written_prefix<R>(
    before: Pending<R>,
    shorter: Seq<(u64, R)>,
    longer: Seq<(u64, R)>,
    upto: int,
)
    requires
        0 <= upto <= shorter.len() <= longer.len(),
        forall|i: int| 0 <= i < shorter.len() ==> shorter[i] == longer[i],
    ensures
        written(before, shorter, upto) == written(before, longer, upto),
    decreases upto,
{
    if upto > 0 {
        lemma_written_prefix(before, shorter, longer, upto - 1);
    }
}

impl<R: Holds<RawSource> + Holds<ProjectKind>, C, P> Tool<R, C, P> for IdentifyProjectKind {
    open spec fn name_spec(&self) -> Seq<char> {
        "identify_project_kind"@
    }

    open spec fn answers(&self, ir: Map<u64, R>, out: MightWriteOutcome) -> bool {
        ready_on(ir, out)
    }

    open spec fn runs(
        &self,
        snapshot: Map<u64, R>,
        before: Edit<R>,
        after: Edit<R>,
        out: Result<(), String>,
    ) -> bool {
        identifies(snapshot, before, after, out)
    }

    fn name(&self) -> (out: &'static str) {
        "identify_project_kind"
    }

    fn might_write(&mut self, context: MightWriteContext<'_, R>) -> (out: MightWriteOutcome) {
        IdentifyProjectKind::ready(context.ir)
    }

    fn run(self: Box<Self>, context: RunContext<'_, R, C, P>) -> (out: Result<(), String>) {
        let RunContext { ir_edit, ir_snapshot, config: _, reporter: _ } = context;
        IdentifyProjectKind::identify_all(&*ir_snapshot, ir_edit)
    }
}

} // verus!
