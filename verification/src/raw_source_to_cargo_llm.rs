//! Turning a C project into a Cargo project with the help of a language model: what the
//! model is asked, and what is made of its answer.

use crate::full_source::CargoPackage;
use crate::full_source::RawSource;
use crate::fs::parse;
use crate::fs::parsed;
use crate::fs::steps_of;
use crate::fs::Step;
use crate::fs::set_fault;
use crate::fs::sets;
use crate::fs::PathComponent;
use crate::fs::RawDir;
use crate::fs::RawEntry;
use crate::fs::SetFileError;
use crate::id_set::IdSet;
use crate::identify_project_kind::ProjectKind;
use crate::ir::HarvestIR;
use crate::ir::Holds;
use crate::text::chars;
use crate::tools::MightWriteOutcome;
use crate::ir::holders;
use crate::ir::the_first;
use vstd::prelude::*;
use vstd::string::StringExecFns;

verus! {

/// The text `text` without `mark` at its start, or as it is if it does not start with
/// `mark`.
pub open spec fn without_prefix(text: Seq<char>, mark: Seq<char>) -> Seq<char> {
    if mark.len() <= text.len() && text.subrange(0, mark.len() as int) == mark {
        text.skip(mark.len() as int)
    } else {
        text
    }
}

/// The text `text` without `mark` at its end, or as it is if it does not end with `mark`.
pub open spec fn without_suffix(text: Seq<char>, mark: Seq<char>) -> Seq<char> {
    if mark.len() <= text.len() && text.skip(text.len() - mark.len()) == mark {
        text.take(text.len() - mark.len())
    } else {
        text
    }
}

/// The answer `response` of the model without the fence that models like to put round JSON:
/// three backticks at the start, then the word `json`, and three backticks at the end. Each
/// of the three is taken away where it is there.
pub open spec fn unfenced(response: Seq<char>) -> Seq<char> {
    without_suffix(without_prefix(without_prefix(response, "```"@), "json"@), "```"@)
}

/// Tells whether the part of `text` from `from` to `to` starts with `mark`.
fn starts_with(text: &Vec<char>, from: usize, to: usize, mark: &Vec<char>) -> (out: bool)
    requires
        from <= to <= text@.len(),
    ensures
        out == (mark@.len() <= to - from && text@.subrange(from as int, from + mark@.len())
            == mark@),
{
    if mark.len() > to - from {
        return false;
    }
    let mut i: usize = 0;
    while i < mark.len()
        invariant
            i <= mark@.len(),
            from + mark@.len() <= to <= text@.len(),
            forall|j: int| 0 <= j < i ==> text@[from + j] == mark@[j],
        decreases mark.len() - i,
    {
        if text[from + i] != mark[i] {
            assert(text@.subrange(from as int, from + mark@.len())[i as int] != mark@[i as int]);
            return false;
        }
        i = i + 1;
    }
    assert(text@.subrange(from as int, from + mark@.len()) =~= mark@);
    true
}

/// Where the part of `text` from `from` to `to` starts once `mark` is taken away from its
/// start, if it starts with `mark`.
fn after_prefix(text: &Vec<char>, from: usize, to: usize, mark: &Vec<char>) -> (out: usize)
    requires
        from <= to <= text@.len(),
    ensures
        from <= out <= to,
        text@.subrange(out as int, to as int) == without_prefix(
            text@.subrange(from as int, to as int),
            mark@,
        ),
{
    let ghost part = text@.subrange(from as int, to as int);
    if starts_with(text, from, to, mark) {
        proof {
            assert(part.subrange(0, mark@.len() as int) =~= text@.subrange(
                from as int,
                from + mark@.len(),
            ));
            assert(text@.subrange(from + mark@.len(), to as int) =~= part.skip(
                mark@.len() as int,
            ));
        }
        from + mark.len()
    } else {
        proof {
            if mark@.len() <= part.len() {
                assert(part.subrange(0, mark@.len() as int) =~= text@.subrange(
                    from as int,
                    from + mark@.len(),
                ));
            }
        }
        from
    }
}

/// Where the part of `text` from `from` to `to` ends once `mark` is taken away from its end,
/// if it ends with `mark`.
fn before_suffix(text: &Vec<char>, from: usize, to: usize, mark: &Vec<char>) -> (out: usize)
    requires
        from <= to <= text@.len(),
    ensures
        from <= out <= to,
        text@.subrange(from as int, out as int) == without_suffix(
            text@.subrange(from as int, to as int),
            mark@,
        ),
{
    let ghost part = text@.subrange(from as int, to as int);
    if mark.len() > to - from {
        return to;
    }
    let at = to - mark.len();
    proof {
        assert(part.skip(part.len() - mark@.len()) =~= text@.subrange(
            at as int,
            at + mark@.len(),
        ));
    }
    if starts_with(text, at, to, mark) {
        proof {
            assert(text@.subrange(from as int, at as int) =~= part.take(
                part.len() - mark@.len(),
            ));
        }
        at
    } else {
        to
    }
}

/// Takes the fence off the answer `response` of the model.
pub fn unfence(response: &str) -> (out: String)
    ensures
        out@ == unfenced(response@),
{
    let text = chars(response);
    let fence = chars("```");
    let word = chars("json");
    proof {
        assert(text@.subrange(0, text@.len() as int) =~= text@);
    }
    let to = text.len();
    let opened = after_prefix(&text, 0, to, &fence);
    let from = after_prefix(&text, opened, to, &word);
    let to = before_suffix(&text, from, to, &fence);
    let mut out = String::new();
    let mut i: usize = from;
    assert(out@ =~= text@.subrange(from as int, from as int));
    while i < to
        invariant
            from <= i <= to <= text@.len(),
            out@ == text@.subrange(from as int, i as int),
        decreases to - i,
    {
        out.push(text[i]);
        i = i + 1;
        assert(out@ =~= text@.subrange(from as int, i as int));
    }
    out
}

/// `states` is what an empty directory holds at first and after each of the first `upto` of
/// the files `files` has been made in it, one after the other, each at its path and with its
/// contents.
pub open spec fn made_in_turn(
    states: Seq<Map<Seq<char>, RawEntry>>,
    files: Seq<(Seq<Step>, Seq<u8>)>,
    upto: int,
) -> bool {
    &&& 0 <= upto <= files.len()
    &&& states.len() == upto + 1
    &&& states[0] == Map::<Seq<char>, RawEntry>::empty()
    &&& forall|i: int|
        0 <= i < upto ==> sets(#[trigger] states[i], states[i + 1], files[i].0, files[i].1, Ok(()))
}

/// What comes of making the files `files` in an empty directory, one after the other: `Ok`
/// with what the directory holds when all are made, or `Err` with the error of the first
/// that cannot be made.
pub open spec fn tree_made(
    files: Seq<(Seq<Step>, Seq<u8>)>,
    out: Result<Map<Seq<char>, RawEntry>, SetFileError>,
) -> bool {
    exists|states: Seq<Map<Seq<char>, RawEntry>>, upto: int|
        #[trigger] made_in_turn(states, files, upto) && match out {
            Ok(dir) => upto == files.len() && states.last() == dir,
            Err(error) => upto < files.len() && set_fault(states.last(), files[upto].0) == Some(
                error,
            ),
        }
}

/// The files `files`, each with the steps of its path and its contents.
pub open spec fn files_by_steps(files: Seq<(Vec<PathComponent>, Vec<u8>)>) -> Seq<
    (Seq<Step>, Seq<u8>),
> {
    files.map_values(|file: (Vec<PathComponent>, Vec<u8>)| (steps_of(file.0@), file.1@))
}

/// The files `files`, each with the steps of its path and its contents.
pub open spec fn files_by_path(files: Seq<(String, Vec<u8>)>) -> Seq<(Seq<Step>, Seq<u8>)> {
    files.map_values(|file: (String, Vec<u8>)| (parsed(file.0@), file.1@))
}

/// The directory tree that holds the files `files`, each given by the steps of its path and
/// its contents. The files are made one after the other as [`RawDir::set_file_at`] makes
/// them, and the first that cannot be made ends the work with its error.
pub fn tree_of(files: Vec<(Vec<PathComponent>, Vec<u8>)>) -> (out: Result<RawDir, SetFileError>)
    ensures
        tree_made(
            files_by_steps(files@),
            match out {
                Ok(dir) => Ok(dir@),
                Err(error) => Err(error),
            },
        ),
{
    let mut files = files;
    let ghost all = files_by_steps(files@);
    let ghost given = files@;
    let mut reversed: Vec<(Vec<PathComponent>, Vec<u8>)> = Vec::new();
    while files.len() > 0
        invariant
            files@.len() + reversed@.len() == given.len(),
            files@ == given.take(files@.len() as int),
            forall|i: int|
                0 <= i < reversed@.len() ==> #[trigger] reversed@[i] == given[given.len() - 1 - i],
        decreases files.len(),
    {
        let last = files.pop().unwrap();
        reversed.push(last);
        assert(files@ =~= given.take(files@.len() as int));
    }
    let mut out = RawDir::default();
    let mut failure: Option<SetFileError> = None;
    let ghost mut states: Seq<Map<Seq<char>, RawEntry>> = seq![out@];
    while reversed.len() > 0 && failure.is_none()
        invariant
            all == files_by_steps(given),
            failure is None ==> states.len() - 1 + reversed@.len() == given.len(),
            forall|i: int|
                0 <= i < reversed@.len() ==> #[trigger] reversed@[i] == given[given.len() - 1 - i],
            made_in_turn(states, all, states.len() - 1),
            states.last() == out@,
            failure matches Some(error) ==> states.len() - 1 < all.len() && set_fault(
                out@,
                all[states.len() - 1].0,
            ) == Some(error),
        decreases reversed.len(),
    {
        let ghost before = out@;
        let ghost done = states.len() - 1;
        let ghost next = reversed@.last();
        let (path, contents) = reversed.pop().unwrap();
        proof {
            assert(next == given[done]);
            assert(all[done] == (steps_of(path@), contents@));
        }
        let made = out.set_file_at(&path, contents);
        match made {
            Ok(()) => {
                proof {
                    let longer = states.push(out@);
                    assert forall|i: int| 0 <= i < done + 1 implies sets(
                        #[trigger] longer[i],
                        longer[i + 1],
                        all[i].0,
                        all[i].1,
                        Ok(()),
                    ) by {
                        if i < done {
                            assert(sets(states[i], states[i + 1], all[i].0, all[i].1, Ok(())));
                        }
                    }
                    states = longer;
                }
            },
            Err(error) => {
                failure = Some(error);
            },
        }
    }
    match failure {
        None => {
            assert(made_in_turn(states, all, all.len() as int));
            Ok(out)
        },
        Some(error) => {
            assert(made_in_turn(states, all, states.len() - 1));
            Err(error)
        },
    }
}

/// The cargo package with the files `files`, each given by its path and its contents, as the
/// model named them.
pub fn package_of(files: Vec<(String, Vec<u8>)>) -> (out: Result<CargoPackage, SetFileError>)
    ensures
        tree_made(
            files_by_path(files@),
            match out {
                Ok(package) => Ok(package.dir@),
                Err(error) => Err(error),
            },
        ),
{
    let mut files = files;
    let ghost all = files@;
    let mut reversed: Vec<(Vec<PathComponent>, Vec<u8>)> = Vec::new();
    while files.len() > 0
        invariant
            files@.len() + reversed@.len() == all.len(),
            files@ == all.take(files@.len() as int),
            forall|i: int|
                0 <= i < reversed@.len() ==> steps_of((#[trigger] reversed@[i]).0@) == parsed(
                    all[all.len() - 1 - i].0@,
                ) && reversed@[i].1@ == all[all.len() - 1 - i].1@,
        decreases files.len(),
    {
        let (path, contents) = files.pop().unwrap();
        reversed.push((parse(path.as_str()), contents));
        assert(files@ =~= all.take(files@.len() as int));
    }
    let mut split: Vec<(Vec<PathComponent>, Vec<u8>)> = Vec::new();
    while reversed.len() > 0
        invariant
            split@.len() + reversed@.len() == all.len(),
            forall|i: int|
                0 <= i < reversed@.len() ==> steps_of((#[trigger] reversed@[i]).0@) == parsed(
                    all[all.len() - 1 - i].0@,
                ) && reversed@[i].1@ == all[all.len() - 1 - i].1@,
            forall|i: int|
                0 <= i < split@.len() ==> steps_of((#[trigger] split@[i]).0@) == parsed(all[i].0@)
                    && split@[i].1@ == all[i].1@,
        decreases reversed.len(),
    {
        let next = reversed.pop().unwrap();
        split.push(next);
    }
    assert(files_by_steps(split@) =~= files_by_path(all));
    match tree_of(split) {
        Ok(dir) => Ok(CargoPackage { dir }),
        Err(error) => Err(error),
    }
}

/// The tool that asks a language model to turn the raw source into a cargo package.
pub struct RawSourceToCargoLlm;

impl RawSourceToCargoLlm {
    /// The name of the tool.
    pub fn name() -> (out: &'static str)
        ensures
            out@ == "raw_source_to_cargo_llm"@,
    {
        "raw_source_to_cargo_llm"
    }

    /// Tells whether the tool can run on `ir`: it needs a raw source and the kind of the
    /// project to be there, and writes no identifier that is there.
    pub fn ready<R: Holds<RawSource> + Holds<ProjectKind>>(ir: &HarvestIR<R>) -> (out:
        MightWriteOutcome)
        ensures
            match out {
                MightWriteOutcome::TryAgain => holders::<R, RawSource>(ir@) == Set::<u64>::empty()
                    || holders::<R, ProjectKind>(ir@) == Set::<u64>::empty(),
                MightWriteOutcome::Runnable(ids) => ids@ == Set::<u64>::empty() && holders::<
                    R,
                    RawSource,
                >(ir@) != Set::<u64>::empty() && holders::<R, ProjectKind>(ir@) != Set::<
                    u64,
                >::empty(),
                MightWriteOutcome::NotRunnable => false,
            },
    {
        let kinds = ir.get_parts::<ProjectKind>();
        let sources = ir.get_parts::<RawSource>();
        proof {
            if kinds@.len() == 0 {
                assert forall|k: u64| !holders::<R, ProjectKind>(ir@).contains(k) by {
                    let listed = crate::ir::numbers(
                        kinds@.map_values(|e: (crate::id::Id, &ProjectKind)| e.0),
                    );
                    assert(!listed.contains(k));
                }
                assert(holders::<R, ProjectKind>(ir@) =~= Set::<u64>::empty());
            } else {
                assert(holders::<R, ProjectKind>(ir@).contains(kinds@[0].0@));
            }
            if sources@.len() == 0 {
                assert forall|k: u64| !holders::<R, RawSource>(ir@).contains(k) by {
                    let listed = crate::ir::numbers(
                        sources@.map_values(|e: (crate::id::Id, &RawSource)| e.0),
                    );
                    assert(!listed.contains(k));
                }
                assert(holders::<R, RawSource>(ir@) =~= Set::<u64>::empty());
            } else {
                assert(holders::<R, RawSource>(ir@).contains(sources@[0].0@));
            }
        }
        if kinds.len() > 0 && sources.len() > 0 {
            MightWriteOutcome::Runnable(IdSet::new())
        } else {
            MightWriteOutcome::TryAgain
        }
    }
}

/// The name of the backend that is chosen outright, not looked up by its name.
pub const OPEN_ROUTER: &'static str = "openrouter";

/// What the model is told of its task when the project builds an executable.
pub const SYSTEM_PROMPT_EXECUTABLE: &'static str =
    "You are a translator from C to Rust. You are given the files of a C project that builds an executable. Answer with the files of a Cargo project that builds an executable which behaves as the C program does: a Cargo.toml and the Rust sources under src/, with src/main.rs as the entry point. Answer with JSON only.";

/// What the model is told of its task when the project builds a library.
pub const SYSTEM_PROMPT_LIBRARY: &'static str =
    "You are a translator from C to Rust. You are given the files of a C project that builds a library. Answer with the files of a Cargo project that builds a library which offers what the C library offers: a Cargo.toml and the Rust sources under src/, with src/lib.rs as the root. Answer with JSON only.";

/// The message that opens the request to the model.
pub const REQUEST_OPENING: &'static str =
    "Please translate the following C project into a Rust project including Cargo manifest:";

/// The message that closes the request to the model.
pub const REQUEST_CLOSING: &'static str = "return as JSON";

/// What `value` gives, as text: nothing if it is absent, and nothing if it is empty.
pub open spec fn given_text(value: Option<String>) -> Option<Seq<char>> {
    match value {
        Some(text) => if text@.len() > 0 {
            Some(text@)
        } else {
            None
        },
        None => None,
    }
}

impl RawSourceToCargoLlm {
    /// Tells whether `backend` names the backend that is chosen outright.
    pub fn is_open_router(backend: &str) -> (out: bool)
        ensures
            out == (backend@ == OPEN_ROUTER@),
    {
        crate::text::same(backend, OPEN_ROUTER)
    }

    /// What the model is told of its task, which depends on what the project builds.
    pub fn system_prompt(kind: ProjectKind) -> (out: &'static str)
        ensures
            out@ == match kind {
                ProjectKind::Executable => SYSTEM_PROMPT_EXECUTABLE@,
                ProjectKind::Library => SYSTEM_PROMPT_LIBRARY@,
            },
    {
        match kind {
            ProjectKind::Executable => SYSTEM_PROMPT_EXECUTABLE,
            ProjectKind::Library => SYSTEM_PROMPT_LIBRARY,
        }
    }

    /// A setting of the model's service that is passed on only if it says something: an
    /// address or a key that is absent or empty is left out of the call.
    pub fn given(value: &Option<String>) -> (out: Option<&str>)
        ensures
            match out {
                Some(text) => given_text(*value) == Some(text@),
                None => given_text(*value) is None,
            },
    {
        match value {
            Some(text) => if text.as_str().unicode_len() > 0 {
                Some(text.as_str())
            } else {
                None
            },
            None => None,
        }
    }

    /// The messages of the request to the model, in their order: the opening, the files of
    /// the project as the text `files`, and the closing.
    pub fn request(files: String) -> (out: Vec<String>)
        ensures
            out@.len() == 3,
            out@[0]@ == REQUEST_OPENING@,
            out@[1] == files,
            out@[2]@ == REQUEST_CLOSING@,
    {
        let mut out: Vec<String> = Vec::new();
        out.push(String::from_str(REQUEST_OPENING));
        out.push(files);
        out.push(String::from_str(REQUEST_CLOSING));
        out
    }

    /// What the tool works on: the files of the first raw source in `ir`, and the first
    /// statement of what the project builds. There is nothing to work on if either is
    /// missing.
    pub fn inputs<R: Holds<RawSource> + Holds<ProjectKind>>(ir: &HarvestIR<R>) -> (out: Option<
        (&RawDir, ProjectKind),
    >)
        ensures
            out is Some <==> holders::<R, RawSource>(ir@) != Set::<u64>::empty() && holders::<
                R,
                ProjectKind,
            >(ir@) != Set::<u64>::empty(),
            out matches Some((dir, kind)) ==> {
                &&& exists|k: u64|
                    {
                        &&& #[trigger] holders::<R, RawSource>(ir@).contains(k)
                        &&& forall|j: u64| holders::<R, RawSource>(ir@).contains(j) ==> k <= j
                        &&& Holds::<RawSource>::held(&ir@[k]) matches Some(source)
                        &&& source.dir == *dir
                    }
                &&& exists|k: u64|
                    {
                        &&& #[trigger] holders::<R, ProjectKind>(ir@).contains(k)
                        &&& forall|j: u64| holders::<R, ProjectKind>(ir@).contains(j) ==> k <= j
                        &&& Holds::<ProjectKind>::held(&ir@[k]) == Some(kind)
                    }
            },
    {
        let source = the_first::<R, RawSource>(ir);
        let kind = the_first::<R, ProjectKind>(ir);
        match (source, kind) {
            (Some(source), Some(kind)) => Some((&source.dir, *kind)),
            _ => None,
        }
    }
}

/// The secret that opens the service of a language model. It does not show itself.
pub struct ApiKey(pub String);

impl ApiKey {
    /// What is shown in place of the key.
    pub fn redacted(&self) -> (out: &'static str)
        ensures
            out@ == "********"@,
    {
        "********"
    }
}

} // verus!
