//! Lifting a source code project into the IR.

use crate::edit::Edit;
use crate::full_source::RawSource;
use crate::fs::RawDir;
use crate::id::Id;
use crate::id_set::IdSet;
use crate::ir::Holds;
use crate::tools::MightWriteOutcome;
use vstd::prelude::*;
use vstd::string::StringExecFns;

verus! {

/// The tool that loads the project in a directory as a raw source.
pub struct LoadRawSource {
    directory: String,
}

impl LoadRawSource {
    /// The tool that loads the project in `directory`.
    pub fn new(directory: &str) -> (out: LoadRawSource)
        ensures
            out.directory_spec() == directory@,
    {
        LoadRawSource { directory: String::from_str(directory) }
    }

    /// The path of the directory that the tool loads.
    pub closed spec fn directory_spec(&self) -> Seq<char> {
        self.directory@
    }

    /// The path of the directory that the tool loads.
    pub fn directory(&self) -> (out: &str)
        ensures
            out@ == self.directory_spec(),
    {
        self.directory.as_str()
    }

    /// The name of the tool.
    pub fn name() -> (out: &'static str)
        ensures
            out@ == "load_raw_source"@,
    {
        "load_raw_source"
    }

    /// The tool can always run. It adds a representation, and writes no identifier that is
    /// in the IR.
    pub fn ready() -> (out: MightWriteOutcome)
        ensures
            out matches MightWriteOutcome::Runnable(ids) && ids@ == Set::<u64>::empty(),
    {
        MightWriteOutcome::Runnable(IdSet::new())
    }

    /// Adds the project with the files `dir` to `edit` as a raw source. Returns the
    /// identifier of the new representation, or `None`, with the edit unchanged, when no
    /// identifier is left.
    pub fn load<R: Holds<RawSource>>(edit: &mut Edit<R>, dir: RawDir) -> (out: Option<Id>)
        ensures
            final(edit).organizer() == old(edit).organizer(),
            match out {
                Some(id) => exists|added: R|
                    added.held() == Some(RawSource { dir }) && final(edit)@ == old(
                        edit,
                    )@.insert(id@, Some(added)),
                None => final(edit)@ == old(edit)@,
            },
    {
        edit.add_representation(R::wrap(RawSource { dir }))
    }
}

} // verus!
