//! The interface between the engine and the tools that it runs.

use crate::edit::Edit;
use crate::id_set::IdSet;
use crate::ir::HarvestIR;
use std::sync::Arc;
use vstd::prelude::*;

verus! {

/// A tool that the engine may run: one prospective invocation, made with whatever arguments
/// the tool needs.
///
/// `R` is the type of the representations in the IR, `C` the configuration of the run, `P`
/// the handle through which a running tool reports diagnostics.
pub trait Tool<R, C, P> {
    /// The name of the tool, in snake case: what [`Tool::name`] returns.
    open spec fn name_spec(&self) -> Seq<char> {
        arbitrary()
    }

    /// This tool's name. It is used to make the names of directories and files.
    fn name(&self) -> (out: &'static str)
        ensures
            out@ == self.name_spec(),
    ;

    /// What the tool promises of the answer `out` that it gives when it is asked whether it
    /// can run on `ir`. A tool promises nothing unless it says otherwise.
    open spec fn answers(&self, ir: Map<u64, R>, out: MightWriteOutcome) -> bool {
        true
    }

    /// What the tool promises of a run on the snapshot `snapshot` that turns the edit `before`
    /// into `after` and ends with `out`. A tool promises nothing unless it says otherwise.
    open spec fn runs(
        &self,
        snapshot: Map<u64, R>,
        before: Edit<R>,
        after: Edit<R>,
        out: Result<(), String>,
    ) -> bool {
        true
    }

    /// Tells whether the tool can run now, and if it can, which identifiers of the IR it might
    /// write. This may be called several times before the tool runs, and an answer of
    /// `Runnable` does not mean that the tool will run.
    fn might_write(&mut self, context: MightWriteContext<'_, R>) -> (out: MightWriteOutcome)
        ensures
            old(self).answers(context.ir@, out),
    ;

    /// Runs the tool, once. The changes that it makes to `context.ir_edit` are applied to the
    /// IR if it returns `Ok`, and given up if it returns `Err`.
    fn run(self: Box<Self>, context: RunContext<'_, R, C, P>) -> (out: Result<(), String>)
        ensures
            self.runs(
                (*context.ir_snapshot)@,
                *old(context.ir_edit),
                *final(context.ir_edit),
                out,
            ),
    ;
}

/// What a tool sees when it is asked whether it can run.
pub struct MightWriteContext<'a, R> {
    /// A snapshot of the IR.
    pub ir: &'a HarvestIR<R>,
}

impl<'a, R> MightWriteContext<'a, R> {
    /// The context that shows `ir`.
    pub fn new(ir: &'a HarvestIR<R>) -> (out: Self)
        ensures
            out.ir == ir,
    {
        MightWriteContext { ir }
    }
}

/// The answer of a tool that was asked whether it can run.
pub enum MightWriteOutcome {
    /// The tool cannot run and never will: the scheduler forgets it.
    NotRunnable,
    /// The tool can run, and might write the representations under these identifiers.
    Runnable(IdSet),
    /// The tool cannot run now but may be able to later: the scheduler asks again after
    /// another tool has changed the IR.
    TryAgain,
}

/// What a tool works with while it runs.
pub struct RunContext<'a, R, C, P> {
    /// The changes that are applied to the IR when the tool has run with success.
    pub ir_edit: &'a mut Edit<R>,
    /// The IR as it stood when the tool was launched: the one that the tool last saw in
    /// `might_write`.
    pub ir_snapshot: Arc<HarvestIR<R>>,
    /// The configuration of the run.
    pub config: Arc<C>,
    /// The handle through which the tool reports diagnostics.
    pub reporter: P,
}

} // verus!
