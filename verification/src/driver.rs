//! The decisions of the driver loop.
//!
//! The loop takes a snapshot of the IR, offers each queued tool to [`offer`], which asks the
//! tool whether it can run and launches it if the organizer grants the edit, then waits for
//! at least one running tool to finish and commits what it did, and starts over. It ends
//! when no tool is running after a pass.

use crate::diagnostics::started;
use crate::diagnostics::ToolId;
use crate::edit::new_edit_outcome;
use crate::edit::untouched;
use crate::edit::NewEditError;
use crate::edit::Organizer;
use crate::ir::HarvestIR;
use crate::runner::run_key;
use crate::runner::Launch;
use crate::runner::SpawnToolError;
use crate::runner::ToolRunner;
use crate::scheduler::all_decided;
use crate::scheduler::pass_ends;
use crate::scheduler::retried;
use crate::scheduler::NextInvocationOutcome;
use crate::tools::MightWriteContext;
use crate::tools::MightWriteOutcome;
use crate::tools::Tool;
use crate::edit::committed;
use crate::edit::Edit;
use crate::id_set::IdSet;
use crate::diagnostics::ToolRunId;
use crate::ir::Representation;
use crate::runner::closes;
use crate::runner::Completion;
use vstd::prelude::*;

verus! {

/// What is to be done with a tool that was offered.
pub enum Offer<R, T: ?Sized> {
    /// The tool is admitted. The embedding program runs it, and tells the scheduler not to
    /// try it again.
    Launch(Launch<R, T>),
    /// The tool cannot run and never will: the scheduler forgets it.
    NotRunnable,
    /// The tool is not ready yet: the scheduler tries it later.
    NotReady(Box<T>),
    /// An identifier that the tool might write is in use. It lost a race against another
    /// edit: the scheduler tries it later.
    IdInUse(Box<T>),
    /// The tool named an identifier that is not in the IR. The tool is at fault: the
    /// scheduler forgets it.
    UnknownId,
}

/// The runner and the organizer are as they were.
pub open spec fn untouched_state<R>(
    runner_before: ToolRunner,
    runner_after: ToolRunner,
    organizer_before: Organizer<R>,
    organizer_after: Organizer<R>,
) -> bool {
    &&& runner_after.version() == runner_before.version()
    &&& runner_after.reporter() == runner_before.reporter()
    &&& runner_after.running() == runner_before.running()
    &&& organizer_after.ir() == organizer_before.ir()
    &&& organizer_after.identity() == organizer_before.identity()
    &&& organizer_after.in_use() == organizer_before.in_use()
}

impl<R, T: ?Sized> Offer<R, T> {
    /// What the scheduler is to do with the tool, or the launch that the embedding program
    /// is to carry out before it tells the scheduler not to try the tool again.
    pub fn outcome<E>(self) -> (out: Result<Launch<R, T>, NextInvocationOutcome<Box<T>, E>>)
        ensures
            match self {
                Offer::Launch(launch) => out == Ok::<
                    Launch<R, T>,
                    NextInvocationOutcome<Box<T>, E>,
                >(launch),
                Offer::NotRunnable | Offer::UnknownId => out == Err::<
                    Launch<R, T>,
                    NextInvocationOutcome<Box<T>, E>,
                >(NextInvocationOutcome::DontTryAgain),
                Offer::NotReady(tool) | Offer::IdInUse(tool) => out == Err::<
                    Launch<R, T>,
                    NextInvocationOutcome<Box<T>, E>,
                >(NextInvocationOutcome::TryLater(tool)),
            },
    {
        match self {
            Offer::Launch(launch) => Ok(launch),
            Offer::NotRunnable => Err(NextInvocationOutcome::DontTryAgain),
            Offer::UnknownId => Err(NextInvocationOutcome::DontTryAgain),
            Offer::NotReady(tool) => Err(NextInvocationOutcome::TryLater(tool)),
            Offer::IdInUse(tool) => Err(NextInvocationOutcome::TryLater(tool)),
        }
    }
}

/// `out` is what is to be done with `tool`, which has answered `readiness` to the question
/// whether it can run, and the decision led from `runner_before` and `organizer_before` to
/// `runner_after` and `organizer_after`.
///
/// A tool that is not runnable is forgotten, and one that is not ready is tried later. A
/// runnable tool is launched if the organizer grants the edit. If an identifier that it might
/// write is in use, it lost a race against another edit and is tried later. If it names an
/// identifier that is not in the IR, the tool is at fault and is forgotten. Nothing changes
/// unless the tool is launched.
pub open spec fn decided<R, T: ?Sized>(
    runner_before: ToolRunner,
    runner_after: ToolRunner,
    organizer_before: Organizer<R>,
    organizer_after: Organizer<R>,
    tool: Box<T>,
    tool_id: ToolId,
    readiness: MightWriteOutcome,
    out: Offer<R, T>,
) -> bool {
    &&& !(out is Launch) ==> untouched_state(
        runner_before,
        runner_after,
        organizer_before,
        organizer_after,
    )
    &&& match readiness {
        MightWriteOutcome::NotRunnable => out is NotRunnable,
        MightWriteOutcome::TryAgain => out matches Offer::NotReady(returned) && returned == tool,
        MightWriteOutcome::Runnable(might_write) => match new_edit_outcome(
            organizer_before.ir().dom(),
            organizer_before.in_use(),
            might_write@,
        ) {
            Ok(_) => {
                &&& out matches Offer::Launch(launch)
                &&& launch.tool == tool
                &&& launch.edit@ == untouched::<R>(might_write@)
                &&& launch.edit.organizer() == organizer_before.identity()
                &&& started(
                    runner_before.reporter(),
                    tool_id,
                    launch.reporter.run(),
                    runner_after.reporter(),
                )
                &&& !runner_before.running().contains(run_key(launch.reporter.run()))
                &&& runner_after.running() == runner_before.running().insert(
                    run_key(launch.reporter.run()),
                )
                &&& runner_after.version() == runner_before.version()
                &&& organizer_after.ir() == organizer_before.ir()
                &&& organizer_after.identity() == organizer_before.identity()
                &&& organizer_after.in_use() == organizer_before.in_use().union(might_write@)
            },
            Err(NewEditError::IdInUse) => out matches Offer::IdInUse(returned) && returned
                == tool,
            Err(NewEditError::UnknownId) => out is UnknownId,
        },
    }
}

/// Decides what to do with `tool`, which has answered `readiness` to the question whether it
/// can run, as [`decided`] says.
pub fn decide<R, T: ?Sized>(
    runner: &mut ToolRunner,
    edit_organizer: &mut Organizer<R>,
    tool: Box<T>,
    tool_id: ToolId,
    readiness: MightWriteOutcome,
) -> (out: Offer<R, T>)
    requires
        old(runner).reporter().run_count(tool_id@) < u64::MAX,
    ensures
        decided(
            *old(runner),
            *final(runner),
            *old(edit_organizer),
            *final(edit_organizer),
            tool,
            tool_id,
            readiness,
            out,
        ),
{
    match readiness {
        MightWriteOutcome::NotRunnable => Offer::NotRunnable,
        MightWriteOutcome::TryAgain => Offer::NotReady(tool),
        MightWriteOutcome::Runnable(might_write) => match runner.spawn_tool(
            edit_organizer,
            tool,
            tool_id,
            &might_write,
        ) {
            Ok(launch) => Offer::Launch(launch),
            Err((SpawnToolError::NewEdit(NewEditError::IdInUse), tool)) => Offer::IdInUse(tool),
            Err((_, _)) => Offer::UnknownId,
        },
    }
}

/// Asks `tool` whether it can run on `snapshot`, and decides what to do with it as [`decide`]
/// does with the tool's answer: the result is what [`decided`] says of an answer that the
/// tool may give on `snapshot`, and of the tool as it is after it has answered. A run that
/// starts goes by the name that the tool had when it was offered. The IR and the version
/// stay as they are, and no run ends.
pub fn offer<R, C, P, T: Tool<R, C, P> + ?Sized>(
    runner: &mut ToolRunner,
    edit_organizer: &mut Organizer<R>,
    tool: Box<T>,
    snapshot: &HarvestIR<R>,
) -> (out: Offer<R, T>)
    requires
        old(runner).reporter().run_count(tool.name_spec()) < u64::MAX,
    ensures
        exists|asked: Box<T>, tool_id: ToolId, readiness: MightWriteOutcome|
            {
                &&& tool.answers(snapshot@, readiness)
                &&& tool_id@ == tool.name_spec()
                &&& #[trigger] decided(
                    *old(runner),
                    *final(runner),
                    *old(edit_organizer),
                    *final(edit_organizer),
                    asked,
                    tool_id,
                    readiness,
                    out,
                )
            },
        final(runner).version() == old(runner).version(),
        old(runner).running().subset_of(final(runner).running()),
        final(edit_organizer).ir() == old(edit_organizer).ir(),
        final(edit_organizer).identity() == old(edit_organizer).identity(),
        old(edit_organizer).in_use().subset_of(final(edit_organizer).in_use()),
        out matches Offer::Launch(launch) ==> {
            &&& launch.edit.organizer() == old(edit_organizer).identity()
            &&& !old(runner).running().contains(run_key(launch.reporter.run()))
            &&& final(runner).running() == old(runner).running().insert(
                run_key(launch.reporter.run()),
            )
            &&& launch.reporter.run().tool()@ == tool.name_spec()
            &&& launch.reporter.run().number() == old(runner).reporter().run_count(
                tool.name_spec(),
            ) + 1
        },
        !(out is Launch) ==> untouched_state(
            *old(runner),
            *final(runner),
            *old(edit_organizer),
            *final(edit_organizer),
        ),
{
    let mut tool = tool;
    let tool_id = ToolId::new(&*tool);
    let readiness = tool.might_write(MightWriteContext::new(snapshot));
    decide(runner, edit_organizer, tool, tool_id, readiness)
}

/// A failure disturbs nothing that comes after it: once a run that failed has been closed,
/// a tool that is runnable and asks for identifiers of the IR that are free is launched, and
/// when it has run with success its edit is applied as the next version of the IR, on top of
/// the IR that the failed run left as it was.
pub proof fn lemma_tools_run_after_a_failure<R: Representation, T: ?Sized>(
    runners: Seq<ToolRunner>,
    organizers: Seq<Organizer<R>>,
    failed_run: ToolRunId,
    failed: Edit<R>,
    closed: Completion<R>,
    tool: Box<T>,
    tool_id: ToolId,
    might_write: IdSet,
    offered: Offer<R, T>,
    worked: Edit<R>,
    committed_as: Completion<R>,
)
    requires
        runners.len() == 4,
        organizers.len() == 4,
        closes(
            runners[0],
            runners[1],
            organizers[0],
            organizers[1],
            failed_run,
            Err::<Edit<R>, Edit<R>>(failed),
            closed,
        ),
        might_write@.subset_of(organizers[1].ir().dom()),
        might_write@.disjoint(organizers[1].in_use()),
        decided(
            runners[1],
            runners[2],
            organizers[1],
            organizers[2],
            tool,
            tool_id,
            MightWriteOutcome::Runnable(might_write),
            offered,
        ),
        offered matches Offer::Launch(launch) ==> {
            &&& worked.organizer() == launch.edit.organizer()
            &&& closes(
                runners[2],
                runners[3],
                organizers[2],
                organizers[3],
                launch.reporter.run(),
                Ok::<Edit<R>, Edit<R>>(worked),
                committed_as,
            )
        },
    ensures
        organizers[1].ir() == organizers[0].ir(),
        offered is Launch,
        committed_as matches Completion::Committed { version, report, snapshot } && version
            == runners[0].version() + 1 && (*snapshot)@ == committed(organizers[0].ir(), worked@),
        organizers[3].ir() == committed(organizers[0].ir(), worked@),
        runners[3].version() == runners[0].version() + 1,
{
}

/// The tools that the driver loop has to do with: how many are queued, and how many are
/// running.
pub struct Load {
    /// The length of the scheduler's queue.
    pub queued: nat,
    /// The number of runs under way.
    pub running: nat,
}

/// One round of the driver loop leads from `before` to `after`: the pass launches some of
/// the queued tools and forgets some, the loop goes on because a tool is running then, and
/// it waits until at least one running tool has finished.
pub open spec fn round(before: Load, after: Load) -> bool {
    exists|launched: nat, forgotten: nat, finished: nat|
        {
            &&& launched + forgotten <= before.queued
            &&& 1 <= finished <= before.running + launched
            &&& #[trigger] settles(before, launched, forgotten, finished) == after
        }
}

/// The load after a round that launched `launched` tools, forgot `forgotten` and saw
/// `finished` finish.
pub open spec fn settles(before: Load, launched: nat, forgotten: nat, finished: nat) -> Load {
    Load {
        queued: (before.queued - launched - forgotten) as nat,
        running: (before.running + launched - finished) as nat,
    }
}

/// How many of `outcomes` tell the scheduler to forget the invocation.
pub open spec fn forgotten_among<T, E>(outcomes: Seq<NextInvocationOutcome<T, E>>) -> nat
    decreases outcomes.len(),
{
    if outcomes.len() == 0 {
        0
    } else {
        forgotten_among(outcomes.drop_last()) + if outcomes.last() is DontTryAgain {
            1nat
        } else {
            0nat
        }
    }
}

/// Where no outcome is an error, each invocation is either forgotten or sent back to the
/// queue.
pub proof fn lemma_forgotten_or_retried<T, E>(outcomes: Seq<NextInvocationOutcome<T, E>>)
    requires
        all_decided(outcomes),
    ensures
        forgotten_among(outcomes) + retried(outcomes).len() == outcomes.len(),
    decreases outcomes.len(),
{
    if outcomes.len() > 0 {
        assert forall|i: int| 0 <= i < outcomes.drop_last().len() implies !((
        #[trigger] outcomes.drop_last()[i]) is Error) by {
            assert(!(outcomes[i] is Error));
        }
        assert(!(outcomes[outcomes.len() - 1] is Error));
        lemma_forgotten_or_retried(outcomes.drop_last());
    }
}

/// What the driver loop does in one turn is a round: a pass of the scheduler over `queue`
/// that ends without an error and leaves `left`, in which the runs `launched` start, each for
/// an invocation that the scheduler is told to forget, followed by the end of the runs
/// `finished`, of which there is at least one. `running` are the runs under way before the
/// pass.
pub proof fn lemma_turn_is_a_round<T, E>(
    queue: Seq<T>,
    outcomes: Seq<NextInvocationOutcome<T, E>>,
    left: Seq<T>,
    running: Set<(Seq<char>, nat)>,
    launched: Set<(Seq<char>, nat)>,
    finished: Set<(Seq<char>, nat)>,
)
    requires
        pass_ends(queue, outcomes, Ok::<(), E>(()), left),
        running.finite(),
        launched.finite(),
        launched.disjoint(running),
        launched.len() <= forgotten_among(outcomes),
        finished.subset_of(running.union(launched)),
        finished.len() >= 1,
    ensures
        round(
            Load { queued: queue.len(), running: running.len() },
            Load {
                queued: left.len(),
                running: running.union(launched).difference(finished).len(),
            },
        ),
{
    lemma_forgotten_or_retried(outcomes);
    let all = running.union(launched);
    vstd::set_lib::lemma_set_disjoint_lens(running, launched);
    vstd::set_lib::lemma_len_subset(finished, all);
    vstd::set_lib::lemma_set_difference_len(all, finished);
    assert(all.intersect(finished) =~= finished);
    let before = Load { queued: queue.len(), running: running.len() };
    let forgotten = (forgotten_among(outcomes) - launched.len()) as nat;
    assert(settles(before, launched.len(), forgotten, finished.len()) == (Load {
        queued: left.len(),
        running: all.difference(finished).len(),
    }));
}

/// `loads` are the loads at the start of the rounds of a driver loop to which no tool is
/// added.
pub open spec fn rounds(loads: Seq<Load>) -> bool {
    forall|i: int| 0 <= i < loads.len() - 1 ==> round(#[trigger] loads[i], loads[i + 1])
}

/// Quiescence: a driver loop to which no tool is added, and in which every tool that runs
/// finishes, goes through no more rounds than there are tools. Each round ends with one tool
/// fewer queued or running, so the loop comes to the point where nothing runs after a pass,
/// where it ends.
pub proof fn lemma_loop_ends(loads: Seq<Load>)
    requires
        loads.len() > 0,
        rounds(loads),
    ensures
        loads.len() - 1 <= loads[0].queued + loads[0].running,
        loads.last().queued + loads.last().running + (loads.len() - 1) <= loads[0].queued
            + loads[0].running,
    decreases loads.len(),
{
    if loads.len() > 1 {
        let init = loads.drop_last();
        assert forall|i: int| 0 <= i < init.len() - 1 implies round(
            #[trigger] init[i],
            init[i + 1],
        ) by {
            assert(round(loads[i], loads[i + 1]));
        }
        lemma_loop_ends(init);
        let k = loads.len() - 2;
        assert(round(loads[k], loads[k + 1]));
    }
}

} // verus!
