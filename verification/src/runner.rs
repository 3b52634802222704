//! The bookkeeping of the tools that are running.
//!
//! The runner decides whether a tool may start, keeps the list of the runs that are under way,
//! and commits or gives up each run's edit when the run is over. It starts no thread: the
//! embedding program runs the tool and hands back what came of it.

use crate::diagnostics::IrReport;
use crate::diagnostics::Reporter;
use crate::diagnostics::ToolId;
use crate::diagnostics::ToolReporter;
use crate::diagnostics::ToolRunId;
use crate::diagnostics::reports;
use crate::diagnostics::started;
use crate::edit::committed;
use crate::edit::new_edit_outcome;
use crate::edit::untouched;
use crate::edit::Edit;
use crate::edit::NewEditError;
use crate::edit::Organizer;
use crate::id_set::IdSet;
use crate::ir::HarvestIR;
use crate::ir::Representation;
use crate::text::same;
use std::sync::Arc;
use vstd::prelude::*;

verus! {

/// An error of the operating system, as the standard library reports it.
#[verifier::external_type_specification]
#[verifier::external_body]
pub struct ExIoError(std::io::Error);

/// Why a tool was not launched.
#[derive(Debug)]
pub enum SpawnToolError {
    /// The run's place in the diagnostics directory could not be set up.
    IoError(std::io::Error),
    /// The organizer did not grant the edit.
    NewEdit(NewEditError),
}

/// What the embedding program needs to run a tool that the runner has admitted.
pub struct Launch<R, T: ?Sized> {
    /// The tool.
    pub tool: Box<T>,
    /// The edit that collects the tool's changes.
    pub edit: Edit<R>,
    /// The handle of the run.
    pub reporter: ToolReporter,
}

/// What became of a run that is over.
pub enum Completion<R> {
    /// The run's edit was applied. The IR has the version `version`, `snapshot` is the IR of
    /// that version, and `report` is what is to be written down of it.
    Committed { version: u64, report: IrReport, snapshot: Arc<HarvestIR<R>> },
    /// The tool failed. Its edit was given up, and the IR is as it was.
    Failed,
    /// The tool handed back an edit of another organizer, which comes back here. The IR is as
    /// it was.
    Rejected(Edit<R>),
}

/// The runs that are under way, the version of the IR, and the count of the runs.
pub struct ToolRunner {
    invocations: Vec<ToolRunId>,
    ir_version: u64,
    reporter: Reporter,
}

/// What tells a run from every other: the name of its tool and its number.
pub open spec fn run_key(tool_run: ToolRunId) -> (Seq<char>, nat) {
    (tool_run.tool()@, tool_run.number())
}

/// The runs in `runs`, each as the name of its tool and its number.
pub open spec fn run_keys(runs: Seq<ToolRunId>) -> Set<(Seq<char>, nat)> {
    runs.map_values(|tool_run: ToolRunId| run_key(tool_run)).to_set()
}

/// No run of `runs` has a higher number than `reporter` has counted runs of its tool.
spec fn numbers_counted(runs: Seq<ToolRunId>, reporter: Reporter) -> bool {
    forall|i: int|
        0 <= i < runs.len() ==> (#[trigger] runs[i]).number() <= reporter.run_count(
            runs[i].tool()@,
        )
}

/// One more run in the list is one more key in the set.
proof fn lemma_run_keys_push(runs: Seq<ToolRunId>, tool_run: ToolRunId)
    ensures
        run_keys(runs.push(tool_run)) == run_keys(runs).insert(run_key(tool_run)),
{
    let keys = runs.map_values(|r: ToolRunId| run_key(r));
    assert(runs.push(tool_run).map_values(|r: ToolRunId| run_key(r)) =~= keys.push(
        run_key(tool_run),
    ));
    keys.lemma_push_to_set_commute(run_key(tool_run));
}

/// The run `tool_run` has been closed with `result`, which led from the runner `runner` and
/// the organizer `organizer` to `runner_after` and `organizer_after`, and came to `out`.
///
/// The run is struck off the list. The edit of a tool that ran with success is applied, which
/// makes the next version of the IR, and `out` holds what is to be written down of it. The
/// edit of a tool that failed is given up, which leaves the IR as it was. Either way what the
/// edit might write is free again. An edit of another organizer comes back untouched.
pub open spec fn closes<R: Representation>(
    runner: ToolRunner,
    runner_after: ToolRunner,
    organizer: Organizer<R>,
    organizer_after: Organizer<R>,
    tool_run: ToolRunId,
    result: Result<Edit<R>, Edit<R>>,
    out: Completion<R>,
) -> bool {
    &&& runner_after.reporter() == runner.reporter()
    &&& runner_after.running() == runner.running().remove(run_key(tool_run))
    &&& organizer_after.identity() == organizer.identity()
    &&& match result {
        Ok(edit) => if organizer.made(edit) {
            &&& out matches Completion::Committed { version, report, snapshot }
            &&& version == runner.version() + 1
            &&& (*snapshot)@ == organizer_after.ir()
            &&& runner_after.version() == runner.version() + 1
            &&& organizer_after.ir() == committed(organizer.ir(), edit@)
            &&& organizer_after.in_use() == organizer.in_use().difference(edit.writable())
            &&& reports(report, version, organizer_after.ir())
        } else {
            &&& out matches Completion::Rejected(returned)
            &&& returned == edit
            &&& runner_after.version() == runner.version()
            &&& organizer_after.ir() == organizer.ir()
            &&& organizer_after.in_use() == organizer.in_use()
        },
        Err(edit) => {
            &&& runner_after.version() == runner.version()
            &&& organizer_after.ir() == organizer.ir()
            &&& if organizer.made(edit) {
                &&& out is Failed
                &&& organizer_after.in_use() == organizer.in_use().difference(edit.writable())
            } else {
                &&& out matches Completion::Rejected(returned)
                &&& returned == edit
                &&& organizer_after.in_use() == organizer.in_use()
            }
        },
    }
}

/// The runs of `results` have been closed one after the other, which led from the first of
/// `runners` and `organizers` to the last, by way of the others, and came to `out`.
pub open spec fn closes_in_turn<R: Representation>(
    runners: Seq<ToolRunner>,
    organizers: Seq<Organizer<R>>,
    results: Seq<(ToolRunId, Result<Edit<R>, Edit<R>>)>,
    out: Seq<Completion<R>>,
) -> bool {
    &&& runners.len() == results.len() + 1
    &&& organizers.len() == results.len() + 1
    &&& out.len() == results.len()
    &&& forall|i: int|
        0 <= i < results.len() ==> closes(
            #[trigger] runners[i],
            runners[i + 1],
            organizers[i],
            organizers[i + 1],
            results[i].0,
            results[i].1,
            out[i],
        )
}

impl ToolRunner {
    #[verifier::type_invariant]
    spec fn numbered(&self) -> bool {
        numbers_counted(self.invocations@, self.reporter)
    }

    /// The runs that are under way, each as the name of its tool and its number.
    pub closed spec fn running(&self) -> Set<(Seq<char>, nat)> {
        run_keys(self.invocations@)
    }

    /// The version of the IR: how many edits have been applied.
    pub closed spec fn version(&self) -> nat {
        self.ir_version as nat
    }

    /// The count of the runs that have been started.
    pub closed spec fn reporter(&self) -> Reporter {
        self.reporter
    }

    /// The runs under way are finitely many.
    pub proof fn lemma_running_finite(&self)
        ensures
            self.running().finite(),
    {
        vstd::seq_lib::seq_to_set_is_finite(
            self.invocations@.map_values(|tool_run: ToolRunId| run_key(tool_run)),
        );
    }

    /// A runner with no run under way, before the first version of the IR.
    pub fn new(reporter: Reporter) -> (out: ToolRunner)
        ensures
            out.running() == Set::<(Seq<char>, nat)>::empty(),
            out.version() == 0,
            out.reporter() == reporter,
    {
        let out = ToolRunner { invocations: Vec::new(), ir_version: 0, reporter };
        assert(out.running() =~= Set::<(Seq<char>, nat)>::empty());
        out
    }

    /// Tells whether no run is under way.
    pub fn is_idle(&self) -> (out: bool)
        ensures
            out == (self.running() == Set::<(Seq<char>, nat)>::empty()),
    {
        let out = self.invocations.len() == 0;
        proof {
            let keys = self.invocations@.map_values(|tool_run: ToolRunId| run_key(tool_run));
            if !out {
                assert(keys.to_set().contains(keys[0]));
            } else {
                assert(keys.to_set() =~= Set::<(Seq<char>, nat)>::empty());
            }
        }
        out
    }

    /// The version of the IR.
    pub fn ir_version(&self) -> (out: u64)
        ensures
            out == self.version(),
    {
        self.ir_version
    }

    /// How many runs of `tool` have been started.
    pub fn runs_started(&self, tool: ToolId) -> (out: u64)
        ensures
            out == self.reporter().run_count(tool@),
    {
        self.reporter.runs_started(tool)
    }

    /// Tells whether the run `tool_run` is under way.
    pub fn is_running(&self, tool_run: ToolRunId) -> (out: bool)
        ensures
            out == self.running().contains(run_key(tool_run)),
    {
        let found = position(&self.invocations, tool_run);
        found.is_some()
    }

    /// Admits `tool` to run with the right to write `might_write`: asks the organizer for the
    /// edit, gives the run its number and lists it as under way. Where the organizer refuses,
    /// the tool comes back with the reason, and nothing has changed.
    pub fn spawn_tool<R, T: ?Sized>(
        &mut self,
        edit_organizer: &mut Organizer<R>,
        tool: Box<T>,
        tool_id: ToolId,
        might_write: &IdSet,
    ) -> (out: Result<Launch<R, T>, (SpawnToolError, Box<T>)>)
        requires
            old(self).reporter().run_count(tool_id@) < u64::MAX,
        ensures
            final(self).version() == old(self).version(),
            final(edit_organizer).ir() == old(edit_organizer).ir(),
            final(edit_organizer).identity() == old(edit_organizer).identity(),
            match out {
                Ok(launch) => {
                    &&& new_edit_outcome(
                        old(edit_organizer).ir().dom(),
                        old(edit_organizer).in_use(),
                        might_write@,
                    ) is Ok
                    &&& final(edit_organizer).in_use() == old(edit_organizer).in_use().union(
                        might_write@,
                    )
                    &&& launch.tool == tool
                    &&& launch.edit@ == untouched::<R>(might_write@)
                    &&& launch.edit.organizer() == old(edit_organizer).identity()
                    &&& started(
                        old(self).reporter(),
                        tool_id,
                        launch.reporter.run(),
                        final(self).reporter(),
                    )
                    &&& !old(self).running().contains(run_key(launch.reporter.run()))
                    &&& final(self).running() == old(self).running().insert(
                        run_key(launch.reporter.run()),
                    )
                },
                Err((error, returned)) => {
                    &&& returned == tool
                    &&& error matches SpawnToolError::NewEdit(reason) && new_edit_outcome(
                        old(edit_organizer).ir().dom(),
                        old(edit_organizer).in_use(),
                        might_write@,
                    ) == Err::<(), NewEditError>(reason)
                    &&& final(edit_organizer).in_use() == old(edit_organizer).in_use()
                    &&& final(self).reporter() == old(self).reporter()
                    &&& final(self).running() == old(self).running()
                },
            },
    {
        let edit = match edit_organizer.new_edit(might_write) {
            Err(error) => {
                return Err((SpawnToolError::NewEdit(error), tool));
            },
            Ok(edit) => edit,
        };
        proof {
            use_type_invariant(&*self);
        }
        let mut invocations: Vec<ToolRunId> = Vec::new();
        std::mem::swap(&mut self.invocations, &mut invocations);
        let mut counts = Reporter::new();
        std::mem::swap(&mut self.reporter, &mut counts);
        let ghost before = invocations@;
        let ghost counts_before = counts;
        let reporter = counts.start_tool_run(tool_id);
        invocations.push(reporter.tool_run());
        proof {
            lemma_run_keys_push(before, reporter.run());
            assert(!run_keys(before).contains(run_key(reporter.run()))) by {
                let keys = before.map_values(|tool_run: ToolRunId| run_key(tool_run));
                if keys.to_set().contains(run_key(reporter.run())) {
                    let i = choose|i: int|
                        0 <= i < keys.len() && keys[i] == run_key(reporter.run());
                    assert(before[i].number() <= counts_before.run_count(before[i].tool()@));
                }
            }
            assert forall|i: int| 0 <= i < invocations@.len() implies (
            #[trigger] invocations@[i]).number() <= counts.run_count(invocations@[i].tool()@) by {
                if i < before.len() {
                    assert(before[i].number() <= counts_before.run_count(before[i].tool()@));
                }
            }
        }
        self.reporter = counts;
        self.invocations = invocations;
        Ok(Launch { tool, edit, reporter })
    }

    /// Takes back a launch that could not be carried out because of `error`: gives up the
    /// edit and strikes the run off the list. The run's number stays used.
    pub fn abandon<R, T: ?Sized>(
        &mut self,
        edit_organizer: &mut Organizer<R>,
        launch: Launch<R, T>,
        error: std::io::Error,
    ) -> (out: (SpawnToolError, Box<T>))
        ensures
            final(self).version() == old(self).version(),
            final(self).reporter() == old(self).reporter(),
            final(self).running() == old(self).running().remove(run_key(launch.reporter.run())),
            final(edit_organizer).ir() == old(edit_organizer).ir(),
            final(edit_organizer).identity() == old(edit_organizer).identity(),
            final(edit_organizer).in_use() == if launch.edit.organizer() == old(
                edit_organizer,
            ).identity() {
                old(edit_organizer).in_use().difference(launch.edit.writable())
            } else {
                old(edit_organizer).in_use()
            },
            out.0 matches SpawnToolError::IoError(reported) && reported == error,
            out.1 == launch.tool,
    {
        let Launch { tool, edit, reporter } = launch;
        self.strike(reporter.tool_run());
        let _ = edit_organizer.discard_edit(edit);
        (SpawnToolError::IoError(error), tool)
    }

    /// Closes the run `tool_run`, with the edit that the tool worked on: `Ok` if the tool ran
    /// with success, `Err` if it failed. The edit of a tool that ran with success is applied,
    /// which makes a new version of the IR; the edit of a tool that failed is given up, which
    /// leaves the IR as it was. Either way what the edit might write is free again.
    pub fn complete<R: Representation>(
        &mut self,
        edit_organizer: &mut Organizer<R>,
        tool_run: ToolRunId,
        result: Result<Edit<R>, Edit<R>>,
    ) -> (out: Completion<R>)
        requires
            result is Ok ==> old(self).version() < u64::MAX,
        ensures
            closes(
                *old(self),
                *final(self),
                *old(edit_organizer),
                *final(edit_organizer),
                tool_run,
                result,
                out,
            ),
    {
        self.strike(tool_run);
        match result {
            Ok(edit) => match edit_organizer.apply_edit(edit) {
                Ok(()) => {
                    proof {
                        use_type_invariant(&*self);
                    }
                    self.ir_version = self.ir_version + 1;
                    let snapshot = edit_organizer.snapshot();
                    let report = self.reporter.report_ir_version(self.ir_version, &*snapshot);
                    Completion::Committed { version: self.ir_version, report, snapshot }
                },
                Err((_, edit)) => Completion::Rejected(edit),
            },
            Err(edit) => match edit_organizer.discard_edit(edit) {
                Ok(()) => Completion::Failed,
                Err((_, edit)) => Completion::Rejected(edit),
            },
        }
    }

    /// Closes the runs of `results`, each with the edit that its tool worked on, in the order
    /// in which they are given, as [`ToolRunner::complete`] closes one. Returns whether any
    /// run was under way, and what the runs came to.
    pub fn process_tool_results<R: Representation>(
        &mut self,
        edit_organizer: &mut Organizer<R>,
        results: Vec<(ToolRunId, Result<Edit<R>, Edit<R>>)>,
    ) -> (out: (bool, Vec<Completion<R>>))
        requires
            old(self).version() + successes_among(results@, results@.len() as int)
                <= u64::MAX,
        ensures
            out.0 == (old(self).running() != Set::<(Seq<char>, nat)>::empty()),
            exists|runners: Seq<ToolRunner>, organizers: Seq<Organizer<R>>|
                {
                    &&& #[trigger] closes_in_turn(runners, organizers, results@, out.1@)
                    &&& runners[0] == *old(self)
                    &&& runners.last() == *final(self)
                    &&& organizers[0] == *old(edit_organizer)
                    &&& organizers.last() == *final(edit_organizer)
                },
    {
        let was_running = !self.is_idle();
        let ghost all = results@;
        let mut pending = results;
        let mut reversed: Vec<(ToolRunId, Result<Edit<R>, Edit<R>>)> = Vec::new();
        while pending.len() > 0
            invariant
                pending@.len() + reversed@.len() == all.len(),
                pending@ == all.take(pending@.len() as int),
                forall|i: int|
                    0 <= i < reversed@.len() ==> #[trigger] reversed@[i] == all[all.len() - 1 - i],
            decreases pending.len(),
        {
            let last = pending.pop().unwrap();
            reversed.push(last);
            assert(pending@ =~= all.take(pending@.len() as int));
        }
        let mut out: Vec<Completion<R>> = Vec::new();
        let ghost mut runners: Seq<ToolRunner> = seq![*self];
        let ghost mut organizers: Seq<Organizer<R>> = seq![*edit_organizer];
        while reversed.len() > 0
            invariant
                out@.len() + reversed@.len() == all.len(),
                forall|i: int|
                    0 <= i < reversed@.len() ==> #[trigger] reversed@[i] == all[all.len() - 1 - i],
                closes_in_turn(runners, organizers, all.take(out@.len() as int), out@),
                runners[0] == *old(self),
                runners.last() == *self,
                organizers[0] == *old(edit_organizer),
                organizers.last() == *edit_organizer,
                self.version() <= old(self).version() + successes_among(all, out@.len() as int),
                old(self).version() + successes_among(all, all.len() as int) <= u64::MAX,
            decreases reversed.len(),
        {
            let ghost done = out@.len() as int;
            let ghost next = reversed@.last();
            let ghost out_before = out@;
            let (tool_run, result) = reversed.pop().unwrap();
            proof {
                assert(next == all[done]);
                lemma_successes_grow(all, done + 1, all.len() as int);
            }
            let completion = self.complete(edit_organizer, tool_run, result);
            out.push(completion);
            proof {
                let longer_runners = runners.push(*self);
                let longer_organizers = organizers.push(*edit_organizer);
                let results_now = all.take(done + 1);
                assert forall|i: int| 0 <= i < results_now.len() implies closes(
                    #[trigger] longer_runners[i],
                    longer_runners[i + 1],
                    longer_organizers[i],
                    longer_organizers[i + 1],
                    results_now[i].0,
                    results_now[i].1,
                    out@[i],
                ) by {
                    if i < done {
                        assert(all.take(done)[i] == all[i]);
                        assert(closes(
                            runners[i],
                            runners[i + 1],
                            organizers[i],
                            organizers[i + 1],
                            all.take(done)[i].0,
                            all.take(done)[i].1,
                            out_before[i],
                        ));
                    }
                }
                runners = longer_runners;
                organizers = longer_organizers;
            }
        }
        let out = (was_running, out);
        proof {
            assert(all.take(all.len() as int) =~= all);
            assert(closes_in_turn(runners, organizers, results@, out.1@));
        }
        out
    }

    /// Strikes `tool_run` off the list of the runs that are under way.
    fn strike(&mut self, tool_run: ToolRunId)
        ensures
            final(self).version() == old(self).version(),
            final(self).reporter() == old(self).reporter(),
            final(self).running() == old(self).running().remove(run_key(tool_run)),
    {
        proof {
            use_type_invariant(&*self);
        }
        let ghost key = run_key(tool_run);
        let mut kept: Vec<ToolRunId> = Vec::new();
        let mut i: usize = 0;
        assert(run_keys(kept@) =~= run_keys(self.invocations@.take(0)).remove(key));
        while i < self.invocations.len()
            invariant
                i <= self.invocations.len(),
                *self == *old(self),
                key == run_key(tool_run),
                run_keys(kept@) == run_keys(self.invocations@.take(i as int)).remove(key),
                numbers_counted(self.invocations@, self.reporter),
                numbers_counted(kept@, self.reporter),
            decreases self.invocations.len() - i,
        {
            let candidate = self.invocations[i];
            let ghost kept_before = kept@;
            let keep = !same_run(candidate, tool_run);
            if keep {
                kept.push(candidate);
            }
            proof {
                assert(self.invocations@.take(i + 1) =~= self.invocations@.take(i as int).push(
                    candidate,
                ));
                lemma_run_keys_push(self.invocations@.take(i as int), candidate);
                if keep {
                    lemma_run_keys_push(kept_before, candidate);
                }
                assert(run_keys(kept@) =~= run_keys(self.invocations@.take(i + 1)).remove(key));
            }
            i = i + 1;
        }
        proof {
            assert(self.invocations@.take(self.invocations@.len() as int) =~= self.invocations@);
        }
        self.invocations = kept;
    }
}

/// How many of the first `upto` of `results` are of tools that ran with success.
pub open spec fn successes_among<R>(
    results: Seq<(ToolRunId, Result<Edit<R>, Edit<R>>)>,
    upto: int,
) -> nat
    decreases upto,
{
    if upto <= 0 {
        0
    } else {
        successes_among(results, upto - 1) + if results[upto - 1].1 is Ok {
            1nat
        } else {
            0nat
        }
    }
}

/// Among more results there are no fewer of tools that ran with success.
proof fn lemma_successes_grow<R>(
    results: Seq<(ToolRunId, Result<Edit<R>, Edit<R>>)>,
    fewer: int,
    more: int,
)
    requires
        fewer <= more,
    ensures
        successes_among(results, fewer) <= successes_among(results, more),
    decreases more - fewer,
{
    if fewer < more {
        lemma_successes_grow(results, fewer, more - 1);
    }
}

/// The runs of `results`, each as the name of its tool and its number.
pub open spec fn closed_runs<R>(results: Seq<(ToolRunId, Result<Edit<R>, Edit<R>>)>) -> Set<
    (Seq<char>, nat),
> {
    run_keys(results.map_values(|result: (ToolRunId, Result<Edit<R>, Edit<R>>)| result.0))
}

/// How many of `out` are edits that were applied.
pub open spec fn commits_among<R>(out: Seq<Completion<R>>) -> nat
    decreases out.len(),
{
    if out.len() == 0 {
        0
    } else {
        commits_among(out.drop_last()) + if out.last() is Committed {
            1nat
        } else {
            0nat
        }
    }
}

/// When runs have been closed one after the other, exactly those runs are no longer under
/// way, and the version of the IR has advanced by one for each edit that was applied.
pub proof fn lemma_closed_in_turn<R: Representation>(
    runners: Seq<ToolRunner>,
    organizers: Seq<Organizer<R>>,
    results: Seq<(ToolRunId, Result<Edit<R>, Edit<R>>)>,
    out: Seq<Completion<R>>,
)
    requires
        closes_in_turn(runners, organizers, results, out),
    ensures
        runners.last().running() == runners[0].running().difference(closed_runs(results)),
        runners.last().version() == runners[0].version() + commits_among(out),
        runners.last().reporter() == runners[0].reporter(),
    decreases results.len(),
{
    let ids = results.map_values(|result: (ToolRunId, Result<Edit<R>, Edit<R>>)| result.0);
    if results.len() == 0 {
        assert(closed_runs(results) =~= Set::<(Seq<char>, nat)>::empty()) by {
            assert(ids.map_values(|tool_run: ToolRunId| run_key(tool_run)) =~= Seq::<
                (Seq<char>, nat),
            >::empty());
        }
        assert(runners[0].running().difference(closed_runs(results)) =~= runners[0].running());
    } else {
        let last = results.len() - 1;
        let init = results.drop_last();
        assert(closes_in_turn(
            runners.drop_last(),
            organizers.drop_last(),
            init,
            out.drop_last(),
        )) by {
            assert forall|i: int| 0 <= i < init.len() implies closes(
                #[trigger] runners.drop_last()[i],
                runners.drop_last()[i + 1],
                organizers.drop_last()[i],
                organizers.drop_last()[i + 1],
                init[i].0,
                init[i].1,
                out.drop_last()[i],
            ) by {
                assert(closes(
                    runners[i],
                    runners[i + 1],
                    organizers[i],
                    organizers[i + 1],
                    results[i].0,
                    results[i].1,
                    out[i],
                ));
            }
        }
        lemma_closed_in_turn(runners.drop_last(), organizers.drop_last(), init, out.drop_last());
        assert(closes(
            runners[last],
            runners[last + 1],
            organizers[last],
            organizers[last + 1],
            results[last].0,
            results[last].1,
            out[last],
        ));
        assert(runners.drop_last().last() == runners[last]);
        let init_ids = init.map_values(
            |result: (ToolRunId, Result<Edit<R>, Edit<R>>)| result.0,
        );
        assert(ids =~= init_ids.push(results[last].0));
        lemma_run_keys_push(init_ids, results[last].0);
        assert(runners.last().running() =~= runners[0].running().difference(
            closed_runs(results),
        ));
    }
}

/// Failure isolation: a run whose tool failed, by an error or by a panic that the embedding
/// program caught, leaves no trace but its number. The IR and its version are as they were,
/// nothing that the run's edit might write is in use any more, and a tool that asks for any
/// of those identifiers that are in the IR is granted its edit.
pub proof fn lemma_failed_run_leaves_no_trace<R: Representation>(
    runner: ToolRunner,
    runner_after: ToolRunner,
    organizer: Organizer<R>,
    organizer_after: Organizer<R>,
    tool_run: ToolRunId,
    edit: Edit<R>,
    out: Completion<R>,
    might_write: Set<u64>,
)
    requires
        organizer.made(edit),
        closes(
            runner,
            runner_after,
            organizer,
            organizer_after,
            tool_run,
            Err::<Edit<R>, Edit<R>>(edit),
            out,
        ),
        might_write.subset_of(edit.writable()),
        might_write.subset_of(organizer.ir().dom()),
    ensures
        out is Failed,
        organizer_after.ir() == organizer.ir(),
        runner_after.version() == runner.version(),
        !runner_after.running().contains(run_key(tool_run)),
        organizer_after.in_use().disjoint(edit.writable()),
        new_edit_outcome(organizer_after.ir().dom(), organizer_after.in_use(), might_write) is Ok,
{
}

/// Failure isolation in a batch: when runs have been closed one after the other, nothing
/// that the edit of a run that failed might write is in use at the end, the IR has lost no
/// identifier, and a tool that asks for any of those identifiers that were in the IR when
/// the run was closed is granted its edit.
pub proof fn lemma_failed_run_in_a_batch<R: Representation>(
    runners: Seq<ToolRunner>,
    organizers: Seq<Organizer<R>>,
    results: Seq<(ToolRunId, Result<Edit<R>, Edit<R>>)>,
    out: Seq<Completion<R>>,
    at: int,
    might_write: Set<u64>,
)
    requires
        closes_in_turn(runners, organizers, results, out),
        0 <= at < results.len(),
        results[at].1 is Err,
        organizers[0].made(results[at].1->Err_0),
        might_write.subset_of(results[at].1->Err_0.writable()),
        might_write.subset_of(organizers[at].ir().dom()),
    ensures
        out[at] is Failed,
        organizers[at + 1].ir() == organizers[at].ir(),
        organizers.last().in_use().disjoint(results[at].1->Err_0.writable()),
        new_edit_outcome(organizers.last().ir().dom(), organizers.last().in_use(), might_write)
            is Ok,
{
    let edit = results[at].1->Err_0;
    lemma_identity_stays(runners, organizers, results, out, at);
    assert(closes(
        runners[at],
        runners[at + 1],
        organizers[at],
        organizers[at + 1],
        results[at].0,
        results[at].1,
        out[at],
    ));
    lemma_closing_only_frees(runners, organizers, results, out, at + 1, results.len() as int);
}

/// Closing runs leaves the organizer its identity.
proof fn lemma_identity_stays<R: Representation>(
    runners: Seq<ToolRunner>,
    organizers: Seq<Organizer<R>>,
    results: Seq<(ToolRunId, Result<Edit<R>, Edit<R>>)>,
    out: Seq<Completion<R>>,
    upto: int,
)
    requires
        closes_in_turn(runners, organizers, results, out),
        0 <= upto <= results.len(),
    ensures
        organizers[upto].identity() == organizers[0].identity(),
    decreases upto,
{
    if upto > 0 {
        lemma_identity_stays(runners, organizers, results, out, upto - 1);
        assert(closes(
            runners[upto - 1],
            runners[upto - 1 + 1],
            organizers[upto - 1],
            organizers[upto - 1 + 1],
            results[upto - 1].0,
            results[upto - 1].1,
            out[upto - 1],
        ));
    }
}

/// Closing runs takes no identifier out of the IR and puts none in use.
proof fn lemma_closing_only_frees<R: Representation>(
    runners: Seq<ToolRunner>,
    organizers: Seq<Organizer<R>>,
    results: Seq<(ToolRunId, Result<Edit<R>, Edit<R>>)>,
    out: Seq<Completion<R>>,
    from: int,
    to: int,
)
    requires
        closes_in_turn(runners, organizers, results, out),
        0 <= from <= to <= results.len(),
    ensures
        organizers[to].in_use().subset_of(organizers[from].in_use()),
        organizers[from].ir().dom().subset_of(organizers[to].ir().dom()),
    decreases to - from,
{
    if from < to {
        lemma_closing_only_frees(runners, organizers, results, out, from, to - 1);
        assert(closes(
            runners[to - 1],
            runners[to - 1 + 1],
            organizers[to - 1],
            organizers[to - 1 + 1],
            results[to - 1].0,
            results[to - 1].1,
            out[to - 1],
        ));
    }
}

/// Tells whether `a` and `b` are the same run.
fn same_run(a: ToolRunId, b: ToolRunId) -> (out: bool)
    ensures
        out == (run_key(a) == run_key(b)),
{
    a.run_number() == b.run_number() && same(a.tool_id().name(), b.tool_id().name())
}

/// Where `tool_run` stands in `runs`, if anywhere.
fn position(runs: &Vec<ToolRunId>, tool_run: ToolRunId) -> (out: Option<usize>)
    ensures
        out is Some <==> runs@.map_values(|r: ToolRunId| run_key(r)).to_set().contains(
            run_key(tool_run),
        ),
        out matches Some(at) ==> at < runs@.len() && run_key(runs@[at as int]) == run_key(
            tool_run,
        ),
{
    let ghost keys = runs@.map_values(|r: ToolRunId| run_key(r));
    let mut i: usize = 0;
    while i < runs.len()
        invariant
            i <= runs.len(),
            keys == runs@.map_values(|r: ToolRunId| run_key(r)),
            forall|j: int| 0 <= j < i ==> run_key(#[trigger] runs@[j]) != run_key(tool_run),
        decreases runs.len() - i,
    {
        if same_run(runs[i], tool_run) {
            assert(keys[i as int] == run_key(tool_run));
            assert(keys.to_set().contains(keys[i as int]));
            return Some(i);
        }
        i = i + 1;
    }
    proof {
        if keys.to_set().contains(run_key(tool_run)) {
            let j = choose|j: int| 0 <= j < keys.len() && keys[j] == run_key(tool_run);
            assert(run_key(runs@[j]) != run_key(tool_run));
        }
    }
    None
}

} // verus!
