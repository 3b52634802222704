//! The bookkeeping of the diagnostics directory: which runs of which tools there have been,
//! and what stands where.
//!
//! The directory holds the log of the whole run in `messages`, one directory for each version
//! of the IR under `ir`, and one directory for each run of a tool under `steps`. This module
//! names those places and numbers the runs. It touches no file: the embedding program makes
//! the directories and writes to them.

pub mod tool_reporter;

pub use tool_reporter::ToolId;
pub use tool_reporter::ToolReporter;
pub use tool_reporter::ToolRunId;

use crate::id::Id;
use crate::ir::numbers;
use crate::ir::HarvestIR;
use crate::ir::Representation;
use crate::ordered::ascending;
use crate::text::same;
use crate::text::zero_padded;
use crate::text::zero_padded_digits;
use tool_reporter::run_text;
use vstd::prelude::*;
use vstd::string::StringExecFns;

verus! {

/// The name of the file that holds the log of the whole run, and of the file in a run's
/// directory that holds the log of that run.
pub const MESSAGES: &'static str = "messages";

/// The name of the directory that holds the versions of the IR.
pub const IR: &'static str = "ir";

/// The name of the directory that holds the directories of the runs.
pub const STEPS: &'static str = "steps";

/// The name of the file in a version's directory that lists the representations.
pub const INDEX: &'static str = "index";

/// What the diagnostics of a whole run amount to, for the caller to look at when the run is
/// over.
#[derive(Debug, Default)]
pub struct Diagnostics {}

impl Diagnostics {
    /// The record of a run of which nothing is known yet.
    pub fn new() -> Diagnostics {
        Diagnostics {  }
    }
}

/// How often `tool` occurs in `calls`.
pub open spec fn occurrences(calls: Seq<Seq<char>>, tool: Seq<char>) -> nat
    decreases calls.len(),
{
    if calls.len() == 0 {
        0
    } else {
        occurrences(calls.drop_last(), tool) + if calls.last() == tool {
            1nat
        } else {
            0nat
        }
    }
}

/// The number that `counts` holds for `tool`, or zero if it holds none.
pub open spec fn count_in(counts: Seq<(ToolId, u64)>, tool: Seq<char>) -> nat
    decreases counts.len(),
{
    if counts.len() == 0 {
        0
    } else if counts.last().0@ == tool {
        counts.last().1 as nat
    } else {
        count_in(counts.drop_last(), tool)
    }
}

/// The path, below the diagnostics directory, of the directory of the version `version` of
/// the IR.
pub open spec fn ir_version_path(version: nat) -> Seq<char> {
    IR@ + "/"@ + zero_padded_digits(version, 3)
}

/// The path, below the diagnostics directory, of the directory of the run number `number` of
/// the tool with the name `tool`.
pub open spec fn run_path(tool: Seq<char>, number: nat) -> Seq<char> {
    STEPS@ + "/"@ + run_text(tool, number)
}

/// One line of the index of a version of the IR: the identifier with at least three digits,
/// a colon, a space, the name of the representation, and a line feed.
pub open spec fn index_line(id: u64, name: Seq<char>) -> Seq<char> {
    zero_padded_digits(id as nat, 3) + ": "@ + name + "\n"@
}

/// The index of a version of the IR: the lines of `entries`, in their order.
pub open spec fn index_text(entries: Seq<IrEntry>) -> Seq<char>
    decreases entries.len(),
{
    if entries.len() == 0 {
        Seq::empty()
    } else {
        index_text(entries.drop_last()) + index_line(entries.last().id@, entries.last().name@)
    }
}

/// The path of the directory of a version of the IR.
pub fn ir_version_directory(version: u64) -> (out: String)
    ensures
        out@ == ir_version_path(version as nat),
{
    let mut out = String::from_str(IR);
    out.append("/");
    out.append(zero_padded(version, 3).as_str());
    out
}

/// The path of the directory that a run of a tool works in.
pub fn run_directory(tool_run: ToolRunId) -> (out: String)
    ensures
        out@ == run_path(tool_run.tool()@, tool_run.number()),
{
    let mut out = String::from_str(STEPS);
    out.append("/");
    out.append(tool_run.to_string().as_str());
    out
}

/// What is written down of one representation of a version of the IR.
pub struct IrEntry {
    /// The identifier of the representation.
    pub id: Id,
    /// The name of the representation's file or directory, within the version's directory:
    /// the identifier with at least three digits.
    pub file_name: String,
    /// The name of the representation.
    pub name: &'static str,
}

/// What is written down of a version of the IR.
pub struct IrReport {
    /// The path of the version's directory, below the diagnostics directory.
    pub directory: String,
    /// The representations, in ascending order of their identifiers.
    pub entries: Vec<IrEntry>,
    /// The contents of the file `index` in the version's directory.
    pub index: String,
}

/// The identifiers of `entries`, in the order of the entries.
pub open spec fn entry_ids(entries: Seq<IrEntry>) -> Seq<Id> {
    entries.map_values(|entry: IrEntry| entry.id)
}

/// `report` is what is to be written down of the version `version` of the IR, which holds
/// `ir`: one entry for each representation, in ascending order of the identifiers, and the
/// index that lists them.
pub open spec fn reports<R: Representation>(report: IrReport, version: u64, ir: Map<u64, R>)
    -> bool {
    &&& report.directory@ == ir_version_path(version as nat)
    &&& ascending(numbers(entry_ids(report.entries@)))
    &&& numbers(entry_ids(report.entries@)).to_set() == ir.dom()
    &&& forall|i: int|
        0 <= i < report.entries@.len() ==> {
            let entry = #[trigger] report.entries@[i];
            &&& entry.file_name@ == zero_padded_digits(entry.id@ as nat, 3)
            &&& entry.name@ == ir[entry.id@].name_spec()
        }
    &&& report.index@ == index_text(report.entries@)
}

/// The runs of the tools that have been started, counted for each tool. Its model is the
/// number of runs of each tool, by the tool's name.
pub struct Reporter {
    tool_run_counts: Vec<(ToolId, u64)>,
}

/// The reporter `after` is the reporter `before` with one more run of `tool`, which is the
/// run `tool_run`: the run's number is one more than the number of runs that `tool` had, and
/// no other tool's count has changed.
pub open spec fn started(before: Reporter, tool: ToolId, tool_run: ToolRunId, after: Reporter)
    -> bool {
    &&& tool_run.tool() == tool
    &&& tool_run.number() == before.run_count(tool@) + 1
    &&& after.run_count(tool@) == before.run_count(tool@) + 1
    &&& forall|other: Seq<char>|
        other != tool@ ==> after.run_count(other) == before.run_count(other)
}

impl Default for Reporter {
    fn default() -> (out: Self)
        ensures
            forall|tool: Seq<char>| out.run_count(tool) == 0,
    {
        Reporter::new()
    }
}

impl Reporter {
    #[verifier::type_invariant]
    spec fn counted_from_one(&self) -> bool {
        &&& forall|i: int|
            0 <= i < self.tool_run_counts@.len() ==> (#[trigger] self.tool_run_counts@[i]).1 >= 1
        &&& forall|i: int, j: int|
            0 <= i < j < self.tool_run_counts@.len() ==> (#[trigger] self.tool_run_counts@[i]).0@
                != (#[trigger] self.tool_run_counts@[j]).0@
    }

    /// How many runs of the tool with the name `tool` have been started.
    pub closed spec fn run_count(&self, tool: Seq<char>) -> nat {
        count_in(self.tool_run_counts@, tool)
    }

    /// A reporter that has seen no run.
    pub fn new() -> (out: Self)
        ensures
            forall|tool: Seq<char>| out.run_count(tool) == 0,
    {
        Reporter { tool_run_counts: Vec::new() }
    }

    /// How many runs of `tool` have been started.
    pub fn runs_started(&self, tool: ToolId) -> (out: u64)
        ensures
            out == self.run_count(tool@),
    {
        proof {
            use_type_invariant(self);
        }
        match find(&self.tool_run_counts, tool) {
            Some(at) => self.tool_run_counts[at].1,
            None => 0,
        }
    }

    /// Starts a run of `tool` and gives it the next number for that tool: 1 for the tool's
    /// first run, 2 for its second, and so on. Returns the handle of the run.
    pub fn start_tool_run(&mut self, tool: ToolId) -> (out: ToolReporter)
        requires
            old(self).run_count(tool@) < u64::MAX,
        ensures
            started(*old(self), tool, out.run(), *final(self)),
    {
        proof {
            use_type_invariant(&*self);
        }
        let mut counts: Vec<(ToolId, u64)> = Vec::new();
        std::mem::swap(&mut self.tool_run_counts, &mut counts);
        let ghost before = counts@;
        let number = match find(&counts, tool) {
            Some(at) => {
                let number = counts[at].1 + 1;
                counts[at] = (tool, number);
                proof {
                    lemma_count_after_update(before, at as int, tool, number);
                }
                number
            },
            None => {
                counts.push((tool, 1));
                proof {
                    assert(counts@.drop_last() =~= before);
                    assert forall|other: Seq<char>| other != tool@ implies count_in(counts@, other)
                        == count_in(before, other) by {}
                }
                1
            },
        };
        self.tool_run_counts = counts;
        ToolReporter::new(ToolRunId::new(tool, number))
    }

    /// What is to be written down of the version `version` of the IR, which is `snapshot`.
    pub fn report_ir_version<R: Representation>(&self, version: u64, snapshot: &HarvestIR<R>) -> (out:
        IrReport)
        ensures
            reports(out, version, snapshot@),
    {
        let all = snapshot.iter();
        let ghost ids = all@.map_values(|e: (Id, &R)| e.0);
        let mut entries: Vec<IrEntry> = Vec::new();
        let mut index = String::new();
        let mut i: usize = 0;
        while i < all.len()
            invariant
                i <= all.len(),
                ids == all@.map_values(|e: (Id, &R)| e.0),
                forall|j: int| 0 <= j < all@.len() ==> *(#[trigger] all@[j]).1 == snapshot@[all@[j].0@],
                entries@.len() == i,
                entry_ids(entries@) == ids.take(i as int),
                forall|j: int|
                    0 <= j < i ==> {
                        let entry = #[trigger] entries@[j];
                        &&& entry.file_name@ == zero_padded_digits(entry.id@ as nat, 3)
                        &&& entry.name@ == snapshot@[entry.id@].name_spec()
                    },
                index@ == index_text(entries@),
            decreases all.len() - i,
        {
            let id = all[i].0;
            let name = all[i].1.name();
            let file_name = zero_padded(id.number(), 3);
            index.append(file_name.as_str());
            index.append(": ");
            index.append(name);
            index.append("\n");
            let ghost before = entries@;
            entries.push(IrEntry { id, file_name, name });
            proof {
                assert(entries@.drop_last() =~= before);
                assert(entry_ids(entries@) =~= ids.take(i + 1));
                assert(index@ =~= index_text(before) + index_line(id@, name@));
            }
            i = i + 1;
        }
        proof {
            assert(ids.take(all@.len() as int) =~= ids);
        }
        IrReport { directory: ir_version_directory(version), entries, index }
    }
}

/// Where `counts` holds the count of `tool`, if anywhere.
fn find(counts: &Vec<(ToolId, u64)>, tool: ToolId) -> (out: Option<usize>)
    requires
        forall|i: int, j: int|
            0 <= i < j < counts@.len() ==> (#[trigger] counts@[i]).0@ != (#[trigger] counts@[j]).0@,
    ensures
        match out {
            Some(at) => at < counts@.len() && counts@[at as int].0@ == tool@ && count_in(
                counts@,
                tool@,
            ) == counts@[at as int].1,
            None => count_in(counts@, tool@) == 0 && forall|i: int|
                0 <= i < counts@.len() ==> (#[trigger] counts@[i]).0@ != tool@,
        },
{
    let mut i: usize = 0;
    while i < counts.len()
        invariant
            i <= counts.len(),
            forall|a: int, b: int|
                0 <= a < b < counts@.len() ==> (#[trigger] counts@[a]).0@ != (
                #[trigger] counts@[b]).0@,
            forall|j: int| 0 <= j < i ==> (#[trigger] counts@[j]).0@ != tool@,
        decreases counts.len() - i,
    {
        if same(counts[i].0.name(), tool.name()) {
            proof {
                lemma_count_at(counts@, i as int);
            }
            return Some(i);
        }
        i = i + 1;
    }
    proof {
        lemma_count_absent(counts@, tool@);
    }
    None
}

/// Where the names in `counts` differ from each other, the count of a name is the number
/// that stands beside it.
proof fn lemma_count_at(counts: Seq<(ToolId, u64)>, at: int)
    requires
        0 <= at < counts.len(),
        forall|i: int, j: int|
            0 <= i < j < counts.len() ==> (#[trigger] counts[i]).0@ != (#[trigger] counts[j]).0@,
    ensures
        count_in(counts, counts[at].0@) == counts[at].1,
    decreases counts.len(),
{
    if at < counts.len() - 1 {
        assert(counts[at].0@ != counts[counts.len() - 1].0@);
        lemma_count_at(counts.drop_last(), at);
    }
}

/// A name that does not stand in `counts` has the count zero.
proof fn lemma_count_absent(counts: Seq<(ToolId, u64)>, tool: Seq<char>)
    requires
        forall|i: int| 0 <= i < counts.len() ==> (#[trigger] counts[i]).0@ != tool,
    ensures
        count_in(counts, tool) == 0,
    decreases counts.len(),
{
    if counts.len() > 0 {
        lemma_count_absent(counts.drop_last(), tool);
    }
}

/// Writing a new number beside one name changes that name's count and no other.
proof fn lemma_count_after_update(counts: Seq<(ToolId, u64)>, at: int, tool: ToolId, number: u64)
    requires
        0 <= at < counts.len(),
        counts[at].0@ == tool@,
        forall|i: int, j: int|
            0 <= i < j < counts.len() ==> (#[trigger] counts[i]).0@ != (#[trigger] counts[j]).0@,
    ensures
        count_in(counts.update(at, (tool, number)), tool@) == number,
        forall|other: Seq<char>|
            other != tool@ ==> count_in(counts.update(at, (tool, number)), other) == count_in(
                counts,
                other,
            ),
        forall|i: int, j: int|
            0 <= i < j < counts.len() ==> (#[trigger] counts.update(at, (tool, number))[i]).0@ != (
            #[trigger] counts.update(at, (tool, number))[j]).0@,
    decreases counts.len(),
{
    let updated = counts.update(at, (tool, number));
    assert forall|i: int, j: int| 0 <= i < j < counts.len() implies (#[trigger] updated[i]).0@ != (
    #[trigger] updated[j]).0@ by {
        assert(counts[i].0@ != counts[j].0@);
    }
    lemma_count_at(updated, at);
    assert forall|other: Seq<char>| other != tool@ implies count_in(updated, other) == count_in(
        counts,
        other,
    ) by {
        lemma_count_elsewhere(counts, at, tool, number, other);
    }
}

/// Writing a new number beside one name leaves the count of another name as it was.
proof fn lemma_count_elsewhere(
    counts: Seq<(ToolId, u64)>,
    at: int,
    tool: ToolId,
    number: u64,
    other: Seq<char>,
)
    requires
        0 <= at < counts.len(),
        counts[at].0@ == tool@,
        other != tool@,
    ensures
        count_in(counts.update(at, (tool, number)), other) == count_in(counts, other),
    decreases counts.len(),
{
    let updated = counts.update(at, (tool, number));
    if at < counts.len() - 1 {
        assert(updated.drop_last() =~= counts.drop_last().update(at, (tool, number)));
        lemma_count_elsewhere(counts.drop_last(), at, tool, number, other);
    } else {
        assert(updated.drop_last() =~= counts.drop_last());
    }
}

/// Run numbering: when runs are started one after the other on a reporter that has seen
/// none, each run gets as its number how often its tool has been started up to and with that
/// run. So the runs of one tool are numbered 1, 2, 3 and so on, in the order in which they
/// were started, whatever runs of other tools come between them.
pub proof fn lemma_runs_numbered_in_order(
    reporters: Seq<Reporter>,
    tools: Seq<ToolId>,
    runs: Seq<ToolRunId>,
    i: int,
)
    requires
        reporters.len() == tools.len() + 1,
        runs.len() == tools.len(),
        forall|tool: Seq<char>| reporters[0].run_count(tool) == 0,
        forall|k: int|
            0 <= k < tools.len() ==> started(
                reporters[k],
                #[trigger] tools[k],
                runs[k],
                reporters[k + 1],
            ),
        0 <= i < tools.len(),
    ensures
        runs[i].tool() == tools[i],
        runs[i].number() == occurrences(tools.map_values(|tool: ToolId| tool@).take(i + 1), tools[i]@),
{
    let names = tools.map_values(|tool: ToolId| tool@);
    lemma_counts_follow_calls(reporters, tools, runs, i, tools[i]@);
    assert(started(reporters[i], tools[i], runs[i], reporters[i + 1]));
    assert(names.take(i + 1).drop_last() =~= names.take(i));
}

/// After the first `k` runs have been started, the reporter's count of each tool is how often
/// the tool occurs among them.
proof fn lemma_counts_follow_calls(
    reporters: Seq<Reporter>,
    tools: Seq<ToolId>,
    runs: Seq<ToolRunId>,
    k: int,
    tool: Seq<char>,
)
    requires
        reporters.len() == tools.len() + 1,
        runs.len() == tools.len(),
        forall|t: Seq<char>| reporters[0].run_count(t) == 0,
        forall|j: int|
            0 <= j < tools.len() ==> started(
                reporters[j],
                #[trigger] tools[j],
                runs[j],
                reporters[j + 1],
            ),
        0 <= k <= tools.len(),
    ensures
        reporters[k].run_count(tool) == occurrences(
            tools.map_values(|t: ToolId| t@).take(k),
            tool,
        ),
    decreases k,
{
    let names = tools.map_values(|t: ToolId| t@);
    if k > 0 {
        lemma_counts_follow_calls(reporters, tools, runs, k - 1, tool);
        assert(started(reporters[k - 1], tools[k - 1], runs[k - 1], reporters[k - 1 + 1]));
        assert(names.take(k).drop_last() =~= names.take(k - 1));
        assert(names.take(k).last() == tools[k - 1]@);
    }
}

} // verus!
