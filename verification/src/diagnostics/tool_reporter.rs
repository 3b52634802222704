//! The identity of a tool and of one run of it, and the handle that a running tool holds.

use crate::text::zero_padded;
use crate::text::zero_padded_digits;
use crate::tools::Tool;
use vstd::prelude::*;
use vstd::string::StringExecFns;

verus! {

/// Tells one tool from another. It stands for the tool's name.
#[derive(Clone, Copy, Debug, Eq, Hash, PartialEq)]
pub struct ToolId {
    name: &'static str,
}

impl View for ToolId {
    type V = Seq<char>;

    closed spec fn view(&self) -> Seq<char> {
        self.name@
    }
}

impl ToolId {
    /// The identity of `tool`.
    pub fn new<R, C, P, T: Tool<R, C, P> + ?Sized>(tool: &T) -> (out: ToolId)
        ensures
            out@ == tool.name_spec(),
    {
        ToolId { name: tool.name() }
    }

    /// The identity of the tool with the name `name`.
    pub fn named(name: &'static str) -> (out: ToolId)
        ensures
            out@ == name@,
    {
        ToolId { name }
    }

    /// The tool's name.
    pub fn name(&self) -> (out: &'static str)
        ensures
            out@ == self@,
    {
        self.name
    }

    /// Renders the identity: the tool's name.
    pub fn to_string(&self) -> (out: String)
        ensures
            out@ == self@,
    {
        String::from_str(self.name)
    }
}

/// The text of the run number `number` of the tool with the name `tool`: the name, an
/// underscore, and the number with at least three digits.
pub open spec fn run_text(tool: Seq<char>, number: nat) -> Seq<char> {
    tool + "_"@ + zero_padded_digits(number, 3)
}

/// Tells one run of a tool from every other. Its text, such as `try_cargo_build_002`, is the
/// name of the directory that the run works in.
#[derive(Clone, Copy, Debug, Eq, Hash, PartialEq)]
pub struct ToolRunId {
    tool: ToolId,
    number: u64,
}

impl ToolRunId {
    #[verifier::type_invariant]
    spec fn counted_from_one(&self) -> bool {
        self.number >= 1
    }

    /// The tool that ran.
    pub closed spec fn tool(&self) -> ToolId {
        self.tool
    }

    /// Which run of the tool this is: 1 for the first, 2 for the second, and so on.
    pub closed spec fn number(&self) -> nat {
        self.number as nat
    }

    /// The run number `number` of `tool`.
    pub(crate) fn new(tool: ToolId, number: u64) -> (out: ToolRunId)
        requires
            number >= 1,
        ensures
            out.tool() == tool,
            out.number() == number,
    {
        ToolRunId { tool, number }
    }

    /// The tool that ran.
    pub fn tool_id(self) -> (out: ToolId)
        ensures
            out == self.tool(),
    {
        self.tool
    }

    /// Which run of the tool this is, counted from 1.
    pub fn run_number(self) -> (out: u64)
        ensures
            out == self.number(),
            out >= 1,
    {
        proof {
            use_type_invariant(&self);
        }
        self.number
    }

    /// Renders the run as the tool's name, an underscore, and the run's number with at least
    /// three digits.
    pub fn to_string(&self) -> (out: String)
        ensures
            out@ == run_text(self.tool()@, self.number()),
    {
        let mut out = String::from_str(self.tool.name);
        out.append("_");
        out.append(zero_padded(self.number, 3).as_str());
        out
    }
}

/// The handle of one run of a tool. The tool gets it as part of its context.
#[derive(Clone, Copy, Debug)]
pub struct ToolReporter {
    tool_run: ToolRunId,
}

impl ToolReporter {
    /// The run that this handle belongs to.
    pub closed spec fn run(&self) -> ToolRunId {
        self.tool_run
    }

    /// The handle of the run `tool_run`.
    pub(crate) fn new(tool_run: ToolRunId) -> (out: ToolReporter)
        ensures
            out.run() == tool_run,
    {
        ToolReporter { tool_run }
    }

    /// The tool that runs.
    pub fn tool_id(&self) -> (out: ToolId)
        ensures
            out == self.run().tool(),
    {
        self.tool_run.tool_id()
    }

    /// The run that this handle belongs to.
    pub fn tool_run(&self) -> (out: ToolRunId)
        ensures
            out == self.run(),
    {
        self.tool_run
    }
}

} // verus!
