//! Checking whether a generated Rust project builds: what is made of the output of
//! `cargo build`.

use crate::full_source::CargoPackage;
use crate::fs::RawDir;
use crate::id_set::IdSet;
use crate::ir::holders;
use crate::ir::the_one;
use crate::ir::HarvestIR;
use crate::ir::Holds;
use crate::ir::NotOne;
use crate::ir::Representation;
use crate::text::decimal;
use crate::text::decimal_digits;
use crate::tools::MightWriteOutcome;
use vstd::prelude::*;
use vstd::string::StringExecFns;

verus! {

/// One message in the output of `cargo build --message-format=json`, as far as this crate
/// looks at it.
#[derive(Debug, PartialEq, Eq)]
pub enum CargoMessage {
    /// The compiler made an artifact, which consists of the files with these names.
    CompilerArtifact(Vec<String>),
    /// The compiler has something to say: this is its text.
    CompilerMessage(String),
    /// Anything else.
    Other,
}

/// The messages that `cargo_metadata::Message::parse_stream` reads from the output `stdout`,
/// or `None` where it reports an error.
pub uninterp spec fn cargo_stream(stdout: Seq<u8>) -> Option<Seq<CargoMessage>>;

/// `cargo_metadata::Message::parse_stream` reads the output of cargo line by line: a line
/// that holds a message in JSON becomes that message, and any other line a line of text. It
/// reports an error for output that is not UTF-8. What it reads is a function of the output,
/// and [`cargo_stream`] is its name; the messages are handed on up to the first error, with
/// the text of a compiler message as the message displays itself and the file names of an
/// artifact as they stand.
///
/// It reads JSON without a limit on the depth of nesting, and goes one call deeper for each
/// level, so output that nests too deep is kept from it.
#[verifier::external_body]
fn parse_stream(stdout: &[u8]) -> (out: Result<Vec<CargoMessage>, std::io::Error>)
    requires
        nesting(stdout@) <= MAX_NESTING,
    ensures
        match out {
            Ok(messages) => cargo_stream(stdout@) == Some(messages@),
            Err(_) => cargo_stream(stdout@) is None,
        },
{
    cargo_metadata::Message::parse_stream(stdout).map(|message| Ok(match message? {
        cargo_metadata::Message::CompilerArtifact(artifact) => CargoMessage::CompilerArtifact(
            artifact.filenames.into_iter().map(|name| name.into_string()).collect(),
        ),
        cargo_metadata::Message::CompilerMessage(message) => CargoMessage::CompilerMessage(
            message.to_string(),
        ),
        _ => CargoMessage::Other,
    })).collect()
}

/// Where a reader of JSON stands in a text: whether it is inside a string, whether the
/// character before was a backslash inside the string, how deep the brackets and braces nest
/// there, and how deep they have nested at most.
pub struct Scan {
    /// Inside a string.
    pub in_string: bool,
    /// Behind a backslash inside a string.
    pub escaped: bool,
    /// How many brackets and braces are open.
    pub depth: nat,
    /// How many were open at most.
    pub deepest: nat,
}

/// Where a reader of JSON stands after the byte `byte`, if it stood at `s` before. Each line
/// is a text of its own. Brackets and braces count outside strings only.
pub open spec fn scan_byte(s: Scan, byte: u8) -> Scan {
    if byte == 10 {
        Scan { in_string: false, escaped: false, depth: 0, deepest: s.deepest }
    } else if s.in_string {
        if s.escaped {
            Scan { escaped: false, ..s }
        } else if byte == 92 {
            Scan { escaped: true, ..s }
        } else if byte == 34 {
            Scan { in_string: false, ..s }
        } else {
            s
        }
    } else if byte == 34 {
        Scan { in_string: true, ..s }
    } else if byte == 91 || byte == 123 {
        Scan {
            depth: s.depth + 1,
            deepest: if s.depth + 1 > s.deepest {
                s.depth + 1
            } else {
                s.deepest
            },
            ..s
        }
    } else if (byte == 93 || byte == 125) && s.depth > 0 {
        Scan { depth: (s.depth - 1) as nat, ..s }
    } else {
        s
    }
}

/// Where a reader of JSON stands after the first `upto` bytes of `text`.
pub open spec fn scanned(text: Seq<u8>, upto: int) -> Scan
    decreases upto,
{
    if upto <= 0 {
        Scan { in_string: false, escaped: false, depth: 0, deepest: 0 }
    } else {
        scan_byte(scanned(text, upto - 1), text[upto - 1])
    }
}

/// How deep the brackets and braces nest at most in a line of `text`.
pub open spec fn nesting(text: Seq<u8>) -> nat {
    scanned(text, text.len() as int).deepest
}

/// How deep the JSON in the output of cargo may nest. This is the depth at which the JSON
/// reader below `cargo_metadata` stops by itself to spare the stack. `cargo_metadata` lifts
/// that limit, so the limit is kept here: output that nests deeper is refused, not read at
/// the risk of running out of stack.
pub const MAX_NESTING: usize = 128;

/// Tells how deep the brackets and braces nest at most in a line of `text`.
pub fn nesting_of(text: &[u8]) -> (out: usize)
    ensures
        out == nesting(text@),
{
    let mut in_string = false;
    let mut escaped = false;
    let mut depth: usize = 0;
    let mut deepest: usize = 0;
    let mut i: usize = 0;
    while i < text.len()
        invariant
            i <= text@.len(),
            depth <= i,
            deepest <= i,
            scanned(text@, i as int) == (Scan {
                in_string,
                escaped,
                depth: depth as nat,
                deepest: deepest as nat,
            }),
        decreases text.len() - i,
    {
        let byte = text[i];
        if byte == 10 {
            in_string = false;
            escaped = false;
            depth = 0;
        } else if in_string {
            if escaped {
                escaped = false;
            } else if byte == 92 {
                escaped = true;
            } else if byte == 34 {
                in_string = false;
            }
        } else if byte == 34 {
            in_string = true;
        } else if byte == 91 || byte == 123 {
            depth = depth + 1;
            if depth > deepest {
                deepest = depth;
            }
        } else if (byte == 93 || byte == 125) && depth > 0 {
            depth = depth - 1;
        }
        i = i + 1;
    }
    deepest
}

/// Why the output of cargo was not read.
#[derive(Debug)]
pub enum CargoOutputError {
    /// The output cannot be read as text.
    Unreadable(std::io::Error),
    /// The JSON in the output nests deeper than [`MAX_NESTING`].
    NestedTooDeep,
}

/// What is read from the output `stdout` of cargo: the messages, or why there are none.
pub open spec fn cargo_output(stdout: Seq<u8>) -> Option<Seq<CargoMessage>> {
    if nesting(stdout) > MAX_NESTING {
        None
    } else {
        cargo_stream(stdout)
    }
}

/// Reads the messages from the output `stdout` of cargo, unless it nests too deep or cannot
/// be read as text.
pub fn read_messages(stdout: &[u8]) -> (out: Result<Vec<CargoMessage>, CargoOutputError>)
    ensures
        match out {
            Ok(messages) => cargo_output(stdout@) == Some(messages@),
            Err(CargoOutputError::NestedTooDeep) => nesting(stdout@) > MAX_NESTING,
            Err(CargoOutputError::Unreadable(_)) => nesting(stdout@) <= MAX_NESTING
                && cargo_stream(stdout@) is None,
        },
{
    if nesting_of(stdout) > MAX_NESTING {
        return Err(CargoOutputError::NestedTooDeep);
    }
    match parse_stream(stdout) {
        Ok(messages) => Ok(messages),
        Err(error) => Err(CargoOutputError::Unreadable(error)),
    }
}

/// The texts of the compiler messages among the first `upto` of `messages`, each after
/// `Compiler Message: `, with a line feed between one and the next.
pub open spec fn compiler_text(messages: Seq<CargoMessage>, upto: int) -> Seq<char>
    decreases upto,
{
    if upto <= 0 {
        Seq::empty()
    } else {
        let before = compiler_text(messages, upto - 1);
        match messages[upto - 1] {
            CargoMessage::CompilerMessage(text) => if compiler_count(messages, upto - 1) == 0 {
                "Compiler Message: "@ + text@
            } else {
                before + "\n"@ + "Compiler Message: "@ + text@
            },
            _ => before,
        }
    }
}

/// How many compiler messages are among the first `upto` of `messages`.
pub open spec fn compiler_count(messages: Seq<CargoMessage>, upto: int) -> nat
    decreases upto,
{
    if upto <= 0 {
        0
    } else {
        compiler_count(messages, upto - 1) + if messages[upto - 1] is CompilerMessage {
            1nat
        } else {
            0nat
        }
    }
}

/// The names of the files of the artifacts among the first `upto` of `messages`, in the
/// order of the messages.
pub open spec fn artifact_names(messages: Seq<CargoMessage>, upto: int) -> Seq<Seq<char>>
    decreases upto,
{
    if upto <= 0 {
        Seq::empty()
    } else {
        artifact_names(messages, upto - 1) + match messages[upto - 1] {
            CargoMessage::CompilerArtifact(filenames) => filenames@.map_values(
                |name: String| name@,
            ),
            _ => Seq::empty(),
        }
    }
}

/// The texts of all compiler messages in `messages`, joined to one text.
pub fn compiler_messages(messages: &Vec<CargoMessage>) -> (out: String)
    ensures
        out@ == compiler_text(messages@, messages@.len() as int),
{
    let mut out = String::new();
    let mut first = true;
    let mut i: usize = 0;
    while i < messages.len()
        invariant
            i <= messages.len(),
            first == (compiler_count(messages@, i as int) == 0),
            out@ == compiler_text(messages@, i as int),
        decreases messages.len() - i,
    {
        match &messages[i] {
            CargoMessage::CompilerMessage(text) => {
                if !first {
                    out.append("\n");
                }
                out.append("Compiler Message: ");
                out.append(text.as_str());
                proof {
                    if first {
                        lemma_no_message_no_text(messages@, i as int);
                        assert(out@ =~= "Compiler Message: "@ + text@);
                    } else {
                        assert(out@ =~= compiler_text(messages@, i as int) + "\n"@
                            + "Compiler Message: "@ + text@);
                    }
                }
                first = false;
            },
            _ => {},
        }
        i = i + 1;
    }
    out
}

/// Where there is no compiler message there is no text.
proof fn lemma_no_message_no_text(messages: Seq<CargoMessage>, upto: int)
    requires
        compiler_count(messages, upto) == 0,
    ensures
        compiler_text(messages, upto) == Seq::<char>::empty(),
    decreases upto,
{
    if upto > 0 {
        lemma_no_message_no_text(messages, upto - 1);
    }
}

/// The names of the files of all artifacts in `messages`.
pub fn compiled_artifacts(messages: &Vec<CargoMessage>) -> (out: Vec<String>)
    ensures
        out@.map_values(|name: String| name@) == artifact_names(messages@, messages@.len() as int),
{
    let mut out: Vec<String> = Vec::new();
    let mut i: usize = 0;
    assert(out@.map_values(|name: String| name@) =~= artifact_names(messages@, 0));
    while i < messages.len()
        invariant
            i <= messages.len(),
            out@.map_values(|name: String| name@) == artifact_names(messages@, i as int),
        decreases messages.len() - i,
    {
        match &messages[i] {
            CargoMessage::CompilerArtifact(filenames) => {
                let ghost before = out@;
                let mut j: usize = 0;
                while j < filenames.len()
                    invariant
                        j <= filenames.len(),
                        out@.map_values(|name: String| name@) == before.map_values(
                            |name: String| name@,
                        ) + filenames@.map_values(|name: String| name@).take(j as int),
                    decreases filenames.len() - j,
                {
                    let ghost was = out@;
                    out.push(filenames[j].clone());
                    proof {
                        assert(out@.map_values(|name: String| name@) =~= was.map_values(
                            |name: String| name@,
                        ).push(filenames@[j as int]@));
                        assert(filenames@.map_values(|name: String| name@).take(j + 1)
                            =~= filenames@.map_values(|name: String| name@).take(j as int).push(
                            filenames@[j as int]@,
                        ));
                    }
                    j = j + 1;
                }
                proof {
                    assert(filenames@.map_values(|name: String| name@).take(
                        filenames@.len() as int,
                    ) =~= filenames@.map_values(|name: String| name@));
                }
            },
            _ => {
                assert(out@.map_values(|name: String| name@) =~= artifact_names(
                    messages@,
                    i as int,
                ) + Seq::empty());
            },
        }
        i = i + 1;
    }
    out
}

/// Parses the output `stdout` of cargo and joins the texts of all compiler messages to one
/// text. Fails where the output is not read.
pub fn parse_compiler_messages(stdout: &[u8]) -> (out: Result<String, CargoOutputError>)
    ensures
        match out {
            Ok(text) => cargo_output(stdout@) matches Some(messages) && text@ == compiler_text(
                messages,
                messages.len() as int,
            ),
            Err(_) => cargo_output(stdout@) is None,
        },
{
    match read_messages(stdout) {
        Ok(messages) => Ok(compiler_messages(&messages)),
        Err(error) => Err(error),
    }
}

/// Parses the output `stdout` of cargo and lists the names of the files of all artifacts.
/// Fails where the output is not read.
pub fn parse_compiled_artifacts(stdout: &[u8]) -> (out: Result<Vec<String>, CargoOutputError>)
    ensures
        match out {
            Ok(names) => cargo_output(stdout@) matches Some(messages) && names@.map_values(
                |name: String| name@,
            ) == artifact_names(messages, messages.len() as int),
            Err(_) => cargo_output(stdout@) is None,
        },
{
    match read_messages(stdout) {
        Ok(messages) => Ok(compiled_artifacts(&messages)),
        Err(error) => Err(error),
    }
}

/// What came of a build: the names of the files of the artifacts if it went well, or the
/// messages of the compiler and of cargo if it did not.
pub type BuildResult = Result<Vec<String>, String>;

/// What is made of a run of `cargo build` that ended with success or without, that wrote
/// `stdout` to its standard output, and whose standard error reads `stderr`. A build that
/// went well yields the artifacts, and one that did not yields the compiler's messages, a
/// line feed and the standard error. Fails where the standard output is not read.
pub fn build_result(success: bool, stdout: &[u8], stderr: &str) -> (out: Result<
    BuildResult,
    CargoOutputError,
>)
    ensures
        match out {
            Err(_) => cargo_output(stdout@) is None,
            Ok(result) => cargo_output(stdout@) matches Some(messages) && match result {
                Ok(names) => success && names@.map_values(|name: String| name@) == artifact_names(
                    messages,
                    messages.len() as int,
                ),
                Err(text) => !success && text@ == compiler_text(messages, messages.len() as int)
                    + "\n"@ + stderr@,
            },
        },
{
    if success {
        match parse_compiled_artifacts(stdout) {
            Ok(names) => Ok(Ok(names)),
            Err(error) => Err(error),
        }
    } else {
        match parse_compiler_messages(stdout) {
            Ok(text) => {
                let mut text = text;
                text.append("\n");
                text.append(stderr);
                Ok(Err(text))
            },
            Err(error) => Err(error),
        }
    }
}

/// A Representation that contains the results of running `cargo build`.
#[derive(Debug, PartialEq, Eq)]
pub struct CargoBuildResult {
    /// What came of the build.
    pub result: BuildResult,
}

/// The lines that name the first `upto` of the files `names`, each after four blanks.
pub open spec fn artifact_lines(names: Seq<String>, upto: int) -> Seq<char>
    decreases upto,
{
    if upto <= 0 {
        Seq::empty()
    } else {
        artifact_lines(names, upto - 1) + "    "@ + names[upto - 1]@ + "\n"@
    }
}

impl Clone for CargoBuildResult {
    fn clone(&self) -> (out: Self)
        ensures
            match (self.result, out.result) {
                (Ok(names), Ok(copied)) => crate::fs::names_of(copied@) == crate::fs::names_of(
                    names@,
                ),
                (Err(text), Err(copied)) => copied@ == text@,
                _ => false,
            },
    {
        match &self.result {
            Ok(names) => CargoBuildResult { result: Ok(crate::fs::copy_names(names)) },
            Err(text) => CargoBuildResult { result: Err(text.clone()) },
        }
    }
}

impl Representation for CargoBuildResult {
    open spec fn name_spec(&self) -> Seq<char> {
        "CargoBuildResult"@
    }

    open spec fn text_spec(&self) -> Seq<char> {
        "Built Rust artifact:\n"@ + match self.result {
            Err(text) => "  Build failed: "@ + text@ + "\n"@,
            Ok(names) => "  Build succeeded. Artifacts:\n"@ + artifact_lines(
                names@,
                names@.len() as int,
            ),
        }
    }

    fn name(&self) -> (out: &'static str) {
        "CargoBuildResult"
    }

    fn render(&self) -> (out: String) {
        let mut out = String::from_str("Built Rust artifact:\n");
        match &self.result {
            Err(text) => {
                out.append("  Build failed: ");
                out.append(text.as_str());
                out.append("\n");
                assert(out@ =~= "Built Rust artifact:\n"@ + ("  Build failed: "@ + text@ + "\n"@));
            },
            Ok(names) => {
                out.append("  Build succeeded. Artifacts:\n");
                let ghost head = out@;
                let mut i: usize = 0;
                assert(out@ =~= head + artifact_lines(names@, 0));
                while i < names.len()
                    invariant
                        i <= names.len(),
                        out@ == head + artifact_lines(names@, i as int),
                    decreases names.len() - i,
                {
                    out.append("    ");
                    out.append(names[i].as_str());
                    out.append("\n");
                    i = i + 1;
                    assert(out@ =~= head + (artifact_lines(names@, i - 1) + "    "@ + names@[i
                        - 1]@ + "\n"@));
                }
                assert(out@ =~= "Built Rust artifact:\n"@ + ("  Build succeeded. Artifacts:\n"@
                    + artifact_lines(names@, names@.len() as int)));
            },
        }
        out
    }
}

/// The directory tree of the one cargo package in `ir`. Where there is none, or more than
/// one, the error says so in words.
pub fn raw_cargo_package<R: Holds<CargoPackage>>(ir: &HarvestIR<R>) -> (out: Result<
    &RawDir,
    String,
>)
    ensures
        match out {
            Ok(dir) => exists|k: u64|
                holders::<R, CargoPackage>(ir@) == set![k] && (ir@[k].held() matches Some(
                    package,
                ) && package.dir == *dir),
            Err(text) => if holders::<R, CargoPackage>(ir@) == Set::<u64>::empty() {
                text@ == "No CargoPackage representation found in IR"@
            } else {
                holders::<R, CargoPackage>(ir@).len() > 1 && text@ == "Found "@ + decimal_digits(
                    holders::<R, CargoPackage>(ir@).len(),
                ) + " CargoPackage representations, expected at most 1"@
            },
        },
{
    match the_one::<R, CargoPackage>(ir) {
        Ok(package) => Ok(&package.dir),
        Err(NotOne::Missing) => Err(String::from_str("No CargoPackage representation found in IR")),
        Err(NotOne::Many(count)) => {
            let mut text = String::from_str("Found ");
            text.append(decimal(count as u64).as_str());
            text.append(" CargoPackage representations, expected at most 1");
            proof {
                assert(holders::<R, CargoPackage>(ir@) != Set::<u64>::empty()) by {
                    assert(Set::<u64>::empty().len() == 0);
                }
            }
            Err(text)
        },
    }
}

/// The tool that checks whether the cargo package in the IR builds.
pub struct TryCargoBuild;

impl TryCargoBuild {
    /// The name of the tool.
    pub fn name() -> (out: &'static str)
        ensures
            out@ == "try_cargo_build"@,
    {
        "try_cargo_build"
    }

    /// Tells whether the tool can run on `ir`: it needs the one cargo package to be there,
    /// and writes no identifier that is there.
    pub fn ready<R: Holds<CargoPackage>>(ir: &HarvestIR<R>) -> (out: MightWriteOutcome)
        ensures
            match out {
                MightWriteOutcome::TryAgain => holders::<R, CargoPackage>(ir@).len() != 1,
                MightWriteOutcome::Runnable(ids) => ids@ == Set::<u64>::empty() && holders::<
                    R,
                    CargoPackage,
                >(ir@).len() == 1,
                MightWriteOutcome::NotRunnable => false,
            },
    {
        match the_one::<R, CargoPackage>(ir) {
            Err(NotOne::Missing) => {
                assert(Set::<u64>::empty().len() == 0);
                MightWriteOutcome::TryAgain
            },
            Err(NotOne::Many(_)) => MightWriteOutcome::TryAgain,
            Ok(_) => {
                proof {
                    let k = choose|k: u64| holders::<R, CargoPackage>(ir@) == set![k];
                    assert(set![k].len() == 1) by {
                        assert(set![k] =~= Set::<u64>::empty().insert(k));
                    }
                }
                MightWriteOutcome::Runnable(IdSet::new())
            },
        }
    }
}

} // verus!
