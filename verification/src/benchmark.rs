//! What a benchmark makes of a translation: whether it went well, and how the tests of the
//! translated program went.
//!
//! The benchmark of one program goes through three stages: the test cases are read, the
//! program is translated and built, and the test cases are run on what was built. The
//! embedding program does the work of each stage. [`ProgramEvalStats`] takes down what came of
//! it and tells whether the next stage is to follow.

use crate::fs::copy_names;
use crate::fs::names_of;
use crate::full_source::CargoPackage;
use crate::full_source::RawSource;
use crate::fs::RawDir;
use crate::ir::HarvestIR;
use crate::ir::Holds;
use crate::text::decimal;
use crate::text::decimal_digits;
use crate::ir::holders;
use crate::try_cargo_build::raw_cargo_package;
use crate::ir::the_one;
use crate::try_cargo_build::CargoBuildResult;
use crate::ir::NotOne;
use vstd::prelude::*;
use vstd::string::StringExecFns;

verus! {

/// The directory tree of the one raw source in `ir`. Where there is none, or more than one,
/// the error says so in words.
pub fn raw_source<R: Holds<RawSource>>(ir: &HarvestIR<R>) -> (out: Result<&RawDir, String>)
    ensures
        match out {
            Ok(dir) => exists|k: u64|
                holders::<R, RawSource>(ir@) == set![k] && (ir@[k].held() matches Some(source)
                    && source.dir == *dir),
            Err(text) => if holders::<R, RawSource>(ir@) == Set::<u64>::empty() {
                text@ == "No RawSource representation found in IR"@
            } else {
                holders::<R, RawSource>(ir@).len() > 1 && text@ == "Found "@ + decimal_digits(
                    holders::<R, RawSource>(ir@).len(),
                ) + " RawSource representations, expected at most 1"@
            },
        },
{
    match the_one::<R, RawSource>(ir) {
        Ok(source) => Ok(&source.dir),
        Err(NotOne::Missing) => Err(String::from_str("No RawSource representation found in IR")),
        Err(NotOne::Many(count)) => {
            let mut text = String::from_str("Found ");
            text.append(decimal(count as u64).as_str());
            text.append(" RawSource representations, expected at most 1");
            proof {
                assert(holders::<R, RawSource>(ir@) != Set::<u64>::empty()) by {
                    assert(Set::<u64>::empty().len() == 0);
                }
            }
            Err(text)
        },
    }
}

/// What the one build result in `ir` says: the names of the files of the artifacts, or the
/// text of the failure. Where there is no build result, or more than one, that is the
/// failure.
pub open spec fn build_outcome<R: Holds<CargoBuildResult>>(ir: Map<u64, R>) -> Result<
    Seq<Seq<char>>,
    Seq<char>,
> {
    let results = holders::<R, CargoBuildResult>(ir);
    if results == Set::<u64>::empty() {
        Err("No artifacts built"@)
    } else if results.len() == 1 {
        match ir[results.choose()].held()->0.result {
            Ok(names) => Ok(names_of(names@)),
            Err(text) => Err(text@),
        }
    } else {
        Err("Found "@ + decimal_digits(results.len()) + " build results, expected at most 1"@)
    }
}

/// The artifacts of the one build in `ir`, or why there are none.
pub fn cargo_build_result<R: Holds<CargoBuildResult>>(ir: &HarvestIR<R>) -> (out: Result<
    Vec<String>,
    String,
>)
    ensures
        match (out, build_outcome(ir@)) {
            (Ok(names), Ok(expected)) => names_of(names@) == expected,
            (Err(text), Err(expected)) => text@ == expected,
            _ => false,
        },
{
    match the_one::<R, CargoBuildResult>(ir) {
        Err(NotOne::Missing) => Err(String::from_str("No artifacts built")),
        Ok(build) => {
            proof {
                let k = choose|k: u64|
                    holders::<R, CargoBuildResult>(ir@) == set![k] && ir@[k].held() == Some(
                        *build,
                    );
                assert(set![k] =~= Set::<u64>::empty().insert(k));
                assert(set![k].contains(k));
                assert(set![k].choose() == k);
            }
            match &build.result {
                Ok(names) => Ok(copy_names(names)),
                Err(text) => Err(text.clone()),
            }
        },
        Err(NotOne::Many(count)) => {
            let mut text = String::from_str("Found ");
            text.append(decimal(count as u64).as_str());
            text.append(" build results, expected at most 1");
            proof {
                assert(holders::<R, CargoBuildResult>(ir@) != Set::<u64>::empty()) by {
                    assert(Set::<u64>::empty().len() == 0);
                }
            }
            Err(text)
        },
    }
}

/// Encapsulate important results from transpilation
#[derive(Debug, PartialEq, Eq)]
pub struct TranspilationResult {
    /// Whether the IR holds the one cargo package: the translation yielded a project.
    pub translation_success: bool,
    /// Whether the project was built.
    pub build_success: bool,
    /// The path of the program that was built, or the empty path where none was.
    pub rust_binary_path: String,
    /// Why the project was not built, where it was not.
    pub build_error: Option<String>,
}

impl TranspilationResult {
    /// Extract relevant info from HarvestIR. A build that went well must have left an
    /// artifact: the first is taken for the program.
    pub fn from_ir<R: Holds<CargoPackage> + Holds<CargoBuildResult>>(ir: &HarvestIR<R>) -> (out:
        Self)
        requires
            build_outcome(ir@) matches Ok(names) ==> names.len() > 0,
        ensures
            out.translation_success == (holders::<R, CargoPackage>(ir@).len() == 1),
            match build_outcome(ir@) {
                Ok(names) => out.build_success && out.rust_binary_path@ == names[0]
                    && out.build_error is None,
                Err(text) => !out.build_success && out.rust_binary_path@ == Seq::<char>::empty()
                    && (out.build_error matches Some(error) && error@ == text),
            },
    {
        let package = raw_cargo_package(ir);
        let translation_success = package.is_ok();
        proof {
            if translation_success {
                let k = choose|k: u64| holders::<R, CargoPackage>(ir@) == set![k];
                assert(set![k] =~= Set::<u64>::empty().insert(k));
            } else {
                assert(Set::<u64>::empty().len() == 0);
            }
        }
        match cargo_build_result(ir) {
            Ok(artifacts) => TranspilationResult {
                translation_success,
                build_success: true,
                rust_binary_path: artifacts[0].clone(),
                build_error: None,
            },
            Err(error) => TranspilationResult {
                translation_success,
                build_success: false,
                rust_binary_path: String::new(),
                build_error: Some(error),
            },
        }
    }

    /// Extract relevant info from HarvestIR, if the IR allows it: a build that went well but
    /// left no artifact has no program to name, and yields `None`.
    pub fn try_from_ir<R: Holds<CargoPackage> + Holds<CargoBuildResult>>(ir: &HarvestIR<R>) -> (out:
        Option<Self>)
        ensures
            out is Some <==> (build_outcome(ir@) matches Ok(names) ==> names.len() > 0),
            out matches Some(result) ==> {
                &&& result.translation_success == (holders::<R, CargoPackage>(ir@).len() == 1)
                &&& match build_outcome(ir@) {
                    Ok(names) => result.build_success && result.rust_binary_path@ == names[0]
                        && result.build_error is None,
                    Err(text) => !result.build_success && result.rust_binary_path@ == Seq::<
                        char,
                    >::empty() && (result.build_error matches Some(error) && error@ == text),
                }
            },
    {
        match cargo_build_result(ir) {
            Ok(artifacts) => if artifacts.len() == 0 {
                return None;
            },
            Err(_) => {},
        }
        Some(TranspilationResult::from_ir(ir))
    }

    /// What is reported when the translation itself failed.
    pub fn failed() -> (out: Self)
        ensures
            !out.translation_success,
            !out.build_success,
            out.rust_binary_path@ == Seq::<char>::empty(),
            out.build_error matches Some(error) && error@ == "Failed to transpile"@,
    {
        TranspilationResult {
            translation_success: false,
            build_success: false,
            rust_binary_path: String::new(),
            build_error: Some(String::from_str("Failed to transpile")),
        }
    }
}

/// The mark that shows at a glance whether a step went well.
pub fn status_emoji(success: bool) -> (out: &'static str)
    ensures
        out@ == if success {
            "✅"@
        } else {
            "❌"@
        },
{
    match success {
        true => "✅",
        false => "❌",
    }
}

/// How one test case of a translated program went.
#[derive(Debug, PartialEq, Eq)]
pub struct TestResult {
    /// The name of the file that holds the test case.
    pub filename: String,
    /// Whether the program did what the test case asks.
    pub passed: bool,
}

/// The message that tells of the failure `error` of the test case `filename`.
pub open spec fn failure_text(filename: Seq<char>, error: Seq<char>) -> Seq<char> {
    "Test case "@ + filename + " failed: "@ + error
}

/// How many of the first `upto` of `outcomes` are successes.
pub open spec fn passed_among(outcomes: Seq<(String, Result<(), String>)>, upto: int) -> nat
    decreases upto,
{
    if upto <= 0 {
        0
    } else {
        passed_among(outcomes, upto - 1) + if outcomes[upto - 1].1 is Ok {
            1nat
        } else {
            0nat
        }
    }
}

/// The messages that tell of the failures among the first `upto` of `outcomes`, in their
/// order.
pub open spec fn failures_among(outcomes: Seq<(String, Result<(), String>)>, upto: int) -> Seq<
    Seq<char>,
>
    decreases upto,
{
    if upto <= 0 {
        Seq::empty()
    } else {
        match outcomes[upto - 1].1 {
            Ok(_) => failures_among(outcomes, upto - 1),
            Err(error) => failures_among(outcomes, upto - 1).push(
                failure_text(outcomes[upto - 1].0@, error@),
            ),
        }
    }
}

/// Sums up how the test cases went: for each test case, by the name of its file, whether it
/// passed; the messages that tell of the failures; and how many test cases passed.
pub fn run_test_validation(outcomes: &Vec<(String, Result<(), String>)>) -> (out: (
    Vec<TestResult>,
    Vec<String>,
    usize,
))
    ensures
        out.0@.len() == outcomes@.len(),
        forall|i: int|
            0 <= i < outcomes@.len() ==> (#[trigger] out.0@[i]).filename@ == outcomes@[i].0@
                && out.0@[i].passed == (outcomes@[i].1 is Ok),
        names_of(out.1@) == failures_among(outcomes@, outcomes@.len() as int),
        out.2 == passed_among(outcomes@, outcomes@.len() as int),
{
    let mut test_results: Vec<TestResult> = Vec::new();
    let mut error_messages: Vec<String> = Vec::new();
    let mut passed_tests: usize = 0;
    let mut i: usize = 0;
    assert(names_of(error_messages@) =~= failures_among(outcomes@, 0));
    while i < outcomes.len()
        invariant
            i <= outcomes.len(),
            test_results@.len() == i,
            forall|j: int|
                0 <= j < i ==> (#[trigger] test_results@[j]).filename@ == outcomes@[j].0@
                    && test_results@[j].passed == (outcomes@[j].1 is Ok),
            names_of(error_messages@) == failures_among(outcomes@, i as int),
            passed_tests == passed_among(outcomes@, i as int),
            passed_tests <= i,
        decreases outcomes.len() - i,
    {
        let filename = outcomes[i].0.clone();
        match &outcomes[i].1 {
            Ok(_) => {
                passed_tests = passed_tests + 1;
                test_results.push(TestResult { filename, passed: true });
            },
            Err(error) => {
                let mut text = String::from_str("Test case ");
                text.append(filename.as_str());
                text.append(" failed: ");
                text.append(error.as_str());
                test_results.push(TestResult { filename, passed: false });
                let ghost before = error_messages@;
                error_messages.push(text);
                assert(names_of(error_messages@) =~= names_of(before).push(text@));
            },
        }
        i = i + 1;
    }
    (test_results, error_messages, passed_tests)
}

/// The text that `{:?}` gives for `error`.
pub uninterp spec fn debug_text(error: Option<Seq<char>>) -> Seq<char>;

/// What `error` holds, as text.
pub open spec fn text_of(error: Option<String>) -> Option<Seq<char>> {
    match error {
        Some(text) => Some(text@),
        None => None,
    }
}

/// Formats `error` with `{:?}`, as `format!` of the standard library does: the result is the
/// text that this formatting gives for what `error` holds.
#[verifier::external_body]
fn debug(error: &Option<String>) -> (out: String)
    ensures
        out@ == debug_text(text_of(*error)),
{
    format!("{:?}", error)
}

/// Why the benchmark of a program ends after the translation, if it does, where `shown` is
/// what there is to show of the build's error: the translation or the build has failed. A
/// failed translation is named before a failed build.
pub open spec fn stop_text(translation_success: bool, build_success: bool, shown: Seq<char>)
    -> Option<Seq<char>> {
    if !translation_success {
        Some("Failed to translate C project: "@ + shown)
    } else if !build_success {
        Some("Failed to build Rust project: "@ + shown)
    } else {
        None
    }
}

/// Why the benchmark of a program ends after the translation, if it does.
pub fn stop_message(translation_success: bool, build_success: bool, shown: &str) -> (out: Option<
    String,
>)
    ensures
        text_of(out) == stop_text(translation_success, build_success, shown@),
{
    if translation_success && build_success {
        return None;
    }
    let mut text = if !translation_success {
        String::from_str("Failed to translate C project: ")
    } else {
        String::from_str("Failed to build Rust project: ")
    };
    text.append(shown);
    Some(text)
}

/// What the benchmark of one program has come to.
#[derive(Debug, PartialEq, Eq)]
pub struct ProgramEvalStats {
    /// The name of the program.
    pub program_name: String,
    /// Whether the translation yielded a project.
    pub translation_success: bool,
    /// Whether the project was built.
    pub rust_build_success: bool,
    /// How many test cases the program has.
    pub total_tests: usize,
    /// How many of them passed.
    pub passed_tests: usize,
    /// How each test case went, in the order in which they were run.
    pub test_results: Vec<TestResult>,
    /// Why the benchmark ended early, if it did.
    pub error_message: Option<String>,
}

impl ProgramEvalStats {
    /// The stats of the program `program_name`, of which nothing is known yet.
    pub fn new(program_name: &str) -> (out: Self)
        ensures
            out.program_name@ == program_name@,
            !out.translation_success,
            !out.rust_build_success,
            out.total_tests == 0,
            out.passed_tests == 0,
            out.test_results@ == Seq::<TestResult>::empty(),
            out.error_message is None,
    {
        ProgramEvalStats {
            program_name: program_name.to_owned(),
            translation_success: false,
            rust_build_success: false,
            total_tests: 0,
            passed_tests: 0,
            test_results: Vec::new(),
            error_message: None,
        }
    }

    /// Takes down what came of reading the test cases: how many there are, or why they could
    /// not be read, which ends the benchmark. Tells whether the translation is to follow.
    pub fn record_test_cases(&mut self, test_cases: Result<usize, String>) -> (out: bool)
        ensures
            out == (test_cases is Ok),
            match test_cases {
                Ok(count) => *final(self) == (ProgramEvalStats { total_tests: count, ..*old(self) }),
                Err(error) => *final(self) == (ProgramEvalStats {
                    error_message: Some(error),
                    ..*old(self)
                }),
            },
    {
        match test_cases {
            Ok(count) => {
                self.total_tests = count;
                true
            },
            Err(error) => {
                self.error_message = Some(error);
                false
            },
        }
    }

    /// Takes down what came of the translation. Where the translation or the build failed the
    /// benchmark ends, with a message that shows the build's error. Tells whether the tests
    /// are to follow.
    pub fn record_translation(&mut self, result: &TranspilationResult) -> (out: bool)
        ensures
            out == (result.translation_success && result.build_success),
            final(self).translation_success == result.translation_success,
            final(self).rust_build_success == result.build_success,
            final(self).program_name == old(self).program_name,
            final(self).total_tests == old(self).total_tests,
            final(self).passed_tests == old(self).passed_tests,
            final(self).test_results == old(self).test_results,
            if out {
                final(self).error_message == old(self).error_message
            } else {
                text_of(final(self).error_message) == stop_text(
                    result.translation_success,
                    result.build_success,
                    debug_text(text_of(result.build_error)),
                )
            },
    {
        self.translation_success = result.translation_success;
        self.rust_build_success = result.build_success;
        if result.translation_success && result.build_success {
            return true;
        }
        let shown = debug(&result.build_error);
        self.error_message = stop_message(
            result.translation_success,
            result.build_success,
            shown.as_str(),
        );
        false
    }

    /// Takes down how the test cases went, as [`run_test_validation`] sums them up. Returns
    /// the messages that tell of the failures, which are to be written down if there are any.
    pub fn record_tests(&mut self, outcomes: &Vec<(String, Result<(), String>)>) -> (out: Vec<
        String,
    >)
        ensures
            final(self).program_name == old(self).program_name,
            final(self).translation_success == old(self).translation_success,
            final(self).rust_build_success == old(self).rust_build_success,
            final(self).total_tests == old(self).total_tests,
            final(self).error_message == old(self).error_message,
            final(self).passed_tests == passed_among(outcomes@, outcomes@.len() as int),
            final(self).test_results@.len() == outcomes@.len(),
            forall|i: int|
                0 <= i < outcomes@.len() ==> (#[trigger] final(self).test_results@[i]).filename@
                    == outcomes@[i].0@ && final(self).test_results@[i].passed == (
                outcomes@[i].1 is Ok),
            names_of(out@) == failures_among(outcomes@, outcomes@.len() as int),
    {
        let (test_results, error_messages, passed_tests) = run_test_validation(outcomes);
        self.test_results = test_results;
        self.passed_tests = passed_tests;
        error_messages
    }
}

} // verus!
