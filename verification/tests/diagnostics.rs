use harvest::diagnostics::ir_version_directory;
use harvest::diagnostics::run_directory;
use harvest::diagnostics::Reporter;
use harvest::diagnostics::ToolId;
use harvest::HarvestIR;
use harvest::Representation;
use std::sync::atomic::AtomicU64;

struct Named(&'static str);

impl Representation for Named {
    fn name(&self) -> &'static str {
        self.0
    }

    fn render(&self) -> String {
        format!("Named({})", self.0)
    }
}

#[test]
fn tool_run_id_display() {
    let mut reporter = Reporter::new();
    let run_id = reporter
        .start_tool_run(ToolId::named("mock_tool"))
        .tool_run();
    assert_eq!(run_id.to_string(), "mock_tool_001");
}

#[test]
fn runs_of_a_tool_are_numbered_in_order() {
    let mut reporter = Reporter::default();
    let a = ToolId::named("tool_a");
    let b = ToolId::named("tool_b");
    assert_eq!(reporter.runs_started(a), 0);
    let started: Vec<String> = [a, b, a, a, b, a]
        .into_iter()
        .map(|tool| reporter.start_tool_run(tool).tool_run().to_string())
        .collect();
    assert_eq!(
        started,
        ["tool_a_001", "tool_b_001", "tool_a_002", "tool_a_003", "tool_b_002", "tool_a_004"]
    );
    assert_eq!(reporter.runs_started(a), 4);
    assert_eq!(reporter.runs_started(b), 2);
    assert_eq!(reporter.runs_started(ToolId::named("tool_c")), 0);
}

#[test]
fn a_run_knows_its_tool_and_its_number() {
    let mut reporter = Reporter::new();
    let tool = ToolId::named("try_cargo_build");
    reporter.start_tool_run(tool);
    let handle = reporter.start_tool_run(tool);
    assert_eq!(handle.tool_id(), tool);
    assert_eq!(handle.tool_id().name(), "try_cargo_build");
    assert_eq!(handle.tool_id().to_string(), "try_cargo_build");
    assert_eq!(handle.tool_run().tool_id(), tool);
    assert_eq!(handle.tool_run().run_number(), 2);
    assert_eq!(handle.tool_run().to_string(), "try_cargo_build_002");
    assert_eq!(run_directory(handle.tool_run()), "steps/try_cargo_build_002");
}

#[test]
fn run_numbers_keep_three_digits_at_least() {
    let mut reporter = Reporter::new();
    let tool = ToolId::named("t");
    let mut last = reporter.start_tool_run(tool).tool_run();
    for _ in 1..1000 {
        last = reporter.start_tool_run(tool).tool_run();
    }
    assert_eq!(last.run_number(), 1000);
    assert_eq!(last.to_string(), "t_1000");
}

#[test]
fn versions_of_the_ir_have_their_directories() {
    assert_eq!(ir_version_directory(0), "ir/000");
    assert_eq!(ir_version_directory(1), "ir/001");
    assert_eq!(ir_version_directory(123), "ir/123");
    assert_eq!(ir_version_directory(1234), "ir/1234");
}

#[test]
fn the_index_lists_the_representations_in_ascending_order() {
    let highest_id = AtomicU64::new(8);
    let mut ir = HarvestIR::new();
    let a = ir
        .add_representation(Named("RawSource"), &highest_id)
        .unwrap();
    let b = ir
        .add_representation(Named("KindAndName"), &highest_id)
        .unwrap();
    let c = ir
        .add_representation(Named("CargoPackage"), &highest_id)
        .unwrap();
    let report = Reporter::new().report_ir_version(2, &ir);
    assert_eq!(report.directory, "ir/002");
    assert_eq!(
        report.index,
        "009: RawSource\n010: KindAndName\n011: CargoPackage\n"
    );
    let entries: Vec<_> = report
        .entries
        .iter()
        .map(|entry| (entry.id, entry.file_name.as_str(), entry.name))
        .collect();
    assert_eq!(
        entries,
        [
            (a, "009", "RawSource"),
            (b, "010", "KindAndName"),
            (c, "011", "CargoPackage")
        ]
    );
    let empty = Reporter::new().report_ir_version(0, &HarvestIR::<Named>::new());
    assert_eq!(empty.directory, "ir/000");
    assert_eq!(empty.index, "");
    assert!(empty.entries.is_empty());
}
