use harvest::benchmark::cargo_build_result;
use harvest::benchmark::raw_source;
use harvest::benchmark::run_test_validation;
use harvest::benchmark::status_emoji;
use harvest::benchmark::stop_message;
use harvest::benchmark::ProgramEvalStats;
use harvest::benchmark::TestResult;
use harvest::benchmark::TranspilationResult;
use harvest::config::overrides;
use harvest::config::sorted;
use harvest::config::split_setting;
use harvest::config::unknown_field_warning;
use harvest::edit::Organizer;
use harvest::fs::PathComponent;
use harvest::fs::RawDir;
use harvest::fs::SetFileError;
use harvest::full_source::CargoPackage;
use harvest::full_source::RawSource;
use harvest::identify_project_kind::any_line_starts_with;
use harvest::identify_project_kind::identify;
use harvest::identify_project_kind::IdentifyProjectKind;
use harvest::identify_project_kind::ProjectKind;
use harvest::ir::Holds;
use harvest::load_raw_source::LoadRawSource;
use harvest::raw_source_to_cargo_llm::package_of;
use harvest::raw_source_to_cargo_llm::tree_of;
use harvest::raw_source_to_cargo_llm::unfence;
use harvest::raw_source_to_cargo_llm::ApiKey;
use harvest::raw_source_to_cargo_llm::RawSourceToCargoLlm;
use harvest::tagged::Tagged;
use harvest::tools::MightWriteContext;
use harvest::tools::MightWriteOutcome;
use harvest::tools::RunContext;
use harvest::tools::Tool;
use harvest::try_cargo_build::build_result;
use harvest::try_cargo_build::nesting_of;
use harvest::try_cargo_build::read_messages;
use harvest::try_cargo_build::CargoOutputError;
use harvest::try_cargo_build::MAX_NESTING;
use harvest::try_cargo_build::compiled_artifacts;
use harvest::try_cargo_build::compiler_messages;
use harvest::try_cargo_build::parse_compiled_artifacts;
use harvest::try_cargo_build::parse_compiler_messages;
use harvest::try_cargo_build::raw_cargo_package;
use harvest::ir::the_first;
use harvest::ir::the_one;
use harvest::try_cargo_build::CargoBuildResult;
use harvest::try_cargo_build::CargoMessage;
use harvest::ir::NotOne;
use harvest::try_cargo_build::TryCargoBuild;
use harvest::HarvestIR;
use harvest::IdSet;
use harvest::Representation;
use std::sync::atomic::AtomicU64;
use std::sync::Arc;

/// The representations of this file's IR.
type Repr = Tagged;

fn project(files: &[(&str, &str)]) -> RawDir {
    let mut dir = RawDir::default();
    for (path, contents) in files {
        dir.set_file(path, contents.as_bytes().to_vec()).unwrap();
    }
    dir
}

fn ir_of(representations: Vec<Repr>) -> HarvestIR<Repr> {
    let highest_id = AtomicU64::new(0);
    let mut ir = HarvestIR::new();
    for representation in representations {
        ir.add_representation(representation, &highest_id).unwrap();
    }
    ir
}

fn is_runnable_with_nothing(outcome: MightWriteOutcome) -> bool {
    matches!(outcome, MightWriteOutcome::Runnable(ids) if ids == IdSet::new())
}

#[test]
fn the_build_description_tells_the_kind() {
    assert_eq!(
        ProjectKind::detect(b"project(x)\nadd_executable(x main.c)\n"),
        Some(ProjectKind::Executable)
    );
    assert_eq!(
        ProjectKind::detect(b"add_library(x x.c)"),
        Some(ProjectKind::Library)
    );
    // An executable wins over a library, wherever the two stand.
    assert_eq!(
        ProjectKind::detect(b"add_library(x x.c)\r\nadd_executable(y y.c)\r\n"),
        Some(ProjectKind::Executable)
    );
    // The mark must stand at the start of a line.
    assert_eq!(ProjectKind::detect(b"  add_executable(x main.c)\n"), None);
    assert_eq!(ProjectKind::detect(b"# add_library(x)\n"), None);
    assert_eq!(ProjectKind::detect(b"add_executable"), None);
    assert_eq!(ProjectKind::detect(b""), None);
    assert_eq!(
        ProjectKind::detect(b"\xff\xfe\nadd_library(\xff"),
        Some(ProjectKind::Library)
    );
    assert!(any_line_starts_with(b"a\nbc", b"bc"));
    assert!(any_line_starts_with(b"a\nbc", b""));
    assert!(!any_line_starts_with(b"abc", b"bc"));
    assert!(!any_line_starts_with(b"a\nb", b"bc"));
}

#[test]
fn project_kinds_are_representations() {
    assert_eq!(ProjectKind::Library.name(), "KindAndName");
    assert_eq!(ProjectKind::Library.render(), "Library");
    assert_eq!(ProjectKind::Executable.render(), "Executable");
    let source = RawSource {
        dir: project(&[("src/main.c", "int main;"), ("CMakeLists.txt", "")]),
    };
    assert_eq!(source.name(), "RawSource");
    assert_eq!(
        source.render(),
        "Raw C source:\nsrc\n  main.c (9B)\nCMakeLists.txt (0B)\n"
    );
    let package = CargoPackage {
        dir: project(&[("Cargo.toml", "[package]")]),
    };
    assert_eq!(package.name(), "CargoPackage");
    assert_eq!(package.render(), "Cargo package:\nCargo.toml (9B)\n");
}

#[test]
fn identify_project_kind() {
    let executable = RawSource {
        dir: project(&[("CMakeLists.txt", "add_executable(a a.c)\n"), ("a.c", "")]),
    };
    let library = RawSource {
        dir: project(&[("CMakeLists.txt", "add_library(a a.c)\n")]),
    };
    let unknown = RawSource {
        dir: project(&[("sub/CMakeLists.txt", "add_library(a a.c)\n")]),
    };
    assert_eq!(identify(&executable), Some(ProjectKind::Executable));
    assert_eq!(identify(&library), Some(ProjectKind::Library));
    assert_eq!(identify(&unknown), None);

    assert!(matches!(
        IdentifyProjectKind::ready(&ir_of(vec![Repr::ProjectKind(ProjectKind::Library)])),
        MightWriteOutcome::TryAgain
    ));
    let ir = ir_of(vec![
        Repr::RawSource(library),
        Repr::RawSource(unknown),
        Repr::RawSource(executable),
    ]);
    assert!(is_runnable_with_nothing(IdentifyProjectKind::ready(&ir)));
    let mut tool = IdentifyProjectKind;
    assert_eq!(
        Tool::<Repr, (), ()>::name(&tool),
        "identify_project_kind"
    );
    assert!(is_runnable_with_nothing(Tool::<Repr, (), ()>::might_write(
        &mut tool,
        MightWriteContext::new(&ir)
    )));

    let mut organizer = Organizer::with_harvest_ir(ir, Arc::new(AtomicU64::new(100))).unwrap();
    let mut edit = organizer.new_edit(&[].into()).unwrap();
    let result = Box::new(tool).run(RunContext {
        ir_edit: &mut edit,
        ir_snapshot: organizer.snapshot(),
        config: Arc::new(()),
        reporter: (),
    });
    assert_eq!(result, Ok(()));
    assert_eq!(edit.changed_ids().len(), 2);
    assert!(organizer.apply_edit(edit).is_ok());
    let snapshot = organizer.snapshot();
    let kinds: Vec<ProjectKind> = snapshot
        .get_parts::<ProjectKind>()
        .into_iter()
        .map(|(_, kind)| *kind)
        .collect();
    assert_eq!(kinds, [ProjectKind::Library, ProjectKind::Executable]);
}

#[test]
fn the_one_of_a_kind() {
    let package = || {
        Repr::CargoPackage(CargoPackage {
            dir: project(&[("Cargo.toml", "")]),
        })
    };
    let kind = || Repr::ProjectKind(ProjectKind::Library);
    let none = ir_of(vec![kind()]);
    let one = ir_of(vec![kind(), package(), kind()]);
    let three = ir_of(vec![package(), package(), kind(), package()]);
    assert_eq!(the_one::<Repr, CargoPackage>(&none), Err(NotOne::Missing));
    assert_eq!(the_one::<Repr, CargoPackage>(&three), Err(NotOne::Many(3)));
    assert_eq!(
        the_one::<Repr, CargoPackage>(&one).map(|p| &p.dir),
        Ok(&project(&[("Cargo.toml", "")]))
    );
    assert_eq!(the_one::<Repr, ProjectKind>(&one), Err(NotOne::Many(2)));
    assert_eq!(
        raw_cargo_package(&none),
        Err("No CargoPackage representation found in IR".to_owned())
    );
    assert_eq!(
        raw_cargo_package(&three),
        Err("Found 3 CargoPackage representations, expected at most 1".to_owned())
    );
    assert_eq!(raw_cargo_package(&one), Ok(&project(&[("Cargo.toml", "")])));
    assert_eq!(
        raw_source(&one),
        Err("No RawSource representation found in IR".to_owned())
    );
    let sources = ir_of(vec![
        Repr::RawSource(RawSource {
            dir: RawDir::default(),
        }),
        Repr::RawSource(RawSource {
            dir: RawDir::default(),
        }),
    ]);
    assert_eq!(
        raw_source(&sources),
        Err("Found 2 RawSource representations, expected at most 1".to_owned())
    );
    assert!(matches!(TryCargoBuild::ready(&none), MightWriteOutcome::TryAgain));
    assert!(matches!(TryCargoBuild::ready(&three), MightWriteOutcome::TryAgain));
    assert!(is_runnable_with_nothing(TryCargoBuild::ready(&one)));
    assert_eq!(TryCargoBuild::name(), "try_cargo_build");
}

const ARTIFACT: &str = r#"{"reason":"compiler-artifact","package_id":"path+file:///tmp/p#prog@0.1.0","manifest_path":"/tmp/p/Cargo.toml","target":{"kind":["bin"],"crate_types":["bin"],"name":"prog","src_path":"/tmp/p/src/main.rs","edition":"2021","doc":true,"doctest":false,"test":true},"profile":{"opt_level":"3","debuginfo":0,"debug_assertions":false,"overflow_checks":false,"test":false},"features":[],"filenames":["/tmp/p/target/release/prog","/tmp/p/target/release/prog.d"],"executable":"/tmp/p/target/release/prog","fresh":false}"#;

const WARNING: &str = r#"{"reason":"compiler-message","package_id":"path+file:///tmp/p#prog@0.1.0","manifest_path":"/tmp/p/Cargo.toml","target":{"kind":["bin"],"crate_types":["bin"],"name":"prog","src_path":"/tmp/p/src/main.rs","edition":"2021","doc":true,"doctest":false,"test":true},"message":{"rendered":"warning: unused variable: `x`\n","$message_type":"diagnostic","children":[],"code":null,"level":"warning","message":"unused variable: `x`","spans":[]}}"#;

const ERROR: &str = r#"{"reason":"compiler-message","package_id":"path+file:///tmp/p#prog@0.1.0","manifest_path":"/tmp/p/Cargo.toml","target":{"kind":["bin"],"crate_types":["bin"],"name":"prog","src_path":"/tmp/p/src/main.rs","edition":"2021","doc":true,"doctest":false,"test":true},"message":{"rendered":null,"$message_type":"diagnostic","children":[],"code":null,"level":"error","message":"mismatched types","spans":[]}}"#;

const FINISHED: &str = r#"{"reason":"build-finished","success":true}"#;

#[test]
fn cargo_output_is_read_message_by_message() {
    let stdout = format!("{WARNING}\nsome text\n{ARTIFACT}\n{ERROR}\n{FINISHED}\n");
    assert_eq!(
        parse_compiled_artifacts(stdout.as_bytes()).unwrap(),
        ["/tmp/p/target/release/prog", "/tmp/p/target/release/prog.d"]
    );
    assert_eq!(
        parse_compiler_messages(stdout.as_bytes()).unwrap(),
        "Compiler Message: warning: unused variable: `x`\n\nCompiler Message: cargo didn't render this message"
    );
    assert_eq!(parse_compiler_messages(b"").unwrap(), "");
    assert_eq!(
        parse_compiled_artifacts(b"no json\n").unwrap(),
        Vec::<String>::new()
    );
    assert_eq!(
        parse_compiler_messages(WARNING.as_bytes()).unwrap(),
        "Compiler Message: warning: unused variable: `x`\n"
    );
    // Output that is not UTF-8 cannot be read.
    assert!(parse_compiler_messages(b"\xff\n").is_err());
    assert!(parse_compiled_artifacts(format!("{ARTIFACT}\n\u{0}").replace('\u{0}', "\u{fffd}").as_bytes()).is_ok());
    assert!(parse_compiled_artifacts(&[ARTIFACT.as_bytes(), b"\n\xc3\n"].concat()).is_err());
}

#[test]
fn output_that_nests_too_deep_is_not_read() {
    let deep = |levels: usize| format!("{}{}\n", "[".repeat(levels), "]".repeat(levels));
    assert_eq!(nesting_of(b""), 0);
    assert_eq!(nesting_of(b"{\"a\": [1, {\"b\": []}]}"), 4);
    assert_eq!(nesting_of(b"[[\n[[["), 3);
    // Brackets in strings do not count, and a quote behind a backslash does not end a string.
    assert_eq!(nesting_of(b"[\"[[[\", \"\\\"{{\", {}]"), 2);
    assert_eq!(nesting_of(b"]]][}"), 1);
    assert_eq!(nesting_of(deep(MAX_NESTING).as_bytes()), MAX_NESTING);
    assert_eq!(nesting_of(ARTIFACT.as_bytes()), 3);
    assert!(read_messages(deep(MAX_NESTING).as_bytes()).is_ok());
    assert!(matches!(
        read_messages(deep(MAX_NESTING + 1).as_bytes()),
        Err(CargoOutputError::NestedTooDeep)
    ));
    assert!(matches!(
        parse_compiler_messages(deep(100_000).as_bytes()),
        Err(CargoOutputError::NestedTooDeep)
    ));
    assert!(matches!(
        build_result(true, deep(100_000).as_bytes(), ""),
        Err(CargoOutputError::NestedTooDeep)
    ));
    assert!(matches!(
        read_messages(b"\xff"),
        Err(CargoOutputError::Unreadable(_))
    ));
    assert_eq!(
        read_messages(format!("x\n{FINISHED}\n{ARTIFACT}").as_bytes()).unwrap(),
        [
            CargoMessage::Other,
            CargoMessage::Other,
            CargoMessage::CompilerArtifact(vec![
                "/tmp/p/target/release/prog".to_owned(),
                "/tmp/p/target/release/prog.d".to_owned()
            ])
        ]
    );
}

#[test]
fn messages_are_joined_and_artifacts_listed() {
    let messages = vec![
        CargoMessage::Other,
        CargoMessage::CompilerMessage("first".to_owned()),
        CargoMessage::CompilerArtifact(vec!["a".to_owned(), "b".to_owned()]),
        CargoMessage::CompilerMessage("second".to_owned()),
        CargoMessage::CompilerArtifact(vec![]),
        CargoMessage::CompilerArtifact(vec!["c".to_owned()]),
        CargoMessage::Other,
    ];
    assert_eq!(
        compiler_messages(&messages),
        "Compiler Message: first\nCompiler Message: second"
    );
    assert_eq!(compiled_artifacts(&messages), ["a", "b", "c"]);
    assert_eq!(compiler_messages(&vec![]), "");
    assert_eq!(compiler_messages(&vec![CargoMessage::Other]), "");
    assert_eq!(
        compiler_messages(&vec![CargoMessage::CompilerMessage(String::new())]),
        "Compiler Message: "
    );
    assert_eq!(compiled_artifacts(&vec![]), Vec::<String>::new());
}

#[test]
fn what_is_made_of_a_build() {
    let stdout = format!("{WARNING}\n{ARTIFACT}\n");
    assert_eq!(
        build_result(true, stdout.as_bytes(), "ignored").unwrap(),
        Ok(vec![
            "/tmp/p/target/release/prog".to_owned(),
            "/tmp/p/target/release/prog.d".to_owned()
        ])
    );
    assert_eq!(
        build_result(false, stdout.as_bytes(), "error: could not compile\n").unwrap(),
        Err("Compiler Message: warning: unused variable: `x`\n\nerror: could not compile\n".to_owned())
    );
    assert_eq!(build_result(false, b"", "").unwrap(), Err("\n".to_owned()));
    assert!(build_result(true, b"\xff", "").is_err());
    assert!(build_result(false, b"\xff", "").is_err());
}

#[test]
fn build_results_are_representations() {
    let built = CargoBuildResult {
        result: Ok(vec!["target/a".to_owned(), "target/b".to_owned()]),
    };
    let failed = CargoBuildResult {
        result: Err("no luck".to_owned()),
    };
    assert_eq!(built.name(), "CargoBuildResult");
    assert_eq!(
        built.render(),
        "Built Rust artifact:\n  Build succeeded. Artifacts:\n    target/a\n    target/b\n"
    );
    assert_eq!(
        failed.render(),
        "Built Rust artifact:\n  Build failed: no luck\n"
    );
    assert_eq!(built.clone(), built);
    assert_eq!(failed.clone(), failed);
}

#[test]
fn transpilation_results() {
    let package = || {
        Repr::CargoPackage(CargoPackage {
            dir: RawDir::default(),
        })
    };
    let built = |names: &[&str]| {
        Repr::CargoBuildResult(CargoBuildResult {
            result: Ok(names.iter().map(|n| (*n).to_owned()).collect()),
        })
    };
    let failed = || {
        Repr::CargoBuildResult(CargoBuildResult {
            result: Err("rustc said no".to_owned()),
        })
    };
    assert_eq!(
        TranspilationResult::from_ir(&ir_of(vec![package(), built(&["bin/a", "bin/b"])])),
        TranspilationResult {
            translation_success: true,
            build_success: true,
            rust_binary_path: "bin/a".to_owned(),
            build_error: None,
        }
    );
    assert_eq!(
        TranspilationResult::from_ir(&ir_of(vec![package(), failed()])),
        TranspilationResult {
            translation_success: true,
            build_success: false,
            rust_binary_path: String::new(),
            build_error: Some("rustc said no".to_owned()),
        }
    );
    assert_eq!(
        TranspilationResult::from_ir(&ir_of(vec![])),
        TranspilationResult {
            translation_success: false,
            build_success: false,
            rust_binary_path: String::new(),
            build_error: Some("No artifacts built".to_owned()),
        }
    );
    assert_eq!(
        TranspilationResult::from_ir(&ir_of(vec![package(), package(), built(&["a"]), failed()])),
        TranspilationResult {
            translation_success: false,
            build_success: false,
            rust_binary_path: String::new(),
            build_error: Some("Found 2 build results, expected at most 1".to_owned()),
        }
    );
    assert_eq!(
        cargo_build_result(&ir_of(vec![built(&["x", "y"])])),
        Ok(vec!["x".to_owned(), "y".to_owned()])
    );
    assert_eq!(
        TranspilationResult::failed().build_error,
        Some("Failed to transpile".to_owned())
    );
    assert_eq!(status_emoji(true), "✅");
    assert_eq!(status_emoji(false), "❌");
}

#[test]
fn test_validation_is_summed_up() {
    let outcomes = vec![
        ("t1.json".to_owned(), Ok(())),
        ("t2.json".to_owned(), Err("wrong output".to_owned())),
        ("t3.json".to_owned(), Ok(())),
        ("t4.json".to_owned(), Err("timed out".to_owned())),
    ];
    let (results, errors, passed) = run_test_validation(&outcomes);
    let result = |filename: &str, passed| TestResult {
        filename: filename.to_owned(),
        passed,
    };
    assert_eq!(
        results,
        [
            result("t1.json", true),
            result("t2.json", false),
            result("t3.json", true),
            result("t4.json", false)
        ]
    );
    assert_eq!(
        errors,
        [
            "Test case t2.json failed: wrong output",
            "Test case t4.json failed: timed out"
        ]
    );
    assert_eq!(passed, 2);
    assert_eq!(run_test_validation(&vec![]), (vec![], vec![], 0));
}

#[test]
fn the_fence_comes_off_the_answer() {
    assert_eq!(unfence("```json{\"files\": []}```"), "{\"files\": []}");
    assert_eq!(unfence("```{\"files\": []}```"), "{\"files\": []}");
    assert_eq!(unfence("json{}"), "{}");
    assert_eq!(unfence("{}```"), "{}");
    assert_eq!(unfence("{}"), "{}");
    assert_eq!(unfence(""), "");
    assert_eq!(unfence("```"), "");
    assert_eq!(unfence("``````"), "");
    assert_eq!(unfence("```json"), "");
    assert_eq!(unfence("```json```"), "");
    assert_eq!(unfence("```json``"), "``");
    assert_eq!(unfence("`` `json{}"), "`` `json{}");
    assert_eq!(unfence(" ```json{}``` "), " ```json{}``` ");
    assert_eq!(unfence("```json\n{\"é\": 1}\n```"), "\n{\"é\": 1}\n");
    for response in ["```json{}```", "json```", "x", "```jso```"] {
        let expected = {
            let r = response.strip_prefix("```").unwrap_or(response);
            let r = r.strip_prefix("json").unwrap_or(r);
            r.strip_suffix("```").unwrap_or(r)
        };
        assert_eq!(unfence(response), expected);
    }
}

#[test]
fn the_files_of_the_answer_make_a_package() {
    let files = vec![
        ("Cargo.toml".to_owned(), b"[package]".to_vec()),
        ("src/main.rs".to_owned(), b"fn main() {}".to_vec()),
        ("./src/lib.rs".to_owned(), b"".to_vec()),
    ];
    let package = package_of(files).unwrap();
    assert_eq!(
        package.dir,
        project(&[
            ("src/lib.rs", ""),
            ("src/main.rs", "fn main() {}"),
            ("Cargo.toml", "[package]")
        ])
    );
    // The first file that cannot be made ends the work.
    assert_eq!(
        package_of(vec![
            ("a".to_owned(), vec![]),
            ("a/b".to_owned(), vec![]),
            ("/c".to_owned(), vec![])
        ]),
        Err(SetFileError::UnderFile)
    );
    assert_eq!(
        package_of(vec![("a".to_owned(), vec![]), ("a".to_owned(), vec![1])]),
        Err(SetFileError::AlreadyExists)
    );
    assert_eq!(
        package_of(vec![("../a".to_owned(), vec![])]),
        Err(SetFileError::OutsideDir)
    );
    assert_eq!(package_of(vec![]).unwrap().dir, RawDir::default());
    let normal = |name: &str| PathComponent::Normal(name.to_owned());
    assert_eq!(
        tree_of(vec![
            (vec![normal("d"), normal("f")], vec![1]),
            (vec![normal("g")], vec![2])
        ]),
        Ok(project(&[("d/f", "\u{1}"), ("g", "\u{2}")]))
    );
    assert_eq!(
        tree_of(vec![(vec![], vec![1])]),
        Err(SetFileError::EmptyFileName)
    );
}

#[test]
fn the_model_tool_waits_for_source_and_kind() {
    let source = || {
        Repr::RawSource(RawSource {
            dir: RawDir::default(),
        })
    };
    let kind = || Repr::ProjectKind(ProjectKind::Executable);
    assert!(matches!(
        RawSourceToCargoLlm::ready(&ir_of(vec![])),
        MightWriteOutcome::TryAgain
    ));
    assert!(matches!(
        RawSourceToCargoLlm::ready(&ir_of(vec![source()])),
        MightWriteOutcome::TryAgain
    ));
    assert!(matches!(
        RawSourceToCargoLlm::ready(&ir_of(vec![kind(), kind()])),
        MightWriteOutcome::TryAgain
    ));
    assert!(is_runnable_with_nothing(RawSourceToCargoLlm::ready(&ir_of(
        vec![kind(), source()]
    ))));
    assert_eq!(RawSourceToCargoLlm::name(), "raw_source_to_cargo_llm");
    assert_eq!(ApiKey("secret".to_owned()).redacted(), "********");
}

#[test]
fn load_raw_source() {
    let tool = LoadRawSource::new("input/project");
    assert_eq!(tool.directory(), "input/project");
    assert_eq!(LoadRawSource::name(), "load_raw_source");
    assert!(is_runnable_with_nothing(LoadRawSource::ready()));
    let mut organizer = Organizer::<Repr>::new(Arc::new(AtomicU64::new(0))).unwrap();
    let mut edit = organizer.new_edit(&[].into()).unwrap();
    let id = LoadRawSource::load(&mut edit, project(&[("a.c", "x")])).unwrap();
    assert_eq!(edit.changed_ids(), [id]);
    assert!(organizer.apply_edit(edit).is_ok());
    assert_eq!(
        organizer.snapshot().get(id),
        Some(&Repr::RawSource(RawSource {
            dir: project(&[("a.c", "x")])
        }))
    );
    assert_eq!(raw_source(&organizer.snapshot()), Ok(&project(&[("a.c", "x")])));
}

#[test]
fn unknown_config_keys_get_warnings_in_order() {
    let keys = |names: &[&str]| -> Vec<String> { names.iter().map(|n| (*n).to_owned()).collect() };
    assert_eq!(
        unknown_field_warning("", keys(&["zeta", "alpha", "Beta", "alpha2"])),
        [
            "Warning: unknown config key Beta",
            "Warning: unknown config key alpha",
            "Warning: unknown config key alpha2",
            "Warning: unknown config key zeta"
        ]
    );
    assert_eq!(
        unknown_field_warning("tools.raw_source_to_cargo_llm", keys(&["modle", "adress"])),
        [
            "Warning: unknown config key tools.raw_source_to_cargo_llm.adress",
            "Warning: unknown config key tools.raw_source_to_cargo_llm.modle"
        ]
    );
    assert_eq!(unknown_field_warning("p", keys(&[])), Vec::<String>::new());
    let mut expected = keys(&["b", "", "a", "b", "ab", "é", "B"]);
    let sorted_keys = sorted(expected.clone());
    expected.sort_unstable();
    assert_eq!(sorted_keys, expected);
}

#[test]
fn the_ir_is_rendered_line_by_line() {
    let ir = ir_of(vec![
        Repr::ProjectKind(ProjectKind::Library),
        Repr::CargoBuildResult(CargoBuildResult {
            result: Err("x".to_owned()),
        }),
    ]);
    assert_eq!(
        ir.render(),
        "Id(1): Library\nId(2): Built Rust artifact:\n  Build failed: x\n\n"
    );
    assert_eq!(HarvestIR::<Repr>::new().render(), "");
}

#[test]
fn a_setting_is_split_at_the_first_equals_sign() {
    let pair = |name: &str, value: &str| Some((name.to_owned(), value.to_owned()));
    assert_eq!(split_setting("input=c"), pair("input", "c"));
    assert_eq!(split_setting("log_filter=a=b"), pair("log_filter", "a=b"));
    assert_eq!(split_setting("force="), pair("force", ""));
    assert_eq!(split_setting("=x"), pair("", "x"));
    assert_eq!(split_setting("="), pair("", ""));
    assert_eq!(split_setting("tools.x.é=ü"), pair("tools.x.é", "ü"));
    assert_eq!(split_setting("input"), None);
    assert_eq!(split_setting(""), None);
}

#[test]
fn the_command_line_overrides_in_order() {
    let pair = |name: &str, value: &str| (name.to_owned(), value.to_owned());
    let config = vec!["input=d".to_owned(), "force=false".to_owned()];
    assert_eq!(
        overrides(&config, false, false, false),
        Ok(vec![pair("input", "d"), pair("force", "false")])
    );
    // The flags come after what is spelled out, so they win.
    assert_eq!(
        overrides(&config, true, true, true),
        Ok(vec![
            pair("input", "d"),
            pair("force", "false"),
            pair("force", "true"),
            pair("input", " "),
            pair("output", " "),
        ])
    );
    assert_eq!(
        overrides(&Vec::new(), false, true, false),
        Ok(vec![pair("input", " ")])
    );
    assert_eq!(
        overrides(&Vec::new(), false, false, true),
        Ok(vec![pair("output", " ")])
    );
    assert_eq!(overrides(&Vec::new(), false, false, false), Ok(vec![]));
    let faulty = vec![
        "input=d".to_owned(),
        "oops".to_owned(),
        "again".to_owned(),
    ];
    assert_eq!(overrides(&faulty, true, true, true), Err(1));
}

#[test]
fn a_benchmark_that_cannot_read_its_test_cases_ends_there() {
    let mut stats = ProgramEvalStats::new("wc");
    assert_eq!(
        stats,
        ProgramEvalStats {
            program_name: "wc".to_owned(),
            translation_success: false,
            rust_build_success: false,
            total_tests: 0,
            passed_tests: 0,
            test_results: vec![],
            error_message: None,
        }
    );
    assert!(!stats.record_test_cases(Err("no test_vectors directory".to_owned())));
    assert_eq!(
        stats.error_message,
        Some("no test_vectors directory".to_owned())
    );
    assert_eq!(stats.total_tests, 0);

    let mut stats = ProgramEvalStats::new("wc");
    assert!(stats.record_test_cases(Ok(7)));
    assert_eq!(stats.total_tests, 7);
    assert_eq!(stats.error_message, None);
}

#[test]
fn a_benchmark_goes_on_to_the_tests_only_after_a_build() {
    let mut stats = ProgramEvalStats::new("wc");
    stats.record_test_cases(Ok(2));
    let built = TranspilationResult {
        translation_success: true,
        build_success: true,
        rust_binary_path: "target/debug/wc".to_owned(),
        build_error: None,
    };
    assert!(stats.record_translation(&built));
    assert!(stats.translation_success && stats.rust_build_success);
    assert_eq!(stats.error_message, None);
    let errors = stats.record_tests(&vec![
        ("t1.json".to_owned(), Ok(())),
        ("t2.json".to_owned(), Err("wrong output".to_owned())),
    ]);
    assert_eq!(errors, ["Test case t2.json failed: wrong output"]);
    assert_eq!(stats.passed_tests, 1);
    assert_eq!(stats.total_tests, 2);
    assert_eq!(
        stats.test_results,
        [
            TestResult {
                filename: "t1.json".to_owned(),
                passed: true
            },
            TestResult {
                filename: "t2.json".to_owned(),
                passed: false
            },
        ]
    );

    let mut stats = ProgramEvalStats::new("wc");
    let not_built = TranspilationResult {
        translation_success: true,
        build_success: false,
        rust_binary_path: String::new(),
        build_error: Some("rustc said \"no\"".to_owned()),
    };
    assert!(!stats.record_translation(&not_built));
    assert!(stats.translation_success && !stats.rust_build_success);
    assert_eq!(
        stats.error_message,
        Some("Failed to build Rust project: Some(\"rustc said \\\"no\\\"\")".to_owned())
    );

    let mut stats = ProgramEvalStats::new("wc");
    assert!(!stats.record_translation(&TranspilationResult::failed()));
    assert!(!stats.translation_success && !stats.rust_build_success);
    assert_eq!(
        stats.error_message,
        Some("Failed to translate C project: Some(\"Failed to transpile\")".to_owned())
    );

    // A translation that failed is named before a build that failed, and the build's error
    // is shown as it is, also where there is none.
    let mut stats = ProgramEvalStats::new("wc");
    let odd = TranspilationResult {
        translation_success: false,
        build_success: true,
        rust_binary_path: String::new(),
        build_error: None,
    };
    assert!(!stats.record_translation(&odd));
    assert_eq!(
        stats.error_message,
        Some("Failed to translate C project: None".to_owned())
    );
}

#[test]
fn the_message_that_ends_a_benchmark() {
    assert_eq!(stop_message(true, true, "None"), None);
    assert_eq!(
        stop_message(false, true, "x"),
        Some("Failed to translate C project: x".to_owned())
    );
    assert_eq!(
        stop_message(false, false, "x"),
        Some("Failed to translate C project: x".to_owned())
    );
    assert_eq!(
        stop_message(true, false, ""),
        Some("Failed to build Rust project: ".to_owned())
    );
}

#[test]
fn a_tagged_representation_holds_one_kind() {
    let source = Tagged::RawSource(RawSource {
        dir: project(&[("main.c", "int main() {}")]),
    });
    assert_eq!(source.name(), "RawSource");
    assert!(Holds::<RawSource>::part(&source).is_some());
    assert!(Holds::<CargoPackage>::part(&source).is_none());
    assert!(Holds::<ProjectKind>::part(&source).is_none());
    assert!(Holds::<CargoBuildResult>::part(&source).is_none());
    assert_eq!(
        source.render(),
        RawSource {
            dir: project(&[("main.c", "int main() {}")])
        }
        .render()
    );

    let kind = <Tagged as Holds<ProjectKind>>::wrap(ProjectKind::Library);
    assert_eq!(kind, Tagged::ProjectKind(ProjectKind::Library));
    assert_eq!(Holds::<ProjectKind>::part(&kind), Some(&ProjectKind::Library));
    assert!(Holds::<RawSource>::part(&kind).is_none());
    assert_eq!(kind.name(), "KindAndName");
    assert_eq!(kind.render(), "Library");

    let build = <Tagged as Holds<CargoBuildResult>>::wrap(CargoBuildResult {
        result: Err("no".to_owned()),
    });
    assert_eq!(build.name(), "CargoBuildResult");
    assert!(Holds::<CargoBuildResult>::part(&build).is_some());
    assert!(Holds::<CargoPackage>::part(&build).is_none());

    let package = <Tagged as Holds<CargoPackage>>::wrap(CargoPackage {
        dir: RawDir::default(),
    });
    assert_eq!(package.name(), "CargoPackage");
    assert!(Holds::<CargoPackage>::part(&package).is_some());
    assert!(Holds::<RawSource>::part(&package).is_none());
}

#[test]
fn what_the_model_is_asked() {
    assert!(RawSourceToCargoLlm::is_open_router("openrouter"));
    assert!(!RawSourceToCargoLlm::is_open_router("ollama"));
    assert!(!RawSourceToCargoLlm::is_open_router("OpenRouter"));
    assert!(!RawSourceToCargoLlm::is_open_router(""));

    let executable = RawSourceToCargoLlm::system_prompt(ProjectKind::Executable);
    let library = RawSourceToCargoLlm::system_prompt(ProjectKind::Library);
    assert!(executable.contains("executable") && executable.contains("src/main.rs"));
    assert!(library.contains("library") && library.contains("src/lib.rs"));
    assert_ne!(executable, library);

    assert_eq!(RawSourceToCargoLlm::given(&None), None);
    assert_eq!(RawSourceToCargoLlm::given(&Some(String::new())), None);
    assert_eq!(
        RawSourceToCargoLlm::given(&Some("http://[::1]:11434".to_owned())),
        Some("http://[::1]:11434")
    );

    assert_eq!(
        RawSourceToCargoLlm::request("{\"files\":[]}".to_owned()),
        [
            "Please translate the following C project into a Rust project including Cargo manifest:",
            "{\"files\":[]}",
            "return as JSON"
        ]
    );
}

#[test]
fn the_model_tool_works_on_the_first_source_and_kind() {
    let source = |name: &str| {
        Repr::RawSource(RawSource {
            dir: project(&[(name, "")]),
        })
    };
    assert!(RawSourceToCargoLlm::inputs(&ir_of(vec![])).is_none());
    assert!(RawSourceToCargoLlm::inputs(&ir_of(vec![source("a.c")])).is_none());
    assert!(
        RawSourceToCargoLlm::inputs(&ir_of(vec![Repr::ProjectKind(ProjectKind::Library)]))
            .is_none()
    );
    let ir = ir_of(vec![
        Repr::ProjectKind(ProjectKind::Executable),
        source("first.c"),
        Repr::ProjectKind(ProjectKind::Library),
        source("second.c"),
    ]);
    let (dir, kind) = RawSourceToCargoLlm::inputs(&ir).unwrap();
    assert_eq!(kind, ProjectKind::Executable);
    assert!(dir.get_file("first.c").is_ok());
    assert!(dir.get_file("second.c").is_err());

    assert_eq!(the_first::<Repr, CargoPackage>(&ir), None);
    assert_eq!(
        the_first::<Repr, ProjectKind>(&ir),
        Some(&ProjectKind::Executable)
    );
}

/// Loads the configuration as the program does, but for the file system: the user's
/// configuration file is the text `user_file`, and the command line is spelled out.
fn load_config(
    config_args: &[&str],
    force: bool,
    input: Option<&str>,
    output: Option<&str>,
    user_file: &str,
) -> (String, bool) {
    let defaults = "force = false\nlog_filter = \"\"\n";
    let mut settings = config::Config::builder()
        .add_source(config::File::from_str(defaults, config::FileFormat::Toml))
        .add_source(config::File::from_str(user_file, config::FileFormat::Toml));
    let config_args: Vec<String> = config_args.iter().map(|arg| (*arg).to_owned()).collect();
    let overrides = overrides(&config_args, force, input.is_some(), output.is_some());
    for (name, value) in overrides.expect("no '=' found") {
        settings = settings
            .set_override(name, value)
            .expect("settings override failed");
    }
    let settings = settings.build().expect("failed to build settings");
    let loaded_input = match input {
        Some(input) => input.to_owned(),
        None => settings.get_string("input").expect("no input"),
    };
    (loaded_input, settings.get_bool("force").expect("no force"))
}

#[test]
fn load_config_test() {
    assert_eq!(load_config(&[], false, Some("a"), Some("/tmp/out"), "").0, "a");

    let user_file = r#"
        input = "b"
        [tools.raw_source_to_cargo_llm]
        address = "127.0.0.1"
        model = "gpt-oss"
    "#;
    assert_eq!(
        load_config(&[], false, None, Some("/tmp/out"), user_file).0,
        "b"
    );
    // Verify the --config flag overrides the user's config file.
    assert_eq!(
        load_config(&["input=c"], false, None, Some("/tmp/out"), user_file).0,
        "c"
    );
    // Verify --input overrides all the configuration options.
    assert_eq!(
        load_config(&["input=d"], false, Some("d"), Some("/tmp/out"), user_file).0,
        "d"
    );
    // Verify --force enables the force option.
    assert!(load_config(&[], true, None, Some("/tmp/out"), user_file).1);
    assert!(!load_config(&[], false, None, Some("/tmp/out"), user_file).1);
    // A flag comes after what is spelled out.
    assert!(load_config(&["force=false"], true, None, Some("/tmp/out"), user_file).1);
}
