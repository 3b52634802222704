use harvest::scheduler::NextInvocationOutcome;
use harvest::scheduler::Scheduler;

struct MockTool {
    name: &'static str,
}

impl MockTool {
    fn new() -> MockTool {
        MockTool { name: "mock_tool" }
    }

    fn name(mut self, name: &'static str) -> MockTool {
        self.name = name;
        self
    }
}

#[test]
fn next_invocation() {
    // Counters for the number of times the scheduler tries to run each tool invocation.
    let [mut a_count, mut b_count] = [0, 0];
    let mut scheduler = Scheduler::default();
    scheduler.queue_invocation(MockTool::new().name("a"));
    scheduler.queue_invocation(MockTool::new().name("b"));
    scheduler
        .next_invocations(|t: MockTool| -> NextInvocationOutcome<MockTool, String> {
            match t.name {
                "a" => {
                    a_count += 1;
                    NextInvocationOutcome::DontTryAgain
                }
                "b" => {
                    b_count += 1;
                    NextInvocationOutcome::TryLater(t)
                }
                _ => panic!("unexpected tool invocation {}", t.name),
            }
        })
        .expect("incorrect next_invocations error");
    assert_eq!([a_count, b_count], [1, 1]);
    scheduler
        .next_invocations(|t: MockTool| -> NextInvocationOutcome<MockTool, String> {
            match t.name {
                "b" => {
                    b_count += 1;
                    NextInvocationOutcome::DontTryAgain
                }
                _ => panic!("unexpected tool invocation {}", t.name),
            }
        })
        .expect("incorrect next_invocations error");
    assert_eq!([a_count, b_count], [1, 2]);
    scheduler
        .next_invocations(|t: MockTool| -> NextInvocationOutcome<MockTool, String> {
            panic!("unexpected tool invocation {}", t.name)
        })
        .expect("incorrect next_invocations error");
}

fn names(scheduler: &mut Scheduler<&'static str>) -> Vec<&'static str> {
    let mut seen = vec![];
    scheduler
        .next_invocations(|name| -> NextInvocationOutcome<&'static str, ()> {
            seen.push(name);
            NextInvocationOutcome::TryLater(name)
        })
        .unwrap();
    seen
}

#[test]
fn the_queue_is_first_in_first_out() {
    let mut scheduler = Scheduler::default();
    assert!(scheduler.is_empty());
    for name in ["a", "b", "c", "d"] {
        scheduler.queue_invocation(name);
    }
    assert_eq!(scheduler.len(), 4);
    let mut offered = vec![];
    let result: Result<(), ()> = scheduler.next_invocations(|name| {
        offered.push(name);
        match name {
            "a" | "c" => NextInvocationOutcome::TryLater(name),
            _ => NextInvocationOutcome::DontTryAgain,
        }
    });
    assert_eq!(result, Ok(()));
    assert_eq!(offered, ["a", "b", "c", "d"]);
    scheduler.queue_invocation("e");
    assert_eq!(names(&mut scheduler), ["a", "c", "e"]);
    assert_eq!(scheduler.len(), 3);
}

#[test]
fn an_error_ends_the_pass_and_loses_no_invocation() {
    let mut scheduler = Scheduler::default();
    for name in ["a", "b", "c", "d", "e"] {
        scheduler.queue_invocation(name);
    }
    let mut offered = vec![];
    let result = scheduler.next_invocations(|name| {
        offered.push(name);
        match name {
            "a" => NextInvocationOutcome::TryLater(name),
            "b" => NextInvocationOutcome::DontTryAgain,
            "c" => NextInvocationOutcome::Error("boom"),
            _ => NextInvocationOutcome::TryLater(name),
        }
    });
    assert_eq!(result, Err("boom"));
    assert_eq!(offered, ["a", "b", "c"]);
    // What was sent back comes first, then what the pass did not reach.
    assert_eq!(names(&mut scheduler), ["a", "d", "e"]);
}
