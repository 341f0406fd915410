use embedded_tester::assertion::{Assertion, AssertionFailure};
use embedded_tester::runner::{
    suite_label, EitherSource, ErrorMapped, LogEvent, SuiteSequence, TestSource, TestSuite,
};
use embedded_tester::{TestLogger, TestScheduler};
use std::cell::RefCell;
use std::rc::Rc;
use embedded_tester::{Test, TestContext, TestResult};

type Failure = AssertionFailure<32>;
type TestFn = for<'a> fn(Assertion<'a>) -> Result<(), Failure>;

fn passing(a: Assertion<'_>) -> Result<(), Failure> {
    a.assert_eq(1, 1)?;
    Ok(())
}

fn failing(a: Assertion<'_>) -> Result<(), Failure> {
    a.assert_eq(1, 2)?;
    Ok(())
}

fn outcome(result: &TestResult<'static, Failure>) -> (String, bool) {
    match result {
        Ok(success) => (success.test_name().to_string(), true),
        Err(error) => (error.test_name().to_string(), false),
    }
}

fn suite(tests: &[(&'static str, TestFn)]) -> TestSuite<TestFn> {
    let mut suite = TestSuite::new();
    for (name, test) in tests {
        suite.push(name, *test);
    }
    suite
}

#[test]
fn test_function_result_carries_its_name() {
    let ok = (passing as TestFn).run(Assertion::new("passing"));
    assert_eq!("passing", ok.unwrap().test_name());
    let err = (failing as TestFn).run(Assertion::new("failing"));
    let err = err.err().unwrap();
    assert_eq!("failing", err.test_name());
    assert_eq!("expected 1 == 2", err.error().error_description());
}

#[test]
fn context_runs_its_test() {
    let result = TestContext::new(Assertion::new("ctx"), failing as TestFn).run();
    assert_eq!(("ctx".to_string(), false), outcome(&result));
}

#[test]
fn suite_runs_tests_in_order_then_stops() {
    let mut tests = suite(&[("a", passing), ("b", failing), ("c", passing)]);
    let mut seen = Vec::new();
    while let Some(result) = tests.next_result() {
        seen.push(outcome(&result));
    }
    assert_eq!(
        vec![("a".to_string(), true), ("b".to_string(), false), ("c".to_string(), true)],
        seen
    );
    assert!(tests.next_result().is_none());
}

#[test]
fn sequence_runs_suites_one_after_another() {
    let first = suite(&[("a", passing), ("b", failing)]);
    let empty = suite(&[]);
    let last = suite(&[("c", failing)]);
    let mut sequence = SuiteSequence::new(vec!["first", "empty", "last"], vec![first, empty, last]);
    let mut seen = Vec::new();
    while let Some(result) = sequence.next_result() {
        seen.push(outcome(&result));
    }
    assert_eq!(
        vec![("a".to_string(), true), ("b".to_string(), false), ("c".to_string(), false)],
        seen
    );
    assert!(sequence.next_result().is_none());
}

#[test]
fn sequences_nest() {
    let inner = SuiteSequence::new(vec!["x", "y"], vec![suite(&[("a", passing)]), suite(&[("b", passing)])]);
    let other = SuiteSequence::new(vec!["z"], vec![suite(&[("c", failing)])]);
    let mut outer = SuiteSequence::new(vec!["inner", "other"], vec![inner, other]);
    let mut names = Vec::new();
    while let Some(result) = outer.next_result() {
        names.push(outcome(&result).0);
    }
    assert_eq!(vec!["a", "b", "c"], names);
}

#[derive(Debug, PartialEq)]
enum Wrapped {
    Assertion(String),
}

fn wrap(failure: Failure) -> Wrapped {
    Wrapped::Assertion(failure.take_error_description())
}

#[test]
fn mapped_errors_keep_names_and_convert_errors() {
    let mut mapped = ErrorMapped::new(suite(&[("a", passing), ("b", failing)]), wrap as fn(Failure) -> Wrapped);
    let first = mapped.next_result().unwrap();
    assert_eq!("a", first.unwrap().test_name());
    let second = mapped.next_result().unwrap().err().unwrap();
    assert_eq!("b", second.test_name());
    assert_eq!(&Wrapped::Assertion("expected 1 == 2".to_string()), second.error());
    assert!(mapped.next_result().is_none());
}

type Mapped = ErrorMapped<TestSuite<TestFn>, Wrapped, fn(Failure) -> Wrapped>;

#[test]
fn suites_of_two_kinds_run_in_one_sequence() {
    let nested: SuiteSequence<Mapped> = SuiteSequence::new(
        vec!["nested"],
        vec![ErrorMapped::new(suite(&[("a", passing), ("b", failing)]), wrap as fn(Failure) -> Wrapped)],
    );
    let single: Mapped = ErrorMapped::new(suite(&[("c", passing)]), wrap as fn(Failure) -> Wrapped);
    let mut sequence = SuiteSequence::new(
        vec!["first", "second"],
        vec![EitherSource::First(nested), EitherSource::Second(single)],
    );
    let mut names = Vec::new();
    while let Some(result) = sequence.next_result() {
        names.push(match result {
            Ok(s) => s.test_name().to_string(),
            Err(e) => e.test_name().to_string(),
        });
    }
    assert_eq!(vec!["a", "b", "c"], names);
}

struct Recorder {
    lines: Rc<RefCell<Vec<String>>>,
}

impl TestLogger for Recorder {
    fn log_test_suite_name(&self, message: &str) {
        self.lines.borrow_mut().push(message.to_string());
    }

    fn log_test_result<E>(&self, test_result: TestResult<'_, E>) {
        let line = match test_result {
            Ok(success) => format!("passed {}", success.test_name()),
            Err(error) => format!("failed {}", error.test_name()),
        };
        self.lines.borrow_mut().push(line);
    }
}

#[test]
fn execute_suites_logs_each_suite_then_its_results() {
    let lines = Rc::new(RefCell::new(Vec::new()));
    let recorder = Recorder { lines: lines.clone() };
    let sequence = SuiteSequence::new(
        vec!["tests_a", "tests_b"],
        vec![suite(&[("a", passing), ("b", failing)]), suite(&[("c", passing)])],
    );
    sequence.execute_suites(recorder);
    assert_eq!(
        vec!["tests_a:", "passed a", "failed b", "tests_b:", "passed c"],
        lines.borrow().clone()
    );
}

#[test]
fn suite_label_ends_with_a_colon() {
    assert_eq!("tests_a:", suite_label("tests_a"));
}

#[test]
fn every_suite_label_is_logged_even_when_empty() {
    let lines = Rc::new(RefCell::new(Vec::new()));
    let recorder = Recorder { lines: lines.clone() };
    let sequence = SuiteSequence::new(
        vec!["empty", "tests_c"],
        vec![suite(&[]), suite(&[("a", passing)])],
    );
    sequence.execute_suites(recorder);
    assert_eq!(vec!["empty:", "tests_c:", "passed a"], lines.borrow().clone());
}

#[test]
fn nested_scheduler_names_are_not_logged() {
    let lines = Rc::new(RefCell::new(Vec::new()));
    let recorder = Recorder { lines: lines.clone() };
    let test_s = SuiteSequence::new(
        vec!["tests_a", "tests_b"],
        vec![suite(&[("a", passing), ("b", failing), ("c", failing)]), suite(&[("a", passing)])],
    );
    let tests_c = SuiteSequence::new(vec!["tests_c"], vec![suite(&[("a", passing)])]);
    let outer = SuiteSequence::new(vec!["test_s", "tests_c"], vec![test_s, tests_c]);
    outer.execute_suites(recorder);
    assert_eq!(
        vec!["test_s:", "passed a", "failed b", "failed c", "passed a", "tests_c:", "passed a"],
        lines.borrow().clone()
    );
}

#[test]
fn log_events_come_label_first() {
    let mut sequence = SuiteSequence::new(vec!["only"], vec![suite(&[("a", passing)])]);
    match sequence.next_log_event() {
        Some(LogEvent::Suite(label)) => assert_eq!("only:", label),
        _ => panic!("expected the suite label first"),
    }
    match sequence.next_log_event() {
        Some(LogEvent::Result(result)) => assert_eq!("a", result.unwrap().test_name()),
        _ => panic!("expected the result next"),
    }
    assert!(sequence.next_log_event().is_none());
    assert!(sequence.next_log_event().is_none());
}

#[test]
fn test_function_runs_under_its_name() {
    let result = embedded_tester::run_test_function(failing, Assertion::new("named"));
    assert_eq!("named", result.err().unwrap().test_name());
}
