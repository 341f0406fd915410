//! A test runner: assertions that produce failure descriptions of bounded
//! length, test errors that carry the failing test's name, and the
//! contracts that tests, test runners and test schedulers follow.

pub mod assertion;
pub mod error;
pub mod owned;
pub mod runner;
pub mod scheduler;
pub mod text;

pub use crate::scheduler::{TestLogger, TestScheduler};

use vstd::prelude::*;

use crate::assertion::{Assertion, AssertionSuccessful};
use crate::error::TestError;

verus! {

/// What running one test gives: its success record, or its error.
pub type TestResult<'a, E> = Result<AssertionSuccessful<'a>, TestError<'a, E>>;

/// The name a test result carries.
pub open spec fn result_name<'a, E>(result: TestResult<'a, E>) -> Seq<char> {
    match result {
        Ok(success) => success.name(),
        Err(error) => error.name(),
    }
}

/// A collection of tests that runs them one by one.
pub trait TestRunner: Default {
    type Error;

    type Iterator: core::iter::Iterator<Item = TestResult<'static, Self::Error>>;

    fn execute(self) -> Self::Iterator;
}

/// A test paired with the assertion handle it will be run with.
pub struct TestContext<'a, T: Test> {
    assertion: Assertion<'a>,
    test: T,
}

impl<'a, T: Test> TestContext<'a, T> {
    /// The assertion handle the test will receive.
    pub closed spec fn assertion(&self) -> Assertion<'a> {
        self.assertion
    }

    /// The test to run.
    pub closed spec fn test(&self) -> T {
        self.test
    }

    pub fn new(assertion: Assertion<'a>, test: T) -> (r: Self)
        ensures
            r.assertion() == assertion,
            r.test() == test,
    {
        TestContext { assertion, test }
    }

    /// Runs the test with its assertion handle.
    pub fn run(self) -> (r: TestResult<'a, T::Error>)
        requires
            self.test().runnable(self.assertion()),
        ensures
            result_name(r) == self.assertion().name(),
            self.test().outcome(self.assertion(), r),
    {
        self.test.run(self.assertion)
    }
}

/// A single test.
pub trait Test: Sized {
    type Error;

    /// Whether the test can be run with this assertion handle.
    spec fn runnable(&self, assertion: Assertion) -> bool;

    /// Whether `result` is a result the test may give when run with `assertion`.
    spec fn outcome(&self, assertion: Assertion, result: TestResult<Self::Error>) -> bool;

    /// Runs the test; the result carries the name of the test. For a test
    /// function, `run_test_function` does the same with the error type
    /// named, which is what a verified caller holding a concrete test
    /// function can reason about.
    fn run<'a>(self, assertion: Assertion<'a>) -> (r: TestResult<'a, Self::Error>)
        requires
            self.runnable(assertion),
        ensures
            result_name(r) == assertion.name(),
            self.outcome(assertion, r),
    ;
}

/// A test function: it passes when it returns `Ok`, and fails with the error
/// it returns otherwise.
impl<E, F: for<'b> FnOnce(Assertion<'b>) -> Result<(), E>> Test for F {
    type Error = E;

    open spec fn runnable(&self, assertion: Assertion) -> bool {
        call_requires(*self, (assertion,))
    }

    open spec fn outcome(&self, assertion: Assertion, result: TestResult<E>) -> bool {
        function_outcome(*self, assertion, result)
    }

    fn run<'a>(self, assertion: Assertion<'a>) -> (r: TestResult<'a, E>) {
        run_test_function(self, assertion)
    }
}

/// Whether `result` is what the test function `test` may give when run with
/// `assertion`: a pass when it returns `Ok`, its error when it returns one.
pub open spec fn function_outcome<E, F: for<'b> FnOnce(Assertion<'b>) -> Result<(), E>>(
    test: F,
    assertion: Assertion,
    result: TestResult<E>,
) -> bool {
    exists|returned: Result<(), E>|
        {
            &&& call_ensures(test, (assertion,), returned)
            &&& match result {
                Ok(_) => returned is Ok,
                Err(error) => returned matches Err(e) && e == error.cause(),
            }
        }
}

/// Runs a test function: `Test::run` for test functions, with its error
/// type named directly, so that a verified caller holding a concrete test
/// function learns what the run gave.
pub fn run_test_function<'a, E, F: for<'b> FnOnce(Assertion<'b>) -> Result<(), E>>(
    test: F,
    assertion: Assertion<'a>,
) -> (r: TestResult<'a, E>)
    requires
        call_requires(test, (assertion,)),
    ensures
        result_name(r) == assertion.name(),
        function_outcome(test, assertion, r),
{
    let test_name = assertion.test_name();
    let outcome = test(assertion);
    match outcome {
        Err(e) => Err(TestError::new(test_name, e)),
        Ok(()) => Ok(AssertionSuccessful::new(test_name)),
    }
}

/// A test function that accepts every assertion handle can run with any
/// of them: what `TestSuite::push` asks of a test function.
pub proof fn lemma_test_function_runnable<E, F: for<'b> FnOnce(Assertion<'b>) -> Result<(), E>>(test: F)
    requires
        forall|assertion: Assertion| call_requires(test, (assertion,)),
    ensures
        forall|assertion: Assertion| #[trigger] test.runnable(assertion),
{
}

} // verus!
