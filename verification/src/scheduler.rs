//! Running suites of tests and reporting on them.

use vstd::prelude::*;

use crate::TestResult;

verus! {

/// A collection of test suites that runs them one after another, reporting
/// each suite's name and then each of its results.
pub trait TestScheduler {
    /// Whether the scheduler is in a state it can run from.
    spec fn ready(&self) -> bool;

    fn execute_suites<L: TestLogger>(self, logger: L)
        requires
            self.ready(),
    ;
}

/// Where a scheduler reports the suites it starts and the results it gets.
pub trait TestLogger {
    fn log_test_suite_name(&self, message: &str);

    fn log_test_result<E>(&self, test_result: TestResult<'_, E>);
}

} // verus!
