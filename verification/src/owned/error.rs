//! The error an owned assertion fails with.

use vstd::prelude::*;

verus! {

/// A failed assertion: the test's name and the failure description.
#[derive(Debug)]
pub struct TestError {
    test_name: String,
    description: String,
}

impl TestError {
    /// The name of the test that failed.
    pub closed spec fn name(&self) -> Seq<char> {
        self.test_name@
    }

    /// What went wrong.
    pub closed spec fn text(&self) -> Seq<char> {
        self.description@
    }

    pub(crate) fn new(test_name: String, description: String) -> (r: Self)
        ensures
            r.name() == test_name@,
            r.text() == description@,
    {
        TestError { test_name, description }
    }

    pub fn test_name(&self) -> (r: &str)
        ensures
            r@ == self.name(),
    {
        self.test_name.as_str()
    }

    /// The failure description, which is also the text this error is shown as.
    pub fn description(&self) -> (r: &str)
        ensures
            r@ == self.text(),
    {
        self.description.as_str()
    }
}

} // verus!
