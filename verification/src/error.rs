//! The error a failed test reports: the test's name and what it failed with.

use vstd::prelude::*;
use vstd::string::*;

verus! {

/// A failed test: its name and the error it returned.
#[derive(Debug)]
pub struct TestError<'a, E> {
    test_name: &'a str,
    error: E,
}

impl<'a, E> TestError<'a, E> {
    /// The name of the test that failed.
    pub closed spec fn name(&self) -> Seq<char> {
        self.test_name@
    }

    /// The error the test failed with.
    pub closed spec fn cause(&self) -> E {
        self.error
    }

    pub(crate) fn new(test_name: &'a str, error: E) -> (r: Self)
        ensures
            r.name() == test_name@,
            r.cause() == error,
    {
        TestError { test_name, error }
    }

    pub fn test_name(&self) -> (r: &str)
        ensures
            r@ == self.name(),
    {
        self.test_name
    }

    pub fn error(&self) -> (r: &E)
        ensures
            *r == self.cause(),
    {
        &self.error
    }

    /// Converts the error with `f`; the test's name stays.
    pub fn map_error<NewError, F: FnOnce(E) -> NewError>(self, f: F) -> (r: TestError<'a, NewError>)
        requires
            f.requires((self.cause(),)),
        ensures
            r.name() == self.name(),
            f.ensures((self.cause(),), r.cause()),
    {
        TestError { test_name: self.test_name, error: f(self.error) }
    }

    /// The text this error is shown as, `failed test {test_name}: {error}`,
    /// given the text of its error.
    pub fn describe(&self, error_text: &str) -> (r: String)
        ensures
            r@ == failed_test_text(self.name(), error_text@),
            // The whole error text, after `failed test {test_name}: `.
            r@ == "failed test "@ + self.name() + ": "@ + error_text@,
    {
        let mut text = String::from_str("failed test ");
        text.append(self.test_name);
        text.append(": ");
        text.append(error_text);
        text
    }
}

/// Mapping an error twice: the name stays that of the first error, and the
/// last error is what the second conversion makes of what the first made.
pub proof fn lemma_map_error_twice<'a, E, M, N, F: FnOnce(E) -> M, G: FnOnce(M) -> N>(
    first: TestError<'a, E>,
    middle: TestError<'a, M>,
    last: TestError<'a, N>,
    f: F,
    g: G,
)
    requires
        middle.name() == first.name(),
        f.ensures((first.cause(),), middle.cause()),
        last.name() == middle.name(),
        g.ensures((middle.cause(),), last.cause()),
    ensures
        last.name() == first.name(),
        exists|made: M| f.ensures((first.cause(),), made) && g.ensures((made,), last.cause()),
{
}

/// `failed test {test_name}: {error}`.
pub open spec fn failed_test_text(test_name: Seq<char>, error_text: Seq<char>) -> Seq<char> {
    "failed test "@ + test_name + ": "@ + error_text
}

/// A failed test is shown as `failed test `, its name, `: `, and then the
/// whole error text, nothing cut and nothing added: the shown text starts
/// with that heading, ends with the error text, and is exactly as long as
/// the two together.
pub proof fn lemma_failed_test_text_parts(test_name: Seq<char>, error_text: Seq<char>)
    ensures
        ({
            let heading = "failed test "@ + test_name + ": "@;
            let shown = failed_test_text(test_name, error_text);
            &&& shown.len() == heading.len() + error_text.len()
            &&& shown.subrange(0, heading.len() as int) == heading
            &&& shown.subrange(heading.len() as int, shown.len() as int) == error_text
        }),
{
    let heading = "failed test "@ + test_name + ": "@;
    let shown = failed_test_text(test_name, error_text);
    assert(shown.subrange(0, heading.len() as int) =~= heading);
    assert(shown.subrange(heading.len() as int, shown.len() as int) =~= error_text);
}

} // verus!
