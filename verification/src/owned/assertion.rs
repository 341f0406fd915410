//! Assertions that own their test name and describe failures in a `String`.

use vstd::prelude::*;
use vstd::std_specs::cmp::PartialEqSpec;

use crate::assertion::{assert_eq_passes, assert_ne_passes};
use vstd::string::*;

use crate::owned::error::TestError;

verus! {

/// The handle a test receives: it owns the name of the test.
pub struct Assertion {
    test_name: String,
}

/// What an assertion closure is handed: it turns into a success or a
/// failure of the test it belongs to.
pub struct AssertionResult<'a> {
    test_name: &'a str,
}

/// The record of a passed assertion.
pub struct AssertionSuccessful;

impl Assertion {
    /// The name of the test this assertion belongs to.
    pub closed spec fn name(&self) -> Seq<char> {
        self.test_name@
    }

    pub fn new(test_name: String) -> (r: Self)
        ensures
            r.name() == test_name@,
    {
        Assertion { test_name }
    }

    pub fn test_name(&self) -> (r: &str)
        ensures
            r@ == self.name(),
    {
        self.test_name.as_str()
    }

    /// Runs `assertion` with the result handle of this test: a success
    /// becomes `Ok(())`, a failure is handed back.
    pub fn check<F: for<'a> FnOnce(AssertionResult<'a>) -> Result<AssertionSuccessful, TestError>>(
        &self,
        assertion: F,
    ) -> (r: Result<(), TestError>)
        requires
            forall|handle: AssertionResult| handle.name() == self.name() ==> assertion.requires((handle,)),
        ensures
            exists|handle: AssertionResult, returned: Result<AssertionSuccessful, TestError>|
                {
                    &&& handle.name() == self.name()
                    &&& call_ensures(assertion, (handle,), returned)
                    &&& match returned {
                        Ok(_) => r is Ok,
                        Err(e) => r == Err::<(), TestError>(e),
                    }
                },
    {
        let handle = AssertionResult { test_name: self.test_name.as_str() };
        let outcome = assertion(handle);
        match outcome {
            Ok(_) => Ok(()),
            Err(e) => Err(e),
        }
    }

    /// Passes when `a == b`; otherwise fails with
    /// `expected left side to equal right side, but: {a:?} != {b:?}`.
    pub fn assert_eq<A: PartialEq<B> + core::fmt::Debug, B: core::fmt::Debug>(&self, a: A, b: B) -> (r: Result<(), TestError>)
        ensures
            A::obeys_eq_spec() ==> (r is Ok <==> assert_eq_passes(&a, &b)),
            r matches Err(e) ==> {
                &&& e.name() == self.name()
                &&& exists|left: Seq<char>, right: Seq<char>| e.text() == eq_failure_text(left, right)
            },
    {
        if a == b {
            Ok(())
        } else {
            let left = debug_text(&a);
            let right = debug_text(&b);
            let result = AssertionResult { test_name: self.test_name.as_str() };
            Err(result.failure(eq_failure_description(left.as_str(), right.as_str())))
        }
    }

    /// Passes when `a != b`; otherwise fails with
    /// `expected left side to not equal right side, but: {a:?} == {b:?}`.
    pub fn assert_ne<A: PartialEq<B> + core::fmt::Debug, B: core::fmt::Debug>(&self, a: A, b: B) -> (r: Result<(), TestError>)
        ensures
            A::obeys_eq_spec() ==> (r is Ok <==> assert_ne_passes(&a, &b)),
            r matches Err(e) ==> {
                &&& e.name() == self.name()
                &&& exists|left: Seq<char>, right: Seq<char>| e.text() == ne_failure_text(left, right)
            },
    {
        if a != b {
            Ok(())
        } else {
            let left = debug_text(&a);
            let right = debug_text(&b);
            let result = AssertionResult { test_name: self.test_name.as_str() };
            Err(result.failure(ne_failure_description(left.as_str(), right.as_str())))
        }
    }
}

impl<'a> AssertionResult<'a> {
    /// The name of the test this handle belongs to.
    pub closed spec fn name(&self) -> Seq<char> {
        self.test_name@
    }

    pub fn success(self) -> (r: AssertionSuccessful)
        ensures
            r == AssertionSuccessful,
    {
        AssertionSuccessful
    }

    /// A failure of this handle's test with `description`.
    pub fn failure(self, description: String) -> (r: TestError)
        ensures
            r.name() == self.name(),
            r.text() == description@,
    {
        TestError::new(self.test_name.to_owned(), description)
    }
}

/// `expected left side to equal right side, but: {left} != {right}`.
pub open spec fn eq_failure_text(left: Seq<char>, right: Seq<char>) -> Seq<char> {
    "expected left side to equal right side, but: "@ + left + " != "@ + right
}

/// `expected left side to not equal right side, but: {left} == {right}`.
pub open spec fn ne_failure_text(left: Seq<char>, right: Seq<char>) -> Seq<char> {
    "expected left side to not equal right side, but: "@ + left + " == "@ + right
}

/// The failure texts quote both sides whole: the text of a failed
/// `assert_eq` or `assert_ne` is its fixed heading, then the whole left text,
/// the operator, and the whole right text, and nothing else.
pub proof fn lemma_failure_texts_quote_both_sides(left: Seq<char>, right: Seq<char>)
    ensures
        ({
            let heading = "expected left side to equal right side, but: "@;
            let text = eq_failure_text(left, right);
            &&& text.len() == heading.len() + left.len() + 4 + right.len()
            &&& text.subrange(0, heading.len() as int) == heading
            &&& text.subrange(heading.len() as int, (heading.len() + left.len()) as int) == left
            &&& text.subrange((heading.len() + left.len()) as int, (heading.len() + left.len() + 4) as int) == " != "@
            &&& text.subrange((heading.len() + left.len() + 4) as int, text.len() as int) == right
        }),
        ({
            let heading = "expected left side to not equal right side, but: "@;
            let text = ne_failure_text(left, right);
            &&& text.len() == heading.len() + left.len() + 4 + right.len()
            &&& text.subrange(0, heading.len() as int) == heading
            &&& text.subrange(heading.len() as int, (heading.len() + left.len()) as int) == left
            &&& text.subrange((heading.len() + left.len()) as int, (heading.len() + left.len() + 4) as int) == " == "@
            &&& text.subrange((heading.len() + left.len() + 4) as int, text.len() as int) == right
        }),
{
    reveal_strlit(" != ");
    reveal_strlit(" == ");
    let heading = "expected left side to equal right side, but: "@;
    let text = eq_failure_text(left, right);
    assert(text.subrange(0, heading.len() as int) =~= heading);
    assert(text.subrange(heading.len() as int, (heading.len() + left.len()) as int) =~= left);
    assert(text.subrange((heading.len() + left.len()) as int, (heading.len() + left.len() + 4) as int) =~= " != "@);
    assert(text.subrange((heading.len() + left.len() + 4) as int, text.len() as int) =~= right);
    let heading = "expected left side to not equal right side, but: "@;
    let text = ne_failure_text(left, right);
    assert(text.subrange(0, heading.len() as int) =~= heading);
    assert(text.subrange(heading.len() as int, (heading.len() + left.len()) as int) =~= left);
    assert(text.subrange((heading.len() + left.len()) as int, (heading.len() + left.len() + 4) as int) =~= " == "@);
    assert(text.subrange((heading.len() + left.len() + 4) as int, text.len() as int) =~= right);
}

/// The description of a failed `assert_eq`, given the `Debug` text of both
/// sides.
pub fn eq_failure_description(left: &str, right: &str) -> (r: String)
    ensures
        r@ == eq_failure_text(left@, right@),
        r@ == "expected left side to equal right side, but: "@ + left@ + " != "@ + right@,
{
    let mut text = String::from_str("expected left side to equal right side, but: ");
    text.append(left);
    text.append(" != ");
    text.append(right);
    text
}

/// The description of a failed `assert_ne`, given the `Debug` text of both
/// sides.
pub fn ne_failure_description(left: &str, right: &str) -> (r: String)
    ensures
        r@ == ne_failure_text(left@, right@),
        r@ == "expected left side to not equal right side, but: "@ + left@ + " == "@ + right@,
{
    let mut text = String::from_str("expected left side to not equal right side, but: ");
    text.append(left);
    text.append(" == ");
    text.append(right);
    text
}

/// `format!("{:?}", value)`: the `Debug` text of a value. What that text is
/// depends on the `Debug` impl of `T` and is not stated.
#[verifier::external_body]
fn debug_text<T: core::fmt::Debug>(value: &T) -> String {
    format!("{value:?}")
}

} // verus!
