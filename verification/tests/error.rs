use embedded_tester::assertion::{Assertion, AssertionFailure};
use embedded_tester::Test;

type TestFn = for<'a> fn(Assertion<'a>) -> Result<(), AssertionFailure<32>>;

fn failing(a: Assertion<'_>) -> Result<(), AssertionFailure<32>> {
    a.assert_ne(5, 5)
}

#[test]
fn error_is_described_with_its_test_name() {
    let error = (failing as TestFn).run(Assertion::new("five")).err().unwrap();
    let text = error.describe(error.error().error_description());
    assert_eq!("failed test five: expected 5 != 5", text);
}

#[test]
fn mapping_the_error_keeps_the_name() {
    let error = (failing as TestFn).run(Assertion::new("five")).err().unwrap();
    let mapped = error.map_error(|failure| failure.take_error_description().len());
    assert_eq!("five", mapped.test_name());
    assert_eq!(15, *mapped.error());
}
