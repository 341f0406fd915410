use embedded_tester::owned::assertion::{
    eq_failure_description, ne_failure_description, Assertion, AssertionSuccessful,
};

#[test]
fn assert_success() {
    let assertion = Assertion::new("TEST_NAME".into());
    assert!(assertion.check(|a| Ok(a.success())).is_ok());
}

#[test]
fn assert_failure() {
    let assertion = Assertion::new("TEST_NAME".into());
    assert!(assertion
        .check(|a| Err(a.failure("TEST_FAILURE_DESCRIPTION".into())))
        .is_err());
}

#[test]
fn assert_eq() {
    let assertion = Assertion::new("TEST_NAME".into());
    assert!(assertion.assert_eq(1, 1).is_ok());
    assert!(assertion.assert_ne(1, 1).is_err());
}

#[test]
fn assert_ne() {
    let assertion = Assertion::new("TEST_NAME".into());
    assert!(assertion.assert_ne(1, 2).is_ok());
    assert!(assertion.assert_eq(1, 2).is_err());
}

#[test]
fn assert_test_name() {
    const TEST_NAME: &str = "TEST_NAME";
    let assertion = Assertion::new(TEST_NAME.into());
    assert_eq!(TEST_NAME, assertion.test_name());
}

#[test]
fn assert_failure_test_name() {
    const TEST_NAME: &str = "TEST_NAME";
    let assertion = Assertion::new(TEST_NAME.into());
    let result = assertion.assert_eq(1, 2);
    assert!(result.is_err());
    let error = result.unwrap_err();
    assert_eq!(TEST_NAME, error.test_name());
}

#[test]
fn failures_carry_debug_text_of_both_sides() {
    let assertion = Assertion::new("TEST_NAME".into());
    let error = assertion.assert_eq("a", "b").unwrap_err();
    assert_eq!(
        "expected left side to equal right side, but: \"a\" != \"b\"",
        error.description()
    );
    let error = assertion.assert_ne(3, 3).unwrap_err();
    assert_eq!(
        "expected left side to not equal right side, but: 3 == 3",
        error.description()
    );
}

#[test]
fn failure_descriptions_are_exact() {
    assert_eq!(
        "expected left side to equal right side, but: 1 != 2",
        eq_failure_description("1", "2")
    );
    assert_eq!(
        "expected left side to not equal right side, but: x == y",
        ne_failure_description("x", "y")
    );
}

#[test]
fn failure_keeps_name_and_description() {
    let assertion = Assertion::new("NAMED".into());
    let error = assertion
        .check(|a| Err(a.failure("WHAT_HAPPENED".into())))
        .unwrap_err();
    assert_eq!("NAMED", error.test_name());
    assert_eq!("WHAT_HAPPENED", error.description());
}

#[test]
fn success_is_unit() {
    let assertion = Assertion::new("NAMED".into());
    let mut seen = false;
    let result = assertion.check(|a| {
        seen = true;
        let success: AssertionSuccessful = a.success();
        Ok(success)
    });
    assert!(result.is_ok());
    assert!(seen);
}
