use embedded_tester::assertion::{Assertion, AssertionFailure, AssertionSuccessful};

#[derive(Debug)]
struct TestError;

#[test]
fn assertion_assert_success() {
    let assertion = Assertion::new("TEST_NAME");
    assert!(assertion.check::<TestError, _>(|| Ok(())).is_ok());
}

#[test]
fn assertion_assert_failure() {
    const ERROR_MESSAGE: &str = "TEST_FAILURE_DESCRIPTION";
    const ERROR_MESSAGE_LEN: usize = ERROR_MESSAGE.len();
    let assertion = Assertion::new("TEST_NAME");
    let assertion =
        assertion.check(|| Err(AssertionFailure::<ERROR_MESSAGE_LEN>::from_pieces(&[ERROR_MESSAGE])));
    assert!(assertion.is_err());
    let error = assertion.unwrap_err();
    assert_eq!(ERROR_MESSAGE_LEN, error.error_description().len());
    assert_eq!(ERROR_MESSAGE, error.error_description());
}

#[test]
fn assertion_assert_eq() {
    let assertion = Assertion::new("TEST_NAME");
    assert!(assertion.assert_eq::<0, _, _>(1, 1).is_ok());
    assert!(assertion.assert_ne::<0, _, _>(1, 1).is_err());
}

#[test]
fn assertion_assert_ne() {
    let assertion = Assertion::new("TEST_NAME");
    assert!(assertion.assert_ne::<0, _, _>(1, 2).is_ok());
    assert!(assertion.assert_eq::<0, _, _>(1, 2).is_err());
}

#[test]
fn assertion_assert_test_name() {
    const TEST_NAME: &str = "TEST_NAME";
    let assertion = Assertion::new(TEST_NAME);
    assert_eq!(TEST_NAME, assertion.test_name());
}

#[test]
fn success_keeps_test_name() {
    let success = AssertionSuccessful::new("SOME_TEST");
    assert_eq!("SOME_TEST", success.test_name());
}

#[test]
fn eq_failure_is_described() {
    let assertion = Assertion::new("TEST_NAME");
    let failure = assertion.assert_eq::<32, _, _>(1, 2).unwrap_err();
    assert_eq!("expected 1 == 2", failure.error_description());
    let failure = assertion.assert_ne::<32, _, _>("a", "a").unwrap_err();
    assert_eq!("expected a != a", failure.error_description());
}

#[test]
fn eq_failure_is_truncated_to_capacity() {
    let assertion = Assertion::new("TEST_NAME");
    let failure = assertion.assert_eq::<12, _, _>(1, 2).unwrap_err();
    assert_eq!("expected 1 =", failure.error_description());
    let failure = assertion.assert_eq::<10, _, _>(1, 2).unwrap_err();
    assert_eq!("expected 1", failure.error_description());
    let failure = assertion.assert_ne::<4, _, _>(1, 1).unwrap_err();
    assert_eq!("expe", failure.error_description());
    let failure = assertion.assert_eq::<0, _, _>(1, 2).unwrap_err();
    assert_eq!("", failure.error_description());
}

#[test]
fn pieces_that_fit_are_kept_whole() {
    let failure = AssertionFailure::<16>::from_pieces(&["expected ", "1", " == ", "2"]);
    assert_eq!("expected 1 == 2", failure.error_description());
    assert_eq!("expected 1 == 2", failure.take_error_description());
}

#[test]
fn message_is_truncated_however_it_is_split() {
    let whole = AssertionFailure::<12>::from_pieces(&["expected 1 == 2"]);
    let split = AssertionFailure::<12>::from_pieces(&["expected ", "1", " == ", "2"]);
    assert_eq!("expected 1 =", whole.error_description());
    assert_eq!("expected 1 =", split.error_description());
}

#[test]
fn overflowing_piece_is_cut_to_the_room_left() {
    // "12" would make 11 bytes out of 10: its first byte is kept and
    // nothing after it is taken, though "x" alone would fit.
    let failure = AssertionFailure::<10>::from_pieces(&["expected ", "12", "x"]);
    assert_eq!("expected 1", failure.error_description());
}

#[test]
fn long_first_piece_is_truncated() {
    let failure = AssertionFailure::<4>::from_pieces(&["abcdef", "", "g"]);
    assert_eq!("abcd", failure.error_description());
}

#[test]
fn cut_falls_back_to_a_character_boundary() {
    // "é" takes two bytes; its first byte alone is no character.
    let failure = AssertionFailure::<1>::from_pieces(&["é"]);
    assert_eq!("", failure.error_description());
    let failure = AssertionFailure::<2>::from_pieces(&["aé", "x"]);
    assert_eq!("a", failure.error_description());
    let failure = AssertionFailure::<2>::from_pieces(&["é", "x"]);
    assert_eq!("é", failure.error_description());
}

#[test]
fn description_is_a_prefix_of_the_message() {
    let pieces = ["ab", "cde", "f"];
    for capacity_case in 0..3 {
        let text = match capacity_case {
            0 => AssertionFailure::<1>::from_pieces(&pieces).take_error_description(),
            1 => AssertionFailure::<3>::from_pieces(&pieces).take_error_description(),
            _ => AssertionFailure::<5>::from_pieces(&pieces).take_error_description(),
        };
        assert!("abcdef".starts_with(text.as_str()));
        assert_eq!(text.len(), [1, 3, 5][capacity_case]);
    }
}
