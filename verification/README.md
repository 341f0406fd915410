# embedded_tester

A small test runner whose logic is verified with Verus.

- `src/assertion.rs`: `Assertion` (checks, `assert_eq`, `assert_ne`),
  `AssertionSuccessful`, and `AssertionFailure<N>`, whose description holds at
  most `N` bytes: formatting hands its text to `TruncateWriter` piece by
  piece; a piece that fits is taken whole, the first that does not is cut to
  the room left at a character boundary, and nothing is taken after it.
- `src/text.rs`: the byte-level model of that rule (`write_pieces`) and its
  laws: the description stays within capacity, is the whole message when that
  fits, and otherwise is the message truncated to the capacity at its last
  character boundary.
- `src/error.rs`: `TestError`, the failing test's name with its error.
- `src/lib.rs`: `Test` (implemented for test functions), `TestContext`,
  `TestRunner`, `TestResult`.
- `src/runner.rs`: `TestSource`, whose results follow a fixed schedule of test
  names; `TestSuite` runs tests in the order they were added, each under its
  name; `SuiteSequence` runs named suites one after another and nests; its
  `next_log_event` gives, in order, each suite's label (`name:`) and then
  each of its results, and `execute_suites` (`TestScheduler`) hands those
  events to a `TestLogger`; `ErrorMapped` converts a source's errors, and
  `EitherSource` lets suites of two kinds share one sequence.
- `src/scheduler.rs`: the `TestScheduler` and `TestLogger` traits.
- `src/owned/`: the same assertions with owned `String` names and
  descriptions that quote both sides' `Debug` text.
- `app/main.rs`: an example runner that prints each result.

Failure descriptions and suites live on the heap (`String`, `Vec`,
`VecDeque`).
