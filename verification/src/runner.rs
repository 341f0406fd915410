//! Running tests one after another, and running whole suites one after
//! another: the order in which a runner and a scheduler hand out results.

use std::collections::VecDeque;
use vstd::prelude::*;

use crate::assertion::Assertion;
use crate::scheduler::{TestLogger, TestScheduler};
use vstd::string::*;
use crate::{result_name, Test, TestResult};

verus! {

/// Something that hands out test results one at a time, until it is done.
pub trait TestSource {
    type Error;

    /// Whether the source is in a usable state.
    spec fn valid(&self) -> bool;

    /// The names of the tests the source runs, in the order it runs them.
    spec fn schedule(&self) -> Seq<Seq<char>>;

    /// The results handed out so far, in order.
    spec fn produced(&self) -> Seq<TestResult<'static, Self::Error>>;

    /// How many results have been handed out so far.
    spec fn count(&self) -> nat;

    /// Whether every result has been handed out.
    spec fn exhausted(&self) -> bool;

    /// Results follow the schedule: the `k`-th result carries the `k`-th
    /// scheduled name, and the source is done exactly when every scheduled
    /// test has given its result.
    proof fn lemma_results_follow_schedule(&self)
        requires
            self.valid(),
        ensures
            self.produced().len() == self.count(),
            self.count() <= self.schedule().len(),
            forall|k: int|
                0 <= k < self.produced().len() ==> result_name(#[trigger] self.produced()[k])
                    == self.schedule()[k],
            self.exhausted() <==> self.count() == self.schedule().len(),
    ;

    /// Hands out the next result; `None` exactly when the source is done.
    /// The schedule stays as it is.
    fn next_result(&mut self) -> (r: Option<TestResult<'static, Self::Error>>)
        requires
            old(self).valid(),
        ensures
            final(self).valid(),
            final(self).schedule() == old(self).schedule(),
            r is None <==> old(self).exhausted(),
            old(self).exhausted() ==> final(self).exhausted(),
            match r {
                Some(result) => final(self).produced() == old(self).produced().push(result),
                None => final(self).produced() == old(self).produced(),
            },
            final(self).count() == old(self).count() + if r is Some { 1nat } else { 0nat },
    ;
}

/// A test together with the name it runs under.
pub struct NamedTest<T> {
    pub name: &'static str,
    pub test: T,
}

/// Whether `result` is what running `test` under `name` may give.
pub open spec fn ran_as<T: Test>(test: T, name: Seq<char>, result: TestResult<'static, T::Error>) -> bool {
    &&& result_name(result) == name
    &&& exists|assertion: Assertion| assertion.name() == name && #[trigger] test.outcome(assertion, result)
}

/// The names of `tests`, in order.
pub open spec fn test_names<T>(tests: Seq<NamedTest<T>>) -> Seq<Seq<char>> {
    tests.map_values(|t: NamedTest<T>| t.name@)
}

/// Whether `test` can run with any assertion handle.
pub open spec fn always_runnable<T: Test>(test: T) -> bool {
    forall|assertion: Assertion| #[trigger] test.runnable(assertion)
}

/// Tests run one by one, in the order they were added, each under its name.
pub struct TestSuite<T: Test> {
    pending: VecDeque<NamedTest<T>>,
    tests: Ghost<Seq<NamedTest<T>>>,
    produced: Ghost<Seq<TestResult<'static, T::Error>>>,
}

impl<T: Test> TestSuite<T> {
    /// Every test added so far, in order.
    pub closed spec fn tests(&self) -> Seq<NamedTest<T>> {
        self.tests@
    }

    pub fn new() -> (r: Self)
        ensures
            r.valid(),
            r.tests() == Seq::<NamedTest<T>>::empty(),
            r.schedule() == Seq::<Seq<char>>::empty(),
            r.produced() == Seq::<TestResult<'static, T::Error>>::empty(),
            r.count() == 0,
    {
        let suite = TestSuite {
            pending: VecDeque::new(),
            tests: Ghost(Seq::empty()),
            produced: Ghost(Seq::empty()),
        };
        assert(suite.pending@ =~= suite.tests@.skip(0));
        assert(test_names(suite.tests@) =~= Seq::<Seq<char>>::empty());
        suite
    }

    /// Adds a test that runs after those added before it. For a test
    /// function, `lemma_test_function_runnable` shows that it can run.
    pub fn push(&mut self, name: &'static str, test: T)
        requires
            old(self).valid(),
            always_runnable(test),
        ensures
            final(self).valid(),
            final(self).tests() == old(self).tests().push(NamedTest { name, test }),
            final(self).schedule() == old(self).schedule().push(name@),
            final(self).produced() == old(self).produced(),
            final(self).count() == old(self).count(),
    {
        let ghost old_pending = self.pending@;
        self.pending.push_back(NamedTest { name, test });
        proof {
            self.tests@ = self.tests@.push(NamedTest { name, test });
            assert(self.tests@.skip(self.produced@.len() as int) =~= old_pending.push(NamedTest { name, test }));
            assert(test_names(self.tests@) =~= test_names(old(self).tests@).push(name@));
        }
    }
}

/// A suite's order: the `k`-th result came from running the `k`-th test
/// added, under its name, and the suite is done exactly when every test it
/// holds has run.
pub proof fn lemma_suite_runs_tests_in_order<T: Test>(suite: TestSuite<T>)
    requires
        suite.valid(),
    ensures
        suite.schedule() == test_names(suite.tests()),
        suite.produced().len() <= suite.tests().len(),
        forall|k: int|
            0 <= k < suite.produced().len() ==> ran_as(
                suite.tests()[k].test,
                suite.tests()[k].name@,
                #[trigger] suite.produced()[k],
            ),
        suite.exhausted() <==> suite.produced().len() == suite.tests().len(),
{
}

impl<T: Test> TestSource for TestSuite<T> {
    type Error = T::Error;

    /// The tests not run yet are the last ones added, each can run with any
    /// handle, and the `k`-th result came from running the `k`-th test under
    /// its name.
    closed spec fn valid(&self) -> bool {
        &&& self.produced@.len() <= self.tests@.len()
        &&& self.pending@ == self.tests@.skip(self.produced@.len() as int)
        &&& forall|i: int| 0 <= i < self.tests@.len() ==> always_runnable(#[trigger] self.tests@[i].test)
        &&& forall|k: int|
            0 <= k < self.produced@.len() ==> ran_as(
                self.tests@[k].test,
                self.tests@[k].name@,
                #[trigger] self.produced@[k],
            )
    }

    closed spec fn schedule(&self) -> Seq<Seq<char>> {
        test_names(self.tests@)
    }

    closed spec fn produced(&self) -> Seq<TestResult<'static, T::Error>> {
        self.produced@
    }

    closed spec fn count(&self) -> nat {
        self.produced@.len()
    }

    closed spec fn exhausted(&self) -> bool {
        self.pending@.len() == 0
    }

    proof fn lemma_results_follow_schedule(&self) {
        assert forall|k: int| 0 <= k < self.produced().len() implies result_name(#[trigger] self.produced()[k])
            == self.schedule()[k] by {
            assert(ran_as(self.tests@[k].test, self.tests@[k].name@, self.produced@[k]));
        }
    }

    /// Runs the first test not run yet; the tests stay as they are.
    fn next_result(&mut self) -> (r: Option<TestResult<'static, T::Error>>)
        ensures
            final(self).tests() == old(self).tests(),
    {
        let next = self.pending.pop_front();
        match next {
            None => None,
            Some(named) => {
                let ghost k = self.produced@.len() as int;
                assert(self.tests@[k] == named);
                let assertion = Assertion::new(named.name);
                let result = named.test.run(assertion);
                proof {
                    assert(ran_as(named.test, named.name@, result));
                    self.produced@ = self.produced@.push(result);
                    assert(self.pending@ =~= self.tests@.skip(self.produced@.len() as int));
                }
                Some(result)
            },
        }
    }
}

/// The results of `suites`, suite by suite, in order.
pub open spec fn results_in_order<S: TestSource>(suites: Seq<S>) -> Seq<TestResult<'static, S::Error>>
    decreases suites.len(),
{
    if suites.len() == 0 {
        Seq::empty()
    } else {
        results_in_order(suites.drop_last()) + suites.last().produced()
    }
}

/// The schedules of `suites`, suite by suite, in order.
pub open spec fn schedule_in_order<S: TestSource>(suites: Seq<S>) -> Seq<Seq<char>>
    decreases suites.len(),
{
    if suites.len() == 0 {
        Seq::empty()
    } else {
        schedule_in_order(suites.drop_last()) + suites.last().schedule()
    }
}

/// Only the suites' schedules matter to `schedule_in_order`.
proof fn lemma_schedule_depends_on_schedules<S: TestSource>(a: Seq<S>, b: Seq<S>)
    requires
        a.len() == b.len(),
        forall|j: int| 0 <= j < a.len() ==> #[trigger] a[j].schedule() == b[j].schedule(),
    ensures
        schedule_in_order(a) == schedule_in_order(b),
    decreases a.len(),
{
    if a.len() > 0 {
        lemma_schedule_depends_on_schedules(a.drop_last(), b.drop_last());
        assert(a.last().schedule() == b[b.len() - 1].schedule());
    }
}

/// Suites run in order follow the joined schedule of the suites: when the
/// suites before `current` are done and none after it has started, the
/// `k`-th result carries the `k`-th scheduled name, and all results are in
/// exactly when every suite is done.
proof fn lemma_suites_follow_schedule<S: TestSource>(suites: Seq<S>, current: int)
    requires
        forall|j: int| 0 <= j < suites.len() ==> (#[trigger] suites[j]).valid(),
        forall|j: int| 0 <= j < current && j < suites.len() ==> (#[trigger] suites[j]).exhausted(),
        0 <= current,
        forall|j: int| current < j < suites.len() ==> (#[trigger] suites[j]).produced().len() == 0,
    ensures
        results_in_order(suites).len() <= schedule_in_order(suites).len(),
        forall|k: int|
            0 <= k < results_in_order(suites).len() ==> result_name(#[trigger] results_in_order(suites)[k])
                == schedule_in_order(suites)[k],
        (forall|j: int| 0 <= j < suites.len() ==> (#[trigger] suites[j]).exhausted())
            <==> results_in_order(suites).len() == schedule_in_order(suites).len(),
    decreases suites.len(),
{
    if suites.len() > 0 {
        let n = suites.len() - 1;
        let front = suites.drop_last();
        let last = suites.last();
        assert(last == suites[n]);
        assert forall|j: int| 0 <= j < front.len() implies (#[trigger] front[j]).valid() by {
            assert(front[j] == suites[j]);
        }
        assert forall|j: int| 0 <= j < current && j < front.len() implies (#[trigger] front[j]).exhausted() by {
            assert(front[j] == suites[j]);
        }
        assert forall|j: int| current < j < front.len() implies (#[trigger] front[j]).produced().len() == 0 by {
            assert(front[j] == suites[j]);
        }
        lemma_suites_follow_schedule(front, current);
        last.lemma_results_follow_schedule();
        let r = results_in_order(front);
        let sc = schedule_in_order(front);
        assert(results_in_order(suites) == r + last.produced());
        assert(schedule_in_order(suites) == sc + last.schedule());
        if n > current {
            assert(last.produced().len() == 0);
            assert(results_in_order(suites) =~= r);
            assert forall|k: int| 0 <= k < results_in_order(suites).len() implies result_name(
                #[trigger] results_in_order(suites)[k],
            ) == schedule_in_order(suites)[k] by {
                assert(results_in_order(suites)[k] == r[k]);
                assert(schedule_in_order(suites)[k] == sc[k]);
            }
            if forall|j: int| 0 <= j < suites.len() ==> (#[trigger] suites[j]).exhausted() {
                assert forall|j: int| 0 <= j < front.len() implies (#[trigger] front[j]).exhausted() by {
                    assert(front[j] == suites[j]);
                }
            }
            if results_in_order(suites).len() == schedule_in_order(suites).len() {
                assert forall|j: int| 0 <= j < suites.len() implies (#[trigger] suites[j]).exhausted() by {
                    if j < n {
                        assert(front[j] == suites[j]);
                    }
                }
            }
        } else {
            assert(forall|j: int| 0 <= j < front.len() ==> (#[trigger] front[j]).exhausted()) by {
                assert forall|j: int| 0 <= j < front.len() implies (#[trigger] front[j]).exhausted() by {
                    assert(front[j] == suites[j]);
                }
            }
            assert(r.len() == sc.len());
            assert forall|k: int| 0 <= k < results_in_order(suites).len() implies result_name(
                #[trigger] results_in_order(suites)[k],
            ) == schedule_in_order(suites)[k] by {
                if k < r.len() {
                    assert(results_in_order(suites)[k] == r[k]);
                    assert(schedule_in_order(suites)[k] == sc[k]);
                } else {
                    assert(results_in_order(suites)[k] == last.produced()[k - r.len()]);
                    assert(schedule_in_order(suites)[k] == last.schedule()[k - sc.len()]);
                }
            }
            if results_in_order(suites).len() == schedule_in_order(suites).len() {
                assert forall|j: int| 0 <= j < suites.len() implies (#[trigger] suites[j]).exhausted() by {
                    if j < n {
                        assert(front[j] == suites[j]);
                    }
                }
            }
        }
    }
}

/// Only what the suites produced matters to `results_in_order`.
proof fn lemma_results_depend_on_produced<S: TestSource>(a: Seq<S>, b: Seq<S>)
    requires
        a.len() == b.len(),
        forall|j: int| 0 <= j < a.len() ==> #[trigger] a[j].produced() == b[j].produced(),
    ensures
        results_in_order(a) == results_in_order(b),
    decreases a.len(),
{
    if a.len() > 0 {
        lemma_results_depend_on_produced(a.drop_last(), b.drop_last());
        assert(a.last().produced() == b[b.len() - 1].produced());
    }
}

/// When no suite after `i` has produced anything, the results end with
/// those of suite `i`.
proof fn lemma_results_end_with<S: TestSource>(suites: Seq<S>, i: int)
    requires
        0 <= i < suites.len(),
        forall|j: int| i < j < suites.len() ==> (#[trigger] suites[j]).produced().len() == 0,
    ensures
        results_in_order(suites) == results_in_order(suites.take(i)) + suites[i].produced(),
    decreases suites.len(),
{
    if i == suites.len() - 1 {
        assert(suites.drop_last() =~= suites.take(i));
    } else {
        let last = suites.last();
        assert(last.produced().len() == 0);
        assert(results_in_order(suites) =~= results_in_order(suites.drop_last()));
        lemma_results_end_with(suites.drop_last(), i);
        assert(suites.drop_last().take(i) =~= suites.take(i));
        assert(suites.drop_last()[i] == suites[i]);
    }
}

/// Suites run one after another: a suite runs to its end before the next
/// one starts, and the results come out suite by suite.
pub struct SuiteSequence<S: TestSource> {
    names: Vec<&'static str>,
    suites: Vec<S>,
    index: usize,
    announced: bool,
}

impl<S: TestSource> SuiteSequence<S> {
    /// The suites, in the order they run.
    pub closed spec fn suites(&self) -> Seq<S> {
        self.suites@
    }

    /// The names of the suites, in the order they run.
    pub closed spec fn names(&self) -> Seq<&'static str> {
        self.names@
    }

    /// Whether the current suite's label has been reported.
    pub closed spec fn announced(&self) -> bool {
        self.announced
    }

    /// The suite that runs now; the ones before it are done.
    pub closed spec fn current(&self) -> int {
        self.index as int
    }

    /// Suites that have not started, named, to run in the order given.
    pub fn new(names: Vec<&'static str>, suites: Vec<S>) -> (r: Self)
        requires
            names@.len() == suites@.len(),
            forall|j: int| 0 <= j < suites@.len() ==> (#[trigger] suites@[j]).valid(),
            forall|j: int| 0 <= j < suites@.len() ==> (#[trigger] suites@[j]).count() == 0,
        ensures
            r.valid(),
            r.names() == names@,
            r.suites() == suites@,
            r.current() == 0,
            !r.announced(),
            r.schedule() == schedule_in_order(suites@),
            r.count() == 0,
    {
        let r = SuiteSequence { names, suites, index: 0, announced: false };
        proof {
            assert forall|j: int| 0 <= j < r.suites@.len() implies (#[trigger] r.suites@[j]).produced().len() == 0 by {
                r.suites@[j].lemma_results_follow_schedule();
            }
            if r.suites@.len() > 0 {
                lemma_results_end_with(r.suites@, 0);
                assert(r.suites@.take(0) =~= Seq::<S>::empty());
            }
            assert(results_in_order(r.suites@) =~= Seq::<TestResult<'static, S::Error>>::empty());
        }
        r
    }
}

/// Whether `converted` is `original` under the same name, with its error,
/// if any, converted by `map`.
pub open spec fn converted_by<E, NewError, F: Fn(E) -> NewError>(
    map: F,
    original: TestResult<'static, E>,
    converted: TestResult<'static, NewError>,
) -> bool {
    &&& result_name(converted) == result_name(original)
    &&& match original {
        Ok(_) => converted is Ok,
        Err(error) => converted matches Err(new_error) && map.ensures((error.cause(),), new_error.cause()),
    }
}

/// A source whose errors are converted by `map`: how suites with errors of
/// different types are brought under one error type.
#[verifier::reject_recursive_types(NewError)]
pub struct ErrorMapped<S: TestSource, NewError, F: Fn(S::Error) -> NewError> {
    source: S,
    map: F,
    produced: Ghost<Seq<TestResult<'static, NewError>>>,
}

impl<S: TestSource, NewError, F: Fn(S::Error) -> NewError> ErrorMapped<S, NewError, F> {
    /// The source whose results are converted.
    pub closed spec fn source(&self) -> S {
        self.source
    }

    /// The conversion of errors.
    pub closed spec fn map(&self) -> F {
        self.map
    }

    pub fn new(source: S, map: F) -> (r: Self)
        requires
            source.valid(),
            source.count() == 0,
            forall|error: S::Error| #[trigger] map.requires((error,)),
        ensures
            r.valid(),
            r.source() == source,
            r.map() == map,
            r.schedule() == source.schedule(),
            r.count() == 0,
    {
        proof {
            source.lemma_results_follow_schedule();
        }
        ErrorMapped { source, map, produced: Ghost(Seq::empty()) }
    }
}

impl<S: TestSource, NewError, F: Fn(S::Error) -> NewError> TestSource for ErrorMapped<S, NewError, F> {
    type Error = NewError;

    /// The `k`-th result is the `k`-th result of the source, converted.
    closed spec fn valid(&self) -> bool {
        &&& self.source.valid()
        &&& forall|error: S::Error| #[trigger] self.map.requires((error,))
        &&& self.produced@.len() == self.source.count()
        &&& self.source.produced().len() == self.source.count()
        &&& forall|k: int|
            0 <= k < self.produced@.len() ==> converted_by(
                self.map,
                self.source.produced()[k],
                #[trigger] self.produced@[k],
            )
    }

    closed spec fn schedule(&self) -> Seq<Seq<char>> {
        self.source.schedule()
    }

    closed spec fn produced(&self) -> Seq<TestResult<'static, NewError>> {
        self.produced@
    }

    closed spec fn count(&self) -> nat {
        self.source.count()
    }

    closed spec fn exhausted(&self) -> bool {
        self.source.exhausted()
    }

    proof fn lemma_results_follow_schedule(&self) {
        self.source.lemma_results_follow_schedule();
        assert forall|k: int| 0 <= k < self.produced@.len() implies result_name(#[trigger] self.produced@[k])
            == self.schedule()[k] by {
            assert(converted_by(self.map, self.source.produced()[k], self.produced@[k]));
        }
    }

    fn next_result(&mut self) -> (r: Option<TestResult<'static, NewError>>) {
        proof {
            self.source.lemma_results_follow_schedule();
        }
        let next = self.source.next_result();
        proof {
            self.source.lemma_results_follow_schedule();
        }
        match next {
            None => None,
            Some(Ok(success)) => {
                let converted: TestResult<'static, NewError> = Ok(success);
                proof {
                    assert(converted_by(self.map, Ok(success), converted));
                    self.produced@ = self.produced@.push(converted);
                }
                Some(converted)
            },
            Some(Err(error)) => {
                let ghost original: TestResult<'static, S::Error> = Err(error);
                let map = &self.map;
                let convert = (|cause: S::Error| -> (converted: NewError)
                    requires
                        map.requires((cause,)),
                    ensures
                        map.ensures((cause,), converted),
                    { map(cause) });
                let new_error = error.map_error(convert);
                let converted: TestResult<'static, NewError> = Err(new_error);
                proof {
                    assert(converted_by(self.map, original, converted));
                    self.produced@ = self.produced@.push(converted);
                }
                Some(converted)
            },
        }
    }
}

/// One of two kinds of source with the same error type: how a scheduler
/// holds suites of different kinds, such as a suite of tests beside a
/// nested scheduler.
pub enum EitherSource<A: TestSource, B: TestSource<Error = A::Error>> {
    First(A),
    Second(B),
}

impl<A: TestSource, B: TestSource<Error = A::Error>> TestSource for EitherSource<A, B> {
    type Error = A::Error;

    closed spec fn valid(&self) -> bool {
        match self {
            EitherSource::First(a) => a.valid(),
            EitherSource::Second(b) => b.valid(),
        }
    }

    closed spec fn schedule(&self) -> Seq<Seq<char>> {
        match self {
            EitherSource::First(a) => a.schedule(),
            EitherSource::Second(b) => b.schedule(),
        }
    }

    closed spec fn produced(&self) -> Seq<TestResult<'static, A::Error>> {
        match self {
            EitherSource::First(a) => a.produced(),
            EitherSource::Second(b) => b.produced(),
        }
    }

    closed spec fn count(&self) -> nat {
        match self {
            EitherSource::First(a) => a.count(),
            EitherSource::Second(b) => b.count(),
        }
    }

    closed spec fn exhausted(&self) -> bool {
        match self {
            EitherSource::First(a) => a.exhausted(),
            EitherSource::Second(b) => b.exhausted(),
        }
    }

    proof fn lemma_results_follow_schedule(&self) {
        match self {
            EitherSource::First(a) => a.lemma_results_follow_schedule(),
            EitherSource::Second(b) => b.lemma_results_follow_schedule(),
        }
    }

    fn next_result(&mut self) -> (r: Option<TestResult<'static, A::Error>>) {
        match self {
            EitherSource::First(a) => a.next_result(),
            EitherSource::Second(b) => b.next_result(),
        }
    }
}

/// The label a suite is reported under: its name followed by `:`.
pub fn suite_label(name: &str) -> (r: String)
    ensures
        r@ == name@ + ":"@,
{
    let mut label = String::from_str(name);
    label.append(":");
    label
}

/// One thing a scheduler reports: a suite starting, under its label, or a
/// result of the suite that runs.
pub enum LogEvent<E> {
    Suite(String),
    Result(TestResult<'static, E>),
}

/// Whether the scheduler has nothing left to report: every suite's label
/// and results have been reported.
pub open spec fn log_finished<S: TestSource>(sequence: SuiteSequence<S>) -> bool {
    ||| sequence.current() == sequence.suites().len()
    ||| sequence.announced() && sequence.current() + 1 == sequence.suites().len()
        && sequence.suites()[sequence.current()].exhausted()
}

/// The label of the suite at `index`: its name followed by `:`.
pub open spec fn label_of<S: TestSource>(sequence: SuiteSequence<S>, index: int) -> Seq<char> {
    sequence.names()[index]@ + ":"@
}

/// One thing the logger is handed, as the library sees it: a suite's label,
/// or a result.
pub enum Report<E> {
    Label(Seq<char>),
    Outcome(TestResult<'static, E>),
}

/// What the logger is handed for `event`.
pub open spec fn report_of<E>(event: LogEvent<E>) -> Report<E> {
    match event {
        LogEvent::Suite(label) => Report::Label(label@),
        LogEvent::Result(result) => Report::Outcome(result),
    }
}

/// Results, each as the logger is handed it.
pub open spec fn outcomes<E>(results: Seq<TestResult<'static, E>>) -> Seq<Report<E>> {
    results.map_values(|result: TestResult<'static, E>| Report::Outcome(result))
}

/// Each suite's label, `{name}:`, followed by all of that suite's results,
/// suite after suite.
pub open spec fn full_log<S: TestSource>(names: Seq<&'static str>, suites: Seq<S>) -> Seq<Report<S::Error>>
    decreases suites.len(),
{
    if suites.len() == 0 {
        Seq::empty()
    } else {
        full_log(names, suites.drop_last()) + seq![Report::Label(names[suites.len() - 1]@ + ":"@)] + outcomes(
            suites.last().produced(),
        )
    }
}

/// Whether the label of suite `j` has been reported in `sequence`.
pub open spec fn label_reported<S: TestSource>(sequence: SuiteSequence<S>, j: int) -> bool {
    j < sequence.current() || (j == sequence.current() && sequence.announced())
}

/// What is reported of suite `j` on the way from `before` to `after`: its
/// label, if that was reported on the way, then the results it gave on the
/// way.
pub open spec fn suite_log_between<S: TestSource>(
    before: SuiteSequence<S>,
    after: SuiteSequence<S>,
    j: int,
) -> Seq<Report<S::Error>> {
    (if label_reported(after, j) && !label_reported(before, j) {
        seq![Report::Label(label_of(after, j))]
    } else {
        Seq::empty()
    }) + outcomes(after.suites()[j].produced().skip(before.suites()[j].produced().len() as int))
}

/// What is reported of the first `n` suites on the way from `before` to
/// `after`, suite by suite.
pub open spec fn log_between<S: TestSource>(
    before: SuiteSequence<S>,
    after: SuiteSequence<S>,
    n: nat,
) -> Seq<Report<S::Error>>
    decreases n,
{
    if n == 0 {
        Seq::empty()
    } else {
        log_between(before, after, (n - 1) as nat) + suite_log_between(before, after, n - 1)
    }
}

/// Whether `after` is reached from `before` by reporting events one by one.
spec fn reached_by_reporting<S: TestSource>(before: SuiteSequence<S>, after: SuiteSequence<S>) -> bool {
    &&& after.valid()
    &&& after.names() == before.names()
    &&& after.suites().len() == before.suites().len()
    &&& before.current() <= after.current()
    &&& (before.current() == after.current() && before.announced()) ==> after.announced()
    &&& forall|j: int|
        0 <= j < before.suites().len() ==> before.suites()[j].produced().len() <= (
        #[trigger] after.suites()[j]).produced().len()
    &&& (after.current() < after.suites().len() && !after.announced()) ==> after.suites()[after.current()].produced().len()
        == before.suites()[after.current()].produced().len()
}

/// Suites reported alike give the same log.
proof fn lemma_log_between_agree<S: TestSource>(
    before: SuiteSequence<S>,
    one: SuiteSequence<S>,
    other: SuiteSequence<S>,
    n: nat,
)
    requires
        forall|j: int| 0 <= j < n ==> #[trigger] suite_log_between(before, one, j) == suite_log_between(before, other, j),
    ensures
        log_between(before, one, n) == log_between(before, other, n),
    decreases n,
{
    if n > 0 {
        lemma_log_between_agree(before, one, other, (n - 1) as nat);
        assert(suite_log_between(before, one, n - 1) == suite_log_between(before, other, n - 1));
    }
}

/// Suites of which nothing was reported add nothing to the log.
proof fn lemma_log_between_quiet_tail<S: TestSource>(
    before: SuiteSequence<S>,
    after: SuiteSequence<S>,
    m: nat,
    n: nat,
)
    requires
        m <= n,
        forall|j: int| m <= j < n ==> #[trigger] suite_log_between(before, after, j) == Seq::<Report<S::Error>>::empty(),
    ensures
        log_between(before, after, n) == log_between(before, after, m),
    decreases n,
{
    if n > m {
        lemma_log_between_quiet_tail(before, after, m, (n - 1) as nat);
        assert(suite_log_between(before, after, n - 1) == Seq::<Report<S::Error>>::empty());
        assert(log_between(before, after, n) =~= log_between(before, after, (n - 1) as nat));
    }
}

/// One report moves the log on by what was reported: the log from `start`
/// to `after` is the log from `start` to `before` followed by the event, if
/// there was one.
proof fn lemma_log_step<S: TestSource>(
    start: SuiteSequence<S>,
    before: SuiteSequence<S>,
    after: SuiteSequence<S>,
    e: Option<LogEvent<S::Error>>,
)
    requires
        start.valid(),
        reached_by_reporting(start, before),
        after.valid(),
        after.names() == before.names(),
        after.suites().len() == before.suites().len(),
        e is None <==> log_finished(before),
        e is None ==> after.current() == after.suites().len(),
        forall|j: int|
            0 <= j < before.suites().len() && j != before.current() ==> after.suites()[j] == before.suites()[j],
        before.current() < before.suites().len() ==> after.suites()[before.current()].produced() == match e {
            Some(LogEvent::Result(result)) => before.suites()[before.current()].produced().push(result),
            _ => before.suites()[before.current()].produced(),
        },
        before.current() < before.suites().len() && !before.announced() ==> {
            &&& e matches Some(LogEvent::Suite(label)) && label@ == label_of(before, before.current())
            &&& after.current() == before.current()
            &&& after.announced()
        },
        before.current() < before.suites().len() && before.announced()
            && !before.suites()[before.current()].exhausted() ==> {
            &&& e matches Some(LogEvent::Result(result))
            &&& after.current() == before.current()
            &&& after.announced()
        },
        before.current() < before.suites().len() && before.announced()
            && before.suites()[before.current()].exhausted() ==> {
            &&& after.current() == before.current() + 1
            &&& after.current() < after.suites().len() ==> {
                &&& e matches Some(LogEvent::Suite(label)) && label@ == label_of(before, after.current())
                &&& after.announced()
            }
        },
    ensures
        reached_by_reporting(start, after),
        log_between(start, after, after.suites().len()) == match e {
            Some(event) => log_between(start, before, before.suites().len()).push(report_of(event)),
            None => log_between(start, before, before.suites().len()),
        },
{
    let n = before.suites().len();
    let cur = before.current();
    assert forall|j: int| 0 <= j < start.suites().len() implies start.suites()[j].produced().len() <= (
    #[trigger] after.suites()[j]).produced().len() by {
        assert(start.suites()[j].produced().len() <= before.suites()[j].produced().len());
    }
    match e {
        None => {
            assert forall|j: int| 0 <= j < n implies #[trigger] suite_log_between(start, after, j)
                == suite_log_between(start, before, j) by {
                assert(after.suites()[j].produced() == before.suites()[j].produced());
                assert(label_reported(after, j) == label_reported(before, j));
            }
            lemma_log_between_agree(start, after, before, n);
        },
        Some(event) => {
            let k = after.current();
            assert(0 <= k < n);
            assert forall|j: int| 0 <= j < k implies #[trigger] suite_log_between(start, after, j)
                == suite_log_between(start, before, j) by {
                assert(after.suites()[j].produced() == before.suites()[j].produced());
                assert(label_reported(after, j) == label_reported(before, j));
            }
            lemma_log_between_agree(start, after, before, k as nat);
            assert forall|j: int| k < j < n implies #[trigger] suite_log_between(start, after, j)
                == Seq::<Report<S::Error>>::empty() by {
                assert(after.suites()[j] == before.suites()[j]);
                assert(before.suites()[j].produced().len() == 0);
                assert(after.suites()[j].produced().skip(start.suites()[j].produced().len() as int)
                    =~= Seq::<TestResult<'static, S::Error>>::empty());
                assert(suite_log_between(start, after, j) =~= Seq::<Report<S::Error>>::empty());
            }
            assert forall|j: int| k < j < n implies #[trigger] suite_log_between(start, before, j)
                == Seq::<Report<S::Error>>::empty() by {
                assert(before.suites()[j].produced().len() == 0);
                assert(before.suites()[j].produced().skip(start.suites()[j].produced().len() as int)
                    =~= Seq::<TestResult<'static, S::Error>>::empty());
                assert(suite_log_between(start, before, j) =~= Seq::<Report<S::Error>>::empty());
            }
            lemma_log_between_quiet_tail(start, after, (k + 1) as nat, n);
            lemma_log_between_quiet_tail(start, before, (k + 1) as nat, n);
            let p = before.suites()[k].produced();
            let m = start.suites()[k].produced().len() as int;
            if k == cur && !before.announced() {
                assert(p.skip(m) =~= Seq::<TestResult<'static, S::Error>>::empty());
                assert(suite_log_between(start, before, k) =~= Seq::<Report<S::Error>>::empty());
                assert(suite_log_between(start, after, k) =~= seq![report_of(event)]);
            } else if k == cur {
                let result = event->Result_0;
                assert(after.suites()[k].produced() == p.push(result));
                assert(p.push(result).skip(m) =~= p.skip(m).push(result));
                assert(outcomes(p.skip(m).push(result)) =~= outcomes(p.skip(m)).push(Report::Outcome(result)));
                assert(suite_log_between(start, after, k) =~= suite_log_between(start, before, k).push(
                    report_of(event),
                ));
            } else {
                assert(k == cur + 1);
                assert(p.len() == 0);
                assert(after.suites()[k] == before.suites()[k]);
                assert(p.skip(m) =~= Seq::<TestResult<'static, S::Error>>::empty());
                assert(suite_log_between(start, before, k) =~= Seq::<Report<S::Error>>::empty());
                assert(suite_log_between(start, after, k) =~= seq![report_of(event)]);
            }
            assert(log_between(start, after, (k + 1) as nat) =~= log_between(start, before, (k + 1) as nat).push(
                report_of(event),
            ));
        },
    }
}

/// No results at all means no suite has a result.
proof fn lemma_no_results<S: TestSource>(suites: Seq<S>)
    requires
        results_in_order(suites).len() == 0,
    ensures
        forall|j: int| 0 <= j < suites.len() ==> (#[trigger] suites[j]).produced().len() == 0,
    decreases suites.len(),
{
    if suites.len() > 0 {
        lemma_no_results(suites.drop_last());
        assert forall|j: int| 0 <= j < suites.len() implies (#[trigger] suites[j]).produced().len() == 0 by {
            if j < suites.len() - 1 {
                assert(suites.drop_last()[j] == suites[j]);
            }
        }
    }
}

/// The log of a sequence that had not started, up to suite `n`: each
/// suite's label followed by all of its results.
proof fn lemma_fresh_log_prefix<S: TestSource>(before: SuiteSequence<S>, after: SuiteSequence<S>, n: nat)
    requires
        before.current() == 0,
        !before.announced(),
        forall|j: int| 0 <= j < before.suites().len() ==> (#[trigger] before.suites()[j]).produced().len() == 0,
        after.names() == before.names(),
        after.suites().len() == before.suites().len(),
        after.current() == after.suites().len(),
        n <= after.suites().len(),
    ensures
        log_between(before, after, n) == full_log(after.names(), after.suites().take(n as int)),
    decreases n,
{
    if n > 0 {
        let j = n - 1;
        lemma_fresh_log_prefix(before, after, j as nat);
        let taken = after.suites().take(n as int);
        assert(taken.drop_last() =~= after.suites().take(j));
        assert(taken.last() == after.suites()[j]);
        assert(before.suites()[j].produced().len() == 0);
        assert(after.suites()[j].produced().skip(0) =~= after.suites()[j].produced());
        let label = seq![Report::<S::Error>::Label(after.names()[j]@ + ":"@)];
        let results = outcomes(after.suites()[j].produced());
        assert(suite_log_between(before, after, j) =~= label + results);
        assert(full_log(after.names(), taken) == full_log(after.names(), taken.drop_last()) + label + results);
        assert(log_between(before, after, n) =~= full_log(after.names(), taken));
    }
}

/// A sequence that had not started, once it has reported everything, has
/// reported each suite's label followed by all of that suite's results,
/// suite after suite.
pub proof fn lemma_fresh_log_is_full<S: TestSource>(before: SuiteSequence<S>, after: SuiteSequence<S>)
    requires
        before.valid(),
        before.current() == 0,
        !before.announced(),
        before.count() == 0,
        after.names() == before.names(),
        after.suites().len() == before.suites().len(),
        after.current() == after.suites().len(),
    ensures
        log_between(before, after, after.suites().len()) == full_log(after.names(), after.suites()),
{
    lemma_no_results(before.suites());
    lemma_fresh_log_prefix(before, after, after.suites().len());
    assert(after.suites().take(after.suites().len() as int) =~= after.suites());
}

impl<S: TestSource> SuiteSequence<S> {
    /// Suites not yet reached.
    pub closed spec fn suites_left(&self) -> nat {
        (self.suites@.len() - self.index) as nat
    }

    /// 1 while the current suite's label is still to be reported, else 0.
    pub closed spec fn label_left(&self) -> nat {
        if self.announced { 0 } else { 1 }
    }

    /// Results the current suite still has to give.
    pub closed spec fn results_left(&self) -> nat {
        if self.index < self.suites@.len() {
            (self.suites@[self.index as int].schedule().len() - self.suites@[self.index as int].count()) as nat
        } else {
            0
        }
    }

    /// The next thing to report. If the current suite's label has not been
    /// reported, it is that label; otherwise it is the current suite's next
    /// result; when the current suite is done, the scheduler moves to the
    /// next suite and reports its label. `None` exactly when everything has
    /// been reported.
    pub fn next_log_event(&mut self) -> (e: Option<LogEvent<S::Error>>)
        requires
            old(self).valid(),
        ensures
            final(self).valid(),
            final(self).names() == old(self).names(),
            final(self).suites().len() == old(self).suites().len(),
            final(self).schedule() == old(self).schedule(),
            e is None <==> log_finished(*old(self)),
            e is None ==> final(self).produced() == old(self).produced(),
            e is None ==> final(self).current() == final(self).suites().len(),
            // Only the current suite runs, and it gains at most the result reported.
            forall|j: int|
                0 <= j < old(self).suites().len() && j != old(self).current() ==> final(self).suites()[j]
                    == old(self).suites()[j],
            old(self).current() < old(self).suites().len() ==> final(self).suites()[old(self).current()].produced()
                == match e {
                Some(LogEvent::Result(result)) => old(self).suites()[old(self).current()].produced().push(result),
                _ => old(self).suites()[old(self).current()].produced(),
            },
            // The current suite's label.
            old(self).current() < old(self).suites().len() && !old(self).announced() ==> {
                &&& e matches Some(LogEvent::Suite(label)) && label@ == label_of(*old(self), old(self).current())
                &&& final(self).current() == old(self).current()
                &&& final(self).announced()
                &&& final(self).produced() == old(self).produced()
            },
            // The current suite's next result.
            old(self).current() < old(self).suites().len() && old(self).announced()
                && !old(self).suites()[old(self).current()].exhausted() ==> {
                &&& e matches Some(LogEvent::Result(result)) && final(self).produced()
                    == old(self).produced().push(result)
                &&& final(self).current() == old(self).current()
                &&& final(self).announced()
            },
            // The current suite is done: on to the next one and its label.
            old(self).current() < old(self).suites().len() && old(self).announced()
                && old(self).suites()[old(self).current()].exhausted() ==> {
                &&& final(self).current() == old(self).current() + 1
                &&& final(self).produced() == old(self).produced()
                &&& final(self).current() < final(self).suites().len() ==> {
                    &&& e matches Some(LogEvent::Suite(label)) && label@ == label_of(*old(self), final(self).current())
                    &&& final(self).announced()
                }
            },
            // Each report brings the end nearer.
            e is Some ==> {
                ||| final(self).suites_left() < old(self).suites_left()
                ||| final(self).suites_left() == old(self).suites_left() && final(self).label_left() < old(self).label_left()
                ||| final(self).suites_left() == old(self).suites_left() && final(self).label_left() == old(self).label_left()
                    && final(self).results_left() < old(self).results_left()
            },
    {
        if self.index >= self.suites.len() {
            return None;
        }
        if !self.announced {
            self.announced = true;
            return Some(LogEvent::Suite(suite_label(self.names[self.index])));
        }
        let ghost prior = self.suites@;
        let i = self.index;
        proof {
            prior[i as int].lemma_results_follow_schedule();
        }
        let next = self.suites[i].next_result();
        proof {
            self.suites@[i as int].lemma_results_follow_schedule();
        }
        match next {
            Some(result) => {
                proof {
                    lemma_results_end_with(prior, i as int);
                    lemma_results_end_with(self.suites@, i as int);
                    assert(self.suites@.take(i as int) =~= prior.take(i as int));
                    lemma_schedule_depends_on_schedules(self.suites@, prior);
                }
                Some(LogEvent::Result(result))
            },
            None => {
                proof {
                    lemma_results_depend_on_produced(self.suites@, prior);
                    lemma_schedule_depends_on_schedules(self.suites@, prior);
                }
                self.index = i + 1;
                if self.index < self.suites.len() {
                    Some(LogEvent::Suite(suite_label(self.names[self.index])))
                } else {
                    self.announced = false;
                    None
                }
            },
        }
    }
    /// Hands the logger every event still to report, in the order
    /// `next_log_event` gives them: the current suite's label if it has not
    /// been reported, then its remaining results, then each later suite's
    /// label followed by all of its results. Returns, as a record, what the
    /// logger was handed. Afterwards every suite is done and all results are
    /// in; for a sequence that had not started, the record is each suite's
    /// label followed by all of that suite's results, suite after suite.
    pub fn report_to<L: TestLogger>(&mut self, logger: &L) -> (handed: Ghost<Seq<Report<S::Error>>>)
        requires
            old(self).valid(),
        ensures
            final(self).valid(),
            final(self).names() == old(self).names(),
            final(self).suites().len() == old(self).suites().len(),
            final(self).schedule() == old(self).schedule(),
            final(self).current() == final(self).suites().len(),
            forall|j: int| 0 <= j < final(self).suites().len() ==> (#[trigger] final(self).suites()[j]).exhausted(),
            final(self).produced().len() == final(self).schedule().len(),
            handed@ == log_between(*old(self), *final(self), final(self).suites().len()),
            old(self).current() == 0 && !old(self).announced() && old(self).count() == 0 ==> handed@ == full_log(
                final(self).names(),
                final(self).suites(),
            ),
    {
        let ghost start = *self;
        let ghost mut handed: Seq<Report<S::Error>> = Seq::empty();
        proof {
            assert forall|j: int| 0 <= j < start.suites().len() implies #[trigger] suite_log_between(start, start, j)
                == Seq::<Report<S::Error>>::empty() by {
                assert(start.suites()[j].produced().skip(start.suites()[j].produced().len() as int)
                    =~= Seq::<TestResult<'static, S::Error>>::empty());
                assert(suite_log_between(start, start, j) =~= Seq::<Report<S::Error>>::empty());
            }
            lemma_log_between_quiet_tail(start, start, 0, start.suites().len());
        }
        loop
            invariant
                start == *old(self),
                start.valid(),
                reached_by_reporting(start, *self),
                self.schedule() == start.schedule(),
                handed == log_between(start, *self, self.suites().len()),
            ensures
                start == *old(self),
                reached_by_reporting(start, *self),
                self.schedule() == start.schedule(),
                handed == log_between(start, *self, self.suites().len()),
                self.current() == self.suites().len(),
            decreases self.suites_left(), self.label_left(), self.results_left(),
        {
            let ghost before = *self;
            let event = self.next_log_event();
            proof {
                lemma_log_step(start, before, *self, event);
            }
            match event {
                None => {
                    break;
                },
                Some(LogEvent::Suite(label)) => {
                    let message = label.as_str();
                    logger.log_test_suite_name(message);
                    proof {
                        handed = handed.push(Report::Label(message@));
                    }
                },
                Some(LogEvent::Result(result)) => {
                    proof {
                        handed = handed.push(Report::Outcome(result));
                    }
                    logger.log_test_result(result);
                },
            }
        }
        proof {
            self.lemma_results_follow_schedule();
            if start.current() == 0 && !start.announced() && start.count() == 0 {
                lemma_fresh_log_is_full(start, *self);
            }
        }
        Ghost(handed)
    }

}

/// Reports every event of `next_log_event` to the logger, in order: each
/// suite's label, then each of its results.
impl<S: TestSource> TestScheduler for SuiteSequence<S> {
    open spec fn ready(&self) -> bool {
        self.valid()
    }

    fn execute_suites<L: TestLogger>(self, logger: L) {
        let mut sequence = self;
        let _handed = sequence.report_to(&logger);
    }
}

/// The scheduler's order: every suite before the current one is done, no
/// suite after it has started, and the results so far are those of the
/// suites, suite by suite.
pub proof fn lemma_suites_run_in_order<S: TestSource>(sequence: SuiteSequence<S>)
    requires
        sequence.valid(),
    ensures
        0 <= sequence.current() <= sequence.suites().len(),
        forall|j: int| 0 <= j < sequence.current() ==> (#[trigger] sequence.suites()[j]).exhausted(),
        forall|j: int|
            sequence.current() < j < sequence.suites().len() ==> (#[trigger] sequence.suites()[j]).produced().len() == 0,
        sequence.produced() == results_in_order(sequence.suites()),
        sequence.schedule() == schedule_in_order(sequence.suites()),
        sequence.count() == sequence.produced().len(),
        sequence.names().len() == sequence.suites().len(),
{
}

impl<S: TestSource> TestSource for SuiteSequence<S> {
    type Error = S::Error;

    closed spec fn valid(&self) -> bool {
        &&& self.names@.len() == self.suites@.len()
        &&& self.index <= self.suites@.len()
        &&& (self.announced ==> self.index < self.suites@.len())
        &&& forall|j: int| 0 <= j < self.suites@.len() ==> (#[trigger] self.suites@[j]).valid()
        &&& forall|j: int| 0 <= j < self.index ==> (#[trigger] self.suites@[j]).exhausted()
        &&& forall|j: int| self.index < j < self.suites@.len() ==> (#[trigger] self.suites@[j]).produced().len() == 0
    }

    closed spec fn schedule(&self) -> Seq<Seq<char>> {
        schedule_in_order(self.suites@)
    }

    closed spec fn produced(&self) -> Seq<TestResult<'static, S::Error>> {
        results_in_order(self.suites@)
    }

    closed spec fn count(&self) -> nat {
        results_in_order(self.suites@).len()
    }

    proof fn lemma_results_follow_schedule(&self) {
        lemma_suites_follow_schedule(self.suites@, self.index as int);
        if self.exhausted() {
            assert forall|j: int| 0 <= j < self.suites@.len() implies (#[trigger] self.suites@[j]).exhausted() by {
                if j >= self.index {
                }
            }
        }
    }

    closed spec fn exhausted(&self) -> bool {
        forall|j: int| self.index <= j < self.suites@.len() ==> (#[trigger] self.suites@[j]).exhausted()
    }

    fn next_result(&mut self) -> (r: Option<TestResult<'static, S::Error>>) {
        let ghost start = self.index as int;
        let ghost before = self.suites@;
        while self.index < self.suites.len()
            invariant
                start == old(self).index,
                before == old(self).suites@,
                self.names@.len() == self.suites@.len(),
                self.announced ==> self.index < self.suites@.len(),
                start <= self.index <= self.suites@.len(),
                self.suites@.len() == before.len(),
                forall|j: int| 0 <= j < self.suites@.len() ==> (#[trigger] self.suites@[j]).valid(),
                forall|j: int| 0 <= j < self.index ==> (#[trigger] self.suites@[j]).exhausted(),
                forall|j: int| self.index < j < self.suites@.len() ==> (#[trigger] self.suites@[j]).produced().len() == 0,
                forall|j: int| self.index <= j < self.suites@.len() ==> self.suites@[j] == #[trigger] before[j],
                forall|j: int| start <= j < self.index ==> (#[trigger] before[j]).exhausted(),
                forall|j: int| 0 <= j < start ==> (#[trigger] before[j]).exhausted(),
                results_in_order(self.suites@) == results_in_order(before),
                schedule_in_order(self.suites@) == schedule_in_order(before),
            decreases self.suites@.len() - self.index,
        {
            let ghost prior = self.suites@;
            let i = self.index;
            let next = self.suites[i].next_result();
            match next {
                Some(result) => {
                    proof {
                        lemma_results_end_with(prior, i as int);
                        lemma_results_end_with(self.suites@, i as int);
                        assert(self.suites@.take(i as int) =~= prior.take(i as int));
                        assert(prior[i as int] == before[i as int]);
                        assert(!before[i as int].exhausted());
                        lemma_schedule_depends_on_schedules(self.suites@, prior);
                    }
                    return Some(result);
                },
                None => {
                    proof {
                        lemma_results_depend_on_produced(self.suites@, prior);
                        lemma_schedule_depends_on_schedules(self.suites@, prior);
                    }
                    self.index = i + 1;
                    self.announced = false;
                },
            }
        }
        None
    }
}

} // verus!
