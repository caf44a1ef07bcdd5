//! What the kernel's own test runs keep between a test and its report.

use crate::stack_string::StackString;
use crate::QemuExitCode;
use vstd::prelude::*;

verus! {

/// The most characters that the message of a failed test keeps.
pub const ERROR_MESSAGE_LENGTH: usize = 255;

/// Something that can be run as a test.
pub trait Testable {
    /// Runs the test.
    fn run(&self);
}

/// How a test ended.
#[derive(Debug)]
pub enum TestReport {
    /// No check failed.
    Passed,
    /// A check failed; the message says which.
    Failed(String),
}

/// Runs the tests one after the other, each to its end, and returns the code to end with.
pub fn test_runner(tests: &[&dyn Testable]) -> (code: QemuExitCode)
    ensures
        code == QemuExitCode::Success,
        forall|i: int| 0 <= i < tests@.len() ==> #[trigger] has_run::<dyn Testable>(tests@[i]),
{
    let mut i: usize = 0;
    while i < tests.len()
        invariant
            i <= tests@.len(),
            forall|j: int| 0 <= j < i ==> #[trigger] has_run::<dyn Testable>(tests@[j]),
        decreases tests@.len() - i,
    {
        run_test::<dyn Testable>(tests[i]);
        i += 1;
    }
    QemuExitCode::Success
}

/// Whether `test` has been run to its end: what its `run` promises of a
/// finished run holds.
pub open spec fn has_run<T: Testable + ?Sized>(test: &T) -> bool {
    call_ensures(T::run, (test,), ())
}

/// Runs `test` to its end.
fn run_test<T: Testable + ?Sized>(test: &T)
    ensures
        has_run::<T>(test),
{
    test.run();
}

/// Whether a check of the running test has failed, and with what message.
pub struct TestState {
    pub failed: bool,
    pub error_message: StackString<255>,
}

impl Default for TestState {
    fn default() -> (state: Self)
        ensures
            !state.failed,
            state.error_message@ == Seq::<char>::empty(),
    {
        TestState { failed: false, error_message: StackString::default() }
    }
}

impl TestState {
    /// Forgets the failure and its message.
    pub fn clear(&mut self)
        ensures
            !final(self).failed,
            final(self).error_message@ == Seq::<char>::empty(),
    {
        *self = Self::default();
    }

    /// Adds `s` to the message, as far as there is room for it.
    pub fn write_str(&mut self, s: &str)
        ensures
            final(self).failed == old(self).failed,
            final(self).error_message@ == if old(self).error_message@.len() + s@.len()
                <= ERROR_MESSAGE_LENGTH {
                old(self).error_message@ + s@
            } else {
                old(self).error_message@ + s@.subrange(
                    0,
                    ERROR_MESSAGE_LENGTH - old(self).error_message@.len(),
                )
            },
    {
        let _ = self.error_message.push_str(s);
    }

    /// Records that a check failed, and adds `message` to the message.
    pub fn fail(&mut self, message: &str)
        ensures
            final(self).failed,
            final(self).error_message@ == if old(self).error_message@.len() + message@.len()
                <= ERROR_MESSAGE_LENGTH {
                old(self).error_message@ + message@
            } else {
                old(self).error_message@ + message@.subrange(
                    0,
                    ERROR_MESSAGE_LENGTH - old(self).error_message@.len(),
                )
            },
    {
        self.failed = true;
        self.write_str(message);
    }

    /// Says how the test that just ran ended, and makes the state ready for
    /// the next test if it failed.
    pub fn report(&mut self) -> (report: TestReport)
        ensures
            old(self).failed ==> {
                &&& report matches TestReport::Failed(message)
                &&& message@ == old(self).error_message@
                &&& !final(self).failed
                &&& final(self).error_message@ == Seq::<char>::empty()
            },
            !old(self).failed ==> report is Passed && *final(self) == *old(self),
    {
        if self.failed {
            let message = self.error_message.to_string();
            self.clear();
            TestReport::Failed(message)
        } else {
            TestReport::Passed
        }
    }
}

} // verus!
