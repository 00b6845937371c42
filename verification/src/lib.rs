//! A small test framework: suites of tests, a filter, progress reports and a console.
//!
//! A suite is a [`Test`], built with [`test`] and [`group`]. [`report::execute_test_runner`] starts
//! the tests that the [`Options`] select and begins their run, which is a machine: it is told what
//! happened and says what to do next. [`console::Console`] turns the reports of the run into text,
//! and the [`report::TestReport`] at its end says whether the run counts as a success.

use vstd::prelude::*;

pub mod console;
pub mod launcher;
pub mod laws;
pub mod options;
pub mod outcome;
pub mod printer;
pub mod progress;
pub mod report;
pub mod run;
pub mod session;
pub mod starter;
pub mod stats;
pub mod text;
pub mod tree;

pub use launcher::Launcher;
pub use options::{Color, ColorChoice, Options};
pub use outcome::Testable;
pub use progress::TestProgress;
pub use report::TestReport;
pub use starter::Starter;
pub use tree::{FinishedTest, RunTest, Test};

verus! {

/// A test with a name, which carries `testable`.
pub fn test<S, T>(name: S, testable: T) -> (built: Test<T>) where S: Into<String>
    ensures
        match built {
            Test::Test { name: label, test } => call_ensures(S::into, (name,), label) && test
                == testable,
            Test::Group { .. } => false,
        },
{
    Test::Test { name: name.into(), test: testable }
}

/// A group of suites with a name.
pub fn group<S, T>(name: S, tests: Vec<Test<T>>) -> (built: Test<T>) where S: Into<String>
    ensures
        match built {
            Test::Group { name: label, tests: members } => call_ensures(S::into, (name,), label)
                && members == tests,
            Test::Test { .. } => false,
        },
{
    Test::Group { name: name.into(), tests }
}

} // verus!
