//! The result of a whole run.

use vstd::prelude::*;
use vstd::string::*;
use crate::console::{orders, Command, Hue, Order, Style};
use crate::launcher::Launcher;
use crate::options::Options;
use crate::printer::{script, Action, Agenda, Event, Printer, Reply, Task};
use crate::progress::{progress, TestProgress};
use crate::run::{after_all, expects_all, law_done, sent, told};
use crate::starter::{filtered, lent, selected, startable, Starter};
use crate::stats::Stats;
use crate::text::{append_decimal, decimal};
use crate::tree::{bodies, leaves, outline, Test, Tree};

verus! {

/// How many tests of a suite failed, how many did not, and how many the filter left out.
#[derive(Clone, Copy, Debug, PartialEq, Eq, Structural)]
pub struct TestReport {
    pub failed_tests: i32,
    pub successful_tests: i32,
    pub filtered_tests: i32,
}

/// The report on a run with this count, of which so many tests were left out.
pub open spec fn report_of(stats: Stats, filtered_tests: i32) -> TestReport {
    TestReport {
        failed_tests: stats.failed_tests,
        successful_tests: stats.successful_tests,
        filtered_tests,
    }
}

/// What is to be done next in a run of which so many tests were left out.
pub open spec fn with_report<T, E, X>(
    reply: Reply<T, E, X, Stats>,
    filtered_tests: i32,
) -> Reply<T, E, X, TestReport> {
    match reply {
        Reply::Await(test) => Reply::Await(test),
        Reply::Send(report) => Reply::Send(report),
        Reply::Done(stats) => Reply::Done(report_of(stats, filtered_tests)),
        Reply::Fail(error) => Reply::Fail(error),
    }
}

/// The run of a suite of which some tests may have been left out.
pub struct Execution<T> {
    /// The run of the tests that are left.
    pub printer: Printer<T>,
    /// The number of tests that were left out.
    pub filtered_tests: i32,
}

impl<T> Execution<T> {
    /// Takes note of what happened and says what to do next.
    pub fn step<E, X>(&mut self, event: Event<E, X>) -> (action: Action<T, E, X, TestReport>)
        requires
            old(self).printer@.valid(),
            old(self).printer@.expects(event),
        ensures
            final(self).printer@ == old(self).printer@.after(event),
            final(self).printer@.valid(),
            final(self).filtered_tests == old(self).filtered_tests,
            action@ == with_report(old(self).printer@.reply(event), old(self).filtered_tests),
            final(self).printer@.failed() == old(self).printer@.failed() + if event matches Event::Finished(outcome)
                && outcome is Err {
                1int
            } else {
                0
            },
            final(self).printer@.successful() == old(self).printer@.successful() + if event matches Event::Finished(outcome)
                && outcome is Ok {
                1int
            } else {
                0
            },
            match event {
                Event::Finished(outcome) => {
                    &&& action matches Action::Send(TestProgress::Test(name, result))
                    &&& old(self).printer@.running == Some(name@)
                    &&& result == outcome
                },
                Event::Rejected(error) => action matches Action::Fail(cause) && cause == error,
                Event::Continue => match action {
                    Action::Await(test) => {
                        &&& final(self).printer@.running matches Some(name)
                        &&& old(self).printer@.tasks == seq![Task::Run(name, test)]
                            + final(self).printer@.tasks
                    },
                    Action::Send(TestProgress::GroupStart(name)) => old(self).printer@.tasks
                        == seq![Task::<T>::Open(name@)] + final(self).printer@.tasks,
                    Action::Send(TestProgress::GroupEnd) => old(self).printer@.tasks == seq![
                        Task::<T>::Close,
                    ] + final(self).printer@.tasks,
                    Action::Done(report) => {
                        &&& old(self).printer@.tasks.len() == 0
                        &&& report.failed_tests == old(self).printer@.failed()
                        &&& report.successful_tests == old(self).printer@.successful()
                        &&& report.filtered_tests == old(self).filtered_tests
                    },
                    _ => false,
                },
            },
    {
        match self.printer.step(event) {
            Action::Await(test) => Action::Await(test),
            Action::Send(report) => Action::Send(report),
            Action::Done(stats) => Action::Done(
                TestReport {
                    failed_tests: stats.failed_tests,
                    successful_tests: stats.successful_tests,
                    filtered_tests: self.filtered_tests,
                },
            ),
            Action::Fail(error) => Action::Fail(error),
        }
    }
}

/// Starts the tests of a suite that the options select with the launcher, from left to right, and
/// begins their run.
pub fn execute_test_runner<T, U, E, F>(
    test: Test<T>,
    options: &Options,
    executor: Option<E>,
    launcher: &mut Launcher<T, F>,
) -> (execution: Execution<U>) where F: Fn(Option<&E>, T) -> U
    requires
        selected(test.tree(), seq![], options.filter@) matches Some(kept) ==> startable(
            bodies(kept),
            lent(&executor),
            old(launcher).start(),
        ),
        filtered(test.tree(), seq![], options.filter@) <= i32::MAX,
    ensures
        execution.filtered_tests == filtered(
            test.tree(),
            seq![],
            options.filter@,
        ),
        match selected(test.tree(), seq![], options.filter@) {
            Some(kept) => exists|running: Tree<U>|
                {
                    &&& execution.printer@ == Agenda::begin(#[trigger] script(running))
                    &&& outline(running) == outline(kept)
                    &&& bodies(running).len() == bodies(kept).len()
                    &&& forall|i: int|
                        0 <= i < bodies(kept).len() ==> call_ensures(
                            old(launcher).start(),
                            (lent(&executor), #[trigger] bodies(kept)[i]),
                            bodies(running)[i],
                        )
                },
            None => execution.printer@ == Agenda::<U>::begin(seq![]),
        },
        execution.printer@.valid(),
        final(launcher).start() == old(launcher).start(),
        final(launcher).started() == old(launcher).started() + match selected(
            test.tree(),
            seq![],
            options.filter@,
        ) {
            Some(kept) => bodies(kept),
            None => seq![],
        },
{
    let mut starter = Starter::with_executor(options, executor);
    let running_test = test.run_all(&mut starter, launcher);
    let printer = match running_test {
        Some(running_test) => Printer::new(running_test),
        None => Printer::idle(),
    };
    Execution { printer, filtered_tests: starter.filtered_tests }
}

impl TestReport {
    /// Whether the filter left out every test of a suite that has some.
    pub open spec fn filtered_all_tests(self) -> bool {
        self.failed_tests == 0 && self.successful_tests == 0 && self.filtered_tests != 0
    }

    /// Whether the run counts as a success.
    pub open spec fn passed(self) -> bool {
        self.failed_tests == 0 && !self.filtered_all_tests()
    }

    /// Whether a verdict says whether the run counts as a success, with the error where it does not.
    pub open spec fn accounts_for(self, verdict: Result<(), &'static str>) -> bool {
        match verdict {
            Ok(()) => self.passed(),
            Err(message) => !self.passed() && message@ == "One or more tests failed"@,
        }
    }

    /// Whether the run counts as a success, and the error where it does not.
    ///
    /// Filtering out all tests is almost certainly a mistake, so it counts as a failure.
    pub fn verdict(&self) -> (verdict: Result<(), &'static str>)
        ensures
            self.accounts_for(verdict),
            verdict is Ok <==> self.failed_tests == 0 && !(self.successful_tests == 0
                && self.filtered_tests != 0),
            verdict matches Err(message) ==> message@ == "One or more tests failed"@,
    {
        let filtered_all_tests = self.failed_tests == 0 && self.successful_tests == 0
            && self.filtered_tests != 0;
        if self.failed_tests == 0 && !filtered_all_tests {
            Ok(())
        } else {
            Err("One or more tests failed")
        }
    }

    /// The line that says how many tests passed, failed and were left out.
    pub open spec fn counts(self) -> Seq<char> {
        ". "@ + decimal(self.successful_tests as int) + " passed; "@
            + decimal(self.failed_tests as int) + " failed; "@ + decimal(
            self.filtered_tests as int,
        ) + " filtered\n"@
    }

    /// What writes the summary of the run.
    pub open spec fn summarized(self) -> Seq<Order> {
        seq![
            Order::Write("test result: "@),
            Order::SetColor(
                Style::hued(
                    if self.failed_tests == 0 {
                        Hue::Green
                    } else {
                        Hue::Red
                    },
                ),
            ),
            Order::Write(
                if self.failed_tests == 0 {
                    "ok"@
                } else {
                    "FAILED"@
                },
            ),
            Order::Reset,
            Order::Write(self.counts()),
        ]
    }

    /// The commands that write the summary of the run.
    pub fn summary(&self) -> (commands: Vec<Command>)
        ensures
            orders(commands@) == self.summarized(),
            commands@.len() == 5,
            commands@[0]@ == Order::Write("test result: "@),
            self.failed_tests == 0 ==> {
                &&& commands@[1]@ == Order::SetColor(Style { fg: Some(Hue::Green), bold: false })
                &&& commands@[2]@ == Order::Write("ok"@)
            },
            self.failed_tests != 0 ==> {
                &&& commands@[1]@ == Order::SetColor(Style { fg: Some(Hue::Red), bold: false })
                &&& commands@[2]@ == Order::Write("FAILED"@)
            },
            commands@[3]@ == Order::Reset,
            commands@[4]@ == Order::Write(
                ". "@ + decimal(self.successful_tests as int) + " passed; "@ + decimal(
                    self.failed_tests as int,
                ) + " failed; "@ + decimal(self.filtered_tests as int) + " filtered\n"@,
            ),
    {
        let mut commands: Vec<Command> = Vec::new();
        commands.push(Command::Write(String::from("test result: ")));
        if self.failed_tests == 0 {
            commands.push(Command::SetColor(Style { fg: Some(Hue::Green), bold: false }));
            commands.push(Command::Write(String::from("ok")));
        } else {
            commands.push(Command::SetColor(Style { fg: Some(Hue::Red), bold: false }));
            commands.push(Command::Write(String::from("FAILED")));
        }
        commands.push(Command::Reset);
        let mut text = String::from(". ");
        append_decimal(&mut text, self.successful_tests);
        text.append(" passed; ");
        append_decimal(&mut text, self.failed_tests);
        text.append(" failed; ");
        append_decimal(&mut text, self.filtered_tests);
        text.append(" filtered\n");
        commands.push(Command::Write(text));
        proof {
            assert(orders(commands@) =~= self.summarized());
            law_summarized(*self);
            assert forall|i: int| 0 <= i < commands@.len() implies #[trigger] commands@[i]@
                == self.summarized()[i] by {
                assert(orders(commands@)[i] == commands@[i]@);
            }
        }
        commands
    }
}

/// A verdict accounts for a run in one way alone: it is a success exactly where no test failed and
/// where the filter did not leave out all that there was; otherwise it is an error that says so.
pub proof fn law_verdict(report: TestReport, message: &'static str)
    ensures
        report.accounts_for(Ok(())) <==> report.failed_tests == 0 && !(report.successful_tests == 0
            && report.filtered_tests != 0),
        report.accounts_for(Err(message)) <==> {
            &&& report.failed_tests != 0 || (report.successful_tests == 0 && report.filtered_tests
                != 0)
            &&& message@ == "One or more tests failed"@
        },
        report.passed() <==> report.accounts_for(Ok(())),
{
}

/// Whatever happened in an execution that says that it is done: its report counts as failed the
/// outcomes that it was told of and that are errors, as successful the others, and as left out what
/// it was begun with; there was one outcome for each test of the tree, and the tree was reported
/// with them.
pub proof fn law_report<T, E, X>(
    tree: Tree<T>,
    events: Seq<Event<E, X>>,
    last: Event<E, X>,
    filtered_tests: i32,
    report: TestReport,
)
    requires
        expects_all(Agenda::begin(script(tree)), events),
        after_all(Agenda::begin(script(tree)), events).expects(last),
        with_report(after_all(Agenda::begin(script(tree)), events).reply(last), filtered_tests)
            == Reply::<T, E, X, TestReport>::Done(report),
    ensures
        report.failed_tests == told(events).filter(|outcome: Result<(), E>| outcome is Err).len(),
        report.successful_tests == told(events).filter(
            |outcome: Result<(), E>| outcome is Ok,
        ).len(),
        report.filtered_tests == filtered_tests,
        told(events).len() == leaves(tree),
        sent(Agenda::begin(script(tree)), events) == progress(tree, told(events)),
{
    match after_all(Agenda::begin(script(tree)), events).reply(last) {
        Reply::Done(stats) => law_done(tree, events, last, stats),
        _ => {},
    }
}

/// The report on a run says what was counted and left out, and nothing but the result changes hands
/// on the way to it.
pub proof fn law_with_report<T, E, X>(reply: Reply<T, E, X, Stats>, filtered_tests: i32)
    ensures
        match (reply, with_report(reply, filtered_tests)) {
            (Reply::Await(test), Reply::Await(asked)) => asked == test,
            (Reply::Send(report), Reply::Send(asked)) => asked == report,
            (Reply::Done(stats), Reply::Done(report)) => {
                &&& report.failed_tests == stats.failed_tests
                &&& report.successful_tests == stats.successful_tests
                &&& report.filtered_tests == filtered_tests
            },
            (Reply::Fail(error), Reply::Fail(asked)) => asked == error,
            _ => false,
        },
{
}

/// The summary is five orders: what it is about, the colour and the word for whether a test failed,
/// the end of the colour, and the three counts, each before the word for it.
pub proof fn law_summarized(report: TestReport)
    ensures
        report.summarized().len() == 5,
        report.summarized()[0] == Order::Write("test result: "@),
        report.summarized()[1] == Order::SetColor(
            (Style {
                fg: Some(
                    if report.failed_tests == 0 {
                        Hue::Green
                    } else {
                        Hue::Red
                    },
                ),
                bold: false,
            }),
        ),
        report.summarized()[2] == Order::Write(
            if report.failed_tests == 0 {
                "ok"@
            } else {
                "FAILED"@
            },
        ),
        report.summarized()[3] == Order::Reset,
        report.summarized()[4] == Order::Write(
            ". "@ + decimal(report.successful_tests as int) + " passed; "@ + decimal(
                report.failed_tests as int,
            ) + " failed; "@ + decimal(report.filtered_tests as int) + " filtered\n"@,
        ),
{
}

/// A run that counts as a success is summed up as `ok`, and one with a failed test as `FAILED`.
pub proof fn law_summary(report: TestReport)
    ensures
        report.passed() ==> report.summarized()[2] == Order::Write("ok"@),
        report.failed_tests != 0 ==> !report.passed() && report.summarized()[2] == Order::Write(
            "FAILED"@,
        ),
{
}

} // verus!
