//! A run of a suite that is shown on the console.

use vstd::prelude::*;
use crate::console::{
    indented, lemma_written_add, orders, shown, transcript, write_all, written_all, Command, Console,
    Hue, Order, Style,
};
use crate::launcher::Launcher;
use crate::options::Options;
use crate::printer::{script, Action, Agenda, Event, Reply, Task};
use crate::report::{execute_test_runner, with_report, Execution, TestReport};
use crate::run::{driven, sent};
use crate::starter::{filtered, lent, selected, startable};
use crate::text::decimal;
use crate::tree::{bodies, outline, Test, Tree};

verus! {

/// What to do next in a run that is shown on the console.
pub enum ConsoleAction<T, X> {
    /// Wait for this test; the text of its error is what is shown of it.
    Await(T),
    /// Carry out these commands on the terminal.
    Perform(Vec<Command>),
    /// Carry out these commands on the terminal; the run is over, with this result.
    Finish(Vec<Command>, Result<(), &'static str>),
    /// The run is broken off with this error.
    Fail(X),
}

/// Whether an action on the console is what it comes to when the run asks for `reply` and the
/// console is indented by `indent`.
pub open spec fn shows<T, X>(
    action: ConsoleAction<T, X>,
    reply: Reply<T, String, X, TestReport>,
    indent: Seq<char>,
) -> bool {
    match reply {
        Reply::Await(test) => action == ConsoleAction::<T, X>::Await(test),
        Reply::Send(report) => action matches ConsoleAction::Perform(commands) && orders(commands@)
            == written_all(shown(indent, report)),
        Reply::Done(report) => {
            &&& action matches ConsoleAction::Finish(commands, verdict)
            &&& orders(commands@) == report.summarized()
            &&& report.accounts_for(verdict)
        },
        Reply::Fail(error) => action == ConsoleAction::<T, X>::Fail(error),
    }
}

/// The indentation of the console after what the run asked for.
pub open spec fn indent_after<T, X>(
    reply: Reply<T, String, X, TestReport>,
    indent: Seq<char>,
) -> Seq<char> {
    match reply {
        Reply::Send(report) => indented(indent, report),
        _ => indent,
    }
}

/// A run of a suite that is shown on the console.
pub struct Session<T> {
    /// The run.
    pub execution: Execution<T>,
    /// What it is shown on.
    pub console: Console,
}

impl<T> Session<T> {
    /// Takes note of what happened and says what to do next.
    pub fn step<X>(&mut self, event: Event<String, X>) -> (action: ConsoleAction<T, X>)
        requires
            old(self).execution.printer@.valid(),
            old(self).execution.printer@.expects(event),
        ensures
            final(self).execution.printer@ == old(self).execution.printer@.after(event),
            final(self).execution.printer@.valid(),
            final(self).execution.filtered_tests == old(self).execution.filtered_tests,
            shows(
                action,
                with_report(
                    old(self).execution.printer@.reply(event),
                    old(self).execution.filtered_tests,
                ),
                old(self).console.indent@,
            ),
            final(self).console.indent@ == indent_after(
                with_report(
                    old(self).execution.printer@.reply(event),
                    old(self).execution.filtered_tests,
                ),
                old(self).console.indent@,
            ),
            final(self).execution.printer@.failed() == old(self).execution.printer@.failed()
                + if event matches Event::Finished(outcome) && outcome is Err {
                1int
            } else {
                0
            },
            final(self).execution.printer@.successful() == old(self).execution.printer@.successful()
                + if event matches Event::Finished(outcome) && outcome is Ok {
                1int
            } else {
                0
            },
            match event {
                Event::Finished(outcome) => {
                    &&& action matches ConsoleAction::Perform(commands)
                    &&& commands@.len() == 6
                    &&& commands@[0]@ == Order::Reset
                    &&& commands@[1]@ == Order::Write(
                        old(self).console.indent@ + old(self).execution.printer@.running->0 + " ... "@,
                    )
                    &&& outcome is Ok ==> {
                        &&& commands@[2]@ == Order::SetColor(
                            (Style { fg: Some(Hue::Green), bold: false }),
                        )
                        &&& commands@[3]@ == Order::Write("ok"@)
                        &&& commands@[5]@ == Order::Write(seq!['\n'])
                    }
                    &&& outcome matches Err(error) ==> {
                        &&& commands@[2]@ == Order::SetColor(
                            (Style { fg: Some(Hue::Red), bold: false }),
                        )
                        &&& commands@[3]@ == Order::Write("FAILED"@)
                        &&& commands@[5]@ == Order::Write(seq!['\n'] + error@)
                    }
                    &&& commands@[4]@ == Order::Reset
                    &&& final(self).console.indent@ == old(self).console.indent@
                },
                Event::Rejected(error) => action matches ConsoleAction::Fail(cause) && cause
                    == error,
                Event::Continue => match action {
                    ConsoleAction::Await(test) => {
                        &&& final(self).execution.printer@.running matches Some(name)
                        &&& old(self).execution.printer@.tasks == seq![Task::Run(name, test)]
                            + final(self).execution.printer@.tasks
                        &&& final(self).console.indent@ == old(self).console.indent@
                    },
                    ConsoleAction::Perform(commands) => {
                        &&& old(self).execution.printer@.tasks.len() > 0
                        &&& final(self).execution.printer@.tasks
                            == old(self).execution.printer@.tasks.drop_first()
                        &&& commands@.len() == 2
                        &&& match old(self).execution.printer@.tasks[0] {
                            Task::Open(name) => {
                                &&& commands@[0]@ == Order::SetColor(
                                    (Style { fg: None, bold: true }),
                                )
                                &&& commands@[1]@ == Order::Write(
                                    old(self).console.indent@ + name + seq!['\n'],
                                )
                                &&& final(self).console.indent@ == old(self).console.indent@
                                    + seq!['\t']
                            },
                            Task::Close => {
                                &&& commands@[0]@ == Order::Reset
                                &&& commands@[1]@ == Order::Write(seq!['\n'])
                                &&& old(self).console.indent@.len() > 0
                                    ==> final(self).console.indent@.push(
                                    old(self).console.indent@.last(),
                                ) == old(self).console.indent@
                            },
                            Task::Run(..) => false,
                        }
                    },
                    ConsoleAction::Finish(commands, verdict) => {
                        &&& old(self).execution.printer@.tasks.len() == 0
                        &&& verdict is Ok <==> old(self).execution.printer@.failed() == 0 && !(
                        old(self).execution.printer@.successful() == 0
                            && old(self).execution.filtered_tests != 0)
                        &&& verdict matches Err(message) ==> message@
                            == "One or more tests failed"@
                        &&& commands@.len() == 5
                        &&& commands@[2]@ == Order::Write(
                            if old(self).execution.printer@.failed() == 0 {
                                "ok"@
                            } else {
                                "FAILED"@
                            },
                        )
                        &&& commands@[4]@ == Order::Write(
                            ". "@ + decimal(old(self).execution.printer@.successful())
                                + " passed; "@ + decimal(old(self).execution.printer@.failed())
                                + " failed; "@ + decimal(
                                old(self).execution.filtered_tests as int,
                            ) + " filtered\n"@,
                        )
                    },
                    ConsoleAction::Fail(_) => false,
                },
            },
    {
        match self.execution.step(event) {
            Action::Await(test) => ConsoleAction::Await(test),
            Action::Send(progress) => {
                let messages = self.console.render(progress);
                let ghost said = messages@;
                let commands = write_all(messages);
                proof {
                    assert(said[0] == messages@[0]);
                    if said.len() == 3 {
                        assert(said[1] == messages@[1]);
                        assert(said[2] == messages@[2]);
                    }
                }
                ConsoleAction::Perform(commands)
            },
            Action::Done(report) => ConsoleAction::Finish(report.summary(), report.verdict()),
            Action::Fail(error) => ConsoleAction::Fail(error),
        }
    }
}

/// Starts the tests of a suite that the options select with the launcher, from left to right, and
/// begins their run on a console that is not indented.
pub fn executor_console_runner<T, U, E, F>(
    test: Test<T>,
    options: &Options,
    executor: Option<E>,
    launcher: &mut Launcher<T, F>,
) -> (session: Session<U>) where F: Fn(Option<&E>, T) -> U
    requires
        selected(test.tree(), seq![], options.filter@) matches Some(kept) ==> startable(
            bodies(kept),
            lent(&executor),
            old(launcher).start(),
        ),
        filtered(test.tree(), seq![], options.filter@) <= i32::MAX,
    ensures
        session.console.indent@ == Seq::<char>::empty(),
        session.execution.filtered_tests == filtered(test.tree(), seq![], options.filter@),
        match selected(test.tree(), seq![], options.filter@) {
            Some(kept) => exists|running: Tree<U>|
                {
                    &&& session.execution.printer@ == Agenda::begin(#[trigger] script(running))
                    &&& outline(running) == outline(kept)
                    &&& bodies(running).len() == bodies(kept).len()
                    &&& forall|i: int|
                        0 <= i < bodies(kept).len() ==> call_ensures(
                            old(launcher).start(),
                            (lent(&executor), #[trigger] bodies(kept)[i]),
                            bodies(running)[i],
                        )
                },
            None => session.execution.printer@ == Agenda::<U>::begin(seq![]),
        },
        session.execution.printer@.valid(),
        final(launcher).start() == old(launcher).start(),
        final(launcher).started() == old(launcher).started() + match selected(
            test.tree(),
            seq![],
            options.filter@,
        ) {
            Some(kept) => bodies(kept),
            None => seq![],
        },
{
    Session {
        execution: execute_test_runner(test, options, executor, launcher),
        console: Console::new(),
    }
}

/// What a session that goes on from here writes before its summary, where everything can be written
/// and the tests that have not ended end with `outcomes`.
pub open spec fn output<T>(
    agenda: Agenda<T>,
    indent: Seq<char>,
    outcomes: Seq<Result<(), String>>,
) -> Seq<Order>
    decreases agenda.work(),
{
    let event: Event<String, ()> = if agenda.running is Some {
        Event::Finished(outcomes[0])
    } else {
        Event::Continue
    };
    let later = if agenda.running is Some {
        outcomes.drop_first()
    } else {
        outcomes
    };
    if agenda.running is None && agenda.tasks.len() == 0 {
        seq![]
    } else {
        match agenda.reply(event) {
            Reply::Send(report) => written_all(shown(indent, report)) + output(
                agenda.after(event),
                indented(indent, report),
                later,
            ),
            _ => output(agenda.after(event), indent, later),
        }
    }
}

/// What a session writes before its summary is what the console shows of the reports of its run,
/// one after the other.
pub proof fn law_output<T>(
    agenda: Agenda<T>,
    indent: Seq<char>,
    outcomes: Seq<Result<(), String>>,
)
    ensures
        output(agenda, indent, outcomes) == written_all(
            transcript(indent, driven(agenda, outcomes).0),
        ),
    decreases agenda.work(),
{
    let event: Event<String, ()> = if agenda.running is Some {
        Event::Finished(outcomes[0])
    } else {
        Event::Continue
    };
    let later = if agenda.running is Some {
        outcomes.drop_first()
    } else {
        outcomes
    };
    if agenda.running is None && agenda.tasks.len() == 0 {
    } else {
        let rest = driven(agenda.after(event), later).0;
        match agenda.reply(event) {
            Reply::Send(report) => {
                law_output(agenda.after(event), indented(indent, report), later);
                let all = seq![report] + rest;
                assert(all.drop_first() =~= rest);
                lemma_written_add(
                    shown(indent, report),
                    transcript(indented(indent, report), rest),
                );
            },
            _ => {
                law_output(agenda.after(event), indent, later);
            },
        }
    }
}

/// What comes of a run on the console: a test is waited for and an error handed on as they are, a
/// report is written as it is shown, and at the end the summary is written and the verdict is a
/// success exactly where no test failed and where not all that there was is left out.
pub proof fn law_shows<T, X>(
    action: ConsoleAction<T, X>,
    reply: Reply<T, String, X, TestReport>,
    indent: Seq<char>,
)
    requires
        shows(action, reply, indent),
    ensures
        match (reply, action) {
            (Reply::Await(test), ConsoleAction::Await(asked)) => asked == test,
            (Reply::Send(report), ConsoleAction::Perform(commands)) => orders(commands@)
                == written_all(shown(indent, report)),
            (Reply::Done(report), ConsoleAction::Finish(commands, verdict)) => {
                &&& orders(commands@) == report.summarized()
                &&& verdict is Ok <==> report.failed_tests == 0 && !(report.successful_tests == 0
                    && report.filtered_tests != 0)
                &&& verdict matches Err(message) ==> message@ == "One or more tests failed"@
            },
            (Reply::Fail(error), ConsoleAction::Fail(cause)) => cause == error,
            _ => false,
        },
        indent_after(reply, indent) == match reply {
            Reply::Send(report) => indented(indent, report),
            _ => indent,
        },
{
}

/// What a session writes while these events happen, where it comes from this state and indentation.
pub open spec fn performed<T, X>(
    agenda: Agenda<T>,
    indent: Seq<char>,
    events: Seq<Event<String, X>>,
) -> Seq<Order>
    decreases events.len(),
{
    if events.len() == 0 {
        seq![]
    } else {
        match agenda.reply(events[0]) {
            Reply::Send(report) => written_all(shown(indent, report)) + performed(
                agenda.after(events[0]),
                indented(indent, report),
                events.drop_first(),
            ),
            _ => performed(agenda.after(events[0]), indent, events.drop_first()),
        }
    }
}

/// Whatever happens, a session has written what the console shows of the reports that were sent, one
/// after the other.
pub proof fn law_performed<T, X>(
    agenda: Agenda<T>,
    indent: Seq<char>,
    events: Seq<Event<String, X>>,
)
    ensures
        performed(agenda, indent, events) == written_all(transcript(indent, sent(agenda, events))),
    decreases events.len(),
{
    if events.len() > 0 {
        let rest = events.drop_first();
        let later = sent(agenda.after(events[0]), rest);
        match agenda.reply(events[0]) {
            Reply::Send(report) => {
                law_performed(agenda.after(events[0]), indented(indent, report), rest);
                let all = seq![report] + later;
                assert(all.drop_first() =~= later);
                lemma_written_add(
                    shown(indent, report),
                    transcript(indented(indent, report), later),
                );
            },
            _ => {
                law_performed(agenda.after(events[0]), indent, rest);
            },
        }
    }
}

} // verus!
