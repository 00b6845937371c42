//! The run of a started suite, as a machine that is told what happened and says what to do next.

use std::collections::VecDeque;
use vstd::prelude::*;
use crate::progress::{Progress, TestProgress};
use crate::run::{awaited, failed_in, law_begin, law_step_counts, successful_in};
use crate::stats::Stats;
use crate::tree::{bodies, leaves, RunTest, Tree};

verus! {

/// A thing that is still to be done in a run.
pub enum Step<T> {
    /// Report that a group starts.
    Open(String),
    /// Wait for a test and report its outcome.
    Run(String, T),
    /// Report that the innermost open group ends.
    Close,
}

/// What a [`Step`] stands for.
pub enum Task<T> {
    Open(Seq<char>),
    Run(Seq<char>, T),
    Close,
}

impl<T> View for Step<T> {
    type V = Task<T>;

    open spec fn view(&self) -> Task<T> {
        match *self {
            Step::Open(name) => Task::Open(name@),
            Step::Run(name, test) => Task::Run(name@, test),
            Step::Close => Task::Close,
        }
    }
}

/// What a row of steps stands for.
pub open spec fn tasks<T>(steps: Seq<Step<T>>) -> Seq<Task<T>> {
    steps.map_values(|step: Step<T>| step@)
}

/// What the run of a tree has to do, in order.
pub open spec fn script<T>(tree: Tree<T>) -> Seq<Task<T>>
    decreases tree,
{
    match tree {
        Tree::Leaf { name, test } => seq![Task::Run(name, test)],
        Tree::Branch { name, tests } => seq![Task::Open(name)] + script_all(tests) + seq![Task::Close],
    }
}

/// What the run of a row of trees has to do, in order.
pub open spec fn script_all<T>(trees: Seq<Tree<T>>) -> Seq<Task<T>>
    decreases trees,
{
    if trees.len() == 0 {
        seq![]
    } else {
        script_all(trees.drop_last()) + script(trees.last())
    }
}

/// Whether the tasks close every group that they open and `depth` more, and no other.
pub open spec fn closes<T>(tasks: Seq<Task<T>>, depth: nat) -> bool
    decreases tasks.len(),
{
    if tasks.len() == 0 {
        depth == 0
    } else {
        match tasks[0] {
            Task::Open(_) => closes(tasks.drop_first(), depth + 1),
            Task::Run(..) => closes(tasks.drop_first(), depth),
            Task::Close => depth > 0 && closes(tasks.drop_first(), (depth - 1) as nat),
        }
    }
}

/// What has happened since the machine last said what to do.
pub enum Event<E, X> {
    /// The run begins, or the last report has been delivered.
    Continue,
    /// The test that was waited for has ended.
    Finished(Result<(), E>),
    /// The last report could not be delivered.
    Rejected(X),
}

/// What to do next.
pub enum Action<T, E, X, R> {
    /// Wait for this test.
    Await(T),
    /// Deliver this report.
    Send(TestProgress<E>),
    /// The run is over, with this result.
    Done(R),
    /// The run is broken off with this error.
    Fail(X),
}

/// What an [`Action`] asks for.
pub enum Reply<T, E, X, R> {
    Await(T),
    Send(Progress<E>),
    Done(R),
    Fail(X),
}

impl<T, E, X, R> View for Action<T, E, X, R> {
    type V = Reply<T, E, X, R>;

    open spec fn view(&self) -> Reply<T, E, X, R> {
        match *self {
            Action::Await(test) => Reply::Await(test),
            Action::Send(report) => Reply::Send(report@),
            Action::Done(result) => Reply::Done(result),
            Action::Fail(error) => Reply::Fail(error),
        }
    }
}

/// The state of a run.
pub struct Agenda<T> {
    /// What is still to be done.
    pub tasks: Seq<Task<T>>,
    /// The counts of the groups that are open, the innermost last, below the count of the run.
    pub open: Seq<Stats>,
    /// The count that goes to the innermost open group when the last report has been delivered.
    pub carry: Stats,
    /// The name of the test that is waited for.
    pub running: Option<Seq<char>>,
    /// Whether the run is over.
    pub halted: bool,
}

impl<T> Agenda<T> {
    /// The state before the first event of a run that has these tasks.
    pub open spec fn begin(tasks: Seq<Task<T>>) -> Agenda<T> {
        Agenda {
            tasks,
            open: seq![Stats::none()],
            carry: Stats::none(),
            running: None,
            halted: false,
        }
    }

    /// Whether the run is in a state that it can come to.
    pub open spec fn valid(self) -> bool {
        &&& self.open.len() > 0
        &&& closes(self.tasks, (self.open.len() - 1) as nat)
        &&& forall|i: int| 0 <= i < self.open.len() ==> #[trigger] self.open[i].natural()
        &&& self.carry.natural()
        &&& self.running is Some ==> self.carry == Stats::none()
    }

    /// Whether the run can go on from here with this event.
    pub open spec fn expects<E, X>(self, event: Event<E, X>) -> bool {
        &&& !self.halted
        &&& event is Finished <==> self.running is Some
        &&& event is Continue ==> self.open.last().can_add(self.carry)
    }

    /// The state in which the last report has been accounted for.
    pub open spec fn settled(self) -> Agenda<T> {
        Agenda {
            open: self.open.drop_last().push(self.open.last().sum(self.carry)),
            carry: Stats::none(),
            ..self
        }
    }

    /// The state after an event.
    pub open spec fn after<E, X>(self, event: Event<E, X>) -> Agenda<T> {
        match event {
            Event::Finished(outcome) => Agenda {
                running: None,
                carry: Stats::one(outcome),
                ..self
            },
            Event::Rejected(_) => Agenda { halted: true, ..self },
            Event::Continue => {
                let settled = self.settled();
                if self.tasks.len() == 0 {
                    Agenda { halted: true, ..settled }
                } else {
                    let rest = self.tasks.drop_first();
                    match self.tasks[0] {
                        Task::Open(_) => Agenda {
                            tasks: rest,
                            open: settled.open.push(Stats::none()),
                            ..settled
                        },
                        Task::Run(name, _) => Agenda { tasks: rest, running: Some(name), ..settled },
                        Task::Close => Agenda {
                            tasks: rest,
                            open: settled.open.drop_last(),
                            carry: settled.open.last(),
                            ..settled
                        },
                    }
                }
            },
        }
    }

    /// What is to be done after an event.
    pub open spec fn reply<E, X>(self, event: Event<E, X>) -> Reply<T, E, X, Stats> {
        match event {
            Event::Finished(outcome) => Reply::Send(Progress::Test(self.running->0, outcome)),
            Event::Rejected(error) => Reply::Fail(error),
            Event::Continue => {
                if self.tasks.len() == 0 {
                    Reply::Done(self.settled().open[0])
                } else {
                    match self.tasks[0] {
                        Task::Open(name) => Reply::Send(Progress::GroupStart(name)),
                        Task::Run(_, test) => Reply::Await(test),
                        Task::Close => Reply::Send(Progress::GroupEnd),
                    }
                }
            },
        }
    }
}

/// The run of a started suite.
pub struct Printer<T> {
    steps: VecDeque<Step<T>>,
    open: Vec<Stats>,
    carry: Stats,
    running: Option<String>,
    halted: bool,
}

impl<T> View for Printer<T> {
    type V = Agenda<T>;

    closed spec fn view(&self) -> Agenda<T> {
        Agenda {
            tasks: tasks(self.steps@),
            open: self.open@,
            carry: self.carry,
            running: match self.running {
                Some(name) => Some(name@),
                None => None,
            },
            halted: self.halted,
        }
    }
}

/// Appends what the run of `suite` has to do.
fn schedule<T>(suite: RunTest<T>, steps: &mut VecDeque<Step<T>>)
    ensures
        tasks(final(steps)@) == tasks(old(steps)@) + script(suite.tree()),
    decreases suite,
{
    let ghost whole = suite;
    let ghost before = tasks(steps@);
    match suite {
        RunTest::Test { name, test } => {
            steps.push_back(Step::Run(name, test));
            assert(tasks(steps@) =~= before + script(whole.tree()));
        },
        RunTest::Group { name, tests } => {
            let ghost opened = before.push(Task::Open(name@));
            let ghost members = tests@;
            steps.push_back(Step::Open(name));
            assert(tasks(steps@) =~= opened + script_all(RunTest::trees(members.take(0))));
            for test in it: tests
                invariant
                    it.seq() == members,
                    whole == suite,
                    whole matches RunTest::Group { tests: inner, .. } && inner@ == members,
                    tasks(steps@) == opened + script_all(RunTest::trees(members.take(it.index()))),
            {
                let ghost i = it.index();
                proof {
                    RunTest::lemma_trees_take(members, i);
                }
                schedule(test, steps);
                proof {
                    assert(tasks(steps@) =~= opened + script_all(
                        RunTest::trees(members.take(i + 1)),
                    ));
                }
            }
            let ghost filled = tasks(steps@);
            steps.push_back(Step::Close);
            proof {
                assert(members.take(members.len() as int) =~= members);
                assert(tasks(steps@) =~= filled.push(Task::Close));
                assert(tasks(steps@) =~= before + script(whole.tree()));
            }
        },
    }
}

impl<T> Printer<T> {
    /// The run of a suite, before its first event.
    pub fn new(test: RunTest<T>) -> (printer: Printer<T>)
        ensures
            printer@ == Agenda::<T>::begin(script(test.tree())),
            printer@.valid(),
            !printer@.halted,
            printer@.running is None,
            printer@.failed() == 0,
            printer@.successful() == 0,
            printer@.tasks == script(test.tree()),
            awaited(printer@.tasks) == bodies(test.tree()),
    {
        let mut steps: VecDeque<Step<T>> = VecDeque::new();
        schedule(test, &mut steps);
        let mut open: Vec<Stats> = Vec::new();
        open.push(Stats::default());
        proof {
            assert(tasks(steps@) =~= script(test.tree()));
            law_begin_valid(test.tree());
            law_begin(
                test.tree(),
                Seq::new(leaves(test.tree()), |i: int| Ok::<(), ()>(())),
            );
        }
        Printer { steps, open, carry: Stats::default(), running: None, halted: false }
    }

    /// The run of nothing.
    pub fn idle() -> (printer: Printer<T>)
        ensures
            printer@ == Agenda::<T>::begin(seq![]),
            printer@.valid(),
            !printer@.halted,
            printer@.running is None,
            printer@.failed() == 0,
            printer@.successful() == 0,
            printer@.tasks.len() == 0,
    {
        let mut open: Vec<Stats> = Vec::new();
        open.push(Stats::default());
        let printer = Printer {
            steps: VecDeque::new(),
            open,
            carry: Stats::default(),
            running: None,
            halted: false,
        };
        proof {
            assert(printer@.tasks =~= seq![]);
            assert(printer@.open =~= seq![Stats::none()]);
            reveal_with_fuel(failed_in, 2);
            reveal_with_fuel(successful_in, 2);
        }
        printer
    }

    /// Takes note of what happened and says what to do next.
    pub fn step<E, X>(&mut self, event: Event<E, X>) -> (action: Action<T, E, X, Stats>)
        requires
            old(self)@.valid(),
            old(self)@.expects(event),
        ensures
            final(self)@ == old(self)@.after(event),
            action@ == old(self)@.reply(event),
            final(self)@.valid(),
            match event {
                Event::Finished(outcome) => {
                    &&& action matches Action::Send(TestProgress::Test(name, result))
                    &&& old(self)@.running == Some(name@)
                    &&& result == outcome
                    &&& final(self)@.tasks == old(self)@.tasks
                },
                Event::Rejected(error) => action matches Action::Fail(cause) && cause == error,
                Event::Continue => match action {
                    Action::Await(test) => {
                        &&& final(self)@.running matches Some(name)
                        &&& old(self)@.tasks == seq![Task::Run(name, test)] + final(self)@.tasks
                    },
                    Action::Send(TestProgress::GroupStart(name)) => old(self)@.tasks == seq![
                        Task::<T>::Open(name@),
                    ] + final(self)@.tasks,
                    Action::Send(TestProgress::GroupEnd) => old(self)@.tasks == seq![
                        Task::<T>::Close,
                    ] + final(self)@.tasks,
                    Action::Done(stats) => {
                        &&& old(self)@.tasks.len() == 0
                        &&& stats.failed_tests == old(self)@.failed()
                        &&& stats.successful_tests == old(self)@.successful()
                    },
                    _ => false,
                },
            },
            final(self)@.failed() == old(self)@.failed() + if event matches Event::Finished(outcome) && outcome is Err {
                1int
            } else {
                0
            },
            final(self)@.successful() == old(self)@.successful() + if event matches Event::Finished(outcome)
                && outcome is Ok {
                1int
            } else {
                0
            },
    {
        let ghost before = self@;
        proof {
            law_step_valid(before, event);
            law_step_counts(before, event);
            if before.tasks.len() > 0 {
                assert(before.tasks =~= seq![before.tasks[0]] + before.tasks.drop_first());
            }
        }
        match event {
            Event::Finished(outcome) => {
                self.carry = Stats::of(&outcome);
                let name = self.running.take().unwrap();
                Action::Send(TestProgress::Test(name, outcome))
            },
            Event::Rejected(error) => {
                self.halted = true;
                Action::Fail(error)
            },
            Event::Continue => {
                let mut innermost = self.open.pop().unwrap();
                innermost.add_assign(self.carry);
                self.open.push(innermost);
                self.carry = Stats::default();
                assert(self@ == before.settled());
                match self.steps.pop_front() {
                    Some(step) => {
                        assert(step@ == before.tasks[0]);
                        assert(tasks(self.steps@) =~= before.tasks.drop_first());
                        match step {
                            Step::Open(name) => {
                                self.open.push(Stats::default());
                                Action::Send(TestProgress::GroupStart(name.into()))
                            },
                            Step::Run(name, test) => {
                                self.running = Some(name);
                                Action::Await(test)
                            },
                            Step::Close => {
                                self.carry = self.open.pop().unwrap();
                                Action::Send(TestProgress::GroupEnd)
                            },
                        }
                    },
                    None => {
                        self.halted = true;
                        Action::Done(self.open[0])
                    },
                }
            },
        }
    }
}

/// A step stands for what it holds, and an action asks for what it holds.
pub proof fn law_step_says<T, E, X, R>(
    step: Step<T>,
    steps: Seq<Step<T>>,
    action: Action<T, E, X, R>,
)
    ensures
        match (step, step@) {
            (Step::Open(name), Task::Open(label)) => label == name@,
            (Step::Run(name, test), Task::Run(label, body)) => label == name@ && body == test,
            (Step::Close, Task::Close) => true,
            _ => false,
        },
        tasks(steps).len() == steps.len(),
        forall|i: int| 0 <= i < steps.len() ==> #[trigger] tasks(steps)[i] == steps[i]@,
        match (action, action@) {
            (Action::Await(test), Reply::Await(asked)) => asked == test,
            (Action::Send(report), Reply::Send(asked)) => asked == report@,
            (Action::Done(result), Reply::Done(asked)) => asked == result,
            (Action::Fail(error), Reply::Fail(asked)) => asked == error,
            _ => false,
        },
{
}

/// The run of a tree begins in a state that it can come to.
pub proof fn law_begin_valid<T>(tree: Tree<T>)
    ensures
        Agenda::begin(script(tree)).valid(),
{
    lemma_closes(tree, seq![], 0);
    assert(script(tree) + seq![] =~= script(tree));
}

/// Every event that a run expects leaves it in a state that it can come to.
pub proof fn law_step_valid<T, E, X>(agenda: Agenda<T>, event: Event<E, X>)
    requires
        agenda.valid(),
        agenda.expects(event),
    ensures
        agenda.after(event).valid(),
{
    if event is Continue {
        let settled = agenda.settled();
        assert(agenda.open.last().natural());
        assert(settled.open.last().natural());
        assert forall|i: int| 0 <= i < settled.open.len() implies #[trigger] settled.open[i].natural() by {
            if i < agenda.open.len() - 1 {
                assert(settled.open[i] == agenda.open[i]);
            }
        }
        let after = agenda.after(event);
        assert forall|i: int| 0 <= i < after.open.len() implies #[trigger] after.open[i].natural() by {
            if i < settled.open.len() {
                assert(after.open[i] == settled.open[i]);
            }
        }
    }
}

/// The run of a tree closes the groups that it opens.
proof fn lemma_closes<T>(tree: Tree<T>, rest: Seq<Task<T>>, depth: nat)
    ensures
        closes(script(tree) + rest, depth) == closes(rest, depth),
    decreases tree,
{
    let whole = script(tree) + rest;
    match tree {
        Tree::Leaf { .. } => {
            assert(whole.drop_first() =~= rest);
        },
        Tree::Branch { name, tests } => {
            let tail = seq![Task::Close] + rest;
            assert(whole.drop_first() =~= script_all(tests) + tail);
            lemma_closes_all(tests, tail, depth + 1);
            assert(tail.drop_first() =~= rest);
        },
    }
}

/// The run of a row of trees closes the groups that it opens.
proof fn lemma_closes_all<T>(trees: Seq<Tree<T>>, rest: Seq<Task<T>>, depth: nat)
    ensures
        closes(script_all(trees) + rest, depth) == closes(rest, depth),
    decreases trees,
{
    if trees.len() == 0 {
        assert(script_all(trees) + rest =~= rest);
    } else {
        let tail = script(trees.last()) + rest;
        assert(script_all(trees) + rest =~= script_all(trees.drop_last()) + tail);
        lemma_closes_all(trees.drop_last(), tail, depth);
        lemma_closes(trees.last(), rest, depth);
    }
}

} // verus!
