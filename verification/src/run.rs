//! Whole runs: what the machine reports and counts from its first event to its last.

use vstd::prelude::*;
use crate::printer::{
    law_begin_valid, law_step_valid, script, script_all, Action, Agenda, Event, Printer, Reply, Task,
};
use crate::progress::{progress, progress_all, said, Progress, TestProgress};
use crate::stats::Stats;
use crate::tree::{bodies, bodies_all, leaves, leaves_all, lemma_bodies, RunTest, Tree};

verus! {

/// The number of outcomes that are failures.
pub open spec fn failures<E>(outcomes: Seq<Result<(), E>>) -> nat
    decreases outcomes.len(),
{
    if outcomes.len() == 0 {
        0
    } else {
        failures(outcomes.drop_first()) + if outcomes[0] is Err {
            1nat
        } else {
            0
        }
    }
}

/// The number of outcomes that are no failures.
pub open spec fn successes<E>(outcomes: Seq<Result<(), E>>) -> nat
    decreases outcomes.len(),
{
    if outcomes.len() == 0 {
        0
    } else {
        successes(outcomes.drop_first()) + if outcomes[0] is Ok {
            1nat
        } else {
            0
        }
    }
}

/// The outcomes that are failures are those that are errors, and the others are no failures.
pub proof fn law_failures<E>(outcomes: Seq<Result<(), E>>)
    ensures
        failures(outcomes) == outcomes.filter(|outcome: Result<(), E>| outcome is Err).len(),
        successes(outcomes) == outcomes.filter(|outcome: Result<(), E>| outcome is Ok).len(),
    decreases outcomes.len(),
{
    reveal(Seq::filter);
    if outcomes.len() > 0 {
        let fewer = outcomes.drop_last();
        law_failures(fewer);
        lemma_failures_push(fewer, outcomes.last());
        assert(fewer.push(outcomes.last()) =~= outcomes);
    }
}

/// One more outcome is one more failure or one more success.
proof fn lemma_failures_push<E>(outcomes: Seq<Result<(), E>>, last: Result<(), E>)
    ensures
        failures(outcomes.push(last)) == failures(outcomes) + if last is Err {
            1nat
        } else {
            0
        },
        successes(outcomes.push(last)) == successes(outcomes) + if last is Ok {
            1nat
        } else {
            0
        },
    decreases outcomes.len(),
{
    reveal_with_fuel(failures, 2);
    reveal_with_fuel(successes, 2);
    if outcomes.len() > 0 {
        lemma_failures_push(outcomes.drop_first(), last);
        assert(outcomes.push(last).drop_first() =~= outcomes.drop_first().push(last));
    } else {
        assert(outcomes.push(last).drop_first() =~= seq![]);
    }
}

/// The tests that the tasks still wait for, in order.
pub open spec fn awaited<T>(tasks: Seq<Task<T>>) -> Seq<T>
    decreases tasks.len(),
{
    if tasks.len() == 0 {
        seq![]
    } else {
        match tasks[0] {
            Task::Run(_, test) => seq![test] + awaited(tasks.drop_first()),
            _ => awaited(tasks.drop_first()),
        }
    }
}

/// The reports of the tasks, where the tests end with `outcomes`.
pub open spec fn reports<T, E>(tasks: Seq<Task<T>>, outcomes: Seq<Result<(), E>>) -> Seq<Progress<E>>
    decreases tasks.len(),
{
    if tasks.len() == 0 {
        seq![]
    } else {
        let rest = tasks.drop_first();
        match tasks[0] {
            Task::Open(name) => seq![Progress::GroupStart(name)] + reports(rest, outcomes),
            Task::Run(name, _) => seq![Progress::Test(name, outcomes[0])] + reports(
                rest,
                outcomes.drop_first(),
            ),
            Task::Close => seq![Progress::GroupEnd] + reports(rest, outcomes),
        }
    }
}

/// The failed tests in a row of counts.
pub open spec fn failed_in(counts: Seq<Stats>) -> int
    decreases counts.len(),
{
    if counts.len() == 0 {
        0
    } else {
        failed_in(counts.drop_last()) + counts.last().failed_tests
    }
}

/// The successful tests in a row of counts.
pub open spec fn successful_in(counts: Seq<Stats>) -> int
    decreases counts.len(),
{
    if counts.len() == 0 {
        0
    } else {
        successful_in(counts.drop_last()) + counts.last().successful_tests
    }
}

impl<T> Agenda<T> {
    /// The reports that are still to come, where the tests that have not ended end with `outcomes`.
    pub open spec fn pending<E>(self, outcomes: Seq<Result<(), E>>) -> Seq<Progress<E>> {
        match self.running {
            Some(name) => seq![Progress::Test(name, outcomes[0])] + reports(
                self.tasks,
                outcomes.drop_first(),
            ),
            None => reports(self.tasks, outcomes),
        }
    }

    /// The number of tests that have not ended.
    pub open spec fn ahead(self) -> nat {
        awaited(self.tasks).len() + if self.running is Some {
            1nat
        } else {
            0
        }
    }

    /// The tests that have failed so far.
    pub open spec fn failed(self) -> int {
        failed_in(self.open) + self.carry.failed_tests
    }

    /// The tests that have succeeded so far.
    pub open spec fn successful(self) -> int {
        successful_in(self.open) + self.carry.successful_tests
    }

    /// A bound on the number of events that are still to come before the last one.
    pub open spec fn work(self) -> nat {
        2 * self.tasks.len() + if self.running is Some {
            1nat
        } else {
            0
        }
    }
}

/// A run that has just begun is to report what its tree says, with the outcomes in order, and waits
/// for every test of the tree.
pub proof fn law_begin<T, E>(tree: Tree<T>, outcomes: Seq<Result<(), E>>)
    requires
        outcomes.len() == leaves(tree),
    ensures
        Agenda::begin(script(tree)).pending(outcomes) == progress(tree, outcomes),
        Agenda::begin(script(tree)).ahead() == leaves(tree),
        awaited(script(tree)) == bodies(tree),
        Agenda::begin(script(tree)).failed() == 0,
        Agenda::begin(script(tree)).successful() == 0,
{
    lemma_script(tree, seq![], outcomes);
    assert(script(tree) + seq![] =~= script(tree));
    assert(outcomes.take(outcomes.len() as int) =~= outcomes);
    assert(bodies(tree) + seq![] =~= bodies(tree));
    lemma_bodies(tree);
    reveal_with_fuel(failed_in, 2);
    reveal_with_fuel(successful_in, 2);
}

/// The tasks of a tree report what the tree says and wait for its tests, and then come the others.
proof fn lemma_script<T, E>(tree: Tree<T>, rest: Seq<Task<T>>, outcomes: Seq<Result<(), E>>)
    requires
        outcomes.len() >= leaves(tree),
    ensures
        reports(script(tree) + rest, outcomes) == progress(
            tree,
            outcomes.take(leaves(tree) as int),
        ) + reports(rest, outcomes.skip(leaves(tree) as int)),
        awaited(script(tree) + rest) == bodies(tree) + awaited(rest),
    decreases tree,
{
    let whole = script(tree) + rest;
    match tree {
        Tree::Leaf { name, test } => {
            assert(whole.drop_first() =~= rest);
            assert(outcomes.skip(1) =~= outcomes.drop_first());
        },
        Tree::Branch { name, tests } => {
            let n = leaves_all(tests) as int;
            let tail = seq![Task::Close] + rest;
            assert(whole.drop_first() =~= script_all(tests) + tail);
            lemma_script_all(tests, tail, outcomes);
            assert(tail.drop_first() =~= rest);
            assert(reports(whole, outcomes) =~= progress(tree, outcomes.take(n))
                + reports(rest, outcomes.skip(n)));
        },
    }
}

/// The tasks of a row of trees report what the trees say and wait for their tests, and then come
/// the others.
proof fn lemma_script_all<T, E>(
    trees: Seq<Tree<T>>,
    rest: Seq<Task<T>>,
    outcomes: Seq<Result<(), E>>,
)
    requires
        outcomes.len() >= leaves_all(trees),
    ensures
        reports(script_all(trees) + rest, outcomes) == progress_all(
            trees,
            outcomes.take(leaves_all(trees) as int),
        ) + reports(rest, outcomes.skip(leaves_all(trees) as int)),
        awaited(script_all(trees) + rest) == bodies_all(trees) + awaited(rest),
    decreases trees,
{
    let whole = script_all(trees) + rest;
    if trees.len() == 0 {
        assert(whole =~= rest);
        assert(outcomes.skip(0) =~= outcomes);
        assert(reports(whole, outcomes) =~= progress_all(trees, outcomes.take(0))
            + reports(rest, outcomes.skip(0)));
        assert(awaited(whole) =~= bodies_all(trees) + awaited(rest));
    } else {
        let first = leaves_all(trees.drop_last()) as int;
        let last = leaves(trees.last()) as int;
        let tail = script(trees.last()) + rest;
        assert(whole =~= script_all(trees.drop_last()) + tail);
        lemma_script_all(trees.drop_last(), tail, outcomes);
        lemma_script(trees.last(), rest, outcomes.skip(first));
        assert(outcomes.skip(first).skip(last) =~= outcomes.skip(first + last));
        assert(outcomes.take(first + last).take(first) =~= outcomes.take(first));
        assert(outcomes.take(first + last).skip(first) =~= outcomes.skip(first).take(last));
        assert(reports(whole, outcomes) =~= progress_all(
            trees,
            outcomes.take(first + last),
        ) + reports(rest, outcomes.skip(first + last)));
        assert(awaited(whole) =~= bodies_all(trees) + awaited(rest));
    }
}

/// Whatever happens, the reports that a step asks for and those that are to come after it are the
/// ones that were to come before it; a run that is done has none left.
pub proof fn law_step_reports<T, E, X>(
    agenda: Agenda<T>,
    event: Event<E, X>,
    outcomes: Seq<Result<(), E>>,
)
    requires
        agenda.valid(),
        agenda.expects(event),
        event matches Event::Finished(outcome) ==> outcomes.len() > 0 && outcomes[0] == outcome,
    ensures
        match agenda.reply(event) {
            Reply::Send(report) => agenda.pending(outcomes) == seq![report] + agenda.after(
                event,
            ).pending(
                if event is Finished {
                    outcomes.drop_first()
                } else {
                    outcomes
                },
            ),
            Reply::Await(_) => agenda.pending(outcomes) == agenda.after(event).pending(outcomes),
            Reply::Done(_) => agenda.pending(outcomes) == Seq::<Progress<E>>::empty(),
            Reply::Fail(_) => event is Rejected,
        },
{
}

/// A step counts the outcome that it is told of and nothing else, and the result of a run is all
/// that was counted.
pub proof fn law_step_counts<T, E, X>(agenda: Agenda<T>, event: Event<E, X>)
    requires
        agenda.valid(),
        agenda.expects(event),
    ensures
        agenda.after(event).failed() == agenda.failed() + if event matches Event::Finished(
            outcome,
        ) && outcome is Err {
            1int
        } else {
            0
        },
        agenda.after(event).successful() == agenda.successful() + if event matches Event::Finished(
            outcome,
        ) && outcome is Ok {
            1int
        } else {
            0
        },
        agenda.reply(event) matches Reply::Done(stats) ==> stats.failed_tests == agenda.failed()
            && stats.successful_tests == agenda.successful(),
{
    if event is Continue {
        let settled = agenda.settled();
        assert(settled.open.drop_last() =~= agenda.open.drop_last());
        assert(failed_in(settled.open) == failed_in(agenda.open) + agenda.carry.failed_tests);
        assert(successful_in(settled.open) == successful_in(agenda.open)
            + agenda.carry.successful_tests);
        if agenda.tasks.len() == 0 {
            assert(settled.open.len() == 1);
            reveal_with_fuel(failed_in, 2);
            reveal_with_fuel(successful_in, 2);
        } else {
            let grown = settled.open.push(Stats::none());
            assert(grown.drop_last() =~= settled.open);
        }
    }
}

/// The test that a step waits for is the first of those that were still to be waited for, and the
/// others are left; every other step leaves them all.
pub proof fn law_step_awaits<T, E, X>(agenda: Agenda<T>, event: Event<E, X>)
    requires
        agenda.valid(),
        agenda.expects(event),
    ensures
        match agenda.reply(event) {
            Reply::Await(test) => awaited(agenda.tasks) == seq![test] + awaited(
                agenda.after(event).tasks,
            ),
            Reply::Done(_) => awaited(agenda.tasks).len() == 0,
            _ => awaited(agenda.tasks) == awaited(agenda.after(event).tasks),
        },
{
}

/// Every event but the last leaves less to be done.
pub proof fn law_step_work<T, E, X>(agenda: Agenda<T>, event: Event<E, X>)
    requires
        agenda.valid(),
        agenda.expects(event),
    ensures
        agenda.after(event).halted || agenda.after(event).work() < agenda.work(),
        agenda.after(event).halted <==> agenda.reply(event) is Done || agenda.reply(event) is Fail,
{
}

/// A report that cannot be delivered breaks the run off with its error, and nothing can follow.
pub proof fn law_rejected<T, E, X>(agenda: Agenda<T>, error: X)
    requires
        agenda.expects(Event::<E, X>::Rejected(error)),
    ensures
        agenda.reply(Event::<E, X>::Rejected(error)) == Reply::<T, E, X, Stats>::Fail(error),
        forall|event: Event<E, X>|
            !(#[trigger] agenda.after(Event::<E, X>::Rejected(error)).expects(event)),
{
}

/// A count is at most the sum of the counts that it belongs to.
proof fn lemma_room(counts: Seq<Stats>)
    requires
        counts.len() > 0,
        forall|i: int| 0 <= i < counts.len() ==> #[trigger] counts[i].natural(),
    ensures
        0 <= counts.last().failed_tests <= failed_in(counts),
        0 <= counts.last().successful_tests <= successful_in(counts),
    decreases counts.len(),
{
    assert(counts.last().natural());
    let fewer = counts.drop_last();
    reveal_with_fuel(failed_in, 2);
    reveal_with_fuel(successful_in, 2);
    if fewer.len() > 0 {
        assert forall|i: int| 0 <= i < fewer.len() implies #[trigger] fewer[i].natural() by {
            assert(fewer[i] == counts[i]);
        }
        lemma_room(fewer);
    }
}

impl<T> Agenda<T> {
    /// Whether the counts can be held however the tests that have not ended end.
    pub open spec fn fits(self) -> bool {
        &&& self.failed() + self.ahead() <= i32::MAX
        &&& self.successful() + self.ahead() <= i32::MAX
    }
}

/// Where the counts can be held however the tests end, no event overflows them, and they can still
/// be held after it.
pub proof fn law_step_fits<T, E, X>(agenda: Agenda<T>, event: Event<E, X>)
    requires
        agenda.valid(),
        agenda.fits(),
        !agenda.halted,
        event is Finished <==> agenda.running is Some,
    ensures
        agenda.expects(event),
        agenda.after(event).fits(),
{
    lemma_room(agenda.open);
    assert(agenda.carry.natural());
    law_step_counts(agenda, event);
}

/// The reports and the count of a run that goes on from here, where every report is delivered and
/// the tests that have not ended end with `outcomes`.
pub open spec fn driven<T, E>(agenda: Agenda<T>, outcomes: Seq<Result<(), E>>) -> (
    Seq<Progress<E>>,
    Stats,
)
    decreases agenda.work(),
{
    let event: Event<E, ()> = if agenda.running is Some {
        Event::Finished(outcomes[0])
    } else {
        Event::Continue
    };
    let later = if agenda.running is Some {
        outcomes.drop_first()
    } else {
        outcomes
    };
    if agenda.running is None && agenda.tasks.len() == 0 {
        (seq![], agenda.settled().open[0])
    } else {
        let (reports, stats) = driven(agenda.after(event), later);
        match agenda.reply(event) {
            Reply::Send(report) => (seq![report] + reports, stats),
            _ => (reports, stats),
        }
    }
}

/// A whole run in which every report is delivered reports what its tree says, whatever the outcomes
/// are, and its count is that of the outcomes.
pub proof fn law_whole_run<T, E>(tree: Tree<T>, outcomes: Seq<Result<(), E>>)
    requires
        outcomes.len() == leaves(tree),
        failures(outcomes) <= i32::MAX,
        successes(outcomes) <= i32::MAX,
    ensures
        driven(Agenda::begin(script(tree)), outcomes).0 == progress(tree, outcomes),
        driven(Agenda::begin(script(tree)), outcomes).1.failed_tests == failures(outcomes),
        driven(Agenda::begin(script(tree)), outcomes).1.successful_tests == successes(outcomes),
{
    law_begin(tree, outcomes);
    law_begin_valid(tree);
    lemma_driven(Agenda::begin(script(tree)), outcomes);
}

/// What a run still reports and counts, from any state that it can come to.
proof fn lemma_driven<T, E>(agenda: Agenda<T>, outcomes: Seq<Result<(), E>>)
    requires
        agenda.valid(),
        !agenda.halted,
        outcomes.len() == agenda.ahead(),
        agenda.failed() + failures(outcomes) <= i32::MAX,
        agenda.successful() + successes(outcomes) <= i32::MAX,
    ensures
        driven(agenda, outcomes).0 == agenda.pending(outcomes),
        driven(agenda, outcomes).1.failed_tests == agenda.failed() + failures(outcomes),
        driven(agenda, outcomes).1.successful_tests == agenda.successful() + successes(outcomes),
    decreases agenda.work(),
{
    let event: Event<E, ()> = if agenda.running is Some {
        Event::Finished(outcomes[0])
    } else {
        Event::Continue
    };
    let later = if agenda.running is Some {
        outcomes.drop_first()
    } else {
        outcomes
    };
    lemma_room(agenda.open);
    assert(agenda.carry.natural());
    law_step_valid(agenda, event);
    law_step_reports(agenda, event, outcomes);
    law_step_counts(agenda, event);
    law_step_work(agenda, event);
    if agenda.running is None && agenda.tasks.len() == 0 {
        assert(outcomes =~= seq![]);
    } else {
        lemma_driven(agenda.after(event), later);
    }
}

/// The state after a row of events.
pub open spec fn after_all<T, E, X>(agenda: Agenda<T>, events: Seq<Event<E, X>>) -> Agenda<T>
    decreases events.len(),
{
    if events.len() == 0 {
        agenda
    } else {
        after_all(agenda.after(events[0]), events.drop_first())
    }
}

/// Whether the run can go on from here with these events, one after the other.
pub open spec fn expects_all<T, E, X>(agenda: Agenda<T>, events: Seq<Event<E, X>>) -> bool
    decreases events.len(),
{
    events.len() > 0 ==> agenda.expects(events[0]) && expects_all(
        agenda.after(events[0]),
        events.drop_first(),
    )
}

/// The outcomes that a row of events tells of, in order.
pub open spec fn told<E, X>(events: Seq<Event<E, X>>) -> Seq<Result<(), E>>
    decreases events.len(),
{
    if events.len() == 0 {
        seq![]
    } else {
        match events[0] {
            Event::Finished(outcome) => seq![outcome] + told(events.drop_first()),
            _ => told(events.drop_first()),
        }
    }
}

/// The reports that a run sends while these events happen.
pub open spec fn sent<T, E, X>(agenda: Agenda<T>, events: Seq<Event<E, X>>) -> Seq<Progress<E>>
    decreases events.len(),
{
    if events.len() == 0 {
        seq![]
    } else {
        let later = sent(agenda.after(events[0]), events.drop_first());
        match agenda.reply(events[0]) {
            Reply::Send(report) => seq![report] + later,
            _ => later,
        }
    }
}

/// The tests that a run asks to wait for while these events happen.
pub open spec fn asked<T, E, X>(agenda: Agenda<T>, events: Seq<Event<E, X>>) -> Seq<T>
    decreases events.len(),
{
    if events.len() == 0 {
        seq![]
    } else {
        let later = asked(agenda.after(events[0]), events.drop_first());
        match agenda.reply(events[0]) {
            Reply::Await(test) => seq![test] + later,
            _ => later,
        }
    }
}

/// Whatever happened in a run that says that it is done: it has waited for every test of its tree
/// once and in order, was told of as many outcomes, has reported the tree with these outcomes, and
/// its result is how many of them are errors and how many are not.
pub proof fn law_done<T, E, X>(
    tree: Tree<T>,
    events: Seq<Event<E, X>>,
    last: Event<E, X>,
    stats: Stats,
)
    requires
        expects_all(Agenda::begin(script(tree)), events),
        after_all(Agenda::begin(script(tree)), events).expects(last),
        after_all(Agenda::begin(script(tree)), events).reply(last) == Reply::<T, E, X, Stats>::Done(
            stats,
        ),
    ensures
        stats.failed_tests == told(events).filter(|outcome: Result<(), E>| outcome is Err).len(),
        stats.successful_tests == told(events).filter(|outcome: Result<(), E>| outcome is Ok).len(),
        told(events).len() == leaves(tree),
        asked(Agenda::begin(script(tree)), events) == bodies(tree),
        sent(Agenda::begin(script(tree)), events) == progress(tree, told(events)),
{
    let agenda = Agenda::begin(script(tree));
    let outcomes = Seq::new(leaves(tree), |i: int| Ok::<(), E>(()));
    law_begin(tree, outcomes);
    law_begin_valid(tree);
    lemma_done(agenda, events, last, stats);
    law_begin(tree, told(events));
    law_failures(told(events));
}

/// What a run from any state that it can come to has asked for, sent and counted once it is done.
proof fn lemma_done<T, E, X>(
    agenda: Agenda<T>,
    events: Seq<Event<E, X>>,
    last: Event<E, X>,
    stats: Stats,
)
    requires
        agenda.valid(),
        expects_all(agenda, events),
        after_all(agenda, events).expects(last),
        after_all(agenda, events).reply(last) == Reply::<T, E, X, Stats>::Done(stats),
    ensures
        !agenda.halted,
        told(events).len() == agenda.ahead(),
        asked(agenda, events) == awaited(agenda.tasks),
        sent(agenda, events) == agenda.pending(told(events)),
        stats.failed_tests == agenda.failed() + failures(told(events)),
        stats.successful_tests == agenda.successful() + successes(told(events)),
    decreases events.len(),
{
    if events.len() == 0 {
        law_step_counts(agenda, last);
        law_step_awaits(agenda, last);
        law_step_reports(agenda, last, told(events));
    } else {
        let event = events[0];
        let rest = events.drop_first();
        law_step_valid(agenda, event);
        lemma_done(agenda.after(event), rest, last, stats);
        law_step_work(agenda, event);
        law_step_counts(agenda, event);
        law_step_awaits(agenda, event);
        if event is Finished {
            assert(told(events).drop_first() =~= told(rest));
        }
        law_step_reports(agenda, event, told(events));
    }
}

impl<E> RunTest<Result<(), E>> {
    /// The reports and the count of a run in which each test has the outcome that it carries and
    /// every report is delivered.
    pub fn print(self) -> (result: (Vec<TestProgress<E>>, Stats))
        requires
            failures(bodies(self.tree())) <= i32::MAX,
            successes(bodies(self.tree())) <= i32::MAX,
        ensures
            said(result.0@) == progress(
                self.tree(),
                bodies(self.tree()),
            ),
            result.1.failed_tests == failures(bodies(self.tree())),
            result.1.successful_tests == successes(bodies(self.tree())),
            result.1.failed_tests == bodies(self.tree()).filter(
                |outcome: Result<(), E>| outcome is Err,
            ).len(),
            result.1.successful_tests == bodies(self.tree()).filter(
                |outcome: Result<(), E>| outcome is Ok,
            ).len(),
    {
        let ghost tree = self.tree();
        let ghost all = bodies(tree);
        let mut sent: Vec<TestProgress<E>> = Vec::new();
        let mut printer = Printer::new(self);
        let mut event: Event<E, ()> = Event::Continue;
        let ghost mut left = all;
        proof {
            lemma_bodies(tree);
            law_begin(tree, all);
            law_failures(all);
            assert(said(sent@) + printer@.pending(all)
                =~= progress(tree, all));
        }
        loop
            invariant
                tree == self.tree(),
                all == bodies(tree),
                failures(all) == all.filter(|outcome: Result<(), E>| outcome is Err).len(),
                successes(all) == all.filter(|outcome: Result<(), E>| outcome is Ok).len(),
                printer@.valid(),
                !printer@.halted,
                event !is Rejected,
                event is Finished <==> printer@.running is Some,
                left == (match event {
                    Event::Finished(outcome) => seq![outcome] + awaited(printer@.tasks),
                    _ => awaited(printer@.tasks),
                }),
                said(sent@) + printer@.pending(left)
                    == progress(tree, all),
                printer@.failed() + failures(left) == failures(all) <= i32::MAX,
                printer@.successful() + successes(left) == successes(all) <= i32::MAX,
            decreases printer@.work(),
        {
            let ghost before = printer@;
            proof {
                lemma_room(before.open);
                assert(before.carry.natural());
                law_step_reports(before, event, left);
                law_step_counts(before, event);
                law_step_work(before, event);
            }
            match printer.step(event) {
                Action::Await(outcome) => {
                    proof {
                        assert(left =~= seq![outcome] + awaited(printer@.tasks));
                    }
                    event = Event::Finished(outcome);
                },
                Action::Send(report) => {
                    let ghost earlier = sent@;
                    sent.push(report);
                    proof {
                        assert(said(sent@) =~= said(
                            earlier,
                        ).push(report@));
                        if event is Finished {
                            left = left.drop_first();
                            assert(left =~= awaited(printer@.tasks));
                        }
                        assert(said(earlier) + (seq![report@] + printer@.pending(
                            left,
                        )) =~= said(sent@) + printer@.pending(left));
                    }
                    event = Event::Continue;
                },
                Action::Done(stats) => {
                    proof {
                        assert(left =~= seq![]);
                        assert(said(sent@) =~= progress(
                            tree,
                            all,
                        ));
                    }
                    return (sent, stats);
                },
                Action::Fail(_) => {
                    return (sent, Stats::default());
                },
            }
        }
    }
}

} // verus!
