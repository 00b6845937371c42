//! What a run reports while it goes on.

use vstd::prelude::*;
use crate::tree::{leaves, leaves_all, Tree};

verus! {

/// One report of a run.
#[derive(Debug, PartialEq)]
pub enum TestProgress<E> {
    /// The tests of a group follow.
    GroupStart(String),
    /// The group that was started last and is still open is done.
    GroupEnd,
    /// A test is done, with this outcome.
    Test(String, Result<(), E>),
}

/// What a [`TestProgress`] says.
pub enum Progress<E> {
    GroupStart(Seq<char>),
    GroupEnd,
    Test(Seq<char>, Result<(), E>),
}

impl<E> View for TestProgress<E> {
    type V = Progress<E>;

    open spec fn view(&self) -> Progress<E> {
        match *self {
            TestProgress::GroupStart(name) => Progress::GroupStart(name@),
            TestProgress::GroupEnd => Progress::GroupEnd,
            TestProgress::Test(name, outcome) => Progress::Test(name@, outcome),
        }
    }
}

/// What a row of reports says.
pub open spec fn said<E>(reports: Seq<TestProgress<E>>) -> Seq<Progress<E>> {
    reports.map_values(|report: TestProgress<E>| report@)
}

/// The reports of a whole run of a tree whose tests end, from left to right, with `outcomes`.
pub open spec fn progress<T, E>(tree: Tree<T>, outcomes: Seq<Result<(), E>>) -> Seq<Progress<E>>
    decreases tree,
{
    match tree {
        Tree::Leaf { name, .. } => seq![Progress::Test(name, outcomes[0])],
        Tree::Branch { name, tests } => seq![Progress::GroupStart(name)] + progress_all(
            tests,
            outcomes,
        ) + seq![Progress::GroupEnd],
    }
}

/// The reports of a whole run of a row of trees whose tests end with `outcomes`.
pub open spec fn progress_all<T, E>(
    trees: Seq<Tree<T>>,
    outcomes: Seq<Result<(), E>>,
) -> Seq<Progress<E>>
    decreases trees,
{
    if trees.len() == 0 {
        seq![]
    } else {
        let before = leaves_all(trees.drop_last()) as int;
        progress_all(trees.drop_last(), outcomes.take(before)) + progress(
            trees.last(),
            outcomes.skip(before),
        )
    }
}

/// The names of a tree's tests, from left to right.
pub open spec fn names<T>(tree: Tree<T>) -> Seq<Seq<char>>
    decreases tree,
{
    match tree {
        Tree::Leaf { name, .. } => seq![name],
        Tree::Branch { tests, .. } => names_all(tests),
    }
}

/// The names of the tests in a row of trees, from left to right.
pub open spec fn names_all<T>(trees: Seq<Tree<T>>) -> Seq<Seq<char>>
    decreases trees,
{
    if trees.len() == 0 {
        seq![]
    } else {
        names_all(trees.drop_last()) + names(trees.last())
    }
}

/// The tests that a row of reports is about, with their outcomes.
pub open spec fn results<E>(reports: Seq<Progress<E>>) -> Seq<(Seq<char>, Result<(), E>)>
    decreases reports.len(),
{
    if reports.len() == 0 {
        seq![]
    } else {
        let earlier = results(reports.drop_last());
        match reports.last() {
            Progress::Test(name, outcome) => earlier.push((name, outcome)),
            _ => earlier,
        }
    }
}

/// Names and outcomes, side by side.
pub open spec fn paired<E>(names: Seq<Seq<char>>, outcomes: Seq<Result<(), E>>) -> Seq<
    (Seq<char>, Result<(), E>),
> {
    Seq::new(names.len(), |i: int| (names[i], outcomes[i]))
}

/// Whether the reports end every group that they start and `depth` more, and no other.
pub open spec fn ends_groups<E>(reports: Seq<Progress<E>>, depth: nat) -> bool
    decreases reports.len(),
{
    if reports.len() == 0 {
        depth == 0
    } else {
        match reports[0] {
            Progress::GroupStart(_) => ends_groups(reports.drop_first(), depth + 1),
            Progress::Test(..) => ends_groups(reports.drop_first(), depth),
            Progress::GroupEnd => depth > 0 && ends_groups(
                reports.drop_first(),
                (depth - 1) as nat,
            ),
        }
    }
}

/// A report says what it holds, and a row of reports what they say one by one.
pub proof fn law_said<E>(report: TestProgress<E>, reports: Seq<TestProgress<E>>)
    ensures
        match (report, report@) {
            (TestProgress::GroupStart(name), Progress::GroupStart(label)) => label == name@,
            (TestProgress::GroupEnd, Progress::GroupEnd) => true,
            (TestProgress::Test(name, outcome), Progress::Test(label, result)) => label == name@
                && result == outcome,
            _ => false,
        },
        said(reports).len() == reports.len(),
        forall|i: int| 0 <= i < reports.len() ==> #[trigger] said(reports)[i] == reports[i]@,
{
}

/// A test is reported by its name with the first outcome; a group by its name, then what its members
/// report, then its end; and a suite that joins a group reports after the others, with the outcomes
/// that they leave.
pub proof fn law_progress<T, E>(
    name: Seq<char>,
    test: T,
    tests: Seq<Tree<T>>,
    tree: Tree<T>,
    outcomes: Seq<Result<(), E>>,
)
    ensures
        progress(Tree::Leaf { name, test }, outcomes) == seq![Progress::Test(name, outcomes[0])],
        progress(Tree::<T>::Branch { name, tests: seq![] }, outcomes) == seq![
            Progress::<E>::GroupStart(name),
            Progress::GroupEnd,
        ],
        progress(Tree::Branch { name, tests: tests.push(tree) }, outcomes) == progress(
            Tree::Branch { name, tests },
            outcomes.take(leaves_all(tests) as int),
        ).drop_last() + progress(tree, outcomes.skip(leaves_all(tests) as int)) + seq![
            Progress::<E>::GroupEnd,
        ],
        names(Tree::Leaf { name, test }) == seq![name],
        names(Tree::<T>::Branch { name, tests: seq![] }).len() == 0,
        names(Tree::Branch { name, tests: tests.push(tree) }) == names(
            Tree::Branch { name, tests },
        ) + names(tree),
{
    let before = leaves_all(tests) as int;
    assert(tests.push(tree).drop_last() =~= tests);
    reveal_with_fuel(progress, 2);
    reveal_with_fuel(progress_all, 2);
    reveal_with_fuel(names, 2);
    reveal_with_fuel(names_all, 2);
    assert(progress(Tree::<T>::Branch { name, tests: seq![] }, outcomes) =~= seq![
        Progress::<E>::GroupStart(name),
        Progress::GroupEnd,
    ]);
    assert(progress(Tree::Branch { name, tests: tests.push(tree) }, outcomes) =~= progress(
        Tree::Branch { name, tests },
        outcomes.take(before),
    ).drop_last() + progress(tree, outcomes.skip(before)) + seq![Progress::<E>::GroupEnd]);
}

/// Of a row of reports those on tests are results, in order, and those on groups are none.
pub proof fn law_results<E>(
    reports: Seq<Progress<E>>,
    name: Seq<char>,
    outcome: Result<(), E>,
)
    ensures
        results(Seq::<Progress<E>>::empty()).len() == 0,
        results(reports.push(Progress::Test(name, outcome))) == results(reports).push(
            (name, outcome),
        ),
        results(reports.push(Progress::GroupStart(name))) == results(reports),
        results(reports.push(Progress::GroupEnd)) == results(reports),
{
    assert(reports.push(Progress::Test(name, outcome)).drop_last() =~= reports);
    assert(reports.push(Progress::GroupStart(name)).drop_last() =~= reports);
    assert(reports.push(Progress::GroupEnd).drop_last() =~= reports);
}

/// A run reports every test once, by its name and with its outcome, in the order of the tree.
pub proof fn law_progress_results<T, E>(tree: Tree<T>, outcomes: Seq<Result<(), E>>)
    requires
        outcomes.len() == leaves(tree),
    ensures
        results(progress(tree, outcomes)) == paired(names(tree), outcomes),
        names(tree).len() == leaves(tree),
    decreases tree,
{
    reveal_with_fuel(results, 2);
    match tree {
        Tree::Leaf { name, .. } => {
            assert(progress(tree, outcomes).drop_last() =~= seq![]);
            assert(results(progress(tree, outcomes)) =~= paired(names(tree), outcomes));
        },
        Tree::Branch { name, tests } => {
            law_progress_results_all(tests, outcomes);
            let start = seq![Progress::<E>::GroupStart(name)];
            let middle = progress_all(tests, outcomes);
            let end = seq![Progress::<E>::GroupEnd];
            lemma_results_add(start + middle, end);
            lemma_results_add(start, middle);
            assert(start.drop_last() =~= seq![]);
            assert(end.drop_last() =~= seq![]);
            assert(results(progress(tree, outcomes)) =~= results(middle));
        },
    }
}

/// A run of a row of trees reports every test once, by its name and with its outcome, in order.
pub proof fn law_progress_results_all<T, E>(trees: Seq<Tree<T>>, outcomes: Seq<Result<(), E>>)
    requires
        outcomes.len() == leaves_all(trees),
    ensures
        results(progress_all(trees, outcomes)) == paired(names_all(trees), outcomes),
        names_all(trees).len() == leaves_all(trees),
    decreases trees,
{
    if trees.len() == 0 {
        assert(results(progress_all(trees, outcomes)) =~= paired(names_all(trees), outcomes));
    } else {
        let before = leaves_all(trees.drop_last()) as int;
        law_progress_results_all(trees.drop_last(), outcomes.take(before));
        law_progress_results(trees.last(), outcomes.skip(before));
        lemma_results_add(
            progress_all(trees.drop_last(), outcomes.take(before)),
            progress(trees.last(), outcomes.skip(before)),
        );
        assert(results(progress_all(trees, outcomes)) =~= paired(names_all(trees), outcomes));
    }
}

/// The tests that two rows of reports are about.
proof fn lemma_results_add<E>(first: Seq<Progress<E>>, second: Seq<Progress<E>>)
    ensures
        results(first + second) == results(first) + results(second),
    decreases second.len(),
{
    if second.len() == 0 {
        assert(first + second =~= first);
        assert(results(first) + results(second) =~= results(first));
    } else {
        lemma_results_add(first, second.drop_last());
        assert((first + second).drop_last() =~= first + second.drop_last());
        assert(results(first + second) =~= results(first) + results(second));
    }
}

/// A run reports the end of every group that it reports the start of, the innermost first, and of
/// no other.
pub proof fn law_progress_groups<T, E>(tree: Tree<T>, outcomes: Seq<Result<(), E>>)
    ensures
        ends_groups(progress(tree, outcomes), 0),
{
    lemma_ends_groups(tree, outcomes, seq![], 0);
    assert(progress(tree, outcomes) + seq![] =~= progress(tree, outcomes));
}

/// The reports on a tree end the groups that they start.
proof fn lemma_ends_groups<T, E>(
    tree: Tree<T>,
    outcomes: Seq<Result<(), E>>,
    rest: Seq<Progress<E>>,
    depth: nat,
)
    ensures
        ends_groups(progress(tree, outcomes) + rest, depth) == ends_groups(rest, depth),
    decreases tree,
{
    let whole = progress(tree, outcomes) + rest;
    match tree {
        Tree::Leaf { .. } => {
            assert(whole.drop_first() =~= rest);
        },
        Tree::Branch { name, tests } => {
            let tail = seq![Progress::GroupEnd] + rest;
            assert(whole.drop_first() =~= progress_all(tests, outcomes) + tail);
            lemma_ends_groups_all(tests, outcomes, tail, depth + 1);
            assert(tail.drop_first() =~= rest);
        },
    }
}

/// The reports on a row of trees end the groups that they start.
proof fn lemma_ends_groups_all<T, E>(
    trees: Seq<Tree<T>>,
    outcomes: Seq<Result<(), E>>,
    rest: Seq<Progress<E>>,
    depth: nat,
)
    ensures
        ends_groups(progress_all(trees, outcomes) + rest, depth) == ends_groups(rest, depth),
    decreases trees,
{
    if trees.len() == 0 {
        assert(progress_all(trees, outcomes) + rest =~= rest);
    } else {
        let before = leaves_all(trees.drop_last()) as int;
        let tail = progress(trees.last(), outcomes.skip(before)) + rest;
        assert(progress_all(trees, outcomes) + rest =~= progress_all(
            trees.drop_last(),
            outcomes.take(before),
        ) + tail);
        lemma_ends_groups_all(trees.drop_last(), outcomes.take(before), tail, depth);
        lemma_ends_groups(trees.last(), outcomes.skip(before), rest, depth);
    }
}

} // verus!
