//! Which tests of a suite are run, and how they are set going.

use vstd::prelude::*;
use vstd::string::*;
use crate::launcher::Launcher;
use crate::options::Options;
use crate::text::{contains, join, joined, occurs_in};
use crate::tree::{bodies, bodies_all, outline, outline_all, RunTest, Test, Tree};

verus! {

/// What is left of the tree below `path` when only tests whose path holds `filter` are kept; a
/// branch of which nothing is left goes too.
pub open spec fn selected<T>(tree: Tree<T>, path: Seq<char>, filter: Seq<char>) -> Option<Tree<T>>
    decreases tree,
{
    match tree {
        Tree::Leaf { name, .. } => {
            if occurs_in(filter, joined(path, name)) {
                Some(tree)
            } else {
                None
            }
        },
        Tree::Branch { name, tests } => {
            let kept = selected_all(tests, joined(path, name), filter);
            if kept.len() == 0 {
                None
            } else {
                Some(Tree::Branch { name, tests: kept })
            }
        },
    }
}

/// What is left of a row of trees below `path`, in the same order.
pub open spec fn selected_all<T>(
    trees: Seq<Tree<T>>,
    path: Seq<char>,
    filter: Seq<char>,
) -> Seq<Tree<T>>
    decreases trees,
{
    if trees.len() == 0 {
        seq![]
    } else {
        let kept = selected_all(trees.drop_last(), path, filter);
        match selected(trees.last(), path, filter) {
            Some(tree) => kept.push(tree),
            None => kept,
        }
    }
}

/// The number of tests that the filter leaves out of the tree below `path`.
pub open spec fn filtered<T>(tree: Tree<T>, path: Seq<char>, filter: Seq<char>) -> nat
    decreases tree,
{
    match tree {
        Tree::Leaf { name, .. } => {
            if occurs_in(filter, joined(path, name)) {
                0
            } else {
                1
            }
        },
        Tree::Branch { name, tests } => filtered_all(tests, joined(path, name), filter),
    }
}

/// The number of tests that the filter leaves out of a row of trees below `path`.
pub open spec fn filtered_all<T>(trees: Seq<Tree<T>>, path: Seq<char>, filter: Seq<char>) -> nat
    decreases trees,
{
    if trees.len() == 0 {
        0
    } else {
        filtered_all(trees.drop_last(), path, filter) + filtered(trees.last(), path, filter)
    }
}

/// An executor that is lent out.
pub open spec fn lent<E>(executor: &Option<E>) -> Option<&E> {
    match executor {
        Some(executor) => Some(executor),
        None => None,
    }
}

/// What is lent out is the executor itself, where there is one.
pub proof fn law_lent<E>(executor: Option<E>)
    ensures
        match (executor, lent(&executor)) {
            (Some(owned), Some(shared)) => *shared == owned,
            (None, None) => true,
            _ => false,
        },
{
}

/// The filter leaves out no fewer tests of a row than of what the row starts with.
proof fn lemma_filtered_all_take<T>(
    trees: Seq<Tree<T>>,
    path: Seq<char>,
    filter: Seq<char>,
    n: int,
)
    requires
        0 <= n <= trees.len(),
    ensures
        filtered_all(trees.take(n), path, filter) <= filtered_all(trees, path, filter),
    decreases trees.len() - n,
{
    if n == trees.len() {
        assert(trees.take(n) =~= trees);
    } else {
        assert(trees.take(n + 1).drop_last() =~= trees.take(n));
        lemma_filtered_all_take(trees, path, filter, n + 1);
    }
}

/// Whether `start` may be called on each test of a row.
pub open spec fn startable<T, U, E, F>(tests: Seq<T>, executor: Option<&E>, start: F) -> bool where
    F: Fn(Option<&E>, T) -> U,
 {
    forall|i: int| 0 <= i < tests.len() ==> call_requires(start, (executor, #[trigger] tests[i]))
}

/// Where `start` may be called on all that is left of a row of trees, it may be called on all that
/// is left of each of them.
proof fn lemma_startable_at<T, U, E, F>(
    trees: Seq<Tree<T>>,
    at: int,
    path: Seq<char>,
    filter: Seq<char>,
    executor: Option<&E>,
    start: F,
) where F: Fn(Option<&E>, T) -> U
    requires
        0 <= at < trees.len(),
        startable(bodies_all(selected_all(trees, path, filter)), executor, start),
    ensures
        selected(trees[at], path, filter) matches Some(kept) ==> startable(
            bodies(kept),
            executor,
            start,
        ),
    decreases trees.len(),
{
    let all = bodies_all(selected_all(trees, path, filter));
    let earlier = selected_all(trees.drop_last(), path, filter);
    let before = bodies_all(earlier);
    if let Some(kept) = selected(trees.last(), path, filter) {
        assert(earlier.push(kept).drop_last() =~= earlier);
        assert(all == before + bodies(kept));
        assert forall|i: int| 0 <= i < bodies(kept).len() implies call_requires(
            start,
            (executor, #[trigger] bodies(kept)[i]),
        ) by {
            assert(all[before.len() + i] == bodies(kept)[i]);
        }
    }
    if at < trees.len() - 1 {
        assert forall|i: int| 0 <= i < before.len() implies call_requires(
            start,
            (executor, #[trigger] before[i]),
        ) by {
            assert(all[i] == before[i]);
        }
        lemma_startable_at(trees.drop_last(), at, path, filter, executor, start);
    }
}

/// Whether each test of a row has become what `start` makes of it.
spec fn begun<T, U, E, F>(from: Seq<T>, to: Seq<U>, executor: Option<&E>, start: F) -> bool where
    F: Fn(Option<&E>, T) -> U,
 {
    &&& from.len() == to.len()
    &&& forall|i: int|
        0 <= i < from.len() ==> call_ensures(start, (executor, #[trigger] from[i]), to[i])
}

/// Two rows of tests that have become what `start` makes of them are one such row.
proof fn lemma_begun_add<T, U, E, F>(
    from: Seq<T>,
    to: Seq<U>,
    more: Seq<T>,
    begun_more: Seq<U>,
    executor: Option<&E>,
    start: F,
) where F: Fn(Option<&E>, T) -> U
    requires
        begun(from, to, executor, start),
        begun(more, begun_more, executor, start),
    ensures
        begun(from + more, to + begun_more, executor, start),
{
    assert forall|i: int| 0 <= i < (from + more).len() implies call_ensures(
        start,
        (executor, #[trigger] (from + more)[i]),
        (to + begun_more)[i],
    ) by {
        if i < from.len() {
            assert((from + more)[i] == from[i]);
        } else {
            assert((from + more)[i] == more[i - from.len()]);
        }
    }
}

/// What the start of a suite needs, and what it has counted.
pub struct Starter<'a, E> {
    /// The options of the run.
    pub options: &'a Options,
    /// The number of tests that the filter has left out so far.
    pub filtered_tests: i32,
    /// What the tests are spawned on; without one each test runs where it is awaited.
    pub executor: Option<E>,
}

/// Stands where there is no executor.
pub struct DummyExecutor;

impl<'a> Starter<'a, DummyExecutor> {
    /// A starter without an executor that has counted nothing yet.
    pub fn new(options: &'a Options) -> (starter: Self)
        ensures
            starter.options == options,
            starter.filtered_tests == 0,
            starter.executor is None,
    {
        Self::with_executor(options, None)
    }
}

impl<'a, E> Starter<'a, E> {
    /// A starter that has counted nothing yet.
    pub fn with_executor(options: &'a Options, executor: Option<E>) -> (starter: Self)
        ensures
            starter.options == options,
            starter.filtered_tests == 0,
            starter.executor == executor,
    {
        Starter { options, filtered_tests: 0, executor }
    }
}

impl<T> Test<T> {
    /// Starts the tests of the suite whose path holds the filter, as [`Test::run_test`] does below
    /// the empty path.
    pub fn run_all<U, E, F>(
        self,
        starter: &mut Starter<'_, E>,
        launcher: &mut Launcher<T, F>,
    ) -> (run: Option<RunTest<U>>) where F: Fn(Option<&E>, T) -> U
        requires
            selected(self.tree(), seq![], old(starter).options.filter@) matches Some(kept)
                ==> startable(bodies(kept), lent(&old(starter).executor), old(launcher).start()),
            old(starter).filtered_tests + filtered(
                self.tree(),
                seq![],
                old(starter).options.filter@,
            ) <= i32::MAX,
        ensures
            final(starter).options == old(starter).options,
            final(starter).executor == old(starter).executor,
            final(launcher).start() == old(launcher).start(),
            final(starter).filtered_tests == old(starter).filtered_tests + filtered(
                self.tree(),
                seq![],
                old(starter).options.filter@,
            ),
            match (selected(self.tree(), seq![], old(starter).options.filter@), run) {
                (Some(kept), Some(run)) => {
                    &&& outline(run.tree()) == outline(kept)
                    &&& final(launcher).started() == old(launcher).started() + bodies(kept)
                    &&& bodies(run.tree()).len() == bodies(kept).len()
                    &&& forall|i: int|
                        0 <= i < bodies(kept).len() ==> call_ensures(
                            old(launcher).start(),
                            (lent(&old(starter).executor), #[trigger] bodies(kept)[i]),
                            bodies(run.tree())[i],
                        )
                },
                (None, None) => final(launcher).started() == old(launcher).started(),
                _ => false,
            },
    {
        proof {
            reveal_strlit("");
            assert(""@ =~= seq![]);
        }
        self.run_test(starter, "", launcher)
    }

    /// Starts the tests of the suite whose path holds the filter, each with the launcher on the
    /// starter's executor, once and from left to right; counts the others; and drops the groups of
    /// which nothing is left. The path of a test is `path` and the names on the way to it, each
    /// after a slash.
    ///
    /// All that is asked of the launcher is that it may start the tests that are kept: it starts no
    /// other.
    pub fn run_test<U, E, F>(
        self,
        starter: &mut Starter<'_, E>,
        path: &str,
        launcher: &mut Launcher<T, F>,
    ) -> (run: Option<RunTest<U>>) where F: Fn(Option<&E>, T) -> U
        requires
            selected(self.tree(), path@, old(starter).options.filter@) matches Some(kept)
                ==> startable(bodies(kept), lent(&old(starter).executor), old(launcher).start()),
            old(starter).filtered_tests + filtered(
                self.tree(),
                path@,
                old(starter).options.filter@,
            ) <= i32::MAX,
        ensures
            final(starter).options == old(starter).options,
            final(starter).executor == old(starter).executor,
            final(launcher).start() == old(launcher).start(),
            final(starter).filtered_tests == old(starter).filtered_tests + filtered(
                self.tree(),
                path@,
                old(starter).options.filter@,
            ),
            match (selected(self.tree(), path@, old(starter).options.filter@), run) {
                (Some(kept), Some(run)) => {
                    &&& outline(run.tree()) == outline(kept)
                    &&& final(launcher).started() == old(launcher).started() + bodies(kept)
                    &&& bodies(run.tree()).len() == bodies(kept).len()
                    &&& forall|i: int|
                        0 <= i < bodies(kept).len() ==> call_ensures(
                            old(launcher).start(),
                            (lent(&old(starter).executor), #[trigger] bodies(kept)[i]),
                            bodies(run.tree())[i],
                        )
                },
                (None, None) => final(launcher).started() == old(launcher).started(),
                _ => false,
            },
            match (self, run) {
                (Test::Test { name, .. }, None) => {
                    &&& !occurs_in(old(starter).options.filter@, path@ + seq!['/'] + name@)
                    &&& final(starter).filtered_tests == old(starter).filtered_tests + 1
                },
                (Test::Test { name, test }, Some(RunTest::Test { name: label, .. })) => {
                    &&& occurs_in(old(starter).options.filter@, path@ + seq!['/'] + name@)
                    &&& label@ == name@
                    &&& final(launcher).started() == old(launcher).started().push(test)
                    &&& final(starter).filtered_tests == old(starter).filtered_tests
                },
                (Test::Group { .. }, None) => true,
                (Test::Group { name, .. }, Some(RunTest::Group { name: label, tests })) => label@
                    == name@ && tests@.len() > 0,
                _ => false,
            },
        decreases self,
    {
        let ghost whole = self;
        match self {
            Test::Test { name, test } => {
                let test_path = join(path, name.as_str());
                if contains(test_path.as_str(), starter.options.filter.as_str()) {
                    assert(bodies(whole.tree())[0] == test);
                    let test = launcher.launch(starter.executor.as_ref(), test);
                    Some(RunTest::Test { name, test })
                } else {
                    starter.filtered_tests = starter.filtered_tests + 1;
                    None
                }
            },
            Test::Group { name, tests } => {
                let test_path = join(path, name.as_str());
                let mut kept: Vec<RunTest<U>> = Vec::new();
                let ghost members = tests@;
                let ghost before = *starter;
                let ghost prior = *launcher;
                for test in it: tests
                    invariant
                        it.seq() == members,
                        whole == self,
                        whole matches Test::Group { tests: inner, .. } && inner@ == members,
                        starter.options == before.options,
                        starter.executor == before.executor,
                        launcher.start() == prior.start(),
                        launcher.started() == prior.started() + bodies_all(
                            selected_all(
                                Test::trees(members.take(it.index())),
                                test_path@,
                                before.options.filter@,
                            ),
                        ),
                        starter.filtered_tests == before.filtered_tests + filtered_all(
                            Test::trees(members.take(it.index())),
                            test_path@,
                            before.options.filter@,
                        ),
                        before.filtered_tests + filtered_all(
                            Test::trees(members),
                            test_path@,
                            before.options.filter@,
                        ) <= i32::MAX,
                        outline_all(RunTest::trees(kept@)) == outline_all(
                            selected_all(
                                Test::trees(members.take(it.index())),
                                test_path@,
                                before.options.filter@,
                            ),
                        ),
                        begun(
                            bodies_all(
                                selected_all(
                                    Test::trees(members.take(it.index())),
                                    test_path@,
                                    before.options.filter@,
                                ),
                            ),
                            bodies_all(RunTest::trees(kept@)),
                            lent(&before.executor),
                            prior.start(),
                        ),
                        startable(
                            bodies_all(
                                selected_all(
                                    Test::trees(members),
                                    test_path@,
                                    before.options.filter@,
                                ),
                            ),
                            lent(&before.executor),
                            prior.start(),
                        ),
                {
                    let ghost i = it.index();
                    proof {
                        assert(test == members[i]);
                        Test::lemma_trees_take(members, i);
                        lemma_filtered_all_take(
                            Test::trees(members),
                            test_path@,
                            before.options.filter@,
                            i + 1,
                        );
                        Test::lemma_trees(members);
                        lemma_startable_at(
                            Test::trees(members),
                            i,
                            test_path@,
                            before.options.filter@,
                            lent(&before.executor),
                            prior.start(),
                        );
                    }
                    let ghost earlier = kept@;
                    if let Some(run) = test.run_test(starter, test_path.as_str(), launcher) {
                        kept.push(run);
                        proof {
                            assert(kept@.drop_last() =~= earlier);
                            assert(RunTest::trees(kept@).drop_last() =~= RunTest::trees(earlier));
                            let chosen = selected_all(
                                Test::trees(members.take(i + 1)),
                                test_path@,
                                before.options.filter@,
                            );
                            assert(chosen.drop_last() =~= selected_all(
                                Test::trees(members.take(i)),
                                test_path@,
                                before.options.filter@,
                            ));
                            lemma_begun_add(
                                bodies_all(chosen.drop_last()),
                                bodies_all(RunTest::trees(earlier)),
                                bodies(chosen.last()),
                                bodies(run.tree()),
                                lent(&before.executor),
                                prior.start(),
                            );
                        }
                    }
                }
                proof {
                    assert(members.take(members.len() as int) =~= members);
                    RunTest::lemma_trees(kept@);
                }
                if kept.is_empty() {
                    None
                } else {
                    Some(RunTest::Group { name, tests: kept })
                }
            },
        }
    }
}

} // verus!
