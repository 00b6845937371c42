//! Trees of tests, and the plain tree that both kinds of them stand for.

use vstd::prelude::*;

verus! {

/// A suite: either one test or a named group of suites.
///
/// `T` is the body of a test, which the suite only carries.
pub enum Test<T> {
    Test { name: String, test: T },
    Group { name: String, tests: Vec<Test<T>> },
}

/// A suite whose tests have been started: `T` is the handle of a test that runs.
pub enum RunTest<T> {
    Test { name: String, test: T },
    Group { name: String, tests: Vec<RunTest<T>> },
}

/// A suite whose tests are done: what each of them said, and whether it passed.
pub type FinishedTest = RunTest<(String, bool)>;

/// What a [`Test`] or a [`RunTest`] is as a mathematical tree.
pub enum Tree<T> {
    Leaf { name: Seq<char>, test: T },
    Branch { name: Seq<char>, tests: Seq<Tree<T>> },
}

/// The number of tests in a tree.
pub open spec fn leaves<T>(tree: Tree<T>) -> nat
    decreases tree,
{
    match tree {
        Tree::Leaf { .. } => 1,
        Tree::Branch { tests, .. } => leaves_all(tests),
    }
}

/// The number of tests in a row of trees.
pub open spec fn leaves_all<T>(trees: Seq<Tree<T>>) -> nat
    decreases trees,
{
    if trees.len() == 0 {
        0
    } else {
        leaves_all(trees.drop_last()) + leaves(trees.last())
    }
}

/// The bodies of a tree's tests, from left to right.
pub open spec fn bodies<T>(tree: Tree<T>) -> Seq<T>
    decreases tree,
{
    match tree {
        Tree::Leaf { test, .. } => seq![test],
        Tree::Branch { tests, .. } => bodies_all(tests),
    }
}

/// The bodies of the tests in a row of trees, from left to right.
pub open spec fn bodies_all<T>(trees: Seq<Tree<T>>) -> Seq<T>
    decreases trees,
{
    if trees.len() == 0 {
        seq![]
    } else {
        bodies_all(trees.drop_last()) + bodies(trees.last())
    }
}

/// A tree without the bodies of its tests.
pub open spec fn outline<T>(tree: Tree<T>) -> Tree<()>
    decreases tree,
{
    match tree {
        Tree::Leaf { name, .. } => Tree::Leaf { name, test: () },
        Tree::Branch { name, tests } => Tree::Branch { name, tests: outline_all(tests) },
    }
}

/// A row of trees without the bodies of their tests.
pub open spec fn outline_all<T>(trees: Seq<Tree<T>>) -> Seq<Tree<()>>
    decreases trees,
{
    if trees.len() == 0 {
        seq![]
    } else {
        outline_all(trees.drop_last()).push(outline(trees.last()))
    }
}

impl<T> Test<T> {
    /// The tree that this suite stands for.
    pub open spec fn tree(self) -> Tree<T>
        decreases self,
    {
        match self {
            Test::Test { name, test } => Tree::Leaf { name: name@, test },
            Test::Group { name, tests } => Tree::Branch { name: name@, tests: Self::trees(tests@) },
        }
    }

    /// The trees that a row of suites stands for.
    pub open spec fn trees(tests: Seq<Test<T>>) -> Seq<Tree<T>>
        decreases tests,
    {
        if tests.len() == 0 {
            seq![]
        } else {
            Self::trees(tests.drop_last()).push(tests.last().tree())
        }
    }

    /// The number of tests in the suite, where an `i32` can hold it.
    pub fn leaf_count(&self) -> (count: Option<i32>)
        ensures
            match count {
                Some(n) => n == leaves(self.tree()),
                None => leaves(self.tree()) > i32::MAX,
            },
        decreases self,
    {
        match self {
            Test::Test { .. } => Some(1),
            Test::Group { tests, .. } => {
                let mut total: i32 = 0;
                let mut i: usize = 0;
                while i < tests.len()
                    invariant
                        i <= tests.len(),
                        0 <= total,
                        total == leaves_all(Self::trees(tests@.take(i as int))),
                        *self matches Test::Group { tests: members, .. } && members == tests,
                    decreases tests.len() - i,
                {
                    proof {
                        Self::lemma_trees_take(tests@, i as int);
                        lemma_leaves_all_take(Self::trees(tests@), i + 1);
                    }
                    match tests[i].leaf_count() {
                        Some(n) if n <= i32::MAX - total => {
                            total = total + n;
                        },
                        _ => {
                            return None;
                        },
                    }
                    i = i + 1;
                }
                assert(tests@.take(tests.len() as int) =~= tests@);
                Some(total)
            },
        }
    }

    /// Taking one more suite of a row appends its tree.
    pub proof fn lemma_trees_take(tests: Seq<Test<T>>, i: int)
        requires
            0 <= i < tests.len(),
        ensures
            Self::trees(tests.take(i + 1)) == Self::trees(tests.take(i)).push(tests[i].tree()),
            Self::trees(tests.take(i + 1)).drop_last() == Self::trees(tests.take(i)),
            Self::trees(tests.take(i + 1)) == Self::trees(tests).take(i + 1),
            Self::trees(tests).len() == tests.len(),
    {
        assert(tests.take(i + 1).drop_last() =~= tests.take(i));
        Self::lemma_trees(tests);
        Self::lemma_trees(tests.take(i + 1));
        let grown = Self::trees(tests.take(i + 1));
        assert(grown.drop_last() =~= Self::trees(tests.take(i)));
        assert(grown =~= Self::trees(tests).take(i + 1));
    }

    /// The trees of a row stand in the places of their suites.
    pub proof fn lemma_trees(tests: Seq<Test<T>>)
        ensures
            Self::trees(tests).len() == tests.len(),
            forall|i: int| 0 <= i < tests.len() ==> #[trigger] Self::trees(tests)[i] == tests[i].tree(),
        decreases tests.len(),
    {
        if tests.len() > 0 {
            Self::lemma_trees(tests.drop_last());
        }
    }
}

impl<T> RunTest<T> {
    /// The tree that this suite stands for.
    pub open spec fn tree(self) -> Tree<T>
        decreases self,
    {
        match self {
            RunTest::Test { name, test } => Tree::Leaf { name: name@, test },
            RunTest::Group { name, tests } => Tree::Branch {
                name: name@,
                tests: Self::trees(tests@),
            },
        }
    }

    /// The trees that a row of suites stands for.
    pub open spec fn trees(tests: Seq<RunTest<T>>) -> Seq<Tree<T>>
        decreases tests,
    {
        if tests.len() == 0 {
            seq![]
        } else {
            Self::trees(tests.drop_last()).push(tests.last().tree())
        }
    }
}

impl<T> RunTest<T> {
    /// Taking one more suite of a row appends its tree.
    pub proof fn lemma_trees_take(tests: Seq<RunTest<T>>, i: int)
        requires
            0 <= i < tests.len(),
        ensures
            Self::trees(tests.take(i + 1)) == Self::trees(tests.take(i)).push(tests[i].tree()),
            Self::trees(tests.take(i + 1)).drop_last() == Self::trees(tests.take(i)),
            Self::trees(tests.take(i + 1)) == Self::trees(tests).take(i + 1),
            Self::trees(tests).len() == tests.len(),
    {
        assert(tests.take(i + 1).drop_last() =~= tests.take(i));
        Self::lemma_trees(tests);
        Self::lemma_trees(tests.take(i + 1));
        let grown = Self::trees(tests.take(i + 1));
        assert(grown.drop_last() =~= Self::trees(tests.take(i)));
        assert(grown =~= Self::trees(tests).take(i + 1));
    }

    /// The trees of a row stand in the places of their suites.
    pub proof fn lemma_trees(tests: Seq<RunTest<T>>)
        ensures
            Self::trees(tests).len() == tests.len(),
            forall|i: int| 0 <= i < tests.len() ==> #[trigger] Self::trees(tests)[i] == tests[i].tree(),
        decreases tests.len(),
    {
        if tests.len() > 0 {
            Self::lemma_trees(tests.drop_last());
        }
    }
}

/// A tree has as many bodies as tests.
pub proof fn lemma_bodies<T>(tree: Tree<T>)
    ensures
        bodies(tree).len() == leaves(tree),
    decreases tree,
{
    match tree {
        Tree::Leaf { .. } => {},
        Tree::Branch { tests, .. } => lemma_bodies_all(tests),
    }
}

/// A row of trees has as many bodies as tests.
pub proof fn lemma_bodies_all<T>(trees: Seq<Tree<T>>)
    ensures
        bodies_all(trees).len() == leaves_all(trees),
    decreases trees,
{
    if trees.len() > 0 {
        lemma_bodies_all(trees.drop_last());
        lemma_bodies(trees.last());
    }
}

/// A suite that is one test stands for a leaf, and a group for a branch over what its members stand
/// for, each in its place; both keep their names.
pub proof fn law_tree<T>(test: Test<T>)
    ensures
        match (test, test.tree()) {
            (Test::Test { name, test }, Tree::Leaf { name: label, test: body }) => label == name@
                && body == test,
            (Test::Group { name, tests }, Tree::Branch { name: label, tests: trees }) => {
                &&& label == name@
                &&& trees.len() == tests@.len()
                &&& forall|i: int| 0 <= i < trees.len() ==> #[trigger] trees[i] == tests@[i].tree()
            },
            _ => false,
        },
{
    match test {
        Test::Test { .. } => {},
        Test::Group { tests, .. } => Test::lemma_trees(tests@),
    }
}

/// A started suite that is one test stands for a leaf, and a group for a branch over what its
/// members stand for, each in its place; both keep their names.
pub proof fn law_run_tree<T>(run: RunTest<T>)
    ensures
        match (run, run.tree()) {
            (RunTest::Test { name, test }, Tree::Leaf { name: label, test: body }) => label == name@
                && body == test,
            (RunTest::Group { name, tests }, Tree::Branch { name: label, tests: trees }) => {
                &&& label == name@
                &&& trees.len() == tests@.len()
                &&& forall|i: int| 0 <= i < trees.len() ==> #[trigger] trees[i] == tests@[i].tree()
            },
            _ => false,
        },
{
    match run {
        RunTest::Test { .. } => {},
        RunTest::Group { tests, .. } => RunTest::lemma_trees(tests@),
    }
}

/// A test counts as one, an empty group as none, and a suite that joins a group adds its own number;
/// the bodies are as many, and those of a suite that joins a group come last.
pub proof fn law_leaves<T>(name: Seq<char>, test: T, tests: Seq<Tree<T>>, tree: Tree<T>)
    ensures
        leaves(Tree::Leaf { name, test }) == 1,
        leaves(Tree::<T>::Branch { name, tests: seq![] }) == 0,
        leaves(Tree::Branch { name, tests: tests.push(tree) }) == leaves(
            Tree::Branch { name, tests },
        ) + leaves(tree),
        bodies(tree).len() == leaves(tree),
        bodies(Tree::Leaf { name, test }) == seq![test],
        bodies(Tree::Branch { name, tests: tests.push(tree) }) == bodies(
            Tree::Branch { name, tests },
        ) + bodies(tree),
{
    lemma_bodies(tree);
    assert(tests.push(tree).drop_last() =~= tests);
    reveal_with_fuel(leaves, 2);
    reveal_with_fuel(leaves_all, 2);
    reveal_with_fuel(bodies, 2);
    reveal_with_fuel(bodies_all, 2);
}

/// Two trees have the same outline exactly where they differ in the bodies of their tests alone: two
/// tests of one name, or two groups of one name and number whose members have the same outlines.
pub proof fn law_outline<T, U>(a: Tree<T>, b: Tree<U>)
    ensures
        outline(a) == outline(b) <==> match (a, b) {
            (Tree::Leaf { name: first, .. }, Tree::Leaf { name: second, .. }) => first == second,
            (
                Tree::Branch { name: first, tests: ours },
                Tree::Branch { name: second, tests: theirs },
            ) => {
                &&& first == second
                &&& ours.len() == theirs.len()
                &&& forall|i: int|
                    0 <= i < ours.len() ==> outline(#[trigger] ours[i]) == outline(theirs[i])
            },
            _ => false,
        },
{
    match (a, b) {
        (Tree::Branch { tests: ours, .. }, Tree::Branch { tests: theirs, .. }) => {
            lemma_outline_all(ours);
            lemma_outline_all(theirs);
            if outline_all(ours) == outline_all(theirs) {
                assert forall|i: int| 0 <= i < ours.len() implies outline(#[trigger] ours[i])
                    == outline(theirs[i]) by {
                    assert(outline_all(ours)[i] == outline(ours[i]));
                    assert(outline_all(theirs)[i] == outline(theirs[i]));
                }
            }
            if ours.len() == theirs.len() && (forall|i: int|
                0 <= i < ours.len() ==> outline(#[trigger] ours[i]) == outline(theirs[i])) {
                assert forall|i: int| 0 <= i < ours.len() implies #[trigger] outline_all(ours)[i]
                    == outline_all(theirs)[i] by {
                    assert(outline(ours[i]) == outline(theirs[i]));
                    assert(outline_all(theirs)[i] == outline(theirs[i]));
                }
                assert(outline_all(ours) =~= outline_all(theirs));
            }
        },
        _ => {},
    }
}

/// The outlines of a row stand in the places of their trees.
proof fn lemma_outline_all<T>(trees: Seq<Tree<T>>)
    ensures
        outline_all(trees).len() == trees.len(),
        forall|i: int|
            0 <= i < trees.len() ==> #[trigger] outline_all(trees)[i] == outline(trees[i]),
    decreases trees.len(),
{
    if trees.len() > 0 {
        lemma_outline_all(trees.drop_last());
    }
}

/// A row holds no fewer tests than what it starts with.
proof fn lemma_leaves_all_take<T>(trees: Seq<Tree<T>>, n: int)
    requires
        0 <= n <= trees.len(),
    ensures
        leaves_all(trees.take(n)) <= leaves_all(trees),
    decreases trees.len() - n,
{
    if n == trees.len() {
        assert(trees.take(n) =~= trees);
    } else {
        assert(trees.take(n + 1).drop_last() =~= trees.take(n));
        lemma_leaves_all_take(trees, n + 1);
    }
}

} // verus!
