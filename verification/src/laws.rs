//! What holds of the runner as a whole.

use vstd::prelude::*;
use crate::console::{transcript, written_all};
use crate::printer::{script, Agenda, Event, Reply};
use crate::progress::{
    law_progress_results, names, names_all, paired, progress, progress_all, results, Progress,
};
use crate::report::{law_report, report_of, with_report, TestReport};
use crate::run::{
    after_all, driven, expects_all, failures, law_begin, law_failures, law_whole_run, sent, successes,
    told,
};
use crate::session::{law_output, output};
use crate::starter::{filtered, filtered_all, selected, selected_all};
use crate::text::{joined, law_joined, law_occurs_in, law_occurs_in_name, occurs_at, occurs_in};
use crate::tree::{bodies, bodies_all, leaves, leaves_all, outline, outline_all, Tree};

verus! {

/// The tests of a tree below `path`, each with its path, from left to right.
pub open spec fn located<T>(tree: Tree<T>, path: Seq<char>) -> Seq<(Seq<char>, T)>
    decreases tree,
{
    match tree {
        Tree::Leaf { name, test } => seq![(joined(path, name), test)],
        Tree::Branch { name, tests } => located_all(tests, joined(path, name)),
    }
}

/// The tests of a row of trees below `path`, each with its path, from left to right.
pub open spec fn located_all<T>(trees: Seq<Tree<T>>, path: Seq<char>) -> Seq<(Seq<char>, T)>
    decreases trees,
{
    if trees.len() == 0 {
        seq![]
    } else {
        located_all(trees.drop_last(), path) + located(trees.last(), path)
    }
}

/// Holds of the tests whose path holds `filter`.
pub open spec fn matching<T>(filter: Seq<char>) -> spec_fn((Seq<char>, T)) -> bool {
    |test: (Seq<char>, T)| occurs_in(filter, test.0)
}

/// What is left of a tree as a row of at most one tree.
pub open spec fn remaining<T>(kept: Option<Tree<T>>) -> Seq<Tree<T>> {
    match kept {
        Some(tree) => seq![tree],
        None => seq![],
    }
}

/// The path of a test below `path` is `path`, a slash and its name; the tests of a group are below
/// the path of the group, and those of a suite that joins it come last.
pub proof fn law_located<T>(
    name: Seq<char>,
    test: T,
    tests: Seq<Tree<T>>,
    tree: Tree<T>,
    path: Seq<char>,
)
    ensures
        located(Tree::Leaf { name, test }, path) == seq![(path + seq!['/'] + name, test)],
        located(Tree::<T>::Branch { name, tests: seq![] }, path).len() == 0,
        located(Tree::Branch { name, tests: tests.push(tree) }, path) == located(
            Tree::Branch { name, tests },
            path,
        ) + located(tree, path + seq!['/'] + name),
{
    assert(tests.push(tree).drop_last() =~= tests);
    reveal_with_fuel(located, 2);
    reveal_with_fuel(located_all, 2);
}

/// The tests that match are those whose path holds the filter; what is left of a tree is that one
/// tree or nothing.
pub proof fn law_matching<T>(test: (Seq<char>, T), filter: Seq<char>, tree: Tree<T>)
    ensures
        matching(filter)(test) <==> exists|before: Seq<char>, after: Seq<char>|
            test.0 == #[trigger] (before + filter + after),
        remaining(Some(tree)) == seq![tree],
        remaining(None::<Tree<T>>).len() == 0,
{
    law_occurs_in(filter, test.0);
}

/// A test is kept exactly where `path`, a slash and its name together hold the filter, so a filter
/// that stands in the name of a test keeps it, whatever the path; the others are left out.
pub proof fn law_selected_test<T>(name: Seq<char>, test: T, path: Seq<char>, filter: Seq<char>)
    ensures
        occurs_in(filter, path + seq!['/'] + name) ==> {
            &&& selected(Tree::Leaf { name, test }, path, filter) == Some(Tree::Leaf { name, test })
            &&& filtered(Tree::Leaf { name, test }, path, filter) == 0
        },
        !occurs_in(filter, path + seq!['/'] + name) ==> {
            &&& selected(Tree::Leaf { name, test }, path, filter) is None
            &&& filtered(Tree::Leaf { name, test }, path, filter) == 1
        },
        occurs_in(filter, name) ==> selected(Tree::Leaf { name, test }, path, filter) is Some,
{
    if occurs_in(filter, name) {
        law_occurs_in_name(filter, path, name);
    }
}

/// A group is kept, by its name, exactly where something is left of its members below its path; of
/// a suite that joins a group is left what is left of it below the path of the group, after the
/// others.
pub proof fn law_selected_group<T>(
    name: Seq<char>,
    tests: Seq<Tree<T>>,
    tree: Tree<T>,
    path: Seq<char>,
    filter: Seq<char>,
)
    ensures
        match selected(Tree::Branch { name, tests }, path, filter) {
            Some(Tree::Branch { name: label, tests: left }) => label == name && left.len() > 0
                && left == selected_all(tests, path + seq!['/'] + name, filter),
            Some(Tree::Leaf { .. }) => false,
            None => selected_all(tests, path + seq!['/'] + name, filter).len() == 0,
        },
        selected_all(Seq::<Tree<T>>::empty(), path, filter).len() == 0,
        selected_all(tests.push(tree), path, filter) == selected_all(tests, path, filter)
            + remaining(selected(tree, path, filter)),
        filtered(Tree::<T>::Branch { name, tests: seq![] }, path, filter) == 0,
        filtered(Tree::Branch { name, tests: tests.push(tree) }, path, filter) == filtered(
            Tree::Branch { name, tests },
            path,
            filter,
        ) + filtered(tree, path + seq!['/'] + name, filter),
{
    assert(tests.push(tree).drop_last() =~= tests);
    let kept = selected_all(tests, path, filter);
    assert(selected_all(tests.push(tree), path, filter) =~= kept + remaining(
        selected(tree, path, filter),
    ));
    reveal_with_fuel(filtered, 2);
    reveal_with_fuel(filtered_all, 2);
}

/// Every test of a tree has a path that begins with `path` and ends with a slash and the whole name
/// of the test, so a filter that stands in its name keeps it.
pub proof fn law_located_names<T>(tree: Tree<T>, path: Seq<char>, filter: Seq<char>, i: int)
    requires
        0 <= i < leaves(tree),
    ensures
        located(tree, path).len() == leaves(tree),
        names(tree).len() == leaves(tree),
        located(tree, path)[i].0.len() >= path.len() + 1 + names(tree)[i].len(),
        located(tree, path)[i].0.take(path.len() as int) == path,
        located(tree, path)[i].0.skip(
            located(tree, path)[i].0.len() - names(tree)[i].len() - 1,
        ) == seq!['/'] + names(tree)[i],
        occurs_in(filter, names(tree)[i]) ==> matching(filter)(located(tree, path)[i]),
{
    lemma_located_names(tree, path);
    let whole = located(tree, path)[i].0;
    let name = names(tree)[i];
    assert(ends_below(whole, path, name));
    let above = choose|above: Seq<char>|
        whole == #[trigger] joined(above, name) && path.is_prefix_of(above);
    law_joined(above, name);
    assert(whole.take(path.len() as int) =~= above.take(path.len() as int));
    assert(above.take(path.len() as int) =~= path);
    assert(whole.skip(whole.len() - name.len() - 1) =~= seq!['/'] + name);
    if occurs_in(filter, name) {
        law_occurs_in_name(filter, above, name);
    }
}

/// Whether a path is that of an item called `name` below a path that continues `path`.
spec fn ends_below(whole: Seq<char>, path: Seq<char>, name: Seq<char>) -> bool {
    exists|above: Seq<char>| whole == #[trigger] joined(above, name) && path.is_prefix_of(above)
}

/// Every test of a tree has its name below some path that continues `path`.
proof fn lemma_located_names<T>(tree: Tree<T>, path: Seq<char>)
    ensures
        located(tree, path).len() == leaves(tree),
        names(tree).len() == leaves(tree),
        forall|i: int|
            0 <= i < leaves(tree) ==> ends_below(
                (#[trigger] located(tree, path)[i]).0,
                path,
                names(tree)[i],
            ),
    decreases tree,
{
    match tree {
        Tree::Leaf { name, .. } => {
            assert(located(tree, path)[0].0 == joined(path, names(tree)[0]));
        },
        Tree::Branch { name, tests } => {
            let below = joined(path, name);
            lemma_located_names_all(tests, below);
            assert forall|i: int| 0 <= i < leaves(tree) implies ends_below(
                (#[trigger] located(tree, path)[i]).0,
                path,
                names(tree)[i],
            ) by {
                assert(ends_below(located_all(tests, below)[i].0, below, names_all(tests)[i]));
                let above = choose|above: Seq<char>|
                    located_all(tests, below)[i].0 == #[trigger] joined(above, names_all(tests)[i])
                        && below.is_prefix_of(above);
                assert(path.is_prefix_of(above));
                assert(located(tree, path)[i].0 == joined(above, names(tree)[i]));
            }
        },
    }
}

/// Every test in a row of trees has its name below some path that continues `path`.
proof fn lemma_located_names_all<T>(trees: Seq<Tree<T>>, path: Seq<char>)
    ensures
        located_all(trees, path).len() == leaves_all(trees),
        names_all(trees).len() == leaves_all(trees),
        forall|i: int|
            0 <= i < leaves_all(trees) ==> ends_below(
                (#[trigger] located_all(trees, path)[i]).0,
                path,
                names_all(trees)[i],
            ),
    decreases trees,
{
    if trees.len() > 0 {
        let first = trees.drop_last();
        let last = trees.last();
        lemma_located_names_all(first, path);
        lemma_located_names(last, path);
        let n = leaves_all(first) as int;
        assert forall|i: int| 0 <= i < leaves_all(trees) implies ends_below(
            (#[trigger] located_all(trees, path)[i]).0,
            path,
            names_all(trees)[i],
        ) by {
            if i < n {
                assert(located_all(trees, path)[i] == located_all(first, path)[i]);
                assert(names_all(trees)[i] == names_all(first)[i]);
            } else {
                assert(located_all(trees, path)[i] == located(last, path)[i - n]);
                assert(names_all(trees)[i] == names(last)[i - n]);
            }
        }
    }
}

/// The filter keeps exactly the tests whose path holds it, with their paths and in their order.
pub proof fn law_selected_tests<T>(tree: Tree<T>, path: Seq<char>, filter: Seq<char>)
    ensures
        located_all(remaining(selected(tree, path, filter)), path) == located(tree, path).filter(
            matching(filter),
        ),
    decreases tree,
{
    reveal_with_fuel(Seq::<_>::filter, 2);
    reveal_with_fuel(located_all, 2);
    match tree {
        Tree::Leaf { name, test } => {
            let alone = located(tree, path);
            assert(alone.drop_last() =~= seq![]);
            assert(alone.filter(matching(filter)) =~= if occurs_in(filter, joined(path, name)) {
                alone
            } else {
                seq![]
            });
            assert(remaining(selected(tree, path, filter)) =~= if occurs_in(
                filter,
                joined(path, name),
            ) {
                seq![tree]
            } else {
                seq![]
            });
            assert(seq![tree].drop_last() =~= seq![]);
            assert(located_all(seq![tree], path) =~= alone);
        },
        Tree::Branch { name, tests } => {
            let below = joined(path, name);
            law_selected_tests_all(tests, below, filter);
            let kept = selected_all(tests, below, filter);
            if kept.len() > 0 {
                let branch = Tree::Branch { name, tests: kept };
                assert(seq![branch].drop_last() =~= seq![]);
                assert(located_all(seq![branch], path) =~= located_all(kept, below));
            }
        },
    }
}

/// The filter keeps exactly the tests of a row of trees whose path holds it, with their paths and
/// in their order.
pub proof fn law_selected_tests_all<T>(trees: Seq<Tree<T>>, path: Seq<char>, filter: Seq<char>)
    ensures
        located_all(selected_all(trees, path, filter), path) == located_all(trees, path).filter(
            matching(filter),
        ),
    decreases trees,
{
    if trees.len() == 0 {
        reveal(Seq::filter);
        assert(located_all(trees, path).filter(matching(filter)) =~= seq![]);
    } else {
        let first = trees.drop_last();
        let last = trees.last();
        law_selected_tests_all(first, path, filter);
        law_selected_tests(last, path, filter);
        Seq::filter_distributes_over_add(
            located_all(first, path),
            located(last, path),
            matching(filter),
        );
        let kept = selected_all(first, path, filter);
        match selected(last, path, filter) {
            Some(tree) => {
                assert(kept.push(tree).drop_last() =~= kept);
                assert(seq![tree].drop_last() =~= seq![]);
                reveal_with_fuel(located_all, 2);
                assert(located_all(seq![tree], path) =~= located(tree, path));
            },
            None => {
                assert(located_all(kept, path) + seq![] =~= located_all(kept, path));
            },
        }
    }
}

/// The bodies of the tests that are kept, which is what a launcher is handed in turn, are those of
/// exactly the tests whose path holds the filter, in their order.
pub proof fn law_started_tests<T>(tree: Tree<T>, path: Seq<char>, filter: Seq<char>)
    ensures
        bodies_all(remaining(selected(tree, path, filter))) == located(tree, path).filter(
            matching(filter),
        ).map_values(|test: (Seq<char>, T)| test.1),
{
    law_selected_tests(tree, path, filter);
    lemma_located_bodies_all(remaining(selected(tree, path, filter)), path);
}

/// The bodies of a tree's tests stand in the order of the tests with their paths.
proof fn lemma_located_bodies<T>(tree: Tree<T>, path: Seq<char>)
    ensures
        bodies(tree) == located(tree, path).map_values(|test: (Seq<char>, T)| test.1),
    decreases tree,
{
    match tree {
        Tree::Leaf { .. } => {
            assert(bodies(tree) =~= located(tree, path).map_values(
                |test: (Seq<char>, T)| test.1,
            ));
        },
        Tree::Branch { name, tests } => lemma_located_bodies_all(tests, joined(path, name)),
    }
}

/// The bodies of the tests in a row of trees stand in the order of the tests with their paths.
proof fn lemma_located_bodies_all<T>(trees: Seq<Tree<T>>, path: Seq<char>)
    ensures
        bodies_all(trees) == located_all(trees, path).map_values(|test: (Seq<char>, T)| test.1),
    decreases trees,
{
    if trees.len() > 0 {
        lemma_located_bodies_all(trees.drop_last(), path);
        lemma_located_bodies(trees.last(), path);
    }
    assert(bodies_all(trees) =~= located_all(trees, path).map_values(
        |test: (Seq<char>, T)| test.1,
    ));
}

/// Every test is either kept or counted as left out.
pub proof fn law_selected_count<T>(tree: Tree<T>, path: Seq<char>, filter: Seq<char>)
    ensures
        leaves_all(remaining(selected(tree, path, filter))) + filtered(tree, path, filter)
            == leaves(tree),
    decreases tree,
{
    reveal_with_fuel(leaves_all, 2);
    match tree {
        Tree::Leaf { .. } => {
            assert(seq![tree].drop_last() =~= seq![]);
        },
        Tree::Branch { name, tests } => {
            let below = joined(path, name);
            law_selected_count_all(tests, below, filter);
            let kept = selected_all(tests, below, filter);
            if kept.len() > 0 {
                let branch = Tree::Branch { name, tests: kept };
                assert(seq![branch].drop_last() =~= seq![]);
            }
        },
    }
}

/// Every test of a row of trees is either kept or counted as left out.
pub proof fn law_selected_count_all<T>(trees: Seq<Tree<T>>, path: Seq<char>, filter: Seq<char>)
    ensures
        leaves_all(selected_all(trees, path, filter)) + filtered_all(trees, path, filter)
            == leaves_all(trees),
    decreases trees,
{
    if trees.len() > 0 {
        let first = trees.drop_last();
        let last = trees.last();
        law_selected_count_all(first, path, filter);
        law_selected_count(last, path, filter);
        let kept = selected_all(first, path, filter);
        reveal_with_fuel(leaves_all, 2);
        match selected(last, path, filter) {
            Some(tree) => {
                assert(kept.push(tree).drop_last() =~= kept);
                assert(seq![tree].drop_last() =~= seq![]);
            },
            None => {},
        }
    }
}

/// Whether every branch of a tree holds something.
pub open spec fn inhabited<T>(tree: Tree<T>) -> bool
    decreases tree,
{
    match tree {
        Tree::Leaf { .. } => true,
        Tree::Branch { tests, .. } => tests.len() > 0 && inhabited_all(tests),
    }
}

/// Whether every branch in a row of trees holds something.
pub open spec fn inhabited_all<T>(trees: Seq<Tree<T>>) -> bool
    decreases trees,
{
    trees.len() > 0 ==> inhabited_all(trees.drop_last()) && inhabited(trees.last())
}

/// What is left of a tree has no empty group.
pub proof fn law_selected_inhabited<T>(tree: Tree<T>, path: Seq<char>, filter: Seq<char>)
    ensures
        selected(tree, path, filter) matches Some(kept) ==> inhabited(kept),
    decreases tree,
{
    match tree {
        Tree::Leaf { .. } => {},
        Tree::Branch { name, tests } => law_selected_inhabited_all(tests, joined(path, name), filter),
    }
}

/// What is left of a row of trees has no empty group.
pub proof fn law_selected_inhabited_all<T>(trees: Seq<Tree<T>>, path: Seq<char>, filter: Seq<char>)
    ensures
        inhabited_all(selected_all(trees, path, filter)),
    decreases trees,
{
    if trees.len() > 0 {
        let first = trees.drop_last();
        law_selected_inhabited_all(first, path, filter);
        law_selected_inhabited(trees.last(), path, filter);
        let kept = selected_all(first, path, filter);
        match selected(trees.last(), path, filter) {
            Some(tree) => {
                assert(kept.push(tree).drop_last() =~= kept);
            },
            None => {},
        }
    }
}

/// A tree without empty groups of which no test is left out stays as it is.
pub proof fn law_selected_whole<T>(tree: Tree<T>, path: Seq<char>, filter: Seq<char>)
    requires
        inhabited(tree),
        filtered(tree, path, filter) == 0,
    ensures
        selected(tree, path, filter) == Some(tree),
    decreases tree,
{
    match tree {
        Tree::Leaf { .. } => {},
        Tree::Branch { name, tests } => law_selected_whole_all(tests, joined(path, name), filter),
    }
}

/// A row of trees without empty groups of which no test is left out stays as it is.
pub proof fn law_selected_whole_all<T>(trees: Seq<Tree<T>>, path: Seq<char>, filter: Seq<char>)
    requires
        inhabited_all(trees),
        filtered_all(trees, path, filter) == 0,
    ensures
        selected_all(trees, path, filter) == trees,
    decreases trees,
{
    if trees.len() > 0 {
        law_selected_whole_all(trees.drop_last(), path, filter);
        law_selected_whole(trees.last(), path, filter);
        assert(trees.drop_last().push(trees.last()) =~= trees);
    }
}

/// A filter leaves out nothing of what it has kept: to select again changes nothing.
pub proof fn law_selected_again<T>(tree: Tree<T>, path: Seq<char>, filter: Seq<char>)
    ensures
        selected(tree, path, filter) matches Some(kept) ==> filtered(kept, path, filter) == 0
            && selected(kept, path, filter) == Some(kept),
{
    law_selected_inhabited(tree, path, filter);
    match selected(tree, path, filter) {
        Some(kept) => {
            lemma_filtered_again(tree, path, filter);
            law_selected_whole(kept, path, filter);
        },
        None => {},
    }
}

/// A filter leaves out nothing of what it has kept of a tree.
proof fn lemma_filtered_again<T>(tree: Tree<T>, path: Seq<char>, filter: Seq<char>)
    ensures
        selected(tree, path, filter) matches Some(kept) ==> filtered(kept, path, filter) == 0,
    decreases tree,
{
    match tree {
        Tree::Leaf { .. } => {},
        Tree::Branch { name, tests } => lemma_filtered_again_all(tests, joined(path, name), filter),
    }
}

/// A filter leaves out nothing of what it has kept of a row of trees.
proof fn lemma_filtered_again_all<T>(trees: Seq<Tree<T>>, path: Seq<char>, filter: Seq<char>)
    ensures
        filtered_all(selected_all(trees, path, filter), path, filter) == 0,
    decreases trees,
{
    if trees.len() > 0 {
        let first = trees.drop_last();
        lemma_filtered_again_all(first, path, filter);
        lemma_filtered_again(trees.last(), path, filter);
        let kept = selected_all(first, path, filter);
        match selected(trees.last(), path, filter) {
            Some(tree) => {
                assert(kept.push(tree).drop_last() =~= kept);
            },
            None => {},
        }
    }
}

/// A filter that holds no text stands in every path.
pub proof fn law_empty_filter<T>(tree: Tree<T>, path: Seq<char>)
    ensures
        filtered(tree, path, seq![]) == 0,
        located_all(remaining(selected(tree, path, seq![])), path) == located(tree, path),
{
    let none = Seq::<char>::empty();
    assert(occurs_at(none, path, 0)) by {
        assert(path.subrange(0, 0) =~= none);
    }
    law_matching_path(tree, path, none);
    law_selected_tests(tree, path, none);
    lemma_all_match(tree, path, none);
}

/// Where the filter stands in the path of a group already, no test of the group is left out.
pub proof fn law_matching_path<T>(tree: Tree<T>, path: Seq<char>, filter: Seq<char>)
    requires
        occurs_in(filter, path),
    ensures
        filtered(tree, path, filter) == 0,
    decreases tree,
{
    match tree {
        Tree::Leaf { name, .. } => lemma_occurs_below(filter, path, name),
        Tree::Branch { name, tests } => {
            lemma_occurs_below(filter, path, name);
            law_matching_path_all(tests, joined(path, name), filter);
        },
    }
}

/// Where the filter stands in the path of a row of trees already, none of their tests is left out.
pub proof fn law_matching_path_all<T>(trees: Seq<Tree<T>>, path: Seq<char>, filter: Seq<char>)
    requires
        occurs_in(filter, path),
    ensures
        filtered_all(trees, path, filter) == 0,
    decreases trees,
{
    if trees.len() > 0 {
        law_matching_path_all(trees.drop_last(), path, filter);
        law_matching_path(trees.last(), path, filter);
    }
}

/// What stands in a path stands in every path below it.
proof fn lemma_occurs_below(pattern: Seq<char>, path: Seq<char>, name: Seq<char>)
    requires
        occurs_in(pattern, path),
    ensures
        occurs_in(pattern, joined(path, name)),
{
    let at = choose|at: int| occurs_at(pattern, path, at);
    let end = at + pattern.len();
    assert(joined(path, name).subrange(at, end) =~= path.subrange(at, end));
    assert(occurs_at(pattern, joined(path, name), at));
}

/// Where no test is left out, every test matches.
proof fn lemma_all_match<T>(tree: Tree<T>, path: Seq<char>, filter: Seq<char>)
    requires
        filtered(tree, path, filter) == 0,
    ensures
        located(tree, path).filter(matching(filter)) == located(tree, path),
    decreases tree,
{
    match tree {
        Tree::Leaf { name, test } => {
            let alone = located(tree, path);
            reveal_with_fuel(Seq::<_>::filter, 2);
            assert(alone.drop_last() =~= seq![]);
            assert(alone.filter(matching(filter)) =~= alone);
        },
        Tree::Branch { name, tests } => lemma_all_match_all(tests, joined(path, name), filter),
    }
}

/// Where no test of a row of trees is left out, every test matches.
proof fn lemma_all_match_all<T>(trees: Seq<Tree<T>>, path: Seq<char>, filter: Seq<char>)
    requires
        filtered_all(trees, path, filter) == 0,
    ensures
        located_all(trees, path).filter(matching(filter)) == located_all(trees, path),
    decreases trees,
{
    if trees.len() == 0 {
        reveal(Seq::filter);
        assert(located_all(trees, path).filter(matching(filter)) =~= seq![]);
    } else {
        lemma_all_match_all(trees.drop_last(), path, filter);
        lemma_all_match(trees.last(), path, filter);
        Seq::filter_distributes_over_add(
            located_all(trees.drop_last(), path),
            located(trees.last(), path),
            matching(filter),
        );
    }
}

/// A filter that stands in another keeps whatever the other keeps: it leaves out no more tests.
pub proof fn law_wider_filter<T>(
    tree: Tree<T>,
    path: Seq<char>,
    wide: Seq<char>,
    narrow: Seq<char>,
)
    requires
        occurs_in(wide, narrow),
    ensures
        filtered(tree, path, wide) <= filtered(tree, path, narrow),
        forall|test: (Seq<char>, T)| #[trigger]
            matching(narrow)(test) ==> matching(wide)(test),
{
    assert forall|test: (Seq<char>, T)| #[trigger] matching(narrow)(test) implies matching(wide)(
        test,
    ) by {
        lemma_occurs_within(wide, narrow, test.0);
    }
    lemma_wider_filter(tree, path, wide, narrow);
}

/// A filter that stands in another leaves out no more tests of a tree.
proof fn lemma_wider_filter<T>(tree: Tree<T>, path: Seq<char>, wide: Seq<char>, narrow: Seq<char>)
    requires
        occurs_in(wide, narrow),
    ensures
        filtered(tree, path, wide) <= filtered(tree, path, narrow),
    decreases tree,
{
    match tree {
        Tree::Leaf { name, .. } => {
            if occurs_in(narrow, joined(path, name)) {
                lemma_occurs_within(wide, narrow, joined(path, name));
            }
        },
        Tree::Branch { name, tests } => {
            lemma_wider_filter_all(tests, joined(path, name), wide, narrow);
        },
    }
}

/// A filter that stands in another leaves out no more tests of a row of trees.
proof fn lemma_wider_filter_all<T>(
    trees: Seq<Tree<T>>,
    path: Seq<char>,
    wide: Seq<char>,
    narrow: Seq<char>,
)
    requires
        occurs_in(wide, narrow),
    ensures
        filtered_all(trees, path, wide) <= filtered_all(trees, path, narrow),
    decreases trees,
{
    if trees.len() > 0 {
        lemma_wider_filter_all(trees.drop_last(), path, wide, narrow);
        lemma_wider_filter(trees.last(), path, wide, narrow);
    }
}

/// What stands in a part of a text stands in the text.
proof fn lemma_occurs_within(part: Seq<char>, middle: Seq<char>, text: Seq<char>)
    requires
        occurs_in(part, middle),
        occurs_in(middle, text),
    ensures
        occurs_in(part, text),
{
    let inner = choose|at: int| occurs_at(part, middle, at);
    let outer = choose|at: int| occurs_at(middle, text, at);
    let at = outer + inner;
    assert(text.subrange(at, at + part.len()) =~= middle.subrange(inner, inner + part.len()));
    assert(occurs_at(part, text, at));
}

/// What a run reports depends on the shape and the names of its tree alone.
pub proof fn law_progress_outline<T, E>(tree: Tree<T>, outcomes: Seq<Result<(), E>>)
    ensures
        progress(tree, outcomes) == progress(outline(tree), outcomes),
        leaves(tree) == leaves(outline(tree)),
    decreases tree,
{
    match tree {
        Tree::Leaf { .. } => {},
        Tree::Branch { tests, .. } => law_progress_outline_all(tests, outcomes),
    }
}

/// What a run of a row of trees reports depends on their shapes and names alone.
pub proof fn law_progress_outline_all<T, E>(trees: Seq<Tree<T>>, outcomes: Seq<Result<(), E>>)
    ensures
        progress_all(trees, outcomes) == progress_all(outline_all(trees), outcomes),
        leaves_all(trees) == leaves_all(outline_all(trees)),
    decreases trees,
{
    if trees.len() > 0 {
        let first = trees.drop_last();
        let before = leaves_all(first) as int;
        law_progress_outline_all(first, outcomes.take(before));
        law_progress_outline(trees.last(), outcomes.skip(before));
        assert(outline_all(trees).drop_last() =~= outline_all(first));
    }
}

/// Outcomes are either failures or not.
pub proof fn law_outcomes<E>(outcomes: Seq<Result<(), E>>)
    ensures
        failures(outcomes) + successes(outcomes) == outcomes.len(),
    decreases outcomes.len(),
{
    if outcomes.len() > 0 {
        law_outcomes(outcomes.drop_first());
    }
}

/// A suite of which something is left reports what is left of it, by its names and with the
/// outcomes of its tests, whatever was started in their places; every test of the suite is counted
/// once, as failed, as successful or as left out; and the run counts as a success if no test
/// failed.
pub proof fn law_suite<T, U, E>(
    tree: Tree<T>,
    filter: Seq<char>,
    kept: Tree<T>,
    running: Tree<U>,
    outcomes: Seq<Result<(), E>>,
    report: TestReport,
)
    requires
        selected(tree, seq![], filter) == Some(kept),
        outline(running) == outline(kept),
        outcomes.len() == leaves(running),
        failures(outcomes) <= i32::MAX,
        successes(outcomes) <= i32::MAX,
        filtered(tree, seq![], filter) <= i32::MAX,
        report == report_of(
            driven(Agenda::begin(script(running)), outcomes).1,
            filtered(tree, seq![], filter) as i32,
        ),
    ensures
        driven(Agenda::begin(script(running)), outcomes).0 == progress(kept, outcomes),
        report.failed_tests == failures(outcomes),
        report.successful_tests == successes(outcomes),
        report.filtered_tests == filtered(tree, seq![], filter),
        report.failed_tests + report.successful_tests + report.filtered_tests == leaves(tree),
        report.passed() <==> failures(outcomes) == 0,
{
    law_progress_outline(kept, outcomes);
    law_progress_outline(running, outcomes);
    law_outcomes(outcomes);
    law_selected_count(tree, seq![], filter);
    reveal_with_fuel(leaves_all, 2);
    assert(seq![kept].drop_last() =~= seq![]);
    law_whole_run(running, outcomes);
    law_selected_inhabited(tree, seq![], filter);
    lemma_inhabited(kept);
}

/// Whatever happened in the run of a suite that says that it is done: there was one outcome for each
/// test whose path holds the filter, and each of these tests was reported by its name with its
/// outcome, in order; the report counts the outcomes that are errors, those that are none, and the
/// tests whose path does not hold the filter; and the run counts as a success exactly where no
/// outcome is an error.
pub proof fn law_suite_done<T, U, E, X>(
    tree: Tree<T>,
    filter: Seq<char>,
    kept: Tree<T>,
    running: Tree<U>,
    events: Seq<Event<E, X>>,
    last: Event<E, X>,
    report: TestReport,
)
    requires
        selected(tree, seq![], filter) == Some(kept),
        outline(running) == outline(kept),
        filtered(tree, seq![], filter) <= i32::MAX,
        expects_all(Agenda::begin(script(running)), events),
        after_all(Agenda::begin(script(running)), events).expects(last),
        with_report(
            after_all(Agenda::begin(script(running)), events).reply(last),
            filtered(tree, seq![], filter) as i32,
        ) == Reply::<U, E, X, TestReport>::Done(report),
    ensures
        told(events).len() == located(tree, seq![]).filter(matching(filter)).len(),
        sent(Agenda::begin(script(running)), events) == progress(kept, told(events)),
        results(sent(Agenda::begin(script(running)), events)) == paired(names(kept), told(events)),
        report.failed_tests == told(events).filter(|outcome: Result<(), E>| outcome is Err).len(),
        report.successful_tests == told(events).filter(
            |outcome: Result<(), E>| outcome is Ok,
        ).len(),
        report.filtered_tests == leaves(tree) - told(events).len(),
        report.accounts_for(Ok(())) <==> forall|i: int|
            0 <= i < told(events).len() ==> (#[trigger] told(events)[i]) is Ok,
{
    let outcomes = told(events);
    law_report(running, events, last, filtered(tree, seq![], filter) as i32, report);
    law_progress_outline(kept, outcomes);
    law_progress_outline(running, outcomes);
    law_progress_results(kept, outcomes);
    law_selected_tests(tree, seq![], filter);
    law_selected_count(tree, seq![], filter);
    reveal_with_fuel(leaves_all, 2);
    reveal_with_fuel(located_all, 2);
    assert(seq![kept].drop_last() =~= seq![]);
    lemma_located_names(kept, seq![]);
    law_selected_inhabited(tree, seq![], filter);
    lemma_inhabited(kept);
    law_failures(outcomes);
    law_outcomes(outcomes);
    lemma_no_failures(outcomes);
}

/// There are no failures exactly where every outcome is a success.
proof fn lemma_no_failures<E>(outcomes: Seq<Result<(), E>>)
    ensures
        failures(outcomes) == 0 <==> forall|i: int|
            0 <= i < outcomes.len() ==> (#[trigger] outcomes[i]) is Ok,
    decreases outcomes.len(),
{
    if outcomes.len() > 0 {
        let rest = outcomes.drop_first();
        lemma_no_failures(rest);
        if failures(outcomes) == 0 {
            assert forall|i: int| 0 <= i < outcomes.len() implies (#[trigger] outcomes[i]) is Ok by {
                if i > 0 {
                    assert(rest[i - 1] is Ok);
                }
            }
        }
        if forall|i: int| 0 <= i < outcomes.len() ==> (#[trigger] outcomes[i]) is Ok {
            assert(outcomes[0] is Ok);
            assert forall|i: int| 0 <= i < rest.len() implies (#[trigger] rest[i]) is Ok by {
                assert(outcomes[i + 1] is Ok);
            }
        }
    }
}

/// A tree without empty groups has a test.
proof fn lemma_inhabited<T>(tree: Tree<T>)
    requires
        inhabited(tree),
    ensures
        leaves(tree) > 0,
    decreases tree,
{
    match tree {
        Tree::Leaf { .. } => {},
        Tree::Branch { tests, .. } => lemma_inhabited(tests.last()),
    }
}

/// A suite of which nothing is left reports nothing; all its tests are counted as left out; and the
/// run counts as a success only where the suite has no test at all.
pub proof fn law_suite_left_out<T, U, E>(tree: Tree<T>, filter: Seq<char>, report: TestReport)
    requires
        selected(tree, seq![], filter) is None,
        leaves(tree) <= i32::MAX,
        report == report_of(
            driven::<U, E>(Agenda::begin(seq![]), seq![]).1,
            filtered(tree, seq![], filter) as i32,
        ),
    ensures
        driven::<U, E>(Agenda::begin(seq![]), seq![]).0 == Seq::<Progress<E>>::empty(),
        report.failed_tests == 0,
        report.successful_tests == 0,
        report.filtered_tests == leaves(tree),
        report.passed() <==> leaves(tree) == 0,
{
    law_selected_count(tree, seq![], filter);
    reveal_with_fuel(leaves_all, 1);
}

/// The console shows of a suite what is left of it, by its names and with the outcomes of its
/// tests, whatever was started in their places.
pub proof fn law_suite_output<T, U>(
    kept: Tree<T>,
    running: Tree<U>,
    outcomes: Seq<Result<(), String>>,
)
    requires
        outline(running) == outline(kept),
        outcomes.len() == leaves(running),
        failures(outcomes) <= i32::MAX,
        successes(outcomes) <= i32::MAX,
    ensures
        output(Agenda::begin(script(running)), seq![], outcomes) == written_all(
            transcript(seq![], progress(kept, outcomes)),
        ),
{
    law_progress_outline(kept, outcomes);
    law_progress_outline(running, outcomes);
    law_whole_run(running, outcomes);
    law_output(Agenda::begin(script(running)), seq![], outcomes);
}

/// Where the number of its tests can be held, a suite can be run: neither the tests that are left
/// out nor, however they end, the others are too many to be counted.
pub proof fn law_countable<T, U>(tree: Tree<T>, filter: Seq<char>, running: Tree<U>)
    requires
        leaves(tree) <= i32::MAX,
        selected(tree, seq![], filter) matches Some(kept) && outline(running) == outline(kept),
    ensures
        filtered(tree, seq![], filter) <= i32::MAX,
        Agenda::begin(script(running)).fits(),
{
    let kept = selected(tree, seq![], filter)->0;
    let outcomes = Seq::new(leaves(running), |i: int| Ok::<(), ()>(()));
    law_selected_count(tree, seq![], filter);
    reveal_with_fuel(leaves_all, 2);
    assert(seq![kept].drop_last() =~= seq![]);
    law_progress_outline(kept, outcomes);
    law_progress_outline(running, outcomes);
    law_begin(running, outcomes);
}

} // verus!
