//! Ways through the node map of a problem, and the distance from the start.

use crate::problem::ProblemView;
use vstd::prelude::*;

verus! {

/// Whether `key` can be reached from the start by exactly `steps` steps,
/// each from a node to one of its neighbours.
pub open spec fn reaches(problem: ProblemView, key: Seq<char>, steps: nat) -> bool
    decreases steps,
{
    if steps == 0 {
        key == problem.start
    } else {
        exists|via: Seq<char>|
            reaches(problem, via, (steps - 1) as nat) && #[trigger] problem.is_edge(via, key)
    }
}

/// Whether `key` can be reached from the start at all.
pub open spec fn reachable(problem: ProblemView, key: Seq<char>) -> bool {
    exists|steps: nat| reaches(problem, key, steps)
}

/// Whether `steps` is the least number of steps that lead from the start to
/// `key`.
pub open spec fn is_distance(problem: ProblemView, key: Seq<char>, steps: nat) -> bool {
    &&& reaches(problem, key, steps)
    &&& forall|fewer: nat| fewer < steps ==> !reaches(problem, key, fewer)
}

/// The distance of `key` from the start: the least number of steps that
/// lead there. It means something only for a key that can be reached.
pub open spec fn distance(problem: ProblemView, key: Seq<char>) -> nat {
    choose|steps: nat| is_distance(problem, key, steps)
}

/// Whether `path` is a way through the node map that begins at the start:
/// each of its keys but the first is a neighbour of the one before.
pub open spec fn is_path(problem: ProblemView, path: Seq<Seq<char>>) -> bool {
    &&& path.len() > 0
    &&& path[0] == problem.start
    &&& forall|i: int| 0 <= i < path.len() - 1 ==> problem.is_edge(#[trigger] path[i], path[i + 1])
}

/// A key that is reached by some number of steps has a distance, and the
/// distance is not larger than that number.
pub proof fn lemma_distance_least(problem: ProblemView, key: Seq<char>, steps: nat)
    requires
        reaches(problem, key, steps),
    ensures
        reachable(problem, key),
        is_distance(problem, key, distance(problem, key)),
        distance(problem, key) <= steps,
    decreases steps,
{
    if exists|fewer: nat| fewer < steps && reaches(problem, key, fewer) {
        let fewer = choose|fewer: nat| fewer < steps && reaches(problem, key, fewer);
        lemma_distance_least(problem, key, fewer);
    } else {
        assert(is_distance(problem, key, steps));
    }
}

/// A key that can be reached is reached by as many steps as its distance
/// says, and by no fewer.
pub proof fn lemma_distance(problem: ProblemView, key: Seq<char>)
    requires
        reachable(problem, key),
    ensures
        is_distance(problem, key, distance(problem, key)),
{
    let steps = choose|steps: nat| reaches(problem, key, steps);
    lemma_distance_least(problem, key, steps);
}

/// The start has distance zero, and it is the only key that has.
pub proof fn lemma_distance_start(problem: ProblemView)
    ensures
        reachable(problem, problem.start),
        distance(problem, problem.start) == 0,
        forall|key: Seq<char>|
            reachable(problem, key) && #[trigger] distance(problem, key) == 0 ==> key
                == problem.start,
{
    assert(reaches(problem, problem.start, 0));
    lemma_distance_least(problem, problem.start, 0);
    assert forall|key: Seq<char>|
        reachable(problem, key) && #[trigger] distance(problem, key) == 0 implies key
        == problem.start by {
        lemma_distance(problem, key);
    }
}

/// A neighbour of a key that can be reached can be reached too, by at most
/// one step more.
pub proof fn lemma_distance_step(problem: ProblemView, from: Seq<char>, to: Seq<char>)
    requires
        reachable(problem, from),
        problem.is_edge(from, to),
    ensures
        reachable(problem, to),
        distance(problem, to) <= distance(problem, from) + 1,
{
    lemma_distance(problem, from);
    let steps = distance(problem, from);
    assert(reaches(problem, to, steps + 1));
    lemma_distance_least(problem, to, steps + 1);
}

/// The key before `key` on a shortest way from the start: a key that can be
/// reached by one step less and that has `key` as a neighbour.
pub open spec fn before(problem: ProblemView, key: Seq<char>) -> Seq<char> {
    choose|via: Seq<char>|
        reaches(problem, via, (distance(problem, key) - 1) as nat) && #[trigger] problem.is_edge(
            via,
            key,
        )
}

/// Every key that can be reached, but the start, has a neighbour-giving key
/// one step nearer to the start.
pub proof fn lemma_distance_before(problem: ProblemView, key: Seq<char>)
    requires
        reachable(problem, key),
        key != problem.start,
    ensures
        distance(problem, key) > 0,
        reachable(problem, before(problem, key)),
        problem.is_edge(before(problem, key), key),
        distance(problem, before(problem, key)) + 1 == distance(problem, key),
{
    lemma_distance(problem, key);
    let steps = distance(problem, key);
    assert(steps > 0);
    let via = before(problem, key);
    assert(reaches(problem, via, (steps - 1) as nat) && problem.is_edge(via, key));
    lemma_distance_least(problem, via, (steps - 1) as nat);
    lemma_distance_step(problem, via, key);
}

/// A way of `n` keys reaches its last key by `n - 1` steps.
pub proof fn lemma_path_reaches(problem: ProblemView, path: Seq<Seq<char>>)
    requires
        is_path(problem, path),
    ensures
        reaches(problem, path.last(), (path.len() - 1) as nat),
        reachable(problem, path.last()),
        distance(problem, path.last()) + 1 <= path.len(),
    decreases path.len(),
{
    if path.len() > 1 {
        let shorter = path.drop_last();
        assert(is_path(problem, shorter)) by {
            assert forall|i: int| 0 <= i < shorter.len() - 1 implies problem.is_edge(
                #[trigger] shorter[i],
                shorter[i + 1],
            ) by {
                assert(shorter[i] == path[i]);
                assert(shorter[i + 1] == path[i + 1]);
            }
        }
        lemma_path_reaches(problem, shorter);
        assert(shorter.last() == path[path.len() - 2]);
        assert(problem.is_edge(path[path.len() - 2], path[path.len() - 2 + 1]));
    }
    lemma_distance_least(problem, path.last(), (path.len() - 1) as nat);
}

} // verus!
