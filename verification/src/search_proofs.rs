//! Why the search is right: what holds of every state that it passes
//! through, and what follows for the predecessor map that it returns.

use crate::problem::ProblemView;
use crate::search_model::{
    expand, frontier_known, initial, lemma_expand_remaining, lemma_initial_remaining, no_parent,
    offer, offer_all, remaining, run, search_result, Outcome, SearchState,
};
use crate::shortest_path::{
    before, distance, lemma_distance_before, lemma_distance_start, lemma_distance_step, reachable,
    reaches,
};
use vstd::prelude::*;

verus! {

/// What the theorems about the search ask of a problem: it is well formed, every
/// node is stored under the key of its position, and the node map is finite.
pub open spec fn sound(problem: ProblemView) -> bool {
    &&& problem.wf()
    &&& problem.keyed_by_position()
    &&& problem.nodes.dom().finite()
}

/// Whether `parent` is a right predecessor for `key` among `members`: none
/// for the start, and for any other key a member that has `key` as a
/// neighbour and lies one step nearer to the start.
pub open spec fn is_parent(
    problem: ProblemView,
    members: Set<Seq<char>>,
    key: Seq<char>,
    parent: Seq<char>,
) -> bool {
    if key == problem.start {
        parent == no_parent()
    } else {
        &&& members.contains(parent)
        &&& problem.is_edge(parent, key)
        &&& distance(problem, key) == distance(problem, parent) + 1
    }
}

/// Whether `predecessors` is a tree of shortest ways: it holds the start,
/// and each of its keys is a node that can be reached and has a right
/// predecessor in the map.
pub open spec fn is_search_tree(
    problem: ProblemView,
    predecessors: Map<Seq<char>, Seq<char>>,
) -> bool {
    &&& predecessors.dom().finite()
    &&& predecessors.contains_key(problem.start)
    &&& forall|key: Seq<char>| #[trigger]
        predecessors.contains_key(key) ==> {
            &&& problem.nodes.contains_key(key)
            &&& reachable(problem, key)
            &&& is_parent(problem, predecessors.dom(), key, predecessors[key])
        }
}

/// Whether `key` waits on the frontier.
pub open spec fn on_frontier(state: SearchState, key: Seq<char>) -> bool {
    exists|i: int| 0 <= i < state.frontier.len() && (#[trigger] state.frontier[i]).0 == key
}

/// Whether `neighbour` is among the neighbours of `own` from index `done`
/// on.
pub open spec fn awaits(
    problem: ProblemView,
    own: Seq<char>,
    done: int,
    neighbour: Seq<char>,
) -> bool {
    exists|j: int|
        done <= j < problem.nodes[own].neighbours.len()
            && #[trigger] problem.nodes[own].neighbours[j] == neighbour
}

/// The books of a state are in order: the start was enqueued and the goal
/// was not, every enqueued key is a node that can be reached and is either
/// explored or on the frontier, and every recorded predecessor is right.
pub open spec fn bookkeeping(problem: ProblemView, state: SearchState) -> bool {
    &&& state.enqueued.contains(problem.start)
    &&& !state.enqueued.contains(problem.goal)
    &&& state.explored.dom().finite()
    &&& forall|key: Seq<char>| #[trigger]
        state.enqueued.contains(key) ==> {
            &&& problem.nodes.contains_key(key)
            &&& reachable(problem, key)
            &&& (state.explored.contains_key(key) || on_frontier(state, key))
        }
    &&& forall|key: Seq<char>| #[trigger]
        state.explored.contains_key(key) ==> {
            &&& state.enqueued.contains(key)
            &&& is_parent(problem, state.explored.dom(), key, state.explored[key])
        }
    &&& forall|i: int|
        0 <= i < state.frontier.len() ==> {
            &&& state.enqueued.contains((#[trigger] state.frontier[i]).0)
            &&& is_parent(
                problem,
                state.explored.dom(),
                state.frontier[i].0,
                state.frontier[i].1,
            )
        }
}

/// The state works on the keys at distance `level`: no explored key lies
/// farther, the frontier holds keys at this distance and then keys one step
/// farther, and every key that lies nearer is explored.
pub open spec fn levelled(problem: ProblemView, state: SearchState, level: nat) -> bool {
    &&& forall|key: Seq<char>| #[trigger]
        state.explored.contains_key(key) ==> distance(problem, key) <= level
    &&& forall|i: int|
        0 <= i < state.frontier.len() ==> level <= distance(
            problem,
            (#[trigger] state.frontier[i]).0,
        ) <= level + 1
    &&& forall|i: int, j: int|
        0 <= i <= j < state.frontier.len() ==> distance(problem, (#[trigger] state.frontier[i]).0)
            <= distance(problem, (#[trigger] state.frontier[j]).0)
    &&& forall|key: Seq<char>| #[trigger]
        reachable(problem, key) && distance(problem, key) < level ==> state.explored.contains_key(
            key,
        )
}

/// Every neighbour of an explored key was enqueued, but for the neighbours
/// of `own` from index `done` on.
pub open spec fn closed_except(
    problem: ProblemView,
    state: SearchState,
    own: Seq<char>,
    done: int,
) -> bool {
    forall|from: Seq<char>, to: Seq<char>|
        state.explored.contains_key(from) && #[trigger] problem.is_edge(from, to)
            ==> state.enqueued.contains(to) || (from == own && awaits(problem, own, done, to))
}

/// Every neighbour of an explored key was enqueued.
pub open spec fn closed(problem: ProblemView, state: SearchState) -> bool {
    forall|from: Seq<char>, to: Seq<char>|
        state.explored.contains_key(from) && #[trigger] problem.is_edge(from, to)
            ==> state.enqueued.contains(to)
}

/// What holds of a state between two expansions.
pub open spec fn settled(problem: ProblemView, state: SearchState) -> bool {
    &&& bookkeeping(problem, state)
    &&& closed(problem, state)
    &&& state.frontier.len() > 0 ==> levelled(
        problem,
        state,
        distance(problem, state.frontier[0].0),
    )
    &&& state.explored.contains_key(problem.start) || (state.frontier.len() > 0
        && state.frontier[0].0 == problem.start)
}

/// What holds of a state while `own` is expanded and `done` of its
/// neighbours have been looked at.
pub open spec fn expanding(
    problem: ProblemView,
    state: SearchState,
    own: Seq<char>,
    done: int,
) -> bool {
    &&& bookkeeping(problem, state)
    &&& state.explored.contains_key(own)
    &&& state.explored.contains_key(problem.start)
    &&& 0 <= done <= problem.nodes[own].neighbours.len()
    &&& levelled(problem, state, distance(problem, own))
    &&& closed_except(problem, state, own, done)
}

/// A predecessor stays right when the members become more.
proof fn lemma_is_parent_grows(
    problem: ProblemView,
    fewer: Set<Seq<char>>,
    more: Set<Seq<char>>,
    key: Seq<char>,
    parent: Seq<char>,
)
    requires
        is_parent(problem, fewer, key, parent),
        fewer.subset_of(more),
    ensures
        is_parent(problem, more, key, parent),
{
}

/// The state in which a search begins is settled.
proof fn lemma_initial_settled(problem: ProblemView)
    requires
        sound(problem),
        problem.start != problem.goal,
    ensures
        settled(problem, initial(problem)),
{
    let state = initial(problem);
    lemma_distance_start(problem);
    assert(state.frontier[0] == (problem.start, no_parent()));
    assert(on_frontier(state, problem.start));
}

/// The state after the oldest entry was taken off the frontier and its
/// predecessor was recorded.
pub open spec fn popped(state: SearchState) -> SearchState {
    SearchState {
        frontier: state.frontier.drop_first(),
        enqueued: state.enqueued,
        explored: state.explored.insert(state.frontier[0].0, state.frontier[0].1),
    }
}

/// Taking an entry off the frontier keeps the books in order.
proof fn lemma_pop_bookkeeping(problem: ProblemView, state: SearchState)
    requires
        bookkeeping(problem, state),
        state.frontier.len() > 0,
    ensures
        bookkeeping(problem, popped(state)),
{
    let own = state.frontier[0].0;
    let parent = state.frontier[0].1;
    let next = popped(state);
    assert(state.explored.dom().subset_of(next.explored.dom()));
    assert forall|key: Seq<char>| #[trigger] next.enqueued.contains(key) implies {
        &&& problem.nodes.contains_key(key)
        &&& reachable(problem, key)
        &&& (next.explored.contains_key(key) || on_frontier(next, key))
    } by {
        if !state.explored.contains_key(key) && key != own {
            let i = choose|i: int|
                0 <= i < state.frontier.len() && (#[trigger] state.frontier[i]).0 == key;
            assert(next.frontier[i - 1] == state.frontier[i]);
        }
    }
    assert forall|key: Seq<char>| #[trigger] next.explored.contains_key(key) implies {
        &&& next.enqueued.contains(key)
        &&& is_parent(problem, next.explored.dom(), key, next.explored[key])
    } by {
        if key == own {
            assert(state.enqueued.contains(state.frontier[0].0));
            lemma_is_parent_grows(problem, state.explored.dom(), next.explored.dom(), own, parent);
        } else {
            lemma_is_parent_grows(
                problem,
                state.explored.dom(),
                next.explored.dom(),
                key,
                state.explored[key],
            );
        }
    }
    assert forall|i: int| 0 <= i < next.frontier.len() implies {
        &&& next.enqueued.contains((#[trigger] next.frontier[i]).0)
        &&& is_parent(problem, next.explored.dom(), next.frontier[i].0, next.frontier[i].1)
    } by {
        assert(next.frontier[i] == state.frontier[i + 1]);
        lemma_is_parent_grows(
            problem,
            state.explored.dom(),
            next.explored.dom(),
            state.frontier[i + 1].0,
            state.frontier[i + 1].1,
        );
    }
}

/// Taking the oldest entry off the frontier keeps the level.
proof fn lemma_pop_levelled(problem: ProblemView, state: SearchState)
    requires
        state.frontier.len() > 0,
        levelled(problem, state, distance(problem, state.frontier[0].0)),
    ensures
        levelled(problem, popped(state), distance(problem, state.frontier[0].0)),
{
    let level = distance(problem, state.frontier[0].0);
    let next = popped(state);
    assert forall|i: int| 0 <= i < next.frontier.len() implies level <= distance(
        problem,
        (#[trigger] next.frontier[i]).0,
    ) <= level + 1 by {
        assert(next.frontier[i] == state.frontier[i + 1]);
    }
    assert forall|i: int, j: int| 0 <= i <= j < next.frontier.len() implies distance(
        problem,
        (#[trigger] next.frontier[i]).0,
    ) <= distance(problem, (#[trigger] next.frontier[j]).0) by {
        assert(next.frontier[i] == state.frontier[i + 1]);
        assert(next.frontier[j] == state.frontier[j + 1]);
    }
}

/// After an entry was taken off the frontier, only its own neighbours may
/// be missing among the enqueued keys.
proof fn lemma_pop_closed(problem: ProblemView, state: SearchState)
    requires
        closed(problem, state),
        state.frontier.len() > 0,
    ensures
        closed_except(problem, popped(state), state.frontier[0].0, 0),
{
    let own = state.frontier[0].0;
    let next = popped(state);
    assert forall|from: Seq<char>, to: Seq<char>|
        next.explored.contains_key(from) && #[trigger] problem.is_edge(
            from,
            to,
        ) implies next.enqueued.contains(to) || (from == own && awaits(problem, own, 0, to)) by {
        if !state.explored.contains_key(from) {
            let j = choose|j: int|
                0 <= j < problem.nodes[own].neighbours.len() && problem.nodes[own].neighbours[j]
                    == to;
            assert(problem.nodes[own].neighbours[j] == to);
        }
    }
}

/// Taking the oldest entry off the frontier and recording its predecessor
/// leads from a settled state to the expansion of that entry.
proof fn lemma_pop(problem: ProblemView, state: SearchState)
    requires
        settled(problem, state),
        state.frontier.len() > 0,
    ensures
        expanding(problem, popped(state), state.frontier[0].0, 0),
{
    lemma_pop_bookkeeping(problem, state);
    lemma_pop_levelled(problem, state);
    lemma_pop_closed(problem, state);
}

/// Looking at one neighbour during an expansion either ends the search
/// with a tree of shortest ways that holds the goal, or leads on to the
/// next neighbour.
proof fn lemma_offer(problem: ProblemView, state: SearchState, own: Seq<char>, done: int)
    requires
        sound(problem),
        problem.start != problem.goal,
        expanding(problem, state, own, done),
        done < problem.nodes[own].neighbours.len(),
    ensures
        match offer(state, problem.goal, own, problem.nodes[own].neighbours[done]) {
            Outcome::Found(predecessors) => is_search_tree(problem, predecessors)
                && predecessors.contains_key(problem.goal),
            Outcome::Pending(next) => expanding(problem, next, own, done + 1),
        },
{
    let neighbour = problem.nodes[own].neighbours[done];
    let level = distance(problem, own);
    assert(problem.is_edge(own, neighbour));
    assert(state.enqueued.contains(own));
    if state.explored.contains_key(neighbour) || state.enqueued.contains(neighbour) {
        assert(state.enqueued.contains(neighbour));
        lemma_closed_moves_on(problem, state, state, own, done);
    } else {
        lemma_distance_step(problem, own, neighbour);
        assert(distance(problem, neighbour) == level + 1) by {
            if distance(problem, neighbour) <= level {
                lemma_distance_before(problem, neighbour);
                let via = before(problem, neighbour);
                assert(reachable(problem, via));
                assert(state.explored.contains_key(via));
                assert(problem.is_edge(via, neighbour));
            }
        }
        if neighbour == problem.goal {
            let predecessors = state.explored.insert(problem.goal, own);
            assert(state.explored.dom().subset_of(predecessors.dom()));
            assert forall|key: Seq<char>| #[trigger] predecessors.contains_key(key) implies {
                &&& problem.nodes.contains_key(key)
                &&& reachable(problem, key)
                &&& is_parent(problem, predecessors.dom(), key, predecessors[key])
            } by {
                if key != problem.goal {
                    assert(state.explored.contains_key(key));
                    assert(state.enqueued.contains(key));
                    lemma_is_parent_grows(
                        problem,
                        state.explored.dom(),
                        predecessors.dom(),
                        key,
                        state.explored[key],
                    );
                }
            }
        } else {
            let next = SearchState {
                frontier: state.frontier.push((neighbour, own)),
                enqueued: state.enqueued.insert(neighbour),
                explored: state.explored,
            };
            let last = state.frontier.len() as int;
            assert(next.frontier[last] == (neighbour, own));
            assert forall|i: int|
                0 <= i < state.frontier.len() implies (#[trigger] next.frontier[i])
                == state.frontier[i] by {}
            assert(bookkeeping(problem, next)) by {
                assert forall|key: Seq<char>| #[trigger] next.enqueued.contains(key) implies {
                    &&& problem.nodes.contains_key(key)
                    &&& reachable(problem, key)
                    &&& (next.explored.contains_key(key) || on_frontier(next, key))
                } by {
                    if key == neighbour {
                        assert(next.frontier[last].0 == key);
                    } else if !state.explored.contains_key(key) {
                        assert(state.enqueued.contains(key));
                        let i = choose|i: int|
                            0 <= i < state.frontier.len() && (#[trigger] state.frontier[i]).0
                                == key;
                        assert(next.frontier[i].0 == key);
                    }
                }
                assert forall|i: int| 0 <= i < next.frontier.len() implies {
                    &&& next.enqueued.contains((#[trigger] next.frontier[i]).0)
                    &&& is_parent(
                        problem,
                        next.explored.dom(),
                        next.frontier[i].0,
                        next.frontier[i].1,
                    )
                } by {
                    if i < last {
                        assert(next.frontier[i] == state.frontier[i]);
                    }
                }
            }
            assert(levelled(problem, next, level)) by {
                assert forall|i: int| 0 <= i < next.frontier.len() implies level <= distance(
                    problem,
                    (#[trigger] next.frontier[i]).0,
                ) <= level + 1 by {
                    if i < last {
                        assert(next.frontier[i] == state.frontier[i]);
                    }
                }
                assert forall|i: int, j: int| 0 <= i <= j < next.frontier.len() implies distance(
                    problem,
                    (#[trigger] next.frontier[i]).0,
                ) <= distance(problem, (#[trigger] next.frontier[j]).0) by {
                    if i < last {
                        assert(next.frontier[i] == state.frontier[i]);
                    }
                    if j < last {
                        assert(next.frontier[j] == state.frontier[j]);
                    }
                }
            }
            lemma_closed_moves_on(problem, state, next, own, done);
        }
    }
}

/// Once the neighbour at index `done` is enqueued, the neighbours of `own`
/// that still wait begin one index later.
proof fn lemma_closed_moves_on(
    problem: ProblemView,
    state: SearchState,
    next: SearchState,
    own: Seq<char>,
    done: int,
)
    requires
        closed_except(problem, state, own, done),
        0 <= done < problem.nodes[own].neighbours.len(),
        next.explored == state.explored,
        state.enqueued.subset_of(next.enqueued),
        next.enqueued.contains(problem.nodes[own].neighbours[done]),
    ensures
        closed_except(problem, next, own, done + 1),
{
    assert forall|from: Seq<char>, to: Seq<char>|
        next.explored.contains_key(from) && #[trigger] problem.is_edge(
            from,
            to,
        ) implies next.enqueued.contains(to) || (from == own && awaits(
        problem,
        own,
        done + 1,
        to,
    )) by {
        if !state.enqueued.contains(to) {
            let j = choose|j: int|
                done <= j < problem.nodes[own].neighbours.len()
                    && #[trigger] problem.nodes[own].neighbours[j] == to;
            if j > done {
                assert(awaits(problem, own, done + 1, to));
            }
        }
    }
}

/// Looking at the neighbours that are left either ends the search with a
/// tree of shortest ways that holds the goal, or completes the expansion.
proof fn lemma_offer_all(problem: ProblemView, state: SearchState, own: Seq<char>, done: int)
    requires
        sound(problem),
        problem.start != problem.goal,
        expanding(problem, state, own, done),
    ensures
        match offer_all(state, problem.goal, own, problem.nodes[own].neighbours, done) {
            Outcome::Found(predecessors) => is_search_tree(problem, predecessors)
                && predecessors.contains_key(problem.goal),
            Outcome::Pending(next) => expanding(
                problem,
                next,
                own,
                problem.nodes[own].neighbours.len() as int,
            ),
        },
    decreases problem.nodes[own].neighbours.len() - done,
{
    if done < problem.nodes[own].neighbours.len() {
        lemma_offer(problem, state, own, done);
        match offer(state, problem.goal, own, problem.nodes[own].neighbours[done]) {
            Outcome::Found(_) => {},
            Outcome::Pending(next) => {
                lemma_offer_all(problem, next, own, done + 1);
            },
        }
    }
}

/// A state in which an expansion is complete is settled.
proof fn lemma_finish(problem: ProblemView, state: SearchState, own: Seq<char>)
    requires
        sound(problem),
        problem.start != problem.goal,
        expanding(problem, state, own, problem.nodes[own].neighbours.len() as int),
    ensures
        settled(problem, state),
{
    let level = distance(problem, own);
    assert(closed(problem, state)) by {
        assert forall|from: Seq<char>, to: Seq<char>|
            state.explored.contains_key(from) && #[trigger] problem.is_edge(
                from,
                to,
            ) implies state.enqueued.contains(to) by {
            if !state.enqueued.contains(to) {
                assert(awaits(problem, own, problem.nodes[own].neighbours.len() as int, to));
            }
        }
    }
    if state.frontier.len() > 0 {
        let front = distance(problem, state.frontier[0].0);
        assert(level <= front <= level + 1);
        assert(levelled(problem, state, front)) by {
            assert forall|i: int| 0 <= i < state.frontier.len() implies front <= distance(
                problem,
                (#[trigger] state.frontier[i]).0,
            ) <= front + 1 by {
                assert(distance(problem, state.frontier[0].0) <= distance(
                    problem,
                    state.frontier[i].0,
                ));
            }
            assert forall|key: Seq<char>| #[trigger]
                reachable(problem, key) && distance(problem, key)
                    < front implies state.explored.contains_key(key) by {
                if distance(problem, key) == level && key != problem.start {
                    lemma_distance_before(problem, key);
                    let via = before(problem, key);
                    assert(reachable(problem, via));
                    assert(state.explored.contains_key(via));
                    assert(problem.is_edge(via, key));
                    assert(state.enqueued.contains(key));
                    if !state.explored.contains_key(key) {
                        let i = choose|i: int|
                            0 <= i < state.frontier.len() && (#[trigger] state.frontier[i]).0
                                == key;
                        assert(distance(problem, state.frontier[0].0) <= distance(
                            problem,
                            state.frontier[i].0,
                        ));
                    }
                }
            }
        }
    }
}

/// Expanding the oldest entry of a settled state either ends the search
/// with a tree of shortest ways that holds the goal, or leads to a settled
/// state.
proof fn lemma_expand(problem: ProblemView, state: SearchState)
    requires
        sound(problem),
        problem.start != problem.goal,
        settled(problem, state),
        state.frontier.len() > 0,
    ensures
        match expand(problem, state) {
            Outcome::Found(predecessors) => is_search_tree(problem, predecessors)
                && predecessors.contains_key(problem.goal),
            Outcome::Pending(next) => settled(problem, next),
        },
{
    let own = state.frontier[0].0;
    assert(state.enqueued.contains(state.frontier[0].0));
    assert(problem.nodes.contains_key(own));
    assert(problem.nodes[own].position.key() == own);
    lemma_pop(problem, state);
    lemma_offer_all(problem, popped(state), own, 0);
    match offer_all(popped(state), problem.goal, own, problem.nodes[own].neighbours, 0) {
        Outcome::Found(_) => {},
        Outcome::Pending(next) => {
            lemma_finish(problem, next, own);
        },
    }
}

/// In a settled state with an empty frontier every key that can be reached
/// is explored.
proof fn lemma_all_explored(problem: ProblemView, state: SearchState, key: Seq<char>, steps: nat)
    requires
        settled(problem, state),
        state.frontier.len() == 0,
        reaches(problem, key, steps),
    ensures
        state.explored.contains_key(key),
    decreases steps,
{
    if steps > 0 {
        let via = choose|via: Seq<char>|
            reaches(problem, via, (steps - 1) as nat) && #[trigger] problem.is_edge(via, key);
        lemma_all_explored(problem, state, via, (steps - 1) as nat);
        assert(problem.is_edge(via, key));
        assert(state.enqueued.contains(key));
    }
}

/// A run from a settled state ends with a tree of shortest ways that holds
/// the goal, or with nothing where the goal cannot be reached.
proof fn lemma_run(problem: ProblemView, state: SearchState, fuel: nat)
    requires
        sound(problem),
        problem.start != problem.goal,
        settled(problem, state),
        frontier_known(problem, state),
        remaining(problem, state) <= fuel,
    ensures
        match run(problem, state, fuel) {
            Some(predecessors) => is_search_tree(problem, predecessors)
                && predecessors.contains_key(problem.goal),
            None => !reachable(problem, problem.goal),
        },
    decreases fuel,
{
    if state.frontier.len() == 0 {
        if reachable(problem, problem.goal) {
            let steps = choose|steps: nat| reaches(problem, problem.goal, steps);
            lemma_all_explored(problem, state, problem.goal, steps);
            assert(state.enqueued.contains(problem.goal));
        }
    } else {
        lemma_expand(problem, state);
        lemma_expand_remaining(problem, state);
        match expand(problem, state) {
            Outcome::Found(_) => {},
            Outcome::Pending(next) => {
                lemma_run(problem, next, (fuel - 1) as nat);
            },
        }
    }
}

/// Whether the search of `problem` ends as it should: with a tree of
/// shortest ways that holds the goal, or with nothing where the goal cannot
/// be reached from the start.
pub open spec fn found_rightly(problem: ProblemView) -> bool {
    match search_result(problem) {
        Some(predecessors) => is_search_tree(problem, predecessors) && predecessors.contains_key(
            problem.goal,
        ),
        None => !reachable(problem, problem.goal),
    }
}

/// A search returns a tree of shortest ways that holds the goal, and it
/// returns nothing only where the goal cannot be reached from the start.
pub proof fn lemma_search_result(problem: ProblemView)
    requires
        sound(problem),
    ensures
        found_rightly(problem),
{
    if problem.start == problem.goal {
        lemma_distance_start(problem);
        let predecessors = map![problem.start => no_parent()];
        assert(predecessors.dom() =~= set![problem.start]);
    } else {
        lemma_initial_settled(problem);
        lemma_initial_remaining(problem);
        lemma_run(problem, initial(problem), problem.nodes.dom().len());
    }
}

/// A search returns a predecessor map exactly where the goal can be reached
/// from the start.
pub proof fn lemma_search_finds_what_can_be_reached(problem: ProblemView)
    requires
        sound(problem),
    ensures
        search_result(problem) is Some <==> reachable(problem, problem.goal),
{
    lemma_search_result(problem);
}

/// A run depends on nothing but the nodes and the goal.
proof fn lemma_run_is_determined(
    first: ProblemView,
    second: ProblemView,
    state: SearchState,
    fuel: nat,
)
    requires
        first.nodes == second.nodes,
        first.goal == second.goal,
    ensures
        run(first, state, fuel) == run(second, state, fuel),
    decreases fuel,
{
    if fuel > 0 && state.frontier.len() > 0 {
        assert(expand(first, state) == expand(second, state));
        match expand(first, state) {
            Outcome::Found(_) => {},
            Outcome::Pending(next) => {
                lemma_run_is_determined(first, second, next, (fuel - 1) as nat);
            },
        }
    }
}

/// The search is determined by the nodes, the start and the goal: two
/// problems that agree in these lead to the same predecessor map, however
/// often and wherever they are searched.
pub proof fn lemma_search_is_determined(first: ProblemView, second: ProblemView)
    requires
        first.nodes == second.nodes,
        first.start == second.start,
        first.goal == second.goal,
    ensures
        search_result(first) == search_result(second),
{
    if first.start != first.goal {
        assert(initial(first) == initial(second));
        lemma_run_is_determined(first, second, initial(first), first.nodes.dom().len());
    }
}

} // verus!
