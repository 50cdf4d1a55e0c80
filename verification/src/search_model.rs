//! The search as a mathematical state machine.
//!
//! A state holds the frontier, the set of keys that were ever put on the
//! frontier, and the predecessors of the keys explored so far. The functions
//! below say, step by step, what one search does to such a state.

use crate::problem::ProblemView;
use vstd::prelude::*;

verus! {

/// The state of a search.
pub struct SearchState {
    /// The keys that wait to be expanded, each with the key of the node
    /// from which it was reached, oldest first.
    pub frontier: Seq<(Seq<char>, Seq<char>)>,
    /// The keys that were put on the frontier at some time.
    pub enqueued: Set<Seq<char>>,
    /// The explored keys, each with its predecessor.
    pub explored: Map<Seq<char>, Seq<char>>,
}

/// What a part of a search leads to: the goal was reached, and this is the
/// predecessor map, or the search goes on from a new state.
pub enum Outcome {
    Found(Map<Seq<char>, Seq<char>>),
    Pending(SearchState),
}

/// The key that stands for "no predecessor".
pub open spec fn no_parent() -> Seq<char> {
    Seq::empty()
}

/// Looks at one neighbour of the node `parent`. A neighbour that is explored
/// or was enqueued before is passed over. The goal ends the search, with
/// `parent` as its predecessor. Any other neighbour joins the frontier.
pub open spec fn offer(
    state: SearchState,
    goal: Seq<char>,
    parent: Seq<char>,
    neighbour: Seq<char>,
) -> Outcome {
    if state.explored.contains_key(neighbour) || state.enqueued.contains(neighbour) {
        Outcome::Pending(state)
    } else if neighbour == goal {
        Outcome::Found(state.explored.insert(goal, parent))
    } else {
        Outcome::Pending(
            SearchState {
                frontier: state.frontier.push((neighbour, parent)),
                enqueued: state.enqueued.insert(neighbour),
                explored: state.explored,
            },
        )
    }
}

/// Looks at the neighbours from index `from` on, in their order, and stops
/// at the first that ends the search.
pub open spec fn offer_all(
    state: SearchState,
    goal: Seq<char>,
    parent: Seq<char>,
    neighbours: Seq<Seq<char>>,
    from: int,
) -> Outcome
    decreases neighbours.len() - from,
{
    if 0 <= from < neighbours.len() {
        match offer(state, goal, parent, neighbours[from]) {
            Outcome::Found(explored) => Outcome::Found(explored),
            Outcome::Pending(next) => offer_all(next, goal, parent, neighbours, from + 1),
        }
    } else {
        Outcome::Pending(state)
    }
}

/// Explores the node stored under `key`, which was reached from `parent`:
/// records the predecessor under the key of the node's position, then looks
/// at all its neighbours.
pub open spec fn visit(
    problem: ProblemView,
    state: SearchState,
    key: Seq<char>,
    parent: Seq<char>,
) -> Outcome {
    let node = problem.nodes[key];
    let own = node.position.key();
    offer_all(
        SearchState {
            frontier: state.frontier,
            enqueued: state.enqueued,
            explored: state.explored.insert(own, parent),
        },
        problem.goal,
        own,
        node.neighbours,
        0,
    )
}

/// Takes the oldest entry off the frontier and explores it.
pub open spec fn expand(problem: ProblemView, state: SearchState) -> Outcome {
    visit(
        problem,
        SearchState {
            frontier: state.frontier.drop_first(),
            enqueued: state.enqueued,
            explored: state.explored,
        },
        state.frontier[0].0,
        state.frontier[0].1,
    )
}

/// Expands entries until the goal is found or the frontier is empty, but at
/// most `fuel` of them.
pub open spec fn run(problem: ProblemView, state: SearchState, fuel: nat) -> Option<
    Map<Seq<char>, Seq<char>>,
>
    decreases fuel,
{
    if fuel == 0 || state.frontier.len() == 0 {
        None
    } else {
        match expand(problem, state) {
            Outcome::Found(explored) => Some(explored),
            Outcome::Pending(next) => run(problem, next, (fuel - 1) as nat),
        }
    }
}

/// The state in which a search begins: the start alone is on the frontier.
pub open spec fn initial(problem: ProblemView) -> SearchState {
    SearchState {
        frontier: seq![(problem.start, no_parent())],
        enqueued: set![problem.start],
        explored: Map::empty(),
    }
}

/// What a search returns. Where start and goal are the same key, this is
/// the map that holds the start alone. Otherwise the search expands as many
/// entries as it takes: no key is enqueued twice, so there are never more
/// than the node map has keys.
pub open spec fn search_result(problem: ProblemView) -> Option<Map<Seq<char>, Seq<char>>> {
    if problem.start == problem.goal {
        Some(map![problem.start => no_parent()])
    } else {
        run(problem, initial(problem), problem.nodes.dom().len())
    }
}

/// A bound on the number of entries that are still to be expanded: those on
/// the frontier and the keys that were never enqueued.
pub open spec fn remaining(problem: ProblemView, state: SearchState) -> nat {
    problem.nodes.dom().difference(state.enqueued).len() + state.frontier.len()
}

/// Every key on the frontier has a node.
pub open spec fn frontier_known(problem: ProblemView, state: SearchState) -> bool {
    forall|i: int|
        0 <= i < state.frontier.len() ==> problem.nodes.contains_key(
            (#[trigger] state.frontier[i]).0,
        )
}

/// Looking at neighbours that have nodes keeps the bound as it is.
pub proof fn lemma_offer_all_remaining(
    problem: ProblemView,
    state: SearchState,
    parent: Seq<char>,
    neighbours: Seq<Seq<char>>,
    from: int,
)
    requires
        problem.nodes.dom().finite(),
        frontier_known(problem, state),
        0 <= from,
        forall|j: int| from <= j < neighbours.len() ==> problem.nodes.contains_key(neighbours[j]),
    ensures
        offer_all(state, problem.goal, parent, neighbours, from) matches Outcome::Pending(next)
            ==> frontier_known(problem, next) && remaining(problem, next) == remaining(
            problem,
            state,
        ),
    decreases neighbours.len() - from,
{
    if from < neighbours.len() {
        let neighbour = neighbours[from];
        match offer(state, problem.goal, parent, neighbour) {
            Outcome::Found(_) => {},
            Outcome::Pending(next) => {
                if next != state {
                    assert(problem.nodes.dom().difference(next.enqueued)
                        =~= problem.nodes.dom().difference(state.enqueued).remove(neighbour));
                    assert(frontier_known(problem, next)) by {
                        assert forall|i: int|
                            0 <= i < next.frontier.len() implies problem.nodes.contains_key(
                            (#[trigger] next.frontier[i]).0,
                        ) by {
                            if i < state.frontier.len() {
                                assert(next.frontier[i] == state.frontier[i]);
                            }
                        }
                    }
                }
                lemma_offer_all_remaining(problem, next, parent, neighbours, from + 1);
            },
        }
    }
}

/// Expanding an entry lowers the bound by one.
pub proof fn lemma_expand_remaining(problem: ProblemView, state: SearchState)
    requires
        problem.wf(),
        problem.nodes.dom().finite(),
        frontier_known(problem, state),
        state.frontier.len() > 0,
    ensures
        expand(problem, state) matches Outcome::Pending(next) ==> frontier_known(problem, next)
            && remaining(problem, next) + 1 == remaining(problem, state),
{
    let key = state.frontier[0].0;
    let parent = state.frontier[0].1;
    let node = problem.nodes[key];
    let own = node.position.key();
    let popped = SearchState {
        frontier: state.frontier.drop_first(),
        enqueued: state.enqueued,
        explored: state.explored.insert(own, parent),
    };
    assert(frontier_known(problem, popped)) by {
        assert forall|i: int| 0 <= i < popped.frontier.len() implies problem.nodes.contains_key(
            (#[trigger] popped.frontier[i]).0,
        ) by {
            assert(popped.frontier[i] == state.frontier[i + 1]);
        }
    }
    assert forall|j: int| 0 <= j < node.neighbours.len() implies problem.nodes.contains_key(
        node.neighbours[j],
    ) by {
        assert(problem.is_edge(key, node.neighbours[j]));
    }
    lemma_offer_all_remaining(problem, popped, own, node.neighbours, 0);
}

/// At the beginning the bound is the number of keys in the node map.
pub proof fn lemma_initial_remaining(problem: ProblemView)
    requires
        problem.wf(),
        problem.nodes.dom().finite(),
    ensures
        frontier_known(problem, initial(problem)),
        remaining(problem, initial(problem)) == problem.nodes.dom().len(),
{
    assert(problem.nodes.dom().difference(set![problem.start]) =~= problem.nodes.dom().remove(
        problem.start,
    ));
}

} // verus!
