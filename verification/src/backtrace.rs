//! The way back from the goal along a predecessor map, and the mask of the
//! grid cells that lie on it.

use crate::graph::Graph;
use crate::problem::ProblemView;
use vstd::prelude::*;

verus! {

/// The key that is reached from `key` by `steps` steps along the
/// predecessors.
pub open spec fn ancestor(
    predecessors: Map<Seq<char>, Seq<char>>,
    key: Seq<char>,
    steps: nat,
) -> Seq<char>
    decreases steps,
{
    if steps == 0 {
        key
    } else {
        predecessors[ancestor(predecessors, key, (steps - 1) as nat)]
    }
}

/// Whether the way back from `key` is at least `steps` steps long: each of
/// the keys before that step has a predecessor.
pub open spec fn walks(
    predecessors: Map<Seq<char>, Seq<char>>,
    key: Seq<char>,
    steps: nat,
) -> bool {
    forall|earlier: nat|
        earlier < steps ==> predecessors.contains_key(
            #[trigger] ancestor(predecessors, key, earlier),
        )
}

/// Whether the way back from the goal comes, after exactly `steps` steps, to
/// a node that lies at `index` of the grid.
pub open spec fn visits(
    predecessors: Map<Seq<char>, Seq<char>>,
    problem: ProblemView,
    graph: &Graph,
    steps: nat,
    index: int,
) -> bool {
    let key = ancestor(predecessors, problem.goal, steps);
    &&& walks(predecessors, problem.goal, steps)
    &&& problem.nodes.contains_key(key)
    &&& graph.spec_index(problem.nodes[key].position) == index
}

/// Whether the way back from the goal comes to the cell at `index` within
/// `limit` steps.
pub open spec fn on_path(
    predecessors: Map<Seq<char>, Seq<char>>,
    problem: ProblemView,
    graph: &Graph,
    limit: nat,
    index: int,
) -> bool {
    exists|steps: nat|
        steps <= limit && #[trigger] visits(predecessors, problem, graph, steps, index)
}

/// The mask of the way back from the goal: one byte for each cell of the
/// grid, `1` where the way comes to the cell and `0` elsewhere. The way is
/// followed for as many steps as the map has keys; a longer way would come
/// to a key a second time.
pub open spec fn path_mask(
    predecessors: Map<Seq<char>, Seq<char>>,
    problem: ProblemView,
    graph: &Graph,
) -> Seq<u8> {
    Seq::new(
        graph.size as nat,
        |index: int|
            if on_path(predecessors, problem, graph, predecessors.len(), index) {
                1u8
            } else {
                0u8
            },
    )
}

/// Whether every node on the way back from the goal has a place in a mask
/// of `graph.size` cells.
pub open spec fn path_fits(
    predecessors: Map<Seq<char>, Seq<char>>,
    problem: ProblemView,
    graph: &Graph,
) -> bool {
    forall|steps: nat, index: int|
        steps <= predecessors.len() && #[trigger] visits(predecessors, problem, graph, steps, index)
            ==> 0 <= index < graph.size
}

/// One more step adds the cell that this step comes to, and no other.
pub proof fn lemma_on_path_step(
    predecessors: Map<Seq<char>, Seq<char>>,
    problem: ProblemView,
    graph: &Graph,
    limit: nat,
    index: int,
)
    ensures
        on_path(predecessors, problem, graph, limit + 1, index) <==> on_path(
            predecessors,
            problem,
            graph,
            limit,
            index,
        ) || visits(predecessors, problem, graph, limit + 1, index),
        on_path(predecessors, problem, graph, 0, index) <==> visits(
            predecessors,
            problem,
            graph,
            0,
            index,
        ),
{
    if on_path(predecessors, problem, graph, limit + 1, index) {
        let steps = choose|steps: nat|
            steps <= limit + 1 && #[trigger] visits(predecessors, problem, graph, steps, index);
        if steps <= limit {
            assert(on_path(predecessors, problem, graph, limit, index));
        }
    }
    if on_path(predecessors, problem, graph, limit, index) {
        let steps = choose|steps: nat|
            steps <= limit && #[trigger] visits(predecessors, problem, graph, steps, index);
        assert(steps <= limit + 1);
    }
    if on_path(predecessors, problem, graph, 0, index) {
        let steps = choose|steps: nat|
            steps <= 0 && #[trigger] visits(predecessors, problem, graph, steps, index);
        assert(steps == 0);
    }
}

/// Where the way back ends after `end` steps, a higher limit adds nothing.
pub proof fn lemma_on_path_end(
    predecessors: Map<Seq<char>, Seq<char>>,
    problem: ProblemView,
    graph: &Graph,
    end: nat,
    limit: nat,
    index: int,
)
    requires
        end <= limit,
        !predecessors.contains_key(ancestor(predecessors, problem.goal, end)),
    ensures
        on_path(predecessors, problem, graph, limit, index) <==> on_path(
            predecessors,
            problem,
            graph,
            end,
            index,
        ),
{
    if on_path(predecessors, problem, graph, limit, index) {
        let steps = choose|steps: nat|
            steps <= limit && #[trigger] visits(predecessors, problem, graph, steps, index);
        if steps > end {
            assert(predecessors.contains_key(ancestor(predecessors, problem.goal, end)));
        }
        assert(steps <= end);
    }
    if on_path(predecessors, problem, graph, end, index) {
        let steps = choose|steps: nat|
            steps <= end && #[trigger] visits(predecessors, problem, graph, steps, index);
        assert(steps <= limit);
    }
}

/// The mask is determined by the predecessors, the nodes, the goal and the
/// grid: two problems that agree in nodes and goal have the same mask.
pub proof fn lemma_mask_is_determined(
    predecessors: Map<Seq<char>, Seq<char>>,
    first: ProblemView,
    second: ProblemView,
    graph: &Graph,
)
    requires
        first.nodes == second.nodes,
        first.goal == second.goal,
    ensures
        path_mask(predecessors, first, graph) == path_mask(predecessors, second, graph),
{
    assert forall|index: int| 0 <= index < graph.size implies path_mask(
        predecessors,
        first,
        graph,
    )[index] == path_mask(predecessors, second, graph)[index] by {
        let limit = predecessors.len();
        if on_path(predecessors, first, graph, limit, index) {
            let steps = choose|steps: nat|
                steps <= limit && #[trigger] visits(predecessors, first, graph, steps, index);
            assert(visits(predecessors, second, graph, steps, index));
        }
        if on_path(predecessors, second, graph, limit, index) {
            let steps = choose|steps: nat|
                steps <= limit && #[trigger] visits(predecessors, second, graph, steps, index);
            assert(visits(predecessors, first, graph, steps, index));
        }
    }
    assert(path_mask(predecessors, first, graph) =~= path_mask(predecessors, second, graph));
}

} // verus!
