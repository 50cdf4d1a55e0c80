//! What holds of the way back through a tree of shortest ways, and of the
//! mask that marks it on the grid.

use crate::backtrace::{
    ancestor, lemma_on_path_end, lemma_on_path_step, on_path, path_fits, path_mask, visits, walks,
};
use crate::graph::{lemma_step_back, opposite, spec_step, Graph};
use crate::position::{lemma_decimal_digits, lemma_key_injective};
use crate::problem::ProblemView;
use crate::search_model::{no_parent, search_result};
use crate::search_proofs::{is_search_tree, lemma_search_result, sound};
use crate::shortest_path::{distance, is_path, lemma_distance_start, lemma_path_reaches};
use crate::tile::Tile;
use vstd::prelude::*;
use vstd::set_lib::lemma_len_subset;

verus! {

/// Every node of the problem lies within the grid.
pub open spec fn on_grid(problem: ProblemView, graph: &Graph) -> bool {
    forall|key: Seq<char>| #[trigger]
        problem.nodes.contains_key(key) ==> graph.contains(problem.nodes[key].position)
}

/// Every neighbour of a node lies one step away from it, in one of the four
/// directions.
pub open spec fn steps_only(problem: ProblemView) -> bool {
    forall|from: Seq<char>, to: Seq<char>| #[trigger]
        problem.is_edge(from, to) ==> problem.nodes.contains_key(to) && exists|direction: int|
            0 <= direction < 4 && #[trigger] spec_step(problem.nodes[from].position, direction)
                == Some(problem.nodes[to].position)
}

/// The number of cells that a mask marks.
pub open spec fn marked_count(mask: Seq<u8>) -> nat
    decreases mask.len(),
{
    if mask.len() == 0 {
        0
    } else {
        marked_count(mask.drop_last()) + if mask.last() == 1 {
            1nat
        } else {
            0nat
        }
    }
}

/// The way from the start to `key` through `predecessors`, as the sequence
/// of its keys: the way back from `key`, turned round.
pub open spec fn way(
    problem: ProblemView,
    predecessors: Map<Seq<char>, Seq<char>>,
    key: Seq<char>,
) -> Seq<Seq<char>> {
    Seq::new(
        distance(problem, key) + 1,
        |i: int| ancestor(predecessors, key, (distance(problem, key) - i) as nat),
    )
}

/// The place in the tile array of the node that the way back from the goal
/// comes to after `steps` steps.
pub open spec fn cell(
    problem: ProblemView,
    graph: &Graph,
    predecessors: Map<Seq<char>, Seq<char>>,
    steps: nat,
) -> int {
    graph.spec_index(problem.nodes[ancestor(predecessors, problem.goal, steps)].position)
}

/// A problem whose nodes are the node map of a well-formed grid is sound,
/// lies on the grid and has steps for edges.
pub proof fn lemma_grid_problem(graph: &Graph, filter: Set<Tile>, problem: ProblemView)
    requires
        graph.wf(),
        problem.nodes == graph.spec_nodes(filter),
        problem.nodes.contains_key(problem.start),
        problem.nodes.contains_key(problem.goal),
    ensures
        sound(problem),
        on_grid(problem, graph),
        steps_only(problem),
{
    graph.lemma_nodes_finite(filter);
    assert forall|key: Seq<char>| #[trigger] problem.nodes.contains_key(key) implies graph.contains(
        problem.nodes[key].position,
    ) && problem.nodes[key].position.key() == key by {
        graph.lemma_cell_of_node(filter, key);
    }
    assert forall|from: Seq<char>, to: Seq<char>| #[trigger]
        problem.is_edge(from, to) implies problem.nodes.contains_key(to) && exists|direction: int|
        0 <= direction < 4 && #[trigger] spec_step(problem.nodes[from].position, direction) == Some(
            problem.nodes[to].position,
        ) by {
        graph.lemma_cell_of_node(filter, from);
        let node = problem.nodes[from];
        let j = choose|j: int| 0 <= j < node.neighbours.len() && node.neighbours[j] == to;
        let neighbours = graph.spec_neighbours(node.position, filter);
        assert(node.neighbours[j] == neighbours[j].key());
        graph.lemma_neighbour(node.position, filter, j);
        graph.lemma_index_in_grid(neighbours[j]);
        let index = graph.spec_index(neighbours[j]);
        graph.lemma_node_of_cell(filter, index);
        assert(graph.key_at(index) == to);
        assert(problem.nodes[to].position == neighbours[j]);
    }
}

/// Where every node lies within a well-formed grid, every way back fits the
/// mask of that grid, whatever the predecessors are.
pub proof fn lemma_path_fits_on_grid(
    predecessors: Map<Seq<char>, Seq<char>>,
    problem: ProblemView,
    graph: &Graph,
)
    requires
        graph.wf(),
        on_grid(problem, graph),
    ensures
        path_fits(predecessors, problem, graph),
{
    assert forall|steps: nat, index: int|
        steps <= predecessors.len() && #[trigger] visits(
            predecessors,
            problem,
            graph,
            steps,
            index,
        ) implies 0 <= index < graph.size by {
        let key = ancestor(predecessors, problem.goal, steps);
        graph.lemma_index_in_grid(problem.nodes[key].position);
    }
}

/// No key of a tree of shortest ways is the key that stands for "no
/// predecessor".
pub proof fn lemma_no_parent_is_no_key(
    problem: ProblemView,
    predecessors: Map<Seq<char>, Seq<char>>,
)
    requires
        sound(problem),
    ensures
        !problem.nodes.contains_key(no_parent()),
        is_search_tree(problem, predecessors) ==> !predecessors.contains_key(no_parent()),
{
    if problem.nodes.contains_key(no_parent()) {
        let position = problem.nodes[no_parent()].position;
        lemma_decimal_digits(position.row as nat);
        assert(position.key().len() > 0);
    }
}

/// Each step back through a tree of shortest ways leads to a key of the
/// tree that lies one step nearer to the start.
pub proof fn lemma_ancestor(
    problem: ProblemView,
    predecessors: Map<Seq<char>, Seq<char>>,
    key: Seq<char>,
    steps: nat,
)
    requires
        is_search_tree(problem, predecessors),
        predecessors.contains_key(key),
        steps <= distance(problem, key),
    ensures
        predecessors.contains_key(ancestor(predecessors, key, steps)),
        distance(problem, ancestor(predecessors, key, steps)) + steps == distance(problem, key),
        walks(predecessors, key, steps + 1),
    decreases steps,
{
    if steps > 0 {
        lemma_ancestor(problem, predecessors, key, (steps - 1) as nat);
        lemma_distance_start(problem);
        let child = ancestor(predecessors, key, (steps - 1) as nat);
        assert(predecessors.contains_key(child));
        assert(child != problem.start);
    }
    assert forall|earlier: nat| earlier < steps + 1 implies predecessors.contains_key(
        #[trigger] ancestor(predecessors, key, earlier),
    ) by {
        if earlier < steps {
            assert(walks(predecessors, key, steps));
        }
    }
}

/// The way back from a key of a tree of shortest ways comes to the start
/// after as many steps as the distance of the key says, and ends there.
pub proof fn lemma_way_back_ends(
    problem: ProblemView,
    predecessors: Map<Seq<char>, Seq<char>>,
    key: Seq<char>,
)
    requires
        sound(problem),
        is_search_tree(problem, predecessors),
        predecessors.contains_key(key),
    ensures
        ancestor(predecessors, key, distance(problem, key)) == problem.start,
        ancestor(predecessors, key, distance(problem, key) + 1) == no_parent(),
        !predecessors.contains_key(ancestor(predecessors, key, distance(problem, key) + 1)),
{
    let steps = distance(problem, key);
    lemma_ancestor(problem, predecessors, key, steps);
    lemma_distance_start(problem);
    let last = ancestor(predecessors, key, steps);
    assert(predecessors.contains_key(last));
    assert(last == problem.start);
    lemma_no_parent_is_no_key(problem, predecessors);
}

/// The way from the start to a key of a tree of shortest ways is a way
/// through the node map, and no way from the start to that key is shorter.
pub proof fn lemma_way_is_shortest(
    problem: ProblemView,
    predecessors: Map<Seq<char>, Seq<char>>,
    key: Seq<char>,
)
    requires
        sound(problem),
        is_search_tree(problem, predecessors),
        predecessors.contains_key(key),
    ensures
        is_path(problem, way(problem, predecessors, key)),
        way(problem, predecessors, key).last() == key,
        way(problem, predecessors, key).len() == distance(problem, key) + 1,
        forall|other: Seq<Seq<char>>|
            is_path(problem, other) && other.last() == key ==> other.len() >= way(
                problem,
                predecessors,
                key,
            ).len(),
{
    let steps = distance(problem, key);
    let found = way(problem, predecessors, key);
    lemma_way_back_ends(problem, predecessors, key);
    lemma_distance_start(problem);
    assert forall|i: int| 0 <= i < found.len() - 1 implies problem.is_edge(
        #[trigger] found[i],
        found[i + 1],
    ) by {
        let child = ancestor(predecessors, key, (steps - i - 1) as nat);
        lemma_ancestor(problem, predecessors, key, (steps - i - 1) as nat);
        assert(predecessors.contains_key(child));
        assert(found[i + 1] == child);
        assert(found[i] == ancestor(predecessors, key, (steps - i) as nat));
        assert(found[i] == predecessors[child]);
    }
    assert forall|other: Seq<Seq<char>>|
        is_path(problem, other) && other.last() == key implies other.len() >= found.len() by {
        lemma_path_reaches(problem, other);
    }
}

/// A mask of zeros marks nothing.
pub proof fn lemma_count_zeros(size: nat)
    ensures
        marked_count(Seq::new(size, |i: int| 0u8)) == 0,
    decreases size,
{
    if size > 0 {
        lemma_count_zeros((size - 1) as nat);
        assert(Seq::new(size, |i: int| 0u8).drop_last() =~= Seq::new(
            (size - 1) as nat,
            |i: int| 0u8,
        ));
    }
}

/// Marking a cell that was not marked makes the marked cells one more.
pub proof fn lemma_count_update(mask: Seq<u8>, index: int)
    requires
        0 <= index < mask.len(),
        mask[index] != 1,
    ensures
        marked_count(mask.update(index, 1u8)) == marked_count(mask) + 1,
    decreases mask.len(),
{
    let marked = mask.update(index, 1u8);
    if index == mask.len() - 1 {
        assert(marked.drop_last() =~= mask.drop_last());
    } else {
        lemma_count_update(mask.drop_last(), index);
        assert(marked.drop_last() =~= mask.drop_last().update(index, 1u8));
    }
}

/// What the theorems about the mask ask: a sound problem on a well-formed grid,
/// and a tree of shortest ways that holds the goal.
pub open spec fn traced(
    problem: ProblemView,
    graph: &Graph,
    predecessors: Map<Seq<char>, Seq<char>>,
) -> bool {
    &&& sound(problem)
    &&& graph.wf()
    &&& on_grid(problem, graph)
    &&& is_search_tree(problem, predecessors)
    &&& predecessors.contains_key(problem.goal)
}

/// The keys on the way back from `key` up to the given step.
pub open spec fn way_keys(
    predecessors: Map<Seq<char>, Seq<char>>,
    key: Seq<char>,
    steps: nat,
) -> Set<Seq<char>>
    decreases steps,
{
    if steps == 0 {
        set![key]
    } else {
        way_keys(predecessors, key, (steps - 1) as nat).insert(ancestor(predecessors, key, steps))
    }
}

/// The keys on the way back are all different keys of the tree.
proof fn lemma_way_keys(
    problem: ProblemView,
    predecessors: Map<Seq<char>, Seq<char>>,
    key: Seq<char>,
    steps: nat,
)
    requires
        is_search_tree(problem, predecessors),
        predecessors.contains_key(key),
        steps <= distance(problem, key),
    ensures
        way_keys(predecessors, key, steps).finite(),
        way_keys(predecessors, key, steps).len() == steps + 1,
        way_keys(predecessors, key, steps).subset_of(predecessors.dom()),
        forall|other: Seq<char>| #[trigger]
            way_keys(predecessors, key, steps).contains(other) ==> distance(problem, other)
                + steps >= distance(problem, key),
    decreases steps,
{
    lemma_ancestor(problem, predecessors, key, steps);
    if steps > 0 {
        lemma_way_keys(problem, predecessors, key, (steps - 1) as nat);
        let earlier = way_keys(predecessors, key, (steps - 1) as nat);
        let next = ancestor(predecessors, key, steps);
        if earlier.contains(next) {
            assert(distance(problem, next) + (steps - 1) >= distance(problem, key));
        }
    }
}

/// A tree of shortest ways has more keys than the goal is steps away.
pub proof fn lemma_tree_size(problem: ProblemView, predecessors: Map<Seq<char>, Seq<char>>)
    requires
        is_search_tree(problem, predecessors),
        predecessors.contains_key(problem.goal),
    ensures
        distance(problem, problem.goal) < predecessors.len(),
{
    let steps = distance(problem, problem.goal);
    lemma_way_keys(problem, predecessors, problem.goal, steps);
    lemma_len_subset(way_keys(predecessors, problem.goal, steps), predecessors.dom());
}

/// The way back from the goal comes, at each of its steps, to a node within
/// the grid, and to a different cell at each step.
proof fn lemma_cells(
    problem: ProblemView,
    graph: &Graph,
    predecessors: Map<Seq<char>, Seq<char>>,
    steps: nat,
    other: nat,
)
    requires
        traced(problem, graph, predecessors),
        steps <= distance(problem, problem.goal),
        other <= distance(problem, problem.goal),
    ensures
        problem.nodes.contains_key(ancestor(predecessors, problem.goal, steps)),
        0 <= cell(problem, graph, predecessors, steps) < graph.size,
        graph.spec_position(cell(problem, graph, predecessors, steps))
            == problem.nodes[ancestor(predecessors, problem.goal, steps)].position,
        cell(problem, graph, predecessors, steps) == cell(problem, graph, predecessors, other)
            ==> steps == other,
{
    let a = ancestor(predecessors, problem.goal, steps);
    let b = ancestor(predecessors, problem.goal, other);
    lemma_ancestor(problem, predecessors, problem.goal, steps);
    lemma_ancestor(problem, predecessors, problem.goal, other);
    assert(predecessors.contains_key(a));
    assert(predecessors.contains_key(b));
    assert(problem.nodes.contains_key(a));
    assert(problem.nodes.contains_key(b));
    graph.lemma_index_in_grid(problem.nodes[a].position);
    graph.lemma_index_in_grid(problem.nodes[b].position);
    lemma_key_injective(problem.nodes[a].position, problem.nodes[b].position);
}

/// The way back from the goal visits a cell exactly where one of its first
/// steps, as many as the goal is steps away, comes to that cell.
proof fn lemma_visits(
    problem: ProblemView,
    graph: &Graph,
    predecessors: Map<Seq<char>, Seq<char>>,
    steps: nat,
    index: int,
)
    requires
        traced(problem, graph, predecessors),
    ensures
        visits(predecessors, problem, graph, steps, index) <==> steps <= distance(
            problem,
            problem.goal,
        ) && cell(problem, graph, predecessors, steps) == index,
{
    let away = distance(problem, problem.goal);
    if steps <= away {
        lemma_cells(problem, graph, predecessors, steps, steps);
        lemma_ancestor(problem, predecessors, problem.goal, steps);
    } else {
        lemma_way_back_ends(problem, predecessors, problem.goal);
        lemma_no_parent_is_no_key(problem, predecessors);
        if steps > away + 1 {
            if walks(predecessors, problem.goal, steps) {
                assert(predecessors.contains_key(
                    ancestor(predecessors, problem.goal, away + 1),
                ));
            }
        }
    }
}

/// The mask of the way back, followed for at most `limit` steps.
pub open spec fn marks(
    problem: ProblemView,
    graph: &Graph,
    predecessors: Map<Seq<char>, Seq<char>>,
    limit: nat,
) -> Seq<u8> {
    Seq::new(
        graph.size as nat,
        |index: int|
            if on_path(predecessors, problem, graph, limit, index) {
                1u8
            } else {
                0u8
            },
    )
}

/// Each step of the way back marks one cell more.
proof fn lemma_marks_count(
    problem: ProblemView,
    graph: &Graph,
    predecessors: Map<Seq<char>, Seq<char>>,
    limit: nat,
)
    requires
        traced(problem, graph, predecessors),
        limit <= distance(problem, problem.goal),
    ensures
        marked_count(marks(problem, graph, predecessors, limit)) == limit + 1,
    decreases limit,
{
    let here = cell(problem, graph, predecessors, limit);
    lemma_cells(problem, graph, predecessors, limit, limit);
    if limit == 0 {
        let zeros = Seq::new(graph.size as nat, |i: int| 0u8);
        lemma_count_zeros(graph.size as nat);
        lemma_count_update(zeros, here);
        assert(marks(problem, graph, predecessors, 0) =~= zeros.update(here, 1u8)) by {
            assert forall|index: int| 0 <= index < graph.size implies marks(
                problem,
                graph,
                predecessors,
                0,
            )[index] == zeros.update(here, 1u8)[index] by {
                lemma_on_path_step(predecessors, problem, graph, 0, index);
                lemma_visits(problem, graph, predecessors, 0, index);
            }
        }
    } else {
        let fewer = (limit - 1) as nat;
        let earlier = marks(problem, graph, predecessors, fewer);
        lemma_marks_count(problem, graph, predecessors, fewer);
        assert(earlier[here] != 1) by {
            if on_path(predecessors, problem, graph, fewer, here) {
                let steps = choose|steps: nat|
                    steps <= fewer && #[trigger] visits(predecessors, problem, graph, steps, here);
                lemma_visits(problem, graph, predecessors, steps, here);
                lemma_cells(problem, graph, predecessors, steps, limit);
            }
        }
        lemma_count_update(earlier, here);
        assert(marks(problem, graph, predecessors, limit) =~= earlier.update(here, 1u8)) by {
            assert forall|index: int| 0 <= index < graph.size implies marks(
                problem,
                graph,
                predecessors,
                limit,
            )[index] == earlier.update(here, 1u8)[index] by {
                lemma_on_path_step(predecessors, problem, graph, fewer, index);
                lemma_visits(problem, graph, predecessors, limit, index);
            }
        }
    }
}

/// The mask of a tree of shortest ways marks exactly the cells that the
/// way back from the goal comes to before it ends at the start.
proof fn lemma_mask_is_marks(
    problem: ProblemView,
    graph: &Graph,
    predecessors: Map<Seq<char>, Seq<char>>,
)
    requires
        traced(problem, graph, predecessors),
    ensures
        path_fits(predecessors, problem, graph),
        path_mask(predecessors, problem, graph) == marks(
            problem,
            graph,
            predecessors,
            distance(problem, problem.goal),
        ),
{
    let away = distance(problem, problem.goal);
    let limit = predecessors.len();
    lemma_tree_size(problem, predecessors);
    lemma_way_back_ends(problem, predecessors, problem.goal);
    lemma_path_fits_on_grid(predecessors, problem, graph);
    assert forall|index: int| 0 <= index < graph.size implies path_mask(
        predecessors,
        problem,
        graph,
    )[index] == marks(problem, graph, predecessors, away)[index] by {
        lemma_on_path_end(predecessors, problem, graph, away + 1, limit, index);
        lemma_on_path_step(predecessors, problem, graph, away, index);
        lemma_visits(problem, graph, predecessors, away + 1, index);
    }
    assert(path_mask(predecessors, problem, graph) =~= marks(problem, graph, predecessors, away));
}

/// The way back through a tree of shortest ways fits the mask, and the mask
/// marks one cell more than the goal is steps away from the start: the
/// number of keys on a shortest way, which no way from the start to the
/// goal goes below.
pub proof fn lemma_mask_counts_shortest_way(
    problem: ProblemView,
    graph: &Graph,
    predecessors: Map<Seq<char>, Seq<char>>,
)
    requires
        traced(problem, graph, predecessors),
    ensures
        path_fits(predecessors, problem, graph),
        marked_count(path_mask(predecessors, problem, graph)) == distance(problem, problem.goal)
            + 1,
        forall|other: Seq<Seq<char>>|
            is_path(problem, other) && other.last() == problem.goal ==> other.len()
                >= marked_count(path_mask(predecessors, problem, graph)),
{
    lemma_mask_is_marks(problem, graph, predecessors);
    lemma_marks_count(problem, graph, predecessors, distance(problem, problem.goal));
    lemma_way_is_shortest(problem, predecessors, problem.goal);
}

/// The mask of a tree of shortest ways marks the cell of the start and the
/// cell of the goal, and every marked cell but that of the start has a
/// marked cell one step away from it.
pub proof fn lemma_mask_is_connected(
    problem: ProblemView,
    graph: &Graph,
    predecessors: Map<Seq<char>, Seq<char>>,
)
    requires
        traced(problem, graph, predecessors),
        steps_only(problem),
    ensures
        0 <= graph.spec_index(problem.nodes[problem.start].position) < graph.size,
        0 <= graph.spec_index(problem.nodes[problem.goal].position) < graph.size,
        path_mask(predecessors, problem, graph)[graph.spec_index(
            problem.nodes[problem.start].position,
        )] == 1,
        path_mask(predecessors, problem, graph)[graph.spec_index(
            problem.nodes[problem.goal].position,
        )] == 1,
        forall|index: int|
            0 <= index < graph.size && #[trigger] path_mask(predecessors, problem, graph)[index]
                == 1 && index != graph.spec_index(problem.nodes[problem.start].position)
                ==> exists|direction: int|
                0 <= direction < 4 && {
                    let beside = #[trigger] spec_step(graph.spec_position(index), direction);
                    &&& beside is Some
                    &&& graph.contains(beside->0)
                    &&& path_mask(predecessors, problem, graph)[graph.spec_index(beside->0)] == 1
                },
{
    let away = distance(problem, problem.goal);
    let mask = path_mask(predecessors, problem, graph);
    lemma_mask_is_marks(problem, graph, predecessors);
    lemma_way_back_ends(problem, predecessors, problem.goal);
    lemma_cells(problem, graph, predecessors, 0, 0);
    lemma_cells(problem, graph, predecessors, away, away);
    lemma_visits(problem, graph, predecessors, 0, cell(problem, graph, predecessors, 0));
    lemma_visits(problem, graph, predecessors, away, cell(problem, graph, predecessors, away));
    assert(on_path(predecessors, problem, graph, away, cell(problem, graph, predecessors, 0)));
    assert(on_path(predecessors, problem, graph, away, cell(problem, graph, predecessors, away)));
    assert forall|index: int|
        0 <= index < graph.size && #[trigger] mask[index] == 1 && index != graph.spec_index(
            problem.nodes[problem.start].position,
        ) implies exists|direction: int|
        0 <= direction < 4 && {
            let beside = #[trigger] spec_step(graph.spec_position(index), direction);
            &&& beside is Some
            &&& graph.contains(beside->0)
            &&& mask[graph.spec_index(beside->0)] == 1
        } by {
        let steps = choose|steps: nat|
            steps <= away && #[trigger] visits(predecessors, problem, graph, steps, index);
        lemma_visits(problem, graph, predecessors, steps, index);
        lemma_cells(problem, graph, predecessors, steps, away);
        assert(steps < away);
        let child = ancestor(predecessors, problem.goal, steps);
        let parent = ancestor(predecessors, problem.goal, steps + 1);
        lemma_ancestor(problem, predecessors, problem.goal, steps);
        lemma_ancestor(problem, predecessors, problem.goal, steps + 1);
        lemma_distance_start(problem);
        assert(predecessors.contains_key(child));
        assert(child != problem.start);
        assert(parent == predecessors[child]);
        assert(problem.is_edge(parent, child));
        let direction = choose|direction: int|
            0 <= direction < 4 && #[trigger] spec_step(problem.nodes[parent].position, direction)
                == Some(problem.nodes[child].position);
        lemma_step_back(problem.nodes[parent].position, direction);
        lemma_cells(problem, graph, predecessors, steps + 1, steps + 1);
        lemma_visits(
            problem,
            graph,
            predecessors,
            steps + 1,
            cell(problem, graph, predecessors, steps + 1),
        );
        assert(on_path(
            predecessors,
            problem,
            graph,
            away,
            cell(problem, graph, predecessors, steps + 1),
        ));
        let back = opposite(direction);
        assert(spec_step(graph.spec_position(index), back) == Some(
            problem.nodes[parent].position,
        ));
        assert(predecessors.contains_key(parent));
        assert(problem.nodes.contains_key(parent));
    }
}

/// The mask of a search marks one cell more than the goal is steps away
/// from the start, and no way from the start to the goal has fewer keys
/// than the mask has marked cells.
pub proof fn lemma_search_marks_shortest_way(
    problem: ProblemView,
    graph: &Graph,
    predecessors: Map<Seq<char>, Seq<char>>,
)
    requires
        sound(problem),
        graph.wf(),
        on_grid(problem, graph),
        search_result(problem) == Some(predecessors),
    ensures
        path_fits(predecessors, problem, graph),
        marked_count(path_mask(predecessors, problem, graph)) == distance(problem, problem.goal)
            + 1,
        forall|other: Seq<Seq<char>>|
            is_path(problem, other) && other.last() == problem.goal ==> other.len()
                >= marked_count(path_mask(predecessors, problem, graph)),
{
    lemma_search_result(problem);
    lemma_mask_counts_shortest_way(problem, graph, predecessors);
}

/// The mask of a search on a grid marks the cell of the start and the cell
/// of the goal, and every marked cell but that of the start has a marked
/// cell one step away from it.
pub proof fn lemma_search_marks_connected_way(
    problem: ProblemView,
    graph: &Graph,
    predecessors: Map<Seq<char>, Seq<char>>,
)
    requires
        sound(problem),
        graph.wf(),
        on_grid(problem, graph),
        steps_only(problem),
        search_result(problem) == Some(predecessors),
    ensures
        0 <= graph.spec_index(problem.nodes[problem.start].position) < graph.size,
        0 <= graph.spec_index(problem.nodes[problem.goal].position) < graph.size,
        path_mask(predecessors, problem, graph)[graph.spec_index(
            problem.nodes[problem.start].position,
        )] == 1,
        path_mask(predecessors, problem, graph)[graph.spec_index(
            problem.nodes[problem.goal].position,
        )] == 1,
        forall|index: int|
            0 <= index < graph.size && #[trigger] path_mask(predecessors, problem, graph)[index]
                == 1 && index != graph.spec_index(problem.nodes[problem.start].position)
                ==> exists|direction: int|
                0 <= direction < 4 && {
                    let beside = #[trigger] spec_step(graph.spec_position(index), direction);
                    &&& beside is Some
                    &&& graph.contains(beside->0)
                    &&& path_mask(predecessors, problem, graph)[graph.spec_index(beside->0)] == 1
                },
{
    lemma_search_result(problem);
    lemma_mask_is_connected(problem, graph, predecessors);
}

} // verus!
