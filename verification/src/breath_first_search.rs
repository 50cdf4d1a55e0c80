use crate::backtrace::{
    ancestor, lemma_on_path_end, lemma_on_path_step, on_path, path_fits, path_mask, visits, walks,
};
use crate::graph::Graph;
use crate::node::{Node, NodeMap};
use crate::predecessors::Predecessors;
use crate::problem::Problem;
use crate::search_model::{
    frontier_known, initial, lemma_expand_remaining, lemma_initial_remaining, no_parent, offer,
    offer_all, remaining, run, search_result, visit, Outcome, SearchState,
};
use crate::search_proofs::{
    found_rightly, is_search_tree, lemma_search_result, lemma_search_finds_what_can_be_reached,
};
use crate::shortest_path::reachable;
use std::collections::VecDeque;
use vstd::hash_set::StringHashSet;
use vstd::prelude::*;

verus! {

/// A breadth-first search and the state it works on.
pub struct BreathFirstSearch {
    /// The keys that wait to be expanded, each with the key of the node
    /// from which it was reached, oldest first.
    pub frontier: VecDeque<(String, String)>,
    /// The keys that were put on the frontier at some time.
    pub enqueued: StringHashSet,
    /// The explored keys, each with its predecessor.
    pub explored: Predecessors,
}

/// The entries of a frontier, with every key as a sequence of characters.
pub open spec fn entry_views(entries: Seq<(String, String)>) -> Seq<(Seq<char>, Seq<char>)> {
    Seq::new(entries.len(), |i: int| (entries[i].0@, entries[i].1@))
}

impl View for BreathFirstSearch {
    type V = SearchState;

    open spec fn view(&self) -> SearchState {
        SearchState {
            frontier: entry_views(self.frontier@),
            enqueued: self.enqueued@,
            explored: self.explored@,
        }
    }
}

impl BreathFirstSearch {
    /// Returns a search with an empty frontier that has explored nothing.
    pub fn new() -> (search: BreathFirstSearch)
        ensures
            search@.frontier == Seq::<(Seq<char>, Seq<char>)>::empty(),
            search@.enqueued == Set::<Seq<char>>::empty(),
            search@.explored == Map::<Seq<char>, Seq<char>>::empty(),
    {
        let search = BreathFirstSearch {
            frontier: VecDeque::new(),
            enqueued: StringHashSet::new(),
            explored: Predecessors::new(),
        };
        assert(search@.frontier =~= Seq::<(Seq<char>, Seq<char>)>::empty());
        search
    }

    /// Explores the node under `key`, which was reached from `parent`:
    /// records the predecessor, then looks at the neighbours of the node in
    /// their order. Returns whether the goal was among them; the frontier is
    /// then discarded.
    fn visit(&mut self, problem: &Problem, key: String, parent: String) -> (found: bool)
        requires
            problem@.wf(),
            problem@.nodes.contains_key(key@),
        ensures
            match visit(problem@, old(self)@, key@, parent@) {
                Outcome::Found(explored) => {
                    &&& found
                    &&& final(self)@.explored == explored
                    &&& final(self)@.frontier.len() == 0
                },
                Outcome::Pending(next) => !found && final(self)@ == next,
            },
    {
        let node = problem.nodes.get(key.as_str()).unwrap();
        let own = node.position.to_key();
        let ghost outcome = visit(problem@, self@, key@, parent@);
        self.explored.insert(own.clone(), parent);
        let mut i: usize = 0;
        while i < node.neighbours.len()
            invariant
                i <= node.neighbours.len(),
                outcome == visit(problem@, old(self)@, key@, parent@),
                offer_all(self@, problem@.goal, own@, node@.neighbours, i as int) == outcome,
            decreases node.neighbours.len() - i,
        {
            let neighbour = &node.neighbours[i];
            let ghost before = self@;
            assert(node@.neighbours[i as int] == neighbour@);
            if !self.explored.contains_key(neighbour.as_str()) && !self.enqueued.contains(
                neighbour.as_str(),
            ) {
                if *neighbour == problem.goal {
                    let ghost parent_key = own@;
                    self.explored.insert(neighbour.clone(), own);
                    self.frontier.clear();
                    assert(offer(before, problem@.goal, parent_key, neighbour@) == Outcome::Found(
                        self@.explored,
                    ));
                    assert(offer_all(
                        before,
                        problem@.goal,
                        parent_key,
                        node@.neighbours,
                        i as int,
                    ) == Outcome::Found(self@.explored));
                    return true;
                } else {
                    self.enqueued.insert(neighbour.clone());
                    self.frontier.push_back((neighbour.clone(), own.clone()));
                    assert(self@.frontier =~= before.frontier.push((neighbour@, own@)));
                    assert(Outcome::Pending(self@) == offer(
                        before,
                        problem@.goal,
                        own@,
                        neighbour@,
                    ));
                }
            }
            i += 1;
        }
        false
    }

    /// Searches a shortest way from the start of `problem` to its goal,
    /// breadth first: the nodes are explored in the order in which they
    /// were reached, and the neighbours of a node are looked at in the order
    /// in which the node names them. The search ends as soon as the goal
    /// turns up among the neighbours.
    ///
    /// Returns the predecessor map of the search where the goal was reached,
    /// and nothing where there is no way to it. Where every node is stored
    /// under the key of its position, the map is a tree of shortest ways
    /// from the start, and the goal is one of its keys. The map is the same
    /// for every search of the same nodes, start and goal
    /// ([`crate::search_proofs::lemma_search_is_determined`]).
    pub fn search(problem: &Problem) -> (result: Option<Predecessors>)
        requires
            problem@.wf(),
        ensures
            match result {
                Some(predecessors) => search_result(problem@) == Some(predecessors@),
                None => search_result(problem@) is None,
            },
            problem@.start == problem@.goal ==> result is Some && result->0@
                == map![problem@.start => no_parent()],
            problem@.keyed_by_position() ==> (result is Some <==> reachable(
                problem@,
                problem@.goal,
            )),
            problem@.keyed_by_position() ==> (result matches Some(predecessors)
                ==> is_search_tree(problem@, predecessors@) && predecessors@.contains_key(
                problem@.goal,
            )),
    {
        proof {
            use_type_invariant(&problem.nodes);
            problem.nodes.lemma_finite();
            if problem@.keyed_by_position() {
                lemma_search_result(problem@);
                lemma_search_finds_what_can_be_reached(problem@);
            }
        }
        if problem.start == problem.goal {
            let mut explored = Predecessors::new();
            explored.insert(problem.start.clone(), String::new());
            return Some(explored);
        }
        let mut state = BreathFirstSearch::new();
        state.enqueued.insert(problem.start.clone());
        state.frontier.push_back((problem.start.clone(), String::new()));
        let ghost mut fuel: nat = problem@.nodes.dom().len();
        proof {
            lemma_initial_remaining(problem@);
            assert(state@.frontier =~= initial(problem@).frontier);
            assert(state@.enqueued =~= initial(problem@).enqueued);
            assert(state@ == initial(problem@));
        }
        loop
            invariant
                problem@.wf(),
                problem@.nodes.dom().finite(),
                problem@.start != problem@.goal,
                problem@.keyed_by_position() ==> found_rightly(problem@),
                frontier_known(problem@, state@),
                remaining(problem@, state@) <= fuel,
                run(problem@, state@, fuel) == search_result(problem@),
            decreases fuel,
        {
            let ghost before = state@;
            match state.frontier.pop_front() {
                None => {
                    return None;
                },
                Some((key, parent)) => {
                    proof {
                        assert(state@.frontier =~= before.frontier.drop_first());
                        assert(before.frontier[0] == (key@, parent@));
                        lemma_expand_remaining(problem@, before);
                    }
                    let found = state.visit(problem, key, parent);
                    if found {
                        return Some(state.explored);
                    }
                    proof {
                        fuel = (fuel - 1) as nat;
                    }
                },
            }
        }
    }
    /// Marks the cell of `node` in `tiles`.
    fn update_tile(graph: &Graph, tiles: &mut Vec<u8>, node: &Node)
        requires
            0 <= graph.spec_index(node.position) < old(tiles).len(),
        ensures
            final(tiles)@ == old(tiles)@.update(graph.spec_index(node.position), 1u8),
    {
        let position = node.position;
        let index = graph.get_index_at_position(position);
        tiles.set(index, 1);
    }

    /// Marks the cell of the node under `key`, if there is such a node.
    fn mark(graph: &Graph, tiles: &mut Vec<u8>, nodes: &NodeMap, key: &str)
        requires
            nodes@.contains_key(key@) ==> 0 <= graph.spec_index(nodes@[key@].position) < old(
                tiles,
            ).len(),
        ensures
            final(tiles)@ == if nodes@.contains_key(key@) {
                old(tiles)@.update(graph.spec_index(nodes@[key@].position), 1u8)
            } else {
                old(tiles)@
            },
    {
        if let Some(node) = nodes.get(key) {
            Self::update_tile(graph, tiles, node);
        }
    }

    /// Returns the mask of the path that `result` holds: one byte for each
    /// cell of `graph`, `1` for the cells on the way from the goal of
    /// `problem` back along the predecessors, and `0` for all others.
    ///
    /// The way begins at the goal and goes from each key to its predecessor
    /// until it comes to a key that has none. It is followed for as many
    /// steps as `result` has keys, which is as far as it can lead without
    /// coming to a key twice. A key on the way that is no node of `problem`
    /// marks nothing. Every node on the way must have a place in the mask,
    /// as it has where all nodes lie within a well-formed grid
    /// ([`crate::path_proofs::lemma_path_fits_on_grid`]).
    ///
    /// For the result of a search the mask marks a shortest way from the
    /// start to the goal
    /// ([`crate::path_proofs::lemma_search_marks_shortest_way`]).
    pub fn get_path(result: &Predecessors, graph: &Graph, problem: &Problem) -> (mask: Vec<u8>)
        requires
            path_fits(result@, problem@, graph),
        ensures
            mask.len() == graph.size,
            mask@ == path_mask(result@, problem@, graph),
    {
        let mut tiles: Vec<u8> = Vec::new();
        let mut filled: usize = 0;
        while filled < graph.size
            invariant
                filled <= graph.size,
                tiles.len() == filled,
                forall|i: int| 0 <= i < filled ==> tiles[i] == 0u8,
            decreases graph.size - filled,
        {
            tiles.push(0);
            filled += 1;
        }
        let limit = result.len();
        let mut current: &String = &problem.goal;
        let mut steps: usize = 0;
        proof {
            assert(walks(result@, problem@.goal, 0));
            if problem@.nodes.contains_key(problem@.goal) {
                let index = graph.spec_index(problem@.nodes[problem@.goal].position);
                assert(visits(result@, problem@, graph, 0, index));
            }
        }
        Self::mark(graph, &mut tiles, &problem.nodes, current.as_str());
        proof {
            assert forall|i: int| 0 <= i < graph.size implies tiles[i] == if on_path(
                result@,
                problem@,
                graph,
                0,
                i,
            ) {
                1u8
            } else {
                0u8
            } by {
                lemma_on_path_step(result@, problem@, graph, 0, i);
            }
        }
        let mut ended = false;
        while steps < limit && !ended
            invariant
                steps <= limit,
                limit == result@.len(),
                tiles.len() == graph.size,
                path_fits(result@, problem@, graph),
                walks(result@, problem@.goal, steps as nat),
                current@ == ancestor(result@, problem@.goal, steps as nat),
                ended ==> !result@.contains_key(current@),
                forall|i: int|
                    0 <= i < graph.size ==> tiles[i] == if on_path(
                        result@,
                        problem@,
                        graph,
                        steps as nat,
                        i,
                    ) {
                        1u8
                    } else {
                        0u8
                    },
            decreases limit - steps + (if ended {
                0int
            } else {
                1int
            }),
        {
            match result.get(current.as_str()) {
                Some(parent) => {
                    let ghost before = tiles@;
                    proof {
                        let next = (steps + 1) as nat;
                        assert(ancestor(result@, problem@.goal, next) == parent@);
                        assert(walks(result@, problem@.goal, next)) by {
                            assert forall|earlier: nat| earlier < next implies result@.contains_key(
                                #[trigger] ancestor(result@, problem@.goal, earlier),
                            ) by {
                                if earlier < steps {
                                } else {
                                    assert(earlier == steps);
                                }
                            }
                        }
                        if problem@.nodes.contains_key(parent@) {
                            let index = graph.spec_index(problem@.nodes[parent@].position);
                            assert(visits(result@, problem@, graph, next, index));
                        }
                    }
                    Self::mark(graph, &mut tiles, &problem.nodes, parent.as_str());
                    proof {
                        assert forall|i: int| 0 <= i < graph.size implies tiles[i] == if on_path(
                            result@,
                            problem@,
                            graph,
                            (steps + 1) as nat,
                            i,
                        ) {
                            1u8
                        } else {
                            0u8
                        } by {
                            lemma_on_path_step(result@, problem@, graph, steps as nat, i);
                        }
                    }
                    current = parent;
                    steps += 1;
                },
                None => {
                    ended = true;
                },
            }
        }
        proof {
            assert forall|i: int| 0 <= i < graph.size implies tiles[i] == path_mask(
                result@,
                problem@,
                graph,
            )[i] by {
                if ended {
                    lemma_on_path_end(result@, problem@, graph, steps as nat, limit as nat, i);
                }
            }
            assert(tiles@ =~= path_mask(result@, problem@, graph));
        }
        tiles
    }
}

} // verus!
