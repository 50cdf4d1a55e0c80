use crate::node::{NodeMap, NodeView};
use vstd::prelude::*;

verus! {

/// A search problem: a map of nodes, and the keys of the node to start from
/// and of the node to reach.
pub struct Problem {
    pub nodes: NodeMap,
    pub start: String,
    pub goal: String,
    pub size: usize,
}

/// What a [`Problem`] holds, with every key as a sequence of characters.
pub struct ProblemView {
    pub nodes: Map<Seq<char>, NodeView>,
    pub start: Seq<char>,
    pub goal: Seq<char>,
    pub size: nat,
}

impl View for Problem {
    type V = ProblemView;

    open spec fn view(&self) -> ProblemView {
        ProblemView {
            nodes: self.nodes@,
            start: self.start@,
            goal: self.goal@,
            size: self.size as nat,
        }
    }
}

impl ProblemView {
    /// Whether `to` is a neighbour of the node stored under `from`.
    pub open spec fn is_edge(self, from: Seq<char>, to: Seq<char>) -> bool {
        self.nodes.contains_key(from) && self.nodes[from].neighbours.contains(to)
    }

    /// The problem is well formed: the node map holds the start, the goal
    /// and every neighbour that one of its nodes names.
    pub open spec fn wf(self) -> bool {
        &&& self.nodes.contains_key(self.start)
        &&& self.nodes.contains_key(self.goal)
        &&& forall|from: Seq<char>, to: Seq<char>| #[trigger]
            self.is_edge(from, to) ==> self.nodes.contains_key(to)
    }

    /// Every node is stored under the key of its own position.
    pub open spec fn keyed_by_position(self) -> bool {
        forall|key: Seq<char>| #[trigger]
            self.nodes.contains_key(key) ==> self.nodes[key].position.key() == key
    }
}

impl Problem {
    /// Returns the problem of reaching `goal` from `start` in `nodes`.
    pub fn new(nodes: NodeMap, start: String, goal: String, size: usize) -> (problem: Problem)
        ensures
            problem.nodes == nodes,
            problem.start == start,
            problem.goal == goal,
            problem.size == size,
    {
        Problem { nodes, start, goal, size }
    }
}

} // verus!
