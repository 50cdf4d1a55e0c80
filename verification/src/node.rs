use crate::position::Position;
use crate::tile::Tile;
use vstd::hash_map::StringHashMap;
use vstd::prelude::*;

verus! {

/// A node of the search graph: one grid cell together with the keys of the
/// cells that can be reached from it in one step.
#[derive(Hash, Eq, PartialEq, Debug, Clone)]
pub struct Node {
    pub position: Position,
    pub value: Tile,
    pub neighbours: Vec<String>,
}

/// What a [`Node`] holds, with every key as a sequence of characters.
pub struct NodeView {
    pub position: Position,
    pub value: Tile,
    pub neighbours: Seq<Seq<char>>,
}

/// The keys that a sequence of strings holds, each as a sequence of
/// characters.
pub open spec fn key_views(keys: Seq<String>) -> Seq<Seq<char>> {
    Seq::new(keys.len(), |i: int| keys[i]@)
}

impl View for Node {
    type V = NodeView;

    open spec fn view(&self) -> NodeView {
        NodeView {
            position: self.position,
            value: self.value,
            neighbours: key_views(self.neighbours@),
        }
    }
}

impl Node {
    /// Returns a node at `position` with tile `value` and the given
    /// neighbour keys.
    pub fn new(position: Position, value: Tile, neighbours: Vec<String>) -> (node: Node)
        ensures
            node.position == position,
            node.value == value,
            node.neighbours == neighbours,
    {
        Node { position, value, neighbours }
    }
}

/// A map from keys to nodes. It always holds finitely many keys.
pub struct NodeMap {
    map: StringHashMap<Node>,
}

impl View for NodeMap {
    type V = Map<Seq<char>, NodeView>;

    closed spec fn view(&self) -> Map<Seq<char>, NodeView> {
        self.map@.map_values(|node: Node| node@)
    }
}

impl NodeMap {
    /// What holds of every node map.
    #[verifier::type_invariant]
    pub closed spec fn inv(self) -> bool {
        self.map@.dom().finite()
    }

    /// A node map holds finitely many keys.
    pub proof fn lemma_finite(self)
        requires
            self.inv(),
        ensures
            self@.dom().finite(),
    {
        assert(self@.dom() =~= self.map@.dom());
    }

    /// Returns the empty map.
    pub fn new() -> (nodes: NodeMap)
        ensures
            nodes@ == Map::<Seq<char>, NodeView>::empty(),
    {
        let nodes = NodeMap { map: StringHashMap::new() };
        assert(nodes@ =~= Map::<Seq<char>, NodeView>::empty());
        nodes
    }

    /// Stores `node` under `key`, in place of any node that was there.
    pub fn insert(&mut self, key: String, node: Node)
        ensures
            final(self)@ == old(self)@.insert(key@, node@),
    {
        proof {
            use_type_invariant(&*self);
        }
        // The map is moved out while it changes, so that `self` is valid at
        // every point.
        let mut map = StringHashMap::new();
        std::mem::swap(&mut self.map, &mut map);
        map.insert(key, node);
        std::mem::swap(&mut self.map, &mut map);
        assert(self@.dom() =~= self.map@.dom());
        assert(self@ =~= old(self)@.insert(key@, node@));
    }

    /// Returns the node stored under `key`, if there is one.
    pub fn get(&self, key: &str) -> (found: Option<&Node>)
        ensures
            match found {
                Some(node) => self@.contains_key(key@) && node@ == self@[key@],
                None => !self@.contains_key(key@),
            },
    {
        self.map.get(key)
    }

    /// Whether a node is stored under `key`.
    pub fn contains_key(&self, key: &str) -> (found: bool)
        ensures
            found == self@.contains_key(key@),
    {
        self.map.contains_key(key)
    }

    /// Returns the number of nodes in the map.
    pub fn len(&self) -> (len: usize)
        ensures
            len == self@.len(),
    {
        assert(self@.dom() =~= self.map@.dom());
        self.map.len()
    }

    /// Whether the map holds no node.
    pub fn is_empty(&self) -> (empty: bool)
        ensures
            empty == (self@.len() == 0),
    {
        self.len() == 0
    }
}

} // verus!
