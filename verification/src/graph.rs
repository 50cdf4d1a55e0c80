use crate::node::{key_views, Node, NodeMap, NodeView};
use crate::position::{lemma_key_injective, Position};
use crate::tile::{Tile, TileSet};
use vstd::arithmetic::div_mod::{lemma_fundamental_div_mod, lemma_fundamental_div_mod_converse};
use vstd::prelude::*;

verus! {

/// A grid of tiles, stored row by row in one flat array.
#[derive(Debug, Clone)]
pub struct Graph {
    pub tiles: Vec<u8>,
    pub width: u32,
    pub height: u32,
    pub size: usize,
}

/// The position one step away from `position` in the given direction:
/// `0` is up, `1` is right, `2` is down and `3` is left. There is none where
/// the step would leave the range of coordinates.
pub open spec fn spec_step(position: Position, direction: int) -> Option<Position> {
    if direction == 0 {
        if position.row > 0 {
            Some(Position { row: (position.row - 1) as u32, column: position.column })
        } else {
            None
        }
    } else if direction == 1 {
        if position.column < u32::MAX {
            Some(Position { row: position.row, column: (position.column + 1) as u32 })
        } else {
            None
        }
    } else if direction == 2 {
        if position.row < u32::MAX {
            Some(Position { row: (position.row + 1) as u32, column: position.column })
        } else {
            None
        }
    } else {
        if position.column > 0 {
            Some(Position { row: position.row, column: (position.column - 1) as u32 })
        } else {
            None
        }
    }
}

/// Takes one step from `position` in the given direction, if the
/// coordinates allow it.
fn step(position: Position, direction: u8) -> (moved: Option<Position>)
    ensures
        moved == spec_step(position, direction as int),
{
    if direction == 0 {
        if position.row > 0 {
            Some(Position::new(position.row - 1, position.column))
        } else {
            None
        }
    } else if direction == 1 {
        if position.column < u32::MAX {
            Some(Position::new(position.row, position.column + 1))
        } else {
            None
        }
    } else if direction == 2 {
        if position.row < u32::MAX {
            Some(Position::new(position.row + 1, position.column))
        } else {
            None
        }
    } else {
        if position.column > 0 {
            Some(Position::new(position.row, position.column - 1))
        } else {
            None
        }
    }
}

/// The keys of a sequence of positions.
pub open spec fn position_keys(positions: Seq<Position>) -> Seq<Seq<char>> {
    Seq::new(positions.len(), |i: int| positions[i].key())
}

/// Whether a node is an end node: a path cell that has a neighbour.
pub open spec fn is_end_node(node: NodeView) -> bool {
    node.value == Tile::Path && node.neighbours.len() > 0
}

/// The part of `nodes` that is kept: all of it, or its end nodes only.
pub open spec fn select_nodes(nodes: Map<Seq<char>, NodeView>, ends_only: bool) -> Map<
    Seq<char>,
    NodeView,
> {
    Map::new(
        |key: Seq<char>| nodes.contains_key(key) && (ends_only ==> is_end_node(nodes[key])),
        |key: Seq<char>| nodes[key],
    )
}

/// Returns the keys of `positions`, in their order.
fn keys_of(positions: &Vec<Position>) -> (keys: Vec<String>)
    ensures
        key_views(keys@) == position_keys(positions@),
{
    let mut keys: Vec<String> = Vec::new();
    let mut i: usize = 0;
    while i < positions.len()
        invariant
            i <= positions.len(),
            keys.len() == i,
            forall|j: int| 0 <= j < i ==> (#[trigger] keys[j])@ == positions[j].key(),
        decreases positions.len() - i,
    {
        keys.push(positions[i].to_key());
        i += 1;
    }
    assert(key_views(keys@) =~= position_keys(positions@));
    keys
}

/// The direction that leads back: down for up, left for right.
pub open spec fn opposite(direction: int) -> int {
    if direction < 2 {
        direction + 2
    } else {
        direction - 2
    }
}

/// A step in the opposite direction leads back to where the first began.
pub proof fn lemma_step_back(position: Position, direction: int)
    requires
        0 <= direction < 4,
        spec_step(position, direction) is Some,
    ensures
        spec_step(spec_step(position, direction)->0, opposite(direction)) == Some(position),
{
}

impl Graph {
    /// The grid is well formed: it holds one tile for each cell, and `size`
    /// is their number.
    pub open spec fn wf(&self) -> bool {
        &&& self.tiles.len() == self.width * self.height
        &&& self.size == self.tiles.len()
    }

    /// Whether `position` lies within the grid.
    pub open spec fn contains(&self, position: Position) -> bool {
        position.row < self.height && position.column < self.width
    }

    /// The place of `position` in the tile array.
    pub open spec fn spec_index(&self, position: Position) -> int {
        position.row * self.width + position.column
    }

    /// The position of the cell stored at `index` of the tile array.
    pub open spec fn spec_position(&self, index: int) -> Position {
        Position {
            row: (index / self.width as int) as u32,
            column: (index % self.width as int) as u32,
        }
    }

    /// The tile stored at `index`, if the tile array is that long.
    pub open spec fn tile_at_index(&self, index: int) -> Option<Tile> {
        if 0 <= index < self.tiles.len() {
            Some(Tile::decode(self.tiles[index]))
        } else {
            None
        }
    }

    /// The tile at `position`, if the tile array reaches that far.
    pub open spec fn tile_at(&self, position: Position) -> Option<Tile> {
        self.tile_at_index(self.spec_index(position))
    }

    /// Whether the cell at `position` counts as a neighbour: it lies within
    /// the grid and its tile is one of `filter`.
    pub open spec fn accepts(&self, position: Position, filter: Set<Tile>) -> bool {
        &&& self.contains(position)
        &&& self.tile_at(position) is Some
        &&& filter.contains(self.tile_at(position)->0)
    }

    /// The neighbour of `position` in one direction: the cell one step away,
    /// where it counts, and nothing otherwise.
    pub open spec fn neighbour(&self, position: Position, filter: Set<Tile>, direction: int) -> Seq<
        Position,
    > {
        match spec_step(position, direction) {
            Some(candidate) => if self.accepts(candidate, filter) {
                seq![candidate]
            } else {
                Seq::empty()
            },
            None => Seq::empty(),
        }
    }

    /// The neighbours of `position`: the cells above, to the right, below
    /// and to the left of it, in this order, as far as they count.
    pub open spec fn spec_neighbours(&self, position: Position, filter: Set<Tile>) -> Seq<
        Position,
    > {
        self.neighbour(position, filter, 0) + self.neighbour(position, filter, 1) + self.neighbour(
            position,
            filter,
            2,
        ) + self.neighbour(position, filter, 3)
    }

    /// The key of the cell stored at `index`.
    pub open spec fn key_at(&self, index: int) -> Seq<char> {
        self.spec_position(index).key()
    }

    /// Whether `key` is the key of a cell of the grid.
    pub open spec fn has_key(&self, key: Seq<char>) -> bool {
        exists|index: int| 0 <= index < self.tiles.len() && #[trigger] self.key_at(index) == key
    }

    /// The index of the cell whose key is `key`.
    pub open spec fn cell_of_key(&self, key: Seq<char>) -> int {
        choose|index: int| 0 <= index < self.tiles.len() && #[trigger] self.key_at(index) == key
    }

    /// The node for the cell stored at `index`: its position, its tile and,
    /// for a path cell, the keys of its neighbours. Other cells have no
    /// neighbours.
    pub open spec fn node_at(&self, index: int, filter: Set<Tile>) -> NodeView {
        let position = self.spec_position(index);
        let value = Tile::decode(self.tiles[index]);
        NodeView {
            position,
            value,
            neighbours: if value == Tile::Path {
                position_keys(self.spec_neighbours(position, filter))
            } else {
                Seq::empty()
            },
        }
    }

    /// The node map of the grid: one node for every cell, under the key of
    /// its position.
    pub open spec fn spec_nodes(&self, filter: Set<Tile>) -> Map<Seq<char>, NodeView> {
        Map::new(
            |key: Seq<char>| self.has_key(key),
            |key: Seq<char>| self.node_at(self.cell_of_key(key), filter),
        )
    }

    /// The end nodes of the grid: the path cells that touch an empty cell,
    /// each with the keys of the empty cells around it.
    pub open spec fn spec_end_nodes(&self) -> Map<Seq<char>, NodeView> {
        select_nodes(self.spec_nodes(set![Tile::Empty]), true)
    }

    /// Returns a grid of `width` by `height` cells over `tiles`, where `1`
    /// is a path, `2` is ground and any other byte is an empty cell. The
    /// tiles are kept as they are, even where their number is not that of
    /// the cells.
    pub fn new(tiles: Vec<u8>, width: u32, height: u32) -> (graph: Graph)
        requires
            width * height <= usize::MAX,
        ensures
            graph.tiles == tiles,
            graph.width == width,
            graph.height == height,
            graph.size == width * height,
            graph.wf() <==> tiles.len() == width * height,
    {
        assert(width * height <= u64::MAX) by (nonlinear_arith)
            requires
                width <= u32::MAX,
                height <= u32::MAX,
        ;
        let size = (width as u64 * height as u64) as usize;
        Graph { tiles, width, height, size }
    }

    /// Returns the index in the tile array of the cell at `position`.
    pub fn get_index_at_position(&self, position: Position) -> (index: usize)
        requires
            self.spec_index(position) <= usize::MAX,
        ensures
            index == self.spec_index(position),
    {
        assert(position.row * self.width <= u64::MAX - u32::MAX) by (nonlinear_arith)
            requires
                position.row <= u32::MAX,
                self.width <= u32::MAX,
        ;
        (position.row as u64 * self.width as u64 + position.column as u64) as usize
    }

    /// Returns the position of the cell that is stored at `index`.
    pub fn get_position_at_index(&self, index: usize) -> (position: Position)
        requires
            self.width > 0,
            index as int / self.width as int <= u32::MAX,
        ensures
            position == self.spec_position(index as int),
    {
        let width = self.width as usize;
        let row = index / width;
        let column = index % width;
        Position::new(row as u32, column as u32)
    }

    /// Returns the tile stored at `index`, or nothing where the tile array
    /// ends before it.
    pub fn get_value_at_index(&self, index: usize) -> (tile: Option<Tile>)
        ensures
            tile == self.tile_at_index(index as int),
    {
        if index < self.tiles.len() {
            Some(Tile::from_u8(self.tiles[index]))
        } else {
            None
        }
    }

    /// Returns the tile at `position`, or nothing where the tile array ends
    /// before it.
    pub fn get_value_at_position(&self, position: Position) -> (tile: Option<Tile>)
        ensures
            tile == self.tile_at(position),
    {
        assert(position.row * self.width <= u64::MAX - u32::MAX) by (nonlinear_arith)
            requires
                position.row <= u32::MAX,
                self.width <= u32::MAX,
        ;
        let index = position.row as u64 * self.width as u64 + position.column as u64;
        if index < self.tiles.len() as u64 {
            self.get_value_at_index(index as usize)
        } else {
            None
        }
    }

    /// Whether the cell at `position` lies within the grid and has a tile
    /// of `tiles`.
    fn accepts_at(&self, position: Position, tiles: &TileSet) -> (accepted: bool)
        ensures
            accepted == self.accepts(position, tiles@),
    {
        if position.row < self.height && position.column < self.width {
            match self.get_value_at_position(position) {
                Some(tile) => tiles.contains(&tile),
                None => false,
            }
        } else {
            false
        }
    }

    /// Adds to `found` the neighbour of `position` in one direction, if
    /// there is one.
    fn visit(&self, found: &mut Vec<Position>, position: Position, tiles: &TileSet, direction: u8)
        ensures
            final(found)@ == old(found)@ + self.neighbour(position, tiles@, direction as int),
    {
        match step(position, direction) {
            Some(candidate) => {
                if self.accepts_at(candidate, tiles) {
                    found.push(candidate);
                    assert(found@ =~= old(found)@ + seq![candidate]);
                } else {
                    assert(found@ =~= old(found)@ + Seq::<Position>::empty());
                }
            },
            None => {
                assert(found@ =~= old(found)@ + Seq::<Position>::empty());
            },
        }
    }

    /// Returns the neighbours of `position` whose tile is one of `tiles`:
    /// of the cells above, to the right, below and to the left, in this
    /// order, those that lie within the grid and have such a tile.
    pub fn get_neighbours_at_position(&self, position: Position, tiles: &TileSet) -> (neighbours:
        Vec<Position>)
        ensures
            neighbours@ == self.spec_neighbours(position, tiles@),
    {
        let mut neighbours: Vec<Position> = Vec::new();
        self.visit(&mut neighbours, position, tiles, 0);
        self.visit(&mut neighbours, position, tiles, 1);
        self.visit(&mut neighbours, position, tiles, 2);
        self.visit(&mut neighbours, position, tiles, 3);
        assert(neighbours@ =~= self.spec_neighbours(position, tiles@));
        neighbours
    }

    /// Returns the node for the cell stored at `index`.
    fn build_node(&self, index: usize, tiles: &TileSet) -> (node: Node)
        requires
            self.wf(),
            index < self.tiles.len(),
        ensures
            node@ == self.node_at(index as int, tiles@),
    {
        proof {
            self.lemma_position_in_grid(index as int);
        }
        let position = self.get_position_at_index(index);
        let value = Tile::from_u8(self.tiles[index]);
        let neighbours = if value == Tile::Path {
            let positions = self.get_neighbours_at_position(position, tiles);
            keys_of(&positions)
        } else {
            Vec::new()
        };
        let node = Node::new(position, value, neighbours);
        assert(node@.neighbours =~= self.node_at(index as int, tiles@).neighbours);
        node
    }

    /// Goes through the cells in the order of the tile array and collects
    /// their nodes: all of them, or the end nodes only.
    fn collect(&self, tiles: &TileSet, ends_only: bool) -> (nodes: NodeMap)
        requires
            self.wf(),
        ensures
            nodes@ == select_nodes(self.spec_nodes(tiles@), ends_only),
    {
        let mut nodes = NodeMap::new();
        let mut index: usize = 0;
        while index < self.tiles.len()
            invariant
                self.wf(),
                index <= self.tiles.len(),
                    forall|key: Seq<char>|
                    nodes@.contains_key(key) <==> exists|i: int|
                        0 <= i < index && #[trigger] self.key_at(i) == key && (ends_only
                            ==> is_end_node(self.node_at(i, tiles@))),
                forall|i: int|
                    0 <= i < index && nodes@.contains_key(#[trigger] self.key_at(i))
                        ==> nodes@[self.key_at(i)] == self.node_at(i, tiles@),
            decreases self.tiles.len() - index,
        {
            let node = self.build_node(index, tiles);
            let ghost before = nodes@;
            proof {
                self.lemma_cell_of_key(index as int);
                assert forall|i: int| 0 <= i < index implies #[trigger] self.key_at(i)
                    != self.key_at(index as int) by {
                    self.lemma_cell_of_key(i);
                }
            }
            if !ends_only || (node.value == Tile::Path && node.neighbours.len() > 0) {
                let key = node.position.to_key();
                nodes.insert(key, node);
                assert(nodes@.contains_key(self.key_at(index as int)));
            }
            index += 1;
            proof {
                assert forall|key: Seq<char>| nodes@.contains_key(key) implies exists|i: int|
                    0 <= i < index && #[trigger] self.key_at(i) == key && (ends_only
                        ==> is_end_node(self.node_at(i, tiles@))) by {
                    if before.contains_key(key) {
                        let i = choose|i: int|
                            0 <= i < index - 1 && #[trigger] self.key_at(i) == key && (ends_only
                                ==> is_end_node(self.node_at(i, tiles@)));
                        assert(0 <= i < index && self.key_at(i) == key);
                    } else {
                        assert(self.key_at(index - 1) == key);
                    }
                }
                assert forall|key: Seq<char>|
                    (exists|i: int|
                        0 <= i < index && #[trigger] self.key_at(i) == key && (ends_only
                            ==> is_end_node(self.node_at(i, tiles@)))) implies nodes@.contains_key(
                    key,
                ) by {
                    let i = choose|i: int|
                        0 <= i < index && #[trigger] self.key_at(i) == key && (ends_only
                            ==> is_end_node(self.node_at(i, tiles@)));
                    if i < index - 1 {
                        assert(before.contains_key(key));
                    }
                }
            }
        }
        proof {
            let all = self.spec_nodes(tiles@);
            let want = select_nodes(all, ends_only);
            assert forall|key: Seq<char>| nodes@.contains_key(key) implies want.contains_key(key)
                && want[key] == nodes@[key] by {
                let i = choose|i: int|
                    0 <= i < index && #[trigger] self.key_at(i) == key && (ends_only
                        ==> is_end_node(self.node_at(i, tiles@)));
                self.lemma_cell_of_key(i);
            }
            assert forall|key: Seq<char>| want.contains_key(key) implies nodes@.contains_key(
                key,
            ) by {
                let i = self.cell_of_key(key);
                assert(0 <= i < index && self.key_at(i) == key);
            }
            assert(nodes@ =~= want);
        }
        nodes
    }

    /// Returns the node map of the grid for a given choice of neighbours:
    /// every cell has a node under the key of its position, and the
    /// neighbours of a path cell are the cells around it whose tile is one
    /// of `tiles`.
    pub fn get_neighbours_with_tile(&self, tiles: &TileSet) -> (nodes: NodeMap)
        requires
            self.wf(),
        ensures
            nodes@ == self.spec_nodes(tiles@),
    {
        let nodes = self.collect(tiles, false);
        assert(nodes@ =~= self.spec_nodes(tiles@));
        nodes
    }

    /// Returns the node map in which the neighbours of a path cell are the
    /// path cells around it.
    pub fn get_nodes(&self) -> (nodes: NodeMap)
        requires
            self.wf(),
        ensures
            nodes@ == self.spec_nodes(set![Tile::Path]),
    {
        let mut tiles = TileSet::new();
        tiles.insert(Tile::Path);
        assert(tiles@ =~= set![Tile::Path]);
        self.get_neighbours_with_tile(&tiles)
    }

    /// Returns the end nodes of the grid: the path cells with an empty cell
    /// next to them, each with the keys of those empty cells as neighbours.
    pub fn get_end_nodes(&self) -> (nodes: NodeMap)
        requires
            self.wf(),
        ensures
            nodes@ == self.spec_end_nodes(),
    {
        let mut tiles = TileSet::new();
        tiles.insert(Tile::Empty);
        assert(tiles@ =~= set![Tile::Empty]);
        self.collect(&tiles, true)
    }

    /// In a well-formed grid every index of the tile array belongs to a cell
    /// within the grid, and leads back to itself.
    pub proof fn lemma_position_in_grid(&self, index: int)
        requires
            self.wf(),
            0 <= index < self.tiles.len(),
        ensures
            self.width > 0,
            self.contains(self.spec_position(index)),
            self.spec_position(index).row == index / self.width as int,
            self.spec_position(index).column == index % self.width as int,
            self.spec_index(self.spec_position(index)) == index,
    {
        let w = self.width as int;
        let h = self.height as int;
        assert(w > 0) by (nonlinear_arith)
            requires
                0 <= index < w * h,
                w >= 0,
        ;
        lemma_fundamental_div_mod(index, w);
        assert(index / w < h) by (nonlinear_arith)
            requires
                0 <= index < w * h,
                w > 0,
                index == w * (index / w) + index % w,
                0 <= index % w < w,
        ;
        assert(0 <= index / w) by (nonlinear_arith)
            requires
                0 <= index,
                w > 0,
        ;
        assert(w * (index / w) == (index / w) * w) by (nonlinear_arith);
    }

    /// In a well-formed grid every position within the grid has an index in
    /// the tile array, and that index leads back to the position.
    pub proof fn lemma_index_in_grid(&self, position: Position)
        requires
            self.wf(),
            self.contains(position),
        ensures
            0 <= self.spec_index(position) < self.tiles.len(),
            self.spec_position(self.spec_index(position)) == position,
    {
        let w = self.width as int;
        let h = self.height as int;
        let r = position.row as int;
        let c = position.column as int;
        assert(0 <= r * w + c < w * h) by (nonlinear_arith)
            requires
                0 <= r < h,
                0 <= c < w,
        ;
        lemma_fundamental_div_mod_converse(r * w + c, w, r, c);
    }

    /// In a well-formed grid different cells have different keys.
    pub proof fn lemma_cell_of_key(&self, index: int)
        requires
            self.wf(),
            0 <= index < self.tiles.len(),
        ensures
            self.has_key(self.key_at(index)),
            self.cell_of_key(self.key_at(index)) == index,
    {
        let other = self.cell_of_key(self.key_at(index));
        self.lemma_position_in_grid(index);
        self.lemma_position_in_grid(other);
        lemma_key_injective(self.spec_position(index), self.spec_position(other));
    }

    /// Each neighbour of a position lies one step away from it, in one of
    /// the four directions, and counts.
    pub proof fn lemma_neighbour(&self, position: Position, filter: Set<Tile>, j: int)
        requires
            0 <= j < self.spec_neighbours(position, filter).len(),
        ensures
            self.accepts(self.spec_neighbours(position, filter)[j], filter),
            exists|direction: int|
                0 <= direction < 4 && #[trigger] spec_step(position, direction) == Some(
                    self.spec_neighbours(position, filter)[j],
                ),
    {
        let up = self.neighbour(position, filter, 0);
        let right = self.neighbour(position, filter, 1);
        let down = self.neighbour(position, filter, 2);
        let left = self.neighbour(position, filter, 3);
        let found = self.spec_neighbours(position, filter)[j];
        if j < up.len() {
            assert(spec_step(position, 0) == Some(found));
        } else if j < up.len() + right.len() {
            assert(spec_step(position, 1) == Some(found));
        } else if j < up.len() + right.len() + down.len() {
            assert(spec_step(position, 2) == Some(found));
        } else {
            assert(spec_step(position, 3) == Some(found));
        }
    }

    /// In the node map of a well-formed grid, the cell stored at `index`
    /// has its node under its key.
    pub proof fn lemma_node_of_cell(&self, filter: Set<Tile>, index: int)
        requires
            self.wf(),
            0 <= index < self.tiles.len(),
        ensures
            self.spec_nodes(filter).contains_key(self.key_at(index)),
            self.spec_nodes(filter)[self.key_at(index)] == self.node_at(index, filter),
    {
        self.lemma_cell_of_key(index);
    }

    /// In the node map of a well-formed grid, every key is the key of a
    /// cell within the grid, and the node under it is the node of that cell:
    /// it has the cell's position and tile.
    pub proof fn lemma_cell_of_node(&self, filter: Set<Tile>, key: Seq<char>)
        requires
            self.wf(),
            self.spec_nodes(filter).contains_key(key),
        ensures
            0 <= self.cell_of_key(key) < self.tiles.len(),
            self.spec_nodes(filter)[key] == self.node_at(self.cell_of_key(key), filter),
            self.spec_nodes(filter)[key].position.key() == key,
            self.contains(self.spec_nodes(filter)[key].position),
            self.spec_index(self.spec_nodes(filter)[key].position) == self.cell_of_key(key),
            self.tile_at(self.spec_nodes(filter)[key].position) == Some(
                self.spec_nodes(filter)[key].value,
            ),
    {
        let index = self.cell_of_key(key);
        self.lemma_position_in_grid(index);
    }

    /// The node map of a grid holds finitely many keys.
    pub proof fn lemma_nodes_finite(&self, filter: Set<Tile>)
        ensures
            self.spec_nodes(filter).dom().finite(),
    {
        let cells = vstd::set_lib::set_int_range(0, self.tiles.len() as int);
        let key_at = |index: int| self.key_at(index);
        vstd::set_lib::lemma_int_range(0, self.tiles.len() as int);
        cells.lemma_map_finite(key_at);
        assert(self.spec_nodes(filter).dom() =~= cells.map(key_at)) by {
            assert forall|key: Seq<char>|
                self.spec_nodes(filter).dom().contains(key) implies cells.map(key_at).contains(
                key,
            ) by {
                let index = self.cell_of_key(key);
                assert(cells.contains(index) && key == key_at(index));
            }
            assert forall|key: Seq<char>|
                cells.map(key_at).contains(key) implies self.spec_nodes(filter).dom().contains(
                key,
            ) by {
                let index = choose|index: int| cells.contains(index) && key == key_at(index);
                assert(self.key_at(index) == key);
            }
        }
    }

    /// An end node is a path cell, and each of its neighbours is the key of
    /// an empty cell one step away from it.
    pub proof fn lemma_end_node(&self, key: Seq<char>, j: int)
        requires
            self.wf(),
            self.spec_end_nodes().contains_key(key),
            0 <= j < self.spec_end_nodes()[key].neighbours.len(),
        ensures
            self.spec_end_nodes()[key].position.key() == key,
            self.contains(self.spec_end_nodes()[key].position),
            self.tile_at(self.spec_end_nodes()[key].position) == Some(Tile::Path),
            self.spec_end_nodes()[key].value == Tile::Path,
            self.spec_end_nodes()[key].neighbours.len() > 0,
            exists|direction: int|
                0 <= direction < 4 && {
                    let touched = #[trigger] spec_step(
                        self.spec_end_nodes()[key].position,
                        direction,
                    );
                    &&& touched is Some
                    &&& self.contains(touched->0)
                    &&& self.tile_at(touched->0) == Some(Tile::Empty)
                    &&& touched->0.key() == self.spec_end_nodes()[key].neighbours[j]
                },
    {
        let filter = set![Tile::Empty];
        self.lemma_cell_of_node(filter, key);
        let node = self.spec_end_nodes()[key];
        self.lemma_neighbour(node.position, filter, j);
        let direction = choose|direction: int|
            0 <= direction < 4 && #[trigger] spec_step(node.position, direction) == Some(
                self.spec_neighbours(node.position, filter)[j],
            );
        assert(spec_step(node.position, direction) is Some);
    }
}

} // verus!
