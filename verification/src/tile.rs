use vstd::prelude::*;

verus! {

/// The classification of a single grid cell.
#[derive(Hash, PartialEq, Eq, Structural, Debug, Copy, Clone)]
pub enum Tile {
    /// Empty: the cell holds no tile and lies outside the mapped area.
    Empty,
    /// Path: the cell can be walked on.
    Path,
    /// Ground: the cell is blocked.
    Ground,
}

impl Tile {
    /// The tile that a raw byte stands for: `1` is a path, `2` is ground and
    /// every other byte is an empty cell.
    pub open spec fn decode(value: u8) -> Tile {
        if value == 1 {
            Tile::Path
        } else if value == 2 {
            Tile::Ground
        } else {
            Tile::Empty
        }
    }

    /// Decodes a raw byte. Decoding never fails: unknown bytes give
    /// [`Tile::Empty`].
    pub fn from_u8(value: u8) -> (tile: Tile)
        ensures
            tile == Tile::decode(value),
    {
        match value {
            1 => Tile::Path,
            2 => Tile::Ground,
            _ => Tile::Empty,
        }
    }
}

/// A set of tile kinds, used to select which neighbouring cells count.
#[derive(Debug, Copy, Clone)]
pub struct TileSet {
    empty: bool,
    path: bool,
    ground: bool,
}

impl View for TileSet {
    type V = Set<Tile>;

    closed spec fn view(&self) -> Set<Tile> {
        Set::new(
            |tile: Tile|
                match tile {
                    Tile::Empty => self.empty,
                    Tile::Path => self.path,
                    Tile::Ground => self.ground,
                },
        )
    }
}

impl TileSet {
    /// The empty set.
    pub fn new() -> (tiles: TileSet)
        ensures
            tiles@ == Set::<Tile>::empty(),
    {
        let tiles = TileSet { empty: false, path: false, ground: false };
        assert(tiles@ =~= Set::<Tile>::empty());
        tiles
    }

    /// Adds `tile` to the set. Returns whether it was absent before.
    pub fn insert(&mut self, tile: Tile) -> (fresh: bool)
        ensures
            final(self)@ == old(self)@.insert(tile),
            fresh == !old(self)@.contains(tile),
    {
        let fresh = !self.contains(&tile);
        match tile {
            Tile::Empty => {
                self.empty = true;
            },
            Tile::Path => {
                self.path = true;
            },
            Tile::Ground => {
                self.ground = true;
            },
        }
        assert(self@ =~= old(self)@.insert(tile));
        fresh
    }

    /// Whether `tile` is in the set.
    pub fn contains(&self, tile: &Tile) -> (found: bool)
        ensures
            found == self@.contains(*tile),
    {
        match *tile {
            Tile::Empty => self.empty,
            Tile::Path => self.path,
            Tile::Ground => self.ground,
        }
    }
}

} // verus!
