use rust_problem_search::graph::Graph;
use rust_problem_search::position::Position;
use rust_problem_search::tile::{Tile, TileSet};

fn only(tile: Tile) -> TileSet {
    let mut tiles = TileSet::new();
    tiles.insert(tile);
    tiles
}

#[test]
fn new_keeps_tiles_and_computes_size() {
    let graph = Graph::new(vec![1, 2, 0, 7, 1, 1], 3, 2);
    assert_eq!(vec![1, 2, 0, 7, 1, 1], graph.tiles);
    assert_eq!(3, graph.width);
    assert_eq!(2, graph.height);
    assert_eq!(6, graph.size);

    let empty = Graph::new(vec![], 0, 5);
    assert_eq!(0, empty.size);
}

#[test]
fn index_is_row_times_width_plus_column() {
    let graph = Graph::new(vec![], 7, 5);
    assert_eq!(0, graph.get_index_at_position(Position::new(0, 0)));
    assert_eq!(6, graph.get_index_at_position(Position::new(0, 6)));
    assert_eq!(7, graph.get_index_at_position(Position::new(1, 0)));
    assert_eq!(25, graph.get_index_at_position(Position::new(3, 4)));
    assert_eq!(34, graph.get_index_at_position(Position::new(4, 6)));
}

#[test]
fn position_is_quotient_and_remainder() {
    let graph = Graph::new(vec![], 7, 5);
    assert_eq!(Position::new(0, 0), graph.get_position_at_index(0));
    assert_eq!(Position::new(0, 6), graph.get_position_at_index(6));
    assert_eq!(Position::new(1, 0), graph.get_position_at_index(7));
    assert_eq!(Position::new(3, 4), graph.get_position_at_index(25));
    assert_eq!(Position::new(4, 6), graph.get_position_at_index(34));
}

#[test]
fn index_and_position_lead_back_to_each_other() {
    let graph = Graph::new(vec![0; 12], 4, 3);
    for index in 0..12 {
        let position = graph.get_position_at_index(index);
        assert!(position.row < 3 && position.column < 4);
        assert_eq!(index, graph.get_index_at_position(position));
    }
}

#[test]
fn value_at_index_decodes_every_byte() {
    let graph = Graph::new(vec![0, 1, 2, 3, 255], 5, 1);
    assert_eq!(Some(Tile::Empty), graph.get_value_at_index(0));
    assert_eq!(Some(Tile::Path), graph.get_value_at_index(1));
    assert_eq!(Some(Tile::Ground), graph.get_value_at_index(2));
    assert_eq!(Some(Tile::Empty), graph.get_value_at_index(3));
    assert_eq!(Some(Tile::Empty), graph.get_value_at_index(4));
    assert_eq!(None, graph.get_value_at_index(5));
    assert_eq!(None, graph.get_value_at_index(usize::MAX));
}

#[test]
fn value_at_position_is_absent_beyond_the_tiles() {
    let graph = Graph::new(vec![2, 1, 2, 2, 1, 1, 2, 1, 2], 3, 3);
    assert_eq!(Some(Tile::Path), graph.get_value_at_position(Position::new(2, 1)));
    assert_eq!(Some(Tile::Ground), graph.get_value_at_position(Position::new(2, 2)));
    assert_eq!(None, graph.get_value_at_position(Position::new(3, 0)));
    assert_eq!(None, graph.get_value_at_position(Position::new(2, 3)));
    assert_eq!(None, graph.get_value_at_position(Position::new(u32::MAX, u32::MAX)));

    let short = Graph::new(vec![1, 1], 3, 3);
    assert_eq!(Some(Tile::Path), short.get_value_at_position(Position::new(0, 1)));
    assert_eq!(None, short.get_value_at_position(Position::new(0, 2)));
    assert_eq!(None, short.get_value_at_position(Position::new(1, 1)));
}

#[test]
fn neighbours_come_in_the_order_up_right_down_left() {
    let graph = Graph::new(vec![1; 9], 3, 3);
    let neighbours = graph.get_neighbours_at_position(Position::new(1, 1), &only(Tile::Path));
    assert_eq!(
        vec![
            Position::new(0, 1),
            Position::new(1, 2),
            Position::new(2, 1),
            Position::new(1, 0),
        ],
        neighbours
    );
}

#[test]
fn neighbours_outside_the_grid_are_left_out() {
    let graph = Graph::new(vec![1; 9], 3, 3);
    let path = only(Tile::Path);
    assert_eq!(
        vec![Position::new(0, 1), Position::new(1, 0)],
        graph.get_neighbours_at_position(Position::new(0, 0), &path)
    );
    assert_eq!(
        vec![Position::new(1, 2), Position::new(2, 1)],
        graph.get_neighbours_at_position(Position::new(2, 2), &path)
    );
    assert_eq!(
        vec![Position::new(0, 2), Position::new(2, 2), Position::new(1, 1)],
        graph.get_neighbours_at_position(Position::new(1, 2), &path)
    );
    assert_eq!(
        vec![Position::new(2, 2)],
        graph.get_neighbours_at_position(Position::new(3, 2), &path)
    );
    assert_eq!(
        Vec::<Position>::new(),
        graph.get_neighbours_at_position(Position::new(u32::MAX, u32::MAX), &path)
    );
    assert_eq!(
        Vec::<Position>::new(),
        graph.get_neighbours_at_position(Position::new(0, u32::MAX), &path)
    );
}

#[test]
fn neighbours_are_chosen_by_their_tile() {
    let graph = Graph::new(vec![0, 1, 2, 1, 1, 0, 2, 2, 9], 3, 3);
    let centre = Position::new(1, 1);
    assert_eq!(
        vec![Position::new(0, 1), Position::new(1, 0)],
        graph.get_neighbours_at_position(centre, &only(Tile::Path))
    );
    assert_eq!(
        vec![Position::new(1, 2)],
        graph.get_neighbours_at_position(centre, &only(Tile::Empty))
    );
    assert_eq!(
        vec![Position::new(2, 1)],
        graph.get_neighbours_at_position(centre, &only(Tile::Ground))
    );
    assert_eq!(
        Vec::<Position>::new(),
        graph.get_neighbours_at_position(centre, &TileSet::new())
    );
    let mut both = only(Tile::Path);
    both.insert(Tile::Empty);
    assert_eq!(
        vec![Position::new(0, 1), Position::new(1, 2), Position::new(1, 0)],
        graph.get_neighbours_at_position(centre, &both)
    );
    assert_eq!(
        vec![Position::new(1, 2)],
        graph.get_neighbours_at_position(Position::new(2, 2), &only(Tile::Empty))
    );
}

#[test]
fn every_cell_has_a_node() {
    let graph = Graph::new(vec![2, 1, 0, 1, 1, 2], 3, 2);
    let nodes = graph.get_nodes();
    assert_eq!(6, nodes.len());
    for index in 0..6 {
        let position = graph.get_position_at_index(index);
        let node = nodes.get(&position.to_key()).unwrap();
        assert_eq!(position, node.position);
        assert_eq!(graph.get_value_at_index(index), Some(node.value));
        if node.value != Tile::Path {
            assert!(node.neighbours.is_empty());
        }
    }
    assert_eq!(vec!["1-1".to_string()], nodes.get("0-1").unwrap().neighbours);
    assert_eq!(vec!["1-1".to_string()], nodes.get("1-0").unwrap().neighbours);
    assert_eq!(
        vec!["0-1".to_string(), "1-0".to_string()],
        nodes.get("1-1").unwrap().neighbours
    );
    assert!(nodes.get("2-0").is_none());
}

#[test]
fn an_empty_grid_has_no_nodes() {
    let graph = Graph::new(vec![], 0, 0);
    assert!(graph.get_nodes().is_empty());
    assert!(graph.get_end_nodes().is_empty());
}

#[test]
fn end_nodes_are_the_path_cells_beside_an_empty_cell() {
    let tiles: Vec<u8> = vec![2, 1, 2, 0, 2, 1, 1, 0, 2, 1, 2, 0, 0, 0, 0, 0];
    let graph = Graph::new(tiles, 4, 4);
    let nodes = graph.get_end_nodes();
    assert_eq!(2, nodes.len());
    for index in 0..16 {
        let position = graph.get_position_at_index(index);
        let key = position.to_key();
        let expected = key == "1-2" || key == "2-1";
        assert_eq!(expected, nodes.contains_key(&key));
        if let Some(node) = nodes.get(&key) {
            assert_eq!(Tile::Path, node.value);
            assert!(!node.neighbours.is_empty());
            let beside = graph.get_neighbours_at_position(position, &only(Tile::Empty));
            assert_eq!(beside.len(), node.neighbours.len());
            for (neighbour, found) in beside.iter().zip(node.neighbours.iter()) {
                assert_eq!(1, position.distance(neighbour));
                assert_eq!(Some(Tile::Empty), graph.get_value_at_position(*neighbour));
                assert_eq!(neighbour.to_key(), *found);
            }
        }
    }
}

#[test]
fn end_nodes_of_a_region_inside_empty_cells() {
    let tiles: Vec<u8> = vec![
        0, 0, 0, 0, 0,
        0, 1, 1, 1, 0,
        0, 1, 1, 1, 0,
        0, 1, 1, 1, 0,
        0, 0, 0, 0, 0,
    ];
    let graph = Graph::new(tiles, 5, 5);
    let nodes = graph.get_end_nodes();
    assert_eq!(8, nodes.len());
    assert!(nodes.get("2-2").is_none());
    assert!(nodes.get("0-0").is_none());
    assert_eq!(
        vec!["0-1".to_string(), "1-0".to_string()],
        nodes.get("1-1").unwrap().neighbours
    );
    assert_eq!(vec!["0-2".to_string()], nodes.get("1-2").unwrap().neighbours);
    assert_eq!(
        vec!["3-4".to_string(), "4-3".to_string()],
        nodes.get("3-3").unwrap().neighbours
    );
    assert_eq!(vec!["2-0".to_string()], nodes.get("2-1").unwrap().neighbours);
}
