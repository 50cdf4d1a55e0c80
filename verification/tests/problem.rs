use rust_problem_search::node::{Node, NodeMap};
use rust_problem_search::position::Position;
use rust_problem_search::problem::Problem;
use rust_problem_search::tile::Tile;

#[test]
fn new_with_nodes_and_size_returns_position() {
    let nodes = NodeMap::new();
    let problem = Problem::new(nodes, "1-1".to_string(), "1-2".to_string(), 10);

    assert_eq!(NodeMap::new().len(), problem.nodes.len());
    assert_eq!("1-1".to_string(), problem.start);
    assert_eq!("1-2".to_string(), problem.goal);
    assert_eq!(10, problem.size);
}

#[test]
fn new_keeps_the_nodes() {
    let mut nodes = NodeMap::new();
    let node = Node::new(Position::new(1, 1), Tile::Path, vec!["1-2".to_string()]);
    nodes.insert("1-1".to_string(), node.clone());
    let problem = Problem::new(nodes, "1-1".to_string(), "1-2".to_string(), 4);

    assert_eq!(1, problem.nodes.len());
    assert_eq!(Some(&node), problem.nodes.get("1-1"));
}
