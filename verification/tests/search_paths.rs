use rust_problem_search::breath_first_search::BreathFirstSearch;
use rust_problem_search::graph::Graph;
use rust_problem_search::node::{Node, NodeMap};
use rust_problem_search::position::Position;
use rust_problem_search::predecessors::Predecessors;
use rust_problem_search::problem::Problem;
use rust_problem_search::tile::Tile;

fn maze() -> Vec<u8> {
    vec![
        2, 2, 2, 2, 2, 2,
        2, 1, 2, 2, 1, 2,
        2, 1, 2, 2, 1, 2,
        2, 1, 1, 1, 1, 2,
        2, 1, 2, 2, 1, 2,
        2, 1, 2, 2, 2, 2,
    ]
}

fn problem_on(graph: &Graph, start: &str, goal: &str) -> Problem {
    Problem::new(graph.get_nodes(), start.to_string(), goal.to_string(), graph.size)
}

fn entries(graph: &Graph, predecessors: &Predecessors) -> Vec<(String, String)> {
    let mut found = vec![];
    for index in 0..graph.tiles.len() {
        let key = graph.get_position_at_index(index).to_key();
        if let Some(parent) = predecessors.get(&key) {
            found.push((key, parent.clone()));
        }
    }
    found
}

fn pair(key: &str, parent: &str) -> (String, String) {
    (key.to_string(), parent.to_string())
}

fn node(row: u32, column: u32, neighbours: &[&str]) -> Node {
    Node::new(
        Position::new(row, column),
        Tile::Path,
        neighbours.iter().map(|key| key.to_string()).collect(),
    )
}

#[test]
fn search_from_the_goal_returns_the_start_alone() {
    let graph = Graph::new(maze(), 6, 6);
    for key in ["1-1", "3-3", "5-1", "0-0", "2-2"] {
        let problem = problem_on(&graph, key, key);
        let result = BreathFirstSearch::search(&problem).unwrap();
        assert_eq!(1, result.len());
        assert_eq!(vec![pair(key, "")], entries(&graph, &result));
    }
}

#[test]
fn search_without_a_connection_returns_nothing() {
    let tiles: Vec<u8> = vec![
        1, 1, 2, 1,
        1, 2, 2, 1,
        2, 2, 1, 1,
    ];
    let graph = Graph::new(tiles, 4, 3);
    assert!(BreathFirstSearch::search(&problem_on(&graph, "0-0", "2-2")).is_none());
    assert!(BreathFirstSearch::search(&problem_on(&graph, "2-2", "1-0")).is_none());
    assert!(BreathFirstSearch::search(&problem_on(&graph, "0-0", "0-2")).is_none());
    assert!(BreathFirstSearch::search(&problem_on(&graph, "0-2", "0-0")).is_none());
    assert!(BreathFirstSearch::search(&problem_on(&graph, "0-0", "1-0")).is_some());
    assert!(BreathFirstSearch::search(&problem_on(&graph, "0-3", "2-2")).is_some());
}

#[test]
fn search_twice_gives_the_same_map_and_mask() {
    let graph = Graph::new(maze(), 6, 6);
    let first_problem = problem_on(&graph, "1-1", "1-4");
    let second_problem = problem_on(&graph, "1-1", "1-4");
    let first = BreathFirstSearch::search(&first_problem).unwrap();
    let again = BreathFirstSearch::search(&first_problem).unwrap();
    let second = BreathFirstSearch::search(&second_problem).unwrap();
    assert_eq!(first.len(), again.len());
    assert_eq!(first.len(), second.len());
    assert_eq!(entries(&graph, &first), entries(&graph, &again));
    assert_eq!(entries(&graph, &first), entries(&graph, &second));
    let mask = BreathFirstSearch::get_path(&first, &graph, &first_problem);
    assert_eq!(mask, BreathFirstSearch::get_path(&again, &graph, &first_problem));
    assert_eq!(mask, BreathFirstSearch::get_path(&second, &graph, &second_problem));
}

#[test]
fn search_returns_exactly_the_explored_keys() {
    let tiles: Vec<u8> = vec![2, 1, 2, 2, 1, 1, 2, 1, 2];
    let graph = Graph::new(tiles, 3, 3);
    let problem = problem_on(&graph, "0-1", "2-1");
    let result = BreathFirstSearch::search(&problem).unwrap();
    assert_eq!(3, result.len());
    assert_eq!(
        vec![pair("0-1", ""), pair("1-1", "0-1"), pair("2-1", "1-1")],
        entries(&graph, &result)
    );
    assert!(!result.contains_key("1-2"));
    assert!(!result.contains_key(""));
}

#[test]
fn the_first_node_to_reach_the_goal_becomes_its_predecessor() {
    let graph = Graph::new(vec![1; 9], 3, 3);
    let problem = problem_on(&graph, "0-0", "1-1");
    let result = BreathFirstSearch::search(&problem).unwrap();
    assert_eq!(
        vec![pair("0-0", ""), pair("0-1", "0-0"), pair("1-1", "0-1")],
        entries(&graph, &result)
    );
    assert_eq!(
        vec![1, 1, 0, 0, 1, 0, 0, 0, 0],
        BreathFirstSearch::get_path(&result, &graph, &problem)
    );

    let far = problem_on(&graph, "0-0", "2-2");
    let result = BreathFirstSearch::search(&far).unwrap();
    assert_eq!(
        vec![
            pair("0-0", ""),
            pair("0-1", "0-0"),
            pair("0-2", "0-1"),
            pair("1-0", "0-0"),
            pair("1-1", "0-1"),
            pair("2-0", "1-0"),
            pair("2-2", "1-2"),
            pair("1-2", "0-2"),
        ]
        .into_iter()
        .collect::<std::collections::BTreeSet<_>>(),
        entries(&graph, &result)
            .into_iter()
            .collect::<std::collections::BTreeSet<_>>()
    );
    assert_eq!(
        vec![1, 1, 1, 0, 0, 1, 0, 0, 1],
        BreathFirstSearch::get_path(&result, &graph, &far)
    );
}

#[test]
fn neighbours_are_tried_in_the_order_in_which_the_node_names_them() {
    let mut nodes = NodeMap::new();
    nodes.insert("0-0".to_string(), node(0, 0, &["1-0", "0-1"]));
    nodes.insert("0-1".to_string(), node(0, 1, &["1-1"]));
    nodes.insert("1-0".to_string(), node(1, 0, &["1-1"]));
    nodes.insert("1-1".to_string(), node(1, 1, &[]));
    let problem = Problem::new(nodes, "0-0".to_string(), "1-1".to_string(), 4);
    let result = BreathFirstSearch::search(&problem).unwrap();
    assert_eq!(3, result.len());
    assert_eq!(Some(&"1-0".to_string()), result.get("1-1"));
    assert_eq!(Some(&"0-0".to_string()), result.get("1-0"));
    assert_eq!(Some(&"".to_string()), result.get("0-0"));
    assert!(result.get("0-1").is_none());
}

#[test]
fn edges_lead_one_way_only() {
    let mut nodes = NodeMap::new();
    nodes.insert("0-0".to_string(), node(0, 0, &["0-1"]));
    nodes.insert("0-1".to_string(), node(0, 1, &["0-2"]));
    nodes.insert("0-2".to_string(), node(0, 2, &[]));
    let there = Problem::new(nodes, "0-0".to_string(), "0-2".to_string(), 3);
    let result = BreathFirstSearch::search(&there).unwrap();
    assert_eq!(Some(&"0-1".to_string()), result.get("0-2"));

    let mut nodes = NodeMap::new();
    nodes.insert("0-0".to_string(), node(0, 0, &["0-1"]));
    nodes.insert("0-1".to_string(), node(0, 1, &["0-2"]));
    nodes.insert("0-2".to_string(), node(0, 2, &[]));
    let back = Problem::new(nodes, "0-2".to_string(), "0-0".to_string(), 3);
    assert!(BreathFirstSearch::search(&back).is_none());
}

#[test]
fn the_mask_marks_one_cell_more_than_the_goal_is_steps_away() {
    let graph = Graph::new(maze(), 6, 6);
    let samples = [
        ("1-1", "1-1", 0usize),
        ("1-1", "2-1", 1),
        ("1-1", "3-2", 3),
        ("1-1", "1-4", 7),
        ("5-1", "1-4", 7),
        ("5-1", "4-4", 6),
        ("4-4", "1-1", 6),
    ];
    for (start, goal, steps) in samples {
        let problem = problem_on(&graph, start, goal);
        let result = BreathFirstSearch::search(&problem).unwrap();
        let mask = BreathFirstSearch::get_path(&result, &graph, &problem);
        assert_eq!(36, mask.len());
        assert_eq!(steps + 1, mask.iter().filter(|&&cell| cell == 1).count());
        assert!(mask.iter().all(|&cell| cell == 0 || cell == 1));
    }
}

#[test]
fn the_search_takes_the_shorter_of_two_ways() {
    let tiles: Vec<u8> = vec![
        1, 1, 1, 1, 1,
        1, 2, 2, 2, 1,
        1, 2, 1, 1, 1,
        1, 2, 1, 2, 2,
        1, 1, 1, 2, 2,
    ];
    let graph = Graph::new(tiles, 5, 5);
    let problem = problem_on(&graph, "0-0", "3-2");
    let result = BreathFirstSearch::search(&problem).unwrap();
    assert_eq!(
        vec![
            1, 0, 0, 0, 0,
            1, 0, 0, 0, 0,
            1, 0, 0, 0, 0,
            1, 0, 1, 0, 0,
            1, 1, 1, 0, 0,
        ],
        BreathFirstSearch::get_path(&result, &graph, &problem)
    );

    let problem = problem_on(&graph, "0-0", "2-3");
    let result = BreathFirstSearch::search(&problem).unwrap();
    assert_eq!(
        vec![
            1, 1, 1, 1, 1,
            0, 0, 0, 0, 1,
            0, 0, 0, 1, 1,
            0, 0, 0, 0, 0,
            0, 0, 0, 0, 0,
        ],
        BreathFirstSearch::get_path(&result, &graph, &problem)
    );
}

#[test]
fn of_two_ways_of_one_length_the_search_takes_the_one_found_first() {
    let tiles: Vec<u8> = vec![
        1, 1, 1, 1, 1,
        1, 2, 2, 2, 1,
        1, 2, 1, 1, 1,
        1, 2, 1, 2, 2,
        1, 1, 1, 2, 2,
    ];
    let graph = Graph::new(tiles, 5, 5);
    let problem = problem_on(&graph, "0-0", "2-2");
    let result = BreathFirstSearch::search(&problem).unwrap();
    assert_eq!(Some(&"2-3".to_string()), result.get("2-2"));
    assert_eq!(
        vec![
            1, 1, 1, 1, 1,
            0, 0, 0, 0, 1,
            0, 0, 1, 1, 1,
            0, 0, 0, 0, 0,
            0, 0, 0, 0, 0,
        ],
        BreathFirstSearch::get_path(&result, &graph, &problem)
    );
}

#[test]
fn every_marked_cell_but_the_start_has_a_marked_cell_beside_it() {
    let graph = Graph::new(maze(), 6, 6);
    for (start, goal) in [("1-1", "1-4"), ("5-1", "4-4"), ("1-4", "5-1"), ("3-3", "3-3")] {
        let problem = problem_on(&graph, start, goal);
        let result = BreathFirstSearch::search(&problem).unwrap();
        let mask = BreathFirstSearch::get_path(&result, &graph, &problem);
        let start_index = graph.get_index_at_position(problem.nodes.get(start).unwrap().position);
        let goal_index = graph.get_index_at_position(problem.nodes.get(goal).unwrap().position);
        assert_eq!(1, mask[start_index]);
        assert_eq!(1, mask[goal_index]);
        for index in 0..mask.len() {
            if mask[index] == 1 && index != start_index {
                let here = graph.get_position_at_index(index);
                let beside = (0..mask.len()).any(|other| {
                    mask[other] == 1 && here.distance(&graph.get_position_at_index(other)) == 1
                });
                assert!(beside);
            }
        }
    }
}

#[test]
fn every_predecessor_is_an_explored_node_that_names_its_successor() {
    let graph = Graph::new(maze(), 6, 6);
    let problem = problem_on(&graph, "5-1", "1-4");
    let result = BreathFirstSearch::search(&problem).unwrap();
    let found = entries(&graph, &result);
    assert_eq!(result.len(), found.len());
    for (key, parent) in found {
        if key == "5-1" {
            assert_eq!("", parent);
        } else {
            assert!(result.contains_key(&parent));
            assert!(problem.nodes.get(&parent).unwrap().neighbours.contains(&key));
        }
    }
}

#[test]
fn get_path_of_a_lone_start_marks_one_cell() {
    let graph = Graph::new(maze(), 6, 6);
    let problem = problem_on(&graph, "3-2", "3-2");
    let result = BreathFirstSearch::search(&problem).unwrap();
    let mut expected = vec![0u8; 36];
    expected[20] = 1;
    assert_eq!(expected, BreathFirstSearch::get_path(&result, &graph, &problem));
}

#[test]
fn get_path_of_an_empty_map_marks_the_goal_alone() {
    let graph = Graph::new(vec![1; 6], 3, 2);
    let problem = problem_on(&graph, "0-0", "1-2");
    let mask = BreathFirstSearch::get_path(&Predecessors::new(), &graph, &problem);
    assert_eq!(vec![0, 0, 0, 0, 0, 1], mask);
}

#[test]
fn get_path_stops_at_a_predecessor_that_is_no_node() {
    let graph = Graph::new(vec![1; 6], 3, 2);
    let problem = problem_on(&graph, "0-0", "1-2");
    let mut predecessors = Predecessors::new();
    predecessors.insert("1-2".to_string(), "1-1".to_string());
    predecessors.insert("1-1".to_string(), "7-7".to_string());
    predecessors.insert("0-1".to_string(), "0-0".to_string());
    let mask = BreathFirstSearch::get_path(&predecessors, &graph, &problem);
    assert_eq!(vec![0, 0, 0, 0, 1, 1], mask);
}

#[test]
fn get_path_goes_on_through_a_key_without_a_node() {
    let graph = Graph::new(vec![1; 6], 3, 2);
    let problem = problem_on(&graph, "0-0", "1-2");
    let mut predecessors = Predecessors::new();
    predecessors.insert("1-2".to_string(), "9-9".to_string());
    predecessors.insert("9-9".to_string(), "0-1".to_string());
    predecessors.insert("0-1".to_string(), "0-0".to_string());
    let mask = BreathFirstSearch::get_path(&predecessors, &graph, &problem);
    assert_eq!(vec![1, 1, 0, 0, 0, 1], mask);
}

#[test]
fn get_path_ends_on_a_map_that_runs_in_a_circle() {
    let graph = Graph::new(vec![1; 6], 3, 2);
    let problem = problem_on(&graph, "0-0", "1-2");
    let mut predecessors = Predecessors::new();
    predecessors.insert("1-2".to_string(), "1-1".to_string());
    predecessors.insert("1-1".to_string(), "1-0".to_string());
    predecessors.insert("1-0".to_string(), "1-1".to_string());
    let mask = BreathFirstSearch::get_path(&predecessors, &graph, &problem);
    assert_eq!(vec![0, 0, 0, 1, 1, 1], mask);
}

#[test]
fn get_path_without_a_goal_node_marks_the_way_behind_it() {
    let graph = Graph::new(vec![1; 6], 3, 2);
    let problem = Problem::new(graph.get_nodes(), "0-0".to_string(), "5-5".to_string(), 6);
    let mut predecessors = Predecessors::new();
    predecessors.insert("5-5".to_string(), "0-2".to_string());
    let mask = BreathFirstSearch::get_path(&predecessors, &graph, &problem);
    assert_eq!(vec![0, 0, 1, 0, 0, 0], mask);
}

/// The number of steps from `start` to every cell, by flooding the grid
/// ring by ring.
fn flood(tiles: &[u8], width: usize, height: usize, start: usize) -> Vec<Option<usize>> {
    let mut steps = vec![None; tiles.len()];
    steps[start] = Some(0);
    let mut ring = vec![start];
    let mut count = 0;
    while !ring.is_empty() {
        count += 1;
        let mut next = vec![];
        for cell in ring {
            if tiles[cell] != 1 {
                continue;
            }
            let (row, column) = (cell / width, cell % width);
            let mut beside = vec![];
            if row > 0 {
                beside.push(cell - width);
            }
            if column + 1 < width {
                beside.push(cell + 1);
            }
            if row + 1 < height {
                beside.push(cell + width);
            }
            if column > 0 {
                beside.push(cell - 1);
            }
            for other in beside {
                if tiles[other] == 1 && steps[other].is_none() {
                    steps[other] = Some(count);
                    next.push(other);
                }
            }
        }
        ring = next;
    }
    steps
}

#[test]
fn search_agrees_with_flooding_the_grid() {
    let mut seed: u64 = 0x2545_f491_4f6c_dd1d;
    let mut draw = move |below: u64| {
        seed = seed
            .wrapping_mul(6364136223846793005)
            .wrapping_add(1442695040888963407);
        (seed >> 33) % below
    };
    for _ in 0..300 {
        let width = 1 + draw(6) as usize;
        let height = 1 + draw(6) as usize;
        let tiles: Vec<u8> = (0..width * height)
            .map(|_| match draw(10) {
                0 | 1 => 2,
                2 => 0,
                _ => 1,
            })
            .collect();
        let graph = Graph::new(tiles.clone(), width as u32, height as u32);
        let start = draw((width * height) as u64) as usize;
        let goal = draw((width * height) as u64) as usize;
        let start_key = graph.get_position_at_index(start).to_key();
        let goal_key = graph.get_position_at_index(goal).to_key();
        let problem = problem_on(&graph, &start_key, &goal_key);
        let steps = flood(&tiles, width, height, start);
        match BreathFirstSearch::search(&problem) {
            None => assert_eq!(None, steps[goal]),
            Some(result) => {
                let away = steps[goal].unwrap();
                let mask = BreathFirstSearch::get_path(&result, &graph, &problem);
                assert_eq!(tiles.len(), mask.len());
                assert_eq!(away + 1, mask.iter().filter(|&&cell| cell == 1).count());
                assert_eq!(1, mask[start]);
                assert_eq!(1, mask[goal]);
                for (key, parent) in entries(&graph, &result) {
                    let cell =
                        graph.get_index_at_position(problem.nodes.get(&key).unwrap().position);
                    if key == start_key {
                        assert_eq!("", parent);
                        continue;
                    }
                    let before =
                        graph.get_index_at_position(problem.nodes.get(&parent).unwrap().position);
                    assert_eq!(steps[cell].unwrap(), steps[before].unwrap() + 1);
                }
            }
        }
    }
}
