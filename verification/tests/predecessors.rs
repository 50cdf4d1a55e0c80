use rust_problem_search::predecessors::Predecessors;

#[test]
fn predecessors_start_empty() {
    let predecessors = Predecessors::new();
    assert_eq!(0, predecessors.len());
    assert!(predecessors.is_empty());
    assert!(predecessors.get("0-0").is_none());
    assert!(!predecessors.contains_key(""));
}

#[test]
fn predecessors_insert_records_and_replaces() {
    let mut predecessors = Predecessors::new();
    predecessors.insert("0-0".to_string(), "".to_string());
    predecessors.insert("0-1".to_string(), "0-0".to_string());
    assert_eq!(2, predecessors.len());
    assert!(!predecessors.is_empty());
    assert!(predecessors.contains_key("0-1"));
    assert!(!predecessors.contains_key("1-0"));
    assert_eq!(Some(&"".to_string()), predecessors.get("0-0"));
    assert_eq!(Some(&"0-0".to_string()), predecessors.get("0-1"));

    predecessors.insert("0-1".to_string(), "1-1".to_string());
    assert_eq!(2, predecessors.len());
    assert_eq!(Some(&"1-1".to_string()), predecessors.get("0-1"));
}
