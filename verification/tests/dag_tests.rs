use hubullu::dag::check_dag;

#[test]
fn test_dag_ok() {
    let edges = vec![("a", "b"), ("b", "c"), ("a", "c")];
    assert!(check_dag(&edges).is_ok());
}

#[test]
fn test_dag_cycle() {
    let edges = vec![("a", "b"), ("b", "c"), ("c", "a")];
    assert!(check_dag(&edges).is_err());
}

#[test]
fn test_dag_empty() {
    let edges: Vec<(&str, &str)> = vec![];
    assert!(check_dag(&edges).is_ok());
}

#[test]
fn test_dag_self_loop() {
    let edges = vec![("a", "a")];
    let err = check_dag(&edges).unwrap_err();
    assert!(err.contains(&"a"));
}

#[test]
fn test_dag_diamond() {
    let edges = vec![("a", "b"), ("a", "c"), ("b", "d"), ("c", "d")];
    let sorted = check_dag(&edges).unwrap();
    let pos = |n: &&str| sorted.iter().position(|x| x == n).unwrap();
    assert!(pos(&"a") < pos(&"b"));
    assert!(pos(&"a") < pos(&"c"));
    assert!(pos(&"b") < pos(&"d"));
    assert!(pos(&"c") < pos(&"d"));
}

#[test]
fn test_dag_disconnected_components() {
    let edges = vec![("a", "b"), ("c", "d")];
    let sorted = check_dag(&edges).unwrap();
    assert_eq!(sorted.len(), 4);
}

#[test]
fn test_dag_partial_cycle() {
    let edges = vec![("d", "a"), ("a", "b"), ("b", "c"), ("c", "b")];
    let err = check_dag(&edges).unwrap_err();
    assert!(err.contains(&"b"));
    assert!(err.contains(&"c"));
    assert!(!err.contains(&"d"));
    assert!(!err.contains(&"a"));
}

#[test]
fn test_dag_linear_chain() {
    let edges = vec![("a", "b"), ("b", "c"), ("c", "d"), ("d", "e")];
    let sorted = check_dag(&edges).unwrap();
    assert_eq!(sorted, vec!["a", "b", "c", "d", "e"]);
}

#[test]
fn test_dag_integer_nodes() {
    let edges = vec![(1, 2), (2, 3), (1, 3)];
    let sorted = check_dag(&edges).unwrap();
    let pos = |n: &i32| sorted.iter().position(|x| x == n).unwrap();
    assert!(pos(&1) < pos(&2));
    assert!(pos(&2) < pos(&3));
}

#[test]
fn test_dag_multiple_cycles() {
    let edges = vec![("a", "b"), ("b", "a"), ("c", "d"), ("d", "c")];
    let err = check_dag(&edges).unwrap_err();
    assert_eq!(err.len(), 4);
}

#[test]
fn dag_nodes_downstream_of_a_cycle_are_not_reported() {
    let edges = vec![("a", "b"), ("b", "a"), ("b", "c"), ("x", "y")];
    let err = check_dag(&edges).unwrap_err();
    assert_eq!(err.len(), 2);
    assert!(err.contains(&"a"));
    assert!(err.contains(&"b"));
    assert!(!err.contains(&"c"));
    assert!(!err.contains(&"x"));
    assert!(!err.contains(&"y"));
}

#[test]
fn dag_owned_string_nodes() {
    let edges = vec![("p".to_string(), "q".to_string())];
    let sorted = check_dag(&edges).unwrap();
    assert_eq!(sorted, vec!["p".to_string(), "q".to_string()]);
}
