use token_matcher::vector::vector_set;

#[test]
fn test_vector_set() {
    let strings = vec![
        "Hello".to_string(),
        "My".to_string(),
        "Name".to_string(),
        "Is".to_string(),
        "Tom".to_string(),
    ];
    let your = "Your".to_string();
    let unknown = "Unknown".to_string();
    let mut message: Vec<&str> = strings.iter().map(|s| s.as_str()).collect();
    vector_set(&mut message, 1, &your);
    vector_set(&mut message, 4, &unknown);
    vector_set(&mut message, 10, &unknown);
    assert_eq!(message, vec!["Hello", "Your", "Name", "Is", "Unknown"]);
}

#[test]
fn test_vector_set_empty_vector() {
    let mut empty_vector: Vec<&str> = vec![];
    let test_str = "test".to_string();
    vector_set(&mut empty_vector, 0, &test_str);
    assert_eq!(empty_vector, Vec::<&str>::new());
}

#[test]
fn test_vector_set_single_element() {
    let original = "original".to_string();
    let replacement = "replacement".to_string();
    let mut vector = vec![original.as_str()];
    vector_set(&mut vector, 0, &replacement);
    assert_eq!(vector, vec!["replacement"]);
}

#[test]
fn test_vector_set_out_of_bounds() {
    let strings = vec!["one".to_string(), "two".to_string()];
    let replacement = "new".to_string();
    let mut vector: Vec<&str> = strings.iter().map(|s| s.as_str()).collect();
    let original_vector = vector.clone();
    vector_set(&mut vector, 5, &replacement);
    assert_eq!(vector, original_vector);
}

#[test]
fn test_vector_set_boundary_conditions() {
    let strings = vec!["first".to_string(), "middle".to_string(), "last".to_string()];
    let new_first = "NEW_FIRST".to_string();
    let new_last = "NEW_LAST".to_string();
    let mut vector: Vec<&str> = strings.iter().map(|s| s.as_str()).collect();
    vector_set(&mut vector, 0, &new_first);
    vector_set(&mut vector, 2, &new_last);
    assert_eq!(vector, vec!["NEW_FIRST", "middle", "NEW_LAST"]);
}

#[test]
fn test_vector_set_same_value_multiple_times() {
    let strings = vec!["a".to_string(), "b".to_string(), "c".to_string()];
    let replacement = "X".to_string();
    let mut vector: Vec<&str> = strings.iter().map(|s| s.as_str()).collect();
    vector_set(&mut vector, 0, &replacement);
    vector_set(&mut vector, 1, &replacement);
    vector_set(&mut vector, 2, &replacement);
    assert_eq!(vector, vec!["X", "X", "X"]);
}

#[test]
fn vector_set_last_index_only() {
    let mut v = vec!["a", "b"];
    vector_set(&mut v, 2, "c");
    assert_eq!(v, vec!["a", "b"]);
    vector_set(&mut v, 1, "c");
    assert_eq!(v, vec!["a", "c"]);
}
