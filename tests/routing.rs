use geo_lb::routing::{RoutingTable, SelectError};
use std::sync::Mutex;

fn order_of(ids: &[&str]) -> Vec<String> {
    ids.iter().map(|s| s.to_string()).collect()
}

fn table_with(entries: &[(&str, &str)]) -> RoutingTable {
    let mut t = RoutingTable::new();
    for (loc, b) in entries {
        t.add_backend(loc.to_string(), b.to_string());
    }
    t
}

#[test]
fn round_robin_visits_each_backend_once_then_wraps() {
    let mut t = table_with(&[("x", "b1"), ("x", "b2"), ("x", "b3")]);
    let order = order_of(&["x"]);
    let picks: Vec<String> = (0..4).map(|_| t.select_backend(&order).unwrap()).collect();
    assert_eq!(picks, vec!["b1", "b2", "b3", "b1"]);
}

#[test]
fn single_backend_is_always_chosen() {
    let mut t = table_with(&[("x", "only:80")]);
    let order = order_of(&["x"]);
    for _ in 0..5 {
        assert_eq!(t.select_backend(&order), Ok("only:80".to_string()));
    }
}

#[test]
fn nearest_location_with_backends_is_preferred() {
    // Order A, B, C; A has no backends, B has two, C has one.
    let mut t = table_with(&[("B", "b1:80"), ("B", "b2:80"), ("C", "c1:80")]);
    let order = order_of(&["A", "B", "C"]);
    let picks: Vec<String> = (0..3).map(|_| t.select_backend(&order).unwrap()).collect();
    assert_eq!(picks, vec!["b1:80", "b2:80", "b1:80"]);
}

#[test]
fn fails_over_to_farther_location() {
    let mut t = table_with(&[("C", "c1:80")]);
    let order = order_of(&["A", "B", "C"]);
    for _ in 0..4 {
        assert_eq!(t.select_backend(&order), Ok("c1:80".to_string()));
    }
}

#[test]
fn unavailable_when_no_location_has_backends() {
    let mut t = table_with(&[("Z", "z1:80")]);
    let order = order_of(&["A", "B"]);
    assert_eq!(t.select_backend(&order), Err(SelectError::Unavailable));
    assert_eq!(t.select_backend(&order_of(&[])), Err(SelectError::Unavailable));
    let mut empty = RoutingTable::new();
    assert_eq!(empty.select_backend(&order_of(&["A"])), Err(SelectError::Unavailable));
}

#[test]
fn failed_selection_moves_no_cursor() {
    let mut t = table_with(&[("x", "b1"), ("x", "b2")]);
    assert_eq!(t.select_backend(&order_of(&["x"])), Ok("b1".to_string()));
    assert_eq!(t.select_backend(&order_of(&["y"])), Err(SelectError::Unavailable));
    assert_eq!(t.select_backend(&order_of(&["x"])), Ok("b2".to_string()));
}

#[test]
fn cursors_are_per_location() {
    let mut t = table_with(&[("x", "x1"), ("x", "x2"), ("y", "y1"), ("y", "y2")]);
    assert_eq!(t.select_backend(&order_of(&["x", "y"])), Ok("x1".to_string()));
    assert_eq!(t.select_backend(&order_of(&["y", "x"])), Ok("y1".to_string()));
    assert_eq!(t.select_backend(&order_of(&["x", "y"])), Ok("x2".to_string()));
    assert_eq!(t.select_backend(&order_of(&["y", "x"])), Ok("y2".to_string()));
    assert_eq!(t.select_backend(&order_of(&["x"])), Ok("x1".to_string()));
}

#[test]
fn selections_under_one_lock_advance_the_cursor_once_each() {
    let shared = Mutex::new(table_with(&[("x", "b0"), ("x", "b1"), ("x", "b2")]));
    let order = order_of(&["x"]);
    let m = 7;
    let picks: Vec<String> = (0..m)
        .map(|_| shared.lock().unwrap().select_backend(&order).unwrap())
        .collect();
    let expected: Vec<String> = (0..m).map(|i| format!("b{}", i % 3)).collect();
    assert_eq!(picks, expected);
    // The next pick shows the cursor has moved exactly m times.
    assert_eq!(shared.lock().unwrap().select_backend(&order), Ok(format!("b{}", m % 3)));
}
