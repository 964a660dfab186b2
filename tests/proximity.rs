use geo_lb::proximity::{position_of, proximity_order, rank_locations_by_proximity, RankError};

fn strings(ids: &[&str]) -> Vec<String> {
    ids.iter().map(|s| s.to_string()).collect()
}

#[test]
fn ranks_by_ascending_distance() {
    // A is the reference; B is 10 km away, C 50 km.
    let ids = strings(&["C", "A", "B"]);
    let keys = vec![50, 0, 10];
    let r = rank_locations_by_proximity(&ids, &keys, &"A".to_string());
    assert_eq!(r, Ok(strings(&["A", "B", "C"])));
}

#[test]
fn equal_distances_keep_supplied_order() {
    let ids = strings(&["R", "p", "q", "s"]);
    let keys = vec![0, 7, 3, 7];
    let r = rank_locations_by_proximity(&ids, &keys, &"R".to_string());
    assert_eq!(r, Ok(strings(&["R", "q", "p", "s"])));
}

#[test]
fn missing_reference_is_not_found() {
    let ids = strings(&["A", "B"]);
    let keys = vec![0, 1];
    assert_eq!(
        rank_locations_by_proximity(&ids, &keys, &"X".to_string()),
        Err(RankError::NotFound)
    );
    let none: Vec<String> = Vec::new();
    assert_eq!(
        rank_locations_by_proximity(&none, &Vec::new(), &"A".to_string()),
        Err(RankError::NotFound)
    );
}

#[test]
fn single_location_ranks_itself() {
    let ids = strings(&["A"]);
    assert_eq!(
        rank_locations_by_proximity(&ids, &vec![0], &"A".to_string()),
        Ok(strings(&["A"]))
    );
}

#[test]
fn order_of_indices_is_stable() {
    assert_eq!(proximity_order(&vec![5, 1, 5, 0, 1]), vec![3, 1, 4, 0, 2]);
    assert_eq!(proximity_order(&vec![]), Vec::<usize>::new());
    assert_eq!(proximity_order(&vec![u64::MAX, 0]), vec![1, 0]);
}

#[test]
fn position_of_finds_first_match() {
    let ids = strings(&["a", "b", "a"]);
    assert_eq!(position_of(&ids, &"a".to_string()), Some(0));
    assert_eq!(position_of(&ids, &"b".to_string()), Some(1));
    assert_eq!(position_of(&ids, &"c".to_string()), None);
}
