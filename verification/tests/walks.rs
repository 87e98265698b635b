use social_graph::walk::{
    find_neighbors, follow_neighbor, is_jump, map_users_to_indices, pagerank, same_as, walks,
    UserData,
};

fn user(age: i32, gender: &str, time_spent: i32) -> UserData {
    UserData {
        age,
        gender: gender.to_string(),
        time_spent,
        platform: "web".to_string(),
        interests: "chess".to_string(),
        profession: "cook".to_string(),
        income: 1000,
    }
}

#[test]
fn neighbors_are_alike_in_age_gender_and_time() {
    let data = vec![
        user(30, "f", 4),
        user(40, "f", 9),  // ten years and five units away: still a neighbour
        user(41, "f", 4),  // eleven years away
        user(30, "m", 4),  // other gender
        user(30, "f", 10), // six units away
        user(20, "f", -1),
    ];
    assert_eq!(find_neighbors(&data[0], &data), vec![0, 1, 5]);
}

#[test]
fn neighbors_of_extreme_values_do_not_overflow() {
    let data = vec![user(i32::MAX, "f", i32::MIN), user(i32::MIN, "f", i32::MAX)];
    assert_eq!(find_neighbors(&data[0], &data), vec![0]);
    assert_eq!(find_neighbors(&data[1], &data), vec![1]);
}

#[test]
fn neighbors_in_no_data_are_none() {
    assert_eq!(find_neighbors(&user(1, "f", 1), &[]), Vec::<usize>::new());
}

#[test]
fn same_as_compares_every_field() {
    let a = user(30, "f", 4);
    assert!(same_as(&a, &user(30, "f", 4)));
    assert!(!same_as(&a, &user(31, "f", 4)));
    assert!(!same_as(&a, &user(30, "m", 4)));
    assert!(!same_as(&a, &user(30, "f", 5)));
    let mut b = user(30, "f", 4);
    b.income = 1;
    assert!(!same_as(&a, &b));
    let mut c = user(30, "f", 4);
    c.platform = "app".to_string();
    assert!(!same_as(&a, &c));
}

#[test]
fn equal_records_map_to_the_last_of_them() {
    let data = vec![user(1, "f", 1), user(2, "f", 1), user(1, "f", 1), user(3, "m", 1), user(2, "f", 1)];
    assert_eq!(map_users_to_indices(&data), vec![2, 4, 2, 3, 4]);
    assert_eq!(map_users_to_indices(&[]), Vec::<usize>::new());
}

#[test]
fn one_roll_in_ten_is_a_jump() {
    assert!(is_jump(0));
    assert!(is_jump(9));
    assert!(!is_jump(10));
    assert!(!is_jump(99));
    assert_eq!((0..100).filter(|&r| is_jump(r)).count(), 10);
}

#[test]
fn following_goes_to_the_mapped_neighbor_or_stays() {
    let user_map = vec![2, 4, 2, 3, 4];
    assert_eq!(follow_neighbor(3, &vec![0, 1, 3], &user_map, 0), 2);
    assert_eq!(follow_neighbor(3, &vec![0, 1, 3], &user_map, 1), 4);
    assert_eq!(follow_neighbor(3, &vec![0, 1, 3], &user_map, 2), 3);
    assert_eq!(follow_neighbor(3, &Vec::new(), &user_map, 0), 3);
}

#[test]
fn a_step_ends_at_a_record() {
    let data = vec![user(30, "f", 4), user(35, "f", 5), user(60, "m", 50)];
    let user_map = map_users_to_indices(&data);
    for _ in 0..2000 {
        for current in 0..data.len() {
            assert!(pagerank(current, &data, &user_map) < data.len());
        }
    }
}

#[test]
fn a_step_among_one_record_stays_there() {
    let data = vec![user(30, "f", 4)];
    let user_map = map_users_to_indices(&data);
    for _ in 0..2000 {
        assert_eq!(pagerank(0, &data, &user_map), 0);
    }
}

#[test]
fn a_step_never_ends_at_a_shadowed_duplicate_by_following() {
    // records 0 and 1 are equal, and nothing else is: whenever the walk
    // leaves record 2 it jumped; following from 0 leads to 1, the last equal
    let data = vec![user(30, "f", 4), user(30, "f", 4), user(90, "m", 90)];
    let user_map = map_users_to_indices(&data);
    let mut seen = [0usize; 3];
    for _ in 0..3000 {
        seen[pagerank(0, &data, &user_map)] += 1;
    }
    assert_eq!(seen.iter().sum::<usize>(), 3000);
    assert!(seen[1] > seen[0]);
    assert!(seen[1] > seen[2]);
}

#[test]
fn every_walk_is_counted_once() {
    let data = vec![user(30, "f", 4), user(35, "f", 5), user(60, "m", 50), user(61, "m", 52)];
    let counts = walks(&data);
    assert_eq!(counts.len(), 4);
    assert_eq!(counts.iter().sum::<u128>(), 400);
}

#[test]
fn walks_over_no_data_count_nothing() {
    assert_eq!(walks(&Vec::new()), Vec::<u128>::new());
}

#[test]
fn walks_over_one_record_all_end_there() {
    assert_eq!(walks(&vec![user(30, "f", 4)]), vec![100]);
}

#[test]
fn a_step_from_a_record_without_equal_or_near_records_stays_or_jumps() {
    // record 1 has no neighbour but itself: following leads back to it,
    // so every other outcome is a jump
    let data = vec![user(30, "f", 4), user(90, "m", 90), user(31, "f", 5)];
    let user_map = map_users_to_indices(&data);
    let mut seen = [0usize; 3];
    for _ in 0..3000 {
        seen[pagerank(1, &data, &user_map)] += 1;
    }
    assert_eq!(seen.iter().sum::<usize>(), 3000);
    assert!(seen[1] > seen[0] + seen[2]);
}
