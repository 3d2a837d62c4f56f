use shut_the_box::keys::get_state_key;
use shut_the_box::moves::get_combo_tiles;
use shut_the_box::moves::get_next_legal_states_roll;
use shut_the_box::tiles::fill_range;
use shut_the_box::tiles::get_max;
use shut_the_box::tiles::get_removed_tiles;
use shut_the_box::tiles::get_single_legality;
use shut_the_box::tiles::get_start_tiles;

#[test]
fn removal_takes_first_tiles() {
    assert_eq!(get_removed_tiles(&vec![1, 2, 3], &vec![2]), Some(vec![1, 3]));
    assert_eq!(get_removed_tiles(&vec![1, 2, 1, 3], &vec![1]), Some(vec![2, 1, 3]));
    assert_eq!(get_removed_tiles(&vec![1, 2, 1, 3], &vec![1, 1]), Some(vec![2, 3]));
    assert_eq!(get_removed_tiles(&vec![1, 2, 3], &vec![3, 1]), Some(vec![2]));
    assert_eq!(get_removed_tiles(&vec![1, 2, 3], &vec![]), Some(vec![1, 2, 3]));
    assert_eq!(get_removed_tiles(&vec![], &vec![]), Some(vec![]));
}

#[test]
fn removal_of_missing_tile_is_illegal() {
    assert_eq!(get_removed_tiles(&vec![1, 2, 3], &vec![4]), None);
    assert_eq!(get_removed_tiles(&vec![1, 2, 3], &vec![2, 2]), None);
    assert_eq!(get_removed_tiles(&vec![], &vec![1]), None);
}

#[test]
fn single_legality_looks_at_largest_tile() {
    assert!(get_single_legality(&vec![1, 6], 6));
    assert!(!get_single_legality(&vec![1, 7], 6));
    assert!(!get_single_legality(&vec![], 6));
    assert!(get_single_legality(&vec![0], 0));
}

#[test]
fn max_of_values() {
    assert_eq!(get_max(&vec![3, 9, 2]), 9);
    assert_eq!(get_max(&vec![5]), 5);
    assert_eq!(get_max(&vec![0, 0]), 0);
}

#[test]
fn start_tiles_from_range_or_list() {
    assert_eq!(get_start_tiles(1, 9, vec![]), vec![1, 2, 3, 4, 5, 6, 7, 8, 9]);
    assert_eq!(get_start_tiles(1, 9, vec![4, 2]), vec![4, 2]);
    assert_eq!(get_start_tiles(5, 4, vec![]), Vec::<u16>::new());
    assert_eq!(get_start_tiles(7, 7, vec![]), vec![7]);
    assert_eq!(fill_range(65534, 65535), vec![65534, 65535]);
}

#[test]
fn keys_tell_states_apart() {
    let tiles = vec![1, 2, 1, 3];
    assert_eq!(get_state_key(&tiles, &vec![1, 2, 1, 3]), Some(0b1111));
    assert_eq!(get_state_key(&tiles, &vec![]), Some(0));
    assert_eq!(get_state_key(&tiles, &vec![1]), Some(0b1000));
    assert_eq!(get_state_key(&tiles, &vec![2, 1]), Some(0b0110));
    assert_eq!(get_state_key(&tiles, &vec![1, 1]), Some(0b1010));
    assert_eq!(get_state_key(&tiles, &vec![3]), Some(0b0001));
    assert_eq!(get_state_key(&tiles, &vec![3, 1]), None);
    assert_eq!(get_state_key(&tiles, &vec![4]), None);
}

#[test]
fn combos_name_tiles_by_position() {
    assert_eq!(get_combo_tiles(&vec![5, 6, 7], &vec![0, 2]), vec![5, 7]);
    assert_eq!(get_combo_tiles(&vec![5, 6, 7], &vec![]), Vec::<u16>::new());
}

#[test]
fn next_states_follow_the_removals() {
    let start = vec![1, 2, 3];
    let trps = vec![vec![], vec![0, 1], vec![2], vec![1]];
    // The removal of nothing leaves the state as it is; tile 2 is gone from
    // [1, 3], so the removals that name it are not legal there.
    assert_eq!(
        get_next_legal_states_roll(&vec![1, 3], &start, &trps),
        vec![vec![1, 3], vec![1]]
    );
    assert_eq!(
        get_next_legal_states_roll(&start, &start, &trps),
        vec![vec![1, 2, 3], vec![3], vec![1, 2], vec![1, 3]]
    );
    assert_eq!(
        get_next_legal_states_roll(&vec![], &start, &vec![vec![]]),
        vec![Vec::<u16>::new()]
    );
    assert_eq!(
        get_next_legal_states_roll(&start, &start, &vec![]),
        Vec::<Vec<u16>>::new()
    );
}
