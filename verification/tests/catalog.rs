use shut_the_box::catalog::get_srt_dedup_keys;
use shut_the_box::catalog::get_tile_removal_possibilities;
use shut_the_box::catalog::r_tile_removal;
use shut_the_box::dice::get_roll_probs;
use shut_the_box::game::get_game_meta;
use shut_the_box::game::Algorithm;
use shut_the_box::game::ConfigError;
use shut_the_box::game::InitData;
use shut_the_box::parallel::distinct_states;
use shut_the_box::parallel::get_game_states_by_tiles_remaining;
use shut_the_box::parallel::get_tile_combos;

fn sorted(mut combos: Vec<Vec<usize>>) -> Vec<Vec<usize>> {
    combos.sort();
    combos
}

#[test]
fn removals_for_a_sum() {
    let tiles = vec![1, 2, 3, 4, 5, 6, 7, 8, 9];
    assert_eq!(
        sorted(r_tile_removal(&tiles, 0, 7, 0)),
        vec![vec![0, 1, 3], vec![0, 5], vec![1, 4], vec![2, 3], vec![6]]
    );
    assert_eq!(sorted(r_tile_removal(&tiles, 0, 7, 2)), vec![vec![0, 5], vec![1, 4], vec![2, 3], vec![6]]);
    assert_eq!(r_tile_removal(&tiles, 0, 7, 1), vec![vec![6]]);
    assert_eq!(r_tile_removal(&tiles, 0, 10, 1), Vec::<Vec<usize>>::new());
    assert_eq!(sorted(r_tile_removal(&tiles, 6, 9, 0)), vec![vec![8]]);
}

#[test]
fn removals_stand_in_the_order_of_their_tiles() {
    let tiles = vec![1, 2, 3, 4, 5, 6, 7, 8, 9];
    assert_eq!(
        r_tile_removal(&tiles, 0, 7, 0),
        vec![vec![0, 1, 3], vec![0, 5], vec![1, 4], vec![2, 3], vec![6]]
    );
    assert_eq!(
        r_tile_removal(&tiles, 0, 7, 2),
        vec![vec![0, 5], vec![1, 4], vec![2, 3], vec![6]]
    );
    // Tiles that are alike are told apart by their positions; a tile worth
    // nothing goes with a later tile that completes the sum.
    assert_eq!(
        r_tile_removal(&vec![2, 1, 0, 1, 2], 0, 2, 0),
        vec![vec![0], vec![1, 2, 3], vec![1, 3], vec![2, 4], vec![4]]
    );
}

#[test]
fn removal_for_nothing_is_empty() {
    assert_eq!(r_tile_removal(&vec![1, 2, 3], 0, 0, 0), vec![Vec::<usize>::new()]);
    assert_eq!(r_tile_removal(&vec![0, 0], 0, 0, 1), vec![Vec::<usize>::new()]);
    assert_eq!(r_tile_removal(&vec![], 0, 0, 0), vec![Vec::<usize>::new()]);
}

#[test]
fn equal_tiles_are_told_apart() {
    assert_eq!(sorted(r_tile_removal(&vec![1, 1, 2], 0, 3, 0)), vec![vec![0, 2], vec![1, 2]]);
    assert_eq!(sorted(r_tile_removal(&vec![1, 1], 0, 2, 0)), vec![vec![0, 1]]);
    assert_eq!(sorted(r_tile_removal(&vec![1, 1], 0, 1, 1)), vec![vec![0], vec![1]]);
}

#[test]
fn a_removal_ends_with_a_tile_that_counts() {
    assert_eq!(sorted(r_tile_removal(&vec![0, 3], 0, 3, 0)), vec![vec![0, 1], vec![1]]);
    assert_eq!(sorted(r_tile_removal(&vec![3, 0], 0, 3, 0)), vec![vec![0]]);
}

#[test]
fn every_removal_adds_up() {
    let tiles: Vec<u16> = vec![1, 2, 2, 3, 5, 8, 4];
    for limit in [0u16, 1, 2, 3] {
        for targ in 0u16..=25 {
            let combos = r_tile_removal(&tiles, 0, targ, limit);
            for combo in &combos {
                let sum: u16 = combo.iter().map(|p: &usize| tiles[*p]).sum();
                assert_eq!(sum, targ);
                assert!(combo.windows(2).all(|w: &[usize]| w[0] < w[1]));
                assert!(limit == 0 || combo.len() <= limit as usize);
            }
            let mut distinct = combos.clone();
            distinct.sort();
            distinct.dedup();
            assert_eq!(distinct.len(), combos.len());
        }
    }
}

#[test]
fn catalog_has_each_roll() {
    let trp = get_tile_removal_possibilities(&vec![1, 2, 3], &vec![0, 3, 9], 0);
    assert_eq!(trp.len(), 3);
    assert_eq!(trp.get(&0).unwrap(), &vec![Vec::<usize>::new()]);
    assert_eq!(sorted(trp.get(&3).unwrap().clone()), vec![vec![0, 1], vec![2]]);
    assert_eq!(trp.get(&9).unwrap(), &Vec::<Vec<usize>>::new());
    assert!(trp.get(&1).is_none());
}

#[test]
fn keys_of_two_tables() {
    let single = get_roll_probs(&vec![1, 2, 3, 4, 5, 6], 1, 0);
    let multi = get_roll_probs(&vec![1, 2, 3, 4, 5, 6], 2, 0);
    assert_eq!(get_srt_dedup_keys(&multi, &single), vec![1, 2, 3, 4, 5, 6, 7, 8, 9, 10, 11, 12]);
    assert_eq!(get_srt_dedup_keys(&single, &single), vec![1, 2, 3, 4, 5, 6]);
}

fn init(die_vals: Vec<u16>, die_cnt: u16, start_tiles: Vec<u16>) -> InitData {
    InitData { die_vals, die_cnt, start_tiles, max_remove: 0, algorithm: Algorithm::Depth }
}

#[test]
fn game_is_made_from_init_data() {
    let meta = get_game_meta(init(vec![1, 2, 3, 4, 5, 6], 2, vec![1, 2, 3, 4, 5, 6, 7, 8, 9])).unwrap();
    assert_eq!(meta.die_max, 6);
    assert_eq!(meta.tiles, vec![1, 2, 3, 4, 5, 6, 7, 8, 9]);
    assert_eq!(meta.algorithm, Algorithm::Depth);
    assert_eq!(meta.roll_probs_single.total, 6);
    assert_eq!(meta.roll_probs_multi.total, 36);
    assert_eq!(meta.single_weight, 6);
    assert_eq!(meta.trphm.len(), 12);
    assert_eq!(meta.scale.len(), 10);
    assert_eq!(meta.scale[0], 1);
    assert_eq!(meta.scale[9], 101559956668416);
}

#[test]
fn no_game_without_faces() {
    assert_eq!(get_game_meta(init(vec![], 2, vec![1])).unwrap_err(), ConfigError::NoDieValues);
    assert_eq!(get_game_meta(init(vec![], 0, vec![1])).unwrap_err(), ConfigError::NoDieValues);
}

#[test]
fn no_game_without_dice() {
    assert_eq!(get_game_meta(init(vec![1, 2], 0, vec![1])).unwrap_err(), ConfigError::NoDice);
}

#[test]
fn no_game_with_sums_too_large() {
    assert_eq!(get_game_meta(init(vec![40000], 2, vec![1])).unwrap_err(), ConfigError::RollTooLarge);
    assert!(get_game_meta(init(vec![30000], 2, vec![1])).is_ok());
}

#[test]
fn no_game_with_too_many_tiles() {
    let tiles: Vec<u16> = (0..129).map(|_: u16| 1).collect();
    assert_eq!(get_game_meta(init(vec![1], 1, tiles)).unwrap_err(), ConfigError::TooManyTiles);
    let tiles: Vec<u16> = (0..128).map(|_: u16| 1).collect();
    assert!(get_game_meta(init(vec![1], 1, tiles)).is_ok());
}

#[test]
fn no_game_with_chances_too_fine() {
    let tiles: Vec<u16> = (1..=25).collect();
    assert_eq!(
        get_game_meta(init(vec![1, 2, 3, 4, 5, 6], 2, tiles)).unwrap_err(),
        ConfigError::ChancesTooFine
    );
    let tiles: Vec<u16> = (1..=24).collect();
    assert!(get_game_meta(init(vec![1, 2, 3, 4, 5, 6], 2, tiles)).is_ok());
}

#[test]
fn states_of_each_size() {
    let none: Vec<u16> = vec![];
    assert_eq!(
        get_game_states_by_tiles_remaining(&vec![1, 2, 3], &none, 2),
        vec![vec![1, 2], vec![1, 3], vec![2, 3]]
    );
    assert_eq!(
        get_game_states_by_tiles_remaining(&vec![1, 2, 3, 4], &none, 2),
        vec![vec![1, 2], vec![1, 3], vec![1, 4], vec![2, 3], vec![2, 4], vec![3, 4]]
    );
    assert_eq!(
        get_game_states_by_tiles_remaining(&vec![1, 2, 3, 4], &none, 3),
        vec![vec![1, 2, 3], vec![1, 2, 4], vec![1, 3, 4], vec![2, 3, 4]]
    );
    assert_eq!(get_game_states_by_tiles_remaining(&vec![1, 2], &none, 0), vec![none.clone()]);
    assert_eq!(get_game_states_by_tiles_remaining(&vec![1, 2], &none, 3), Vec::<Vec<u16>>::new());
}

#[test]
fn states_go_on_from_what_is_given() {
    let tiles = vec![1, 2, 3];
    assert_eq!(
        get_game_states_by_tiles_remaining(&tiles, &vec![9], 2),
        vec![vec![9, 1], vec![9, 2], vec![9, 3]]
    );
    assert_eq!(
        get_game_states_by_tiles_remaining(&tiles, &vec![7, 8], 2),
        vec![vec![7, 8]]
    );
    assert_eq!(
        get_game_states_by_tiles_remaining(&tiles, &vec![7, 8, 9], 2),
        Vec::<Vec<u16>>::new()
    );
    // Tiles that are alike give a state once for each way to take it.
    assert_eq!(
        get_game_states_by_tiles_remaining(&vec![1, 1, 2], &vec![], 2),
        vec![vec![1, 1], vec![1, 2], vec![1, 2]]
    );
}

#[test]
fn waves_by_size() {
    assert_eq!(
        get_tile_combos(&vec![1, 2, 3]),
        vec![
            vec![vec![1], vec![2], vec![3]],
            vec![vec![1, 2], vec![1, 3], vec![2, 3]]
        ]
    );
    assert_eq!(
        get_tile_combos(&vec![2, 1, 3]),
        vec![
            vec![vec![2], vec![1], vec![3]],
            vec![vec![2, 1], vec![2, 3], vec![1, 3]]
        ]
    );
    assert_eq!(
        get_tile_combos(&vec![1, 1, 2]),
        vec![vec![vec![1], vec![2]], vec![vec![1, 1], vec![1, 2]]]
    );
    assert_eq!(get_tile_combos(&vec![]).len(), 0);
    assert_eq!(get_tile_combos(&vec![4]).len(), 0);
    let waves = get_tile_combos(&vec![1, 2, 3, 4, 5, 6, 7, 8, 9]);
    let sizes: Vec<usize> = waves.iter().map(|w| w.len()).collect();
    assert_eq!(sizes, vec![9, 36, 84, 126, 126, 84, 36, 9]);
}

#[test]
fn repeated_states_are_listed_once() {
    let tiles = vec![1, 1, 2];
    let states = vec![vec![1], vec![1, 2], vec![1], vec![2], vec![1, 2]];
    assert_eq!(distinct_states(&tiles, &states), vec![vec![1], vec![1, 2], vec![2]]);
    assert_eq!(distinct_states(&tiles, &vec![]), Vec::<Vec<u16>>::new());
}
