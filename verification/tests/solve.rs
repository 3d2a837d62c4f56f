use shut_the_box::depth::depth_solve;
use shut_the_box::depth::get_all_stats_from_hm;
use shut_the_box::depth::get_all_stats_from_states;
use shut_the_box::depth::get_next_legal_states_all;
use shut_the_box::game::get_game_meta;
use shut_the_box::game::Algorithm;
use shut_the_box::game::GameMeta;
use shut_the_box::game::InitData;
use shut_the_box::memo::GameDb;
use shut_the_box::naive::naive_solve;
use shut_the_box::naive::naive_solve_multi;
use shut_the_box::naive::naive_solve_single;
use shut_the_box::parallel::par_solve;
use shut_the_box::parallel::solve_fragment;
use shut_the_box::solve::solve;
use shut_the_box::solve::WinChance;

fn game(die_vals: Vec<u16>, die_cnt: u16, start_tiles: Vec<u16>, max_remove: u16) -> GameMeta {
    get_game_meta(InitData {
        die_vals,
        die_cnt,
        start_tiles,
        max_remove,
        algorithm: Algorithm::Default,
    })
    .unwrap()
}

fn two_dice(tiles: Vec<u16>, max_remove: u16) -> GameMeta {
    game(vec![1, 2, 3, 4, 5, 6], 2, tiles, max_remove)
}

#[test]
fn small_case_by_hand() {
    let meta = game(vec![1, 2], 1, vec![1, 2], 0);
    // One die with two faces: two outcomes a roll. From [1, 2] a 1 leaves
    // [2] and a 2 leaves [1]; from either, one roll in two wins. The chance
    // is 1/2: 2 of the 4 outcomes of two rolls.
    assert_eq!(naive_solve(vec![1, 2], &meta), 2);
    assert_eq!(naive_solve(vec![2], &meta), 1);
    assert_eq!(naive_solve(vec![1], &meta), 1);
    let mut db = GameDb::new();
    assert_eq!(depth_solve(vec![1, 2], &meta, &mut db), 2);
    assert_eq!(db.len(), 4);
    assert_eq!(db.get(&vec![1, 2], &meta), Some(2));
    assert_eq!(db.get(&vec![1], &meta), Some(1));
    assert_eq!(db.get(&vec![2], &meta), Some(1));
    assert_eq!(db.get(&vec![], &meta), Some(1));
    let par_db = par_solve(vec![1, 2], &meta);
    assert_eq!(par_db.chances, db.chances);
    for algorithm in [Algorithm::Naive, Algorithm::Depth, Algorithm::Parallel] {
        assert_eq!(solve(&meta, algorithm), WinChance { wins: 2, outcomes: 4 });
    }
}

#[test]
fn nine_tiles_two_dice() {
    let meta = two_dice(vec![1, 2, 3, 4, 5, 6, 7, 8, 9], 0);
    let expected = WinChance { wins: 9913644784512, outcomes: 101559956668416 };
    assert_eq!(solve(&meta, Algorithm::Depth), expected);
    assert_eq!(solve(&meta, Algorithm::Parallel), expected);
    assert_eq!(solve(&meta, Algorithm::Default), expected);
    let chance = expected.wins as f64 / expected.outcomes as f64;
    assert!((chance - 0.0976137161704307).abs() < 1e-12);
}

#[test]
fn nine_tiles_at_most_two_a_turn() {
    let meta = two_dice(vec![1, 2, 3, 4, 5, 6, 7, 8, 9], 2);
    let expected = WinChance { wins: 7998351507648, outcomes: 101559956668416 };
    assert_eq!(solve(&meta, Algorithm::Depth), expected);
    assert_eq!(solve(&meta, Algorithm::Parallel), expected);
}

#[test]
fn nine_tiles_one_a_turn() {
    let meta = two_dice(vec![1, 2, 3, 4, 5, 6, 7, 8, 9], 1);
    let expected = WinChance { wins: 96279321600, outcomes: 101559956668416 };
    assert_eq!(solve(&meta, Algorithm::Depth), expected);
    assert_eq!(solve(&meta, Algorithm::Parallel), expected);
}

#[test]
fn solvers_agree() {
    let games = vec![
        (two_dice(vec![1, 2, 3, 4, 5, 6], 0), 480672144u128, 2176782336u128),
        (game(vec![1, 1, 2], 2, vec![1, 1, 2, 3], 0), 4536, 6561),
        (game(vec![1, 2, 3], 2, vec![2, 1, 3, 1], 0), 3114, 6561),
        (game(vec![1, 2, 3, 4, 5, 6], 1, vec![1, 2, 3], 0), 72, 216),
    ];
    for (meta, wins, outcomes) in games {
        let expected = WinChance { wins, outcomes };
        assert_eq!(solve(&meta, Algorithm::Naive), expected);
        assert_eq!(solve(&meta, Algorithm::Depth), expected);
        assert_eq!(solve(&meta, Algorithm::Parallel), expected);
        assert_eq!(solve(&meta, Algorithm::All), expected);
    }
}

#[test]
fn no_tiles_is_won() {
    let meta = two_dice(vec![1, 2, 3], 0);
    assert_eq!(naive_solve(vec![], &meta), 1);
    let mut db = GameDb::new();
    assert_eq!(depth_solve(vec![], &meta, &mut db), 1);
    let empty = two_dice(vec![], 0);
    assert_eq!(solve(&empty, Algorithm::Depth), WinChance { wins: 1, outcomes: 1 });
    assert_eq!(solve(&empty, Algorithm::Parallel), WinChance { wins: 1, outcomes: 1 });
    assert_eq!(solve(&empty, Algorithm::Naive), WinChance { wins: 1, outcomes: 1 });
}

#[test]
fn single_die_needs_leave() {
    let meta = two_dice(vec![1, 2, 3, 4, 5, 6, 7], 0);
    assert_eq!(naive_solve_single(vec![3, 7], &meta), 0);
    assert_eq!(naive_solve_single(vec![], &meta), 0);
    // [3] with one die: only a 3 wins, 1 face of 6, counted in 36ths.
    assert_eq!(naive_solve_single(vec![3], &meta), 6);
    // [3] with two dice: (1, 2) and (2, 1) win.
    assert_eq!(naive_solve_multi(vec![3], &meta), 2);
    assert_eq!(naive_solve(vec![3], &meta), 6);
    assert_eq!(naive_solve_multi(vec![], &meta), 0);
}

#[test]
fn bust_is_worth_nothing() {
    let meta = game(vec![1, 2], 1, vec![7], 0);
    for algorithm in [Algorithm::Naive, Algorithm::Depth, Algorithm::Parallel] {
        assert_eq!(solve(&meta, algorithm), WinChance { wins: 0, outcomes: 2 });
    }
    // A bust is not left out of the reckoning: from [1] a 2 is a bust, and
    // the chance is 1 of 2, not 1 of 1.
    let meta = game(vec![1, 2], 1, vec![1], 0);
    assert_eq!(solve(&meta, Algorithm::Depth), WinChance { wins: 1, outcomes: 2 });
}

#[test]
fn a_roll_of_nothing_makes_no_move() {
    let meta = game(vec![0, 1], 1, vec![1], 0);
    for algorithm in [Algorithm::Naive, Algorithm::Depth, Algorithm::Parallel] {
        assert_eq!(solve(&meta, algorithm), WinChance { wins: 1, outcomes: 2 });
    }
}

#[test]
fn solving_twice_changes_nothing() {
    let meta = two_dice(vec![1, 2, 3, 4, 5, 6, 7, 8, 9], 0);
    let mut db = GameDb::new();
    let first = depth_solve(vec![1, 2, 3, 4, 5, 6, 7, 8, 9], &meta, &mut db);
    let held = db.len();
    let kept = db.clone();
    let second = depth_solve(vec![1, 2, 3, 4, 5, 6, 7, 8, 9], &meta, &mut db);
    assert_eq!(first, second);
    assert_eq!(db.len(), held);
    assert_eq!(db.chances, kept.chances);
    assert_eq!(held, 512);
}

#[test]
fn parallel_table_holds_every_state() {
    let meta = two_dice(vec![1, 2, 3, 4, 5, 6, 7, 8, 9], 0);
    let db = par_solve(vec![1, 2, 3, 4, 5, 6, 7, 8, 9], &meta);
    assert_eq!(db.len(), 512);
    assert_eq!(db.get(&vec![1, 2, 3, 4, 5, 6, 7, 8, 9], &meta), Some(9913644784512));
    let mut depth_db = GameDb::new();
    depth_solve(vec![1, 2, 3, 4, 5, 6, 7, 8, 9], &meta, &mut depth_db);
    assert_eq!(db.chances, depth_db.chances);
    assert_eq!(db.get(&vec![9, 1], &meta), None);
}

#[test]
fn fragment_grows_from_seed() {
    let meta = two_dice(vec![1, 2, 3], 0);
    let mut seed = GameDb::new();
    depth_solve(vec![3], &meta, &mut seed);
    assert_eq!(seed.len(), 2);
    let fragment = solve_fragment(&vec![1, 2], &meta, &seed);
    assert_eq!(fragment.get(&vec![3], &meta), seed.get(&vec![3], &meta));
    assert!(fragment.get(&vec![1, 2], &meta).is_some());
    assert_eq!(fragment.get(&vec![1, 2], &meta), Some(naive_solve(vec![1, 2], &meta)));
    assert_eq!(seed.len(), 2);
}

#[test]
fn merge_takes_over_entries() {
    let meta = two_dice(vec![1, 2, 3], 0);
    let mut a = GameDb::new();
    depth_solve(vec![1], &meta, &mut a);
    let mut b = GameDb::new();
    depth_solve(vec![2, 3], &meta, &mut b);
    let before = a.len();
    a.merge(&b);
    assert!(a.len() >= before);
    assert_eq!(a.get(&vec![2, 3], &meta), b.get(&vec![2, 3], &meta));
    assert_eq!(a.get(&vec![1], &meta), Some(naive_solve(vec![1], &meta)));
}

#[test]
fn next_states_and_their_chances() {
    let meta = two_dice(vec![1, 2, 3], 0);
    let tiles = vec![1, 2, 3];
    let next = get_next_legal_states_all(&tiles, &meta);
    // 3 is rolled as 3 or as 1 + 2.
    let mut after_three = next.get(&3).unwrap().clone();
    after_three.sort();
    assert_eq!(after_three, vec![vec![1, 2], vec![3]]);
    assert_eq!(next.get(&6).unwrap(), &vec![Vec::<u16>::new()]);
    assert!(next.get(&7).is_none());
    assert!(get_next_legal_states_all(&vec![], &meta).is_empty());
    let mut db = GameDb::new();
    let stats = get_all_stats_from_states(&tiles, &vec![vec![3], vec![]], &meta, &mut db);
    assert_eq!(stats, vec![(vec![3], 6), (vec![], 1)]);
    assert_eq!(db.len(), 2);
    assert_eq!(db.get(&vec![3], &meta), Some(6));
    assert_eq!(db.get(&tiles, &meta), None);
    let solved = get_all_stats_from_hm(&tiles, &next, &meta, &mut db);
    assert_eq!(solved.len(), next.len());
    assert_eq!(solved.get(&6).unwrap(), &vec![(Vec::<u16>::new(), 1)]);
}

#[test]
fn table_holds_what_play_comes_to() {
    // Two dice with the faces 1 and 2: four outcomes a roll.
    let meta = game(vec![1, 2], 2, vec![1, 2, 3], 0);
    let mut db = GameDb::new();
    // 9/16, in 64ths.
    assert_eq!(depth_solve(vec![1, 2, 3], &meta, &mut db), 36);
    assert_eq!(db.get(&vec![1, 2, 3], &meta), Some(36));
    // 5/8 and 1/2: a roll of 3 takes tile 3 rather than tiles 1 and 2.
    assert_eq!(db.get(&vec![1, 2], &meta), Some(10));
    assert_eq!(db.get(&vec![3], &meta), Some(2));
    assert_eq!(db.get(&vec![1, 3], &meta), Some(8));
    assert_eq!(db.get(&vec![2, 3], &meta), Some(6));
    assert_eq!(db.get(&vec![], &meta), Some(1));
    assert_eq!(db.len(), 8);
    let par_db = par_solve(vec![1, 2, 3], &meta);
    assert_eq!(par_db.chances, db.chances);
    // From [3] play comes to no tile at all, and to nothing else.
    let mut small = GameDb::new();
    assert_eq!(depth_solve(vec![3], &meta, &mut small), 2);
    assert_eq!(small.len(), 2);
    assert_eq!(small.get(&vec![], &meta), Some(1));
}

#[test]
fn solving_no_tiles_files_one_state() {
    let meta = two_dice(vec![1, 2, 3], 0);
    let mut db = GameDb::new();
    assert_eq!(depth_solve(vec![], &meta, &mut db), 1);
    assert_eq!(db.len(), 1);
    assert_eq!(db.get(&vec![], &meta), Some(1));
}

#[test]
fn a_roll_of_zero_takes_no_tile() {
    let meta = game(vec![0, 1], 1, vec![1, 2], 0);
    let next = get_next_legal_states_all(&vec![1, 2], &meta);
    // The removal of nothing is legal and leaves the state as it is.
    assert_eq!(next.get(&0).unwrap(), &vec![vec![1, 2]]);
    assert_eq!(next.get(&1).unwrap(), &vec![vec![2]]);
    assert_eq!(next.len(), 2);
    // It is worth nothing: tile 2 never leaves, tile 1 leaves on a 1.
    for algorithm in [Algorithm::Naive, Algorithm::Depth, Algorithm::Parallel] {
        assert_eq!(solve(&meta, algorithm), WinChance { wins: 0, outcomes: 4 });
    }
    assert_eq!(naive_solve(vec![1], &meta), 1);
    let mut db = GameDb::new();
    assert_eq!(depth_solve(vec![1], &meta, &mut db), 1);
    assert_eq!(db.len(), 2);
    // A tile worth zero leaves with a later tile that completes the sum.
    let meta = game(vec![0, 1], 1, vec![0, 1], 0);
    for algorithm in [Algorithm::Naive, Algorithm::Depth, Algorithm::Parallel] {
        assert_eq!(solve(&meta, algorithm), WinChance { wins: 2, outcomes: 4 });
    }
    assert_eq!(naive_solve(vec![0], &meta), 0);
}
