//! The plain solver: the chance of a state is worked out afresh each time
//! the state comes up. It is slow, and stands beside the others as the
//! measure they are held to.

use crate::chance::count_sum;
use crate::chance::lemma_rolls_count_of_empty;
use crate::chance::lemma_tables_fit;
use crate::chance::multi_count;
use crate::chance::roll_best;
use crate::chance::rolls_count;
use crate::chance::single_count;
use crate::chance::states_best;
use crate::chance::unit_pow;
use crate::chance::win_count;
use crate::dice::RollProbs;
use crate::game::rows;
use crate::game::GameMeta;
use crate::moves::get_next_legal_states_roll;
use crate::tally::add_line;
use crate::tally::better_chance;
use crate::tally::weigh_single;
use crate::tiles::get_single_legality;
use vstd::prelude::*;

verus! {

broadcast use vstd::std_specs::hash::group_hash_axioms;

/// The chance to win from `tiles` under perfect play, worked out afresh at
/// every state it comes to. It is counted in outcomes of as many full rolls
/// as `tiles` has tiles.
pub fn naive_solve(tiles: Vec<u16>, game_meta: &GameMeta) -> (wins: u128)
    requires
        game_meta.wf(),
        tiles@.len() <= game_meta.tiles@.len(),
    ensures
        wins == win_count(game_meta@, tiles@),
    decreases tiles@.len(), 4nat,
{
    if tiles.len() == 0 {
        return 1;
    }
    let win_single = naive_solve_single(tiles.clone(), game_meta);
    let win_multi = naive_solve_multi(tiles, game_meta);
    if win_single >= win_multi {
        win_single
    } else {
        win_multi
    }
}

/// The chance to win from `tiles` when one die is rolled now, counted like
/// that of `naive_solve`; zero where one die may not be rolled.
pub fn naive_solve_single(tiles: Vec<u16>, game_meta: &GameMeta) -> (wins: u128)
    requires
        game_meta.wf(),
        tiles@.len() <= game_meta.tiles@.len(),
    ensures
        wins == single_count(game_meta@, tiles@),
    decreases tiles@.len(), 3nat,
{
    if !get_single_legality(&tiles, game_meta.die_max) {
        return 0;
    }
    proof {
        assert(game_meta.scale@[tiles@.len() as int] == unit_pow(game_meta@, tiles@.len()));
        lemma_tables_fit(game_meta@, tiles@.len(), u128::MAX as nat);
    }
    let sum = naive_solve_rolls(&tiles, game_meta, &game_meta.roll_probs_single);
    weigh_single(sum, &tiles, game_meta)
}

/// The chance to win from `tiles` when all dice are rolled now, counted like
/// that of `naive_solve`.
pub fn naive_solve_multi(tiles: Vec<u16>, game_meta: &GameMeta) -> (wins: u128)
    requires
        game_meta.wf(),
        tiles@.len() <= game_meta.tiles@.len(),
    ensures
        wins == multi_count(game_meta@, tiles@),
    decreases tiles@.len(), 3nat,
{
    if tiles.len() == 0 {
        proof {
            assert(tiles@ =~= Seq::<u16>::empty());
            lemma_rolls_count_of_empty(game_meta@, game_meta@.multi, game_meta@.multi.len());
        }
        return 0;
    }
    proof {
        assert(game_meta.scale@[tiles@.len() as int] == unit_pow(game_meta@, tiles@.len()));
        lemma_tables_fit(game_meta@, tiles@.len(), u128::MAX as nat);
    }
    naive_solve_rolls(&tiles, game_meta, &game_meta.roll_probs_multi)
}

/// A roll table applied to `tiles`: each line's count times the best chance
/// that its sum allows, added up.
fn naive_solve_rolls(tiles: &Vec<u16>, game_meta: &GameMeta, table: &RollProbs) -> (sum: u128)
    requires
        game_meta.wf(),
        table.wf(),
        0 < tiles@.len() <= game_meta.tiles@.len(),
        count_sum(table@, table@.len()) * unit_pow(game_meta@, (tiles@.len() - 1) as nat)
            <= u128::MAX,
    ensures
        sum == rolls_count(game_meta@, tiles@, table@, table@.len()),
    decreases tiles@.len(), 2nat,
{
    let mut sum: u128 = 0;
    let mut i: usize = 0;
    while i < table.rolls.len()
        invariant
            i <= table@.len(),
            game_meta.wf(),
            table.wf(),
            0 < tiles@.len() <= game_meta.tiles@.len(),
            count_sum(table@, table@.len()) * unit_pow(game_meta@, (tiles@.len() - 1) as nat)
                <= u128::MAX,
            sum == rolls_count(game_meta@, tiles@, table@, i as nat),
        decreases table@.len() - i,
    {
        let best = naive_roll_best(tiles, game_meta, table.rolls[i]);
        sum = add_line(sum, best, tiles, game_meta, table, i);
        i += 1;
    }
    sum
}

/// The best chance among the states that a removal adding up to `roll` can
/// leave of `tiles`. A state that is left with all its tiles is not gone
/// into: the turn took nothing and is worth nothing.
fn naive_roll_best(tiles: &Vec<u16>, game_meta: &GameMeta, roll: u16) -> (best: u128)
    requires
        game_meta.wf(),
        0 < tiles@.len() <= game_meta.tiles@.len(),
    ensures
        best == roll_best(game_meta@, tiles@, roll),
    decreases tiles@.len(), 1nat,
{
    let k = tiles.len();
    match game_meta.trphm.get(&roll) {
        None => 0,
        Some(trps) => {
            assert(rows(*trps) == game_meta@.catalog[roll]);
            let states = get_next_legal_states_roll(tiles, &game_meta.tiles, trps);
            let mut best: u128 = 0;
            let mut i: usize = 0;
            while i < states.len()
                invariant
                    i <= states.len(),
                    game_meta.wf(),
                    k == tiles@.len(),
                    0 < k <= game_meta.tiles@.len(),
                    best == states_best(game_meta@, k as nat, rows(states), i as nat),
                decreases states.len() - i,
            {
                let state = &states[i];
                assert(state@ == rows(states)[i as int]);
                let wins = if state.len() < k {
                    naive_solve(state.clone(), game_meta)
                } else {
                    0
                };
                best = better_chance(best, state, wins, k, game_meta);
                i += 1;
            }
            best
        },
    }
}

} // verus!
