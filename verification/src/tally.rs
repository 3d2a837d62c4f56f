//! The sums that every solver makes: the better of two chances, a roll table
//! added up line by line, and the weight of a single die.

use crate::chance::count_sum;
use crate::chance::larger;
use crate::chance::lemma_count_sum_rises;
use crate::chance::lemma_mul_le;
use crate::chance::lemma_rolls_count_bound;
use crate::chance::lemma_state_count_bound;
use crate::chance::lemma_tables_fit;
use crate::chance::lemma_win_count_bound;
use crate::chance::roll_best;
use crate::chance::rolls_count;
use crate::chance::single_count;
use crate::chance::state_count;
use crate::chance::unit_pow;
use crate::chance::win_count;
use crate::dice::RollProbs;
use crate::game::GameMeta;
use crate::tiles::single_legality;
use vstd::prelude::*;

verus! {

broadcast use vstd::std_specs::hash::group_hash_axioms;

/// The better of `best` and what `state`, with its chance `wins`, is worth
/// to a state of `k` tiles. A state that is not shorter is worth nothing.
pub(crate) fn better_chance(
    best: u128,
    state: &Vec<u16>,
    wins: u128,
    k: usize,
    game_meta: &GameMeta,
) -> (out: u128)
    requires
        game_meta.wf(),
        0 < k <= game_meta.tiles@.len(),
        state@.len() < k ==> wins == win_count(game_meta@, state@),
    ensures
        out == larger(best as nat, state_count(game_meta@, k as nat, state@)),
{
    if state.len() >= k {
        return best;
    }
    let gap = k - 1 - state.len();
    proof {
        lemma_win_count_bound(game_meta@, state@);
        lemma_state_count_bound(game_meta@, k as nat, state@);
        assert(game_meta.scale@[gap as int] == unit_pow(game_meta@, gap as nat));
        assert(game_meta.scale@[k - 1] == unit_pow(game_meta@, (k - 1) as nat));
    }
    let scaled = wins * game_meta.scale[gap];
    if scaled > best {
        scaled
    } else {
        best
    }
}

/// Adds line `i` of a roll table, whose sum allows the chance `best` at
/// most, to the sum of the lines before it.
pub(crate) fn add_line(
    sum: u128,
    best: u128,
    tiles: &Vec<u16>,
    game_meta: &GameMeta,
    table: &RollProbs,
    i: usize,
) -> (out: u128)
    requires
        game_meta.wf(),
        table.wf(),
        0 < tiles@.len() <= game_meta.tiles@.len(),
        i < table@.len(),
        count_sum(table@, table@.len()) * unit_pow(game_meta@, (tiles@.len() - 1) as nat)
            <= u128::MAX,
        sum == rolls_count(game_meta@, tiles@, table@, i as nat),
        best == roll_best(game_meta@, tiles@, table@[i as int].roll),
    ensures
        out == rolls_count(game_meta@, tiles@, table@, (i + 1) as nat),
{
    proof {
        let below = unit_pow(game_meta@, (tiles@.len() - 1) as nat);
        lemma_rolls_count_bound(game_meta@, tiles@, table@, (i + 1) as nat);
        lemma_count_sum_rises(table@, (i + 1) as nat, table@.len());
        lemma_mul_le(
            count_sum(table@, (i + 1) as nat),
            count_sum(table@, table@.len()),
            below,
            below,
        );
        assert(table.rolls@.contains(table.rolls@[i as int]));
    }
    let count = match table.chances.get(&table.rolls[i]) {
        Some(count) => *count,
        None => 0,
    };
    assert(count == table@[i as int].count);
    sum + count * best
}

/// What the single table's sum is worth among the outcomes of a full roll.
pub(crate) fn weigh_single(sum: u128, tiles: &Vec<u16>, game_meta: &GameMeta) -> (out: u128)
    requires
        game_meta.wf(),
        0 < tiles@.len() <= game_meta.tiles@.len(),
        single_legality(tiles@, game_meta.die_max),
        sum == rolls_count(
            game_meta@,
            tiles@,
            game_meta@.single,
            game_meta@.single.len(),
        ),
    ensures
        out == single_count(game_meta@, tiles@),
{
    proof {
        let g = game_meta@;
        let below = unit_pow(g, (tiles@.len() - 1) as nat);
        let total = count_sum(g.single, g.single.len());
        assert(game_meta.scale@[tiles@.len() as int] == unit_pow(g, tiles@.len()));
        lemma_tables_fit(g, tiles@.len(), u128::MAX as nat);
        lemma_rolls_count_bound(g, tiles@, g.single, g.single.len());
        lemma_mul_le(g.single_weight, g.single_weight, sum as nat, total * below);
    }
    game_meta.single_weight * sum
}

} // verus!
