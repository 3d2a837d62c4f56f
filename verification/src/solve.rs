//! Solving a game by any of its solvers. All give the same chance.

use crate::chance::unit_pow;
use crate::chance::win_count;
use crate::depth::depth_solve;
use crate::game::Algorithm;
use crate::game::GameMeta;
use crate::memo::GameDb;
use crate::naive::naive_solve;
use crate::parallel::par_solve;
use crate::tiles::lemma_subsequence_reflexive;
use vstd::prelude::*;

verus! {

broadcast use vstd::std_specs::hash::group_hash_axioms;

/// A chance to win: `wins` of `outcomes` equally likely outcomes.
#[derive(Debug, Clone, Copy, PartialEq, Eq, Structural)]
pub struct WinChance {
    pub wins: u128,
    pub outcomes: u128,
}

/// The chance to win the game from its starting tiles under perfect play.
/// `Algorithm::Default` solves side by side; `Algorithm::All` runs the three
/// solvers one after the other. Whichever is asked for, the chance is the
/// same.
///
/// A turn counts for the player only if it takes a tile. The sum zero has
/// one removal, which takes none: it is legal and leaves the state as it
/// is, and the roll is worth nothing, like a roll that allows no removal. A
/// tile worth zero leaves only in a removal that a later tile completes.
pub fn solve(game_meta: &GameMeta, algorithm: Algorithm) -> (chance: WinChance)
    requires
        game_meta.wf(),
    ensures
        chance.wins == win_count(game_meta@, game_meta.tiles@),
        chance.outcomes == unit_pow(game_meta@, game_meta.tiles@.len()),
        chance.outcomes >= 1,
        chance.wins <= chance.outcomes,
{
    proof {
        lemma_subsequence_reflexive(game_meta.tiles@);
        crate::chance::lemma_win_count_bound(game_meta@, game_meta.tiles@);
        crate::chance::lemma_unit_pow(game_meta@, game_meta.tiles@.len(), 0);
    }
    let outcomes = game_meta.scale[game_meta.tiles.len()];
    let mut wins: u128 = 0;
    match algorithm {
        Algorithm::Naive => {
            wins = naive_solve(game_meta.tiles.clone(), game_meta);
        },
        Algorithm::Depth => {
            let mut depth_db = GameDb::new();
            wins = depth_solve(game_meta.tiles.clone(), game_meta, &mut depth_db);
        },
        Algorithm::Parallel | Algorithm::Default => {
            wins = chance_in(&par_solve(game_meta.tiles.clone(), game_meta), game_meta);
        },
        Algorithm::All => {
            let naive_wins = naive_solve(game_meta.tiles.clone(), game_meta);
            let mut depth_db = GameDb::new();
            let depth_wins = depth_solve(game_meta.tiles.clone(), game_meta, &mut depth_db);
            wins = chance_in(&par_solve(game_meta.tiles.clone(), game_meta), game_meta);
            assert(naive_wins == wins && depth_wins == wins);
        },
    }
    WinChance { wins, outcomes }
}

/// Reads the chance of the starting tiles from a table that holds it.
fn chance_in(game_db: &GameDb, game_meta: &GameMeta) -> (wins: u128)
    requires
        game_meta.wf(),
        game_db@.contains_key(crate::memo::db_key(game_meta.tiles@, game_meta.tiles@)),
    ensures
        wins == game_db@[crate::memo::db_key(game_meta.tiles@, game_meta.tiles@)],
{
    proof {
        lemma_subsequence_reflexive(game_meta.tiles@);
    }
    match game_db.get(&game_meta.tiles, game_meta) {
        Some(wins) => wins,
        None => 0,
    }
}

} // verus!
