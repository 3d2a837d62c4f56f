//! A game: the dice, the tiles, and all that is worked out from them once.

use crate::catalog::get_srt_dedup_keys;
use crate::catalog::get_tile_removal_possibilities;
use crate::catalog::lists_removals;
use crate::catalog::removals_from;
use crate::chance::unit_pow;
use crate::chance::Game;
use crate::dice::get_roll_probs;
use crate::dice::has_roll;
use crate::dice::table_of_dice;
use crate::dice::RollProbs;
use crate::keys::MAX_TILES;
use crate::tiles::get_max;
use crate::tiles::max_value;
use std::collections::HashMap;
use vstd::arithmetic::power::lemma_pow1;
use vstd::arithmetic::power::lemma_pow_increases;
use vstd::arithmetic::power::lemma_pow_positive;
use vstd::arithmetic::power::pow;
use vstd::prelude::*;

verus! {

/// The ways to solve a game. All give the same chance.
#[derive(Debug, Clone, Copy, PartialEq, Eq, Structural)]
pub enum Algorithm {
    /// Each of the three below, one after the other.
    All,
    /// Plain recursion, with nothing remembered.
    Naive,
    /// Recursion that remembers each state it has solved.
    Depth,
    /// States of equal size solved side by side, smallest first.
    Parallel,
    /// No choice made: the parallel one.
    Default,
}

/// What a game is made from.
pub struct InitData {
    /// The faces of a die.
    pub die_vals: Vec<u16>,
    /// The number of dice.
    pub die_cnt: u16,
    /// The starting tiles.
    pub start_tiles: Vec<u16>,
    /// The most tiles that one turn may take; 0 for no limit.
    pub max_remove: u16,
    /// The way to solve the game.
    pub algorithm: Algorithm,
}

/// All that solving needs to know of a game, shared by all its states.
#[derive(Debug, Clone)]
pub struct GameMeta {
    /// The largest face of a die.
    pub die_max: u16,
    /// The starting tiles.
    pub tiles: Vec<u16>,
    /// For each sum that can be rolled, the removals that add up to it, each
    /// a rising list of positions in the starting tiles.
    pub trphm: HashMap<u16, Vec<Vec<usize>>>,
    /// The roll table of one die.
    pub roll_probs_single: RollProbs,
    /// The roll table of all dice.
    pub roll_probs_multi: RollProbs,
    /// The number of outcomes of a full roll for each face of one die.
    pub single_weight: u128,
    /// The powers of the number of outcomes of a full roll, one for each
    /// number of tiles up to that of the starting tiles.
    pub scale: Vec<u128>,
    /// The way to solve the game.
    pub algorithm: Algorithm,
}

/// The rows of a vector of vectors, as sequences.
pub open spec fn rows<T>(v: Vec<Vec<T>>) -> Seq<Seq<T>> {
    Seq::new(v@.len(), |i: int| v@[i]@)
}

impl View for GameMeta {
    type V = Game;

    open spec fn view(&self) -> Game {
        Game {
            tiles: self.tiles@,
            die_max: self.die_max,
            single: self.roll_probs_single@,
            multi: self.roll_probs_multi@,
            single_weight: self.single_weight as nat,
            unit: self.roll_probs_multi.total as nat,
            catalog: Map::new(
                |roll: u16| self.trphm@.contains_key(roll),
                |roll: u16| rows(self.trphm@[roll]),
            ),
        }
    }
}

impl GameMeta {
    /// The game is fit to be solved: its tables are in order and weigh their
    /// outcomes alike, each sum of a table has its removals, each removal
    /// names tiles that exist, and `scale` holds the powers of `unit`.
    pub open spec fn wf(&self) -> bool {
        &&& self.tiles@.len() <= MAX_TILES
        &&& self.roll_probs_single.wf()
        &&& self.roll_probs_multi.wf()
        &&& self@.balanced()
        &&& self.scale@.len() == self.tiles@.len() + 1
        &&& forall|i: int| 0 <= i < self.scale@.len() ==> self.scale@[i] == unit_pow(self@, i as nat)
        &&& forall|i: int|
            0 <= i < self.roll_probs_single@.len() ==> self.trphm@.contains_key(
                #[trigger] self.roll_probs_single@[i].roll,
            )
        &&& forall|i: int|
            0 <= i < self.roll_probs_multi@.len() ==> self.trphm@.contains_key(
                #[trigger] self.roll_probs_multi@[i].roll,
            )
        &&& forall|roll: u16, i: int, j: int|
            self.trphm@.contains_key(roll) && 0 <= i < self.trphm@[roll]@.len() && 0 <= j
                < self.trphm@[roll]@[i]@.len() ==> #[trigger] self.trphm@[roll]@[i]@[j]
                < self.tiles@.len()
    }
}

/// Why a game cannot be made.
#[derive(Debug, Clone, Copy, PartialEq, Eq, Structural)]
pub enum ConfigError {
    /// The die has no face.
    NoDieValues,
    /// There is no die to roll.
    NoDice,
    /// The largest sum of the dice is above 65535.
    RollTooLarge,
    /// There are more than 128 starting tiles.
    TooManyTiles,
    /// A roll for each starting tile has more outcomes than a chance can
    /// count.
    ChancesTooFine,
}

/// The reason for which no game can be made from `init_data`, if there is
/// one.
pub open spec fn config_error(init_data: InitData) -> Option<ConfigError> {
    let faces = init_data.die_vals@.len() as int;
    let unit = pow(faces, init_data.die_cnt as nat);
    if init_data.die_vals@.len() == 0 {
        Some(ConfigError::NoDieValues)
    } else if init_data.die_cnt == 0 {
        Some(ConfigError::NoDice)
    } else if init_data.die_cnt * max_value(init_data.die_vals@) > u16::MAX {
        Some(ConfigError::RollTooLarge)
    } else if init_data.start_tiles@.len() > MAX_TILES {
        Some(ConfigError::TooManyTiles)
    } else if pow(unit, init_data.start_tiles@.len()) > u128::MAX {
        Some(ConfigError::ChancesTooFine)
    } else {
        None
    }
}

impl GameMeta {
    /// The game is the one that `init_data` describes: its tiles, its roll
    /// tables for one die and for all dice, and a catalog that lists, for
    /// each sum of either table and for no other, each removal once, in the
    /// order of `removals_from`.
    pub open spec fn made_from(&self, init_data: InitData) -> bool {
        let faces = init_data.die_vals@.len() as int;
        &&& self.tiles@ == init_data.start_tiles@
        &&& self.die_max == max_value(init_data.die_vals@)
        &&& self.algorithm == init_data.algorithm
        &&& table_of_dice(self.roll_probs_single@, init_data.die_vals@, 1, 0)
        &&& table_of_dice(
            self.roll_probs_multi@,
            init_data.die_vals@,
            init_data.die_cnt as nat,
            0,
        )
        &&& self.roll_probs_single.total == faces
        &&& self.roll_probs_multi.total == pow(faces, init_data.die_cnt as nat)
        &&& self.single_weight == pow(faces, (init_data.die_cnt - 1) as nat)
        &&& forall|roll: u16| #[trigger]
            self.trphm@.contains_key(roll) <==> has_roll(self.roll_probs_single@, roll)
                || has_roll(self.roll_probs_multi@, roll)
        &&& forall|roll: u16| #[trigger]
            self.trphm@.contains_key(roll) ==> rows(self.trphm@[roll]) == removals_from(
                self.tiles@,
                0,
                roll as int,
                init_data.max_remove as int,
            ) && lists_removals(
                rows(self.trphm@[roll]),
                self.tiles@,
                0,
                roll as int,
                init_data.max_remove as int,
            )
    }
}

/// The powers of `unit` up to the `n`-th, or `None` where one of them is
/// above what a chance can count.
pub fn get_scale(unit: u128, n: usize) -> (scale: Option<Vec<u128>>)
    requires
        unit >= 1,
    ensures
        scale is Some <==> pow(unit as int, n as nat) <= u128::MAX,
        scale matches Some(v) ==> v@.len() == n + 1 && forall|i: int|
            0 <= i <= n ==> v@[i] == pow(unit as int, i as nat),
{
    let mut scale: Vec<u128> = Vec::new();
    scale.push(1);
    proof {
        reveal_with_fuel(pow, 1);
    }
    let mut i: usize = 0;
    while i < n
        invariant
            i <= n,
            unit >= 1,
            scale@.len() == i + 1,
            forall|j: int| 0 <= j <= i ==> scale@[j] == pow(unit as int, j as nat),
        decreases n - i,
    {
        proof {
            reveal_with_fuel(pow, 1);
            assert(pow(unit as int, (i + 1) as nat) == unit * pow(unit as int, i as nat));
        }
        match scale[i].checked_mul(unit) {
            Some(next) => {
                assert(next == pow(unit as int, (i + 1) as nat)) by (nonlinear_arith)
                    requires
                        next == scale@[i as int] * unit,
                        pow(unit as int, (i + 1) as nat) == unit * scale@[i as int],
                ;
                scale.push(next);
            },
            None => {
                proof {
                    assert(pow(unit as int, (i + 1) as nat) > u128::MAX) by (nonlinear_arith)
                        requires
                            scale@[i as int] * unit > u128::MAX,
                            pow(unit as int, (i + 1) as nat) == unit * scale@[i as int],
                    ;
                    lemma_pow_increases(unit as nat, (i + 1) as nat, n as nat);
                }
                return None;
            },
        }
        i += 1;
    }
    assert(scale@[n as int] == pow(unit as int, n as nat));
    Some(scale)
}

/// Makes the game that `init_data` describes: works out both roll tables,
/// the catalog of removals and the powers that chances are counted in.
pub fn get_game_meta(init_data: InitData) -> (made: Result<GameMeta, ConfigError>)
    ensures
        match made {
            Ok(game_meta) => config_error(init_data) is None && game_meta.wf()
                && game_meta.made_from(init_data),
            Err(e) => config_error(init_data) == Some(e),
        },
{
    if init_data.die_vals.len() == 0 {
        return Err(ConfigError::NoDieValues);
    }
    if init_data.die_cnt == 0 {
        return Err(ConfigError::NoDice);
    }
    let die_max = get_max(&init_data.die_vals);
    assert(init_data.die_cnt * die_max <= 65535 * 65535) by (nonlinear_arith)
        requires
            init_data.die_cnt <= 65535,
            die_max <= 65535,
    ;
    let top: u32 = init_data.die_cnt as u32 * die_max as u32;
    if top > 65535 {
        return Err(ConfigError::RollTooLarge);
    }
    if init_data.start_tiles.len() > MAX_TILES {
        return Err(ConfigError::TooManyTiles);
    }
    let ghost faces = init_data.die_vals@.len() as int;
    let ghost dice = init_data.die_cnt as nat;
    let roll_probs_multi = get_roll_probs(&init_data.die_vals, init_data.die_cnt, 0);
    let roll_probs_single = get_roll_probs(&init_data.die_vals, 1, 0);
    proof {
        lemma_pow1(faces);
        lemma_pow_positive(faces, dice);
        lemma_pow_positive(faces, (dice - 1) as nat);
        reveal_with_fuel(pow, 1);
        assert(pow(faces, dice) == faces * pow(faces, (dice - 1) as nat));
    }
    let single_weight = roll_probs_multi.total / roll_probs_single.total;
    assert(single_weight == pow(faces, (dice - 1) as nat)) by (nonlinear_arith)
        requires
            roll_probs_multi.total == faces * pow(faces, (dice - 1) as nat),
            roll_probs_single.total == faces,
            faces > 0,
            single_weight == roll_probs_multi.total as int / roll_probs_single.total as int,
    ;
    let scale = match get_scale(roll_probs_multi.total, init_data.start_tiles.len()) {
        Some(scale) => scale,
        None => {
            return Err(ConfigError::ChancesTooFine);
        },
    };
    let roll_possib = get_srt_dedup_keys(&roll_probs_multi, &roll_probs_single);
    let trphm = get_tile_removal_possibilities(
        &init_data.start_tiles,
        &roll_possib,
        init_data.max_remove,
    );
    let ghost start = init_data.start_tiles@;
    let ghost limit = init_data.max_remove as int;
    let game_meta = GameMeta {
        die_max,
        trphm,
        roll_probs_single,
        roll_probs_multi,
        single_weight,
        scale,
        tiles: init_data.start_tiles,
        algorithm: init_data.algorithm,
    };
    proof {
        let g = game_meta@;
        assert forall|i: int| 0 <= i < game_meta.roll_probs_single@.len() implies game_meta.trphm@.contains_key(
            #[trigger] game_meta.roll_probs_single@[i].roll,
        ) by {
            assert(has_roll(
                game_meta.roll_probs_single@,
                game_meta.roll_probs_single@[i].roll,
            ));
        }
        assert forall|i: int| 0 <= i < game_meta.roll_probs_multi@.len() implies game_meta.trphm@.contains_key(
            #[trigger] game_meta.roll_probs_multi@[i].roll,
        ) by {
            assert(has_roll(
                game_meta.roll_probs_multi@,
                game_meta.roll_probs_multi@[i].roll,
            ));
        }
        assert forall|roll: u16, i: int, j: int|
            game_meta.trphm@.contains_key(roll) && 0 <= i < game_meta.trphm@[roll]@.len() && 0
                <= j < game_meta.trphm@[roll]@[i]@.len() implies #[trigger] game_meta.trphm@[roll]@[i]@[j]
            < game_meta.tiles@.len() by {
            let combos = rows(game_meta.trphm@[roll]);
            assert(lists_removals(combos, start, 0, roll as int, limit));
            assert(combos[i] == game_meta.trphm@[roll]@[i]@);
            assert(combos.contains(combos[i]));
        }
        assert(game_meta.single_weight * game_meta.roll_probs_single.total
            == game_meta.roll_probs_multi.total) by (nonlinear_arith)
            requires
                game_meta.roll_probs_multi.total == faces * pow(faces, (dice - 1) as nat),
                game_meta.roll_probs_single.total == faces,
                game_meta.single_weight == pow(faces, (dice - 1) as nat),
        ;
    }
    Ok(game_meta)
}

} // verus!
