//! The win chance of a state under perfect play, as a number.
//!
//! A full roll of the dice has `unit` equally likely outcomes. The chance of a
//! state of `k` tiles is counted in outcomes of `k` rolls in a row: it is a
//! whole number of `unit^k`-ths, written `win_count`. No state needs more
//! rolls than it has tiles, since every turn that does not end the game takes
//! at least one tile.
//!
//! A removal that takes no tile is legal and leaves the state as it is. The
//! catalog has one, for the sum zero. The turn it makes is worth nothing to
//! the player: a state counts for a win only through states with fewer
//! tiles, so a roll of zero is worth what a roll without any removal is.

use crate::tiles::is_subsequence;
use crate::tiles::lemma_removed_tiles_shrinks;
use crate::tiles::removed_tiles;
use crate::tiles::single_legality;
use vstd::arithmetic::mul::lemma_mul_is_associative;
use vstd::arithmetic::mul::lemma_mul_is_distributive_add_other_way;
use vstd::arithmetic::power::lemma_pow_adds;
use vstd::arithmetic::power::lemma_pow_positive;
use vstd::arithmetic::power::pow;
use vstd::prelude::*;

verus! {

/// One line of a roll table: the sum `roll` comes up in `count` of the
/// table's equally likely outcomes.
#[derive(Clone, Copy, Debug)]
pub struct RollChance {
    pub roll: u16,
    pub count: u128,
}

/// What the solver knows of a game, as mathematics.
pub struct Game {
    /// The starting tiles.
    pub tiles: Seq<u16>,
    /// The largest face of a die.
    pub die_max: u16,
    /// The sums of one die, each with the number of faces that show it.
    pub single: Seq<RollChance>,
    /// The sums of all dice, each with the number of outcomes that give it.
    pub multi: Seq<RollChance>,
    /// The number of outcomes of a full roll for each face of one die.
    pub single_weight: nat,
    /// The number of outcomes of a full roll.
    pub unit: nat,
    /// For each sum, the removals that add up to it, each a list of
    /// positions in the starting tiles.
    pub catalog: Map<u16, Seq<Seq<usize>>>,
}

/// The counts of the first `upto` lines of a roll table, added up.
pub open spec fn count_sum(rolls: Seq<RollChance>, upto: nat) -> nat
    decreases upto,
{
    if upto == 0 || upto > rolls.len() {
        0
    } else {
        count_sum(rolls, (upto - 1) as nat) + rolls[upto - 1].count as nat
    }
}

/// The values of the starting tiles at the positions that `combo` lists.
pub open spec fn combo_tiles(tiles: Seq<u16>, combo: Seq<usize>) -> Seq<u16> {
    Seq::new(combo.len(), |i: int| tiles[combo[i] as int])
}

/// The state that `combo` leaves of `state`, where the removal is legal.
/// `start` holds the starting tiles.
pub open spec fn next_state(start: Seq<u16>, state: Seq<u16>, combo: Seq<usize>) -> Option<
    Seq<u16>,
> {
    removed_tiles(state, combo_tiles(start, combo))
}

/// The states that the removals `combos` leave of `state`, in the order of
/// `combos`; a removal that is not legal leaves none, one that takes no tile
/// leaves `state` itself.
pub open spec fn next_states(start: Seq<u16>, state: Seq<u16>, combos: Seq<Seq<usize>>) -> Seq<
    Seq<u16>,
>
    decreases combos.len(),
{
    if combos.len() == 0 {
        Seq::empty()
    } else {
        let before = next_states(start, state, combos.drop_last());
        match next_state(start, state, combos.last()) {
            Some(left) => before.push(left),
            None => before,
        }
    }
}

/// The states of `states` that have fewer than `k` tiles, in their order.
pub open spec fn shorter_states(states: Seq<Seq<u16>>, k: nat) -> Seq<Seq<u16>>
    decreases states.len(),
{
    if states.len() == 0 {
        Seq::empty()
    } else if states.last().len() < k {
        shorter_states(states.drop_last(), k).push(states.last())
    } else {
        shorter_states(states.drop_last(), k)
    }
}

/// `unit` to the power `e`: the number of outcomes of `e` full rolls.
pub open spec fn unit_pow(g: Game, e: nat) -> nat {
    pow(g.unit as int, e) as nat
}

/// The larger of two numbers.
pub open spec fn larger(a: nat, b: nat) -> nat {
    if a >= b {
        a
    } else {
        b
    }
}

impl Game {
    /// The two roll tables weigh their outcomes alike: the counts of the full
    /// table add up to `unit`, and those of the single table, each taken
    /// `single_weight` times, do too.
    pub open spec fn balanced(self) -> bool {
        &&& self.unit >= 1
        &&& count_sum(self.multi, self.multi.len()) == self.unit
        &&& self.single_weight * count_sum(self.single, self.single.len()) == self.unit
    }
}

/// The chance to win from `state` under perfect play, in `unit^k`-ths for a
/// state of `k` tiles. With no tile left the game is won. Otherwise the
/// player rolls one die or all of them, whichever is better.
pub open spec fn win_count(g: Game, state: Seq<u16>) -> nat
    decreases state.len(), 4nat, 0nat,
{
    if state.len() == 0 {
        1
    } else {
        larger(single_count(g, state), multi_count(g, state))
    }
}

/// The chance to win from `state` when one die is rolled now: zero where
/// that is not legal.
pub open spec fn single_count(g: Game, state: Seq<u16>) -> nat
    decreases state.len(), 3nat, 0nat,
{
    if single_legality(state, g.die_max) {
        g.single_weight * rolls_count(g, state, g.single, g.single.len())
    } else {
        0
    }
}

/// The chance to win from `state` when all dice are rolled now.
pub open spec fn multi_count(g: Game, state: Seq<u16>) -> nat
    decreases state.len(), 3nat, 0nat,
{
    rolls_count(g, state, g.multi, g.multi.len())
}

/// The first `upto` lines of a roll table: each line's count times the best
/// chance that its sum allows, added up. A sum that allows no removal adds
/// nothing.
pub open spec fn rolls_count(g: Game, state: Seq<u16>, rolls: Seq<RollChance>, upto: nat) -> nat
    decreases state.len(), 2nat, upto,
{
    if upto == 0 || upto > rolls.len() {
        0
    } else {
        rolls_count(g, state, rolls, (upto - 1) as nat) + rolls[upto - 1].count as nat
            * roll_best(g, state, rolls[upto - 1].roll)
    }
}

/// The best chance among the states that a removal adding up to `roll` can
/// leave, in `unit^(k-1)`-ths for a state of `k` tiles; zero where there is
/// none, or none with fewer tiles.
pub open spec fn roll_best(g: Game, state: Seq<u16>, roll: u16) -> nat
    decreases state.len(), 1nat, 0nat,
{
    if g.catalog.contains_key(roll) {
        let states = next_states(g.tiles, state, g.catalog[roll]);
        states_best(g, state.len(), states, states.len())
    } else {
        0
    }
}

/// The best chance among the first `upto` of `states`, in `unit^(k-1)`-ths.
pub open spec fn states_best(g: Game, k: nat, states: Seq<Seq<u16>>, upto: nat) -> nat
    decreases k, 0nat, upto,
{
    if upto == 0 || upto > states.len() {
        0
    } else {
        larger(states_best(g, k, states, (upto - 1) as nat), state_count(g, k, states[upto - 1]))
    }
}

/// What it is worth to a state of `k` tiles that a removal leaves `state`:
/// the chance to win from `state` in `unit^(k-1)`-ths where `state` has
/// fewer than `k` tiles, and nothing where the removal took no tile.
pub open spec fn state_count(g: Game, k: nat, state: Seq<u16>) -> nat
    decreases k, 0nat, 0nat,
{
    if state.len() < k {
        win_count(g, state) * unit_pow(g, (k - 1 - state.len()) as nat)
    } else {
        0
    }
}

/// `a <= b` and `c <= d` give `a * c <= b * d`.
pub proof fn lemma_mul_le(a: nat, b: nat, c: nat, d: nat)
    by (nonlinear_arith)
    requires
        a <= b,
        c <= d,
    ensures
        a * c <= b * d,
{
}

/// The powers of `unit` are positive and multiply by adding exponents.
pub proof fn lemma_unit_pow(g: Game, a: nat, b: nat)
    requires
        g.unit >= 1,
    ensures
        unit_pow(g, a) >= 1,
        unit_pow(g, a) * unit_pow(g, b) == unit_pow(g, a + b),
        unit_pow(g, a + 1) == g.unit * unit_pow(g, a),
        unit_pow(g, 0) == 1,
{
    lemma_pow_positive(g.unit as int, a);
    lemma_pow_positive(g.unit as int, b);
    lemma_pow_positive(g.unit as int, a + b);
    lemma_pow_positive(g.unit as int, a + 1);
    lemma_pow_adds(g.unit as int, a, b);
    reveal_with_fuel(pow, 2);
}

/// No chance exceeds certainty: a state of `k` tiles wins in at most
/// `unit^k` of the outcomes of `k` rolls.
pub proof fn lemma_win_count_bound(g: Game, state: Seq<u16>)
    requires
        g.balanced(),
    ensures
        win_count(g, state) <= unit_pow(g, state.len()),
    decreases state.len(), 4nat, 0nat,
{
    lemma_unit_pow(g, 0, 0);
    if state.len() > 0 {
        lemma_single_count_bound(g, state);
        lemma_multi_count_bound(g, state);
    }
}

/// Rolling one die wins in at most `unit^k` of the outcomes of `k` rolls.
pub proof fn lemma_single_count_bound(g: Game, state: Seq<u16>)
    requires
        g.balanced(),
        state.len() > 0,
    ensures
        single_count(g, state) <= unit_pow(g, state.len()),
    decreases state.len(), 3nat, 0nat,
{
    let below = unit_pow(g, (state.len() - 1) as nat);
    let sum = rolls_count(g, state, g.single, g.single.len());
    let total = count_sum(g.single, g.single.len());
    lemma_rolls_count_bound(g, state, g.single, g.single.len());
    lemma_unit_pow(g, (state.len() - 1) as nat, 0);
    if single_legality(state, g.die_max) {
        lemma_mul_le(g.single_weight, g.single_weight, sum, total * below);
        lemma_mul_is_associative(g.single_weight as int, total as int, below as int);
    }
}

/// Rolling all dice wins in at most `unit^k` of the outcomes of `k` rolls.
pub proof fn lemma_multi_count_bound(g: Game, state: Seq<u16>)
    requires
        g.balanced(),
        state.len() > 0,
    ensures
        multi_count(g, state) <= unit_pow(g, state.len()),
    decreases state.len(), 3nat, 0nat,
{
    lemma_rolls_count_bound(g, state, g.multi, g.multi.len());
    lemma_unit_pow(g, (state.len() - 1) as nat, 0);
}

/// The first `upto` lines of a table win in at most their share of the
/// outcomes.
pub proof fn lemma_rolls_count_bound(g: Game, state: Seq<u16>, rolls: Seq<RollChance>, upto: nat)
    requires
        g.balanced(),
        state.len() > 0,
        upto <= rolls.len(),
    ensures
        rolls_count(g, state, rolls, upto) <= count_sum(rolls, upto) * unit_pow(
            g,
            (state.len() - 1) as nat,
        ),
    decreases state.len(), 2nat, upto,
{
    let below = unit_pow(g, (state.len() - 1) as nat);
    if upto > 0 {
        let line = rolls[upto - 1];
        lemma_rolls_count_bound(g, state, rolls, (upto - 1) as nat);
        lemma_roll_best_bound(g, state, line.roll);
        lemma_mul_le(line.count as nat, line.count as nat, roll_best(g, state, line.roll), below);
        lemma_mul_is_distributive_add_other_way(
            below as int,
            count_sum(rolls, (upto - 1) as nat) as int,
            line.count as int,
        );
    } else {
        assert(0 * below == 0);
    }
}

/// The best state for a sum wins in at most `unit^(k-1)` outcomes.
pub proof fn lemma_roll_best_bound(g: Game, state: Seq<u16>, roll: u16)
    requires
        g.balanced(),
        state.len() > 0,
    ensures
        roll_best(g, state, roll) <= unit_pow(g, (state.len() - 1) as nat),
    decreases state.len(), 1nat, 0nat,
{
    if g.catalog.contains_key(roll) {
        let states = next_states(g.tiles, state, g.catalog[roll]);
        lemma_states_best_bound(g, state.len(), states, states.len());
    }
}

/// The best of the first `upto` states wins in at most `unit^(k-1)`
/// outcomes.
pub proof fn lemma_states_best_bound(g: Game, k: nat, states: Seq<Seq<u16>>, upto: nat)
    requires
        g.balanced(),
        k > 0,
        upto <= states.len(),
    ensures
        states_best(g, k, states, upto) <= unit_pow(g, (k - 1) as nat),
    decreases k, 0nat, upto,
{
    if upto > 0 {
        lemma_states_best_bound(g, k, states, (upto - 1) as nat);
        lemma_state_count_bound(g, k, states[upto - 1]);
    }
}

/// A state of fewer than `k` tiles wins in at most `unit^(k-1)` outcomes.
pub proof fn lemma_state_count_bound(g: Game, k: nat, state: Seq<u16>)
    requires
        g.balanced(),
        k > 0,
    ensures
        state_count(g, k, state) <= unit_pow(g, (k - 1) as nat),
    decreases k, 0nat, 0nat,
{
    if state.len() < k {
        let gap = (k - 1 - state.len()) as nat;
        lemma_win_count_bound(g, state);
        lemma_unit_pow(g, state.len(), gap);
        lemma_mul_le(
            win_count(g, state),
            unit_pow(g, state.len()),
            unit_pow(g, gap),
            unit_pow(g, gap),
        );
    }
}

/// Every state that a removal leaves is a subsequence of the state it was
/// taken from, and no longer.
pub proof fn lemma_next_states(start: Seq<u16>, state: Seq<u16>, combos: Seq<Seq<usize>>)
    ensures
        forall|i: int|
            0 <= i < next_states(start, state, combos).len() ==> {
                &&& (#[trigger] next_states(start, state, combos)[i]).len() <= state.len()
                &&& is_subsequence(next_states(start, state, combos)[i], state)
            },
    decreases combos.len(),
{
    if combos.len() > 0 {
        lemma_next_states(start, state, combos.drop_last());
        let before = next_states(start, state, combos.drop_last());
        let all = next_states(start, state, combos);
        if next_state(start, state, combos.last()) is Some {
            lemma_removed_tiles_shrinks(state, combo_tiles(start, combos.last()));
        }
        assert forall|i: int| 0 <= i < all.len() implies (#[trigger] all[i]).len() <= state.len()
            && is_subsequence(all[i], state) by {
            if i < before.len() {
                assert(all[i] == before[i]);
            }
        }
    }
}

/// Where a state of `k` tiles has a chance that a machine word holds, each
/// roll table set against the states of one tile less has one too.
pub proof fn lemma_tables_fit(g: Game, k: nat, most: nat)
    requires
        g.balanced(),
        k > 0,
        unit_pow(g, k) <= most,
    ensures
        g.single_weight >= 1,
        count_sum(g.multi, g.multi.len()) * unit_pow(g, (k - 1) as nat) <= most,
        count_sum(g.single, g.single.len()) * unit_pow(g, (k - 1) as nat) <= most,
        g.single_weight * (count_sum(g.single, g.single.len()) * unit_pow(g, (k - 1) as nat))
            <= most,
{
    let below = unit_pow(g, (k - 1) as nat);
    let total = count_sum(g.single, g.single.len());
    lemma_unit_pow(g, (k - 1) as nat, 0);
    lemma_mul_is_associative(g.single_weight as int, total as int, below as int);
    assert(g.single_weight >= 1) by (nonlinear_arith)
        requires
            g.single_weight * total >= 1,
    ;
    lemma_mul_le(1, g.single_weight, total * below, total * below);
}

/// The counts of a table's lines add up line by line.
pub proof fn lemma_count_sum_rises(rolls: Seq<RollChance>, a: nat, b: nat)
    requires
        a <= b <= rolls.len(),
    ensures
        count_sum(rolls, a) <= count_sum(rolls, b),
    decreases b,
{
    if a < b {
        lemma_count_sum_rises(rolls, a, (b - 1) as nat);
    }
}

/// States that are none of them shorter than `k` tiles are worth nothing to
/// a state of `k` tiles.
pub proof fn lemma_states_best_of_none(g: Game, k: nat, states: Seq<Seq<u16>>, upto: nat)
    requires
        forall|i: int| 0 <= i < states.len() ==> (#[trigger] states[i]).len() >= k,
    ensures
        states_best(g, k, states, upto) == 0,
    decreases upto,
{
    if upto > 0 && upto <= states.len() {
        lemma_states_best_of_none(g, k, states, (upto - 1) as nat);
        assert(state_count(g, k, states[upto - 1]) == 0);
    }
}

/// The best of the first `upto` states depends on those states alone.
pub proof fn lemma_states_best_prefix(
    g: Game,
    k: nat,
    a: Seq<Seq<u16>>,
    b: Seq<Seq<u16>>,
    upto: nat,
)
    requires
        upto <= a.len(),
        upto <= b.len(),
        forall|i: int| 0 <= i < upto ==> a[i] == b[i],
    ensures
        states_best(g, k, a, upto) == states_best(g, k, b, upto),
    decreases upto,
{
    if upto > 0 {
        lemma_states_best_prefix(g, k, a, b, (upto - 1) as nat);
    }
}

/// The states that are not shorter than `k` tiles count for nothing: the
/// best of all is the best of the shorter ones.
pub proof fn lemma_states_best_shorter(g: Game, k: nat, states: Seq<Seq<u16>>)
    ensures
        states_best(g, k, shorter_states(states, k), shorter_states(states, k).len())
            == states_best(g, k, states, states.len()),
    decreases states.len(),
{
    if states.len() > 0 {
        let before = states.drop_last();
        let few = shorter_states(before, k);
        let last = states.last();
        lemma_states_best_shorter(g, k, before);
        lemma_states_best_prefix(g, k, states, before, before.len());
        assert(states_best(g, k, states, states.len()) == larger(
            states_best(g, k, states, (states.len() - 1) as nat),
            state_count(g, k, states[states.len() - 1]),
        ));
        if last.len() < k {
            let all = few.push(last);
            lemma_states_best_prefix(g, k, all, few, few.len());
            assert(states_best(g, k, all, all.len()) == larger(
                states_best(g, k, all, (all.len() - 1) as nat),
                state_count(g, k, all[all.len() - 1]),
            ));
        } else {
            assert(state_count(g, k, last) == 0);
        }
    } else {
        assert(shorter_states(states, k).len() == 0);
    }
}

/// The shorter states of a list are the states of the list that are
/// shorter than `k` tiles.
pub proof fn lemma_shorter_states(states: Seq<Seq<u16>>, k: nat)
    ensures
        forall|j: int|
            0 <= j < shorter_states(states, k).len() ==> (#[trigger] shorter_states(states, k)[j]).len()
                < k && states.contains(shorter_states(states, k)[j]),
        forall|i: int|
            0 <= i < states.len() && (#[trigger] states[i]).len() < k ==> shorter_states(
                states,
                k,
            ).contains(states[i]),
    decreases states.len(),
{
    if states.len() > 0 {
        let before = states.drop_last();
        let few = shorter_states(before, k);
        let all = shorter_states(states, k);
        lemma_shorter_states(before, k);
        assert forall|j: int| 0 <= j < all.len() implies (#[trigger] all[j]).len() < k
            && states.contains(all[j]) by {
            if j < few.len() {
                assert(all[j] == few[j]);
                let i = choose|i: int| 0 <= i < before.len() && before[i] == few[j];
                assert(states[i] == all[j]);
            } else {
                assert(states[states.len() - 1] == all[j]);
            }
        }
        assert forall|i: int| 0 <= i < states.len() && (#[trigger] states[i]).len() < k implies all.contains(
            states[i],
        ) by {
            if i < before.len() {
                assert(before[i] == states[i]);
                assert(few.contains(before[i]));
                let j = choose|j: int| 0 <= j < few.len() && few[j] == states[i];
                assert(all[j] == states[i]);
            } else {
                assert(all[few.len() as int] == states[i]);
            }
        }
    }
}

/// With no tile left no roll is of use: a table adds up to nothing.
pub proof fn lemma_rolls_count_of_empty(g: Game, rolls: Seq<RollChance>, upto: nat)
    ensures
        rolls_count(g, Seq::<u16>::empty(), rolls, upto) == 0,
    decreases upto,
{
    if upto > 0 && upto <= rolls.len() {
        let state = Seq::<u16>::empty();
        let roll = rolls[upto - 1].roll;
        lemma_rolls_count_of_empty(g, rolls, (upto - 1) as nat);
        if g.catalog.contains_key(roll) {
            let states = next_states(g.tiles, state, g.catalog[roll]);
            lemma_states_best_of_none(g, 0, states, states.len());
        }
        assert(roll_best(g, state, roll) == 0);
        assert(rolls[upto - 1].count as nat * 0 == 0);
    }
}

} // verus!
