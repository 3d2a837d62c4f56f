//! What holds of every game.

use crate::catalog::combo_sum;
use crate::catalog::lists_removals;
use crate::catalog::positions_rise;
use crate::chance::lemma_next_states;
use crate::chance::lemma_states_best_of_none;
use crate::chance::multi_count;
use crate::chance::next_states;
use crate::chance::roll_best;
use crate::chance::rolls_count;
use crate::chance::single_count;
use crate::chance::unit_pow;
use crate::chance::win_count;
use crate::chance::Game;
use crate::chance::RollChance;
use crate::dice::lemma_occurrences_add;
use crate::memo::closed;
use crate::memo::comes_to;
use crate::memo::db_key;
use crate::memo::left_by;
use crate::memo::steps_to;
use crate::memo::merged;
use crate::memo::sound_for;
use crate::tiles::is_subsequence;
use crate::tiles::lemma_subsequence_transitive;
use crate::dice::occurrences;
use crate::tiles::removed_tiles;
use crate::tiles::single_legality;
use vstd::arithmetic::power::pow;
use vstd::prelude::*;

verus! {

/// With no tile left the game is won: the chance is one outcome of one.
pub proof fn law_no_tiles_is_won(g: Game, state: Seq<u16>)
    requires
        state.len() == 0,
    ensures
        win_count(g, state) == 1,
        unit_pow(g, state.len()) == 1,
{
    reveal_with_fuel(pow, 1);
}

/// Where a single die may not be rolled, rolling it is worth nothing.
pub proof fn law_single_die_needs_leave(g: Game, state: Seq<u16>)
    requires
        !single_legality(state, g.die_max),
    ensures
        single_count(g, state) == 0,
{
}

/// Every removal that the catalog lists for a sum adds up to that sum, and
/// takes no tile twice.
pub proof fn law_removals_add_up(
    combos: Seq<Seq<usize>>,
    tiles: Seq<u16>,
    targ: int,
    removal_max: int,
    i: int,
)
    requires
        lists_removals(combos, tiles, 0, targ, removal_max),
        0 <= i < combos.len(),
    ensures
        combo_sum(tiles, combos[i]) == targ,
        positions_rise(combos[i]),
        forall|j: int| 0 <= j < combos[i].len() ==> combos[i][j] < tiles.len(),
{
    assert(combos.contains(combos[i]));
}

/// A state in which no sum of a roll table has a legal removal is a bust
/// whatever is rolled: the table is worth nothing, and no sum is left out of
/// the reckoning to make it worth more.
pub proof fn law_bust_is_worth_nothing(g: Game, state: Seq<u16>, rolls: Seq<RollChance>, upto: nat)
    requires
        upto <= rolls.len(),
        forall|i: int|
            0 <= i < rolls.len() && g.catalog.contains_key(rolls[i].roll) ==> (#[trigger] next_states(
                g.tiles,
                state,
                g.catalog[rolls[i].roll],
            )).len() == 0,
    ensures
        rolls_count(g, state, rolls, upto) == 0,
    decreases upto,
{
    if upto > 0 {
        law_bust_is_worth_nothing(g, state, rolls, (upto - 1) as nat);
        let roll = rolls[upto - 1].roll;
        if g.catalog.contains_key(roll) {
            assert(next_states(g.tiles, state, g.catalog[roll]).len() == 0);
        }
        assert(roll_best(g, state, roll) == 0);
        assert(rolls[upto - 1].count as nat * 0 == 0);
    }
}

/// A sum whose removals all leave the state with as many tiles as it had is
/// worth nothing: so a roll of zero, whose one removal takes no tile.
pub proof fn law_idle_turn_is_worth_nothing(g: Game, state: Seq<u16>, roll: u16)
    requires
        g.catalog.contains_key(roll) ==> forall|i: int|
            0 <= i < next_states(g.tiles, state, g.catalog[roll]).len() ==> (#[trigger] next_states(
                g.tiles,
                state,
                g.catalog[roll],
            )[i]).len() >= state.len(),
    ensures
        roll_best(g, state, roll) == 0,
{
    if g.catalog.contains_key(roll) {
        let states = next_states(g.tiles, state, g.catalog[roll]);
        lemma_states_best_of_none(g, state.len(), states, states.len());
    }
}

/// A table that holds, with each of its states, the states that one turn
/// leads to from there, holds every state that play comes to from a state
/// it holds, however many turns it takes.
pub proof fn law_table_holds_what_play_comes_to(
    db: Map<u128, u128>,
    g: Game,
    from: Seq<u16>,
    to: Seq<u16>,
    turns: nat,
)
    requires
        closed(db, g),
        is_subsequence(from, g.tiles),
        db.contains_key(db_key(g.tiles, from)),
        comes_to(g, from, to, turns),
    ensures
        db.contains_key(db_key(g.tiles, to)),
        is_subsequence(to, from),
    decreases turns,
{
    if turns == 0 {
        crate::tiles::lemma_subsequence_reflexive(from);
    } else {
        let mid = choose|mid: Seq<u16>| #[trigger]
            steps_to(g, from, mid) && comes_to(g, mid, to, (turns - 1) as nat);
        let (roll, i) = choose|roll: u16, i: int| left_by(g, from, mid, roll, i);
        lemma_next_states(g.tiles, from, g.catalog[roll]);
        lemma_subsequence_transitive(mid, from, g.tiles);
        law_table_holds_what_play_comes_to(db, g, mid, to, (turns - 1) as nat);
        lemma_subsequence_transitive(to, mid, from);
    }
}

/// A state that is a bust for every sum of both roll tables cannot be won,
/// unless it is won already.
pub proof fn law_bust_loses(g: Game, state: Seq<u16>)
    requires
        state.len() > 0,
        forall|roll: u16|
            g.catalog.contains_key(roll) ==> (#[trigger] next_states(
                g.tiles,
                state,
                g.catalog[roll],
            )).len() == 0,
    ensures
        single_count(g, state) == 0,
        multi_count(g, state) == 0,
        win_count(g, state) == 0,
{
    law_bust_is_worth_nothing(g, state, g.single, g.single.len());
    law_bust_is_worth_nothing(g, state, g.multi, g.multi.len());
    assert(g.single_weight * 0 == 0);
}

/// The chance of a state is a function of the state alone: two sound tables
/// that hold a state hold it with the same chance, so taking one table over
/// into another changes the entry of no state.
pub proof fn law_tables_agree(
    a: Map<u128, u128>,
    b: Map<u128, u128>,
    m: Map<u128, u128>,
    g: Game,
    state: Seq<u16>,
)
    requires
        sound_for(a, g),
        sound_for(b, g),
        merged(a, b, m),
        is_subsequence(state, g.tiles),
        a.contains_key(db_key(g.tiles, state)),
    ensures
        b.contains_key(db_key(g.tiles, state)) ==> b[db_key(g.tiles, state)] == a[db_key(
            g.tiles,
            state,
        )],
        m.contains_key(db_key(g.tiles, state)),
        m[db_key(g.tiles, state)] == a[db_key(g.tiles, state)],
{
}

/// A value stands in a sequence exactly if it occurs there.
pub proof fn lemma_contains_iff_occurs(s: Seq<u16>, v: u16)
    ensures
        s.contains(v) <==> occurrences(s, v) > 0,
    decreases s.len(),
{
    if s.len() > 0 {
        lemma_contains_iff_occurs(s.drop_last(), v);
        if s.contains(v) {
            let i = choose|i: int| 0 <= i < s.len() && s[i] == v;
            if i < s.len() - 1 {
                assert(s.drop_last()[i] == v);
            }
        }
        if s.drop_last().contains(v) {
            let i = choose|i: int| 0 <= i < s.drop_last().len() && s.drop_last()[i] == v;
            assert(s[i] == v);
        }
        if s.last() == v {
            assert(s[s.len() - 1] == v);
        }
    }
}

/// Taking one element away takes one occurrence of its value away, and none
/// of any other value.
pub proof fn lemma_occurrences_remove(s: Seq<u16>, i: int, v: u16)
    requires
        0 <= i < s.len(),
    ensures
        occurrences(s.remove(i), v) + (if s[i] == v {
            1nat
        } else {
            0nat
        }) == occurrences(s, v),
{
    let head = s.take(i);
    let tail = s.skip(i + 1);
    let one = seq![s[i]];
    assert(s.remove(i) =~= head + tail);
    assert(s =~= (head + one) + tail);
    lemma_occurrences_add(head, tail, v);
    lemma_occurrences_add(head + one, tail, v);
    lemma_occurrences_add(head, one, v);
    reveal_with_fuel(occurrences, 2);
    assert(one.drop_last() =~= Seq::<u16>::empty());
}

/// The first value of a sequence is one of its occurrences.
pub proof fn lemma_occurrences_first(s: Seq<u16>, v: u16)
    requires
        s.len() > 0,
    ensures
        occurrences(s, v) == occurrences(s.drop_first(), v) + if s[0] == v {
            1nat
        } else {
            0nat
        },
{
    assert(s.drop_first() =~= s.remove(0));
    lemma_occurrences_remove(s, 0, v);
}

/// A removal is legal exactly if the state holds enough tiles of each value
/// that the removal names; what it leaves then holds, of each value, the
/// tiles of the state less those that the removal names.
pub proof fn law_removal_legal_iff_tiles_suffice(tiles: Seq<u16>, trp: Seq<u16>)
    ensures
        removed_tiles(tiles, trp) is Some <==> forall|v: u16|
            occurrences(trp, v) <= occurrences(tiles, v),
        removed_tiles(tiles, trp) matches Some(left) ==> forall|v: u16|
            occurrences(left, v) + occurrences(trp, v) == occurrences(tiles, v),
    decreases trp.len(),
{
    if trp.len() == 0 {
    } else {
        let first = trp[0];
        let rest = trp.drop_first();
        lemma_contains_iff_occurs(tiles, first);
        assert forall|v: u16|
            occurrences(trp, v) == occurrences(rest, v) + if first == v {
                1nat
            } else {
                0nat
            } by {
            lemma_occurrences_first(trp, v);
        }
        if !tiles.contains(first) {
            assert(occurrences(trp, first) > occurrences(tiles, first));
        } else {
            tiles.index_of_first_ensures(first);
            let i = tiles.index_of_first(first)->0;
            let fewer = tiles.remove_value(first);
            assert(fewer == tiles.remove(i));
            law_removal_legal_iff_tiles_suffice(fewer, rest);
            assert forall|v: u16|
                occurrences(fewer, v) + (if first == v {
                    1nat
                } else {
                    0nat
                }) == occurrences(tiles, v) by {
                lemma_occurrences_remove(tiles, i, v);
            }
            if removed_tiles(tiles, trp) is Some {
                assert forall|v: u16| occurrences(trp, v) <= occurrences(tiles, v) by {
                    assert(occurrences(rest, v) <= occurrences(fewer, v));
                }
            }
            if forall|v: u16| occurrences(trp, v) <= occurrences(tiles, v) {
                assert forall|v: u16| occurrences(rest, v) <= occurrences(fewer, v) by {
                    assert(occurrences(trp, v) <= occurrences(tiles, v));
                }
            }
        }
    }
}

} // verus!
