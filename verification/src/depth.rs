//! The solver that remembers: each state is solved once and filed in the
//! table of solved states.

use crate::chance::count_sum;
use crate::chance::lemma_next_states;
use crate::chance::lemma_shorter_states;
use crate::chance::lemma_states_best_shorter;
use crate::chance::lemma_tables_fit;
use crate::chance::lemma_win_count_bound;
use crate::chance::next_states;
use crate::chance::roll_best;
use crate::chance::rolls_count;
use crate::chance::shorter_states;
use crate::chance::states_best;
use crate::chance::unit_pow;
use crate::chance::win_count;
use crate::chance::Game;
use crate::dice::RollProbs;
use crate::game::rows;
use crate::game::GameMeta;
use crate::keys::get_state_key;
use crate::keys::lemma_key_fits;
use crate::memo::closed;
use crate::memo::db_key;
use crate::memo::grown_within;
use crate::memo::holds_next;
use crate::memo::kept;
use crate::memo::left_by;
use crate::memo::lemma_grown_chain;
use crate::memo::lemma_insert_closed;
use crate::memo::lemma_insert_grown;
use crate::memo::lemma_insert_sound;
use crate::memo::steps_to;
use crate::memo::GameDb;
use crate::moves::get_next_legal_states_roll;
use crate::tally::add_line;
use crate::tally::better_chance;
use crate::tally::weigh_single;
use crate::tiles::get_single_legality;
use crate::tiles::is_subsequence;
use crate::tiles::lemma_subsequence_len;
use crate::tiles::lemma_subsequence_reflexive;
use crate::tiles::lemma_subsequence_transitive;
use std::collections::HashMap;
use vstd::prelude::*;
use vstd::std_specs::iter::IteratorSpec;

verus! {

broadcast use vstd::std_specs::hash::group_hash_axioms;

/// The states of a list of solved states.
pub open spec fn stat_states(stats: Vec<(Vec<u16>, u128)>) -> Seq<Seq<u16>> {
    Seq::new(stats@.len(), |i: int| stats@[i].0@)
}

/// Each state of the list stands with its true chance.
pub open spec fn stats_solved(g: Game, stats: Vec<(Vec<u16>, u128)>) -> bool {
    forall|i: int| 0 <= i < stats@.len() ==> (#[trigger] stats@[i]).1 == win_count(g, stats@[i].0@)
}

/// `m` holds, for each sum that has a legal removal in `state`, the states
/// that those removals leave, and holds no other sum. Where `state` has no
/// tile, `m` holds nothing.
pub open spec fn legal_map(g: Game, state: Seq<u16>, m: Map<u16, Vec<Vec<u16>>>) -> bool {
    forall|roll: u16|
        {
            &&& #[trigger] m.contains_key(roll) <==> state.len() > 0 && g.catalog.contains_key(roll)
                && next_states(g.tiles, state, g.catalog[roll]).len() > 0
            &&& m.contains_key(roll) ==> rows(m[roll]) == next_states(
                g.tiles,
                state,
                g.catalog[roll],
            )
        }
}

/// `m` holds, for each sum that `legal` holds, the states of `legal` that
/// have fewer than `k` tiles, and no other sum.
pub open spec fn moves_map(
    k: nat,
    legal: Map<u16, Vec<Vec<u16>>>,
    m: Map<u16, Vec<Vec<u16>>>,
) -> bool {
    forall|roll: u16|
        {
            &&& #[trigger] m.contains_key(roll) <==> legal.contains_key(roll)
            &&& m.contains_key(roll) ==> rows(m[roll]) == shorter_states(rows(legal[roll]), k)
        }
}

/// `m` holds, for each sum that has a legal removal in `state`, the states
/// with fewer tiles that those removals leave, each with its true chance,
/// and no other sum.
pub open spec fn solved_map(g: Game, state: Seq<u16>, m: Map<u16, Vec<(Vec<u16>, u128)>>) -> bool {
    forall|roll: u16|
        {
            &&& #[trigger] m.contains_key(roll) <==> state.len() > 0 && g.catalog.contains_key(roll)
                && next_states(g.tiles, state, g.catalog[roll]).len() > 0
            &&& m.contains_key(roll) ==> stat_states(m[roll]) == shorter_states(
                next_states(g.tiles, state, g.catalog[roll]),
                state.len(),
            ) && stats_solved(g, m[roll])
        }
}

/// For each sum of the game, the states that its removals leave of `tiles`.
/// A sum with no legal removal is left out, and with no tile left every sum
/// is.
pub fn get_next_legal_states_all(tiles: &Vec<u16>, game_meta: &GameMeta) -> (hm: HashMap<
    u16,
    Vec<Vec<u16>>,
>)
    requires
        game_meta.wf(),
    ensures
        legal_map(game_meta@, tiles@, hm@),
{
    let ghost g = game_meta@;
    let mut hm: HashMap<u16, Vec<Vec<u16>>> = HashMap::new();
    if tiles.len() == 0 {
        return hm;
    }
    for pair in it: game_meta.trphm.iter()
        invariant
            game_meta.wf(),
            g == game_meta@,
            tiles@.len() > 0,
            it.seq() == game_meta.trphm.iter().remaining(),
            forall|roll: u16| #[trigger]
                hm@.contains_key(roll) ==> g.catalog.contains_key(roll) && rows(hm@[roll])
                    == next_states(g.tiles, tiles@, g.catalog[roll]) && rows(hm@[roll]).len() > 0,
            forall|i: int|
                0 <= i < it.index() && next_states(
                    g.tiles,
                    tiles@,
                    g.catalog[*(#[trigger] it.seq()[i]).0],
                ).len() > 0 ==> hm@.contains_key(*it.seq()[i].0),
    {
        let (roll, trps) = pair;
        assert(game_meta.trphm@.contains_key(*roll) && game_meta.trphm@[*roll] == *trps);
        assert(g.catalog[*roll] == rows(*trps));
        let legal_states = get_next_legal_states_roll(tiles, &game_meta.tiles, trps);
        if legal_states.len() > 0 {
            hm.insert(*roll, legal_states);
        }
    }
    proof {
        let s = game_meta.trphm.iter().remaining();
        assert forall|roll: u16|
            g.catalog.contains_key(roll) && next_states(g.tiles, tiles@, g.catalog[roll]).len()
                > 0 implies hm@.contains_key(roll) by {
            assert(s.contains((&roll, &game_meta.trphm@[roll])));
            let i = choose|i: int| 0 <= i < s.len() && s[i] == (&roll, &game_meta.trphm@[roll]);
            assert(*s[i].0 == roll);
        }
    }
    hm
}

/// The states of `states` that have fewer than `k` tiles, in their order.
fn states_with_fewer(states: &Vec<Vec<u16>>, k: usize) -> (few: Vec<Vec<u16>>)
    ensures
        rows(few) == shorter_states(rows(*states), k as nat),
{
    let mut few: Vec<Vec<u16>> = Vec::new();
    let mut i: usize = 0;
    assert(rows(*states).take(0) =~= Seq::<Seq<u16>>::empty());
    assert(rows(few) =~= Seq::<Seq<u16>>::empty());
    while i < states.len()
        invariant
            i <= states.len(),
            rows(few) == shorter_states(rows(*states).take(i as int), k as nat),
        decreases states.len() - i,
    {
        let ghost upto = rows(*states).take(i + 1);
        let ghost before = rows(few);
        assert(upto.drop_last() =~= rows(*states).take(i as int));
        assert(upto.last() == states@[i as int]@);
        if states[i].len() < k {
            few.push(states[i].clone());
            assert(rows(few) =~= before.push(states@[i as int]@));
        }
        i += 1;
    }
    assert(rows(*states).take(i as int) =~= rows(*states));
    few
}

/// The turns that take a tile: for each sum of `legal`, its states that
/// have fewer tiles than `tiles`. The state that a removal of nothing
/// leaves is dropped, since going into it would never end.
fn moves_of(tiles: &Vec<u16>, legal: &HashMap<u16, Vec<Vec<u16>>>) -> (moves: HashMap<
    u16,
    Vec<Vec<u16>>,
>)
    ensures
        moves_map(tiles@.len(), legal@, moves@),
{
    let mut moves: HashMap<u16, Vec<Vec<u16>>> = HashMap::new();
    for pair in it: legal.iter()
        invariant
            it.seq() == legal.iter().remaining(),
            forall|roll: u16| #[trigger]
                moves@.contains_key(roll) ==> legal@.contains_key(roll) && rows(moves@[roll])
                    == shorter_states(rows(legal@[roll]), tiles@.len()),
            forall|i: int| 0 <= i < it.index() ==> moves@.contains_key(*(#[trigger] it.seq()[i]).0),
    {
        let (roll, states) = pair;
        assert(legal@.contains_key(*roll) && legal@[*roll] == *states);
        let few = states_with_fewer(states, tiles.len());
        moves.insert(*roll, few);
    }
    proof {
        let s = legal.iter().remaining();
        assert forall|roll: u16| legal@.contains_key(roll) implies moves@.contains_key(roll) by {
            assert(s.contains((&roll, &legal@[roll])));
            let i = choose|i: int| 0 <= i < s.len() && s[i] == (&roll, &legal@[roll]);
            assert(*s[i].0 == roll);
        }
    }
    moves
}

/// Solves each of `states`, all of them states of `tiles` with fewer tiles,
/// and lists each with its chance. Every one of them is filed in the table,
/// with the states that solving it came to.
pub fn get_all_stats_from_states(
    tiles: &Vec<u16>,
    states: &Vec<Vec<u16>>,
    game_meta: &GameMeta,
    game_db: &mut GameDb,
) -> (res: Vec<(Vec<u16>, u128)>)
    requires
        game_meta.wf(),
        old(game_db).sound(game_meta@),
        is_subsequence(tiles@, game_meta.tiles@),
        forall|i: int|
            0 <= i < states@.len() ==> (#[trigger] rows(*states)[i]).len() < tiles@.len()
                && is_subsequence(rows(*states)[i], tiles@),
    ensures
        stat_states(res) == rows(*states),
        stats_solved(game_meta@, res),
        final(game_db).sound(game_meta@),
        kept(old(game_db)@, final(game_db)@),
        grown_within(old(game_db)@, final(game_db)@, game_meta.tiles@, tiles@),
        closed(old(game_db)@, game_meta@) ==> closed(final(game_db)@, game_meta@),
        forall|i: int|
            0 <= i < states@.len() ==> final(game_db)@.contains_key(
                db_key(game_meta.tiles@, #[trigger] rows(*states)[i]),
            ),
    decreases tiles@.len(), 2nat,
{
    let ghost g = game_meta@;
    let mut res: Vec<(Vec<u16>, u128)> = Vec::new();
    let mut i: usize = 0;
    while i < states.len()
        invariant
            i <= states.len(),
            game_meta.wf(),
            g == game_meta@,
            game_db.sound(g),
            kept(old(game_db)@, game_db@),
            grown_within(old(game_db)@, game_db@, g.tiles, tiles@),
            closed(old(game_db)@, g) ==> closed(game_db@, g),
            is_subsequence(tiles@, g.tiles),
            forall|i: int|
                0 <= i < states@.len() ==> (#[trigger] rows(*states)[i]).len() < tiles@.len()
                    && is_subsequence(rows(*states)[i], tiles@),
            res@.len() == i,
            forall|j: int| 0 <= j < i ==> (#[trigger] res@[j]).0@ == states@[j]@,
            stats_solved(g, res),
            forall|j: int|
                0 <= j < i ==> game_db@.contains_key(db_key(g.tiles, #[trigger] rows(*states)[j])),
        decreases states.len() - i,
    {
        let state = states[i].clone();
        let ghost before = game_db@;
        assert(state@ == rows(*states)[i as int]);
        proof {
            lemma_subsequence_transitive(state@, tiles@, g.tiles);
        }
        let stats = depth_solve(state.clone(), game_meta, game_db);
        proof {
            lemma_grown_chain(old(game_db)@, before, game_db@, g.tiles, state@, tiles@);
            assert forall|j: int| 0 <= j < i + 1 implies game_db@.contains_key(
                db_key(g.tiles, #[trigger] rows(*states)[j]),
            ) by {
                if j < i {
                    assert(before.contains_key(db_key(g.tiles, rows(*states)[j])));
                }
            }
        }
        res.push((state, stats));
        i += 1;
    }
    assert(stat_states(res) =~= rows(*states));
    res
}

/// Solves every state of `state_hm`, all of them states of `tiles` with
/// fewer tiles, and lists them sum by sum, each with its chance. Every one
/// of them is filed in the table, with the states that solving it came to.
pub fn get_all_stats_from_hm(
    tiles: &Vec<u16>,
    state_hm: &HashMap<u16, Vec<Vec<u16>>>,
    game_meta: &GameMeta,
    game_db: &mut GameDb,
) -> (hm: HashMap<u16, Vec<(Vec<u16>, u128)>>)
    requires
        game_meta.wf(),
        old(game_db).sound(game_meta@),
        is_subsequence(tiles@, game_meta.tiles@),
        forall|roll: u16, i: int|
            state_hm@.contains_key(roll) && 0 <= i < state_hm@[roll]@.len() ==> (#[trigger] rows(
                state_hm@[roll],
            )[i]).len() < tiles@.len() && is_subsequence(rows(state_hm@[roll])[i], tiles@),
    ensures
        forall|roll: u16| #[trigger] hm@.contains_key(roll) <==> state_hm@.contains_key(roll),
        forall|roll: u16| #[trigger]
            hm@.contains_key(roll) ==> stat_states(hm@[roll]) == rows(state_hm@[roll])
                && stats_solved(game_meta@, hm@[roll]),
        final(game_db).sound(game_meta@),
        kept(old(game_db)@, final(game_db)@),
        grown_within(old(game_db)@, final(game_db)@, game_meta.tiles@, tiles@),
        closed(old(game_db)@, game_meta@) ==> closed(final(game_db)@, game_meta@),
        forall|roll: u16, i: int|
            state_hm@.contains_key(roll) && 0 <= i < state_hm@[roll]@.len()
                ==> final(game_db)@.contains_key(
                db_key(game_meta.tiles@, #[trigger] rows(state_hm@[roll])[i]),
            ),
    decreases tiles@.len(), 3nat,
{
    let ghost g = game_meta@;
    let mut hm: HashMap<u16, Vec<(Vec<u16>, u128)>> = HashMap::new();
    for pair in it: state_hm.iter()
        invariant
            game_meta.wf(),
            g == game_meta@,
            game_db.sound(g),
            kept(old(game_db)@, game_db@),
            grown_within(old(game_db)@, game_db@, g.tiles, tiles@),
            closed(old(game_db)@, g) ==> closed(game_db@, g),
            is_subsequence(tiles@, g.tiles),
            forall|roll: u16, i: int|
                state_hm@.contains_key(roll) && 0 <= i < state_hm@[roll]@.len() ==> (
                #[trigger] rows(state_hm@[roll])[i]).len() < tiles@.len() && is_subsequence(
                    rows(state_hm@[roll])[i],
                    tiles@,
                ),
            it.seq() == state_hm.iter().remaining(),
            forall|roll: u16| #[trigger]
                hm@.contains_key(roll) ==> state_hm@.contains_key(roll) && stat_states(hm@[roll])
                    == rows(state_hm@[roll]) && stats_solved(g, hm@[roll]),
            forall|i: int| 0 <= i < it.index() ==> hm@.contains_key(*(#[trigger] it.seq()[i]).0),
            forall|roll: u16, i: int|
                hm@.contains_key(roll) && 0 <= i < state_hm@[roll]@.len() ==> game_db@.contains_key(
                    db_key(g.tiles, #[trigger] rows(state_hm@[roll])[i]),
                ),
    {
        let (roll, game_states) = pair;
        let ghost before = game_db@;
        let ghost listed = hm@;
        assert(state_hm@.contains_key(*roll) && state_hm@[*roll] == *game_states);
        assert forall|i: int| 0 <= i < game_states@.len() implies (#[trigger] rows(
            *game_states,
        )[i]).len() < tiles@.len() && is_subsequence(rows(*game_states)[i], tiles@) by {
            assert(rows(state_hm@[*roll])[i] == rows(*game_states)[i]);
        }
        let games = get_all_stats_from_states(tiles, game_states, game_meta, game_db);
        hm.insert(*roll, games);
        proof {
            lemma_subsequence_reflexive(tiles@);
            lemma_grown_chain(old(game_db)@, before, game_db@, g.tiles, tiles@, tiles@);
            assert forall|r: u16, i: int|
                hm@.contains_key(r) && 0 <= i < state_hm@[r]@.len() implies game_db@.contains_key(
                db_key(g.tiles, #[trigger] rows(state_hm@[r])[i]),
            ) by {
                if r != *roll {
                    assert(listed.contains_key(r));
                    assert(before.contains_key(db_key(g.tiles, rows(state_hm@[r])[i])));
                } else {
                    assert(rows(state_hm@[r])[i] == rows(*game_states)[i]);
                }
            }
        }
    }
    proof {
        let s = state_hm.iter().remaining();
        assert forall|roll: u16| state_hm@.contains_key(roll) implies hm@.contains_key(roll) by {
            assert(s.contains((&roll, &state_hm@[roll])));
            let i = choose|i: int| 0 <= i < s.len() && s[i] == (&roll, &state_hm@[roll]);
            assert(*s[i].0 == roll);
        }
    }
    hm
}

/// The best that solved states are worth to a state of `k` tiles, counted in
/// outcomes of `k - 1` rolls.
fn best_of_stats(stats: &Vec<(Vec<u16>, u128)>, k: usize, game_meta: &GameMeta) -> (best: u128)
    requires
        game_meta.wf(),
        0 < k <= game_meta.tiles@.len(),
        stats_solved(game_meta@, *stats),
    ensures
        best == states_best(game_meta@, k as nat, stat_states(*stats), stats@.len()),
{
    let mut best: u128 = 0;
    let mut i: usize = 0;
    while i < stats.len()
        invariant
            i <= stats.len(),
            game_meta.wf(),
            0 < k <= game_meta.tiles@.len(),
            stats_solved(game_meta@, *stats),
            best == states_best(game_meta@, k as nat, stat_states(*stats), i as nat),
        decreases stats.len() - i,
    {
        assert(stat_states(*stats)[i as int] == stats@[i as int].0@);
        best = better_chance(best, &stats[i].0, stats[i].1, k, game_meta);
        i += 1;
    }
    best
}

/// A roll table applied to `tiles`, whose next states stand solved in
/// `solved`: each line's count times the best chance that its sum allows,
/// added up.
fn solved_rolls(
    tiles: &Vec<u16>,
    game_meta: &GameMeta,
    solved: &HashMap<u16, Vec<(Vec<u16>, u128)>>,
    table: &RollProbs,
) -> (sum: u128)
    requires
        game_meta.wf(),
        table.wf(),
        0 < tiles@.len() <= game_meta.tiles@.len(),
        solved_map(game_meta@, tiles@, solved@),
        count_sum(table@, table@.len()) * unit_pow(game_meta@, (tiles@.len() - 1) as nat)
            <= u128::MAX,
    ensures
        sum == rolls_count(game_meta@, tiles@, table@, table@.len()),
{
    let mut sum: u128 = 0;
    let mut i: usize = 0;
    while i < table.rolls.len()
        invariant
            i <= table@.len(),
            game_meta.wf(),
            table.wf(),
            0 < tiles@.len() <= game_meta.tiles@.len(),
            solved_map(game_meta@, tiles@, solved@),
            count_sum(table@, table@.len()) * unit_pow(game_meta@, (tiles@.len() - 1) as nat)
                <= u128::MAX,
            sum == rolls_count(game_meta@, tiles@, table@, i as nat),
        decreases table@.len() - i,
    {
        let roll = table.rolls[i];
        let best = match solved.get(&roll) {
            Some(stats) => {
                assert(solved@.contains_key(roll) && solved@[roll] == *stats);
                proof {
                    lemma_states_best_shorter(
                        game_meta@,
                        tiles@.len(),
                        next_states(game_meta@.tiles, tiles@, game_meta@.catalog[roll]),
                    );
                }
                best_of_stats(stats, tiles.len(), game_meta)
            },
            None => {
                assert(!solved@.contains_key(roll));
                0
            },
        };
        assert(best == roll_best(game_meta@, tiles@, roll));
        sum = add_line(sum, best, tiles, game_meta, table, i);
        i += 1;
    }
    sum
}

/// The chance to win from `tiles` under perfect play, counted in outcomes of
/// as many full rolls as `tiles` has tiles. A state that the table holds is
/// answered from the table, which stays as it is. Any other state is solved
/// and filed, after every state that one turn leads to from it; so a table
/// that held, with each of its states, the states that play can come to
/// from there, does so afterwards. Nothing is filed but states of `tiles`.
pub fn depth_solve(tiles: Vec<u16>, game_meta: &GameMeta, game_db: &mut GameDb) -> (wins: u128)
    requires
        game_meta.wf(),
        old(game_db).sound(game_meta@),
        is_subsequence(tiles@, game_meta.tiles@),
    ensures
        wins == win_count(game_meta@, tiles@),
        final(game_db).sound(game_meta@),
        kept(old(game_db)@, final(game_db)@),
        final(game_db)@.contains_key(db_key(game_meta.tiles@, tiles@)),
        final(game_db)@[db_key(game_meta.tiles@, tiles@)] == wins,
        old(game_db)@.contains_key(db_key(game_meta.tiles@, tiles@)) ==> final(game_db)@
            == old(game_db)@,
        old(game_db)@.contains_key(db_key(game_meta.tiles@, tiles@)) || holds_next(
            final(game_db)@,
            game_meta@,
            tiles@,
        ),
        grown_within(old(game_db)@, final(game_db)@, game_meta.tiles@, tiles@),
        closed(old(game_db)@, game_meta@) ==> closed(final(game_db)@, game_meta@),
    decreases tiles@.len(), 4nat,
{
    let ghost g = game_meta@;
    proof {
        lemma_key_fits(g.tiles, tiles@, g.tiles.len());
        lemma_subsequence_len(tiles@, g.tiles);
        lemma_win_count_bound(g, tiles@);
        assert(game_meta.scale@[tiles@.len() as int] == unit_pow(g, tiles@.len()));
    }
    let key = match get_state_key(&game_meta.tiles, &tiles) {
        Some(key) => key,
        None => {
            assert(false);
            0
        },
    };
    assert(key == db_key(g.tiles, tiles@));
    match game_db.chances.get(&key) {
        Some(existing_game) => {
            return *existing_game;
        },
        None => {},
    }
    if tiles.len() == 0 {
        proof {
            lemma_insert_sound(game_db@, g, tiles@);
            lemma_insert_grown(game_db@, game_db@, g.tiles, tiles@, 1);
            if closed(game_db@, g) {
                lemma_insert_closed(game_db@, g, tiles@, 1);
            }
        }
        game_db.chances.insert(key, 1);
        return 1;
    }
    let all_next_legal_states_hm = get_next_legal_states_all(&tiles, game_meta);
    let moves = moves_of(&tiles, &all_next_legal_states_hm);
    proof {
        assert forall|roll: u16, i: int|
            moves@.contains_key(roll) && 0 <= i < moves@[roll]@.len() implies (#[trigger] rows(
            moves@[roll],
        )[i]).len() < tiles@.len() && is_subsequence(rows(moves@[roll])[i], tiles@) by {
            let states = next_states(g.tiles, tiles@, g.catalog[roll]);
            lemma_next_states(g.tiles, tiles@, g.catalog[roll]);
            lemma_shorter_states(states, tiles@.len());
            let to = rows(moves@[roll])[i];
            assert(to == shorter_states(states, tiles@.len())[i]);
            let j = choose|j: int| 0 <= j < states.len() && states[j] == to;
            assert(is_subsequence(states[j], tiles@));
        }
    }
    let solved = get_all_stats_from_hm(&tiles, &moves, game_meta, game_db);
    assert(solved_map(g, tiles@, solved@));
    proof {
        lemma_tables_fit(g, tiles@.len(), u128::MAX as nat);
    }
    let mut win_chance_single: u128 = 0;
    if get_single_legality(&tiles, game_meta.die_max) {
        let sum = solved_rolls(&tiles, game_meta, &solved, &game_meta.roll_probs_single);
        win_chance_single = weigh_single(sum, &tiles, game_meta);
    }
    let win_chance_multi = solved_rolls(
        &tiles,
        game_meta,
        &solved,
        &game_meta.roll_probs_multi,
    );
    let win_chance = if win_chance_single >= win_chance_multi {
        win_chance_single
    } else {
        win_chance_multi
    };
    proof {
        lemma_insert_sound(game_db@, g, tiles@);
        lemma_insert_grown(old(game_db)@, game_db@, g.tiles, tiles@, win_chance);
        assert forall|to: Seq<u16>| #[trigger] steps_to(g, tiles@, to) implies game_db@.contains_key(
            db_key(g.tiles, to),
        ) by {
            let (roll, i) = choose|roll: u16, i: int| left_by(g, tiles@, to, roll, i);
            let states = next_states(g.tiles, tiles@, g.catalog[roll]);
            lemma_shorter_states(states, tiles@.len());
            assert(states[i] == to);
            assert(moves@.contains_key(roll));
            let few = rows(moves@[roll]);
            assert(few.contains(to));
            let j = choose|j: int| 0 <= j < few.len() && few[j] == to;
            assert(rows(moves@[roll])[j] == to);
        }
        if closed(old(game_db)@, g) {
            lemma_insert_closed(game_db@, g, tiles@, win_chance);
        }
    }
    game_db.chances.insert(key, win_chance);
    win_chance
}

} // verus!
