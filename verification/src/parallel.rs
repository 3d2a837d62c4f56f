//! The solver that works side by side: states of equal size are solved on
//! the workers of a thread pool, smallest first. Each worker fills a table
//! of its own, grown from what the smaller sizes gave; the tables of a size
//! are taken over into one before the next size begins.

use crate::chance::win_count;
use crate::chance::Game;
use crate::depth::depth_solve;
use crate::game::rows;
use crate::keys::get_state_key;
use crate::keys::lemma_key_fits;
use crate::keys::lemma_state_key_injective;
use crate::keys::MAX_TILES;
use crate::game::GameMeta;
use crate::memo::closed;
use crate::memo::db_key;
use crate::memo::grown_within;
use crate::memo::holds_next;
use crate::memo::is_state_key;
use crate::memo::kept;
use crate::memo::lemma_grown_chain;
use crate::memo::lemma_merge_closed;
use crate::memo::lemma_merge_sound;
use crate::memo::sound_for;
use crate::memo::GameDb;
use crate::tiles::is_subsequence;
use crate::tiles::lemma_subsequence_from_front;
use crate::tiles::lemma_subsequence_len;
use crate::tiles::lemma_subsequence_reflexive;
use crate::tiles::lemma_subsequence_same_len;
use crate::tiles::lemma_subsequence_tiles;
use crate::tiles::lemma_subsequence_transitive;
use rayon::iter::IntoParallelRefIterator;
use rayon::iter::ParallelIterator;
use std::collections::HashSet;
use vstd::prelude::*;

verus! {

broadcast use vstd::std_specs::hash::group_hash_axioms;

/// `fragment` is what solving `state` makes of the table `seed`: a sound
/// table that holds all of `seed` and the state `state`, and besides `seed`
/// nothing but states of `state`. It is `seed` itself where `seed` held
/// `state`, and it holds with each of its states the states that play can
/// come to from there, where `seed` did.
pub open spec fn fragment_of(
    g: Game,
    state: Seq<u16>,
    seed: Map<u128, u128>,
    fragment: Map<u128, u128>,
) -> bool {
    &&& sound_for(fragment, g)
    &&& kept(seed, fragment)
    &&& fragment.contains_key(db_key(g.tiles, state))
    &&& grown_within(seed, fragment, g.tiles, state)
    &&& closed(seed, g) ==> closed(fragment, g)
    &&& seed.contains_key(db_key(g.tiles, state)) ==> fragment == seed
    &&& seed.contains_key(db_key(g.tiles, state)) || holds_next(fragment, g, state)
}

/// The states of `num` tiles that begin with `curr` and go on with tiles of
/// `remaining`, taken in their order. The states that take the first tile of
/// `remaining` come first, then those that pass it over; within each part
/// the same holds of the tiles that follow.
pub open spec fn states_from(remaining: Seq<u16>, curr: Seq<u16>, num: nat) -> Seq<Seq<u16>>
    decreases remaining.len(),
{
    if curr.len() == num {
        seq![curr]
    } else if remaining.len() == 0 {
        Seq::empty()
    } else {
        states_from(remaining.drop_first(), curr.push(remaining[0]), num) + states_from(
            remaining.drop_first(),
            curr,
            num,
        )
    }
}

/// The states of a list, each where it first stands.
pub open spec fn once_each(states: Seq<Seq<u16>>) -> Seq<Seq<u16>>
    decreases states.len(),
{
    if states.len() == 0 {
        Seq::empty()
    } else if states.drop_last().contains(states.last()) {
        once_each(states.drop_last())
    } else {
        once_each(states.drop_last()).push(states.last())
    }
}

/// `t` has `num` tiles, begins with `curr`, and goes on with a subsequence
/// of `remaining`.
pub open spec fn state_over(t: Seq<u16>, remaining: Seq<u16>, curr: Seq<u16>, num: nat) -> bool {
    &&& t.len() == num
    &&& curr.len() <= num
    &&& t.take(curr.len() as int) == curr
    &&& is_subsequence(t.skip(curr.len() as int), remaining)
}

/// No state is listed where `curr` is too long, or `remaining` too short to
/// fill it up.
pub proof fn lemma_states_from_none(remaining: Seq<u16>, curr: Seq<u16>, num: nat)
    requires
        curr.len() > num || curr.len() + remaining.len() < num,
    ensures
        states_from(remaining, curr, num) == Seq::<Seq<u16>>::empty(),
    decreases remaining.len(),
{
    if remaining.len() > 0 {
        lemma_states_from_none(remaining.drop_first(), curr.push(remaining[0]), num);
        lemma_states_from_none(remaining.drop_first(), curr, num);
        assert(states_from(remaining, curr, num) =~= Seq::<Seq<u16>>::empty());
    }
}

/// The list holds exactly the states of `num` tiles that begin with `curr`
/// and go on with a subsequence of `remaining`.
pub proof fn lemma_states_from_members(
    remaining: Seq<u16>,
    curr: Seq<u16>,
    num: nat,
    t: Seq<u16>,
)
    ensures
        states_from(remaining, curr, num).contains(t) <==> state_over(t, remaining, curr, num),
    decreases remaining.len(),
{
    let all = states_from(remaining, curr, num);
    let c = curr.len() as int;
    if curr.len() == num {
        assert(all[0] == curr);
        if state_over(t, remaining, curr, num) {
            assert(t.take(c) =~= t);
        }
        if all.contains(t) {
            assert(t.take(c) =~= t);
            assert(t.skip(c) =~= Seq::<u16>::empty());
        }
    } else if remaining.len() == 0 {
        if state_over(t, remaining, curr, num) {
            lemma_subsequence_len(t.skip(c), remaining);
        }
    } else {
        let rest = remaining.drop_first();
        let longer = curr.push(remaining[0]);
        let first = states_from(rest, longer, num);
        let second = states_from(rest, curr, num);
        lemma_states_from_members(rest, longer, num, t);
        lemma_states_from_members(rest, curr, num, t);
        if all.contains(t) {
            let i = choose|i: int| 0 <= i < all.len() && all[i] == t;
            if i < first.len() {
                assert(first[i] == t);
            } else {
                assert(second[i - first.len()] == t);
            }
        }
        if first.contains(t) {
            let i = choose|i: int| 0 <= i < first.len() && first[i] == t;
            assert(all[i] == t);
        }
        if second.contains(t) {
            let i = choose|i: int| 0 <= i < second.len() && second[i] == t;
            assert(all[first.len() + i] == t);
        }
        if t.len() == num && c < num {
            let tail = t.skip(c);
            lemma_subsequence_from_front(tail, remaining);
            assert(tail.drop_first() =~= t.skip(c + 1));
            assert(tail[0] == t[c]);
            assert(t.take(c + 1) =~= t.take(c).push(t[c]));
            if t.take(c + 1) == longer {
                assert(t.take(c) =~= longer.take(c));
                assert(longer.take(c) =~= curr);
                assert(longer[c] == remaining[0]);
            }
        }
    }
}

/// Where no two tiles of `remaining` are alike, no state is listed twice.
pub proof fn lemma_states_from_distinct(remaining: Seq<u16>, curr: Seq<u16>, num: nat)
    requires
        remaining.no_duplicates(),
    ensures
        states_from(remaining, curr, num).no_duplicates(),
    decreases remaining.len(),
{
    let all = states_from(remaining, curr, num);
    if curr.len() != num && remaining.len() > 0 {
        let c = curr.len() as int;
        let rest = remaining.drop_first();
        let longer = curr.push(remaining[0]);
        let first = states_from(rest, longer, num);
        let second = states_from(rest, curr, num);
        assert(rest.no_duplicates());
        lemma_states_from_distinct(rest, longer, num);
        lemma_states_from_distinct(rest, curr, num);
        assert forall|i: int, j: int| 0 <= i < j < all.len() implies all[i] != all[j] by {
            if i < first.len() && j >= first.len() {
                let t = all[i];
                let u = all[j];
                assert(first[i] == t);
                assert(second[j - first.len()] == u);
                assert(first.contains(t));
                assert(second.contains(u));
                lemma_states_from_members(rest, longer, num, t);
                lemma_states_from_members(rest, curr, num, u);
                if c < num {
                    assert(t.take(c + 1)[c] == remaining[0]);
                    lemma_subsequence_tiles(u.skip(c), rest, 0);
                    let p = choose|p: int| 0 <= p < rest.len() && rest[p] == u.skip(c)[0];
                    assert(remaining[p + 1] == u[c]);
                }
            } else if j < first.len() {
                assert(first[i] == all[i] && first[j] == all[j]);
            } else {
                assert(second[i - first.len()] == all[i] && second[j - first.len()] == all[j]);
            }
        }
    }
}

/// A list that holds no state twice is left as it is.
pub proof fn lemma_once_each_of_distinct(states: Seq<Seq<u16>>)
    requires
        states.no_duplicates(),
    ensures
        once_each(states) == states,
    decreases states.len(),
{
    if states.len() > 0 {
        let before = states.drop_last();
        lemma_once_each_of_distinct(before);
        if before.contains(states.last()) {
            let i = choose|i: int| 0 <= i < before.len() && before[i] == states.last();
            assert(states[i] == states[states.len() - 1]);
        }
        assert(before.push(states.last()) =~= states);
    }
}

/// The states of `num_tiles` tiles that begin with `curr_tiles` and go on
/// with tiles of `remaining_tiles` from position `from` on.
fn states_after(remaining_tiles: &Vec<u16>, from: usize, curr_tiles: &Vec<u16>, num_tiles: usize) -> (sol:
    Vec<Vec<u16>>)
    requires
        from <= remaining_tiles@.len(),
    ensures
        rows(sol) == states_from(remaining_tiles@.skip(from as int), curr_tiles@, num_tiles as nat),
    decreases remaining_tiles@.len() - from,
{
    let ghost remaining = remaining_tiles@.skip(from as int);
    let mut sol: Vec<Vec<u16>> = Vec::new();
    if num_tiles == curr_tiles.len() {
        sol.push(curr_tiles.clone());
        assert(rows(sol) =~= seq![curr_tiles@]);
        return sol;
    }
    if curr_tiles.len() > num_tiles || remaining_tiles.len() - from < num_tiles - curr_tiles.len() {
        proof {
            lemma_states_from_none(remaining, curr_tiles@, num_tiles as nat);
            assert(rows(sol) =~= Seq::<Seq<u16>>::empty());
        }
        return sol;
    }
    let mut longer = curr_tiles.clone();
    longer.push(remaining_tiles[from]);
    assert(remaining.drop_first() =~= remaining_tiles@.skip(from + 1));
    assert(longer@ == curr_tiles@.push(remaining[0]));
    let mut sol = states_after(remaining_tiles, from + 1, &longer, num_tiles);
    let mut others = states_after(remaining_tiles, from + 1, curr_tiles, num_tiles);
    let ghost first = rows(sol);
    let ghost second = rows(others);
    sol.append(&mut others);
    assert(rows(sol) =~= first + second);
    sol
}

/// Lists the states of `num_tiles` tiles that begin with `curr_tiles` and go
/// on with tiles of `remaining_tiles`, taken in their order. The states
/// that take an earlier tile stand before those that pass it over. Where no
/// two tiles of `remaining_tiles` are alike, no state is listed twice.
pub fn get_game_states_by_tiles_remaining(
    remaining_tiles: &Vec<u16>,
    curr_tiles: &Vec<u16>,
    num_tiles: usize,
) -> (sol: Vec<Vec<u16>>)
    ensures
        rows(sol) == states_from(remaining_tiles@, curr_tiles@, num_tiles as nat),
        forall|t: Seq<u16>| #[trigger]
            rows(sol).contains(t) <==> state_over(
                t,
                remaining_tiles@,
                curr_tiles@,
                num_tiles as nat,
            ),
        remaining_tiles@.no_duplicates() ==> rows(sol).no_duplicates(),
{
    assert(remaining_tiles@.skip(0) =~= remaining_tiles@);
    let sol = states_after(remaining_tiles, 0, curr_tiles, num_tiles);
    proof {
        assert forall|t: Seq<u16>| #[trigger]
            rows(sol).contains(t) <==> state_over(
                t,
                remaining_tiles@,
                curr_tiles@,
                num_tiles as nat,
            ) by {
            lemma_states_from_members(remaining_tiles@, curr_tiles@, num_tiles as nat, t);
        }
        if remaining_tiles@.no_duplicates() {
            lemma_states_from_distinct(remaining_tiles@, curr_tiles@, num_tiles as nat);
        }
    }
    sol
}

/// Lists each of `states`, all of them states of `tiles`, once, where it
/// first stands.
pub fn distinct_states(tiles: &Vec<u16>, states: &Vec<Vec<u16>>) -> (once: Vec<Vec<u16>>)
    requires
        tiles@.len() <= MAX_TILES,
        forall|i: int| 0 <= i < states@.len() ==> is_subsequence(#[trigger] rows(*states)[i], tiles@),
    ensures
        rows(once) == once_each(rows(*states)),
        forall|t: Seq<u16>| #[trigger] rows(once).contains(t) <==> rows(*states).contains(t),
        rows(once).no_duplicates(),
{
    let mut once: Vec<Vec<u16>> = Vec::new();
    let mut seen: HashSet<u128> = HashSet::new();
    let mut i: usize = 0;
    assert(rows(once) =~= Seq::<Seq<u16>>::empty());
    assert(rows(*states).take(0) =~= Seq::<Seq<u16>>::empty());
    while i < states.len()
        invariant
            i <= states.len(),
            tiles@.len() <= MAX_TILES,
            forall|i: int|
                0 <= i < states@.len() ==> is_subsequence(#[trigger] rows(*states)[i], tiles@),
            rows(once) == once_each(rows(*states).take(i as int)),
            forall|t: Seq<u16>| #[trigger]
                rows(once).contains(t) <==> rows(*states).take(i as int).contains(t),
            rows(once).no_duplicates(),
            forall|j: int|
                0 <= j < once@.len() ==> is_subsequence(#[trigger] rows(once)[j], tiles@)
                    && seen@.contains(db_key(tiles@, rows(once)[j])),
            forall|k: u128| #[trigger]
                seen@.contains(k) ==> exists|j: int|
                    0 <= j < once@.len() && db_key(tiles@, #[trigger] rows(once)[j]) == k,
        decreases states.len() - i,
    {
        let ghost state = rows(*states)[i as int];
        let ghost before = rows(once);
        let ghost upto = rows(*states).take(i as int);
        let ghost now = rows(*states).take(i + 1);
        assert(states@[i as int]@ == state);
        proof {
            lemma_key_fits(tiles@, state, tiles@.len());
        }
        let key = match get_state_key(tiles, &states[i]) {
            Some(key) => key,
            None => {
                assert(false);
                0
            },
        };
        let fresh = !seen.contains(&key);
        proof {
            assert(now.drop_last() =~= upto);
            assert(now.last() == state);
            if !fresh {
                let j = choose|j: int|
                    0 <= j < once@.len() && db_key(tiles@, #[trigger] rows(once)[j]) == key;
                lemma_key_fits(tiles@, before[j], tiles@.len());
                lemma_state_key_injective(tiles@, before[j], state);
                assert(before.contains(state));
                assert(upto.contains(state));
            } else {
                if before.contains(state) {
                    let j = choose|j: int| 0 <= j < before.len() && before[j] == state;
                    assert(seen@.contains(db_key(tiles@, rows(once)[j])));
                }
            }
        }
        if fresh {
            seen.insert(key);
            once.push(states[i].clone());
            proof {
                assert(rows(once) =~= before.push(state));
                assert(rows(once)[before.len() as int] == state);
            }
        }
        proof {
            let after = rows(once);
            assert(now =~= upto.push(state));
            assert forall|t: Seq<u16>| #[trigger] after.contains(t) <==> now.contains(t) by {
                if after.contains(t) {
                    let j = choose|j: int| 0 <= j < after.len() && after[j] == t;
                    if j < before.len() {
                        assert(before[j] == t);
                        assert(before.contains(t));
                        assert(upto.contains(t));
                        let x = choose|x: int| 0 <= x < upto.len() && upto[x] == t;
                        assert(now[x] == t);
                    } else {
                        assert(now[i as int] == t);
                    }
                }
                if now.contains(t) {
                    let x = choose|x: int| 0 <= x < now.len() && now[x] == t;
                    if x < i {
                        assert(upto[x] == t);
                        assert(upto.contains(t));
                    }
                    if x == i && fresh {
                        assert(after[before.len() as int] == t);
                    } else {
                        assert(before.contains(t));
                        let j = choose|j: int| 0 <= j < before.len() && before[j] == t;
                        assert(after[j] == t);
                    }
                }
            }
            assert forall|k: u128| #[trigger] seen@.contains(k) implies exists|j: int|
                0 <= j < once@.len() && db_key(tiles@, #[trigger] rows(once)[j]) == k by {
                if fresh && k == key {
                    assert(db_key(tiles@, after[before.len() as int]) == k);
                } else {
                    let j = choose|j: int|
                        0 <= j < before.len() && db_key(tiles@, #[trigger] before[j]) == k;
                    assert(after[j] == before[j]);
                }
            }
        }
        i += 1;
    }
    assert(rows(*states).take(i as int) =~= rows(*states));
    once
}

/// The states of `tiles` that have `num` tiles, each once, in the order of
/// `states_from`.
pub open spec fn wave_of(tiles: Seq<u16>, num: nat) -> Seq<Seq<u16>> {
    once_each(states_from(tiles, Seq::empty(), num))
}

/// Lists the states of `tiles` size by size, smallest first: the states of
/// one tile, of two tiles, and so on up to one tile less than `tiles` has,
/// each state once. Where no two tiles are alike, a size is listed as
/// `get_game_states_by_tiles_remaining` lists it.
pub fn get_tile_combos(tiles: &Vec<u16>) -> (game_states: Vec<Vec<Vec<u16>>>)
    requires
        tiles@.len() <= MAX_TILES,
    ensures
        tiles@.len() > 0 ==> game_states@.len() == tiles@.len() - 1,
        tiles@.len() == 0 ==> game_states@.len() == 0,
        forall|i: int|
            0 <= i < game_states@.len() ==> #[trigger] rows(game_states@[i]) == wave_of(
                tiles@,
                (i + 1) as nat,
            ),
        tiles@.no_duplicates() ==> forall|i: int|
            0 <= i < game_states@.len() ==> #[trigger] rows(game_states@[i]) == states_from(
                tiles@,
                Seq::empty(),
                (i + 1) as nat,
            ),
        forall|i: int| 0 <= i < game_states@.len() ==> (#[trigger] rows(game_states@[i])).no_duplicates(),
        forall|i: int, t: Seq<u16>|
            0 <= i < game_states@.len() ==> (#[trigger] rows(game_states@[i]).contains(t) <==> t.len()
                == i + 1 && is_subsequence(t, tiles@)),
{
    let mut game_states: Vec<Vec<Vec<u16>>> = Vec::new();
    let none: Vec<u16> = Vec::new();
    let mut i: usize = 1;
    assert(none@ =~= Seq::<u16>::empty());
    while i < tiles.len()
        invariant
            1 <= i,
            i <= tiles@.len() || tiles@.len() == 0,
            none@ == Seq::<u16>::empty(),
            tiles@.len() <= MAX_TILES,
            tiles@.len() == 0 ==> i == 1,
            game_states@.len() == i - 1,
            forall|w: int|
                0 <= w < game_states@.len() ==> #[trigger] rows(game_states@[w]) == wave_of(
                    tiles@,
                    (w + 1) as nat,
                ),
            tiles@.no_duplicates() ==> forall|w: int|
                0 <= w < game_states@.len() ==> #[trigger] rows(game_states@[w]) == states_from(
                    tiles@,
                    Seq::empty(),
                    (w + 1) as nat,
                ),
            forall|w: int|
                0 <= w < game_states@.len() ==> (#[trigger] rows(game_states@[w])).no_duplicates(),
            forall|w: int, t: Seq<u16>|
                0 <= w < game_states@.len() ==> (#[trigger] rows(game_states@[w]).contains(t) <==> t.len()
                    == w + 1 && is_subsequence(t, tiles@)),
        decreases tiles.len() - i,
    {
        let listed = get_game_states_by_tiles_remaining(tiles, &none, i);
        proof {
            assert forall|t: Seq<u16>| #[trigger]
                rows(listed).contains(t) <==> t.len() == i && is_subsequence(t, tiles@) by {
                assert(t.skip(0) =~= t);
                assert(t.take(0) =~= Seq::<u16>::empty());
                assert(rows(listed).contains(t) <==> state_over(t, tiles@, none@, i as nat));
            }
            assert forall|j: int| 0 <= j < listed@.len() implies is_subsequence(
                #[trigger] rows(listed)[j],
                tiles@,
            ) by {
                assert(rows(listed).contains(rows(listed)[j]));
            }
            if tiles@.no_duplicates() {
                lemma_once_each_of_distinct(rows(listed));
            }
        }
        let wave = distinct_states(tiles, &listed);
        game_states.push(wave);
        i += 1;
    }
    game_states
}

/// Solves `state` in a table of its own, grown from `seed`.
pub fn solve_fragment(state: &Vec<u16>, game_meta: &GameMeta, seed: &GameDb) -> (fragment: GameDb)
    requires
        game_meta.wf(),
        seed.sound(game_meta@),
        is_subsequence(state@, game_meta.tiles@),
    ensures
        fragment_of(game_meta@, state@, seed@, fragment@),
{
    let mut fragment = GameDb { chances: seed.chances.clone() };
    depth_solve(state.clone(), game_meta, &mut fragment);
    fragment
}

/// Calls rayon's `par_iter` on `states`, `map` with `solve_fragment`, and
/// `collect` into a vector: each state is solved on a worker of the thread
/// pool. The contract claims what rayon documents of mapping and collecting
/// an indexed parallel iterator: the result has one table for each state, in
/// the order of the states, and each is what `solve_fragment` returns for its
/// state.
#[verifier::external_body]
fn solve_wave(states: &Vec<Vec<u16>>, game_meta: &GameMeta, seed: &GameDb) -> (fragments: Vec<
    GameDb,
>)
    requires
        game_meta.wf(),
        seed.sound(game_meta@),
        forall|i: int| 0 <= i < states@.len() ==> is_subsequence(states@[i]@, game_meta.tiles@),
    ensures
        fragments@.len() == states@.len(),
        forall|i: int|
            0 <= i < states@.len() ==> fragment_of(
                game_meta@,
                states@[i]@,
                seed@,
                #[trigger] fragments@[i]@,
            ),
{
    states.par_iter().map(|state| solve_fragment(state, game_meta, seed)).collect()
}

/// The chance to win from `tiles` under perfect play, in a table that holds
/// every state of `tiles` that has a tile, each with its chance, and with
/// each state the states that play can come to from there: so the state
/// with no tile, where a removal leaves it. The table holds nothing but
/// states of `tiles`. The states are solved size by size, those of one size
/// side by side.
pub fn par_solve(tiles: Vec<u16>, game_meta: &GameMeta) -> (result: GameDb)
    requires
        game_meta.wf(),
        is_subsequence(tiles@, game_meta.tiles@),
    ensures
        result.sound(game_meta@),
        result@.contains_key(db_key(game_meta.tiles@, tiles@)),
        result@[db_key(game_meta.tiles@, tiles@)] == win_count(game_meta@, tiles@),
        forall|state: Seq<u16>|
            is_subsequence(state, tiles@) && state.len() > 0 ==> result@.contains_key(
                #[trigger] db_key(game_meta.tiles@, state),
            ),
        closed(result@, game_meta@),
        forall|k: u128| #[trigger] result@.contains_key(k) ==> is_state_key(game_meta.tiles@, tiles@, k),
{
    let ghost g = game_meta@;
    let ghost nothing = Map::<u128, u128>::empty();
    let mut result = GameDb::new();
    proof {
        lemma_subsequence_len(tiles@, g.tiles);
    }
    let t_combos = get_tile_combos(&tiles);
    let mut w: usize = 0;
    while w < t_combos.len()
        invariant
            w <= t_combos.len(),
            game_meta.wf(),
            g == game_meta@,
            nothing == Map::<u128, u128>::empty(),
            result.sound(g),
            closed(result@, g),
            grown_within(nothing, result@, g.tiles, tiles@),
            is_subsequence(tiles@, g.tiles),
            forall|i: int, t: Seq<u16>|
                0 <= i < t_combos@.len() ==> (#[trigger] rows(t_combos@[i]).contains(t) <==> t.len()
                    == i + 1 && is_subsequence(t, tiles@)),
            forall|state: Seq<u16>|
                is_subsequence(state, tiles@) && 0 < state.len() <= w ==> result@.contains_key(
                    #[trigger] db_key(g.tiles, state),
                ),
        decreases t_combos.len() - w,
    {
        let wave = &t_combos[w];
        proof {
            assert forall|i: int| 0 <= i < wave@.len() implies is_subsequence(wave@[i]@, tiles@)
                && is_subsequence(wave@[i]@, g.tiles) by {
                assert(rows(*wave)[i] == wave@[i]@);
                assert(rows(*wave).contains(wave@[i]@));
                lemma_subsequence_transitive(wave@[i]@, tiles@, g.tiles);
            }
        }
        let ghost seed = result@;
        let fragments = solve_wave(wave, game_meta, &result);
        let mut f: usize = 0;
        while f < fragments.len()
            invariant
                f <= fragments.len(),
                fragments@.len() == wave@.len(),
                nothing == Map::<u128, u128>::empty(),
                result.sound(g),
                closed(result@, g),
                closed(seed, g),
                grown_within(nothing, seed, g.tiles, tiles@),
                grown_within(nothing, result@, g.tiles, tiles@),
                forall|i: int| 0 <= i < wave@.len() ==> is_subsequence(wave@[i]@, tiles@),
                forall|i: int|
                    0 <= i < fragments@.len() ==> fragment_of(
                        g,
                        wave@[i]@,
                        seed,
                        (#[trigger] fragments@[i])@,
                    ),
                forall|k: u128| #[trigger] seed.contains_key(k) ==> result@.contains_key(k),
                forall|i: int|
                    0 <= i < f ==> result@.contains_key(db_key(g.tiles, (#[trigger] wave@[i])@)),
            decreases fragments.len() - f,
        {
            let ghost before = result@;
            let ghost fragment = fragments@[f as int]@;
            assert(fragment_of(g, wave@[f as int]@, seed, fragment));
            result.merge(&fragments[f]);
            proof {
                lemma_merge_sound(before, fragment, result@, g);
                lemma_merge_closed(before, fragment, result@, g);
                lemma_grown_chain(nothing, seed, fragment, g.tiles, wave@[f as int]@, tiles@);
                assert forall|i: int| 0 <= i < f + 1 implies result@.contains_key(
                    db_key(g.tiles, (#[trigger] wave@[i])@),
                ) by {
                    if i < f {
                        assert(before.contains_key(db_key(g.tiles, wave@[i]@)));
                    }
                }
                assert forall|k: u128| #[trigger] result@.contains_key(k) implies is_state_key(
                    g.tiles,
                    tiles@,
                    k,
                ) by {
                    assert(before.contains_key(k) || fragment.contains_key(k));
                }
            }
            f += 1;
        }
        proof {
            assert forall|state: Seq<u16>|
                is_subsequence(state, tiles@) && 0 < state.len() <= w + 1 implies result@.contains_key(
                #[trigger] db_key(g.tiles, state),
            ) by {
                if state.len() <= w {
                    assert(seed.contains_key(db_key(g.tiles, state)));
                } else {
                    assert(rows(*wave).contains(state));
                    let i = choose|i: int| 0 <= i < rows(*wave).len() && rows(*wave)[i] == state;
                    assert(wave@[i]@ == state);
                }
            }
        }
        w += 1;
    }
    let ghost waves_db = result@;
    let ghost whole = tiles@;
    depth_solve(tiles, game_meta, &mut result);
    proof {
        lemma_subsequence_reflexive(whole);
        lemma_grown_chain(nothing, waves_db, result@, g.tiles, whole, whole);
        assert forall|state: Seq<u16>|
            is_subsequence(state, whole) && state.len() > 0 implies result@.contains_key(
            #[trigger] db_key(g.tiles, state),
        ) by {
            lemma_subsequence_len(state, whole);
            if state.len() == whole.len() {
                lemma_subsequence_same_len(state, whole);
            } else {
                assert(waves_db.contains_key(db_key(g.tiles, state)));
            }
        }
    }
    result
}

} // verus!
