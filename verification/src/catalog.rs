//! The catalog of removals: for each sum, every choice of starting tiles
//! that adds up to it.
//!
//! A removal is a rising list of positions in the starting tiles. It stops
//! with the tile that completes the sum, so its last tile is worth more than
//! nothing. For the sum zero there is one removal, which takes no tile.

use crate::dice::has_roll;
use crate::dice::rolls_rise;
use crate::dice::RollProbs;
use crate::game::rows;
use std::collections::HashMap;
use vstd::prelude::*;

verus! {

broadcast use vstd::std_specs::hash::group_hash_axioms;

/// The values of the tiles at the positions `combo`, added up.
pub open spec fn combo_sum(tiles: Seq<u16>, combo: Seq<usize>) -> int
    decreases combo.len(),
{
    if combo.len() == 0 {
        0
    } else {
        tiles[combo[0] as int] + combo_sum(tiles, combo.drop_first())
    }
}

/// The positions of `combo` rise, so no tile is taken twice.
pub open spec fn positions_rise(combo: Seq<usize>) -> bool {
    forall|i: int, j: int| 0 <= i < j < combo.len() ==> combo[i] < combo[j]
}

/// `combo` is a removal for the sum `targ` among the tiles from position
/// `start` on, of at most `removal_max` tiles where that is not zero.
pub open spec fn is_removal(
    tiles: Seq<u16>,
    combo: Seq<usize>,
    start: int,
    targ: int,
    removal_max: int,
) -> bool {
    &&& positions_rise(combo)
    &&& forall|i: int| 0 <= i < combo.len() ==> start <= #[trigger] combo[i] < tiles.len()
    &&& combo_sum(tiles, combo) == targ
    &&& removal_max > 0 ==> combo.len() <= removal_max
    &&& combo.len() > 0 ==> tiles[combo.last() as int] > 0
}

/// `combos` lists each removal for `targ` once, and nothing else.
pub open spec fn lists_removals(
    combos: Seq<Seq<usize>>,
    tiles: Seq<u16>,
    start: int,
    targ: int,
    removal_max: int,
) -> bool {
    &&& forall|combo: Seq<usize>| #[trigger]
        combos.contains(combo) <==> is_removal(tiles, combo, start, targ, removal_max)
    &&& combos.no_duplicates()
}

/// The number of tiles that a removal may still take once it has taken one.
pub open spec fn budget_left(removal_max: int) -> int {
    if removal_max > 1 {
        removal_max - 1
    } else {
        0
    }
}

/// The position `p` put before each list of `combos`.
pub open spec fn each_after(p: usize, combos: Seq<Seq<usize>>) -> Seq<Seq<usize>> {
    Seq::new(combos.len(), |i: int| seq![p] + combos[i])
}

/// The removals for the sum `targ` among the tiles from position `start`
/// on, in the order in which they are listed: those that begin with an
/// earlier tile stand first, and those that begin with the same tile stand
/// in the order of what follows it.
pub open spec fn removals_from(tiles: Seq<u16>, start: int, targ: int, removal_max: int) -> Seq<
    Seq<usize>,
>
    decreases tiles.len() - start,
{
    if targ == 0 {
        seq![Seq::empty()]
    } else if start < 0 || start >= tiles.len() {
        Seq::empty()
    } else {
        let later = removals_from(tiles, start + 1, targ, removal_max);
        if removal_max == 1 {
            if tiles[start] == targ {
                seq![seq![start as usize]] + later
            } else {
                later
            }
        } else if tiles[start] <= targ {
            each_after(
                start as usize,
                removals_from(tiles, start + 1, targ - tiles[start], budget_left(removal_max)),
            ) + later
        } else {
            later
        }
    }
}

/// A sum of tile values is not negative, and no smaller than its last value.
pub proof fn lemma_combo_sum_bounds(tiles: Seq<u16>, combo: Seq<usize>)
    ensures
        combo_sum(tiles, combo) >= 0,
        combo.len() > 0 ==> combo_sum(tiles, combo) >= tiles[combo.last() as int],
    decreases combo.len(),
{
    if combo.len() > 0 {
        lemma_combo_sum_bounds(tiles, combo.drop_first());
        if combo.len() > 1 {
            assert(combo.drop_first().last() == combo.last());
        }
    }
}

/// A removal that starts with the tile at `p` is that tile and a removal
/// for the rest of the sum among the tiles after it.
pub proof fn lemma_removal_split(
    tiles: Seq<u16>,
    combo: Seq<usize>,
    start: int,
    targ: int,
    removal_max: int,
)
    requires
        combo.len() > 0,
        removal_max != 1,
    ensures
        is_removal(tiles, combo, start, targ, removal_max) <==> {
            &&& start <= combo[0] < tiles.len()
            &&& is_removal(
                tiles,
                combo.drop_first(),
                combo[0] + 1,
                targ - tiles[combo[0] as int],
                budget_left(removal_max),
            )
            &&& (combo.len() == 1 ==> tiles[combo[0] as int] > 0)
        },
{
    let rest = combo.drop_first();
    let p = combo[0];
    if is_removal(tiles, combo, start, targ, removal_max) {
        assert forall|i: int, j: int| 0 <= i < j < rest.len() implies rest[i] < rest[j] by {
            assert(combo[i + 1] < combo[j + 1]);
        }
        assert forall|i: int| 0 <= i < rest.len() implies p + 1 <= #[trigger] rest[i]
            < tiles.len() by {
            assert(combo[0] < combo[i + 1]);
        }
        if rest.len() > 0 {
            assert(rest.last() == combo.last());
        }
    }
    if start <= p < tiles.len() && is_removal(
        tiles,
        rest,
        p + 1,
        targ - tiles[p as int],
        budget_left(removal_max),
    ) && (combo.len() == 1 ==> tiles[p as int] > 0) {
        assert forall|i: int, j: int| 0 <= i < j < combo.len() implies combo[i] < combo[j] by {
            if i == 0 {
                assert(rest[j - 1] == combo[j]);
            } else {
                assert(rest[i - 1] < rest[j - 1]);
            }
        }
        assert forall|i: int| 0 <= i < combo.len() implies start <= #[trigger] combo[i]
            < tiles.len() by {
            if i > 0 {
                assert(rest[i - 1] == combo[i]);
            }
        }
        if rest.len() > 0 {
            assert(rest.last() == combo.last());
        }
    }
}

/// Lists every removal for the sum `targ` among the tiles from position
/// `start` on, of at most `removal_max` tiles where that is not zero.
pub fn r_tile_removal(tiles: &Vec<u16>, start: usize, targ: u16, removal_max: u16) -> (removals:
    Vec<Vec<usize>>)
    requires
        start <= tiles@.len(),
    ensures
        rows(removals) == removals_from(tiles@, start as int, targ as int, removal_max as int),
        lists_removals(rows(removals), tiles@, start as int, targ as int, removal_max as int),
    decreases tiles@.len() - start,
{
    let ghost whole = removals_from(tiles@, start as int, targ as int, removal_max as int);
    let mut removals: Vec<Vec<usize>> = Vec::new();
    if targ == 0 {
        removals.push(Vec::new());
        proof {
            let empty = Seq::<usize>::empty();
            assert(rows(removals) =~= seq![empty]);
            assert(rows(removals)[0] == empty);
            assert forall|combo: Seq<usize>| #[trigger]
                rows(removals).contains(combo) <==> is_removal(
                    tiles@,
                    combo,
                    start as int,
                    0,
                    removal_max as int,
                ) by {
                lemma_combo_sum_bounds(tiles@, combo);
                if is_removal(tiles@, combo, start as int, 0, removal_max as int) {
                    assert(combo =~= empty);
                }
                if rows(removals).contains(combo) {
                    assert(combo == empty);
                }
            }
        }
        return removals;
    }
    let mut p: usize = start;
    assert(rows(removals) =~= Seq::<Seq<usize>>::empty());
    assert(rows(removals) + whole =~= whole);
    while p < tiles.len()
        invariant
            start <= p <= tiles@.len(),
            targ > 0,
            whole == rows(removals) + removals_from(
                tiles@,
                p as int,
                targ as int,
                removal_max as int,
            ),
            forall|combo: Seq<usize>| #[trigger]
                rows(removals).contains(combo) <==> is_removal(
                    tiles@,
                    combo,
                    start as int,
                    targ as int,
                    removal_max as int,
                ) && combo.len() > 0 && combo[0] < p,
            rows(removals).no_duplicates(),
        decreases tiles.len() - p,
    {
        let tile = tiles[p];
        let ghost before = rows(removals);
        let ghost later = removals_from(tiles@, p + 1, targ as int, removal_max as int);
        if removal_max == 1 {
            if tile == targ {
                let mut removal: Vec<usize> = Vec::new();
                removal.push(p);
                removals.push(removal);
                proof {
                    let single = seq![p];
                    assert(removal@ =~= single);
                    assert(rows(removals) =~= before.push(single));
                    reveal_with_fuel(combo_sum, 2);
                    assert(single.drop_first() =~= Seq::<usize>::empty());
                    assert(is_removal(tiles@, single, start as int, targ as int, 1));
                    assert(!before.contains(single));
                    assert(rows(removals) + later =~= before + (seq![single] + later));
                }
            }
            proof {
                let after = rows(removals);
                assert forall|combo: Seq<usize>| #[trigger]
                    after.contains(combo) <==> is_removal(
                        tiles@,
                        combo,
                        start as int,
                        targ as int,
                        1,
                    ) && combo.len() > 0 && combo[0] < p + 1 by {
                    if after.contains(combo) {
                        if !before.contains(combo) {
                            let k = choose|k: int| 0 <= k < after.len() && after[k] == combo;
                            assert(k == before.len());
                        }
                    }
                    if is_removal(tiles@, combo, start as int, targ as int, 1) && combo.len() > 0
                        && combo[0] < p + 1 {
                        if combo[0] < p {
                            assert(before.contains(combo));
                            let k = choose|k: int| 0 <= k < before.len() && before[k] == combo;
                            assert(after[k] == combo);
                        } else {
                            reveal_with_fuel(combo_sum, 2);
                            lemma_combo_sum_bounds(tiles@, combo);
                            assert(combo.drop_first() =~= Seq::<usize>::empty());
                            assert(combo =~= seq![p]);
                            assert(after[after.len() - 1] == combo);
                        }
                    }
                }
            }
        } else if tile <= targ {
            let new_removal_max = if removal_max > 1 {
                removal_max - 1
            } else {
                0
            };
            let new_removals = r_tile_removal(tiles, p + 1, targ - tile, new_removal_max);
            let ghost subs = rows(new_removals);
            let mut k: usize = 0;
            while k < new_removals.len()
                invariant
                    k <= new_removals.len(),
                    subs == rows(new_removals),
                    rows(removals).len() == before.len() + k,
                    forall|j: int| 0 <= j < before.len() ==> rows(removals)[j] == before[j],
                    forall|j: int|
                        0 <= j < k ==> #[trigger] rows(removals)[before.len() + j] == seq![p]
                            + subs[j],
                decreases new_removals.len() - k,
            {
                let mut removal = new_removals[k].clone();
                assert(removal@ == subs[k as int]);
                removal.insert(0, p);
                assert(removal@ =~= seq![p] + subs[k as int]);
                let ghost prior = rows(removals);
                removals.push(removal);
                assert(rows(removals) =~= prior.push(removal@));
                k += 1;
            }
            proof {
                let after = rows(removals);
                let rm = removal_max as int;
                assert forall|i: int| 0 <= i < after.len() implies after[i] == (before
                    + each_after(p, subs))[i] by {
                    if i >= before.len() {
                        let j = i - before.len();
                        assert(after[before.len() + j] == seq![p] + subs[j]);
                    }
                }
                assert(after =~= before + each_after(p, subs));
                assert(after + later =~= before + (each_after(p, subs) + later));
                assert forall|j: int| 0 <= j < subs.len() implies is_removal(
                    tiles@,
                    #[trigger] after[before.len() + j],
                    start as int,
                    targ as int,
                    rm,
                ) && after[before.len() + j][0] == p by {
                    let combo = seq![p] + subs[j];
                    assert(combo.drop_first() =~= subs[j]);
                    assert(subs.contains(subs[j]));
                    lemma_combo_sum_bounds(tiles@, subs[j]);
                    lemma_removal_split(tiles@, combo, start as int, targ as int, rm);
                }
                assert forall|combo: Seq<usize>| #[trigger]
                    after.contains(combo) <==> is_removal(
                        tiles@,
                        combo,
                        start as int,
                        targ as int,
                        rm,
                    ) && combo.len() > 0 && combo[0] < p + 1 by {
                    if after.contains(combo) {
                        let i = choose|i: int| 0 <= i < after.len() && after[i] == combo;
                        if i < before.len() {
                            assert(before[i] == combo);
                            assert(before.contains(combo));
                        } else {
                            assert(after[before.len() + (i - before.len())] == combo);
                        }
                    }
                    if is_removal(tiles@, combo, start as int, targ as int, rm) && combo.len() > 0
                        && combo[0] < p + 1 {
                        if combo[0] < p {
                            assert(before.contains(combo));
                            let i = choose|i: int| 0 <= i < before.len() && before[i] == combo;
                            assert(after[i] == combo);
                        } else {
                            lemma_removal_split(tiles@, combo, start as int, targ as int, rm);
                            let rest = combo.drop_first();
                            assert(subs.contains(rest));
                            let j = choose|j: int| 0 <= j < subs.len() && subs[j] == rest;
                            assert(seq![p] + rest =~= combo);
                            assert(after[before.len() + j] == combo);
                        }
                    }
                }
                assert forall|i: int, j: int|
                    0 <= i < after.len() && 0 <= j < after.len() && i != j implies after[i]
                    != after[j] by {
                    if i < before.len() && j < before.len() {
                        assert(before[i] == after[i] && before[j] == after[j]);
                        assert(before[i] != before[j]);
                    } else if i >= before.len() && j >= before.len() {
                        let a = i - before.len();
                        let b = j - before.len();
                        assert(subs[a] != subs[b]);
                        assert(after[before.len() + a] == seq![p] + subs[a]);
                        assert(after[before.len() + b] == seq![p] + subs[b]);
                        assert((seq![p] + subs[a]).drop_first() =~= subs[a]);
                        assert((seq![p] + subs[b]).drop_first() =~= subs[b]);
                    } else if i < before.len() {
                        assert(before[i] == after[i]);
                        assert(before.contains(after[i]));
                        assert(after[i][0] < p);
                        assert(after[before.len() + (j - before.len())][0] == p);
                    } else {
                        assert(before[j] == after[j]);
                        assert(before.contains(after[j]));
                        assert(after[j][0] < p);
                        assert(after[before.len() + (i - before.len())][0] == p);
                    }
                }
            }
        } else {
            proof {
                let rm = removal_max as int;
                assert forall|combo: Seq<usize>| #[trigger]
                    before.contains(combo) <==> is_removal(
                        tiles@,
                        combo,
                        start as int,
                        targ as int,
                        rm,
                    ) && combo.len() > 0 && combo[0] < p + 1 by {
                    if is_removal(tiles@, combo, start as int, targ as int, rm) && combo.len() > 0
                        && combo[0] == p {
                        lemma_combo_sum_bounds(tiles@, combo.drop_first());
                    }
                }
            }
        }
        p += 1;
    }
    proof {
        assert(rows(removals) + Seq::<Seq<usize>>::empty() =~= rows(removals));
        assert forall|combo: Seq<usize>| #[trigger]
            rows(removals).contains(combo) <==> is_removal(
                tiles@,
                combo,
                start as int,
                targ as int,
                removal_max as int,
            ) by {
            if is_removal(tiles@, combo, start as int, targ as int, removal_max as int) {
                assert(combo.len() > 0);
                assert(combo[0] < tiles@.len());
            }
        }
    }
    removals
}

/// The catalog: for each of `possible_rolls`, every removal that adds up to
/// it.
pub fn get_tile_removal_possibilities(
    tiles: &Vec<u16>,
    possible_rolls: &Vec<u16>,
    removal_max: u16,
) -> (trp: HashMap<u16, Vec<Vec<usize>>>)
    ensures
        forall|roll: u16| #[trigger] trp@.contains_key(roll) <==> possible_rolls@.contains(roll),
        forall|roll: u16| #[trigger]
            trp@.contains_key(roll) ==> rows(trp@[roll]) == removals_from(
                tiles@,
                0,
                roll as int,
                removal_max as int,
            ) && lists_removals(rows(trp@[roll]), tiles@, 0, roll as int, removal_max as int),
{
    let mut trp: HashMap<u16, Vec<Vec<usize>>> = HashMap::new();
    let mut i: usize = 0;
    while i < possible_rolls.len()
        invariant
            i <= possible_rolls.len(),
            forall|roll: u16| #[trigger]
                trp@.contains_key(roll) <==> possible_rolls@.take(i as int).contains(roll),
            forall|roll: u16| #[trigger]
                trp@.contains_key(roll) ==> rows(trp@[roll]) == removals_from(
                    tiles@,
                    0,
                    roll as int,
                    removal_max as int,
                ) && lists_removals(rows(trp@[roll]), tiles@, 0, roll as int, removal_max as int),
        decreases possible_rolls.len() - i,
    {
        let roll = possible_rolls[i];
        let removals = r_tile_removal(tiles, 0, roll, removal_max);
        let ghost seen = possible_rolls@.take(i as int);
        trp.insert(roll, removals);
        proof {
            let now = possible_rolls@.take(i + 1);
            assert(now =~= seen.push(roll));
            assert forall|v: u16| now.contains(v) <==> seen.contains(v) || v == roll by {
                if seen.contains(v) {
                    let k = choose|k: int| 0 <= k < seen.len() && seen[k] == v;
                    assert(now[k] == v);
                }
                if v == roll {
                    assert(now[i as int] == v);
                }
                if now.contains(v) {
                    let k = choose|k: int| 0 <= k < now.len() && now[k] == v;
                    if k < i {
                        assert(seen[k] == v);
                    }
                }
            }
        }
        i += 1;
    }
    assert(possible_rolls@.take(i as int) =~= possible_rolls@);
    trp
}

/// The sums of two roll tables in rising order, each once.
pub fn get_srt_dedup_keys(hm1: &RollProbs, hm2: &RollProbs) -> (keys: Vec<u16>)
    requires
        rolls_rise(hm1@),
        rolls_rise(hm2@),
    ensures
        forall|i: int, j: int| 0 <= i < j < keys@.len() ==> keys@[i] < keys@[j],
        forall|roll: u16|
            keys@.contains(roll) <==> has_roll(hm1@, roll) || has_roll(hm2@, roll),
{
    let a = &hm1.rolls;
    let b = &hm2.rolls;
    let ghost la = hm1@;
    let ghost lb = hm2@;
    let mut keys: Vec<u16> = Vec::new();
    let mut i: usize = 0;
    let mut j: usize = 0;
    while i < a.len() || j < b.len()
        invariant
            i <= a.len(),
            j <= b.len(),
            la.len() == a@.len(),
            lb.len() == b@.len(),
            forall|k: int| 0 <= k < la.len() ==> (#[trigger] la[k]).roll == a@[k],
            forall|k: int| 0 <= k < lb.len() ==> (#[trigger] lb[k]).roll == b@[k],
            rolls_rise(la),
            rolls_rise(lb),
            forall|x: int, y: int| 0 <= x < y < keys@.len() ==> keys@[x] < keys@[y],
            forall|x: int| 0 <= x < keys@.len() && i < a.len() ==> keys@[x] < la[i as int].roll,
            forall|x: int| 0 <= x < keys@.len() && j < b.len() ==> keys@[x] < lb[j as int].roll,
            forall|roll: u16|
                keys@.contains(roll) <==> has_roll(la.take(i as int), roll) || has_roll(
                    lb.take(j as int),
                    roll,
                ),
        decreases (a.len() - i) + (b.len() - j),
    {
        let ghost before = keys@;
        let ghost ai = la.take(i as int);
        let ghost bj = lb.take(j as int);
        let take_a = i < a.len() && (j >= b.len() || a[i] <= b[j]);
        let take_b = j < b.len() && (i >= a.len() || b[j] <= a[i]);
        let next = if take_a {
            assert(la[i as int].roll == a@[i as int]);
            a[i]
        } else {
            assert(lb[j as int].roll == b@[j as int]);
            b[j]
        };
        keys.push(next);
        if take_a {
            i += 1;
        }
        if take_b {
            j += 1;
        }
        proof {
            let an = la.take(i as int);
            let bn = lb.take(j as int);
            assert forall|roll: u16|
                keys@.contains(roll) <==> has_roll(an, roll) || has_roll(bn, roll) by {
                if keys@.contains(roll) {
                    let k = choose|k: int| 0 <= k < keys@.len() && keys@[k] == roll;
                    if k < before.len() {
                        assert(before.contains(roll));
                        if has_roll(ai, roll) {
                            let x = choose|x: int| 0 <= x < ai.len() && (#[trigger] ai[x]).roll == roll;
                            assert(an[x].roll == roll);
                        } else {
                            let x = choose|x: int| 0 <= x < bj.len() && (#[trigger] bj[x]).roll == roll;
                            assert(bn[x].roll == roll);
                        }
                    } else {
                        if take_a {
                            assert(an[i - 1].roll == roll);
                        } else {
                            assert(bn[j - 1].roll == roll);
                        }
                    }
                }
                if has_roll(an, roll) {
                    let x = choose|x: int| 0 <= x < an.len() && (#[trigger] an[x]).roll == roll;
                    if x < ai.len() {
                        assert(ai[x].roll == roll);
                        assert(before.contains(roll));
                        let k = choose|k: int| 0 <= k < before.len() && before[k] == roll;
                        assert(keys@[k] == roll);
                    } else {
                        assert(keys@[keys@.len() - 1] == roll);
                    }
                }
                if has_roll(bn, roll) {
                    let x = choose|x: int| 0 <= x < bn.len() && (#[trigger] bn[x]).roll == roll;
                    if x < bj.len() {
                        assert(bj[x].roll == roll);
                        assert(before.contains(roll));
                        let k = choose|k: int| 0 <= k < before.len() && before[k] == roll;
                        assert(keys@[k] == roll);
                    } else {
                        assert(keys@[keys@.len() - 1] == roll);
                    }
                }
            }
        }
    }
    proof {
        assert(la.take(i as int) =~= la);
        assert(lb.take(j as int) =~= lb);
    }
    keys
}

} // verus!
