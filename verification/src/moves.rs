//! Moves: from a state and a removal to the state that is left.

use crate::chance::combo_tiles;
use crate::chance::next_states;
use crate::game::rows;
use crate::tiles::get_removed_tiles;
use vstd::prelude::*;

verus! {

/// Reads the starting tiles at the positions that `combo` lists.
pub fn get_combo_tiles(start_tiles: &Vec<u16>, combo: &Vec<usize>) -> (vals: Vec<u16>)
    requires
        forall|j: int| 0 <= j < combo@.len() ==> combo@[j] < start_tiles@.len(),
    ensures
        vals@ == combo_tiles(start_tiles@, combo@),
{
    let mut vals: Vec<u16> = Vec::new();
    let mut j: usize = 0;
    while j < combo.len()
        invariant
            j <= combo.len(),
            forall|j: int| 0 <= j < combo@.len() ==> combo@[j] < start_tiles@.len(),
            vals@ == combo_tiles(start_tiles@, combo@.take(j as int)),
        decreases combo.len() - j,
    {
        vals.push(start_tiles[combo[j]]);
        j += 1;
        assert(vals@ =~= combo_tiles(start_tiles@, combo@.take(j as int)));
    }
    assert(combo@.take(j as int) =~= combo@);
    vals
}

/// The states that the removals `trps` leave of `tiles`, in the order of
/// `trps`. A removal that is not legal leaves none; one that takes no tile
/// leaves `tiles` as they are.
pub fn get_next_legal_states_roll(
    tiles: &Vec<u16>,
    start_tiles: &Vec<u16>,
    trps: &Vec<Vec<usize>>,
) -> (legal_states: Vec<Vec<u16>>)
    requires
        forall|i: int, j: int|
            0 <= i < trps@.len() && 0 <= j < trps@[i]@.len() ==> #[trigger] trps@[i]@[j]
                < start_tiles@.len(),
    ensures
        rows(legal_states) == next_states(start_tiles@, tiles@, rows(*trps)),
{
    let mut legal_states: Vec<Vec<u16>> = Vec::new();
    let mut i: usize = 0;
    assert(rows(*trps).take(0) =~= Seq::<Seq<usize>>::empty());
    assert(rows(legal_states) =~= Seq::<Seq<u16>>::empty());
    while i < trps.len()
        invariant
            i <= trps.len(),
            forall|i: int, j: int|
                0 <= i < trps@.len() && 0 <= j < trps@[i]@.len() ==> #[trigger] trps@[i]@[j]
                    < start_tiles@.len(),
            rows(legal_states) == next_states(start_tiles@, tiles@, rows(*trps).take(i as int)),
        decreases trps.len() - i,
    {
        let ghost upto = rows(*trps).take(i + 1);
        assert(upto.drop_last() =~= rows(*trps).take(i as int));
        assert(upto.last() == trps@[i as int]@);
        let ghost before = rows(legal_states);
        let vals = get_combo_tiles(start_tiles, &trps[i]);
        match get_removed_tiles(tiles, &vals) {
            Some(new_tiles) => {
                legal_states.push(new_tiles);
                assert(rows(legal_states) =~= before.push(new_tiles@));
            },
            None => {},
        }
        i += 1;
    }
    assert(rows(*trps).take(i as int) =~= rows(*trps));
    legal_states
}

} // verus!
