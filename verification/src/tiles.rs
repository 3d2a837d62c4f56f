//! Tile states: the tiles still standing, in the order of the starting row.
//!
//! A state is a sequence of tile values. Every state of a game is a
//! subsequence of the starting tiles: taking tiles away never reorders the
//! survivors and never invents a value.

use vstd::prelude::*;

verus! {

/// `s` is a subsequence of `t`: `s` is what is left of `t` after some of its
/// elements are taken away, the others keeping their order.
pub open spec fn is_subsequence(s: Seq<u16>, t: Seq<u16>) -> bool
    decreases t.len(),
{
    if s.len() == 0 {
        true
    } else if t.len() == 0 {
        false
    } else {
        (s.last() == t.last() && is_subsequence(s.drop_last(), t.drop_last())) || is_subsequence(
            s,
            t.drop_last(),
        )
    }
}

/// The largest value in `vals`, zero for an empty sequence.
pub open spec fn max_value(vals: Seq<u16>) -> u16
    decreases vals.len(),
{
    if vals.len() == 0 {
        0
    } else if vals.last() >= max_value(vals.drop_last()) {
        vals.last()
    } else {
        max_value(vals.drop_last())
    }
}

/// A single die may be rolled in `tiles` when some tile still stands and no
/// standing tile is larger than the largest face.
pub open spec fn single_legality(tiles: Seq<u16>, max_die: u16) -> bool {
    tiles.len() > 0 && max_value(tiles) <= max_die
}

/// The state after the tiles valued `trp` are taken from `tiles`, each value
/// taking the first tile that shows it; `None` when some value finds no tile.
pub open spec fn removed_tiles(tiles: Seq<u16>, trp: Seq<u16>) -> Option<Seq<u16>>
    decreases trp.len(),
{
    if trp.len() == 0 {
        Some(tiles)
    } else if !tiles.contains(trp[0]) {
        None
    } else {
        removed_tiles(tiles.remove_value(trp[0]), trp.drop_first())
    }
}

/// The row of tiles `tile_min, tile_min + 1, .., tile_max`, empty when
/// `tile_min > tile_max`.
pub open spec fn value_range(lo: u16, hi: u16) -> Seq<u16> {
    if lo <= hi {
        Seq::new((hi - lo + 1) as nat, |i: int| (lo + i) as u16)
    } else {
        Seq::empty()
    }
}

/// Every sequence is a subsequence of itself.
pub proof fn lemma_subsequence_reflexive(s: Seq<u16>)
    ensures
        is_subsequence(s, s),
    decreases s.len(),
{
    if s.len() > 0 {
        lemma_subsequence_reflexive(s.drop_last());
    }
}

/// Taking one element away leaves a subsequence.
pub proof fn lemma_remove_is_subsequence(s: Seq<u16>, i: int)
    requires
        0 <= i < s.len(),
    ensures
        is_subsequence(s.remove(i), s),
    decreases s.len(),
{
    if i == s.len() - 1 {
        assert(s.remove(i) =~= s.drop_last());
        lemma_subsequence_reflexive(s.drop_last());
    } else {
        lemma_remove_is_subsequence(s.drop_last(), i);
        assert(s.remove(i).drop_last() =~= s.drop_last().remove(i));
        assert(s.remove(i).last() == s.last());
    }
}

/// A subsequence is no longer than the sequence it comes from.
pub proof fn lemma_subsequence_len(s: Seq<u16>, t: Seq<u16>)
    requires
        is_subsequence(s, t),
    ensures
        s.len() <= t.len(),
    decreases t.len(),
{
    if s.len() > 0 {
        if s.last() == t.last() && is_subsequence(s.drop_last(), t.drop_last()) {
            lemma_subsequence_len(s.drop_last(), t.drop_last());
        } else {
            lemma_subsequence_len(s, t.drop_last());
        }
    }
}

/// A subsequence as long as the whole is the whole.
pub proof fn lemma_subsequence_same_len(s: Seq<u16>, t: Seq<u16>)
    requires
        is_subsequence(s, t),
        s.len() == t.len(),
    ensures
        s == t,
    decreases t.len(),
{
    if s.len() > 0 {
        if s.last() == t.last() && is_subsequence(s.drop_last(), t.drop_last()) {
            lemma_subsequence_same_len(s.drop_last(), t.drop_last());
            assert(s =~= s.drop_last().push(s.last()));
            assert(t =~= t.drop_last().push(t.last()));
        } else {
            lemma_subsequence_len(s, t.drop_last());
        }
    } else {
        assert(s =~= t);
    }
}

/// A subsequence of a subsequence is a subsequence.
pub proof fn lemma_subsequence_transitive(a: Seq<u16>, b: Seq<u16>, c: Seq<u16>)
    requires
        is_subsequence(a, b),
        is_subsequence(b, c),
    ensures
        is_subsequence(a, c),
    decreases c.len(),
{
    if a.len() > 0 {
        lemma_subsequence_len(a, b);
        if b.last() == c.last() && is_subsequence(b.drop_last(), c.drop_last()) {
            if a.last() == b.last() && is_subsequence(a.drop_last(), b.drop_last()) {
                lemma_subsequence_transitive(a.drop_last(), b.drop_last(), c.drop_last());
            } else {
                lemma_subsequence_transitive(a, b.drop_last(), c.drop_last());
            }
        } else {
            lemma_subsequence_transitive(a, b, c.drop_last());
        }
    }
}

/// A subsequence stays one when both sequences get the same tile in front.
pub proof fn lemma_subsequence_with_first(x: u16, a: Seq<u16>, b: Seq<u16>)
    requires
        is_subsequence(a, b),
    ensures
        is_subsequence(seq![x] + a, seq![x] + b),
    decreases b.len(),
{
    let s = seq![x] + a;
    let t = seq![x] + b;
    if b.len() == 0 {
        lemma_subsequence_len(a, b);
        assert(s =~= t);
        lemma_subsequence_reflexive(s);
    } else {
        assert(t.drop_last() =~= seq![x] + b.drop_last());
        assert(t.last() == b.last());
        if a.len() > 0 && a.last() == b.last() && is_subsequence(a.drop_last(), b.drop_last()) {
            lemma_subsequence_with_first(x, a.drop_last(), b.drop_last());
            assert(s.drop_last() =~= seq![x] + a.drop_last());
            assert(s.last() == a.last());
        } else {
            lemma_subsequence_with_first(x, a, b.drop_last());
        }
    }
}

/// A subsequence read from the front: its first tile is the first tile of
/// the whole and the rest is a subsequence of the rest, or all of it is a
/// subsequence of the rest.
pub proof fn lemma_subsequence_from_front(s: Seq<u16>, t: Seq<u16>)
    requires
        s.len() > 0,
        t.len() > 0,
    ensures
        is_subsequence(s, t) <==> (s[0] == t[0] && is_subsequence(s.drop_first(), t.drop_first()))
            || is_subsequence(s, t.drop_first()),
    decreases t.len(),
{
    let sf = s.drop_first();
    let tf = t.drop_first();
    if (s[0] == t[0] && is_subsequence(sf, tf)) {
        lemma_subsequence_with_first(t[0], sf, tf);
        assert(seq![t[0]] + sf =~= s);
        assert(seq![t[0]] + tf =~= t);
    }
    if is_subsequence(s, tf) {
        lemma_remove_is_subsequence(t, 0);
        assert(t.remove(0) =~= tf);
        lemma_subsequence_transitive(s, tf, t);
    }
    if is_subsequence(s, t) {
        let sl = s.drop_last();
        let tl = t.drop_last();
        if t.len() == 1 {
            assert(tl.len() == 0);
            assert(!is_subsequence(s, tl));
            assert(s.last() == t.last() && is_subsequence(sl, tl));
            lemma_subsequence_len(sl, tl);
            assert(sf =~= Seq::<u16>::empty());
        } else {
            assert(tf.drop_last() =~= tl.drop_first());
            assert(tf.last() == t.last());
            if s.last() == t.last() && is_subsequence(sl, tl) {
                if sl.len() == 0 {
                    assert(is_subsequence(s.drop_last(), tf.drop_last()));
                    assert(is_subsequence(s, tf));
                } else {
                    lemma_subsequence_from_front(sl, tl);
                    assert(sf.drop_last() =~= sl.drop_first());
                    assert(sf.last() == s.last());
                    if sl[0] == tl[0] && is_subsequence(sl.drop_first(), tl.drop_first()) {
                        assert(is_subsequence(sf, tf));
                    } else {
                        assert(is_subsequence(s, tf));
                    }
                }
            } else {
                lemma_subsequence_from_front(s, tl);
                if s[0] == tl[0] && is_subsequence(sf, tl.drop_first()) {
                    assert(is_subsequence(sf, tf));
                } else {
                    assert(is_subsequence(s, tf));
                }
            }
        }
    }
}

/// Every tile of a subsequence is a tile of the whole.
pub proof fn lemma_subsequence_tiles(s: Seq<u16>, t: Seq<u16>, i: int)
    requires
        is_subsequence(s, t),
        0 <= i < s.len(),
    ensures
        t.contains(s[i]),
    decreases t.len(),
{
    lemma_subsequence_len(s, t);
    if s.last() == t.last() && is_subsequence(s.drop_last(), t.drop_last()) {
        if i == s.len() - 1 {
            assert(t[t.len() - 1] == s[i]);
        } else {
            lemma_subsequence_tiles(s.drop_last(), t.drop_last(), i);
            let j = choose|j: int| 0 <= j < t.drop_last().len() && t.drop_last()[j] == s[i];
            assert(t[j] == s[i]);
        }
    } else {
        lemma_subsequence_tiles(s, t.drop_last(), i);
        let j = choose|j: int| 0 <= j < t.drop_last().len() && t.drop_last()[j] == s[i];
        assert(t[j] == s[i]);
    }
}

/// What a removal leaves is a subsequence of the state it was taken from,
/// shorter by one tile for each value taken.
pub proof fn lemma_removed_tiles_shrinks(tiles: Seq<u16>, trp: Seq<u16>)
    requires
        removed_tiles(tiles, trp) is Some,
    ensures
        is_subsequence(removed_tiles(tiles, trp)->0, tiles),
        removed_tiles(tiles, trp)->0.len() + trp.len() == tiles.len(),
    decreases trp.len(),
{
    if trp.len() == 0 {
        lemma_subsequence_reflexive(tiles);
    } else {
        tiles.index_of_first_ensures(trp[0]);
        let i = tiles.index_of_first(trp[0])->0;
        let rest = tiles.remove_value(trp[0]);
        assert(rest == tiles.remove(i));
        lemma_removed_tiles_shrinks(rest, trp.drop_first());
        lemma_remove_is_subsequence(tiles, i);
        lemma_subsequence_transitive(removed_tiles(tiles, trp)->0, rest, tiles);
    }
}

/// The largest value bounds every element, and is one of them.
pub proof fn lemma_max_value(vals: Seq<u16>)
    ensures
        forall|i: int| 0 <= i < vals.len() ==> vals[i] <= max_value(vals),
        vals.len() > 0 ==> vals.contains(max_value(vals)),
    decreases vals.len(),
{
    if vals.len() > 0 {
        let rest = vals.drop_last();
        lemma_max_value(rest);
        assert forall|i: int| 0 <= i < vals.len() implies vals[i] <= max_value(vals) by {
            if i < vals.len() - 1 {
                assert(vals[i] == rest[i]);
            }
        }
        if vals.last() >= max_value(rest) {
            assert(vals[vals.len() - 1] == max_value(vals));
        } else {
            let j = choose|j: int| 0 <= j < rest.len() && rest[j] == max_value(rest);
            assert(vals[j] == max_value(vals));
        }
    }
}

/// Returns the largest value in `vals`, which holds one at least.
pub fn get_max(vals: &Vec<u16>) -> (best: u16)
    requires
        vals@.len() > 0,
    ensures
        best == max_value(vals@),
        vals@.contains(best),
        forall|i: int| 0 <= i < vals@.len() ==> vals@[i] <= best,
{
    proof {
        lemma_max_value(vals@);
    }
    let mut best: u16 = 0;
    let mut i: usize = 0;
    while i < vals.len()
        invariant
            i <= vals.len(),
            best == max_value(vals@.take(i as int)),
        decreases vals.len() - i,
    {
        assert(vals@.take(i + 1).drop_last() =~= vals@.take(i as int));
        if vals[i] >= best {
            best = vals[i];
        }
        i += 1;
    }
    assert(vals@.take(i as int) =~= vals@);
    best
}

/// Tells whether a single die may be rolled in `tiles`.
pub fn get_single_legality(tiles: &Vec<u16>, max_die: u16) -> (legal: bool)
    ensures
        legal == single_legality(tiles@, max_die),
{
    tiles.len() > 0 && get_max(tiles) <= max_die
}

/// Takes the tiles valued `trp` from `tiles`. Each value takes the first
/// tile that shows it; the result is `None` when a value finds no tile.
pub fn get_removed_tiles(tiles: &Vec<u16>, trp: &Vec<u16>) -> (left: Option<Vec<u16>>)
    ensures
        left is Some <==> removed_tiles(tiles@, trp@) is Some,
        left matches Some(v) ==> v@ == removed_tiles(tiles@, trp@)->0,
{
    let mut new_tiles = tiles.clone();
    let mut i: usize = 0;
    assert(new_tiles@ =~= tiles@);
    assert(trp@.skip(0) =~= trp@);
    while i < trp.len()
        invariant
            i <= trp.len(),
            removed_tiles(tiles@, trp@) == removed_tiles(new_tiles@, trp@.skip(i as int)),
        decreases trp.len() - i,
    {
        let tile = trp[i];
        let ghost rest = trp@.skip(i as int);
        assert(rest[0] == tile);
        assert(rest.drop_first() =~= trp@.skip(i + 1));
        let mut j: usize = 0;
        while j < new_tiles.len() && new_tiles[j] != tile
            invariant
                j <= new_tiles.len(),
                forall|k: int| 0 <= k < j ==> new_tiles@[k] != tile,
            decreases new_tiles.len() - j,
        {
            j += 1;
        }
        proof {
            new_tiles@.index_of_first_ensures(tile);
        }
        if j == new_tiles.len() {
            return None;
        }
        new_tiles.remove(j);
        i += 1;
    }
    assert(trp@.skip(i as int) =~= Seq::<u16>::empty());
    Some(new_tiles)
}

/// The starting tiles: `tile_input` where it holds any, else the row
/// `tile_min ..= tile_max`.
pub fn get_start_tiles(tile_min: u16, tile_max: u16, tile_input: Vec<u16>) -> (start_tiles: Vec<
    u16,
>)
    ensures
        tile_input.len() > 0 ==> start_tiles@ == tile_input@,
        tile_input.len() == 0 ==> start_tiles@ == value_range(tile_min, tile_max),
{
    if tile_input.len() > 0 {
        tile_input
    } else {
        fill_range(tile_min, tile_max)
    }
}

/// The values `lo ..= hi` in rising order.
pub fn fill_range(lo: u16, hi: u16) -> (vals: Vec<u16>)
    ensures
        vals@ == value_range(lo, hi),
{
    let mut vals: Vec<u16> = Vec::new();
    if lo > hi {
        return vals;
    }
    let mut next: u16 = lo;
    vals.push(next);
    while next < hi
        invariant
            lo <= next <= hi,
            vals@ == value_range(lo, next),
        decreases hi - next,
    {
        next += 1;
        vals.push(next);
    }
    vals
}

} // verus!
