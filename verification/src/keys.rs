//! Integer keys for tile states.
//!
//! A state is matched against the starting tiles from the left, each of its
//! tiles taking the first starting tile that shows its value and lies after
//! the one taken before. The starting tiles taken, read as binary digits
//! (the first tile the highest digit), are the state's key. Two states of one
//! game that share a key are the same state.

use crate::tiles::is_subsequence;
use crate::tiles::lemma_subsequence_len;
use vstd::arithmetic::power2::lemma2_to64;
use vstd::arithmetic::power2::lemma_pow2_adds;
use vstd::arithmetic::power2::lemma_pow2_strictly_increases;
use vstd::arithmetic::power2::lemma_pow2_unfold;
use vstd::arithmetic::power2::pow2;
use vstd::prelude::*;

verus! {

/// The most tiles a game may start with: one binary digit of a key each.
pub const MAX_TILES: usize = 128;

/// The number of tiles of `state` that find their tile among the first `i`
/// starting tiles.
pub open spec fn matched(tiles: Seq<u16>, state: Seq<u16>, i: nat) -> nat
    decreases i,
{
    if i == 0 || i > tiles.len() {
        0
    } else {
        let j = matched(tiles, state, (i - 1) as nat);
        if j < state.len() && tiles[i - 1] == state[j as int] {
            j + 1
        } else {
            j
        }
    }
}

/// The key digits of the first `i` starting tiles.
pub open spec fn key_upto(tiles: Seq<u16>, state: Seq<u16>, i: nat) -> nat
    decreases i,
{
    if i == 0 || i > tiles.len() {
        0
    } else {
        let j = matched(tiles, state, (i - 1) as nat);
        let digit: nat = if j < state.len() && tiles[i - 1] == state[j as int] {
            1
        } else {
            0
        };
        2 * key_upto(tiles, state, (i - 1) as nat) + digit
    }
}

/// The key of `state` in a game that starts with `tiles`.
pub open spec fn state_key(tiles: Seq<u16>, state: Seq<u16>) -> nat {
    key_upto(tiles, state, tiles.len())
}

/// The starting tiles among the first `i` whose digit in `key` is one.
pub open spec fn key_tiles(tiles: Seq<u16>, key: nat, i: nat) -> Seq<u16>
    decreases i,
{
    if i == 0 || i > tiles.len() {
        Seq::empty()
    } else if key % 2 == 1 {
        key_tiles(tiles, key / 2, (i - 1) as nat).push(tiles[i - 1])
    } else {
        key_tiles(tiles, key / 2, (i - 1) as nat)
    }
}

/// Matching never takes more tiles than it has seen, nor more than the state
/// holds, and never gives a tile back.
pub proof fn lemma_matched_bounds(tiles: Seq<u16>, state: Seq<u16>, i: nat)
    requires
        i <= tiles.len(),
    ensures
        matched(tiles, state, i) <= i,
        matched(tiles, state, i) <= state.len(),
        i > 0 ==> matched(tiles, state, (i - 1) as nat) <= matched(tiles, state, i),
    decreases i,
{
    if i > 0 {
        lemma_matched_bounds(tiles, state, (i - 1) as nat);
    }
}

/// The key of the first `i` starting tiles has `i` binary digits.
pub proof fn lemma_key_bound(tiles: Seq<u16>, state: Seq<u16>, i: nat)
    requires
        i <= tiles.len(),
    ensures
        key_upto(tiles, state, i) < pow2(i),
    decreases i,
{
    if i == 0 {
        lemma2_to64();
    } else {
        lemma_key_bound(tiles, state, (i - 1) as nat);
        lemma_pow2_unfold(i);
    }
}

/// A key that fits the starting tiles fits 128 binary digits.
pub proof fn lemma_key_fits(tiles: Seq<u16>, state: Seq<u16>, i: nat)
    requires
        i <= tiles.len(),
        i <= MAX_TILES,
    ensures
        key_upto(tiles, state, i) <= u128::MAX,
{
    lemma_key_bound(tiles, state, i);
    lemma2_to64();
    lemma_pow2_adds(64, 64);
    assert(pow2(128) == 0x1_0000_0000_0000_0000_0000_0000_0000_0000) by {
        assert(pow2(64) == 0x1_0000_0000_0000_0000);
        assert(0x1_0000_0000_0000_0000int * 0x1_0000_0000_0000_0000int
            == 0x1_0000_0000_0000_0000_0000_0000_0000_0000int) by (nonlinear_arith);
    }
    if i < 128 {
        lemma_pow2_strictly_increases(i, 128);
    }
}

/// If the first `j` tiles of the state are a subsequence of the first `i`
/// starting tiles, matching finds at least `j` tiles among those.
pub proof fn lemma_subsequence_is_matched(tiles: Seq<u16>, state: Seq<u16>, i: nat, j: nat)
    requires
        i <= tiles.len(),
        j <= state.len(),
        is_subsequence(state.take(j as int), tiles.take(i as int)),
    ensures
        matched(tiles, state, i) >= j,
    decreases i,
{
    if j > 0 {
        let s = state.take(j as int);
        let t = tiles.take(i as int);
        lemma_subsequence_len(s, t);
        let before = matched(tiles, state, (i - 1) as nat);
        lemma_matched_bounds(tiles, state, i);
        assert(t.drop_last() =~= tiles.take(i - 1));
        assert(s.drop_last() =~= state.take(j - 1));
        if s.last() == t.last() && is_subsequence(s.drop_last(), t.drop_last()) {
            lemma_subsequence_is_matched(tiles, state, (i - 1) as nat, (j - 1) as nat);
        } else {
            lemma_subsequence_is_matched(tiles, state, (i - 1) as nat, j);
        }
    }
}

/// The tiles that matching has found among the first `i` starting tiles are
/// a subsequence of those.
pub proof fn lemma_matched_is_subsequence(tiles: Seq<u16>, state: Seq<u16>, i: nat, j: nat)
    requires
        i <= tiles.len(),
        j <= matched(tiles, state, i),
    ensures
        j <= state.len(),
        is_subsequence(state.take(j as int), tiles.take(i as int)),
    decreases i,
{
    lemma_matched_bounds(tiles, state, i);
    if j > 0 {
        let s = state.take(j as int);
        let t = tiles.take(i as int);
        let before = matched(tiles, state, (i - 1) as nat);
        assert(t.drop_last() =~= tiles.take(i - 1));
        assert(s.drop_last() =~= state.take(j - 1));
        if before >= j {
            lemma_matched_is_subsequence(tiles, state, (i - 1) as nat, j);
        } else {
            lemma_matched_is_subsequence(tiles, state, (i - 1) as nat, (j - 1) as nat);
        }
    }
}

/// A state is a subsequence of the starting tiles exactly if matching finds
/// a tile for each of its tiles.
pub proof fn lemma_subsequence_iff_matched(tiles: Seq<u16>, state: Seq<u16>)
    ensures
        is_subsequence(state, tiles) <==> matched(tiles, state, tiles.len()) == state.len(),
{
    assert(state.take(state.len() as int) =~= state);
    assert(tiles.take(tiles.len() as int) =~= tiles);
    lemma_matched_bounds(tiles, state, tiles.len());
    if is_subsequence(state, tiles) {
        lemma_subsequence_is_matched(tiles, state, tiles.len(), state.len());
    }
    if matched(tiles, state, tiles.len()) == state.len() {
        lemma_matched_is_subsequence(tiles, state, tiles.len(), state.len());
    }
}

/// The tiles that a key names are the tiles of the state that matching found.
pub proof fn lemma_key_tiles(tiles: Seq<u16>, state: Seq<u16>, i: nat)
    requires
        i <= tiles.len(),
    ensures
        key_tiles(tiles, key_upto(tiles, state, i), i) == state.take(
            matched(tiles, state, i) as int,
        ),
    decreases i,
{
    lemma_matched_bounds(tiles, state, i);
    if i == 0 {
        assert(state.take(0) =~= Seq::<u16>::empty());
    } else {
        lemma_key_tiles(tiles, state, (i - 1) as nat);
        let j = matched(tiles, state, (i - 1) as nat);
        let k = key_upto(tiles, state, (i - 1) as nat);
        if j < state.len() && tiles[i - 1] == state[j as int] {
            assert((2 * k + 1) % 2 == 1 && (2 * k + 1) / 2 == k);
            assert(state.take(j as int).push(state[j as int]) =~= state.take(j as int + 1));
        } else {
            assert((2 * k) % 2 == 0 && (2 * k) / 2 == k);
        }
    }
}

/// Two states of one game that share a key are the same state.
pub proof fn lemma_state_key_injective(tiles: Seq<u16>, a: Seq<u16>, b: Seq<u16>)
    requires
        is_subsequence(a, tiles),
        is_subsequence(b, tiles),
        state_key(tiles, a) == state_key(tiles, b),
    ensures
        a == b,
{
    lemma_subsequence_iff_matched(tiles, a);
    lemma_subsequence_iff_matched(tiles, b);
    lemma_key_tiles(tiles, a, tiles.len());
    lemma_key_tiles(tiles, b, tiles.len());
    assert(a.take(a.len() as int) =~= a);
    assert(b.take(b.len() as int) =~= b);
}

/// Computes the key of `state` in a game that starts with `tiles`. The
/// result is `None` exactly if `state` is no subsequence of `tiles`.
pub fn get_state_key(tiles: &Vec<u16>, state: &Vec<u16>) -> (key: Option<u128>)
    requires
        tiles.len() <= MAX_TILES,
    ensures
        key is Some <==> is_subsequence(state@, tiles@),
        key matches Some(k) ==> k == state_key(tiles@, state@),
{
    let mut key: u128 = 0;
    let mut j: usize = 0;
    let mut i: usize = 0;
    while i < tiles.len()
        invariant
            i <= tiles.len(),
            tiles.len() <= MAX_TILES,
            j == matched(tiles@, state@, i as nat),
            j <= state.len(),
            key == key_upto(tiles@, state@, i as nat),
        decreases tiles.len() - i,
    {
        proof {
            lemma_key_fits(tiles@, state@, (i + 1) as nat);
            lemma_matched_bounds(tiles@, state@, (i + 1) as nat);
        }
        if j < state.len() && tiles[i] == state[j] {
            key = 2 * key + 1;
            j += 1;
        } else {
            key = 2 * key;
        }
        i += 1;
    }
    proof {
        lemma_subsequence_iff_matched(tiles@, state@);
    }
    if j == state.len() {
        Some(key)
    } else {
        None
    }
}

} // verus!
