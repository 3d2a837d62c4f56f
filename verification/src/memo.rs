//! The table of solved states.
//!
//! A solved state is filed under its key with its chance to win. Entries are
//! only ever added, and an entry never changes: the chance of a state is a
//! function of the state alone.

use crate::chance::next_states;
use crate::chance::win_count;
use crate::chance::Game;
use crate::game::GameMeta;
use crate::keys::get_state_key;
use crate::keys::lemma_key_fits;
use crate::keys::lemma_state_key_injective;
use crate::keys::state_key;
use crate::keys::MAX_TILES;
use crate::tiles::is_subsequence;
use crate::tiles::lemma_subsequence_reflexive;
use crate::tiles::lemma_subsequence_transitive;
use std::collections::HashMap;
use vstd::prelude::*;
use vstd::std_specs::iter::IteratorSpec;

verus! {

broadcast use vstd::std_specs::hash::group_hash_axioms;

/// The solved states of a game, each under its key.
#[derive(Debug, Clone)]
pub struct GameDb {
    pub chances: HashMap<u128, u128>,
}

impl View for GameDb {
    type V = Map<u128, u128>;

    open spec fn view(&self) -> Map<u128, u128> {
        self.chances@
    }
}

/// The key under which `state` is filed in a game that starts with `tiles`.
pub open spec fn db_key(tiles: Seq<u16>, state: Seq<u16>) -> u128 {
    state_key(tiles, state) as u128
}

/// Every state of the game that `db` holds is filed with its true chance.
pub open spec fn sound_for(db: Map<u128, u128>, g: Game) -> bool {
    forall|state: Seq<u16>|
        is_subsequence(state, g.tiles) && db.contains_key(#[trigger] db_key(g.tiles, state))
            ==> db[db_key(g.tiles, state)] == win_count(g, state)
}

/// `to` is the state with index `i` among those that the removals adding up
/// to `roll` leave of `from`.
pub open spec fn left_by(g: Game, from: Seq<u16>, to: Seq<u16>, roll: u16, i: int) -> bool {
    &&& g.catalog.contains_key(roll)
    &&& 0 <= i < next_states(g.tiles, from, g.catalog[roll]).len()
    &&& next_states(g.tiles, from, g.catalog[roll])[i] == to
}

/// One turn leads from `from` to `to`: a removal of the catalog is legal in
/// `from`, takes a tile, and leaves `to`.
pub open spec fn steps_to(g: Game, from: Seq<u16>, to: Seq<u16>) -> bool {
    to.len() < from.len() && exists|roll: u16, i: int| left_by(g, from, to, roll, i)
}

/// `db` holds every state that one turn leads to from `state`.
pub open spec fn holds_next(db: Map<u128, u128>, g: Game, state: Seq<u16>) -> bool {
    forall|to: Seq<u16>| #[trigger] steps_to(g, state, to) ==> db.contains_key(db_key(g.tiles, to))
}

/// Play comes from `from` to `to` in `turns` turns.
pub open spec fn comes_to(g: Game, from: Seq<u16>, to: Seq<u16>, turns: nat) -> bool
    decreases turns,
{
    if turns == 0 {
        from == to
    } else {
        exists|mid: Seq<u16>| #[trigger]
            steps_to(g, from, mid) && comes_to(g, mid, to, (turns - 1) as nat)
    }
}

/// With each state of the game that `db` holds, it holds every state that
/// one turn leads to from there, and so every state that play can come to.
pub open spec fn closed(db: Map<u128, u128>, g: Game) -> bool {
    forall|from: Seq<u16>, to: Seq<u16>|
        is_subsequence(from, g.tiles) && db.contains_key(db_key(g.tiles, from)) && #[trigger] steps_to(
            g,
            from,
            to,
        ) ==> db.contains_key(db_key(g.tiles, to))
}

/// `k` is the key of a state of `tiles` in a game that starts with `start`.
pub open spec fn is_state_key(start: Seq<u16>, tiles: Seq<u16>, k: u128) -> bool {
    exists|s: Seq<u16>| is_subsequence(s, tiles) && #[trigger] db_key(start, s) == k
}

/// Whatever `after` holds and `before` did not is filed under the key of a
/// state of `tiles`.
pub open spec fn grown_within(
    before: Map<u128, u128>,
    after: Map<u128, u128>,
    start: Seq<u16>,
    tiles: Seq<u16>,
) -> bool {
    forall|k: u128| #[trigger]
        after.contains_key(k) ==> before.contains_key(k) || is_state_key(start, tiles, k)
}

/// Every entry of `before` stands unchanged in `after`.
pub open spec fn kept(before: Map<u128, u128>, after: Map<u128, u128>) -> bool {
    forall|k: u128| #[trigger] before.contains_key(k) ==> after.contains_key(k) && after[k] == before[k]
}

/// `m` holds the entries of `a` and of `b`, and no others; where both hold a
/// key, `m` has the entry of `b`.
pub open spec fn merged(a: Map<u128, u128>, b: Map<u128, u128>, m: Map<u128, u128>) -> bool {
    &&& forall|k: u128| #[trigger] m.contains_key(k) <==> a.contains_key(k) || b.contains_key(k)
    &&& forall|k: u128| #[trigger] b.contains_key(k) ==> m[k] == b[k]
    &&& forall|k: u128| #[trigger] a.contains_key(k) && !b.contains_key(k) ==> m[k] == a[k]
}

/// Filing a state with its true chance keeps a table sound.
pub proof fn lemma_insert_sound(db: Map<u128, u128>, g: Game, state: Seq<u16>)
    requires
        sound_for(db, g),
        is_subsequence(state, g.tiles),
        g.tiles.len() <= MAX_TILES,
        win_count(g, state) <= u128::MAX,
    ensures
        sound_for(db.insert(db_key(g.tiles, state), win_count(g, state) as u128), g),
{
    let after = db.insert(db_key(g.tiles, state), win_count(g, state) as u128);
    assert forall|other: Seq<u16>|
        is_subsequence(other, g.tiles) && after.contains_key(
            #[trigger] db_key(g.tiles, other),
        ) implies after[db_key(g.tiles, other)] == win_count(g, other) by {
        if db_key(g.tiles, other) == db_key(g.tiles, state) {
            lemma_key_fits(g.tiles, other, g.tiles.len());
            lemma_key_fits(g.tiles, state, g.tiles.len());
            lemma_state_key_injective(g.tiles, other, state);
        }
    }
}

/// Filing a state keeps a table closed, where the table holds every state
/// that one turn leads to from it.
pub proof fn lemma_insert_closed(db: Map<u128, u128>, g: Game, state: Seq<u16>, wins: u128)
    requires
        closed(db, g),
        is_subsequence(state, g.tiles),
        g.tiles.len() <= MAX_TILES,
        holds_next(db, g, state),
    ensures
        closed(db.insert(db_key(g.tiles, state), wins), g),
{
    let after = db.insert(db_key(g.tiles, state), wins);
    assert forall|from: Seq<u16>, to: Seq<u16>|
        is_subsequence(from, g.tiles) && after.contains_key(db_key(g.tiles, from))
            && #[trigger] steps_to(g, from, to) implies after.contains_key(db_key(g.tiles, to)) by {
        if db_key(g.tiles, from) == db_key(g.tiles, state) {
            lemma_key_fits(g.tiles, from, g.tiles.len());
            lemma_key_fits(g.tiles, state, g.tiles.len());
            lemma_state_key_injective(g.tiles, from, state);
        }
    }
}

/// Filing a state of `tiles` keeps a table grown within `tiles`.
pub proof fn lemma_insert_grown(
    before: Map<u128, u128>,
    db: Map<u128, u128>,
    start: Seq<u16>,
    tiles: Seq<u16>,
    wins: u128,
)
    requires
        grown_within(before, db, start, tiles),
    ensures
        grown_within(before, db.insert(db_key(start, tiles), wins), start, tiles),
{
    lemma_subsequence_reflexive(tiles);
    assert(is_state_key(start, tiles, db_key(start, tiles)));
}

/// A table grown within `outer`, and from there within a state of `outer`,
/// has grown within `outer`.
pub proof fn lemma_grown_chain(
    a: Map<u128, u128>,
    b: Map<u128, u128>,
    c: Map<u128, u128>,
    start: Seq<u16>,
    inner: Seq<u16>,
    outer: Seq<u16>,
)
    requires
        grown_within(a, b, start, outer),
        grown_within(b, c, start, inner),
        is_subsequence(inner, outer),
    ensures
        grown_within(a, c, start, outer),
{
    assert forall|k: u128| #[trigger] c.contains_key(k) implies a.contains_key(k) || is_state_key(
        start,
        outer,
        k,
    ) by {
        if !b.contains_key(k) {
            let s = choose|s: Seq<u16>| is_subsequence(s, inner) && #[trigger] db_key(start, s) == k;
            lemma_subsequence_transitive(s, inner, outer);
        }
    }
}

impl GameDb {
    /// Every state of the game that the table holds is filed with its true
    /// chance.
    pub open spec fn sound(&self, g: Game) -> bool {
        sound_for(self@, g)
    }

    /// A table with nothing in it.
    pub fn new() -> (db: GameDb)
        ensures
            db@ == Map::<u128, u128>::empty(),
    {
        GameDb { chances: HashMap::new() }
    }

    /// The number of states in the table.
    pub fn len(&self) -> (n: usize)
        ensures
            n == self@.len(),
    {
        self.chances.len()
    }

    /// The chance filed for `tiles`, if the table holds that state. A state
    /// that is none of the game is never held.
    pub fn get(&self, tiles: &Vec<u16>, game_meta: &GameMeta) -> (wins: Option<u128>)
        requires
            game_meta.tiles@.len() <= MAX_TILES,
        ensures
            wins is Some <==> is_subsequence(tiles@, game_meta.tiles@) && self@.contains_key(
                db_key(game_meta.tiles@, tiles@),
            ),
            wins matches Some(w) ==> w == self@[db_key(game_meta.tiles@, tiles@)],
    {
        match get_state_key(&game_meta.tiles, tiles) {
            None => None,
            Some(key) => match self.chances.get(&key) {
                Some(w) => Some(*w),
                None => None,
            },
        }
    }

    /// Takes over every entry of `other`. Where both tables hold a key, the
    /// entry of `other` stands.
    pub fn merge(&mut self, other: &GameDb)
        ensures
            merged(old(self)@, other@, final(self)@),
    {
        let ghost before = self.chances@;
        for pair in it: other.chances.iter()
            invariant
                it.seq() == other.chances.iter().remaining(),
                forall|i: int|
                    0 <= i < it.index() ==> self.chances@.contains_key(*it.seq()[i].0)
                        && self.chances@[*it.seq()[i].0] == other.chances@[*it.seq()[i].0],
                forall|k: u128|
                    #[trigger] before.contains_key(k) ==> self.chances@.contains_key(k) && (
                    !other.chances@.contains_key(k) ==> self.chances@[k] == before[k]),
                forall|k: u128|
                    #[trigger] self.chances@.contains_key(k) ==> before.contains_key(k)
                        || other.chances@.contains_key(k),
        {
            let (k, v) = pair;
            assert(other.chances@.contains_key(*k) && other.chances@[*k] == *v);
            self.chances.insert(*k, *v);
        }
        proof {
            let s = other.chances.iter().remaining();
            assert forall|k: u128| other@.contains_key(k) implies self@.contains_key(k) && self@[k]
                == other@[k] by {
                assert(s.contains((&k, &other@[k])));
                let i = choose|i: int| 0 <= i < s.len() && s[i] == (&k, &other@[k]);
                assert(*s[i].0 == k);
            }
        }
    }
}

/// Two closed tables make a closed table when one takes over the other.
pub proof fn lemma_merge_closed(a: Map<u128, u128>, b: Map<u128, u128>, m: Map<u128, u128>, g: Game)
    requires
        closed(a, g),
        closed(b, g),
        merged(a, b, m),
    ensures
        closed(m, g),
{
    assert forall|from: Seq<u16>, to: Seq<u16>|
        is_subsequence(from, g.tiles) && m.contains_key(db_key(g.tiles, from))
            && #[trigger] steps_to(g, from, to) implies m.contains_key(db_key(g.tiles, to)) by {
        if b.contains_key(db_key(g.tiles, from)) {
            assert(b.contains_key(db_key(g.tiles, to)));
        } else {
            assert(a.contains_key(db_key(g.tiles, from)));
            assert(a.contains_key(db_key(g.tiles, to)));
        }
    }
}

/// Two sound tables make a sound table when one takes over the other.
pub proof fn lemma_merge_sound(a: Map<u128, u128>, b: Map<u128, u128>, m: Map<u128, u128>, g: Game)
    requires
        sound_for(a, g),
        sound_for(b, g),
        merged(a, b, m),
    ensures
        sound_for(m, g),
{
    assert forall|state: Seq<u16>|
        is_subsequence(state, g.tiles) && m.contains_key(
            #[trigger] db_key(g.tiles, state),
        ) implies m[db_key(g.tiles, state)] == win_count(g, state) by {
        let k = db_key(g.tiles, state);
        if b.contains_key(k) {
            assert(m[k] == b[k]);
        } else {
            assert(a.contains_key(k));
            assert(m[k] == a[k]);
        }
    }
}

} // verus!
