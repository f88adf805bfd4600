//! What the engine asks of a game, and the representative of a position's
//! class of equivalent positions.
use vstd::prelude::*;

verus! {

/// What a game position offers to the search engine.
///
/// Each executable method is tied to a spec function of the same name, so that
/// the search can be stated over the mathematical behaviour of the game.
/// Players are `1` and `-1`.
pub trait GameState: Sized {
    /// Whether the position is a won end of the game for `player`.
    spec fn spec_win(&self, player: i32) -> bool;

    /// The value of the position, seen by player `1`.
    spec fn spec_value(&self) -> int;

    /// The positions that `player` can reach with one move.
    spec fn spec_possibilities(&self, player: i32) -> Seq<Self>;

    /// The position with the two players' roles exchanged.
    spec fn spec_swap(&self) -> Self;

    /// The positions equivalent to this one, itself included.
    spec fn spec_symmetries(&self) -> Seq<Self>;

    /// Strict order on positions, used to pick a representative.
    spec fn spec_precedes(&self, other: Self) -> bool;

    fn win(&self, player: i32) -> (r: bool)
        ensures
            r == self.spec_win(player),
    ;

    fn value(&self) -> (r: i32)
        ensures
            r as int == self.spec_value(),
    ;

    fn possibilities(&self, player: i32) -> (r: Vec<Self>)
        ensures
            r@ == self.spec_possibilities(player),
    ;

    fn swap(&mut self)
        ensures
            *final(self) == old(self).spec_swap(),
    ;

    fn symmetries(&self) -> (r: Vec<Self>)
        ensures
            r@ == self.spec_symmetries(),
            r@.len() > 0,
    ;

    fn precedes(&self, other: &Self) -> (r: bool)
        ensures
            r == self.spec_precedes(*other),
    ;

    fn same(&self, other: &Self) -> (r: bool)
        ensures
            r == (*self == *other),
    ;

    fn duplicate(&self) -> (r: Self)
        ensures
            r == *self,
    ;
}

/// The representative that the table keeps for a class of equivalent
/// positions: the least of them, the first one on ties.
pub open spec fn least<S: GameState>(ss: Seq<S>) -> S
    decreases ss.len(),
{
    if ss.len() <= 1 {
        ss[0]
    } else {
        let m = least(ss.drop_last());
        if ss.last().spec_precedes(m) {
            ss.last()
        } else {
            m
        }
    }
}

/// The representative of a position's class.
pub open spec fn canonical<S: GameState>(s: S) -> S {
    least(s.spec_symmetries())
}

/// The position seen by player `1`, when `player` is to move in `s`.
pub open spec fn from_first_player<S: GameState>(s: S, player: i32) -> S {
    if player == -1 {
        s.spec_swap()
    } else {
        s
    }
}

/// The state under which the table files a search of `s` for `player`.
pub open spec fn key_state<S: GameState>(s: S, player: i32) -> S {
    canonical(from_first_player(s, player))
}

/// Picks the representative of `s`'s class.
pub fn canonicalize<S: GameState>(s: &S) -> (r: S)
    ensures
        r == canonical(*s),
{
    let mut ss = s.symmetries();
    let mut best: usize = 0;
    let mut i: usize = 1;
    while i < ss.len()
        invariant
            ss@ == s.spec_symmetries(),
            ss@.len() > 0,
            1 <= i <= ss@.len(),
            best < i,
            ss@[best as int] == least(ss@.take(i as int)),
        decreases ss@.len() - i,
    {
        proof {
            assert(ss@.take(i as int + 1).drop_last() == ss@.take(i as int));
        }
        if ss[i].precedes(&ss[best]) {
            best = i;
        }
        i += 1;
    }
    proof {
        assert(ss@.take(ss@.len() as int) == ss@);
    }
    ss.swap_remove(best)
}

} // verus!
