//! Two small game models.
use crate::game::{key_state, least, GameState};
use crate::model::{alpha_beta, alpha_beta_from, play_from, table_search, table_search_from};
use crate::table::{compacted, probe, Bound, Quality};
use vstd::prelude::*;

verus! {

/// A game of one position, already won by player `1`, whose only move leads
/// back to itself. Its value is `1`.
#[derive(Clone, Copy, PartialEq, Eq, Structural, Debug)]
pub struct Single;

impl GameState for Single {
    open spec fn spec_win(&self, player: i32) -> bool {
        player == 1
    }

    open spec fn spec_value(&self) -> int {
        1
    }

    open spec fn spec_possibilities(&self, player: i32) -> Seq<Self> {
        seq![Single]
    }

    open spec fn spec_swap(&self) -> Self {
        Single
    }

    open spec fn spec_symmetries(&self) -> Seq<Self> {
        seq![Single]
    }

    open spec fn spec_precedes(&self, other: Self) -> bool {
        false
    }

    fn win(&self, player: i32) -> (r: bool) {
        player == 1
    }

    fn value(&self) -> (r: i32) {
        1
    }

    fn possibilities(&self, player: i32) -> (r: Vec<Self>) {
        let r = vec![Single];
        assert(r@ =~= seq![Single]);
        r
    }

    fn swap(&mut self) {
    }

    fn symmetries(&self) -> (r: Vec<Self>) {
        let r = vec![Single];
        assert(r@ =~= seq![Single]);
        r
    }

    fn precedes(&self, other: &Self) -> (r: bool) {
        false
    }

    fn same(&self, other: &Self) -> (r: bool) {
        true
    }

    fn duplicate(&self) -> (r: Self) {
        *self
    }
}

/// A pile of stones from which each move takes one or two; whoever takes the
/// last stone wins. `last` is the player who moved last (`0` before any
/// move). A pile can be marked as a mirror image: the two marks stand for the
/// same position.
#[derive(Clone, Copy, PartialEq, Eq, Structural, Debug)]
pub struct Pile {
    pub stones: i32,
    pub last: i32,
    pub mirrored: bool,
}

impl Pile {
    pub open spec fn after(self, taken: i32, player: i32) -> Pile {
        Pile { stones: (self.stones - taken) as i32, last: player, mirrored: false }
    }

    pub open spec fn mirror(self) -> Pile {
        Pile { mirrored: !self.mirrored, ..self }
    }
}

impl GameState for Pile {
    open spec fn spec_win(&self, player: i32) -> bool {
        self.stones <= 0 && self.last == player
    }

    open spec fn spec_value(&self) -> int {
        if self.stones <= 0 && (self.last == 1 || self.last == -1) {
            self.last as int
        } else {
            0
        }
    }

    open spec fn spec_possibilities(&self, player: i32) -> Seq<Self> {
        if self.stones >= 2 {
            seq![self.after(1, player), self.after(2, player)]
        } else if self.stones >= 1 {
            seq![self.after(1, player)]
        } else {
            seq![]
        }
    }

    open spec fn spec_swap(&self) -> Self {
        Pile { last: if self.last == i32::MIN { 0 } else { -self.last } as i32, ..*self }
    }

    open spec fn spec_symmetries(&self) -> Seq<Self> {
        seq![*self, self.mirror()]
    }

    open spec fn spec_precedes(&self, other: Self) -> bool {
        ||| self.stones < other.stones
        ||| (self.stones == other.stones && self.last < other.last)
        ||| (self.stones == other.stones && self.last == other.last && !self.mirrored
            && other.mirrored)
    }

    fn win(&self, player: i32) -> (r: bool) {
        self.stones <= 0 && self.last == player
    }

    fn value(&self) -> (r: i32) {
        if self.stones <= 0 && (self.last == 1 || self.last == -1) {
            self.last
        } else {
            0
        }
    }

    fn possibilities(&self, player: i32) -> (r: Vec<Self>) {
        let mut r: Vec<Pile> = Vec::new();
        if self.stones >= 1 {
            r.push(Pile { stones: self.stones - 1, last: player, mirrored: false });
        }
        if self.stones >= 2 {
            r.push(Pile { stones: self.stones - 2, last: player, mirrored: false });
        }
        assert(r@ =~= self.spec_possibilities(player));
        r
    }

    fn swap(&mut self) {
        self.last = if self.last == i32::MIN {
            0
        } else {
            -self.last
        };
    }

    fn symmetries(&self) -> (r: Vec<Self>) {
        let r = vec![*self, Pile { mirrored: !self.mirrored, ..*self }];
        assert(r@ =~= self.spec_symmetries());
        r
    }

    fn precedes(&self, other: &Self) -> (r: bool) {
        self.stones < other.stones || (self.stones == other.stones && self.last < other.last) || (
        self.stones == other.stones && self.last == other.last && !self.mirrored
            && other.mirrored)
    }

    fn same(&self, other: &Self) -> (r: bool) {
        self.stones == other.stones && self.last == other.last && self.mirrored == other.mirrored
    }

    fn duplicate(&self) -> (r: Self) {
        *self
    }
}

} // verus!
verus! {

/// In the one-position game, a table-backed search three plies deep for
/// player `1`, from an empty table, scores `3` (the reply finds player `1`
/// already won with two plies left) and leaves one exact record of `3` under
/// the position.
pub proof fn lemma_single_three_plies()
    ensures
        table_search(
            Single,
            1,
            3,
            -i32::MAX as int,
            i32::MAX as int,
            Seq::<Bound<Single>>::empty(),
        ) == (3int, seq![Bound { depth: 3, state: Single, value: 3, quality: Quality::Exact }]),
{
    let e = Seq::<Bound<Single>>::empty();
    reveal_with_fuel(table_search, 3);
    reveal_with_fuel(table_search_from, 3);
    reveal_with_fuel(alpha_beta, 3);
    reveal_with_fuel(alpha_beta_from, 3);
    reveal_with_fuel(least, 2);
    assert(probe(e, 0, 3, Single, -i32::MAX as int, i32::MAX as int).0 is None);
    let ts = table_search(Single, 1, 3, -i32::MAX as int, i32::MAX as int, e);
    assert(ts.0 == 3);
    assert(key_state(Single, 1) == Single);
    assert(ts.1 =~= seq![Bound { depth: 3, state: Single, value: 3, quality: Quality::Exact }]);
}

/// In the one-position game, the best moves of player `1` three plies deep,
/// from an empty table, are the one move, and no record is left: the reply
/// is already a won end.
pub proof fn lemma_single_best_move()
    ensures
        play_from(
            seq![Single],
            0,
            1,
            3,
            -i32::MAX as int,
            Seq::empty(),
            Seq::<Bound<Single>>::empty(),
        ) == (seq![Single], Seq::<Bound<Single>>::empty()),
        compacted(Seq::<Bound<Single>>::empty()) == Seq::<Bound<Single>>::empty(),
{
    reveal_with_fuel(play_from, 2);
    let p = play_from(
        seq![Single],
        0,
        1,
        3,
        -i32::MAX as int,
        Seq::empty(),
        Seq::<Bound<Single>>::empty(),
    );
    assert(p.0 =~= seq![Single]);
}

} // verus!
