//! The transposition table and the compaction of its records.
use crate::game::{canonicalize, key_state, GameState};
use vstd::prelude::*;

verus! {

/// What a cached score says of the true value of its position.
#[derive(PartialEq, Eq, Structural, Clone, Copy, Debug)]
pub enum Quality {
    /// The true value.
    Exact,
    /// The true value is at most this.
    UpperBound,
    /// The true value is at least this.
    LowerBound,
}

/// One cached score, filed under a remaining depth and a representative state
/// seen by player `1`.
pub struct Bound<S> {
    pub depth: i32,
    pub state: S,
    pub value: i32,
    pub quality: Quality,
}

/// The quality of a score `value` found with the window `alpha`..`beta`.
pub open spec fn classify(value: int, alpha: int, beta: int) -> Quality {
    if value <= alpha {
        Quality::UpperBound
    } else if beta <= value {
        Quality::LowerBound
    } else {
        Quality::Exact
    }
}

/// Whether a record is filed under the key `(depth, state)`.
pub open spec fn filed_under<S>(r: Bound<S>, depth: int, state: S) -> bool {
    r.depth == depth && r.state == state
}

/// Whether two records are filed under the same key.
pub open spec fn same_key<S>(a: Bound<S>, b: Bound<S>) -> bool {
    a.depth == b.depth && a.state == b.state
}

/// Whether `b` is `a` with records added at its end.
pub open spec fn extends<S>(a: Seq<Bound<S>>, b: Seq<Bound<S>>) -> bool {
    a.len() <= b.len() && forall|i: int| 0 <= i < a.len() ==> #[trigger] b[i] == a[i]
}

/// Every cached score is a score that negation cannot overflow.
pub open spec fn scores_in_range<S>(rs: Seq<Bound<S>>) -> bool {
    forall|i: int| 0 <= i < rs.len() ==> -i32::MAX <= #[trigger] rs[i].value <= i32::MAX
}

/// A probe of the records `rs[i..]` under the key `(depth, state)`, with the
/// window `alpha`..`beta`: an immediate score or none, and the narrowed window.
///
/// The records are read in the order they were added. An exact record gives
/// its score; an upper bound lowers `beta`; a lower bound raises `alpha`; once
/// the window is empty its `alpha` is the score.
pub open spec fn probe<S>(
    rs: Seq<Bound<S>>,
    i: int,
    depth: int,
    state: S,
    alpha: int,
    beta: int,
) -> (Option<int>, int, int)
    decreases rs.len() - i,
{
    if i < 0 || i >= rs.len() {
        (None, alpha, beta)
    } else if !filed_under(rs[i], depth, state) {
        probe(rs, i + 1, depth, state, alpha, beta)
    } else {
        let v = rs[i].value as int;
        match rs[i].quality {
            Quality::Exact => (Some(v), alpha, beta),
            Quality::UpperBound => {
                let b = if v < beta {
                    v
                } else {
                    beta
                };
                if alpha >= b {
                    (Some(alpha), alpha, b)
                } else {
                    probe(rs, i + 1, depth, state, alpha, b)
                }
            },
            Quality::LowerBound => {
                let a = if v > alpha {
                    v
                } else {
                    alpha
                };
                if a >= beta {
                    (Some(a), a, beta)
                } else {
                    probe(rs, i + 1, depth, state, a, beta)
                }
            },
        }
    }
}

/// Whether record `j` makes record `i` redundant: it has the same key and is
/// exact, or is the same kind of bound and at least as tight. Between two
/// records that say the same, the earlier one is kept.
pub open spec fn dominates<S>(rs: Seq<Bound<S>>, j: int, i: int) -> bool {
    &&& 0 <= j < rs.len()
    &&& 0 <= i < rs.len()
    &&& j != i
    &&& same_key(rs[j], rs[i])
    &&& {
        ||| (rs[j].quality == Quality::Exact && (rs[i].quality != Quality::Exact || j < i))
        ||| (rs[j].quality == Quality::UpperBound && rs[i].quality == Quality::UpperBound && (
        rs[j].value < rs[i].value || (rs[j].value == rs[i].value && j < i)))
        ||| (rs[j].quality == Quality::LowerBound && rs[i].quality == Quality::LowerBound && (
        rs[j].value > rs[i].value || (rs[j].value == rs[i].value && j < i)))
    }
}

/// Whether compaction keeps record `i`.
pub open spec fn kept<S>(rs: Seq<Bound<S>>, i: int) -> bool {
    forall|j: int| !#[trigger] dominates(rs, j, i)
}

/// The records of `rs[..n]` that compaction keeps, in their order.
pub open spec fn compact_prefix<S>(rs: Seq<Bound<S>>, n: int) -> Seq<Bound<S>>
    decreases n,
{
    if n <= 0 {
        Seq::empty()
    } else if kept(rs, n - 1) {
        compact_prefix(rs, n - 1).push(rs[n - 1])
    } else {
        compact_prefix(rs, n - 1)
    }
}

/// The records that compaction keeps.
pub open spec fn compacted<S>(rs: Seq<Bound<S>>) -> Seq<Bound<S>> {
    compact_prefix(rs, rs.len() as int)
}

/// Where each record of `compact_prefix(rs, n)` comes from: its index in
/// `rs`, increasing, for each kept record of `rs[..n]` and for those alone.
proof fn lemma_compact_origin<S>(rs: Seq<Bound<S>>, n: int) -> (f: Seq<int>)
    requires
        0 <= n <= rs.len(),
    ensures
        f.len() == compact_prefix(rs, n).len(),
        forall|a: int|
            0 <= a < f.len() ==> 0 <= #[trigger] f[a] < n && compact_prefix(rs, n)[a] == rs[f[a]]
                && kept(rs, f[a]),
        forall|a: int, b: int| 0 <= a < b < f.len() ==> #[trigger] f[a] < #[trigger] f[b],
        forall|i: int| 0 <= i < n && #[trigger] kept(rs, i) ==> exists|a: int| 0 <= a < f.len() && f[a] == i,
    decreases n,
{
    if n <= 0 {
        Seq::empty()
    } else {
        let g = lemma_compact_origin(rs, n - 1);
        if kept(rs, n - 1) {
            let f = g.push(n - 1);
            assert forall|i: int| 0 <= i < n && #[trigger] kept(rs, i) implies exists|a: int|
                0 <= a < f.len() && f[a] == i by {
                if i == n - 1 {
                    assert(f[f.len() - 1] == i);
                } else {
                    let a = choose|a: int| 0 <= a < g.len() && g[a] == i;
                    assert(f[a] == i);
                }
            }
            f
        } else {
            g
        }
    }
}

/// When no record of `rs` is redundant, compaction keeps them all.
proof fn lemma_compact_all_kept<S>(rs: Seq<Bound<S>>, n: int)
    requires
        0 <= n <= rs.len(),
        forall|i: int| 0 <= i < rs.len() ==> #[trigger] kept(rs, i),
    ensures
        compact_prefix(rs, n) == rs.take(n),
    decreases n,
{
    if n > 0 {
        lemma_compact_all_kept(rs, n - 1);
        assert(kept(rs, n - 1));
        assert(rs.take(n - 1).push(rs[n - 1]) =~= rs.take(n));
    } else {
        assert(rs.take(0) =~= Seq::<Bound<S>>::empty());
    }
}

/// No record that compaction keeps is redundant among the kept records.
proof fn lemma_compacted_all_kept<S>(rs: Seq<Bound<S>>)
    ensures
        forall|a: int| 0 <= a < compacted(rs).len() ==> #[trigger] kept(compacted(rs), a),
{
    let c = compacted(rs);
    let f = lemma_compact_origin(rs, rs.len() as int);
    assert forall|a: int| 0 <= a < c.len() implies #[trigger] kept(c, a) by {
        assert forall|b: int| !#[trigger] dominates(c, b, a) by {
            if dominates(c, b, a) {
                assert(f[a] != f[b]) by {
                    if a < b {
                        assert(f[a] < f[b]);
                    } else {
                        assert(f[b] < f[a]);
                    }
                }
                if b < a {
                    assert(f[b] < f[a]);
                } else {
                    assert(f[a] < f[b]);
                }
                assert(dominates(rs, f[b], f[a]));
                assert(kept(rs, f[a]));
            }
        }
    }
}

/// Compacting a compacted list of records changes nothing.
pub proof fn lemma_compacted_idempotent<S>(rs: Seq<Bound<S>>)
    ensures
        compacted(compacted(rs)) == compacted(rs),
{
    lemma_compacted_all_kept(rs);
    lemma_compact_list_unchanged(compacted(rs));
}

/// Compaction leaves a list with no redundant record as it is, so every
/// later probe of it gives what it gave before.
pub proof fn lemma_compact_list_unchanged<S>(rs: Seq<Bound<S>>)
    requires
        forall|i: int| 0 <= i < rs.len() ==> #[trigger] kept(rs, i),
    ensures
        compacted(rs) == rs,
{
    lemma_compact_all_kept(rs, rs.len() as int);
    assert(rs.take(rs.len() as int) =~= rs);
}

/// Every record that compaction keeps is a record of the list it compacts.
pub proof fn lemma_compacted_from<S>(rs: Seq<Bound<S>>)
    ensures
        forall|a: int|
            0 <= a < compacted(rs).len() ==> exists|i: int|
                0 <= i < rs.len() && #[trigger] compacted(rs)[a] == rs[i],
{
    let f = lemma_compact_origin(rs, rs.len() as int);
    assert forall|a: int| 0 <= a < compacted(rs).len() implies exists|i: int|
        0 <= i < rs.len() && #[trigger] compacted(rs)[a] == rs[i] by {
        assert(compacted(rs)[a] == rs[f[a]]);
    }
}

/// A rank of record `i` among those of its key, lowered by every record that
/// makes it redundant.
spec fn rank<S>(rs: Seq<Bound<S>>, i: int) -> int {
    let n = rs.len() as int;
    match rs[i].quality {
        Quality::Exact => i,
        Quality::UpperBound => n + (rs[i].value + i32::MAX) * n + i,
        Quality::LowerBound => n + (i32::MAX - rs[i].value) * n + i,
    }
}

/// Some record with the key of record `i` is kept.
proof fn lemma_key_survives<S>(rs: Seq<Bound<S>>, i: int) -> (k: int)
    requires
        scores_in_range(rs),
        0 <= i < rs.len(),
    ensures
        0 <= k < rs.len(),
        kept(rs, k),
        same_key(rs[k], rs[i]),
    decreases rank(rs, i),
{
    let n = rs.len() as int;
    assert(rank(rs, i) >= 0) by (nonlinear_arith)
        requires
            n > 0,
            -i32::MAX <= rs[i].value <= i32::MAX,
            0 <= i,
            rank(rs, i) == match rs[i].quality {
                Quality::Exact => i,
                Quality::UpperBound => n + (rs[i].value + i32::MAX) * n + i,
                Quality::LowerBound => n + (i32::MAX - rs[i].value) * n + i,
            },
    ;
    if kept(rs, i) {
        i
    } else {
        let j = choose|j: int| #[trigger] dominates(rs, j, i);
        let vi = rs[i].value as int;
        let vj = rs[j].value as int;
        assert(rank(rs, j) < rank(rs, i)) by (nonlinear_arith)
            requires
                0 <= i < n,
                0 <= j < n,
                -i32::MAX <= vi <= i32::MAX,
                -i32::MAX <= vj <= i32::MAX,
                rank(rs, i) == match rs[i].quality {
                    Quality::Exact => i,
                    Quality::UpperBound => n + (vi + i32::MAX) * n + i,
                    Quality::LowerBound => n + (i32::MAX - vi) * n + i,
                },
                rank(rs, j) == match rs[j].quality {
                    Quality::Exact => j,
                    Quality::UpperBound => n + (vj + i32::MAX) * n + j,
                    Quality::LowerBound => n + (i32::MAX - vj) * n + j,
                },
                (rs[j].quality == Quality::Exact && (rs[i].quality != Quality::Exact || j < i)) || (
                rs[j].quality == Quality::UpperBound && rs[i].quality == Quality::UpperBound && (
                vj < vi || (vj == vi && j < i))) || (rs[j].quality == Quality::LowerBound
                    && rs[i].quality == Quality::LowerBound && (vj > vi || (vj == vi && j < i))),
        ;
        lemma_key_survives(rs, j)
    }
}

/// Compaction loses no key: every key that has a record before it still has
/// one after.
pub proof fn lemma_compacted_keeps_keys<S>(rs: Seq<Bound<S>>, i: int)
    requires
        scores_in_range(rs),
        0 <= i < rs.len(),
    ensures
        exists|a: int| 0 <= a < compacted(rs).len() && same_key(#[trigger] compacted(rs)[a], rs[i]),
{
    let k = lemma_key_survives(rs, i);
    let f = lemma_compact_origin(rs, rs.len() as int);
    let a = choose|a: int| 0 <= a < f.len() && f[a] == k;
    assert(compacted(rs)[a] == rs[k]);
}

/// A cache from `(remaining depth, representative state)` to the bounds that
/// earlier searches found there, held as the list of records in the order they
/// were added.
///
/// The records are not grouped by key: a probe reads the whole list, and
/// compaction compares every pair of records. Keys hold a state of the game's
/// own type, compared through `GameState::same`, so an ordered map would need
/// an order on that type that Verus can reason about; a flat list keeps every
/// operation provable at the cost of linear probes.
pub struct Table<S> {
    records: Vec<Bound<S>>,
}

impl<S> View for Table<S> {
    type V = Seq<Bound<S>>;

    closed spec fn view(&self) -> Seq<Bound<S>> {
        self.records@
    }
}

impl<S: GameState> Default for Table<S> {
    fn default() -> (t: Table<S>)
        ensures
            t@ == Seq::<Bound<S>>::empty(),
    {
        Table::new()
    }
}

impl<S: GameState> Table<S> {
    /// Every cached score can be negated without overflow.
    pub open spec fn wf(&self) -> bool {
        scores_in_range(self@)
    }

    /// What a probe of the table gives for `state` with `player` to move at
    /// remaining depth `depth`, with the window `alpha`..`beta`.
    pub open spec fn lookup(&self, state: S, player: i32, depth: i32, alpha: i32, beta: i32) -> (
        Option<int>,
        int,
        int,
    ) {
        probe(self@, 0, depth as int, key_state(state, player), alpha as int, beta as int)
    }

    /// An empty table.
    pub fn new() -> (t: Table<S>)
        ensures
            t@ == Seq::<Bound<S>>::empty(),
            t.wf(),
    {
        Table { records: Vec::new() }
    }

    /// The number of records.
    pub fn len(&self) -> (n: usize)
        ensures
            n == self@.len(),
    {
        self.records.len()
    }

    /// Whether the table holds no record.
    pub fn is_empty(&self) -> (b: bool)
        ensures
            b == (self@.len() == 0),
    {
        self.records.len() == 0
    }

    /// Looks up the records for `state` with `player` to move at remaining
    /// depth `depth`, and narrows the window `alpha`..`beta` by them.
    /// Gives a score when a record is exact or the window becomes empty.
    pub fn get(&self, state: &S, player: i32, depth: i32, alpha: &mut i32, beta: &mut i32) -> (r:
        Option<i32>)
        requires
            self.wf(),
            player == 1 || player == -1,
            -i32::MAX <= *old(alpha) <= i32::MAX,
            -i32::MAX <= *old(beta) <= i32::MAX,
        ensures
            r.is_some() == self.lookup(*state, player, depth, *old(alpha), *old(beta)).0.is_some(),
            r matches Some(v) ==> self.lookup(*state, player, depth, *old(alpha), *old(beta)).0
                == Some(v as int),
            *final(alpha) == self.lookup(*state, player, depth, *old(alpha), *old(beta)).1,
            *final(beta) == self.lookup(*state, player, depth, *old(alpha), *old(beta)).2,
            -i32::MAX <= *final(alpha) <= i32::MAX,
            -i32::MAX <= *final(beta) <= i32::MAX,
            r matches Some(v) ==> -i32::MAX <= v <= i32::MAX,
    {
        let key = if player == -1 {
            let mut s = state.duplicate();
            s.swap();
            canonicalize(&s)
        } else {
            canonicalize(state)
        };
        let ghost a0 = *alpha as int;
        let ghost b0 = *beta as int;
        let mut i: usize = 0;
        while i < self.records.len()
            invariant
                self.wf(),
                key == key_state(*state, player),
                a0 == *old(alpha) as int,
                b0 == *old(beta) as int,
                0 <= i <= self@.len(),
                -i32::MAX <= *alpha <= i32::MAX,
                -i32::MAX <= *beta <= i32::MAX,
                probe(self@, 0, depth as int, key, a0, b0) == probe(
                    self@,
                    i as int,
                    depth as int,
                    key,
                    *alpha as int,
                    *beta as int,
                ),
            decreases self@.len() - i,
        {
            let rec = &self.records[i];
            if rec.depth == depth && rec.state.same(&key) {
                assert(self@[i as int] == *rec);
                match rec.quality {
                    Quality::Exact => {
                        return Some(rec.value);
                    },
                    Quality::UpperBound => {
                        if rec.value < *beta {
                            *beta = rec.value;
                        }
                    },
                    Quality::LowerBound => {
                        if rec.value > *alpha {
                            *alpha = rec.value;
                        }
                    },
                }
                if *alpha >= *beta {
                    return Some(*alpha);
                }
            }
            i += 1;
        }
        None
    }

    /// Records the score `value` found for `state` with `player` to move at
    /// remaining depth `depth`, with the window `alpha`..`beta` that the
    /// search was given.
    pub fn insert(&mut self, state: S, player: i32, depth: i32, alpha: i32, beta: i32, value: i32)
        requires
            old(self).wf(),
            player == 1 || player == -1,
            -i32::MAX <= value <= i32::MAX,
        ensures
            final(self).wf(),
            final(self)@ == old(self)@.push(
                Bound {
                    depth,
                    state: key_state(state, player),
                    value,
                    quality: classify(value as int, alpha as int, beta as int),
                },
            ),
    {
        let mut state = state;
        if player == -1 {
            state.swap();
        }
        let key = canonicalize(&state);
        let quality = if value <= alpha {
            Quality::UpperBound
        } else if beta <= value {
            Quality::LowerBound
        } else {
            Quality::Exact
        };
        self.records.push(Bound { depth, state: key, value, quality });
    }

    /// Drops every record that another record of the same key makes
    /// redundant: all but one exact record, and all but the tightest bound of
    /// each kind where no record is exact.
    pub fn clean(&mut self)
        requires
            old(self).wf(),
        ensures
            final(self).wf(),
            final(self)@ == compacted(old(self)@),
    {
        let mut out: Vec<Bound<S>> = Vec::new();
        let n = self.records.len();
        let mut i: usize = 0;
        while i < n
            invariant
                n == self@.len(),
                self.wf(),
                0 <= i <= n,
                out@ == compact_prefix(self@, i as int),
                scores_in_range(out@),
            decreases n - i,
        {
            let ri = &self.records[i];
            let mut keep = true;
            let mut j: usize = 0;
            while j < n
                invariant
                    n == self@.len(),
                    0 <= i < n,
                    0 <= j <= n,
                    *ri == self@[i as int],
                    keep == (forall|k: int| 0 <= k < j ==> !dominates(self@, k, i as int)),
                decreases n - j,
            {
                let rj = &self.records[j];
                assert(self@[j as int] == *rj);
                if j != i && rj.depth == ri.depth && rj.state.same(&ri.state) {
                    let dom = match (rj.quality, ri.quality) {
                        (Quality::Exact, Quality::Exact) => j < i,
                        (Quality::Exact, _) => true,
                        (Quality::UpperBound, Quality::UpperBound) => rj.value < ri.value || (
                        rj.value == ri.value && j < i),
                        (Quality::LowerBound, Quality::LowerBound) => rj.value > ri.value || (
                        rj.value == ri.value && j < i),
                        _ => false,
                    };
                    assert(dom == dominates(self@, j as int, i as int));
                    if dom {
                        keep = false;
                    }
                }
                j += 1;
            }
            if keep {
                out.push(
                    Bound {
                        depth: ri.depth,
                        state: ri.state.duplicate(),
                        value: ri.value,
                        quality: ri.quality,
                    },
                );
            }
            i += 1;
        }
        proof {
            assert(compact_prefix(self@, n as int) == compacted(self@));
        }
        self.records = out;
    }
}

} // verus!
