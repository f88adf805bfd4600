//! The mathematical model of the search: alpha-beta and minimax scores as
//! spec functions, what the table's records must say of them, and the laws
//! that relate them.
use crate::game::{key_state, GameState};
use crate::table::{classify, compacted, filed_under, probe, Bound, Quality};
use vstd::prelude::*;

verus! {

/// Whether `p` names one of the two players.
pub open spec fn is_player(p: i32) -> bool {
    p == 1 || p == -1
}

/// The absolute value of `x`.
pub open spec fn abs(x: int) -> int {
    if x < 0 {
        -x
    } else {
        x
    }
}

/// Every position's value, scaled by a remaining depth up to `depth`, fits
/// in an `i32` with room for negation.
pub open spec fn scores_fit<S: GameState>(depth: int) -> bool {
    forall|s: S| #[trigger] abs(s.spec_value()) * (depth + 1) <= i32::MAX
}

/// Whether the search stops at `s`: no depth is left, or the opponent of
/// `player` has already won.
pub open spec fn is_leaf<S: GameState>(s: S, player: i32, depth: int) -> bool {
    depth <= 0 || s.spec_win((-player) as i32)
}

/// The score of a position where the search stops, for `player`: its value
/// scaled by the depth left, so that an earlier end counts for more.
pub open spec fn terminal_score<S: GameState>(s: S, player: i32, depth: int) -> int {
    player * s.spec_value() * (depth + 1)
}

/// The fail-soft alpha-beta score of `s` with `player` to move, `depth` plies
/// left and the window `alpha`..`beta`.
pub open spec fn alpha_beta<S: GameState>(
    s: S,
    player: i32,
    depth: int,
    alpha: int,
    beta: int,
) -> int
    decreases depth, 1int, 0int,
{
    if is_leaf(s, player, depth) {
        terminal_score(s, player, depth)
    } else {
        alpha_beta_from(s.spec_possibilities(player), 0, player, depth, alpha, beta, -i32::MAX)
    }
}

/// The best score over the moves `cs[i..]`, given the best score `best` and
/// the raised bound `alpha` of the moves before them; the scan stops once
/// `alpha` reaches `beta`.
pub open spec fn alpha_beta_from<S: GameState>(
    cs: Seq<S>,
    i: int,
    player: i32,
    depth: int,
    alpha: int,
    beta: int,
    best: int,
) -> int
    decreases depth, 0int, cs.len() - i,
{
    if i < 0 || i >= cs.len() || depth <= 0 {
        best
    } else {
        let v = -alpha_beta(cs[i], (-player) as i32, depth - 1, -beta, -alpha);
        let best2 = if v > best {
            v
        } else {
            best
        };
        let alpha2 = if v > alpha {
            v
        } else {
            alpha
        };
        if alpha2 >= beta {
            best2
        } else {
            alpha_beta_from(cs, i + 1, player, depth, alpha2, beta, best2)
        }
    }
}

/// Table-backed search of `s` with `player` to move, `depth` plies left and
/// the window `alpha`..`beta`, starting from the records `rs`: its score and
/// the records it leaves.
///
/// Leaves score as in plain search, and up to two plies the search is plain;
/// neither touches the records. Deeper, a probe of the records gives the score
/// outright, or narrows the window for the scan of the moves; after the scan
/// one record is added, filed under the position's key and classified against
/// the window the search was given.
pub open spec fn table_search<S: GameState>(
    s: S,
    player: i32,
    depth: int,
    alpha: int,
    beta: int,
    rs: Seq<Bound<S>>,
) -> (int, Seq<Bound<S>>)
    decreases depth, 1int, 0int,
{
    if is_leaf(s, player, depth) {
        (terminal_score(s, player, depth), rs)
    } else if depth <= 2 {
        (alpha_beta(s, player, depth, alpha, beta), rs)
    } else {
        let p = probe(rs, 0, depth, key_state(s, player), alpha, beta);
        match p.0 {
            Some(v) => (v, rs),
            None => {
                let (best, rs2) = table_search_from(
                    s.spec_possibilities(player),
                    0,
                    player,
                    depth,
                    p.1,
                    p.2,
                    -i32::MAX as int,
                    rs,
                );
                (
                    best,
                    rs2.push(
                        Bound {
                            depth: depth as i32,
                            state: key_state(s, player),
                            value: best as i32,
                            quality: classify(best, alpha, beta),
                        },
                    ),
                )
            },
        }
    }
}

/// The scan of the moves `cs[i..]` in table-backed search, given the best
/// score `best` and the raised bound `alpha` of the moves before them and the
/// records `rs` they left; it stops once `alpha` reaches `beta`.
pub open spec fn table_search_from<S: GameState>(
    cs: Seq<S>,
    i: int,
    player: i32,
    depth: int,
    alpha: int,
    beta: int,
    best: int,
    rs: Seq<Bound<S>>,
) -> (int, Seq<Bound<S>>)
    decreases depth, 0int, cs.len() - i,
{
    if i < 0 || i >= cs.len() || depth <= 0 {
        (best, rs)
    } else {
        let (w, rs2) = table_search(cs[i], (-player) as i32, depth - 1, -beta, -alpha, rs);
        let v = -w;
        let best2 = if v > best {
            v
        } else {
            best
        };
        let alpha2 = if v > alpha {
            v
        } else {
            alpha
        };
        if alpha2 >= beta {
            (best2, rs2)
        } else {
            table_search_from(cs, i + 1, player, depth, alpha2, beta, best2, rs2)
        }
    }
}

/// The scan of `bot_play` over the moves `cs[i..]`: each reply is searched
/// with the table and the widest window; the moves found so far with the best
/// score `best` are `found`, and `rs` are the records left so far. Gives the
/// best moves and the records left at the end, before compaction.
pub open spec fn play_from<S: GameState>(
    cs: Seq<S>,
    i: int,
    player: i32,
    depth: int,
    best: int,
    found: Seq<S>,
    rs: Seq<Bound<S>>,
) -> (Seq<S>, Seq<Bound<S>>)
    decreases cs.len() - i,
{
    if i < 0 || i >= cs.len() {
        (found, rs)
    } else {
        let (w, rs2) = table_search(
            cs[i],
            (-player) as i32,
            depth,
            -i32::MAX as int,
            i32::MAX as int,
            rs,
        );
        let v = -w;
        if v > best {
            play_from(cs, i + 1, player, depth, v, seq![cs[i]], rs2)
        } else if v == best {
            play_from(cs, i + 1, player, depth, best, found.push(cs[i]), rs2)
        } else {
            play_from(cs, i + 1, player, depth, best, found, rs2)
        }
    }
}

/// The minimax score of `s` with `player` to move and `depth` plies left:
/// the best over the moves of the negated score of the reply.
pub open spec fn minimax<S: GameState>(s: S, player: i32, depth: int) -> int
    decreases depth, 1int, 0int,
{
    if is_leaf(s, player, depth) {
        terminal_score(s, player, depth)
    } else {
        best_upto(s.spec_possibilities(player), s.spec_possibilities(player).len() as int, player, depth)
    }
}

/// The best minimax score over the moves `cs[..n]`; the lowest score when
/// there are none.
pub open spec fn best_upto<S: GameState>(cs: Seq<S>, n: int, player: i32, depth: int) -> int
    decreases depth, 0int, n,
{
    if n <= 0 || n > cs.len() || depth <= 0 {
        -i32::MAX
    } else {
        let t = -minimax(cs[n - 1], (-player) as i32, depth - 1);
        let b = best_upto(cs, n - 1, player, depth);
        if t > b {
            t
        } else {
            b
        }
    }
}

/// What a fail-soft search with the window `lo`..`hi` promises of its score
/// `v` against the true score `m`: at or below the window it bounds `m` from
/// above, at or above it from below, and inside it is `m`.
pub open spec fn fail_soft(v: int, m: int, lo: int, hi: int) -> bool {
    &&& (v <= lo ==> m <= v)
    &&& (v >= hi ==> m >= v)
    &&& (lo < v < hi ==> m == v)
}

pub(crate) proof fn lemma_best_upto_grows<S: GameState>(cs: Seq<S>, k: int, n: int, player: i32, depth: int)
    requires
        0 <= k <= n <= cs.len(),
    ensures
        best_upto(cs, k, player, depth) <= best_upto(cs, n, player, depth),
    decreases n - k,
{
    if k < n {
        lemma_best_upto_grows(cs, k, n - 1, player, depth);
    }
}

/// Alpha-beta search is sound: with a window `alpha`..`beta` that is not
/// empty, its score bounds the minimax score as fail-soft search promises.
pub proof fn lemma_alpha_beta_bounds<S: GameState>(s: S, player: i32, depth: int, alpha: int, beta: int)
    requires
        is_player(player),
        -i32::MAX <= alpha < beta <= i32::MAX,
    ensures
        fail_soft(alpha_beta(s, player, depth, alpha, beta), minimax(s, player, depth), alpha, beta),
    decreases depth, 1int, 0int,
{
    if !is_leaf(s, player, depth) {
        lemma_alpha_beta_from_bounds(
            s.spec_possibilities(player),
            0,
            player,
            depth,
            alpha,
            alpha,
            beta,
            -i32::MAX as int,
        );
    }
}

proof fn lemma_alpha_beta_from_bounds<S: GameState>(
    cs: Seq<S>,
    i: int,
    player: i32,
    depth: int,
    a0: int,
    a: int,
    beta: int,
    best: int,
)
    requires
        is_player(player),
        depth > 0,
        -i32::MAX <= a0 < beta <= i32::MAX,
        0 <= i <= cs.len(),
        a < beta,
        best_upto(cs, i, player, depth) <= best,
        best > a0 ==> best_upto(cs, i, player, depth) == best,
        a == (if a0 > best { a0 } else { best }),
    ensures
        fail_soft(
            alpha_beta_from(cs, i, player, depth, a, beta, best),
            best_upto(cs, cs.len() as int, player, depth),
            a0,
            beta,
        ),
    decreases depth, 0int, cs.len() - i,
{
    if i < cs.len() {
        let c = cs[i];
        lemma_alpha_beta_bounds(c, (-player) as i32, depth - 1, -beta, -a);
        let v = -alpha_beta(c, (-player) as i32, depth - 1, -beta, -a);
        let best2 = if v > best {
            v
        } else {
            best
        };
        let a2 = if v > a {
            v
        } else {
            a
        };
        if a2 >= beta {
            lemma_best_upto_grows(cs, i + 1, cs.len() as int, player, depth);
        } else {
            lemma_alpha_beta_from_bounds(cs, i + 1, player, depth, a0, a2, beta, best2);
        }
    }
}

/// Whether a record tells the truth about the minimax score of its key,
/// seen by player `1`.
pub open spec fn record_sound<S: GameState>(r: Bound<S>) -> bool {
    let m = minimax(r.state, 1, r.depth as int);
    match r.quality {
        Quality::Exact => r.value == m,
        Quality::UpperBound => m <= r.value,
        Quality::LowerBound => m >= r.value,
    }
}

/// Whether every record tells the truth about its key.
pub open spec fn table_sound<S: GameState>(rs: Seq<Bound<S>>) -> bool {
    forall|i: int| 0 <= i < rs.len() ==> record_sound(#[trigger] rs[i])
}

/// Whether the game gives each search the minimax score of the key that the
/// table files it under: equivalent positions score alike, and a position
/// with player `-1` to move scores as its swapped image does for player `1`.
pub open spec fn keys_keep_scores<S: GameState>() -> bool {
    forall|s: S, p: i32, d: int|
        is_player(p) && 0 <= d ==> #[trigger] minimax(key_state(s, p), 1, d) == minimax(s, p, d)
}

/// A probe of sound records under a key whose minimax score is `m`, with a
/// window that the records before `i` narrowed soundly, gives a fail-soft
/// score or a window narrowed soundly.
pub(crate) proof fn lemma_probe_sound<S: GameState>(
    rs: Seq<Bound<S>>,
    i: int,
    depth: int,
    key: S,
    m: int,
    alpha: int,
    beta: int,
    a: int,
    b: int,
)
    requires
        table_sound(rs),
        m == minimax(key, 1, depth),
        0 <= i <= rs.len(),
        alpha <= a < b <= beta,
        a > alpha ==> m >= a,
        b < beta ==> m <= b,
    ensures
        ({
            let p = probe(rs, i, depth, key, a, b);
            &&& (p.0 matches Some(v) ==> fail_soft(v, m, alpha, beta))
            &&& (p.0 is None ==> {
                &&& alpha <= p.1 < p.2 <= beta
                &&& (p.1 > alpha ==> m >= p.1)
                &&& (p.2 < beta ==> m <= p.2)
            })
        }),
    decreases rs.len() - i,
{
    if i < rs.len() {
        if filed_under(rs[i], depth, key) {
            assert(record_sound(rs[i]));
            let v = rs[i].value as int;
            match rs[i].quality {
                Quality::Exact => {},
                Quality::UpperBound => {
                    let b2 = if v < b {
                        v
                    } else {
                        b
                    };
                    if a < b2 {
                        lemma_probe_sound(rs, i + 1, depth, key, m, alpha, beta, a, b2);
                    }
                },
                Quality::LowerBound => {
                    let a2 = if v > a {
                        v
                    } else {
                        a
                    };
                    if a2 < b {
                        lemma_probe_sound(rs, i + 1, depth, key, m, alpha, beta, a2, b);
                    }
                },
            }
        } else {
            lemma_probe_sound(rs, i + 1, depth, key, m, alpha, beta, a, b);
        }
    }
}

pub(crate) proof fn lemma_scores_fit_smaller<S: GameState>(depth: int, d: int)
    requires
        scores_fit::<S>(depth),
        0 <= d <= depth,
    ensures
        scores_fit::<S>(d),
{
    assert forall|s: S| #[trigger] abs(s.spec_value()) * (d + 1) <= i32::MAX by {
        let a = abs(s.spec_value());
        assert(a * (depth + 1) <= i32::MAX);
        assert(a * (d + 1) <= a * (depth + 1)) by (nonlinear_arith)
            requires
                0 <= a,
                0 <= d <= depth,
        ;
    }
}

pub(crate) proof fn lemma_terminal_in_range<S: GameState>(s: S, player: i32, depth: int)
    requires
        is_player(player),
        0 <= depth,
        scores_fit::<S>(depth),
    ensures
        -i32::MAX <= terminal_score(s, player, depth) <= i32::MAX,
        abs(s.spec_value()) <= i32::MAX,
{
    let v = s.spec_value();
    let a = abs(v);
    assert(a * (depth + 1) <= i32::MAX);
    assert(a <= a * (depth + 1)) by (nonlinear_arith)
        requires
            0 <= a,
            0 <= depth,
    ;
    assert(-i32::MAX <= player * v * (depth + 1) <= i32::MAX) by (nonlinear_arith)
        requires
            a == abs(v),
            a * (depth + 1) <= i32::MAX,
            player == 1 || player == -1,
            0 <= depth,
    ;
}

/// Minimax scores lie within `-i32::MAX..=i32::MAX`.
pub proof fn lemma_minimax_in_range<S: GameState>(s: S, player: i32, depth: int)
    requires
        is_player(player),
        0 <= depth,
        scores_fit::<S>(depth),
    ensures
        -i32::MAX <= minimax(s, player, depth) <= i32::MAX,
    decreases depth, 1int, 0int,
{
    if is_leaf(s, player, depth) {
        lemma_terminal_in_range(s, player, depth);
    } else {
        lemma_best_upto_in_range(
            s.spec_possibilities(player),
            s.spec_possibilities(player).len() as int,
            player,
            depth,
        );
    }
}

proof fn lemma_best_upto_in_range<S: GameState>(cs: Seq<S>, n: int, player: i32, depth: int)
    requires
        is_player(player),
        0 <= depth,
        scores_fit::<S>(depth),
        0 <= n <= cs.len(),
    ensures
        -i32::MAX <= best_upto(cs, n, player, depth) <= i32::MAX,
    decreases depth, 0int, n,
{
    if n > 0 && depth > 0 {
        lemma_best_upto_in_range(cs, n - 1, player, depth);
        lemma_scores_fit_smaller::<S>(depth, depth - 1);
        lemma_minimax_in_range(cs[n - 1], (-player) as i32, depth - 1);
    }
}

/// Alpha-beta scores lie within `-i32::MAX..=i32::MAX` when the window does.
pub proof fn lemma_alpha_beta_in_range<S: GameState>(
    s: S,
    player: i32,
    depth: int,
    alpha: int,
    beta: int,
)
    requires
        is_player(player),
        0 <= depth,
        scores_fit::<S>(depth),
        -i32::MAX <= alpha <= i32::MAX,
        -i32::MAX <= beta <= i32::MAX,
    ensures
        -i32::MAX <= alpha_beta(s, player, depth, alpha, beta) <= i32::MAX,
    decreases depth, 1int, 0int,
{
    if is_leaf(s, player, depth) {
        lemma_terminal_in_range(s, player, depth);
    } else {
        lemma_alpha_beta_from_in_range(
            s.spec_possibilities(player),
            0,
            player,
            depth,
            alpha,
            beta,
            -i32::MAX as int,
        );
    }
}

proof fn lemma_alpha_beta_from_in_range<S: GameState>(
    cs: Seq<S>,
    i: int,
    player: i32,
    depth: int,
    a: int,
    beta: int,
    best: int,
)
    requires
        is_player(player),
        0 < depth,
        scores_fit::<S>(depth),
        -i32::MAX <= a <= i32::MAX,
        -i32::MAX <= beta <= i32::MAX,
        -i32::MAX <= best <= i32::MAX,
        0 <= i <= cs.len(),
    ensures
        -i32::MAX <= alpha_beta_from(cs, i, player, depth, a, beta, best) <= i32::MAX,
    decreases depth, 0int, cs.len() - i,
{
    if i < cs.len() {
        lemma_scores_fit_smaller::<S>(depth, depth - 1);
        lemma_alpha_beta_in_range(cs[i], (-player) as i32, depth - 1, -beta, -a);
        let v = -alpha_beta(cs[i], (-player) as i32, depth - 1, -beta, -a);
        let best2 = if v > best {
            v
        } else {
            best
        };
        let a2 = if v > a {
            v
        } else {
            a
        };
        if a2 < beta {
            lemma_alpha_beta_from_in_range(cs, i + 1, player, depth, a2, beta, best2);
        }
    }
}

/// With the widest window, a fail-soft score is the minimax score.
pub(crate) proof fn lemma_full_window_exact(v: int, m: int)
    requires
        fail_soft(v, m, -i32::MAX as int, i32::MAX as int),
        -i32::MAX <= v <= i32::MAX,
        -i32::MAX <= m <= i32::MAX,
    ensures
        v == m,
{
}

/// Of two positions where the search stops, with the same nonzero value and
/// the same player to move, the one reached with more depth left scores with
/// the same sign and a strictly larger magnitude, whatever the windows.
pub proof fn lemma_earlier_end_scores_more<S: GameState>(
    s1: S,
    s2: S,
    player: i32,
    d1: int,
    d2: int,
    alpha1: int,
    beta1: int,
    alpha2: int,
    beta2: int,
)
    requires
        is_player(player),
        is_leaf(s1, player, d1),
        is_leaf(s2, player, d2),
        d1 > d2 >= 0,
        s1.spec_value() == s2.spec_value(),
        s1.spec_value() != 0,
    ensures
        abs(alpha_beta(s1, player, d1, alpha1, beta1)) > abs(alpha_beta(s2, player, d2, alpha2, beta2)),
        (alpha_beta(s1, player, d1, alpha1, beta1) > 0) == (alpha_beta(s2, player, d2, alpha2, beta2) > 0),
{
    let v = s1.spec_value();
    assert(abs(player * v * (d1 + 1)) > abs(player * v * (d2 + 1)) && ((player * v * (d1 + 1) > 0) == (
    player * v * (d2 + 1) > 0))) by (nonlinear_arith)
        requires
            player == 1 || player == -1,
            v != 0,
            d1 > d2 >= 0,
    {
        assert(abs(player * v * (d1 + 1)) == abs(v) * (d1 + 1));
        assert(abs(player * v * (d2 + 1)) == abs(v) * (d2 + 1));
    }
}

/// The minimax score for `player` of moving to `c`, with `depth` plies
/// searched after the move.
pub open spec fn move_score<S: GameState>(c: S, player: i32, depth: int) -> int {
    -minimax(c, (-player) as i32, depth)
}

/// The best score over the moves `cs[..n]`; the lowest score when there are
/// none.
pub open spec fn top_score<S: GameState>(cs: Seq<S>, n: int, player: i32, depth: int) -> int
    decreases n,
{
    if n <= 0 || n > cs.len() {
        -i32::MAX
    } else {
        let t = move_score(cs[n - 1], player, depth);
        let b = top_score(cs, n - 1, player, depth);
        if t > b {
            t
        } else {
            b
        }
    }
}

/// The moves of `cs[..n]` that score `target`, in their order.
pub open spec fn moves_scoring<S: GameState>(
    cs: Seq<S>,
    n: int,
    player: i32,
    depth: int,
    target: int,
) -> Seq<S>
    decreases n,
{
    if n <= 0 || n > cs.len() {
        Seq::empty()
    } else {
        let r = moves_scoring(cs, n - 1, player, depth, target);
        if move_score(cs[n - 1], player, depth) == target {
            r.push(cs[n - 1])
        } else {
            r
        }
    }
}

/// The moves of `cs` with the best score, in their order.
pub open spec fn best_moves<S: GameState>(cs: Seq<S>, player: i32, depth: int) -> Seq<S> {
    moves_scoring(cs, cs.len() as int, player, depth, top_score(cs, cs.len() as int, player, depth))
}

pub(crate) proof fn lemma_no_move_above_top<S: GameState>(
    cs: Seq<S>,
    n: int,
    player: i32,
    depth: int,
    target: int,
)
    requires
        0 <= n <= cs.len(),
        target > top_score(cs, n, player, depth),
    ensures
        moves_scoring(cs, n, player, depth, target) == Seq::<S>::empty(),
    decreases n,
{
    if n > 0 {
        lemma_no_move_above_top(cs, n - 1, player, depth, target);
    }
}

/// With the widest window, any score that bounds the minimax score as
/// fail-soft search promises (as table-backed search does with a sound
/// table, an empty one for instance) is the score of plain search.
pub proof fn lemma_full_window_agrees_with_plain<S: GameState>(s: S, player: i32, depth: int, v: int)
    requires
        is_player(player),
        0 <= depth,
        scores_fit::<S>(depth),
        -i32::MAX <= v <= i32::MAX,
        fail_soft(v, minimax(s, player, depth), -i32::MAX as int, i32::MAX as int),
    ensures
        v == alpha_beta(s, player, depth, -i32::MAX as int, i32::MAX as int),
{
    lemma_minimax_in_range(s, player, depth);
    lemma_alpha_beta_bounds(s, player, depth, -i32::MAX as int, i32::MAX as int);
    assert(-i32::MAX <= alpha_beta(s, player, depth, -i32::MAX as int, i32::MAX as int) <= i32::MAX)
        by {
        lemma_alpha_beta_in_range(s, player, depth, -i32::MAX as int, i32::MAX as int);
    }
}

/// Equivalent positions that the table files under one key get one value
/// from a search, for a game whose keys keep minimax scores.
pub proof fn lemma_shared_key_same_value<S: GameState>(s1: S, s2: S, player: i32, depth: int)
    requires
        keys_keep_scores::<S>(),
        is_player(player),
        0 <= depth,
        key_state(s1, player) == key_state(s2, player),
    ensures
        player * minimax(s1, player, depth) == player * minimax(s2, player, depth),
{
    assert(minimax(key_state(s1, player), 1, depth) == minimax(s1, player, depth));
    assert(minimax(key_state(s2, player), 1, depth) == minimax(s2, player, depth));
}

/// Swapping the players and the player to move negates the value seen by
/// player `1`, for a game whose keys keep minimax scores and whose swap undoes
/// itself.
pub proof fn lemma_swap_negates_value<S: GameState>(s: S, depth: int)
    requires
        keys_keep_scores::<S>(),
        0 <= depth,
        s.spec_swap().spec_swap() == s,
    ensures
        1 * minimax(s, 1, depth) == -((-1) * minimax(s.spec_swap(), -1i32, depth)),
{
    assert(minimax(key_state(s, 1), 1, depth) == minimax(s, 1, depth));
    assert(minimax(key_state(s.spec_swap(), -1i32), 1, depth) == minimax(s.spec_swap(), -1i32, depth));
}

/// An empty table tells no untruth.
pub proof fn lemma_empty_table_sound<S: GameState>()
    ensures
        table_sound(Seq::<Bound<S>>::empty()),
{
}

/// Compaction keeps a sound table sound.
pub proof fn lemma_compacted_sound<S: GameState>(rs: Seq<Bound<S>>)
    requires
        table_sound(rs),
    ensures
        table_sound(compacted(rs)),
{
    crate::table::lemma_compacted_from(rs);
}

} // verus!
