//! The executable search: plain and table-backed negamax, the value of a
//! position, and the choice of best moves.
use crate::game::{key_state, GameState};
use crate::model::{
    alpha_beta, alpha_beta_from, best_moves, best_upto, fail_soft, is_leaf, is_player, keys_keep_scores,
    lemma_alpha_beta_bounds, lemma_best_upto_grows, lemma_compacted_sound, lemma_full_window_exact,
    lemma_minimax_in_range, lemma_no_move_above_top, lemma_probe_sound, lemma_scores_fit_smaller,
    lemma_terminal_in_range, minimax, move_score, moves_scoring, record_sound, scores_fit,
    play_from, table_search, table_search_from, table_sound, terminal_score, top_score,
};
use crate::table::{
    compacted, extends, lemma_compacted_idempotent, lemma_compacted_keeps_keys, probe, same_key, Bound,
    Table,
};
use vstd::prelude::*;

verus! {

/// The score of a position where the search stops.
fn leaf_score<S: GameState>(state: &S, player: i32, depth: i32) -> (r: i32)
    requires
        is_player(player),
        0 <= depth < i32::MAX,
        scores_fit::<S>(depth as int),
    ensures
        r == terminal_score(*state, player, depth as int),
        -i32::MAX <= r <= i32::MAX,
{
    let v = state.value();
    proof {
        lemma_terminal_in_range(*state, player, depth as int);
    }
    player * v * (depth + 1)
}

/// Plain alpha-beta search: the score of `state` for `player`, who is to
/// move, looking `depth` plies ahead within the window `alpha`..`beta`.
pub fn negamax<S: GameState>(state: &S, player: i32, depth: i32, alpha: i32, beta: i32) -> (r: i32)
    requires
        is_player(player),
        0 <= depth < i32::MAX,
        scores_fit::<S>(depth as int),
        -i32::MAX <= alpha <= i32::MAX,
        -i32::MAX <= beta <= i32::MAX,
    ensures
        r == alpha_beta(*state, player, depth as int, alpha as int, beta as int),
        -i32::MAX <= r <= i32::MAX,
        alpha < beta ==> fail_soft(r as int, minimax(*state, player, depth as int), alpha as int, beta as int),
        alpha == -i32::MAX && beta == i32::MAX ==> r == minimax(*state, player, depth as int),
    decreases depth,
{
    proof {
        if alpha < beta {
            lemma_alpha_beta_bounds(*state, player, depth as int, alpha as int, beta as int);
        }
        lemma_minimax_in_range(*state, player, depth as int);
        if alpha == -i32::MAX && beta == i32::MAX {
            lemma_full_window_exact(
                alpha_beta(*state, player, depth as int, alpha as int, beta as int),
                minimax(*state, player, depth as int),
            );
        }
    }
    if depth == 0 || state.win(-player) {
        return leaf_score(state, player, depth);
    }
    proof {
        lemma_scores_fit_smaller::<S>(depth as int, depth - 1);
    }
    let children = state.possibilities(player);
    let ghost cs = children@;
    let mut best: i32 = -i32::MAX;
    let mut a: i32 = alpha;
    let mut cut = false;
    let mut i: usize = 0;
    while i < children.len() && !cut
        invariant
            cs == children@,
            cs == state.spec_possibilities(player),
            !is_leaf(*state, player, depth as int),
            is_player(player),
            0 < depth < i32::MAX,
            scores_fit::<S>(depth - 1),
            0 <= i <= cs.len(),
            -i32::MAX <= a <= i32::MAX,
            -i32::MAX <= beta <= i32::MAX,
            -i32::MAX <= best <= i32::MAX,
            cut ==> alpha_beta(*state, player, depth as int, alpha as int, beta as int) == best,
            !cut ==> alpha_beta(*state, player, depth as int, alpha as int, beta as int)
                == alpha_beta_from(cs, i as int, player, depth as int, a as int, beta as int, best as int),
        decreases cs.len() - i, if cut { 0int } else { 1int },
    {
        let v = -negamax(&children[i], -player, depth - 1, -beta, -a);
        if v > best {
            best = v;
        }
        if v > a {
            a = v;
        }
        if a >= beta {
            cut = true;
        }
        i += 1;
    }
    best
}

/// Alpha-beta search that reads and fills `table`: the score of `state` for
/// `player`, who is to move, looking `depth` plies ahead within the window
/// `alpha`..`beta`. Up to two plies it is plain search.
pub fn negamax_table<S: GameState>(
    state: &S,
    player: i32,
    depth: i32,
    alpha: i32,
    beta: i32,
    table: &mut Table<S>,
) -> (r: i32)
    requires
        old(table).wf(),
        is_player(player),
        0 <= depth < i32::MAX,
        scores_fit::<S>(depth as int),
        -i32::MAX <= alpha <= i32::MAX,
        -i32::MAX <= beta <= i32::MAX,
    ensures
        final(table).wf(),
        extends(old(table)@, final(table)@),
        -i32::MAX <= r <= i32::MAX,
        is_leaf(*state, player, depth as int) ==> r == terminal_score(*state, player, depth as int),
        depth <= 2 ==> r == alpha_beta(*state, player, depth as int, alpha as int, beta as int),
        keys_keep_scores::<S>() && table_sound(old(table)@) && alpha < beta ==> {
            &&& table_sound(final(table)@)
            &&& fail_soft(r as int, minimax(*state, player, depth as int), alpha as int, beta as int)
        },
        keys_keep_scores::<S>() && table_sound(old(table)@) && alpha == -i32::MAX && beta == i32::MAX
            ==> r == minimax(*state, player, depth as int),
        r as int == table_search(*state, player, depth as int, alpha as int, beta as int, old(table)@).0,
        final(table)@ == table_search(
            *state,
            player,
            depth as int,
            alpha as int,
            beta as int,
            old(table)@,
        ).1,
        is_leaf(*state, player, depth as int) || depth <= 2 ==> final(table)@ == old(table)@,
        !is_leaf(*state, player, depth as int) && depth > 2 ==> (probe(
            old(table)@,
            0,
            depth as int,
            key_state(*state, player),
            alpha as int,
            beta as int,
        ).0 matches Some(v) ==> r == v && final(table)@ == old(table)@),
        forall|k: int|
            old(table)@.len() <= k < final(table)@.len() ==> #[trigger] final(table)@[k].depth >= 3,
    decreases depth,
{
    proof {
        lemma_minimax_in_range(*state, player, depth as int);
    }
    let ghost g = keys_keep_scores::<S>() && table_sound(old(table)@) && alpha < beta;
    let ghost m = minimax(*state, player, depth as int);
    proof {
        if alpha < beta {
            lemma_alpha_beta_bounds(*state, player, depth as int, alpha as int, beta as int);
        }
    }
    if depth == 0 || state.win(-player) {
        return leaf_score(state, player, depth);
    }
    if depth <= 2 {
        return negamax(state, player, depth, alpha, beta);
    }
    let mut a: i32 = alpha;
    let mut b: i32 = beta;
    let probed = table.get(state, player, depth, &mut a, &mut b);
    proof {
        if g {
            lemma_probe_sound(
                table@,
                0,
                depth as int,
                key_state(*state, player),
                m,
                alpha as int,
                beta as int,
                alpha as int,
                beta as int,
            );
        }
    }
    if let Some(v) = probed {
        return v;
    }
    let ghost lo = a as int;
    let ghost hi = b as int;
    proof {
        lemma_scores_fit_smaller::<S>(depth as int, depth - 1);
    }
    let children = state.possibilities(player);
    let ghost cs = children@;
    let ghost t0 = old(table)@;
    let mut best: i32 = -i32::MAX;
    let mut cut = false;
    let mut i: usize = 0;
    while i < children.len() && !cut
        invariant
            cs == children@,
            cs == state.spec_possibilities(player),
            table.wf(),
            extends(t0, table@),
            is_player(player),
            2 < depth < i32::MAX,
            scores_fit::<S>(depth - 1),
            0 <= i <= cs.len(),
            -i32::MAX <= a <= i32::MAX,
            -i32::MAX <= b <= i32::MAX,
            -i32::MAX <= best <= i32::MAX,
            b == hi,
            t0 == old(table)@,
            !cut ==> table_search_from(cs, 0, player, depth as int, lo, hi, -i32::MAX as int, t0)
                == table_search_from(cs, i as int, player, depth as int, a as int, hi, best as int, table@),
            cut ==> table_search_from(cs, 0, player, depth as int, lo, hi, -i32::MAX as int, t0) == (
            best as int, table@),
            forall|k: int| t0.len() <= k < table@.len() ==> #[trigger] table@[k].depth >= 3,
            g ==> {
                &&& keys_keep_scores::<S>()
                &&& table_sound(table@)
                &&& alpha <= lo < hi <= beta
                &&& (lo > alpha ==> m >= lo)
                &&& (hi < beta ==> m <= hi)
                &&& m == best_upto(cs, cs.len() as int, player, depth as int)
                &&& !cut ==> {
                    &&& best_upto(cs, i as int, player, depth as int) <= best
                    &&& (best > lo ==> best_upto(cs, i as int, player, depth as int) == best)
                    &&& a == (if lo > best { lo } else { best as int })
                    &&& a < hi
                }
                &&& cut ==> best >= hi && m >= best
            },
        decreases cs.len() - i, if cut { 0int } else { 1int },
    {
        let ghost t_before = table@;
        let v = -negamax_table(&children[i], -player, depth - 1, -b, -a, table);
        proof {
            if g {
                let ghost c = cs[i as int];
                assert(best_upto(cs, i + 1, player, depth as int) == if -minimax(
                    c,
                    (-player) as i32,
                    depth - 1,
                ) > best_upto(cs, i as int, player, depth as int) {
                    -minimax(c, (-player) as i32, depth - 1)
                } else {
                    best_upto(cs, i as int, player, depth as int)
                });
                lemma_best_upto_grows(cs, i + 1, cs.len() as int, player, depth as int);
            }
        }
        if v > best {
            best = v;
        }
        if v > a {
            a = v;
        }
        if a >= b {
            cut = true;
        }
        i += 1;
    }
    let ghost t_loop = table@;
    table.insert(state.duplicate(), player, depth, alpha, beta, best);
    proof {
        assert(forall|k: int| 0 <= k < t_loop.len() ==> table@[k] == t_loop[k]);
        if g {
            assert(minimax(key_state(*state, player), 1, depth as int) == m);
            assert forall|k: int| 0 <= k < table@.len() implies record_sound(#[trigger] table@[k]) by {
                if k < t_loop.len() {
                    assert(table@[k] == t_loop[k]);
                }
            }
        }
    }
    best
}

/// The value of `state` seen by player `1`, with `player` to move, searched
/// `depth` plies ahead with `table`.
pub fn negamax_value<S: GameState>(state: &S, player: i32, depth: i32, table: &mut Table<S>) -> (r:
    i32)
    requires
        old(table).wf(),
        is_player(player),
        0 <= depth < i32::MAX,
        scores_fit::<S>(depth as int),
    ensures
        final(table).wf(),
        extends(old(table)@, final(table)@),
        r == player * table_search(
            *state,
            player,
            depth as int,
            -i32::MAX as int,
            i32::MAX as int,
            old(table)@,
        ).0,
        final(table)@ == table_search(
            *state,
            player,
            depth as int,
            -i32::MAX as int,
            i32::MAX as int,
            old(table)@,
        ).1,
        is_leaf(*state, player, depth as int) ==> r == state.spec_value() * (depth + 1),
        depth <= 2 ==> r == player * minimax(*state, player, depth as int),
        keys_keep_scores::<S>() && table_sound(old(table)@) ==> {
            &&& table_sound(final(table)@)
            &&& r == player * minimax(*state, player, depth as int)
        },
{
    let v = negamax_table(state, player, depth, -i32::MAX, i32::MAX, table);
    proof {
        lemma_minimax_in_range(*state, player, depth as int);
        if depth <= 2 {
            lemma_alpha_beta_bounds(*state, player, depth as int, -i32::MAX as int, i32::MAX as int);
        }
        if is_leaf(*state, player, depth as int) {
            assert(player * (player * state.spec_value() * (depth + 1)) == state.spec_value() * (
            depth + 1)) by (nonlinear_arith)
                requires
                    player == 1 || player == -1,
            ;
        }
    }
    player * v
}

/// The moves of `player` from `state` that score best when each reply is
/// searched `depth` plies ahead with `table`, in the order they were found.
/// The table is compacted afterwards.
pub fn bot_play<S: GameState>(state: &S, player: i32, depth: i32, table: &mut Table<S>) -> (r: Vec<
    S,
>)
    requires
        old(table).wf(),
        is_player(player),
        0 <= depth < i32::MAX,
        scores_fit::<S>(depth as int),
    ensures
        final(table).wf(),
        forall|k: int| 0 <= k < r@.len() ==> state.spec_possibilities(player).contains(#[trigger] r@[k]),
        (r@.len() == 0) == (state.spec_possibilities(player).len() == 0),
        keys_keep_scores::<S>() && table_sound(old(table)@) ==> {
            &&& table_sound(final(table)@)
            &&& r@ == best_moves(state.spec_possibilities(player), player, depth as int)
        },
        ({
            let p = play_from(
                state.spec_possibilities(player),
                0,
                player,
                depth as int,
                -i32::MAX as int,
                Seq::empty(),
                old(table)@,
            );
            &&& r@ == p.0
            &&& final(table)@ == compacted(p.1)
        }),
        exists|t: Seq<Bound<S>>| extends(old(table)@, t) && final(table)@ == compacted(t),
        compacted(final(table)@) == final(table)@,
        forall|i: int|
            #![trigger old(table)@[i]]
            0 <= i < old(table)@.len() ==> exists|a: int|
                0 <= a < final(table)@.len() && same_key(#[trigger] final(table)@[a], old(table)@[i]),
{
    let ghost g = keys_keep_scores::<S>() && table_sound(old(table)@);
    let ghost t0 = old(table)@;
    let children = state.possibilities(player);
    let ghost cs = children@;
    let mut best: i32 = -i32::MAX;
    let mut results: Vec<S> = Vec::new();
    let mut i: usize = 0;
    while i < children.len()
        invariant
            cs == children@,
            cs == state.spec_possibilities(player),
            table.wf(),
            is_player(player),
            0 <= depth < i32::MAX,
            scores_fit::<S>(depth as int),
            0 <= i <= cs.len(),
            -i32::MAX <= best <= i32::MAX,
            forall|k: int| 0 <= k < results@.len() ==> cs.contains(#[trigger] results@[k]),
            (results@.len() == 0) == (i == 0),
            i == 0 ==> best == -i32::MAX,
            t0 == old(table)@,
            extends(t0, table@),
            play_from(cs, 0, player, depth as int, -i32::MAX as int, Seq::empty(), t0) == play_from(
                cs,
                i as int,
                player,
                depth as int,
                best as int,
                results@,
                table@,
            ),
            g ==> {
                &&& keys_keep_scores::<S>()
                &&& table_sound(table@)
                &&& best == top_score(cs, i as int, player, depth as int)
                &&& results@ == moves_scoring(cs, i as int, player, depth as int, best as int)
            },
        decreases cs.len() - i,
    {
        let v = -negamax_table(&children[i], -player, depth, -i32::MAX, i32::MAX, table);
        let ghost best0 = best as int;
        let ghost found0 = results@;
        proof {
            if g {
                assert(v == move_score(cs[i as int], player, depth as int));
                if v > best {
                    lemma_no_move_above_top(cs, i as int, player, depth as int, v as int);
                }
            }
        }
        if v > best {
            best = v;
            results.clear();
        }
        if v == best {
            let c = children[i].duplicate();
            proof {
                assert(cs[i as int] == c);
            }
            results.push(c);
        }
        proof {
            if v == best0 {
                assert(results@ =~= found0.push(cs[i as int]));
            } else if v > best0 {
                assert(results@ =~= seq![cs[i as int]]);
            }
            if g {
                assert(best == top_score(cs, i + 1, player, depth as int));
                assert(results@ =~= moves_scoring(cs, i + 1, player, depth as int, best as int));
            }
        }
        i += 1;
    }
    let ghost t_loop = table@;
    table.clean();
    proof {
        if g {
            lemma_compacted_sound(t_loop);
        }
        lemma_compacted_idempotent(t_loop);
        assert forall|k: int| #![trigger t0[k]] 0 <= k < t0.len() implies exists|a: int|
            0 <= a < table@.len() && same_key(#[trigger] table@[a], t0[k]) by {
            assert(t_loop[k] == t0[k]);
            lemma_compacted_keeps_keys(t_loop, k);
        }
    }
    results
}

} // verus!
