use negamax_tt::{bot_play, negamax, negamax_table, negamax_value, GameState, Pile, Single, Table};

const INF: i32 = i32::MAX;

fn pile(stones: i32, last: i32) -> Pile {
    Pile { stones, last, mirrored: false }
}

#[test]
fn trivial_game_scores_three() {
    let mut t = Table::new();
    assert_eq!(negamax_value(&Single, 1, 3, &mut t), 3);
}

#[test]
fn trivial_game_leaf_for_second_player() {
    let mut t = Table::new();
    // Player -1 to move: player 1 has already won, so the search stops.
    assert_eq!(negamax_value(&Single, -1, 3, &mut t), 4);
    assert!(t.is_empty());
}

#[test]
fn plain_search_on_small_piles() {
    // A pile of three loses for the player to move; one of four wins.
    assert!(negamax(&pile(3, 0), 1, 6, -INF, INF) < 0);
    assert!(negamax(&pile(4, 0), 1, 6, -INF, INF) > 0);
    // Taking two from a pile of two wins at once, with 3 plies left after it.
    assert_eq!(negamax(&pile(2, 0), 1, 4, -INF, INF), 4);
}

#[test]
fn table_search_agrees_with_plain_search() {
    for stones in 0..7 {
        for depth in 0..7 {
            for player in [1, -1] {
                let s = pile(stones, 0);
                let mut t = Table::new();
                assert_eq!(
                    negamax_table(&s, player, depth, -INF, INF, &mut t),
                    negamax(&s, player, depth, -INF, INF)
                );
            }
        }
    }
}

#[test]
fn table_search_agrees_within_a_window() {
    let s = pile(5, 0);
    let mut t = Table::new();
    assert_eq!(negamax_table(&s, 1, 5, -2, 2, &mut t), negamax(&s, 1, 5, -2, 2));
    assert!(!t.is_empty());
}

#[test]
fn value_is_the_same_for_equivalent_positions() {
    for stones in 1..6 {
        let s = pile(stones, 0);
        let m = Pile { stones, last: 0, mirrored: true };
        let mut t1 = Table::new();
        let mut t2 = Table::new();
        assert_eq!(negamax_value(&s, 1, 5, &mut t1), negamax_value(&m, 1, 5, &mut t2));
    }
}

#[test]
fn value_changes_sign_with_the_point_of_view() {
    for stones in 1..6 {
        let s = pile(stones, 1);
        let mut w = s;
        w.swap();
        let mut t = Table::new();
        let a = negamax_value(&s, 1, 5, &mut t);
        let b = negamax_value(&w, -1, 5, &mut t);
        assert_eq!(a, -b);
    }
}

#[test]
fn earlier_end_scores_more() {
    let won = pile(0, 1);
    let lost = pile(0, -1);
    assert_eq!(negamax(&won, -1, 5, -INF, INF), -6);
    assert_eq!(negamax(&won, -1, 2, -INF, INF), -3);
    assert_eq!(negamax(&lost, 1, 5, -INF, INF), -6);
    assert_eq!(negamax(&lost, 1, 1, -INF, INF), -2);
}

#[test]
fn no_move_gives_the_lowest_score() {
    // Nobody has won an empty pile with no last player, and no move is left.
    assert_eq!(negamax(&pile(0, 0), 1, 3, -INF, INF), -INF);
}

#[test]
fn bot_plays_the_winning_move() {
    let mut t = Table::new();
    let moves = bot_play(&pile(4, 0), 1, 5, &mut t);
    assert_eq!(moves, vec![pile(3, 1)]);
}

#[test]
fn bot_keeps_all_equal_moves() {
    let mut t = Table::new();
    // From three stones both moves lose just as fast.
    let moves = bot_play(&pile(3, 0), 1, 5, &mut t);
    assert_eq!(moves, vec![pile(2, 1), pile(1, 1)]);
    let moves = bot_play(&pile(3, 0), 1, 0, &mut t);
    assert_eq!(moves, vec![pile(2, 1), pile(1, 1)]);
}

#[test]
fn bot_has_nothing_to_play_on_an_empty_pile() {
    let mut t = Table::new();
    let moves = bot_play(&pile(0, -1), 1, 3, &mut t);
    assert!(moves.is_empty());
}

#[test]
fn search_files_an_exact_root_record() {
    let s = pile(5, 0);
    let mut t = Table::new();
    let v = negamax_table(&s, 1, 5, -INF, INF, &mut t);
    assert_eq!(v, negamax(&s, 1, 5, -INF, INF));
    let mut a = -INF;
    let mut b = INF;
    assert_eq!(t.get(&s, 1, 5, &mut a, &mut b), Some(v));
}

#[test]
fn shallow_table_search_files_nothing() {
    let mut t = Table::new();
    negamax_table(&pile(5, 0), 1, 2, -INF, INF, &mut t);
    assert!(t.is_empty());
}

#[test]
fn repeated_search_reuses_the_table() {
    let s = pile(6, 0);
    let mut t = Table::new();
    let first = negamax_value(&s, 1, 6, &mut t);
    let n = t.len();
    let second = negamax_value(&s, 1, 6, &mut t);
    assert_eq!(first, second);
    assert_eq!(t.len(), n);
}

#[test]
fn trivial_game_leaves_one_exact_record() {
    let mut t = Table::new();
    assert_eq!(negamax_value(&Single, 1, 3, &mut t), 3);
    assert_eq!(t.len(), 1);
    let mut a = 0;
    let mut b = 1;
    assert_eq!(t.get(&Single, 1, 3, &mut a, &mut b), Some(3));
}

#[test]
fn trivial_game_best_move() {
    let mut t = Table::new();
    assert_eq!(bot_play(&Single, 1, 3, &mut t), vec![Single]);
    assert!(t.is_empty());
}

#[test]
fn bot_play_leaves_a_compact_table() {
    let mut t = Table::new();
    bot_play(&pile(6, 0), 1, 5, &mut t);
    let n = t.len();
    assert!(n > 0);
    t.clean();
    assert_eq!(t.len(), n);
}
