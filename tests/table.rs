use negamax_tt::{Pile, Table};

fn probe(t: &Table<Pile>, s: Pile, player: i32, depth: i32, a: i32, b: i32) -> (Option<i32>, i32, i32) {
    let mut a = a;
    let mut b = b;
    let r = t.get(&s, player, depth, &mut a, &mut b);
    (r, a, b)
}

fn pile(stones: i32, last: i32) -> Pile {
    Pile { stones, last, mirrored: false }
}

#[test]
fn new_table_is_empty() {
    let t: Table<Pile> = Table::new();
    assert!(t.is_empty());
    assert_eq!(t.len(), 0);
    assert_eq!(probe(&t, pile(1, 1), 1, 3, -10, 10), (None, -10, 10));
}

#[test]
fn exact_record_is_returned() {
    let mut t = Table::new();
    t.insert(pile(1, 1), 1, 3, -10, 10, 4);
    assert_eq!(t.len(), 1);
    assert!(!t.is_empty());
    assert_eq!(probe(&t, pile(1, 1), 1, 3, -10, 10), (Some(4), -10, 10));
    // Another depth is another key.
    assert_eq!(probe(&t, pile(1, 1), 1, 4, -10, 10), (None, -10, 10));
}

#[test]
fn upper_bound_narrows_beta() {
    let mut t = Table::new();
    // A score at or below alpha is an upper bound.
    t.insert(pile(1, 1), 1, 3, 5, 10, 5);
    assert_eq!(probe(&t, pile(1, 1), 1, 3, -10, 10), (None, -10, 5));
    // When the window closes, alpha is the score.
    assert_eq!(probe(&t, pile(1, 1), 1, 3, 7, 10), (Some(7), 7, 5));
}

#[test]
fn lower_bound_raises_alpha() {
    let mut t = Table::new();
    // A score at or above beta is a lower bound.
    t.insert(pile(1, 1), 1, 3, -10, 2, 6);
    assert_eq!(probe(&t, pile(1, 1), 1, 3, -10, 10), (None, 6, 10));
    assert_eq!(probe(&t, pile(1, 1), 1, 3, -10, 4), (Some(6), 6, 4));
}

#[test]
fn equivalent_states_share_records() {
    let mut t = Table::new();
    t.insert(Pile { stones: 1, last: 1, mirrored: true }, 1, 3, -10, 10, 4);
    assert_eq!(probe(&t, pile(1, 1), 1, 3, -10, 10), (Some(4), -10, 10));
}

#[test]
fn second_player_records_are_swapped() {
    let mut t = Table::new();
    t.insert(pile(1, 1), -1, 3, -10, 10, 4);
    assert_eq!(probe(&t, pile(1, 1), -1, 3, -10, 10), (Some(4), -10, 10));
    assert_eq!(probe(&t, pile(1, -1), 1, 3, -10, 10), (Some(4), -10, 10));
    assert_eq!(probe(&t, pile(1, 1), 1, 3, -10, 10), (None, -10, 10));
}

#[test]
fn clean_keeps_one_exact_record() {
    let mut t = Table::new();
    t.insert(pile(1, 1), 1, 3, -10, 10, 4);
    t.insert(pile(1, 1), 1, 3, -10, 10, 5);
    t.insert(pile(1, 1), 1, 3, 8, 10, 3);
    t.insert(pile(2, 1), 1, 3, 8, 10, 3);
    t.clean();
    assert_eq!(t.len(), 2);
    assert_eq!(probe(&t, pile(1, 1), 1, 3, -10, 10), (Some(4), -10, 10));
    assert_eq!(probe(&t, pile(2, 1), 1, 3, -10, 10), (None, -10, 3));
}

#[test]
fn clean_keeps_the_tightest_bounds() {
    let mut t = Table::new();
    t.insert(pile(1, 1), 1, 3, 8, 10, 6);
    t.insert(pile(1, 1), 1, 3, 8, 10, 3);
    t.insert(pile(1, 1), 1, 3, -10, -5, -2);
    t.insert(pile(1, 1), 1, 3, -10, -5, -1);
    t.clean();
    assert_eq!(t.len(), 2);
    assert_eq!(probe(&t, pile(1, 1), 1, 3, -10, 10), (None, -1, 3));
}

#[test]
fn clean_twice_is_clean_once() {
    let mut t = Table::new();
    t.insert(pile(1, 1), 1, 3, 8, 10, 6);
    t.insert(pile(1, 1), 1, 3, 8, 10, 6);
    t.insert(pile(1, 1), 1, 3, -10, -5, -2);
    t.insert(pile(3, 1), 1, 4, -10, 10, 0);
    t.clean();
    let once = t.len();
    assert_eq!(once, 3);
    t.clean();
    assert_eq!(t.len(), once);
    assert_eq!(probe(&t, pile(1, 1), 1, 3, -10, 10), (None, -2, 6));
    assert_eq!(probe(&t, pile(3, 1), 1, 4, -10, 10), (Some(0), -10, 10));
}

#[test]
fn clean_never_drops_a_key() {
    let mut t = Table::new();
    t.insert(pile(1, 1), 1, 3, 8, 10, 6);
    t.insert(pile(1, 1), 1, 3, 8, 10, 2);
    t.insert(pile(2, 1), 1, 3, -10, -5, -2);
    t.insert(pile(2, 1), 1, 3, -10, -5, -2);
    t.insert(pile(4, 1), 1, 5, -10, 10, 1);
    t.insert(pile(4, 1), 1, 5, -10, 10, 1);
    t.clean();
    assert_eq!(t.len(), 3);
    assert_eq!(probe(&t, pile(1, 1), 1, 3, -10, 10), (None, -10, 2));
    assert_eq!(probe(&t, pile(2, 1), 1, 3, -10, 10), (None, -2, 10));
    assert_eq!(probe(&t, pile(4, 1), 1, 5, -10, 10), (Some(1), -10, 10));
}

#[test]
fn clean_leaves_a_compact_table_alone() {
    let mut t = Table::new();
    t.insert(pile(1, 1), 1, 3, 8, 10, 6);
    t.insert(pile(1, 1), 1, 3, -10, -5, -2);
    t.clean();
    assert_eq!(t.len(), 2);
    assert_eq!(probe(&t, pile(1, 1), 1, 3, -10, 10), (None, -2, 6));
    assert_eq!(probe(&t, pile(1, 1), 1, 3, 7, 10), (Some(7), 7, 6));
}

#[test]
fn default_table_is_empty() {
    let t: Table<Pile> = Table::default();
    assert!(t.is_empty());
}
