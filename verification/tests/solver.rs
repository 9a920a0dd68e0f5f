use puzzle_search::puzzle::Puzzle;
use puzzle_search::search::{dfs, iddfs, SearchNode};

/// Builds a state from literal `(position, piece)` pairs.
fn state(pairs: &[(u16, u16)]) -> Puzzle {
    let mut p = Puzzle::new();
    for &(k, v) in pairs {
        p.insert(k, v);
    }
    p
}

/// A 4-cycle sending each listed position to the next (wrapping around).
fn four_cycle(a: u16, b: u16, c: u16, d: u16) -> Puzzle {
    state(&[(a, b), (b, c), (c, d), (d, a)])
}

fn root(p: Puzzle) -> SearchNode {
    SearchNode { p, moves_taken: Vec::new() }
}

#[test]
fn empty_state_is_solved() {
    assert!(Puzzle::new().is_solved());
}

#[test]
fn identity_is_solved_for_every_size() {
    assert!(Puzzle::new_full_solved(0).is_solved());
    assert!(Puzzle::new_full_solved(1).is_solved());
    assert!(Puzzle::new_full_solved(5).is_solved());
    assert!(Puzzle::new_full_solved(24).is_solved());
}

#[test]
fn insert_stores_and_overwrites() {
    let mut p = Puzzle::new();
    p.insert(3, 7);
    assert_eq!(p.get(3), Some(7));
    assert_eq!(p.get(4), None);
    p.insert(3, 2);
    assert_eq!(p.get(3), Some(2));
}

#[test]
fn non_identity_entry_is_not_solved() {
    let p = state(&[(0, 1), (1, 0)]);
    assert!(!p.is_solved());
}

#[test]
fn stored_identity_entries_are_solved() {
    let p = state(&[(5, 5), (9, 9)]);
    assert_eq!(p.get(5), Some(5));
    assert!(p.is_solved());
}

#[test]
fn compose_with_identity_on_the_right_keeps_the_state() {
    let c = four_cycle(0, 1, 2, 3);
    let r = c.compose(&Puzzle::new_full_solved(10));
    assert_eq!(r.get(0), Some(1));
    assert_eq!(r.get(1), Some(2));
    assert_eq!(r.get(2), Some(3));
    assert_eq!(r.get(3), Some(0));
    assert_eq!(r.get(4), None);
}

#[test]
fn compose_identity_on_the_left_agrees_on_the_state_domain() {
    let c = four_cycle(0, 1, 2, 3);
    let r = Puzzle::new_full_solved(10).compose(&c);
    assert_eq!(r.get(0), Some(1));
    assert_eq!(r.get(1), Some(2));
    assert_eq!(r.get(2), Some(3));
    assert_eq!(r.get(3), Some(0));
    // Positions the state does not store stay fixed ...
    assert_eq!(r.get(7), Some(7));
    // ... and the result's domain is the identity's, not the state's.
    assert_eq!(r.get(10), None);
}

#[test]
fn compose_iterates_only_the_left_domain() {
    let a = state(&[(0, 1), (1, 0)]);
    let b = state(&[(2, 3), (3, 2)]);
    let r = a.compose(&b);
    // b's entries for positions a does not store are dropped.
    assert_eq!(r.get(2), None);
    assert_eq!(r.get(3), None);
    assert_eq!(r.get(0), Some(1));
    assert_eq!(r.get(1), Some(0));
}

#[test]
fn compose_routes_pieces_through_the_right_state() {
    let a = state(&[(0, 2), (2, 0)]);
    let b = state(&[(2, 3), (3, 2)]);
    let r = a.compose(&b);
    // Position 0 holds piece 2, which b sends to 3.
    assert_eq!(r.get(0), Some(3));
    // Position 2 holds piece 0, which b does not store.
    assert_eq!(r.get(2), Some(0));
}

#[test]
fn inverse_swaps_every_pair() {
    let c = four_cycle(0, 1, 2, 3);
    let inv = c.inverse();
    assert_eq!(inv.get(1), Some(0));
    assert_eq!(inv.get(2), Some(1));
    assert_eq!(inv.get(3), Some(2));
    assert_eq!(inv.get(0), Some(3));
}

#[test]
fn inverse_overwrites_on_duplicate_pieces() {
    // Not a bijection: both positions hold piece 5.  The entry at the
    // higher position wins.
    let p = state(&[(0, 5), (1, 5)]);
    let inv = p.inverse();
    assert_eq!(inv.get(5), Some(1));
    assert_eq!(inv.get(0), None);
}

#[test]
fn inverse_then_compose_is_solved() {
    let c = four_cycle(3, 10, 23, 15);
    assert!(c.inverse().compose(&c).is_solved());
}

#[test]
fn single_identity_move_set_solved_start() {
    let move_set = vec![Puzzle::new_full_solved(4)];
    let node = root(Puzzle::new_full_solved(4));
    let found = dfs(0, 3, &node, &move_set).expect("a solved start stays solved");
    assert_eq!(found.moves_taken, vec![0, 0, 0]);
    assert!(found.p.is_solved());
}

#[test]
fn single_identity_move_set_unsolved_start() {
    let move_set = vec![Puzzle::new_full_solved(4)];
    let node = root(state(&[(0, 1), (1, 0)]));
    assert!(dfs(0, 3, &node, &move_set).is_none());
}

#[test]
fn solved_check_runs_only_at_the_target_depth() {
    // The start is already solved, but with one swap as the only move no
    // sequence of exactly length 1 solves.
    let swap = state(&[(0, 1), (1, 0)]);
    let node = root(Puzzle::new_full_solved(4));
    assert!(dfs(0, 1, &node, &vec![swap.clone()]).is_none());
    // At length 2 the swap undoes itself.
    let found = dfs(0, 2, &node, &vec![swap]).expect("two swaps return to solved");
    assert_eq!(found.moves_taken, vec![0, 0]);
}

#[test]
fn dfs_returns_the_lexicographically_first_solution() {
    let swap = state(&[(0, 1), (1, 0)]);
    // Both generators solve the start in one move; index 0 must win.
    let move_set = vec![swap.clone(), swap.clone()];
    let node = root(Puzzle::new_full_solved(2).compose(&swap));
    let found = dfs(0, 1, &node, &move_set).expect("either generator solves");
    assert_eq!(found.moves_taken, vec![0]);
    // With a useless generator first, the solving index is reported.
    let move_set = vec![Puzzle::new_full_solved(2), swap.clone()];
    let node = root(Puzzle::new_full_solved(2).compose(&swap));
    let found = dfs(0, 1, &node, &move_set).expect("the second generator solves");
    assert_eq!(found.moves_taken, vec![1]);
}

#[test]
fn scrambled_state_is_solved_by_the_inverse_moves() {
    // Three 4-cycles on pairwise disjoint position sets.
    let r = four_cycle(0, 1, 2, 3);
    let u = four_cycle(4, 5, 6, 7);
    let f = four_cycle(8, 9, 10, 11);
    // Scramble of length 2.
    let start = Puzzle::new_full_solved(12).compose(&r).compose(&u);
    assert!(!start.is_solved());
    let move_set = vec![r.inverse(), u.inverse(), f.inverse()];
    let node = root(start.clone());
    let found = dfs(0, 2, &node, &move_set).expect("the inverse moves undo the scramble");
    assert!(found.p.is_solved());
    // The reported sequence really solves the scramble.
    let mut replayed = start;
    for &i in &found.moves_taken {
        replayed = replayed.compose(&move_set[i]);
    }
    assert!(replayed.is_solved());
}

#[test]
fn a_move_then_its_inverse_returns_to_solved() {
    let r = four_cycle(0, 1, 2, 3);
    let p = Puzzle::new_full_solved(12).compose(&r).compose(&r.inverse());
    assert!(p.is_solved());
}

#[test]
fn zero_ceiling_reports_no_solution() {
    let swap = state(&[(0, 1), (1, 0)]);
    let move_set = vec![swap.clone()];
    // Even a solved start goes unreported: depth 0 is never attempted.
    assert!(iddfs(0, Puzzle::new_full_solved(4), &move_set).is_none());
    assert!(iddfs(0, swap, &move_set).is_none());
}

#[test]
fn iddfs_reports_the_shortest_solution_below_the_ceiling() {
    let u = four_cycle(4, 5, 6, 7);
    let start = Puzzle::new_full_solved(8).compose(&u);
    let move_set = vec![u.inverse(), u.clone()];
    let found = iddfs(3, start, &move_set).expect("one inverse move solves");
    assert_eq!(found, vec![0]);
}

#[test]
fn iddfs_never_attempts_the_ceiling_itself() {
    let s01 = state(&[(0, 1), (1, 0)]);
    let s23 = state(&[(2, 3), (3, 2)]);
    let start = Puzzle::new_full_solved(4).compose(&s01).compose(&s23);
    let move_set = vec![s01, s23];
    // The shortest solution has length 2, so a ceiling of 2 finds nothing.
    assert!(iddfs(2, start.clone(), &move_set).is_none());
    let found = iddfs(3, start, &move_set).expect("depth 2 is attempted below ceiling 3");
    assert_eq!(found.len(), 2);
}

#[test]
fn multiply_extends_a_node_without_touching_it() {
    let swap = state(&[(0, 1), (1, 0)]);
    let move_set = vec![swap];
    let node = root(Puzzle::new_full_solved(2));
    let child = node.multiply(0, &move_set);
    assert_eq!(child.moves_taken, vec![0]);
    assert!(!child.p.is_solved());
    assert_eq!(node.moves_taken.len(), 0);
    assert!(node.p.is_solved());
}
