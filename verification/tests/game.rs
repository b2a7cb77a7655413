use connect4::{aggregate_scores, enumerate_tasks, verdict_of, Board, MemoTable, Solver, Verdict};

fn board_from(moves: &[u32]) -> Board {
    let mut b = Board::new();
    for &c in moves {
        assert!(c < 7 && b.can_play(c), "illegal move in test sequence");
        b.play(c);
    }
    b
}

fn small_solver() -> Solver {
    Solver::with_table_capacity(1 << 12)
}

#[test]
fn legality_empty_board() {
    let b = Board::new();
    for c in 0..7 {
        assert!(b.can_play(c));
    }
    assert_eq!(b.moves, 0);
}

#[test]
fn legality_column_fills_after_six_discs() {
    // Fill column 2 with six discs, alternating an opponent disc in column 5.
    let mut b = Board::new();
    for i in 0..11 {
        let col = if i % 2 == 0 { 2 } else { 5 };
        assert!(b.can_play(col));
        let before = b.moves;
        b.play(col);
        assert_eq!(b.moves, before + 1);
        // position stays a subset of mask
        assert_eq!(b.position & b.mask, b.position);
    }
    assert!(!b.can_play(2), "column with six discs must refuse a seventh");
    assert!(b.can_play(5));
}

#[test]
fn win_vertical_in_column_zero() {
    // Four discs of one player in column 0, opponent discs elsewhere.
    let b = board_from(&[0, 1, 0, 1, 0, 1]);
    assert!(!b.is_win(), "three in a column is no win");
    let b = board_from(&[0, 1, 0, 1, 0, 1, 0]);
    assert!(b.is_win(), "fourth disc in column 0 wins");
}

#[test]
fn win_horizontal_row_zero() {
    let b = board_from(&[0, 0, 1, 1, 2, 2, 3]);
    assert!(b.is_win(), "four across the bottom row wins");
}

#[test]
fn win_rising_diagonal() {
    // First player builds the diagonal (0,0) (1,1) (2,2) (3,3).
    let b = board_from(&[0, 1, 1, 2, 2, 3, 2, 3, 3, 5, 3]);
    assert!(b.is_win(), "four on the rising diagonal wins");
}

#[test]
fn win_falling_diagonal() {
    // The first player assembles (3,0), (2,1), (1,2), (0,3): a diagonal
    // falling to the right, detected along shift delta 6.
    let b = board_from(&[3, 2, 2, 1, 5, 1, 1, 0, 5, 0, 5, 0, 0]);
    assert!(b.is_win(), "four on the falling diagonal wins");
}

#[test]
fn no_win_for_delta_nine_spaced_cells() {
    // Cells (0,5), (2,0), (3,2), (4,4) sit 9 bit positions apart but form no
    // contiguous run in any board direction, so they are no win.
    let mask = (1u64 << 5) | (1u64 << 14) | (1u64 << 23) | (1u64 << 32);
    let b = Board { position: 0, mask, moves: 4 };
    assert!(!b.is_win());
}

#[test]
fn immediate_win_short_circuit_falling_diagonal() {
    // The mover owns (3,0), (2,1), (1,2); dropping a disc in column 0 lands
    // on (0,3) and completes the falling diagonal: (43 - 12) / 2 = 15.
    let b = board_from(&[3, 2, 2, 1, 5, 1, 1, 0, 5, 0, 5, 0]);
    assert_eq!(b.moves, 12);
    let mut s = small_solver();
    assert_eq!(s.solve(b, -22, 22, 0), 15);
}

#[test]
fn no_win_on_scattered_board() {
    let b = board_from(&[3, 3, 4, 4, 2, 2]);
    assert!(!b.is_win());
}

#[test]
fn key_same_cells_same_key() {
    // Different move orders, identical cells and parity.
    let a = board_from(&[0, 1, 2]);
    let b = board_from(&[2, 1, 0]);
    assert_eq!(a.position, b.position);
    assert_eq!(a.mask, b.mask);
    assert_eq!(a.key(), b.key());
}

#[test]
fn key_unique_over_small_enumeration() {
    // Exhaustively enumerate all boards reachable in up to four plies and
    // check that distinct (position, mask) pairs never share a key.
    let mut boards: Vec<(u64, u64, u64)> = Vec::new();
    let mut stack: Vec<(Board, u32)> = vec![(Board::new(), 0)];
    while let Some((b, depth)) = stack.pop() {
        boards.push((b.position, b.mask, b.key()));
        if depth < 4 {
            for c in 0..7 {
                if b.can_play(c) {
                    let mut nb = b;
                    nb.play(c);
                    stack.push((nb, depth + 1));
                }
            }
        }
    }
    let mut seen: std::collections::HashMap<u64, (u64, u64)> = std::collections::HashMap::new();
    for &(p, m, k) in &boards {
        match seen.get(&k) {
            None => {
                seen.insert(k, (p, m));
            }
            Some(&(p0, m0)) => {
                assert_eq!((p0, m0), (p, m), "two distinct boards share a key");
            }
        }
    }
}

#[test]
fn cache_round_trip() {
    let mut t = MemoTable::new(1 << 10);
    t.store(0x1234_5678_9abc_def0, -7, 4);
    assert_eq!(t.lookup(0x1234_5678_9abc_def0), (Some(-7), Some(4)));
}

#[test]
fn cache_round_trip_extremes() {
    let mut t = MemoTable::new(1 << 10);
    t.store(42, 21, 6);
    assert_eq!(t.lookup(42), (Some(21), Some(6)));
    t.store(42, -21, 0);
    assert_eq!(t.lookup(42), (Some(-21), Some(0)));
    // The packing inverts for the whole i8 domain, not just solver scores.
    t.store(42, 127, 5);
    assert_eq!(t.lookup(42), (Some(127), Some(5)));
    t.store(42, -128, 1);
    assert_eq!(t.lookup(42), (Some(-128), Some(1)));
}

#[test]
fn cache_miss_on_other_key() {
    let mut t = MemoTable::new(1 << 4);
    t.store(77, 3, 2);
    // A colliding store overwrites the slot; a lookup of a key that never
    // matched its slot's stored key reports a miss.
    let mut one_slot = MemoTable::new(1);
    one_slot.store(1, 5, 1);
    one_slot.store(2, -5, 3);
    assert_eq!(one_slot.lookup(1), (None, None));
    assert_eq!(one_slot.lookup(2), (Some(-5), Some(3)));
    assert_eq!(t.lookup(77), (Some(3), Some(2)));
}

#[test]
fn terminal_draw_full_board_scores_zero() {
    // Fill the whole board row by row: 42 legal moves.
    let mut b = Board::new();
    for _round in 0..6 {
        for c in 0..7 {
            assert!(b.can_play(c));
            b.play(c);
        }
    }
    assert_eq!(b.moves, 42);
    let mut s = small_solver();
    assert_eq!(s.solve(b, -22, 22, 0), 0);
}

#[test]
fn immediate_win_short_circuit() {
    // The mover has three discs in column 0 with the fourth cell open.
    let b = board_from(&[0, 1, 0, 1, 0, 1]);
    assert_eq!(b.moves, 6);
    let mut s = small_solver();
    // (SIZE + 1 - moves) / 2 = (42 + 1 - 6) / 2 = 18
    assert_eq!(s.solve(b, -22, 22, 0), 18);
}

#[test]
fn immediate_win_short_circuit_horizontal() {
    let b = board_from(&[1, 1, 2, 2, 3, 3]);
    let mut s = small_solver();
    // Either 0 or 4 completes the row; score is (43 - 6) / 2 = 18.
    assert_eq!(s.solve(b, -22, 22, 0), 18);
}

#[test]
fn solve_last_cell_completes_diagonal() {
    // Fill the board row by row but leave the last cell (6,5) open.  The
    // mover owns (3,2), (4,3), (5,4); the one legal move completes that
    // rising diagonal, an immediate win worth (43 - 41) / 2 = 1.
    let mut b = Board::new();
    for _round in 0..5 {
        for c in 0..7 {
            b.play(c);
        }
    }
    for c in 0..6 {
        b.play(c);
    }
    assert_eq!(b.moves, 41);
    let mut s = small_solver();
    assert_eq!(s.solve(b, -22, 22, 0), 1);
}

#[test]
fn solve_double_threat_is_a_forced_loss() {
    // The opponent owns (2,0), (3,0), (4,0) with both ends open; the mover
    // cannot win at once and can block only one end, so the opponent wins on
    // move 9.  From the mover's side that is -((43 - 8) / 2) = -17.
    let b = board_from(&[2, 2, 3, 3, 4, 4, 6]);
    assert_eq!(b.moves, 7);
    let mut s = small_solver();
    assert_eq!(s.solve(b, -22, 22, 0), -17);
}

#[test]
fn enumerate_tasks_from_center_opening() {
    let tasks = enumerate_tasks(3);
    // After one disc no second move wins, every second and third move is
    // legal: 7 * 7 work items, none a sentinel.
    assert_eq!(tasks.len(), 49);
    for &(c2, c3, pre) in &tasks {
        assert!(c2 < 7 && c3 < 7);
        assert_eq!(pre, 0);
    }
    for c2 in 0..7u32 {
        for c3 in 0..7u32 {
            assert!(tasks.contains(&(c2, c3, 0)));
        }
    }
}

#[test]
fn solve_task_returns_sentinel_score() {
    let mut s = small_solver();
    assert_eq!(s.solve_task(3, 2, 999, 21), (2, 21));
}

#[test]
fn aggregate_max_of_column_minima() {
    // Column 0 scores {5, -3}, column 1 scores {2}: max of minima is 2.
    let results = vec![(0u32, 5i8), (0, -3), (1, 2)];
    assert_eq!(aggregate_scores(&results), 2);
}

#[test]
fn aggregate_is_order_independent() {
    let a = vec![(0u32, 5i8), (0, -3), (1, 2), (4, 7), (4, 1)];
    let b = vec![(4u32, 1i8), (0, -3), (4, 7), (1, 2), (0, 5)];
    assert_eq!(aggregate_scores(&a), aggregate_scores(&b));
    assert_eq!(aggregate_scores(&a), 2);
}

#[test]
fn aggregate_empty_is_draw() {
    let results: Vec<(u32, i8)> = Vec::new();
    assert_eq!(aggregate_scores(&results), 0);
}

#[test]
fn verdict_classification() {
    assert_eq!(verdict_of(2), (Verdict::FirstPlayerWins, 3));
    assert_eq!(verdict_of(21), (Verdict::FirstPlayerWins, 41));
    assert_eq!(verdict_of(-4), (Verdict::SecondPlayerWins, 8));
    assert_eq!(verdict_of(-21), (Verdict::SecondPlayerWins, 42));
    assert_eq!(verdict_of(0), (Verdict::Draw, 0));
}

#[test]
fn fresh_table_matches_zero_key() {
    // The empty board's key is zero and every slot starts zeroed, so the
    // zero key reads back the zero entry: score 0, column 0.
    let t = MemoTable::new(1 << 8);
    let b = Board::new();
    assert_eq!(b.key(), 0);
    assert_eq!(t.lookup(0), (Some(0), Some(0)));
}
