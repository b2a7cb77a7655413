use vstd::prelude::*;

use crate::board::{
    col_height, has_winning_move, key_of, lemma_key_injective, lemma_key_of_int,
    lemma_play_result_wf, play_result, stone_count, winning_move, Board, SIZE,
};
use crate::table::{lemma_slot_in_range, unpack_score, MemoTable};

verus! {

/// The recursive negamax alpha-beta searcher: a memoization table and a node
/// counter kept for throughput reporting only.
pub struct Solver {
    pub table: MemoTable,
    pub nodes: u64,
}

/// The score a win at the current move count earns: half the cells that
/// remain to the mover, counted optimistically.
pub open spec fn win_score(moves: u32) -> int {
    (43 - moves) / 2
}

/// The tightest score the cells still empty allow once no immediate win
/// exists: the bound `beta` is clamped to.
pub open spec fn bound_score(moves: u32) -> int {
    (41 - moves) / 2
}

/// Column `c` may be played on `b`.
pub open spec fn legal_col(b: Board, c: u32) -> bool {
    c < 7 && col_height(b.mask, c as u64) < 6
}

/// The game-theoretic value of a position, from the mover's perspective: a
/// full board is a drawn zero; an immediate win is worth `win_score`; and
/// otherwise the mover picks the reply whose negated value is greatest.
pub open spec fn game_value(b: Board) -> int
    decreases 42 - b.moves, 1int, 0int,
{
    if b.moves >= 42 {
        0
    } else if has_winning_move(b) {
        win_score(b.moves)
    } else {
        best_reply(b, 7)
    }
}

/// The greatest negated child value over the legal columns below `k`, or
/// -22 when none is legal.
pub open spec fn best_reply(b: Board, k: int) -> int
    decreases 42 - b.moves, 0int, k,
{
    if k <= 0 || b.moves >= 42 {
        -22
    } else {
        let rest = best_reply(b, k - 1);
        if legal_col(b, (k - 1) as u32) {
            let v = -game_value(play_result(b, (k - 1) as u32));
            if v > rest {
                v
            } else {
                rest
            }
        } else {
            rest
        }
    }
}

/// `best_reply` dominates every legal column it covers.
proof fn lemma_best_reply_ge(b: Board, k: int, c: u32)
    requires
        0 <= c < k <= 7,
        b.moves < 42,
        legal_col(b, c),
    ensures
        best_reply(b, k) >= -game_value(play_result(b, c)),
    decreases k,
{
    if c < k - 1 {
        lemma_best_reply_ge(b, k - 1, c);
    }
}

/// `best_reply` is either the empty -22 or attained at a legal column.
proof fn lemma_best_reply_attained(b: Board, k: int)
    requires
        0 <= k <= 7,
        b.moves < 42,
    ensures
        best_reply(b, k) == -22 || exists|c: u32|
            legal_col(b, c) && c < k && best_reply(b, k) == -(#[trigger] game_value(
                play_result(b, c),
            )),
    decreases k,
{
    if k > 0 {
        lemma_best_reply_attained(b, k - 1);
        let rest = best_reply(b, k - 1);
        let ck = (k - 1) as u32;
        if legal_col(b, ck) && -game_value(play_result(b, ck)) > rest {
            assert(legal_col(b, ck) && ck < k && best_reply(b, k) == -(game_value(
                play_result(b, ck),
            )));
        } else if best_reply(b, k) != -22 {
            assert(best_reply(b, k) == rest && rest != -22);
            let c = choose|c: u32|
                legal_col(b, c) && c < k - 1 && rest == -(#[trigger] game_value(
                    play_result(b, c),
                ));
            assert(legal_col(b, c) && c < k && best_reply(b, k) == -(game_value(
                play_result(b, c),
            )));
        }
    }
}

/// The value of a position lies between a loss on the opponent's next move
/// and a win now; without an immediate win it cannot beat the clamp bound.
pub proof fn lemma_game_value_range(b: Board)
    requires
        b.wf(),
    ensures
        -win_score((b.moves + 1) as u32) <= game_value(b) <= win_score(b.moves),
        b.moves < 42 && !has_winning_move(b) ==> game_value(b) <= bound_score(b.moves),
    decreases 42 - b.moves, 8int,
{
    if b.moves >= 42 {
    } else if has_winning_move(b) {
    } else {
        lemma_best_reply_bounds(b, 7);
        lemma_board_has_room(b);
        let c = choose|c: u64| c < 7 && col_height(b.mask, c) < 6;
        assert(legal_col(b, c as u32));
        lemma_play_result_wf(b, c as u32);
        lemma_game_value_range(play_result(b, c as u32));
        lemma_best_reply_ge(b, 7, c as u32);
        assert(best_reply(b, 7) >= -win_score((b.moves + 1) as u32));
    }
}

/// Every term of `best_reply` stays at or below the clamp bound, because a
/// child's value is at least a loss on its own opponent's next move.
proof fn lemma_best_reply_bounds(b: Board, k: int)
    requires
        b.wf(),
        b.moves < 42,
        0 <= k <= 7,
    ensures
        best_reply(b, k) <= bound_score(b.moves),
    decreases 42 - b.moves, k,
{
    if k > 0 {
        lemma_best_reply_bounds(b, k - 1);
        if legal_col(b, (k - 1) as u32) {
            lemma_play_result_wf(b, (k - 1) as u32);
            lemma_game_value_range(play_result(b, (k - 1) as u32));
        }
    }
}

/// Every slot whose key is a well-formed board's key holds a score within
/// that board's reachable range: at most a win now, at least a loss on the
/// opponent's next move.  A zeroed table satisfies this (the zero key is the
/// empty board's, the zero payload the drawn score), and every store the
/// solver makes preserves it, so a key-matching hit is always a plausible
/// score for its position.
pub open spec fn cache_sound(t: MemoTable) -> bool {
    forall|b: Board|
        b.wf() && (#[trigger] t.entries@[t.slot_of(key_of(b))]).key == key_of(b)
            ==> unpack_score(t.entries@[t.slot_of(key_of(b))].data) <= win_score(b.moves)
                && unpack_score(t.entries@[t.slot_of(key_of(b))].data) >= -win_score(
                (b.moves + 1) as u32,
            )
}

/// The search path that trusts the cache: the caller's window is already
/// closed and the key's slot holds exactly this key.
pub open spec fn cached_cut(t: MemoTable, b: Board, alpha: i8, beta: i8) -> bool {
    alpha >= beta && t.entries@[t.slot_of(key_of(b))].key == key_of(b)
}

/// A zeroed table is cache-sound: the zero key is the empty board's key and
/// the zero payload decodes to the drawn score zero.
pub proof fn lemma_zeroed_cache_sound(t: MemoTable)
    requires
        t.wf(),
        forall|i: int|
            0 <= i < t.entries@.len() ==> (#[trigger] t.entries@[i]).key == 0 && t.entries@[i].data
                == 0,
    ensures
        cache_sound(t),
{
    assert forall|b: Board|
        b.wf() && (#[trigger] t.entries@[t.slot_of(key_of(b))]).key == key_of(b) implies {
        &&& unpack_score(t.entries@[t.slot_of(key_of(b))].data) <= win_score(b.moves)
        &&& unpack_score(t.entries@[t.slot_of(key_of(b))].data) >= -win_score((b.moves + 1) as u32)
    } by {
        lemma_slot_in_range(t, key_of(b));
        lemma_key_of_int(b);
        assert(b.position + b.mask == 0);
        assert(b.position == 0 && b.mask == 0);
        assert forall|c: u64| c < 7 implies #[trigger] crate::board::col_field(0u64, c) == 0 by {
            assert((0u64 >> ((7 * c) as u64)) & 0x7f == 0) by (bit_vector);
        }
        assert(stone_count(0) == 0);
        assert(b.moves == 0);
        assert((((0u64 >> 16) as u8) as i8) == 0) by (bit_vector);
        assert(unpack_score(t.entries@[t.slot_of(key_of(b))].data) == 0);
    }
}

/// A board that is not full has a column with room.
pub proof fn lemma_board_has_room(b: Board)
    requires
        b.wf(),
        b.moves < 42,
    ensures
        exists|c: u64| c < 7 && col_height(b.mask, c) < 6,
{
    let m = b.mask;
    if col_height(m, 0) < 6 {
        assert(0u64 < 7 && col_height(m, 0) < 6);
    } else if col_height(m, 1) < 6 {
        assert(1u64 < 7 && col_height(m, 1) < 6);
    } else if col_height(m, 2) < 6 {
        assert(2u64 < 7 && col_height(m, 2) < 6);
    } else if col_height(m, 3) < 6 {
        assert(3u64 < 7 && col_height(m, 3) < 6);
    } else if col_height(m, 4) < 6 {
        assert(4u64 < 7 && col_height(m, 4) < 6);
    } else if col_height(m, 5) < 6 {
        assert(5u64 < 7 && col_height(m, 5) < 6);
    } else if col_height(m, 6) < 6 {
        assert(6u64 < 7 && col_height(m, 6) < 6);
    } else {
        assert(stone_count(m) == 42);
        assert(false);
    }
}

/// The center-out column order, with the cached best column, when one is
/// given and real, swapped to the front.
fn move_order(hint: Option<u32>) -> (order: Vec<u32>)
    ensures
        order@.len() == 7,
        forall|i: int| 0 <= i < 7 ==> order@[i] < 7,
        forall|c: u32| c < 7 ==> order@.contains(c),
        hint matches Some(bc) ==> (bc < 7 ==> order@[0] == bc),
{
    let mut order: Vec<u32> = Vec::new();
    order.push(3);
    order.push(2);
    order.push(4);
    order.push(1);
    order.push(5);
    order.push(0);
    order.push(6);
    proof {
        assert forall|c: u32| c < 7 implies order@.contains(c) by {
            if c == 0 {
                assert(order@[5] == c);
            } else if c == 1 {
                assert(order@[3] == c);
            } else if c == 2 {
                assert(order@[1] == c);
            } else if c == 3 {
                assert(order@[0] == c);
            } else if c == 4 {
                assert(order@[2] == c);
            } else if c == 5 {
                assert(order@[4] == c);
            } else {
                assert(order@[6] == c);
            }
        }
    }
    if let Some(bc) = hint {
        if bc < 7 {
            let ghost before = order@;
            let mut pos: usize = 0;
            while pos < 7 && order[pos] != bc
                invariant
                    pos <= 7,
                    order@ == before,
                    order@.len() == 7,
                    forall|j: int| 0 <= j < pos ==> order@[j] != bc,
                decreases 7 - pos,
            {
                pos = pos + 1;
            }
            proof {
                if pos == 7 {
                    assert(order@.contains(bc));
                    let j = choose|j: int| 0 <= j < order@.len() && order@[j] == bc;
                    assert(false);
                }
            }
            if pos < 7 {
                let first = order[0];
                let at_pos = order[pos];
                order[0] = at_pos;
                order[pos] = first;
                proof {
                    assert forall|c: u32| c < 7 implies order@.contains(c) by {
                        assert(before.contains(c));
                        let i = choose|i: int| 0 <= i < before.len() && before[i] == c;
                        if i == 0 {
                            assert(order@[pos as int] == c);
                        } else if i == pos {
                            assert(order@[0] == c);
                        } else {
                            assert(order@[i] == c);
                        }
                    }
                }
            }
        }
    }
    order
}

impl Solver {
    /// The solver's invariant: a well-formed table whose key-matching
    /// entries hold plausible scores.
    pub open spec fn wf(self) -> bool {
        &&& self.table.wf()
        &&& cache_sound(self.table)
    }

    /// A solver over a table, with the node counter at zero.
    pub fn new(table: MemoTable) -> (s: Solver)
        requires
            table.wf(),
            cache_sound(table),
        ensures
            s.wf(),
            s.table == table,
            s.nodes == 0,
    {
        Solver { table, nodes: 0 }
    }

    /// A solver over a freshly zeroed table of the given power-of-two
    /// capacity: the runtime-checkable way to construct one.
    pub fn with_table_capacity(capacity: usize) -> (s: Solver)
        requires
            capacity >= 1,
            (capacity as u64) & ((capacity as u64 - 1) as u64) == 0,
        ensures
            s.wf(),
            s.nodes == 0,
            s.table.entries@.len() == capacity,
    {
        let table = MemoTable::new(capacity);
        proof {
            lemma_zeroed_cache_sound(table);
        }
        Solver { table, nodes: 0 }
    }

    /// Negamax alpha-beta search.  The score is in moves-to-finish halves
    /// from the mover's perspective: positive when the mover wins, zero for
    /// a draw, negative when the mover loses; it always lies between a loss
    /// on the opponent's next move and a win now.  The four early returns
    /// leave the table untouched and raise the node counter once: a full
    /// board is a draw; a closed window with a key-matching slot returns the
    /// cached score (the one place the cache is trusted); an immediate win
    /// scores the maximum the move count allows, `(SIZE + 1 - moves) / 2`;
    /// and a window closed by the remaining-cells bound returns that bound.
    /// Otherwise the children are searched and the result is stored under
    /// the position's key, where a lookup straight after finds it.  On an
    /// open window the result obeys the fail-soft alpha-beta contract
    /// against the position's game value: exact inside the window, a
    /// faithful bound when the value falls at or outside it.  (The cache
    /// never disturbs this: a cached score is returned only on a closed
    /// window, which no internal call passes, and the cached best column
    /// only reorders the moves.)
    #[verifier::rlimit(100)]
    pub fn solve(&mut self, board: Board, alpha: i8, beta: i8, p_depth: u32) -> (score: i8)
        requires
            old(self).wf(),
            board.wf(),
            -22 <= alpha <= 22,
            -22 <= beta <= 22,
        ensures
            final(self).wf(),
            final(self).table.entries@.len() == old(self).table.entries@.len(),
            -21 <= score <= 21,
            score <= win_score(board.moves),
            score >= -win_score((board.moves + 1) as u32),
            board.moves == 42 ==> score == 0 && final(self).table == old(self).table
                && final(self).nodes == vstd::wrapping::u64_specs::wrapping_add(
                old(self).nodes,
                1,
            ),
            board.moves < 42 && cached_cut(old(self).table, board, alpha, beta) ==> score
                == unpack_score(
                old(self).table.entries@[old(self).table.slot_of(key_of(board))].data,
            ) && final(self).table == old(self).table && final(self).nodes
                == vstd::wrapping::u64_specs::wrapping_add(old(self).nodes, 1),
            board.moves < 42 && !cached_cut(old(self).table, board, alpha, beta)
                && has_winning_move(board) ==> score == win_score(board.moves) as i8
                && final(self).table == old(self).table && final(self).nodes
                == vstd::wrapping::u64_specs::wrapping_add(old(self).nodes, 1),
            board.moves < 42 && !cached_cut(old(self).table, board, alpha, beta)
                && !has_winning_move(board) && beta > bound_score(board.moves) && alpha
                >= bound_score(board.moves) ==> score == bound_score(board.moves) as i8
                && final(self).table == old(self).table && final(self).nodes
                == vstd::wrapping::u64_specs::wrapping_add(old(self).nodes, 1),
            board.moves < 42 && !cached_cut(old(self).table, board, alpha, beta)
                && !has_winning_move(board) && !(beta > bound_score(board.moves) && alpha
                >= bound_score(board.moves)) ==> final(self).table.entries@[final(self).table.slot_of(key_of(board))].key == key_of(board) && unpack_score(
                final(self).table.entries@[final(self).table.slot_of(key_of(board))].data,
            ) == score,
            alpha < beta && game_value(board) <= alpha ==> score <= alpha,
            alpha < beta && game_value(board) >= beta ==> score >= beta,
            alpha < beta && alpha < game_value(board) < beta ==> score == game_value(board),
        decreases 42 - board.moves,
    {
        self.nodes = self.nodes.wrapping_add(1);
        if board.moves == SIZE {
            return 0;
        }
        let key = board.key();
        let (cached_score, hint) = self.table.lookup(key);
        if let Some(score) = cached_score {
            if alpha >= beta {
                proof {
                    assert(self.table.entries@[self.table.slot_of(key_of(board))].key == key_of(
                        board,
                    ));
                }
                return score;
            }
        }
        let order = move_order(hint);

        // One-ply lookahead: any legal move that wins on the spot ends the
        // search with the best score the move count allows.
        let mut i: usize = 0;
        while i < 7
            invariant
                i <= 7,
                self.wf(),
                self.table == old(self).table,
                self.nodes == vstd::wrapping::u64_specs::wrapping_add(old(self).nodes, 1),
                !cached_cut(old(self).table, board, alpha, beta),
                board.wf(),
                board.moves < 42,
                order@.len() == 7,
                forall|j: int| 0 <= j < 7 ==> order@[j] < 7,
                forall|j: int| 0 <= j < i ==> !winning_move(board, order@[j] as u64),
            decreases 7 - i,
        {
            let col = order[i];
            if board.can_play(col) {
                let mut next = board;
                next.play(col);
                if next.is_win() {
                    proof {
                        assert(winning_move(board, col as u64));
                        assert(has_winning_move(board));
                    }
                    return ((SIZE + 1 - board.moves) as i8) / 2;
                }
            }
            i = i + 1;
        }
        proof {
            assert forall|c: u64| c < 7 implies !winning_move(board, c) by {
                assert(order@.contains(c as u32));
                let j = choose|j: int| 0 <= j < order@.len() && order@[j] == c as u32;
                assert(!winning_move(board, order@[j] as u64));
            }
            assert(!has_winning_move(board));
        }

        // No win can come faster than the empty cells allow: tighten beta to
        // that bound and cut if the window closes.
        let max_p = ((SIZE - 1 - board.moves) as i8) / 2;
        proof {
            lemma_game_value_range(board);
        }
        let ghost beta0 = beta;
        let mut beta = beta;
        if beta > max_p {
            beta = max_p;
            if alpha >= beta {
                return beta;
            }
        }

        let ghost alpha0 = alpha;
        let mut alpha = alpha;
        let mut max_s: i8 = -22;
        let mut current_best: u32 = order[0];

        // The depth only gates the shallow fan-out below, so it stops
        // counting once past that threshold.
        let child_depth = if p_depth < 4 {
            p_depth + 1
        } else {
            4
        };

        if p_depth < 4 {
            // Shallow plies explore every legal child against the incoming
            // window and fold the results afterwards, mirroring the parallel
            // fan-out; cross-sibling cutoffs apply only during the fold.
            let mut results: Vec<(i8, u32)> = Vec::new();
            let mut i: usize = 0;
            while i < 7
                invariant
                    i <= 7,
                    self.wf(),
                    self.table.entries@.len() == old(self).table.entries@.len(),
                    board.wf(),
                    board.moves < 42,
                    order@.len() == 7,
                    forall|j: int| 0 <= j < 7 ==> order@[j] < 7,
                    alpha == alpha0,
                    -22 <= alpha <= 22,
                    -22 <= beta <= 22,
                    forall|j: int|
                        0 <= j < results@.len() ==> -21 <= (#[trigger] results@[j]).0 <= 21
                            && results@[j].1 < 7 && -win_score((board.moves + 1) as u32)
                            <= results@[j].0 <= win_score((board.moves + 2) as u32),
                    results@.len() == 0 ==> forall|j: int|
                        0 <= j < i ==> col_height(board.mask, order@[j] as u64) >= 6,
                    forall|j: int|
                        0 <= j < results@.len() ==> legal_col(board, (#[trigger] results@[j]).1),
                    alpha0 < beta ==> forall|j: int|
                        0 <= j < results@.len() ==> ((#[trigger] results@[j]).0 == -game_value(
                            play_result(board, results@[j].1),
                        ) && alpha0 < -game_value(play_result(board, results@[j].1)) < beta) || (
                        results@[j].0 <= alpha0 && -game_value(play_result(board, results@[j].1))
                            <= alpha0) || (results@[j].0 >= beta && -game_value(
                            play_result(board, results@[j].1),
                        ) >= beta),
                    forall|j2: int|
                        0 <= j2 < i && legal_col(board, #[trigger] order@[j2]) ==> exists|j: int|
                            0 <= j < results@.len() && (#[trigger] results@[j]).1 == order@[j2],
                decreases 7 - i,
            {
                let col = order[i];
                if board.can_play(col) {
                    let mut next = board;
                    next.play(col);
                    let s = self.solve(next, -beta, -alpha, child_depth);
                    let ghost res0 = results@;
                    results.push((-s, col));
                    proof {
                        assert(results@[res0.len() as int] == ((-s) as i8, col));
                        assert forall|j2: int|
                            0 <= j2 < i + 1 && legal_col(board, #[trigger] order@[j2])
                                implies exists|j: int|
                                0 <= j < results@.len() && (#[trigger] results@[j]).1
                                    == order@[j2] by {
                            if j2 < i {
                                let j = choose|j: int|
                                    0 <= j < res0.len() && (#[trigger] res0[j]).1 == order@[j2];
                                assert(results@[j].1 == order@[j2]);
                            } else {
                                assert(results@[res0.len() as int].1 == order@[j2]);
                            }
                        }
                    }
                }
                i = i + 1;
            }
            proof {
                if results@.len() == 0 {
                    lemma_board_has_room(board);
                    let c = choose|c: u64| c < 7 && col_height(board.mask, c) < 6;
                    assert(order@.contains(c as u32));
                    let j = choose|j: int| 0 <= j < order@.len() && order@[j] == c as u32;
                    assert(col_height(board.mask, order@[j] as u64) >= 6);
                    assert(false);
                }
            }
            let mut k: usize = 0;
            while k < results.len()
                invariant_except_break
                    k <= results@.len(),
                    k >= 1 ==> max_s != -22,
                    alpha0 < beta ==> alpha < beta,
                    alpha0 < beta ==> forall|j: int|
                        0 <= j < k ==> (-game_value(
                            play_result(board, (#[trigger] results@[j]).1),
                        ) <= alpha || max_s >= -game_value(play_result(board, results@[j].1))),
                    alpha0 < beta ==> (max_s <= alpha0 || (legal_col(board, current_best) && max_s
                        == -game_value(play_result(board, current_best)))),
                invariant
                    results@.len() >= 1,
                    board.wf(),
                    board.moves < 42,
                    forall|j: int|
                        0 <= j < results@.len() ==> -21 <= (#[trigger] results@[j]).0 <= 21
                            && results@[j].1 < 7 && -win_score((board.moves + 1) as u32)
                            <= results@[j].0 <= win_score((board.moves + 2) as u32),
                    forall|j: int|
                        0 <= j < results@.len() ==> legal_col(board, (#[trigger] results@[j]).1),
                    alpha0 < beta ==> forall|j: int|
                        0 <= j < results@.len() ==> ((#[trigger] results@[j]).0 == -game_value(
                            play_result(board, results@[j].1),
                        ) && alpha0 < -game_value(play_result(board, results@[j].1)) < beta) || (
                        results@[j].0 <= alpha0 && -game_value(play_result(board, results@[j].1))
                            <= alpha0) || (results@[j].0 >= beta && -game_value(
                            play_result(board, results@[j].1),
                        ) >= beta),
                    -22 <= alpha0 <= 22,
                    -22 <= alpha <= 22,
                    max_s == -22 || (-21 <= max_s <= 21 && -win_score((board.moves + 1) as u32)
                        <= max_s <= win_score((board.moves + 2) as u32)),
                    current_best < 7,
                    alpha == (if max_s > alpha0 {
                        max_s
                    } else {
                        alpha0
                    }),
                    alpha0 < beta ==> (alpha == alpha0 || (exists|c: u32|
                        #[trigger] legal_col(board, c) && (-game_value(play_result(board, c))
                            >= alpha || -game_value(play_result(board, c)) >= beta))),
                ensures
                    -21 <= max_s <= 21,
                    -win_score((board.moves + 1) as u32) <= max_s <= win_score(
                        (board.moves + 2) as u32,
                    ),
                    current_best < 7,
                    alpha == (if max_s > alpha0 {
                        max_s
                    } else {
                        alpha0
                    }),
                    alpha0 < beta && alpha >= beta ==> (exists|c: u32|
                        #[trigger] legal_col(board, c) && -game_value(play_result(board, c))
                            >= beta),
                    alpha0 < beta && alpha < beta ==> forall|j: int|
                        0 <= j < results@.len() ==> (-game_value(
                            play_result(board, (#[trigger] results@[j]).1),
                        ) <= alpha || max_s >= -game_value(play_result(board, results@[j].1))),
                    alpha0 < beta && alpha < beta ==> (max_s <= alpha0 || (legal_col(
                        board,
                        current_best,
                    ) && max_s == -game_value(play_result(board, current_best)))),
                decreases results@.len() - k,
            {
                let pair = results[k];
                if pair.0 > max_s {
                    max_s = pair.0;
                    current_best = pair.1;
                }
                if pair.0 > alpha {
                    alpha = pair.0;
                }
                k = k + 1;
                if alpha >= beta {
                    break;
                }
            }
            proof {
                if alpha0 < beta {
                    let v = best_reply(board, 7);
                    lemma_best_reply_attained(board, 7);
                    if alpha >= beta {
                        let ce = choose|c: u32|
                            legal_col(board, c) && -game_value(play_result(board, c)) >= beta;
                        lemma_best_reply_ge(board, 7, ce);
                        assert(v >= beta);
                        assert(max_s >= beta);
                    } else {
                        if max_s > alpha0 {
                            lemma_best_reply_ge(board, 7, current_best);
                            assert(max_s <= v);
                        }
                        if v != -22 {
                            let cstar = choose|c: u32|
                                legal_col(board, c) && c < 7 && best_reply(board, 7) == -(
                                #[trigger] game_value(play_result(board, c)));
                            assert(order@.contains(cstar));
                            let jo = choose|j: int| 0 <= j < order@.len() && order@[j] == cstar;
                            assert(legal_col(board, order@[jo]));
                            let jr = choose|j: int|
                                0 <= j < results@.len() && (#[trigger] results@[j]).1
                                    == order@[jo];
                            assert(-game_value(play_result(board, results@[jr].1)) <= alpha
                                || max_s >= -game_value(play_result(board, results@[jr].1)));
                            assert(v <= alpha || max_s >= v);
                        }
                    }
                    assert(v <= alpha0 ==> max_s <= alpha0);
                    assert(v >= beta ==> max_s >= beta);
                    assert(alpha0 < v && v < beta ==> max_s == v);
                }
            }
        } else {
            // Deep plies search strictly in order with the standard cutoff,
            // which bounds fan-out to the shallow levels.
            let mut i: usize = 0;
            while i < 7
                invariant_except_break
                    i <= 7,
                    alpha0 < beta ==> alpha < beta,
                    max_s == -22 ==> forall|j: int|
                        0 <= j < i ==> col_height(board.mask, order@[j] as u64) >= 6,
                    alpha0 < beta ==> forall|j: int|
                        0 <= j < i && legal_col(board, #[trigger] order@[j]) ==> (-game_value(
                            play_result(board, order@[j]),
                        ) <= alpha || max_s >= -game_value(play_result(board, order@[j]))),
                    alpha0 < beta ==> (max_s <= alpha0 || (legal_col(board, current_best) && max_s
                        == -game_value(play_result(board, current_best)))),
                invariant
                    self.wf(),
                    self.table.entries@.len() == old(self).table.entries@.len(),
                    board.wf(),
                    board.moves < 42,
                    order@.len() == 7,
                    forall|j: int| 0 <= j < 7 ==> order@[j] < 7,
                    forall|c: u32| c < 7 ==> order@.contains(c),
                    -22 <= alpha0 <= 22,
                    -22 <= alpha <= 22,
                    -22 <= beta <= 22,
                    -22 <= max_s <= 21,
                    current_best < 7,
                    alpha == (if max_s > alpha0 {
                        max_s
                    } else {
                        alpha0
                    }),
                    max_s != -22 ==> -win_score((board.moves + 1) as u32) <= max_s <= win_score(
                        (board.moves + 2) as u32,
                    ),
                    alpha0 < beta ==> (alpha == alpha0 || (exists|c: u32|
                        #[trigger] legal_col(board, c) && (-game_value(play_result(board, c))
                            >= alpha || -game_value(play_result(board, c)) >= beta))),
                ensures
                    self.wf(),
                    self.table.entries@.len() == old(self).table.entries@.len(),
                    (-win_score((board.moves + 1) as u32) <= max_s <= win_score(
                        (board.moves + 2) as u32,
                    ) && -21 <= max_s <= 21) || (max_s == -22 && forall|j: int|
                        0 <= j < 7 ==> col_height(board.mask, order@[j] as u64) >= 6),
                    current_best < 7,
                    alpha == (if max_s > alpha0 {
                        max_s
                    } else {
                        alpha0
                    }),
                    alpha0 < beta && alpha >= beta ==> (exists|c: u32|
                        #[trigger] legal_col(board, c) && -game_value(play_result(board, c))
                            >= beta),
                    alpha0 < beta && alpha < beta ==> forall|j: int|
                        0 <= j < 7 && legal_col(board, #[trigger] order@[j]) ==> (-game_value(
                            play_result(board, order@[j]),
                        ) <= alpha || max_s >= -game_value(play_result(board, order@[j]))),
                    alpha0 < beta && alpha < beta ==> (max_s <= alpha0 || (legal_col(
                        board,
                        current_best,
                    ) && max_s == -game_value(play_result(board, current_best)))),
                decreases 7 - i,
            {
                let col = order[i];
                if board.can_play(col) {
                    let mut next = board;
                    next.play(col);
                    let s = self.solve(next, -beta, -alpha, child_depth);
                    let score = -s;
                    proof {
                        assert(next == play_result(board, col));
                        if alpha0 < beta {
                            let vc = game_value(next);
                            if vc <= -beta {
                                assert(-game_value(play_result(board, col)) >= beta);
                            } else if vc >= -alpha {
                                assert(score <= alpha);
                            } else {
                                assert(s == vc);
                                assert(score == -game_value(play_result(board, col)));
                            }
                        }
                    }
                    let ghost alpha_pre = alpha;
                    if score > max_s {
                        max_s = score;
                        current_best = col;
                    }
                    if score > alpha {
                        alpha = score;
                    }
                    proof {
                        if alpha0 < beta && alpha != alpha_pre {
                            assert(legal_col(board, col));
                            assert(alpha == score);
                            if -game_value(play_result(board, col)) < beta {
                                assert(alpha == -game_value(play_result(board, col)));
                            }
                        }
                    }
                    if alpha >= beta {
                        proof {
                            if alpha0 < beta {
                                assert(legal_col(board, col));
                                assert(-game_value(play_result(board, col)) >= beta);
                            }
                        }
                        break;
                    }
                }
                i = i + 1;
            }
            proof {
                if max_s == -22 {
                    lemma_board_has_room(board);
                    let c = choose|c: u64| c < 7 && col_height(board.mask, c) < 6;
                    assert(order@.contains(c as u32));
                    let j = choose|j: int| 0 <= j < order@.len() && order@[j] == c as u32;
                    assert(col_height(board.mask, order@[j] as u64) >= 6);
                    assert(false);
                }
                if alpha0 < beta {
                    let v = best_reply(board, 7);
                    lemma_best_reply_attained(board, 7);
                    if alpha >= beta {
                        let ce = choose|c: u32|
                            legal_col(board, c) && -game_value(play_result(board, c)) >= beta;
                        lemma_best_reply_ge(board, 7, ce);
                        assert(v >= beta);
                        assert(max_s >= beta);
                    } else {
                        if max_s > alpha0 {
                            lemma_best_reply_ge(board, 7, current_best);
                            assert(max_s <= v);
                        }
                        if v != -22 {
                            let cstar = choose|c: u32|
                                legal_col(board, c) && c < 7 && best_reply(board, 7) == -(
                                #[trigger] game_value(play_result(board, c)));
                            assert(order@.contains(cstar));
                            let jo = choose|j: int| 0 <= j < order@.len() && order@[j] == cstar;
                            assert(-game_value(play_result(board, order@[jo])) <= alpha || max_s
                                >= -game_value(play_result(board, order@[jo])));
                            assert(v <= alpha || max_s >= v);
                        }
                    }
                    assert(v <= alpha0 ==> max_s <= alpha0);
                    assert(v >= beta ==> max_s >= beta);
                    assert(alpha0 < v && v < beta ==> max_s == v);
                }
            }
        }
        proof {
            if alpha0 < beta0 {
                let v = game_value(board);
                assert(v == best_reply(board, 7));
                if beta0 > max_p {
                    assert(beta == max_p);
                    assert(v <= bound_score(board.moves));
                    if alpha0 < v && v < beta0 && v >= beta {
                        assert(v == bound_score(board.moves));
                        assert(max_s >= beta);
                        assert(win_score((board.moves + 2) as u32) == bound_score(board.moves));
                        assert(max_s == v);
                    }
                } else {
                    assert(beta == beta0);
                }
            }
        }
        let ghost t1 = self.table;
        self.table.store(key, max_s, current_best);
        proof {
            lemma_store_keeps_cache_sound(t1, self.table, board, max_s, current_best);
            crate::table::lemma_pack_ok(max_s, current_best);
        }
        max_s
    }
}

/// A store of a plausible score under a well-formed board's key keeps the
/// cache sound: the written slot now speaks of exactly that board (keys of
/// well-formed boards are injective), and every other slot is unchanged.
proof fn lemma_store_keeps_cache_sound(
    t1: MemoTable,
    t2: MemoTable,
    board: Board,
    max_s: i8,
    current_best: u32,
)
    requires
        t1.wf(),
        cache_sound(t1),
        board.wf(),
        -21 <= max_s <= 21,
        current_best < 7,
        max_s <= win_score(board.moves),
        max_s >= -win_score((board.moves + 1) as u32),
        t2.entries@.len() == t1.entries@.len(),
        t2.entries@[t1.slot_of(key_of(board))].key == key_of(board),
        t2.entries@[t1.slot_of(key_of(board))].data == crate::table::pack(max_s, current_best),
        forall|i: int|
            0 <= i < t1.entries@.len() && i != t1.slot_of(key_of(board)) ==> t2.entries@[i]
                == t1.entries@[i],
    ensures
        cache_sound(t2),
{
    crate::table::lemma_pack_ok(max_s, current_best);
    assert forall|b2: Board|
        b2.wf() && (#[trigger] t2.entries@[t2.slot_of(key_of(b2))]).key == key_of(b2) implies {
        &&& unpack_score(t2.entries@[t2.slot_of(key_of(b2))].data) <= win_score(b2.moves)
        &&& unpack_score(t2.entries@[t2.slot_of(key_of(b2))].data) >= -win_score(
            (b2.moves + 1) as u32,
        )
    } by {
        lemma_slot_in_range(t1, key_of(b2));
        assert(t2.slot_of(key_of(b2)) == t1.slot_of(key_of(b2)));
        if t1.slot_of(key_of(b2)) == t1.slot_of(key_of(board)) {
            assert(key_of(b2) == key_of(board));
            lemma_key_of_int(b2);
            lemma_key_of_int(board);
            lemma_key_injective(board, b2);
            assert(b2 == board);
        } else {
            assert(t2.entries@[t1.slot_of(key_of(b2))] == t1.entries@[t1.slot_of(key_of(b2))]);
        }
    }
}

} // verus!
