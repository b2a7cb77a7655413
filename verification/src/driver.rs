use vstd::prelude::*;

use crate::board::{col_height, empty_board, lemma_play_result_wf, play_result, winning_move, Board};
use crate::solver::{game_value, lemma_game_value_range, Solver};

verus! {

/// The classification of an opening move's aggregated score.
#[derive(Clone, Copy, PartialEq, Eq, Debug, Structural)]
pub enum Verdict {
    FirstPlayerWins,
    SecondPlayerWins,
    Draw,
}

/// The classification and the literal number of plies to the game's end that
/// an aggregated score denotes: a positive score means the side that opened
/// wins in `2*score - 1` further plies, a negative one that the other side
/// wins in `2*|score|`, zero a draw.
pub open spec fn verdict_spec(score: i8) -> (Verdict, i32) {
    if score > 0 {
        (Verdict::FirstPlayerWins, (2 * score - 1) as i32)
    } else if score < 0 {
        (Verdict::SecondPlayerWins, (2 * -(score as int)) as i32)
    } else {
        (Verdict::Draw, 0)
    }
}

/// Derives the verdict of an aggregated score.
pub fn verdict_of(score: i8) -> (r: (Verdict, i32))
    ensures
        r == verdict_spec(score),
{
    if score > 0 {
        (Verdict::FirstPlayerWins, 2 * (score as i32) - 1)
    } else if score < 0 {
        (Verdict::SecondPlayerWins, 2 * (-(score as i32)))
    } else {
        (Verdict::Draw, 0)
    }
}

/// `v` is a score attained by second move `c` and no score of `c` is lower.
pub open spec fn col_min(s: Seq<(u32, i8)>, c: u32, v: i8) -> bool {
    &&& exists|j: int| 0 <= j < s.len() && s[j] == (c, v)
    &&& forall|j: int| 0 <= j < s.len() && (#[trigger] s[j]).0 == c ==> s[j].1 >= v
}

/// `r` is the maximum over the second moves present in `s` of each one's
/// minimal score: the opponent picks the reply, the mover picks the column.
/// Both conjuncts speak only of which pairs occur in `s`, so the value does
/// not depend on the order the results arrived in.
pub open spec fn root_value(s: Seq<(u32, i8)>, r: i8) -> bool {
    &&& exists|c: u32| #[trigger] col_min(s, c, r)
    &&& forall|c: u32, v: i8| #[trigger] col_min(s, c, v) ==> v <= r
}

/// Aggregation is insensitive to the order results are folded in: two result
/// lists with the same multiset of (second move, score) pairs have the same
/// root value.  This is what keeps the final verdict reproducible however a
/// pool schedules the subtree searches.
pub proof fn lemma_root_value_order_independent(
    s1: Seq<(u32, i8)>,
    s2: Seq<(u32, i8)>,
    r1: i8,
    r2: i8,
)
    requires
        s1.to_multiset() == s2.to_multiset(),
        root_value(s1, r1),
        root_value(s2, r2),
    ensures
        r1 == r2,
{
    broadcast use vstd::seq_lib::group_to_multiset_ensures;

    lemma_col_min_transfers(s1, s2, r1);
    lemma_col_min_transfers(s2, s1, r2);
}

/// A column minimum depends only on the multiset of pairs.
proof fn lemma_col_min_transfers(s1: Seq<(u32, i8)>, s2: Seq<(u32, i8)>, r: i8)
    requires
        s1.to_multiset() == s2.to_multiset(),
        exists|c: u32| #[trigger] col_min(s1, c, r),
    ensures
        exists|c: u32| #[trigger] col_min(s2, c, r),
{
    broadcast use vstd::seq_lib::group_to_multiset_ensures;

    let c = choose|c: u32| #[trigger] col_min(s1, c, r);
    assert(s1.contains((c, r)));
    assert(s1.to_multiset().count((c, r)) > 0);
    assert(s2.to_multiset().count((c, r)) > 0);
    assert(s2.contains((c, r)));
    assert forall|j: int| 0 <= j < s2.len() && (#[trigger] s2[j]).0 == c implies s2[j].1 >= r by {
        assert(s2.contains(s2[j]));
        assert(s2.to_multiset().count(s2[j]) > 0);
        assert(s1.to_multiset().count(s2[j]) > 0);
        assert(s1.contains(s2[j]));
        let j1 = choose|j1: int| 0 <= j1 < s1.len() && s1[j1] == s2[j];
        assert(s1[j1].1 >= r);
    }
    let j2 = choose|j2: int| 0 <= j2 < s2.len() && s2[j2] == (c, r);
    assert(col_min(s2, c, r));
}

/// Pushing keeps every element of a sequence, and adds the pushed one.
proof fn lemma_push_contains<A>(s: Seq<A>, x: A)
    ensures
        s.push(x).contains(x),
        forall|y: A| s.contains(y) ==> s.push(x).contains(y),
{
    assert(s.push(x)[s.len() as int] == x);
    assert forall|y: A| s.contains(y) implies s.push(x).contains(y) by {
        let j = choose|j: int| 0 <= j < s.len() && s[j] == y;
        assert(s.push(x)[j] == y);
    }
}

/// Folds the per-task results exactly as the root driver does: for each
/// second move take the minimum over its replies, then take the maximum of
/// those minima; an empty result list counts as a drawn zero.
pub fn aggregate_scores(results: &Vec<(u32, i8)>) -> (r: i8)
    requires
        forall|j: int|
            0 <= j < results@.len() ==> (#[trigger] results@[j]).0 < 7 && -22 <= results@[j].1
                <= 22,
    ensures
        -22 <= r <= 22,
        results@.len() == 0 ==> r == 0,
        results@.len() > 0 ==> root_value(results@, r),
{
    let ghost s = results@;
    let mut mins: Vec<i8> = vec![22i8; 7];
    let mut present: Vec<bool> = vec![false; 7];
    let mut i: usize = 0;
    while i < results.len()
        invariant
            i <= s.len(),
            s == results@,
            mins@.len() == 7,
            present@.len() == 7,
            forall|j: int|
                0 <= j < s.len() ==> (#[trigger] s[j]).0 < 7 && -22 <= s[j].1 <= 22,
            forall|c: u32|
                c < 7 ==> ((#[trigger] present@[c as int]) <==> exists|j: int|
                    0 <= j < i && (#[trigger] s[j]).0 == c),
            forall|c: u32|
                c < 7 && present@[c as int] ==> (exists|j: int|
                    0 <= j < i && s[j] == (c, #[trigger] mins@[c as int])) && (forall|j: int|
                    0 <= j < i && (#[trigger] s[j]).0 == c ==> s[j].1 >= mins@[c as int]),
            forall|c: u32| c < 7 && !present@[c as int] ==> mins@[c as int] == 22,
        decreases results@.len() - i,
    {
        let pair = results[i];
        let c = pair.0 as usize;
        if !present[c] {
            present[c] = true;
            mins[c] = pair.1;
        } else if pair.1 < mins[c] {
            mins[c] = pair.1;
        }
        i = i + 1;
    }
    let mut found = false;
    let mut best: i8 = 0;
    let mut c: usize = 0;
    while c < 7
        invariant
            c <= 7,
            mins@.len() == 7,
            present@.len() == 7,
            found <==> exists|c2: u32| c2 < c && #[trigger] present@[c2 as int],
            found ==> exists|c2: u32|
                c2 < c && #[trigger] present@[c2 as int] && mins@[c2 as int] == best,
            forall|c2: u32|
                c2 < c && #[trigger] present@[c2 as int] ==> mins@[c2 as int] <= best,
            forall|c2: u32| c2 < 7 && #[trigger] present@[c2 as int] ==> -22 <= mins@[c2 as int]
                <= 22,
        decreases 7 - c,
    {
        if present[c] {
            if !found || mins[c] > best {
                best = mins[c];
                found = true;
            }
        }
        c = c + 1;
    }
    if !found {
        proof {
            if s.len() > 0 {
                assert(s[0].0 < 7);
                assert(present@[s[0].0 as int]);
                assert(false);
            }
        }
        return 0;
    }
    proof {
        let cw = choose|c2: u32| c2 < 7 && #[trigger] present@[c2 as int] && mins@[c2 as int] == best;
        assert(col_min(s, cw, best));
        assert forall|c2: u32, v: i8| #[trigger] col_min(s, c2, v) implies v <= best by {
            let j = choose|j: int| 0 <= j < s.len() && s[j] == (c2, v);
            assert(s[j].0 == c2 && c2 < 7);
            assert(present@[c2 as int]);
            let jm = choose|jm: int| 0 <= jm < s.len() && s[jm] == (c2, mins@[c2 as int]);
            assert(s[jm].1 >= v);
            assert(mins@[c2 as int] <= best);
        }
        assert(root_value(s, best));
    }
    best
}

/// The board after the opening move `col1` on the empty board.
pub open spec fn board_after1(col1: u32) -> Board {
    play_result(empty_board(), col1)
}

/// The board after opening move `col1` and reply `c2`.
pub open spec fn board_after2(col1: u32, c2: u32) -> Board {
    play_result(board_after1(col1), c2)
}

/// The board after the three opening plies of a work item.
pub open spec fn board_after3(col1: u32, c2: u32, c3: u32) -> Board {
    play_result(board_after2(col1, c2), c3)
}

/// Reply `c2` is legal after opening move `col1`.
pub open spec fn legal2(col1: u32, c2: u32) -> bool {
    c2 < 7 && col_height(board_after1(col1).mask, c2 as u64) < 6
}

/// Third move `c3` is legal after `col1` and `c2`.
pub open spec fn legal3(col1: u32, c2: u32, c3: u32) -> bool {
    c3 < 7 && col_height(board_after2(col1, c2).mask, c3 as u64) < 6
}

/// Reply `c2` wins the game on the spot.
pub open spec fn second_move_wins(col1: u32, c2: u32) -> bool {
    winning_move(board_after1(col1), c2 as u64)
}

/// What one work item's search reports, as `solve_task` pins it: the
/// sentinel 21 when the third ply completes four in a line, else the game
/// value of the board after the three plies.
pub open spec fn task_value(col1: u32, c2: u32, c3: u32) -> int {
    if winning_move(board_after2(col1, c2), c3 as u64) {
        21
    } else {
        game_value(board_after3(col1, c2, c3))
    }
}

/// The minimum over the legal third moves below `k` of the searched value,
/// or 22 when none is legal (matching the fold's neutral element).
pub open spec fn reply_min(col1: u32, c2: u32, k: int) -> int
    decreases k,
{
    if k <= 0 {
        22
    } else {
        let rest = reply_min(col1, c2, k - 1);
        if legal3(col1, c2, (k - 1) as u32) {
            let v = task_value(col1, c2, (k - 1) as u32);
            if v < rest {
                v
            } else {
                rest
            }
        } else {
            rest
        }
    }
}

/// What a legal reply is worth at the root: 21 when it wins on the spot,
/// else the opponent's best (minimal) third-move value.
pub open spec fn opening_col_value(col1: u32, c2: u32) -> int {
    if second_move_wins(col1, c2) {
        21
    } else {
        reply_min(col1, c2, 7)
    }
}

/// The aggregated value of the opening move: the maximum over the legal
/// replies below `k` of each one's value, or -22 when none is legal.
pub open spec fn opening_best(col1: u32, k: int) -> int
    decreases k,
{
    if k <= 0 {
        -22
    } else {
        let rest = opening_best(col1, k - 1);
        if legal2(col1, (k - 1) as u32) {
            let v = opening_col_value(col1, (k - 1) as u32);
            if v > rest {
                v
            } else {
                rest
            }
        } else {
            rest
        }
    }
}

/// The value the root driver reports for the opening move `col1`.
pub open spec fn opening_value(col1: u32) -> int {
    opening_best(col1, 7)
}

/// `reply_min` lies at or below every legal third move it covers.
proof fn lemma_reply_min_le(col1: u32, c2: u32, k: int, c3: u32)
    requires
        0 <= c3 < k <= 7,
        legal3(col1, c2, c3),
    ensures
        reply_min(col1, c2, k) <= task_value(col1, c2, c3),
    decreases k,
{
    if c3 < k - 1 {
        lemma_reply_min_le(col1, c2, k - 1, c3);
    }
}

/// `reply_min` is the empty 22 or attained at a legal third move.
proof fn lemma_reply_min_attained(col1: u32, c2: u32, k: int)
    requires
        0 <= k <= 7,
    ensures
        reply_min(col1, c2, k) == 22 || exists|c3: u32|
            legal3(col1, c2, c3) && c3 < k && reply_min(col1, c2, k) == #[trigger] task_value(
                col1,
                c2,
                c3,
            ),
    decreases k,
{
    if k > 0 {
        lemma_reply_min_attained(col1, c2, k - 1);
        let rest = reply_min(col1, c2, k - 1);
        let ck = (k - 1) as u32;
        if legal3(col1, c2, ck) && task_value(col1, c2, ck) < rest {
            assert(legal3(col1, c2, ck) && ck < k && reply_min(col1, c2, k) == task_value(
                col1,
                c2,
                ck,
            ));
        } else if reply_min(col1, c2, k) != 22 {
            let c3 = choose|c3: u32|
                legal3(col1, c2, c3) && c3 < k - 1 && rest == #[trigger] task_value(
                    col1,
                    c2,
                    c3,
                );
            assert(legal3(col1, c2, c3) && c3 < k && reply_min(col1, c2, k) == task_value(
                col1,
                c2,
                c3,
            ));
        }
    }
}

/// `opening_best` dominates every legal reply it covers.
proof fn lemma_opening_best_ge(col1: u32, k: int, c2: u32)
    requires
        0 <= c2 < k <= 7,
        legal2(col1, c2),
    ensures
        opening_best(col1, k) >= opening_col_value(col1, c2),
    decreases k,
{
    if c2 < k - 1 {
        lemma_opening_best_ge(col1, k - 1, c2);
    }
}

/// `opening_best` is the empty -22 or attained at a legal reply.
proof fn lemma_opening_best_attained(col1: u32, k: int)
    requires
        0 <= k <= 7,
    ensures
        opening_best(col1, k) == -22 || exists|c2: u32|
            legal2(col1, c2) && c2 < k && opening_best(col1, k) == #[trigger] opening_col_value(
                col1,
                c2,
            ),
    decreases k,
{
    if k > 0 {
        lemma_opening_best_attained(col1, k - 1);
        let rest = opening_best(col1, k - 1);
        let ck = (k - 1) as u32;
        if legal2(col1, ck) && opening_col_value(col1, ck) > rest {
            assert(legal2(col1, ck) && ck < k && opening_best(col1, k) == opening_col_value(
                col1,
                ck,
            ));
        } else if opening_best(col1, k) != -22 {
            let c2 = choose|c2: u32|
                legal2(col1, c2) && c2 < k - 1 && rest == #[trigger] opening_col_value(
                    col1,
                    c2,
                );
            assert(legal2(col1, c2) && c2 < k && opening_best(col1, k) == opening_col_value(
                col1,
                c2,
            ));
        }
    }
}

/// The boards after one and two legal opening plies are well-formed, and
/// after two plies some third move is always legal.
proof fn lemma_opening_boards(col1: u32, c2: u32)
    requires
        col1 < 7,
        legal2(col1, c2),
    ensures
        board_after1(col1).wf(),
        board_after2(col1, c2).wf(),
        board_after2(col1, c2).moves == 2,
        exists|c3: u32| #[trigger] legal3(col1, c2, c3),
{
    lemma_empty_board_heights();
    lemma_play_result_wf(empty_board(), col1);
    lemma_play_result_wf(board_after1(col1), c2);
    crate::solver::lemma_board_has_room(board_after2(col1, c2));
    let c = choose|c: u64|
        c < 7 && col_height(board_after2(col1, c2).mask, c) < 6;
    assert(legal3(col1, c2, c as u32));
}

/// The empty board's columns are all empty.
proof fn lemma_empty_board_heights()
    ensures
        empty_board().wf(),
        forall|c: u64| c < 7 ==> col_height(empty_board().mask, c) == 0,
{
    assert(0u64 & 0u64 == 0 && 0u64 >> 49 == 0) by (bit_vector);
    assert forall|c: u64| c < 7 implies #[trigger] crate::board::col_field(0u64, c) == 0 by {
        assert((0u64 >> ((7 * c) as u64)) & 0x7f == 0) by (bit_vector);
    }
}

/// A work item the enumeration may emit for opening move `col1`: either a
/// legal, non-winning second move paired with a legal third move and a zero
/// placeholder score, or a winning second move recorded with the sentinel
/// third move 999 and the maximal score 21.
pub open spec fn task_ok(col1: u32, t: (u32, u32, i8)) -> bool {
    &&& legal2(col1, t.0)
    &&& if t.2 == 0 {
        !second_move_wins(col1, t.0) && legal3(col1, t.0, t.1)
    } else {
        t.2 == 21 && t.1 == 999 && second_move_wins(col1, t.0)
    }
}

/// Expands the first three plies after the opening move `col1` into a flat
/// work list: every legal (second, third) move pair, except that a second
/// move which wins immediately becomes a single sentinel item.  The list is
/// sound (every item is such a pair) and complete (every such pair appears).
pub fn enumerate_tasks(col1: u32) -> (tasks: Vec<(u32, u32, i8)>)
    requires
        col1 < 7,
    ensures
        forall|j: int| 0 <= j < tasks@.len() ==> task_ok(col1, #[trigger] tasks@[j]),
        forall|c2: u32|
            legal2(col1, c2) && second_move_wins(col1, c2) ==> tasks@.contains((c2, 999u32, 21i8)),
        forall|c2: u32, c3: u32|
            legal2(col1, c2) && !second_move_wins(col1, c2) && legal3(col1, c2, c3)
                ==> tasks@.contains((c2, c3, 0i8)),
{
    let mut b1 = Board::new();
    b1.play(col1);
    let mut tasks: Vec<(u32, u32, i8)> = Vec::new();
    let mut c2: u32 = 0;
    while c2 < 7
        invariant
            c2 <= 7,
            col1 < 7,
            b1 == board_after1(col1),
            b1.wf(),
            forall|j: int| 0 <= j < tasks@.len() ==> task_ok(col1, #[trigger] tasks@[j]),
            forall|d2: u32|
                d2 < c2 && legal2(col1, d2) && second_move_wins(col1, d2) ==> tasks@.contains(
                    (d2, 999u32, 21i8),
                ),
            forall|d2: u32, d3: u32|
                d2 < c2 && legal2(col1, d2) && !second_move_wins(col1, d2) && legal3(
                    col1,
                    d2,
                    d3,
                ) ==> tasks@.contains((d2, d3, 0i8)),
        decreases 7 - c2,
    {
        if b1.can_play(c2) {
            let mut b2 = b1;
            b2.play(c2);
            if b2.is_win() {
                let ghost t0 = tasks@;
                tasks.push((c2, 999, 21));
                proof {
                    lemma_push_contains(t0, (c2, 999u32, 21i8));
                }
            } else {
                let mut c3: u32 = 0;
                while c3 < 7
                    invariant
                        c3 <= 7,
                        col1 < 7,
                        c2 < 7,
                        b1 == board_after1(col1),
                        b2 == board_after2(col1, c2),
                        b2.wf(),
                        legal2(col1, c2),
                        !second_move_wins(col1, c2),
                        forall|j: int|
                            0 <= j < tasks@.len() ==> task_ok(col1, #[trigger] tasks@[j]),
                        forall|d2: u32|
                            d2 < c2 && legal2(col1, d2) && second_move_wins(col1, d2)
                                ==> tasks@.contains((d2, 999u32, 21i8)),
                        forall|d2: u32, d3: u32|
                            d2 < c2 && legal2(col1, d2) && !second_move_wins(col1, d2) && legal3(
                                col1,
                                d2,
                                d3,
                            ) ==> tasks@.contains((d2, d3, 0i8)),
                        forall|d3: u32|
                            d3 < c3 && legal3(col1, c2, d3) ==> tasks@.contains((c2, d3, 0i8)),
                    decreases 7 - c3,
                {
                    if b2.can_play(c3) {
                        let ghost t0 = tasks@;
                        tasks.push((c2, c3, 0));
                        proof {
                            lemma_push_contains(t0, (c2, c3, 0i8));
                        }
                    }
                    c3 = c3 + 1;
                }
            }
        }
        c2 = c2 + 1;
    }
    tasks
}

/// Under the enumeration's soundness and completeness and the per-item
/// pinning of the searched scores, each legal reply's column minimum among
/// the results is exactly its opening value.
proof fn lemma_column_pinned(col1: u32, tasks: Seq<(u32, u32, i8)>, s2: Seq<(u32, i8)>, c2: u32)
    requires
        col1 < 7,
        legal2(col1, c2),
        s2.len() == tasks.len(),
        forall|j: int| 0 <= j < tasks.len() ==> task_ok(col1, #[trigger] tasks[j]),
        forall|c: u32|
            legal2(col1, c) && second_move_wins(col1, c) ==> tasks.contains((c, 999u32, 21i8)),
        forall|c: u32, c3: u32|
            legal2(col1, c) && !second_move_wins(col1, c) && legal3(col1, c, c3)
                ==> tasks.contains((c, c3, 0i8)),
        forall|j: int| 0 <= j < s2.len() ==> (#[trigger] s2[j]).0 == tasks[j].0,
        forall|j: int| 0 <= j < s2.len() && tasks[j].2 != 0 ==> (#[trigger] s2[j]).1 == 21,
        forall|j: int|
            0 <= j < s2.len() && tasks[j].2 == 0 ==> (#[trigger] s2[j]).1 == task_value(
                col1,
                tasks[j].0,
                tasks[j].1,
            ),
    ensures
        -21 <= opening_col_value(col1, c2) <= 21,
        col_min(s2, c2, opening_col_value(col1, c2) as i8),
{
    lemma_opening_boards(col1, c2);
    let ocv = opening_col_value(col1, c2);
    if second_move_wins(col1, c2) {
        assert(tasks.contains((c2, 999u32, 21i8)));
        let jt = choose|jt: int| 0 <= jt < tasks.len() && tasks[jt] == (c2, 999u32, 21i8);
        assert(s2[jt].0 == c2 && s2[jt].1 == 21);
        assert(ocv == 21);
        assert(s2[jt] == (c2, 21i8));
    } else {
        let c3e = choose|c3: u32| #[trigger] legal3(col1, c2, c3);
        lemma_reply_min_le(col1, c2, 7, c3e);
        lemma_play_result_wf(board_after2(col1, c2), c3e);
        lemma_game_value_range(board_after3(col1, c2, c3e));
        assert(task_value(col1, c2, c3e) <= 21);
        assert(reply_min(col1, c2, 7) <= 21);
        lemma_reply_min_attained(col1, c2, 7);
        let c3s = choose|c3: u32|
            legal3(col1, c2, c3) && c3 < 7 && reply_min(col1, c2, 7) == #[trigger] task_value(
                col1,
                c2,
                c3,
            );
        lemma_play_result_wf(board_after2(col1, c2), c3s);
        lemma_game_value_range(board_after3(col1, c2, c3s));
        assert(-21 <= ocv <= 21);
        assert(tasks.contains((c2, c3s, 0i8)));
        let jt = choose|jt: int| 0 <= jt < tasks.len() && tasks[jt] == (c2, c3s, 0i8);
        assert(s2[jt].0 == c2 && s2[jt].1 == task_value(col1, c2, c3s));
        assert(s2[jt] == (c2, ocv as i8));
    }
    assert forall|j: int| 0 <= j < s2.len() && (#[trigger] s2[j]).0 == c2 implies s2[j].1
        >= ocv as i8 by {
        assert(task_ok(col1, tasks[j]));
        if tasks[j].2 != 0 {
            assert(second_move_wins(col1, c2));
            assert(s2[j].1 == 21);
        } else {
            assert(!second_move_wins(col1, c2));
            assert(legal3(col1, c2, tasks[j].1));
            assert(s2[j].1 == task_value(col1, c2, tasks[j].1));
            lemma_reply_min_le(col1, c2, 7, tasks[j].1);
        }
    }
    assert(col_min(s2, c2, ocv as i8));
}

impl Solver {
    /// Runs one work item: a sentinel item hands its score back, any other
    /// replays the three opening plies from scratch and searches the
    /// resulting board with the full window at depth zero.  (After three
    /// plies the mover has placed at most two discs, so the pre-search win
    /// check is a guard that cannot fire; it is kept as the driver's shape.)
    pub fn solve_task(&mut self, col1: u32, c2: u32, c3: u32, pre_score: i8) -> (r: (u32, i8))
        requires
            old(self).wf(),
            col1 < 7,
            pre_score == 0 ==> legal2(col1, c2) && legal3(col1, c2, c3),
            pre_score != 0 ==> -21 <= pre_score <= 21,
        ensures
            final(self).wf(),
            r.0 == c2,
            -21 <= r.1 <= 21,
            pre_score != 0 ==> r.1 == pre_score,
            pre_score == 0 && winning_move(board_after2(col1, c2), c3 as u64) ==> r.1 == 21,
            pre_score == 0 && !winning_move(board_after2(col1, c2), c3 as u64) ==> r.1
                == game_value(board_after3(col1, c2, c3)),
    {
        if pre_score != 0 {
            return (c2, pre_score);
        }
        let mut b3 = Board::new();
        b3.play(col1);
        b3.play(c2);
        b3.play(c3);
        proof {
            assert(b3 == board_after3(col1, c2, c3));
            lemma_game_value_range(b3);
        }
        if b3.is_win() {
            (c2, 21)
        } else {
            let s = self.solve(b3, -22, 22, 0);
            (c2, s)
        }
    }

    /// Solves one opening move: expands the first three plies, searches every
    /// work item, folds the results into the move's root value and derives
    /// its verdict.  The aggregated score is exactly the opening value: the
    /// maximum over the legal replies of 21 for a reply that wins on the
    /// spot, and otherwise of the minimum over the legal third moves of the
    /// searched position's game value.
    pub fn solve_first_move(&mut self, col1: u32) -> (r: (i8, Verdict, i32))
        requires
            old(self).wf(),
            col1 < 7,
        ensures
            final(self).wf(),
            -22 <= r.0 <= 22,
            (r.1, r.2) == verdict_spec(r.0),
            r.0 == opening_value(col1),
    {
        let tasks = enumerate_tasks(col1);
        let mut results: Vec<(u32, i8)> = Vec::new();
        let mut i: usize = 0;
        while i < tasks.len()
            invariant
                i <= tasks@.len(),
                self.wf(),
                col1 < 7,
                results@.len() == i,
                forall|j: int| 0 <= j < tasks@.len() ==> task_ok(col1, #[trigger] tasks@[j]),
                forall|c: u32|
                    legal2(col1, c) && second_move_wins(col1, c) ==> tasks@.contains(
                        (c, 999u32, 21i8),
                    ),
                forall|c: u32, c3: u32|
                    legal2(col1, c) && !second_move_wins(col1, c) && legal3(col1, c, c3)
                        ==> tasks@.contains((c, c3, 0i8)),
                forall|j: int| 0 <= j < i ==> (#[trigger] results@[j]).0 == tasks@[j].0,
                forall|j: int|
                    0 <= j < i && tasks@[j].2 != 0 ==> (#[trigger] results@[j]).1 == 21,
                forall|j: int|
                    0 <= j < i && tasks@[j].2 == 0 ==> (#[trigger] results@[j]).1 == task_value(
                        col1,
                        tasks@[j].0,
                        tasks@[j].1,
                    ),
                forall|j: int|
                    0 <= j < results@.len() ==> (#[trigger] results@[j]).0 < 7
                        && -22 <= results@[j].1 <= 22,
            decreases tasks@.len() - i,
        {
            let t = tasks[i];
            let outcome = self.solve_task(col1, t.0, t.1, t.2);
            results.push(outcome);
            i = i + 1;
        }
        let score = aggregate_scores(&results);
        proof {
            let s2 = results@;
            // Some reply is always legal after one ply, so the results are
            // nonempty and the aggregate's root value is in force.
            lemma_empty_board_heights();
            lemma_play_result_wf(empty_board(), col1);
            crate::solver::lemma_board_has_room(board_after1(col1));
            let c20u = choose|c: u64| c < 7 && col_height(board_after1(col1).mask, c) < 6;
            let c20 = c20u as u32;
            assert(legal2(col1, c20));
            lemma_column_pinned(col1, tasks@, s2, c20);
            let j20 = choose|j: int| 0 <= j < s2.len() && s2[j] == (c20, opening_col_value(col1, c20) as i8);
            assert(s2.len() > 0);
            assert(root_value(s2, score));
            // The aggregated score is some column's minimum, and that column
            // is a legal reply whose minimum is its opening value.
            let cm = choose|c: u32| #[trigger] col_min(s2, c, score);
            let jm = choose|j: int| 0 <= j < s2.len() && s2[j] == (cm, score);
            assert(task_ok(col1, tasks@[jm]));
            assert(legal2(col1, cm));
            lemma_column_pinned(col1, tasks@, s2, cm);
            let jcm = choose|j: int|
                0 <= j < s2.len() && s2[j] == (cm, opening_col_value(col1, cm) as i8);
            assert(s2[jcm].1 >= score);
            assert(s2[jm].1 >= opening_col_value(col1, cm) as i8);
            assert(score == opening_col_value(col1, cm));
            lemma_opening_best_ge(col1, 7, cm);
            assert(score <= opening_value(col1));
            // Conversely the best reply's value is one of the column minima,
            // so the aggregate reaches it.
            lemma_opening_best_attained(col1, 7);
            assert(opening_best(col1, 7) >= opening_col_value(col1, c20));
            assert(opening_best(col1, 7) != -22) by {
                lemma_opening_best_ge(col1, 7, c20);
            }
            let cb = choose|c2: u32|
                legal2(col1, c2) && c2 < 7 && opening_best(col1, 7) == #[trigger] opening_col_value(
                    col1,
                    c2,
                );
            lemma_column_pinned(col1, tasks@, s2, cb);
            assert(opening_col_value(col1, cb) as i8 <= score);
            assert(opening_value(col1) <= score);
            assert(score == opening_value(col1));
        }
        let (v, n) = verdict_of(score);
        (score, v, n)
    }
}

} // verus!
