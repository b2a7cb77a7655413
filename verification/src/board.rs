use vstd::prelude::*;

verus! {

/// Number of columns on the board.
pub const WIDTH: u32 = 7;
/// Number of playable rows in each column.
pub const HEIGHT: u32 = 6;
/// Total number of cells.
pub const SIZE: u32 = 42;

/// Mask of the 42 playable cells: bits `7*c + r` for columns `c < 7` and rows
/// `r < 6`.  Bit `7*c + 6` is each column's guard bit and is never set by play.
pub const BOARD_MASK: u64 = 0xFDFB_F7EF_DFBF;

/// True iff bit `i` of `x` is set (meaningful for `i < 64`).
pub open spec fn nth_bit(x: u64, i: u64) -> bool {
    (x >> i) & 1 == 1
}

/// The 7-bit field of column `c` (six playable rows plus the guard bit).
pub open spec fn col_field(m: u64, c: u64) -> u64 {
    (m >> ((7 * c) as u64)) & 0x7f
}

/// True iff `x` is a contiguous run of low bits, at most six long: the shape a
/// column field takes when discs are stacked from the bottom.
pub open spec fn low_run(x: u64) -> bool {
    x == 0 || x == 1 || x == 3 || x == 7 || x == 15 || x == 31 || x == 63
}

/// The number of discs a low-run column field encodes.
pub open spec fn height_of(x: u64) -> u64 {
    if x == 0 {
        0
    } else if x == 1 {
        1
    } else if x == 3 {
        2
    } else if x == 7 {
        3
    } else if x == 15 {
        4
    } else if x == 31 {
        5
    } else {
        6
    }
}

/// Number of discs in column `c` of occupancy mask `m`.
pub open spec fn col_height(m: u64, c: u64) -> u64 {
    height_of(col_field(m, c))
}

/// Total number of discs on the board with occupancy mask `m`.
pub open spec fn stone_count(m: u64) -> int {
    col_height(m, 0) + col_height(m, 1) + col_height(m, 2) + col_height(m, 3) + col_height(
        m,
        4,
    ) + col_height(m, 5) + col_height(m, 6)
}

/// The bit of the cell in column `c` at height `h`.
pub open spec fn cell_bit(c: u64, h: u64) -> u64 {
    1u64 << ((7 * c + h) as u64)
}

/// True iff `pos` holds four set bits spaced `d` apart, the pattern the
/// shift-and trick of `is_win` detects for shift delta `d`.
pub open spec fn has_line(pos: u64, d: u64) -> bool {
    exists|i: u64|
        i + 3 * d < 64 && #[trigger] nth_bit(pos, i) && nth_bit(pos, (i + d) as u64) && nth_bit(
            pos,
            (i + 2 * d) as u64,
        ) && nth_bit(pos, (i + 3 * d) as u64)
}

/// What `is_win` reports of a stone mask: a line of four along one of the
/// four board directions as shift deltas: 1 (vertical), 6 (falling
/// diagonal), 7 (horizontal) and 8 (rising diagonal).
pub open spec fn wins(pos: u64) -> bool {
    has_line(pos, 1) || has_line(pos, 6) || has_line(pos, 7) || has_line(pos, 8)
}

/// True iff the cell in column `c`, row `r` is set in the stone mask `pos`.
pub open spec fn cell(pos: u64, c: int, r: int) -> bool {
    0 <= c < 7 && 0 <= r < 6 && nth_bit(pos, (7 * c + r) as u64)
}

/// Four of the mask's cells stacked in one column.
pub open spec fn has_vertical_run(pos: u64) -> bool {
    exists|c: int, r: int|
        #[trigger] cell(pos, c, r) && cell(pos, c, r + 1) && cell(pos, c, r + 2) && cell(
            pos,
            c,
            r + 3,
        )
}

/// Four of the mask's cells adjacent in one row.
pub open spec fn has_horizontal_run(pos: u64) -> bool {
    exists|c: int, r: int|
        #[trigger] cell(pos, c, r) && cell(pos, c + 1, r) && cell(pos, c + 2, r) && cell(
            pos,
            c + 3,
            r,
        )
}

/// Four of the mask's cells on a diagonal rising to the right.
pub open spec fn has_up_diagonal_run(pos: u64) -> bool {
    exists|c: int, r: int|
        #[trigger] cell(pos, c, r) && cell(pos, c + 1, r + 1) && cell(pos, c + 2, r + 2) && cell(
            pos,
            c + 3,
            r + 3,
        )
}

/// Four of the mask's cells on a diagonal falling to the right.
pub open spec fn has_down_diagonal_run(pos: u64) -> bool {
    exists|c: int, r: int|
        #[trigger] cell(pos, c, r) && cell(pos, c + 1, r - 1) && cell(pos, c + 2, r - 2) && cell(
            pos,
            c + 3,
            r - 3,
        )
}

/// Four contiguous cells of one player in a column, a row or a diagonal.
pub open spec fn has_run(pos: u64) -> bool {
    has_vertical_run(pos) || has_horizontal_run(pos) || has_up_diagonal_run(pos)
        || has_down_diagonal_run(pos)
}

/// True iff `pos` sets only playable cells (no guard bits, nothing above
/// column six).
pub open spec fn stones_only(pos: u64) -> bool {
    pos & BOARD_MASK == pos
}

/// Playing `col` on `b` is legal and gives the mover four in a line as
/// `is_win` measures it.
pub open spec fn winning_move(b: Board, col: u64) -> bool {
    col < 7 && col_height(b.mask, col) < 6 && wins(
        b.position | cell_bit(col, col_height(b.mask, col)),
    )
}

/// The player to move on `b` can win immediately.
pub open spec fn has_winning_move(b: Board) -> bool {
    exists|col: u64| #[trigger] winning_move(b, col)
}

/// The board `play` produces from `b` and a legal column, as a value.
pub open spec fn play_result(b: Board, col: u32) -> Board {
    Board {
        position: b.position ^ b.mask,
        mask: b.mask | cell_bit(col as u64, col_height(b.mask, col as u64)),
        moves: (b.moves + 1) as u32,
    }
}

/// The empty board as a value.
pub open spec fn empty_board() -> Board {
    Board { position: 0, mask: 0, moves: 0 }
}

/// The canonical key of a board: the arithmetic sum of its two masks.
pub open spec fn key_of(b: Board) -> u64 {
    (b.position + b.mask) as u64
}

/// On a well-formed board the key's sum does not overflow, so the key equals
/// the mathematical sum of the two masks.
pub proof fn lemma_key_of_int(b: Board)
    requires
        b.wf(),
    ensures
        key_of(b) == b.position + b.mask,
{
    let p = b.position;
    let m = b.mask;
    assert(p <= m && m < 0x2_0000_0000_0000) by (bit_vector)
        requires
            p & m == p,
            m >> 49 == 0,
    ;
}

/// A position as two 64-bit masks plus a move counter: `position` holds the
/// cells of the player to move, `mask` all occupied cells.
#[derive(Clone, Copy, PartialEq, Eq, Hash, Structural)]
pub struct Board {
    pub position: u64,
    pub mask: u64,
    pub moves: u32,
}

impl Board {
    /// Well-formedness: the mover's cells lie within the occupied cells, only
    /// the 49 column-field bits are used, every column is a contiguous stack,
    /// and `moves` counts the discs on the board.
    pub open spec fn wf(self) -> bool {
        &&& self.position & self.mask == self.position
        &&& self.mask >> 49 == 0
        &&& forall|c: u64| c < 7 ==> low_run(#[trigger] col_field(self.mask, c))
        &&& self.moves == stone_count(self.mask)
    }

    /// The empty board.
    pub fn new() -> (b: Board)
        ensures
            b.wf(),
            b == empty_board(),
            forall|c: u64| c < 7 ==> col_height(b.mask, c) == 0,
    {
        let b = Board { position: 0, mask: 0, moves: 0 };
        proof {
            assert(0u64 & 0u64 == 0 && 0u64 >> 49 == 0) by (bit_vector);
            assert forall|c: u64| c < 7 implies #[trigger] col_field(0u64, c) == 0 by {
                assert((0u64 >> ((7 * c) as u64)) & 0x7f == 0) by (bit_vector);
            }
        }
        b
    }

    /// True iff column `col` still has room: its guard-row test is equivalent
    /// to the column holding fewer than six discs.
    pub fn can_play(&self, col: u32) -> (r: bool)
        requires
            self.wf(),
            col < 7,
        ensures
            r == (col_height(self.mask, col as u64) < 6),
    {
        let sh: u64 = (col * 7 + 5) as u64;
        let r = (self.mask & (1u64 << sh)) == 0;
        proof {
            let m = self.mask;
            let c = col as u64;
            let f = col_field(m, c);
            assert(low_run(f));
            assert(((m & (1u64 << ((7 * c + 5) as u64))) == 0) == (height_of(f) < 6))
                by (bit_vector)
                requires
                    c < 7,
                    f == (m >> ((7 * c) as u64)) & 0x7f,
                    low_run(f),
            ;
        }
        r
    }

    /// Applies a move in column `col`: swaps the perspective and sets the
    /// lowest empty cell of the column.  The caller must have checked
    /// legality via `can_play`.
    #[verifier::rlimit(60)]
    pub fn play(&mut self, col: u32)
        requires
            old(self).wf(),
            col < 7,
            col_height(old(self).mask, col as u64) < 6,
        ensures
            final(self).wf(),
            final(self).moves == old(self).moves + 1,
            final(self).position == old(self).position ^ old(self).mask,
            final(self).mask == old(self).mask | cell_bit(
                col as u64,
                col_height(old(self).mask, col as u64),
            ),
            final(self).position ^ final(self).mask == old(self).position | cell_bit(
                col as u64,
                col_height(old(self).mask, col as u64),
            ),
            col_height(final(self).mask, col as u64) == col_height(
                old(self).mask,
                col as u64,
            ) + 1,
            forall|c2: u64|
                c2 < 7 && c2 != col as u64 ==> col_height(final(self).mask, c2) == col_height(
                    old(self).mask,
                    c2,
                ),
            *final(self) == play_result(*old(self), col),
    {
        let ghost c = col as u64;
        let ghost m = self.mask;
        let ghost p = self.position;
        let ghost h = col_height(m, c);
        proof {
            assert(low_run(col_field(m, c)));
            assert(col_field(m, c) == (1u64 << h) - 1) by (bit_vector)
                requires
                    low_run(col_field(m, c)),
                    h == height_of(col_field(m, c)),
                    h < 6,
            ;
            lemma_play_mask(m, c, h);
            assert(stone_count(m) <= 42);
        }
        let sh: u64 = (col * 7) as u64;
        self.position = self.position ^ self.mask;
        self.mask = self.mask | (self.mask + (1u64 << sh));
        self.moves = self.moves + 1;
        proof {
            lemma_play_wf(p, m, c, h, self.position, self.mask);
        }
    }

    /// Whether the player who just moved has four in a line along one of the
    /// four shift deltas, measured on `position XOR mask` (that player's
    /// stones).
    pub fn is_win(&self) -> (r: bool)
        ensures
            r == wins(self.position ^ self.mask),
    {
        let pos = self.position ^ self.mask;
        line_hit(pos, 1) || line_hit(pos, 6) || line_hit(pos, 7) || line_hit(pos, 8)
    }

    /// The canonical key of a position: the arithmetic sum of the two masks.
    pub fn key(&self) -> (r: u64)
        requires
            self.wf(),
        ensures
            r == key_of(*self),
            r == self.position + self.mask,
    {
        proof {
            lemma_key_of_int(*self);
        }
        self.position + self.mask
    }
}

/// Adding a one at a column's base carries up to the lowest empty cell; the
/// or with the old mask restores the column below it.
proof fn lemma_play_mask(m: u64, c: u64, h: u64)
    by (bit_vector)
    requires
        c < 7,
        h < 6,
        m >> 49 == 0,
        (m >> ((7 * c) as u64)) & 0x7f == (1u64 << h) - 1,
    ensures
        m + (1u64 << ((7 * c) as u64)) <= 0x4_0000_0000_0000,
        m | ((m + (1u64 << ((7 * c) as u64))) as u64) == m | (1u64 << ((7 * c + h) as u64)),
        m & (1u64 << ((7 * c + h) as u64)) == 0,
        (m | (1u64 << ((7 * c + h) as u64))) >> 49 == 0,
{
}

/// Setting a cell in column `c` leaves every other column's field unchanged.
proof fn lemma_play_other(m: u64, c: u64, h: u64, c2: u64)
    by (bit_vector)
    requires
        c < 7,
        h < 6,
        c2 < 7,
        c2 != c,
    ensures
        ((m | (1u64 << ((7 * c + h) as u64))) >> ((7 * c2) as u64)) & 0x7f == (m >> ((7 * c2)
            as u64)) & 0x7f,
{
}

/// After the perspective swap the mover's old cells lie in the new mask, and
/// the opponent-to-be's cells are the old mover's cells plus the new disc.
proof fn lemma_play_position(p: u64, m: u64, b: u64)
    by (bit_vector)
    requires
        p & m == p,
        m & b == 0,
    ensures
        (p ^ m) & (m | b) == (p ^ m),
        (p ^ m) ^ (m | b) == p | b,
{
}

/// The shift-and trick for one delta: and the stones with themselves shifted
/// by `d` and by `2*d`; a nonzero result is exactly a line of four.
fn line_hit(pos: u64, d: u64) -> (r: bool)
    requires
        1 <= d <= 9,
    ensures
        r == has_line(pos, d),
{
    let m = pos & (pos >> d);
    let r = (m & (m >> (2 * d))) != 0;
    proof {
        lemma_line_hit(pos, d);
    }
    r
}

/// A nonzero word has a set bit at or above index `k`.
proof fn lemma_nonzero_bit(x: u64, k: u64) -> (j: u64)
    requires
        k < 64,
        x >> k != 0,
    ensures
        j < 64,
        nth_bit(x, j),
    decreases 64 - k,
{
    if (x >> k) & 1 == 1 {
        k
    } else {
        assert(k < 63 && x >> ((k + 1) as u64) != 0) by (bit_vector)
            requires
                k < 64,
                x >> k != 0,
                (x >> k) & 1 != 1,
        ;
        lemma_nonzero_bit(x, (k + 1) as u64)
    }
}

/// The shift-and formula is nonzero exactly when four set bits spaced `d`
/// apart exist.
proof fn lemma_line_hit(pos: u64, d: u64)
    requires
        1 <= d <= 9,
    ensures
        ((pos & (pos >> d)) & ((pos & (pos >> d)) >> ((2 * d) as u64)) != 0) == has_line(pos, d),
{
    let f = (pos & (pos >> d)) & ((pos & (pos >> d)) >> ((2 * d) as u64));
    if f != 0 {
        assert(f >> 0u64 == f) by (bit_vector);
        let j = lemma_nonzero_bit(f, 0);
        assert(j + 3 * d < 64 && nth_bit(pos, j) && nth_bit(pos, (j + d) as u64) && nth_bit(
            pos,
            (j + 2 * d) as u64,
        ) && nth_bit(pos, (j + 3 * d) as u64)) by (bit_vector)
            requires
                1 <= d <= 9,
                j < 64,
                (f >> j) & 1 == 1,
                f == (pos & (pos >> d)) & ((pos & (pos >> d)) >> ((2 * d) as u64)),
        ;
        assert(has_line(pos, d));
    }
    if has_line(pos, d) {
        let i = choose|i: u64|
            i + 3 * d < 64 && #[trigger] nth_bit(pos, i) && nth_bit(pos, (i + d) as u64) && nth_bit(
                pos,
                (i + 2 * d) as u64,
            ) && nth_bit(pos, (i + 3 * d) as u64);
        assert(f != 0) by (bit_vector)
            requires
                1 <= d <= 9,
                i + 3 * d < 64,
                (pos >> i) & 1 == 1,
                (pos >> ((i + d) as u64)) & 1 == 1,
                (pos >> ((i + 2 * d) as u64)) & 1 == 1,
                (pos >> ((i + 3 * d) as u64)) & 1 == 1,
                f == (pos & (pos >> d)) & ((pos & (pos >> d)) >> ((2 * d) as u64)),
        ;
    }
}

/// A legal move preserves the board invariant: the chosen column grows by one
/// disc, every other column keeps its field, and the disc total rises by one.
#[verifier::rlimit(60)]
proof fn lemma_play_wf(p: u64, m: u64, c: u64, h: u64, p2: u64, m2: u64)
    requires
        p & m == p,
        m >> 49 == 0,
        forall|k: u64| k < 7 ==> low_run(#[trigger] col_field(m, k)),
        c < 7,
        h == col_height(m, c),
        h < 6,
        p2 == p ^ m,
        m2 == m | cell_bit(c, h),
    ensures
        p2 & m2 == p2,
        m2 >> 49 == 0,
        forall|k: u64| k < 7 ==> low_run(#[trigger] col_field(m2, k)),
        col_height(m2, c) == h + 1,
        forall|k: u64| k < 7 && k != c ==> col_height(m2, k) == col_height(m, k),
        stone_count(m2) == stone_count(m) + 1,
        p2 ^ m2 == p | cell_bit(c, h),
{
    assert(low_run(col_field(m, c)));
    assert(col_field(m, c) == (1u64 << h) - 1) by (bit_vector)
        requires
            low_run(col_field(m, c)),
            h == height_of(col_field(m, c)),
            h < 6,
    ;
    lemma_play_mask(m, c, h);
    lemma_play_position(p, m, cell_bit(c, h));
    assert(low_run(col_field(m2, c)) && col_height(m2, c) == h + 1) by (bit_vector)
        requires
            c < 7,
            h < 6,
            m2 == m | (1u64 << ((7 * c + h) as u64)),
            (m >> ((7 * c) as u64)) & 0x7f == (1u64 << h) - 1,
    ;
    assert forall|k: u64| k < 7 && k != c implies #[trigger] col_field(m2, k) == col_field(
        m,
        k,
    ) by {
        lemma_play_other(m, c, h, k);
    }
    assert(stone_count(m2) == stone_count(m) + 1);
}

/// `play_result` of a legal move, as `play` computes it: the invariant is
/// kept, the move count rises by one, the chosen column grows by one disc
/// and no other column changes, and the mover-after's stones are the old
/// mover's stones plus the new disc.
pub proof fn lemma_play_result_wf(b: Board, col: u32)
    requires
        b.wf(),
        col < 7,
        col_height(b.mask, col as u64) < 6,
    ensures
        play_result(b, col).wf(),
        play_result(b, col).moves == b.moves + 1,
        play_result(b, col).position ^ play_result(b, col).mask == b.position | cell_bit(
            col as u64,
            col_height(b.mask, col as u64),
        ),
        col_height(play_result(b, col).mask, col as u64) == col_height(b.mask, col as u64) + 1,
        forall|c2: u64|
            c2 < 7 && c2 != col as u64 ==> col_height(play_result(b, col).mask, c2) == col_height(
                b.mask,
                c2,
            ),
{
    let c = col as u64;
    let m = b.mask;
    let h = col_height(m, c);
    assert(low_run(col_field(m, c)));
    assert(col_field(m, c) == (1u64 << h) - 1) by (bit_vector)
        requires
            low_run(col_field(m, c)),
            h == height_of(col_field(m, c)),
            h < 6,
    ;
    lemma_play_mask(m, c, h);
    assert(stone_count(m) <= 42);
    lemma_play_wf(b.position, m, c, h, b.position ^ m, m | cell_bit(c, h));
}

/// Every run of four in a column, a row or either diagonal is seen by the
/// shift test, whatever else the mask holds.
pub proof fn lemma_runs_detected(pos: u64)
    ensures
        has_run(pos) ==> wins(pos),
{
    if has_down_diagonal_run(pos) {
        let (c, r) = choose|c: int, r: int|
            #[trigger] cell(pos, c, r) && cell(pos, c + 1, r - 1) && cell(pos, c + 2, r - 2)
                && cell(pos, c + 3, r - 3);
        let i = (7 * c + r) as u64;
        assert(i + 3 * 6 < 64 && nth_bit(pos, i) && nth_bit(pos, (i + 6) as u64) && nth_bit(
            pos,
            (i + 2 * 6) as u64,
        ) && nth_bit(pos, (i + 3 * 6) as u64));
        assert(has_line(pos, 6));
    }
    if has_vertical_run(pos) {
        let (c, r) = choose|c: int, r: int|
            #[trigger] cell(pos, c, r) && cell(pos, c, r + 1) && cell(pos, c, r + 2) && cell(
                pos,
                c,
                r + 3,
            );
        let i = (7 * c + r) as u64;
        assert(i + 3 * 1 < 64 && nth_bit(pos, i) && nth_bit(pos, (i + 1) as u64) && nth_bit(
            pos,
            (i + 2 * 1) as u64,
        ) && nth_bit(pos, (i + 3 * 1) as u64));
        assert(has_line(pos, 1));
    }
    if has_horizontal_run(pos) {
        let (c, r) = choose|c: int, r: int|
            #[trigger] cell(pos, c, r) && cell(pos, c + 1, r) && cell(pos, c + 2, r) && cell(
                pos,
                c + 3,
                r,
            );
        let i = (7 * c + r) as u64;
        assert(i + 3 * 7 < 64 && nth_bit(pos, i) && nth_bit(pos, (i + 7) as u64) && nth_bit(
            pos,
            (i + 2 * 7) as u64,
        ) && nth_bit(pos, (i + 3 * 7) as u64));
        assert(has_line(pos, 7));
    }
    if has_up_diagonal_run(pos) {
        let (c, r) = choose|c: int, r: int|
            #[trigger] cell(pos, c, r) && cell(pos, c + 1, r + 1) && cell(pos, c + 2, r + 2)
                && cell(pos, c + 3, r + 3);
        let i = (7 * c + r) as u64;
        assert(i + 3 * 8 < 64 && nth_bit(pos, i) && nth_bit(pos, (i + 8) as u64) && nth_bit(
            pos,
            (i + 2 * 8) as u64,
        ) && nth_bit(pos, (i + 3 * 8) as u64));
        assert(has_line(pos, 8));
    }
}

/// On a mask of playable cells, a delta-1 line of four stays inside one
/// column, so it is a vertical run.
proof fn lemma_line1_vertical(pos: u64)
    requires
        stones_only(pos),
    ensures
        has_line(pos, 1) ==> has_vertical_run(pos),
{
    if has_line(pos, 1) {
        let i = choose|i: u64|
            i + 3 * 1 < 64 && #[trigger] nth_bit(pos, i) && nth_bit(pos, (i + 1) as u64)
                && nth_bit(pos, (i + 2 * 1) as u64) && nth_bit(pos, (i + 3 * 1) as u64);
        assert(i % 7 <= 2 && i / 7 <= 6 && 7 * (i / 7) + i % 7 == i) by (bit_vector)
            requires
                pos & 0xFDFB_F7EF_DFBFu64 == pos,
                i + 3 < 64,
                (pos >> i) & 1 == 1,
                (pos >> ((i + 1) as u64)) & 1 == 1,
                (pos >> ((i + 2) as u64)) & 1 == 1,
                (pos >> ((i + 3) as u64)) & 1 == 1,
        ;
        let c = (i / 7) as int;
        let r = (i % 7) as int;
        assert(cell(pos, c, r) && cell(pos, c, r + 1) && cell(pos, c, r + 2) && cell(
            pos,
            c,
            r + 3,
        ));
        assert(has_vertical_run(pos));
    }
}

/// On a mask of playable cells, a delta-7 line of four crosses four adjacent
/// columns at one row, so it is a horizontal run.
proof fn lemma_line7_horizontal(pos: u64)
    requires
        stones_only(pos),
    ensures
        has_line(pos, 7) ==> has_horizontal_run(pos),
{
    if has_line(pos, 7) {
        let i = choose|i: u64|
            i + 3 * 7 < 64 && #[trigger] nth_bit(pos, i) && nth_bit(pos, (i + 7) as u64)
                && nth_bit(pos, (i + 2 * 7) as u64) && nth_bit(pos, (i + 3 * 7) as u64);
        assert(i % 7 <= 5 && i / 7 <= 3 && 7 * (i / 7) + i % 7 == i) by (bit_vector)
            requires
                pos & 0xFDFB_F7EF_DFBFu64 == pos,
                i + 21 < 64,
                (pos >> i) & 1 == 1,
                (pos >> ((i + 7) as u64)) & 1 == 1,
                (pos >> ((i + 14) as u64)) & 1 == 1,
                (pos >> ((i + 21) as u64)) & 1 == 1,
        ;
        let c = (i / 7) as int;
        let r = (i % 7) as int;
        assert(cell(pos, c, r) && cell(pos, c + 1, r) && cell(pos, c + 2, r) && cell(
            pos,
            c + 3,
            r,
        ));
        assert(has_horizontal_run(pos));
    }
}

/// On a mask of playable cells, a delta-8 line of four climbs one row per
/// column, so it is a rising-diagonal run.
proof fn lemma_line8_up_diagonal(pos: u64)
    requires
        stones_only(pos),
    ensures
        has_line(pos, 8) ==> has_up_diagonal_run(pos),
{
    if has_line(pos, 8) {
        let i = choose|i: u64|
            i + 3 * 8 < 64 && #[trigger] nth_bit(pos, i) && nth_bit(pos, (i + 8) as u64)
                && nth_bit(pos, (i + 2 * 8) as u64) && nth_bit(pos, (i + 3 * 8) as u64);
        assert(i % 7 <= 2 && i / 7 <= 3 && 7 * (i / 7) + i % 7 == i) by (bit_vector)
            requires
                pos & 0xFDFB_F7EF_DFBFu64 == pos,
                i + 24 < 64,
                (pos >> i) & 1 == 1,
                (pos >> ((i + 8) as u64)) & 1 == 1,
                (pos >> ((i + 16) as u64)) & 1 == 1,
                (pos >> ((i + 24) as u64)) & 1 == 1,
        ;
        let c = (i / 7) as int;
        let r = (i % 7) as int;
        assert(cell(pos, c, r) && cell(pos, c + 1, r + 1) && cell(pos, c + 2, r + 2) && cell(
            pos,
            c + 3,
            r + 3,
        ));
        assert(has_up_diagonal_run(pos));
    }
}

/// On a mask of playable cells, a delta-6 line of four drops one row per
/// column, so it is a falling-diagonal run.
proof fn lemma_line6_down_diagonal(pos: u64)
    requires
        stones_only(pos),
    ensures
        has_line(pos, 6) ==> has_down_diagonal_run(pos),
{
    if has_line(pos, 6) {
        let i = choose|i: u64|
            i + 3 * 6 < 64 && #[trigger] nth_bit(pos, i) && nth_bit(pos, (i + 6) as u64)
                && nth_bit(pos, (i + 2 * 6) as u64) && nth_bit(pos, (i + 3 * 6) as u64);
        assert(3 <= i % 7 && i % 7 <= 5 && i / 7 <= 3 && 7 * (i / 7) + i % 7 == i) by (bit_vector)
            requires
                pos & 0xFDFB_F7EF_DFBFu64 == pos,
                i + 18 < 64,
                (pos >> i) & 1 == 1,
                (pos >> ((i + 6) as u64)) & 1 == 1,
                (pos >> ((i + 12) as u64)) & 1 == 1,
                (pos >> ((i + 18) as u64)) & 1 == 1,
        ;
        let c = (i / 7) as int;
        let r = (i % 7) as int;
        assert(cell(pos, c, r) && cell(pos, c + 1, r - 1) && cell(pos, c + 2, r - 2) && cell(
            pos,
            c + 3,
            r - 3,
        ));
        assert(has_down_diagonal_run(pos));
    }
}

/// Win-detection law: on a mask of playable cells the shift test reports a
/// win exactly when the mask holds a run of four in a column, a row or
/// either diagonal.
pub proof fn lemma_win_detection(pos: u64)
    requires
        stones_only(pos),
    ensures
        wins(pos) == has_run(pos),
{
    lemma_runs_detected(pos);
    lemma_line1_vertical(pos);
    lemma_line6_down_diagonal(pos);
    lemma_line7_horizontal(pos);
    lemma_line8_up_diagonal(pos);
}

/// Key uniqueness: the arithmetic key `position + mask` of a well-formed
/// board determines the board.  Two boards with the same cell contents and
/// player to move share their key by construction; two boards that differ in
/// any cell or in parity differ in `position` or `mask` and so in the key.
#[verifier::rlimit(100)]
pub proof fn lemma_key_injective(b1: Board, b2: Board)
    requires
        b1.wf(),
        b2.wf(),
        b1.position + b1.mask == b2.position + b2.mask,
    ensures
        b1.position == b2.position,
        b1.mask == b2.mask,
        b1.moves == b2.moves,
{
    let p1 = b1.position;
    let m1 = b1.mask;
    let p2 = b2.position;
    let m2 = b2.mask;
    assert(p1 == p2 && m1 == m2) by (bit_vector)
        requires
            p1 & m1 == p1,
            p2 & m2 == p2,
            m1 >> 49 == 0,
            m2 >> 49 == 0,
            low_run(col_field(m1, 0)),
            low_run(col_field(m1, 1)),
            low_run(col_field(m1, 2)),
            low_run(col_field(m1, 3)),
            low_run(col_field(m1, 4)),
            low_run(col_field(m1, 5)),
            low_run(col_field(m1, 6)),
            low_run(col_field(m2, 0)),
            low_run(col_field(m2, 1)),
            low_run(col_field(m2, 2)),
            low_run(col_field(m2, 3)),
            low_run(col_field(m2, 4)),
            low_run(col_field(m2, 5)),
            low_run(col_field(m2, 6)),
            p1 + m1 == p2 + m2,
    ;
}

} // verus!
