use vstd::prelude::*;

use crate::text::str_eq;

verus! {

/// The way a sprite faces.
#[derive(Clone, Copy, Debug, PartialEq, Eq, Structural)]
pub enum Direction {
    Up,
    Left,
    Right,
    Down,
}

/// The column of a directional sprite sheet that shows `dir`.
pub open spec fn column_spec(dir: Direction) -> int {
    match dir {
        Direction::Up => 0,
        Direction::Left => 1,
        Direction::Right => 2,
        Direction::Down => 3,
    }
}

pub fn direction_column(dir: Direction) -> (r: usize)
    ensures
        r == column_spec(dir),
{
    match dir {
        Direction::Up => 0,
        Direction::Left => 1,
        Direction::Right => 2,
        Direction::Down => 3,
    }
}

/// The frame shown after `current` in a sheet of `total` frames laid out
/// `cols` to a row: the next row, wrapping to the first, same column.
pub open spec fn next_frame_spec(current: int, cols: int, total: int) -> int {
    ((current / cols + 1) % (total / cols)) * cols + current % cols
}

pub fn next_frame(current: usize, cols: usize, total: usize) -> (r: usize)
    requires
        current < total,
        cols > 0,
        total / cols > 0,
    ensures
        r == next_frame_spec(current as int, cols as int, total as int),
{
    let col = current % cols;
    let rows = total / cols;
    proof {
        assert(current / cols <= current) by (nonlinear_arith)
            requires
                cols > 0,
        ;
    }
    let next_row = (current / cols + 1) % rows;
    proof {
        assert(next_row * cols + col < rows * cols) by (nonlinear_arith)
            requires
                next_row < rows,
                col < cols,
        ;
        assert(rows * cols <= total) by (nonlinear_arith)
            requires
                rows == total / cols,
                cols > 0,
        ;
    }
    next_row * cols + col
}

/// Advancing keeps the column and stays inside the sheet.
pub proof fn lemma_next_frame_keeps_column(current: int, cols: int, total: int)
    requires
        cols > 0,
        total / cols > 0,
        current >= 0,
    ensures
        next_frame_spec(current, cols, total) % cols == current % cols,
        0 <= next_frame_spec(current, cols, total) < total,
{
    let rows = total / cols;
    let next_row = (current / cols + 1) % rows;
    let col = current % cols;
    assert(0 <= next_row < rows);
    assert(0 <= col < cols);
    assert((next_row * cols + col) % cols == col) by {
        vstd::arithmetic::div_mod::lemma_mod_multiples_vanish(next_row, col, cols);
        vstd::arithmetic::div_mod::lemma_small_mod(col as nat, cols as nat);
        assert(cols * next_row == next_row * cols) by (nonlinear_arith);
    }
    assert(next_row * cols + col < rows * cols) by (nonlinear_arith)
        requires
            next_row < rows,
            col < cols,
            next_row >= 0,
            col >= 0,
            cols > 0,
    ;
    assert(rows * cols <= total) by (nonlinear_arith)
        requires
            rows == total / cols,
            cols > 0,
    ;
    assert(next_row * cols >= 0) by (nonlinear_arith)
        requires
            next_row >= 0,
            cols > 0,
    ;
}

/// The frame shown after `n` advances from `current`.
pub open spec fn advance_frames(current: int, cols: int, total: int, n: nat) -> int
    decreases n,
{
    if n == 0 {
        current
    } else {
        next_frame_spec(advance_frames(current, cols, total, (n - 1) as nat), cols, total)
    }
}

proof fn lemma_advance_frames(current: int, cols: int, total: int, n: nat)
    requires
        cols > 0,
        total / cols > 0,
        0 <= current < (total / cols) * cols,
    ensures
        advance_frames(current, cols, total, n) == ((current / cols + n) % (total / cols)) * cols
            + current % cols,
    decreases n,
{
    let rows = total / cols;
    let r = current / cols;
    let c = current % cols;
    vstd::arithmetic::div_mod::lemma_fundamental_div_mod(current, cols);
    assert(cols * r == r * cols) by (nonlinear_arith);
    if n == 0 {
        assert(r < rows) by (nonlinear_arith)
            requires
                current == r * cols + c,
                0 <= c,
                current < rows * cols,
                cols > 0,
        ;
        assert(r >= 0) by (nonlinear_arith)
            requires
                current == r * cols + c,
                c < cols,
                current >= 0,
                cols > 0,
        ;
        vstd::arithmetic::div_mod::lemma_small_mod(r as nat, rows as nat);
    } else {
        lemma_advance_frames(current, cols, total, (n - 1) as nat);
        let q = (r + (n - 1)) % rows;
        let a = q * cols + c;
        assert(a == advance_frames(current, cols, total, (n - 1) as nat));
        vstd::arithmetic::div_mod::lemma_fundamental_div_mod_converse(a, cols, q, c);
        vstd::arithmetic::div_mod::lemma_add_mod_noop(r + (n - 1), 1, rows);
        vstd::arithmetic::div_mod::lemma_add_mod_noop_right(q, 1, rows);
        assert(r + (n - 1) + 1 == r + n);
    }
}

/// Advancing as many times as the sheet has rows brings a frame back to
/// itself: the walk cycle of a direction repeats.
pub proof fn lemma_frames_cycle(current: int, cols: int, total: int)
    requires
        cols > 0,
        total / cols > 0,
        0 <= current < (total / cols) * cols,
    ensures
        advance_frames(current, cols, total, (total / cols) as nat) == current,
        forall|n: nat|
            #[trigger] advance_frames(current, cols, total, n) % cols == current % cols,
{
    let rows = total / cols;
    let r = current / cols;
    let c = current % cols;
    lemma_advance_frames(current, cols, total, rows as nat);
    vstd::arithmetic::div_mod::lemma_fundamental_div_mod(current, cols);
    assert(cols * r == r * cols) by (nonlinear_arith);
    assert(0 <= r < rows) by (nonlinear_arith)
        requires
            current == r * cols + c,
            0 <= c < cols,
            0 <= current < rows * cols,
            cols > 0,
    ;
    vstd::arithmetic::div_mod::lemma_mod_add_multiples_vanish(r, rows);
    vstd::arithmetic::div_mod::lemma_small_mod(r as nat, rows as nat);
    assert(r + rows == rows + r);
    assert forall|n: nat| #[trigger] advance_frames(current, cols, total, n) % cols == current % cols by {
        lemma_advance_frames(current, cols, total, n);
        let q = (r + n) % rows;
        vstd::arithmetic::div_mod::lemma_fundamental_div_mod_converse(q * cols + c, cols, q, c);
    }
}

/// The frame to show for row `row` of a sheet `cols` wide: its first frame
/// if `current` is on another row, none (keep `current`) otherwise.
pub fn row_start(current: usize, cols: usize, row: usize) -> (r: Option<usize>)
    requires
        cols > 0,
        row * cols <= usize::MAX,
    ensures
        current / cols != row ==> r == Some((row * cols) as usize),
        current / cols == row ==> r is None,
{
    let start = row * cols;
    if current / cols != row {
        Some(start)
    } else {
        None
    }
}

/// The frame to show when facing `dir`: the first frame of its column
/// (with the animation restarted) if `current` shows another column,
/// `current` itself otherwise.
pub fn face_direction(current: usize, cols: usize, dir: Direction) -> (r: (usize, bool))
    requires
        cols > 0,
        (current / cols) * cols + column_spec(dir) <= usize::MAX,
    ensures
        current % cols != column_spec(dir) ==> r == (column_spec(dir) as usize, true),
        current % cols == column_spec(dir) ==> r == (current, false),
{
    let col = direction_column(dir);
    let frame_in_col = current / cols;
    proof {
        assert(frame_in_col * cols <= current) by (nonlinear_arith)
            requires
                frame_in_col == current / cols,
                cols > 0,
        ;
    }
    let target = frame_in_col * cols + col;
    if current % cols != col {
        (col, true)
    } else {
        proof {
            vstd::arithmetic::div_mod::lemma_fundamental_div_mod(current as int, cols as int);
            assert(cols * (current / cols) == (current / cols) * cols) by (nonlinear_arith);
        }
        (target, false)
    }
}

/// The sprite sheet of a creature kind: rows and columns of frames.
pub open spec fn creature_sheet_spec(kind: Seq<char>) -> Option<(usize, usize)> {
    if kind == "kitty"@ {
        Some((4, 4))
    } else if kind == "ghost"@ {
        Some((3, 4))
    } else {
        None
    }
}

pub fn creature_sheet(kind: &str) -> (r: Option<(usize, usize)>)
    ensures
        r == creature_sheet_spec(kind@),
{
    if str_eq(kind, "kitty") {
        Some((4, 4))
    } else if str_eq(kind, "ghost") {
        Some((3, 4))
    } else {
        None
    }
}

} // verus!
