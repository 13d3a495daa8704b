use vstd::prelude::*;
use crate::piece::{PieceKind, Tetromino};

verus! {

/// One square of the board: empty, or filled by a locked piece of some kind.
#[derive(Clone, Copy, PartialEq, Eq, Structural, Debug)]
pub enum Cell {
    Empty,
    Filled(PieceKind),
}

/// A row is full when none of its cells is empty.
pub open spec fn row_full(row: Seq<Cell>) -> bool {
    forall|c: int| 0 <= c < row.len() ==> #[trigger] row[c] != Cell::Empty
}

/// A row of `width` empty cells.
pub open spec fn blank_row(width: nat) -> Seq<Cell> {
    Seq::new(width, |c: int| Cell::Empty)
}

/// `n` empty rows of `width` cells.
pub open spec fn blank_rows(n: nat, width: nat) -> Seq<Seq<Cell>> {
    Seq::new(n, |r: int| blank_row(width))
}

/// Every row has `width` cells.
pub open spec fn rows_have_width(rows: Seq<Seq<Cell>>, width: nat) -> bool {
    forall|r: int| 0 <= r < rows.len() ==> (#[trigger] rows[r]).len() == width
}

/// No row is full.
pub open spec fn no_full_row(rows: Seq<Seq<Cell>>) -> bool {
    forall|r: int| 0 <= r < rows.len() ==> !row_full(#[trigger] rows[r])
}

/// The number of full rows.
pub open spec fn count_full(rows: Seq<Seq<Cell>>) -> nat
    decreases rows.len(),
{
    if rows.len() == 0 {
        0
    } else if row_full(rows[0]) {
        1 + count_full(rows.drop_first())
    } else {
        count_full(rows.drop_first())
    }
}

/// The rows that are not full, top to bottom, in their order.
pub open spec fn kept_rows(rows: Seq<Seq<Cell>>) -> Seq<Seq<Cell>>
    decreases rows.len(),
{
    if rows.len() == 0 {
        Seq::empty()
    } else if row_full(rows[0]) {
        kept_rows(rows.drop_first())
    } else {
        seq![rows[0]] + kept_rows(rows.drop_first())
    }
}

/// The board after clearing: every full row removed, the rows above it moved
/// down, and one empty row added at the top for each row removed.
pub open spec fn cleared(rows: Seq<Seq<Cell>>, width: nat) -> Seq<Seq<Cell>> {
    blank_rows(count_full(rows), width) + kept_rows(rows)
}

/// The board with the piece's cells that lie on the board filled by its kind.
pub open spec fn placed(rows: Seq<Seq<Cell>>, p: Tetromino) -> Seq<Seq<Cell>> {
    Seq::new(
        rows.len(),
        |r: int|
            Seq::new(
                rows[r].len(),
                |c: int| if p.occupies(c, r) { Cell::Filled(p.kind) } else { rows[r][c] },
            ),
    )
}

/// Full rows and kept rows together are all rows; no kept row is full; kept
/// rows keep their width.
pub proof fn lemma_kept_rows(rows: Seq<Seq<Cell>>, width: nat)
    ensures
        count_full(rows) + kept_rows(rows).len() == rows.len(),
        no_full_row(kept_rows(rows)),
        rows_have_width(rows, width) ==> rows_have_width(kept_rows(rows), width),
    decreases rows.len(),
{
    if rows.len() > 0 {
        lemma_kept_rows(rows.drop_first(), width);
        let k = kept_rows(rows.drop_first());
        if !row_full(rows[0]) {
            let s = seq![rows[0]] + k;
            assert forall|r: int| 0 <= r < s.len() implies !row_full(#[trigger] s[r]) by {
                if r > 0 {
                    assert(s[r] == k[r - 1]);
                }
            }
            if rows_have_width(rows, width) {
                assert(rows_have_width(rows.drop_first(), width)) by {
                    assert forall|r: int| 0 <= r < rows.drop_first().len() implies (#[trigger] rows.drop_first()[r]).len() == width by {
                        assert(rows.drop_first()[r] == rows[r + 1]);
                    }
                }
                assert forall|r: int| 0 <= r < s.len() implies (#[trigger] s[r]).len() == width by {
                    if r > 0 {
                        assert(s[r] == k[r - 1]);
                    }
                }
            }
        } else {
            if rows_have_width(rows, width) {
                assert(rows_have_width(rows.drop_first(), width)) by {
                    assert forall|r: int| 0 <= r < rows.drop_first().len() implies (#[trigger] rows.drop_first()[r]).len() == width by {
                        assert(rows.drop_first()[r] == rows[r + 1]);
                    }
                }
            }
        }
    }
}

/// Clearing keeps the number of rows and their width, and leaves no full row
/// (when rows have at least one cell).
pub proof fn lemma_cleared_shape(rows: Seq<Seq<Cell>>, width: nat)
    requires
        rows_have_width(rows, width),
        width > 0,
    ensures
        cleared(rows, width).len() == rows.len(),
        rows_have_width(cleared(rows, width), width),
        no_full_row(cleared(rows, width)),
{
    lemma_kept_rows(rows, width);
    let b = blank_rows(count_full(rows), width);
    let k = kept_rows(rows);
    let s = cleared(rows, width);
    assert forall|r: int| 0 <= r < s.len() implies (#[trigger] s[r]).len() == width && !row_full(s[r]) by {
        if r < b.len() {
            assert(s[r] == blank_row(width));
            assert(s[r][0] == Cell::Empty);
        } else {
            assert(s[r] == k[r - b.len()]);
        }
    }
}

/// How many of the row numbers `0 .. len` lie in `top .. top + 4`.
pub open spec fn window_overlap(len: int, top: int) -> int {
    let lo = if top > 0 { top } else { 0 };
    let hi = if top + 4 < len { top + 4 } else { len };
    if hi > lo { hi - lo } else { 0 }
}

/// When every full row lies in the four rows from `top` down, there are at
/// most four full rows.
pub proof fn lemma_full_rows_in_window(rows: Seq<Seq<Cell>>, top: int)
    requires
        forall|r: int| 0 <= r < rows.len() && row_full(#[trigger] rows[r]) ==> top <= r < top + 4,
    ensures
        count_full(rows) <= window_overlap(rows.len() as int, top),
        count_full(rows) <= 4,
    decreases rows.len(),
{
    if rows.len() > 0 {
        let rest = rows.drop_first();
        assert forall|r: int| 0 <= r < rest.len() && row_full(#[trigger] rest[r]) implies top - 1 <= r < top - 1 + 4 by {
            assert(rest[r] == rows[r + 1]);
        }
        lemma_full_rows_in_window(rest, top - 1);
    }
}

/// A board with no full row keeps it after the piece is placed, except in the
/// rows the piece covers.
pub proof fn lemma_placed_full_rows(rows: Seq<Seq<Cell>>, p: Tetromino)
    requires
        no_full_row(rows),
    ensures
        forall|r: int| 0 <= r < rows.len() && row_full(#[trigger] placed(rows, p)[r]) ==> p.y <= r < p.y + 4,
        count_full(placed(rows, p)) <= 4,
{
    let s = placed(rows, p);
    assert forall|r: int| 0 <= r < rows.len() && row_full(#[trigger] s[r]) implies p.y <= r < p.y + 4 by {
        if !(p.y <= r < p.y + 4) {
            assert forall|c: int| 0 <= c < rows[r].len() implies #[trigger] rows[r][c] != Cell::Empty by {
                assert(s[r][c] == rows[r][c]);
            }
        }
    }
    assert(s.len() == rows.len());
    lemma_full_rows_in_window(s, p.y as int);
}

/// A row of `width` empty cells.
pub fn empty_row(width: usize) -> (row: Vec<Cell>)
    ensures
        row@ == blank_row(width as nat),
{
    let mut row: Vec<Cell> = Vec::new();
    let mut i: usize = 0;
    while i < width
        invariant
            i <= width,
            row@ == blank_row(i as nat),
        decreases width - i,
    {
        row.push(Cell::Empty);
        i = i + 1;
        assert(row@ =~= blank_row(i as nat));
    }
    row
}

/// Whether no cell of the row is empty.
pub fn is_row_full(row: &Vec<Cell>) -> (full: bool)
    ensures
        full == row_full(row@),
{
    let mut c: usize = 0;
    while c < row.len()
        invariant
            c <= row@.len(),
            forall|j: int| 0 <= j < c ==> #[trigger] row@[j] != Cell::Empty,
        decreases row@.len() - c,
    {
        if row[c] == Cell::Empty {
            return false;
        }
        c = c + 1;
    }
    true
}

/// The rows of a board, each as a sequence of cells.
pub open spec fn rows_of(board: Seq<Vec<Cell>>) -> Seq<Seq<Cell>> {
    board.map_values(|row: Vec<Cell>| row@)
}

/// Clears the board as `cleared` states: scanning from the bottom row up,
/// each full row is removed, the rows above it move down one, and an empty
/// row comes in at the top. Returns the number of rows removed.
pub fn remove_full_rows(board: &mut Vec<Vec<Cell>>, width: usize) -> (removed: usize)
    requires
        width > 0,
        rows_have_width(rows_of(old(board)@), width as nat),
    ensures
        removed == count_full(rows_of(old(board)@)),
        rows_of(final(board)@) == cleared(rows_of(old(board)@), width as nat),
{
    let ghost old_rows = rows_of(board@);
    let ghost mut m: int = board@.len() as int;
    let mut count: usize = 0;
    let mut above: usize = board.len();
    proof {
        assert(old_rows.skip(m) =~= Seq::<Seq<Cell>>::empty());
        assert(rows_of(board@) =~= blank_rows(0, width as nat) + old_rows.take(m) + kept_rows(old_rows.skip(m)));
    }
    while above > 0
        invariant
            width > 0,
            rows_have_width(old_rows, width as nat),
            0 <= m <= old_rows.len(),
            count + m <= old_rows.len(),
            rows_of(board@) == blank_rows(count as nat, width as nat) + old_rows.take(m) + kept_rows(old_rows.skip(m)),
            count == count_full(old_rows.skip(m)),
            above <= count + m,
            m > 0 ==> above == count + m,
        decreases above + m,
    {
        let y = above - 1;
        proof {
            lemma_kept_rows(old_rows.skip(m), width as nat);
        }
        let ghost cur = rows_of(board@);
        assert(cur.len() == board@.len());
        assert(cur.len() >= count + m);
        assert(board@[y as int]@ == cur[y as int]);
        if is_row_full(&board[y]) {
            proof {
                if m == 0 {
                    assert(cur[y as int] == blank_row(width as nat));
                    assert(cur[y as int][0] == Cell::Empty);
                }
                assert(cur[y as int] == old_rows[m - 1]);
                let tail = old_rows.skip(m - 1);
                assert(tail[0] == old_rows[m - 1]);
                assert(tail.drop_first() =~= old_rows.skip(m));
            }
            let ghost before_board = board@;
            let _gone = board.remove(y);
            let ghost mid_board = board@;
            board.insert(0, empty_row(width));
            proof {
                let after = rows_of(board@);
                let blank = blank_rows(count as nat, width as nat);
                let kept = kept_rows(old_rows.skip(m));
                let cur2 = blank + old_rows.take(m - 1) + kept;
                assert(mid_board == before_board.remove(y as int));
                assert(rows_of(mid_board) =~= cur2) by {
                    assert forall|i: int| 0 <= i < cur2.len() implies #[trigger] rows_of(mid_board)[i] == cur2[i] by {
                        if i < y {
                            assert(mid_board[i] == before_board[i]);
                            assert(cur[i] == cur2[i]);
                        } else {
                            assert(mid_board[i] == before_board[i + 1]);
                            assert(cur[i + 1] == cur2[i]);
                        }
                    }
                }
                assert(after =~= seq![blank_row(width as nat)] + cur2) by {
                    assert forall|i: int| 0 <= i < after.len() implies #[trigger] after[i] == (seq![blank_row(width as nat)] + cur2)[i] by {
                        if i > 0 {
                            assert(board@[i] == mid_board[i - 1]);
                        }
                    }
                }
                let want = blank_rows((count + 1) as nat, width as nat) + old_rows.take(m - 1) + kept_rows(old_rows.skip(m - 1));
                assert(after =~= want);
                m = m - 1;
            }
            count = count + 1;
        } else {
            proof {
                if m > 0 {
                    assert(cur[y as int] == old_rows[m - 1]);
                    let tail = old_rows.skip(m - 1);
                    assert(tail[0] == old_rows[m - 1]);
                    assert(tail.drop_first() =~= old_rows.skip(m));
                    assert(kept_rows(tail) == seq![old_rows[m - 1]] + kept_rows(old_rows.skip(m)));
                    assert(cur =~= blank_rows(count as nat, width as nat) + old_rows.take(m - 1) + kept_rows(old_rows.skip(m - 1)));
                    m = m - 1;
                }
            }
            above = above - 1;
        }
    }
    proof {
        assert(old_rows.skip(0) =~= old_rows);
        assert(old_rows.take(0) =~= Seq::<Seq<Cell>>::empty());
        assert(rows_of(board@) =~= cleared(old_rows, width as nat));
    }
    count
}

/// The board with the cells among the first `n` of `cells` that lie on the
/// board filled by `kind`.
pub open spec fn filled_upto(rows: Seq<Seq<Cell>>, kind: PieceKind, cells: Seq<(int, int)>, n: int) -> Seq<Seq<Cell>> {
    Seq::new(
        rows.len(),
        |r: int|
            Seq::new(
                rows[r].len(),
                |c: int| if cells.take(n).contains((c, r)) { Cell::Filled(kind) } else { rows[r][c] },
            ),
    )
}

/// Counting full rows row by row: one more row adds one when it is full.
pub proof fn lemma_count_full_push(rows: Seq<Seq<Cell>>, row: Seq<Cell>)
    ensures
        count_full(rows.push(row)) == count_full(rows) + (if row_full(row) { 1int } else { 0int }),
    decreases rows.len(),
{
    let s = rows.push(row);
    if rows.len() == 0 {
        assert(s[0] == row);
        assert(s.drop_first() =~= Seq::<Seq<Cell>>::empty());
        assert(count_full(s.drop_first()) == 0);
    } else {
        assert(s[0] == rows[0]);
        assert(s.drop_first() =~= rows.drop_first().push(row));
        lemma_count_full_push(rows.drop_first(), row);
    }
}

/// A board without full rows counts none.
pub proof fn lemma_no_full_row_counts_zero(rows: Seq<Seq<Cell>>)
    requires
        no_full_row(rows),
    ensures
        count_full(rows) == 0,
    decreases rows.len(),
{
    if rows.len() > 0 {
        assert(!row_full(rows[0]));
        assert forall|r: int| 0 <= r < rows.drop_first().len() implies !row_full(#[trigger] rows.drop_first()[r]) by {
            assert(rows.drop_first()[r] == rows[r + 1]);
        }
        lemma_no_full_row_counts_zero(rows.drop_first());
    }
}

/// A board without full rows keeps all its rows.
pub proof fn lemma_kept_all(rows: Seq<Seq<Cell>>)
    requires
        no_full_row(rows),
    ensures
        kept_rows(rows) == rows,
    decreases rows.len(),
{
    if rows.len() > 0 {
        assert(!row_full(rows[0]));
        assert forall|r: int| 0 <= r < rows.drop_first().len() implies !row_full(#[trigger] rows.drop_first()[r]) by {
            assert(rows.drop_first()[r] == rows[r + 1]);
        }
        lemma_kept_all(rows.drop_first());
        assert(seq![rows[0]] + rows.drop_first() =~= rows);
    } else {
        assert(rows =~= Seq::<Seq<Cell>>::empty());
    }
}

} // verus!
