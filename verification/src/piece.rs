use vstd::prelude::*;

verus! {

/// The seven tetromino kinds.
#[derive(Clone, Copy, PartialEq, Eq, Structural, Debug)]
pub enum PieceKind {
    I,
    O,
    T,
    S,
    Z,
    L,
    J,
}

/// Whether the cell at row `r`, column `c` of the 4x4 spawn shape of `kind` is filled.
pub open spec fn spawn_cell(kind: PieceKind, r: int, c: int) -> bool {
    match kind {
        PieceKind::I => r == 1 && 0 <= c < 4,
        PieceKind::O => 0 <= r < 2 && 0 <= c < 2,
        PieceKind::T => (r == 0 && c == 1) || (r == 1 && 0 <= c < 3),
        PieceKind::S => (r == 0 && (c == 1 || c == 2)) || (r == 1 && (c == 0 || c == 1)),
        PieceKind::Z => (r == 0 && (c == 0 || c == 1)) || (r == 1 && (c == 1 || c == 2)),
        PieceKind::L => (r == 0 && c == 2) || (r == 1 && 0 <= c < 3),
        PieceKind::J => (r == 0 && c == 0) || (r == 1 && 0 <= c < 3),
    }
}

/// A piece: its 4x4 shape (row-major), its kind, and the board position of the
/// shape's top-left corner.
#[derive(Clone, Copy, Debug)]
pub struct Tetromino {
    pub shape: [[bool; 4]; 4],
    pub kind: PieceKind,
    pub x: i32,
    pub y: i32,
}

impl Tetromino {
    /// Whether the shape has its cell at row `r`, column `c` filled.
    pub open spec fn filled(self, r: int, c: int) -> bool {
        0 <= r < 4 && 0 <= c < 4 && self.shape[r][c]
    }

    /// Whether the piece covers the board cell at column `px`, row `py`.
    pub open spec fn occupies(self, px: int, py: int) -> bool {
        self.filled(py - self.y, px - self.x)
    }

    /// The shape is exactly the spawn shape of its kind.
    pub open spec fn has_spawn_shape(self) -> bool {
        forall|r: int, c: int| 0 <= r < 4 && 0 <= c < 4 ==> #[trigger] self.shape[r][c] == spawn_cell(self.kind, r, c)
    }

    /// The long bar.
    pub fn i() -> (p: Self)
        ensures
            p.kind == PieceKind::I,
            p.has_spawn_shape(),
            p.x == 3,
            p.y == 0,
    {
        Self {
            shape: [
                [false, false, false, false],
                [true, true, true, true],
                [false, false, false, false],
                [false, false, false, false],
            ],
            kind: PieceKind::I,
            x: 3,
            y: 0,
        }
    }

    /// The square.
    pub fn o() -> (p: Self)
        ensures
            p.kind == PieceKind::O,
            p.has_spawn_shape(),
            p.x == 4,
            p.y == 0,
    {
        Self {
            shape: [
                [true, true, false, false],
                [true, true, false, false],
                [false, false, false, false],
                [false, false, false, false],
            ],
            kind: PieceKind::O,
            x: 4,
            y: 0,
        }
    }

    /// The T piece.
    pub fn t() -> (p: Self)
        ensures
            p.kind == PieceKind::T,
            p.has_spawn_shape(),
            p.x == 3,
            p.y == 0,
    {
        Self {
            shape: [
                [false, true, false, false],
                [true, true, true, false],
                [false, false, false, false],
                [false, false, false, false],
            ],
            kind: PieceKind::T,
            x: 3,
            y: 0,
        }
    }

    /// The S piece.
    pub fn s() -> (p: Self)
        ensures
            p.kind == PieceKind::S,
            p.has_spawn_shape(),
            p.x == 3,
            p.y == 0,
    {
        Self {
            shape: [
                [false, true, true, false],
                [true, true, false, false],
                [false, false, false, false],
                [false, false, false, false],
            ],
            kind: PieceKind::S,
            x: 3,
            y: 0,
        }
    }

    /// The Z piece.
    pub fn z() -> (p: Self)
        ensures
            p.kind == PieceKind::Z,
            p.has_spawn_shape(),
            p.x == 3,
            p.y == 0,
    {
        Self {
            shape: [
                [true, true, false, false],
                [false, true, true, false],
                [false, false, false, false],
                [false, false, false, false],
            ],
            kind: PieceKind::Z,
            x: 3,
            y: 0,
        }
    }

    /// The L piece.
    pub fn l() -> (p: Self)
        ensures
            p.kind == PieceKind::L,
            p.has_spawn_shape(),
            p.x == 3,
            p.y == 0,
    {
        Self {
            shape: [
                [false, false, true, false],
                [true, true, true, false],
                [false, false, false, false],
                [false, false, false, false],
            ],
            kind: PieceKind::L,
            x: 3,
            y: 0,
        }
    }

    /// The J piece.
    pub fn j() -> (p: Self)
        ensures
            p.kind == PieceKind::J,
            p.has_spawn_shape(),
            p.x == 3,
            p.y == 0,
    {
        Self {
            shape: [
                [true, false, false, false],
                [true, true, true, false],
                [false, false, false, false],
                [false, false, false, false],
            ],
            kind: PieceKind::J,
            x: 3,
            y: 0,
        }
    }

    /// The spawn piece of the given kind, as the constructors above build it.
    pub fn of_kind(kind: PieceKind) -> (p: Self)
        ensures
            p.kind == kind,
            p.has_spawn_shape(),
            p.x == spawn_x(kind),
            p.y == 0,
            p == spawn_piece_of(kind),
    {
        let p = match kind {
            PieceKind::I => Self::i(),
            PieceKind::O => Self::o(),
            PieceKind::T => Self::t(),
            PieceKind::S => Self::s(),
            PieceKind::Z => Self::z(),
            PieceKind::L => Self::l(),
            PieceKind::J => Self::j(),
        };
        proof {
            lemma_spawn_piece_value(p);
        }
        p
    }

    /// `b` is `a` turned a quarter clockwise inside its 4x4 box: the cell of
    /// `a` at row `r`, column `c` moves to row `c`, column `3 - r`.
    pub open spec fn is_cw_turn_of(b: Self, a: Self) -> bool {
        &&& b.kind == a.kind
        &&& b.x == a.x
        &&& b.y == a.y
        &&& forall|r: int, c: int| 0 <= r < 4 && 0 <= c < 4 ==> #[trigger] b.shape[r][c] == a.shape[3 - c][r]
    }

    /// Turns the piece a quarter clockwise in place; kind and position stay.
    pub fn rotate(&self) -> (p: Self)
        ensures
            Self::is_cw_turn_of(p, *self),
            p == turned(*self),
    {
        let s = self.shape;
        let new_shape = [
            [s[3][0], s[2][0], s[1][0], s[0][0]],
            [s[3][1], s[2][1], s[1][1], s[0][1]],
            [s[3][2], s[2][2], s[1][2], s[0][2]],
            [s[3][3], s[2][3], s[1][3], s[0][3]],
        ];
        let p = Self { shape: new_shape, ..*self };
        proof {
            lemma_turn_value(*self, p);
        }
        p
    }

    /// The board cells that the piece covers, row by row, left to right,
    /// before row `r`, column `c` of its shape.
    pub open spec fn cells_upto(self, r: int, c: int) -> Seq<(int, int)>
        decreases r, c,
    {
        if r <= 0 && c <= 0 {
            Seq::empty()
        } else if c <= 0 {
            self.cells_upto(r - 1, 4)
        } else if self.filled(r, c - 1) {
            self.cells_upto(r, c - 1).push((self.x + c - 1, self.y + r))
        } else {
            self.cells_upto(r, c - 1)
        }
    }

    /// All board cells that the piece covers, row by row, left to right.
    pub open spec fn spec_cells(self) -> Seq<(int, int)> {
        self.cells_upto(3, 4)
    }

    /// The board cells that the piece covers, as (column, row) pairs, row by
    /// row and left to right.
    pub fn cells(&self) -> (cells: Vec<(i32, i32)>)
        requires
            self.x + 3 <= i32::MAX,
            self.y + 3 <= i32::MAX,
        ensures
            cells@.map_values(|p: (i32, i32)| (p.0 as int, p.1 as int)) == self.spec_cells(),
    {
        let mut cells: Vec<(i32, i32)> = Vec::new();
        let mut y: i32 = 0;
        while y < 4
            invariant
                0 <= y <= 4,
                self.x + 3 <= i32::MAX,
                self.y + 3 <= i32::MAX,
                cells@.map_values(|p: (i32, i32)| (p.0 as int, p.1 as int)) == (if y == 0 {
                    Seq::empty()
                } else {
                    self.cells_upto(y - 1, 4)
                }),
            decreases 4 - y,
        {
            let mut x: i32 = 0;
            while x < 4
                invariant
                    0 <= y < 4,
                    0 <= x <= 4,
                    self.x + 3 <= i32::MAX,
                    self.y + 3 <= i32::MAX,
                    cells@.map_values(|p: (i32, i32)| (p.0 as int, p.1 as int)) == self.cells_upto(y as int, x as int),
                decreases 4 - x,
            {
                let ghost before = cells@;
                if self.shape[y as usize][x as usize] {
                    cells.push((self.x + x, self.y + y));
                    assert(cells@.map_values(|p: (i32, i32)| (p.0 as int, p.1 as int)) =~= before.map_values(|p: (i32, i32)| (p.0 as int, p.1 as int)).push((self.x + x, self.y + y)));
                }
                x = x + 1;
            }
            y = y + 1;
        }
        cells
    }
}

/// The column at which the constructors place a piece of the given kind.
pub open spec fn spawn_x(kind: PieceKind) -> int {
    if kind == PieceKind::O { 4 } else { 3 }
}

/// Four quarter turns clockwise give back the piece that was turned: turning
/// counter-clockwise (three turns) undoes a clockwise turn, and the reverse.
pub proof fn lemma_four_turns_restore(p: Tetromino, q1: Tetromino, q2: Tetromino, q3: Tetromino, q4: Tetromino)
    requires
        Tetromino::is_cw_turn_of(q1, p),
        Tetromino::is_cw_turn_of(q2, q1),
        Tetromino::is_cw_turn_of(q3, q2),
        Tetromino::is_cw_turn_of(q4, q3),
    ensures
        q4 == p,
{
    assert forall|r: int| 0 <= r < 4 implies q4.shape[r] == p.shape[r] by {
        assert forall|c: int| 0 <= c < 4 implies q4.shape[r][c] == p.shape[r][c] by {
            assert(q4.shape[r][c] == q3.shape[3 - c][r]);
            assert(q3.shape[3 - c][r] == q2.shape[3 - r][3 - c]);
            assert(q2.shape[3 - r][3 - c] == q1.shape[c][3 - r]);
            assert(q1.shape[c][3 - r] == p.shape[r][c]);
        }
        assert(q4.shape[r] =~= p.shape[r]);
    }
    assert(q4.shape =~= p.shape);
}

/// A quarter turn keeps the number of filled cells in each spot of the box:
/// a cell is filled after the turn exactly where its source was filled.
pub proof fn lemma_turn_keeps_cells(p: Tetromino, q: Tetromino, r: int, c: int)
    requires
        Tetromino::is_cw_turn_of(q, p),
    ensures
        p.filled(r, c) == q.filled(c, 3 - r),
{
}

/// The board cells listed before row `r`, column `c` of the shape are exactly
/// the cells that the piece covers from a spot of its shape that comes first
/// in row-major order.
pub proof fn lemma_cells_upto(p: Tetromino, r: int, c: int, cell: (int, int))
    requires
        0 <= r < 4,
        0 <= c <= 4,
    ensures
        p.cells_upto(r, c).contains(cell) <==> (p.occupies(cell.0, cell.1) && (cell.1 - p.y < r || (
        cell.1 - p.y == r && cell.0 - p.x < c))),
    decreases r, c,
{
    if r <= 0 && c <= 0 {
    } else if c <= 0 {
        lemma_cells_upto(p, r - 1, 4, cell);
    } else {
        lemma_cells_upto(p, r, c - 1, cell);
        let s = p.cells_upto(r, c - 1);
        if p.filled(r, c - 1) {
            let t = s.push((p.x + c - 1, p.y + r));
            if s.contains(cell) {
                let i = choose|i: int| 0 <= i < s.len() && s[i] == cell;
                assert(t[i] == cell);
            }
            if t.contains(cell) && cell != (p.x + c - 1, p.y + r) {
                let i = choose|i: int| 0 <= i < t.len() && t[i] == cell;
                assert(s[i] == cell);
            }
            if cell == (p.x + c - 1, p.y + r) {
                assert(t[t.len() - 1] == cell);
            }
        }
    }
}

/// The cells that `cells` lists are exactly the board cells that the piece covers.
pub proof fn lemma_cells_are_occupied(p: Tetromino, cell: (int, int))
    ensures
        p.spec_cells().contains(cell) <==> p.occupies(cell.0, cell.1),
{
    lemma_cells_upto(p, 3, 4, cell);
}

/// The spawn piece of `kind`, as a value.
pub open spec fn spawn_piece_of(kind: PieceKind) -> Tetromino {
    Tetromino {
        shape: [
            [spawn_cell(kind, 0, 0), spawn_cell(kind, 0, 1), spawn_cell(kind, 0, 2), spawn_cell(kind, 0, 3)],
            [spawn_cell(kind, 1, 0), spawn_cell(kind, 1, 1), spawn_cell(kind, 1, 2), spawn_cell(kind, 1, 3)],
            [spawn_cell(kind, 2, 0), spawn_cell(kind, 2, 1), spawn_cell(kind, 2, 2), spawn_cell(kind, 2, 3)],
            [spawn_cell(kind, 3, 0), spawn_cell(kind, 3, 1), spawn_cell(kind, 3, 2), spawn_cell(kind, 3, 3)],
        ],
        kind,
        x: spawn_x(kind) as i32,
        y: 0,
    }
}

/// The piece turned a quarter clockwise, as a value.
pub open spec fn turned(p: Tetromino) -> Tetromino {
    let s = p.shape;
    Tetromino {
        shape: [
            [s[3][0], s[2][0], s[1][0], s[0][0]],
            [s[3][1], s[2][1], s[1][1], s[0][1]],
            [s[3][2], s[2][2], s[1][2], s[0][2]],
            [s[3][3], s[2][3], s[1][3], s[0][3]],
        ],
        ..p
    }
}

/// The piece moved to column `x`, row `y`.
pub open spec fn moved_to(p: Tetromino, x: int, y: int) -> Tetromino {
    Tetromino { x: x as i32, y: y as i32, ..p }
}

/// Some cell of the shape is filled.
pub open spec fn has_cells(p: Tetromino) -> bool {
    exists|r: int, c: int| #[trigger] p.filled(r, c)
}

/// A piece with its spawn shape, kind and position is the spawn piece of its kind.
pub proof fn lemma_spawn_piece_value(p: Tetromino)
    requires
        p.has_spawn_shape(),
        p.x == spawn_x(p.kind),
        p.y == 0,
    ensures
        p == spawn_piece_of(p.kind),
        has_cells(p),
{
    let q = spawn_piece_of(p.kind);
    assert forall|r: int| 0 <= r < 4 implies p.shape[r] == q.shape[r] by {
        assert forall|c: int| 0 <= c < 4 implies p.shape[r][c] == q.shape[r][c] by {
            assert(p.shape[r][c] == spawn_cell(p.kind, r, c));
        }
        assert(p.shape[r] =~= q.shape[r]);
    }
    assert(p.shape =~= q.shape);
    if p.kind == PieceKind::Z {
        assert(p.shape[0][0] == spawn_cell(p.kind, 0, 0));
        assert(p.filled(0, 0));
    } else {
        assert(p.shape[1][1] == spawn_cell(p.kind, 1, 1));
        assert(p.filled(1, 1));
    }
}

/// A quarter turn as `rotate` states it gives the value `turned`, and keeps
/// the piece non-empty.
pub proof fn lemma_turn_value(p: Tetromino, q: Tetromino)
    requires
        Tetromino::is_cw_turn_of(q, p),
    ensures
        q == turned(p),
        has_cells(p) ==> has_cells(q),
{
    let t = turned(p);
    assert forall|r: int| 0 <= r < 4 implies q.shape[r] == t.shape[r] by {
        assert forall|c: int| 0 <= c < 4 implies q.shape[r][c] == t.shape[r][c] by {
            assert(q.shape[r][c] == p.shape[3 - c][r]);
        }
        assert(q.shape[r] =~= t.shape[r]);
    }
    assert(q.shape =~= t.shape);
    if has_cells(p) {
        let (r, c) = choose|r: int, c: int| #[trigger] p.filled(r, c);
        assert(q.shape[c][3 - r] == p.shape[r][c]);
        assert(q.filled(c, 3 - r));
    }
}

/// Moving a piece keeps its shape, so a non-empty piece stays non-empty.
pub proof fn lemma_moved_has_cells(p: Tetromino, x: int, y: int)
    requires
        has_cells(p),
    ensures
        has_cells(moved_to(p, x, y)),
{
    let (r, c) = choose|r: int, c: int| #[trigger] p.filled(r, c);
    assert(moved_to(p, x, y).filled(r, c));
}

/// Every spawn piece has cells.
pub proof fn lemma_spawn_has_cells(kind: PieceKind)
    ensures
        has_cells(spawn_piece_of(kind)),
{
    let p = spawn_piece_of(kind);
    if kind == PieceKind::Z {
        assert(p.filled(0, 0));
    } else {
        assert(p.filled(1, 1));
    }
}

} // verus!
