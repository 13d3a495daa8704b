use vstd::prelude::*;
use crate::piece::{PieceKind, Tetromino, moved_to};
use crate::bag::refilled;
use crate::board::{Cell, count_full, placed, lemma_count_full_push};
use crate::piece::lemma_cells_are_occupied;
use crate::game::{Game, GameState, GameEvent, new_game, lemma_landing_bounds, MAX_SIDE, LOCK_DELAY_MS};

verus! {

/// A player command, as the front end's keys map to them.
#[derive(Clone, Copy, PartialEq, Eq, Structural, Debug)]
pub enum Action {
    MoveLeft,
    MoveRight,
    SoftDrop,
    RotateCw,
    RotateCcw,
    HardDrop,
    Hold,
    TogglePause,
    Restart,
}

/// What to draw in one board square.
#[derive(Clone, Copy, PartialEq, Eq, Structural, Debug)]
pub enum Shade {
    /// The falling piece covers it.
    Piece(PieceKind),
    /// The ghost of the falling piece (where a hard drop would put it) covers it.
    Shadow(PieceKind),
    /// A locked block.
    Block(PieceKind),
    /// Nothing.
    Empty,
}

impl GameState {
    /// A command: pause and hard drop are ignored once the game is over;
    /// everything else applies as it is, also while paused. A restart deals
    /// from a fresh bag at spots `i` and `j`; other commands that bring in a
    /// piece deal at spot `i` of the bag.
    pub open spec fn apply_spec(self, action: Action, i: int, j: int) -> GameState {
        match action {
            Action::MoveLeft => self.move_spec(-1, 0).0,
            Action::MoveRight => self.move_spec(1, 0).0,
            Action::SoftDrop => self.move_spec(0, 1).0,
            Action::RotateCw => self.rotate_spec(true),
            Action::RotateCcw => self.rotate_spec(false),
            Action::Hold => self.hold_spec(i),
            Action::HardDrop => if self.game_over { self } else { self.hard_drop_spec(i) },
            Action::TogglePause => if self.game_over { self } else { GameState { paused: !self.paused, ..self } },
            Action::Restart => new_game(self.width, self.height, i, j),
        }
    }

    /// The command can be applied without a counter overflowing.
    pub open spec fn allows(self, action: Action) -> bool {
        match action {
            Action::RotateCw => self.turn_fits(true),
            Action::RotateCcw => self.turn_fits(false),
            Action::Hold => self.hold_fits(),
            Action::HardDrop => self.game_over || self.dropped().lock_fits(),
            _ => true,
        }
    }

    /// A tick at time `now` can be applied without a counter overflowing.
    pub open spec fn allows_tick(self, now: u64) -> bool {
        self.tick_locks(now) ==> self.lock_fits()
    }

    /// What board square (`x`, `y`) shows: the falling piece, else its ghost
    /// `ghost_offset` rows lower, else the board's cell.
    pub open spec fn shade_at(self, x: int, y: int) -> Shade {
        if self.current.occupies(x, y) {
            Shade::Piece(self.current.kind)
        } else if self.current.occupies(x, y - self.ghost_offset()) {
            Shade::Shadow(self.current.kind)
        } else {
            match self.board[y][x] {
                Cell::Empty => Shade::Empty,
                Cell::Filled(k) => Shade::Block(k),
            }
        }
    }

    /// Milliseconds between two gravity steps: 500 divided by the level, but
    /// never below 50.
    pub open spec fn tick_interval(self) -> int {
        if 500int / (self.level as int) > 50 { 500int / (self.level as int) } else { 50 }
    }
}

impl Game {
    /// Applies a player command (see `apply_spec`).
    pub fn apply(&mut self, action: Action)
        requires
            old(self).wf(),
            old(self)@.allows(action),
        ensures
            final(self).wf(),
            exists|i: int, j: int|
                0 <= i < 7 && 0 <= j < 6 && final(self)@ == #[trigger] old(self)@.apply_spec(action, i, j),
    {
        assert(refilled(old(self)@.bag).len() <= 7);
        match action {
            Action::Restart => {
                self.restart();
                let ghost (i, j) = choose|i: int, j: int| 0 <= i < 7 && 0 <= j < 6 && self@ == #[trigger] new_game(old(self).width, old(self).height, i, j);
                assert(self@ == old(self)@.apply_spec(action, i, j));
            },
            Action::TogglePause => {
                if !self.game_over {
                    self.paused = !self.paused;
                }
                assert(self@ =~= old(self)@.apply_spec(action, 0, 0));
            },
            Action::HardDrop => {
                if !self.game_over {
                    self.hard_drop();
                    let ghost i = choose|i: int| 0 <= i < refilled(old(self)@.bag).len() && self@ == #[trigger] old(self)@.hard_drop_spec(i);
                    assert(self@ == old(self)@.apply_spec(action, i, 0));
                } else {
                    assert(self@ == old(self)@.apply_spec(action, 0, 0));
                }
            },
            Action::MoveLeft => {
                self.move_piece(-1, 0);
                assert(self@ == old(self)@.apply_spec(action, 0, 0));
            },
            Action::MoveRight => {
                self.move_piece(1, 0);
                assert(self@ == old(self)@.apply_spec(action, 0, 0));
            },
            Action::SoftDrop => {
                self.move_piece(0, 1);
                assert(self@ == old(self)@.apply_spec(action, 0, 0));
            },
            Action::RotateCw => {
                self.rotate(true);
                assert(self@ == old(self)@.apply_spec(action, 0, 0));
            },
            Action::RotateCcw => {
                self.rotate(false);
                assert(self@ == old(self)@.apply_spec(action, 0, 0));
            },
            Action::Hold => {
                self.hold_piece();
                let ghost i = choose|i: int| 0 <= i < refilled(old(self)@.bag).len() && self@ == #[trigger] old(self)@.hold_spec(i);
                assert(self@ == old(self)@.apply_spec(action, i, 0));
            },
        }
    }

    /// Hands over the events gathered since the last call, oldest first,
    /// and forgets them.
    pub fn take_events(&mut self) -> (events: Vec<GameEvent>)
        requires
            old(self).wf(),
        ensures
            final(self).wf(),
            events@ == old(self)@.events,
            final(self)@ == (GameState { events: Seq::empty(), ..old(self)@ }),
    {
        let mut events: Vec<GameEvent> = Vec::new();
        std::mem::swap(&mut events, &mut self.events);
        assert(self@ =~= (GameState { events: Seq::empty(), ..old(self)@ }));
        events
    }

    /// Number of full rows the board would have with the piece `p` written in.
    pub fn full_rows_with(&self, p: &Tetromino) -> (n: usize)
        requires
            self@.board_ok(),
        ensures
            n == count_full(placed(self@.board, *p)),
    {
        let ghost s = self@;
        let ghost pl = placed(s.board, *p);
        let mut count: usize = 0;
        let mut r: usize = 0;
        while r < self.height
            invariant
                s == self@,
                s.board_ok(),
                pl == placed(s.board, *p),
                r <= self.height,
                count <= r,
                count == count_full(pl.take(r as int)),
            decreases self.height - r,
        {
            assert(self.board@[r as int]@ == s.board[r as int]);
            let mut full = true;
            let mut c: usize = 0;
            while c < self.width
                invariant
                    s == self@,
                    s.board_ok(),
                    pl == placed(s.board, *p),
                    r < self.height,
                    c <= self.width,
                    self.board@[r as int]@ == s.board[r as int],
                    full == (forall|k: int| 0 <= k < c ==> #[trigger] pl[r as int][k] != Cell::Empty),
                decreases self.width - c,
            {
                assert(pl[r as int][c as int] == (if p.occupies(c as int, r as int) {
                    Cell::Filled(p.kind)
                } else {
                    s.board[r as int][c as int]
                }));
                if self.board[r][c] == Cell::Empty && !covers_square(p, c, r) {
                    full = false;
                }
                c = c + 1;
            }
            proof {
                lemma_count_full_push(pl.take(r as int), pl[r as int]);
                assert(pl.take(r + 1) =~= pl.take(r as int).push(pl[r as int]));
            }
            if full {
                count = count + 1;
            }
            r = r + 1;
        }
        assert(pl.take(self.height as int) =~= pl);
        count
    }

    /// The row the piece `p` comes to rest on when it falls straight down,
    /// trying rows from `from` on (see `landing`).
    pub fn landing_from(&self, p: &Tetromino, from: i32) -> (row: i64)
        requires
            self@.board_ok(),
            p.x + 3 <= i32::MAX,
            from + 3 <= i32::MAX,
        ensures
            row == self@.landing(*p, from as int),
    {
        let ghost s = self@;
        let mut k: i32 = from;
        let mut probe = *p;
        probe.y = k;
        assert(probe == moved_to(*p, p.x as int, k as int));
        while k < self.height as i32 && !self.collision(&probe)
            invariant
                s == self@,
                s.board_ok(),
                p.x + 3 <= i32::MAX,
                from <= k,
                k <= from || k <= s.height,
                k + 3 <= i32::MAX,
                probe == moved_to(*p, p.x as int, k as int),
                s.landing(*p, k as int) == s.landing(*p, from as int),
            decreases s.height - k,
        {
            k = k + 1;
            probe.y = k;
            assert(probe == moved_to(*p, p.x as int, k as int));
        }
        k as i64 - 1
    }

    /// Whether locking the piece `p` in place of the falling piece stays
    /// within the counters.
    fn fits_locked_at(&self, p: &Tetromino) -> (ok: bool)
        requires
            self@.board_ok(),
        ensures
            ok == (GameState { current: *p, ..self@ }).lock_fits(),
    {
        let n = self.full_rows_with(p);
        let ghost s = GameState { current: *p, ..self@ };
        assert(s.place_spec().board == placed(self@.board, *p));
        if self.tick_count == u64::MAX {
            return false;
        }
        if n == 0 {
            return true;
        }
        let base: u128 = if n == 1 {
            100
        } else if n == 2 {
            300
        } else if n == 3 {
            500
        } else if n == 4 {
            800
        } else {
            0
        };
        let level = self.level as u128;
        let combo = self.combo as u128;
        let ghost lv = level as int;
        let ghost cb = combo as int;
        proof {
            assert(base * lv <= 800 * 0xffff_ffff) by (nonlinear_arith)
                requires base <= 800, 0 <= lv <= 0xffff_ffff;
            assert(cb * 50 * lv <= 0xffff_ffff * 50 * 0xffff_ffff) by (nonlinear_arith)
                requires 0 <= cb <= 0xffff_ffff, 0 <= lv <= 0xffff_ffff;
        }
        let bonus: u128 = if combo >= 1 { combo * 50 * level } else { 0 };
        (self.lines as u128) + (n as u128) <= u32::MAX as u128
            && self.combo < u32::MAX
            && (combo == 0 || combo * 50 <= u32::MAX as u128)
            && (self.score as u128) + base * level + bonus <= u32::MAX as u128
    }

    /// Whether locking the falling piece where it is stays within the counters.
    pub fn lock_fits(&self) -> (ok: bool)
        requires
            self.wf(),
        ensures
            ok == self@.lock_fits(),
    {
        assert((GameState { current: self.current, ..self@ }) == self@);
        self.fits_locked_at(&self.current)
    }

    /// Whether the ghost's row and distance fit in `i32`.
    pub fn ghost_fits(&self) -> (ok: bool)
        requires
            self.wf(),
        ensures
            ok == self@.ghost_in_range(),
    {
        let row = self.landing_from(&self.current, self.current.y);
        proof {
            lemma_landing_bounds(self@, self.current, self.current.y as int);
        }
        row >= i32::MIN as i64 && row - self.current.y as i64 <= i32::MAX as i64
    }

    /// Whether `apply(action)` can run without a counter overflowing.
    pub fn allows(&self, action: Action) -> (ok: bool)
        requires
            self.wf(),
        ensures
            ok == self@.allows(action),
    {
        match action {
            Action::RotateCw | Action::RotateCcw => {
                let clockwise = action == Action::RotateCw;
                self.current.kind == PieceKind::O
                    || !(self.last_rotation_was_cw == Some(clockwise) && self.consecutive_rotations > 0)
                    || (self.consecutive_rotations < u32::MAX && (!(self.current.kind == PieceKind::S
                    || self.current.kind == PieceKind::Z) || self.finesse_faults < u32::MAX))
            },
            Action::Hold => !self.can_hold || self.hold.is_some() || self.tick_count < u64::MAX,
            Action::HardDrop => {
                if self.game_over {
                    true
                } else {
                    let ghost s = self@;
                    let c = self.current;
                    let row = self.landing_from(&c, c.y + 1);
                    proof {
                        lemma_landing_bounds(s, c, c.y + 1);
                    }
                    let mut q = c;
                    q.y = row as i32;
                    assert(q == moved_to(c, c.x as int, s.landing(c, c.y + 1)));
                    assert((GameState { current: q, ..s }) == s.dropped());
                    self.fits_locked_at(&q)
                }
            },
            _ => true,
        }
    }

    /// Whether `tick(now_ms)` can run without a counter overflowing.
    pub fn allows_tick(&self, now_ms: u64) -> (ok: bool)
        requires
            self.wf(),
        ensures
            ok == self@.allows_tick(now_ms),
    {
        if self.game_over || self.paused {
            return true;
        }
        let mut below = self.current;
        below.y = below.y + 1;
        assert(below == moved_to(self.current, self.current.x + 0, self.current.y + 1));
        if !self.collision(&below) {
            return true;
        }
        let expired = match self.lock_delay_start {
            Some(start) => now_ms > start && now_ms - start > LOCK_DELAY_MS,
            None => false,
        };
        !expired || self.lock_fits()
    }

    /// Milliseconds between two gravity steps at the current level.
    pub fn tick_interval_ms(&self) -> (ms: u64)
        requires
            self.wf(),
        ensures
            ms == self@.tick_interval(),
    {
        let step = 500 / self.level as u64;
        if step > 50 {
            step
        } else {
            50
        }
    }
}

/// Whether the piece covers board square (`c`, `r`).
fn covers_square(p: &Tetromino, c: usize, r: usize) -> (covered: bool)
    requires
        c <= MAX_SIDE,
        r <= MAX_SIDE,
    ensures
        covered == p.occupies(c as int, r as int),
{
    let dx: i64 = c as i64 - p.x as i64;
    let dy: i64 = r as i64 - p.y as i64;
    if 0 <= dx && dx < 4 && 0 <= dy && dy < 4 {
        p.shape[dy as usize][dx as usize]
    } else {
        false
    }
}

/// Whether the list holds the cell (`x`, `y`).
fn covers(cells: &Vec<(i32, i32)>, x: i32, y: i32) -> (found: bool)
    ensures
        found == cells@.map_values(|q: (i32, i32)| (q.0 as int, q.1 as int)).contains((x as int, y as int)),
{
    let ghost cv = cells@.map_values(|q: (i32, i32)| (q.0 as int, q.1 as int));
    let mut j: usize = 0;
    while j < cells.len()
        invariant
            j <= cells@.len(),
            cv == cells@.map_values(|q: (i32, i32)| (q.0 as int, q.1 as int)),
            forall|k: int| 0 <= k < j ==> cv[k] != (x as int, y as int),
        decreases cells@.len() - j,
    {
        let (px, py) = cells[j];
        if px == x && py == y {
            assert(cv[j as int] == (x as int, y as int));
            return true;
        }
        j = j + 1;
    }
    false
}

impl Game {
    /// What each board square shows, row by row from the top: the falling
    /// piece over its ghost over the locked blocks.
    pub fn shades(&self) -> (grid: Vec<Vec<Shade>>)
        requires
            self.wf(),
            self@.ghost_in_range(),
        ensures
            grid@.len() == self.height,
            forall|y: int| 0 <= y < self.height ==> (#[trigger] grid@[y])@.len() == self.width,
            forall|y: int, x: int| 0 <= y < self.height && 0 <= x < self.width ==> #[trigger] grid@[y]@[x] == self@.shade_at(x, y),
    {
        let ghost s = self@;
        let ghost_y_offset = self.get_ghost_y_offset();
        let cells = self.current.cells();
        let ghost cv = cells@.map_values(|q: (i32, i32)| (q.0 as int, q.1 as int));
        let mut grid: Vec<Vec<Shade>> = Vec::new();
        let mut y: usize = 0;
        while y < self.height
            invariant
                s == self@,
                s.wf(),
                ghost_y_offset == s.ghost_offset(),
                cv == cells@.map_values(|q: (i32, i32)| (q.0 as int, q.1 as int)),
                cv == s.current.spec_cells(),
                y <= self.height,
                grid@.len() == y,
                forall|yy: int| 0 <= yy < y ==> (#[trigger] grid@[yy])@.len() == self.width,
                forall|yy: int, x: int| 0 <= yy < y && 0 <= x < self.width ==> #[trigger] grid@[yy]@[x] == s.shade_at(x, yy),
            decreases self.height - y,
        {
            let mut row: Vec<Shade> = Vec::new();
            let mut x: usize = 0;
            while x < self.width
                invariant
                    s == self@,
                    s.wf(),
                    ghost_y_offset == s.ghost_offset(),
                    cv == cells@.map_values(|q: (i32, i32)| (q.0 as int, q.1 as int)),
                    cv == s.current.spec_cells(),
                    y < self.height,
                    x <= self.width,
                    row@.len() == x,
                    forall|xx: int| 0 <= xx < x ==> #[trigger] row@[xx] == s.shade_at(xx, y as int),
                decreases self.width - x,
            {
                assert(self.board@[y as int]@ == s.board[y as int]);
                let cell = self.board[y][x];
                proof {
                    lemma_landing_bounds(s, s.current, s.current.y as int);
                    lemma_cells_are_occupied(s.current, (x as int, y as int));
                    lemma_cells_are_occupied(s.current, (x as int, y - ghost_y_offset));
                }
                let piece_here = covers(&cells, x as i32, y as i32);
                let ghost_here = covers(&cells, x as i32, y as i32 - ghost_y_offset);
                let shade = if piece_here {
                    Shade::Piece(self.current.kind)
                } else if ghost_here {
                    Shade::Shadow(self.current.kind)
                } else {
                    match cell {
                        Cell::Empty => Shade::Empty,
                        Cell::Filled(k) => Shade::Block(k),
                    }
                };
                row.push(shade);
                x = x + 1;
            }
            grid.push(row);
            y = y + 1;
        }
        grid
    }
}

} // verus!
